//! A knight's tour of a 6-by-6 board by depth-first search.
use vstd::prelude::*;

verus! {

pub const NUM_ROWS: usize = 6;
pub const NUM_COLS: usize = NUM_ROWS;
pub const INUM_ROWS: i32 = 6;
pub const INUM_COLS: i32 = INUM_ROWS;

/// Whether the tour must end a knight's move away from the top-left square.
pub const REQUIRE_CLOSED_TOUR: bool = false;

/// The mark of a square that the tour has not visited.
pub const UNVISITED: i32 = -1;

pub type Board = [[i32; NUM_COLS]; NUM_ROWS];

/// The mark on square `(r, c)`.
pub open spec fn mark(b: Board, r: int, c: int) -> i32 {
    b[r][c]
}

pub open spec fn on_board(r: int, c: int) -> bool {
    0 <= r < INUM_ROWS && 0 <= c < INUM_COLS
}

/// Every move changes a coordinate by at most two.
pub open spec fn short_moves(offsets: [[i32; 2]; 8]) -> bool {
    forall|i: int, j: int| 0 <= i < 8 && 0 <= j < 2 ==> -2 <= #[trigger] offsets[i][j] <= 2
}

/// One move of `offsets` leads from `(r, c)` back to the top-left square.
pub open spec fn closes(offsets: [[i32; 2]; 8], r: int, c: int) -> bool {
    exists|i: int| 0 <= i < 8 && r + #[trigger] offsets[i][0] == 0 && c + offsets[i][1] == 0
}

/// From `(r, c)` the board records a tour through the squares marked `k`,
/// `k + 1`, ..., 35, each one move of `offsets` from the one before, ending one
/// move further on the 36th square, which is reached but left unvisited.
pub open spec fn is_tour_from(b: Board, offsets: [[i32; 2]; 8], r: int, c: int, k: int) -> bool
    decreases INUM_ROWS * INUM_COLS - k, 9int,
{
    if k >= INUM_ROWS * INUM_COLS {
        &&& on_board(r, c)
        &&& mark(b, r, c) == UNVISITED
        &&& REQUIRE_CLOSED_TOUR ==> closes(offsets, r, c)
    } else {
        &&& on_board(r, c)
        &&& mark(b, r, c) == k
        &&& continues_from(b, offsets, r, c, k, 0)
    }
}

/// One of the moves `offsets[i]`, `offsets[i + 1]`, ... leads from `(r, c)`
/// to a tour from the square marked `k + 1`.
pub open spec fn continues_from(
    b: Board,
    offsets: [[i32; 2]; 8],
    r: int,
    c: int,
    k: int,
    i: int,
) -> bool
    decreases INUM_ROWS * INUM_COLS - k, 8 - i,
{
    if k >= INUM_ROWS * INUM_COLS || i < 0 || i >= 8 {
        false
    } else {
        is_tour_from(b, offsets, r + offsets[i][0], c + offsets[i][1], k + 1) || continues_from(
            b,
            offsets,
            r,
            c,
            k,
            i + 1,
        )
    }
}

proof fn lemma_continues_from(
    b: Board,
    offsets: [[i32; 2]; 8],
    r: int,
    c: int,
    k: int,
    i: int,
    j: int,
)
    requires
        0 <= j <= i < 8,
        k < INUM_ROWS * INUM_COLS,
        is_tour_from(b, offsets, r + offsets[i][0], c + offsets[i][1], k + 1),
    ensures
        continues_from(b, offsets, r, c, k, j),
    decreases i - j,
{
    if j < i {
        lemma_continues_from(b, offsets, r, c, k, i, j + 1);
    }
}

/// The marks of the board, row by row.
pub open spec fn marks(b: Board) -> Seq<i32> {
    Seq::new(36, |k: int| mark(b, k / 6, k % 6))
}

/// Whether a tour can be completed from `(r, c)`, the `k`-th square, on a board
/// whose marks are `m`: after marking `(r, c)` with `k`, some move in the order
/// of `offsets` leads to an unvisited square from which it can be completed.
pub open spec fn tour_exists(m: Seq<i32>, offsets: [[i32; 2]; 8], r: int, c: int, k: int) -> bool
    decreases INUM_ROWS * INUM_COLS - k, 9int,
{
    if k >= INUM_ROWS * INUM_COLS {
        !REQUIRE_CLOSED_TOUR || closes(offsets, r, c)
    } else {
        tour_exists_via(m.update(r * 6 + c, k as i32), offsets, r, c, k, 0)
    }
}

/// Whether one of the moves `offsets[i]`, `offsets[i + 1]`, ... leads from
/// `(r, c)` to an unvisited square from which the tour can be completed.
pub open spec fn tour_exists_via(
    m: Seq<i32>,
    offsets: [[i32; 2]; 8],
    r: int,
    c: int,
    k: int,
    i: int,
) -> bool
    decreases INUM_ROWS * INUM_COLS - k, 8 - i,
{
    if k >= INUM_ROWS * INUM_COLS || i < 0 || i >= 8 {
        false
    } else {
        let nr = r + offsets[i][0];
        let nc = c + offsets[i][1];
        (on_board(nr, nc) && m[nr * 6 + nc] == UNVISITED && tour_exists(m, offsets, nr, nc, k + 1))
            || tour_exists_via(m, offsets, r, c, k, i + 1)
    }
}

proof fn lemma_marks_at(b: Board, r: int, c: int)
    requires
        on_board(r, c),
    ensures
        marks(b)[r * 6 + c] == mark(b, r, c),
{
    vstd::arithmetic::div_mod::lemma_fundamental_div_mod_converse(r * 6 + c, 6, r, c);
}

proof fn lemma_tour_exists_via_step(
    m: Seq<i32>,
    offsets: [[i32; 2]; 8],
    r: int,
    c: int,
    k: int,
    i: int,
    step: bool,
)
    requires
        0 <= i < 8,
        k < INUM_ROWS * INUM_COLS,
        step == (on_board(r + offsets[i][0], c + offsets[i][1]) && m[(r + offsets[i][0]) * 6 + (c
            + offsets[i][1])] == UNVISITED && tour_exists(
            m,
            offsets,
            r + offsets[i][0],
            c + offsets[i][1],
            k + 1,
        )),
    ensures
        tour_exists_via(m, offsets, r, c, k, i) == (step || tour_exists_via(m, offsets, r, c, k, i + 1)),
{
}

/// Whether `(cur_row, cur_col)` lies on the board.
pub fn is_valid(cur_row: i32, cur_col: i32) -> (r: bool)
    ensures
        r == on_board(cur_row as int, cur_col as int),
{
    cur_row >= 0 && cur_row < INUM_ROWS && cur_col >= 0 && cur_col < INUM_COLS
}

fn set_mark(board: &mut Board, r: usize, c: usize, v: i32)
    requires
        r < NUM_ROWS,
        c < NUM_COLS,
    ensures
        forall|i: int, j: int|
            on_board(i, j) ==> #[trigger] mark(*final(board), i, j) == if i == r && j == c {
                v
            } else {
                mark(*old(board), i, j)
            },
{
    let mut row = board[r];
    row.set(c, v);
    board.set(r, row);
}

/// Tries to extend the tour from `(cur_row, cur_col)`, the `num_visited`-th
/// square, trying the moves in the order of `offsets`. Once every square is
/// visited the board is left as it is and the tour is complete (when a closed
/// tour is required, only if it can return to the top-left square). Otherwise,
/// on success the board records the tour; on failure the current square is
/// marked unvisited again.
pub fn find_tour(
    board: &mut Board,
    offsets: &mut [[i32; 2]; 8],
    cur_row: i32,
    cur_col: i32,
    num_visited: i32,
) -> (found: bool)
    requires
        on_board(cur_row as int, cur_col as int),
        1 <= num_visited <= INUM_ROWS * INUM_COLS,
        short_moves(*old(offsets)),
    ensures
        *final(offsets) == *old(offsets),
        found == tour_exists(
            marks(*old(board)),
            *old(offsets),
            cur_row as int,
            cur_col as int,
            num_visited as int,
        ),
        num_visited == INUM_ROWS * INUM_COLS ==> found == (!REQUIRE_CLOSED_TOUR || closes(
            *old(offsets),
            cur_row as int,
            cur_col as int,
        )),
        num_visited == INUM_ROWS * INUM_COLS ==> forall|i: int, j: int|
            on_board(i, j) ==> #[trigger] mark(*final(board), i, j) == mark(*old(board), i, j),
        found && num_visited < INUM_ROWS * INUM_COLS ==> is_tour_from(
            *final(board),
            *old(offsets),
            cur_row as int,
            cur_col as int,
            num_visited as int,
        ),
        found ==> forall|i: int, j: int|
            on_board(i, j) && !(i == cur_row && j == cur_col) && mark(*old(board), i, j)
                != UNVISITED ==> #[trigger] mark(*final(board), i, j) == mark(*old(board), i, j),
        !found ==> forall|i: int, j: int|
            on_board(i, j) ==> #[trigger] mark(*final(board), i, j) == if i == cur_row && j
                == cur_col && num_visited < INUM_ROWS * INUM_COLS {
                UNVISITED
            } else {
                mark(*old(board), i, j)
            },
    decreases INUM_ROWS * INUM_COLS - num_visited,
{
    if num_visited == INUM_ROWS * INUM_COLS {
        if REQUIRE_CLOSED_TOUR {
            let mut i: usize = 0;
            while i < 8
                invariant
                    0 <= i <= 8,
                    on_board(cur_row as int, cur_col as int),
                    num_visited == INUM_ROWS * INUM_COLS,
                    short_moves(*offsets),
                    *offsets == *old(offsets),
                    forall|j: int|
                        0 <= j < i ==> !(cur_row + #[trigger] offsets[j][0] == 0 && cur_col
                            + offsets[j][1] == 0),
                decreases 8 - i,
            {
                assert(-2 <= offsets[i as int][0] <= 2 && -2 <= offsets[i as int][1] <= 2);
                let new_row = cur_row + offsets[i][0];
                let new_col = cur_col + offsets[i][1];
                if new_row == 0 && new_col == 0 {
                    assert(cur_row + offsets[i as int][0] == 0 && cur_col + offsets[i as int][1] == 0);

                    return true;
                }
                i = i + 1;
            }
            false
        } else {
            true
        }
    } else {
        let ghost before = *board;
        set_mark(board, cur_row as usize, cur_col as usize, num_visited);
        let ghost marked = *board;
        let ghost m = marks(marked);
        assert(m =~= marks(before).update(cur_row * 6 + cur_col, num_visited as i32));
        let mut i: usize = 0;
        while i < 8
            invariant
                0 <= i <= 8,
                on_board(cur_row as int, cur_col as int),
                1 <= num_visited < INUM_ROWS * INUM_COLS,
                short_moves(*offsets),
                *offsets == *old(offsets),
                before == *old(board),
                m == marks(marked),
                m == marks(before).update(cur_row * 6 + cur_col, num_visited as i32),
                tour_exists_via(m, *offsets, cur_row as int, cur_col as int, num_visited as int, 0)
                    == tour_exists_via(m, *offsets, cur_row as int, cur_col as int, num_visited as int, i as int),
                forall|a: int, b: int| on_board(a, b) ==> #[trigger] mark(*board, a, b) == mark(marked, a, b),
                forall|a: int, b: int|
                    on_board(a, b) ==> #[trigger] mark(marked, a, b) == if a == cur_row && b == cur_col {
                        num_visited
                    } else {
                        mark(before, a, b)
                    },
            decreases 8 - i,
        {
            assert(-2 <= offsets[i as int][0] <= 2 && -2 <= offsets[i as int][1] <= 2);
            let new_row = cur_row + offsets[i][0];
            let new_col = cur_col + offsets[i][1];
            let ghost free = on_board(new_row as int, new_col as int) && m[new_row * 6 + new_col]
                == UNVISITED;
            proof {
                if on_board(new_row as int, new_col as int) {
                    lemma_marks_at(marked, new_row as int, new_col as int);
                    assert(mark(*board, new_row as int, new_col as int) == mark(marked, new_row as int, new_col as int));
                }
            }
            if is_valid(new_row, new_col)
                && board[new_row as usize][new_col as usize] == UNVISITED
            {
                let ghost mid = *board;
                assert(mark(mid, new_row as int, new_col as int) == UNVISITED);
                assert(marks(mid) =~= m);
                assert(m[new_row * 6 + new_col] == UNVISITED);
                assert(!(new_row == cur_row && new_col == cur_col));
                if find_tour(board, offsets, new_row, new_col, num_visited + 1) {
                    proof {
                        if num_visited + 1 == INUM_ROWS * INUM_COLS {
                            assert(mark(*board, new_row as int, new_col as int) == UNVISITED);
                        }
                        assert(mark(*board, cur_row as int, cur_col as int) == num_visited);
                        assert(is_tour_from(
                            *board,
                            *offsets,
                            cur_row + offsets[i as int][0],
                            cur_col + offsets[i as int][1],
                            num_visited + 1,
                        ));
                        lemma_continues_from(
                            *board,
                            *offsets,
                            cur_row as int,
                            cur_col as int,
                            num_visited as int,
                            i as int,
                            0,
                        );
                        assert forall|a: int, b: int|
                            on_board(a, b) && !(a == cur_row && b == cur_col) && mark(before, a, b)
                                != UNVISITED implies #[trigger] mark(*board, a, b) == mark(before, a, b) by {
                            assert(mark(mid, a, b) == mark(before, a, b));
                        }
                        lemma_tour_exists_via_step(m, *offsets, cur_row as int, cur_col as int, num_visited as int, i as int, true);
                        assert(tour_exists(marks(before), *offsets, cur_row as int, cur_col as int, num_visited as int));
                    }
                    return true;
                }
                proof {
                    lemma_tour_exists_via_step(m, *offsets, cur_row as int, cur_col as int, num_visited as int, i as int, false);
                }
            } else {
                proof {
                    assert(!free);
                    lemma_tour_exists_via_step(m, *offsets, cur_row as int, cur_col as int, num_visited as int, i as int, false);
                }
            }
            i = i + 1;
        }
        set_mark(board, cur_row as usize, cur_col as usize, UNVISITED);
        false
    }
}

} // verus!
