//! Checking a whole board: scan every row, column and diagonal for a second queen.
use vstd::prelude::*;
use crate::grid::{at, on_board, attacks, count_true, peaceful, is_solution, lemma_index_in_range};
use crate::board::{Board, Position};

verus! {

/// A line of squares, walked from its first square downwards or rightwards.
#[derive(Clone, Copy, PartialEq, Eq, Structural, Debug)]
pub enum Direction {
    Horizontal,
    Vertical,
    /// Down and to the right.
    DiagonalRight,
    /// Down and to the left.
    DiagonalLeft,
}

/// Row of the `k`-th square of the series from `p` in direction `d`.
pub open spec fn series_row(p: Position, d: Direction, k: int) -> int {
    match d {
        Direction::Horizontal => p.row as int,
        _ => p.row + k,
    }
}

/// Column of the `k`-th square of the series from `p` in direction `d`.
pub open spec fn series_column(p: Position, d: Direction, k: int) -> int {
    match d {
        Direction::Horizontal => p.column + k,
        Direction::Vertical => p.column as int,
        Direction::DiagonalRight => p.column + k,
        Direction::DiagonalLeft => p.column - k,
    }
}

/// The `k`-th square of the series lies on the board.
pub open spec fn in_series(n: nat, p: Position, d: Direction, k: int) -> bool {
    k >= 0 && on_board(n, series_row(p, d, k), series_column(p, d, k))
}

/// The `k`-th square of the series holds a queen.
pub open spec fn queen_in_series(occ: Seq<bool>, n: nat, p: Position, d: Direction, k: int) -> bool {
    at(occ, n, series_row(p, d, k), series_column(p, d, k))
}

/// The series from `p` in direction `d`, up to the board's edge, holds at most one queen.
pub open spec fn series_legal(occ: Seq<bool>, n: nat, p: Position, d: Direction) -> bool {
    forall|k1: int, k2: int|
        0 <= k1 < k2 && in_series(n, p, d, k1) && in_series(n, p, d, k2) ==> !(
        #[trigger] queen_in_series(occ, n, p, d, k1) && #[trigger] queen_in_series(
            occ,
            n,
            p,
            d,
            k2,
        ))
}

/// The first square and the direction of the `i`-th series of family `f`:
/// the rows (0), the columns (1), the diagonals down to the right from the left
/// column (2) and from the top row (3), and the diagonals down to the left from
/// the right column (4) and from the top row (5).
pub open spec fn series_start(n: nat, f: int, i: int) -> (Position, Direction) {
    if f == 0 {
        (Position { row: i as usize, column: 0 }, Direction::Horizontal)
    } else if f == 1 {
        (Position { row: 0, column: i as usize }, Direction::Vertical)
    } else if f == 2 {
        (Position { row: i as usize, column: 0 }, Direction::DiagonalRight)
    } else if f == 3 {
        (Position { row: 0, column: i as usize }, Direction::DiagonalRight)
    } else if f == 4 {
        (Position { row: i as usize, column: (n - 1) as usize }, Direction::DiagonalLeft)
    } else {
        (Position { row: 0, column: i as usize }, Direction::DiagonalLeft)
    }
}

/// The `i`-th series of family `f` holds at most one queen.
pub open spec fn family_series_legal(occ: Seq<bool>, n: nat, f: int, i: int) -> bool {
    series_legal(occ, n, series_start(n, f, i).0, series_start(n, f, i).1)
}

/// Every row, column and diagonal of the board holds at most one queen.
pub open spec fn all_series_legal(occ: Seq<bool>, n: nat) -> bool {
    forall|f: int, i: int| 0 <= f < 6 && 0 <= i < n ==> #[trigger] family_series_legal(occ, n, f, i)
}

/// The first square and the direction of the `i`-th series of family `family`.
fn start_of_series(n: usize, family: usize, i: usize) -> (r: (Position, Direction))
    requires
        n >= 1,
        family < 6,
    ensures
        r == series_start(n as nat, family as int, i as int),
{
    if family == 0 {
        (start_of_row(i), Direction::Horizontal)
    } else if family == 1 {
        (start_of_column(i), Direction::Vertical)
    } else if family == 2 {
        (start_of_row(i), Direction::DiagonalRight)
    } else if family == 3 {
        (start_of_column(i), Direction::DiagonalRight)
    } else if family == 4 {
        (end_of_row(i, n), Direction::DiagonalLeft)
    } else {
        (start_of_column(i), Direction::DiagonalLeft)
    }
}

/// Two queens in one series attack each other.
pub proof fn lemma_illegal_series(occ: Seq<bool>, n: nat, p: Position, d: Direction)
    requires
        !series_legal(occ, n, p, d),
    ensures
        !peaceful(occ, n),
{
    let (k1, k2) = choose|k1: int, k2: int|
        0 <= k1 < k2 && in_series(n, p, d, k1) && in_series(n, p, d, k2) && (
        #[trigger] queen_in_series(occ, n, p, d, k1) && #[trigger] queen_in_series(
            occ,
            n,
            p,
            d,
            k2,
        ));
    let r1 = series_row(p, d, k1);
    let c1 = series_column(p, d, k1);
    let r2 = series_row(p, d, k2);
    let c2 = series_column(p, d, k2);
    assert(at(occ, n, r1, c1) && at(occ, n, r2, c2));
    assert(attacks(r1, c1, r2, c2));
}

/// Queens that attack each other share one of the series that the full scan visits.
pub proof fn lemma_all_series_legal(occ: Seq<bool>, n: nat)
    requires
        1 <= n <= usize::MAX,
        all_series_legal(occ, n),
    ensures
        peaceful(occ, n),
{
    assert forall|r1: int, c1: int, r2: int, c2: int|
        on_board(n, r1, c1) && on_board(n, r2, c2) && #[trigger] at(occ, n, r1, c1) && #[trigger] at(
            occ,
            n,
            r2,
            c2,
        ) implies !attacks(r1, c1, r2, c2) by {
        if attacks(r1, c1, r2, c2) {
            if r1 == r2 {
                let p = Position { row: r1 as usize, column: 0 };
                let d = Direction::Horizontal;
                assert(family_series_legal(occ, n, 0, r1));
                assert(series_legal(occ, n, p, d));
                assert(queen_in_series(occ, n, p, d, c1) && queen_in_series(occ, n, p, d, c2));
            } else if c1 == c2 {
                let p = Position { row: 0, column: c1 as usize };
                let d = Direction::Vertical;
                assert(family_series_legal(occ, n, 1, c1));
                assert(series_legal(occ, n, p, d));
                assert(queen_in_series(occ, n, p, d, r1) && queen_in_series(occ, n, p, d, r2));
            } else if r1 - c1 == r2 - c2 {
                let d = Direction::DiagonalRight;
                if r1 >= c1 {
                    let p = Position { row: (r1 - c1) as usize, column: 0 };
                    assert(family_series_legal(occ, n, 2, (r1 - c1)));
                    assert(series_legal(occ, n, p, d));
                    assert(queen_in_series(occ, n, p, d, c1) && queen_in_series(occ, n, p, d, c2));
                } else {
                    let p = Position { row: 0, column: (c1 - r1) as usize };
                    assert(family_series_legal(occ, n, 3, (c1 - r1)));
                    assert(series_legal(occ, n, p, d));
                    assert(queen_in_series(occ, n, p, d, r1) && queen_in_series(occ, n, p, d, r2));
                }
            } else {
                let d = Direction::DiagonalLeft;
                if r1 + c1 < n {
                    let p = Position { row: 0, column: (r1 + c1) as usize };
                    assert(family_series_legal(occ, n, 5, (r1 + c1)));
                    assert(series_legal(occ, n, p, d));
                    assert(queen_in_series(occ, n, p, d, r1) && queen_in_series(occ, n, p, d, r2));
                } else {
                    let p = Position { row: (r1 + c1 - (n - 1)) as usize, column: (n - 1) as usize };
                    assert(family_series_legal(occ, n, 4, (r1 + c1 - (n - 1))));
                    assert(series_legal(occ, n, p, d));
                    assert(queen_in_series(occ, n, p, d, n - 1 - c1) && queen_in_series(
                        occ,
                        n,
                        p,
                        d,
                        n - 1 - c2,
                    ));
                }
            }
        }
    }
}

impl Position {
    /// Moves one square in `direction`.
    pub fn move_in(&mut self, direction: &Direction)
        requires
            old(self).row < usize::MAX,
            old(self).column < usize::MAX,
            *direction == Direction::DiagonalLeft ==> old(self).column > 0,
        ensures
            final(self).row == series_row(*old(self), *direction, 1),
            final(self).column == series_column(*old(self), *direction, 1),
    {
        match direction {
            Direction::Horizontal => self.column = self.column + 1,
            Direction::Vertical => self.row = self.row + 1,
            Direction::DiagonalRight => {
                self.row = self.row + 1;
                self.column = self.column + 1;
            },
            Direction::DiagonalLeft => {
                self.row = self.row + 1;
                self.column = self.column - 1;
            },
        }
    }
}

/// The first square of row `row`.
pub fn start_of_row(row: usize) -> (p: Position)
    ensures
        p == (Position { row, column: 0 }),
{
    Position { row, column: 0 }
}

/// The first square of column `column`.
pub fn start_of_column(column: usize) -> (p: Position)
    ensures
        p == (Position { row: 0, column }),
{
    Position { row: 0, column }
}

/// The last square of row `row` on an `n`-by-`n` board.
pub fn end_of_row(row: usize, n: usize) -> (p: Position)
    requires
        n >= 1,
    ensures
        p == (Position { row, column: (n - 1) as usize }),
{
    Position { row, column: n - 1 }
}

impl Board {
    proof fn lemma_series_ends(&self, pos: Position, d: Direction, k: int)
        requires
            0 <= k,
            in_series(self.size(), pos, d, 0),
            !in_series(self.size(), pos, d, k + 1),
            forall|j1: int, j2: int|
                0 <= j1 < j2 < k + 1 ==> !(#[trigger] queen_in_series(self.occupancy(), self.size(), pos, d, j1)
                    && #[trigger] queen_in_series(self.occupancy(), self.size(), pos, d, j2)),
        ensures
            series_legal(self.occupancy(), self.size(), pos, d),
    {
        let occ = self.occupancy();
        let n = self.size();
        assert forall|k1: int, k2: int|
            0 <= k1 < k2 && in_series(n, pos, d, k1) && in_series(n, pos, d, k2) implies !(
            #[trigger] queen_in_series(occ, n, pos, d, k1) && #[trigger] queen_in_series(
                occ,
                n,
                pos,
                d,
                k2,
            )) by {
            assert(k2 <= k);
        }
    }

    /// Whether no two queens on the board attack each other, found by
    /// scanning every row, column and diagonal.
    pub fn board_is_legal(&self) -> (r: bool)
        requires
            self.wf(),
        ensures
            r == peaceful(self.occupancy(), self.size()),
    {
        let n = self.size_of();
        let ghost occ = self.occupancy();
        let mut family: usize = 0;
        while family < 6
            invariant
                self.wf(),
                n == self.size(),
                occ == self.occupancy(),
                0 <= family <= 6,
                forall|f: int, j: int|
                    0 <= f < family && 0 <= j < n ==> #[trigger] family_series_legal(occ, n as nat, f, j),
            decreases 6 - family,
        {
            let mut i: usize = 0;
            while i < n
                invariant
                    self.wf(),
                    n == self.size(),
                    occ == self.occupancy(),
                    0 <= family < 6,
                    0 <= i <= n,
                    forall|f: int, j: int|
                        0 <= f < family && 0 <= j < n ==> #[trigger] family_series_legal(occ, n as nat, f, j),
                    forall|j: int| 0 <= j < i ==> #[trigger] family_series_legal(occ, n as nat, family as int, j),
                decreases n - i,
            {
                let (start, direction) = start_of_series(n, family, i);
                if !self.series_is_legal(start, direction) {
                    proof {
                        lemma_illegal_series(occ, n as nat, start, direction);
                    }
                    return false;
                }
                i = i + 1;
            }
            family = family + 1;
        }
        proof {
            lemma_all_series_legal(occ, n as nat);
        }
        true
    }

    /// Whether the board holds as many queens as it has rows, no two of which
    /// attack each other.
    pub fn board_is_a_solution(&self) -> (r: bool)
        requires
            self.wf(),
        ensures
            r == is_solution(self.occupancy(), self.size()),
    {
        if !self.board_is_legal() {
            return false;
        }
        let n = self.size_of();
        let ghost occ = self.occupancy();
        let total: usize = n * n;
        let mut num_queens: usize = 0;
        let mut pos = Position { row: 0, column: 0 };
        let mut i: usize = 0;
        while i < total
            invariant
                self.wf(),
                n == self.size(),
                occ == self.occupancy(),
                total == n * n,
                0 <= i <= total,
                pos.index(n as nat) == i,
                pos.column < n,
                i < total ==> pos.row < n,
                num_queens <= i,
                num_queens == count_true(occ.subrange(0, i as int)),
            decreases total - i,
        {
            proof {
                lemma_index_in_range(n as nat, pos.row as int, pos.column as int);
                assert(occ.subrange(0, i + 1).drop_last() =~= occ.subrange(0, i as int));
            }
            if self.holds_queen(&pos) {
                num_queens = num_queens + 1;
            }
            proof {
                assert((pos.row + 1) * n == pos.row * n + n) by (nonlinear_arith);
                if i + 1 < total && pos.column + 1 >= n {
                    assert(pos.row + 1 < n) by (nonlinear_arith)
                        requires
                            (pos.row + 1) * n == i + 1,
                            i + 1 < n * n,
                            n >= 1,
                    ;
                }
            }
            pos = pos.next(n);
            i = i + 1;
        }
        proof {
            assert(occ.subrange(0, total as int) =~= occ);
        }
        num_queens == n
    }

    /// Whether the series of squares from `pos` in `direction`, up to the
    /// board's edge, holds at most one queen.
    pub fn series_is_legal(&self, pos: Position, direction: Direction) -> (r: bool)
        requires
            self.wf(),
            self.holds(pos),
        ensures
            r == series_legal(self.occupancy(), self.size(), pos, direction),
    {
        let n = self.size_of();
        let ghost occ = self.occupancy();
        let mut has_queen = false;
        let mut p = pos;
        let ghost mut k: int = 0;
        loop
            invariant
                self.wf(),
                n == self.size(),
                occ == self.occupancy(),
                self.holds(p),
                self.holds(pos),
                0 <= k < n,
                p.row == series_row(pos, direction, k),
                p.column == series_column(pos, direction, k),
                has_queen <==> exists|j: int| 0 <= j < k && #[trigger] queen_in_series(occ, n as nat, pos, direction, j),
                forall|j1: int, j2: int|
                    0 <= j1 < j2 < k ==> !(#[trigger] queen_in_series(occ, n as nat, pos, direction, j1)
                        && #[trigger] queen_in_series(occ, n as nat, pos, direction, j2)),
            decreases n - k,
        {
            proof {
                lemma_index_in_range(n as nat, p.row as int, p.column as int);
            }
            let ghost had = has_queen;
            if self.holds_queen(&p) {
                assert(queen_in_series(occ, n as nat, pos, direction, k));
                if has_queen {
                    proof {
                        let j = choose|j: int|
                            0 <= j < k && #[trigger] queen_in_series(occ, n as nat, pos, direction, j);
                        assert(in_series(n as nat, pos, direction, j));
                        assert(in_series(n as nat, pos, direction, k));
                    }
                    return false;
                }
                has_queen = true;
            }
            proof {
                let qk = queen_in_series(occ, n as nat, pos, direction, k);
                assert(qk == at(self.occupancy(), n as nat, p.row as int, p.column as int));
                assert forall|j1: int, j2: int| 0 <= j1 < j2 < k + 1 implies !(
                #[trigger] queen_in_series(occ, n as nat, pos, direction, j1)
                    && #[trigger] queen_in_series(occ, n as nat, pos, direction, j2)) by {
                    if j2 == k && queen_in_series(occ, n as nat, pos, direction, j1) {
                        assert(had);
                    }
                }
                if has_queen && !qk {
                    let j = choose|j: int|
                        0 <= j < k && #[trigger] queen_in_series(occ, n as nat, pos, direction, j);
                }
                assert(has_queen <==> exists|j: int|
                    0 <= j < k + 1 && #[trigger] queen_in_series(occ, n as nat, pos, direction, j));
            }
            if direction == Direction::DiagonalLeft && p.column == 0 {
                proof {
                    self.lemma_series_ends(pos, direction, k);
                }
                return true;
            }
            p.move_in(&direction);
            if p.is_outside_board(n) {
                proof {
                    self.lemma_series_ends(pos, direction, k);
                }
                return true;
            }
            proof {
                k = k + 1;
            }
        }
    }
}

} // verus!
