//! Backtracking search for a placement of `n` non-attacking queens, pruned by
//! the attack counts that the board keeps up to date.
use vstd::prelude::*;
use crate::grid::{
    at, on_board, attacks, attackers, count_true, peaceful, is_solution, unattacked, lemma_index_in_range,
    lemma_attackers_zero, lemma_peaceful_add, lemma_count_true_update,
};
use crate::board::{Board, ConfigError, Position, queens, lemma_place_then_remove};

verus! {

/// The outcome of the search from square `(r, c)` with `placed` queens already
/// on the board `occ`: squares are visited in row-major order, each first left
/// empty and then, when no queen attacks it, given a queen.
pub open spec fn explore(n: nat, occ: Seq<bool>, placed: nat, r: nat, c: nat) -> Option<Seq<bool>>
    decreases n - r, n - c,
{
    if placed == n {
        Some(occ)
    } else if r >= n || c >= n {
        None
    } else {
        let nr: nat = if c + 1 >= n { r + 1 } else { r };
        let nc: nat = if c + 1 >= n { 0 } else { c + 1 };
        match explore(n, occ, placed, nr, nc) {
            Some(s) => Some(s),
            None => if !at(occ, n, r as int, c as int) && attackers(occ, n, r as int, c as int) == 0 {
                explore(n, occ.update((r * n + c) as int, true), placed + 1, nr, nc)
            } else {
                None
            },
        }
    }
}

/// The board with no queen.
pub open spec fn no_queens(n: nat) -> Seq<bool> {
    Seq::new(n * n, |k: int| false)
}

/// The placement that the search finds on the empty `n`-by-`n` board, if any.
pub open spec fn first_solution(n: nat) -> Option<Seq<bool>> {
    explore(n, no_queens(n), 0, 0, 0)
}

/// `b` is the board that the search leaves behind on success for size `n`.
pub open spec fn is_found_board(b: Board, n: nat) -> bool {
    &&& b.wf()
    &&& b.size() == n
    &&& b.consistent()
    &&& first_solution(n) == Some(b.occupancy())
}

impl Board {
    /// Searches from `pos` onwards, with `num_placed` queens already on the
    /// board, for a placement of as many queens as the board has rows. On
    /// success the queens stay on the board; on failure it is left unchanged.
    pub fn place_queens_3(&mut self, num_placed: usize, pos: Position) -> (found: bool)
        requires
            old(self).wf(),
            old(self).consistent(),
            peaceful(old(self).occupancy(), old(self).size()),
            num_placed <= old(self).size(),
            pos.row <= old(self).size(),
            pos.column < old(self).size(),
        ensures
            final(self).size() == old(self).size(),
            final(self).wf(),
            final(self).consistent(),
            peaceful(final(self).occupancy(), final(self).size()),
            found == explore(
                old(self).size(),
                old(self).occupancy(),
                num_placed as nat,
                pos.row as nat,
                pos.column as nat,
            ) is Some,
            found ==> Some(final(self).occupancy()) == explore(
                old(self).size(),
                old(self).occupancy(),
                num_placed as nat,
                pos.row as nat,
                pos.column as nat,
            ),
            !found ==> final(self).cells() == old(self).cells(),
        decreases old(self).size() - pos.row, old(self).size() - pos.column,
    {
        let n = self.size_of();
        if self.is_complete(num_placed) {
            return true;
        }
        if pos.is_outside_board(n) {
            return false;
        }
        let next_pos = pos.next(n);
        if self.place_queens_3(num_placed, next_pos) {
            return true;
        }
        let ghost occ = self.occupancy();
        proof {
            lemma_index_in_range(n as nat, pos.row as int, pos.column as int);
        }
        if self.is_not_attacked(&pos) {
            let ghost before = self.cells();
            self.place_queen(&pos);
            let ghost mid = self.cells();
            if self.place_queens_3(num_placed + 1, next_pos) {
                return true;
            }
            self.remove_queen(&pos);
            proof {
                lemma_place_then_remove(before, mid, self.cells(), n as nat, pos);
            }
        } else {
            proof {
                assert(at(self.cells(), n as nat, pos.row as int, pos.column as int) == self.cell(
                    pos.row as int,
                    pos.column as int,
                ));
            }
        }
        false
    }
}

/// Places `n` non-attacking queens on an `n`-by-`n` board by backtracking.
/// A size of zero is refused; `None` says that no placement exists, which is
/// so for sizes 2 and 3 only.
pub fn solve(n: usize) -> (r: Result<Option<Board>, ConfigError>)
    requires
        n * n <= usize::MAX,
    ensures
        n == 0 <==> r == Err::<Option<Board>, ConfigError>(ConfigError::ZeroSize),
        n > 0 ==> (r matches Ok(found) && (found is Some <==> first_solution(n as nat) is Some)),
        n > 0 ==> (r matches Ok(found) && (found is Some <==> n != 2 && n != 3)),
        r matches Ok(Some(b)) ==> is_found_board(b, n as nat) && is_solution(
            b.occupancy(),
            n as nat,
        ),
{
    proof {
        if n == 1 {
            lemma_one_queen_fits();
        } else if n == 2 || n == 3 {
            lemma_two_and_three_unsolvable(n as nat);
        } else if n >= 4 {
            crate::construction::lemma_search_succeeds_from_four(n as nat);
        }
    }
    match Board::empty(n) {
        Err(e) => Err(e),
        Ok(mut board) => {
            proof {
                assert(board.occupancy() =~= no_queens(n as nat));
                lemma_empty_board(n as nat);
            }
            if board.place_queens_3(0, Position::origin()) {
                proof {
                    lemma_found_is_solution(n as nat, no_queens(n as nat), 0, 0, 0);
                }
                Ok(Some(board))
            } else {
                Ok(None)
            }
        },
    }
}

/// The search is deterministic: any two boards that it can leave behind for the
/// same size are identical, attack counts included.
pub proof fn lemma_found_board_unique(n: nat, a: Board, b: Board)
    requires
        is_found_board(a, n),
        is_found_board(b, n),
    ensures
        a.cells() == b.cells(),
{
    assert forall|r: int, c: int| on_board(n, r, c) implies #[trigger] at(a.cells(), n, r, c)
        == at(b.cells(), n, r, c) by {
        lemma_index_in_range(n, r, c);
        assert(at(a.occupancy(), n, r, c) == at(b.occupancy(), n, r, c));
        assert(a.cell(r, c) == at(a.cells(), n, r, c));
        assert(b.cell(r, c) == at(b.cells(), n, r, c));
    }
    crate::grid::lemma_grid_ext(a.cells(), b.cells(), n);
}

/// The one-square board takes its single queen.
pub proof fn lemma_one_queen_fits()
    ensures
        first_solution(1) == Some(seq![true]),
{
    let occ = no_queens(1);
    assert(at(occ, 1, 0, 0) == occ[0]);
    lemma_attackers_zero(occ, 1, 0, 0);
    assert(unattacked(occ, 1, 0, 0)) by {
        assert forall|i: int, j: int| on_board(1, i, j) && #[trigger] at(occ, 1, i, j) implies false by {
            assert(i == 0 && j == 0);
        }
    }
    assert(explore(1, occ, 0, 1, 0) is None);
    assert(occ.update(0, true) =~= seq![true]);
    assert(explore(1, occ.update(0, true), 1, 1, 0) == Some(occ.update(0, true)));
}

/// On the 2-by-2 and 3-by-3 boards every peaceful placement holds fewer queens
/// than the board has rows: no solution exists there.
pub proof fn lemma_too_small_boards(s: Seq<bool>, n: nat)
    requires
        n == 2 || n == 3,
        s.len() == n * n,
        peaceful(s, n),
    ensures
        count_true(s) < n,
{
    reveal_with_fuel(count_true, 10);
    if n == 2 {
        assert(at(s, 2, 0, 0) == s[0]);
        assert(at(s, 2, 0, 1) == s[1]);
        assert(at(s, 2, 1, 0) == s[2]);
        assert(at(s, 2, 1, 1) == s[3]);
        assert(s.drop_last().drop_last().drop_last().drop_last().len() == 0);
    } else {
        assert(at(s, 3, 0, 0) == s[0]);
        assert(at(s, 3, 0, 1) == s[1]);
        assert(at(s, 3, 0, 2) == s[2]);
        assert(at(s, 3, 1, 0) == s[3]);
        assert(at(s, 3, 1, 1) == s[4]);
        assert(at(s, 3, 1, 2) == s[5]);
        assert(at(s, 3, 2, 0) == s[6]);
        assert(at(s, 3, 2, 1) == s[7]);
        assert(at(s, 3, 2, 2) == s[8]);
    }
}

/// The search fails on the 2-by-2 and 3-by-3 boards.
pub proof fn lemma_two_and_three_unsolvable(n: nat)
    requires
        n == 2 || n == 3,
    ensures
        first_solution(n) is None,
{
    lemma_empty_board(n);
    lemma_found_is_solution(n, no_queens(n), 0, 0, 0);
    if let Some(s) = first_solution(n) {
        lemma_too_small_boards(s, n);
    }
}

/// The search is complete from any state: when the queens of `occ` all belong
/// to a solution `t` that agrees with `occ` on the squares before `(r, c)`, and
/// `placed` counts them, the search from `(r, c)` finds a solution.
pub proof fn lemma_explore_complete(
    n: nat,
    occ: Seq<bool>,
    t: Seq<bool>,
    placed: nat,
    r: nat,
    c: nat,
)
    requires
        occ.len() == n * n,
        is_solution(t, n),
        c < n,
        forall|k: int| 0 <= k < n * n && #[trigger] occ[k] ==> t[k],
        forall|k: int| 0 <= k < r * n + c && k < n * n ==> #[trigger] occ[k] == t[k],
        count_true(occ) == placed,
    ensures
        explore(n, occ, placed, r, c) is Some,
    decreases n - r, n - c,
{
    if placed == n {
    } else if r >= n {
        assert(r * n + c >= n * n) by (nonlinear_arith)
            requires
                r >= n,
                c >= 0,
        ;
        assert(occ =~= t);
    } else {
        let nr: nat = if c + 1 >= n { r + 1 } else { r };
        let nc: nat = if c + 1 >= n { 0 } else { c + 1 };
        let k = (r * n + c) as int;
        assert(nr * n + nc == r * n + c + 1) by (nonlinear_arith)
            requires
                nr == (if c + 1 >= n { r + 1 } else { r }),
                nc == (if c + 1 >= n { 0 } else { c + 1 }),
                c < n,
        ;
        lemma_index_in_range(n, r as int, c as int);
        if !t[k] || occ[k] {
            lemma_explore_complete(n, occ, t, placed, nr, nc);
        } else if explore(n, occ, placed, nr, nc) is None {
            assert(at(occ, n, r as int, c as int) == occ[k]);
            assert(unattacked(occ, n, r as int, c as int)) by {
                assert forall|i: int, j: int|
                    on_board(n, i, j) && #[trigger] at(occ, n, i, j) implies !attacks(
                    i,
                    j,
                    r as int,
                    c as int,
                ) by {
                    lemma_index_in_range(n, i, j);
                    assert(at(t, n, i, j));
                    assert(at(t, n, r as int, c as int));
                }
            }
            lemma_attackers_zero(occ, n, r as int, c as int);
            let occ1 = occ.update(k, true);
            lemma_count_true_update(occ, k);
            lemma_explore_complete(n, occ1, t, placed + 1, nr, nc);
        }
    }
}

/// What the search finds keeps every queen of `occ` and agrees with it on the
/// squares before `(r, c)`.
pub proof fn lemma_explore_extends(n: nat, occ: Seq<bool>, placed: nat, r: nat, c: nat)
    requires
        occ.len() == n * n,
        c < n,
    ensures
        explore(n, occ, placed, r, c) matches Some(s) ==> {
            &&& s.len() == occ.len()
            &&& forall|k: int| 0 <= k < n * n && #[trigger] occ[k] ==> s[k]
            &&& forall|k: int| 0 <= k < r * n + c && k < n * n ==> #[trigger] occ[k] == s[k]
        },
    decreases n - r, n - c,
{
    if placed != n && r < n {
        let nr: nat = if c + 1 >= n { r + 1 } else { r };
        let nc: nat = if c + 1 >= n { 0 } else { c + 1 };
        let k = (r * n + c) as int;
        assert(nr * n + nc == r * n + c + 1) by (nonlinear_arith)
            requires
                nr == (if c + 1 >= n { r + 1 } else { r }),
                nc == (if c + 1 >= n { 0 } else { c + 1 }),
                c < n,
        ;
        lemma_index_in_range(n, r as int, c as int);
        let occ1 = occ.update(k, true);
        lemma_explore_extends(n, occ, placed, nr, nc);
        lemma_explore_extends(n, occ1, placed + 1, nr, nc);
        if explore(n, occ, placed, nr, nc) is None {
            if let Some(s) = explore(n, occ1, placed + 1, nr, nc) {
                assert forall|j: int| 0 <= j < n * n && #[trigger] occ[j] implies s[j] by {
                    assert(occ1[j]);
                }
                assert forall|j: int| 0 <= j < r * n + c && j < n * n implies #[trigger] occ[j]
                    == s[j] by {
                    assert(occ1[j] == occ[j]);
                }
            }
        }
    }
}

/// The search is complete: whenever some placement of `n` non-attacking
/// queens exists, the search finds one.
pub proof fn lemma_solution_found_when_one_exists(n: nat, t: Seq<bool>)
    requires
        is_solution(t, n),
    ensures
        first_solution(n) is Some,
{
    if n == 0 {
    } else {
        lemma_no_queens_count(n, n * n);
        lemma_explore_complete(n, no_queens(n), t, 0, 0, 0);
    }
}

/// The empty board holds no queen, so none attacks another.
pub proof fn lemma_empty_board(n: nat)
    ensures
        count_true(no_queens(n)) == 0,
        peaceful(no_queens(n), n),
{
    lemma_no_queens_count(n, n * n);
    assert forall|r1: int, c1: int, r2: int, c2: int|
        on_board(n, r1, c1) && on_board(n, r2, c2) && #[trigger] at(no_queens(n), n, r1, c1)
            && #[trigger] at(no_queens(n), n, r2, c2) implies !attacks(r1, c1, r2, c2) by {
        lemma_index_in_range(n, r1, c1);
    }
}

proof fn lemma_no_queens_count(n: nat, k: nat)
    requires
        k <= n * n,
    ensures
        count_true(no_queens(n).subrange(0, k as int)) == 0,
        k == n * n ==> count_true(no_queens(n)) == 0,
    decreases k,
{
    if k > 0 {
        lemma_no_queens_count(n, (k - 1) as nat);
        assert(no_queens(n).subrange(0, k as int).drop_last() =~= no_queens(n).subrange(
            0,
            k - 1,
        ));
    }
    assert(no_queens(n).subrange(0, (n * n) as int) =~= no_queens(n));
}

/// Whatever the search finds from a peaceful board holds exactly `n` queens,
/// no two of which attack each other.
pub proof fn lemma_found_is_solution(n: nat, occ: Seq<bool>, placed: nat, r: nat, c: nat)
    requires
        occ.len() == n * n,
        peaceful(occ, n),
        count_true(occ) == placed,
        placed <= n,
    ensures
        explore(n, occ, placed, r, c) matches Some(s) ==> is_solution(s, n),
    decreases n - r, n - c,
{
    if placed < n && r < n && c < n {
        let nr: nat = if c + 1 >= n { r + 1 } else { r };
        let nc: nat = if c + 1 >= n { 0 } else { c + 1 };
        lemma_found_is_solution(n, occ, placed, nr, nc);
        if !at(occ, n, r as int, c as int) && attackers(occ, n, r as int, c as int) == 0 {
            lemma_index_in_range(n, r as int, c as int);
            lemma_attackers_zero(occ, n, r as int, c as int);
            lemma_peaceful_add(occ, n, r as int, c as int);
            lemma_count_true_update(occ, (r * n + c) as int);
            lemma_found_is_solution(n, occ.update((r * n + c) as int, true), placed + 1, nr, nc);
        }
    }
}

} // verus!
