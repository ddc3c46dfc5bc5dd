//! Searching by enumeration: try every way of filling the remaining squares and
//! check each full board with the legality scan.
use vstd::prelude::*;
use crate::grid::{
    at, on_board, attacks, attackers, count_true, peaceful, is_solution, unattacked,
    lemma_index_in_range, lemma_attackers_zero, lemma_peaceful_add, lemma_count_true_update,
};
use crate::board::{Board, Field, Position};
use crate::search::{explore, first_solution, no_queens};

verus! {

/// The outcome of enumerating every filling of the squares from `(r, c)` on:
/// each square is first left empty, then given a queen, and a board is kept
/// once the legality scan accepts it. With `stop_at_n`, a branch also ends as
/// soon as it holds `n` queens.
pub open spec fn enumerate(
    n: nat,
    occ: Seq<bool>,
    placed: nat,
    stop_at_n: bool,
    r: nat,
    c: nat,
) -> Option<Seq<bool>>
    decreases n - r, n - c,
{
    if (stop_at_n && placed >= n) || r >= n || c >= n {
        if is_solution(occ, n) {
            Some(occ)
        } else {
            None
        }
    } else {
        let nr: nat = if c + 1 >= n { r + 1 } else { r };
        let nc: nat = if c + 1 >= n { 0 } else { c + 1 };
        match enumerate(n, occ, placed, stop_at_n, nr, nc) {
            Some(s) => Some(s),
            None => enumerate(n, occ.update((r * n + c) as int, true), placed + 1, stop_at_n, nr, nc),
        }
    }
}

/// A board that the enumeration passes over without a result is no solution.
pub proof fn lemma_enumerate_none(n: nat, occ: Seq<bool>, placed: nat, stop_at_n: bool, r: nat, c: nat)
    ensures
        enumerate(n, occ, placed, stop_at_n, r, c) is None ==> !is_solution(occ, n),
    decreases n - r, n - c,
{
    if !((stop_at_n && placed >= n) || r >= n || c >= n) {
        let nr: nat = if c + 1 >= n { r + 1 } else { r };
        let nc: nat = if c + 1 >= n { 0 } else { c + 1 };
        lemma_enumerate_none(n, occ, placed, stop_at_n, nr, nc);
    }
}

/// Without the early stop the count of placed queens plays no part.
proof fn lemma_enumerate_uncounted(n: nat, occ: Seq<bool>, placed_a: nat, placed_b: nat, r: nat, c: nat)
    ensures
        enumerate(n, occ, placed_a, false, r, c) == enumerate(n, occ, placed_b, false, r, c),
    decreases n - r, n - c,
{
    if !(r >= n || c >= n) {
        let nr: nat = if c + 1 >= n { r + 1 } else { r };
        let nc: nat = if c + 1 >= n { 0 } else { c + 1 };
        lemma_enumerate_uncounted(n, occ, placed_a, placed_b, nr, nc);
        lemma_enumerate_uncounted(n, occ.update((r * n + c) as int, true), placed_a + 1, placed_b + 1, nr, nc);
    }
}

/// Whatever the enumeration keeps is a solution.
pub proof fn lemma_enumerate_some(n: nat, occ: Seq<bool>, placed: nat, stop_at_n: bool, r: nat, c: nat)
    ensures
        enumerate(n, occ, placed, stop_at_n, r, c) matches Some(s) ==> is_solution(s, n),
    decreases n - r, n - c,
{
    if !((stop_at_n && placed >= n) || r >= n || c >= n) {
        let nr: nat = if c + 1 >= n { r + 1 } else { r };
        let nc: nat = if c + 1 >= n { 0 } else { c + 1 };
        lemma_enumerate_some(n, occ, placed, stop_at_n, nr, nc);
        lemma_enumerate_some(n, occ.update((r * n + c) as int, true), placed + 1, stop_at_n, nr, nc);
    }
}

/// A solution stays the enumeration's result: every square is first left empty.
proof fn lemma_enumerate_keeps_solution(
    n: nat,
    occ: Seq<bool>,
    placed: nat,
    stop_at_n: bool,
    r: nat,
    c: nat,
)
    requires
        is_solution(occ, n),
    ensures
        enumerate(n, occ, placed, stop_at_n, r, c) == Some(occ),
    decreases n - r, n - c,
{
    if !((stop_at_n && placed >= n) || r >= n || c >= n) {
        let nr: nat = if c + 1 >= n { r + 1 } else { r };
        let nc: nat = if c + 1 >= n { 0 } else { c + 1 };
        lemma_enumerate_keeps_solution(n, occ, placed, stop_at_n, nr, nc);
    }
}

/// Once two queens attack each other, more queens never make a solution.
proof fn lemma_enumerate_attacked(
    n: nat,
    occ: Seq<bool>,
    placed: nat,
    stop_at_n: bool,
    r: nat,
    c: nat,
)
    requires
        occ.len() == n * n,
        !peaceful(occ, n),
    ensures
        enumerate(n, occ, placed, stop_at_n, r, c) is None,
    decreases n - r, n - c,
{
    if !((stop_at_n && placed >= n) || r >= n || c >= n) {
        let nr: nat = if c + 1 >= n { r + 1 } else { r };
        let nc: nat = if c + 1 >= n { 0 } else { c + 1 };
        let k = (r * n + c) as int;
        lemma_index_in_range(n, r as int, c as int);
        let occ1 = occ.update(k, true);
        let (r1, c1, r2, c2) = choose|r1: int, c1: int, r2: int, c2: int|
            on_board(n, r1, c1) && on_board(n, r2, c2) && #[trigger] at(occ, n, r1, c1)
                && #[trigger] at(occ, n, r2, c2) && attacks(r1, c1, r2, c2);
        lemma_index_in_range(n, r1, c1);
        lemma_index_in_range(n, r2, c2);
        assert(at(occ1, n, r1, c1) && at(occ1, n, r2, c2));
        lemma_enumerate_attacked(n, occ, placed, stop_at_n, nr, nc);
        lemma_enumerate_attacked(n, occ1, placed + 1, stop_at_n, nr, nc);
    }
}

/// A placement inside another one holds no more queens, and strictly fewer
/// when the other has a queen on a square that it leaves empty.
pub proof fn lemma_count_true_subset(a: Seq<bool>, b: Seq<bool>, k: int)
    requires
        a.len() == b.len(),
        forall|i: int| 0 <= i < a.len() && #[trigger] a[i] ==> b[i],
    ensures
        count_true(a) <= count_true(b),
        0 <= k < a.len() && !a[k] && b[k] ==> count_true(a) < count_true(b),
    decreases a.len(),
{
    if a.len() > 0 {
        let j = if k == a.len() - 1 { -1 } else { k };
        lemma_count_true_subset(a.drop_last(), b.drop_last(), j);
        assert(a.last() ==> b.last()) by {
            assert(a[a.len() - 1] ==> b[a.len() - 1]);
        }
    }
}

/// The enumeration is complete: from any board `occ` whose queens all belong
/// to a solution `t` that agrees with it on the squares before `(r, c)`, it
/// finds a solution. With the early stop, `placed` must count the queens of `occ`.
pub proof fn lemma_enumerate_complete(
    n: nat,
    occ: Seq<bool>,
    t: Seq<bool>,
    placed: nat,
    stop_at_n: bool,
    r: nat,
    c: nat,
)
    requires
        occ.len() == n * n,
        is_solution(t, n),
        c < n,
        forall|k: int| 0 <= k < n * n && #[trigger] occ[k] ==> t[k],
        forall|k: int| 0 <= k < r * n + c && k < n * n ==> #[trigger] occ[k] == t[k],
        stop_at_n ==> count_true(occ) == placed,
    ensures
        enumerate(n, occ, placed, stop_at_n, r, c) is Some,
    decreases n - r, n - c,
{
    if stop_at_n && placed >= n {
        if !(occ =~= t) {
            let k = choose|k: int| 0 <= k < occ.len() && occ[k] != t[k];
            lemma_count_true_subset(occ, t, k);
        }
    } else if r >= n {
        assert(r * n + c >= n * n) by (nonlinear_arith)
            requires
                r >= n,
                c >= 0,
        ;
        assert(occ =~= t);
    } else {
        let nr: nat = if c + 1 >= n { r + 1 } else { r };
        let nc: nat = if c + 1 >= n { 0 } else { c + 1 };
        let k = (r * n + c) as int;
        assert(nr * n + nc == r * n + c + 1) by (nonlinear_arith)
            requires
                nr == (if c + 1 >= n { r + 1 } else { r }),
                nc == (if c + 1 >= n { 0 } else { c + 1 }),
                c < n,
        ;
        lemma_index_in_range(n, r as int, c as int);
        if !t[k] || occ[k] {
            lemma_enumerate_complete(n, occ, t, placed, stop_at_n, nr, nc);
        } else if enumerate(n, occ, placed, stop_at_n, nr, nc) is None {
            lemma_count_true_update(occ, k);
            lemma_enumerate_complete(n, occ.update(k, true), t, placed + 1, stop_at_n, nr, nc);
        }
    }
}

/// What the enumeration finds keeps every queen of `occ` and agrees with it on
/// the squares before `(r, c)`.
pub proof fn lemma_enumerate_extends(
    n: nat,
    occ: Seq<bool>,
    placed: nat,
    stop_at_n: bool,
    r: nat,
    c: nat,
)
    requires
        occ.len() == n * n,
        c < n,
    ensures
        enumerate(n, occ, placed, stop_at_n, r, c) matches Some(s) ==> {
            &&& s.len() == occ.len()
            &&& forall|k: int| 0 <= k < n * n && #[trigger] occ[k] ==> s[k]
            &&& forall|k: int| 0 <= k < r * n + c && k < n * n ==> #[trigger] occ[k] == s[k]
        },
    decreases n - r, n - c,
{
    if !((stop_at_n && placed >= n) || r >= n) {
        let nr: nat = if c + 1 >= n { r + 1 } else { r };
        let nc: nat = if c + 1 >= n { 0 } else { c + 1 };
        let k = (r * n + c) as int;
        assert(nr * n + nc == r * n + c + 1) by (nonlinear_arith)
            requires
                nr == (if c + 1 >= n { r + 1 } else { r }),
                nc == (if c + 1 >= n { 0 } else { c + 1 }),
                c < n,
        ;
        lemma_index_in_range(n, r as int, c as int);
        let occ1 = occ.update(k, true);
        lemma_enumerate_extends(n, occ, placed, stop_at_n, nr, nc);
        lemma_enumerate_extends(n, occ1, placed + 1, stop_at_n, nr, nc);
        if enumerate(n, occ, placed, stop_at_n, nr, nc) is None {
            if let Some(s) = enumerate(n, occ1, placed + 1, stop_at_n, nr, nc) {
                assert forall|j: int| 0 <= j < n * n && #[trigger] occ[j] implies s[j] by {
                    assert(occ1[j]);
                }
                assert forall|j: int| 0 <= j < r * n + c && j < n * n implies #[trigger] occ[j]
                    == s[j] by {
                    assert(occ1[j] == occ[j]);
                }
            }
        }
    }
}

/// A board with at least `n` queens that is no solution never becomes one.
proof fn lemma_enumerate_overfull(n: nat, occ: Seq<bool>, placed: nat, r: nat, c: nat)
    requires
        occ.len() == n * n,
        c < n,
        count_true(occ) >= n,
        !is_solution(occ, n),
    ensures
        enumerate(n, occ, placed, false, r, c) is None,
    decreases n - r, n - c,
{
    if r < n {
        let nr: nat = if c + 1 >= n { r + 1 } else { r };
        let nc: nat = if c + 1 >= n { 0 } else { c + 1 };
        let k = (r * n + c) as int;
        lemma_index_in_range(n, r as int, c as int);
        lemma_enumerate_overfull(n, occ, placed, nr, nc);
        if occ[k] {
            assert(occ.update(k, true) =~= occ);
        } else {
            lemma_count_true_update(occ, k);
        }
        lemma_enumerate_overfull(n, occ.update(k, true), placed + 1, nr, nc);
    }
}

/// Stopping a branch once it holds `n` queens changes nothing: with `placed`
/// counting the queens of `occ` and no queen from `(r, c)` on, the early-stopping
/// and the full enumeration find the same board.
pub proof fn lemma_early_stop_agrees(n: nat, occ: Seq<bool>, placed: nat, r: nat, c: nat)
    requires
        occ.len() == n * n,
        c < n,
        count_true(occ) == placed,
        forall|k: int| r * n + c <= k < n * n ==> !#[trigger] occ[k],
    ensures
        enumerate(n, occ, placed, true, r, c) == enumerate(n, occ, placed, false, r, c),
    decreases n - r, n - c,
{
    if placed >= n {
        if is_solution(occ, n) {
            lemma_enumerate_keeps_solution(n, occ, placed, false, r, c);
        } else {
            lemma_enumerate_overfull(n, occ, placed, r, c);
        }
    } else if r < n {
        let nr: nat = if c + 1 >= n { r + 1 } else { r };
        let nc: nat = if c + 1 >= n { 0 } else { c + 1 };
        let k = (r * n + c) as int;
        assert(nr * n + nc == r * n + c + 1) by (nonlinear_arith)
            requires
                nr == (if c + 1 >= n { r + 1 } else { r }),
                nc == (if c + 1 >= n { 0 } else { c + 1 }),
                c < n,
        ;
        lemma_index_in_range(n, r as int, c as int);
        lemma_early_stop_agrees(n, occ, placed, nr, nc);
        lemma_count_true_update(occ, k);
        lemma_early_stop_agrees(n, occ.update(k, true), placed + 1, nr, nc);
    }
}

proof fn lemma_explore_is_enumerate(
    n: nat,
    occ: Seq<bool>,
    placed: nat,
    stop_at_n: bool,
    r: nat,
    c: nat,
)
    requires
        occ.len() == n * n,
        peaceful(occ, n),
        count_true(occ) == placed,
        placed <= n,
        c < n,
        forall|k: int| r * n + c <= k < n * n ==> !#[trigger] occ[k],
    ensures
        explore(n, occ, placed, r, c) == enumerate(n, occ, placed, stop_at_n, r, c),
    decreases n - r, n - c,
{
    if placed == n {
        lemma_enumerate_keeps_solution(n, occ, placed, stop_at_n, r, c);
    } else if r < n {
        let nr: nat = if c + 1 >= n { r + 1 } else { r };
        let nc: nat = if c + 1 >= n { 0 } else { c + 1 };
        let k = (r * n + c) as int;
        assert(nr * n + nc == r * n + c + 1) by (nonlinear_arith)
            requires
                nr == (if c + 1 >= n { r + 1 } else { r }),
                nc == (if c + 1 >= n { 0 } else { c + 1 }),
                c < n,
        ;
        lemma_index_in_range(n, r as int, c as int);
        assert(at(occ, n, r as int, c as int) == occ[k]);
        lemma_explore_is_enumerate(n, occ, placed, stop_at_n, nr, nc);
        let occ1 = occ.update(k, true);
        lemma_count_true_update(occ, k);
        lemma_attackers_zero(occ, n, r as int, c as int);
        if attackers(occ, n, r as int, c as int) == 0 {
            lemma_peaceful_add(occ, n, r as int, c as int);
            lemma_explore_is_enumerate(n, occ1, placed + 1, stop_at_n, nr, nc);
        } else {
            let (i, j) = choose|i: int, j: int|
                on_board(n, i, j) && #[trigger] at(occ, n, i, j) && attacks(i, j, r as int, c as int);
            lemma_index_in_range(n, i, j);
            assert(at(occ1, n, i, j) && at(occ1, n, r as int, c as int));
            lemma_enumerate_attacked(n, occ1, placed + 1, stop_at_n, nr, nc);
        }
    }
}

/// The three searches are interchangeable: enumerating every filling of the
/// empty board, with or without stopping at `n` queens, finds exactly the
/// placement that the search pruned by attack counts finds.
pub proof fn lemma_strategies_agree(n: nat, stop_at_n: bool)
    ensures
        enumerate(n, no_queens(n), 0, stop_at_n, 0, 0) == first_solution(n),
{
    if n == 0 {
        assert(no_queens(0).len() == 0);
        assert(count_true(no_queens(0)) == 0);
        assert(is_solution(no_queens(0), 0));
        lemma_enumerate_keeps_solution(0, no_queens(0), 0, stop_at_n, 0, 0);
    } else {
        crate::search::lemma_empty_board(n);
        lemma_explore_is_enumerate(n, no_queens(n), 0, stop_at_n, 0, 0);
    }
}

/// `after` is `before` with queens put on some squares: every square of
/// `after` holds a queen or the field it held in `before`.
pub open spec fn only_queens_added(before: Board, after: Board) -> bool {
    forall|r: int, c: int|
        on_board(before.size(), r, c) ==> #[trigger] after.cell(r, c) == if at(
            after.occupancy(),
            before.size(),
            r,
            c,
        ) {
            Field::Queen
        } else {
            before.cell(r, c)
        }
}

proof fn lemma_only_queens_added_refl(b: Board)
    requires
        b.wf(),
    ensures
        only_queens_added(b, b),
{
    assert forall|r: int, c: int| on_board(b.size(), r, c) implies #[trigger] b.cell(r, c) == if at(
        b.occupancy(),
        b.size(),
        r,
        c,
    ) {
        Field::Queen
    } else {
        b.cell(r, c)
    } by {
        lemma_index_in_range(b.size(), r, c);
    }
}

impl Board {
    /// Tries every filling of the squares from `pos` on, each square first
    /// empty and then with a queen, until the legality scan accepts the board.
    /// On success the queens stay; on failure the board is left unchanged.
    pub fn place_queens_1(&mut self, pos: Position) -> (found: bool)
        requires
            old(self).wf(),
            pos.row <= old(self).size(),
            pos.column < old(self).size(),
            old(self).tail_is_clear(pos),
        ensures
            final(self).size() == old(self).size(),
            final(self).wf(),
            found == enumerate(
                old(self).size(),
                old(self).occupancy(),
                0,
                false,
                pos.row as nat,
                pos.column as nat,
            ) is Some,
            found ==> Some(final(self).occupancy()) == enumerate(
                old(self).size(),
                old(self).occupancy(),
                0,
                false,
                pos.row as nat,
                pos.column as nat,
            ),
            found ==> only_queens_added(*old(self), *final(self)),
            !found ==> final(self).cells() == old(self).cells(),
        decreases old(self).size() - pos.row, old(self).size() - pos.column,
    {
        let n = self.size_of();
        let ghost occ = self.occupancy();
        let ghost before = self.cells();
        let ghost entry = *self;
        if pos.is_outside_board(n) {
            proof {
                lemma_only_queens_added_refl(*self);
            }
            return self.board_is_a_solution();
        }
        let next_pos = pos.next(n);
        proof {
            assert((pos.row + 1) * n == pos.row * n + n) by (nonlinear_arith);
            lemma_index_in_range(n as nat, pos.row as int, pos.column as int);
            assert(self.cell(pos.row as int, pos.column as int) == Field::Empty(0));
            lemma_enumerate_some(n as nat, occ, 0, false, next_pos.row as nat, next_pos.column as nat);
            lemma_enumerate_none(n as nat, occ, 0, false, next_pos.row as nat, next_pos.column as nat);
        }
        let first = self.place_queens_1(next_pos);
        if self.board_is_a_solution() {
            return true;
        }
        assert(!first);
        let ghost empty_tail = *self;
        assert(empty_tail.cells() == before);
        assert forall|r: int, c: int|
            on_board(n as nat, r, c) && r * n + c >= pos.index(n as nat) implies #[trigger] empty_tail.cell(r, c)
                == Field::Empty(0) by {
            assert(entry.cell(r, c) == Field::Empty(0));
        }
        let ghost occ1 = occ.update(pos.index(n as nat), true);
        self.put_queen_at(&pos);
        proof {
            empty_tail.lemma_set_keeps_tail(self, pos, next_pos, Field::Queen);
            assert(self.occupancy() =~= occ1);
            lemma_enumerate_uncounted(n as nat, occ1, 0, 1, next_pos.row as nat, next_pos.column as nat);
            lemma_enumerate_some(n as nat, occ1, 0, false, next_pos.row as nat, next_pos.column as nat);
            lemma_enumerate_none(n as nat, occ1, 0, false, next_pos.row as nat, next_pos.column as nat);
        }
        self.place_queens_1(next_pos);
        if self.board_is_a_solution() {
            return true;
        }
        self.remove_queen_from(&pos);
        proof {
            assert(self.cells() =~= before);
        }
        false
    }

    /// Like `place_queens_1`, but with `num_placed` queens already on the board
    /// a branch ends as soon as it holds as many queens as the board has rows.
    pub fn place_queens_2(&mut self, pos: Position, num_placed: usize) -> (found: bool)
        requires
            old(self).wf(),
            num_placed < old(self).size() ==> pos.row <= old(self).size() && pos.column < old(
                self,
            ).size() && old(self).tail_is_clear(pos),
        ensures
            final(self).size() == old(self).size(),
            final(self).wf(),
            found == enumerate(
                old(self).size(),
                old(self).occupancy(),
                num_placed as nat,
                true,
                pos.row as nat,
                pos.column as nat,
            ) is Some,
            found ==> Some(final(self).occupancy()) == enumerate(
                old(self).size(),
                old(self).occupancy(),
                num_placed as nat,
                true,
                pos.row as nat,
                pos.column as nat,
            ),
            found ==> only_queens_added(*old(self), *final(self)),
            !found ==> final(self).cells() == old(self).cells(),
            num_placed >= old(self).size() ==> final(self).cells() == old(self).cells() && found
                == is_solution(old(self).occupancy(), old(self).size()),
        decreases old(self).size() - pos.row, old(self).size() - pos.column,
    {
        let n = self.size_of();
        let ghost occ = self.occupancy();
        let ghost before = self.cells();
        let ghost entry = *self;
        if num_placed >= n {
            proof {
                lemma_only_queens_added_refl(*self);
            }
            return self.board_is_a_solution();
        }
        if pos.is_outside_board(n) {
            proof {
                lemma_only_queens_added_refl(*self);
            }
            return self.board_is_a_solution();
        }
        let next_pos = pos.next(n);
        proof {
            assert((pos.row + 1) * n == pos.row * n + n) by (nonlinear_arith);
            lemma_index_in_range(n as nat, pos.row as int, pos.column as int);
            assert(self.cell(pos.row as int, pos.column as int) == Field::Empty(0));
            lemma_enumerate_some(n as nat, occ, num_placed as nat, true, next_pos.row as nat, next_pos.column as nat);
            lemma_enumerate_none(n as nat, occ, num_placed as nat, true, next_pos.row as nat, next_pos.column as nat);
        }
        let first = self.place_queens_2(next_pos, num_placed);
        if self.board_is_a_solution() {
            return true;
        }
        assert(!first);
        let ghost empty_tail = *self;
        assert(empty_tail.cells() == before);
        assert forall|r: int, c: int|
            on_board(n as nat, r, c) && r * n + c >= pos.index(n as nat) implies #[trigger] empty_tail.cell(r, c)
                == Field::Empty(0) by {
            assert(entry.cell(r, c) == Field::Empty(0));
        }
        let ghost occ1 = occ.update(pos.index(n as nat), true);
        self.put_queen_at(&pos);
        proof {
            empty_tail.lemma_set_keeps_tail(self, pos, next_pos, Field::Queen);
            assert(self.occupancy() =~= occ1);
            lemma_enumerate_some(n as nat, occ1, num_placed as nat + 1, true, next_pos.row as nat, next_pos.column as nat);
            lemma_enumerate_none(n as nat, occ1, num_placed as nat + 1, true, next_pos.row as nat, next_pos.column as nat);
        }
        self.place_queens_2(next_pos, num_placed + 1);
        if self.board_is_a_solution() {
            return true;
        }
        self.remove_queen_from(&pos);
        proof {
            assert(self.cells() =~= before);
        }
        false
    }

    /// Whether every square from `pos` on, in row-major order, is empty and unattacked.
    pub open spec fn tail_is_clear(&self, pos: Position) -> bool {
        forall|r: int, c: int|
            on_board(self.size(), r, c) && r * self.size() + c >= pos.index(self.size())
                ==> #[trigger] self.cell(r, c) == Field::Empty(0)
    }

    proof fn lemma_set_keeps_tail(&self, other: &Board, pos: Position, next: Position, f: Field)
        requires
            self.wf(),
            self.holds(pos),
            self.tail_is_clear(pos),
            other.size() == self.size(),
            other.cells() == self.cells().update(pos.index(self.size()), f),
            next.index(self.size()) == pos.index(self.size()) + 1,
        ensures
            other.tail_is_clear(next),
            other.wf(),
    {
        let n = self.size();
        lemma_index_in_range(n, pos.row as int, pos.column as int);
        assert forall|r: int, c: int|
            on_board(n, r, c) && r * n + c >= next.index(n) implies #[trigger] other.cell(r, c)
                == Field::Empty(0) by {
            lemma_index_in_range(n, r, c);
            assert(self.cell(r, c) == Field::Empty(0));
        }
    }
}

} // verus!
