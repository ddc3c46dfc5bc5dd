//! An explicit placement of `n` non-attacking queens for every `n` but 2 and 3,
//! so that the search succeeds on every board from 4 rows on.
use vstd::prelude::*;
use vstd::arithmetic::div_mod::lemma_fundamental_div_mod_converse;
use crate::grid::{at, on_board, attacks, count_true, peaceful, is_solution, lemma_index_in_range};
use crate::search::{first_solution, lemma_solution_found_when_one_exists};

verus! {

/// `(2 * i + m - 1) mod 2m` for a row `i` of the top half, `m = n / 2`.
pub open spec fn shifted(n: nat, i: int) -> int {
    let m = (n / 2) as int;
    let t = 2 * i + m - 1;
    if t < 2 * m {
        t
    } else {
        t - 2 * m
    }
}

/// Column of the queen in row `r`. The last row of an odd-sized board takes
/// the bottom-right corner; the other `2m` rows, `m = n / 2`, form the
/// even-sized board of size `2m`. When `m % 3 != 1` the first half of the rows
/// takes the odd columns in order and the second half the even ones (a
/// staircase); otherwise the top half steps by two from column `m - 1`,
/// wrapping round, and the bottom half mirrors it.
pub open spec fn queen_column(n: nat, r: int) -> int {
    let m = (n / 2) as int;
    if n % 2 == 1 && r == n - 1 {
        n - 1
    } else if m % 3 == 1 {
        if r < m {
            shifted(n, r)
        } else {
            2 * m - 1 - shifted(n, 2 * m - 1 - r)
        }
    } else if r < m {
        2 * r + 1
    } else {
        2 * (r - m)
    }
}

/// The board with one queen in each row, at `queen_column`.
pub open spec fn explicit_solution(n: nat) -> Seq<bool> {
    Seq::new(n * n, |k: int| k % (n as int) == queen_column(n, k / (n as int)))
}

proof fn lemma_explicit_at(n: nat, r: int, c: int)
    requires
        on_board(n, r, c),
    ensures
        at(explicit_solution(n), n, r, c) == (c == queen_column(n, r)),
{
    lemma_index_in_range(n, r, c);
    lemma_fundamental_div_mod_converse(r * n + c, n as int, r, c);
}

proof fn lemma_queen_column_range(n: nat, r: int)
    requires
        0 <= r < n,
    ensures
        0 <= queen_column(n, r) < n,
{
}

proof fn lemma_explicit_prefix(n: nat, i: int, j: int)
    requires
        0 <= i < n,
        0 <= j <= n,
    ensures
        i * n + j <= n * n,
        count_true(explicit_solution(n).subrange(0, i * n + j)) == i + if j > queen_column(n, i) {
            1int
        } else {
            0int
        },
    decreases i, j,
{
    let s = explicit_solution(n);
    lemma_queen_column_range(n, i);
    if j == 0 {
        if i == 0 {
            assert(s.subrange(0, 0).len() == 0);
            assert(0 <= n * n) by (nonlinear_arith);
        } else {
            lemma_explicit_prefix(n, i - 1, n as int);
            lemma_queen_column_range(n, i - 1);
            assert((i - 1) * n + n == i * n) by (nonlinear_arith);
        }
    } else {
        lemma_explicit_prefix(n, i, j - 1);
        lemma_index_in_range(n, i, j - 1);
        let x = s.subrange(0, i * n + j);
        assert(x.drop_last() =~= s.subrange(0, i * n + j - 1));
        lemma_explicit_at(n, i, j - 1);
        assert(x.last() == at(s, n, i, j - 1));
    }
}

/// No two queens of the explicit placement attack each other, but on the
/// 2-by-2 and 3-by-3 boards.
proof fn lemma_explicit_peaceful(n: nat)
    requires
        n != 2,
        n != 3,
    ensures
        peaceful(explicit_solution(n), n),
{
    let s = explicit_solution(n);
    let m = (n / 2) as int;
    assert forall|r1: int, c1: int, r2: int, c2: int|
        on_board(n, r1, c1) && on_board(n, r2, c2) && #[trigger] at(s, n, r1, c1) && #[trigger] at(
            s,
            n,
            r2,
            c2,
        ) implies !attacks(r1, c1, r2, c2) by {
        lemma_explicit_at(n, r1, c1);
        lemma_explicit_at(n, r2, c2);
        if m % 3 != 1 {
            if r1 < m && m <= r2 && !(n % 2 == 1 && r2 == n - 1) {
                assert(3 * (r2 - r1) != 2 * m + 1);
            } else if r2 < m && m <= r1 && !(n % 2 == 1 && r1 == n - 1) {
                assert(3 * (r1 - r2) != 2 * m + 1);
            }
        } else {
            assert(m >= 4);
        }
    }
}

/// On every board but the 2-by-2 and 3-by-3 ones the explicit placement is a
/// solution.
pub proof fn lemma_explicit_is_solution(n: nat)
    requires
        n != 2,
        n != 3,
    ensures
        is_solution(explicit_solution(n), n),
{
    lemma_explicit_peaceful(n);
    if n > 0 {
        lemma_explicit_prefix(n, n - 1, n as int);
        lemma_queen_column_range(n, n - 1);
        assert((n - 1) * n + n == n * n) by (nonlinear_arith);
        assert(explicit_solution(n).subrange(0, (n * n) as int) =~= explicit_solution(n));
    } else {
        assert(explicit_solution(0).len() == 0);
    }
}

/// The search succeeds on every board from 4 rows on.
pub proof fn lemma_search_succeeds_from_four(n: nat)
    requires
        n >= 4,
    ensures
        first_solution(n) is Some,
{
    lemma_explicit_is_solution(n);
    lemma_solution_found_when_one_exists(n, explicit_solution(n));
}

} // verus!
