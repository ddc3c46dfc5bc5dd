//! Mathematical model of a square board stored row by row in one sequence,
//! and of the queens that attack a square.
use vstd::prelude::*;

verus! {

/// The entry of a row-major `n`-by-`n` grid at row `r`, column `c`.
pub open spec fn at<T>(s: Seq<T>, n: nat, r: int, c: int) -> T {
    s[r * n + c]
}

/// Whether `(r, c)` is a square of an `n`-by-`n` board.
pub open spec fn on_board(n: nat, r: int, c: int) -> bool {
    0 <= r < n && 0 <= c < n
}

/// A queen on `(qr, qc)` attacks the distinct square `(r, c)` when the two share
/// a row, a column or a diagonal.
pub open spec fn attacks(qr: int, qc: int, r: int, c: int) -> bool {
    &&& !(qr == r && qc == c)
    &&& (qr == r || qc == c || qr - qc == r - c || qr + qc == r + c)
}

/// Queens among the first `j` squares of row `i` that attack `(r, c)`.
pub open spec fn attackers_in_row(occ: Seq<bool>, n: nat, i: int, j: int, r: int, c: int) -> nat
    decreases j,
{
    if j <= 0 {
        0
    } else {
        attackers_in_row(occ, n, i, j - 1, r, c) + if at(occ, n, i, j - 1) && attacks(
            i,
            j - 1,
            r,
            c,
        ) {
            1nat
        } else {
            0nat
        }
    }
}

/// Queens among the first `i` rows that attack `(r, c)`.
pub open spec fn attackers_in_rows(occ: Seq<bool>, n: nat, i: int, r: int, c: int) -> nat
    decreases i,
{
    if i <= 0 {
        0
    } else {
        attackers_in_rows(occ, n, i - 1, r, c) + attackers_in_row(occ, n, i - 1, n as int, r, c)
    }
}

/// Number of queens of the occupancy grid `occ` that attack `(r, c)`.
pub open spec fn attackers(occ: Seq<bool>, n: nat, r: int, c: int) -> nat {
    attackers_in_rows(occ, n, n as int, r, c)
}

/// Number of occupied squares.
pub open spec fn count_true(s: Seq<bool>) -> nat
    decreases s.len(),
{
    if s.len() == 0 {
        0
    } else {
        count_true(s.drop_last()) + if s.last() {
            1nat
        } else {
            0nat
        }
    }
}

/// No two queens of `occ` attack each other.
pub open spec fn peaceful(occ: Seq<bool>, n: nat) -> bool {
    forall|r1: int, c1: int, r2: int, c2: int|
        on_board(n, r1, c1) && on_board(n, r2, c2) && #[trigger] at(occ, n, r1, c1) && #[trigger] at(
            occ,
            n,
            r2,
            c2,
        ) ==> !attacks(r1, c1, r2, c2)
}

/// `occ` places exactly `n` mutually non-attacking queens on the `n`-by-`n` board.
pub open spec fn is_solution(occ: Seq<bool>, n: nat) -> bool {
    &&& occ.len() == n * n
    &&& count_true(occ) == n
    &&& peaceful(occ, n)
}

pub proof fn lemma_index_in_range(n: nat, r: int, c: int)
    requires
        on_board(n, r, c),
    ensures
        0 <= r * n + c < n * n,
{
    assert(0 <= r * n) by (nonlinear_arith)
        requires
            0 <= r,
    ;
    assert(r * n + c < n * n) by (nonlinear_arith)
        requires
            0 <= r < n,
            0 <= c < n,
    ;
}

pub proof fn lemma_index_distinct(n: nat, r1: int, c1: int, r2: int, c2: int)
    requires
        0 <= c1 < n,
        0 <= c2 < n,
        !(r1 == r2 && c1 == c2),
    ensures
        r1 * n + c1 != r2 * n + c2,
{
    if r1 < r2 {
        assert(r1 * n + c1 < r2 * n + c2) by (nonlinear_arith)
            requires
                r1 < r2,
                0 <= c1 < n,
                0 <= c2,
        ;
    } else if r2 < r1 {
        assert(r2 * n + c2 < r1 * n + c1) by (nonlinear_arith)
            requires
                r2 < r1,
                0 <= c2 < n,
                0 <= c1,
        ;
    }
}

/// Two grids that agree on every square are equal.
pub proof fn lemma_grid_ext<T>(a: Seq<T>, b: Seq<T>, n: nat)
    requires
        a.len() == n * n,
        b.len() == n * n,
        forall|r: int, c: int| on_board(n, r, c) ==> #[trigger] at(a, n, r, c) == at(b, n, r, c),
    ensures
        a == b,
{
    assert forall|k: int| 0 <= k < a.len() implies a[k] == b[k] by {
        let r = k / n as int;
        let c = k % n as int;
        vstd::arithmetic::div_mod::lemma_fundamental_div_mod(k, n as int);
        assert(n * r == r * n) by (nonlinear_arith);
        assert(0 <= r < n) by (nonlinear_arith)
            requires
                k == r * n + c,
                0 <= c < n,
                0 <= k < n * n,
        ;
        assert(at(a, n, r, c) == at(b, n, r, c));
    }
    assert(a =~= b);
}

proof fn lemma_row_frame(occ: Seq<bool>, occ2: Seq<bool>, n: nat, i: int, j: int, r: int, c: int)
    requires
        forall|k: int| 0 <= k < j ==> #[trigger] at(occ, n, i, k) == at(occ2, n, i, k),
    ensures
        attackers_in_row(occ, n, i, j, r, c) == attackers_in_row(occ2, n, i, j, r, c),
    decreases j,
{
    if j > 0 {
        lemma_row_frame(occ, occ2, n, i, j - 1, r, c);
        assert(at(occ, n, i, j - 1) == at(occ2, n, i, j - 1));
    }
}

proof fn lemma_row_update(occ: Seq<bool>, n: nat, qr: int, qc: int, j: int, r: int, c: int)
    requires
        occ.len() == n * n,
        on_board(n, qr, qc),
        !at(occ, n, qr, qc),
        0 <= j <= n,
    ensures
        attackers_in_row(occ.update(qr * n + qc, true), n, qr, j, r, c) == attackers_in_row(
            occ,
            n,
            qr,
            j,
            r,
            c,
        ) + if j > qc && attacks(qr, qc, r, c) {
            1nat
        } else {
            0nat
        },
    decreases j,
{
    let occ2 = occ.update(qr * n + qc, true);
    if j > 0 {
        lemma_row_update(occ, n, qr, qc, j - 1, r, c);
        lemma_index_in_range(n, qr, j - 1);
        lemma_index_in_range(n, qr, qc);
        if j - 1 != qc {
            lemma_index_distinct(n, qr, j - 1, qr, qc);
        }
    }
}

proof fn lemma_rows_update(occ: Seq<bool>, n: nat, qr: int, qc: int, i: int, r: int, c: int)
    requires
        occ.len() == n * n,
        on_board(n, qr, qc),
        !at(occ, n, qr, qc),
        0 <= i <= n,
    ensures
        attackers_in_rows(occ.update(qr * n + qc, true), n, i, r, c) == attackers_in_rows(
            occ,
            n,
            i,
            r,
            c,
        ) + if i > qr && attacks(qr, qc, r, c) {
            1nat
        } else {
            0nat
        },
    decreases i,
{
    let occ2 = occ.update(qr * n + qc, true);
    if i > 0 {
        lemma_rows_update(occ, n, qr, qc, i - 1, r, c);
        if i - 1 == qr {
            lemma_row_update(occ, n, qr, qc, n as int, r, c);
        } else {
            assert forall|k: int| 0 <= k < n implies #[trigger] at(occ, n, i - 1, k) == at(
                occ2,
                n,
                i - 1,
                k,
            ) by {
                lemma_index_in_range(n, i - 1, k);
                lemma_index_in_range(n, qr, qc);
                lemma_index_distinct(n, i - 1, k, qr, qc);
            }
            lemma_row_frame(occ, occ2, n, i - 1, n as int, r, c);
        }
    }
}

/// Putting a queen on the free square `(qr, qc)` adds one attacker to exactly
/// the squares that it attacks.
pub proof fn lemma_attackers_add(occ: Seq<bool>, n: nat, qr: int, qc: int, r: int, c: int)
    requires
        occ.len() == n * n,
        on_board(n, qr, qc),
        !at(occ, n, qr, qc),
    ensures
        attackers(occ.update(qr * n + qc, true), n, r, c) == attackers(occ, n, r, c) + if attacks(
            qr,
            qc,
            r,
            c,
        ) {
            1nat
        } else {
            0nat
        },
{
    lemma_rows_update(occ, n, qr, qc, n as int, r, c);
}

proof fn lemma_row_bound(occ: Seq<bool>, n: nat, i: int, j: int, r: int, c: int)
    requires
        0 <= j,
    ensures
        attackers_in_row(occ, n, i, j, r, c) <= j,
    decreases j,
{
    if j > 0 {
        lemma_row_bound(occ, n, i, j - 1, r, c);
    }
}

proof fn lemma_rows_bound(occ: Seq<bool>, n: nat, i: int, r: int, c: int)
    requires
        0 <= i,
    ensures
        attackers_in_rows(occ, n, i, r, c) <= i * n,
    decreases i,
{
    if i > 0 {
        lemma_rows_bound(occ, n, i - 1, r, c);
        lemma_row_bound(occ, n, i - 1, n as int, r, c);
        assert((i - 1) * n + n == i * n) by (nonlinear_arith);
    }
}

/// No square has more attackers than the board has squares.
pub proof fn lemma_attackers_bound(occ: Seq<bool>, n: nat, r: int, c: int)
    ensures
        attackers(occ, n, r, c) <= n * n,
{
    lemma_rows_bound(occ, n, n as int, r, c);
}

/// Occupying a free square adds one to the number of occupied squares.
pub proof fn lemma_count_true_update(s: Seq<bool>, k: int)
    requires
        0 <= k < s.len(),
        !s[k],
    ensures
        count_true(s.update(k, true)) == count_true(s) + 1,
    decreases s.len(),
{
    let s2 = s.update(k, true);
    if k == s.len() - 1 {
        assert(s2.drop_last() =~= s.drop_last());
    } else {
        lemma_count_true_update(s.drop_last(), k);
        assert(s2.drop_last() =~= s.drop_last().update(k, true));
    }
}

/// No queen of `occ` attacks `(r, c)`.
pub open spec fn unattacked(occ: Seq<bool>, n: nat, r: int, c: int) -> bool {
    forall|i: int, j: int|
        on_board(n, i, j) && #[trigger] at(occ, n, i, j) ==> !attacks(i, j, r, c)
}

proof fn lemma_row_zero(occ: Seq<bool>, n: nat, i: int, j: int, r: int, c: int)
    requires
        0 <= j,
    ensures
        attackers_in_row(occ, n, i, j, r, c) == 0 <==> forall|k: int|
            0 <= k < j ==> !(#[trigger] at(occ, n, i, k) && attacks(i, k, r, c)),
    decreases j,
{
    if j > 0 {
        lemma_row_zero(occ, n, i, j - 1, r, c);
    }
}

proof fn lemma_rows_zero(occ: Seq<bool>, n: nat, i: int, r: int, c: int)
    requires
        0 <= i,
    ensures
        attackers_in_rows(occ, n, i, r, c) == 0 <==> forall|a: int, k: int|
            0 <= a < i && 0 <= k < n ==> !(#[trigger] at(occ, n, a, k) && attacks(a, k, r, c)),
    decreases i,
{
    if i > 0 {
        lemma_rows_zero(occ, n, i - 1, r, c);
        lemma_row_zero(occ, n, i - 1, n as int, r, c);
    }
}

/// A square has no attackers exactly when no queen attacks it.
pub proof fn lemma_attackers_zero(occ: Seq<bool>, n: nat, r: int, c: int)
    ensures
        attackers(occ, n, r, c) == 0 <==> unattacked(occ, n, r, c),
{
    lemma_rows_zero(occ, n, n as int, r, c);
}

/// A queen put on a square that no queen attacks keeps the queens peaceful.
pub proof fn lemma_peaceful_add(occ: Seq<bool>, n: nat, qr: int, qc: int)
    requires
        occ.len() == n * n,
        on_board(n, qr, qc),
        peaceful(occ, n),
        unattacked(occ, n, qr, qc),
    ensures
        peaceful(occ.update(qr * n + qc, true), n),
{
    let occ1 = occ.update(qr * n + qc, true);
    assert forall|r1: int, c1: int, r2: int, c2: int|
        on_board(n, r1, c1) && on_board(n, r2, c2) && #[trigger] at(occ1, n, r1, c1)
            && #[trigger] at(occ1, n, r2, c2) implies !attacks(r1, c1, r2, c2) by {
        lemma_index_in_range(n, r1, c1);
        lemma_index_in_range(n, r2, c2);
        lemma_index_in_range(n, qr, qc);
        if !(r1 == qr && c1 == qc) {
            lemma_index_distinct(n, r1, c1, qr, qc);
        }
        if !(r2 == qr && c2 == qc) {
            lemma_index_distinct(n, r2, c2, qr, qc);
        }
        if r1 == qr && c1 == qc {
            if !(r2 == qr && c2 == qc) {
                assert(at(occ, n, r2, c2));
            }
        } else if !(r2 == qr && c2 == qc) {
            assert(at(occ, n, r1, c1) && at(occ, n, r2, c2));
        } else {
            assert(at(occ, n, r1, c1));
        }
    }
}

} // verus!
