//! Factorials that fit in an `i64`.
use vstd::prelude::*;

verus! {

pub open spec fn fact(n: nat) -> nat
    decreases n,
{
    if n == 0 {
        1
    } else {
        n * fact((n - 1) as nat)
    }
}

/// The largest `n` whose factorial fits in an `i64`.
pub const MAX_FACTORIAL_ARG: i64 = 20;

proof fn lemma_fact_positive(n: nat)
    ensures
        fact(n) >= 1,
    decreases n,
{
    if n > 0 {
        lemma_fact_positive((n - 1) as nat);
        assert(n * fact((n - 1) as nat) >= 1) by (nonlinear_arith)
            requires
                n >= 1,
                fact((n - 1) as nat) >= 1,
        ;
    }
}

proof fn lemma_fact_monotone(m: nat, n: nat)
    requires
        m <= n,
    ensures
        fact(m) <= fact(n),
    decreases n - m,
{
    if m < n {
        lemma_fact_monotone(m, (n - 1) as nat);
        lemma_fact_positive((n - 1) as nat);
        assert(fact((n - 1) as nat) <= n * fact((n - 1) as nat)) by (nonlinear_arith)
            requires
                n >= 1,
                fact((n - 1) as nat) >= 1,
        ;
    }
}

/// `n!`.
pub fn factorial(n: i64) -> (r: i64)
    requires
        0 <= n <= MAX_FACTORIAL_ARG,
    ensures
        r == fact(n as nat),
    decreases n,
{
    if n == 0 {
        return 1;
    }
    let previous = factorial(n - 1);
    proof {
        reveal_with_fuel(fact, 21);
        assert(fact(20) == 2432902008176640000);
        lemma_fact_monotone(n as nat, 20);
    }
    n * previous
}

} // verus!
