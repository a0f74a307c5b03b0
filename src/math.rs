use vstd::prelude::*;
use vstd::arithmetic::div_mod::{lemma_fundamental_div_mod, lemma_mod_multiples_basic};

verus! {

/// `n` is prime: at least 2, and no number between 2 and `n` divides it.
pub open spec fn is_prime_spec(n: int) -> bool {
    n >= 2 && forall|d: int| 2 <= d < n ==> #[trigger] (n % d) != 0
}

/// `n` has a divisor `d` with `2 <= d < bound` and `d < n`.
pub open spec fn has_factor_below(n: int, bound: int) -> bool {
    exists|d: int| 2 <= d < bound && d < n && #[trigger] (n % d) == 0
}

/// Divisibility is transitive.
pub proof fn lemma_divides_trans(a: int, b: int, c: int)
    requires
        b > 0,
        c > 0,
        a % b == 0,
        b % c == 0,
    ensures
        a % c == 0,
{
    lemma_fundamental_div_mod(a, b);
    lemma_fundamental_div_mod(b, c);
    let k = a / b;
    let j = b / c;
    assert(a == (j * k) * c) by (nonlinear_arith)
        requires
            a == b * k,
            b == c * j,
    ;
    lemma_mod_multiples_basic(j * k, c);
}

/// A proper divisor `d` of `n` has a proper co-divisor `n / d`.
pub proof fn lemma_codivisor(n: int, d: int)
    requires
        2 <= d < n,
        n % d == 0,
    ensures
        2 <= n / d < n,
        n % (n / d) == 0,
        d * (n / d) == n,
{
    lemma_fundamental_div_mod(n, d);
    let e = n / d;
    assert(2 <= e < n) by (nonlinear_arith)
        requires
            n == d * e,
            2 <= d < n,
    ;
    lemma_mod_multiples_basic(d, e);
    assert(d * e == e * d) by (nonlinear_arith);
}

/// A number below `bound * bound` with a proper divisor has one below `bound`.
pub proof fn lemma_divisor_below(n: int, d: int, bound: int)
    requires
        2 <= d < n,
        n % d == 0,
        0 <= bound,
        n < bound * bound,
    ensures
        has_factor_below(n, bound),
{
    lemma_codivisor(n, d);
    let e = n / d;
    if d < bound {
        assert(n % d == 0);
    } else {
        assert(e < bound) by (nonlinear_arith)
            requires
                d * e == n,
                d >= bound,
                n < bound * bound,
                bound >= 0,
                e >= 2,
        ;
        assert(n % e == 0);
    }
}

/// Every number of at least 2 has a prime divisor no larger than itself.
pub proof fn lemma_prime_divisor(n: int) -> (p: int)
    requires
        n >= 2,
    ensures
        is_prime_spec(p),
        p <= n,
        n % p == 0,
    decreases n,
{
    if is_prime_spec(n) {
        assert(n % n == 0) by {
            lemma_mod_multiples_basic(1, n);
        }
        n
    } else {
        let d = choose|d: int| 2 <= d < n && #[trigger] (n % d) == 0;
        let p = lemma_prime_divisor(d);
        lemma_divides_trans(n, d, p);
        p
    }
}

/// A number below `bound * bound` with no proper divisor below `bound` is prime.
pub proof fn lemma_prime_without_small_factor(n: int, bound: int)
    requires
        n >= 2,
        0 <= bound,
        n < bound * bound,
        !has_factor_below(n, bound),
    ensures
        is_prime_spec(n),
{
    assert forall|d: int| 2 <= d < n implies #[trigger] (n % d) != 0 by {
        if n % d == 0 {
            lemma_divisor_below(n, d, bound);
        }
    }
}

/// Two multiples of `f` that differ lie at least `f` apart.
pub proof fn lemma_multiples_apart(m: int, k: int, f: int)
    requires
        f > 0,
        m % f == 0,
        k % f == 0,
        m < k,
    ensures
        m + f <= k,
{
    lemma_fundamental_div_mod(m, f);
    lemma_fundamental_div_mod(k, f);
    let qm = m / f;
    let qk = k / f;
    assert(qm < qk) by (nonlinear_arith)
        requires
            m == f * qm,
            k == f * qk,
            m < k,
            f > 0,
    ;
    assert(m + f <= k) by (nonlinear_arith)
        requires
            m == f * qm,
            k == f * qk,
            qm + 1 <= qk,
            f > 0,
    ;
}

} // verus!
