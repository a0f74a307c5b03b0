use vstd::prelude::*;
use crate::isqrt::sqrt_floor;
use crate::math::{
    has_factor_below,
    is_prime_spec,
    lemma_divides_trans,
    lemma_multiples_apart,
    lemma_prime_without_small_factor,
};

verus! {

/// `s` is the ascending list of all primes up to `bound`.
pub open spec fn lists_primes_upto(s: Seq<u32>, bound: int) -> bool {
    &&& forall|i: int, j: int| 0 <= i < j < s.len() ==> s[i] < s[j]
    &&& forall|i: int| 0 <= i < s.len() ==> is_prime_spec(#[trigger] s[i] as int) && s[i] <= bound
    &&& forall|p: int| 2 <= p <= bound && #[trigger] is_prime_spec(p) ==> s.contains(p as u32)
}

/// The ascending list of all primes up to `upper_bound`, by a sieve that only
/// filters with candidates up to the integer square root of the bound.
pub fn get_primes(upper_bound: u32) -> (r: Vec<u32>)
    ensures
        lists_primes_upto(r@, upper_bound as int),
{
    let mut primes: Vec<u32> = Vec::new();
    if upper_bound <= 1 {
        return primes;
    }
    let n: u64 = upper_bound as u64;
    let filter_bound: u64 = sqrt_floor(upper_bound) as u64;
    assert(filter_bound >= 1) by {
        if filter_bound == 0 {
            assert((filter_bound + 1) * (filter_bound + 1) == 1);
        }
    }
    let mut removed: Vec<bool> = Vec::new();
    let mut i: u64 = 2;
    while i <= n
        invariant
            2 <= i <= n + 1,
            n <= u32::MAX,
            removed@.len() == i - 2,
            forall|k: int| 0 <= k < i - 2 ==> !#[trigger] removed@[k],
        decreases n + 1 - i,
    {
        removed.push(false);
        i += 1;
    }
    let mut filter: u64 = 2;
    while filter <= filter_bound
        invariant
            removed@.len() == n - 1,
            n <= u32::MAX,
            1 <= filter_bound,
            2 <= filter <= filter_bound + 1,
            filter_bound * filter_bound <= n,
            forall|k: int| 2 <= k <= n ==> (#[trigger] removed@[k - 2] <==> has_factor_below(k, filter as int)),
        decreases filter_bound + 1 - filter,
    {
        assert(filter <= n) by (nonlinear_arith)
            requires
                2 <= filter <= filter_bound,
                filter_bound * filter_bound <= n,
        ;
        let ghost f: int = filter as int;
        if !removed[(filter - 2) as usize] {
            let mut m: u64 = filter + filter;
            assert((m as int) % f == 0) by {
                vstd::arithmetic::div_mod::lemma_mod_multiples_basic(2, f);
            }
            assert forall|k: int| #[trigger] (k % f) == 0 && f < k implies 2 * f <= k by {
                vstd::arithmetic::div_mod::lemma_mod_multiples_basic(1, f);
                lemma_multiples_apart(f, k, f);
            }
            while m <= n
                invariant
                    removed@.len() == n - 1,
                    n <= u32::MAX,
                    2 <= filter <= n,
                    f == filter,
                    (m as int) % f == 0,
                    2 * f <= m <= n + f,
                    forall|k: int|
                        2 <= k <= n ==> (#[trigger] removed@[k - 2] <==> (has_factor_below(k, f) || (k < m && k % f == 0 && f < k))),
                decreases n + f - m,
            {
                let ghost old_m: int = m as int;
                removed.set((m - 2) as usize, true);
                m = m + filter;
                assert((old_m + f) % f == 0) by {
                    vstd::arithmetic::div_mod::lemma_mod_multiples_vanish(1, old_m, f);
                }
                assert forall|k: int| 0 <= k <= n && #[trigger] (k % f) == 0 && f < k && k < m implies k <= old_m by {
                    if k > old_m {
                        lemma_multiples_apart(old_m, k, f);
                    }
                }
            }
        } else {
            proof {
                assert(has_factor_below(f, f));
                let d = choose|d: int| 2 <= d < f && d < f && #[trigger] (f % d) == 0;
                assert forall|k: int| 0 <= k <= n && k % f == 0 && f < k implies has_factor_below(k, f) by {
                    lemma_divides_trans(k, f, d);
                }
            }
        }
        assert forall|k: int| 2 <= k <= n implies (#[trigger] removed@[k - 2] <==> has_factor_below(k, f + 1)) by {
            if has_factor_below(k, f + 1) && !has_factor_below(k, f) {
                let d = choose|d: int| 2 <= d < f + 1 && d < k && #[trigger] (k % d) == 0;
                assert(d == f);
            }
        }
        filter += 1;
    }
    let ghost bound: int = filter_bound + 1;
    let mut k: u64 = 2;
    while k <= n
        invariant
            removed@.len() == n - 1,
            n <= u32::MAX,
            2 <= k <= n + 1,
            n < bound * bound,
            bound >= 0,
            forall|j: int| 2 <= j <= n ==> (#[trigger] removed@[j - 2] <==> has_factor_below(j, bound)),
            forall|a: int, b: int| 0 <= a < b < primes@.len() ==> primes@[a] < primes@[b],
            forall|a: int|
                0 <= a < primes@.len() ==> is_prime_spec(#[trigger] primes@[a] as int) && primes@[a] < k,
            forall|p: int| 2 <= p < k && #[trigger] is_prime_spec(p) ==> primes@.contains(p as u32),
        decreases n + 1 - k,
    {
        if !removed[(k - 2) as usize] {
            assert(is_prime_spec(k as int)) by {
                lemma_prime_without_small_factor(k as int, bound);
            }
            let ghost before = primes@;
            primes.push(k as u32);
            assert forall|p: int| 2 <= p < k + 1 && #[trigger] is_prime_spec(p) implies primes@.contains(p as u32) by {
                if p < k {
                    let a = choose|a: int| 0 <= a < before.len() && before[a] == p as u32;
                    assert(primes@[a] == p as u32);
                } else {
                    assert(primes@[before.len() as int] == p as u32);
                }
            }
        } else {
            let ghost kk: int = k as int;
            assert(!is_prime_spec(kk)) by {
                let d = choose|d: int| 2 <= d < bound && d < kk && #[trigger] (kk % d) == 0;
            }
        }
        k += 1;
    }
    primes
}

} // verus!
