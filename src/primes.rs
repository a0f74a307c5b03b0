use vstd::prelude::*;
use vstd::arithmetic::div_mod::{lemma_fundamental_div_mod, lemma_mod_multiples_basic};
use vstd::arithmetic::power::{pow, lemma_pow0, lemma_pow1, lemma_pow_increases, lemma_pow_positive};
use crate::isqrt::sqrt_floor;
use crate::math::{
    has_factor_below,
    is_prime_spec,
    lemma_divides_trans,
    lemma_prime_divisor,
    lemma_prime_without_small_factor,
};
use crate::sieve::{get_primes, lists_primes_upto};

verus! {

/// The bound of the table that the free functions use: every `u32` is below
/// the square of the next integer, so its table covers the whole `u32` range.
pub const TABLE_BOUND: u32 = 65536;

/// No number `d` with `2 <= d < bound` divides `m`.
pub open spec fn no_divisor_below(m: int, bound: int) -> bool {
    forall|d: int| 2 <= d < bound ==> #[trigger] (m % d) != 0
}

/// One term `factor ^ count` of a prime decomposition.
#[derive(Debug, Clone, Copy, PartialEq, Eq, Structural)]
pub struct Factor {
    pub factor: u32,
    pub count: u32,
}

/// The product of `factor ^ count` over the terms of `s`.
pub open spec fn product(s: Seq<Factor>) -> int
    decreases s.len(),
{
    if s.len() == 0 {
        1
    } else {
        product(s.drop_last()) * pow(s.last().factor as int, s.last().count as nat)
    }
}

/// `s` is the prime decomposition of `n`: strictly increasing primes, each
/// with a positive exponent, whose product is `n`.
pub open spec fn is_factorization(s: Seq<Factor>, n: int) -> bool {
    &&& forall|i: int| 0 <= i < s.len() ==> is_prime_spec(#[trigger] s[i].factor as int) && s[i].count >= 1
    &&& forall|i: int, j: int| 0 <= i < j < s.len() ==> s[i].factor < s[j].factor
    &&& product(s) == n
}

/// Appending a term multiplies the product by that term's power.
pub proof fn lemma_product_push(s: Seq<Factor>, f: Factor)
    ensures
        product(s.push(f)) == product(s) * pow(f.factor as int, f.count as nat),
{
    assert(s.push(f).drop_last() =~= s);
}

/// A product of powers of numbers of at least 2 is positive, and at least 2
/// when it has a term.
pub proof fn lemma_product_lower(s: Seq<Factor>)
    requires
        forall|i: int| 0 <= i < s.len() ==> #[trigger] s[i].factor >= 2 && s[i].count >= 1,
    ensures
        product(s) >= 1,
        s.len() > 0 ==> product(s) >= 2,
    decreases s.len(),
{
    if s.len() > 0 {
        let rest = s.drop_last();
        assert forall|i: int| 0 <= i < rest.len() implies #[trigger] rest[i].factor >= 2 && rest[i].count >= 1 by {
            assert(rest[i] == s[i]);
        }
        lemma_product_lower(rest);
        let f = s.last();
        lemma_pow1(f.factor as int);
        lemma_pow_increases(f.factor as nat, 1, f.count as nat);
        let pw = pow(f.factor as int, f.count as nat);
        assert(product(s) >= 2) by (nonlinear_arith)
            requires
                product(s) == product(rest) * pw,
                product(rest) >= 1,
                pw >= 2,
        ;
    }
}

/// A product of two numbers of at least 2 is not prime.
proof fn lemma_product_not_prime(a: int, b: int)
    requires
        a >= 2,
        b >= 2,
    ensures
        !is_prime_spec(a * b),
{
    lemma_mod_multiples_basic(b, a);
    assert(b * a == a * b && a < a * b) by (nonlinear_arith)
        requires
            a >= 2,
            b >= 2,
    ;
}

/// A number is prime exactly when its prime decomposition is a single term
/// whose exponent is 1.
pub proof fn lemma_prime_iff_single_factor(n: int, s: Seq<Factor>)
    requires
        n >= 2,
        is_factorization(s, n),
    ensures
        is_prime_spec(n) <==> (s.len() == 1 && s[0].count == 1),
{
    assert forall|i: int| 0 <= i < s.len() implies #[trigger] s[i].factor >= 2 && s[i].count >= 1 by {
        assert(is_prime_spec(s[i].factor as int));
    }
    if s.len() == 0 {
        assert(product(s) == 1);
    } else {
        let rest = s.drop_last();
        let f = s.last();
        let p = f.factor as int;
        let pw = pow(p, f.count as nat);
        assert forall|i: int| 0 <= i < rest.len() implies #[trigger] rest[i].factor >= 2 && rest[i].count >= 1 by {
            assert(rest[i] == s[i]);
        }
        lemma_product_lower(rest);
        lemma_pow1(p);
        lemma_pow_increases(p as nat, 1, f.count as nat);
        assert(n == product(rest) * pw);
        if s.len() >= 2 {
            assert(rest.len() > 0);
            lemma_product_not_prime(product(rest), pw);
        } else if f.count >= 2 {
            assert(rest.len() == 0 && product(rest) == 1 && n == pw);
            let pw1 = pow(p, (f.count - 1) as nat);
            assert(pw == p * pw1) by {
                reveal(pow);
            }
            lemma_pow_increases(p as nat, 1, (f.count - 1) as nat);
            lemma_product_not_prime(p, pw1);
        } else {
            assert(rest.len() == 0 && product(rest) == 1 && s[0] == f);
            assert(n == p);
        }
    }
}

/// The sorted primes up to a bound, built once and then only read.
pub struct PrimeTable {
    pub primes: Vec<u32>,
    pub bound: u32,
}

impl PrimeTable {
    /// The table lists exactly the primes up to its bound, which is at least 2.
    pub open spec fn wf(&self) -> bool {
        &&& self.bound >= 2
        &&& lists_primes_upto(self.primes@, self.bound as int)
    }

    /// The bound past which the table has no more primes to offer, seen from
    /// position `idx`: the prime there, or one past the table's bound.
    pub open spec fn next_bound(&self, idx: int) -> int {
        if idx < self.primes@.len() {
            self.primes@[idx] as int
        } else {
            self.bound + 1
        }
    }

    /// The table reaches far enough to decide every number below `(bound + 1)^2`.
    pub open spec fn covers(&self, n: int) -> bool {
        n < (self.bound + 1) * (self.bound + 1)
    }

    /// The table starts with 2.
    proof fn lemma_two_first(&self)
        requires
            self.wf(),
        ensures
            self.primes@.len() >= 1,
            self.primes@[0] == 2,
    {
        assert(is_prime_spec(2));
        let a = choose|a: int| 0 <= a < self.primes@.len() && self.primes@[a] == 2u32;
        if a > 0 {
            assert(is_prime_spec(self.primes@[0] as int));
        }
    }

    /// A prime below `next_bound(idx + 1)` stands in the table at `idx` or before.
    proof fn lemma_prime_position(&self, q: int, idx: int) -> (j: int)
        requires
            self.wf(),
            0 <= idx < self.primes@.len(),
            is_prime_spec(q),
            q < self.next_bound(idx + 1),
        ensures
            0 <= j <= idx,
            self.primes@[j] == q,
    {
        assert(q <= self.bound);
        assert(self.primes@.contains(q as u32));
        let j = choose|j: int| 0 <= j < self.primes@.len() && self.primes@[j] == q as u32;
        if j > idx + 1 {
            assert(self.primes@[idx + 1] < self.primes@[j]);
        }
        j
    }

    /// The table of all primes up to `bound`.
    pub fn new(bound: u32) -> (t: PrimeTable)
        requires
            bound >= 2,
        ensures
            t.wf(),
            t.bound == bound,
    {
        PrimeTable { primes: get_primes(bound), bound }
    }

    /// The table that covers every `u32`.
    pub fn full() -> (t: PrimeTable)
        ensures
            t.wf(),
            t.bound == TABLE_BOUND,
            forall|n: u32| t.covers(n as int),
    {
        PrimeTable::new(TABLE_BOUND)
    }

    /// The position of `n` in the table, by binary search.
    pub fn stored_prime_index(&self, n: u32) -> (r: Option<usize>)
        requires
            self.wf(),
        ensures
            match r {
                Some(i) => i < self.primes@.len() && self.primes@[i as int] == n,
                None => !self.primes@.contains(n),
            },
    {
        proof {
            self.lemma_two_first();
        }
        let index_max_stored_prime: usize = self.primes.len() - 1;
        let max_stored_prime = self.primes[index_max_stored_prime];
        if n >= max_stored_prime {
            if n == max_stored_prime {
                return Some(index_max_stored_prime);
            } else {
                assert forall|i: int| 0 <= i < self.primes@.len() implies self.primes@[i] != n by {
                    if i < index_max_stored_prime {
                        assert(self.primes@[i] < self.primes@[index_max_stored_prime as int]);
                    }
                }
                return None;
            }
        }
        if n <= 1 {
            assert forall|i: int| 0 <= i < self.primes@.len() implies self.primes@[i] != n by {
                assert(is_prime_spec(self.primes@[i] as int));
            }
            return None;
        }
        let mut min_index: usize = 0;
        let mut top_index: usize = index_max_stored_prime;
        while min_index + 1 < top_index
            invariant
                self.wf(),
                min_index < top_index <= index_max_stored_prime,
                index_max_stored_prime == self.primes@.len() - 1,
                self.primes@[min_index as int] <= n < self.primes@[top_index as int],
            decreases top_index - min_index,
        {
            let middle_index = min_index + (top_index - min_index) / 2;
            if n < self.primes[middle_index] {
                top_index = middle_index;
            } else {
                min_index = middle_index;
            }
        }
        if self.primes[min_index] == n {
            Some(min_index)
        } else {
            assert forall|i: int| 0 <= i < self.primes@.len() implies self.primes@[i] != n by {
                if i < min_index {
                    assert(self.primes@[i] < self.primes@[min_index as int]);
                } else if i > top_index {
                    assert(self.primes@[top_index as int] < self.primes@[i]);
                }
            }
            None
        }
    }

    /// Whether `n` is prime: looked up in the table up to its bound, and by
    /// trial division by every stored prime above it.
    pub fn is_prime(&self, n: u32) -> (r: bool)
        requires
            self.wf(),
            self.covers(n as int),
        ensures
            r == is_prime_spec(n as int),
    {
        if n <= self.bound {
            return match self.stored_prime_index(n) {
                Some(_) => true,
                None => {
                    assert(!is_prime_spec(n as int) || n < 2);
                    false
                },
            };
        }
        let mut i: usize = 0;
        while i < self.primes.len()
            invariant
                self.wf(),
                self.bound < n,
                i <= self.primes@.len(),
                forall|j: int| 0 <= j < i ==> (n as int) % (#[trigger] self.primes@[j] as int) != 0,
            decreases self.primes@.len() - i,
        {
            let p = self.primes[i];
            if n % p == 0 {
                assert(is_prime_spec(p as int));
                assert(!is_prime_spec(n as int));
                return false;
            }
            i += 1;
        }
        proof {
            let b = self.bound + 1;
            if has_factor_below(n as int, b) {
                let d = choose|d: int| 2 <= d < b && d < n && #[trigger] ((n as int) % d) == 0;
                let q = lemma_prime_divisor(d);
                lemma_divides_trans(n as int, d, q);
                assert(self.primes@.contains(q as u32));
            }
            lemma_prime_without_small_factor(n as int, b);
        }
        true
    }

    /// The prime decomposition of `n`, by trial division with the stored primes
    /// in ascending order; what remains once the primes pass its square root is prime.
    pub fn factors(&self, n: u32) -> (r: Vec<Factor>)
        requires
            self.wf(),
            self.covers(n as int),
            n >= 2,
        ensures
            is_factorization(r@, n as int),
    {
        let mut result: Vec<Factor> = Vec::new();
        let mut prime_index: usize = 0;
        proof {
            self.lemma_two_first();
        }
        let mut remaining: u32 = n;
        loop
            invariant
                self.wf(),
                self.covers(n as int),
                1 <= remaining <= n,
                prime_index <= self.primes@.len(),
                product(result@) * remaining == n,
                forall|i: int|
                    0 <= i < result@.len() ==> is_prime_spec(#[trigger] result@[i].factor as int)
                        && result@[i].count >= 1
                        && result@[i].factor < self.next_bound(prime_index as int),
                forall|i: int, j: int| 0 <= i < j < result@.len() ==> result@[i].factor < result@[j].factor,
                no_divisor_below(remaining as int, self.next_bound(prime_index as int)),
            decreases self.primes@.len() - prime_index,
        {
            if remaining == 1 {
                return result;
            }
            let root = sqrt_floor(remaining);
            if prime_index >= self.primes.len() || self.primes[prime_index] > root {
                proof {
                    let b = self.next_bound(prime_index as int);
                    let m = remaining as int;
                    if prime_index < self.primes@.len() {
                        let s = root as int;
                        assert(!has_factor_below(m, s + 1));
                        lemma_prime_without_small_factor(m, s + 1);
                    } else {
                        assert(m < b * b) by (nonlinear_arith)
                            requires
                                m <= n,
                                n < (self.bound + 1) * (self.bound + 1),
                                b == self.bound + 1,
                        ;
                        assert(!has_factor_below(m, b));
                        lemma_prime_without_small_factor(m, b);
                    }
                    lemma_mod_multiples_basic(1, m);
                    assert(m % m == 0);
                    assert(m >= b);
                    lemma_product_push(result@, Factor { factor: remaining, count: 1 });
                    lemma_pow1(m);
                }
                result.push(Factor { factor: remaining, count: 1 });
                return result;
            }
            let factor = self.primes[prime_index];
            let ghost old_remaining = remaining as int;
            let ghost old_result = result@;
            let (count, new_remaining) = next_factor(remaining, factor);
            if count >= 1 {
                result.push(Factor { factor, count });
                proof {
                    lemma_product_push(old_result, Factor { factor, count });
                }
            }
            remaining = new_remaining;
            proof {
                let p = factor as int;
                let pw = pow(p, count as nat);
                let m = remaining as int;
                lemma_pow0(p);
                assert(is_prime_spec(p));
                assert(product(result@) * m == n) by (nonlinear_arith)
                    requires
                        product(old_result) * old_remaining == n,
                        m * pw == old_remaining,
                        count == 0 ==> pw == 1 && result@ == old_result,
                        count >= 1 ==> product(result@) == product(old_result) * pw,
                ;
                lemma_pow_positive(p, count as nat);
                assert(m <= old_remaining) by (nonlinear_arith)
                    requires
                        m * pw == old_remaining,
                        pw >= 1,
                        m >= 1,
                ;
                assert(old_remaining % m == 0) by {
                    lemma_mod_multiples_basic(pw, m);
                    assert(pw * m == m * pw) by (nonlinear_arith);
                }
                let nb = self.next_bound(prime_index + 1);
                if prime_index + 1 < self.primes@.len() {
                    assert(self.primes@[prime_index as int] < self.primes@[prime_index + 1]);
                }
                assert forall|d: int| 2 <= d < nb implies #[trigger] (m % d) != 0 by {
                    if m % d == 0 {
                        let q = lemma_prime_divisor(d);
                        lemma_divides_trans(m, d, q);
                        let j = self.lemma_prime_position(q, prime_index as int);
                        if j < prime_index {
                            assert(self.primes@[j] < self.primes@[prime_index as int]);
                            lemma_divides_trans(old_remaining, m, q);
                        }
                    }
                }
            }
            prime_index += 1;
        }
    }
}

/// Divides `factor` out of `n` as often as it goes: the number of times, and
/// what remains.
fn next_factor(n: u32, factor: u32) -> (r: (u32, u32))
    requires
        n >= 1,
        factor >= 2,
    ensures
        r.1 >= 1,
        r.1 * pow(factor as int, r.0 as nat) == n,
        r.1 % factor != 0,
{
    let mut remaining: u32 = n;
    let mut count: u32 = 0;
    proof {
        lemma_pow0(factor as int);
    }
    loop
        invariant
            factor >= 2,
            remaining >= 1,
            count + remaining <= n,
            remaining * pow(factor as int, count as nat) == n,
        decreases remaining,
    {
        let division = remaining / factor;
        let remainder = remaining % factor;
        if remainder == 0 {
            proof {
                lemma_fundamental_div_mod(remaining as int, factor as int);
                let pw = pow(factor as int, count as nat);
                assert(pow(factor as int, (count + 1) as nat) == factor * pw) by {
                    reveal(pow);
                }
                assert(division * (factor * pw) == n && 1 <= division < remaining) by (nonlinear_arith)
                    requires
                        remaining == factor * division,
                        remaining * pw == n,
                        remaining >= 1,
                        factor >= 2,
                ;
            }
            count += 1;
            remaining = division;
        } else {
            return (count, remaining);
        }
    }
}

/// Whether `n` is prime, decided with the table that covers every `u32`.
pub fn is_prime(n: u32) -> (r: bool)
    ensures
        r == is_prime_spec(n as int),
{
    let table = PrimeTable::full();
    table.is_prime(n)
}

/// The prime decomposition of `n`, with the table that covers every `u32`.
pub fn factors(n: u32) -> (r: Vec<Factor>)
    requires
        n >= 2,
    ensures
        is_factorization(r@, n as int),
{
    let table = PrimeTable::full();
    table.factors(n)
}

} // verus!
