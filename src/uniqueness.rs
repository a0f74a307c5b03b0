use vstd::prelude::*;
use vstd::arithmetic::div_mod::{lemma_fundamental_div_mod, lemma_mod_multiples_basic, lemma_small_mod};
use vstd::arithmetic::power::{pow, lemma_pow0, lemma_pow_positive};
use crate::math::is_prime_spec;
use crate::primes::{Factor, is_factorization, lemma_product_lower, product};

verus! {

/// A combination `i * x + j * y` of two multiples of `p` is a multiple of `p`.
proof fn lemma_combination(p: int, x: int, y: int, i: int, j: int)
    requires
        p > 0,
        x % p == 0,
        y % p == 0,
    ensures
        (i * x + j * y) % p == 0,
{
    lemma_fundamental_div_mod(x, p);
    lemma_fundamental_div_mod(y, p);
    let xq = x / p;
    let yq = y / p;
    assert(i * x + j * y == (i * xq + j * yq) * p) by (nonlinear_arith)
        requires
            x == p * xq,
            y == p * yq,
    ;
    lemma_mod_multiples_basic(i * xq + j * yq, p);
}

/// Euclid's lemma: a prime that divides a product divides one of its factors.
pub proof fn lemma_euclid(p: int, a: int, b: int)
    requires
        is_prime_spec(p),
        a >= 0,
        b >= 0,
        (a * b) % p == 0,
    ensures
        a % p == 0 || b % p == 0,
    decreases b,
{
    lemma_mod_multiples_basic(1, p);
    if a % p != 0 && b != 0 {
        if b >= p {
            assert(a * (b - p) == 1 * (a * b) + (-a) * p) by (nonlinear_arith);
            lemma_combination(p, a * b, p, 1, -a);
            lemma_euclid(p, a, b - p);
            lemma_combination(p, b - p, p, 1, 1);
            assert(1 * (b - p) + 1 * p == b);
        } else {
            lemma_fundamental_div_mod(p, b);
            let q = p / b;
            let r = p % b;
            if r == 0 {
                assert(b == 1);
                assert(a * b == a) by (nonlinear_arith)
                    requires
                        b == 1,
                ;
            } else {
                assert(a * r == a * p + (-q) * (a * b)) by (nonlinear_arith)
                    requires
                        p == b * q + r,
                ;
                lemma_combination(p, p, a * b, a, -q);
                assert(a * r >= 0) by (nonlinear_arith)
                    requires
                        a >= 0,
                        r >= 0,
                ;
                lemma_euclid(p, a, r);
                lemma_small_mod(r as nat, p as nat);
            }
        }
    }
}

/// A prime that divides a power of a prime is that prime.
proof fn lemma_prime_divides_power(p: int, q: int, c: nat)
    requires
        is_prime_spec(p),
        is_prime_spec(q),
        pow(q, c) % p == 0,
    ensures
        p == q,
    decreases c,
{
    if c == 0 {
        lemma_pow0(q);
        lemma_small_mod(1, p as nat);
    } else {
        let rest = pow(q, (c - 1) as nat);
        assert(pow(q, c) == q * rest) by {
            reveal(pow);
        }
        lemma_pow_positive(q, (c - 1) as nat);
        lemma_euclid(p, q, rest);
        if q % p == 0 {
            if p < q {
                assert(q % p != 0);
            } else if q < p {
                lemma_small_mod(q as nat, p as nat);
            }
        } else {
            lemma_prime_divides_power(p, q, (c - 1) as nat);
        }
    }
}

/// The terms of `s` are primes with positive exponents.
pub open spec fn prime_terms(s: Seq<Factor>) -> bool {
    forall|i: int| 0 <= i < s.len() ==> is_prime_spec(#[trigger] s[i].factor as int) && s[i].count >= 1
}

/// A prime that divides the product of prime powers is one of their bases.
pub proof fn lemma_prime_in_terms(p: int, s: Seq<Factor>) -> (i: int)
    requires
        is_prime_spec(p),
        prime_terms(s),
        product(s) % p == 0,
    ensures
        0 <= i < s.len(),
        s[i].factor == p,
    decreases s.len(),
{
    if s.len() == 0 {
        lemma_small_mod(1, p as nat);
        0
    } else {
        let rest = s.drop_last();
        let f = s.last();
        assert forall|k: int| 0 <= k < rest.len() implies is_prime_spec(#[trigger] rest[k].factor as int) && rest[k].count >= 1 by {
            assert(rest[k] == s[k]);
        }
        lemma_product_lower(rest);
        lemma_pow_positive(f.factor as int, f.count as nat);
        lemma_euclid(p, product(rest), pow(f.factor as int, f.count as nat));
        if product(rest) % p == 0 {
            let k = lemma_prime_in_terms(p, rest);
            assert(rest[k] == s[k]);
            k
        } else {
            lemma_prime_divides_power(p, f.factor as int, f.count as nat);
            s.len() - 1
        }
    }
}

/// The product of a non-empty run of prime powers is a multiple of its last base.
proof fn lemma_last_divides(s: Seq<Factor>)
    requires
        prime_terms(s),
        s.len() > 0,
    ensures
        product(s) % (s.last().factor as int) == 0,
        product(s) == product(s.drop_last()) * s.last().factor * pow(s.last().factor as int, (s.last().count - 1) as nat),
{
    let f = s.last();
    let p = f.factor as int;
    let rest = pow(p, (f.count - 1) as nat);
    assert(pow(p, f.count as nat) == p * rest) by {
        reveal(pow);
    }
    let a = product(s.drop_last());
    assert(product(s) == (a * rest) * p && product(s) == a * p * rest) by (nonlinear_arith)
        requires
            product(s) == a * (p * rest),
    ;
    lemma_mod_multiples_basic(a * rest, p);
}

/// A prime decomposition is unique.
pub proof fn lemma_factorization_unique(s: Seq<Factor>, t: Seq<Factor>, n: int)
    requires
        is_factorization(s, n),
        is_factorization(t, n),
    ensures
        s == t,
    decreases s.len() + t.len(),
{
    if s.len() == 0 || t.len() == 0 {
        if s.len() > 0 {
            lemma_last_divides(s);
            let p = s.last().factor as int;
            lemma_small_mod(1, p as nat);
        } else if t.len() > 0 {
            lemma_last_divides(t);
            let p = t.last().factor as int;
            lemma_small_mod(1, p as nat);
        }
        assert(s =~= t);
    } else {
        let p = s.last().factor as int;
        let q = t.last().factor as int;
        lemma_last_divides(s);
        lemma_last_divides(t);
        let i = lemma_prime_in_terms(p, t);
        let j = lemma_prime_in_terms(q, s);
        if i < t.len() - 1 {
            assert(t[i].factor < q);
        }
        if j < s.len() - 1 {
            assert(s[j].factor < p);
        }
        assert(p == q);
        let rs = s.drop_last();
        let rt = t.drop_last();
        let a = product(rs);
        let b = product(rt);
        let c = s.last().count as nat;
        let e = t.last().count as nat;
        assert forall|k: int| 0 <= k < rs.len() implies is_prime_spec(#[trigger] rs[k].factor as int) && rs[k].count >= 1 && rs[k].factor < p by {
            assert(rs[k] == s[k]);
        }
        assert forall|k: int| 0 <= k < rt.len() implies is_prime_spec(#[trigger] rt[k].factor as int) && rt[k].count >= 1 && rt[k].factor < p by {
            assert(rt[k] == t[k]);
        }
        lemma_product_lower(rs);
        lemma_product_lower(rt);
        assert(a % p != 0) by {
            if a % p == 0 {
                let k = lemma_prime_in_terms(p, rs);
            }
        }
        assert(b % p != 0) by {
            if b % p == 0 {
                let k = lemma_prime_in_terms(p, rt);
            }
        }
        lemma_equal_powers(p, a, b, c, e);
        assert forall|x: int, y: int| 0 <= x < y < rs.len() implies rs[x].factor < rs[y].factor by {
            assert(rs[x] == s[x] && rs[y] == s[y]);
        }
        assert forall|x: int, y: int| 0 <= x < y < rt.len() implies rt[x].factor < rt[y].factor by {
            assert(rt[x] == t[x] && rt[y] == t[y]);
        }
        lemma_factorization_unique(rs, rt, a);
        assert(s.last() == t.last());
        assert(s =~= rs.push(s.last()));
        assert(t =~= rt.push(t.last()));
    }
}

/// `a * p^c == b * p^e` with neither `a` nor `b` a multiple of the prime `p`
/// forces `c == e` and `a == b`.
proof fn lemma_equal_powers(p: int, a: int, b: int, c: nat, e: nat)
    requires
        is_prime_spec(p),
        a >= 1,
        b >= 1,
        a % p != 0,
        b % p != 0,
        a * pow(p, c) == b * pow(p, e),
    ensures
        c == e,
        a == b,
    decreases c + e,
{
    lemma_pow0(p);
    if c > 0 && e > 0 {
        let pc = pow(p, (c - 1) as nat);
        let pe = pow(p, (e - 1) as nat);
        assert(pow(p, c) == p * pc && pow(p, e) == p * pe) by {
            reveal(pow);
        }
        assert(a * pc == b * pe) by (nonlinear_arith)
            requires
                a * (p * pc) == b * (p * pe),
                p >= 2,
        ;
        lemma_equal_powers(p, a, b, (c - 1) as nat, (e - 1) as nat);
    } else if c > 0 {
        let pc = pow(p, (c - 1) as nat);
        assert(pow(p, c) == p * pc) by {
            reveal(pow);
        }
        assert(b == (a * pc) * p) by (nonlinear_arith)
            requires
                a * (p * pc) == b * 1,
        ;
        lemma_mod_multiples_basic(a * pc, p);
    } else if e > 0 {
        let pe = pow(p, (e - 1) as nat);
        assert(pow(p, e) == p * pe) by {
            reveal(pow);
        }
        assert(a == (b * pe) * p) by (nonlinear_arith)
            requires
                a * 1 == b * (p * pe),
        ;
        lemma_mod_multiples_basic(b * pe, p);
    }
}

} // verus!
