use vstd::prelude::*;
use vstd::arithmetic::power::{pow, lemma_pow0, lemma_pow1, lemma_pow_adds, lemma_pow_increases, lemma_pow_positive};
use crate::math::is_prime_spec;
use crate::primes::{Factor, factors, is_factorization, product, lemma_product_push};
use crate::rational::Rational;
use crate::uniqueness::lemma_factorization_unique;

verus! {

/// `m` is square-free: its prime decomposition has every exponent equal to 1.
pub open spec fn is_square_free(m: int) -> bool {
    exists|s: Seq<Factor>| #[trigger] is_factorization(s, m) && forall|i: int| 0 <= i < s.len() ==> #[trigger] s[i].count == 1
}

/// The product of the bases whose exponent is odd.
pub open spec fn odd_part(s: Seq<Factor>) -> int
    decreases s.len(),
{
    if s.len() == 0 {
        1
    } else {
        odd_part(s.drop_last()) * (if s.last().count % 2 == 1 {
            s.last().factor as int
        } else {
            1
        })
    }
}

/// The square-free part of `n >= 1`: the product of the primes that divide
/// `n` an odd number of times, so that `n` is it times a perfect square.
pub open spec fn square_free_part(n: int) -> int {
    odd_part(choose|s: Seq<Factor>| is_factorization(s, n))
}

/// The square-free part read off any prime decomposition of `n`.
pub proof fn lemma_square_free_part_of(s: Seq<Factor>, n: int)
    requires
        is_factorization(s, n),
    ensures
        square_free_part(n) == odd_part(s),
{
    let t = choose|t: Seq<Factor>| is_factorization(t, n);
    lemma_factorization_unique(s, t, n);
}

/// One more term of a factorization contributes its base to the odd part
/// when its exponent is odd.
proof fn lemma_odd_part_step(s: Seq<Factor>, i: int)
    requires
        0 <= i < s.len(),
    ensures
        odd_part(s.take(i + 1)) == odd_part(s.take(i)) * (if s[i].count % 2 == 1 {
            s[i].factor as int
        } else {
            1
        }),
{
    assert(s.take(i + 1).drop_last() =~= s.take(i));
}

/// `b` to the power `e`, where the result fits a `u32`.
fn pow_u32(b: u32, e: u32) -> (r: u32)
    requires
        b >= 1,
        pow(b as int, e as nat) <= u32::MAX,
    ensures
        r == pow(b as int, e as nat),
{
    let mut r: u32 = 1;
    let mut i: u32 = 0;
    proof {
        lemma_pow0(b as int);
    }
    while i < e
        invariant
            b >= 1,
            i <= e,
            pow(b as int, e as nat) <= u32::MAX,
            r == pow(b as int, i as nat),
        decreases e - i,
    {
        proof {
            assert(pow(b as int, (i + 1) as nat) == b * pow(b as int, i as nat)) by {
                reveal(pow);
            }
            lemma_pow_increases(b as nat, (i + 1) as nat, e as nat);
        }
        r = r * b;
        i += 1;
    }
    r
}

/// The product of a prefix of a factorization lies between 1 and the whole product.
proof fn lemma_prefix_product(s: Seq<Factor>, i: int)
    requires
        forall|k: int| 0 <= k < s.len() ==> #[trigger] s[k].factor >= 1,
        0 <= i <= s.len(),
    ensures
        1 <= product(s.take(i)) <= product(s),
    decreases s.len(), i,
{
    if i == s.len() {
        assert(s.take(i) =~= s);
        if s.len() > 0 {
            lemma_prefix_product(s, i - 1);
            let f = s.last();
            assert(s.drop_last() =~= s.take(i - 1));
            lemma_pow_positive(f.factor as int, f.count as nat);
            let pw = pow(f.factor as int, f.count as nat);
            assert(product(s) >= 1) by (nonlinear_arith)
                requires
                    product(s) == product(s.take(i - 1)) * pw,
                    product(s.take(i - 1)) >= 1,
                    pw >= 1,
            ;
        }
    } else {
        let rest = s.drop_last();
        assert forall|k: int| 0 <= k < rest.len() implies #[trigger] rest[k].factor >= 1 by {
            assert(rest[k] == s[k]);
        }
        lemma_prefix_product(rest, i);
        assert(rest.take(i) =~= s.take(i));
        lemma_prefix_product(rest, rest.len() as int);
        assert(rest.take(rest.len() as int) =~= rest);
        let f = s.last();
        lemma_pow_positive(f.factor as int, f.count as nat);
        let pw = pow(f.factor as int, f.count as nat);
        assert(product(rest) <= product(s)) by (nonlinear_arith)
            requires
                product(s) == product(rest) * pw,
                product(rest) >= 1,
                pw >= 1,
        ;
    }
}

/// One more term of a factorization multiplies the prefix product by its power.
proof fn lemma_prefix_step(s: Seq<Factor>, i: int)
    requires
        0 <= i < s.len(),
    ensures
        product(s.take(i + 1)) == product(s.take(i)) * pow(s[i].factor as int, s[i].count as nat),
{
    assert(s.take(i + 1) =~= s.take(i).push(s[i]));
    lemma_product_push(s.take(i), s[i]);
}

/// Writes `n` as `square^2 * root` with `root` square-free.
pub fn split_square_times_root(n: u32) -> (r: (u32, u32))
    ensures
        r.0 * r.0 * r.1 == n,
        r.1 >= 1,
        is_square_free(r.1 as int),
        n >= 1 ==> r.1 == square_free_part(n as int),
        n <= 1 ==> r.0 == n && r.1 == 1,
{
    if n == 0 || n == 1 {
        assert(is_factorization(Seq::<Factor>::empty(), 1));
        proof {
            lemma_square_free_part_of(Seq::<Factor>::empty(), 1);
        }
        assert(n * n * 1 == n) by (nonlinear_arith)
            requires
                n <= 1,
        ;
        return (n, 1);
    }
    let mut square: u32 = 1;
    let mut root: u32 = 1;
    let the_factors = factors(n);
    let ghost fs = the_factors@;
    let ghost mut root_fs: Seq<Factor> = Seq::empty();
    proof {
        assert forall|k: int| 0 <= k < fs.len() implies #[trigger] fs[k].factor >= 1 by {
            assert(is_prime_spec(fs[k].factor as int));
        }
        assert(fs.take(0) =~= Seq::<Factor>::empty());
    }
    let mut i: usize = 0;
    while i < the_factors.len()
        invariant
            fs == the_factors@,
            is_factorization(fs, n as int),
            forall|k: int| 0 <= k < fs.len() ==> #[trigger] fs[k].factor >= 1,
            i <= fs.len(),
            square >= 1,
            root >= 1,
            square * square * root == product(fs.take(i as int)),
            is_factorization(root_fs, root as int),
            forall|k: int| 0 <= k < root_fs.len() ==> #[trigger] root_fs[k].count == 1,
            root_fs.len() > 0 ==> i > 0 && root_fs.last().factor <= fs[i - 1].factor,
            root == odd_part(fs.take(i as int)),
        decreases fs.len() - i,
    {
        let f = the_factors[i];
        let remainder = f.count % 2;
        let division = f.count / 2;
        let ghost p = f.factor as int;
        let ghost prefix = product(fs.take(i as int));
        let ghost pc = pow(p, f.count as nat);
        proof {
            assert(is_prime_spec(p));
            lemma_prefix_step(fs, i as int);
            lemma_odd_part_step(fs, i as int);
            lemma_prefix_product(fs, i as int + 1);
            lemma_prefix_product(fs, i as int);
            lemma_pow_positive(p, f.count as nat);
            assert(pc <= prefix * pc) by (nonlinear_arith)
                requires
                    prefix >= 1,
                    pc >= 1,
            ;
            lemma_pow_increases(p as nat, division as nat, f.count as nat);
            lemma_pow_positive(p, division as nat);
        }
        let pd = pow_u32(f.factor, division);
        proof {
            assert(1 <= square * pd <= prefix * pc) by (nonlinear_arith)
                requires
                    square * square * root == prefix,
                    square >= 1,
                    root >= 1,
                    1 <= pd <= pc,
            ;
        }
        let ghost old_square = square as int;
        let ghost old_root = root as int;
        square = square * pd;
        if remainder == 1 {
            proof {
                lemma_pow1(p);
                lemma_pow_increases(p as nat, 1, f.count as nat);
                assert(1 <= root * f.factor <= prefix * pc) by (nonlinear_arith)
                    requires
                        old_square * old_square * root == prefix,
                        old_square >= 1,
                        root >= 1,
                        1 <= f.factor <= pc,
                ;
                let rf = Factor { factor: f.factor, count: 1 };
                lemma_product_push(root_fs, rf);
                if i > 0 {
                    assert(fs[i - 1].factor < fs[i as int].factor);
                }
                root_fs = root_fs.push(rf);
            }
            root = root * f.factor;
        }
        proof {
            let e = division as nat;
            lemma_pow_adds(p, e, e);
            lemma_pow_adds(p, e + e, remainder as nat);
            lemma_pow0(p);
            lemma_pow1(p);
            assert(f.count == e + e + remainder);
            let pr = pow(p, remainder as nat);
            assert(root == old_root * pr);
            assert(square * square * root == prefix * pc) by (nonlinear_arith)
                requires
                    old_square * old_square * old_root == prefix,
                    square == old_square * pd,
                    root == old_root * pr,
                    pc == pd * pd * pr,
            ;
        }
        i += 1;
    }
    proof {
        assert(fs.take(fs.len() as int) =~= fs);
        lemma_square_free_part_of(fs, n as int);
    }
    (square, root)
}

/// Writes `n` as `square^2 / root` with `root` square-free: multiplying `n`
/// by `root` makes it the perfect square `square^2`.
pub fn split_square_div_root(n: u32) -> (r: (u32, u32))
    ensures
        r.0 * r.0 == n * r.1,
        r.0 <= n,
        r.1 >= 1,
        is_square_free(r.1 as int),
        n >= 1 ==> r.1 == square_free_part(n as int),
        n <= 1 ==> r.0 == n && r.1 == 1,
{
    if n == 0 || n == 1 {
        assert(is_factorization(Seq::<Factor>::empty(), 1));
        proof {
            lemma_square_free_part_of(Seq::<Factor>::empty(), 1);
        }
        assert(n * n == n * 1) by (nonlinear_arith)
            requires
                n <= 1,
        ;
        return (n, 1);
    }
    let mut square: u32 = 1;
    let mut root: u32 = 1;
    let the_factors = factors(n);
    let ghost fs = the_factors@;
    let ghost mut root_fs: Seq<Factor> = Seq::empty();
    proof {
        assert forall|k: int| 0 <= k < fs.len() implies #[trigger] fs[k].factor >= 1 by {
            assert(is_prime_spec(fs[k].factor as int));
        }
        assert(fs.take(0) =~= Seq::<Factor>::empty());
    }
    let mut i: usize = 0;
    while i < the_factors.len()
        invariant
            fs == the_factors@,
            is_factorization(fs, n as int),
            forall|k: int| 0 <= k < fs.len() ==> #[trigger] fs[k].factor >= 1,
            i <= fs.len(),
            1 <= square <= product(fs.take(i as int)),
            1 <= root <= product(fs.take(i as int)),
            square * square == product(fs.take(i as int)) * root,
            is_factorization(root_fs, root as int),
            forall|k: int| 0 <= k < root_fs.len() ==> #[trigger] root_fs[k].count == 1,
            root_fs.len() > 0 ==> i > 0 && root_fs.last().factor <= fs[i - 1].factor,
            root == odd_part(fs.take(i as int)),
        decreases fs.len() - i,
    {
        let f = the_factors[i];
        let remainder = f.count % 2;
        let division = f.count / 2;
        let ghost p = f.factor as int;
        let ghost prefix = product(fs.take(i as int));
        let ghost pc = pow(p, f.count as nat);
        let ghost old_square = square as int;
        let ghost old_root = root as int;
        proof {
            assert(is_prime_spec(p));
            lemma_prefix_step(fs, i as int);
            lemma_odd_part_step(fs, i as int);
            lemma_prefix_product(fs, i as int + 1);
            lemma_prefix_product(fs, i as int);
            lemma_pow_positive(p, f.count as nat);
            assert(pc <= prefix * pc) by (nonlinear_arith)
                requires
                    prefix >= 1,
                    pc >= 1,
            ;
            lemma_pow0(p);
            lemma_pow1(p);
        }
        if remainder == 0 {
            proof {
                lemma_pow_increases(p as nat, division as nat, f.count as nat);
                lemma_pow_positive(p, division as nat);
            }
            let pd = pow_u32(f.factor, division);
            proof {
                assert(1 <= square * pd <= prefix * pc) by (nonlinear_arith)
                    requires
                        square <= prefix,
                        square >= 1,
                        1 <= pd <= pc,
                ;
                let e = division as nat;
                lemma_pow_adds(p, e, e);
                assert(f.count == e + e);
                assert((square * pd) * (square * pd) == (prefix * pc) * root) by (nonlinear_arith)
                    requires
                        square * square == prefix * root,
                        pc == pd * pd,
                ;
                assert(root <= prefix * pc) by (nonlinear_arith)
                    requires
                        root <= prefix,
                        pc >= 1,
                        root >= 1,
                ;
            }
            square = square * pd;
        } else {
            proof {
                lemma_pow_increases(p as nat, (division + 1) as nat, f.count as nat);
                lemma_pow_positive(p, (division + 1) as nat);
                lemma_pow_increases(p as nat, 1, f.count as nat);
            }
            let pd = pow_u32(f.factor, division + 1);
            proof {
                assert(1 <= square * pd <= prefix * pc) by (nonlinear_arith)
                    requires
                        square <= prefix,
                        square >= 1,
                        1 <= pd <= pc,
                ;
                assert(1 <= root * f.factor <= prefix * pc) by (nonlinear_arith)
                    requires
                        root <= prefix,
                        root >= 1,
                        1 <= f.factor <= pc,
                ;
                let e = division as nat;
                lemma_pow_adds(p, e + 1, e + 1);
                lemma_pow_adds(p, (e + e + 1) as nat, 1);
                assert(f.count == e + e + 1);
                let pc1 = pow(p, (e + e + 1) as nat);
                assert(pc1 == pc);
                assert((square * pd) * (square * pd) == (prefix * pc) * (root * f.factor)) by (nonlinear_arith)
                    requires
                        square * square == prefix * root,
                        pd * pd == pc * p,
                        p == f.factor,
                ;
                let rf = Factor { factor: f.factor, count: 1 };
                lemma_product_push(root_fs, rf);
                if i > 0 {
                    assert(fs[i - 1].factor < fs[i as int].factor);
                }
                root_fs = root_fs.push(rf);
            }
            square = square * pd;
            root = root * f.factor;
        }
        i += 1;
    }
    proof {
        assert(fs.take(fs.len() as int) =~= fs);
        lemma_square_free_part_of(fs, n as int);
    }
    (square, root)
}

/// The square root of a non-negative rational `r`, as `s * sqrt(root)` with
/// `s` rational and `root` a square-free integer; `None` when the numerator,
/// multiplied by what makes the denominator a perfect square, leaves the `u32` range.
pub fn sqrt(r: Rational) -> (res: Option<(Rational, u32)>)
    requires
        r.wf(),
        r.numer >= 0,
    ensures
        match res {
            Some((s, root)) => {
                &&& s.wf()
                &&& s.numer >= 0
                &&& is_square_free(root as int)
                &&& s.numer * s.numer * root * r.denom == r.numer * s.denom * s.denom
                &&& r.numer * square_free_part(r.denom as int) <= u32::MAX
                &&& root == (if r.numer == 0 {
                    1
                } else {
                    square_free_part(r.numer * square_free_part(r.denom as int))
                })
            },
            None => r.numer * square_free_part(r.denom as int) > u32::MAX,
        },
{
    let numer = r.numer as u32;
    let denom = r.denom as u32;
    let (denom_square, denom_root) = split_square_div_root(denom);
    let num_norm = numer.checked_mul(denom_root);
    match num_norm {
        None => None,
        Some(nn) => {
            let (num_square, num_root) = split_square_times_root(nn);
            assert(num_square <= 65535) by (nonlinear_arith)
                requires
                    num_square * num_square * num_root == nn,
                    num_root >= 1,
                    nn <= u32::MAX,
            ;
            if num_square > (i32::MAX as u32) || denom_square > (i32::MAX as u32) {
                return None;
            }
            assert(denom_square >= 1) by (nonlinear_arith)
                requires
                    denom_square * denom_square == denom * denom_root,
                    denom >= 1,
                    denom_root >= 1,
            ;
            let s = Rational::new(num_square as i32, denom_square as i32);
            proof {
                let a = s.numer as int;
                let b = s.denom as int;
                let ns = num_square as int;
                let ds = denom_square as int;
                let nr = num_root as int;
                let dr = denom_root as int;
                let x = numer as int;
                let y = denom as int;
                assert(a >= 0) by (nonlinear_arith)
                    requires
                        a * ds == ns * b,
                        ds >= 1,
                        b >= 1,
                        ns >= 0,
                ;
                let aa = a * a;
                let bb = b * b;
                let nsq = ns * ns;
                assert(aa * (ds * ds) == nsq * bb) by (nonlinear_arith)
                    requires
                        a * ds == ns * b,
                        aa == a * a,
                        bb == b * b,
                        nsq == ns * ns,
                ;
                assert(aa * (y * dr) == nsq * bb);
                assert(aa * nr * y * dr == (nsq * nr) * bb) by (nonlinear_arith)
                    requires
                        aa * (y * dr) == nsq * bb,
                ;
                assert((nsq * nr) * bb == x * dr * bb);
                assert(a * a * nr * y * dr == x * b * b * dr) by (nonlinear_arith)
                    requires
                        aa * nr * y * dr == x * dr * bb,
                        aa == a * a,
                        bb == b * b,
                ;
                assert(a * a * nr * y == x * b * b) by (nonlinear_arith)
                    requires
                        a * a * nr * y * dr == x * b * b * dr,
                        dr >= 1,
                ;
            }
            assert(nn >= 1 <==> numer >= 1) by (nonlinear_arith)
                requires
                    nn == numer * denom_root,
                    denom_root >= 1,
            ;
            Some((s, num_root))
        },
    }
}

} // verus!
