use vstd::prelude::*;

verus! {

/// No integer above 1 divides both `a` and `b`.
pub open spec fn coprime(a: int, b: int) -> bool {
    forall|d: int| d > 1 ==> !(#[trigger] (a % d) == 0 && #[trigger] (b % d) == 0)
}

/// A fraction of 32-bit integers.
#[derive(Debug, Clone, Copy, PartialEq, Eq, Structural)]
pub struct Rational {
    pub numer: i32,
    pub denom: i32,
}

/// Relies on num_rational::Ratio::<i32>::new, which divides both parts by
/// their greatest common divisor and then turns the denominator positive.
/// It panics on a zero denominator; the two `i32::MIN` exclusions keep its
/// gcd and negation inside the `i32` range.
#[verifier::external_body]
fn reduce(numer: i32, denom: i32) -> (r: (i32, i32))
    requires
        denom != 0,
        numer != i32::MIN,
        denom != i32::MIN,
    ensures
        r.1 > 0,
        r.0 * denom == numer * r.1,
        coprime(r.0 as int, r.1 as int),
{
    let q = num_rational::Rational32::new(numer, denom);
    (*q.numer(), *q.denom())
}

impl Rational {
    /// In lowest terms, with a positive denominator.
    pub open spec fn wf(&self) -> bool {
        self.denom > 0 && coprime(self.numer as int, self.denom as int)
    }

    /// The fraction `numer / denom` in lowest terms.
    pub fn new(numer: i32, denom: i32) -> (r: Rational)
        requires
            denom != 0,
            numer != i32::MIN,
            denom != i32::MIN,
        ensures
            r.wf(),
            r.numer * denom == numer * r.denom,
    {
        let (n, d) = reduce(numer, denom);
        Rational { numer: n, denom: d }
    }

    pub fn numer(&self) -> (r: i32)
        ensures
            r == self.numer,
    {
        self.numer
    }

    pub fn denom(&self) -> (r: i32)
        ensures
            r == self.denom,
    {
        self.denom
    }
}

} // verus!
