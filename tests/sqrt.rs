use exact_roots::primes::factors;
use exact_roots::rational::Rational;
use exact_roots::sqrt::{split_square_div_root, split_square_times_root, sqrt};

#[test]
fn test_split_square_times_root() {
    assert_eq!(split_square_times_root(12), (2, 3));
}

#[test]
fn test_split_square_div_root() {
    assert_eq!(split_square_div_root(12), (6, 3));
}

#[test]
fn test_sqrt() {
    assert_eq!(sqrt(Rational::new(12, 1)), Some((Rational::new(2, 1), 3)));
    assert_eq!(sqrt(Rational::new(1, 2)), Some((Rational::new(1, 2), 2)));
    assert_eq!(sqrt(Rational::new(64, 25)), Some((Rational::new(8, 5), 1)));
}

#[test]
fn automatically_simplified() {
    let f = Rational::new(4, 6);
    assert_eq!(f.numer(), 2);
    assert_eq!(f.denom(), 3);
}

#[test]
fn big_automatically_simplified() {
    let biggest_prime: i32 = 65521;
    let n = 13 * biggest_prime;
    let d: i32 = 17 * biggest_prime;
    let r = Rational::new(n, d);
    assert_eq!(13, r.numer());
    assert_eq!(17, r.denom());
}

#[test]
fn reduction_turns_the_denominator_positive() {
    assert_eq!(Rational::new(3, -6), Rational { numer: -1, denom: 2 });
    assert_eq!(Rational::new(0, -5), Rational { numer: 0, denom: 1 });
    assert_eq!(Rational::new(7, 7), Rational { numer: 1, denom: 1 });
}

fn square_free(m: u32) -> bool {
    m == 1 || factors(m).iter().all(|f| f.count == 1)
}

#[test]
fn sqrt_round_trip() {
    let cases: [(i32, i32); 12] = [
        (0, 1), (1, 1), (12, 1), (1, 2), (64, 25), (18, 7), (50, 27), (1, 360),
        (2147483647, 1), (1000000, 3), (99, 98), (65536, 65535),
    ];
    for (n, d) in cases {
        let r = Rational::new(n, d);
        let (s, root) = sqrt(r).unwrap();
        assert!(square_free(root));
        assert!(s.numer() >= 0 && s.denom() > 0);
        let lhs = (s.numer() as i128) * (s.numer() as i128) * (root as i128) * (r.denom() as i128);
        let rhs = (r.numer() as i128) * (s.denom() as i128) * (s.denom() as i128);
        assert_eq!(lhs, rhs);
    }
}

#[test]
fn sqrt_of_zero_and_one() {
    assert_eq!(sqrt(Rational::new(0, 1)), Some((Rational::new(0, 1), 1)));
    assert_eq!(sqrt(Rational::new(1, 1)), Some((Rational::new(1, 1), 1)));
}

#[test]
fn sqrt_of_irrational_fraction() {
    // 18/7 = (3/7)^2 * 14
    assert_eq!(sqrt(Rational::new(18, 7)), Some((Rational::new(3, 7), 14)));
}

#[test]
fn sqrt_overflow_gives_none() {
    // making the denominator 3 a square multiplies the numerator by 3
    assert_eq!(sqrt(Rational::new(i32::MAX, 3)), None);
}

#[test]
fn split_helpers_on_edges() {
    assert_eq!(split_square_times_root(0), (0, 1));
    assert_eq!(split_square_times_root(1), (1, 1));
    assert_eq!(split_square_div_root(0), (0, 1));
    assert_eq!(split_square_div_root(1), (1, 1));
    assert_eq!(split_square_times_root(4294836225), (65535, 1));
    assert_eq!(split_square_div_root(18), (6, 2));
    assert_eq!(split_square_times_root(18), (3, 2));
}
