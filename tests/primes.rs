use exact_roots::isqrt::sqrt_floor;
use exact_roots::primes::{factors, is_prime, Factor, PrimeTable};
use exact_roots::sieve::get_primes;

#[test]
fn test_we_do_not_have_reduced_primes_array() {
    let prime_outside_reduced_primes_vector: u32 = 29;
    let n = prime_outside_reduced_primes_vector * prime_outside_reduced_primes_vector;
    assert_eq!(841, n);
    assert!(!is_prime(n));
}

#[test]
fn factors_two() {
    assert_eq!(vec![Factor { factor: 2, count: 1 }], factors(2));
}

#[test]
fn factors_three() {
    assert_eq!(vec![Factor { factor: 3, count: 1 }], factors(3));
}

#[test]
fn factors_four() {
    assert_eq!(vec![Factor { factor: 2, count: 2 }], factors(4));
}

#[test]
fn test_two_different_factors_finish_remainder_one() {
    assert_eq!(
        vec![Factor { factor: 2, count: 1 }, Factor { factor: 3, count: 1 }],
        factors(6)
    );
}

#[test]
fn test_remaining_factor_added() {
    assert_eq!(
        vec![Factor { factor: 3, count: 2 }, Factor { factor: 11, count: 1 }],
        factors(99)
    );
}

#[test]
fn factors_twelve() {
    assert_eq!(
        vec![Factor { factor: 2, count: 2 }, Factor { factor: 3, count: 1 }],
        factors(12)
    );
}

#[test]
fn test_stored_prime_index() {
    let table = PrimeTable::new(25);
    assert_eq!(table.stored_prime_index(2), Option::from(0));
    assert_eq!(table.stored_prime_index(7), Option::from(3));
    assert_eq!(table.stored_prime_index(11), Option::from(4));
    assert_eq!(table.stored_prime_index(19), Option::from(7));
    assert_eq!(table.stored_prime_index(23), Option::from(8));
    assert_eq!(table.stored_prime_index(4), Option::None);
    assert_eq!(table.stored_prime_index(6), Option::None);
    assert_eq!(table.stored_prime_index(20), Option::None);
    assert_eq!(table.stored_prime_index(22), Option::None);
    assert_eq!(table.stored_prime_index(24), Option::None);
}

#[test]
fn test_is_prime() {
    let table = PrimeTable::new(25);
    // These can be searched in the table
    assert!(table.is_prime(2));
    assert!(!table.is_prime(4));
    // These must be examined by dividing by prime numbers
    assert!(table.is_prime(29));
    assert!(!table.is_prime(30));
}

fn naive_is_prime(n: u32) -> bool {
    if n < 2 {
        return false;
    }
    let mut d: u32 = 2;
    while (d as u64) * (d as u64) <= n as u64 {
        if n % d == 0 {
            return false;
        }
        d += 1;
    }
    true
}

#[test]
fn factorization_rebuilds_every_number_up_to_ten_thousand() {
    let table = PrimeTable::full();
    for n in 2u32..=10000 {
        let fs = table.factors(n);
        let mut product: u64 = 1;
        for (i, f) in fs.iter().enumerate() {
            assert!(f.count >= 1);
            assert!(naive_is_prime(f.factor));
            if i > 0 {
                assert!(fs[i - 1].factor < f.factor);
            }
            product *= (f.factor as u64).pow(f.count);
        }
        assert_eq!(product, n as u64);
    }
}

#[test]
fn prime_exactly_when_single_factor() {
    let table = PrimeTable::full();
    for n in 2u32..=3000 {
        let fs = table.factors(n);
        let single = fs.len() == 1 && fs[0].count == 1;
        assert_eq!(table.is_prime(n), single);
    }
    for n in [4294967291u32, 4294967295, 65537, 65536, 4294836225] {
        let fs = table.factors(n);
        let single = fs.len() == 1 && fs[0].count == 1;
        assert_eq!(table.is_prime(n), single);
    }
}

#[test]
fn sqrt_floor_brackets_the_root() {
    for v in [0u32, 1, 2, 3, 4, 5, 8, 9, 10, 15, 16, 17, 99, 100, 65535, 65536, 4294836224, 4294836225, u32::MAX] {
        let r = sqrt_floor(v) as u64;
        assert!(r * r <= v as u64);
        assert!((v as u64) < (r + 1) * (r + 1));
    }
    assert_eq!(sqrt_floor(0), 0);
    assert_eq!(sqrt_floor(1), 1);
    assert_eq!(sqrt_floor(15), 3);
    assert_eq!(sqrt_floor(16), 4);
    assert_eq!(sqrt_floor(4294836225), 65535);
}

#[test]
fn sqrt_floor_of_largest_u32() {
    assert_eq!(sqrt_floor(u32::MAX), 65535);
}

#[test]
fn primes_up_to_twenty_five() {
    assert_eq!(get_primes(25), vec![2, 3, 5, 7, 11, 13, 17, 19, 23]);
}

#[test]
fn no_primes_below_two() {
    assert_eq!(get_primes(0), Vec::<u32>::new());
    assert_eq!(get_primes(1), Vec::<u32>::new());
    assert_eq!(get_primes(2), vec![2]);
}

#[test]
fn sieve_matches_trial_division() {
    let primes = get_primes(5000);
    let expected: Vec<u32> = (0u32..=5000).filter(|n| naive_is_prime(*n)).collect();
    assert_eq!(primes, expected);
}

#[test]
fn full_table_ends_at_largest_stored_prime() {
    let table = PrimeTable::full();
    assert_eq!(table.primes.len(), 6542);
    assert_eq!(*table.primes.last().unwrap(), 65521);
    assert_eq!(table.stored_prime_index(65521), Some(6541));
    assert_eq!(table.stored_prime_index(65522), None);
    assert_eq!(table.stored_prime_index(1), None);
    assert_eq!(table.stored_prime_index(0), None);
}

#[test]
fn is_prime_at_the_table_edges() {
    assert!(is_prime(65521));
    assert!(!is_prime(65535));
    assert!(is_prime(65537));
    assert!(!is_prime(65537 * 3));
    assert!(is_prime(4294967291));
    assert!(!is_prime(u32::MAX));
    assert!(!is_prime(0));
    assert!(!is_prime(1));
    assert!(is_prime(2));
    assert!(is_prime(29));
    assert!(!is_prime(30));
}

#[test]
fn factors_of_large_numbers() {
    assert_eq!(
        factors(u32::MAX),
        vec![
            Factor { factor: 3, count: 1 },
            Factor { factor: 5, count: 1 },
            Factor { factor: 17, count: 1 },
            Factor { factor: 257, count: 1 },
            Factor { factor: 65537, count: 1 },
        ]
    );
    assert_eq!(factors(4294967291), vec![Factor { factor: 4294967291, count: 1 }]);
    assert_eq!(factors(1 << 31), vec![Factor { factor: 2, count: 31 }]);
    assert_eq!(factors(4294836225), vec![
        Factor { factor: 3, count: 2 },
        Factor { factor: 5, count: 2 },
        Factor { factor: 17, count: 2 },
        Factor { factor: 257, count: 2 },
    ]);
}
