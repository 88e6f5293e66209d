//! Scenario tests: boundary behaviour, cross-strategy agreement, the
//! round trip between the sieves and the single-number oracle, the
//! factorisation laws, and the Mersenne exponent list.

use prime_number_utils::{
    baillie_psw, isqrt64f, isqrt64i, jacobi_symbol, lucas_lehmer, pascals_triangle, BitwiseSieve,
    GenPrime, LinearSieve, SegmentedSieve, SieveOfAtkin, SieveOfEratosthenes, SieveOfSundaram,
};

#[test]
fn test_pascals_triangle() {
    assert_eq!(
        pascals_triangle(6),
        vec![1, 1, 1, 1, 2, 1, 1, 3, 3, 1, 1, 4, 6, 4, 1, 1, 5, 10, 10, 5, 1]
    );
}

#[test]
fn test_lucas_lehmer() {
    let mut mersenne_primes = vec![];
    for i in 0..1000 {
        if lucas_lehmer(i).unwrap() {
            mersenne_primes.push(i);
        }
    }
    assert_eq!(
        mersenne_primes,
        vec![2, 3, 5, 7, 13, 17, 19, 31, 61, 89, 107, 127, 521, 607]
    );
}

#[test]
fn baillie_psw_boundaries() {
    assert_eq!(baillie_psw(0), false);
    assert_eq!(baillie_psw(1), false);
    assert_eq!(baillie_psw(2), true);
    assert_eq!(baillie_psw(3), true);
    assert_eq!(baillie_psw(4), false);
    assert_eq!(baillie_psw(233_419_328), false);
    assert_eq!(baillie_psw(198_491_317), true);
    // A strong pseudoprime to base 2 must still be rejected.
    assert_eq!(baillie_psw(2047), false);
    assert_eq!(baillie_psw(3215031751), false);
}

#[test]
fn sieve_boundaries() {
    let mut s = SieveOfEratosthenes::new();
    assert_eq!(s.gen_range(0..0), Vec::<usize>::new());
    assert_eq!(s.gen_range(10..2), Vec::<usize>::new());
    assert_eq!(s.gen_range(0..2), Vec::<usize>::new());
    assert_eq!(s.gen_range(0..3), vec![2]);
    assert_eq!(s.gen_range(0..20), vec![2, 3, 5, 7, 11, 13, 17, 19]);
    assert_eq!(s.gen_range(10..30), vec![11, 13, 17, 19, 23, 29]);
    let mut b = BitwiseSieve::new();
    assert_eq!(b.gen_range(0..10), vec![2, 3, 5, 7]);
    let mut d = SieveOfSundaram::new();
    assert_eq!(d.gen_range(0..10), vec![2, 3, 5, 7]);
    let mut g = SegmentedSieve::new();
    assert_eq!(g.gen_range(0..10), vec![2, 3, 5, 7]);
    let mut l = LinearSieve::new();
    assert_eq!(l.gen_range(0..10), vec![2, 3, 5, 7]);
    let mut a = SieveOfAtkin::new();
    assert_eq!(a.gen_range(0..10), vec![2, 3, 5, 7]);
}

#[test]
fn cross_strategy_agreement() {
    for bound in [0usize, 1, 2, 3, 4, 5, 100, 1000, 65537, 100_000] {
        let reference = SieveOfEratosthenes::new().gen_range(0..bound);
        assert_eq!(SieveOfSundaram::new().gen_range(0..bound), reference);
        assert_eq!(BitwiseSieve::new().gen_range(0..bound), reference);
        assert_eq!(SegmentedSieve::new().gen_range(0..bound), reference);
        assert_eq!(LinearSieve::new().gen_range(0..bound), reference);
        assert_eq!(SieveOfAtkin::new().gen_range(0..bound), reference);
    }
}

#[test]
fn repeated_calls_are_identical() {
    let mut s = SieveOfEratosthenes::new();
    let first = s.gen_range(0..10_000);
    let second = s.gen_range(0..10_000);
    assert_eq!(first, second);
    assert_eq!(baillie_psw(10_007), baillie_psw(10_007));
    assert_eq!(
        LinearSieve::prime_factorization(360),
        LinearSieve::prime_factorization(360)
    );
}

#[test]
fn oracle_round_trip() {
    // Every prime from the sieve passes the oracle; every composite fails it.
    let bound: usize = 200_000;
    let primes = BitwiseSieve::new().gen_range(0..bound);
    let mut next: usize = 0;
    for n in 0..bound {
        let in_list = next < primes.len() && primes[next] == n;
        assert_eq!(baillie_psw(n), in_list);
        if in_list {
            next += 1;
        }
    }
    assert_eq!(next, primes.len());
}

#[test]
fn factorization_laws() {
    assert_eq!(LinearSieve::prime_factorization(0), Vec::<usize>::new());
    assert_eq!(LinearSieve::prime_factorization(1), Vec::<usize>::new());
    assert_eq!(LinearSieve::prime_factorization(48), vec![2, 2, 2, 2, 3]);
    assert_eq!(LinearSieve::prime_factorization(97), vec![97]);
    assert_eq!(LinearSieve::prime_factorization(360), vec![2, 2, 2, 3, 3, 5]);
    for n in 2usize..2000 {
        let factors = LinearSieve::prime_factorization(n);
        let product: usize = factors.iter().product();
        assert_eq!(product, n);
        for w in factors.windows(2) {
            assert!(w[0] <= w[1]);
        }
        for f in &factors {
            assert!(baillie_psw(*f));
        }
        if baillie_psw(n) {
            assert_eq!(factors, vec![n]);
        }
    }
}

#[test]
fn smallest_prime_factor_table() {
    let mut linear_sieve = LinearSieve::new();
    linear_sieve.gen_range(0..10);
    assert_eq!(
        linear_sieve.smallest_prime_factors(),
        &mut vec![0, 0, 2, 3, 2, 5, 2, 7, 2, 3]
    );
}

#[test]
fn jacobi_symbol_values() {
    // Zero exactly on shared factors.
    assert_eq!(jacobi_symbol(6, 9), 0);
    assert_eq!(jacobi_symbol(12, 9), 0);
    assert_eq!(jacobi_symbol(0, 9), 0);
    assert_eq!(jacobi_symbol(0, 1), 1);
    assert_eq!(jacobi_symbol(1, 9), 1);
    assert_eq!(jacobi_symbol(2, 3), -1);
    assert_eq!(jacobi_symbol(2, 7), 1);
    assert_eq!(jacobi_symbol(5, 21), 1);
    assert_eq!(jacobi_symbol(8, 21), -1);
    assert_eq!(jacobi_symbol(-1, 3), -1);
    assert_eq!(jacobi_symbol(-1, 5), 1);
    assert_eq!(jacobi_symbol(-7, 5), -1);
}

#[test]
fn isqrt_values() {
    assert_eq!(isqrt64f(0), (0, 0));
    assert_eq!(isqrt64f(1), (1, 0));
    assert_eq!(isqrt64f(2), (1, 1));
    assert_eq!(isqrt64f(3), (1, 2));
    assert_eq!(isqrt64f(4), (2, 0));
    assert_eq!(isqrt64f(122), (11, 1));
    assert_eq!(isqrt64f(144), (12, 0));
    assert_eq!(isqrt64i(u64::MAX), (4294967295, 8589934590));
    for v in 0u64..5000 {
        let (root, rem) = isqrt64i(v);
        assert_eq!(root * root + rem, v);
        assert!(root * root <= v);
        assert!((root + 1) * (root + 1) > v);
    }
}

#[test]
fn pascals_triangle_shapes() {
    assert_eq!(pascals_triangle(0), vec![1]);
    assert_eq!(pascals_triangle(1), vec![1]);
    assert_eq!(pascals_triangle(2), vec![1, 1, 1]);
    assert_eq!(pascals_triangle(3), vec![1, 1, 1, 1, 2, 1]);
}

#[test]
fn mersenne_filter_rejects_composite_exponents() {
    assert_eq!(lucas_lehmer(0), Some(false));
    assert_eq!(lucas_lehmer(1), Some(false));
    assert_eq!(lucas_lehmer(2), Some(true));
    assert_eq!(lucas_lehmer(11), Some(false));
    assert_eq!(lucas_lehmer(13), Some(true));
    assert_eq!(lucas_lehmer(15), Some(false));
}
