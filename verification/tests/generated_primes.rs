//! The bulk generation workloads: every strategy over a large bound, and the
//! Baillie-PSW oracle checked against a generated prime list.

use prime_number_utils::{
    baillie_psw, BitwiseSieve, GenPrime, SegmentedSieve, SieveOfAtkin, SieveOfEratosthenes,
    SieveOfSundaram,
};

#[test]
fn test_sieve_of_eratosthenes() {
    let mut sieve_of_eratosthenes = SieveOfEratosthenes::new();
    assert_eq!(
        sieve_of_eratosthenes.gen_range(0..1_000_000_000).len(),
        50_847_534
    );
}

#[test]
fn sieve_of_sundaram_large_bound() {
    let mut sieve_of_sundaram = SieveOfSundaram::new();
    assert_eq!(sieve_of_sundaram.gen_range(0..100_000_000).len(), 5_761_455);
}

#[test]
fn sieve_of_atkin_large_bound() {
    let mut sieve_of_atkin = SieveOfAtkin::new();
    assert_eq!(sieve_of_atkin.gen_range(0..100_000_000).len(), 5_761_455);
}

#[test]
fn test_bitwise_sieve() {
    let mut bitwise_sieve = BitwiseSieve::new();
    assert_eq!(bitwise_sieve.gen_range(0..1_000_000_000).len(), 50_847_534);
}

#[test]
fn test_segmented_sieve() {
    assert_eq!(
        SegmentedSieve::new().gen_range(0..1_000_000_000).len(),
        50_847_534
    );
}

#[test]
fn test_baillie_psw() {
    let mut sieve_of_eratosthenes = SieveOfEratosthenes::new();
    for i in sieve_of_eratosthenes.gen_range(0..100_000_000) {
        assert_eq!(baillie_psw(i), true);
    }
}
