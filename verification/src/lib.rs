//! Prime-number utilities: a Baillie-PSW primality oracle built on Montgomery
//! modular arithmetic, a Lucas-Lehmer test for Mersenne numbers, and a family
//! of interchangeable prime sieves sharing one generation contract.

pub mod primes;
pub mod montgomery;
pub mod isqrt;
pub mod jacobi;
pub mod baillie_psw;
pub mod gen_prime;
pub mod sieve_of_eratosthenes;
pub mod sieve_of_sundaram;
pub mod bitwise_sieve;
pub mod segmented_sieve;
pub mod linear_sieve;
pub mod sieve_of_atkin;
pub mod bigint;
pub mod number_utils;

pub use crate::primes::is_prime;
pub use crate::baillie_psw::baillie_psw;
pub use crate::bigint::lucas_lehmer;
pub use crate::gen_prime::GenPrime;
pub use crate::isqrt::{isqrt64f, isqrt64i};
pub use crate::jacobi::jacobi_symbol;
pub use crate::sieve_of_eratosthenes::SieveOfEratosthenes;
pub use crate::sieve_of_sundaram::SieveOfSundaram;
pub use crate::bitwise_sieve::BitwiseSieve;
pub use crate::segmented_sieve::SegmentedSieve;
pub use crate::linear_sieve::LinearSieve;
pub use crate::sieve_of_atkin::SieveOfAtkin;
pub use crate::number_utils::pascals_triangle;
