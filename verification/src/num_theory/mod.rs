//! Number theory on machine integers.

pub mod gcd;
pub mod prime;
pub mod sieve;

pub use gcd::{ext_gcd, gcd};
pub use prime::is_prime;
pub use sieve::eratosthenes::SieveEratosthenes;
