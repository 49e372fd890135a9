//! Modular arithmetic, probabilistic primality testing and RSA, with the
//! classical ciphers, secret sharing, key exchange, hash tools and
//! randomness checks built on the same primitives.

mod chars;
mod entropy;

pub mod natural;
pub mod number_theory;
pub mod modulo;
pub mod primes;
pub mod rsa;

pub mod bbs;
pub mod bit_test;
pub mod collisions;
pub mod dh;
pub mod hashes;
pub mod playfair;
pub mod sac;
pub mod shares;
pub mod tests;
pub mod traits;
