//! The interface of a hash function that renders its digest as text.

use vstd::prelude::*;

verus! {

/// A hash function whose digest is rendered as text.
pub trait HashGenerator {
    /// The digest of `message` in binary digits.
    fn generate(&mut self, message: &[u8]) -> String;

    /// The digest of `message` in hexadecimal digits.
    fn generate_hex(&mut self, message: &[u8]) -> String;

    /// The name of the hash function.
    fn name(&self) -> &'static str;
}

} // verus!
