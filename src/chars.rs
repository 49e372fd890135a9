//! Building strings from characters.

use vstd::prelude::*;

verus! {

/// Relies on `String`'s `FromIterator<&char>` from std: the characters of
/// `v` in order.
#[verifier::external_body]
pub(crate) fn string_of(v: &Vec<char>) -> (r: String)
    ensures
        r@ == v@,
{
    v.iter().collect()
}

} // verus!
