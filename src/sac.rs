//! The strict avalanche criterion: flipping the top bit of a message should
//! change about half of the characters of its hash.

use vstd::prelude::*;
use vstd::string::StringSliceAdditionalSpecFns;
use crate::traits::HashGenerator;

verus! {

/// The number of positions `i < k` at which `x` and `y` differ.
pub open spec fn differences_below(x: Seq<u8>, y: Seq<u8>, k: int) -> nat
    decreases k,
{
    if k <= 0 {
        0
    } else {
        differences_below(x, y, k - 1) + if x[k - 1] != y[k - 1] { 1nat } else { 0nat }
    }
}

/// A ratio `changes / len` strictly between 0.48 and 0.52.
pub open spec fn balanced(changes: nat, len: nat) -> bool {
    48 * len < 100 * changes && 100 * changes < 52 * len
}

/// `message` with the most significant bit of its first byte flipped.
pub fn flip_first_bit(message: &[u8]) -> (r: Vec<u8>)
    requires
        message@.len() > 0,
    ensures
        r@.len() == message@.len(),
        r@[0] == message@[0] ^ 0x80u8,
        forall|i: int| 1 <= i < r@.len() ==> r@[i] == message@[i],
{
    let mut out: Vec<u8> = Vec::new();
    out.push(message[0] ^ 0x80);
    let mut i: usize = 1;
    while i < message.len()
        invariant
            1 <= i <= message@.len(),
            out@.len() == i,
            out@[0] == message@[0] ^ 0x80u8,
            forall|k: int| 1 <= k < i ==> out@[k] == message@[k],
        decreases message@.len() - i,
    {
        out.push(message[i]);
        i = i + 1;
    }
    out
}

/// The number of positions, up to the shorter length, at which the bytes
/// of `x` and `y` differ.
pub fn count_differences(x: &[u8], y: &[u8]) -> (r: usize)
    ensures
        r == differences_below(x@, y@, if x@.len() < y@.len() { x@.len() as int } else { y@.len() as int }),
{
    let n = if x.len() < y.len() { x.len() } else { y.len() };
    let mut count: usize = 0;
    let mut i: usize = 0;
    while i < n
        invariant
            n <= x@.len(),
            n <= y@.len(),
            i <= n,
            count == differences_below(x@, y@, i as int),
            count <= i,
        decreases n - i,
    {
        if x[i] != y[i] {
            count = count + 1;
        }
        i = i + 1;
    }
    count
}

/// Whether `changes` out of `len` lies strictly between 48% and 52%.
pub fn is_balanced(changes: usize, len: usize) -> (r: bool)
    ensures
        r == balanced(changes as nat, len as nat),
{
    (48 * len as u128) < 100 * changes as u128 && (100 * changes as u128) < 52 * len as u128
}

/// The hash `y` differs from the hash `x` in a balanced share of the
/// characters of `x`.
pub open spec fn pair_balanced(x: Seq<u8>, y: Seq<u8>) -> bool {
    balanced(differences_below(x, y, if x.len() < y.len() { x.len() as int } else { y.len() as int }), x.len())
}

/// How many of the hash pairs are balanced.
pub open spec fn balanced_count(pairs: Seq<(Seq<u8>, Seq<u8>)>) -> nat
    decreases pairs.len(),
{
    if pairs.len() == 0 {
        0
    } else {
        balanced_count(pairs.drop_last()) + if pair_balanced(pairs.last().0, pairs.last().1) {
            1nat
        } else {
            0nat
        }
    }
}

/// Whether the hash `y` differs from the hash `x` in a balanced share of the
/// characters of `x`.
pub fn hashes_balanced(x: &[u8], y: &[u8]) -> (r: bool)
    ensures
        r == pair_balanced(x@, y@),
{
    is_balanced(count_differences(x, y), x.len())
}

/// Hashes each message of `dataset` and the message with its top bit
/// flipped, and counts the messages whose two hashes are balanced; returns
/// that count and the number of messages. Every message must be non-empty.
pub fn sac_counts<G: HashGenerator>(generator: &mut G, dataset: &[&str]) -> (r: (usize, usize))
    requires
        forall|k: int| 0 <= k < dataset@.len() ==> (#[trigger] dataset@[k]).spec_bytes().len() > 0,
    ensures
        r.1 == dataset@.len(),
        exists|pairs: Seq<(Seq<u8>, Seq<u8>)>| pairs.len() == dataset@.len() && r.0 == balanced_count(pairs),
{
    let mut passed: usize = 0;
    let mut k: usize = 0;
    let ghost mut pairs: Seq<(Seq<u8>, Seq<u8>)> = seq![];
    while k < dataset.len()
        invariant
            k <= dataset@.len(),
            pairs.len() == k,
            passed == balanced_count(pairs),
            passed <= k,
            forall|j: int| 0 <= j < dataset@.len() ==> (#[trigger] dataset@[j]).spec_bytes().len() > 0,
        decreases dataset@.len() - k,
    {
        let message = dataset[k].as_bytes();
        let plain_hash = generator.generate(message);
        let flipped = flip_first_bit(message);
        let modified = generator.generate(flipped.as_slice());
        let x = plain_hash.as_str().as_bytes();
        let y = modified.as_str().as_bytes();
        let ghost before = pairs;
        proof {
            pairs = pairs.push((x@, y@));
            assert(pairs.drop_last() =~= before);
        }
        if hashes_balanced(x, y) {
            passed = passed + 1;
        }
        k = k + 1;
    }
    (passed, dataset.len())
}

} // verus!
