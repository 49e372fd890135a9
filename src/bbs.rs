//! The Blum–Blum–Shub pseudo-random bit generator: the least significant
//! bits of repeated squares modulo a product of two primes congruent to 3
//! modulo 4.

use vstd::prelude::*;
use rand::rngs::StdRng;
use bitvec::order::Msb0;
use bitvec::vec::BitVec;
use crate::entropy;
use crate::modulo::{gcd, greatest_common_divisor};
use crate::natural::{Natural, power};
use crate::primes;

verus! {

/// Bits the primes of the modulus other than the requested one have.
pub const SECOND_PRIME_BITS: usize = 1024;

/// The largest length of a bit-vector.
pub const MAX_BITS: usize = usize::MAX >> 3;

/// A bit-vector of `bitvec`, most significant bit first in each byte.
#[verifier::external_body]
pub struct Bits {
    bits: BitVec<u8, Msb0>,
}

/// The bits a `Bits` holds, in order.
pub uninterp spec fn bits_of(v: Bits) -> Seq<bool>;

/// Relies on `BitVec::with_capacity` of `bitvec`: an empty bit-vector. It
/// panics when the capacity exceeds `BitSlice::MAX_BITS`, `usize::MAX >> 3`.
#[verifier::external_body]
fn empty_bits(capacity: usize) -> (r: Bits)
    requires
        capacity <= MAX_BITS,
    ensures
        bits_of(r) == Seq::<bool>::empty(),
{
    Bits { bits: BitVec::with_capacity(capacity) }
}

/// Relies on `BitVec::push` of `bitvec`: appends one bit. It panics when the
/// length would exceed `BitSlice::MAX_BITS`, `usize::MAX >> 3`.
#[verifier::external_body]
fn push_bit(v: &mut Bits, bit: bool)
    requires
        bits_of(*old(v)).len() < MAX_BITS,
    ensures
        bits_of(*final(v)) == bits_of(*old(v)).push(bit),
{
    v.bits.push(bit)
}

/// Relies on `BitVec::len` of `bitvec`: the number of bits.
#[verifier::external_body]
fn bit_count(v: &Bits) -> (r: usize)
    ensures
        r == bits_of(*v).len(),
{
    v.bits.len()
}

/// Relies on indexing a `BitSlice` of `bitvec`: bit `i`, which panics when
/// out of bounds.
#[verifier::external_body]
fn bit_at(v: &Bits, i: usize) -> (r: bool)
    requires
        i < bits_of(*v).len(),
    ensures
        r == bits_of(*v)[i as int],
{
    v.bits[i]
}

impl Bits {
    /// The bits in order.
    pub fn to_bools(&self) -> (r: Vec<bool>)
        ensures
            r@ == bits_of(*self),
    {
        let n = bit_count(self);
        let mut out: Vec<bool> = Vec::new();
        let mut i: usize = 0;
        while i < n
            invariant
                n == bits_of(*self).len(),
                i <= n,
                out@ == bits_of(*self).take(i as int),
            decreases n - i,
        {
            out.push(bit_at(self, i));
            i = i + 1;
            proof {
                assert(out@ =~= bits_of(*self).take(i as int));
            }
        }
        proof {
            assert(out@ =~= bits_of(*self));
        }
        out
    }
}

/// Bit `i` of the output for modulus `n` and seed `x`: the lowest bit of
/// `x^(2^(i+1)) mod n`.
pub open spec fn output_bit(x: nat, n: nat, i: nat) -> bool {
    (power(x, power(2, i + 1)) % n) % 2 == 1
}

/// A prime of `length` bits congruent to 3 modulo 4.
fn blum_prime(rng: &mut StdRng, length: usize) -> (r: Option<Natural>)
    requires
        length >= 2,
    ensures
        r matches Some(p) ==> p.wf() && p.value() % 4 == 3 && p.value() > 0,
{
    let four = Natural::from_u64(4);
    let three = Natural::from_u64(3);
    let mut attempts: u64 = 0;
    while attempts < u64::MAX
        invariant
            length >= 2,
            four.value() == 4,
            three.value() == 3,
        decreases u64::MAX - attempts,
    {
        match primes::generate(rng, length) {
            Some(p) => {
                let (_, rest) = p.div_rem(&four);
                if rest.equals(&three) {
                    return Some(p);
                }
            },
            None => return None,
        }
        attempts = attempts + 1;
    }
    None
}

/// Draws numbers from `[0, max)` until one is coprime to `max`.
fn coprime(rng: &mut StdRng, max: &Natural) -> (r: Option<Natural>)
    requires
        max.wf(),
        max.value() > 0,
    ensures
        r matches Some(x) ==> x.wf() && x.value() < max.value() && gcd(max.value(), x.value()) == 1,
{
    let one = Natural::from_u64(1);
    let mut attempts: u64 = 0;
    while attempts < u64::MAX
        invariant
            max.wf(),
            max.value() > 0,
            one.value() == 1,
        decreases u64::MAX - attempts,
    {
        let x = Natural::random_below(rng, max);
        if greatest_common_divisor(max, &x).equals(&one) {
            return Some(x);
        }
        attempts = attempts + 1;
    }
    None
}

/// `length` bits of the generator, from a modulus `p·q` with `p` of
/// `prime_length` bits and `q` of `second_prime_length` bits, both
/// congruent to 3 modulo 4, and a random seed coprime to the modulus. Gives
/// up, with `None`, only when a random search runs out of draws.
pub fn bbs_with(rng: &mut StdRng, length: usize, prime_length: usize, second_prime_length: usize)
    -> (r: Option<Bits>)
    requires
        prime_length >= 2,
        second_prime_length >= 2,
        length <= MAX_BITS,
    ensures
        r matches Some(bits) ==> {
            &&& bits_of(bits).len() == length
            &&& exists|x: nat, n: nat| n > 0 && gcd(n, x) == 1 && forall|i: int| 0 <= i < length ==> #[trigger] bits_of(bits)[i]
                == output_bit(x, n, i as nat)
        },
{
    let p = match blum_prime(rng, prime_length) {
        Some(p) => p,
        None => return None,
    };
    let q = match blum_prime(rng, second_prime_length) {
        Some(q) => q,
        None => return None,
    };
    let n = p.times(&q);
    proof {
        assert(n.value() > 0) by (nonlinear_arith)
            requires
                p.value() > 0,
                q.value() > 0,
                n.value() == p.value() * q.value(),
        ;
    }
    let x = match coprime(rng, &n) {
        Some(x) => x,
        None => return None,
    };
    let two = Natural::from_u64(2);
    let mut current = x.mod_pow(&two, &n);
    let mut out = empty_bits(length);
    let mut i: usize = 0;
    proof {
        crate::natural::lemma_power_small(2);
    }
    while i < length
        invariant
            n.wf(),
            n.value() > 0,
            two.value() == 2,
            i <= length,
            length <= MAX_BITS,
            bits_of(out).len() == i,
            current.value() == power(x.value(), power(2, (i + 1) as nat)) % n.value(),
            forall|j: int| 0 <= j < i ==> #[trigger] bits_of(out)[j] == output_bit(x.value(), n.value(), j as nat),
        decreases length - i,
    {
        let next = current.mod_pow(&two, &n);
        push_bit(&mut out, current.is_odd());
        proof {
            let k = power(2, (i + 1) as nat);
            crate::number_theory::lemma_power_mod_base(power(x.value(), k), 2, n.value());
            crate::number_theory::lemma_power_multiplies(x.value(), k, 2);
            crate::natural::lemma_power_adds(2, (i + 1) as nat, 1);
            crate::natural::lemma_power_small(2);
            assert(k * 2 == power(2, (i + 2) as nat));
        }
        current = next;
        i = i + 1;
    }
    Some(out)
}

/// `length` bits of the generator, with a second prime of
/// `SECOND_PRIME_BITS` bits, drawing primes and seed from a generator seeded
/// by the operating system.
pub fn bbs(length: usize, prime_length: usize) -> (r: Option<Bits>)
    requires
        prime_length >= 2,
        length <= MAX_BITS,
    ensures
        r matches Some(bits) ==> {
            &&& bits_of(bits).len() == length
            &&& exists|x: nat, n: nat| n > 0 && gcd(n, x) == 1 && forall|i: int| 0 <= i < length ==> #[trigger] bits_of(bits)[i]
                == output_bit(x, n, i as nat)
        },
{
    let mut rng = entropy::from_entropy();
    bbs_with(&mut rng, length, prime_length, SECOND_PRIME_BITS)
}

} // verus!
