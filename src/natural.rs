//! Arbitrary-precision natural numbers, stored as little-endian base-256
//! digits and computed on by `ibig`.

use vstd::prelude::*;
use ibig::modular::ModuloRing;
use ibig::ops::DivRem;
use ibig::UBig;
use rand::rngs::StdRng;
use rand::Rng;

verus! {

/// `b` raised to the power `e`.
pub open spec fn power(b: nat, e: nat) -> nat
    decreases e,
{
    if e == 0 {
        1
    } else {
        b * power(b, (e - 1) as nat)
    }
}

/// The number written by little-endian base-256 digits.
pub open spec fn le_value(s: Seq<u8>) -> nat
    decreases s.len(),
{
    if s.len() == 0 {
        0
    } else {
        s[0] as nat + 256 * le_value(s.drop_first())
    }
}

/// A digit string with no most significant zero digit.
pub open spec fn is_canonical(s: Seq<u8>) -> bool {
    s.len() == 0 || s.last() != 0
}

/// The shortest little-endian digit string of `v` (empty for zero).
pub open spec fn to_le_min(v: nat) -> Seq<u8>
    decreases v,
{
    if v == 0 {
        seq![]
    } else {
        seq![(v % 256) as u8] + to_le_min(v / 256)
    }
}

/// The little-endian digit string of `v` with exactly `w` digits
/// (the low `w` digits when `v` does not fit).
pub open spec fn to_le_fixed(v: nat, w: nat) -> Seq<u8>
    decreases w,
{
    if w == 0 {
        seq![]
    } else {
        seq![(v % 256) as u8] + to_le_fixed(v / 256, (w - 1) as nat)
    }
}

/// Number of significant bits of `v`.
pub open spec fn bit_length(v: nat) -> nat
    decreases v,
{
    if v == 0 {
        0
    } else {
        1 + bit_length(v / 2)
    }
}

pub proof fn lemma_le_value_push_zero(s: Seq<u8>)
    ensures
        le_value(s.push(0)) == le_value(s),
    decreases s.len(),
{
    if s.len() == 0 {
        assert(s.push(0).drop_first() =~= s);
    } else {
        assert(s.push(0).drop_first() =~= s.drop_first().push(0));
        lemma_le_value_push_zero(s.drop_first());
    }
}

pub proof fn lemma_le_value_bound(s: Seq<u8>)
    ensures
        le_value(s) < power(256, s.len()),
    decreases s.len(),
{
    if s.len() > 0 {
        lemma_le_value_bound(s.drop_first());
        let p = power(256, (s.len() - 1) as nat);
        let r = le_value(s.drop_first());
        assert(power(256, s.len()) == 256 * p);
        assert(s[0] as nat + 256 * r < 256 * p) by (nonlinear_arith)
            requires
                r < p,
                s[0] < 256,
        ;
    }
}

/// A canonical digit string is the shortest digit string of its value.
pub proof fn lemma_canonical_digits(s: Seq<u8>)
    requires
        is_canonical(s),
    ensures
        s == to_le_min(le_value(s)),
        s.len() > 0 ==> le_value(s) > 0,
    decreases s.len(),
{
    if s.len() > 0 {
        let rest = s.drop_first();
        if rest.len() > 0 {
            assert(rest.last() == s.last());
        }
        lemma_canonical_digits(rest);
        let v = le_value(s);
        let r = le_value(rest);
        if rest.len() == 0 {
            assert(s[0] != 0);
        }
        assert(v > 0);
        assert(v % 256 == s[0] as nat && v / 256 == r) by (nonlinear_arith)
            requires
                v == s[0] as nat + 256 * r,
                s[0] < 256,
        ;
        assert(s =~= seq![(v % 256) as u8] + to_le_min(v / 256));
    }
}

/// Padding a canonical digit string with zeros up to `w` digits gives the
/// fixed-width digit string of its value.
pub proof fn lemma_pad_digits(s: Seq<u8>, w: nat)
    requires
        is_canonical(s),
        le_value(s) < power(256, w),
    ensures
        s.len() <= w,
        s + Seq::new((w - s.len()) as nat, |i: int| 0u8) == to_le_fixed(le_value(s), w),
    decreases w,
{
    lemma_canonical_digits(s);
    let v = le_value(s);
    if w == 0 {
        assert(power(256, 0) == 1);
        assert(s.len() == 0);
        assert(s + Seq::new(0, |i: int| 0u8) =~= seq![]);
    } else {
        let rest = if s.len() > 0 { s.drop_first() } else { s };
        if s.len() > 0 {
            if rest.len() > 0 {
                assert(rest.last() == s.last());
            }
        }
        let r = le_value(rest);
        assert(power(256, w) == 256 * power(256, (w - 1) as nat));
        assert(v % 256 == (if s.len() > 0 { s[0] } else { 0u8 }) as nat && v / 256 == r
            && r < power(256, (w - 1) as nat)) by (nonlinear_arith)
            requires
                v == (if s.len() > 0 { s[0] } else { 0u8 }) as nat + 256 * r,
                (if s.len() > 0 { s[0] } else { 0u8 }) < 256,
                v < 256 * power(256, (w - 1) as nat),
        ;
        lemma_pad_digits(rest, (w - 1) as nat);
        let tail = rest + Seq::new(((w - 1) as nat - rest.len()) as nat, |i: int| 0u8);
        assert(to_le_fixed(v, w) == seq![(v % 256) as u8] + to_le_fixed(r, (w - 1) as nat));
        assert(s + Seq::new((w - s.len()) as nat, |i: int| 0u8) =~= seq![(v % 256) as u8] + tail);
    }
}

/// The fixed-width digit string of a value that fits reads back as that value.
pub proof fn lemma_fixed_digits_value(v: nat, w: nat)
    requires
        v < power(256, w),
    ensures
        le_value(to_le_fixed(v, w)) == v,
        to_le_fixed(v, w).len() == w,
    decreases w,
{
    if w == 0 {
        assert(power(256, 0) == 1);
    } else {
        assert(power(256, w) == 256 * power(256, (w - 1) as nat));
        assert(v / 256 < power(256, (w - 1) as nat) && v == v % 256 + 256 * (v / 256))
            by (nonlinear_arith)
            requires
                v < 256 * power(256, (w - 1) as nat),
        ;
        lemma_fixed_digits_value(v / 256, (w - 1) as nat);
        let f = to_le_fixed(v, w);
        assert(f.drop_first() =~= to_le_fixed(v / 256, (w - 1) as nat));
    }
}

pub proof fn lemma_power_adds(b: nat, e1: nat, e2: nat)
    ensures
        power(b, e1 + e2) == power(b, e1) * power(b, e2),
    decreases e1,
{
    if e1 == 0 {
        assert(power(b, 0) == 1);
        assert(e1 + e2 == e2);
    } else {
        let k = (e1 - 1) as nat;
        lemma_power_adds(b, k, e2);
        assert((e1 + e2) as nat - 1 == k + e2);
        assert(power(b, e1 + e2) == b * power(b, k + e2));
        assert(power(b, e1) == b * power(b, k));
        assert(b * (power(b, k) * power(b, e2)) == (b * power(b, k)) * power(b, e2))
            by (nonlinear_arith);
    }
}

pub proof fn lemma_power_small(b: nat)
    ensures
        power(b, 0) == 1,
        power(b, 1) == b,
        power(b, 2) == b * b,
{
    assert(power(b, 0) == 1);
    assert(power(b, 1) == b * power(b, 0));
    assert(power(b, 2) == b * power(b, 1));
}

pub proof fn lemma_power_positive(b: nat, e: nat)
    requires
        b > 0,
    ensures
        power(b, e) > 0,
    decreases e,
{
    if e > 0 {
        lemma_power_positive(b, (e - 1) as nat);
        assert(b * power(b, (e - 1) as nat) > 0) by (nonlinear_arith)
            requires
                b > 0,
                power(b, (e - 1) as nat) > 0,
        ;
    }
}

/// A number has `w` significant bits exactly when it lies in `[2^(w-1), 2^w)`.
pub proof fn lemma_bit_length_range(v: nat, w: nat)
    requires
        w > 0,
        power(2, (w - 1) as nat) <= v < power(2, w),
    ensures
        bit_length(v) == w,
    decreases w,
{
    if w == 1 {
        assert(power(2, 0) == 1);
        assert(power(2, 1) == 2);
        assert(v == 1);
        assert(bit_length(0) == 0);
    } else {
        let p = power(2, (w - 2) as nat);
        assert(power(2, (w - 1) as nat) == 2 * p);
        assert(power(2, w) == 2 * (2 * p));
        assert(p <= v / 2 < 2 * p) by (nonlinear_arith)
            requires
                2 * p <= v < 2 * (2 * p),
        ;
        lemma_bit_length_range(v / 2, (w - 1) as nat);
    }
}

/// Every number lies below two to the power of its bit length, and a
/// positive one at or above two to the power one less.
pub proof fn lemma_bit_length_bounds(v: nat)
    ensures
        v < power(2, bit_length(v)),
        v > 0 ==> power(2, (bit_length(v) - 1) as nat) <= v,
    decreases v,
{
    if v == 0 {
        assert(power(2, 0) == 1);
    } else {
        lemma_bit_length_bounds(v / 2);
        let b = bit_length(v / 2);
        assert(power(2, b + 1) == 2 * power(2, b));
        if v / 2 == 0 {
            assert(v == 1);
            assert(power(2, 0) == 1);
        } else {
            assert(power(2, b) == 2 * power(2, (b - 1) as nat));
            assert(power(2, (b - 1) as nat) <= v / 2 ==> 2 * power(2, (b - 1) as nat) <= v)
                by (nonlinear_arith);
        }
    }
}

pub proof fn lemma_power_monotone(b: nat, e1: nat, e2: nat)
    requires
        b >= 1,
        e1 <= e2,
    ensures
        power(b, e1) <= power(b, e2),
    decreases e2,
{
    if e1 < e2 {
        lemma_power_monotone(b, e1, (e2 - 1) as nat);
        lemma_power_positive(b, (e2 - 1) as nat);
        assert(power(b, e2) == b * power(b, (e2 - 1) as nat));
        assert(power(b, (e2 - 1) as nat) <= b * power(b, (e2 - 1) as nat)) by (nonlinear_arith)
            requires
                b >= 1,
        ;
    }
}

/// Eight bits make a byte: `2^(8w) == 256^w`.
pub proof fn lemma_bits_to_bytes(w: nat)
    ensures
        power(2, 8 * w) == power(256, w),
    decreases w,
{
    if w > 0 {
        lemma_bits_to_bytes((w - 1) as nat);
        lemma_power_adds(2, (8 * (w - 1)) as nat, 8);
        reveal_with_fuel(power, 9);
        assert(power(2, 8) == 256);
        assert((8 * (w - 1)) as nat + 8 == 8 * w);
    }
}

/// An arbitrary-precision natural number.
#[derive(Debug, PartialEq, Eq)]
pub struct Natural {
    digits: Vec<u8>,
}

impl Clone for Natural {
    fn clone(&self) -> (r: Self)
        ensures
            r.value() == self.value(),
            r.wf() == self.wf(),
    {
        Natural { digits: self.digits.clone() }
    }
}

impl Natural {
    /// The number this value stands for.
    pub closed spec fn value(&self) -> nat {
        le_value(self.digits@)
    }

    /// The digits are canonical: every number has one representation.
    pub closed spec fn wf(&self) -> bool {
        is_canonical(self.digits@)
    }

    pub fn zero() -> (r: Natural)
        ensures
            r.wf(),
            r.value() == 0,
    {
        Natural { digits: Vec::new() }
    }

    pub fn from_u64(x: u64) -> (r: Natural)
        ensures
            r.wf(),
            r.value() == x,
    {
        let mut digits: Vec<u8> = Vec::new();
        let mut rest: u64 = x;
        let ghost mut scale: nat = 1;
        while rest > 0
            invariant
                le_value(digits@) + scale * rest == x,
                scale == power(256, digits@.len()),
                digits@.len() > 0 && digits@.last() == 0 ==> rest > 0,
            decreases rest,
        {
            let d = (rest % 256) as u8;
            proof {
                lemma_le_value_concat_digit(digits@, d);
                assert(rest == (rest % 256) + 256 * (rest / 256));
                assert(scale * rest == scale * (rest % 256) + (256 * scale) * (rest / 256))
                    by (nonlinear_arith)
                    requires rest == (rest % 256) + 256 * (rest / 256),
                ;
                assert(power(256, digits@.len() + 1) == 256 * power(256, digits@.len()));
            }
            digits.push(d);
            rest = rest / 256;
            proof {
                scale = scale * 256;
            }
        }
        Natural { digits }
    }

    /// The number written by the little-endian digits `bytes`.
    pub fn from_le_bytes(bytes: &[u8]) -> (r: Natural)
        ensures
            r.wf(),
            r.value() == le_value(bytes@),
    {
        let mut len: usize = bytes.len();
        assert(bytes@.subrange(0, len as int) =~= bytes@);
        while len > 0 && bytes[len - 1] == 0
            invariant
                len <= bytes@.len(),
                le_value(bytes@.subrange(0, len as int)) == le_value(bytes@),
            decreases len,
        {
            proof {
                let s = bytes@.subrange(0, len as int);
                assert(s =~= bytes@.subrange(0, len - 1).push(0));
                lemma_le_value_push_zero(bytes@.subrange(0, len - 1));
            }
            len = len - 1;
        }
        let mut digits: Vec<u8> = Vec::new();
        let mut i: usize = 0;
        while i < len
            invariant
                i <= len,
                len <= bytes@.len(),
                digits@ == bytes@.subrange(0, i as int),
            decreases len - i,
        {
            digits.push(bytes[i]);
            i = i + 1;
            proof {
                assert(digits@ =~= bytes@.subrange(0, i as int));
            }
        }
        Natural { digits }
    }

    /// The shortest little-endian digit string of the value.
    pub fn to_le_bytes(&self) -> (r: Vec<u8>)
        requires
            self.wf(),
        ensures
            r@ == to_le_min(self.value()),
    {
        proof {
            lemma_canonical_digits(self.digits@);
        }
        self.digits.clone()
    }

    /// The little-endian digits of the value, zero-padded to `width` digits.
    pub fn to_le_bytes_padded(&self, width: usize) -> (r: Vec<u8>)
        requires
            self.wf(),
            self.value() < power(256, width as nat),
        ensures
            r@ == to_le_fixed(self.value(), width as nat),
    {
        proof {
            lemma_pad_digits(self.digits@, width as nat);
        }
        let mut out = self.digits.clone();
        while out.len() < width
            invariant
                self.digits@.len() <= out@.len() <= width,
                out@ == self.digits@ + Seq::new((out@.len() - self.digits@.len()) as nat, |i: int| 0u8),
            decreases width - out.len(),
        {
            out.push(0);
            proof {
                assert(out@ =~= self.digits@ + Seq::new((out@.len() - self.digits@.len()) as nat, |i: int| 0u8));
            }
        }
        out
    }

    pub fn is_zero(&self) -> (r: bool)
        requires
            self.wf(),
        ensures
            r == (self.value() == 0),
    {
        proof {
            lemma_canonical_digits(self.digits@);
        }
        self.digits.len() == 0
    }

    /// The value as a machine integer.
    pub fn to_u64(&self) -> (r: u64)
        requires
            self.wf(),
            self.value() < power(256, 8),
        ensures
            r == self.value(),
    {
        proof {
            lemma_pad_digits(self.digits@, 8);
        }
        let ghost s = self.digits@;
        let mut acc: u64 = 0;
        let mut k: usize = self.digits.len();
        proof {
            assert(s.skip(s.len() as int) =~= Seq::<u8>::empty());
        }
        while k > 0
            invariant
                s == self.digits@,
                s.len() <= 8,
                k <= s.len(),
                acc == le_value(s.skip(k as int)),
            decreases k,
        {
            k = k - 1;
            proof {
                assert(s.skip(k as int).drop_first() =~= s.skip(k + 1));
                lemma_le_value_bound(s.skip(k as int));
                lemma_power_monotone(256, (s.len() - k) as nat, 8);
                reveal_with_fuel(power, 9);
                assert(le_value(s.skip(k as int)) == s[k as int] as nat + 256 * le_value(s.skip(k + 1)));
            }
            acc = acc * 256 + self.digits[k] as u64;
        }
        proof {
            assert(s.skip(0) =~= s);
        }
        acc
    }

    /// Two to the power `e`.
    pub fn power_of_two(e: usize) -> (r: Natural)
        ensures
            r.wf(),
            r.value() == power(2, e as nat),
    {
        let two = Natural::from_u64(2);
        let mut r = Natural::from_u64(1);
        let mut i: usize = 0;
        while i < e
            invariant
                i <= e,
                two.value() == 2,
                r.wf(),
                r.value() == power(2, i as nat),
            decreases e - i,
        {
            proof {
                lemma_power_adds(2, i as nat, 1);
                assert(power(2, 0) == 1);
                assert(power(2, 1) == 2);
            }
            r = r.times(&two);
            i = i + 1;
        }
        r
    }

    pub fn is_odd(&self) -> (r: bool)
        ensures
            r == (self.value() % 2 == 1),
    {
        if self.digits.len() == 0 {
            false
        } else {
            proof {
                let d = self.digits@[0] as nat;
                let t = le_value(self.digits@.drop_first());
                assert((d + 256 * t) % 2 == d % 2) by (nonlinear_arith);
            }
            self.digits[0] % 2 == 1
        }
    }
}

impl Natural {
    /// Relies on `UBig` addition (`ibig`): the exact sum.
    #[verifier::external_body]
    pub(crate) fn plus(&self, other: &Natural) -> (r: Natural)
        ensures
            r.wf(),
            r.value() == self.value() + other.value(),
    {
        let sum = UBig::from_le_bytes(&self.digits) + UBig::from_le_bytes(&other.digits);
        Natural { digits: sum.to_le_bytes() }
    }

    /// Relies on `UBig` subtraction (`ibig`): the exact difference, which
    /// panics when negative, so the subtrahend may not exceed `self`.
    #[verifier::external_body]
    pub(crate) fn minus(&self, other: &Natural) -> (r: Natural)
        requires
            other.value() <= self.value(),
        ensures
            r.wf(),
            r.value() == self.value() - other.value(),
    {
        let difference = UBig::from_le_bytes(&self.digits) - UBig::from_le_bytes(&other.digits);
        Natural { digits: difference.to_le_bytes() }
    }

    /// Relies on `UBig` multiplication (`ibig`): the exact product.
    #[verifier::external_body]
    pub(crate) fn times(&self, other: &Natural) -> (r: Natural)
        ensures
            r.wf(),
            r.value() == self.value() * other.value(),
    {
        let product = UBig::from_le_bytes(&self.digits) * UBig::from_le_bytes(&other.digits);
        Natural { digits: product.to_le_bytes() }
    }

    /// Relies on `DivRem::div_rem` of `ibig`: quotient and remainder of
    /// truncating division, which panics on a zero divisor.
    #[verifier::external_body]
    pub(crate) fn div_rem(&self, divisor: &Natural) -> (r: (Natural, Natural))
        requires
            divisor.value() > 0,
        ensures
            r.0.wf(),
            r.1.wf(),
            r.0.value() == self.value() / divisor.value(),
            r.1.value() == self.value() % divisor.value(),
    {
        let (q, m) = UBig::from_le_bytes(&self.digits).div_rem(UBig::from_le_bytes(&divisor.digits));
        (Natural { digits: q.to_le_bytes() }, Natural { digits: m.to_le_bytes() })
    }

    /// Relies on `UBig`'s `PartialEq` (`ibig`): numeric equality.
    #[verifier::external_body]
    pub(crate) fn equals(&self, other: &Natural) -> (r: bool)
        ensures
            r == (self.value() == other.value()),
    {
        UBig::from_le_bytes(&self.digits) == UBig::from_le_bytes(&other.digits)
    }

    /// Relies on `Modulo::pow` in a `ModuloRing` of `ibig`: the residue of
    /// `self` to the power `exponent` modulo `modulus`. Building a ring of
    /// modulus zero panics.
    #[verifier::external_body]
    pub(crate) fn mod_pow(&self, exponent: &Natural, modulus: &Natural) -> (r: Natural)
        requires
            modulus.value() > 0,
        ensures
            r.wf(),
            r.value() == power(self.value(), exponent.value()) % modulus.value(),
    {
        let ring = ModuloRing::new(&UBig::from_le_bytes(&modulus.digits));
        let base = ring.from(UBig::from_le_bytes(&self.digits));
        Natural { digits: base.pow(&UBig::from_le_bytes(&exponent.digits)).residue().to_le_bytes() }
    }

    /// Relies on `Rng::gen_range` of `rand`, with the uniform sampler of
    /// `ibig`: a number drawn from `[0, bound)`. An empty range panics.
    #[verifier::external_body]
    pub(crate) fn random_below(rng: &mut StdRng, bound: &Natural) -> (r: Natural)
        requires
            bound.value() > 0,
        ensures
            r.wf(),
            r.value() < bound.value(),
    {
        let drawn: UBig = rng.gen_range(UBig::from(0u8)..UBig::from_le_bytes(&bound.digits));
        Natural { digits: drawn.to_le_bytes() }
    }

    /// Relies on `UBig::bit_len` (`ibig`): the number of significant bits.
    #[verifier::external_body]
    pub(crate) fn bit_len(&self) -> (r: usize)
        ensures
            r == bit_length(self.value()),
    {
        UBig::from_le_bytes(&self.digits).bit_len()
    }
}

proof fn lemma_le_value_concat_digit(s: Seq<u8>, d: u8)
    ensures
        le_value(s.push(d)) == le_value(s) + power(256, s.len()) * d,
    decreases s.len(),
{
    if s.len() == 0 {
        assert(s.push(d).drop_first() =~= s);
        assert(power(256, 0) == 1);
    } else {
        assert(s.push(d).drop_first() =~= s.drop_first().push(d));
        lemma_le_value_concat_digit(s.drop_first(), d);
        let p = power(256, (s.len() - 1) as nat);
        assert(power(256, s.len()) == 256 * p);
        assert(256 * (le_value(s.drop_first()) + p * d) == 256 * le_value(s.drop_first()) + (256 * p) * d)
            by (nonlinear_arith);
    }
}

} // verus!
