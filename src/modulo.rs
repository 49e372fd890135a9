//! Greatest common divisors and modular inverses by the extended Euclidean
//! algorithm.

use vstd::prelude::*;
use vstd::arithmetic::div_mod::{
    lemma_fundamental_div_mod, lemma_mod_equivalence, lemma_mod_multiples_basic,
};
use crate::natural::Natural;

verus! {

/// Greatest common divisor, by Euclid's recurrence.
pub open spec fn gcd(a: nat, b: nat) -> nat
    decreases b,
{
    if b == 0 {
        a
    } else {
        gcd(b, a % b)
    }
}

/// `x` is the inverse of `t` modulo `m`, reduced into `[0, m)`.
pub open spec fn is_inverse_mod(t: nat, x: nat, m: nat) -> bool {
    x < m && (t * x) % m == 1nat % m
}

/// The failure of a modular inversion.
#[derive(Clone, Copy, Debug, PartialEq, Eq)]
pub enum InversionError {
    /// The number and the modulus share a factor greater than one.
    NonCoprimes,
}

/// One step of the extended Euclidean algorithm keeps each remainder
/// congruent to its coefficient times `x`.
pub proof fn lemma_bezout_step(m: int, x: int, a: int, b: int, ra: int, rb: int, q: int, t: int)
    requires
        m > 0,
        (a * x) % m == ra % m,
        (b * x) % m == rb % m,
        t % m == (a - q * b) % m,
    ensures
        (t * x) % m == (ra - q * rb) % m,
{
    lemma_mod_equivalence(a * x, ra, m);
    lemma_mod_equivalence(b * x, rb, m);
    lemma_mod_equivalence(t, a - q * b, m);
    lemma_fundamental_div_mod(a * x - ra, m);
    lemma_fundamental_div_mod(b * x - rb, m);
    lemma_fundamental_div_mod(t - (a - q * b), m);
    let k1 = (a * x - ra) / m;
    let k2 = (b * x - rb) / m;
    let k3 = (t - (a - q * b)) / m;
    assert(t * x - (ra - q * rb) == (k1 - q * k2 + k3 * x) * m) by (nonlinear_arith)
        requires
            a * x - ra == m * k1,
            b * x - rb == m * k2,
            t - (a - q * b) == m * k3,
    ;
    lemma_mod_multiples_basic(k1 - q * k2 + k3 * x, m);
    lemma_mod_equivalence(t * x, ra - q * rb, m);
}

/// A remainder step of Euclid's algorithm keeps the greatest common divisor.
proof fn lemma_gcd_step(a: nat, b: nat)
    requires
        b > 0,
    ensures
        gcd(a, b) == gcd(b, a % b),
{
}

/// The greatest common divisor of two numbers, not both zero, is positive.
pub proof fn lemma_gcd_positive(a: nat, b: nat)
    requires
        a > 0 || b > 0,
    ensures
        gcd(a, b) > 0,
    decreases b,
{
    if b > 0 {
        lemma_gcd_positive(b, a % b);
    }
}

/// The inverse of `inverted` modulo `module`, reduced into `[0, module)`;
/// zero has the inverse zero by convention.
pub fn inverse(inverted: u64, module: u64) -> (r: Result<u128, InversionError>)
    requires
        module > 0,
    ensures
        inverted == 0 ==> r == Ok::<u128, InversionError>(0),
        inverted > 0 ==> (r is Ok <==> gcd(module as nat, inverted as nat) == 1),
        inverted > 0 ==> (r matches Ok(x) ==> is_inverse_mod(inverted as nat, x as nat, module as nat)),
        r matches Err(e) ==> e == InversionError::NonCoprimes,
{
    if inverted == 0 {
        return Ok(0);
    }
    let mut inversion: u64 = 0;
    let mut next_inversion: u64 = 1 % module;
    let mut remainder: u64 = module;
    let mut next_remainder: u64 = inverted;
    proof {
        assert((0 * inverted as int) % module as int == module as int % module as int)
            by (nonlinear_arith)
            requires
                module > 0,
        ;
        assert(((1u64 % module) as int * inverted as int) % module as int == inverted as int % module as int)
            by (nonlinear_arith)
            requires
                module > 0,
        ;
    }
    while next_remainder != 0
        invariant
            module > 0,
            inversion < module,
            next_inversion < module,
            (inversion as int * inverted as int) % module as int == remainder as int % module as int,
            (next_inversion as int * inverted as int) % module as int == next_remainder as int % module as int,
            gcd(remainder as nat, next_remainder as nat) == gcd(module as nat, inverted as nat),
            remainder > 0 || next_remainder > 0,
        decreases next_remainder,
    {
        let quotient = remainder / next_remainder;
        let rest = remainder % next_remainder;
        assert(quotient as int * next_inversion as int <= 0xffff_ffff_ffff_ffff * 0xffff_ffff_ffff_ffff)
            by (nonlinear_arith)
            requires
                quotient <= 0xffff_ffff_ffff_ffffu64,
                next_inversion <= 0xffff_ffff_ffff_ffffu64,
        ;
        let scaled = ((quotient as u128 * next_inversion as u128) % module as u128) as u64;
        let t: u64 = if inversion >= scaled {
            inversion - scaled
        } else {
            inversion + (module - scaled)
        };
        proof {
            let m = module as int;
            let q = quotient as int;
            let b = next_inversion as int;
            assert(scaled as int == (q * b) % m);
            assert((t as int) % m == (inversion as int - q * b) % m) by {
                vstd::arithmetic::div_mod::lemma_sub_mod_noop(inversion as int, q * b, m);
                vstd::arithmetic::div_mod::lemma_small_mod(inversion as nat, module as nat);
                if inversion < scaled {
                    vstd::arithmetic::div_mod::lemma_mod_add_multiples_vanish(inversion as int - scaled as int, m);
                }
                vstd::arithmetic::div_mod::lemma_small_mod(t as nat, module as nat);
            }
            lemma_fundamental_div_mod(remainder as int, next_remainder as int);
            lemma_bezout_step(m, inverted as int, inversion as int, b, remainder as int,
                next_remainder as int, q, t as int);
            lemma_gcd_step(remainder as nat, next_remainder as nat);
        }
        inversion = next_inversion;
        next_inversion = t;
        remainder = next_remainder;
        next_remainder = rest;
    }
    proof {
        lemma_gcd_positive(remainder as nat, 0);
        assert(gcd(remainder as nat, 0) == remainder);
    }
    if remainder > 1 {
        return Err(InversionError::NonCoprimes);
    }
    proof {
        assert(remainder == 1);
        assert(inverted as int * inversion as int == inversion as int * inverted as int)
            by (nonlinear_arith);
        assert(is_inverse_mod(inverted as nat, inversion as nat, module as nat));
    }
    Ok(inversion as u128)
}

/// The greatest common divisor of two arbitrary-precision numbers.
pub fn greatest_common_divisor(a: &Natural, b: &Natural) -> (r: Natural)
    requires
        a.wf(),
        b.wf(),
    ensures
        r.wf(),
        r.value() == gcd(a.value(), b.value()),
{
    let mut x = a.clone();
    let mut y = b.clone();
    while !y.is_zero()
        invariant
            x.wf(),
            y.wf(),
            gcd(x.value(), y.value()) == gcd(a.value(), b.value()),
        decreases y.value(),
    {
        let (_, rest) = x.div_rem(&y);
        proof {
            lemma_gcd_step(x.value(), y.value());
        }
        x = y;
        y = rest;
    }
    x
}

/// The inverse of `target` modulo `module`, reduced into `[0, module)`;
/// zero has the inverse zero by convention.
pub fn find_inverse_in_modulo_ring(target: &Natural, module: &Natural) -> (r: Result<Natural, InversionError>)
    requires
        target.wf(),
        module.wf(),
        module.value() > 0,
    ensures
        target.value() == 0 ==> (r matches Ok(x) && x.value() == 0),
        target.value() > 0 ==> (r is Ok <==> gcd(module.value(), target.value()) == 1),
        target.value() > 0 ==> (r matches Ok(x) ==> is_inverse_mod(target.value(), x.value(), module.value())),
        r matches Ok(x) ==> x.wf(),
        r matches Err(e) ==> e == InversionError::NonCoprimes,
{
    if target.is_zero() {
        return Ok(Natural::zero());
    }
    let one = Natural::from_u64(1);
    let mut inversion = Natural::zero();
    let (_, mut next_inversion) = one.div_rem(module);
    let mut remainder = module.clone();
    let mut next_remainder = target.clone();
    let ghost m = module.value() as int;
    let ghost x = target.value() as int;
    proof {
        assert((0 * x) % m == m % m) by (nonlinear_arith)
            requires
                m > 0,
        ;
        assert(((1int % m) * x) % m == x % m) by (nonlinear_arith)
            requires
                m > 0,
        ;
    }
    while !next_remainder.is_zero()
        invariant
            m == module.value(),
            x == target.value(),
            m > 0,
            module.wf(),
            inversion.wf(),
            next_inversion.wf(),
            remainder.wf(),
            next_remainder.wf(),
            inversion.value() < m,
            next_inversion.value() < m,
            (inversion.value() * x) % m == remainder.value() as int % m,
            (next_inversion.value() * x) % m == next_remainder.value() as int % m,
            gcd(remainder.value(), next_remainder.value()) == gcd(module.value(), target.value()),
            remainder.value() > 0 || next_remainder.value() > 0,
        decreases next_remainder.value(),
    {
        let (quotient, rest) = remainder.div_rem(&next_remainder);
        let (_, scaled) = quotient.times(&next_inversion).div_rem(module);
        let (_, t) = inversion.plus(module).minus(&scaled).div_rem(module);
        proof {
            let q = quotient.value() as int;
            let a = inversion.value() as int;
            let b = next_inversion.value() as int;
            let sc = scaled.value() as int;
            assert(t.value() as int % m == (a - q * b) % m) by {
                vstd::arithmetic::div_mod::lemma_mod_twice(a + m - sc, m);
                vstd::arithmetic::div_mod::lemma_mod_add_multiples_vanish(a - sc, m);
                vstd::arithmetic::div_mod::lemma_sub_mod_noop_right(a, q * b, m);
                assert(a + m - sc == (a - sc) + m);
            }
            lemma_fundamental_div_mod(remainder.value() as int, next_remainder.value() as int);
            lemma_bezout_step(m, x, a, b, remainder.value() as int, next_remainder.value() as int,
                q, t.value() as int);
            lemma_gcd_step(remainder.value(), next_remainder.value());
        }
        inversion = next_inversion;
        next_inversion = t;
        remainder = next_remainder;
        next_remainder = rest;
    }
    proof {
        lemma_gcd_positive(remainder.value(), 0);
        assert(gcd(remainder.value(), 0) == remainder.value());
    }
    if !remainder.equals(&one) {
        return Err(InversionError::NonCoprimes);
    }
    proof {
        assert(x * inversion.value() == inversion.value() * x) by (nonlinear_arith);
    }
    Ok(inversion)
}

} // verus!
