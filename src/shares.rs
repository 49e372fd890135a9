//! Recovery of a secret shared by Shamir's scheme, by Lagrange
//! interpolation at zero over a prime field.

use vstd::prelude::*;
use vstd::arithmetic::div_mod::{lemma_mul_mod_noop_general, lemma_small_mod};
use rand::rngs::StdRng;
use crate::entropy;
use crate::modulo::{gcd, inverse, is_inverse_mod};
use crate::natural::{power, bit_length};
use crate::primes;
use crate::primes::{accepted_by_tester, WITNESSES};

verus! {

/// The product of `-x` over the share indices `x` of `shares` other than `i`.
pub open spec fn numerator(i: u128, shares: Seq<(u128, u128)>) -> int
    decreases shares.len(),
{
    if shares.len() == 0 {
        1
    } else if shares.last().0 == i {
        numerator(i, shares.drop_last())
    } else {
        numerator(i, shares.drop_last()) * (-(shares.last().0 as int))
    }
}

/// The product of `i - x` over the share indices `x` of `shares` other than `i`.
pub open spec fn denominator(i: u128, shares: Seq<(u128, u128)>) -> int
    decreases shares.len(),
{
    if shares.len() == 0 {
        1
    } else if shares.last().0 == i {
        denominator(i, shares.drop_last())
    } else {
        denominator(i, shares.drop_last()) * (i as int - shares.last().0 as int)
    }
}

/// The Lagrange basis polynomial of index `i` evaluated at zero, modulo
/// `prime`: the residue `r` with `r · denominator ≡ numerator`.
pub open spec fn lagrange_value(i: u128, prime: u128, shares: Seq<(u128, u128)>) -> nat {
    choose|r: nat| #[trigger] solves_lagrange(r, i, prime, shares)
}

/// `r` is a residue below `prime` with `r · denominator ≡ numerator`.
pub open spec fn solves_lagrange(r: nat, i: u128, prime: u128, shares: Seq<(u128, u128)>) -> bool {
    r < prime && (r * denominator(i, shares)) % (prime as int) == numerator(i, shares) % (prime as int)
}

/// The inputs on which the Lagrange coefficient of index `i` is defined:
/// a modulus that fits in 64 bits, some other share, and a denominator
/// invertible modulo `prime`.
pub open spec fn lagrange_defined(i: u128, prime: u128, shares: Seq<(u128, u128)>) -> bool {
    &&& 1 < prime <= u64::MAX
    &&& exists|k: int| 0 <= k < shares.len() && #[trigger] shares[k].0 != i
    &&& gcd(prime as nat, (denominator(i, shares) % (prime as int)) as nat) == 1
}

/// A residue class has one representative below the modulus: two residues
/// that agree once multiplied by an invertible `den` are equal.
proof fn lemma_cancel_invertible(r1: int, r2: int, den: int, inv: int, num: int, p: int)
    requires
        p > 1,
        0 <= r1 < p,
        0 <= r2 < p,
        0 <= inv < p,
        (r1 * den) % p == num % p,
        (r2 * den) % p == num % p,
        ((den % p) * inv) % p == 1,
    ensures
        r1 == r2,
{
    lemma_mul_mod_noop_general(r1 * den, inv, p);
    lemma_mul_mod_noop_general(r2 * den, inv, p);
    lemma_mul_mod_noop_general(den, inv, p);
    assert((r1 * den) * inv == r1 * (den * inv)) by (nonlinear_arith);
    assert((r2 * den) * inv == r2 * (den * inv)) by (nonlinear_arith);
    lemma_mul_mod_noop_general(r1, den * inv, p);
    lemma_mul_mod_noop_general(r2, den * inv, p);
    lemma_small_mod(r1 as nat, p as nat);
    lemma_small_mod(r2 as nat, p as nat);
    assert((den * inv) % p == 1) by {
        lemma_mul_mod_noop_general(den, inv, p);
        lemma_small_mod(inv as nat, p as nat);
    }
}

proof fn lemma_quotient_residue(num: int, inv: int, den: int, nv: int, dv: int, p: int, r: int)
    requires
        p > 1,
        num == nv % p,
        den == dv % p,
        (den * inv) % p == 1,
        r == (num * inv) % p,
    ensures
        (r * dv) % p == nv % p,
{
    let a = num * inv;
    lemma_mul_mod_noop_general(a, dv, p);
    assert(a * dv == num * (inv * dv)) by (nonlinear_arith)
        requires
            a == num * inv,
    ;
    lemma_mul_mod_noop_general(num, inv * dv, p);
    lemma_mul_mod_noop_general(inv, dv, p);
    assert(inv * den == den * inv) by (nonlinear_arith);
    assert((inv * dv) % p == 1);
    assert(num * 1 == num);
    vstd::arithmetic::div_mod::lemma_mod_twice(nv, p);
}

proof fn lemma_sum_step(share: int, c: int, rest: int, acc: int, p: int)
    requires
        p > 1,
        acc == rest % p,
    ensures
        (((share % p) * c) % p + acc) % p == (share * c + rest) % p,
{
    lemma_mul_mod_noop_general(share, c, p);
    vstd::arithmetic::div_mod::lemma_add_mod_noop(share * c, rest, p);
    vstd::arithmetic::div_mod::lemma_mod_twice(rest, p);
    vstd::arithmetic::div_mod::lemma_mod_twice(share * c, p);
}

/// The numerator and the denominator of the Lagrange coefficient of index
/// `i`, each reduced modulo `prime`.
fn residues(i: u128, prime: u128, shares: &[(u128, u128)]) -> (r: (u128, u128))
    requires
        1 < prime <= u64::MAX,
    ensures
        r.0 < prime,
        r.1 < prime,
        r.0 as int == numerator(i, shares@) % (prime as int),
        r.1 as int == denominator(i, shares@) % (prime as int),
{
    let ghost p = prime as int;
    let mut num: u128 = 1;
    let mut den: u128 = 1;
    let mut k: usize = 0;
    proof {
        assert(shares@.subrange(0, 0) =~= Seq::<(u128, u128)>::empty());
        lemma_small_mod(1, prime as nat);
    }
    while k < shares.len()
        invariant
            p == prime as int,
            1 < prime <= u64::MAX,
            k <= shares@.len(),
            num < prime,
            den < prime,
            num as int == numerator(i, shares@.subrange(0, k as int)) % p,
            den as int == denominator(i, shares@.subrange(0, k as int)) % p,
        decreases shares@.len() - k,
    {
        let x = shares[k].0;
        proof {
            assert(shares@.subrange(0, k + 1).drop_last() =~= shares@.subrange(0, k as int));
        }
        if x != i {
            let xm = x % prime;
            let im = i % prime;
            let neg = (prime - xm) % prime;
            let diff = (im + (prime - xm)) % prime;
            proof {
                let prev_n = numerator(i, shares@.subrange(0, k as int));
                let prev_d = denominator(i, shares@.subrange(0, k as int));
                assert(neg as int == (-(x as int)) % p) by {
                    vstd::arithmetic::div_mod::lemma_sub_mod_noop_right(p, x as int, p);
                    vstd::arithmetic::div_mod::lemma_mod_add_multiples_vanish(-(x as int), p);
                }
                assert(diff as int == (i as int - x as int) % p) by {
                    assert(im as int + (p - xm as int) == p + (im as int - xm as int));
                    vstd::arithmetic::div_mod::lemma_mod_add_multiples_vanish(im as int - xm as int, p);
                    vstd::arithmetic::div_mod::lemma_sub_mod_noop(i as int, x as int, p);
                }
                lemma_mul_mod_noop_general(prev_n, -(x as int), p);
                lemma_mul_mod_noop_general(prev_d, i as int - x as int, p);
                assert(num as int * neg as int <= (u64::MAX as int) * (u64::MAX as int)) by (nonlinear_arith)
                    requires
                        num < prime,
                        neg < prime,
                        prime <= u64::MAX,
                ;
                assert(den as int * diff as int <= (u64::MAX as int) * (u64::MAX as int)) by (nonlinear_arith)
                    requires
                        den < prime,
                        diff < prime,
                        prime <= u64::MAX,
                ;
            }
            num = (num * neg) % prime;
            den = (den * diff) % prime;
        }
        k = k + 1;
    }
    proof {
        assert(shares@.subrange(0, k as int) =~= shares@);
    }
    (num, den)
}

/// The Lagrange coefficient of share index `i` at zero, modulo `prime`.
pub fn lagrange_coefficient(i: u128, prime: u128, shares: &[(u128, u128)]) -> (r: u128)
    requires
        lagrange_defined(i, prime, shares@),
    ensures
        r < prime,
        (r * denominator(i, shares@)) % (prime as int) == numerator(i, shares@) % (prime as int),
        r == lagrange_value(i, prime, shares@),
{
    let ghost p = prime as int;
    let (num, den) = residues(i, prime, shares);
    let inv = match inverse(den as u64, prime as u64) {
        Ok(v) => v,
        Err(_) => {
            proof {
                if den == 0 {
                    // a zero denominator has gcd equal to the modulus, which exceeds one
                    assert(gcd(prime as nat, 0) == prime);
                }
            }
            vstd::pervasive::unreached()
        },
    };
    proof {
        if den == 0 {
            assert(gcd(prime as nat, 0) == prime);
        }
        assert(den > 0);
        assert(is_inverse_mod(den as nat, inv as nat, prime as nat));
        assert(num as int * inv as int <= (u64::MAX as int) * (u64::MAX as int)) by (nonlinear_arith)
            requires
                num < prime,
                inv < prime,
                prime <= u64::MAX,
        ;
    }
    let r = (num * inv) % prime;
    proof {
        let nv = numerator(i, shares@);
        let dv = denominator(i, shares@);
        lemma_small_mod(1, prime as nat);
        lemma_quotient_residue(num as int, inv as int, den as int, nv, dv, p, r as int);
        let c = lagrange_value(i, prime, shares@);
        assert(solves_lagrange(r as nat, i, prime, shares@));
        lemma_cancel_invertible(r as int, c as int, dv, inv as int, nv, p);
    }
    r
}

/// `Σ share · lagrange_value(index)` over the shares of `shares` from
/// position `k` on.
pub open spec fn weighted_sum(shares: Seq<(u128, u128)>, prime: u128, k: int) -> int
    decreases shares.len() - k,
{
    if k >= shares.len() || k < 0 {
        0
    } else {
        shares[k].1 * lagrange_value(shares[k].0, prime, shares) + weighted_sum(shares, prime, k + 1)
    }
}

/// Recovers the shared secret: the sum of each share value times the
/// Lagrange coefficient of its index, modulo `prime`.
pub fn recreate_secret(prime: u128, shares: &[(u128, u128)]) -> (r: u128)
    requires
        shares@.len() >= 2,
        forall|k: int| 0 <= k < shares@.len() ==> lagrange_defined(#[trigger] shares@[k].0, prime, shares@),
    ensures
        r == weighted_sum(shares@, prime, 0) % (prime as int),
{
    let ghost p = prime as int;
    proof {
        assert(lagrange_defined(shares@[0].0, prime, shares@));
    }
    let mut acc: u128 = 0;
    let mut k: usize = shares.len();
    proof {
        lemma_small_mod(0, prime as nat);
    }
    while k > 0
        invariant
            p == prime as int,
            1 < prime <= u64::MAX,
            k <= shares@.len(),
            forall|j: int| 0 <= j < shares@.len() ==> lagrange_defined(#[trigger] shares@[j].0, prime, shares@),
            acc < prime,
            acc as int == weighted_sum(shares@, prime, k as int) % p,
        decreases k,
    {
        k = k - 1;
        let (index, share) = shares[k];
        assert(lagrange_defined(shares@[k as int].0, prime, shares@));
        let coefficient = lagrange_coefficient(index, prime, shares);
        let sm = share % prime;
        proof {
            assert(sm as int * coefficient as int <= (u64::MAX as int) * (u64::MAX as int)) by (nonlinear_arith)
                requires
                    sm < prime,
                    coefficient < prime,
                    prime <= u64::MAX,
            ;
        }
        let term = (sm * coefficient) % prime;
        proof {
            let rest = weighted_sum(shares@, prime, k + 1);
            lemma_sum_step(share as int, coefficient as int, rest, acc as int, p);
            assert(weighted_sum(shares@, prime, k as int) == share as int * coefficient as int + rest);
        }
        acc = (term + acc) % prime;
    }
    acc
}

/// Relies on `mod_exp::mod_exp`: `base^exponent mod modulus` by repeated
/// squaring. It asserts that `(modulus - 1)^2` fits and divides by
/// `modulus - 1`, hence the bounds on `modulus`.
#[verifier::external_body]
fn power_mod(base: u128, exponent: u128, modulus: u128) -> (r: u128)
    requires
        2 <= modulus <= u64::MAX,
    ensures
        r == power(base as nat, exponent as nat) % (modulus as nat),
{
    mod_exp::mod_exp(base, exponent, modulus)
}

/// `Σ coefs[m] · x^(m+1)` over `m < j`.
pub open spec fn poly_sum(coefs: Seq<u32>, x: nat, j: nat) -> nat
    decreases j,
{
    if j == 0 {
        0
    } else {
        poly_sum(coefs, x, (j - 1) as nat) + coefs[j - 1] as nat * power(x, j)
    }
}

/// The share at `x` of `secret` under the polynomial with the coefficients
/// `coefs` (of `x`, `x^2`, ...), modulo `prime`.
pub open spec fn share_at(secret: u64, coefs: Seq<u32>, x: nat, prime: nat) -> nat {
    (poly_sum(coefs, x, coefs.len()) % prime + secret as nat) % prime
}

proof fn lemma_poly_step(acc: int, poly: int, c: int, pm: int, t: int, p: int)
    requires
        p > 1,
        acc == poly % p,
        pm == t % p,
    ensures
        (acc + c * pm) % p == (poly + c * t) % p,
{
    lemma_mul_mod_noop_general(c, t, p);
    vstd::arithmetic::div_mod::lemma_add_mod_noop(poly, c * t, p);
    vstd::arithmetic::div_mod::lemma_add_mod_noop(acc, c * pm, p);
    vstd::arithmetic::div_mod::lemma_mod_twice(poly, p);
    assert((c * pm) % p == (c * t) % p);
}

/// Splits `secret` into `share_count` shares, any `recreate_share_count` of
/// which recover it: a random polynomial of degree
/// `recreate_share_count - 1` with constant term `secret` is evaluated at
/// `1, 2, ...` modulo a random 64-bit prime. Gives up, with `None`, only
/// when the prime search runs out of draws.
pub fn make_shares(rng: &mut StdRng, secret: u64, share_count: usize, recreate_share_count: usize)
    -> (r: Option<(u128, Vec<(u128, u128)>)>)
    requires
        secret < 0x8000_0000_0000_0000,
        share_count < 0x8000_0000_0000_0000,
    ensures
        r matches Some((prime, shares)) ==> {
            &&& secret < prime && share_count < prime
            &&& bit_length(prime as nat) == 64
            &&& accepted_by_tester(prime as nat, WITNESSES as nat)
            &&& shares@.len() == share_count
            &&& exists|coefs: Seq<u32>| {
                &&& coefs.len() + 1 == recreate_share_count || (recreate_share_count == 0 && coefs.len() == 0)
                &&& forall|k: int| 0 <= k < share_count ==> #[trigger] shares@[k] == ((k + 1) as u128,
                    share_at(secret, coefs, (k + 1) as nat, prime as nat) as u128)
            }
        },
{
    let mut coefs: Vec<u32> = Vec::new();
    while coefs.len() + 1 < recreate_share_count
        invariant
            coefs@.len() < recreate_share_count || coefs@.len() == 0,
        decreases recreate_share_count - coefs@.len(),
    {
        coefs.push(entropy::random_u32(rng));
    }
    let p = match primes::generate(rng, 64) {
        Some(p) => p,
        None => return None,
    };
    proof {
        crate::natural::lemma_bits_to_bytes(8);
        reveal_with_fuel(power, 2);
    }
    let prime = p.to_u64() as u128;
    proof {
        assert(power(2, 63) == 0x8000_0000_0000_0000) by {
            crate::natural::lemma_power_adds(2, 32, 31);
            crate::natural::lemma_power_adds(2, 16, 16);
            crate::natural::lemma_power_adds(2, 8, 8);
            crate::natural::lemma_power_adds(2, 16, 15);
            crate::natural::lemma_power_adds(2, 8, 7);
            reveal_with_fuel(power, 9);
        }
    }
    let mut shares: Vec<(u128, u128)> = Vec::new();
    let mut i: usize = 0;
    while i < share_count
        invariant
            i <= share_count,
            share_count < prime,
            secret < prime,
            0x8000_0000_0000_0000 <= prime <= u64::MAX,
            shares@.len() == i,
            forall|k: int| 0 <= k < i ==> #[trigger] shares@[k] == ((k + 1) as u128,
                share_at(secret, coefs@, (k + 1) as nat, prime as nat) as u128),
        decreases share_count - i,
    {
        let x: u128 = (i + 1) as u128;
        let mut acc: u128 = 0;
        let mut m: usize = 0;
        proof {
            vstd::arithmetic::div_mod::lemma_small_mod(0, prime as nat);
        }
        while m < coefs.len()
            invariant
                m <= coefs@.len(),
                0x8000_0000_0000_0000 <= prime <= u64::MAX,
                acc < prime,
                acc as nat == poly_sum(coefs@, x as nat, m as nat) % (prime as nat),
            decreases coefs@.len() - m,
        {
            let pm = power_mod(x, (m + 1) as u128, prime);
            let c = coefs[m] as u128;
            proof {
                assert(c * pm <= 0xffff_ffff * 0xffff_ffff_ffff_ffff) by (nonlinear_arith)
                    requires
                        c <= 0xffff_ffff,
                        pm < prime,
                        prime <= u64::MAX,
                ;
                lemma_poly_step(acc as int, poly_sum(coefs@, x as nat, m as nat) as int, c as int, pm as int,
                    power(x as nat, (m + 1) as nat) as int, prime as int);
            }
            acc = (acc + c * pm) % prime;
            m = m + 1;
        }
        let value = (acc + secret as u128) % prime;
        shares.push((x, value));
        i = i + 1;
    }
    proof {
        assert(coefs@.len() + 1 == recreate_share_count || (recreate_share_count == 0 && coefs@.len() == 0));
    }
    Some((prime, shares))
}

/// Whether the Lagrange coefficient of index `i` is defined: `prime` fits
/// in 64 bits, another share exists, and the denominator is invertible
/// modulo `prime`.
pub fn lagrange_is_defined(i: u128, prime: u128, shares: &[(u128, u128)]) -> (r: bool)
    ensures
        r == lagrange_defined(i, prime, shares@),
{
    if prime < 2 || prime > u64::MAX as u128 {
        return false;
    }
    let mut k: usize = 0;
    let mut other = false;
    while k < shares.len() && !other
        invariant
            k <= shares@.len(),
            other ==> k < shares@.len() && shares@[k as int].0 != i,
            forall|j: int| 0 <= j < k ==> (#[trigger] shares@[j]).0 == i,
        decreases shares@.len() - k + (if other { 0int } else { 1int }),
    {
        if shares[k].0 != i {
            other = true;
        } else {
            k = k + 1;
        }
    }
    if !other {
        return false;
    }
    let (_, den) = residues(i, prime, shares);
    if den == 0 {
        assert(gcd(prime as nat, 0) == prime);
        return false;
    }
    inverse(den as u64, prime as u64).is_ok()
}

/// `recreate_secret`, or `None` when `shares` holds fewer than two shares
/// or a Lagrange coefficient is not defined.
pub fn try_recreate_secret(prime: u128, shares: &[(u128, u128)]) -> (r: Option<u128>)
    ensures
        r is Some <==> shares@.len() >= 2 && forall|k: int| 0 <= k < shares@.len() ==> lagrange_defined(
            #[trigger] shares@[k].0,
            prime,
            shares@,
        ),
        r matches Some(v) ==> v == weighted_sum(shares@, prime, 0) % (prime as int),
{
    if shares.len() < 2 {
        return None;
    }
    let mut k: usize = 0;
    while k < shares.len()
        invariant
            k <= shares@.len(),
            forall|j: int| 0 <= j < k ==> lagrange_defined(#[trigger] shares@[j].0, prime, shares@),
        decreases shares@.len() - k,
    {
        if !lagrange_is_defined(shares[k].0, prime, shares) {
            return None;
        }
        k = k + 1;
    }
    Some(recreate_secret(prime, shares))
}

} // verus!
