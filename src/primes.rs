//! Probabilistic primality testing (a Fermat gate followed by Miller–Rabin
//! rounds) and random prime generation.

use vstd::prelude::*;
use rand::rngs::StdRng;
use crate::natural::{
    Natural, power, bit_length, lemma_power_adds, lemma_power_small, lemma_power_positive, lemma_bit_length_range,
};
use crate::number_theory::{lemma_fermat_little, lemma_square_roots_of_one};

verus! {

/// Miller–Rabin rounds run by the prime generator.
pub const WITNESSES: usize = 5;

/// The verdict of the primality tester.
#[derive(Clone, Copy, Debug, PartialEq, Eq, Structural)]
pub enum Primality {
    ProbablyPrime,
    Composite,
}

/// The exponent of two in `x` (zero for zero).
pub open spec fn two_exponent(x: nat) -> nat
    decreases x,
{
    if x > 0 && x % 2 == 0 {
        1 + two_exponent(x / 2)
    } else {
        0
    }
}

/// `x` with every factor two divided out (zero for zero).
pub open spec fn odd_part(x: nat) -> nat
    decreases x,
{
    if x > 0 && x % 2 == 0 {
        odd_part(x / 2)
    } else {
        x
    }
}

/// Base `a` fails Fermat's criterion `a^(n-1) ≡ 1 (mod n)`.
pub open spec fn is_fermat_witness(n: nat, a: nat) -> bool {
    power(a, (n - 1) as nat) % n != 1
}

/// Base `a` fails the Miller–Rabin criterion for `n`, with `n - 1 == 2^s · d`:
/// `a^d` is not 1 and none of `a^(d·2^r)`, `r < s`, is `n - 1` (mod `n`).
pub open spec fn is_miller_rabin_witness(n: nat, a: nat, d: nat, s: nat) -> bool {
    &&& power(a, d) % n != 1
    &&& forall|r: nat| r < s ==> #[trigger] power(a, d * power(2, r)) % n != n - 1
}

/// A base in `[2, n-2]` that proves `n` composite by one of the two gates.
pub open spec fn is_compositeness_witness(n: nat, a: nat) -> bool {
    &&& 2 <= a <= n - 2
    &&& is_fermat_witness(n, a) || is_miller_rabin_witness(
        n,
        a,
        odd_part((n - 1) as nat),
        two_exponent((n - 1) as nat),
    )
}

proof fn lemma_two_exponent_bound(x: nat)
    ensures
        two_exponent(x) <= bit_length(x),
    decreases x,
{
    if x > 0 && x % 2 == 0 {
        lemma_two_exponent_bound(x / 2);
    }
}

proof fn lemma_decomposition(x: nat)
    ensures
        x == odd_part(x) * power(2, two_exponent(x)),
    decreases x,
{
    lemma_power_small(2);
    if x > 0 && x % 2 == 0 {
        lemma_decomposition(x / 2);
        let o = odd_part(x / 2);
        let t = two_exponent(x / 2);
        lemma_power_adds(2, t, 1);
        assert(x == o * power(2, t + 1)) by (nonlinear_arith)
            requires
                x / 2 == o * power(2, t),
                power(2, t + 1) == power(2, t) * 2,
                x % 2 == 0,
        ;
        assert(odd_part(x) == o && two_exponent(x) == t + 1);
    } else {
        assert(odd_part(x) == x && two_exponent(x) == 0);
        assert(x * 1 == x);
    }
}

/// Going back from a square equal to one modulo the prime `n`: either
/// `a^d ≡ 1` already, or some earlier square is `n - 1`.
proof fn lemma_first_square_root(n: nat, a: nat, d: nat, r: nat)
    requires
        crate::number_theory::is_prime(n),
        power(a, d * power(2, r)) % n == 1,
    ensures
        power(a, d) % n == 1 || exists|j: nat| j < r && #[trigger] power(a, d * power(2, j)) % n == n - 1,
    decreases r,
{
    lemma_power_small(2);
    if r == 0 {
        assert(d * 1 == d);
    } else {
        let j = (r - 1) as nat;
        let k = d * power(2, j);
        lemma_power_adds(2, j, 1);
        assert(d * power(2, r) == k + k) by (nonlinear_arith)
            requires
                k == d * power(2, j),
                power(2, r) == power(2, j) * 2,
        ;
        lemma_power_adds(a, k, k);
        let y = power(a, k) % n;
        vstd::arithmetic::div_mod::lemma_mul_mod_noop_general(power(a, k) as int, power(a, k) as int, n as int);
        assert((y * y) % n == 1);
        lemma_square_roots_of_one(n, y);
        if y == 1 {
            lemma_first_square_root(n, a, d, j);
        } else {
            assert(power(a, d * power(2, j)) % n == n - 1);
        }
    }
}

/// A prime has no base that proves it composite: the tester never calls a
/// prime composite.
pub proof fn lemma_prime_has_no_witness(n: nat, a: nat)
    requires
        crate::number_theory::is_prime(n),
    ensures
        !is_compositeness_witness(n, a),
{
    if 2 <= a && a <= n - 2 {
        vstd::arithmetic::div_mod::lemma_small_mod(a, n);
        lemma_fermat_little(n, a);
        let m = (n - 1) as nat;
        lemma_decomposition(m);
        lemma_first_square_root(n, a, odd_part(m), two_exponent(m));
    }
}

/// Splits `x` into `(d, s)` with `x == 2^s · d` and `d` odd.
pub fn decompose(x: &Natural) -> (r: (Natural, usize))
    requires
        x.wf(),
        x.value() > 0,
    ensures
        r.0.wf(),
        r.0.value() == odd_part(x.value()),
        r.1 == two_exponent(x.value()),
        r.0.value() % 2 == 1,
        x.value() == r.0.value() * power(2, r.1 as nat),
{
    let bits = x.bit_len();
    proof {
        lemma_two_exponent_bound(x.value());
        assert(power(2, 0) == 1);
    }
    let two = Natural::from_u64(2);
    let mut d = x.clone();
    let mut s: usize = 0;
    while !d.is_odd()
        invariant
            two.value() == 2,
            d.wf(),
            d.value() > 0,
            odd_part(d.value()) == odd_part(x.value()),
            s + two_exponent(d.value()) == two_exponent(x.value()),
            two_exponent(x.value()) <= bits,
            x.value() == d.value() * power(2, s as nat),
        decreases d.value(),
    {
        let (half, _) = d.div_rem(&two);
        proof {
            let v = d.value();
            assert(v == 2 * half.value() && half.value() > 0) by (nonlinear_arith)
                requires
                    v % 2 == 0,
                    v > 0,
                    half.value() == v / 2,
            ;
            lemma_power_adds(2, s as nat, 1);
            lemma_power_small(2);
            assert(v * power(2, s as nat) == half.value() * power(2, (s + 1) as nat))
                by (nonlinear_arith)
                requires
                    v == 2 * half.value(),
                    power(2, (s + 1) as nat) == power(2, s as nat) * 2,
            ;
        }
        d = half;
        s = s + 1;
    }
    (d, s)
}

/// Fermat's gate for one base: true when `base^(candidate-1) ≡ 1`.
pub fn fermat_check(candidate: &Natural, base: &Natural) -> (r: bool)
    requires
        candidate.wf(),
        candidate.value() >= 2,
    ensures
        r == !is_fermat_witness(candidate.value(), base.value()),
{
    let one = Natural::from_u64(1);
    let exponent = candidate.minus(&one);
    base.mod_pow(&exponent, candidate).equals(&one)
}

/// One Miller–Rabin round for one base, where `candidate - 1 == 2^s · d`:
/// true when the base does not prove the candidate composite.
pub fn miller_rabin_round(candidate: &Natural, base: &Natural, d: &Natural, s: usize) -> (r: bool)
    requires
        candidate.wf(),
        candidate.value() >= 2,
    ensures
        r == !is_miller_rabin_witness(candidate.value(), base.value(), d.value(), s as nat),
{
    let ghost n = candidate.value();
    let ghost a = base.value();
    let ghost dv = d.value();
    let one = Natural::from_u64(1);
    let two = Natural::from_u64(2);
    let last = candidate.minus(&one);
    let mut x = base.mod_pow(d, candidate);
    if x.equals(&one) {
        return true;
    }
    proof {
        assert(power(2, 0) == 1);
        assert(dv * power(2, 0) == dv);
    }
    let mut i: usize = 0;
    while i < s
        invariant
            n == candidate.value(),
            a == base.value(),
            dv == d.value(),
            n >= 2,
            one.value() == 1,
            two.value() == 2,
            last.value() == n - 1,
            i <= s,
            power(a, dv) % n != 1,
            x.value() == power(a, dv * power(2, i as nat)) % n,
            forall|r: nat| r < i ==> #[trigger] power(a, dv * power(2, r)) % n != n - 1,
        decreases s - i,
    {
        if x.equals(&last) {
            assert(power(a, dv * power(2, i as nat)) % n == n - 1);
            assert(!is_miller_rabin_witness(n, a, dv, s as nat));
            return true;
        }
        let next = x.mod_pow(&two, candidate);
        proof {
            let k = dv * power(2, i as nat);
            let y = power(a, k);
            lemma_power_small(x.value());
            vstd::arithmetic::div_mod::lemma_mul_mod_noop_general(y as int, y as int, n as int);
            lemma_power_adds(a, k, k);
            lemma_power_adds(2, i as nat, 1);
            lemma_power_small(2);
            assert(k + k == dv * power(2, (i + 1) as nat)) by (nonlinear_arith)
                requires
                    k == dv * power(2, i as nat),
                    power(2, (i + 1) as nat) == power(2, i as nat) * 2,
            ;
        }
        x = next;
        i = i + 1;
    }
    false
}

/// Base `a` in `[2, n-2]` passes Fermat's gate for `n`.
pub open spec fn fermat_passes(n: nat, a: nat) -> bool {
    2 <= a <= n - 2 && !is_fermat_witness(n, a)
}

/// Base `a` in `[2, n-2]` passes a Miller–Rabin round for `n`.
pub open spec fn miller_rabin_passes(n: nat, a: nat) -> bool {
    &&& 2 <= a <= n - 2
    &&& !is_miller_rabin_witness(n, a, odd_part((n - 1) as nat), two_exponent((n - 1) as nat))
}

/// What a `ProbablyPrime` verdict with `witnesses` Miller–Rabin rounds
/// tells of `n`: it is at least 2, and from 4 on some base passed Fermat's
/// gate and, when a round was run, some base passed a Miller–Rabin round.
pub open spec fn accepted_by_tester(n: nat, witnesses: nat) -> bool {
    &&& n >= 2
    &&& n >= 4 ==> exists|a: nat| #[trigger] fermat_passes(n, a)
    &&& n >= 4 && witnesses > 0 ==> exists|a: nat| #[trigger] miller_rabin_passes(n, a)
}

/// Tests `candidate` with a Fermat gate and then `witnesses` Miller–Rabin
/// rounds, each on a base drawn from `[2, candidate - 2]`. A composite
/// verdict always comes with a base that proves it, and a probably-prime
/// verdict with bases that passed both gates.
pub fn is_prime(rng: &mut StdRng, candidate: &Natural, witnesses: usize) -> (r: Primality)
    requires
        candidate.wf(),
    ensures
        candidate.value() < 2 ==> r == Primality::Composite,
        2 <= candidate.value() <= 3 ==> r == Primality::ProbablyPrime,
        r == Primality::Composite && candidate.value() >= 4 ==> exists|a: nat|
            is_compositeness_witness(candidate.value(), a),
        r == Primality::ProbablyPrime ==> accepted_by_tester(candidate.value(), witnesses as nat),
        crate::number_theory::is_prime(candidate.value()) ==> r == Primality::ProbablyPrime,
{
    let ghost n = candidate.value();
    let one = Natural::from_u64(1);
    let two = Natural::from_u64(2);
    let three = Natural::from_u64(3);
    if candidate.is_zero() || candidate.equals(&one) {
        return Primality::Composite;
    }
    proof {
        if crate::number_theory::is_prime(n) && n >= 4 {
            assert(forall|a: nat| !is_compositeness_witness(n, a)) by {
                assert forall|a: nat| !is_compositeness_witness(n, a) by {
                    lemma_prime_has_no_witness(n, a);
                }
            }
        }
    }
    if candidate.equals(&two) || candidate.equals(&three) {
        return Primality::ProbablyPrime;
    }
    let span = candidate.minus(&three);
    let base = Natural::random_below(rng, &span).plus(&two);
    if !fermat_check(candidate, &base) {
        assert(is_compositeness_witness(n, base.value()));
        proof {
            if crate::number_theory::is_prime(n) {
                lemma_prime_has_no_witness(n, base.value());
            }
        }
        return Primality::Composite;
    }
    assert(fermat_passes(n, base.value()));
    let (d, s) = decompose(&candidate.minus(&one));
    let mut k: usize = 0;
    while k < witnesses
        invariant
            n == candidate.value(),
            n >= 4,
            exists|a: nat| #[trigger] fermat_passes(n, a),
            k > 0 ==> exists|a: nat| #[trigger] miller_rabin_passes(n, a),
            span.value() == n - 3,
            two.value() == 2,
            d.value() == odd_part((n - 1) as nat),
            s == two_exponent((n - 1) as nat),
            candidate.wf(),
        decreases witnesses - k,
    {
        let base = Natural::random_below(rng, &span).plus(&two);
        if !miller_rabin_round(candidate, &base, &d, s) {
            assert(is_compositeness_witness(n, base.value()));
            proof {
                if crate::number_theory::is_prime(n) {
                    lemma_prime_has_no_witness(n, base.value());
                }
            }
            return Primality::Composite;
        }
        assert(miller_rabin_passes(n, base.value()));
        k = k + 1;
    }
    Primality::ProbablyPrime
}

proof fn lemma_small_primes()
    ensures
        crate::number_theory::is_prime(3),
        crate::number_theory::is_prime(5),
        crate::number_theory::is_prime(7),
{
    assert forall|d: nat| 1 < d < 3 implies #[trigger] (3nat % d) != 0 by {
        assert(d == 2);
    }
    assert forall|d: nat| 1 < d < 5 implies #[trigger] (5nat % d) != 0 by {
        assert(d == 2 || d == 3 || d == 4);
    }
    assert forall|d: nat| 1 < d < 7 implies #[trigger] (7nat % d) != 0 by {
        assert(d == 2 || d == 3 || d == 4 || d == 5 || d == 6);
    }
}

/// The candidate of `length` bits for a drawn `offset` below
/// `2^(length-1)`: `2^(length-1) + offset`, plus one when that is even.
pub fn candidate(length: usize, offset: &Natural) -> (r: Natural)
    requires
        length >= 2,
        offset.wf(),
        offset.value() < power(2, (length - 1) as nat),
    ensures
        r.wf(),
        r.value() == if (power(2, (length - 1) as nat) + offset.value()) % 2 == 0 {
            power(2, (length - 1) as nat) + offset.value() + 1
        } else {
            power(2, (length - 1) as nat) + offset.value()
        },
        power(2, (length - 1) as nat) <= r.value() < power(2, length as nat),
        r.value() % 2 == 1,
{
    let low = Natural::power_of_two(length - 1);
    let one = Natural::from_u64(1);
    proof {
        assert(power(2, length as nat) == 2 * power(2, (length - 1) as nat));
    }
    let c = low.plus(offset);
    if c.is_odd() {
        c
    } else {
        proof {
            let v = c.value();
            let h = low.value();
            assert(v + 1 < 2 * h) by (nonlinear_arith)
                requires
                    v < 2 * h,
                    v % 2 == 0,
            ;
        }
        c.plus(&one)
    }
}

/// Draws odd numbers of exactly `length` bits, uniformly from
/// `[2^(length-1), 2^length)` with the lowest bit then set, until one passes
/// the primality tester. Gives up, with `None`, only after `u64::MAX` draws.
pub fn generate(rng: &mut StdRng, length: usize) -> (r: Option<Natural>)
    requires
        length >= 2,
    ensures
        r matches Some(p) ==> {
            &&& p.wf()
            &&& power(2, (length - 1) as nat) <= p.value() < power(2, length as nat)
            &&& p.value() % 2 == 1
            &&& bit_length(p.value()) == length
            &&& accepted_by_tester(p.value(), WITNESSES as nat)
        },
        length <= 3 ==> r is Some,
{
    let low = Natural::power_of_two(length - 1);
    proof {
        lemma_power_positive(2, (length - 1) as nat);
        assert(power(2, length as nat) == 2 * power(2, (length - 1) as nat));
    }
    let mut attempts: u64 = 0;
    while attempts < u64::MAX
        invariant
            low.wf(),
            low.value() == power(2, (length - 1) as nat),
            low.value() > 0,
            length >= 2,
            power(2, length as nat) == 2 * low.value(),
            attempts > 0 ==> length > 3,
        decreases u64::MAX - attempts,
    {
        let offset = Natural::random_below(rng, &low);
        let c = candidate(length, &offset);
        proof {
            if length <= 3 {
                lemma_small_primes();
                reveal_with_fuel(power, 4);
                if length == 2 {
                    assert(c.value() == 3);
                } else {
                    assert(c.value() == 5 || c.value() == 7);
                }
            }
        }
        if is_prime(rng, &c, WITNESSES) == Primality::ProbablyPrime {
            proof {
                lemma_bit_length_range(c.value(), length as nat);
            }
            return Some(c);
        }
        attempts = attempts + 1;
    }
    None
}

} // verus!
