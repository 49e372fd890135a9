//! Divisibility facts behind RSA: Euclid's lemma, Fermat's little theorem
//! (through the binomial theorem), and the Chinese remainder step for two
//! distinct primes.

use vstd::prelude::*;
use vstd::arithmetic::div_mod::{
    lemma_fundamental_div_mod, lemma_mod_multiples_basic, lemma_small_mod, lemma_mul_mod_noop_general,
};
use crate::modulo::gcd;
use crate::natural::{power, lemma_power_adds, lemma_power_small};

verus! {

/// `p` is a prime number.
pub open spec fn is_prime(p: nat) -> bool {
    p > 1 && forall|d: nat| 1 < d < p ==> #[trigger] (p % d) != 0
}

/// `a = d·k + r` with `d | r` gives `d | a` (for `d > 0`).
proof fn lemma_divides_combination(a: int, d: int, k: int, r: int)
    requires
        d > 0,
        a == d * k + r,
        r % d == 0,
    ensures
        a % d == 0,
{
    lemma_fundamental_div_mod(r, d);
    let s = r / d;
    assert(a == d * (k + s)) by (nonlinear_arith)
        requires
            a == d * k + r,
            r == d * s + 0,
    ;
    assert(a == (k + s) * d) by (nonlinear_arith)
        requires
            a == d * (k + s),
    ;
    lemma_mod_multiples_basic(k + s, d);
}

/// `d | a` gives `d | a·b`.
proof fn lemma_divides_product(a: int, b: int, d: int)
    requires
        d > 0,
        a % d == 0,
    ensures
        (a * b) % d == 0,
{
    lemma_mul_mod_noop_general(a, b, d);
    assert((a % d) * b == 0);
    assert((0 * b) % d == 0) by (nonlinear_arith)
        requires
            d > 0,
    ;
}

/// The greatest common divisor divides both numbers.
proof fn lemma_gcd_divides(a: nat, b: nat)
    requires
        a > 0 || b > 0,
    ensures
        gcd(a, b) > 0,
        a % gcd(a, b) == 0,
        b % gcd(a, b) == 0,
    decreases b,
{
    crate::modulo::lemma_gcd_positive(a, b);
    if b == 0 {
        lemma_mod_multiples_basic(1, a as int);
        lemma_small_mod(0, a);
    } else {
        lemma_gcd_divides(b, a % b);
        let g = gcd(a, b);
        lemma_fundamental_div_mod(a as int, b as int);
        lemma_divides_product(b as int, (a / b) as int, g as int);
        assert(a as int == (b as int * (a / b) as int) + (a % b) as int);
        lemma_fundamental_div_mod((b * (a / b)) as int, g as int);
        let k = (b * (a / b)) / g;
        assert((b * (a / b)) as int == g * k);
        lemma_divides_combination(a as int, g as int, k as int, (a % b) as int);
    }
}

/// Bézout's identity: `a·x + b·y == gcd(a, b)` for some integers `x`, `y`.
proof fn lemma_bezout(a: nat, b: nat) -> (r: (int, int))
    ensures
        a * r.0 + b * r.1 == gcd(a, b),
    decreases b,
{
    if b == 0 {
        (1, 0)
    } else {
        let (x, y) = lemma_bezout(b, a % b);
        lemma_fundamental_div_mod(a as int, b as int);
        let q = (a / b) as int;
        assert(a * y + b * (x - q * y) == b * x + (a % b) * y) by (nonlinear_arith)
            requires
                a as int == b * q + (a % b) as int,
        ;
        (y, x - q * y)
    }
}

/// Euclid's lemma: a prime dividing a product divides a factor.
pub proof fn lemma_euclid(p: nat, a: nat, b: nat)
    requires
        is_prime(p),
        (a * b) % p == 0,
    ensures
        a % p == 0 || b % p == 0,
{
    if a % p != 0 {
        lemma_gcd_divides(p, a);
        let g = gcd(p, a);
        if g > p {
            lemma_small_mod(p, g);
        }
        if 1 < g < p {
            assert(p % g != 0);
        }
        if g == p {
            assert(a % p == 0);
        }
        assert(g == 1);
        let (x, y) = lemma_bezout(p, a);
        // b = p·(x·b) + (a·b)·y
        assert(b as int == p * (x * b) + (a * b) * y) by (nonlinear_arith)
            requires
                p * x + a * y == 1,
        ;
        lemma_divides_product((a * b) as int, y, p as int);
        lemma_divides_combination(b as int, p as int, x * b, (a * b) * y);
    }
}

/// Binomial coefficients, by Pascal's rule.
pub open spec fn binom(n: nat, k: nat) -> nat
    decreases n,
{
    if k == 0 {
        1
    } else if n == 0 {
        0
    } else {
        binom((n - 1) as nat, (k - 1) as nat) + binom((n - 1) as nat, k)
    }
}

/// `Σ binom(n, k)·x^k` over `k < m`.
pub open spec fn binom_sum(n: nat, x: nat, m: nat) -> nat
    decreases m,
{
    if m == 0 {
        0
    } else {
        binom_sum(n, x, (m - 1) as nat) + binom(n, (m - 1) as nat) * power(x, (m - 1) as nat)
    }
}

proof fn lemma_binom_zero_above(n: nat, k: nat)
    requires
        k > n,
    ensures
        binom(n, k) == 0,
    decreases n,
{
    if n > 0 {
        lemma_binom_zero_above((n - 1) as nat, (k - 1) as nat);
        lemma_binom_zero_above((n - 1) as nat, k);
    }
}

proof fn lemma_binom_diagonal(n: nat)
    ensures
        binom(n, n) == 1,
    decreases n,
{
    if n > 0 {
        lemma_binom_diagonal((n - 1) as nat);
        lemma_binom_zero_above((n - 1) as nat, n);
    }
}

proof fn lemma_binom_one(n: nat)
    ensures
        binom(n, 1) == n,
    decreases n,
{
    if n > 0 {
        lemma_binom_one((n - 1) as nat);
        assert(binom(n, 1) == binom((n - 1) as nat, 0) + binom((n - 1) as nat, 1));
        assert(binom((n - 1) as nat, 0) == 1);
    }
}

/// Pascal's rule applied to the partial sums.
proof fn lemma_binom_sum_step(n: nat, x: nat, m: nat)
    ensures
        binom_sum(n + 1, x, m + 1) == binom_sum(n, x, m + 1) + x * binom_sum(n, x, m),
    decreases m,
{
    lemma_power_small(x);
    if m == 0 {
        assert(binom_sum(n + 1, x, 1) == binom_sum(n + 1, x, 0) + binom(n + 1, 0) * power(x, 0));
        assert(binom_sum(n, x, 1) == binom_sum(n, x, 0) + binom(n, 0) * power(x, 0));
        assert(binom_sum(n, x, 0) == 0);
        assert(binom_sum(n + 1, x, 0) == 0);
        assert(x * 0 == 0);
        assert(binom_sum(n + 1, x, m + 1) == 1);
        assert(binom_sum(n, x, m + 1) == 1);
        assert(binom_sum(n, x, m) == 0);
    } else {
        lemma_binom_sum_step(n, x, (m - 1) as nat);
        let k = (m - 1) as nat;
        let a = binom_sum(n + 1, x, m);
        let b1 = binom_sum(n, x, m);
        let b0 = binom_sum(n, x, k);
        let pk = power(x, k);
        let pm = power(x, m);
        assert(pm == x * pk);
        assert(binom(n + 1, m) == binom(n, k) + binom(n, m));
        assert(binom_sum(n + 1, x, m + 1) == a + binom(n + 1, m) * pm);
        assert(binom_sum(n, x, m + 1) == b1 + binom(n, m) * pm);
        assert(b1 == b0 + binom(n, k) * pk);
        assert(a == b1 + x * b0);
        assert(a + (binom(n, k) + binom(n, m)) * pm == (b1 + binom(n, m) * pm) + x * (b0 + binom(n, k) * pk))
            by (nonlinear_arith)
            requires
                a == b1 + x * b0,
                pm == x * pk,
        ;
        assert(x * b1 == x * (b0 + binom(n, k) * pk));
        assert(binom_sum(n + 1, x, m + 1) == binom_sum(n, x, m + 1) + x * binom_sum(n, x, m));
    }
}

/// The binomial theorem: `(x + 1)^n == Σ binom(n, k)·x^k` over `k ≤ n`.
proof fn lemma_binomial_theorem(n: nat, x: nat)
    ensures
        power(x + 1, n) == binom_sum(n, x, n + 1),
    decreases n,
{
    lemma_power_small(x);
    lemma_power_small(x + 1);
    if n == 0 {
        assert(binom_sum(0, x, 1) == binom_sum(0, x, 0) + binom(0, 0) * power(x, 0));
        assert(binom_sum(0, x, 0) == 0);
    } else {
        let k = (n - 1) as nat;
        assert(k + 1 == n);
        lemma_binomial_theorem(k, x);
        lemma_binom_sum_step(k, x, n);
        lemma_binom_zero_above(k, n);
        let s = binom_sum(k, x, n);
        assert(binom_sum(k, x, n + 1) == s + binom(k, n) * power(x, n));
        assert(power(x + 1, n) == (x + 1) * power(x + 1, k));
        assert((x + 1) * s == s + x * s) by (nonlinear_arith);
        assert(binom_sum(n, x, n + 1) == binom_sum(k, x, n + 1) + x * binom_sum(k, x, n));
        assert(binom(k, n) * power(x, n) == 0);
    }
}

/// Absorption: `k·binom(n, k) == n·binom(n-1, k-1)`.
proof fn lemma_binom_absorption(n: nat, k: nat)
    requires
        n >= 1,
        k >= 1,
    ensures
        k * binom(n, k) == n * binom((n - 1) as nat, (k - 1) as nat),
    decreases n,
{
    if k == 1 {
        lemma_binom_one(n);
        assert(binom((n - 1) as nat, 0) == 1);
    } else if n == 1 {
        lemma_binom_zero_above(1, k);
        lemma_binom_zero_above(0, (k - 1) as nat);
        assert(k * 0 == 0);
    } else {
        let n1 = (n - 1) as nat;
        let k1 = (k - 1) as nat;
        lemma_binom_absorption(n1, k);
        lemma_binom_absorption(n1, k1);
        let c1 = binom(n1, k1);
        let c2 = binom(n1, k);
        assert(binom(n, k) == c1 + c2);
        assert(binom(n1, k1) == binom((n1 - 1) as nat, (k1 - 1) as nat) + binom((n1 - 1) as nat, k1));
        assert(k * (c1 + c2) == n * c1) by (nonlinear_arith)
            requires
                k * c2 == n1 * binom((n1 - 1) as nat, k1),
                k1 * c1 == n1 * binom((n1 - 1) as nat, (k1 - 1) as nat),
                c1 == binom((n1 - 1) as nat, (k1 - 1) as nat) + binom((n1 - 1) as nat, k1),
                n1 == n - 1,
                k1 == k - 1,
        ;
        assert(k * binom(n, k) == k * (c1 + c2));
    }
}

/// A prime divides every binomial coefficient strictly inside its row.
proof fn lemma_prime_divides_binom(p: nat, k: nat)
    requires
        is_prime(p),
        0 < k < p,
    ensures
        binom(p, k) % p == 0,
{
    lemma_binom_absorption(p, k);
    let c = binom((p - 1) as nat, (k - 1) as nat);
    assert(p * c == c * p) by (nonlinear_arith);
    lemma_mod_multiples_basic(c as int, p as int);
    lemma_euclid(p, k, binom(p, k));
    lemma_small_mod(k, p);
}

/// The inner terms of row `p` of the binomial sum vanish modulo `p`.
proof fn lemma_binom_sum_mod_prime(p: nat, x: nat, m: nat)
    requires
        is_prime(p),
        1 <= m <= p,
    ensures
        binom_sum(p, x, m) % p == 1,
    decreases m,
{
    lemma_power_small(x);
    if m == 1 {
        assert(binom_sum(p, x, 0) == 0);
        lemma_small_mod(1, p);
    } else {
        let k = (m - 1) as nat;
        lemma_binom_sum_mod_prime(p, x, k);
        lemma_prime_divides_binom(p, k);
        lemma_divides_product(binom(p, k) as int, power(x, k) as int, p as int);
        let t = binom(p, k) * power(x, k);
        lemma_fundamental_div_mod(binom_sum(p, x, k) as int, p as int);
        lemma_fundamental_div_mod(t as int, p as int);
        let q1 = binom_sum(p, x, k) / p;
        let q2 = t / p;
        assert(binom_sum(p, x, m) == p * (q1 + q2) + 1) by (nonlinear_arith)
            requires
                binom_sum(p, x, m) == binom_sum(p, x, k) + t,
                binom_sum(p, x, k) == p * q1 + 1,
                t == p * q2 + 0,
        ;
        assert(binom_sum(p, x, m) == (q1 + q2) * p + 1) by (nonlinear_arith)
            requires
                binom_sum(p, x, m) == p * (q1 + q2) + 1,
        ;
        vstd::arithmetic::div_mod::lemma_mod_multiples_vanish((q1 + q2) as int, 1, p as int);
        lemma_small_mod(1, p);
    }
}

/// `x^p ≡ x (mod p)` for a prime `p`.
pub proof fn lemma_fermat_power(p: nat, x: nat)
    requires
        is_prime(p),
    ensures
        power(x, p) % p == x % p,
    decreases x,
{
    if x == 0 {
        lemma_zero_power(p);
    } else {
        let y = (x - 1) as nat;
        lemma_fermat_power(p, y);
        lemma_binomial_theorem(p, y);
        lemma_binom_diagonal(p);
        lemma_binom_sum_mod_prime(p, y, p);
        let s = binom_sum(p, y, p);
        assert(power(x, p) == s + power(y, p));
        vstd::arithmetic::div_mod::lemma_add_mod_noop(s as int, power(y, p) as int, p as int);
        vstd::arithmetic::div_mod::lemma_add_mod_noop(1, y as int, p as int);
        lemma_small_mod(1, p);
    }
}

proof fn lemma_zero_power(e: nat)
    requires
        e > 0,
    ensures
        power(0, e) == 0,
{
}

/// Fermat's little theorem: `a^(p-1) ≡ 1 (mod p)` for a prime `p` not
/// dividing `a`.
pub proof fn lemma_fermat_little(p: nat, a: nat)
    requires
        is_prime(p),
        a % p != 0,
    ensures
        power(a, (p - 1) as nat) % p == 1,
{
    lemma_fermat_power(p, a);
    let t = power(a, (p - 1) as nat);
    assert(power(a, p) == a * t);
    assert(a > 0) by {
        if a == 0 {
            lemma_small_mod(0, p);
        }
    }
    crate::natural::lemma_power_positive(a, (p - 1) as nat);
    // p | a·t − a = a·(t − 1)
    let at: int = (a * t) as int;
    assert(at % (p as int) == (a as int) % (p as int));
    vstd::arithmetic::div_mod::lemma_sub_mod_noop(at, a as int, p as int);
    assert((at % (p as int)) - ((a as int) % (p as int)) == 0);
    assert(0int % (p as int) == 0);
    assert((at - a as int) % (p as int) == 0);
    assert((a * (t - 1)) as int == at - a as int) by (nonlinear_arith)
        requires
            t >= 1,
            at == a * t,
    ;
    lemma_euclid(p, a, (t - 1) as nat);
    lemma_fundamental_div_mod((t - 1) as int, p as int);
    let q = (t - 1) as int / p as int;
    assert(t as int == q * p + 1) by (nonlinear_arith)
        requires
            (t - 1) as int == p * q + 0,
            t >= 1,
    ;
    vstd::arithmetic::div_mod::lemma_mod_multiples_vanish(q as int, 1, p as int);
    lemma_small_mod(1, p);
}

/// Reducing the base first does not change a power modulo `m`.
pub proof fn lemma_power_mod_base(b: nat, e: nat, m: nat)
    requires
        m > 0,
    ensures
        power(b % m, e) % m == power(b, e) % m,
    decreases e,
{
    if e > 0 {
        let k = (e - 1) as nat;
        lemma_power_mod_base(b, k, m);
        let r = b % m;
        assert(power(r, e) == r * power(r, k));
        assert(power(b, e) == b * power(b, k));
        lemma_mul_mod_noop_general(r as int, power(r, k) as int, m as int);
        lemma_mul_mod_noop_general(b as int, power(b, k) as int, m as int);
        vstd::arithmetic::div_mod::lemma_mod_twice(b as int, m as int);
    }
}

/// `b^(e1·e2) == (b^e1)^e2`.
pub proof fn lemma_power_multiplies(b: nat, e1: nat, e2: nat)
    ensures
        power(b, e1 * e2) == power(power(b, e1), e2),
    decreases e2,
{
    if e2 == 0 {
        assert(e1 * 0 == 0);
    } else {
        let k = (e2 - 1) as nat;
        lemma_power_multiplies(b, e1, k);
        assert(e1 * e2 == e1 * k + e1) by (nonlinear_arith)
            requires
                k == e2 - 1,
        ;
        lemma_power_adds(b, e1 * k, e1);
        assert(power(power(b, e1), e2) == power(b, e1) * power(power(b, e1), k));
        assert(power(b, e1 * k) * power(b, e1) == power(b, e1) * power(b, e1 * k)) by (nonlinear_arith);
    }
}

proof fn lemma_power_of_one(e: nat)
    ensures
        power(1, e) == 1,
    decreases e,
{
    if e > 0 {
        lemma_power_of_one((e - 1) as nat);
    }
}

/// With `e·d = 1 + k·(p-1)·(q-1)`, `m^(e·d) ≡ m` modulo the prime `p`.
proof fn lemma_power_returns_mod_prime(p: nat, q: nat, m: nat, k: nat, ed: nat)
    requires
        is_prime(p),
        q >= 1,
        ed == 1 + k * ((p - 1) * (q - 1)),
    ensures
        power(m, ed) % p == m % p,
{
    let j = (k * (q - 1)) as nat;
    assert(ed == 1 + (p - 1) * j) by (nonlinear_arith)
        requires
            ed == 1 + k * ((p - 1) * (q - 1)),
            j == k * (q - 1),
    ;
    lemma_power_adds(m, 1, ((p - 1) * j) as nat);
    lemma_power_small(m);
    let y = power(m, ((p - 1) * j) as nat);
    assert(power(m, ed) == m * y);
    if m % p == 0 {
        lemma_divides_product(m as int, y as int, p as int);
    } else {
        lemma_fermat_little(p, m);
        lemma_power_multiplies(m, (p - 1) as nat, j);
        lemma_power_mod_base(power(m, (p - 1) as nat), j, p);
        lemma_power_of_one(j);
        lemma_small_mod(1, p);
        assert(y % p == 1);
        lemma_mul_mod_noop_general(m as int, y as int, p as int);
        assert((m % p) * 1 == m % p);
        vstd::arithmetic::div_mod::lemma_mod_twice(m as int, p as int);
    }
}

/// A number that two distinct primes divide is divisible by their product.
proof fn lemma_two_primes_divide(p: nat, q: nat, z: nat)
    requires
        is_prime(p),
        is_prime(q),
        p != q,
        z % p == 0,
        z % q == 0,
    ensures
        z % (p * q) == 0,
{
    lemma_fundamental_div_mod(z as int, p as int);
    let s = z / p;
    assert(z == p * s);
    assert((p * s) % q == 0);
    lemma_euclid(q, p, s);
    if p % q == 0 {
        if p < q {
            lemma_small_mod(p, q);
        } else {
            assert(1 < q < p);
        }
    }
    lemma_fundamental_div_mod(s as int, q as int);
    let u = s / q;
    assert(z == (p * q) * u) by (nonlinear_arith)
        requires
            z == p * s,
            s == q * u,
    ;
    assert(z == u * (p * q)) by (nonlinear_arith)
        requires
            z == (p * q) * u,
    ;
    assert(p * q > 0) by (nonlinear_arith)
        requires
            p > 1,
            q > 1,
    ;
    lemma_mod_multiples_basic(u as int, (p * q) as int);
}

/// RSA correctness: for distinct primes `p`, `q` and exponents with
/// `e·d ≡ 1 (mod (p-1)(q-1))`, raising any `m < p·q` to `e` and then to `d`
/// modulo `p·q` gives `m` back.
pub proof fn lemma_rsa_inverts(p: nat, q: nat, e: nat, d: nat, m: nat)
    requires
        is_prime(p),
        is_prime(q),
        p != q,
        (e * d) % ((p - 1) * (q - 1)) as nat == 1nat % ((p - 1) * (q - 1)) as nat,
        m < p * q,
    ensures
        power(power(m, e) % (p * q), d) % (p * q) == m,
{
    let n = p * q;
    let phi = ((p - 1) * (q - 1)) as nat;
    assert(n > 0) by (nonlinear_arith)
        requires
            p > 1,
            q > 1,
            n == p * q,
    ;
    assert(phi >= 2) by {
        assert(phi >= 1) by (nonlinear_arith)
            requires
                p >= 2,
                q >= 2,
                phi == (p - 1) * (q - 1),
        ;
        if phi == 1 {
            assert(p - 1 == 1 && q - 1 == 1) by (nonlinear_arith)
                requires
                    p >= 2,
                    q >= 2,
                    (p - 1) * (q - 1) == 1,
            ;
        }
    }
    lemma_small_mod(1, phi);
    let ed = e * d;
    lemma_fundamental_div_mod(ed as int, phi as int);
    let k = ed / phi;
    assert(ed == 1 + k * phi) by (nonlinear_arith)
        requires
            ed == phi * k + 1,
    ;
    lemma_power_mod_base(power(m, e), d, n);
    lemma_power_multiplies(m, e, d);
    let x = power(m, ed);
    lemma_power_returns_mod_prime(p, q, m, k, ed);
    assert(ed == 1 + k * ((q - 1) * (p - 1))) by (nonlinear_arith)
        requires
            ed == 1 + k * phi,
            phi == (p - 1) * (q - 1),
    ;
    lemma_power_returns_mod_prime(q, p, m, k, ed);
    // x ≥ m, and x − m is divisible by p and by q
    if m > 0 {
        crate::natural::lemma_power_monotone(m, 1, ed);
        lemma_power_small(m);
    } else {
        assert(ed >= 1);
        assert(power(0, ed) == 0 * power(0, (ed - 1) as nat));
    }
    assert(x >= m);
    let z = (x - m) as nat;
    vstd::arithmetic::div_mod::lemma_sub_mod_noop(x as int, m as int, p as int);
    vstd::arithmetic::div_mod::lemma_sub_mod_noop(x as int, m as int, q as int);
    assert(0int % (p as int) == 0 && 0int % (q as int) == 0);
    lemma_two_primes_divide(p, q, z);
    lemma_fundamental_div_mod(z as int, n as int);
    let w = z / n;
    assert(x == w * n + m);
    vstd::arithmetic::div_mod::lemma_mod_multiples_vanish(w as int, m as int, n as int);
    lemma_small_mod(m, n);
}

/// The square roots of one modulo a prime are `1` and `p - 1`.
pub proof fn lemma_square_roots_of_one(p: nat, x: nat)
    requires
        is_prime(p),
        x < p,
        (x * x) % p == 1,
    ensures
        x == 1 || x == p - 1,
{
    if x == 0 {
        lemma_small_mod(0, p);
    } else {
        // p | x·x − 1 = (x − 1)(x + 1)
        vstd::arithmetic::div_mod::lemma_sub_mod_noop((x * x) as int, 1, p as int);
        lemma_small_mod(1, p);
        assert(((x * x) as int - 1) % (p as int) == 0) by {
            assert(0int % (p as int) == 0);
        }
        assert(((x - 1) * (x + 1)) as int == (x * x) as int - 1) by (nonlinear_arith)
            requires
                x >= 1,
        ;
        lemma_euclid(p, (x - 1) as nat, x + 1);
        if (x - 1) as nat % p == 0 {
            lemma_small_mod((x - 1) as nat, p);
        } else {
            if x + 1 < p {
                lemma_small_mod(x + 1, p);
            }
        }
    }
}

} // verus!
