//! RSA key pairs and the block codec that encrypts and decrypts with them.
//!
//! Plaintext is cut into blocks one byte shorter than the modulus can hold,
//! so that every block read as a little-endian number lies below the
//! modulus; ciphertext blocks are exactly as wide as the modulus. Decrypted
//! blocks are written without their most significant zero bytes, so a
//! plaintext block that ends in zero bytes does not come back whole. This
//! is no padding scheme such as OAEP or PKCS#1.

use vstd::prelude::*;
use rand::rngs::StdRng;
use crate::entropy;
use crate::modulo::{find_inverse_in_modulo_ring, gcd, greatest_common_divisor, is_inverse_mod, InversionError};
use crate::natural::{
    Natural, le_value, to_le_fixed, to_le_min, power, bit_length, is_canonical,
    lemma_bit_length_bounds, lemma_bits_to_bytes, lemma_power_monotone, lemma_fixed_digits_value,
    lemma_canonical_digits, lemma_le_value_bound,
};
use crate::number_theory::{is_prime, lemma_rsa_inverts};
use crate::primes;
use crate::primes::{accepted_by_tester, WITNESSES};

verus! {

/// Bytes per plaintext block for a modulus of `bits` bits:
/// `floor(bits / 8 - 0.1)`, one byte short of what the modulus holds.
pub open spec fn plain_block_len(bits: nat) -> nat {
    if bits == 0 {
        0
    } else if bits % 8 == 0 {
        (bits / 8 - 1) as nat
    } else {
        bits / 8
    }
}

/// Bytes per ciphertext block for a modulus of `bits` bits: `ceil(bits / 8)`.
pub open spec fn cipher_block_len(bits: nat) -> nat {
    if bits % 8 == 0 {
        bits / 8
    } else {
        bits / 8 + 1
    }
}

/// The residue of a block read as a little-endian number, raised to `e`
/// modulo `n`.
pub open spec fn block_residue(block: Seq<u8>, e: nat, n: nat) -> nat {
    power(le_value(block), e) % n
}

/// Encryption: `m` cut into blocks of `size` bytes (the last may be
/// shorter), each replaced by its residue written in `width` bytes.
pub open spec fn encrypt_blocks(m: Seq<u8>, e: nat, n: nat, size: nat, width: nat) -> Seq<u8>
    decreases m.len(),
{
    if m.len() == 0 || size == 0 {
        seq![]
    } else {
        let k = if m.len() < size { m.len() } else { size };
        to_le_fixed(block_residue(m.take(k as int), e, n), width)
            + encrypt_blocks(m.skip(k as int), e, n, size, width)
    }
}

/// Decryption: `c` cut into blocks of `width` bytes, each replaced by its
/// residue written without most significant zero bytes.
pub open spec fn decrypt_blocks(c: Seq<u8>, d: nat, n: nat, width: nat) -> Seq<u8>
    decreases c.len(),
{
    if c.len() == 0 || width == 0 {
        seq![]
    } else {
        let k = if c.len() < width { c.len() } else { width };
        to_le_min(block_residue(c.take(k as int), d, n)) + decrypt_blocks(c.skip(k as int), d, n, width)
    }
}

/// Raising to `e` and then to `d` modulo `n` gives back every residue.
pub open spec fn exponents_invert(e: nat, d: nat, n: nat) -> bool {
    forall|x: nat| x < n ==> #[trigger] (power(power(x, e) % n, d) % n) == x
}

/// The failure of a decryption.
#[derive(Clone, Copy, Debug, PartialEq, Eq)]
pub enum DecryptionError {
    /// The ciphertext is not a whole number of blocks.
    MalformedCiphertext,
}

/// The shareable half of a key pair: exponent `e` and modulus `n`.
#[derive(Debug)]
pub struct PublicKey {
    exponent: Natural,
    module: Natural,
}

/// The secret half of a key pair: exponent `d` and modulus `n`.
#[derive(Debug)]
pub struct PrivateKey {
    exponent: Natural,
    module: Natural,
}

/// Cuts `message` into blocks of `size` bytes and replaces each by its
/// residue under `exponent` modulo `module`, written in `width` bytes when
/// `fixed`, else in as few bytes as it needs.
fn apply_blocks(message: &[u8], exponent: &Natural, module: &Natural, size: usize, width: usize, fixed: bool)
    -> (r: Vec<u8>)
    requires
        exponent.wf(),
        module.wf(),
        module.value() > 0,
        size > 0,
        fixed ==> module.value() <= power(256, width as nat),
        !fixed ==> size == width,
    ensures
        fixed ==> r@ == encrypt_blocks(message@, exponent.value(), module.value(), size as nat, width as nat),
        !fixed ==> r@ == decrypt_blocks(message@, exponent.value(), module.value(), width as nat),
{
    let ghost e = exponent.value();
    let ghost n = module.value();
    let mut out: Vec<u8> = Vec::new();
    let mut i: usize = 0;
    proof {
        assert(message@.skip(0) =~= message@);
        assert(out@ + message@.skip(0) =~= message@.skip(0));
    }
    while i < message.len()
        invariant
            e == exponent.value(),
            n == module.value(),
            exponent.wf(),
            module.wf(),
            n > 0,
            size > 0,
            fixed ==> n <= power(256, width as nat),
            !fixed ==> size == width,
            i <= message@.len(),
            fixed ==> out@ + encrypt_blocks(message@.skip(i as int), e, n, size as nat, width as nat)
                == encrypt_blocks(message@, e, n, size as nat, width as nat),
            !fixed ==> out@ + decrypt_blocks(message@.skip(i as int), e, n, width as nat)
                == decrypt_blocks(message@, e, n, width as nat),
        decreases message@.len() - i,
    {
        let end: usize = if message.len() - i < size { message.len() } else { i + size };
        let block = Natural::from_le_bytes(&message[i..end]);
        let residue = block.mod_pow(exponent, module);
        let mut bytes = if fixed {
            residue.to_le_bytes_padded(width)
        } else {
            residue.to_le_bytes()
        };
        proof {
            let rest = message@.skip(i as int);
            let k = (end - i) as int;
            assert(message@.subrange(i as int, end as int) =~= rest.take(k));
            assert(rest.skip(k) =~= message@.skip(end as int));
            assert(residue.value() == block_residue(rest.take(k), e, n));
        }
        let ghost before = out@;
        out.append(&mut bytes);
        proof {
            let rest = message@.skip(i as int);
            if fixed {
                assert(out@ + encrypt_blocks(message@.skip(end as int), e, n, size as nat, width as nat)
                    =~= before + encrypt_blocks(rest, e, n, size as nat, width as nat));
            } else {
                assert(out@ + decrypt_blocks(message@.skip(end as int), e, n, width as nat)
                    =~= before + decrypt_blocks(rest, e, n, width as nat));
            }
        }
        i = end;
    }
    proof {
        assert(message@.skip(i as int) =~= Seq::<u8>::empty());
        assert(out@ + Seq::<u8>::empty() =~= out@);
    }
    out
}

impl PublicKey {
    /// A well-formed key has a positive modulus.
    pub proof fn lemma_modulus_positive(&self)
        requires
            self.wf(),
        ensures
            self.n() > 0,
    {
    }

    pub closed spec fn e(&self) -> nat {
        self.exponent.value()
    }

    pub closed spec fn n(&self) -> nat {
        self.module.value()
    }

    pub closed spec fn wf(&self) -> bool {
        self.exponent.wf() && self.module.wf() && self.module.value() > 0
    }

    /// Encrypts `message` block by block, each plaintext block of
    /// `plain_block_len` bytes becoming a ciphertext block of
    /// `cipher_block_len` bytes. A modulus under 256 leaves no room for a
    /// plaintext byte.
    pub fn encrypt(&self, message: &[u8]) -> (r: Vec<u8>)
        requires
            self.wf(),
            self.n() >= 256,
        ensures
            r@ == encrypt_blocks(
                message@,
                self.e(),
                self.n(),
                plain_block_len(bit_length(self.n())),
                cipher_block_len(bit_length(self.n())),
            ),
    {
        let bits = self.module.bit_len();
        let size: usize = if bits % 8 == 0 { bits / 8 - 1 } else { bits / 8 };
        let width: usize = if bits % 8 == 0 { bits / 8 } else { bits / 8 + 1 };
        proof {
            let n = self.n();
            lemma_bit_length_bounds(n);
            if bits < 9 {
                lemma_power_monotone(2, bits as nat, 8);
                reveal_with_fuel(power, 9);
            }
            lemma_power_monotone(2, bits as nat, 8 * width as nat);
            lemma_bits_to_bytes(width as nat);
        }
        apply_blocks(message, &self.exponent, &self.module, size, width, true)
    }
}

impl PrivateKey {
    /// A well-formed key has a positive modulus.
    pub proof fn lemma_modulus_positive(&self)
        requires
            self.wf(),
        ensures
            self.n() > 0,
    {
    }

    pub closed spec fn d(&self) -> nat {
        self.exponent.value()
    }

    pub closed spec fn n(&self) -> nat {
        self.module.value()
    }

    pub closed spec fn wf(&self) -> bool {
        self.exponent.wf() && self.module.wf() && self.module.value() > 0
    }

    /// Decrypts `message` block by block; it must be a whole number of
    /// `cipher_block_len` byte blocks.
    pub fn decrypt(&self, message: &[u8]) -> (r: Result<Vec<u8>, DecryptionError>)
        requires
            self.wf(),
        ensures
            message@.len() % cipher_block_len(bit_length(self.n())) == 0 <==> r is Ok,
            r matches Ok(plain) ==> plain@ == decrypt_blocks(
                message@,
                self.d(),
                self.n(),
                cipher_block_len(bit_length(self.n())),
            ),
            r matches Err(e) ==> e == DecryptionError::MalformedCiphertext,
            message@.len() == 0 ==> (r matches Ok(plain) && plain@.len() == 0),
    {
        let bits = self.module.bit_len();
        let width: usize = if bits % 8 == 0 { bits / 8 } else { bits / 8 + 1 };
        proof {
            lemma_bit_length_bounds(self.n());
            if bits == 0 {
                assert(power(2, 0) == 1);
            }
            assert(width > 0);
            assert(0usize % width == 0);
        }
        if message.len() % width != 0 {
            return Err(DecryptionError::MalformedCiphertext);
        }
        Ok(apply_blocks(message, &self.exponent, &self.module, width, width, false))
    }
}

/// `e` and `d` with modulus `n` form a key pair built from the primes `p`
/// and `q` of `length` bits, both accepted by the primality tester:
/// `n == p·q`, `e` is drawn below the totient
/// `φ = (p-1)(q-1)` and coprime to it, and `d` is its inverse modulo `φ`.
pub open spec fn is_key_pair_of(p: nat, q: nat, length: nat, e: nat, d: nat, n: nat) -> bool {
    let phi = ((p - 1) * (q - 1)) as nat;
    &&& bit_length(p) == length && p % 2 == 1
    &&& bit_length(q) == length && q % 2 == 1
    &&& accepted_by_tester(p, WITNESSES as nat) && accepted_by_tester(q, WITNESSES as nat)
    &&& n == p * q
    &&& e < phi
    &&& gcd(phi, e) == 1
    &&& is_inverse_mod(e, d, phi)
}

/// The key pair of the primes `p` and `q` and the public exponent `e`:
/// modulus `n = p·q` and private exponent the inverse of `e` modulo
/// `φ = (p-1)(q-1)`, refused when `e` is not coprime to `φ`.
pub fn key_pair_from(p: &Natural, q: &Natural, e: &Natural) -> (r: Result<(PublicKey, PrivateKey), InversionError>)
    requires
        p.wf(),
        q.wf(),
        e.wf(),
        p.value() >= 2,
        q.value() >= 2,
    ensures
        r is Ok <==> gcd(((p.value() - 1) * (q.value() - 1)) as nat, e.value()) == 1,
        r matches Ok((public, private)) ==> {
            &&& public.wf() && private.wf()
            &&& public.n() == p.value() * q.value()
            &&& private.n() == public.n()
            &&& public.e() == e.value()
            &&& is_inverse_mod(e.value(), private.d(), ((p.value() - 1) * (q.value() - 1)) as nat)
        },
        r matches Err(err) ==> err == InversionError::NonCoprimes,
{
    let one = Natural::from_u64(1);
    let n = p.times(q);
    let p1 = p.minus(&one);
    let q1 = q.minus(&one);
    let phi = p1.times(&q1);
    proof {
        assert(n.value() > 0 && phi.value() > 0) by (nonlinear_arith)
            requires
                p.value() >= 2,
                q.value() >= 2,
                p1.value() == p.value() - 1,
                q1.value() == q.value() - 1,
                n.value() == p.value() * q.value(),
                phi.value() == p1.value() * q1.value(),
        ;
        assert(gcd(phi.value(), 0) == phi.value());
    }
    if e.is_zero() && !phi.equals(&one) {
        return Err(InversionError::NonCoprimes);
    }
    match find_inverse_in_modulo_ring(e, &phi) {
        Ok(d) => {
            proof {
                if e.value() == 0 {
                    assert(phi.value() == 1);
                    assert((0nat * 0nat) % 1nat == 1nat % 1nat);
                }
            }
            Ok((PublicKey { exponent: e.clone(), module: n.clone() }, PrivateKey { exponent: d, module: n }))
        },
        Err(err) => Err(err),
    }
}

/// Draws numbers uniformly from `[0, target)` until one is coprime to
/// `target`. Gives up, with `None`, only after `u64::MAX` draws.
pub fn generate_coprime_to(rng: &mut StdRng, target: &Natural) -> (r: Option<Natural>)
    requires
        target.wf(),
        target.value() > 0,
    ensures
        r matches Some(e) ==> e.wf() && e.value() < target.value() && gcd(target.value(), e.value()) == 1,
        target.value() == 1 ==> (r matches Some(e) && e.value() == 0),
{
    let one = Natural::from_u64(1);
    let mut attempts: u64 = 0;
    while attempts < u64::MAX
        invariant
            target.wf(),
            target.value() > 0,
            one.value() == 1,
            attempts > 0 ==> target.value() > 1,
        decreases u64::MAX - attempts,
    {
        let candidate = Natural::random_below(rng, target);
        proof {
            if target.value() == 1 {
                assert(gcd(1, 0) == 1);
            }
        }
        if greatest_common_divisor(target, &candidate).equals(&one) {
            return Some(candidate);
        }
        attempts = attempts + 1;
    }
    None
}

/// Generates a key pair from two primes of `length` bits drawn from `rng`.
/// Gives up, with `None`, only when a random search runs out of draws.
pub fn generate_key_pair_with(rng: &mut StdRng, length: usize) -> (r: Option<(PublicKey, PrivateKey)>)
    requires
        length >= 2,
    ensures
        r matches Some((public, private)) ==> {
            &&& public.wf() && private.wf()
            &&& public.n() == private.n()
            &&& length >= 5 ==> public.n() >= 256
            &&& exists|p: nat, q: nat|
                is_key_pair_of(p, q, length as nat, public.e(), private.d(), public.n())
        },
{
    let p = match primes::generate(rng, length) {
        Some(p) => p,
        None => return None,
    };
    let q = match primes::generate(rng, length) {
        Some(q) => q,
        None => return None,
    };
    let one = Natural::from_u64(1);
    let n = p.times(&q);
    let p1 = p.minus(&one);
    let q1 = q.minus(&one);
    let phi = p1.times(&q1);
    proof {
        lemma_power_monotone(2, 1, (length - 1) as nat);
        reveal_with_fuel(power, 2);
        assert(p.value() >= 3 && q.value() >= 3);
        assert(n.value() > 0) by (nonlinear_arith)
            requires
                p.value() >= 3,
                q.value() >= 3,
                n.value() == p.value() * q.value(),
        ;
        assert(phi.value() >= 4) by (nonlinear_arith)
            requires
                p1.value() >= 2,
                q1.value() >= 2,
                phi.value() == p1.value() * q1.value(),
        ;
        if length >= 5 {
            lemma_power_monotone(2, 4, (length - 1) as nat);
            reveal_with_fuel(power, 5);
            assert(n.value() >= 256) by (nonlinear_arith)
                requires
                    p.value() >= 16,
                    q.value() >= 16,
                    n.value() == p.value() * q.value(),
            ;
        }
    }
    let e = match generate_coprime_to(rng, &phi) {
        Some(e) => e,
        None => return None,
    };
    match key_pair_from(&p, &q, &e) {
        Ok(pair) => {
            proof {
                let (public, private) = pair;
                assert(is_key_pair_of(p.value(), q.value(), length as nat, public.e(), private.d(), public.n()));
            }
            Some(pair)
        },
        Err(_) => {
            // e is coprime to φ, so an inverse exists
            vstd::pervasive::unreached()
        },
    }
}

/// Generates a key pair from two primes of `length` bits, drawing from a
/// generator seeded by the operating system.
pub fn generate_key_pair(length: usize) -> (r: Option<(PublicKey, PrivateKey)>)
    requires
        length >= 2,
    ensures
        r matches Some((public, private)) ==> {
            &&& public.wf() && private.wf()
            &&& public.n() == private.n()
            &&& length >= 5 ==> public.n() >= 256
            &&& exists|p: nat, q: nat|
                is_key_pair_of(p, q, length as nat, public.e(), private.d(), public.n())
        },
{
    let mut rng = entropy::from_entropy();
    generate_key_pair_with(&mut rng, length)
}

impl PublicKey {
    pub fn exponent(&self) -> (r: &Natural)
        ensures
            r.value() == self.e(),
            self.wf() ==> r.wf(),
    {
        &self.exponent
    }

    pub fn module(&self) -> (r: &Natural)
        ensures
            r.value() == self.n(),
            self.wf() ==> r.wf(),
    {
        &self.module
    }
}

impl PrivateKey {
    pub fn exponent(&self) -> (r: &Natural)
        ensures
            r.value() == self.d(),
            self.wf() ==> r.wf(),
    {
        &self.exponent
    }

    pub fn module(&self) -> (r: &Natural)
        ensures
            r.value() == self.n(),
            self.wf() ==> r.wf(),
    {
        &self.module
    }
}

/// Every plaintext block of `m` (blocks of `size` bytes) ends in a nonzero
/// byte.
pub open spec fn blocks_end_nonzero(m: Seq<u8>, size: nat) -> bool {
    forall|i: int| 0 <= i < m.len() / size ==> #[trigger] m[i * size + size - 1] != 0
}

proof fn lemma_round_trip_blocks(m: Seq<u8>, e: nat, d: nat, n: nat, size: nat, width: nat)
    requires
        size > 0,
        n > 0,
        power(256, size) <= n,
        n <= power(256, width),
        exponents_invert(e, d, n),
        m.len() % size == 0,
        blocks_end_nonzero(m, size),
    ensures
        decrypt_blocks(encrypt_blocks(m, e, n, size, width), d, n, width) == m,
    decreases m.len(),
{
    if m.len() > 0 {
        assert(m.len() >= size) by (nonlinear_arith)
            requires
                m.len() % size == 0,
                m.len() > 0,
                size > 0,
        ;
        let chunk = m.take(size as int);
        let rest = m.skip(size as int);
        let v = le_value(chunk);
        lemma_le_value_bound(chunk);
        let x = block_residue(chunk, e, n);
        lemma_fixed_digits_value(x, width);
        let fixed = to_le_fixed(x, width);
        let tail = encrypt_blocks(rest, e, n, size, width);
        let ct = fixed + tail;
        assert(encrypt_blocks(m, e, n, size, width) == ct);
        assert(width > 0) by {
            if width == 0 {
                assert(power(256, 0) == 1);
            }
        }
        assert(ct.take(width as int) =~= fixed);
        assert(ct.skip(width as int) =~= tail);
        assert(power(power(v, e) % n, d) % n == v);
        assert(block_residue(fixed, d, n) == v);
        assert(m.len() / size >= 1) by (nonlinear_arith)
            requires
                m.len() >= size,
                size > 0,
        ;
        assert(m[0 * size + size - 1] != 0);
        assert(0 * size + size - 1 == size - 1);
        assert(chunk.last() == m[size - 1]);
        assert(is_canonical(chunk));
        lemma_canonical_digits(chunk);
        assert(rest.len() % size == 0) by (nonlinear_arith)
            requires
                m.len() % size == 0,
                rest.len() == m.len() - size,
                m.len() >= size,
                size > 0,
        ;
        assert forall|i: int| 0 <= i < rest.len() / size implies #[trigger] rest[i * size + size - 1] != 0 by {
            assert((i + 1) * size + size - 1 == i * size + size - 1 + size) by (nonlinear_arith);
            assert(0 <= i + 1 < m.len() / size) by (nonlinear_arith)
                requires
                    0 <= i < rest.len() / size,
                    rest.len() == m.len() - size,
                    size > 0,
            ;
            assert(i * size + size - 1 < rest.len()) by (nonlinear_arith)
                requires
                    0 <= i < rest.len() / size,
                    size > 0,
            ;
            assert(m[(i + 1) * size + size - 1] != 0);
        }
        lemma_round_trip_blocks(rest, e, d, n, size, width);
        assert(chunk + rest =~= m);
    }
}

/// Decrypting the encryption of a message gives the message back, for a
/// key pair whose exponents invert each other on every residue, and a
/// message that is a whole number of plaintext blocks none of which ends in
/// a zero byte (such a byte is dropped by decryption).
pub proof fn lemma_round_trip(public: &PublicKey, private: &PrivateKey, m: Seq<u8>)
    requires
        public.wf(),
        private.wf(),
        public.n() == private.n(),
        public.n() >= 256,
        exponents_invert(public.e(), private.d(), public.n()),
        m.len() % plain_block_len(bit_length(public.n())) == 0,
        blocks_end_nonzero(m, plain_block_len(bit_length(public.n()))),
    ensures
        decrypt_blocks(
            encrypt_blocks(
                m,
                public.e(),
                public.n(),
                plain_block_len(bit_length(public.n())),
                cipher_block_len(bit_length(public.n())),
            ),
            private.d(),
            private.n(),
            cipher_block_len(bit_length(private.n())),
        ) == m,
{
    let n = public.n();
    let bits = bit_length(n);
    let size = plain_block_len(bits);
    let width = cipher_block_len(bits);
    lemma_bit_length_bounds(n);
    if bits < 9 {
        lemma_power_monotone(2, bits, 8);
        reveal_with_fuel(power, 9);
    }
    assert(size > 0);
    lemma_power_monotone(2, bits, 8 * width);
    lemma_bits_to_bytes(width);
    lemma_power_monotone(2, 8 * size, (bits - 1) as nat);
    lemma_bits_to_bytes(size);
    lemma_round_trip_blocks(m, public.e(), private.d(), n, size, width);
}

/// Key consistency: for a key pair built from two distinct primes, raising
/// any residue `m < n` to `e` and then to `d` modulo `n` gives `m` back.
pub proof fn lemma_key_consistency(public: &PublicKey, private: &PrivateKey, p: nat, q: nat, length: nat)
    requires
        is_key_pair_of(p, q, length, public.e(), private.d(), public.n()),
        is_prime(p),
        is_prime(q),
        p != q,
    ensures
        exponents_invert(public.e(), private.d(), public.n()),
{
    assert forall|x: nat| x < public.n() implies #[trigger] (power(power(x, public.e()) % public.n(), private.d())
        % public.n()) == x by {
        lemma_rsa_inverts(p, q, public.e(), private.d(), x);
    }
}

/// Round trip of a generated key pair: for a key pair built from two
/// distinct primes, decrypting the encryption of a message that is a whole
/// number of plaintext blocks, none ending in a zero byte, gives it back.
pub proof fn lemma_key_pair_round_trip(public: &PublicKey, private: &PrivateKey, p: nat, q: nat, length: nat, m: Seq<u8>)
    requires
        public.wf(),
        private.wf(),
        public.n() == private.n(),
        public.n() >= 256,
        is_key_pair_of(p, q, length, public.e(), private.d(), public.n()),
        is_prime(p),
        is_prime(q),
        p != q,
        m.len() % plain_block_len(bit_length(public.n())) == 0,
        blocks_end_nonzero(m, plain_block_len(bit_length(public.n()))),
    ensures
        decrypt_blocks(
            encrypt_blocks(
                m,
                public.e(),
                public.n(),
                plain_block_len(bit_length(public.n())),
                cipher_block_len(bit_length(public.n())),
            ),
            private.d(),
            private.n(),
            cipher_block_len(bit_length(private.n())),
        ) == m,
{
    lemma_key_consistency(public, private, p, q, length);
    lemma_round_trip(public, private, m);
}

} // verus!
