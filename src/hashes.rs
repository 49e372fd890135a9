//! Hash generators over the digests of `sha1`, `sha2`, `sha3` and `md5`,
//! rendering a digest as binary or hexadecimal digits.

use vstd::prelude::*;
use sha2::Digest;
use crate::chars::string_of;
use crate::natural::power;
use crate::traits::HashGenerator;

verus! {

/// The character of bit `i` (0 for the most significant) of byte `b`.
pub open spec fn bit_char(b: u8, i: int) -> char {
    if (b as nat / power(2, (7 - i) as nat)) % 2 == 1 {
        '1'
    } else {
        '0'
    }
}

/// The eight binary digits of a byte, most significant first.
pub open spec fn byte_bits(b: u8) -> Seq<char> {
    Seq::new(8, |i: int| bit_char(b, i))
}

/// The lower-case hexadecimal digit of `v < 16`.
pub open spec fn hex_digit(v: nat) -> char {
    if v < 10 {
        ((48 + v) as u8) as char
    } else {
        ((87 + v) as u8) as char
    }
}

/// Eight binary digits per byte, in byte order.
pub open spec fn binary_digits(s: Seq<u8>) -> Seq<char>
    decreases s.len(),
{
    if s.len() == 0 {
        seq![]
    } else {
        binary_digits(s.drop_last()) + byte_bits(s.last())
    }
}

/// Two lower-case hexadecimal digits per byte, in byte order.
pub open spec fn hex_digits(s: Seq<u8>) -> Seq<char>
    decreases s.len(),
{
    if s.len() == 0 {
        seq![]
    } else {
        hex_digits(s.drop_last()) + seq![hex_digit(s.last() as nat / 16), hex_digit(s.last() as nat % 16)]
    }
}

/// The bytes of `digest` written in binary, eight digits each.
pub fn binary_string(digest: &Vec<u8>) -> (r: String)
    ensures
        r@ == binary_digits(digest@),
{
    let mut out: Vec<char> = Vec::new();
    let mut k: usize = 0;
    proof {
        assert(digest@.take(0) =~= Seq::<u8>::empty());
    }
    while k < digest.len()
        invariant
            k <= digest@.len(),
            out@ == binary_digits(digest@.take(k as int)),
        decreases digest@.len() - k,
    {
        let b = digest[k];
        let ghost before = out@;
        let mut d: u8 = 128;
        let mut i: usize = 0;
        proof {
            reveal_with_fuel(power, 8);
        }
        while i < 8
            invariant
                i <= 8,
                d as nat == power(2, (7 - i) as nat) || (i == 8 && d == 0),
                out@ == before + byte_bits(b).take(i as int),
            decreases 8 - i,
        {
            proof {
                reveal_with_fuel(power, 8);
            }
            let c = if (b / d) % 2 == 1 { '1' } else { '0' };
            out.push(c);
            proof {
                assert(out@ =~= before + byte_bits(b).take(i + 1));
            }
            d = d / 2;
            i = i + 1;
        }
        proof {
            assert(byte_bits(b).take(8) =~= byte_bits(b));
            assert(digest@.take(k + 1).drop_last() =~= digest@.take(k as int));
        }
        k = k + 1;
    }
    proof {
        assert(digest@.take(k as int) =~= digest@);
    }
    string_of(&out)
}

fn hex_char(v: u8) -> (r: char)
    requires
        v < 16,
    ensures
        r == hex_digit(v as nat),
{
    if v < 10 {
        (48 + v) as char
    } else {
        (87 + v) as char
    }
}

/// The bytes of `digest` written in lower-case hexadecimal, two digits each.
pub fn hex_string(digest: &Vec<u8>) -> (r: String)
    ensures
        r@ == hex_digits(digest@),
{
    let mut out: Vec<char> = Vec::new();
    let mut k: usize = 0;
    proof {
        assert(digest@.take(0) =~= Seq::<u8>::empty());
    }
    while k < digest.len()
        invariant
            k <= digest@.len(),
            out@ == hex_digits(digest@.take(k as int)),
        decreases digest@.len() - k,
    {
        let b = digest[k];
        let ghost before = out@;
        out.push(hex_char(b / 16));
        out.push(hex_char(b % 16));
        proof {
            assert(digest@.take(k + 1).drop_last() =~= digest@.take(k as int));
            assert(out@ =~= before + seq![hex_digit(b as nat / 16), hex_digit(b as nat % 16)]);
        }
        k = k + 1;
    }
    proof {
        assert(digest@.take(k as int) =~= digest@);
    }
    string_of(&out)
}

pub uninterp spec fn sha1_of(m: Seq<u8>) -> Seq<u8>;

/// Relies on `Digest::digest` of `sha1::Sha1`: the 20-byte digest of
/// `message`, a function of the message alone.
#[verifier::external_body]
fn sha1_digest(message: &[u8]) -> (r: Vec<u8>)
    ensures
        r@ == sha1_of(message@),
        r@.len() == 20,
{
    sha1::Sha1::digest(message).to_vec()
}

/// The SHA1 hash.
pub struct Sha1;

impl Sha1 {
    /// The SHA1 digest of `message` in binary digits.
    pub fn binary(message: &[u8]) -> (r: String)
        ensures
            r@ == binary_digits(sha1_of(message@)),
    {
        binary_string(&sha1_digest(message))
    }

    /// The SHA1 digest of `message` in lower-case hexadecimal digits.
    pub fn hex(message: &[u8]) -> (r: String)
        ensures
            r@ == hex_digits(sha1_of(message@)),
    {
        hex_string(&sha1_digest(message))
    }
}

impl HashGenerator for Sha1 {
    fn generate(&mut self, message: &[u8]) -> String {
        Sha1::binary(message)
    }

    fn generate_hex(&mut self, message: &[u8]) -> String {
        Sha1::hex(message)
    }

    fn name(&self) -> &'static str {
        "SHA1"
    }
}

pub uninterp spec fn sha224_of(m: Seq<u8>) -> Seq<u8>;

/// Relies on `Digest::digest` of `sha2::Sha224`: the 28-byte digest of
/// `message`, a function of the message alone.
#[verifier::external_body]
fn sha224_digest(message: &[u8]) -> (r: Vec<u8>)
    ensures
        r@ == sha224_of(message@),
        r@.len() == 28,
{
    sha2::Sha224::digest(message).to_vec()
}

/// The SHA2-224 hash.
pub struct Sha224;

impl Sha224 {
    /// The SHA2-224 digest of `message` in binary digits.
    pub fn binary(message: &[u8]) -> (r: String)
        ensures
            r@ == binary_digits(sha224_of(message@)),
    {
        binary_string(&sha224_digest(message))
    }

    /// The SHA2-224 digest of `message` in lower-case hexadecimal digits.
    pub fn hex(message: &[u8]) -> (r: String)
        ensures
            r@ == hex_digits(sha224_of(message@)),
    {
        hex_string(&sha224_digest(message))
    }
}

impl HashGenerator for Sha224 {
    fn generate(&mut self, message: &[u8]) -> String {
        Sha224::binary(message)
    }

    fn generate_hex(&mut self, message: &[u8]) -> String {
        Sha224::hex(message)
    }

    fn name(&self) -> &'static str {
        "SHA2-224"
    }
}

pub uninterp spec fn sha256_of(m: Seq<u8>) -> Seq<u8>;

/// Relies on `Digest::digest` of `sha2::Sha256`: the 32-byte digest of
/// `message`, a function of the message alone.
#[verifier::external_body]
fn sha256_digest(message: &[u8]) -> (r: Vec<u8>)
    ensures
        r@ == sha256_of(message@),
        r@.len() == 32,
{
    sha2::Sha256::digest(message).to_vec()
}

/// The SHA2-256 hash.
pub struct Sha256;

impl Sha256 {
    /// The SHA2-256 digest of `message` in binary digits.
    pub fn binary(message: &[u8]) -> (r: String)
        ensures
            r@ == binary_digits(sha256_of(message@)),
    {
        binary_string(&sha256_digest(message))
    }

    /// The SHA2-256 digest of `message` in lower-case hexadecimal digits.
    pub fn hex(message: &[u8]) -> (r: String)
        ensures
            r@ == hex_digits(sha256_of(message@)),
    {
        hex_string(&sha256_digest(message))
    }
}

impl HashGenerator for Sha256 {
    fn generate(&mut self, message: &[u8]) -> String {
        Sha256::binary(message)
    }

    fn generate_hex(&mut self, message: &[u8]) -> String {
        Sha256::hex(message)
    }

    fn name(&self) -> &'static str {
        "SHA2-256"
    }
}

pub uninterp spec fn sha384_of(m: Seq<u8>) -> Seq<u8>;

/// Relies on `Digest::digest` of `sha2::Sha384`: the 48-byte digest of
/// `message`, a function of the message alone.
#[verifier::external_body]
fn sha384_digest(message: &[u8]) -> (r: Vec<u8>)
    ensures
        r@ == sha384_of(message@),
        r@.len() == 48,
{
    sha2::Sha384::digest(message).to_vec()
}

/// The SHA2-384 hash.
pub struct Sha384;

impl Sha384 {
    /// The SHA2-384 digest of `message` in binary digits.
    pub fn binary(message: &[u8]) -> (r: String)
        ensures
            r@ == binary_digits(sha384_of(message@)),
    {
        binary_string(&sha384_digest(message))
    }

    /// The SHA2-384 digest of `message` in lower-case hexadecimal digits.
    pub fn hex(message: &[u8]) -> (r: String)
        ensures
            r@ == hex_digits(sha384_of(message@)),
    {
        hex_string(&sha384_digest(message))
    }
}

impl HashGenerator for Sha384 {
    fn generate(&mut self, message: &[u8]) -> String {
        Sha384::binary(message)
    }

    fn generate_hex(&mut self, message: &[u8]) -> String {
        Sha384::hex(message)
    }

    fn name(&self) -> &'static str {
        "SHA2-384"
    }
}

pub uninterp spec fn sha512_of(m: Seq<u8>) -> Seq<u8>;

/// Relies on `Digest::digest` of `sha2::Sha512`: the 64-byte digest of
/// `message`, a function of the message alone.
#[verifier::external_body]
fn sha512_digest(message: &[u8]) -> (r: Vec<u8>)
    ensures
        r@ == sha512_of(message@),
        r@.len() == 64,
{
    sha2::Sha512::digest(message).to_vec()
}

/// The SHA2-512 hash.
pub struct Sha512;

impl Sha512 {
    /// The SHA2-512 digest of `message` in binary digits.
    pub fn binary(message: &[u8]) -> (r: String)
        ensures
            r@ == binary_digits(sha512_of(message@)),
    {
        binary_string(&sha512_digest(message))
    }

    /// The SHA2-512 digest of `message` in lower-case hexadecimal digits.
    pub fn hex(message: &[u8]) -> (r: String)
        ensures
            r@ == hex_digits(sha512_of(message@)),
    {
        hex_string(&sha512_digest(message))
    }
}

impl HashGenerator for Sha512 {
    fn generate(&mut self, message: &[u8]) -> String {
        Sha512::binary(message)
    }

    fn generate_hex(&mut self, message: &[u8]) -> String {
        Sha512::hex(message)
    }

    fn name(&self) -> &'static str {
        "SHA2-512"
    }
}

pub uninterp spec fn sha512_224_of(m: Seq<u8>) -> Seq<u8>;

/// Relies on `Digest::digest` of `sha2::Sha512_224`: the 28-byte digest of
/// `message`, a function of the message alone.
#[verifier::external_body]
fn sha512_224_digest(message: &[u8]) -> (r: Vec<u8>)
    ensures
        r@ == sha512_224_of(message@),
        r@.len() == 28,
{
    sha2::Sha512_224::digest(message).to_vec()
}

/// The SHA2-512-224 hash.
pub struct Sha512_224;

impl Sha512_224 {
    /// The SHA2-512-224 digest of `message` in binary digits.
    pub fn binary(message: &[u8]) -> (r: String)
        ensures
            r@ == binary_digits(sha512_224_of(message@)),
    {
        binary_string(&sha512_224_digest(message))
    }

    /// The SHA2-512-224 digest of `message` in lower-case hexadecimal digits.
    pub fn hex(message: &[u8]) -> (r: String)
        ensures
            r@ == hex_digits(sha512_224_of(message@)),
    {
        hex_string(&sha512_224_digest(message))
    }
}

impl HashGenerator for Sha512_224 {
    fn generate(&mut self, message: &[u8]) -> String {
        Sha512_224::binary(message)
    }

    fn generate_hex(&mut self, message: &[u8]) -> String {
        Sha512_224::hex(message)
    }

    fn name(&self) -> &'static str {
        "SHA2-512-224"
    }
}

pub uninterp spec fn sha512_256_of(m: Seq<u8>) -> Seq<u8>;

/// Relies on `Digest::digest` of `sha2::Sha512_256`: the 32-byte digest of
/// `message`, a function of the message alone.
#[verifier::external_body]
fn sha512_256_digest(message: &[u8]) -> (r: Vec<u8>)
    ensures
        r@ == sha512_256_of(message@),
        r@.len() == 32,
{
    sha2::Sha512_256::digest(message).to_vec()
}

/// The SHA2-512-256 hash.
pub struct Sha512_256;

impl Sha512_256 {
    /// The SHA2-512-256 digest of `message` in binary digits.
    pub fn binary(message: &[u8]) -> (r: String)
        ensures
            r@ == binary_digits(sha512_256_of(message@)),
    {
        binary_string(&sha512_256_digest(message))
    }

    /// The SHA2-512-256 digest of `message` in lower-case hexadecimal digits.
    pub fn hex(message: &[u8]) -> (r: String)
        ensures
            r@ == hex_digits(sha512_256_of(message@)),
    {
        hex_string(&sha512_256_digest(message))
    }
}

impl HashGenerator for Sha512_256 {
    fn generate(&mut self, message: &[u8]) -> String {
        Sha512_256::binary(message)
    }

    fn generate_hex(&mut self, message: &[u8]) -> String {
        Sha512_256::hex(message)
    }

    fn name(&self) -> &'static str {
        "SHA2-512-256"
    }
}

pub uninterp spec fn keccak224_of(m: Seq<u8>) -> Seq<u8>;

/// Relies on `Digest::digest` of `sha3::Keccak224`: the 28-byte digest of
/// `message`, a function of the message alone.
#[verifier::external_body]
fn keccak224_digest(message: &[u8]) -> (r: Vec<u8>)
    ensures
        r@ == keccak224_of(message@),
        r@.len() == 28,
{
    sha3::Keccak224::digest(message).to_vec()
}

/// The KECCAK-224 hash.
pub struct Keccak224;

impl Keccak224 {
    /// The KECCAK-224 digest of `message` in binary digits.
    pub fn binary(message: &[u8]) -> (r: String)
        ensures
            r@ == binary_digits(keccak224_of(message@)),
    {
        binary_string(&keccak224_digest(message))
    }

    /// The KECCAK-224 digest of `message` in lower-case hexadecimal digits.
    pub fn hex(message: &[u8]) -> (r: String)
        ensures
            r@ == hex_digits(keccak224_of(message@)),
    {
        hex_string(&keccak224_digest(message))
    }
}

impl HashGenerator for Keccak224 {
    fn generate(&mut self, message: &[u8]) -> String {
        Keccak224::binary(message)
    }

    fn generate_hex(&mut self, message: &[u8]) -> String {
        Keccak224::hex(message)
    }

    fn name(&self) -> &'static str {
        "KECCAK-224"
    }
}

pub uninterp spec fn keccak256_of(m: Seq<u8>) -> Seq<u8>;

/// Relies on `Digest::digest` of `sha3::Keccak256`: the 32-byte digest of
/// `message`, a function of the message alone.
#[verifier::external_body]
fn keccak256_digest(message: &[u8]) -> (r: Vec<u8>)
    ensures
        r@ == keccak256_of(message@),
        r@.len() == 32,
{
    sha3::Keccak256::digest(message).to_vec()
}

/// The KECCAK-256 hash.
pub struct Keccak256;

impl Keccak256 {
    /// The KECCAK-256 digest of `message` in binary digits.
    pub fn binary(message: &[u8]) -> (r: String)
        ensures
            r@ == binary_digits(keccak256_of(message@)),
    {
        binary_string(&keccak256_digest(message))
    }

    /// The KECCAK-256 digest of `message` in lower-case hexadecimal digits.
    pub fn hex(message: &[u8]) -> (r: String)
        ensures
            r@ == hex_digits(keccak256_of(message@)),
    {
        hex_string(&keccak256_digest(message))
    }
}

impl HashGenerator for Keccak256 {
    fn generate(&mut self, message: &[u8]) -> String {
        Keccak256::binary(message)
    }

    fn generate_hex(&mut self, message: &[u8]) -> String {
        Keccak256::hex(message)
    }

    fn name(&self) -> &'static str {
        "KECCAK-256"
    }
}

pub uninterp spec fn keccak384_of(m: Seq<u8>) -> Seq<u8>;

/// Relies on `Digest::digest` of `sha3::Keccak384`: the 48-byte digest of
/// `message`, a function of the message alone.
#[verifier::external_body]
fn keccak384_digest(message: &[u8]) -> (r: Vec<u8>)
    ensures
        r@ == keccak384_of(message@),
        r@.len() == 48,
{
    sha3::Keccak384::digest(message).to_vec()
}

/// The KECCAK-384 hash.
pub struct Keccak384;

impl Keccak384 {
    /// The KECCAK-384 digest of `message` in binary digits.
    pub fn binary(message: &[u8]) -> (r: String)
        ensures
            r@ == binary_digits(keccak384_of(message@)),
    {
        binary_string(&keccak384_digest(message))
    }

    /// The KECCAK-384 digest of `message` in lower-case hexadecimal digits.
    pub fn hex(message: &[u8]) -> (r: String)
        ensures
            r@ == hex_digits(keccak384_of(message@)),
    {
        hex_string(&keccak384_digest(message))
    }
}

impl HashGenerator for Keccak384 {
    fn generate(&mut self, message: &[u8]) -> String {
        Keccak384::binary(message)
    }

    fn generate_hex(&mut self, message: &[u8]) -> String {
        Keccak384::hex(message)
    }

    fn name(&self) -> &'static str {
        "KECCAK-384"
    }
}

pub uninterp spec fn keccak512_of(m: Seq<u8>) -> Seq<u8>;

/// Relies on `Digest::digest` of `sha3::Keccak512`: the 64-byte digest of
/// `message`, a function of the message alone.
#[verifier::external_body]
fn keccak512_digest(message: &[u8]) -> (r: Vec<u8>)
    ensures
        r@ == keccak512_of(message@),
        r@.len() == 64,
{
    sha3::Keccak512::digest(message).to_vec()
}

/// The KECCAK-512 hash.
pub struct Keccak512;

impl Keccak512 {
    /// The KECCAK-512 digest of `message` in binary digits.
    pub fn binary(message: &[u8]) -> (r: String)
        ensures
            r@ == binary_digits(keccak512_of(message@)),
    {
        binary_string(&keccak512_digest(message))
    }

    /// The KECCAK-512 digest of `message` in lower-case hexadecimal digits.
    pub fn hex(message: &[u8]) -> (r: String)
        ensures
            r@ == hex_digits(keccak512_of(message@)),
    {
        hex_string(&keccak512_digest(message))
    }
}

impl HashGenerator for Keccak512 {
    fn generate(&mut self, message: &[u8]) -> String {
        Keccak512::binary(message)
    }

    fn generate_hex(&mut self, message: &[u8]) -> String {
        Keccak512::hex(message)
    }

    fn name(&self) -> &'static str {
        "KECCAK-512"
    }
}

pub uninterp spec fn sha3_224_of(m: Seq<u8>) -> Seq<u8>;

/// Relies on `Digest::digest` of `sha3::Sha3_224`: the 28-byte digest of
/// `message`, a function of the message alone.
#[verifier::external_body]
fn sha3_224_digest(message: &[u8]) -> (r: Vec<u8>)
    ensures
        r@ == sha3_224_of(message@),
        r@.len() == 28,
{
    sha3::Sha3_224::digest(message).to_vec()
}

/// The SHA3-224 hash.
pub struct Sha3_224;

impl Sha3_224 {
    /// The SHA3-224 digest of `message` in binary digits.
    pub fn binary(message: &[u8]) -> (r: String)
        ensures
            r@ == binary_digits(sha3_224_of(message@)),
    {
        binary_string(&sha3_224_digest(message))
    }

    /// The SHA3-224 digest of `message` in lower-case hexadecimal digits.
    pub fn hex(message: &[u8]) -> (r: String)
        ensures
            r@ == hex_digits(sha3_224_of(message@)),
    {
        hex_string(&sha3_224_digest(message))
    }
}

impl HashGenerator for Sha3_224 {
    fn generate(&mut self, message: &[u8]) -> String {
        Sha3_224::binary(message)
    }

    fn generate_hex(&mut self, message: &[u8]) -> String {
        Sha3_224::hex(message)
    }

    fn name(&self) -> &'static str {
        "SHA3-224"
    }
}

pub uninterp spec fn sha3_256_of(m: Seq<u8>) -> Seq<u8>;

/// Relies on `Digest::digest` of `sha3::Sha3_256`: the 32-byte digest of
/// `message`, a function of the message alone.
#[verifier::external_body]
fn sha3_256_digest(message: &[u8]) -> (r: Vec<u8>)
    ensures
        r@ == sha3_256_of(message@),
        r@.len() == 32,
{
    sha3::Sha3_256::digest(message).to_vec()
}

/// The SHA3-256 hash.
pub struct Sha3_256;

impl Sha3_256 {
    /// The SHA3-256 digest of `message` in binary digits.
    pub fn binary(message: &[u8]) -> (r: String)
        ensures
            r@ == binary_digits(sha3_256_of(message@)),
    {
        binary_string(&sha3_256_digest(message))
    }

    /// The SHA3-256 digest of `message` in lower-case hexadecimal digits.
    pub fn hex(message: &[u8]) -> (r: String)
        ensures
            r@ == hex_digits(sha3_256_of(message@)),
    {
        hex_string(&sha3_256_digest(message))
    }
}

impl HashGenerator for Sha3_256 {
    fn generate(&mut self, message: &[u8]) -> String {
        Sha3_256::binary(message)
    }

    fn generate_hex(&mut self, message: &[u8]) -> String {
        Sha3_256::hex(message)
    }

    fn name(&self) -> &'static str {
        "SHA3-256"
    }
}

pub uninterp spec fn sha3_384_of(m: Seq<u8>) -> Seq<u8>;

/// Relies on `Digest::digest` of `sha3::Sha3_384`: the 48-byte digest of
/// `message`, a function of the message alone.
#[verifier::external_body]
fn sha3_384_digest(message: &[u8]) -> (r: Vec<u8>)
    ensures
        r@ == sha3_384_of(message@),
        r@.len() == 48,
{
    sha3::Sha3_384::digest(message).to_vec()
}

/// The SHA3-384 hash.
pub struct Sha3_384;

impl Sha3_384 {
    /// The SHA3-384 digest of `message` in binary digits.
    pub fn binary(message: &[u8]) -> (r: String)
        ensures
            r@ == binary_digits(sha3_384_of(message@)),
    {
        binary_string(&sha3_384_digest(message))
    }

    /// The SHA3-384 digest of `message` in lower-case hexadecimal digits.
    pub fn hex(message: &[u8]) -> (r: String)
        ensures
            r@ == hex_digits(sha3_384_of(message@)),
    {
        hex_string(&sha3_384_digest(message))
    }
}

impl HashGenerator for Sha3_384 {
    fn generate(&mut self, message: &[u8]) -> String {
        Sha3_384::binary(message)
    }

    fn generate_hex(&mut self, message: &[u8]) -> String {
        Sha3_384::hex(message)
    }

    fn name(&self) -> &'static str {
        "SHA3-384"
    }
}

pub uninterp spec fn sha3_512_of(m: Seq<u8>) -> Seq<u8>;

/// Relies on `Digest::digest` of `sha3::Sha3_512`: the 64-byte digest of
/// `message`, a function of the message alone.
#[verifier::external_body]
fn sha3_512_digest(message: &[u8]) -> (r: Vec<u8>)
    ensures
        r@ == sha3_512_of(message@),
        r@.len() == 64,
{
    sha3::Sha3_512::digest(message).to_vec()
}

/// The SHA3-512 hash.
pub struct Sha3_512;

impl Sha3_512 {
    /// The SHA3-512 digest of `message` in binary digits.
    pub fn binary(message: &[u8]) -> (r: String)
        ensures
            r@ == binary_digits(sha3_512_of(message@)),
    {
        binary_string(&sha3_512_digest(message))
    }

    /// The SHA3-512 digest of `message` in lower-case hexadecimal digits.
    pub fn hex(message: &[u8]) -> (r: String)
        ensures
            r@ == hex_digits(sha3_512_of(message@)),
    {
        hex_string(&sha3_512_digest(message))
    }
}

impl HashGenerator for Sha3_512 {
    fn generate(&mut self, message: &[u8]) -> String {
        Sha3_512::binary(message)
    }

    fn generate_hex(&mut self, message: &[u8]) -> String {
        Sha3_512::hex(message)
    }

    fn name(&self) -> &'static str {
        "SHA3-512"
    }
}

pub uninterp spec fn md5_of(m: Seq<u8>) -> Seq<u8>;

/// Relies on `md5::compute`: the 16-byte digest of
/// `message`, a function of the message alone.
#[verifier::external_body]
fn md5_digest(message: &[u8]) -> (r: Vec<u8>)
    ensures
        r@ == md5_of(message@),
        r@.len() == 16,
{
    md5::compute(message).0.to_vec()
}

/// The MD-5 hash.
pub struct Md5;

impl Md5 {
    /// The MD-5 digest of `message` in binary digits.
    pub fn binary(message: &[u8]) -> (r: String)
        ensures
            r@ == binary_digits(md5_of(message@)),
    {
        binary_string(&md5_digest(message))
    }

    /// The MD-5 digest of `message` in lower-case hexadecimal digits.
    pub fn hex(message: &[u8]) -> (r: String)
        ensures
            r@ == hex_digits(md5_of(message@)),
    {
        hex_string(&md5_digest(message))
    }
}

impl HashGenerator for Md5 {
    fn generate(&mut self, message: &[u8]) -> String {
        Md5::binary(message)
    }

    fn generate_hex(&mut self, message: &[u8]) -> String {
        Md5::hex(message)
    }

    fn name(&self) -> &'static str {
        "MD-5"
    }
}

} // verus!
