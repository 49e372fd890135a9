//! Diffie–Hellman key exchange in the 1024-bit MODP group of RFC 2409,
//! section 6.2, with generator 2.

use vstd::prelude::*;
use rand::rngs::StdRng;
use crate::entropy;
use crate::natural::{Natural, le_value, power};
use crate::number_theory::{lemma_power_mod_base, lemma_power_multiplies};

verus! {

/// The little-endian digits of the group's prime modulus.
pub open spec fn group_prime_digits() -> Seq<u8> {
    seq![
        0xffu8, 0xff, 0xff, 0xff, 0xff, 0xff, 0xff, 0xff, 0x81, 0x53, 0xe6, 0xec, 0x51, 0x66, 0x28, 0x49,
        0xe6, 0x1f, 0x4b, 0x7c, 0x11, 0x24, 0x9f, 0xae, 0xa5, 0x9f, 0x89, 0x5a, 0xfb, 0x6b, 0x38, 0xee,
        0xed, 0xb7, 0x06, 0xf4, 0xb6, 0x5c, 0xff, 0x0b, 0x6b, 0xed, 0x37, 0xa6, 0xe9, 0x42, 0x4c, 0xf4,
        0xc6, 0x7e, 0x5e, 0x62, 0x76, 0xb5, 0x85, 0xe4, 0x45, 0xc2, 0x51, 0x6d, 0x6d, 0x35, 0xe1, 0x4f,
        0x37, 0x14, 0x5f, 0xf2, 0x6d, 0x0a, 0x2b, 0x30, 0x1b, 0x43, 0x3a, 0xcd, 0xb3, 0x19, 0x95, 0xef,
        0xdd, 0x04, 0x34, 0x8e, 0x79, 0x08, 0x4a, 0x51, 0x22, 0x9b, 0x13, 0x3b, 0xa6, 0xbe, 0x0b, 0x02,
        0x74, 0xcc, 0x67, 0x8a, 0x08, 0x4e, 0x02, 0x29, 0xd1, 0x1c, 0xdc, 0x80, 0x8b, 0x62, 0xc6, 0xc4,
        0x34, 0xc2, 0x68, 0x21, 0xa2, 0xda, 0x0f, 0xc9, 0xff, 0xff, 0xff, 0xff, 0xff, 0xff, 0xff, 0xff,
    ]
}

/// The group's prime modulus.
pub open spec fn group_prime() -> nat {
    le_value(group_prime_digits())
}

/// The group's generator.
pub open spec fn generator() -> nat {
    2
}

fn prime_modulus() -> (r: Natural)
    ensures
        r.wf(),
        r.value() == group_prime(),
{
    let digits: Vec<u8> = vec![
        0xffu8, 0xff, 0xff, 0xff, 0xff, 0xff, 0xff, 0xff, 0x81, 0x53, 0xe6, 0xec, 0x51, 0x66, 0x28, 0x49,
        0xe6, 0x1f, 0x4b, 0x7c, 0x11, 0x24, 0x9f, 0xae, 0xa5, 0x9f, 0x89, 0x5a, 0xfb, 0x6b, 0x38, 0xee,
        0xed, 0xb7, 0x06, 0xf4, 0xb6, 0x5c, 0xff, 0x0b, 0x6b, 0xed, 0x37, 0xa6, 0xe9, 0x42, 0x4c, 0xf4,
        0xc6, 0x7e, 0x5e, 0x62, 0x76, 0xb5, 0x85, 0xe4, 0x45, 0xc2, 0x51, 0x6d, 0x6d, 0x35, 0xe1, 0x4f,
        0x37, 0x14, 0x5f, 0xf2, 0x6d, 0x0a, 0x2b, 0x30, 0x1b, 0x43, 0x3a, 0xcd, 0xb3, 0x19, 0x95, 0xef,
        0xdd, 0x04, 0x34, 0x8e, 0x79, 0x08, 0x4a, 0x51, 0x22, 0x9b, 0x13, 0x3b, 0xa6, 0xbe, 0x0b, 0x02,
        0x74, 0xcc, 0x67, 0x8a, 0x08, 0x4e, 0x02, 0x29, 0xd1, 0x1c, 0xdc, 0x80, 0x8b, 0x62, 0xc6, 0xc4,
        0x34, 0xc2, 0x68, 0x21, 0xa2, 0xda, 0x0f, 0xc9, 0xff, 0xff, 0xff, 0xff, 0xff, 0xff, 0xff, 0xff,
    ];
    proof {
        assert(digits@ =~= group_prime_digits());
    }
    Natural::from_le_bytes(&digits)
}

/// One party's keys: a private exponent, the public value `2^private`, and
/// the session key once the other party's public value is known.
pub struct Key {
    private: Natural,
    public: Natural,
    session: Option<Natural>,
}

impl Key {
    pub closed spec fn private_value(&self) -> nat {
        self.private.value()
    }

    pub closed spec fn public_value(&self) -> nat {
        self.public.value()
    }

    pub closed spec fn session_value(&self) -> Option<nat> {
        match self.session {
            Some(s) => Some(s.value()),
            None => None,
        }
    }

    pub closed spec fn wf(&self) -> bool {
        self.private.wf() && self.public.wf()
    }

    /// Keys with a private exponent drawn from `rng`, uniformly from
    /// `[2^key_size, 2^(key_size+1))`.
    pub fn create_exchange_keys_with(rng: &mut StdRng, key_size: usize) -> (r: Key)
        requires
            key_size < usize::MAX,
        ensures
            r.wf(),
            power(2, key_size as nat) <= r.private_value() < power(2, (key_size + 1) as nat),
            r.public_value() == power(generator(), r.private_value()) % group_prime(),
            r.session_value() is None,
    {
        let lower = Natural::power_of_two(key_size);
        proof {
            crate::natural::lemma_power_positive(2, key_size as nat);
            assert(power(2, (key_size + 1) as nat) == 2 * power(2, key_size as nat));
        }
        let private = Natural::random_below(rng, &lower).plus(&lower);
        let modulus = prime_modulus();
        proof {
            lemma_group_prime_positive();
        }
        let public = Natural::from_u64(2).mod_pow(&private, &modulus);
        Key { private, public, session: None }
    }

    /// Keys with a private exponent of `key_size + 1` bits, drawn from a
    /// generator seeded by the operating system.
    pub fn create_exchange_keys(key_size: usize) -> (r: Key)
        requires
            key_size < usize::MAX,
        ensures
            r.wf(),
            power(2, key_size as nat) <= r.private_value() < power(2, (key_size + 1) as nat),
            r.public_value() == power(generator(), r.private_value()) % group_prime(),
            r.session_value() is None,
    {
        let mut rng = entropy::from_entropy();
        Self::create_exchange_keys_with(&mut rng, key_size)
    }

    /// Derives the session key from the other party's public value:
    /// `public_key^private` in the group.
    pub fn create_session_key(&mut self, public_key: &Natural)
        requires
            old(self).wf(),
        ensures
            final(self).wf(),
            final(self).private_value() == old(self).private_value(),
            final(self).public_value() == old(self).public_value(),
            final(self).session_value() == Some(
                power(public_key.value(), old(self).private_value()) % group_prime(),
            ),
    {
        let modulus = prime_modulus();
        proof {
            lemma_group_prime_positive();
        }
        let session = public_key.mod_pow(&self.private, &modulus);
        self.session = Some(session);
    }

    pub fn get_public_key(&self) -> (r: &Natural)
        ensures
            r.value() == self.public_value(),
    {
        &self.public
    }

    pub fn get_session_key(&self) -> (r: Option<&Natural>)
        ensures
            match r {
                Some(s) => self.session_value() == Some(s.value()),
                None => self.session_value() is None,
            },
    {
        match &self.session {
            Some(s) => Some(s),
            None => None,
        }
    }
}

proof fn lemma_group_prime_positive()
    ensures
        group_prime() > 0,
{
    let s = group_prime_digits();
    assert(s.last() == 0xff);
    crate::natural::lemma_canonical_digits(s);
}

/// Both parties of an exchange derive the same session key:
/// `(g^a)^b == (g^b)^a` in the group.
pub proof fn lemma_shared_session(a: nat, b: nat)
    ensures
        power(power(generator(), a) % group_prime(), b) % group_prime()
            == power(power(generator(), b) % group_prime(), a) % group_prime(),
{
    lemma_group_prime_positive();
    let n = group_prime();
    lemma_power_mod_base(power(2, a), b, n);
    lemma_power_mod_base(power(2, b), a, n);
    lemma_power_multiplies(2, a, b);
    lemma_power_multiplies(2, b, a);
    assert(a * b == b * a) by (nonlinear_arith);
}

} // verus!
