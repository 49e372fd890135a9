use rand::rngs::StdRng;
use rand::SeedableRng;
use rsa_core::natural::Natural;
use rsa_core::modulo::InversionError;
use rsa_core::rsa::{generate_coprime_to, key_pair_from};
use rsa_core::primes::candidate;
use rsa_core::primes::{decompose, fermat_check, generate, is_prime, miller_rabin_round, Primality};
use rsa_core::rsa::{generate_key_pair, generate_key_pair_with, DecryptionError};

fn seeded(seed: u64) -> StdRng {
    StdRng::seed_from_u64(seed)
}

fn bit_len(n: &Natural) -> usize {
    let bytes = n.to_le_bytes();
    match bytes.last() {
        None => 0,
        Some(&top) => 8 * (bytes.len() - 1) + (8 - top.leading_zeros() as usize),
    }
}

fn pow_mod(base: u128, mut exponent: u128, modulus: u128) -> u128 {
    let mut result = 1 % modulus;
    let mut b = base % modulus;
    while exponent > 0 {
        if exponent & 1 == 1 {
            result = result * b % modulus;
        }
        b = b * b % modulus;
        exponent >>= 1;
    }
    result
}

#[test]
fn seeded_sixteen_bit_keys_round_trip_hi() {
    let mut rng = seeded(16);
    let (public, private) = generate_key_pair_with(&mut rng, 16).unwrap();
    let encrypted = public.encrypt(b"HI");
    let decrypted = private.decrypt(&encrypted).unwrap();
    assert_eq!(decrypted, b"HI".to_vec());
}

#[test]
fn round_trip_whole_blocks_over_lengths() {
    for (seed, length) in [(1u64, 8usize), (2, 16), (3, 32), (4, 64)] {
        let mut rng = seeded(seed);
        let (public, private) = generate_key_pair_with(&mut rng, length).unwrap();
        let bits = bit_len(public.module());
        let size = if bits % 8 == 0 { bits / 8 - 1 } else { bits / 8 };
        let width = (bits + 7) / 8;
        let message: Vec<u8> = (0..size * 3).map(|i| (i % 200) as u8 + 1).collect();
        let encrypted = public.encrypt(&message);
        assert_eq!(encrypted.len(), 3 * width);
        assert_eq!(private.decrypt(&encrypted).unwrap(), message);
    }
}

#[test]
fn key_exponents_invert_every_residue_of_small_modulus() {
    let mut rng = seeded(7);
    let (public, private) = generate_key_pair_with(&mut rng, 8).unwrap();
    let n = public.module().to_u64() as u128;
    assert_eq!(public.module(), private.module());
    let e = public.exponent().to_u64() as u128;
    let d = private.exponent().to_u64() as u128;
    let mut m = 0u128;
    while m < n {
        assert_eq!(pow_mod(pow_mod(m, e, n), d, n), m);
        m += 1;
    }
    assert!(n > 16000);
}

#[test]
fn encrypt_empty_message_gives_empty() {
    let mut rng = seeded(5);
    let (public, private) = generate_key_pair_with(&mut rng, 16).unwrap();
    assert!(public.encrypt(&[]).is_empty());
    assert_eq!(private.decrypt(&[]), Ok(vec![]));
}

#[test]
fn decrypt_rejects_partial_block() {
    let mut rng = seeded(9);
    let (public, private) = generate_key_pair_with(&mut rng, 16).unwrap();
    let mut encrypted = public.encrypt(b"abc");
    encrypted.push(0);
    assert_eq!(private.decrypt(&encrypted), Err(DecryptionError::MalformedCiphertext));
}

#[test]
fn trailing_zero_bytes_of_a_block_are_lost() {
    let mut rng = seeded(11);
    let (public, private) = generate_key_pair_with(&mut rng, 16).unwrap();
    let decrypted = private.decrypt(&public.encrypt(&[b'H', 0])).unwrap();
    assert_eq!(decrypted, vec![b'H']);
}

#[test]
fn entropy_seeded_key_pair_round_trips() {
    let (public, private) = generate_key_pair(24).unwrap();
    let message = b"attack at dawn".to_vec();
    let decrypted = private.decrypt(&public.encrypt(&message)).unwrap();
    assert_eq!(decrypted, message);
}

#[test]
fn known_small_primes_are_probably_prime() {
    let mut rng = seeded(42);
    for p in [2u64, 3, 5, 7, 11, 97, 7919] {
        assert_eq!(is_prime(&mut rng, &Natural::from_u64(p), 5), Primality::ProbablyPrime, "{}", p);
    }
}

#[test]
fn known_small_composites_are_composite() {
    let mut rng = seeded(43);
    for c in [0u64, 1, 4, 9, 15, 91, 561] {
        assert_eq!(is_prime(&mut rng, &Natural::from_u64(c), 5), Primality::Composite, "{}", c);
    }
}

#[test]
fn gates_on_fixed_bases() {
    let n = Natural::from_u64(561);
    assert!(fermat_check(&n, &Natural::from_u64(2)));
    assert!(!fermat_check(&Natural::from_u64(15), &Natural::from_u64(2)));
    let (d, s) = decompose(&Natural::from_u64(560));
    assert_eq!(d, Natural::from_u64(35));
    assert_eq!(s, 4);
    assert!(!miller_rabin_round(&n, &Natural::from_u64(2), &d, s));
    let p = Natural::from_u64(97);
    let (d, s) = decompose(&Natural::from_u64(96));
    assert_eq!((d.clone(), s), (Natural::from_u64(3), 5));
    for a in 2..96u64 {
        assert!(miller_rabin_round(&p, &Natural::from_u64(a), &d, s));
    }
}

#[test]
fn generated_primes_have_exact_length_and_are_odd() {
    let mut rng = seeded(3);
    for length in [2usize, 3, 8, 13, 16, 33] {
        for _ in 0..5 {
            let p = generate(&mut rng, length).unwrap();
            assert_eq!(bit_len(&p), length);
            assert!(p.is_odd());
        }
    }
}

#[test]
fn key_pair_from_known_primes() {
    let p = Natural::from_u64(61);
    let q = Natural::from_u64(53);
    let (public, private) = key_pair_from(&p, &q, &Natural::from_u64(17)).unwrap();
    assert_eq!(public.module(), &Natural::from_u64(3233));
    assert_eq!(private.module(), &Natural::from_u64(3233));
    assert_eq!(public.exponent(), &Natural::from_u64(17));
    assert_eq!(private.exponent(), &Natural::from_u64(2753));
    assert_eq!(key_pair_from(&p, &q, &Natural::from_u64(12)).err(), Some(InversionError::NonCoprimes));
    assert_eq!(key_pair_from(&p, &q, &Natural::from_u64(0)).err(), Some(InversionError::NonCoprimes));
}

#[test]
fn candidates_are_odd_with_the_top_bit() {
    assert_eq!(candidate(8, &Natural::from_u64(0)), Natural::from_u64(129));
    assert_eq!(candidate(8, &Natural::from_u64(5)), Natural::from_u64(133));
    assert_eq!(candidate(8, &Natural::from_u64(127)), Natural::from_u64(255));
    assert_eq!(candidate(2, &Natural::from_u64(0)), Natural::from_u64(3));
}

#[test]
fn shortest_lengths_always_give_a_prime() {
    let mut rng = seeded(12);
    for _ in 0..20 {
        assert_eq!(generate(&mut rng, 2), Some(Natural::from_u64(3)));
        let p = generate(&mut rng, 3).unwrap();
        assert!(p == Natural::from_u64(5) || p == Natural::from_u64(7));
    }
}

#[test]
fn coprime_to_one_is_zero() {
    let mut rng = seeded(3);
    assert_eq!(generate_coprime_to(&mut rng, &Natural::from_u64(1)), Some(Natural::zero()));
    let e = generate_coprime_to(&mut rng, &Natural::from_u64(3120)).unwrap();
    assert_eq!(rsa_core::modulo::greatest_common_divisor(&e, &Natural::from_u64(3120)), Natural::from_u64(1));
}
