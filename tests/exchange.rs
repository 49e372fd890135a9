use rsa_core::bbs::bbs_with;
use rsa_core::dh::Key;
use rand::rngs::StdRng;
use rand::SeedableRng;
use rsa_core::hashes::{Md5, Sha256};
use rsa_core::natural::Natural;
use rsa_core::sac::{count_differences, flip_first_bit, hashes_balanced, is_balanced, sac_counts};

fn seeded(seed: u64) -> StdRng {
    StdRng::seed_from_u64(seed)
}

#[test]
fn both_parties_derive_the_same_session_key() {
    let mut rng = seeded(2409);
    let mut alice = Key::create_exchange_keys_with(&mut rng, 256);
    let mut bob = Key::create_exchange_keys_with(&mut rng, 256);
    assert!(alice.get_session_key().is_none());
    let alice_public = alice.get_public_key().clone();
    let bob_public = bob.get_public_key().clone();
    assert_ne!(alice_public, bob_public);
    alice.create_session_key(&bob_public);
    bob.create_session_key(&alice_public);
    assert_eq!(alice.get_session_key(), bob.get_session_key());
    assert!(alice.get_session_key().is_some());
}

#[test]
fn small_private_exponent_gives_known_public_value() {
    let mut rng = seeded(1);
    let key = Key::create_exchange_keys_with(&mut rng, 3);
    // the private exponent lies in [8, 16), so the public value is 2^8 .. 2^15
    let public = key.get_public_key();
    let allowed: Vec<Natural> = (8..16).map(|e| Natural::from_u64(1u64 << e)).collect();
    assert!(allowed.contains(public));
}

#[test]
fn bbs_bits_are_reproducible_from_the_seed() {
    let mut rng = seeded(5);
    let bits = bbs_with(&mut rng, 64, 16, 40).unwrap().to_bools();
    assert_eq!(bits.len(), 64);
    let mut again = seeded(5);
    assert_eq!(bbs_with(&mut again, 64, 16, 40).unwrap().to_bools(), bits);
    assert!(bits.iter().any(|&b| b) && bits.iter().any(|&b| !b));
}

#[test]
fn avalanche_helpers() {
    assert_eq!(flip_first_bit(&[0x01, 0x02]), vec![0x81, 0x02]);
    assert_eq!(count_differences(b"abcd", b"abzz"), 2);
    assert_eq!(count_differences(b"abcd", b"ab"), 0);
    assert!(is_balanced(50, 100));
    assert!(!is_balanced(48, 100));
    assert!(!is_balanced(52, 100));
    assert!(!is_balanced(0, 0));
    assert!(hashes_balanced(b"0000000000", b"1111100000"));
}

#[test]
fn sha256_mostly_meets_the_avalanche_criterion() {
    let dataset = ["alpha", "beta", "gamma", "delta", "epsilon", "zeta", "eta", "theta"];
    let (passed, total) = sac_counts(&mut Sha256, &dataset);
    assert_eq!(total, 8);
    assert!(passed <= 8);
    let (_, total) = sac_counts(&mut Md5, &dataset[..3]);
    assert_eq!(total, 3);
}
