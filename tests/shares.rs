use rand::rngs::StdRng;
use rand::SeedableRng;
use rsa_core::shares::{lagrange_coefficient, lagrange_is_defined, make_shares, recreate_secret, try_recreate_secret};

#[test]
fn test_calculate_lagrange_coefficient() {
    let shares = [(2, 383), (3, 1045), (4, 308)];
    let coefficients = shares
        .iter()
        .map(|&(index, _)| lagrange_coefficient(index, 1523, &shares))
        .collect::<Vec<_>>();

    assert_eq!(coefficients, vec![6, 1515, 3]);
}

#[test]
fn recreate_secret_of_quadratic_polynomial() {
    // f(x) = 125 + 7x + 3x^2 over the field of 1523 elements
    let prime = 1523u128;
    let f = |x: u128| (125 + 7 * x + 3 * x * x) % prime;
    let shares: Vec<(u128, u128)> = [2u128, 5, 11].iter().map(|&x| (x, f(x))).collect();
    assert_eq!(recreate_secret(prime, &shares), 125);
    let more: Vec<(u128, u128)> = [1u128, 4, 9, 20].iter().map(|&x| (x, f(x))).collect();
    assert_eq!(recreate_secret(prime, &more), 125);
}

#[test]
fn recreate_secret_from_large_prime() {
    let prime = 13_397_135_038_569_096_677u128;
    let secret = 987_654_321u128;
    let a = 4_000_000_007u128;
    let shares: Vec<(u128, u128)> = [3u128, 8].iter().map(|&x| (x, (secret + a * x) % prime)).collect();
    assert_eq!(recreate_secret(prime, &shares), secret);
}

#[test]
fn made_shares_recreate_the_secret() {
    let mut rng = StdRng::seed_from_u64(125);
    let (prime, shares) = make_shares(&mut rng, 125, 15, 4).unwrap();
    assert!(prime > 125 && prime >> 63 == 1);
    assert_eq!(shares.len(), 15);
    for (k, &(x, y)) in shares.iter().enumerate() {
        assert_eq!(x, k as u128 + 1);
        assert!(y < prime);
    }
    let chosen: Vec<(u128, u128)> = vec![shares[11], shares[7], shares[13], shares[9]];
    assert_eq!(recreate_secret(prime, &chosen), 125);
    let all_but_one: Vec<(u128, u128)> = shares[1..].to_vec();
    assert_eq!(recreate_secret(prime, &all_but_one), 125);
}

#[test]
fn single_required_share_is_the_secret() {
    let mut rng = StdRng::seed_from_u64(1);
    let (_, shares) = make_shares(&mut rng, 77, 3, 1).unwrap();
    assert!(shares.iter().all(|&(_, y)| y == 77));
}

#[test]
fn checked_recovery_refuses_undefined_coefficients() {

    let shares = [(2u128, 383u128), (3, 1045), (4, 308)];
    assert!(lagrange_is_defined(2, 1523, &shares));
    assert!(!lagrange_is_defined(2, 1, &shares));
    assert!(!lagrange_is_defined(2, 1523, &[(2, 5)]));
    // indices 1 and 7 agree modulo 6, so the denominator is not invertible
    assert!(!lagrange_is_defined(1, 6, &[(1, 0), (7, 0)]));
    assert_eq!(try_recreate_secret(1523, &shares), Some(recreate_secret(1523, &shares)));
    assert_eq!(try_recreate_secret(1523, &shares[..1]), None);
    assert_eq!(try_recreate_secret(6, &[(1, 0), (7, 0)]), None);
}
