use rsa_core::modulo::{find_inverse_in_modulo_ring, greatest_common_divisor, inverse, InversionError};
use rsa_core::natural::Natural;

#[test]
fn test_correct_modulo_inverse() {
    let source = vec![(127, 100), (100, 21), (15, 52)];
    let expected = vec![63, 4, 7];
    let actual: Vec<u128> = source
        .iter()
        .map(|&(inverted, module)| inverse(inverted, module).unwrap())
        .collect();

    assert_eq!(expected, actual);
}

#[test]
fn test_non_coprime_modulo_inverse() {
    let actual = inverse(15, 51);

    assert!(actual.is_err());
    assert_eq!(actual.unwrap_err(), InversionError::NonCoprimes)
}

#[test]
fn test_inverse() {
    let result = find_inverse_in_modulo_ring(&Natural::from_u64(11), &Natural::from_u64(26)).unwrap();

    assert_eq!(result, Natural::from_u64(19));
}

#[test]
fn inverse_known_vector() {
    assert_eq!(inverse(11, 26), Ok(19));
}

#[test]
fn inverse_of_zero_is_zero() {
    assert_eq!(inverse(0, 26), Ok(0));
    assert_eq!(find_inverse_in_modulo_ring(&Natural::zero(), &Natural::from_u64(26)), Ok(Natural::zero()));
}

#[test]
fn inverse_modulo_one_is_zero() {
    assert_eq!(inverse(5, 1), Ok(0));
}

#[test]
fn big_inverse_matches_small_inverse() {
    for &(t, m) in &[(127u64, 100u64), (100, 21), (15, 52), (3, 7), (65537, 3_233_000_111)] {
        let small = inverse(t, m).unwrap();
        let big = find_inverse_in_modulo_ring(&Natural::from_u64(t), &Natural::from_u64(m)).unwrap();
        assert_eq!(big, Natural::from_u64(small as u64));
        assert_eq!((t as u128 * small) % m as u128, 1);
    }
}

#[test]
fn big_inverse_rejects_common_factor() {
    let r = find_inverse_in_modulo_ring(&Natural::from_u64(15), &Natural::from_u64(51));
    assert_eq!(r, Err(InversionError::NonCoprimes));
}

#[test]
fn gcd_of_known_pairs() {
    let g = greatest_common_divisor(&Natural::from_u64(51), &Natural::from_u64(15));
    assert_eq!(g, Natural::from_u64(3));
    let g = greatest_common_divisor(&Natural::from_u64(26), &Natural::from_u64(11));
    assert_eq!(g, Natural::from_u64(1));
    let g = greatest_common_divisor(&Natural::from_u64(0), &Natural::from_u64(9));
    assert_eq!(g, Natural::from_u64(9));
}
