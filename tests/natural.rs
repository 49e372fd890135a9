use rsa_core::natural::Natural;

#[test]
fn bytes_round_trip_drops_high_zeros() {
    let n = Natural::from_le_bytes(&[3, 2, 1, 0, 0]);
    assert_eq!(n, Natural::from_u64(0x010203));
    assert_eq!(n.to_le_bytes(), vec![3, 2, 1]);
    assert_eq!(n.to_le_bytes_padded(5), vec![3, 2, 1, 0, 0]);
    assert!(Natural::from_u64(0).to_le_bytes().is_empty());
    assert!(Natural::from_le_bytes(&[0, 0]).is_zero());
}

#[test]
fn machine_integer_conversions() {
    assert_eq!(Natural::from_u64(u64::MAX).to_u64(), u64::MAX);
    assert_eq!(Natural::from_u64(0).to_u64(), 0);
    assert_eq!(Natural::from_le_bytes(&[0x34, 0x12]).to_u64(), 0x1234);
    assert_eq!(Natural::from_u64(u64::MAX).to_le_bytes(), vec![0xff; 8]);
}

#[test]
fn powers_of_two_and_parity() {
    let mut expected = vec![0u8; 8];
    expected.push(0x40);
    assert_eq!(Natural::power_of_two(70).to_le_bytes(), expected);
    assert_eq!(Natural::power_of_two(0), Natural::from_u64(1));
    assert_eq!(Natural::power_of_two(63).to_u64(), 1 << 63);
    assert!(Natural::from_u64(7).is_odd());
    assert!(!Natural::from_u64(256).is_odd());
    assert!(!Natural::from_u64(0).is_odd());
    assert_eq!(Natural::from_u64(41).clone(), Natural::from_u64(41));
}
