use cryptanalysis::types::{same_symbol, NumBytes};

#[test]
fn num_bytes() {
    assert_eq!(u8::BYTES, 1);
    assert_eq!(u16::BYTES, 2);
    assert_eq!(u32::BYTES, 4);
    assert_eq!(u64::BYTES, 8);
    assert_eq!(u128::BYTES, 16);
}

#[test]
fn symbols_are_numbers() {
    assert_eq!(0xabu8.to_u128(), 0xab);
    assert_eq!(0xabcdu16.to_u128(), 0xabcd);
    assert_eq!(u32::MAX.to_u128(), 0xffff_ffff);
    assert_eq!(u64::MAX.to_u128(), 0xffff_ffff_ffff_ffff);
    assert_eq!(u128::MAX.to_u128(), u128::MAX);
    assert_eq!(u8::from_u128(255), 255u8);
    assert_eq!(u16::from_u128(65535), 65535u16);
    assert_eq!(u32::from_u128(7), 7u32);
    assert_eq!(u64::from_u128(1 << 63), 1u64 << 63);
    assert_eq!(u128::from_u128(u128::MAX), u128::MAX);
}

#[test]
fn same_symbol_compares_numbers() {
    assert!(same_symbol(17u8, 17u8));
    assert!(!same_symbol(17u64, 18u64));
}
