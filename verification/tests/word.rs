use bls381_hash::word::{adc, mac, mac32, mul_64x64, sbb};

#[test]
fn mul_64x64_of_maxima() {
    // (2^64 - 1)^2 = 2^128 - 2^65 + 1
    assert_eq!(mul_64x64(u64::MAX, u64::MAX), (1, u64::MAX - 1));
}

#[test]
fn mul_64x64_small_and_mixed() {
    assert_eq!(mul_64x64(0, u64::MAX), (0, 0));
    assert_eq!(mul_64x64(3, 5), (15, 0));
    assert_eq!(mul_64x64(1 << 32, 1 << 32), (0, 1));
    assert_eq!(mul_64x64(0xffff_ffff, 0x1_0000_0001), (0xffff_ffff_ffff_ffff, 0));
}

#[test]
fn mac_reaches_the_top() {
    // (2^64-1) + (2^64-1)^2 + (2^64-1) = 2^128 - 1
    assert_eq!(mac(u64::MAX, u64::MAX, u64::MAX, u64::MAX), (u64::MAX, u64::MAX));
    assert_eq!(mac(1, 2, 3, 4), (11, 0));
}

#[test]
fn adc_carries() {
    assert_eq!(adc(u64::MAX, 1, 0), (0, 1));
    assert_eq!(adc(u64::MAX, u64::MAX, 1), (u64::MAX, 1));
    assert_eq!(adc(u64::MAX, u64::MAX, u64::MAX), (u64::MAX - 2, 2));
    assert_eq!(adc(2, 3, 1), (6, 0));
}

#[test]
fn sbb_borrows() {
    assert_eq!(sbb(0, 1, 0), (u64::MAX, 1));
    assert_eq!(sbb(5, 3, 1), (1, 0));
    assert_eq!(sbb(0, 0, 1), (u64::MAX, 1));
    assert_eq!(sbb(0, u64::MAX, 1), (0, 1));
    assert_eq!(sbb(0, u64::MAX, u64::MAX), (2, 2));
}

#[test]
fn mac32_splits_at_32_bits() {
    let m = 0xffff_ffffu64;
    // m + m*m + m = 2^64 - 1
    assert_eq!(mac32(m, m, m, m), (m, m));
    assert_eq!(mac32(1, 2, 3, 4), (11, 0));
    assert_eq!(mac32(0, 1 << 16, 1 << 16, 0), (0, 1));
}
