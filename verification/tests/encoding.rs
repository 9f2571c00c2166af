use bls381_hash::bytes::{be_to_limbs, limbs_to_be};
use bls381_hash::consts::{MODULUS, ONE};
use bls381_hash::modexp::{exp_inverse, exp_legendre, exp_sqrt};

const P_BYTES: [u8; 48] = [0x1a, 0x01, 0x11, 0xea, 0x39, 0x7f, 0xe6, 0x9a, 0x4b, 0x1b, 0xa7, 0xb6, 0x43, 0x4b, 0xac, 0xd7, 0x64, 0x77, 0x4b, 0x84, 0xf3, 0x85, 0x12, 0xbf, 0x67, 0x30, 0xd2, 0xa0, 0xf6, 0xb0, 0xf6, 0x24, 0x1e, 0xab, 0xff, 0xfe, 0xb1, 0x53, 0xff, 0xff, 0xb9, 0xfe, 0xff, 0xff, 0xff, 0xff, 0xaa, 0xab];

#[test]
fn limbs_to_be_of_modulus() {
    assert_eq!(limbs_to_be(&MODULUS), P_BYTES);
    let mut one = [0u8; 48];
    one[47] = 1;
    assert_eq!(limbs_to_be(&ONE), one);
}

#[test]
fn be_to_limbs_of_modulus() {
    assert_eq!(be_to_limbs(&P_BYTES), MODULUS);
    let mut top = [0u8; 48];
    top[0] = 0x80;
    assert_eq!(be_to_limbs(&top), [0, 0, 0, 0, 0, 1u64 << 63]);
}

#[test]
fn byte_encoding_round_trips() {
    let x = [0x0102030405060708, 0x1112131415161718, 0x2122232425262728, 0x3132333435363738, 0x4142434445464748, 0x5152535455565758];
    assert_eq!(be_to_limbs(&limbs_to_be(&x)), x);
    let mut b = [0u8; 48];
    for (i, v) in b.iter_mut().enumerate() {
        *v = (i as u8).wrapping_mul(37).wrapping_add(11);
    }
    assert_eq!(limbs_to_be(&be_to_limbs(&b)), b);
}

#[test]
fn exponent_of_inverse_is_p_minus_two() {
    let mut expected = P_BYTES;
    expected[47] = 0xa9;
    assert_eq!(exp_inverse(), expected);
}

#[test]
fn exponent_of_legendre_symbol() {
    let expected = [0x0d, 0x00, 0x88, 0xf5, 0x1c, 0xbf, 0xf3, 0x4d, 0x25, 0x8d, 0xd3, 0xdb, 0x21, 0xa5, 0xd6, 0x6b, 0xb2, 0x3b, 0xa5, 0xc2, 0x79, 0xc2, 0x89, 0x5f, 0xb3, 0x98, 0x69, 0x50, 0x7b, 0x58, 0x7b, 0x12, 0x0f, 0x55, 0xff, 0xff, 0x58, 0xa9, 0xff, 0xff, 0xdc, 0xff, 0x7f, 0xff, 0xff, 0xff, 0xd5, 0x55];
    assert_eq!(exp_legendre(), expected);
}

#[test]
fn exponent_of_square_root() {
    let expected = [0x06, 0x80, 0x44, 0x7a, 0x8e, 0x5f, 0xf9, 0xa6, 0x92, 0xc6, 0xe9, 0xed, 0x90, 0xd2, 0xeb, 0x35, 0xd9, 0x1d, 0xd2, 0xe1, 0x3c, 0xe1, 0x44, 0xaf, 0xd9, 0xcc, 0x34, 0xa8, 0x3d, 0xac, 0x3d, 0x89, 0x07, 0xaa, 0xff, 0xff, 0xac, 0x54, 0xff, 0xff, 0xee, 0x7f, 0xbf, 0xff, 0xff, 0xff, 0xea, 0xab];
    assert_eq!(exp_sqrt(), expected);
}
