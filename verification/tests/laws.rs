use bls381_hash::bytes::{be_to_limbs, limbs_to_be};
use bls381_hash::consts::MODULUS;
use bls381_hash::fp::{add_mod, neg_mod, sub_mod};
use bls381_hash::witness::wit48;

const A: [u64; 6] = [0x8899aabbccddeeff, 0x0011223344556677, 0xfedcba9876543210, 0x123456789abcdef0, 0, 0];
const B: [u64; 6] = [0xb9feffffffffaaa6, 0x1eabfffeb153ffff, 0x6730d2a0f6b0f624, 0x64774b84f38512bf, 0x4b1ba7b6434bacd7, 0x1a0111ea397fe69a];

#[test]
fn sub_mod_undoes_add_mod() {
    for (x, y) in [(A, B), (B, A), (A, A), (B, B), ([0; 6], B)] {
        assert_eq!(sub_mod(&add_mod(&x, &y), &y), x);
        assert_eq!(add_mod(&sub_mod(&x, &y), &y), x);
    }
}

#[test]
fn neg_mod_is_an_additive_inverse() {
    for x in [A, B, [0; 6], [1, 0, 0, 0, 0, 0]] {
        assert_eq!(add_mod(&x, &neg_mod(&x)), [0; 6]);
    }
}

#[test]
fn wit48_reads_back_encodings() {
    for x in [A, B, [0; 6]] {
        assert_eq!(wit48(&limbs_to_be(&x)), Ok(x));
        assert_eq!(be_to_limbs(&limbs_to_be(&x)), x);
    }
    assert!(wit48(&limbs_to_be(&MODULUS)).is_err());
}
