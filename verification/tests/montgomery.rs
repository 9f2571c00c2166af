use bls381_hash::consts::{MODULUS, ONE, P32, R2};
use bls381_hash::montgomery::{
    from_mont, mont_mul, mont_mul_cios32, mont_redc_cios32, mont_sqr, split32, to_mont,
};

const A: [u64; 6] = [0x8899aabbccddeeff, 0x0011223344556677, 0xfedcba9876543210, 0x123456789abcdef0, 0, 0];
// p - 5
const B: [u64; 6] = [0xb9feffffffffaaa6, 0x1eabfffeb153ffff, 0x6730d2a0f6b0f624, 0x64774b84f38512bf, 0x4b1ba7b6434bacd7, 0x1a0111ea397fe69a];
// R mod p, the Montgomery form of one
const R_MOD_P: [u64; 6] = [0x760900000002fffd, 0xebf4000bc40c0002, 0x5f48985753c758ba, 0x77ce585370525745, 0x5c071a97a256ec6d, 0x15f65ec3fa80e493];

#[test]
fn split32_of_modulus_is_p32() {
    assert_eq!(split32(&MODULUS), P32);
    assert_eq!(split32(&[0x1122334455667788, 0, 0, 0, 0, 0])[0..2], [0x55667788, 0x11223344]);
}

#[test]
fn to_mont_of_one_is_r_mod_p() {
    assert_eq!(to_mont(&ONE), R_MOD_P);
    assert_eq!(to_mont(&[0; 6]), [0; 6]);
}

#[test]
fn to_mont_of_a() {
    let expected = [0x6a499d058be023b1, 0xe9868eee89933a98, 0x20c89636da77d0a5, 0x8b338844b5bcd5e9, 0x87720bcbbe03259c, 0x09083938f0614ea8];
    assert_eq!(to_mont(&A), expected);
}

#[test]
fn from_mont_of_a() {
    let expected = [0x84d43be19b2ae801, 0x0c8802bd84bb5943, 0xf49cba0480181b7c, 0x37ff0048a50c57dc, 0x0638b68b956c80d4, 0x071e926de6354014];
    assert_eq!(from_mont(&A), expected);
    assert_eq!(from_mont(&R_MOD_P), ONE);
}

#[test]
fn mont_mul_of_canonical_values() {
    // a b R^-1 mod p
    let expected = [0xdbd8d497f828cd51, 0xfeaff249caff41ad, 0x0752032b6ce962db, 0xb0f3959eadcc6e2e, 0x771bbeb29b78d589, 0x106947aef3f58cd0];
    assert_eq!(mont_mul(&A, &B), expected);
    assert_eq!(mont_mul(&B, &A), expected);
    assert_eq!(mont_mul_cios32(&A, &B), expected);
}

#[test]
fn mont_mul_of_maximal_limbs_reduces_once() {
    // (2^384 - 1)^2: the single conditional subtraction leaves a value above p
    let m = [u64::MAX; 6];
    let expected = [0x3ad48259380b9d73, 0x613512762744fafc, 0xcd0dd6d81de477a4, 0xb3205f8f65237b29, 0xa242bc70f903a6b3, 0xfafdb517af7b264f];
    assert_eq!(mont_mul(&m, &m), expected);
    assert_eq!(mont_sqr(&m), expected);
}

#[test]
fn mont_redc_of_maximal_limbs() {
    let expected = [0xc52b7da6c7f4628c, 0x9ecaed89d8bb0503, 0x32f22927e21b885b, 0x4cdfa0709adc84d6, 0x5dbd438f06fc594c, 0x05024ae85084d9b0];
    assert_eq!(mont_redc_cios32(&[u64::MAX; 6]), expected);
}

#[test]
fn montgomery_product_in_and_out() {
    let ab = [0x0efeaa54ffa9ffb0, 0x1e5654fe5ba8ffaa, 0x6ce12da6a70bfbd4, 0x09719b29edd4b80a, 0x4b1ba7b6434bacd7, 0x1a0111ea397fe69a];
    let prod = mont_mul(&to_mont(&A), &to_mont(&B));
    assert_eq!(prod, to_mont(&ab));
    assert_eq!(from_mont(&prod), ab);
}

#[test]
fn mont_sqr_matches_mont_mul() {
    assert_eq!(mont_sqr(&A), mont_mul(&A, &A));
    assert_eq!(mont_sqr(&B), mont_mul(&B, &B));
}

#[test]
fn from_mont_is_mont_mul_by_one() {
    for x in [A, B, R2, MODULUS, [u64::MAX; 6]] {
        assert_eq!(from_mont(&x), mont_mul(&x, &ONE));
    }
}

#[test]
fn montgomery_round_trips() {
    for x in [A, B, ONE, R2, [0; 6]] {
        assert_eq!(from_mont(&to_mont(&x)), x);
        assert_eq!(to_mont(&from_mont(&x)), x);
    }
}
