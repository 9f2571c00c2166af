use bls381_hash::consts::{MODULUS, ONE};
use bls381_hash::fp::{add_carryless, add_mod, geq, is_zero, neg_mod, shr1, sub_mod, sub_nocheck};

const A: [u64; 6] = [0x8899aabbccddeeff, 0x0011223344556677, 0xfedcba9876543210, 0x123456789abcdef0, 0, 0];
// p - 5
const B: [u64; 6] = [0xb9feffffffffaaa6, 0x1eabfffeb153ffff, 0x6730d2a0f6b0f624, 0x64774b84f38512bf, 0x4b1ba7b6434bacd7, 0x1a0111ea397fe69a];
const ZERO: [u64; 6] = [0; 6];

#[test]
fn add_small_values() {
    let a = [1u64, 0, 0, 0, 0, 0];
    let b = [2u64, 0, 0, 0, 0, 0];
    assert_eq!(add_mod(&a, &b), [3u64, 0, 0, 0, 0, 0]);
}

#[test]
fn add_mod_reduces_past_p() {
    // a + (p - 5) = a - 5 (mod p)
    let expected = [0x8899aabbccddeefa, 0x0011223344556677, 0xfedcba9876543210, 0x123456789abcdef0, 0, 0];
    assert_eq!(add_mod(&A, &B), expected);
    assert_eq!(add_mod(&B, &A), expected);
}

#[test]
fn add_mod_with_top_carry() {
    // two values near 2^384: the sum carries out of the top limb
    let big = [u64::MAX; 6];
    let r = add_mod(&big, &big);
    // 2 (2^384 - 1) - p, reduced modulo 2^384, is 2^384 - 2 - p
    assert_eq!(r, [0x4601000000005553, 0xe15400014eac0000, 0x98cf2d5f094f09db, 0x9b88b47b0c7aed40, 0xb4e45849bcb45328, 0xe5feee15c6801965]);
}

#[test]
fn sub_mod_both_directions() {
    let a_minus_b = [0x8899aabbccddef04, 0x0011223344556677, 0xfedcba9876543210, 0x123456789abcdef0, 0, 0];
    let b_minus_a = [0x316555443321bba7, 0x1e9addcb6cfe9988, 0x68541808805cc414, 0x5242f50c58c833ce, 0x4b1ba7b6434bacd7, 0x1a0111ea397fe69a];
    assert_eq!(sub_mod(&A, &B), a_minus_b);
    assert_eq!(sub_mod(&B, &A), b_minus_a);
    assert_eq!(sub_mod(&A, &A), ZERO);
}

#[test]
fn sub_nocheck_wraps() {
    let r = sub_nocheck(&ZERO, &ONE);
    assert_eq!(r, [u64::MAX; 6]);
    assert_eq!(sub_nocheck(&MODULUS, &MODULUS), ZERO);
}

#[test]
fn add_carryless_adds_p_and_drops_the_carry() {
    assert_eq!(add_carryless(&ZERO), MODULUS);
    // (2^384 - 1) + p wraps to p - 1
    let mut p_minus_one = MODULUS;
    p_minus_one[0] -= 1;
    assert_eq!(add_carryless(&[u64::MAX; 6]), p_minus_one);
}

#[test]
fn neg_mod_values() {
    assert_eq!(neg_mod(&ZERO), ZERO);
    let minus_a = [0x316555443321bbac, 0x1e9addcb6cfe9988, 0x68541808805cc414, 0x5242f50c58c833ce, 0x4b1ba7b6434bacd7, 0x1a0111ea397fe69a];
    assert_eq!(neg_mod(&A), minus_a);
    assert_eq!(neg_mod(&B), [5, 0, 0, 0, 0, 0]);
}

#[test]
fn is_zero_checks_every_limb() {
    assert!(is_zero(&ZERO));
    assert!(!is_zero(&ONE));
    assert!(!is_zero(&[0, 0, 0, 0, 0, 1]));
}

#[test]
fn geq_compares_from_the_top() {
    assert!(geq(&MODULUS, &MODULUS));
    assert!(geq(&MODULUS, &B));
    assert!(!geq(&B, &MODULUS));
    assert!(geq(&[0, 0, 0, 0, 0, 1], &[u64::MAX, u64::MAX, u64::MAX, u64::MAX, u64::MAX, 0]));
    assert!(!geq(&ZERO, &ONE));
}

#[test]
fn shr1_halves() {
    assert_eq!(shr1(&[0, 1, 0, 0, 0, 0]), [1u64 << 63, 0, 0, 0, 0, 0]);
    assert_eq!(shr1(&[3, 0, 0, 0, 0, 0]), [1, 0, 0, 0, 0, 0]);
    assert_eq!(shr1(&[u64::MAX; 6]), [u64::MAX, u64::MAX, u64::MAX, u64::MAX, u64::MAX, u64::MAX >> 1]);
}
