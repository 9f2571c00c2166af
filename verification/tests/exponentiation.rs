use bls381_hash::bytes::{be_to_limbs, limbs_to_be};
use bls381_hash::consts::{MODULUS, ONE};
use bls381_hash::error::FpError;
use bls381_hash::modexp::{exp_inverse, inverse_mont, modexp, modexp_params, modexp_result, ModExpParams};
use bls381_hash::montgomery::{from_mont, mont_mul, mont_sqr, to_mont};

const A: [u64; 6] = [0x8899aabbccddeeff, 0x0011223344556677, 0xfedcba9876543210, 0x123456789abcdef0, 0, 0];
const A_INV: [u64; 6] = [0xd1be23ac18df54cf, 0x1bdac08d874de8c8, 0x6fa346cb006f77e2, 0x2e9362b3befee233, 0x5a7bdad76bfd1b08, 0x016af7193a1386ef];
const R_MOD_P: [u64; 6] = [0x760900000002fffd, 0xebf4000bc40c0002, 0x5f48985753c758ba, 0x77ce585370525745, 0x5c071a97a256ec6d, 0x15f65ec3fa80e493];

/// A stand-in for the runtime service: square-and-multiply over the
/// library's Montgomery arithmetic, checking the modulus it is handed.
fn host_big_mod_exp(params: ModExpParams) -> (u64, [u8; 48]) {
    if params.modulus != limbs_to_be(&MODULUS) {
        return (1, [0; 48]);
    }
    let base = to_mont(&be_to_limbs(&params.base));
    let mut acc = to_mont(&ONE);
    for byte in params.exponent {
        for bit in (0..8).rev() {
            acc = mont_sqr(&acc);
            if (byte >> bit) & 1 == 1 {
                acc = mont_mul(&acc, &base);
            }
        }
    }
    (0, limbs_to_be(&from_mont(&acc)))
}

fn failing_big_mod_exp(_params: ModExpParams) -> (u64, [u8; 48]) {
    (3, [7; 48])
}

#[test]
fn modexp_params_encode_the_request() {
    let exp = exp_inverse();
    let params = modexp_params(&A, &exp);
    assert_eq!(params.base, limbs_to_be(&A));
    assert_eq!(params.exponent, exp);
    assert_eq!(params.modulus, limbs_to_be(&MODULUS));
}

#[test]
fn modexp_result_checks_the_return_code() {
    let out = limbs_to_be(&A);
    assert_eq!(modexp_result(0, &out), Ok(A));
    assert_eq!(modexp_result(1, &out), Err(FpError::InvalidInstructionData));
    assert_eq!(modexp_result(u64::MAX, &out), Err(FpError::InvalidInstructionData));
}

#[test]
fn modexp_fermat_inverse() {
    let inv = modexp(&A, &exp_inverse(), &host_big_mod_exp).unwrap();
    assert_eq!(inv, A_INV);
    let mut three = [0u8; 48];
    three[47] = 3;
    let cube = modexp(&[2, 0, 0, 0, 0, 0], &three, &host_big_mod_exp).unwrap();
    assert_eq!(cube, [8, 0, 0, 0, 0, 0]);
}

#[test]
fn modexp_refuses_a_failed_call() {
    assert_eq!(modexp(&A, &exp_inverse(), &failing_big_mod_exp), Err(FpError::InvalidInstructionData));
}

#[test]
fn inverse_mont_gives_the_montgomery_inverse() {
    let am = to_mont(&A);
    let inv = inverse_mont(&am, &exp_inverse(), &host_big_mod_exp).unwrap();
    assert_eq!(inv, to_mont(&A_INV));
    // a * a^-1 is one, in Montgomery form R mod p
    assert_eq!(mont_mul(&am, &inv), R_MOD_P);
}

#[test]
fn inverse_mont_refuses_a_failed_call() {
    let am = to_mont(&A);
    assert_eq!(inverse_mont(&am, &exp_inverse(), &failing_big_mod_exp), Err(FpError::InvalidInstructionData));
}
