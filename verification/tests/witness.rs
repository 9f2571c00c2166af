use bls381_hash::bytes::limbs_to_be;
use bls381_hash::consts::MODULUS;
use bls381_hash::error::FpError;
use bls381_hash::witness::{split_witness, wit48};

#[test]
fn split_witness_takes_the_prefix() {
    let payload = [1u8, 2, 3, 4, 5];
    let (w, m) = split_witness(&payload, 2).unwrap();
    assert_eq!(w, &[1, 2]);
    assert_eq!(m, &[3, 4, 5]);
    let (w, m) = split_witness(&payload, 5).unwrap();
    assert_eq!(w, &payload[..]);
    assert!(m.is_empty());
}

#[test]
fn split_witness_refuses_short_payload() {
    assert_eq!(split_witness(&[1u8, 2], 3), Err(FpError::InvalidInstructionData));
    assert_eq!(split_witness(&[], 1), Err(FpError::InvalidInstructionData));
}

#[test]
fn wit48_reads_a_canonical_element() {
    let mut p_minus_one = MODULUS;
    p_minus_one[0] -= 1;
    assert_eq!(wit48(&limbs_to_be(&p_minus_one)), Ok(p_minus_one));
    assert_eq!(wit48(&[0u8; 48]), Ok([0u64; 6]));
}

#[test]
fn wit48_refuses_non_canonical_values() {
    assert_eq!(wit48(&limbs_to_be(&MODULUS)), Err(FpError::InvalidInstructionData));
    assert_eq!(wit48(&[0xffu8; 48]), Err(FpError::InvalidInstructionData));
}

#[test]
fn wit48_refuses_other_lengths() {
    assert_eq!(wit48(&[0u8; 47]), Err(FpError::InvalidInstructionData));
    assert_eq!(wit48(&[0u8; 49]), Err(FpError::InvalidInstructionData));
    assert_eq!(wit48(&[]), Err(FpError::InvalidInstructionData));
}
