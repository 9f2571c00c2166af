//! Reading field elements out of instruction data.

use vstd::prelude::*;

use crate::bytes::be_to_limbs;
use crate::consts::{lemma_consts_values, MODULUS};
use crate::error::FpError;
use crate::fp::geq;
use crate::specs::{be_val, fp_nat, p_nat, Fp};

verus! {

/// Splits a payload into its first `total` bytes (the witness) and the rest
/// (the message); a payload shorter than `total` is refused.
pub fn split_witness(payload: &[u8], total: usize) -> (r: Result<(&[u8], &[u8]), FpError>)
    ensures
        r is Err <==> payload@.len() < total,
        r is Err ==> r == Err::<(&[u8], &[u8]), FpError>(FpError::InvalidInstructionData),
        r matches Ok(parts) ==> parts.0@ == payload@.subrange(0, total as int) && parts.1@
            == payload@.subrange(total as int, payload@.len() as int),
{
    if payload.len() < total {
        return Err(FpError::InvalidInstructionData);
    }
    Ok(payload.split_at(total))
}

/// Reads a 48-byte big-endian canonical field element; any other length, or
/// a value not below `p`, is refused.
pub fn wit48(bytes: &[u8]) -> (r: Result<Fp, FpError>)
    ensures
        r is Ok <==> bytes@.len() == 48 && be_val(bytes@) < p_nat(),
        r is Err ==> r == Err::<Fp, FpError>(FpError::InvalidInstructionData),
        r matches Ok(x) ==> fp_nat(x) == be_val(bytes@),
{
    if bytes.len() != 48 {
        return Err(FpError::InvalidInstructionData);
    }
    let mut arr = [0u8; 48];
    for i in 0..48
        invariant
            bytes@.len() == 48,
            forall|k: int| 0 <= k < i ==> #[trigger] arr[k] == bytes@[k],
    {
        arr[i] = bytes[i];
    }
    proof {
        assert(arr@ =~= bytes@);
        lemma_consts_values();
    }
    let limbs = be_to_limbs(&arr);
    if geq(&limbs, &MODULUS) {
        return Err(FpError::InvalidInstructionData);
    }
    Ok(limbs)
}

} // verus!
