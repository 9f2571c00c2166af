//! Exponents for Fermat inversion, the Legendre symbol and square roots, and
//! exponentiation through the runtime's big-integer `big_mod_exp` service.
//!
//! The service itself is reached through the caller: `modexp` and
//! `inverse_mont` take it as a function from the request to the runtime's
//! return code and 48-byte output, and decide everything else.

use vstd::prelude::*;

use crate::bytes::{be_to_limbs, limbs_to_be};
use crate::consts::{lemma_consts_values, MODULUS, ONE};
use crate::error::FpError;
use crate::fp::{shr1, sub_nocheck};
use crate::lemmas::lemma_fp_nat_expand;
use crate::montgomery::{from_mont, to_mont};
use crate::specs::{be_val, fp_nat, mont_reduce, p_nat, r_nat, Fp};

verus! {

/// `p - 2` as 48 big-endian bytes: the exponent of Fermat inversion.
pub fn exp_inverse() -> (e: [u8; 48])
    ensures
        be_val(e@) == p_nat() - 2,
{
    proof {
        lemma_consts_values();
    }
    let two: Fp = [2, 0, 0, 0, 0, 0];
    proof {
        lemma_fp_nat_expand(two);
        vstd::arithmetic::div_mod::lemma_small_mod((p_nat() - 2) as nat, r_nat());
    }
    limbs_to_be(&sub_nocheck(&MODULUS, &two))
}

/// `(p - 1) / 2` as 48 big-endian bytes: the Legendre-symbol exponent.
pub fn exp_legendre() -> (e: [u8; 48])
    ensures
        be_val(e@) == (p_nat() - 1) / 2,
{
    proof {
        lemma_consts_values();
        vstd::arithmetic::div_mod::lemma_small_mod((p_nat() - 1) as nat, r_nat());
    }
    limbs_to_be(&shr1(&sub_nocheck(&MODULUS, &ONE)))
}

/// `(p + 1) / 4` as 48 big-endian bytes: the square-root exponent (`p = 3 mod 4`).
pub fn exp_sqrt() -> (e: [u8; 48])
    ensures
        be_val(e@) == (p_nat() + 1) / 4,
{
    proof {
        lemma_consts_values();
        lemma_fp_nat_expand(MODULUS);
    }
    let mut p1 = MODULUS;
    p1[0] += 1;
    proof {
        lemma_fp_nat_expand(p1);
        assert(fp_nat(p1) == p_nat() + 1);
    }
    limbs_to_be(&shr1(&shr1(&p1)))
}

/// The request for one modular exponentiation: base, exponent and modulus,
/// each 48 big-endian bytes.
#[derive(Clone, Copy)]
pub struct ModExpParams {
    pub base: [u8; 48],
    pub exponent: [u8; 48],
    pub modulus: [u8; 48],
}

/// The request `base^exp mod p` for a canonical-form base.
pub fn modexp_params(base: &Fp, exp: &[u8; 48]) -> (params: ModExpParams)
    ensures
        be_val(params.base@) == fp_nat(*base),
        params.exponent == *exp,
        be_val(params.modulus@) == p_nat(),
{
    proof {
        lemma_consts_values();
    }
    ModExpParams { base: limbs_to_be(base), exponent: *exp, modulus: limbs_to_be(&MODULUS) }
}

/// The answer to a request: a nonzero return code is refused, otherwise the
/// 48 output bytes are read as limbs.
pub fn modexp_result(rc: u64, out: &[u8; 48]) -> (r: Result<Fp, FpError>)
    ensures
        r is Ok <==> rc == 0,
        r is Err ==> r == Err::<Fp, FpError>(FpError::InvalidInstructionData),
        r matches Ok(x) ==> fp_nat(x) == be_val(out@),
{
    if rc != 0 {
        return Err(FpError::InvalidInstructionData);
    }
    Ok(be_to_limbs(out))
}

/// Whether `r` is what `modexp` returns for `base` and `exp` when the service
/// answered `(rc, out)` to the request it was handed.
pub open spec fn modexp_outcome(
    base_value: nat,
    exp: [u8; 48],
    params: ModExpParams,
    rc: u64,
    out: [u8; 48],
    r: Result<Fp, FpError>,
) -> bool {
    &&& be_val(params.base@) == base_value
    &&& params.exponent == exp
    &&& be_val(params.modulus@) == p_nat()
    &&& (r is Ok <==> rc == 0)
    &&& (r is Err ==> r == Err::<Fp, FpError>(FpError::InvalidInstructionData))
    &&& (r matches Ok(x) ==> fp_nat(x) == be_val(out@))
}

/// `base^exp mod p` of a canonical-form element, computed by the runtime
/// service `big_mod_exp`; a nonzero return code is refused.
pub fn modexp<F: Fn(ModExpParams) -> (u64, [u8; 48])>(
    base: &Fp,
    exp: &[u8; 48],
    big_mod_exp: &F,
) -> (r: Result<Fp, FpError>)
    requires
        forall|params: ModExpParams| big_mod_exp.requires((params,)),
    ensures
        exists|params: ModExpParams, rc: u64, out: [u8; 48]|
            big_mod_exp.ensures((params,), (rc, out)) && #[trigger] modexp_outcome(
                fp_nat(*base),
                *exp,
                params,
                rc,
                out,
                r,
            ),
{
    let params = modexp_params(base, exp);
    let (rc, out) = big_mod_exp(params);
    let r = modexp_result(rc, &out);
    proof {
        assert(modexp_outcome(fp_nat(*base), *exp, params, rc, out, r));
    }
    r
}

/// Inverse of a Montgomery-form element, returned in Montgomery form: the
/// element leaves Montgomery form, is raised to `exp_inv` by the service,
/// and the power re-enters Montgomery form.
pub fn inverse_mont<F: Fn(ModExpParams) -> (u64, [u8; 48])>(
    a: &Fp,
    exp_inv: &[u8; 48],
    big_mod_exp: &F,
) -> (r: Result<Fp, FpError>)
    requires
        forall|params: ModExpParams| big_mod_exp.requires((params,)),
    ensures
        exists|params: ModExpParams, rc: u64, out: [u8; 48], x: Result<Fp, FpError>|
            big_mod_exp.ensures((params,), (rc, out)) && #[trigger] modexp_outcome(
                mont_reduce(fp_nat(*a)),
                *exp_inv,
                params,
                rc,
                out,
                x,
            ) && (r is Ok <==> x is Ok) && (r is Err ==> r == x) && (r matches Ok(y)
                ==> fp_nat(y) == (be_val(out@) * r_nat()) % p_nat()),
{
    let canonical = from_mont(a);
    let x = modexp(&canonical, exp_inv, big_mod_exp);
    match x {
        Ok(v) => {
            let y = to_mont(&v);
            Ok(y)
        },
        Err(e) => Err(e),
    }
}

} // verus!
