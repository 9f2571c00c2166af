//! Field constants of BLS12-381's base field.

use vstd::prelude::*;

use crate::specs::{fp_nat, p_nat, r_nat, val32, Fp};
use crate::lemmas::lemma_fp_nat_expand;

verus! {

/// The prime `p` as little-endian limbs.
pub const MODULUS: Fp = [
    0xb9fe_ffff_ffff_aaab,
    0x1eab_fffe_b153_ffff,
    0x6730_d2a0_f6b0_f624,
    0x6477_4b84_f385_12bf,
    0x4b1b_a7b6_434b_acd7,
    0x1a01_11ea_397f_e69a,
];

/// `R^2 mod p` with `R = 2^384`; multiplying by it in Montgomery form
/// enters Montgomery form.
pub const R2: Fp = [
    0xf4df_1f34_1c34_1746,
    0x0a76_e6a6_09d1_04f1,
    0x8de5_476c_4c95_b6d5,
    0x67eb_88a9_939d_83c0,
    0x9a79_3e85_b519_952d,
    0x1198_8fe5_92ca_e3aa,
];

/// `-p^-1 mod 2^64`.
pub const INV: u64 = 0x89f3_fffc_fffc_fffd;

/// The low 32 bits of `INV`: `-p^-1 mod 2^32`.
pub const INV32: u64 = 0xfffc_fffd;

/// The integer one as limbs (not in Montgomery form).
pub const ONE: Fp = [1, 0, 0, 0, 0, 0];

/// The modulus in twelve 32-bit lanes, least significant first.
pub const P32: [u64; 12] = [
    0xffff_aaab,
    0xb9fe_ffff,
    0xb153_ffff,
    0x1eab_fffe,
    0xf6b0_f624,
    0x6730_d2a0,
    0xf385_12bf,
    0x6477_4b84,
    0x434b_acd7,
    0x4b1b_a7b6,
    0x397f_e69a,
    0x1a01_11ea,
];

/// `R^2 mod p` as an integer.
pub open spec fn r2_nat() -> nat {
    (r_nat() * r_nat()) % p_nat()
}

/// The limb constants denote the values they are named after.
pub proof fn lemma_consts_values()
    ensures
        fp_nat(MODULUS) == p_nat(),
        fp_nat(R2) == r2_nat(),
        fp_nat(ONE) == 1,
        val32(P32@) == p_nat(),
        forall|i: int| 0 <= i < 12 ==> P32[i] < 0x1_0000_0000,
        INV32 == INV & 0xffff_ffff,
        (INV32 * P32[0] + 1) % 0x1_0000_0000 == 0,
        p_nat() < r_nat(),
        p_nat() % 2 == 1,
{
    lemma_fp_nat_expand(MODULUS);
    lemma_fp_nat_expand(R2);
    lemma_fp_nat_expand(ONE);
    crate::lemmas::lemma_mod_of_offset(
        (r_nat() * r_nat()) as int,
        0x11988fe592cae3aa9a793e85b519952d67eb88a9939d83c08de5476c4c95b6d50a76e6a609d104f1f4df1f341c341746int,
        0x9d835d2f3cc9e45ce28101b0cc7a6ba291b82741ff6a0a94bdf4771e0286779d3997167a058f1c07b13e207f56591ba2eint,
        p_nat() as int,
    );
    lemma_p32_value();
    assert(INV32 == INV & 0xffff_ffff) by (bit_vector);
}

proof fn lemma_p32_value()
    ensures
        val32(P32@) == p_nat(),
{
    crate::lemmas::lemma_val32_expand12(P32@);
}

} // verus!
