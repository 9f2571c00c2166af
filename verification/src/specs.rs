//! The mathematical model of field elements: little-endian word vectors read
//! as natural numbers, big-endian byte strings, the BLS12-381 base-field
//! prime and the Montgomery reduction that the multiplier computes.

use vstd::prelude::*;

verus! {

/// A base-field element as six little-endian 64-bit limbs.
pub type Fp = [u64; 6];

/// `2^64`.
#[verifier::inline]
pub open spec fn b64() -> nat {
    0x1_0000_0000_0000_0000
}

/// `2^32`.
#[verifier::inline]
pub open spec fn b32() -> nat {
    0x1_0000_0000
}

/// Weight of the `k`-th 64-bit limb: `2^(64 k)`.
pub open spec fn w64(k: nat) -> nat
    decreases k,
{
    if k == 0 {
        1
    } else {
        w64((k - 1) as nat) * b64()
    }
}

/// Weight of the `k`-th 32-bit lane: `2^(32 k)`.
pub open spec fn w32(k: nat) -> nat
    decreases k,
{
    if k == 0 {
        1
    } else {
        w32((k - 1) as nat) * b32()
    }
}

/// Little-endian value of 64-bit limbs.
pub open spec fn val64(s: Seq<u64>) -> nat
    decreases s.len(),
{
    if s.len() == 0 {
        0
    } else {
        val64(s.drop_last()) + w64((s.len() - 1) as nat) * (s.last() as nat)
    }
}

/// Little-endian value of 32-bit lanes (each held in a `u64`; a lane may
/// exceed `2^32`, it then simply carries more weight).
pub open spec fn val32(s: Seq<u64>) -> nat
    decreases s.len(),
{
    if s.len() == 0 {
        0
    } else {
        val32(s.drop_last()) + w32((s.len() - 1) as nat) * (s.last() as nat)
    }
}

/// Big-endian value of a byte string.
pub open spec fn be_val(s: Seq<u8>) -> nat
    decreases s.len(),
{
    if s.len() == 0 {
        0
    } else {
        be_val(s.drop_last()) * 256 + (s.last() as nat)
    }
}

/// The integer that a field element's limbs denote.
pub open spec fn fp_nat(a: Fp) -> nat {
    val64(a@)
}

/// The BLS12-381 base-field prime `p`.
pub open spec fn p_nat() -> nat {
    0x1a0111ea397fe69a4b1ba7b6434bacd764774b84f38512bf6730d2a0f6b0f6241eabfffeb153ffffb9feffffffffaaabnat
}

/// The Montgomery radix `R = 2^384`, also the range of six limbs.
pub open spec fn r_nat() -> nat {
    0x1_000000000000000000000000000000000000000000000000000000000000000000000000000000000000000000000000nat
}

/// `-p^-1 mod R`: the factor that makes `x + ((x * n') mod R) * p` divisible by `R`.
pub open spec fn n_prime() -> nat {
    0xceb06106feaafc9468b316fee268cf5819ecca0e8eb2db4c16ef2ef0c8e30b48286adb92d9d113e889f3fffcfffcfffdnat
}

/// The Montgomery quotient of `x`: the unique `m < R` with `x + m p = 0 (mod R)`.
pub open spec fn mont_quotient(x: nat) -> nat {
    (x * n_prime()) % r_nat()
}

/// Montgomery reduction with one conditional subtraction:
/// `t = (x + m p) / R`, then `t - p` when `t >= p`.
pub open spec fn mont_reduce(x: nat) -> nat {
    let t = (x + mont_quotient(x) * p_nat()) / r_nat();
    if t >= p_nat() {
        (t - p_nat()) as nat
    } else {
        t
    }
}

/// A field element is canonical when its value lies below `p`.
pub open spec fn is_canonical(a: Fp) -> bool {
    fp_nat(a) < p_nat()
}

/// The big-endian value of the eight bytes of `s` from offset `o` on.
pub open spec fn be8(s: Seq<u8>, o: int) -> nat {
    (s[o] * 0x100_0000_0000_0000 + s[o + 1] * 0x1_0000_0000_0000 + s[o + 2] * 0x100_0000_0000
        + s[o + 3] * 0x1_0000_0000 + s[o + 4] * 0x100_0000 + s[o + 5] * 0x1_0000 + s[o + 6] * 0x100
        + s[o + 7]) as nat
}

/// The `k`-th big-endian word of a byte string.
pub open spec fn be_word(s: Seq<u8>, k: int) -> nat {
    be8(s, 8 * k)
}

} // verus!
