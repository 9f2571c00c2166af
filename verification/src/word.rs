//! Single-word primitives: wide products, add-with-carry, subtract-with-borrow
//! and the 32-bit multiply-accumulate of the Montgomery multiplier.

use vstd::prelude::*;
use vstd::arithmetic::mul::*;

use crate::specs::{b32, b64};

verus! {

/// The full 128-bit product of two words as `(lo, hi)`, built from four
/// 32-bit partial products.
pub fn mul_64x64(a: u64, b: u64) -> (r: (u64, u64))
    ensures
        r.0 + r.1 * b64() == a * b,
{
    let a_lo = a & 0xffff_ffff;
    let a_hi = a >> 32;
    let b_lo = b & 0xffff_ffff;
    let b_hi = b >> 32;
    proof {
        assert(a_lo < 0x1_0000_0000 && a_hi < 0x1_0000_0000 && a == a_lo + 0x1_0000_0000 * a_hi)
            by (bit_vector)
            requires
                a_lo == a & 0xffff_ffff,
                a_hi == a >> 32,
        ;
        assert(b_lo < 0x1_0000_0000 && b_hi < 0x1_0000_0000 && b == b_lo + 0x1_0000_0000 * b_hi)
            by (bit_vector)
            requires
                b_lo == b & 0xffff_ffff,
                b_hi == b >> 32,
        ;
        lemma_half_product_bound(a_lo, b_lo);
        lemma_half_product_bound(a_lo, b_hi);
        lemma_half_product_bound(a_hi, b_lo);
        lemma_half_product_bound(a_hi, b_hi);
    }
    let p0 = a_lo * b_lo;
    let p1 = a_lo * b_hi;
    let p2 = a_hi * b_lo;
    let p3 = a_hi * b_hi;
    proof {
        lemma_split_low_high(p0);
        lemma_split_low_high(p1);
        lemma_split_low_high(p2);
    }
    let mid = (p0 >> 32) + (p1 & 0xffff_ffff) + (p2 & 0xffff_ffff);
    let lo = (p0 & 0xffff_ffff) | (mid << 32);
    proof {
        lemma_split_low_high(mid);
        assert(lo == (p0 & 0xffff_ffff) + 0x1_0000_0000 * (mid & 0xffff_ffff)) by (bit_vector)
            requires
                lo == (p0 & 0xffff_ffff) | (mid << 32),
        ;
        assert(a * b == (a_lo + 0x1_0000_0000 * a_hi) * (b_lo + 0x1_0000_0000 * b_hi));
        assert((a_lo + 0x1_0000_0000 * a_hi) * (b_lo + 0x1_0000_0000 * b_hi) == a_lo * b_lo
            + 0x1_0000_0000 * (a_lo * b_hi) + 0x1_0000_0000 * (a_hi * b_lo)
            + 0x1_0000_0000_0000_0000 * (a_hi * b_hi)) by (nonlinear_arith);
        let ghost hi_int: int = p3 + (p1 >> 32) + (p2 >> 32) + (mid >> 32);
        assert(lo + hi_int * 0x1_0000_0000_0000_0000 == a * b);
        assert(a * b <= 0xffff_ffff_ffff_ffff * 0xffff_ffff_ffff_ffff) by {
            lemma_mul_upper_bound(a as int, 0xffff_ffff_ffff_ffff, b as int, 0xffff_ffff_ffff_ffff);
        }
    }
    let hi = p3 + (p1 >> 32) + (p2 >> 32) + (mid >> 32);
    (lo, hi)
}

/// `acc + a * b + carry` as a two-word `(lo, hi)`.
pub fn mac(acc: u64, a: u64, b: u64, carry: u64) -> (r: (u64, u64))
    ensures
        r.0 + r.1 * b64() == acc + a * b + carry,
{
    let (lo, hi) = mul_64x64(a, b);
    proof {
        assert(a * b <= 0xffff_ffff_ffff_ffff * 0xffff_ffff_ffff_ffff) by {
            lemma_mul_upper_bound(a as int, 0xffff_ffff_ffff_ffff, b as int, 0xffff_ffff_ffff_ffff);
        }
    }
    let (lo, c1) = adc(lo, acc, 0);
    let (lo, c2) = adc(lo, carry, 0);
    (lo, hi + c1 + c2)
}

/// `a + b + carry` as a word and an outgoing carry.
pub fn adc(a: u64, b: u64, carry: u64) -> (r: (u64, u64))
    ensures
        r.0 + r.1 * b64() == a + b + carry,
        r.1 <= 2,
        carry <= 1 ==> r.1 <= 1,
{
    let s1 = a.wrapping_add(b);
    let c1: u64 = if s1 < a { 1 } else { 0 };
    let s2 = s1.wrapping_add(carry);
    let c2: u64 = if s2 < s1 { 1 } else { 0 };
    (s2, c1 + c2)
}

/// `a - b - borrow` as a word and an outgoing borrow.
pub fn sbb(a: u64, b: u64, borrow: u64) -> (r: (u64, u64))
    ensures
        r.0 - r.1 * b64() == a - b - borrow,
        r.1 <= 2,
        borrow <= 1 ==> r.1 <= 1,
{
    let d1 = a.wrapping_sub(b);
    let b1: u64 = if a < b { 1 } else { 0 };
    let d2 = d1.wrapping_sub(borrow);
    let b2: u64 = if d1 < borrow { 1 } else { 0 };
    (d2, b1 + b2)
}

/// `acc + a * b + carry` split into its low 32 bits and the rest.
pub fn mac32(acc: u64, a: u64, b: u64, carry: u64) -> (r: (u64, u64))
    requires
        acc + a * b + carry <= u64::MAX,
    ensures
        r.0 == (acc + a * b + carry) % (b32() as int),
        r.1 == (acc + a * b + carry) / (b32() as int),
        r.0 + r.1 * b32() == acc + a * b + carry,
{
    let t = acc + a * b + carry;
    proof {
        lemma_split_low_high(t);
    }
    (t & 0xffff_ffff, t >> 32)
}

/// A product of two 32-bit values fits in a word.
pub proof fn lemma_half_product_bound(x: u64, y: u64)
    requires
        x < 0x1_0000_0000,
        y < 0x1_0000_0000,
    ensures
        x * y <= 0xffff_fffe_0000_0001,
{
    lemma_mul_upper_bound(x as int, 0xffff_ffff, y as int, 0xffff_ffff);
}

/// Masking and shifting by 32 are remainder and quotient by `2^32`.
pub proof fn lemma_split_low_high(x: u64)
    ensures
        x & 0xffff_ffff == x % 0x1_0000_0000,
        x >> 32 == x / 0x1_0000_0000,
        x & 0xffff_ffff < 0x1_0000_0000,
        x == (x & 0xffff_ffff) + 0x1_0000_0000 * (x >> 32),
{
    assert(x & 0xffff_ffff == x % 0x1_0000_0000) by (bit_vector);
    assert(x >> 32 == x / 0x1_0000_0000) by (bit_vector);
    assert(x & 0xffff_ffff < 0x1_0000_0000) by (bit_vector);
    assert(x == (x & 0xffff_ffff) + 0x1_0000_0000 * (x >> 32)) by (bit_vector);
}

} // verus!
