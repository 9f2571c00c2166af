//! Montgomery multiplication and reduction with 32-bit lanes (CIOS).
//!
//! A product is accumulated in fourteen 32-bit lanes `t`; each of the twelve
//! rounds adds one lane of `a` times `b`, then adds the multiple `m p` that
//! clears the lowest lane and shifts the accumulator down by 32 bits.

use vstd::prelude::*;
use vstd::arithmetic::div_mod::*;
use vstd::arithmetic::mul::*;

use crate::consts::{lemma_consts_values, INV32, MODULUS, P32, R2};
use crate::fp::{geq, sub_nocheck};
use crate::lemmas::{
    lemma_fp_nat_expand, lemma_mod_of_offset, lemma_take_full,
    lemma_val32_take_step, lemma_val64_take_step, lemma_w32_double,
    lemma_w32_values,
};
use crate::specs::{
    b32, fp_nat, mont_quotient, mont_reduce, n_prime, p_nat, r_nat, val32, val64, w32, w64, Fp,
};
use crate::word::{lemma_half_product_bound, lemma_split_low_high, mac32};

verus! {

/// Lane `j` of `x` split into 32-bit lanes, least significant first.
pub open spec fn lane32(x: Fp, j: int) -> u64 {
    if j % 2 == 0 {
        (x[j / 2] % 0x1_0000_0000) as u64
    } else {
        (x[j / 2] / 0x1_0000_0000) as u64
    }
}

/// Lanes `0..12` below `2^32`, lane 12 at most 2 and lane 13 zero: the shape
/// of the accumulator between rounds.
pub open spec fn acc_between_rounds(t: [u64; 14]) -> bool {
    &&& forall|k: int| 0 <= k < 12 ==> #[trigger] t[k] < 0x1_0000_0000
    &&& t[12] <= 2
    &&& t[13] == 0
}

/// Lanes `0..13` below `2^32` and lane 13 at most 1: the shape after the
/// product step of a round.
pub open spec fn acc_after_product(t: [u64; 14]) -> bool {
    &&& forall|k: int| 0 <= k < 13 ==> #[trigger] t[k] < 0x1_0000_0000
    &&& t[13] <= 1
}

/// The twelve 32-bit lanes of six limbs.
pub fn split32(x: &Fp) -> (out: [u64; 12])
    ensures
        forall|j: int| 0 <= j < 12 ==> #[trigger] out[j] == lane32(*x, j),
        forall|j: int| 0 <= j < 12 ==> #[trigger] out[j] < 0x1_0000_0000,
        val32(out@) == fp_nat(*x),
{
    let mut out = [0u64; 12];
    let mut i: usize = 0;
    while i < 6
        invariant
            i <= 6,
            forall|j: int| 0 <= j < 2 * i ==> #[trigger] out[j] == lane32(*x, j),
            forall|j: int| 0 <= j < 2 * i ==> #[trigger] out[j] < 0x1_0000_0000,
            val32(out@.take(2 * i)) == val64(x@.take(i as int)),
        decreases 6 - i,
    {
        let ghost before = out@;
        proof {
            lemma_split_low_high(x[i as int]);
        }
        out[i * 2] = x[i] & 0xffff_ffff;
        out[i * 2 + 1] = x[i] >> 32;
        proof {
            let k = i as int;
            assert(out@.take(2 * k) =~= before.take(2 * k));
            lemma_val32_take_step(out@, 2 * k);
            lemma_val32_take_step(out@, 2 * k + 1);
            lemma_val64_take_step(x@, k);
            lemma_w32_double(i as nat);
            assert((2 * k + 1) / 2 == k);
            lemma_mul_is_distributive_add(
                w64(i as nat) as int,
                out[2 * k] as int,
                0x1_0000_0000 * out[2 * k + 1],
            );
            lemma_mul_is_associative(w64(i as nat) as int, 0x1_0000_0000, out[2 * k + 1] as int);
        }
        i = i + 1;
    }
    proof {
        lemma_take_full(out@);
        lemma_take_full(x@);
    }
    out
}

/// Product step of one round: `t += ai * b`, carried through all lanes.
fn mul_round(t: &mut [u64; 14], ai: u64, b: &[u64; 12])
    requires
        ai < 0x1_0000_0000,
        forall|k: int| 0 <= k < 12 ==> #[trigger] b[k] < 0x1_0000_0000,
        acc_between_rounds(*old(t)),
    ensures
        acc_after_product(*final(t)),
        val32(final(t)@) == val32(old(t)@) + ai * val32(b@),
{
    let ghost t0 = *t;
    let mut carry = 0u64;
    proof {
        assert(val32(t@.take(0)) == 0);
        assert(val32(t0@.take(0)) == 0);
        assert(val32(b@.take(0)) == 0);
        assert(w32(0) == 1);
        assert(val32(t@.take(0)) + carry * w32(0) == val32(t0@.take(0)) + ai * val32(b@.take(0)));
    }
    for j in 0..12
        invariant
            ai < 0x1_0000_0000,
            forall|k: int| 0 <= k < 12 ==> #[trigger] b[k] < 0x1_0000_0000,
            acc_between_rounds(t0),
            forall|k: int| j <= k < 14 ==> #[trigger] t[k] == t0[k],
            forall|k: int| 0 <= k < j ==> #[trigger] t[k] < 0x1_0000_0000,
            carry < 0x1_0000_0000,
            val32(t@.take(j as int)) + carry * w32(j as nat) == val32(t0@.take(j as int)) + ai
                * val32(b@.take(j as int)),
    {
        proof {
            lemma_mac32_fits(t[j as int], ai, b[j as int], carry);
        }
        let (lo, hi) = mac32(t[j], ai, b[j], carry);
        let ghost before = t@;
        t[j] = lo;
        proof {
            let k = j as int;
            assert(t@.take(k) =~= before.take(k));
            lemma_val32_take_step(t@, k);
            lemma_val32_take_step(t0@, k);
            lemma_val32_take_step(b@, k);
            lemma_product_step(
                val32(before.take(k)) as int,
                val32(t0@.take(k)) as int,
                val32(b@.take(k)) as int,
                w32(j as nat) as int,
                lo as int,
                hi as int,
                carry as int,
                t0[k] as int,
                ai as int,
                b[k] as int,
            );
            lemma_mac32_high_bound(lo, hi);
        }
        carry = hi;
    }
    let ghost mid = t@;
    let s = t[12] + carry;
    proof {
        lemma_split_low_high(s);
    }
    t[12] = s & 0xffff_ffff;
    t[13] = s >> 32;
    proof {
        lemma_w32_values();
        lemma_take_full(t@);
        lemma_take_full(t0@);
        lemma_take_full(b@);
        lemma_val32_take_step(t@, 12);
        lemma_val32_take_step(t@, 13);
        lemma_val32_take_step(t0@, 12);
        lemma_val32_take_step(t0@, 13);
        assert(t@.take(12) =~= mid.take(12));
        assert(s >> 32 <= 1);
    }
}

/// Reduction step of one round: add `m p` with `m` chosen so that the lowest
/// lane becomes zero, then drop that lane. Returns `m`.
fn reduce_round(t: &mut [u64; 14]) -> (m: u64)
    requires
        acc_after_product(*old(t)),
    ensures
        acc_between_rounds(*final(t)),
        m < 0x1_0000_0000,
        val32(final(t)@) * b32() == val32(old(t)@) + m * p_nat(),
{
    proof {
        lemma_consts_values();
    }
    let ghost t0 = *t;
    let m = (t[0].wrapping_mul(INV32)) & 0xffff_ffff;
    proof {
        lemma_redc_digit(t[0], m);
        lemma_mac32_fits(t[0], m, P32[0], 0);
    }
    let (_, mut carry) = mac32(t[0], m, P32[0], 0);
    proof {
        lemma_w32_values();
        assert(val32(t@.take(0)) == 0);
        assert(val32(P32@.take(0)) == 0);
        lemma_val32_take_step(t0@, 0);
        lemma_val32_take_step(P32@, 0);
        lemma_split_low_high((t[0] + m * P32[0]) as u64);
        lemma_half_product_bound(m, P32[0]);
    }
    for j in 1..12
        invariant
            m < 0x1_0000_0000,
            forall|k: int| 0 <= k < 12 ==> #[trigger] P32[k] < 0x1_0000_0000,
            acc_after_product(t0),
            forall|k: int| j <= k < 14 ==> #[trigger] t[k] == t0[k],
            forall|k: int| 0 <= k < j - 1 ==> #[trigger] t[k] < 0x1_0000_0000,
            carry < 0x1_0000_0000,
            val32(t@.take(j - 1)) * b32() + carry * w32(j as nat) == val32(t0@.take(j as int))
                + m * val32(P32@.take(j as int)),
    {
        proof {
            lemma_mac32_fits(t[j as int], m, P32[j as int], carry);
        }
        let (lo, hi) = mac32(t[j], m, P32[j], carry);
        let ghost before = t@;
        t[j - 1] = lo;
        proof {
            let k = j as int;
            assert(t@.take(k - 1) =~= before.take(k - 1));
            lemma_val32_take_step(t@, k - 1);
            lemma_val32_take_step(t0@, k);
            lemma_val32_take_step(P32@, k);
            assert(w32(j as nat) == w32((j - 1) as nat) * b32());
            lemma_reduce_step(
                val32(before.take(k - 1)) as int,
                val32(t0@.take(k)) as int,
                val32(P32@.take(k)) as int,
                w32((j - 1) as nat) as int,
                lo as int,
                hi as int,
                carry as int,
                t0[k] as int,
                m as int,
                P32[k] as int,
            );
            lemma_mac32_high_bound(lo, hi);
        }
        carry = hi;
    }
    let ghost mid = t@;
    let s = t[12] + carry;
    proof {
        lemma_split_low_high(s);
    }
    t[11] = s & 0xffff_ffff;
    t[12] = t[13] + (s >> 32);
    t[13] = 0;
    proof {
        lemma_w32_values();
        lemma_take_full(t@);
        lemma_take_full(t0@);
        lemma_take_full(P32@);
        assert(t@.take(11) =~= mid.take(11));
        lemma_val32_take_step(t@, 11);
        lemma_val32_take_step(t@, 12);
        lemma_val32_take_step(t@, 13);
        lemma_val32_take_step(t0@, 12);
        lemma_val32_take_step(t0@, 13);
        let v11 = val32(mid.take(11));
        assert(mid[12] == t0[12]);
        assert(mid[13] == t0[13]);
        assert(v11 * b32() + carry * w32(12) == val32(t0@.take(12)) + m * p_nat());
        assert(val32(t@) == v11 + w32(11) * t[11] + w32(12) * t[12]);
        assert(val32(t0@) == val32(t0@.take(12)) + w32(12) * t0[12] + w32(13) * t0[13]);
        assert(t[11] + 0x1_0000_0000 * (t[12] - t0[13]) == t0[12] + carry);
    }
    m
}

/// Joins the low twelve lanes into limbs and subtracts `p` once when the
/// accumulator (lane 12 included) is at least `p`.
fn finish(t: &[u64; 14]) -> (r: Fp)
    requires
        acc_between_rounds(*t),
        val32(t@) < r_nat() + p_nat(),
    ensures
        fp_nat(r) == (if val32(t@) >= p_nat() {
            (val32(t@) - p_nat()) as nat
        } else {
            val32(t@)
        }),
{
    proof {
        lemma_consts_values();
    }
    let mut r = [0u64; 6];
    for i in 0..6
        invariant
            acc_between_rounds(*t),
            val64(r@.take(i as int)) == val32(t@.take(2 * i)),
    {
        let lo = t[i * 2];
        let hi = t[i * 2 + 1];
        let ghost before = r@;
        r[i] = lo | (hi << 32);
        proof {
            let k = i as int;
            assert(lo < 0x1_0000_0000 && hi < 0x1_0000_0000);
            assert(lo | (hi << 32) == lo + 0x1_0000_0000 * hi) by (bit_vector)
                requires
                    lo < 0x1_0000_0000,
                    hi < 0x1_0000_0000,
            ;
            assert(r@.take(k) =~= before.take(k));
            lemma_val64_take_step(r@, k);
            lemma_val32_take_step(t@, 2 * k);
            lemma_val32_take_step(t@, 2 * k + 1);
            lemma_w32_double(i as nat);
            lemma_mul_is_distributive_add(w64(i as nat) as int, lo as int, 0x1_0000_0000 * hi);
            lemma_mul_is_associative(w64(i as nat) as int, 0x1_0000_0000, hi as int);
        }
    }
    proof {
        lemma_take_full(r@);
        lemma_take_full(t@);
        lemma_w32_values();
        lemma_val32_take_step(t@, 12);
        lemma_val32_take_step(t@, 13);
        lemma_fp_nat_expand(r);
    }
    if t[12] != 0 || geq(&r, &MODULUS) {
        let ghost low = r;
        r = sub_nocheck(&r, &MODULUS);
        proof {
            lemma_mod_of_offset(
                fp_nat(low) - p_nat(),
                val32(t@) - p_nat(),
                -(t[12] as int),
                r_nat() as int,
            );
        }
    }
    r
}

/// Montgomery product `a b R^-1` by CIOS over 32-bit lanes, reduced once:
/// the result is `mont_reduce(a b)`, below `p` whenever `a b < R p`.
pub fn mont_mul_cios32(a: &Fp, b: &Fp) -> (r: Fp)
    ensures
        fp_nat(r) == mont_reduce(fp_nat(*a) * fp_nat(*b)),
{
    let a32 = split32(a);
    let b32 = split32(b);
    let mut t = [0u64; 14];
    let ghost mut mq: nat = 0;
    proof {
        lemma_w32_values();
        assert(val32(t@) == 0) by {
            lemma_val32_zero(t@);
        }
        assert(val32(a32@.take(0)) == 0);
    }
    for i in 0..12
        invariant
            forall|k: int| 0 <= k < 12 ==> #[trigger] a32[k] < 0x1_0000_0000,
            forall|k: int| 0 <= k < 12 ==> #[trigger] b32[k] < 0x1_0000_0000,
            acc_between_rounds(t),
            mq < w32(i as nat),
            val32(t@) * w32(i as nat) == val32(a32@.take(i as int)) * val32(b32@) + mq * p_nat(),
    {
        let ai = a32[i];
        let ghost v0 = val32(t@);
        mul_round(&mut t, ai, &b32);
        let m = reduce_round(&mut t);
        proof {
            let k = i as int;
            lemma_val32_take_step(a32@, k);
            lemma_round_step(
                val32(t@) as int,
                v0 as int,
                ai as int,
                val32(b32@) as int,
                m as int,
                p_nat() as int,
                w32(i as nat) as int,
                val32(a32@.take(k)) as int,
                mq as int,
            );
            lemma_quotient_grows(mq as int, m as int, w32(i as nat) as int);
            mq = (mq + m * w32(i as nat)) as nat;
        }
    }
    proof {
        lemma_take_full(a32@);
        lemma_fp_nat_expand(*a);
        lemma_fp_nat_expand(*b);
        assert(fp_nat(*a) * fp_nat(*b) < r_nat() * r_nat()) by (nonlinear_arith)
            requires
                fp_nat(*a) < r_nat(),
                fp_nat(*b) < r_nat(),
        ;
        lemma_finish_bounds(val32(t@), fp_nat(*a) * fp_nat(*b), mq);
    }
    finish(&t)
}

/// Montgomery reduction `a R^-1` of a single element: the reduction rounds
/// of `mont_mul_cios32` without the product step.
pub fn mont_redc_cios32(a: &Fp) -> (r: Fp)
    ensures
        fp_nat(r) == mont_reduce(fp_nat(*a)),
{
    let a32 = split32(a);
    let mut t = [0u64; 14];
    for i in 0..12
        invariant
            forall|k: int| 0 <= k < 12 ==> #[trigger] a32[k] < 0x1_0000_0000,
            forall|k: int| i <= k < 14 ==> #[trigger] t[k] == 0,
            forall|k: int| 0 <= k < i ==> #[trigger] t[k] == a32[k],
    {
        t[i] = a32[i];
    }
    let ghost mut mq: nat = 0;
    proof {
        lemma_w32_values();
        assert(t@.take(12) =~= a32@);
        lemma_val32_take_step(t@, 12);
        lemma_val32_take_step(t@, 13);
        lemma_take_full(t@);
    }
    for i in 0..12
        invariant
            acc_between_rounds(t),
            mq < w32(i as nat),
            val32(t@) * w32(i as nat) == val32(a32@) + mq * p_nat(),
    {
        let ghost v0 = val32(t@);
        proof {
            assert forall|k: int| 0 <= k < 13 implies #[trigger] t[k] < 0x1_0000_0000 by {
                if k < 12 {
                    assert(t[k] < 0x1_0000_0000);
                }
            }
        }
        let m = reduce_round(&mut t);
        proof {
            lemma_redc_round_step(
                val32(t@) as int,
                v0 as int,
                m as int,
                p_nat() as int,
                w32(i as nat) as int,
                val32(a32@) as int,
                mq as int,
            );
            lemma_quotient_grows(mq as int, m as int, w32(i as nat) as int);
            mq = (mq + m * w32(i as nat)) as nat;
        }
    }
    proof {
        lemma_fp_nat_expand(*a);
        assert(fp_nat(*a) < r_nat() * r_nat()) by (nonlinear_arith)
            requires
                fp_nat(*a) < r_nat(),
        ;
        lemma_finish_bounds(val32(t@), fp_nat(*a), mq);
    }
    finish(&t)
}

/// Montgomery product of two elements in Montgomery form.
pub fn mont_mul(a: &Fp, b: &Fp) -> (r: Fp)
    ensures
        fp_nat(r) == mont_reduce(fp_nat(*a) * fp_nat(*b)),
        (fp_nat(r) * r_nat()) % p_nat() == (fp_nat(*a) * fp_nat(*b)) % p_nat(),
        fp_nat(*a) * fp_nat(*b) < r_nat() * p_nat() ==> fp_nat(r) < p_nat(),
{
    let r = mont_mul_cios32(a, b);
    proof {
        lemma_fp_nat_expand(*a);
        lemma_fp_nat_expand(*b);
        lemma_mont_reduce_props(fp_nat(*a) * fp_nat(*b));
    }
    r
}

/// Montgomery square, through the general multiply.
pub fn mont_sqr(a: &Fp) -> (r: Fp)
    ensures
        fp_nat(r) == mont_reduce(fp_nat(*a) * fp_nat(*a)),
        (fp_nat(r) * r_nat()) % p_nat() == (fp_nat(*a) * fp_nat(*a)) % p_nat(),
        fp_nat(*a) * fp_nat(*a) < r_nat() * p_nat() ==> fp_nat(r) < p_nat(),
{
    mont_mul(a, a)
}

/// Enters Montgomery form: `a R mod p` for any `a` below `R`.
pub fn to_mont(a: &Fp) -> (r: Fp)
    ensures
        fp_nat(r) == (fp_nat(*a) * r_nat()) % p_nat(),
{
    proof {
        lemma_consts_values();
        lemma_fp_nat_expand(*a);
        lemma_to_mont_bound(fp_nat(*a));
    }
    let r = mont_mul(a, &R2);
    proof {
        lemma_to_mont_value(fp_nat(*a), fp_nat(r));
    }
    r
}

/// Leaves Montgomery form: the canonical `x` with `x R = a (mod p)`.
pub fn from_mont(a: &Fp) -> (r: Fp)
    ensures
        fp_nat(r) == mont_reduce(fp_nat(*a)),
        fp_nat(r) < p_nat(),
        (fp_nat(r) * r_nat()) % p_nat() == fp_nat(*a) % p_nat(),
{
    let r = mont_redc_cios32(a);
    proof {
        lemma_fp_nat_expand(*a);
        lemma_mont_reduce_props(fp_nat(*a));
        assert(fp_nat(*a) < r_nat() * p_nat()) by (nonlinear_arith)
            requires
                fp_nat(*a) < r_nat(),
                p_nat() >= 1,
        ;
    }
    r
}

// ---------------------------------------------------------------------------
// Proof steps

proof fn lemma_val32_zero(s: Seq<u64>)
    requires
        forall|k: int| 0 <= k < s.len() ==> s[k] == 0,
    ensures
        val32(s) == 0,
    decreases s.len(),
{
    if s.len() > 0 {
        lemma_val32_zero(s.drop_last());
    }
}

/// With every input below `2^32` a multiply-accumulate fits in a word.
proof fn lemma_mac32_fits(acc: u64, a: u64, b: u64, carry: u64)
    requires
        acc < 0x1_0000_0000,
        a < 0x1_0000_0000,
        b < 0x1_0000_0000,
        carry < 0x1_0000_0000,
    ensures
        acc + a * b + carry <= u64::MAX,
{
    lemma_half_product_bound(a, b);
}

/// The high half of a multiply-accumulate of 32-bit inputs stays below `2^32`.
proof fn lemma_mac32_high_bound(lo: u64, hi: u64)
    requires
        lo + hi * 0x1_0000_0000 <= u64::MAX,
    ensures
        hi < 0x1_0000_0000,
{
}

/// The reduction digit `m = t0 * INV32 mod 2^32` makes `t0 + m p0` divisible
/// by `2^32`.
proof fn lemma_redc_digit(t0: u64, m: u64)
    requires
        m == (t0.wrapping_mul(INV32)) & 0xffff_ffff,
        t0 < 0x1_0000_0000,
    ensures
        m < 0x1_0000_0000,
        (t0 + m * 0xffff_aaab) % 0x1_0000_0000 == 0,
{
    let w = t0.wrapping_mul(INV32);
    lemma_split_low_high(w);
    assert(w == (t0 * INV32) % 0x1_0000_0000_0000_0000);
    let x = t0 * 0xfffc_fffd;
    lemma_mod_mod(x, 0x1_0000_0000, 0x1_0000_0000);
    assert(m == x % 0x1_0000_0000);
    let k = x / 0x1_0000_0000;
    lemma_fundamental_div_mod(x, 0x1_0000_0000);
    lemma_digit_algebra(t0 as int, m as int, k);
    lemma_mod_of_offset(t0 + m * 0xffff_aaab, 0, t0 * 0xfffc_aaa9 - k * 0xffff_aaab, 0x1_0000_0000);
}

proof fn lemma_digit_algebra(t0: int, m: int, k: int)
    by (nonlinear_arith)
    requires
        t0 * 0xfffc_fffd == 0x1_0000_0000 * k + m,
    ensures
        t0 + m * 0xffff_aaab == 0 + (t0 * 0xfffc_aaa9 - k * 0xffff_aaab) * 0x1_0000_0000,
{
}

proof fn lemma_product_step(
    x: int,
    y: int,
    z: int,
    w: int,
    lo: int,
    hi: int,
    c: int,
    tj: int,
    ai: int,
    bj: int,
)
    by (nonlinear_arith)
    requires
        lo + hi * 0x1_0000_0000 == tj + ai * bj + c,
        x + c * w == y + ai * z,
    ensures
        (x + w * lo) + hi * (w * 0x1_0000_0000) == (y + w * tj) + ai * (z + w * bj),
{
}

proof fn lemma_reduce_step(
    x: int,
    y: int,
    z: int,
    wp: int,
    lo: int,
    hi: int,
    c: int,
    tj: int,
    m: int,
    pj: int,
)
    by (nonlinear_arith)
    requires
        lo + hi * 0x1_0000_0000 == tj + m * pj + c,
        x * 0x1_0000_0000 + c * (wp * 0x1_0000_0000) == y + m * z,
    ensures
        (x + wp * lo) * 0x1_0000_0000 + hi * ((wp * 0x1_0000_0000) * 0x1_0000_0000) == (y + (wp
            * 0x1_0000_0000) * tj) + m * (z + (wp * 0x1_0000_0000) * pj),
{
}

proof fn lemma_round_step(
    v1: int,
    v0: int,
    ai: int,
    bv: int,
    m: int,
    p: int,
    w: int,
    av: int,
    mq: int,
)
    requires
        v1 * 0x1_0000_0000 == (v0 + ai * bv) + m * p,
        v0 * w == av * bv + mq * p,
    ensures
        v1 * (w * 0x1_0000_0000) == (av + w * ai) * bv + (mq + m * w) * p,
{
    assert(v1 * (w * 0x1_0000_0000) == (v1 * 0x1_0000_0000) * w) by {
        lemma_mul_is_associative(v1, w, 0x1_0000_0000);
        lemma_mul_is_commutative(v1 * 0x1_0000_0000, w);
        lemma_mul_is_associative(v1, 0x1_0000_0000, w);
        lemma_mul_is_commutative(w, 0x1_0000_0000);
    }
    assert(((v0 + ai * bv) + m * p) * w == v0 * w + (ai * bv) * w + (m * p) * w) by {
        lemma_mul_is_distributive_add_other_way(w, v0 + ai * bv, m * p);
        lemma_mul_is_distributive_add_other_way(w, v0, ai * bv);
    }
    assert((ai * bv) * w == (w * ai) * bv) by {
        lemma_mul_is_associative(ai, bv, w);
        lemma_mul_is_commutative(bv, w);
        lemma_mul_is_associative(ai, w, bv);
        lemma_mul_is_commutative(ai, w);
    }
    assert((m * p) * w == (m * w) * p) by {
        lemma_mul_is_associative(m, p, w);
        lemma_mul_is_commutative(p, w);
        lemma_mul_is_associative(m, w, p);
    }
    assert((av + w * ai) * bv == av * bv + (w * ai) * bv) by {
        lemma_mul_is_distributive_add_other_way(bv, av, w * ai);
    }
    assert((mq + m * w) * p == mq * p + (m * w) * p) by {
        lemma_mul_is_distributive_add_other_way(p, mq, m * w);
    }
}

proof fn lemma_redc_round_step(v1: int, v0: int, m: int, p: int, w: int, av: int, mq: int)
    requires
        v1 * 0x1_0000_0000 == v0 + m * p,
        v0 * w == av + mq * p,
    ensures
        v1 * (w * 0x1_0000_0000) == av + (mq + m * w) * p,
{
    lemma_round_step(v1, v0, 0, 1, m, p, w, av, mq);
}

proof fn lemma_quotient_grows(mq: int, m: int, w: int)
    by (nonlinear_arith)
    requires
        0 <= mq < w,
        0 <= m < 0x1_0000_0000,
    ensures
        0 <= mq + m * w < w * 0x1_0000_0000,
{
}

/// After twelve rounds the accumulator `v` satisfies `v R = x + m p` with
/// `m < R`, so `m` is the Montgomery quotient and `v < R + p`.
proof fn lemma_finish_bounds(v: nat, x: nat, m: nat)
    requires
        v * r_nat() == x + m * p_nat(),
        m < r_nat(),
        x < r_nat() * r_nat(),
    ensures
        v < r_nat() + p_nat(),
        v == (x + mont_quotient(x) * p_nat()) / r_nat(),
        (if v >= p_nat() {
            (v - p_nat()) as nat
        } else {
            v
        }) == mont_reduce(x),
{
    lemma_quotient_unique(x, m, v);
    assert(v < r_nat() + p_nat()) by (nonlinear_arith)
        requires
            v * r_nat() == x + m * p_nat(),
            m < r_nat(),
            x < r_nat() * r_nat(),
            r_nat() > 0,
    ;
    lemma_mod_of_offset((x + m * p_nat()) as int, 0, v as int, r_nat() as int);
}

/// A quotient below `R` that makes `x + m p` divisible by `R` is the
/// Montgomery quotient.
proof fn lemma_quotient_unique(x: nat, m: nat, v: nat)
    requires
        v * r_nat() == x + m * p_nat(),
        m < r_nat(),
    ensures
        m == mont_quotient(x),
{
    let k: int = 0x14fec701e8fb0ce9ed5e64273c4f538b1797ab1458a88de9343ea97914956dc87fe11274d898fafbf4d38259380b4820int;
    assert(p_nat() * n_prime() + 1 == k * r_nat());
    lemma_quotient_algebra(x as int, m as int, v as int, k, p_nat() as int, n_prime() as int, r_nat() as int);
    lemma_mod_of_offset(
        (x * n_prime()) as int,
        m as int,
        n_prime() * v - m * k,
        r_nat() as int,
    );
}

proof fn lemma_quotient_algebra(x: int, m: int, v: int, k: int, p: int, np: int, r: int)
    by (nonlinear_arith)
    requires
        v * r == x + m * p,
        p * np + 1 == k * r,
    ensures
        x * np == m + (np * v - m * k) * r,
{
}

/// What the reduction gives: a representative of `x R^-1`, below `p` when
/// `x < R p`, below `R` when `x < R R`.
pub proof fn lemma_mont_reduce_props(x: nat)
    ensures
        (mont_reduce(x) * r_nat()) % p_nat() == x % p_nat(),
        x < r_nat() * p_nat() ==> mont_reduce(x) < p_nat(),
        x < r_nat() * r_nat() ==> mont_reduce(x) < r_nat(),
{
    let q = mont_quotient(x);
    let t = (x + q * p_nat()) / r_nat();
    let n = x + q * p_nat();
    lemma_mod_bound((x * n_prime()) as int, r_nat() as int);
    // n is a multiple of R
    let k: int = 0x14fec701e8fb0ce9ed5e64273c4f538b1797ab1458a88de9343ea97914956dc87fe11274d898fafbf4d38259380b4820int;
    lemma_fundamental_div_mod((x * n_prime()) as int, r_nat() as int);
    let d = ((x * n_prime()) as int) / (r_nat() as int);
    lemma_multiple_of_r(x as int, q as int, d, k, p_nat() as int, n_prime() as int, r_nat() as int);
    lemma_mod_of_offset(n as int, 0, x * k - d * p_nat(), r_nat() as int);
    assert(t * r_nat() == n);
    // t R = x (mod p)
    lemma_fundamental_div_mod(x as int, p_nat() as int);
    lemma_mod_bound(x as int, p_nat() as int);
    lemma_mod_of_offset(
        (t * r_nat()) as int,
        (x % p_nat()) as int,
        (x / p_nat()) + q as int,
        p_nat() as int,
    );
    if t >= p_nat() {
        lemma_mul_is_distributive_sub(r_nat() as int, t as int, p_nat() as int);
        lemma_mod_of_offset(
            ((t - p_nat()) * r_nat()) as int,
            (x % p_nat()) as int,
            (x / p_nat()) + q - r_nat(),
            p_nat() as int,
        );
    }
    if x < r_nat() * p_nat() {
        assert(t < 2 * p_nat()) by (nonlinear_arith)
            requires
                t * r_nat() == x + q * p_nat(),
                x < r_nat() * p_nat(),
                q < r_nat(),
                r_nat() > 0,
        ;
    }
    if x < r_nat() * r_nat() {
        assert(t < r_nat() + p_nat()) by (nonlinear_arith)
            requires
                t * r_nat() == x + q * p_nat(),
                x < r_nat() * r_nat(),
                q < r_nat(),
                r_nat() > 0,
        ;
    }
}

proof fn lemma_multiple_of_r(x: int, q: int, d: int, k: int, p: int, np: int, r: int)
    by (nonlinear_arith)
    requires
        x * np == r * d + q,
        p * np + 1 == k * r,
    ensures
        x + q * p == 0 + (x * k - d * p) * r,
{
}

/// `a R2` is below `R p` for every `a` below `R`.
proof fn lemma_to_mont_bound(a: nat)
    requires
        a < r_nat(),
    ensures
        a * crate::consts::r2_nat() < r_nat() * p_nat(),
{
    lemma_mod_bound((r_nat() * r_nat()) as int, p_nat() as int);
    lemma_mul_strict_inequality(a as int, r_nat() as int, crate::consts::r2_nat() as int);
    lemma_mul_inequality(crate::consts::r2_nat() as int, p_nat() as int, r_nat() as int);
    lemma_mul_is_commutative(a as int, crate::consts::r2_nat() as int);
    lemma_mul_is_commutative(r_nat() as int, crate::consts::r2_nat() as int);
}

/// `r R = a R2 (mod p)` with `r < p` makes `r = a R mod p`.
proof fn lemma_to_mont_value(a: nat, r: nat)
    requires
        (r * r_nat()) % p_nat() == (a * crate::consts::r2_nat()) % p_nat(),
        r < p_nat(),
    ensures
        r == (a * r_nat()) % p_nat(),
{
    let p = p_nat() as int;
    let rr = r_nat() as int;
    let r2 = crate::consts::r2_nat() as int;
    let k: int = 0x14fec701e8fb0ce9ed5e64273c4f538b1797ab1458a88de9343ea97914956dc87fe11274d898fafbf4d38259380b4820int;
    assert(rr * k == 1 + p * n_prime());
    lemma_fundamental_div_mod(r * rr, p);
    lemma_fundamental_div_mod(a * r2, p);
    lemma_fundamental_div_mod(rr * rr, p);
    let e = (r * rr) / p - (a * r2) / p;
    let qq = (rr * rr) / p;
    assert(r * rr == a * r2 + p * e);
    lemma_cancel_radix(r as int, a as int, e, qq, rr, r2, p, k, n_prime() as int);
    lemma_mod_of_offset(
        a * rr,
        r as int,
        -(a * rr * n_prime() + k * e - k * a * qq - r * n_prime()),
        p,
    );
}

proof fn lemma_cancel_radix(r: int, a: int, e: int, qq: int, rr: int, r2: int, p: int, k: int, np: int)
    requires
        r * rr == a * r2 + p * e,
        rr * rr == p * qq + r2,
        rr * k == 1 + p * np,
    ensures
        r == a * rr + p * (a * rr * np + k * e - k * a * qq - r * np),
{
    assert(r * (rr * k) == r + p * (r * np)) by (nonlinear_arith)
        requires
            rr * k == 1 + p * np,
    ;
    assert(r * (rr * k) == (a * r2 + p * e) * k) by (nonlinear_arith)
        requires
            r * rr == a * r2 + p * e,
    ;
    assert((a * r2 + p * e) * k == a * k * r2 + p * (k * e)) by (nonlinear_arith);
    assert(a * k * r2 == a * k * (rr * rr) - p * (k * a * qq)) by (nonlinear_arith)
        requires
            rr * rr == p * qq + r2,
    ;
    assert(a * k * (rr * rr) == a * rr * (rr * k)) by (nonlinear_arith);
    assert(a * rr * (rr * k) == a * rr + p * (a * rr * np)) by (nonlinear_arith)
        requires
            rr * k == 1 + p * np,
    ;
    assert(p * (a * rr * np + k * e - k * a * qq - r * np) == p * (a * rr * np) + p * (k * e) - p
        * (k * a * qq) - p * (r * np)) by (nonlinear_arith);
}

} // verus!
