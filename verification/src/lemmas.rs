//! Arithmetic facts about the word-vector model.

use vstd::prelude::*;
use vstd::arithmetic::div_mod::*;
use vstd::arithmetic::mul::*;

use crate::specs::{b32, b64, be8, be_val, fp_nat, r_nat, val32, val64, w32, w64, Fp};

verus! {

/// Extending a prefix by one limb adds that limb at its weight.
pub proof fn lemma_val64_take_step(s: Seq<u64>, k: int)
    requires
        0 <= k < s.len(),
    ensures
        val64(s.take(k + 1)) == val64(s.take(k)) + w64(k as nat) * s[k],
{
    assert(s.take(k + 1).drop_last() =~= s.take(k));
}

/// Extending a prefix by one lane adds that lane at its weight.
pub proof fn lemma_val32_take_step(s: Seq<u64>, k: int)
    requires
        0 <= k < s.len(),
    ensures
        val32(s.take(k + 1)) == val32(s.take(k)) + w32(k as nat) * s[k],
{
    assert(s.take(k + 1).drop_last() =~= s.take(k));
}

pub proof fn lemma_take_full<T>(s: Seq<T>)
    ensures
        s.take(s.len() as int) =~= s,
{
}

pub proof fn lemma_w64_pos(k: nat)
    ensures
        w64(k) >= 1,
    decreases k,
{
    if k > 0 {
        lemma_w64_pos((k - 1) as nat);
        lemma_mul_increases(b64() as int, w64((k - 1) as nat) as int);
    }
}

/// Two 32-bit lanes weigh as much as one 64-bit limb.
pub proof fn lemma_w32_double(k: nat)
    ensures
        w32(2 * k) == w64(k),
        w32(2 * k + 1) == w64(k) * b32(),
    decreases k,
{
    if k > 0 {
        lemma_w32_double((k - 1) as nat);
        assert(w32(2 * k) == w32((2 * k - 1) as nat) * b32());
        assert(w32((2 * k - 1) as nat) == w32((2 * k - 2) as nat) * b32());
        assert(w32(2 * k) == w64((k - 1) as nat) * b32() * b32());
        lemma_mul_is_associative(w64((k - 1) as nat) as int, b32() as int, b32() as int);
    }
}

/// Limbs below `2^64` bound the value by the weight of the next limb.
pub proof fn lemma_val64_bound(s: Seq<u64>)
    ensures
        val64(s) < w64(s.len()),
    decreases s.len(),
{
    if s.len() > 0 {
        let n = (s.len() - 1) as nat;
        lemma_val64_bound(s.drop_last());
        assert(val64(s) == val64(s.drop_last()) + w64(n) * s.last());
        assert(w64(n) * s.last() <= w64(n) * (b64() - 1)) by {
            lemma_mul_inequality(s.last() as int, (b64() - 1) as int, w64(n) as int);
            lemma_mul_is_commutative(s.last() as int, w64(n) as int);
            lemma_mul_is_commutative((b64() - 1) as int, w64(n) as int);
        }
        assert(w64(n) * (b64() - 1) == w64(n) * b64() - w64(n)) by {
            lemma_mul_is_distributive_sub(w64(n) as int, b64() as int, 1);
        }
    }
}

/// The six limb weights as literals.
pub proof fn lemma_w64_values()
    ensures
        w64(0) == 1,
        w64(1) == 0x1_0000_0000_0000_0000,
        w64(2) == 0x1_0000_0000_0000_0000_0000_0000_0000_0000nat,
        w64(3) == 0x1_0000_0000_0000_0000_0000_0000_0000_0000_0000_0000_0000_0000nat,
        w64(4) == 0x1_0000_0000_0000_0000_0000_0000_0000_0000_0000_0000_0000_0000_0000_0000_0000_0000nat,
        w64(5) == 0x1_0000_0000_0000_0000_0000_0000_0000_0000_0000_0000_0000_0000_0000_0000_0000_0000_0000_0000_0000_0000nat,
        w64(6) == r_nat(),
{
    reveal_with_fuel(w64, 7);
}

/// The value of six limbs, spelled out.
pub proof fn lemma_fp_nat_expand(a: Fp)
    ensures
        fp_nat(a) == a[0] + 0x1_0000_0000_0000_0000 * a[1]
            + 0x1_0000_0000_0000_0000_0000_0000_0000_0000nat * a[2]
            + 0x1_0000_0000_0000_0000_0000_0000_0000_0000_0000_0000_0000_0000nat * a[3]
            + 0x1_0000_0000_0000_0000_0000_0000_0000_0000_0000_0000_0000_0000_0000_0000_0000_0000nat * a[4]
            + 0x1_0000_0000_0000_0000_0000_0000_0000_0000_0000_0000_0000_0000_0000_0000_0000_0000_0000_0000_0000_0000nat * a[5],
        fp_nat(a) < r_nat(),
{
    lemma_w64_values();
    let s = a@;
    assert(s.drop_last().drop_last().drop_last().drop_last().drop_last().drop_last() =~= Seq::<u64>::empty());
    reveal_with_fuel(val64, 7);
    lemma_val64_bound(s);
}

/// The lane weights as literals.
pub proof fn lemma_w32_values()
    ensures
        w32(0) == 0x1nat,
        w32(1) == 0x100000000nat,
        w32(2) == 0x10000000000000000nat,
        w32(3) == 0x1000000000000000000000000nat,
        w32(4) == 0x100000000000000000000000000000000nat,
        w32(5) == 0x10000000000000000000000000000000000000000nat,
        w32(6) == 0x1000000000000000000000000000000000000000000000000nat,
        w32(7) == 0x100000000000000000000000000000000000000000000000000000000nat,
        w32(8) == 0x10000000000000000000000000000000000000000000000000000000000000000nat,
        w32(9) == 0x1000000000000000000000000000000000000000000000000000000000000000000000000nat,
        w32(10) == 0x100000000000000000000000000000000000000000000000000000000000000000000000000000000nat,
        w32(11) == 0x10000000000000000000000000000000000000000000000000000000000000000000000000000000000000000nat,
        w32(12) == 0x1000000000000000000000000000000000000000000000000000000000000000000000000000000000000000000000000nat,
        w32(13) == 0x100000000000000000000000000000000000000000000000000000000000000000000000000000000000000000000000000000000nat,
        w32(14) == 0x10000000000000000000000000000000000000000000000000000000000000000000000000000000000000000000000000000000000000000nat,
{
    reveal_with_fuel(w32, 15);
}

/// The value of twelve lanes, spelled out.
pub proof fn lemma_val32_expand12(s: Seq<u64>)
    requires
        s.len() == 12,
    ensures
        val32(s) == s[0] + 0x100000000nat * s[1] + 0x10000000000000000nat * s[2] + 0x1000000000000000000000000nat * s[3] + 0x100000000000000000000000000000000nat * s[4] + 0x10000000000000000000000000000000000000000nat * s[5] + 0x1000000000000000000000000000000000000000000000000nat * s[6] + 0x100000000000000000000000000000000000000000000000000000000nat * s[7] + 0x10000000000000000000000000000000000000000000000000000000000000000nat * s[8] + 0x1000000000000000000000000000000000000000000000000000000000000000000000000nat * s[9] + 0x100000000000000000000000000000000000000000000000000000000000000000000000000000000nat * s[10] + 0x10000000000000000000000000000000000000000000000000000000000000000000000000000000000000000nat * s[11],
{
    lemma_w32_values();
    assert(val32(s.take(0)) == 0);
    lemma_val32_take_step(s, 0);
    lemma_val32_take_step(s, 1);
    lemma_val32_take_step(s, 2);
    lemma_val32_take_step(s, 3);
    lemma_val32_take_step(s, 4);
    lemma_val32_take_step(s, 5);
    lemma_val32_take_step(s, 6);
    lemma_val32_take_step(s, 7);
    lemma_val32_take_step(s, 8);
    lemma_val32_take_step(s, 9);
    lemma_val32_take_step(s, 10);
    lemma_val32_take_step(s, 11);
    lemma_take_full(s);
}

/// One limb of an add-with-carry chain, scaled to the limb's weight.
pub proof fn lemma_add_step(w: int, s: int, c_in: int, c_out: int, x: int, y: int, base: int)
    by (nonlinear_arith)
    requires
        s + c_out * base == x + y + c_in,
    ensures
        w * s + c_out * (w * base) == w * x + w * y + w * c_in,
{
}

/// One limb of a subtract-with-borrow chain, scaled to the limb's weight.
pub proof fn lemma_sub_step(w: int, d: int, c_in: int, c_out: int, x: int, y: int, base: int)
    by (nonlinear_arith)
    requires
        d - c_out * base == x - y - c_in,
    ensures
        w * d - c_out * (w * base) == w * x - w * y - w * c_in,
{
}

/// The most significant differing limb decides the comparison of two values.
pub proof fn lemma_fp_compare_at(a: Fp, b: Fp, i: int)
    requires
        0 <= i < 6,
        forall|k: int| i < k < 6 ==> a[k] == b[k],
        a[i] != b[i],
    ensures
        a[i] > b[i] ==> fp_nat(a) > fp_nat(b),
        a[i] < b[i] ==> fp_nat(a) < fp_nat(b),
{
    lemma_fp_nat_expand(a);
    lemma_fp_nat_expand(b);
    if i == 0 {
    } else if i == 1 {
    } else if i == 2 {
    } else if i == 3 {
    } else if i == 4 {
    } else {
    }
}

/// Extending a byte prefix by one byte shifts it left by eight bits.
pub proof fn lemma_be_val_take_step(s: Seq<u8>, k: int)
    requires
        0 <= k < s.len(),
    ensures
        be_val(s.take(k + 1)) == be_val(s.take(k)) * 256 + s[k],
{
    assert(s.take(k + 1).drop_last() =~= s.take(k));
}

/// Extending a byte prefix by eight bytes shifts it left by a word.
pub proof fn lemma_be_val_take_word(s: Seq<u8>, n: int)
    requires
        0 <= n,
        n + 8 <= s.len(),
    ensures
        be_val(s.take(n + 8)) == be_val(s.take(n)) * 0x1_0000_0000_0000_0000 + be8(s, n),
{
    lemma_be_val_take_step(s, n);
    lemma_be_val_take_step(s, n + 1);
    lemma_be_val_take_step(s, n + 2);
    lemma_be_val_take_step(s, n + 3);
    lemma_be_val_take_step(s, n + 4);
    lemma_be_val_take_step(s, n + 5);
    lemma_be_val_take_step(s, n + 6);
    lemma_be_val_take_step(s, n + 7);
}

/// The big-endian value of 48 bytes as six words, the first most significant.
pub proof fn lemma_be_val_48(s: Seq<u8>)
    requires
        s.len() == 48,
    ensures
        be_val(s) == be8(s, 40) + 0x1_0000_0000_0000_0000 * be8(s, 32)
            + 0x1_0000_0000_0000_0000_0000_0000_0000_0000nat * be8(s, 24)
            + 0x1_0000_0000_0000_0000_0000_0000_0000_0000_0000_0000_0000_0000nat * be8(s, 16)
            + 0x1_0000_0000_0000_0000_0000_0000_0000_0000_0000_0000_0000_0000_0000_0000_0000_0000nat * be8(s, 8)
            + 0x1_0000_0000_0000_0000_0000_0000_0000_0000_0000_0000_0000_0000_0000_0000_0000_0000_0000_0000_0000_0000nat * be8(s, 0),
{
    assert(be_val(s.take(0)) == 0);
    lemma_be_val_take_word(s, 0);
    lemma_be_val_take_word(s, 8);
    lemma_be_val_take_word(s, 16);
    lemma_be_val_take_word(s, 24);
    lemma_be_val_take_word(s, 32);
    lemma_be_val_take_word(s, 40);
    lemma_take_full(s);
}

/// Limbs are determined by their value and count.
pub proof fn lemma_val64_injective(s: Seq<u64>, t: Seq<u64>)
    requires
        s.len() == t.len(),
        val64(s) == val64(t),
    ensures
        s =~= t,
    decreases s.len(),
{
    if s.len() > 0 {
        let n = (s.len() - 1) as nat;
        lemma_val64_bound(s.drop_last());
        lemma_val64_bound(t.drop_last());
        lemma_w64_pos(n);
        assert(val64(s) == val64(s.drop_last()) + w64(n) * s.last());
        assert(val64(t) == val64(t.drop_last()) + w64(n) * t.last());
        lemma_mul_is_commutative(w64(n) as int, s.last() as int);
        lemma_mul_is_commutative(w64(n) as int, t.last() as int);
        lemma_mod_of_offset(
            val64(s) as int,
            val64(s.drop_last()) as int,
            s.last() as int,
            w64(n) as int,
        );
        lemma_mod_of_offset(
            val64(t) as int,
            val64(t.drop_last()) as int,
            t.last() as int,
            w64(n) as int,
        );
        lemma_val64_injective(s.drop_last(), t.drop_last());
        assert(s =~= s.drop_last().push(s.last()));
        assert(t =~= t.drop_last().push(t.last()));
    }
}

/// Bytes are determined by their big-endian value and count.
pub proof fn lemma_be_val_injective(s: Seq<u8>, t: Seq<u8>)
    requires
        s.len() == t.len(),
        be_val(s) == be_val(t),
    ensures
        s =~= t,
    decreases s.len(),
{
    if s.len() > 0 {
        lemma_mod_of_offset(be_val(s) as int, s.last() as int, be_val(s.drop_last()) as int, 256);
        lemma_mod_of_offset(be_val(t) as int, t.last() as int, be_val(t.drop_last()) as int, 256);
        lemma_be_val_injective(s.drop_last(), t.drop_last());
        assert(s =~= s.drop_last().push(s.last()));
        assert(t =~= t.drop_last().push(t.last()));
    }
}

/// `y == x + k m` with `0 <= x < m` makes `x` the remainder of `y`.
pub proof fn lemma_mod_of_offset(y: int, x: int, k: int, m: int)
    requires
        m > 0,
        0 <= x < m,
        y == x + k * m,
    ensures
        y % m == x,
        y / m == k,
{
    lemma_fundamental_div_mod_converse(y, m, k, x);
}

} // verus!
