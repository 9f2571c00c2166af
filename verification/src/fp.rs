//! Carry-chain arithmetic on six-limb field elements.

use vstd::prelude::*;
use vstd::arithmetic::div_mod::*;

use crate::consts::{lemma_consts_values, MODULUS};
use crate::lemmas::{
    lemma_add_step, lemma_fp_compare_at, lemma_fp_nat_expand, lemma_mod_of_offset, lemma_sub_step, lemma_take_full,
    lemma_val64_take_step,
};
use crate::specs::{b64, fp_nat, is_canonical, p_nat, r_nat, val64, w64, Fp};
use crate::word::{adc, sbb};

verus! {

/// The value of `a + b` reduced once: `s - p` (modulo `R`) when `s >= p`.
pub open spec fn add_mod_value(a: Fp, b: Fp) -> nat {
    let s = fp_nat(a) + fp_nat(b);
    if s >= p_nat() {
        ((s - p_nat()) % (r_nat() as int)) as nat
    } else {
        s
    }
}

/// The value of `a - b` with `p` added back on underflow (modulo `R`).
pub open spec fn sub_mod_value(a: Fp, b: Fp) -> nat {
    if fp_nat(a) >= fp_nat(b) {
        (fp_nat(a) - fp_nat(b)) as nat
    } else {
        ((fp_nat(a) - fp_nat(b) + p_nat()) % (r_nat() as int)) as nat
    }
}

/// Whether `a >= b` as integers, comparing limbs from the most significant.
pub fn geq(a: &Fp, b: &Fp) -> (r: bool)
    ensures
        r == (fp_nat(*a) >= fp_nat(*b)),
{
    let mut i: usize = 6;
    while i > 0
        invariant
            i <= 6,
            forall|k: int| i <= k < 6 ==> a[k] == b[k],
        decreases i,
    {
        i = i - 1;
        if a[i] != b[i] {
            proof {
                lemma_fp_compare_at(*a, *b, i as int);
            }
        }
        if a[i] > b[i] {
            return true;
        }
        if a[i] < b[i] {
            return false;
        }
    }
    proof {
        assert(*a =~= *b);
    }
    true
}

/// `a - b` modulo `R = 2^384`: the final borrow is dropped.
pub fn sub_nocheck(a: &Fp, b: &Fp) -> (r: Fp)
    ensures
        fp_nat(r) == (fp_nat(*a) - fp_nat(*b)) % (r_nat() as int),
{
    let mut r = [0u64; 6];
    let mut borrow = 0u64;
    for i in 0..6
        invariant
            borrow <= 1,
            val64(r@.take(i as int)) - borrow * w64(i as nat) == val64(a@.take(i as int))
                - val64(b@.take(i as int)),
    {
        let (d, br) = sbb(a[i], b[i], borrow);
        proof {
            let ghost old_r = r@;
            lemma_val64_take_step(a@, i as int);
            lemma_val64_take_step(b@, i as int);
            lemma_sub_step(
                w64(i as nat) as int,
                d as int,
                borrow as int,
                br as int,
                a[i as int] as int,
                b[i as int] as int,
                b64() as int,
            );
        }
        let ghost before = r@;
        r[i] = d;
        proof {
            assert(r@.take(i as int) =~= before.take(i as int));
            lemma_val64_take_step(r@, i as int);
        }
        borrow = br;
    }
    proof {
        lemma_take_full(r@);
        lemma_take_full(a@);
        lemma_take_full(b@);
        crate::lemmas::lemma_w64_values();
        lemma_fp_nat_expand(r);
        lemma_mod_of_offset(
            fp_nat(*a) - fp_nat(*b),
            fp_nat(r) as int,
            -(borrow as int),
            r_nat() as int,
        );
    }
    r
}

/// `a + b` as six limbs and the carry out of the top limb.
fn add_limbs(a: &Fp, b: &Fp) -> (res: (Fp, u64))
    ensures
        fp_nat(res.0) + res.1 * r_nat() == fp_nat(*a) + fp_nat(*b),
        res.1 <= 1,
{
    let mut r = [0u64; 6];
    let mut carry = 0u64;
    for i in 0..6
        invariant
            carry <= 1,
            val64(r@.take(i as int)) + carry * w64(i as nat) == val64(a@.take(i as int))
                + val64(b@.take(i as int)),
    {
        let (s, c) = adc(a[i], b[i], carry);
        proof {
            lemma_val64_take_step(a@, i as int);
            lemma_val64_take_step(b@, i as int);
            lemma_add_step(
                w64(i as nat) as int,
                s as int,
                carry as int,
                c as int,
                a[i as int] as int,
                b[i as int] as int,
                b64() as int,
            );
        }
        let ghost before = r@;
        r[i] = s;
        proof {
            assert(r@.take(i as int) =~= before.take(i as int));
            lemma_val64_take_step(r@, i as int);
        }
        carry = c;
    }
    proof {
        lemma_take_full(r@);
        lemma_take_full(a@);
        lemma_take_full(b@);
        crate::lemmas::lemma_w64_values();
    }
    (r, carry)
}

/// `a + b`, minus `p` when the sum reaches `p`. On canonical inputs this is
/// `(a + b) mod p`.
pub fn add_mod(a: &Fp, b: &Fp) -> (r: Fp)
    ensures
        fp_nat(r) == add_mod_value(*a, *b),
        is_canonical(*a) && is_canonical(*b) ==> fp_nat(r) == (fp_nat(*a) + fp_nat(*b))
            % p_nat(),
{
    let (mut r, carry) = add_limbs(a, b);
    let ghost sum = r;
    proof {
        lemma_consts_values();
        lemma_fp_nat_expand(sum);
    }
    if carry != 0 || geq(&r, &MODULUS) {
        r = sub_nocheck(&r, &MODULUS);
        proof {
            if carry != 0 {
                lemma_mod_add_multiples_vanish(fp_nat(sum) - p_nat(), r_nat() as int);
            }
        }
    }
    proof {
        let s = fp_nat(*a) + fp_nat(*b);
        if is_canonical(*a) && is_canonical(*b) {
            if s >= p_nat() {
                lemma_small_mod((s - p_nat()) as nat, r_nat());
                lemma_mod_of_offset(s as int, s - p_nat(), 1, p_nat() as int);
            } else {
                lemma_small_mod(s as nat, p_nat());
            }
        }
    }
    r
}

/// `a - b`, plus `p` when the difference is negative. On canonical inputs
/// this is `(a - b) mod p`.
pub fn sub_mod(a: &Fp, b: &Fp) -> (r: Fp)
    ensures
        fp_nat(r) == sub_mod_value(*a, *b),
        is_canonical(*a) && is_canonical(*b) ==> fp_nat(r) == (fp_nat(*a) - fp_nat(*b))
            % (p_nat() as int),
{
    proof {
        lemma_consts_values();
        lemma_fp_nat_expand(*a);
        lemma_fp_nat_expand(*b);
    }
    let r = if geq(a, b) {
        let d = sub_nocheck(a, b);
        proof {
            lemma_small_mod((fp_nat(*a) - fp_nat(*b)) as nat, r_nat());
        }
        d
    } else {
        let d = sub_nocheck(a, b);
        proof {
            lemma_mod_of_offset(
                fp_nat(*a) - fp_nat(*b),
                fp_nat(*a) - fp_nat(*b) + r_nat(),
                -1,
                r_nat() as int,
            );
        }
        let out = add_carryless(&d);
        proof {
            lemma_mod_add_multiples_vanish(fp_nat(*a) - fp_nat(*b) + p_nat(), r_nat() as int);
        }
        out
    };
    proof {
        let d = fp_nat(*a) - fp_nat(*b);
        if is_canonical(*a) && is_canonical(*b) {
            if d >= 0 {
                lemma_small_mod(d as nat, p_nat());
            } else {
                lemma_small_mod((d + p_nat()) as nat, r_nat());
                lemma_mod_of_offset(d, d + p_nat(), -1, p_nat() as int);
            }
        }
    }
    r
}

/// `r + p` modulo `R`: restores a field value from a wrapped subtraction.
pub fn add_carryless(r: &Fp) -> (out: Fp)
    ensures
        fp_nat(out) == (fp_nat(*r) + p_nat()) % r_nat(),
{
    proof {
        lemma_consts_values();
    }
    let (out, carry) = add_limbs(r, &MODULUS);
    proof {
        lemma_fp_nat_expand(out);
        lemma_mod_of_offset(
            (fp_nat(*r) + p_nat()) as int,
            fp_nat(out) as int,
            carry as int,
            r_nat() as int,
        );
    }
    out
}

/// `p - a`, except that zero stays zero. On canonical input this is
/// `-a mod p`.
pub fn neg_mod(a: &Fp) -> (r: Fp)
    ensures
        fp_nat(r) == (if fp_nat(*a) == 0 {
            0
        } else {
            (p_nat() - fp_nat(*a)) % (r_nat() as int)
        }),
        is_canonical(*a) ==> fp_nat(r) == (p_nat() - fp_nat(*a)) % (p_nat() as int),
{
    proof {
        lemma_consts_values();
        lemma_fp_nat_expand(*a);
    }
    if is_zero(a) {
        let z = [0u64; 6];
        proof {
            lemma_fp_nat_expand(z);
        }
        return z;
    }
    let r = sub_nocheck(&MODULUS, a);
    proof {
        if is_canonical(*a) {
            lemma_small_mod((p_nat() - fp_nat(*a)) as nat, r_nat());
            lemma_small_mod((p_nat() - fp_nat(*a)) as nat, p_nat());
        }
    }
    r
}

/// Whether every limb is zero, that is whether the value is zero.
pub fn is_zero(a: &Fp) -> (r: bool)
    ensures
        r == (fp_nat(*a) == 0),
{
    proof {
        lemma_fp_nat_expand(*a);
    }
    let mut i: usize = 0;
    while i < 6
        invariant
            i <= 6,
            forall|k: int| 0 <= k < i ==> a[k] == 0,
        decreases 6 - i,
    {
        if a[i] != 0 {
            proof {
                lemma_fp_nat_expand(*a);
            }
            return false;
        }
        i = i + 1;
    }
    true
}

/// Limb `k` of `a >> 1`: the limb's high bits and the next limb's low bit.
pub open spec fn shr1_limb(a: Fp, k: int) -> u64 {
    if k < 5 {
        (a[k] >> 1) | (a[k + 1] << 63)
    } else {
        a[k] >> 1
    }
}

/// `a / 2`, shifting the limbs right by one bit.
pub fn shr1(a: &Fp) -> (r: Fp)
    ensures
        fp_nat(r) == fp_nat(*a) / 2,
{
    let mut r = [0u64; 6];
    for i in 0..6
        invariant
            forall|k: int| 0 <= k < i ==> #[trigger] r[k] == shr1_limb(*a, k),
    {
        r[i] = a[i] >> 1;
        if i < 5 {
            r[i] = r[i] | (a[i + 1] << 63);
        }
    }
    proof {
        lemma_shr1_value(*a, r);
    }
    r
}

proof fn lemma_half_limb(x: u64, y: u64)
    ensures
        (x >> 1) | (y << 63) == x / 2 + (y % 2) * 0x8000_0000_0000_0000,
        x >> 1 == x / 2,
{
    assert((x >> 1) | (y << 63) == x / 2 + (y % 2) * 0x8000_0000_0000_0000) by (bit_vector);
    assert(x >> 1 == x / 2) by (bit_vector);
}

proof fn lemma_shr1_value(a: Fp, r: Fp)
    requires
        forall|k: int| 0 <= k < 6 ==> #[trigger] r[k] == shr1_limb(a, k),
    ensures
        fp_nat(r) == fp_nat(a) / 2,
{
    assert(r[0] == shr1_limb(a, 0) && r[1] == shr1_limb(a, 1) && r[2] == shr1_limb(a, 2));
    assert(r[3] == shr1_limb(a, 3) && r[4] == shr1_limb(a, 4) && r[5] == shr1_limb(a, 5));
    lemma_half_limb(a[0], a[1]);
    lemma_half_limb(a[1], a[2]);
    lemma_half_limb(a[2], a[3]);
    lemma_half_limb(a[3], a[4]);
    lemma_half_limb(a[4], a[5]);
    lemma_half_limb(a[5], 0);
    lemma_fp_nat_expand(a);
    lemma_fp_nat_expand(r);
    lemma_mod_of_offset(fp_nat(a) as int, (a[0] % 2) as int, fp_nat(r) as int, 2);
}

} // verus!
