//! Properties that relate the operations to one another, stated over the
//! spec functions their contracts use.

use vstd::prelude::*;
use vstd::arithmetic::div_mod::*;
use vstd::arithmetic::mul::*;

use crate::consts::{lemma_consts_values, ONE};
use crate::fp::{add_mod_value, sub_mod_value};
use crate::lemmas::{lemma_be_val_injective, lemma_fp_nat_expand, lemma_mod_of_offset, lemma_val64_injective};
use crate::montgomery::lemma_mont_reduce_props;
use crate::specs::{be_val, fp_nat, is_canonical, mont_reduce, n_prime, p_nat, r_nat, Fp};

verus! {

/// `R` is invertible modulo `p`: `u R = v R (mod p)` with `u, v < p` forces `u = v`.
pub proof fn lemma_cancel_radix_mod(u: nat, v: nat)
    requires
        (u * r_nat()) % p_nat() == (v * r_nat()) % p_nat(),
        u < p_nat(),
        v < p_nat(),
    ensures
        u == v,
{
    let p = p_nat() as int;
    let rr = r_nat() as int;
    let k: int = 0x14fec701e8fb0ce9ed5e64273c4f538b1797ab1458a88de9343ea97914956dc87fe11274d898fafbf4d38259380b4820int;
    assert(rr * k == 1 + p * n_prime());
    lemma_fundamental_div_mod(u * rr, p);
    lemma_fundamental_div_mod(v * rr, p);
    let e = (u * rr) / p - (v * rr) / p;
    assert(u * rr == v * rr + p * e);
    lemma_cancel_algebra(u as int, v as int, e, rr, p, k, n_prime() as int);
    lemma_mod_of_offset(u as int, v as int, k * e - u * n_prime() + v * n_prime(), p);
    lemma_small_mod(u, p_nat());
}

proof fn lemma_cancel_algebra(u: int, v: int, e: int, rr: int, p: int, k: int, np: int)
    requires
        u * rr == v * rr + p * e,
        rr * k == 1 + p * np,
    ensures
        u == v + (k * e - u * np + v * np) * p,
{
    assert(u * (rr * k) == u + (u * np) * p) by (nonlinear_arith)
        requires
            rr * k == 1 + p * np,
    ;
    assert(v * (rr * k) == v + (v * np) * p) by (nonlinear_arith)
        requires
            rr * k == 1 + p * np,
    ;
    assert(u * (rr * k) == v * (rr * k) + (k * e) * p) by (nonlinear_arith)
        requires
            u * rr == v * rr + p * e,
    ;
    assert((k * e - u * np + v * np) * p == (k * e) * p - (u * np) * p + (v * np) * p)
        by (nonlinear_arith);
}

/// Six limbs are determined by the integer they denote.
pub proof fn lemma_fp_nat_injective(a: Fp, b: Fp)
    requires
        fp_nat(a) == fp_nat(b),
    ensures
        a == b,
{
    lemma_val64_injective(a@, b@);
    assert(a =~= b);
}

/// Leaving Montgomery form undoes entering it: for a canonical `a`,
/// `from_mont(to_mont(a)) == a`.
pub proof fn law_from_mont_undoes_to_mont(a: Fp, m: Fp, back: Fp)
    requires
        is_canonical(a),
        fp_nat(m) == (fp_nat(a) * r_nat()) % p_nat(),
        fp_nat(back) == mont_reduce(fp_nat(m)),
    ensures
        back == a,
{
    let x = fp_nat(m);
    lemma_consts_values();
    lemma_mod_bound((fp_nat(a) * r_nat()) as int, p_nat() as int);
    assert(x < r_nat() * p_nat()) by (nonlinear_arith)
        requires
            x < p_nat(),
            r_nat() > 1,
    ;
    lemma_mont_reduce_props(x);
    lemma_small_mod(x, p_nat());
    lemma_cancel_radix_mod(fp_nat(back), fp_nat(a));
    lemma_fp_nat_injective(back, a);
}

/// Entering Montgomery form undoes leaving it: for a canonical `a`,
/// `to_mont(from_mont(a)) == a`.
pub proof fn law_to_mont_undoes_from_mont(a: Fp, m: Fp, back: Fp)
    requires
        is_canonical(a),
        fp_nat(m) == mont_reduce(fp_nat(a)),
        fp_nat(back) == (fp_nat(m) * r_nat()) % p_nat(),
    ensures
        back == a,
{
    lemma_consts_values();
    lemma_fp_nat_expand(a);
    assert(fp_nat(a) < r_nat() * p_nat()) by (nonlinear_arith)
        requires
            fp_nat(a) < r_nat(),
            p_nat() > 1,
    ;
    lemma_mont_reduce_props(fp_nat(a));
    lemma_small_mod(fp_nat(a), p_nat());
    lemma_fp_nat_injective(back, a);
}

/// The Montgomery product of Montgomery forms is the Montgomery form of the
/// product, so leaving Montgomery form afterwards gives `a b mod p`.
pub proof fn law_mont_mul_multiplies(a: Fp, b: Fp, am: Fp, bm: Fp, prod: Fp, back: Fp)
    requires
        is_canonical(a),
        is_canonical(b),
        fp_nat(am) == (fp_nat(a) * r_nat()) % p_nat(),
        fp_nat(bm) == (fp_nat(b) * r_nat()) % p_nat(),
        fp_nat(prod) == mont_reduce(fp_nat(am) * fp_nat(bm)),
        fp_nat(back) == mont_reduce(fp_nat(prod)),
    ensures
        fp_nat(prod) == (((fp_nat(a) * fp_nat(b)) % p_nat()) * r_nat()) % p_nat(),
        fp_nat(back) == (fp_nat(a) * fp_nat(b)) % p_nat(),
{
    let p = p_nat() as int;
    let rr = r_nat() as int;
    let x = fp_nat(a) as int;
    let y = fp_nat(b) as int;
    let xm = fp_nat(am) as int;
    let ym = fp_nat(bm) as int;
    lemma_consts_values();
    lemma_mod_bound(x * rr, p);
    lemma_mod_bound(y * rr, p);
    assert(xm * ym < rr * p) by (nonlinear_arith)
        requires
            0 <= xm < p,
            0 <= ym < p,
            p < rr,
    ;
    lemma_mont_reduce_props((xm * ym) as nat);
    let z = fp_nat(prod) as int;
    // z R = xm ym = (x R)(y R) = ((x y mod p) R) R (mod p)
    lemma_mul_mod_noop(x * rr, y * rr, p);
    assert((z * rr) % p == ((x * rr) * (y * rr)) % p);
    assert((x * rr) * (y * rr) == ((x * y) * rr) * rr) by (nonlinear_arith);
    lemma_mul_mod_noop_left((x * y) * rr, rr, p);
    lemma_mul_mod_noop_left(x * y, rr, p);
    let t = (((x * y) % p) * rr) % p;
    lemma_mod_bound(((x * y) % p) * rr, p);
    lemma_small_mod(t as nat, p as nat);
    lemma_mul_mod_noop_left(((x * y) % p) * rr, rr, p);
    assert((z * rr) % p == (t * rr) % p);
    lemma_cancel_radix_mod(z as nat, t as nat);
    // leaving Montgomery form
    assert(z < rr * p) by (nonlinear_arith)
        requires
            0 <= z < p,
            p < rr,
    ;
    lemma_mont_reduce_props(z as nat);
    let w = fp_nat(back) as int;
    lemma_mod_bound(x * y, p);
    lemma_small_mod(((x * y) % p) as nat, p as nat);
    lemma_mul_mod_noop_left(x * y, rr, p);
    assert((w * rr) % p == (((x * y) % p) * rr) % p);
    lemma_cancel_radix_mod(w as nat, ((x * y) % p) as nat);
}

/// Subtracting `b` undoes adding it, on canonical inputs.
pub proof fn law_sub_mod_undoes_add_mod(a: Fp, b: Fp, s: Fp, d: Fp)
    requires
        is_canonical(a),
        is_canonical(b),
        fp_nat(s) == add_mod_value(a, b),
        fp_nat(d) == sub_mod_value(s, b),
    ensures
        d == a,
{
    lemma_consts_values();
    let x = fp_nat(a) + fp_nat(b);
    if x >= p_nat() {
        lemma_small_mod((x - p_nat()) as nat, r_nat());
    } else {
        lemma_small_mod(fp_nat(a) as nat, r_nat());
    }
    if fp_nat(s) < fp_nat(b) {
        lemma_small_mod((fp_nat(s) - fp_nat(b) + p_nat()) as nat, r_nat());
    }
    lemma_fp_nat_injective(d, a);
}

/// Adding `b` back undoes subtracting it, on canonical inputs.
pub proof fn law_add_mod_undoes_sub_mod(a: Fp, b: Fp, d: Fp, s: Fp)
    requires
        is_canonical(a),
        is_canonical(b),
        fp_nat(d) == sub_mod_value(a, b),
        fp_nat(s) == add_mod_value(d, b),
    ensures
        s == a,
{
    lemma_consts_values();
    if fp_nat(a) < fp_nat(b) {
        lemma_small_mod((fp_nat(a) - fp_nat(b) + p_nat()) as nat, r_nat());
    }
    let x = fp_nat(d) + fp_nat(b);
    if x >= p_nat() {
        lemma_small_mod((x - p_nat()) as nat, r_nat());
    }
    lemma_fp_nat_injective(s, a);
}

/// The negation is an additive inverse: `add_mod(a, neg_mod(a)) == 0` for a
/// canonical `a`.
pub proof fn law_neg_mod_is_additive_inverse(a: Fp, n: Fp, s: Fp)
    requires
        is_canonical(a),
        fp_nat(n) == (if fp_nat(a) == 0 {
            0
        } else {
            (p_nat() - fp_nat(a)) % (r_nat() as int)
        }),
        fp_nat(s) == add_mod_value(a, n),
    ensures
        fp_nat(s) == 0,
        is_canonical(n),
{
    lemma_consts_values();
    if fp_nat(a) != 0 {
        lemma_small_mod((p_nat() - fp_nat(a)) as nat, r_nat());
        lemma_small_mod(0, r_nat());
    }
}

/// Decoding the big-endian encoding gives the limbs back:
/// `be_to_limbs(&limbs_to_be(a)) == a`.
pub proof fn law_be_to_limbs_undoes_limbs_to_be(a: Fp, bytes: [u8; 48], back: Fp)
    requires
        be_val(bytes@) == fp_nat(a),
        fp_nat(back) == be_val(bytes@),
    ensures
        back == a,
{
    lemma_fp_nat_injective(back, a);
}

/// Encoding decoded limbs gives the bytes back:
/// `limbs_to_be(&be_to_limbs(b)) == b`.
pub proof fn law_limbs_to_be_undoes_be_to_limbs(b: [u8; 48], limbs: Fp, back: [u8; 48])
    requires
        fp_nat(limbs) == be_val(b@),
        be_val(back@) == fp_nat(limbs),
    ensures
        back == b,
{
    lemma_be_val_injective(back@, b@);
    assert(back =~= b);
}

/// `wit48` accepts the encoding of every canonical element and reads the
/// element back.
pub proof fn law_wit48_reads_canonical_encoding(a: Fp, bytes: Seq<u8>, x: Fp)
    requires
        is_canonical(a),
        bytes.len() == 48,
        be_val(bytes) == fp_nat(a),
    ensures
        be_val(bytes) < p_nat(),
        fp_nat(x) == be_val(bytes) ==> x == a,
{
    if fp_nat(x) == be_val(bytes) {
        lemma_fp_nat_injective(x, a);
    }
}

/// The bare reduction is a Montgomery multiplication by one:
/// `from_mont(a) == mont_mul(a, ONE)`.
pub proof fn law_from_mont_is_mont_mul_by_one(a: Fp)
    ensures
        mont_reduce(fp_nat(a)) == mont_reduce(fp_nat(a) * fp_nat(ONE)),
{
    lemma_consts_values();
}

} // verus!
