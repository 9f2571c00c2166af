//! Big-endian byte encoding of field elements.

use vstd::prelude::*;

use crate::lemmas::{lemma_be_val_48, lemma_fp_nat_expand};
use crate::specs::{be_val, be_word, fp_nat, Fp};

verus! {

/// A word equals the big-endian sum of its eight bytes.
proof fn lemma_word_be_bytes(w: u64)
    ensures
        w == ((w >> 56) as u8) * 0x100_0000_0000_0000 + ((w >> 48) as u8) * 0x1_0000_0000_0000
            + ((w >> 40) as u8) * 0x100_0000_0000 + ((w >> 32) as u8) * 0x1_0000_0000
            + ((w >> 24) as u8) * 0x100_0000 + ((w >> 16) as u8) * 0x1_0000 + ((w >> 8) as u8)
            * 0x100 + (w as u8),
{
    assert(w == ((w >> 56) & 0xff) * 0x100_0000_0000_0000 + ((w >> 48) & 0xff) * 0x1_0000_0000_0000
        + ((w >> 40) & 0xff) * 0x100_0000_0000 + ((w >> 32) & 0xff) * 0x1_0000_0000 + ((w >> 24)
        & 0xff) * 0x100_0000 + ((w >> 16) & 0xff) * 0x1_0000 + ((w >> 8) & 0xff) * 0x100 + (w
        & 0xff)) by (bit_vector);
    assert(((w >> 56) as u8) as u64 == (w >> 56) & 0xff) by (bit_vector);
    assert(((w >> 48) as u8) as u64 == (w >> 48) & 0xff) by (bit_vector);
    assert(((w >> 40) as u8) as u64 == (w >> 40) & 0xff) by (bit_vector);
    assert(((w >> 32) as u8) as u64 == (w >> 32) & 0xff) by (bit_vector);
    assert(((w >> 24) as u8) as u64 == (w >> 24) & 0xff) by (bit_vector);
    assert(((w >> 16) as u8) as u64 == (w >> 16) & 0xff) by (bit_vector);
    assert(((w >> 8) as u8) as u64 == (w >> 8) & 0xff) by (bit_vector);
    assert((w as u8) as u64 == w & 0xff) by (bit_vector);
}

/// Eight bytes assembled most significant first denote their big-endian sum.
proof fn lemma_be_bytes_word(b0: u8, b1: u8, b2: u8, b3: u8, b4: u8, b5: u8, b6: u8, b7: u8)
    ensures
        ((b0 as u64) << 56 | (b1 as u64) << 48 | (b2 as u64) << 40 | (b3 as u64) << 32 | (b4
            as u64) << 24 | (b5 as u64) << 16 | (b6 as u64) << 8 | (b7 as u64)) == b0
            * 0x100_0000_0000_0000 + b1 * 0x1_0000_0000_0000 + b2 * 0x100_0000_0000 + b3
            * 0x1_0000_0000 + b4 * 0x100_0000 + b5 * 0x1_0000 + b6 * 0x100 + b7,
{
    let x0 = b0 as u64;
    let x1 = b1 as u64;
    let x2 = b2 as u64;
    let x3 = b3 as u64;
    let x4 = b4 as u64;
    let x5 = b5 as u64;
    let x6 = b6 as u64;
    let x7 = b7 as u64;
    assert(x0 < 256 && x1 < 256 && x2 < 256 && x3 < 256 && x4 < 256 && x5 < 256 && x6 < 256 && x7
        < 256);
    assert((x0 << 56 | x1 << 48 | x2 << 40 | x3 << 32 | x4 << 24 | x5 << 16 | x6 << 8 | x7) == x0
        * 0x100_0000_0000_0000 + x1 * 0x1_0000_0000_0000 + x2 * 0x100_0000_0000 + x3
        * 0x1_0000_0000 + x4 * 0x100_0000 + x5 * 0x1_0000 + x6 * 0x100 + x7) by (bit_vector)
        requires
            x0 < 256 && x1 < 256 && x2 < 256 && x3 < 256 && x4 < 256 && x5 < 256 && x6 < 256 && x7
                < 256,
    ;
}

/// The 48-byte big-endian encoding of the limbs' value (most significant
/// limb first).
pub fn limbs_to_be(a: &Fp) -> (out: [u8; 48])
    ensures
        be_val(out@) == fp_nat(*a),
{
    let mut out = [0u8; 48];
    for i in 0..6
        invariant
            forall|k: int| 0 <= k < i ==> #[trigger] be_word(out@, k) == a[5 - k],
    {
        let w = a[5 - i];
        let o = i * 8;
        let ghost before = out@;
        out[o] = (w >> 56) as u8;
        out[o + 1] = (w >> 48) as u8;
        out[o + 2] = (w >> 40) as u8;
        out[o + 3] = (w >> 32) as u8;
        out[o + 4] = (w >> 24) as u8;
        out[o + 5] = (w >> 16) as u8;
        out[o + 6] = (w >> 8) as u8;
        out[o + 7] = w as u8;
        proof {
            lemma_word_be_bytes(w);
            assert(be_word(out@, i as int) == w);
            assert(forall|j: int| 0 <= j < 8 * i ==> out@[j] == before[j]);
            assert forall|k: int| 0 <= k < i implies #[trigger] be_word(out@, k) == be_word(
                before,
                k,
            ) by {
                assert(out@[8 * k] == before[8 * k]);
                assert(out@[8 * k + 1] == before[8 * k + 1]);
                assert(out@[8 * k + 2] == before[8 * k + 2]);
                assert(out@[8 * k + 3] == before[8 * k + 3]);
                assert(out@[8 * k + 4] == before[8 * k + 4]);
                assert(out@[8 * k + 5] == before[8 * k + 5]);
                assert(out@[8 * k + 6] == before[8 * k + 6]);
                assert(out@[8 * k + 7] == before[8 * k + 7]);
            }
        }
    }
    proof {
        lemma_be_val_48(out@);
        lemma_fp_nat_expand(*a);
        assert(be_word(out@, 0) == a[5] && be_word(out@, 1) == a[4] && be_word(out@, 2) == a[3]);
        assert(be_word(out@, 3) == a[2] && be_word(out@, 4) == a[1] && be_word(out@, 5) == a[0]);
    }
    out
}

/// The limbs of a 48-byte big-endian encoding.
pub fn be_to_limbs(b: &[u8; 48]) -> (r: Fp)
    ensures
        fp_nat(r) == be_val(b@),
{
    let mut r = [0u64; 6];
    for i in 0..6
        invariant
            forall|k: int| 0 <= k < i ==> r[5 - k] == #[trigger] be_word(b@, k),
    {
        let o = i * 8;
        r[5 - i] = (b[o] as u64) << 56 | (b[o + 1] as u64) << 48 | (b[o + 2] as u64) << 40 | (b[o
            + 3] as u64) << 32 | (b[o + 4] as u64) << 24 | (b[o + 5] as u64) << 16 | (b[o + 6]
            as u64) << 8 | (b[o + 7] as u64);
        proof {
            lemma_be_bytes_word(b[o as int], b[o + 1], b[o + 2], b[o + 3], b[o + 4], b[o + 5], b[o + 6], b[o + 7]);
            assert(r[5 - i] == be_word(b@, i as int));
        }
    }
    proof {
        lemma_be_val_48(b@);
        lemma_fp_nat_expand(r);
        assert(be_word(b@, 0) == r[5] && be_word(b@, 1) == r[4] && be_word(b@, 2) == r[3]);
        assert(be_word(b@, 3) == r[2] && be_word(b@, 4) == r[1] && be_word(b@, 5) == r[0]);
    }
    r
}

} // verus!
