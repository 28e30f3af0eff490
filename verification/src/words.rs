//! Machine-word helpers for the overlay model: a zero byte is a hole, any
//! other byte is data.

use vstd::prelude::*;

verus! {

/// The `k`-th byte of a word, counted from the least significant end.
pub open spec fn word_byte(w: u64, k: nat) -> u8 {
    ((w >> ((8 * k) as u64)) & 0xff) as u8
}

/// A byte may sit under a merged byte when it is a hole or already equal to it.
pub open spec fn byte_fits(b: u8, merged: u8) -> bool {
    b == 0 || b == merged
}

/// Every byte of `w` fits under the byte of `or_w` at the same position.
pub open spec fn word_fits(w: u64, or_w: u64) -> bool {
    forall|k: nat| k < 8 ==> byte_fits(#[trigger] word_byte(w, k), word_byte(or_w, k))
}

/// Checks the hole-or-equal rule on the eight bytes of a word at once.
pub fn check_word_sanity(w: u64, or_w: u64) -> (ok: bool)
    ensures
        ok == word_fits(w, or_w),
{
    if w == or_w {
        return true;
    }
    let mut k: u32 = 0;
    while k < 8
        invariant
            k <= 8,
            forall|j: nat| j < k ==> byte_fits(#[trigger] word_byte(w, j), word_byte(or_w, j)),
        decreases 8 - k,
    {
        let shift: u32 = k * 8;
        let b: u8 = ((w >> shift) & 0xff) as u8;
        let or_b: u8 = ((or_w >> shift) & 0xff) as u8;
        assert(b == word_byte(w, k as nat));
        assert(or_b == word_byte(or_w, k as nat));
        if b != 0 && b != or_b {
            return false;
        }
        k += 1;
    }
    true
}

/// Byte `k` of the OR of two words is the OR of their bytes `k`.
pub proof fn lemma_word_byte_of_or(a: u64, b: u64, k: nat)
    requires
        k < 8,
    ensures
        word_byte(a | b, k) == word_byte(a, k) | word_byte(b, k),
{
    let s: u64 = (8 * k) as u64;
    assert((((a | b) >> s) & 0xff) as u8 == (((a >> s) & 0xff) as u8) | (((b >> s) & 0xff) as u8))
        by (bit_vector)
        requires
            s < 64,
    ;
}

/// The word whose bytes, from the least significant end, are `b0` to `b7`.
pub open spec fn pack(b0: u8, b1: u8, b2: u8, b3: u8, b4: u8, b5: u8, b6: u8, b7: u8) -> u64 {
    (b0 as u64) | ((b1 as u64) << 8) | ((b2 as u64) << 16) | ((b3 as u64) << 24) | ((b4 as u64)
        << 32) | ((b5 as u64) << 40) | ((b6 as u64) << 48) | ((b7 as u64) << 56)
}

proof fn lemma_pack_bytes(b0: u8, b1: u8, b2: u8, b3: u8, b4: u8, b5: u8, b6: u8, b7: u8)
    ensures
        word_byte(pack(b0, b1, b2, b3, b4, b5, b6, b7), 0) == b0,
        word_byte(pack(b0, b1, b2, b3, b4, b5, b6, b7), 1) == b1,
        word_byte(pack(b0, b1, b2, b3, b4, b5, b6, b7), 2) == b2,
        word_byte(pack(b0, b1, b2, b3, b4, b5, b6, b7), 3) == b3,
        word_byte(pack(b0, b1, b2, b3, b4, b5, b6, b7), 4) == b4,
        word_byte(pack(b0, b1, b2, b3, b4, b5, b6, b7), 5) == b5,
        word_byte(pack(b0, b1, b2, b3, b4, b5, b6, b7), 6) == b6,
        word_byte(pack(b0, b1, b2, b3, b4, b5, b6, b7), 7) == b7,
{
    let w = pack(b0, b1, b2, b3, b4, b5, b6, b7);
    assert(((w >> 0u64) & 0xff) as u8 == b0 && ((w >> 8u64) & 0xff) as u8 == b1 && ((w >> 16u64)
        & 0xff) as u8 == b2 && ((w >> 24u64) & 0xff) as u8 == b3 && ((w >> 32u64) & 0xff) as u8
        == b4 && ((w >> 40u64) & 0xff) as u8 == b5 && ((w >> 48u64) & 0xff) as u8 == b6 && ((w
        >> 56u64) & 0xff) as u8 == b7) by (bit_vector)
        requires
            w == (b0 as u64) | ((b1 as u64) << 8) | ((b2 as u64) << 16) | ((b3 as u64) << 24) | ((
            b4 as u64) << 32) | ((b5 as u64) << 40) | ((b6 as u64) << 48) | ((b7 as u64) << 56),
    ;
}

/// Reads the eight bytes from `at` on as one word.
pub fn load_word(bytes: &[u8], at: usize) -> (w: u64)
    requires
        at + 8 <= bytes.len(),
    ensures
        forall|k: nat| k < 8 ==> #[trigger] word_byte(w, k) == bytes@[at + k],
{
    let b0: u8 = bytes[at];
    let b1: u8 = bytes[at + 1];
    let b2: u8 = bytes[at + 2];
    let b3: u8 = bytes[at + 3];
    let b4: u8 = bytes[at + 4];
    let b5: u8 = bytes[at + 5];
    let b6: u8 = bytes[at + 6];
    let b7: u8 = bytes[at + 7];
    let w: u64 = (b0 as u64) | ((b1 as u64) << 8) | ((b2 as u64) << 16) | ((b3 as u64) << 24) | ((
    b4 as u64) << 32) | ((b5 as u64) << 40) | ((b6 as u64) << 48) | ((b7 as u64) << 56);
    proof {
        lemma_pack_bytes(b0, b1, b2, b3, b4, b5, b6, b7);
        assert forall|k: nat| k < 8 implies #[trigger] word_byte(w, k) == bytes@[at + k] by {
            assert(k == 0 || k == 1 || k == 2 || k == 3 || k == 4 || k == 5 || k == 6 || k == 7);
        }
    }
    w
}

/// Writes the eight bytes of `w` into `bytes` from `at` on.
pub fn store_word(bytes: &mut Vec<u8>, at: usize, w: u64)
    requires
        at + 8 <= old(bytes).len(),
    ensures
        final(bytes).len() == old(bytes).len(),
        forall|k: nat| k < 8 ==> final(bytes)@[at + k] == #[trigger] word_byte(w, k),
        forall|p: int|
            0 <= p < old(bytes)@.len() && !(at <= p < at + 8) ==> final(bytes)@[p] == old(bytes)@[p],
{
    let mut k: usize = 0;
    while k < 8
        invariant
            k <= 8,
            at + 8 <= bytes.len(),
            bytes.len() == old(bytes).len(),
            forall|j: nat| j < k ==> bytes@[at + j] == #[trigger] word_byte(w, j),
            forall|p: int|
                0 <= p < bytes@.len() && !(at <= p < at + 8) ==> bytes@[p] == old(bytes)@[p],
        decreases 8 - k,
    {
        let shift: u32 = (k * 8) as u32;
        let b: u8 = ((w >> shift) & 0xff) as u8;
        assert(b == word_byte(w, k as nat));
        bytes.set(at + k, b);
        k += 1;
    }
}

} // verus!
