//! The overlay model of partial files.
//!
//! Every candidate is a byte sequence of one common length. A zero byte is a
//! hole, any other byte is data. The merged file holds, at every offset, the
//! bitwise OR of what the candidates hold there. The candidates are sane when
//! every one of their bytes is a hole or equals the merged byte, and a
//! candidate is complete when it already equals the merged file.

use vstd::prelude::*;
use crate::words::byte_fits;

verus! {

/// Bitwise OR of the bytes that the sources hold at offset `p`.
pub open spec fn or_at(sources: Seq<Seq<u8>>, p: int) -> u8
    decreases sources.len(),
{
    if sources.len() == 0 {
        0u8
    } else {
        or_at(sources.drop_last(), p) | sources.last()[p]
    }
}

/// All sources have exactly `size` bytes.
pub open spec fn same_length(sources: Seq<Seq<u8>>, size: nat) -> bool {
    forall|i: int| 0 <= i < sources.len() ==> (#[trigger] sources[i]).len() == size
}

/// The merged file: the OR of all sources, offset by offset.
pub open spec fn overlay(sources: Seq<Seq<u8>>, size: nat) -> Seq<u8> {
    Seq::new(size, |p: int| or_at(sources, p))
}

/// Every byte of `source` is a hole or equals the byte of `merged` at its offset.
pub open spec fn fits_under(source: Seq<u8>, merged: Seq<u8>) -> bool {
    forall|p: int| 0 <= p < source.len() ==> byte_fits(#[trigger] source[p], merged[p])
}

/// The sanity rule: every source fits under the merged file.
pub open spec fn sane(sources: Seq<Seq<u8>>, size: nat) -> bool {
    forall|i: int|
        0 <= i < sources.len() ==> fits_under(#[trigger] sources[i], overlay(sources, size))
}

/// No two sources hold different data bytes at one offset.
pub open spec fn conflict_free(sources: Seq<Seq<u8>>, size: nat) -> bool {
    forall|i: int, j: int, p: int|
        #![trigger sources[i][p], sources[j][p]]
        0 <= i < sources.len() && 0 <= j < sources.len() && 0 <= p < size && sources[i][p] != 0
            && sources[j][p] != 0 ==> sources[i][p] == sources[j][p]
}

/// One flag per source: does it already equal the merged file?
pub open spec fn completeness(sources: Seq<Seq<u8>>, size: nat) -> Seq<bool> {
    Seq::new(sources.len(), |i: int| sources[i] == overlay(sources, size))
}

/// The window `[offset, offset + len)` of every source.
pub open spec fn windows(sources: Seq<Seq<u8>>, offset: int, len: int) -> Seq<Seq<u8>> {
    Seq::new(sources.len(), |i: int| sources[i].subrange(offset, offset + len))
}

/// Every source of `heads` followed by the source of `tails` at the same index.
pub open spec fn extend_each(heads: Seq<Seq<u8>>, tails: Seq<Seq<u8>>) -> Seq<Seq<u8>> {
    Seq::new(heads.len(), |i: int| heads[i] + tails[i])
}

/// Bit `k` of a byte.
pub open spec fn bit_set(b: u8, k: u8) -> bool {
    (b >> k) & 1 == 1
}

proof fn lemma_bit_of_or(a: u8, b: u8, k: u8)
    requires
        k < 8,
    ensures
        bit_set(a | b, k) == (bit_set(a, k) || bit_set(b, k)),
{
    assert(((a | b) >> k) & 1 == 1 <==> ((a >> k) & 1 == 1 || (b >> k) & 1 == 1)) by (bit_vector)
        requires
            k < 8,
    ;
}

proof fn lemma_no_bit_in_zero(k: u8)
    requires
        k < 8,
    ensures
        !bit_set(0u8, k),
{
    assert((0u8 >> k) & 1 != 1) by (bit_vector)
        requires
            k < 8,
    ;
}

proof fn lemma_equal_by_bits(a: u8, b: u8)
    requires
        forall|k: u8| k < 8 ==> bit_set(a, k) == bit_set(b, k),
    ensures
        a == b,
{
    assert(bit_set(a, 0) == bit_set(b, 0));
    assert(bit_set(a, 1) == bit_set(b, 1));
    assert(bit_set(a, 2) == bit_set(b, 2));
    assert(bit_set(a, 3) == bit_set(b, 3));
    assert(bit_set(a, 4) == bit_set(b, 4));
    assert(bit_set(a, 5) == bit_set(b, 5));
    assert(bit_set(a, 6) == bit_set(b, 6));
    assert(bit_set(a, 7) == bit_set(b, 7));
    assert(a == b) by (bit_vector)
        requires
            ((a >> 0u8) & 1 == 1) == ((b >> 0u8) & 1 == 1),
            ((a >> 1u8) & 1 == 1) == ((b >> 1u8) & 1 == 1),
            ((a >> 2u8) & 1 == 1) == ((b >> 2u8) & 1 == 1),
            ((a >> 3u8) & 1 == 1) == ((b >> 3u8) & 1 == 1),
            ((a >> 4u8) & 1 == 1) == ((b >> 4u8) & 1 == 1),
            ((a >> 5u8) & 1 == 1) == ((b >> 5u8) & 1 == 1),
            ((a >> 6u8) & 1 == 1) == ((b >> 6u8) & 1 == 1),
            ((a >> 7u8) & 1 == 1) == ((b >> 7u8) & 1 == 1),
    ;
}

/// A bit is set in the merged byte exactly when some source has it set.
pub proof fn lemma_or_at_bits(sources: Seq<Seq<u8>>, p: int, k: u8)
    requires
        k < 8,
    ensures
        bit_set(or_at(sources, p), k) <==> exists|i: int|
            0 <= i < sources.len() && bit_set(#[trigger] sources[i][p], k),
    decreases sources.len(),
{
    if sources.len() == 0 {
        lemma_no_bit_in_zero(k);
    } else {
        let front = sources.drop_last();
        lemma_or_at_bits(front, p, k);
        lemma_bit_of_or(or_at(front, p), sources.last()[p], k);
        if bit_set(or_at(sources, p), k) {
            if bit_set(sources.last()[p], k) {
                assert(bit_set(sources[sources.len() - 1][p], k));
            } else {
                let i = choose|i: int| 0 <= i < front.len() && bit_set(#[trigger] front[i][p], k);
                assert(bit_set(sources[i][p], k));
            }
        }
        if exists|i: int| 0 <= i < sources.len() && bit_set(#[trigger] sources[i][p], k) {
            let i = choose|i: int| 0 <= i < sources.len() && bit_set(#[trigger] sources[i][p], k);
            if i < front.len() {
                assert(bit_set(front[i][p], k));
            }
        }
    }
}

/// Some source holds the byte `v` at offset `p`.
pub open spec fn byte_occurs(sources: Seq<Seq<u8>>, p: int, v: u8) -> bool {
    exists|i: int| 0 <= i < sources.len() && #[trigger] sources[i][p] == v
}

/// The merged byte depends only on which bytes occur at the offset, not on
/// where among the sources or how often.
pub proof fn lemma_or_at_same_bytes(a: Seq<Seq<u8>>, b: Seq<Seq<u8>>, p: int)
    requires
        forall|i: int| 0 <= i < a.len() ==> byte_occurs(b, p, #[trigger] a[i][p]),
        forall|j: int| 0 <= j < b.len() ==> byte_occurs(a, p, #[trigger] b[j][p]),
    ensures
        or_at(a, p) == or_at(b, p),
{
    assert forall|k: u8| k < 8 implies bit_set(or_at(a, p), k) == bit_set(or_at(b, p), k) by {
        lemma_or_at_bits(a, p, k);
        lemma_or_at_bits(b, p, k);
        if bit_set(or_at(a, p), k) {
            let i = choose|i: int| 0 <= i < a.len() && bit_set(#[trigger] a[i][p], k);
            assert(byte_occurs(b, p, a[i][p]));
            let j = choose|j: int| 0 <= j < b.len() && #[trigger] b[j][p] == a[i][p];
            assert(bit_set(b[j][p], k));
        }
        if bit_set(or_at(b, p), k) {
            let j = choose|j: int| 0 <= j < b.len() && bit_set(#[trigger] b[j][p], k);
            assert(byte_occurs(a, p, b[j][p]));
            let i = choose|i: int| 0 <= i < a.len() && #[trigger] a[i][p] == b[j][p];
            assert(bit_set(a[i][p], k));
        }
    }
    lemma_equal_by_bits(or_at(a, p), or_at(b, p));
}

/// Where every source holds a hole or the byte `v`, the merged byte is `v`
/// if a source holds it, else a hole.
pub proof fn lemma_or_at_single_value(sources: Seq<Seq<u8>>, p: int, v: u8)
    requires
        forall|i: int| 0 <= i < sources.len() ==> byte_fits(#[trigger] sources[i][p], v),
    ensures
        byte_fits(or_at(sources, p), v),
        (exists|i: int| 0 <= i < sources.len() && #[trigger] sources[i][p] == v) ==> or_at(
            sources,
            p,
        ) == v,
    decreases sources.len(),
{
    if sources.len() > 0 {
        let front = sources.drop_last();
        assert forall|i: int| 0 <= i < front.len() implies byte_fits(#[trigger] front[i][p], v) by {
            assert(front[i][p] == sources[i][p]);
        }
        lemma_or_at_single_value(front, p, v);
        let acc = or_at(front, p);
        let last = sources.last()[p];
        assert(last == sources[sources.len() - 1][p]);
        assert(byte_fits(last, v));
        assert(acc | last == (if acc == v || last == v { v } else { 0u8 })) by (bit_vector)
            requires
                acc == 0 || acc == v,
                last == 0 || last == v,
        ;
        if exists|i: int| 0 <= i < sources.len() && #[trigger] sources[i][p] == v {
            let i = choose|i: int| 0 <= i < sources.len() && #[trigger] sources[i][p] == v;
            if i < front.len() {
                assert(front[i][p] == v);
            }
        }
    }
}

/// The sanity rule holds exactly when no two sources hold different data
/// bytes at one offset.
pub proof fn lemma_sane_iff_conflict_free(sources: Seq<Seq<u8>>, size: nat)
    requires
        same_length(sources, size),
    ensures
        sane(sources, size) <==> conflict_free(sources, size),
{
    let merged = overlay(sources, size);
    if sane(sources, size) {
        assert forall|i: int, j: int, p: int|
            #![trigger sources[i][p], sources[j][p]]
            0 <= i < sources.len() && 0 <= j < sources.len() && 0 <= p < size && sources[i][p] != 0
                && sources[j][p] != 0 implies sources[i][p] == sources[j][p] by {
            assert(fits_under(sources[i], merged));
            assert(fits_under(sources[j], merged));
            assert(byte_fits(sources[i][p], merged[p]));
            assert(byte_fits(sources[j][p], merged[p]));
        }
    }
    if conflict_free(sources, size) {
        assert forall|i: int| 0 <= i < sources.len() implies fits_under(
            #[trigger] sources[i],
            merged,
        ) by {
            assert forall|p: int| 0 <= p < sources[i].len() implies byte_fits(
                #[trigger] sources[i][p],
                merged[p],
            ) by {
                let v = sources[i][p];
                if v != 0 {
                    assert forall|j: int| 0 <= j < sources.len() implies byte_fits(
                        #[trigger] sources[j][p],
                        v,
                    ) by {
                        if sources[j][p] != 0 {
                            assert(sources[i][p] == sources[j][p]);
                        }
                    }
                    lemma_or_at_single_value(sources, p, v);
                    assert(sources[i][p] == v);
                }
            }
        }
    }
}

/// The order of the candidates within a group does not matter: two groups
/// that hold the same files, in any order, merge to the same bytes and are
/// sane together, and a file is complete in one exactly when it is in the other.
pub proof fn lemma_merge_ignores_order(a: Seq<Seq<u8>>, b: Seq<Seq<u8>>, size: nat)
    requires
        same_length(a, size),
        same_length(b, size),
        a.to_multiset() == b.to_multiset(),
    ensures
        overlay(a, size) == overlay(b, size),
        sane(a, size) == sane(b, size),
        forall|i: int, j: int|
            0 <= i < a.len() && 0 <= j < b.len() && a[i] == b[j] ==> #[trigger] completeness(
                a,
                size,
            )[i] == #[trigger] completeness(b, size)[j],
{
    lemma_same_members(a, b);
    lemma_same_members(b, a);
    assert forall|p: int| 0 <= p < size implies or_at(a, p) == or_at(b, p) by {
        assert forall|i: int| 0 <= i < a.len() implies byte_occurs(b, p, #[trigger] a[i][p]) by {
            assert(b.contains(a[i]));
            let j = choose|j: int| 0 <= j < b.len() && b[j] == a[i];
            assert(b[j][p] == a[i][p]);
        }
        assert forall|j: int| 0 <= j < b.len() implies byte_occurs(a, p, #[trigger] b[j][p]) by {
            assert(a.contains(b[j]));
            let i = choose|i: int| 0 <= i < a.len() && a[i] == b[j];
            assert(a[i][p] == b[j][p]);
        }
        lemma_or_at_same_bytes(a, b, p);
    }
    assert(overlay(a, size) =~= overlay(b, size));
    let merged = overlay(a, size);
    if sane(a, size) {
        assert forall|j: int| 0 <= j < b.len() implies fits_under(#[trigger] b[j], merged) by {
            assert(a.contains(b[j]));
            let i = choose|i: int| 0 <= i < a.len() && a[i] == b[j];
            assert(fits_under(a[i], merged));
        }
    }
    if sane(b, size) {
        assert forall|i: int| 0 <= i < a.len() implies fits_under(#[trigger] a[i], merged) by {
            assert(b.contains(a[i]));
            let j = choose|j: int| 0 <= j < b.len() && b[j] == a[i];
            assert(fits_under(b[j], merged));
        }
    }
}

/// Every member of `a` occurs in `b` when both hold the same multiset.
proof fn lemma_same_members(a: Seq<Seq<u8>>, b: Seq<Seq<u8>>)
    requires
        a.to_multiset() == b.to_multiset(),
    ensures
        forall|i: int| 0 <= i < a.len() ==> b.contains(#[trigger] a[i]),
{
    assert forall|i: int| 0 <= i < a.len() implies b.contains(#[trigger] a[i]) by {
        assert(a.contains(a[i]));
        vstd::seq_lib::to_multiset_contains(a, a[i]);
        vstd::seq_lib::to_multiset_contains(b, a[i]);
    }
}

/// Files that are byte-identical are sane and all complete: merging them
/// again finds nothing to write.
pub proof fn lemma_identical_sources_complete(sources: Seq<Seq<u8>>, size: nat)
    requires
        same_length(sources, size),
        forall|i: int, j: int|
            0 <= i < sources.len() && 0 <= j < sources.len() ==> #[trigger] sources[i]
                == #[trigger] sources[j],
    ensures
        sane(sources, size),
        forall|i: int| 0 <= i < sources.len() ==> #[trigger] completeness(sources, size)[i],
{
    let merged = overlay(sources, size);
    assert forall|i: int| 0 <= i < sources.len() implies #[trigger] sources[i] == merged by {
        assert forall|p: int| 0 <= p < size implies sources[i][p] == merged[p] by {
            let v = sources[i][p];
            assert forall|j: int| 0 <= j < sources.len() implies byte_fits(
                #[trigger] sources[j][p],
                v,
            ) by {
                assert(sources[j] == sources[i]);
            }
            lemma_or_at_single_value(sources, p, v);
            assert(sources[i][p] == v);
        }
        assert(sources[i] =~= merged);
    }
    assert forall|i: int| 0 <= i < sources.len() implies fits_under(
        #[trigger] sources[i],
        merged,
    ) by {
        assert(sources[i] == merged);
    }
}

/// Once every candidate of a sane group has been replaced by the merged
/// file, a second merge yields the same bytes and finds every file complete.
pub proof fn lemma_merge_is_idempotent(sources: Seq<Seq<u8>>, size: nat)
    requires
        same_length(sources, size),
    ensures
        ({
            let merged = overlay(sources, size);
            let again = Seq::new(sources.len(), |i: int| merged);
            &&& sane(again, size)
            &&& sources.len() > 0 ==> overlay(again, size) == merged
            &&& forall|i: int| 0 <= i < again.len() ==> #[trigger] completeness(again, size)[i]
        }),
{
    let merged = overlay(sources, size);
    let again = Seq::new(sources.len(), |i: int| merged);
    lemma_identical_sources_complete(again, size);
    if sources.len() > 0 {
        assert(completeness(again, size)[0]);
        assert(again[0] == merged);
    }
}

/// The merged byte of sources that were each extended by a tail: before the
/// seam it is the merged byte of the heads, after it that of the tails.
pub proof fn lemma_or_at_extend_each(
    heads: Seq<Seq<u8>>,
    tails: Seq<Seq<u8>>,
    seam: nat,
    len: nat,
    p: int,
)
    requires
        heads.len() == tails.len(),
        same_length(heads, seam),
        same_length(tails, len),
        0 <= p < seam + len,
    ensures
        p < seam ==> or_at(extend_each(heads, tails), p) == or_at(heads, p),
        p >= seam ==> or_at(extend_each(heads, tails), p) == or_at(tails, p - seam),
    decreases heads.len(),
{
    let joined = extend_each(heads, tails);
    if heads.len() > 0 {
        let n = heads.len() - 1;
        assert(joined.drop_last() =~= extend_each(heads.drop_last(), tails.drop_last()));
        lemma_or_at_extend_each(heads.drop_last(), tails.drop_last(), seam, len, p);
        assert(joined.last() == heads[n] + tails[n]);
        assert(heads[n].len() == seam);
        assert(tails[n].len() == len);
        assert(tails.last() == tails[n]);
        if p < seam {
            assert((heads[n] + tails[n])[p] == heads[n][p]);
        } else {
            assert((heads[n] + tails[n])[p] == tails[n][p - seam]);
        }
    }
}

/// The merged file of extended sources is the merged file of the heads
/// followed by that of the tails.
pub proof fn lemma_overlay_extend_each(
    heads: Seq<Seq<u8>>,
    tails: Seq<Seq<u8>>,
    seam: nat,
    len: nat,
)
    requires
        heads.len() == tails.len(),
        same_length(heads, seam),
        same_length(tails, len),
    ensures
        same_length(extend_each(heads, tails), seam + len),
        overlay(extend_each(heads, tails), seam + len) == overlay(heads, seam) + overlay(tails, len),
{
    let joined = extend_each(heads, tails);
    assert forall|p: int| 0 <= p < seam + len implies overlay(joined, seam + len)[p] == (overlay(
        heads,
        seam,
    ) + overlay(tails, len))[p] by {
        lemma_or_at_extend_each(heads, tails, seam, len, p);
    }
    assert(overlay(joined, seam + len) =~= overlay(heads, seam) + overlay(tails, len));
}

/// The merged byte of windows is the merged byte of the whole sources at the
/// shifted offset.
pub proof fn lemma_or_at_windows(sources: Seq<Seq<u8>>, offset: int, len: int, p: int)
    requires
        0 <= offset,
        0 <= p < len,
        forall|i: int| 0 <= i < sources.len() ==> offset + len <= (#[trigger] sources[i]).len(),
    ensures
        or_at(windows(sources, offset, len), p) == or_at(sources, offset + p),
    decreases sources.len(),
{
    if sources.len() > 0 {
        let n = sources.len() - 1;
        assert(windows(sources, offset, len).drop_last() =~= windows(
            sources.drop_last(),
            offset,
            len,
        ));
        lemma_or_at_windows(sources.drop_last(), offset, len, p);
        assert(windows(sources, offset, len).last() == sources[n].subrange(offset, offset + len));
    }
}

/// The merged file of sane sources holds every data byte of every source
/// where the source holds it, and holds no data that no source holds.
pub proof fn lemma_merged_keeps_all_data(sources: Seq<Seq<u8>>, size: nat)
    requires
        same_length(sources, size),
        sane(sources, size),
    ensures
        forall|i: int, p: int|
            0 <= i < sources.len() && 0 <= p < size && #[trigger] sources[i][p] != 0 ==> overlay(
                sources,
                size,
            )[p] == sources[i][p],
        forall|p: int|
            0 <= p < size && #[trigger] overlay(sources, size)[p] != 0 ==> byte_occurs(
                sources,
                p,
                overlay(sources, size)[p],
            ),
{
    let merged = overlay(sources, size);
    assert forall|i: int, p: int|
        0 <= i < sources.len() && 0 <= p < size && #[trigger] sources[i][p] != 0 implies merged[p]
        == sources[i][p] by {
        assert(fits_under(sources[i], merged));
        assert(byte_fits(sources[i][p], merged[p]));
    }
    assert forall|p: int| 0 <= p < size && #[trigger] merged[p] != 0 implies byte_occurs(
        sources,
        p,
        merged[p],
    ) by {
        let v = merged[p];
        if forall|k: u8| k < 8 ==> !bit_set(v, k) {
            assert forall|k: u8| k < 8 implies bit_set(v, k) == bit_set(0u8, k) by {
                lemma_no_bit_in_zero(k);
            }
            lemma_equal_by_bits(v, 0u8);
        }
        let k = choose|k: u8| k < 8 && bit_set(v, k);
        lemma_or_at_bits(sources, p, k);
        let i = choose|i: int| 0 <= i < sources.len() && bit_set(#[trigger] sources[i][p], k);
        lemma_no_bit_in_zero(k);
        assert(sources[i][p] != 0);
        assert(fits_under(sources[i], merged));
        assert(byte_fits(sources[i][p], merged[p]));
    }
}

} // verus!
