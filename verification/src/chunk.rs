//! Merging and validating one chunk of every source.
//!
//! A chunk is walked in three parts: a head of single bytes up to the next
//! offset that is a multiple of eight, whole eight-byte words, and a tail of
//! single bytes. The byte-wise walk treats the whole chunk as a head. Both
//! walks meet the same contracts, so either can stand in for the other.

use vstd::prelude::*;
use crate::overlay::{fits_under, or_at, overlay, windows};
use crate::words::{byte_fits, check_word_sanity, lemma_word_byte_of_or, load_word, store_word,
    word_byte};

verus! {

/// Bytes handled per chunk.
pub const BUFFER_SIZE: usize = 1048576;

/// Bytes per machine word.
pub const BYTE_ALIGNMENT: usize = 8;

/// How a chunk is walked.
#[derive(Clone, Copy, Debug, PartialEq, Eq, Structural)]
pub enum Stride {
    /// One byte at a time.
    Bytes,
    /// Eight bytes at a time, with single bytes before and after.
    Words,
}

/// The three parts of a chunk: `head` single bytes, `words` whole words,
/// `tail` single bytes.
#[derive(Clone, Copy, Debug, PartialEq, Eq, Structural)]
pub struct WordLayout {
    pub head: usize,
    pub words: usize,
    pub tail: usize,
}

/// Bytes from `start` up to the next multiple of eight.
pub open spec fn lead_of(start: int) -> int {
    (8 - start % 8) % 8
}

/// The layout of the `len` bytes that begin at offset `start`.
pub open spec fn layout_of(start: int, len: int, stride: Stride) -> WordLayout {
    let head = if stride == Stride::Bytes || len < lead_of(start) {
        len
    } else {
        lead_of(start)
    };
    WordLayout {
        head: head as usize,
        words: ((len - head) / 8) as usize,
        tail: ((len - head) % 8) as usize,
    }
}

impl WordLayout {
    /// Splits the `len` bytes that begin at offset `start` into head, words and tail.
    pub fn for_span(start: usize, len: usize, stride: Stride) -> (layout: WordLayout)
        ensures
            layout == layout_of(start as int, len as int, stride),
            layout.head + 8 * layout.words + layout.tail == len,
            layout.tail < 8,
            stride == Stride::Words ==> layout.head < 8,
    {
        let lead: usize = (BYTE_ALIGNMENT - start % BYTE_ALIGNMENT) % BYTE_ALIGNMENT;
        let head: usize = match stride {
            Stride::Bytes => len,
            Stride::Words => if len < lead {
                len
            } else {
                lead
            },
        };
        let rest: usize = len - head;
        WordLayout { head, words: rest / BYTE_ALIGNMENT, tail: rest % BYTE_ALIGNMENT }
    }
}

/// The contents of a set of buffers.
pub open spec fn buffer_views(buffers: Seq<Vec<u8>>) -> Seq<Seq<u8>> {
    Seq::new(buffers.len(), |i: int| buffers[i]@)
}

/// The contents of a set of mapped files.
pub open spec fn slice_views(maps: Seq<&[u8]>) -> Seq<Seq<u8>> {
    Seq::new(maps.len(), |i: int| maps[i]@)
}

/// Every chunk fits under `merged`.
pub open spec fn all_fit(chunks: Seq<Seq<u8>>, merged: Seq<u8>) -> bool {
    forall|i: int| 0 <= i < chunks.len() ==> fits_under(#[trigger] chunks[i], merged)
}

/// Validation looks at chunk `i` only when every chunk before it fits.
pub open spec fn examined(chunks: Seq<Seq<u8>>, merged: Seq<u8>, i: int) -> bool {
    forall|j: int| 0 <= j < i ==> fits_under(#[trigger] chunks[j], merged)
}

/// The completeness flags after validating one chunk: a source that was
/// looked at stays complete only if its chunk equals `merged`.
pub open spec fn marked(flags: Seq<bool>, chunks: Seq<Seq<u8>>, merged: Seq<u8>) -> Seq<bool> {
    Seq::new(
        flags.len(),
        |i: int|
            if examined(chunks, merged, i) {
                flags[i] && chunks[i] == merged
            } else {
                flags[i]
            },
    )
}

/// Copies `acc.len()` bytes of `src`, from `src_off` on, over `acc`.
fn copy_span(acc: &mut Vec<u8>, src: &[u8], src_off: usize)
    requires
        src_off + old(acc).len() <= src.len(),
    ensures
        final(acc)@ == src@.subrange(src_off as int, src_off + old(acc).len()),
{
    let len = acc.len();
    let mut p: usize = 0;
    while p < len
        invariant
            p <= len,
            acc.len() == len,
            src_off + len <= src.len(),
            forall|q: int| 0 <= q < p ==> acc@[q] == src@[src_off + q],
        decreases len - p,
    {
        acc.set(p, src[src_off + p]);
        p += 1;
    }
    assert(acc@ =~= src@.subrange(src_off as int, src_off + len));
}

/// ORs the bytes `[from, to)` of the span of `src` into `acc`, one by one.
fn or_bytes(acc: &mut Vec<u8>, src: &[u8], src_off: usize, from: usize, to: usize)
    requires
        from <= to <= old(acc).len(),
        src_off + old(acc).len() <= src.len(),
    ensures
        final(acc).len() == old(acc).len(),
        forall|p: int| from <= p < to ==> final(acc)@[p] == old(acc)@[p] | src@[src_off + p],
        forall|p: int|
            0 <= p < old(acc).len() && !(from <= p < to) ==> final(acc)@[p] == old(acc)@[p],
{
    let mut p: usize = from;
    while p < to
        invariant
            from <= p <= to,
            to <= acc.len(),
            acc.len() == old(acc).len(),
            src_off + acc.len() <= src.len(),
            forall|q: int| from <= q < p ==> acc@[q] == old(acc)@[q] | src@[src_off + q],
            forall|q: int| 0 <= q < acc.len() && !(from <= q < p) ==> acc@[q] == old(acc)@[q],
        decreases to - p,
    {
        let v: u8 = acc[p] | src[src_off + p];
        acc.set(p, v);
        p += 1;
    }
}

/// ORs `words` whole words of the span of `src`, from byte `from` on, into `acc`.
fn or_words(acc: &mut Vec<u8>, src: &[u8], src_off: usize, from: usize, words: usize)
    requires
        from + 8 * words <= old(acc).len(),
        src_off + old(acc).len() <= src.len(),
    ensures
        final(acc).len() == old(acc).len(),
        forall|p: int|
            from <= p < from + 8 * words ==> final(acc)@[p] == old(acc)@[p] | src@[src_off + p],
        forall|p: int|
            0 <= p < old(acc).len() && !(from <= p < from + 8 * words) ==> final(acc)@[p] == old(acc)@[p],
{
    let mut j: usize = 0;
    while j < words
        invariant
            j <= words,
            from + 8 * words <= acc.len(),
            acc.len() == old(acc).len(),
            src_off + acc.len() <= src.len(),
            forall|q: int|
                from <= q < from + 8 * j ==> acc@[q] == old(acc)@[q] | src@[src_off + q],
            forall|q: int|
                0 <= q < acc.len() && !(from <= q < from + 8 * j) ==> acc@[q] == old(acc)@[q],
        decreases words - j,
    {
        let at: usize = from + 8 * j;
        let ghost before = acc@;
        let mine: u64 = load_word(acc.as_slice(), at);
        let theirs: u64 = load_word(src, src_off + at);
        let both: u64 = mine | theirs;
        store_word(acc, at, both);
        proof {
            assert forall|q: int| from <= q < from + 8 * (j + 1) implies acc@[q] == old(acc)@[q]
                | src@[src_off + q] by {
                if q >= at {
                    let k = (q - at) as nat;
                    lemma_word_byte_of_or(mine, theirs, k);
                    assert(acc@[at + k] == word_byte(both, k));
                    assert(word_byte(mine, k) == before[at + k]);
                    assert(word_byte(theirs, k) == src@[src_off + at + k]);
                }
            }
        }
        j += 1;
    }
}

/// ORs `acc.len()` bytes of `src`, from `src_off` on, into `acc`.
fn or_span(acc: &mut Vec<u8>, src: &[u8], src_off: usize, stride: Stride)
    requires
        src_off + old(acc).len() <= src.len(),
    ensures
        final(acc).len() == old(acc).len(),
        forall|p: int|
            0 <= p < old(acc).len() ==> final(acc)@[p] == old(acc)@[p] | src@[src_off + p],
{
    let len = acc.len();
    let layout = WordLayout::for_span(src_off, len, stride);
    or_bytes(acc, src, src_off, 0, layout.head);
    or_words(acc, src, src_off, layout.head, layout.words);
    or_bytes(acc, src, src_off, layout.head + 8 * layout.words, len);
}

/// Do the `merged.len()` bytes of `src` from `src_off` on equal `merged`?
fn span_matches(src: &[u8], src_off: usize, merged: &Vec<u8>) -> (same: bool)
    requires
        src_off + merged.len() <= src.len(),
    ensures
        same == (src@.subrange(src_off as int, src_off + merged.len()) == merged@),
{
    let len = merged.len();
    let ghost window = src@.subrange(src_off as int, src_off + len);
    let mut p: usize = 0;
    while p < len
        invariant
            p <= len,
            len == merged.len(),
            src_off + len <= src.len(),
            window == src@.subrange(src_off as int, src_off + len),
            forall|q: int| 0 <= q < p ==> window[q] == merged@[q],
        decreases len - p,
    {
        if src[src_off + p] != merged[p] {
            assert(window[p as int] != merged@[p as int]);
            return false;
        }
        p += 1;
    }
    assert(window =~= merged@);
    true
}

/// Checks the hole-or-equal rule on the bytes `[from, to)` of the span, one by one.
fn fits_bytes(src: &[u8], src_off: usize, merged: &Vec<u8>, from: usize, to: usize) -> (ok: bool)
    requires
        from <= to <= merged.len(),
        src_off + merged.len() <= src.len(),
    ensures
        ok == forall|p: int| from <= p < to ==> byte_fits(#[trigger] src@[src_off + p], merged@[p]),
{
    let mut p: usize = from;
    while p < to
        invariant
            from <= p <= to,
            to <= merged.len(),
            src_off + merged.len() <= src.len(),
            forall|q: int| from <= q < p ==> byte_fits(#[trigger] src@[src_off + q], merged@[q]),
        decreases to - p,
    {
        let b: u8 = src[src_off + p];
        if b != 0 && b != merged[p] {
            assert(!byte_fits(src@[src_off + p], merged@[p as int]));
            return false;
        }
        p += 1;
    }
    true
}

/// Checks the hole-or-equal rule on `words` whole words of the span, from byte `from` on.
fn fits_words(src: &[u8], src_off: usize, merged: &Vec<u8>, from: usize, words: usize) -> (ok:
    bool)
    requires
        from + 8 * words <= merged.len(),
        src_off + merged.len() <= src.len(),
    ensures
        ok == forall|p: int|
            from <= p < from + 8 * words ==> byte_fits(#[trigger] src@[src_off + p], merged@[p]),
{
    let mut j: usize = 0;
    while j < words
        invariant
            j <= words,
            from + 8 * words <= merged.len(),
            src_off + merged.len() <= src.len(),
            forall|q: int|
                from <= q < from + 8 * j ==> byte_fits(#[trigger] src@[src_off + q], merged@[q]),
        decreases words - j,
    {
        let at: usize = from + 8 * j;
        let w: u64 = load_word(src, src_off + at);
        let or_w: u64 = load_word(merged.as_slice(), at);
        if !check_word_sanity(w, or_w) {
            proof {
                let k = choose|k: nat| k < 8 && !byte_fits(#[trigger] word_byte(w, k), word_byte(or_w, k));
                assert(word_byte(w, k) == src@[src_off + at + k]);
                assert(word_byte(or_w, k) == merged@[at + k]);
                assert(!byte_fits(src@[src_off + (at + k)], merged@[at + k]));
            }
            return false;
        }
        proof {
            assert forall|q: int| at <= q < at + 8 implies byte_fits(
                #[trigger] src@[src_off + q],
                merged@[q],
            ) by {
                let k = (q - at) as nat;
                assert(byte_fits(word_byte(w, k), word_byte(or_w, k)));
                assert(word_byte(w, k) == src@[src_off + at + k]);
                assert(word_byte(or_w, k) == merged@[at + k]);
            }
        }
        j += 1;
    }
    true
}

/// Does the span of `src` that begins at `src_off` fit under `merged`?
fn span_fits(src: &[u8], src_off: usize, merged: &Vec<u8>, stride: Stride) -> (ok: bool)
    requires
        src_off + merged.len() <= src.len(),
    ensures
        ok == fits_under(src@.subrange(src_off as int, src_off + merged.len()), merged@),
{
    let len = merged.len();
    let layout = WordLayout::for_span(src_off, len, stride);
    let ghost window = src@.subrange(src_off as int, src_off + len);
    assert(forall|p: int| 0 <= p < len ==> window[p] == src@[src_off + p]);
    if !fits_bytes(src, src_off, merged, 0, layout.head) {
        proof {
            let p = choose|p: int| 0 <= p < layout.head && !byte_fits(#[trigger] src@[src_off + p], merged@[p]);
            assert(!byte_fits(window[p], merged@[p]));
        }
        return false;
    }
    if !fits_words(src, src_off, merged, layout.head, layout.words) {
        proof {
            let p = choose|p: int|
                layout.head <= p < layout.head + 8 * layout.words && !byte_fits(
                    #[trigger] src@[src_off + p],
                    merged@[p],
                );
            assert(!byte_fits(window[p], merged@[p]));
        }
        return false;
    }
    if !fits_bytes(src, src_off, merged, layout.head + 8 * layout.words, len) {
        proof {
            let p = choose|p: int|
                layout.head + 8 * layout.words <= p < len && !byte_fits(
                    #[trigger] src@[src_off + p],
                    merged@[p],
                );
            assert(!byte_fits(window[p], merged@[p]));
        }
        return false;
    }
    proof {
        assert forall|p: int| 0 <= p < window.len() implies byte_fits(
            #[trigger] window[p],
            merged@[p],
        ) by {
            assert(byte_fits(src@[src_off + p], merged@[p]));
        }
    }
    true
}

/// Merges one buffered chunk, walking it as `stride` says.
///
/// The chunk of every source lies at the front of its buffer and is as long
/// as `or_chunk`, which receives the OR of all of them.
pub fn perform_byte_merge_with(buffers: &Vec<Vec<u8>>, or_chunk: &mut Vec<u8>, stride: Stride)
    requires
        buffers.len() >= 1,
        forall|i: int| 0 <= i < buffers.len() ==> old(or_chunk).len() <= (#[trigger] buffers[i]).len(),
    ensures
        final(or_chunk)@ == overlay(
            windows(buffer_views(buffers@), 0, old(or_chunk).len() as int),
            old(or_chunk).len() as nat,
        ),
{
    let len = or_chunk.len();
    let ghost chunks = windows(buffer_views(buffers@), 0, len as int);
    copy_span(or_chunk, buffers[0].as_slice(), 0);
    proof {
        assert forall|p: int| 0 <= p < len implies or_chunk@[p] == or_at(chunks.take(1), p) by {
            lemma_or_at_take_next(chunks, 0, p);
            let b = chunks[0][p];
            assert(0u8 | b == b) by (bit_vector);
        }
    }
    let mut i: usize = 1;
    while i < buffers.len()
        invariant
            1 <= i <= buffers.len(),
            or_chunk.len() == len,
            chunks == windows(buffer_views(buffers@), 0, len as int),
            forall|k: int| 0 <= k < buffers.len() ==> len <= (#[trigger] buffers[k]).len(),
            forall|p: int| 0 <= p < len ==> or_chunk@[p] == or_at(chunks.take(i as int), p),
        decreases buffers.len() - i,
    {
        or_span(or_chunk, buffers[i].as_slice(), 0, stride);
        proof {
            assert forall|p: int| 0 <= p < len implies or_chunk@[p] == or_at(
                chunks.take(i + 1),
                p,
            ) by {
                lemma_or_at_take_next(chunks, i as int, p);
            }
        }
        i += 1;
    }
    proof {
        assert(chunks.take(buffers.len() as int) =~= chunks);
        assert(or_chunk@ =~= overlay(chunks, len as nat));
    }
}

/// Merges one buffered chunk word by word.
pub fn perform_byte_merge(buffers: &Vec<Vec<u8>>, or_chunk: &mut Vec<u8>)
    requires
        buffers.len() >= 1,
        forall|i: int| 0 <= i < buffers.len() ==> old(or_chunk).len() <= (#[trigger] buffers[i]).len(),
    ensures
        final(or_chunk)@ == overlay(
            windows(buffer_views(buffers@), 0, old(or_chunk).len() as int),
            old(or_chunk).len() as nat,
        ),
{
    perform_byte_merge_with(buffers, or_chunk, Stride::Words)
}

/// Merges the chunk `[offset, offset + chunk_size)` of every mapped file,
/// walking it as `stride` says.
pub fn perform_byte_merge_mmap_with(
    maps: &Vec<&[u8]>,
    or_chunk: &mut Vec<u8>,
    offset: usize,
    chunk_size: usize,
    stride: Stride,
)
    requires
        maps.len() >= 1,
        old(or_chunk).len() == chunk_size,
        forall|i: int| 0 <= i < maps.len() ==> offset + chunk_size <= (#[trigger] maps[i])@.len(),
    ensures
        final(or_chunk)@ == overlay(
            windows(slice_views(maps@), offset as int, chunk_size as int),
            chunk_size as nat,
        ),
{
    let ghost chunks = windows(slice_views(maps@), offset as int, chunk_size as int);
    copy_span(or_chunk, maps[0], offset);
    proof {
        assert forall|p: int| 0 <= p < chunk_size implies or_chunk@[p] == or_at(
            chunks.take(1),
            p,
        ) by {
            lemma_or_at_take_next(chunks, 0, p);
            let b = chunks[0][p];
            assert(0u8 | b == b) by (bit_vector);
        }
    }
    let mut i: usize = 1;
    while i < maps.len()
        invariant
            1 <= i <= maps.len(),
            or_chunk.len() == chunk_size,
            chunks == windows(slice_views(maps@), offset as int, chunk_size as int),
            forall|k: int| 0 <= k < maps.len() ==> offset + chunk_size <= (#[trigger] maps[k])@.len(),
            forall|p: int| 0 <= p < chunk_size ==> or_chunk@[p] == or_at(chunks.take(i as int), p),
        decreases maps.len() - i,
    {
        or_span(or_chunk, maps[i], offset, stride);
        proof {
            assert forall|p: int| 0 <= p < chunk_size implies or_chunk@[p] == or_at(
                chunks.take(i + 1),
                p,
            ) by {
                lemma_or_at_take_next(chunks, i as int, p);
            }
        }
        i += 1;
    }
    proof {
        assert(chunks.take(maps.len() as int) =~= chunks);
        assert(or_chunk@ =~= overlay(chunks, chunk_size as nat));
    }
}

/// Merges the chunk `[offset, offset + chunk_size)` of every mapped file word by word.
pub fn perform_byte_merge_mmap(
    maps: &Vec<&[u8]>,
    or_chunk: &mut Vec<u8>,
    offset: usize,
    chunk_size: usize,
)
    requires
        maps.len() >= 1,
        old(or_chunk).len() == chunk_size,
        forall|i: int| 0 <= i < maps.len() ==> offset + chunk_size <= (#[trigger] maps[i])@.len(),
    ensures
        final(or_chunk)@ == overlay(
            windows(slice_views(maps@), offset as int, chunk_size as int),
            chunk_size as nat,
        ),
{
    perform_byte_merge_mmap_with(maps, or_chunk, offset, chunk_size, Stride::Words)
}

/// The OR over the first `i + 1` chunks is the OR over the first `i`, ORed
/// with chunk `i`.
proof fn lemma_or_at_take_next(chunks: Seq<Seq<u8>>, i: int, p: int)
    requires
        0 <= i < chunks.len(),
    ensures
        or_at(chunks.take(i + 1), p) == or_at(chunks.take(i), p) | chunks[i][p],
{
    assert(chunks.take(i + 1).drop_last() =~= chunks.take(i));
    assert(chunks.take(i + 1).last() == chunks[i]);
}

/// Validates one buffered chunk against `or_chunk`, walking it as `stride` says.
///
/// Sources are looked at in order, up to and including the first whose
/// chunk does not fit under `or_chunk`. A source that was looked at loses
/// its completeness flag unless its chunk equals `or_chunk`.
pub fn validate_sanity_check_with(
    buffers: &Vec<Vec<u8>>,
    or_chunk: &Vec<u8>,
    is_complete: &mut Vec<bool>,
    chunk_size: usize,
    stride: Stride,
) -> (ok: bool)
    requires
        or_chunk.len() == chunk_size,
        old(is_complete).len() == buffers.len(),
        forall|i: int| 0 <= i < buffers.len() ==> chunk_size <= (#[trigger] buffers[i]).len(),
    ensures
        ok == all_fit(windows(buffer_views(buffers@), 0, chunk_size as int), or_chunk@),
        final(is_complete)@ == marked(
            old(is_complete)@,
            windows(buffer_views(buffers@), 0, chunk_size as int),
            or_chunk@,
        ),
{
    let ghost chunks = windows(buffer_views(buffers@), 0, chunk_size as int);
    let mut i: usize = 0;
    while i < buffers.len()
        invariant
            i <= buffers.len(),
            or_chunk.len() == chunk_size,
            is_complete.len() == buffers.len(),
            old(is_complete).len() == buffers.len(),
            chunks == windows(buffer_views(buffers@), 0, chunk_size as int),
            forall|k: int| 0 <= k < buffers.len() ==> chunk_size <= (#[trigger] buffers[k]).len(),
            examined(chunks, or_chunk@, i as int),
            forall|k: int| 0 <= k < i ==> #[trigger] is_complete@[k] == (old(is_complete)@[k] && chunks[k] == or_chunk@),
            forall|k: int| i <= k < buffers.len() ==> #[trigger] is_complete@[k] == old(is_complete)@[k],
        decreases buffers.len() - i,
    {
        let src = buffers[i].as_slice();
        assert(chunks[i as int] == src@.subrange(0, chunk_size as int));
        if !span_matches(src, 0, or_chunk) {
            is_complete.set(i, false);
            if !span_fits(src, 0, or_chunk, stride) {
                proof {
                    lemma_marked_at_misfit(old(is_complete)@, is_complete@, chunks, or_chunk@, i as int);
                }
                return false;
            }
        } else {
            proof {
                lemma_fits_under_itself(or_chunk@);
            }
        }
        i += 1;
    }
    proof {
        lemma_marked_at_end(old(is_complete)@, is_complete@, chunks, or_chunk@);
    }
    true
}

/// Validates one buffered chunk against `or_chunk` word by word.
pub fn validate_sanity_check(
    buffers: &Vec<Vec<u8>>,
    or_chunk: &Vec<u8>,
    is_complete: &mut Vec<bool>,
    chunk_size: usize,
) -> (ok: bool)
    requires
        or_chunk.len() == chunk_size,
        old(is_complete).len() == buffers.len(),
        forall|i: int| 0 <= i < buffers.len() ==> chunk_size <= (#[trigger] buffers[i]).len(),
    ensures
        ok == all_fit(windows(buffer_views(buffers@), 0, chunk_size as int), or_chunk@),
        final(is_complete)@ == marked(
            old(is_complete)@,
            windows(buffer_views(buffers@), 0, chunk_size as int),
            or_chunk@,
        ),
{
    validate_sanity_check_with(buffers, or_chunk, is_complete, chunk_size, Stride::Words)
}

/// Validates the chunk `[offset, offset + chunk_size)` of every mapped file
/// against `or_chunk`, walking it as `stride` says.
pub fn validate_sanity_check_mmap_with(
    maps: &Vec<&[u8]>,
    or_chunk: &Vec<u8>,
    is_complete: &mut Vec<bool>,
    offset: usize,
    chunk_size: usize,
    stride: Stride,
) -> (ok: bool)
    requires
        or_chunk.len() == chunk_size,
        old(is_complete).len() == maps.len(),
        forall|i: int| 0 <= i < maps.len() ==> offset + chunk_size <= (#[trigger] maps[i])@.len(),
    ensures
        ok == all_fit(windows(slice_views(maps@), offset as int, chunk_size as int), or_chunk@),
        final(is_complete)@ == marked(
            old(is_complete)@,
            windows(slice_views(maps@), offset as int, chunk_size as int),
            or_chunk@,
        ),
{
    let ghost chunks = windows(slice_views(maps@), offset as int, chunk_size as int);
    let mut i: usize = 0;
    while i < maps.len()
        invariant
            i <= maps.len(),
            or_chunk.len() == chunk_size,
            is_complete.len() == maps.len(),
            old(is_complete).len() == maps.len(),
            chunks == windows(slice_views(maps@), offset as int, chunk_size as int),
            forall|k: int| 0 <= k < maps.len() ==> offset + chunk_size <= (#[trigger] maps[k])@.len(),
            examined(chunks, or_chunk@, i as int),
            forall|k: int| 0 <= k < i ==> #[trigger] is_complete@[k] == (old(is_complete)@[k] && chunks[k] == or_chunk@),
            forall|k: int| i <= k < maps.len() ==> #[trigger] is_complete@[k] == old(is_complete)@[k],
        decreases maps.len() - i,
    {
        let src = maps[i];
        assert(chunks[i as int] == src@.subrange(offset as int, offset + chunk_size));
        if !span_matches(src, offset, or_chunk) {
            is_complete.set(i, false);
            if !span_fits(src, offset, or_chunk, stride) {
                proof {
                    lemma_marked_at_misfit(old(is_complete)@, is_complete@, chunks, or_chunk@, i as int);
                }
                return false;
            }
        } else {
            proof {
                lemma_fits_under_itself(or_chunk@);
            }
        }
        i += 1;
    }
    proof {
        lemma_marked_at_end(old(is_complete)@, is_complete@, chunks, or_chunk@);
    }
    true
}

/// Validates the chunk `[offset, offset + chunk_size)` of every mapped file
/// against `or_chunk` word by word.
pub fn validate_sanity_check_mmap(
    maps: &Vec<&[u8]>,
    or_chunk: &Vec<u8>,
    is_complete: &mut Vec<bool>,
    offset: usize,
    chunk_size: usize,
) -> (ok: bool)
    requires
        or_chunk.len() == chunk_size,
        old(is_complete).len() == maps.len(),
        forall|i: int| 0 <= i < maps.len() ==> offset + chunk_size <= (#[trigger] maps[i])@.len(),
    ensures
        ok == all_fit(windows(slice_views(maps@), offset as int, chunk_size as int), or_chunk@),
        final(is_complete)@ == marked(
            old(is_complete)@,
            windows(slice_views(maps@), offset as int, chunk_size as int),
            or_chunk@,
        ),
{
    validate_sanity_check_mmap_with(maps, or_chunk, is_complete, offset, chunk_size, Stride::Words)
}

/// Every byte sequence fits under itself.
pub proof fn lemma_fits_under_itself(bytes: Seq<u8>)
    ensures
        fits_under(bytes, bytes),
{
}

proof fn lemma_marked_at_misfit(
    before: Seq<bool>,
    after: Seq<bool>,
    chunks: Seq<Seq<u8>>,
    merged: Seq<u8>,
    at: int,
)
    requires
        0 <= at < chunks.len(),
        before.len() == chunks.len(),
        after.len() == chunks.len(),
        examined(chunks, merged, at),
        !fits_under(chunks[at], merged),
        forall|k: int| 0 <= k < at ==> #[trigger] after[k] == (before[k] && chunks[k] == merged),
        !after[at],
        forall|k: int| at < k < chunks.len() ==> #[trigger] after[k] == before[k],
    ensures
        !all_fit(chunks, merged),
        after == marked(before, chunks, merged),
{
    assert forall|k: int| 0 <= k < chunks.len() implies after[k] == marked(before, chunks, merged)[k] by {
        if k <= at {
            assert forall|j: int| 0 <= j < k implies fits_under(#[trigger] chunks[j], merged) by {
            }
            assert(examined(chunks, merged, k));
            if k == at && chunks[at] == merged {
                lemma_fits_under_itself(merged);
            }
        } else {
            assert(!examined(chunks, merged, k));
        }
    }
    assert(after =~= marked(before, chunks, merged));
}

proof fn lemma_marked_at_end(
    before: Seq<bool>,
    after: Seq<bool>,
    chunks: Seq<Seq<u8>>,
    merged: Seq<u8>,
)
    requires
        before.len() == chunks.len(),
        after.len() == chunks.len(),
        examined(chunks, merged, chunks.len() as int),
        forall|k: int| 0 <= k < chunks.len() ==> #[trigger] after[k] == (before[k] && chunks[k] == merged),
    ensures
        all_fit(chunks, merged),
        after == marked(before, chunks, merged),
{
    assert forall|k: int| 0 <= k < chunks.len() implies after[k] == marked(before, chunks, merged)[k] by {
        assert forall|j: int| 0 <= j < k implies fits_under(#[trigger] chunks[j], merged) by {
        }
        assert(examined(chunks, merged, k));
    }
    assert(after =~= marked(before, chunks, merged));
}

} // verus!
