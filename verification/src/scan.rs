//! The chunked scan over all sources of a group.
//!
//! A [`MergeScan`] is fed one chunk of every source at a time. It hands back
//! the merged chunk, remembers which sources are still complete, and stops
//! at the first chunk that breaks the sanity rule. The caller reads the
//! chunks and writes the merged bytes; the scan decides.

use vstd::prelude::*;
use crate::chunk::{all_fit, buffer_views, examined, marked, perform_byte_merge_mmap_with,
    perform_byte_merge_with, slice_views, validate_sanity_check_mmap_with,
    validate_sanity_check_with, Stride, BUFFER_SIZE};
use crate::overlay::{completeness, extend_each, fits_under, lemma_or_at_windows,
    lemma_overlay_extend_each, overlay, same_length, sane, windows};

verus! {

/// Why a scan could not be carried out.
#[derive(Clone, Copy, Debug, PartialEq, Eq, Structural)]
pub enum MergeError {
    /// The source at `index` is not as long as the first one.
    SizeMismatch { index: usize },
    /// The mapping at `index` ends before the chunk that was asked for.
    MappingBounds { index: usize },
}

/// What a scan over a whole group found.
#[derive(Debug)]
pub enum MergeOutcome {
    /// There are no sources, or they are empty.
    NothingToMerge,
    /// Two sources hold different data bytes at one offset.
    Conflict,
    /// The merged bytes, and for each source whether it already equals them.
    Merged { bytes: Vec<u8>, is_complete: Vec<bool> },
}

/// A scan's result as a mathematical value.
pub enum ScanResult {
    NothingToMerge,
    SizeMismatch(int),
    Conflict,
    Merged(Seq<u8>, Seq<bool>),
}

/// Index of the first source from `from` on that is not as long as the
/// first source; the number of sources if there is none.
pub open spec fn first_other_size(sources: Seq<Seq<u8>>, from: int) -> int
    decreases sources.len() - from,
{
    if from < 0 || from >= sources.len() {
        sources.len() as int
    } else if sources[from].len() != sources[0].len() {
        from
    } else {
        first_other_size(sources, from + 1)
    }
}

/// What a scan over `sources` has to find.
pub open spec fn scan_of(sources: Seq<Seq<u8>>) -> ScanResult {
    if sources.len() == 0 || sources[0].len() == 0 {
        ScanResult::NothingToMerge
    } else if first_other_size(sources, 1) < sources.len() {
        ScanResult::SizeMismatch(first_other_size(sources, 1))
    } else if !sane(sources, sources[0].len()) {
        ScanResult::Conflict
    } else {
        ScanResult::Merged(
            overlay(sources, sources[0].len()),
            completeness(sources, sources[0].len()),
        )
    }
}

/// The mathematical value of what a scan returned.
pub open spec fn result_of(returned: Result<MergeOutcome, MergeError>) -> ScanResult {
    match returned {
        Ok(MergeOutcome::NothingToMerge) => ScanResult::NothingToMerge,
        Ok(MergeOutcome::Conflict) => ScanResult::Conflict,
        Ok(MergeOutcome::Merged { bytes, is_complete }) => ScanResult::Merged(
            bytes@,
            is_complete@,
        ),
        Err(MergeError::SizeMismatch { index }) => ScanResult::SizeMismatch(index as int),
        Err(MergeError::MappingBounds { index }) => arbitrary(),
    }
}

/// Length of the next chunk of a scan over `total` bytes of which `done` are behind it.
pub open spec fn next_len(total: nat, done: nat) -> nat {
    if total - done < BUFFER_SIZE {
        (total - done) as nat
    } else {
        BUFFER_SIZE as nat
    }
}

/// The state of a scan: how far it has come and what it has found.
pub struct MergeScan {
    size: u64,
    processed: u64,
    is_complete: Vec<bool>,
    conflict: bool,
    seen: Ghost<Seq<Seq<u8>>>,
}

impl MergeScan {
    /// Number of sources.
    pub closed spec fn sources(&self) -> nat {
        self.is_complete@.len()
    }

    /// Length of every source.
    pub closed spec fn total(&self) -> nat {
        self.size as nat
    }

    /// Bytes of every source that the scan has taken in.
    pub closed spec fn done(&self) -> nat {
        self.processed as nat
    }

    /// What the scan has taken in of each source so far.
    pub closed spec fn absorbed(&self) -> Seq<Seq<u8>> {
        self.seen@
    }

    /// Has the scan met a chunk that breaks the sanity rule?
    pub closed spec fn conflicted(&self) -> bool {
        self.conflict
    }

    /// The completeness flags as they stand.
    pub closed spec fn flags(&self) -> Seq<bool> {
        self.is_complete@
    }

    /// The scan is consistent: while no conflict was met, what it took in is
    /// sane and the flags say which sources equal the merged bytes so far.
    pub closed spec fn wf(&self) -> bool {
        &&& self.processed <= self.size
        &&& self.seen@.len() == self.is_complete@.len()
        &&& same_length(self.seen@, self.processed as nat)
        &&& !self.conflict ==> sane(self.seen@, self.processed as nat) && self.is_complete@
            == completeness(self.seen@, self.processed as nat)
    }

    /// What a consistent scan knows of itself.
    pub proof fn lemma_wf(&self)
        requires
            self.wf(),
        ensures
            self.done() <= self.total(),
            self.absorbed().len() == self.sources(),
            self.flags().len() == self.sources(),
            same_length(self.absorbed(), self.done()),
            !self.conflicted() ==> sane(self.absorbed(), self.done()) && self.flags()
                == completeness(self.absorbed(), self.done()),
    {
    }

    /// Begins a scan over `count` sources of `size` bytes each.
    pub fn new(count: usize, size: u64) -> (scan: MergeScan)
        ensures
            scan.wf(),
            scan.sources() == count,
            scan.total() == size,
            scan.done() == 0,
            !scan.conflicted(),
            scan.absorbed() == Seq::new(count as nat, |i: int| Seq::<u8>::empty()),
    {
        let is_complete: Vec<bool> = vec![true; count];
        let ghost seen = Seq::new(count as nat, |i: int| Seq::<u8>::empty());
        proof {
            assert forall|i: int| 0 <= i < count implies #[trigger] seen[i] == overlay(seen, 0) by {
                assert(seen[i] =~= overlay(seen, 0));
            }
            assert(is_complete@ =~= completeness(seen, 0));
        }
        MergeScan { size, processed: 0, is_complete, conflict: false, seen: Ghost(seen) }
    }

    /// Bytes of every source that the scan has taken in.
    pub fn processed(&self) -> (n: u64)
        ensures
            n == self.done(),
    {
        self.processed
    }

    /// Length of every source.
    pub fn size(&self) -> (n: u64)
        ensures
            n == self.total(),
    {
        self.size
    }

    /// Has the scan met a chunk that breaks the sanity rule?
    pub fn has_conflict(&self) -> (c: bool)
        ensures
            c == self.conflicted(),
    {
        self.conflict
    }

    /// Is there nothing left to feed: all bytes taken in, or a conflict met?
    pub fn is_finished(&self) -> (f: bool)
        ensures
            f == (self.conflicted() || self.done() >= self.total()),
    {
        self.conflict || self.processed >= self.size
    }

    /// Length of the chunk that the scan wants next.
    pub fn chunk_len(&self) -> (len: usize)
        requires
            self.wf(),
        ensures
            len == next_len(self.total(), self.done()),
    {
        let left: u64 = self.size - self.processed;
        if left < BUFFER_SIZE as u64 {
            left as usize
        } else {
            BUFFER_SIZE
        }
    }

    /// The completeness flags as they stand.
    pub fn is_complete(&self) -> (flags: &Vec<bool>)
        ensures
            flags@ == self.flags(),
    {
        &self.is_complete
    }

    /// Ends the scan and hands out the completeness flags.
    pub fn into_flags(self) -> (flags: Vec<bool>)
        ensures
            flags@ == self.flags(),
    {
        self.is_complete
    }

    /// Takes in the next chunk of every source from buffers.
    ///
    /// Each buffer holds its source's chunk at its front. `or_chunk`, as long
    /// as the chunk, receives the merged bytes. The result says whether the
    /// sources are still sane with this chunk; if not, the scan keeps what
    /// it had and is marked as conflicted.
    pub fn absorb(&mut self, buffers: &Vec<Vec<u8>>, or_chunk: &mut Vec<u8>, stride: Stride) -> (ok:
        bool)
        requires
            old(self).wf(),
            !old(self).conflicted(),
            buffers.len() == old(self).sources(),
            buffers.len() >= 1,
            old(or_chunk).len() == next_len(old(self).total(), old(self).done()),
            forall|i: int|
                0 <= i < buffers.len() ==> old(or_chunk).len() <= (#[trigger] buffers[i]).len(),
        ensures
            final(self).wf(),
            final(self).sources() == old(self).sources(),
            final(self).total() == old(self).total(),
            final(or_chunk)@ == overlay(
                windows(buffer_views(buffers@), 0, old(or_chunk).len() as int),
                old(or_chunk).len() as nat,
            ),
            ok == sane(
                extend_each(
                    old(self).absorbed(),
                    windows(buffer_views(buffers@), 0, old(or_chunk).len() as int),
                ),
                old(self).done() + old(or_chunk).len() as nat,
            ),
            ok == !final(self).conflicted(),
            ok ==> final(self).done() == old(self).done() + old(or_chunk).len() && final(self).absorbed() == extend_each(
                old(self).absorbed(),
                windows(buffer_views(buffers@), 0, old(or_chunk).len() as int),
            ),
            !ok ==> final(self).done() == old(self).done() && final(self).absorbed() == old(self).absorbed(),
    {
        let len = or_chunk.len();
        let ghost chunks = windows(buffer_views(buffers@), 0, len as int);
        perform_byte_merge_with(buffers, or_chunk, stride);
        let ok = validate_sanity_check_with(buffers, or_chunk, &mut self.is_complete, len, stride);
        proof {
            lemma_extend_judgement(
                self.seen@,
                chunks,
                self.processed as nat,
                len as nat,
                old(self).is_complete@,
            );
        }
        if ok {
            self.processed = self.processed + len as u64;
            self.seen = Ghost(extend_each(self.seen@, chunks));
        } else {
            self.conflict = true;
        }
        ok
    }

    /// Takes in the next chunk of every source from mapped files.
    ///
    /// The chunk of every source begins at the offset that the scan has
    /// reached. A mapping that ends before the end of the chunk is reported
    /// and leaves the scan as it was.
    pub fn absorb_mapped(&mut self, maps: &Vec<&[u8]>, or_chunk: &mut Vec<u8>, stride: Stride) -> (r:
        Result<bool, MergeError>)
        requires
            old(self).wf(),
            !old(self).conflicted(),
            maps.len() == old(self).sources(),
            maps.len() >= 1,
            old(or_chunk).len() == next_len(old(self).total(), old(self).done()),
        ensures
            final(self).wf(),
            final(self).sources() == old(self).sources(),
            final(self).total() == old(self).total(),
            match r {
                Err(MergeError::MappingBounds { index }) => {
                    &&& index < maps.len()
                    &&& maps[index as int]@.len() < old(self).done() + old(or_chunk).len()
                    &&& forall|i: int|
                        0 <= i < index ==> old(self).done() + old(or_chunk).len() <= (
                        #[trigger] maps[i])@.len()
                    &&& *final(self) == *old(self)
                    &&& final(or_chunk)@ == old(or_chunk)@
                },
                Err(MergeError::SizeMismatch { .. }) => false,
                Ok(ok) => {
                    let chunks = windows(
                        slice_views(maps@),
                        old(self).done() as int,
                        old(or_chunk).len() as int,
                    );
                    &&& forall|i: int|
                        0 <= i < maps.len() ==> old(self).done() + old(or_chunk).len() <= (
                        #[trigger] maps[i])@.len()
                    &&& final(or_chunk)@ == overlay(chunks, old(or_chunk).len() as nat)
                    &&& ok == sane(
                        extend_each(old(self).absorbed(), chunks),
                        old(self).done() + old(or_chunk).len() as nat,
                    )
                    &&& ok == !final(self).conflicted()
                    &&& ok ==> final(self).done() == old(self).done() + old(or_chunk).len()
                        && final(self).absorbed() == extend_each(old(self).absorbed(), chunks)
                    &&& !ok ==> final(self).done() == old(self).done() && final(self).absorbed()
                        == old(self).absorbed()
                },
            },
    {
        let len = or_chunk.len();
        let end: u64 = self.processed + len as u64;
        let mut i: usize = 0;
        while i < maps.len()
            invariant
                i <= maps.len(),
                *self == *old(self),
                or_chunk@ == old(or_chunk)@,
                len == or_chunk.len(),
                self.wf(),
                end == self.processed + len,
                forall|k: int| 0 <= k < i ==> end <= (#[trigger] maps[k])@.len(),
            decreases maps.len() - i,
        {
            if (maps[i].len() as u64) < end {
                return Err(MergeError::MappingBounds { index: i });
            }
            i += 1;
        }
        let first_len: usize = maps[0].len();
        assert(end <= first_len);
        let offset: usize = self.processed as usize;
        let ghost chunks = windows(slice_views(maps@), offset as int, len as int);
        perform_byte_merge_mmap_with(maps, or_chunk, offset, len, stride);
        let ok = validate_sanity_check_mmap_with(
            maps,
            or_chunk,
            &mut self.is_complete,
            offset,
            len,
            stride,
        );
        proof {
            lemma_extend_judgement(
                self.seen@,
                chunks,
                self.processed as nat,
                len as nat,
                old(self).is_complete@,
            );
        }
        if ok {
            self.processed = end;
            self.seen = Ghost(extend_each(self.seen@, chunks));
        } else {
            self.conflict = true;
        }
        Ok(ok)
    }
}

/// Two sequences that were cut at the same place are equal exactly when
/// their parts are.
proof fn lemma_concat_equal(a: Seq<u8>, b: Seq<u8>, c: Seq<u8>, d: Seq<u8>)
    requires
        a.len() == c.len(),
        b.len() == d.len(),
    ensures
        (a + b == c + d) <==> (a == c && b == d),
{
    if a + b == c + d {
        assert forall|p: int| 0 <= p < a.len() implies a[p] == c[p] by {
            assert((a + b)[p] == (c + d)[p]);
        }
        assert forall|p: int| 0 <= p < b.len() implies b[p] == d[p] by {
            assert((a + b)[a.len() + p] == (c + d)[a.len() + p]);
        }
        assert(a =~= c);
        assert(b =~= d);
    }
}

/// A sequence that was cut fits under another cut at the same place exactly
/// when both parts fit.
proof fn lemma_concat_fits(a: Seq<u8>, b: Seq<u8>, c: Seq<u8>, d: Seq<u8>)
    requires
        a.len() == c.len(),
        b.len() == d.len(),
    ensures
        fits_under(a + b, c + d) <==> (fits_under(a, c) && fits_under(b, d)),
{
    let ab = a + b;
    let cd = c + d;
    if fits_under(ab, cd) {
        assert forall|p: int| 0 <= p < a.len() implies crate::words::byte_fits(
            #[trigger] a[p],
            c[p],
        ) by {
            assert(ab[p] == a[p] && cd[p] == c[p]);
        }
        assert forall|p: int| 0 <= p < b.len() implies crate::words::byte_fits(
            #[trigger] b[p],
            d[p],
        ) by {
            assert(ab[a.len() + p] == b[p] && cd[a.len() + p] == d[p]);
        }
    }
    if fits_under(a, c) && fits_under(b, d) {
        assert forall|p: int| 0 <= p < ab.len() implies crate::words::byte_fits(
            #[trigger] ab[p],
            cd[p],
        ) by {
            if p < a.len() {
                assert(ab[p] == a[p] && cd[p] == c[p]);
            } else {
                assert(ab[p] == b[p - a.len()] && cd[p] == d[p - a.len()]);
            }
        }
    }
}

/// How the judgement on sources changes when each is extended by one chunk:
/// they stay sane exactly when they were and every chunk fits under the
/// merged chunk, and then a source is complete exactly when it was and its
/// chunk equals the merged chunk.
proof fn lemma_extend_judgement(
    heads: Seq<Seq<u8>>,
    tails: Seq<Seq<u8>>,
    seam: nat,
    len: nat,
    flags: Seq<bool>,
)
    requires
        heads.len() == tails.len(),
        same_length(heads, seam),
        same_length(tails, len),
        sane(heads, seam),
        flags == completeness(heads, seam),
    ensures
        same_length(extend_each(heads, tails), seam + len),
        sane(extend_each(heads, tails), seam + len) == all_fit(tails, overlay(tails, len)),
        all_fit(tails, overlay(tails, len)) ==> marked(flags, tails, overlay(tails, len))
            == completeness(extend_each(heads, tails), seam + len),
{
    let joined = extend_each(heads, tails);
    let oh = overlay(heads, seam);
    let ot = overlay(tails, len);
    lemma_overlay_extend_each(heads, tails, seam, len);
    assert(overlay(joined, seam + len) == oh + ot);
    assert forall|i: int| 0 <= i < heads.len() implies fits_under(
        #[trigger] joined[i],
        oh + ot,
    ) == fits_under(tails[i], ot) by {
        lemma_concat_fits(heads[i], tails[i], oh, ot);
        assert(fits_under(heads[i], oh));
    }
    if sane(joined, seam + len) {
        assert forall|i: int| 0 <= i < tails.len() implies fits_under(#[trigger] tails[i], ot) by {
            assert(fits_under(joined[i], oh + ot));
        }
    }
    if all_fit(tails, ot) {
        assert forall|i: int| 0 <= i < joined.len() implies fits_under(
            #[trigger] joined[i],
            overlay(joined, seam + len),
        ) by {
            assert(fits_under(tails[i], ot));
        }
        assert forall|i: int| 0 <= i < flags.len() implies marked(flags, tails, ot)[i]
            == completeness(joined, seam + len)[i] by {
            assert(examined(tails, ot, i));
            lemma_concat_equal(heads[i], tails[i], oh, ot);
        }
        assert(marked(flags, tails, ot) =~= completeness(joined, seam + len));
    }
}

/// Sources that are sane stay sane when cut off at `upto`.
proof fn lemma_sane_prefix(sources: Seq<Seq<u8>>, size: nat, upto: nat)
    requires
        same_length(sources, size),
        upto <= size,
        sane(sources, size),
    ensures
        sane(windows(sources, 0, upto as int), upto),
{
    let cut = windows(sources, 0, upto as int);
    assert forall|i: int| 0 <= i < cut.len() implies fits_under(
        #[trigger] cut[i],
        overlay(cut, upto),
    ) by {
        assert(fits_under(sources[i], overlay(sources, size)));
        assert forall|p: int| 0 <= p < cut[i].len() implies crate::words::byte_fits(
            #[trigger] cut[i][p],
            overlay(cut, upto)[p],
        ) by {
            lemma_or_at_windows(sources, 0, upto as int, p);
            assert(crate::words::byte_fits(sources[i][p], overlay(sources, size)[p]));
        }
    }
}

/// Where no source from `from` on differs in length from the first, none at all does.
proof fn lemma_first_other_size(sources: Seq<Seq<u8>>, from: int)
    requires
        0 <= from <= sources.len(),
    ensures
        from <= first_other_size(sources, from) <= sources.len(),
        forall|i: int|
            from <= i < first_other_size(sources, from) ==> (#[trigger] sources[i]).len()
                == sources[0].len(),
        first_other_size(sources, from) < sources.len() ==> sources[first_other_size(
            sources,
            from,
        )].len() != sources[0].len(),
    decreases sources.len() - from,
{
    if from < sources.len() && sources[from].len() == sources[0].len() {
        lemma_first_other_size(sources, from + 1);
    }
}

/// Copies `len` bytes of `src`, from `offset` on, to the front of `buffer`.
fn fill_buffer(buffer: &mut Vec<u8>, src: &Vec<u8>, offset: usize, len: usize)
    requires
        len <= old(buffer).len(),
        offset + len <= src.len(),
    ensures
        final(buffer).len() == old(buffer).len(),
        final(buffer)@.subrange(0, len as int) == src@.subrange(offset as int, offset + len),
{
    let mut p: usize = 0;
    while p < len
        invariant
            p <= len,
            len <= buffer.len(),
            buffer.len() == old(buffer).len(),
            offset + len <= src.len(),
            forall|q: int| 0 <= q < p ==> buffer@[q] == src@[offset + q],
        decreases len - p,
    {
        buffer.set(p, src[offset + p]);
        p += 1;
    }
    assert(buffer@.subrange(0, len as int) =~= src@.subrange(offset as int, offset + len));
}

/// Scans a whole group that is held in memory.
///
/// The scan runs chunk by chunk, through buffers or, with `use_mmap`, on
/// the sources in place. What it finds is a function of the sources alone:
/// it does not depend on `use_mmap`. Empty input is nothing to merge; a
/// source of another length than the first is an error that names the first
/// such source; sources that break the sanity rule are a conflict; else the
/// result holds the merged bytes and the completeness flags.
pub fn check_sanity_and_completes(sources: &Vec<Vec<u8>>, use_mmap: bool) -> (r: Result<
    MergeOutcome,
    MergeError,
>)
    ensures
        !(r matches Err(MergeError::MappingBounds { .. })),
        result_of(r) == scan_of(buffer_views(sources@)),
{
    let ghost views = buffer_views(sources@);
    if sources.len() == 0 {
        return Ok(MergeOutcome::NothingToMerge);
    }
    let size: usize = sources[0].len();
    if size == 0 {
        return Ok(MergeOutcome::NothingToMerge);
    }
    let mut i: usize = 1;
    while i < sources.len()
        invariant
            1 <= i <= sources.len(),
            size == sources[0].len(),
            size > 0,
            views == buffer_views(sources@),
            first_other_size(views, 1) == first_other_size(views, i as int),
        decreases sources.len() - i,
    {
        assert(views[i as int] == sources[i as int]@);
        assert(views[0] == sources[0]@);
        if sources[i].len() != size {
            assert(first_other_size(views, i as int) == i);
            return Err(MergeError::SizeMismatch { index: i });
        }
        assert(first_other_size(views, i as int) == first_other_size(views, i + 1));
        i += 1;
    }
    proof {
        lemma_first_other_size(views, 1);
        assert(same_length(views, size as nat)) by {
            assert forall|k: int| 0 <= k < views.len() implies (#[trigger] views[k]).len()
                == size by {
                if k >= 1 {
                    assert(views[k].len() == views[0].len());
                }
            }
        }
    }
    if use_mmap {
        scan_in_place(sources, size)
    } else {
        scan_through_buffers(sources, size)
    }
}

/// The buffered scan: every chunk is first copied into a buffer of its source.
fn scan_through_buffers(sources: &Vec<Vec<u8>>, size: usize) -> (r: Result<MergeOutcome, MergeError>)
    requires
        sources.len() >= 1,
        size > 0,
        same_length(buffer_views(sources@), size as nat),
    ensures
        r is Ok,
        !(r matches Ok(MergeOutcome::NothingToMerge)),
        r matches Ok(MergeOutcome::Conflict) ==> !sane(buffer_views(sources@), size as nat),
        r matches Ok(MergeOutcome::Merged { bytes, is_complete }) ==> sane(
            buffer_views(sources@),
            size as nat,
        ) && bytes@ == overlay(buffer_views(sources@), size as nat) && is_complete@
            == completeness(buffer_views(sources@), size as nat),
{
    let ghost views = buffer_views(sources@);
    let count = sources.len();
    let mut buffers: Vec<Vec<u8>> = Vec::new();
    let mut b: usize = 0;
    while b < count
        invariant
            b <= count,
            buffers.len() == b,
            forall|k: int| 0 <= k < b ==> (#[trigger] buffers[k]).len() == BUFFER_SIZE,
        decreases count - b,
    {
        let buffer: Vec<u8> = vec![0u8; BUFFER_SIZE];
        buffers.push(buffer);
        b += 1;
    }
    let mut or_chunk: Vec<u8> = vec![0u8; BUFFER_SIZE];
    let mut merged: Vec<u8> = Vec::new();
    let mut scan = MergeScan::new(count, size as u64);
    proof {
        assert forall|k: int| 0 <= k < count implies #[trigger] scan.seen@[k] == windows(
            views,
            0,
            0,
        )[k] by {
            assert(views[k].subrange(0, 0) =~= Seq::<u8>::empty());
        }
        assert(scan.seen@ =~= windows(views, 0, 0));
    }
    assert(merged@ =~= overlay(scan.seen@, 0));
    while scan.processed < scan.size
        invariant
            scan.wf(),
            !scan.conflict,
            scan.size == size,
            count == sources.len(),
            count >= 1,
            scan.is_complete.len() == count,
            views == buffer_views(sources@),
            same_length(views, size as nat),
            buffers.len() == count,
            forall|k: int| 0 <= k < count ==> (#[trigger] buffers[k]).len() == BUFFER_SIZE,
            or_chunk.len() <= BUFFER_SIZE,
            scan.seen@ == windows(views, 0, scan.processed as int),
            merged@ == overlay(scan.seen@, scan.processed as nat),
        decreases scan.size - scan.processed,
    {
        let len = scan.chunk_len();
        let offset: usize = scan.processed as usize;
        or_chunk.truncate(len);
        or_chunk.resize(len, 0u8);
        let mut k: usize = 0;
        while k < count
            invariant
                k <= count,
                count == sources.len(),
                buffers.len() == count,
                len <= BUFFER_SIZE,
                offset + len <= size,
                views == buffer_views(sources@),
                same_length(views, size as nat),
                forall|j: int| 0 <= j < count ==> (#[trigger] buffers[j]).len() == BUFFER_SIZE,
                forall|j: int|
                    0 <= j < k ==> (#[trigger] buffers[j])@.subrange(0, len as int)
                        == views[j].subrange(offset as int, offset + len),
            decreases count - k,
        {
            assert(views[k as int].len() == size);
            let mut buffer: Vec<u8> = Vec::new();
            core::mem::swap(&mut buffer, &mut buffers[k]);
            fill_buffer(&mut buffer, &sources[k], offset, len);
            core::mem::swap(&mut buffer, &mut buffers[k]);
            k += 1;
        }
        let ghost chunks = windows(buffer_views(buffers@), 0, len as int);
        proof {
            assert(chunks =~= windows(views, offset as int, len as int));
            lemma_cut_further(views, size as nat, offset as nat, len as nat);
        }
        let ok = scan.absorb(&buffers, &mut or_chunk, Stride::Words);
        if !ok {
            proof {
                if sane(views, size as nat) {
                    lemma_sane_prefix(views, size as nat, (offset + len) as nat);
                }
            }
            return Ok(MergeOutcome::Conflict);
        }
        proof {
            assert(same_length(scan.seen@, scan.processed as nat));
            lemma_overlay_extend_each(
                windows(views, 0, offset as int),
                chunks,
                offset as nat,
                len as nat,
            );
        }
        let mut p: usize = 0;
        let ghost before = merged@;
        while p < len
            invariant
                p <= len,
                len == or_chunk.len(),
                merged@ == before + or_chunk@.subrange(0, p as int),
            decreases len - p,
        {
            merged.push(or_chunk[p]);
            proof {
                assert(or_chunk@.subrange(0, p + 1) =~= or_chunk@.subrange(0, p as int).push(
                    or_chunk@[p as int],
                ));
                assert(before + or_chunk@.subrange(0, p + 1) =~= (before + or_chunk@.subrange(
                    0,
                    p as int,
                )).push(or_chunk@[p as int]));
            }
            p += 1;
        }
        assert(or_chunk@.subrange(0, len as int) =~= or_chunk@);
    }
    proof {
        assert(scan.seen@ =~= views) by {
            assert forall|k: int| 0 <= k < views.len() implies #[trigger] scan.seen@[k]
                == views[k] by {
                assert(views[k].len() == size);
                assert(views[k].subrange(0, size as int) =~= views[k]);
            }
        }
    }
    let flags = scan.into_flags();
    Ok(MergeOutcome::Merged { bytes: merged, is_complete: flags })
}

/// The scan on the sources in place, as on mapped files.
fn scan_in_place(sources: &Vec<Vec<u8>>, size: usize) -> (r: Result<MergeOutcome, MergeError>)
    requires
        sources.len() >= 1,
        size > 0,
        same_length(buffer_views(sources@), size as nat),
    ensures
        r is Ok,
        !(r matches Ok(MergeOutcome::NothingToMerge)),
        r matches Ok(MergeOutcome::Conflict) ==> !sane(buffer_views(sources@), size as nat),
        r matches Ok(MergeOutcome::Merged { bytes, is_complete }) ==> sane(
            buffer_views(sources@),
            size as nat,
        ) && bytes@ == overlay(buffer_views(sources@), size as nat) && is_complete@
            == completeness(buffer_views(sources@), size as nat),
{
    let ghost views = buffer_views(sources@);
    let count = sources.len();
    let mut maps: Vec<&[u8]> = Vec::new();
    let mut b: usize = 0;
    while b < count
        invariant
            b <= count,
            count == sources.len(),
            maps.len() == b,
            forall|k: int| 0 <= k < b ==> (#[trigger] maps[k])@ == sources[k]@,
        decreases count - b,
    {
        maps.push(sources[b].as_slice());
        b += 1;
    }
    assert(slice_views(maps@) =~= views);
    let mut or_chunk: Vec<u8> = vec![0u8; BUFFER_SIZE];
    let mut merged: Vec<u8> = Vec::new();
    let mut scan = MergeScan::new(count, size as u64);
    proof {
        assert forall|k: int| 0 <= k < count implies #[trigger] scan.seen@[k] == windows(
            views,
            0,
            0,
        )[k] by {
            assert(views[k].subrange(0, 0) =~= Seq::<u8>::empty());
        }
        assert(scan.seen@ =~= windows(views, 0, 0));
    }
    assert(merged@ =~= overlay(scan.seen@, 0));
    while scan.processed < scan.size
        invariant
            scan.wf(),
            !scan.conflict,
            scan.size == size,
            count == sources.len(),
            count >= 1,
            maps.len() == count,
            scan.is_complete.len() == count,
            views == buffer_views(sources@),
            slice_views(maps@) == views,
            same_length(views, size as nat),
            or_chunk.len() <= BUFFER_SIZE,
            scan.seen@ == windows(views, 0, scan.processed as int),
            merged@ == overlay(scan.seen@, scan.processed as nat),
        decreases scan.size - scan.processed,
    {
        let len = scan.chunk_len();
        let offset: usize = scan.processed as usize;
        or_chunk.truncate(len);
        or_chunk.resize(len, 0u8);
        let ghost chunks = windows(views, offset as int, len as int);
        proof {
            lemma_cut_further(views, size as nat, offset as nat, len as nat);
        }
        let ok = match scan.absorb_mapped(&maps, &mut or_chunk, Stride::Words) {
            Ok(ok) => ok,
            Err(e) => {
                proof {
                    let index = e->MappingBounds_index;
                    assert(maps[index as int]@ == views[index as int]);
                    assert(views[index as int].len() == size);
                }
                return Err(e);
            },
        };
        if !ok {
            proof {
                if sane(views, size as nat) {
                    lemma_sane_prefix(views, size as nat, (offset + len) as nat);
                }
            }
            return Ok(MergeOutcome::Conflict);
        }
        proof {
            assert(same_length(scan.seen@, scan.processed as nat));
            lemma_overlay_extend_each(
                windows(views, 0, offset as int),
                chunks,
                offset as nat,
                len as nat,
            );
        }
        let mut p: usize = 0;
        let ghost before = merged@;
        while p < len
            invariant
                p <= len,
                len == or_chunk.len(),
                merged@ == before + or_chunk@.subrange(0, p as int),
            decreases len - p,
        {
            merged.push(or_chunk[p]);
            proof {
                assert(or_chunk@.subrange(0, p + 1) =~= or_chunk@.subrange(0, p as int).push(
                    or_chunk@[p as int],
                ));
                assert(before + or_chunk@.subrange(0, p + 1) =~= (before + or_chunk@.subrange(
                    0,
                    p as int,
                )).push(or_chunk@[p as int]));
            }
            p += 1;
        }
        assert(or_chunk@.subrange(0, len as int) =~= or_chunk@);
    }
    proof {
        assert(scan.seen@ =~= views) by {
            assert forall|k: int| 0 <= k < views.len() implies #[trigger] scan.seen@[k]
                == views[k] by {
                assert(views[k].len() == size);
                assert(views[k].subrange(0, size as int) =~= views[k]);
            }
        }
    }
    let flags = scan.into_flags();
    Ok(MergeOutcome::Merged { bytes: merged, is_complete: flags })
}

/// Sources cut at `offset` and extended by their next `len` bytes are the
/// sources cut at `offset + len`.
proof fn lemma_cut_further(views: Seq<Seq<u8>>, size: nat, offset: nat, len: nat)
    requires
        same_length(views, size),
        offset + len <= size,
    ensures
        same_length(windows(views, 0, offset as int), offset),
        same_length(windows(views, offset as int, len as int), len),
        extend_each(windows(views, 0, offset as int), windows(views, offset as int, len as int))
            == windows(views, 0, (offset + len) as int),
{
    let heads = windows(views, 0, offset as int);
    let tails = windows(views, offset as int, len as int);
    assert forall|i: int| 0 <= i < views.len() implies #[trigger] extend_each(heads, tails)[i]
        == windows(views, 0, (offset + len) as int)[i] by {
        assert(views[i].len() == size);
        assert(heads[i] + tails[i] =~= views[i].subrange(0, (offset + len) as int));
    }
    assert(extend_each(heads, tails) =~= windows(views, 0, (offset + len) as int));
    assert forall|i: int| 0 <= i < heads.len() implies (#[trigger] heads[i]).len() == offset by {
        assert(views[i].len() == size);
    }
    assert forall|i: int| 0 <= i < tails.len() implies (#[trigger] tails[i]).len() == len by {
        assert(views[i].len() == size);
    }
}

} // verus!
