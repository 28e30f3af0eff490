//! One group of candidates, from the first look to the result.
//!
//! The processor decides; its caller reads and writes. Every step of the
//! processor hands out an [`Action`] for the caller to carry out, and the
//! caller hands back what came of it as an [`Event`]. No action ever asks
//! to write a protected file or into a protected directory.

use vstd::prelude::*;
use std::time::{Duration, Instant};
use crate::clock::{elapsed_since, now};
use crate::filter::FileFilter;
use crate::fuzzy::{filenames_fuzzy_match, names_match};
use crate::paths::{file_name, file_name_of, join, parent, parent_of, path_join, text_of, texts};

verus! {

/// Files of at least this many bytes are scanned through memory maps.
pub const MMAP_THRESHOLD: u64 = 5242880;

/// Files below this many bytes are not looked at unless told otherwise.
pub const DEFAULT_MIN_FILE_SIZE: u64 = 1048576;

/// How a group ended.
#[derive(Debug, Clone, Copy, PartialEq, Eq, Structural)]
pub enum GroupStatus {
    /// Merged content was written, or would be in a dry run.
    Merged,
    /// There was nothing to do.
    Skipped,
    /// The candidates hold conflicting data; nothing was touched.
    Failed,
}

/// The result of one group.
#[derive(Debug)]
pub struct GroupStats {
    pub status: GroupStatus,
    pub processing_time: Duration,
    pub bytes_processed: u64,
    pub merged_files: Vec<String>,
}

/// The switches of a run.
#[derive(Debug, Clone, Copy, PartialEq, Eq, Structural)]
pub struct GroupOptions {
    /// Write merged content over the incomplete file instead of beside it.
    pub replace: bool,
    /// Decide everything, change nothing.
    pub dry_run: bool,
    /// Never scan through memory maps.
    pub no_mmap: bool,
    /// Fill destinations that are all holes straight from a source of the same name.
    pub copy_empty_dst: bool,
}

/// What the processor knows of one candidate.
#[derive(Debug, Clone)]
pub struct PathFacts {
    pub path: String,
    /// Its file name, if it has one.
    pub name: Option<String>,
    /// Its parent directory, if it has one.
    pub parent: Option<String>,
    /// Does it lie within a source root?
    pub protected: bool,
    /// Does its parent directory lie within a source root?
    pub parent_protected: bool,
}

/// Why a group was given up. An index counts the candidates of the group.
#[derive(Debug, Clone, Copy, PartialEq, Eq, Structural)]
pub enum GroupError {
    /// The candidate is not as long as the first writable one.
    SizeMismatch { index: usize },
    /// The candidate has no parent directory.
    NoParent { index: usize },
    /// The candidate has no file name to derive a sidecar from.
    NoFileName { index: usize },
    /// The event does not answer the action that was handed out.
    UnexpectedEvent,
}

/// What the caller is asked to do. An index counts the candidates of the group.
#[derive(Debug, Clone, Copy, PartialEq, Eq, Structural)]
pub enum Action {
    /// Report the lengths of the two files.
    CompareSizes { src: usize, dst: usize },
    /// Report whether `dst` is all holes and whether `src` holds data.
    Inspect { src: usize, dst: usize },
    /// Copy `src` over `dst`.
    Copy { src: usize, dst: usize },
    /// Report the length of the file.
    Measure { path: usize },
    /// Report the lengths of all writable candidates, in their order.
    MeasureAll,
    /// Scan the writable candidates and report what the scan found. The
    /// merged bytes are to be kept only if `keep_output` is set.
    Scan { use_mmap: bool, keep_output: bool },
    /// Carry out the write steps of the processor.
    Write,
    /// The group is done: its result is ready.
    Finish,
    /// The group was given up: its error is ready.
    Fail,
}

/// What a scan over the writable candidates found.
#[derive(Debug)]
pub enum ScanReport {
    Conflict,
    /// One completeness flag per writable candidate.
    Merged(Vec<bool>),
}

/// What came of an action.
#[derive(Debug)]
pub enum Event {
    /// Lengths of source and destination, unless one could not be read.
    Sizes(Option<(u64, u64)>),
    /// Whether the destination is all holes and whether the source holds
    /// data, unless one could not be read.
    Contents(Option<(bool, bool)>),
    Copied,
    Measured(u64),
    AllSizes(Vec<u64>),
    Scanned(ScanReport),
    Written,
}

/// An event as a mathematical value.
pub enum EventView {
    Sizes(Option<(u64, u64)>),
    Contents(Option<(bool, bool)>),
    Copied,
    Measured(u64),
    AllSizes(Seq<u64>),
    Conflict,
    Merged(Seq<bool>),
    Written,
}

impl Event {
    pub open spec fn view(&self) -> EventView {
        match self {
            Event::Sizes(s) => EventView::Sizes(*s),
            Event::Contents(c) => EventView::Contents(*c),
            Event::Copied => EventView::Copied,
            Event::Measured(n) => EventView::Measured(*n),
            Event::AllSizes(sizes) => EventView::AllSizes(sizes@),
            Event::Scanned(ScanReport::Conflict) => EventView::Conflict,
            Event::Scanned(ScanReport::Merged(flags)) => EventView::Merged(flags@),
            Event::Written => EventView::Written,
        }
    }
}

/// One file to write: the merged content goes to `target`, by way of a
/// temporary file in `dir`. With `replace` the target is the candidate itself.
#[derive(Debug, Clone)]
pub struct WriteStep {
    /// The incomplete candidate that the step is for.
    pub candidate: usize,
    pub dir: String,
    pub target: String,
    pub replace: bool,
}

/// A write step as a mathematical value.
pub struct StepView {
    pub candidate: usize,
    pub dir: Seq<char>,
    pub target: Seq<char>,
    pub replace: bool,
}

impl WriteStep {
    pub open spec fn view(&self) -> StepView {
        StepView { candidate: self.candidate, dir: self.dir@, target: self.target@, replace: self.replace }
    }
}

/// The views of a list of write steps.
pub open spec fn step_views(steps: Seq<WriteStep>) -> Seq<StepView> {
    Seq::new(steps.len(), |i: int| steps[i]@)
}

/// Where the processor stands.
#[derive(Debug, Clone, Copy, PartialEq, Eq, Structural)]
pub enum Phase {
    /// Waiting for the lengths of a source and a destination.
    Sizing { dst: usize, src: usize },
    /// Waiting for a look into a source and a destination of `size` bytes.
    Inspecting { dst: usize, src: usize, size: u64 },
    /// Waiting for a copy of `size` bytes to be made.
    Copying { dst: usize, src: usize, size: u64 },
    /// Waiting for the length of the first writable candidate.
    Measuring,
    /// Waiting for the lengths of all writable candidates.
    MeasuringAll,
    /// Waiting for the scan.
    Scanning,
    /// Waiting for the write steps to be carried out.
    Writing,
    Finished,
    Failed,
}

/// The suffix of a sidecar file.
pub open spec fn sidecar_suffix() -> Seq<char> {
    ".merged"@
}

/// The indices of the candidates that are not protected, in their order.
pub open spec fn unprotected(facts: Seq<PathFacts>) -> Seq<usize>
    decreases facts.len(),
{
    if facts.len() == 0 {
        Seq::empty()
    } else if facts.last().protected {
        unprotected(facts.drop_last())
    } else {
        unprotected(facts.drop_last()).push((facts.len() - 1) as usize)
    }
}

/// May the destination at `d` be filled from the source at `s`? The
/// destination must be writable, the source protected, and their file
/// names must match.
pub open spec fn eligible(facts: Seq<PathFacts>, d: int, s: int) -> bool {
    &&& 0 <= d < facts.len()
    &&& 0 <= s < facts.len()
    &&& !facts[d].protected
    &&& facts[s].protected
    &&& facts[d].name is Some
    &&& facts[s].name is Some
    &&& names_match(facts[s].name->0@, facts[d].name->0@)
}

/// The first eligible pair of destination and source from `(d, s)` on,
/// destinations before sources.
pub open spec fn next_pair(facts: Seq<PathFacts>, d: int, s: int) -> Option<(usize, usize)>
    decreases facts.len() - d, facts.len() - s,
{
    if d < 0 || s < 0 || d >= facts.len() {
        None
    } else if s >= facts.len() {
        next_pair(facts, d + 1, 0)
    } else if eligible(facts, d, s) {
        Some((d as usize, s as usize))
    } else {
        next_pair(facts, d, s + 1)
    }
}

/// A sum that stops at the greatest number.
pub open spec fn capped_sum(a: u64, b: u64) -> u64 {
    if a + b > u64::MAX {
        u64::MAX
    } else {
        (a + b) as u64
    }
}

/// Index of the first length from `from` on that differs from the first
/// one; the number of lengths if there is none.
pub open spec fn first_unequal(sizes: Seq<u64>, from: int) -> int
    decreases sizes.len() - from,
{
    if from < 0 || from >= sizes.len() {
        sizes.len() as int
    } else if sizes[from] != sizes[0] {
        from
    } else {
        first_unequal(sizes, from + 1)
    }
}

/// Position, among the writable candidates from `from` on, of the first
/// whose parent directory exists and is not protected.
pub open spec fn first_free_parent(facts: Seq<PathFacts>, writable: Seq<usize>, from: int) -> Option<
    int,
>
    decreases writable.len() - from,
{
    if from < 0 || from >= writable.len() {
        None
    } else if facts[writable[from] as int].parent is Some && !facts[writable[from] as int].parent_protected {
        Some(from)
    } else {
        first_free_parent(facts, writable, from + 1)
    }
}

/// The directory for the scan's temporary file: the first parent directory
/// of a writable candidate that is not protected, else the parent of the
/// first writable candidate, if it has one.
pub open spec fn temp_dir_of(facts: Seq<PathFacts>, writable: Seq<usize>) -> Option<Seq<char>> {
    match first_free_parent(facts, writable, 0) {
        Some(j) => text_of(facts[writable[j] as int].parent),
        None => if writable.len() > 0 {
            text_of(facts[writable[0] as int].parent)
        } else {
            None
        },
    }
}

/// Where the merged content for a candidate goes: over the candidate
/// itself, or into a sidecar beside it that is named after it.
pub open spec fn target_of(f: PathFacts, replace: bool) -> Seq<char> {
    if replace {
        f.path@
    } else {
        path_join(f.parent->0@, f.name->0@ + sidecar_suffix())
    }
}

/// The write steps for the first `upto` writable candidates, or the first
/// error met. A candidate gets a step when it is incomplete, is not
/// protected, and has a parent directory that is not protected.
pub open spec fn planned(
    facts: Seq<PathFacts>,
    writable: Seq<usize>,
    flags: Seq<bool>,
    replace: bool,
    upto: int,
) -> Result<Seq<StepView>, GroupError>
    decreases upto,
{
    if upto <= 0 {
        Ok(Seq::empty())
    } else {
        match planned(facts, writable, flags, replace, upto - 1) {
            Err(e) => Err(e),
            Ok(steps) => {
                let i = writable[upto - 1];
                let f = facts[i as int];
                if flags[upto - 1] || f.protected {
                    Ok(steps)
                } else if f.parent is None {
                    Err(GroupError::NoParent { index: i })
                } else if f.parent_protected {
                    Ok(steps)
                } else if !replace && f.name is None {
                    Err(GroupError::NoFileName { index: i })
                } else {
                    Ok(
                        steps.push(
                            StepView {
                                candidate: i,
                                dir: f.parent->0@,
                                target: target_of(f, replace),
                                replace,
                            },
                        ),
                    )
                }
            },
        }
    }
}

/// The targets of a list of write steps.
pub open spec fn targets(steps: Seq<StepView>) -> Seq<Seq<char>> {
    Seq::new(steps.len(), |i: int| steps[i].target)
}

/// The paths of the candidates at the given indices.
pub open spec fn paths_at(facts: Seq<PathFacts>, indices: Seq<usize>) -> Seq<Seq<char>> {
    Seq::new(indices.len(), |i: int| facts[indices[i] as int].path@)
}

/// Is every flag set?
pub open spec fn all_set(flags: Seq<bool>) -> bool {
    forall|i: int| 0 <= i < flags.len() ==> flags[i]
}

/// Should a scan over files of `size` bytes go through memory maps?
pub open spec fn wants_mmap(no_mmap: bool, size: u64) -> bool {
    !no_mmap && size >= MMAP_THRESHOLD
}

/// The state of a processor as a mathematical value.
pub struct Model {
    pub facts: Seq<PathFacts>,
    pub options: GroupOptions,
    pub phase: Phase,
    /// Destinations that the fast path has filled.
    pub copies: Seq<usize>,
    pub copied_bytes: u64,
    pub bytes_processed: u64,
    pub temp_dir: Option<Seq<char>>,
    pub steps: Seq<StepView>,
    pub status: GroupStatus,
    pub merged_files: Seq<Seq<char>>,
    pub error: Option<GroupError>,
}

/// The model ends with the given status.
pub open spec fn finish(m: Model, status: GroupStatus, bytes: u64, files: Seq<Seq<char>>) -> (
    Model,
    Action,
) {
    (
        Model { phase: Phase::Finished, status, bytes_processed: bytes, merged_files: files, ..m },
        Action::Finish,
    )
}

/// The model gives up with the given error.
pub open spec fn fail(m: Model, e: GroupError) -> (Model, Action) {
    (Model { phase: Phase::Failed, error: Some(e), ..m }, Action::Fail)
}

/// The model turns to the first eligible pair from `(d, s)` on. When there
/// is none left, the fast path is over: with copies made the group is
/// merged, else the ordinary way begins.
pub open spec fn seek_pair(m: Model, d: int, s: int) -> (Model, Action) {
    match next_pair(m.facts, d, s) {
        Some((d2, s2)) => (
            Model { phase: Phase::Sizing { dst: d2, src: s2 }, ..m },
            Action::CompareSizes { src: s2, dst: d2 },
        ),
        None => if m.copies.len() > 0 {
            finish(m, GroupStatus::Merged, m.copied_bytes, paths_at(m.facts, m.copies))
        } else {
            (
                Model { phase: Phase::Measuring, ..m },
                Action::Measure { path: unprotected(m.facts)[0] },
            )
        },
    }
}

/// The model notes that destination `dst` was filled with `size` bytes.
pub open spec fn note_copy(m: Model, dst: usize, size: u64) -> Model {
    Model { copies: m.copies.push(dst), copied_bytes: capped_sum(m.copied_bytes, size), ..m }
}

/// The first state of a group and the first action: a group without a
/// writable candidate is skipped at once.
pub open spec fn begin_spec(facts: Seq<PathFacts>, options: GroupOptions) -> (Model, Action) {
    let m = Model {
        facts,
        options,
        phase: Phase::Measuring,
        copies: Seq::empty(),
        copied_bytes: 0,
        bytes_processed: 0,
        temp_dir: None,
        steps: Seq::empty(),
        status: GroupStatus::Skipped,
        merged_files: Seq::empty(),
        error: None,
    };
    if unprotected(facts).len() == 0 {
        finish(m, GroupStatus::Skipped, 0, Seq::empty())
    } else if options.copy_empty_dst && facts.len() >= 2 {
        seek_pair(m, 0, 0)
    } else {
        (m, Action::Measure { path: unprotected(facts)[0] })
    }
}

/// What the lengths of all writable candidates lead to.
pub open spec fn after_sizes(m: Model, sizes: Seq<u64>) -> (Model, Action) {
    let writable = unprotected(m.facts);
    if sizes.len() != writable.len() {
        fail(m, GroupError::UnexpectedEvent)
    } else if sizes[0] == 0 {
        finish(m, GroupStatus::Skipped, 0, Seq::empty())
    } else if first_unequal(sizes, 1) < sizes.len() {
        fail(m, GroupError::SizeMismatch { index: writable[first_unequal(sizes, 1)] })
    } else {
        match temp_dir_of(m.facts, writable) {
            None => fail(m, GroupError::NoParent { index: writable[0] }),
            Some(dir) => (
                Model {
                    phase: Phase::Scanning,
                    bytes_processed: sizes[0],
                    temp_dir: Some(dir),
                    ..m
                },
                Action::Scan {
                    use_mmap: wants_mmap(m.options.no_mmap, sizes[0]),
                    keep_output: !m.options.dry_run,
                },
            ),
        }
    }
}

/// What the completeness flags of a scan lead to.
pub open spec fn after_scan(m: Model, flags: Seq<bool>) -> (Model, Action) {
    let writable = unprotected(m.facts);
    if flags.len() != writable.len() {
        fail(m, GroupError::UnexpectedEvent)
    } else if all_set(flags) {
        finish(m, GroupStatus::Skipped, m.bytes_processed, Seq::empty())
    } else {
        match planned(m.facts, writable, flags, m.options.replace, writable.len() as int) {
            Err(e) => fail(m, e),
            Ok(steps) => {
                let m2 = Model { steps, ..m };
                if m.options.dry_run || steps.len() == 0 {
                    finish(m2, GroupStatus::Merged, m.bytes_processed, targets(steps))
                } else {
                    (Model { phase: Phase::Writing, ..m2 }, Action::Write)
                }
            },
        }
    }
}

/// The step of the state machine: the next state and the next action for
/// a state and an event.
pub open spec fn advance_spec(m: Model, e: EventView) -> (Model, Action) {
    match (m.phase, e) {
        (Phase::Finished, _) => (m, Action::Finish),
        (Phase::Failed, _) => (m, Action::Fail),
        (Phase::Sizing { dst, src }, EventView::Sizes(Some((src_len, dst_len)))) => {
            if src_len == dst_len {
                (
                    Model { phase: Phase::Inspecting { dst, src, size: src_len }, ..m },
                    Action::Inspect { src, dst },
                )
            } else {
                seek_pair(m, dst as int, src + 1)
            }
        },
        (Phase::Sizing { dst, src }, EventView::Sizes(None)) => seek_pair(m, dst as int, src + 1),
        (Phase::Inspecting { dst, src, size }, EventView::Contents(found)) => {
            if found == Some((true, true)) {
                if m.options.dry_run {
                    seek_pair(note_copy(m, dst, size), dst + 1, 0)
                } else {
                    (Model { phase: Phase::Copying { dst, src, size }, ..m }, Action::Copy { src, dst })
                }
            } else {
                seek_pair(m, dst as int, src + 1)
            }
        },
        (Phase::Copying { dst, src, size }, EventView::Copied) => seek_pair(
            note_copy(m, dst, size),
            dst + 1,
            0,
        ),
        (Phase::Measuring, EventView::Measured(size)) => {
            if size == 0 {
                finish(m, GroupStatus::Skipped, 0, Seq::empty())
            } else {
                (
                    Model { phase: Phase::MeasuringAll, bytes_processed: size, ..m },
                    Action::MeasureAll,
                )
            }
        },
        (Phase::MeasuringAll, EventView::AllSizes(sizes)) => after_sizes(m, sizes),
        (Phase::Scanning, EventView::Conflict) => finish(
            m,
            GroupStatus::Failed,
            m.bytes_processed,
            Seq::empty(),
        ),
        (Phase::Scanning, EventView::Merged(flags)) => after_scan(m, flags),
        (Phase::Writing, EventView::Written) => finish(
            m,
            GroupStatus::Merged,
            m.bytes_processed,
            targets(m.steps),
        ),
        _ => fail(m, GroupError::UnexpectedEvent),
    }
}

/// What holds of the indices of the writable candidates.
pub proof fn lemma_unprotected(facts: Seq<PathFacts>)
    requires
        facts.len() <= usize::MAX,
    ensures
        unprotected(facts).len() <= facts.len(),
        forall|j: int|
            0 <= j < unprotected(facts).len() ==> (#[trigger] unprotected(facts)[j]) < facts.len()
                && !facts[unprotected(facts)[j] as int].protected,
        unprotected(facts).len() == 0 <==> forall|i: int|
            0 <= i < facts.len() ==> (#[trigger] facts[i]).protected,
    decreases facts.len(),
{
    if facts.len() > 0 {
        let front = facts.drop_last();
        lemma_unprotected(front);
        assert forall|i: int| 0 <= i < front.len() implies front[i] == facts[i] by {}
        assert forall|j: int| 0 <= j < unprotected(facts).len() implies (#[trigger] unprotected(
            facts,
        )[j]) < facts.len() && !facts[unprotected(facts)[j] as int].protected by {
            if j < unprotected(front).len() {
                assert(unprotected(facts)[j] == unprotected(front)[j]);
                assert(!front[unprotected(front)[j] as int].protected);
            }
        }
        if unprotected(facts).len() == 0 {
            assert forall|i: int| 0 <= i < facts.len() implies (#[trigger] facts[i]).protected by {
                if i < front.len() {
                    assert(front[i].protected);
                }
            }
        }
        if forall|i: int| 0 <= i < facts.len() ==> (#[trigger] facts[i]).protected {
            assert(facts[facts.len() - 1].protected);
            assert forall|i: int| 0 <= i < front.len() implies (#[trigger] front[i]).protected by {
                assert(facts[i].protected);
            }
        }
    }
}

/// Copies a list of strings.
pub fn clone_strings(list: &Vec<String>) -> (copy: Vec<String>)
    ensures
        texts(copy@) == texts(list@),
{
    let mut copy: Vec<String> = Vec::new();
    let mut i: usize = 0;
    while i < list.len()
        invariant
            i <= list.len(),
            copy.len() == i,
            forall|k: int| 0 <= k < i ==> copy@[k]@ == list@[k]@,
        decreases list.len() - i,
    {
        copy.push(list[i].clone());
        i += 1;
    }
    assert(texts(copy@) =~= texts(list@));
    copy
}

/// The indices of the candidates that are not protected, in their order.
fn writable_indices(facts: &Vec<PathFacts>) -> (writable: Vec<usize>)
    ensures
        writable@ == unprotected(facts@),
{
    let mut writable: Vec<usize> = Vec::new();
    let mut i: usize = 0;
    assert(facts@.take(0) =~= Seq::empty());
    while i < facts.len()
        invariant
            i <= facts.len(),
            writable@ == unprotected(facts@.take(i as int)),
        decreases facts.len() - i,
    {
        proof {
            let t = facts@.take(i + 1);
            assert(t.drop_last() =~= facts@.take(i as int));
            assert(t.last() == facts@[i as int]);
        }
        if !facts[i].protected {
            writable.push(i);
        }
        i += 1;
    }
    assert(facts@.take(facts.len() as int) =~= facts@);
    writable
}

/// The first eligible pair of destination and source from `(d, s)` on.
fn find_pair(facts: &Vec<PathFacts>, d: usize, s: usize) -> (pair: Option<(usize, usize)>)
    requires
        s <= facts.len(),
    ensures
        pair == next_pair(facts@, d as int, s as int),
        pair matches Some((d2, s2)) ==> d2 < facts.len() && s2 < facts.len(),
{
    let n = facts.len();
    let mut dst: usize = d;
    let mut src: usize = s;
    while dst < n
        invariant
            n == facts.len(),
            src <= n,
            next_pair(facts@, dst as int, src as int) == next_pair(facts@, d as int, s as int),
        decreases n - dst, n - src,
    {
        if src >= n {
            assert(next_pair(facts@, dst as int, src as int) == next_pair(facts@, dst + 1, 0));
            dst += 1;
            src = 0;
        } else {
            let hit = !facts[dst].protected && facts[src].protected && match (
                &facts[src].name,
                &facts[dst].name,
            ) {
                (Some(src_name), Some(dst_name)) => filenames_fuzzy_match(
                    src_name.as_str(),
                    dst_name.as_str(),
                ),
                _ => false,
            };
            assert(hit == eligible(facts@, dst as int, src as int));
            if hit {
                assert(next_pair(facts@, dst as int, src as int) == Some((dst, src)));
                return Some((dst, src));
            }
            assert(next_pair(facts@, dst as int, src as int) == next_pair(
                facts@,
                dst as int,
                src + 1,
            ));
            src += 1;
        }
    }
    None
}

/// Index of the first length from the second on that differs from the
/// first one; the number of lengths if there is none.
fn first_mismatch(sizes: &Vec<u64>) -> (at: usize)
    requires
        sizes.len() >= 1,
    ensures
        at == first_unequal(sizes@, 1),
        1 <= at <= sizes.len(),
{
    let mut i: usize = 1;
    while i < sizes.len()
        invariant
            1 <= i <= sizes.len(),
            first_unequal(sizes@, 1) == first_unequal(sizes@, i as int),
        decreases sizes.len() - i,
    {
        if sizes[i] != sizes[0] {
            return i;
        }
        i += 1;
    }
    i
}

/// The directory for the scan's temporary file: the first parent directory
/// of a writable candidate that is not protected, else the parent of the
/// first writable candidate. A first candidate without a parent is an error.
pub fn find_temp_directory(facts: &Vec<PathFacts>, writable: &Vec<usize>) -> (dir: Result<
    String,
    GroupError,
>)
    requires
        writable.len() >= 1,
        forall|j: int| 0 <= j < writable.len() ==> (#[trigger] writable[j]) < facts.len(),
    ensures
        match dir {
            Ok(dir) => temp_dir_of(facts@, writable@) == Some(dir@),
            Err(e) => temp_dir_of(facts@, writable@) is None && e == (GroupError::NoParent {
                index: writable[0],
            }),
        },
{
    let mut j: usize = 0;
    while j < writable.len()
        invariant
            j <= writable.len(),
            forall|k: int| 0 <= k < writable.len() ==> (#[trigger] writable[k]) < facts.len(),
            first_free_parent(facts@, writable@, 0) == first_free_parent(
                facts@,
                writable@,
                j as int,
            ),
        decreases writable.len() - j,
    {
        let f = &facts[writable[j]];
        if !f.parent_protected {
            match &f.parent {
                Some(dir) => {
                    return Ok(dir.clone());
                },
                None => {},
            }
        }
        j += 1;
    }
    match &facts[writable[0]].parent {
        Some(dir) => Ok(dir.clone()),
        None => Err(GroupError::NoParent { index: writable[0] }),
    }
}

/// Is every flag set?
fn all_complete(flags: &Vec<bool>) -> (all: bool)
    ensures
        all == all_set(flags@),
{
    let mut i: usize = 0;
    while i < flags.len()
        invariant
            i <= flags.len(),
            forall|k: int| 0 <= k < i ==> flags@[k],
        decreases flags.len() - i,
    {
        if !flags[i] {
            return false;
        }
        i += 1;
    }
    true
}

/// The write steps for a scan's completeness flags, or the first error met.
///
/// Every step is for a candidate that is incomplete and not protected, in a
/// parent directory that is not protected. With `replace` the target is the
/// candidate itself, else a sidecar beside it, named after it with
/// `.merged` added.
pub fn plan_writes(
    facts: &Vec<PathFacts>,
    writable: &Vec<usize>,
    flags: &Vec<bool>,
    replace: bool,
) -> (plan: Result<Vec<WriteStep>, GroupError>)
    requires
        flags.len() == writable.len(),
        forall|j: int| 0 <= j < writable.len() ==> (#[trigger] writable[j]) < facts.len(),
    ensures
        match plan {
            Ok(steps) => planned(facts@, writable@, flags@, replace, writable.len() as int) == Ok::<
                Seq<StepView>,
                GroupError,
            >(step_views(steps@)),
            Err(e) => planned(facts@, writable@, flags@, replace, writable.len() as int) == Err::<
                Seq<StepView>,
                GroupError,
            >(e),
        },
{
    let mut steps: Vec<WriteStep> = Vec::new();
    let mut j: usize = 0;
    assert(step_views(steps@) =~= Seq::empty());
    while j < writable.len()
        invariant
            j <= writable.len(),
            flags.len() == writable.len(),
            forall|k: int| 0 <= k < writable.len() ==> (#[trigger] writable[k]) < facts.len(),
            planned(facts@, writable@, flags@, replace, j as int) == Ok::<
                Seq<StepView>,
                GroupError,
            >(step_views(steps@)),
        decreases writable.len() - j,
    {
        let i = writable[j];
        let f = &facts[i];
        if !flags[j] && !f.protected {
            let dir = match &f.parent {
                Some(dir) => dir,
                None => {
                    proof {
                        lemma_planned_error(
                            facts@,
                            writable@,
                            flags@,
                            replace,
                            j + 1,
                            writable.len() as int,
                        );
                    }
                    return Err(GroupError::NoParent { index: i });
                },
            };
            if !f.parent_protected {
                let target = if replace {
                    f.path.clone()
                } else {
                    let name = match &f.name {
                        Some(name) => name,
                        None => {
                            proof {
                                lemma_planned_error(
                                    facts@,
                                    writable@,
                                    flags@,
                                    replace,
                                    j + 1,
                                    writable.len() as int,
                                );
                            }
                            return Err(GroupError::NoFileName { index: i });
                        },
                    };
                    let mut sidecar = name.clone();
                    sidecar.append(".merged");
                    join(dir.as_str(), sidecar.as_str())
                };
                let ghost before = step_views(steps@);
                let step = WriteStep { candidate: i, dir: dir.clone(), target, replace };
                steps.push(step);
                assert(step_views(steps@) =~= before.push(step@));
            }
        }
        j += 1;
    }
    Ok(steps)
}

/// An error met while planning stays the result of the plan.
proof fn lemma_planned_error(
    facts: Seq<PathFacts>,
    writable: Seq<usize>,
    flags: Seq<bool>,
    replace: bool,
    at: int,
    upto: int,
)
    requires
        at <= upto,
        planned(facts, writable, flags, replace, at) is Err,
    ensures
        planned(facts, writable, flags, replace, upto) == planned(
            facts,
            writable,
            flags,
            replace,
            at,
        ),
    decreases upto - at,
{
    if at < upto {
        lemma_planned_error(facts, writable, flags, replace, at, upto - 1);
    }
}

/// An empty list of files.
fn no_files() -> (files: Vec<String>)
    ensures
        texts(files@) == Seq::<Seq<char>>::empty(),
{
    let files: Vec<String> = Vec::new();
    assert(texts(files@) =~= Seq::<Seq<char>>::empty());
    files
}

/// The paths of the candidates at the given indices.
fn paths_of(facts: &Vec<PathFacts>, indices: &Vec<usize>) -> (paths: Vec<String>)
    requires
        forall|j: int| 0 <= j < indices.len() ==> (#[trigger] indices[j]) < facts.len(),
    ensures
        texts(paths@) == paths_at(facts@, indices@),
{
    let mut paths: Vec<String> = Vec::new();
    let mut j: usize = 0;
    while j < indices.len()
        invariant
            j <= indices.len(),
            paths.len() == j,
            forall|k: int| 0 <= k < indices.len() ==> (#[trigger] indices[k]) < facts.len(),
            forall|k: int| 0 <= k < j ==> paths@[k]@ == facts@[indices@[k] as int].path@,
        decreases indices.len() - j,
    {
        paths.push(facts[indices[j]].path.clone());
        j += 1;
    }
    assert(texts(paths@) =~= paths_at(facts@, indices@));
    paths
}

/// The targets of a list of write steps.
fn targets_of(steps: &Vec<WriteStep>) -> (list: Vec<String>)
    ensures
        texts(list@) == targets(step_views(steps@)),
{
    let mut list: Vec<String> = Vec::new();
    let mut j: usize = 0;
    while j < steps.len()
        invariant
            j <= steps.len(),
            list.len() == j,
            forall|k: int| 0 <= k < j ==> list@[k]@ == steps@[k].target@,
        decreases steps.len() - j,
    {
        list.push(steps[j].target.clone());
        j += 1;
    }
    assert(texts(list@) =~= targets(step_views(steps@)));
    list
}

/// Looks up what the processor needs to know of one candidate.
pub fn gather_facts(filter: &FileFilter, path: &str) -> (facts: PathFacts)
    ensures
        facts.path@ == path@,
        text_of(facts.name) == file_name_of(path@),
        text_of(facts.parent) == parent_of(path@),
        filter.roots().len() == 0 ==> !facts.protected && !facts.parent_protected,
{
    let dir = parent(path);
    let parent_protected = match &dir {
        Some(dir) => filter.is_in_src_dir(dir.as_str()),
        None => false,
    };
    PathFacts {
        path: path.to_owned(),
        name: file_name(path),
        parent: dir,
        protected: filter.is_in_src_dir(path),
        parent_protected,
    }
}

/// The processor of one group.
pub struct GroupProcessor {
    facts: Vec<PathFacts>,
    options: GroupOptions,
    basename: String,
    started: Instant,
    writable: Vec<usize>,
    phase: Phase,
    copies: Vec<usize>,
    copied_bytes: u64,
    bytes_processed: u64,
    temp_dir: Option<String>,
    steps: Vec<WriteStep>,
    status: GroupStatus,
    merged_files: Vec<String>,
    error: Option<GroupError>,
}

impl GroupProcessor {
    /// The state of the processor as a mathematical value.
    pub closed spec fn model(&self) -> Model {
        Model {
            facts: self.facts@,
            options: self.options,
            phase: self.phase,
            copies: self.copies@,
            copied_bytes: self.copied_bytes,
            bytes_processed: self.bytes_processed,
            temp_dir: text_of(self.temp_dir),
            steps: step_views(self.steps@),
            status: self.status,
            merged_files: texts(self.merged_files@),
            error: self.error,
        }
    }

    /// The name under which the group is reported.
    pub closed spec fn label(&self) -> Seq<char> {
        self.basename@
    }

    /// The processor is consistent with its candidates.
    pub closed spec fn wf(&self) -> bool {
        &&& self.facts@.len() <= usize::MAX
        &&& self.writable@ == unprotected(self.facts@)
        &&& forall|j: int| 0 <= j < self.copies.len() ==> (#[trigger] self.copies[j]) < self.facts.len()
        &&& match self.phase {
            Phase::Sizing { dst, src } => dst < self.facts.len() && src < self.facts.len()
                && self.writable.len() > 0,
            Phase::Inspecting { dst, src, .. } => dst < self.facts.len() && src < self.facts.len()
                && self.writable.len() > 0,
            Phase::Copying { dst, src, .. } => dst < self.facts.len() && src < self.facts.len()
                && self.writable.len() > 0,
            Phase::Measuring => self.writable.len() > 0,
            Phase::MeasuringAll => self.writable.len() > 0,
            Phase::Scanning => self.writable.len() > 0,
            Phase::Writing => self.writable.len() > 0,
            Phase::Finished => true,
            Phase::Failed => true,
        }
    }

    /// Ends the group with the given status.
    fn finish(&mut self, status: GroupStatus, bytes: u64, files: Vec<String>) -> (action: Action)
        requires
            old(self).wf(),
        ensures
            final(self).wf(),
            final(self).label() == old(self).label(),
            (final(self).model(), action) == finish(old(self).model(), status, bytes, texts(files@)),
    {
        self.phase = Phase::Finished;
        self.status = status;
        self.bytes_processed = bytes;
        self.merged_files = files;
        Action::Finish
    }

    /// Gives the group up with the given error.
    fn fail(&mut self, e: GroupError) -> (action: Action)
        requires
            old(self).wf(),
        ensures
            final(self).wf(),
            final(self).label() == old(self).label(),
            (final(self).model(), action) == fail(old(self).model(), e),
    {
        self.phase = Phase::Failed;
        self.error = Some(e);
        Action::Fail
    }

    /// Turns to the first eligible pair from `(d, s)` on, or leaves the fast path.
    fn seek_pair(&mut self, d: usize, s: usize) -> (action: Action)
        requires
            old(self).wf(),
            old(self).writable.len() > 0,
            s <= old(self).facts.len(),
        ensures
            final(self).wf(),
            final(self).label() == old(self).label(),
            (final(self).model(), action) == seek_pair(old(self).model(), d as int, s as int),
    {
        match find_pair(&self.facts, d, s) {
            Some((d2, s2)) => {
                self.phase = Phase::Sizing { dst: d2, src: s2 };
                Action::CompareSizes { src: s2, dst: d2 }
            },
            None => {
                if self.copies.len() > 0 {
                    let files = paths_of(&self.facts, &self.copies);
                    let bytes = self.copied_bytes;
                    self.finish(GroupStatus::Merged, bytes, files)
                } else {
                    self.phase = Phase::Measuring;
                    Action::Measure { path: self.writable[0] }
                }
            },
        }
    }

    /// Notes that destination `dst` was filled with `size` bytes.
    fn note_copy(&mut self, dst: usize, size: u64)
        requires
            old(self).wf(),
            dst < old(self).facts.len(),
        ensures
            final(self).wf(),
            final(self).label() == old(self).label(),
            final(self).model() == note_copy(old(self).model(), dst, size),
            final(self).facts == old(self).facts,
    {
        self.copies.push(dst);
        self.copied_bytes = self.copied_bytes.saturating_add(size);
    }
}

/// In a state that waits on a pair, the pair is eligible.
pub open spec fn consistent(m: Model) -> bool {
    &&& m.facts.len() <= usize::MAX
    &&& match m.phase {
        Phase::Sizing { dst, src } => eligible(m.facts, dst as int, src as int),
        Phase::Inspecting { dst, src, .. } => eligible(m.facts, dst as int, src as int),
        Phase::Copying { dst, src, .. } => eligible(m.facts, dst as int, src as int),
        _ => true,
    }
}

/// A pair that was found is eligible.
pub proof fn lemma_next_pair(facts: Seq<PathFacts>, d: int, s: int)
    requires
        facts.len() <= usize::MAX,
    ensures
        next_pair(facts, d, s) matches Some((d2, s2)) ==> eligible(facts, d2 as int, s2 as int),
    decreases facts.len() - d, facts.len() - s,
{
    if d < 0 || s < 0 || d >= facts.len() {
    } else if s >= facts.len() {
        lemma_next_pair(facts, d + 1, 0);
    } else if !eligible(facts, d, s) {
        lemma_next_pair(facts, d, s + 1);
    }
}

impl GroupProcessor {
    /// Begins a group whose candidates are known.
    pub fn with_facts(facts: Vec<PathFacts>, options: GroupOptions, basename: &str) -> (begun: (
        GroupProcessor,
        Action,
    ))
        ensures
            begun.0.wf(),
            consistent(begun.0.model()),
            begun.0.label() == basename@,
            (begun.0.model(), begun.1) == begin_spec(facts@, options),
    {
        let writable = writable_indices(&facts);
        let count = facts.len();
        let mut processor = GroupProcessor {
            facts,
            options,
            basename: basename.to_owned(),
            started: now(),
            writable,
            phase: Phase::Measuring,
            copies: Vec::new(),
            copied_bytes: 0,
            bytes_processed: 0,
            temp_dir: None,
            steps: Vec::new(),
            status: GroupStatus::Skipped,
            merged_files: Vec::new(),
            error: None,
        };
        proof {
            assert(processor.facts@.len() == count);
            assert(processor.model().steps =~= Seq::empty());
            assert(processor.model().merged_files =~= Seq::empty());
            lemma_next_pair(processor.facts@, 0, 0);
        }
        if processor.writable.len() == 0 {
            processor.phase = Phase::Finished;
            (processor, Action::Finish)
        } else if options.copy_empty_dst && processor.facts.len() >= 2 {
            let action = processor.seek_pair(0, 0);
            (processor, action)
        } else {
            let first = processor.writable[0];
            (processor, Action::Measure { path: first })
        }
    }

    /// Takes in what came of the last action and hands out the next one.
    pub fn advance(&mut self, event: Event) -> (action: Action)
        requires
            old(self).wf(),
            consistent(old(self).model()),
        ensures
            final(self).wf(),
            final(self).label() == old(self).label(),
            consistent(final(self).model()),
            (final(self).model(), action) == advance_spec(old(self).model(), event@),
    {
        proof {
            lemma_unprotected(self.facts@);
        }
        match self.phase {
            Phase::Finished => Action::Finish,
            Phase::Failed => Action::Fail,
            Phase::Sizing { dst, src } => {
                proof {
                    lemma_next_pair(self.facts@, dst as int, src + 1);
                }
                match event {
                    Event::Sizes(Some((src_len, dst_len))) => {
                        if src_len == dst_len {
                            self.phase = Phase::Inspecting { dst, src, size: src_len };
                            Action::Inspect { src, dst }
                        } else {
                            self.seek_pair(dst, src + 1)
                        }
                    },
                    Event::Sizes(None) => self.seek_pair(dst, src + 1),
                    _ => self.fail(GroupError::UnexpectedEvent),
                }
            },
            Phase::Inspecting { dst, src, size } => {
                proof {
                    lemma_next_pair(self.facts@, dst as int, src + 1);
                    lemma_next_pair(self.facts@, dst + 1, 0);
                }
                match event {
                    Event::Contents(Some((true, true))) => {
                        if self.options.dry_run {
                            self.note_copy(dst, size);
                            self.seek_pair(dst + 1, 0)
                        } else {
                            self.phase = Phase::Copying { dst, src, size };
                            Action::Copy { src, dst }
                        }
                    },
                    Event::Contents(_) => self.seek_pair(dst, src + 1),
                    _ => self.fail(GroupError::UnexpectedEvent),
                }
            },
            Phase::Copying { dst, src, size } => {
                proof {
                    lemma_next_pair(self.facts@, dst + 1, 0);
                }
                match event {
                    Event::Copied => {
                        self.note_copy(dst, size);
                        self.seek_pair(dst + 1, 0)
                    },
                    _ => self.fail(GroupError::UnexpectedEvent),
                }
            },
            Phase::Measuring => match event {
                Event::Measured(size) => {
                    if size == 0 {
                        self.finish(GroupStatus::Skipped, 0, no_files())
                    } else {
                        self.phase = Phase::MeasuringAll;
                        self.bytes_processed = size;
                        Action::MeasureAll
                    }
                },
                _ => self.fail(GroupError::UnexpectedEvent),
            },
            Phase::MeasuringAll => match event {
                Event::AllSizes(sizes) => self.take_sizes(&sizes),
                _ => self.fail(GroupError::UnexpectedEvent),
            },
            Phase::Scanning => match event {
                Event::Scanned(ScanReport::Conflict) => {
                    let bytes = self.bytes_processed;
                    self.finish(GroupStatus::Failed, bytes, no_files())
                },
                Event::Scanned(ScanReport::Merged(flags)) => self.handle_successful_merge(&flags),
                _ => self.fail(GroupError::UnexpectedEvent),
            },
            Phase::Writing => match event {
                Event::Written => {
                    let bytes = self.bytes_processed;
                    let files = targets_of(&self.steps);
                    self.finish(GroupStatus::Merged, bytes, files)
                },
                _ => self.fail(GroupError::UnexpectedEvent),
            },
        }
    }

    /// Decides on the lengths of all writable candidates.
    fn take_sizes(&mut self, sizes: &Vec<u64>) -> (action: Action)
        requires
            old(self).wf(),
            old(self).phase == Phase::MeasuringAll,
        ensures
            final(self).wf(),
            final(self).label() == old(self).label(),
            consistent(final(self).model()),
            (final(self).model(), action) == after_sizes(old(self).model(), sizes@),
    {
        proof {
            lemma_unprotected(self.facts@);
        }
        if sizes.len() != self.writable.len() {
            return self.fail(GroupError::UnexpectedEvent);
        }
        if sizes[0] == 0 {
            return self.finish(GroupStatus::Skipped, 0, no_files());
        }
        let odd = first_mismatch(sizes);
        if odd < sizes.len() {
            let index = self.writable[odd];
            return self.fail(GroupError::SizeMismatch { index });
        }
        match find_temp_directory(&self.facts, &self.writable) {
            Err(e) => self.fail(e),
            Ok(dir) => {
                self.phase = Phase::Scanning;
                self.bytes_processed = sizes[0];
                self.temp_dir = Some(dir);
                Action::Scan {
                    use_mmap: !self.options.no_mmap && sizes[0] >= MMAP_THRESHOLD,
                    keep_output: !self.options.dry_run,
                }
            },
        }
    }

    /// Decides on the completeness flags of a scan.
    fn handle_successful_merge(&mut self, flags: &Vec<bool>) -> (action: Action)
        requires
            old(self).wf(),
            old(self).phase == Phase::Scanning,
        ensures
            final(self).wf(),
            final(self).label() == old(self).label(),
            consistent(final(self).model()),
            (final(self).model(), action) == after_scan(old(self).model(), flags@),
    {
        proof {
            lemma_unprotected(self.facts@);
        }
        let bytes = self.bytes_processed;
        if flags.len() != self.writable.len() {
            return self.fail(GroupError::UnexpectedEvent);
        }
        if all_complete(flags) {
            return self.finish(GroupStatus::Skipped, bytes, no_files());
        }
        match plan_writes(&self.facts, &self.writable, flags, self.options.replace) {
            Err(e) => self.fail(e),
            Ok(steps) => {
                self.steps = steps;
                if self.options.dry_run || self.steps.len() == 0 {
                    let files = targets_of(&self.steps);
                    self.finish(GroupStatus::Merged, bytes, files)
                } else {
                    self.phase = Phase::Writing;
                    Action::Write
                }
            },
        }
    }

    /// Where the processor stands.
    pub fn phase(&self) -> (phase: Phase)
        ensures
            phase == self.model().phase,
    {
        self.phase
    }

    /// The switches of the run.
    pub fn options(&self) -> (options: GroupOptions)
        ensures
            options == self.model().options,
    {
        self.options
    }

    /// The name under which the group is reported.
    pub fn basename(&self) -> (name: &String)
        ensures
            name@ == self.label(),
    {
        &self.basename
    }

    /// What the processor knows of its candidates.
    pub fn facts(&self) -> (facts: &Vec<PathFacts>)
        ensures
            facts@ == self.model().facts,
    {
        &self.facts
    }

    /// The indices of the writable candidates, in their order.
    pub fn writable(&self) -> (writable: &Vec<usize>)
        requires
            self.wf(),
        ensures
            writable@ == unprotected(self.model().facts),
    {
        &self.writable
    }

    /// The paths of the writable candidates, in their order.
    pub fn writable_paths(&self) -> (paths: Vec<String>)
        requires
            self.wf(),
        ensures
            texts(paths@) == paths_at(self.model().facts, unprotected(self.model().facts)),
    {
        proof {
            lemma_unprotected(self.facts@);
        }
        paths_of(&self.facts, &self.writable)
    }

    /// The directory for the scan's temporary file, once a scan was asked for.
    pub fn temp_directory(&self) -> (dir: &Option<String>)
        ensures
            text_of(*dir) == self.model().temp_dir,
    {
        &self.temp_dir
    }

    /// The write steps, once writing was asked for.
    pub fn write_steps(&self) -> (steps: &Vec<WriteStep>)
        ensures
            step_views(steps@) == self.model().steps,
    {
        &self.steps
    }

    /// Why the group was given up, if it was.
    pub fn error(&self) -> (error: Option<GroupError>)
        ensures
            error == self.model().error,
    {
        self.error
    }

    /// The result of the group, once it is done.
    pub fn stats(&self) -> (stats: Option<GroupStats>)
        ensures
            stats is Some <==> self.model().phase == Phase::Finished,
            stats matches Some(s) ==> s.status == self.model().status && s.bytes_processed
                == self.model().bytes_processed && texts(s.merged_files@)
                == self.model().merged_files,
    {
        match self.phase {
            Phase::Finished => Some(
                GroupStats {
                    status: self.status,
                    processing_time: elapsed_since(&self.started),
                    bytes_processed: self.bytes_processed,
                    merged_files: clone_strings(&self.merged_files),
                },
            ),
            _ => None,
        }
    }
}

/// Begins the processing of one group of candidate paths.
///
/// The facts on every path are looked up first: its name, its parent and
/// whether it or its parent lies within one of `src_dirs`. What follows
/// depends on those facts alone and is laid down by `begin_spec`.
pub fn process_group_with_dry_run(
    paths: &Vec<String>,
    basename: &str,
    replace: bool,
    src_dirs: &Vec<String>,
    dry_run: bool,
    no_mmap: bool,
    copy_empty_dst: bool,
) -> (begun: (GroupProcessor, Action))
    ensures
        begun.0.wf(),
        consistent(begun.0.model()),
        begun.0.label() == basename@,
        begun.0.model().facts.len() == paths.len(),
        forall|i: int|
            0 <= i < paths.len() ==> {
                let f = #[trigger] begun.0.model().facts[i];
                &&& f.path@ == paths[i]@
                &&& text_of(f.name) == file_name_of(paths[i]@)
                &&& text_of(f.parent) == parent_of(paths[i]@)
                &&& src_dirs.len() == 0 ==> !f.protected && !f.parent_protected
            },
        (begun.0.model(), begun.1) == begin_spec(
            begun.0.model().facts,
            GroupOptions { replace, dry_run, no_mmap, copy_empty_dst },
        ),
{
    let roots = clone_strings(src_dirs);
    assert(texts(roots@).len() == texts(src_dirs@).len());
    let filter = FileFilter::new(roots);
    let mut facts: Vec<PathFacts> = Vec::new();
    let mut i: usize = 0;
    while i < paths.len()
        invariant
            i <= paths.len(),
            facts.len() == i,
            filter.roots().len() == src_dirs.len(),
            forall|k: int|
                0 <= k < i ==> {
                    let f = #[trigger] facts@[k];
                    &&& f.path@ == paths[k]@
                    &&& text_of(f.name) == file_name_of(paths[k]@)
                    &&& text_of(f.parent) == parent_of(paths[k]@)
                    &&& src_dirs.len() == 0 ==> !f.protected && !f.parent_protected
                },
        decreases paths.len() - i,
    {
        facts.push(gather_facts(&filter, paths[i].as_str()));
        i += 1;
    }
    GroupProcessor::with_facts(
        facts,
        GroupOptions { replace, dry_run, no_mmap, copy_empty_dst },
        basename,
    )
}

/// A group whose candidates all lie within source roots is skipped at
/// once: no byte is processed, no file is named, and no action that
/// touches the file system is ever handed out.
pub proof fn lemma_protected_group_is_skipped(facts: Seq<PathFacts>, options: GroupOptions)
    requires
        facts.len() <= usize::MAX,
        forall|i: int| 0 <= i < facts.len() ==> (#[trigger] facts[i]).protected,
    ensures
        begin_spec(facts, options).1 == Action::Finish,
        begin_spec(facts, options).0.phase == Phase::Finished,
        begin_spec(facts, options).0.status == GroupStatus::Skipped,
        begin_spec(facts, options).0.bytes_processed == 0,
        begin_spec(facts, options).0.merged_files.len() == 0,
{
    lemma_unprotected(facts);
}

/// Whatever the event, the next state is consistent again, and a copy is
/// asked for only from a protected source into a destination that is not
/// protected.
pub proof fn lemma_copy_respects_protection(m: Model, e: EventView)
    requires
        consistent(m),
    ensures
        consistent(advance_spec(m, e).0),
        advance_spec(m, e).0.facts == m.facts,
        advance_spec(m, e).1 matches Action::Copy { src, dst } ==> src < m.facts.len() && dst
            < m.facts.len() && m.facts[src as int].protected && !m.facts[dst as int].protected,
{
    match m.phase {
        Phase::Sizing { dst, src } => {
            lemma_next_pair(m.facts, dst as int, src + 1);
        },
        Phase::Inspecting { dst, src, size } => {
            lemma_next_pair(m.facts, dst as int, src + 1);
            lemma_next_pair(m.facts, dst + 1, 0);
        },
        Phase::Copying { dst, src, size } => {
            lemma_next_pair(m.facts, dst + 1, 0);
        },
        _ => {},
    }
}

/// Every write step is for a candidate that is incomplete and not
/// protected, in a parent directory that is not protected. Without
/// `replace` the merged content goes into a sidecar beside the candidate,
/// named after it with `.merged` added, and the candidate itself is no
/// target; with `replace` it goes over the candidate itself.
pub proof fn lemma_planned_steps(
    facts: Seq<PathFacts>,
    writable: Seq<usize>,
    flags: Seq<bool>,
    replace: bool,
    upto: int,
)
    requires
        0 <= upto <= writable.len(),
        flags.len() == writable.len(),
    ensures
        planned(facts, writable, flags, replace, upto) matches Ok(steps) ==> forall|k: int|
            0 <= k < steps.len() ==> {
                let step = #[trigger] steps[k];
                let f = facts[step.candidate as int];
                exists|j: int|
                    0 <= j < upto && writable[j] == step.candidate && !flags[j] && !f.protected
                        && f.parent is Some && !f.parent_protected && step.dir == f.parent->0@
                        && step.replace == replace && (replace ==> step.target == f.path@) && (
                    !replace ==> f.name is Some && step.target == path_join(
                        f.parent->0@,
                        f.name->0@ + sidecar_suffix(),
                    ))
            },
    decreases upto,
{
    if upto > 0 {
        lemma_planned_steps(facts, writable, flags, replace, upto - 1);
        match planned(facts, writable, flags, replace, upto) {
            Ok(steps) => {
                let before = planned(facts, writable, flags, replace, upto - 1)->Ok_0;
                assert forall|k: int| 0 <= k < steps.len() implies {
                    let step = #[trigger] steps[k];
                    let f = facts[step.candidate as int];
                    exists|j: int|
                        0 <= j < upto && writable[j] == step.candidate && !flags[j] && !f.protected
                            && f.parent is Some && !f.parent_protected && step.dir
                            == f.parent->0@ && step.replace == replace && (replace ==> step.target
                            == f.path@) && (!replace ==> f.name is Some && step.target
                            == path_join(f.parent->0@, f.name->0@ + sidecar_suffix()))
                } by {
                    let step = steps[k];
                    let f = facts[step.candidate as int];
                    if k < before.len() {
                        assert(steps[k] == before[k]);
                        let j = choose|j: int|
                            0 <= j < upto - 1 && writable[j] == step.candidate && !flags[j]
                                && !f.protected && f.parent is Some && !f.parent_protected
                                && step.dir == f.parent->0@ && step.replace == replace && (replace
                                ==> step.target == f.path@) && (!replace ==> f.name is Some
                                && step.target == path_join(
                                f.parent->0@,
                                f.name->0@ + sidecar_suffix(),
                            ));
                        assert(0 <= j < upto && writable[j] == step.candidate && !flags[j]);
                    } else {
                        let j = upto - 1;
                        assert(0 <= j < upto && writable[j] == step.candidate && !flags[j]);
                    }
                }
            },
            Err(_) => {},
        }
    }
}

/// Candidates of length zero end the group as skipped, with no byte processed.
pub proof fn lemma_empty_files_are_skipped(m: Model)
    requires
        m.phase == Phase::Measuring,
    ensures
        advance_spec(m, EventView::Measured(0)).1 == Action::Finish,
        advance_spec(m, EventView::Measured(0)).0.status == GroupStatus::Skipped,
        advance_spec(m, EventView::Measured(0)).0.bytes_processed == 0,
        advance_spec(m, EventView::Measured(0)).0.merged_files.len() == 0,
{
}

/// Writable candidates of different lengths are an error of the group, not
/// a result: the group is given up, the error names the first candidate
/// that is not as long as the first one, and nothing is asked to be written.
pub proof fn lemma_size_mismatch_fails(m: Model, sizes: Seq<u64>, odd: int)
    requires
        m.phase == Phase::MeasuringAll,
        sizes.len() == unprotected(m.facts).len(),
        sizes[0] != 0,
        0 < odd < sizes.len(),
        sizes[odd] != sizes[0],
    ensures
        advance_spec(m, EventView::AllSizes(sizes)).1 == Action::Fail,
        advance_spec(m, EventView::AllSizes(sizes)).0.phase == Phase::Failed,
        advance_spec(m, EventView::AllSizes(sizes)).0.error matches Some(
            GroupError::SizeMismatch { index },
        ) && exists|j: int|
            0 < j <= odd && index == unprotected(m.facts)[j] && sizes[j] != sizes[0],
        advance_spec(m, EventView::AllSizes(sizes)).0.steps == m.steps,
{
    lemma_first_unequal(sizes, 1, odd);
    let j = first_unequal(sizes, 1);
    assert(0 < j <= odd && sizes[j] != sizes[0]);
}

/// The first length that differs from the first one lies at or before any
/// length that differs.
proof fn lemma_first_unequal(sizes: Seq<u64>, from: int, odd: int)
    requires
        0 <= from <= odd < sizes.len(),
        sizes[odd] != sizes[0],
    ensures
        from <= first_unequal(sizes, from) <= odd,
        sizes[first_unequal(sizes, from)] != sizes[0],
    decreases odd - from,
{
    if sizes[from] == sizes[0] {
        lemma_first_unequal(sizes, from + 1, odd);
    }
}

/// A scan that finds every candidate complete ends the group as skipped
/// and names no file: merging a group again after its files were made
/// identical changes nothing.
pub proof fn lemma_complete_group_is_skipped(m: Model, flags: Seq<bool>)
    requires
        m.phase == Phase::Scanning,
        flags.len() == unprotected(m.facts).len(),
        all_set(flags),
    ensures
        advance_spec(m, EventView::Merged(flags)).1 == Action::Finish,
        advance_spec(m, EventView::Merged(flags)).0.status == GroupStatus::Skipped,
        advance_spec(m, EventView::Merged(flags)).0.merged_files.len() == 0,
{
}

/// A conflict ends the group as failed, names no file and asks for no write.
pub proof fn lemma_conflict_fails(m: Model)
    requires
        m.phase == Phase::Scanning,
    ensures
        advance_spec(m, EventView::Conflict).1 == Action::Finish,
        advance_spec(m, EventView::Conflict).0.status == GroupStatus::Failed,
        advance_spec(m, EventView::Conflict).0.merged_files.len() == 0,
{
}

/// A dry run decides as a real run does: after the scan it ends at once
/// with the status and the files that the real run ends with once its
/// writes are done.
pub proof fn lemma_dry_run_decides_alike(m: Model, flags: Seq<bool>)
    requires
        m.phase == Phase::Scanning,
        !m.options.dry_run,
    ensures
        ({
            let dry = Model { options: GroupOptions { dry_run: true, ..m.options }, ..m };
            let live = advance_spec(m, EventView::Merged(flags));
            let rehearsed = advance_spec(dry, EventView::Merged(flags));
            let ended = if live.1 == Action::Write {
                advance_spec(live.0, EventView::Written)
            } else {
                live
            };
            &&& rehearsed.1 != Action::Write
            &&& rehearsed.1 == ended.1
            &&& rehearsed.0.phase == ended.0.phase
            &&& rehearsed.0.status == ended.0.status
            &&& rehearsed.0.bytes_processed == ended.0.bytes_processed
            &&& rehearsed.0.merged_files == ended.0.merged_files
            &&& rehearsed.0.error == ended.0.error
        }),
{
}

/// Merging a group whose files are byte-identical finds them sane and all
/// complete, so the group ends as skipped and no file is named.
pub proof fn lemma_identical_files_are_skipped(m: Model, sources: Seq<Seq<u8>>, size: nat)
    requires
        m.phase == Phase::Scanning,
        sources.len() == unprotected(m.facts).len(),
        crate::overlay::same_length(sources, size),
        forall|i: int, j: int|
            0 <= i < sources.len() && 0 <= j < sources.len() ==> #[trigger] sources[i]
                == #[trigger] sources[j],
    ensures
        crate::overlay::sane(sources, size),
        all_set(crate::overlay::completeness(sources, size)),
        advance_spec(m, EventView::Merged(crate::overlay::completeness(sources, size))).1
            == Action::Finish,
        advance_spec(m, EventView::Merged(crate::overlay::completeness(sources, size))).0.status
            == GroupStatus::Skipped,
        advance_spec(
            m,
            EventView::Merged(crate::overlay::completeness(sources, size)),
        ).0.merged_files.len() == 0,
{
    crate::overlay::lemma_identical_sources_complete(sources, size);
}

} // verus!
