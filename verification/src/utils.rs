//! Bookkeeping of a run: temporary files to clean up, unique numbers, and
//! the totals of what the groups came to.

use vstd::prelude::*;
use crate::chunk::BUFFER_SIZE;
use crate::group::GroupStatus;
use crate::paths::texts;

verus! {

/// The temporary files that are still to be deleted.
pub struct TempRegistry {
    paths: Vec<String>,
}

impl TempRegistry {
    /// The registered paths, in the order in which they were registered.
    pub closed spec fn pending(&self) -> Seq<Seq<char>> {
        texts(self.paths@)
    }

    /// A registry with nothing registered.
    pub fn new() -> (registry: TempRegistry)
        ensures
            registry.pending() == Seq::<Seq<char>>::empty(),
    {
        let registry = TempRegistry { paths: Vec::new() };
        assert(registry.pending() =~= Seq::<Seq<char>>::empty());
        registry
    }

    /// Number of registered paths.
    pub fn len(&self) -> (n: usize)
        ensures
            n == self.pending().len(),
    {
        self.paths.len()
    }

    /// Takes `path` off the registry, wherever it stands in it: the file
    /// was kept or deleted. The other paths stay in their order.
    pub fn deregister(&mut self, path: &str)
        ensures
            final(self).pending() == old(self).pending().filter(|p: Seq<char>| p != path@),
    {
        let wanted: String = path.to_owned();
        let ghost before = texts(self.paths@);
        let ghost pred = |p: Seq<char>| p != path@;
        let mut all: Vec<String> = Vec::new();
        core::mem::swap(&mut all, &mut self.paths);
        assert(texts(self.paths@) =~= Seq::<Seq<char>>::empty());
        assert(before.take(0) =~= Seq::<Seq<char>>::empty());
        let mut i: usize = 0;
        while i < all.len()
            invariant
                i <= all.len(),
                texts(all@) == before,
                wanted@ == path@,
                pred == |p: Seq<char>| p != path@,
                texts(self.paths@) == before.take(i as int).filter(pred),
            decreases all.len() - i,
        {
            proof {
                assert(before[i as int] == all@[i as int]@);
                assert(before.take(i + 1) =~= before.take(i as int).push(before[i as int]));
                lemma_filter_push(before.take(i as int), before[i as int], pred);
            }
            if all[i] != wanted {
                let ghost kept = texts(self.paths@);
                self.paths.push(all[i].clone());
                assert(texts(self.paths@) =~= kept.push(before[i as int]));
            }
            i += 1;
        }
        assert(before.take(all.len() as int) =~= before);
    }
}

/// Filtering a sequence with one more item at its end.
proof fn lemma_filter_push<A>(s: Seq<A>, item: A, pred: spec_fn(A) -> bool)
    ensures
        s.push(item).filter(pred) == if pred(item) {
            s.filter(pred).push(item)
        } else {
            s.filter(pred)
        },
{
    reveal(Seq::filter);
    assert(s.push(item).drop_last() =~= s);
}

/// Registers a temporary file for deletion at the end of the run.
pub fn register_temp_file(registry: &mut TempRegistry, path: String)
    ensures
        final(registry).pending() == old(registry).pending().push(path@),
{
    let ghost before = texts(registry.paths@);
    registry.paths.push(path);
    assert(texts(registry.paths@) =~= before.push(path@));
}

/// Hands out every registered path for deletion and leaves the registry empty.
pub fn cleanup_temp_files(registry: &mut TempRegistry) -> (doomed: Vec<String>)
    ensures
        texts(doomed@) == old(registry).pending(),
        final(registry).pending() == Seq::<Seq<char>>::empty(),
{
    let mut doomed: Vec<String> = Vec::new();
    core::mem::swap(&mut doomed, &mut registry.paths);
    assert(texts(registry.paths@) =~= Seq::<Seq<char>>::empty());
    doomed
}

/// A source of numbers that differ from one another.
pub struct IdCounter {
    next: usize,
}

impl IdCounter {
    /// The number that is handed out next.
    pub closed spec fn upcoming(&self) -> usize {
        self.next
    }

    /// A counter that starts at one.
    pub fn new() -> (counter: IdCounter)
        ensures
            counter.upcoming() == 1,
    {
        IdCounter { next: 1 }
    }
}

/// Hands out the next number. Numbers go up by one; after the greatest
/// number the counter starts again at zero.
pub fn get_unique_id(counter: &mut IdCounter) -> (id: usize)
    ensures
        id == old(counter).upcoming(),
        final(counter).upcoming() == if id == usize::MAX {
            0
        } else {
            (id + 1) as usize
        },
{
    let id = counter.next;
    counter.next = if id == usize::MAX {
        0
    } else {
        id + 1
    };
    id
}

/// The totals of a run.
#[derive(Debug, Clone, Copy, PartialEq, Eq, Structural)]
pub struct RunSummary {
    pub processed: usize,
    pub merged: usize,
    pub skipped: usize,
    pub failed: usize,
    /// Groups that were given up with an error.
    pub errored: usize,
}

/// How many of the outcomes are `wanted`.
pub open spec fn count_of(outcomes: Seq<Option<GroupStatus>>, wanted: Option<GroupStatus>) -> nat
    decreases outcomes.len(),
{
    if outcomes.len() == 0 {
        0
    } else {
        count_of(outcomes.drop_last(), wanted) + if outcomes.last() == wanted {
            1nat
        } else {
            0nat
        }
    }
}

/// Adds up what the groups of a run came to. An outcome of `None` stands
/// for a group that was given up with an error; such a group does not
/// count as processed.
pub fn summarize(outcomes: &Vec<Option<GroupStatus>>) -> (summary: RunSummary)
    ensures
        summary.merged == count_of(outcomes@, Some(GroupStatus::Merged)),
        summary.skipped == count_of(outcomes@, Some(GroupStatus::Skipped)),
        summary.failed == count_of(outcomes@, Some(GroupStatus::Failed)),
        summary.errored == count_of(outcomes@, None),
        summary.processed == outcomes.len() - summary.errored,
        summary.processed == summary.merged + summary.skipped + summary.failed,
{
    let mut summary = RunSummary { processed: 0, merged: 0, skipped: 0, failed: 0, errored: 0 };
    let mut i: usize = 0;
    assert(outcomes@.take(0) =~= Seq::empty());
    while i < outcomes.len()
        invariant
            i <= outcomes.len(),
            summary.merged == count_of(outcomes@.take(i as int), Some(GroupStatus::Merged)),
            summary.skipped == count_of(outcomes@.take(i as int), Some(GroupStatus::Skipped)),
            summary.failed == count_of(outcomes@.take(i as int), Some(GroupStatus::Failed)),
            summary.errored == count_of(outcomes@.take(i as int), None),
            summary.processed == summary.merged + summary.skipped + summary.failed,
            summary.processed + summary.errored == i,
        decreases outcomes.len() - i,
    {
        proof {
            let t = outcomes@.take(i + 1);
            assert(t.drop_last() =~= outcomes@.take(i as int));
            assert(t.last() == outcomes@[i as int]);
        }
        match outcomes[i] {
            Some(GroupStatus::Merged) => {
                summary.merged = summary.merged + 1;
                summary.processed = summary.processed + 1;
            },
            Some(GroupStatus::Skipped) => {
                summary.skipped = summary.skipped + 1;
                summary.processed = summary.processed + 1;
            },
            Some(GroupStatus::Failed) => {
                summary.failed = summary.failed + 1;
                summary.processed = summary.processed + 1;
            },
            None => {
                summary.errored = summary.errored + 1;
            },
        }
        i += 1;
    }
    assert(outcomes@.take(outcomes.len() as int) =~= outcomes@);
    summary
}

/// Is the content all holes? Content without a byte is not.
pub fn is_file_all_nulls(content: &[u8]) -> (all_nulls: bool)
    ensures
        all_nulls == (content@.len() > 0 && forall|p: int|
            0 <= p < content@.len() ==> content@[p] == 0),
{
    if content.len() == 0 {
        return false;
    }
    let mut p: usize = 0;
    while p < content.len()
        invariant
            p <= content.len(),
            forall|q: int| 0 <= q < p ==> content@[q] == 0,
        decreases content.len() - p,
    {
        if content[p] != 0 {
            return false;
        }
        p += 1;
    }
    true
}

/// Does the content hold a data byte?
pub fn file_has_data(content: &[u8]) -> (has_data: bool)
    ensures
        has_data == exists|p: int| 0 <= p < content@.len() && content@[p] != 0,
{
    let mut p: usize = 0;
    while p < content.len()
        invariant
            p <= content.len(),
            forall|q: int| 0 <= q < p ==> content@[q] == 0,
        decreases content.len() - p,
    {
        if content[p] != 0 {
            return true;
        }
        p += 1;
    }
    false
}

/// Is a file of `size` bytes, when it is looked into, better mapped than
/// read? It is when it is longer than one chunk.
pub fn inspect_by_mapping(size: u64) -> (mapped: bool)
    ensures
        mapped == (size > BUFFER_SIZE),
{
    size > BUFFER_SIZE as u64
}

/// The index of the unit in which a number of bytes is shown: bytes,
/// then steps of 1024 up to the fourth.
pub open spec fn unit_of(bytes: u64) -> nat {
    if bytes < 1024 {
        0
    } else if bytes < 1048576 {
        1
    } else if bytes < 1073741824 {
        2
    } else if bytes < 1099511627776 {
        3
    } else {
        4
    }
}

/// The index of the unit in which a number of bytes is shown.
pub fn size_unit(bytes: u64) -> (unit: usize)
    ensures
        unit == unit_of(bytes),
{
    if bytes < 1024 {
        0
    } else if bytes < 1048576 {
        1
    } else if bytes < 1073741824 {
        2
    } else if bytes < 1099511627776 {
        3
    } else {
        4
    }
}

} // verus!
