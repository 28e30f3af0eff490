//! Protection of read-only source roots.
//!
//! A path is protected when its canonical form lies within the canonical
//! form of a configured source root. Canonical forms come from the file
//! system and are asked for anew on every call.

use vstd::prelude::*;
use crate::paths::{canonical_form, path_within, starts_with, text_of, texts};

verus! {

/// The texts of a list of optional strings.
pub open spec fn optional_texts(list: Seq<Option<String>>) -> Seq<Option<Seq<char>>> {
    Seq::new(list.len(), |i: int| text_of(list[i]))
}

/// A canonical path is covered by canonical roots when it exists and lies
/// within one of the roots that exist.
pub open spec fn covered(canonical: Option<Seq<char>>, roots: Seq<Option<Seq<char>>>) -> bool {
    canonical is Some && exists|i: int|
        0 <= i < roots.len() && (#[trigger] roots[i]) is Some && path_within(
            canonical->0,
            roots[i]->0,
        )
}

/// The items of `items` whose flag in `keep` is set, in their order.
pub open spec fn kept<T>(items: Seq<T>, keep: Seq<bool>) -> Seq<T>
    decreases items.len(),
{
    if items.len() == 0 {
        Seq::empty()
    } else if keep.last() {
        kept(items.drop_last(), keep.drop_last()).push(items.last())
    } else {
        kept(items.drop_last(), keep.drop_last())
    }
}

/// Decides protection from canonical forms that were already looked up: a
/// path whose canonical form is unknown is not protected, and a root
/// whose canonical form is unknown protects nothing.
pub fn is_protected(canonical: &Option<String>, roots: &Vec<Option<String>>) -> (protected: bool)
    ensures
        protected == covered(text_of(*canonical), optional_texts(roots@)),
{
    let path = match canonical {
        Some(path) => path,
        None => {
            return false;
        },
    };
    let ghost all = optional_texts(roots@);
    let mut i: usize = 0;
    while i < roots.len()
        invariant
            i <= roots.len(),
            all == optional_texts(roots@),
            text_of(*canonical) == Some(path@),
            forall|k: int|
                0 <= k < i ==> !((#[trigger] all[k]) is Some && path_within(path@, all[k]->0)),
        decreases roots.len() - i,
    {
        assert(all[i as int] == text_of(roots[i as int]));
        match &roots[i] {
            Some(root) => {
                if starts_with(path.as_str(), root.as_str()) {
                    assert(all[i as int] is Some && path_within(path@, all[i as int]->0));
                    return true;
                }
            },
            None => {},
        }
        i += 1;
    }
    false
}

/// Copies the strings whose flag is set, in their order.
pub fn select_marked(items: &Vec<String>, keep: &Vec<bool>) -> (chosen: Vec<String>)
    requires
        keep.len() == items.len(),
    ensures
        texts(chosen@) == kept(texts(items@), keep@),
{
    let mut chosen: Vec<String> = Vec::new();
    let mut i: usize = 0;
    assert(texts(items@).take(0) =~= Seq::empty());
    while i < items.len()
        invariant
            i <= items.len(),
            keep.len() == items.len(),
            texts(chosen@) == kept(texts(items@).take(i as int), keep@.take(i as int)),
        decreases items.len() - i,
    {
        proof {
            let t = texts(items@).take(i + 1);
            let k = keep@.take(i + 1);
            assert(t.drop_last() =~= texts(items@).take(i as int));
            assert(k.drop_last() =~= keep@.take(i as int));
            assert(t.last() == items@[i as int]@);
            assert(k.last() == keep@[i as int]);
        }
        if keep[i] {
            let ghost before = texts(chosen@);
            chosen.push(items[i].clone());
            assert(texts(chosen@) =~= before.push(items@[i as int]@));
        }
        i += 1;
    }
    assert(texts(items@).take(items.len() as int) =~= texts(items@));
    assert(keep@.take(items.len() as int) =~= keep@);
    chosen
}

/// Where every flag is set, everything is kept.
pub proof fn lemma_kept_all<T>(items: Seq<T>, keep: Seq<bool>)
    requires
        keep.len() == items.len(),
        forall|i: int| 0 <= i < keep.len() ==> keep[i],
    ensures
        kept(items, keep) == items,
    decreases items.len(),
{
    if items.len() > 0 {
        lemma_kept_all(items.drop_last(), keep.drop_last());
        assert(items.drop_last().push(items.last()) =~= items);
    } else {
        assert(items =~= Seq::empty());
    }
}

/// Where no flag is set, nothing is kept; and nothing is kept only then.
pub proof fn lemma_kept_none<T>(items: Seq<T>, keep: Seq<bool>)
    requires
        keep.len() == items.len(),
    ensures
        kept(items, keep).len() <= items.len(),
        kept(items, keep).len() == 0 <==> forall|i: int| 0 <= i < keep.len() ==> !keep[i],
    decreases items.len(),
{
    if items.len() > 0 {
        lemma_kept_none(items.drop_last(), keep.drop_last());
        if !keep.last() {
            assert forall|i: int| 0 <= i < keep.len() && (forall|j: int|
                0 <= j < keep.len() - 1 ==> !keep.drop_last()[j]) implies !keep[i] by {
                if i < keep.len() - 1 {
                    assert(!keep.drop_last()[i]);
                }
            }
            if forall|i: int| 0 <= i < keep.len() ==> !keep[i] {
                assert forall|j: int| 0 <= j < keep.len() - 1 implies !keep.drop_last()[j] by {
                    assert(!keep[j]);
                }
            }
        }
    }
}

/// Decides which paths may be written, given the read-only source roots.
pub struct FileFilter {
    src_dirs: Vec<String>,
}

impl FileFilter {
    /// The configured source roots.
    pub closed spec fn roots(&self) -> Seq<String> {
        self.src_dirs@
    }

    /// A filter that protects what lies within `src_dirs`.
    pub fn new(src_dirs: Vec<String>) -> (filter: FileFilter)
        ensures
            filter.roots() == src_dirs@,
    {
        FileFilter { src_dirs }
    }

    /// The configured source roots.
    pub fn src_dirs(&self) -> (dirs: &Vec<String>)
        ensures
            dirs@ == self.roots(),
    {
        &self.src_dirs
    }

    /// May `path` be written? It may unless it is protected.
    pub fn is_writable(&self, path: &str) -> (writable: bool)
        ensures
            self.roots().len() == 0 ==> writable,
            exists|canonical: Option<Seq<char>>, roots: Seq<Option<Seq<char>>>|
                roots.len() == self.roots().len() && writable == !#[trigger] covered(
                    canonical,
                    roots,
                ),
    {
        !self.is_in_src_dir(path)
    }

    /// Is `path` protected? The canonical forms of the path and of every
    /// root are looked up on each call, and the answer is the one that they
    /// give, whatever they are; with no roots nothing is protected.
    pub fn is_in_src_dir(&self, path: &str) -> (protected: bool)
        ensures
            self.roots().len() == 0 ==> !protected,
            exists|canonical: Option<Seq<char>>, roots: Seq<Option<Seq<char>>>|
                roots.len() == self.roots().len() && protected == #[trigger] covered(
                    canonical,
                    roots,
                ),
    {
        let canonical = canonical_form(path);
        if canonical.is_none() {
            proof {
                let none = Seq::new(self.roots().len(), |i: int| None::<Seq<char>>);
                assert(none.len() == self.roots().len() && !covered(None, none));
            }
            return false;
        }
        let mut roots: Vec<Option<String>> = Vec::new();
        let mut i: usize = 0;
        while i < self.src_dirs.len()
            invariant
                i <= self.src_dirs.len(),
                roots.len() == i,
            decreases self.src_dirs.len() - i,
        {
            roots.push(canonical_form(self.src_dirs[i].as_str()));
            i += 1;
        }
        let protected = is_protected(&canonical, &roots);
        proof {
            let found = optional_texts(roots@);
            assert(found.len() == self.roots().len() && protected == covered(
                text_of(canonical),
                found,
            ));
        }
        protected
    }

    /// The paths that may be written, in their order.
    pub fn filter_writable_paths(&self, paths: &Vec<String>) -> (writable: Vec<String>)
        ensures
            exists|keep: Seq<bool>|
                keep.len() == paths.len() && texts(writable@) == #[trigger] kept(
                    texts(paths@),
                    keep,
                ),
            self.roots().len() == 0 ==> texts(writable@) == texts(paths@),
    {
        let mut keep: Vec<bool> = Vec::new();
        let mut i: usize = 0;
        while i < paths.len()
            invariant
                i <= paths.len(),
                keep.len() == i,
                self.roots().len() == 0 ==> forall|k: int| 0 <= k < i ==> keep[k],
            decreases paths.len() - i,
        {
            keep.push(self.is_writable(paths[i].as_str()));
            i += 1;
        }
        proof {
            if self.roots().len() == 0 {
                lemma_kept_all(texts(paths@), keep@);
            }
        }
        select_marked(paths, &keep)
    }
}

} // verus!
