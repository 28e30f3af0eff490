//! Which files and directories a run looks at.

use vstd::prelude::*;
use crate::fuzzy::chars_of;
use crate::paths::{extension, extension_of, path_within, starts_with, texts};

verus! {

/// The code of a character, with the capital letters of ASCII taken as
/// their small ones.
pub open spec fn folded(c: char) -> int {
    if 'A' <= c <= 'Z' {
        c as int + 32
    } else {
        c as int
    }
}

/// Two texts are the same but for the case of ASCII letters.
pub open spec fn same_but_case(a: Seq<char>, b: Seq<char>) -> bool {
    a.len() == b.len() && forall|i: int| 0 <= i < a.len() ==> folded(#[trigger] a[i]) == folded(b[i])
}

/// One of the extensions is `ext` but for the case of ASCII letters.
pub open spec fn extension_listed(ext: Seq<char>, extensions: Seq<Seq<char>>) -> bool {
    exists|i: int| 0 <= i < extensions.len() && same_but_case(#[trigger] extensions[i], ext)
}

/// A file is wanted when it has at least `min_size` bytes and, where
/// extensions are given, its extension is one of them.
pub open spec fn wanted(path: Seq<char>, size: u64, min_size: u64, extensions: Seq<Seq<char>>) -> bool {
    size >= min_size && (extensions.len() == 0 || (extension_of(path) matches Some(ext)
        && extension_listed(ext, extensions)))
}

/// A directory is excluded when it lies within one of the excluded directories.
pub open spec fn excluded(dir: Seq<char>, exclude_dirs: Seq<Seq<char>>) -> bool {
    exists|i: int| 0 <= i < exclude_dirs.len() && path_within(dir, #[trigger] exclude_dirs[i])
}

/// The code of a character with capital ASCII letters taken as small ones.
fn fold(c: char) -> (code: u32)
    ensures
        code == folded(c),
{
    let code: u32 = c as u32;
    if 'A' <= c && c <= 'Z' {
        code + 32
    } else {
        code
    }
}

/// Are two texts the same but for the case of ASCII letters?
pub fn eq_ignore_ascii_case(a: &str, b: &str) -> (same: bool)
    ensures
        same == same_but_case(a@, b@),
{
    let left = chars_of(a);
    let right = chars_of(b);
    if left.len() != right.len() {
        return false;
    }
    let mut i: usize = 0;
    while i < left.len()
        invariant
            i <= left.len(),
            left.len() == right.len(),
            left@ == a@,
            right@ == b@,
            forall|k: int| 0 <= k < i ==> folded(#[trigger] a@[k]) == folded(b@[k]),
        decreases left.len() - i,
    {
        if fold(left[i]) != fold(right[i]) {
            return false;
        }
        i += 1;
    }
    true
}

/// Is the file at `path` with `size` bytes wanted?
pub fn is_wanted(path: &str, size: u64, min_size: u64, extensions: &Vec<String>) -> (yes: bool)
    ensures
        yes == wanted(path@, size, min_size, texts(extensions@)),
{
    if size < min_size {
        return false;
    }
    if extensions.len() == 0 {
        return true;
    }
    let ext = match extension(path) {
        Some(ext) => ext,
        None => {
            return false;
        },
    };
    let ghost listed = texts(extensions@);
    let mut i: usize = 0;
    while i < extensions.len()
        invariant
            i <= extensions.len(),
            extensions.len() > 0,
            size >= min_size,
            listed == texts(extensions@),
            extension_of(path@) == Some(ext@),
            forall|k: int| 0 <= k < i ==> !same_but_case(#[trigger] listed[k], ext@),
        decreases extensions.len() - i,
    {
        assert(listed[i as int] == extensions@[i as int]@);
        if eq_ignore_ascii_case(extensions[i].as_str(), ext.as_str()) {
            assert(same_but_case(listed[i as int], ext@));
            assert(extension_listed(ext@, listed));
            return true;
        }
        i += 1;
    }
    false
}

/// Is the directory excluded?
pub fn is_excluded(dir: &str, exclude_dirs: &Vec<String>) -> (yes: bool)
    ensures
        yes == excluded(dir@, texts(exclude_dirs@)),
{
    let ghost all = texts(exclude_dirs@);
    let mut i: usize = 0;
    while i < exclude_dirs.len()
        invariant
            i <= exclude_dirs.len(),
            all == texts(exclude_dirs@),
            forall|k: int| 0 <= k < i ==> !path_within(dir@, #[trigger] all[k]),
        decreases exclude_dirs.len() - i,
    {
        assert(all[i as int] == exclude_dirs@[i as int]@);
        if starts_with(dir, exclude_dirs[i].as_str()) {
            return true;
        }
        i += 1;
    }
    false
}

/// Is one of the directories excluded?
pub fn any_excluded(dirs: &Vec<String>, exclude_dirs: &Vec<String>) -> (yes: bool)
    ensures
        yes == exists|i: int|
            0 <= i < dirs.len() && excluded(#[trigger] texts(dirs@)[i], texts(exclude_dirs@)),
{
    let ghost all = texts(dirs@);
    let mut i: usize = 0;
    while i < dirs.len()
        invariant
            i <= dirs.len(),
            all == texts(dirs@),
            forall|k: int| 0 <= k < i ==> !excluded(#[trigger] all[k], texts(exclude_dirs@)),
        decreases dirs.len() - i,
    {
        assert(all[i as int] == dirs@[i as int]@);
        if is_excluded(dirs[i].as_str(), exclude_dirs) {
            return true;
        }
        i += 1;
    }
    false
}

} // verus!
