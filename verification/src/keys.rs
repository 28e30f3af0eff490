//! The keys by which files are put into groups.

use vstd::prelude::*;
use vstd::string::StringExecFns;
use crate::paths::{extension, extension_of, file_name, file_name_of, texts};

verus! {

/// What makes two files candidates for one group.
#[derive(Debug, Clone, Copy, PartialEq, Eq, Structural)]
pub enum DedupKey {
    FilenameAndSize,
    SizeOnly,
    ExtensionAndSize,
}

/// The key of a file under one of the ways to group.
#[derive(Debug, Clone, PartialEq, Eq, Hash)]
pub enum GroupKey {
    FilenameAndSize(String, u64),
    SizeOnly(u64),
    ExtensionAndSize(String, u64),
}

/// A key as a mathematical value.
pub enum KeyView {
    FilenameAndSize(Seq<char>, u64),
    SizeOnly(u64),
    ExtensionAndSize(Seq<char>, u64),
}

/// The name that stands in for a file name that a path does not have.
pub open spec fn unknown_name() -> Seq<char> {
    "unknown"@
}

/// The key of the file at `path` with `size` bytes.
pub open spec fn key_of(path: Seq<char>, size: u64, mode: DedupKey) -> KeyView {
    match mode {
        DedupKey::FilenameAndSize => KeyView::FilenameAndSize(
            match file_name_of(path) {
                Some(name) => name,
                None => unknown_name(),
            },
            size,
        ),
        DedupKey::SizeOnly => KeyView::SizeOnly(size),
        DedupKey::ExtensionAndSize => KeyView::ExtensionAndSize(
            match extension_of(path) {
                Some(ext) => ext,
                None => Seq::empty(),
            },
            size,
        ),
    }
}

/// The decimal digit for a number below ten.
pub open spec fn digit_char(d: nat) -> char {
    if d == 0 {
        '0'
    } else if d == 1 {
        '1'
    } else if d == 2 {
        '2'
    } else if d == 3 {
        '3'
    } else if d == 4 {
        '4'
    } else if d == 5 {
        '5'
    } else if d == 6 {
        '6'
    } else if d == 7 {
        '7'
    } else if d == 8 {
        '8'
    } else {
        '9'
    }
}

/// The decimal digits of a number, without leading zeros.
pub open spec fn digits_of(n: nat) -> Seq<char>
    decreases n,
{
    if n < 10 {
        seq![digit_char(n)]
    } else {
        digits_of(n / 10).push(digit_char(n % 10))
    }
}

/// The name under which the group of a key is reported: the file name and
/// the size with `@` between them, `size-` and the size, or the extension
/// and the size with a dot between them.
pub open spec fn name_of(key: KeyView) -> Seq<char> {
    match key {
        KeyView::FilenameAndSize(name, size) => name + seq!['@'] + digits_of(size as nat),
        KeyView::SizeOnly(size) => seq!['s', 'i', 'z', 'e', '-'] + digits_of(size as nat),
        KeyView::ExtensionAndSize(ext, size) => ext + seq!['.'] + digits_of(size as nat),
    }
}

/// The text of one decimal digit.
fn digit_text(d: u64) -> (text: &'static str)
    requires
        d < 10,
    ensures
        text@ == seq![digit_char(d as nat)],
{
    proof {
        reveal_strlit("0");
        reveal_strlit("1");
        reveal_strlit("2");
        reveal_strlit("3");
        reveal_strlit("4");
        reveal_strlit("5");
        reveal_strlit("6");
        reveal_strlit("7");
        reveal_strlit("8");
        reveal_strlit("9");
    }
    let text = if d == 0 {
        "0"
    } else if d == 1 {
        "1"
    } else if d == 2 {
        "2"
    } else if d == 3 {
        "3"
    } else if d == 4 {
        "4"
    } else if d == 5 {
        "5"
    } else if d == 6 {
        "6"
    } else if d == 7 {
        "7"
    } else if d == 8 {
        "8"
    } else {
        "9"
    };
    assert(text@ =~= seq![digit_char(d as nat)]);
    text
}

/// A number in decimal digits.
pub fn decimal(n: u64) -> (text: String)
    ensures
        text@ == digits_of(n as nat),
    decreases n,
{
    if n < 10 {
        digit_text(n).to_owned()
    } else {
        let mut text = decimal(n / 10);
        text.append(digit_text(n % 10));
        assert(text@ =~= digits_of((n / 10) as nat).push(digit_char((n % 10) as nat)));
        text
    }
}

impl GroupKey {
    pub open spec fn view(&self) -> KeyView {
        match self {
            GroupKey::FilenameAndSize(name, size) => KeyView::FilenameAndSize(name@, *size),
            GroupKey::SizeOnly(size) => KeyView::SizeOnly(*size),
            GroupKey::ExtensionAndSize(ext, size) => KeyView::ExtensionAndSize(ext@, *size),
        }
    }

    /// The key of the file at `path` with `size` bytes. A path without a
    /// file name counts as named `unknown`, one without an extension as
    /// having the empty extension.
    pub fn from_file_info(path: &str, size: u64, mode: &DedupKey) -> (key: GroupKey)
        ensures
            key@ == key_of(path@, size, *mode),
    {
        match mode {
            DedupKey::FilenameAndSize => {
                let name = match file_name(path) {
                    Some(name) => name,
                    None => "unknown".to_owned(),
                };
                GroupKey::FilenameAndSize(name, size)
            },
            DedupKey::SizeOnly => GroupKey::SizeOnly(size),
            DedupKey::ExtensionAndSize => {
                let ext = match extension(path) {
                    Some(ext) => ext,
                    None => String::new(),
                };
                GroupKey::ExtensionAndSize(ext, size)
            },
        }
    }

    /// Are two keys the same?
    pub fn same_as(&self, other: &GroupKey) -> (same: bool)
        ensures
            same == (self@ == other@),
    {
        match (self, other) {
            (GroupKey::FilenameAndSize(a, x), GroupKey::FilenameAndSize(b, y)) => *x == *y && *a
                == *b,
            (GroupKey::SizeOnly(x), GroupKey::SizeOnly(y)) => *x == *y,
            (GroupKey::ExtensionAndSize(a, x), GroupKey::ExtensionAndSize(b, y)) => *x == *y && *a
                == *b,
            _ => false,
        }
    }

    /// The name under which the group of the key is reported.
    pub fn group_name(&self) -> (name: String)
        ensures
            name@ == name_of(self@),
    {
        proof {
            reveal_strlit("@");
            reveal_strlit("size-");
            reveal_strlit(".");
        }
        match self {
            GroupKey::FilenameAndSize(base, size) => {
                let mut name = base.clone();
                name.append("@");
                name.append(decimal(*size).as_str());
                assert("@"@ =~= seq!['@']);
                name
            },
            GroupKey::SizeOnly(size) => {
                let mut name = "size-".to_owned();
                name.append(decimal(*size).as_str());
                assert("size-"@ =~= seq!['s', 'i', 'z', 'e', '-']);
                name
            },
            GroupKey::ExtensionAndSize(ext, size) => {
                let mut name = ext.clone();
                name.append(".");
                name.append(decimal(*size).as_str());
                assert("."@ =~= seq!['.']);
                name
            },
        }
    }
}

/// A group: the files that share one key, in the order in which they were found.
#[derive(Debug)]
pub struct FileGroup {
    pub key: GroupKey,
    pub paths: Vec<String>,
}

/// The keys of a list of files.
pub open spec fn key_views(keys: Seq<GroupKey>) -> Seq<KeyView> {
    Seq::new(keys.len(), |i: int| keys[i]@)
}

/// The paths among the first `upto` whose key is `key`, in their order.
pub open spec fn members(keys: Seq<KeyView>, paths: Seq<Seq<char>>, key: KeyView, upto: int) -> Seq<
    Seq<char>,
>
    decreases upto,
{
    if upto <= 0 {
        Seq::empty()
    } else if keys[upto - 1] == key {
        members(keys, paths, key, upto - 1).push(paths[upto - 1])
    } else {
        members(keys, paths, key, upto - 1)
    }
}

/// No file before `i` has the key of file `i`.
pub open spec fn first_with_key(keys: Seq<KeyView>, i: int) -> bool {
    forall|j: int| 0 <= j < i ==> keys[j] != keys[i]
}

/// The paths and sizes of a list of files.
pub open spec fn file_paths(files: Seq<(String, u64)>) -> Seq<Seq<char>> {
    Seq::new(files.len(), |i: int| files[i].0@)
}

/// The keys of a list of files under one way to group.
pub open spec fn file_keys(files: Seq<(String, u64)>, mode: DedupKey) -> Seq<KeyView> {
    Seq::new(files.len(), |i: int| key_of(files[i].0@, files[i].1, mode))
}

impl GroupKey {
    /// A copy of the key.
    pub fn duplicate(&self) -> (copy: GroupKey)
        ensures
            copy@ == self@,
    {
        match self {
            GroupKey::FilenameAndSize(name, size) => GroupKey::FilenameAndSize(name.clone(), *size),
            GroupKey::SizeOnly(size) => GroupKey::SizeOnly(*size),
            GroupKey::ExtensionAndSize(ext, size) => GroupKey::ExtensionAndSize(ext.clone(), *size),
        }
    }
}

/// Is the key at `i` met before `i`?
fn seen_before(keys: &Vec<GroupKey>, i: usize) -> (seen: bool)
    requires
        i < keys.len(),
    ensures
        seen == !first_with_key(key_views(keys@), i as int),
{
    let ghost views = key_views(keys@);
    let mut j: usize = 0;
    while j < i
        invariant
            j <= i,
            i < keys.len(),
            views == key_views(keys@),
            forall|k: int| 0 <= k < j ==> views[k] != views[i as int],
        decreases i - j,
    {
        if keys[j].same_as(&keys[i]) {
            assert(views[j as int] == views[i as int]);
            return true;
        }
        j += 1;
    }
    false
}

/// The paths of the files whose key is the key at `i`, in their order.
fn members_of(files: &Vec<(String, u64)>, keys: &Vec<GroupKey>, i: usize) -> (paths: Vec<String>)
    requires
        i < keys.len(),
        keys.len() == files.len(),
    ensures
        texts(paths@) == members(
            key_views(keys@),
            file_paths(files@),
            keys[i as int]@,
            files.len() as int,
        ),
{
    let ghost views = key_views(keys@);
    let ghost all = file_paths(files@);
    let mut paths: Vec<String> = Vec::new();
    let mut j: usize = 0;
    assert(texts(paths@) =~= Seq::<Seq<char>>::empty());
    while j < files.len()
        invariant
            j <= files.len(),
            i < keys.len(),
            keys.len() == files.len(),
            views == key_views(keys@),
            all == file_paths(files@),
            texts(paths@) == members(views, all, keys[i as int]@, j as int),
        decreases files.len() - j,
    {
        assert(views[j as int] == keys[j as int]@);
        assert(all[j as int] == files[j as int].0@);
        if keys[j].same_as(&keys[i]) {
            let ghost before = texts(paths@);
            paths.push(files[j].0.clone());
            assert(texts(paths@) =~= before.push(all[j as int]));
        }
        j += 1;
    }
    paths
}

/// Puts files into groups by their keys and keeps the groups of two or more.
///
/// Every group holds exactly the files of one key, in the order in which
/// they were given; no two groups share a key; and every key that two or
/// more files have has its group. Groups come in the order in which their
/// first files were given.
pub fn group_files(files: &Vec<(String, u64)>, dedup_mode: &DedupKey) -> (groups: Vec<FileGroup>)
    ensures
        forall|g: int|
            0 <= g < groups.len() ==> (#[trigger] groups[g]).paths.len() >= 2 && exists|i: int|
                0 <= i < files.len() && first_with_key(file_keys(files@, *dedup_mode), i)
                    && groups[g].key@ == file_keys(files@, *dedup_mode)[i] && texts(
                    groups[g].paths@,
                ) == members(
                    file_keys(files@, *dedup_mode),
                    file_paths(files@),
                    groups[g].key@,
                    files.len() as int,
                ),
        forall|g: int, h: int|
            0 <= g < h < groups.len() ==> (#[trigger] groups[g]).key@ != (#[trigger] groups[h]).key@,
        forall|i: int|
            0 <= i < files.len() && members(
                file_keys(files@, *dedup_mode),
                file_paths(files@),
                #[trigger] file_keys(files@, *dedup_mode)[i],
                files.len() as int,
            ).len() >= 2 ==> exists|g: int|
                0 <= g < groups.len() && (#[trigger] groups[g]).key@ == file_keys(
                    files@,
                    *dedup_mode,
                )[i],
{
    let ghost views = file_keys(files@, *dedup_mode);
    let ghost all = file_paths(files@);
    let n = files.len();
    let mut keys: Vec<GroupKey> = Vec::new();
    let mut k: usize = 0;
    while k < n
        invariant
            k <= n,
            n == files.len(),
            keys.len() == k,
            forall|j: int|
                0 <= j < k ==> (#[trigger] keys[j])@ == key_of(files[j].0@, files[j].1, *dedup_mode),
        decreases n - k,
    {
        keys.push(GroupKey::from_file_info(files[k].0.as_str(), files[k].1, dedup_mode));
        k += 1;
    }
    assert(key_views(keys@) =~= views);
    let mut groups: Vec<FileGroup> = Vec::new();
    // For every group, the index of its first file.
    let ghost mut origin: Seq<int> = Seq::empty();
    let mut i: usize = 0;
    while i < n
        invariant
            i <= n,
            n == files.len(),
            keys.len() == n,
            views == file_keys(files@, *dedup_mode),
            all == file_paths(files@),
            key_views(keys@) == views,
            origin.len() == groups.len(),
            forall|g: int|
                0 <= g < groups.len() ==> {
                    let at = #[trigger] origin[g];
                    &&& 0 <= at < i
                    &&& first_with_key(views, at)
                    &&& groups[g].key@ == views[at]
                    &&& groups[g].paths.len() >= 2
                    &&& texts(groups[g].paths@) == members(views, all, views[at], n as int)
                },
            forall|g: int, h: int| 0 <= g < h < origin.len() ==> origin[g] < origin[h],
            forall|at: int|
                0 <= at < i && first_with_key(views, at) && members(
                    views,
                    all,
                    #[trigger] views[at],
                    n as int,
                ).len() >= 2 ==> exists|g: int| 0 <= g < origin.len() && origin[g] == at,
        decreases n - i,
    {
        let ghost prev = origin;
        if !seen_before(&keys, i) {
            let paths = members_of(files, &keys, i);
            assert(views[i as int] == keys[i as int]@);
            if paths.len() >= 2 {
                let group = FileGroup { key: keys[i].duplicate(), paths };
                groups.push(group);
                proof {
                    origin = origin.push(i as int);
                    assert(origin[origin.len() - 1] == i);
                }
            }
        }
        proof {
            assert forall|at: int|
                0 <= at < i + 1 && first_with_key(views, at) && members(
                    views,
                    all,
                    #[trigger] views[at],
                    n as int,
                ).len() >= 2 implies exists|g: int| 0 <= g < origin.len() && origin[g] == at by {
                if at < i {
                    let g = choose|g: int| 0 <= g < prev.len() && prev[g] == at;
                    assert(origin[g] == at);
                } else {
                    assert(origin[origin.len() - 1] == at);
                }
            }
        }
        i += 1;
    }
    proof {
        assert forall|g: int, h: int| 0 <= g < h < groups.len() implies (#[trigger] groups[g]).key@
            != (#[trigger] groups[h]).key@ by {
            assert(origin[g] < origin[h]);
            assert(first_with_key(views, origin[h]));
        }
        assert forall|i: int|
            0 <= i < files.len() && members(views, all, #[trigger] views[i], n as int).len()
                >= 2 implies exists|g: int|
            0 <= g < groups.len() && (#[trigger] groups[g]).key@ == views[i] by {
            let at = lemma_first_occurrence(views, i);
            let g = choose|g: int| 0 <= g < origin.len() && origin[g] == at;
            assert(groups[g].key@ == views[i]);
        }
        assert forall|g: int| 0 <= g < groups.len() implies (#[trigger] groups[g]).paths.len() >= 2
            && exists|i: int|
            0 <= i < files.len() && first_with_key(views, i) && groups[g].key@ == views[i] && texts(
                groups[g].paths@,
            ) == members(views, all, groups[g].key@, files.len() as int) by {
            let at = origin[g];
            assert(0 <= at < files.len() && first_with_key(views, at) && groups[g].key@
                == views[at]);
        }
    }
    groups
}

/// The first file that has the key of file `i`.
proof fn lemma_first_occurrence(keys: Seq<KeyView>, i: int) -> (at: int)
    requires
        0 <= i < keys.len(),
    ensures
        0 <= at <= i,
        keys[at] == keys[i],
        first_with_key(keys, at),
    decreases i,
{
    if first_with_key(keys, i) {
        i
    } else {
        let j = choose|j: int| 0 <= j < i && keys[j] == keys[i];
        lemma_first_occurrence(keys, j)
    }
}

} // verus!
