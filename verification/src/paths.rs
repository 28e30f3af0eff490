//! Paths as the standard library reads them.
//!
//! The library holds a path as text. What the standard library makes of
//! that text (its last component, its parent, whether it lies within another
//! path) is taken from `std::path` itself and named here; nothing in this
//! crate parses a path. What `std::path` makes of a text depends on the
//! platform that the crate is built for, and on nothing else.

use vstd::prelude::*;

verus! {

/// What `Path::starts_with` returns for `path` and `base`: whether the
/// components of `base` are the leading components of `path`.
pub uninterp spec fn path_within(path: Seq<char>, base: Seq<char>) -> bool;

/// What `Path::file_name` returns for `path`: its last component, if that
/// is an ordinary name.
pub uninterp spec fn file_name_of(path: Seq<char>) -> Option<Seq<char>>;

/// What `Path::parent` returns for `path`: the path without its last
/// component, if it has one.
pub uninterp spec fn parent_of(path: Seq<char>) -> Option<Seq<char>>;

/// What `Path::extension` returns for `path`: what follows the last dot of
/// its file name, if there is such a part.
pub uninterp spec fn extension_of(path: Seq<char>) -> Option<Seq<char>>;

/// What `Path::join` returns for `dir` and `name`.
pub uninterp spec fn path_join(dir: Seq<char>, name: Seq<char>) -> Seq<char>;

/// The text of an optional string.
pub open spec fn text_of(s: Option<String>) -> Option<Seq<char>> {
    match s {
        Some(s) => Some(s@),
        None => None,
    }
}

/// The texts of a list of strings.
pub open spec fn texts(list: Seq<String>) -> Seq<Seq<char>> {
    Seq::new(list.len(), |i: int| list[i]@)
}

/// Calls `std::path::Path::starts_with`. Trusted: the result is the one
/// that `path_within` names, a function of the two texts alone.
#[verifier::external_body]
pub(crate) fn starts_with(path: &str, base: &str) -> (within: bool)
    ensures
        within == path_within(path@, base@),
{
    std::path::Path::new(path).starts_with(base)
}

/// Calls `std::path::Path::file_name`. Trusted: the result is the one that
/// `file_name_of` names. The name of a path that is valid text is valid text.
#[verifier::external_body]
pub(crate) fn file_name(path: &str) -> (name: Option<String>)
    ensures
        text_of(name) == file_name_of(path@),
{
    std::path::Path::new(path).file_name().map(|n| n.to_string_lossy().into_owned())
}

/// Calls `std::path::Path::parent`. Trusted: the result is the one that
/// `parent_of` names.
#[verifier::external_body]
pub(crate) fn parent(path: &str) -> (dir: Option<String>)
    ensures
        text_of(dir) == parent_of(path@),
{
    std::path::Path::new(path).parent().map(|p| p.to_string_lossy().into_owned())
}

/// Calls `std::path::Path::extension`. Trusted: the result is the one that
/// `extension_of` names.
#[verifier::external_body]
pub(crate) fn extension(path: &str) -> (ext: Option<String>)
    ensures
        text_of(ext) == extension_of(path@),
{
    std::path::Path::new(path).extension().map(|e| e.to_string_lossy().into_owned())
}

/// Calls `std::path::Path::join`. Trusted: the result is the one that
/// `path_join` names.
#[verifier::external_body]
pub(crate) fn join(dir: &str, name: &str) -> (joined: String)
    ensures
        joined@ == path_join(dir@, name@),
{
    std::path::Path::new(dir).join(name).to_string_lossy().into_owned()
}

/// Calls `std::path::Path::canonicalize`, which asks the file system.
/// Nothing is claimed of the result: it is `None` where the call fails, and
/// it may differ from one call to the next. A canonical path that is not
/// valid text is rendered with replacement characters, which can only make
/// two paths look more alike.
#[verifier::external_body]
pub(crate) fn canonical_form(path: &str) -> (canonical: Option<String>)
{
    std::path::Path::new(path).canonicalize().ok().map(|p| p.to_string_lossy().into_owned())
}

} // verus!
