//! Paths. A path is held as the platform's own `PathBuf`, so that a name
//! that is not valid Unicode survives unchanged. What the standard library
//! computes of a path is given a name here and left to it: the proofs know
//! that the same paths give the same answer, and no more.

use std::path::PathBuf;
use vstd::prelude::*;

verus! {

/// `std::path::PathBuf`. Nothing is known of what a path holds but what
/// the functions below say.
#[verifier::external_type_specification]
#[verifier::external_body]
pub struct ExPathBuf(PathBuf);

/// The last component of a path as text, if it has one: what
/// `Path::file_name` gives, rendered by `OsStr::to_string_lossy`.
pub uninterp spec fn file_name_of(path: PathBuf) -> Option<Seq<char>>;

/// Whether a path is relative: what `Path::is_relative` gives.
pub uninterp spec fn is_relative_path(path: PathBuf) -> bool;

/// A path without its last component, if it has one: what `Path::parent`
/// gives.
pub uninterp spec fn parent_of(path: PathBuf) -> Option<PathBuf>;

/// `tail` adjoined to `base`: what `Path::join` gives.
pub uninterp spec fn joined(base: PathBuf, tail: PathBuf) -> PathBuf;

/// Whether the components of `base` are a prefix of those of `path`: what
/// `Path::starts_with` gives.
pub uninterp spec fn path_starts_with(path: PathBuf, base: PathBuf) -> bool;

/// The rendering of a path by its `Debug` impl.
pub uninterp spec fn debug_text_of(path: PathBuf) -> Seq<char>;

/// A path as text, with what is not valid Unicode replaced: what
/// `Path::to_string_lossy` gives.
pub uninterp spec fn lossy_text_of(path: PathBuf) -> Seq<char>;

/// The path that a text spells: what `PathBuf::from` gives.
pub uninterp spec fn path_of_text(text: Seq<char>) -> PathBuf;

/// `Path::file_name`, rendered with `OsStr::to_string_lossy`: the result is
/// whatever the standard library gives for this path, and is named, not
/// described.
#[verifier::external_body]
pub(crate) fn path_file_name(path: &PathBuf) -> (name: Option<String>)
    ensures
        name.is_some() == file_name_of(*path).is_some(),
        name.is_some() ==> name.unwrap()@ == file_name_of(*path).unwrap(),
{
    match path.file_name() {
        Some(name) => Some(name.to_string_lossy().into_owned()),
        None => None,
    }
}

/// `Path::is_relative`.
#[verifier::external_body]
pub(crate) fn path_is_relative(path: &PathBuf) -> (relative: bool)
    ensures
        relative == is_relative_path(*path),
{
    path.is_relative()
}

/// `Path::parent`, as an owned path.
#[verifier::external_body]
pub(crate) fn path_parent(path: &PathBuf) -> (parent: Option<PathBuf>)
    ensures
        parent == parent_of(*path),
{
    path.parent().map(std::path::Path::to_path_buf)
}

/// `Path::join`.
#[verifier::external_body]
pub(crate) fn path_join(base: &PathBuf, tail: &PathBuf) -> (path: PathBuf)
    ensures
        path == joined(*base, *tail),
{
    base.join(tail)
}

/// `Path::starts_with`.
#[verifier::external_body]
pub(crate) fn path_has_prefix(path: &PathBuf, base: &PathBuf) -> (found: bool)
    ensures
        found == path_starts_with(*path, *base),
{
    path.starts_with(base)
}

/// The `Debug` rendering of a path, as `format!("{:?}", path)` gives it.
#[verifier::external_body]
pub(crate) fn path_debug_text(path: &PathBuf) -> (text: String)
    ensures
        text@ == debug_text_of(*path),
{
    format!("{:?}", path)
}

/// `Path::to_string_lossy`, as an owned string.
#[verifier::external_body]
pub(crate) fn path_lossy_text(path: &PathBuf) -> (text: String)
    ensures
        text@ == lossy_text_of(*path),
{
    path.to_string_lossy().into_owned()
}

/// `PathBuf::from` on a string.
#[verifier::external_body]
pub(crate) fn path_from_text(text: &String) -> (path: PathBuf)
    ensures
        path == path_of_text(text@),
{
    PathBuf::from(text)
}

/// `PathBuf::clone`: the copy is the same path.
pub assume_specification[ <PathBuf as Clone>::clone ](path: &PathBuf) -> (copy: PathBuf)
    ensures
        copy == *path,
;

} // verus!
