//! Path manipulation through `std::path`: the parent directory, joining,
//! setting the extension, and the stem and extension of a path. Each is a
//! pure function of its arguments on a given platform; the library names
//! their results and relies on nothing more.

use std::path::Path;
use vstd::prelude::*;

verus! {

/// What `Path::parent` gives for a path.
pub uninterp spec fn parent_of(p: Seq<char>) -> Option<Seq<char>>;

/// What `Path::join` gives for a base and a path.
pub uninterp spec fn join_of(base: Seq<char>, p: Seq<char>) -> Seq<char>;

/// What `Path::with_extension` gives for a path and an extension.
pub uninterp spec fn with_extension_of(p: Seq<char>, ext: Seq<char>) -> Seq<char>;

/// No character of `s` separates path components.
pub open spec fn no_separator(s: Seq<char>) -> bool {
    forall|k: int| 0 <= k < s.len() ==> s[k] != '/' && s[k] != '\\'
}

/// What `Path::file_stem` gives for a path.
pub uninterp spec fn stem_of(p: Seq<char>) -> Option<Seq<char>>;

/// What `Path::extension` gives for a path.
pub uninterp spec fn extension_of(p: Seq<char>) -> Option<Seq<char>>;

/// Wraps `std::path::Path::parent`: the path without its final component
/// (so a shorter one), `None` for a root or an empty path.
#[verifier::external_body]
pub(crate) fn path_parent(p: &str) -> (r: Option<String>)
    ensures
        match r {
            Some(s) => parent_of(p@) == Some(s@) && s@.len() < p@.len(),
            None => parent_of(p@) is None,
        },
{
    match Path::new(p).parent() {
        Some(q) => Some(q.to_string_lossy().to_string()),
        None => None,
    }
}

/// Wraps `std::path::Path::join`: `p` appended to `base` (or `p` where it is
/// absolute).
#[verifier::external_body]
pub(crate) fn path_join(base: &str, p: &str) -> (r: String)
    ensures
        r@ == join_of(base@, p@),
{
    Path::new(base).join(p).to_string_lossy().to_string()
}

/// Wraps `std::path::Path::with_extension`: the path with the extension
/// of its final component replaced by `ext` (or `ext` added where it has
/// none). It panics on an extension that holds a path separator, which the
/// precondition leaves out.
#[verifier::external_body]
pub(crate) fn path_with_extension(p: &str, ext: &str) -> (r: String)
    requires
        no_separator(ext@),
    ensures
        r@ == with_extension_of(p@, ext@),
{
    Path::new(p).with_extension(ext).to_string_lossy().to_string()
}

/// Wraps `std::path::Path::file_stem`: the final component without its
/// extension, if there is a final component.
#[verifier::external_body]
pub(crate) fn path_stem(p: &str) -> (r: Option<String>)
    ensures
        match r {
            Some(s) => stem_of(p@) == Some(s@),
            None => stem_of(p@) is None,
        },
{
    match Path::new(p).file_stem() {
        Some(s) => Some(s.to_string_lossy().to_string()),
        None => None,
    }
}

/// Wraps `std::path::Path::extension`: the part of the final component
/// after its last dot, if there is one.
#[verifier::external_body]
pub(crate) fn path_extension(p: &str) -> (r: Option<String>)
    ensures
        match r {
            Some(s) => extension_of(p@) == Some(s@),
            None => extension_of(p@) is None,
        },
{
    match Path::new(p).extension() {
        Some(e) => Some(e.to_string_lossy().to_string()),
        None => None,
    }
}

} // verus!
