//! Path operations. Paths are held as strings; each operation below is one
//! call of `std::path`, whose result is named (it is a function of the
//! arguments alone: the component parsing of `std::path` is not restated).
//! The names stand for the path rules of the build target: Windows and Unix
//! parse separators and prefixes differently, but within one build each
//! operation is a fixed function of its arguments, and nothing here assumes
//! either platform.

use vstd::prelude::*;
use std::path::Path;

verus! {

/// The abstract value of an optional string.
pub open spec fn opt_view(o: Option<String>) -> Option<Seq<char>> {
    match o {
        Some(s) => Some(s@),
        None => None,
    }
}

/// What `Path::file_name` returns: the final normal component, if any.
pub uninterp spec fn spec_file_name(p: Seq<char>) -> Option<Seq<char>>;

/// `Path::file_name`, as a string.
#[verifier::external_body]
pub fn file_name(p: &str) -> (r: Option<String>)
    ensures
        opt_view(r) == spec_file_name(p@),
{
    match Path::new(p).file_name() {
        Some(n) => Some(n.to_string_lossy().into_owned()),
        None => None,
    }
}

/// What `Path::parent` returns: the path without its final component, if any.
pub uninterp spec fn spec_parent(p: Seq<char>) -> Option<Seq<char>>;

/// `Path::parent`, as a string.
#[verifier::external_body]
pub fn parent(p: &str) -> (r: Option<String>)
    ensures
        opt_view(r) == spec_parent(p@),
{
    match Path::new(p).parent() {
        Some(q) => Some(q.to_string_lossy().into_owned()),
        None => None,
    }
}

/// What `Path::extension` returns: the part of the file name after its last
/// `.`, if the name has one that does not start it.
pub uninterp spec fn spec_extension(p: Seq<char>) -> Option<Seq<char>>;

/// `Path::extension`, as a string.
#[verifier::external_body]
pub fn extension(p: &str) -> (r: Option<String>)
    ensures
        opt_view(r) == spec_extension(p@),
{
    match Path::new(p).extension() {
        Some(e) => Some(e.to_string_lossy().into_owned()),
        None => None,
    }
}

/// What `Path::file_stem` returns: the file name without its extension.
pub uninterp spec fn spec_file_stem(p: Seq<char>) -> Option<Seq<char>>;

/// `Path::file_stem`, as a string.
#[verifier::external_body]
pub fn file_stem(p: &str) -> (r: Option<String>)
    ensures
        opt_view(r) == spec_file_stem(p@),
{
    match Path::new(p).file_stem() {
        Some(s) => Some(s.to_string_lossy().into_owned()),
        None => None,
    }
}

/// What `Path::join` returns: `rel` appended to `base` with a separator (or
/// `rel` itself when it is absolute).
pub uninterp spec fn spec_join(base: Seq<char>, rel: Seq<char>) -> Seq<char>;

/// `Path::join`, as a string.
#[verifier::external_body]
pub fn join(base: &str, rel: &str) -> (r: String)
    ensures
        r@ == spec_join(base@, rel@),
{
    Path::new(base).join(rel).to_string_lossy().into_owned()
}

/// What `==` on two `Path`s answers: whether their components are equal.
pub uninterp spec fn spec_path_eq(a: Seq<char>, b: Seq<char>) -> bool;

/// `Path == Path` (component-wise, so `a/b` equals `a/b/`).
#[verifier::external_body]
pub fn path_eq(a: &str, b: &str) -> (r: bool)
    ensures
        r == spec_path_eq(a@, b@),
{
    Path::new(a) == Path::new(b)
}

/// What `Path::starts_with` answers: whether the components of `base` are a
/// prefix of those of `p`.
pub uninterp spec fn spec_starts_with(p: Seq<char>, base: Seq<char>) -> bool;

/// `Path::starts_with`.
#[verifier::external_body]
pub fn starts_with(p: &str, base: &str) -> (r: bool)
    ensures
        r == spec_starts_with(p@, base@),
{
    Path::new(p).starts_with(base)
}

/// What `Path::strip_prefix` returns: the rest of `p` after the components of
/// `base`, when `p` starts with `base`.
pub uninterp spec fn spec_strip_prefix(p: Seq<char>, base: Seq<char>) -> Option<Seq<char>>;

/// `Path::strip_prefix`, as a string.
#[verifier::external_body]
pub fn strip_prefix(p: &str, base: &str) -> (r: Option<String>)
    ensures
        opt_view(r) == spec_strip_prefix(p@, base@),
{
    match Path::new(p).strip_prefix(base) {
        Ok(rest) => Some(rest.to_string_lossy().into_owned()),
        Err(_) => None,
    }
}

/// What `Path::is_absolute` answers.
pub uninterp spec fn spec_is_absolute(p: Seq<char>) -> bool;

/// `Path::is_absolute`.
#[verifier::external_body]
pub fn is_absolute(p: &str) -> (r: bool)
    ensures
        r == spec_is_absolute(p@),
{
    Path::new(p).is_absolute()
}

} // verus!
