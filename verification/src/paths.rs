//! Paths as text.
//!
//! The engine keeps paths as text and leaves their reading to `std::path`
//! and to `pathdiff`, which are not verified here. Each function below makes
//! one such call; none of them looks at the file system.

use vstd::prelude::*;

verus! {

/// The path that `std::path::Path::join` makes of a base and a path.
pub uninterp spec fn joined_path(base: Seq<char>, path: Seq<char>) -> Seq<char>;

/// Whether `std::path::Path::starts_with` finds that a path lies under a
/// base, component by component.
pub uninterp spec fn path_within(path: Seq<char>, base: Seq<char>) -> bool;

/// The path that `pathdiff::diff_paths` finds to lead from a base to a path.
pub uninterp spec fn path_difference(path: Seq<char>, base: Seq<char>) -> Option<Seq<char>>;

/// The stem that `std::path::Path::file_stem` reads out of a path: its last
/// component without the extension.
pub uninterp spec fn path_stem(path: Seq<char>) -> Option<Seq<char>>;

/// The name that `std::path::Path::file_name` reads out of a path: its
/// last component.
pub uninterp spec fn path_file_name(path: Seq<char>) -> Option<Seq<char>>;

/// The extension that `std::path::Path::extension` reads out of a path.
pub uninterp spec fn path_extension(path: Seq<char>) -> Option<Seq<char>>;

/// The parent that `std::path::Path::parent` reads out of a path: the
/// path without its last component, `None` for a root and for the empty path.
pub uninterp spec fn path_parent(path: Seq<char>) -> Option<Seq<char>>;

/// `Path::parent`: a path without its last component, which is a shorter
/// text than the path; `None` where the path ends in a root, or is empty.
#[verifier::external_body]
pub(crate) fn parent(path: &str) -> (r: Option<String>)
    ensures
        match r {
            Some(p) => path_parent(path@) == Some(p@) && p@.len() < path@.len(),
            None => path_parent(path@) is None,
        },
{
    std::path::Path::new(path).parent().map(|p| p.to_string_lossy().to_string())
}

/// `Path::join`: `path` adjoined to `base`; an absolute `path` takes the
/// place of `base`.
#[verifier::external_body]
pub(crate) fn join(base: &str, path: &str) -> (r: String)
    ensures
        r@ == joined_path(base@, path@),
{
    std::path::Path::new(base).join(path).to_string_lossy().to_string()
}

/// `Path::starts_with`: whether `base` is a prefix of `path`, whole
/// components only.
#[verifier::external_body]
pub(crate) fn is_within(path: &str, base: &str) -> (r: bool)
    ensures
        r == path_within(path@, base@),
{
    std::path::Path::new(path).starts_with(base)
}

/// `pathdiff::diff_paths`: the relative path from `base` to `path`, where
/// there is one.
#[verifier::external_body]
pub(crate) fn difference(path: &str, base: &str) -> (r: Option<String>)
    ensures
        match r {
            Some(d) => path_difference(path@, base@) == Some(d@),
            None => path_difference(path@, base@) is None,
        },
{
    pathdiff::diff_paths(path, base).map(|d| d.to_string_lossy().to_string())
}

/// `Path::file_stem`: the last component of a path without its extension.
#[verifier::external_body]
pub(crate) fn file_stem(path: &str) -> (r: Option<String>)
    ensures
        match r {
            Some(s) => path_stem(path@) == Some(s@),
            None => path_stem(path@) is None,
        },
{
    std::path::Path::new(path).file_stem().map(|s| s.to_string_lossy().to_string())
}

/// `Path::file_name`: the last component of a path.
#[verifier::external_body]
pub(crate) fn file_name(path: &str) -> (r: Option<String>)
    ensures
        match r {
            Some(s) => path_file_name(path@) == Some(s@),
            None => path_file_name(path@) is None,
        },
{
    std::path::Path::new(path).file_name().map(|s| s.to_string_lossy().to_string())
}

/// `Path::extension`: the extension of the last component of a path.
#[verifier::external_body]
pub(crate) fn extension(path: &str) -> (r: Option<String>)
    ensures
        match r {
            Some(s) => path_extension(path@) == Some(s@),
            None => path_extension(path@) is None,
        },
{
    std::path::Path::new(path).extension().map(|s| s.to_string_lossy().to_string())
}

} // verus!
