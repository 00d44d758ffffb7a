//! The front end for executables that print a taskfile in YAML.

use crate::paths::{file_stem, path_stem};
use crate::task::taskfile::{taskfile_read, Taskfile, YamlLoadError};
use crate::text::{ends_with, is_suffix, slice, text_eq};
use vstd::prelude::*;

verus! {

/// The front end for executables that print a taskfile in YAML.
#[derive(Debug, Clone, Copy, PartialEq, Eq, Structural)]
pub struct YamlExecutableTaskfileLoader;

/// An executable that prints a taskfile, by its path.
#[derive(Debug)]
pub struct YamlTaskfileSource(pub String);

/// The stem without the data extension at its end, where it has one: the
/// first of `.yml`, `.yaml` and `.json` that the stem ends with is cut off.
pub open spec fn inner_stem(stem: Seq<char>) -> Option<Seq<char>> {
    if is_suffix(".yml"@, stem) {
        Some(stem.subrange(0, stem.len() - ".yml"@.len()))
    } else if is_suffix(".yaml"@, stem) {
        Some(stem.subrange(0, stem.len() - ".yaml"@.len()))
    } else if is_suffix(".json"@, stem) {
        Some(stem.subrange(0, stem.len() - ".json"@.len()))
    } else {
        None
    }
}

/// What stands before the data extension in the name of an executable such
/// as `tasks.yaml.sh`, whose own extension does not count.
pub open spec fn ext_and_inner_stem(path: Seq<char>) -> Option<Seq<char>> {
    match path_stem(path) {
        Some(stem) => inner_stem(stem),
        None => None,
    }
}

fn cut_suffix(stem: &str, suffix: &str) -> (r: Option<String>)
    ensures
        match r {
            Some(s) => is_suffix(suffix@, stem@) && s@ == stem@.subrange(0, stem@.len() - suffix@.len()),
            None => !is_suffix(suffix@, stem@),
        },
{
    if ends_with(stem, suffix) {
        let n = stem.unicode_len();
        let m = suffix.unicode_len();
        Some(slice(stem, 0, n - m))
    } else {
        None
    }
}

/// What stands before the data extension in the name of an executable.
pub fn has_correct_ext_and_inner_stem(path: &str) -> (r: Option<String>)
    ensures
        match r {
            Some(s) => ext_and_inner_stem(path@) == Some(s@),
            None => ext_and_inner_stem(path@) is None,
        },
{
    let stem = match file_stem(path) {
        Some(s) => s,
        None => {
            return None;
        },
    };
    match cut_suffix(stem.as_str(), ".yml") {
        Some(s) => {
            return Some(s);
        },
        None => {},
    }
    match cut_suffix(stem.as_str(), ".yaml") {
        Some(s) => {
            return Some(s);
        },
        None => {},
    }
    cut_suffix(stem.as_str(), ".json")
}

/// Whether the name of an executable holds a data extension before its own.
pub fn has_correct_ext(path: &str) -> (r: bool)
    ensures
        r == ext_and_inner_stem(path@) is Some,
{
    has_correct_ext_and_inner_stem(path).is_some()
}

impl YamlExecutableTaskfileLoader {
    /// Whether the file at `path`, which was asked for by its path, is a
    /// taskfile of this front end.
    pub fn accepts_file(&self, path: &str, executable: bool) -> (r: bool)
        ensures
            r == (ext_and_inner_stem(path@) is Some && executable),
    {
        has_correct_ext(path) && executable
    }

    /// Whether the file at `path`, which was found in a directory that was
    /// searched, is a taskfile of this front end: its name has to be
    /// `tasks`, a data extension, and an extension of its own.
    pub fn accepts_entry(&self, path: &str, is_file: bool, executable: bool) -> (r: bool)
        ensures
            r == (is_file && ext_and_inner_stem(path@) == Some("tasks"@) && executable),
    {
        if !is_file {
            return false;
        }
        match has_correct_ext_and_inner_stem(path) {
            Some(stem) => text_eq(stem.as_str(), "tasks") && executable,
            None => false,
        }
    }

    /// Reads the taskfile that the executable of a source has printed.
    pub fn load_taskfile(&self, source: &YamlTaskfileSource, output: &str, dir: &str) -> (r: Result<
        Taskfile,
        YamlLoadError,
    >)
        ensures
            taskfile_read(output@, source.0@, dir@, r),
    {
        Taskfile::from_yaml_source(output, source.0.as_str(), dir)
    }
}

} // verus!
