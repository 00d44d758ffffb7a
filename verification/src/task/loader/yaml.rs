//! The front end for taskfiles written in YAML.

use crate::paths::{extension, join, joined_path, path_extension};
use crate::task::taskfile::{taskfile_read, Taskfile, YamlLoadError};
use crate::text::text_eq;
use vstd::prelude::*;

verus! {

/// Whether files with this extension hold YAML data: `yml`, `yaml` or `json`.
pub open spec fn is_data_extension(ext: Seq<char>) -> bool {
    ext == "yml"@ || ext == "yaml"@ || ext == "json"@
}

/// Whether files with this extension hold YAML data.
pub fn has_data_extension(ext: &str) -> (r: bool)
    ensures
        r == is_data_extension(ext@),
{
    text_eq(ext, "yml") || text_eq(ext, "yaml") || text_eq(ext, "json")
}

/// The front end for taskfiles written in YAML.
#[derive(Debug, Clone, Copy, PartialEq, Eq, Structural)]
pub struct YamlTaskfileLoader;

/// A taskfile in YAML, by its canonical path.
#[derive(Debug)]
pub struct YamlTaskfileSource(pub String);

/// Whether a path has the extension of YAML data.
pub open spec fn is_yaml_path(path: Seq<char>) -> bool {
    path_extension(path) matches Some(ext) && is_data_extension(ext)
}

/// The taskfile at a path, where the path leads to a file with the
/// extension of YAML data and has the canonical form `canonical`.
pub fn maybe_yaml_source_from_file(path: &str, is_file: bool, canonical: Option<String>) -> (r: Option<
    YamlTaskfileSource,
>)
    ensures
        match r {
            Some(source) => is_file && is_yaml_path(path@) && canonical == Some(source.0),
            None => !is_file || !is_yaml_path(path@) || canonical is None,
        },
{
    if !is_file {
        return None;
    }
    match extension(path) {
        Some(ext) => {
            if !has_data_extension(ext.as_str()) {
                return None;
            }
        },
        None => {
            return None;
        },
    }
    match canonical {
        Some(c) => Some(YamlTaskfileSource(c)),
        None => None,
    }
}

impl YamlTaskfileLoader {
    /// The paths at which a taskfile is searched for `path`: the path
    /// itself and, where it is a directory, `tasks.yml`, `tasks.yaml` and
    /// `tasks.json` in it, in this order.
    pub fn search_paths(&self, path: &str, is_dir: bool) -> (r: Vec<String>)
        ensures
            r@.len() == if is_dir {
                4nat
            } else {
                1nat
            },
            r@[0]@ == path@,
            is_dir ==> r@[1]@ == joined_path(path@, "tasks.yml"@) && r@[2]@ == joined_path(
                path@,
                "tasks.yaml"@,
            ) && r@[3]@ == joined_path(path@, "tasks.json"@),
    {
        let mut out: Vec<String> = Vec::new();
        out.push(String::from_str(path));
        if is_dir {
            out.push(join(path, "tasks.yml"));
            out.push(join(path, "tasks.yaml"));
            out.push(join(path, "tasks.json"));
        }
        out
    }

    /// Reads the taskfile of a source out of its text.
    pub fn load_taskfile(&self, source: &YamlTaskfileSource, text: &str, dir: &str) -> (r: Result<
        Taskfile,
        YamlLoadError,
    >)
        ensures
            taskfile_read(text@, source.0@, dir@, r),
    {
        Taskfile::from_yaml_source(text, source.0.as_str(), dir)
    }
}

} // verus!
