//! Front ends that search a directory for taskfiles named `task` or `tasks`.

use crate::paths::{
    extension, file_name, file_stem, join, joined_path, path_extension, path_file_name, path_stem,
};
use crate::task::loader::yaml::{has_data_extension, is_data_extension};
use crate::task::taskfile::Taskfile;
use crate::text::{ends_with, is_suffix, slice, text_eq};
use vstd::prelude::*;

verus! {

/// A front end: a way in which taskfiles are kept. Its implementations look
/// at the file system.
pub trait TaskfileFrontend {
    /// The taskfile that lives at `path` or, for a directory, in it: the
    /// path of its source.
    fn find_taskfile_in_dir(&self, path: &str) -> Option<String>;

    /// The taskfile of a source that this front end has found.
    fn load_taskfile(&self, source: &str) -> Result<Taskfile, TaskfileLoadError>;
}

/// Why a front end could not hand over a taskfile.
#[derive(Debug)]
pub enum TaskfileLoadError {
    /// The source is not one of this front end.
    InvalidType,
    /// The source could not be read as a taskfile.
    Other(String),
}

/// Where a taskfile comes from.
#[derive(Debug)]
pub enum TaskfileSource {
    /// A file in YAML, by its canonical path.
    YamlFile(String),
    /// An executable that prints YAML, by its path.
    Executable(String),
}

/// Why a file is no source of a taskfile although its name says so.
#[derive(Debug, PartialEq, Eq)]
pub enum SourceError {
    /// The file has the name of an executable taskfile but may not be run.
    NotExecutable,
    /// The path has no file name.
    NoFileStem,
}

/// The front end for taskfiles written in YAML.
#[derive(Debug, Clone, Copy, PartialEq, Eq, Structural)]
pub struct YamlFrontend;

/// The front end for executables that print a taskfile in YAML.
#[derive(Debug, Clone, Copy, PartialEq, Eq, Structural)]
pub struct YamlExecutableFrontend;

/// A taskfile in YAML, by its canonical path.
#[derive(Debug)]
pub struct YamlTaskfileSource(pub String);

/// Whether a stem is that of a taskfile: `task` or `tasks`.
pub open spec fn is_task_stem(stem: Seq<char>) -> bool {
    stem == "task"@ || stem == "tasks"@
}

/// Whether a stem is that of a taskfile.
pub fn has_task_stem(stem: &str) -> (r: bool)
    ensures
        r == is_task_stem(stem@),
{
    text_eq(stem, "task") || text_eq(stem, "tasks")
}

/// The stem of a path, empty where it has none.
pub open spec fn stem_or_empty(path: Seq<char>) -> Seq<char> {
    match path_stem(path) {
        Some(stem) => stem,
        None => Seq::empty(),
    }
}

/// Whether a path has the extension of YAML data.
pub open spec fn has_data_ext(path: Seq<char>) -> bool {
    path_extension(path) matches Some(ext) && is_data_extension(ext)
}

fn data_extension(path: &str) -> (r: bool)
    ensures
        r == has_data_ext(path@),
{
    match extension(path) {
        Some(ext) => has_data_extension(ext.as_str()),
        None => false,
    }
}

fn stem_text(path: &str) -> (r: String)
    ensures
        r@ == stem_or_empty(path@),
{
    match file_stem(path) {
        Some(stem) => stem,
        None => String::new(),
    }
}

/// The taskfile at a path, where the path leads to a file named `task` or
/// `tasks` with the extension of YAML data, and has the canonical form
/// `canonical`.
pub fn maybe_yaml_source_from_file(path: &str, is_file: bool, canonical: Option<String>) -> (r: Option<
    YamlTaskfileSource,
>)
    ensures
        match r {
            Some(source) => is_file && has_data_ext(path@) && is_task_stem(stem_or_empty(path@))
                && canonical == Some(source.0),
            None => !is_file || !has_data_ext(path@) || !is_task_stem(stem_or_empty(path@)) || canonical
                is None,
        },
{
    if !is_file {
        return None;
    }
    if !data_extension(path) {
        return None;
    }
    let stem = stem_text(path);
    if !has_task_stem(stem.as_str()) {
        return None;
    }
    match canonical {
        Some(c) => Some(YamlTaskfileSource(c)),
        None => None,
    }
}

/// What stands before `.` and the data extension `ext` at the end of a
/// stem, where the stem ends so.
pub open spec fn stem_before(stem: Seq<char>, ext: Seq<char>) -> Option<Seq<char>> {
    if is_suffix(seq!['.'] + ext, stem) {
        Some(stem.subrange(0, stem.len() - ext.len() - 1))
    } else {
        None
    }
}

/// Whether a stem names an executable taskfile: it ends with a dot and a
/// data extension and, where `check_stem2` asks for it, is `task` or
/// `tasks` before them.
pub open spec fn is_executable_stem(stem: Seq<char>, check_stem2: bool) -> bool {
    ||| stem_before(stem, "yml"@) matches Some(s) && (check_stem2 ==> is_task_stem(s))
    ||| stem_before(stem, "yaml"@) matches Some(s) && (check_stem2 ==> is_task_stem(s))
    ||| stem_before(stem, "json"@) matches Some(s) && (check_stem2 ==> is_task_stem(s))
}

fn cut_extension(stem: &str, dotted: &str, Ghost(ext): Ghost<Seq<char>>) -> (r: Option<String>)
    requires
        dotted@ == seq!['.'] + ext,
    ensures
        match r {
            Some(s) => stem_before(stem@, ext) == Some(s@),
            None => stem_before(stem@, ext) is None,
        },
{
    if ends_with(stem, dotted) {
        let n = stem.unicode_len();
        let m = dotted.unicode_len();
        assert(m == ext.len() + 1);
        Some(slice(stem, 0, n - m))
    } else {
        None
    }
}

fn names_executable(stem: &str, check_stem2: bool) -> (r: bool)
    ensures
        r == is_executable_stem(stem@, check_stem2),
{
    proof {
        reveal_strlit(".yml");
        reveal_strlit(".yaml");
        reveal_strlit(".json");
        reveal_strlit("yml");
        reveal_strlit("yaml");
        reveal_strlit("json");
        assert(".yml"@ =~= seq!['.'] + "yml"@);
        assert(".yaml"@ =~= seq!['.'] + "yaml"@);
        assert(".json"@ =~= seq!['.'] + "json"@);
    }
    let a = match cut_extension(stem, ".yml", Ghost("yml"@)) {
        Some(s) => !check_stem2 || has_task_stem(s.as_str()),
        None => false,
    };
    let b = match cut_extension(stem, ".yaml", Ghost("yaml"@)) {
        Some(s) => !check_stem2 || has_task_stem(s.as_str()),
        None => false,
    };
    let c = match cut_extension(stem, ".json", Ghost("json"@)) {
        Some(s) => !check_stem2 || has_task_stem(s.as_str()),
        None => false,
    };
    a || b || c
}

/// What the file at a path is a source of, if of anything. A file with a
/// data extension is a taskfile in YAML; a file whose stem ends with a data
/// extension, such as `tasks.yaml.sh`, is an executable that prints one.
/// Where `check_stem2` is set, the name before the data extension has to
/// be `task` or `tasks`.
pub fn maybe_source_from_file(
    path: &str,
    check_stem2: bool,
    is_file: bool,
    canonical: Option<String>,
    executable: bool,
) -> (r: Result<Option<TaskfileSource>, SourceError>)
    ensures
        if !is_file {
            r == Ok::<Option<TaskfileSource>, SourceError>(None)
        } else if has_data_ext(path@) {
            if check_stem2 && !is_task_stem(stem_or_empty(path@)) {
                r == Ok::<Option<TaskfileSource>, SourceError>(None)
            } else {
                match canonical {
                    Some(c) => r matches Ok(Some(TaskfileSource::YamlFile(p))) && p == c,
                    None => r == Ok::<Option<TaskfileSource>, SourceError>(None),
                }
            }
        } else {
            match path_stem(path@) {
                None => r == Err::<Option<TaskfileSource>, SourceError>(SourceError::NoFileStem),
                Some(stem) => if !is_executable_stem(stem, check_stem2) {
                    r == Ok::<Option<TaskfileSource>, SourceError>(None)
                } else if !executable {
                    r == Err::<Option<TaskfileSource>, SourceError>(SourceError::NotExecutable)
                } else {
                    r matches Ok(Some(TaskfileSource::Executable(p))) && p@ == path@
                },
            }
        },
{
    if !is_file {
        return Ok(None);
    }
    if data_extension(path) {
        let stem = stem_text(path);
        if check_stem2 && !has_task_stem(stem.as_str()) {
            return Ok(None);
        }
        return match canonical {
            Some(c) => Ok(Some(TaskfileSource::YamlFile(c))),
            None => Ok(None),
        };
    }
    match file_stem(path) {
        Some(stem) => {
            if !names_executable(stem.as_str(), check_stem2) {
                return Ok(None);
            }
            if !executable {
                return Err(SourceError::NotExecutable);
            }
            Ok(Some(TaskfileSource::Executable(String::from_str(path))))
        },
        None => Err(SourceError::NoFileStem),
    }
}

impl YamlFrontend {
    /// The paths at which a taskfile is searched for `path`: the path
    /// itself and, where it is a directory, `task.yml`, `task.yaml` and
    /// `task.json` in it, in this order.
    pub fn search_paths(&self, path: &str, is_dir: bool) -> (r: Vec<String>)
        ensures
            r@.len() == if is_dir {
                4nat
            } else {
                1nat
            },
            r@[0]@ == path@,
            is_dir ==> r@[1]@ == joined_path(path@, "task.yml"@) && r@[2]@ == joined_path(
                path@,
                "task.yaml"@,
            ) && r@[3]@ == joined_path(path@, "task.json"@),
    {
        let mut out: Vec<String> = Vec::new();
        out.push(String::from_str(path));
        if is_dir {
            out.push(join(path, "task.yml"));
            out.push(join(path, "task.yaml"));
            out.push(join(path, "task.json"));
        }
        out
    }
}

/// Whether a file name ends with a dot and a data extension.
pub open spec fn has_data_ending(name: Seq<char>) -> bool {
    is_suffix(".yml"@, name) || is_suffix(".yaml"@, name) || is_suffix(".json"@, name)
}

impl YamlExecutableFrontend {
    /// Whether the file name of a path ends with a data extension.
    pub fn has_correct_ext(&self, path: &str) -> (r: bool)
        ensures
            r == (path_file_name(path@) matches Some(name) && has_data_ending(name)),
    {
        match file_name(path) {
            Some(name) => ends_with(name.as_str(), ".yml") || ends_with(name.as_str(), ".yaml")
                || ends_with(name.as_str(), ".json"),
            None => false,
        }
    }
}

} // verus!
