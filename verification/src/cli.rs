//! What the command line asks for.

use crate::cli::threads_config::ThreadsConfig;
use crate::run::execution::naive::{
    first_feed, first_line, is_first_feed, take_first_line, trim, trimmed,
};
use crate::run::RunError;
use crate::task::task::Task;
use crate::text::{concat, find_char, join_texts, joined, slice, views};
use vstd::prelude::*;

pub mod threads_config;
pub mod value_parser;

verus! {

/// How much is logged.
#[derive(Debug, Clone, Copy, PartialEq, Eq, Structural)]
pub enum LogLevel {
    Off,
    Error,
    Warn,
    Info,
    Debug,
    Trace,
}

/// How the catalog is printed.
#[derive(Debug, Clone, Copy, PartialEq, Eq, Structural)]
pub enum OutputFormat {
    Json,
}

/// List all tasks.
#[derive(Debug)]
pub struct List {
    /// One line per task.
    pub short: bool,
    /// Only the names.
    pub names_only: bool,
    /// The full description of each task.
    pub description: bool,
    pub format: Option<OutputFormat>,
}

/// The options of a run.
#[derive(Debug, Clone, Copy, PartialEq, Eq, Structural)]
pub struct CliRunOptions {
    /// Only the progress is shown, not the name and state of each task.
    pub compact: bool,
    /// Where given, tasks run in parallel, on this many threads.
    pub threads: Option<ThreadsConfig>,
}

/// Run a task.
#[derive(Debug)]
pub struct Run {
    pub task: String,
    pub options: CliRunOptions,
}

/// Clean a task and everything it needs.
#[derive(Debug)]
pub struct Clean {
    pub task: String,
}

/// Clean a single task.
#[derive(Debug)]
pub struct CleanOnly {
    pub task: String,
}

/// What is to be done.
#[derive(Debug)]
pub enum Command {
    List(List),
    Run(Run),
    Clean(Clean),
    CleanOnly(CleanOnly),
}

/// The command line.
#[derive(Debug)]
pub struct Cli {
    pub command: Command,
    /// The taskfile, or the path at which the search for one begins.
    pub taskfile: Option<String>,
    pub log_level: Option<LogLevel>,
}

/// How the tasks of a run are executed.
#[derive(Debug, Clone, Copy, PartialEq, Eq, Structural)]
pub enum RunMode {
    /// One after the other.
    Sequential,
    /// Several at a time.
    Parallel(ThreadsConfig),
}

impl CliRunOptions {
    /// The mode of the run: parallel where a number of threads is given,
    /// else sequential.
    pub fn mode(&self) -> (r: RunMode)
        ensures
            r == match self.threads {
                Some(threads) => RunMode::Parallel(threads),
                None => RunMode::Sequential,
            },
    {
        match self.threads {
            Some(threads) => RunMode::Parallel(threads),
            None => RunMode::Sequential,
        }
    }
}

/// The exit code of a run: 0 where it succeeded, 130 where it was
/// interrupted, 1 after any other error.
pub fn exit_code(result: &Result<(), RunError>) -> (r: i32)
    ensures
        r == match *result {
            Ok(()) => 0i32,
            Err(RunError::Interrupted) => 130i32,
            Err(_) => 1i32,
        },
{
    match result {
        Ok(()) => 0,
        Err(RunError::Interrupted) => 130,
        Err(_) => 1,
    }
}

/// What follows the first line of a text: the text after its first line
/// feed, nothing where it has none.
pub open spec fn after_first_line(text: Seq<char>) -> Seq<char> {
    if is_first_feed(text, first_feed(text)) {
        text.subrange(first_feed(text) + 1, text.len() as int)
    } else {
        Seq::empty()
    }
}

/// The lines of the first paragraph of a text, each without the white
/// space around it: the lines before the first one that is blank.
pub open spec fn paragraph_lines(text: Seq<char>) -> Seq<Seq<char>>
    decreases text.len(),
{
    if text.len() == 0 || trimmed(first_line(text)).len() == 0 {
        Seq::empty()
    } else {
        seq![trimmed(first_line(text))] + paragraph_lines(after_first_line(text))
    }
}

/// The lines of the first paragraph of a text.
pub fn first_paragraph(text: &str) -> (r: Vec<String>)
    ensures
        views(r@) == paragraph_lines(text@),
{
    let mut out: Vec<String> = Vec::new();
    let mut rest = String::from_str(text);
    assert(views(out@) =~= Seq::empty());
    loop
        invariant_except_break
            paragraph_lines(text@) == views(out@) + paragraph_lines(rest@),
        ensures
            views(out@) == paragraph_lines(text@),
        decreases rest@.len(),
    {
        if rest.as_str().unicode_len() == 0 {
            break ;
        }
        let line = trim(take_first_line(rest.as_str()).as_str());
        if line.as_str().unicode_len() == 0 {
            break ;
        }
        let ghost before = views(out@);
        let ghost line_view = line@;
        out.push(line);
        assert(views(out@) =~= before + seq![line_view]);
        match find_char(rest.as_str(), '\n') {
            Some(i) => {
                proof {
                    let k = first_feed(rest@);
                    assert(rest@.contains('\n'));
                    assert(is_first_feed(rest@, i as int));
                    assert(is_first_feed(rest@, k));
                    if k < i {
                        assert(rest@[k] != '\n');
                    }
                    if i < k {
                        assert(rest@[i as int] != '\n');
                    }
                }
                let n = rest.as_str().unicode_len();
                rest = slice(rest.as_str(), i + 1, n);
            },
            None => {
                assert(!is_first_feed(rest@, first_feed(rest@)));
                assert(paragraph_lines(after_first_line(rest@)) =~= Seq::empty());
                break ;
            },
        }
    }
    out
}

/// The short description of a task: the first paragraph of its
/// description in one line, if it has a description.
pub open spec fn short_of(task: Task) -> Option<Seq<char>> {
    match task.description {
        Some(text) => Some(joined(paragraph_lines(text@), " "@)),
        None => None,
    }
}

/// The short description of a task.
pub fn task_short(task: &Task) -> (r: Option<String>)
    ensures
        match r {
            Some(s) => short_of(*task) == Some(s@),
            None => short_of(*task) is None,
        },
{
    match &task.description {
        Some(text) => Some(join_texts(&first_paragraph(text.as_str()), " ")),
        None => None,
    }
}

/// The parameters of a task as they stand in its usage line: each name in
/// angle brackets.
pub open spec fn placeholders_of(names: Seq<Seq<char>>) -> Seq<Seq<char>> {
    Seq::new(names.len(), |i: int| "<"@ + names[i] + ">"@)
}

/// The usage of the parameters of a task: each name in angle brackets,
/// with a space between them, in the order of their declaration.
pub fn usage(task: &Task) -> (r: String)
    ensures
        r@ == joined(placeholders_of(task.params.0.keys()), " "@),
{
    let mut out: Vec<String> = Vec::new();
    let mut i: usize = 0;
    proof {
        task.params.0.lemma_len();
    }
    while i < task.params.0.len()
        invariant
            i <= task.params.0.keys().len(),
            out@.len() == i,
            forall|j: int| 0 <= j < i ==> (#[trigger] out@[j])@ == "<"@ + task.params.0.keys()[j] + ">"@,
        decreases task.params.0.keys().len() - i,
    {
        let name = task.params.0.key_at(i);
        out.push(concat(concat("<", name.as_str()).as_str(), ">"));
        i += 1;
    }
    assert(views(out@) =~= placeholders_of(task.params.0.keys()));
    join_texts(&out, " ")
}

} // verus!
