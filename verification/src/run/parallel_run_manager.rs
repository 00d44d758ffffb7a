//! What the parallel mode shows of a run.

use crate::cli::CliRunOptions;
use crate::text::{find_char, find_text, occurs_at, occurs_in, slice};
use vstd::prelude::*;

verus! {

/// Shows the tasks of a parallel run, each with a number and a colour of
/// its own.
#[derive(Debug)]
pub struct ParallelRunManager(pub CliRunOptions);

/// How many colours there are to tell tasks apart.
pub const COLOR_RING_LEN: usize = 8;

/// The characters that open the sequence by which a program sets the title
/// of its terminal: escape, `]`, `0`, `;`.
pub open spec fn title_prefix() -> Seq<char> {
    seq!['\u{1b}', ']', '0', ';']
}

/// A line of output, taken apart at the first sequence that sets a title.
#[derive(Debug)]
pub struct OutputLine {
    /// What stands before the sequence; the whole line where there is none.
    pub before: String,
    /// The title that the sequence sets.
    pub title: Option<String>,
    /// What stands after the sequence.
    pub after: String,
}

/// `line` taken apart at position `start`, where the first title sequence
/// opens, and at position `end` behind it, where the first bell closes it.
pub open spec fn taken_apart(line: Seq<char>, start: int, end: int, out: OutputLine) -> bool {
    &&& occurs_at(title_prefix(), line, start)
    &&& forall|j: int| 0 <= j < start ==> !occurs_at(title_prefix(), line, j)
    &&& start + 4 <= end < line.len()
    &&& line[end] == '\u{7}'
    &&& forall|j: int| start + 4 <= j < end ==> line[j] != '\u{7}'
    &&& out.before@ == line.subrange(0, start)
    &&& out.title matches Some(t) && t@ == line.subrange(start + 4, end)
    &&& out.after@ == line.subrange(end + 1, line.len() as int)
}

/// `line` has no title sequence: none opens, or the first that opens is
/// not closed by a bell.
pub open spec fn has_no_title(line: Seq<char>) -> bool {
    !occurs_in(title_prefix(), line) || exists|start: int|
        occurs_at(title_prefix(), line, start) && (forall|j: int|
            0 <= j < start ==> !occurs_at(title_prefix(), line, j)) && forall|j: int|
            start + 4 <= j < line.len() ==> line[j] != '\u{7}'
}

/// A line that is not taken apart.
fn whole_line(line: &str) -> (r: OutputLine)
    ensures
        r.title is None,
        r.before@ == line@,
        r.after@.len() == 0,
{
    OutputLine { before: String::from_str(line), title: None, after: String::new() }
}

impl ParallelRunManager {
    /// Whether the start and the state of each task are shown.
    pub fn announces_tasks(&self) -> (r: bool)
        ensures
            r == !self.0.compact,
    {
        !self.0.compact
    }

    /// The colour of the task that was entered as the `idx`-th.
    pub fn color_index(idx: usize) -> (r: usize)
        ensures
            r == idx % COLOR_RING_LEN,
            r < COLOR_RING_LEN,
    {
        idx % COLOR_RING_LEN
    }

    /// Takes a line of output apart at the first sequence that sets the
    /// title of the terminal: what stands before it, the title, and what
    /// stands after it. A line without such a sequence is left whole.
    pub fn split_title(line: &str) -> (r: OutputLine)
        ensures
            match r.title {
                Some(_) => exists|start: int, end: int| taken_apart(line@, start, end, r),
                None => has_no_title(line@) && r.before@ == line@ && r.after@.len() == 0,
            },
    {
        proof {
            reveal_strlit("\u{1b}]0;");
            assert("\u{1b}]0;"@ =~= title_prefix());
        }
        let n = line.unicode_len();
        match find_text(line, "\u{1b}]0;") {
            None => whole_line(line),
            Some(start) => {
                let rest = slice(line, start + 4, n);
                match find_char(rest.as_str(), '\u{7}') {
                    None => {
                        proof {
                            assert forall|j: int| start + 4 <= j < line@.len() implies line@[j]
                                != '\u{7}' by {
                                assert(rest@[j - (start + 4)] == line@[j]);
                            }
                        }
                        whole_line(line)
                    },
                    Some(offset) => {
                        let end = start + 4 + offset;
                        let out = OutputLine {
                            before: slice(line, 0, start),
                            title: Some(slice(line, start + 4, end)),
                            after: slice(line, end + 1, n),
                        };
                        proof {
                            assert(line@[end as int] == rest@[offset as int]);
                            assert forall|j: int| start + 4 <= j < end implies line@[j] != '\u{7}' by {
                                assert(rest@[j - (start + 4)] == line@[j]);
                            }
                            assert(taken_apart(line@, start as int, end as int, out));
                        }
                        out
                    },
                }
            },
        }
    }
}

} // verus!
