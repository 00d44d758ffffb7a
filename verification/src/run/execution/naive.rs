//! How a step of a recipe is run: by the shell, or by the interpreter that
//! the first line of its script names.

use crate::command::Command;
use crate::task::params::texts_view;
use crate::text::{is_prefix, starts_with};
use vstd::prelude::*;

verus! {

/// The text that `str::trim` leaves of a text: the text without the white
/// space at its start and at its end.
pub uninterp spec fn trimmed(text: Seq<char>) -> Seq<char>;

/// The words that `shlex::split` reads out of a command line, by the
/// quoting rules of the shell; `None` where the line ends inside a quotation
/// or after a backslash.
pub uninterp spec fn shell_words(line: Seq<char>) -> Option<Seq<Seq<char>>>;

/// `str::trim`: a text without leading and trailing white space.
#[verifier::external_body]
pub(crate) fn trim(text: &str) -> (r: String)
    ensures
        r@ == trimmed(text@),
{
    text.trim().to_string()
}

/// `shlex::split`: the words of a command line.
#[verifier::external_body]
pub(crate) fn split_words(line: &str) -> (r: Option<Vec<String>>)
    ensures
        match r {
            Some(words) => shell_words(line@) == Some(texts_view(words@)),
            None => shell_words(line@) is None,
        },
{
    shlex::split(line)
}

/// What is to be started to run a step.
#[derive(Debug)]
pub struct ShellPlan {
    /// The program to start.
    pub program: String,
    /// Its arguments. Where `script` is there, the path of the file that
    /// the script was written to comes after them.
    pub args: Vec<String>,
    /// The text that has to be in a file for the program to read.
    pub script: Option<String>,
}

/// The two characters that open the line that names an interpreter.
pub open spec fn shebang() -> Seq<char> {
    seq!['#', '!']
}

/// The first line of a script: the text before its first line feed.
pub open spec fn first_line(script: Seq<char>) -> Seq<char> {
    if script.contains('\n') {
        script.subrange(0, first_feed(script))
    } else {
        script
    }
}

/// Whether `i` is the position of the first line feed of `script`.
pub open spec fn is_first_feed(script: Seq<char>, i: int) -> bool {
    0 <= i < script.len() && script[i] == '\n' && forall|j: int| 0 <= j < i ==> script[j] != '\n'
}

/// The position of the first line feed of a script that has one.
pub open spec fn first_feed(script: Seq<char>) -> int {
    choose|i: int| is_first_feed(script, i)
}

/// A line without the shebangs at its start.
pub open spec fn without_shebangs(line: Seq<char>) -> Seq<char>
    decreases line.len(),
{
    if is_prefix(shebang(), line) {
        without_shebangs(line.subrange(2, line.len() as int))
    } else {
        line
    }
}

/// The command line of the interpreter that a script names in its first
/// line, if that line opens with a shebang.
pub open spec fn interpreter_line(script: Seq<char>) -> Option<Seq<char>> {
    if is_prefix(shebang(), first_line(script)) {
        Some(trimmed(without_shebangs(first_line(script))))
    } else {
        None
    }
}

/// The first line of a script.
pub fn take_first_line(script: &str) -> (r: String)
    ensures
        r@ == first_line(script@),
{
    match crate::text::find_char(script, '\n') {
        Some(i) => {
            proof {
                let k = first_feed(script@);
                assert(is_first_feed(script@, i as int));
                assert(is_first_feed(script@, k));
                if k < i {
                    assert(script@[k] != '\n');
                }
                if i < k {
                    assert(script@[i as int] != '\n');
                }
            }
            crate::text::slice(script, 0, i)
        },
        None => {
            assert(!script@.contains('\n'));
            String::from_str(script)
        },
    }
}

/// A line without the shebangs at its start.
pub fn strip_shebangs(line: &str) -> (r: String)
    ensures
        r@ == without_shebangs(line@),
{
    let n = line.unicode_len();
    let mut from: usize = 0;
    proof {
        reveal_strlit("#!");
        assert("#!"@ =~= shebang());
        assert(line@.subrange(0, n as int) =~= line@);
    }
    while n - from >= 2 && crate::text::matches_at(line, "#!", from)
        invariant
            from <= n,
            n == line@.len(),
            "#!"@ == shebang(),
            without_shebangs(line@) == without_shebangs(line@.subrange(from as int, n as int)),
        decreases n - from,
    {
        proof {
            let rest = line@.subrange(from as int, n as int);
            assert(rest.subrange(0, 2) =~= line@.subrange(from as int, from + 2));
            assert(is_prefix(shebang(), rest));
            assert(rest.subrange(2, rest.len() as int) =~= line@.subrange(from + 2, n as int));
        }
        from += 2;
    }
    proof {
        let rest = line@.subrange(from as int, n as int);
        if is_prefix(shebang(), rest) {
            assert(rest.subrange(0, 2) =~= line@.subrange(from as int, from + 2));
            assert(crate::text::occurs_at(shebang(), line@, from as int));
        }
    }
    crate::text::slice(line, from, n)
}

/// The plan to run a script under the interpreter whose command line was
/// split into `words`: the first word is the program, the others are its
/// arguments, and the script goes into a file.
pub fn interpreter_plan(words: Vec<String>, script: &str) -> (r: ShellPlan)
    requires
        words@.len() > 0,
    ensures
        r.program@ == words@[0]@,
        texts_view(r.args@) == texts_view(words@).subrange(1, words@.len() as int),
        r.script matches Some(text) && text@ == script@,
{
    let mut words = words;
    let ghost all = words@;
    let program = words.remove(0);
    proof {
        assert(texts_view(words@) =~= texts_view(all).subrange(1, all.len() as int));
    }
    ShellPlan { program, args: words, script: Some(String::from_str(script)) }
}

/// The plan to run a script by the shell: `sh -c` and the script.
pub fn sh_plan(script: &str) -> (r: ShellPlan)
    ensures
        r.program@ == "sh"@,
        texts_view(r.args@) == seq!["-c"@, script@],
        r.script is None,
{
    let mut args: Vec<String> = Vec::new();
    args.push(String::from_str("-c"));
    args.push(String::from_str(script));
    assert(texts_view(args@) =~= seq!["-c"@, script@]);
    ShellPlan { program: String::from_str("sh"), args, script: None }
}

/// What is to be started for a script, given the words of its interpreter
/// line where it has one: the interpreter with the script in a file, or
/// the shell. `None` where the interpreter line has no word or cannot be
/// split.
pub open spec fn planned(script: Seq<char>, plan: Option<ShellPlan>) -> bool {
    match interpreter_line(script) {
        None => plan matches Some(p) && p.program@ == "sh"@ && texts_view(p.args@) == seq![
            "-c"@,
            script,
        ] && p.script is None,
        Some(line) => match shell_words(line) {
            None => plan is None,
            Some(words) => if words.len() == 0 {
                plan is None
            } else {
                plan matches Some(p) && p.program@ == words[0] && texts_view(p.args@) == words.subrange(
                    1,
                    words.len() as int,
                ) && (p.script matches Some(text) && text@ == script)
            },
        },
    }
}

/// Decides how a script is run. A script whose first line opens with `#!`
/// is run by the interpreter that the rest of the line names; any other
/// script is run by `sh -c`.
pub fn plan_shell(script: &str) -> (r: Option<ShellPlan>)
    ensures
        planned(script@, r),
{
    let line = take_first_line(script);
    proof {
        reveal_strlit("#!");
        assert("#!"@ =~= shebang());
    }
    if starts_with(line.as_str(), "#!") {
        let stripped = strip_shebangs(line.as_str());
        let interpreter = trim(stripped.as_str());
        match split_words(interpreter.as_str()) {
            Some(words) => {
                if words.len() == 0 {
                    None
                } else {
                    assert(texts_view(words@)[0] == words@[0]@);
                    Some(interpreter_plan(words, script))
                }
            },
            None => None,
        }
    } else {
        Some(sh_plan(script))
    }
}

/// Runs the steps of a recipe one after the other.
#[derive(Debug)]
pub struct NaiveExecutor {}

impl NaiveExecutor {
    /// The plans of the steps of a recipe, in order; `None` where the
    /// interpreter line of a step has no word or cannot be split.
    pub fn plan(commands: &Vec<Command>) -> (r: Option<Vec<ShellPlan>>)
        ensures
            match r {
                Some(plans) => plans@.len() == commands@.len() && forall|i: int|
                    0 <= i < commands@.len() ==> planned(
                        (#[trigger] commands@[i]).script(),
                        Some(plans@[i]),
                    ),
                None => exists|i: int|
                    0 <= i < commands@.len() && planned((#[trigger] commands@[i]).script(), None),
            },
    {
        let mut plans: Vec<ShellPlan> = Vec::new();
        let mut i: usize = 0;
        while i < commands.len()
            invariant
                i <= commands@.len(),
                plans@.len() == i,
                forall|j: int|
                    0 <= j < i ==> planned((#[trigger] commands@[j]).script(), Some(plans@[j])),
            decreases commands@.len() - i,
        {
            match plan_shell(commands[i].as_str()) {
                Some(plan) => {
                    plans.push(plan);
                },
                None => {
                    assert(planned(commands@[i as int].script(), None));
                    return None;
                },
            }
            i += 1;
        }
        Some(plans)
    }
}

} // verus!
