//! Reading the steps of a task.

use crate::command::Command;
use crate::task::task::{same_but, Part, Task};
use crate::yaml::{entry, has_entry, hash_get, YamlValue};
use vstd::prelude::*;

verus! {

/// Why the steps of a task could not be read.
#[derive(Debug)]
pub enum StepsParseError {
    /// The steps are neither a string nor an array.
    NotStringOrArrayOfStrings,
    /// The step at this position is neither a string nor a hash with `run`.
    InvalidStep(usize),
    /// The `run` of the step at this position is not a string.
    RunEntryNotAString(usize),
}

/// The script of a step: the step itself where it is a string, its `run`
/// where it is a hash.
pub open spec fn step_script(step: YamlValue) -> Option<Seq<char>> {
    match step {
        YamlValue::String(cmd) => Some(cmd@),
        YamlValue::Hash(h) => if has_entry(h@, "run"@) && entry(h@, "run"@) is String {
            Some(entry(h@, "run"@)->String_0@)
        } else {
            None
        },
        _ => None,
    }
}

/// `out` holds the steps that `steps` declares: one step for a string, a
/// step for each item of an array.
pub open spec fn steps_parsed(steps: YamlValue, out: Seq<Command>) -> bool {
    match steps {
        YamlValue::String(cmd) => out.len() == 1 && out[0].script() == cmd@,
        YamlValue::Array(items) => out.len() == items@.len() && forall|i: int|
            0 <= i < items@.len() ==> step_script(#[trigger] items@[i]) == Some(out[i].script()),
        _ => false,
    }
}

/// What is wrong with the steps, if `e` is the error of reading them.
pub open spec fn steps_fault(steps: YamlValue, e: StepsParseError) -> bool {
    match e {
        StepsParseError::NotStringOrArrayOfStrings => !(steps is String) && !(steps is Array),
        StepsParseError::InvalidStep(i) => steps matches YamlValue::Array(items) && i < items@.len()
            && step_script(items@[i as int]) is None && !(items@[i as int] matches YamlValue::Hash(h)
            && has_entry(h@, "run"@)) && forall|j: int|
            0 <= j < i ==> step_script(#[trigger] items@[j]) is Some,
        StepsParseError::RunEntryNotAString(i) => steps matches YamlValue::Array(items) && i
            < items@.len() && (items@[i as int] matches YamlValue::Hash(h) && has_entry(h@, "run"@)
            && !(entry(h@, "run"@) is String)) && forall|j: int|
            0 <= j < i ==> step_script(#[trigger] items@[j]) is Some,
    }
}

/// Reads steps: a string is one step, an array a step per item, where an
/// item is a string or a hash whose `run` is a string.
pub fn parse_steps_impl(steps: &YamlValue) -> (r: Result<Vec<Command>, StepsParseError>)
    ensures
        match r {
            Ok(out) => steps_parsed(*steps, out@),
            Err(e) => steps_fault(*steps, e),
        },
{
    match steps {
        YamlValue::String(cmd) => {
            let mut out: Vec<Command> = Vec::new();
            out.push(Command::Shell(cmd.clone()));
            Ok(out)
        },
        YamlValue::Array(items) => {
            let mut out: Vec<Command> = Vec::new();
            let mut i: usize = 0;
            while i < items.len()
                invariant
                    i <= items@.len(),
                    *steps == YamlValue::Array(*items),
                    out@.len() == i,
                    forall|j: int|
                        0 <= j < i ==> step_script(#[trigger] items@[j]) == Some(out@[j].script()),
                decreases items@.len() - i,
            {
                match &items[i] {
                    YamlValue::String(cmd) => {
                        out.push(Command::Shell(cmd.clone()));
                    },
                    YamlValue::Hash(h) => match hash_get(h, "run") {
                        Some(YamlValue::String(run)) => {
                            out.push(Command::Shell(run.clone()));
                        },
                        Some(_) => {
                            return Err(StepsParseError::RunEntryNotAString(i));
                        },
                        None => {
                            return Err(StepsParseError::InvalidStep(i));
                        },
                    },
                    _ => {
                        return Err(StepsParseError::InvalidStep(i));
                    },
                }
                i += 1;
            }
            Ok(out)
        },
        _ => Err(StepsParseError::NotStringOrArrayOfStrings),
    }
}

/// Reads the steps of a task and puts them in place of those it has.
pub fn parse_steps(task: &mut Task, steps: &YamlValue) -> (r: Result<(), StepsParseError>)
    ensures
        match r {
            Ok(()) => steps_parsed(*steps, final(task).body.steps@) && same_but(
                *old(task),
                *final(task),
                Part::Steps,
            ),
            Err(e) => steps_fault(*steps, e) && *final(task) == *old(task),
        },
{
    match parse_steps_impl(steps) {
        Ok(parsed) => {
            task.body.steps = parsed;
            Ok(())
        },
        Err(e) => Err(e),
    }
}

/// Reads the clean steps of a task and puts them in place of those it has.
pub fn parse_clean(task: &mut Task, steps: &YamlValue) -> (r: Result<(), StepsParseError>)
    ensures
        match r {
            Ok(()) => final(task).body.clean is Some && steps_parsed(*steps, final(task).body.clean->0@)
                && same_but(*old(task), *final(task), Part::Clean),
            Err(e) => steps_fault(*steps, e) && *final(task) == *old(task),
        },
{
    match parse_steps_impl(steps) {
        Ok(parsed) => {
            task.body.clean = Some(parsed);
            Ok(())
        },
        Err(e) => Err(e),
    }
}

} // verus!
