//! Executing the tasks of an ordered graph.

use crate::command::{copy_steps, Command};
use crate::json::Json;
use crate::paths::{is_within, joined_path, path_within};
use crate::run::dependency_resolution::DependencyGraph;
use crate::run::execution::triggers::{
    hashes_after, output_paths, verdict, NaiveTriggerChecker, OutputCheckError, OutputProbe,
    RunError, SourceProbe, Verdict,
};
use crate::strmap::StrMap;
use crate::task::task::{InstantiatedTask, OutputPath};
use crate::task::taskfile::Taskfile;
use crate::task::{layer_env, layered};
use crate::collections::env_members;
use vstd::prelude::*;

pub mod naive;
pub mod scheduler;
pub mod triggers;

verus! {

/// Why a task could not be run or cleaned.
#[derive(Debug)]
pub enum TaskExecutionError {
    /// The graph has no node of this number.
    TaskNotFound(usize),
    RemoveFileError(String),
    ShouldRunCheckError(RunError),
    OutputCheckError(OutputCheckError),
    CommandExecutorError(String),
    /// The output at this path does not lie under the taskfile's directory,
    /// so that nothing is removed.
    OutputOutsideTaskfile(String),
    Other(String),
}

/// What is to be done with a task whose turn it is.
#[derive(Debug)]
pub enum RunPlan {
    /// Run the steps in the working directory, with this environment.
    Execute { workdir: String, env: StrMap<Json>, steps: Vec<Command> },
    /// The task is up to date: nothing is run.
    UpToDate,
}

/// Decides whether the task of a node runs, from what was found at the
/// paths of its sources and outputs, and with what it runs: its steps, in
/// its working directory, with the environment of `current` and that of the
/// task laid over it.
pub fn maybe_run_single_task(
    current: &Taskfile,
    graph: &DependencyGraph,
    node: usize,
    trigger_checker: &NaiveTriggerChecker,
    context: &mut StrMap<crate::run::execution::triggers::Hash>,
    sources: &Vec<SourceProbe>,
    outputs: &Vec<OutputProbe>,
) -> (r: Result<RunPlan, TaskExecutionError>)
    requires
        current.env.wf(),
        trigger_checker.wf(),
        old(context).wf(),
        node < graph.instantiations@.len() ==> sources@.len()
            == graph.instantiations@[node as int].body.sources@.len()
            && outputs@.len() == graph.instantiations@[node as int].body.outputs.paths@.len(),
    ensures
        final(context).wf(),
        r is Ok ==> final(context).model() == if graph.instantiations@[node as int].body.outputs.paths@.len()
            > 0 && graph.instantiations@[node as int].body.steps@.len() > 0 {
            hashes_after(
                old(context).model(),
                output_paths(graph.instantiations@[node as int]),
                outputs@,
            )
        } else {
            old(context).model()
        },
        if node >= graph.instantiations@.len() {
            r matches Err(TaskExecutionError::TaskNotFound(n)) && n == node && final(context).model()
                == old(context).model()
        } else {
            match verdict(graph.instantiations@[node as int], sources@, outputs@, trigger_checker.known()) {
                Verdict::Run(true) => r matches Ok(RunPlan::Execute { workdir, env, steps }) && workdir@
                    == graph.instantiations@[node as int].body.workdir@ && layered(
                    current.env,
                    env_members(graph.instantiations@[node as int].body.env),
                    env,
                ) && steps@.len() == graph.instantiations@[node as int].body.steps@.len() && forall|
                    i: int,
                |
                    0 <= i < steps@.len() ==> (#[trigger] steps@[i]).script()
                        == graph.instantiations@[node as int].body.steps@[i].script(),
                Verdict::Run(false) => r matches Ok(RunPlan::UpToDate),
                _ => r matches Err(TaskExecutionError::ShouldRunCheckError(_)),
            }
        },
{
    if node >= graph.instantiations.len() {
        return Err(TaskExecutionError::TaskNotFound(node));
    }
    let task = &graph.instantiations[node];
    let should_run = match trigger_checker.should_run(task, context, sources, outputs) {
        Ok(b) => b,
        Err(e) => {
            return Err(TaskExecutionError::ShouldRunCheckError(e));
        },
    };
    if should_run {
        Ok(
            RunPlan::Execute {
                workdir: task.body.workdir.clone(),
                env: layer_env(&current.env, &task.body.env),
                steps: copy_steps(&task.body.steps),
            },
        )
    } else {
        Ok(RunPlan::UpToDate)
    }
}

/// What cleaning a task comes to.
#[derive(Debug)]
pub struct CleanPlan {
    /// Where the clean steps run.
    pub workdir: String,
    /// The environment of the clean steps.
    pub env: StrMap<Json>,
    /// The clean steps, where the task declares any.
    pub steps: Option<Vec<Command>>,
    /// The outputs to remove where they exist: a file by itself, a
    /// directory with all that is in it.
    pub removals: Vec<OutputPath>,
}

/// The paths of the outputs of a task, each taken from its working directory.
pub open spec fn resolved_paths(task: InstantiatedTask) -> Seq<Seq<char>> {
    Seq::new(
        task.body.outputs.paths@.len(),
        |i: int| joined_path(task.body.workdir@, task.body.outputs.paths@[i].path()),
    )
}

/// The output at position `i` is the first that does not lie under `dir`.
pub open spec fn first_outside(task: InstantiatedTask, dir: Seq<char>, i: int) -> bool {
    &&& 0 <= i < resolved_paths(task).len()
    &&& !path_within(resolved_paths(task)[i], dir)
    &&& forall|j: int| 0 <= j < i ==> path_within(#[trigger] resolved_paths(task)[j], dir)
}

/// Every output lies under `dir`.
pub open spec fn all_inside(task: InstantiatedTask, dir: Seq<char>) -> bool {
    forall|j: int|
        0 <= j < resolved_paths(task).len() ==> path_within(#[trigger] resolved_paths(task)[j], dir)
}

/// What planning the cleaning of a task comes to: the plan, where every
/// output lies under the directory of the taskfile; else the first output
/// that does not.
pub open spec fn clean_planned(
    tasks: Taskfile,
    task: InstantiatedTask,
    r: Result<CleanPlan, TaskExecutionError>,
) -> bool {
    match r {
        Ok(plan) => {
            &&& all_inside(task, tasks.dir@)
            &&& plan.workdir@ == task.body.workdir@
            &&& layered(tasks.env, env_members(task.body.env), plan.env)
            &&& plan.removals@.len() == task.body.outputs.paths@.len()
            &&& forall|i: int|
                0 <= i < plan.removals@.len() ==> (#[trigger] plan.removals@[i]).path()
                    == resolved_paths(task)[i] && plan.removals@[i].is_directory()
                    == task.body.outputs.paths@[i].is_directory() && path_within(
                    plan.removals@[i].path(),
                    tasks.dir@,
                )
            &&& match task.body.clean {
                Some(steps) => plan.steps matches Some(copy) && copy@.len() == steps@.len()
                    && forall|i: int|
                    0 <= i < steps@.len() ==> (#[trigger] copy@[i]).script() == steps@[i].script(),
                None => plan.steps is None,
            }
        },
        Err(TaskExecutionError::OutputOutsideTaskfile(path)) => exists|i: int|
            first_outside(task, tasks.dir@, i) && path@ == resolved_paths(task)[i],
        Err(_) => false,
    }
}

/// Plans the cleaning of a task: its clean steps, and the removal of its
/// declared outputs. Where an output does not lie under the directory of
/// the taskfile, there is no plan: nothing outside that directory is ever
/// removed.
pub fn clean_instantiated_task(tasks: &Taskfile, task: &InstantiatedTask) -> (r: Result<
    CleanPlan,
    TaskExecutionError,
>)
    requires
        tasks.env.wf(),
    ensures
        clean_planned(*tasks, *task, r),
{
    let removals = task.resolve_outputs();
    let mut i: usize = 0;
    while i < removals.len()
        invariant
            i <= removals@.len(),
            removals@.len() == task.body.outputs.paths@.len(),
            forall|j: int|
                0 <= j < removals@.len() ==> (#[trigger] removals@[j]).path() == resolved_paths(*task)[j]
                    && removals@[j].is_directory() == task.body.outputs.paths@[j].is_directory(),
            forall|j: int| 0 <= j < i ==> path_within(#[trigger] resolved_paths(*task)[j], tasks.dir@),
        decreases removals@.len() - i,
    {
        if !is_within(removals[i].as_str(), tasks.dir.as_str()) {
            assert(first_outside(*task, tasks.dir@, i as int));
            return Err(TaskExecutionError::OutputOutsideTaskfile(removals[i].as_str().to_owned()));
        }
        i += 1;
    }
    let steps = match &task.body.clean {
        Some(clean_steps) => Some(copy_steps(clean_steps)),
        None => None,
    };
    Ok(
        CleanPlan {
            workdir: task.body.workdir.clone(),
            env: layer_env(&tasks.env, &task.body.env),
            steps,
            removals,
        },
    )
}

/// An output that is there and may be removed.
#[derive(Debug)]
pub struct ConfirmedRemoval {
    /// The output as the plan names it.
    pub output: OutputPath,
    /// The canonical form of its path, under the directory of the taskfile.
    pub canonical: String,
}

/// Decides, after the clean steps have run, which outputs of a plan are
/// removed. `found` holds for each output of the plan the canonical form of
/// its path, where the output is there. An output that is not there is not
/// removed. Where the canonical form of an output that is there does not
/// lie under the directory of the taskfile, nothing is removed at all.
pub fn confirm_removals(tasks: &Taskfile, plan: &CleanPlan, found: &Vec<Option<String>>) -> (r: Result<
    Vec<Option<ConfirmedRemoval>>,
    TaskExecutionError,
>)
    requires
        found@.len() == plan.removals@.len(),
    ensures
        match r {
            Ok(confirmed) => confirmed@.len() == found@.len() && forall|i: int|
                0 <= i < found@.len() ==> match #[trigger] found@[i] {
                    Some(canonical) => confirmed@[i] matches Some(removal) && removal.canonical@
                        == canonical@ && path_within(removal.canonical@, tasks.dir@)
                        && removal.output.path() == plan.removals@[i].path()
                        && removal.output.is_directory() == plan.removals@[i].is_directory(),
                    None => confirmed@[i] is None,
                },
            Err(TaskExecutionError::OutputOutsideTaskfile(path)) => exists|i: int|
                0 <= i < found@.len() && (#[trigger] found@[i]) is Some && found@[i]->0@ == path@
                    && !path_within(path@, tasks.dir@) && forall|j: int|
                    0 <= j < i ==> ((#[trigger] found@[j]) is Some ==> path_within(
                        found@[j]->0@,
                        tasks.dir@,
                    )),
            Err(_) => false,
        },
{
    let mut confirmed: Vec<Option<ConfirmedRemoval>> = Vec::new();
    let mut i: usize = 0;
    while i < found.len()
        invariant
            i <= found@.len(),
            found@.len() == plan.removals@.len(),
            confirmed@.len() == i,
            forall|j: int|
                0 <= j < i ==> match #[trigger] found@[j] {
                    Some(canonical) => confirmed@[j] matches Some(removal) && removal.canonical@
                        == canonical@ && path_within(removal.canonical@, tasks.dir@)
                        && removal.output.path() == plan.removals@[j].path()
                        && removal.output.is_directory() == plan.removals@[j].is_directory(),
                    None => confirmed@[j] is None,
                },
        decreases found@.len() - i,
    {
        match &found[i] {
            Some(canonical) => {
                if !is_within(canonical.as_str(), tasks.dir.as_str()) {
                    assert forall|j: int| 0 <= j < i && (#[trigger] found@[j]) is Some implies path_within(
                        found@[j]->0@,
                        tasks.dir@,
                    ) by {
                        assert(confirmed@[j] is Some);
                    }
                    return Err(TaskExecutionError::OutputOutsideTaskfile(canonical.clone()));
                }
                confirmed.push(
                    Some(
                        ConfirmedRemoval {
                            output: plan.removals[i].duplicate(),
                            canonical: canonical.clone(),
                        },
                    ),
                );
            },
            None => {
                confirmed.push(None);
            },
        }
        i += 1;
    }
    Ok(confirmed)
}

/// Plans the cleaning of the task of a node of a graph.
pub fn clean_single_task(tasks: &Taskfile, graph: &DependencyGraph, node: usize) -> (r: Result<
    CleanPlan,
    TaskExecutionError,
>)
    requires
        tasks.env.wf(),
    ensures
        if node < graph.instantiations@.len() {
            clean_planned(*tasks, graph.instantiations@[node as int], r)
        } else {
            r matches Err(TaskExecutionError::TaskNotFound(n)) && n == node
        },
{
    if node >= graph.instantiations.len() {
        return Err(TaskExecutionError::TaskNotFound(node));
    }
    clean_instantiated_task(tasks, &graph.instantiations[node])
}

} // verus!
