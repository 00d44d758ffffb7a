use birb_task::command::Command;
use birb_task::json::Json;
use birb_task::run::execution::{clean_instantiated_task, confirm_removals, TaskExecutionError};
use birb_task::run::{clean, clean_only, RunError};
use birb_task::task::invocation::TaskInvocation;
use birb_task::task::loader::{Found, LoadSession, LoadStep};
use birb_task::task::task::{InstantiatedTask, OutputPath, Task};
use birb_task::task::task_ref::{TaskRef, TaskfileId};
use birb_task::task::taskfile::Taskfile;
use birb_task::task::workspace::Workspace;
use birb_task::template::Engine;
use handlebars::Handlebars;

fn load(path: &str, dir: &str, text: &str) -> (Workspace, TaskfileId) {
    let (mut session, step) = LoadSession::begin(Workspace::new(), path);
    assert!(matches!(step, LoadStep::Find(_)));
    let step = session.found(path, Found::At(path.to_string()));
    assert!(matches!(step, LoadStep::Load(_)));
    match session.loaded(Ok(Taskfile::from_yaml_source(text, path, dir).unwrap())) {
        LoadStep::Done(id) => (session.finish(), id),
        other => panic!("unexpected {:?}", other),
    }
}

fn taskfile(dir: &str) -> Taskfile {
    Taskfile::from_yaml_source("env: { A: 1 }", &format!("{}/tasks.yaml", dir), dir).unwrap()
}

fn instantiated(workdir: &str, outputs: Vec<OutputPath>) -> InstantiatedTask {
    let mut body = Task::new("t").body;
    body.workdir = workdir.to_string();
    body.outputs.paths = outputs;
    InstantiatedTask { name: "t".to_string(), body }
}

#[test]
fn outputs_under_the_taskfile_are_removed() {
    let tf = taskfile("/w/project");
    let mut task = instantiated(
        "/w/project/sub",
        vec![OutputPath::File("a.o".to_string()), OutputPath::Directory("out/".to_string())],
    );
    task.body.clean = Some(vec![Command::Shell("make clean".to_string())]);
    task.body.env.insert("B".to_string(), Json::String("2".to_string()));
    let plan = clean_instantiated_task(&tf, &task).unwrap();
    assert_eq!(plan.workdir, "/w/project/sub");
    assert_eq!(plan.removals.len(), 2);
    assert!(matches!(&plan.removals[0], OutputPath::File(p) if p == "/w/project/sub/a.o"));
    assert!(matches!(&plan.removals[1], OutputPath::Directory(p) if p == "/w/project/sub/out/"));
    assert_eq!(plan.steps.as_ref().unwrap()[0].as_str(), "make clean");
    assert!(plan.env.contains_key("A"));
    assert!(plan.env.contains_key("B"));
}

#[test]
fn output_outside_the_taskfile_is_never_removed() {
    let tf = taskfile("/w/project");
    for (workdir, output) in [
        ("/w/project", "/etc/passwd"),
        ("/w/other", "a.o"),
        ("/w/projectile", "a.o"),
        ("/w", "a.o"),
    ] {
        let task = instantiated(workdir, vec![OutputPath::File("fine".to_string()), OutputPath::File(output.to_string())]);
        let task = if workdir == "/w/project" { task } else { instantiated(workdir, vec![OutputPath::File(output.to_string())]) };
        match clean_instantiated_task(&tf, &task) {
            Err(TaskExecutionError::OutputOutsideTaskfile(path)) => assert!(!path.starts_with("/w/project/")),
            other => panic!("unexpected {:?} for {} {}", other, workdir, output),
        }
    }
}

#[test]
fn task_without_outputs_or_clean_steps_has_an_empty_plan() {
    let plan = clean_instantiated_task(&taskfile("/w"), &instantiated("/w", vec![])).unwrap();
    assert!(plan.removals.is_empty());
    assert!(plan.steps.is_none());
}

const TASKS: &str = "
tasks:
  top:
    workdir: /w
    deps: [leaf]
    outputs: [top.bin]
  leaf:
    workdir: /w
    outputs: [leaf.o, gen/]
    clean: [\"rm -rf extra\"]
  stray:
    workdir: /elsewhere
    outputs: [x]
  needs_stray:
    workdir: /w
    deps: [stray]
";

#[test]
fn clean_goes_from_the_root_to_the_leaves() {
    let (ws, id) = load("/w/tasks.yaml", "/w", TASKS);
    let current = ws.get(&id).unwrap();
    let mut hb = Engine::new(Handlebars::new()).unwrap();
    let cleaning = clean(&mut hb, &ws, current, &TaskInvocation::no_args(TaskRef::parse("top"))).unwrap();
    let names: Vec<&str> =
        cleaning.order.iter().map(|n| cleaning.graph.nodes[*n].reference.name.as_str()).collect();
    assert_eq!(names, vec!["top", "leaf"]);
    let plans = cleaning.plans;
    assert_eq!(plans.len(), 2);
    assert_eq!(plans[0].removals[0].as_str(), "/w/top.bin");
    assert_eq!(plans[1].removals[0].as_str(), "/w/leaf.o");
    assert!(matches!(&plans[1].removals[1], OutputPath::Directory(p) if p == "/w/gen/"));
    assert_eq!(plans[1].steps.as_ref().unwrap()[0].as_str(), "rm -rf extra");
}

#[test]
fn clean_refuses_as_a_whole_when_something_lies_outside() {
    let (ws, id) = load("/w/tasks.yaml", "/w", TASKS);
    let current = ws.get(&id).unwrap();
    let mut hb = Engine::new(Handlebars::new()).unwrap();
    assert!(matches!(
        clean(&mut hb, &ws, current, &TaskInvocation::no_args(TaskRef::parse("needs_stray"))).map(|_| ()),
        Err(RunError::ExecutionError(TaskExecutionError::OutputOutsideTaskfile(_)))
    ));
}

#[test]
fn clean_only_cleans_one_task() {
    let (ws, id) = load("/w/tasks.yaml", "/w", TASKS);
    let current = ws.get(&id).unwrap();
    let mut hb = Engine::new(Handlebars::new()).unwrap();
    let plan = clean_only(&mut hb, &ws, current, &TaskInvocation::no_args(TaskRef::parse("top"))).unwrap();
    assert_eq!(plan.removals.len(), 1);
    assert_eq!(plan.removals[0].as_str(), "/w/top.bin");
    match clean_only(&mut hb, &ws, current, &TaskInvocation::no_args(TaskRef::parse("nope"))) {
        Err(RunError::TaskNotFound(reference)) => assert_eq!(reference.to_text(), "nope"),
        other => panic!("unexpected {:?}", other.map(|_| ())),
    }
    assert!(matches!(
        clean_only(&mut hb, &ws, current, &TaskInvocation::no_args(TaskRef::parse("stray"))),
        Err(RunError::ExecutionError(TaskExecutionError::OutputOutsideTaskfile(_)))
    ));
}

#[test]
fn only_what_is_there_and_lies_inside_is_removed() {
    let tf = taskfile("/w/project");
    let task = instantiated(
        "/w/project",
        vec![
            OutputPath::File("a.o".to_string()),
            OutputPath::File("gone.o".to_string()),
            OutputPath::Directory("out/".to_string()),
        ],
    );
    let plan = clean_instantiated_task(&tf, &task).unwrap();
    let found = vec![Some("/w/project/a.o".to_string()), None, Some("/w/project/real/out".to_string())];
    let confirmed = confirm_removals(&tf, &plan, &found).unwrap();
    assert_eq!(confirmed.len(), 3);
    let first = confirmed[0].as_ref().unwrap();
    assert_eq!(first.canonical, "/w/project/a.o");
    assert!(matches!(&first.output, OutputPath::File(p) if p == "/w/project/a.o"));
    assert!(confirmed[1].is_none());
    let third = confirmed[2].as_ref().unwrap();
    assert_eq!(third.canonical, "/w/project/real/out");
    assert!(matches!(&third.output, OutputPath::Directory(_)));
}

#[test]
fn an_output_that_really_lies_outside_stops_every_removal() {
    let tf = taskfile("/w/project");
    // by their names both outputs lie inside
    let task = instantiated(
        "/w/project",
        vec![OutputPath::File("a.o".to_string()), OutputPath::File("link/x".to_string())],
    );
    let plan = clean_instantiated_task(&tf, &task).unwrap();
    // but `link` leads out of the directory
    let found = vec![Some("/w/project/a.o".to_string()), Some("/etc/x".to_string())];
    match confirm_removals(&tf, &plan, &found) {
        Err(TaskExecutionError::OutputOutsideTaskfile(path)) => assert_eq!(path, "/etc/x"),
        other => panic!("unexpected {:?}", other),
    }
    let found = vec![None, Some("/w/projectile/x".to_string())];
    assert!(confirm_removals(&tf, &plan, &found).is_err());
    let found = vec![None, None];
    assert!(confirm_removals(&tf, &plan, &found).unwrap().iter().all(|r| r.is_none()));
}
