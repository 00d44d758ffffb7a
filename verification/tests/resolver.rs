use birb_task::run::dependency_resolution::{
    build_dependency_graph, DependencyGraphConstructionError, TopologicalSortError,
};
use birb_task::run::{run, run_parallel, RunError, SequentialStep};
use birb_task::run::execution::scheduler::Action;
use birb_task::json::Json;
use birb_task::strmap::StrMap;
use birb_task::task::invocation::TaskInvocation;
use birb_task::task::loader::{Found, LoadSession, LoadStep};
use birb_task::task::task_ref::{TaskRef, TaskfileId};
use birb_task::task::taskfile::Taskfile;
use birb_task::task::workspace::Workspace;
use birb_task::template::Engine;
use handlebars::Handlebars;

/// Loads taskfiles given as (canonical path, directory, text); imports are
/// found under the path that the importing taskfile gives, taken from its
/// directory.
fn load(files: &[(&str, &str, &str)], root: &str) -> (Workspace, TaskfileId) {
    let (mut session, mut step) = LoadSession::begin(Workspace::new(), root);
    loop {
        step = match step {
            LoadStep::Find(path) => {
                let found = match files.iter().find(|f| f.0 == path) {
                    Some(f) => Found::At(f.0.to_string()),
                    None => Found::NotFound,
                };
                session.found(&path, found)
            }
            LoadStep::Load(id) => {
                let f = files.iter().find(|f| f.0 == id.as_str()).unwrap();
                let taskfile = Taskfile::from_yaml_source(f.2, f.0, f.1).unwrap();
                session.loaded(Ok(taskfile))
            }
            LoadStep::Done(id) => return (session.finish(), id),
            LoadStep::Failed(e) => panic!("loading failed: {:?}", e),
        }
    }
}

fn names(graph: &birb_task::run::dependency_resolution::DependencyGraph, order: &[usize]) -> Vec<String> {
    order.iter().map(|n| graph.nodes[*n].reference.name.clone()).collect()
}

fn sequential_order(run: &mut birb_task::run::SequentialRun) -> Vec<usize> {
    let mut out = Vec::new();
    loop {
        match run.next_task(true) {
            SequentialStep::Run(n) => out.push(n),
            SequentialStep::Done => return out,
            SequentialStep::Interrupted => panic!("not interrupted"),
        }
    }
}

const LINEAR: &str = "
tasks:
  a:
    steps: [\"echo a\"]
  b:
    deps: [a]
    steps: [\"echo b\"]
  c:
    deps: [b]
    steps: [\"echo c\"]
";

#[test]
fn trivial_linear_running_c() {
    let (ws, id) = load(&[("/w/tasks.yaml", "/w", LINEAR)], "/w/tasks.yaml");
    let current = ws.get(&id).unwrap();
    let mut hb = Engine::new(Handlebars::new()).unwrap();
    let (graph, mut seq) = run(&mut hb, &ws, current, &TaskInvocation::no_args(TaskRef::parse("c"))).unwrap();
    let order = sequential_order(&mut seq);
    assert_eq!(names(&graph, &order), vec!["a", "b", "c"]);
}

#[test]
fn trivial_linear_running_a() {
    let (ws, id) = load(&[("/w/tasks.yaml", "/w", LINEAR)], "/w/tasks.yaml");
    let current = ws.get(&id).unwrap();
    let mut hb = Engine::new(Handlebars::new()).unwrap();
    let (graph, mut seq) = run(&mut hb, &ws, current, &TaskInvocation::no_args(TaskRef::parse("a"))).unwrap();
    let order = sequential_order(&mut seq);
    assert_eq!(names(&graph, &order), vec!["a"]);
}

const DIAMOND: &str = "
tasks:
  a:
    deps: [b, c]
  b:
    deps: [d]
  c:
    deps: [d]
  d: {}
";

#[test]
fn diamond_order() {
    let (ws, id) = load(&[("/w/tasks.yaml", "/w", DIAMOND)], "/w/tasks.yaml");
    let current = ws.get(&id).unwrap();
    let mut hb = Engine::new(Handlebars::new()).unwrap();
    let (graph, mut seq) = run(&mut hb, &ws, current, &TaskInvocation::no_args(TaskRef::parse("a"))).unwrap();
    assert_eq!(graph.nodes.len(), 4);
    let order = sequential_order(&mut seq);
    assert_eq!(names(&graph, &order), vec!["d", "b", "c", "a"]);
}

#[test]
fn diamond_in_parallel() {
    let (ws, id) = load(&[("/w/tasks.yaml", "/w", DIAMOND)], "/w/tasks.yaml");
    let current = ws.get(&id).unwrap();
    let mut hb = Engine::new(Handlebars::new()).unwrap();
    let (graph, mut scheduler) =
        run_parallel(&mut hb, &ws, current, &TaskInvocation::no_args(TaskRef::parse("a")), 2).unwrap();
    let name = |n: usize| graph.nodes[n].reference.name.clone();
    let d = match scheduler.next_action(true) {
        Action::Spawn(n) => n,
        other => panic!("unexpected {:?}", other),
    };
    assert_eq!(name(d), "d");
    // d must finish before either b or c starts
    assert!(matches!(scheduler.next_action(true), Action::Wait));
    scheduler.job_finished(d, true);
    let b = match scheduler.next_action(true) {
        Action::Spawn(n) => n,
        other => panic!("unexpected {:?}", other),
    };
    let c = match scheduler.next_action(true) {
        Action::Spawn(n) => n,
        other => panic!("unexpected {:?}", other),
    };
    assert_eq!((name(b), name(c)), ("b".to_string(), "c".to_string()));
    // a waits for both
    assert!(matches!(scheduler.next_action(true), Action::Wait));
    scheduler.job_finished(c, true);
    assert!(matches!(scheduler.next_action(true), Action::Wait));
    scheduler.job_finished(b, true);
    match scheduler.next_action(true) {
        Action::Spawn(n) => assert_eq!(name(n), "a"),
        other => panic!("unexpected {:?}", other),
    }
}

const CYCLE: &str = "
tasks:
  a:
    deps: [b]
  b:
    deps: [a]
";

#[test]
fn cycle_is_detected() {
    let (ws, id) = load(&[("/w/tasks.yaml", "/w", CYCLE)], "/w/tasks.yaml");
    let current = ws.get(&id).unwrap();
    let mut hb = Engine::new(Handlebars::new()).unwrap();
    let graph = build_dependency_graph(&mut hb, &ws, current, &TaskInvocation::no_args(TaskRef::parse("a"))).unwrap();
    match run(&mut hb, &ws, current, &TaskInvocation::no_args(TaskRef::parse("a"))) {
        Err(RunError::TopologicalSortError(TopologicalSortError::CycleDetected(path))) => {
            let in_cycle = names(&graph, &path);
            assert!(in_cycle.contains(&"a".to_string()));
            assert!(in_cycle.contains(&"b".to_string()));
            assert_eq!(path.first(), path.last());
        }
        other => panic!("unexpected {:?}", other.map(|_| ())),
    }
}

const PARAMETRIC: &str = "
tasks:
  compile:
    params:
      name: string
    outputs: [\"{{args.name}}.o\"]
    steps: [\"cc -c {{args.name}}.c\"]
  build:
    deps:
      - task: compile
        with: { name: foo }
      - task: compile
        with: { name: bar }
      - task: compile
        with: { name: foo }
";

#[test]
fn parametric_dependencies_are_distinct_nodes() {
    let (ws, id) = load(&[("/w/tasks.yaml", "/w", PARAMETRIC)], "/w/tasks.yaml");
    let current = ws.get(&id).unwrap();
    let mut hb = Engine::new(Handlebars::new()).unwrap();
    let (graph, mut seq) = run(&mut hb, &ws, current, &TaskInvocation::no_args(TaskRef::parse("build"))).unwrap();
    // build, compile(foo), compile(bar): the second compile(foo) is the same node
    assert_eq!(graph.nodes.len(), 3);
    assert_eq!(graph.nodes[0].reference.name, "build");
    assert_eq!(graph.nodes[1].reference.name, "compile");
    assert_eq!(graph.nodes[2].reference.name, "compile");
    assert!(graph.nodes[1].args.get("name").unwrap().equals(&Json::String("foo".to_string())));
    assert!(graph.nodes[2].args.get("name").unwrap().equals(&Json::String("bar".to_string())));
    // the repeated dependency moves to the end of the successors
    let successors: Vec<usize> = graph.edges.get(&0).unwrap().iter().copied().collect();
    assert_eq!(successors, vec![2, 1]);
    assert_eq!(graph.instantiations[1].body.outputs.paths[0].as_str(), "foo.o");
    assert_eq!(graph.instantiations[2].body.outputs.paths[0].as_str(), "bar.o");
    assert_eq!(graph.instantiations[1].body.steps[0].as_str(), "cc -c foo.c");
    let order = sequential_order(&mut seq);
    assert_eq!(order, vec![2, 1, 0]);
}

#[test]
fn parametric_dependencies_may_run_together() {
    let (ws, id) = load(&[("/w/tasks.yaml", "/w", PARAMETRIC)], "/w/tasks.yaml");
    let current = ws.get(&id).unwrap();
    let mut hb = Engine::new(Handlebars::new()).unwrap();
    let (_graph, mut scheduler) =
        run_parallel(&mut hb, &ws, current, &TaskInvocation::no_args(TaskRef::parse("build")), 2).unwrap();
    assert!(matches!(scheduler.next_action(true), Action::Spawn(2)));
    assert!(matches!(scheduler.next_action(true), Action::Spawn(1)));
    assert!(matches!(scheduler.next_action(true), Action::Wait));
    scheduler.job_finished(1, true);
    assert!(matches!(scheduler.next_action(true), Action::Wait));
    scheduler.job_finished(2, true);
    assert!(matches!(scheduler.next_action(true), Action::Spawn(0)));
}

const IMPORTER: &str = "
imports:
  sub: lib/tasks.yaml
tasks:
  x:
    deps: [\"sub:y\"]
  y:
    steps: [\"echo the wrong y\"]
";

const IMPORTED: &str = "
tasks:
  y:
    deps: [z]
    steps: [\"echo y\"]
  z: {}
";

#[test]
fn import_resolves_to_the_defining_taskfile() {
    let files = [("/w/tasks.yaml", "/w", IMPORTER), ("/w/lib/tasks.yaml", "/w/lib", IMPORTED)];
    let (ws, id) = load(&files, "/w/tasks.yaml");
    assert_eq!(id.as_str(), "/w/tasks.yaml");
    let current = ws.get(&id).unwrap();
    let mut hb = Engine::new(Handlebars::new()).unwrap();
    let (graph, mut seq) = run(&mut hb, &ws, current, &TaskInvocation::no_args(TaskRef::parse("x"))).unwrap();
    assert_eq!(graph.nodes.len(), 3);
    assert_eq!(graph.nodes[0].reference.taskfile.as_str(), "/w/tasks.yaml");
    assert_eq!(graph.nodes[1].reference.taskfile.as_str(), "/w/lib/tasks.yaml");
    assert_eq!(graph.nodes[1].reference.name, "y");
    // the dependency of y is looked up in the taskfile that defines y
    assert_eq!(graph.nodes[2].reference.taskfile.as_str(), "/w/lib/tasks.yaml");
    assert_eq!(graph.nodes[2].reference.name, "z");
    assert_eq!(graph.instantiations[1].body.steps[0].as_str(), "echo y");
    let order = sequential_order(&mut seq);
    assert_eq!(names(&graph, &order), vec!["z", "y", "x"]);
}

#[test]
fn resolve_task_by_name_and_by_alias() {
    let files = [("/w/tasks.yaml", "/w", IMPORTER), ("/w/lib/tasks.yaml", "/w/lib", IMPORTED)];
    let (ws, id) = load(&files, "/w/tasks.yaml");
    let current = ws.get(&id).unwrap();
    let (tf, task) = ws.resolve_task(current, &TaskRef::parse("y")).unwrap();
    assert_eq!(tf.id.as_str(), "/w/tasks.yaml");
    assert_eq!(task.body.steps[0].as_str(), "echo the wrong y");
    let (tf, task) = ws.resolve_task(current, &TaskRef::parse("sub:y")).unwrap();
    assert_eq!(tf.id.as_str(), "/w/lib/tasks.yaml");
    assert_eq!(task.body.steps[0].as_str(), "echo y");
    assert!(ws.resolve_task(current, &TaskRef::parse("nope")).is_none());
    assert!(ws.resolve_task(current, &TaskRef::parse("sub:nope")).is_none());
    assert!(ws.resolve_task(current, &TaskRef::parse("other:y")).is_none());
    assert!(ws.resolve_task(current, &TaskRef::parse("sub:z")).is_some());
    assert!(ws.resolve_task(current, &TaskRef::parse("z")).is_none());
}

#[test]
fn resolve_invocation_names_the_defining_taskfile() {
    let files = [("/w/tasks.yaml", "/w", IMPORTER), ("/w/lib/tasks.yaml", "/w/lib", IMPORTED)];
    let (ws, id) = load(&files, "/w/tasks.yaml");
    let current = ws.get(&id).unwrap();
    let mut args: StrMap<Json> = StrMap::new();
    args.insert("n".to_string(), Json::Number("1".to_string()));
    let invocation = TaskInvocation { reference: TaskRef::parse("sub:y"), args };
    let (resolved, _task) = ws.resolve_invocation(current, &invocation).unwrap();
    assert_eq!(resolved.reference.taskfile.as_str(), "/w/lib/tasks.yaml");
    assert_eq!(resolved.reference.name, "y");
    assert!(resolved.args.get("n").unwrap().equals(&Json::Number("1".to_string())));
    let (tf, task) = ws.resolve_invocation_task(&resolved).unwrap();
    assert_eq!(tf.id.as_str(), "/w/lib/tasks.yaml");
    assert_eq!(task.name, "y");
}

#[test]
fn unknown_root_task_is_a_resolution_error() {
    let (ws, id) = load(&[("/w/tasks.yaml", "/w", LINEAR)], "/w/tasks.yaml");
    let current = ws.get(&id).unwrap();
    let mut hb = Engine::new(Handlebars::new()).unwrap();
    match build_dependency_graph(&mut hb, &ws, current, &TaskInvocation::no_args(TaskRef::parse("zzz"))) {
        Err(DependencyGraphConstructionError::TaskfileInvocationResolutionError(tf, inv)) => {
            assert_eq!(tf.as_str(), "/w/tasks.yaml");
            assert_eq!(inv.reference.to_text(), "zzz");
        }
        other => panic!("unexpected {:?}", other.map(|_| ())),
    }
}

const BROKEN_DEP: &str = "
tasks:
  a:
    deps: [missing]
";

#[test]
fn unknown_dependency_is_a_resolution_error() {
    let (ws, id) = load(&[("/w/tasks.yaml", "/w", BROKEN_DEP)], "/w/tasks.yaml");
    let current = ws.get(&id).unwrap();
    let mut hb = Engine::new(Handlebars::new()).unwrap();
    match build_dependency_graph(&mut hb, &ws, current, &TaskInvocation::no_args(TaskRef::parse("a"))) {
        Err(DependencyGraphConstructionError::TaskfileInvocationResolutionError(_, inv)) => {
            assert_eq!(inv.reference.to_text(), "missing");
        }
        other => panic!("unexpected {:?}", other.map(|_| ())),
    }
}

#[test]
fn missing_argument_is_an_instantiation_error() {
    let (ws, id) = load(&[("/w/tasks.yaml", "/w", PARAMETRIC)], "/w/tasks.yaml");
    let current = ws.get(&id).unwrap();
    let mut hb = Engine::new(Handlebars::new()).unwrap();
    match build_dependency_graph(&mut hb, &ws, current, &TaskInvocation::no_args(TaskRef::parse("compile"))) {
        Err(DependencyGraphConstructionError::InstantiationError(_)) => {}
        other => panic!("unexpected {:?}", other.map(|_| ())),
    }
}

#[test]
fn arguments_in_another_order_are_the_same_node() {
    let text = "
tasks:
  t:
    params: { a: string, b: string }
  top:
    deps:
      - task: t
        with: { a: x, b: y }
      - task: t
        with: { b: y, a: x }
";
    let (ws, id) = load(&[("/w/tasks.yaml", "/w", text)], "/w/tasks.yaml");
    let current = ws.get(&id).unwrap();
    let mut hb = Engine::new(Handlebars::new()).unwrap();
    let graph = build_dependency_graph(&mut hb, &ws, current, &TaskInvocation::no_args(TaskRef::parse("top"))).unwrap();
    assert_eq!(graph.nodes.len(), 2);
}

#[test]
fn sequential_run_stops_when_interrupted() {
    let (ws, id) = load(&[("/w/tasks.yaml", "/w", LINEAR)], "/w/tasks.yaml");
    let current = ws.get(&id).unwrap();
    let mut hb = Engine::new(Handlebars::new()).unwrap();
    let (_graph, mut seq) = run(&mut hb, &ws, current, &TaskInvocation::no_args(TaskRef::parse("c"))).unwrap();
    assert!(matches!(seq.next_task(true), SequentialStep::Run(_)));
    assert_eq!(seq.next_task(false), SequentialStep::Interrupted);
    assert_eq!(seq.next_task(false), SequentialStep::Interrupted);
    assert!(matches!(seq.next_task(true), SequentialStep::Run(_)));
    assert!(matches!(seq.next_task(true), SequentialStep::Run(_)));
    // after the last task the flag is not looked at any more
    assert_eq!(seq.next_task(false), SequentialStep::Done);
}
