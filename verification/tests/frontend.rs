use birb_task::json::Json;
use birb_task::run::execution::triggers::{hash_contents, FileKind, NaiveTriggerChecker, OutputProbe, SourceProbe};
use birb_task::run::execution::{maybe_run_single_task, RunPlan, TaskExecutionError};
use birb_task::run::run;
use birb_task::task::frontend::{
    has_task_stem, maybe_source_from_file, maybe_yaml_source_from_file, SourceError, TaskfileSource,
    YamlExecutableFrontend, YamlFrontend,
};
use birb_task::task::invocation::TaskInvocation;
use birb_task::task::loader::{Found, LoadSession, LoadStep};
use birb_task::task::task_ref::TaskRef;
use birb_task::task::taskfile::Taskfile;
use birb_task::task::workspace::Workspace;
use birb_task::template::Engine;
use handlebars::Handlebars;

#[test]
fn yaml_files_named_task_or_tasks() {
    let canon = || Some("/c/x".to_string());
    assert!(has_task_stem("task"));
    assert!(has_task_stem("tasks"));
    assert!(!has_task_stem("Tasks"));
    assert!(maybe_yaml_source_from_file("/w/task.yaml", true, canon()).is_some());
    assert!(maybe_yaml_source_from_file("/w/tasks.json", true, canon()).is_some());
    assert!(maybe_yaml_source_from_file("/w/other.yaml", true, canon()).is_none());
    assert!(maybe_yaml_source_from_file("/w/tasks.toml", true, canon()).is_none());
    assert!(maybe_yaml_source_from_file("/w/tasks.yaml", false, canon()).is_none());
    assert!(maybe_yaml_source_from_file("/w/tasks.yaml", true, None).is_none());
    assert_eq!(
        YamlFrontend.search_paths("/w", true),
        vec!["/w", "/w/task.yml", "/w/task.yaml", "/w/task.json"]
    );
    assert_eq!(YamlFrontend.search_paths("/w/task.yml", false), vec!["/w/task.yml"]);
}

#[test]
fn sources_by_their_names() {
    let canon = || Some("/c/tasks.yaml".to_string());
    // not a file
    assert!(matches!(maybe_source_from_file("/w/tasks.yaml", true, false, canon(), true), Ok(None)));
    // data files
    assert!(matches!(
        maybe_source_from_file("/w/tasks.yaml", true, true, canon(), false),
        Ok(Some(TaskfileSource::YamlFile(p))) if p == "/c/tasks.yaml"
    ));
    assert!(matches!(maybe_source_from_file("/w/other.yaml", true, true, canon(), false), Ok(None)));
    assert!(matches!(
        maybe_source_from_file("/w/other.yaml", false, true, canon(), false),
        Ok(Some(TaskfileSource::YamlFile(_)))
    ));
    assert!(matches!(maybe_source_from_file("/w/tasks.yaml", true, true, None, false), Ok(None)));
    // executables
    assert!(matches!(
        maybe_source_from_file("/w/tasks.yaml.sh", true, true, None, true),
        Ok(Some(TaskfileSource::Executable(p))) if p == "/w/tasks.yaml.sh"
    ));
    assert!(matches!(
        maybe_source_from_file("/w/task.json.py", true, true, None, true),
        Ok(Some(TaskfileSource::Executable(_)))
    ));
    assert!(matches!(maybe_source_from_file("/w/gen.yaml.sh", true, true, None, true), Ok(None)));
    assert!(matches!(
        maybe_source_from_file("/w/gen.yaml.sh", false, true, None, true),
        Ok(Some(TaskfileSource::Executable(_)))
    ));
    assert!(matches!(maybe_source_from_file("/w/tasksyaml.sh", false, true, None, true), Ok(None)));
    assert!(matches!(maybe_source_from_file("/w/tasks.sh", false, true, None, true), Ok(None)));
    assert_eq!(
        maybe_source_from_file("/w/tasks.yaml.sh", true, true, None, false).unwrap_err(),
        SourceError::NotExecutable
    );
    assert_eq!(maybe_source_from_file("/", true, true, None, true).unwrap_err(), SourceError::NoFileStem);
}

#[test]
fn executable_names_end_with_a_data_extension() {
    let frontend = YamlExecutableFrontend;
    assert!(frontend.has_correct_ext("/w/tasks.yaml"));
    assert!(frontend.has_correct_ext("gen.json"));
    assert!(!frontend.has_correct_ext("/w/tasks.yaml.sh"));
    assert!(!frontend.has_correct_ext("/w/yaml"));
    assert!(!frontend.has_correct_ext("/"));
}

fn loaded(text: &str) -> (Workspace, birb_task::task::task_ref::TaskfileId) {
    let (mut session, _) = LoadSession::begin(Workspace::new(), "/w/tasks.yaml");
    session.found("/w/tasks.yaml", Found::At("/w/tasks.yaml".to_string()));
    match session.loaded(Ok(Taskfile::from_yaml_source(text, "/w/tasks.yaml", "/w").unwrap())) {
        LoadStep::Done(id) => (session.finish(), id),
        other => panic!("unexpected {:?}", other),
    }
}

#[test]
fn a_task_whose_turn_it_is() {
    let (ws, id) = loaded(
        "
env: { CC: gcc, LEVEL: 1 }
tasks:
  build:
    workdir: /w/b
    env: { LEVEL: 2 }
    sources: [src.txt]
    outputs: [out.bin]
    steps: [\"echo {{env.CC}} {{env.LEVEL}}\", second]
",
    );
    let current = ws.get(&id).unwrap();
    let mut hb = Engine::new(Handlebars::new()).unwrap();
    let (graph, _) = run(&mut hb, &ws, current, &TaskInvocation::no_args(TaskRef::parse("build"))).unwrap();
    let oracle = NaiveTriggerChecker::new();
    let older = OutputProbe::Found { modified: 1, kind: FileKind::File, hash: Ok(hash_contents(b"")) };
    let newer = OutputProbe::Found { modified: 9, kind: FileKind::File, hash: Ok(hash_contents(b"")) };
    let sources = vec![SourceProbe::Found { modified: 5 }];

    let mut ctx = oracle.new_task_context();
    match maybe_run_single_task(current, &graph, 0, &oracle, &mut ctx, &sources, &vec![older]).unwrap() {
        RunPlan::Execute { workdir, env, steps } => {
            assert_eq!(workdir, "/w/b");
            // the environment of the task is laid over that of the taskfile, for the steps as for the templates
            assert!(env.get("CC").unwrap().equals(&Json::String("gcc".to_string())));
            assert!(env.get("LEVEL").unwrap().equals(&Json::Number("2".to_string())));
            assert_eq!(steps.len(), 2);
            assert_eq!(steps[0].as_str(), "echo gcc 2");
            assert_eq!(steps[1].as_str(), "second");
        }
        other => panic!("unexpected {:?}", other),
    }
    let mut ctx = oracle.new_task_context();
    assert!(matches!(
        maybe_run_single_task(current, &graph, 0, &oracle, &mut ctx, &sources, &vec![newer]).unwrap(),
        RunPlan::UpToDate
    ));
    assert!(matches!(
        maybe_run_single_task(current, &graph, 7, &oracle, &mut ctx, &vec![], &vec![]),
        Err(TaskExecutionError::TaskNotFound(7))
    ));
    assert!(matches!(
        maybe_run_single_task(current, &graph, 0, &oracle, &mut ctx, &vec![SourceProbe::Missing], &vec![OutputProbe::Missing]),
        Err(TaskExecutionError::ShouldRunCheckError(_))
    ));
}
