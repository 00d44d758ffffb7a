use birb_task::task::loader::yaml::{has_data_extension, maybe_yaml_source_from_file, YamlTaskfileLoader};
use birb_task::task::loader::yaml_executable::{
    has_correct_ext, has_correct_ext_and_inner_stem, YamlExecutableTaskfileLoader,
};
use birb_task::task::loader::{
    first_found, is_contested, search_places, Found, LoadSession, LoadStep, TaskfileLoadError,
    WorkspaceLoadError,
};
use birb_task::task::taskfile::{Taskfile, TaskfileImportRef};
use birb_task::task::workspace::Workspace;

fn taskfile(path: &str, dir: &str, imports: &[(&str, &str)]) -> Taskfile {
    let mut text = String::from("imports:\n");
    for (alias, target) in imports {
        text.push_str(&format!("  {}: {}\n", alias, target));
    }
    if imports.is_empty() {
        text = String::from("tasks: {}\n");
    }
    Taskfile::from_yaml_source(&text, path, dir).unwrap()
}

fn all_imports_resolved(ws: &Workspace, ids: &[&str]) -> bool {
    ids.iter().all(|id| {
        let tf = ws.get(&birb_task::task::task_ref::TaskfileId::from_path(id)).unwrap();
        (0..tf.imports.len()).all(|i| match tf.imports.value_at(i) {
            TaskfileImportRef::Resolved(target) => ws.get(target).is_some(),
            TaskfileImportRef::Unresolved(_) => false,
        })
    })
}

#[test]
fn loading_twice_gives_the_same_id_and_no_second_entry() {
    let (mut session, step) = LoadSession::begin(Workspace::new(), "tasks.yaml");
    assert!(matches!(step, LoadStep::Find(p) if p == "tasks.yaml"));
    let step = session.found("tasks.yaml", Found::At("/w/tasks.yaml".to_string()));
    assert!(matches!(&step, LoadStep::Load(id) if id.as_str() == "/w/tasks.yaml"));
    let step = session.loaded(Ok(taskfile("/w/tasks.yaml", "/w", &[])));
    let first = match step {
        LoadStep::Done(id) => id,
        other => panic!("unexpected {:?}", other),
    };
    let ws = session.finish();
    assert_eq!(ws.len(), 1);

    // the same taskfile, reached by another spelling of its path
    let (mut session, _) = LoadSession::begin(ws, "./sub/../tasks.yaml");
    let step = session.found("./sub/../tasks.yaml", Found::At("/w/tasks.yaml".to_string()));
    let second = match step {
        LoadStep::Done(id) => id,
        other => panic!("unexpected {:?}", other),
    };
    assert!(first.equals(&second));
    let ws = session.finish();
    assert_eq!(ws.len(), 1);
    assert_eq!(ws.get_id_from_path("/w/tasks.yaml").unwrap().as_str(), "/w/tasks.yaml");
    assert!(ws.get_id_from_path("/w/other.yaml").is_none());
}

#[test]
fn imports_are_loaded_and_resolved() {
    let (mut session, _) = LoadSession::begin(Workspace::new(), "/w/tasks.yaml");
    assert!(matches!(session.found("/w/tasks.yaml", Found::At("/w/tasks.yaml".to_string())), LoadStep::Load(_)));
    let root = taskfile("/w/tasks.yaml", "/w", &[("a", "a/tasks.yaml"), ("b", "b/tasks.yaml")]);
    // the first import is searched under its path, taken from the directory of the taskfile
    let step = session.loaded(Ok(root));
    assert!(matches!(&step, LoadStep::Find(p) if p == "/w/a/tasks.yaml"));
    assert!(matches!(
        session.found("/w/a/tasks.yaml", Found::At("/w/a/tasks.yaml".to_string())),
        LoadStep::Load(_)
    ));
    // a imports b too
    let step = session.loaded(Ok(taskfile("/w/a/tasks.yaml", "/w/a", &[("b", "../b/tasks.yaml")])));
    assert!(matches!(&step, LoadStep::Find(p) if p == "/w/a/../b/tasks.yaml"));
    assert!(matches!(
        session.found("/w/a/../b/tasks.yaml", Found::At("/w/b/tasks.yaml".to_string())),
        LoadStep::Load(_)
    ));
    // b has no imports: a is done, and the second import of the root is searched
    let step = session.loaded(Ok(taskfile("/w/b/tasks.yaml", "/w/b", &[])));
    assert!(matches!(&step, LoadStep::Find(p) if p == "/w/b/tasks.yaml"));
    // b is there already and is not read again
    let step = session.found("/w/b/tasks.yaml", Found::At("/w/b/tasks.yaml".to_string()));
    assert!(matches!(&step, LoadStep::Done(id) if id.as_str() == "/w/tasks.yaml"));
    let ws = session.finish();
    assert_eq!(ws.len(), 3);
    assert!(all_imports_resolved(&ws, &["/w/tasks.yaml", "/w/a/tasks.yaml", "/w/b/tasks.yaml"]));
    let root = ws.get(&ws.get_id_from_path("/w/tasks.yaml").unwrap()).unwrap();
    assert!(matches!(root.imports.get("a"), Some(TaskfileImportRef::Resolved(id)) if id.as_str() == "/w/a/tasks.yaml"));
    assert!(matches!(root.imports.get("b"), Some(TaskfileImportRef::Resolved(id)) if id.as_str() == "/w/b/tasks.yaml"));
}

#[test]
fn import_cycles_are_safe() {
    let (mut session, _) = LoadSession::begin(Workspace::new(), "/w/a.yaml");
    session.found("/w/a.yaml", Found::At("/w/a.yaml".to_string()));
    let step = session.loaded(Ok(taskfile("/w/a.yaml", "/w", &[("b", "b.yaml"), ("me", "a.yaml")])));
    assert!(matches!(&step, LoadStep::Find(p) if p == "/w/b.yaml"));
    session.found("/w/b.yaml", Found::At("/w/b.yaml".to_string()));
    let step = session.loaded(Ok(taskfile("/w/b.yaml", "/w", &[("a", "a.yaml")])));
    assert!(matches!(&step, LoadStep::Find(p) if p == "/w/a.yaml"));
    // a is in the workspace already, though its own imports are still being looked up
    let step = session.found("/w/a.yaml", Found::At("/w/a.yaml".to_string()));
    assert!(matches!(&step, LoadStep::Find(p) if p == "/w/a.yaml"));
    let step = session.found("/w/a.yaml", Found::At("/w/a.yaml".to_string()));
    assert!(matches!(&step, LoadStep::Done(id) if id.as_str() == "/w/a.yaml"));
    let ws = session.finish();
    assert_eq!(ws.len(), 2);
    assert!(all_imports_resolved(&ws, &["/w/a.yaml", "/w/b.yaml"]));
}

#[test]
fn load_failures() {
    let (mut session, _) = LoadSession::begin(Workspace::new(), "nowhere");
    assert!(matches!(
        session.found("nowhere", Found::NotFound),
        LoadStep::Failed(WorkspaceLoadError::TaskfileNotFound)
    ));
    let (mut session, _) = LoadSession::begin(Workspace::new(), "odd");
    assert!(matches!(
        session.found("odd", Found::NotCanonical),
        LoadStep::Failed(WorkspaceLoadError::Canonicalize(p)) if p == "odd"
    ));
    let (mut session, _) = LoadSession::begin(Workspace::new(), "x.yaml");
    session.found("x.yaml", Found::At("/x.yaml".to_string()));
    assert!(matches!(
        session.loaded(Err(TaskfileLoadError::Other("broken".to_string()))),
        LoadStep::Failed(WorkspaceLoadError::TaskfileLoadError(TaskfileLoadError::Other(m))) if m == "broken"
    ));
    assert_eq!(session.finish().len(), 0);
}

#[test]
fn yaml_front_end_candidates() {
    let loader = YamlTaskfileLoader;
    assert_eq!(loader.search_paths("/w/tasks.yaml", false), vec!["/w/tasks.yaml"]);
    assert_eq!(
        loader.search_paths("/w", true),
        vec!["/w", "/w/tasks.yml", "/w/tasks.yaml", "/w/tasks.json"]
    );
    assert!(has_data_extension("yml"));
    assert!(has_data_extension("yaml"));
    assert!(has_data_extension("json"));
    assert!(!has_data_extension("toml"));
    assert!(!has_data_extension(""));
    assert!(!has_data_extension("YAML"));
}

#[test]
fn yaml_front_end_accepts_data_files() {
    let canon = || Some("/c/tasks.yaml".to_string());
    assert_eq!(maybe_yaml_source_from_file("tasks.yaml", true, canon()).unwrap().0, "/c/tasks.yaml");
    assert!(maybe_yaml_source_from_file("anything.json", true, canon()).is_some());
    assert!(maybe_yaml_source_from_file("tasks.yaml", false, canon()).is_none());
    assert!(maybe_yaml_source_from_file("tasks.yaml", true, None).is_none());
    assert!(maybe_yaml_source_from_file("tasks.txt", true, canon()).is_none());
    assert!(maybe_yaml_source_from_file("tasks", true, canon()).is_none());
    assert!(maybe_yaml_source_from_file(".yaml", true, canon()).is_none());
}

#[test]
fn executable_front_end_reads_the_inner_extension() {
    assert_eq!(has_correct_ext_and_inner_stem("/w/tasks.yaml.sh").as_deref(), Some("tasks"));
    assert_eq!(has_correct_ext_and_inner_stem("gen.json.py").as_deref(), Some("gen"));
    assert_eq!(has_correct_ext_and_inner_stem("a.b.yml.exe").as_deref(), Some("a.b"));
    assert_eq!(has_correct_ext_and_inner_stem("tasks.yaml"), None);
    assert_eq!(has_correct_ext_and_inner_stem("tasks.sh"), None);
    assert_eq!(has_correct_ext_and_inner_stem(".yaml.sh").as_deref(), Some(""));
    assert_eq!(has_correct_ext_and_inner_stem(""), None);
    assert!(has_correct_ext("x/tasks.yml.sh"));
    assert!(!has_correct_ext("x/tasks.toml.sh"));
    let loader = YamlExecutableTaskfileLoader;
    assert!(loader.accepts_file("other.yaml.sh", true));
    assert!(!loader.accepts_file("other.yaml.sh", false));
    assert!(loader.accepts_entry("/w/tasks.yaml.sh", true, true));
    assert!(!loader.accepts_entry("/w/other.yaml.sh", true, true));
    assert!(!loader.accepts_entry("/w/tasks.yaml.sh", false, true));
    assert!(!loader.accepts_entry("/w/tasks.yaml.sh", true, false));
}

#[test]
fn a_directory_is_searched_up_to_the_root() {
    assert_eq!(search_places("/a/b/c", true), vec!["/a/b/c", "/a/b", "/a", "/"]);
    assert_eq!(search_places("x/y", true), vec!["x/y", "x", ""]);
    assert_eq!(search_places("/", true), vec!["/"]);
    assert_eq!(search_places("", true), vec![""]);
}

#[test]
fn a_file_is_looked_at_alone() {
    assert_eq!(search_places("/a/b/tasks.yaml", false), vec!["/a/b/tasks.yaml"]);
}

#[test]
fn the_first_front_end_that_finds_something_wins() {
    let found = vec![None, Some("b".to_string()), Some("c".to_string())];
    assert_eq!(first_found(&found), Some((1, "b".to_string())));
    assert!(is_contested(&found));
    let found = vec![Some("a".to_string()), None];
    assert_eq!(first_found(&found), Some((0, "a".to_string())));
    assert!(!is_contested(&found));
    assert_eq!(first_found(&vec![None, None]), None);
    assert!(!is_contested(&vec![None, None]));
    assert_eq!(first_found(&vec![]), None);
    assert!(!is_contested(&vec![]));
}
