use birb_task::json::Json;
use birb_task::task::from_yaml::command::{parse_steps_impl, StepsParseError};
use birb_task::task::from_yaml::deps::{parse_dep, DepParsingError};
use birb_task::task::from_yaml::io::{
    parse_env, parse_param, parse_param_type_str, InvalidEnv, InvalidOutputs, InvalidParam,
    InvalidSources, ParamParsingError, ParamTypeError,
};
use birb_task::task::from_yaml::{parse_task, yaml_to_json, InvalidTaskObject, YamlToJsonError};
use birb_task::task::params::ArgType;
use birb_task::task::task::{OutputPath, Task};
use birb_task::task::task_ref::{ResolvedRef, TaskRef, TaskfileId};
use birb_task::task::taskfile::{Taskfile, TaskfileImportRef, YamlLoadError};
use birb_task::yaml::{hash_get, YamlValue};

fn ys(text: &str) -> YamlValue {
    YamlValue::String(text.to_string())
}

fn hash(entries: Vec<(&str, YamlValue)>) -> YamlValue {
    YamlValue::Hash(entries.into_iter().map(|(k, v)| (ys(k), v)).collect())
}

/// The task that a taskfile with this text declares under the name `t`.
fn task_of(text: &str) -> Result<Task, YamlLoadError> {
    let mut tf = Taskfile::from_yaml_source(text, "/w/tasks.yaml", "/w")?;
    Ok(tf.tasks.insert("t".to_string(), Task::new("t")).unwrap())
}

#[test]
fn task_reference_is_split_at_the_first_colon() {
    assert!(matches!(TaskRef::parse("build"), TaskRef::Name(n) if n == "build"));
    assert!(matches!(TaskRef::parse("sub:y"), TaskRef::Imported { from, name } if from == "sub" && name == "y"));
    assert!(matches!(TaskRef::parse("a:b:c"), TaskRef::Imported { from, name } if from == "a" && name == "b:c"));
    assert!(matches!(TaskRef::parse(":x"), TaskRef::Imported { from, name } if from.is_empty() && name == "x"));
    assert!(matches!(TaskRef::parse("x:"), TaskRef::Imported { from, name } if from == "x" && name.is_empty()));
    assert!(matches!(TaskRef::parse(""), TaskRef::Name(n) if n.is_empty()));
    assert!(matches!(TaskRef::parse("ünï:cödé"), TaskRef::Imported { from, name } if from == "ünï" && name == "cödé"));
}

#[test]
fn task_reference_as_text() {
    for text in ["build", "sub:y", "a:b:c", ":x", ""] {
        assert_eq!(TaskRef::parse(text).to_text(), text);
    }
    assert!(TaskRef::parse("a:b").equals(&TaskRef::parse("a:b").duplicate()));
    assert!(!TaskRef::parse("a:b").equals(&TaskRef::parse("a")));
    assert!(!TaskRef::parse("a:b").equals(&TaskRef::parse("a:c")));
    assert_eq!(TaskRef::parse("a:b").name(), "b");
}

#[test]
fn resolved_reference_display() {
    let r = ResolvedRef { taskfile: TaskfileId::from_path("/w/lib/tasks.yaml"), name: "y".to_string() };
    assert_eq!(r.display_absolute(), "/w/lib/tasks.yaml:y");
    assert_eq!(r.display_relative("/w"), "lib/tasks.yaml:y");
    assert_eq!(r.display_relative("/w/other"), "../lib/tasks.yaml:y");
    // from the taskfile itself the path is empty, and only the name is shown
    assert_eq!(r.display_relative("/w/lib/tasks.yaml"), "y");
    // there is no way from a relative base to an absolute path: the path is shown as it is
    assert_eq!(r.display_relative("rel"), "/w/lib/tasks.yaml:y");
    assert_eq!(r.taskfile.display_relative("/w/lib"), "tasks.yaml");
    assert!(r.equals(&r.duplicate()));
}

#[test]
fn output_path_is_taken_from_the_working_directory() {
    assert!(matches!(OutputPath::File("a.o".to_string()).resolve("/w/sub"), OutputPath::File(p) if p == "/w/sub/a.o"));
    assert!(matches!(OutputPath::Directory("out/".to_string()).resolve("/w"), OutputPath::Directory(p) if p == "/w/out/"));
    // an absolute output takes the place of the working directory
    assert!(matches!(OutputPath::File("/abs/a".to_string()).resolve("/w"), OutputPath::File(p) if p == "/abs/a"));
    assert!(matches!(OutputPath::File("a".to_string()).resolve(""), OutputPath::File(p) if p == "a"));
}

#[test]
fn full_task_is_read() {
    let task = task_of(
        "
tasks:
  t:
    description: Builds it
    workdir: build
    phony: true
    env: { OPT: -O2, N: 3 }
    params:
      name: string
      mode: { type: [debug, release] }
      level: { type: number, default: 3 }
    deps:
      - prepare
      - task: \"sub:compile\"
        with: { name: foo, n: 2, flags: [a, b] }
        id: c1
        after: prepare
      - task: link
        after: [c1, prepare]
    sources: [a.c, b.c]
    outputs: [a.o, dist/]
    steps:
      - echo one
      - run: echo two
    clean: rm -rf dist
",
    )
    .unwrap();
    assert_eq!(task.name, "t");
    assert_eq!(task.description.as_deref(), Some("Builds it"));
    assert_eq!(task.body.workdir, "build");
    assert!(task.body.phony);
    assert_eq!(task.body.env.len(), 2);
    assert!(task.body.env.get("OPT").unwrap().equals(&Json::String("-O2".to_string())));
    assert!(task.body.env.get("N").unwrap().equals(&Json::Number("3".to_string())));
    assert_eq!(task.params.0.len(), 3);
    assert_eq!(task.params.0.key_at(0), "name");
    assert!(matches!(task.params.0.get("name").unwrap().ty, ArgType::String));
    assert!(matches!(&task.params.0.get("mode").unwrap().ty, ArgType::Select(o) if o == &vec!["debug", "release"]));
    let level = task.params.0.get("level").unwrap();
    assert!(matches!(level.ty, ArgType::Number));
    assert!(level.default.as_ref().unwrap().equals(&Json::Number("3".to_string())));

    assert_eq!(task.body.deps.0.len(), 3);
    let d = &task.body.deps.0[0];
    assert_eq!(d.invocation.reference.to_text(), "prepare");
    assert_eq!(d.id.as_deref(), Some("prepare"));
    assert!(d.after.is_empty());
    assert_eq!(d.invocation.args.len(), 0);
    let d = &task.body.deps.0[1];
    assert!(matches!(&d.invocation.reference, TaskRef::Imported { from, name } if from == "sub" && name == "compile"));
    assert!(d.invocation.args.get("name").unwrap().equals(&Json::String("foo".to_string())));
    assert!(d.invocation.args.get("n").unwrap().equals(&Json::Number("2".to_string())));
    assert!(d.invocation.args.get("flags").unwrap().equals(&Json::Array(vec![
        Json::String("a".to_string()),
        Json::String("b".to_string())
    ])));
    assert_eq!(d.id.as_deref(), Some("c1"));
    assert_eq!(d.after, vec!["prepare"]);
    let d = &task.body.deps.0[2];
    assert_eq!(d.id, None);
    assert_eq!(d.after, vec!["c1", "prepare"]);

    assert_eq!(task.body.sources, vec!["a.c", "b.c"]);
    assert!(matches!(&task.body.outputs.paths[0], OutputPath::File(p) if p == "a.o"));
    assert!(matches!(&task.body.outputs.paths[1], OutputPath::Directory(p) if p == "dist/"));
    assert_eq!(task.body.steps.len(), 2);
    assert_eq!(task.body.steps[0].as_str(), "echo one");
    assert_eq!(task.body.steps[1].as_str(), "echo two");
    assert_eq!(task.body.clean.as_ref().unwrap().len(), 1);
    assert_eq!(task.body.clean.as_ref().unwrap()[0].as_str(), "rm -rf dist");
}

#[test]
fn empty_task_has_defaults() {
    let task = task_of("tasks: { t: {} }").unwrap();
    assert_eq!(task.description, None);
    // the working directory is that of the taskfile
    assert_eq!(task.body.workdir, "/w");
    assert!(!task.body.phony);
    assert!(task.body.steps.is_empty());
    assert!(task.body.clean.is_none());
    assert!(task.body.deps.0.is_empty());
    assert_eq!(task.params.0.len(), 0);
}

fn fault(text: &str) -> InvalidTaskObject {
    match task_of(text) {
        Err(YamlLoadError::InvalidTask(name, e)) => {
            assert_eq!(name, "t");
            e
        }
        other => panic!("unexpected {:?}", other),
    }
}

#[test]
fn task_errors() {
    assert!(matches!(fault("tasks: { t: 3 }"), InvalidTaskObject::InvalidTaskType));
    assert!(matches!(fault("tasks: { t: { description: [a] } }"), InvalidTaskObject::InvalidDescriptionType));
    assert!(matches!(fault("tasks: { t: { workdir: 1 } }"), InvalidTaskObject::InvalidWorkdirType));
    assert!(matches!(fault("tasks: { t: { phony: yes } }"), InvalidTaskObject::InvalidPhonyType));
    assert!(matches!(fault("tasks: { t: { env: [a] } }"), InvalidTaskObject::InvalidEnv(InvalidEnv::NotAHash)));
    assert!(matches!(
        fault("tasks: { t: { deps: a } }"),
        InvalidTaskObject::InvalidDependencies(DepParsingError::NotAnArray)
    ));
    assert!(matches!(
        fault("tasks: { t: { params: [a] } }"),
        InvalidTaskObject::InvalidParams(ParamParsingError::NotAHash)
    ));
    assert!(matches!(
        fault("tasks: { t: { params: { p: wrong } } }"),
        InvalidTaskObject::InvalidParams(ParamParsingError::InvalidParameter(name, InvalidParam::InvalidType(ParamTypeError::UnknownType(t)))) if name == "p" && t == "wrong"
    ));
    assert!(matches!(
        fault("tasks: { t: { steps: 1 } }"),
        InvalidTaskObject::InvalidSteps(StepsParseError::NotStringOrArrayOfStrings)
    ));
    assert!(matches!(
        fault("tasks: { t: { clean: [ok, { nope: 1 }] } }"),
        InvalidTaskObject::InvalidClean(StepsParseError::InvalidStep(1))
    ));
    assert!(matches!(
        fault("tasks: { t: { sources: x } }"),
        InvalidTaskObject::InvalidSources(InvalidSources::NotAnArray)
    ));
    assert!(matches!(
        fault("tasks: { t: { sources: [a, 1] } }"),
        InvalidTaskObject::InvalidSources(InvalidSources::NotAString(1))
    ));
    assert!(matches!(
        fault("tasks: { t: { outputs: [[a]] } }"),
        InvalidTaskObject::InvalidOutputs(InvalidOutputs::NotAString(0))
    ));
    assert!(matches!(
        fault("tasks: { t: { outputs: 1 } }"),
        InvalidTaskObject::InvalidOutputs(InvalidOutputs::NotAnArray)
    ));
    match fault("tasks: { t: { steps: [a], step: b, 3: c, sauces: d } }") {
        InvalidTaskObject::UnusedKeys(keys) => assert_eq!(keys, vec!["step", "sauces"]),
        other => panic!("unexpected {:?}", other),
    }
    // the first key that cannot be read gives the error
    assert!(matches!(
        fault("tasks: { t: { outputs: 1, phony: 2, extra: 3 } }"),
        InvalidTaskObject::InvalidPhonyType
    ));
}

#[test]
fn parse_task_directly() {
    let value = hash(vec![("steps", ys("make")), ("phony", YamlValue::Boolean(true))]);
    let task = parse_task("/w", "direct", &value).unwrap();
    assert_eq!(task.name, "direct");
    assert_eq!(task.body.workdir, "/w");
    assert!(task.body.phony);
    assert_eq!(task.body.steps[0].as_str(), "make");
    assert!(matches!(parse_task("/w", "x", &ys("no")), Err(InvalidTaskObject::InvalidTaskType)));
    let task = Task::from_yaml("/w", "n", &hash(vec![])).unwrap();
    assert_eq!(task.name, "n");
}

#[test]
fn steps_errors() {
    assert_eq!(parse_steps_impl(&ys("one")).unwrap().len(), 1);
    assert_eq!(parse_steps_impl(&YamlValue::Array(vec![])).unwrap().len(), 0);
    let steps = YamlValue::Array(vec![ys("a"), hash(vec![("run", YamlValue::Integer(1))])]);
    assert!(matches!(parse_steps_impl(&steps), Err(StepsParseError::RunEntryNotAString(1))));
    let steps = YamlValue::Array(vec![YamlValue::Integer(3)]);
    assert!(matches!(parse_steps_impl(&steps), Err(StepsParseError::InvalidStep(0))));
    assert!(matches!(parse_steps_impl(&YamlValue::Null), Err(StepsParseError::NotStringOrArrayOfStrings)));
}

#[test]
fn dependency_errors() {
    assert!(matches!(parse_dep(&YamlValue::Integer(1), 4), Err(DepParsingError::InvalidDependency(4))));
    assert!(matches!(parse_dep(&hash(vec![("with", hash(vec![]))]), 2), Err(DepParsingError::MissingTask(2))));
    assert!(matches!(
        parse_dep(&hash(vec![("task", YamlValue::Integer(1))]), 0),
        Err(DepParsingError::TaskNotAString(0))
    ));
    assert!(matches!(
        parse_dep(&hash(vec![("task", ys("t")), ("with", ys("x"))]), 0),
        Err(DepParsingError::ArgumentsNotAHash)
    ));
    let with = YamlValue::Hash(vec![(ys("ok"), ys("v")), (YamlValue::Integer(1), ys("v"))]);
    assert!(matches!(
        parse_dep(&hash(vec![("task", ys("t")), ("with", with)]), 0),
        Err(DepParsingError::InvalidArgumentKey(1))
    ));
    let with = hash(vec![("bad", YamlValue::BadValue)]);
    assert!(matches!(
        parse_dep(&hash(vec![("task", ys("t")), ("with", with)]), 0),
        Err(DepParsingError::ArgumentConversionError(YamlToJsonError::BadValue))
    ));
    assert!(matches!(
        parse_dep(&hash(vec![("task", ys("t")), ("id", YamlValue::Integer(1))]), 3),
        Err(DepParsingError::IdNotAString(3))
    ));
    assert!(matches!(
        parse_dep(&hash(vec![("task", ys("t")), ("after", YamlValue::Integer(1))]), 3),
        Err(DepParsingError::AfterNotStrings(3))
    ));
    let after = YamlValue::Array(vec![ys("a"), YamlValue::Null]);
    assert!(matches!(
        parse_dep(&hash(vec![("task", ys("t")), ("after", after)]), 3),
        Err(DepParsingError::InvalidArgumentKey(1))
    ));
}

#[test]
fn parameter_declarations() {
    assert!(matches!(parse_param_type_str("str"), Ok(ArgType::String)));
    assert!(matches!(parse_param_type_str("string"), Ok(ArgType::String)));
    assert!(matches!(parse_param_type_str("number"), Ok(ArgType::Number)));
    assert!(matches!(parse_param_type_str("bool"), Ok(ArgType::Boolean)));
    assert!(matches!(parse_param_type_str("boolean"), Ok(ArgType::Boolean)));
    assert!(matches!(parse_param_type_str("path"), Ok(ArgType::Path)));
    assert!(matches!(parse_param_type_str("array"), Err(ParamTypeError::UnknownType(t)) if t == "array"));
    assert!(matches!(parse_param_type_str(""), Err(ParamTypeError::UnknownType(_))));
    assert!(matches!(parse_param(&hash(vec![("default", ys("x"))])), Err(InvalidParam::MissingType)));
    assert!(matches!(parse_param(&YamlValue::Integer(1)), Err(InvalidParam::UnsupportedDeclaration)));
    assert!(matches!(
        parse_param(&hash(vec![("type", YamlValue::Array(vec![ys("a"), YamlValue::Integer(1)]))])),
        Err(InvalidParam::InvalidType(ParamTypeError::OptionsNotStrings))
    ));
    assert!(matches!(
        parse_param(&hash(vec![("type", YamlValue::Null)])),
        Err(InvalidParam::InvalidType(ParamTypeError::UnsupportedType))
    ));
    assert!(matches!(
        parse_param(&hash(vec![("type", ys("path")), ("default", YamlValue::Alias(1))])),
        Err(InvalidParam::DefaultValueConversion(YamlToJsonError::BadValue))
    ));
    let p = parse_param(&hash(vec![("type", ys("path")), ("default", ys("/tmp"))])).unwrap();
    assert!(matches!(p.ty, ArgType::Path));
    assert!(p.default.unwrap().equals(&Json::String("/tmp".to_string())));
}

#[test]
fn yaml_becomes_json() {
    let y = hash(vec![
        ("null", YamlValue::Null),
        ("bool", YamlValue::Boolean(true)),
        ("int", YamlValue::Integer(-7)),
        ("real", YamlValue::Real("2.50".to_string())),
        ("exp", YamlValue::Real("1e3".to_string())),
        ("text", ys("t")),
        ("list", YamlValue::Array(vec![YamlValue::Integer(1), ys("x")])),
    ]);
    let j = yaml_to_json(&y).unwrap();
    let expected = Json::Object(vec![
        ("null".to_string(), Json::Null),
        ("bool".to_string(), Json::Bool(true)),
        ("int".to_string(), Json::Number("-7".to_string())),
        ("real".to_string(), Json::Number("2.5".to_string())),
        ("exp".to_string(), Json::Number("1000.0".to_string())),
        ("text".to_string(), Json::String("t".to_string())),
        ("list".to_string(), Json::Array(vec![Json::Number("1".to_string()), Json::String("x".to_string())])),
    ]);
    assert!(j.equals(&expected), "{:?}", j);
    assert!(matches!(
        yaml_to_json(&YamlValue::Real(".inf".to_string())),
        Err(YamlToJsonError::InvalidNumber(t)) if t == ".inf"
    ));
    assert!(matches!(
        yaml_to_json(&YamlValue::Hash(vec![(YamlValue::Integer(1), YamlValue::Null)])),
        Err(YamlToJsonError::InvalidKey)
    ));
    assert!(matches!(yaml_to_json(&YamlValue::BadValue), Err(YamlToJsonError::BadValue)));
    assert!(matches!(
        yaml_to_json(&YamlValue::Array(vec![YamlValue::Alias(0)])),
        Err(YamlToJsonError::BadValue)
    ));
}

#[test]
fn environment_is_read() {
    let env = parse_env(&hash(vec![("A", YamlValue::Integer(1)), ("B", ys("x")), ("A", ys("again"))])).unwrap();
    assert_eq!(env.len(), 2);
    assert!(env.get("A").unwrap().equals(&Json::String("again".to_string())));
    assert!(matches!(parse_env(&ys("no")), Err(InvalidEnv::NotAHash)));
    assert!(matches!(
        parse_env(&YamlValue::Hash(vec![(YamlValue::Null, ys("x"))])),
        Err(InvalidEnv::InvalidKey(0))
    ));
    assert!(matches!(
        parse_env(&hash(vec![("A", YamlValue::BadValue)])),
        Err(InvalidEnv::InvalidValue(YamlToJsonError::BadValue))
    ));
}

#[test]
fn hash_lookup_finds_string_keys() {
    let entries = vec![(YamlValue::Integer(1), ys("int")), (ys("k"), ys("first")), (ys("k"), ys("second"))];
    assert!(matches!(hash_get(&entries, "k"), Some(YamlValue::String(v)) if v == "first"));
    assert!(hash_get(&entries, "1").is_none());
    assert!(hash_get(&entries, "").is_none());
}

#[test]
fn taskfile_is_read() {
    let tf = Taskfile::from_yaml_source(
        "
env:
  CC: gcc
  JOBS: 4
imports:
  lib: lib/tasks.yaml
  abs: /opt/shared/tasks.yaml
tasks:
  one: {}
  two: { steps: x }
---
this: second document is not looked at
",
        "/w/tasks.yaml",
        "/w",
    )
    .unwrap();
    assert_eq!(tf.id.as_str(), "/w/tasks.yaml");
    assert_eq!(tf.dir, "/w");
    assert!(tf.env.get("CC").unwrap().equals(&Json::String("gcc".to_string())));
    assert!(tf.env.get("JOBS").unwrap().equals(&Json::Number("4".to_string())));
    assert!(matches!(tf.imports.get("lib"), Some(TaskfileImportRef::Unresolved(p)) if p == "/w/lib/tasks.yaml"));
    assert!(matches!(tf.imports.get("abs"), Some(TaskfileImportRef::Unresolved(p)) if p == "/opt/shared/tasks.yaml"));
    assert_eq!(tf.tasks.len(), 2);
    assert_eq!(tf.tasks.key_at(0), "one");
    assert_eq!(tf.tasks.get("two").unwrap().name, "two");
}

#[test]
fn taskfile_errors() {
    let read = |text: &str| Taskfile::from_yaml_source(text, "/w/tasks.yaml", "/w");
    assert!(matches!(read("a: [unclosed"), Err(YamlLoadError::YamlParseError(_))));
    assert!(matches!(read(""), Err(YamlLoadError::NoDocument)));
    assert!(matches!(read("- a\n- b"), Err(YamlLoadError::InvalidTaskfileType)));
    assert!(matches!(read("env: 3"), Err(YamlLoadError::InvalidEnv(InvalidEnv::NotAHash))));
    assert!(matches!(read("imports: [a]"), Err(YamlLoadError::InvalidImports)));
    assert!(matches!(read("imports: { a: 1 }"), Err(YamlLoadError::InvalidImports)));
    assert!(matches!(read("tasks: x"), Err(YamlLoadError::InvalidTasks)));
    assert!(matches!(read("tasks: { 1: {} }"), Err(YamlLoadError::InvalidTasks)));
    assert!(read("{}").unwrap().tasks.is_empty());
}

#[test]
fn tasks_and_imports_keep_the_order_of_the_document() {
    let text = "imports: { z: ../z, a: ./a }\ntasks: { second: {}, first: {}, third: { steps: go } }";
    let tf = Taskfile::from_yaml_source(text, "/w/tasks.yaml", "/w").unwrap();
    assert_eq!(tf.tasks.len(), 3);
    assert_eq!(tf.tasks.key_at(0), "second");
    assert_eq!(tf.tasks.key_at(1), "first");
    assert_eq!(tf.tasks.key_at(2), "third");
    assert_eq!(tf.imports.key_at(0), "z");
    assert_eq!(tf.imports.key_at(1), "a");
}

#[test]
fn the_first_part_without_a_json_value_gives_the_error() {
    let bad = YamlValue::Array(vec![
        YamlValue::Integer(1),
        hash(vec![("k", YamlValue::Real(".nan".to_string())), ("l", YamlValue::BadValue)]),
        YamlValue::BadValue,
    ]);
    assert!(matches!(yaml_to_json(&bad), Err(YamlToJsonError::InvalidNumber(t)) if t == ".nan"));
    let bad = YamlValue::Hash(vec![(ys("a"), YamlValue::Null), (YamlValue::Integer(2), YamlValue::BadValue)]);
    assert!(matches!(yaml_to_json(&bad), Err(YamlToJsonError::InvalidKey)));
    let bad = YamlValue::Array(vec![YamlValue::Alias(1), YamlValue::Real("x".to_string())]);
    assert!(matches!(yaml_to_json(&bad), Err(YamlToJsonError::BadValue)));
}

#[test]
fn the_first_faulty_task_gives_the_error() {
    let text = "tasks: { ok: {}, bad: { phony: 3 }, worse: 1 }";
    assert!(matches!(
        Taskfile::from_yaml_source(text, "/w/tasks.yaml", "/w"),
        Err(YamlLoadError::InvalidTask(name, InvalidTaskObject::InvalidPhonyType)) if name == "bad"
    ));
    let text = "env: 1\nimports: 2\ntasks: 3";
    assert!(matches!(
        Taskfile::from_yaml_source(text, "/w/tasks.yaml", "/w"),
        Err(YamlLoadError::InvalidEnv(InvalidEnv::NotAHash))
    ));
    let text = "imports: 2\ntasks: 3";
    assert!(matches!(
        Taskfile::from_yaml_source(text, "/w/tasks.yaml", "/w"),
        Err(YamlLoadError::InvalidImports)
    ));
}

#[test]
fn parameters_and_environment_keep_the_order_of_the_document() {
    let task = task_of("tasks: { t: { params: { zeta: str, alpha: number }, env: { Z: 1, A: 2, M: 3 } } }").unwrap();
    assert_eq!(task.params.0.len(), 2);
    assert_eq!(task.params.0.key_at(0), "zeta");
    assert_eq!(task.params.0.key_at(1), "alpha");
    assert_eq!(task.body.env.len(), 3);
    assert_eq!(task.body.env.keys().nth(0).unwrap(), "Z");
    assert_eq!(task.body.env.keys().nth(1).unwrap(), "A");
    assert_eq!(task.body.env.keys().nth(2).unwrap(), "M");
    let env = parse_env(&YamlValue::Hash(vec![
        (ys("b"), YamlValue::Integer(1)),
        (ys("a"), YamlValue::Integer(2)),
        (ys("b"), YamlValue::Integer(3)),
    ]))
    .unwrap();
    assert_eq!(env.len(), 2);
    assert_eq!(env.key_at(0), "b");
    assert_eq!(env.key_at(1), "a");
    assert!(env.get("b").unwrap().equals(&Json::Number("3".to_string())));
}

#[test]
fn integers_are_written_in_decimal_notation() {
    let cases: Vec<(i64, &str)> = vec![
        (0, "0"),
        (7, "7"),
        (10, "10"),
        (-1, "-1"),
        (1234567890, "1234567890"),
        (i64::MAX, "9223372036854775807"),
        (i64::MIN, "-9223372036854775808"),
    ];
    for (i, text) in cases {
        assert_eq!(birb_task::json::integer_number(i), text);
        assert!(yaml_to_json(&YamlValue::Integer(i)).unwrap().equals(&Json::Number(text.to_string())));
        assert_eq!(serde_json::Number::from(i).to_string(), text);
    }
}
