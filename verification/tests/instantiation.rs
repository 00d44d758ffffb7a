use birb_task::command::Command;
use birb_task::json::Json;
use birb_task::strmap::StrMap;
use birb_task::task::instantiation::{ArgumentsCheckError, InstantiationError};
use birb_task::task::invocation::{args_equal, instantiate_json_value, TaskInvocation};
use birb_task::task::params::{ArgType, Param};
use birb_task::task::task::{Dep, OutputPath, Task};
use birb_task::task::task_ref::TaskRef;
use birb_task::task::{copy_env, layer_env, map_to_json, to_env, BirbRenderContext};
use birb_task::template::render_text;
use birb_task::utils::type_checking::{check_type, TypeCheckError};
use birb_task::template::Engine;
use handlebars::Handlebars;

fn s(text: &str) -> Json {
    Json::String(text.to_string())
}

fn n(text: &str) -> Json {
    Json::Number(text.to_string())
}

fn map(entries: Vec<(&str, Json)>) -> StrMap<Json> {
    let mut m = StrMap::new();
    for (k, v) in entries {
        m.insert(k.to_string(), v);
    }
    m
}

fn context(args: &StrMap<Json>, env: &StrMap<Json>) -> Json {
    (BirbRenderContext { args, env }).to_json()
}

fn param(ty: ArgType) -> Param {
    Param { ty, default: None }
}

#[test]
fn text_without_markers_is_rendered_verbatim() {
    let mut hb = Engine::new(Handlebars::new()).unwrap();
    let ctx = context(&map(vec![("name", s("x"))]), &map(vec![]));
    for text in ["", "   ", "plain text", "a { b } c", "back\\slash {x}", "  lead and trail \n", "<&>\"'", "}}"] {
        assert_eq!(render_text(&mut hb, text, &ctx).unwrap(), text);
    }
}

#[test]
fn render_reads_args_and_env() {
    let mut hb = Engine::new(Handlebars::new()).unwrap();
    let ctx = context(&map(vec![("name", s("foo")), ("count", n("3"))]), &map(vec![("HOME", s("/home/u"))]));
    assert_eq!(render_text(&mut hb, "{{args.name}}.o", &ctx).unwrap(), "foo.o");
    assert_eq!(render_text(&mut hb, "{{env.HOME}}/{{args.count}}", &ctx).unwrap(), "/home/u/3");
}

#[test]
fn render_reports_a_broken_template() {
    let mut hb = Engine::new(Handlebars::new()).unwrap();
    let ctx = context(&map(vec![]), &map(vec![]));
    assert!(render_text(&mut hb, "{{#if}}", &ctx).is_err());
    assert!(render_text(&mut hb, "{{", &ctx).is_err());
}

#[test]
fn render_uses_registered_helpers() {
    let mut hb = Handlebars::new();
    hb.register_helper(
        "shout",
        Box::new(
            |h: &handlebars::Helper,
             _: &Handlebars,
             _: &handlebars::Context,
             _: &mut handlebars::RenderContext,
             out: &mut dyn handlebars::Output|
             -> handlebars::HelperResult {
                let v = h.param(0).unwrap().value().as_str().unwrap().to_uppercase();
                out.write(&v)?;
                Ok(())
            },
        ),
    );
    let mut hb = Engine::new(hb).unwrap();
    let ctx = context(&map(vec![("name", s("foo"))]), &map(vec![]));
    assert_eq!(render_text(&mut hb, "{{shout args.name}}", &ctx).unwrap(), "FOO");
}

#[test]
fn context_is_an_object_of_args_and_env() {
    let ctx = context(&map(vec![("a", n("1"))]), &map(vec![("E", s("v"))]));
    match ctx {
        Json::Object(members) => {
            assert_eq!(members.len(), 2);
            assert_eq!(members[0].0, "args");
            assert_eq!(members[1].0, "env");
            assert!(members[0].1.equals(&Json::Object(vec![("a".to_string(), n("1"))])));
            assert!(members[1].1.equals(&map_to_json(&map(vec![("E", s("v"))]))));
        }
        other => panic!("unexpected {:?}", other),
    }
}

#[test]
fn templated_string_that_renders_to_a_number_becomes_a_number() {
    let mut hb = Engine::new(Handlebars::new()).unwrap();
    let ctx = context(&map(vec![("n", n("42")), ("word", s("hi"))]), &map(vec![]));
    let v = instantiate_json_value(&mut hb, &s("{{args.n}}"), &ctx).unwrap();
    assert!(v.equals(&n("42")));
    let v = instantiate_json_value(&mut hb, &s("{{args.word}}"), &ctx).unwrap();
    assert!(v.equals(&s("hi")));
    let v = instantiate_json_value(&mut hb, &s("true"), &ctx).unwrap();
    assert!(v.equals(&Json::Bool(true)));
    let v = instantiate_json_value(&mut hb, &s("[1, \"a\"]"), &ctx).unwrap();
    assert!(v.equals(&Json::Array(vec![n("1"), s("a")])));
}

#[test]
fn templated_values_are_entered() {
    let mut hb = Engine::new(Handlebars::new()).unwrap();
    let ctx = context(&map(vec![("n", n("7"))]), &map(vec![]));
    let value = Json::Array(vec![
        s("x{{args.n}}"),
        Json::Object(vec![("k".to_string(), s("{{args.n}}"))]),
        Json::Bool(false),
        Json::Null,
        n("1.5"),
    ]);
    let out = instantiate_json_value(&mut hb, &value, &ctx).unwrap();
    let expected = Json::Array(vec![
        s("x7"),
        Json::Object(vec![("k".to_string(), n("7"))]),
        Json::Bool(false),
        Json::Null,
        n("1.5"),
    ]);
    assert!(out.equals(&expected));
}

#[test]
fn numbers_keep_their_text() {
    let mut hb = Engine::new(Handlebars::new()).unwrap();
    let ctx = context(&map(vec![("x", n("1.0")), ("y", n("-12"))]), &map(vec![]));
    assert_eq!(render_text(&mut hb, "{{args.x}} {{args.y}}", &ctx).unwrap(), "1.0 -12");
}

#[test]
fn check_type_accepts_and_rejects() {
    assert!(check_type(&ArgType::String, &s("a")).is_ok());
    assert!(check_type(&ArgType::Path, &s("a/b")).is_ok());
    assert!(check_type(&ArgType::Number, &n("1")).is_ok());
    assert!(check_type(&ArgType::Number, &n("1.5")).is_ok());
    assert!(matches!(
        check_type(&ArgType::Number, &Json::Bool(true)),
        Err(TypeCheckError::MismatchedType { expected: ArgType::Number })
    ));
    assert!(check_type(&ArgType::Boolean, &Json::Bool(false)).is_ok());
    assert!(matches!(
        check_type(&ArgType::String, &n("1")),
        Err(TypeCheckError::MismatchedType { expected: ArgType::String })
    ));
    assert!(matches!(
        check_type(&ArgType::Boolean, &s("true")),
        Err(TypeCheckError::MismatchedType { expected: ArgType::Boolean })
    ));
    assert!(matches!(
        check_type(&ArgType::Number, &s("1")),
        Err(TypeCheckError::MismatchedType { expected: ArgType::Number })
    ));
    assert!(matches!(
        check_type(&ArgType::Path, &Json::Null),
        Err(TypeCheckError::MismatchedType { expected: ArgType::Path })
    ));
}

#[test]
fn check_type_select() {
    let ty = ArgType::Select(vec!["debug".to_string(), "release".to_string()]);
    assert!(check_type(&ty, &s("release")).is_ok());
    match check_type(&ty, &s("fast")) {
        Err(TypeCheckError::InvalidOption { expected, value }) => {
            assert_eq!(expected, vec!["debug", "release"]);
            assert_eq!(value, "fast");
        }
        other => panic!("unexpected {:?}", other),
    }
    assert!(matches!(check_type(&ty, &n("1")), Err(TypeCheckError::MismatchedType { .. })));
}

#[test]
fn check_type_array() {
    let ty = ArgType::Array(Box::new(ArgType::Number));
    assert!(check_type(&ty, &Json::Array(vec![])).is_ok());
    assert!(check_type(&ty, &Json::Array(vec![n("1"), n("2")])).is_ok());
    assert!(matches!(
        check_type(&ty, &Json::Array(vec![n("1"), s("2")])),
        Err(TypeCheckError::MismatchedType { expected: ArgType::Array(_) })
    ));
    assert!(matches!(check_type(&ty, &n("1")), Err(TypeCheckError::MismatchedType { .. })));
}

#[test]
fn validate_is_strict_about_numbers() {
    assert!(ArgType::Number.validate(&n("1")));
    assert!(!ArgType::Number.validate(&Json::Bool(true)));
    assert!(ArgType::Select(vec!["a".to_string()]).validate(&s("a")));
    assert!(!ArgType::Select(vec!["a".to_string()]).validate(&s("b")));
    assert!(ArgType::Array(Box::new(ArgType::String)).validate(&Json::Array(vec![s("x")])));
    assert!(!ArgType::Array(Box::new(ArgType::String)).validate(&Json::Array(vec![n("1")])));
    assert!(Param { ty: ArgType::Number, default: None }.validate_default());
    assert!(Param { ty: ArgType::Number, default: Some(n("1")) }.validate_default());
    assert!(!Param { ty: ArgType::Number, default: Some(s("1")) }.validate_default());
}

fn task_with_params() -> Task {
    let mut task = Task::new("t");
    task.params.0.insert("name".to_string(), param(ArgType::String));
    task.params.0.insert("level".to_string(), param(ArgType::Number));
    task
}

#[test]
fn arguments_must_equal_parameters() {
    let task = task_with_params();
    assert!(task.check_args(&map(vec![("name", s("x")), ("level", n("1"))])).is_ok());
    assert!(task.check_args(&map(vec![("level", n("1")), ("name", s("x"))])).is_ok());
    match task.check_args(&map(vec![("level", n("1"))])) {
        Err(ArgumentsCheckError::NotFound { key }) => assert_eq!(key, "name"),
        other => panic!("unexpected {:?}", other),
    }
    match task.check_args(&map(vec![("name", s("x")), ("level", n("1")), ("extra", n("2"))])) {
        Err(ArgumentsCheckError::NotFound { key }) => assert_eq!(key, "extra"),
        other => panic!("unexpected {:?}", other),
    }
    match task.check_args(&map(vec![("name", n("3")), ("level", n("1"))])) {
        Err(ArgumentsCheckError::TypeError { key, err }) => {
            assert_eq!(key, "name");
            assert!(matches!(err, TypeCheckError::MismatchedType { expected: ArgType::String }));
        }
        other => panic!("unexpected {:?}", other),
    }
    // the first parameter without an argument is reported, in the order of the parameters
    match task.check_args(&map(vec![])) {
        Err(ArgumentsCheckError::NotFound { key }) => assert_eq!(key, "name"),
        other => panic!("unexpected {:?}", other),
    }
    assert!(Task::new("plain").check_args(&map(vec![])).is_ok());
}

#[test]
fn a_declared_default_stands_in_for_a_missing_argument() {
    let mut hb = Engine::new(Handlebars::new()).unwrap();
    let mut task = Task::new("t");
    task.params.0.insert("name".to_string(), Param { ty: ArgType::String, default: Some(s("d")) });
    task.params.0.insert("level".to_string(), Param { ty: ArgType::Number, default: None });
    task.body.workdir = "{{args.name}}/{{args.level}}".to_string();
    assert!(task.check_args(&map(vec![("level", n("1"))])).is_ok());
    let inst = task.instantiate(&mut hb, &map(vec![("level", n("1"))]), &map(vec![])).unwrap();
    assert_eq!(inst.body.workdir, "d/1");
    // an argument goes before the default
    let inst = task.instantiate(&mut hb, &map(vec![("level", n("2")), ("name", s("x"))]), &map(vec![])).unwrap();
    assert_eq!(inst.body.workdir, "x/2");
    // a parameter without a default still needs its argument
    match task.check_args(&map(vec![("name", s("x"))])) {
        Err(ArgumentsCheckError::NotFound { key }) => assert_eq!(key, "level"),
        other => panic!("unexpected {:?}", other),
    }
    let eff = task.effective_args(&map(vec![("level", n("1"))]));
    assert_eq!(eff.key_at(0), "name");
    assert_eq!(eff.key_at(1), "level");
}

#[test]
fn a_default_that_is_not_of_the_type_is_refused_when_it_is_needed() {
    let mut task = Task::new("t");
    task.params.0.insert("level".to_string(), Param { ty: ArgType::Number, default: Some(Json::Bool(true)) });
    match task.check_args(&map(vec![])) {
        Err(ArgumentsCheckError::TypeError { key, .. }) => assert_eq!(key, "level"),
        other => panic!("unexpected {:?}", other),
    }
    assert!(task.check_args(&map(vec![("level", n("3"))])).is_ok());
    assert!(matches!(
        task.check_args(&map(vec![("level", Json::Bool(true))])),
        Err(ArgumentsCheckError::TypeError { .. })
    ));
}

#[test]
fn instantiate_renders_every_part() {
    let mut hb = Engine::new(Handlebars::new()).unwrap();
    let mut task = Task::new("compile");
    task.params.0.insert("name".to_string(), param(ArgType::String));
    task.body.workdir = "build/{{args.name}}".to_string();
    task.body.phony = true;
    task.body.sources = vec!["{{args.name}}.c".to_string(), "common.h".to_string()];
    task.body.outputs.paths =
        vec![OutputPath::File("{{args.name}}.o".to_string()), OutputPath::Directory("{{env.OUT}}/".to_string())];
    task.body.steps = vec![Command::Shell("cc -c {{args.name}}.c".to_string())];
    task.body.clean = Some(vec![Command::Shell("rm -f {{args.name}}.o".to_string())]);
    task.body.env.insert("LOCAL".to_string(), s("1"));
    task.body.deps.0.push(Dep {
        invocation: TaskInvocation {
            reference: TaskRef::parse("gen:{{args.name}}_gen"),
            args: map(vec![("target", s("{{args.name}}")), ("jobs", s("{{env.JOBS}}"))]),
        },
        id: Some("g".to_string()),
        after: vec!["other".to_string()],
    });
    let args = map(vec![("name", s("foo"))]);
    let env = map(vec![("OUT", s("out")), ("JOBS", n("4"))]);
    let it = task.instantiate(&mut hb, &args, &env).unwrap();
    assert_eq!(it.name, "compile");
    assert_eq!(it.body.workdir, "build/foo");
    assert!(it.body.phony);
    assert_eq!(it.body.sources, vec!["foo.c", "common.h"]);
    assert!(matches!(&it.body.outputs.paths[0], OutputPath::File(p) if p == "foo.o"));
    assert!(matches!(&it.body.outputs.paths[1], OutputPath::Directory(p) if p == "out/"));
    assert_eq!(it.body.steps[0].as_str(), "cc -c foo.c");
    assert_eq!(it.body.clean.as_ref().unwrap()[0].as_str(), "rm -f foo.o");
    assert!(it.body.env.get("LOCAL").unwrap().equals(&s("1")));
    let dep = &it.body.deps.0[0];
    // the alias is not a template; the name is
    assert_eq!(dep.invocation.reference.to_text(), "gen:foo_gen");
    assert!(dep.invocation.args.get("target").unwrap().equals(&s("foo")));
    assert!(dep.invocation.args.get("jobs").unwrap().equals(&n("4")));
    assert_eq!(dep.id.as_deref(), Some("g"));
    assert_eq!(dep.after, vec!["other"]);
}

#[test]
fn instantiate_fails_on_arguments_first() {
    let mut hb = Engine::new(Handlebars::new()).unwrap();
    let mut task = Task::new("t");
    task.params.0.insert("name".to_string(), param(ArgType::String));
    task.body.workdir = "{{#if}}".to_string();
    match task.instantiate(&mut hb, &map(vec![]), &map(vec![])) {
        Err(InstantiationError::ArgsError(ArgumentsCheckError::NotFound { key })) => assert_eq!(key, "name"),
        other => panic!("unexpected {:?}", other.map(|_| ())),
    }
}

#[test]
fn instantiate_reports_the_part_that_does_not_render() {
    let mut hb = Engine::new(Handlebars::new()).unwrap();
    let bad = "{{#if}}";
    let none = map(vec![]);

    let mut task = Task::new("t");
    task.body.workdir = bad.to_string();
    assert!(matches!(task.instantiate(&mut hb, &none, &none), Err(InstantiationError::TemplateRenderError(_))));

    let mut task = Task::new("t");
    task.body.outputs.paths = vec![OutputPath::File(bad.to_string())];
    task.body.sources = vec![bad.to_string()];
    assert!(matches!(
        task.instantiate(&mut hb, &none, &none),
        Err(InstantiationError::OutputPathInstantiationError(_))
    ));

    let mut task = Task::new("t");
    task.body.sources = vec![bad.to_string()];
    task.body.steps = vec![Command::Shell(bad.to_string())];
    assert!(matches!(task.instantiate(&mut hb, &none, &none), Err(InstantiationError::TemplateRenderError(_))));

    let mut task = Task::new("t");
    task.body.steps = vec![Command::Shell("ok".to_string()), Command::Shell(bad.to_string())];
    task.body.clean = Some(vec![Command::Shell(bad.to_string())]);
    assert!(matches!(
        task.instantiate(&mut hb, &none, &none),
        Err(InstantiationError::StepsInstantiationError(_))
    ));

    let mut task = Task::new("t");
    task.body.clean = Some(vec![Command::Shell(bad.to_string())]);
    assert!(matches!(
        task.instantiate(&mut hb, &none, &none),
        Err(InstantiationError::CleanStepsInstantiationError(_))
    ));

    let mut task = Task::new("t");
    task.body.deps.0.push(Dep {
        invocation: TaskInvocation { reference: TaskRef::parse(bad), args: map(vec![]) },
        id: None,
        after: vec![],
    });
    assert!(matches!(task.instantiate(&mut hb, &none, &none), Err(InstantiationError::TemplateRenderError(_))));
}

#[test]
fn later_environment_overrides_earlier() {
    let base = map(vec![("A", s("1")), ("B", s("2"))]);
    let over = to_env(&map(vec![("B", s("3")), ("C", s("4"))]));
    let env = layer_env(&base, &over);
    assert_eq!(env.len(), 3);
    assert!(env.get("A").unwrap().equals(&s("1")));
    assert!(env.get("B").unwrap().equals(&s("3")));
    assert!(env.get("C").unwrap().equals(&s("4")));
    assert_eq!(env.key_at(1), "B");
    // a name that is overridden moves behind the names that are not
    let env = layer_env(&map(vec![("B", s("2")), ("A", s("1"))]), &over);
    assert_eq!(env.key_at(0), "A");
    assert_eq!(env.key_at(1), "B");
    assert_eq!(env.key_at(2), "C");
    assert!(env.get("B").unwrap().equals(&s("3")));
}

#[test]
fn arguments_are_compared_as_maps() {
    let a = map(vec![("x", n("1")), ("y", s("z"))]);
    let b = map(vec![("y", s("z")), ("x", n("1"))]);
    let c = map(vec![("x", n("1"))]);
    let d = map(vec![("x", n("1")), ("y", s("other"))]);
    assert!(args_equal(&a, &b));
    assert!(!args_equal(&a, &c));
    assert!(!args_equal(&c, &a));
    assert!(!args_equal(&a, &d));
    assert!(args_equal(&map(vec![]), &map(vec![])));
}

#[test]
fn strmap_keeps_order_and_replaces_in_place() {
    let mut m: StrMap<Json> = StrMap::new();
    assert!(m.is_empty());
    assert!(m.insert("a".to_string(), n("1")).is_none());
    assert!(m.insert("b".to_string(), n("2")).is_none());
    let old = m.insert("a".to_string(), n("3")).unwrap();
    assert!(old.equals(&n("1")));
    assert_eq!(m.len(), 2);
    assert_eq!(m.key_at(0), "a");
    assert_eq!(m.key_at(1), "b");
    assert!(m.value_at(0).equals(&n("3")));
    assert_eq!(m.find("b"), Some(1));
    assert_eq!(m.find("c"), None);
    assert!(m.contains_key("a"));
    assert!(!m.contains_key(""));
}

#[test]
fn json_equality_and_copies() {
    let v = Json::Object(vec![
        ("a".to_string(), Json::Array(vec![n("1"), Json::Null, Json::Bool(true)])),
        ("b".to_string(), s("x")),
    ]);
    let copy = v.duplicate();
    assert!(v.equals(&copy));
    assert!(!v.equals(&Json::Object(vec![])));
    assert!(!n("1").equals(&n("1.0")));
    assert!(!n("1").equals(&s("1")));
    assert!(!Json::Array(vec![n("1")]).equals(&Json::Array(vec![n("1"), n("1")])));
    assert!(Json::Null.is_null());
    assert!(s("a").is_string());
    assert_eq!(s("a").as_str(), Some("a"));
    assert_eq!(n("1").as_str(), None);
    assert!(n("1").is_number());
    assert!(Json::Bool(true).is_boolean());
    assert_eq!(Json::Array(vec![n("1")]).as_array().unwrap().len(), 1);
    assert!(n("1").as_array().is_none());
}

#[test]
fn an_engine_in_development_mode_is_not_taken() {
    let mut hb = Handlebars::new();
    hb.set_dev_mode(true);
    assert!(Engine::new(hb).is_none());
    let mut hb = Handlebars::new();
    hb.set_dev_mode(true);
    hb.set_dev_mode(false);
    assert!(Engine::new(hb).is_some());
}

#[test]
fn values_as_text() {
    assert_eq!(s("a\"b").to_text(), "\"a\\\"b\"");
    assert_eq!(n("1.50").to_text(), "1.5");
    assert_eq!(Json::Null.to_text(), "null");
    assert_eq!(Json::Array(vec![n("1"), Json::Bool(true)]).to_text(), "[1,true]");
    assert_eq!(
        Json::Object(vec![("b".to_string(), n("2")), ("a".to_string(), s("x"))]).to_text(),
        "{\"a\":\"x\",\"b\":2}"
    );
    assert_eq!(s("plain").to_env_text(), "plain");
    assert_eq!(n("3").to_env_text(), "3");
    assert_eq!(Json::Bool(false).to_env_text(), "false");
}

#[test]
fn an_environment_is_copied_name_by_name() {
    let env = to_env(&map(vec![("Z", s("1")), ("A", n("2"))]));
    assert_eq!(env.len(), 2);
    assert_eq!(env.keys().cloned().collect::<Vec<_>>(), vec!["Z", "A"]);
    let copy = copy_env(&env);
    assert_eq!(copy.keys().cloned().collect::<Vec<_>>(), vec!["Z", "A"]);
    assert!(copy.get("A").unwrap().equals(&n("2")));
    assert!(copy.get("Z").unwrap().equals(&s("1")));
}

#[test]
fn a_template_is_rendered_once_over_a_context() {
    let ticks = std::sync::Arc::new(std::sync::atomic::AtomicUsize::new(0));
    let counter = ticks.clone();
    let mut hb = Handlebars::new();
    hb.register_helper(
        "tick",
        Box::new(
            move |_: &handlebars::Helper,
                  _: &Handlebars,
                  _: &handlebars::Context,
                  _: &mut handlebars::RenderContext,
                  out: &mut dyn handlebars::Output|
                  -> handlebars::HelperResult {
                let n = counter.fetch_add(1, std::sync::atomic::Ordering::SeqCst);
                out.write(&n.to_string())?;
                Ok(())
            },
        ),
    );
    let mut hb = Engine::new(hb).unwrap();
    let ctx = context(&map(vec![]), &map(vec![]));
    let other = context(&map(vec![("a", n("1"))]), &map(vec![]));
    assert_eq!(render_text(&mut hb, "t{{tick}}", &ctx).unwrap(), "t0");
    // asked again, the template is answered from the record
    assert_eq!(render_text(&mut hb, "t{{tick}}", &ctx).unwrap(), "t0");
    // another context, or another template, is rendered anew
    assert_eq!(render_text(&mut hb, "t{{tick}}", &other).unwrap(), "t1");
    assert_eq!(render_text(&mut hb, "u{{tick}}", &ctx).unwrap(), "u2");
    assert_eq!(render_text(&mut hb, "t{{tick}}", &other).unwrap(), "t1");
    // a failure is on record too
    assert!(render_text(&mut hb, "{{#if}}", &ctx).is_err());
    assert!(render_text(&mut hb, "{{#if}}", &ctx).is_err());
    assert_eq!(ticks.load(std::sync::atomic::Ordering::SeqCst), 3);
}

#[test]
fn the_record_holds_what_was_noted() {
    let mut hb = Engine::new(Handlebars::new()).unwrap();
    let ctx = context(&map(vec![]), &map(vec![]));
    assert!(hb.known("{{a}}", &ctx).is_none());
    assert_eq!(hb.note("{{a}}", &ctx, Ok("text".to_string())).unwrap(), "text");
    assert_eq!(hb.known("{{a}}", &ctx).unwrap().unwrap(), "text");
    assert_eq!(hb.note("{{b}}", &ctx, Err("no".to_string())).unwrap_err().message, "no");
    assert_eq!(hb.known("{{b}}", &ctx).unwrap().unwrap_err().message, "no");
    // what is on record is what is rendered
    assert_eq!(render_text(&mut hb, "{{a}}", &ctx).unwrap(), "text");
    assert!(render_text(&mut hb, "{{b}}", &ctx).is_err());
    // a text without expressions is not put on record
    assert_eq!(render_text(&mut hb, "plain", &ctx).unwrap(), "plain");
    assert!(hb.known("plain", &ctx).is_none());
}
