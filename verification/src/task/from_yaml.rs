//! Reading a task out of a YAML document.

use crate::json::{
    decimal, integer_number, json_members_view, json_seq_view, number_of_text, parse_number, Json,
    JsonView,
};
use crate::task::from_yaml::command::{parse_clean, parse_steps, steps_parsed, StepsParseError};
use crate::task::from_yaml::deps::{
    deps_declared, deps_fault, deps_unreadable, parse_deps, DepParsingError,
};
use crate::task::from_yaml::io::{
    entries_map, env_fault, outputs_fault, outputs_parsed, params_fault, params_map, params_view,
    parse_env,
    parse_outputs, parse_params, parse_sources, sources_fault, strings_parsed, InvalidEnv,
    InvalidOutputs, InvalidSources, ParamParsingError,
};
use crate::collections::env_members;
use crate::task::invocation::args_view;
use crate::task::task::Task;
use crate::text::text_eq;
use crate::yaml::{entry, first_keys, has_entry, hash_get, YamlValue};
use vstd::prelude::*;

pub mod command;
pub mod deps;
pub mod io;

verus! {

/// Why a task could not be read.
#[derive(Debug)]
pub enum InvalidTaskObject {
    /// The task is not a hash.
    InvalidTaskType,
    InvalidDescriptionType,
    InvalidWorkdirType,
    InvalidPhonyType,
    InvalidEnv(InvalidEnv),
    InvalidDependencies(DepParsingError),
    InvalidParams(ParamParsingError),
    InvalidSteps(StepsParseError),
    InvalidClean(StepsParseError),
    InvalidSources(InvalidSources),
    InvalidOutputs(InvalidOutputs),
    /// The task has keys that no task has.
    UnusedKeys(Vec<String>),
}

/// Whether a task may have this key.
pub open spec fn is_known_key(k: Seq<char>) -> bool {
    k == "description"@ || k == "workdir"@ || k == "phony"@ || k == "env"@ || k == "deps"@ || k
        == "params"@ || k == "steps"@ || k == "clean"@ || k == "sources"@ || k == "outputs"@
}

/// The keys of a hash that are strings and that no task has, in order.
pub open spec fn unknown_keys(entries: Seq<(YamlValue, YamlValue)>) -> Seq<Seq<char>>
    decreases entries.len(),
{
    if entries.len() == 0 {
        Seq::empty()
    } else if entries.last().0 is String && !is_known_key(entries.last().0->String_0@) {
        unknown_keys(entries.drop_last()).push(entries.last().0->String_0@)
    } else {
        unknown_keys(entries.drop_last())
    }
}

/// Whether a task may have this key.
pub fn known_key(k: &str) -> (r: bool)
    ensures
        r == is_known_key(k@),
{
    text_eq(k, "description") || text_eq(k, "workdir") || text_eq(k, "phony") || text_eq(k, "env")
        || text_eq(k, "deps") || text_eq(k, "params") || text_eq(k, "steps") || text_eq(k, "clean")
        || text_eq(k, "sources") || text_eq(k, "outputs")
}

/// The keys of a hash that are strings and that no task has, in order.
pub fn find_unknown_keys(entries: &Vec<(YamlValue, YamlValue)>) -> (r: Vec<String>)
    ensures
        crate::task::params::texts_view(r@) == unknown_keys(entries@),
{
    let mut out: Vec<String> = Vec::new();
    let mut i: usize = 0;
    proof {
        assert(entries@.take(0) =~= Seq::empty());
        assert(crate::task::params::texts_view(out@) =~= Seq::empty());
    }
    while i < entries.len()
        invariant
            i <= entries@.len(),
            crate::task::params::texts_view(out@) == unknown_keys(entries@.take(i as int)),
        decreases entries@.len() - i,
    {
        proof {
            assert(entries@.take(i + 1).drop_last() =~= entries@.take(i as int));
            assert(entries@.take(i + 1).last() == entries@[i as int]);
        }
        let ghost before = out@;
        match entries[i].0.as_str() {
            Some(k) => {
                if !known_key(k) {
                    out.push(k.to_owned());
                    assert(crate::task::params::texts_view(out@) =~= crate::task::params::texts_view(
                        before,
                    ).push(k@));
                }
            },
            None => {},
        }
        i += 1;
    }
    proof {
        assert(entries@.take(entries@.len() as int) =~= entries@);
    }
    out
}

/// The names that the entries of a hash declare with their values, each
/// name once, in the order in which the names first occur, each with the
/// value of its last entry.
pub open spec fn declared_members(entries: Seq<(YamlValue, YamlValue)>) -> Seq<(Seq<char>, JsonView)> {
    Seq::new(
        first_keys(entries).len(),
        |i: int| (first_keys(entries)[i], entries_map(entries)->0[first_keys(entries)[i]]),
    )
}

/// `task` has the name `name` and what the hash `h` declares of a
/// task's description, working directory, environment and of its being
/// phony; `workdir` is its working directory where `h` declares none.
pub open spec fn head_declared(
    workdir: Seq<char>,
    name: Seq<char>,
    h: Seq<(YamlValue, YamlValue)>,
    task: Task,
) -> bool {
    &&& task.name@ == name
    &&& if has_entry(h, "description"@) {
        entry(h, "description"@) is String && task.description is Some && task.description->0@
            == entry(h, "description"@)->String_0@
    } else {
        task.description is None
    }
    &&& if has_entry(h, "workdir"@) {
        entry(h, "workdir"@) is String && task.body.workdir@ == entry(h, "workdir"@)->String_0@
    } else {
        task.body.workdir@ == workdir
    }
    &&& if has_entry(h, "phony"@) {
        entry(h, "phony"@) == YamlValue::Boolean(task.body.phony)
    } else {
        !task.body.phony
    }
    &&& if has_entry(h, "env"@) {
        entry(h, "env"@) is Hash && entries_map(entry(h, "env"@)->Hash_0@) is Some && env_members(
            task.body.env,
        ) == declared_members(entry(h, "env"@)->Hash_0@)
    } else {
        env_members(task.body.env) =~= Seq::empty()
    }
}

/// `task` has what the hash `h` declares of a task's dependencies,
/// parameters, steps, clean steps, sources and outputs.
pub open spec fn parts_declared(h: Seq<(YamlValue, YamlValue)>, task: Task) -> bool {
    &&& if has_entry(h, "deps"@) {
        deps_declared(entry(h, "deps"@), task.body.deps.0@)
    } else {
        task.body.deps.0@.len() == 0
    }
    &&& if has_entry(h, "params"@) {
        entry(h, "params"@) is Hash && params_map(Map::empty(), entry(h, "params"@)->Hash_0@) == Some(
            params_view(task.params.0),
        ) && task.params.0.keys() == first_keys(entry(h, "params"@)->Hash_0@)
    } else {
        task.params.0.keys() =~= Seq::empty()
    }
    &&& if has_entry(h, "steps"@) {
        steps_parsed(entry(h, "steps"@), task.body.steps@)
    } else {
        task.body.steps@.len() == 0
    }
    &&& if has_entry(h, "clean"@) {
        task.body.clean is Some && steps_parsed(entry(h, "clean"@), task.body.clean->0@)
    } else {
        task.body.clean is None
    }
    &&& if has_entry(h, "sources"@) {
        strings_parsed(entry(h, "sources"@), task.body.sources@)
    } else {
        task.body.sources@.len() == 0
    }
    &&& if has_entry(h, "outputs"@) {
        outputs_parsed(entry(h, "outputs"@), task.body.outputs.paths@)
    } else {
        task.body.outputs.paths@.len() == 0
    }
}

/// `task` is the task that the hash `h` declares under `name`, with
/// `workdir` as its working directory where it declares none.
pub open spec fn task_declared(
    workdir: Seq<char>,
    name: Seq<char>,
    h: Seq<(YamlValue, YamlValue)>,
    task: Task,
) -> bool {
    &&& task.wf()
    &&& head_declared(workdir, name, h, task)
    &&& parts_declared(h, task)
    &&& unknown_keys(h).len() == 0
}

/// What is wrong with the hash of a task, if `e` is the error of reading it.
pub open spec fn task_fault(h: Seq<(YamlValue, YamlValue)>, e: InvalidTaskObject) -> bool {
    match e {
        InvalidTaskObject::InvalidTaskType => false,
        InvalidTaskObject::InvalidDescriptionType => has_entry(h, "description"@) && !(entry(
            h,
            "description"@,
        ) is String),
        InvalidTaskObject::InvalidWorkdirType => has_entry(h, "workdir"@) && !(entry(h, "workdir"@)
            is String),
        InvalidTaskObject::InvalidPhonyType => has_entry(h, "phony"@) && !(entry(h, "phony"@)
            is Boolean),
        InvalidTaskObject::InvalidEnv(f) => has_entry(h, "env"@) && env_fault(entry(h, "env"@), f),
        InvalidTaskObject::InvalidDependencies(f) => has_entry(h, "deps"@) && deps_unreadable(
            entry(h, "deps"@),
        ) && deps_fault(entry(h, "deps"@), f),
        InvalidTaskObject::InvalidParams(f) => has_entry(h, "params"@) && params_fault(
            entry(h, "params"@),
            f,
        ) && (entry(h, "params"@) is Hash ==> params_map(Map::empty(), entry(h, "params"@)->Hash_0@)
            is None),
        InvalidTaskObject::InvalidSteps(f) => has_entry(h, "steps"@)
            && crate::task::from_yaml::command::steps_fault(entry(h, "steps"@), f),
        InvalidTaskObject::InvalidClean(f) => has_entry(h, "clean"@)
            && crate::task::from_yaml::command::steps_fault(entry(h, "clean"@), f),
        InvalidTaskObject::InvalidSources(f) => has_entry(h, "sources"@) && sources_fault(
            entry(h, "sources"@),
            f,
        ),
        InvalidTaskObject::InvalidOutputs(f) => has_entry(h, "outputs"@) && outputs_fault(
            entry(h, "outputs"@),
            f,
        ),
        InvalidTaskObject::UnusedKeys(keys) => keys@.len() > 0 && crate::task::params::texts_view(keys@)
            == unknown_keys(h),
    }
}

/// Whether the steps under a key can be read.
pub open spec fn steps_readable(steps: YamlValue) -> bool {
    match steps {
        YamlValue::String(_) => true,
        YamlValue::Array(items) => forall|i: int|
            0 <= i < items@.len() ==> crate::task::from_yaml::command::step_script(
                #[trigger] items@[i],
            ) is Some,
        _ => false,
    }
}

/// Whether a node is an array of strings.
pub open spec fn is_string_array(node: YamlValue) -> bool {
    node is Array && forall|i: int|
        0 <= i < node->Array_0@.len() ==> (#[trigger] node->Array_0@[i]) is String
}

/// Whether the key of this rank is absent from the hash of a task or can
/// be read. The keys rank in the order in which they are read:
/// `description`, `workdir`, `phony`, `env`, `deps`, `params`, `steps`,
/// `clean`, `sources`, `outputs`.
pub open spec fn key_readable(h: Seq<(YamlValue, YamlValue)>, rank: int) -> bool {
    if rank == 0 {
        has_entry(h, "description"@) ==> entry(h, "description"@) is String
    } else if rank == 1 {
        has_entry(h, "workdir"@) ==> entry(h, "workdir"@) is String
    } else if rank == 2 {
        has_entry(h, "phony"@) ==> entry(h, "phony"@) is Boolean
    } else if rank == 3 {
        has_entry(h, "env"@) ==> entry(h, "env"@) is Hash && entries_map(entry(h, "env"@)->Hash_0@)
            is Some
    } else if rank == 4 {
        has_entry(h, "deps"@) ==> !deps_unreadable(entry(h, "deps"@))
    } else if rank == 5 {
        has_entry(h, "params"@) ==> entry(h, "params"@) is Hash && params_map(
            Map::empty(),
            entry(h, "params"@)->Hash_0@,
        ) is Some
    } else if rank == 6 {
        has_entry(h, "steps"@) ==> steps_readable(entry(h, "steps"@))
    } else if rank == 7 {
        has_entry(h, "clean"@) ==> steps_readable(entry(h, "clean"@))
    } else if rank == 8 {
        has_entry(h, "sources"@) ==> is_string_array(entry(h, "sources"@))
    } else {
        has_entry(h, "outputs"@) ==> is_string_array(entry(h, "outputs"@))
    }
}

/// Whether the hash of a task can be read: each key of a task is absent
/// or can be read, and there is no key that no task has.
pub open spec fn task_readable(h: Seq<(YamlValue, YamlValue)>) -> bool {
    &&& forall|rank: int| 0 <= rank < 10 ==> key_readable(h, rank)
    &&& unknown_keys(h).len() == 0
}

/// The rank of the key that an error is about; a key that no task has
/// ranks after all the others.
pub open spec fn fault_rank(e: InvalidTaskObject) -> int {
    match e {
        InvalidTaskObject::InvalidTaskType => 0,
        InvalidTaskObject::InvalidDescriptionType => 0,
        InvalidTaskObject::InvalidWorkdirType => 1,
        InvalidTaskObject::InvalidPhonyType => 2,
        InvalidTaskObject::InvalidEnv(_) => 3,
        InvalidTaskObject::InvalidDependencies(_) => 4,
        InvalidTaskObject::InvalidParams(_) => 5,
        InvalidTaskObject::InvalidSteps(_) => 6,
        InvalidTaskObject::InvalidClean(_) => 7,
        InvalidTaskObject::InvalidSources(_) => 8,
        InvalidTaskObject::InvalidOutputs(_) => 9,
        InvalidTaskObject::UnusedKeys(_) => 10,
    }
}

/// `e` tells what is wrong with the first key of the hash that cannot be
/// read: every key of a lower rank is absent or can be read, and the key
/// that `e` is about cannot.
pub open spec fn is_first_fault(h: Seq<(YamlValue, YamlValue)>, e: InvalidTaskObject) -> bool {
    &&& task_fault(h, e)
    &&& fault_rank(e) < 10 ==> !key_readable(h, fault_rank(e))
    &&& forall|rank: int| 0 <= rank < fault_rank(e) ==> key_readable(h, rank)
}

/// A hash with a fault cannot be read.
pub proof fn lemma_fault_is_unreadable(h: Seq<(YamlValue, YamlValue)>, e: InvalidTaskObject)
    requires
        is_first_fault(h, e),
    ensures
        !task_readable(h),
{
    if fault_rank(e) < 10 {
        assert(!key_readable(h, fault_rank(e)));
    } else {
        assert(e is UnusedKeys);
        assert(crate::task::params::texts_view(e->UnusedKeys_0@).len() == e->UnusedKeys_0@.len());
    }
}

/// Reads the head of a task out of the hash that declares it: the name,
/// and under `description`, `workdir`, `phony` and `env` what the hash
/// declares. The rest of the task is as in a task that declares nothing.
fn parse_head(workdir: &str, name: &str, hash: &Vec<(YamlValue, YamlValue)>) -> (r: Result<
    Task,
    InvalidTaskObject,
>)
    ensures
        match r {
            Ok(task) => {
                &&& task.wf()
                &&& head_declared(workdir@, name@, hash@, task)
                &&& forall|rank: int| 0 <= rank < 4 ==> key_readable(hash@, rank)
                &&& task.params.0.keys() =~= Seq::empty()
                &&& task.body.outputs.paths@ =~= Seq::empty()
                &&& task.body.sources@ =~= Seq::empty()
                &&& task.body.deps.0@ =~= Seq::empty()
                &&& task.body.steps@ =~= Seq::empty()
                &&& task.body.clean is None
            },
            Err(e) => is_first_fault(hash@, e) && fault_rank(e) < 4,
        },
{
    let mut task = Task::new(name);
    task.body.workdir = workdir.to_owned();
    match hash_get(hash, "description") {
        Some(description) => match description.as_str() {
            Some(d) => {
                task.description = Some(d.to_owned());
            },
            None => {
                return Err(InvalidTaskObject::InvalidDescriptionType);
            },
        },
        None => {},
    }
    assert(key_readable(hash@, 0));
    match hash_get(hash, "workdir") {
        Some(w) => match w.as_str() {
            Some(dir) => {
                task.body.workdir = dir.to_owned();
            },
            None => {
                return Err(InvalidTaskObject::InvalidWorkdirType);
            },
        },
        None => {},
    }
    assert(key_readable(hash@, 1));
    match hash_get(hash, "phony") {
        Some(p) => match p.as_bool() {
            Some(b) => {
                task.body.phony = b;
            },
            None => {
                return Err(InvalidTaskObject::InvalidPhonyType);
            },
        },
        None => {},
    }
    assert(key_readable(hash@, 2));
    match hash_get(hash, "env") {
        Some(env) => match parse_env(env) {
            Ok(parsed) => {
                proof {
                    parsed.lemma_len();
                    assert forall|i: int| 0 <= i < parsed.keys().len() implies parsed.values()[i]@
                        == entries_map(env->Hash_0@)->0[parsed.keys()[i]] by {
                        parsed.lemma_at_position(i);
                        assert(args_view(parsed)[parsed.keys()[i]] == parsed.at(parsed.keys()[i])@);
                    }
                    assert(crate::task::map_members(parsed) =~= declared_members(env->Hash_0@));
                }
                task.body.env = crate::task::to_env(&parsed);
            },
            Err(e) => {
                return Err(InvalidTaskObject::InvalidEnv(e));
            },
        },
        None => {},
    }
    assert(key_readable(hash@, 3));
    Ok(task)
}

/// Reads a task out of the hash that declares it. The keys of the hash are
/// read in this order, and the first that cannot be read gives the error:
/// `description`, `workdir`, `phony`, `env`, `deps`, `params`, `steps`,
/// `clean`, `sources`, `outputs`. A key that no task has is an error too.
pub fn parse_task(workdir: &str, name: &str, value: &YamlValue) -> (r: Result<Task, InvalidTaskObject>)
    ensures
        match r {
            Ok(task) => value is Hash && task_declared(workdir@, name@, value->Hash_0@, task)
                && task_readable(value->Hash_0@),
            Err(InvalidTaskObject::InvalidTaskType) => !(value is Hash),
            Err(e) => value is Hash && is_first_fault(value->Hash_0@, e),
        },
{
    let hash = match value.as_hash() {
        Some(h) => h,
        None => {
            return Err(InvalidTaskObject::InvalidTaskType);
        },
    };
    let mut task = match parse_head(workdir, name, hash) {
        Ok(task) => task,
        Err(e) => {
            return Err(e);
        },
    };
    match hash_get(hash, "deps") {
        Some(deps) => match parse_deps(&mut task, deps) {
            Ok(()) => {
                assert(task.body.deps.0@.subrange(0, task.body.deps.0@.len() as int) =~= task.body.deps.0@);
            },
            Err(e) => {
                return Err(InvalidTaskObject::InvalidDependencies(e));
            },
        },
        None => {},
    }
    assert(key_readable(value->Hash_0@, 4));
    match hash_get(hash, "params") {
        Some(params) => {
            let ghost before = params_view(task.params.0);
            assert(before =~= Map::empty());
            match parse_params(&mut task, params) {
                Ok(()) => {},
                Err(e) => {
                    return Err(InvalidTaskObject::InvalidParams(e));
                },
            }
        },
        None => {},
    }
    assert(key_readable(value->Hash_0@, 5));
    match hash_get(hash, "steps") {
        Some(steps) => match parse_steps(&mut task, steps) {
            Ok(()) => {},
            Err(e) => {
                return Err(InvalidTaskObject::InvalidSteps(e));
            },
        },
        None => {},
    }
    assert(key_readable(value->Hash_0@, 6));
    match hash_get(hash, "clean") {
        Some(clean) => match parse_clean(&mut task, clean) {
            Ok(()) => {},
            Err(e) => {
                return Err(InvalidTaskObject::InvalidClean(e));
            },
        },
        None => {},
    }
    assert(key_readable(value->Hash_0@, 7));
    match hash_get(hash, "sources") {
        Some(sources) => match parse_sources(&mut task, sources) {
            Ok(()) => {},
            Err(e) => {
                return Err(InvalidTaskObject::InvalidSources(e));
            },
        },
        None => {},
    }
    assert(key_readable(value->Hash_0@, 8));
    match hash_get(hash, "outputs") {
        Some(outputs) => match parse_outputs(&mut task, outputs) {
            Ok(()) => {},
            Err(e) => {
                return Err(InvalidTaskObject::InvalidOutputs(e));
            },
        },
        None => {},
    }
    assert(key_readable(value->Hash_0@, 9));
    let unused_keys = find_unknown_keys(hash);
    if unused_keys.len() > 0 {
        return Err(InvalidTaskObject::UnusedKeys(unused_keys));
    }
    Ok(task)
}

/// Why a YAML node could not be taken as a JSON value.
#[derive(Debug)]
pub enum YamlToJsonError {
    /// A number is written in a way that JSON does not know.
    InvalidNumber(String),
    /// The key of a hash is not a string.
    InvalidKey,
    /// The node is a bad value, or an alias.
    BadValue,
}

/// The JSON value that a YAML node stands for: a hash whose keys are
/// strings is an object, an array an array, a scalar the scalar of the
/// same kind. `None` where a key is not a string, a number is not a JSON
/// number, or a node is a bad value or an alias.
pub open spec fn yaml_json(y: YamlValue) -> Option<JsonView>
    decreases y,
{
    match y {
        YamlValue::Null => Some(JsonView::Null),
        YamlValue::Boolean(b) => Some(JsonView::Bool(b)),
        YamlValue::Integer(i) => Some(JsonView::Number(decimal(i as int))),
        YamlValue::Real(s) => match number_of_text(s@) {
            Some(n) => Some(JsonView::Number(n)),
            None => None,
        },
        YamlValue::String(s) => Some(JsonView::String(s@)),
        YamlValue::Array(items) => if forall|i: int|
            0 <= i < items@.len() ==> yaml_json(#[trigger] items@[i]) is Some {
            Some(
                JsonView::Array(
                    Seq::new(
                        items@.len(),
                        |i: int|
                            if 0 <= i < items@.len() {
                                yaml_json(items@[i])->0
                            } else {
                                JsonView::Null
                            },
                    ),
                ),
            )
        } else {
            None
        },
        YamlValue::Hash(entries) => if forall|i: int|
            0 <= i < entries@.len() ==> (#[trigger] entries@[i]).0 is String && yaml_json(entries@[i].1)
                is Some {
            Some(
                JsonView::Object(
                    Seq::new(
                        entries@.len(),
                        |i: int|
                            if 0 <= i < entries@.len() {
                                (entries@[i].0->String_0@, yaml_json(entries@[i].1)->0)
                            } else {
                                (Seq::empty(), JsonView::Null)
                            },
                    ),
                ),
            )
        } else {
            None
        },
        YamlValue::Alias(_) => None,
        YamlValue::BadValue => None,
    }
}

/// What is wrong with a node that has no JSON value, if `e` is the error
/// of taking it as one: `e` tells of the first part of the node, in the
/// order of the document, that has none.
pub open spec fn json_fault(y: YamlValue, e: YamlToJsonError) -> bool
    decreases y,
{
    match y {
        YamlValue::Real(s) => number_of_text(s@) is None && (e matches YamlToJsonError::InvalidNumber(t)
            && t@ == s@),
        YamlValue::Array(items) => exists|i: int|
            0 <= i < items@.len() && yaml_json(#[trigger] items@[i]) is None && json_fault(items@[i], e)
                && forall|j: int| 0 <= j < i ==> yaml_json(#[trigger] items@[j]) is Some,
        YamlValue::Hash(entries) => exists|i: int|
            0 <= i < entries@.len() && (if (#[trigger] entries@[i]).0 is String {
                yaml_json(entries@[i].1) is None && json_fault(entries@[i].1, e)
            } else {
                e is InvalidKey
            }) && forall|j: int|
                0 <= j < i ==> (#[trigger] entries@[j]).0 is String && yaml_json(entries@[j].1) is Some,
        YamlValue::Alias(_) => e is BadValue,
        YamlValue::BadValue => e is BadValue,
        _ => false,
    }
}

/// Takes a YAML node as a JSON value; see [`yaml_json`].
pub fn yaml_to_json(yaml: &YamlValue) -> (r: Result<Json, YamlToJsonError>)
    ensures
        match r {
            Ok(j) => yaml_json(*yaml) == Some(j@),
            Err(e) => yaml_json(*yaml) is None && json_fault(*yaml, e),
        },
    decreases yaml,
{
    match yaml {
        YamlValue::Null => Ok(Json::Null),
        YamlValue::Boolean(b) => Ok(Json::Bool(*b)),
        YamlValue::Integer(i) => Ok(Json::Number(integer_number(*i))),
        YamlValue::Real(s) => match parse_number(s.as_str()) {
            Some(n) => Ok(Json::Number(n)),
            None => Err(YamlToJsonError::InvalidNumber(s.clone())),
        },
        YamlValue::String(s) => Ok(Json::String(s.clone())),
        YamlValue::Array(items) => {
            let mut out: Vec<Json> = Vec::new();
            let mut i: usize = 0;
            while i < items.len()
                invariant
                    i <= items@.len(),
                    *yaml == YamlValue::Array(*items),
                    out@.len() == i,
                    forall|j: int| 0 <= j < i ==> yaml_json(#[trigger] items@[j]) == Some(out@[j]@),
                decreases items@.len() - i,
            {
                assert(yaml->Array_0 == *items);
                match yaml_to_json(&items[i]) {
                    Ok(j) => {
                        out.push(j);
                    },
                    Err(e) => {
                        return Err(e);
                    },
                }
                i += 1;
            }
            proof {
                Json::lemma_array_view(out);
                assert(yaml_json(*yaml)->0->Array_0 =~= json_seq_view(out@));
            }
            Ok(Json::Array(out))
        },
        YamlValue::Hash(entries) => {
            let mut out: Vec<(String, Json)> = Vec::new();
            let mut i: usize = 0;
            while i < entries.len()
                invariant
                    i <= entries@.len(),
                    *yaml == YamlValue::Hash(*entries),
                    out@.len() == i,
                    forall|j: int|
                        0 <= j < i ==> (#[trigger] entries@[j]).0 is String && out@[j].0@
                            == entries@[j].0->String_0@ && yaml_json(entries@[j].1) == Some(out@[j].1@),
                decreases entries@.len() - i,
            {
                assert(yaml->Hash_0 == *entries);
                let key = match &entries[i].0 {
                    YamlValue::String(k) => k.clone(),
                    _ => {
                        return Err(YamlToJsonError::InvalidKey);
                    },
                };
                match yaml_to_json(&entries[i].1) {
                    Ok(j) => {
                        out.push((key, j));
                    },
                    Err(e) => {
                        return Err(e);
                    },
                }
                i += 1;
            }
            proof {
                Json::lemma_object_view(out);
                assert(yaml_json(*yaml)->0->Object_0 =~= json_members_view(out@));
            }
            Ok(Json::Object(out))
        },
        YamlValue::Alias(_) => Err(YamlToJsonError::BadValue),
        YamlValue::BadValue => Err(YamlToJsonError::BadValue),
    }
}

} // verus!
