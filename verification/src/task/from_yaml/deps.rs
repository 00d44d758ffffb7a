//! Reading the dependencies of a task.

use crate::json::JsonView;
use crate::strmap::StrMap;
use crate::task::from_yaml::io::{
    entries_fault, entries_map, first_non_string, parse_entries, parse_strings, EntriesFault,
};
use crate::task::from_yaml::YamlToJsonError;
use crate::task::invocation::{args_view, TaskInvocation};
use crate::task::params::texts_view;
use crate::task::task::{deps_wf, label_view, same_but, Dep, Part, Task};
use crate::task::task_ref::{parsed_ref, TaskRef, TaskRefView};
use crate::yaml::{entry, has_entry, hash_get, YamlValue};
use vstd::prelude::*;

verus! {

/// Why the dependencies of a task could not be read.
#[derive(Debug)]
pub enum DepParsingError {
    /// The dependencies are not an array.
    NotAnArray,
    /// The dependency at this position is neither a string nor a hash.
    InvalidDependency(usize),
    /// The dependency at this position is a hash without `task`.
    MissingTask(usize),
    /// The `task` of the dependency at this position is not a string.
    TaskNotAString(usize),
    /// The `with` of a dependency is not a hash.
    ArgumentsNotAHash,
    /// A key of the arguments, or an item of `after`, is not a string; it
    /// stands at this position.
    InvalidArgumentKey(usize),
    /// An argument has no JSON value.
    ArgumentConversionError(YamlToJsonError),
    /// The `id` of the dependency at this position is not a string.
    IdNotAString(usize),
    /// The `after` of the dependency at this position is neither a string
    /// nor an array.
    AfterNotStrings(usize),
}

/// The mathematical value of a dependency: the reference, the arguments,
/// the label, and the labels that have to come first.
pub type DepView = (TaskRefView, Map<Seq<char>, JsonView>, Option<Seq<char>>, Seq<Seq<char>>);

/// The value of a dependency.
pub open spec fn dep_view(dep: Dep) -> DepView {
    (
        dep.invocation.reference@,
        args_view(dep.invocation.args),
        label_view(dep.id),
        texts_view(dep.after@),
    )
}

/// The arguments that the `with` of a dependency declares, none where
/// there is no `with`.
pub open spec fn declared_args(h: Seq<(YamlValue, YamlValue)>) -> Option<Map<Seq<char>, JsonView>> {
    if has_entry(h, "with"@) {
        match entry(h, "with"@) {
            YamlValue::Hash(a) => entries_map(a@),
            _ => None,
        }
    } else {
        Some(Map::empty())
    }
}

/// The label that the `id` of a dependency declares.
pub open spec fn declared_id(h: Seq<(YamlValue, YamlValue)>) -> Option<Option<Seq<char>>> {
    if has_entry(h, "id"@) {
        match entry(h, "id"@) {
            YamlValue::String(s) => Some(Some(s@)),
            _ => None,
        }
    } else {
        Some(None)
    }
}

/// The texts of an array of strings.
pub open spec fn array_texts(items: Seq<YamlValue>) -> Option<Seq<Seq<char>>> {
    if forall|i: int| 0 <= i < items.len() ==> (#[trigger] items[i]) is String {
        Some(Seq::new(items.len(), |i: int| items[i]->String_0@))
    } else {
        None
    }
}

/// The labels that the `after` of a dependency declares: one for a
/// string, one for each item of an array of strings.
pub open spec fn declared_after(h: Seq<(YamlValue, YamlValue)>) -> Option<Seq<Seq<char>>> {
    if has_entry(h, "after"@) {
        match entry(h, "after"@) {
            YamlValue::String(s) => Some(seq![s@]),
            YamlValue::Array(items) => array_texts(items@),
            _ => None,
        }
    } else {
        Some(Seq::empty())
    }
}

/// The dependency that a node declares. A string is a reference without
/// arguments, and its own label. A hash gives the reference under `task`,
/// the arguments under `with`, the label under `id`, and under `after` the
/// labels that have to come first.
pub open spec fn declared_dep(node: YamlValue) -> Option<DepView> {
    match node {
        YamlValue::String(name) => Some((parsed_ref(name@), Map::empty(), Some(name@), Seq::empty())),
        YamlValue::Hash(h) => if has_entry(h@, "task"@) && entry(h@, "task"@) is String
            && declared_args(h@) is Some && declared_id(h@) is Some && declared_after(h@) is Some {
            Some(
                (
                    parsed_ref(entry(h@, "task"@)->String_0@),
                    declared_args(h@)->0,
                    declared_id(h@)->0,
                    declared_after(h@)->0,
                ),
            )
        } else {
            None
        },
        _ => None,
    }
}

/// What is wrong with the `with` of a dependency, if `e` is the error of
/// reading it.
pub open spec fn args_fault(h: Seq<(YamlValue, YamlValue)>, e: DepParsingError) -> bool {
    match entry(h, "with"@) {
        YamlValue::Hash(a) => match e {
            DepParsingError::InvalidArgumentKey(i) => entries_fault(a@, EntriesFault::Key(i)),
            DepParsingError::ArgumentConversionError(f) => entries_fault(a@, EntriesFault::Value(f)),
            _ => false,
        },
        _ => e is ArgumentsNotAHash,
    }
}

/// What is wrong with the `after` of a dependency at position `index`, if
/// `e` is the error of reading it.
pub open spec fn after_fault(h: Seq<(YamlValue, YamlValue)>, index: usize, e: DepParsingError) -> bool {
    match entry(h, "after"@) {
        YamlValue::Array(_) => e matches DepParsingError::InvalidArgumentKey(i) && first_non_string(
            entry(h, "after"@),
            i as int,
        ),
        _ => e matches DepParsingError::AfterNotStrings(i) && i == index,
    }
}

/// What is wrong with the node of a dependency at position `index`, if
/// `e` is the error of reading it. The keys of a hash are read in the
/// order `task`, `with`, `id`, `after`, and the first that cannot be read
/// gives the error.
pub open spec fn dep_fault(node: YamlValue, index: usize, e: DepParsingError) -> bool {
    match node {
        YamlValue::String(_) => false,
        YamlValue::Hash(h) => if !has_entry(h@, "task"@) {
            e matches DepParsingError::MissingTask(i) && i == index
        } else if !(entry(h@, "task"@) is String) {
            e matches DepParsingError::TaskNotAString(i) && i == index
        } else if declared_args(h@) is None {
            args_fault(h@, e)
        } else if declared_id(h@) is None {
            e matches DepParsingError::IdNotAString(i) && i == index
        } else if declared_after(h@) is None {
            after_fault(h@, index, e)
        } else {
            false
        },
        _ => e matches DepParsingError::InvalidDependency(i) && i == index,
    }
}

/// Reads one dependency, which stands at position `index`.
pub fn parse_dep(node: &YamlValue, index: usize) -> (r: Result<Dep, DepParsingError>)
    ensures
        match r {
            Ok(dep) => declared_dep(*node) == Some(dep_view(dep)) && dep.wf(),
            Err(e) => declared_dep(*node) is None && dep_fault(*node, index, e),
        },
{
    match node {
        YamlValue::String(name) => {
            let dep = Dep {
                invocation: TaskInvocation::no_args(TaskRef::parse(name.as_str())),
                id: Some(name.clone()),
                after: Vec::new(),
            };
            proof {
                assert(args_view(dep.invocation.args) =~= Map::empty());
                assert(texts_view(dep.after@) =~= Seq::empty());
            }
            Ok(dep)
        },
        YamlValue::Hash(hash) => {
            let reference = match hash_get(hash, "task") {
                Some(YamlValue::String(t)) => TaskRef::parse(t.as_str()),
                Some(_) => {
                    return Err(DepParsingError::TaskNotAString(index));
                },
                None => {
                    return Err(DepParsingError::MissingTask(index));
                },
            };
            let args = match hash_get(hash, "with") {
                Some(YamlValue::Hash(entries)) => match parse_entries(entries) {
                    Ok(a) => a,
                    Err(EntriesFault::Key(i)) => {
                        return Err(DepParsingError::InvalidArgumentKey(i));
                    },
                    Err(EntriesFault::Value(e)) => {
                        return Err(DepParsingError::ArgumentConversionError(e));
                    },
                },
                Some(_) => {
                    return Err(DepParsingError::ArgumentsNotAHash);
                },
                None => {
                    let none: StrMap<crate::json::Json> = StrMap::new();
                    assert(args_view(none) =~= Map::empty());
                    none
                },
            };
            let id = match hash_get(hash, "id") {
                Some(YamlValue::String(s)) => Some(s.clone()),
                Some(_) => {
                    return Err(DepParsingError::IdNotAString(index));
                },
                None => None,
            };
            let after = match hash_get(hash, "after") {
                Some(node) => match node {
                    YamlValue::String(s) => {
                        let mut one: Vec<String> = Vec::new();
                        one.push(s.clone());
                        assert(texts_view(one@) =~= seq![s@]);
                        one
                    },
                    YamlValue::Array(items) => match parse_strings(node) {
                        Ok(texts) => {
                            proof {
                                assert(array_texts(items@) is Some);
                                assert(texts_view(texts@) =~= array_texts(items@)->0);
                            }
                            texts
                        },
                        Err(Some(i)) => {
                            assert(!(items@[i as int] is String));
                            return Err(DepParsingError::InvalidArgumentKey(i));
                        },
                        Err(None) => {
                            return Err(DepParsingError::AfterNotStrings(index));
                        },
                    },
                    _ => {
                        return Err(DepParsingError::AfterNotStrings(index));
                    },
                },
                None => {
                    let none: Vec<String> = Vec::new();
                    assert(texts_view(none@) =~= Seq::empty());
                    none
                },
            };
            Ok(Dep { invocation: TaskInvocation { reference, args }, id, after })
        },
        _ => Err(DepParsingError::InvalidDependency(index)),
    }
}

/// `out` holds the dependencies that the items of an array declare.
pub open spec fn deps_declared(deps: YamlValue, out: Seq<Dep>) -> bool {
    &&& deps is Array
    &&& out.len() == deps->Array_0@.len()
    &&& forall|i: int|
        0 <= i < out.len() ==> declared_dep(#[trigger] deps->Array_0@[i]) == Some(dep_view(out[i]))
}

/// What is wrong with the dependencies, if `e` is the error of reading
/// them: they are not an array, or `e` tells what is wrong with the first
/// of them that declares no dependency.
pub open spec fn deps_fault(deps: YamlValue, e: DepParsingError) -> bool {
    match deps {
        YamlValue::Array(items) => exists|i: usize|
            i < items@.len() && #[trigger] dep_fault(items@[i as int], i, e) && forall|j: int|
                0 <= j < i ==> declared_dep(#[trigger] items@[j]) is Some,
        _ => e is NotAnArray,
    }
}

/// The dependencies cannot be read: they are not an array, or one of
/// them declares no dependency.
pub open spec fn deps_unreadable(deps: YamlValue) -> bool {
    !(deps is Array) || exists|i: int|
        0 <= i < deps->Array_0@.len() && declared_dep(#[trigger] deps->Array_0@[i]) is None
}

/// Reads the dependencies of a task and adds them to those it has.
pub fn parse_deps(task: &mut Task, deps: &YamlValue) -> (r: Result<(), DepParsingError>)
    requires
        deps_wf(old(task).body.deps.0@),
    ensures
        deps_wf(final(task).body.deps.0@),
        same_but(*old(task), *final(task), Part::Deps),
        match r {
            Ok(()) => final(task).body.deps.0@.len() >= old(task).body.deps.0@.len()
                && final(task).body.deps.0@.subrange(0, old(task).body.deps.0@.len() as int) == old(
                task,
            ).body.deps.0@ && deps_declared(
                *deps,
                final(task).body.deps.0@.subrange(
                    old(task).body.deps.0@.len() as int,
                    final(task).body.deps.0@.len() as int,
                ),
            ),
            Err(e) => deps_unreadable(*deps) && deps_fault(*deps, e) && final(task).body.deps == old(
                task,
            ).body.deps,
        },
{
    let items = match deps.as_vec() {
        Some(a) => a,
        None => {
            return Err(DepParsingError::NotAnArray);
        },
    };
    let mut parsed: Vec<Dep> = Vec::new();
    let mut i: usize = 0;
    while i < items.len()
        invariant
            i <= items@.len(),
            *deps == YamlValue::Array(*items),
            *task == *old(task),
            deps_wf(task.body.deps.0@),
            parsed@.len() == i,
            deps_wf(parsed@),
            forall|j: int| 0 <= j < i ==> declared_dep(#[trigger] items@[j]) == Some(dep_view(parsed@[j])),
        decreases items@.len() - i,
    {
        match parse_dep(&items[i], i) {
            Ok(dep) => {
                parsed.push(dep);
            },
            Err(e) => {
                assert(declared_dep(items@[i as int]) is None);
                assert(dep_fault(items@[i as int], i, e));
                return Err(e);
            },
        }
        i += 1;
    }
    let ghost before = task.body.deps.0@;
    let ghost added = parsed@;
    task.body.deps.0.append(&mut parsed);
    proof {
        let all = task.body.deps.0@;
        assert(all =~= before + added);
        assert(all.subrange(0, before.len() as int) =~= before);
        assert(all.subrange(before.len() as int, all.len() as int) =~= added);
        assert forall|j: int| 0 <= j < all.len() implies (#[trigger] all[j]).wf() by {
            if j < before.len() {
                assert(all[j] == before[j]);
            } else {
                assert(all[j] == added[j - before.len()]);
            }
        }
    }
    Ok(())
}

} // verus!
