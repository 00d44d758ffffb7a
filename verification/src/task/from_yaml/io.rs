//! Reading the environment, the sources, the outputs and the parameters of
//! a task.

use crate::json::{Json, JsonView};
use crate::strmap::StrMap;
use crate::task::from_yaml::{json_fault, yaml_json, yaml_to_json, YamlToJsonError};
use crate::task::invocation::{args_view, lemma_insert_args};
use crate::task::params::{ArgType, ArgTypeView, Param};
use crate::task::task::{same_but, OutputPath, Part, Task};
use crate::text::{ends_with, is_suffix, text_eq};
use crate::yaml::{entry, first_keys, has_entry, hash_get, keys_after, YamlValue};
use vstd::prelude::*;

verus! {

/// Why an environment could not be read.
#[derive(Debug)]
pub enum InvalidEnv {
    NotAHash,
    /// The key at this position is not a string.
    InvalidKey(usize),
    InvalidValue(YamlToJsonError),
}

/// The map that the entries of a hash stand for: each key with the JSON
/// value of its node, a later entry overriding an earlier one of the same
/// key. `None` where a key is not a string or a node has no JSON value.
pub open spec fn entries_map(entries: Seq<(YamlValue, YamlValue)>) -> Option<Map<Seq<char>, JsonView>>
    decreases entries.len(),
{
    if entries.len() == 0 {
        Some(Map::empty())
    } else {
        match entries_map(entries.drop_last()) {
            None => None,
            Some(before) => if entries.last().0 is String && yaml_json(entries.last().1) is Some {
                Some(before.insert(entries.last().0->String_0@, yaml_json(entries.last().1)->0))
            } else {
                None
            },
        }
    }
}

/// An entry that cannot be read makes the whole hash unreadable.
pub proof fn lemma_bad_entry(entries: Seq<(YamlValue, YamlValue)>, i: int)
    requires
        0 <= i < entries.len(),
        !(entries[i].0 is String) || yaml_json(entries[i].1) is None,
    ensures
        entries_map(entries) is None,
    decreases entries.len(),
{
    if i < entries.len() - 1 {
        lemma_bad_entry(entries.drop_last(), i);
    }
}

/// The entry at position `i` is the first that cannot be read: its key
/// is not a string, or its value has no JSON value.
pub open spec fn first_unreadable(entries: Seq<(YamlValue, YamlValue)>, i: int) -> bool {
    &&& 0 <= i < entries.len()
    &&& !(entries[i].0 is String) || yaml_json(entries[i].1) is None
    &&& forall|j: int| 0 <= j < i ==> (#[trigger] entries[j]).0 is String && yaml_json(entries[j].1) is Some
}

/// What is wrong with the entries of a hash, if `e` is the error of
/// reading them: the first entry that cannot be read has a key that is
/// not a string, or a value without a JSON value.
pub open spec fn entries_fault(entries: Seq<(YamlValue, YamlValue)>, e: EntriesFault) -> bool {
    match e {
        EntriesFault::Key(i) => first_unreadable(entries, i as int) && !(entries[i as int].0 is String),
        EntriesFault::Value(f) => exists|i: int| #[trigger]
            first_unreadable(entries, i) && entries[i].0 is String && json_fault(entries[i].1, f),
    }
}

/// What was wrong when a map of JSON values could not be read.
pub enum EntriesFault {
    /// The key at this position is not a string.
    Key(usize),
    /// A node has no JSON value.
    Value(YamlToJsonError),
}

/// Reads the entries of a hash as a map of JSON values.
pub fn parse_entries(entries: &Vec<(YamlValue, YamlValue)>) -> (r: Result<StrMap<Json>, EntriesFault>)
    ensures
        match r {
            Ok(out) => out.wf() && entries_map(entries@) == Some(args_view(out)) && out.keys()
                == first_keys(entries@),
            Err(e) => entries_map(entries@) is None && entries_fault(entries@, e),
        },
{
    let mut out: StrMap<Json> = StrMap::new();
    let mut i: usize = 0;
    proof {
        assert(entries@.take(0) =~= Seq::empty());
        assert(args_view(out) =~= Map::empty());
    }
    while i < entries.len()
        invariant
            i <= entries@.len(),
            out.wf(),
            entries_map(entries@.take(i as int)) == Some(args_view(out)),
            out.keys() == first_keys(entries@.take(i as int)),
            forall|j: int|
                0 <= j < i ==> (#[trigger] entries@[j]).0 is String && yaml_json(entries@[j].1) is Some,
        decreases entries@.len() - i,
    {
        let key = match &entries[i].0 {
            YamlValue::String(k) => k.clone(),
            _ => {
                proof {
                    lemma_bad_entry(entries@, i as int);
                }
                return Err(EntriesFault::Key(i));
            },
        };
        let value = match yaml_to_json(&entries[i].1) {
            Ok(v) => v,
            Err(e) => {
                proof {
                    lemma_bad_entry(entries@, i as int);
                    assert(first_unreadable(entries@, i as int));
                }
                return Err(EntriesFault::Value(e));
            },
        };
        let ghost before = out;
        let ghost key_view = key@;
        let ghost value_copy = value;
        let _ = out.insert(key, value);
        proof {
            lemma_insert_args(before, out, key_view, value_copy);
            assert(entries@.take(i + 1).drop_last() =~= entries@.take(i as int));
            assert(entries@.take(i + 1).last() == entries@[i as int]);
        }
        i += 1;
    }
    proof {
        assert(entries@.take(entries@.len() as int) =~= entries@);
    }
    Ok(out)
}

/// What is wrong with an environment, if `e` is the error of reading it.
pub open spec fn env_fault(value: YamlValue, e: InvalidEnv) -> bool {
    match e {
        InvalidEnv::NotAHash => !(value is Hash),
        InvalidEnv::InvalidKey(i) => value is Hash && entries_map(value->Hash_0@) is None
            && entries_fault(value->Hash_0@, EntriesFault::Key(i)),
        InvalidEnv::InvalidValue(f) => value is Hash && entries_map(value->Hash_0@) is None
            && entries_fault(value->Hash_0@, EntriesFault::Value(f)),
    }
}

/// Reads an environment: a hash of names with their values.
pub fn parse_env(value: &YamlValue) -> (r: Result<StrMap<Json>, InvalidEnv>)
    ensures
        match r {
            Ok(env) => env.wf() && value is Hash && entries_map(value->Hash_0@) == Some(args_view(env))
                && env.keys() == first_keys(value->Hash_0@),
            Err(e) => env_fault(*value, e),
        },
{
    match value.as_hash() {
        None => Err(InvalidEnv::NotAHash),
        Some(hash) => match parse_entries(hash) {
            Ok(env) => Ok(env),
            Err(EntriesFault::Key(i)) => Err(InvalidEnv::InvalidKey(i)),
            Err(EntriesFault::Value(e)) => Err(InvalidEnv::InvalidValue(e)),
        },
    }
}

/// Why the sources of a task could not be read.
#[derive(Debug)]
pub enum InvalidSources {
    NotAnArray,
    /// The source at this position is not a string.
    NotAString(usize),
}

/// `out` holds the texts of the items of an array of strings.
pub open spec fn strings_parsed(items: YamlValue, out: Seq<String>) -> bool {
    &&& items is Array
    &&& out.len() == items->Array_0@.len()
    &&& forall|i: int|
        0 <= i < out.len() ==> (#[trigger] items->Array_0@[i]) is String && items->Array_0@[i]->String_0@
            == out[i]@
}

/// The item at position `i` of an array is the first that is not a string.
pub open spec fn first_non_string(items: YamlValue, i: int) -> bool {
    &&& items is Array
    &&& 0 <= i < items->Array_0@.len()
    &&& !(items->Array_0@[i] is String)
    &&& forall|j: int| 0 <= j < i ==> (#[trigger] items->Array_0@[j]) is String
}

/// What is wrong with a list of texts, if it is not an array
/// (`position` is `None`) or the item at `position` is the first that is
/// not a string.
pub open spec fn strings_fault(items: YamlValue, position: Option<usize>) -> bool {
    match position {
        None => !(items is Array),
        Some(i) => first_non_string(items, i as int),
    }
}

/// What is wrong with the sources, if `e` is the error of reading them.
pub open spec fn sources_fault(sources: YamlValue, e: InvalidSources) -> bool {
    match e {
        InvalidSources::NotAnArray => strings_fault(sources, None),
        InvalidSources::NotAString(i) => strings_fault(sources, Some(i)),
    }
}

/// What is wrong with the outputs, if `e` is the error of reading them.
pub open spec fn outputs_fault(outputs: YamlValue, e: InvalidOutputs) -> bool {
    match e {
        InvalidOutputs::NotAnArray => strings_fault(outputs, None),
        InvalidOutputs::NotAString(i) => strings_fault(outputs, Some(i)),
    }
}

/// Reads an array of strings.
pub fn parse_strings(items: &YamlValue) -> (r: Result<Vec<String>, Option<usize>>)
    ensures
        match r {
            Ok(out) => strings_parsed(*items, out@),
            Err(None) => !(items is Array),
            Err(Some(i)) => first_non_string(*items, i as int),
        },
{
    match items.as_vec() {
        None => Err(None),
        Some(list) => {
            let mut out: Vec<String> = Vec::new();
            let mut i: usize = 0;
            while i < list.len()
                invariant
                    i <= list@.len(),
                    *items == YamlValue::Array(*list),
                    out@.len() == i,
                    forall|j: int|
                        0 <= j < i ==> (#[trigger] list@[j]) is String && list@[j]->String_0@ == out@[j]@,
                decreases list@.len() - i,
            {
                match list[i].as_str() {
                    Some(s) => {
                        out.push(s.to_owned());
                    },
                    None => {
                        return Err(Some(i));
                    },
                }
                i += 1;
            }
            Ok(out)
        },
    }
}

/// Reads the sources of a task and puts them in place of those it has.
pub fn parse_sources(task: &mut Task, sources: &YamlValue) -> (r: Result<(), InvalidSources>)
    ensures
        match r {
            Ok(()) => strings_parsed(*sources, final(task).body.sources@) && same_but(
                *old(task),
                *final(task),
                Part::Sources,
            ),
            Err(e) => sources_fault(*sources, e) && *final(task) == *old(task),
        },
{
    match parse_strings(sources) {
        Ok(list) => {
            task.body.sources = list;
            Ok(())
        },
        Err(None) => Err(InvalidSources::NotAnArray),
        Err(Some(i)) => Err(InvalidSources::NotAString(i)),
    }
}

/// Why the outputs of a task could not be read.
#[derive(Debug)]
pub enum InvalidOutputs {
    NotAnArray,
    /// The output at this position is not a string.
    NotAString(usize),
}

/// `out` holds the outputs that an array of strings declares: a string
/// that ends with a slash is a directory, any other a file.
pub open spec fn outputs_parsed(items: YamlValue, out: Seq<OutputPath>) -> bool {
    &&& items is Array
    &&& out.len() == items->Array_0@.len()
    &&& forall|i: int|
        0 <= i < out.len() ==> (#[trigger] items->Array_0@[i]) is String && out[i].path()
            == items->Array_0@[i]->String_0@ && out[i].is_directory() == is_suffix(
            seq!['/'],
            items->Array_0@[i]->String_0@,
        )
}

/// Reads the outputs of a task and puts them in place of those it has.
pub fn parse_outputs(task: &mut Task, outputs: &YamlValue) -> (r: Result<(), InvalidOutputs>)
    ensures
        match r {
            Ok(()) => outputs_parsed(*outputs, final(task).body.outputs.paths@) && same_but(
                *old(task),
                *final(task),
                Part::Outputs,
            ),
            Err(e) => outputs_fault(*outputs, e) && *final(task) == *old(task),
        },
{
    let list = match parse_strings(outputs) {
        Ok(list) => list,
        Err(None) => {
            return Err(InvalidOutputs::NotAnArray);
        },
        Err(Some(i)) => {
            return Err(InvalidOutputs::NotAString(i));
        },
    };
    let mut paths: Vec<OutputPath> = Vec::new();
    let mut i: usize = 0;
    proof {
        reveal_strlit("/");
        assert("/"@ =~= seq!['/']);
    }
    while i < list.len()
        invariant
            i <= list@.len(),
            "/"@ == seq!['/'],
            paths@.len() == i,
            forall|j: int|
                0 <= j < i ==> (#[trigger] paths@[j]).path() == list@[j]@ && paths@[j].is_directory()
                    == is_suffix(seq!['/'], list@[j]@),
        decreases list@.len() - i,
    {
        if ends_with(list[i].as_str(), "/") {
            paths.push(OutputPath::Directory(list[i].clone()));
        } else {
            paths.push(OutputPath::File(list[i].clone()));
        }
        i += 1;
    }
    task.body.outputs.paths = paths;
    Ok(())
}

/// Why the type of a parameter could not be read.
#[derive(Debug)]
pub enum ParamTypeError {
    /// The name is not that of a type.
    UnknownType(String),
    /// A list of options holds something that is not a string.
    OptionsNotStrings,
    /// The type is neither a name nor a list of options.
    UnsupportedType,
}

/// Why a parameter could not be read.
#[derive(Debug)]
pub enum InvalidParam {
    /// The declaration is a hash without `type`.
    MissingType,
    InvalidType(ParamTypeError),
    /// The default of a parameter of this type has no JSON value.
    DefaultValueConversion(YamlToJsonError),
    /// The declaration is neither a string nor a hash.
    UnsupportedDeclaration,
}

/// Why the parameters of a task could not be read.
#[derive(Debug)]
pub enum ParamParsingError {
    NotAHash,
    /// The key at this position is not a string.
    InvalidKey(usize),
    /// The parameter of this name could not be read.
    InvalidParameter(String, InvalidParam),
}

/// The type that a name stands for: `str` or `string`, `number`, `bool` or
/// `boolean`, `path`.
pub open spec fn named_type(name: Seq<char>) -> Option<ArgTypeView> {
    if name == "str"@ || name == "string"@ {
        Some(ArgTypeView::String)
    } else if name == "number"@ {
        Some(ArgTypeView::Number)
    } else if name == "bool"@ || name == "boolean"@ {
        Some(ArgTypeView::Boolean)
    } else if name == "path"@ {
        Some(ArgTypeView::Path)
    } else {
        None
    }
}

/// Reads the name of a type.
pub fn parse_param_type_str(t: &str) -> (r: Result<ArgType, ParamTypeError>)
    ensures
        match r {
            Ok(ty) => named_type(t@) == Some(ty@),
            Err(ParamTypeError::UnknownType(name)) => named_type(t@) is None && name@ == t@,
            Err(_) => false,
        },
{
    if text_eq(t, "str") || text_eq(t, "string") {
        Ok(ArgType::String)
    } else if text_eq(t, "number") {
        Ok(ArgType::Number)
    } else if text_eq(t, "bool") || text_eq(t, "boolean") {
        Ok(ArgType::Boolean)
    } else if text_eq(t, "path") {
        Ok(ArgType::Path)
    } else {
        Err(ParamTypeError::UnknownType(t.to_owned()))
    }
}

/// The type that a list of options stands for, if every option is a string.
pub open spec fn options_type(options: Seq<YamlValue>) -> Option<ArgTypeView> {
    if forall|i: int| 0 <= i < options.len() ==> (#[trigger] options[i]) is String {
        Some(ArgTypeView::Select(Seq::new(options.len(), |i: int| options[i]->String_0@)))
    } else {
        None
    }
}

/// Reads a list of options as the type of a parameter that takes one of them.
pub fn parse_param_type_select(options: &Vec<YamlValue>) -> (r: Result<ArgType, ParamTypeError>)
    ensures
        match r {
            Ok(ty) => options_type(options@) == Some(ty@),
            Err(ParamTypeError::OptionsNotStrings) => options_type(options@) is None,
            Err(_) => false,
        },
{
    let mut out: Vec<String> = Vec::new();
    let mut i: usize = 0;
    while i < options.len()
        invariant
            i <= options@.len(),
            out@.len() == i,
            forall|j: int|
                0 <= j < i ==> (#[trigger] options@[j]) is String && options@[j]->String_0@ == out@[j]@,
        decreases options@.len() - i,
    {
        match &options[i] {
            YamlValue::String(opt) => {
                out.push(opt.clone());
            },
            _ => {
                assert(!(options@[i as int] is String));
                return Err(ParamTypeError::OptionsNotStrings);
            },
        }
        i += 1;
    }
    let ty = ArgType::Select(out);
    proof {
        assert(ty@->Select_0 =~= Seq::new(options@.len(), |i: int| options@[i]->String_0@));
    }
    Ok(ty)
}

/// The type that a node declares: a type by its name, or by the list of
/// its options.
pub open spec fn declared_type(t: YamlValue) -> Option<ArgTypeView> {
    match t {
        YamlValue::String(name) => named_type(name@),
        YamlValue::Array(options) => options_type(options@),
        _ => None,
    }
}

/// Reads the type of a parameter: a name, or a list of options.
pub fn parse_param_type(t: &YamlValue) -> (r: Result<ArgType, ParamTypeError>)
    ensures
        match r {
            Ok(ty) => declared_type(*t) == Some(ty@),
            Err(ParamTypeError::UnknownType(name)) => t matches YamlValue::String(s) && named_type(s@)
                is None && name@ == s@,
            Err(ParamTypeError::OptionsNotStrings) => t matches YamlValue::Array(options)
                && options_type(options@) is None,
            Err(ParamTypeError::UnsupportedType) => !(t is String) && !(t is Array),
        },
{
    match t {
        YamlValue::String(name) => parse_param_type_str(name.as_str()),
        YamlValue::Array(options) => parse_param_type_select(options),
        _ => Err(ParamTypeError::UnsupportedType),
    }
}

/// The mathematical value of a parameter: its type and its default.
pub type ParamView = (ArgTypeView, Option<JsonView>);

/// The value of a parameter.
pub open spec fn param_view(param: Param) -> ParamView {
    (
        param.ty@,
        match param.default {
            Some(j) => Some(j@),
            None => None,
        },
    )
}

/// The parameter that a node declares: a type by its name, or a hash with
/// `type` and, where the parameter has one, `default`.
pub open spec fn declared_param(value: YamlValue) -> Option<ParamView> {
    match value {
        YamlValue::String(name) => match named_type(name@) {
            Some(ty) => Some((ty, None)),
            None => None,
        },
        YamlValue::Hash(h) => if has_entry(h@, "type"@) {
            match declared_type(entry(h@, "type"@)) {
                None => None,
                Some(ty) => if has_entry(h@, "default"@) {
                    match yaml_json(entry(h@, "default"@)) {
                        Some(j) => Some((ty, Some(j))),
                        None => None,
                    }
                } else {
                    Some((ty, None))
                },
            }
        } else {
            None
        },
        _ => None,
    }
}

/// What is wrong with the declaration of a parameter, if `e` is the error
/// of reading it.
pub open spec fn param_fault(value: YamlValue, e: InvalidParam) -> bool {
    match e {
        InvalidParam::MissingType => value matches YamlValue::Hash(h) && !has_entry(h@, "type"@),
        InvalidParam::InvalidType(_) => match value {
            YamlValue::String(name) => named_type(name@) is None,
            YamlValue::Hash(h) => has_entry(h@, "type"@) && declared_type(entry(h@, "type"@)) is None,
            _ => false,
        },
        InvalidParam::DefaultValueConversion(f) => value matches YamlValue::Hash(h) && has_entry(
            h@,
            "type"@,
        ) && declared_type(entry(h@, "type"@)) is Some && has_entry(h@, "default"@) && yaml_json(
            entry(h@, "default"@),
        ) is None && json_fault(entry(h@, "default"@), f),
        InvalidParam::UnsupportedDeclaration => !(value is String) && !(value is Hash),
    }
}

/// Reads the declaration of a parameter.
pub fn parse_param(value: &YamlValue) -> (r: Result<Param, InvalidParam>)
    ensures
        match r {
            Ok(param) => declared_param(*value) == Some(param_view(param)),
            Err(e) => declared_param(*value) is None && param_fault(*value, e),
        },
{
    match value {
        YamlValue::String(t) => match parse_param_type_str(t.as_str()) {
            Ok(ty) => Ok(Param { ty, default: None }),
            Err(e) => Err(InvalidParam::InvalidType(e)),
        },
        YamlValue::Hash(hash) => {
            let ty = match hash_get(hash, "type") {
                Some(t) => match parse_param_type(t) {
                    Ok(ty) => ty,
                    Err(e) => {
                        return Err(InvalidParam::InvalidType(e));
                    },
                },
                None => {
                    return Err(InvalidParam::MissingType);
                },
            };
            let default = match hash_get(hash, "default") {
                Some(v) => match yaml_to_json(v) {
                    Ok(j) => Some(j),
                    Err(e) => {
                        return Err(InvalidParam::DefaultValueConversion(e));
                    },
                },
                None => None,
            };
            Ok(Param { ty, default })
        },
        _ => Err(InvalidParam::UnsupportedDeclaration),
    }
}

/// The parameters of a map, each name with the value of its parameter.
pub open spec fn params_view(params: StrMap<Param>) -> Map<Seq<char>, ParamView> {
    Map::new(|k: Seq<char>| params.has(k), |k: Seq<char>| param_view(params.at(k)))
}

/// The parameters that are there after the entries of a hash have been added
/// to `before`: each key with the parameter of its node, a later entry
/// overriding an earlier one of the same key. `None` where a key is not a
/// string or a node declares no parameter.
pub open spec fn params_map(before: Map<Seq<char>, ParamView>, entries: Seq<(YamlValue, YamlValue)>) -> Option<
    Map<Seq<char>, ParamView>,
>
    decreases entries.len(),
{
    if entries.len() == 0 {
        Some(before)
    } else {
        match params_map(before, entries.drop_last()) {
            None => None,
            Some(mid) => if entries.last().0 is String && declared_param(entries.last().1) is Some {
                Some(mid.insert(entries.last().0->String_0@, declared_param(entries.last().1)->0))
            } else {
                None
            },
        }
    }
}

/// An entry that cannot be read makes the whole hash unreadable.
pub proof fn lemma_bad_param(before: Map<Seq<char>, ParamView>, entries: Seq<(YamlValue, YamlValue)>, i: int)
    requires
        0 <= i < entries.len(),
        !(entries[i].0 is String) || declared_param(entries[i].1) is None,
    ensures
        params_map(before, entries) is None,
    decreases entries.len(),
{
    if i < entries.len() - 1 {
        lemma_bad_param(before, entries.drop_last(), i);
    }
}

/// The entry at position `i` is the first that cannot be read: its key
/// is not a string, or its node declares no parameter.
pub open spec fn first_bad_param(entries: Seq<(YamlValue, YamlValue)>, i: int) -> bool {
    &&& 0 <= i < entries.len()
    &&& !(entries[i].0 is String) || declared_param(entries[i].1) is None
    &&& forall|j: int|
        0 <= j < i ==> (#[trigger] entries[j]).0 is String && declared_param(entries[j].1) is Some
}

/// What is wrong with the parameters, if `e` is the error of reading them:
/// they are not a hash, or `e` tells what is wrong with the first entry that
/// cannot be read.
pub open spec fn params_fault(args: YamlValue, e: ParamParsingError) -> bool {
    match e {
        ParamParsingError::NotAHash => !(args is Hash),
        ParamParsingError::InvalidKey(i) => args is Hash && first_bad_param(args->Hash_0@, i as int)
            && !(args->Hash_0@[i as int].0 is String),
        ParamParsingError::InvalidParameter(name, f) => args is Hash && exists|i: int| #[trigger]
            first_bad_param(args->Hash_0@, i) && args->Hash_0@[i].0 is String
                && args->Hash_0@[i].0->String_0@ == name@ && param_fault(args->Hash_0@[i].1, f),
    }
}

/// Reads the parameters of a task and adds them to those it has.
pub fn parse_params(task: &mut Task, args: &YamlValue) -> (r: Result<(), ParamParsingError>)
    requires
        old(task).params.0.wf(),
    ensures
        final(task).params.0.wf(),
        same_but(*old(task), *final(task), Part::Params),
        match r {
            Ok(()) => args is Hash && params_map(params_view(old(task).params.0), args->Hash_0@) == Some(
                params_view(final(task).params.0),
            ) && final(task).params.0.keys() == keys_after(old(task).params.0.keys(), args->Hash_0@),
            Err(e) => params_fault(*args, e) && (args is Hash ==> params_map(
                params_view(old(task).params.0),
                args->Hash_0@,
            ) is None),
        },
{
    let entries = match args.as_hash() {
        Some(h) => h,
        None => {
            return Err(ParamParsingError::NotAHash);
        },
    };
    let ghost before = params_view(task.params.0);
    let mut i: usize = 0;
    proof {
        assert(entries@.take(0) =~= Seq::empty());
    }
    while i < entries.len()
        invariant
            i <= entries@.len(),
            *args == YamlValue::Hash(*entries),
            before == params_view(old(task).params.0),
            task.params.0.wf(),
            task.name == old(task).name,
            task.description == old(task).description,
            task.body == old(task).body,
            params_map(before, entries@.take(i as int)) == Some(params_view(task.params.0)),
            task.params.0.keys() == keys_after(old(task).params.0.keys(), entries@.take(i as int)),
            forall|j: int|
                0 <= j < i ==> (#[trigger] entries@[j]).0 is String && declared_param(entries@[j].1)
                    is Some,
        decreases entries@.len() - i,
    {
        let key = match entries[i].0.as_str() {
            Some(k) => k.to_owned(),
            None => {
                proof {
                    lemma_bad_param(before, entries@, i as int);
                }
                return Err(ParamParsingError::InvalidKey(i));
            },
        };
        let param = match parse_param(&entries[i].1) {
            Ok(p) => p,
            Err(e) => {
                proof {
                    lemma_bad_param(before, entries@, i as int);
                    assert(first_bad_param(entries@, i as int));
                }
                return Err(ParamParsingError::InvalidParameter(key, e));
            },
        };
        let ghost mid = task.params.0;
        let ghost key_view = key@;
        let ghost the_param = param;
        let _ = task.params.0.insert(key, param);
        proof {
            assert(entries@.take(i + 1).drop_last() =~= entries@.take(i as int));
            assert(entries@.take(i + 1).last() == entries@[i as int]);
            assert(params_view(task.params.0) =~= params_view(mid).insert(
                key_view,
                param_view(the_param),
            ));
        }
        i += 1;
    }
    proof {
        assert(entries@.take(entries@.len() as int) =~= entries@);
    }
    Ok(())
}

} // verus!
