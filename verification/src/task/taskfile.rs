//! A taskfile: tasks, environment and imports of one catalog.

use crate::json::Json;
use crate::paths::{join, joined_path};
use crate::strmap::StrMap;
use crate::task::from_yaml::io::{entries_map, env_fault, parse_env, InvalidEnv};
use crate::task::from_yaml::{
    is_first_fault, parse_task, task_declared, task_readable, InvalidTaskObject,
};
use crate::task::invocation::args_view;
use crate::task::task::Task;
use crate::task::task_ref::TaskfileId;
use crate::yaml::{
    entry, first_keys, has_entry, hash_get, load_documents, yaml_documents, YamlValue,
};
use vstd::prelude::*;

verus! {

/// What an import alias is bound to.
#[derive(Debug)]
pub enum TaskfileImportRef {
    /// A path as the taskfile gives it, not yet looked up.
    Unresolved(String),
    /// The id of the imported taskfile.
    Resolved(TaskfileId),
}

impl TaskfileImportRef {
    pub fn duplicate(&self) -> (r: Self)
        ensures
            match *self {
                TaskfileImportRef::Unresolved(p) => r is Unresolved && r->Unresolved_0@ == p@,
                TaskfileImportRef::Resolved(id) => r is Resolved && r->Resolved_0@ == id@,
            },
    {
        match self {
            TaskfileImportRef::Unresolved(p) => TaskfileImportRef::Unresolved(p.clone()),
            TaskfileImportRef::Resolved(id) => TaskfileImportRef::Resolved(id.duplicate()),
        }
    }
}

/// One catalog of tasks.
#[derive(Debug)]
pub struct Taskfile {
    pub id: TaskfileId,
    /// The directory that the taskfile stands in.
    pub dir: String,
    pub env: StrMap<Json>,
    /// The imported taskfiles, by alias.
    pub imports: StrMap<TaskfileImportRef>,
    /// The tasks, by name, in the order of their definition.
    pub tasks: StrMap<Task>,
}

impl Taskfile {
    /// The maps are maps, and every task is well formed.
    pub open spec fn wf(&self) -> bool {
        &&& self.env.wf()
        &&& self.imports.wf()
        &&& self.tasks.wf()
        &&& forall|i: int| 0 <= i < self.tasks.values().len() ==> (#[trigger] self.tasks.values()[i]).wf()
    }

    /// Every import is bound to the id of a taskfile.
    pub open spec fn imports_resolved(&self) -> bool {
        forall|i: int|
            0 <= i < self.imports.values().len() ==> (#[trigger] self.imports.values()[i]) is Resolved
    }

    /// A task that the taskfile holds is well formed.
    pub proof fn lemma_task_wf(&self, name: Seq<char>)
        requires
            self.wf(),
            self.tasks.has(name),
        ensures
            self.tasks.at(name).wf(),
    {
        let i = self.tasks.position_of(name);
        self.tasks.lemma_at_position(i);
    }
}

/// Why a taskfile could not be read.
#[derive(Debug)]
pub enum YamlLoadError {
    /// The text is not YAML; this is what the scanner says.
    YamlParseError(String),
    /// The text holds no document.
    NoDocument,
    /// The document is not a hash.
    InvalidTaskfileType,
    InvalidEnv(InvalidEnv),
    /// The imports are not a hash of strings.
    InvalidImports,
    /// The tasks are not a hash with strings as keys.
    InvalidTasks,
    /// The task of this name could not be read.
    InvalidTask(String, InvalidTaskObject),
    /// The executable at this path has no parent directory.
    NoParentDirectory(String),
    /// The executable at this path could not be run.
    ExecutableRunError(String, String),
    /// The executable at this path did not print text.
    ExecutableOutputNotUtf8(String),
}

/// The entry at position `i` is the last of its key, which is a string.
pub open spec fn is_last_entry(entries: Seq<(YamlValue, YamlValue)>, i: int) -> bool {
    &&& 0 <= i < entries.len()
    &&& entries[i].0 is String
    &&& forall|j: int|
        i < j < entries.len() ==> !crate::yaml::is_key((#[trigger] entries[j]).0, entries[i].0->String_0@)
}

/// Whether a node is a hash of aliases and paths.
pub open spec fn imports_readable(imports: YamlValue) -> bool {
    imports is Hash && forall|i: int|
        0 <= i < imports->Hash_0@.len() ==> (#[trigger] imports->Hash_0@[i]).0 is String
            && imports->Hash_0@[i].1 is String
}

/// Whether an entry is a name with a task that can be read.
pub open spec fn is_task_entry(e: (YamlValue, YamlValue)) -> bool {
    e.0 is String && e.1 is Hash && task_readable(e.1->Hash_0@)
}

/// The entry at position `i` is the first that is no name with a task
/// that can be read.
pub open spec fn first_bad_task(entries: Seq<(YamlValue, YamlValue)>, i: int) -> bool {
    &&& 0 <= i < entries.len()
    &&& !is_task_entry(entries[i])
    &&& forall|j: int| 0 <= j < i ==> is_task_entry(#[trigger] entries[j])
}

/// What is wrong with the tasks of a taskfile, if `e` is the error of
/// reading them: `e` is about the first entry that is no name with a task
/// that can be read.
pub open spec fn tasks_fault(entries: Seq<(YamlValue, YamlValue)>, e: YamlLoadError) -> bool {
    match e {
        YamlLoadError::InvalidTasks => exists|i: int| #[trigger]
            first_bad_task(entries, i) && !(entries[i].0 is String),
        YamlLoadError::InvalidTask(name, f) => exists|i: int| #[trigger]
            first_bad_task(entries, i) && entries[i].0 is String && entries[i].0->String_0@ == name@
                && if entries[i].1 is Hash {
                is_first_fault(entries[i].1->Hash_0@, f)
            } else {
                f is InvalidTaskType
            },
        _ => false,
    }
}

/// What is wrong with the hash of a taskfile, if `e` is the error of
/// reading it. The keys are read in the order `env`, `imports`, `tasks`,
/// and the first that cannot be read gives the error.
pub open spec fn taskfile_fault(h: Seq<(YamlValue, YamlValue)>, e: YamlLoadError) -> bool {
    let env_read = has_entry(h, "env"@) ==> entry(h, "env"@) is Hash && entries_map(
        entry(h, "env"@)->Hash_0@,
    ) is Some;
    let imports_read = has_entry(h, "imports"@) ==> imports_readable(entry(h, "imports"@));
    match e {
        YamlLoadError::InvalidEnv(f) => has_entry(h, "env"@) && env_fault(entry(h, "env"@), f),
        YamlLoadError::InvalidImports => env_read && has_entry(h, "imports"@) && !imports_readable(
            entry(h, "imports"@),
        ),
        YamlLoadError::InvalidTasks => env_read && imports_read && has_entry(h, "tasks"@) && (!(entry(
            h,
            "tasks"@,
        ) is Hash) || tasks_fault(entry(h, "tasks"@)->Hash_0@, e)),
        YamlLoadError::InvalidTask(_, _) => env_read && imports_read && has_entry(h, "tasks"@)
            && entry(h, "tasks"@) is Hash && tasks_fault(entry(h, "tasks"@)->Hash_0@, e),
        _ => false,
    }
}

/// `imports` holds what a hash of aliases and paths declares: under each
/// alias the path, taken from `dir`, not yet looked up.
pub open spec fn imports_declared(
    dir: Seq<char>,
    entries: Seq<(YamlValue, YamlValue)>,
    imports: StrMap<TaskfileImportRef>,
) -> bool {
    &&& imports.wf()
    &&& imports.keys() == first_keys(entries)
    &&& forall|k: Seq<char>|
        imports.has(k) <==> exists|i: int|
            0 <= i < entries.len() && crate::yaml::is_key((#[trigger] entries[i]).0, k)
    &&& forall|i: int|
        0 <= i < entries.len() ==> (#[trigger] entries[i]).0 is String && entries[i].1 is String
    &&& forall|i: int|
        is_last_entry(entries, i) ==> ((#[trigger] imports.at(entries[i].0->String_0@))
            matches TaskfileImportRef::Unresolved(p) && p@ == joined_path(dir, entries[i].1->String_0@))
}

/// `tasks` holds what a hash of names and tasks declares.
pub open spec fn tasks_declared(
    dir: Seq<char>,
    entries: Seq<(YamlValue, YamlValue)>,
    tasks: StrMap<Task>,
) -> bool {
    &&& tasks.wf()
    &&& tasks.keys() == first_keys(entries)
    &&& forall|k: Seq<char>|
        tasks.has(k) <==> exists|i: int|
            0 <= i < entries.len() && crate::yaml::is_key((#[trigger] entries[i]).0, k)
    &&& forall|i: int| 0 <= i < entries.len() ==> (#[trigger] entries[i]).0 is String && entries[i].1 is Hash
    &&& forall|i: int|
        is_last_entry(entries, i) ==> task_declared(
            dir,
            entries[i].0->String_0@,
            entries[i].1->Hash_0@,
            #[trigger] tasks.at(entries[i].0->String_0@),
        )
}

/// `taskfile` is what the hash `h` declares: the environment under `env`,
/// the imports under `imports`, the tasks under `tasks`.
pub open spec fn taskfile_declared(
    path: Seq<char>,
    dir: Seq<char>,
    h: Seq<(YamlValue, YamlValue)>,
    taskfile: Taskfile,
) -> bool {
    &&& taskfile.wf()
    &&& taskfile.id@ == path
    &&& taskfile.dir@ == dir
    &&& if has_entry(h, "env"@) {
        entry(h, "env"@) is Hash && entries_map(entry(h, "env"@)->Hash_0@) == Some(
            args_view(taskfile.env),
        ) && taskfile.env.keys() == first_keys(entry(h, "env"@)->Hash_0@)
    } else {
        taskfile.env.keys() =~= Seq::empty()
    }
    &&& if has_entry(h, "imports"@) {
        entry(h, "imports"@) is Hash && imports_declared(
            dir,
            entry(h, "imports"@)->Hash_0@,
            taskfile.imports,
        )
    } else {
        taskfile.imports.keys() =~= Seq::empty()
    }
    &&& if has_entry(h, "tasks"@) {
        entry(h, "tasks"@) is Hash && tasks_declared(dir, entry(h, "tasks"@)->Hash_0@, taskfile.tasks)
    } else {
        taskfile.tasks.keys() =~= Seq::empty()
    }
}

/// Reads the imports of a taskfile.
pub fn parse_imports(dir: &str, entries: &Vec<(YamlValue, YamlValue)>) -> (r: Option<
    StrMap<TaskfileImportRef>,
>)
    ensures
        match r {
            Some(imports) => imports_declared(dir@, entries@, imports),
            None => exists|i: int|
                0 <= i < entries@.len() && !((#[trigger] entries@[i]).0 is String && entries@[i].1
                    is String),
        },
{
    let mut out: StrMap<TaskfileImportRef> = StrMap::new();
    let mut i: usize = 0;
    while i < entries.len()
        invariant
            i <= entries@.len(),
            imports_declared(dir@, entries@.take(i as int), out),
        decreases entries@.len() - i,
    {
        let key = match entries[i].0.as_str() {
            Some(k) => k.to_owned(),
            None => {
                assert(!(entries@[i as int].0 is String));
                return None;
            },
        };
        let path = match entries[i].1.as_str() {
            Some(p) => join(dir, p),
            None => {
                assert(!(entries@[i as int].1 is String));
                return None;
            },
        };
        let ghost before = out;
        let ghost seen = entries@.take(i as int);
        let ghost now = entries@.take(i + 1);
        let ghost key_view = key@;
        let _ = out.insert(key, TaskfileImportRef::Unresolved(path));
        proof {
            assert(now =~= seen.push(entries@[i as int]));
            assert(now.drop_last() =~= seen);
            assert(out.keys() == first_keys(now));
            assert forall|k: Seq<char>| out.has(k) <==> exists|j: int|
                0 <= j < now.len() && crate::yaml::is_key((#[trigger] now[j]).0, k) by {
                if k == key_view {
                    assert(crate::yaml::is_key(now[i as int].0, k));
                } else {
                    if before.has(k) {
                        let j = choose|j: int|
                            0 <= j < seen.len() && crate::yaml::is_key((#[trigger] seen[j]).0, k);
                        assert(crate::yaml::is_key(now[j].0, k));
                    }
                    if exists|j: int| 0 <= j < now.len() && crate::yaml::is_key((#[trigger] now[j]).0, k) {
                        let j = choose|j: int|
                            0 <= j < now.len() && crate::yaml::is_key((#[trigger] now[j]).0, k);
                        assert(j < i);
                        assert(crate::yaml::is_key(seen[j].0, k));
                    }
                }
            }
            assert forall|j: int| 0 <= j < now.len() implies (#[trigger] now[j]).0 is String && now[j].1
                is String by {
                if j < i {
                    assert(now[j] == seen[j]);
                }
            }
            assert forall|j: int| is_last_entry(now, j) implies ((#[trigger] out.at(now[j].0->String_0@))
                matches TaskfileImportRef::Unresolved(p) && p@ == joined_path(
                dir@,
                now[j].1->String_0@,
            )) by {
                if j < i {
                    assert(now[j] == seen[j]);
                    assert(!crate::yaml::is_key(now[i as int].0, now[j].0->String_0@));
                    assert forall|m: int| j < m < seen.len() implies !crate::yaml::is_key(
                        (#[trigger] seen[m]).0,
                        seen[j].0->String_0@,
                    ) by {
                        assert(seen[m] == now[m]);
                    }
                    assert(is_last_entry(seen, j));
                    assert(before.has(seen[j].0->String_0@)) by {
                        assert(crate::yaml::is_key(seen[j].0, seen[j].0->String_0@));
                    }
                }
            }
        }
        i += 1;
    }
    proof {
        assert(entries@.take(entries@.len() as int) =~= entries@);
    }
    Some(out)
}

/// Reads the tasks of a taskfile.
pub fn parse_tasks(dir: &str, entries: &Vec<(YamlValue, YamlValue)>) -> (r: Result<
    StrMap<Task>,
    YamlLoadError,
>)
    ensures
        match r {
            Ok(tasks) => tasks_declared(dir@, entries@, tasks) && forall|i: int|
                0 <= i < tasks.values().len() ==> (#[trigger] tasks.values()[i]).wf(),
            Err(e) => tasks_fault(entries@, e),
        },
{
    let mut out: StrMap<Task> = StrMap::new();
    let mut i: usize = 0;
    while i < entries.len()
        invariant
            i <= entries@.len(),
            tasks_declared(dir@, entries@.take(i as int), out),
            forall|j: int| 0 <= j < out.values().len() ==> (#[trigger] out.values()[j]).wf(),
            forall|j: int| 0 <= j < i ==> is_task_entry(#[trigger] entries@[j]),
        decreases entries@.len() - i,
    {
        let key = match entries[i].0.as_str() {
            Some(k) => k.to_owned(),
            None => {
                assert(first_bad_task(entries@, i as int));
                return Err(YamlLoadError::InvalidTasks);
            },
        };
        let task = match parse_task(dir, key.as_str(), &entries[i].1) {
            Ok(t) => t,
            Err(e) => {
                proof {
                    if entries@[i as int].1 is Hash {
                        crate::task::from_yaml::lemma_fault_is_unreadable(
                            entries@[i as int].1->Hash_0@,
                            e,
                        );
                    }
                    assert(first_bad_task(entries@, i as int));
                }
                return Err(YamlLoadError::InvalidTask(key, e));
            },
        };
        let ghost before = out;
        let ghost seen = entries@.take(i as int);
        let ghost now = entries@.take(i + 1);
        let ghost key_view = key@;
        let ghost the_task = task;
        let replaced = out.insert(key, task);
        proof {
            assert(now =~= seen.push(entries@[i as int]));
            assert(now.drop_last() =~= seen);
            assert(out.keys() == first_keys(now));
            assert forall|k: Seq<char>| out.has(k) <==> exists|j: int|
                0 <= j < now.len() && crate::yaml::is_key((#[trigger] now[j]).0, k) by {
                if k == key_view {
                    assert(crate::yaml::is_key(now[i as int].0, k));
                } else {
                    if before.has(k) {
                        let j = choose|j: int|
                            0 <= j < seen.len() && crate::yaml::is_key((#[trigger] seen[j]).0, k);
                        assert(crate::yaml::is_key(now[j].0, k));
                    }
                    if exists|j: int| 0 <= j < now.len() && crate::yaml::is_key((#[trigger] now[j]).0, k) {
                        let j = choose|j: int|
                            0 <= j < now.len() && crate::yaml::is_key((#[trigger] now[j]).0, k);
                        assert(j < i);
                        assert(crate::yaml::is_key(seen[j].0, k));
                    }
                }
            }
            assert forall|j: int| 0 <= j < now.len() implies (#[trigger] now[j]).0 is String && now[j].1
                is Hash by {
                if j < i {
                    assert(now[j] == seen[j]);
                }
            }
            assert forall|j: int| is_last_entry(now, j) implies task_declared(
                dir@,
                now[j].0->String_0@,
                now[j].1->Hash_0@,
                #[trigger] out.at(now[j].0->String_0@),
            ) by {
                if j < i {
                    assert(now[j] == seen[j]);
                    assert(!crate::yaml::is_key(now[i as int].0, now[j].0->String_0@));
                    assert forall|m: int| j < m < seen.len() implies !crate::yaml::is_key(
                        (#[trigger] seen[m]).0,
                        seen[j].0->String_0@,
                    ) by {
                        assert(seen[m] == now[m]);
                    }
                    assert(is_last_entry(seen, j));
                    assert(before.has(seen[j].0->String_0@)) by {
                        assert(crate::yaml::is_key(seen[j].0, seen[j].0->String_0@));
                    }
                }
            }
            assert forall|j: int| 0 <= j < out.values().len() implies (#[trigger] out.values()[j]).wf() by {
                match replaced {
                    Some(_) => {
                        let p = before.position_of(key_view);
                        if j != p {
                            assert(out.values()[j] == before.values()[j]);
                        }
                    },
                    None => {
                        if j < before.values().len() {
                            assert(out.values()[j] == before.values()[j]);
                        }
                    },
                }
            }
        }
        i += 1;
    }
    proof {
        assert(entries@.take(entries@.len() as int) =~= entries@);
    }
    Ok(out)
}

/// What reading a text as a taskfile comes to: the taskfile that its first
/// document declares, or what is wrong with the text.
pub open spec fn taskfile_read(
    source: Seq<char>,
    path: Seq<char>,
    dir: Seq<char>,
    r: Result<Taskfile, YamlLoadError>,
) -> bool {
    match r {
        Ok(taskfile) => yaml_documents(source) matches Some(docs) && docs.len() > 0 && docs[0]
            is Hash && taskfile_declared(path, dir, docs[0]->Hash_0@, taskfile),
        Err(YamlLoadError::YamlParseError(_)) => yaml_documents(source) is None,
        Err(YamlLoadError::NoDocument) => yaml_documents(source) matches Some(docs)
            && docs.len() == 0,
        Err(YamlLoadError::InvalidTaskfileType) => yaml_documents(source) matches Some(docs)
            && docs.len() > 0 && !(docs[0] is Hash),
        Err(e) => yaml_documents(source) matches Some(docs) && docs.len() > 0 && docs[0] is Hash
            && taskfile_fault(docs[0]->Hash_0@, e),
    }
}

impl Taskfile {
    /// Reads a taskfile out of its text. `path` is the canonical path of
    /// the taskfile and becomes its id; `dir` is the directory it stands in,
    /// from which the paths of its imports are taken and in which its tasks
    /// work where they name no other directory. The text is read by
    /// `yaml_rust`; its first document is the taskfile.
    pub fn from_yaml_source(source: &str, path: &str, dir: &str) -> (r: Result<Taskfile, YamlLoadError>)
        ensures
            taskfile_read(source@, path@, dir@, r),
    {
        let docs = match load_documents(source) {
            Ok(d) => d,
            Err(message) => {
                return Err(YamlLoadError::YamlParseError(message));
            },
        };
        if docs.len() == 0 {
            return Err(YamlLoadError::NoDocument);
        }
        let hash = match docs[0].as_hash() {
            Some(h) => h,
            None => {
                return Err(YamlLoadError::InvalidTaskfileType);
            },
        };
        let env = match hash_get(hash, "env") {
            Some(value) => match parse_env(value) {
                Ok(env) => env,
                Err(e) => {
                    return Err(YamlLoadError::InvalidEnv(e));
                },
            },
            None => StrMap::new(),
        };
        let imports = match hash_get(hash, "imports") {
            Some(value) => match value.as_hash() {
                Some(entries) => match parse_imports(dir, entries) {
                    Some(imports) => imports,
                    None => {
                        proof {
                            let i = choose|i: int|
                                0 <= i < entries@.len() && !((#[trigger] entries@[i]).0 is String
                                    && entries@[i].1 is String);
                            assert(value->Hash_0@[i] == entries@[i]);
                        }
                        return Err(YamlLoadError::InvalidImports);
                    },
                },
                None => {
                    return Err(YamlLoadError::InvalidImports);
                },
            },
            None => StrMap::new(),
        };
        let tasks = match hash_get(hash, "tasks") {
            Some(value) => match value.as_hash() {
                Some(entries) => match parse_tasks(dir, entries) {
                    Ok(tasks) => tasks,
                    Err(e) => {
                        return Err(e);
                    },
                },
                None => {
                    return Err(YamlLoadError::InvalidTasks);
                },
            },
            None => StrMap::new(),
        };
        Ok(Taskfile { id: TaskfileId::from_path(path), dir: dir.to_owned(), env, imports, tasks })
    }
}

} // verus!
