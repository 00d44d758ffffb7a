//! Task definitions and the concrete units of work made of them.

use crate::command::Command;
use crate::json::{Json, JsonView};
use crate::paths::{join, joined_path};
use crate::collections::{env_members, env_new, TaskEnv};
use crate::strmap::StrMap;
use crate::task::invocation::{invocation_instantiated, invocation_instantiates, TaskInvocation};
use crate::task::params::Param;
use crate::task::task_ref::TaskRef;
use crate::template::{
    lemma_more_and_more, lemma_rendered_stays, render_text, rendered, renders_to,
};
use crate::text::copy_texts;
use crate::template::{kept, Engine, RenderFailure, Renderings};
use vstd::prelude::*;

verus! {

/// The parameters of a task, by name, in the order of their declaration.
#[derive(Debug)]
pub struct Params(pub StrMap<Param>);

impl Params {
    /// No parameters.
    pub fn new() -> (r: Self)
        ensures
            r.0.wf(),
            r.0.keys() =~= Seq::empty(),
    {
        Params(StrMap::new())
    }
}

/// A declared output of a task.
#[derive(Debug)]
pub enum OutputPath {
    File(String),
    Directory(String),
}

/// Why an output path could not be instantiated.
#[derive(Debug)]
pub enum OutputPathInstantiationError {
    TemplateRenderError(RenderFailure),
}

impl OutputPath {
    /// The path of the output.
    pub open spec fn path(&self) -> Seq<char> {
        match self {
            OutputPath::File(path) => path@,
            OutputPath::Directory(path) => path@,
        }
    }

    /// Whether the output is a directory.
    pub open spec fn is_directory(&self) -> bool {
        self is Directory
    }

    /// The path as text.
    pub fn as_str(&self) -> (r: &str)
        ensures
            r@ == self.path(),
    {
        match self {
            OutputPath::File(path) => path.as_str(),
            OutputPath::Directory(path) => path.as_str(),
        }
    }

    pub fn duplicate(&self) -> (r: Self)
        ensures
            r.path() == self.path(),
            r.is_directory() == self.is_directory(),
    {
        match self {
            OutputPath::File(path) => OutputPath::File(path.clone()),
            OutputPath::Directory(path) => OutputPath::Directory(path.clone()),
        }
    }

    /// The output with its path rendered over `context`; a file stays a
    /// file and a directory a directory.
    pub fn instantiate(&self, handlebars: &mut Engine, context: &Json) -> (r: Result<
        Self,
        OutputPathInstantiationError,
    >)
        requires
            old(handlebars).wf(),
        ensures
            final(handlebars).wf(),
            kept(old(handlebars)@, final(handlebars)@),
            match r {
                Ok(out) => out.is_directory() == self.is_directory() && renders_to(
                    final(handlebars)@,
                    self.path(),
                    context@,
                    out.path(),
                ),
                Err(_) => rendered(final(handlebars)@, self.path(), context@) is None,
            },
    {
        match self {
            OutputPath::File(path) => match render_text(handlebars, path.as_str(), context) {
                Ok(text) => Ok(OutputPath::File(text)),
                Err(e) => Err(OutputPathInstantiationError::TemplateRenderError(e)),
            },
            OutputPath::Directory(path) => match render_text(handlebars, path.as_str(), context) {
                Ok(text) => Ok(OutputPath::Directory(text)),
                Err(e) => Err(OutputPathInstantiationError::TemplateRenderError(e)),
            },
        }
    }

    /// The output with its path taken from `workdir`.
    pub fn resolve(&self, workdir: &str) -> (r: Self)
        ensures
            r.is_directory() == self.is_directory(),
            r.path() == joined_path(workdir@, self.path()),
    {
        match self {
            OutputPath::File(file) => OutputPath::File(join(workdir, file.as_str())),
            OutputPath::Directory(dir) => OutputPath::Directory(join(workdir, dir.as_str())),
        }
    }
}

/// The declared outputs of a task.
#[derive(Debug)]
pub struct Outputs {
    pub paths: Vec<OutputPath>,
}

/// `out` holds each output of `paths` with its path rendered.
pub open spec fn outputs_rendered(
    engine: Renderings,
    paths: Seq<OutputPath>,
    context: JsonView,
    out: Seq<OutputPath>,
) -> bool {
    &&& out.len() == paths.len()
    &&& forall|i: int|
        0 <= i < paths.len() ==> out[i].is_directory() == (#[trigger] paths[i]).is_directory()
            && renders_to(engine, paths[i].path(), context, out[i].path())
}

/// Outputs that are rendered by one record are rendered by every record
/// that holds as much.
pub proof fn lemma_outputs_stay(
    known: Renderings,
    more: Renderings,
    paths: Seq<OutputPath>,
    context: JsonView,
    out: Seq<OutputPath>,
)
    requires
        kept(known, more),
        outputs_rendered(known, paths, context, out),
    ensures
        outputs_rendered(more, paths, context, out),
{
    assert forall|i: int| 0 <= i < paths.len() implies out[i].is_directory() == (
    #[trigger] paths[i]).is_directory() && renders_to(more, paths[i].path(), context, out[i].path()) by {
        lemma_rendered_stays(known, more, paths[i].path(), context);
    }
}

/// The path of every output renders.
pub open spec fn outputs_render(engine: Renderings, paths: Seq<OutputPath>, context: JsonView) -> bool {
    forall|i: int| 0 <= i < paths.len() ==> rendered(engine, (#[trigger] paths[i]).path(), context) is Some
}

/// The outputs of a list with their paths rendered over `context`, or the
/// error of the first that does not render.
pub fn instantiate_outputs(paths: &Vec<OutputPath>, handlebars: &mut Engine, context: &Json) -> (r:
    Result<Vec<OutputPath>, OutputPathInstantiationError>)
    requires
        old(handlebars).wf(),
    ensures
        final(handlebars).wf(),
        kept(old(handlebars)@, final(handlebars)@),
        match r {
            Ok(out) => outputs_rendered(final(handlebars)@, paths@, context@, out@),
            Err(_) => !outputs_render(final(handlebars)@, paths@, context@),
        },
{
    let mut out: Vec<OutputPath> = Vec::new();
    let mut i: usize = 0;
    while i < paths.len()
        invariant
            handlebars.wf(),
            kept(old(handlebars)@, handlebars@),
            i <= paths.len(),
            out@.len() == i,
            forall|j: int|
                0 <= j < i ==> out@[j].is_directory() == (#[trigger] paths@[j]).is_directory()
                    && renders_to(handlebars@, paths@[j].path(), context@, out@[j].path()),
        decreases paths.len() - i,
    {
        let ghost before = handlebars@;
        let path = paths[i].instantiate(handlebars, context);
        proof {
            lemma_more_and_more(old(handlebars)@, before, handlebars@);
            assert forall|j: int| 0 <= j < i implies out@[j].is_directory() == (
            #[trigger] paths@[j]).is_directory() && renders_to(
                handlebars@,
                paths@[j].path(),
                context@,
                out@[j].path(),
            ) by {
                lemma_rendered_stays(before, handlebars@, paths@[j].path(), context@);
            }
        }
        match path {
            Ok(p) => {
                out.push(p);
            },
            Err(e) => {
                assert(rendered(handlebars@, paths@[i as int].path(), context@) is None);
                return Err(e);
            },
        }
        i += 1;
    }
    Ok(out)
}

/// A dependency of a task: the invocation it asks for, a label of its own,
/// and the labels of the dependencies that have to come first.
#[derive(Debug)]
pub struct Dep {
    pub invocation: TaskInvocation<TaskRef>,
    pub id: Option<String>,
    pub after: Vec<String>,
}

/// The label of a dependency, if it has one.
pub open spec fn label_view(id: Option<String>) -> Option<Seq<char>> {
    match id {
        Some(s) => Some(s@),
        None => None,
    }
}

/// `out` is `dep` with its invocation instantiated; the labels stay.
pub open spec fn dep_instantiated(
    engine: Renderings,
    dep: Dep,
    context: JsonView,
    out: Dep,
) -> bool {
    &&& invocation_instantiated(engine, dep.invocation, context, out.invocation)
    &&& label_view(out.id) == label_view(dep.id)
    &&& crate::task::params::texts_view(out.after@) == crate::task::params::texts_view(dep.after@)
}

impl Dep {
    /// The arguments of the invocation are a map.
    pub open spec fn wf(&self) -> bool {
        self.invocation.args.wf()
    }

    /// The dependency with its invocation instantiated over `context`.
    pub fn instantiate(&self, handlebars: &mut Engine, context: &Json) -> (r: Result<
        Dep,
        RenderFailure,
    >)
        requires
            old(handlebars).wf(),
            self.wf(),
        ensures
            final(handlebars).wf(),
            kept(old(handlebars)@, final(handlebars)@),
            match r {
                Ok(out) => dep_instantiated(final(handlebars)@, *self, context@, out) && out.wf(),
                Err(_) => !invocation_instantiates(final(handlebars)@, self.invocation, context@),
            },
    {
        let invocation = match self.invocation.instantiate(handlebars, context) {
            Ok(i) => i,
            Err(e) => {
                return Err(e);
            },
        };
        let id = match &self.id {
            Some(s) => Some(s.clone()),
            None => None,
        };
        let after = copy_texts(&self.after);
        assert(crate::task::params::texts_view(after@) =~= crate::task::params::texts_view(self.after@));
        Ok(Dep { invocation, id, after })
    }
}

/// The dependencies of a task, in the order of their declaration.
#[derive(Debug)]
pub struct Deps(pub Vec<Dep>);

/// `out` holds each dependency of `deps`, instantiated.
pub open spec fn deps_instantiated(
    engine: Renderings,
    deps: Seq<Dep>,
    context: JsonView,
    out: Seq<Dep>,
) -> bool {
    &&& out.len() == deps.len()
    &&& forall|i: int| 0 <= i < deps.len() ==> dep_instantiated(engine, #[trigger] deps[i], context, out[i])
}

/// Dependencies that are instantiated by one record are instantiated by
/// every record that holds as much.
pub proof fn lemma_deps_stay(
    known: Renderings,
    more: Renderings,
    deps: Seq<Dep>,
    context: JsonView,
    out: Seq<Dep>,
)
    requires
        kept(known, more),
        deps_instantiated(known, deps, context, out),
    ensures
        deps_instantiated(more, deps, context, out),
{
    assert forall|i: int| 0 <= i < deps.len() implies dep_instantiated(
        more,
        #[trigger] deps[i],
        context,
        out[i],
    ) by {
        crate::task::invocation::lemma_invocation_stays(
            known,
            more,
            deps[i].invocation,
            context,
            out[i].invocation,
        );
    }
}

/// Every dependency can be instantiated.
pub open spec fn deps_instantiate(engine: Renderings, deps: Seq<Dep>, context: JsonView) -> bool {
    forall|i: int|
        0 <= i < deps.len() ==> invocation_instantiates(engine, (#[trigger] deps[i]).invocation, context)
}

/// Every dependency of the list is well formed.
pub open spec fn deps_wf(deps: Seq<Dep>) -> bool {
    forall|i: int| 0 <= i < deps.len() ==> (#[trigger] deps[i]).wf()
}

/// The dependencies of a list instantiated over `context`, or the error of
/// the first that cannot be.
pub fn instantiate_deps(deps: &Vec<Dep>, handlebars: &mut Engine, context: &Json) -> (r: Result<
    Vec<Dep>,
    RenderFailure,
>)
    requires
        old(handlebars).wf(),
        deps_wf(deps@),
    ensures
        final(handlebars).wf(),
        kept(old(handlebars)@, final(handlebars)@),
        match r {
            Ok(out) => deps_instantiated(final(handlebars)@, deps@, context@, out@) && deps_wf(out@),
            Err(_) => !deps_instantiate(final(handlebars)@, deps@, context@),
        },
{
    let mut out: Vec<Dep> = Vec::new();
    let mut i: usize = 0;
    while i < deps.len()
        invariant
            handlebars.wf(),
            kept(old(handlebars)@, handlebars@),
            i <= deps.len(),
            deps_wf(deps@),
            deps_wf(out@),
            out@.len() == i,
            forall|j: int|
                0 <= j < i ==> dep_instantiated(handlebars@, #[trigger] deps@[j], context@, out@[j]),
        decreases deps.len() - i,
    {
        assert(deps@[i as int].wf());
        let ghost before = handlebars@;
        let dep = deps[i].instantiate(handlebars, context);
        proof {
            lemma_more_and_more(old(handlebars)@, before, handlebars@);
            assert forall|j: int| 0 <= j < i implies dep_instantiated(
                handlebars@,
                #[trigger] deps@[j],
                context@,
                out@[j],
            ) by {
                crate::task::invocation::lemma_invocation_stays(
                    before,
                    handlebars@,
                    deps@[j].invocation,
                    context@,
                    out@[j].invocation,
                );
            }
        }
        match dep {
            Ok(d) => {
                out.push(d);
            },
            Err(e) => {
                assert(!invocation_instantiates(handlebars@, deps@[i as int].invocation, context@));
                return Err(e);
            },
        }
        i += 1;
    }
    Ok(out)
}

/// What a task does and needs.
#[derive(Debug)]
pub struct TaskBody {
    /// The task's own environment, laid over that of its taskfile.
    pub env: TaskEnv,
    pub workdir: String,
    /// A phony task runs whenever it has steps, whatever the state of its outputs.
    pub phony: bool,
    pub outputs: Outputs,
    pub sources: Vec<String>,
    pub deps: Deps,
    pub steps: Vec<Command>,
    pub clean: Option<Vec<Command>>,
}

impl TaskBody {
    /// The arguments of the dependencies are maps.
    pub open spec fn wf(&self) -> bool {
        deps_wf(self.deps.0@)
    }
}

/// A part of a task that is read on its own.
pub enum Part {
    Params,
    Outputs,
    Sources,
    Deps,
    Steps,
    Clean,
}

/// `b` is `a` in everything but, at most, one part.
pub open spec fn same_but(a: Task, b: Task, part: Part) -> bool {
    &&& b.name == a.name
    &&& b.description == a.description
    &&& part is Params || b.params == a.params
    &&& b.body.env == a.body.env
    &&& b.body.workdir == a.body.workdir
    &&& b.body.phony == a.body.phony
    &&& part is Outputs || b.body.outputs == a.body.outputs
    &&& part is Sources || b.body.sources == a.body.sources
    &&& part is Deps || b.body.deps == a.body.deps
    &&& part is Steps || b.body.steps == a.body.steps
    &&& part is Clean || b.body.clean == a.body.clean
}

/// A task as it is defined: with parameters, and with templates in its body.
#[derive(Debug)]
pub struct Task {
    pub name: String,
    pub description: Option<String>,
    pub params: Params,
    pub body: TaskBody,
}

impl Task {
    /// The parameters and the body are well formed.
    pub open spec fn wf(&self) -> bool {
        &&& self.params.0.wf()
        &&& self.body.wf()
    }

    /// Reads a task out of the hash that declares it under `name`; see
    /// [`crate::task::from_yaml::parse_task`].
    pub fn from_yaml(workdir: &str, name: &str, value: &crate::yaml::YamlValue) -> (r: Result<
        Self,
        crate::task::from_yaml::InvalidTaskObject,
    >)
        ensures
            match r {
                Ok(task) => value is Hash && crate::task::from_yaml::task_declared(
                    workdir@,
                    name@,
                    value->Hash_0@,
                    task,
                ),
                Err(crate::task::from_yaml::InvalidTaskObject::InvalidTaskType) => !(value is Hash),
                Err(e) => value is Hash && crate::task::from_yaml::is_first_fault(value->Hash_0@, e),
            },
    {
        crate::task::from_yaml::parse_task(workdir, name, value)
    }

    /// A task of this name that declares nothing.
    pub fn new(name: &str) -> (r: Self)
        ensures
            r.wf(),
            r.name@ == name@,
            r.description is None,
            r.params.0.keys() =~= Seq::empty(),
            env_members(r.body.env) =~= Seq::empty(),
            r.body.workdir@ =~= Seq::empty(),
            !r.body.phony,
            r.body.outputs.paths@ =~= Seq::empty(),
            r.body.sources@ =~= Seq::empty(),
            r.body.deps.0@ =~= Seq::empty(),
            r.body.steps@ =~= Seq::empty(),
            r.body.clean is None,
    {
        Task {
            name: name.to_owned(),
            description: None,
            params: Params::new(),
            body: TaskBody {
                env: env_new(),
                workdir: String::new(),
                phony: false,
                outputs: Outputs { paths: Vec::new() },
                sources: Vec::new(),
                deps: Deps(Vec::new()),
                steps: Vec::new(),
                clean: None,
            },
        }
    }
}

/// A task whose templates have been rendered over concrete arguments: a
/// concrete unit of work.
#[derive(Debug)]
pub struct InstantiatedTask {
    pub name: String,
    pub body: TaskBody,
}

impl InstantiatedTask {
    /// The sources, each taken from the working directory.
    pub fn resolve_sources(&self) -> (r: Vec<String>)
        ensures
            r@.len() == self.body.sources@.len(),
            forall|i: int|
                0 <= i < r@.len() ==> (#[trigger] r@[i])@ == joined_path(
                    self.body.workdir@,
                    self.body.sources@[i]@,
                ),
    {
        let mut out: Vec<String> = Vec::new();
        let mut i: usize = 0;
        while i < self.body.sources.len()
            invariant
                i <= self.body.sources.len(),
                out@.len() == i,
                forall|j: int|
                    0 <= j < i ==> (#[trigger] out@[j])@ == joined_path(
                        self.body.workdir@,
                        self.body.sources@[j]@,
                    ),
            decreases self.body.sources.len() - i,
        {
            out.push(join(self.body.workdir.as_str(), self.body.sources[i].as_str()));
            i += 1;
        }
        out
    }

    /// The outputs, each taken from the working directory.
    pub fn resolve_outputs(&self) -> (r: Vec<OutputPath>)
        ensures
            r@.len() == self.body.outputs.paths@.len(),
            forall|i: int|
                0 <= i < r@.len() ==> (#[trigger] r@[i]).is_directory()
                    == self.body.outputs.paths@[i].is_directory() && r@[i].path() == joined_path(
                    self.body.workdir@,
                    self.body.outputs.paths@[i].path(),
                ),
    {
        let mut out: Vec<OutputPath> = Vec::new();
        let mut i: usize = 0;
        while i < self.body.outputs.paths.len()
            invariant
                i <= self.body.outputs.paths.len(),
                out@.len() == i,
                forall|j: int|
                    0 <= j < i ==> (#[trigger] out@[j]).is_directory()
                        == self.body.outputs.paths@[j].is_directory() && out@[j].path() == joined_path(
                        self.body.workdir@,
                        self.body.outputs.paths@[j].path(),
                    ),
            decreases self.body.outputs.paths.len() - i,
        {
            out.push(self.body.outputs.paths[i].resolve(self.body.workdir.as_str()));
            i += 1;
        }
        out
    }
}

} // verus!
