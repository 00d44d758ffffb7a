//! Making a concrete unit of work of a task and its arguments.

use crate::command::{
    instantiate_steps, steps_render, steps_rendered, CommandInstantiationError,
};
use crate::json::{Json, JsonView};
use crate::strmap::StrMap;
use crate::task::params::Param;
use crate::task::task::{
    deps_instantiate, deps_instantiated, instantiate_deps, instantiate_outputs, outputs_render,
    outputs_rendered, Deps, InstantiatedTask, OutputPathInstantiationError, Outputs, Task,
    TaskBody,
};
use crate::task::BirbRenderContext;
use crate::template::{
    lemma_more_and_more, lemma_rendered_stays, render_all, render_text, rendered, renders_to,
    texts_render, texts_rendered,
};
use crate::task::params::accepts;
use crate::utils::type_checking::{
    check_type, lemma_checked_is_accepted, type_error, TypeCheckError, TypeCheckErrorView,
};
use crate::template::{kept, Engine, RenderFailure, Renderings};
use vstd::prelude::*;

verus! {

/// Why the arguments of an invocation do not fit the parameters of its task.
#[derive(Debug)]
pub enum ArgumentsCheckError {
    /// A parameter has no argument, or an argument has no parameter.
    NotFound { key: String },
    /// An argument is not of the type of its parameter.
    TypeError { key: String, err: TypeCheckError },
}

/// The mathematical value of an [`ArgumentsCheckError`].
pub enum ArgumentsCheckErrorView {
    NotFound { key: Seq<char> },
    TypeError { key: Seq<char>, err: TypeCheckErrorView },
}

impl View for ArgumentsCheckError {
    type V = ArgumentsCheckErrorView;

    open spec fn view(&self) -> ArgumentsCheckErrorView {
        match self {
            ArgumentsCheckError::NotFound { key } => ArgumentsCheckErrorView::NotFound { key: key@ },
            ArgumentsCheckError::TypeError { key, err } => ArgumentsCheckErrorView::TypeError {
                key: key@,
                err: err@,
            },
        }
    }
}

/// Why a task could not be instantiated.
#[derive(Debug)]
pub enum InstantiationError {
    ArgsError(ArgumentsCheckError),
    TemplateRenderError(RenderFailure),
    OutputPathInstantiationError(OutputPathInstantiationError),
    StepsInstantiationError(CommandInstantiationError),
    CleanStepsInstantiationError(CommandInstantiationError),
}

/// The value that the parameter `k` gets: its argument, or else the
/// default that it declares.
pub open spec fn effective_value(params: StrMap<Param>, args: StrMap<Json>, k: Seq<char>) -> Option<
    JsonView,
> {
    if args.has(k) {
        Some(args.at(k)@)
    } else {
        match params.at(k).default {
            Some(d) => Some(d@),
            None => None,
        }
    }
}

/// The arguments as the templates see them: for each parameter, in the
/// order of the declaration, its argument or else its declared default.
pub open spec fn effective_members(params: StrMap<Param>, args: StrMap<Json>) -> Seq<
    (Seq<char>, JsonView),
> {
    Seq::new(
        params.keys().len(),
        |i: int|
            (
                params.keys()[i],
                match effective_value(params, args, params.keys()[i]) {
                    Some(v) => v,
                    None => JsonView::Null,
                },
            ),
    )
}

/// The object that the templates of a task are rendered over: under `args`
/// the arguments with the declared defaults, under `env` the environment.
pub open spec fn task_context(task: Task, args: StrMap<Json>, env: StrMap<Json>) -> JsonView {
    JsonView::Object(
        seq![
            ("args"@, JsonView::Object(effective_members(task.params.0, args))),
            ("env"@, JsonView::Object(crate::task::map_members(env))),
        ],
    )
}

/// The arguments fit the parameters: every argument has a parameter, and
/// every parameter has a value, its argument or else its declared default,
/// that its type accepts.
pub open spec fn args_match(params: StrMap<Param>, args: StrMap<Json>) -> bool {
    &&& forall|k: Seq<char>| args.has(k) ==> params.has(k)
    &&& forall|k: Seq<char>|
        params.has(k) ==> (#[trigger] effective_value(params, args, k)) is Some && accepts(
            params.at(k).ty@,
            effective_value(params, args, k)->0,
        )
}

/// What is wrong with the parameter at position `i`, if anything: it has
/// neither an argument nor a default, or its default, which stands in for
/// the argument, is not of its type.
pub open spec fn param_error(params: StrMap<Param>, args: StrMap<Json>, i: int) -> Option<
    ArgumentsCheckErrorView,
> {
    let k = params.keys()[i];
    if args.has(k) {
        None
    } else {
        match params.values()[i].default {
            None => Some(ArgumentsCheckErrorView::NotFound { key: k }),
            Some(d) => match type_error(params.values()[i].ty@, d@) {
                Some(e) => Some(ArgumentsCheckErrorView::TypeError { key: k, err: e }),
                None => None,
            },
        }
    }
}

/// Nothing is wrong with any parameter.
pub open spec fn none_missing(params: StrMap<Param>, args: StrMap<Json>) -> bool {
    forall|i: int| 0 <= i < params.keys().len() ==> (#[trigger] param_error(params, args, i)) is None
}

/// The parameter at position `i` is the first with which something is wrong.
pub open spec fn first_missing(params: StrMap<Param>, args: StrMap<Json>, i: int) -> bool {
    &&& 0 <= i < params.keys().len()
    &&& param_error(params, args, i) is Some
    &&& forall|j: int| 0 <= j < i ==> (#[trigger] param_error(params, args, j)) is None
}

/// What is wrong with the argument at position `j`, if anything: it has no
/// parameter, or it is not of its parameter's type.
pub open spec fn arg_error(params: StrMap<Param>, args: StrMap<Json>, j: int) -> Option<
    ArgumentsCheckErrorView,
> {
    let k = args.keys()[j];
    if !params.has(k) {
        Some(ArgumentsCheckErrorView::NotFound { key: k })
    } else {
        match type_error(params.at(k).ty@, args.values()[j]@) {
            Some(e) => Some(ArgumentsCheckErrorView::TypeError { key: k, err: e }),
            None => None,
        }
    }
}

/// The argument at position `j` is the first with which something is wrong.
pub open spec fn first_bad_arg(params: StrMap<Param>, args: StrMap<Json>, j: int) -> bool {
    &&& 0 <= j < args.keys().len()
    &&& arg_error(params, args, j) is Some
    &&& forall|i: int| 0 <= i < j ==> (#[trigger] arg_error(params, args, i)) is None
}

/// `e` is the error that the check reports: what is wrong with the first
/// parameter with which something is wrong; where there is none, what is
/// wrong with the first argument with which something is wrong.
pub open spec fn check_error(
    params: StrMap<Param>,
    args: StrMap<Json>,
    e: ArgumentsCheckErrorView,
) -> bool {
    ||| exists|i: int| first_missing(params, args, i) && param_error(params, args, i) == Some(e)
    ||| none_missing(params, args) && exists|j: int| first_bad_arg(params, args, j) && arg_error(
        params,
        args,
        j,
    ) == Some(e)
}

/// `out` is `body` with every template rendered over `context`.
pub open spec fn body_instantiated(
    engine: Renderings,
    body: TaskBody,
    context: JsonView,
    out: TaskBody,
) -> bool {
    &&& out.wf()
    &&& crate::collections::env_members(out.env) == crate::collections::env_members(body.env)
    &&& renders_to(engine, body.workdir@, context, out.workdir@)
    &&& out.phony == body.phony
    &&& outputs_rendered(engine, body.outputs.paths@, context, out.outputs.paths@)
    &&& texts_rendered(engine, body.sources@, context, out.sources@)
    &&& deps_instantiated(engine, body.deps.0@, context, out.deps.0@)
    &&& steps_rendered(engine, body.steps@, context, out.steps@)
    &&& match body.clean {
        Some(steps) => out.clean is Some && steps_rendered(engine, steps@, context, out.clean->0@),
        None => out.clean is None,
    }
}

/// Everything that is rendered before the steps renders: the working
/// directory, the outputs, the sources and the dependencies.
pub open spec fn head_renders(engine: Renderings, body: TaskBody, context: JsonView) -> bool {
    &&& rendered(engine, body.workdir@, context) is Some
    &&& outputs_render(engine, body.outputs.paths@, context)
    &&& texts_render(engine, body.sources@, context)
    &&& deps_instantiate(engine, body.deps.0@, context)
}

/// Whether a task can be instantiated with these arguments over this
/// environment: the arguments fit the parameters, and every template of
/// the body renders.
pub open spec fn instantiable(
    engine: Renderings,
    task: Task,
    args: StrMap<Json>,
    env: StrMap<Json>,
) -> bool {
    &&& args_match(task.params.0, args)
    &&& head_renders(engine, task.body, task_context(task, args, env))
    &&& steps_render(engine, task.body.steps@, task_context(task, args, env))
    &&& task.body.clean matches Some(steps) ==> steps_render(
        engine,
        steps@,
        task_context(task, args, env),
    )
}

/// Arguments that are the same map give the same context.
pub proof fn lemma_same_context(task: Task, a: StrMap<Json>, b: StrMap<Json>, env: StrMap<Json>)
    requires
        crate::task::invocation::args_view(a) == crate::task::invocation::args_view(b),
    ensures
        task_context(task, a, env) == task_context(task, b, env),
        args_match(task.params.0, a) == args_match(task.params.0, b),
{
    let params = task.params.0;
    assert forall|k: Seq<char>| a.has(k) == b.has(k) && (a.has(k) ==> a.at(k)@ == b.at(k)@) by {
        assert(crate::task::invocation::args_view(a).dom().contains(k) == a.has(k));
        assert(crate::task::invocation::args_view(b).dom().contains(k) == b.has(k));
        if a.has(k) {
            assert(crate::task::invocation::args_view(a)[k] == a.at(k)@);
            assert(crate::task::invocation::args_view(b)[k] == b.at(k)@);
        }
    }
    assert forall|k: Seq<char>| effective_value(params, a, k) == effective_value(params, b, k) by {}
    assert(effective_members(params, a) =~= effective_members(params, b));
}

/// What can be instantiated with some arguments can be instantiated with
/// the same arguments in another map.
pub proof fn lemma_instantiable_with_copy(
    engine: Renderings,
    task: Task,
    a: StrMap<Json>,
    b: StrMap<Json>,
    env: StrMap<Json>,
)
    requires
        crate::task::invocation::args_view(a) == crate::task::invocation::args_view(b),
        instantiable(engine, task, a, env),
    ensures
        instantiable(engine, task, b, env),
{
    lemma_same_context(task, a, b, env);
}

/// No template of the body holds two opening braces in a row: not the
/// working directory, an output, a source, the name or an argument of a
/// dependency, a step or a clean step.
pub open spec fn is_plain_body(body: TaskBody) -> bool {
    let plain = |t: Seq<char>| !crate::text::occurs_in(crate::template::marker(), t);
    &&& plain(body.workdir@)
    &&& forall|i: int| 0 <= i < body.outputs.paths@.len() ==> plain((#[trigger] body.outputs.paths@[i]).path())
    &&& forall|i: int| 0 <= i < body.sources@.len() ==> plain((#[trigger] body.sources@[i])@)
    &&& forall|i: int|
        0 <= i < body.deps.0@.len() ==> plain(
            crate::task::task_ref::ref_name((#[trigger] body.deps.0@[i]).invocation.reference@),
        )
    &&& forall|i: int, k: int|
        0 <= i < body.deps.0@.len() && 0 <= k < body.deps.0@[i].invocation.args.values().len()
            ==> crate::task::invocation::is_plain_json(
            (#[trigger] body.deps.0@[i].invocation.args.values()[k])@,
        )
    &&& forall|i: int| 0 <= i < body.steps@.len() ==> plain((#[trigger] body.steps@[i]).script())
    &&& body.clean matches Some(steps) ==> forall|i: int|
        0 <= i < steps@.len() ==> plain((#[trigger] steps@[i]).script())
}

/// A task without templates can be instantiated with every engine, where
/// the arguments fit its parameters: what fails to render holds two
/// opening braces in a row.
pub proof fn lemma_plain_body_is_instantiable(
    engine: Renderings,
    task: Task,
    args: StrMap<Json>,
    env: StrMap<Json>,
)
    requires
        args_match(task.params.0, args),
        is_plain_body(task.body),
    ensures
        instantiable(engine, task, args, env),
{
    let context = task_context(task, args, env);
    let body = task.body;
    assert forall|i: int| 0 <= i < body.deps.0@.len()
        implies crate::task::invocation::invocation_instantiates(
        engine,
        (#[trigger] body.deps.0@[i]).invocation,
        context,
    ) by {
        let inv = body.deps.0@[i].invocation;
        assert forall|k: int| 0 <= k < inv.args.values().len()
            implies crate::task::invocation::instantiated_json(
            engine,
            (#[trigger] inv.args.values()[k])@,
            context,
        ) is Some by {
            assert(crate::task::invocation::is_plain_json(body.deps.0@[i].invocation.args.values()[k]@));
            crate::task::invocation::lemma_plain_json_instantiates(engine, inv.args.values()[k]@, context);
        }
    }
}

/// A task of which there is an instantiation can be instantiated.
pub proof fn lemma_instantiated_is_instantiable(
    engine: Renderings,
    task: Task,
    args: StrMap<Json>,
    env: StrMap<Json>,
    out: TaskBody,
)
    requires
        args_match(task.params.0, args),
        body_instantiated(engine, task.body, task_context(task, args, env), out),
    ensures
        instantiable(engine, task, args, env),
{
    let context = task_context(task, args, env);
    let body = task.body;
    assert(outputs_render(engine, body.outputs.paths@, context)) by {
        assert(outputs_rendered(engine, body.outputs.paths@, context, out.outputs.paths@));
    }
    assert(texts_render(engine, body.sources@, context)) by {
        assert(texts_rendered(engine, body.sources@, context, out.sources@));
    }
    assert(deps_instantiate(engine, body.deps.0@, context)) by {
        assert forall|i: int| 0 <= i < body.deps.0@.len()
            implies crate::task::invocation::invocation_instantiates(
            engine,
            (#[trigger] body.deps.0@[i]).invocation,
            context,
        ) by {
            assert(crate::task::task::dep_instantiated(engine, body.deps.0@[i], context, out.deps.0@[i]));
        }
    }
    assert(steps_render(engine, body.steps@, context)) by {
        assert(steps_rendered(engine, body.steps@, context, out.steps@));
    }
    if body.clean is Some {
        assert(steps_render(engine, body.clean->0@, context)) by {
            assert(steps_rendered(engine, body.clean->0@, context, out.clean->0@));
        }
    }
}

/// Two instantiations of a body over the same context have the same
/// dependencies: the same references with the same arguments.
pub proof fn lemma_same_dependencies(
    engine: Renderings,
    body: TaskBody,
    context: JsonView,
    a: TaskBody,
    b: TaskBody,
)
    requires
        body_instantiated(engine, body, context, a),
        body_instantiated(engine, body, context, b),
    ensures
        a.deps.0@.len() == b.deps.0@.len(),
        forall|t: int|
            0 <= t < a.deps.0@.len() ==> (#[trigger] a.deps.0@[t]).invocation.reference@
                == b.deps.0@[t].invocation.reference@ && crate::task::invocation::args_view(
                a.deps.0@[t].invocation.args,
            ) == crate::task::invocation::args_view(b.deps.0@[t].invocation.args),
{
    assert forall|t: int| 0 <= t < a.deps.0@.len() implies (#[trigger] a.deps.0@[t]).invocation.reference@
        == b.deps.0@[t].invocation.reference@ && crate::task::invocation::args_view(
        a.deps.0@[t].invocation.args,
    ) == crate::task::invocation::args_view(b.deps.0@[t].invocation.args) by {
        let dep = body.deps.0@[t];
        assert(crate::task::task::dep_instantiated(engine, dep, context, a.deps.0@[t]));
        assert(crate::task::task::dep_instantiated(engine, dep, context, b.deps.0@[t]));
        let x = a.deps.0@[t].invocation.args;
        let y = b.deps.0@[t].invocation.args;
        x.lemma_len();
        y.lemma_len();
        assert forall|k: Seq<char>| x.has(k) implies x.at(k)@ == y.at(k)@ by {
            let i = x.position_of(k);
            x.lemma_at_position(i);
            y.lemma_at_position(i);
            assert(crate::task::invocation::instantiated_json(engine, dep.invocation.args.values()[i]@, context)
                == Some(x.values()[i]@));
            assert(crate::task::invocation::instantiated_json(engine, dep.invocation.args.values()[i]@, context)
                == Some(y.values()[i]@));
        }
        assert(crate::task::invocation::args_view(x) =~= crate::task::invocation::args_view(y));
    }
}

/// Arguments with a parameter that has no value of its type do not fit.
proof fn lemma_bad_param_is_no_match(params: StrMap<Param>, args: StrMap<Json>, i: int)
    requires
        params.wf(),
        0 <= i < params.keys().len(),
        params.keys().len() == params.values().len(),
        param_error(params, args, i) is Some,
    ensures
        !args_match(params, args),
{
    let k = params.keys()[i];
    params.lemma_at_position(i);
    assert(params.has(k));
    assert(params.at(k) == params.values()[i]);
    if params.values()[i].default is Some {
        lemma_checked_is_accepted(params.values()[i].ty@, params.values()[i].default->0@);
    }
    if args_match(params, args) {
        assert(effective_value(params, args, k) is Some);
    }
}

/// What is rendered before the steps by one record is rendered by every
/// record that holds as much.
proof fn lemma_parts_stay(
    known: Renderings,
    more: Renderings,
    body: TaskBody,
    context: JsonView,
    workdir: Seq<char>,
    paths: Seq<crate::task::task::OutputPath>,
    sources: Seq<String>,
    deps: Seq<crate::task::task::Dep>,
)
    requires
        kept(known, more),
        renders_to(known, body.workdir@, context, workdir),
        outputs_rendered(known, body.outputs.paths@, context, paths),
        texts_rendered(known, body.sources@, context, sources),
        deps_instantiated(known, body.deps.0@, context, deps),
    ensures
        renders_to(more, body.workdir@, context, workdir),
        outputs_rendered(more, body.outputs.paths@, context, paths),
        texts_rendered(more, body.sources@, context, sources),
        deps_instantiated(more, body.deps.0@, context, deps),
        head_renders(more, body, context),
{
    lemma_rendered_stays(known, more, body.workdir@, context);
    crate::task::task::lemma_outputs_stay(known, more, body.outputs.paths@, context, paths);
    crate::template::lemma_texts_stay(known, more, body.sources@, context, sources);
    crate::task::task::lemma_deps_stay(known, more, body.deps.0@, context, deps);
    assert forall|i: int| 0 <= i < body.deps.0@.len()
        implies crate::task::invocation::invocation_instantiates(
        more,
        (#[trigger] body.deps.0@[i]).invocation,
        context,
    ) by {
        assert(crate::task::task::dep_instantiated(more, body.deps.0@[i], context, deps[i]));
    }
}

/// A body that is instantiated by one record is instantiated by every
/// record that holds as much.
pub proof fn lemma_body_stays(
    known: Renderings,
    more: Renderings,
    body: TaskBody,
    context: JsonView,
    out: TaskBody,
)
    requires
        kept(known, more),
        body_instantiated(known, body, context, out),
    ensures
        body_instantiated(more, body, context, out),
{
    lemma_parts_stay(
        known,
        more,
        body,
        context,
        out.workdir@,
        out.outputs.paths@,
        out.sources@,
        out.deps.0@,
    );
    crate::command::lemma_steps_stay(known, more, body.steps@, context, out.steps@);
    if body.clean is Some {
        crate::command::lemma_steps_stay(known, more, body.clean->0@, context, out.clean->0@);
    }
}

impl Task {
    /// Checks the arguments of an invocation against the parameters: every
    /// argument has a parameter, and every parameter has a value of its
    /// type, its argument or else the default that it declares.
    pub fn check_args(&self, args: &StrMap<Json>) -> (r: Result<(), ArgumentsCheckError>)
        requires
            self.params.0.wf(),
            args.wf(),
        ensures
            r is Ok <==> args_match(self.params.0, *args),
            r matches Err(e) ==> check_error(self.params.0, *args, e@),
    {
        let params = &self.params.0;
        let mut i: usize = 0;
        proof {
            params.lemma_len();
        }
        while i < params.len()
            invariant
                i <= params.keys().len(),
                params == &self.params.0,
                params.wf(),
                params.keys().len() == params.values().len(),
                forall|j: int| 0 <= j < i ==> (#[trigger] param_error(*params, *args, j)) is None,
            decreases params.keys().len() - i,
        {
            let key = params.key_at(i);
            let param = params.value_at(i);
            if !args.contains_key(key.as_str()) {
                match &param.default {
                    None => {
                        proof {
                            assert(first_missing(*params, *args, i as int));
                            lemma_bad_param_is_no_match(*params, *args, i as int);
                        }
                        return Err(ArgumentsCheckError::NotFound { key: key.clone() });
                    },
                    Some(d) => match check_type(&param.ty, d) {
                        Ok(()) => {},
                        Err(err) => {
                            proof {
                                assert(first_missing(*params, *args, i as int));
                                lemma_bad_param_is_no_match(*params, *args, i as int);
                            }
                            return Err(ArgumentsCheckError::TypeError { key: key.clone(), err });
                        },
                    },
                }
            }
            i += 1;
        }
        let mut j: usize = 0;
        while j < args.len()
            invariant
                j <= args.keys().len(),
                params == &self.params.0,
                params.wf(),
                args.wf(),
                none_missing(*params, *args),
                forall|i: int| 0 <= i < j ==> (#[trigger] arg_error(*params, *args, i)) is None,
            decreases args.keys().len() - j,
        {
            let key = args.key_at(j);
            let value = args.value_at(j);
            proof {
                args.lemma_at_position(j as int);
            }
            match params.get(key.as_str()) {
                None => {
                    proof {
                        assert(first_bad_arg(*params, *args, j as int));
                        assert(args.has(key@) && !params.has(key@));
                    }
                    return Err(ArgumentsCheckError::NotFound { key: key.clone() });
                },
                Some(param) => match check_type(&param.ty, value) {
                    Ok(()) => {},
                    Err(err) => {
                        proof {
                            assert(first_bad_arg(*params, *args, j as int));
                            assert(effective_value(*params, *args, key@) == Some(value@));
                            assert(!accepts(params.at(key@).ty@, value@));
                        }
                        return Err(ArgumentsCheckError::TypeError { key: key.clone(), err });
                    },
                },
            }
            j += 1;
        }
        proof {
            assert forall|k: Seq<char>| args.has(k) implies params.has(k) by {
                let p = args.position_of(k);
                args.lemma_at_position(p);
                assert(arg_error(*params, *args, p) is None);
            }
            assert forall|k: Seq<char>| params.has(k) implies (#[trigger] effective_value(
                *params,
                *args,
                k,
            )) is Some && accepts(params.at(k).ty@, effective_value(*params, *args, k)->0) by {
                let i = params.position_of(k);
                params.lemma_at_position(i);
                assert(param_error(*params, *args, i) is None);
                if args.has(k) {
                    let p = args.position_of(k);
                    args.lemma_at_position(p);
                    assert(arg_error(*params, *args, p) is None);
                    lemma_checked_is_accepted(params.at(k).ty@, args.at(k)@);
                } else {
                    lemma_checked_is_accepted(params.at(k).ty@, params.at(k).default->0@);
                }
            }
        }
        Ok(())
    }

    /// The arguments as the templates see them: for each parameter, in the
    /// order of the declaration, its argument or else its declared default.
    /// A parameter that has neither is given `null`.
    pub fn effective_args(&self, args: &StrMap<Json>) -> (r: StrMap<Json>)
        requires
            self.params.0.wf(),
            args.wf(),
        ensures
            r.wf(),
            crate::task::map_members(r) == effective_members(self.params.0, *args),
    {
        let params = &self.params.0;
        let mut out: StrMap<Json> = StrMap::new();
        let mut i: usize = 0;
        proof {
            params.lemma_len();
        }
        while i < params.len()
            invariant
                i <= params.keys().len(),
                params == &self.params.0,
                params.wf(),
                args.wf(),
                out.wf(),
                params.keys().len() == params.values().len(),
                out.keys() == params.keys().take(i as int),
                out.values().len() == i,
                forall|j: int|
                    0 <= j < i ==> (#[trigger] out.values()[j])@ == effective_members(*params, *args)[j].1,
            decreases params.keys().len() - i,
        {
            let key = params.key_at(i);
            let param = params.value_at(i);
            proof {
                params.lemma_at_position(i as int);
            }
            let value = match args.get(key.as_str()) {
                Some(v) => v.duplicate(),
                None => match &param.default {
                    Some(d) => d.duplicate(),
                    None => Json::Null,
                },
            };
            proof {
                if out.has(key@) {
                    let j = choose|j: int| 0 <= j < out.keys().len() && out.keys()[j] == key@;
                    assert(params.keys()[j] == params.keys()[i as int]);
                }
            }
            let ghost before = out;
            let r = out.insert(key.clone(), value);
            assert(r is None);
            assert(params.keys().take(i + 1) =~= params.keys().take(i as int).push(params.keys()[i as int]));
            assert forall|j: int| 0 <= j < i + 1 implies (#[trigger] out.values()[j])@
                == effective_members(*params, *args)[j].1 by {
                if j < i {
                    assert(out.values()[j] == before.values()[j]);
                }
            }
            i += 1;
        }
        proof {
            assert(params.keys().take(params.keys().len() as int) =~= params.keys());
            out.lemma_len();
            assert(crate::task::map_members(out) =~= effective_members(*params, *args));
        }
        out
    }

    /// Makes a concrete unit of work of the task: checks `args` against the
    /// parameters, then renders every template of the body over the
    /// arguments, with the declared default for each parameter that has no
    /// argument, and `env`. A template without two opening braces in a row
    /// is taken over as it stands.
    ///
    /// The parts are rendered in this order, and the first that fails gives
    /// the error: the working directory, the outputs, the sources, the
    /// dependencies, the steps, the clean steps.
    pub fn instantiate(&self, handlebars: &mut Engine, args: &StrMap<Json>, env: &StrMap<Json>) -> (r:
        Result<InstantiatedTask, InstantiationError>)
        requires
            old(handlebars).wf(),
            self.wf(),
            args.wf(),
        ensures
            final(handlebars).wf(),
            kept(old(handlebars)@, final(handlebars)@),
            r is Ok <==> instantiable(final(handlebars)@, *self, *args, *env),
            match r {
                Ok(out) => {
                    &&& args_match(self.params.0, *args)
                    &&& out.name@ == self.name@
                    &&& body_instantiated(final(handlebars)@, self.body, task_context(*self, *args, *env), out.body)
                },
                Err(InstantiationError::ArgsError(e)) => !args_match(self.params.0, *args)
                    && check_error(self.params.0, *args, e@),
                Err(InstantiationError::TemplateRenderError(_)) => {
                    &&& args_match(self.params.0, *args)
                    &&& !head_renders(final(handlebars)@, self.body, task_context(*self, *args, *env))
                    &&& rendered(final(handlebars)@, self.body.workdir@, task_context(*self, *args, *env)) is Some
                        ==> outputs_render(
                        final(handlebars)@,
                        self.body.outputs.paths@,
                        task_context(*self, *args, *env),
                    )
                },
                Err(InstantiationError::OutputPathInstantiationError(_)) => {
                    &&& args_match(self.params.0, *args)
                    &&& rendered(final(handlebars)@, self.body.workdir@, task_context(*self, *args, *env)) is Some
                    &&& !outputs_render(final(handlebars)@, self.body.outputs.paths@, task_context(*self, *args, *env))
                },
                Err(InstantiationError::StepsInstantiationError(_)) => {
                    &&& args_match(self.params.0, *args)
                    &&& head_renders(final(handlebars)@, self.body, task_context(*self, *args, *env))
                    &&& !steps_render(final(handlebars)@, self.body.steps@, task_context(*self, *args, *env))
                },
                Err(InstantiationError::CleanStepsInstantiationError(_)) => {
                    &&& args_match(self.params.0, *args)
                    &&& head_renders(final(handlebars)@, self.body, task_context(*self, *args, *env))
                    &&& steps_render(final(handlebars)@, self.body.steps@, task_context(*self, *args, *env))
                    &&& self.body.clean is Some
                    &&& !steps_render(final(handlebars)@, self.body.clean->0@, task_context(*self, *args, *env))
                },
            },
    {
        match self.check_args(args) {
            Ok(()) => {},
            Err(e) => {
                return Err(InstantiationError::ArgsError(e));
            },
        }
        let effective = self.effective_args(args);
        let context = (BirbRenderContext { args: &effective, env }).to_json();
        assert(context@ == task_context(*self, *args, *env));
        let workdir = match render_text(handlebars, self.body.workdir.as_str(), &context) {
            Ok(w) => w,
            Err(e) => {
                return Err(InstantiationError::TemplateRenderError(e));
            },
        };
        let ghost t1 = handlebars@;
        let outputs = instantiate_outputs(&self.body.outputs.paths, handlebars, &context);
        let ghost t2 = handlebars@;
        proof {
            lemma_more_and_more(old(handlebars)@, t1, t2);
            lemma_rendered_stays(t1, t2, self.body.workdir@, context@);
        }
        let paths = match outputs {
            Ok(p) => p,
            Err(e) => {
                return Err(InstantiationError::OutputPathInstantiationError(e));
            },
        };
        let rendered_sources = render_all(handlebars, &self.body.sources, &context);
        let ghost t3 = handlebars@;
        proof {
            lemma_more_and_more(old(handlebars)@, t2, t3);
            lemma_rendered_stays(t2, t3, self.body.workdir@, context@);
            crate::task::task::lemma_outputs_stay(t2, t3, self.body.outputs.paths@, context@, paths@);
            assert(outputs_render(t3, self.body.outputs.paths@, context@));
        }
        let sources = match rendered_sources {
            Ok(s) => s,
            Err(e) => {
                return Err(InstantiationError::TemplateRenderError(e));
            },
        };
        let instantiated_deps = instantiate_deps(&self.body.deps.0, handlebars, &context);
        let ghost t4 = handlebars@;
        proof {
            lemma_more_and_more(old(handlebars)@, t3, t4);
            lemma_rendered_stays(t3, t4, self.body.workdir@, context@);
            crate::task::task::lemma_outputs_stay(t3, t4, self.body.outputs.paths@, context@, paths@);
            crate::template::lemma_texts_stay(t3, t4, self.body.sources@, context@, sources@);
            assert(outputs_render(t4, self.body.outputs.paths@, context@));
            assert(texts_render(t4, self.body.sources@, context@));
        }
        let deps = match instantiated_deps {
            Ok(d) => d,
            Err(e) => {
                return Err(InstantiationError::TemplateRenderError(e));
            },
        };
        proof {
            assert(deps_instantiate(t4, self.body.deps.0@, context@)) by {
                assert forall|i: int| 0 <= i < self.body.deps.0@.len()
                    implies crate::task::invocation::invocation_instantiates(
                    t4,
                    (#[trigger] self.body.deps.0@[i]).invocation,
                    context@,
                ) by {
                    assert(crate::task::task::dep_instantiated(
                        t4,
                        self.body.deps.0@[i],
                        context@,
                        deps@[i],
                    ));
                }
            }
        }
        let instantiated_steps = instantiate_steps(&self.body.steps, handlebars, &context);
        let ghost t5 = handlebars@;
        proof {
            lemma_more_and_more(old(handlebars)@, t4, t5);
            lemma_parts_stay(t4, t5, self.body, context@, workdir@, paths@, sources@, deps@);
        }
        let steps = match instantiated_steps {
            Ok(s) => s,
            Err(e) => {
                return Err(InstantiationError::StepsInstantiationError(e));
            },
        };
        let clean = match &self.body.clean {
            Some(clean_steps) => {
                let instantiated_clean = instantiate_steps(clean_steps, handlebars, &context);
                proof {
                    lemma_more_and_more(old(handlebars)@, t5, handlebars@);
                    lemma_parts_stay(t5, handlebars@, self.body, context@, workdir@, paths@, sources@, deps@);
                    crate::command::lemma_steps_stay(t5, handlebars@, self.body.steps@, context@, steps@);
                    assert(steps_render(handlebars@, self.body.steps@, context@));
                }
                match instantiated_clean {
                    Ok(s) => Some(s),
                    Err(e) => {
                        return Err(InstantiationError::CleanStepsInstantiationError(e));
                    },
                }
            },
            None => None,
        };
        Ok(
            InstantiatedTask {
                name: self.name.clone(),
                body: TaskBody {
                    env: crate::task::copy_env(&self.body.env),
                    workdir,
                    phony: self.body.phony,
                    outputs: Outputs { paths },
                    sources,
                    deps: Deps(deps),
                    steps,
                    clean,
                },
            },
        )
    }
}

} // verus!
