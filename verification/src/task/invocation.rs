//! A task together with the arguments it is called with.

use crate::json::{
    json_members_view, json_of_text, json_seq_view, parse_json, Json, JsonView,
};
use crate::strmap::StrMap;
use crate::task::task_ref::{ref_instantiated, ref_name, ResolvedRef, TaskRef, TaskfileId};
use crate::template::{lemma_more_and_more, lemma_rendered_stays, render_text, rendered};
use crate::template::{kept, Engine, RenderFailure, Renderings};
use vstd::prelude::*;

verus! {

/// A reference to a task with the arguments for its parameters. Arguments
/// are found by name; the order in which they were given does not tell two
/// invocations apart.
#[derive(Debug)]
pub struct TaskInvocation<Ref> {
    pub reference: Ref,
    pub args: StrMap<Json>,
}

/// An invocation whose reference names the defining taskfile.
pub type ResolvedTaskInvocation = TaskInvocation<ResolvedRef>;

/// The arguments of an invocation: each name with its value.
pub open spec fn args_view(args: StrMap<Json>) -> Map<Seq<char>, JsonView> {
    Map::new(|k: Seq<char>| args.has(k), |k: Seq<char>| args.at(k)@)
}

/// What identifies a node of the dependency graph: the defining taskfile,
/// the task's name, and the arguments.
pub open spec fn resolved_view(inv: TaskInvocation<ResolvedRef>) -> (
    Seq<char>,
    Seq<char>,
    Map<Seq<char>, JsonView>,
) {
    (inv.reference.taskfile@, inv.reference.name@, args_view(inv.args))
}

/// No string of a value holds two opening braces in a row.
pub open spec fn is_plain_json(v: JsonView) -> bool
    decreases v,
{
    match v {
        JsonView::String(s) => !crate::text::occurs_in(crate::template::marker(), s),
        JsonView::Array(items) => forall|i: int| 0 <= i < items.len() ==> is_plain_json(#[trigger] items[i]),
        JsonView::Object(members) => forall|i: int|
            0 <= i < members.len() ==> is_plain_json((#[trigger] members[i]).1),
        _ => true,
    }
}

/// A value without two opening braces in a row in any of its strings can
/// be instantiated.
pub proof fn lemma_plain_json_instantiates(engine: Renderings, v: JsonView, context: JsonView)
    requires
        is_plain_json(v),
    ensures
        instantiated_json(engine, v, context) is Some,
    decreases v,
{
    match v {
        JsonView::Array(items) => {
            assert forall|i: int| 0 <= i < items.len() implies instantiated_json(
                engine,
                #[trigger] items[i],
                context,
            ) is Some by {
                lemma_plain_json_instantiates(engine, items[i], context);
            }
        },
        JsonView::Object(members) => {
            assert forall|i: int| 0 <= i < members.len() implies instantiated_json(
                engine,
                (#[trigger] members[i]).1,
                context,
            ) is Some by {
                lemma_plain_json_instantiates(engine, members[i].1, context);
            }
        },
        _ => {},
    }
}

/// What a templated value becomes over a context: a string is rendered and,
/// where the rendered text is JSON, replaced by the value that the text
/// stands for; arrays and objects are entered; any other value stays.
/// `None` where some string does not render.
pub open spec fn instantiated_json(engine: Renderings, v: JsonView, context: JsonView) -> Option<
    JsonView,
>
    decreases v,
{
    match v {
        JsonView::String(s) => match rendered(engine, s, context) {
            Some(text) => Some(
                match json_of_text(text) {
                    Some(j) => j,
                    None => JsonView::String(text),
                },
            ),
            None => None,
        },
        JsonView::Array(items) => if forall|i: int|
            0 <= i < items.len() ==> instantiated_json(engine, #[trigger] items[i], context) is Some {
            Some(
                JsonView::Array(
                    Seq::new(
                        items.len(),
                        |i: int|
                            if 0 <= i < items.len() {
                                instantiated_json(engine, items[i], context)->0
                            } else {
                                JsonView::Null
                            },
                    ),
                ),
            )
        } else {
            None
        },
        JsonView::Object(members) => if forall|i: int|
            0 <= i < members.len() ==> instantiated_json(engine, (#[trigger] members[i]).1, context) is Some {
            Some(
                JsonView::Object(
                    Seq::new(
                        members.len(),
                        |i: int|
                            if 0 <= i < members.len() {
                                (members[i].0, instantiated_json(engine, members[i].1, context)->0)
                            } else {
                                (Seq::empty(), JsonView::Null)
                            },
                    ),
                ),
            )
        } else {
            None
        },
        _ => Some(v),
    }
}

/// Renders the strings inside a value over `context`; see
/// [`instantiated_json`]. Fails with the error of the first string that does
/// not render.
pub fn instantiate_json_value(handlebars: &mut Engine, value: &Json, context: &Json) -> (r:
    Result<Json, RenderFailure>)
    requires
        old(handlebars).wf(),
    ensures
        final(handlebars).wf(),
        kept(old(handlebars)@, final(handlebars)@),
        match r {
            Ok(j) => instantiated_json(final(handlebars)@, value@, context@) == Some(j@),
            Err(_) => instantiated_json(final(handlebars)@, value@, context@) is None,
        },
    decreases value,
{
    match value {
        Json::String(s) => match render_text(handlebars, s.as_str(), context) {
            Ok(text) => match parse_json(text.as_str()) {
                Some(j) => Ok(j),
                None => Ok(Json::String(text)),
            },
            Err(e) => Err(e),
        },
        Json::Array(items) => {
            proof {
                Json::lemma_array_view(*items);
            }
            let mut out: Vec<Json> = Vec::new();
            let mut i: usize = 0;
            while i < items.len()
                invariant
                    handlebars.wf(),
                    kept(old(handlebars)@, handlebars@),
                    i <= items.len(),
                    *value == Json::Array(*items),
                    value@ == JsonView::Array(json_seq_view(items@)),
                    out@.len() == i,
                    forall|j: int|
                        0 <= j < i ==> instantiated_json(handlebars@, #[trigger] items@[j]@, context@)
                            == Some(out@[j]@),
                decreases items.len() - i,
            {
                assert(value->Array_0 == *items);
                let ghost before = handlebars@;
                let item = instantiate_json_value(handlebars, &items[i], context);
                proof {
                    lemma_more_and_more(old(handlebars)@, before, handlebars@);
                    assert forall|j: int| 0 <= j < i implies instantiated_json(
                        handlebars@,
                        #[trigger] items@[j]@,
                        context@,
                    ) == Some(out@[j]@) by {
                        lemma_json_stays(before, handlebars@, items@[j]@, context@);
                    }
                }
                match item {
                    Ok(j) => {
                        out.push(j);
                    },
                    Err(e) => {
                        assert(json_seq_view(items@)[i as int] == items@[i as int]@);
                        return Err(e);
                    },
                }
                i += 1;
            }
            proof {
                Json::lemma_array_view(out);
                let src = json_seq_view(items@);
                assert forall|j: int| 0 <= j < src.len() implies instantiated_json(
                    handlebars@,
                    #[trigger] src[j],
                    context@,
                ) is Some by {
                    assert(src[j] == items@[j]@);
                }
                assert(instantiated_json(handlebars@, value@, context@)->0->Array_0 =~= json_seq_view(
                    out@,
                ));
            }
            Ok(Json::Array(out))
        },
        Json::Object(members) => {
            proof {
                Json::lemma_object_view(*members);
            }
            let mut out: Vec<(String, Json)> = Vec::new();
            let mut i: usize = 0;
            while i < members.len()
                invariant
                    handlebars.wf(),
                    kept(old(handlebars)@, handlebars@),
                    i <= members.len(),
                    *value == Json::Object(*members),
                    value@ == JsonView::Object(json_members_view(members@)),
                    out@.len() == i,
                    forall|j: int|
                        0 <= j < i ==> out@[j].0@ == members@[j].0@ && instantiated_json(
                            handlebars@,
                            (#[trigger] members@[j]).1@,
                            context@,
                        ) == Some(out@[j].1@),
                decreases members.len() - i,
            {
                assert(value->Object_0 == *members);
                let ghost before = handlebars@;
                let member = instantiate_json_value(handlebars, &members[i].1, context);
                proof {
                    lemma_more_and_more(old(handlebars)@, before, handlebars@);
                    assert forall|j: int| 0 <= j < i implies out@[j].0@ == members@[j].0@
                        && instantiated_json(handlebars@, (#[trigger] members@[j]).1@, context@) == Some(
                        out@[j].1@,
                    ) by {
                        lemma_json_stays(before, handlebars@, members@[j].1@, context@);
                    }
                }
                match member {
                    Ok(j) => {
                        out.push((members[i].0.clone(), j));
                    },
                    Err(e) => {
                        assert(json_members_view(members@)[i as int].1 == members@[i as int].1@);
                        return Err(e);
                    },
                }
                i += 1;
            }
            proof {
                Json::lemma_object_view(out);
                let src = json_members_view(members@);
                assert forall|j: int| 0 <= j < src.len() implies instantiated_json(
                    handlebars@,
                    (#[trigger] src[j]).1,
                    context@,
                ) is Some by {
                    assert(src[j].1 == members@[j].1@);
                }
                assert(instantiated_json(handlebars@, value@, context@)->0->Object_0
                    =~= json_members_view(out@));
            }
            Ok(Json::Object(out))
        },
        Json::Null => Ok(Json::Null),
        Json::Bool(b) => Ok(Json::Bool(*b)),
        Json::Number(n) => Ok(Json::Number(n.clone())),
    }
}

/// A copy of a map of values: the same names in the same order, each with
/// a copy of its value.
pub fn copy_args(args: &StrMap<Json>) -> (r: StrMap<Json>)
    requires
        args.wf(),
    ensures
        r.wf(),
        r.keys() == args.keys(),
        r.values().len() == args.values().len(),
        forall|i: int| 0 <= i < args.values().len() ==> (#[trigger] r.values()[i])@ == args.values()[i]@,
        args_view(r) == args_view(*args),
{
    let mut out: StrMap<Json> = StrMap::new();
    let mut i: usize = 0;
    while i < args.len()
        invariant
            i <= args.keys().len(),
            args.wf(),
            out.wf(),
            out.keys() == args.keys().take(i as int),
            out.values().len() == i,
            forall|j: int| 0 <= j < i ==> (#[trigger] out.values()[j])@ == args.values()[j]@,
        decreases args.keys().len() - i,
    {
        let key = args.key_at(i).clone();
        let value = args.value_at(i).duplicate();
        proof {
            if out.has(key@) {
                let j = choose|j: int| 0 <= j < out.keys().len() && out.keys()[j] == key@;
                assert(args.keys()[j] == args.keys()[i as int]);
            }
        }
        let old = out.insert(key, value);
        assert(old is None);
        assert(args.keys().take(i + 1) =~= args.keys().take(i as int).push(args.keys()[i as int]));
        i += 1;
    }
    proof {
        assert(args.keys().take(args.keys().len() as int) =~= args.keys());
        lemma_same_entries(out, *args);
    }
    out
}

/// What a map holds after a value has been put under a name.
pub proof fn lemma_insert_args(before: StrMap<Json>, after: StrMap<Json>, key: Seq<char>, value: Json)
    requires
        after.has(key),
        after.at(key) == value,
        forall|k: Seq<char>| k != key ==> (after.has(k) <==> before.has(k)),
        forall|k: Seq<char>| k != key && before.has(k) ==> after.at(k) == before.at(k),
    ensures
        args_view(after) == args_view(before).insert(key, value@),
{
    assert(args_view(after) =~= args_view(before).insert(key, value@));
}

/// Two maps with the same names in the same order, and equal values under
/// them, hold the same arguments.
pub proof fn lemma_same_entries(a: StrMap<Json>, b: StrMap<Json>)
    requires
        a.wf(),
        b.wf(),
        a.keys() == b.keys(),
        forall|i: int| 0 <= i < b.values().len() ==> (#[trigger] a.values()[i])@ == b.values()[i]@,
    ensures
        args_view(a) == args_view(b),
{
    assert forall|k: Seq<char>| a.has(k) implies a.at(k)@ == b.at(k)@ by {
        let i = a.position_of(k);
        a.lemma_at_position(i);
        b.lemma_at_position(i);
    }
    assert(args_view(a) =~= args_view(b));
}

/// Whether two maps hold the same arguments: the same names, and equal
/// values under them.
pub fn args_equal(a: &StrMap<Json>, b: &StrMap<Json>) -> (r: bool)
    requires
        a.wf(),
        b.wf(),
    ensures
        r == (args_view(*a) == args_view(*b)),
{
    let mut i: usize = 0;
    while i < a.len()
        invariant
            i <= a.keys().len(),
            a.wf(),
            b.wf(),
            forall|j: int|
                0 <= j < i ==> b.has(#[trigger] a.keys()[j]) && b.at(a.keys()[j])@ == a.values()[j]@,
        decreases a.keys().len() - i,
    {
        proof {
            a.lemma_at_position(i as int);
        }
        match b.get(a.key_at(i).as_str()) {
            Some(v) => {
                if !a.value_at(i).equals(v) {
                    proof {
                        let k = a.keys()[i as int];
                        assert(args_view(*a)[k] != args_view(*b)[k]);
                    }
                    return false;
                }
            },
            None => {
                proof {
                    let k = a.keys()[i as int];
                    assert(args_view(*a).dom().contains(k));
                    assert(!args_view(*b).dom().contains(k));
                }
                return false;
            },
        }
        i += 1;
    }
    let mut j: usize = 0;
    while j < b.len()
        invariant
            j <= b.keys().len(),
            a.wf(),
            b.wf(),
            forall|k: int| 0 <= k < j ==> a.has(#[trigger] b.keys()[k]),
        decreases b.keys().len() - j,
    {
        if !a.contains_key(b.key_at(j).as_str()) {
            proof {
                let k = b.keys()[j as int];
                b.lemma_at_position(j as int);
                assert(args_view(*b).dom().contains(k));
                assert(!args_view(*a).dom().contains(k));
            }
            return false;
        }
        j += 1;
    }
    proof {
        assert forall|k: Seq<char>| a.has(k) <==> b.has(k) by {
            if a.has(k) {
                let p = a.position_of(k);
                a.lemma_at_position(p);
            }
            if b.has(k) {
                let p = b.position_of(k);
                b.lemma_at_position(p);
            }
        }
        assert forall|k: Seq<char>| a.has(k) implies a.at(k)@ == b.at(k)@ by {
            let p = a.position_of(k);
            a.lemma_at_position(p);
        }
        assert(args_view(*a) =~= args_view(*b));
    }
    true
}

/// `out` holds the names of `args` in their order, each with its value
/// instantiated.
pub open spec fn args_instantiated(
    engine: Renderings,
    args: StrMap<Json>,
    context: JsonView,
    out: StrMap<Json>,
) -> bool {
    &&& out.wf()
    &&& out.keys() == args.keys()
    &&& out.values().len() == args.values().len()
    &&& forall|i: int|
        0 <= i < args.values().len() ==> instantiated_json(
            engine,
            (#[trigger] args.values()[i])@,
            context,
        ) == Some(out.values()[i]@)
}

/// Every value of `args` can be instantiated.
pub open spec fn args_instantiate(engine: Renderings, args: StrMap<Json>, context: JsonView) -> bool {
    forall|i: int|
        0 <= i < args.values().len() ==> instantiated_json(
            engine,
            (#[trigger] args.values()[i])@,
            context,
        ) is Some
}

/// `out` is `inv` with the name of its reference rendered and its arguments
/// instantiated.
pub open spec fn invocation_instantiated(
    engine: Renderings,
    inv: TaskInvocation<TaskRef>,
    context: JsonView,
    out: TaskInvocation<TaskRef>,
) -> bool {
    &&& ref_instantiated(engine, inv.reference@, context, out.reference@)
    &&& args_instantiated(engine, inv.args, context, out.args)
}

/// The name of the reference renders and every argument can be instantiated.
pub open spec fn invocation_instantiates(
    engine: Renderings,
    inv: TaskInvocation<TaskRef>,
    context: JsonView,
) -> bool {
    &&& rendered(engine, ref_name(inv.reference@), context) is Some
    &&& args_instantiate(engine, inv.args, context)
}

/// What a value becomes by one record, it becomes by every record that
/// holds as much.
pub proof fn lemma_json_stays(known: Renderings, more: Renderings, v: JsonView, context: JsonView)
    requires
        kept(known, more),
        instantiated_json(known, v, context) is Some,
    ensures
        instantiated_json(more, v, context) == instantiated_json(known, v, context),
    decreases v,
{
    match v {
        JsonView::String(s) => {
            lemma_rendered_stays(known, more, s, context);
        },
        JsonView::Array(items) => {
            assert forall|i: int| 0 <= i < items.len() implies instantiated_json(
                more,
                #[trigger] items[i],
                context,
            ) == instantiated_json(known, items[i], context) by {
                lemma_json_stays(known, more, items[i], context);
            }
            assert(instantiated_json(more, v, context)->0->Array_0 =~= instantiated_json(
                known,
                v,
                context,
            )->0->Array_0);
        },
        JsonView::Object(members) => {
            assert forall|i: int| 0 <= i < members.len() implies instantiated_json(
                more,
                (#[trigger] members[i]).1,
                context,
            ) == instantiated_json(known, members[i].1, context) by {
                lemma_json_stays(known, more, members[i].1, context);
            }
            assert(instantiated_json(more, v, context)->0->Object_0 =~= instantiated_json(
                known,
                v,
                context,
            )->0->Object_0);
        },
        _ => {},
    }
}

/// An invocation that is instantiated by one record is instantiated by
/// every record that holds as much.
pub proof fn lemma_invocation_stays(
    known: Renderings,
    more: Renderings,
    inv: TaskInvocation<TaskRef>,
    context: JsonView,
    out: TaskInvocation<TaskRef>,
)
    requires
        kept(known, more),
        invocation_instantiated(known, inv, context, out),
    ensures
        invocation_instantiated(more, inv, context, out),
{
    lemma_rendered_stays(known, more, ref_name(inv.reference@), context);
    assert forall|i: int| 0 <= i < inv.args.values().len() implies instantiated_json(
        more,
        (#[trigger] inv.args.values()[i])@,
        context,
    ) == Some(out.args.values()[i]@) by {
        lemma_json_stays(known, more, inv.args.values()[i]@, context);
    }
}

/// The values of a map instantiated one by one, under their names.
pub fn instantiate_args(handlebars: &mut Engine, args: &StrMap<Json>, context: &Json) -> (r:
    Result<StrMap<Json>, RenderFailure>)
    requires
        old(handlebars).wf(),
        args.wf(),
    ensures
        final(handlebars).wf(),
        kept(old(handlebars)@, final(handlebars)@),
        match r {
            Ok(out) => args_instantiated(final(handlebars)@, *args, context@, out),
            Err(_) => !args_instantiate(final(handlebars)@, *args, context@),
        },
{
    let mut out: StrMap<Json> = StrMap::new();
    let mut i: usize = 0;
    while i < args.len()
        invariant
            handlebars.wf(),
            kept(old(handlebars)@, handlebars@),
            i <= args.keys().len(),
            args.wf(),
            out.wf(),
            out.keys() == args.keys().take(i as int),
            out.values().len() == i,
            forall|j: int|
                0 <= j < i ==> instantiated_json(handlebars@, (#[trigger] args.values()[j])@, context@)
                    == Some(out.values()[j]@),
        decreases args.keys().len() - i,
    {
        let key = args.key_at(i).clone();
        let ghost before = handlebars@;
        let instantiated = instantiate_json_value(handlebars, args.value_at(i), context);
        proof {
            lemma_more_and_more(old(handlebars)@, before, handlebars@);
            assert forall|j: int| 0 <= j < i implies instantiated_json(
                handlebars@,
                (#[trigger] args.values()[j])@,
                context@,
            ) == Some(out.values()[j]@) by {
                lemma_json_stays(before, handlebars@, args.values()[j]@, context@);
            }
        }
        let value = match instantiated {
            Ok(v) => v,
            Err(e) => {
                assert(instantiated_json(handlebars@, args.values()[i as int]@, context@) is None);
                return Err(e);
            },
        };
        proof {
            if out.has(key@) {
                let j = choose|j: int| 0 <= j < out.keys().len() && out.keys()[j] == key@;
                assert(args.keys()[j] == args.keys()[i as int]);
            }
        }
        let old = out.insert(key, value);
        assert(old is None);
        assert(args.keys().take(i + 1) =~= args.keys().take(i as int).push(args.keys()[i as int]));
        i += 1;
    }
    assert(args.keys().take(args.keys().len() as int) =~= args.keys());
    Ok(out)
}

impl<Ref> TaskInvocation<Ref> {
    /// An invocation without arguments.
    pub fn no_args(reference: Ref) -> (r: Self)
        ensures
            r.reference == reference,
            r.args.wf(),
            r.args.keys() =~= Seq::empty(),
    {
        TaskInvocation { reference, args: StrMap::new() }
    }
}

impl TaskInvocation<TaskRef> {
    /// The invocation with the name of its reference rendered and its
    /// arguments instantiated over `context`.
    pub fn instantiate(&self, handlebars: &mut Engine, context: &Json) -> (r: Result<
        Self,
        RenderFailure,
    >)
        requires
            old(handlebars).wf(),
            self.args.wf(),
        ensures
            final(handlebars).wf(),
            kept(old(handlebars)@, final(handlebars)@),
            match r {
                Ok(out) => invocation_instantiated(final(handlebars)@, *self, context@, out),
                Err(_) => !invocation_instantiates(final(handlebars)@, *self, context@),
            },
    {
        let reference = match self.reference.instantiate(handlebars, context) {
            Ok(r) => r,
            Err(e) => {
                return Err(e);
            },
        };
        let ghost before = handlebars@;
        let instantiated = instantiate_args(handlebars, &self.args, context);
        proof {
            lemma_more_and_more(old(handlebars)@, before, handlebars@);
            lemma_rendered_stays(before, handlebars@, ref_name(self.reference@), context@);
        }
        let args = match instantiated {
            Ok(a) => a,
            Err(e) => {
                return Err(e);
            },
        };
        Ok(TaskInvocation { reference, args })
    }

    pub fn duplicate(&self) -> (r: Self)
        requires
            self.args.wf(),
        ensures
            r.reference@ == self.reference@,
            r.args.wf(),
            r.args.keys() == self.args.keys(),
            args_view(r.args) == args_view(self.args),
    {
        TaskInvocation { reference: self.reference.duplicate(), args: copy_args(&self.args) }
    }

    /// The invocation as one of the task that `tasks` defines: the alias, if
    /// there is one, gives way to the id of `tasks`.
    pub fn as_resolved(&self, tasks: &TaskfileId) -> (r: TaskInvocation<ResolvedRef>)
        requires
            self.args.wf(),
        ensures
            r.args.wf(),
            r.reference.taskfile@ == tasks@,
            r.reference.name@ == ref_name(self.reference@),
            args_view(r.args) == args_view(self.args),
            r.args.keys() == self.args.keys(),
            r.args.values().len() == self.args.values().len(),
            forall|i: int|
                0 <= i < self.args.values().len() ==> (#[trigger] r.args.values()[i])@
                    == self.args.values()[i]@,
    {
        TaskInvocation {
            reference: ResolvedRef { taskfile: tasks.duplicate(), name: self.reference.name().clone() },
            args: copy_args(&self.args),
        }
    }
}

impl TaskInvocation<ResolvedRef> {
    pub fn duplicate(&self) -> (r: Self)
        requires
            self.args.wf(),
        ensures
            r.args.wf(),
            resolved_view(r) == resolved_view(*self),
    {
        TaskInvocation { reference: self.reference.duplicate(), args: copy_args(&self.args) }
    }

    /// Whether two invocations are the same node of a dependency graph.
    pub fn equals(&self, other: &TaskInvocation<ResolvedRef>) -> (r: bool)
        requires
            self.args.wf(),
            other.args.wf(),
        ensures
            r == (resolved_view(*self) == resolved_view(*other)),
    {
        self.reference.equals(&other.reference) && args_equal(&self.args, &other.args)
    }
}

} // verus!
