//! The steps of a recipe.

use crate::json::{Json, JsonView};
use crate::template::{
    lemma_more_and_more, lemma_rendered_stays, render_text, rendered, renders_to,
};
use crate::template::{kept, Engine, RenderFailure, Renderings};
use vstd::prelude::*;

verus! {

/// One step of a recipe.
#[derive(Debug)]
pub enum Command {
    /// A script for the shell, or for the interpreter that its first line names.
    Shell(String),
}

/// Why a step could not be instantiated.
#[derive(Debug)]
pub enum CommandInstantiationError {
    TemplateRenderError(RenderFailure),
}

impl Command {
    /// The script of the step.
    pub open spec fn script(&self) -> Seq<char> {
        match self {
            Command::Shell(script) => script@,
        }
    }

    /// The text of the script.
    pub fn as_str(&self) -> (r: &str)
        ensures
            r@ == self.script(),
    {
        match self {
            Command::Shell(script) => script.as_str(),
        }
    }

    pub fn duplicate(&self) -> (r: Self)
        ensures
            r.script() == self.script(),
    {
        match self {
            Command::Shell(script) => Command::Shell(script.clone()),
        }
    }

    /// The step with its script rendered over `context`.
    pub fn instantiate(&self, handlebars: &mut Engine, context: &Json) -> (r: Result<
        Self,
        CommandInstantiationError,
    >)
        requires
            old(handlebars).wf(),
        ensures
            final(handlebars).wf(),
            kept(old(handlebars)@, final(handlebars)@),
            match r {
                Ok(c) => renders_to(final(handlebars)@, self.script(), context@, c.script()),
                Err(_) => rendered(final(handlebars)@, self.script(), context@) is None,
            },
    {
        match self {
            Command::Shell(script) => match render_text(handlebars, script.as_str(), context) {
                Ok(text) => Ok(Command::Shell(text)),
                Err(e) => Err(CommandInstantiationError::TemplateRenderError(e)),
            },
        }
    }
}

/// The steps of a list rendered one by one: `out` holds the rendered script
/// of each step of `steps`.
pub open spec fn steps_rendered(
    engine: Renderings,
    steps: Seq<Command>,
    context: JsonView,
    out: Seq<Command>,
) -> bool {
    &&& out.len() == steps.len()
    &&& forall|i: int|
        0 <= i < steps.len() ==> renders_to(engine, #[trigger] steps[i].script(), context, out[i].script())
}

/// Steps that are rendered by one record are rendered by every record that
/// holds as much.
pub proof fn lemma_steps_stay(
    known: Renderings,
    more: Renderings,
    steps: Seq<Command>,
    context: JsonView,
    out: Seq<Command>,
)
    requires
        kept(known, more),
        steps_rendered(known, steps, context, out),
    ensures
        steps_rendered(more, steps, context, out),
{
    assert forall|i: int| 0 <= i < steps.len() implies renders_to(
        more,
        #[trigger] steps[i].script(),
        context,
        out[i].script(),
    ) by {
        lemma_rendered_stays(known, more, steps[i].script(), context);
    }
}

/// Every step of the list renders.
pub open spec fn steps_render(engine: Renderings, steps: Seq<Command>, context: JsonView) -> bool {
    forall|i: int| 0 <= i < steps.len() ==> rendered(engine, #[trigger] steps[i].script(), context) is Some
}

/// The steps of a recipe with their scripts rendered over `context`, or the
/// error of the first step that does not render.
pub fn instantiate_steps(steps: &Vec<Command>, handlebars: &mut Engine, context: &Json) -> (r:
    Result<Vec<Command>, CommandInstantiationError>)
    requires
        old(handlebars).wf(),
    ensures
        final(handlebars).wf(),
        kept(old(handlebars)@, final(handlebars)@),
        match r {
            Ok(out) => steps_rendered(final(handlebars)@, steps@, context@, out@),
            Err(_) => !steps_render(final(handlebars)@, steps@, context@),
        },
{
    let mut out: Vec<Command> = Vec::new();
    let mut i: usize = 0;
    while i < steps.len()
        invariant
            handlebars.wf(),
            kept(old(handlebars)@, handlebars@),
            i <= steps.len(),
            out@.len() == i,
            forall|j: int|
                0 <= j < i ==> renders_to(
                    handlebars@,
                    #[trigger] steps@[j].script(),
                    context@,
                    out@[j].script(),
                ),
        decreases steps.len() - i,
    {
        let ghost before = handlebars@;
        let step = steps[i].instantiate(handlebars, context);
        proof {
            lemma_more_and_more(old(handlebars)@, before, handlebars@);
            assert forall|j: int| 0 <= j < i implies renders_to(
                handlebars@,
                #[trigger] steps@[j].script(),
                context@,
                out@[j].script(),
            ) by {
                lemma_rendered_stays(before, handlebars@, steps@[j].script(), context@);
            }
        }
        match step {
            Ok(c) => {
                out.push(c);
            },
            Err(e) => {
                assert(rendered(handlebars@, steps@[i as int].script(), context@) is None);
                return Err(e);
            },
        }
        i += 1;
    }
    Ok(out)
}

/// A copy of a list of steps.
pub fn copy_steps(steps: &Vec<Command>) -> (r: Vec<Command>)
    ensures
        r@.len() == steps@.len(),
        forall|i: int| 0 <= i < steps@.len() ==> r@[i].script() == steps@[i].script(),
{
    let mut out: Vec<Command> = Vec::new();
    let mut i: usize = 0;
    while i < steps.len()
        invariant
            i <= steps.len(),
            out@.len() == i,
            forall|j: int| 0 <= j < i ==> out@[j].script() == steps@[j].script(),
        decreases steps.len() - i,
    {
        out.push(steps[i].duplicate());
        i += 1;
    }
    out
}

} // verus!
