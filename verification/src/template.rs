//! Rendering of templated text.
//!
//! `handlebars` does the rendering and is not verified here. An engine may
//! hold helpers of any kind, so nothing is taken on trust of what it makes
//! of a template that holds expressions. The library keeps a record of
//! what it has rendered, and renders no template twice over the same
//! context: what this library proves about rendered text, it proves of
//! that record.

use crate::json::{to_serde, Json, JsonView};
use crate::text::{find_text, occurs_in, text_eq};
use handlebars::Handlebars;
use vstd::prelude::*;

verus! {

/// `handlebars::Handlebars`, the engine, as a type whose inside is not seen.
#[verifier::external_type_specification]
#[verifier::external_body]
pub struct ExHandlebars<'reg>(Handlebars<'reg>);

/// Whether an engine is in development mode. In that mode `handlebars`
/// reads the templates that were registered from files anew at every
/// rendering, so that what it renders depends on what is on disk.
pub uninterp spec fn in_dev_mode(engine: Handlebars<'static>) -> bool;

/// `Handlebars::dev_mode`: whether the engine is in development mode.
#[verifier::external_body]
fn dev_mode(engine: &Handlebars<'static>) -> (r: bool)
    ensures
        r == in_dev_mode(*engine),
{
    engine.dev_mode()
}

/// The two braces that open every expression, block and comment of a template.
pub open spec fn marker() -> Seq<char> {
    seq!['{', '{']
}

/// `Handlebars::render_template`, on an engine that is not in development
/// mode: the text of a template over a context, or the engine's message
/// where it reports an error. By the grammar of `handlebars`, text without
/// two opening braces in a row is raw text and is rendered as it stands.
/// Of any other template nothing is claimed.
#[verifier::external_body]
fn render(engine: &Handlebars<'static>, template: &str, context: &Json) -> (r: Result<String, String>)
    requires
        !in_dev_mode(*engine),
    ensures
        !occurs_in(marker(), template@) ==> r is Ok && r->Ok_0@ == template@,
{
    engine.render_template(template, &to_serde(context)).map_err(|e| e.to_string())
}

/// Why a template could not be rendered: the message of the engine.
#[derive(Debug)]
pub struct RenderFailure {
    pub message: String,
}

/// What is on record of the templates that hold expressions: for a
/// template and a context, the text that the engine rendered, or `None`
/// where it reported an error.
pub type Renderings = Map<(Seq<char>, JsonView), Option<Seq<char>>>;

/// One rendering on record.
struct Rendering {
    template: String,
    context: Json,
    outcome: Result<String, String>,
}

impl Rendering {
    spec fn key(&self) -> (Seq<char>, JsonView) {
        (self.template@, self.context@)
    }

    spec fn text(&self) -> Option<Seq<char>> {
        match self.outcome {
            Ok(text) => Some(text@),
            Err(_) => None,
        }
    }
}

/// The record as a map.
spec fn recorded(seen: Seq<Rendering>) -> Renderings {
    Map::new(
        |k: (Seq<char>, JsonView)| exists|i: int| 0 <= i < seen.len() && (#[trigger] seen[i]).key() == k,
        |k: (Seq<char>, JsonView)| seen[choose|i: int| 0 <= i < seen.len()
            && (#[trigger] seen[i]).key() == k].text(),
    )
}

/// No template is on record twice over the same context.
spec fn distinct(seen: Seq<Rendering>) -> bool {
    forall|i: int, j: int| 0 <= i < j < seen.len() ==> (#[trigger] seen[i]).key() != (#[trigger] seen[j]).key()
}

/// An entry of the record is in the map, with its text.
proof fn lemma_recorded(seen: Seq<Rendering>, i: int)
    requires
        distinct(seen),
        0 <= i < seen.len(),
    ensures
        recorded(seen).dom().contains(seen[i].key()),
        recorded(seen)[seen[i].key()] == seen[i].text(),
{
    let k = seen[i].key();
    let j = choose|j: int| 0 <= j < seen.len() && (#[trigger] seen[j]).key() == k;
    assert(j == i);
}

/// The record with one more entry holds what it held, and the new entry.
proof fn lemma_recorded_more(seen: Seq<Rendering>, entry: Rendering)
    requires
        distinct(seen),
        !recorded(seen).dom().contains(entry.key()),
    ensures
        distinct(seen.push(entry)),
        recorded(seen.push(entry)) == recorded(seen).insert(entry.key(), entry.text()),
{
    let more = seen.push(entry);
    assert forall|i: int, j: int| 0 <= i < j < more.len() implies (#[trigger] more[i]).key() != (
    #[trigger] more[j]).key() by {
        if j == seen.len() {
            assert(seen[i].key() != entry.key());
        }
    }
    assert forall|k: (Seq<char>, JsonView)| recorded(more).dom().contains(k) <==> recorded(seen).insert(
        entry.key(),
        entry.text(),
    ).dom().contains(k) by {
        if recorded(more).dom().contains(k) {
            let i = choose|i: int| 0 <= i < more.len() && (#[trigger] more[i]).key() == k;
            if i < seen.len() {
                assert(seen[i].key() == k);
            }
        }
        if recorded(seen).dom().contains(k) {
            let i = choose|i: int| 0 <= i < seen.len() && (#[trigger] seen[i]).key() == k;
            assert(more[i].key() == k);
        }
        assert(more[seen.len() as int].key() == entry.key());
    }
    assert forall|k: (Seq<char>, JsonView)| recorded(more).dom().contains(k) implies recorded(more)[k]
        == recorded(seen).insert(entry.key(), entry.text())[k] by {
        let i = choose|i: int| 0 <= i < more.len() && (#[trigger] more[i]).key() == k;
        lemma_recorded(more, i);
        if i < seen.len() {
            assert(seen[i].key() == k);
            lemma_recorded(seen, i);
        }
    }
    assert(recorded(more) =~= recorded(seen).insert(entry.key(), entry.text()));
}

/// An engine that is not in development mode, with the record of what it
/// has rendered.
pub struct Engine {
    inner: Handlebars<'static>,
    seen: Vec<Rendering>,
}

impl View for Engine {
    type V = Renderings;

    closed spec fn view(&self) -> Renderings {
        recorded(self.seen@)
    }
}

impl Engine {
    /// The engine is not in development mode, and no template is on
    /// record twice over the same context.
    pub closed spec fn wf(&self) -> bool {
        !in_dev_mode(self.inner) && distinct(self.seen@)
    }

    /// Takes an engine into the library, helpers and all, with nothing on
    /// record; `None` for an engine in development mode.
    pub fn new(engine: Handlebars<'static>) -> (r: Option<Engine>)
        ensures
            match r {
                Some(e) => e.wf() && e@ =~= Map::empty(),
                None => in_dev_mode(engine),
            },
    {
        if dev_mode(&engine) {
            None
        } else {
            Some(Engine { inner: engine, seen: Vec::new() })
        }
    }

    /// What is on record of a template over a context, if anything is:
    /// the text that the engine rendered, or its message.
    pub fn known(&self, template: &str, context: &Json) -> (r: Option<Result<String, RenderFailure>>)
        requires
            self.wf(),
        ensures
            match r {
                Some(Ok(text)) => self@.dom().contains((template@, context@)) && self@[(
                    template@,
                    context@,
                )] == Some(text@),
                Some(Err(_)) => self@.dom().contains((template@, context@)) && self@[(
                    template@,
                    context@,
                )] is None,
                None => !self@.dom().contains((template@, context@)),
            },
    {
        match self.find(template, context) {
            Some(i) => {
                proof {
                    lemma_recorded(self.seen@, i as int);
                }
                match &self.seen[i].outcome {
                    Ok(text) => Some(Ok(text.clone())),
                    Err(message) => Some(Err(RenderFailure { message: message.clone() })),
                }
            },
            None => None,
        }
    }

    /// Puts on record what the engine made of a template over a context,
    /// of which nothing was on record, and hands it on: the text, or the
    /// failure with the engine's message.
    pub fn note(&mut self, template: &str, context: &Json, outcome: Result<String, String>) -> (r:
        Result<String, RenderFailure>)
        requires
            old(self).wf(),
            !old(self)@.dom().contains((template@, context@)),
        ensures
            final(self).wf(),
            match outcome {
                Ok(text) => r matches Ok(same) && same@ == text@ && final(self)@ == old(self)@.insert(
                    (template@, context@),
                    Some(text@),
                ),
                Err(message) => r matches Err(failure) && failure.message@ == message@ && final(self)@
                    == old(self)@.insert((template@, context@), None),
            },
    {
        let answer = match &outcome {
            Ok(text) => Ok(text.clone()),
            Err(message) => Err(RenderFailure { message: message.clone() }),
        };
        let entry = Rendering { template: template.to_owned(), context: context.duplicate(), outcome };
        proof {
            lemma_recorded_more(self.seen@, entry);
        }
        self.seen.push(entry);
        answer
    }

    /// The position of what is on record of a template over a context.
    fn find(&self, template: &str, context: &Json) -> (r: Option<usize>)
        ensures
            match r {
                Some(i) => i < self.seen@.len() && self.seen@[i as int].key() == (template@, context@),
                None => !recorded(self.seen@).dom().contains((template@, context@)),
            },
    {
        let mut i: usize = 0;
        while i < self.seen.len()
            invariant
                i <= self.seen@.len(),
                forall|j: int| 0 <= j < i ==> (#[trigger] self.seen@[j]).key() != (template@, context@),
            decreases self.seen@.len() - i,
        {
            if text_eq(self.seen[i].template.as_str(), template) && self.seen[i].context.equals(context) {
                return Some(i);
            }
            i += 1;
        }
        None
    }
}

/// What a template is rendered to over a context, going by the record, or
/// `None` where the engine reported an error or nothing is on record: a
/// template without two opening braces in a row is rendered as it stands.
pub open spec fn rendered(known: Renderings, template: Seq<char>, context: JsonView) -> Option<
    Seq<char>,
> {
    if !occurs_in(marker(), template) {
        Some(template)
    } else if known.dom().contains((template, context)) {
        known[(template, context)]
    } else {
        None
    }
}

/// `more` holds everything that `known` holds.
pub open spec fn kept(known: Renderings, more: Renderings) -> bool {
    forall|k: (Seq<char>, JsonView)| #[trigger]
        known.dom().contains(k) ==> more.dom().contains(k) && more[k] == known[k]
}

/// A record that holds as much as one that holds as much as a third holds
/// as much as the third.
pub proof fn lemma_more_and_more(a: Renderings, b: Renderings, c: Renderings)
    requires
        kept(a, b),
        kept(b, c),
    ensures
        kept(a, c),
{
}

/// What is rendered to a text by one record is rendered to it by every
/// record that holds as much.
pub proof fn lemma_rendered_stays(
    known: Renderings,
    more: Renderings,
    template: Seq<char>,
    context: JsonView,
)
    requires
        kept(known, more),
        rendered(known, template, context) is Some,
    ensures
        rendered(more, template, context) == rendered(known, template, context),
{
    if occurs_in(marker(), template) {
        assert(known.dom().contains((template, context)));
    }
}

/// A list of texts without two opening braces in a row renders, each text
/// to itself.
pub proof fn lemma_plain_texts_render(
    engine: Renderings,
    templates: Seq<String>,
    context: JsonView,
)
    requires
        forall|i: int| 0 <= i < templates.len() ==> !crate::text::occurs_in(
            marker(),
            (#[trigger] templates[i])@,
        ),
    ensures
        texts_render(engine, templates, context),
        texts_rendered(engine, templates, context, templates),
{
}

/// `out` is what the engine renders `template` to; a template without two
/// opening braces in a row is rendered as it stands.
pub open spec fn renders_to(
    engine: Renderings,
    template: Seq<char>,
    context: JsonView,
    out: Seq<char>,
) -> bool {
    &&& rendered(engine, template, context) == Some(out)
    &&& !crate::text::occurs_in(marker(), template) ==> out == template
}

/// Renders a template over `context`. A template without two opening braces
/// in a row comes back unchanged, and nothing is put on record. A template
/// that holds expressions is rendered by the engine once over a context and
/// put on record; asked for again, it is answered from the record.
pub fn render_text(engine: &mut Engine, template: &str, context: &Json) -> (r: Result<
    String,
    RenderFailure,
>)
    requires
        old(engine).wf(),
    ensures
        final(engine).wf(),
        kept(old(engine)@, final(engine)@),
        match r {
            Ok(text) => renders_to(final(engine)@, template@, context@, text@),
            Err(_) => rendered(final(engine)@, template@, context@) is None && occurs_in(
                marker(),
                template@,
            ),
        },
        if !occurs_in(marker(), template@) || old(engine)@.dom().contains((template@, context@)) {
            final(engine)@ == old(engine)@
        } else {
            final(engine)@ == old(engine)@.insert(
                (template@, context@),
                match r {
                    Ok(text) => Some(text@),
                    Err(_) => None,
                },
            )
        },
{
    proof {
        reveal_strlit("{{");
        assert("{{"@ =~= marker());
    }
    if find_text(template, "{{").is_none() {
        return match render(&engine.inner, template, context) {
            Ok(text) => Ok(text),
            Err(message) => Err(RenderFailure { message }),
        };
    }
    match engine.known(template, context) {
        Some(answer) => answer,
        None => {
            let outcome = render(&engine.inner, template, context);
            engine.note(template, context, outcome)
        },
    }
}

/// The texts of a list rendered one by one: `out` holds the rendered text of
/// each template.
pub open spec fn texts_rendered(
    engine: Renderings,
    templates: Seq<String>,
    context: JsonView,
    out: Seq<String>,
) -> bool {
    &&& out.len() == templates.len()
    &&& forall|i: int|
        0 <= i < templates.len() ==> renders_to(engine, (#[trigger] templates[i])@, context, out[i]@)
}

/// Texts that are rendered by one record are rendered by every record that
/// holds as much.
pub proof fn lemma_texts_stay(
    known: Renderings,
    more: Renderings,
    templates: Seq<String>,
    context: JsonView,
    out: Seq<String>,
)
    requires
        kept(known, more),
        texts_rendered(known, templates, context, out),
    ensures
        texts_rendered(more, templates, context, out),
{
    assert forall|i: int| 0 <= i < templates.len() implies renders_to(
        more,
        (#[trigger] templates[i])@,
        context,
        out[i]@,
    ) by {
        lemma_rendered_stays(known, more, templates[i]@, context);
    }
}

/// Every template of the list renders.
pub open spec fn texts_render(engine: Renderings, templates: Seq<String>, context: JsonView) -> bool {
    forall|i: int| 0 <= i < templates.len() ==> rendered(engine, (#[trigger] templates[i])@, context) is Some
}

/// Renders each template of a list over `context`, or fails with the error
/// of the first that does not render.
pub fn render_all(engine: &mut Engine, templates: &Vec<String>, context: &Json) -> (r: Result<
    Vec<String>,
    RenderFailure,
>)
    requires
        old(engine).wf(),
    ensures
        final(engine).wf(),
        kept(old(engine)@, final(engine)@),
        match r {
            Ok(out) => texts_rendered(final(engine)@, templates@, context@, out@),
            Err(_) => !texts_render(final(engine)@, templates@, context@),
        },
{
    let mut out: Vec<String> = Vec::new();
    let mut i: usize = 0;
    while i < templates.len()
        invariant
            engine.wf(),
            kept(old(engine)@, engine@),
            i <= templates.len(),
            out@.len() == i,
            forall|j: int|
                0 <= j < i ==> renders_to(engine@, (#[trigger] templates@[j])@, context@, out@[j]@),
        decreases templates.len() - i,
    {
        let ghost before = engine@;
        let rendering = render_text(engine, templates[i].as_str(), context);
        proof {
            lemma_more_and_more(old(engine)@, before, engine@);
        }
        match rendering {
            Ok(text) => {
                proof {
                    assert forall|j: int| 0 <= j < i implies renders_to(
                        engine@,
                        (#[trigger] templates@[j])@,
                        context@,
                        out@[j]@,
                    ) by {
                        lemma_rendered_stays(before, engine@, templates@[j]@, context@);
                    }
                }
                out.push(text);
            },
            Err(e) => {
                assert(rendered(engine@, templates@[i as int]@, context@) is None);
                return Err(e);
            },
        }
        i += 1;
    }
    Ok(out)
}

} // verus!
