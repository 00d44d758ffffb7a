//! The identities of taskfiles and tasks.

use crate::json::{Json, JsonView};
use crate::paths::{difference, path_difference};
use crate::template::{render_text, rendered, renders_to};
use crate::text::{concat, find_char, slice};
use crate::template::{kept, Engine, RenderFailure, Renderings};
use vstd::prelude::*;

verus! {

/// The canonical absolute path of a taskfile. Two taskfiles are the same
/// exactly when their ids hold the same path.
#[derive(Debug)]
pub struct TaskfileId {
    pub path: String,
}

impl View for TaskfileId {
    type V = Seq<char>;

    open spec fn view(&self) -> Seq<char> {
        self.path@
    }
}

/// How a path is shown from a base: as the path from the base to it, or as it
/// stands where there is none.
pub open spec fn shown_from(path: Seq<char>, base: Seq<char>) -> Seq<char> {
    match path_difference(path, base) {
        Some(d) => d,
        None => path,
    }
}

impl TaskfileId {
    /// The id of the taskfile at a canonical path.
    pub fn from_path(path: &str) -> (r: Self)
        ensures
            r@ == path@,
    {
        TaskfileId { path: path.to_owned() }
    }

    pub fn as_str(&self) -> (r: &str)
        ensures
            r@ == self@,
    {
        self.path.as_str()
    }

    pub fn equals(&self, other: &TaskfileId) -> (r: bool)
        ensures
            r == (self@ == other@),
    {
        self.path == other.path
    }

    pub fn duplicate(&self) -> (r: Self)
        ensures
            r@ == self@,
    {
        TaskfileId { path: self.path.clone() }
    }

    /// The path as seen from `base`.
    pub fn display_relative(&self, base: &str) -> (r: String)
        ensures
            r@ == shown_from(self@, base@),
    {
        match difference(self.path.as_str(), base) {
            Some(d) => d,
            None => self.path.clone(),
        }
    }
}

/// A reference to a task as it is written in a taskfile.
#[derive(Debug)]
pub enum TaskRef {
    /// A task of the taskfile in which the reference stands.
    Name(String),
    /// A task of the taskfile that the alias `from` is bound to.
    Imported { from: String, name: String },
}

/// The mathematical value of a [`TaskRef`].
pub enum TaskRefView {
    Name(Seq<char>),
    Imported { from: Seq<char>, name: Seq<char> },
}

impl View for TaskRef {
    type V = TaskRefView;

    open spec fn view(&self) -> TaskRefView {
        match self {
            TaskRef::Name(name) => TaskRefView::Name(name@),
            TaskRef::Imported { from, name } => TaskRefView::Imported { from: from@, name: name@ },
        }
    }
}

/// Whether `i` is the position of the first colon of `text`.
pub open spec fn is_first_colon(text: Seq<char>, i: int) -> bool {
    0 <= i < text.len() && text[i] == ':' && forall|j: int| 0 <= j < i ==> text[j] != ':'
}

/// The position of the first colon of a text that has one.
pub open spec fn first_colon(text: Seq<char>) -> int {
    choose|i: int| is_first_colon(text, i)
}

/// The reference that a text of the form `name` or `alias:name` stands for:
/// the text is split at its first colon, if it has one.
pub open spec fn parsed_ref(text: Seq<char>) -> TaskRefView {
    if text.contains(':') {
        let i = first_colon(text);
        TaskRefView::Imported { from: text.subrange(0, i), name: text.subrange(i + 1, text.len() as int) }
    } else {
        TaskRefView::Name(text)
    }
}

/// The text of a reference: `name`, or `alias:name`.
pub open spec fn ref_text(r: TaskRefView) -> Seq<char> {
    match r {
        TaskRefView::Name(name) => name,
        TaskRefView::Imported { from, name } => from + seq![':'] + name,
    }
}

/// The name of the task that a reference names, without the alias.
pub open spec fn ref_name(r: TaskRefView) -> Seq<char> {
    match r {
        TaskRefView::Name(name) => name,
        TaskRefView::Imported { from, name } => name,
    }
}

/// `out` is `r` with its name rendered; the alias is not a template and stays.
pub open spec fn ref_instantiated(
    engine: Renderings,
    r: TaskRefView,
    context: JsonView,
    out: TaskRefView,
) -> bool {
    match r {
        TaskRefView::Name(name) => out is Name && renders_to(engine, name, context, out->Name_0),
        TaskRefView::Imported { from, name } => out is Imported && out->from == from && renders_to(
            engine,
            name,
            context,
            out->name,
        ),
    }
}

/// A text has one first colon.
pub proof fn lemma_first_colon(text: Seq<char>, i: int)
    requires
        is_first_colon(text, i),
    ensures
        text.contains(':'),
        first_colon(text) == i,
{
    let k = first_colon(text);
    assert(is_first_colon(text, k));
    if k < i {
        assert(text[k] != ':');
    }
    if i < k {
        assert(text[i] != ':');
    }
}

impl TaskRef {
    /// Reads a reference: `alias:name` refers to a task of an imported
    /// taskfile, anything without a colon to a task of the same taskfile.
    pub fn parse(text: &str) -> (r: Self)
        ensures
            r@ == parsed_ref(text@),
    {
        match find_char(text, ':') {
            Some(i) => {
                proof {
                    lemma_first_colon(text@, i as int);
                }
                let n = text.unicode_len();
                TaskRef::Imported { from: slice(text, 0, i), name: slice(text, i + 1, n) }
            },
            None => {
                assert(!text@.contains(':'));
                TaskRef::Name(text.to_owned())
            },
        }
    }

    /// The reference with its name rendered over `context`. The alias is
    /// not a template.
    pub fn instantiate(&self, handlebars: &mut Engine, context: &Json) -> (r: Result<
        TaskRef,
        RenderFailure,
    >)
        requires
            old(handlebars).wf(),
        ensures
            final(handlebars).wf(),
            kept(old(handlebars)@, final(handlebars)@),
            match r {
                Ok(out) => ref_instantiated(final(handlebars)@, self@, context@, out@),
                Err(_) => rendered(final(handlebars)@, ref_name(self@), context@) is None,
            },
    {
        match self {
            TaskRef::Name(name) => match render_text(handlebars, name.as_str(), context) {
                Ok(text) => Ok(TaskRef::Name(text)),
                Err(e) => Err(e),
            },
            TaskRef::Imported { from, name } => match render_text(handlebars, name.as_str(), context) {
                Ok(text) => Ok(TaskRef::Imported { from: from.clone(), name: text }),
                Err(e) => Err(e),
            },
        }
    }

    /// The name of the task, without the alias.
    pub fn name(&self) -> (r: &String)
        ensures
            r@ == ref_name(self@),
    {
        match self {
            TaskRef::Name(name) => name,
            TaskRef::Imported { from: _, name } => name,
        }
    }

    pub fn duplicate(&self) -> (r: Self)
        ensures
            r@ == self@,
    {
        match self {
            TaskRef::Name(name) => TaskRef::Name(name.clone()),
            TaskRef::Imported { from, name } => TaskRef::Imported {
                from: from.clone(),
                name: name.clone(),
            },
        }
    }

    pub fn equals(&self, other: &TaskRef) -> (r: bool)
        ensures
            r == (self@ == other@),
    {
        match self {
            TaskRef::Name(a) => match other {
                TaskRef::Name(b) => *a == *b,
                _ => false,
            },
            TaskRef::Imported { from, name } => match other {
                TaskRef::Imported { from: from2, name: name2 } => *from == *from2 && *name == *name2,
                _ => false,
            },
        }
    }

    /// The reference as text: `name`, or `alias:name`.
    pub fn to_text(&self) -> (r: String)
        ensures
            r@ == ref_text(self@),
    {
        match self {
            TaskRef::Name(name) => name.clone(),
            TaskRef::Imported { from, name } => {
                let head = concat(from.as_str(), ":");
                proof {
                    reveal_strlit(":");
                    assert(":"@ =~= seq![':']);
                }
                concat(head.as_str(), name.as_str())
            },
        }
    }
}

/// A reference to a task by the taskfile that defines it.
#[derive(Debug)]
pub struct ResolvedRef {
    pub taskfile: TaskfileId,
    pub name: String,
}

impl View for ResolvedRef {
    type V = (Seq<char>, Seq<char>);

    open spec fn view(&self) -> (Seq<char>, Seq<char>) {
        (self.taskfile@, self.name@)
    }
}

/// A task's name behind the text that stands for its taskfile; the name
/// alone where that text is empty.
pub open spec fn qualified(prefix: Seq<char>, name: Seq<char>) -> Seq<char> {
    if prefix.len() == 0 {
        name
    } else {
        prefix + seq![':'] + name
    }
}

impl ResolvedRef {
    pub fn duplicate(&self) -> (r: Self)
        ensures
            r@ == self@,
    {
        ResolvedRef { taskfile: self.taskfile.duplicate(), name: self.name.clone() }
    }

    pub fn equals(&self, other: &ResolvedRef) -> (r: bool)
        ensures
            r == (self@ == other@),
    {
        self.taskfile.equals(&other.taskfile) && self.name == other.name
    }

    /// The taskfile's path, a colon, and the task's name.
    pub fn display_absolute(&self) -> (r: String)
        ensures
            r@ == self.taskfile@ + seq![':'] + self.name@,
    {
        let head = concat(self.taskfile.as_str(), ":");
        proof {
            reveal_strlit(":");
            assert(":"@ =~= seq![':']);
        }
        concat(head.as_str(), self.name.as_str())
    }

    /// The taskfile's path as seen from `base`, a colon, and the task's
    /// name; the name alone where that path is empty.
    pub fn display_relative(&self, base: &str) -> (r: String)
        ensures
            r@ == qualified(shown_from(self.taskfile@, base@), self.name@),
    {
        let dir = self.taskfile.display_relative(base);
        if dir.as_str().unicode_len() == 0 {
            self.name.clone()
        } else {
            let head = concat(dir.as_str(), ":");
            proof {
                reveal_strlit(":");
                assert(":"@ =~= seq![':']);
            }
            concat(head.as_str(), self.name.as_str())
        }
    }
}

} // verus!
