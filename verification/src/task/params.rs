//! The types of a task's parameters.

use crate::json::{Json, JsonView};
use crate::text::{concat, copy_texts, join_texts, joined};
use vstd::prelude::*;

verus! {

/// The type of a parameter.
#[derive(Debug)]
pub enum ArgType {
    String,
    /// One of the listed texts.
    Select(Vec<String>),
    Number,
    Boolean,
    /// A path, written as a string.
    Path,
    /// A list of values of the inner type.
    Array(Box<ArgType>),
}

/// The mathematical value of an [`ArgType`].
pub enum ArgTypeView {
    String,
    Select(Seq<Seq<char>>),
    Number,
    Boolean,
    Path,
    Array(Box<ArgTypeView>),
}

/// The texts of a list, item by item.
pub open spec fn texts_view(items: Seq<String>) -> Seq<Seq<char>> {
    Seq::new(items.len(), |i: int| items[i]@)
}

/// The type that an [`ArgType`] stands for.
pub open spec fn arg_type_view(t: ArgType) -> ArgTypeView
    decreases t,
{
    match t {
        ArgType::String => ArgTypeView::String,
        ArgType::Select(options) => ArgTypeView::Select(texts_view(options@)),
        ArgType::Number => ArgTypeView::Number,
        ArgType::Boolean => ArgTypeView::Boolean,
        ArgType::Path => ArgTypeView::Path,
        ArgType::Array(inner) => ArgTypeView::Array(Box::new(arg_type_view(*inner))),
    }
}

impl View for ArgType {
    type V = ArgTypeView;

    open spec fn view(&self) -> ArgTypeView {
        arg_type_view(*self)
    }
}

/// Whether a value is of a type: a string for `String` and `Path`, a string
/// among the options for `Select`, a number for `Number`, a boolean for
/// `Boolean`, and for `Array` an array of values of the inner type.
pub open spec fn accepts(t: ArgTypeView, v: JsonView) -> bool
    decreases t,
{
    match t {
        ArgTypeView::String => v is String,
        ArgTypeView::Path => v is String,
        ArgTypeView::Select(options) => v is String && options.contains(v->String_0),
        ArgTypeView::Number => v is Number,
        ArgTypeView::Boolean => v is Bool,
        ArgTypeView::Array(inner) => v is Array && forall|i: int|
            0 <= i < v->Array_0.len() ==> accepts(*inner, #[trigger] v->Array_0[i]),
    }
}

/// How a type is written: `string`, `number`, `boolean`, `path`,
/// `opt(a, b)` for a choice among options, `array<..>` for an array.
pub open spec fn type_text(t: ArgTypeView) -> Seq<char>
    decreases t,
{
    match t {
        ArgTypeView::String => "string"@,
        ArgTypeView::Select(options) => "opt("@ + joined(options, ", "@) + ")"@,
        ArgTypeView::Number => "number"@,
        ArgTypeView::Boolean => "boolean"@,
        ArgTypeView::Path => "path"@,
        ArgTypeView::Array(inner) => "array<"@ + type_text(*inner) + ">"@,
    }
}

/// Whether `text` is one of `options`.
pub fn is_option(options: &Vec<String>, text: &str) -> (r: bool)
    ensures
        r == texts_view(options@).contains(text@),
{
    let mut i: usize = 0;
    while i < options.len()
        invariant
            i <= options.len(),
            forall|j: int| 0 <= j < i ==> texts_view(options@)[j] != text@,
        decreases options.len() - i,
    {
        if crate::text::text_eq(options[i].as_str(), text) {
            assert(texts_view(options@)[i as int] == text@);
            return true;
        }
        i += 1;
    }
    false
}

impl ArgType {
    /// Whether `value` is of this type.
    pub fn validate(&self, value: &Json) -> (r: bool)
        ensures
            r == accepts(self@, value@),
        decreases self,
    {
        match self {
            ArgType::String => value.is_string(),
            ArgType::Select(options) => match value.as_str() {
                Some(s) => is_option(options, s),
                None => false,
            },
            ArgType::Number => value.is_number(),
            ArgType::Boolean => value.is_boolean(),
            ArgType::Path => value.is_string(),
            ArgType::Array(inner) => match value.as_array() {
                Some(items) => {
                    let mut i: usize = 0;
                    while i < items.len()
                        invariant
                            i <= items.len(),
                            *self == ArgType::Array(*inner),
                            value@ == JsonView::Array(crate::json::json_seq_view(items@)),
                            forall|j: int| 0 <= j < i ==> accepts(inner@, #[trigger] items@[j]@),
                        decreases items.len() - i,
                    {
                        assert(self->Array_0 == *inner);
                        if !inner.validate(&items[i]) {
                            assert(value@->Array_0[i as int] == items@[i as int]@);
                            return false;
                        }
                        i += 1;
                    }
                    assert forall|j: int| 0 <= j < value@->Array_0.len() implies accepts(
                        inner@,
                        #[trigger] value@->Array_0[j],
                    ) by {
                        assert(value@->Array_0[j] == items@[j]@);
                    }
                    true
                },
                None => false,
            },
        }
    }

    /// The type as it is written; see [`type_text`].
    pub fn to_text(&self) -> (r: String)
        ensures
            r@ == type_text(self@),
        decreases self,
    {
        match self {
            ArgType::String => String::from_str("string"),
            ArgType::Select(options) => {
                let list = join_texts(options, ", ");
                assert(crate::text::views(options@) =~= texts_view(options@));
                let head = concat("opt(", list.as_str());
                concat(head.as_str(), ")")
            },
            ArgType::Number => String::from_str("number"),
            ArgType::Boolean => String::from_str("boolean"),
            ArgType::Path => String::from_str("path"),
            ArgType::Array(inner) => {
                let inner_text = inner.to_text();
                let head = concat("array<", inner_text.as_str());
                concat(head.as_str(), ">")
            },
        }
    }

    /// A copy with the same value.
    pub fn duplicate(&self) -> (r: Self)
        ensures
            r@ == self@,
        decreases self,
    {
        match self {
            ArgType::String => ArgType::String,
            ArgType::Select(options) => {
                let copy = copy_texts(options);
                assert(texts_view(copy@) =~= texts_view(options@));
                ArgType::Select(copy)
            },
            ArgType::Number => ArgType::Number,
            ArgType::Boolean => ArgType::Boolean,
            ArgType::Path => ArgType::Path,
            ArgType::Array(inner) => ArgType::Array(Box::new(inner.duplicate())),
        }
    }
}

/// A parameter of a task: its type and, where one is declared, the value it
/// has when none is given.
#[derive(Debug)]
pub struct Param {
    pub ty: ArgType,
    pub default: Option<Json>,
}

impl Param {
    /// Whether the declared default, if there is one, is of the declared type.
    pub fn validate_default(&self) -> (r: bool)
        ensures
            r == match self.default {
                Some(d) => accepts(self.ty@, d@),
                None => true,
            },
    {
        match &self.default {
            Some(default) => self.ty.validate(default),
            None => true,
        }
    }
}

} // verus!
