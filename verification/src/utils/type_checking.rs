//! Checking an argument against the type of its parameter.

use crate::json::{Json, JsonView};
use crate::task::params::{accepts, is_option, texts_view, ArgType, ArgTypeView};
use crate::text::copy_texts;
use vstd::prelude::*;

verus! {

/// Why a value is not of a type.
#[allow(inconsistent_fields)]
#[derive(Debug)]
pub enum TypeCheckError {
    /// The value is of another kind than the type asks for.
    MismatchedType { expected: ArgType },
    /// The value is a string, but none of the options.
    InvalidOption { expected: Vec<String>, value: String },
}

/// The mathematical value of a [`TypeCheckError`].
#[allow(inconsistent_fields)]
pub enum TypeCheckErrorView {
    MismatchedType { expected: ArgTypeView },
    InvalidOption { expected: Seq<Seq<char>>, value: Seq<char> },
}

impl View for TypeCheckError {
    type V = TypeCheckErrorView;

    open spec fn view(&self) -> TypeCheckErrorView {
        match self {
            TypeCheckError::MismatchedType { expected } => TypeCheckErrorView::MismatchedType {
                expected: expected@,
            },
            TypeCheckError::InvalidOption { expected, value } => TypeCheckErrorView::InvalidOption {
                expected: texts_view(expected@),
                value: value@,
            },
        }
    }
}

/// What is wrong with an argument of a parameter of type `t`, if anything:
/// nothing where the type accepts the value. An array is checked item by
/// item, and one item that fails makes the whole array a mismatch.
pub open spec fn type_error(t: ArgTypeView, v: JsonView) -> Option<TypeCheckErrorView>
    decreases t,
{
    match t {
        ArgTypeView::String | ArgTypeView::Path => if v is String {
            None
        } else {
            Some(TypeCheckErrorView::MismatchedType { expected: t })
        },
        ArgTypeView::Select(options) => if !(v is String) {
            Some(TypeCheckErrorView::MismatchedType { expected: t })
        } else if options.contains(v->String_0) {
            None
        } else {
            Some(TypeCheckErrorView::InvalidOption { expected: options, value: v->String_0 })
        },
        ArgTypeView::Number => if v is Number {
            None
        } else {
            Some(TypeCheckErrorView::MismatchedType { expected: t })
        },
        ArgTypeView::Boolean => if v is Bool {
            None
        } else {
            Some(TypeCheckErrorView::MismatchedType { expected: t })
        },
        ArgTypeView::Array(inner) => if v is Array && forall|i: int|
            0 <= i < v->Array_0.len() ==> type_error(*inner, #[trigger] v->Array_0[i]) is None {
            None
        } else {
            Some(TypeCheckErrorView::MismatchedType { expected: t })
        },
    }
}

/// A value passes the check of a type where the type accepts it.
pub proof fn lemma_checked_is_accepted(t: ArgTypeView, v: JsonView)
    ensures
        type_error(t, v) is None <==> accepts(t, v),
    decreases t,
{
    match t {
        ArgTypeView::Array(inner) => {
            if v is Array {
                assert forall|i: int| 0 <= i < v->Array_0.len() implies (type_error(
                    *inner,
                    #[trigger] v->Array_0[i],
                ) is None <==> accepts(*inner, v->Array_0[i])) by {
                    lemma_checked_is_accepted(*inner, v->Array_0[i]);
                }
            }
        },
        _ => {},
    }
}

fn mismatch(ty: &ArgType) -> (r: Result<(), TypeCheckError>)
    ensures
        r is Err,
        r->Err_0@ == (TypeCheckErrorView::MismatchedType { expected: ty@ }),
{
    Err(TypeCheckError::MismatchedType { expected: ty.duplicate() })
}

/// Checks `value` against `ty`.
pub fn check_type(ty: &ArgType, value: &Json) -> (r: Result<(), TypeCheckError>)
    ensures
        match r {
            Ok(()) => type_error(ty@, value@) is None,
            Err(e) => type_error(ty@, value@) == Some(e@),
        },
        r is Ok <==> accepts(ty@, value@),
    decreases ty,
{
    proof {
        lemma_checked_is_accepted(ty@, value@);
    }
    check_type_of(ty, value)
}

fn check_type_of(ty: &ArgType, value: &Json) -> (r: Result<(), TypeCheckError>)
    ensures
        match r {
            Ok(()) => type_error(ty@, value@) is None,
            Err(e) => type_error(ty@, value@) == Some(e@),
        },
    decreases ty,
{
    match ty {
        ArgType::String => if value.is_string() {
            Ok(())
        } else {
            mismatch(ty)
        },
        ArgType::Path => if value.is_string() {
            Ok(())
        } else {
            mismatch(ty)
        },
        ArgType::Select(options) => match value.as_str() {
            None => mismatch(ty),
            Some(s) => if is_option(options, s) {
                Ok(())
            } else {
                let expected = copy_texts(options);
                assert(texts_view(expected@) =~= texts_view(options@));
                Err(TypeCheckError::InvalidOption { expected, value: s.to_owned() })
            },
        },
        ArgType::Number => if value.is_number() {
            Ok(())
        } else {
            mismatch(ty)
        },
        ArgType::Boolean => if value.is_boolean() {
            Ok(())
        } else {
            mismatch(ty)
        },
        ArgType::Array(inner) => match value.as_array() {
            None => mismatch(ty),
            Some(items) => {
                let mut i: usize = 0;
                while i < items.len()
                    invariant
                        i <= items.len(),
                        *ty == ArgType::Array(*inner),
                        value@ == JsonView::Array(crate::json::json_seq_view(items@)),
                        forall|j: int| 0 <= j < i ==> type_error(inner@, #[trigger] items@[j]@) is None,
                    decreases items.len() - i,
                {
                    assert(ty->Array_0 == *inner);
                    if check_type_of(inner, &items[i]).is_err() {
                        assert(value@->Array_0[i as int] == items@[i as int]@);
                        return mismatch(ty);
                    }
                    i += 1;
                }
                assert forall|j: int| 0 <= j < value@->Array_0.len() implies type_error(
                    inner@,
                    #[trigger] value@->Array_0[j],
                ) is None by {
                    assert(value@->Array_0[j] == items@[j]@);
                }
                Ok(())
            },
        },
    }
}

} // verus!
