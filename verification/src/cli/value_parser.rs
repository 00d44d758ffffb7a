//! The parser of command-line values that are read by the engine itself.

use vstd::prelude::*;

verus! {

/// A parser of command-line values of the type `T`.
#[derive(Debug)]
pub struct CustomValueParser<T>(pub core::marker::PhantomData<T>);

impl<T> CustomValueParser<T> {
    pub fn new() -> (r: Self)
        ensures
            r == CustomValueParser::<T>(core::marker::PhantomData),
    {
        CustomValueParser(core::marker::PhantomData)
    }
}

} // verus!
