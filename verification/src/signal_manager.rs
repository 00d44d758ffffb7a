//! The signals that end a run.

use vstd::prelude::*;

verus! {

/// A signal that is passed on to the processes of a run.
#[derive(Debug, Clone, Copy, PartialEq, Eq, Structural)]
pub enum Signal {
    /// The user interrupted the run.
    Interrupt,
    /// The run was asked to terminate.
    Terminate,
}

impl Signal {
    /// The exit code of a run that this signal ended: 128 and the number of
    /// the signal.
    pub fn exit_code(self) -> (r: i32)
        ensures
            r == match self {
                Signal::Interrupt => 130i32,
                Signal::Terminate => 143i32,
            },
    {
        match self {
            Signal::Interrupt => 130,
            Signal::Terminate => 143,
        }
    }

    /// How many milliseconds the processes are given to end.
    pub fn grace_millis(self) -> (r: u64)
        ensures
            r == match self {
                Signal::Interrupt => 500u64,
                Signal::Terminate => 1000u64,
            },
    {
        match self {
            Signal::Interrupt => 500,
            Signal::Terminate => 1000,
        }
    }
}

} // verus!
