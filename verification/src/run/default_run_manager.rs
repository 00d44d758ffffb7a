//! What the sequential mode shows of a run.

use crate::cli::CliRunOptions;
use vstd::prelude::*;

verus! {

/// Shows the tasks of a sequential run one after the other.
#[derive(Debug)]
pub struct DefaultRunManager(pub CliRunOptions);

impl DefaultRunManager {
    /// Whether the start and the state of each task are shown.
    pub fn announces_tasks(&self) -> (r: bool)
        ensures
            r == !self.0.compact,
    {
        !self.0.compact
    }
}

} // verus!
