//! A task runner engine: task catalogs, reference resolution, instantiation,
//! dependency ordering, up-to-date decisions and scheduling.
//!
//! The behaviour of every function is stated in its contract and proved.
//! Where the engine calls into another crate, the call stands in a small
//! function of its own whose contract is taken on trust. Looking at files
//! and running processes is left to whoever drives the engine.

pub mod cli;
pub mod collections;
pub mod command;
pub mod json;
pub mod paths;
pub mod run;
pub mod signal_manager;
pub mod strmap;
pub mod task;
pub mod template;
pub mod text;
pub mod utils;
pub mod yaml;
