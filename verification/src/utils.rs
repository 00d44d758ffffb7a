//! Helpers shared by the engine's parts.

pub mod type_checking;
