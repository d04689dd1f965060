//! The builtins of the language that this evaluator holds.

pub mod fs;
pub mod misc;
pub mod sys;
