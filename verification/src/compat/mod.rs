//! Small helpers on std types.

pub mod ranges;
pub mod strings;
