//! Compiled patterns and their suppliers.

pub mod exact_match_union;
pub mod regex_eq;
pub mod regex_pool;
pub mod regex_supplier;
pub mod regex_wrapper;
