//! The encoding core of a byte-pair-encoding tokenizer.
//!
//! A vocabulary (`vocab`) holds the byte-level fallback alphabet, the spans
//! of the tokens, the ranks of the pairs that merge, and the special words.
//! A text is split into spans (`spanning`, `segmentation`) by compiled
//! patterns (`regex`): words, the gaps between them, and special words. A
//! word that is no token as a whole is merged from its byte-level tokens
//! (`merges` says how) by one of the span encoders (`encoders`), which
//! differ in speed and never in their result.

pub mod compat;
pub mod concurrency;
pub mod disk_cache;
pub mod encoders;
pub mod merges;
pub mod pretrained;
pub mod regex;
pub mod segmentation;
pub mod spanning;
pub mod types;
pub mod vocab;
