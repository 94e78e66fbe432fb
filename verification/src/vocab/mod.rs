//! Vocabulary: spans, tokens, merge ranks and special tokens.

pub mod byte_vocab;
pub mod span_map;
pub mod special_vocab;
pub mod unified_vocab;
