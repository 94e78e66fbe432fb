//! Span encoders: the merge strategies for a single word, and the encoder
//! that drives them over a text.

pub mod hybrid_span_encoder;
pub mod incremental_sweep_span_encoder;
pub mod merge_heap;
pub mod merge_heap_span_encoder;
pub mod span_encoder;
pub mod token_span_encoder;
