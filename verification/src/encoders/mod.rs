//! Encoders: from text to tokens.

pub mod merge_encoder;
pub mod pool_encoder;
pub mod span_encoders;
pub mod token_encoder;
