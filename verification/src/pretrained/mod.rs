//! What is known of published tokenizers.

pub mod openai;
