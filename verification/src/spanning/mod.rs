//! Text spanning: from a text to its word, gap and special spans.

pub mod lexer_spanner;
pub mod list_lexer;
pub mod span_lexer;
pub mod text_spanner;
