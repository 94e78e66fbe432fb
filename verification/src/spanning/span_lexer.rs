//! The interface of a lexer that finds one span at a time.

use crate::regex::regex_wrapper::{first_match, RegexWrapper};
use vstd::prelude::*;
use vstd::string::StringSliceAdditionalSpecFns;
use vstd::utf8::is_char_boundary;

verus! {

/// `span` is a non-empty byte range of `text` that starts at `offset` or
/// later and cuts no character.
pub open spec fn is_span_from(text: Seq<u8>, offset: usize, span: (usize, usize)) -> bool {
    &&& offset <= span.0 < span.1 <= text.len()
    &&& is_char_boundary(text, span.0 as int)
    &&& is_char_boundary(text, span.1 as int)
}

/// Finds the next occurrence of a span.
pub trait SpanLexer {
    /// The span that the lexer finds in `text` at or after `offset`.
    spec fn span_at(&self, text: Seq<u8>, offset: usize) -> Option<(usize, usize)>;

    /// Finds the next span of `text` at or after byte `offset`.
    ///
    /// The span's bounds are byte offsets into `text`. A span is never
    /// empty and cuts no character.
    fn next_span(&self, text: &str, offset: usize) -> (r: Option<(usize, usize)>)
        ensures
            r == self.span_at(text.spec_bytes(), offset),
            r matches Some(span) ==> is_span_from(text.spec_bytes(), offset, span),
    ;
}

impl SpanLexer for RegexWrapper {
    /// The pattern's first match at or after `offset`, unless it is empty.
    open spec fn span_at(&self, text: Seq<u8>, offset: usize) -> Option<(usize, usize)> {
        match first_match(self.pattern(), text, offset) {
            Some(span) => if span.0 < span.1 {
                Some(span)
            } else {
                None
            },
            None => None,
        }
    }

    fn next_span(&self, text: &str, offset: usize) -> (r: Option<(usize, usize)>) {
        match self.find_from(text, offset) {
            Some(span) => {
                if span.0 < span.1 {
                    Some(span)
                } else {
                    None
                }
            },
            None => None,
        }
    }
}

} // verus!
