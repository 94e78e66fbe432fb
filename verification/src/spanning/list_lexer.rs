//! A lexer over a fixed list of spans.

use crate::regex::regex_wrapper::byte_len;
use crate::spanning::span_lexer::{is_span_from, SpanLexer};
use vstd::prelude::*;
use vstd::string::StringSliceAdditionalSpecFns;

verus! {

/// The first of `spans`, from index `i` on, that is a span of `text` at or
/// after `offset`.
pub open spec fn first_listed(
    spans: Seq<(usize, usize)>,
    text: Seq<u8>,
    offset: usize,
    i: int,
) -> Option<(usize, usize)>
    decreases spans.len() - i,
{
    if i < 0 || i >= spans.len() {
        None
    } else if is_span_from(text, offset, spans[i]) {
        Some(spans[i])
    } else {
        first_listed(spans, text, offset, i + 1)
    }
}

/// A lexer that finds the spans of a list, whatever the text holds: of use
/// where the spans of a text are known beforehand.
pub struct ListLexer {
    spans: Vec<(usize, usize)>,
}

impl ListLexer {
    /// The spans of the list.
    pub closed spec fn listed(&self) -> Seq<(usize, usize)> {
        self.spans@
    }

    /// A lexer over `spans`.
    pub fn new(spans: Vec<(usize, usize)>) -> (l: Self)
        ensures
            l.listed() == spans@,
    {
        ListLexer { spans }
    }
}

impl SpanLexer for ListLexer {
    /// The first span of the list that is a span of `text` at or after
    /// `offset`.
    open spec fn span_at(&self, text: Seq<u8>, offset: usize) -> Option<(usize, usize)> {
        first_listed(self.listed(), text, offset, 0)
    }

    fn next_span(&self, text: &str, offset: usize) -> (r: Option<(usize, usize)>) {
        let len = byte_len(text);
        let ghost bytes = text.spec_bytes();
        let mut i: usize = 0;
        while i < self.spans.len()
            invariant
                i <= self.spans@.len(),
                bytes == text.spec_bytes(),
                len == bytes.len(),
                first_listed(self.spans@, bytes, offset, i as int) == first_listed(
                    self.spans@,
                    bytes,
                    offset,
                    0,
                ),
            decreases self.spans@.len() - i,
        {
            let span = self.spans[i];
            if offset <= span.0 && span.0 < span.1 && span.1 <= len && text.is_char_boundary(
                span.0,
            ) && text.is_char_boundary(span.1) {
                return Some(span);
            }
            i += 1;
        }
        None
    }
}

} // verus!
