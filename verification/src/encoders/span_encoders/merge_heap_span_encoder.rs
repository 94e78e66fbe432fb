//! The span encoder that merges off a heap.

use crate::encoders::span_encoders::hybrid_span_encoder::HybridSpanEncoder;
use crate::encoders::span_encoders::span_encoder::SpanEncoder;
use crate::vocab::byte_vocab::byte_tokens;
use crate::vocab::unified_vocab::UnifiedTokenVocab;
use vstd::prelude::*;

verus! {

/// A span encoder that keeps the pending pairs in a min-heap and the live
/// tokens in a linked list, whatever the span's length.
pub struct MergeHeapSpanEncoder {
    merger: HybridSpanEncoder,
}

impl MergeHeapSpanEncoder {
    /// The number of entries that the working buffers hold: the links and
    /// generations of the last span merged, and what is left in the heap.
    pub closed spec fn buffered(&self) -> nat {
        self.merger.buffered()
    }

    /// A heap encoder with empty working buffers.
    pub fn new() -> (e: Self)
        ensures
            e.buffered() == 0,
    {
        MergeHeapSpanEncoder { merger: HybridSpanEncoder::new() }
    }
}

impl Default for MergeHeapSpanEncoder {
    fn default() -> (e: Self) {
        MergeHeapSpanEncoder::new()
    }
}

impl SpanEncoder for MergeHeapSpanEncoder {
    /// Appends the tokens of `span` to `tokens`, merged off the heap.
    fn encode_append_compound_span(
        &mut self,
        vocab: &UnifiedTokenVocab,
        span: &[u8],
        tokens: &mut Vec<u32>,
    ) {
        let start = tokens.len();
        vocab.byte_vocab().append_tokens(span, tokens);
        proof {
            let seeded = byte_tokens(vocab.byte_table(), span@);
            assert(tokens@.take(start as int) =~= old(tokens)@);
            assert(tokens@.skip(start as int) =~= seeded);
        }
        self.merger.heap_merge(vocab, tokens, start);
    }
}

} // verus!
