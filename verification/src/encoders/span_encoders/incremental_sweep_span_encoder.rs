//! The span encoder that sweeps for the best pair at each step.

use crate::encoders::span_encoders::hybrid_span_encoder::HybridSpanEncoder;
use crate::encoders::span_encoders::span_encoder::SpanEncoder;
use crate::vocab::byte_vocab::byte_tokens;
use crate::vocab::unified_vocab::UnifiedTokenVocab;
use vstd::prelude::*;

verus! {

/// A span encoder that finds the best pair by a linear sweep at each step:
/// quadratic in the span's tokens at worst, with the smallest constants.
pub struct IncrementalSweepSpanEncoder {}

impl IncrementalSweepSpanEncoder {
    /// A sweep encoder.
    pub fn new() -> (e: Self) {
        IncrementalSweepSpanEncoder {  }
    }
}

impl Default for IncrementalSweepSpanEncoder {
    fn default() -> (e: Self) {
        IncrementalSweepSpanEncoder::new()
    }
}

impl SpanEncoder for IncrementalSweepSpanEncoder {
    fn encode_append_compound_span(
        &mut self,
        vocab: &UnifiedTokenVocab,
        span: &[u8],
        tokens: &mut Vec<u32>,
    ) {
        let start = tokens.len();
        vocab.byte_vocab().append_tokens(span, tokens);
        proof {
            let seeded = byte_tokens(vocab.byte_table(), span@);
            assert(tokens@.take(start as int) =~= old(tokens)@);
            assert(tokens@.skip(start as int) =~= seeded);
        }
        HybridSpanEncoder::sweep(vocab, tokens, start);
    }
}

} // verus!
