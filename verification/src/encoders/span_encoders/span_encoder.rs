//! What every span encoder computes.

use crate::merges::merge_all;
use crate::vocab::byte_vocab::byte_tokens;
use crate::vocab::unified_vocab::UnifiedTokenVocab;
use vstd::prelude::*;

verus! {

/// The tokens of a span that is no single token of the vocabulary: the
/// byte-level tokens of the span, merged by the vocabulary's ranks.
pub open spec fn compound_span_tokens(vocab: &UnifiedTokenVocab, span: Seq<u8>) -> Seq<u32> {
    merge_all(vocab.pair_ranks(), byte_tokens(vocab.byte_table(), span))
}

/// A merge strategy for single spans.
///
/// An encoder may keep working buffers between calls, so one instance serves
/// one caller at a time.
pub trait SpanEncoder {
    /// Appends the tokens of `span` to `tokens`.
    ///
    /// The span is taken as it is: the caller has looked it up as a whole
    /// before.
    fn encode_append_compound_span(
        &mut self,
        vocab: &UnifiedTokenVocab,
        span: &[u8],
        tokens: &mut Vec<u32>,
    )
        requires
            vocab.wf(),
        ensures
            final(tokens)@ == old(tokens)@ + compound_span_tokens(vocab, span@),
    ;
}

} // verus!
