//! The encoder that drives a text spanner and a span encoder.

use crate::encoders::span_encoders::hybrid_span_encoder::HybridSpanEncoder;
use crate::encoders::span_encoders::incremental_sweep_span_encoder::IncrementalSweepSpanEncoder;
use crate::encoders::span_encoders::merge_heap_span_encoder::MergeHeapSpanEncoder;
use crate::encoders::span_encoders::span_encoder::SpanEncoder;
use crate::encoders::token_encoder::{
    join_tokens, lemma_concat_tokens_concat, lemma_concat_tokens_one,
    concat_bytes, concat_tokens, lemma_concat_prefix, lemma_concat_tokens_none,
    lemma_concat_tokens_step, lemma_decode_parts, lemma_decode_word, special_tokens,
    TokenEncoder, word_tokens,
};
use crate::regex::exact_match_union::union_pattern;
use crate::regex::regex_wrapper::{byte_len, PatternError, RegexWrapper};
use crate::segmentation::text_segmentor::TextSegmentor;
use crate::spanning::lexer_spanner::{at_base, lexed, word_spans, LexerTextSpanner};
use crate::spanning::span_lexer::SpanLexer;
use crate::spanning::text_spanner::{lemma_tiles_bounds, SpanRef};
use crate::types::EncodeError;
use crate::vocab::unified_vocab::UnifiedTokenVocab;
use std::sync::Arc;
use vstd::prelude::*;
use vstd::slice::slice_subrange;
use vstd::string::StringSliceAdditionalSpecFns;

verus! {

/// The merge strategy of an encoder. The strategies differ in speed, never
/// in what they compute.
#[derive(Clone, Copy, Debug, PartialEq, Eq, Structural)]
pub enum EncoderStrategy {
    /// A linear sweep for the best pair at each step.
    IncrementalSweep,
    /// A min-heap of the pending pairs over a linked list.
    MergeHeap,
    /// The sweep for short spans, the heap for long ones.
    Hybrid,
}

/// The tokens of the span `span` of `text`: none for a gap, those of the
/// word for a word, the single token of the special word for a special
/// span.
pub open spec fn span_tokens(vocab: &UnifiedTokenVocab, text: Seq<u8>, span: SpanRef) -> Option<
    Seq<u32>,
> {
    let range = span.range_spec();
    let bytes = text.subrange(range.start as int, range.end as int);
    match span {
        SpanRef::Gap(_) => Some(Seq::<u32>::empty()),
        SpanRef::Word(_) => Some(word_tokens(vocab, bytes)),
        SpanRef::Special(_) => special_tokens(vocab, bytes),
    }
}

/// The tokens of each of `spans`, as parts.
pub open spec fn span_parts(vocab: &UnifiedTokenVocab, text: Seq<u8>, spans: Seq<SpanRef>) -> Seq<
    Option<Seq<u32>>,
> {
    Seq::new(spans.len(), |i: int| span_tokens(vocab, text, spans[i]))
}

/// The bytes of `text` that the span `span` stands for in the encoding:
/// none for a gap, the span's bytes for a word or a special span.
pub open spec fn span_bytes(text: Seq<u8>, span: SpanRef) -> Seq<u8> {
    match span {
        SpanRef::Gap(_) => Seq::<u8>::empty(),
        _ => text.subrange(span.range_spec().start as int, span.range_spec().end as int),
    }
}

/// The bytes of `text` that `spans` stand for in the encoding: those of its
/// words and special spans, in order, without those of its gaps.
pub open spec fn covered_bytes(text: Seq<u8>, spans: Seq<SpanRef>) -> Seq<u8> {
    concat_bytes(Seq::new(spans.len(), |i: int| span_bytes(text, spans[i])))
}

/// The words and gaps of a chunk have the tokens in the whole text that
/// they have in the chunk taken alone. The chunk is the part of `text` from
/// byte `base` on that is as long as `chunk`.
pub proof fn lemma_word_parts_local<L: SpanLexer>(
    vocab: &UnifiedTokenVocab,
    lexer: L,
    text: Seq<u8>,
    chunk: Seq<u8>,
    last: usize,
    base: usize,
)
    requires
        base + chunk.len() <= text.len() <= usize::MAX,
        chunk == text.subrange(base as int, base + chunk.len()),
        last <= chunk.len(),
    ensures
        span_parts(vocab, text, word_spans(lexer, chunk, last, base)) == span_parts(
            vocab,
            chunk,
            word_spans(lexer, chunk, last, 0),
        ),
    decreases chunk.len() - last,
{
    let there = word_spans(lexer, chunk, last, base);
    let here = word_spans(lexer, chunk, last, 0);
    match lexed(lexer, chunk, last) {
        Some(span) => {
            lemma_word_parts_local(vocab, lexer, text, chunk, span.1, base);
            let rest_there = word_spans(lexer, chunk, span.1, base);
            let rest_here = word_spans(lexer, chunk, span.1, 0);
            assert(text.subrange(base + span.0, base + span.1) =~= chunk.subrange(
                span.0 as int,
                span.1 as int,
            ));
            let word_there = seq![SpanRef::Word(at_base(span.0, span.1, base))];
            let word_here = seq![SpanRef::Word(at_base(span.0, span.1, 0))];
            assert(span_parts(vocab, text, word_there) =~= span_parts(vocab, chunk, word_here));
            if last < span.0 {
                let gap_there = seq![SpanRef::Gap(at_base(last, span.0, base))];
                let gap_here = seq![SpanRef::Gap(at_base(last, span.0, 0))];
                assert(span_parts(vocab, text, gap_there) =~= span_parts(vocab, chunk, gap_here));
                assert(span_parts(vocab, text, gap_there + word_there + rest_there)
                    =~= span_parts(vocab, text, gap_there) + span_parts(vocab, text, word_there)
                    + span_parts(vocab, text, rest_there));
                assert(span_parts(vocab, chunk, gap_here + word_here + rest_here) =~= span_parts(
                    vocab,
                    chunk,
                    gap_here,
                ) + span_parts(vocab, chunk, word_here) + span_parts(vocab, chunk, rest_here));
            } else {
                let none = Seq::<SpanRef>::empty();
                assert(span_parts(vocab, text, none + word_there + rest_there) =~= span_parts(
                    vocab,
                    text,
                    word_there,
                ) + span_parts(vocab, text, rest_there));
                assert(span_parts(vocab, chunk, none + word_here + rest_here) =~= span_parts(
                    vocab,
                    chunk,
                    word_here,
                ) + span_parts(vocab, chunk, rest_here));
            }
        },
        None => {
            assert(span_parts(vocab, text, there) =~= span_parts(vocab, chunk, here));
        },
    }
}

/// An encoder that splits the text into spans and encodes each span: a
/// special span by a lookup, a word by a lookup of the whole word first and
/// by a span encoder on a miss.
pub struct TokenSpanEncoder<W: SpanLexer, S: SpanLexer> {
    spanner: LexerTextSpanner<W, S>,
    vocab: Arc<UnifiedTokenVocab>,
    strategy: EncoderStrategy,
}

impl<W: SpanLexer, S: SpanLexer> TokenSpanEncoder<W, S> {
    /// The text spanner.
    pub closed spec fn spanner(&self) -> LexerTextSpanner<W, S> {
        self.spanner
    }

    /// The vocabulary.
    pub closed spec fn vocab(&self) -> UnifiedTokenVocab {
        *self.vocab
    }

    /// The merge strategy.
    pub closed spec fn strategy(&self) -> EncoderStrategy {
        self.strategy
    }

    /// An encoder over `spanner` and `vocab` that merges by `strategy`.
    pub fn new(
        spanner: LexerTextSpanner<W, S>,
        vocab: Arc<UnifiedTokenVocab>,
        strategy: EncoderStrategy,
    ) -> (e: Self)
        ensures
            e.spanner() == spanner,
            e.vocab() == *vocab,
            e.strategy() == strategy,
    {
        TokenSpanEncoder { spanner, vocab, strategy }
    }

    /// Whether the span `span` of `text` can be encoded: a gap and a word
    /// always can, a special span where its bytes are a special word of the
    /// vocabulary.
    pub fn can_encode_span(&self, text: &str, span: &SpanRef) -> (can: bool)
        requires
            self.vocab().wf(),
            span.range_spec().start <= span.range_spec().end <= text.spec_bytes().len(),
        ensures
            can == span_tokens(&self.vocab(), text.spec_bytes(), *span) is Some,
    {
        match span {
            SpanRef::Special(range) => {
                let bytes = slice_subrange(text.as_bytes(), range.start, range.end);
                self.vocab.lookup_special(bytes).is_some()
            },
            _ => true,
        }
    }

    /// Encodes the single span `span` of `text` by `encoder`, appending its
    /// tokens to `tokens`.
    ///
    /// A gap gives nothing. A word that is a token of the vocabulary as a
    /// whole gives that token; any other word goes to `encoder`. A special
    /// span gives the token of its special word. A special span whose bytes
    /// are no special word of the vocabulary is a fault of the caller, who
    /// tests with `can_encode_span` where it is in doubt.
    pub fn encode_append_span<E: SpanEncoder>(
        &self,
        text: &str,
        span: &SpanRef,
        tokens: &mut Vec<u32>,
        encoder: &mut E,
    )
        requires
            self.vocab().wf(),
            span.range_spec().start <= span.range_spec().end <= text.spec_bytes().len(),
            *span is Special ==> self.vocab().special_token(
                text.spec_bytes().subrange(
                    span.range_spec().start as int,
                    span.range_spec().end as int,
                ),
            ) is Some,
        ensures
            span_tokens(&self.vocab(), text.spec_bytes(), *span) is Some,
            final(tokens)@ == old(tokens)@ + span_tokens(
                &self.vocab(),
                text.spec_bytes(),
                *span,
            ).unwrap(),
    {
        match span {
            SpanRef::Gap(_) => {
                proof {
                    assert(tokens@ + Seq::<u32>::empty() =~= tokens@);
                }
            },
            SpanRef::Word(range) => {
                let bytes = slice_subrange(text.as_bytes(), range.start, range.end);
                match self.vocab.lookup_token(bytes) {
                    Some(token) => {
                        tokens.push(token);
                        proof {
                            assert(tokens@ =~= old(tokens)@ + seq![token]);
                        }
                    },
                    None => {
                        encoder.encode_append_compound_span(&self.vocab, bytes, tokens);
                    },
                }
            },
            SpanRef::Special(range) => {
                let bytes = slice_subrange(text.as_bytes(), range.start, range.end);
                match self.vocab.lookup_special(bytes) {
                    Some(token) => {
                        tokens.push(token);
                        proof {
                            assert(tokens@ =~= old(tokens)@ + seq![token]);
                        }
                    },
                    None => {},
                }
            },
        }
    }

    /// Appends the tokens of `text` to `tokens`, with `encoder` for the
    /// words that are no single token.
    pub fn encode_append_with<E: SpanEncoder>(
        &self,
        encoder: &mut E,
        text: &str,
        tokens: &mut Vec<u32>,
    ) -> (r: Result<(), EncodeError>)
        requires
            self.vocab().wf(),
        ensures
            match self.encoding(text.spec_bytes()) {
                Some(t) => r is Ok && final(tokens)@ == old(tokens)@ + t,
                None => r == Err::<(), EncodeError>(EncodeError::UnknownSpecial) && final(tokens)@
                    == old(tokens)@,
            },
    {
        let ghost bytes = text.spec_bytes();
        let ghost before = tokens@;
        let len = byte_len(text);
        let spans = self.spanner.split_spans(text);
        let ghost parts = span_parts(&self.vocab(), bytes, spans@);
        let start = tokens.len();
        proof {
            self.spanner.lemma_split_spans_tile(bytes);
            lemma_tiles_bounds(spans@, 0, bytes.len() as int);
            assert(parts.take(0) =~= Seq::<Option<Seq<u32>>>::empty());
            assert(before + Seq::<u32>::empty() =~= before);
        }
        let mut i: usize = 0;
        while i < spans.len()
            invariant
                i <= spans@.len(),
                bytes == text.spec_bytes(),
                self.vocab().wf(),
                spans@ == self.spanner.split_spans_spec(bytes),
                parts == span_parts(&self.vocab(), bytes, spans@),
                forall|k: int|
                    0 <= k < spans@.len() ==> (#[trigger] spans@[k]).range_spec().start
                        <= spans@[k].range_spec().end <= bytes.len(),
                start == before.len(),
                before == old(tokens)@,
                concat_tokens(parts.take(i as int)) is Some,
                tokens@ == before + concat_tokens(parts.take(i as int)).unwrap(),
            decreases spans@.len() - i,
        {
            proof {
                lemma_concat_tokens_step(parts, i as int);
            }
            if !self.can_encode_span(text, &spans[i]) {
                tokens.truncate(start);
                proof {
                    lemma_concat_tokens_none(parts, i + 1);
                    assert(tokens@ =~= before);
                }
                return Err(EncodeError::UnknownSpecial);
            }
            self.encode_append_span(text, &spans[i], tokens, encoder);
            proof {
                assert(tokens@ =~= before + concat_tokens(parts.take(i + 1)).unwrap());
            }
            i += 1;
        }
        proof {
            assert(parts.take(i as int) =~= parts);
        }
        Ok(())
    }

    /// Decoding the tokens of a text gives the bytes of the text's words and
    /// special spans in order: the text without its gaps.
    pub proof fn lemma_round_trip(&self, text: Seq<u8>)
        requires
            self.wf(),
            self.encoding(text) is Some,
        ensures
            self.vocab().decode_spec(self.encoding(text).unwrap()) == Some(
                covered_bytes(text, self.spanner().split_spans_spec(text)),
            ),
    {
        let vocab = self.vocab();
        let spans = self.spanner().split_spans_spec(text);
        let parts = span_parts(&vocab, text, spans);
        let pieces = Seq::new(spans.len(), |i: int| span_bytes(text, spans[i]));
        assert forall|i: int| 0 <= i < parts.len() && (#[trigger] parts[i]) is Some implies vocab.decode_spec(
            parts[i].unwrap(),
        ) == Some(pieces[i]) by {
            let range = spans[i].range_spec();
            let bytes = text.subrange(range.start as int, range.end as int);
            match spans[i] {
                SpanRef::Gap(_) => {},
                SpanRef::Word(_) => {
                    lemma_decode_word(&vocab, bytes);
                },
                SpanRef::Special(_) => {
                    vocab.lemma_decode_special_token(bytes);
                },
            }
        }
        lemma_decode_parts(&vocab, parts, pieces);
    }

    /// A special span of a text stands in the text's tokens as the single
    /// token of its special word, after the tokens of the spans before it.
    pub proof fn lemma_special_is_one_token(&self, text: Seq<u8>, k: int)
        requires
            self.encoding(text) is Some,
            0 <= k < self.spanner().split_spans_spec(text).len(),
            self.spanner().split_spans_spec(text)[k] is Special,
        ensures
            ({
                let spans = self.spanner().split_spans_spec(text);
                let range = spans[k].range_spec();
                let word = text.subrange(range.start as int, range.end as int);
                let before = concat_tokens(span_parts(&self.vocab(), text, spans.take(k)));
                &&& self.vocab().special_token(word) is Some
                &&& before is Some
                &&& before.unwrap().len() < self.encoding(text).unwrap().len()
                &&& self.encoding(text).unwrap().take(before.unwrap().len() as int)
                    == before.unwrap()
                &&& self.encoding(text).unwrap()[before.unwrap().len() as int]
                    == self.vocab().special_token(word).unwrap()
            }),
    {
        let vocab = self.vocab();
        let spans = self.spanner().split_spans_spec(text);
        let parts = span_parts(&vocab, text, spans);
        lemma_concat_prefix(parts, k + 1);
        lemma_concat_tokens_step(parts, k);
        assert(parts.take(k) =~= span_parts(&vocab, text, spans.take(k)));
        let range = spans[k].range_spec();
        let word = text.subrange(range.start as int, range.end as int);
        assert(parts[k] == special_tokens(&vocab, word));
        let t = vocab.special_token(word).unwrap();
        let head = concat_tokens(parts.take(k)).unwrap();
        let upto = concat_tokens(parts.take(k + 1)).unwrap();
        let all = concat_tokens(parts).unwrap();
        assert(upto == head + seq![t]);
        assert(upto.take(head.len() as int) =~= head);
        assert(all.take(upto.len() as int) == upto);
        assert(all.take(head.len() as int) =~= all.take(upto.len() as int).take(head.len() as int));
        assert(all[head.len() as int] == all.take(upto.len() as int)[head.len() as int]);
    }

    /// The spans of a text from `offset` on have the tokens that the spans
    /// of the rest of the text from `offset` on have, taken as a text of its
    /// own.
    pub proof fn lemma_parts_shift(&self, text: Seq<u8>, offset: usize)
        requires
            offset <= text.len() <= usize::MAX,
        ensures
            span_parts(&self.vocab(), text, self.spanner().split_spans_from(text, offset))
                == span_parts(
                &self.vocab(),
                text.skip(offset as int),
                self.spanner().split_spans_spec(text.skip(offset as int)),
            ),
        decreases text.len() - offset,
    {
        let vocab = self.vocab();
        let spanner = self.spanner();
        let lexer = spanner.word_lexer();
        let current = text.skip(offset as int);
        assert(current.skip(0) =~= current);
        assert(current =~= text.subrange(offset as int, offset + current.len()));
        assert(current =~= current.subrange(0, current.len() as int));
        match spanner.special_at(current) {
            Some(span) => {
                let chunk = current.take(span.0 as int);
                let a1 = word_spans(lexer, chunk, 0, offset);
                let s1 = seq![SpanRef::Special(at_base(span.0, span.1, offset))];
                let r1 = spanner.split_spans_from(text, (offset + span.1) as usize);
                let a2 = word_spans(lexer, chunk, 0, 0);
                let s2 = seq![SpanRef::Special(at_base(span.0, span.1, 0))];
                let r2 = spanner.split_spans_from(current, span.1);
                assert(spanner.split_spans_from(text, offset) == a1 + s1 + r1);
                assert(spanner.split_spans_spec(current) == a2 + s2 + r2);
                assert(chunk =~= text.subrange(offset as int, offset + chunk.len()));
                assert(chunk =~= current.subrange(0, chunk.len() as int));
                lemma_word_parts_local(&vocab, lexer, text, chunk, 0, offset);
                lemma_word_parts_local(&vocab, lexer, current, chunk, 0, 0);
                assert(text.subrange(offset + span.0, offset + span.1) =~= current.subrange(
                    span.0 as int,
                    span.1 as int,
                ));
                assert(span_parts(&vocab, text, s1) =~= span_parts(&vocab, current, s2));
                self.lemma_parts_shift(text, (offset + span.1) as usize);
                self.lemma_parts_shift(current, span.1);
                assert(current.skip(span.1 as int) =~= text.skip(offset + span.1));
                assert(span_parts(&vocab, text, a1 + s1 + r1) =~= span_parts(&vocab, text, a1)
                    + span_parts(&vocab, text, s1) + span_parts(&vocab, text, r1));
                assert(span_parts(&vocab, current, a2 + s2 + r2) =~= span_parts(
                    &vocab,
                    current,
                    a2,
                ) + span_parts(&vocab, current, s2) + span_parts(&vocab, current, r2));
            },
            None => {
                lemma_word_parts_local(&vocab, lexer, text, current, 0, offset);
            },
        }
    }

    /// A special word stands at its place. Where the first special span of
    /// `text` is found at some range, and none is found in the part of the
    /// text before that range taken alone, the tokens of the text are the
    /// tokens of the part before, then the special word's single token, then
    /// the tokens of the part after: no token covers a part of the special
    /// word only.
    pub proof fn lemma_special_splits_encoding(&self, text: Seq<u8>)
        requires
            text.len() <= usize::MAX,
            self.spanner().special_at(text) is Some,
            self.spanner().special_at(
                text.take(self.spanner().special_at(text).unwrap().0 as int),
            ) is None,
        ensures
            ({
                let found = self.spanner().special_at(text).unwrap();
                self.encoding(text) == join_tokens(
                    join_tokens(
                        self.encoding(text.take(found.0 as int)),
                        special_tokens(
                            &self.vocab(),
                            text.subrange(found.0 as int, found.1 as int),
                        ),
                    ),
                    self.encoding(text.skip(found.1 as int)),
                )
            }),
    {
        let vocab = self.vocab();
        let spanner = self.spanner();
        let lexer = spanner.word_lexer();
        let found = spanner.special_at(text).unwrap();
        let k = found.0;
        let e = found.1;
        let before = text.take(k as int);
        assert(text.skip(0) =~= text);
        assert(before.skip(0) =~= before);
        let words = word_spans(lexer, before, 0, 0);
        let special = seq![SpanRef::Special(at_base(k, e, 0))];
        let rest = spanner.split_spans_from(text, e);
        assert(spanner.split_spans_spec(text) == words + special + rest);
        assert(spanner.split_spans_spec(before) == words);
        assert(span_parts(&vocab, text, words + special + rest) =~= span_parts(
            &vocab,
            text,
            words,
        ) + span_parts(&vocab, text, special) + span_parts(&vocab, text, rest));
        lemma_concat_tokens_concat(
            span_parts(&vocab, text, words) + span_parts(&vocab, text, special),
            span_parts(&vocab, text, rest),
        );
        lemma_concat_tokens_concat(
            span_parts(&vocab, text, words),
            span_parts(&vocab, text, special),
        );
        assert(span_parts(&vocab, text, special) =~= seq![
            special_tokens(&vocab, text.subrange(k as int, e as int)),
        ]);
        lemma_concat_tokens_one(special_tokens(&vocab, text.subrange(k as int, e as int)));
        assert(before =~= text.subrange(0, k as int));
        lemma_word_parts_local(&vocab, lexer, text, before, 0, 0);
        self.lemma_parts_shift(text, e);
    }

    /// The tokens of a word depend on the word's bytes only, not on the
    /// text around it: equal words of two texts have equal tokens.
    pub proof fn lemma_word_tokens_are_local(
        &self,
        text1: Seq<u8>,
        span1: SpanRef,
        text2: Seq<u8>,
        span2: SpanRef,
    )
        requires
            span1 is Word,
            span2 is Word,
            text1.subrange(span1.range_spec().start as int, span1.range_spec().end as int)
                == text2.subrange(span2.range_spec().start as int, span2.range_spec().end as int),
        ensures
            span_tokens(&self.vocab(), text1, span1) == span_tokens(&self.vocab(), text2, span2),
    {
    }

    /// Encoders over the same vocabulary whose lexers find the same spans
    /// encode every text alike, whatever their strategies.
    pub proof fn lemma_strategy_equivalence(&self, other: &Self, text: Seq<u8>)
        requires
            self.vocab() == other.vocab(),
            self.spanner().same_lexers(&other.spanner()),
        ensures
            self.encoding(text) == other.encoding(text),
    {
        self.spanner().lemma_same_lexers(&other.spanner(), text, 0);
    }
}

impl<W: SpanLexer, S: SpanLexer> TokenEncoder for TokenSpanEncoder<W, S> {
    open spec fn wf(&self) -> bool {
        self.vocab().wf()
    }

    /// The tokens of the spanner's spans of `text`, in order.
    open spec fn encoding(&self, text: Seq<u8>) -> Option<Seq<u32>> {
        concat_tokens(span_parts(&self.vocab(), text, self.spanner().split_spans_spec(text)))
    }

    fn try_encode_append(&self, text: &str, tokens: &mut Vec<u32>) -> (r: Result<
        (),
        EncodeError,
    >) {
        match self.strategy {
            EncoderStrategy::IncrementalSweep => {
                let mut encoder = IncrementalSweepSpanEncoder::new();
                self.encode_append_with(&mut encoder, text, tokens)
            },
            EncoderStrategy::MergeHeap => {
                let mut encoder = MergeHeapSpanEncoder::new();
                self.encode_append_with(&mut encoder, text, tokens)
            },
            EncoderStrategy::Hybrid => {
                let mut encoder = HybridSpanEncoder::new();
                self.encode_append_with(&mut encoder, text, tokens)
            },
        }
    }
}

impl Clone for TokenSpanEncoder<RegexWrapper, RegexWrapper> {
    fn clone(&self) -> (e: Self)
        ensures
            e.vocab() == self.vocab(),
            e.strategy() == self.strategy(),
            e.spanner().same_lexers(&self.spanner()),
    {
        let spanner = self.spanner.clone_patterns();
        TokenSpanEncoder { spanner, vocab: self.vocab.clone(), strategy: self.strategy }
    }
}

/// An encoder for the vocabulary `vocab` that merges by `strategy`, with
/// lexers compiled from the vocabulary's word pattern and special words.
///
/// Fails where the word pattern, or the pattern of the special words, does
/// not compile.
pub fn build_encoder(vocab: UnifiedTokenVocab, strategy: EncoderStrategy) -> (r: Result<
    TokenSpanEncoder<RegexWrapper, RegexWrapper>,
    PatternError,
>)
    requires
        vocab.wf(),
    ensures
        r is Ok <==> TextSegmentor::compiles(
            vocab.segmentation_spec().pattern_view(),
            TextSegmentor::word_texts(vocab.segmentation_spec().specials().words()),
        ),
        r matches Ok(e) ==> e.wf() && e.vocab() == vocab && e.strategy() == strategy
            && e.spanner().word_lexer().pattern() == vocab.segmentation_spec().pattern_view() && (
        match e.spanner().special_lexer() {
            Some(lexer) => vocab.segmentation_spec().specials().words().len() > 0
                && lexer.pattern() == union_pattern(
                TextSegmentor::word_texts(vocab.segmentation_spec().specials().words()),
            ),
            None => vocab.segmentation_spec().specials().words().len() == 0,
        }),
{
    let segmentor = match TextSegmentor::from_config(vocab.segmentation()) {
        Ok(s) => s,
        Err(e) => {
            return Err(e);
        },
    };
    let spanner = LexerTextSpanner::new(segmentor.span_re, segmentor.special_re);
    Ok(TokenSpanEncoder::new(spanner, Arc::new(vocab), strategy))
}

} // verus!
