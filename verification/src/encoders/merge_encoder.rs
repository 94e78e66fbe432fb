//! An encoder that merges each word over a working vector of pair ranks.

use crate::encoders::span_encoders::span_encoder::compound_span_tokens;
use crate::encoders::token_encoder::{
    concat_bytes, concat_tokens, join_tokens, lemma_concat_tokens_concat,
    lemma_concat_tokens_empty, lemma_concat_tokens_none, lemma_concat_tokens_one,
    lemma_concat_tokens_step, lemma_decode_parts, lemma_decode_word, special_tokens,
    word_tokens, TokenEncoder,
};
use crate::merges::{
    is_best_pair, lemma_merge_all_fixed, lemma_merge_all_step, merge_all, merge_at,
    merges_before, pair_rank,
};
use crate::regex::regex_wrapper::{regex_matches, valid_matches, valid_span, PatternError};
use crate::segmentation::text_segmentor::{
    lemma_valid_matches_bounds, normal_words, SpanRef, TextSegmentor,
};
use crate::spanning::lexer_spanner::at_base;
use crate::types::EncodeError;
use crate::vocab::byte_vocab::byte_tokens;
use crate::vocab::special_vocab::SpecialVocab;
use crate::vocab::unified_vocab::UnifiedTokenVocab;
use core::marker::PhantomData;
use std::sync::Arc;
use vstd::prelude::*;
use vstd::slice::slice_subrange;
use vstd::string::StringSliceAdditionalSpecFns;

verus! {

/// The entry of the working vector for a pair without a rank.
pub const NO_RANK: u32 = 0xFFFF_FFFFu32;

/// The working state of one caller's merges over a vocabulary.
pub trait MergeContext {
    /// The vocabulary that the context merges by.
    spec fn vocab(&self) -> UnifiedTokenVocab;

    /// Encodes a single word that is no token of the vocabulary as a whole,
    /// appending its tokens to `tokens`.
    fn encode_append_word(&mut self, span: &[u8], tokens: &mut Vec<u32>)
        requires
            old(self).vocab().wf(),
        ensures
            final(self).vocab() == old(self).vocab(),
            final(tokens)@ == old(tokens)@ + compound_span_tokens(&old(self).vocab(), span@),
    ;
}

/// Makes the merge contexts of one kind.
pub trait MergeContextBuilder {
    /// The kind of context that the builder makes.
    type Context<'a>: MergeContext;

    /// A fresh context over `data`.
    fn build_merge_context<'a>(data: &'a UnifiedTokenVocab) -> (c: Self::Context<'a>)
        ensures
            c.vocab() == *data,
    ;
}

/// The rank of the pair at `i` of `cur`, or `NO_RANK` where it has none.
pub open spec fn rank_or_none(ranks: Map<(u32, u32), u32>, cur: Seq<u32>, i: int) -> u32 {
    match pair_rank(ranks, cur, i) {
        Some(r) => r,
        None => NO_RANK,
    }
}

/// No rank of the table is `NO_RANK`.
pub open spec fn ranks_below_none(ranks: Map<(u32, u32), u32>) -> bool {
    forall|p: (u32, u32)| #[trigger] ranks.contains_key(p) ==> ranks[p] != NO_RANK
}

/// Keeps the rank of every adjacent pair of the word in a vector beside the
/// tokens, and after each merge looks up only the two pairs that changed.
pub struct HeapMergeContext<'a> {
    data: &'a UnifiedTokenVocab,
    pair_ranks: Vec<u32>,
}

impl<'a> HeapMergeContext<'a> {
    fn rank_at(&self, tokens: &Vec<u32>, left: usize, right: usize) -> (r: u32)
        requires
            left < tokens@.len(),
            right < tokens@.len(),
        ensures
            r == (match crate::encoders::span_encoders::hybrid_span_encoder::rank_of(
                self.data.pair_ranks(),
                tokens@[left as int],
                tokens@[right as int],
            ) {
                Some(t) => t,
                None => NO_RANK,
            }),
    {
        match self.data.lookup_pair(&(tokens[left], tokens[right])) {
            Some(t) => t,
            None => NO_RANK,
        }
    }
}

impl<'a> MergeContext for HeapMergeContext<'a> {
    closed spec fn vocab(&self) -> UnifiedTokenVocab {
        *self.data
    }

    fn encode_append_word(&mut self, span: &[u8], tokens: &mut Vec<u32>) {
        let ghost ranks = self.data.pair_ranks();
        let ghost before = tokens@;
        proof {
            self.data.lemma_ranks_below_sentinel();
        }
        self.pair_ranks.clear();

        // The output buffer is the working memory: the word's tokens are
        // `tokens[start..]`.
        let start = tokens.len();
        self.data.byte_vocab().append_tokens(span, tokens);
        let ghost seeded = byte_tokens(self.data.byte_table(), span@);
        proof {
            assert(tokens@.take(start as int) =~= before);
            assert(tokens@.skip(start as int) =~= seeded);
        }
        if tokens.len() - start < 2 {
            proof {
                assert forall|j: int| #[trigger] pair_rank(ranks, seeded, j) is None by {}
                lemma_merge_all_fixed(ranks, seeded);
            }
            return ;
        }
        let mut i: usize = 0;
        while i + 1 < tokens.len() - start
            invariant
                start + 2 <= tokens@.len() <= usize::MAX,
                i + 1 <= tokens@.len() - start,
                tokens@.take(start as int) == before,
                tokens@.skip(start as int) == seeded,
                ranks == self.data.pair_ranks(),
                self.data == old(self).data,
                self.pair_ranks@.len() == i,
                forall|k: int|
                    0 <= k < i ==> #[trigger] self.pair_ranks@[k] == rank_or_none(
                        ranks,
                        tokens@.skip(start as int),
                        k,
                    ),
            decreases tokens@.len() - start - i,
        {
            let r = self.rank_at(tokens, start + i, start + i + 1);
            self.pair_ranks.push(r);
            i += 1;
        }

        loop
            invariant
                start + 1 <= tokens@.len() <= usize::MAX,
                tokens@.take(start as int) == before,
                ranks == self.data.pair_ranks(),
                self.data == old(self).data,
                ranks_below_none(ranks),
                self.pair_ranks@.len() == tokens@.len() - start - 1,
                forall|k: int|
                    0 <= k < self.pair_ranks@.len() ==> #[trigger] self.pair_ranks@[k]
                        == rank_or_none(ranks, tokens@.skip(start as int), k),
                merge_all(ranks, tokens@.skip(start as int)) == merge_all(ranks, seeded),
            ensures
                tokens@ == before + merge_all(ranks, seeded),
            decreases tokens@.len(),
        {
            let ghost cur = tokens@.skip(start as int);
            proof {
                assert forall|k: int| #[trigger] pair_rank(ranks, cur, k) is Some implies pair_rank(
                    ranks,
                    cur,
                    k,
                ).unwrap() != NO_RANK by {
                    assert(ranks.contains_key((cur[k], cur[k + 1])));
                }
            }
            // Find the least rank, leftmost among equals.
            let mut best: u32 = NO_RANK;
            let mut at: usize = 0;
            let mut k: usize = 0;
            while k < self.pair_ranks.len()
                invariant
                    k <= self.pair_ranks@.len(),
                    self.pair_ranks@.len() == cur.len() - 1,
                    forall|m: int|
                        0 <= m < self.pair_ranks@.len() ==> #[trigger] self.pair_ranks@[m]
                            == rank_or_none(ranks, cur, m),
                    forall|m: int| #[trigger]
                        pair_rank(ranks, cur, m) is Some ==> pair_rank(ranks, cur, m).unwrap()
                            != NO_RANK,
                    best == NO_RANK ==> forall|m: int|
                        0 <= m < k ==> #[trigger] pair_rank(ranks, cur, m) is None,
                    best != NO_RANK ==> at < k && pair_rank(ranks, cur, at as int) == Some(best)
                        && forall|m: int|
                        0 <= m < k && #[trigger] pair_rank(ranks, cur, m) is Some ==> merges_before(
                            best,
                            at as int,
                            pair_rank(ranks, cur, m).unwrap(),
                            m,
                        ),
                decreases self.pair_ranks@.len() - k,
            {
                let r = self.pair_ranks[k];
                if r < best {
                    best = r;
                    at = k;
                }
                k += 1;
            }
            if best == NO_RANK {
                proof {
                    assert forall|m: int| #[trigger] pair_rank(ranks, cur, m) is None by {
                        if 0 <= m < cur.len() - 1 {
                        }
                    }
                    lemma_merge_all_fixed(ranks, cur);
                    assert(tokens@ =~= before + cur);
                }
                break ;
            }
            proof {
                assert(is_best_pair(ranks, cur, at as int));
                lemma_merge_all_step(ranks, cur, at as int);
            }

            // Put the merged token in the pair's left place.
            tokens[start + at] = best;

            if at > 0 {
                // The pair with the token before changes.
                let r = self.rank_at(tokens, start + at - 1, start + at);
                self.pair_ranks[at - 1] = r;
            }
            if at + 2 < tokens.len() - start {
                // So does the pair with the token after the one that leaves;
                // its rank moves to this pair's place by the removal below.
                let r = self.rank_at(tokens, start + at, start + at + 2);
                self.pair_ranks[at + 1] = r;
            }
            // Drop this pair's rank and the pair's right token.
            self.pair_ranks.remove(at);
            tokens.remove(start + at + 1);
            proof {
                assert(tokens@.take(start as int) =~= before);
                assert(tokens@.skip(start as int) =~= merge_at(cur, at as int, best));
                let cur1 = tokens@.skip(start as int);
                assert forall|m: int| 0 <= m < self.pair_ranks@.len() implies #[trigger] self.pair_ranks@[m]
                    == rank_or_none(ranks, cur1, m) by {
                    if m < at - 1 {
                        assert(rank_or_none(ranks, cur1, m) == rank_or_none(ranks, cur, m));
                    } else if m == at - 1 {
                    } else if m == at {
                    } else {
                        assert(rank_or_none(ranks, cur1, m) == rank_or_none(ranks, cur, m + 1));
                    }
                }
            }
        }
    }
}

/// Builds contexts of the kind `HeapMergeContext`.
pub struct HeapMergeContextBuilder {}

impl MergeContextBuilder for HeapMergeContextBuilder {
    type Context<'a> = HeapMergeContext<'a>;

    fn build_merge_context<'a>(data: &'a UnifiedTokenVocab) -> (c: HeapMergeContext<'a>) {
        HeapMergeContext { data, pair_ranks: Vec::with_capacity(16) }
    }
}

/// The tokens of the span `span` of `text`: those of the word for a normal
/// word, the single token of the special word for a special word.
pub open spec fn segment_tokens(vocab: &UnifiedTokenVocab, text: Seq<u8>, span: SpanRef) -> Option<
    Seq<u32>,
> {
    let range = span.range_spec();
    let bytes = text.subrange(range.start as int, range.end as int);
    match span {
        SpanRef::Normal(_) => Some(word_tokens(vocab, bytes)),
        SpanRef::Special(_) => special_tokens(vocab, bytes),
    }
}

/// The tokens of each of `spans`, as parts.
pub open spec fn segment_parts(vocab: &UnifiedTokenVocab, text: Seq<u8>, spans: Seq<SpanRef>) -> Seq<
    Option<Seq<u32>>,
> {
    Seq::new(spans.len(), |i: int| segment_tokens(vocab, text, spans[i]))
}

/// The bytes of `text` under each of `spans`, in order.
pub open spec fn segment_bytes(text: Seq<u8>, spans: Seq<SpanRef>) -> Seq<u8> {
    concat_bytes(
        Seq::new(
            spans.len(),
            |i: int|
                text.subrange(
                    spans[i].range_spec().start as int,
                    spans[i].range_spec().end as int,
                ),
        ),
    )
}

/// The normal words of a chunk have the tokens in the whole text that they
/// have in the chunk taken alone. The chunk is the part of `text` from byte
/// `offset` on that is as long as `chunk`.
pub proof fn lemma_normal_parts_local(
    vocab: &UnifiedTokenVocab,
    pattern: Seq<char>,
    text: Seq<u8>,
    chunk: Seq<u8>,
    offset: usize,
)
    requires
        offset + chunk.len() <= text.len() <= usize::MAX,
        chunk == text.subrange(offset as int, offset + chunk.len()),
    ensures
        segment_parts(vocab, text, normal_words(pattern, chunk, offset)) == segment_parts(
            vocab,
            chunk,
            normal_words(pattern, chunk, 0),
        ),
{
    let found = valid_matches(chunk, regex_matches(pattern, chunk), 0);
    lemma_valid_matches_bounds(chunk, regex_matches(pattern, chunk), 0);
    let there = segment_parts(vocab, text, normal_words(pattern, chunk, offset));
    let here = segment_parts(vocab, chunk, normal_words(pattern, chunk, 0));
    assert forall|i: int| 0 <= i < found.len() implies there[i] == here[i] by {
        let m = found[i];
        assert(valid_span(chunk, 0, m));
        assert(text.subrange(offset + m.0, offset + m.1) =~= chunk.subrange(
            m.0 as int,
            m.1 as int,
        ));
    }
    assert(there =~= here);
}

/// The normal words of an empty chunk have no tokens.
pub proof fn lemma_empty_chunk_parts(vocab: &UnifiedTokenVocab, pattern: Seq<char>, chunk: Seq<u8>)
    requires
        vocab.wf(),
        chunk.len() == 0,
    ensures
        concat_tokens(segment_parts(vocab, chunk, normal_words(pattern, chunk, 0))) == Some(
            Seq::<u32>::empty(),
        ),
{
    let found = valid_matches(chunk, regex_matches(pattern, chunk), 0);
    lemma_valid_matches_bounds(chunk, regex_matches(pattern, chunk), 0);
    let parts = segment_parts(vocab, chunk, normal_words(pattern, chunk, 0));
    assert forall|i: int| 0 <= i < parts.len() implies #[trigger] parts[i] == Some(
        Seq::<u32>::empty(),
    ) by {
        let m = found[i];
        assert(valid_span(chunk, 0, m));
        let bytes = chunk.subrange(m.0 as int, m.1 as int);
        assert(bytes =~= Seq::<u8>::empty());
        if vocab.word_token(bytes) is Some {
            let t = vocab.word_token(bytes).unwrap();
            assert(vocab.token_spans().contains_key(t));
            assert(false);
        }
        let seeded = byte_tokens(vocab.byte_table(), bytes);
        assert(seeded =~= Seq::<u32>::empty());
        assert forall|j: int| #[trigger] pair_rank(vocab.pair_ranks(), seeded, j) is None by {}
        lemma_merge_all_fixed(vocab.pair_ranks(), seeded);
    }
    lemma_concat_tokens_empty(parts);
}

/// The spans of a text from `offset` on have the tokens that the spans of
/// the rest of the text from `offset` on have, taken as a text of its own.
pub proof fn lemma_parts_shift(
    seg: &TextSegmentor,
    vocab: &UnifiedTokenVocab,
    text: Seq<u8>,
    offset: usize,
)
    requires
        offset <= text.len() <= usize::MAX,
    ensures
        segment_parts(vocab, text, seg.segment_from(text, offset)) == segment_parts(
            vocab,
            text.skip(offset as int),
            seg.segment_spec(text.skip(offset as int)),
        ),
    decreases text.len() - offset,
{
    let pattern = seg.span_re.pattern();
    let current = text.skip(offset as int);
    assert(current.skip(0) =~= current);
    assert(current =~= text.subrange(offset as int, offset + current.len()));
    assert(current =~= current.subrange(0, current.len() as int));
    match seg.special_at(current) {
        Some(span) => {
            let chunk = current.take(span.0 as int);
            let a1 = normal_words(pattern, chunk, offset);
            let s1 = seq![SpanRef::Special(at_base(span.0, span.1, offset))];
            let r1 = seg.segment_from(text, (offset + span.1) as usize);
            let a2 = normal_words(pattern, chunk, 0);
            let s2 = seq![SpanRef::Special(at_base(span.0, span.1, 0))];
            let r2 = seg.segment_from(current, span.1);
            assert(seg.segment_from(text, offset) == a1 + s1 + r1);
            assert(seg.segment_spec(current) == a2 + s2 + r2);
            assert(chunk =~= text.subrange(offset as int, offset + chunk.len()));
            assert(chunk =~= current.subrange(0, chunk.len() as int));
            lemma_normal_parts_local(vocab, pattern, text, chunk, offset);
            lemma_normal_parts_local(vocab, pattern, current, chunk, 0);
            assert(text.subrange(offset + span.0, offset + span.1) =~= current.subrange(
                span.0 as int,
                span.1 as int,
            ));
            assert(segment_parts(vocab, text, s1) =~= segment_parts(vocab, current, s2));
            lemma_parts_shift(seg, vocab, text, (offset + span.1) as usize);
            lemma_parts_shift(seg, vocab, current, span.1);
            assert(current.skip(span.1 as int) =~= text.skip(offset + span.1));
            assert(segment_parts(vocab, text, a1 + s1 + r1) =~= segment_parts(vocab, text, a1)
                + segment_parts(vocab, text, s1) + segment_parts(vocab, text, r1));
            assert(segment_parts(vocab, current, a2 + s2 + r2) =~= segment_parts(
                vocab,
                current,
                a2,
            ) + segment_parts(vocab, current, s2) + segment_parts(vocab, current, r2));
        },
        None => {
            if current.len() > 0 {
                lemma_normal_parts_local(vocab, pattern, text, current, offset);
            } else {
                assert(segment_parts(vocab, text, Seq::<SpanRef>::empty()) =~= segment_parts(
                    vocab,
                    current,
                    Seq::<SpanRef>::empty(),
                ));
            }
        },
    }
}

/// An encoder that looks each word up as a whole and, on a miss, merges
/// its byte-level tokens in a merge context.
pub struct MergeEncoder<B: MergeContextBuilder = HeapMergeContextBuilder> {
    data: Arc<UnifiedTokenVocab>,
    segmentor: TextSegmentor,
    marker: PhantomData<B>,
}

impl<B: MergeContextBuilder> MergeEncoder<B> {
    /// The vocabulary.
    pub closed spec fn vocab(&self) -> UnifiedTokenVocab {
        *self.data
    }

    /// The text segmentor.
    pub closed spec fn segmentor_spec(&self) -> TextSegmentor {
        self.segmentor
    }

    /// An encoder over the vocabulary `data`, with a segmentor for its word
    /// pattern and special words.
    ///
    /// Fails where a pattern of the vocabulary does not compile.
    pub fn init(data: UnifiedTokenVocab) -> (r: Result<Self, PatternError>)
        requires
            data.wf(),
        ensures
            r is Ok <==> TextSegmentor::compiles(
                data.segmentation_spec().pattern_view(),
                TextSegmentor::word_texts(data.segmentation_spec().specials().words()),
            ),
            r matches Ok(e) ==> e.vocab() == data && e.segmentor_spec().built_from(
                data.segmentation_spec().pattern_view(),
                TextSegmentor::word_texts(data.segmentation_spec().specials().words()),
            ),
    {
        let segmentor = match TextSegmentor::from_config(data.segmentation()) {
            Ok(s) => s,
            Err(e) => {
                return Err(e);
            },
        };
        Ok(MergeEncoder { data: Arc::new(data), segmentor, marker: PhantomData })
    }

    /// Whether the span `span_ref` of `text` can be encoded: a normal word
    /// always can, a special span where its bytes are a special word of the
    /// vocabulary.
    pub fn can_encode_span_ref(&self, text: &str, span_ref: &SpanRef) -> (can: bool)
        requires
            self.vocab().wf(),
            span_ref.range_spec().start <= span_ref.range_spec().end <= text.spec_bytes().len(),
        ensures
            can == segment_tokens(&self.vocab(), text.spec_bytes(), *span_ref) is Some,
    {
        match span_ref {
            SpanRef::Normal(_) => true,
            SpanRef::Special(range) => {
                let span = slice_subrange(text.as_bytes(), range.start, range.end);
                self.special_vocab().lookup_token(span).is_some()
            },
        }
    }

    /// Encodes the single span `span_ref` of `text`, appending its tokens to
    /// `tokens`.
    ///
    /// A normal word that is a token of the vocabulary as a whole gives that
    /// token; any other normal word is merged in `context`. A special span
    /// gives the token of its special word. A special span whose bytes are no
    /// special word of the vocabulary is a fault of the caller, who tests
    /// with `can_encode_span_ref` where it is in doubt.
    pub fn encode_append_span_ref(
        &self,
        text: &str,
        span_ref: SpanRef,
        tokens: &mut Vec<u32>,
        context: &mut B::Context<'_>,
    )
        requires
            self.vocab().wf(),
            old(context).vocab() == self.vocab(),
            span_ref.range_spec().start <= span_ref.range_spec().end <= text.spec_bytes().len(),
            span_ref is Special ==> self.vocab().special_token(
                text.spec_bytes().subrange(
                    span_ref.range_spec().start as int,
                    span_ref.range_spec().end as int,
                ),
            ) is Some,
        ensures
            final(context).vocab() == old(context).vocab(),
            segment_tokens(&self.vocab(), text.spec_bytes(), span_ref) is Some,
            final(tokens)@ == old(tokens)@ + segment_tokens(
                &self.vocab(),
                text.spec_bytes(),
                span_ref,
            ).unwrap(),
    {
        match span_ref {
            SpanRef::Normal(range) => {
                let span = slice_subrange(text.as_bytes(), range.start, range.end);
                match self.data.lookup_token(span) {
                    Some(token) => {
                        // Faster; and some words are in no pair mapping.
                        tokens.push(token);
                        proof {
                            assert(tokens@ =~= old(tokens)@ + seq![token]);
                        }
                    },
                    None => {
                        context.encode_append_word(span, tokens);
                    },
                }
            },
            SpanRef::Special(range) => {
                let span = slice_subrange(text.as_bytes(), range.start, range.end);
                match self.special_vocab().lookup_token(span) {
                    Some(special_token) => {
                        tokens.push(special_token);
                        proof {
                            assert(tokens@ =~= old(tokens)@ + seq![special_token]);
                        }
                    },
                    None => {},
                }
            },
        }
    }

    /// The text segmentor.
    pub fn segmentor(&self) -> (s: &TextSegmentor)
        ensures
            *s == self.segmentor_spec(),
    {
        &self.segmentor
    }

    /// The special words of the vocabulary.
    pub fn special_vocab(&self) -> (v: &SpecialVocab)
        ensures
            *v == self.vocab().segmentation_spec().specials(),
    {
        self.data.special_vocab()
    }

    /// The vocabulary.
    pub fn data(&self) -> (v: &UnifiedTokenVocab)
        ensures
            *v == self.vocab(),
    {
        &self.data
    }
}

impl<B: MergeContextBuilder> TokenEncoder for MergeEncoder<B> {
    open spec fn wf(&self) -> bool {
        self.vocab().wf()
    }

    /// The tokens of the segmentor's spans of `text`, in order.
    open spec fn encoding(&self, text: Seq<u8>) -> Option<Seq<u32>> {
        concat_tokens(
            segment_parts(&self.vocab(), text, self.segmentor_spec().segment_spec(text)),
        )
    }

    fn try_encode_append(&self, text: &str, tokens: &mut Vec<u32>) -> (r: Result<
        (),
        EncodeError,
    >) {
        let ghost bytes = text.spec_bytes();
        let ghost before = tokens@;
        let mut context = B::build_merge_context(&self.data);
        let spans = self.segmentor.split_spans(text);
        let ghost parts = segment_parts(&*self.data, bytes, spans@);
        let start = tokens.len();
        proof {
            self.segmentor.lemma_segment_bounds(bytes);
            assert(parts.take(0) =~= Seq::<Option<Seq<u32>>>::empty());
            assert(before + Seq::<u32>::empty() =~= before);
        }
        let mut i: usize = 0;
        while i < spans.len()
            invariant
                i <= spans@.len(),
                bytes == text.spec_bytes(),
                self.data.wf(),
                context.vocab() == *self.data,
                spans@ == self.segmentor.segment_spec(bytes),
                parts == segment_parts(&*self.data, bytes, spans@),
                forall|k: int|
                    0 <= k < spans@.len() ==> (#[trigger] spans@[k]).range_spec().start
                        <= spans@[k].range_spec().end <= bytes.len(),
                start == before.len(),
                before == old(tokens)@,
                concat_tokens(parts.take(i as int)) is Some,
                tokens@ == before + concat_tokens(parts.take(i as int)).unwrap(),
            decreases spans@.len() - i,
        {
            proof {
                lemma_concat_tokens_step(parts, i as int);
            }
            if !self.can_encode_span_ref(text, &spans[i]) {
                tokens.truncate(start);
                proof {
                    lemma_concat_tokens_none(parts, i + 1);
                    assert(tokens@ =~= before);
                }
                return Err(EncodeError::UnknownSpecial);
            }
            self.encode_append_span_ref(text, spans[i].clone(), tokens, &mut context);
            proof {
                assert(tokens@ =~= before + concat_tokens(parts.take(i + 1)).unwrap());
            }
            i += 1;
        }
        proof {
            assert(parts.take(i as int) =~= parts);
        }
        Ok(())
    }
}

impl<B: MergeContextBuilder> Clone for MergeEncoder<B> {
    fn clone(&self) -> (e: Self)
        ensures
            e.vocab() == self.vocab(),
            e.segmentor_spec().same_patterns(&self.segmentor_spec()),
    {
        MergeEncoder {
            data: self.data.clone(),
            segmentor: self.segmentor.clone(),
            marker: PhantomData,
        }
    }
}

impl<B: MergeContextBuilder> MergeEncoder<B> {
    /// Decoding the tokens of a text gives the bytes of the text's spans in
    /// order: the text without the bytes that are in no span.
    pub proof fn lemma_round_trip(&self, text: Seq<u8>)
        requires
            self.wf(),
            self.encoding(text) is Some,
        ensures
            self.vocab().decode_spec(self.encoding(text).unwrap()) == Some(
                segment_bytes(text, self.segmentor_spec().segment_spec(text)),
            ),
    {
        let vocab = self.vocab();
        let spans = self.segmentor_spec().segment_spec(text);
        let parts = segment_parts(&vocab, text, spans);
        let pieces = Seq::new(
            spans.len(),
            |i: int|
                text.subrange(
                    spans[i].range_spec().start as int,
                    spans[i].range_spec().end as int,
                ),
        );
        assert forall|i: int| 0 <= i < parts.len() && (#[trigger] parts[i]) is Some implies vocab.decode_spec(
            parts[i].unwrap(),
        ) == Some(pieces[i]) by {
            match spans[i] {
                SpanRef::Normal(_) => {
                    lemma_decode_word(&vocab, pieces[i]);
                },
                SpanRef::Special(_) => {
                    vocab.lemma_decode_special_token(pieces[i]);
                },
            }
        }
        lemma_decode_parts(&vocab, parts, pieces);
    }

    /// A special word stands at its place. Where the first special word of
    /// `text` is found at some range, and none is found in the part of the
    /// text before that range taken alone, the tokens of the text are the
    /// tokens of the part before, then the special word's single token, then
    /// the tokens of the part after: no token covers a part of the special
    /// word only.
    pub proof fn lemma_special_splits_encoding(&self, text: Seq<u8>)
        requires
            self.wf(),
            text.len() <= usize::MAX,
            self.segmentor_spec().special_at(text) is Some,
            self.segmentor_spec().special_at(
                text.take(self.segmentor_spec().special_at(text).unwrap().0 as int),
            ) is None,
        ensures
            ({
                let found = self.segmentor_spec().special_at(text).unwrap();
                self.encoding(text) == join_tokens(
                    join_tokens(
                        self.encoding(text.take(found.0 as int)),
                        special_tokens(
                            &self.vocab(),
                            text.subrange(found.0 as int, found.1 as int),
                        ),
                    ),
                    self.encoding(text.skip(found.1 as int)),
                )
            }),
    {
        let vocab = self.vocab();
        let seg = self.segmentor_spec();
        let pattern = seg.span_re.pattern();
        let found = seg.special_at(text).unwrap();
        let k = found.0;
        let e = found.1;
        let before = text.take(k as int);
        let after = text.skip(e as int);
        assert(text.skip(0) =~= text);
        let words = normal_words(pattern, before, 0);
        let special = seq![SpanRef::Special(at_base(k, e, 0))];
        let rest = seg.segment_from(text, e);
        assert(seg.segment_spec(text) == words + special + rest);
        // The parts of the three runs.
        assert(segment_parts(&vocab, text, words + special + rest) =~= segment_parts(
            &vocab,
            text,
            words,
        ) + segment_parts(&vocab, text, special) + segment_parts(&vocab, text, rest));
        lemma_concat_tokens_concat(
            segment_parts(&vocab, text, words) + segment_parts(&vocab, text, special),
            segment_parts(&vocab, text, rest),
        );
        lemma_concat_tokens_concat(
            segment_parts(&vocab, text, words),
            segment_parts(&vocab, text, special),
        );
        // The special word.
        assert(segment_parts(&vocab, text, special) =~= seq![
            special_tokens(&vocab, text.subrange(k as int, e as int)),
        ]);
        lemma_concat_tokens_one(special_tokens(&vocab, text.subrange(k as int, e as int)));
        // The part before.
        assert(before =~= text.subrange(0, k as int));
        lemma_normal_parts_local(&vocab, pattern, text, before, 0);
        assert(before.skip(0) =~= before);
        if k > 0 {
            assert(seg.segment_spec(before) == words);
        } else {
            assert(seg.segment_spec(before) =~= Seq::<SpanRef>::empty());
            lemma_empty_chunk_parts(&vocab, pattern, before);
            assert(segment_parts(&vocab, before, Seq::<SpanRef>::empty()) =~= Seq::<
                Option<Seq<u32>>,
            >::empty());
        }
        // The part after.
        lemma_parts_shift(&seg, &vocab, text, e);
    }

    /// Encoders over the same vocabulary and the same pattern texts encode
    /// every text alike.
    pub proof fn lemma_same_encoding(&self, other: &Self, text: Seq<u8>)
        requires
            self.vocab() == other.vocab(),
            self.segmentor_spec().same_patterns(&other.segmentor_spec()),
        ensures
            self.encoding(text) == other.encoding(text),
    {
        self.segmentor_spec().lemma_same_patterns(&other.segmentor_spec(), text, 0);
    }
}

} // verus!
