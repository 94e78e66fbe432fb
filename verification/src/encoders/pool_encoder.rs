//! An encoder that keeps one clone of an inner encoder per pool slot.

use crate::concurrency::pool_toy::{pool_size, PoolToy};
use crate::encoders::merge_encoder::{MergeContextBuilder, MergeEncoder};
use crate::encoders::span_encoders::token_span_encoder::{
    build_encoder, EncoderStrategy, TokenSpanEncoder,
};
use crate::encoders::token_encoder::TokenEncoder;
use crate::regex::regex_wrapper::{PatternError, RegexWrapper};
use crate::segmentation::text_segmentor::TextSegmentor;
use crate::vocab::unified_vocab::UnifiedTokenVocab;
use crate::types::EncodeError;
use vstd::prelude::*;
use vstd::string::StringSliceAdditionalSpecFns;

verus! {

/// Every clone of a well-formed encoder of type `D` is well formed and
/// encodes every text as the encoder that it was cloned from.
pub open spec fn clones_encode_alike<D: TokenEncoder + Clone>() -> bool {
    forall|a: D, b: D|
        #![trigger cloned(a, b)]
        cloned(a, b) && a.wf() ==> b.wf() && forall|text: Seq<u8>| #[trigger]
            b.encoding(text) == a.encoding(text)
}

/// An encoder over a pool of clones of one inner encoder. A caller encodes
/// on the clone of the slot that the hash of its thread gives, so callers on
/// different threads mostly work on different clones.
pub struct PoolEncoder<D: TokenEncoder + Clone> {
    pool: PoolToy<D>,
}

impl<D: TokenEncoder + Clone> PoolEncoder<D> {
    /// The pool of clones.
    pub closed spec fn pool(&self) -> PoolToy<D> {
        self.pool
    }

    /// Every clone of the pool is well formed and encodes every text as the
    /// first clone does.
    pub open spec fn wf(&self) -> bool {
        &&& self.pool().slots().len() > 0
        &&& forall|i: int|
            0 <= i < self.pool().slots().len() ==> (#[trigger] self.pool().slots()[i]).wf()
        &&& forall|i: int, text: Seq<u8>|
            0 <= i < self.pool().slots().len() ==> (#[trigger] self.pool().slots()[i].encoding(
                text,
            )) == self.encoding(text)
    }

    /// The tokens of `text`: what the first clone, and so every clone, makes
    /// of it.
    pub open spec fn encoding(&self, text: Seq<u8>) -> Option<Seq<u32>> {
        self.pool().slots()[0].encoding(text)
    }

    /// An encoder over a pool of clones of `inner`: `max_pool` of them, or
    /// as many as the system runs threads at once, `sys_max`, where that is
    /// less or no number is given.
    pub fn new(inner: D, max_pool: Option<usize>, sys_max: usize) -> (e: Self)
        requires
            inner.wf(),
            clones_encode_alike::<D>(),
            sys_max > 0,
            max_pool != Some(0usize),
        ensures
            e.wf(),
            e.pool().slots().len() == pool_size(max_pool, sys_max),
            forall|i: int|
                0 <= i < e.pool().slots().len() ==> cloned(inner, #[trigger] e.pool().slots()[i]),
            forall|text: Seq<u8>| #[trigger] e.encoding(text) == inner.encoding(text),
    {
        let pool = PoolToy::init(inner, max_pool, sys_max);
        proof {
            assert forall|i: int| 0 <= i < pool.slots().len() implies (
            #[trigger] pool.slots()[i]).wf() && forall|text: Seq<u8>| #[trigger]
                pool.slots()[i].encoding(text) == inner.encoding(text) by {
                assert(cloned(inner, pool.slots()[i]));
            }
            assert(cloned(inner, pool.slots()[0]));
        }
        PoolEncoder { pool }
    }

    /// The clone for the caller whose thread hashes to `thread_hash`.
    pub fn get(&self, thread_hash: usize) -> (inner: &D)
        requires
            self.wf(),
        ensures
            inner.wf(),
            forall|text: Seq<u8>| #[trigger] inner.encoding(text) == self.encoding(text),
    {
        let inner = self.pool.get(thread_hash);
        proof {
            let slots = self.pool().slots();
            let i = thread_hash as int % slots.len() as int;
            assert(0 <= i < slots.len());
            assert(slots[i].wf());
            assert forall|text: Seq<u8>| #[trigger] inner.encoding(text) == self.encoding(
                text,
            ) by {
                assert(slots[i].encoding(text) == self.encoding(text));
            }
        }
        inner
    }

    /// Appends the tokens of `text` to `tokens`, encoding on the clone for
    /// the caller whose thread hashes to `thread_hash`.
    ///
    /// The result does not depend on `thread_hash` nor on the size of the
    /// pool. Fails, leaving `tokens` as it was, where the text cannot be
    /// encoded.
    pub fn try_encode_append(&self, thread_hash: usize, text: &str, tokens: &mut Vec<u32>) -> (r:
        Result<(), EncodeError>)
        requires
            self.wf(),
        ensures
            match self.encoding(text.spec_bytes()) {
                Some(t) => r is Ok && final(tokens)@ == old(tokens)@ + t,
                None => r == Err::<(), EncodeError>(EncodeError::UnknownSpecial) && final(tokens)@
                    == old(tokens)@,
            },
    {
        let inner = self.get(thread_hash);
        proof {
            assert(inner.encoding(text.spec_bytes()) == self.encoding(text.spec_bytes()));
        }
        inner.try_encode_append(text, tokens)
    }
}

/// The clones of a merge encoder encode alike.
pub proof fn lemma_merge_encoder_clones<B: MergeContextBuilder>()
    ensures
        clones_encode_alike::<MergeEncoder<B>>(),
{
    assert forall|a: MergeEncoder<B>, b: MergeEncoder<B>|
        #![trigger cloned(a, b)]
        cloned(a, b) && a.wf() implies b.wf() && forall|text: Seq<u8>| #[trigger]
        b.encoding(text) == a.encoding(text) by {
        assert forall|text: Seq<u8>| #[trigger] b.encoding(text) == a.encoding(text) by {
            b.lemma_same_encoding(&a, text);
        }
    }
}

/// The clones of a token span encoder over compiled patterns encode alike.
pub proof fn lemma_token_span_encoder_clones()
    ensures
        clones_encode_alike::<TokenSpanEncoder<RegexWrapper, RegexWrapper>>(),
{
    assert forall|
        a: TokenSpanEncoder<RegexWrapper, RegexWrapper>,
        b: TokenSpanEncoder<RegexWrapper, RegexWrapper>,
    |
        #![trigger cloned(a, b)]
        cloned(a, b) && a.wf() implies b.wf() && forall|text: Seq<u8>| #[trigger]
        b.encoding(text) == a.encoding(text) by {
        assert forall|text: Seq<u8>| #[trigger] b.encoding(text) == a.encoding(text) by {
            b.lemma_strategy_equivalence(&a, text);
        }
    }
}

/// A pooled encoder for the vocabulary `vocab` that merges by `strategy`:
/// `max_pool` clones of one encoder, or as many as the system runs threads
/// at once, `sys_max`, where that is less or no number is given.
///
/// Fails where the word pattern, or the pattern of the special words, does
/// not compile. What the encoder makes of a text depends neither on the
/// strategy nor on the size of the pool.
pub fn build_pool_encoder(
    vocab: UnifiedTokenVocab,
    strategy: EncoderStrategy,
    max_pool: Option<usize>,
    sys_max: usize,
) -> (r: Result<PoolEncoder<TokenSpanEncoder<RegexWrapper, RegexWrapper>>, PatternError>)
    requires
        vocab.wf(),
        sys_max > 0,
        max_pool != Some(0usize),
    ensures
        r is Ok <==> TextSegmentor::compiles(
            vocab.segmentation_spec().pattern_view(),
            TextSegmentor::word_texts(vocab.segmentation_spec().specials().words()),
        ),
        r matches Ok(e) ==> e.wf() && e.pool().slots().len() == pool_size(max_pool, sys_max)
            && e.pool().slots()[0].vocab() == vocab,
{
    let inner = match build_encoder(vocab, strategy) {
        Ok(e) => e,
        Err(e) => {
            return Err(e);
        },
    };
    proof {
        lemma_token_span_encoder_clones();
    }
    let pooled = PoolEncoder::new(inner, max_pool, sys_max);
    proof {
        assert(cloned(inner, pooled.pool().slots()[0]));
    }
    Ok(pooled)
}

} // verus!
