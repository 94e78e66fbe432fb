//! What every encoder computes, and the interface of an encoder.

use crate::encoders::span_encoders::span_encoder::compound_span_tokens;
use crate::vocab::byte_vocab::byte_tokens;
use crate::types::EncodeError;
use crate::vocab::unified_vocab::UnifiedTokenVocab;
use vstd::prelude::*;
use vstd::string::StringSliceAdditionalSpecFns;

verus! {

/// The tokens of a word: its own token where the word is one of the
/// vocabulary as a whole, else its byte-level tokens merged.
pub open spec fn word_tokens(vocab: &UnifiedTokenVocab, word: Seq<u8>) -> Seq<u32> {
    match vocab.word_token(word) {
        Some(t) => seq![t],
        None => compound_span_tokens(vocab, word),
    }
}

/// The single token of a special word, or none where the vocabulary does
/// not hold the word.
pub open spec fn special_tokens(vocab: &UnifiedTokenVocab, word: Seq<u8>) -> Option<Seq<u32>> {
    match vocab.special_token(word) {
        Some(t) => Some(seq![t]),
        None => None,
    }
}

/// The tokens of the parts `parts` in order, or none where some part has
/// none.
pub open spec fn concat_tokens(parts: Seq<Option<Seq<u32>>>) -> Option<Seq<u32>>
    decreases parts.len(),
{
    if parts.len() == 0 {
        Some(Seq::<u32>::empty())
    } else {
        match (concat_tokens(parts.drop_last()), parts.last()) {
            (Some(head), Some(last)) => Some(head + last),
            _ => None,
        }
    }
}

/// The tokens of `a` followed by those of `b`, or none where either has
/// none.
pub open spec fn join_tokens(a: Option<Seq<u32>>, b: Option<Seq<u32>>) -> Option<Seq<u32>> {
    match (a, b) {
        (Some(x), Some(y)) => Some(x + y),
        _ => None,
    }
}

/// The tokens of two runs of parts, one after the other, are the tokens of
/// the first run followed by those of the second.
pub proof fn lemma_concat_tokens_concat(p: Seq<Option<Seq<u32>>>, q: Seq<Option<Seq<u32>>>)
    ensures
        concat_tokens(p + q) == join_tokens(concat_tokens(p), concat_tokens(q)),
    decreases q.len(),
{
    if q.len() == 0 {
        assert(p + q =~= p);
        if concat_tokens(p) is Some {
            assert(concat_tokens(p).unwrap() + Seq::<u32>::empty() =~= concat_tokens(p).unwrap());
        }
    } else {
        lemma_concat_tokens_concat(p, q.drop_last());
        assert((p + q).drop_last() =~= p + q.drop_last());
        assert((p + q).last() == q.last());
        match (concat_tokens(p), concat_tokens(q.drop_last()), q.last()) {
            (Some(x), Some(y), Some(z)) => {
                assert((x + y) + z =~= x + (y + z));
            },
            _ => {},
        }
    }
}

/// A single part has its own tokens.
pub proof fn lemma_concat_tokens_one(part: Option<Seq<u32>>)
    ensures
        concat_tokens(seq![part]) == part,
{
    assert(seq![part].drop_last() =~= Seq::<Option<Seq<u32>>>::empty());
    assert(seq![part].last() == part);
    assert(concat_tokens(Seq::<Option<Seq<u32>>>::empty()) == Some(Seq::<u32>::empty()));
    if part is Some {
        assert(Seq::<u32>::empty() + part.unwrap() =~= part.unwrap());
    }
}

/// Parts that all have no tokens at all have none together.
pub proof fn lemma_concat_tokens_empty(parts: Seq<Option<Seq<u32>>>)
    requires
        forall|i: int| 0 <= i < parts.len() ==> #[trigger] parts[i] == Some(Seq::<u32>::empty()),
    ensures
        concat_tokens(parts) == Some(Seq::<u32>::empty()),
    decreases parts.len(),
{
    if parts.len() > 0 {
        lemma_concat_tokens_empty(parts.drop_last());
        assert(parts.last() == parts[parts.len() - 1]);
        assert(Seq::<u32>::empty() + Seq::<u32>::empty() =~= Seq::<u32>::empty());
    }
}

/// The tokens of the first `n + 1` parts are those of the first `n`
/// followed by those of part `n`.
pub proof fn lemma_concat_tokens_step(parts: Seq<Option<Seq<u32>>>, n: int)
    requires
        0 <= n < parts.len(),
    ensures
        concat_tokens(parts.take(n + 1)) == (match (concat_tokens(parts.take(n)), parts[n]) {
            (Some(head), Some(last)) => Some(head + last),
            _ => None,
        }),
{
    assert(parts.take(n + 1).drop_last() =~= parts.take(n));
}

/// Where the first `n` parts have no tokens, the whole has none.
pub proof fn lemma_concat_tokens_none(parts: Seq<Option<Seq<u32>>>, n: int)
    requires
        0 <= n <= parts.len(),
        concat_tokens(parts.take(n)) is None,
    ensures
        concat_tokens(parts) is None,
    decreases parts.len() - n,
{
    if n == parts.len() {
        assert(parts.take(n) =~= parts);
    } else {
        lemma_concat_tokens_step(parts, n);
        lemma_concat_tokens_none(parts, n + 1);
    }
}

/// The bytes of the pieces `pieces` in order.
pub open spec fn concat_bytes(pieces: Seq<Seq<u8>>) -> Seq<u8>
    decreases pieces.len(),
{
    if pieces.len() == 0 {
        Seq::<u8>::empty()
    } else {
        concat_bytes(pieces.drop_last()) + pieces.last()
    }
}

/// The tokens of a word decode to the word.
pub proof fn lemma_decode_word(vocab: &UnifiedTokenVocab, word: Seq<u8>)
    requires
        vocab.wf(),
    ensures
        vocab.decode_spec(word_tokens(vocab, word)) == Some(word),
{
    match vocab.word_token(word) {
        Some(t) => {
            vocab.lemma_decode_word_token(word);
        },
        None => {
            vocab.lemma_decode_bytes(word);
            vocab.lemma_decode_merge_all(byte_tokens(vocab.byte_table(), word));
        },
    }
}

/// Where each part that has tokens decodes to its piece, the tokens of all
/// the parts decode to the pieces in order.
pub proof fn lemma_decode_parts(
    vocab: &UnifiedTokenVocab,
    parts: Seq<Option<Seq<u32>>>,
    pieces: Seq<Seq<u8>>,
)
    requires
        parts.len() == pieces.len(),
        forall|i: int|
            0 <= i < parts.len() && (#[trigger] parts[i]) is Some ==> vocab.decode_spec(
                parts[i].unwrap(),
            ) == Some(pieces[i]),
        concat_tokens(parts) is Some,
    ensures
        vocab.decode_spec(concat_tokens(parts).unwrap()) == Some(concat_bytes(pieces)),
    decreases parts.len(),
{
    if parts.len() == 0 {
    } else {
        let head = parts.drop_last();
        assert forall|i: int| 0 <= i < head.len() && (#[trigger] head[i]) is Some implies vocab.decode_spec(
            head[i].unwrap(),
        ) == Some(pieces.drop_last()[i]) by {
            assert(head[i] == parts[i]);
        }
        lemma_decode_parts(vocab, head, pieces.drop_last());
        assert(parts[parts.len() - 1] == parts.last());
        vocab.lemma_decode_concat(concat_tokens(head).unwrap(), parts.last().unwrap());
    }
}

/// Where the parts have tokens, so do the first `n` of them, and the
/// tokens of the whole start with theirs.
pub proof fn lemma_concat_prefix(parts: Seq<Option<Seq<u32>>>, n: int)
    requires
        0 <= n <= parts.len(),
        concat_tokens(parts) is Some,
    ensures
        concat_tokens(parts.take(n)) is Some,
        concat_tokens(parts.take(n)).unwrap().len() <= concat_tokens(parts).unwrap().len(),
        concat_tokens(parts).unwrap().take(concat_tokens(parts.take(n)).unwrap().len() as int)
            == concat_tokens(parts.take(n)).unwrap(),
    decreases parts.len() - n,
{
    if n == parts.len() {
        assert(parts.take(n) =~= parts);
        assert(concat_tokens(parts).unwrap().take(concat_tokens(parts).unwrap().len() as int)
            =~= concat_tokens(parts).unwrap());
    } else {
        if concat_tokens(parts.take(n + 1)) is None {
            lemma_concat_tokens_none(parts, n + 1);
        }
        lemma_concat_prefix(parts, n + 1);
        lemma_concat_tokens_step(parts, n);
        let head = concat_tokens(parts.take(n)).unwrap();
        let upto = concat_tokens(parts.take(n + 1)).unwrap();
        let all = concat_tokens(parts).unwrap();
        assert(upto.take(head.len() as int) =~= head);
        assert(all.take(head.len() as int) =~= all.take(upto.len() as int).take(head.len() as int));
    }
}

/// An encoder from text to tokens.
pub trait TokenEncoder {
    /// The encoder is well formed.
    spec fn wf(&self) -> bool;

    /// The tokens of `text`, or none where the text cannot be encoded.
    spec fn encoding(&self, text: Seq<u8>) -> Option<Seq<u32>>;

    /// Appends the tokens of `text` to `tokens`.
    ///
    /// Fails, leaving `tokens` as it was, where the text cannot be encoded: a
    /// special span of it is no special word of the vocabulary.
    fn try_encode_append(&self, text: &str, tokens: &mut Vec<u32>) -> (r: Result<(), EncodeError>)
        requires
            self.wf(),
        ensures
            match self.encoding(text.spec_bytes()) {
                Some(t) => r is Ok && final(tokens)@ == old(tokens)@ + t,
                None => r == Err::<(), EncodeError>(EncodeError::UnknownSpecial) && final(tokens)@
                    == old(tokens)@,
            },
    ;
}

/// The tokens of `text`.
pub fn try_encode<E: TokenEncoder>(encoder: &E, text: &str) -> (r: Result<Vec<u32>, EncodeError>)
    requires
        encoder.wf(),
    ensures
        match encoder.encoding(text.spec_bytes()) {
            Some(t) => r is Ok && r.unwrap()@ == t,
            None => r == Err::<Vec<u32>, EncodeError>(EncodeError::UnknownSpecial),
        },
{
    let mut tokens: Vec<u32> = Vec::with_capacity(text.as_bytes().len() / 3);
    match encoder.try_encode_append(text, &mut tokens) {
        Ok(()) => {
            proof {
                let t = encoder.encoding(text.spec_bytes()).unwrap();
                assert(Seq::<u32>::empty() + t =~= t);
            }
            Ok(tokens)
        },
        Err(e) => Err(e),
    }
}

/// The tokens of each of `texts`, in the order of `texts`.
///
/// Fails where one of the texts cannot be encoded.
pub fn try_encode_batch<E: TokenEncoder>(encoder: &E, texts: &[&str]) -> (r: Result<
    Vec<Vec<u32>>,
    EncodeError,
>)
    requires
        encoder.wf(),
    ensures
        match r {
            Ok(batch) => batch@.len() == texts@.len() && forall|i: int|
                0 <= i < texts@.len() ==> encoder.encoding(
                    (#[trigger] texts@[i]).spec_bytes(),
                ) == Some(batch@[i]@),
            Err(e) => e == EncodeError::UnknownSpecial && exists|i: int|
                0 <= i < texts@.len() && encoder.encoding((#[trigger] texts@[i]).spec_bytes())
                    is None,
        },
{
    let mut batch: Vec<Vec<u32>> = Vec::with_capacity(texts.len());
    let mut i: usize = 0;
    while i < texts.len()
        invariant
            i <= texts@.len(),
            encoder.wf(),
            batch@.len() == i,
            forall|k: int|
                0 <= k < i ==> encoder.encoding((#[trigger] texts@[k]).spec_bytes()) == Some(
                    batch@[k]@,
                ),
        decreases texts@.len() - i,
    {
        match try_encode(encoder, texts[i]) {
            Ok(tokens) => {
                batch.push(tokens);
            },
            Err(e) => {
                return Err(e);
            },
        }
        i += 1;
    }
    Ok(batch)
}

} // verus!
