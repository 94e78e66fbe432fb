//! The vocabulary of a tokenizer: byte fallback, token spans, merge ranks
//! and special tokens, checked as it is built.

use crate::segmentation::segmentation_config::SegmentationConfig;
use crate::types::{TokenWidth, VocabError};
use crate::merges::{best_pair, is_best_pair, merge_all, merge_at, merge_step, pair_rank};
use crate::vocab::byte_vocab::{byte_tokens, ByteMapVocab};
use crate::vocab::span_map::SpanTokenMap;
use crate::vocab::special_vocab::SpecialVocab;
use std::collections::HashMap;
use vstd::prelude::*;
use vstd::utf8::encode_utf8;

verus! {

broadcast use vstd::std_specs::hash::group_hash_axioms;

/// The key under which the rank of the pair `(a, b)` is kept.
pub open spec fn pair_key(a: u32, b: u32) -> u64 {
    ((a as u64) * 0x1_0000_0000u64 + (b as u64)) as u64
}

fn make_pair_key(a: u32, b: u32) -> (k: u64)
    ensures
        k == pair_key(a, b),
{
    (a as u64) * 0x1_0000_0000u64 + (b as u64)
}

/// Different pairs have different keys.
pub proof fn lemma_pair_key_injective()
    ensures
        forall|p: (u32, u32), q: (u32, u32)|
            #![trigger pair_key(p.0, p.1), pair_key(q.0, q.1)]
            pair_key(p.0, p.1) == pair_key(q.0, q.1) ==> p == q,
{
}

/// The vocabulary of a tokenizer.
pub struct UnifiedTokenVocab {
    segmentation: SegmentationConfig,
    width: TokenWidth,
    bytes: ByteMapVocab,
    tokens: SpanTokenMap,
    pairs: HashMap<u64, u32>,
}

impl UnifiedTokenVocab {
    /// The word pattern and the special words.
    pub closed spec fn segmentation_spec(&self) -> SegmentationConfig {
        self.segmentation
    }

    /// The declared width of the token ids.
    pub closed spec fn width(&self) -> TokenWidth {
        self.width
    }

    /// The token of each byte value: 256 entries.
    pub closed spec fn byte_table(&self) -> Seq<u32> {
        self.bytes.table()
    }

    /// The spans and their tokens.
    pub closed spec fn token_map(&self) -> SpanTokenMap {
        self.tokens
    }

    /// The span of each ordinary token.
    pub open spec fn token_spans(&self) -> Map<u32, Seq<u8>> {
        self.token_map().spans()
    }

    /// The span of each special token.
    pub open spec fn special_spans(&self) -> Map<u32, Seq<u8>> {
        self.segmentation_spec().specials().spans()
    }

    /// The rank table: the merged token of each pair that merges.
    pub closed spec fn pair_ranks(&self) -> Map<(u32, u32), u32> {
        Map::new(
            |p: (u32, u32)| self.pairs@.contains_key(pair_key(p.0, p.1)),
            |p: (u32, u32)| self.pairs@[pair_key(p.0, p.1)],
        )
    }

    /// The token of the ordinary span `span`, where it has one.
    pub open spec fn word_token(&self, span: Seq<u8>) -> Option<u32> {
        self.token_map().token_of(span)
    }

    /// The token of the special word with bytes `span`, where there is one.
    pub open spec fn special_token(&self, span: Seq<u8>) -> Option<u32> {
        self.segmentation_spec().specials().token_of(span)
    }

    /// The parts that are kept out of sight are sound.
    pub closed spec fn parts_wf(&self) -> bool {
        self.bytes.wf()
    }

    /// The vocabulary's invariant.
    ///
    /// Every byte value has a token, whose span is that byte. Every id fits
    /// the declared width and stays below its reserved value. Spans and
    /// tokens are one to one, and no span is empty. A ranked pair merges two
    /// tokens into the token that spells both, which does not rank below
    /// both; every longer span is the result of some merge. Special tokens
    /// share no id and no span with the ordinary ones.
    pub open spec fn wf(&self) -> bool {
        &&& self.parts_wf()
        &&& self.segmentation_spec().wf()
        &&& self.token_map().wf()
        &&& self.byte_table().len() == 256
        &&& forall|b: u8| #[trigger]
            self.token_spans().contains_key(self.byte_table()[b as int])
                && self.token_spans()[self.byte_table()[b as int]] == seq![b]
        &&& forall|t: u32| #[trigger]
            self.token_spans().contains_key(t) ==> t < self.width().sentinel_spec()
                && self.token_spans()[t].len() >= 1
        &&& forall|t: u32| #[trigger]
            self.special_spans().contains_key(t) ==> t < self.width().sentinel_spec()
                && self.special_spans()[t].len() >= 1 && !self.token_spans().contains_key(t)
                && self.word_token(self.special_spans()[t]) is None
        &&& forall|p: (u32, u32)| #[trigger]
            self.pair_ranks().contains_key(p) ==> self.merge_wf(p.0, p.1, self.pair_ranks()[p])
        &&& forall|t: u32| #[trigger]
            self.token_spans().contains_key(t) && self.token_spans()[t].len() > 1 ==> exists|
                p: (u32, u32),
            | #[trigger]
                self.pair_ranks().contains_key(p) && self.pair_ranks()[p] == t
    }

    /// The pair `(a, b)` may merge into `c`: all three are tokens, `c` spells
    /// `a` followed by `b`, and `c` does not rank below both.
    pub open spec fn merge_wf(&self, a: u32, b: u32, c: u32) -> bool {
        &&& self.token_spans().contains_key(a)
        &&& self.token_spans().contains_key(b)
        &&& self.token_spans().contains_key(c)
        &&& self.token_spans()[c] == self.token_spans()[a] + self.token_spans()[b]
        &&& !(c < a && c < b)
    }

    /// In a well-formed vocabulary every rank is a token's id, below the
    /// reserved value of the declared width.
    pub proof fn lemma_ranks_below_sentinel(&self)
        requires
            self.wf(),
        ensures
            forall|p: (u32, u32)| #[trigger]
                self.pair_ranks().contains_key(p) ==> self.pair_ranks()[p]
                    < self.width().sentinel_spec() && self.pair_ranks()[p] != 0xFFFF_FFFFu32,
    {
        assert forall|p: (u32, u32)| #[trigger]
            self.pair_ranks().contains_key(p) implies self.pair_ranks()[p]
            < self.width().sentinel_spec() && self.pair_ranks()[p] != 0xFFFF_FFFFu32 by {
            assert(self.merge_wf(p.0, p.1, self.pair_ranks()[p]));
            assert(self.token_spans().contains_key(self.pair_ranks()[p]));
        }
    }

    /// The first reason, if any, for which `byte_tokens` is no byte table
    /// for ids of width `width`.
    pub open spec fn byte_table_fault(byte_tokens: Seq<u32>, width: TokenWidth) -> Option<
        VocabError,
    > {
        if byte_tokens.len() != 256 {
            Some(VocabError::MissingByteFallback)
        } else if exists|i: int|
            0 <= i < 256 && #[trigger] byte_tokens[i] >= width.sentinel_spec() {
            Some(VocabError::Capacity)
        } else if exists|i: int, j: int|
            0 <= i < j < 256 && #[trigger] byte_tokens[i] == #[trigger] byte_tokens[j] {
            Some(VocabError::DuplicateToken)
        } else {
            None
        }
    }

    /// A vocabulary of the 256 single-byte tokens of `byte_tokens`, with the
    /// word pattern `pattern`, no merges and no special words.
    ///
    /// Fails with `MissingByteFallback` unless the table has 256 entries,
    /// else with `Capacity` where an id does not stay below the reserved
    /// value of `width`, else with `DuplicateToken` where two bytes share an
    /// id.
    pub fn from_byte_tokens(pattern: &str, byte_tokens: Vec<u32>, width: TokenWidth) -> (r: Result<
        Self,
        VocabError,
    >)
        ensures
            match r {
                Ok(v) => Self::byte_table_fault(byte_tokens@, width) is None && v.wf()
                    && v.width() == width && v.byte_table() == byte_tokens@
                    && v.segmentation_spec().pattern_view() == pattern@
                    && v.pair_ranks() == Map::<(u32, u32), u32>::empty()
                    && v.special_spans() == Map::<u32, Seq<u8>>::empty()
                    && v.segmentation_spec().specials().words() == Seq::<
                    (Seq<char>, u32),
                >::empty() && v.token_spans().dom() == byte_tokens@.to_set(),
                Err(e) => Self::byte_table_fault(byte_tokens@, width) == Some(e),
            },
    {
        let ghost table = byte_tokens@;
        if byte_tokens.len() != 256 {
            return Err(VocabError::MissingByteFallback);
        }
        let sentinel = width.sentinel();
        let mut i: usize = 0;
        while i < 256
            invariant
                i <= 256,
                byte_tokens@ == table,
                table.len() == 256,
                sentinel == width.sentinel_spec(),
                forall|k: int| 0 <= k < i ==> #[trigger] table[k] < sentinel,
            decreases 256 - i,
        {
            if byte_tokens[i] >= sentinel {
                return Err(VocabError::Capacity);
            }
            i += 1;
        }
        let mut tokens = SpanTokenMap::new();
        let mut i: usize = 0;
        while i < 256
            invariant
                i <= 256,
                byte_tokens@ == table,
                table.len() == 256,
                tokens.wf(),
                forall|k: int| 0 <= k < 256 ==> #[trigger] table[k] < width.sentinel_spec(),
                forall|k: int, j: int| 0 <= k < j < i ==> #[trigger] table[k] != #[trigger] table[j],
                forall|k: int|
                    0 <= k < i ==> #[trigger] tokens.spans().contains_key(table[k])
                        && tokens.spans()[table[k]] == seq![k as u8],
                forall|t: u32| #[trigger]
                    tokens.spans().contains_key(t) ==> exists|k: int|
                        0 <= k < i && #[trigger] table[k] == t,
            decreases 256 - i,
        {
            let b: u8 = i as u8;
            let span: [u8; 1] = [b];
            let ghost before = tokens;
            let added = tokens.insert(span.as_slice(), byte_tokens[i]);
            assert(span@ =~= seq![b]);
            if !added {
                proof {
                    if before.spans().contains_key(table[i as int]) {
                        let k = choose|k: int| 0 <= k < i && #[trigger] table[k] == table[i as int];
                        assert(0 <= k < i < 256 && table[k] == table[i as int]);
                    } else {
                        let t = choose|t: u32| #[trigger]
                            before.spans().contains_key(t) && before.spans()[t] == span@;
                        let k = choose|k: int| 0 <= k < i && #[trigger] table[k] == t;
                        assert(before.spans().contains_key(table[k]));
                        assert(seq![k as u8][0] == seq![b][0]);
                        assert(false);
                    }
                }
                return Err(VocabError::DuplicateToken);
            }
            proof {
                assert forall|k: int, j: int| 0 <= k < j < i + 1 implies #[trigger] table[k]
                    != #[trigger] table[j] by {
                    if j == i {
                        assert(before.spans().contains_key(table[k]));
                    }
                }
                assert forall|k: int| 0 <= k < i + 1 implies #[trigger] tokens.spans().contains_key(
                    table[k],
                ) && tokens.spans()[table[k]] == seq![k as u8] by {
                    if k < i {
                        assert(before.spans().contains_key(table[k]));
                    }
                }
                assert forall|t: u32| #[trigger] tokens.spans().contains_key(t) implies exists|
                    k: int,
                |
                    0 <= k < i + 1 && #[trigger] table[k] == t by {
                    if t == table[i as int] {
                    } else {
                        assert(before.spans().contains_key(t));
                        let k = choose|k: int| 0 <= k < i && #[trigger] table[k] == t;
                        assert(table[k] == t);
                    }
                }
            }
            i += 1;
        }
        let bytes = match ByteMapVocab::from_table(byte_tokens) {
            Some(b) => b,
            None => {
                return Err(VocabError::MissingByteFallback);
            },
        };
        let v = UnifiedTokenVocab {
            segmentation: SegmentationConfig::from_pattern(pattern),
            width,
            bytes,
            tokens,
            pairs: HashMap::new(),
        };
        proof {
            assert(v.pair_ranks() =~= Map::<(u32, u32), u32>::empty());
            assert forall|b: u8| #[trigger]
                v.token_spans().contains_key(v.byte_table()[b as int])
                    && v.token_spans()[v.byte_table()[b as int]] == seq![b] by {
                assert(tokens.spans().contains_key(table[b as int]));
            }
            assert forall|t: u32| #[trigger] v.token_spans().contains_key(t) implies t
                < v.width().sentinel_spec() && v.token_spans()[t].len() >= 1 by {
                let k = choose|k: int| 0 <= k < 256 && #[trigger] table[k] == t;
                assert(tokens.spans().contains_key(table[k]));
            }
            assert forall|t: u32| #[trigger]
                v.token_spans().contains_key(t) && v.token_spans()[t].len() > 1 implies exists|
                p: (u32, u32),
            | #[trigger]
                v.pair_ranks().contains_key(p) && v.pair_ranks()[p] == t by {
                let k = choose|k: int| 0 <= k < 256 && #[trigger] table[k] == t;
                assert(tokens.spans().contains_key(table[k]));
            }
            assert(v.token_spans().dom() =~= table.to_set()) by {
                assert forall|t: u32| v.token_spans().dom().contains(t) implies table.to_set().contains(
                    t,
                ) by {
                    let k = choose|k: int| 0 <= k < 256 && #[trigger] table[k] == t;
                    assert(table.contains(t));
                }
                assert forall|t: u32| table.to_set().contains(t) implies v.token_spans().dom().contains(
                    t,
                ) by {
                    let k = choose|k: int| 0 <= k < table.len() && table[k] == t;
                    assert(tokens.spans().contains_key(table[k]));
                }
            }
        }
        Ok(v)
    }

    /// The word pattern and the special words.
    pub fn segmentation(&self) -> (c: &SegmentationConfig)
        ensures
            *c == self.segmentation_spec(),
    {
        &self.segmentation
    }

    /// The special words.
    pub fn special_vocab(&self) -> (v: &SpecialVocab)
        ensures
            *v == self.segmentation_spec().specials(),
    {
        self.segmentation.special_vocab()
    }

    /// The byte-level fallback alphabet.
    pub fn byte_vocab(&self) -> (v: &ByteMapVocab)
        requires
            self.wf(),
        ensures
            v.wf(),
            v.table() == self.byte_table(),
    {
        &self.bytes
    }

    /// The declared width of the token ids.
    pub fn token_width(&self) -> (w: TokenWidth)
        ensures
            w == self.width(),
    {
        self.width
    }

    /// The token whose span is exactly `span`, if there is one.
    pub fn lookup_token(&self, span: &[u8]) -> (r: Option<u32>)
        requires
            self.wf(),
        ensures
            r == self.word_token(span@),
    {
        self.tokens.lookup_token(span)
    }

    /// The span of the ordinary token `token`, if there is such a token.
    pub fn lookup_span(&self, token: u32) -> (r: Option<&Vec<u8>>)
        ensures
            match r {
                Some(v) => self.token_spans().contains_key(token) && v@
                    == self.token_spans()[token],
                None => !self.token_spans().contains_key(token),
            },
    {
        self.tokens.lookup_span(token)
    }

    /// The merged token of the pair `pair`, if the pair merges.
    pub fn lookup_pair(&self, pair: &(u32, u32)) -> (r: Option<u32>)
        ensures
            r == (if self.pair_ranks().contains_key(*pair) {
                Some(self.pair_ranks()[*pair])
            } else {
                None
            }),
    {
        let key = make_pair_key(pair.0, pair.1);
        match self.pairs.get(&key) {
            Some(t) => Some(*t),
            None => None,
        }
    }

    /// The token of the special word with bytes `span`, if there is one.
    pub fn lookup_special(&self, span: &[u8]) -> (r: Option<u32>)
        requires
            self.wf(),
        ensures
            r == self.special_token(span@),
    {
        self.segmentation.special_vocab().lookup_token(span)
    }

    /// The first reason, if any, for which the pair `(a, b)` cannot be made
    /// to merge into `c`.
    ///
    /// Both parts must be tokens (`UnknownToken`). The result must stay
    /// below the reserved value of the width (`Capacity`) and must not rank
    /// below both parts (`MalformedMerge`). The pair must have no rank yet
    /// (`DuplicateToken`). Where `c` is a token already, it must spell `a`
    /// followed by `b` (`MalformedMerge`); where it is new, neither its id
    /// nor its span may be taken (`DuplicateToken`).
    pub open spec fn merge_fault(&self, a: u32, b: u32, c: u32) -> Option<VocabError> {
        if !self.token_spans().contains_key(a) || !self.token_spans().contains_key(b) {
            Some(VocabError::UnknownToken)
        } else if c >= self.width().sentinel_spec() {
            Some(VocabError::Capacity)
        } else if c < a && c < b {
            Some(VocabError::MalformedMerge)
        } else if self.pair_ranks().contains_key((a, b)) {
            Some(VocabError::DuplicateToken)
        } else {
            let span = self.token_spans()[a] + self.token_spans()[b];
            if self.token_spans().contains_key(c) {
                if self.token_spans()[c] == span {
                    None
                } else {
                    Some(VocabError::MalformedMerge)
                }
            } else if self.special_spans().contains_key(c) || self.word_token(span) is Some
                || self.special_token(span) is Some {
                Some(VocabError::DuplicateToken)
            } else {
                None
            }
        }
    }

    /// Makes the pair `(a, b)` merge into `c`, whose span is that of `a`
    /// followed by that of `b`; `c` becomes a token where it is none yet.
    ///
    /// Fails, leaving the vocabulary as it was, for the first reason that
    /// `merge_fault` gives.
    pub fn add_merge(&mut self, a: u32, b: u32, c: u32) -> (r: Result<(), VocabError>)
        requires
            old(self).wf(),
        ensures
            final(self).wf(),
            final(self).width() == old(self).width(),
            final(self).byte_table() == old(self).byte_table(),
            final(self).segmentation_spec() == old(self).segmentation_spec(),
            match old(self).merge_fault(a, b, c) {
                Some(e) => r == Err::<(), VocabError>(e) && final(self).pair_ranks() == old(
                    self,
                ).pair_ranks() && final(self).token_spans() == old(self).token_spans(),
                None => r is Ok && final(self).pair_ranks() == old(self).pair_ranks().insert(
                    (a, b),
                    c,
                ) && final(self).token_spans() == old(self).token_spans().insert(
                    c,
                    old(self).token_spans()[a] + old(self).token_spans()[b],
                ),
            },
    {
        let mut span: Vec<u8> = Vec::new();
        match self.tokens.lookup_span(a) {
            Some(v) => {
                span.extend_from_slice(v.as_slice());
            },
            None => {
                return Err(VocabError::UnknownToken);
            },
        }
        match self.tokens.lookup_span(b) {
            Some(v) => {
                span.extend_from_slice(v.as_slice());
            },
            None => {
                return Err(VocabError::UnknownToken);
            },
        }
        assert(span@ =~= self.token_spans()[a] + self.token_spans()[b]);
        if c >= self.width.sentinel() {
            return Err(VocabError::Capacity);
        }
        if c < a && c < b {
            return Err(VocabError::MalformedMerge);
        }
        let key = make_pair_key(a, b);
        if self.pairs.contains_key(&key) {
            return Err(VocabError::DuplicateToken);
        }
        let ghost before = *self;
        match self.tokens.lookup_span(c) {
            Some(v) => {
                if !crate::vocab::span_map::span_eq(v.as_slice(), span.as_slice()) {
                    return Err(VocabError::MalformedMerge);
                }
                proof {
                    assert(before.token_spans().insert(c, span@) =~= before.token_spans());
                }
            },
            None => {
                if self.segmentation.special_vocab().contains_token(c) || self.tokens.lookup_token(
                    span.as_slice(),
                ).is_some() || self.segmentation.special_vocab().lookup_token(
                    span.as_slice(),
                ).is_some() {
                    return Err(VocabError::DuplicateToken);
                }
                let added = self.tokens.insert(span.as_slice(), c);
                assert(added);
            },
        }
        self.pairs.insert(key, c);
        proof {
            lemma_pair_key_injective();
            assert(self.pair_ranks() =~= before.pair_ranks().insert((a, b), c));
            before.segmentation_spec().specials().lemma_words();
            assert forall|t: u32| #[trigger] self.special_spans().contains_key(t) implies t
                < self.width().sentinel_spec() && self.special_spans()[t].len() >= 1
                && !self.token_spans().contains_key(t) && self.word_token(self.special_spans()[t])
                is None by {
                assert(before.special_spans().contains_key(t));
                let s = self.special_spans()[t];
                assert(before.word_token(s) is None);
                if self.token_map().has_span(s) {
                    let u = choose|u: u32| #[trigger]
                        self.token_spans().contains_key(u) && self.token_spans()[u] == s;
                    if u != c {
                        assert(before.token_spans().contains_key(u));
                    } else {
                        assert(before.special_token(s) == Some(t));
                    }
                    assert(false);
                }
            }
            assert forall|p: (u32, u32)| #[trigger] self.pair_ranks().contains_key(p) implies self.merge_wf(
                p.0,
                p.1,
                self.pair_ranks()[p],
            ) by {
                if p != (a, b) {
                    assert(before.pair_ranks().contains_key(p));
                    assert(before.merge_wf(p.0, p.1, before.pair_ranks()[p]));
                }
            }
            assert forall|t: u32| #[trigger]
                self.token_spans().contains_key(t) && self.token_spans()[t].len()
                    > 1 implies exists|p: (u32, u32)| #[trigger]
                self.pair_ranks().contains_key(p) && self.pair_ranks()[p] == t by {
                if t == c {
                    assert(self.pair_ranks().contains_key((a, b)));
                } else {
                    assert(before.token_spans().contains_key(t));
                    let p = choose|p: (u32, u32)| #[trigger]
                        before.pair_ranks().contains_key(p) && before.pair_ranks()[p] == t;
                    assert(self.pair_ranks().contains_key(p));
                }
            }
            assert forall|x: u8| #[trigger]
                self.token_spans().contains_key(self.byte_table()[x as int])
                    && self.token_spans()[self.byte_table()[x as int]] == seq![x] by {
                assert(before.token_spans().contains_key(before.byte_table()[x as int]));
            }
            assert forall|t: u32| #[trigger] self.token_spans().contains_key(t) implies t
                < self.width().sentinel_spec() && self.token_spans()[t].len() >= 1 by {
                if t != c {
                    assert(before.token_spans().contains_key(t));
                } else {
                    assert(before.token_spans().contains_key(a));
                }
            }
        }
        Ok(())
    }

    /// The first reason, if any, for which `word` cannot be made a special
    /// word with token `token`.
    ///
    /// The token must stay below the reserved value of the width
    /// (`Capacity`). The word must not be empty, and neither the token nor
    /// the word may be an ordinary token's (`MalformedSpecial`), nor a
    /// special word's already (`DuplicateToken`).
    pub open spec fn special_fault(&self, word: Seq<char>, token: u32) -> Option<VocabError> {
        let span = encode_utf8(word);
        if token >= self.width().sentinel_spec() {
            Some(VocabError::Capacity)
        } else if span.len() == 0 || self.token_spans().contains_key(token) || self.word_token(
            span,
        ) is Some {
            Some(VocabError::MalformedSpecial)
        } else if self.special_spans().contains_key(token) || self.special_token(span) is Some {
            Some(VocabError::DuplicateToken)
        } else {
            None
        }
    }

    /// Makes `word` a special word with token `token`.
    ///
    /// Fails, leaving the vocabulary as it was, for the first reason that
    /// `special_fault` gives.
    pub fn add_special(&mut self, word: &str, token: u32) -> (r: Result<(), VocabError>)
        requires
            old(self).wf(),
        ensures
            final(self).wf(),
            final(self).width() == old(self).width(),
            final(self).byte_table() == old(self).byte_table(),
            final(self).token_map() == old(self).token_map(),
            final(self).pair_ranks() == old(self).pair_ranks(),
            final(self).segmentation_spec().pattern_view() == old(
                self,
            ).segmentation_spec().pattern_view(),
            match old(self).special_fault(word@, token) {
                Some(e) => r == Err::<(), VocabError>(e) && final(self).segmentation_spec() == old(
                    self,
                ).segmentation_spec(),
                None => r is Ok && final(self).special_spans() == old(self).special_spans().insert(
                    token,
                    encode_utf8(word@),
                ) && final(self).segmentation_spec().specials().words() == old(
                    self,
                ).segmentation_spec().specials().words().push((word@, token)),
            },
    {
        let span = word.as_bytes();
        if token >= self.width.sentinel() {
            return Err(VocabError::Capacity);
        }
        if span.len() == 0 || self.tokens.lookup_span(token).is_some() || self.tokens.lookup_token(
            span,
        ).is_some() {
            return Err(VocabError::MalformedSpecial);
        }
        let ghost before = *self;
        let r = self.segmentation.add_special_word(word, token);
        proof {
            assert(self.pair_ranks() =~= before.pair_ranks());
            if r is Ok {
                assert forall|t: u32| #[trigger] self.special_spans().contains_key(t) implies t
                    < self.width().sentinel_spec() && self.special_spans()[t].len() >= 1
                    && !self.token_spans().contains_key(t) && self.word_token(
                    self.special_spans()[t],
                ) is None by {
                    if t != token {
                        assert(before.special_spans().contains_key(t));
                    }
                }
            }
        }
        r
    }

    /// The bytes that `token` stands for: its span, for an ordinary token or
    /// a special one; none for an id that is neither.
    pub open spec fn token_bytes(&self, token: u32) -> Option<Seq<u8>> {
        if self.token_spans().contains_key(token) {
            Some(self.token_spans()[token])
        } else if self.special_spans().contains_key(token) {
            Some(self.special_spans()[token])
        } else {
            None
        }
    }

    /// The bytes that `tokens` stand for, in order; none where one of them
    /// is no token of the vocabulary.
    pub open spec fn decode_spec(&self, tokens: Seq<u32>) -> Option<Seq<u8>>
        decreases tokens.len(),
    {
        if tokens.len() == 0 {
            Some(Seq::<u8>::empty())
        } else {
            match (self.decode_spec(tokens.drop_last()), self.token_bytes(tokens.last())) {
                (Some(head), Some(last)) => Some(head + last),
                _ => None,
            }
        }
    }

    /// The bytes that `tokens` stand for, in order; `None` where one of them
    /// is no token of the vocabulary.
    pub fn try_decode(&self, tokens: &[u32]) -> (r: Option<Vec<u8>>)
        ensures
            match self.decode_spec(tokens@) {
                Some(bytes) => r is Some && r.unwrap()@ == bytes,
                None => r is None,
            },
    {
        let mut bytes: Vec<u8> = Vec::new();
        let mut i: usize = 0;
        proof {
            assert(tokens@.take(0) =~= Seq::<u32>::empty());
        }
        while i < tokens.len()
            invariant
                i <= tokens@.len(),
                self.decode_spec(tokens@.take(i as int)) == Some(bytes@),
            decreases tokens@.len() - i,
        {
            proof {
                assert(tokens@.take(i + 1).drop_last() =~= tokens@.take(i as int));
            }
            let span = match self.tokens.lookup_span(tokens[i]) {
                Some(v) => v,
                None => match self.segmentation.special_vocab().lookup_span(tokens[i]) {
                    Some(v) => v,
                    None => {
                        proof {
                            self.lemma_decode_none(tokens@, i + 1);
                        }
                        return None;
                    },
                },
            };
            bytes.extend_from_slice(span.as_slice());
            i += 1;
        }
        proof {
            assert(tokens@.take(i as int) =~= tokens@);
        }
        Some(bytes)
    }

    /// Where a prefix of `tokens` stands for no bytes, the whole stands for
    /// none.
    pub proof fn lemma_decode_none(&self, tokens: Seq<u32>, n: int)
        requires
            0 <= n <= tokens.len(),
            self.decode_spec(tokens.take(n)) is None,
        ensures
            self.decode_spec(tokens) is None,
        decreases tokens.len() - n,
    {
        if n == tokens.len() {
            assert(tokens.take(n) =~= tokens);
        } else {
            assert(tokens.take(n + 1).drop_last() =~= tokens.take(n));
            self.lemma_decode_none(tokens, n + 1);
        }
    }

    /// Decoding a sequence of tokens is decoding its two parts one after
    /// the other.
    pub proof fn lemma_decode_concat(&self, a: Seq<u32>, b: Seq<u32>)
        ensures
            self.decode_spec(a + b) == (match (self.decode_spec(a), self.decode_spec(b)) {
                (Some(x), Some(y)) => Some(x + y),
                _ => None,
            }),
        decreases b.len(),
    {
        if b.len() == 0 {
            assert(a + b =~= a);
            if self.decode_spec(a) is Some {
                assert(self.decode_spec(a).unwrap() + Seq::<u8>::empty() =~= self.decode_spec(
                    a,
                ).unwrap());
            }
        } else {
            self.lemma_decode_concat(a, b.drop_last());
            assert((a + b).drop_last() =~= a + b.drop_last());
            assert((a + b).last() == b.last());
            match (self.decode_spec(a), self.decode_spec(b.drop_last()), self.token_bytes(b.last())) {
                (Some(x), Some(y), Some(z)) => {
                    assert((x + y) + z =~= x + (y + z));
                },
                _ => {},
            }
        }
    }

    /// A single token decodes to its bytes.
    pub proof fn lemma_decode_one(&self, t: u32)
        ensures
            self.decode_spec(seq![t]) == self.token_bytes(t),
    {
        assert(seq![t].drop_last() =~= Seq::<u32>::empty());
        assert(seq![t].last() == t);
        assert(self.decode_spec(Seq::<u32>::empty()) == Some(Seq::<u8>::empty()));
        if self.token_bytes(t) is Some {
            assert(Seq::<u8>::empty() + self.token_bytes(t).unwrap() =~= self.token_bytes(
                t,
            ).unwrap());
        }
    }

    /// The byte-level tokens of a span decode to the span.
    pub proof fn lemma_decode_bytes(&self, span: Seq<u8>)
        requires
            self.wf(),
        ensures
            self.decode_spec(byte_tokens(self.byte_table(), span)) == Some(span),
        decreases span.len(),
    {
        let tokens = byte_tokens(self.byte_table(), span);
        if span.len() == 0 {
            assert(span =~= Seq::<u8>::empty());
        } else {
            self.lemma_decode_bytes(span.drop_last());
            assert(tokens.drop_last() =~= byte_tokens(self.byte_table(), span.drop_last()));
            let b = span.last();
            assert(self.token_spans().contains_key(self.byte_table()[b as int]));
            assert(span.drop_last() + seq![b] =~= span);
        }
    }

    /// Merging a ranked pair keeps what the tokens decode to.
    pub proof fn lemma_decode_merge_at(&self, s: Seq<u32>, i: int)
        requires
            self.wf(),
            pair_rank(self.pair_ranks(), s, i) is Some,
        ensures
            self.decode_spec(merge_at(s, i, pair_rank(self.pair_ranks(), s, i).unwrap()))
                == self.decode_spec(s),
    {
        let c = pair_rank(self.pair_ranks(), s, i).unwrap();
        let p = (s[i], s[i + 1]);
        assert(self.pair_ranks().contains_key(p));
        assert(self.merge_wf(p.0, p.1, c));
        let head = s.take(i);
        let pair = seq![s[i], s[i + 1]];
        let rest = s.skip(i + 2);
        assert(s =~= head + pair + rest);
        assert(merge_at(s, i, c) =~= head + seq![c] + rest);
        self.lemma_decode_one(c);
        self.lemma_decode_one(s[i]);
        self.lemma_decode_one(s[i + 1]);
        assert(pair =~= seq![s[i]] + seq![s[i + 1]]);
        self.lemma_decode_concat(seq![s[i]], seq![s[i + 1]]);
        assert(self.decode_spec(pair) == self.decode_spec(seq![c]));
        self.lemma_decode_concat(head, pair);
        self.lemma_decode_concat(head, seq![c]);
        self.lemma_decode_concat(head + pair, rest);
        self.lemma_decode_concat(head + seq![c], rest);
    }

    /// The merge procedure keeps what the tokens decode to.
    pub proof fn lemma_decode_merge_all(&self, s: Seq<u32>)
        requires
            self.wf(),
        ensures
            self.decode_spec(merge_all(self.pair_ranks(), s)) == self.decode_spec(s),
        decreases s.len(),
    {
        let ranks = self.pair_ranks();
        if is_best_pair(ranks, s, best_pair(ranks, s)) {
            self.lemma_decode_merge_at(s, best_pair(ranks, s));
            self.lemma_decode_merge_all(merge_step(ranks, s));
        }
    }

    /// The token of a span decodes to the span.
    pub proof fn lemma_decode_word_token(&self, span: Seq<u8>)
        requires
            self.wf(),
            self.word_token(span) is Some,
        ensures
            self.decode_spec(seq![self.word_token(span).unwrap()]) == Some(span),
    {
        self.lemma_decode_one(self.word_token(span).unwrap());
    }

    /// The token of a special word decodes to the word's bytes.
    pub proof fn lemma_decode_special_token(&self, span: Seq<u8>)
        requires
            self.wf(),
            self.special_token(span) is Some,
        ensures
            self.decode_spec(seq![self.special_token(span).unwrap()]) == Some(span),
    {
        self.segmentation_spec().specials().lemma_words();
        let t = self.special_token(span).unwrap();
        assert(self.special_spans().contains_key(t));
        self.lemma_decode_one(t);
    }
}

} // verus!
