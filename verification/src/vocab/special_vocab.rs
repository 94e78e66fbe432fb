//! The special tokens of a vocabulary: literal words with ids of their own.

use crate::vocab::span_map::SpanTokenMap;
use vstd::prelude::*;
use vstd::utf8::encode_utf8;

verus! {

/// A one-to-one map between special words and their tokens, which also keeps
/// the words in the order in which they were added.
pub struct SpecialVocab {
    map: SpanTokenMap,
    words: Vec<(String, u32)>,
}

impl SpecialVocab {
    /// The map from each special token to the bytes of its word.
    pub closed spec fn spans(&self) -> Map<u32, Seq<u8>> {
        self.map.spans()
    }

    /// The words and their tokens, in the order in which they were added.
    pub closed spec fn words(&self) -> Seq<(Seq<char>, u32)> {
        Seq::new(self.words@.len(), |i: int| (self.words@[i].0@, self.words@[i].1))
    }

    /// The token of the special word with bytes `span`, where there is one.
    pub closed spec fn token_of(&self, span: Seq<u8>) -> Option<u32> {
        self.map.token_of(span)
    }

    /// The word list and the map hold the same pairs, and no word or token
    /// occurs twice.
    pub closed spec fn wf(&self) -> bool {
        &&& self.map.wf()
        &&& forall|i: int|
            0 <= i < self.words@.len() ==> #[trigger] self.map.spans().contains_key(
                self.words@[i].1,
            ) && self.map.spans()[self.words@[i].1] == encode_utf8(self.words@[i].0@)
        &&& forall|t: u32| #[trigger]
            self.map.spans().contains_key(t) ==> exists|i: int|
                0 <= i < self.words@.len() && #[trigger] self.words@[i].1 == t
    }

    /// In a well-formed vocabulary the tokens are those of the listed words,
    /// each with the bytes of its word, and a word's bytes lead to its token.
    pub proof fn lemma_words(&self)
        requires
            self.wf(),
        ensures
            forall|i: int|
                0 <= i < self.words().len() ==> #[trigger] self.spans().contains_key(
                    self.words()[i].1,
                ) && self.spans()[self.words()[i].1] == encode_utf8(self.words()[i].0)
                    && self.token_of(encode_utf8(self.words()[i].0)) == Some(self.words()[i].1),
            forall|t: u32| #[trigger]
                self.spans().contains_key(t) ==> self.token_of(self.spans()[t]) == Some(t)
                    && exists|i: int|
                    0 <= i < self.words().len() && #[trigger] self.words()[i].1 == t,
            forall|span: Seq<u8>| #[trigger]
                self.token_of(span) is Some ==> self.spans().contains_key(
                    self.token_of(span).unwrap(),
                ) && self.spans()[self.token_of(span).unwrap()] == span,
    {
        assert forall|i: int| 0 <= i < self.words().len() implies #[trigger] self.spans().contains_key(
            self.words()[i].1,
        ) && self.spans()[self.words()[i].1] == encode_utf8(self.words()[i].0) && self.token_of(
            encode_utf8(self.words()[i].0),
        ) == Some(self.words()[i].1) by {
            assert(self.map.spans().contains_key(self.words@[i].1));
            self.map.lemma_token_of_span(self.words@[i].1);
        }
        assert forall|t: u32| #[trigger] self.spans().contains_key(t) implies self.token_of(
            self.spans()[t],
        ) == Some(t) && exists|i: int|
            0 <= i < self.words().len() && #[trigger] self.words()[i].1 == t by {
            self.map.lemma_token_of_span(t);
            let i = choose|i: int| 0 <= i < self.words@.len() && #[trigger] self.words@[i].1 == t;
            assert(self.words()[i].1 == t);
        }
    }

    /// A vocabulary without special tokens.
    pub fn new() -> (v: Self)
        ensures
            v.wf(),
            v.spans() == Map::<u32, Seq<u8>>::empty(),
            v.words() == Seq::<(Seq<char>, u32)>::empty(),
    {
        let v = SpecialVocab { map: SpanTokenMap::new(), words: Vec::new() };
        proof {
            assert(v.words() =~= Seq::<(Seq<char>, u32)>::empty());
        }
        v
    }

    /// The number of special words.
    pub fn len(&self) -> (n: usize)
        ensures
            n == self.words().len(),
    {
        self.words.len()
    }

    /// The `i`-th special word.
    pub fn word(&self, i: usize) -> (w: &str)
        requires
            i < self.words().len(),
        ensures
            w@ == self.words()[i as int].0,
    {
        self.words[i].0.as_str()
    }

    /// The token of the `i`-th special word.
    pub fn word_token(&self, i: usize) -> (t: u32)
        requires
            i < self.words().len(),
        ensures
            t == self.words()[i as int].1,
    {
        self.words[i].1
    }

    /// The token of the special word with bytes `span`, if there is one.
    pub fn lookup_token(&self, span: &[u8]) -> (r: Option<u32>)
        requires
            self.wf(),
        ensures
            r == self.token_of(span@),
    {
        self.map.lookup_token(span)
    }

    /// The bytes of the special word of `token`, if it is a special token.
    pub fn lookup_span(&self, token: u32) -> (r: Option<&Vec<u8>>)
        ensures
            match r {
                Some(v) => self.spans().contains_key(token) && v@ == self.spans()[token],
                None => !self.spans().contains_key(token),
            },
    {
        self.map.lookup_span(token)
    }

    /// Whether `token` is a special token.
    pub fn contains_token(&self, token: u32) -> (r: bool)
        ensures
            r == self.spans().contains_key(token),
    {
        self.map.lookup_span(token).is_some()
    }

    /// Adds the special word `word` with token `token`, unless the
    /// vocabulary holds the word or the token already.
    ///
    /// Returns whether the word was added.
    pub fn add_str_word(&mut self, word: &str, token: u32) -> (added: bool)
        requires
            old(self).wf(),
        ensures
            final(self).wf(),
            added == (!old(self).spans().contains_key(token) && old(self).token_of(
                encode_utf8(word@),
            ) is None),
            added ==> final(self).spans() == old(self).spans().insert(token, encode_utf8(word@))
                && final(self).words() == old(self).words().push((word@, token)),
            !added ==> final(self).spans() == old(self).spans() && final(self).words() == old(self).words(),
    {
        let ghost before = *self;
        let added = self.map.insert(word.as_bytes(), token);
        if added {
            self.words.push((word.to_owned(), token));
            proof {
                assert(self.words() =~= before.words().push((word@, token)));
                assert forall|i: int| 0 <= i < self.words@.len() implies #[trigger] self.map.spans().contains_key(
                    self.words@[i].1,
                ) && self.map.spans()[self.words@[i].1] == encode_utf8(self.words@[i].0@) by {
                    if i < before.words@.len() {
                        assert(before.map.spans().contains_key(before.words@[i].1));
                    }
                }
                assert forall|t: u32| #[trigger] self.map.spans().contains_key(t) implies exists|
                    i: int,
                |
                    0 <= i < self.words@.len() && #[trigger] self.words@[i].1 == t by {
                    if t == token {
                        assert(self.words@[self.words@.len() - 1].1 == t);
                    } else {
                        assert(before.map.spans().contains_key(t));
                        let i = choose|i: int|
                            0 <= i < before.words@.len() && #[trigger] before.words@[i].1 == t;
                        assert(self.words@[i].1 == t);
                    }
                }
            }
        }
        added
    }
}

} // verus!
