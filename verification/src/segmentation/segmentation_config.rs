//! What a tokenizer's text splitting needs: the word pattern and the special
//! words.

use crate::types::VocabError;
use crate::vocab::special_vocab::SpecialVocab;
use vstd::prelude::*;
use vstd::utf8::encode_utf8;

verus! {

/// The word pattern and the special words of a tokenizer.
pub struct SegmentationConfig {
    pattern: String,
    specials: SpecialVocab,
}

impl SegmentationConfig {
    /// The word pattern's text.
    pub closed spec fn pattern_view(&self) -> Seq<char> {
        self.pattern@
    }

    /// The special words.
    pub closed spec fn specials(&self) -> SpecialVocab {
        self.specials
    }

    /// The special words are well formed.
    pub open spec fn wf(&self) -> bool {
        self.specials().wf()
    }

    /// A configuration with the word pattern `pattern` and no special words.
    pub fn from_pattern(pattern: &str) -> (c: Self)
        ensures
            c.wf(),
            c.pattern_view() == pattern@,
            c.specials().words() == Seq::<(Seq<char>, u32)>::empty(),
            c.specials().spans() == Map::<u32, Seq<u8>>::empty(),
    {
        SegmentationConfig { pattern: pattern.to_owned(), specials: SpecialVocab::new() }
    }

    /// The word pattern's text.
    pub fn pattern(&self) -> (p: &str)
        ensures
            p@ == self.pattern_view(),
    {
        self.pattern.as_str()
    }

    /// The special words.
    pub fn special_vocab(&self) -> (v: &SpecialVocab)
        ensures
            *v == self.specials(),
    {
        &self.specials
    }

    /// Adds the special word `word` with token `token`.
    ///
    /// Fails with `DuplicateToken`, leaving the configuration as it was,
    /// where it holds the word or the token already.
    pub fn add_special_word(&mut self, word: &str, token: u32) -> (r: Result<(), VocabError>)
        requires
            old(self).wf(),
        ensures
            final(self).wf(),
            final(self).pattern_view() == old(self).pattern_view(),
            r is Ok <==> !old(self).specials().spans().contains_key(token) && old(self).specials().token_of(encode_utf8(word@)) is None,
            r is Err ==> r == Err::<(), VocabError>(VocabError::DuplicateToken) && *final(self)
                == *old(self),
            r is Ok ==> final(self).specials().spans() == old(self).specials().spans().insert(
                token,
                encode_utf8(word@),
            ) && final(self).specials().words() == old(self).specials().words().push(
                (word@, token),
            ),
    {
        if self.specials.contains_token(token) || self.specials.lookup_token(
            word.as_bytes(),
        ).is_some() {
            return Err(VocabError::DuplicateToken);
        }
        let added = self.specials.add_str_word(word, token);
        assert(added);
        Ok(())
    }

    /// The `i`-th of the additions `words` is new: neither its word nor its
    /// token is a special word's of this configuration already, nor an
    /// earlier addition's.
    pub open spec fn is_new_at(&self, words: Seq<(Seq<char>, u32)>, i: int) -> bool {
        &&& !self.specials().spans().contains_key(words[i].1)
        &&& self.specials().token_of(encode_utf8(words[i].0)) is None
        &&& forall|j: int|
            0 <= j < i ==> (#[trigger] words[j]).1 != words[i].1 && encode_utf8(words[j].0)
                != encode_utf8(words[i].0)
    }

    /// The additions `words` as texts with their tokens.
    pub open spec fn additions(words: Seq<(&str, u32)>) -> Seq<(Seq<char>, u32)> {
        Seq::new(words.len(), |k: int| (words[k].0@, words[k].1))
    }

    /// This configuration with the special words of `words` added in order.
    ///
    /// Fails with `DuplicateToken` unless every addition is new.
    pub fn with_special_words(self, words: &[(&str, u32)]) -> (r: Result<Self, VocabError>)
        requires
            self.wf(),
        ensures
            r is Ok <==> forall|i: int|
                0 <= i < words@.len() ==> #[trigger] self.is_new_at(Self::additions(words@), i),
            r matches Ok(c) ==> c.wf() && c.pattern_view() == self.pattern_view()
                && c.specials().words() == self.specials().words() + Self::additions(words@),
            r matches Err(e) ==> e == VocabError::DuplicateToken,
    {
        let ghost added = Self::additions(words@);
        let mut c = self;
        let mut i: usize = 0;
        proof {
            assert(c.specials().words() =~= self.specials().words() + added.take(0));
        }
        while i < words.len()
            invariant
                i <= words.len(),
                c.wf(),
                self.wf(),
                added == Self::additions(words@),
                c.pattern_view() == self.pattern_view(),
                c.specials().words() == self.specials().words() + added.take(i as int),
                forall|k: int| 0 <= k < i ==> #[trigger] self.is_new_at(added, k),
                forall|t: u32|
                    #![trigger c.specials().spans().contains_key(t)]
                    c.specials().spans().contains_key(t) <==> self.specials().spans().contains_key(
                        t,
                    ) || exists|k: int| 0 <= k < i && (#[trigger] added[k]).1 == t,
                forall|span: Seq<u8>|
                    #![trigger c.specials().token_of(span)]
                    c.specials().token_of(span) is Some <==> self.specials().token_of(span)
                        is Some || exists|k: int|
                        0 <= k < i && encode_utf8((#[trigger] added[k]).0) == span,
            decreases words.len() - i,
        {
            let ghost before = c;
            let ghost word = words@[i as int].0@;
            let ghost token = words@[i as int].1;
            proof {
                assert(added[i as int] == (word, token));
            }
            match c.add_special_word(words[i].0, words[i].1) {
                Ok(()) => {},
                Err(e) => {
                    proof {
                        assert(!self.is_new_at(added, i as int)) by {
                            if before.specials().spans().contains_key(token) {
                                if !self.specials().spans().contains_key(token) {
                                    let k = choose|k: int|
                                        0 <= k < i && (#[trigger] added[k]).1 == token;
                                    assert(added[k].1 == added[i as int].1);
                                }
                            } else {
                                assert(before.specials().token_of(encode_utf8(word)) is Some);
                                if self.specials().token_of(encode_utf8(word)) is None {
                                    let k = choose|k: int|
                                        0 <= k < i && encode_utf8((#[trigger] added[k]).0)
                                            == encode_utf8(word);
                                    assert(encode_utf8(added[k].0) == encode_utf8(
                                        added[i as int].0,
                                    ));
                                }
                            }
                        }
                    }
                    return Err(e);
                },
            }
            proof {
                assert(added.take(i + 1) =~= added.take(i as int).push((word, token)));
                assert(c.specials().words() =~= self.specials().words() + added.take(i + 1));
                assert(self.is_new_at(added, i as int)) by {
                    assert forall|j: int| 0 <= j < i implies (#[trigger] added[j]).1 != token
                        && encode_utf8(added[j].0) != encode_utf8(word) by {
                        assert(before.specials().spans().contains_key(added[j].1));
                        assert(before.specials().token_of(encode_utf8(added[j].0)) is Some);
                    }
                }
                c.specials().lemma_words();
                before.specials().lemma_words();
                assert forall|t: u32|
                    #![trigger c.specials().spans().contains_key(t)]
                    c.specials().spans().contains_key(t) <==> self.specials().spans().contains_key(
                        t,
                    ) || exists|k: int| 0 <= k < i + 1 && (#[trigger] added[k]).1 == t by {
                    if t == token {
                        assert(added[i as int].1 == t);
                    } else if before.specials().spans().contains_key(t)
                        && !self.specials().spans().contains_key(t) {
                        let k = choose|k: int| 0 <= k < i && (#[trigger] added[k]).1 == t;
                        assert(added[k].1 == t);
                    } else if exists|k: int| 0 <= k < i + 1 && (#[trigger] added[k]).1 == t {
                        let k = choose|k: int| 0 <= k < i + 1 && (#[trigger] added[k]).1 == t;
                        assert(k < i);
                        assert(added[k].1 == t);
                    }
                }
                assert forall|span: Seq<u8>|
                    #![trigger c.specials().token_of(span)]
                    c.specials().token_of(span) is Some <==> self.specials().token_of(span)
                        is Some || exists|k: int|
                        0 <= k < i + 1 && encode_utf8((#[trigger] added[k]).0) == span by {
                    if span == encode_utf8(word) {
                        assert(encode_utf8(added[i as int].0) == span);
                        assert(c.specials().spans().contains_key(token));
                        assert(c.specials().token_of(c.specials().spans()[token]) == Some(token));
                    } else {
                        if c.specials().token_of(span) is Some {
                            let t = c.specials().token_of(span).unwrap();
                            assert(c.specials().spans().contains_key(t));
                            assert(before.specials().spans().contains_key(t));
                            assert(before.specials().token_of(before.specials().spans()[t])
                                == Some(t));
                        }
                        if before.specials().token_of(span) is Some {
                            let t = before.specials().token_of(span).unwrap();
                            assert(before.specials().spans().contains_key(t));
                            assert(c.specials().spans().contains_key(t));
                            assert(c.specials().token_of(c.specials().spans()[t]) == Some(t));
                        }
                        if before.specials().token_of(span) is Some && self.specials().token_of(
                            span,
                        ) is None {
                            let k = choose|k: int|
                                0 <= k < i && encode_utf8((#[trigger] added[k]).0) == span;
                            assert(encode_utf8(added[k].0) == span);
                        }
                        if exists|k: int|
                            0 <= k < i + 1 && encode_utf8((#[trigger] added[k]).0) == span {
                            let k = choose|k: int|
                                0 <= k < i + 1 && encode_utf8((#[trigger] added[k]).0) == span;
                            assert(k < i);
                            assert(encode_utf8(added[k].0) == span);
                        }
                    }
                }
            }
            i += 1;
        }
        proof {
            assert(added.take(i as int) =~= added);
        }
        Ok(c)
    }
}

} // verus!
