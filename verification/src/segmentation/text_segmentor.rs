//! A text segmentor over compiled patterns: one for words, one for special
//! words.

use crate::compat::ranges::offset_range;
use crate::compat::strings::{
    lemma_boundary_in_chunk, lemma_boundary_in_suffix, on_boundaries, substring,
};
use crate::regex::exact_match_union::{exact_match_union_regex_pattern, union_pattern};
use crate::regex::regex_wrapper::{
    byte_len, pattern_compiles, PatternError, regex_matches, RegexWrapper, valid_matches,
    valid_span,
};
use crate::segmentation::segmentation_config::SegmentationConfig;
use crate::spanning::lexer_spanner::{at_base, lexed};
use crate::spanning::span_lexer::{is_span_from, SpanLexer};
use core::ops::Range;
use vstd::prelude::*;
use vstd::string::StringExecFns;
use vstd::string::StringSliceAdditionalSpecFns;
use vstd::utf8::{decode_utf8, is_char_boundary, valid_utf8};

verus! {

/// A labelled byte range of a text.
#[derive(Debug, PartialEq, Eq, Hash)]
pub enum SpanRef {
    /// A normal word: a match of the word pattern.
    Normal(Range<usize>),
    /// A special word.
    Special(Range<usize>),
}

impl SpanRef {
    /// The span's byte range.
    pub open spec fn range_spec(self) -> Range<usize> {
        match self {
            SpanRef::Normal(r) => r,
            SpanRef::Special(r) => r,
        }
    }

    /// The span's byte range.
    pub fn range(&self) -> (r: Range<usize>)
        ensures
            r == self.range_spec(),
    {
        match self {
            SpanRef::Normal(r) => Range { start: r.start, end: r.end },
            SpanRef::Special(r) => Range { start: r.start, end: r.end },
        }
    }
}

impl From<SpanRef> for Range<usize> {
    fn from(span: SpanRef) -> (r: Range<usize>) {
        match span {
            SpanRef::Normal(range) => range,
            SpanRef::Special(range) => range,
        }
    }
}

impl vstd::std_specs::convert::FromSpecImpl<SpanRef> for Range<usize> {
    open spec fn obeys_from_spec() -> bool {
        true
    }

    open spec fn from_spec(span: SpanRef) -> Range<usize> {
        span.range_spec()
    }
}

impl Clone for SpanRef {
    fn clone(&self) -> (r: Self)
        ensures
            r == *self,
    {
        match self {
            SpanRef::Normal(r) => SpanRef::Normal(Range { start: r.start, end: r.end }),
            SpanRef::Special(r) => SpanRef::Special(Range { start: r.start, end: r.end }),
        }
    }
}

/// The matches `found` as normal words, with `offset` added to every bound.
pub open spec fn as_normal_words(found: Seq<(usize, usize)>, offset: usize) -> Seq<SpanRef> {
    Seq::new(found.len(), |i: int| SpanRef::Normal(at_base(found[i].0, found[i].1, offset)))
}

/// The normal words of the chunk `chunk`, whose first byte is byte `offset`
/// of the whole text: the successive matches of `pattern`.
pub open spec fn normal_words(pattern: Seq<char>, chunk: Seq<u8>, offset: usize) -> Seq<SpanRef> {
    as_normal_words(valid_matches(chunk, regex_matches(pattern, chunk), 0), offset)
}

/// Appends the matches `found` to `words` as normal words, with `offset`
/// added to every bound.
pub fn append_normal_words(found: &Vec<(usize, usize)>, offset: usize, words: &mut Vec<SpanRef>)
    requires
        forall|k: int|
            0 <= k < found@.len() ==> (#[trigger] found@[k]).0 + offset <= usize::MAX
                && found@[k].1 + offset <= usize::MAX,
    ensures
        final(words)@ == old(words)@ + as_normal_words(found@, offset),
{
    let mut i: usize = 0;
    proof {
        assert(words@ =~= old(words)@ + as_normal_words(found@.take(0), offset));
    }
    while i < found.len()
        invariant
            i <= found.len(),
            forall|k: int|
                0 <= k < found@.len() ==> (#[trigger] found@[k]).0 + offset <= usize::MAX
                    && found@[k].1 + offset <= usize::MAX,
            words@ == old(words)@ + as_normal_words(found@.take(i as int), offset),
        decreases found.len() - i,
    {
        let m = found[i];
        words.push(SpanRef::Normal(offset_range(Range { start: m.0, end: m.1 }, offset)));
        proof {
            assert(as_normal_words(found@.take(i + 1), offset) =~= as_normal_words(
                found@.take(i as int),
                offset,
            ).push(SpanRef::Normal(at_base(m.0, m.1, offset))));
        }
        i += 1;
    }
    proof {
        assert(found@.take(i as int) =~= found@);
    }
}

/// Splits a text into normal words and special words.
pub struct TextSegmentor {
    /// The pattern for splitting words.
    pub span_re: RegexWrapper,
    /// The pattern for matching special words.
    pub special_re: Option<RegexWrapper>,
}

impl TextSegmentor {
    /// The first special word of `chunk`, if there is one.
    pub open spec fn special_at(&self, chunk: Seq<u8>) -> Option<(usize, usize)> {
        match self.special_re {
            None => None,
            Some(re) => lexed(re, chunk, 0),
        }
    }

    /// The spans of `text` from byte `offset` on: up to each special word
    /// the normal words before it, then the special word; after the last
    /// special word the normal words of the rest, unless the rest is empty.
    pub open spec fn segment_from(&self, text: Seq<u8>, offset: usize) -> Seq<SpanRef>
        decreases text.len() - offset,
    {
        if offset > text.len() || text.len() > usize::MAX {
            Seq::<SpanRef>::empty()
        } else {
            let current = text.skip(offset as int);
            match self.special_at(current) {
                Some(span) => normal_words(
                    self.span_re.pattern(),
                    current.take(span.0 as int),
                    offset,
                ) + seq![SpanRef::Special(at_base(span.0, span.1, offset))] + self.segment_from(
                    text,
                    (offset + span.1) as usize,
                ),
                None => if current.len() > 0 {
                    normal_words(self.span_re.pattern(), current, offset)
                } else {
                    Seq::<SpanRef>::empty()
                },
            }
        }
    }

    /// The spans of the whole of `text`.
    pub open spec fn segment_spec(&self, text: Seq<u8>) -> Seq<SpanRef> {
        self.segment_from(text, 0)
    }

    /// Every span of a text lies within the text.
    pub proof fn lemma_segment_bounds(&self, text: Seq<u8>)
        ensures
            forall|k: int|
                0 <= k < self.segment_spec(text).len() ==> (#[trigger] self.segment_spec(
                    text,
                )[k]).range_spec().start <= self.segment_spec(text)[k].range_spec().end
                    <= text.len(),
    {
        self.lemma_segment_bounds_from(text, 0);
    }

    /// Every span of a text from `offset` on lies within the text.
    pub proof fn lemma_segment_bounds_from(&self, text: Seq<u8>, offset: usize)
        ensures
            forall|k: int|
                0 <= k < self.segment_from(text, offset).len() ==> (#[trigger] self.segment_from(
                    text,
                    offset,
                )[k]).range_spec().start <= self.segment_from(text, offset)[k].range_spec().end
                    <= text.len(),
        decreases text.len() - offset,
    {
        if offset > text.len() || text.len() > usize::MAX {
        } else {
            let current = text.skip(offset as int);
            let all = self.segment_from(text, offset);
            match self.special_at(current) {
                Some(span) => {
                    let chunk = current.take(span.0 as int);
                    let words = normal_words(self.span_re.pattern(), chunk, offset);
                    let special = seq![SpanRef::Special(at_base(span.0, span.1, offset))];
                    let rest = self.segment_from(text, (offset + span.1) as usize);
                    lemma_valid_matches_bounds(
                        chunk,
                        regex_matches(self.span_re.pattern(), chunk),
                        0,
                    );
                    self.lemma_segment_bounds_from(text, (offset + span.1) as usize);
                    assert forall|k: int| 0 <= k < all.len() implies (
                    #[trigger] all[k]).range_spec().start <= all[k].range_spec().end
                        <= text.len() by {
                        if k < words.len() {
                            assert(all[k] == words[k]);
                        } else if k == words.len() {
                            assert(all[k] == special[0]);
                        } else {
                            assert(all[k] == rest[k - words.len() - 1]);
                        }
                    }
                },
                None => {
                    lemma_valid_matches_bounds(
                        current,
                        regex_matches(self.span_re.pattern(), current),
                        0,
                    );
                },
            }
        }
    }

    /// The special words of `words` as a list of texts.
    pub open spec fn word_texts(words: Seq<(Seq<char>, u32)>) -> Seq<Seq<char>> {
        Seq::new(words.len(), |i: int| words[i].0)
    }

    /// A segmentor for the word pattern and the special words of `config`.
    ///
    /// Fails where the word pattern, or the pattern of the special words,
    /// does not compile.
    pub fn from_config(config: &SegmentationConfig) -> (r: Result<Self, PatternError>)
        ensures
            r is Ok <==> Self::compiles(
                config.pattern_view(),
                Self::word_texts(config.specials().words()),
            ),
            r matches Ok(s) ==> s.built_from(
                config.pattern_view(),
                Self::word_texts(config.specials().words()),
            ),
    {
        let vocab = config.special_vocab();
        let mut specials: Vec<&str> = Vec::new();
        let mut i: usize = 0;
        while i < vocab.len()
            invariant
                i <= vocab.words().len(),
                *vocab == config.specials(),
                specials@.len() == i,
                forall|k: int| 0 <= k < i ==> (#[trigger] specials@[k])@ == vocab.words()[k].0,
            decreases vocab.words().len() - i,
        {
            specials.push(vocab.word(i));
            i += 1;
        }
        proof {
            assert(Seq::new(specials@.len(), |i: int| specials@[i]@) =~= Self::word_texts(
                config.specials().words(),
            ));
        }
        Self::init(config.pattern(), specials.as_slice())
    }

    /// The word pattern `pattern` and the pattern of the special words
    /// `specials`, where there are any, compile.
    pub open spec fn compiles(pattern: Seq<char>, specials: Seq<Seq<char>>) -> bool {
        pattern_compiles(pattern) && (specials.len() == 0 || pattern_compiles(
            union_pattern(specials),
        ))
    }

    /// The segmentor's patterns are the word pattern `pattern` and, where
    /// there are special words, their union pattern.
    pub open spec fn built_from(&self, pattern: Seq<char>, specials: Seq<Seq<char>>) -> bool {
        &&& self.span_re.pattern() == pattern
        &&& specials.len() == 0 ==> self.special_re is None
        &&& specials.len() > 0 ==> self.special_re is Some && self.special_re.unwrap().pattern()
            == union_pattern(specials)
    }

    /// A segmentor for the word pattern `pattern` and the special words
    /// `specials`.
    ///
    /// Fails where the word pattern, or the pattern of the special words,
    /// does not compile.
    pub fn init(pattern: &str, specials: &[&str]) -> (r: Result<Self, PatternError>)
        ensures
            r is Ok <==> Self::compiles(
                pattern@,
                Seq::new(specials@.len(), |i: int| specials@[i]@),
            ),
            r matches Ok(s) ==> s.built_from(
                pattern@,
                Seq::new(specials@.len(), |i: int| specials@[i]@),
            ),
    {
        let span_re = match RegexWrapper::compile(pattern) {
            Ok(re) => re,
            Err(e) => {
                return Err(e);
            },
        };
        let special_re = if specials.len() == 0 {
            None
        } else {
            let union = exact_match_union_regex_pattern(specials);
            match RegexWrapper::compile(union.as_str()) {
                Ok(re) => Some(re),
                Err(e) => {
                    return Err(e);
                },
            }
        };
        Ok(Self::new(span_re, special_re))
    }

    /// A segmentor over the compiled patterns `span_re` for words and
    /// `special_re` for special words.
    pub fn new(span_re: RegexWrapper, special_re: Option<RegexWrapper>) -> (s: Self)
        ensures
            s.span_re == span_re,
            s.special_re == special_re,
    {
        TextSegmentor { span_re, special_re }
    }

    /// The pattern for splitting words.
    pub fn span_re(&self) -> (re: &RegexWrapper)
        ensures
            *re == self.span_re,
    {
        &self.span_re
    }

    /// The pattern for matching special words, if there is one.
    pub fn special_re(&self) -> (re: Option<&RegexWrapper>)
        ensures
            match re {
                Some(re) => self.special_re == Some(*re),
                None => self.special_re is None,
            },
    {
        match &self.special_re {
            None => None,
            Some(special_re) => Some(special_re),
        }
    }

    /// The first special word of `text`, if there is one.
    pub fn next_special_span(&self, text: &str) -> (r: Option<Range<usize>>)
        ensures
            match r {
                Some(range) => self.special_at(text.spec_bytes()) == Some((range.start, range.end))
                    && is_span_from(text.spec_bytes(), 0, (range.start, range.end)),
                None => self.special_at(text.spec_bytes()) is None,
            },
    {
        match &self.special_re {
            None => None,
            Some(special_re) => match special_re.next_span(text, 0) {
                Some(span) => Some(Range { start: span.0, end: span.1 }),
                None => None,
            },
        }
    }

    /// Appends the normal words of the chunk `text`, whose first byte is
    /// byte `offset` of the whole text, to `words`.
    pub fn split_append_normal_words(&self, text: &str, offset: usize, words: &mut Vec<SpanRef>)
        requires
            offset + text.spec_bytes().len() <= usize::MAX,
        ensures
            final(words)@ == old(words)@ + normal_words(
                self.span_re.pattern(),
                text.spec_bytes(),
                offset,
            ),
    {
        let found = self.span_re.find_all(text);
        proof {
            let bytes = text.spec_bytes();
            lemma_valid_matches_bounds(bytes, regex_matches(self.span_re.pattern(), bytes), 0);
        }
        append_normal_words(&found, offset, words);
    }

    /// Appends the spans of `text` to `words`.
    pub fn split_append_spans(&self, text: &str, words: &mut Vec<SpanRef>)
        ensures
            final(words)@ == old(words)@ + self.segment_spec(text.spec_bytes()),
    {
        let ghost bytes = text.spec_bytes();
        let ghost all = self.segment_from(bytes, 0);
        let len = byte_len(text);
        let mut current: &str = text;
        let mut offset: usize = 0;
        proof {
            assert(bytes.skip(0) =~= bytes);
        }
        loop
            invariant
                bytes == text.spec_bytes(),
                len == bytes.len(),
                offset <= len,
                current.spec_bytes() == bytes.skip(offset as int),
                all == self.segment_from(bytes, 0),
                words@ + self.segment_from(bytes, offset) == old(words)@ + all,
            ensures
                self.special_at(current.spec_bytes()) is None,
            decreases len - offset,
        {
            let range = match self.next_special_span(current) {
                Some(range) => range,
                None => {
                    break ;
                },
            };
            let ghost chunk = current.spec_bytes();
            let ghost before = words@;
            let ghost rest = self.segment_from(bytes, (offset + range.end) as usize);
            let (pre, _) = current.split_at(range.start);
            proof {
                assert(pre.spec_bytes() =~= chunk.take(range.start as int));
                assert(offset + range.end <= len);
            }
            self.split_append_normal_words(pre, offset, words);
            words.push(
                SpanRef::Special(offset_range(Range { start: range.start, end: range.end }, offset)),
            );
            proof {
                assert(words@ + rest =~= before + self.segment_from(bytes, offset));
            }
            let (_, after) = current.split_at(range.end);
            proof {
                assert(after.spec_bytes() =~= bytes.skip(offset + range.end));
            }
            current = after;
            offset += range.end;
        }

        if byte_len(current) > 0 {
            self.split_append_normal_words(current, offset, words);
        } else {
            proof {
                assert(words@ + Seq::<SpanRef>::empty() =~= words@);
            }
        }
    }

    /// The spans of `text`.
    pub fn split_spans(&self, text: &str) -> (words: Vec<SpanRef>)
        ensures
            words@ == self.segment_spec(text.spec_bytes()),
    {
        let mut words: Vec<SpanRef> = Vec::with_capacity(byte_len(text) / 3);
        self.split_append_spans(text, &mut words);
        proof {
            assert(Seq::<SpanRef>::empty() + self.segment_spec(text.spec_bytes())
                =~= self.segment_spec(text.spec_bytes()));
        }
        words
    }
}

/// The characters of the spans `spans` of `text`, in order.
pub open spec fn covered_chars(text: Seq<u8>, spans: Seq<SpanRef>) -> Seq<char>
    decreases spans.len(),
{
    if spans.len() == 0 {
        Seq::<char>::empty()
    } else {
        covered_chars(text, spans.drop_last()) + decode_utf8(
            text.subrange(
                spans.last().range_spec().start as int,
                spans.last().range_spec().end as int,
            ),
        )
    }
}

impl TextSegmentor {
    /// Every span of a text of valid UTF-8, from a character boundary
    /// `offset` on, lies within the text and cuts no character.
    pub proof fn lemma_segment_on_boundaries(&self, text: Seq<u8>, offset: usize)
        requires
            valid_utf8(text),
            offset <= text.len(),
            is_char_boundary(text, offset as int),
        ensures
            forall|k: int|
                0 <= k < self.segment_from(text, offset).len() ==> on_boundaries(
                    text,
                    (#[trigger] self.segment_from(text, offset)[k]).range_spec(),
                ),
        decreases text.len() - offset,
    {
        broadcast use vstd::utf8::is_char_boundary_start_end_of_seq;

        if text.len() > usize::MAX {
        } else {
            let current = text.skip(offset as int);
            let all = self.segment_from(text, offset);
            lemma_boundary_in_suffix(text, offset as int, text.len() as int);
            match self.special_at(current) {
                Some(span) => {
                    let chunk = current.take(span.0 as int);
                    let found = valid_matches(chunk, regex_matches(self.span_re.pattern(), chunk), 0);
                    let words = normal_words(self.span_re.pattern(), chunk, offset);
                    let special = seq![SpanRef::Special(at_base(span.0, span.1, offset))];
                    let rest = self.segment_from(text, (offset + span.1) as usize);
                    lemma_boundary_in_suffix(text, offset as int, offset + span.0);
                    lemma_boundary_in_suffix(text, offset as int, offset + span.1);
                    lemma_valid_matches_bounds(
                        chunk,
                        regex_matches(self.span_re.pattern(), chunk),
                        0,
                    );
                    self.lemma_segment_on_boundaries(text, (offset + span.1) as usize);
                    assert forall|k: int| 0 <= k < all.len() implies on_boundaries(
                        text,
                        (#[trigger] all[k]).range_spec(),
                    ) by {
                        if k < words.len() {
                            assert(all[k] == words[k]);
                            let m = found[k];
                            assert(valid_span(chunk, 0, m));
                            lemma_boundary_in_chunk(
                                text,
                                offset as int,
                                span.0 as int,
                                m.0 as int,
                            );
                            lemma_boundary_in_chunk(
                                text,
                                offset as int,
                                span.0 as int,
                                m.1 as int,
                            );
                        } else if k == words.len() {
                            assert(all[k] == special[0]);
                        } else {
                            assert(all[k] == rest[k - words.len() - 1]);
                        }
                    }
                },
                None => {
                    if current.len() > 0 {
                        let found = valid_matches(
                            current,
                            regex_matches(self.span_re.pattern(), current),
                            0,
                        );
                        lemma_valid_matches_bounds(
                            current,
                            regex_matches(self.span_re.pattern(), current),
                            0,
                        );
                        assert forall|k: int| 0 <= k < all.len() implies on_boundaries(
                            text,
                            (#[trigger] all[k]).range_spec(),
                        ) by {
                            let m = found[k];
                            assert(valid_span(current, 0, m));
                            lemma_boundary_in_suffix(text, offset as int, offset + m.0);
                            lemma_boundary_in_suffix(text, offset as int, offset + m.1);
                        }
                    }
                },
            }
        }
    }

    /// The text of the spans of `text`, one after another: the text without
    /// the bytes that are in no normal word and no special word.
    pub fn rewrite(&self, text: &str) -> (r: String)
        ensures
            r@ == covered_chars(text.spec_bytes(), self.segment_spec(text.spec_bytes())),
    {
        broadcast use vstd::utf8::encode_utf8_valid_utf8;
        broadcast use vstd::utf8::is_char_boundary_start_end_of_seq;

        let ghost bytes = text.spec_bytes();
        let words = self.split_spans(text);
        proof {
            assert(valid_utf8(bytes));
            self.lemma_segment_on_boundaries(bytes, 0);
            assert(words@.take(0) =~= Seq::<SpanRef>::empty());
        }
        let mut r = String::new();
        let mut i: usize = 0;
        while i < words.len()
            invariant
                i <= words@.len(),
                bytes == text.spec_bytes(),
                forall|k: int|
                    0 <= k < words@.len() ==> on_boundaries(
                        bytes,
                        (#[trigger] words@[k]).range_spec(),
                    ),
                r@ == covered_chars(bytes, words@.take(i as int)),
            decreases words@.len() - i,
        {
            let range = words[i].range();
            proof {
                assert(words@.take(i + 1).drop_last() =~= words@.take(i as int));
            }
            r.append(substring(text, range.start, range.end));
            i += 1;
        }
        proof {
            assert(words@.take(i as int) =~= words@);
        }
        r
    }

    /// The patterns of `self` and `other` have the same texts.
    pub open spec fn same_patterns(&self, other: &TextSegmentor) -> bool {
        &&& self.span_re.pattern() == other.span_re.pattern()
        &&& self.special_re is Some <==> other.special_re is Some
        &&& self.special_re is Some ==> self.special_re.unwrap().pattern()
            == other.special_re.unwrap().pattern()
    }

    /// Segmentors over the same pattern texts split every text alike.
    pub proof fn lemma_same_patterns(&self, other: &TextSegmentor, text: Seq<u8>, offset: usize)
        requires
            self.same_patterns(other),
        ensures
            self.segment_from(text, offset) == other.segment_from(text, offset),
        decreases text.len() - offset,
    {
        if offset > text.len() || text.len() > usize::MAX {
        } else {
            let current = text.skip(offset as int);
            assert(self.special_at(current) == other.special_at(current));
            match self.special_at(current) {
                Some(span) => {
                    self.lemma_same_patterns(other, text, (offset + span.1) as usize);
                },
                None => {},
            }
        }
    }
}

impl Clone for TextSegmentor {
    fn clone(&self) -> (s: Self)
        ensures
            s.same_patterns(self),
    {
        let special_re = match &self.special_re {
            Some(re) => Some(re.clone()),
            None => None,
        };
        TextSegmentor { span_re: self.span_re.clone(), special_re }
    }
}

/// Valid matches lie in order within the text.
pub proof fn lemma_valid_matches_bounds(text: Seq<u8>, found: Seq<(usize, usize)>, from: usize)
    ensures
        forall|k: int|
            0 <= k < valid_matches(text, found, from).len() ==> valid_span(
                text,
                from,
                #[trigger] valid_matches(text, found, from)[k],
            ),
    decreases found.len(),
{
    if found.len() == 0 || !valid_span(text, from, found[0]) {
    } else {
        lemma_valid_matches_bounds(text, found.drop_first(), found[0].1);
        let rest = valid_matches(text, found.drop_first(), found[0].1);
        assert forall|k: int| 0 <= k < valid_matches(text, found, from).len() implies valid_span(
            text,
            from,
            #[trigger] valid_matches(text, found, from)[k],
        ) by {
            if k > 0 {
                assert(valid_matches(text, found, from)[k] == rest[k - 1]);
                assert(valid_span(text, found[0].1, rest[k - 1]));
            }
        }
    }
}

} // verus!
