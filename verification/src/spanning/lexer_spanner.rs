//! A text spanner over two lexers: one for words, one for special words.

use crate::compat::ranges::offset_range;
use crate::compat::strings::{
    lemma_boundary_in_chunk, lemma_boundary_in_suffix, on_boundaries, substring,
};
use crate::regex::regex_wrapper::byte_len;
use crate::spanning::span_lexer::{is_span_from, SpanLexer};
use crate::spanning::text_spanner::{
    accepted, halt_count, halted_at, halted_on, halted_reporting, lemma_halted_on,
    lemma_tiles_bounds, lemma_tiles_concat, lemma_tiles_cover, lemma_tiles_one, SpanRef,
    spans_bytes, tiles,
};
use core::ops::Range;
use vstd::prelude::*;
use vstd::string::StringExecFns;
use vstd::string::StringSliceAdditionalSpecFns;
use vstd::utf8::{decode_utf8, is_char_boundary, valid_utf8};

verus! {

/// The range `lo..hi` of a chunk that starts at byte `base` of the text.
pub open spec fn at_base(lo: usize, hi: usize, base: usize) -> Range<usize> {
    Range { start: (lo + base) as usize, end: (hi + base) as usize }
}

/// The span that `lexer` finds in `chunk` at or after `last`, where it is a
/// span of the chunk.
pub open spec fn lexed<L: SpanLexer>(lexer: L, chunk: Seq<u8>, last: usize) -> Option<
    (usize, usize),
> {
    match lexer.span_at(chunk, last) {
        Some(span) => if is_span_from(chunk, last, span) {
            Some(span)
        } else {
            None
        },
        None => None,
    }
}

/// The spans of the chunk `chunk` from byte `last` of it on, with `base`
/// added to every bound: the lexer's successive words, with a gap for each
/// run of bytes between them, before the first and after the last.
pub open spec fn word_spans<L: SpanLexer>(lexer: L, chunk: Seq<u8>, last: usize, base: usize) -> Seq<
    SpanRef,
>
    decreases chunk.len() - last,
{
    match lexed(lexer, chunk, last) {
        Some(span) => (if last < span.0 {
            seq![SpanRef::Gap(at_base(last, span.0, base))]
        } else {
            Seq::<SpanRef>::empty()
        }) + seq![SpanRef::Word(at_base(span.0, span.1, base))] + word_spans(
            lexer,
            chunk,
            span.1,
            base,
        ),
        None => if last < chunk.len() {
            seq![SpanRef::Gap(at_base(last, chunk.len() as usize, base))]
        } else {
            Seq::<SpanRef>::empty()
        },
    }
}

/// The spans of a chunk tile it from `last` to its end.
pub proof fn lemma_word_spans_tile<L: SpanLexer>(lexer: L, chunk: Seq<u8>, last: usize, base: usize)
    requires
        last <= chunk.len(),
        base + chunk.len() <= usize::MAX,
    ensures
        tiles(word_spans(lexer, chunk, last, base), base + last, base + chunk.len()),
    decreases chunk.len() - last,
{
    match lexed(lexer, chunk, last) {
        Some(span) => {
            lemma_word_spans_tile(lexer, chunk, span.1, base);
            let rest = word_spans(lexer, chunk, span.1, base);
            let word = seq![SpanRef::Word(at_base(span.0, span.1, base))];
            lemma_tiles_one(word[0], base + span.0, base + span.1);
            lemma_tiles_concat(word, rest, base + span.0, base + span.1, base + chunk.len());
            if last < span.0 {
                let gap = seq![SpanRef::Gap(at_base(last, span.0, base))];
                lemma_tiles_one(gap[0], base + last, base + span.0);
                lemma_tiles_concat(
                    gap,
                    word + rest,
                    base + last,
                    base + span.0,
                    base + chunk.len(),
                );
                assert(gap + word + rest =~= gap + (word + rest));
            } else {
                assert(Seq::<SpanRef>::empty() + word + rest =~= word + rest);
            }
        },
        None => {
            if last < chunk.len() {
                let gap = seq![SpanRef::Gap(at_base(last, chunk.len() as usize, base))];
                lemma_tiles_one(gap[0], base + last, base + chunk.len());
            } else {
                assert(tiles(Seq::<SpanRef>::empty(), base + last, base + chunk.len()));
            }
        },
    }
}

/// Where `s` from index `done` on starts with `head`, its entries from
/// `done` on are those of `head`.
proof fn lemma_skip_prefix(s: Seq<SpanRef>, done: int, head: Seq<SpanRef>, rest: Seq<SpanRef>)
    requires
        0 <= done <= s.len(),
        s.skip(done) == head + rest,
    ensures
        done + head.len() + rest.len() == s.len(),
        forall|i: int| 0 <= i < head.len() ==> s[done + i] == #[trigger] head[i],
        forall|i: int| 0 <= i < rest.len() ==> s[done + head.len() + i] == #[trigger] rest[i],
{
    assert(s.skip(done).len() == s.len() - done);
    assert((head + rest).len() == head.len() + rest.len());
    assert forall|i: int| 0 <= i < head.len() implies s[done + i] == #[trigger] head[i] by {
        assert(s.skip(done)[i] == head[i]);
    }
    assert forall|i: int| 0 <= i < rest.len() implies s[done + head.len() + i]
        == #[trigger] rest[i] by {
        assert(s.skip(done)[head.len() + i] == rest[i]);
    }
}

/// The words and gaps of a chunk of a text of valid UTF-8 lie within the
/// text and cut no character. The chunk is the `n` bytes from byte `base`
/// of the text on.
pub proof fn lemma_word_spans_on_boundaries<L: SpanLexer>(
    lexer: L,
    text: Seq<u8>,
    base: usize,
    n: usize,
    last: usize,
)
    requires
        valid_utf8(text),
        base + n <= text.len() <= usize::MAX,
        last <= n,
        is_char_boundary(text, base as int),
        is_char_boundary(text, base + n),
        is_char_boundary(text, base + last),
    ensures
        forall|k: int|
            0 <= k < word_spans(lexer, text.skip(base as int).take(n as int), last, base).len()
                ==> on_boundaries(
                text,
                (#[trigger] word_spans(
                    lexer,
                    text.skip(base as int).take(n as int),
                    last,
                    base,
                )[k]).range_spec(),
            ),
    decreases n - last,
{
    let chunk = text.skip(base as int).take(n as int);
    let all = word_spans(lexer, chunk, last, base);
    match lexed(lexer, chunk, last) {
        Some(span) => {
            lemma_boundary_in_chunk(text, base as int, n as int, span.0 as int);
            lemma_boundary_in_chunk(text, base as int, n as int, span.1 as int);
            lemma_word_spans_on_boundaries(lexer, text, base, n, span.1);
            let rest = word_spans(lexer, chunk, span.1, base);
            assert forall|k: int| 0 <= k < all.len() implies on_boundaries(
                text,
                (#[trigger] all[k]).range_spec(),
            ) by {
                if last < span.0 {
                    if k >= 2 {
                        assert(all[k] == rest[k - 2]);
                    }
                } else {
                    if k >= 1 {
                        assert(all[k] == rest[k - 1]);
                    }
                }
            }
        },
        None => {},
    }
}

/// The characters of the words and special spans of `spans`, in order.
pub open spec fn covered_chars(text: Seq<u8>, spans: Seq<SpanRef>) -> Seq<char>
    decreases spans.len(),
{
    if spans.len() == 0 {
        Seq::<char>::empty()
    } else {
        covered_chars(text, spans.drop_last()) + (match spans.last() {
            SpanRef::Gap(_) => Seq::<char>::empty(),
            _ => decode_utf8(
                text.subrange(
                    spans.last().range_spec().start as int,
                    spans.last().range_spec().end as int,
                ),
            ),
        })
    }
}

/// Lexers that find the same spans give the same words and gaps.
pub proof fn lemma_same_word_spans<L: SpanLexer>(
    a: L,
    b: L,
    chunk: Seq<u8>,
    last: usize,
    base: usize,
)
    requires
        forall|c: Seq<u8>, from: usize| #[trigger] a.span_at(c, from) == b.span_at(c, from),
    ensures
        word_spans(a, chunk, last, base) == word_spans(b, chunk, last, base),
    decreases chunk.len() - last,
{
    assert(a.span_at(chunk, last) == b.span_at(chunk, last));
    match lexed(a, chunk, last) {
        Some(span) => {
            lemma_same_word_spans(a, b, chunk, span.1, base);
        },
        None => {},
    }
}

/// A text spanner composed of a lexer for words and, optionally, a lexer
/// for special words.
pub struct LexerTextSpanner<W: SpanLexer, S: SpanLexer> {
    word_lexer: W,
    special_lexer: Option<S>,
}

impl<W: SpanLexer, S: SpanLexer> LexerTextSpanner<W, S> {
    /// The lexer for words.
    pub closed spec fn word_lexer(&self) -> W {
        self.word_lexer
    }

    /// The lexer for special words, if there is one.
    pub closed spec fn special_lexer(&self) -> Option<S> {
        self.special_lexer
    }

    /// The first special span of `chunk`, if there is one.
    pub open spec fn special_at(&self, chunk: Seq<u8>) -> Option<(usize, usize)> {
        match self.special_lexer() {
            None => None,
            Some(lexer) => lexed(lexer, chunk, 0),
        }
    }

    /// The spans of `text` from byte `offset` on: up to each special span
    /// the words and gaps before it, then the special span; after the last
    /// special span the words and gaps of the rest.
    pub open spec fn split_spans_from(&self, text: Seq<u8>, offset: usize) -> Seq<SpanRef>
        decreases text.len() - offset,
    {
        if offset > text.len() || text.len() > usize::MAX {
            Seq::<SpanRef>::empty()
        } else {
            let current = text.skip(offset as int);
            match self.special_at(current) {
                Some(span) => word_spans(self.word_lexer(), current.take(span.0 as int), 0, offset)
                    + seq![SpanRef::Special(at_base(span.0, span.1, offset))]
                    + self.split_spans_from(text, (offset + span.1) as usize),
                None => word_spans(self.word_lexer(), current, 0, offset),
            }
        }
    }

    /// The spans of the whole of `text`.
    pub open spec fn split_spans_spec(&self, text: Seq<u8>) -> Seq<SpanRef> {
        self.split_spans_from(text, 0)
    }

    /// Where the rest of `text` after its last special span starts, seen
    /// from byte `offset` on.
    pub open spec fn tail_start_from(&self, text: Seq<u8>, offset: usize) -> usize
        decreases text.len() - offset,
    {
        if offset > text.len() || text.len() > usize::MAX {
            offset
        } else {
            match self.special_at(text.skip(offset as int)) {
                Some(span) => self.tail_start_from(text, (offset + span.1) as usize),
                None => offset,
            }
        }
    }

    /// A spanner over `word_scanner` for words and `special_scanner` for
    /// special words.
    pub fn new(word_scanner: W, special_scanner: Option<S>) -> (s: Self)
        ensures
            s.word_lexer() == word_scanner,
            s.special_lexer() == special_scanner,
    {
        LexerTextSpanner { word_lexer: word_scanner, special_lexer: special_scanner }
    }

    /// Visits the words and gaps of the chunk `text`, whose first byte is
    /// byte `offset` of the whole text, in order, until the visitor says
    /// `false`.
    ///
    /// Returns whether every span was visited, and how many bytes of the
    /// chunk lie before the span that the visit halted at, or the chunk's
    /// length where it did not halt.
    pub fn for_each_word<F: FnMut(SpanRef) -> bool>(
        &self,
        text: &str,
        offset: usize,
        f: &mut F,
    ) -> (r: (bool, usize))
        requires
            offset + text.spec_bytes().len() <= usize::MAX,
            forall|span: SpanRef| call_requires(*old(f), (span,)),
        ensures
            *final(f) == *old(f),
            r.0 ==> r.1 == text.spec_bytes().len() && accepted(
                *old(f),
                word_spans(self.word_lexer(), text.spec_bytes(), 0, offset),
                word_spans(self.word_lexer(), text.spec_bytes(), 0, offset).len() as int,
            ),
            !r.0 ==> halted_on(
                *old(f),
                word_spans(self.word_lexer(), text.spec_bytes(), 0, offset),
                r.1 + offset,
            ),
    {
        let ghost bytes = text.spec_bytes();
        let ghost spans = word_spans(self.word_lexer, bytes, 0, offset);
        let ghost visitor = *f;
        let len = byte_len(text);
        let mut last: usize = 0;
        let ghost mut done: int = 0;
        loop
            invariant
                bytes == text.spec_bytes(),
                len == bytes.len(),
                offset + len <= usize::MAX,
                last <= len,
                visitor == *old(f),
                *f == visitor,
                forall|span: SpanRef| call_requires(visitor, (span,)),
                spans == word_spans(self.word_lexer, bytes, 0, offset),
                0 <= done <= spans.len(),
                accepted(visitor, spans, done),
                spans.skip(done) == word_spans(self.word_lexer, bytes, last, offset),
            ensures
                last <= len,
                lexed(self.word_lexer, bytes, last) is None,
                spans.skip(done) == word_spans(self.word_lexer, bytes, last, offset),
                accepted(visitor, spans, done),
                0 <= done <= spans.len(),
                *f == visitor,
            decreases len - last,
        {
            let (start, end) = match self.word_lexer.next_span(text, last) {
                Some(span) => span,
                None => {
                    break ;
                },
            };
            let ghost here = spans.skip(done);
            let ghost tail = word_spans(self.word_lexer, bytes, end, offset);
            let ghost the_gap = SpanRef::Gap(at_base(last, start, offset));
            let ghost the_word = SpanRef::Word(at_base(start, end, offset));
            proof {
                if last < start {
                    assert(here =~= seq![the_gap] + seq![the_word] + tail);
                    assert(here[0] == the_gap && here[1] == the_word);
                    assert(here.skip(2) =~= tail);
                    assert(spans.skip(done + 2) =~= here.skip(2));
                } else {
                    assert(here =~= Seq::<SpanRef>::empty() + seq![the_word] + tail);
                    assert(here[0] == the_word);
                    assert(here.skip(1) =~= tail);
                    assert(spans.skip(done + 1) =~= here.skip(1));
                }
            }
            if last < start {
                let gap = SpanRef::Gap(offset_range(Range { start: last, end: start }, offset));
                proof {
                    assert(spans[done] == here[0]);
                }
                if !f(gap) {
                    // Leading gap exit.
                    proof {
                        lemma_halted_on(visitor, spans, done);
                    }
                    return (false, last);
                }
                proof {
                    assert(spans[done + 1] == here[1]);
                    done = done + 1;
                }
                last = start;
            } else {
                proof {
                    assert(spans[done] == here[0]);
                }
            }
            let word = SpanRef::Word(offset_range(Range { start, end }, offset));
            if !f(word) {
                // Word exit.
                proof {
                    assert(spans[done] == the_word);
                    lemma_halted_on(visitor, spans, done);
                }
                return (false, last);
            }
            proof {
                done = done + 1;
            }
            last = end;
        }

        if last < len {
            let gap = SpanRef::Gap(offset_range(Range { start: last, end: len }, offset));
            proof {
                assert(spans.skip(done) =~= seq![gap]);
                assert(spans.skip(done).len() == 1);
                assert(spans[done] == spans.skip(done)[0]);
            }
            if !f(gap) {
                // Trailing gap exit.
                proof {
                    lemma_halted_on(visitor, spans, done);
                }
                return (false, last);
            }
            proof {
                done = done + 1;
            }
            last = len;
        } else {
            proof {
                assert(spans.skip(done).len() == 0);
            }
        }
        proof {
            assert(done == spans.len());
        }
        (true, last)
    }

    /// The first special span of `text`, if the spanner has a lexer for
    /// special words and it finds one.
    pub fn next_special_span(&self, text: &str) -> (r: Option<(usize, usize)>)
        ensures
            r == self.special_at(text.spec_bytes()),
            r matches Some(span) ==> is_span_from(text.spec_bytes(), 0, span),
    {
        match &self.special_lexer {
            None => None,
            Some(scanner) => scanner.next_span(text, 0),
        }
    }

    /// Visits the spans of `text` in order until the visitor says `false`.
    ///
    /// Returns whether every span was visited, and a count of bytes. Where
    /// the visit halts before or at a special span, the count is the start
    /// of the span that it halted at. In the rest of the text after the last
    /// special span the count is taken from where that rest starts: the start
    /// of the span that the visit halted at, or the length of the rest where
    /// every span was visited.
    pub fn for_each_split_span<F: FnMut(SpanRef) -> bool>(&self, text: &str, f: &mut F) -> (r: (
        bool,
        usize,
    ))
        requires
            forall|span: SpanRef| call_requires(*old(f), (span,)),
        ensures
            *final(f) == *old(f),
            r.0 ==> r.1 + self.tail_start_from(text.spec_bytes(), 0) == text.spec_bytes().len()
                && accepted(
                *old(f),
                self.split_spans_spec(text.spec_bytes()),
                self.split_spans_spec(text.spec_bytes()).len() as int,
            ),
            !r.0 ==> halted_reporting(
                *old(f),
                self.split_spans_spec(text.spec_bytes()),
                self.tail_start_from(text.spec_bytes(), 0) as int,
                r.1 as int,
            ),
    {
        let ghost bytes = text.spec_bytes();
        let ghost spans = self.split_spans_from(bytes, 0);
        let ghost tail = self.tail_start_from(bytes, 0);
        let ghost visitor = *f;
        let len = byte_len(text);
        let mut current: &str = text;
        let mut offset: usize = 0;
        let ghost mut done: int = 0;
        proof {
            assert(bytes.skip(0) =~= bytes);
            assert(spans.skip(0) =~= spans);
        }
        loop
            invariant
                bytes == text.spec_bytes(),
                len == bytes.len(),
                offset <= len,
                current.spec_bytes() == bytes.skip(offset as int),
                visitor == *old(f),
                *f == visitor,
                forall|span: SpanRef| call_requires(visitor, (span,)),
                spans == self.split_spans_from(bytes, 0),
                tail == self.tail_start_from(bytes, 0),
                tail == self.tail_start_from(bytes, offset),
                0 <= done <= spans.len(),
                accepted(visitor, spans, done),
                spans.skip(done) == self.split_spans_from(bytes, offset),
            ensures
                self.special_at(current.spec_bytes()) is None,
            decreases len - offset,
        {
            let (start, end) = match self.next_special_span(current) {
                Some(span) => span,
                None => {
                    break ;
                },
            };
            let ghost chunk = current.spec_bytes();
            let (pre, _) = current.split_at(start);
            let ghost words = word_spans(self.word_lexer, chunk.take(start as int), 0, offset);
            let ghost special = SpanRef::Special(at_base(start, end, offset));
            let ghost rest = self.split_spans_from(bytes, (offset + end) as usize);
            proof {
                assert(pre.spec_bytes() =~= chunk.take(start as int));
                assert(offset + end <= len);
                assert(spans.skip(done) == words + seq![special] + rest);
                assert(words + seq![special] + rest =~= words + (seq![special] + rest));
                lemma_skip_prefix(spans, done, words, seq![special] + rest);
                assert((seq![special] + rest)[0] == special);
                assert(spans[done + words.len()] == special);
                self.lemma_tail_start_at_least(bytes, (offset + end) as usize);
                lemma_word_spans_tile(
                    self.word_lexer,
                    chunk.take(start as int),
                    0,
                    offset,
                );
                lemma_tiles_bounds(words, offset as int, offset + start);
            }

            let (cont, used) = self.for_each_word(pre, offset, f);
            if !cont {
                proof {
                    let k = choose|k: int| #[trigger]
                        halted_at(visitor, words, k) && words[k].range_spec().start == used
                            + offset;
                    assert forall|i: int| 0 <= i < done + k implies call_ensures(
                        visitor,
                        (#[trigger] spans[i],),
                        true,
                    ) by {
                        if i >= done {
                            assert(spans[i] == words[i - done]);
                        }
                    }
                    assert(spans[done + k] == words[k]);
                    assert(halted_at(visitor, spans, done + k));
                    assert(halt_count(spans[done + k].range_spec().start as int, tail as int)
                        == offset + used);
                }
                return (false, offset + used);
            }
            proof {
                assert forall|i: int| 0 <= i < done + words.len() implies call_ensures(
                    visitor,
                    (#[trigger] spans[i],),
                    true,
                ) by {
                    if i >= done {
                        assert(spans[i] == words[i - done]);
                    }
                }
                done = done + words.len();
                assert(spans[done] == special);
                assert(spans.skip(done + 1) =~= rest) by {
                    assert forall|i: int| 0 <= i < rest.len() implies spans.skip(done + 1)[i]
                        == rest[i] by {
                        assert((seq![special] + rest)[1 + i] == rest[i]);
                    }
                }
            }

            // `offset + start` bytes are consumed at this point.
            if !f(SpanRef::Special(offset_range(Range { start, end }, offset))) {
                // Special exit.
                proof {
                    assert(halted_at(visitor, spans, done));
                    assert(halt_count(spans[done].range_spec().start as int, tail as int)
                        == offset + start);
                }
                return (false, offset + start);
            }
            proof {
                done = done + 1;
            }

            // `offset + end` bytes are consumed at this point.
            let (_, after) = current.split_at(end);
            proof {
                assert(after.spec_bytes() =~= bytes.skip(offset + end));
            }
            current = after;
            offset += end;
        }

        let ghost words = word_spans(self.word_lexer, current.spec_bytes(), 0, offset);
        proof {
            assert(spans.skip(done) == words);
            lemma_word_spans_tile(self.word_lexer, current.spec_bytes(), 0, offset);
            lemma_tiles_bounds(words, offset as int, len as int);
        }
        let (cont, used) = self.for_each_word(current, offset, f);
        proof {
            if cont {
                assert forall|i: int| 0 <= i < spans.len() implies call_ensures(
                    visitor,
                    (#[trigger] spans[i],),
                    true,
                ) by {
                    if i >= done {
                        assert(spans[i] == spans.skip(done)[i - done]);
                    }
                }
            } else {
                let k = choose|k: int| #[trigger]
                    halted_at(visitor, words, k) && words[k].range_spec().start == used + offset;
                assert forall|i: int| 0 <= i < done + k implies call_ensures(
                    visitor,
                    (#[trigger] spans[i],),
                    true,
                ) by {
                    if i >= done {
                        assert(spans[i] == spans.skip(done)[i - done]);
                    }
                }
                assert(spans[done + k] == spans.skip(done)[k]);
                assert(halted_at(visitor, spans, done + k));
                assert(halt_count(spans[done + k].range_spec().start as int, tail as int)
                    == used);
            }
        }
        (cont, used)
    }

    /// The rest after the last special span starts no earlier than where the
    /// search for it starts.
    pub proof fn lemma_tail_start_at_least(&self, text: Seq<u8>, offset: usize)
        ensures
            self.tail_start_from(text, offset) >= offset,
            offset <= text.len() <= usize::MAX ==> self.tail_start_from(text, offset) <= text.len(),
        decreases text.len() - offset,
    {
        if offset > text.len() || text.len() > usize::MAX {
        } else {
            match self.special_at(text.skip(offset as int)) {
                Some(span) => {
                    self.lemma_tail_start_at_least(text, (offset + span.1) as usize);
                },
                None => {},
            }
        }
    }

    /// The spans of a text tile it: they run left to right without gap or
    /// overlap, none is empty, the first starts at byte 0 and the last ends
    /// at the text's end.
    pub proof fn lemma_split_spans_tile(&self, text: Seq<u8>)
        requires
            text.len() <= usize::MAX,
        ensures
            tiles(self.split_spans_spec(text), 0, text.len() as int),
    {
        self.lemma_split_spans_tile_from(text, 0);
    }

    /// The bytes under the spans of a text, one after another, are the
    /// text.
    pub proof fn lemma_split_spans_cover(&self, text: Seq<u8>)
        requires
            text.len() <= usize::MAX,
        ensures
            spans_bytes(text, self.split_spans_spec(text)) == text,
    {
        self.lemma_split_spans_tile(text);
        lemma_tiles_cover(text, self.split_spans_spec(text), 0, text.len() as int);
        assert(text.subrange(0, text.len() as int) =~= text);
    }

    /// The spans of a text from `offset` on tile the text from there to its
    /// end.
    pub proof fn lemma_split_spans_tile_from(&self, text: Seq<u8>, offset: usize)
        requires
            offset <= text.len() <= usize::MAX,
        ensures
            tiles(self.split_spans_from(text, offset), offset as int, text.len() as int),
        decreases text.len() - offset,
    {
        let current = text.skip(offset as int);
        match self.special_at(current) {
            Some(span) => {
                let words = word_spans(self.word_lexer(), current.take(span.0 as int), 0, offset);
                let special = seq![SpanRef::Special(at_base(span.0, span.1, offset))];
                let rest = self.split_spans_from(text, (offset + span.1) as usize);
                lemma_word_spans_tile(self.word_lexer(), current.take(span.0 as int), 0, offset);
                lemma_tiles_one(special[0], offset + span.0, offset + span.1);
                self.lemma_split_spans_tile_from(text, (offset + span.1) as usize);
                lemma_tiles_concat(
                    words,
                    special,
                    offset as int,
                    offset + span.0,
                    offset + span.1,
                );
                lemma_tiles_concat(
                    words + special,
                    rest,
                    offset as int,
                    offset + span.1,
                    text.len() as int,
                );
            },
            None => {
                lemma_word_spans_tile(self.word_lexer(), current, 0, offset);
            },
        }
    }

    /// Appends the words and gaps of the chunk `text`, whose first byte is
    /// byte `offset` of the whole text, to `spans`.
    pub fn append_word_spans(&self, text: &str, offset: usize, spans: &mut Vec<SpanRef>)
        requires
            offset + text.spec_bytes().len() <= usize::MAX,
        ensures
            final(spans)@ == old(spans)@ + word_spans(
                self.word_lexer(),
                text.spec_bytes(),
                0,
                offset,
            ),
    {
        let ghost bytes = text.spec_bytes();
        let ghost all = word_spans(self.word_lexer, bytes, 0, offset);
        let len = byte_len(text);
        let mut last: usize = 0;
        loop
            invariant
                bytes == text.spec_bytes(),
                len == bytes.len(),
                offset + len <= usize::MAX,
                last <= len,
                all == word_spans(self.word_lexer, bytes, 0, offset),
                spans@ + word_spans(self.word_lexer, bytes, last, offset) == old(spans)@ + all,
            ensures
                last <= len,
                lexed(self.word_lexer, bytes, last) is None,
            decreases len - last,
        {
            let (start, end) = match self.word_lexer.next_span(text, last) {
                Some(span) => span,
                None => {
                    break ;
                },
            };
            let ghost before = spans@;
            let ghost tail = word_spans(self.word_lexer, bytes, end, offset);
            if last < start {
                spans.push(SpanRef::Gap(offset_range(Range { start: last, end: start }, offset)));
            }
            spans.push(SpanRef::Word(offset_range(Range { start, end }, offset)));
            proof {
                assert(spans@ + tail =~= before + word_spans(self.word_lexer, bytes, last, offset));
            }
            last = end;
        }
        if last < len {
            let ghost before = spans@;
            spans.push(SpanRef::Gap(offset_range(Range { start: last, end: len }, offset)));
            proof {
                assert(spans@ =~= before + word_spans(self.word_lexer, bytes, last, offset));
            }
        } else {
            proof {
                assert(spans@ =~= spans@ + word_spans(self.word_lexer, bytes, last, offset));
            }
        }
    }

    /// Appends the spans of `text` to `spans`.
    pub fn split_append_spans(&self, text: &str, spans: &mut Vec<SpanRef>)
        ensures
            final(spans)@ == old(spans)@ + self.split_spans_spec(text.spec_bytes()),
    {
        let ghost bytes = text.spec_bytes();
        let ghost all = self.split_spans_from(bytes, 0);
        let len = byte_len(text);
        let mut current: &str = text;
        let mut offset: usize = 0;
        proof {
            assert(bytes.skip(0) =~= bytes);
        }
        loop
            invariant
                bytes == text.spec_bytes(),
                len == bytes.len(),
                offset <= len,
                current.spec_bytes() == bytes.skip(offset as int),
                all == self.split_spans_from(bytes, 0),
                spans@ + self.split_spans_from(bytes, offset) == old(spans)@ + all,
            ensures
                self.special_at(current.spec_bytes()) is None,
            decreases len - offset,
        {
            let (start, end) = match self.next_special_span(current) {
                Some(span) => span,
                None => {
                    break ;
                },
            };
            let ghost chunk = current.spec_bytes();
            let ghost before = spans@;
            let ghost rest = self.split_spans_from(bytes, (offset + end) as usize);
            let (pre, _) = current.split_at(start);
            proof {
                assert(pre.spec_bytes() =~= chunk.take(start as int));
                assert(offset + end <= len);
            }
            self.append_word_spans(pre, offset, spans);
            spans.push(SpanRef::Special(offset_range(Range { start, end }, offset)));
            proof {
                assert(spans@ + rest =~= before + self.split_spans_from(bytes, offset));
            }
            let (_, after) = current.split_at(end);
            proof {
                assert(after.spec_bytes() =~= bytes.skip(offset + end));
            }
            current = after;
            offset += end;
        }
        self.append_word_spans(current, offset, spans);
    }

    /// The spans of `text`.
    pub fn split_spans(&self, text: &str) -> (spans: Vec<SpanRef>)
        ensures
            spans@ == self.split_spans_spec(text.spec_bytes()),
    {
        let mut spans: Vec<SpanRef> = Vec::new();
        self.split_append_spans(text, &mut spans);
        proof {
            assert(Seq::<SpanRef>::empty() + self.split_spans_spec(text.spec_bytes())
                =~= self.split_spans_spec(text.spec_bytes()));
        }
        spans
    }

    /// The lexers of `self` and `other` find the same spans in every chunk.
    pub open spec fn same_lexers(&self, other: &Self) -> bool {
        &&& forall|chunk: Seq<u8>, last: usize| #[trigger]
            self.word_lexer().span_at(chunk, last) == other.word_lexer().span_at(chunk, last)
        &&& self.special_lexer() is Some <==> other.special_lexer() is Some
        &&& self.special_lexer() is Some ==> forall|chunk: Seq<u8>, last: usize| #[trigger]
            self.special_lexer().unwrap().span_at(chunk, last)
                == other.special_lexer().unwrap().span_at(chunk, last)
    }

    /// Spanners whose lexers find the same spans split every text alike.
    pub proof fn lemma_same_lexers(&self, other: &Self, text: Seq<u8>, offset: usize)
        requires
            self.same_lexers(other),
        ensures
            self.split_spans_from(text, offset) == other.split_spans_from(text, offset),
        decreases text.len() - offset,
    {
        if offset > text.len() || text.len() > usize::MAX {
        } else {
            let current = text.skip(offset as int);
            assert(self.special_at(current) == other.special_at(current)) by {
                if self.special_lexer() is Some {
                    assert(self.special_lexer().unwrap().span_at(current, 0)
                        == other.special_lexer().unwrap().span_at(current, 0));
                }
            }
            match self.special_at(current) {
                Some(span) => {
                    lemma_same_word_spans(
                        self.word_lexer(),
                        other.word_lexer(),
                        current.take(span.0 as int),
                        0,
                        offset,
                    );
                    self.lemma_same_lexers(other, text, (offset + span.1) as usize);
                },
                None => {
                    lemma_same_word_spans(
                        self.word_lexer(),
                        other.word_lexer(),
                        current,
                        0,
                        offset,
                    );
                },
            }
        }
    }

    /// Every span of a text of valid UTF-8, from a character boundary
    /// `offset` on, lies within the text and cuts no character.
    pub proof fn lemma_split_on_boundaries(&self, text: Seq<u8>, offset: usize)
        requires
            valid_utf8(text),
            offset <= text.len() <= usize::MAX,
            is_char_boundary(text, offset as int),
        ensures
            forall|k: int|
                0 <= k < self.split_spans_from(text, offset).len() ==> on_boundaries(
                    text,
                    (#[trigger] self.split_spans_from(text, offset)[k]).range_spec(),
                ),
        decreases text.len() - offset,
    {
        broadcast use vstd::utf8::is_char_boundary_start_end_of_seq;

        let current = text.skip(offset as int);
        let all = self.split_spans_from(text, offset);
        lemma_boundary_in_suffix(text, offset as int, text.len() as int);
        match self.special_at(current) {
            Some(span) => {
                let words = word_spans(self.word_lexer(), current.take(span.0 as int), 0, offset);
                let special = seq![SpanRef::Special(at_base(span.0, span.1, offset))];
                let rest = self.split_spans_from(text, (offset + span.1) as usize);
                lemma_boundary_in_suffix(text, offset as int, offset + span.0);
                lemma_boundary_in_suffix(text, offset as int, offset + span.1);
                lemma_word_spans_on_boundaries(self.word_lexer(), text, offset, span.0, 0);
                self.lemma_split_on_boundaries(text, (offset + span.1) as usize);
                assert forall|k: int| 0 <= k < all.len() implies on_boundaries(
                    text,
                    (#[trigger] all[k]).range_spec(),
                ) by {
                    if k < words.len() {
                        assert(all[k] == words[k]);
                    } else if k == words.len() {
                        assert(all[k] == special[0]);
                    } else {
                        assert(all[k] == rest[k - words.len() - 1]);
                    }
                }
            },
            None => {
                assert(current.take(current.len() as int) =~= current);
                lemma_word_spans_on_boundaries(
                    self.word_lexer(),
                    text,
                    offset,
                    (text.len() - offset) as usize,
                    0,
                );
            },
        }
    }

    /// The text of the words and special spans of `text`, one after
    /// another: the text without its gaps.
    pub fn remove_gaps(&self, text: &str) -> (r: String)
        ensures
            r@ == covered_chars(text.spec_bytes(), self.split_spans_spec(text.spec_bytes())),
    {
        broadcast use vstd::utf8::encode_utf8_valid_utf8;
        broadcast use vstd::utf8::is_char_boundary_start_end_of_seq;

        let ghost bytes = text.spec_bytes();
        let len = byte_len(text);
        let spans = self.split_spans(text);
        proof {
            assert(valid_utf8(bytes));
            self.lemma_split_on_boundaries(bytes, 0);
            assert(spans@.take(0) =~= Seq::<SpanRef>::empty());
        }
        let mut r = String::new();
        let mut i: usize = 0;
        while i < spans.len()
            invariant
                i <= spans@.len(),
                bytes == text.spec_bytes(),
                forall|k: int|
                    0 <= k < spans@.len() ==> on_boundaries(
                        bytes,
                        (#[trigger] spans@[k]).range_spec(),
                    ),
                r@ == covered_chars(bytes, spans@.take(i as int)),
            decreases spans@.len() - i,
        {
            proof {
                assert(spans@.take(i + 1).drop_last() =~= spans@.take(i as int));
            }
            match &spans[i] {
                SpanRef::Gap(_) => {
                    proof {
                        assert(r@ + Seq::<char>::empty() =~= r@);
                    }
                },
                SpanRef::Word(range) => {
                    r.append(substring(text, range.start, range.end));
                },
                SpanRef::Special(range) => {
                    r.append(substring(text, range.start, range.end));
                },
            }
            i += 1;
        }
        proof {
            assert(spans@.take(i as int) =~= spans@);
        }
        r
    }

    /// Each of `texts` without its gaps, in the order of `texts`.
    pub fn batch_remove_gaps(&self, texts: &[&str]) -> (r: Vec<String>)
        ensures
            r@.len() == texts@.len(),
            forall|i: int|
                0 <= i < texts@.len() ==> (#[trigger] r@[i])@ == covered_chars(
                    texts@[i].spec_bytes(),
                    self.split_spans_spec(texts@[i].spec_bytes()),
                ),
    {
        let mut r: Vec<String> = Vec::with_capacity(texts.len());
        let mut i: usize = 0;
        while i < texts.len()
            invariant
                i <= texts@.len(),
                r@.len() == i,
                forall|k: int|
                    0 <= k < i ==> (#[trigger] r@[k])@ == covered_chars(
                        texts@[k].spec_bytes(),
                        self.split_spans_spec(texts@[k].spec_bytes()),
                    ),
            decreases texts@.len() - i,
        {
            r.push(self.remove_gaps(texts[i]));
            i += 1;
        }
        r
    }
}

impl LexerTextSpanner<crate::regex::regex_wrapper::RegexWrapper, crate::regex::regex_wrapper::RegexWrapper> {
    /// A spanner over clones of this spanner's compiled patterns.
    pub fn clone_patterns(&self) -> (s: Self)
        ensures
            s.same_lexers(self),
    {
        let special_lexer = match &self.special_lexer {
            Some(lexer) => Some(lexer.clone()),
            None => None,
        };
        LexerTextSpanner { word_lexer: self.word_lexer.clone(), special_lexer }
    }
}

} // verus!
