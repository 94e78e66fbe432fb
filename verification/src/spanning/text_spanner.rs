//! The spans of a text, and what a visit of them comes to.

use core::ops::Range;
use vstd::prelude::*;

verus! {

/// A labelled byte range of a text.
#[derive(Debug, PartialEq, Eq, Hash)]
pub enum SpanRef {
    /// A word: a match of the word pattern.
    Word(Range<usize>),
    /// Bytes between words that the word pattern did not match.
    Gap(Range<usize>),
    /// A special word.
    Special(Range<usize>),
}

impl SpanRef {
    /// The span's byte range.
    pub open spec fn range_spec(self) -> Range<usize> {
        match self {
            SpanRef::Word(r) => r,
            SpanRef::Gap(r) => r,
            SpanRef::Special(r) => r,
        }
    }

    /// The span's byte range.
    pub fn range(&self) -> (r: Range<usize>)
        ensures
            r == self.range_spec(),
    {
        match self {
            SpanRef::Word(r) => Range { start: r.start, end: r.end },
            SpanRef::Gap(r) => Range { start: r.start, end: r.end },
            SpanRef::Special(r) => Range { start: r.start, end: r.end },
        }
    }
}

impl Clone for SpanRef {
    fn clone(&self) -> (r: Self)
        ensures
            r == *self,
    {
        match self {
            SpanRef::Word(r) => SpanRef::Word(Range { start: r.start, end: r.end }),
            SpanRef::Gap(r) => SpanRef::Gap(Range { start: r.start, end: r.end }),
            SpanRef::Special(r) => SpanRef::Special(Range { start: r.start, end: r.end }),
        }
    }
}

/// The visitor `f` has said `true` to each of the first `upto` of `spans`.
pub open spec fn accepted<F: FnMut(SpanRef) -> bool>(f: F, spans: Seq<SpanRef>, upto: int) -> bool {
    forall|i: int| 0 <= i < upto ==> call_ensures(f, (#[trigger] spans[i],), true)
}

/// The visitor `f` has said `true` to the spans before index `k` and
/// `false` to the span at `k`.
pub open spec fn halted_at<F: FnMut(SpanRef) -> bool>(f: F, spans: Seq<SpanRef>, k: int) -> bool {
    &&& 0 <= k < spans.len()
    &&& accepted(f, spans, k)
    &&& call_ensures(f, (spans[k],), false)
}

/// The visit that halted at index `k` halted on the start of that span.
pub proof fn lemma_halted_on<F: FnMut(SpanRef) -> bool>(f: F, spans: Seq<SpanRef>, k: int)
    requires
        halted_at(f, spans, k),
    ensures
        halted_on(f, spans, spans[k].range_spec().start as int),
{
}

/// The visitor `f` has halted the visit of `spans` at a span that starts at
/// byte `at`, after saying `true` to all the spans before it.
pub open spec fn halted_on<F: FnMut(SpanRef) -> bool>(f: F, spans: Seq<SpanRef>, at: int) -> bool {
    exists|k: int| #[trigger] halted_at(f, spans, k) && spans[k].range_spec().start == at
}

/// The count of bytes that a visit reports when it halts at a span that
/// starts at byte `at`: taken from `tail`, where the rest of the text after
/// its last special span starts, for a span of that rest; else from the
/// start of the text.
pub open spec fn halt_count(at: int, tail: int) -> int {
    if at >= tail {
        at - tail
    } else {
        at
    }
}

/// The visitor `f` has halted the visit of `spans` at some span, after
/// saying `true` to all the spans before it, and `count` is the count of
/// bytes that goes with that span.
pub open spec fn halted_reporting<F: FnMut(SpanRef) -> bool>(
    f: F,
    spans: Seq<SpanRef>,
    tail: int,
    count: int,
) -> bool {
    exists|k: int| #[trigger]
        halted_at(f, spans, k) && halt_count(spans[k].range_spec().start as int, tail)
            == count
}

/// Every span of `spans` lies within `lo..hi`, is not empty, and starts
/// where the one before it ends; the first starts at `lo`, and the last
/// ends at `hi`.
pub open spec fn tiles(spans: Seq<SpanRef>, lo: int, hi: int) -> bool
    decreases spans.len(),
{
    if spans.len() == 0 {
        lo == hi
    } else {
        &&& spans[0].range_spec().start == lo
        &&& lo < spans[0].range_spec().end <= hi
        &&& tiles(spans.drop_first(), spans[0].range_spec().end as int, hi)
    }
}

/// A single span tiles its own range.
pub proof fn lemma_tiles_one(span: SpanRef, lo: int, hi: int)
    requires
        span.range_spec().start == lo,
        span.range_spec().end == hi,
        lo < hi,
    ensures
        tiles(seq![span], lo, hi),
{
    assert(seq![span].drop_first() =~= Seq::<SpanRef>::empty());
    assert(tiles(Seq::<SpanRef>::empty(), hi, hi));
}

/// Tilings that meet end to start make one tiling.
pub proof fn lemma_tiles_concat(a: Seq<SpanRef>, b: Seq<SpanRef>, lo: int, mid: int, hi: int)
    requires
        tiles(a, lo, mid),
        tiles(b, mid, hi),
    ensures
        tiles(a + b, lo, hi),
    decreases a.len(),
{
    if a.len() == 0 {
        assert(a + b =~= b);
    } else {
        lemma_tiles_concat(a.drop_first(), b, a[0].range_spec().end as int, mid, hi);
        assert((a + b).drop_first() =~= a.drop_first() + b);
        lemma_tiles_bounds(b, mid, hi);
        lemma_tiles_bounds(a.drop_first(), a[0].range_spec().end as int, mid);
    }
}

/// A tiling runs left to right.
pub proof fn lemma_tiles_bounds(spans: Seq<SpanRef>, lo: int, hi: int)
    requires
        tiles(spans, lo, hi),
    ensures
        lo <= hi,
        forall|i: int|
            0 <= i < spans.len() ==> lo <= (#[trigger] spans[i]).range_spec().start
                < spans[i].range_spec().end <= hi,
    decreases spans.len(),
{
    if spans.len() > 0 {
        let rest = spans.drop_first();
        lemma_tiles_bounds(rest, spans[0].range_spec().end as int, hi);
        assert forall|i: int| 0 <= i < spans.len() implies lo <= (
        #[trigger] spans[i]).range_spec().start < spans[i].range_spec().end <= hi by {
            if i > 0 {
                assert(spans[i] == rest[i - 1]);
            }
        }
    }
}

/// The bytes of `text` under each of `spans`, one after another.
pub open spec fn spans_bytes(text: Seq<u8>, spans: Seq<SpanRef>) -> Seq<u8>
    decreases spans.len(),
{
    if spans.len() == 0 {
        Seq::<u8>::empty()
    } else {
        text.subrange(spans[0].range_spec().start as int, spans[0].range_spec().end as int)
            + spans_bytes(text, spans.drop_first())
    }
}

/// The bytes under the spans of a tiling, one after another, are the bytes
/// of the text that the tiling covers.
pub proof fn lemma_tiles_cover(text: Seq<u8>, spans: Seq<SpanRef>, lo: int, hi: int)
    requires
        tiles(spans, lo, hi),
        0 <= lo,
        hi <= text.len(),
    ensures
        spans_bytes(text, spans) == text.subrange(lo, hi),
    decreases spans.len(),
{
    if spans.len() == 0 {
        assert(text.subrange(lo, hi) =~= Seq::<u8>::empty());
    } else {
        let mid = spans[0].range_spec().end as int;
        lemma_tiles_bounds(spans.drop_first(), mid, hi);
        lemma_tiles_cover(text, spans.drop_first(), mid, hi);
        assert(text.subrange(lo, mid) + text.subrange(mid, hi) =~= text.subrange(lo, hi));
    }
}

} // verus!
