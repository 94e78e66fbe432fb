//! Helpers on string slices and their bytes.

use core::ops::Range;
use vstd::prelude::*;
use vstd::string::StringSliceAdditionalSpecFns;
use vstd::utf8::{decode_utf8, encode_utf8, is_char_boundary, is_continuation_byte, valid_utf8};

verus! {

/// `range` is a byte range of `text` that cuts no character.
pub open spec fn on_boundaries(text: Seq<u8>, range: Range<usize>) -> bool {
    &&& range.start <= range.end <= text.len()
    &&& is_char_boundary(text, range.start as int)
    &&& is_char_boundary(text, range.end as int)
}

/// A position of a text from a character boundary `a` on is a character
/// boundary of that rest exactly if it is one of the text.
pub proof fn lemma_boundary_in_suffix(bytes: Seq<u8>, a: int, i: int)
    requires
        valid_utf8(bytes),
        is_char_boundary(bytes, a),
        0 <= a <= i <= bytes.len(),
    ensures
        valid_utf8(bytes.skip(a)),
        is_char_boundary(bytes.skip(a), i - a) <==> is_char_boundary(bytes, i),
{
    broadcast use vstd::utf8::valid_utf8_split;
    broadcast use vstd::utf8::is_char_boundary_start_end_of_seq;
    broadcast use vstd::utf8::is_char_boundary_iff_not_is_continuation_byte;

    let rest = bytes.skip(a);
    assert(rest =~= bytes.subrange(a, bytes.len() as int));
    assert(valid_utf8(rest));
    if i == bytes.len() {
        assert(is_char_boundary(rest, rest.len() as int));
        assert(is_char_boundary(bytes, bytes.len() as int));
    } else if i == a {
        assert(is_char_boundary(rest, 0));
    } else {
        assert(rest[i - a] == bytes[i]);
        assert(is_char_boundary(rest, i - a) <==> !is_continuation_byte(rest[i - a]));
        assert(is_char_boundary(bytes, i) <==> !is_continuation_byte(bytes[i]));
    }
}

/// A position of a text up to a character boundary `e` is a character
/// boundary of that part exactly if it is one of the text.
pub proof fn lemma_boundary_in_prefix(bytes: Seq<u8>, e: int, i: int)
    requires
        valid_utf8(bytes),
        is_char_boundary(bytes, e),
        0 <= i <= e <= bytes.len(),
    ensures
        valid_utf8(bytes.take(e)),
        is_char_boundary(bytes.take(e), i) <==> is_char_boundary(bytes, i),
{
    broadcast use vstd::utf8::valid_utf8_split;
    broadcast use vstd::utf8::is_char_boundary_start_end_of_seq;
    broadcast use vstd::utf8::is_char_boundary_iff_not_is_continuation_byte;

    let part = bytes.take(e);
    assert(part =~= bytes.subrange(0, e));
    assert(valid_utf8(part));
    if i == e {
        assert(is_char_boundary(part, part.len() as int));
    } else if i == 0 {
    } else {
        assert(part[i] == bytes[i]);
        assert(is_char_boundary(part, i) <==> !is_continuation_byte(part[i]));
        assert(is_char_boundary(bytes, i) <==> !is_continuation_byte(bytes[i]));
    }
}

/// A position of the chunk of `n` bytes that starts at the character
/// boundary `base` of a text and ends at one is a character boundary of the
/// chunk exactly if it is one of the text.
pub proof fn lemma_boundary_in_chunk(bytes: Seq<u8>, base: int, n: int, i: int)
    requires
        valid_utf8(bytes),
        0 <= base,
        0 <= i <= n,
        base + n <= bytes.len(),
        is_char_boundary(bytes, base),
        is_char_boundary(bytes, base + n),
    ensures
        valid_utf8(bytes.skip(base).take(n)),
        is_char_boundary(bytes.skip(base).take(n), i) <==> is_char_boundary(bytes, base + i),
{
    lemma_boundary_in_suffix(bytes, base, base + n);
    lemma_boundary_in_suffix(bytes, base, base + i);
    lemma_boundary_in_prefix(bytes.skip(base), n, i);
}

/// The part of `text` from byte `lo` up to byte `hi`.
pub fn substring<'a>(text: &'a str, lo: usize, hi: usize) -> (part: &'a str)
    requires
        on_boundaries(text.spec_bytes(), Range { start: lo, end: hi }),
    ensures
        part.spec_bytes() == text.spec_bytes().subrange(lo as int, hi as int),
        part@ == decode_utf8(text.spec_bytes().subrange(lo as int, hi as int)),
{
    broadcast use vstd::utf8::encode_utf8_valid_utf8;
    broadcast use vstd::utf8::encode_utf8_decode_utf8;

    let ghost bytes = text.spec_bytes();
    let (head, _) = text.split_at(hi);
    proof {
        assert(valid_utf8(bytes));
        lemma_boundary_in_prefix(bytes, hi as int, lo as int);
        assert(head.spec_bytes() =~= bytes.take(hi as int));
    }
    let (_, part) = head.split_at(lo);
    proof {
        assert(part.spec_bytes() =~= bytes.subrange(lo as int, hi as int));
        assert(decode_utf8(encode_utf8(part@)) == part@);
    }
    part
}

} // verus!
