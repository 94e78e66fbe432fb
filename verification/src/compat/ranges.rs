//! Helpers on ranges.

use core::ops::Range;
use vstd::prelude::*;

verus! {

/// `range` moved right by `offset`.
pub open spec fn offset_range_spec(range: Range<usize>, offset: usize) -> Range<usize> {
    Range { start: (range.start + offset) as usize, end: (range.end + offset) as usize }
}

/// `range` moved right by `offset`.
pub fn offset_range(range: Range<usize>, offset: usize) -> (r: Range<usize>)
    requires
        range.start + offset <= usize::MAX,
        range.end + offset <= usize::MAX,
    ensures
        r == offset_range_spec(range, offset),
{
    Range { start: range.start + offset, end: range.end + offset }
}

} // verus!
