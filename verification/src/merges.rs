//! The canonical byte-pair merge procedure, as a mathematical model.
//!
//! A span is a sequence of token ids. A rank table maps an ordered pair of
//! ids to the id of the merged token; the numeric value of that id is also the
//! priority of the merge (smaller first). The procedure repeatedly replaces
//! the leftmost adjacent pair of minimal rank by its merged token until no
//! adjacent pair has a rank.

use vstd::prelude::*;

verus! {

/// Rank of the adjacent pair at position `i` of `s`, if the table has one.
pub open spec fn pair_rank(ranks: Map<(u32, u32), u32>, s: Seq<u32>, i: int) -> Option<u32> {
    if 0 <= i && i + 1 < s.len() && ranks.contains_key((s[i], s[i + 1])) {
        Some(ranks[(s[i], s[i + 1])])
    } else {
        None
    }
}

/// `(r1, i1)` comes no later than `(r2, i2)`: smaller rank first, then the
/// position further left.
pub open spec fn merges_before(r1: u32, i1: int, r2: u32, i2: int) -> bool {
    r1 < r2 || (r1 == r2 && i1 <= i2)
}

/// Position `i` holds the next pair to merge: it has a rank, and every other
/// ranked pair has a larger rank or the same rank further right.
pub open spec fn is_best_pair(ranks: Map<(u32, u32), u32>, s: Seq<u32>, i: int) -> bool {
    &&& pair_rank(ranks, s, i) is Some
    &&& forall|j: int| #[trigger]
        pair_rank(ranks, s, j) is Some ==> merges_before(
            pair_rank(ranks, s, i).unwrap(),
            i,
            pair_rank(ranks, s, j).unwrap(),
            j,
        )
}

/// Some adjacent pair of `s` has a rank.
pub open spec fn has_ranked_pair(ranks: Map<(u32, u32), u32>, s: Seq<u32>) -> bool {
    exists|i: int| #[trigger] pair_rank(ranks, s, i) is Some
}

/// The position of the next pair to merge, where there is one.
pub open spec fn best_pair(ranks: Map<(u32, u32), u32>, s: Seq<u32>) -> int {
    choose|i: int| is_best_pair(ranks, s, i)
}

/// `s` after the pair at `i` is replaced by the single token `t`.
pub open spec fn merge_at(s: Seq<u32>, i: int, t: u32) -> Seq<u32> {
    s.update(i, t).remove(i + 1)
}

/// One step of the procedure: merge the best pair of `s`.
pub open spec fn merge_step(ranks: Map<(u32, u32), u32>, s: Seq<u32>) -> Seq<u32> {
    let i = best_pair(ranks, s);
    merge_at(s, i, pair_rank(ranks, s, i).unwrap())
}

/// The result of the whole procedure on `s`.
pub open spec fn merge_all(ranks: Map<(u32, u32), u32>, s: Seq<u32>) -> Seq<u32>
    decreases s.len(),
{
    if is_best_pair(ranks, s, best_pair(ranks, s)) {
        merge_all(ranks, merge_step(ranks, s))
    } else {
        s
    }
}

/// What merging in place leaves of the vector `tokens`: its head up to
/// `start` as it is, followed by the result of the procedure on its tail.
pub open spec fn merged_in_place(ranks: Map<(u32, u32), u32>, tokens: Seq<u32>, start: int) -> Seq<
    u32,
> {
    tokens.take(start) + merge_all(ranks, tokens.skip(start))
}

/// At most one position is the best pair.
pub proof fn lemma_best_pair_unique(ranks: Map<(u32, u32), u32>, s: Seq<u32>, i: int, j: int)
    requires
        is_best_pair(ranks, s, i),
        is_best_pair(ranks, s, j),
    ensures
        i == j,
{
}

/// Where some pair has a rank, a best pair exists.
pub proof fn lemma_best_pair_exists(ranks: Map<(u32, u32), u32>, s: Seq<u32>)
    requires
        has_ranked_pair(ranks, s),
    ensures
        is_best_pair(ranks, s, best_pair(ranks, s)),
{
    let w = choose|i: int| #[trigger] pair_rank(ranks, s, i) is Some;
    let b = lemma_best_among(ranks, s, s.len() as int - 1, w);
    assert(is_best_pair(ranks, s, b));
}

/// `b` is the best pair among the positions below `n`.
spec fn is_best_upto(ranks: Map<(u32, u32), u32>, s: Seq<u32>, n: int, b: int) -> bool {
    &&& 0 <= b < n
    &&& pair_rank(ranks, s, b) is Some
    &&& forall|j: int|
        j < n && #[trigger] pair_rank(ranks, s, j) is Some ==> merges_before(
            pair_rank(ranks, s, b).unwrap(),
            b,
            pair_rank(ranks, s, j).unwrap(),
            j,
        )
}

proof fn lemma_best_among(ranks: Map<(u32, u32), u32>, s: Seq<u32>, n: int, w: int) -> (b: int)
    requires
        0 <= w < n,
        pair_rank(ranks, s, w) is Some,
    ensures
        is_best_upto(ranks, s, n, b),
    decreases n,
{
    if w == n - 1 {
        if exists|k: int| 0 <= k < n - 1 && #[trigger] pair_rank(ranks, s, k) is Some {
            let k = choose|k: int| 0 <= k < n - 1 && #[trigger] pair_rank(ranks, s, k) is Some;
            let b0 = lemma_best_among(ranks, s, n - 1, k);
            if pair_rank(ranks, s, w).unwrap() < pair_rank(ranks, s, b0).unwrap() {
                w
            } else {
                b0
            }
        } else {
            w
        }
    } else {
        let b0 = lemma_best_among(ranks, s, n - 1, w);
        if pair_rank(ranks, s, n - 1) is Some && pair_rank(ranks, s, n - 1).unwrap() < pair_rank(
            ranks,
            s,
            b0,
        ).unwrap() {
            n - 1
        } else {
            b0
        }
    }
}

/// Where no pair has a rank, the procedure leaves the span as it is.
pub proof fn lemma_merge_all_fixed(ranks: Map<(u32, u32), u32>, s: Seq<u32>)
    requires
        !has_ranked_pair(ranks, s),
    ensures
        merge_all(ranks, s) == s,
{
}

/// Where `i` is the best pair, the procedure continues from the span with
/// that pair merged.
pub proof fn lemma_merge_all_step(ranks: Map<(u32, u32), u32>, s: Seq<u32>, i: int)
    requires
        is_best_pair(ranks, s, i),
    ensures
        merge_all(ranks, s) == merge_all(ranks, merge_at(s, i, pair_rank(ranks, s, i).unwrap())),
{
    lemma_best_pair_unique(ranks, s, i, best_pair(ranks, s));
}

/// The procedure stops only where no adjacent pair has a rank: no pair of
/// its result has one.
pub proof fn lemma_merge_all_stops(ranks: Map<(u32, u32), u32>, s: Seq<u32>)
    ensures
        !has_ranked_pair(ranks, merge_all(ranks, s)),
    decreases s.len(),
{
    if is_best_pair(ranks, s, best_pair(ranks, s)) {
        lemma_merge_all_stops(ranks, merge_step(ranks, s));
    } else {
        if has_ranked_pair(ranks, s) {
            lemma_best_pair_exists(ranks, s);
        }
    }
}

/// The procedure never makes a span longer, and never makes a span that is
/// not empty empty.
pub proof fn lemma_merge_all_len(ranks: Map<(u32, u32), u32>, s: Seq<u32>)
    ensures
        merge_all(ranks, s).len() <= s.len(),
        s.len() > 0 ==> merge_all(ranks, s).len() > 0,
    decreases s.len(),
{
    if is_best_pair(ranks, s, best_pair(ranks, s)) {
        lemma_merge_all_len(ranks, merge_step(ranks, s));
    }
}

} // verus!
