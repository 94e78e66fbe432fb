//! A span encoder that sweeps short spans and merges long ones off a heap.
//!
//! Short spans take a linear sweep for the best pair at each step. Long
//! spans keep the pending pairs in a min-heap and the live tokens in a
//! doubly-linked list over their positions; entries that a later merge has
//! overtaken are told apart by a generation counter per position.

use crate::encoders::span_encoders::merge_heap::{HeapEntry, MergeHeap};
use crate::encoders::span_encoders::span_encoder::SpanEncoder;
use crate::merges::{
    has_ranked_pair, is_best_pair, lemma_merge_all_fixed, lemma_merge_all_step,
    lemma_merge_all_stops, merge_all, merge_at, merged_in_place, merges_before, pair_rank,
};
use crate::vocab::byte_vocab::byte_tokens;
use crate::vocab::unified_vocab::UnifiedTokenVocab;
use vstd::multiset::Multiset;
use vstd::prelude::*;

verus! {

/// Spans of at most this many bytes take the linear sweep, unless the
/// encoder is made with another threshold.
pub const SWEEP_THRESHOLD: usize = 16;

/// "No neighbour" in the linked list.
pub const SENTINEL: u32 = 0xFFFF_FFFFu32;

/// The generation counters are 8 bits wide and wrap. In a span of at most
/// this many tokens no counter can come back to an earlier value.
pub const GENERATION_SPAN: usize = 256;

/// A span encoder that picks the merge strategy by the span's length.
pub struct HybridSpanEncoder {
    sweep_threshold: usize,
    next: Vec<u32>,
    prev: Vec<u32>,
    generation: Vec<u8>,
    heap: MergeHeap,
}

/// The successor of each position before any merge.
spec fn initial_next(n: int) -> Seq<u32> {
    Seq::new(
        n as nat,
        |k: int|
            if k + 1 < n {
                (k + 1) as u32
            } else {
                SENTINEL
            },
    )
}

/// The predecessor of each position before any merge.
spec fn initial_prev(n: int) -> Seq<u32> {
    Seq::new(
        n as nat,
        |k: int|
            if k == 0 {
                SENTINEL
            } else {
                (k - 1) as u32
            },
    )
}

/// `next` and `prev` link the positions of `live`, in order, and no others.
spec fn list_wf(next: Seq<u32>, prev: Seq<u32>, live: Seq<int>, n: int) -> bool {
    &&& n < SENTINEL
    &&& next.len() == n
    &&& prev.len() == n
    &&& 1 <= live.len() <= n
    &&& live[0] == 0
    &&& forall|a: int, b: int| 0 <= a < b < live.len() ==> #[trigger] live[a] < #[trigger] live[b]
    &&& forall|k: int| 0 <= k < live.len() ==> 0 <= #[trigger] live[k] < n
    &&& forall|k: int| 0 <= k < live.len() - 1 ==> #[trigger] next[live[k]] == live[k + 1]
    &&& next[live[live.len() - 1]] == SENTINEL
    &&& forall|k: int| 1 <= k < live.len() ==> #[trigger] prev[live[k]] == live[k - 1]
    &&& prev[0] == SENTINEL
    &&& forall|p: int|
        0 <= p < n && #[trigger] next[p] != SENTINEL ==> exists|k: int|
            0 <= k < live.len() - 1 && #[trigger] live[k] == p
}

/// The tokens at the live positions, in order.
spec fn current(tokens: Seq<u32>, start: int, live: Seq<int>) -> Seq<u32> {
    Seq::new(live.len(), |k: int| tokens[start + live[k]])
}

/// The heap entry that stands for the pair at index `k` of the live tokens.
spec fn entry_for(
    ranks: Map<(u32, u32), u32>,
    cur: Seq<u32>,
    live: Seq<int>,
    generation: Seq<u8>,
    k: int,
) -> HeapEntry {
    HeapEntry {
        rank: pair_rank(ranks, cur, k).unwrap(),
        pos: live[k] as u32,
        generation: generation[live[k]],
    }
}

/// Every ranked pair among the first `upto` of the live tokens has its
/// entry in the heap.
spec fn heap_complete(
    heap: Multiset<HeapEntry>,
    ranks: Map<(u32, u32), u32>,
    cur: Seq<u32>,
    live: Seq<int>,
    generation: Seq<u8>,
    upto: int,
) -> bool {
    forall|k: int|
        0 <= k < upto && #[trigger] pair_rank(ranks, cur, k) is Some ==> heap.count(
            entry_for(ranks, cur, live, generation, k),
        ) > 0
}

/// Every entry of the heap names a position of the span.
spec fn heap_in_range(heap: Multiset<HeapEntry>, n: int) -> bool {
    forall|e: HeapEntry| #[trigger] heap.count(e) > 0 ==> e.pos < n
}

/// No entry is of a later generation than its position, and an entry of
/// its position's generation holds the rank of the pair that starts there.
spec fn heap_sound(
    heap: Multiset<HeapEntry>,
    ranks: Map<(u32, u32), u32>,
    cur: Seq<u32>,
    live: Seq<int>,
    generation: Seq<u8>,
) -> bool {
    &&& forall|e: HeapEntry| #[trigger]
        heap.count(e) > 0 ==> e.generation <= generation[e.pos as int]
    &&& forall|e: HeapEntry, k: int|
        #![trigger heap.count(e), live[k]]
        heap.count(e) > 0 && 0 <= k < live.len() - 1 && live[k] == e.pos && e.generation
            == generation[e.pos as int] ==> pair_rank(ranks, cur, k) == Some(e.rank)
}

/// No position has seen more generations than merges have happened.
spec fn generations_bounded(generation: Seq<u8>, merges: int) -> bool {
    forall|p: int| 0 <= p < generation.len() ==> #[trigger] generation[p] <= merges
}

/// Taking the right token of the pair at index `k` out of the list keeps
/// the list well formed.
proof fn lemma_unlink(
    next0: Seq<u32>,
    prev0: Seq<u32>,
    live0: Seq<int>,
    n: int,
    k: int,
    next1: Seq<u32>,
    prev1: Seq<u32>,
)
    requires
        list_wf(next0, prev0, live0, n),
        0 <= k < live0.len() - 1,
        next1 == next0.update(live0[k], next0[live0[k + 1]]).update(live0[k + 1], SENTINEL),
        prev1 == (if next0[live0[k + 1]] != SENTINEL {
            prev0.update(next0[live0[k + 1]] as int, live0[k] as u32)
        } else {
            prev0
        }),
    ensures
        list_wf(next1, prev1, live0.remove(k + 1), n),
{
    let live1 = live0.remove(k + 1);
    let ii = live0[k];
    let jj = live0[k + 1];
    let len0 = live0.len() as int;
    assert(ii < jj);
    assert forall|m: int| 0 <= m < live1.len() - 1 implies #[trigger] next1[live1[m]] == live1[m
        + 1] by {
        if m < k {
            assert(live0[m] < live0[k]);
            assert(next0[live0[m]] == live0[m + 1]);
        } else if m == k {
            assert(next0[live0[k + 1]] == live0[k + 2]);
        } else {
            assert(live0[k + 1] < live0[m + 1]);
            assert(next0[live0[m + 1]] == live0[m + 2]);
        }
    }
    assert(next1[live1[live1.len() - 1]] == SENTINEL) by {
        if k + 2 == len0 {
        } else {
            assert(live0[k + 1] < live0[len0 - 1]);
        }
    }
    assert forall|m: int| 1 <= m < live1.len() implies #[trigger] prev1[live1[m]] == live1[m
        - 1] by {
        if k + 2 < len0 {
            assert(next0[live0[k + 1]] == live0[k + 2]);
        }
        if m <= k {
            assert(prev0[live0[m]] == live0[m - 1]);
            if k + 2 < len0 {
                assert(live0[m] < live0[k + 2]);
            }
        } else if m == k + 1 {
        } else {
            assert(prev0[live0[m + 1]] == live0[m]);
            assert(live0[k + 2] < live0[m + 1]);
        }
    }
    assert(prev1[0] == SENTINEL) by {
        if k + 2 < len0 {
            assert(next0[live0[k + 1]] == live0[k + 2]);
            assert(live0[0] < live0[k + 2]);
        }
    }
    assert forall|p: int| 0 <= p < n && #[trigger] next1[p] != SENTINEL implies exists|m: int|
        0 <= m < live1.len() - 1 && #[trigger] live1[m] == p by {
        if p == ii {
            assert(next0[live0[k + 1]] != SENTINEL);
            if k + 2 >= len0 {
                assert(false);
            }
            assert(live1[k] == p);
        } else {
            assert(next0[p] != SENTINEL);
            let m0 = choose|m0: int| 0 <= m0 < live0.len() - 1 && #[trigger] live0[m0] == p;
            if m0 < k {
                assert(live1[m0] == p);
            } else {
                assert(m0 > k + 1);
                assert(live1[m0 - 1] == p);
            }
        }
    }
    assert forall|a: int, b: int| 0 <= a < b < live1.len() implies #[trigger] live1[a]
        < #[trigger] live1[b] by {
        let a0 = if a <= k { a } else { a + 1 };
        let b0 = if b <= k { b } else { b + 1 };
        assert(live0[a0] < live0[b0]);
    }
}

/// An entry that precedes the entry of every ranked pair, and that holds
/// the rank of the pair at index `k`, marks the best pair.
proof fn lemma_popped_is_best(
    heap: Multiset<HeapEntry>,
    ranks: Map<(u32, u32), u32>,
    cur: Seq<u32>,
    live: Seq<int>,
    generation: Seq<u8>,
    n: int,
    entry: HeapEntry,
    k: int,
)
    requires
        cur.len() == live.len(),
        forall|a: int, b: int| 0 <= a < b < live.len() ==> #[trigger] live[a] < #[trigger] live[b],
        forall|m: int| 0 <= m < live.len() ==> 0 <= #[trigger] live[m] < n,
        n < SENTINEL,
        heap_complete(heap, ranks, cur, live, generation, live.len() - 1),
        forall|x: HeapEntry| heap.count(x) > 0 ==> entry.precedes(x),
        0 <= k < live.len() - 1,
        live[k] == entry.pos,
        pair_rank(ranks, cur, k) == Some(entry.rank),
    ensures
        is_best_pair(ranks, cur, k),
{
    assert forall|j: int| #[trigger] pair_rank(ranks, cur, j) is Some implies merges_before(
        pair_rank(ranks, cur, k).unwrap(),
        k,
        pair_rank(ranks, cur, j).unwrap(),
        j,
    ) by {
        let x = entry_for(ranks, cur, live, generation, j);
        assert(heap.count(x) > 0);
        assert(entry.precedes(x));
        if j < k {
            assert(live[j] < live[k]);
        }
    }
}

/// After the pair at index `k` has merged, with the generations of its
/// position and of its left neighbour moved on and the two new pairs
/// pushed, the heap again holds the entry of every ranked pair.
proof fn lemma_complete_after_merge(
    ranks: Map<(u32, u32), u32>,
    cur0: Seq<u32>,
    live0: Seq<int>,
    gen0: Seq<u8>,
    heap0: Multiset<HeapEntry>,
    entry: HeapEntry,
    k: int,
    cur1: Seq<u32>,
    gen1: Seq<u8>,
    heap2: Multiset<HeapEntry>,
    n: int,
)
    requires
        cur0.len() == live0.len(),
        gen0.len() == n,
        gen1.len() == n,
        n < SENTINEL,
        forall|a: int, b: int|
            0 <= a < b < live0.len() ==> #[trigger] live0[a] < #[trigger] live0[b],
        forall|m: int| 0 <= m < live0.len() ==> 0 <= #[trigger] live0[m] < n,
        heap_complete(heap0, ranks, cur0, live0, gen0, live0.len() - 1),
        0 <= k < live0.len() - 1,
        live0[k] == entry.pos,
        cur1 == merge_at(cur0, k, entry.rank),
        forall|p: int|
            0 <= p < n && p != live0[k] && !(k >= 1 && p == live0[k - 1]) ==> #[trigger] gen1[p]
                == gen0[p],
        forall|x: HeapEntry| heap0.count(x) > 0 && x != entry ==> heap2.count(x) > 0,
        k >= 1 && pair_rank(ranks, cur1, k - 1) is Some ==> heap2.count(
            entry_for(ranks, cur1, live0.remove(k + 1), gen1, k - 1),
        ) > 0,
        k < live0.len() - 2 && pair_rank(ranks, cur1, k) is Some ==> heap2.count(
            entry_for(ranks, cur1, live0.remove(k + 1), gen1, k),
        ) > 0,
    ensures
        heap_complete(heap2, ranks, cur1, live0.remove(k + 1), gen1, live0.len() - 2),
{
    let live1 = live0.remove(k + 1);
    assert forall|m: int|
        0 <= m < live0.len() - 2 && #[trigger] pair_rank(ranks, cur1, m) is Some implies heap2.count(
        entry_for(ranks, cur1, live1, gen1, m),
    ) > 0 by {
        if m == k - 1 || m == k {
        } else if m < k - 1 {
            assert(pair_rank(ranks, cur0, m) == pair_rank(ranks, cur1, m));
            assert(live0[m] < live0[k - 1]);
            assert(live0[m] < live0[k]);
            let x = entry_for(ranks, cur0, live0, gen0, m);
            assert(heap0.count(x) > 0);
            assert(x.pos != entry.pos);
            assert(x == entry_for(ranks, cur1, live1, gen1, m));
        } else {
            assert(pair_rank(ranks, cur0, m + 1) == pair_rank(ranks, cur1, m));
            assert(live0[k] < live0[m + 1]);
            if k >= 1 {
                assert(live0[k - 1] < live0[m + 1]);
            }
            let x = entry_for(ranks, cur0, live0, gen0, m + 1);
            assert(heap0.count(x) > 0);
            assert(x.pos != entry.pos);
            assert(x == entry_for(ranks, cur1, live1, gen1, m));
        }
    }
}

/// After the pair at index `k` has merged in a span whose generation
/// counters cannot wrap, the entries of the heap are still sound.
proof fn lemma_sound_after_merge(
    ranks: Map<(u32, u32), u32>,
    cur0: Seq<u32>,
    live0: Seq<int>,
    gen0: Seq<u8>,
    heap0: Multiset<HeapEntry>,
    entry: HeapEntry,
    k: int,
    cur1: Seq<u32>,
    gen1: Seq<u8>,
    heap2: Multiset<HeapEntry>,
    n: int,
)
    requires
        cur0.len() == live0.len(),
        gen0.len() == n,
        gen1.len() == n,
        n < SENTINEL,
        forall|a: int, b: int|
            0 <= a < b < live0.len() ==> #[trigger] live0[a] < #[trigger] live0[b],
        forall|m: int| 0 <= m < live0.len() ==> 0 <= #[trigger] live0[m] < n,
        heap_sound(heap0, ranks, cur0, live0, gen0),
        heap_in_range(heap0, n),
        0 <= k < live0.len() - 1,
        live0[k] == entry.pos,
        cur1 == merge_at(cur0, k, entry.rank),
        forall|p: int|
            0 <= p < n && p != live0[k] && !(k >= 1 && p == live0[k - 1]) ==> #[trigger] gen1[p]
                == gen0[p],
        gen1[live0[k]] == gen0[live0[k]] + 1,
        k >= 1 ==> gen1[live0[k - 1]] == gen0[live0[k - 1]] + 1,
        forall|x: HeapEntry|
            #![trigger heap2.count(x)]
            heap2.count(x) > 0 ==> heap0.count(x) > 0 || (k >= 1 && pair_rank(ranks, cur1, k - 1)
                is Some && x == entry_for(ranks, cur1, live0.remove(k + 1), gen1, k - 1)) || (k
                < live0.len() - 2 && pair_rank(ranks, cur1, k) is Some && x == entry_for(
                ranks,
                cur1,
                live0.remove(k + 1),
                gen1,
                k,
            )),
    ensures
        heap_sound(heap2, ranks, cur1, live0.remove(k + 1), gen1),
{
    let live1 = live0.remove(k + 1);
    assert forall|e: HeapEntry| #[trigger] heap2.count(e) > 0 implies e.generation <= gen1[e.pos as int] by {
        if heap0.count(e) > 0 {
            assert(e.generation <= gen0[e.pos as int]);
        }
    }
    assert forall|e: HeapEntry, m: int|
        #![trigger heap2.count(e), live1[m]]
        heap2.count(e) > 0 && 0 <= m < live1.len() - 1 && live1[m] == e.pos && e.generation
            == gen1[e.pos as int] implies pair_rank(ranks, cur1, m) == Some(e.rank) by {
        let m0 = if m <= k { m } else { m + 1 };
        assert(live0[m0] == live1[m]);
        if m == k {
            if heap0.count(e) > 0 {
                assert(e.generation <= gen0[e.pos as int]);
            }
        } else if m == k - 1 {
            if heap0.count(e) > 0 {
                assert(e.generation <= gen0[e.pos as int]);
            }
            assert(live0[k - 1] < live0[k]);
        } else {
            if m < k {
                assert(live0[m] < live0[k - 1]);
                assert(live0[m] < live0[k]);
            } else {
                assert(live0[k] < live0[m0]);
            }
            assert(heap0.count(e) > 0);
            assert(live0[m0] == e.pos);
            assert(pair_rank(ranks, cur0, m0) == Some(e.rank));
            assert(pair_rank(ranks, cur0, m0) == pair_rank(ranks, cur1, m));
        }
    }
}

/// The rank of the pair `(a, b)`, if the table has one.
pub open spec fn rank_of(ranks: Map<(u32, u32), u32>, a: u32, b: u32) -> Option<u32> {
    if ranks.contains_key((a, b)) {
        Some(ranks[(a, b)])
    } else {
        None
    }
}

/// The state of a heap merge: the token vector, the linked list, the
/// generation counters, what the heap holds, and the live positions in
/// order.
struct MergeState {
    tokens: Seq<u32>,
    next: Seq<u32>,
    prev: Seq<u32>,
    generation: Seq<u8>,
    heap: Multiset<HeapEntry>,
    live: Seq<int>,
}

/// The invariant of a heap merge over `n` tokens that start at `start`.
#[verifier::opaque]
spec fn merge_inv(
    st: MergeState,
    ranks: Map<(u32, u32), u32>,
    start: int,
    n: int,
    long: bool,
) -> bool {
    &&& 0 <= start
    &&& st.tokens.len() == start + n
    &&& st.generation.len() == n
    &&& list_wf(st.next, st.prev, st.live, n)
    &&& heap_complete(
        st.heap,
        ranks,
        current(st.tokens, start, st.live),
        st.live,
        st.generation,
        st.live.len() - 1,
    )
    &&& heap_in_range(st.heap, n)
    &&& !long ==> n <= GENERATION_SPAN && heap_sound(
        st.heap,
        ranks,
        current(st.tokens, start, st.live),
        st.live,
        st.generation,
    ) && generations_bounded(st.generation, n - st.live.len())
}

/// The index of position `p` among the live positions.
spec fn index_of(live: Seq<int>, p: int) -> int {
    choose|k: int| 0 <= k < live.len() && live[k] == p
}

/// The heap holds exactly the entries of the ranked pairs among the first
/// `upto` of `cur`, each at generation 0.
spec fn seeded(
    heap: Multiset<HeapEntry>,
    ranks: Map<(u32, u32), u32>,
    cur: Seq<u32>,
    upto: int,
) -> bool {
    &&& forall|k: int|
        0 <= k < upto && #[trigger] pair_rank(ranks, cur, k) is Some ==> heap.count(
            HeapEntry { rank: pair_rank(ranks, cur, k).unwrap(), pos: k as u32, generation: 0u8 },
        ) > 0
    &&& forall|e: HeapEntry| #[trigger]
        heap.count(e) > 0 ==> e.pos < upto && e.generation == 0 && pair_rank(
            ranks,
            cur,
            e.pos as int,
        ) == Some(e.rank)
}

/// Seeding goes on by one position.
proof fn lemma_seed_step(
    heap0: Multiset<HeapEntry>,
    ranks: Map<(u32, u32), u32>,
    cur: Seq<u32>,
    pos: int,
    heap1: Multiset<HeapEntry>,
)
    requires
        seeded(heap0, ranks, cur, pos),
        0 <= pos < SENTINEL,
        heap1 == (if pair_rank(ranks, cur, pos) is Some {
            heap0.insert(
                HeapEntry {
                    rank: pair_rank(ranks, cur, pos).unwrap(),
                    pos: pos as u32,
                    generation: 0u8,
                },
            )
        } else {
            heap0
        }),
    ensures
        seeded(heap1, ranks, cur, pos + 1),
{
    broadcast use vstd::multiset::group_multiset_axioms;

}

/// A seeded heap over the untouched list is a state of the merge.
proof fn lemma_seeded_state(
    ranks: Map<(u32, u32), u32>,
    start: int,
    n: int,
    long: bool,
    st: MergeState,
)
    requires
        0 <= start,
        1 <= n < SENTINEL,
        long == (n > GENERATION_SPAN),
        st.tokens.len() == start + n,
        st.next == initial_next(n),
        st.prev == initial_prev(n),
        st.generation == Seq::new(n as nat, |k: int| 0u8),
        st.live == Seq::new(n as nat, |k: int| k),
        seeded(st.heap, ranks, st.tokens.skip(start), n - 1),
    ensures
        merge_inv(st, ranks, start, n, long),
{
    reveal(merge_inv);
    let live = st.live;
    assert(current(st.tokens, start, live) =~= st.tokens.skip(start));
    assert forall|p: int| 0 <= p < n && #[trigger] st.next[p] != SENTINEL implies exists|k: int|
        0 <= k < live.len() - 1 && #[trigger] live[k] == p by {
        assert(live[p] == p);
    }
    assert(list_wf(st.next, st.prev, live, n));
}

/// An entry of the heap names a position of the span, and the links of
/// that position stay within the span.
proof fn lemma_entry_links(
    st: MergeState,
    ranks: Map<(u32, u32), u32>,
    start: int,
    n: int,
    long: bool,
    entry: HeapEntry,
)
    requires
        merge_inv(st, ranks, start, n, long),
        st.heap.count(entry) > 0,
    ensures
        entry.pos < n,
        st.next[entry.pos as int] != SENTINEL ==> {
            let j = st.next[entry.pos as int];
            &&& entry.pos < j < n
            &&& st.next[j as int] == SENTINEL || j < st.next[j as int] < n
            &&& st.prev[entry.pos as int] == SENTINEL || st.prev[entry.pos as int] < entry.pos
        },
{
    reveal(merge_inv);
    let i = entry.pos as int;
    if st.next[i] != SENTINEL {
        let k = choose|k: int| 0 <= k < st.live.len() - 1 && #[trigger] st.live[k] == i;
        assert(st.next[st.live[k]] == st.live[k + 1]);
        assert(st.live[k] < st.live[k + 1]);
        if k + 2 < st.live.len() {
            assert(st.next[st.live[k + 1]] == st.live[k + 2]);
            assert(st.live[k + 1] < st.live[k + 2]);
        }
        if k >= 1 {
            assert(st.prev[st.live[k]] == st.live[k - 1]);
            assert(st.live[k - 1] < st.live[k]);
        }
    }
}

/// An entry that is passed over was not the entry of any live pair, so the
/// state without it is still a state of the merge.
proof fn lemma_skip(
    ranks: Map<(u32, u32), u32>,
    start: int,
    n: int,
    long: bool,
    st0: MergeState,
    entry: HeapEntry,
    st1: MergeState,
)
    requires
        merge_inv(st0, ranks, start, n, long),
        st0.heap.count(entry) > 0,
        st1 == (MergeState { heap: st0.heap.remove(entry), ..st0 }),
        entry.generation != st0.generation[entry.pos as int] || st0.next[entry.pos as int]
            == SENTINEL || (long && rank_of(
            ranks,
            st0.tokens[start + entry.pos],
            st0.tokens[start + st0.next[entry.pos as int]],
        ) != Some(entry.rank)),
    ensures
        merge_inv(st1, ranks, start, n, long),
{
    broadcast use vstd::multiset::group_multiset_axioms;

    reveal(merge_inv);
    let cur = current(st0.tokens, start, st0.live);
    let live = st0.live;
    assert forall|k: int|
        0 <= k < live.len() - 1 && #[trigger] pair_rank(ranks, cur, k) is Some implies st1.heap.count(
        entry_for(ranks, cur, live, st0.generation, k),
    ) > 0 by {
        let x = entry_for(ranks, cur, live, st0.generation, k);
        assert(st0.heap.count(x) > 0);
        assert(st0.next[live[k]] == live[k + 1]);
        assert(x != entry);
    }
}

/// The state after the pair that starts at the position of `entry` has
/// merged: the left token replaced, the right one spliced out, the
/// generations of the position and of its left neighbour moved on, and the
/// pairs with the new neighbours pushed.
spec fn merged_state(
    ranks: Map<(u32, u32), u32>,
    start: int,
    st0: MergeState,
    entry: HeapEntry,
) -> MergeState {
    let i = entry.pos as int;
    let j = st0.next[i] as int;
    let k2 = st0.next[j];
    let p = st0.prev[i];
    let tokens = st0.tokens.update(start + i, entry.rank);
    let next = st0.next.update(i, k2).update(j, SENTINEL);
    let prev = if k2 != SENTINEL {
        st0.prev.update(k2 as int, entry.pos)
    } else {
        st0.prev
    };
    let gen_a = st0.generation.update(i, st0.generation[i].wrapping_add(1));
    let generation = if p != SENTINEL {
        gen_a.update(p as int, gen_a[p as int].wrapping_add(1))
    } else {
        gen_a
    };
    let heap_a = st0.heap.remove(entry);
    let left = if p != SENTINEL {
        rank_of(ranks, tokens[start + p], tokens[start + i])
    } else {
        None
    };
    let heap_b = if left is Some {
        heap_a.insert(HeapEntry { rank: left.unwrap(), pos: p, generation: generation[p as int] })
    } else {
        heap_a
    };
    let right = if k2 != SENTINEL {
        rank_of(ranks, tokens[start + i], tokens[start + k2])
    } else {
        None
    };
    let heap_c = if right is Some {
        heap_b.insert(
            HeapEntry { rank: right.unwrap(), pos: entry.pos, generation: generation[i] },
        )
    } else {
        heap_b
    };
    MergeState {
        tokens,
        next,
        prev,
        generation,
        heap: heap_c,
        live: st0.live.remove(index_of(st0.live, i) + 1),
    }
}

/// A popped entry of its position's generation, whose position has a
/// successor, marks the best pair; merging it leads to a state of the merge
/// with one live token less and the same final result.
proof fn lemma_merge(
    ranks: Map<(u32, u32), u32>,
    start: int,
    n: int,
    long: bool,
    st0: MergeState,
    entry: HeapEntry,
)
    requires
        merge_inv(st0, ranks, start, n, long),
        1 <= n < SENTINEL,
        long == (n > GENERATION_SPAN),
        st0.heap.count(entry) > 0,
        forall|x: HeapEntry| st0.heap.count(x) > 0 ==> entry.precedes(x),
        entry.generation == st0.generation[entry.pos as int],
        st0.next[entry.pos as int] != SENTINEL,
        long ==> rank_of(
            ranks,
            st0.tokens[start + entry.pos],
            st0.tokens[start + st0.next[entry.pos as int]],
        ) == Some(entry.rank),
    ensures
        merge_inv(merged_state(ranks, start, st0, entry), ranks, start, n, long),
        merged_state(ranks, start, st0, entry).live.len() + 1 == st0.live.len(),
        merged_state(ranks, start, st0, entry).live.len() >= 1,
        merge_all(
            ranks,
            current(
                merged_state(ranks, start, st0, entry).tokens,
                start,
                merged_state(ranks, start, st0, entry).live,
            ),
        ) == merge_all(ranks, current(st0.tokens, start, st0.live)),
{
    broadcast use vstd::multiset::group_multiset_axioms;

    reveal(merge_inv);
    let st2 = merged_state(ranks, start, st0, entry);
    let live0 = st0.live;
    let i = entry.pos as int;
    let k = choose|k: int| 0 <= k < live0.len() - 1 && #[trigger] live0[k] == i;
    assert(index_of(live0, i) == k) by {
        let k1 = index_of(live0, i);
        if k1 < k {
            assert(live0[k1] < live0[k]);
        }
        if k < k1 {
            assert(live0[k] < live0[k1]);
        }
    }
    let cur0 = current(st0.tokens, start, live0);
    let gen0 = st0.generation;
    let j = st0.next[i] as int;
    assert(st0.next[live0[k]] == live0[k + 1]);
    assert(pair_rank(ranks, cur0, k) == Some(entry.rank)) by {
        if !long {
            assert(live0[k] == entry.pos);
        }
    }
    lemma_popped_is_best(st0.heap, ranks, cur0, live0, gen0, n, entry, k);
    lemma_merge_all_step(ranks, cur0, k);
    lemma_unlink(st0.next, st0.prev, live0, n, k, st2.next, st2.prev);
    let live1 = st2.live;
    let cur1 = current(st2.tokens, start, live1);
    assert(cur1 =~= merge_at(cur0, k, entry.rank)) by {
        assert forall|m: int| 0 <= m < live1.len() implies cur1[m] == merge_at(
            cur0,
            k,
            entry.rank,
        )[m] by {
            if m < k {
                assert(live0[m] < live0[k]);
            } else if m > k {
                assert(live0[k] < live0[m + 1]);
            }
        }
    }
    let p = st0.prev[i];
    assert(p == (if k >= 1 {
        live0[k - 1] as u32
    } else {
        SENTINEL
    })) by {
        if k >= 1 {
            assert(st0.prev[live0[k]] == live0[k - 1]);
        }
    }
    let k2 = st0.next[j];
    assert(k2 == (if k + 2 < live0.len() {
        live0[k + 2] as u32
    } else {
        SENTINEL
    })) by {
        if k + 2 < live0.len() {
            assert(st0.next[live0[k + 1]] == live0[k + 2]);
        }
    }
    if k >= 1 {
        assert(live0[k - 1] < live0[k]);
    }
    if k + 2 < live0.len() {
        assert(live0[k] < live0[k + 2]);
    }
    let gen1 = st2.generation;
    if !long {
        assert(gen0[i] <= n - live0.len());
        if k >= 1 {
            assert(gen0[live0[k - 1]] <= n - live0.len());
        }
        assert(generations_bounded(gen1, n - live1.len()));
    }
    lemma_complete_after_merge(
        ranks,
        cur0,
        live0,
        gen0,
        st0.heap,
        entry,
        k,
        cur1,
        gen1,
        st2.heap,
        n,
    );
    if !long {
        lemma_sound_after_merge(
            ranks,
            cur0,
            live0,
            gen0,
            st0.heap,
            entry,
            k,
            cur1,
            gen1,
            st2.heap,
            n,
        );
    }
    assert(heap_in_range(st2.heap, n));
}

/// With the heap empty no live pair has a rank, so the live tokens are the
/// final result; and the list still links them.
proof fn lemma_finished(
    st: MergeState,
    ranks: Map<(u32, u32), u32>,
    start: int,
    n: int,
    long: bool,
)
    requires
        merge_inv(st, ranks, start, n, long),
        st.heap.len() == 0,
    ensures
        list_wf(st.next, st.prev, st.live, n),
        merge_all(ranks, current(st.tokens, start, st.live)) == current(
            st.tokens,
            start,
            st.live,
        ),
{
    reveal(merge_inv);
    let cur = current(st.tokens, start, st.live);
    assert forall|k: int| #[trigger] pair_rank(ranks, cur, k) is None by {
        if pair_rank(ranks, cur, k) is Some {
            let x = entry_for(ranks, cur, st.live, st.generation, k);
            assert(st.heap.count(x) > 0);
            vstd::multiset::lemma_multiset_empty_len(st.heap);
            assert(false);
        }
    }
    lemma_merge_all_fixed(ranks, cur);
}

/// The live position at index `m` is at least `m`.
proof fn lemma_live_at_least(live: Seq<int>, m: int)
    requires
        live.len() >= 1,
        live[0] == 0,
        forall|a: int, b: int| 0 <= a < b < live.len() ==> #[trigger] live[a] < #[trigger] live[b],
        0 <= m < live.len(),
    ensures
        live[m] >= m,
    decreases m,
{
    if m > 0 {
        lemma_live_at_least(live, m - 1);
        assert(live[m - 1] < live[m]);
    }
}

impl HybridSpanEncoder {
    /// The longest span, in bytes, that takes the linear sweep.
    pub closed spec fn threshold(&self) -> usize {
        self.sweep_threshold
    }

    /// The number of entries that the working buffers hold: the links and
    /// generations of the last span merged off the heap, and what is left in
    /// the heap.
    pub closed spec fn buffered(&self) -> nat {
        self.next@.len() + self.prev@.len() + self.generation@.len() + self.heap.spec_len()
    }

    /// An encoder with empty working buffers that sweeps spans of at most
    /// `SWEEP_THRESHOLD` bytes.
    pub fn new() -> (e: Self)
        ensures
            e.threshold() == SWEEP_THRESHOLD,
            e.buffered() == 0,
    {
        Self::with_threshold(SWEEP_THRESHOLD)
    }

    /// An encoder with empty working buffers that sweeps spans of at most
    /// `sweep_threshold` bytes. The threshold is a matter of speed alone.
    pub fn with_threshold(sweep_threshold: usize) -> (e: Self)
        ensures
            e.threshold() == sweep_threshold,
            e.buffered() == 0,
    {
        HybridSpanEncoder {
            sweep_threshold,
            next: Vec::new(),
            prev: Vec::new(),
            generation: Vec::new(),
            heap: MergeHeap::new(),
        }
    }

    /// Merges `tokens[start..]` in place by a linear sweep for the best pair
    /// at each step.
    pub fn sweep(vocab: &UnifiedTokenVocab, tokens: &mut Vec<u32>, start: usize)
        requires
            start <= old(tokens)@.len(),
        ensures
            final(tokens)@ == merged_in_place(vocab.pair_ranks(), old(tokens)@, start as int),
    {
        let ghost ranks = vocab.pair_ranks();
        let ghost prefix = tokens@.take(start as int);
        let ghost given = tokens@.skip(start as int);
        proof {
            assert(tokens@ =~= prefix + given);
        }
        while tokens.len() - start >= 2
            invariant
                start <= tokens@.len(),
                tokens@.take(start as int) == prefix,
                prefix == old(tokens)@.take(start as int),
                given == old(tokens)@.skip(start as int),
                ranks == vocab.pair_ranks(),
                merge_all(ranks, tokens@.skip(start as int)) == merge_all(ranks, given),
            decreases tokens@.len(),
        {
            let ghost cur = tokens@.skip(start as int);
            let mut best: Option<(u32, usize)> = None;
            let mut idx: usize = start;
            while idx + 1 < tokens.len()
                invariant
                    start <= idx < tokens@.len() <= usize::MAX,
                    cur == tokens@.skip(start as int),
                    ranks == vocab.pair_ranks(),
                    match best {
                        None => forall|j: int|
                            0 <= j < idx - start ==> #[trigger] pair_rank(ranks, cur, j) is None,
                        Some((t, at)) => start <= at < idx && pair_rank(
                            ranks,
                            cur,
                            at - start,
                        ) == Some(t) && forall|j: int|
                            0 <= j < idx - start && #[trigger] pair_rank(ranks, cur, j)
                                is Some ==> merges_before(
                                t,
                                at - start,
                                pair_rank(ranks, cur, j).unwrap(),
                                j,
                            ),
                    },
                decreases tokens@.len() - idx,
            {
                match vocab.lookup_pair(&(tokens[idx], tokens[idx + 1])) {
                    Some(t) => {
                        let better = match best {
                            None => true,
                            Some((bt, _)) => t < bt,
                        };
                        if better {
                            best = Some((t, idx));
                        }
                    },
                    None => {},
                }
                idx += 1;
            }
            match best {
                Some((t, at)) => {
                    proof {
                        assert(is_best_pair(ranks, cur, at - start));
                        lemma_merge_all_step(ranks, cur, at - start);
                    }
                    tokens[at] = t;
                    tokens.remove(at + 1);
                    proof {
                        assert(tokens@.skip(start as int) =~= merge_at(cur, at - start, t));
                        assert(tokens@.take(start as int) =~= prefix);
                    }
                },
                None => {
                    proof {
                        assert forall|j: int| #[trigger] pair_rank(ranks, cur, j) is None by {
                            if 0 <= j < idx - start {
                            }
                        }
                        lemma_merge_all_fixed(ranks, cur);
                        assert(tokens@ =~= prefix + cur);
                    }
                    return ;
                },
            }
        }
        proof {
            let cur = tokens@.skip(start as int);
            assert forall|j: int| #[trigger] pair_rank(ranks, cur, j) is None by {}
            lemma_merge_all_fixed(ranks, cur);
            assert(tokens@ =~= prefix + cur);
        }
    }

    /// Merges `tokens[start..]` in place off a min-heap of the pending
    /// pairs, with the live tokens in a doubly-linked list.
    ///
    /// Each merge pops the least entry, passes over it where its generation
    /// is not that of its position or its position has no successor left,
    /// splices the right token out and pushes the pairs with the new left and
    /// right neighbours. Where the span is longer than `GENERATION_SPAN` a
    /// counter may wrap, so there the popped rank is also held against the
    /// pair's present rank. At the end the live tokens are written out
    /// contiguously.
    ///
    /// Positions are held in 32 bits, with `SENTINEL` for the list's end. A
    /// span with `SENTINEL` tokens or more does not fit and is swept; an
    /// empty span is left as it is.
    pub fn heap_merge(&mut self, vocab: &UnifiedTokenVocab, tokens: &mut Vec<u32>, start: usize)
        requires
            start <= old(tokens)@.len(),
        ensures
            final(tokens)@ == merged_in_place(vocab.pair_ranks(), old(tokens)@, start as int),
    {
        let n: usize = tokens.len() - start;
        let ghost ranks = vocab.pair_ranks();
        let ghost prefix = tokens@.take(start as int);
        let ghost given = tokens@.skip(start as int);
        if n == 0 {
            proof {
                assert forall|j: int| #[trigger] pair_rank(ranks, given, j) is None by {}
                lemma_merge_all_fixed(ranks, given);
                assert(tokens@ =~= prefix + given);
            }
            return ;
        }
        if n >= SENTINEL as usize {
            Self::sweep(vocab, tokens, start);
            return ;
        }

        // Initialize the linked list and the generation counters.
        self.next.clear();
        self.prev.clear();
        self.generation.clear();
        let mut i: usize = 0;
        while i < n
            invariant
                i <= n,
                n < SENTINEL,
                self.next@ == initial_next(n as int).take(i as int),
                self.prev@ == initial_prev(n as int).take(i as int),
                self.generation@ == Seq::new(i as nat, |k: int| 0u8),
            decreases n - i,
        {
            self.next.push(
                if i + 1 < n {
                    (i + 1) as u32
                } else {
                    SENTINEL
                },
            );
            self.prev.push(
                if i == 0 {
                    SENTINEL
                } else {
                    (i - 1) as u32
                },
            );
            self.generation.push(0u8);
            i += 1;
            proof {
                assert(self.next@ =~= initial_next(n as int).take(i as int));
                assert(self.prev@ =~= initial_prev(n as int).take(i as int));
                assert(self.generation@ =~= Seq::new(i as nat, |k: int| 0u8));
            }
        }
        proof {
            assert(self.next@ =~= initial_next(n as int));
            assert(self.prev@ =~= initial_prev(n as int));
        }

        // Seed the heap with all adjacent pairs.
        self.heap.clear();
        let mut pos: u32 = 0;
        while self.next[pos as usize] != SENTINEL
            invariant
                pos < n,
                n < SENTINEL,
                start + n == tokens@.len(),
                tokens@.len() <= usize::MAX,
                tokens@ == old(tokens)@,
                ranks == vocab.pair_ranks(),
                self.next@ == initial_next(n as int),
                self.prev@ == initial_prev(n as int),
                self.generation@ == Seq::new(n as nat, |k: int| 0u8),
                self.heap.wf(),
                seeded(self.heap.entries(), ranks, tokens@.skip(start as int), pos as int),
            decreases n - pos,
        {
            let j = self.next[pos as usize];
            let ghost heap0 = self.heap.entries();
            match vocab.lookup_pair(&(tokens[start + pos as usize], tokens[start + j as usize])) {
                Some(rank) => {
                    self.heap.push(HeapEntry { rank, pos, generation: 0u8 });
                },
                None => {},
            }
            proof {
                lemma_seed_step(heap0, ranks, tokens@.skip(start as int), pos as int, self.heap.entries());
            }
            pos = j;
        }
        let ghost mut live: Seq<int> = Seq::new(n as nat, |k: int| k);
        let long: bool = n > GENERATION_SPAN;
        proof {
            assert(pos == n - 1);
            lemma_seeded_state(
                ranks,
                start as int,
                n as int,
                long,
                MergeState {
                    tokens: tokens@,
                    next: self.next@,
                    prev: self.prev@,
                    generation: self.generation@,
                    heap: self.heap.entries(),
                    live,
                },
            );
            assert(current(tokens@, start as int, live) =~= given);
        }

        // Merge loop.
        loop
            invariant
                1 <= n < SENTINEL,
                start + n == tokens@.len(),
                tokens@.len() <= usize::MAX,
                tokens@.take(start as int) == prefix,
                long == (n > GENERATION_SPAN),
                ranks == vocab.pair_ranks(),
                self.generation@.len() == n,
                self.next@.len() == n,
                self.prev@.len() == n,
                self.heap.wf(),
                live.len() >= 1,
                merge_all(ranks, current(tokens@, start as int, live)) == merge_all(ranks, given),
                merge_inv(
                    MergeState {
                        tokens: tokens@,
                        next: self.next@,
                        prev: self.prev@,
                        generation: self.generation@,
                        heap: self.heap.entries(),
                        live,
                    },
                    ranks,
                    start as int,
                    n as int,
                    long,
                ),
            ensures
                self.heap.spec_len() == 0,
            decreases 2 * live.len() + self.heap.spec_len(),
        {
            let ghost st0 = MergeState {
                tokens: tokens@,
                next: self.next@,
                prev: self.prev@,
                generation: self.generation@,
                heap: self.heap.entries(),
                live,
            };
            let entry = match self.heap.pop() {
                Some(e) => e,
                None => {
                    break ;
                },
            };
            let ghost st1 = MergeState { heap: self.heap.entries(), ..st0 };
            proof {
                lemma_entry_links(st0, ranks, start as int, n as int, long, entry);
            }
            let ii = entry.pos as usize;

            if entry.generation != self.generation[ii] {
                proof {
                    lemma_skip(ranks, start as int, n as int, long, st0, entry, st1);
                }
                continue ;
            }
            let j = self.next[ii];
            if j == SENTINEL {
                proof {
                    lemma_skip(ranks, start as int, n as int, long, st0, entry, st1);
                }
                continue ;
            }
            let jj = j as usize;
            if long {
                let present = vocab.lookup_pair(&(tokens[start + ii], tokens[start + jj]));
                let same = match present {
                    Some(r) => r == entry.rank,
                    None => false,
                };
                if !same {
                    proof {
                        lemma_skip(ranks, start as int, n as int, long, st0, entry, st1);
                    }
                    continue ;
                }
            }
            tokens[start + ii] = entry.rank;

            let k2 = self.next[jj];
            self.next[ii] = k2;
            if k2 != SENTINEL {
                self.prev[k2 as usize] = entry.pos;
            }
            self.next[jj] = SENTINEL;

            self.generation[ii] = self.generation[ii].wrapping_add(1);

            let p = self.prev[ii];
            if p != SENTINEL {
                let pp = p as usize;
                self.generation[pp] = self.generation[pp].wrapping_add(1);
                match vocab.lookup_pair(&(tokens[start + pp], tokens[start + ii])) {
                    Some(new_rank) => {
                        self.heap.push(
                            HeapEntry { rank: new_rank, pos: p, generation: self.generation[pp] },
                        );
                    },
                    None => {},
                }
            }
            if k2 != SENTINEL {
                match vocab.lookup_pair(&(tokens[start + ii], tokens[start + k2 as usize])) {
                    Some(new_rank) => {
                        self.heap.push(
                            HeapEntry {
                                rank: new_rank,
                                pos: entry.pos,
                                generation: self.generation[ii],
                            },
                        );
                    },
                    None => {},
                }
            }
            proof {
                live = st0.live.remove(index_of(st0.live, ii as int) + 1);
                let st2 = MergeState {
                    tokens: tokens@,
                    next: self.next@,
                    prev: self.prev@,
                    generation: self.generation@,
                    heap: self.heap.entries(),
                    live,
                };
                let m = merged_state(ranks, start as int, st0, entry);
                assert(st2.tokens =~= m.tokens);
                assert(st2.next =~= m.next);
                assert(st2.prev =~= m.prev);
                assert(st2.generation =~= m.generation);
                assert(st2.heap == m.heap);
                assert(st2 == m);
                lemma_merge(ranks, start as int, n as int, long, st0, entry);
                assert(tokens@.take(start as int) =~= prefix);
                self.heap.lemma_len();
            }
        }

        // Compact the live tokens in place by walking the linked list.
        let ghost cur = current(tokens@, start as int, live);
        proof {
            self.heap.lemma_len();
            lemma_finished(
                MergeState {
                    tokens: tokens@,
                    next: self.next@,
                    prev: self.prev@,
                    generation: self.generation@,
                    heap: self.heap.entries(),
                    live,
                },
                ranks,
                start as int,
                n as int,
                long,
            );
        }
        let mut write: usize = start;
        let mut pos: u32 = 0;
        let ghost mut m: int = 0;
        loop
            invariant_except_break
                pos == live[m],
                write == start + m,
                forall|a: int| 0 <= a < m ==> tokens@[start + a] == #[trigger] cur[a],
                forall|a: int| m <= a < live.len() ==> tokens@[start + live[a]] == #[trigger] cur[a],
            invariant
                0 <= m < live.len(),
                n < SENTINEL,
                start + n == tokens@.len(),
                tokens@.len() <= usize::MAX,
                tokens@.take(start as int) == prefix,
                list_wf(self.next@, self.prev@, live, n as int),
                cur.len() == live.len(),
            ensures
                write == start + live.len(),
                forall|a: int| 0 <= a < live.len() ==> tokens@[start + a] == #[trigger] cur[a],
            decreases live.len() - m,
        {
            proof {
                lemma_live_at_least(live, m);
            }
            let t = tokens[start + pos as usize];
            let ghost before = tokens@;
            tokens[write] = t;
            proof {
                assert(tokens@.take(start as int) =~= prefix);
                assert forall|a: int| m + 1 <= a < live.len() implies tokens@[start + live[a]]
                    == #[trigger] cur[a] by {
                    lemma_live_at_least(live, a);
                    assert(live[m] < live[a]);
                    assert(before[start + live[a]] == cur[a]);
                }
            }
            write += 1;
            let nxt = self.next[pos as usize];
            if nxt == SENTINEL {
                proof {
                    if m < live.len() - 1 {
                        assert(self.next@[live[m]] == live[m + 1]);
                    }
                }
                break ;
            }
            proof {
                if m == live.len() - 1 {
                    assert(false);
                }
                assert(self.next@[live[m]] == live[m + 1]);
                m = m + 1;
            }
            pos = nxt;
        }
        tokens.truncate(write);
        proof {
            assert(tokens@ =~= prefix + cur);
        }
    }
}

/// The sweep and the heap merge leave the same tokens of every vector:
/// `swept` is what the sweep leaves of `tokens` merged from `start` on,
/// `heaped` what the heap merge leaves of it.
pub proof fn lemma_heap_merge_is_sweep(
    vocab: &UnifiedTokenVocab,
    tokens: Seq<u32>,
    start: int,
    swept: Seq<u32>,
    heaped: Seq<u32>,
)
    requires
        0 <= start <= tokens.len(),
        swept == merged_in_place(vocab.pair_ranks(), tokens, start),
        heaped == merged_in_place(vocab.pair_ranks(), tokens, start),
    ensures
        swept == heaped,
        swept.take(start) == tokens.take(start),
        !has_ranked_pair(vocab.pair_ranks(), swept.skip(start)),
{
    let merged = merge_all(vocab.pair_ranks(), tokens.skip(start));
    assert(swept.take(start) =~= tokens.take(start));
    assert(swept.skip(start) =~= merged);
    lemma_merge_all_stops(vocab.pair_ranks(), tokens.skip(start));
}

impl Default for HybridSpanEncoder {
    fn default() -> (e: Self)
        ensures
            e.threshold() == SWEEP_THRESHOLD,
    {
        HybridSpanEncoder::new()
    }
}

impl SpanEncoder for HybridSpanEncoder {
    /// Appends the tokens of `span` to `tokens`: by the sweep where the span
    /// is no longer than the encoder's threshold, else off the heap.
    fn encode_append_compound_span(
        &mut self,
        vocab: &UnifiedTokenVocab,
        span: &[u8],
        tokens: &mut Vec<u32>,
    ) {
        let start = tokens.len();
        vocab.byte_vocab().append_tokens(span, tokens);
        proof {
            let seeded = byte_tokens(vocab.byte_table(), span@);
            assert(tokens@.take(start as int) =~= old(tokens)@);
            assert(tokens@.skip(start as int) =~= seeded);
        }
        let n = tokens.len() - start;
        if n <= 1 {
            proof {
                let seeded = byte_tokens(vocab.byte_table(), span@);
                assert forall|j: int| #[trigger]
                    pair_rank(vocab.pair_ranks(), seeded, j) is None by {}
                lemma_merge_all_fixed(vocab.pair_ranks(), seeded);
            }
            return ;
        }
        if n <= self.sweep_threshold {
            Self::sweep(vocab, tokens, start);
        } else {
            self.heap_merge(vocab, tokens, start);
        }
    }
}

} // verus!
