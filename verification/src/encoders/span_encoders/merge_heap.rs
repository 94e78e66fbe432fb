//! A binary min-heap of pending merges.

use vstd::multiset::Multiset;
use vstd::prelude::*;

verus! {

/// A pending merge: the rank of a pair, the position of its left token, and
/// the generation of that position when the entry was made.
#[derive(Clone, Copy, Debug, PartialEq, Eq, Structural)]
pub struct HeapEntry {
    /// The pair's rank, which is also the merged token.
    pub rank: u32,
    /// The position of the pair's left token.
    pub pos: u32,
    /// The generation of `pos` at the time of the push.
    pub generation: u8,
}

impl HeapEntry {
    /// `self` leaves the heap no later than `other`: by rank, then by
    /// position, then by generation.
    pub open spec fn precedes(self, other: HeapEntry) -> bool {
        self.rank < other.rank || (self.rank == other.rank && (self.pos < other.pos || (self.pos
            == other.pos && self.generation <= other.generation)))
    }

    /// Whether `self` leaves the heap no later than `other`.
    pub fn is_before(&self, other: &HeapEntry) -> (r: bool)
        ensures
            r == self.precedes(*other),
    {
        self.rank < other.rank || (self.rank == other.rank && (self.pos < other.pos || (self.pos
            == other.pos && self.generation <= other.generation)))
    }
}

/// The parent's place of place `i` in the heap's array.
spec fn parent(i: int) -> int {
    (i - 1) / 2
}

/// Every place of `items` but the root holds an entry that its parent
/// precedes, except perhaps place `hole`.
spec fn heap_but(items: Seq<HeapEntry>, hole: int) -> bool {
    forall|i: int| 1 <= i < items.len() && i != hole ==> (#[trigger] items[parent(i)]).precedes(items[i])
}

/// A binary min-heap of pending merges, in a vector.
pub struct MergeHeap {
    items: Vec<HeapEntry>,
}

impl MergeHeap {
    /// The entries that the heap holds.
    pub closed spec fn entries(&self) -> Multiset<HeapEntry> {
        self.items@.to_multiset()
    }

    /// The heap's array is heap-ordered.
    pub closed spec fn wf(&self) -> bool {
        heap_but(self.items@, 0)
    }

    /// The number of entries.
    pub closed spec fn spec_len(&self) -> nat {
        self.items@.len()
    }

    /// The number of entries is the size of what the heap holds.
    pub proof fn lemma_len(&self)
        ensures
            self.spec_len() == self.entries().len(),
    {
        broadcast use vstd::seq_lib::to_multiset_len;

    }

    /// An empty heap.
    pub fn new() -> (h: Self)
        ensures
            h.wf(),
            h.entries() == Multiset::<HeapEntry>::empty(),
            h.spec_len() == 0,
    {
        let h = MergeHeap { items: Vec::new() };
        proof {
            h.items@.to_multiset_ensures();
            assert(h.entries() =~= Multiset::<HeapEntry>::empty());
        }
        h
    }

    /// The number of entries.
    pub fn len(&self) -> (n: usize)
        ensures
            n == self.spec_len(),
    {
        self.items.len()
    }

    /// Removes every entry.
    pub fn clear(&mut self)
        ensures
            final(self).wf(),
            final(self).entries() == Multiset::<HeapEntry>::empty(),
            final(self).spec_len() == 0,
    {
        self.items.clear();
        proof {
            self.items@.to_multiset_ensures();
            assert(self.entries() =~= Multiset::<HeapEntry>::empty());
        }
    }

    /// Adds `entry`.
    pub fn push(&mut self, entry: HeapEntry)
        requires
            old(self).wf(),
        ensures
            final(self).wf(),
            final(self).entries() == old(self).entries().insert(entry),
            final(self).spec_len() == old(self).spec_len() + 1,
    {
        broadcast use vstd::seq_lib::to_multiset_build;

        self.items.push(entry);
        let ghost target = self.items@.to_multiset();
        let mut k: usize = self.items.len() - 1;
        while k > 0
            invariant
                k < self.items@.len(),
                self.items@.len() == old(self).items@.len() + 1,
                self.items@.to_multiset() == target,
                target == old(self).items@.to_multiset().insert(entry),
                heap_but(self.items@, k as int),
                forall|c: int|
                    1 <= c < self.items@.len() && parent(c) == k && k > 0 ==> (
                    #[trigger] self.items@[parent(k as int)]).precedes(self.items@[c]),
            decreases k,
        {
            let p: usize = (k - 1) / 2;
            if self.items[p].is_before(&self.items[k]) {
                assert(heap_but(self.items@, 0)) by {
                    assert forall|i: int| 1 <= i < self.items@.len() implies (
                    #[trigger] self.items@[parent(i)]).precedes(self.items@[i]) by {
                        if i == k {
                        }
                    }
                }
                return ;
            }
            let ghost before = self.items@;
            let a = self.items[p];
            let b = self.items[k];
            self.items[p] = b;
            self.items[k] = a;
            proof {
                lemma_swap_multiset(before, p as int, k as int);
                assert(self.items@ =~= before.update(p as int, before[k as int]).update(
                    k as int,
                    before[p as int],
                ));
                assert forall|i: int|
                    1 <= i < self.items@.len() && i != p implies (
                #[trigger] self.items@[parent(i)]).precedes(self.items@[i]) by {
                    if i == k {
                    } else if parent(i) == k {
                        assert(before[parent(k as int)].precedes(before[i]));
                    } else if parent(i) == p {
                        assert(before[parent(i)].precedes(before[i]));
                    } else {
                        assert(before[parent(i)].precedes(before[i]));
                    }
                }
                assert forall|c: int|
                    1 <= c < self.items@.len() && parent(c) == p && p > 0 implies (
                #[trigger] self.items@[parent(p as int)]).precedes(self.items@[c]) by {
                    assert(before[parent(p as int)].precedes(before[p as int]));
                    if c == k {
                    } else {
                        assert(before[parent(c)].precedes(before[c]));
                    }
                }
            }
            k = p;
        }
    }

    /// Removes and returns an entry that precedes every entry of the heap,
    /// or returns `None` where the heap is empty.
    pub fn pop(&mut self) -> (r: Option<HeapEntry>)
        requires
            old(self).wf(),
        ensures
            final(self).wf(),
            r is None <==> old(self).spec_len() == 0,
            r is None ==> final(self).entries() == old(self).entries() && final(self).spec_len()
                == 0,
            r matches Some(e) ==> old(self).entries().count(e) > 0 && final(self).entries() == old(
                self,
            ).entries().remove(e) && final(self).spec_len() + 1 == old(self).spec_len()
                && forall|x: HeapEntry| old(self).entries().count(x) > 0 ==> e.precedes(x),
    {
        broadcast use vstd::seq_lib::to_multiset_build;
        broadcast use vstd::seq_lib::to_multiset_contains;

        let n = self.items.len();
        if n == 0 {
            return None;
        }
        let ghost start = self.items@;
        let top = self.items[0];
        proof {
            assert forall|x: HeapEntry| start.to_multiset().count(x) > 0 implies top.precedes(
                x,
            ) by {
                let i = choose|i: int| 0 <= i < start.len() && start[i] == x;
                lemma_root_precedes(start, i);
            }
            assert(start.contains(top));
        }
        let last = self.items.pop().unwrap();
        proof {
            assert(start =~= self.items@.push(last));
        }
        if n == 1 {
            proof {
                assert(self.items@.to_multiset().insert(last).remove(last)
                    =~= self.items@.to_multiset());
            }
            return Some(top);
        }
        let ghost popped = self.items@;
        self.items[0] = last;
        let ghost target = self.items@.to_multiset();
        proof {
            vstd::seq_lib::to_multiset_update(popped, 0, last);
            assert(target =~= start.to_multiset().remove(top));
        }
        let m: usize = n - 1;
        let mut k: usize = 0;
        loop
            invariant
                m == self.items@.len(),
                k < m,
                self.items@.to_multiset() == target,
                forall|i: int|
                    1 <= i < m && parent(i) != k ==> (#[trigger] self.items@[parent(i)]).precedes(
                        self.items@[i],
                    ),
                forall|c: int|
                    1 <= c < m && parent(c) == k && k > 0 ==> (
                    #[trigger] self.items@[parent(k as int)]).precedes(self.items@[c]),
            ensures
                heap_but(self.items@, 0),
                self.items@.to_multiset() == target,
                m == self.items@.len(),
            decreases m - k,
        {
            if k >= m / 2 {
                assert forall|i: int| 1 <= i < m implies (#[trigger] self.items@[parent(
                    i,
                )]).precedes(self.items@[i]) by {
                    assert(parent(i) != k);
                }
                break ;
            }
            let left: usize = 2 * k + 1;
            let right: usize = left + 1;
            let mut least: usize = left;
            if right < m && !self.items[left].is_before(&self.items[right]) {
                least = right;
            }
            if self.items[k].is_before(&self.items[least]) {
                assert forall|i: int| 1 <= i < m implies (#[trigger] self.items@[parent(
                    i,
                )]).precedes(self.items@[i]) by {
                    if parent(i) == k {
                        assert(i == left || i == right);
                    }
                }
                break ;
            }
            let ghost before = self.items@;
            let a = self.items[k];
            let b = self.items[least];
            self.items[k] = b;
            self.items[least] = a;
            proof {
                lemma_swap_multiset(before, k as int, least as int);
                assert(self.items@ =~= before.update(k as int, before[least as int]).update(
                    least as int,
                    before[k as int],
                ));
                assert forall|i: int| 1 <= i < m && parent(i) != least implies (
                #[trigger] self.items@[parent(i)]).precedes(self.items@[i]) by {
                    if parent(i) == k {
                        assert(i == left || i == right);
                    } else if i == k {
                        assert(parent(least as int) == k);
                        assert(before[parent(k as int)].precedes(before[least as int]));
                    } else {
                        assert(before[parent(i)].precedes(before[i]));
                    }
                }
                assert forall|c: int| 1 <= c < m && parent(c) == least implies (
                #[trigger] self.items@[parent(least as int)]).precedes(self.items@[c]) by {
                    assert(parent(c) != k);
                    assert(before[parent(c)].precedes(before[c]));
                }
            }
            k = least;
        }
        Some(top)
    }
}

/// Exchanging two places of a sequence keeps what it holds.
proof fn lemma_swap_multiset(s: Seq<HeapEntry>, i: int, j: int)
    requires
        0 <= i < s.len(),
        0 <= j < s.len(),
    ensures
        s.update(i, s[j]).update(j, s[i]).to_multiset() == s.to_multiset(),
{
    broadcast use vstd::seq_lib::to_multiset_contains;

    vstd::seq_lib::to_multiset_update(s, i, s[j]);
    vstd::seq_lib::to_multiset_update(s.update(i, s[j]), j, s[i]);
    assert(s.contains(s[i]));
    assert(s.contains(s[j]));
    assert(s.update(i, s[j]).update(j, s[i]).to_multiset() =~= s.to_multiset());
}

/// In a heap-ordered array the root precedes every entry.
proof fn lemma_root_precedes(items: Seq<HeapEntry>, i: int)
    requires
        heap_but(items, 0),
        0 <= i < items.len(),
    ensures
        items[0].precedes(items[i]),
    decreases i,
{
    if i > 0 {
        lemma_root_precedes(items, parent(i));
        assert(items[parent(i)].precedes(items[i]));
    }
}

} // verus!
