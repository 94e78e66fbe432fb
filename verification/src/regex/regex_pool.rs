//! A pool of clones of one compiled pattern.
//!
//! Under some loads the scratch space inside a compiled pattern is
//! contended. The pool mitigates that: it hands out its clones in turn.

use crate::regex::regex_supplier::RegexSupplier;
use crate::regex::regex_wrapper::RegexWrapper;
use core::sync::atomic::AtomicUsize;
use core::sync::atomic::Ordering;
use vstd::prelude::*;

verus! {

/// A pool of clones of one compiled pattern, handed out in turn by a
/// counter.
#[derive(Debug)]
pub struct RegexWrapperPool {
    pool: Vec<RegexWrapper>,
    counter: AtomicUsize,
}

impl RegexWrapperPool {
    #[verifier::type_invariant]
    spec fn same_pattern(self) -> bool {
        &&& self.pool@.len() > 0
        &&& forall|i: int|
            0 <= i < self.pool@.len() ==> (#[trigger] self.pool@[i]).pattern()
                == self.pool@[0].pattern()
    }

    /// The pattern text of the pooled pattern.
    pub closed spec fn pooled_pattern(&self) -> Seq<char> {
        self.pool@[0].pattern()
    }

    /// The number of clones.
    pub closed spec fn spec_len(&self) -> nat {
        self.pool@.len()
    }

    /// A pool of `size` clones of `regex`; of one where `size` is 0.
    pub fn new(regex: RegexWrapper, size: usize) -> (p: Self)
        ensures
            p.pooled_pattern() == regex.pattern(),
            size == 0 ==> p.spec_len() == 1,
            size > 0 ==> p.spec_len() == size,
    {
        let mut pool: Vec<RegexWrapper> = Vec::new();
        let mut i: usize = 1;
        while i < size
            invariant
                1 <= i,
                i <= size || i == 1,
                pool@.len() + 1 == i,
                forall|k: int| 0 <= k < pool@.len() ==> (#[trigger] pool@[k]).pattern()
                    == regex.pattern(),
            decreases size - i,
        {
            pool.push(regex.clone());
            i += 1;
        }
        pool.push(regex);
        RegexWrapperPool { pool, counter: AtomicUsize::new(0) }
    }

    /// The clones of the pool. The counter is no part of them: no call
    /// changes the clones, whatever it does to the counter.
    pub closed spec fn slots(&self) -> Seq<RegexWrapper> {
        self.pool@
    }

    /// `re` is one of the pool's clones.
    pub open spec fn is_slot(&self, re: &RegexWrapper) -> bool {
        exists|i: int| 0 <= i < self.slots().len() && *re == #[trigger] self.slots()[i]
    }

    /// The clone at an index of the pool is one of the pool's clones.
    pub proof fn lemma_slot(&self, i: usize)
        requires
            i < self.slots().len(),
        ensures
            self.is_slot(&self.slots()[i as int]),
    {
    }

    /// The clone for the caller whose thread hashes to `thread_hash`: the
    /// same clone for the same thread, whoever else asks.
    pub fn get_regex_for(&self, thread_hash: usize) -> (re: &RegexWrapper)
        ensures
            self.slots().len() > 0,
            *re == self.slots()[thread_hash as int % self.slots().len() as int],
            self.is_slot(re),
            re.pattern() == self.pooled_pattern(),
    {
        proof {
            use_type_invariant(self);
        }
        let idx = thread_hash % self.pool.len();
        proof {
            self.lemma_slot(idx);
        }
        &self.pool[idx]
    }

    /// The number of clones in the pool.
    pub fn len(&self) -> (n: usize)
        ensures
            n == self.spec_len(),
            n > 0,
    {
        proof {
            use_type_invariant(self);
        }
        self.pool.len()
    }
}

impl RegexSupplier for RegexWrapperPool {
    open spec fn supplied_pattern(&self) -> Seq<char> {
        self.pooled_pattern()
    }

    /// The next clone in turn: one of the pool's clones, whatever the
    /// counter holds. The pool itself stays as it is.
    fn get_regex(&self) -> (re: &RegexWrapper)
        ensures
            self.is_slot(re),
    {
        proof {
            use_type_invariant(self);
        }
        let id = self.counter.fetch_add(1, Ordering::Relaxed);
        let idx = id % self.pool.len();
        proof {
            self.lemma_slot(idx);
        }
        &self.pool[idx]
    }

    fn get_pattern(&self) -> (p: String) {
        proof {
            use_type_invariant(self);
        }
        self.pool[0].as_str().to_owned()
    }
}

impl Clone for RegexWrapperPool {
    fn clone(&self) -> (p: Self)
        ensures
            p.pooled_pattern() == self.pooled_pattern(),
            p.spec_len() == self.spec_len(),
    {
        proof {
            use_type_invariant(self);
        }
        let mut pool: Vec<RegexWrapper> = Vec::new();
        let mut i: usize = 0;
        while i < self.pool.len()
            invariant
                i <= self.pool@.len(),
                pool@.len() == i,
                self.pool@.len() > 0,
                forall|k: int|
                    0 <= k < self.pool@.len() ==> (#[trigger] self.pool@[k]).pattern()
                        == self.pool@[0].pattern(),
                forall|k: int| 0 <= k < pool@.len() ==> (#[trigger] pool@[k]).pattern()
                    == self.pool@[0].pattern(),
            decreases self.pool@.len() - i,
        {
            pool.push(self.pool[i].clone());
            i += 1;
        }
        RegexWrapperPool { pool, counter: AtomicUsize::new(0) }
    }
}

} // verus!
