//! A fixed pool of clones of one item, indexed by a hash of the caller's
//! thread.

use vstd::prelude::*;

verus! {

/// The size of a pool for `max_pool` slots asked for on a system that runs
/// `sys_max` threads at once: what was asked for, but no more than the
/// system runs.
pub open spec fn pool_size(max_pool: Option<usize>, sys_max: usize) -> usize {
    match max_pool {
        Some(n) => if n < sys_max {
            n
        } else {
            sys_max
        },
        None => sys_max,
    }
}

/// A pool of clones of one item. A caller takes the slot that the hash of
/// its thread gives, so callers on different threads mostly work on
/// different clones.
#[derive(Debug)]
pub struct PoolToy<T: Clone> {
    pool: Vec<T>,
}

impl<T: Clone> PoolToy<T> {
    #[verifier::type_invariant]
    spec fn not_empty(self) -> bool {
        self.pool@.len() > 0
    }

    /// The slots.
    pub closed spec fn slots(&self) -> Seq<T> {
        self.pool@
    }

    /// A pool over the items of `pool`, which is not empty.
    pub fn new(pool: Vec<T>) -> (p: Self)
        requires
            pool@.len() > 0,
        ensures
            p.slots() == pool@,
    {
        PoolToy { pool }
    }

    /// A pool of clones of `item`: `max_pool` of them, or as many as the
    /// system runs threads at once, `sys_max`, where that is less or no
    /// number is given.
    pub fn init(item: T, max_pool: Option<usize>, sys_max: usize) -> (p: Self)
        requires
            sys_max > 0,
            max_pool != Some(0usize),
        ensures
            p.slots().len() == pool_size(max_pool, sys_max),
            forall|i: int| 0 <= i < p.slots().len() ==> cloned(item, #[trigger] p.slots()[i]),
    {
        let max_pool = match max_pool {
            Some(n) => n,
            None => sys_max,
        };
        let max_pool = if max_pool < sys_max {
            max_pool
        } else {
            sys_max
        };
        Self::new(vec![item; max_pool])
    }

    /// The item for the caller whose thread hashes to `thread_hash`.
    pub fn get(&self, thread_hash: usize) -> (item: &T)
        ensures
            self.slots().len() > 0,
            *item == self.slots()[thread_hash as int % self.slots().len() as int],
    {
        proof {
            use_type_invariant(self);
        }
        &self.pool[thread_hash % self.pool.len()]
    }

    /// The number of slots.
    pub fn len(&self) -> (n: usize)
        ensures
            n == self.slots().len(),
            n > 0,
    {
        proof {
            use_type_invariant(self);
        }
        self.pool.len()
    }
}

impl<T: Clone> Clone for PoolToy<T> {
    fn clone(&self) -> (p: Self)
        ensures
            p.slots().len() == self.slots().len(),
            forall|i: int|
                0 <= i < p.slots().len() ==> cloned(self.slots()[i], #[trigger] p.slots()[i]),
    {
        proof {
            use_type_invariant(self);
        }
        PoolToy { pool: self.pool.clone() }
    }
}

} // verus!
