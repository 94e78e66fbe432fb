//! Pools of cloned resources, one slot per caller.

pub mod pool_toy;
