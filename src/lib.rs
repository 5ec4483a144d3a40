//! Core of a weight-bounded in-memory cache with a CLOCK-PRO style eviction policy.
use vstd::prelude::*;

pub mod index;
pub mod shard;
pub mod ring;

verus! {

/// Computes the weight (cost) of an entry. The weight must be a pure function of its
/// arguments: the cache records it when the entry is admitted.
pub trait Weighter<Key, Ver, Val> {
    spec fn spec_weight(&self, key: &Key, version: &Ver, val: &Val) -> u32;

    fn weight(&self, key: &Key, version: &Ver, val: &Val) -> (r: u32)
        ensures
            r == self.spec_weight(key, version, val),
    ;
}

/// Gives every entry the weight 1, so that the capacity counts entries.
#[derive(Debug, Clone)]
pub struct UnitWeighter;

impl<Key, Ver, Val> Weighter<Key, Ver, Val> for UnitWeighter {
    open spec fn spec_weight(&self, key: &Key, version: &Ver, val: &Val) -> u32 {
        1
    }

    fn weight(&self, _key: &Key, _ver: &Ver, _val: &Val) -> (r: u32) {
        1
    }
}

} // verus!
