//! The cache of one branch, with the time of its creation.

use crate::cache::{Cache, EventModel};
use crate::datum::Datum;
use vstd::prelude::*;

verus! {

/// The cache of one branch.
#[derive(Clone, Debug)]
pub struct CacheBranch {
    pub cache: Cache<Datum>,
    /// When the cache was created, in milliseconds since the epoch.
    pub create_at: u128,
}

impl CacheBranch {
    /// An empty cache for `total_cache_items` entries that records its
    /// changes, created at `create_at`.
    pub fn new(total_cache_items: usize, create_at: u128) -> (b: Self)
        requires
            total_cache_items >= 1,
        ensures
            b.cache.wf(),
            b.cache@.entries.len() == 0,
            b.cache@.capacity == total_cache_items,
            b.cache@.events == Some(Seq::<EventModel<Datum>>::empty()),
            b.create_at == create_at,
    {
        CacheBranch { cache: Cache::with_events(total_cache_items), create_at }
    }

    /// The cache.
    pub fn get_data(&self) -> (c: &Cache<Datum>)
        ensures
            *c == self.cache,
    {
        &self.cache
    }

    /// When the cache was created.
    pub fn get_create_at(&self) -> (t: u128)
        ensures
            t == self.create_at,
    {
        self.create_at
    }
}

} // verus!
