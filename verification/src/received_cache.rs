//! For each origin, the nodes that delivered its messages and their scores.

use vstd::prelude::*;
use lru::LruCache;
use crate::key_map::PubkeyMap;

verus! {

/// The outside least-recently-used cache that holds the entries.
#[verifier::external_type_specification]
#[verifier::external_body]
#[verifier::reject_recursive_types(K)]
#[verifier::reject_recursive_types(V)]
#[verifier::reject_recursive_types(S)]
pub struct ExLruCache<K, V, S>(LruCache<K, V, S>);

/// The hasher that the cache uses by default.
#[verifier::external_type_specification]
#[verifier::external_body]
pub struct ExLruHasher(lru::DefaultHasher);

/// The origins that a cache holds entries for.
pub uninterp spec fn lru_origins(c: LruCache<[u8; 32], ReceivedCacheEntry>) -> Set<[u8; 32]>;

/// The number of origins a cache holds at most.
pub uninterp spec fn lru_capacity(c: LruCache<[u8; 32], ReceivedCacheEntry>) -> nat;

/// Calls `LruCache::new` with `capacity` (not zero): the cache is empty and holds at
/// most `capacity` entries.
#[verifier::external_body]
fn lru_new(capacity: usize) -> (c: LruCache<[u8; 32], ReceivedCacheEntry>)
    requires
        capacity > 0,
    ensures
        lru_origins(c) == Set::<[u8; 32]>::empty(),
        lru_capacity(c) == capacity,
{
    LruCache::new(std::num::NonZeroUsize::new(capacity).unwrap())
}

/// The nodes that delivered messages of one origin, with their scores.
pub struct ReceivedCacheEntry {
    nodes: PubkeyMap<usize>,
    num_upserts: usize,
}

impl ReceivedCacheEntry {
    /// An entry with no node.
    pub fn new() -> (e: Self)
        ensures
            e.nodes().wf(),
            e.nodes()@ == Map::<crate::pubkey::Pubkey, usize>::empty(),
            e.num_upserts() == 0,
    {
        ReceivedCacheEntry { nodes: PubkeyMap::new(), num_upserts: 0 }
    }

    /// The scores of the nodes.
    pub closed spec fn nodes(self) -> PubkeyMap<usize> {
        self.nodes
    }

    /// The number of updates recorded.
    pub closed spec fn num_upserts(self) -> usize {
        self.num_upserts
    }
}

/// For each origin, which nodes delivered its messages and their scores.
pub struct ReceivedCache(LruCache<[u8; 32], ReceivedCacheEntry>);

impl ReceivedCache {
    /// The origins held.
    pub closed spec fn origins(self) -> Set<[u8; 32]> {
        lru_origins(self.0)
    }

    /// The number of origins held at most.
    pub closed spec fn capacity(self) -> nat {
        lru_capacity(self.0)
    }

    /// An empty cache that holds at most `capacity` origins.
    pub fn new(capacity: usize) -> (c: Self)
        requires
            capacity > 0,
        ensures
            c.origins() == Set::<[u8; 32]>::empty(),
            c.capacity() == capacity,
    {
        ReceivedCache(lru_new(capacity))
    }
}

} // verus!
