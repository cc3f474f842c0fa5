//! The shared block cache.
use crate::block::Block;
use std::sync::Arc;
use vstd::prelude::*;

verus! {

/// Declares moka's `sync::Cache`, held opaque.
#[verifier::external_type_specification]
#[verifier::external_body]
#[verifier::reject_recursive_types(K)]
#[verifier::reject_recursive_types(V)]
#[verifier::reject_recursive_types(S)]
pub struct ExCache<K, V, S>(moka::sync::Cache<K, V, S>);

/// A bounded, thread-safe map from (table id, block index) to blocks.
pub type BlockCache = moka::sync::Cache<(usize, usize), Arc<Block>>;

/// Relies on moka's `Cache::get`: the block cached under the key, if any.
/// Which blocks remain cached is up to the cache's eviction, so nothing is
/// stated of the result.
#[verifier::external_body]
pub(crate) fn cache_get(cache: &BlockCache, sst_id: usize, block_idx: usize) -> Option<Arc<Block>> {
    cache.get(&(sst_id, block_idx))
}

/// Relies on moka's `Cache::insert`: caches a handle to `block`.
#[verifier::external_body]
pub(crate) fn cache_insert(cache: &BlockCache, sst_id: usize, block_idx: usize, block: &Arc<Block>) {
    cache.insert((sst_id, block_idx), Arc::clone(block))
}

} // verus!
