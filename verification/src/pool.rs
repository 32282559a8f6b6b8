//! The pool of sounding grains: a thin layer over `slab::Slab`.
//!
//! A grain keeps its key for as long as it is in the pool. Which vacant key a
//! new grain gets is the pool's own business and nothing here depends on it.
use crate::fof::FofState;
use vstd::prelude::*;

verus! {

#[verifier::external_type_specification]
#[verifier::external_body]
#[verifier::reject_recursive_types(T)]
pub struct ExSlab<T>(slab::Slab<T>);

/// The grains in the pool, by key.
pub uninterp spec fn pool_grains(pool: slab::Slab<FofState>) -> Map<usize, FofState>;

/// `slab::Slab::with_capacity`: an empty pool. Room for the given number of
/// grains is allocated here, so a capacity whose bytes (at most 128 for each
/// entry) exceed what an allocation may hold is left out: it panics.
#[verifier::external_body]
pub(crate) fn pool_new(capacity: usize) -> (pool: slab::Slab<FofState>)
    requires
        capacity * 128 <= isize::MAX,
    ensures
        pool_grains(pool) == (Map::<usize, FofState>::empty()),
{
    slab::Slab::with_capacity(capacity)
}

/// `slab::Slab::insert`: the grain is in the pool under a key that was vacant;
/// every other grain is where it was. Which vacant key it is, is not said.
#[verifier::external_body]
pub(crate) fn pool_insert(pool: &mut slab::Slab<FofState>, grain: FofState) -> (key: usize)
    ensures
        !pool_grains(*old(pool)).contains_key(key),
        pool_grains(*final(pool)) == pool_grains(*old(pool)).insert(key, grain),
{
    pool.insert(grain)
}

/// `slab::Slab`'s `Index::index`: the grain under an occupied key. A vacant
/// key panics and is left out.
#[verifier::external_body]
pub(crate) fn pool_get(pool: &slab::Slab<FofState>, key: usize) -> (grain: FofState)
    requires
        pool_grains(*pool).contains_key(key),
    ensures
        grain == pool_grains(*pool)[key],
{
    pool[key]
}

/// `slab::Slab`'s `IndexMut::index_mut`: replaces the grain under an occupied
/// key; every other grain is where it was. A vacant key panics and is left
/// out.
#[verifier::external_body]
pub(crate) fn pool_set(pool: &mut slab::Slab<FofState>, key: usize, grain: FofState)
    requires
        pool_grains(*old(pool)).contains_key(key),
    ensures
        pool_grains(*final(pool)) == pool_grains(*old(pool)).insert(key, grain),
{
    pool[key] = grain;
}

/// `slab::Slab::remove`: takes the grain under an occupied key out of the
/// pool; every other grain is where it was. A vacant key panics and is left
/// out.
#[verifier::external_body]
pub(crate) fn pool_remove(pool: &mut slab::Slab<FofState>, key: usize) -> (grain: FofState)
    requires
        pool_grains(*old(pool)).contains_key(key),
    ensures
        grain == pool_grains(*old(pool))[key],
        pool_grains(*final(pool)) == pool_grains(*old(pool)).remove(key),
{
    pool.remove(key)
}

/// `slab::Slab::len`: how many grains are in the pool.
#[verifier::external_body]
pub(crate) fn pool_len(pool: &slab::Slab<FofState>) -> (n: usize)
    ensures
        n == pool_grains(*pool).dom().len(),
{
    pool.len()
}

/// `slab::Slab::iter`: the keys of all grains in the pool, each once, from the
/// smallest to the largest, go into a list that is empty.
#[verifier::external_body]
fn pool_append_keys(pool: &slab::Slab<FofState>, keys: &mut Vec<usize>)
    requires
        old(keys)@.len() == 0,
    ensures
        forall|i: int, j: int| 0 <= i < j < final(keys)@.len() ==> final(keys)@[i] < final(keys)@[j],
        forall|key: usize|
            final(keys)@.contains(key) <==> pool_grains(*pool).contains_key(key),
{
    keys.extend(pool.iter().map(|(key, _)| key));
}

/// Put the keys of all grains in the pool, each once, from the smallest to the
/// largest, in `keys`, in place of what it held.
pub(crate) fn pool_keys(pool: &slab::Slab<FofState>, keys: &mut Vec<usize>)
    ensures
        forall|i: int, j: int| 0 <= i < j < final(keys)@.len() ==> final(keys)@[i] < final(keys)@[j],
        forall|key: usize|
            final(keys)@.contains(key) <==> pool_grains(*pool).contains_key(key),
{
    keys.clear();
    pool_append_keys(pool, keys);
}

} // verus!
