//! The hash map behind the spatial grid.
//!
//! The buckets live in `bevy::utils::HashMap`, which is hashbrown's map with
//! a randomly seeded hasher. Nothing in this file is proved: each function
//! is a single call into that map, and its contract restates the map's
//! documentation over [`buckets`].

use vstd::prelude::*;

verus! {

/// `bevy::utils::HashMap<(i32, i32), Vec<usize>>`. Its allocator parameter
/// is bounded by a trait that hashbrown keeps private, so the map is held in
/// a field that the verifier does not look into.
#[verifier::external_body]
pub struct CellMap {
    inner: bevy::utils::HashMap<(i32, i32), Vec<usize>>,
}

/// What a map holds: each key with the items of its vector, in order.
pub uninterp spec fn buckets(m: CellMap) -> Map<(i32, i32), Seq<usize>>;

/// `HashMap::new`: a map with no entries.
#[verifier::external_body]
pub(crate) fn cell_map_new() -> (m: CellMap)
    ensures
        buckets(m) == (Map::<(i32, i32), Seq<usize>>::empty()),
{
    CellMap { inner: bevy::utils::HashMap::new() }
}

/// `HashMap::insert`: the map then holds `bucket` under `cell`, in place of
/// what it may have held there, and every other entry is as before.
#[verifier::external_body]
pub(crate) fn cell_map_insert(m: &mut CellMap, cell: (i32, i32), bucket: Vec<usize>)
    ensures
        buckets(*final(m)) == buckets(*old(m)).insert(cell, bucket@),
{
    m.inner.insert(cell, bucket);
}

/// `HashMap::remove`: hands out the vector held under `cell`, if there is
/// one, and the map then has no entry for `cell`; every other entry is as
/// before.
#[verifier::external_body]
pub(crate) fn cell_map_remove(m: &mut CellMap, cell: (i32, i32)) -> (r: Option<Vec<usize>>)
    ensures
        buckets(*final(m)) == buckets(*old(m)).remove(cell),
        r.is_some() == buckets(*old(m)).contains_key(cell),
        r.is_some() ==> r.unwrap()@ == buckets(*old(m))[cell],
{
    m.inner.remove(&cell)
}

/// `HashMap::get`: the vector held under `cell`, if there is one.
#[verifier::external_body]
pub(crate) fn cell_map_get(m: &CellMap, cell: (i32, i32)) -> (r: Option<&Vec<usize>>)
    ensures
        r.is_some() == buckets(*m).contains_key(cell),
        r.is_some() ==> r.unwrap()@ == buckets(*m)[cell],
{
    m.inner.get(&cell)
}

/// `HashMap::keys`, collected: every key of the map once. The order is the
/// one in which the map walks its table, of which nothing is known.
#[verifier::external_body]
pub(crate) fn cell_map_keys(m: &CellMap) -> (r: Vec<(i32, i32)>)
    ensures
        r@.no_duplicates(),
        r@.to_set() == buckets(*m).dom(),
{
    m.inner.keys().copied().collect()
}

} // verus!
