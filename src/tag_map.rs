use vstd::prelude::*;

verus! {

/// A map from component type tags to positions in the spawner's list of queries,
/// kept in a hashbrown map.
#[verifier::external_body]
pub struct TagMap {
    inner: hashbrown::HashMap<u64, usize>,
}

/// What a tag map holds.
pub uninterp spec fn tag_map_contents(m: TagMap) -> Map<u64, usize>;

/// Relies on hashbrown::HashMap::new: a new map is empty.
#[verifier::external_body]
pub(crate) fn tag_map_new() -> (r: TagMap)
    ensures
        tag_map_contents(r) =~= Map::empty(),
{
    TagMap { inner: hashbrown::HashMap::new() }
}

/// Relies on hashbrown::HashMap::insert: afterwards the key maps to the value and
/// every other key keeps its entry.
#[verifier::external_body]
pub(crate) fn tag_map_insert(m: &mut TagMap, key: u64, value: usize)
    ensures
        tag_map_contents(*final(m)) == tag_map_contents(*old(m)).insert(key, value),
{
    m.inner.insert(key, value);
}

/// Relies on hashbrown::HashMap::get: the entry of the key, if it has one.
#[verifier::external_body]
pub(crate) fn tag_map_get(m: &TagMap, key: u64) -> (r: Option<usize>)
    ensures
        r == (if tag_map_contents(*m).contains_key(key) {
            Some(tag_map_contents(*m)[key])
        } else {
            None
        }),
{
    m.inner.get(&key).copied()
}

} // verus!
