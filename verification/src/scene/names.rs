//! The scene graph's name index, an `indexmap::IndexMap` from names to slot
//! numbers.

use vstd::prelude::*;

verus! {

/// `indexmap::IndexMap`, declared so that it can stand in fields.
#[verifier::external_type_specification]
#[verifier::external_body]
#[verifier::reject_recursive_types(K)]
#[verifier::reject_recursive_types(V)]
#[verifier::reject_recursive_types(S)]
pub struct ExIndexMap<K, V, S>(indexmap::IndexMap<K, V, S>);

/// The key-value pairs that a name index holds, each key by its characters.
pub uninterp spec fn name_index_contents(m: indexmap::IndexMap<String, u32>) -> Map<Seq<char>, u32>;

/// `IndexMap::new`: an index that holds nothing.
#[verifier::external_body]
pub(crate) fn name_index_new() -> (m: indexmap::IndexMap<String, u32>)
    ensures
        name_index_contents(m).dom().is_empty(),
{
    indexmap::IndexMap::new()
}

/// `IndexMap::insert`: afterwards `key` maps to `value`; the other pairs stay.
#[verifier::external_body]
pub(crate) fn name_index_insert(m: &mut indexmap::IndexMap<String, u32>, key: String, value: u32)
    ensures
        name_index_contents(*final(m)) == name_index_contents(*old(m)).insert(key@, value),
{
    m.insert(key, value);
}

/// `IndexMap::get`, with the value copied out: the value that `key` maps to,
/// if any.
#[verifier::external_body]
pub(crate) fn name_index_get(m: &indexmap::IndexMap<String, u32>, key: &str) -> (r: Option<u32>)
    ensures
        r == (if name_index_contents(*m).contains_key(key@) {
            Some(name_index_contents(*m)[key@])
        } else {
            None::<u32>
        }),
{
    m.get(key).copied()
}

/// `IndexMap::shift_remove`: afterwards `key` maps to nothing; the other pairs
/// stay.
#[verifier::external_body]
pub(crate) fn name_index_shift_remove(m: &mut indexmap::IndexMap<String, u32>, key: &str)
    ensures
        name_index_contents(*final(m)) == name_index_contents(*old(m)).remove(key@),
{
    m.shift_remove(key);
}

} // verus!
