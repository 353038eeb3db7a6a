//! Insertion-ordered maps from a package name to the position of its record:
//! the records of a graph under construction, and the packages still waiting
//! for their place in the publish order.

use indexmap::IndexMap;
use vstd::prelude::*;

verus! {

#[verifier::external_type_specification]
#[verifier::external_body]
#[verifier::reject_recursive_types(K)]
#[verifier::reject_recursive_types(V)]
#[verifier::reject_recursive_types(S)]
pub struct ExIndexMap<K, V, S>(IndexMap<K, V, S>);

/// The entries of a name map, in insertion order: each name with the
/// position of its record.
pub uninterp spec fn name_map_entries(m: IndexMap<String, usize>) -> Seq<(Seq<char>, usize)>;

pub open spec fn has_key(e: Seq<(Seq<char>, usize)>, k: Seq<char>) -> bool {
    exists|i: int| 0 <= i < e.len() && e[i].0 == k
}

/// Relies on `IndexMap::new`: the new map is empty.
#[verifier::external_body]
pub(crate) fn names_new() -> (r: IndexMap<String, usize>)
    ensures
        name_map_entries(r) == Seq::<(Seq<char>, usize)>::empty(),
{
    IndexMap::new()
}

/// Relies on `IndexMap::insert`: a key not yet present goes last in order.
#[verifier::external_body]
pub(crate) fn names_insert(m: &mut IndexMap<String, usize>, k: String, v: usize)
    requires
        !has_key(name_map_entries(*old(m)), k@),
    ensures
        name_map_entries(*final(m)) == name_map_entries(*old(m)).push((k@, v)),
{
    m.insert(k, v);
}

/// Relies on `IndexMap::contains_key`: whether an equal key is present.
#[verifier::external_body]
pub(crate) fn names_contains(m: &IndexMap<String, usize>, k: &String) -> (r: bool)
    ensures
        r == has_key(name_map_entries(*m), k@),
{
    m.contains_key(k)
}

/// Relies on `IndexMap::len`: the number of entries.
#[verifier::external_body]
pub(crate) fn names_len(m: &IndexMap<String, usize>) -> (r: usize)
    ensures
        r == name_map_entries(*m).len(),
{
    m.len()
}

/// Relies on `IndexMap::get_index`: the entry at a position of the order.
#[verifier::external_body]
pub(crate) fn names_get<'a>(m: &'a IndexMap<String, usize>, i: usize) -> (r: Option<
    (&'a String, usize),
>)
    ensures
        i < name_map_entries(*m).len() ==> r is Some && r->Some_0.0@ == name_map_entries(*m)[i as int].0
            && r->Some_0.1 == name_map_entries(*m)[i as int].1,
        i >= name_map_entries(*m).len() ==> r is None,
{
    m.get_index(i).map(|(k, v)| (k, *v))
}

/// Relies on `IndexMap::get_index_of`: the position of an equal key.
#[verifier::external_body]
pub(crate) fn names_index_of(m: &IndexMap<String, usize>, k: &String) -> (r: Option<usize>)
    ensures
        r is Some <==> has_key(name_map_entries(*m), k@),
        r is Some ==> r->Some_0 < name_map_entries(*m).len() && name_map_entries(*m)[r->Some_0 as int].0 == k@,
{
    m.get_index_of(k)
}

} // verus!
