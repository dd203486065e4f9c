use vstd::prelude::*;

use indexmap::IndexMap;

verus! {

/// `indexmap::IndexMap`, an insertion-ordered hash map, held opaque.
#[verifier::external_type_specification]
#[verifier::external_body]
#[verifier::reject_recursive_types(K)]
#[verifier::reject_recursive_types(V)]
#[verifier::reject_recursive_types(S)]
pub struct ExIndexMap<K, V, S>(IndexMap<K, V, S>);

/// The entries of an insertion-ordered map from text keys to node positions,
/// in insertion order.
pub uninterp spec fn index_entries(m: IndexMap<String, usize>) -> Seq<(Seq<char>, usize)>;

/// Relies on `IndexMap::new`: a new map holds no entry.
#[verifier::external_body]
pub(crate) fn index_new() -> (r: IndexMap<String, usize>)
    ensures
        index_entries(r) == Seq::<(Seq<char>, usize)>::empty(),
{
    IndexMap::new()
}

/// Relies on `IndexMap::get`: the value stored under a key equal to `k`, if
/// there is one.
#[verifier::external_body]
pub(crate) fn index_get(m: &IndexMap<String, usize>, k: &String) -> (r: Option<usize>)
    ensures
        r matches Some(c) ==> exists|i: int|
            0 <= i < index_entries(*m).len() && #[trigger] index_entries(*m)[i] == (k@, c),
        r is None ==> forall|i: int|
            0 <= i < index_entries(*m).len() ==> (#[trigger] index_entries(*m)[i]).0 != k@,
{
    m.get(k).copied()
}

/// Relies on `IndexMap::insert`: a key that the map does not hold yet is
/// placed last in order with its value.
#[verifier::external_body]
pub(crate) fn index_insert(m: &mut IndexMap<String, usize>, k: String, v: usize)
    requires
        forall|i: int|
            0 <= i < index_entries(*old(m)).len() ==> (#[trigger] index_entries(*old(m))[i]).0
                != k@,
    ensures
        index_entries(*final(m)) == index_entries(*old(m)).push((k@, v)),
{
    m.insert(k, v);
}

} // verus!
