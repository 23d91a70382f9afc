//! Trusted boundary around `linked_hash_map::LinkedHashMap`, which backs the
//! generation store: a mapping from generation index to the list of
//! alive-cell coordinates recorded for that generation.
//!
//! The map itself is outside code; its contents are modelled by the
//! uninterpreted function `history_entries`, and each operation the store
//! needs is wrapped in a function whose contract states, over that model,
//! what the crate's source shows the operation does.

use vstd::prelude::*;
use crate::space::Coord;
use linked_hash_map::LinkedHashMap;

verus! {

/// The concrete type of the generation store.
pub type HistoryMap = LinkedHashMap<usize, Vec<Coord>>;

#[verifier::external_type_specification]
#[verifier::external_body]
#[verifier::reject_recursive_types(K)]
#[verifier::reject_recursive_types(V)]
#[verifier::reject_recursive_types(S)]
pub struct ExLinkedHashMap<K, V, S>(LinkedHashMap<K, V, S>);

/// The contents of a generation store, as a mathematical map from generation
/// index to the recorded coordinate list.
pub uninterp spec fn history_entries(m: HistoryMap) -> Map<int, Seq<Coord>>;

/// The contents of a store with nothing in it.
pub open spec fn empty_history() -> Map<int, Seq<Coord>> {
    Map::empty()
}

/// Relies on `LinkedHashMap::new`: a freshly created map holds no entries.
#[verifier::external_body]
pub(crate) fn history_new() -> (m: HistoryMap)
    ensures
        history_entries(m) == empty_history(),
{
    LinkedHashMap::new()
}

/// Relies on `LinkedHashMap::insert`: the value is stored under the key,
/// replacing any previous value there; all other entries are untouched.
#[verifier::external_body]
pub(crate) fn history_insert(
    m: &mut HistoryMap,
    t: usize,
    coords: Vec<Coord>,
)
    ensures
        history_entries(*final(m)) == history_entries(*old(m)).insert(t as int, coords@),
{
    m.insert(t, coords);
}

/// Relies on `LinkedHashMap::contains_key`: true exactly when an entry is
/// stored under the key.
#[verifier::external_body]
pub(crate) fn history_contains(m: &HistoryMap, t: usize) -> (r: bool)
    ensures
        r == history_entries(*m).dom().contains(t as int),
{
    m.contains_key(&t)
}

/// Relies on `LinkedHashMap::get`: the value stored under the key, which the
/// precondition demands to be present, is returned (here as a copy).
#[verifier::external_body]
pub(crate) fn history_lookup(m: &HistoryMap, t: usize) -> (r: Vec<Coord>)
    requires
        history_entries(*m).dom().contains(t as int),
    ensures
        r@ == history_entries(*m)[t as int],
{
    m.get(&t).unwrap().clone()
}

/// Relies on `LinkedHashMap::remove`: the entry under the key, if any, is
/// removed; all other entries are untouched.
#[verifier::external_body]
pub(crate) fn history_remove(m: &mut HistoryMap, t: usize)
    ensures
        history_entries(*final(m)) == history_entries(*old(m)).remove(t as int),
{
    m.remove(&t);
}

/// Relies on `LinkedHashMap::len`: the number of stored entries.
#[verifier::external_body]
pub(crate) fn history_len(m: &HistoryMap) -> (r: usize)
    requires
        history_entries(*m).dom().finite(),
    ensures
        r == history_entries(*m).dom().len(),
{
    m.len()
}

} // verus!
