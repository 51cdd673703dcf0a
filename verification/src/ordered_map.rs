//! Insertion-ordered maps from the `indexmap` crate, as the solver uses them.
//!
//! Verus does not look inside an `IndexMap`. What a map holds is given a
//! name here, one per key and value type in use, and each method the
//! solver calls is wrapped in a function whose contract is stated over that
//! name. The contracts are taken from the crate's documentation and source;
//! none of them is proved.

use indexmap::IndexMap;
use vstd::prelude::*;

verus! {

/// `indexmap::IndexMap`, carried through verified code as an opaque value.
#[verifier::external_type_specification]
#[verifier::external_body]
#[verifier::reject_recursive_types(K)]
#[verifier::reject_recursive_types(V)]
#[verifier::reject_recursive_types(S)]
pub struct ExIndexMap<K, V, S>(indexmap::IndexMap<K, V, S>);

/// The key-value pairs of a map from names to variable indices, in the
/// map's own order (the order in which `IndexMap::iter` yields them).
pub uninterp spec fn registry_entries(map: IndexMap<String, u32>) -> Seq<(Seq<char>, u32)>;

/// The key-value pairs of a map from names to truth values, in the map's
/// own order.
pub uninterp spec fn assignment_entries(map: IndexMap<String, bool>) -> Seq<(Seq<char>, bool)>;

/// The key-value pairs of a map from literals to decision levels, in the
/// map's own order.
pub uninterp spec fn guess_entries(map: IndexMap<u32, i32>) -> Seq<(u32, i32)>;

/// Whether some pair of `entries` has the key `key`.
pub open spec fn has_key<K, V>(entries: Seq<(K, V)>, key: K) -> bool {
    exists|i: int| 0 <= i < entries.len() && (#[trigger] entries[i]).0 == key
}

/// Calls `IndexMap::new`: the new map holds nothing.
#[verifier::external_body]
pub(crate) fn registry_new() -> (map: IndexMap<String, u32>)
    ensures
        registry_entries(map) == Seq::<(Seq<char>, u32)>::empty(),
{
    IndexMap::new()
}

/// Calls `IndexMap::len`: the number of pairs held.
#[verifier::external_body]
pub(crate) fn registry_len(map: &IndexMap<String, u32>) -> (count: usize)
    ensures
        count == registry_entries(*map).len(),
{
    map.len()
}

/// Calls `IndexMap::get`: the value held for this key, if there is one,
/// else `None`. A map holds a key at most once, so a value that is found
/// is the value of every pair with the key.
#[verifier::external_body]
pub(crate) fn registry_get(map: &IndexMap<String, u32>, key: &str) -> (found: Option<u32>)
    ensures
        match found {
            Some(value) => has_key(registry_entries(*map), key@) && forall|i: int|
                0 <= i < registry_entries(*map).len() && (#[trigger] registry_entries(
                    *map,
                )[i]).0 == key@ ==> registry_entries(*map)[i].1 == value,
            None => !has_key(registry_entries(*map), key@),
        },
{
    map.get(key).copied()
}

/// Calls `IndexMap::insert`. A key that the map does not hold is added,
/// with its value, as the last pair. Where a pair with the key exists, it
/// keeps its place and its value is replaced.
#[verifier::external_body]
pub(crate) fn registry_insert(map: &mut IndexMap<String, u32>, key: String, value: u32)
    ensures
        !has_key(registry_entries(*old(map)), key@) ==> registry_entries(*final(map))
            == registry_entries(*old(map)).push((key@, value)),
        forall|i: int|
            0 <= i < registry_entries(*old(map)).len() && (#[trigger] registry_entries(
                *old(map),
            )[i]).0 == key@ ==> registry_entries(*final(map)) == registry_entries(
                *old(map),
            ).update(i, (key@, value)),
{
    map.insert(key, value);
}

/// Calls `IndexMap::get_index`: the key of the pair at position `index`,
/// or `None` where `index` is not below the number of pairs.
#[verifier::external_body]
pub(crate) fn registry_key_at(map: &IndexMap<String, u32>, index: usize) -> (found: Option<String>)
    ensures
        match found {
            Some(key) => index < registry_entries(*map).len() && key@ == registry_entries(
                *map,
            )[index as int].0,
            None => index >= registry_entries(*map).len(),
        },
{
    map.get_index(index).map(|(key, _)| key.clone())
}

/// Calls `IndexMap::new`: the new map holds nothing.
#[verifier::external_body]
pub(crate) fn assignments_new() -> (map: IndexMap<String, bool>)
    ensures
        assignment_entries(map) == Seq::<(Seq<char>, bool)>::empty(),
{
    IndexMap::new()
}

/// Calls `IndexMap::len`: the number of pairs held.
#[verifier::external_body]
pub(crate) fn assignments_len(map: &IndexMap<String, bool>) -> (count: usize)
    ensures
        count == assignment_entries(*map).len(),
{
    map.len()
}

/// Calls `IndexMap::contains_key`: whether a pair with this key is held.
#[verifier::external_body]
pub(crate) fn assignments_contains_key(map: &IndexMap<String, bool>, key: &str) -> (found: bool)
    ensures
        found == has_key(assignment_entries(*map), key@),
{
    map.contains_key(key)
}

/// Calls `IndexMap::insert`. A key that the map does not hold is added,
/// with its value, as the last pair. Where a pair with the key exists, it
/// keeps its place and its value is replaced.
#[verifier::external_body]
pub(crate) fn assignments_insert(map: &mut IndexMap<String, bool>, key: String, value: bool)
    ensures
        !has_key(assignment_entries(*old(map)), key@) ==> assignment_entries(*final(map))
            == assignment_entries(*old(map)).push((key@, value)),
        forall|i: int|
            0 <= i < assignment_entries(*old(map)).len() && (#[trigger] assignment_entries(
                *old(map),
            )[i]).0 == key@ ==> assignment_entries(*final(map)) == assignment_entries(
                *old(map),
            ).update(i, (key@, value)),
{
    map.insert(key, value);
}

/// Calls `IndexMap::pop`: removes the last pair and returns it; an empty
/// map stays as it is and gives `None`.
#[verifier::external_body]
pub(crate) fn assignments_pop(map: &mut IndexMap<String, bool>) -> (removed: Option<(String, bool)>)
    ensures
        match removed {
            Some(pair) => assignment_entries(*old(map)).len() > 0 && (pair.0@, pair.1)
                == assignment_entries(*old(map)).last() && assignment_entries(*final(map))
                == assignment_entries(*old(map)).drop_last(),
            None => assignment_entries(*old(map)).len() == 0 && assignment_entries(*final(map))
                == assignment_entries(*old(map)),
        },
{
    map.pop()
}

/// Calls `IndexMap::get_index`: the pair at position `index`, or `None`
/// where `index` is not below the number of pairs.
#[verifier::external_body]
pub(crate) fn assignments_at(map: &IndexMap<String, bool>, index: usize) -> (found: Option<
    (String, bool),
>)
    ensures
        match found {
            Some(pair) => index < assignment_entries(*map).len() && (pair.0@, pair.1)
                == assignment_entries(*map)[index as int],
            None => index >= assignment_entries(*map).len(),
        },
{
    map.get_index(index).map(|(key, value)| (key.clone(), *value))
}

/// Calls `IndexMap::new`: the new map holds nothing.
#[verifier::external_body]
pub(crate) fn guesses_new() -> (map: IndexMap<u32, i32>)
    ensures
        guess_entries(map) == Seq::<(u32, i32)>::empty(),
{
    IndexMap::new()
}

/// Calls `IndexMap::insert`. A key that the map does not hold is added,
/// with its value, as the last pair. Where a pair with the key exists, it
/// keeps its place and its value is replaced.
#[verifier::external_body]
pub(crate) fn guesses_insert(map: &mut IndexMap<u32, i32>, key: u32, value: i32)
    ensures
        !has_key(guess_entries(*old(map)), key) ==> guess_entries(*final(map)) == guess_entries(
            *old(map),
        ).push((key, value)),
        forall|i: int|
            0 <= i < guess_entries(*old(map)).len() && (#[trigger] guess_entries(
                *old(map),
            )[i]).0 == key ==> guess_entries(*final(map)) == guess_entries(*old(map)).update(
                i,
                (key, value),
            ),
{
    map.insert(key, value);
}

/// Calls `IndexMap::pop`: removes the last pair and returns it; an empty
/// map stays as it is and gives `None`.
#[verifier::external_body]
pub(crate) fn guesses_pop(map: &mut IndexMap<u32, i32>) -> (removed: Option<(u32, i32)>)
    ensures
        match removed {
            Some(pair) => guess_entries(*old(map)).len() > 0 && pair == guess_entries(
                *old(map),
            ).last() && guess_entries(*final(map)) == guess_entries(*old(map)).drop_last(),
            None => guess_entries(*old(map)).len() == 0 && guess_entries(*final(map))
                == guess_entries(*old(map)),
        },
{
    map.pop()
}

/// Calls `IndexMap::get_index`: the pair at position `index`, or `None`
/// where `index` is not below the number of pairs.
#[verifier::external_body]
pub(crate) fn guesses_at(map: &IndexMap<u32, i32>, index: usize) -> (found: Option<(u32, i32)>)
    ensures
        match found {
            Some(pair) => index < guess_entries(*map).len() && pair == guess_entries(
                *map,
            )[index as int],
            None => index >= guess_entries(*map).len(),
        },
{
    map.get_index(index).map(|(key, value)| (*key, *value))
}

} // verus!
