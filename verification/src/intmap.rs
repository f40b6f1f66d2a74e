//! The integer map that compiled programs use: keys and values are 64-bit
//! integers, and a key that was never set reads as zero.

use std::collections::HashMap;
use vstd::prelude::*;

verus! {

broadcast use vstd::std_specs::hash::group_hash_axioms;

/// What reading `key` yields: its value, or zero if it has none.
pub open spec fn value_or_zero(entries: Map<i64, i64>, key: i64) -> i64 {
    if entries.contains_key(key) {
        entries[key]
    } else {
        0
    }
}

/// Creates an empty map.
pub fn sydney_map_create() -> (map: HashMap<i64, i64>)
    ensures
        map@ == Map::<i64, i64>::empty(),
{
    HashMap::new()
}

/// Sets the value of `key`, replacing the one it had.
pub fn sydney_map_set(map: &mut HashMap<i64, i64>, key: i64, value: i64)
    ensures
        final(map)@ == old(map)@.insert(key, value),
{
    map.insert(key, value);
}

/// Reads the value of `key`; a key without a value reads as zero.
pub fn sydney_map_get(map: &HashMap<i64, i64>, key: i64) -> (value: i64)
    ensures
        value == value_or_zero(map@, key),
{
    match map.get(&key) {
        Some(value) => *value,
        None => 0,
    }
}

} // verus!
