//! The hash maps of the token table: std's `HashMap` with the hasher of
//! `foldhash`.
//!
//! vstd states what a `HashMap` does only for hasher builders that it knows to
//! be well behaved, and it does not know this one. The functions below state
//! the same behaviour for it, without proof.

use vstd::prelude::*;
use vstd::std_specs::hash::obeys_key_model;
use foldhash::fast::RandomState;
use std::collections::HashMap;
use std::hash::Hash;

verus! {

/// `foldhash::fast::RandomState`, the hasher builder of `foldhash::HashMap`.
#[verifier::external_type_specification]
#[verifier::external_body]
pub struct ExRandomState(RandomState);

/// `foldhash::HashMapExt::new`: a map without entries.
#[verifier::external_body]
pub(crate) fn map_new<K, V>() -> (made: HashMap<K, V, RandomState>)
    ensures
        made@.dom() == Set::<K>::empty(),
{
    foldhash::HashMapExt::new()
}

/// `HashMap::get` on a map hashed by `foldhash`: the value stored under
/// `key`, or `None` where the map has no such key.
#[verifier::external_body]
pub(crate) fn map_get<'a, K: Eq + Hash, V>(m: &'a HashMap<K, V, RandomState>, key: &K) -> (found:
    Option<&'a V>)
    requires
        obeys_key_model::<K>(),
    ensures
        match found {
            Some(value) => m@.contains_key(*key) && *value == m@[*key],
            None => !m@.contains_key(*key),
        },
{
    m.get(key)
}

/// `HashMap::insert` on a map hashed by `foldhash`: afterwards `key` maps to
/// `value`, and every other key is as before.
#[verifier::external_body]
pub(crate) fn map_insert<K: Eq + Hash, V>(m: &mut HashMap<K, V, RandomState>, key: K, value: V)
    requires
        obeys_key_model::<K>(),
    ensures
        final(m)@ == old(m)@.insert(key, value),
{
    m.insert(key, value);
}

} // verus!
