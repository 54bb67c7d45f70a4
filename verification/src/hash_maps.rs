//! Hash maps with the `ahash` hasher.
//!
//! Keys are tuples of integers, whose equality and hash are those of the standard library.
use std::collections::HashMap;
use vstd::prelude::*;

use crate::types::{Address, OrderId, B256, U256};

verus! {

#[verifier::external_type_specification]
#[verifier::external_body]
pub struct ExAhashRandomState(ahash::RandomState);

/// A key: four integers, enough for an address and a 256-bit number.
pub type MapKey = (u128, u128, u128, u128);

/// A hash map with the hasher of `ahash`.
pub type AhashMap<V> = HashMap<MapKey, V, ahash::RandomState>;

/// The map without any key.
pub open spec fn no_entries<V>() -> Map<MapKey, V> {
    Map::empty()
}

/// `HashMap::default` with the hasher of `ahash`: the new map is empty.
#[verifier::external_body]
pub(crate) fn map_new<V>() -> (m: AhashMap<V>)
    ensures
        m@ == no_entries::<V>(),
{
    HashMap::default()
}

/// `HashMap::insert`: the key now has the value, whatever it had before.
#[verifier::external_body]
pub(crate) fn map_insert<V>(m: &mut AhashMap<V>, key: MapKey, value: V)
    ensures
        final(m)@ == old(m)@.insert(key, value),
{
    m.insert(key, value);
}

/// `HashMap::get`: the value of the key, if it has one.
#[verifier::external_body]
pub(crate) fn map_get<'a, V>(m: &'a AhashMap<V>, key: &MapKey) -> (r: Option<&'a V>)
    ensures
        match r {
            Some(v) => m@.contains_key(*key) && *v == m@[*key],
            None => !m@.contains_key(*key),
        },
{
    m.get(key)
}

/// `HashMap::remove`: the key has no value any more, and the one that it had is returned.
#[verifier::external_body]
pub(crate) fn map_remove<V>(m: &mut AhashMap<V>, key: &MapKey) -> (r: Option<V>)
    ensures
        final(m)@ == old(m)@.remove(*key),
        match r {
            Some(v) => old(m)@.contains_key(*key) && v == old(m)@[*key],
            None => !old(m)@.contains_key(*key),
        },
{
    m.remove(key)
}

/// `HashMap::clear`: no key has a value any more.
#[verifier::external_body]
pub(crate) fn map_clear<V>(m: &mut AhashMap<V>)
    ensures
        final(m)@ == no_entries::<V>(),
{
    m.clear();
}

/// The key of an account.
pub open spec fn address_key(address: Address) -> MapKey {
    (address.high as u128, address.low, 0, 0)
}

/// The key of an account's nonce.
pub open spec fn nonce_key(address: Address, nonce: u64) -> MapKey {
    (address.high as u128, address.low, nonce as u128, 0)
}

/// The key of a storage slot.
pub open spec fn storage_key(address: Address, index: U256) -> MapKey {
    (address.high as u128, address.low, index.high, index.low)
}

/// The key of an order.
pub open spec fn order_key(id: OrderId) -> MapKey {
    (id.hash.high, id.hash.low, 0, 0)
}

/// The key of a hash.
pub open spec fn hash_key(hash: B256) -> MapKey {
    (hash.high, hash.low, 0, 0)
}

/// The key of a number.
pub open spec fn number_key(number: u64) -> MapKey {
    (number as u128, 0, 0, 0)
}

/// Computes [`address_key`].
pub fn key_of_address(address: Address) -> (key: MapKey)
    ensures
        key == address_key(address),
{
    (address.high as u128, address.low, 0, 0)
}

/// Computes [`nonce_key`].
pub fn key_of_nonce(address: Address, nonce: u64) -> (key: MapKey)
    ensures
        key == nonce_key(address, nonce),
{
    (address.high as u128, address.low, nonce as u128, 0)
}

/// Computes [`storage_key`].
pub fn key_of_storage(address: Address, index: U256) -> (key: MapKey)
    ensures
        key == storage_key(address, index),
{
    (address.high as u128, address.low, index.high, index.low)
}

/// Computes [`order_key`].
pub fn key_of_order(id: OrderId) -> (key: MapKey)
    ensures
        key == order_key(id),
{
    (id.hash.high, id.hash.low, 0, 0)
}

/// Computes [`hash_key`].
pub fn key_of_hash(hash: B256) -> (key: MapKey)
    ensures
        key == hash_key(hash),
{
    (hash.high, hash.low, 0, 0)
}

/// Computes [`number_key`].
pub fn key_of_number(number: u64) -> (key: MapKey)
    ensures
        key == number_key(number),
{
    (number as u128, 0, 0, 0)
}

} // verus!
