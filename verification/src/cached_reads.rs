//! A cache in front of a state database.
//!
//! What a worker has read of accounts and storage stays with the worker. Behind that, a cache is
//! shared between workers, so that no two of them have to ask the database for the same thing.
use dashmap::DashMap;
use revm::bytecode::Bytecode;
use revm::state::AccountInfo;
use std::sync::atomic::{AtomicU64, Ordering};
use std::sync::Arc;
use vstd::prelude::*;

use crate::hash_maps::{
    address_key, hash_key, key_of_address, key_of_hash, key_of_number, key_of_storage, map_clear,
    map_get, map_insert, map_new, number_key, storage_key, AhashMap, MapKey,
};
use crate::shared_writes::{SharedWrites, WriteRecord};
use crate::types::{Address, B256, U256};

verus! {

#[verifier::external_type_specification]
#[verifier::external_body]
#[verifier::reject_recursive_types(K)]
#[verifier::reject_recursive_types(V)]
#[verifier::reject_recursive_types(S)]
pub struct ExDashMap<K, V, S>(dashmap::DashMap<K, V, S>);

#[verifier::external_type_specification]
#[verifier::external_body]
pub struct ExAccountInfo(revm::state::AccountInfo);

#[verifier::external_type_specification]
#[verifier::external_body]
pub struct ExBytecode(revm::bytecode::Bytecode);

/// `AccountInfo::clone`, which `revm` derives: the copy is the same account.
pub assume_specification[ <AccountInfo as Clone>::clone ](account: &AccountInfo) -> (r: AccountInfo)
    ensures
        r == *account,
;

/// `Bytecode::clone`, which `revm` derives: the copy is the same code.
pub assume_specification[ <Bytecode as Clone>::clone ](code: &Bytecode) -> (r: Bytecode)
    ensures
        r == *code,
;

/// A map that is shared between workers.
pub type SharedMap<V> = DashMap<MapKey, V, ahash::RandomState>;

/// Everything that the map of accounts holds at any time: the accounts under their keys.
pub uninterp spec fn stored_accounts(map: SharedMap<Option<AccountInfo>>) -> Set<
    (MapKey, Option<AccountInfo>),
>;

/// Everything that the map of storage slots holds at any time.
pub uninterp spec fn stored_slots(map: SharedMap<U256>) -> Set<(MapKey, U256)>;

/// Everything that the map of code holds at any time.
pub uninterp spec fn stored_code(map: SharedMap<Bytecode>) -> Set<(MapKey, Bytecode)>;

/// Everything that the map of block hashes holds at any time.
pub uninterp spec fn stored_hashes(map: SharedMap<B256>) -> Set<(MapKey, B256)>;

/// Every lookup that is made in the map of accounts at any time: the key, and what came back.
pub uninterp spec fn account_lookups(map: SharedMap<Option<AccountInfo>>) -> Set<
    (MapKey, Option<Option<AccountInfo>>),
>;

/// Every lookup that is made in the map of storage slots at any time.
pub uninterp spec fn slot_lookups(map: SharedMap<U256>) -> Set<(MapKey, Option<U256>)>;

/// Every lookup that is made in the map of code at any time.
pub uninterp spec fn code_lookups(map: SharedMap<Bytecode>) -> Set<(MapKey, Option<Bytecode>)>;

/// Every lookup that is made in the map of block hashes at any time.
pub uninterp spec fn hash_lookups(map: SharedMap<B256>) -> Set<(MapKey, Option<B256>)>;

/// `DashMap::get` on the map of accounts: the lookup is made with the key, and what comes back was
/// stored under it. Whether anything comes back is up to the other workers.
#[verifier::external_body]
fn get_account(map: &SharedMap<Option<AccountInfo>>, key: &MapKey) -> (r: Option<
    Option<AccountInfo>,
>)
    ensures
        account_lookups(*map).contains((*key, r)),
        r is Some ==> stored_accounts(*map).contains((*key, r->0)),
{
    match map.get(key) {
        Some(entry) => Some(entry.value().clone()),
        None => None,
    }
}

/// `DashMap::insert` on the worker's shared map of accounts: the value is one that is stored under
/// the key, and so is the one that it replaces. How long it stays is up to the other workers. It is
/// all that the worker stores, and nothing else of the worker changes.
#[verifier::external_body]
fn insert_account<P>(db: &mut CachedDB<P>, key: MapKey, value: Option<AccountInfo>) -> (r: Option<
    Option<AccountInfo>,
>)
    ensures
        match r {
            Some(replaced) => stored_accounts(old(db).shared().account_info).contains(
                (key, replaced),
            ) && stored_accounts(old(db).shared().account_info).contains((key, value)),
            None => stored_accounts(old(db).shared().account_info).contains((key, value)),
        },
        final(db)@ == old(db)@,
        final(db).provider() == old(db).provider(),
        final(db).shared() == old(db).shared(),
        final(db).writes() == old(db).writes().with_account(
            old(db).shared().account_info,
            key,
            value,
        ),
{
    db.shared_cache.account_info.insert(key, value)
}

/// `DashMap::get` on the map of slots: the lookup is made with the key, and what comes back was
/// stored under it. Whether anything comes back is up to the other workers.
#[verifier::external_body]
fn get_slot(map: &SharedMap<U256>, key: &MapKey) -> (r: Option<U256>)
    ensures
        slot_lookups(*map).contains((*key, r)),
        r is Some ==> stored_slots(*map).contains((*key, r->0)),
{
    match map.get(key) {
        Some(entry) => Some(entry.value().clone()),
        None => None,
    }
}

/// `DashMap::insert` on the worker's shared map of slots: the value is one that is stored under
/// the key, and so is the one that it replaces. How long it stays is up to the other workers. It is
/// all that the worker stores, and nothing else of the worker changes.
#[verifier::external_body]
fn insert_slot<P>(db: &mut CachedDB<P>, key: MapKey, value: U256) -> (r: Option<U256>)
    ensures
        match r {
            Some(replaced) => stored_slots(old(db).shared().storage).contains((key, replaced))
                && stored_slots(old(db).shared().storage).contains((key, value)),
            None => stored_slots(old(db).shared().storage).contains((key, value)),
        },
        final(db)@ == old(db)@,
        final(db).provider() == old(db).provider(),
        final(db).shared() == old(db).shared(),
        final(db).writes() == old(db).writes().with_slot(old(db).shared().storage, key, value),
{
    db.shared_cache.storage.insert(key, value)
}

/// `DashMap::get` on the map of code: the lookup is made with the key, and what comes back was
/// stored under it. Whether anything comes back is up to the other workers.
#[verifier::external_body]
fn get_code(map: &SharedMap<Bytecode>, key: &MapKey) -> (r: Option<Bytecode>)
    ensures
        code_lookups(*map).contains((*key, r)),
        r is Some ==> stored_code(*map).contains((*key, r->0)),
{
    match map.get(key) {
        Some(entry) => Some(entry.value().clone()),
        None => None,
    }
}

/// `DashMap::insert` on the worker's shared map of code: the value is one that is stored under
/// the key, and so is the one that it replaces. How long it stays is up to the other workers. It is
/// all that the worker stores, and nothing else of the worker changes.
#[verifier::external_body]
fn insert_code<P>(db: &mut CachedDB<P>, key: MapKey, value: Bytecode) -> (r: Option<Bytecode>)
    ensures
        match r {
            Some(replaced) => stored_code(old(db).shared().code_by_hash).contains((key, replaced))
                && stored_code(old(db).shared().code_by_hash).contains((key, value)),
            None => stored_code(old(db).shared().code_by_hash).contains((key, value)),
        },
        final(db)@ == old(db)@,
        final(db).provider() == old(db).provider(),
        final(db).shared() == old(db).shared(),
        final(db).writes() == old(db).writes().with_code(old(db).shared().code_by_hash, key, value),
{
    db.shared_cache.code_by_hash.insert(key, value)
}

/// `DashMap::get` on the map of hashes: the lookup is made with the key, and what comes back was
/// stored under it. Whether anything comes back is up to the other workers.
#[verifier::external_body]
fn get_hash(map: &SharedMap<B256>, key: &MapKey) -> (r: Option<B256>)
    ensures
        hash_lookups(*map).contains((*key, r)),
        r is Some ==> stored_hashes(*map).contains((*key, r->0)),
{
    match map.get(key) {
        Some(entry) => Some(entry.value().clone()),
        None => None,
    }
}

/// `DashMap::insert` on the worker's shared map of hashes: the value is one that is stored under
/// the key, and so is the one that it replaces. How long it stays is up to the other workers. It is
/// all that the worker stores, and nothing else of the worker changes.
#[verifier::external_body]
fn insert_hash<P>(db: &mut CachedDB<P>, key: MapKey, value: B256) -> (r: Option<B256>)
    ensures
        match r {
            Some(replaced) => stored_hashes(old(db).shared().block_hash).contains((key, replaced))
                && stored_hashes(old(db).shared().block_hash).contains((key, value)),
            None => stored_hashes(old(db).shared().block_hash).contains((key, value)),
        },
        final(db)@ == old(db)@,
        final(db).provider() == old(db).provider(),
        final(db).shared() == old(db).shared(),
        final(db).writes() == old(db).writes().with_hash(old(db).shared().block_hash, key, value),
{
    db.shared_cache.block_hash.insert(key, value)
}

/// `DashMap::default`: a new map. What it will hold is up to its users.
#[verifier::external_body]
fn new_shared_map<V>() -> (map: SharedMap<V>) {
    DashMap::default()
}

/// What a counter began with.
pub uninterp spec fn initial_count(counter: AtomicU64) -> u64;

/// `AtomicU64::new`: a counter that begins with the number.
#[verifier::external_body]
fn new_counter(n: u64) -> (counter: AtomicU64)
    ensures
        initial_count(counter) == n,
{
    AtomicU64::new(n)
}

/// Everything that is added to a counter at any time: the count before, and how much is added.
pub uninterp spec fn additions(counter: AtomicU64) -> Set<(u64, u64)>;

/// The number is added to the counter at some time.
pub open spec fn was_added(counter: AtomicU64, n: u64) -> bool {
    exists|before: u64| #[trigger] additions(counter).contains((before, n))
}

/// `AtomicU64::fetch_add`: adds the number to the counter and gives the count before. It wraps
/// around and never panics. What the count before is, and what becomes of the count, is up to the
/// other workers. The record takes in that the number was added, once.
#[verifier::external_body]
fn add_to_counter(counter: &AtomicU64, n: u64, record: &mut WriteRecord) -> (before: u64)
    ensures
        additions(*counter).contains((before, n)),
        final(record)@ == old(record)@.with_count(*counter, n),
    opens_invariants none
    no_unwind
{
    counter.fetch_add(n, Ordering::Relaxed)
}

/// What is shared between the workers that read the state of one parent block.
#[derive(Debug)]
pub struct SharedCachedReads {
    pub account_info: SharedMap<Option<AccountInfo>>,
    pub storage: SharedMap<U256>,
    pub code_by_hash: SharedMap<Bytecode>,
    pub block_hash: SharedMap<B256>,
    /// How many reads a cache has answered.
    pub shared_hit_count: Arc<AtomicU64>,
    /// How many reads the database had to answer.
    pub shared_miss_count: Arc<AtomicU64>,
}

impl Default for SharedCachedReads {
    /// A cache that holds nothing yet, with both counts at zero.
    fn default() -> (r: SharedCachedReads)
        ensures
            initial_count(*r.shared_hit_count) == 0,
            initial_count(*r.shared_miss_count) == 0,
    {
        SharedCachedReads {
            account_info: new_shared_map(),
            storage: new_shared_map(),
            code_by_hash: new_shared_map(),
            block_hash: new_shared_map(),
            shared_hit_count: Arc::new(new_counter(0)),
            shared_miss_count: Arc::new(new_counter(0)),
        }
    }
}

/// A database of the state at some block.
pub trait StateReader {
    type Error;

    fn basic(&self, address: Address) -> Result<Option<AccountInfo>, Self::Error>;

    fn code_by_hash(&self, code_hash: B256) -> Result<Bytecode, Self::Error>;

    fn storage(&self, address: Address, index: U256) -> Result<U256, Self::Error>;

    fn block_hash(&self, number: u64) -> Result<B256, Self::Error>;
}

/// One more, unless there are too many to count.
pub open spec fn one_more(n: u64) -> u64 {
    if n == u64::MAX {
        n
    } else {
        (n + 1) as u64
    }
}

/// What a worker keeps.
#[verifier::ext_equal]
pub struct LocalReads {
    pub parent_hash: Option<B256>,
    pub accounts: Map<MapKey, Option<AccountInfo>>,
    pub slots: Map<MapKey, U256>,
    /// The reads that a cache has answered since the last time they were reported.
    pub hits: u64,
    /// The reads that the database had to answer since then.
    pub misses: u64,
}

impl LocalReads {
    /// The counts are added to those of the shared cache, unless they are zero.
    pub open spec fn reported_to(self, shared: SharedCachedReads) -> bool {
        &&& self.hits != 0 ==> was_added(*shared.shared_hit_count, self.hits)
        &&& self.misses != 0 ==> was_added(*shared.shared_miss_count, self.misses)
    }

    /// A cache has answered.
    pub open spec fn hit(self) -> LocalReads {
        LocalReads { hits: one_more(self.hits), ..self }
    }

    /// The database had to answer.
    pub open spec fn miss(self) -> LocalReads {
        LocalReads { misses: one_more(self.misses), ..self }
    }

    /// The account is kept.
    pub open spec fn with_account(self, address: Address, data: Option<AccountInfo>) -> LocalReads {
        LocalReads { accounts: self.accounts.insert(address_key(address), data), ..self }
    }

    /// The slot is kept.
    pub open spec fn with_slot(self, address: Address, index: U256, data: U256) -> LocalReads {
        LocalReads { slots: self.slots.insert(storage_key(address, index), data), ..self }
    }

    /// Reading an account that the worker does not keep, where the shared cache holds `shared` and
    /// the database would answer `provided`.
    pub open spec fn account_read<E>(
        self,
        address: Address,
        shared: Option<Option<AccountInfo>>,
        provided: Result<Option<AccountInfo>, E>,
    ) -> (LocalReads, Result<Option<AccountInfo>, E>) {
        match shared {
            Some(data) => (self.hit().with_account(address, data), Ok(data)),
            None => match provided {
                Ok(data) => (self.miss().with_account(address, data), Ok(data)),
                Err(error) => (self.miss(), Err(error)),
            },
        }
    }

    /// Reading a slot that the worker does not keep.
    pub open spec fn slot_read<E>(
        self,
        address: Address,
        index: U256,
        shared: Option<U256>,
        provided: Result<U256, E>,
    ) -> (LocalReads, Result<U256, E>) {
        match shared {
            Some(data) => (self.hit().with_slot(address, index, data), Ok(data)),
            None => match provided {
                Ok(data) => (self.miss().with_slot(address, index, data), Ok(data)),
                Err(error) => (self.miss(), Err(error)),
            },
        }
    }

    /// Reading what no worker keeps.
    pub open spec fn shared_read<V, E>(self, shared: Option<V>, provided: Result<V, E>) -> (
        LocalReads,
        Result<V, E>,
    ) {
        match shared {
            Some(data) => (self.hit(), Ok(data)),
            None => (self.miss(), provided),
        }
    }

    /// Binding to a parent: what was read stays where the parent is the same, and goes otherwise.
    pub open spec fn rebound(self, parent_hash: B256) -> LocalReads {
        let same = self.parent_hash == Some(parent_hash);
        LocalReads {
            parent_hash: Some(parent_hash),
            accounts: if same {
                self.accounts
            } else {
                Map::empty()
            },
            slots: if same {
                self.slots
            } else {
                Map::empty()
            },
            hits: 0,
            misses: 0,
        }
    }
}

/// A database with a worker's cache and a shared cache in front of it.
pub struct CachedDB<P> {
    state_provider: P,
    shared_cache: Arc<SharedCachedReads>,
    parent_hash: Option<B256>,
    local_account_info: AhashMap<Option<AccountInfo>>,
    local_storage: AhashMap<U256>,
    pending_cache_hits: u64,
    pending_cache_misses: u64,
    /// What the worker has put into shared caches.
    record: WriteRecord,
}

/// What the worker keeps. The database and the shared cache are [`CachedDB::provider`] and
/// [`CachedDB::shared`].
impl<P> View for CachedDB<P> {
    type V = LocalReads;

    closed spec fn view(&self) -> LocalReads {
        LocalReads {
            parent_hash: self.parent_hash,
            accounts: self.local_account_info@,
            slots: self.local_storage@,
            hits: self.pending_cache_hits,
            misses: self.pending_cache_misses,
        }
    }
}

impl<P> CachedDB<P> {
    /// The database behind the caches.
    pub closed spec fn provider(&self) -> P {
        self.state_provider
    }

    /// The cache that is shared.
    pub closed spec fn shared(&self) -> Arc<SharedCachedReads> {
        self.shared_cache
    }

    /// What the worker has put into shared caches so far.
    pub closed spec fn writes(&self) -> SharedWrites {
        self.record@
    }

    /// A worker that has read nothing yet.
    pub fn new(state_provider: P, shared_cache: Arc<SharedCachedReads>) -> (db: CachedDB<P>)
        ensures
            db.provider() == state_provider,
            db.shared() == shared_cache,
            db.writes() == SharedWrites::none(),
            db@ == (LocalReads {
                parent_hash: None,
                accounts: Map::empty(),
                slots: Map::empty(),
                hits: 0,
                misses: 0,
            }),
    {
        CachedDB {
            state_provider,
            shared_cache,
            parent_hash: None,
            local_account_info: map_new(),
            local_storage: map_new(),
            pending_cache_hits: 0,
            pending_cache_misses: 0,
            record: WriteRecord::new(),
        }
    }

    /// A worker for a fixed parent block.
    pub fn new_for_parent(
        state_provider: P,
        shared_cache: Arc<SharedCachedReads>,
        parent_hash: B256,
    ) -> (db: CachedDB<P>)
        ensures
            db.provider() == state_provider,
            db.shared() == shared_cache,
            db.writes() == SharedWrites::none(),
            db@ == (LocalReads {
                parent_hash: Some(parent_hash),
                accounts: Map::empty(),
                slots: Map::empty(),
                hits: 0,
                misses: 0,
            }),
    {
        let mut db = Self::new(state_provider, shared_cache);
        db.parent_hash = Some(parent_hash);
        db
    }

    /// The parent block that the worker is bound to.
    pub fn parent_hash(&self) -> (r: Option<B256>)
        ensures
            r == self@.parent_hash,
    {
        self.parent_hash
    }

    /// Binds the worker to a database and a shared cache for the parent. What was read for another
    /// parent is forgotten, and the reads so far are reported to the old shared cache.
    pub fn rebind_for_parent(
        &mut self,
        state_provider: P,
        shared_cache: Arc<SharedCachedReads>,
        parent_hash: B256,
    )
        ensures
            final(self).provider() == state_provider,
            final(self).shared() == shared_cache,
            final(self)@ == old(self)@.rebound(parent_hash),
            old(self)@.reported_to(*old(self).shared()),
            final(self).writes() == old(self).writes().reported(
                *old(self).shared(),
                old(self)@.hits,
                old(self)@.misses,
            ),
    {
        let parent_changed = match self.parent_hash {
            Some(bound) => bound != parent_hash,
            None => true,
        };
        self.flush_stats();
        self.state_provider = state_provider;
        self.shared_cache = shared_cache;
        if parent_changed {
            map_clear(&mut self.local_account_info);
            map_clear(&mut self.local_storage);
        }
        self.parent_hash = Some(parent_hash);
    }

    /// Counts a read that a cache has answered.
    pub fn record_cache_hit(&mut self)
        ensures
            final(self)@ == old(self)@.hit(),
            final(self).provider() == old(self).provider(),
            final(self).shared() == old(self).shared(),
            final(self).writes() == old(self).writes(),
    {
        self.pending_cache_hits = self.pending_cache_hits.saturating_add(1);
    }

    /// Counts a read that the database had to answer.
    pub fn record_cache_miss(&mut self)
        ensures
            final(self)@ == old(self)@.miss(),
            final(self).provider() == old(self).provider(),
            final(self).shared() == old(self).shared(),
            final(self).writes() == old(self).writes(),
    {
        self.pending_cache_misses = self.pending_cache_misses.saturating_add(1);
    }

    /// Takes the counts of the reads that were not reported yet: those that a cache has answered,
    /// and those that the database had to answer.
    fn take_stats(&mut self) -> (r: (u64, u64))
        ensures
            r == (old(self)@.hits, old(self)@.misses),
            final(self)@ == (LocalReads { hits: 0, misses: 0, ..old(self)@ }),
            final(self).provider() == old(self).provider(),
            final(self).shared() == old(self).shared(),
            final(self).writes() == old(self).writes(),
        opens_invariants none
        no_unwind
    {
        let hits: u64 = self.pending_cache_hits;
        let misses: u64 = self.pending_cache_misses;
        self.pending_cache_hits = 0;
        self.pending_cache_misses = 0;
        (hits, misses)
    }

    /// Reports the reads so far to the shared cache.
    pub fn flush_stats(&mut self)
        ensures
            final(self)@ == (LocalReads { hits: 0, misses: 0, ..old(self)@ }),
            final(self).provider() == old(self).provider(),
            final(self).shared() == old(self).shared(),
            old(self)@.reported_to(*old(self).shared()),
            final(self).writes() == old(self).writes().reported(
                *old(self).shared(),
                old(self)@.hits,
                old(self)@.misses,
            ),
        opens_invariants none
        no_unwind
    {
        let (hits, misses) = self.take_stats();
        if hits != 0 {
            add_to_counter(&self.shared_cache.shared_hit_count, hits, &mut self.record);
        }
        if misses != 0 {
            add_to_counter(&self.shared_cache.shared_miss_count, misses, &mut self.record);
        }
    }

    /// Takes an account from the shared cache: the worker keeps it.
    pub fn account_found(&mut self, address: Address, data: Option<AccountInfo>) -> (r: Option<
        AccountInfo,
    >)
        ensures
            final(self)@ == old(self)@.hit().with_account(address, data),
            final(self).provider() == old(self).provider(),
            final(self).shared() == old(self).shared(),
            final(self).writes() == old(self).writes(),
            r == data,
    {
        self.record_cache_hit();
        map_insert(&mut self.local_account_info, key_of_address(address), data.clone());
        data
    }

    /// Takes what the database answered for an account that no cache had: the worker keeps the
    /// account, and shares it.
    pub fn account_provided<E>(
        &mut self,
        address: Address,
        provided: Result<Option<AccountInfo>, E>,
    ) -> (r: Result<Option<AccountInfo>, E>)
        ensures
            (final(self)@, r) == old(self)@.account_read(address, None, provided),
            final(self).provider() == old(self).provider(),
            final(self).shared() == old(self).shared(),
            final(self).writes() == old(self).writes().account_read(
                *old(self).shared(),
                address,
                None,
                provided,
            ),
            provided is Ok ==> stored_accounts(old(self).shared().account_info).contains(
                (address_key(address), provided->Ok_0),
            ),
    {
        self.record_cache_miss();
        match provided {
            Ok(data) => {
                let key = key_of_address(address);
                insert_account(self, key, data.clone());
                map_insert(&mut self.local_account_info, key, data.clone());
                Ok(data)
            },
            Err(error) => Err(error),
        }
    }

    /// Takes a slot from the shared cache: the worker keeps it.
    pub fn slot_found(&mut self, address: Address, index: U256, data: U256) -> (r: U256)
        ensures
            final(self)@ == old(self)@.hit().with_slot(address, index, data),
            final(self).provider() == old(self).provider(),
            final(self).shared() == old(self).shared(),
            final(self).writes() == old(self).writes(),
            r == data,
    {
        self.record_cache_hit();
        map_insert(&mut self.local_storage, key_of_storage(address, index), data);
        data
    }

    /// Takes what the database answered for a slot that no cache had: the worker keeps the slot,
    /// and shares it.
    pub fn slot_provided<E>(
        &mut self,
        address: Address,
        index: U256,
        provided: Result<U256, E>,
    ) -> (r: Result<U256, E>)
        ensures
            (final(self)@, r) == old(self)@.slot_read(address, index, None, provided),
            final(self).provider() == old(self).provider(),
            final(self).shared() == old(self).shared(),
            final(self).writes() == old(self).writes().slot_read(
                *old(self).shared(),
                address,
                index,
                None,
                provided,
            ),
            provided is Ok ==> stored_slots(old(self).shared().storage).contains(
                (storage_key(address, index), provided->Ok_0),
            ),
    {
        self.record_cache_miss();
        match provided {
            Ok(data) => {
                let key = key_of_storage(address, index);
                insert_slot(self, key, data);
                map_insert(&mut self.local_storage, key, data);
                Ok(data)
            },
            Err(error) => Err(error),
        }
    }

    /// Takes what the database answered for code that the shared cache did not have: the worker
    /// shares it.
    pub fn code_provided<E>(
        &mut self,
        code_hash: B256,
        provided: Result<Bytecode, E>,
    ) -> (r: Result<Bytecode, E>)
        ensures
            (final(self)@, r) == old(self)@.shared_read(None, provided),
            final(self).provider() == old(self).provider(),
            final(self).shared() == old(self).shared(),
            final(self).writes() == old(self).writes().code_read(
                *old(self).shared(),
                code_hash,
                None,
                provided,
            ),
            provided is Ok ==> stored_code(old(self).shared().code_by_hash).contains(
                (hash_key(code_hash), provided->Ok_0),
            ),
    {
        self.record_cache_miss();
        match provided {
            Ok(data) => {
                insert_code(self, key_of_hash(code_hash), data.clone());
                Ok(data)
            },
            Err(error) => Err(error),
        }
    }

    /// Takes what the database answered for a block hash that the shared cache did not have: the
    /// worker shares it.
    pub fn hash_provided<E>(&mut self, number: u64, provided: Result<B256, E>) -> (r: Result<
        B256,
        E,
    >)
        ensures
            (final(self)@, r) == old(self)@.shared_read(None, provided),
            final(self).provider() == old(self).provider(),
            final(self).shared() == old(self).shared(),
            final(self).writes() == old(self).writes().hash_read(
                *old(self).shared(),
                number,
                None,
                provided,
            ),
            provided is Ok ==> stored_hashes(old(self).shared().block_hash).contains(
                (number_key(number), provided->Ok_0),
            ),
    {
        self.record_cache_miss();
        match provided {
            Ok(data) => {
                insert_hash(self, key_of_number(number), data);
                Ok(data)
            },
            Err(error) => Err(error),
        }
    }
}

impl<P> Drop for CachedDB<P> {
    /// Reports the reads that were not reported yet.
    fn drop(&mut self)
        ensures
            final(self)@ == (LocalReads { hits: 0, misses: 0, ..old(self)@ }),
            old(self)@.reported_to(*old(self).shared()),
            final(self).writes() == old(self).writes().reported(
                *old(self).shared(),
                old(self)@.hits,
                old(self)@.misses,
            ),
        opens_invariants none
        no_unwind
    {
        self.flush_stats();
    }
}

impl<P: StateReader> CachedDB<P> {
    /// Reads an account: the worker's own cache is asked first, then the shared cache, and then the
    /// database. What the database answers is shared.
    pub fn basic(&mut self, address: Address) -> (r: Result<Option<AccountInfo>, P::Error>)
        ensures
            final(self).provider() == old(self).provider(),
            final(self).shared() == old(self).shared(),
            old(self)@.accounts.contains_key(address_key(address)) ==> final(self)@
                == old(self)@.hit() && final(self).writes() == old(self).writes() && r == Ok::<
                _,
                P::Error,
            >(
                old(self)@.accounts[address_key(address)],
            ),
            !old(self)@.accounts.contains_key(address_key(address)) ==> exists|
                shared: Option<Option<AccountInfo>>,
                provided: Result<Option<AccountInfo>, P::Error>,
            |
                {
                    &&& (final(self)@, r) == #[trigger] old(self)@.account_read(
                        address,
                        shared,
                        provided,
                    )
                    &&& final(self).writes() == old(self).writes().account_read(
                        *old(self).shared(),
                        address,
                        shared,
                        provided,
                    )
                    &&& account_lookups(old(self).shared().account_info).contains(
                        (address_key(address), shared),
                    )
                    &&& shared is Some ==> stored_accounts(
                        old(self).shared().account_info,
                    ).contains((address_key(address), shared->0))
                    &&& shared is None ==> call_ensures(
                        P::basic,
                        (&old(self).provider(), address),
                        provided,
                    )
                    &&& shared is None && provided is Ok ==> stored_accounts(
                        old(self).shared().account_info,
                    ).contains((address_key(address), provided->Ok_0))
                },
    {
        let ghost before = self@;
        let key = key_of_address(address);
        if let Some(data) = map_get(&self.local_account_info, &key) {
            let data = data.clone();
            self.record_cache_hit();
            return Ok(data);
        }
        if let Some(data) = get_account(&self.shared_cache.account_info, &key) {
            let data = self.account_found(address, data);
            proof {
                let answer = Ok::<Option<AccountInfo>, P::Error>(data);
                assert((self@, answer) == before.account_read(address, Some(data), answer));
            }
            return Ok(data);
        }
        let provided = self.state_provider.basic(address);
        let ghost answer = provided;
        let r = self.account_provided(address, provided);
        assert((self@, r) == before.account_read(address, None, answer));
        r
    }

    /// Reads the code with a hash: the shared cache is asked first, and then the database.
    /// What the database answers is shared.
    pub fn code_by_hash(&mut self, code_hash: B256) -> (r: Result<Bytecode, P::Error>)
        ensures
            final(self).provider() == old(self).provider(),
            final(self).shared() == old(self).shared(),
            exists|shared: Option<Bytecode>, provided: Result<Bytecode, P::Error>|
                {
                    &&& (final(self)@, r) == #[trigger] old(self)@.shared_read(shared, provided)
                    &&& final(self).writes() == old(self).writes().code_read(
                        *old(self).shared(),
                        code_hash,
                        shared,
                        provided,
                    )
                    &&& code_lookups(old(self).shared().code_by_hash).contains(
                        (hash_key(code_hash), shared),
                    )
                    &&& shared is Some ==> stored_code(
                        old(self).shared().code_by_hash,
                    ).contains((hash_key(code_hash), shared->0))
                    &&& shared is None ==> call_ensures(
                        P::code_by_hash,
                        (&old(self).provider(), code_hash),
                        provided,
                    )
                    &&& shared is None && provided is Ok ==> stored_code(
                        old(self).shared().code_by_hash,
                    ).contains((hash_key(code_hash), provided->Ok_0))
                },
    {
        let ghost before = self@;
        let key = key_of_hash(code_hash);
        if let Some(data) = get_code(&self.shared_cache.code_by_hash, &key) {
            self.record_cache_hit();
            proof {
                let answer = Ok::<Bytecode, P::Error>(data);
                assert((self@, answer) == before.shared_read(Some(data), answer));
            }
            return Ok(data);
        }
        let provided = self.state_provider.code_by_hash(code_hash);
        let ghost answer = provided;
        let r = self.code_provided(code_hash, provided);
        assert((self@, r) == before.shared_read(None, answer));
        r
    }

    /// Reads a storage slot: the worker's own cache is asked first, then the shared cache, and then
    /// the database. What the database answers is shared.
    pub fn storage(&mut self, address: Address, index: U256) -> (r: Result<U256, P::Error>)
        ensures
            final(self).provider() == old(self).provider(),
            final(self).shared() == old(self).shared(),
            old(self)@.slots.contains_key(storage_key(address, index)) ==> final(self)@
                == old(self)@.hit() && final(self).writes() == old(self).writes() && r == Ok::<
                _,
                P::Error,
            >(
                old(self)@.slots[storage_key(address, index)],
            ),
            !old(self)@.slots.contains_key(storage_key(address, index)) ==> exists|
                shared: Option<U256>,
                provided: Result<U256, P::Error>,
            |
                {
                    &&& (final(self)@, r) == #[trigger] old(self)@.slot_read(
                        address,
                        index,
                        shared,
                        provided,
                    )
                    &&& final(self).writes() == old(self).writes().slot_read(
                        *old(self).shared(),
                        address,
                        index,
                        shared,
                        provided,
                    )
                    &&& slot_lookups(old(self).shared().storage).contains(
                        (storage_key(address, index), shared),
                    )
                    &&& shared is Some ==> stored_slots(old(self).shared().storage).contains(
                        (storage_key(address, index), shared->0),
                    )
                    &&& shared is None ==> call_ensures(
                        P::storage,
                        (&old(self).provider(), address, index),
                        provided,
                    )
                    &&& shared is None && provided is Ok ==> stored_slots(
                        old(self).shared().storage,
                    ).contains((storage_key(address, index), provided->Ok_0))
                },
    {
        let ghost before = self@;
        let key = key_of_storage(address, index);
        if let Some(data) = map_get(&self.local_storage, &key) {
            let data: U256 = *data;
            self.record_cache_hit();
            return Ok(data);
        }
        if let Some(data) = get_slot(&self.shared_cache.storage, &key) {
            let data: U256 = self.slot_found(address, index, data);
            proof {
                let answer = Ok::<U256, P::Error>(data);
                assert((self@, answer) == before.slot_read(address, index, Some(data), answer));
            }
            return Ok(data);
        }
        let provided = self.state_provider.storage(address, index);
        let ghost answer = provided;
        let r = self.slot_provided(address, index, provided);
        assert((self@, r) == before.slot_read(address, index, None, answer));
        r
    }

    /// Reads the hash of a block: the shared cache is asked first, and then the database.
    /// What the database answers is shared.
    pub fn block_hash(&mut self, number: u64) -> (r: Result<B256, P::Error>)
        ensures
            final(self).provider() == old(self).provider(),
            final(self).shared() == old(self).shared(),
            exists|shared: Option<B256>, provided: Result<B256, P::Error>|
                {
                    &&& (final(self)@, r) == #[trigger] old(self)@.shared_read(shared, provided)
                    &&& final(self).writes() == old(self).writes().hash_read(
                        *old(self).shared(),
                        number,
                        shared,
                        provided,
                    )
                    &&& hash_lookups(old(self).shared().block_hash).contains(
                        (number_key(number), shared),
                    )
                    &&& shared is Some ==> stored_hashes(
                        old(self).shared().block_hash,
                    ).contains((number_key(number), shared->0))
                    &&& shared is None ==> call_ensures(
                        P::block_hash,
                        (&old(self).provider(), number),
                        provided,
                    )
                    &&& shared is None && provided is Ok ==> stored_hashes(
                        old(self).shared().block_hash,
                    ).contains((number_key(number), provided->Ok_0))
                },
    {
        let ghost before = self@;
        let key = key_of_number(number);
        if let Some(data) = get_hash(&self.shared_cache.block_hash, &key) {
            self.record_cache_hit();
            proof {
                let answer = Ok::<B256, P::Error>(data);
                assert((self@, answer) == before.shared_read(Some(data), answer));
            }
            return Ok(data);
        }
        let provided = self.state_provider.block_hash(number);
        let ghost answer = provided;
        let r = self.hash_provided(number, provided);
        assert((self@, r) == before.shared_read(None, answer));
        r
    }
}

/// The account that a read gave is kept, so that the worker's next read of it gives the same
/// without asking anybody; nothing else that the worker keeps changes.
pub proof fn law_account_read_is_kept<E>(
    reads: LocalReads,
    address: Address,
    shared: Option<Option<AccountInfo>>,
    provided: Result<Option<AccountInfo>, E>,
    data: Option<AccountInfo>,
)
    requires
        reads.account_read(address, shared, provided).1 == Ok::<_, E>(data),
    ensures
        ({
            let after = reads.account_read(address, shared, provided).0;
            &&& after.accounts.contains_key(address_key(address))
            &&& after.accounts[address_key(address)] == data
            &&& forall|key: MapKey|
                key != address_key(address) ==> after.accounts.contains_key(key)
                    == #[trigger] reads.accounts.contains_key(key) && after.accounts[key]
                    == reads.accounts[key]
            &&& after.slots == reads.slots
            &&& after.parent_hash == reads.parent_hash
        }),
{
}

/// The slot that a read gave is kept, so that the worker's next read of it gives the same without
/// asking anybody; nothing else that the worker keeps changes.
pub proof fn law_slot_read_is_kept<E>(
    reads: LocalReads,
    address: Address,
    index: U256,
    shared: Option<U256>,
    provided: Result<U256, E>,
    data: U256,
)
    requires
        reads.slot_read(address, index, shared, provided).1 == Ok::<_, E>(data),
    ensures
        ({
            let after = reads.slot_read(address, index, shared, provided).0;
            &&& after.slots.contains_key(storage_key(address, index))
            &&& after.slots[storage_key(address, index)] == data
            &&& forall|key: MapKey|
                key != storage_key(address, index) ==> after.slots.contains_key(key)
                    == #[trigger] reads.slots.contains_key(key) && after.slots[key]
                    == reads.slots[key]
            &&& after.accounts == reads.accounts
            &&& after.parent_hash == reads.parent_hash
        }),
{
}

/// Every read is counted once, whoever answers it, as long as the counts have room.
pub proof fn law_reads_are_counted_once<E>(
    reads: LocalReads,
    address: Address,
    index: U256,
    account: Option<Option<AccountInfo>>,
    provided_account: Result<Option<AccountInfo>, E>,
    slot: Option<U256>,
    provided_slot: Result<U256, E>,
)
    requires
        reads.hits < u64::MAX,
        reads.misses < u64::MAX,
    ensures
        reads.hit().hits + reads.hit().misses == reads.hits + reads.misses + 1,
        ({
            let after = reads.account_read(address, account, provided_account).0;
            after.hits + after.misses == reads.hits + reads.misses + 1
        }),
        ({
            let after = reads.slot_read(address, index, slot, provided_slot).0;
            after.hits + after.misses == reads.hits + reads.misses + 1
        }),
        ({
            let after = reads.shared_read(slot, provided_slot).0;
            after.hits + after.misses == reads.hits + reads.misses + 1
        }),
{
}

/// What was read is valid for one parent only: it stays where the worker is bound to the same
/// parent again, and all of it is forgotten where the worker is bound to another. Of the reads
/// before, nothing is left to be reported to the new shared cache.
pub proof fn law_reads_belong_to_a_parent(
    reads: LocalReads,
    parent_hash: B256,
    shared: SharedCachedReads,
)
    ensures
        reads.rebound(parent_hash).reported_to(shared),
        reads.parent_hash == Some(parent_hash) ==> reads.rebound(parent_hash).accounts
            == reads.accounts && reads.rebound(parent_hash).slots == reads.slots,
        reads.parent_hash != Some(parent_hash) ==> reads.rebound(parent_hash).accounts.is_empty()
            && reads.rebound(parent_hash).slots.is_empty(),
        reads.rebound(parent_hash).parent_hash == Some(parent_hash),
        reads.rebound(parent_hash).hits == 0 && reads.rebound(parent_hash).misses == 0,
{
}

} // verus!
