//! What a worker has put into shared caches: every value that it stored, and everything that it
//! added to a counter.
use revm::bytecode::Bytecode;
use revm::state::AccountInfo;
use std::sync::atomic::AtomicU64;
use vstd::prelude::*;

use crate::cached_reads::{SharedCachedReads, SharedMap};
use crate::hash_maps::{address_key, hash_key, number_key, storage_key, MapKey};
use crate::types::{Address, B256, U256};

verus! {

/// Everything that a worker has put into shared caches, the first first.
#[verifier::ext_equal]
pub struct SharedWrites {
    /// The accounts, each with the map that it was stored in and its key there.
    pub accounts: Seq<(SharedMap<Option<AccountInfo>>, MapKey, Option<AccountInfo>)>,
    /// The slots.
    pub slots: Seq<(SharedMap<U256>, MapKey, U256)>,
    /// The code.
    pub code: Seq<(SharedMap<Bytecode>, MapKey, Bytecode)>,
    /// The block hashes.
    pub hashes: Seq<(SharedMap<B256>, MapKey, B256)>,
    /// The numbers that were added to counters.
    pub counts: Seq<(AtomicU64, u64)>,
}

impl SharedWrites {
    /// Nothing was put anywhere.
    pub open spec fn none() -> SharedWrites {
        SharedWrites {
            accounts: Seq::empty(),
            slots: Seq::empty(),
            code: Seq::empty(),
            hashes: Seq::empty(),
            counts: Seq::empty(),
        }
    }

    /// The account was stored last.
    pub open spec fn with_account(
        self,
        map: SharedMap<Option<AccountInfo>>,
        key: MapKey,
        value: Option<AccountInfo>,
    ) -> SharedWrites {
        SharedWrites { accounts: self.accounts.push((map, key, value)), ..self }
    }

    /// The slot was stored last.
    pub open spec fn with_slot(
        self,
        map: SharedMap<U256>,
        key: MapKey,
        value: U256,
    ) -> SharedWrites {
        SharedWrites { slots: self.slots.push((map, key, value)), ..self }
    }

    /// The code was stored last.
    pub open spec fn with_code(
        self,
        map: SharedMap<Bytecode>,
        key: MapKey,
        value: Bytecode,
    ) -> SharedWrites {
        SharedWrites { code: self.code.push((map, key, value)), ..self }
    }

    /// The block hash was stored last.
    pub open spec fn with_hash(
        self,
        map: SharedMap<B256>,
        key: MapKey,
        value: B256,
    ) -> SharedWrites {
        SharedWrites { hashes: self.hashes.push((map, key, value)), ..self }
    }

    /// The number was added last.
    pub open spec fn with_count(self, counter: AtomicU64, n: u64) -> SharedWrites {
        SharedWrites { counts: self.counts.push((counter, n)), ..self }
    }

    /// An account was read that the worker does not keep: what the database answers is stored.
    pub open spec fn account_read<E>(
        self,
        shared_cache: SharedCachedReads,
        address: Address,
        shared: Option<Option<AccountInfo>>,
        provided: Result<Option<AccountInfo>, E>,
    ) -> SharedWrites {
        match (shared, provided) {
            (None, Ok(data)) => self.with_account(
                shared_cache.account_info,
                address_key(address),
                data,
            ),
            _ => self,
        }
    }

    /// A slot was read that the worker does not keep.
    pub open spec fn slot_read<E>(
        self,
        shared_cache: SharedCachedReads,
        address: Address,
        index: U256,
        shared: Option<U256>,
        provided: Result<U256, E>,
    ) -> SharedWrites {
        match (shared, provided) {
            (None, Ok(data)) => self.with_slot(
                shared_cache.storage,
                storage_key(address, index),
                data,
            ),
            _ => self,
        }
    }

    /// Code was read.
    pub open spec fn code_read<E>(
        self,
        shared_cache: SharedCachedReads,
        code_hash: B256,
        shared: Option<Bytecode>,
        provided: Result<Bytecode, E>,
    ) -> SharedWrites {
        match (shared, provided) {
            (None, Ok(data)) => self.with_code(
                shared_cache.code_by_hash,
                hash_key(code_hash),
                data,
            ),
            _ => self,
        }
    }

    /// A block hash was read.
    pub open spec fn hash_read<E>(
        self,
        shared_cache: SharedCachedReads,
        number: u64,
        shared: Option<B256>,
        provided: Result<B256, E>,
    ) -> SharedWrites {
        match (shared, provided) {
            (None, Ok(data)) => self.with_hash(shared_cache.block_hash, number_key(number), data),
            _ => self,
        }
    }

    /// The counts were reported: each is added to its counter, unless it is zero.
    pub open spec fn reported(
        self,
        shared_cache: SharedCachedReads,
        hits: u64,
        misses: u64,
    ) -> SharedWrites {
        let first = if hits != 0 {
            self.with_count(*shared_cache.shared_hit_count, hits)
        } else {
            self
        };
        if misses != 0 {
            first.with_count(*shared_cache.shared_miss_count, misses)
        } else {
            first
        }
    }
}

/// A worker's record of what it has put into shared caches. It takes no room when the program runs.
pub struct WriteRecord {
    writes: Ghost<SharedWrites>,
}

impl View for WriteRecord {
    type V = SharedWrites;

    closed spec fn view(&self) -> SharedWrites {
        self.writes@
    }
}

impl WriteRecord {
    /// The record of a worker that has put nothing anywhere.
    pub fn new() -> (record: WriteRecord)
        ensures
            record@ == SharedWrites::none(),
    {
        WriteRecord { writes: Ghost(SharedWrites::none()) }
    }
}

} // verus!
