//! What workers share: answers of the database and nothing else, and every read counted once.
use revm::bytecode::Bytecode;
use revm::state::AccountInfo;
use std::sync::atomic::AtomicU64;
use vstd::prelude::*;

use crate::cached_reads::{
    stored_accounts, stored_code, stored_hashes, stored_slots, LocalReads, SharedCachedReads,
    StateReader,
};
use crate::hash_maps::{address_key, hash_key, number_key, storage_key, MapKey};
use crate::shared_writes::SharedWrites;
use crate::types::{Address, B256, U256};

verus! {

/// The database answers a read of the account with the data.
pub open spec fn answers_account<P: StateReader>(
    provider: P,
    address: Address,
    data: Option<AccountInfo>,
) -> bool {
    call_ensures(P::basic, (&provider, address), Ok(data))
}

/// The database answers a read of the slot with the data.
pub open spec fn answers_slot<P: StateReader>(
    provider: P,
    address: Address,
    index: U256,
    data: U256,
) -> bool {
    call_ensures(P::storage, (&provider, address, index), Ok(data))
}

/// The database answers a read of the code with the data.
pub open spec fn answers_code<P: StateReader>(
    provider: P,
    code_hash: B256,
    data: Bytecode,
) -> bool {
    call_ensures(P::code_by_hash, (&provider, code_hash), Ok(data))
}

/// The database answers a read of the block hash with the data.
pub open spec fn answers_hash<P: StateReader>(provider: P, number: u64, data: B256) -> bool {
    call_ensures(P::block_hash, (&provider, number), Ok(data))
}

/// The shared cache holds nothing but what the database answers.
pub open spec fn shares_only_answers<P: StateReader>(
    shared_cache: SharedCachedReads,
    provider: P,
) -> bool {
    &&& forall|address: Address, data: Option<AccountInfo>| #[trigger]
        stored_accounts(shared_cache.account_info).contains((address_key(address), data))
            ==> answers_account(provider, address, data)
    &&& forall|address: Address, index: U256, data: U256| #[trigger]
        stored_slots(shared_cache.storage).contains((storage_key(address, index), data))
            ==> answers_slot(provider, address, index, data)
    &&& forall|code_hash: B256, data: Bytecode| #[trigger]
        stored_code(shared_cache.code_by_hash).contains((hash_key(code_hash), data))
            ==> answers_code(provider, code_hash, data)
    &&& forall|number: u64, data: B256| #[trigger]
        stored_hashes(shared_cache.block_hash).contains((number_key(number), data))
            ==> answers_hash(provider, number, data)
}

/// The worker keeps nothing but what the database answers.
pub open spec fn keeps_only_answers<P: StateReader>(reads: LocalReads, provider: P) -> bool {
    &&& forall|address: Address| #[trigger]
        reads.accounts.contains_key(address_key(address)) ==> answers_account(
            provider,
            address,
            reads.accounts[address_key(address)],
        )
    &&& forall|address: Address, index: U256| #[trigger]
        reads.slots.contains_key(storage_key(address, index)) ==> answers_slot(
            provider,
            address,
            index,
            reads.slots[storage_key(address, index)],
        )
}

/// The data is what the database answers for the account with the key.
pub open spec fn is_account_answer<P: StateReader>(
    provider: P,
    key: MapKey,
    data: Option<AccountInfo>,
) -> bool {
    exists|address: Address|
        key == address_key(address) && #[trigger] answers_account(provider, address, data)
}

/// The data is what the database answers for the slot with the key.
pub open spec fn is_slot_answer<P: StateReader>(provider: P, key: MapKey, data: U256) -> bool {
    exists|address: Address, index: U256|
        key == storage_key(address, index) && #[trigger] answers_slot(
            provider,
            address,
            index,
            data,
        )
}

/// The data is what the database answers for the code with the key.
pub open spec fn is_code_answer<P: StateReader>(provider: P, key: MapKey, data: Bytecode) -> bool {
    exists|code_hash: B256|
        key == hash_key(code_hash) && #[trigger] answers_code(provider, code_hash, data)
}

/// The data is what the database answers for the block hash with the key.
pub open spec fn is_hash_answer<P: StateReader>(provider: P, key: MapKey, data: B256) -> bool {
    exists|number: u64|
        key == number_key(number) && #[trigger] answers_hash(provider, number, data)
}

/// The worker has stored nothing in shared caches but what the database answers, each under its
/// own key.
pub open spec fn stored_only_answers<P: StateReader>(writes: SharedWrites, provider: P) -> bool {
    &&& forall|i: int|
        0 <= i < writes.accounts.len() ==> is_account_answer(
            provider,
            (#[trigger] writes.accounts[i]).1,
            writes.accounts[i].2,
        )
    &&& forall|i: int|
        0 <= i < writes.slots.len() ==> is_slot_answer(
            provider,
            (#[trigger] writes.slots[i]).1,
            writes.slots[i].2,
        )
    &&& forall|i: int|
        0 <= i < writes.code.len() ==> is_code_answer(
            provider,
            (#[trigger] writes.code[i]).1,
            writes.code[i].2,
        )
    &&& forall|i: int|
        0 <= i < writes.hashes.len() ==> is_hash_answer(
            provider,
            (#[trigger] writes.hashes[i]).1,
            writes.hashes[i].2,
        )
}

/// Where the shared cache and the worker hold nothing but what the database answers, a read of an
/// account gives what the database answers, and so do all later reads.
pub proof fn law_account_reads_give_answers<P: StateReader>(
    reads: LocalReads,
    provider: P,
    shared_cache: SharedCachedReads,
    address: Address,
    shared: Option<Option<AccountInfo>>,
    provided: Result<Option<AccountInfo>, P::Error>,
)
    requires
        shares_only_answers(shared_cache, provider),
        keeps_only_answers(reads, provider),
        shared is Some ==> stored_accounts(shared_cache.account_info).contains(
            (address_key(address), shared->0),
        ),
        shared is None ==> call_ensures(P::basic, (&provider, address), provided),
    ensures
        reads.accounts.contains_key(address_key(address)) ==> answers_account(
            provider,
            address,
            reads.accounts[address_key(address)],
        ),
        reads.account_read(address, shared, provided).1 matches Ok(data) ==> answers_account(
            provider,
            address,
            data,
        ),
        reads.account_read(address, shared, provided).1 is Ok <==> shared is Some || provided is Ok,
        keeps_only_answers(reads.account_read(address, shared, provided).0, provider),
{
    let after = reads.account_read(address, shared, provided).0;
    assert forall|other: Address| #[trigger]
        after.accounts.contains_key(address_key(other)) implies answers_account(
        provider,
        other,
        after.accounts[address_key(other)],
    ) by {
        if address_key(other) != address_key(address) {
            assert(reads.accounts.contains_key(address_key(other)));
        } else if !(shared is None && provided is Err) {
            assert(other == address);
        } else {
            assert(reads.accounts.contains_key(address_key(other)));
        }
    }
}

/// Where the shared cache and the worker hold nothing but what the database answers, a read of a
/// slot gives what the database answers, and so do all later reads.
pub proof fn law_slot_reads_give_answers<P: StateReader>(
    reads: LocalReads,
    provider: P,
    shared_cache: SharedCachedReads,
    address: Address,
    index: U256,
    shared: Option<U256>,
    provided: Result<U256, P::Error>,
)
    requires
        shares_only_answers(shared_cache, provider),
        keeps_only_answers(reads, provider),
        shared is Some ==> stored_slots(shared_cache.storage).contains(
            (storage_key(address, index), shared->0),
        ),
        shared is None ==> call_ensures(P::storage, (&provider, address, index), provided),
    ensures
        reads.slots.contains_key(storage_key(address, index)) ==> answers_slot(
            provider,
            address,
            index,
            reads.slots[storage_key(address, index)],
        ),
        reads.slot_read(address, index, shared, provided).1 matches Ok(data) ==> answers_slot(
            provider,
            address,
            index,
            data,
        ),
        reads.slot_read(address, index, shared, provided).1 is Ok <==> shared is Some
            || provided is Ok,
        keeps_only_answers(reads.slot_read(address, index, shared, provided).0, provider),
{
    let after = reads.slot_read(address, index, shared, provided).0;
    assert forall|other: Address, place: U256| #[trigger]
        after.slots.contains_key(storage_key(other, place)) implies answers_slot(
        provider,
        other,
        place,
        after.slots[storage_key(other, place)],
    ) by {
        if storage_key(other, place) != storage_key(address, index) {
            assert(reads.slots.contains_key(storage_key(other, place)));
        } else if !(shared is None && provided is Err) {
            assert(other == address && place == index);
        } else {
            assert(reads.slots.contains_key(storage_key(other, place)));
        }
    }
}

/// Where the shared cache holds nothing but what the database answers, a read of code or of a block
/// hash gives what the database answers, and the worker keeps none of it.
pub proof fn law_shared_reads_give_answers<P: StateReader>(
    reads: LocalReads,
    provider: P,
    shared_cache: SharedCachedReads,
    code_hash: B256,
    shared_code: Option<Bytecode>,
    provided_code: Result<Bytecode, P::Error>,
    number: u64,
    shared_hash: Option<B256>,
    provided_hash: Result<B256, P::Error>,
)
    requires
        shares_only_answers(shared_cache, provider),
        shared_code is Some ==> stored_code(shared_cache.code_by_hash).contains(
            (hash_key(code_hash), shared_code->0),
        ),
        shared_code is None ==> call_ensures(
            P::code_by_hash,
            (&provider, code_hash),
            provided_code,
        ),
        shared_hash is Some ==> stored_hashes(shared_cache.block_hash).contains(
            (number_key(number), shared_hash->0),
        ),
        shared_hash is None ==> call_ensures(P::block_hash, (&provider, number), provided_hash),
    ensures
        reads.shared_read(shared_code, provided_code).1 matches Ok(data) ==> answers_code(
            provider,
            code_hash,
            data,
        ),
        reads.shared_read(shared_code, provided_code).1 is Ok <==> shared_code is Some
            || provided_code is Ok,
        reads.shared_read(shared_hash, provided_hash).1 matches Ok(data) ==> answers_hash(
            provider,
            number,
            data,
        ),
        reads.shared_read(shared_hash, provided_hash).1 is Ok <==> shared_hash is Some
            || provided_hash is Ok,
        reads.shared_read(shared_code, provided_code).0.accounts == reads.accounts,
        reads.shared_read(shared_code, provided_code).0.slots == reads.slots,
        reads.shared_read(shared_hash, provided_hash).0.accounts == reads.accounts,
        reads.shared_read(shared_hash, provided_hash).0.slots == reads.slots,
{
}

/// Everything that a worker stores in a shared cache is what the database answered, under the key
/// of what it was asked for: a read that the database answered stores the answer, and nothing else
/// is ever stored.
pub proof fn law_workers_share_only_answers<P: StateReader>(
    writes: SharedWrites,
    provider: P,
    shared_cache: SharedCachedReads,
    address: Address,
    index: U256,
    code_hash: B256,
    number: u64,
    account: (Option<Option<AccountInfo>>, Result<Option<AccountInfo>, P::Error>),
    slot: (Option<U256>, Result<U256, P::Error>),
    code: (Option<Bytecode>, Result<Bytecode, P::Error>),
    hash: (Option<B256>, Result<B256, P::Error>),
    hits: u64,
    misses: u64,
)
    requires
        stored_only_answers(writes, provider),
        account.0 is None ==> call_ensures(P::basic, (&provider, address), account.1),
        slot.0 is None ==> call_ensures(P::storage, (&provider, address, index), slot.1),
        code.0 is None ==> call_ensures(P::code_by_hash, (&provider, code_hash), code.1),
        hash.0 is None ==> call_ensures(P::block_hash, (&provider, number), hash.1),
    ensures
        stored_only_answers(SharedWrites::none(), provider),
        stored_only_answers(
            writes.account_read(shared_cache, address, account.0, account.1),
            provider,
        ),
        stored_only_answers(
            writes.slot_read(shared_cache, address, index, slot.0, slot.1),
            provider,
        ),
        stored_only_answers(writes.code_read(shared_cache, code_hash, code.0, code.1), provider),
        stored_only_answers(writes.hash_read(shared_cache, number, hash.0, hash.1), provider),
        stored_only_answers(writes.reported(shared_cache, hits, misses), provider),
{
    if let (None, Ok(data)) = account {
        assert(answers_account(provider, address, data));
        assert(is_account_answer(provider, address_key(address), data));
    }
    if let (None, Ok(data)) = slot {
        assert(answers_slot(provider, address, index, data));
        assert(is_slot_answer(provider, storage_key(address, index), data));
    }
    if let (None, Ok(data)) = code {
        assert(answers_code(provider, code_hash, data));
        assert(is_code_answer(provider, hash_key(code_hash), data));
    }
    if let (None, Ok(data)) = hash {
        assert(answers_hash(provider, number, data));
        assert(is_hash_answer(provider, number_key(number), data));
    }
}

/// What the database answers is shared, so that other workers need not ask for it: it is the last
/// that the worker stored, in the map of its shared cache.
pub proof fn law_answers_are_shared<E>(
    writes: SharedWrites,
    shared_cache: SharedCachedReads,
    address: Address,
    index: U256,
    code_hash: B256,
    number: u64,
    account: Option<AccountInfo>,
    slot: U256,
    code: Bytecode,
    hash: B256,
)
    ensures
        writes.account_read::<E>(shared_cache, address, None, Ok(account)).accounts
            == writes.accounts.push((shared_cache.account_info, address_key(address), account)),
        writes.slot_read::<E>(shared_cache, address, index, None, Ok(slot)).slots
            == writes.slots.push((shared_cache.storage, storage_key(address, index), slot)),
        writes.code_read::<E>(shared_cache, code_hash, None, Ok(code)).code == writes.code.push(
            (shared_cache.code_by_hash, hash_key(code_hash), code),
        ),
        writes.hash_read::<E>(shared_cache, number, None, Ok(hash)).hashes == writes.hashes.push(
            (shared_cache.block_hash, number_key(number), hash),
        ),
{
}

/// How much was added to the counter in all.
pub open spec fn added_to(counts: Seq<(AtomicU64, u64)>, counter: AtomicU64) -> nat
    decreases counts.len(),
{
    if counts.len() == 0 {
        0
    } else {
        added_to(counts.drop_last(), counter) + if counts.last().0 == counter {
            counts.last().1 as nat
        } else {
            0
        }
    }
}

proof fn lemma_added(counts: Seq<(AtomicU64, u64)>, other: AtomicU64, n: u64, counter: AtomicU64)
    ensures
        added_to(counts.push((other, n)), counter) == added_to(counts, counter) + if other
            == counter {
            n as nat
        } else {
            0
        },
{
    assert(counts.push((other, n)).drop_last() =~= counts);
}

/// Reporting loses no read and counts none twice: what was added to the counters of the shared
/// cache grows by the reads that were still to be reported, and no other counter changes.
pub proof fn law_reads_are_reported_once(
    writes: SharedWrites,
    shared_cache: SharedCachedReads,
    hits: u64,
    misses: u64,
    other: AtomicU64,
)
    requires
        *shared_cache.shared_hit_count != *shared_cache.shared_miss_count,
        other != *shared_cache.shared_hit_count,
        other != *shared_cache.shared_miss_count,
    ensures
        ({
            let after = writes.reported(shared_cache, hits, misses).counts;
            &&& added_to(after, *shared_cache.shared_hit_count) == added_to(
                writes.counts,
                *shared_cache.shared_hit_count,
            ) + hits
            &&& added_to(after, *shared_cache.shared_miss_count) == added_to(
                writes.counts,
                *shared_cache.shared_miss_count,
            ) + misses
            &&& added_to(after, other) == added_to(writes.counts, other)
        }),
        writes.reported(shared_cache, 0, 0) == writes,
{
    let hit = *shared_cache.shared_hit_count;
    let miss = *shared_cache.shared_miss_count;
    let first = if hits != 0 {
        writes.with_count(hit, hits)
    } else {
        writes
    };
    lemma_added(writes.counts, hit, hits, hit);
    lemma_added(writes.counts, hit, hits, miss);
    lemma_added(writes.counts, hit, hits, other);
    lemma_added(first.counts, miss, misses, hit);
    lemma_added(first.counts, miss, misses, miss);
    lemma_added(first.counts, miss, misses, other);
}

/// A read that a cache answers counts as a hit, and one that the database has to answer as a miss,
/// as long as there is room to count; nothing is reported by reading.
pub proof fn law_reads_count_for_whoever_answers<E>(
    reads: LocalReads,
    writes: SharedWrites,
    shared_cache: SharedCachedReads,
    address: Address,
    index: U256,
    account: Option<Option<AccountInfo>>,
    provided_account: Result<Option<AccountInfo>, E>,
    slot: Option<U256>,
    provided_slot: Result<U256, E>,
)
    requires
        reads.hits < u64::MAX,
        reads.misses < u64::MAX,
    ensures
        reads.account_read(address, account, provided_account).0.hits == reads.hits + if account
            is Some {
            1int
        } else {
            0
        },
        reads.account_read(address, account, provided_account).0.misses == reads.misses
            + if account is Some {
            0int
        } else {
            1
        },
        reads.slot_read(address, index, slot, provided_slot).0.hits == reads.hits + if slot
            is Some {
            1int
        } else {
            0
        },
        reads.slot_read(address, index, slot, provided_slot).0.misses == reads.misses + if slot
            is Some {
            0int
        } else {
            1
        },
        reads.shared_read(slot, provided_slot).0.hits == reads.hits + if slot is Some {
            1int
        } else {
            0
        },
        reads.shared_read(slot, provided_slot).0.misses == reads.misses + if slot is Some {
            0int
        } else {
            1
        },
        writes.account_read(shared_cache, address, account, provided_account).counts
            == writes.counts,
        writes.slot_read(shared_cache, address, index, slot, provided_slot).counts == writes.counts,
{
}

/// A count that is full stays full: it neither wraps around nor goes down.
pub proof fn law_counts_never_go_down(reads: LocalReads)
    ensures
        reads.hit().hits >= reads.hits,
        reads.hit().misses == reads.misses,
        reads.miss().misses >= reads.misses,
        reads.miss().hits == reads.hits,
        reads.hits == u64::MAX ==> reads.hit().hits == u64::MAX,
        reads.misses == u64::MAX ==> reads.miss().misses == u64::MAX,
{
}

} // verus!
