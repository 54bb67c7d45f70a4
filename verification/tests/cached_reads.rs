use parallel_builder::cached_reads::{CachedDB, SharedCachedReads, StateReader};
use parallel_builder::hash_maps::{key_of_address, key_of_storage};
use parallel_builder::types::{Address, B256, U256};
use revm::bytecode::Bytecode;
use revm::state::AccountInfo;
use std::sync::atomic::{AtomicUsize, Ordering};
use std::sync::Arc;

const USER: Address = Address { high: 1, low: 2 };

/// A chain whose only account is that of the user.
#[derive(Clone)]
struct Chain {
    asked: Arc<AtomicUsize>,
    broken: bool,
}

impl Chain {
    fn new() -> Chain {
        Chain {
            asked: Arc::new(AtomicUsize::new(0)),
            broken: false,
        }
    }

    fn ask(&self) -> Result<(), String> {
        self.asked.fetch_add(1, Ordering::Relaxed);
        if self.broken {
            Err("no database".to_owned())
        } else {
            Ok(())
        }
    }
}

impl StateReader for Chain {
    type Error = String;

    fn basic(&self, address: Address) -> Result<Option<AccountInfo>, String> {
        self.ask()?;
        if address == USER {
            Ok(Some(account(1, 5)))
        } else {
            Ok(None)
        }
    }

    fn code_by_hash(&self, code_hash: B256) -> Result<Bytecode, String> {
        self.ask()?;
        Ok(Bytecode::new_raw(vec![code_hash.low as u8].into()))
    }

    fn storage(&self, _address: Address, index: U256) -> Result<U256, String> {
        self.ask()?;
        Ok(U256::from(index.low as u64 + 1))
    }

    fn block_hash(&self, number: u64) -> Result<B256, String> {
        self.ask()?;
        Ok(B256 {
            high: 0,
            low: number as u128,
        })
    }
}

fn account(balance: u64, nonce: u64) -> AccountInfo {
    AccountInfo {
        balance: revm::primitives::U256::from(balance),
        nonce,
        ..Default::default()
    }
}

fn hits(shared: &SharedCachedReads) -> u64 {
    shared.shared_hit_count.load(Ordering::Relaxed)
}

fn misses(shared: &SharedCachedReads) -> u64 {
    shared.shared_miss_count.load(Ordering::Relaxed)
}

#[test]
fn worker_local_account_and_storage_bypass_shared_and_batch_stats() {
    let address = USER;
    let slot = U256::from(3);
    let storage_value = U256::from(9);
    let account_info = account(11, 7);
    let shared_cache = Arc::new(SharedCachedReads::default());
    shared_cache
        .account_info
        .insert(key_of_address(address), Some(account_info.clone()));
    shared_cache
        .storage
        .insert(key_of_storage(address, slot), storage_value);

    let mut db = CachedDB::new(Chain::new(), Arc::clone(&shared_cache));
    assert_eq!(db.basic(address).unwrap(), Some(account_info.clone()));
    assert_eq!(db.storage(address, slot).unwrap(), storage_value);

    shared_cache.account_info.clear();
    shared_cache.storage.clear();
    assert_eq!(db.basic(address).unwrap(), Some(account_info));
    assert_eq!(db.storage(address, slot).unwrap(), storage_value);

    assert_eq!(hits(&shared_cache), 0);
    assert_eq!(misses(&shared_cache), 0);
    drop(db);
    assert_eq!(hits(&shared_cache), 4);
    assert_eq!(misses(&shared_cache), 0);
}

#[test]
fn local_miss_uses_shared_before_provider_across_workers() {
    let chain = Chain::new();
    let shared_cache = Arc::new(SharedCachedReads::default());

    let first_result = {
        let mut first_worker = CachedDB::new(chain.clone(), Arc::clone(&shared_cache));
        first_worker.basic(USER).unwrap()
    };
    assert_eq!(hits(&shared_cache), 0);
    assert_eq!(misses(&shared_cache), 1);

    let second_result = {
        let mut second_worker = CachedDB::new(chain.clone(), Arc::clone(&shared_cache));
        second_worker.basic(USER).unwrap()
    };
    assert_eq!(second_result, first_result);
    assert_eq!(second_result, Some(account(1, 5)));
    assert_eq!(hits(&shared_cache), 1);
    assert_eq!(misses(&shared_cache), 1);
    assert_eq!(chain.asked.load(Ordering::Relaxed), 1);
}

#[test]
fn rebind_to_new_parent_clears_local_reads_and_flushes_old_stats() {
    let address = USER;
    let parent_a = B256 {
        high: 0x01010101010101010101010101010101,
        low: 0x01010101010101010101010101010101,
    };
    let parent_b = B256 {
        high: 0x02020202020202020202020202020202,
        low: 0x02020202020202020202020202020202,
    };
    let account_a = account(1, 1);
    let account_b = account(2, 2);
    let shared_a = Arc::new(SharedCachedReads::default());
    let shared_b = Arc::new(SharedCachedReads::default());
    shared_a
        .account_info
        .insert(key_of_address(address), Some(account_a.clone()));
    shared_b
        .account_info
        .insert(key_of_address(address), Some(account_b.clone()));

    let mut db = CachedDB::new_for_parent(Chain::new(), Arc::clone(&shared_a), parent_a);
    assert_eq!(db.basic(address).unwrap(), Some(account_a));
    assert_eq!(hits(&shared_a), 0);

    db.rebind_for_parent(Chain::new(), Arc::clone(&shared_b), parent_b);
    assert_eq!(db.parent_hash(), Some(parent_b));
    assert_eq!(hits(&shared_a), 1);
    assert_eq!(db.basic(address).unwrap(), Some(account_b));
    drop(db);

    assert_eq!(hits(&shared_b), 1);
    assert_eq!(misses(&shared_a), 0);
    assert_eq!(misses(&shared_b), 0);
}

#[test]
fn rebind_to_the_same_parent_keeps_local_reads() {
    let parent = B256 { high: 1, low: 1 };
    let chain = Chain::new();
    let shared_a = Arc::new(SharedCachedReads::default());
    let shared_b = Arc::new(SharedCachedReads::default());
    let mut db = CachedDB::new_for_parent(chain.clone(), Arc::clone(&shared_a), parent);
    db.basic(USER).unwrap();
    db.storage(USER, U256::from(4)).unwrap();
    db.rebind_for_parent(chain.clone(), Arc::clone(&shared_b), parent);
    assert_eq!(misses(&shared_a), 2);
    assert_eq!(db.basic(USER).unwrap(), Some(account(1, 5)));
    assert_eq!(db.storage(USER, U256::from(4)).unwrap(), U256::from(5));
    assert_eq!(chain.asked.load(Ordering::Relaxed), 2);
    db.flush_stats();
    assert_eq!(hits(&shared_b), 2);
    assert_eq!(misses(&shared_b), 0);
}

#[test]
fn code_and_block_hashes_are_shared() {
    let chain = Chain::new();
    let shared = Arc::new(SharedCachedReads::default());
    let mut first = CachedDB::new(chain.clone(), Arc::clone(&shared));
    let mut second = CachedDB::new(chain.clone(), Arc::clone(&shared));
    let code_hash = B256 { high: 0, low: 7 };
    let code = first.code_by_hash(code_hash).unwrap();
    assert_eq!(code, Bytecode::new_raw(vec![7].into()));
    assert_eq!(second.code_by_hash(code_hash).unwrap(), code);
    assert_eq!(
        second.block_hash(12).unwrap(),
        B256 { high: 0, low: 12 }
    );
    assert_eq!(
        first.block_hash(12).unwrap(),
        B256 { high: 0, low: 12 }
    );
    assert_ne!(first.block_hash(13).unwrap(), first.block_hash(12).unwrap());
    assert_eq!(chain.asked.load(Ordering::Relaxed), 3);
    drop(first);
    drop(second);
    assert_eq!(hits(&shared), 3);
    assert_eq!(misses(&shared), 3);
}

#[test]
fn a_failed_read_is_not_kept() {
    let mut chain = Chain::new();
    chain.broken = true;
    let shared = Arc::new(SharedCachedReads::default());
    let mut db = CachedDB::new(chain.clone(), Arc::clone(&shared));
    assert_eq!(db.basic(USER).unwrap_err(), "no database");
    assert_eq!(db.basic(USER).unwrap_err(), "no database");
    assert!(db.storage(USER, U256::from(1)).is_err());
    assert!(db.code_by_hash(B256 { high: 0, low: 1 }).is_err());
    assert!(db.block_hash(1).is_err());
    assert!(shared.account_info.is_empty());
    assert_eq!(chain.asked.load(Ordering::Relaxed), 5);
    drop(db);
    assert_eq!(misses(&shared), 5);
    assert_eq!(hits(&shared), 0);
}

#[test]
fn an_account_that_is_missing_is_known_to_be_missing() {
    let chain = Chain::new();
    let shared = Arc::new(SharedCachedReads::default());
    let mut db = CachedDB::new(chain.clone(), shared);
    let nobody = Address { high: 9, low: 9 };
    assert_eq!(db.basic(nobody).unwrap(), None);
    assert_eq!(db.basic(nobody).unwrap(), None);
    assert_eq!(chain.asked.load(Ordering::Relaxed), 1);
}

#[test]
fn answers_are_kept_shared_and_counted_as_they_come() {
    let shared = Arc::new(SharedCachedReads::default());
    assert_eq!((hits(&shared), misses(&shared)), (0, 0));
    let chain = Chain::new();
    let mut db = CachedDB::new(chain.clone(), Arc::clone(&shared));
    let index = U256::from(4);

    assert_eq!(db.account_found(USER, Some(account(8, 8))), Some(account(8, 8)));
    assert_eq!(db.basic(USER).unwrap(), Some(account(8, 8)));
    assert!(shared.account_info.is_empty());
    assert_eq!(db.slot_found(USER, index, U256::from(6)), U256::from(6));
    assert_eq!(db.storage(USER, index).unwrap(), U256::from(6));
    assert!(shared.storage.is_empty());

    let other = Address { high: 3, low: 4 };
    let failed: Result<Option<AccountInfo>, String> = Err("no database".to_owned());
    assert!(db.account_provided(other, failed).is_err());
    assert!(shared.account_info.is_empty());
    assert_eq!(
        db.account_provided(other, Ok::<_, String>(None)).unwrap(),
        None
    );
    assert_eq!(shared.account_info.len(), 1);
    assert_eq!(
        db.slot_provided(other, index, Ok::<_, String>(index)).unwrap(),
        index
    );
    assert_eq!(shared.storage.len(), 1);
    let hash = B256 { high: 0, low: 7 };
    let code = Bytecode::new_raw(vec![7].into());
    assert!(db.code_provided(hash, Ok::<_, String>(code)).is_ok());
    assert_eq!(shared.code_by_hash.len(), 1);
    assert_eq!(db.hash_provided(7, Ok::<_, String>(hash)).unwrap(), hash);
    assert_eq!(shared.block_hash.len(), 1);

    assert_eq!(chain.asked.load(Ordering::Relaxed), 0);
    assert_eq!((hits(&shared), misses(&shared)), (0, 0));
    db.flush_stats();
    assert_eq!((hits(&shared), misses(&shared)), (4, 5));
    drop(db);
    assert_eq!((hits(&shared), misses(&shared)), (4, 5));
}
