use parallel_builder::provider::{
    provider_access_stats, record_provider_consistency_check, record_provider_health_scan,
    reset_provider_access_stats, ProviderAccessStats, RootHasher, StateProviderFactory,
    StateProviderSource,
};
use parallel_builder::types::{Address, B256};
use rayon::iter::{IntoParallelIterator, ParallelIterator};
use std::sync::atomic::{AtomicUsize, Ordering};
use std::sync::Arc;

const ZERO: B256 = B256 { high: 0, low: 0 };

struct NoHasher;

impl RootHasher for NoHasher {
    type SimulatedOrders = ();
    type Outcome = ();
    type Context = ();
    type Proofs = ();
    type Error = String;

    fn run_prefetcher(&self, _simulated_orders: ()) {}

    fn state_root(&self, _: &(), _: &[Address], _: &mut ()) -> Result<B256, String> {
        Err("no state".to_owned())
    }

    fn account_proofs(&self, _: &(), _: &[Address], _: &mut ()) -> Result<(), String> {
        Err("no state".to_owned())
    }
}

#[derive(Clone)]
struct CountingPreparingFactory {
    prepare_count: Arc<AtomicUsize>,
    history_count: Arc<AtomicUsize>,
    prepared: bool,
}

impl CountingPreparingFactory {
    fn unavailable<T>() -> Result<T, String> {
        Err("counting test factory has no provider".to_owned())
    }
}

impl StateProviderFactory for CountingPreparingFactory {
    type Provider = ();
    type Header = ();
    type Hasher = NoHasher;
    type Error = String;

    fn prepare_for_parent(&self, _parent_hash: B256) -> Result<Option<Self>, String> {
        if self.prepared {
            return Ok(None);
        }
        self.prepare_count.fetch_add(1, Ordering::Relaxed);
        Ok(Some(Self {
            prepare_count: Arc::clone(&self.prepare_count),
            history_count: Arc::clone(&self.history_count),
            prepared: true,
        }))
    }

    fn latest(&self) -> Result<(), String> {
        Self::unavailable()
    }

    fn history_by_block_number(&self, _block: u64) -> Result<(), String> {
        Self::unavailable()
    }

    fn history_by_block_hash(&self, _block: B256) -> Result<(), String> {
        self.history_count.fetch_add(1, Ordering::Relaxed);
        Self::unavailable()
    }

    fn header(&self, _block_hash: &B256) -> Result<Option<()>, String> {
        Self::unavailable()
    }

    fn block_hash(&self, _number: u64) -> Result<Option<B256>, String> {
        Self::unavailable()
    }

    fn best_block_number(&self) -> Result<u64, String> {
        Self::unavailable()
    }

    fn header_by_number(&self, _num: u64) -> Result<Option<()>, String> {
        Self::unavailable()
    }

    fn last_block_number(&self) -> Result<u64, String> {
        Self::unavailable()
    }

    fn root_hasher(&self, _parent_number: u64, _parent_hash: B256) -> Result<NoHasher, String> {
        Self::unavailable()
    }
}

#[test]
fn prepared_source_is_checked_once_and_opened_per_concurrent_worker() {
    let prepare_count = Arc::new(AtomicUsize::new(0));
    let history_count = Arc::new(AtomicUsize::new(0));
    let factory = Arc::new(CountingPreparingFactory {
        prepare_count: Arc::clone(&prepare_count),
        history_count: Arc::clone(&history_count),
        prepared: false,
    });
    let source = StateProviderSource::new_prepared(factory, ZERO).unwrap();

    (0..60).into_par_iter().for_each(|_| {
        let source = source.clone();
        let mut stats = ProviderAccessStats::default();
        assert!(source.state_provider(&mut stats).is_err());
        assert_eq!(stats.provider_opens, 1);
    });

    assert_eq!(prepare_count.load(Ordering::Relaxed), 1);
    assert_eq!(history_count.load(Ordering::Relaxed), 60);
}

/// A factory that serves as it is, and whose state is the number of the block.
#[derive(Clone, Copy)]
struct PlainFactory;

impl StateProviderFactory for PlainFactory {
    type Provider = u128;
    type Header = u64;
    type Hasher = NoHasher;
    type Error = String;

    fn latest(&self) -> Result<u128, String> {
        Ok(99)
    }

    fn history_by_block_number(&self, block: u64) -> Result<u128, String> {
        Ok(block as u128)
    }

    fn history_by_block_hash(&self, block: B256) -> Result<u128, String> {
        Ok(block.low)
    }

    fn header(&self, block_hash: &B256) -> Result<Option<u64>, String> {
        Ok(Some(block_hash.low as u64))
    }

    fn block_hash(&self, number: u64) -> Result<Option<B256>, String> {
        Ok(Some(B256 {
            high: 0,
            low: number as u128,
        }))
    }

    fn best_block_number(&self) -> Result<u64, String> {
        Ok(99)
    }

    fn header_by_number(&self, num: u64) -> Result<Option<u64>, String> {
        Ok(Some(num))
    }

    fn last_block_number(&self) -> Result<u64, String> {
        Ok(98)
    }

    fn root_hasher(&self, _parent_number: u64, _parent_hash: B256) -> Result<NoHasher, String> {
        Ok(NoHasher)
    }
}

#[test]
fn a_source_opens_the_state_of_its_parent() {
    let parent = B256 { high: 0, low: 41 };
    let mut stats = ProviderAccessStats::default();
    let source = StateProviderSource::new(PlainFactory, parent);
    assert_eq!(source.parent_hash(), parent);
    assert_eq!(source.state_provider(&mut stats), Ok(41));
    let source = StateProviderSource::new_prepared(PlainFactory, parent).unwrap();
    assert_eq!(source.state_provider(&mut stats), Ok(41));
    assert_eq!(stats.provider_opens, 2);
    assert_eq!(stats.consistency_checks, 0);
}

#[test]
fn a_shared_factory_serves_as_the_factory_itself() {
    let factory = Arc::new(PlainFactory);
    let hash = B256 { high: 0, low: 5 };
    assert!(StateProviderFactory::prepare_for_parent(&factory, hash)
        .unwrap()
        .is_none());
    assert_eq!(StateProviderFactory::latest(&factory), Ok(99));
    assert_eq!(
        StateProviderFactory::history_by_block_number(&factory, 4),
        Ok(4)
    );
    assert_eq!(
        StateProviderFactory::history_by_block_hash(&factory, hash),
        Ok(5)
    );
    assert_eq!(StateProviderFactory::header(&factory, &hash), Ok(Some(5)));
    assert_eq!(
        StateProviderFactory::block_hash(&factory, 5),
        Ok(Some(hash))
    );
    assert_eq!(StateProviderFactory::best_block_number(&factory), Ok(99));
    assert_eq!(
        StateProviderFactory::header_by_number(&factory, 6),
        Ok(Some(6))
    );
    assert_eq!(StateProviderFactory::last_block_number(&factory), Ok(98));
    assert!(StateProviderFactory::root_hasher(&factory, 1, hash).is_ok());
}

#[test]
fn a_prepared_factory_takes_the_place_of_the_given_one() {
    let parent = B256 { high: 0, low: 1 };
    let mut stats = ProviderAccessStats::default();
    let refused = CountingPreparingFactory {
        prepare_count: Arc::new(AtomicUsize::new(0)),
        history_count: Arc::new(AtomicUsize::new(0)),
        prepared: true,
    };
    let prepared = refused.clone();
    let source = StateProviderSource::new_with_prepared(refused.clone(), Some(prepared), parent);
    assert!(source.state_provider(&mut stats).is_err());
    let source = StateProviderSource::new_prepared(refused.clone(), parent).unwrap();
    assert!(source.state_provider(&mut stats).is_err());
    assert_eq!(refused.prepare_count.load(Ordering::Relaxed), 0);
    assert_eq!(refused.history_count.load(Ordering::Relaxed), 2);
}

#[test]
fn accesses_are_counted_and_reset() {
    let mut stats = ProviderAccessStats::default();
    record_provider_consistency_check(&mut stats);
    record_provider_consistency_check(&mut stats);
    record_provider_health_scan(&mut stats);
    assert_eq!(
        provider_access_stats(&stats),
        ProviderAccessStats {
            provider_opens: 0,
            consistency_checks: 2,
            health_scans: 1
        }
    );
    stats.health_scans = u64::MAX;
    record_provider_health_scan(&mut stats);
    assert_eq!(stats.health_scans, 0);
    reset_provider_access_stats(&mut stats);
    assert_eq!(stats, ProviderAccessStats::default());
}
