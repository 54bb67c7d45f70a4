//! Where the state of a block comes from.
use std::sync::Arc;
use vstd::prelude::*;

use crate::types::{Address, B256};

verus! {

/// How often state was asked for.
#[derive(Clone, Copy, Debug, PartialEq, Eq, Structural)]
pub struct ProviderAccessStats {
    pub provider_opens: u64,
    pub consistency_checks: u64,
    pub health_scans: u64,
}

impl Default for ProviderAccessStats {
    fn default() -> (r: ProviderAccessStats)
        ensures
            r == no_accesses(),
    {
        ProviderAccessStats { provider_opens: 0, consistency_checks: 0, health_scans: 0 }
    }
}

/// Nothing was asked for.
pub open spec fn no_accesses() -> ProviderAccessStats {
    ProviderAccessStats { provider_opens: 0, consistency_checks: 0, health_scans: 0 }
}

/// The next count; the largest is followed by zero.
pub open spec fn next_count(n: u64) -> u64 {
    if n == u64::MAX {
        0
    } else {
        (n + 1) as u64
    }
}

/// Counts as if nothing had been asked for.
pub fn reset_provider_access_stats(stats: &mut ProviderAccessStats)
    ensures
        *final(stats) == no_accesses(),
{
    stats.provider_opens = 0;
    stats.consistency_checks = 0;
    stats.health_scans = 0;
}

/// The counts so far.
pub fn provider_access_stats(stats: &ProviderAccessStats) -> (r: ProviderAccessStats)
    ensures
        r == *stats,
{
    *stats
}

/// Counts a provider that was opened.
pub fn record_provider_open(stats: &mut ProviderAccessStats)
    ensures
        *final(stats) == (ProviderAccessStats {
            provider_opens: next_count(old(stats).provider_opens),
            ..*old(stats)
        }),
{
    stats.provider_opens = stats.provider_opens.wrapping_add(1);
}

/// Counts a check of consistency.
pub fn record_provider_consistency_check(stats: &mut ProviderAccessStats)
    ensures
        *final(stats) == (ProviderAccessStats {
            consistency_checks: next_count(old(stats).consistency_checks),
            ..*old(stats)
        }),
{
    stats.consistency_checks = stats.consistency_checks.wrapping_add(1);
}

/// Counts a scan of health.
pub fn record_provider_health_scan(stats: &mut ProviderAccessStats)
    ensures
        *final(stats) == (ProviderAccessStats {
            health_scans: next_count(old(stats).health_scans),
            ..*old(stats)
        }),
{
    stats.health_scans = stats.health_scans.wrapping_add(1);
}

/// Computes the state root of a block on top of a fixed parent, and proofs of accounts in it.
pub trait RootHasher {
    /// The orders that are simulated while blocks are built.
    type SimulatedOrders;

    /// What a block changes.
    type Outcome;

    /// What a thread keeps while it builds blocks.
    type Context;

    /// Proofs of accounts.
    type Proofs;

    type Error;

    /// Starts to fetch what the simulated orders will need. It is called once, before anything
    /// else.
    fn run_prefetcher(&self, simulated_orders: Self::SimulatedOrders);

    /// The state root; `incremental_change` lists the accounts that have changed since the last
    /// call.
    fn state_root(
        &self,
        outcome: &Self::Outcome,
        incremental_change: &[Address],
        local_ctx: &mut Self::Context,
    ) -> Result<B256, Self::Error>;

    /// Proofs of the accounts at the addresses.
    fn account_proofs(
        &self,
        outcome: &Self::Outcome,
        addresses: &[Address],
        local_ctx: &mut Self::Context,
    ) -> Result<Self::Proofs, Self::Error>;
}

/// Gives access to chain data.
pub trait StateProviderFactory: Sized {
    /// An opened state.
    type Provider;

    /// A block header.
    type Header;

    /// Computes state roots on top of a parent block.
    type Hasher: RootHasher;

    type Error;

    /// A factory that was checked for work on top of the parent, where this one has such. By
    /// default there is none, and the factory serves as it is.
    fn prepare_for_parent(&self, parent_hash: B256) -> (r: Result<Option<Self>, Self::Error>)
        default_ensures
            r == Ok::<Option<Self>, Self::Error>(None),
    {
        Ok(None)
    }

    /// The state after the latest block.
    fn latest(&self) -> Result<Self::Provider, Self::Error>;

    /// The state after the block with the number.
    fn history_by_block_number(&self, block: u64) -> Result<Self::Provider, Self::Error>;

    /// The state after the block with the hash.
    fn history_by_block_hash(&self, block: B256) -> Result<Self::Provider, Self::Error>;

    fn header(&self, block_hash: &B256) -> Result<Option<Self::Header>, Self::Error>;

    fn block_hash(&self, number: u64) -> Result<Option<B256>, Self::Error>;

    fn best_block_number(&self) -> Result<u64, Self::Error>;

    fn header_by_number(&self, num: u64) -> Result<Option<Self::Header>, Self::Error>;

    fn last_block_number(&self) -> Result<u64, Self::Error>;

    /// A hasher for blocks on top of the parent with the number and the hash.
    fn root_hasher(&self, parent_number: u64, parent_hash: B256) -> Result<
        Self::Hasher,
        Self::Error,
    >;
}

impl<T: StateProviderFactory> StateProviderFactory for Arc<T> {
    type Provider = T::Provider;

    type Header = T::Header;

    type Hasher = T::Hasher;

    type Error = T::Error;

    fn prepare_for_parent(&self, parent_hash: B256) -> (r: Result<Option<Arc<T>>, T::Error>)
        ensures
            call_ensures(
                T::prepare_for_parent,
                (&**self, parent_hash),
                match r {
                    Ok(Some(prepared)) => Ok(Some(*prepared)),
                    Ok(None) => Ok(None),
                    Err(error) => Err(error),
                },
            ),
    {
        match (**self).prepare_for_parent(parent_hash) {
            Ok(Some(prepared)) => Ok(Some(Arc::new(prepared))),
            Ok(None) => Ok(None),
            Err(error) => Err(error),
        }
    }

    fn latest(&self) -> (r: Result<T::Provider, T::Error>)
        ensures
            call_ensures(T::latest, (&**self,), r),
    {
        (**self).latest()
    }

    fn history_by_block_number(&self, block: u64) -> (r: Result<T::Provider, T::Error>)
        ensures
            call_ensures(T::history_by_block_number, (&**self, block), r),
    {
        (**self).history_by_block_number(block)
    }

    fn history_by_block_hash(&self, block: B256) -> (r: Result<T::Provider, T::Error>)
        ensures
            call_ensures(T::history_by_block_hash, (&**self, block), r),
    {
        (**self).history_by_block_hash(block)
    }

    fn header(&self, block_hash: &B256) -> (r: Result<Option<T::Header>, T::Error>)
        ensures
            call_ensures(T::header, (&**self, block_hash), r),
    {
        (**self).header(block_hash)
    }

    fn block_hash(&self, number: u64) -> (r: Result<Option<B256>, T::Error>)
        ensures
            call_ensures(T::block_hash, (&**self, number), r),
    {
        (**self).block_hash(number)
    }

    fn best_block_number(&self) -> (r: Result<u64, T::Error>)
        ensures
            call_ensures(T::best_block_number, (&**self,), r),
    {
        (**self).best_block_number()
    }

    fn header_by_number(&self, num: u64) -> (r: Result<Option<T::Header>, T::Error>)
        ensures
            call_ensures(T::header_by_number, (&**self, num), r),
    {
        (**self).header_by_number(num)
    }

    fn last_block_number(&self) -> (r: Result<u64, T::Error>)
        ensures
            call_ensures(T::last_block_number, (&**self,), r),
    {
        (**self).last_block_number()
    }

    fn root_hasher(&self, parent_number: u64, parent_hash: B256) -> (r: Result<
        T::Hasher,
        T::Error,
    >)
        ensures
            call_ensures(T::root_hasher, (&**self, parent_number, parent_hash), r),
    {
        (**self).root_hasher(parent_number, parent_hash)
    }
}

/// Opens the state of one parent block. Each user opens a state of its own, and all of them that
/// of the same block.
pub struct StateProviderSource<F> {
    factory: F,
    parent_hash: B256,
}

impl<F: Clone> Clone for StateProviderSource<F> {
    fn clone(&self) -> (r: StateProviderSource<F>)
        ensures
            cloned(self.source_factory(), r.source_factory()),
            r.parent() == self.parent(),
    {
        StateProviderSource { factory: self.factory.clone(), parent_hash: self.parent_hash }
    }
}

impl<F> StateProviderSource<F> {
    /// The factory that states are opened with.
    pub closed spec fn source_factory(&self) -> F {
        self.factory
    }

    /// The block whose state is opened.
    pub closed spec fn parent(&self) -> B256 {
        self.parent_hash
    }

    /// A source for the parent.
    pub fn new(factory: F, parent_hash: B256) -> (r: StateProviderSource<F>)
        ensures
            r.source_factory() == factory,
            r.parent() == parent_hash,
    {
        StateProviderSource { factory, parent_hash }
    }

    /// A source for the parent, where preparing the factory gave `prepared`: the prepared factory
    /// is used where there is one, and the given one otherwise.
    pub fn new_with_prepared(factory: F, prepared: Option<F>, parent_hash: B256) -> (r:
        StateProviderSource<F>)
        ensures
            r.source_factory() == match prepared {
                Some(checked) => checked,
                None => factory,
            },
            r.parent() == parent_hash,
    {
        match prepared {
            Some(checked) => Self::new(checked, parent_hash),
            None => Self::new(factory, parent_hash),
        }
    }

    /// The block whose state is opened.
    pub fn parent_hash(&self) -> (r: B256)
        ensures
            r == self.parent(),
    {
        self.parent_hash
    }
}

impl<F: StateProviderFactory> StateProviderSource<F> {
    /// A source for the parent, with a factory that was prepared for it, where there is such.
    pub fn new_prepared(factory: F, parent_hash: B256) -> (r: Result<
        StateProviderSource<F>,
        F::Error,
    >)
        ensures
            exists|prepared: Result<Option<F>, F::Error>| #[trigger]
                call_ensures(F::prepare_for_parent, (&factory, parent_hash), prepared)
                    && match prepared {
                    Ok(Some(checked)) => r is Ok && r->Ok_0.source_factory() == checked
                        && r->Ok_0.parent() == parent_hash,
                    Ok(None) => r is Ok && r->Ok_0.source_factory() == factory
                        && r->Ok_0.parent() == parent_hash,
                    Err(error) => r is Err && r->Err_0 == error,
                },
    {
        let prepared = factory.prepare_for_parent(parent_hash);
        let ghost given = prepared;
        assert(call_ensures(F::prepare_for_parent, (&factory, parent_hash), given));
        match prepared {
            Ok(checked) => Ok(Self::new_with_prepared(factory, checked, parent_hash)),
            Err(error) => Err(error),
        }
    }

    /// Opens the state of the parent block, and counts that.
    pub fn state_provider(&self, stats: &mut ProviderAccessStats) -> (r: Result<
        F::Provider,
        F::Error,
    >)
        ensures
            call_ensures(
                F::history_by_block_hash,
                (&self.source_factory(), self.parent()),
                r,
            ),
            *final(stats) == (ProviderAccessStats {
                provider_opens: next_count(old(stats).provider_opens),
                ..*old(stats)
            }),
    {
        record_provider_open(stats);
        self.factory.history_by_block_hash(self.parent_hash)
    }
}

} // verus!
