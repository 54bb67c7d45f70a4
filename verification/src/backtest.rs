//! Building a block again from recorded orders.
use vstd::prelude::*;

use crate::hash_maps::{key_of_order, map_insert, map_new, order_key, AhashMap, MapKey};
use crate::private_mempool::{as_signed, signed, OrdersWithTimestamp};
use crate::provider::StateProviderFactory;
use crate::types::{OrderId, B256, U256};

verus! {

/// What a backtest is asked to do.
#[derive(Debug)]
pub struct BuildBlockCfg {
    /// Where the configuration is.
    pub config: String,
    /// Show all available orders.
    pub show_orders: bool,
    /// Show the orders and what simulating them at the top of the block gave.
    pub show_sim: bool,
    /// Do not build a block.
    pub no_block_building: bool,
    /// The builders to build a block with.
    pub builders: Vec<String>,
    /// Show all orders and transactions that are executed.
    pub trace_block_building: bool,
    /// Show the orders that hold this transaction.
    pub show_tx_extra_data: Option<B256>,
    /// Where to write the statistics of the conflict graphs.
    pub graph_stats_csv: Option<String>,
}

/// Gives the orders that a block is built from, and what is needed to execute them.
pub trait OrdersSource<ConfigType, ProviderType> where ProviderType: StateProviderFactory {
    type Order;

    type Context;

    type Error;

    fn config(&self) -> &ConfigType;

    /// The orders, and when they came in.
    fn available_orders(&self) -> Vec<OrdersWithTimestamp<Self::Order>>;

    /// The beginning of the block's slot.
    fn block_time_as_unix_ms(&self) -> u64;

    fn create_provider_factory(&self) -> Result<ProviderType, Self::Error>;

    fn create_block_building_context(&self) -> Result<Self::Context, Self::Error>;

    /// Prints what is particular to the source.
    fn print_custom_stats(&self, provider: ProviderType) -> Result<(), Self::Error>;
}

/// A step of a backtest.
#[derive(Debug, Clone, Copy, PartialEq, Eq, Structural)]
pub enum BacktestStep {
    CreateBlockBuildingContext,
    SetupTracingSubscriber,
    OpenGraphStats,
    LoadAvailableOrders,
    CreateProviderAndStats,
    SimulateAvailableOrders,
    ShowTxExtraData { tx_hash: B256 },
    ShowOrders,
    ShowSim,
    BuildBlocks { trace: bool },
}

/// The steps that are taken where the condition holds.
pub open spec fn step_if(condition: bool, step: BacktestStep) -> Seq<BacktestStep> {
    if condition {
        seq![step]
    } else {
        Seq::empty()
    }
}

/// The steps of a backtest, in the order in which they are taken.
pub open spec fn steps_of(cfg: BuildBlockCfg) -> Seq<BacktestStep> {
    seq![BacktestStep::CreateBlockBuildingContext, BacktestStep::SetupTracingSubscriber] + step_if(
        cfg.graph_stats_csv is Some,
        BacktestStep::OpenGraphStats,
    ) + seq![
        BacktestStep::LoadAvailableOrders,
        BacktestStep::CreateProviderAndStats,
        BacktestStep::SimulateAvailableOrders,
    ] + match cfg.show_tx_extra_data {
        Some(tx_hash) => seq![BacktestStep::ShowTxExtraData { tx_hash }],
        None => Seq::empty(),
    } + step_if(cfg.show_orders, BacktestStep::ShowOrders) + step_if(
        cfg.show_sim,
        BacktestStep::ShowSim,
    ) + step_if(
        !cfg.no_block_building,
        BacktestStep::BuildBlocks { trace: cfg.trace_block_building },
    )
}

/// Lists the steps of a backtest.
pub fn backtest_steps(cfg: &BuildBlockCfg) -> (steps: Vec<BacktestStep>)
    ensures
        steps@ == steps_of(*cfg),
{
    let mut steps: Vec<BacktestStep> = Vec::new();
    steps.push(BacktestStep::CreateBlockBuildingContext);
    steps.push(BacktestStep::SetupTracingSubscriber);
    if cfg.graph_stats_csv.is_some() {
        steps.push(BacktestStep::OpenGraphStats);
    }
    steps.push(BacktestStep::LoadAvailableOrders);
    steps.push(BacktestStep::CreateProviderAndStats);
    steps.push(BacktestStep::SimulateAvailableOrders);
    if let Some(tx_hash) = cfg.show_tx_extra_data {
        steps.push(BacktestStep::ShowTxExtraData { tx_hash });
    }
    if cfg.show_orders {
        steps.push(BacktestStep::ShowOrders);
    }
    if cfg.show_sim {
        steps.push(BacktestStep::ShowSim);
    }
    if !cfg.no_block_building {
        steps.push(BacktestStep::BuildBlocks { trace: cfg.trace_block_building });
    }
    assert(steps@ =~= steps_of(*cfg));
    steps
}

/// The builder at the place is the last of those with the largest profit. Builders that built no
/// block have none.
pub open spec fn is_winner(profits: Seq<Option<U256>>, place: int) -> bool {
    &&& 0 <= place < profits.len()
    &&& profits[place] is Some
    &&& forall|i: int|
        0 <= i < profits.len() && (#[trigger] profits[i]) is Some ==> profits[i]->0.value()
            <= profits[place]->0.value()
    &&& forall|i: int|
        place < i < profits.len() && (#[trigger] profits[i]) is Some ==> profits[i]->0.value()
            < profits[place]->0.value()
}

/// Finds the builder that wins, by the profits of the blocks that the builders built.
pub fn winning_builder(profits: &Vec<Option<U256>>) -> (r: Option<usize>)
    ensures
        match r {
            Some(place) => is_winner(profits@, place as int),
            None => forall|i: int| 0 <= i < profits@.len() ==> (#[trigger] profits@[i]) is None,
        },
{
    let mut winner: Option<(usize, U256)> = None;
    for i in 0..profits.len()
        invariant
            match winner {
                Some((place, value)) => place < i && profits@[place as int] == Some(value) && (
                forall|j: int|
                    0 <= j < i && (#[trigger] profits@[j]) is Some ==> profits@[j]->0.value()
                        <= value.value()) && (forall|j: int|
                    place < j < i && (#[trigger] profits@[j]) is Some ==> profits@[j]->0.value()
                        < value.value()),
                None => forall|j: int| 0 <= j < i ==> (#[trigger] profits@[j]) is None,
            },
    {
        if let Some(profit) = profits[i] {
            match winner {
                Some((_, value)) => {
                    if !profit.is_less_than(value) {
                        winner = Some((i, profit));
                    }
                },
                None => {
                    winner = Some((i, profit));
                },
            }
        }
    }
    match winner {
        Some((place, _)) => Some(place),
        None => None,
    }
}

/// How far before the block's time something came in: the block's time counts in seconds, and the
/// rest in milliseconds.
pub open spec fn slot_time(timestamp_ms: u64, block_timestamp: u64) -> int {
    as_signed((block_timestamp * 1000) as u64) - as_signed(timestamp_ms)
}

/// The time can be computed.
pub open spec fn has_slot_time(timestamp_ms: u64, block_timestamp: u64) -> bool {
    &&& block_timestamp * 1000 <= u64::MAX
    &&& i64::MIN <= slot_time(timestamp_ms, block_timestamp) <= i64::MAX
}

/// Computes [`slot_time`].
pub fn timestamp_ms_to_slot_time(timestamp_ms: u64, block_timestamp: u64) -> (r: i64)
    requires
        has_slot_time(timestamp_ms, block_timestamp),
    ensures
        r == slot_time(timestamp_ms, block_timestamp),
{
    signed(block_timestamp * 1000) - signed(timestamp_ms)
}

/// When the order came in: the last time that is known of it, or zero.
pub open spec fn order_timestamp(arrivals: Seq<(OrderId, u64)>, id: OrderId) -> u64
    decreases arrivals.len(),
{
    if arrivals.len() == 0 {
        0
    } else if arrivals.last().0 == id {
        arrivals.last().1
    } else {
        order_timestamp(arrivals.drop_last(), id)
    }
}

/// The time that the map has of an order, or zero.
pub open spec fn timestamp_in(m: Map<MapKey, u64>, id: OrderId) -> u64 {
    if m.contains_key(order_key(id)) {
        m[order_key(id)]
    } else {
        0
    }
}

/// Maps orders to the times at which they came in.
pub(crate) fn timestamps_of(arrivals: &Vec<(OrderId, u64)>) -> (m: AhashMap<u64>)
    ensures
        forall|id: OrderId| #[trigger] timestamp_in(m@, id) == order_timestamp(arrivals@, id),
{
    let mut m: AhashMap<u64> = map_new();
    for i in 0..arrivals.len()
        invariant
            forall|id: OrderId| #[trigger]
                timestamp_in(m@, id) == order_timestamp(arrivals@.take(i as int), id),
    {
        let ghost before = m@;
        let arrival = arrivals[i];
        map_insert(&mut m, key_of_order(arrival.0), arrival.1);
        proof {
            let next = arrivals@.take(i + 1);
            assert(next.drop_last() =~= arrivals@.take(i as int));
            assert(next.last() == arrival);
            assert forall|id: OrderId| #[trigger] timestamp_in(m@, id) == order_timestamp(
                next,
                id,
            ) by {
                assert(timestamp_in(before, id) == order_timestamp(
                    arrivals@.take(i as int),
                    id,
                ));
                if id != arrival.0 {
                    assert(order_key(id) != order_key(arrival.0));
                }
            }
        }
    }
    assert(arrivals@.take(arrivals@.len() as int) =~= arrivals@);
    m
}

} // verus!
