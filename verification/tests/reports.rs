use parallel_builder::backtest::{
    backtest_steps, timestamp_ms_to_slot_time, winning_builder, BacktestStep, BuildBlockCfg,
    OrdersSource,
};
use parallel_builder::default_tasks::DefaultGraphStudyRecord;
use parallel_builder::private_mempool::OrdersWithTimestamp;
use parallel_builder::provider::{RootHasher, StateProviderFactory};
use parallel_builder::report::{
    available_orders_line, builder_profit_line, builder_time_line, graph_stats_header_line,
    graph_stats_line, mev_blocker_price_line, print_order_and_timestamp,
    print_order_execution_result, print_orders_with_tx_hash, print_simulated_orders,
    used_orders_line, winner_line, DelayedKickbackReport, ExecutionReport, GraphStatsContext,
    OrderReport, ProfitReport, SimOrderReport, TxReport,
};
use parallel_builder::types::{Address, OrderId, B256, U256};

const WEI: u64 = 1_395_633_240_123_456_000;

fn hash(n: u128) -> B256 {
    B256 { high: 0, low: n }
}

fn tx(n: u128) -> TxReport {
    TxReport {
        hash: hash(n),
        optional: n % 2 == 1,
        signer: Address { high: 0, low: 1 },
        to: if n % 2 == 1 {
            Some(Address { high: 0, low: 0xab })
        } else {
            None
        },
        nonce: 7,
    }
}

fn order(id: u128, is_bundle: bool, txs: &[u128]) -> OrderReport {
    OrderReport {
        id: OrderId { hash: hash(id) },
        id_text: format!("order-{id}"),
        is_bundle,
        txs: txs.iter().map(|n| tx(*n)).collect(),
    }
}

fn sim(id: u128, profit: u64, txs: &[u128]) -> SimOrderReport {
    SimOrderReport {
        order: order(id, true, txs),
        full: ProfitReport {
            coinbase_profit: U256::from(profit),
            mev_gas_price: U256::from(1),
        },
        non_mempool: ProfitReport {
            coinbase_profit: U256::zero(),
            mev_gas_price: U256::zero(),
        },
        gas_used: 21000,
    }
}

fn hash_text(n: u128) -> String {
    format!("{:?}", alloy_primitives::B256::from(alloy_primitives::U256::from(n)))
}

#[test]
fn orders_with_a_transaction_are_reported() {
    let lines = print_orders_with_tx_hash(
        hash(5),
        &vec![
            order(1, true, &[4, 5]),
            order(2, true, &[6]),
            order(3, false, &[5]),
        ],
        &vec![sim(4, WEI, &[6]), sim(5, WEI, &[5])],
    );
    assert_eq!(
        lines,
        vec![
            format!("---- BEGIN Orders with tx hash: {}", hash_text(5)),
            "ORDERS:".to_owned(),
            "order-1".to_owned(),
            format!("      ↳ {}", hash_text(4)),
            format!("      ↳ {}", hash_text(5)),
            "order-3".to_owned(),
            "".to_owned(),
            "SIM ORDERS:".to_owned(),
            "order-5".to_owned(),
            format!("      ↳ {}", hash_text(5)),
            "      * full: coinbase_profit 1.395633240123456000 mev_gas_price 0.000000000000000001"
                .to_owned(),
            "      * non_mempool: coinbase_profit 0.000000000000000000 mev_gas_price 0.000000000000000000"
                .to_owned(),
            "      * gas_used 21000".to_owned(),
            format!("---- END Orders with tx hash: {}", hash_text(5)),
        ]
    );
}

#[test]
fn executed_orders_are_reported() {
    let mut result = ExecutionReport {
        order: order(1, true, &[4]),
        gas: 21000,
        coinbase_profit: U256 {
            high: u128::MAX,
            low: u128::MAX,
        },
        paid_kickbacks: vec![(Address { high: 0, low: 0xcd }, U256::from(WEI))],
        delayed_kickback: Some(DelayedKickbackReport {
            recipient: Address {
                high: 0xf0000000,
                low: 0,
            },
            payout_value: U256::from(2),
            payout_tx_fee: U256::from(3),
            should_pay_in_block: false,
        }),
    };
    let first = format!(
        "{:<74} gas: {:>8} profit: {}",
        "order-1",
        21000,
        alloy_primitives::utils::format_ether(alloy_primitives::U256::MAX)
    );
    assert_eq!(
        print_order_execution_result(&result),
        vec![
            first.clone(),
            format!("      ↳ {}", hash_text(4)),
            "      $ Paid kickback to: 0x00000000000000000000000000000000000000cd value: 1.395633240123456000"
                .to_owned(),
            "      $ Delayed kickback to: 0xf000000000000000000000000000000000000000 value: 0.000000000000000002 tx_fee: 0.000000000000000003 paid at end of block: false"
                .to_owned(),
        ]
    );
    result.order.is_bundle = false;
    assert_eq!(print_order_execution_result(&result), vec![first]);
}

#[test]
fn orders_are_reported_by_time() {
    let timed = |timestamp_ms: u64, order: OrderReport| OrdersWithTimestamp {
        timestamp_ms,
        order,
    };
    let lines = print_order_and_timestamp(
        &vec![
            timed(5_000, order(1, true, &[4])),
            timed(3_000, order(2, false, &[5])),
            timed(5_000, order(3, false, &[])),
        ],
        4,
    );
    let from = "0x0000000000000000000000000000000000000001";
    assert_eq!(
        lines,
        vec![
            "---- BEGIN Orders and timestamp:".to_owned(),
            format!("{:>74} ts: {}", "order-2", 1000),
            format!("    {} true", hash_text(5)),
            format!("        from: {from} to: Some(0x00000000000000000000000000000000000000ab) nonce: 7"),
            format!("{:>74} ts: {}", "order-1", -1000),
            format!("    {} false", hash_text(4)),
            format!("        from: {from} to: None nonce: 7"),
            format!("{:>74} ts: {}", "order-3", -1000),
            "---- END Orders and timestamp".to_owned(),
        ]
    );
}

#[test]
fn simulated_orders_are_reported_by_profit() {
    let id = |n: u128| OrderId { hash: hash(n) };
    let lines = print_simulated_orders(
        &vec![sim(1, 5, &[]), sim(2, 9, &[]), sim(3, 5, &[])],
        &vec![(id(1), 1), (id(2), 7_000), (id(1), 4_500)],
        5,
    );
    let line = |name: &str, slot: i64, profit: &str| {
        format!("{name:>74} slot_time_ms: {slot:>8}, gas: {:>8} profit: {profit}", 21000)
    };
    assert_eq!(
        lines,
        vec![
            "Simulated orders: (3 total)".to_owned(),
            line("order-2", -2000, "0.000000000000000009"),
            line("order-3", 5000, "0.000000000000000005"),
            line("order-1", 500, "0.000000000000000005"),
            "".to_owned(),
        ]
    );
}

#[test]
fn slot_times_count_back_from_the_block() {
    assert_eq!(timestamp_ms_to_slot_time(1_500, 2), 500);
    assert_eq!(timestamp_ms_to_slot_time(2_500, 2), -500);
    assert_eq!(timestamp_ms_to_slot_time(u64::MAX, 0), 1);
}

#[test]
fn graph_statistics_are_written_as_rows() {
    assert_eq!(graph_stats_header_line().split(',').count(), 14);
    let context = GraphStatsContext {
        block_number: 19,
        builder_name: "mp-ordering",
        density: "0.666667",
        orientation_eligible: true,
        random_task_added: false,
    };
    let mut record = DefaultGraphStudyRecord {
        group_id: 3,
        algorithm: "RecursiveDefault".to_owned(),
        original_order_count: 9,
        selected_order_count: 8,
        edge_count: 2,
        complete_graph_edges: 3,
        max_degree: 2,
        has_missing_traces: false,
        candidate_sequence_count: None,
        best_profit: None,
    };
    assert_eq!(
        graph_stats_line(&context, &record),
        "19,mp-ordering,3,RecursiveDefault,9,8,2,0.666667,2,false,true,false,,"
    );
    record.candidate_sequence_count = Some(24);
    record.best_profit = Some(U256 {
        high: u128::MAX,
        low: u128::MAX,
    });
    assert_eq!(
        graph_stats_line(&context, &record),
        format!(
            "19,mp-ordering,3,RecursiveDefault,9,8,2,0.666667,2,false,true,false,24,{}",
            alloy_primitives::U256::MAX
        )
    );
}

#[test]
fn the_last_of_the_best_builders_wins() {
    let some = |n: u64| Some(U256::from(n));
    assert_eq!(winning_builder(&vec![some(3), some(5), None, some(5), some(4)]), Some(3));
    assert_eq!(winning_builder(&vec![None, some(0)]), Some(1));
    assert_eq!(winning_builder(&vec![None, None]), None);
    assert_eq!(winning_builder(&Vec::new()), None);
}

#[test]
fn what_is_said_of_builders_is_exact() {
    let value = U256::from(WEI);
    assert_eq!(
        winner_line("mp-ordering", value),
        "Winning builder: mp-ordering with profit: 1.395633240123456000"
    );
    assert_eq!(
        builder_profit_line(value),
        "Builder profit: 1.395633240123456000"
    );
    assert_eq!(builder_time_line(12), "Builder time:   12 ms");
    assert_eq!(used_orders_line(0), "Number of used orders: 0");
    assert_eq!(available_orders_line(107), "Available orders: 107");
    assert_eq!(
        mev_blocker_price_line(U256::zero()),
        "mev_blocker_price 0.000000000000000000"
    );
}

#[test]
fn the_steps_of_a_backtest_follow_the_configuration() {
    let mut cfg = BuildBlockCfg {
        config: "config.toml".to_owned(),
        show_orders: false,
        show_sim: false,
        no_block_building: true,
        builders: vec!["mp-ordering".to_owned()],
        trace_block_building: true,
        show_tx_extra_data: None,
        graph_stats_csv: None,
    };
    assert_eq!(
        backtest_steps(&cfg),
        vec![
            BacktestStep::CreateBlockBuildingContext,
            BacktestStep::SetupTracingSubscriber,
            BacktestStep::LoadAvailableOrders,
            BacktestStep::CreateProviderAndStats,
            BacktestStep::SimulateAvailableOrders,
        ]
    );
    cfg.show_orders = true;
    cfg.show_sim = true;
    cfg.no_block_building = false;
    cfg.show_tx_extra_data = Some(hash(5));
    cfg.graph_stats_csv = Some("stats.csv".to_owned());
    let steps = backtest_steps(&cfg);
    assert_eq!(steps.len(), 10);
    assert_eq!(steps[2], BacktestStep::OpenGraphStats);
    assert_eq!(steps[6], BacktestStep::ShowTxExtraData { tx_hash: hash(5) });
    assert_eq!(steps[9], BacktestStep::BuildBlocks { trace: true });
}

struct Hasher;

impl RootHasher for Hasher {
    type SimulatedOrders = ();
    type Outcome = ();
    type Context = ();
    type Proofs = ();
    type Error = ();

    fn run_prefetcher(&self, _: ()) {}

    fn state_root(&self, _: &(), _: &[Address], _: &mut ()) -> Result<B256, ()> {
        Err(())
    }

    fn account_proofs(&self, _: &(), _: &[Address], _: &mut ()) -> Result<(), ()> {
        Err(())
    }
}

struct Nowhere;

impl StateProviderFactory for Nowhere {
    type Provider = ();
    type Header = ();
    type Hasher = Hasher;
    type Error = ();

    fn latest(&self) -> Result<(), ()> {
        Err(())
    }

    fn history_by_block_number(&self, _: u64) -> Result<(), ()> {
        Err(())
    }

    fn history_by_block_hash(&self, _: B256) -> Result<(), ()> {
        Err(())
    }

    fn header(&self, _: &B256) -> Result<Option<()>, ()> {
        Err(())
    }

    fn block_hash(&self, _: u64) -> Result<Option<B256>, ()> {
        Err(())
    }

    fn best_block_number(&self) -> Result<u64, ()> {
        Err(())
    }

    fn header_by_number(&self, _: u64) -> Result<Option<()>, ()> {
        Err(())
    }

    fn last_block_number(&self) -> Result<u64, ()> {
        Err(())
    }

    fn root_hasher(&self, _: u64, _: B256) -> Result<Hasher, ()> {
        Err(())
    }
}

struct OneOrder;

impl OrdersSource<u8, Nowhere> for OneOrder {
    type Order = u64;
    type Context = u64;
    type Error = String;

    fn config(&self) -> &u8 {
        &3
    }

    fn available_orders(&self) -> Vec<OrdersWithTimestamp<u64>> {
        vec![OrdersWithTimestamp {
            timestamp_ms: 9,
            order: 1,
        }]
    }

    fn block_time_as_unix_ms(&self) -> u64 {
        12
    }

    fn create_provider_factory(&self) -> Result<Nowhere, String> {
        Ok(Nowhere)
    }

    fn create_block_building_context(&self) -> Result<u64, String> {
        Ok(5)
    }

    fn print_custom_stats(&self, _provider: Nowhere) -> Result<(), String> {
        Err("nothing to print".to_owned())
    }
}

#[test]
fn a_source_of_orders_can_be_implemented() {
    let source = OneOrder;
    assert_eq!(*source.config(), 3);
    assert_eq!(source.available_orders()[0].timestamp_ms, 9);
    assert_eq!(source.block_time_as_unix_ms(), 12);
    assert!(source.create_provider_factory().is_ok());
    assert_eq!(source.create_block_building_context(), Ok(5));
    assert!(source.print_custom_stats(Nowhere).is_err());
}
