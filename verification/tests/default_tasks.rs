use parallel_builder::default_tasks::{
    algorithm_name, get_default_tasks_for_group, update_default_graph_study_record,
    DefaultGraphStudyRecord,
};
use parallel_builder::resolver::{record_outcome, TaskOutcome};
use parallel_builder::types::{
    Address, Algorithm, ConflictGroup, Nonce, OrderId, ResolutionResult, SimulatedOrder, SlotKey,
    TaskPriority, UsedStateTrace, B256, U256,
};
use std::sync::Arc;

struct DataGenerator {
    next_nonce: u64,
}

impl DataGenerator {
    fn new() -> Self {
        Self { next_nonce: 0 }
    }

    fn create_slot(key: u64) -> SlotKey {
        SlotKey {
            address: Address { high: 0, low: 0 },
            key: B256 {
                high: 0,
                low: key as u128,
            },
        }
    }

    fn create_order(
        &mut self,
        profit: u64,
        read_slots: &[u64],
        write_slots: &[u64],
    ) -> Arc<SimulatedOrder> {
        let nonce = self.next_nonce;
        self.next_nonce += 1;
        Arc::new(SimulatedOrder {
            id: OrderId {
                hash: B256 {
                    high: 0,
                    low: nonce as u128 + 1,
                },
            },
            nonces: vec![Nonce {
                address: Address { high: 0, low: 0 },
                nonce,
            }],
            tx_count: 1,
            coinbase_profit: U256::from(profit),
            mev_gas_price: U256::from(profit),
            used_state_trace: Some(UsedStateTrace {
                read_slots: read_slots.iter().map(|s| Self::create_slot(*s)).collect(),
                written_slots: write_slots.iter().map(|s| Self::create_slot(*s)).collect(),
                created_contracts: Vec::new(),
                destructed_contracts: Vec::new(),
            }),
        })
    }
}

fn create_group(id: usize, orders: Vec<Arc<SimulatedOrder>>) -> ConflictGroup {
    ConflictGroup {
        id,
        orders: Arc::new(orders),
        conflicting_group_ids: Arc::new(Vec::new()),
    }
}

#[test]
fn test_large_default_group_keeps_full_group_for_recursive_default() {
    let mut data = DataGenerator::new();
    let orders = vec![
        data.create_order(10, &[], &[1]),
        data.create_order(11, &[1], &[2]),
        data.create_order(12, &[2], &[3]),
        data.create_order(13, &[3], &[4]),
        data.create_order(14, &[4], &[5]),
        data.create_order(15, &[5], &[6]),
        data.create_order(16, &[6], &[7]),
        data.create_order(17, &[], &[]),
        data.create_order(18, &[], &[]),
    ];
    let group = create_group(1, orders);

    let tasks = get_default_tasks_for_group(&group, TaskPriority::High, 0, None);

    assert_eq!(tasks.len(), 1);
    assert!(matches!(tasks[0].algorithm, Algorithm::RecursiveDefault));
    assert_eq!(tasks[0].group.orders.len(), group.orders.len());
}

#[test]
fn test_large_default_group_uses_single_recursive_default_task() {
    let mut data = DataGenerator::new();
    let orders = (0..9)
        .map(|idx| data.create_order(100 + idx, &[], &[idx + 1]))
        .collect();
    let group = create_group(2, orders);

    let tasks = get_default_tasks_for_group(&group, TaskPriority::High, 0, None);

    assert_eq!(tasks.len(), 1);
    assert!(matches!(tasks[0].algorithm, Algorithm::RecursiveDefault));
}

#[test]
fn eight_orders_are_a_large_group_and_seven_are_not() {
    let mut data = DataGenerator::new();
    let orders: Vec<_> = (0..8).map(|i| data.create_order(i, &[], &[i])).collect();
    let large = create_group(1, orders.clone());
    let small = create_group(2, orders[..7].to_vec());
    let tasks = get_default_tasks_for_group(&large, TaskPriority::Low, 17, None);
    assert_eq!(tasks[0].algorithm, Algorithm::RecursiveDefault);
    assert_eq!(tasks[0].created_at, 17);
    assert_eq!(tasks[0].group_idx, 1);
    let tasks = get_default_tasks_for_group(&small, TaskPriority::Medium, 18, None);
    assert_eq!(tasks[0].algorithm, Algorithm::PermutationsWithNonces);
    assert_eq!(tasks[0].priority, TaskPriority::Medium);
}

#[test]
fn records_are_kept_of_the_default_tasks_and_their_outcomes() {
    let mut data = DataGenerator::new();
    let group = create_group(
        5,
        vec![
            data.create_order(10, &[], &[1]),
            data.create_order(11, &[1], &[2]),
            data.create_order(12, &[2], &[]),
        ],
    );
    let mut records: Vec<DefaultGraphStudyRecord> = Vec::new();
    let tasks = get_default_tasks_for_group(&group, TaskPriority::Low, 0, Some(&mut records));
    get_default_tasks_for_group(&group, TaskPriority::Low, 0, Some(&mut records));
    assert_eq!(records.len(), 2);
    assert_eq!(records[0].group_id, 5);
    assert_eq!(records[0].algorithm, "PermutationsWithNonces");
    assert_eq!(records[0].original_order_count, 3);
    assert_eq!(records[0].selected_order_count, 3);
    assert_eq!(records[0].edge_count, 2);
    assert_eq!(records[0].complete_graph_edges, 3);
    assert_eq!(records[0].max_degree, 2);
    assert_eq!(records[0].candidate_sequence_count, None);

    let outcome = TaskOutcome {
        resolution: ResolutionResult {
            total_profit: U256::from(33),
            sequence_of_orders: Vec::new(),
        },
        candidate_sequence_count: 6,
    };
    record_outcome(&mut records, &tasks[0], &outcome);
    assert_eq!(records[0].candidate_sequence_count, Some(6));
    assert_eq!(records[0].best_profit, Some(U256::from(33)));
    assert_eq!(records[1].candidate_sequence_count, None);
    assert_eq!(records[1].best_profit, None);

    update_default_graph_study_record(
        &mut records,
        5,
        Algorithm::PermutationsWithNonces,
        None,
        Some(U256::from(34)),
    );
    assert_eq!(records[0].candidate_sequence_count, Some(6));
    assert_eq!(records[0].best_profit, Some(U256::from(34)));

    update_default_graph_study_record(&mut records, 5, Algorithm::Greedy, Some(1), None);
    update_default_graph_study_record(
        &mut records,
        6,
        Algorithm::PermutationsWithNonces,
        Some(1),
        None,
    );
    assert_eq!(records[0].candidate_sequence_count, Some(6));
    assert_eq!(records[1].candidate_sequence_count, None);
}

#[test]
fn algorithms_are_named_as_they_are_written() {
    for algorithm in [
        Algorithm::Greedy,
        Algorithm::ReverseGreedy,
        Algorithm::Length,
        Algorithm::AllPermutations,
        Algorithm::RecursiveDefault,
        Algorithm::Random {
            seed: 100,
            count: 7,
        },
        Algorithm::PermutationsWithNonces,
        Algorithm::BestOfN,
    ] {
        assert_eq!(algorithm_name(algorithm), format!("{:?}", algorithm));
    }
}
