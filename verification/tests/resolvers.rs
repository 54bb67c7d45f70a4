use parallel_builder::conflicts::{analyze_conflict_graph, orders_conflict};
use parallel_builder::graph::{build_interaction_graph, partition_residual_components};
use parallel_builder::permutations::find_permutations_recursive;
use parallel_builder::recursive::{
    sample_seed_indices, solve_recursive_default_from_seed_indices_with_solver,
    solve_recursive_default_indices_with_solver, RECURSIVE_DEFAULT_SAMPLE_SEED,
};
use parallel_builder::resolver::{update_best_result, ResolverContext};
use parallel_builder::sequences::{
    create_recursive_subtask, generate_all_permutations_with_nonces, generate_random_permutations,
    generate_sequences_of_orders_to_try, remap_resolution_result_indices,
};
use parallel_builder::types::{
    Address, Algorithm, ConflictGroup, ConflictTask, Nonce, OrderId, ResolutionResult,
    SimulatedOrder, SlotKey, TaskPriority, UsedStateTrace, B256, U256,
};
use rand::SeedableRng;
use std::sync::Arc;

const ZERO: Address = Address { high: 0, low: 0 };

struct DataGenerator {
    last_used_id: u64,
}

impl DataGenerator {
    fn new() -> DataGenerator {
        DataGenerator { last_used_id: 0 }
    }

    fn create_u64(&mut self) -> u64 {
        self.last_used_id += 1;
        self.last_used_id
    }

    fn create_id(&mut self) -> OrderId {
        OrderId {
            hash: B256 {
                high: 0,
                low: self.create_u64() as u128,
            },
        }
    }

    fn create_order_with_length(
        &mut self,
        coinbase_profit: U256,
        mev_gas_price: U256,
        num_of_orders: usize,
    ) -> Arc<SimulatedOrder> {
        let first_nonce = self.create_u64();
        for _ in 1..num_of_orders {
            self.create_u64();
            self.create_u64();
        }
        Arc::new(SimulatedOrder {
            id: self.create_id(),
            nonces: vec![Nonce {
                address: ZERO,
                nonce: first_nonce,
            }],
            tx_count: num_of_orders,
            coinbase_profit,
            mev_gas_price,
            used_state_trace: None,
        })
    }

    fn create_slot(key: u64) -> SlotKey {
        SlotKey {
            address: ZERO,
            key: B256 {
                high: 0,
                low: key as u128,
            },
        }
    }

    fn create_traced_order(
        &mut self,
        profit: u64,
        read_slots: &[u64],
        write_slots: &[u64],
    ) -> Arc<SimulatedOrder> {
        let nonce = self.create_u64();
        Arc::new(SimulatedOrder {
            id: self.create_id(),
            nonces: vec![Nonce {
                address: ZERO,
                nonce,
            }],
            tx_count: 1,
            coinbase_profit: U256::from(profit),
            mev_gas_price: U256::from(profit),
            used_state_trace: Some(UsedStateTrace {
                read_slots: read_slots.iter().map(|s| Self::create_slot(*s)).collect(),
                written_slots: write_slots.iter().map(|s| Self::create_slot(*s)).collect(),
                created_contracts: Vec::new(),
                destructed_contracts: Vec::new(),
            }),
        })
    }

    fn create_nonce_order(&mut self, address: u128, nonce: u64) -> Arc<SimulatedOrder> {
        Arc::new(SimulatedOrder {
            id: self.create_id(),
            nonces: vec![Nonce {
                address: Address {
                    high: 0,
                    low: address,
                },
                nonce,
            }],
            tx_count: 1,
            coinbase_profit: U256::from(1),
            mev_gas_price: U256::from(1),
            used_state_trace: None,
        })
    }
}

fn create_mock_order_group(id: usize, orders: Vec<Arc<SimulatedOrder>>) -> ConflictGroup {
    ConflictGroup {
        id,
        orders: Arc::new(orders),
        conflicting_group_ids: Arc::new(Vec::new()),
    }
}

fn create_mock_task(group: ConflictGroup, algorithm: Algorithm) -> ConflictTask {
    ConflictTask {
        group_idx: 0,
        group,
        algorithm,
        priority: TaskPriority::Low,
        created_at: 0,
    }
}

#[test]
fn test_all_permutations() {
    let mut data_generator = DataGenerator::new();
    let group = create_mock_order_group(
        1,
        vec![
            data_generator.create_order_with_length(U256::from(100), U256::from(100), 1),
            data_generator.create_order_with_length(U256::from(200), U256::from(200), 3),
            data_generator.create_order_with_length(U256::from(150), U256::from(150), 2),
        ],
    );
    let task = create_mock_task(group, Algorithm::AllPermutations);

    let sequences = generate_sequences_of_orders_to_try(&task);
    assert_eq!(sequences.len(), 6);
    assert_eq!(sequences[0], vec![0, 1, 2]);
    assert_eq!(sequences[1], vec![0, 2, 1]);
    assert_eq!(sequences[2], vec![1, 0, 2]);
    assert_eq!(sequences[3], vec![1, 2, 0]);
    assert_eq!(sequences[4], vec![2, 0, 1]);
    assert_eq!(sequences[5], vec![2, 1, 0]);
}

#[test]
fn test_partition_residual_components_discards_seed_conflicts() {
    let mut data_generator = DataGenerator::new();
    let orders = vec![
        data_generator.create_traced_order(10, &[], &[1]),
        data_generator.create_traced_order(11, &[], &[2]),
        data_generator.create_traced_order(12, &[], &[3]),
        data_generator.create_traced_order(13, &[], &[4]),
        data_generator.create_traced_order(14, &[], &[5]),
        data_generator.create_traced_order(15, &[], &[6]),
        data_generator.create_traced_order(16, &[], &[7]),
        data_generator.create_traced_order(17, &[], &[100]),
        data_generator.create_traced_order(18, &[100], &[]),
        data_generator.create_traced_order(19, &[1], &[]),
    ];
    let interaction_graph = build_interaction_graph(&orders);
    let indices = (0..orders.len()).collect::<Vec<_>>();
    let seed_indices = (0..7).collect::<Vec<_>>();

    let components = partition_residual_components(&indices, &seed_indices, &interaction_graph);

    assert_eq!(components, vec![vec![7, 8]]);
}

#[test]
fn test_recursive_default_appends_residual_component_solutions_without_cartesian() {
    let mut data_generator = DataGenerator::new();
    let orders = vec![
        data_generator.create_traced_order(10, &[], &[1]),
        data_generator.create_traced_order(11, &[], &[2]),
        data_generator.create_traced_order(12, &[], &[3]),
        data_generator.create_traced_order(13, &[], &[4]),
        data_generator.create_traced_order(14, &[], &[5]),
        data_generator.create_traced_order(15, &[], &[6]),
        data_generator.create_traced_order(16, &[], &[7]),
        data_generator.create_traced_order(17, &[], &[100]),
        data_generator.create_traced_order(18, &[100], &[]),
    ];
    let interaction_graph = build_interaction_graph(&orders);
    let indices = (0..orders.len()).collect::<Vec<_>>();
    let seed_indices = (0..7).collect::<Vec<_>>();
    let mut rng = rand::rngs::SmallRng::seed_from_u64(RECURSIVE_DEFAULT_SAMPLE_SEED);
    let solve_small = |subproblem_indices: &[usize]| -> Result<(Vec<usize>, usize), String> {
        Ok((subproblem_indices.to_vec(), 1))
    };

    let (sequence, candidate_sequence_count) =
        solve_recursive_default_from_seed_indices_with_solver(
            &interaction_graph,
            &indices,
            &seed_indices,
            &mut rng,
            &solve_small,
        )
        .unwrap();

    assert_eq!(sequence, vec![0, 1, 2, 3, 4, 5, 6, 7, 8]);
    assert_eq!(candidate_sequence_count, 2);
}

#[test]
fn test_remap_resolution_result_indices_maps_local_sequence_back_to_parent() {
    let resolution_result = ResolutionResult {
        total_profit: U256::zero(),
        sequence_of_orders: vec![
            (1, U256::from(10)),
            (0, U256::from(20)),
            (2, U256::from(30)),
        ],
    };
    let indices = vec![4, 7, 9];

    let remapped = remap_resolution_result_indices(&resolution_result, &indices);

    assert_eq!(remapped, vec![7, 4, 9]);
}

#[test]
fn test_solve_recursive_default_indices_delegates_small_subproblems() {
    let mut data_generator = DataGenerator::new();
    let orders = vec![
        data_generator.create_traced_order(10, &[], &[1]),
        data_generator.create_traced_order(11, &[], &[2]),
        data_generator.create_traced_order(12, &[], &[3]),
    ];
    let interaction_graph = build_interaction_graph(&orders);
    let indices = (0..orders.len()).collect::<Vec<_>>();
    let mut rng = rand::rngs::SmallRng::seed_from_u64(RECURSIVE_DEFAULT_SAMPLE_SEED);
    let solve_small = |subproblem_indices: &[usize]| -> Result<(Vec<usize>, usize), String> {
        Ok((subproblem_indices.iter().rev().copied().collect(), 6))
    };

    let (sequence, candidate_sequence_count) = solve_recursive_default_indices_with_solver(
        &interaction_graph,
        &indices,
        &mut rng,
        &solve_small,
    )
    .unwrap();

    assert_eq!(sequence, vec![2, 1, 0]);
    assert_eq!(candidate_sequence_count, 6);
}

#[test]
fn test_generate_length_based_sequence() {
    let mut data_generator = DataGenerator::new();
    let orders = vec![
        data_generator.create_order_with_length(U256::from(100), U256::from(100), 1),
        data_generator.create_order_with_length(U256::from(200), U256::from(200), 3),
        data_generator.create_order_with_length(U256::from(150), U256::from(150), 2),
        data_generator.create_order_with_length(U256::from(300), U256::from(300), 1),
    ];
    let group = create_mock_order_group(1, orders);
    let task = create_mock_task(group, Algorithm::Length);

    let sequences = generate_sequences_of_orders_to_try(&task);
    assert_eq!(sequences.len(), 1);
    assert_eq!(sequences[0], vec![1, 2, 3, 0]);
}

fn greedy_group(data_generator: &mut DataGenerator) -> ConflictGroup {
    create_mock_order_group(
        1,
        vec![
            data_generator.create_order_with_length(U256::from(100), U256::from(300), 1),
            data_generator.create_order_with_length(U256::from(200), U256::from(150), 3),
            data_generator.create_order_with_length(U256::from(150), U256::from(200), 2),
            data_generator.create_order_with_length(U256::from(300), U256::from(100), 1),
        ],
    )
}

#[test]
fn test_max_profit_and_mev_gas_price_sequences() {
    let mut data_generator = DataGenerator::new();
    let task = create_mock_task(greedy_group(&mut data_generator), Algorithm::Greedy);

    let sequences = generate_sequences_of_orders_to_try(&task);
    assert_eq!(sequences.len(), 2);
    assert_eq!(sequences[0], vec![3, 1, 2, 0]);
    assert_eq!(sequences[1], vec![0, 2, 1, 3]);
}

#[test]
fn test_reverse_max_profit_and_mev_gas_price_sequences() {
    let mut data_generator = DataGenerator::new();
    let task = create_mock_task(greedy_group(&mut data_generator), Algorithm::ReverseGreedy);

    let sequences = generate_sequences_of_orders_to_try(&task);
    assert_eq!(sequences.len(), 2);
    assert_eq!(sequences[0], vec![0, 2, 1, 3]);
    assert_eq!(sequences[1], vec![3, 1, 2, 0]);
}

#[test]
fn equal_profits_keep_their_order() {
    let mut data = DataGenerator::new();
    let group = create_mock_order_group(
        1,
        vec![
            data.create_order_with_length(U256::from(5), U256::from(5), 1),
            data.create_order_with_length(U256::from(5), U256::from(5), 1),
            data.create_order_with_length(U256::from(9), U256::from(5), 1),
        ],
    );
    let task = create_mock_task(group, Algorithm::Greedy);
    assert_eq!(
        generate_sequences_of_orders_to_try(&task),
        vec![vec![2, 0, 1], vec![0, 1, 2]]
    );
}

#[test]
fn the_most_profitable_order_is_tried_alone() {
    let mut data = DataGenerator::new();
    let group = create_mock_order_group(
        1,
        vec![
            data.create_order_with_length(U256::from(5), U256::from(5), 1),
            data.create_order_with_length(U256::from(9), U256::from(5), 1),
            data.create_order_with_length(U256::from(9), U256::from(5), 1),
        ],
    );
    let task = create_mock_task(group, Algorithm::BestOfN);
    assert_eq!(generate_sequences_of_orders_to_try(&task), vec![vec![1]]);
}

#[test]
fn random_sequences_are_permutations_and_repeatable() {
    let mut data = DataGenerator::new();
    let orders: Vec<_> = (0..20)
        .map(|_| data.create_order_with_length(U256::from(5), U256::from(5), 1))
        .collect();
    let task = create_mock_task(
        create_mock_order_group(1, orders),
        Algorithm::Random { seed: 7, count: 3 },
    );
    let sequences = generate_sequences_of_orders_to_try(&task);
    assert_eq!(sequences.len(), 3);
    let identity: Vec<usize> = (0..20).collect();
    for sequence in &sequences {
        assert_ne!(*sequence, identity);
        let mut sorted = sequence.clone();
        sorted.sort_unstable();
        assert_eq!(sorted, identity);
    }
    assert_eq!(sequences, generate_sequences_of_orders_to_try(&task));
    for count in 0..6 {
        let others = generate_random_permutations(&task, 7, count);
        assert_eq!(others.len(), count);
        let shared = count.min(3);
        assert_eq!(others[..shared], sequences[..shared]);
    }
    assert_ne!(sequences, generate_random_permutations(&task, 8, 3));
    assert_ne!(sequences[0], sequences[1]);
}

#[test]
fn permutations_keep_the_nonce_order() {
    let mut data = DataGenerator::new();
    let orders = vec![
        data.create_nonce_order(1, 6),
        data.create_nonce_order(1, 5),
        data.create_nonce_order(2, 9),
    ];
    let task = create_mock_task(
        create_mock_order_group(1, orders),
        Algorithm::PermutationsWithNonces,
    );
    assert_eq!(
        generate_all_permutations_with_nonces(&task),
        vec![vec![1, 0, 2], vec![1, 2, 0], vec![2, 1, 0]]
    );
}

#[test]
fn without_waiting_all_permutations_are_tried() {
    let mut data = DataGenerator::new();
    let orders: Vec<_> = (0..4).map(|i| data.create_nonce_order(i, 5)).collect();
    let all = create_mock_task(
        create_mock_order_group(1, orders.clone()),
        Algorithm::AllPermutations,
    );
    let with_nonces = create_mock_task(
        create_mock_order_group(1, orders),
        Algorithm::PermutationsWithNonces,
    );
    let rows = generate_sequences_of_orders_to_try(&all);
    assert_eq!(rows.len(), 24);
    assert_eq!(rows, generate_sequences_of_orders_to_try(&with_nonces));
}

#[test]
fn a_sample_has_seven_different_orders() {
    let indices: Vec<usize> = (10..30).collect();
    let mut rng = rand::rngs::SmallRng::seed_from_u64(RECURSIVE_DEFAULT_SAMPLE_SEED);
    let mut seeds = sample_seed_indices(&indices, &mut rng);
    assert_eq!(seeds.len(), 7);
    seeds.sort_unstable();
    seeds.dedup();
    assert_eq!(seeds.len(), 7);
    assert!(seeds.iter().all(|seed| (10..30).contains(seed)));
    assert_eq!(sample_seed_indices(&[4, 5], &mut rng).len(), 2);
}

#[test]
fn conflicts_are_mutual_and_counted() {
    let mut data = DataGenerator::new();
    let orders = vec![
        data.create_traced_order(1, &[], &[1]),
        data.create_traced_order(2, &[1], &[2]),
        data.create_traced_order(3, &[2], &[]),
    ];
    assert!(orders_conflict(&orders[0], &orders[1]));
    assert!(orders_conflict(&orders[1], &orders[0]));
    assert!(!orders_conflict(&orders[0], &orders[2]));
    let stats = analyze_conflict_graph(&orders);
    assert_eq!(stats.edge_count, 2);
    assert_eq!(stats.complete_graph_edges, 3);
    assert_eq!(stats.max_degree, 2);
    assert!(!stats.has_missing_traces);

    let untraced = vec![orders[0].clone(), data.create_nonce_order(3, 1)];
    let stats = analyze_conflict_graph(&untraced);
    assert!(stats.has_missing_traces);
    assert_eq!(stats.edge_count, 0);
    assert_eq!(analyze_conflict_graph(&orders[..1]).complete_graph_edges, 0);
}

#[test]
fn writes_to_code_conflict_with_every_use_of_the_account() {
    let creates = |address: u128| {
        Arc::new(SimulatedOrder {
            id: OrderId { hash: B256 { high: 1, low: address } },
            nonces: Vec::new(),
            tx_count: 1,
            coinbase_profit: U256::zero(),
            mev_gas_price: U256::zero(),
            used_state_trace: Some(UsedStateTrace {
                read_slots: Vec::new(),
                written_slots: Vec::new(),
                created_contracts: vec![Address { high: 0, low: address }],
                destructed_contracts: Vec::new(),
            }),
        })
    };
    let mut data = DataGenerator::new();
    let reader = data.create_traced_order(1, &[4], &[]);
    let writer = data.create_traced_order(1, &[], &[4]);
    assert!(orders_conflict(&creates(0), &reader));
    assert!(orders_conflict(&writer, &creates(0)));
    assert!(orders_conflict(&creates(3), &creates(3)));
    assert!(!orders_conflict(&creates(3), &reader));
}

/// A sequence earns the more, the more orders are at their own place.
fn places_kept(task: &ConflictTask, sequence: Vec<usize>) -> Result<ResolutionResult, String> {
    let profit = sequence
        .iter()
        .enumerate()
        .filter(|(place, order)| place == *order)
        .count();
    assert!(sequence.len() <= task.group.orders.len());
    Ok(ResolutionResult {
        total_profit: U256::from(profit as u64),
        sequence_of_orders: sequence.iter().map(|order| (*order, U256::from(1))).collect(),
    })
}

#[test]
fn the_best_sequence_wins() {
    let mut data = DataGenerator::new();
    let orders: Vec<_> = (0..4).map(|i| data.create_nonce_order(i, 5)).collect();
    let task = create_mock_task(
        create_mock_order_group(1, orders),
        Algorithm::PermutationsWithNonces,
    );
    let context = ResolverContext::new(places_kept);
    let outcome = context.run_conflict_task(&task).unwrap();
    assert_eq!(outcome.candidate_sequence_count, 24);
    assert_eq!(outcome.resolution.total_profit, U256::from(4));
    let sequence: Vec<usize> = outcome
        .resolution
        .sequence_of_orders
        .iter()
        .map(|(order, _)| *order)
        .collect();
    assert_eq!(sequence, vec![0, 1, 2, 3]);
}

#[test]
fn among_equal_results_the_first_wins() {
    let mut data = DataGenerator::new();
    let orders: Vec<_> = (0..5).map(|i| data.create_nonce_order(i, 5)).collect();
    let task = create_mock_task(
        create_mock_order_group(1, orders),
        Algorithm::AllPermutations,
    );
    let context = ResolverContext::new(
        |_task: &ConflictTask, sequence: Vec<usize>| -> Result<ResolutionResult, String> {
            let profit = if sequence[0] == 2 { 9 } else { 1 };
            Ok(ResolutionResult {
                total_profit: U256::from(profit),
                sequence_of_orders: sequence.iter().map(|o| (*o, U256::zero())).collect(),
            })
        },
    );
    let outcome = context.run_conflict_task(&task).unwrap();
    let sequence: Vec<usize> = outcome
        .resolution
        .sequence_of_orders
        .iter()
        .map(|(order, _)| *order)
        .collect();
    assert_eq!(sequence, vec![2, 0, 1, 3, 4]);
}

#[test]
fn without_profit_the_result_is_empty() {
    let mut data = DataGenerator::new();
    let orders = vec![data.create_nonce_order(1, 5), data.create_nonce_order(2, 5)];
    let context = ResolverContext::new(
        |_task: &ConflictTask, sequence: Vec<usize>| -> Result<ResolutionResult, String> {
            Ok(ResolutionResult {
                total_profit: U256::zero(),
                sequence_of_orders: sequence.iter().map(|o| (*o, U256::zero())).collect(),
            })
        },
    );
    for algorithm in [Algorithm::Length, Algorithm::AllPermutations] {
        let task = create_mock_task(create_mock_order_group(1, orders.clone()), algorithm);
        let outcome = context.run_conflict_task(&task).unwrap();
        assert_eq!(outcome.resolution.total_profit, U256::zero());
        assert!(outcome.resolution.sequence_of_orders.is_empty());
    }
}

#[test]
fn a_sequence_that_fails_fails_the_task() {
    let mut data = DataGenerator::new();
    let orders: Vec<_> = (0..3).map(|i| data.create_nonce_order(i, 5)).collect();
    let context = ResolverContext::new(
        |task: &ConflictTask, sequence: Vec<usize>| -> Result<ResolutionResult, String> {
            if sequence[0] == 1 {
                return Err("cancelled".to_owned());
            }
            places_kept(task, sequence)
        },
    );
    for algorithm in [Algorithm::AllPermutations, Algorithm::RecursiveDefault] {
        let task = create_mock_task(create_mock_order_group(1, orders.clone()), algorithm);
        assert_eq!(context.run_conflict_task(&task).unwrap_err(), "cancelled");
    }
}

#[test]
fn the_recursive_algorithm_solves_parts_and_tries_them_together() {
    let mut data = DataGenerator::new();
    let orders: Vec<_> = (0..9)
        .map(|i| data.create_traced_order(10 + i, &[], &[i]))
        .collect();
    let task = create_mock_task(
        create_mock_order_group(1, orders),
        Algorithm::RecursiveDefault,
    );
    let context = ResolverContext::new(
        |_task: &ConflictTask, sequence: Vec<usize>| -> Result<ResolutionResult, String> {
            Ok(ResolutionResult {
                total_profit: U256::from(1 + sequence.len() as u64),
                sequence_of_orders: sequence.iter().map(|o| (*o, U256::from(1))).collect(),
            })
        },
    );
    let outcome = context.run_conflict_task(&task).unwrap();
    assert_eq!(outcome.candidate_sequence_count, 5040 + 1 + 1 + 1);
    assert_eq!(outcome.resolution.total_profit, U256::from(10));
    let mut orders: Vec<usize> = outcome
        .resolution
        .sequence_of_orders
        .iter()
        .map(|(order, _)| *order)
        .collect();
    orders.sort_unstable();
    assert_eq!(orders, (0..9).collect::<Vec<_>>());
}

#[test]
fn nothing_to_solve_gives_nothing() {
    let mut data = DataGenerator::new();
    let task = create_mock_task(
        create_mock_order_group(1, vec![data.create_nonce_order(1, 5)]),
        Algorithm::RecursiveDefault,
    );
    let context = ResolverContext::new(places_kept);
    let solved = context
        .solve_small_recursive_default_subproblem(&task, &[])
        .unwrap();
    assert_eq!(solved, (Vec::new(), 0));
}

#[test]
fn a_subtask_holds_the_picked_orders() {
    let mut data = DataGenerator::new();
    let orders: Vec<_> = (0..4).map(|i| data.create_nonce_order(i, 5)).collect();
    let root = create_mock_task(
        create_mock_order_group(3, orders.clone()),
        Algorithm::RecursiveDefault,
    );
    let subtask = create_recursive_subtask(&root, &[3, 1]);
    assert_eq!(subtask.algorithm, Algorithm::PermutationsWithNonces);
    assert_eq!(subtask.group.id, 3);
    assert_eq!(subtask.group.orders.len(), 2);
    assert_eq!(subtask.group.orders[0].id, orders[3].id);
    assert_eq!(subtask.group.orders[1].id, orders[1].id);
}

#[test]
fn only_a_larger_profit_replaces_the_best() {
    let result = |profit: u64, order: usize| ResolutionResult {
        total_profit: U256::from(profit),
        sequence_of_orders: vec![(order, U256::from(profit))],
    };
    let mut best = result(5, 0);
    update_best_result(result(5, 1), &mut best);
    assert_eq!(best.sequence_of_orders[0].0, 0);
    update_best_result(result(6, 2), &mut best);
    assert_eq!(best.sequence_of_orders[0].0, 2);
    assert_eq!(best.total_profit, U256::from(6));
}

/// Every ordering that a table of successors admits.
fn orderings(successors: Vec<Vec<usize>>) -> Vec<Vec<usize>> {
    let count = successors.len();
    let mut in_degrees = vec![0usize; count];
    for v in successors.iter().flatten() {
        in_degrees[*v] += 1;
    }
    let before = in_degrees.clone();
    let mut current = Vec::new();
    let mut found = vec![vec![9]];
    find_permutations_recursive(
        &successors,
        &mut current,
        &mut in_degrees,
        count,
        &mut found,
    );
    assert!(current.is_empty());
    assert_eq!(in_degrees, before);
    assert_eq!(found.remove(0), vec![9]);
    found
}

#[test]
fn successors_may_be_listed_twice_and_circles_have_no_order() {
    assert_eq!(orderings(vec![]), vec![Vec::<usize>::new()]);
    assert_eq!(
        orderings(vec![vec![2, 2], vec![], vec![]]),
        vec![vec![0, 1, 2], vec![0, 2, 1], vec![1, 0, 2]]
    );
    assert!(orderings(vec![vec![0], vec![]]).is_empty());
    assert!(orderings(vec![vec![1], vec![2], vec![0, 0]]).is_empty());
}
