use parallel_builder::sequencing::{
    initialize_full_order_ids_vec, process_sequence_of_orders, CachedSimulationState,
    CommitOutcome, OrderCommitter, ProcessError,
};
use parallel_builder::types::{
    Address, Algorithm, ConflictGroup, ConflictTask, OrderId, SimulatedOrder, TaskPriority, B256,
    U256,
};
use std::sync::Arc;

fn id(n: u128) -> OrderId {
    OrderId {
        hash: B256 { high: 0, low: n },
    }
}

fn task_with_orders(count: u128) -> ConflictTask {
    let orders = (0..count)
        .map(|n| {
            Arc::new(SimulatedOrder {
                id: id(n),
                nonces: Vec::new(),
                tx_count: 1,
                coinbase_profit: U256::zero(),
                mev_gas_price: U256::zero(),
                used_state_trace: None,
            })
        })
        .collect();
    ConflictTask {
        group_idx: 0,
        algorithm: Algorithm::Greedy,
        priority: TaskPriority::Low,
        group: ConflictGroup {
            id: 1,
            orders: Arc::new(orders),
            conflicting_group_ids: Arc::new(Vec::new()),
        },
        created_at: 0,
    }
}

const SENDER: Address = Address { high: 0, low: 77 };

/// Order `n` needs nonce `n` of one account, which begins at `next_nonce`.
struct OneAccount {
    next_nonce: u64,
    tried: Vec<usize>,
    cancel_after: usize,
    fail_on: Option<usize>,
}

impl OneAccount {
    fn starting_at(next_nonce: u64) -> OneAccount {
        OneAccount {
            next_nonce,
            tried: Vec::new(),
            cancel_after: usize::MAX,
            fail_on: None,
        }
    }
}

impl OrderCommitter for OneAccount {
    type Error = String;

    fn is_cancelled(&self) -> bool {
        self.tried.len() >= self.cancel_after
    }

    fn commit_order(&mut self, order_idx: usize) -> Result<CommitOutcome, String> {
        self.tried.push(order_idx);
        if self.fail_on == Some(order_idx) {
            return Err("no state".to_owned());
        }
        let nonce = order_idx as u64;
        if nonce > self.next_nonce {
            return Ok(CommitOutcome::Failed {
                nonce_too_high: Some((SENDER, nonce)),
            });
        }
        if nonce < self.next_nonce {
            return Ok(CommitOutcome::Failed {
                nonce_too_high: None,
            });
        }
        self.next_nonce += 1;
        Ok(CommitOutcome::Committed {
            nonces_updated: vec![(SENDER, self.next_nonce)],
            coinbase_profit: U256::from(10 + nonce),
        })
    }
}

#[test]
fn an_order_with_a_high_nonce_is_tried_again_when_its_nonce_is_reached() {
    let task = task_with_orders(4);
    let mut committer = OneAccount::starting_at(0);
    let done =
        process_sequence_of_orders(&vec![2, 1, 0, 3], &task, None, 0, &mut committer).unwrap();
    assert_eq!(committer.tried, vec![2, 1, 0, 1, 2, 3]);
    let went_in: Vec<usize> = done
        .resolution
        .sequence_of_orders
        .iter()
        .map(|(order, _)| *order)
        .collect();
    assert_eq!(went_in, vec![0, 1, 2, 3]);
    assert_eq!(done.resolution.total_profit, U256::from(46));
    assert_eq!(done.state.total_profit, U256::from(46));
    assert_eq!(
        done.state.per_order_profits,
        vec![
            (id(0), U256::from(10)),
            (id(1), U256::from(11)),
            (id(2), U256::from(12)),
            (id(3), U256::from(13))
        ]
    );
}

#[test]
fn an_order_with_a_low_nonce_is_dropped() {
    let task = task_with_orders(3);
    let mut committer = OneAccount::starting_at(1);
    let done = process_sequence_of_orders(&vec![0, 1, 2], &task, None, 0, &mut committer).unwrap();
    assert_eq!(committer.tried, vec![0, 1, 2]);
    assert_eq!(
        done.resolution.sequence_of_orders,
        vec![(1, U256::from(11)), (2, U256::from(12))]
    );
}

#[test]
fn no_order_goes_in_twice_and_profits_add_up() {
    let task = task_with_orders(6);
    let mut committer = OneAccount::starting_at(0);
    let done =
        process_sequence_of_orders(&vec![5, 3, 1, 0, 2, 4], &task, None, 0, &mut committer)
            .unwrap();
    let mut went_in: Vec<usize> = done
        .resolution
        .sequence_of_orders
        .iter()
        .map(|(order, _)| *order)
        .collect();
    went_in.sort_unstable();
    assert_eq!(went_in, vec![0, 1, 2, 3, 4, 5]);
    assert_eq!(done.resolution.total_profit, U256::from(75));
}

#[test]
fn a_run_goes_on_after_what_was_kept() {
    let task = task_with_orders(3);
    let kept = CachedSimulationState {
        total_profit: U256::from(10),
        per_order_profits: vec![(id(0), U256::from(10)), (id(99), U256::from(1))],
    };
    let mut committer = OneAccount::starting_at(1);
    let done = process_sequence_of_orders(&vec![0, 1, 2], &task, Some(&kept), 1, &mut committer)
        .unwrap();
    assert_eq!(committer.tried, vec![1, 2]);
    assert_eq!(
        done.resolution.sequence_of_orders,
        vec![
            (0, U256::from(10)),
            (1, U256::from(11)),
            (2, U256::from(12))
        ]
    );
    assert_eq!(done.resolution.total_profit, U256::from(33));
    assert_eq!(done.state.per_order_profits.len(), 4);
}

#[test]
fn a_total_profit_wraps_around() {
    let task = task_with_orders(1);
    let kept = CachedSimulationState {
        total_profit: U256 {
            high: u128::MAX,
            low: u128::MAX,
        },
        per_order_profits: Vec::new(),
    };
    let mut committer = OneAccount::starting_at(0);
    let done =
        process_sequence_of_orders(&vec![0], &task, Some(&kept), 0, &mut committer).unwrap();
    assert_eq!(done.resolution.total_profit, U256::from(9));
}

#[test]
fn a_run_can_be_given_up() {
    let task = task_with_orders(3);
    let mut committer = OneAccount::starting_at(0);
    committer.cancel_after = 1;
    let r = process_sequence_of_orders(&vec![0, 1, 2], &task, None, 0, &mut committer);
    assert!(matches!(r, Err(ProcessError::Cancelled)));
    assert_eq!(committer.tried, vec![0]);
}

#[test]
fn work_that_is_given_up_at_once_tries_nothing() {
    let task = task_with_orders(3);
    let mut committer = OneAccount::starting_at(0);
    committer.cancel_after = 0;
    let r = process_sequence_of_orders(&vec![0, 1, 2], &task, None, 0, &mut committer);
    assert!(matches!(r, Err(ProcessError::Cancelled)));
    assert!(committer.tried.is_empty());
}

#[test]
fn a_run_fails_where_an_order_cannot_be_tried() {
    let task = task_with_orders(3);
    let mut committer = OneAccount::starting_at(0);
    committer.fail_on = Some(1);
    match process_sequence_of_orders(&vec![0, 1, 2], &task, None, 0, &mut committer) {
        Err(ProcessError::Commit(error)) => assert_eq!(error, "no state"),
        _ => panic!("the run should have failed"),
    }
}

#[test]
fn an_empty_run_succeeds_though_the_work_was_given_up() {
    let task = task_with_orders(1);
    let mut committer = OneAccount::starting_at(0);
    committer.cancel_after = 0;
    let done = process_sequence_of_orders(&vec![0], &task, None, 1, &mut committer).unwrap();
    assert!(done.resolution.sequence_of_orders.is_empty());
}

#[test]
fn a_sequence_is_known_by_the_identifiers_of_its_orders() {
    let task = task_with_orders(3);
    assert_eq!(
        initialize_full_order_ids_vec(&[2, 0], &task),
        vec![id(2), id(0)]
    );
}
