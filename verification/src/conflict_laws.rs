//! Which traces conflict, told by what they hold, and how the conflicts of a group are counted.
use std::sync::Arc;
use vstd::prelude::*;

use crate::conflicts::{
    conflict_pairs, conflicts_among, degree, in_conflict, is_max_degree, is_stats_of,
    touches_account, trace_of, traces_in_conflict, writes_code, ConflictGraphStats,
};
use crate::types::{SimulatedOrder, UsedStateTrace};

verus! {

/// A trace that reads a slot is in conflict with one that writes it.
pub proof fn law_reading_what_is_written_conflicts(
    reader: UsedStateTrace,
    writer: UsedStateTrace,
    i: int,
    j: int,
)
    requires
        0 <= i < reader.read_slots@.len(),
        0 <= j < writer.written_slots@.len(),
        reader.read_slots@[i] == writer.written_slots@[j],
    ensures
        traces_in_conflict(reader, writer),
        traces_in_conflict(writer, reader),
{
    let slot = reader.read_slots@[i];
    assert(reader.read_slots@.contains(slot) && writer.written_slots@.contains(slot));
}

/// A trace that reads or writes a slot of a contract is in conflict with one that creates or
/// destructs the contract.
pub proof fn law_touching_written_code_conflicts(
    toucher: UsedStateTrace,
    writer: UsedStateTrace,
    i: int,
    j: int,
)
    ensures
        0 <= i < toucher.read_slots@.len() && 0 <= j < writer.created_contracts@.len()
            && toucher.read_slots@[i].address == writer.created_contracts@[j]
            ==> traces_in_conflict(toucher, writer) && traces_in_conflict(writer, toucher),
        0 <= i < toucher.read_slots@.len() && 0 <= j < writer.destructed_contracts@.len()
            && toucher.read_slots@[i].address == writer.destructed_contracts@[j]
            ==> traces_in_conflict(toucher, writer) && traces_in_conflict(writer, toucher),
        0 <= i < toucher.written_slots@.len() && 0 <= j < writer.created_contracts@.len()
            && toucher.written_slots@[i].address == writer.created_contracts@[j]
            ==> traces_in_conflict(toucher, writer) && traces_in_conflict(writer, toucher),
        0 <= i < toucher.written_slots@.len() && 0 <= j < writer.destructed_contracts@.len()
            && toucher.written_slots@[i].address == writer.destructed_contracts@[j]
            ==> traces_in_conflict(toucher, writer) && traces_in_conflict(writer, toucher),
{
    if 0 <= j < writer.created_contracts@.len() {
        assert(writes_code(writer, writer.created_contracts@[j]));
    }
    if 0 <= j < writer.destructed_contracts@.len() {
        assert(writes_code(writer, writer.destructed_contracts@[j]));
    }
    if 0 <= i < toucher.read_slots@.len() {
        assert(touches_account(toucher, toucher.read_slots@[i].address));
    }
    if 0 <= i < toucher.written_slots@.len() {
        assert(touches_account(toucher, toucher.written_slots@[i].address));
    }
}

/// Two traces that create or destruct the same contract are in conflict.
pub proof fn law_writing_the_same_code_conflicts(
    left: UsedStateTrace,
    right: UsedStateTrace,
    i: int,
    j: int,
)
    ensures
        0 <= i < left.created_contracts@.len() && 0 <= j < right.created_contracts@.len()
            && left.created_contracts@[i] == right.created_contracts@[j] ==> traces_in_conflict(
            left,
            right,
        ),
        0 <= i < left.created_contracts@.len() && 0 <= j < right.destructed_contracts@.len()
            && left.created_contracts@[i] == right.destructed_contracts@[j] ==> traces_in_conflict(
            left,
            right,
        ) && traces_in_conflict(right, left),
        0 <= i < left.destructed_contracts@.len() && 0 <= j < right.destructed_contracts@.len()
            && left.destructed_contracts@[i] == right.destructed_contracts@[j]
            ==> traces_in_conflict(left, right),
{
    if 0 <= i < left.created_contracts@.len() {
        assert(writes_code(left, left.created_contracts@[i]));
    }
    if 0 <= i < left.destructed_contracts@.len() {
        assert(writes_code(left, left.destructed_contracts@[i]));
    }
    if 0 <= j < right.created_contracts@.len() {
        assert(writes_code(right, right.created_contracts@[j]));
    }
    if 0 <= j < right.destructed_contracts@.len() {
        assert(writes_code(right, right.destructed_contracts@[j]));
    }
}

/// Traces that write and read apart are not in conflict: no slot that one of them reads is written
/// by the other, and no contract that one of them creates or destructs is created or destructed by
/// the other, or has a slot that the other reads or writes. Two traces may write the same slot.
pub proof fn law_separate_traces_do_not_conflict(left: UsedStateTrace, right: UsedStateTrace)
    requires
        forall|i: int, j: int|
            0 <= i < left.read_slots@.len() && 0 <= j < right.written_slots@.len()
                ==> #[trigger] left.read_slots@[i] != #[trigger] right.written_slots@[j],
        forall|i: int, j: int|
            0 <= i < right.read_slots@.len() && 0 <= j < left.written_slots@.len()
                ==> #[trigger] right.read_slots@[i] != #[trigger] left.written_slots@[j],
        forall|i: int|
            0 <= i < left.read_slots@.len() ==> !right.created_contracts@.contains(
                (#[trigger] left.read_slots@[i]).address,
            ) && !right.destructed_contracts@.contains(left.read_slots@[i].address),
        forall|i: int|
            0 <= i < left.written_slots@.len() ==> !right.created_contracts@.contains(
                (#[trigger] left.written_slots@[i]).address,
            ) && !right.destructed_contracts@.contains(left.written_slots@[i].address),
        forall|i: int|
            0 <= i < right.read_slots@.len() ==> !left.created_contracts@.contains(
                (#[trigger] right.read_slots@[i]).address,
            ) && !left.destructed_contracts@.contains(right.read_slots@[i].address),
        forall|i: int|
            0 <= i < right.written_slots@.len() ==> !left.created_contracts@.contains(
                (#[trigger] right.written_slots@[i]).address,
            ) && !left.destructed_contracts@.contains(right.written_slots@[i].address),
        forall|i: int|
            0 <= i < left.created_contracts@.len() ==> !right.created_contracts@.contains(
                #[trigger] left.created_contracts@[i],
            ) && !right.destructed_contracts@.contains(left.created_contracts@[i]),
        forall|i: int|
            0 <= i < left.destructed_contracts@.len() ==> !right.created_contracts@.contains(
                #[trigger] left.destructed_contracts@[i],
            ) && !right.destructed_contracts@.contains(left.destructed_contracts@[i]),
    ensures
        !traces_in_conflict(left, right),
{
}

/// Whether two orders conflict is up to their traces, and an order without one conflicts with
/// every order.
pub proof fn law_orders_conflict_by_their_traces(
    left: Arc<SimulatedOrder>,
    right: Arc<SimulatedOrder>,
)
    ensures
        left.used_state_trace is None || right.used_state_trace is None ==> in_conflict(
            left,
            right,
        ),
        left.used_state_trace is Some && right.used_state_trace is Some ==> in_conflict(left, right)
            == traces_in_conflict(left.used_state_trace->0, right.used_state_trace->0),
{
}

/// The orders `0..k` other than `i` that are in conflict with order `i`.
pub open spec fn opponents(orders: Seq<Arc<SimulatedOrder>>, i: int, k: int) -> Set<int> {
    Set::new(|j: int| 0 <= j < k && j != i && in_conflict(orders[i], orders[j]))
}

/// The pairs among the orders `0..k` that are in conflict.
pub open spec fn conflicting_pairs(orders: Seq<Arc<SimulatedOrder>>, k: int) -> Set<(int, int)> {
    Set::new(
        |p: (int, int)| 0 <= p.1 < p.0 && p.0 < k && in_conflict(orders[p.0], orders[p.1]),
    )
}

proof fn lemma_opponents(orders: Seq<Arc<SimulatedOrder>>, i: int, k: int)
    ensures
        opponents(orders, i, k).finite(),
        opponents(orders, i, k).len() == conflicts_among(orders, i, k),
    decreases k,
{
    if k <= 0 {
        assert(opponents(orders, i, k) =~= Set::empty());
    } else {
        lemma_opponents(orders, i, k - 1);
        let fewer = opponents(orders, i, k - 1);
        if k - 1 != i && in_conflict(orders[i], orders[k - 1]) {
            assert(opponents(orders, i, k) =~= fewer.insert(k - 1));
        } else {
            assert(opponents(orders, i, k) =~= fewer);
        }
    }
}

proof fn lemma_pairs_with(orders: Seq<Arc<SimulatedOrder>>, k: int, m: int)
    requires
        0 <= m <= k,
    ensures
        ({
            let pairs = Set::new(
                |p: (int, int)| p.0 == k && 0 <= p.1 < m && in_conflict(orders[k], orders[p.1]),
            );
            pairs.finite() && pairs.len() == conflicts_among(orders, k, m)
        }),
    decreases m,
{
    let pairs = Set::new(
        |p: (int, int)| p.0 == k && 0 <= p.1 < m && in_conflict(orders[k], orders[p.1]),
    );
    if m == 0 {
        assert(pairs =~= Set::empty());
    } else {
        lemma_pairs_with(orders, k, m - 1);
        let fewer = Set::new(
            |p: (int, int)| p.0 == k && 0 <= p.1 < m - 1 && in_conflict(orders[k], orders[p.1]),
        );
        if in_conflict(orders[k], orders[m - 1]) {
            assert(pairs =~= fewer.insert((k, m - 1)));
        } else {
            assert(pairs =~= fewer);
        }
    }
}

proof fn lemma_conflicting_pairs(orders: Seq<Arc<SimulatedOrder>>, k: int)
    ensures
        conflicting_pairs(orders, k).finite(),
        conflicting_pairs(orders, k).len() == conflict_pairs(orders, k),
    decreases k,
{
    if k <= 0 {
        assert(conflicting_pairs(orders, k) =~= Set::empty());
    } else {
        lemma_conflicting_pairs(orders, k - 1);
        lemma_pairs_with(orders, k - 1, k - 1);
        let fewer = conflicting_pairs(orders, k - 1);
        let more = Set::new(
            |p: (int, int)|
                p.0 == k - 1 && 0 <= p.1 < k - 1 && in_conflict(orders[k - 1], orders[p.1]),
        );
        assert(conflicting_pairs(orders, k) =~= fewer.union(more));
        assert(fewer.disjoint(more));
        vstd::set_lib::lemma_set_disjoint_lens(fewer, more);
    }
}

proof fn lemma_pairs_come_whole(n: int)
    requires
        n >= 0,
    ensures
        (n * (n - 1)) % 2 == 0,
    decreases n,
{
    if n > 0 {
        lemma_pairs_come_whole(n - 1);
        assert(n * (n - 1) == (n - 1) * (n - 1 - 1) + 2 * (n - 1)) by (nonlinear_arith);
    } else {
        assert(n * (n - 1) == 0) by (nonlinear_arith)
            requires
                n == 0,
        ;
    }
}

/// The figures of a group whose orders all have a trace: the edges are the pairs that are in
/// conflict, a complete graph has an edge for each pair, and the largest degree is the largest
/// number of orders that are in conflict with one of them. In other groups nothing is counted.
pub proof fn law_conflicts_are_counted(stats: ConflictGraphStats, orders: Seq<Arc<SimulatedOrder>>)
    requires
        is_stats_of(stats, orders),
    ensures
        ({
            let n = orders.len() as int;
            let missing = exists|i: int|
                0 <= i < n && (#[trigger] orders[i]).used_state_trace is None;
            if n >= 2 && !missing {
                &&& stats.edge_count == conflicting_pairs(orders, n).len()
                &&& 2 * stats.complete_graph_edges == n * (n - 1)
                &&& forall|i: int|
                    0 <= i < n ==> #[trigger] opponents(orders, i, n).len() <= stats.max_degree
                &&& exists|i: int|
                    0 <= i < n && #[trigger] opponents(orders, i, n).len() == stats.max_degree
                &&& !stats.has_missing_traces
            } else {
                &&& stats.edge_count == 0
                &&& stats.complete_graph_edges == 0
                &&& stats.max_degree == 0
                &&& stats.has_missing_traces == (n >= 2)
            }
        }),
{
    let n = orders.len() as int;
    if n >= 2 {
        if exists|i: int| 0 <= i < n && (#[trigger] orders[i]).used_state_trace is None {
            let i = choose|i: int| 0 <= i < n && (#[trigger] orders[i]).used_state_trace is None;
            assert(trace_of(orders[i]) is None);
        } else {
            assert forall|i: int| 0 <= i < n implies trace_of(#[trigger] orders[i]) is Some by {
                assert(!(orders[i].used_state_trace is None));
            }
            lemma_conflicting_pairs(orders, n);
            assert forall|i: int| 0 <= i < n implies #[trigger] opponents(orders, i, n).len()
                == degree(orders, i) by {
                lemma_opponents(orders, i, n);
            }
            assert(is_max_degree(orders, stats.max_degree as nat));
            let top = choose|i: int|
                0 <= i < n && #[trigger] degree(orders, i) == stats.max_degree as nat;
            assert(opponents(orders, top, n).len() == stats.max_degree);
            assert forall|i: int| 0 <= i < n implies #[trigger] opponents(orders, i, n).len()
                <= stats.max_degree by {
                assert(degree(orders, i) <= stats.max_degree);
            }
            lemma_pairs_come_whole(n);
        }
    }
}

} // verus!
