//! Conflicts between orders, judged by the state that their simulations touched.
use std::sync::Arc;
use vstd::prelude::*;

use crate::types::{Address, SimulatedOrder, SlotKey, UsedStateTrace};

verus! {

/// The trace reads or writes a slot of `address`.
pub open spec fn touches_account(trace: UsedStateTrace, address: Address) -> bool {
    ||| exists|i: int|
        0 <= i < trace.read_slots@.len() && (#[trigger] trace.read_slots@[i]).address == address
    ||| exists|i: int|
        0 <= i < trace.written_slots@.len() && (#[trigger] trace.written_slots@[i]).address
            == address
}

/// The trace creates or destructs the contract at `address`.
pub open spec fn writes_code(trace: UsedStateTrace, address: Address) -> bool {
    trace.created_contracts@.contains(address) || trace.destructed_contracts@.contains(address)
}

/// The first trace reads a slot that the second one writes.
pub open spec fn reads_what_is_written(reader: UsedStateTrace, writer: UsedStateTrace) -> bool {
    exists|slot: SlotKey|
        reader.read_slots@.contains(slot) && #[trigger] writer.written_slots@.contains(slot)
}

/// The first trace touches an account whose code the second one writes.
pub open spec fn touches_written_code(toucher: UsedStateTrace, writer: UsedStateTrace) -> bool {
    exists|address: Address|
        touches_account(toucher, address) && #[trigger] writes_code(writer, address)
}

/// Both traces write the code of the same account.
pub open spec fn write_same_code(left: UsedStateTrace, right: UsedStateTrace) -> bool {
    exists|address: Address| writes_code(left, address) && #[trigger] writes_code(right, address)
}

/// One trace reads a slot that the other writes, or touches an account whose code the other
/// writes, or both write the code of one account.
pub open spec fn traces_in_conflict(left: UsedStateTrace, right: UsedStateTrace) -> bool {
    ||| reads_what_is_written(left, right)
    ||| reads_what_is_written(right, left)
    ||| touches_written_code(left, right)
    ||| touches_written_code(right, left)
    ||| write_same_code(left, right)
}

/// The trace of the order, where it has one.
pub open spec fn trace_of(order: Arc<SimulatedOrder>) -> Option<UsedStateTrace> {
    order.used_state_trace
}

/// The orders' traces are in conflict, or one of them has no trace.
pub open spec fn in_conflict(left: Arc<SimulatedOrder>, right: Arc<SimulatedOrder>) -> bool {
    match (trace_of(left), trace_of(right)) {
        (Some(l), Some(r)) => traces_in_conflict(l, r),
        _ => true,
    }
}

/// Conflicts are mutual.
pub proof fn law_conflicts_are_mutual(left: Arc<SimulatedOrder>, right: Arc<SimulatedOrder>)
    ensures
        in_conflict(left, right) == in_conflict(right, left),
{
    if let (Some(l), Some(r)) = (trace_of(left), trace_of(right)) {
        if write_same_code(l, r) {
            let a = choose|a: Address| writes_code(l, a) && #[trigger] writes_code(r, a);
            assert(writes_code(r, a) && writes_code(l, a));
        }
        if write_same_code(r, l) {
            let a = choose|a: Address| writes_code(r, a) && #[trigger] writes_code(l, a);
            assert(writes_code(l, a) && writes_code(r, a));
        }
    }
}

fn contains_address(addresses: &Vec<Address>, address: Address) -> (found: bool)
    ensures
        found == addresses@.contains(address),
{
    for i in 0..addresses.len()
        invariant
            forall|j: int| 0 <= j < i ==> addresses@[j] != address,
    {
        if addresses[i] == address {
            assert(addresses@[i as int] == address);
            return true;
        }
    }
    false
}

fn contains_slot(slots: &Vec<SlotKey>, slot: SlotKey) -> (found: bool)
    ensures
        found == slots@.contains(slot),
{
    for i in 0..slots.len()
        invariant
            forall|j: int| 0 <= j < i ==> slots@[j] != slot,
    {
        if slots[i] == slot {
            assert(slots@[i as int] == slot);
            return true;
        }
    }
    false
}

/// Whether the trace creates or destructs the contract at `address`.
pub fn code_write_contains(trace: &UsedStateTrace, address: Address) -> (r: bool)
    ensures
        r == writes_code(*trace, address),
{
    contains_address(&trace.created_contracts, address) || contains_address(
        &trace.destructed_contracts,
        address,
    )
}

fn shares_slot(reader: &UsedStateTrace, writer: &UsedStateTrace) -> (r: bool)
    ensures
        r == reads_what_is_written(*reader, *writer),
{
    for i in 0..reader.read_slots.len()
        invariant
            forall|j: int|
                0 <= j < i ==> !writer.written_slots@.contains(#[trigger] reader.read_slots@[j]),
    {
        if contains_slot(&writer.written_slots, reader.read_slots[i]) {
            assert(reader.read_slots@.contains(reader.read_slots@[i as int]));
            return true;
        }
    }
    false
}

fn any_slot_in_written_code(slots: &Vec<SlotKey>, writer: &UsedStateTrace) -> (r: bool)
    ensures
        r == (exists|i: int|
            0 <= i < slots@.len() && writes_code(*writer, (#[trigger] slots@[i]).address)),
{
    for i in 0..slots.len()
        invariant
            forall|j: int| 0 <= j < i ==> !writes_code(*writer, (#[trigger] slots@[j]).address),
    {
        if code_write_contains(writer, slots[i].address) {
            assert(writes_code(*writer, slots@[i as int].address));
            return true;
        }
    }
    false
}

fn enters_written_code(toucher: &UsedStateTrace, writer: &UsedStateTrace) -> (r: bool)
    ensures
        r == touches_written_code(*toucher, *writer),
{
    let read: bool = any_slot_in_written_code(&toucher.read_slots, writer);
    let written: bool = any_slot_in_written_code(&toucher.written_slots, writer);
    proof {
        if read {
            let i = choose|i: int|
                0 <= i < toucher.read_slots@.len() && writes_code(
                    *writer,
                    (#[trigger] toucher.read_slots@[i]).address,
                );
            assert(touches_account(*toucher, toucher.read_slots@[i].address));
        }
        if written {
            let i = choose|i: int|
                0 <= i < toucher.written_slots@.len() && writes_code(
                    *writer,
                    (#[trigger] toucher.written_slots@[i]).address,
                );
            assert(touches_account(*toucher, toucher.written_slots@[i].address));
        }
    }
    read || written
}

fn any_address_in_written_code(addresses: &Vec<Address>, writer: &UsedStateTrace) -> (r: bool)
    ensures
        r == (exists|i: int|
            0 <= i < addresses@.len() && writes_code(*writer, #[trigger] addresses@[i])),
{
    for i in 0..addresses.len()
        invariant
            forall|j: int| 0 <= j < i ==> !writes_code(*writer, #[trigger] addresses@[j]),
    {
        if code_write_contains(writer, addresses[i]) {
            assert(writes_code(*writer, addresses@[i as int]));
            return true;
        }
    }
    false
}

fn both_write_code(left: &UsedStateTrace, right: &UsedStateTrace) -> (r: bool)
    ensures
        r == write_same_code(*left, *right),
{
    let created: bool = any_address_in_written_code(&left.created_contracts, right);
    let destructed: bool = any_address_in_written_code(&left.destructed_contracts, right);
    proof {
        if created {
            let i = choose|i: int|
                0 <= i < left.created_contracts@.len() && writes_code(
                    *right,
                    #[trigger] left.created_contracts@[i],
                );
            assert(writes_code(*left, left.created_contracts@[i]));
        }
        if destructed {
            let i = choose|i: int|
                0 <= i < left.destructed_contracts@.len() && writes_code(
                    *right,
                    #[trigger] left.destructed_contracts@[i],
                );
            assert(writes_code(*left, left.destructed_contracts@[i]));
        }
    }
    created || destructed
}

/// Whether the two traces are in conflict.
pub fn traces_conflict(left: &UsedStateTrace, right: &UsedStateTrace) -> (r: bool)
    ensures
        r == traces_in_conflict(*left, *right),
{
    shares_slot(left, right) || shares_slot(right, left) || enters_written_code(left, right)
        || enters_written_code(right, left) || both_write_code(left, right)
}

/// Whether the two orders are in conflict.
pub fn orders_conflict(left: &Arc<SimulatedOrder>, right: &Arc<SimulatedOrder>) -> (r: bool)
    ensures
        r == in_conflict(*left, *right),
{
    match (&left.used_state_trace, &right.used_state_trace) {
        (Some(l), Some(r)) => traces_conflict(l, r),
        _ => true,
    }
}

/// How many of the orders `0..k`, other than `i`, are in conflict with order `i`.
pub open spec fn conflicts_among(orders: Seq<Arc<SimulatedOrder>>, i: int, k: int) -> nat
    decreases k,
{
    if k <= 0 {
        0
    } else {
        conflicts_among(orders, i, k - 1) + if k - 1 != i && in_conflict(orders[i], orders[k - 1]) {
            1nat
        } else {
            0nat
        }
    }
}

/// How many other orders are in conflict with order `i`.
pub open spec fn degree(orders: Seq<Arc<SimulatedOrder>>, i: int) -> nat {
    conflicts_among(orders, i, orders.len() as int)
}

/// How many pairs among the orders `0..k` are in conflict.
pub open spec fn conflict_pairs(orders: Seq<Arc<SimulatedOrder>>, k: int) -> nat
    decreases k,
{
    if k <= 0 {
        0
    } else {
        conflict_pairs(orders, k - 1) + conflicts_among(orders, k - 1, k - 1)
    }
}

/// The sum of the degrees of the orders `0..k`.
pub open spec fn degree_sum(orders: Seq<Arc<SimulatedOrder>>, k: int) -> nat
    decreases k,
{
    if k <= 0 {
        0
    } else {
        degree_sum(orders, k - 1) + degree(orders, k - 1)
    }
}

/// The sum, over the orders `0..k`, of their conflicts among the orders `0..m`.
spec fn conflict_sum(orders: Seq<Arc<SimulatedOrder>>, k: int, m: int) -> nat
    decreases k,
{
    if k <= 0 {
        0
    } else {
        conflict_sum(orders, k - 1, m) + conflicts_among(orders, k - 1, m)
    }
}

proof fn lemma_conflict_sum_step(orders: Seq<Arc<SimulatedOrder>>, k: int, m: int)
    requires
        0 <= k <= m,
    ensures
        conflict_sum(orders, k, m + 1) == conflict_sum(orders, k, m) + conflicts_among(
            orders,
            m,
            k,
        ),
    decreases k,
{
    if k > 0 {
        lemma_conflict_sum_step(orders, k - 1, m);
        law_conflicts_are_mutual(orders[k - 1], orders[m]);
    }
}

proof fn lemma_conflict_sum_is_twice_pairs(orders: Seq<Arc<SimulatedOrder>>, k: int)
    requires
        0 <= k,
    ensures
        conflict_sum(orders, k, k) == 2 * conflict_pairs(orders, k),
    decreases k,
{
    if k > 0 {
        lemma_conflict_sum_is_twice_pairs(orders, k - 1);
        lemma_conflict_sum_step(orders, k - 1, k - 1);
        assert(conflicts_among(orders, k - 1, k) == conflicts_among(orders, k - 1, k - 1));
    }
}

proof fn lemma_degree_sum_is_conflict_sum(orders: Seq<Arc<SimulatedOrder>>, k: int)
    ensures
        degree_sum(orders, k) == conflict_sum(orders, k, orders.len() as int),
    decreases k,
{
    if k > 0 {
        lemma_degree_sum_is_conflict_sum(orders, k - 1);
    }
}

/// Every conflict counts once for each of its two orders: the degrees add up to twice the number
/// of conflicting pairs.
pub proof fn law_degrees_add_up_to_twice_the_edges(orders: Seq<Arc<SimulatedOrder>>)
    ensures
        degree_sum(orders, orders.len() as int) == 2 * conflict_pairs(orders, orders.len() as int),
{
    lemma_degree_sum_is_conflict_sum(orders, orders.len() as int);
    lemma_conflict_sum_is_twice_pairs(orders, orders.len() as int);
}

proof fn lemma_conflicts_among_bound(orders: Seq<Arc<SimulatedOrder>>, i: int, k: int)
    ensures
        conflicts_among(orders, i, k) <= if k <= 0 { 0 } else { k },
    decreases k,
{
    if k > 0 {
        lemma_conflicts_among_bound(orders, i, k - 1);
    }
}

proof fn lemma_conflict_pairs_bound(orders: Seq<Arc<SimulatedOrder>>, k: int)
    requires
        0 <= k,
    ensures
        2 * conflict_pairs(orders, k) <= k * (k - 1),
    decreases k,
{
    if k > 0 {
        lemma_conflict_pairs_bound(orders, k - 1);
        lemma_conflicts_among_bound(orders, k - 1, k - 1);
        assert((k - 1) * (k - 1 - 1) + 2 * (k - 1) == k * (k - 1)) by (nonlinear_arith);
    } else {
        assert(k * (k - 1) == 0) by (nonlinear_arith)
            requires
                k == 0,
        ;
    }
}

/// Key figures of a group's conflict graph.
#[derive(Clone, Copy, Debug, PartialEq, Eq, Structural)]
pub struct ConflictGraphStats {
    /// The number of conflicting pairs.
    pub edge_count: usize,
    /// The number of pairs; the graph's density is the share of them that conflict.
    pub complete_graph_edges: usize,
    /// The largest number of conflicts of one order.
    pub max_degree: usize,
    /// Some order has no trace, and nothing was counted.
    pub has_missing_traces: bool,
}

impl Default for ConflictGraphStats {
    fn default() -> (r: ConflictGraphStats)
        ensures
            r == empty_stats(false),
    {
        ConflictGraphStats {
            edge_count: 0,
            complete_graph_edges: 0,
            max_degree: 0,
            has_missing_traces: false,
        }
    }
}

/// The figures where nothing was counted.
pub open spec fn empty_stats(has_missing_traces: bool) -> ConflictGraphStats {
    ConflictGraphStats {
        edge_count: 0,
        complete_graph_edges: 0,
        max_degree: 0,
        has_missing_traces,
    }
}

/// Every order has a trace.
pub open spec fn all_traced(orders: Seq<Arc<SimulatedOrder>>) -> bool {
    forall|i: int| 0 <= i < orders.len() ==> trace_of(#[trigger] orders[i]) is Some
}

/// `m` is the largest degree of the orders.
pub open spec fn is_max_degree(orders: Seq<Arc<SimulatedOrder>>, m: nat) -> bool {
    &&& forall|i: int| 0 <= i < orders.len() ==> #[trigger] degree(orders, i) <= m
    &&& exists|i: int| 0 <= i < orders.len() && #[trigger] degree(orders, i) == m
}

/// The figures of the group's conflict graph.
pub open spec fn is_stats_of(stats: ConflictGraphStats, orders: Seq<Arc<SimulatedOrder>>) -> bool {
    if orders.len() < 2 {
        stats == empty_stats(false)
    } else if !all_traced(orders) {
        stats == empty_stats(true)
    } else {
        &&& stats.edge_count == conflict_pairs(orders, orders.len() as int)
        &&& stats.complete_graph_edges as int == orders.len() * (orders.len() - 1) / 2
        &&& is_max_degree(orders, stats.max_degree as nat)
        &&& !stats.has_missing_traces
    }
}

/// Counts the conflicting pairs of a group and finds the largest degree. A group of fewer than two
/// orders, or with an order that has no trace, is not counted.
pub fn analyze_conflict_graph(orders: &[Arc<SimulatedOrder>]) -> (r: ConflictGraphStats)
    requires
        orders@.len() * (orders@.len() - 1) <= usize::MAX,
    ensures
        is_stats_of(r, orders@),
{
    let n: usize = orders.len();
    if n < 2 {
        return ConflictGraphStats::default();
    }
    for i in 0..n
        invariant
            n == orders@.len(),
            n >= 2,
            forall|j: int| 0 <= j < i ==> trace_of(#[trigger] orders@[j]) is Some,
    {
        if orders[i].used_state_trace.is_none() {
            assert(trace_of(orders@[i as int]) is None);
            return ConflictGraphStats {
                edge_count: 0,
                complete_graph_edges: 0,
                max_degree: 0,
                has_missing_traces: true,
            };
        }
    }
    let ghost total = n as int;
    let mut edge_count: usize = 0;
    let mut degrees: Vec<usize> = Vec::new();
    for i in 0..n
        invariant
            degrees@.len() == i,
            forall|v: int| 0 <= v < i ==> #[trigger] degrees@[v] == 0,
    {
        degrees.push(0);
    }
    assert forall|v: int| 0 <= v < n implies #[trigger] degrees@[v] == conflicts_among(
        orders@,
        v,
        0,
    ) by {}
    for right in 0..n
        invariant
            n == orders@.len(),
            n * (n - 1) <= usize::MAX,
            degrees@.len() == n,
            edge_count == conflict_pairs(orders@, right as int),
            forall|v: int|
                0 <= v < n ==> #[trigger] degrees@[v] == (if v < right {
                    conflicts_among(orders@, v, right as int)
                } else {
                    0
                }),
    {
        for left in 0..right
            invariant
                n == orders@.len(),
                right < n,
                n * (n - 1) <= usize::MAX,
                degrees@.len() == n,
                edge_count == conflict_pairs(orders@, right as int) + conflicts_among(
                    orders@,
                    right as int,
                    left as int,
                ),
                forall|v: int|
                    0 <= v < n ==> #[trigger] degrees@[v] == (if v < left {
                        conflicts_among(orders@, v, right + 1)
                    } else if v < right {
                        conflicts_among(orders@, v, right as int)
                    } else if v == right {
                        conflicts_among(orders@, right as int, left as int)
                    } else {
                        0
                    }),
        {
            proof {
                law_conflicts_are_mutual(orders@[left as int], orders@[right as int]);
                lemma_conflict_pairs_bound(orders@, right as int);
                lemma_conflicts_among_bound(orders@, right as int, left as int);
                lemma_conflicts_among_bound(orders@, left as int, right as int);
                assert(right * (right - 1) + 2 * right <= n * (n - 1)) by (nonlinear_arith)
                    requires
                        0 <= right < n,
                ;
                assert(n <= usize::MAX);
                assert(conflicts_among(orders@, left as int, right + 1) == conflicts_among(
                    orders@,
                    left as int,
                    right as int,
                ) + if in_conflict(orders@[left as int], orders@[right as int]) {
                    1nat
                } else {
                    0nat
                });
                assert(conflicts_among(orders@, right as int, left + 1) == conflicts_among(
                    orders@,
                    right as int,
                    left as int,
                ) + if in_conflict(orders@[right as int], orders@[left as int]) {
                    1nat
                } else {
                    0nat
                });
            }
            if orders_conflict(&orders[left], &orders[right]) {
                edge_count = edge_count + 1;
                let left_degree: usize = degrees[left];
                degrees.set(left, left_degree + 1);
                let right_degree: usize = degrees[right];
                degrees.set(right, right_degree + 1);
            }
        }
        proof {
            assert(conflicts_among(orders@, right as int, right + 1) == conflicts_among(
                orders@,
                right as int,
                right as int,
            ));
        }
    }
    let mut max_degree: usize = degrees[0];
    let ghost mut at: int = 0;
    for i in 0..n
        invariant
            n == orders@.len(),
            degrees@.len() == n,
            forall|v: int| 0 <= v < n ==> #[trigger] degrees@[v] == degree(orders@, v),
            0 <= at < n,
            max_degree == degrees@[at],
            forall|v: int| 0 <= v < i ==> #[trigger] degrees@[v] <= max_degree,
    {
        if degrees[i] > max_degree {
            max_degree = degrees[i];
            proof {
                at = i as int;
            }
        }
    }
    proof {
        assert(degree(orders@, at) == max_degree);
        assert forall|i: int| 0 <= i < orders@.len() implies #[trigger] degree(orders@, i)
            <= max_degree by {
            assert(degrees@[i] == degree(orders@, i));
        }
    }
    ConflictGraphStats {
        edge_count,
        complete_graph_edges: n * (n - 1) / 2,
        max_degree,
        has_missing_traces: false,
    }
}

} // verus!
