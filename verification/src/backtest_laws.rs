//! The steps of a backtest, its times and its winner.
use vstd::prelude::*;

use crate::backtest::{is_winner, order_timestamp, slot_time, steps_of, BacktestStep, BuildBlockCfg};
use crate::conflicts::{is_stats_of, ConflictGraphStats};
use crate::default_tasks::{
    adds_record, algorithm_text, default_algorithm, is_about, is_default_task, is_first_about,
    is_new_record, updated_record, DefaultGraphStudyRecord,
};
use crate::private_mempool::{as_signed, fetch_range, milliseconds};
use crate::provider::{next_count, no_accesses};
use crate::types::{
    Algorithm, ConflictGroup, ConflictTask, GroupId, OrderId, TaskPriority, U256,
};

verus! {

/// The turn of a step.
pub open spec fn turn(step: BacktestStep) -> int {
    match step {
        BacktestStep::CreateBlockBuildingContext => 0,
        BacktestStep::SetupTracingSubscriber => 1,
        BacktestStep::OpenGraphStats => 2,
        BacktestStep::LoadAvailableOrders => 3,
        BacktestStep::CreateProviderAndStats => 4,
        BacktestStep::SimulateAvailableOrders => 5,
        BacktestStep::ShowTxExtraData { tx_hash } => 6,
        BacktestStep::ShowOrders => 7,
        BacktestStep::ShowSim => 8,
        BacktestStep::BuildBlocks { trace } => 9,
    }
}

/// The step is asked for.
pub open spec fn is_asked_for(cfg: BuildBlockCfg, step: BacktestStep) -> bool {
    match step {
        BacktestStep::OpenGraphStats => cfg.graph_stats_csv is Some,
        BacktestStep::ShowTxExtraData { tx_hash } => cfg.show_tx_extra_data == Some(tx_hash),
        BacktestStep::ShowOrders => cfg.show_orders,
        BacktestStep::ShowSim => cfg.show_sim,
        BacktestStep::BuildBlocks { trace } => !cfg.no_block_building && trace
            == cfg.trace_block_building,
        _ => true,
    }
}

/// The steps are in their turns, all of them before turn `k`, and they are those that are asked
/// for.
spec fn is_beginning(cfg: BuildBlockCfg, steps: Seq<BacktestStep>, k: int) -> bool {
    &&& forall|i: int, j: int|
        0 <= i < j < steps.len() ==> turn(#[trigger] steps[i]) < turn(#[trigger] steps[j])
    &&& forall|i: int| 0 <= i < steps.len() ==> turn(#[trigger] steps[i]) < k
    &&& forall|step: BacktestStep| #[trigger]
        steps.contains(step) <==> turn(step) < k && is_asked_for(cfg, step)
}

proof fn lemma_next_turn(
    cfg: BuildBlockCfg,
    steps: Seq<BacktestStep>,
    more: Seq<BacktestStep>,
    k: int,
)
    requires
        is_beginning(cfg, steps, k),
        more.len() <= 1,
        more.len() == 1 ==> turn(more[0]) == k,
        forall|step: BacktestStep|
            turn(step) == k ==> (#[trigger] is_asked_for(cfg, step) <==> more.len() == 1 && more[0]
                == step),
    ensures
        is_beginning(cfg, steps + more, k + 1),
{
    let all = steps + more;
    assert forall|i: int, j: int| 0 <= i < j < all.len() implies turn(#[trigger] all[i]) < turn(
        #[trigger] all[j],
    ) by {
        assert(all[i] == steps[i]);
        if j < steps.len() {
            assert(all[j] == steps[j]);
        }
    }
    assert forall|i: int| 0 <= i < all.len() implies turn(#[trigger] all[i]) < k + 1 by {
        if i < steps.len() {
            assert(all[i] == steps[i]);
        }
    }
    assert forall|step: BacktestStep| #[trigger] all.contains(step) <==> turn(step) < k + 1
        && is_asked_for(cfg, step) by {
        assert(steps.contains(step) <==> turn(step) < k && is_asked_for(cfg, step));
        if all.contains(step) {
            let i = choose|i: int| 0 <= i < all.len() && all[i] == step;
            if i < steps.len() {
                assert(steps[i] == step);
            } else {
                assert(more[0] == step);
                assert(is_asked_for(cfg, step));
            }
        }
        if steps.contains(step) {
            let i = choose|i: int| 0 <= i < steps.len() && steps[i] == step;
            assert(all[i] == step);
        }
        if turn(step) == k && is_asked_for(cfg, step) {
            assert(all[steps.len() as int] == step);
        }
    }
}

/// A backtest takes exactly the steps that are asked for, each once and in its turn: the context is
/// made first, the orders are loaded before they are simulated, they are simulated before anything
/// of them is shown, and blocks are built last.
pub proof fn law_a_backtest_does_what_it_is_asked_for(
    cfg: BuildBlockCfg,
    step: BacktestStep,
    i: int,
    j: int,
)
    ensures
        steps_of(cfg).contains(step) <==> is_asked_for(cfg, step),
        0 <= i < j < steps_of(cfg).len() ==> turn(steps_of(cfg)[i]) < turn(steps_of(cfg)[j]),
{
    let none = Seq::<BacktestStep>::empty();
    let context = seq![BacktestStep::CreateBlockBuildingContext];
    let tracing = seq![BacktestStep::SetupTracingSubscriber];
    let stats = if cfg.graph_stats_csv is Some {
        seq![BacktestStep::OpenGraphStats]
    } else {
        none
    };
    let load = seq![BacktestStep::LoadAvailableOrders];
    let provider = seq![BacktestStep::CreateProviderAndStats];
    let simulate = seq![BacktestStep::SimulateAvailableOrders];
    let extra = match cfg.show_tx_extra_data {
        Some(tx_hash) => seq![BacktestStep::ShowTxExtraData { tx_hash }],
        None => none,
    };
    let orders = if cfg.show_orders {
        seq![BacktestStep::ShowOrders]
    } else {
        none
    };
    let sim = if cfg.show_sim {
        seq![BacktestStep::ShowSim]
    } else {
        none
    };
    let build = if !cfg.no_block_building {
        seq![BacktestStep::BuildBlocks { trace: cfg.trace_block_building }]
    } else {
        none
    };
    assert(is_beginning(cfg, none, 0));
    lemma_next_turn(cfg, none, context, 0);
    let a = none + context;
    lemma_next_turn(cfg, a, tracing, 1);
    let b = a + tracing;
    lemma_next_turn(cfg, b, stats, 2);
    let c = b + stats;
    lemma_next_turn(cfg, c, load, 3);
    let d = c + load;
    lemma_next_turn(cfg, d, provider, 4);
    let e = d + provider;
    lemma_next_turn(cfg, e, simulate, 5);
    let f = e + simulate;
    lemma_next_turn(cfg, f, extra, 6);
    let g = f + extra;
    lemma_next_turn(cfg, g, orders, 7);
    let h = g + orders;
    lemma_next_turn(cfg, h, sim, 8);
    let k = h + sim;
    lemma_next_turn(cfg, k, build, 9);
    let steps = k + build;
    let first = seq![
        BacktestStep::CreateBlockBuildingContext,
        BacktestStep::SetupTracingSubscriber,
    ];
    let second = seq![
        BacktestStep::LoadAvailableOrders,
        BacktestStep::CreateProviderAndStats,
        BacktestStep::SimulateAvailableOrders,
    ];
    assert(b =~= first);
    assert(f =~= c + second);
    assert(steps_of(cfg) == steps);
    assert(steps.contains(step) <==> turn(step) < 10 && is_asked_for(cfg, step));
}

/// The winner has a block, and no builder has a larger profit; of those with the same profit it is
/// the last. There is never more than one.
pub proof fn law_one_builder_wins(profits: Seq<Option<U256>>, place: int, other: int)
    requires
        is_winner(profits, place),
    ensures
        profits[place] is Some,
        0 <= other < profits.len() && profits[other] is Some ==> profits[other]->0.value()
            <= profits[place]->0.value(),
        place < other < profits.len() && profits[other] is Some ==> profits[other]->0.value()
            < profits[place]->0.value(),
        is_winner(profits, other) ==> other == place,
{
    if 0 <= other < profits.len() && profits[other] is Some {
        assert(profits[other]->0.value() <= profits[place]->0.value());
    }
}

/// What came in so many milliseconds before the block's time has that slot time, and what came in
/// after it a negative one.
pub proof fn law_slot_time_counts_back_from_the_block(timestamp_ms: u64, block_timestamp: u64)
    requires
        timestamp_ms < 0x8000_0000_0000_0000,
        block_timestamp * 1000 < 0x8000_0000_0000_0000,
    ensures
        slot_time(timestamp_ms, block_timestamp) + timestamp_ms == block_timestamp * 1000,
{
}

/// An order came in when its last arrival says, and at zero where there is none; an arrival of
/// another order changes nothing.
pub proof fn law_the_last_arrival_counts(
    arrivals: Seq<(OrderId, u64)>,
    id: OrderId,
    other: OrderId,
    time: u64,
)
    ensures
        order_timestamp(Seq::empty(), id) == 0,
        order_timestamp(arrivals.push((id, time)), id) == time,
        other != id ==> order_timestamp(arrivals.push((other, time)), id) == order_timestamp(
            arrivals,
            id,
        ),
{
    assert(arrivals.push((id, time)).drop_last() =~= arrivals);
    assert(arrivals.push((other, time)).drop_last() =~= arrivals);
}

/// Orders for a block are looked for from three minutes before its time up to five seconds after
/// it. A block after the last year that has dates has no such range.
pub proof fn law_orders_are_looked_for_around_the_block(block_timestamp: u64)
    requires
        block_timestamp < 0x8000_0000_0000_0000,
    ensures
        match fetch_range(block_timestamp) {
            Some((from, to)) => block_timestamp <= 253402300799 && from == (block_timestamp - 180)
                * 1_000_000_000 && to == (block_timestamp + 5) * 1_000_000_000,
            None => block_timestamp > 253402300799,
        },
{
}

/// The milliseconds of a moment are the whole ones that have gone by. There are none before the
/// beginning of 1970, but for the last one before it, nor where they are too many to count.
pub proof fn law_milliseconds_are_cut_off(moment: int, millis: u64)
    ensures
        moment >= 0 ==> (milliseconds(moment) == Some(millis) <==> millis * 1_000_000 <= moment < (
        millis + 1) * 1_000_000),
        moment >= 0 ==> (milliseconds(moment) is None <==> moment >= 0x1_0000_0000_0000_0000
            * 1_000_000),
        -1_000_000 < moment < 0 ==> milliseconds(moment) == Some(0u64),
        moment <= -1_000_000 ==> milliseconds(moment) is None,
{
}

/// Numbers up to half of the range stand for themselves, and the others for negative ones, so that
/// counting up wraps around.
pub proof fn law_signed_numbers_wrap_around(n: u64)
    ensures
        as_signed(n) == n || as_signed(n) == n - 0x1_0000_0000_0000_0000,
        -0x8000_0000_0000_0000 <= as_signed(n) < 0x8000_0000_0000_0000,
{
}

/// A count goes up by one, and the largest one is followed by zero.
pub proof fn law_counts_go_up_by_one(n: u64)
    ensures
        next_count(n) as int == (n + 1) % 0x1_0000_0000_0000_0000,
        no_accesses().provider_opens == 0,
        no_accesses().consistency_checks == 0,
        no_accesses().health_scans == 0,
{
}

/// A group of eight orders or more is resolved recursively, and a smaller one by trying the
/// permutations that keep the nonce order; the task is for the whole group.
pub proof fn law_large_groups_are_resolved_recursively(
    tasks: Seq<ConflictTask>,
    group: ConflictGroup,
    priority: TaskPriority,
    created_at: u64,
)
    requires
        is_default_task(tasks, group, priority, created_at),
    ensures
        tasks.len() == 1,
        tasks[0].algorithm is RecursiveDefault <==> group.orders@.len() >= 8,
        tasks[0].algorithm is PermutationsWithNonces <==> group.orders@.len() < 8,
        tasks[0].group == group,
        tasks[0].group_idx == group.id,
        tasks[0].priority == priority,
        tasks[0].created_at == created_at,
{
}

/// The record of a new task is about the group and the task's algorithm, and holds the figures of
/// the group's conflict graph. Nothing is known yet of what becomes of the task.
pub proof fn law_a_new_record_is_about_its_task(
    record: DefaultGraphStudyRecord,
    tasks: Seq<ConflictTask>,
    group: ConflictGroup,
    priority: TaskPriority,
    created_at: u64,
    stats: ConflictGraphStats,
)
    requires
        is_default_task(tasks, group, priority, created_at),
        is_stats_of(stats, group.orders@),
        is_new_record(record, group, stats),
    ensures
        record.group_id == tasks[0].group.id,
        record.algorithm@ == algorithm_text(tasks[0].algorithm),
        is_about(record, tasks[0].group.id, tasks[0].algorithm),
        record.original_order_count == group.orders@.len(),
        record.selected_order_count == tasks[0].group.orders@.len(),
        record.edge_count == stats.edge_count,
        record.complete_graph_edges == stats.complete_graph_edges,
        record.max_degree == stats.max_degree,
        record.has_missing_traces == stats.has_missing_traces,
        record.candidate_sequence_count is None,
        record.best_profit is None,
{
    assert(tasks[0].algorithm == default_algorithm(group));
}

/// A record is about a group and an algorithm exactly where it has the group's identifier and the
/// algorithm's name.
pub proof fn law_records_are_found_by_group_and_name(
    records: Seq<DefaultGraphStudyRecord>,
    group_id: GroupId,
    algorithm: Algorithm,
    place: int,
    earlier: int,
)
    requires
        is_first_about(records, group_id, algorithm, place),
        0 <= earlier < place,
    ensures
        records[place].group_id == group_id,
        records[place].algorithm@ == algorithm_text(algorithm),
        records[earlier].group_id != group_id || records[earlier].algorithm@ != algorithm_text(
            algorithm,
        ),
{
    assert(!is_about(records[earlier], group_id, algorithm));
}

/// What becomes of a task is added to its record, and what is not known leaves the record as it is.
pub proof fn law_a_record_takes_what_is_known(
    record: DefaultGraphStudyRecord,
    count: usize,
    profit: U256,
)
    ensures
        ({
            let after = updated_record(record, Some(count), Some(profit));
            &&& after.candidate_sequence_count == Some(count)
            &&& after.best_profit == Some(profit)
            &&& after.group_id == record.group_id
            &&& after.algorithm == record.algorithm
            &&& after.original_order_count == record.original_order_count
            &&& after.selected_order_count == record.selected_order_count
            &&& after.edge_count == record.edge_count
            &&& after.complete_graph_edges == record.complete_graph_edges
            &&& after.max_degree == record.max_degree
            &&& after.has_missing_traces == record.has_missing_traces
        }),
        updated_record(record, None, None) == record,
        updated_record(updated_record(record, Some(count), None), None, Some(profit))
            == updated_record(record, Some(count), Some(profit)),
{
}

/// Making the default task of a group adds one record behind those that are kept, and changes none
/// of them.
pub proof fn law_one_record_is_added(
    before: Seq<DefaultGraphStudyRecord>,
    after: Seq<DefaultGraphStudyRecord>,
    group: ConflictGroup,
    i: int,
)
    requires
        adds_record(before, after, group),
    ensures
        after.len() == before.len() + 1,
        0 <= i < before.len() ==> after[i] == before[i],
        after.last().group_id == group.id,
        after.last().original_order_count == group.orders@.len(),
        exists|stats: ConflictGraphStats| #[trigger]
            is_stats_of(stats, group.orders@) && after.last().edge_count == stats.edge_count
                && after.last().complete_graph_edges == stats.complete_graph_edges
                && after.last().max_degree == stats.max_degree && after.last().has_missing_traces
                == stats.has_missing_traces,
{
    if 0 <= i < before.len() {
        assert(after.drop_last()[i] == after[i]);
    }
    let stats = choose|stats: ConflictGraphStats| #[trigger]
        is_stats_of(stats, group.orders@) && is_new_record(after.last(), group, stats);
    assert(is_stats_of(stats, group.orders@));
}

} // verus!
