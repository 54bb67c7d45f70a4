//! The tasks that a conflict group gets by default, and what is recorded of them.
use vstd::prelude::*;

use crate::conflicts::{analyze_conflict_graph, is_stats_of, ConflictGraphStats};
use crate::text::{append_chars, append_text, chars_of, decimal, decimal_chars, text_of};
use crate::types::{Algorithm, ConflictGroup, ConflictTask, GroupId, TaskPriority, U256};

verus! {

/// Groups of fewer orders than this are resolved by trying every permutation.
pub const MIN_LENGTH_FOR_EXPANDED_SELECTION: usize = 8;

/// What is recorded of a group's conflict graph, and of the task that resolves the group.
///
/// The density of the graph is `edge_count` over `complete_graph_edges`, and zero where the latter
/// is zero.
#[derive(Debug, Clone, PartialEq)]
pub struct DefaultGraphStudyRecord {
    pub group_id: GroupId,
    pub algorithm: String,
    pub original_order_count: usize,
    pub selected_order_count: usize,
    pub edge_count: usize,
    pub complete_graph_edges: usize,
    pub max_degree: usize,
    pub has_missing_traces: bool,
    pub candidate_sequence_count: Option<usize>,
    pub best_profit: Option<U256>,
}

/// The name under which an algorithm is recorded.
pub open spec fn algorithm_text(algorithm: Algorithm) -> Seq<char> {
    match algorithm {
        Algorithm::Greedy => "Greedy"@,
        Algorithm::ReverseGreedy => "ReverseGreedy"@,
        Algorithm::Length => "Length"@,
        Algorithm::AllPermutations => "AllPermutations"@,
        Algorithm::RecursiveDefault => "RecursiveDefault"@,
        Algorithm::Random { seed, count } => "Random { seed: "@ + decimal(seed as nat)
            + ", count: "@ + decimal(count as nat) + " }"@,
        Algorithm::PermutationsWithNonces => "PermutationsWithNonces"@,
        Algorithm::BestOfN => "BestOfN"@,
    }
}

/// Writes [`algorithm_text`].
pub fn algorithm_name(algorithm: Algorithm) -> (r: String)
    ensures
        r@ == algorithm_text(algorithm),
{
    match algorithm {
        Algorithm::Greedy => String::from_str("Greedy"),
        Algorithm::ReverseGreedy => String::from_str("ReverseGreedy"),
        Algorithm::Length => String::from_str("Length"),
        Algorithm::AllPermutations => String::from_str("AllPermutations"),
        Algorithm::RecursiveDefault => String::from_str("RecursiveDefault"),
        Algorithm::Random { seed, count } => {
            let mut out = chars_of("Random { seed: ");
            append_chars(&mut out, decimal_chars(seed as u128));
            append_text(&mut out, ", count: ");
            append_chars(&mut out, decimal_chars(count as u128));
            append_text(&mut out, " }");
            text_of(&out)
        },
        Algorithm::PermutationsWithNonces => String::from_str("PermutationsWithNonces"),
        Algorithm::BestOfN => String::from_str("BestOfN"),
    }
}

/// The record is about the group and the algorithm.
pub open spec fn is_about(
    record: DefaultGraphStudyRecord,
    group_id: GroupId,
    algorithm: Algorithm,
) -> bool {
    record.group_id == group_id && record.algorithm@ == algorithm_text(algorithm)
}

/// The place of the first record about the group and the algorithm.
pub open spec fn is_first_about(
    records: Seq<DefaultGraphStudyRecord>,
    group_id: GroupId,
    algorithm: Algorithm,
    place: int,
) -> bool {
    &&& 0 <= place < records.len()
    &&& is_about(records[place], group_id, algorithm)
    &&& forall|i: int|
        0 <= i < place ==> !is_about(#[trigger] records[i], group_id, algorithm)
}

/// The record with the given values; where there is none, the record keeps its own.
pub open spec fn updated_record(
    record: DefaultGraphStudyRecord,
    candidate_sequence_count: Option<usize>,
    best_profit: Option<U256>,
) -> DefaultGraphStudyRecord {
    DefaultGraphStudyRecord {
        candidate_sequence_count: if candidate_sequence_count is Some {
            candidate_sequence_count
        } else {
            record.candidate_sequence_count
        },
        best_profit: if best_profit is Some {
            best_profit
        } else {
            record.best_profit
        },
        ..record
    }
}

/// Adds what became of a task to the first record about it. Nothing changes where there is none.
pub fn update_default_graph_study_record(
    records: &mut Vec<DefaultGraphStudyRecord>,
    group_id: GroupId,
    algorithm: Algorithm,
    candidate_sequence_count: Option<usize>,
    best_profit: Option<U256>,
)
    ensures
        forall|place: int| #[trigger]
            is_first_about(old(records)@, group_id, algorithm, place) ==> final(records)@
                == old(records)@.update(
                place,
                updated_record(old(records)@[place], candidate_sequence_count, best_profit),
            ),
        (forall|i: int|
            0 <= i < old(records)@.len() ==> !is_about(
                #[trigger] old(records)@[i],
                group_id,
                algorithm,
            )) ==> final(records)@ == old(records)@,
{
    let name = algorithm_name(algorithm);
    let ghost before = records@;
    let count: usize = records.len();
    for i in 0..count
        invariant
            records@ == before,
            before == old(records)@,
            count == before.len(),
            name@ == algorithm_text(algorithm),
            forall|j: int| 0 <= j < i ==> !is_about(#[trigger] before[j], group_id, algorithm),
    {
        if records[i].group_id == group_id && records[i].algorithm == name {
            if let Some(count) = candidate_sequence_count {
                records[i].candidate_sequence_count = Some(count);
            }
            if let Some(profit) = best_profit {
                records[i].best_profit = Some(profit);
            }
            proof {
                assert(is_first_about(before, group_id, algorithm, i as int));
                assert(records@ =~= before.update(
                    i as int,
                    updated_record(before[i as int], candidate_sequence_count, best_profit),
                ));
                assert forall|place: int| #[trigger]
                    is_first_about(before, group_id, algorithm, place) implies place == i by {
                    if place < i {
                        assert(!is_about(before[place], group_id, algorithm));
                    } else if place > i {
                        assert(!is_about(before[i as int], group_id, algorithm));
                    }
                }
            }
            return;
        }
    }
}

/// The algorithm that resolves a group by default.
pub open spec fn default_algorithm(group: ConflictGroup) -> Algorithm {
    if group.orders@.len() >= MIN_LENGTH_FOR_EXPANDED_SELECTION {
        Algorithm::RecursiveDefault
    } else {
        Algorithm::PermutationsWithNonces
    }
}

/// The record of a group whose conflict graph has the given numbers.
pub open spec fn is_new_record(
    record: DefaultGraphStudyRecord,
    group: ConflictGroup,
    stats: ConflictGraphStats,
) -> bool {
    &&& record.group_id == group.id
    &&& record.algorithm@ == algorithm_text(default_algorithm(group))
    &&& record.original_order_count == group.orders@.len()
    &&& record.selected_order_count == group.orders@.len()
    &&& record.edge_count == stats.edge_count
    &&& record.complete_graph_edges == stats.complete_graph_edges
    &&& record.max_degree == stats.max_degree
    &&& record.has_missing_traces == stats.has_missing_traces
    &&& record.candidate_sequence_count is None
    &&& record.best_profit is None
}

/// The only task is the default one, for the whole group.
pub open spec fn is_default_task(
    tasks: Seq<ConflictTask>,
    group: ConflictGroup,
    priority: TaskPriority,
    created_at: u64,
) -> bool {
    tasks == seq![
        ConflictTask {
            group_idx: group.id,
            algorithm: default_algorithm(group),
            priority,
            group,
            created_at,
        },
    ]
}

/// The record for the default task of a group.
fn default_record(group: &ConflictGroup, algorithm: Algorithm) -> (record: DefaultGraphStudyRecord)
    requires
        algorithm == default_algorithm(*group),
        group.orders@.len() * (group.orders@.len() - 1) <= usize::MAX,
    ensures
        exists|stats: ConflictGraphStats| #[trigger]
            is_stats_of(stats, group.orders@) && is_new_record(record, *group, stats),
{
    let stats = analyze_conflict_graph(&group.orders);
    let record = DefaultGraphStudyRecord {
        group_id: group.id,
        algorithm: algorithm_name(algorithm),
        original_order_count: group.orders.len(),
        selected_order_count: group.orders.len(),
        edge_count: stats.edge_count,
        complete_graph_edges: stats.complete_graph_edges,
        max_degree: stats.max_degree,
        has_missing_traces: stats.has_missing_traces,
        candidate_sequence_count: None,
        best_profit: None,
    };
    assert(is_stats_of(stats, group.orders@) && is_new_record(record, *group, stats));
    record
}

/// The records after the default task of a group was made: one more, where any are kept.
pub open spec fn adds_record(
    before: Seq<DefaultGraphStudyRecord>,
    after: Seq<DefaultGraphStudyRecord>,
    group: ConflictGroup,
) -> bool {
    &&& after.len() == before.len() + 1
    &&& after.drop_last() == before
    &&& exists|stats: ConflictGraphStats| #[trigger]
        is_stats_of(stats, group.orders@) && is_new_record(after.last(), group, stats)
}

/// Makes the tasks that resolve a group by default: a large group is resolved recursively, and a
/// small one by trying every permutation that keeps the nonce order. The group is kept whole.
/// Where records are kept, one is added.
pub fn get_default_tasks_for_group(
    group: &ConflictGroup,
    priority: TaskPriority,
    created_at: u64,
    records: Option<&mut Vec<DefaultGraphStudyRecord>>,
) -> (tasks: Vec<ConflictTask>)
    requires
        records is Some ==> group.orders@.len() * (group.orders@.len() - 1) <= usize::MAX,
    ensures
        is_default_task(tasks@, *group, priority, created_at),
        match records {
            Some(kept) => adds_record((*kept)@, final(kept)@, *group),
            None => true,
        },
{
    let algorithm = if group.orders.len() >= MIN_LENGTH_FOR_EXPANDED_SELECTION {
        Algorithm::RecursiveDefault
    } else {
        Algorithm::PermutationsWithNonces
    };
    let mut tasks: Vec<ConflictTask> = Vec::new();
    tasks.push(
        ConflictTask {
            group_idx: group.id,
            algorithm,
            priority,
            group: group.clone(),
            created_at,
        },
    );
    if let Some(kept) = records {
        let ghost before = kept@;
        let record = default_record(group, algorithm);
        kept.push(record);
        assert(kept@.drop_last() =~= before);
    }
    tasks
}

} // verus!
