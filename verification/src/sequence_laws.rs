//! The sequences that each algorithm tries, told by the orders' own figures, and what is kept of
//! trying them.
use rand::rngs::SmallRng;
use vstd::prelude::*;

use crate::graph::is_interaction_graph;
use crate::orderings::{is_ordering, lemma_ordering_is_onto, less_at, lex_less, nested};
use crate::permutations::{
    is_linear_extension, lists_extensions, lists_nonce_orderings, precedes, respects,
};
use crate::random::is_generator_of;
use crate::recursive::{
    is_drawn_plan, joined_sequences, total_count, RECURSIVE_DEFAULT_SAMPLE_SEED,
};
use crate::resolver::{
    are_results, better, candidate_fails, evaluates_to, is_first_best, is_kept, resolves_by_trying,
    resolves_recursively, solves_subproblem, solves_subproblems, some_sequence_fails,
};
use crate::sequences::{
    are_candidates, gas_price_ranks, is_identity, is_subtask, length_ranks, orders_at,
    profit_ranks, remapped,
};
use crate::sorting::{is_stable_order, is_stably_sorted, picked};
use crate::types::{
    lemma_value_bound, two_to_256, Algorithm, ConflictTask, ResolutionResult, U256,
};

verus! {

/// A stable order holds every place once. The ranks never decrease from one place to the next, and
/// of two places with the same rank the smaller one comes first.
pub proof fn law_a_stable_order_goes_by_rank(ranks: Seq<int>, p: Seq<usize>, place: usize)
    requires
        is_stable_order(ranks, p),
        place < ranks.len(),
    ensures
        p.len() == ranks.len(),
        p.no_duplicates(),
        p.contains(place),
        forall|i: int| 0 <= i < p.len() ==> (#[trigger] p[i] as int) < ranks.len(),
        forall|i: int, j: int|
            0 <= i < j < p.len() ==> ranks[#[trigger] p[i] as int] <= ranks[#[trigger] p[j] as int],
        forall|i: int, j: int|
            0 <= i < j < p.len() && ranks[#[trigger] p[i] as int] == ranks[#[trigger] p[j] as int]
                ==> p[i] < p[j],
{
    lemma_ordering_is_onto(p, ranks.len() as int, place);
}

/// Sorting loses no item and adds none: every item stands at one place of the sorted list, and
/// every place of the sorted list holds an item.
pub proof fn law_sorting_keeps_every_item<T>(sorted: Seq<T>, items: Seq<T>, ranks: Seq<int>, k: int)
    requires
        is_stably_sorted(sorted, items, ranks),
        ranks.len() == items.len() <= usize::MAX,
        0 <= k < items.len(),
    ensures
        sorted.len() == items.len(),
        sorted.contains(items[k]),
        items.contains(sorted[k]),
        sorted.to_multiset() =~= items.to_multiset(),
{
    let p = choose|p: Seq<usize>| #[trigger]
        is_stable_order(ranks, p) && sorted == picked(items, p);
    lemma_ordering_is_onto(p, ranks.len() as int, k as usize);
    let i = choose|i: int| 0 <= i < p.len() && p[i] == k as usize;
    assert(sorted[i] == items[k]);
    assert(items[p[k] as int] == sorted[k]);
    lemma_rearranged(sorted, items, p);
}

/// Items that are picked in another order are the same items.
proof fn lemma_rearranged<T>(sorted: Seq<T>, items: Seq<T>, p: Seq<usize>)
    requires
        items.len() <= usize::MAX,
        is_ordering(p, items.len() as int),
        sorted == picked(items, p),
    ensures
        sorted.to_multiset() =~= items.to_multiset(),
    decreases items.len(),
{
    broadcast use vstd::seq_lib::group_to_multiset_ensures;

    let n = items.len() as int;
    if n == 0 {
        assert(sorted =~= items);
    } else {
        lemma_ordering_is_onto(p, n, (n - 1) as usize);
        let at = choose|at: int| 0 <= at < p.len() && p[at] == (n - 1) as usize;
        let fewer = items.drop_last();
        let q = p.remove(at);
        assert forall|i: int| 0 <= i < q.len() implies (#[trigger] q[i] as int) < n - 1 by {
            if i < at {
                assert(q[i] == p[i]);
            } else {
                assert(q[i] == p[i + 1]);
            }
        }
        assert(q.no_duplicates()) by {
            assert forall|i: int, j: int| 0 <= i < q.len() && 0 <= j < q.len() && i != j implies
                q[i] != q[j] by {
                let a = if i < at {
                    i
                } else {
                    i + 1
                };
                let b = if j < at {
                    j
                } else {
                    j + 1
                };
                assert(q[i] == p[a] && q[j] == p[b]);
            }
        }
        let rest = sorted.remove(at);
        assert(rest =~= picked(fewer, q));
        lemma_rearranged(rest, fewer, q);
        assert(items =~= fewer.push(items.last()));
        assert(sorted[at] == items.last());
        assert(sorted =~= rest.insert(at, items.last()));
        assert(sorted.to_multiset() =~= rest.to_multiset().insert(items.last()));
        assert(items.to_multiset() =~= fewer.to_multiset().insert(items.last()));
    }
}

/// The greedy algorithm tries two sequences of all orders: one in which no order stands before one
/// with a larger profit, and one in which none stands before one with a larger gas price. Equal
/// orders stand as in the group. The reversed algorithm has the smallest first instead.
pub proof fn law_greedy_goes_by_profit_and_by_price(
    task: ConflictTask,
    rows: Seq<Seq<usize>>,
    i: int,
    j: int,
)
    requires
        are_candidates(task, rows),
        task.algorithm is Greedy || task.algorithm is ReverseGreedy,
        0 <= i < j < task.group.orders@.len(),
    ensures
        ({
            let orders = task.group.orders@;
            let profit = |x: int| orders[rows[0][x] as int].coinbase_profit.value();
            let price = |x: int| orders[rows[1][x] as int].mev_gas_price.value();
            &&& rows.len() == 2
            &&& rows[0].len() == orders.len() && rows[1].len() == orders.len()
            &&& rows[0].no_duplicates() && rows[1].no_duplicates()
            &&& task.algorithm is Greedy ==> profit(i) >= profit(j) && price(i) >= price(j)
            &&& task.algorithm is ReverseGreedy ==> profit(i) <= profit(j) && price(i) <= price(j)
            &&& profit(i) == profit(j) ==> rows[0][i] < rows[0][j]
            &&& price(i) == price(j) ==> rows[1][i] < rows[1][j]
        }),
{
    let orders = task.group.orders@;
    let reverse = task.algorithm is ReverseGreedy;
    let ranks = profit_ranks(orders, reverse);
    assert(is_stable_order(ranks, rows[0]));
    let a = rows[0][i];
    let b = rows[0][j];
    assert((a as int) < orders.len() && (b as int) < orders.len());
    let ranks = gas_price_ranks(orders, reverse);
    assert(is_stable_order(ranks, rows[1]));
    let a = rows[1][i];
    let b = rows[1][j];
    assert((a as int) < orders.len() && (b as int) < orders.len());
}

/// The algorithm by length tries one sequence of all orders: no order stands before one with more
/// transactions, nor before one with as many and a larger profit. Equal orders stand as in the
/// group.
pub proof fn law_length_goes_by_transactions(
    task: ConflictTask,
    rows: Seq<Seq<usize>>,
    i: int,
    j: int,
)
    requires
        are_candidates(task, rows),
        task.algorithm is Length,
        0 <= i < j < task.group.orders@.len(),
    ensures
        ({
            let orders = task.group.orders@;
            let a = orders[rows[0][i] as int];
            let b = orders[rows[0][j] as int];
            &&& rows.len() == 1
            &&& rows[0].len() == orders.len()
            &&& rows[0].no_duplicates()
            &&& a.tx_count >= b.tx_count
            &&& a.tx_count == b.tx_count ==> a.coinbase_profit.value() >= b.coinbase_profit.value()
            &&& a.tx_count == b.tx_count && a.coinbase_profit.value() == b.coinbase_profit.value()
                ==> rows[0][i] < rows[0][j]
        }),
{
    let orders = task.group.orders@;
    let ranks = length_ranks(orders);
    assert(is_stable_order(ranks, rows[0]));
    let x = rows[0][i] as int;
    let y = rows[0][j] as int;
    assert(x < orders.len() && y < orders.len());
    let a = orders[x];
    let b = orders[y];
    lemma_value_bound(a.coinbase_profit);
    lemma_value_bound(b.coinbase_profit);
    let m = two_to_256() as int;
    let v = a.coinbase_profit.value() as int;
    let w = b.coinbase_profit.value() as int;
    let s = a.tx_count as int;
    let t = b.tx_count as int;
    assert(ranks[x] == -(s * m + v));
    assert(ranks[y] == -(t * m + w));
    if s < t {
        assert(s * m + v < t * m + w) by (nonlinear_arith)
            requires
                s + 1 <= t,
                0 <= v < m,
                0 <= w,
        ;
    }
}

/// The algorithm that takes the best order tries it alone: no order has a larger profit, and none
/// before it has the same.
pub proof fn law_the_best_order_is_tried_alone(task: ConflictTask, rows: Seq<Seq<usize>>, k: int)
    requires
        are_candidates(task, rows),
        task.algorithm is BestOfN,
        0 <= k < task.group.orders@.len(),
    ensures
        rows.len() == 1,
        rows[0].len() == 1,
        (rows[0][0] as int) < task.group.orders@.len(),
        task.group.orders@[k].coinbase_profit.value()
            <= task.group.orders@[rows[0][0] as int].coinbase_profit.value(),
        k < rows[0][0] ==> task.group.orders@[k].coinbase_profit.value()
            < task.group.orders@[rows[0][0] as int].coinbase_profit.value(),
{
    assert(task.group.orders@[k].coinbase_profit.value()
        <= task.group.orders@[rows[0][0] as int].coinbase_profit.value());
}

/// The algorithm of all permutations tries exactly the arrangements of all orders, each once and in
/// lexicographic order.
pub proof fn law_every_permutation_is_tried(
    task: ConflictTask,
    rows: Seq<Seq<usize>>,
    row: Seq<usize>,
    i: int,
    j: int,
)
    requires
        are_candidates(task, rows),
        task.algorithm is AllPermutations,
        0 <= i < j < rows.len(),
    ensures
        rows.contains(row) <==> row.len() == task.group.orders@.len() && row.no_duplicates() && (
        forall|x: int|
            0 <= x < row.len() ==> (#[trigger] row[x] as int) < task.group.orders@.len()),
        exists|k: int|
            0 <= k < task.group.orders@.len() && rows[i].take(k) == #[trigger] rows[j].take(k)
                && rows[i][k] < rows[j][k],
{
    assert(rows.contains(rows[i]));
    assert(rows.contains(rows[j]));
    assert(rows.contains(row) <==> is_ordering(row, task.group.orders@.len() as int));
    assert(lex_less(rows[i], rows[j]));
    let k = choose|k: int| less_at(rows[i], rows[j], k);
    assert(rows[i].take(k) =~= rows[j].take(k));
}

/// Random sequences are as many as were asked for, and each holds every order once.
pub proof fn law_random_sequences_hold_every_order(
    task: ConflictTask,
    rows: Seq<Seq<usize>>,
    seed: u64,
    count: usize,
    i: int,
    order: usize,
)
    requires
        are_candidates(task, rows),
        task.algorithm == (Algorithm::Random { seed, count }),
        0 <= i < count,
        order < task.group.orders@.len(),
    ensures
        rows.len() == count,
        rows[i].len() == task.group.orders@.len(),
        rows[i].no_duplicates(),
        rows[i].contains(order),
{
    assert(is_ordering(rows[i], task.group.orders@.len() as int));
    lemma_ordering_is_onto(rows[i], task.group.orders@.len() as int, order);
}

/// The rows that a search lists are the arrangements of all orders that begin as was asked for and
/// in which every order stands before those that it has to precede.
pub proof fn law_a_search_finds_what_respects_the_table(
    rows: Seq<Seq<usize>>,
    successors: Seq<Seq<usize>>,
    n: int,
    prefix: Seq<usize>,
    row: Seq<usize>,
)
    requires
        lists_extensions(rows, successors, n, prefix),
    ensures
        rows.contains(row) <==> {
            &&& row.len() == n
            &&& row.no_duplicates()
            &&& forall|x: int| 0 <= x < row.len() ==> (#[trigger] row[x] as int) < n
            &&& prefix.len() <= row.len()
            &&& row.take(prefix.len() as int) == prefix
            &&& forall|x: int, y: int|
                0 <= x < row.len() && 0 <= y < row.len()
                    && successors[#[trigger] row[x] as int].contains(#[trigger] row[y]) ==> x < y
        },
{
    assert(rows.contains(row) <==> is_linear_extension(successors, n, row) && prefix.is_prefix_of(
        row,
    ));
    if prefix.len() <= row.len() {
        assert(row.take(prefix.len() as int) =~= row.subrange(0, prefix.len() as int));
    }
    if respects(successors, row) {
        assert forall|x: int, y: int|
            0 <= x < row.len() && 0 <= y < row.len()
                && successors[#[trigger] row[x] as int].contains(#[trigger] row[y]) implies x
            < y by {
            if y <= x {
                assert(!precedes(successors, row[x] as int, row[y]));
            }
        }
    }
    if forall|x: int, y: int|
        0 <= x < row.len() && 0 <= y < row.len() && successors[#[trigger] row[x] as int].contains(
            #[trigger] row[y],
        ) ==> x < y {
        assert forall|i: int, j: int| 0 <= i <= j < row.len() implies !precedes(
            successors,
            #[trigger] row[j] as int,
            #[trigger] row[i],
        ) by {
            if successors[row[j] as int].contains(row[i]) {
                assert(j < i);
            }
        }
    }
}

/// The task of a subproblem holds the orders at its positions, as they stand there, and what its
/// result says of an order is said of the order at that position: the two name the same order.
pub proof fn law_remapping_names_the_same_order(
    root: ConflictTask,
    indices: Seq<usize>,
    task: ConflictTask,
    sequence: Seq<(usize, U256)>,
    i: int,
)
    requires
        is_subtask(root, indices, task),
        0 <= i < sequence.len(),
        (sequence[i].0 as int) < indices.len(),
    ensures
        task.group.orders@.len() == indices.len(),
        remapped(sequence, indices).len() == sequence.len(),
        root.group.orders@[remapped(sequence, indices)[i] as int]
            == task.group.orders@[sequence[i].0 as int],
        task.group_idx == root.group_idx && task.group.id == root.group.id,
        task.priority == root.priority && task.created_at == root.created_at,
        task.algorithm is PermutationsWithNonces,
{
    assert(task.group.orders@ == orders_at(root.group.orders@, indices));
}

/// Of two results the one with the larger profit is kept, and the earlier one where they have the
/// same.
pub proof fn law_the_larger_profit_is_kept(left: ResolutionResult, right: ResolutionResult)
    ensures
        left.total_profit.value() < right.total_profit.value() ==> better(left, right) == right,
        left.total_profit.value() >= right.total_profit.value() ==> better(left, right) == left,
{
}

/// Trying sequences leaves a result that none of them exceeds. It is what trying one of them gave,
/// and no earlier one gave as much; where none gave any profit, it is empty.
pub proof fn law_the_best_result_is_kept(
    results: Seq<ResolutionResult>,
    best: ResolutionResult,
    i: int,
)
    requires
        is_kept(results, best),
        0 <= i < results.len(),
    ensures
        results[i].total_profit.value() <= best.total_profit.value(),
        best.total_profit.value() > 0 ==> exists|k: int|
            {
                &&& 0 <= k < results.len()
                &&& best == #[trigger] results[k]
                &&& i < k ==> results[i].total_profit.value() < best.total_profit.value()
            },
        best.total_profit.value() == 0 ==> best.sequence_of_orders@.len() == 0,
{
    if forall|j: int| 0 <= j < results.len() ==> (#[trigger] results[j]).total_profit.value() == 0 {
        assert(results[i].total_profit.value() == 0);
    } else {
        let k = choose|k: int| #[trigger] is_first_best(results, k) && best == results[k];
        assert(results[i].total_profit.value() <= results[k].total_profit.value());
        let j = choose|j: int|
            0 <= j < results.len() && (#[trigger] results[j]).total_profit.value() != 0;
        assert(results[j].total_profit.value() <= results[k].total_profit.value());
        assert(best == results[k]);
    }
}

/// A task that is resolved by trying gives what no candidate of its algorithm exceeds, and counts
/// the candidates.
pub proof fn law_no_candidate_beats_the_outcome<
    E,
    P: Fn(&ConflictTask, Vec<usize>) -> Result<ResolutionResult, E>,
>(process: P, task: ConflictTask, resolution: ResolutionResult, count: usize)
    requires
        resolves_by_trying(process, task, resolution, count),
    ensures
        exists|sequences: Seq<Vec<usize>>, results: Seq<ResolutionResult>|
            {
                &&& #[trigger] are_candidates(task, nested(sequences))
                &&& sequences.len() == count
                &&& #[trigger] are_results(process, task, sequences, results)
                &&& forall|i: int|
                    0 <= i < results.len() ==> (#[trigger] results[i]).total_profit.value()
                        <= resolution.total_profit.value()
                &&& resolution.total_profit.value() > 0 ==> results.contains(resolution)
            },
{
    let sequences = choose|sequences: Seq<Vec<usize>>|
        {
            &&& are_candidates(task, nested(sequences))
            &&& #[trigger] evaluates_to(process, task, sequences, resolution)
            &&& count == sequences.len()
        };
    let results = choose|results: Seq<ResolutionResult>| #[trigger]
        are_results(process, task, sequences, results) && is_kept(results, resolution);
    assert forall|i: int| 0 <= i < results.len() implies (
    #[trigger] results[i]).total_profit.value() <= resolution.total_profit.value() by {
        law_the_best_result_is_kept(results, resolution, i);
    }
    if resolution.total_profit.value() > 0 {
        if results.len() > 0 {
            law_the_best_result_is_kept(results, resolution, 0);
        }
    }
    assert(are_candidates(task, nested(sequences)));
}

/// Where nothing is tried, or nothing has any profit, the result is empty.
pub proof fn law_without_profit_nothing_is_kept(
    results: Seq<ResolutionResult>,
    best: ResolutionResult,
)
    requires
        is_kept(results, best),
        forall|i: int| 0 <= i < results.len() ==> (#[trigger] results[i]).total_profit.value() == 0,
    ensures
        best.total_profit.value() == 0,
        best.sequence_of_orders@.len() == 0,
{
}

/// The solution of a part is the best sequence of its orders: trying no permutation of them that
/// keeps the nonce order gives more. It names the orders by their places in the group, and comes
/// with the number of permutations that were tried.
pub proof fn law_no_permutation_of_a_part_beats_its_solution<
    E,
    P: Fn(&ConflictTask, Vec<usize>) -> Result<ResolutionResult, E>,
>(process: P, root: ConflictTask, indices: Seq<usize>, out: (Vec<usize>, usize))
    requires
        solves_subproblem(process, root, indices, out),
    ensures
        exists|
            task: ConflictTask,
            sequences: Seq<Vec<usize>>,
            results: Seq<ResolutionResult>,
            best: ResolutionResult,
        |
            {
                &&& #[trigger] is_subtask(root, indices, task)
                &&& lists_nonce_orderings(nested(sequences), task.group.orders@)
                &&& #[trigger] are_results(process, task, sequences, results)
                &&& #[trigger] is_kept(results, best)
                &&& forall|i: int|
                    0 <= i < results.len() ==> (#[trigger] results[i]).total_profit.value()
                        <= best.total_profit.value()
                &&& out.0@.len() == best.sequence_of_orders@.len()
                &&& forall|i: int|
                    0 <= i < out.0@.len() ==> #[trigger] out.0@[i]
                        == indices[best.sequence_of_orders@[i].0 as int]
                &&& out.1 == sequences.len()
            },
{
    let (task, sequences, best) = choose|
        task: ConflictTask,
        sequences: Seq<Vec<usize>>,
        best: ResolutionResult,
    |
        {
            &&& is_subtask(root, indices, task)
            &&& lists_nonce_orderings(nested(sequences), task.group.orders@)
            &&& #[trigger] evaluates_to(process, task, sequences, best)
            &&& out.0@ == remapped(best.sequence_of_orders@, indices)
            &&& out.1 == sequences.len()
        };
    let results = choose|results: Seq<ResolutionResult>| #[trigger]
        are_results(process, task, sequences, results) && is_kept(results, best);
    assert forall|i: int| 0 <= i < results.len() implies (
    #[trigger] results[i]).total_profit.value() <= best.total_profit.value() by {
        law_the_best_result_is_kept(results, best, i);
    }
    assert(is_subtask(root, indices, task));
    assert(are_results(process, task, sequences, results));
    assert(is_kept(results, best));
}

/// The recursive algorithm gives what came of trying one sequence: the solutions of all parts of
/// its plan, one after another. It counts that one and all that were tried for the parts.
pub proof fn law_the_solutions_of_the_parts_are_tried_together<
    E,
    P: Fn(&ConflictTask, Vec<usize>) -> Result<ResolutionResult, E>,
>(process: P, task: ConflictTask, resolution: ResolutionResult, count: usize)
    requires
        resolves_recursively(process, task, resolution, count),
    ensures
        exists|
            plan: Seq<Seq<usize>>,
            outs: Seq<(Vec<usize>, usize)>,
            sequence: Vec<usize>,
        |
            {
                &&& outs.len() == plan.len()
                &&& forall|i: int|
                    0 <= i < plan.len() ==> solves_subproblem(
                        process,
                        task,
                        #[trigger] plan[i],
                        outs[i],
                    )
                &&& sequence@ == joined_sequences(outs)
                &&& #[trigger] call_ensures(process, (&task, sequence), Ok(resolution))
                &&& count == #[trigger] total_count(outs) + 1
                &&& #[trigger] solves_subproblems(process, task, plan, outs)
            },
{
    let (adjacency, indices, rng, plan, left, outs, sequence) = choose|
        adjacency: Seq<Seq<usize>>,
        indices: Seq<usize>,
        rng: SmallRng,
        plan: Seq<Seq<usize>>,
        left: SmallRng,
        outs: Seq<(Vec<usize>, usize)>,
        sequence: Vec<usize>,
    |
        {
            &&& is_interaction_graph(adjacency, task.group.orders@)
            &&& is_identity(indices, task.group.orders@.len() as int)
            &&& is_generator_of(RECURSIVE_DEFAULT_SAMPLE_SEED, rng)
            &&& #[trigger] is_drawn_plan(adjacency, indices, rng, plan, left)
            &&& #[trigger] solves_subproblems(process, task, plan, outs)
            &&& sequence@ == joined_sequences(outs)
            &&& #[trigger] call_ensures(process, (&task, sequence), Ok(resolution))
            &&& count == total_count(outs) + 1
        };
    assert(solves_subproblems(process, task, plan, outs));
    assert(call_ensures(process, (&task, sequence), Ok(resolution)));
    assert(count == total_count(outs) + 1);
}

/// The contents of rows are those of each row, in the order of the rows.
pub proof fn law_rows_are_read_one_by_one(rows: Seq<Vec<usize>>, i: int)
    ensures
        nested(rows).len() == rows.len(),
        0 <= i < rows.len() ==> nested(rows)[i] == rows[i]@,
{
}

/// A task that is resolved by trying fails only with what trying one of its candidates gave.
pub proof fn law_a_task_fails_by_one_of_its_candidates<
    E,
    P: Fn(&ConflictTask, Vec<usize>) -> Result<ResolutionResult, E>,
>(process: P, task: ConflictTask, error: E)
    requires
        candidate_fails(process, task, error),
    ensures
        exists|sequences: Seq<Vec<usize>>, i: int|
            {
                &&& #[trigger] are_candidates(task, nested(sequences))
                &&& 0 <= i < sequences.len()
                &&& call_ensures(process, (&task, #[trigger] sequences[i]), Err(error))
            },
{
    let sequences = choose|sequences: Seq<Vec<usize>>|
        are_candidates(task, nested(sequences)) && #[trigger] some_sequence_fails(
            process,
            task,
            sequences,
            error,
        );
    let i = choose|i: int|
        0 <= i < sequences.len() && call_ensures(
            process,
            (&task, #[trigger] sequences[i]),
            Err(error),
        );
    assert(are_candidates(task, nested(sequences)));
    assert(call_ensures(process, (&task, sequences[i]), Err(error)));
}

} // verus!
