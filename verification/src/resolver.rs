//! Resolving a conflict task: every candidate sequence is tried and the most profitable result is
//! kept.
use rand::rngs::SmallRng;
use rayon::iter::{IntoParallelIterator, ParallelIterator};
use vstd::prelude::*;

use crate::counting::{lemma_ordering_count, lemma_small_factorial};
use crate::default_tasks::{
    is_about, is_first_about, update_default_graph_study_record, updated_record,
    DefaultGraphStudyRecord,
};
use crate::graph::{build_interaction_graph, is_interaction_graph};
use crate::orderings::{all_below, is_ordering, lemma_lex_sorted_distinct, nested};
use crate::permutations::lists_nonce_orderings;
use crate::random::{is_generator_of, new_generator};
use crate::recursive::{
    accepts_small, can_count, fails, fails_at_last, is_drawn_beginning, is_drawn_plan, is_plan,
    is_solution, joined_sequences, lemma_drawn_plan_is_plan, lemma_plan_len,
    lemma_total_count_bound, solve_recursive_default_indices_with_solver, solves, solves_all,
    total_count, tries_at_most, MIN_LENGTH_FOR_RECURSIVE_DEFAULT, RECURSIVE_DEFAULT_SAMPLE_SEED,
};
use crate::recursive_laws::{
    law_joined_solutions_repeat_no_order, law_plan_parts_repeat_no_order,
};
use crate::sequences::{
    all_indices, are_candidates, create_recursive_subtask, generate_all_permutations_with_nonces,
    generate_sequences_of_orders_to_try, has_candidate_list, is_identity, is_subtask,
    law_candidates_repeat_no_order, law_remapping_repeats_no_order, orders_below,
    remap_resolution_result_indices, remapped,
};
use crate::types::{Algorithm, ConflictTask, ResolutionResult, U256};

verus! {

/// The better of two results; the left one where neither has the larger profit.
pub open spec fn better(left: ResolutionResult, right: ResolutionResult) -> ResolutionResult {
    if left.total_profit.value() >= right.total_profit.value() {
        left
    } else {
        right
    }
}

/// Computes [`better`], and never fails.
fn keep_better<E>(left: ResolutionResult, right: ResolutionResult) -> (r: Result<
    ResolutionResult,
    E,
>)
    ensures
        r == Ok::<ResolutionResult, E>(better(left, right)),
{
    if left.total_profit.is_less_than(right.total_profit) {
        Ok(right)
    } else {
        Ok(left)
    }
}

/// `best` comes out where neighbouring results are replaced by the better one until one is left,
/// in whatever order that is done.
pub open spec fn reduces_to(results: Seq<ResolutionResult>, best: ResolutionResult) -> bool
    decreases results.len(),
{
    if results.len() <= 1 {
        results.len() == 1 && best == results[0]
    } else {
        exists|k: int, left: ResolutionResult, right: ResolutionResult|
            0 < k < results.len() && reduces_to(#[trigger] results.take(k), left) && reduces_to(
                results.skip(k),
                right,
            ) && best == #[trigger] better(left, right)
    }
}

/// Trying the sequences gave the results.
pub open spec fn are_results<E, P: Fn(&ConflictTask, Vec<usize>) -> Result<ResolutionResult, E>>(
    process: P,
    task: ConflictTask,
    sequences: Seq<Vec<usize>>,
    results: Seq<ResolutionResult>,
) -> bool {
    &&& results.len() == sequences.len()
    &&& forall|i: int|
        0 <= i < sequences.len() ==> call_ensures(
            process,
            (&task, #[trigger] sequences[i]),
            Ok(results[i]),
        )
}

/// Trying one of the sequences failed.
pub open spec fn some_sequence_fails<
    E,
    P: Fn(&ConflictTask, Vec<usize>) -> Result<ResolutionResult, E>,
>(process: P, task: ConflictTask, sequences: Seq<Vec<usize>>, error: E) -> bool {
    exists|i: int|
        0 <= i < sequences.len() && call_ensures(
            process,
            (&task, #[trigger] sequences[i]),
            Err(error),
        )
}

/// Tries a sequence.
fn process_one<E, P: Fn(&ConflictTask, Vec<usize>) -> Result<ResolutionResult, E>>(
    process: &P,
    task: &ConflictTask,
    sequence: Vec<usize>,
) -> (r: Result<ResolutionResult, E>)
    requires
        call_requires(*process, (task, sequence)),
    ensures
        call_ensures(*process, (task, sequence), r),
{
    process(task, sequence)
}

/// `ParallelIterator::try_reduce_with` of `rayon`, on the mapped sequences: there is no result for
/// no sequence; where every sequence gives one, neighbouring ones are combined until one is left,
/// in an order that is left open; and otherwise the error of some sequence is returned.
#[verifier::external_body]
fn reduce_in_parallel<
    E: Send,
    P: Fn(&ConflictTask, Vec<usize>) -> Result<ResolutionResult, E> + Sync,
>(process: &P, task: &ConflictTask, sequences: Vec<Vec<usize>>) -> (r: Option<
    Result<ResolutionResult, E>,
>)
    requires
        forall|i: int|
            0 <= i < sequences@.len() ==> call_requires(
                *process,
                (task, #[trigger] sequences@[i]),
            ),
    ensures
        match r {
            None => sequences@.len() == 0,
            Some(Ok(best)) => exists|results: Seq<ResolutionResult>| #[trigger]
                are_results(*process, *task, sequences@, results) && reduces_to(results, best),
            Some(Err(error)) => some_sequence_fails(*process, *task, sequences@, error),
        },
{
    sequences
        .into_par_iter()
        .map(|sequence| process_one(process, task, sequence))
        .try_reduce_with(keep_better)
}

/// `results[k]` is the first of the results with the largest profit.
pub open spec fn is_first_best(results: Seq<ResolutionResult>, k: int) -> bool {
    &&& 0 <= k < results.len()
    &&& forall|i: int|
        0 <= i < results.len() ==> (#[trigger] results[i]).total_profit.value()
            <= results[k].total_profit.value()
    &&& forall|i: int|
        0 <= i < k ==> (#[trigger] results[i]).total_profit.value()
            < results[k].total_profit.value()
}

/// In whatever order results are combined, the first of the best ones is left.
pub proof fn law_reduction_keeps_the_first_best(
    results: Seq<ResolutionResult>,
    best: ResolutionResult,
)
    requires
        reduces_to(results, best),
    ensures
        exists|k: int| #[trigger] is_first_best(results, k) && best == results[k],
    decreases results.len(),
{
    if results.len() <= 1 {
        assert(is_first_best(results, 0));
    } else {
        let (k, left, right) = choose|k: int, left: ResolutionResult, right: ResolutionResult|
            0 < k < results.len() && reduces_to(#[trigger] results.take(k), left) && reduces_to(
                results.skip(k),
                right,
            ) && best == #[trigger] better(left, right);
        law_reduction_keeps_the_first_best(results.take(k), left);
        law_reduction_keeps_the_first_best(results.skip(k), right);
        let a = choose|a: int| #[trigger]
            is_first_best(results.take(k), a) && left == results.take(k)[a];
        let b = choose|b: int| #[trigger]
            is_first_best(results.skip(k), b) && right == results.skip(k)[b];
        let at = if left.total_profit.value() >= right.total_profit.value() {
            a
        } else {
            k + b
        };
        assert forall|i: int| 0 <= i < results.len() implies (
        #[trigger] results[i]).total_profit.value() <= results[at].total_profit.value() by {
            if i < k {
                assert(results.take(k)[i] == results[i]);
            } else {
                assert(results.skip(k)[i - k] == results[i]);
            }
        }
        assert forall|i: int| 0 <= i < at implies (#[trigger] results[i]).total_profit.value()
            < results[at].total_profit.value() by {
            if i < k {
                assert(results.take(k)[i] == results[i]);
            } else {
                assert(results.skip(k)[i - k] == results[i]);
            }
        }
        assert(is_first_best(results, at));
    }
}

/// The result that is kept: the first of the most profitable ones, or the empty result where none
/// has any profit.
pub open spec fn is_kept(results: Seq<ResolutionResult>, best: ResolutionResult) -> bool {
    if forall|i: int|
        0 <= i < results.len() ==> (#[trigger] results[i]).total_profit.value() == 0 {
        best.total_profit.value() == 0 && best.sequence_of_orders@.len() == 0
    } else {
        exists|k: int| #[trigger] is_first_best(results, k) && best == results[k]
    }
}

/// Replaces the best result by a new one that has a larger profit.
pub fn update_best_result(new_result: ResolutionResult, best_result: &mut ResolutionResult)
    ensures
        *final(best_result) == better(*old(best_result), new_result),
{
    if best_result.total_profit.is_less_than(new_result.total_profit) {
        best_result.total_profit = new_result.total_profit;
        best_result.sequence_of_orders = new_result.sequence_of_orders;
    }
}

/// Trying every one of the sequences leaves the given result.
pub open spec fn evaluates_to<E, P: Fn(&ConflictTask, Vec<usize>) -> Result<ResolutionResult, E>>(
    process: P,
    task: ConflictTask,
    sequences: Seq<Vec<usize>>,
    best: ResolutionResult,
) -> bool {
    exists|results: Seq<ResolutionResult>| #[trigger]
        are_results(process, task, sequences, results) && is_kept(results, best)
}

/// Resolves conflict tasks by trying sequences of a task's orders with `process`.
pub struct ResolverContext<P> {
    /// Tries a sequence of a task's orders, and gives what came of it.
    pub process: P,
}

/// The outcome of a conflict task.
#[derive(Debug)]
pub struct TaskOutcome {
    pub resolution: ResolutionResult,
    /// The number of sequences that were tried.
    pub candidate_sequence_count: usize,
}

impl<P> ResolverContext<P> {
    /// A context that tries sequences with `process`.
    pub fn new(process: P) -> (r: ResolverContext<P>)
        ensures
            r.process == process,
    {
        ResolverContext { process }
    }
}

/// Every sequence of a task's orders can be tried, and what comes of it holds orders of the task.
pub open spec fn can_process<E, P: Fn(&ConflictTask, Vec<usize>) -> Result<ResolutionResult, E>>(
    process: P,
) -> bool {
    &&& forall|task: &ConflictTask, sequence: Vec<usize>|
        all_below(sequence@, task.group.orders@.len() as int) ==> #[trigger] call_requires(
            process,
            (task, sequence),
        )
    &&& forall|task: &ConflictTask, sequence: Vec<usize>, result: ResolutionResult| #[trigger]
        call_ensures(process, (task, sequence), Ok(result)) ==> orders_below(
            result.sequence_of_orders@,
            task.group.orders@.len() as int,
        )
}

/// `out` is the best sequence of the root task's orders at the given positions, with the number of
/// sequences that were tried: all that keep the nonce order.
pub open spec fn solves_subproblem<
    E,
    P: Fn(&ConflictTask, Vec<usize>) -> Result<ResolutionResult, E>,
>(process: P, root_task: ConflictTask, indices: Seq<usize>, out: (Vec<usize>, usize)) -> bool {
    exists|task: ConflictTask, sequences: Seq<Vec<usize>>, best: ResolutionResult|
        {
            &&& is_subtask(root_task, indices, task)
            &&& lists_nonce_orderings(nested(sequences), task.group.orders@)
            &&& #[trigger] evaluates_to(process, task, sequences, best)
            &&& out.0@ == remapped(best.sequence_of_orders@, indices)
            &&& out.1 == sequences.len()
        }
}

/// Trying a sequence of the root task's orders at the given positions failed.
pub open spec fn subproblem_fails<
    E,
    P: Fn(&ConflictTask, Vec<usize>) -> Result<ResolutionResult, E>,
>(process: P, root_task: ConflictTask, indices: Seq<usize>, error: E) -> bool {
    exists|task: ConflictTask, sequences: Seq<Vec<usize>>|
        {
            &&& is_subtask(root_task, indices, task)
            &&& lists_nonce_orderings(nested(sequences), task.group.orders@)
            &&& #[trigger] some_sequence_fails(process, task, sequences, error)
        }
}

/// `outs` are the solutions of the subproblems of the plan.
pub open spec fn solves_subproblems<
    E,
    P: Fn(&ConflictTask, Vec<usize>) -> Result<ResolutionResult, E>,
>(
    process: P,
    root_task: ConflictTask,
    plan: Seq<Seq<usize>>,
    outs: Seq<(Vec<usize>, usize)>,
) -> bool {
    &&& outs.len() == plan.len()
    &&& forall|i: int|
        0 <= i < plan.len() ==> solves_subproblem(
            process,
            root_task,
            #[trigger] plan[i],
            outs[i],
        )
}

/// The outcome of the recursive algorithm: the subproblems of a plan, whose samples are drawn with
/// the generator of the fixed seed, are solved, and their sequences, one after another, are tried
/// as one.
pub open spec fn resolves_recursively<
    E,
    P: Fn(&ConflictTask, Vec<usize>) -> Result<ResolutionResult, E>,
>(process: P, task: ConflictTask, resolution: ResolutionResult, count: usize) -> bool {
    exists|
        adjacency: Seq<Seq<usize>>,
        indices: Seq<usize>,
        rng: SmallRng,
        plan: Seq<Seq<usize>>,
        left: SmallRng,
        outs: Seq<(Vec<usize>, usize)>,
        sequence: Vec<usize>,
    |
        {
            &&& is_interaction_graph(adjacency, task.group.orders@)
            &&& is_identity(indices, task.group.orders@.len() as int)
            &&& is_generator_of(RECURSIVE_DEFAULT_SAMPLE_SEED, rng)
            &&& #[trigger] is_drawn_plan(adjacency, indices, rng, plan, left)
            &&& #[trigger] solves_subproblems(process, task, plan, outs)
            &&& sequence@ == joined_sequences(outs)
            &&& #[trigger] call_ensures(process, (&task, sequence), Ok(resolution))
            &&& count == total_count(outs) + 1
        }
}

/// A subproblem on which the recursive algorithm fails: those before it in a plan were solved.
pub open spec fn plan_fails<
    E,
    P: Fn(&ConflictTask, Vec<usize>) -> Result<ResolutionResult, E>,
>(process: P, task: ConflictTask, error: E) -> bool {
    exists|
        adjacency: Seq<Seq<usize>>,
        indices: Seq<usize>,
        rng: SmallRng,
        tried: Seq<Seq<usize>>,
        outs: Seq<(Vec<usize>, usize)>,
    |
        {
            &&& is_interaction_graph(adjacency, task.group.orders@)
            &&& is_identity(indices, task.group.orders@.len() as int)
            &&& is_generator_of(RECURSIVE_DEFAULT_SAMPLE_SEED, rng)
            &&& #[trigger] is_drawn_beginning(adjacency, indices, rng, tried)
            &&& tried.len() > 0
            &&& #[trigger] solves_subproblems(process, task, tried.drop_last(), outs)
            &&& subproblem_fails(process, task, tried.last(), error)
        }
}

/// The subproblems of a plan were solved, and trying their sequences as one failed.
pub open spec fn joined_sequence_fails<
    E,
    P: Fn(&ConflictTask, Vec<usize>) -> Result<ResolutionResult, E>,
>(process: P, task: ConflictTask, error: E) -> bool {
    exists|
        adjacency: Seq<Seq<usize>>,
        indices: Seq<usize>,
        rng: SmallRng,
        plan: Seq<Seq<usize>>,
        left: SmallRng,
        outs: Seq<(Vec<usize>, usize)>,
        sequence: Vec<usize>,
    |
        {
            &&& is_interaction_graph(adjacency, task.group.orders@)
            &&& is_identity(indices, task.group.orders@.len() as int)
            &&& is_generator_of(RECURSIVE_DEFAULT_SAMPLE_SEED, rng)
            &&& #[trigger] is_drawn_plan(adjacency, indices, rng, plan, left)
            &&& #[trigger] solves_subproblems(process, task, plan, outs)
            &&& sequence@ == joined_sequences(outs)
            &&& #[trigger] call_ensures(process, (&task, sequence), Err(error))
        }
}

/// A failure of the recursive algorithm: on a subproblem of a plan, or on the sequence that the
/// solutions of all its subproblems make up.
pub open spec fn fails_recursively<
    E,
    P: Fn(&ConflictTask, Vec<usize>) -> Result<ResolutionResult, E>,
>(process: P, task: ConflictTask, error: E) -> bool {
    plan_fails(process, task, error) || joined_sequence_fails(process, task, error)
}

/// The outcome of the other algorithms: their candidate sequences are tried.
pub open spec fn resolves_by_trying<
    E,
    P: Fn(&ConflictTask, Vec<usize>) -> Result<ResolutionResult, E>,
>(process: P, task: ConflictTask, resolution: ResolutionResult, count: usize) -> bool {
    exists|sequences: Seq<Vec<usize>>|
        {
            &&& are_candidates(task, nested(sequences))
            &&& #[trigger] evaluates_to(process, task, sequences, resolution)
            &&& count == sequences.len()
        }
}

/// A failure of the other algorithms: on one of the candidate sequences.
pub open spec fn candidate_fails<
    E,
    P: Fn(&ConflictTask, Vec<usize>) -> Result<ResolutionResult, E>,
>(process: P, task: ConflictTask, error: E) -> bool {
    exists|sequences: Seq<Vec<usize>>|
        are_candidates(task, nested(sequences)) && #[trigger] some_sequence_fails(
            process,
            task,
            sequences,
            error,
        )
}

/// The candidates of a task of the recursive algorithm can be counted: there are at most `7!` for
/// each order, and one more.
pub open spec fn can_count_candidates(task: ConflictTask) -> bool {
    task.group.orders@.len() * 5040 < usize::MAX
}

proof fn lemma_candidate_count(rows: Seq<Seq<usize>>, task: ConflictTask)
    requires
        lists_nonce_orderings(rows, task.group.orders@),
        task.group.orders@.len() < MIN_LENGTH_FOR_RECURSIVE_DEFAULT,
    ensures
        rows.len() <= 5040,
{
    let n = task.group.orders@.len();
    assert(rows.no_duplicates()) by {
        lemma_lex_sorted_distinct(rows);
    }
    assert forall|i: int| 0 <= i < rows.len() implies is_ordering(
        #[trigger] rows[i],
        n as int,
    ) by {
        assert(rows.contains(rows[i]));
    }
    lemma_ordering_count(rows, n);
    lemma_small_factorial(n);
}

/// The sequences that solve parts of a task hold orders of the task.
proof fn lemma_joined_below(outs: Seq<(Vec<usize>, usize)>, n: int)
    requires
        forall|i: int| 0 <= i < outs.len() ==> all_below((#[trigger] outs[i]).0@, n),
    ensures
        all_below(joined_sequences(outs), n),
    decreases outs.len(),
{
    if outs.len() > 0 {
        let init = outs.drop_last();
        assert forall|i: int| 0 <= i < init.len() implies all_below(
            (#[trigger] init[i]).0@,
            n,
        ) by {
            assert(init[i] == outs[i]);
        }
        lemma_joined_below(init, n);
        assert(all_below(outs[outs.len() - 1].0@, n));
    }
}

impl<
    E: Send,
    P: Fn(&ConflictTask, Vec<usize>) -> Result<ResolutionResult, E> + Sync,
> ResolverContext<P> {
    /// Tries the sequences and keeps the first of the most profitable results, or the empty result
    /// where none has any profit.
    pub fn evaluate_sequences_for_task(
        &self,
        task: &ConflictTask,
        sequence_to_try: Vec<Vec<usize>>,
    ) -> (r: Result<ResolutionResult, E>)
        requires
            forall|i: int|
                0 <= i < sequence_to_try@.len() ==> call_requires(
                    self.process,
                    (task, #[trigger] sequence_to_try@[i]),
                ),
        ensures
            match r {
                Ok(best) => evaluates_to(self.process, *task, sequence_to_try@, best),
                Err(error) => some_sequence_fails(self.process, *task, sequence_to_try@, error),
            },
    {
        let ghost sequences = sequence_to_try@;
        let mut best_result = ResolutionResult {
            total_profit: U256::zero(),
            sequence_of_orders: Vec::new(),
        };
        let ghost empty = best_result;
        if sequence_to_try.len() <= 1 {
            let mut rest = sequence_to_try;
            match rest.pop() {
                None => {
                    proof {
                        let results = Seq::<ResolutionResult>::empty();
                        assert(are_results(self.process, *task, sequences, results));
                        assert(is_kept(results, best_result));
                    }
                },
                Some(sequence) => {
                    assert(sequences[0] == sequence);
                    match process_one(&self.process, task, sequence) {
                        Ok(result) => {
                            let ghost results = seq![result];
                            update_best_result(result, &mut best_result);
                            proof {
                                assert(are_results(self.process, *task, sequences, results));
                                assert(is_first_best(results, 0));
                                lemma_kept(results, 0, empty, best_result);
                            }
                        },
                        Err(error) => {
                            return Err(error);
                        },
                    }
                },
            }
        } else {
            match reduce_in_parallel(&self.process, task, sequence_to_try) {
                None => {},
                Some(Ok(best)) => {
                    let ghost results = choose|results: Seq<ResolutionResult>| #[trigger]
                        are_results(self.process, *task, sequences, results) && reduces_to(
                            results,
                            best,
                        );
                    let ghost k = choose|k: int| #[trigger]
                        is_first_best(results, k) && best == results[k];
                    proof {
                        law_reduction_keeps_the_first_best(results, best);
                    }
                    update_best_result(best, &mut best_result);
                    proof {
                        lemma_kept(results, k, empty, best_result);
                    }
                },
                Some(Err(error)) => {
                    return Err(error);
                },
            }
        }
        Ok(best_result)
    }

    /// Solves some of the root task's orders: tries every sequence of them that keeps their nonce
    /// order. Gives the orders of the best result, and the number of sequences tried.
    pub fn solve_small_recursive_default_subproblem(
        &self,
        root_task: &ConflictTask,
        indices: &[usize],
    ) -> (r: Result<(Vec<usize>, usize), E>)
        requires
            can_process(self.process),
            all_below(indices@, root_task.group.orders@.len() as int),
        ensures
            match r {
                Ok(out) => if indices@.len() == 0 {
                    out.0@.len() == 0 && out.1 == 0
                } else {
                    solves_subproblem(self.process, *root_task, indices@, out)
                },
                Err(error) => indices@.len() > 0 && subproblem_fails(
                    self.process,
                    *root_task,
                    indices@,
                    error,
                ),
            },
    {
        if indices.len() == 0 {
            return Ok((Vec::new(), 0));
        }
        let subtask = create_recursive_subtask(root_task, indices);
        let candidate_sequences = generate_all_permutations_with_nonces(&subtask);
        let ghost sequences = candidate_sequences@;
        let candidate_sequence_count: usize = candidate_sequences.len();
        proof {
            assert forall|i: int| 0 <= i < sequences.len() implies call_requires(
                self.process,
                (&subtask, #[trigger] sequences[i]),
            ) by {
                assert(nested(sequences)[i] == sequences[i]@);
                assert(nested(sequences).contains(nested(sequences)[i]));
            }
        }
        match self.evaluate_sequences_for_task(&subtask, candidate_sequences) {
            Ok(best) => {
                proof {
                    lemma_best_below(self.process, subtask, sequences, best);
                }
                let sequence = remap_resolution_result_indices(&best, indices);
                Ok((sequence, candidate_sequence_count))
            },
            Err(error) => Err(error),
        }
    }

    /// Resolves a task with the recursive algorithm.
    pub fn resolve_recursive_default_task(&self, task: &ConflictTask) -> (r: Result<
        TaskOutcome,
        E,
    >)
        requires
            can_process(self.process),
            can_count_candidates(*task),
        ensures
            match r {
                Ok(outcome) => resolves_recursively(
                    self.process,
                    *task,
                    outcome.resolution,
                    outcome.candidate_sequence_count,
                ),
                Err(error) => fails_recursively(self.process, *task, error),
            },
    {
        let orders = &task.group.orders;
        let ghost n = orders@.len() as int;
        let graph = build_interaction_graph(orders);
        let mut rng = new_generator(RECURSIVE_DEFAULT_SAMPLE_SEED);
        let ghost first = rng;
        let indices = all_indices(orders.len());
        let solve_small = |subproblem_indices: &[usize]| -> (r: Result<(Vec<usize>, usize), E>)
            requires
                0 < subproblem_indices@.len() < MIN_LENGTH_FOR_RECURSIVE_DEFAULT,
                all_below(subproblem_indices@, task.group.orders@.len() as int),
            ensures
                match r {
                    Ok(out) => out.1 <= 5040 && solves_subproblem(
                        self.process,
                        *task,
                        subproblem_indices@,
                        out,
                    ) && all_below(out.0@, task.group.orders@.len() as int),
                    Err(error) => subproblem_fails(
                        self.process,
                        *task,
                        subproblem_indices@,
                        error,
                    ),
                },
            { self.solve_counted(task, subproblem_indices) };
        proof {
            assert(accepts_small(solve_small, n));
            assert(tries_at_most(solve_small, 5040));
            assert(can_count(solve_small, indices@.len()));
        }
        match solve_recursive_default_indices_with_solver(
            &graph,
            &indices,
            &mut rng,
            &solve_small,
        ) {
            Ok(solved) => {
                let (sequence, count) = solved;
                let ghost plan = choose|plan: Seq<Seq<usize>>| #[trigger]
                    is_drawn_plan(graph.adjacency(), indices@, first, plan, rng) && is_solution(
                        solve_small,
                        plan,
                        sequence@,
                        count,
                    );
                let ghost outs = choose|outs: Seq<(Vec<usize>, usize)>| #[trigger]
                    solves_all(solve_small, plan, outs) && sequence@ == joined_sequences(outs)
                        && count == total_count(outs);
                proof {
                    assert(is_solution(solve_small, plan, sequence@, count));
                    assert(solves_all(solve_small, plan, outs));
                    assert forall|i: int| 0 <= i < plan.len() implies solves_subproblem(
                        self.process,
                        *task,
                        #[trigger] plan[i],
                        outs[i],
                    ) by {
                        assert(solves(solve_small, plan[i], outs[i]));
                    }
                    assert(solves_subproblems(self.process, *task, plan, outs));
                    assert forall|i: int| 0 <= i < outs.len() implies all_below(
                        (#[trigger] outs[i]).0@,
                        n,
                    ) by {
                        assert(solves(solve_small, plan[i], outs[i]));
                    }
                    lemma_joined_below(outs, n);
                    lemma_drawn_plan_is_plan(graph.adjacency(), indices@, first, plan, rng);
                    lemma_plan_len(graph.adjacency(), indices@, plan);
                    lemma_total_count_bound(solve_small, plan, outs, 5040);
                }
                let ghost tried = sequence;
                match process_one(&self.process, task, sequence) {
                    Ok(resolution) => {
                        proof {
                            assert(call_ensures(self.process, (task, tried), Ok(resolution)));
                            assert(is_interaction_graph(graph.adjacency(), orders@));
                        }
                        Ok(TaskOutcome { resolution, candidate_sequence_count: count + 1 })
                    },
                    Err(error) => {
                        proof {
                            assert(call_ensures(self.process, (task, tried), Err(error)));
                            assert(is_interaction_graph(graph.adjacency(), orders@));
                            assert(joined_sequence_fails(self.process, *task, error));
                        }
                        Err(error)
                    },
                }
            },
            Err(error) => {
                proof {
                    let begun = choose|begun: Seq<Seq<usize>>| #[trigger]
                        is_drawn_beginning(graph.adjacency(), indices@, first, begun)
                            && fails_at_last(solve_small, begun, error);
                    let outs = choose|outs: Seq<(Vec<usize>, usize)>| #[trigger]
                        solves_all(solve_small, begun.drop_last(), outs);
                    let solved = begun.drop_last();
                    assert(fails(solve_small, begun.last(), error));
                    assert(subproblem_fails(self.process, *task, begun.last(), error));
                    assert forall|i: int| 0 <= i < solved.len() implies solves_subproblem(
                        self.process,
                        *task,
                        #[trigger] solved[i],
                        outs[i],
                    ) by {
                        assert(solves(solve_small, solved[i], outs[i]));
                    }
                    assert(solves_subproblems(self.process, *task, solved, outs));
                    assert(is_interaction_graph(graph.adjacency(), orders@));
                    assert(plan_fails(self.process, *task, error));
                }
                Err(error)
            },
        }
    }

    /// Solves a subproblem of few orders.
    fn solve_counted(&self, task: &ConflictTask, indices: &[usize]) -> (r: Result<
        (Vec<usize>, usize),
        E,
    >)
        requires
            can_process(self.process),
            0 < indices@.len() < MIN_LENGTH_FOR_RECURSIVE_DEFAULT,
            all_below(indices@, task.group.orders@.len() as int),
        ensures
            match r {
                Ok(out) => out.1 <= 5040 && solves_subproblem(
                    self.process,
                    *task,
                    indices@,
                    out,
                ) && all_below(out.0@, task.group.orders@.len() as int),
                Err(error) => subproblem_fails(self.process, *task, indices@, error),
            },
    {
        let r = self.solve_small_recursive_default_subproblem(task, indices);
        let ghost given = r;
        proof {
            if let Ok(out) = given {
                let (subtask, sequences, best) = choose|
                    subtask: ConflictTask,
                    sequences: Seq<Vec<usize>>,
                    best: ResolutionResult,
                |
                    {
                        &&& is_subtask(*task, indices@, subtask)
                        &&& lists_nonce_orderings(nested(sequences), subtask.group.orders@)
                        &&& #[trigger] evaluates_to(self.process, subtask, sequences, best)
                        &&& out.0@ == remapped(best.sequence_of_orders@, indices@)
                        &&& out.1 == sequences.len()
                    };
                lemma_candidate_count(nested(sequences), subtask);
                lemma_best_below(self.process, subtask, sequences, best);
                assert forall|i: int| 0 <= i < out.0@.len() implies (#[trigger] out.0@[i] as int)
                    < task.group.orders@.len() by {
                    let local = best.sequence_of_orders@[i].0;
                    assert(out.0@[i] == indices@[local as int]);
                }
            }
        }
        r
    }

    /// Runs a task: tries the candidate sequences of its algorithm and keeps the best result.
    pub fn run_conflict_task(&self, task: &ConflictTask) -> (r: Result<TaskOutcome, E>)
        requires
            can_process(self.process),
            if task.algorithm == Algorithm::RecursiveDefault {
                can_count_candidates(*task)
            } else {
                has_candidate_list(*task)
            },
        ensures
            match r {
                Ok(outcome) => if task.algorithm == Algorithm::RecursiveDefault {
                    resolves_recursively(
                        self.process,
                        *task,
                        outcome.resolution,
                        outcome.candidate_sequence_count,
                    )
                } else {
                    resolves_by_trying(
                        self.process,
                        *task,
                        outcome.resolution,
                        outcome.candidate_sequence_count,
                    )
                },
                Err(error) => if task.algorithm == Algorithm::RecursiveDefault {
                    fails_recursively(self.process, *task, error)
                } else {
                    candidate_fails(self.process, *task, error)
                },
            },
    {
        if task.algorithm == Algorithm::RecursiveDefault {
            return self.resolve_recursive_default_task(task);
        }
        let sequences = generate_sequences_of_orders_to_try(task);
        let ghost rows = sequences@;
        let candidate_sequence_count: usize = sequences.len();
        proof {
            assert forall|i: int| 0 <= i < rows.len() implies call_requires(
                self.process,
                (task, #[trigger] rows[i]),
            ) by {
                law_candidates_repeat_no_order(*task, nested(rows), i);
                assert(nested(rows)[i] == rows[i]@);
            }
        }
        match self.evaluate_sequences_for_task(task, sequences) {
            Ok(resolution) => {
                assert(resolves_by_trying(
                    self.process,
                    *task,
                    resolution,
                    candidate_sequence_count,
                ));
                Ok(TaskOutcome { resolution, candidate_sequence_count })
            },
            Err(error) => Err(error),
        }
    }
}

/// Adds the outcome of a task to the first record about it. Nothing changes where there is none.
pub fn record_outcome(
    records: &mut Vec<DefaultGraphStudyRecord>,
    task: &ConflictTask,
    outcome: &TaskOutcome,
)
    ensures
        forall|place: int| #[trigger]
            is_first_about(old(records)@, task.group.id, task.algorithm, place) ==> final(records)@
                == old(records)@.update(
                place,
                updated_record(
                    old(records)@[place],
                    Some(outcome.candidate_sequence_count),
                    Some(outcome.resolution.total_profit),
                ),
            ),
        (forall|i: int|
            0 <= i < old(records)@.len() ==> !is_about(
                #[trigger] old(records)@[i],
                task.group.id,
                task.algorithm,
            )) ==> final(records)@ == old(records)@,
{
    let ghost before = records@;
    update_default_graph_study_record(
        records,
        task.group.id,
        task.algorithm,
        Some(outcome.candidate_sequence_count),
        None,
    );
    let ghost between = records@;
    update_default_graph_study_record(
        records,
        task.group.id,
        task.algorithm,
        None,
        Some(outcome.resolution.total_profit),
    );
    proof {
        assert forall|place: int| #[trigger]
            is_first_about(before, task.group.id, task.algorithm, place) implies records@
            == before.update(
            place,
            updated_record(
                before[place],
                Some(outcome.candidate_sequence_count),
                Some(outcome.resolution.total_profit),
            ),
        ) by {
            assert forall|i: int| 0 <= i < place implies !is_about(
                #[trigger] between[i],
                task.group.id,
                task.algorithm,
            ) by {
                assert(between[i] == before[i]);
            }
            assert(is_first_about(between, task.group.id, task.algorithm, place));
            assert(records@ =~= before.update(
                place,
                updated_record(
                    before[place],
                    Some(outcome.candidate_sequence_count),
                    Some(outcome.resolution.total_profit),
                ),
            ));
        }
    }
}

/// Replacing the empty result by the first best one, where it has any profit, gives the kept one.
proof fn lemma_kept(
    results: Seq<ResolutionResult>,
    k: int,
    empty: ResolutionResult,
    best: ResolutionResult,
)
    requires
        is_first_best(results, k),
        empty.total_profit.value() == 0,
        empty.sequence_of_orders@.len() == 0,
        best == better(empty, results[k]),
    ensures
        is_kept(results, best),
{
    if results[k].total_profit.value() == 0 {
        assert forall|i: int| 0 <= i < results.len() implies (
        #[trigger] results[i]).total_profit.value() == 0 by {
        }
    }
}

/// The kept result holds orders of the task.
proof fn lemma_best_below<E, P: Fn(&ConflictTask, Vec<usize>) -> Result<ResolutionResult, E>>(
    process: P,
    task: ConflictTask,
    sequences: Seq<Vec<usize>>,
    best: ResolutionResult,
)
    requires
        can_process(process),
        evaluates_to(process, task, sequences, best),
    ensures
        orders_below(best.sequence_of_orders@, task.group.orders@.len() as int),
{
    let results = choose|results: Seq<ResolutionResult>| #[trigger]
        are_results(process, task, sequences, results) && is_kept(results, best);
    if !(forall|i: int|
        0 <= i < results.len() ==> (#[trigger] results[i]).total_profit.value() == 0) {
        let k = choose|k: int| #[trigger] is_first_best(results, k) && best == results[k];
        assert(call_ensures(process, (&task, sequences[k]), Ok(results[k])));
    }
}

/// What comes of trying a sequence holds no order twice.
pub open spec fn results_repeat_no_order<
    E,
    P: Fn(&ConflictTask, Vec<usize>) -> Result<ResolutionResult, E>,
>(process: P) -> bool {
    forall|task: &ConflictTask, sequence: Vec<usize>, result: ResolutionResult| #[trigger]
        call_ensures(process, (task, sequence), Ok(result)) ==> repeats_no_order(
            result.sequence_of_orders@,
        )
}

/// No order stands twice.
pub open spec fn repeats_no_order(sequence: Seq<(usize, U256)>) -> bool {
    forall|i: int, j: int|
        0 <= i < j < sequence.len() ==> (#[trigger] sequence[i]).0 != (#[trigger] sequence[j]).0
}

/// The solution of a subproblem lists orders of the subproblem, none of them twice.
proof fn lemma_solution_repeats_no_order<
    E,
    P: Fn(&ConflictTask, Vec<usize>) -> Result<ResolutionResult, E>,
>(process: P, task: ConflictTask, part: Seq<usize>, out: (Vec<usize>, usize))
    requires
        can_process(process),
        results_repeat_no_order(process),
        part.no_duplicates(),
        solves_subproblem(process, task, part, out),
    ensures
        out.0@.no_duplicates(),
        forall|x: usize| out.0@.contains(x) ==> #[trigger] part.contains(x),
{
    let (subtask, sequences, best) = choose|
        subtask: ConflictTask,
        sequences: Seq<Vec<usize>>,
        best: ResolutionResult,
    |
        {
            &&& is_subtask(task, part, subtask)
            &&& lists_nonce_orderings(nested(sequences), subtask.group.orders@)
            &&& #[trigger] evaluates_to(process, subtask, sequences, best)
            &&& out.0@ == remapped(best.sequence_of_orders@, part)
            &&& out.1 == sequences.len()
        };
    lemma_best_below(process, subtask, sequences, best);
    let results = choose|results: Seq<ResolutionResult>| #[trigger]
        are_results(process, subtask, sequences, results) && is_kept(results, best);
    assert(repeats_no_order(best.sequence_of_orders@)) by {
        if !(forall|i: int|
            0 <= i < results.len() ==> (#[trigger] results[i]).total_profit.value() == 0) {
            let k = choose|k: int| #[trigger] is_first_best(results, k) && best == results[k];
            assert(call_ensures(process, (&subtask, sequences[k]), Ok(results[k])));
        }
    }
    law_remapping_repeats_no_order(best.sequence_of_orders@, part);
    assert forall|x: usize| out.0@.contains(x) implies #[trigger] part.contains(x) by {
        let i = choose|i: int| 0 <= i < out.0@.len() && out.0@[i] == x;
        let local = best.sequence_of_orders@[i].0;
        assert(part[local as int] == x);
    }
}

/// Where trying a sequence never gives an order twice, the sequence that the recursive algorithm
/// makes up of the solutions of a plan lists only orders of the task, and none of them twice.
pub proof fn law_recursive_sequence_repeats_no_order<
    E,
    P: Fn(&ConflictTask, Vec<usize>) -> Result<ResolutionResult, E>,
>(
    process: P,
    task: ConflictTask,
    adjacency: Seq<Seq<usize>>,
    indices: Seq<usize>,
    plan: Seq<Seq<usize>>,
    outs: Seq<(Vec<usize>, usize)>,
)
    requires
        can_process(process),
        results_repeat_no_order(process),
        is_interaction_graph(adjacency, task.group.orders@),
        is_identity(indices, task.group.orders@.len() as int),
        is_plan(adjacency, indices, plan),
        solves_subproblems(process, task, plan, outs),
    ensures
        joined_sequences(outs).no_duplicates(),
        all_below(joined_sequences(outs), task.group.orders@.len() as int),
{
    let n = task.group.orders@.len() as int;
    assert(all_below(indices, n));
    law_plan_parts_repeat_no_order(adjacency, indices, plan);
    assert forall|i: int| 0 <= i < plan.len() implies (#[trigger] outs[i]).0@.no_duplicates() && (
    forall|x: usize| outs[i].0@.contains(x) ==> #[trigger] plan[i].contains(x)) by {
        assert(solves_subproblem(process, task, plan[i], outs[i]));
        lemma_solution_repeats_no_order(process, task, plan[i], outs[i]);
    }
    law_joined_solutions_repeat_no_order(adjacency, indices, plan, outs);
    let all = joined_sequences(outs);
    assert forall|i: int| 0 <= i < all.len() implies (#[trigger] all[i] as int) < n by {
        assert(all.contains(all[i]));
        let j = choose|j: int| 0 <= j < indices.len() && indices[j] == all[i];
        assert(indices[j] == j);
    }
}

} // verus!
