//! Candidate sequences: the orders in which a group's orders are tried.
use itertools::Itertools;
use rand::rngs::SmallRng;
use std::sync::Arc;
use vstd::prelude::*;

use crate::counting::factorial;
use crate::orderings::{all_below, is_ordering, lemma_lex_sorted_unique, lex_sorted, nested};
use crate::permutations::{
    generate_all_permutations_with_nonces_for_orders, keeps_nonce_order, lists_nonce_orderings,
};
use crate::nonces::waits_for;
use crate::random::{is_generator_of, is_shuffle, new_generator, shuffle_values};
use crate::sorting::{
    is_stable_order, picked, ranks, sort_stably, Descending, LongestFirst, SortKey,
};
use crate::types::{
    two_to_256, Algorithm, ConflictGroup, ConflictTask, ResolutionResult, SimulatedOrder, U256,
};

verus! {

/// A vector can hold all permutations of `n` orders: its buffer takes three words for each.
pub open spec fn permutations_fit(n: nat) -> bool {
    factorial(n) * 24 <= isize::MAX
}

/// `rows` lists, in lexicographic order and without repetition, all orderings of `0..n`.
pub open spec fn lists_all_orderings(rows: Seq<Seq<usize>>, n: int) -> bool {
    &&& lex_sorted(rows)
    &&& forall|p: Seq<usize>| #[trigger] rows.contains(p) <==> is_ordering(p, n)
}

/// `Itertools::permutations` on `0..n`, with all of its elements: every permutation once, in
/// lexicographic order. Its size hint is a vector's first capacity, which panics where the
/// permutations do not fit.
#[verifier::external_body]
fn permutations_of(n: usize) -> (rows: Vec<Vec<usize>>)
    requires
        permutations_fit(n as nat),
    ensures
        lists_all_orderings(nested(rows@), n as int),
{
    (0..n).permutations(n).collect()
}

/// Every permutation of the task's orders, in lexicographic order.
pub fn generate_all_permutations(task: &ConflictTask) -> (rows: Vec<Vec<usize>>)
    requires
        permutations_fit(task.group.orders@.len()),
    ensures
        lists_all_orderings(nested(rows@), task.group.orders@.len() as int),
{
    permutations_of(task.group.orders.len())
}

/// Every permutation of the task's orders that keeps their nonce order, in lexicographic order.
pub fn generate_all_permutations_with_nonces(task: &ConflictTask) -> (rows: Vec<Vec<usize>>)
    ensures
        lists_nonce_orderings(nested(rows@), task.group.orders@),
{
    generate_all_permutations_with_nonces_for_orders(&task.group.orders)
}

/// Where no order has to wait for another, the permutations that keep the nonce order are all
/// permutations, in the same order.
pub proof fn law_without_waiting_all_permutations_are_tried(
    orders: Seq<Arc<SimulatedOrder>>,
    with_nonces: Seq<Seq<usize>>,
    all: Seq<Seq<usize>>,
)
    requires
        lists_nonce_orderings(with_nonces, orders),
        lists_all_orderings(all, orders.len() as int),
        forall|i: int, j: int|
            0 <= i < orders.len() && 0 <= j < orders.len() ==> !#[trigger] waits_for(orders, i, j),
    ensures
        with_nonces == all,
{
    assert forall|p: Seq<usize>| #[trigger] with_nonces.contains(p) <==> all.contains(p) by {
        if is_ordering(p, orders.len() as int) {
            assert(keeps_nonce_order(orders, p)) by {
                assert forall|i: int, j: int| 0 <= i < j < p.len() implies !waits_for(
                    orders,
                    #[trigger] p[i] as int,
                    #[trigger] p[j] as int,
                ) by {
                }
            }
        }
    }
    lemma_lex_sorted_unique(with_nonces, all);
}

/// A shuffled ordering is an ordering.
proof fn lemma_shuffled_ordering(p: Seq<usize>, q: Seq<usize>, n: int)
    requires
        is_ordering(p, n),
        p.to_multiset() == q.to_multiset(),
    ensures
        is_ordering(q, n),
{
    p.to_multiset_ensures();
    q.to_multiset_ensures();
    p.lemma_multiset_has_no_duplicates();
    q.lemma_multiset_has_no_duplicates_conv();
    assert forall|i: int| 0 <= i < q.len() implies (#[trigger] q[i] as int) < n by {
        assert(q.contains(q[i]));
        assert(q.to_multiset().count(q[i]) > 0);
        assert(p.contains(q[i]));
        let j = choose|j: int| 0 <= j < p.len() && p[j] == q[i];
        assert((p[j] as int) < n);
    }
}

/// The indices `0..n`.
pub open spec fn is_identity(s: Seq<usize>, n: int) -> bool {
    &&& s.len() == n
    &&& forall|i: int| 0 <= i < n ==> #[trigger] s[i] == i
}

/// Lists the indices `0..n`.
pub fn all_indices(n: usize) -> (r: Vec<usize>)
    ensures
        is_identity(r@, n as int),
{
    let mut r: Vec<usize> = Vec::new();
    for i in 0..n
        invariant
            r@.len() == i,
            forall|j: int| 0 <= j < i ==> #[trigger] r@[j] == j,
    {
        r.push(i);
    }
    r
}

/// Every row is an ordering of `0..n`.
pub open spec fn all_are_orderings(rows: Seq<Seq<usize>>, n: int) -> bool {
    forall|i: int| 0 <= i < rows.len() ==> is_ordering(#[trigger] rows[i], n)
}

/// What is shuffled to give the row with the number: the row before it, and `0..n` for the first.
pub open spec fn row_before(rows: Seq<Seq<usize>>, n: int, k: int) -> Seq<usize> {
    if k <= 0 {
        Seq::new(n as nat, |i: int| i as usize)
    } else {
        rows[k - 1]
    }
}

/// Each row comes of shuffling the one before it, and the first of shuffling `0..n`, while the
/// generator goes through the states.
pub open spec fn are_shuffles(
    rows: Seq<Seq<usize>>,
    n: int,
    generators: Seq<SmallRng>,
) -> bool {
    &&& generators.len() == rows.len() + 1
    &&& forall|k: int|
        0 <= k < rows.len() ==> is_shuffle(
            row_before(rows, n, k),
            generators[k],
            #[trigger] rows[k],
            generators[k + 1],
        )
}

/// The rows are permutations of `0..n`, drawn one after another with the generator of the seed.
pub open spec fn are_random_orderings(rows: Seq<Seq<usize>>, n: int, seed: u64) -> bool {
    &&& all_are_orderings(rows, n)
    &&& exists|generators: Seq<SmallRng>| #[trigger]
        are_shuffles(rows, n, generators) && is_generator_of(seed, generators[0])
}

/// The given number of random permutations of the task's orders: shuffles that are drawn with the
/// generator of the seed.
pub fn generate_random_permutations(task: &ConflictTask, seed: u64, count: usize) -> (rows: Vec<
    Vec<usize>,
>)
    ensures
        rows@.len() == count,
        are_random_orderings(nested(rows@), task.group.orders@.len() as int, seed),
{
    let ghost n = task.group.orders@.len() as int;
    let mut rows: Vec<Vec<usize>> = Vec::new();
    let mut indexes = all_indices(task.group.orders.len());
    let mut rng = new_generator(seed);
    let ghost mut generators = seq![rng];
    assert(indexes@ =~= row_before(nested(rows@), n, 0));
    for i in 0..count
        invariant
            n == task.group.orders@.len(),
            rows@.len() == i,
            is_ordering(indexes@, n),
            all_are_orderings(nested(rows@), n),
            indexes@ == row_before(nested(rows@), n, i as int),
            are_shuffles(nested(rows@), n, generators),
            is_generator_of(seed, generators[0]),
            generators.last() == rng,
    {
        let ghost before = indexes@;
        let ghost earlier = nested(rows@);
        shuffle_values(&mut indexes, &mut rng);
        proof {
            lemma_shuffled_ordering(before, indexes@, n);
        }
        let row = indexes.clone();
        rows.push(row);
        proof {
            assert(row@ == indexes@);
            let all = nested(rows@);
            let more = generators.push(rng);
            assert(all =~= earlier.push(indexes@));
            assert forall|k: int| 0 <= k < all.len() implies is_ordering(
                #[trigger] all[k],
                n,
            ) && is_shuffle(row_before(all, n, k), more[k], all[k], more[k + 1]) by {
                if k < earlier.len() {
                    assert(all[k] == earlier[k]);
                    assert(row_before(all, n, k) == row_before(earlier, n, k));
                    assert(more[k] == generators[k] && more[k + 1] == generators[k + 1]);
                } else {
                    assert(row_before(all, n, k) == before);
                    assert(more[k] == generators.last());
                }
            }
            generators = more;
        }
    }
    assert(are_shuffles(nested(rows@), n, generators));
    rows
}

/// The beginning of a list that is drawn with a seed is a list that is drawn with that seed.
pub proof fn law_a_beginning_is_drawn_too(rows: Seq<Seq<usize>>, n: int, seed: u64, c: int)
    requires
        are_random_orderings(rows, n, seed),
        0 <= c <= rows.len(),
    ensures
        are_random_orderings(rows.take(c), n, seed),
{
    let generators = choose|generators: Seq<SmallRng>| #[trigger]
        are_shuffles(rows, n, generators) && is_generator_of(seed, generators[0]);
    let some = rows.take(c);
    let fewer = generators.take(c + 1);
    assert forall|k: int| 0 <= k < some.len() implies is_ordering(#[trigger] some[k], n)
        && is_shuffle(row_before(some, n, k), fewer[k], some[k], fewer[k + 1]) by {
        assert(some[k] == rows[k]);
        assert(row_before(some, n, k) == row_before(rows, n, k));
    }
    assert(are_shuffles(some, n, fewer));
}

/// On the machine at hand, the generator is a function of its seed, and what shuffling gives and
/// leaves is a function of the values and the generator.
pub open spec fn generator_repeats_itself() -> bool {
    &&& forall|seed: u64, g: SmallRng, h: SmallRng| #[trigger]
        is_generator_of(seed, g) && #[trigger] is_generator_of(seed, h) ==> g == h
    &&& forall|
        values: Seq<usize>,
        g: SmallRng,
        a: Seq<usize>,
        b: Seq<usize>,
        left: SmallRng,
        other: SmallRng,
    | #[trigger]
        is_shuffle(values, g, a, left) && #[trigger] is_shuffle(values, g, b, other) ==> a == b
            && left == other
}

/// Where the generator repeats itself, one seed gives one list: of two lists that are drawn with
/// the same seed for the same number of orders, one begins with the other.
pub proof fn law_one_seed_gives_one_list(
    rows: Seq<Seq<usize>>,
    others: Seq<Seq<usize>>,
    n: int,
    seed: u64,
)
    requires
        generator_repeats_itself(),
        are_random_orderings(rows, n, seed),
        are_random_orderings(others, n, seed),
        rows.len() <= others.len(),
    ensures
        rows == others.take(rows.len() as int),
{
    let g = choose|g: Seq<SmallRng>| #[trigger]
        are_shuffles(rows, n, g) && is_generator_of(seed, g[0]);
    let h = choose|h: Seq<SmallRng>| #[trigger]
        are_shuffles(others, n, h) && is_generator_of(seed, h[0]);
    assert(g[0] == h[0]);
    lemma_same_shuffles(rows, others, n, g, h, rows.len() as int);
    assert(rows =~= others.take(rows.len() as int));
}

proof fn lemma_same_shuffles(
    rows: Seq<Seq<usize>>,
    others: Seq<Seq<usize>>,
    n: int,
    g: Seq<SmallRng>,
    h: Seq<SmallRng>,
    k: int,
)
    requires
        generator_repeats_itself(),
        are_shuffles(rows, n, g),
        are_shuffles(others, n, h),
        g[0] == h[0],
        0 <= k <= rows.len() <= others.len(),
    ensures
        g[k] == h[k],
        forall|i: int| 0 <= i < k ==> rows[i] == others[i],
    decreases k,
{
    if k > 0 {
        lemma_same_shuffles(rows, others, n, g, h, k - 1);
        assert(row_before(rows, n, k - 1) == row_before(others, n, k - 1));
        assert(is_shuffle(row_before(rows, n, k - 1), g[k - 1], rows[k - 1], g[k - 1 + 1]));
        assert(is_shuffle(row_before(others, n, k - 1), h[k - 1], others[k - 1], h[k - 1 + 1]));
    }
}

/// The places of the orders by profit: the largest first, or the smallest where reversed.
pub open spec fn profit_ranks(orders: Seq<Arc<SimulatedOrder>>, reverse: bool) -> Seq<int> {
    Seq::new(
        orders.len(),
        |i: int|
            if reverse {
                orders[i].coinbase_profit.value() as int
            } else {
                -(orders[i].coinbase_profit.value() as int)
            },
    )
}

/// The places of the orders by gas price: the largest first, or the smallest where reversed.
pub open spec fn gas_price_ranks(orders: Seq<Arc<SimulatedOrder>>, reverse: bool) -> Seq<int> {
    Seq::new(
        orders.len(),
        |i: int|
            if reverse {
                orders[i].mev_gas_price.value() as int
            } else {
                -(orders[i].mev_gas_price.value() as int)
            },
    )
}

/// The places of the orders by number of transactions, the largest first, and among equal ones by
/// profit, the largest first.
pub open spec fn length_ranks(orders: Seq<Arc<SimulatedOrder>>) -> Seq<int> {
    Seq::new(
        orders.len(),
        |i: int|
            -(orders[i].tx_count * two_to_256() + orders[i].coinbase_profit.value()),
    )
}

/// Lists the indices of the keys by increasing rank, and equal ranks by index.
pub(crate) fn sorted_indices<K: SortKey>(keys: Vec<K>) -> (sequence: Vec<usize>)
    ensures
        is_stable_order(ranks(keys@), sequence@),
{
    let n: usize = keys.len();
    let ghost all = ranks(keys@);
    let indices = all_indices(n);
    let ghost identity = indices@;
    let sequence = sort_stably(indices, keys);
    proof {
        let p = choose|p: Seq<usize>| #[trigger]
            is_stable_order(all, p) && sequence@ == picked(identity, p);
        assert(sequence@ =~= p);
    }
    sequence
}

fn sequence_by_amount(amounts: &Vec<U256>, reverse: bool) -> (sequence: Vec<usize>)
    ensures
        is_stable_order(
            Seq::new(
                amounts@.len(),
                |i: int|
                    if reverse {
                        amounts@[i].value() as int
                    } else {
                        -(amounts@[i].value() as int)
                    },
            ),
            sequence@,
        ),
{
    let ghost places = Seq::new(
        amounts@.len(),
        |i: int|
            if reverse {
                amounts@[i].value() as int
            } else {
                -(amounts@[i].value() as int)
            },
    );
    if reverse {
        let mut keys: Vec<U256> = Vec::new();
        for i in 0..amounts.len()
            invariant
                keys@ == amounts@.take(i as int),
        {
            keys.push(amounts[i]);
            assert(keys@ =~= amounts@.take(i + 1));
        }
        assert(keys@ =~= amounts@);
        assert(ranks(keys@) =~= places);
        sorted_indices(keys)
    } else {
        let mut keys: Vec<Descending> = Vec::new();
        for i in 0..amounts.len()
            invariant
                keys@.len() == i,
                forall|j: int| 0 <= j < i ==> (#[trigger] keys@[j]).amount == amounts@[j],
        {
            keys.push(Descending { amount: amounts[i] });
        }
        assert(ranks(keys@) =~= places);
        sorted_indices(keys)
    }
}

/// The two greedy sequences: by profit and by gas price.
pub open spec fn are_greedy_sequences(
    rows: Seq<Seq<usize>>,
    orders: Seq<Arc<SimulatedOrder>>,
    reverse: bool,
) -> bool {
    &&& rows.len() == 2
    &&& is_stable_order(profit_ranks(orders, reverse), rows[0])
    &&& is_stable_order(gas_price_ranks(orders, reverse), rows[1])
}

/// The task's orders by coinbase profit, and then by gas price: the largest first, or the
/// smallest where reversed, and equal ones as they stand.
pub fn generate_greedy_sequence(task: &ConflictTask, reverse: bool) -> (rows: Vec<Vec<usize>>)
    ensures
        are_greedy_sequences(nested(rows@), task.group.orders@, reverse),
{
    let orders = &task.group.orders;
    let mut profits: Vec<U256> = Vec::new();
    let mut prices: Vec<U256> = Vec::new();
    for i in 0..orders.len()
        invariant
            orders == task.group.orders,
            profits@.len() == i,
            prices@.len() == i,
            forall|j: int| 0 <= j < i ==> #[trigger] profits@[j] == orders@[j].coinbase_profit,
            forall|j: int| 0 <= j < i ==> #[trigger] prices@[j] == orders@[j].mev_gas_price,
    {
        profits.push(orders[i].coinbase_profit);
        prices.push(orders[i].mev_gas_price);
    }
    let by_profit = sequence_by_amount(&profits, reverse);
    let by_price = sequence_by_amount(&prices, reverse);
    proof {
        let a = Seq::new(
            profits@.len(),
            |i: int|
                if reverse {
                    profits@[i].value() as int
                } else {
                    -(profits@[i].value() as int)
                },
        );
        assert(a =~= profit_ranks(orders@, reverse));
        let b = Seq::new(
            prices@.len(),
            |i: int|
                if reverse {
                    prices@[i].value() as int
                } else {
                    -(prices@[i].value() as int)
                },
        );
        assert(b =~= gas_price_ranks(orders@, reverse));
    }
    let mut rows: Vec<Vec<usize>> = Vec::new();
    rows.push(by_profit);
    rows.push(by_price);
    rows
}

/// The sequence by length.
pub open spec fn is_length_sequence(
    rows: Seq<Seq<usize>>,
    orders: Seq<Arc<SimulatedOrder>>,
) -> bool {
    &&& rows.len() == 1
    &&& is_stable_order(length_ranks(orders), rows[0])
}

/// The task's orders by number of transactions, the largest first; among equal ones the most
/// profitable comes first.
pub fn generate_length_based_sequence(task: &ConflictTask) -> (rows: Vec<Vec<usize>>)
    ensures
        is_length_sequence(nested(rows@), task.group.orders@),
{
    let orders = &task.group.orders;
    let mut keys: Vec<LongestFirst> = Vec::new();
    for i in 0..orders.len()
        invariant
            orders == task.group.orders,
            keys@.len() == i,
            forall|j: int|
                0 <= j < i ==> (#[trigger] keys@[j]).length == orders@[j].tx_count
                    && keys@[j].amount == orders@[j].coinbase_profit,
    {
        keys.push(
            LongestFirst { length: orders[i].tx_count, amount: orders[i].coinbase_profit },
        );
    }
    assert(ranks(keys@) =~= length_ranks(orders@));
    let sequence = sorted_indices(keys);
    let mut rows: Vec<Vec<usize>> = Vec::new();
    rows.push(sequence);
    rows
}

/// Order `best` is the first of those with the largest profit.
pub open spec fn is_first_most_profitable(
    orders: Seq<Arc<SimulatedOrder>>,
    best: usize,
) -> bool {
    &&& best < orders.len()
    &&& forall|j: int|
        0 <= j < orders.len() ==> (#[trigger] orders[j]).coinbase_profit.value()
            <= orders[best as int].coinbase_profit.value()
    &&& forall|j: int|
        0 <= j < best ==> (#[trigger] orders[j]).coinbase_profit.value()
            < orders[best as int].coinbase_profit.value()
}

/// The only sequence is the most profitable order alone.
pub open spec fn is_best_alone(rows: Seq<Seq<usize>>, orders: Seq<Arc<SimulatedOrder>>) -> bool {
    &&& rows.len() == 1
    &&& rows[0].len() == 1
    &&& is_first_most_profitable(orders, rows[0][0])
}

/// The most profitable of the task's orders, alone.
pub fn analyze_group_conflicts_and_find_best(task: &ConflictTask) -> (rows: Vec<Vec<usize>>)
    requires
        task.group.orders@.len() > 0,
    ensures
        is_best_alone(nested(rows@), task.group.orders@),
{
    let orders = &task.group.orders;
    let mut best: usize = 0;
    for i in 1..orders.len()
        invariant
            orders == task.group.orders,
            best < i,
            i <= orders@.len(),
            forall|j: int|
                0 <= j < i ==> (#[trigger] orders@[j]).coinbase_profit.value()
                    <= orders@[best as int].coinbase_profit.value(),
            forall|j: int|
                0 <= j < best ==> (#[trigger] orders@[j]).coinbase_profit.value()
                    < orders@[best as int].coinbase_profit.value(),
    {
        if orders[best].coinbase_profit.is_less_than(orders[i].coinbase_profit) {
            best = i;
        }
    }
    let mut row: Vec<usize> = Vec::new();
    row.push(best);
    let mut rows: Vec<Vec<usize>> = Vec::new();
    rows.push(row);
    rows
}

/// The task can be resolved by trying a list of sequences.
pub open spec fn has_candidate_list(task: ConflictTask) -> bool {
    match task.algorithm {
        Algorithm::RecursiveDefault => false,
        Algorithm::AllPermutations => permutations_fit(task.group.orders@.len()),
        Algorithm::BestOfN => task.group.orders@.len() > 0,
        _ => true,
    }
}

/// `rows` are the sequences that the task's algorithm tries.
pub open spec fn are_candidates(task: ConflictTask, rows: Seq<Seq<usize>>) -> bool {
    let orders = task.group.orders@;
    match task.algorithm {
        Algorithm::Greedy => are_greedy_sequences(rows, orders, false),
        Algorithm::ReverseGreedy => are_greedy_sequences(rows, orders, true),
        Algorithm::Length => is_length_sequence(rows, orders),
        Algorithm::AllPermutations => lists_all_orderings(rows, orders.len() as int),
        Algorithm::RecursiveDefault => false,
        Algorithm::Random { seed, count } => rows.len() == count && are_random_orderings(
            rows,
            orders.len() as int,
            seed,
        ),
        Algorithm::PermutationsWithNonces => lists_nonce_orderings(rows, orders),
        Algorithm::BestOfN => is_best_alone(rows, orders),
    }
}

/// The sequences to try for a task. A task of the recursive algorithm has no such list.
pub fn generate_sequences_of_orders_to_try(task: &ConflictTask) -> (rows: Vec<Vec<usize>>)
    requires
        has_candidate_list(*task),
    ensures
        are_candidates(*task, nested(rows@)),
{
    match task.algorithm {
        Algorithm::Greedy => generate_greedy_sequence(task, false),
        Algorithm::ReverseGreedy => generate_greedy_sequence(task, true),
        Algorithm::Length => generate_length_based_sequence(task),
        Algorithm::AllPermutations => generate_all_permutations(task),
        Algorithm::RecursiveDefault => Vec::new(),
        Algorithm::Random { seed, count } => generate_random_permutations(task, seed, count),
        Algorithm::PermutationsWithNonces => generate_all_permutations_with_nonces(task),
        Algorithm::BestOfN => analyze_group_conflicts_and_find_best(task),
    }
}

/// Every sequence that is tried holds only orders of the group, and none twice.
pub proof fn law_candidates_repeat_no_order(task: ConflictTask, rows: Seq<Seq<usize>>, i: int)
    requires
        are_candidates(task, rows),
        0 <= i < rows.len(),
    ensures
        rows[i].no_duplicates(),
        all_below(rows[i], task.group.orders@.len() as int),
{
    assert(rows.contains(rows[i]));
    let orders = task.group.orders@;
    match task.algorithm {
        Algorithm::Greedy => {
            assert(i == 0 || i == 1);
        },
        Algorithm::ReverseGreedy => {
            assert(i == 0 || i == 1);
        },
        Algorithm::Random { seed, count } => {
            assert(is_ordering(rows[i], orders.len() as int));
        },
        _ => {},
    }
}

/// The orders at the given positions.
pub open spec fn orders_at(
    orders: Seq<Arc<SimulatedOrder>>,
    indices: Seq<usize>,
) -> Seq<Arc<SimulatedOrder>> {
    Seq::new(indices.len(), |i: int| orders[indices[i] as int])
}

/// `task` tries the orders of the root task at the given positions, and is like it otherwise.
pub open spec fn is_subtask(
    root_task: ConflictTask,
    indices: Seq<usize>,
    task: ConflictTask,
) -> bool {
    &&& task.group_idx == root_task.group_idx
    &&& task.algorithm == Algorithm::PermutationsWithNonces
    &&& task.priority == root_task.priority
    &&& task.group.id == root_task.group.id
    &&& task.group.orders@ == orders_at(root_task.group.orders@, indices)
    &&& task.group.conflicting_group_ids == root_task.group.conflicting_group_ids
    &&& task.created_at == root_task.created_at
}

/// The task that tries every sequence of some of the root task's orders that keeps their nonce
/// order.
pub fn create_recursive_subtask(root_task: &ConflictTask, indices: &[usize]) -> (task: ConflictTask)
    requires
        all_below(indices@, root_task.group.orders@.len() as int),
    ensures
        is_subtask(*root_task, indices@, task),
{
    let mut orders: Vec<Arc<SimulatedOrder>> = Vec::new();
    for i in 0..indices.len()
        invariant
            all_below(indices@, root_task.group.orders@.len() as int),
            orders@ == orders_at(root_task.group.orders@, indices@.take(i as int)),
    {
        orders.push(root_task.group.orders[indices[i]].clone());
        assert(orders@ =~= orders_at(root_task.group.orders@, indices@.take(i + 1)));
    }
    assert(indices@.take(indices@.len() as int) =~= indices@);
    ConflictTask {
        group_idx: root_task.group_idx,
        algorithm: Algorithm::PermutationsWithNonces,
        priority: root_task.priority,
        group: ConflictGroup {
            id: root_task.group.id,
            orders: Arc::new(orders),
            conflicting_group_ids: root_task.group.conflicting_group_ids.clone(),
        },
        created_at: root_task.created_at,
    }
}

/// The positions that the sequence's orders have among the root task's orders.
pub open spec fn remapped(sequence: Seq<(usize, U256)>, indices: Seq<usize>) -> Seq<usize> {
    Seq::new(sequence.len(), |i: int| indices[sequence[i].0 as int])
}

/// Every order of the sequence is below `n`.
pub open spec fn orders_below(sequence: Seq<(usize, U256)>, n: int) -> bool {
    forall|i: int| 0 <= i < sequence.len() ==> ((#[trigger] sequence[i]).0 as int) < n
}

/// Maps the orders of a subtask's result back to positions among the root task's orders.
pub fn remap_resolution_result_indices(result: &ResolutionResult, indices: &[usize]) -> (r: Vec<
    usize,
>)
    requires
        orders_below(result.sequence_of_orders@, indices@.len() as int),
    ensures
        r@ == remapped(result.sequence_of_orders@, indices@),
{
    let mut r: Vec<usize> = Vec::new();
    for i in 0..result.sequence_of_orders.len()
        invariant
            orders_below(result.sequence_of_orders@, indices@.len() as int),
            r@.len() == i,
            forall|j: int|
                0 <= j < i ==> #[trigger] r@[j] == indices@[result.sequence_of_orders@[j].0 as int],
    {
        let entry = result.sequence_of_orders[i];
        assert(result.sequence_of_orders@[i as int] == entry);
        r.push(indices[entry.0]);
    }
    assert(r@ =~= remapped(result.sequence_of_orders@, indices@));
    r
}

/// Solving a subtask repeats no order of the root task: where the positions of the subtask's
/// orders differ and its result repeats none, the remapped sequence repeats none.
pub proof fn law_remapping_repeats_no_order(sequence: Seq<(usize, U256)>, indices: Seq<usize>)
    requires
        indices.no_duplicates(),
        orders_below(sequence, indices.len() as int),
        forall|i: int, j: int|
            0 <= i < j < sequence.len() ==> (#[trigger] sequence[i]).0 != (
            #[trigger] sequence[j]).0,
    ensures
        remapped(sequence, indices).no_duplicates(),
{
    let r = remapped(sequence, indices);
    assert forall|i: int, j: int| 0 <= i < r.len() && 0 <= j < r.len() && i != j implies r[i]
        != r[j] by {
        if i < j {
            assert(sequence[i].0 != sequence[j].0);
        } else {
            assert(sequence[j].0 != sequence[i].0);
        }
    }
}

} // verus!
