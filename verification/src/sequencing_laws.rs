//! What every run of a sequence has in common.
use std::sync::Arc;
use vstd::prelude::*;

use crate::hash_maps::{nonce_key, MapKey};
use crate::sequencing::{
    at, ids_of, is_result_of, is_run, released, says_cancelled, start_of, CachedSimulationState,
    CommitOutcome, OrderCommitter, ProcessError, ProcessedSequence, RunState,
};
use crate::types::{lemma_value_bound, two_to_256, Address, SimulatedOrder, U256};

verus! {

/// The orders that went in after the first `base`.
pub open spec fn orders_after(sequenced: Seq<(usize, U256)>, base: int) -> Seq<usize> {
    Seq::new((sequenced.len() - base) as nat, |i: int| sequenced[base + i].0)
}

/// No order is both to be tried and waiting, or has been used already, and all are in the pool.
spec fn apart(
    remaining: Seq<usize>,
    pending: Map<MapKey, usize>,
    used: Seq<usize>,
    pool: Seq<usize>,
) -> bool {
    &&& remaining.no_duplicates()
    &&& forall|x: usize| #[trigger] remaining.contains(x) ==> pool.contains(x) && !used.contains(x)
    &&& forall|key: MapKey| #[trigger]
        pending.contains_key(key) ==> pool.contains(pending[key]) && !used.contains(pending[key])
            && !remaining.contains(pending[key])
    &&& forall|a: MapKey, b: MapKey| #[trigger]
        pending.contains_key(a) && #[trigger] pending.contains_key(b) && a != b ==> pending[a]
            != pending[b]
}

proof fn lemma_pushed(s: Seq<usize>, y: usize, x: usize)
    ensures
        s.push(y).contains(x) <==> s.contains(x) || x == y,
{
    if s.contains(x) {
        let i = choose|i: int| 0 <= i < s.len() && s[i] == x;
        assert(s.push(y)[i] == x);
    }
    if x == y {
        assert(s.push(y)[s.len() as int] == x);
    }
}

proof fn lemma_released_apart(
    remaining: Seq<usize>,
    pending: Map<MapKey, usize>,
    nonces: Seq<(Address, u64)>,
    k: int,
    used: Seq<usize>,
    pool: Seq<usize>,
)
    requires
        0 <= k <= nonces.len(),
        apart(remaining, pending, used, pool),
    ensures
        ({
            let (r, p) = released(remaining, pending, nonces, k);
            apart(r, p, used, pool)
        }),
    decreases k,
{
    if k > 0 {
        lemma_released_apart(remaining, pending, nonces, k - 1, used, pool);
        let (r, p) = released(remaining, pending, nonces, k - 1);
        let key = nonce_key(nonces[k - 1].0, nonces[k - 1].1);
        if p.contains_key(key) {
            let order = p[key];
            let more = r.push(order);
            let fewer = p.remove(key);
            assert(!r.contains(order));
            assert(more.no_duplicates());
            assert forall|x: usize| #[trigger] more.contains(x) implies pool.contains(x)
                && !used.contains(x) by {
                lemma_pushed(r, order, x);
            }
            assert forall|other: MapKey| #[trigger] fewer.contains_key(other) implies pool.contains(
                fewer[other],
            ) && !used.contains(fewer[other]) && !more.contains(fewer[other]) by {
                assert(p.contains_key(other));
                lemma_pushed(r, order, fewer[other]);
            }
            assert forall|a: MapKey, b: MapKey| #[trigger]
                fewer.contains_key(a) && #[trigger] fewer.contains_key(b) && a != b implies fewer[a]
                != fewer[b] by {
                assert(p.contains_key(a) && p.contains_key(b));
            }
        }
    }
}

/// The orders that went in are as many as before or one more, and all are apart.
proof fn lemma_step_apart(
    state: RunState,
    orders: Seq<Arc<SimulatedOrder>>,
    outcome: CommitOutcome,
    base: int,
    pool: Seq<usize>,
)
    requires
        0 <= base <= state.sequenced.len(),
        state.remaining.len() > 0,
        orders_after(state.sequenced, base).no_duplicates(),
        apart(state.remaining, state.pending, orders_after(state.sequenced, base), pool),
        forall|x: usize| #[trigger]
            orders_after(state.sequenced, base).contains(x) ==> pool.contains(x),
    ensures
        ({
            let next = state.after(orders, outcome);
            let used = orders_after(next.sequenced, base);
            &&& base <= next.sequenced.len()
            &&& next.sequenced.take(base) == state.sequenced.take(base)
            &&& used.no_duplicates()
            &&& apart(next.remaining, next.pending, used, pool)
            &&& forall|x: usize| #[trigger] used.contains(x) ==> pool.contains(x)
        }),
{
    let order = state.remaining.last();
    let used = orders_after(state.sequenced, base);
    let next = state.after(orders, outcome);
    let rest = state.remaining.drop_last();
    let taken = used.push(order);
    assert(state.remaining.contains(order));
    assert forall|x: usize| #[trigger] rest.contains(x) implies pool.contains(x)
        && !taken.contains(x) by {
        let i = choose|i: int| 0 <= i < rest.len() && rest[i] == x;
        assert(state.remaining[i] == x);
        assert(state.remaining.contains(x));
        assert(x != order);
        lemma_pushed(used, order, x);
    }
    assert forall|key: MapKey| #[trigger] state.pending.contains_key(key) implies !taken.contains(
        state.pending[key],
    ) && !rest.contains(state.pending[key]) by {
        let x = state.pending[key];
        assert(!state.remaining.contains(x));
        lemma_pushed(used, order, x);
        if rest.contains(x) {
            let i = choose|i: int| 0 <= i < rest.len() && rest[i] == x;
            assert(state.remaining[i] == x);
        }
    }
    assert(apart(rest, state.pending, taken, pool));
    match outcome {
        CommitOutcome::Committed { nonces_updated, coinbase_profit } => {
            lemma_released_apart(
                rest,
                state.pending,
                nonces_updated@,
                nonces_updated@.len() as int,
                taken,
                pool,
            );
            assert(orders_after(next.sequenced, base) =~= taken);
            assert(next.sequenced.take(base) =~= state.sequenced.take(base));
            assert forall|x: usize| #[trigger] taken.contains(x) implies pool.contains(x) by {
                lemma_pushed(used, order, x);
            }
        },
        CommitOutcome::Failed { nonce_too_high } => {
            assert(next.sequenced == state.sequenced);
            if let Some(nonce) = nonce_too_high {
                let key = nonce_key(nonce.0, nonce.1);
                let pending = state.pending.insert(key, order);
                assert forall|other: MapKey| #[trigger] pending.contains_key(
                    other,
                ) implies pool.contains(pending[other]) && !used.contains(pending[other])
                    && !rest.contains(pending[other]) by {
                    if other != key {
                        assert(state.pending.contains_key(other));
                    } else if rest.contains(order) {
                        lemma_pushed(used, order, order);
                    }
                }
                assert forall|a: MapKey, b: MapKey| #[trigger]
                    pending.contains_key(a) && #[trigger] pending.contains_key(b) && a
                    != b implies pending[a] != pending[b] by {
                    if a != key {
                        assert(state.pending.contains_key(a));
                    }
                    if b != key {
                        assert(state.pending.contains_key(b));
                    }
                }
            }
            assert forall|x: usize| #[trigger] rest.contains(x) implies !used.contains(x) by {
                lemma_pushed(used, order, x);
            }
        },
    }
}

proof fn lemma_admits_init(
    start: RunState,
    orders: Seq<Arc<SimulatedOrder>>,
    outcomes: Seq<CommitOutcome>,
)
    requires
        outcomes.len() > 0,
        start.admits(orders, outcomes),
    ensures
        start.admits(orders, outcomes.drop_last()),
        start.after_all(orders, outcomes.drop_last()).remaining.len() > 0,
{
    let init = outcomes.drop_last();
    assert forall|k: int| 0 <= k < init.len() implies (#[trigger] start.after_all(
        orders,
        init.take(k),
    )).remaining.len() > 0 by {
        assert(init.take(k) =~= outcomes.take(k));
    }
    assert(outcomes.take(outcomes.len() - 1) =~= init);
}

proof fn lemma_run_apart(
    start: RunState,
    orders: Seq<Arc<SimulatedOrder>>,
    outcomes: Seq<CommitOutcome>,
)
    requires
        start.remaining.no_duplicates(),
        start.pending == Map::<MapKey, usize>::empty(),
        start.admits(orders, outcomes),
    ensures
        ({
            let base = start.sequenced.len() as int;
            let end = start.after_all(orders, outcomes);
            let used = orders_after(end.sequenced, base);
            &&& base <= end.sequenced.len()
            &&& end.sequenced.take(base) == start.sequenced
            &&& used.no_duplicates()
            &&& apart(end.remaining, end.pending, used, start.remaining)
            &&& forall|x: usize| #[trigger] used.contains(x) ==> start.remaining.contains(x)
        }),
    decreases outcomes.len(),
{
    let base = start.sequenced.len() as int;
    if outcomes.len() == 0 {
        assert(orders_after(start.sequenced, base) =~= Seq::empty());
        assert(start.sequenced.take(base) =~= start.sequenced);
    } else {
        lemma_admits_init(start, orders, outcomes);
        lemma_run_apart(start, orders, outcomes.drop_last());
        lemma_step_apart(
            start.after_all(orders, outcomes.drop_last()),
            orders,
            outcomes.last(),
            base,
            start.remaining,
        );
    }
}

/// A run keeps what went in before it. The orders that go in are orders of the sequence, and none
/// goes in twice where the sequence repeats none.
pub proof fn law_no_order_goes_in_twice(
    start: RunState,
    orders: Seq<Arc<SimulatedOrder>>,
    outcomes: Seq<CommitOutcome>,
)
    requires
        start.remaining.no_duplicates(),
        start.pending == Map::<MapKey, usize>::empty(),
        start.admits(orders, outcomes),
    ensures
        ({
            let base = start.sequenced.len() as int;
            let end = start.after_all(orders, outcomes);
            let used = orders_after(end.sequenced, base);
            &&& base <= end.sequenced.len()
            &&& end.sequenced.take(base) == start.sequenced
            &&& used.no_duplicates()
            &&& forall|x: usize| #[trigger] used.contains(x) ==> start.remaining.contains(x)
        }),
{
    lemma_run_apart(start, orders, outcomes);
}

/// The sum of the profits.
pub open spec fn profit_sum(profits: Seq<(usize, U256)>) -> nat
    decreases profits.len(),
{
    if profits.len() == 0 {
        0
    } else {
        profit_sum(profits.drop_last()) + profits.last().1.value()
    }
}

/// The total and the profits of single orders tell the same: what a run adds to the total is, up
/// to wrapping around, the sum of the profits of the orders that it puts in, and each of them is
/// recorded under the order's identifier.
pub proof fn law_profits_add_up(
    start: RunState,
    orders: Seq<Arc<SimulatedOrder>>,
    outcomes: Seq<CommitOutcome>,
)
    requires
        start.total_profit < two_to_256(),
    ensures
        ({
            let end = start.after_all(orders, outcomes);
            let went_in = end.sequenced.skip(start.sequenced.len() as int);
            let recorded = end.per_order_profits.skip(start.per_order_profits.len() as int);
            &&& end.sequenced.len() >= start.sequenced.len()
            &&& end.per_order_profits.len() >= start.per_order_profits.len()
            &&& end.total_profit == (start.total_profit + profit_sum(went_in)) % two_to_256()
            &&& recorded == Seq::new(
                went_in.len(),
                |i: int| (orders[went_in[i].0 as int].id, went_in[i].1),
            )
        }),
    decreases outcomes.len(),
{
    let end = start.after_all(orders, outcomes);
    let base = start.sequenced.len() as int;
    let id_base = start.per_order_profits.len() as int;
    if outcomes.len() == 0 {
        assert(start.sequenced.skip(base) =~= Seq::empty());
        assert(start.per_order_profits.skip(id_base) =~= Seq::new(
            0,
            |i: int|
                (
                    orders[start.sequenced.skip(base)[i].0 as int].id,
                    start.sequenced.skip(base)[i].1,
                ),
        ));
        vstd::arithmetic::div_mod::lemma_small_mod(start.total_profit, two_to_256());
    } else {
        law_profits_add_up(start, orders, outcomes.drop_last());
        let before = start.after_all(orders, outcomes.drop_last());
        let earlier = before.sequenced.skip(base);
        let went_in = end.sequenced.skip(base);
        match outcomes.last() {
            CommitOutcome::Committed { nonces_updated, coinbase_profit } => {
                assert(went_in.drop_last() =~= earlier);
                assert(went_in.last().1 == coinbase_profit);
                let order = before.remaining.last();
                assert(went_in.last() == (order, coinbase_profit));
                assert(end.per_order_profits.skip(id_base) =~= before.per_order_profits.skip(
                    id_base,
                ).push((orders[order as int].id, coinbase_profit)));
                assert(end.per_order_profits.skip(id_base) =~= Seq::new(
                    went_in.len(),
                    |i: int| (orders[went_in[i].0 as int].id, went_in[i].1),
                )) by {
                    assert forall|i: int| 0 <= i < went_in.len() implies
                        end.per_order_profits.skip(id_base)[i] == (
                        orders[went_in[i].0 as int].id,
                        went_in[i].1,
                    ) by {
                        if i < earlier.len() {
                            assert(went_in[i] == earlier[i]);
                            assert(before.per_order_profits.skip(id_base)[i] == (
                                orders[earlier[i].0 as int].id,
                                earlier[i].1,
                            ));
                        }
                    }
                }
                let sum = start.total_profit + profit_sum(earlier);
                vstd::arithmetic::div_mod::lemma_add_mod_noop_right(
                    coinbase_profit.value() as int,
                    sum as int,
                    two_to_256() as int,
                );
                assert((coinbase_profit.value() + sum as int) % (two_to_256() as int) == (
                coinbase_profit.value() + (sum as int % two_to_256() as int)) % (
                two_to_256() as int));
            },
            CommitOutcome::Failed { nonce_too_high } => {},
        }
    }
}

/// A sequence from a place on, turned round, repeats no order where the sequence repeats none, and
/// holds only its orders.
proof fn lemma_turned_round(sequence: Seq<usize>, from: int)
    requires
        0 <= from <= sequence.len(),
    ensures
        sequence.no_duplicates() ==> sequence.skip(from).reverse().no_duplicates(),
        forall|x: usize| #[trigger]
            sequence.skip(from).reverse().contains(x) ==> sequence.contains(x),
{
    let rest = sequence.skip(from);
    let turned = rest.reverse();
    assert forall|x: usize| #[trigger] turned.contains(x) implies sequence.contains(x) by {
        let i = choose|i: int| 0 <= i < turned.len() && turned[i] == x;
        assert(sequence[from + (rest.len() - 1 - i)] == x);
    }
    if sequence.no_duplicates() {
        assert forall|i: int, j: int| 0 <= i < turned.len() && 0 <= j < turned.len() && i
            != j implies turned[i] != turned[j] by {
            assert(turned[i] == sequence[from + (rest.len() - 1 - i)]);
            assert(turned[j] == sequence[from + (rest.len() - 1 - j)]);
        }
    }
}

/// What processing a sequence gives begins with what went in before. Behind that come only orders
/// of the sequence, and none of them twice where the sequence repeats none; and the total profit
/// is that from before plus the profits of these orders, up to wrapping around.
pub proof fn law_processed_sequence_repeats_no_order<C: OrderCommitter>(
    orders: Seq<Arc<SimulatedOrder>>,
    sequence: Seq<usize>,
    cached: Option<&CachedSimulationState>,
    from: int,
    tries: Seq<usize>,
    outcomes: Seq<CommitOutcome>,
    states: Seq<C>,
    result: ProcessedSequence,
)
    requires
        0 <= from <= sequence.len(),
        sequence.no_duplicates(),
        is_run(
            start_of(orders, sequence, cached, from),
            orders,
            tries,
            outcomes,
            states,
            Ok(result),
        ),
    ensures
        ({
            let start = start_of(orders, sequence, cached, from);
            let base = start.sequenced.len() as int;
            let all = result.resolution.sequence_of_orders@;
            let used = orders_after(all, base);
            &&& base <= all.len()
            &&& all.take(base) == start.sequenced
            &&& used.no_duplicates()
            &&& forall|x: usize| #[trigger] used.contains(x) ==> sequence.contains(x)
            &&& result.resolution.total_profit.value() == (start.total_profit + profit_sum(
                all.skip(base),
            )) % two_to_256()
        }),
{
    let start = start_of(orders, sequence, cached, from);
    lemma_turned_round(sequence, from);
    assert(is_result_of(result, start.after_all(orders, outcomes)));
    law_no_order_goes_in_twice(start, orders, outcomes);
    match cached {
        Some(state) => {
            lemma_value_bound(state.total_profit);
        },
        None => {
            assert(0 < two_to_256()) by (nonlinear_arith);
        },
    }
    law_profits_add_up(start, orders, outcomes);
}

/// Where the committer, as it is given, says that the work is to be given up, a run that has an
/// order to try is given up: nothing is tried, and the committer stays as it is.
pub proof fn law_cancelled_work_is_given_up<C: OrderCommitter>(
    start: RunState,
    orders: Seq<Arc<SimulatedOrder>>,
    tries: Seq<usize>,
    outcomes: Seq<CommitOutcome>,
    states: Seq<C>,
    r: Result<ProcessedSequence, ProcessError<C::Error>>,
)
    requires
        is_run(start, orders, tries, outcomes, states, r),
        start.remaining.len() > 0,
        !says_cancelled(states[0], false),
    ensures
        r == Err::<ProcessedSequence, ProcessError<C::Error>>(ProcessError::Cancelled),
        tries.len() == 0,
        states.last() == states[0],
{
    assert(at(0));
}

/// An order is tried only while the committer says that the work is not to be given up, and each
/// order is tried when it is the next one. Where the work was given up, the committer said so
/// before an order that was still to be tried.
pub proof fn law_nothing_is_tried_once_the_work_is_given_up<C: OrderCommitter>(
    start: RunState,
    orders: Seq<Arc<SimulatedOrder>>,
    tries: Seq<usize>,
    outcomes: Seq<CommitOutcome>,
    states: Seq<C>,
    r: Result<ProcessedSequence, ProcessError<C::Error>>,
    k: int,
)
    requires
        is_run(start, orders, tries, outcomes, states, r),
    ensures
        0 <= k < tries.len() ==> call_ensures(C::is_cancelled, (&states[k],), false),
        0 <= k < tries.len() ==> start.after_all(orders, outcomes.take(k)).remaining.len() > 0
            && tries[k] == start.after_all(orders, outcomes.take(k)).remaining.last(),
        states.len() == tries.len() + 1,
        r is Ok ==> tries.len() == outcomes.len() && start.after_all(
            orders,
            outcomes,
        ).remaining.len() == 0,
        r matches Err(ProcessError::Cancelled) ==> tries.len() == outcomes.len() && call_ensures(
            C::is_cancelled,
            (&states.last(),),
            true,
        ),
        r matches Err(ProcessError::Commit(_)) ==> tries.len() == outcomes.len() + 1,
{
    if 0 <= k < tries.len() {
        assert(at(k));
        if k < outcomes.len() {
            assert(start.after_all(orders, outcomes.take(k)).remaining.len() > 0);
        } else {
            assert(outcomes.take(k) =~= outcomes);
        }
    }
}

/// What is kept of a run says the same as its result: the same total, and behind what went in
/// before the identifier and the profit of each order that went in, in the same order.
pub proof fn law_what_is_kept_agrees_with_the_result<C: OrderCommitter>(
    orders: Seq<Arc<SimulatedOrder>>,
    sequence: Seq<usize>,
    cached: Option<&CachedSimulationState>,
    from: int,
    tries: Seq<usize>,
    outcomes: Seq<CommitOutcome>,
    states: Seq<C>,
    result: ProcessedSequence,
)
    requires
        is_run(
            start_of(orders, sequence, cached, from),
            orders,
            tries,
            outcomes,
            states,
            Ok(result),
        ),
    ensures
        ({
            let start = start_of(orders, sequence, cached, from);
            let went_in = result.resolution.sequence_of_orders@.skip(start.sequenced.len() as int);
            let kept = result.state.per_order_profits@;
            let before = match cached {
                Some(state) => state.per_order_profits@,
                None => Seq::empty(),
            };
            &&& result.state.total_profit.value() == result.resolution.total_profit.value()
            &&& kept.len() == before.len() + went_in.len()
            &&& kept.take(before.len() as int) == before
            &&& forall|i: int|
                0 <= i < went_in.len() ==> kept[before.len() + i] == (
                    orders[(#[trigger] went_in[i]).0 as int].id,
                    went_in[i].1,
                )
        }),
{
    let start = start_of(orders, sequence, cached, from);
    let end = start.after_all(orders, outcomes);
    assert(is_result_of(result, end));
    match cached {
        Some(state) => {
            lemma_value_bound(state.total_profit);
        },
        None => {
            assert(0 < two_to_256()) by (nonlinear_arith);
        },
    }
    law_profits_add_up(start, orders, outcomes);
    lemma_kept_before(start, orders, outcomes);
    let base = start.per_order_profits.len() as int;
    let went_in = end.sequenced.skip(start.sequenced.len() as int);
    let recorded = end.per_order_profits.skip(base);
    let expected = Seq::new(
        went_in.len(),
        |i: int| (orders[went_in[i].0 as int].id, went_in[i].1),
    );
    assert(recorded == expected);
    assert(recorded.len() == went_in.len());
    assert forall|i: int| 0 <= i < went_in.len() implies end.per_order_profits[base + i] == (
        orders[(#[trigger] went_in[i]).0 as int].id,
        went_in[i].1,
    ) by {
        assert(recorded[i] == expected[i]);
    }
}

proof fn lemma_kept_before(
    start: RunState,
    orders: Seq<Arc<SimulatedOrder>>,
    outcomes: Seq<CommitOutcome>,
)
    ensures
        ({
            let end = start.after_all(orders, outcomes);
            let base = start.per_order_profits.len() as int;
            base <= end.per_order_profits.len() && end.per_order_profits.take(base)
                == start.per_order_profits
        }),
    decreases outcomes.len(),
{
    let base = start.per_order_profits.len() as int;
    if outcomes.len() == 0 {
        assert(start.per_order_profits.take(base) =~= start.per_order_profits);
    } else {
        lemma_kept_before(start, orders, outcomes.drop_last());
        let before = start.after_all(orders, outcomes.drop_last());
        let end = start.after_all(orders, outcomes);
        assert(end.per_order_profits.take(base) =~= before.per_order_profits.take(base));
    }
}

/// The identifiers of a sequence are those of its orders, place by place.
pub proof fn law_identifiers_stand_as_their_orders(
    orders: Seq<Arc<SimulatedOrder>>,
    sequence: Seq<usize>,
    i: int,
)
    requires
        0 <= i < sequence.len(),
    ensures
        ids_of(orders, sequence).len() == sequence.len(),
        ids_of(orders, sequence)[i] == orders[sequence[i] as int].id,
{
}

} // verus!
