//! How long an order waits for a nonce, and in which turn orders are tried.
use std::sync::Arc;
use vstd::prelude::*;

use crate::hash_maps::{
    address_key, hash_key, nonce_key, number_key, order_key, storage_key, MapKey,
};
use crate::orderings::all_below;
use crate::sequencing::{
    known_profits, order_position, released, start_of, CachedSimulationState, CommitOutcome,
    RunState,
};
use crate::types::{two_to_256, Address, OrderId, SimulatedOrder, B256, U256};

verus! {

/// Whatever is looked up in a map has a key of its own: two accounts, nonces, slots, orders, hashes
/// or numbers have the same key only where they are the same.
pub proof fn law_keys_differ(
    a: Address,
    b: Address,
    m: u64,
    n: u64,
    i: U256,
    j: U256,
    first: OrderId,
    second: OrderId,
    g: B256,
    h: B256,
)
    ensures
        address_key(a) == address_key(b) ==> a == b,
        nonce_key(a, m) == nonce_key(b, n) ==> a == b && m == n,
        storage_key(a, i) == storage_key(b, j) ==> a == b && i == j,
        order_key(first) == order_key(second) ==> first == second,
        hash_key(g) == hash_key(h) ==> g == h,
        number_key(m) == number_key(n) ==> m == n,
{
}

/// The key is that of one of the first `k` nonces.
spec fn is_reached(nonces: Seq<(Address, u64)>, k: int, key: MapKey) -> bool {
    exists|i: int| 0 <= i < k && key == nonce_key((#[trigger] nonces[i]).0, nonces[i].1)
}

/// The value stands at `base` or behind it.
#[verifier::opaque]
spec fn stands_behind(r: Seq<usize>, base: int, value: usize) -> bool {
    exists|x: int| base <= x < r.len() && r[x] == value
}

/// The value waited for one of the first `k` nonces.
#[verifier::opaque]
spec fn waited(
    pending: Map<MapKey, usize>,
    nonces: Seq<(Address, u64)>,
    k: int,
    value: usize,
) -> bool {
    exists|key: MapKey| #[trigger]
        pending.contains_key(key) && is_reached(nonces, k, key) && pending[key] == value
}

/// What is told of releasing the orders that wait for the first `k` nonces.
spec fn is_release(
    remaining: Seq<usize>,
    pending: Map<MapKey, usize>,
    nonces: Seq<(Address, u64)>,
    k: int,
    r: Seq<usize>,
    p: Map<MapKey, usize>,
) -> bool {
    let base = remaining.len() as int;
    &&& base <= r.len()
    &&& forall|i: int| 0 <= i < base ==> r[i] == remaining[i]
    &&& forall|key: MapKey| #[trigger]
        p.contains_key(key) <==> pending.contains_key(key) && !is_reached(nonces, k, key)
    &&& forall|key: MapKey| #[trigger] p.contains_key(key) ==> p[key] == pending[key]
    &&& forall|key: MapKey| #[trigger]
        pending.contains_key(key) && is_reached(nonces, k, key) ==> stands_behind(
            r,
            base,
            pending[key],
        )
    &&& forall|x: int| base <= x < r.len() ==> waited(pending, nonces, k, #[trigger] r[x])
}

proof fn lemma_release(
    remaining: Seq<usize>,
    pending: Map<MapKey, usize>,
    nonces: Seq<(Address, u64)>,
    k: int,
)
    requires
        0 <= k <= nonces.len(),
    ensures
        is_release(
            remaining,
            pending,
            nonces,
            k,
            released(remaining, pending, nonces, k).0,
            released(remaining, pending, nonces, k).1,
        ),
    decreases k,
{
    let r = released(remaining, pending, nonces, k).0;
    let p = released(remaining, pending, nonces, k).1;
    let base = remaining.len() as int;
    if k > 0 {
        lemma_release(remaining, pending, nonces, k - 1);
        let s = released(remaining, pending, nonces, k - 1).0;
        let q = released(remaining, pending, nonces, k - 1).1;
        let last = nonce_key(nonces[k - 1].0, nonces[k - 1].1);
        assert forall|key: MapKey| #[trigger] is_reached(nonces, k, key) <==> is_reached(
            nonces,
            k - 1,
            key,
        ) || key == last by {
            if is_reached(nonces, k - 1, key) {
                let i = choose|i: int|
                    0 <= i < k - 1 && key == nonce_key((#[trigger] nonces[i]).0, nonces[i].1);
                assert(nonces[i] == nonces[i]);
            }
            if key == last {
                assert(nonces[k - 1] == nonces[k - 1]);
            }
        }
        assert forall|key: MapKey| #[trigger] p.contains_key(key) <==> pending.contains_key(key)
            && !is_reached(nonces, k, key) by {
            assert(q.contains_key(key) <==> pending.contains_key(key) && !is_reached(
                nonces,
                k - 1,
                key,
            ));
        }
        assert forall|key: MapKey| #[trigger] p.contains_key(key) implies p[key]
            == pending[key] by {
            assert(q.contains_key(key));
        }
        assert forall|key: MapKey| #[trigger]
            pending.contains_key(key) && is_reached(nonces, k, key) implies stands_behind(
            r,
            base,
            pending[key],
        ) by {
            reveal(stands_behind);
            if is_reached(nonces, k - 1, key) {
                assert(stands_behind(s, base, pending[key]));
                let x = choose|x: int| base <= x < s.len() && s[x] == pending[key];
                assert(r[x] == pending[key]);
            } else {
                assert(q.contains_key(key));
                assert(r[r.len() - 1] == pending[key]);
            }
        }
        assert forall|x: int| base <= x < r.len() implies waited(
            pending,
            nonces,
            k,
            #[trigger] r[x],
        ) by {
            reveal(waited);
            if x < s.len() {
                assert(waited(pending, nonces, k - 1, s[x]));
                let key = choose|key: MapKey| #[trigger]
                    pending.contains_key(key) && is_reached(nonces, k - 1, key) && pending[key]
                        == s[x];
                assert(is_reached(nonces, k, key));
            } else {
                assert(q.contains_key(last));
                assert(pending.contains_key(last) && is_reached(nonces, k, last));
            }
        }
    }
}

/// After a commit no order is left waiting for any of the nonces that it updated: each order that
/// waited for one of them is among those to be tried, and its turn comes before that of the orders
/// that were to be tried anyway.
pub proof fn law_a_commit_releases_all_that_waited(
    state: RunState,
    order: usize,
    id: OrderId,
    nonces: Seq<(Address, u64)>,
    profit: U256,
)
    ensures
        forall|i: int|
            #![trigger nonces[i]]
            0 <= i < nonces.len() ==> !state.after_commit(
                order,
                id,
                nonces,
                profit,
            ).pending.contains_key(nonce_key(nonces[i].0, nonces[i].1)),
        forall|i: int|
            #![trigger nonces[i]]
            0 <= i < nonces.len() && state.pending.contains_key(
                nonce_key(nonces[i].0, nonces[i].1),
            ) ==> state.after_commit(order, id, nonces, profit).remaining.skip(
                state.remaining.len() as int,
            ).contains(state.pending[nonce_key(nonces[i].0, nonces[i].1)]),
{
    let after = state.after_commit(order, id, nonces, profit);
    let base = state.remaining.len() as int;
    let count = nonces.len() as int;
    lemma_release(state.remaining, state.pending, nonces, count);
    assert forall|i: int| #![trigger nonces[i]] 0 <= i < nonces.len() implies is_reached(
        nonces,
        count,
        nonce_key(nonces[i].0, nonces[i].1),
    ) by {}
    assert forall|i: int|
        #![trigger nonces[i]]
        0 <= i < nonces.len() && state.pending.contains_key(
            nonce_key(nonces[i].0, nonces[i].1),
        ) implies after.remaining.skip(base).contains(
        state.pending[nonce_key(nonces[i].0, nonces[i].1)],
    ) by {
        reveal(stands_behind);
        let value = state.pending[nonce_key(nonces[i].0, nonces[i].1)];
        assert(stands_behind(after.remaining, base, value));
        let x = choose|x: int| base <= x < after.remaining.len() && after.remaining[x] == value;
        assert(after.remaining.skip(base)[x - base] == value);
    }
}

/// A commit leaves the orders that were to be tried in their turn, and every other order that is to
/// be tried then waited for one of the nonces that it updated.
pub proof fn law_a_commit_releases_nothing_else(
    state: RunState,
    order: usize,
    id: OrderId,
    nonces: Seq<(Address, u64)>,
    profit: U256,
    x: int,
)
    requires
        0 <= x < state.after_commit(order, id, nonces, profit).remaining.len(),
    ensures
        state.after_commit(order, id, nonces, profit).remaining.len() >= state.remaining.len(),
        x < state.remaining.len() ==> state.after_commit(order, id, nonces, profit).remaining[x]
            == state.remaining[x],
        x >= state.remaining.len() ==> exists|i: int|
            {
                &&& 0 <= i < nonces.len()
                &&& state.pending.contains_key(nonce_key((#[trigger] nonces[i]).0, nonces[i].1))
                &&& state.pending[nonce_key(nonces[i].0, nonces[i].1)] == state.after_commit(
                    order,
                    id,
                    nonces,
                    profit,
                ).remaining[x]
            },
{
    let after = state.after_commit(order, id, nonces, profit);
    let count = nonces.len() as int;
    lemma_release(state.remaining, state.pending, nonces, count);
    if x >= state.remaining.len() {
        reveal(waited);
        assert(waited(state.pending, nonces, count, after.remaining[x]));
        let key = choose|key: MapKey| #[trigger]
            state.pending.contains_key(key) && is_reached(nonces, count, key)
                && state.pending[key] == after.remaining[x];
        let i = choose|i: int|
            0 <= i < count && key == nonce_key((#[trigger] nonces[i]).0, nonces[i].1);
        assert(nonces[i] == nonces[i]);
    }
}

/// Whoever waits for a nonce that a commit did not update waits for it afterwards too, and nobody
/// begins to wait.
pub proof fn law_a_commit_leaves_the_others_waiting(
    state: RunState,
    order: usize,
    id: OrderId,
    nonces: Seq<(Address, u64)>,
    profit: U256,
    address: Address,
    nonce: u64,
)
    requires
        !nonces.contains((address, nonce)),
    ensures
        state.after_commit(order, id, nonces, profit).pending.contains_key(
            nonce_key(address, nonce),
        ) == state.pending.contains_key(nonce_key(address, nonce)),
        state.pending.contains_key(nonce_key(address, nonce)) ==> state.after_commit(
            order,
            id,
            nonces,
            profit,
        ).pending[nonce_key(address, nonce)] == state.pending[nonce_key(address, nonce)],
{
    let count = nonces.len() as int;
    let key = nonce_key(address, nonce);
    lemma_release(state.remaining, state.pending, nonces, count);
    if is_reached(nonces, count, key) {
        let i = choose|i: int|
            0 <= i < count && key == nonce_key((#[trigger] nonces[i]).0, nonces[i].1);
        assert(nonces[i] == (address, nonce));
    }
    assert(state.after_commit(order, id, nonces, profit).pending.contains_key(key)
        <==> state.pending.contains_key(key));
}

/// The outcome says that the nonce of the account has been updated.
pub open spec fn updates(outcome: CommitOutcome, address: Address, nonce: u64) -> bool {
    match outcome {
        CommitOutcome::Committed { nonces_updated, coinbase_profit } => nonces_updated@.contains(
            (address, nonce),
        ),
        CommitOutcome::Failed { nonce_too_high } => false,
    }
}

/// The outcome says that the order has to wait for the nonce of the account.
pub open spec fn demands(outcome: CommitOutcome, address: Address, nonce: u64) -> bool {
    match outcome {
        CommitOutcome::Committed { nonces_updated, coinbase_profit } => false,
        CommitOutcome::Failed { nonce_too_high } => nonce_too_high == Some((address, nonce)),
    }
}

/// What one try does to those that wait for a nonce.
proof fn lemma_one_try(
    state: RunState,
    orders: Seq<Arc<SimulatedOrder>>,
    outcome: CommitOutcome,
    address: Address,
    nonce: u64,
)
    ensures
        ({
            let key = nonce_key(address, nonce);
            let after = state.after(orders, outcome);
            if demands(outcome, address, nonce) {
                after.pending.contains_key(key) && after.pending[key] == state.remaining.last()
            } else if updates(outcome, address, nonce) {
                !after.pending.contains_key(key)
            } else {
                &&& after.pending.contains_key(key) == state.pending.contains_key(key)
                &&& state.pending.contains_key(key) ==> after.pending[key] == state.pending[key]
            }
        }),
{
    let key = nonce_key(address, nonce);
    match outcome {
        CommitOutcome::Committed { nonces_updated, coinbase_profit } => {
            let order = state.remaining.last();
            let id = orders[order as int].id;
            if nonces_updated@.contains((address, nonce)) {
                law_a_commit_releases_all_that_waited(
                    state.taken(),
                    order,
                    id,
                    nonces_updated@,
                    coinbase_profit,
                );
                let i = choose|i: int|
                    0 <= i < nonces_updated@.len() && nonces_updated@[i] == (address, nonce);
                assert(nonces_updated@[i].0 == address && nonces_updated@[i].1 == nonce);
            } else {
                law_a_commit_leaves_the_others_waiting(
                    state.taken(),
                    order,
                    id,
                    nonces_updated@,
                    coinbase_profit,
                    address,
                    nonce,
                );
            }
        },
        CommitOutcome::Failed { nonce_too_high } => {
            if let Some(other) = nonce_too_high {
                if other != (address, nonce) {
                    assert(nonce_key(other.0, other.1) != key);
                }
            }
        },
    }
}

/// At the end of a run an order waits for a nonce only where it began to wait after every commit
/// that updated the nonce.
pub proof fn law_nobody_waits_for_an_updated_nonce(
    start: RunState,
    orders: Seq<Arc<SimulatedOrder>>,
    outcomes: Seq<CommitOutcome>,
    j: int,
    address: Address,
    nonce: u64,
)
    requires
        0 <= j < outcomes.len(),
        updates(outcomes[j], address, nonce),
        start.after_all(orders, outcomes).pending.contains_key(nonce_key(address, nonce)),
    ensures
        exists|m: int| j < m < outcomes.len() && demands(#[trigger] outcomes[m], address, nonce),
    decreases outcomes.len(),
{
    let before = outcomes.drop_last();
    let last = outcomes.len() - 1;
    lemma_one_try(start.after_all(orders, before), orders, outcomes.last(), address, nonce);
    if demands(outcomes[last], address, nonce) {
        assert(j != last);
    } else {
        assert(before[j] == outcomes[j]);
        law_nobody_waits_for_an_updated_nonce(start, orders, before, j, address, nonce);
        let m = choose|m: int|
            j < m < before.len() && demands(#[trigger] before[m], address, nonce);
        assert(demands(outcomes[m], address, nonce));
    }
}

/// An order whose nonce was too high waits for that nonce until a commit updates it, or another
/// order comes to wait in its place.
pub proof fn law_an_order_waits_until_its_nonce_is_updated(
    start: RunState,
    orders: Seq<Arc<SimulatedOrder>>,
    outcomes: Seq<CommitOutcome>,
    m: int,
    address: Address,
    nonce: u64,
)
    requires
        0 <= m < outcomes.len(),
        demands(outcomes[m], address, nonce),
        forall|j: int|
            m < j < outcomes.len() ==> !updates(#[trigger] outcomes[j], address, nonce)
                && !demands(outcomes[j], address, nonce),
    ensures
        start.after_all(orders, outcomes).pending.contains_key(nonce_key(address, nonce)),
        start.after_all(orders, outcomes).pending[nonce_key(address, nonce)] == start.after_all(
            orders,
            outcomes.take(m),
        ).remaining.last(),
    decreases outcomes.len(),
{
    let before = outcomes.drop_last();
    let last = outcomes.len() - 1;
    lemma_one_try(start.after_all(orders, before), orders, outcomes.last(), address, nonce);
    if m == last {
        assert(outcomes.take(m) =~= before);
    } else {
        assert(before[m] == outcomes[m]);
        assert forall|j: int| m < j < before.len() implies !updates(
            #[trigger] before[j],
            address,
            nonce,
        ) && !demands(before[j], address, nonce) by {
            assert(before[j] == outcomes[j]);
        }
        law_an_order_waits_until_its_nonce_is_updated(start, orders, before, m, address, nonce);
        assert(before.take(m) =~= outcomes.take(m));
        assert(outcomes[last] == outcomes.last());
    }
}

/// No order had to wait.
pub open spec fn none_waits(outcomes: Seq<CommitOutcome>) -> bool {
    forall|k: int, nonce: (Address, u64)|
        0 <= k < outcomes.len() ==> !#[trigger] demands(outcomes[k], nonce.0, nonce.1)
}

proof fn lemma_nothing_to_release(
    remaining: Seq<usize>,
    pending: Map<MapKey, usize>,
    nonces: Seq<(Address, u64)>,
    k: int,
)
    requires
        pending == Map::<MapKey, usize>::empty(),
    ensures
        released(remaining, pending, nonces, k) == (remaining, pending),
    decreases k,
{
    if k > 0 {
        lemma_nothing_to_release(remaining, pending, nonces, k - 1);
    }
}

/// As long as no order has to wait, the orders of the sequence are tried one after the other, from
/// the place where the run begins.
pub proof fn law_orders_are_tried_in_turn(
    orders: Seq<Arc<SimulatedOrder>>,
    sequence: Seq<usize>,
    cached: Option<&CachedSimulationState>,
    from: int,
    outcomes: Seq<CommitOutcome>,
)
    requires
        0 <= from,
        from + outcomes.len() <= sequence.len(),
        none_waits(outcomes),
    ensures
        ({
            let state = start_of(orders, sequence, cached, from).after_all(orders, outcomes);
            let tried = from + outcomes.len();
            &&& state.remaining.len() == sequence.len() - tried
            &&& forall|i: int|
                0 <= i < state.remaining.len() ==> #[trigger] state.remaining[i]
                    == sequence[sequence.len() - 1 - i]
            &&& tried < sequence.len() ==> state.remaining.last() == sequence[tried]
            &&& state.pending == Map::<MapKey, usize>::empty()
        }),
    decreases outcomes.len(),
{
    if outcomes.len() > 0 {
        let before = outcomes.drop_last();
        assert forall|k: int, nonce: (Address, u64)|
            0 <= k < before.len() implies !#[trigger] demands(before[k], nonce.0, nonce.1) by {
            assert(!demands(outcomes[k], nonce.0, nonce.1));
        }
        law_orders_are_tried_in_turn(orders, sequence, cached, from, before);
        let state = start_of(orders, sequence, cached, from).after_all(orders, before);
        match outcomes.last() {
            CommitOutcome::Committed { nonces_updated, coinbase_profit } => {
                lemma_nothing_to_release(
                    state.remaining.drop_last(),
                    state.pending,
                    nonces_updated@,
                    nonces_updated@.len() as int,
                );
            },
            CommitOutcome::Failed { nonce_too_high } => {
                if let Some(nonce) = nonce_too_high {
                    assert(demands(outcomes[outcomes.len() - 1], nonce.0, nonce.1));
                }
            },
        }
    }
}

/// No two orders have the same identifier.
pub open spec fn ids_differ(orders: Seq<Arc<SimulatedOrder>>) -> bool {
    forall|a: int, b: int|
        0 <= a < b < orders.len() ==> (#[trigger] orders[a]).id != (#[trigger] orders[b]).id
}

proof fn lemma_position(orders: Seq<Arc<SimulatedOrder>>, i: int)
    requires
        0 <= i < orders.len(),
        ids_differ(orders),
    ensures
        order_position(orders, orders[i].id) == Some(i),
    decreases orders.len(),
{
    if i < orders.len() - 1 {
        let fewer = orders.drop_last();
        assert(orders[i].id != orders[orders.len() - 1].id);
        assert(fewer[i] == orders[i]);
        lemma_position(fewer, i);
    }
}

proof fn lemma_no_position(orders: Seq<Arc<SimulatedOrder>>, id: OrderId)
    requires
        forall|i: int| 0 <= i < orders.len() ==> (#[trigger] orders[i]).id != id,
    ensures
        order_position(orders, id) is None,
    decreases orders.len(),
{
    if orders.len() > 0 {
        let fewer = orders.drop_last();
        assert(orders[orders.len() - 1].id != id);
        assert forall|i: int| 0 <= i < fewer.len() implies (#[trigger] fewer[i]).id != id by {
            assert(fewer[i] == orders[i]);
        }
        lemma_no_position(fewer, id);
    }
}

/// What went in before is taken over order by order: an entry of an order that the task has becomes
/// an entry of that order's position, with the same profit, and one of any other order is passed
/// over.
pub proof fn law_earlier_profits_are_taken_over(
    orders: Seq<Arc<SimulatedOrder>>,
    profits: Seq<(OrderId, U256)>,
    id: OrderId,
    profit: U256,
    i: usize,
)
    ensures
        known_profits(orders, Seq::empty()).len() == 0,
        order_position(orders, id) == Some(i as int) ==> known_profits(
            orders,
            profits.push((id, profit)),
        ) == known_profits(orders, profits).push((i, profit)),
        ids_differ(orders) && (i as int) < orders.len() && orders[i as int].id == id
            ==> known_profits(
            orders,
            profits.push((id, profit)),
        ) == known_profits(orders, profits).push((i, profit)),
        (forall|k: int| 0 <= k < orders.len() ==> (#[trigger] orders[k]).id != id)
            ==> known_profits(orders, profits.push((id, profit))) == known_profits(orders, profits),
{
    assert(profits.push((id, profit)).drop_last() =~= profits);
    if ids_differ(orders) && (i as int) < orders.len() && orders[i as int].id == id {
        lemma_position(orders, i as int);
    }
    if forall|k: int| 0 <= k < orders.len() ==> (#[trigger] orders[k]).id != id {
        lemma_no_position(orders, id);
    }
}

/// A run can be resumed: where the first orders of a sequence were run before and what came of that
/// was kept, a run from there on begins in the very state that the earlier run ended in.
pub proof fn law_a_run_can_be_resumed(
    orders: Seq<Arc<SimulatedOrder>>,
    sequence: Seq<usize>,
    outcomes: Seq<CommitOutcome>,
    kept: CachedSimulationState,
)
    requires
        ids_differ(orders),
        all_below(sequence, orders.len() as int),
        outcomes.len() <= sequence.len(),
        none_waits(outcomes),
        ({
            let end = start_of(orders, sequence, None, 0).after_all(orders, outcomes);
            &&& kept.total_profit.value() == end.total_profit
            &&& kept.per_order_profits@ == end.per_order_profits
        }),
    ensures
        start_of(orders, sequence, Some(&kept), outcomes.len() as int) == start_of(
            orders,
            sequence,
            None,
            0,
        ).after_all(orders, outcomes),
{
    let end = start_of(orders, sequence, None, 0).after_all(orders, outcomes);
    law_orders_are_tried_in_turn(orders, sequence, None, 0, outcomes);
    lemma_profits_by_position(orders, sequence, outcomes);
    let resumed = start_of(orders, sequence, Some(&kept), outcomes.len() as int);
    assert(resumed.remaining =~= end.remaining);
    assert(resumed =~= end);
}

proof fn lemma_profits_by_position(
    orders: Seq<Arc<SimulatedOrder>>,
    sequence: Seq<usize>,
    outcomes: Seq<CommitOutcome>,
)
    requires
        ids_differ(orders),
        all_below(sequence, orders.len() as int),
        outcomes.len() <= sequence.len(),
        none_waits(outcomes),
    ensures
        ({
            let end = start_of(orders, sequence, None, 0).after_all(orders, outcomes);
            end.sequenced == known_profits(orders, end.per_order_profits)
        }),
    decreases outcomes.len(),
{
    if outcomes.len() > 0 {
        let before = outcomes.drop_last();
        assert forall|k: int, nonce: (Address, u64)|
            0 <= k < before.len() implies !#[trigger] demands(before[k], nonce.0, nonce.1) by {
            assert(!demands(outcomes[k], nonce.0, nonce.1));
        }
        law_orders_are_tried_in_turn(orders, sequence, None, 0, before);
        lemma_profits_by_position(orders, sequence, before);
        let state = start_of(orders, sequence, None, 0).after_all(orders, before);
        let order = state.remaining.last();
        assert(order == sequence[before.len() as int]);
        if let CommitOutcome::Committed { nonces_updated, coinbase_profit } = outcomes.last() {
            law_earlier_profits_are_taken_over(
                orders,
                state.per_order_profits,
                orders[order as int].id,
                coinbase_profit,
                order,
            );
        }
    }
}

/// The orders that a commit releases stand as the nonces do: one more nonce puts the order that
/// still waits for it behind all others, where its turn comes first, and no nonce changes nothing.
pub proof fn law_released_orders_stand_as_the_nonces(
    state: RunState,
    order: usize,
    id: OrderId,
    nonces: Seq<(Address, u64)>,
    profit: U256,
    next: (Address, u64),
)
    ensures
        ({
            let before = state.after_commit(order, id, nonces, profit);
            let after = state.after_commit(order, id, nonces.push(next), profit);
            let key = nonce_key(next.0, next.1);
            if before.pending.contains_key(key) {
                &&& after.remaining == before.remaining.push(before.pending[key])
                &&& after.pending == before.pending.remove(key)
            } else {
                &&& after.remaining == before.remaining
                &&& after.pending == before.pending
            }
        }),
        state.after_commit(order, id, Seq::empty(), profit).remaining == state.remaining,
        state.after_commit(order, id, Seq::empty(), profit).pending == state.pending,
{
    lemma_first_nonces(state.remaining, state.pending, nonces, next, nonces.len() as int);
}

proof fn lemma_first_nonces(
    remaining: Seq<usize>,
    pending: Map<MapKey, usize>,
    nonces: Seq<(Address, u64)>,
    next: (Address, u64),
    k: int,
)
    requires
        0 <= k <= nonces.len(),
    ensures
        released(remaining, pending, nonces.push(next), k) == released(
            remaining,
            pending,
            nonces,
            k,
        ),
    decreases k,
{
    if k > 0 {
        lemma_first_nonces(remaining, pending, nonces, next, k - 1);
        assert(nonces.push(next)[k - 1] == nonces[k - 1]);
    }
}

/// An order that fails is tried no more for now, and nothing of what went in changes. Where its
/// nonce was too high it waits for that nonce, in the place of whoever waited for it; the others
/// wait on.
pub proof fn law_a_failed_order_waits_or_is_dropped(
    state: RunState,
    orders: Seq<Arc<SimulatedOrder>>,
    nonce: (Address, u64),
    key: MapKey,
)
    ensures
        ({
            let dropped = state.after(orders, CommitOutcome::Failed { nonce_too_high: None });
            let waiting = state.after(
                orders,
                CommitOutcome::Failed { nonce_too_high: Some(nonce) },
            );
            &&& dropped.remaining == state.remaining.drop_last()
            &&& dropped.pending == state.pending
            &&& waiting.remaining == state.remaining.drop_last()
            &&& waiting.pending.contains_key(nonce_key(nonce.0, nonce.1))
            &&& waiting.pending[nonce_key(nonce.0, nonce.1)] == state.remaining.last()
            &&& key != nonce_key(nonce.0, nonce.1) ==> waiting.pending.contains_key(key)
                == state.pending.contains_key(key) && waiting.pending[key] == state.pending[key]
            &&& dropped.sequenced == state.sequenced && waiting.sequenced == state.sequenced
            &&& dropped.total_profit == state.total_profit && waiting.total_profit
                == state.total_profit
            &&& dropped.per_order_profits == state.per_order_profits
            &&& waiting.per_order_profits == state.per_order_profits
        }),
{
}

/// An identifier stands for the last order that has it, and for none where no order has it.
pub proof fn law_an_identifier_stands_for_the_last_order(
    orders: Seq<Arc<SimulatedOrder>>,
    id: OrderId,
    k: int,
)
    requires
        0 <= k < orders.len(),
    ensures
        match order_position(orders, id) {
            Some(i) => 0 <= i < orders.len() && orders[i].id == id && (k > i ==> orders[k].id
                != id),
            None => orders[k].id != id,
        },
    decreases orders.len(),
{
    reveal_with_fuel(order_position, 2);
    let last = orders.len() - 1;
    if orders[last].id != id && orders.len() > 1 {
        let fewer = orders.drop_last();
        if k < last {
            law_an_identifier_stands_for_the_last_order(fewer, id, k);
            assert(fewer[k] == orders[k]);
        } else {
            law_an_identifier_stands_for_the_last_order(fewer, id, 0);
        }
        if let Some(i) = order_position(orders, id) {
            assert(fewer[i] == orders[i]);
        }
    }
}

/// An order that is committed goes in, whatever its profit: it stands behind all that went in
/// before, with its profit, its identifier is recorded with the same profit, and the total grows by
/// it, up to wrapping around.
pub proof fn law_a_committed_order_goes_in(
    state: RunState,
    orders: Seq<Arc<SimulatedOrder>>,
    outcome: CommitOutcome,
)
    requires
        outcome is Committed,
    ensures
        ({
            let after = state.after(orders, outcome);
            let order = state.remaining.last();
            let profit = outcome->coinbase_profit;
            &&& after.sequenced == state.sequenced.push((order, profit))
            &&& after.per_order_profits == state.per_order_profits.push(
                (orders[order as int].id, profit),
            )
            &&& after.total_profit == (state.total_profit + profit.value()) % two_to_256()
        }),
{
}

/// A run begins with what went in before it, or with nothing, and nobody waits.
pub proof fn law_a_run_begins_with_what_was_kept(
    orders: Seq<Arc<SimulatedOrder>>,
    sequence: Seq<usize>,
    kept: CachedSimulationState,
    from: int,
)
    ensures
        start_of(orders, sequence, None, from).total_profit == 0,
        start_of(orders, sequence, None, from).sequenced.len() == 0,
        start_of(orders, sequence, None, from).per_order_profits.len() == 0,
        start_of(orders, sequence, None, from).pending.is_empty(),
        start_of(orders, sequence, Some(&kept), from).total_profit == kept.total_profit.value(),
        start_of(orders, sequence, Some(&kept), from).per_order_profits
            == kept.per_order_profits@,
        start_of(orders, sequence, Some(&kept), from).sequenced == known_profits(
            orders,
            kept.per_order_profits@,
        ),
        start_of(orders, sequence, Some(&kept), from).pending.is_empty(),
{
}

} // verus!
