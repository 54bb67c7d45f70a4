//! What the nonces of a group's orders say about the permutations that are tried, and about the
//! graph of interactions.
use std::sync::Arc;
use vstd::prelude::*;

use crate::conflicts::in_conflict;
use crate::graph::{adjacent, is_interaction_graph};
use crate::nonces::{nonce_owner, uses_nonce, waits_for, waits_through};
use crate::orderings::{is_ordering, lemma_ordering_is_onto, less_at, lex_less};
use crate::permutations::{keeps_nonce_order, lists_nonce_orderings};
use crate::types::{Address, Nonce, SimulatedOrder};

verus! {

/// The nonce of the account stands somewhere in the order's list of nonces.
pub open spec fn has_nonce(order: Arc<SimulatedOrder>, address: Address, nonce: u64) -> bool {
    exists|p: int|
        0 <= p < order.nonces@.len() && #[trigger] order.nonces@[p] == (Nonce { address, nonce })
}

/// Order `a` has the nonce, and no later order has it; so where only one order has it, it is that
/// one.
pub open spec fn is_last_with(
    orders: Seq<Arc<SimulatedOrder>>,
    a: int,
    address: Address,
    nonce: u64,
) -> bool {
    &&& 0 <= a < orders.len()
    &&& has_nonce(orders[a], address, nonce)
    &&& forall|c: int| a < c < orders.len() ==> !has_nonce(#[trigger] orders[c], address, nonce)
}

/// Order `a` is the last one with some nonce of an account, and order `b` has the nonce after it.
pub open spec fn is_followed(orders: Seq<Arc<SimulatedOrder>>, a: int, b: int) -> bool {
    exists|address: Address, nonce: u64, next: u64|
        nonce + 1 == next && #[trigger] is_last_with(orders, a, address, nonce)
            && #[trigger] has_nonce(orders[b], address, next)
}

proof fn lemma_uses(order: Arc<SimulatedOrder>, address: Address, nonce: u64)
    ensures
        uses_nonce(order, address, nonce) == has_nonce(order, address, nonce),
{
    if uses_nonce(order, address, nonce) {
        let k = choose|k: int|
            0 <= k < order.nonces@.len() && (#[trigger] order.nonces@[k]).address == address
                && order.nonces@[k].nonce == nonce;
        assert(order.nonces@[k] == (Nonce { address, nonce }));
    }
}

proof fn lemma_owner(orders: Seq<Arc<SimulatedOrder>>, a: int, address: Address, nonce: u64)
    ensures
        nonce_owner(orders, address, nonce) == Some(a) <==> is_last_with(
            orders,
            a,
            address,
            nonce,
        ),
    decreases orders.len(),
{
    if orders.len() > 0 {
        let last = orders.len() - 1;
        let fewer = orders.drop_last();
        lemma_uses(orders.last(), address, nonce);
        lemma_owner(fewer, a, address, nonce);
        if has_nonce(orders[last], address, nonce) {
            if is_last_with(orders, a, address, nonce) && a != last {
                assert(!has_nonce(orders[last], address, nonce));
            }
        } else {
            if is_last_with(fewer, a, address, nonce) {
                assert forall|c: int| a < c < orders.len() implies !has_nonce(
                    #[trigger] orders[c],
                    address,
                    nonce,
                ) by {
                    if c < last {
                        assert(fewer[c] == orders[c]);
                    }
                }
                assert(is_last_with(orders, a, address, nonce));
            }
            if is_last_with(orders, a, address, nonce) {
                assert forall|c: int| a < c < fewer.len() implies !has_nonce(
                    #[trigger] fewer[c],
                    address,
                    nonce,
                ) by {
                    assert(fewer[c] == orders[c]);
                }
                assert(fewer[a] == orders[a]);
                assert(is_last_with(fewer, a, address, nonce));
            }
        }
    }
}

/// Order `b` waits for order `a` exactly where `a` is followed by `b`.
proof fn lemma_waiting(orders: Seq<Arc<SimulatedOrder>>, b: int, a: int)
    requires
        0 <= b < orders.len(),
    ensures
        waits_for(orders, b, a) <==> a != b && is_followed(orders, a, b),
{
    if waits_for(orders, b, a) {
        let k = choose|k: int|
            0 <= k < orders[b].nonces@.len() && #[trigger] waits_through(orders, b, a, k);
        let used = orders[b].nonces@[k];
        let nonce = (used.nonce - 1) as u64;
        lemma_owner(orders, a, used.address, nonce);
        assert(orders[b].nonces@[k] == (Nonce { address: used.address, nonce: used.nonce }));
        assert(has_nonce(orders[b], used.address, used.nonce));
        assert(is_last_with(orders, a, used.address, nonce));
    }
    if a != b && is_followed(orders, a, b) {
        let (address, nonce, next) = choose|address: Address, nonce: u64, next: u64|
            nonce + 1 == next && #[trigger] is_last_with(orders, a, address, nonce)
                && #[trigger] has_nonce(orders[b], address, next);
        lemma_owner(orders, a, address, nonce);
        let p = choose|p: int|
            0 <= p < orders[b].nonces@.len() && #[trigger] orders[b].nonces@[p] == (Nonce {
                address,
                nonce: next,
            });
        assert(waits_through(orders, b, a, p));
    }
}

/// In every permutation that is listed an order with a nonce stands before any other order with the
/// nonce after it, wherever in their lists the two orders have them; where several orders have the
/// first nonce, that is so of the last of them.
pub proof fn law_nonces_come_in_order(
    rows: Seq<Seq<usize>>,
    orders: Seq<Arc<SimulatedOrder>>,
    row: Seq<usize>,
    x: int,
    y: int,
    address: Address,
    nonce: u64,
    next: u64,
)
    requires
        lists_nonce_orderings(rows, orders),
        rows.contains(row),
        0 <= x < row.len(),
        0 <= y < row.len(),
        x != y,
        nonce + 1 == next,
        is_last_with(orders, row[x] as int, address, nonce),
        has_nonce(orders[row[y] as int], address, next),
    ensures
        x < y,
{
    assert(is_followed(orders, row[x] as int, row[y] as int));
    assert(row[x] != row[y]);
    lemma_waiting(orders, row[y] as int, row[x] as int);
    if y < x {
        assert(!waits_for(orders, row[y] as int, row[x] as int));
    }
}

/// Where only one order has a nonce, at place `p` of its list, it stands in every permutation that
/// is listed before any other order that has the next nonce of the same account, at place `q` of
/// its list.
pub proof fn law_the_only_order_with_a_nonce_comes_first(
    rows: Seq<Seq<usize>>,
    orders: Seq<Arc<SimulatedOrder>>,
    row: Seq<usize>,
    x: int,
    y: int,
    p: int,
    q: int,
)
    requires
        lists_nonce_orderings(rows, orders),
        rows.contains(row),
        0 <= x < row.len(),
        0 <= y < row.len(),
        x != y,
        0 <= p < orders[row[x] as int].nonces@.len(),
        0 <= q < orders[row[y] as int].nonces@.len(),
        orders[row[y] as int].nonces@[q].address == orders[row[x] as int].nonces@[p].address,
        orders[row[y] as int].nonces@[q].nonce == orders[row[x] as int].nonces@[p].nonce + 1,
        forall|c: int, k: int|
            0 <= c < orders.len() && c != row[x] && 0 <= k < orders[c].nonces@.len()
                ==> #[trigger] orders[c].nonces@[k] != orders[row[x] as int].nonces@[p],
    ensures
        x < y,
{
    let first = orders[row[x] as int].nonces@[p];
    let second = orders[row[y] as int].nonces@[q];
    assert((row[x] as int) < orders.len());
    assert(orders[row[x] as int].nonces@[p] == (Nonce {
        address: first.address,
        nonce: first.nonce,
    }));
    assert(has_nonce(orders[row[x] as int], first.address, first.nonce));
    assert(orders[row[y] as int].nonces@[q] == (Nonce {
        address: first.address,
        nonce: second.nonce,
    }));
    assert(has_nonce(orders[row[y] as int], first.address, second.nonce));
    assert(is_last_with(orders, row[x] as int, first.address, first.nonce));
    law_nonces_come_in_order(
        rows,
        orders,
        row,
        x,
        y,
        first.address,
        first.nonce,
        second.nonce,
    );
}

/// Every arrangement of all orders in which each order with a nonce stands before the others with
/// the nonce after it is listed.
pub proof fn law_no_permutation_is_left_out(
    rows: Seq<Seq<usize>>,
    orders: Seq<Arc<SimulatedOrder>>,
    row: Seq<usize>,
)
    requires
        lists_nonce_orderings(rows, orders),
        row.len() == orders.len(),
        row.no_duplicates(),
        forall|x: int| 0 <= x < row.len() ==> (#[trigger] row[x] as int) < orders.len(),
        forall|x: int, y: int|
            0 <= x < row.len() && 0 <= y < row.len() && x != y && is_followed(
                orders,
                #[trigger] row[x] as int,
                #[trigger] row[y] as int,
            ) ==> x < y,
    ensures
        rows.contains(row),
{
    assert(is_ordering(row, orders.len() as int));
    assert forall|i: int, j: int| 0 <= i < j < row.len() implies !waits_for(
        orders,
        #[trigger] row[i] as int,
        #[trigger] row[j] as int,
    ) by {
        lemma_waiting(orders, row[i] as int, row[j] as int);
    }
    assert(keeps_nonce_order(orders, row));
}

/// Every permutation that is listed holds each order once. They come in lexicographic order: of any
/// two of them the earlier one holds the smaller order at the first place where they differ.
pub proof fn law_permutations_are_listed_in_order(
    rows: Seq<Seq<usize>>,
    orders: Seq<Arc<SimulatedOrder>>,
    i: int,
    j: int,
    order: usize,
)
    requires
        lists_nonce_orderings(rows, orders),
        0 <= i < j < rows.len(),
        order < orders.len(),
    ensures
        rows[i].len() == orders.len(),
        rows[i].no_duplicates(),
        rows[i].contains(order),
        exists|k: int|
            0 <= k < orders.len() && rows[i].take(k) == #[trigger] rows[j].take(k) && rows[i][k]
                < rows[j][k],
{
    assert(rows.contains(rows[i]));
    assert(rows.contains(rows[j]));
    lemma_ordering_is_onto(rows[i], orders.len() as int, order);
    assert(lex_less(rows[i], rows[j]));
    let k = choose|k: int| less_at(rows[i], rows[j], k);
    assert(rows[i].take(k) =~= rows[j].take(k));
}

/// Two orders interact exactly where they are in conflict, or where one of them is the last with
/// some nonce of an account and the other has the nonce after it.
pub proof fn law_orders_interact_by_conflict_or_nonce(
    adjacency: Seq<Seq<usize>>,
    orders: Seq<Arc<SimulatedOrder>>,
    left: usize,
    right: usize,
)
    requires
        is_interaction_graph(adjacency, orders),
        left < orders.len(),
        right < orders.len(),
        left != right,
    ensures
        adjacency[left as int].contains(right) <==> {
            ||| in_conflict(orders[left as int], orders[right as int])
            ||| is_followed(orders, left as int, right as int)
            ||| is_followed(orders, right as int, left as int)
        },
        adjacency[left as int].contains(right) == adjacency[right as int].contains(left),
        !adjacency[left as int].contains(left),
{
    lemma_waiting(orders, left as int, right as int);
    lemma_waiting(orders, right as int, left as int);
    assert(adjacent(adjacency, left, right) == adjacent(adjacency, right, left));
    assert(!adjacent(adjacency, left, left));
}

} // verus!
