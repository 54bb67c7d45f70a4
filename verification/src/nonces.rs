//! Which order of a group has to wait for which, judged by the nonces that they use.
use std::sync::Arc;
use vstd::prelude::*;

use crate::hash_maps::{key_of_nonce, map_insert, map_new, nonce_key, AhashMap};
use crate::types::{Address, SimulatedOrder};

verus! {

/// The first `count` nonces of the order hold `nonce` of `address`.
pub open spec fn uses_nonce_in(
    order: Arc<SimulatedOrder>,
    address: Address,
    nonce: u64,
    count: int,
) -> bool {
    exists|k: int|
        0 <= k < count && (#[trigger] order.nonces@[k]).address == address && order.nonces@[k].nonce
            == nonce
}

/// The order uses `nonce` of `address`.
pub open spec fn uses_nonce(order: Arc<SimulatedOrder>, address: Address, nonce: u64) -> bool {
    uses_nonce_in(order, address, nonce, order.nonces@.len() as int)
}

/// The last order that uses `nonce` of `address`.
pub open spec fn nonce_owner(
    orders: Seq<Arc<SimulatedOrder>>,
    address: Address,
    nonce: u64,
) -> Option<int>
    decreases orders.len(),
{
    if orders.len() == 0 {
        None
    } else if uses_nonce(orders.last(), address, nonce) {
        Some(orders.len() - 1)
    } else {
        nonce_owner(orders.drop_last(), address, nonce)
    }
}

/// The nonce at position `k` of order `i` directly follows one that order `j` owns.
pub open spec fn waits_through(
    orders: Seq<Arc<SimulatedOrder>>,
    i: int,
    j: int,
    k: int,
) -> bool {
    let used = orders[i].nonces@[k];
    used.nonce > 0 && nonce_owner(orders, used.address, (used.nonce - 1) as u64) == Some(j)
}

/// One of the first `count` nonces of order `i` directly follows one that the other order `j`
/// owns.
pub open spec fn waits_for_in(
    orders: Seq<Arc<SimulatedOrder>>,
    i: int,
    j: int,
    count: int,
) -> bool {
    &&& i != j
    &&& exists|k: int| 0 <= k < count && #[trigger] waits_through(orders, i, j, k)
}

/// Order `i` has to wait for order `j`: one of its nonces directly follows one that the other
/// order `j` owns.
pub open spec fn waits_for(orders: Seq<Arc<SimulatedOrder>>, i: int, j: int) -> bool {
    waits_for_in(orders, i, j, orders[i].nonces@.len() as int)
}

/// The owner of a nonce is one of the orders.
pub proof fn lemma_nonce_owner_in_range(
    orders: Seq<Arc<SimulatedOrder>>,
    address: Address,
    nonce: u64,
)
    ensures
        nonce_owner(orders, address, nonce) matches Some(i) ==> 0 <= i < orders.len() && uses_nonce(
            orders[i],
            address,
            nonce,
        ),
    decreases orders.len(),
{
    if orders.len() > 0 && !uses_nonce(orders.last(), address, nonce) {
        lemma_nonce_owner_in_range(orders.drop_last(), address, nonce);
    }
}

/// What the map says of a nonce.
pub open spec fn looked_up(
    m: Map<crate::hash_maps::MapKey, usize>,
    address: Address,
    nonce: u64,
) -> Option<int> {
    if m.contains_key(nonce_key(address, nonce)) {
        Some(m[nonce_key(address, nonce)] as int)
    } else {
        None
    }
}

/// Maps each nonce to the last order that uses it.
pub(crate) fn index_nonces(orders: &[Arc<SimulatedOrder>]) -> (owners: AhashMap<usize>)
    ensures
        forall|address: Address, nonce: u64| #[trigger]
            looked_up(owners@, address, nonce) == nonce_owner(orders@, address, nonce),
{
    let mut owners: AhashMap<usize> = map_new();
    for i in 0..orders.len()
        invariant
            forall|address: Address, nonce: u64| #[trigger]
                looked_up(owners@, address, nonce) == nonce_owner(
                    orders@.take(i as int),
                    address,
                    nonce,
                ),
    {
        let order = &orders[i];
        let ghost before = owners@;
        for k in 0..order.nonces.len()
            invariant
                i < orders@.len(),
                order == orders@[i as int],
                forall|address: Address, nonce: u64| #[trigger]
                    looked_up(before, address, nonce) == nonce_owner(
                        orders@.take(i as int),
                        address,
                        nonce,
                    ),
                forall|address: Address, nonce: u64| #[trigger]
                    looked_up(owners@, address, nonce) == if uses_nonce_in(
                        *order,
                        address,
                        nonce,
                        k as int,
                    ) {
                        Some(i as int)
                    } else {
                        looked_up(before, address, nonce)
                    },
        {
            let used = order.nonces[k];
            let ghost last = owners@;
            map_insert(&mut owners, key_of_nonce(used.address, used.nonce), i);
            proof {
                assert forall|address: Address, nonce: u64| #[trigger]
                    looked_up(owners@, address, nonce) == if uses_nonce_in(
                        *order,
                        address,
                        nonce,
                        k + 1,
                    ) {
                        Some(i as int)
                    } else {
                        looked_up(before, address, nonce)
                    } by {
                    let prior = looked_up(last, address, nonce);
                    if used.address == address && used.nonce == nonce {
                        assert(order.nonces@[k as int] == used);
                        assert(uses_nonce_in(*order, address, nonce, k + 1));
                    } else {
                        assert(nonce_key(address, nonce) != nonce_key(used.address, used.nonce));
                        assert(uses_nonce_in(*order, address, nonce, k + 1) == uses_nonce_in(
                            *order,
                            address,
                            nonce,
                            k as int,
                        ));
                    }
                }
            }
        }
        proof {
            let next = orders@.take(i + 1);
            assert(next.drop_last() =~= orders@.take(i as int));
            assert(next.last() == *order);
        }
    }
    assert(orders@.take(orders@.len() as int) =~= orders@);
    owners
}

} // verus!
