//! The graph of interactions between the orders of a group, and its connected components.
use std::sync::Arc;
use vstd::prelude::*;

use crate::conflicts::{in_conflict, law_conflicts_are_mutual, orders_conflict};
use crate::hash_maps::{key_of_nonce, map_get};
use crate::nonces::{
    index_nonces, lemma_nonce_owner_in_range, looked_up, nonce_owner, waits_for, waits_for_in,
    waits_through,
};
use crate::orderings::{
    all_below, contains_index, lemma_distinct_below_len, lemma_push_contains,
    lemma_push_no_duplicates, nested,
};
use crate::sorting::{is_stable_order, picked, ranks, sort_stably};
use crate::types::SimulatedOrder;

verus! {

/// An undirected graph: for each order, the orders that it interacts with.
#[derive(Debug)]
pub struct InteractionGraph {
    pub neighbors: Vec<Vec<usize>>,
}

/// Order `right` is among the neighbours of order `left`.
pub open spec fn adjacent(adjacency: Seq<Seq<usize>>, left: usize, right: usize) -> bool {
    adjacency[left as int].contains(right)
}

/// An undirected graph over `0..n`, without loops and with no neighbour listed twice.
pub open spec fn is_graph(adjacency: Seq<Seq<usize>>, n: int) -> bool {
    &&& adjacency.len() == n
    &&& forall|u: int| 0 <= u < n ==> {
        &&& all_below(#[trigger] adjacency[u], n)
        &&& adjacency[u].no_duplicates()
        &&& !adjacency[u].contains(u as usize)
    }
    &&& forall|left: usize, right: usize|
        left < n && right < n ==> #[trigger] adjacent(adjacency, left, right) == adjacent(
            adjacency,
            right,
            left,
        )
}

/// The two orders are in conflict, or one of them has to wait for the other.
pub open spec fn interact(orders: Seq<Arc<SimulatedOrder>>, left: int, right: int) -> bool {
    ||| in_conflict(orders[left], orders[right])
    ||| waits_for(orders, left, right)
    ||| waits_for(orders, right, left)
}

/// The graph has an edge between two orders exactly when they interact.
pub open spec fn is_interaction_graph(
    adjacency: Seq<Seq<usize>>,
    orders: Seq<Arc<SimulatedOrder>>,
) -> bool {
    &&& is_graph(adjacency, orders.len() as int)
    &&& forall|left: usize, right: usize|
        left < orders.len() && right < orders.len() ==> #[trigger] adjacent(adjacency, left, right)
            == (left != right && interact(orders, left as int, right as int))
}

impl InteractionGraph {
    /// The neighbours of each order.
    pub open spec fn adjacency(self) -> Seq<Seq<usize>> {
        nested(self.neighbors@)
    }

    /// The number of orders.
    pub open spec fn order_count(self) -> int {
        self.neighbors@.len() as int
    }

    /// The neighbours form an undirected graph.
    pub open spec fn well_formed(self) -> bool {
        is_graph(self.adjacency(), self.order_count())
    }

    /// Whether the two orders interact.
    pub fn has_edge(&self, left: usize, right: usize) -> (r: bool)
        requires
            left < self.order_count(),
        ensures
            r == adjacent(self.adjacency(), left, right),
    {
        contains_index(&self.neighbors[left], right)
    }
}

/// Adds an edge between two different orders, unless it is there already.
pub fn add_interaction_edge(neighbors: &mut Vec<Vec<usize>>, left: usize, right: usize)
    requires
        is_graph(nested(old(neighbors)@), old(neighbors)@.len() as int),
        left < old(neighbors)@.len(),
        right < old(neighbors)@.len(),
        left != right,
    ensures
        final(neighbors)@.len() == old(neighbors)@.len(),
        is_graph(nested(final(neighbors)@), final(neighbors)@.len() as int),
        forall|a: usize, b: usize|
            a < old(neighbors)@.len() && b < old(neighbors)@.len() ==> #[trigger] adjacent(
                nested(final(neighbors)@),
                a,
                b,
            ) == (adjacent(nested(old(neighbors)@), a, b) || (a == left && b == right) || (a
                == right && b == left)),
{
    let ghost before = nested(neighbors@);
    let ghost n = neighbors@.len() as int;
    if !contains_index(&neighbors[left], right) {
        neighbors[left].push(right);
    }
    let ghost middle = nested(neighbors@);
    assert(middle[right as int] == before[right as int]);
    if !contains_index(&neighbors[right], left) {
        neighbors[right].push(left);
    }
    proof {
        let after = nested(neighbors@);
        assert forall|a: usize, b: usize| a < n && b < n implies #[trigger] adjacent(after, a, b)
            == (adjacent(before, a, b) || (a == left && b == right) || (a == right && b
            == left)) by {
            if a == left {
                assert(after[a as int] == middle[a as int]);
                lemma_push_contains(before[left as int], right, b);
            }
            if a == right {
                lemma_push_contains(before[right as int], left, b);
            }
            if a != left && a != right {
                assert(after[a as int] == before[a as int]);
            }
        }
        assert forall|a: usize, b: usize| a < n && b < n implies #[trigger] adjacent(after, a, b)
            == adjacent(after, b, a) by {
            assert(adjacent(before, a, b) == adjacent(before, b, a));
        }
        assert forall|u: int| 0 <= u < n implies {
            &&& all_below(#[trigger] after[u], n)
            &&& after[u].no_duplicates()
            &&& !after[u].contains(u as usize)
        } by {
            let row = before[u];
            assert(all_below(row, n));
            let x = if u == left { right } else { left };
            if after[u] != row {
                assert(after[u] == row.push(x));
                assert(!row.contains(x));
                lemma_push_contains(row, x, u as usize);
                lemma_push_no_duplicates(row, x);
            }
        }
    }
}

/// Order `a` waits for order `b`. Of order `i` only the first `count` nonces are regarded, of the
/// orders after it none.
spec fn waits_up_to(
    orders: Seq<Arc<SimulatedOrder>>,
    i: int,
    count: int,
    a: int,
    b: int,
) -> bool {
    ||| (a < i && waits_for(orders, a, b))
    ||| (a == i && waits_for_in(orders, i, b, count))
}

spec fn graph_up_to(
    adjacency: Seq<Seq<usize>>,
    orders: Seq<Arc<SimulatedOrder>>,
    i: int,
    count: int,
) -> bool {
    &&& is_graph(adjacency, orders.len() as int)
    &&& forall|a: usize, b: usize|
        a < orders.len() && b < orders.len() ==> #[trigger] adjacent(adjacency, a, b) == (a != b
            && (in_conflict(orders[a as int], orders[b as int]) || waits_up_to(
            orders,
            i,
            count,
            a as int,
            b as int,
        ) || waits_up_to(orders, i, count, b as int, a as int)))
}

/// The conflicts among the pairs whose smaller order is below `left`, or is `left` with the
/// larger one below `right`.
spec fn conflicts_up_to(
    adjacency: Seq<Seq<usize>>,
    orders: Seq<Arc<SimulatedOrder>>,
    left: int,
    right: int,
) -> bool {
    &&& is_graph(adjacency, orders.len() as int)
    &&& forall|a: usize, b: usize|
        a < orders.len() && b < orders.len() ==> #[trigger] adjacent(adjacency, a, b) == (a != b
            && in_conflict(orders[a as int], orders[b as int]) && ({
            let low = if a < b { a } else { b };
            let high = if a < b { b } else { a };
            low < left || (low == left && high < right)
        }))
}

/// Builds the graph with an edge between any two orders that are in conflict or of which one has
/// to wait for the other.
pub fn build_interaction_graph(orders: &[Arc<SimulatedOrder>]) -> (graph: InteractionGraph)
    ensures
        graph.well_formed(),
        is_interaction_graph(graph.adjacency(), orders@),
{
    let node_count: usize = orders.len();
    let mut neighbors: Vec<Vec<usize>> = Vec::new();
    for i in 0..node_count
        invariant
            neighbors@.len() == i,
            forall|u: int| 0 <= u < i ==> #[trigger] neighbors@[u]@ == Seq::<usize>::empty(),
    {
        neighbors.push(Vec::new());
    }
    for left in 0..node_count
        invariant
            node_count == orders@.len(),
            neighbors@.len() == node_count,
            conflicts_up_to(nested(neighbors@), orders@, left as int, left + 1),
    {
        for right in left + 1..node_count
            invariant
                node_count == orders@.len(),
                neighbors@.len() == node_count,
                left < node_count,
                conflicts_up_to(nested(neighbors@), orders@, left as int, right as int),
        {
            let ghost before = nested(neighbors@);
            if orders_conflict(&orders[left], &orders[right]) {
                add_interaction_edge(&mut neighbors, left, right);
            }
            proof {
                law_conflicts_are_mutual(orders@[left as int], orders@[right as int]);
                let after = nested(neighbors@);
                assert forall|a: usize, b: usize|
                    a < orders@.len() && b < orders@.len() implies #[trigger] adjacent(after, a, b)
                    == (a != b && in_conflict(orders@[a as int], orders@[b as int]) && ({
                    let low = if a < b { a } else { b };
                    let high = if a < b { b } else { a };
                    low < left || (low == left && high < right + 1)
                })) by {
                    let was = adjacent(before, a, b);
                }
            }
        }
        proof {
            let table = nested(neighbors@);
            assert forall|a: usize, b: usize|
                a < orders@.len() && b < orders@.len() implies #[trigger] adjacent(table, a, b)
                == (a != b && in_conflict(orders@[a as int], orders@[b as int]) && ({
                let low = if a < b { a } else { b };
                let high = if a < b { b } else { a };
                low < left + 1 || (low == left + 1 && high < left + 1 + 1)
            })) by {
            }
        }
    }
    let owners = index_nonces(orders);
    assert(graph_up_to(nested(neighbors@), orders@, 0, 0));
    for i in 0..node_count
        invariant
            node_count == orders@.len(),
            neighbors@.len() == node_count,
            forall|address, nonce| #[trigger]
                looked_up(owners@, address, nonce) == nonce_owner(orders@, address, nonce),
            graph_up_to(nested(neighbors@), orders@, i as int, 0),
    {
        let order = &orders[i];
        for k in 0..order.nonces.len()
            invariant
                node_count == orders@.len(),
                neighbors@.len() == node_count,
                i < node_count,
                order == orders@[i as int],
                forall|address, nonce| #[trigger]
                    looked_up(owners@, address, nonce) == nonce_owner(orders@, address, nonce),
                graph_up_to(nested(neighbors@), orders@, i as int, k as int),
        {
            let used = order.nonces[k];
            let ghost before = nested(neighbors@);
            let ghost mut found: Option<int> = None;
            if used.nonce > 0 {
                proof {
                    assert(looked_up(owners@, used.address, (used.nonce - 1) as u64) == nonce_owner(
                        orders@,
                        used.address,
                        (used.nonce - 1) as u64,
                    ));
                    lemma_nonce_owner_in_range(orders@, used.address, (used.nonce - 1) as u64);
                }
                if let Some(owner) = map_get(&owners, &key_of_nonce(used.address, used.nonce - 1)) {
                    let prev: usize = *owner;
                    proof {
                        found = Some(prev as int);
                    }
                    if prev != i {
                        add_interaction_edge(&mut neighbors, prev, i);
                    }
                }
            }
            proof {
                let after = nested(neighbors@);
                assert forall|b: int| #[trigger] waits_through(orders@, i as int, b, k as int) == (
                found == Some(b)) by {}
                assert forall|b: int| #[trigger] waits_for_in(orders@, i as int, b, k + 1) == (
                waits_for_in(orders@, i as int, b, k as int) || (b != i && found == Some(b))) by {
                    if waits_for_in(orders@, i as int, b, k + 1) && !waits_for_in(
                        orders@,
                        i as int,
                        b,
                        k as int,
                    ) {
                        let m = choose|m: int|
                            0 <= m < k + 1 && #[trigger] waits_through(orders@, i as int, b, m);
                        assert(m == k);
                    }
                    if b != i && found == Some(b) {
                        assert(waits_through(orders@, i as int, b, k as int));
                    }
                    if waits_for_in(orders@, i as int, b, k as int) {
                        let m = choose|m: int|
                            0 <= m < k && #[trigger] waits_through(orders@, i as int, b, m);
                        assert(waits_through(orders@, i as int, b, m));
                    }
                }
                assert forall|a: usize, b: usize|
                    a < orders@.len() && b < orders@.len() implies #[trigger] adjacent(after, a, b)
                    == (a != b && (in_conflict(orders@[a as int], orders@[b as int])
                    || waits_up_to(orders@, i as int, k + 1, a as int, b as int) || waits_up_to(
                    orders@,
                    i as int,
                    k + 1,
                    b as int,
                    a as int,
                ))) by {
                    let was = adjacent(before, a, b);
                    let wa = waits_for_in(orders@, i as int, a as int, k + 1);
                    let wb = waits_for_in(orders@, i as int, b as int, k + 1);
                }
            }
        }
        proof {
            let table = nested(neighbors@);
            assert forall|a: usize, b: usize|
                a < orders@.len() && b < orders@.len() implies #[trigger] adjacent(table, a, b) == (
            a != b && (in_conflict(orders@[a as int], orders@[b as int]) || waits_up_to(
                orders@,
                i + 1,
                0,
                a as int,
                b as int,
            ) || waits_up_to(orders@, i + 1, 0, b as int, a as int))) by {
            }
        }
    }
    InteractionGraph { neighbors }
}

/// `path` leads through the given orders along edges of the graph.
pub open spec fn is_path(
    adjacency: Seq<Seq<usize>>,
    indices: Seq<usize>,
    path: Seq<usize>,
) -> bool {
    &&& path.len() > 0
    &&& forall|i: int| 0 <= i < path.len() ==> indices.contains(#[trigger] path[i])
    &&& forall|i: int, j: int|
        0 <= i && j == i + 1 && j < path.len() ==> adjacent(
            adjacency,
            #[trigger] path[i],
            #[trigger] path[j],
        )
}

/// A path through the given orders leads from `x` to `y`.
pub open spec fn connected(
    adjacency: Seq<Seq<usize>>,
    indices: Seq<usize>,
    x: usize,
    y: usize,
) -> bool {
    exists|path: Seq<usize>| #[trigger]
        is_path(adjacency, indices, path) && path[0] == x && path.last() == y
}

/// No edge between given orders leads out of `nodes`.
spec fn is_closed(
    adjacency: Seq<Seq<usize>>,
    indices: Seq<usize>,
    nodes: spec_fn(usize) -> bool,
) -> bool {
    forall|x: usize, y: usize|
        #![trigger adjacent(adjacency, x, y)]
        nodes(x) && indices.contains(y) && adjacent(adjacency, x, y) ==> nodes(y)
}

proof fn lemma_path_stays_in_closed(
    adjacency: Seq<Seq<usize>>,
    indices: Seq<usize>,
    nodes: spec_fn(usize) -> bool,
    path: Seq<usize>,
)
    requires
        is_closed(adjacency, indices, nodes),
        is_path(adjacency, indices, path),
        nodes(path[0]),
    ensures
        nodes(path.last()),
    decreases path.len(),
{
    if path.len() > 1 {
        let shorter = path.drop_last();
        assert(is_path(adjacency, indices, shorter)) by {
            assert forall|i: int| 0 <= i < shorter.len() implies indices.contains(
                #[trigger] shorter[i],
            ) by {
                assert(shorter[i] == path[i]);
            }
            assert forall|i: int, j: int|
                0 <= i && j == i + 1 && j < shorter.len() implies adjacent(
                adjacency,
                #[trigger] shorter[i],
                #[trigger] shorter[j],
            ) by {
                assert(shorter[i] == path[i] && shorter[j] == path[j]);
            }
        }
        lemma_path_stays_in_closed(adjacency, indices, nodes, shorter);
        let i = path.len() - 2;
        let j = path.len() - 1;
        assert(adjacent(adjacency, path[i], path[j]));
        assert(shorter.last() == path[i]);
        assert(indices.contains(path[j]));
    }
}

proof fn lemma_connected_stays_in_closed(
    adjacency: Seq<Seq<usize>>,
    indices: Seq<usize>,
    nodes: spec_fn(usize) -> bool,
    x: usize,
    y: usize,
)
    requires
        is_closed(adjacency, indices, nodes),
        nodes(x),
        connected(adjacency, indices, x, y),
    ensures
        nodes(y),
{
    let path = choose|path: Seq<usize>| #[trigger]
        is_path(adjacency, indices, path) && path[0] == x && path.last() == y;
    lemma_path_stays_in_closed(adjacency, indices, nodes, path);
}

/// Every given order is connected to itself.
pub proof fn lemma_connected_reflexive(adjacency: Seq<Seq<usize>>, indices: Seq<usize>, x: usize)
    requires
        indices.contains(x),
    ensures
        connected(adjacency, indices, x, x),
{
    let path = seq![x];
    assert(is_path(adjacency, indices, path));
    assert(path[0] == x && path.last() == x);
}

/// A further edge continues a connection.
proof fn lemma_connected_step(
    adjacency: Seq<Seq<usize>>,
    indices: Seq<usize>,
    x: usize,
    y: usize,
    z: usize,
)
    requires
        connected(adjacency, indices, x, y),
        adjacent(adjacency, y, z),
        indices.contains(z),
    ensures
        connected(adjacency, indices, x, z),
{
    let path = choose|path: Seq<usize>| #[trigger]
        is_path(adjacency, indices, path) && path[0] == x && path.last() == y;
    let longer = path.push(z);
    assert forall|i: int| 0 <= i < longer.len() implies indices.contains(#[trigger] longer[i]) by {
        if i < path.len() {
            assert(longer[i] == path[i]);
        }
    }
    assert forall|i: int, j: int| 0 <= i && j == i + 1 && j < longer.len() implies adjacent(
        adjacency,
        #[trigger] longer[i],
        #[trigger] longer[j],
    ) by {
        assert(longer[i] == path[i]);
        if j < path.len() {
            assert(longer[j] == path[j]);
        }
    }
    assert(is_path(adjacency, indices, longer));
    assert(longer[0] == x && longer.last() == z);
}

/// Connections run both ways.
pub proof fn lemma_connected_symmetric(
    adjacency: Seq<Seq<usize>>,
    indices: Seq<usize>,
    n: int,
    x: usize,
    y: usize,
)
    requires
        is_graph(adjacency, n),
        all_below(indices, n),
        connected(adjacency, indices, x, y),
    ensures
        connected(adjacency, indices, y, x),
{
    let path = choose|path: Seq<usize>| #[trigger]
        is_path(adjacency, indices, path) && path[0] == x && path.last() == y;
    let back = path.reverse();
    assert forall|i: int| 0 <= i < back.len() implies indices.contains(#[trigger] back[i]) by {
        assert(back[i] == path[path.len() - 1 - i]);
    }
    assert forall|i: int, j: int| 0 <= i && j == i + 1 && j < back.len() implies adjacent(
        adjacency,
        #[trigger] back[i],
        #[trigger] back[j],
    ) by {
        let a = path.len() - 1 - j;
        let b = path.len() - 1 - i;
        assert(back[i] == path[b] && back[j] == path[a]);
        assert(adjacent(adjacency, path[a], path[b]));
        lemma_contained_below(indices, n, path[a]);
        lemma_contained_below(indices, n, path[b]);
    }
    assert(is_path(adjacency, indices, back));
    assert(back[0] == y && back.last() == x);
}

proof fn lemma_contained_below(indices: Seq<usize>, n: int, x: usize)
    requires
        all_below(indices, n),
        indices.contains(x),
    ensures
        x < n,
{
    let i = choose|i: int| 0 <= i < indices.len() && indices[i] == x;
    assert(indices[i] == x);
}

/// Two connections that meet form one.
pub proof fn lemma_connected_transitive(
    adjacency: Seq<Seq<usize>>,
    indices: Seq<usize>,
    x: usize,
    y: usize,
    z: usize,
)
    requires
        connected(adjacency, indices, x, y),
        connected(adjacency, indices, y, z),
    ensures
        connected(adjacency, indices, x, z),
{
    let nodes = |v: usize| connected(adjacency, indices, x, v);
    assert(is_closed(adjacency, indices, nodes)) by {
        assert forall|a: usize, b: usize|
            #![trigger adjacent(adjacency, a, b)]
            nodes(a) && indices.contains(b) && adjacent(adjacency, a, b) implies nodes(b) by {
            lemma_connected_step(adjacency, indices, x, a, b);
        }
    }
    lemma_connected_stays_in_closed(adjacency, indices, nodes, y, z);
}

/// The elements increase strictly.
pub open spec fn increasing(s: Seq<usize>) -> bool {
    forall|i: int, j: int| 0 <= i < j < s.len() ==> #[trigger] s[i] < #[trigger] s[j]
}

/// `component` is a connected component of the given orders: not empty, and with any of its
/// orders it holds exactly those that are connected to it.
pub open spec fn is_component(
    adjacency: Seq<Seq<usize>>,
    indices: Seq<usize>,
    component: Seq<usize>,
) -> bool {
    &&& component.len() > 0
    &&& forall|i: int| 0 <= i < component.len() ==> indices.contains(#[trigger] component[i])
    &&& forall|x: usize, y: usize|
        component.contains(x) ==> #[trigger] component.contains(y) == #[trigger] connected(
            adjacency,
            indices,
            x,
            y,
        )
}

/// One of the components holds `x`.
pub open spec fn in_some(components: Seq<Seq<usize>>, x: usize) -> bool {
    exists|c: int| 0 <= c < components.len() && #[trigger] components[c].contains(x)
}

/// `components` are the connected components of the given orders, each in increasing order, and
/// the smallest orders of the components increase too.
pub open spec fn are_components(
    components: Seq<Seq<usize>>,
    adjacency: Seq<Seq<usize>>,
    indices: Seq<usize>,
) -> bool {
    &&& forall|c: int|
        0 <= c < components.len() ==> is_component(adjacency, indices, #[trigger] components[c])
            && increasing(components[c])
    &&& forall|c: int, d: int|
        0 <= c < d < components.len() ==> (#[trigger] components[c])[0] < (
        #[trigger] components[d])[0]
    &&& forall|x: usize| #[trigger] indices.contains(x) <==> in_some(components, x)
}

/// The state of the search for the component of `start`. Before it began, the orders in `done`
/// had been visited; `found` are those that were visited since, and the orders in `expanded`
/// among them have had all their neighbours visited.
spec fn search_invariant(
    adjacency: Seq<Seq<usize>>,
    indices: Seq<usize>,
    done: Seq<bool>,
    visited: Seq<bool>,
    start: usize,
    found: Seq<usize>,
) -> bool {
    let n = adjacency.len() as int;
    &&& visited.len() == n
    &&& done.len() == n
    &&& found.no_duplicates()
    &&& found.contains(start)
    &&& forall|i: int| 0 <= i < found.len() ==> {
        let x = #[trigger] found[i];
        &&& indices.contains(x)
        &&& !done[x as int]
        &&& connected(adjacency, indices, start, x)
    }
    &&& forall|v: usize| v < n ==> #[trigger] visited[v as int] == (done[v as int]
        || found.contains(v))
}

/// All neighbours of the expanded orders have been visited.
spec fn neighbours_visited(
    adjacency: Seq<Seq<usize>>,
    indices: Seq<usize>,
    visited: Seq<bool>,
    expanded: Seq<usize>,
) -> bool {
    forall|x: usize, y: usize|
        #![trigger adjacent(adjacency, x, y)]
        expanded.contains(x) && indices.contains(y) && adjacent(adjacency, x, y)
            ==> visited[y as int]
}

/// The set of visited orders.
spec fn marked(visited: Seq<bool>) -> spec_fn(usize) -> bool {
    |x: usize| x < visited.len() && visited[x as int]
}

proof fn lemma_search_is_complete(
    adjacency: Seq<Seq<usize>>,
    indices: Seq<usize>,
    done: Seq<bool>,
    visited: Seq<bool>,
    start: usize,
    found: Seq<usize>,
)
    requires
        is_graph(adjacency, adjacency.len() as int),
        all_below(indices, adjacency.len() as int),
        is_closed(adjacency, indices, marked(done)),
        search_invariant(adjacency, indices, done, visited, start, found),
        neighbours_visited(adjacency, indices, visited, found),
    ensures
        is_component(adjacency, indices, found),
        is_closed(adjacency, indices, marked(visited)),
{
    let n = adjacency.len() as int;
    let nodes = |x: usize| found.contains(x);
    assert forall|x: usize, y: usize|
        #![trigger adjacent(adjacency, x, y)]
        found.contains(x) && indices.contains(y) && adjacent(
            adjacency,
            x,
            y,
        ) implies found.contains(y) by {
        let i = choose|i: int| 0 <= i < found.len() && found[i] == x;
        assert(found[i] == x);
        lemma_contained_below(indices, n, x);
        lemma_contained_below(indices, n, y);
        assert(visited[y as int]);
        if done[y as int] {
            assert(adjacent(adjacency, y, x));
            assert(marked(done)(y));
            assert(marked(done)(x));
        }
    }
    assert(is_closed(adjacency, indices, nodes));
    assert forall|x: usize, y: usize| found.contains(x) implies #[trigger] found.contains(y)
        == #[trigger] connected(adjacency, indices, x, y) by {
        let i = choose|i: int| 0 <= i < found.len() && found[i] == x;
        assert(found[i] == x);
        if connected(adjacency, indices, x, y) {
            lemma_connected_stays_in_closed(adjacency, indices, nodes, x, y);
        }
        if found.contains(y) {
            let j = choose|j: int| 0 <= j < found.len() && found[j] == y;
            assert(found[j] == y);
            lemma_connected_symmetric(adjacency, indices, n, start, x);
            lemma_connected_transitive(adjacency, indices, x, start, y);
        }
    }
    assert forall|x: usize, y: usize|
        #![trigger adjacent(adjacency, x, y)]
        marked(visited)(x) && indices.contains(y) && adjacent(
            adjacency,
            x,
            y,
        ) implies marked(visited)(y) by {
        lemma_contained_below(indices, n, y);
        if done[x as int] {
            assert(marked(done)(x));
            assert(marked(done)(y));
        } else {
            assert(found.contains(x));
        }
    }
}

/// Finds the orders that are connected to `start`, and marks them as visited.
fn find_component(
    graph: &InteractionGraph,
    indices: &[usize],
    in_subproblem: &Vec<bool>,
    visited: &mut Vec<bool>,
    start: usize,
) -> (component: Vec<usize>)
    requires
        graph.well_formed(),
        all_below(indices@, graph.order_count()),
        in_subproblem@.len() == graph.order_count(),
        forall|v: usize|
            v < graph.order_count() ==> #[trigger] in_subproblem@[v as int] == indices@.contains(v),
        old(visited)@.len() == graph.order_count(),
        is_closed(graph.adjacency(), indices@, marked(old(visited)@)),
        indices@.contains(start),
        start < graph.order_count(),
        !old(visited)@[start as int],
    ensures
        component@.no_duplicates(),
        component@.contains(start),
        is_component(graph.adjacency(), indices@, component@),
        final(visited)@.len() == graph.order_count(),
        is_closed(graph.adjacency(), indices@, marked(final(visited)@)),
        forall|v: usize|
            v < graph.order_count() ==> #[trigger] final(visited)@[v as int] == (
            old(visited)@[v as int] || component@.contains(v)),
        forall|v: usize| component@.contains(v) ==> !old(visited)@[v as int],
{
    let ghost adjacency = graph.adjacency();
    let ghost n = graph.order_count();
    let ghost done = visited@;
    let mut stack: Vec<usize> = Vec::new();
    stack.push(start);
    let mut component: Vec<usize> = Vec::new();
    visited.set(start, true);
    proof {
        let found = component@ + stack@;
        assert(found =~= seq![start]);
        assert(found[0] == start);
        lemma_connected_reflexive(adjacency, indices@, start);
        assert forall|v: usize| v < n implies #[trigger] visited@[v as int] == (done[v as int]
            || found.contains(v)) by {
            if found.contains(v) {
                let i = choose|i: int| 0 <= i < found.len() && found[i] == v;
            }
        }
    }
    while stack.len() > 0
        invariant
            graph.well_formed(),
            adjacency == graph.adjacency(),
            n == graph.order_count(),
            all_below(indices@, n),
            in_subproblem@.len() == n,
            forall|v: usize|
                v < n ==> #[trigger] in_subproblem@[v as int] == indices@.contains(v),
            search_invariant(
                adjacency,
                indices@,
                done,
                visited@,
                start,
                component@ + stack@,
            ),
            neighbours_visited(adjacency, indices@, visited@, component@),
            component@.len() <= n,
        decreases n - component@.len(),
    {
        let ghost found = component@ + stack@;
        let popped = stack.pop();
        let node: usize = popped.unwrap();
        let ghost was_component = component@;
        assert(found[found.len() - 1] == node);
        component.push(node);
        let ghost rest = stack@;
        proof {
            assert(found =~= was_component + rest.push(node));
            lemma_contained_below(indices@, n, node);
            assert(all_below(found, n)) by {
                assert forall|i: int| 0 <= i < found.len() implies (#[trigger] found[i] as int)
                    < n by {
                    lemma_contained_below(indices@, n, found[i]);
                }
            }
            lemma_distinct_below_len(found, n);
            lemma_reorder(
                adjacency,
                indices@,
                done,
                visited@,
                start,
                was_component,
                rest,
                node,
            );
        }
        let following = &graph.neighbors[node];
        for t in 0..following.len()
            invariant
                graph.well_formed(),
                adjacency == graph.adjacency(),
                n == graph.order_count(),
                all_below(indices@, n),
                in_subproblem@.len() == n,
                forall|v: usize|
                    v < n ==> #[trigger] in_subproblem@[v as int] == indices@.contains(v),
                component@ == was_component.push(node),
                node < n,
                following@ == adjacency[node as int],
                search_invariant(
                    adjacency,
                    indices@,
                    done,
                    visited@,
                    start,
                    component@ + stack@,
                ),
                neighbours_visited(adjacency, indices@, visited@, was_component),
                forall|s: int|
                    0 <= s < t ==> indices@.contains(#[trigger] following@[s])
                        ==> visited@[following@[s] as int],
        {
            let neighbor: usize = following[t];
            proof {
                assert(all_below(adjacency[node as int], n));
                assert(following@[t as int] == neighbor);
            }
            if in_subproblem[neighbor] && !visited[neighbor] {
                let ghost marks = visited@;
                let ghost pending = stack@;
                visited.set(neighbor, true);
                stack.push(neighbor);
                proof {
                    lemma_discover(
                        adjacency,
                        indices@,
                        done,
                        marks,
                        start,
                        component@,
                        pending,
                        node,
                        neighbor,
                    );
                }
            }
        }
        proof {
            assert forall|x: usize, y: usize|
                #![trigger adjacent(adjacency, x, y)]
                component@.contains(x) && indices@.contains(y) && adjacent(
                    adjacency,
                    x,
                    y,
                ) implies visited@[y as int] by {
                lemma_push_contains(was_component, node, x);
                if x == node {
                    let s = choose|s: int| 0 <= s < following@.len() && following@[s] == y;
                    assert(following@[s] == y);
                }
            }
        }
    }
    proof {
        assert(component@ + stack@ =~= component@);
        lemma_search_is_complete(adjacency, indices@, done, visited@, start, component@);
        assert forall|v: usize| component@.contains(v) implies !done[v as int] by {
            let i = choose|i: int| 0 <= i < component@.len() && component@[i] == v;
            assert(component@[i] == v);
        }
    }
    component
}

/// Moving an order from the stack to the component changes nothing in what was found.
proof fn lemma_reorder(
    adjacency: Seq<Seq<usize>>,
    indices: Seq<usize>,
    done: Seq<bool>,
    visited: Seq<bool>,
    start: usize,
    component: Seq<usize>,
    rest: Seq<usize>,
    node: usize,
)
    requires
        search_invariant(adjacency, indices, done, visited, start, component + rest.push(node)),
    ensures
        search_invariant(adjacency, indices, done, visited, start, component.push(node) + rest),
{
    let a = component + rest.push(node);
    let b = component.push(node) + rest;
    let c = component.len() as int;
    let f = |i: int|
        if i < c {
            i
        } else if i == c {
            a.len() - 1
        } else {
            i - 1
        };
    assert forall|i: int| 0 <= i < b.len() implies b[i] == a[#[trigger] f(i)] by {}
    assert(b.no_duplicates()) by {
        assert forall|i: int, j: int| 0 <= i < b.len() && 0 <= j < b.len() && i != j implies b[i]
            != b[j] by {
            assert(b[i] == a[f(i)] && b[j] == a[f(j)]);
        }
    }
    assert forall|v: usize| a.contains(v) == #[trigger] b.contains(v) by {
        if a.contains(v) {
            let i = choose|i: int| 0 <= i < a.len() && a[i] == v;
            let k = if i < c {
                i
            } else if i == a.len() - 1 {
                c
            } else {
                i + 1
            };
            assert(b[k] == v);
        }
        if b.contains(v) {
            let i = choose|i: int| 0 <= i < b.len() && b[i] == v;
            assert(a[f(i)] == v);
        }
    }
    assert(a.contains(start));
    assert(b.contains(start));
    assert forall|i: int| 0 <= i < b.len() implies {
        let x = #[trigger] b[i];
        &&& indices.contains(x)
        &&& !done[x as int]
        &&& connected(adjacency, indices, start, x)
    } by {
        assert(b[i] == a[f(i)]);
    }
}

/// A neighbour of an order in the component joins what was found.
proof fn lemma_discover(
    adjacency: Seq<Seq<usize>>,
    indices: Seq<usize>,
    done: Seq<bool>,
    visited: Seq<bool>,
    start: usize,
    component: Seq<usize>,
    pending: Seq<usize>,
    node: usize,
    neighbor: usize,
)
    requires
        all_below(indices, adjacency.len() as int),
        search_invariant(adjacency, indices, done, visited, start, component + pending),
        component.len() > 0,
        component.last() == node,
        adjacent(adjacency, node, neighbor),
        indices.contains(neighbor),
        !visited[neighbor as int],
    ensures
        search_invariant(
            adjacency,
            indices,
            done,
            visited.update(neighbor as int, true),
            start,
            component + pending.push(neighbor),
        ),
{
    let found = component + pending;
    let longer = component + pending.push(neighbor);
    assert(longer =~= found.push(neighbor));
    lemma_contained_below(indices, adjacency.len() as int, neighbor);
    assert(!found.contains(neighbor));
    lemma_push_no_duplicates(found, neighbor);
    lemma_push_contains(found, neighbor, start);
    assert(found[component.len() - 1] == node);
    lemma_connected_step(adjacency, indices, start, node, neighbor);
    let marks = visited.update(neighbor as int, true);
    assert forall|v: usize| v < adjacency.len() implies #[trigger] marks[v as int] == (
    done[v as int] || longer.contains(v)) by {
        lemma_push_contains(found, neighbor, v);
        assert(visited[v as int] == (done[v as int] || found.contains(v)));
    }
    assert forall|i: int| 0 <= i < longer.len() implies {
        let x = #[trigger] longer[i];
        &&& indices.contains(x)
        &&& !done[x as int]
        &&& connected(adjacency, indices, start, x)
    } by {
        if i < found.len() {
            assert(longer[i] == found[i]);
        }
    }
}

/// Sorts distinct indices.
fn sort_increasing(values: Vec<usize>) -> (sorted: Vec<usize>)
    requires
        values@.no_duplicates(),
    ensures
        increasing(sorted@),
        sorted@.len() == values@.len(),
        forall|x: usize| #[trigger] sorted@.contains(x) == values@.contains(x),
{
    let ghost original = values@;
    let mut keys: Vec<usize> = Vec::new();
    for i in 0..values.len()
        invariant
            keys@ == values@.take(i as int),
    {
        keys.push(values[i]);
        assert(keys@ =~= values@.take(i + 1));
    }
    assert(keys@ =~= values@);
    let sorted = sort_stably(values, keys);
    proof {
        let r = ranks(original);
        let p = choose|p: Seq<usize>| #[trigger]
            is_stable_order(r, p) && sorted@ == picked(original, p);
        assert forall|i: int, j: int| 0 <= i < j < sorted@.len() implies #[trigger] sorted@[i]
            < #[trigger] sorted@[j] by {
            let a = p[i];
            let b = p[j];
            assert(sorted@[i] == original[a as int] && sorted@[j] == original[b as int]);
        }
        assert forall|x: usize| #[trigger] sorted@.contains(x) == original.contains(x) by {
            if sorted@.contains(x) {
                let i = choose|i: int| 0 <= i < sorted@.len() && sorted@[i] == x;
                assert(original[p[i] as int] == x);
            }
            if original.contains(x) {
                let k = choose|k: int| 0 <= k < original.len() && original[k] == x;
                crate::orderings::lemma_ordering_is_onto(p, original.len() as int, k as usize);
                let i = choose|i: int| 0 <= i < p.len() && p[i] == k as usize;
                assert(sorted@[i] == x);
            }
        }
    }
    sorted
}

/// A component is determined by the orders that it holds.
proof fn lemma_same_members(
    adjacency: Seq<Seq<usize>>,
    indices: Seq<usize>,
    a: Seq<usize>,
    b: Seq<usize>,
)
    requires
        is_component(adjacency, indices, a),
        a.len() == b.len(),
        forall|x: usize| #[trigger] b.contains(x) == a.contains(x),
    ensures
        is_component(adjacency, indices, b),
{
    assert forall|i: int| 0 <= i < b.len() implies indices.contains(#[trigger] b[i]) by {
        assert(b.contains(b[i]));
        let j = choose|j: int| 0 <= j < a.len() && a[j] == b[i];
        assert(indices.contains(a[j]));
    }
    assert forall|x: usize, y: usize| b.contains(x) implies #[trigger] b.contains(y)
        == #[trigger] connected(adjacency, indices, x, y) by {
        assert(a.contains(x));
        assert(a.contains(y) == connected(adjacency, indices, x, y));
    }
}

/// The connected components of the given orders, each sorted, and sorted by their smallest
/// orders.
pub fn connected_components(indices: &[usize], graph: &InteractionGraph) -> (components: Vec<
    Vec<usize>,
>)
    requires
        graph.well_formed(),
        all_below(indices@, graph.order_count()),
    ensures
        are_components(nested(components@), graph.adjacency(), indices@),
{
    let ghost adjacency = graph.adjacency();
    let ghost n = graph.order_count();
    let node_count: usize = graph.neighbors.len();
    let mut in_subproblem: Vec<bool> = Vec::new();
    let mut visited: Vec<bool> = Vec::new();
    for i in 0..node_count
        invariant
            in_subproblem@.len() == i,
            visited@.len() == i,
            forall|v: int| 0 <= v < i ==> !#[trigger] in_subproblem@[v],
            forall|v: int| 0 <= v < i ==> !#[trigger] visited@[v],
    {
        in_subproblem.push(false);
        visited.push(false);
    }
    for i in 0..indices.len()
        invariant
            all_below(indices@, n),
            in_subproblem@.len() == n,
            forall|v: usize|
                v < n ==> #[trigger] in_subproblem@[v as int] == indices@.take(i as int).contains(
                    v,
                ),
    {
        in_subproblem.set(indices[i], true);
        proof {
            let next = indices@.take(i + 1);
            assert(next =~= indices@.take(i as int).push(indices@[i as int]));
            assert forall|v: usize| v < n implies #[trigger] in_subproblem@[v as int]
                == next.contains(v) by {
                lemma_push_contains(indices@.take(i as int), indices@[i as int], v);
            }
        }
    }
    assert(indices@.take(indices@.len() as int) =~= indices@);
    let mut components: Vec<Vec<usize>> = Vec::new();
    let mut firsts: Vec<usize> = Vec::new();
    for i in 0..indices.len()
        invariant
            graph.well_formed(),
            adjacency == graph.adjacency(),
            n == graph.order_count(),
            all_below(indices@, n),
            in_subproblem@.len() == n,
            forall|v: usize|
                v < n ==> #[trigger] in_subproblem@[v as int] == indices@.contains(v),
            visited@.len() == n,
            is_closed(adjacency, indices@, marked(visited@)),
            forall|v: usize|
                v < n ==> #[trigger] visited@[v as int] == in_some(nested(components@), v),
            forall|j: int| 0 <= j < i ==> visited@[#[trigger] indices@[j] as int],
            forall|c: int|
                0 <= c < components@.len() ==> is_component(
                    adjacency,
                    indices@,
                    #[trigger] components@[c]@,
                ) && increasing(components@[c]@),
            forall|c: int, d: int|
                0 <= c < components@.len() && 0 <= d < components@.len() && c != d
                    ==> (#[trigger] components@[c])@[0] != (#[trigger] components@[d])@[0],
            firsts@.len() == components@.len(),
            forall|c: int|
                0 <= c < components@.len() ==> #[trigger] firsts@[c] == components@[c]@[0],
    {
        let start: usize = indices[i];
        assert(indices@.contains(indices@[i as int]));
        if !visited[start] {
            let ghost marks = visited@;
            let ghost earlier = components@;
            let found = find_component(graph, indices, &in_subproblem, &mut visited, start);
            let ghost unsorted = found@;
            let component = sort_increasing(found);
            proof {
                lemma_same_members(adjacency, indices@, unsorted, component@);
                assert(component@.contains(component@[0]));
                assert(unsorted.contains(component@[0]));
                assert forall|c: int| 0 <= c < earlier.len() implies (#[trigger] earlier[c])@[0]
                    != component@[0] by {
                    assert(is_component(adjacency, indices@, earlier[c]@));
                    let x = earlier[c]@[0];
                    assert(indices@.contains(x));
                    lemma_contained_below(indices@, n, x);
                    assert(nested(earlier)[c].contains(x));
                    assert(in_some(nested(earlier), x));
                    assert(marks[x as int]);
                }
            }
            firsts.push(component[0]);
            components.push(component);
            proof {
                let now = nested(components@);
                assert forall|v: usize| v < n implies #[trigger] visited@[v as int] == in_some(
                    now,
                    v,
                ) by {
                    assert(marks[v as int] == in_some(nested(earlier), v));
                    let last = earlier.len() as int;
                    assert(now[last] == component@);
                    if in_some(nested(earlier), v) {
                        let c = choose|c: int|
                            0 <= c < nested(earlier).len() && #[trigger] nested(
                                earlier,
                            )[c].contains(v);
                        assert(now[c].contains(v));
                    }
                    if in_some(now, v) {
                        let c = choose|c: int| 0 <= c < now.len() && #[trigger] now[c].contains(v);
                        if c < last {
                            assert(nested(earlier)[c].contains(v));
                        }
                    }
                    if unsorted.contains(v) {
                        assert(component@.contains(v));
                        assert(now[last].contains(v));
                    }
                }
                assert forall|c: int|
                    0 <= c < components@.len() implies #[trigger] firsts@[c]
                    == components@[c]@[0] by {
                    if c < earlier.len() {
                        assert(components@[c] == earlier[c]);
                    }
                }
                assert forall|c: int, d: int|
                    0 <= c < components@.len() && 0 <= d < components@.len() && c != d implies (
                #[trigger] components@[c])@[0] != (#[trigger] components@[d])@[0] by {
                    if c < earlier.len() {
                        assert(components@[c] == earlier[c]);
                    }
                    if d < earlier.len() {
                        assert(components@[d] == earlier[d]);
                    }
                }
            }
        }
    }
    let ghost unsorted = components@;
    let ghost keys = firsts@;
    let sorted = sort_stably(components, firsts);
    let component_count: usize = sorted.len();
    proof {
        assert(unsorted.len() == component_count);
        let r = ranks(keys);
        let p = choose|p: Seq<usize>| #[trigger]
            is_stable_order(r, p) && sorted@ == picked(unsorted, p);
        let rows = nested(sorted@);
        assert forall|c: int| 0 <= c < rows.len() implies is_component(
            adjacency,
            indices@,
            #[trigger] rows[c],
        ) && increasing(rows[c]) by {
            assert(rows[c] == unsorted[p[c] as int]@);
        }
        assert forall|c: int, d: int| 0 <= c < d < rows.len() implies (#[trigger] rows[c])[0] < (
        #[trigger] rows[d])[0] by {
            let a = p[c];
            let b = p[d];
            assert(rows[c] == unsorted[a as int]@);
            assert(rows[d] == unsorted[b as int]@);
            assert(keys[a as int] == unsorted[a as int]@[0]);
            assert(keys[b as int] == unsorted[b as int]@[0]);
        }
        assert forall|x: usize| #[trigger] indices@.contains(x) <==> in_some(rows, x) by {
            if indices@.contains(x) {
                lemma_contained_below(indices@, n, x);
                let j = choose|j: int| 0 <= j < indices@.len() && indices@[j] == x;
                assert(visited@[indices@[j] as int]);
                assert(in_some(nested(unsorted), x));
                let c = choose|c: int|
                    0 <= c < nested(unsorted).len() && #[trigger] nested(unsorted)[c].contains(x);
                crate::orderings::lemma_ordering_is_onto(p, unsorted.len() as int, c as usize);
                let i = choose|i: int| 0 <= i < p.len() && p[i] == c as usize;
                assert(rows[i].contains(x));
            }
            if in_some(rows, x) {
                let c = choose|c: int| 0 <= c < rows.len() && #[trigger] rows[c].contains(x);
                let k = choose|k: int| 0 <= k < rows[c].len() && rows[c][k] == x;
                assert(is_component(adjacency, indices@, rows[c]));
                assert(indices@.contains(rows[c][k]));
            }
        }
    }
    sorted
}

/// The order is no seed and has no edge to one.
pub open spec fn is_residual(adjacency: Seq<Seq<usize>>, seeds: Seq<usize>, x: usize) -> bool {
    &&& !seeds.contains(x)
    &&& forall|s: usize| #[trigger] seeds.contains(s) ==> !adjacent(adjacency, x, s)
}

/// What the seeds leave over: the given orders that are no seeds and have no edge to one.
pub open spec fn residual(
    adjacency: Seq<Seq<usize>>,
    indices: Seq<usize>,
    seeds: Seq<usize>,
) -> Seq<usize> {
    indices.filter(|x: usize| is_residual(adjacency, seeds, x))
}

/// Splits what the seeds leave over into its connected components.
pub fn partition_residual_components(
    indices: &[usize],
    seed_indices: &[usize],
    graph: &InteractionGraph,
) -> (components: Vec<Vec<usize>>)
    requires
        graph.well_formed(),
        all_below(indices@, graph.order_count()),
        all_below(seed_indices@, graph.order_count()),
    ensures
        are_components(
            nested(components@),
            graph.adjacency(),
            residual(graph.adjacency(), indices@, seed_indices@),
        ),
{
    let ghost adjacency = graph.adjacency();
    let ghost keep = |x: usize| is_residual(adjacency, seed_indices@, x);
    let mut residual_indices: Vec<usize> = Vec::new();
    for i in 0..indices.len()
        invariant
            graph.well_formed(),
            adjacency == graph.adjacency(),
            all_below(indices@, graph.order_count()),
            all_below(seed_indices@, graph.order_count()),
            keep == (|x: usize| is_residual(adjacency, seed_indices@, x)),
            residual_indices@ == indices@.take(i as int).filter(keep),
    {
        let candidate: usize = indices[i];
        let mut is_kept: bool = true;
        for s in 0..seed_indices.len()
            invariant
                graph.well_formed(),
                adjacency == graph.adjacency(),
                candidate < graph.order_count(),
                is_kept == (forall|t: int|
                    0 <= t < s ==> #[trigger] seed_indices@[t] != candidate && !adjacent(
                        adjacency,
                        candidate,
                        seed_indices@[t],
                    )),
        {
            if seed_indices[s] == candidate || graph.has_edge(candidate, seed_indices[s]) {
                assert(seed_indices@[s as int] == candidate || adjacent(
                    adjacency,
                    candidate,
                    seed_indices@[s as int],
                ));
                is_kept = false;
            }
        }
        proof {
            assert(is_kept == keep(candidate)) by {
                if is_kept {
                    assert forall|s: usize| #[trigger] seed_indices@.contains(s) implies !adjacent(
                        adjacency,
                        candidate,
                        s,
                    ) by {
                        let t = choose|t: int|
                            0 <= t < seed_indices@.len() && seed_indices@[t] == s;
                        assert(seed_indices@[t] != candidate);
                    }
                    if seed_indices@.contains(candidate) {
                        let t = choose|t: int|
                            0 <= t < seed_indices@.len() && seed_indices@[t] == candidate;
                        assert(seed_indices@[t] != candidate);
                    }
                } else {
                    let t = choose|t: int|
                        0 <= t < seed_indices@.len() && !(#[trigger] seed_indices@[t] != candidate
                            && !adjacent(adjacency, candidate, seed_indices@[t]));
                    assert(seed_indices@.contains(seed_indices@[t]));
                }
            }
            let next = indices@.take(i + 1);
            assert(next.drop_last() =~= indices@.take(i as int));
            reveal(Seq::filter);
        }
        if is_kept {
            residual_indices.push(candidate);
        }
    }
    proof {
        assert(indices@.take(indices@.len() as int) =~= indices@);
        let left = residual_indices@;
        assert forall|i: int| 0 <= i < left.len() implies (#[trigger] left[i] as int)
            < graph.order_count() by {
            assert(left.contains(left[i]));
            indices@.lemma_filter_contains_rev(keep, left[i]);
            lemma_contained_below(indices@, graph.order_count(), left[i]);
        }
    }
    connected_components(&residual_indices, graph)
}

} // verus!
