//! Permutations of a group's orders.
use std::sync::Arc;
use vstd::prelude::*;

use crate::hash_maps::{key_of_nonce, map_get};
use crate::nonces::{
    index_nonces, lemma_nonce_owner_in_range, looked_up, nonce_owner, waits_for, waits_for_in,
    waits_through,
};
use crate::orderings::{
    all_below, contains_index, is_ordering, lemma_ordering_is_onto, lemma_push_contains, less_at,
    lex_less, lex_sorted, nested,
};
use crate::types::SimulatedOrder;

verus! {

/// `successors[u]` lists `v`: order `u` has to come before order `v`.
pub open spec fn precedes(successors: Seq<Seq<usize>>, u: int, v: usize) -> bool {
    successors[u].contains(v)
}

/// A successor table over `n` orders: every entry is one of them.
pub open spec fn is_successor_table(successors: Seq<Seq<usize>>, n: int) -> bool {
    &&& successors.len() == n
    &&& forall|u: int| 0 <= u < n ==> all_below(#[trigger] successors[u], n)
}

/// No order of `p` stands before one that has to precede it, and none has to precede itself.
pub open spec fn respects(successors: Seq<Seq<usize>>, p: Seq<usize>) -> bool {
    forall|i: int, j: int|
        0 <= i <= j < p.len() ==> !precedes(successors, #[trigger] p[j] as int, #[trigger] p[i])
}

/// `p` is an ordering of all `n` orders in which each stands after those that have to precede it.
pub open spec fn is_linear_extension(successors: Seq<Seq<usize>>, n: int, p: Seq<usize>) -> bool {
    &&& is_ordering(p, n)
    &&& respects(successors, p)
}

/// `path` leads from order to order, each of which has to precede the next one.
pub open spec fn is_chain(successors: Seq<Seq<usize>>, path: Seq<usize>) -> bool {
    forall|i: int|
        0 <= i < path.len() - 1 ==> precedes(successors, #[trigger] path[i] as int, path[i + 1])
}

/// The orders of a chain stand in a linear extension as they stand in the chain.
proof fn lemma_chain_stands_in_order(
    successors: Seq<Seq<usize>>,
    n: int,
    p: Seq<usize>,
    path: Seq<usize>,
    k: int,
    a: int,
    b: int,
)
    requires
        is_linear_extension(successors, n, p),
        is_chain(successors, path),
        all_below(path, n),
        0 < k < path.len(),
        0 <= a < p.len(),
        0 <= b < p.len(),
        p[a] == path[0],
        p[b] == path[k],
    ensures
        a < b,
    decreases k,
{
    let before = path[k - 1];
    lemma_ordering_is_onto(p, n, before);
    let m = choose|m: int| 0 <= m < p.len() && p[m] == before;
    assert(precedes(successors, path[k - 1] as int, path[k - 1 + 1]));
    if b <= m {
        assert(!precedes(successors, p[m] as int, p[b]));
    }
    if k > 1 {
        lemma_chain_stands_in_order(successors, n, p, path, k - 1, a, m);
    } else {
        assert(p[a] == p[m]);
        assert(a == m);
    }
}

/// Where orders have to precede each other in a circle, or one has to precede itself, there is no
/// ordering that can be tried.
pub proof fn law_a_circle_has_no_order(
    successors: Seq<Seq<usize>>,
    n: int,
    path: Seq<usize>,
    p: Seq<usize>,
)
    requires
        path.len() > 1,
        is_chain(successors, path),
        all_below(path, n),
        path[0] == path.last(),
    ensures
        !is_linear_extension(successors, n, p),
{
    if is_linear_extension(successors, n, p) {
        lemma_ordering_is_onto(p, n, path[0]);
        let a = choose|a: int| 0 <= a < p.len() && p[a] == path[0];
        lemma_chain_stands_in_order(successors, n, p, path, path.len() - 1, a, a);
    }
}

/// `rows` lists, in lexicographic order and without repetition, all linear extensions that begin
/// with `prefix`.
pub open spec fn lists_extensions(
    rows: Seq<Seq<usize>>,
    successors: Seq<Seq<usize>>,
    n: int,
    prefix: Seq<usize>,
) -> bool {
    &&& lex_sorted(rows)
    &&& forall|p: Seq<usize>| #[trigger]
        rows.contains(p) <==> is_linear_extension(successors, n, p) && prefix.is_prefix_of(p)
}

/// How often the row lists `v`.
pub open spec fn occurrences(row: Seq<usize>, v: usize) -> nat
    decreases row.len(),
{
    if row.len() == 0 {
        0
    } else {
        occurrences(row.drop_last(), v) + if row.last() == v {
            1nat
        } else {
            0nat
        }
    }
}

/// A row does not list what it does not contain.
proof fn lemma_occurrences_zero(row: Seq<usize>, v: usize)
    ensures
        occurrences(row, v) == 0 <==> !row.contains(v),
    decreases row.len(),
{
    if row.len() > 0 {
        let init = row.drop_last();
        lemma_occurrences_zero(init, v);
        if init.contains(v) {
            let i = choose|i: int| 0 <= i < init.len() && init[i] == v;
            assert(row[i] == v);
        }
        if row.last() == v {
            assert(row[row.len() - 1] == v);
        }
        if row.contains(v) && row.last() != v {
            let i = choose|i: int| 0 <= i < row.len() && row[i] == v;
            assert(init[i] == v);
        }
    }
}

proof fn lemma_occurrences_push(row: Seq<usize>, x: usize, v: usize)
    ensures
        occurrences(row.push(x), v) == occurrences(row, v) + if v == x {
            1nat
        } else {
            0nat
        },
{
    assert(row.push(x).drop_last() =~= row);
}

/// The beginning of a row lists nothing more often than the row.
proof fn lemma_occurrences_take(row: Seq<usize>, k: int, v: usize)
    requires
        0 <= k <= row.len(),
    ensures
        occurrences(row.take(k), v) <= occurrences(row, v),
    decreases row.len() - k,
{
    if k < row.len() {
        lemma_occurrences_take(row, k + 1, v);
        assert(row.take(k + 1).drop_last() =~= row.take(k));
    } else {
        assert(row.take(k) =~= row);
    }
}

/// A row without repetitions lists nothing twice.
proof fn lemma_occurrences_once(row: Seq<usize>, v: usize)
    requires
        row.no_duplicates(),
    ensures
        occurrences(row, v) <= 1,
    decreases row.len(),
{
    if row.len() > 0 {
        let init = row.drop_last();
        lemma_occurrences_once(init, v);
        if row.last() == v {
            lemma_occurrences_zero(init, v);
            if init.contains(v) {
                let i = choose|i: int| 0 <= i < init.len() && init[i] == v;
                assert(row[i] == row[row.len() - 1]);
            }
        }
    }
}

/// How often the orders `0..k` that are not in `placed` list `v` as one that they have to precede.
pub open spec fn open_predecessors(
    successors: Seq<Seq<usize>>,
    placed: Seq<usize>,
    v: usize,
    k: nat,
) -> nat
    decreases k,
{
    if k == 0 {
        0
    } else {
        open_predecessors(successors, placed, v, (k - 1) as nat) + if !placed.contains(
            (k - 1) as usize,
        ) {
            occurrences(successors[k - 1], v)
        } else {
            0nat
        }
    }
}

proof fn lemma_open_predecessors_push(
    successors: Seq<Seq<usize>>,
    placed: Seq<usize>,
    c: usize,
    v: usize,
    k: nat,
)
    requires
        !placed.contains(c),
        k <= usize::MAX,
    ensures
        open_predecessors(successors, placed, v, k) == open_predecessors(
            successors,
            placed.push(c),
            v,
            k,
        ) + if c < k {
            occurrences(successors[c as int], v)
        } else {
            0nat
        },
    decreases k,
{
    if k > 0 {
        lemma_open_predecessors_push(successors, placed, c, v, (k - 1) as nat);
        let x = (k - 1) as usize;
        assert(placed.push(c).contains(x) <==> placed.contains(x) || x == c) by {
            if placed.contains(x) {
                let i = choose|i: int| 0 <= i < placed.len() && placed[i] == x;
                assert(placed.push(c)[i] == x);
            }
            if x == c {
                assert(placed.push(c)[placed.len() as int] == x);
            }
        }
    }
}

/// Nothing is left that has to precede `v` exactly when every such order is placed.
proof fn lemma_open_predecessors_zero(
    successors: Seq<Seq<usize>>,
    placed: Seq<usize>,
    v: usize,
    k: nat,
)
    requires
        k <= usize::MAX,
    ensures
        open_predecessors(successors, placed, v, k) == 0 <==> (forall|u: usize|
            u < k && #[trigger] precedes(successors, u as int, v) ==> placed.contains(u)),
    decreases k,
{
    if k > 0 {
        lemma_open_predecessors_zero(successors, placed, v, (k - 1) as nat);
        lemma_occurrences_zero(successors[k - 1], v);
        let x = (k - 1) as usize;
        if open_predecessors(successors, placed, v, k) == 0 {
            assert forall|u: usize|
                u < k && #[trigger] precedes(successors, u as int, v) implies placed.contains(
                u,
            ) by {
                if u < k - 1 {
                } else {
                    assert(u == x);
                }
            }
        }
        if forall|u: usize|
            u < k && #[trigger] precedes(successors, u as int, v) ==> placed.contains(u) {
            assert(precedes(successors, x as int, v) ==> placed.contains(x));
        }
    }
}

proof fn lemma_open_predecessors_bound(
    successors: Seq<Seq<usize>>,
    placed: Seq<usize>,
    v: usize,
    k: nat,
)
    requires
        k <= successors.len(),
        forall|u: int| 0 <= u < successors.len() ==> (#[trigger] successors[u]).no_duplicates(),
    ensures
        open_predecessors(successors, placed, v, k) <= k,
    decreases k,
{
    if k > 0 {
        lemma_open_predecessors_bound(successors, placed, v, (k - 1) as nat);
        lemma_occurrences_once(successors[k - 1], v);
    }
}

/// The state of the search: `placed` can begin a linear extension, and `degrees` counts, for each
/// order, how often those still to be placed list it.
pub open spec fn search_state(
    successors: Seq<Seq<usize>>,
    n: int,
    placed: Seq<usize>,
    degrees: Seq<usize>,
) -> bool {
    &&& is_successor_table(successors, n)
    &&& placed.len() <= n
    &&& placed.no_duplicates()
    &&& all_below(placed, n)
    &&& respects(successors, placed)
    &&& forall|i: int, u: usize|
        0 <= i < placed.len() && u < n && #[trigger] precedes(
            successors,
            u as int,
            #[trigger] placed[i],
        ) ==> placed.contains(u)
    &&& degrees.len() == n
    &&& forall|v: int|
        0 <= v < n ==> #[trigger] degrees[v] == open_predecessors(
            successors,
            placed,
            v as usize,
            n as nat,
        )
}

/// `c` is an order that can be placed next.
pub open spec fn is_candidate(placed: Seq<usize>, degrees: Seq<usize>, c: usize) -> bool {
    &&& c < degrees.len()
    &&& !placed.contains(c)
    &&& degrees[c as int] == 0
}

/// The orders that can be placed next, in increasing order.
fn next_candidates(placed: &Vec<usize>, degrees: &Vec<usize>) -> (candidates: Vec<usize>)
    ensures
        forall|i: int, j: int|
            0 <= i < j < candidates@.len() ==> candidates@[i] < candidates@[j],
        forall|c: usize| #[trigger]
            candidates@.contains(c) <==> is_candidate(placed@, degrees@, c),
{
    let mut candidates: Vec<usize> = Vec::new();
    for node in 0..degrees.len()
        invariant
            forall|i: int, j: int|
                0 <= i < j < candidates@.len() ==> candidates@[i] < candidates@[j],
            forall|i: int| 0 <= i < candidates@.len() ==> #[trigger] candidates@[i] < node,
            forall|c: usize| #[trigger]
                candidates@.contains(c) <==> c < node && is_candidate(placed@, degrees@, c),
    {
        let ghost before = candidates@;
        if !contains_index(placed, node) && degrees[node] == 0 {
            candidates.push(node);
            assert forall|c: usize| #[trigger] candidates@.contains(c) <==> c < node + 1
                && is_candidate(placed@, degrees@, c) by {
                if before.contains(c) {
                    let i = choose|i: int| 0 <= i < before.len() && before[i] == c;
                    assert(candidates@[i] == c);
                }
                assert(candidates@[before.len() as int] == node);
                if candidates@.contains(c) && c != node {
                    let i = choose|i: int| 0 <= i < candidates@.len() && candidates@[i] == c;
                    assert(before[i] == c);
                }
            }
        }
    }
    candidates
}

/// Placing a candidate leads to another search state.
proof fn lemma_place(
    successors: Seq<Seq<usize>>,
    n: int,
    placed: Seq<usize>,
    degrees: Seq<usize>,
    next: Seq<usize>,
    c: usize,
)
    requires
        n <= usize::MAX,
        search_state(successors, n, placed, degrees),
        is_candidate(placed, degrees, c),
        next.len() == n,
        forall|v: int|
            0 <= v < n ==> #[trigger] next[v] == degrees[v] - occurrences(
                successors[c as int],
                v as usize,
            ),
    ensures
        search_state(successors, n, placed.push(c), next),
{
    let p = placed.push(c);
    lemma_open_predecessors_zero(successors, placed, c, n as nat);
    assert(degrees[c as int] == open_predecessors(successors, placed, c, n as nat));
    assert forall|i: int, j: int| 0 <= i <= j < p.len() implies !precedes(
        successors,
        #[trigger] p[j] as int,
        #[trigger] p[i],
    ) by {
        if j == placed.len() {
            // `c` is not placed, and all that has to precede an order placed earlier, or `c`, is
            if precedes(successors, c as int, p[i]) {
                if i < j {
                    assert(p[i] == placed[i]);
                }
                assert(placed.contains(c));
            }
        } else {
            assert(p[j] == placed[j] && p[i] == placed[i]);
        }
    }
    assert forall|i: int, u: usize|
        0 <= i < p.len() && u < n && #[trigger] precedes(
            successors,
            u as int,
            #[trigger] p[i],
        ) implies p.contains(u) by {
        let k = if i < placed.len() {
            assert(p[i] == placed[i]);
            assert(placed.contains(u));
            choose|k: int| 0 <= k < placed.len() && placed[k] == u
        } else {
            assert(placed.contains(u));
            choose|k: int| 0 <= k < placed.len() && placed[k] == u
        };
        assert(p[k] == u);
    }
    assert forall|v: int| 0 <= v < n implies #[trigger] next[v] == open_predecessors(
        successors,
        p,
        v as usize,
        n as nat,
    ) by {
        lemma_open_predecessors_push(successors, placed, c, v as usize, n as nat);
        assert(degrees[v] == open_predecessors(successors, placed, v as usize, n as nat));
    }
    assert(p.no_duplicates()) by {
        assert forall|i: int, j: int| 0 <= i < p.len() && 0 <= j < p.len() && i != j implies p[i]
            != p[j] by {
            if i == placed.len() {
                assert(placed[j] == p[j]);
                assert(placed.contains(placed[j]));
            } else if j == placed.len() {
                assert(placed[i] == p[i]);
                assert(placed.contains(placed[i]));
            }
        }
    }
    crate::orderings::lemma_distinct_below_len(p, n);
}

/// In a linear extension that begins with `placed`, the order after `placed` is a candidate.
proof fn lemma_next_is_candidate(
    successors: Seq<Seq<usize>>,
    n: int,
    placed: Seq<usize>,
    degrees: Seq<usize>,
    p: Seq<usize>,
)
    requires
        n <= usize::MAX,
        search_state(successors, n, placed, degrees),
        placed.len() < n,
        is_linear_extension(successors, n, p),
        placed.is_prefix_of(p),
    ensures
        is_candidate(placed, degrees, p[placed.len() as int]),
        placed.push(p[placed.len() as int]).is_prefix_of(p),
{
    let at = placed.len() as int;
    let c = p[at];
    assert(!placed.contains(c)) by {
        if placed.contains(c) {
            let i = choose|i: int| 0 <= i < placed.len() && placed[i] == c;
            assert(p[i] == placed[i]);
        }
    }
    assert forall|u: usize| u < n && #[trigger] precedes(
        successors,
        u as int,
        c,
    ) implies placed.contains(u) by {
        lemma_ordering_is_onto(p, n, u);
        let j = choose|j: int| 0 <= j < p.len() && p[j] == u;
        if j >= at {
            assert(!precedes(successors, p[j] as int, p[at]));
        }
        assert(placed[j] == p[j]);
    }
    lemma_open_predecessors_zero(successors, placed, c, n as nat);
    assert(degrees[c as int] == open_predecessors(successors, placed, c, n as nat));
    assert(placed.push(c) =~= p.subrange(0, at + 1));
}

/// Appends to `all_permutations` every linear extension that begins with `current`, in
/// lexicographic order. The search state is handed back as it was.
pub fn find_permutations_recursive(
    successors: &Vec<Vec<usize>>,
    current: &mut Vec<usize>,
    in_degrees: &mut Vec<usize>,
    total_nodes: usize,
    all_permutations: &mut Vec<Vec<usize>>,
)
    requires
        search_state(nested(successors@), total_nodes as int, old(current)@, old(in_degrees)@),
    ensures
        final(current)@ == old(current)@,
        final(in_degrees)@ == old(in_degrees)@,
        exists|added: Seq<Seq<usize>>|
            {
                &&& nested(final(all_permutations)@) == nested(old(all_permutations)@) + added
                &&& #[trigger] lists_extensions(
                    added,
                    nested(successors@),
                    total_nodes as int,
                    old(current)@,
                )
            },
    decreases total_nodes - old(current)@.len(),
{
    let ghost table = nested(successors@);
    let ghost n = total_nodes as int;
    let ghost placed = current@;
    let ghost degrees = in_degrees@;
    let ghost first = nested(all_permutations@);
    if current.len() == total_nodes {
        let row = current.clone();
        assert(row@ == placed);
        all_permutations.push(row);
        proof {
            let added = seq![placed];
            assert(nested(all_permutations@) =~= first + added);
            assert forall|p: Seq<usize>| #[trigger] added.contains(p) <==> is_linear_extension(
                table,
                n,
                p,
            ) && placed.is_prefix_of(p) by {
                if added.contains(p) {
                    assert(p == placed);
                }
                if is_linear_extension(table, n, p) && placed.is_prefix_of(p) {
                    assert(p =~= placed);
                    assert(added[0] == p);
                }
            }
            assert(lists_extensions(added, table, n, placed));
        }
        return ;
    }
    let candidates = next_candidates(current, in_degrees);
    let ghost mut added: Seq<Seq<usize>> = Seq::empty();
    proof {
        assert(nested(all_permutations@) =~= first + added);
    }
    for c in 0..candidates.len()
        invariant
            total_nodes == n,
            table == nested(successors@),
            search_state(table, n, placed, degrees),
            placed.len() < n,
            current@ == placed,
            placed == old(current)@,
            in_degrees@ == degrees,
            forall|i: int, j: int|
                0 <= i < j < candidates@.len() ==> candidates@[i] < candidates@[j],
            forall|x: usize| #[trigger]
                candidates@.contains(x) <==> is_candidate(placed, degrees, x),
            nested(all_permutations@) == first + added,
            lex_sorted(added),
            forall|p: Seq<usize>| #[trigger]
                added.contains(p) <==> is_linear_extension(table, n, p) && placed.is_prefix_of(p)
                    && (exists|k: int|
                    0 <= k < c && #[trigger] candidates@[k] == p[placed.len() as int]),
    {
        let node = candidates[c];
        assert(candidates@.contains(node));
        assert(is_candidate(placed, degrees, node));
        let ghost targets = successors@[node as int]@;
        assert(targets == table[node as int]);
        current.push(node);
        let mut affected: Vec<usize> = Vec::new();
        let following = &successors[node];
        for t in 0..following.len()
            invariant
                total_nodes == n,
                table == nested(successors@),
                is_successor_table(table, n),
                search_state(table, n, placed, degrees),
                is_candidate(placed, degrees, node),
                targets == following@,
                targets == table[node as int],
                affected@ == targets.take(t as int),
                in_degrees@.len() == n,
                forall|v: int|
                    0 <= v < n ==> #[trigger] in_degrees@[v] == degrees[v] - occurrences(
                        targets.take(t as int),
                        v as usize,
                    ),
        {
            let target = following[t];
            assert(targets[t as int] == target);
            assert(all_below(targets, n));
            proof {
                assert(targets.take(t + 1) =~= targets.take(t as int).push(target));
                assert(degrees[target as int] == open_predecessors(
                    table,
                    placed,
                    target,
                    n as nat,
                ));
                lemma_open_predecessors_push(table, placed, node, target, n as nat);
                lemma_occurrences_take(targets, t + 1, target);
                assert forall|v: usize| #[trigger] occurrences(targets.take(t + 1), v)
                    == occurrences(targets.take(t as int), v) + if v == target {
                    1nat
                } else {
                    0nat
                } by {
                    lemma_occurrences_push(targets.take(t as int), target, v);
                }
            }
            let degree = in_degrees[target];
            in_degrees.set(target, degree - 1);
            affected.push(target);
        }
        proof {
            assert(targets.take(targets.len() as int) =~= targets);
            lemma_place(table, n, placed, degrees, in_degrees@, node);
        }
        let ghost before = nested(all_permutations@);
        find_permutations_recursive(successors, current, in_degrees, total_nodes, all_permutations);
        let ghost batch = choose|batch: Seq<Seq<usize>>|
            {
                &&& nested(all_permutations@) == before + batch
                &&& #[trigger] lists_extensions(batch, table, n, placed.push(node))
            };
        let ghost lowered = in_degrees@;
        for t in 0..affected.len()
            invariant
                total_nodes == n,
                is_successor_table(table, n),
                node < n,
                targets == table[node as int],
                affected@ == targets,
                in_degrees@.len() == n,
                degrees.len() == n,
                forall|v: int|
                    0 <= v < n ==> #[trigger] in_degrees@[v] == degrees[v] - occurrences(
                        targets,
                        v as usize,
                    ) + occurrences(targets.take(t as int), v as usize),
        {
            let target = affected[t];
            proof {
                assert(all_below(targets, n));
                assert(targets[t as int] == target);
                assert(targets.take(t + 1) =~= targets.take(t as int).push(target));
                lemma_occurrences_take(targets, t + 1, target);
                assert forall|v: usize| #[trigger] occurrences(targets.take(t + 1), v)
                    == occurrences(targets.take(t as int), v) + if v == target {
                    1nat
                } else {
                    0nat
                } by {
                    lemma_occurrences_push(targets.take(t as int), target, v);
                }
            }
            let degree = in_degrees[target];
            in_degrees.set(target, degree + 1);
        }
        current.pop();
        proof {
            assert(targets.take(targets.len() as int) =~= targets);
            assert(in_degrees@ =~= degrees);
            assert(current@ =~= placed);
            lemma_add_batch(table, n, placed, degrees, candidates@, c as int, added, batch);
            added = added + batch;
            assert(nested(all_permutations@) =~= first + added);
        }
    }
    proof {
        assert forall|p: Seq<usize>| #[trigger] added.contains(p) <==> is_linear_extension(
            table,
            n,
            p,
        ) && placed.is_prefix_of(p) by {
            if is_linear_extension(table, n, p) && placed.is_prefix_of(p) {
                lemma_next_is_candidate(table, n, placed, degrees, p);
                let x = p[placed.len() as int];
                assert(candidates@.contains(x));
                let k = choose|k: int| 0 <= k < candidates@.len() && candidates@[k] == x;
                assert(candidates@[k] == p[placed.len() as int]);
            }
        }
        assert(lists_extensions(added, table, n, placed));
    }
}

/// The extensions found so far, followed by those that continue with the next candidate.
proof fn lemma_add_batch(
    table: Seq<Seq<usize>>,
    n: int,
    placed: Seq<usize>,
    degrees: Seq<usize>,
    candidates: Seq<usize>,
    c: int,
    added: Seq<Seq<usize>>,
    batch: Seq<Seq<usize>>,
)
    requires
        n <= usize::MAX,
        search_state(table, n, placed, degrees),
        placed.len() < n,
        0 <= c < candidates.len(),
        forall|i: int, j: int| 0 <= i < j < candidates.len() ==> candidates[i] < candidates[j],
        lex_sorted(added),
        forall|p: Seq<usize>| #[trigger]
            added.contains(p) <==> is_linear_extension(table, n, p) && placed.is_prefix_of(p) && (
            exists|k: int| 0 <= k < c && #[trigger] candidates[k] == p[placed.len() as int]),
        lists_extensions(batch, table, n, placed.push(candidates[c])),
    ensures
        lex_sorted(added + batch),
        forall|p: Seq<usize>| #[trigger]
            (added + batch).contains(p) <==> is_linear_extension(table, n, p)
                && placed.is_prefix_of(p) && (exists|k: int|
                0 <= k < c + 1 && #[trigger] candidates[k] == p[placed.len() as int]),
{
    let at = placed.len() as int;
    let node = candidates[c];
    let longer = placed.push(node);
    let rows = added + batch;
    assert forall|p: Seq<usize>| #[trigger] batch.contains(p) implies placed.is_prefix_of(p)
        && p[at] == node by {
        assert(longer.is_prefix_of(p));
        assert(p[at] == longer[at]);
        assert(placed =~= p.subrange(0, at)) by {
            assert forall|i: int| 0 <= i < at implies placed[i] == p[i] by {
                assert(longer[i] == p.subrange(0, at + 1)[i]);
            }
        }
    }
    assert forall|p: Seq<usize>| placed.is_prefix_of(p) && p.len() > at && p[at] == node
        implies #[trigger] longer.is_prefix_of(p) by {
        assert(longer =~= p.subrange(0, at + 1));
    }
    assert forall|p: Seq<usize>| #[trigger] rows.contains(p) <==> is_linear_extension(table, n, p)
        && placed.is_prefix_of(p) && (exists|k: int|
        0 <= k < c + 1 && #[trigger] candidates[k] == p[at]) by {
        if rows.contains(p) {
            let i = choose|i: int| 0 <= i < rows.len() && rows[i] == p;
            if i < added.len() {
                assert(added[i] == p);
                assert(added.contains(p));
            } else {
                assert(batch[i - added.len()] == p);
                assert(batch.contains(p));
                assert(candidates[c] == p[at]);
            }
        }
        if is_linear_extension(table, n, p) && placed.is_prefix_of(p) && (exists|k: int|
            0 <= k < c + 1 && #[trigger] candidates[k] == p[at]) {
            let k = choose|k: int| 0 <= k < c + 1 && #[trigger] candidates[k] == p[at];
            if k < c {
                assert(added.contains(p));
                let i = choose|i: int| 0 <= i < added.len() && added[i] == p;
                assert(rows[i] == p);
            } else {
                assert(longer.is_prefix_of(p));
                assert(batch.contains(p));
                let i = choose|i: int| 0 <= i < batch.len() && batch[i] == p;
                assert(rows[added.len() + i] == p);
            }
        }
    }
    assert forall|i: int, j: int| 0 <= i < j < rows.len() implies lex_less(
        #[trigger] rows[i],
        #[trigger] rows[j],
    ) by {
        if j < added.len() {
            assert(rows[i] == added[i] && rows[j] == added[j]);
        } else if i >= added.len() {
            assert(rows[i] == batch[i - added.len()] && rows[j] == batch[j - added.len()]);
        } else {
            let a = added[i];
            let b = batch[j - added.len()];
            assert(added.contains(a));
            assert(batch.contains(b));
            let k = choose|k: int| 0 <= k < c && #[trigger] candidates[k] == a[at];
            assert(candidates[k] < candidates[c]);
            assert(less_at(a, b, at)) by {
                assert forall|m: int| 0 <= m < at implies a[m] == #[trigger] b[m] by {
                    assert(placed[m] == a.subrange(0, at)[m]);
                    assert(placed[m] == b.subrange(0, at)[m]);
                }
            }
        }
    }
}

/// `p` puts no order before one that it has to wait for.
pub open spec fn keeps_nonce_order(orders: Seq<Arc<SimulatedOrder>>, p: Seq<usize>) -> bool {
    forall|i: int, j: int|
        0 <= i < j < p.len() ==> !waits_for(orders, #[trigger] p[i] as int, #[trigger] p[j] as int)
}

/// `rows` lists, in lexicographic order and without repetition, all orderings of the orders that
/// keep their nonce order.
pub open spec fn lists_nonce_orderings(
    rows: Seq<Seq<usize>>,
    orders: Seq<Arc<SimulatedOrder>>,
) -> bool {
    &&& lex_sorted(rows)
    &&& forall|p: Seq<usize>| #[trigger]
        rows.contains(p) <==> is_ordering(p, orders.len() as int) && keeps_nonce_order(orders, p)
}

/// `table` lists, for each order, those that wait for it. Of order `i` only the first `count`
/// nonces are regarded, of the orders after it none.
spec fn table_up_to(
    table: Seq<Seq<usize>>,
    orders: Seq<Arc<SimulatedOrder>>,
    i: int,
    count: int,
) -> bool {
    &&& is_successor_table(table, orders.len() as int)
    &&& forall|u: int| 0 <= u < orders.len() ==> (#[trigger] table[u]).no_duplicates()
    &&& forall|u: int, v: usize|
        0 <= u < orders.len() && v < orders.len() ==> (#[trigger] precedes(table, u, v) <==> ((v < i
            && waits_for(orders, v as int, u)) || (v == i && waits_for_in(orders, i, u, count))))
}

/// The in-degrees of a table of which nothing has been placed.
spec fn counts_predecessors(table: Seq<Seq<usize>>, degrees: Seq<usize>) -> bool {
    &&& degrees.len() == table.len()
    &&& forall|v: int|
        0 <= v < table.len() ==> #[trigger] degrees[v] == open_predecessors(
            table,
            Seq::empty(),
            v as usize,
            table.len(),
        )
}

proof fn lemma_open_predecessors_add(
    table: Seq<Seq<usize>>,
    j: int,
    i: usize,
    v: usize,
    k: nat,
)
    requires
        0 <= j < table.len(),
        k <= table.len() <= usize::MAX,
    ensures
        open_predecessors(table.update(j, table[j].push(i)), Seq::empty(), v, k)
            == open_predecessors(table, Seq::empty(), v, k) + if v == i && j < k {
            1nat
        } else {
            0nat
        },
    decreases k,
{
    if k > 0 {
        lemma_open_predecessors_add(table, j, i, v, (k - 1) as nat);
        let next = table.update(j, table[j].push(i));
        if j == k - 1 {
            lemma_occurrences_push(table[j], i, v);
            assert(next[j] == table[j].push(i));
        }
    }
}

/// For each order, the orders that wait for it; and for each order, how many it waits for.
fn nonce_successors(orders: &[Arc<SimulatedOrder>]) -> (r: (Vec<Vec<usize>>, Vec<usize>))
    ensures
        is_successor_table(nested(r.0@), orders@.len() as int),
        forall|u: int, v: usize|
            0 <= u < orders@.len() && v < orders@.len() ==> (#[trigger] precedes(
                nested(r.0@),
                u,
                v,
            ) <==> waits_for(orders@, v as int, u)),
        counts_predecessors(nested(r.0@), r.1@),
{
    let node_count: usize = orders.len();
    let owners = index_nonces(orders);
    let mut successors: Vec<Vec<usize>> = Vec::new();
    let mut in_degrees: Vec<usize> = Vec::new();
    for i in 0..node_count
        invariant
            successors@.len() == i,
            in_degrees@.len() == i,
            forall|u: int| 0 <= u < i ==> #[trigger] successors@[u]@ == Seq::<usize>::empty(),
            forall|u: int| 0 <= u < i ==> #[trigger] in_degrees@[u] == 0,
    {
        successors.push(Vec::new());
        in_degrees.push(0);
    }
    proof {
        let table = nested(successors@);
        assert forall|v: int| 0 <= v < table.len() implies #[trigger] in_degrees@[v]
            == open_predecessors(table, Seq::empty(), v as usize, table.len()) by {
            lemma_open_predecessors_zero(table, Seq::empty(), v as usize, table.len());
        }
        assert(table_up_to(table, orders@, 0, 0));
    }
    for i in 0..node_count
        invariant
            node_count == orders@.len(),
            forall|address, nonce| #[trigger]
                looked_up(owners@, address, nonce) == nonce_owner(orders@, address, nonce),
            table_up_to(nested(successors@), orders@, i as int, 0),
            counts_predecessors(nested(successors@), in_degrees@),
    {
        let order = &orders[i];
        for k in 0..order.nonces.len()
            invariant
                node_count == orders@.len(),
                i < node_count,
                order == orders@[i as int],
                forall|address, nonce| #[trigger]
                    looked_up(owners@, address, nonce) == nonce_owner(orders@, address, nonce),
                table_up_to(nested(successors@), orders@, i as int, k as int),
                counts_predecessors(nested(successors@), in_degrees@),
        {
            let used = order.nonces[k];
            let ghost table = nested(successors@);
            if used.nonce > 0 {
                proof {
                    assert(looked_up(owners@, used.address, (used.nonce - 1) as u64) == nonce_owner(
                        orders@,
                        used.address,
                        (used.nonce - 1) as u64,
                    ));
                    lemma_nonce_owner_in_range(orders@, used.address, (used.nonce - 1) as u64);
                }
                match map_get(&owners, &key_of_nonce(used.address, used.nonce - 1)) {
                    Some(owner) => {
                        let j: usize = *owner;
                        assert(waits_through(orders@, i as int, j as int, k as int));
                        if j != i && !contains_index(&successors[j], i) {
                            let ghost degrees = in_degrees@;
                            proof {
                                lemma_open_predecessors_add(table, j as int, i, i, table.len());
                                lemma_open_predecessors_bound(
                                    table.update(j as int, table[j as int].push(i)),
                                    Seq::empty(),
                                    i,
                                    table.len(),
                                );
                            }
                            successors[j].push(i);
                            let degree: usize = in_degrees[i];
                            in_degrees.set(i, degree + 1);
                            proof {
                                let next = nested(successors@);
                                assert(next =~= table.update(j as int, table[j as int].push(i)));
                                assert forall|v: int|
                                    0 <= v < next.len() implies #[trigger] in_degrees@[v]
                                    == open_predecessors(
                                    next,
                                    Seq::empty(),
                                    v as usize,
                                    next.len(),
                                ) by {
                                    assert(degrees[v] == open_predecessors(
                                        table,
                                        Seq::empty(),
                                        v as usize,
                                        table.len(),
                                    ));
                                    lemma_open_predecessors_add(
                                        table,
                                        j as int,
                                        i,
                                        v as usize,
                                        table.len(),
                                    );
                                }
                            }
                        }
                        proof {
                            let next = nested(successors@);
                            lemma_table_step(
                                table,
                                next,
                                orders@,
                                i as int,
                                j as int,
                                k as int,
                            );
                        }
                    },
                    None => {
                        proof {
                            lemma_table_idle(table, orders@, i as int, k as int);
                        }
                    },
                }
            } else {
                proof {
                    lemma_table_idle(table, orders@, i as int, k as int);
                }
            }
        }
        proof {
            let table = nested(successors@);
            assert forall|u: int, v: usize| 0 <= u < orders@.len() && v < orders@.len() implies (
            #[trigger] precedes(table, u, v) <==> ((v < i + 1 && waits_for(orders@, v as int, u))
                || (v == i + 1 && waits_for_in(orders@, i + 1, u, 0)))) by {
            }
        }
    }
    (successors, in_degrees)
}

/// The nonce at position `k` of order `i` makes it wait for order `j` alone.
proof fn lemma_table_step(
    table: Seq<Seq<usize>>,
    next: Seq<Seq<usize>>,
    orders: Seq<Arc<SimulatedOrder>>,
    i: int,
    j: int,
    k: int,
)
    requires
        orders.len() <= usize::MAX,
        0 <= i < orders.len(),
        0 <= j < orders.len(),
        0 <= k,
        table_up_to(table, orders, i, k),
        waits_through(orders, i, j, k),
        if i != j && !table[j].contains(i as usize) {
            next == table.update(j, table[j].push(i as usize))
        } else {
            next == table
        },
    ensures
        table_up_to(next, orders, i, k + 1),
{
    let n = orders.len() as int;
    assert forall|u: int| 0 <= u < n implies waits_for_in(orders, i, u, k + 1) == (waits_for_in(
        orders,
        i,
        u,
        k,
    ) || (u == j && u != i)) by {
        if waits_for_in(orders, i, u, k + 1) && !waits_for_in(orders, i, u, k) {
            let m = choose|m: int| 0 <= m < k + 1 && #[trigger] waits_through(orders, i, u, m);
            assert(m == k);
        }
    }
    assert forall|u: int, v: usize| 0 <= u < n && v < n implies (#[trigger] precedes(next, u, v)
        <==> ((v < i && waits_for(orders, v as int, u)) || (v == i && waits_for_in(
        orders,
        i,
        u,
        k + 1,
    )))) by {
        let was = precedes(table, u, v);
        let held = waits_for_in(orders, i, u, k);
        let holds = waits_for_in(orders, i, u, k + 1);
        if u == j && next != table {
            lemma_push_contains(table[j], i as usize, v);
        }
        if u == j && i != j && next == table {
            assert(precedes(table, j, i as usize));
        }
    }
    assert forall|u: int| 0 <= u < n implies {
        &&& all_below(#[trigger] next[u], n)
        &&& next[u].no_duplicates()
    } by {
        let old_row = table[u];
        assert(all_below(old_row, n));
        if u == j && next != table {
            lemma_push_contains(table[j], i as usize, u as usize);
            assert forall|x: int, y: int| 0 <= x < next[u].len() && 0 <= y < next[u].len() && x
                != y implies next[u][x] != next[u][y] by {
                if x == old_row.len() {
                    assert(old_row.contains(old_row[y]));
                } else if y == old_row.len() {
                    assert(old_row.contains(old_row[x]));
                }
            }
        }
    }
}

/// A nonce whose predecessor nobody owns makes the order wait for none.
proof fn lemma_table_idle(
    table: Seq<Seq<usize>>,
    orders: Seq<Arc<SimulatedOrder>>,
    i: int,
    k: int,
)
    requires
        0 <= i < orders.len(),
        0 <= k < orders[i].nonces@.len(),
        table_up_to(table, orders, i, k),
        orders[i].nonces@[k].nonce == 0 || nonce_owner(
            orders,
            orders[i].nonces@[k].address,
            (orders[i].nonces@[k].nonce - 1) as u64,
        ) is None,
    ensures
        table_up_to(table, orders, i, k + 1),
{
    assert forall|u: int| waits_for_in(orders, i, u, k + 1) == #[trigger] waits_for_in(
        orders,
        i,
        u,
        k,
    ) by {
        if waits_for_in(orders, i, u, k + 1) {
            let m = choose|m: int| 0 <= m < k + 1 && #[trigger] waits_through(orders, i, u, m);
            assert(m != k);
        }
    }
}

/// Every ordering of the orders in which each stands after those that its nonces have to wait
/// for, in lexicographic order.
pub fn generate_all_permutations_with_nonces_for_orders(orders: &[Arc<SimulatedOrder>]) -> (r: Vec<
    Vec<usize>,
>)
    ensures
        lists_nonce_orderings(nested(r@), orders@),
{
    let node_count: usize = orders.len();
    let (successors, degrees) = nonce_successors(orders);
    let mut in_degrees = degrees;
    let mut all_permutations: Vec<Vec<usize>> = Vec::new();
    let mut current: Vec<usize> = Vec::new();
    let ghost table = nested(successors@);
    find_permutations_recursive(
        &successors,
        &mut current,
        &mut in_degrees,
        node_count,
        &mut all_permutations,
    );
    proof {
        let n = orders@.len() as int;
        let rows = nested(all_permutations@);
        let added = choose|added: Seq<Seq<usize>>|
            {
                &&& rows == Seq::<Seq<usize>>::empty() + added
                &&& #[trigger] lists_extensions(added, table, n, Seq::empty())
            };
        assert(rows =~= added);
        assert forall|p: Seq<usize>| #[trigger] rows.contains(p) <==> is_ordering(p, n)
            && keeps_nonce_order(orders@, p) by {
            assert(Seq::<usize>::empty().is_prefix_of(p));
            if is_ordering(p, n) {
                assert forall|i: int, j: int| 0 <= i < j < p.len() implies (#[trigger] precedes(
                    table,
                    p[j] as int,
                    p[i],
                ) <==> waits_for(orders@, p[i] as int, p[j] as int)) by {
                }
                assert(respects(table, p) == keeps_nonce_order(orders@, p));
            }
        }
    }
    all_permutations
}

} // verus!
