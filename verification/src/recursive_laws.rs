//! What every plan for resolving a large group has in common.
use vstd::prelude::*;

use crate::graph::{
    adjacent, are_components, connected, in_some, is_component, is_graph, is_path, is_residual,
    residual,
};
use crate::orderings::all_below;
use crate::recursive::{
    is_plan, is_sample, joined, joined_sequences, lemma_components_disjoint,
    lemma_increasing_no_duplicates,
    lemma_concatenated_no_duplicates, lemma_sample_contained, seed_plan,
    MIN_LENGTH_FOR_RECURSIVE_DEFAULT,
};

verus! {

/// Every part is neither empty nor too large to be solved at once, and holds only the given
/// orders.
pub open spec fn parts_are_small(plan: Seq<Seq<usize>>, indices: Seq<usize>) -> bool {
    forall|i: int| 0 <= i < plan.len() ==> is_small_part(#[trigger] plan[i], indices)
}

/// The part is neither empty nor too large to be solved at once, and holds only the given orders.
pub open spec fn is_small_part(part: Seq<usize>, indices: Seq<usize>) -> bool {
    &&& 0 < part.len() < MIN_LENGTH_FOR_RECURSIVE_DEFAULT
    &&& forall|x: usize| #[trigger] part.contains(x) ==> indices.contains(x)
}

/// The two parts share no order, and no edge leads from one to the other.
pub open spec fn are_independent(
    adjacency: Seq<Seq<usize>>,
    a: Seq<usize>,
    b: Seq<usize>,
) -> bool {
    forall|x: usize, y: usize|
        #![trigger a.contains(x), b.contains(y)]
        a.contains(x) && b.contains(y) ==> x != y && !adjacent(adjacency, x, y)
}

/// Any two parts are independent.
pub open spec fn parts_are_independent(
    adjacency: Seq<Seq<usize>>,
    plan: Seq<Seq<usize>>,
) -> bool {
    forall|i: int, j: int|
        0 <= i < plan.len() && 0 <= j < plan.len() && i != j ==> are_independent(
            adjacency,
            #[trigger] plan[i],
            #[trigger] plan[j],
        )
}

/// The order is in some part, or has an edge to an order that is.
pub open spec fn is_covered(
    adjacency: Seq<Seq<usize>>,
    plan: Seq<Seq<usize>>,
    x: usize,
) -> bool {
    exists|i: int, y: usize|
        0 <= i < plan.len() && #[trigger] plan[i].contains(y) && (x == y || adjacent(
            adjacency,
            x,
            y,
        ))
}

/// Every given order is covered.
pub open spec fn all_are_covered(
    adjacency: Seq<Seq<usize>>,
    plan: Seq<Seq<usize>>,
    indices: Seq<usize>,
) -> bool {
    forall|x: usize| #[trigger] indices.contains(x) ==> is_covered(adjacency, plan, x)
}

proof fn lemma_neighbours_connected(
    adjacency: Seq<Seq<usize>>,
    rest: Seq<usize>,
    x: usize,
    y: usize,
)
    requires
        rest.contains(x),
        rest.contains(y),
        adjacent(adjacency, x, y),
    ensures
        connected(adjacency, rest, x, y),
{
    let path = seq![x, y];
    assert(is_path(adjacency, rest, path));
    assert(path[0] == x && path.last() == y);
}

proof fn lemma_component_is_closed(
    adjacency: Seq<Seq<usize>>,
    rest: Seq<usize>,
    component: Seq<usize>,
    x: usize,
    y: usize,
)
    requires
        is_component(adjacency, rest, component),
        component.contains(x),
        connected(adjacency, rest, x, y),
    ensures
        component.contains(y),
{
}

/// Orders of different components have no edge between them.
proof fn lemma_components_apart(
    components: Seq<Seq<usize>>,
    adjacency: Seq<Seq<usize>>,
    rest: Seq<usize>,
    c: int,
    d: int,
    x: usize,
    y: usize,
)
    requires
        are_components(components, adjacency, rest),
        0 <= c < components.len(),
        0 <= d < components.len(),
        c != d,
        components[c].contains(x),
        components[d].contains(y),
    ensures
        x != y,
        !adjacent(adjacency, x, y),
{
    if x == y {
        lemma_components_disjoint(components, adjacency, rest, c, d, x);
    }
    if adjacent(adjacency, x, y) {
        assert(in_some(components, x) && in_some(components, y));
        assert(rest.contains(x) && rest.contains(y));
        lemma_neighbours_connected(adjacency, rest, x, y);
        lemma_component_is_closed(adjacency, rest, components[c], x, y);
        lemma_components_disjoint(components, adjacency, rest, c, d, y);
    }
}

/// No order is in two components, and no edge leads from one component to another.
spec fn are_apart(components: Seq<Seq<usize>>, adjacency: Seq<Seq<usize>>) -> bool {
    forall|c: int, d: int|
        0 <= c < components.len() && 0 <= d < components.len() && c != d ==> are_independent(
            adjacency,
            #[trigger] components[c],
            #[trigger] components[d],
        )
}

proof fn lemma_are_apart(
    components: Seq<Seq<usize>>,
    adjacency: Seq<Seq<usize>>,
    rest: Seq<usize>,
)
    requires
        are_components(components, adjacency, rest),
    ensures
        are_apart(components, adjacency),
{
    assert forall|c: int, d: int|
        0 <= c < components.len() && 0 <= d < components.len() && c != d implies are_independent(
        adjacency,
        #[trigger] components[c],
        #[trigger] components[d],
    ) by {
        assert forall|x: usize, y: usize|
            #![trigger components[c].contains(x), components[d].contains(y)]
            components[c].contains(x) && components[d].contains(y) implies x != y && !adjacent(
            adjacency,
            x,
            y,
        ) by {
            lemma_components_apart(components, adjacency, rest, c, d, x, y);
        }
    }
}

/// Parts of independent sets of orders are independent.
proof fn lemma_parts_of_independent(
    adjacency: Seq<Seq<usize>>,
    a: Seq<usize>,
    b: Seq<usize>,
    in_a: Seq<usize>,
    in_b: Seq<usize>,
)
    requires
        are_independent(adjacency, a, b),
        is_small_part(in_a, a),
        is_small_part(in_b, b),
    ensures
        are_independent(adjacency, in_a, in_b),
{
}

/// The part is a small part of one of the first `k` components.
spec fn belongs(part: Seq<usize>, components: Seq<Seq<usize>>, k: int) -> bool {
    exists|c: int| 0 <= c < k && is_small_part(part, #[trigger] components[c])
}

proof fn lemma_joined_belong(
    components: Seq<Seq<usize>>,
    plans: Seq<Seq<Seq<usize>>>,
    k: int,
)
    requires
        plans.len() == components.len(),
        0 <= k <= plans.len(),
        forall|c: int|
            0 <= c < components.len() ==> parts_are_small(#[trigger] plans[c], components[c]),
    ensures
        forall|i: int|
            0 <= i < joined(plans.take(k)).len() ==> belongs(
                #[trigger] joined(plans.take(k))[i],
                components,
                k,
            ),
    decreases k,
{
    if k > 0 {
        lemma_joined_belong(components, plans, k - 1);
        assert(plans.take(k).drop_last() =~= plans.take(k - 1));
        let a = joined(plans.take(k - 1));
        let b = plans[k - 1];
        let m = joined(plans.take(k));
        assert(m == a + b);
        assert forall|i: int| 0 <= i < m.len() implies belongs(
            #[trigger] m[i],
            components,
            k,
        ) by {
            if i < a.len() {
                assert(m[i] == a[i]);
                assert(belongs(a[i], components, k - 1));
                let c = choose|c: int|
                    0 <= c < k - 1 && is_small_part(a[i], #[trigger] components[c]);
                assert(is_small_part(m[i], components[c]));
            } else {
                assert(m[i] == b[i - a.len()]);
                assert(parts_are_small(b, components[k - 1]));
                assert(is_small_part(m[i], components[k - 1]));
            }
        }
    }
}

proof fn lemma_joined_independent(
    components: Seq<Seq<usize>>,
    adjacency: Seq<Seq<usize>>,
    plans: Seq<Seq<Seq<usize>>>,
    k: int,
)
    requires
        are_apart(components, adjacency),
        plans.len() == components.len(),
        0 <= k <= plans.len(),
        forall|c: int|
            0 <= c < components.len() ==> parts_are_small(#[trigger] plans[c], components[c]),
        forall|c: int|
            0 <= c < components.len() ==> parts_are_independent(adjacency, #[trigger] plans[c]),
    ensures
        parts_are_independent(adjacency, joined(plans.take(k))),
    decreases k,
{
    if k > 0 {
        lemma_joined_independent(components, adjacency, plans, k - 1);
        lemma_joined_belong(components, plans, k - 1);
        assert(plans.take(k).drop_last() =~= plans.take(k - 1));
        let a = joined(plans.take(k - 1));
        let b = plans[k - 1];
        let last = components[k - 1];
        let m = joined(plans.take(k));
        assert(m == a + b);
        assert forall|i: int, j: int|
            0 <= i < m.len() && 0 <= j < m.len() && i != j implies are_independent(
            adjacency,
            #[trigger] m[i],
            #[trigger] m[j],
        ) by {
            if i < a.len() && j < a.len() {
                assert(m[i] == a[i] && m[j] == a[j]);
            } else if i >= a.len() && j >= a.len() {
                assert(m[i] == b[i - a.len()] && m[j] == b[j - a.len()]);
            } else {
                let (p, q) = if i < a.len() { (i, j - a.len()) } else { (j, i - a.len()) };
                assert(belongs(a[p], components, k - 1));
                let c = choose|c: int|
                    0 <= c < k - 1 && is_small_part(a[p], #[trigger] components[c]);
                assert(parts_are_small(b, last));
                assert(is_small_part(b[q], last));
                if i < a.len() {
                    lemma_parts_of_independent(adjacency, components[c], last, a[p], b[q]);
                } else {
                    lemma_parts_of_independent(adjacency, last, components[c], b[q], a[p]);
                }
            }
        }
    }
}

proof fn lemma_covered_by_more(
    adjacency: Seq<Seq<usize>>,
    plan: Seq<Seq<usize>>,
    before: Seq<Seq<usize>>,
    after: Seq<Seq<usize>>,
    x: usize,
)
    requires
        is_covered(adjacency, plan, x),
    ensures
        is_covered(adjacency, before + plan + after, x),
{
    let m = before + plan + after;
    let (i, y) = choose|i: int, y: usize|
        0 <= i < plan.len() && #[trigger] plan[i].contains(y) && (x == y || adjacent(
            adjacency,
            x,
            y,
        ));
    assert(m[before.len() + i] == plan[i]);
    assert(m[before.len() + i].contains(y));
}

proof fn lemma_joined_covered(
    components: Seq<Seq<usize>>,
    adjacency: Seq<Seq<usize>>,
    plans: Seq<Seq<Seq<usize>>>,
    k: int,
    c: int,
    x: usize,
)
    requires
        plans.len() == components.len(),
        0 <= c < k <= plans.len(),
        all_are_covered(adjacency, plans[c], components[c]),
        components[c].contains(x),
    ensures
        is_covered(adjacency, joined(plans.take(k)), x),
    decreases k,
{
    assert(plans.take(k).drop_last() =~= plans.take(k - 1));
    let a = joined(plans.take(k - 1));
    let b = plans[k - 1];
    let none = Seq::<Seq<usize>>::empty();
    if c < k - 1 {
        lemma_joined_covered(components, adjacency, plans, k - 1, c, x);
        lemma_covered_by_more(adjacency, a, none, b, x);
        assert(none + a + b =~= a + b);
    } else {
        lemma_covered_by_more(adjacency, b, a, none, x);
        assert(a + b + none =~= a + b);
    }
}

/// What the seeds leave over is among the given orders, and apart from the seeds.
proof fn lemma_residual_members(
    adjacency: Seq<Seq<usize>>,
    indices: Seq<usize>,
    seeds: Seq<usize>,
    x: usize,
)
    requires
        all_below(indices, adjacency.len() as int),
    ensures
        residual(adjacency, indices, seeds).contains(x) <==> indices.contains(x) && is_residual(
            adjacency,
            seeds,
            x,
        ),
        indices.contains(x) ==> x < adjacency.len(),
{
    let rest = residual(adjacency, indices, seeds);
    let keep = |x: usize| is_residual(adjacency, seeds, x);
    if rest.contains(x) {
        indices.lemma_filter_contains_rev(keep, x);
        let i = choose|i: int| 0 <= i < rest.len() && rest[i] == x;
        indices.lemma_filter_pred(keep, i);
    }
    if indices.contains(x) {
        let j = choose|j: int| 0 <= j < indices.len() && indices[j] == x;
        assert((indices[j] as int) < adjacency.len());
        if is_residual(adjacency, seeds, x) {
            assert(keep(indices[j]));
            indices.lemma_filter_contains(keep, j);
        }
    }
}

/// Seeds and what they leave over are independent.
proof fn lemma_seeds_apart(
    adjacency: Seq<Seq<usize>>,
    indices: Seq<usize>,
    seeds: Seq<usize>,
)
    requires
        is_graph(adjacency, adjacency.len() as int),
        all_below(indices, adjacency.len() as int),
        is_sample(indices, seeds),
    ensures
        are_independent(adjacency, seeds, residual(adjacency, indices, seeds)),
        are_independent(adjacency, residual(adjacency, indices, seeds), seeds),
{
    let rest = residual(adjacency, indices, seeds);
    lemma_sample_contained(indices, seeds);
    assert forall|s: usize, x: usize| seeds.contains(s) && rest.contains(x) implies s != x
        && !#[trigger] adjacent(adjacency, s, x) && !adjacent(adjacency, x, s) by {
        lemma_residual_members(adjacency, indices, seeds, x);
        lemma_residual_members(adjacency, indices, seeds, s);
        let k = choose|k: int| 0 <= k < seeds.len() && seeds[k] == s;
        assert(indices.contains(seeds[k]));
        assert(!adjacent(adjacency, x, s));
        assert(adjacent(adjacency, s, x) == adjacent(adjacency, x, s));
    }
    assert forall|s: usize, x: usize|
        #![trigger seeds.contains(s), rest.contains(x)]
        seeds.contains(s) && rest.contains(x) implies s != x && !adjacent(adjacency, s, x) by {
        let unused = adjacent(adjacency, s, x);
    }
    assert forall|x: usize, s: usize|
        #![trigger rest.contains(x), seeds.contains(s)]
        rest.contains(x) && seeds.contains(s) implies x != s && !adjacent(adjacency, x, s) by {
        let unused = adjacent(adjacency, s, x);
    }
}

/// A part of a component is a part of all that it was taken from.
proof fn lemma_part_of_rest(
    components: Seq<Seq<usize>>,
    adjacency: Seq<Seq<usize>>,
    rest: Seq<usize>,
    part: Seq<usize>,
)
    requires
        are_components(components, adjacency, rest),
        belongs(part, components, components.len() as int),
    ensures
        is_small_part(part, rest),
{
    let c = choose|c: int|
        0 <= c < components.len() && is_small_part(part, #[trigger] components[c]);
    assert forall|x: usize| #[trigger] part.contains(x) implies rest.contains(x) by {
        assert(components[c].contains(x));
        assert(in_some(components, x));
    }
}

/// The parts of the components' plans are small parts of what the seeds leave over.
proof fn lemma_tail_is_small(
    components: Seq<Seq<usize>>,
    adjacency: Seq<Seq<usize>>,
    rest: Seq<usize>,
    plans: Seq<Seq<Seq<usize>>>,
)
    requires
        are_components(components, adjacency, rest),
        plans.len() == components.len(),
        forall|c: int|
            0 <= c < components.len() ==> parts_are_small(#[trigger] plans[c], components[c]),
    ensures
        parts_are_small(joined(plans), rest),
{
    let total = plans.len() as int;
    assert(plans.take(total) =~= plans);
    lemma_joined_belong(components, plans, total);
    let tail = joined(plans);
    assert forall|i: int| 0 <= i < tail.len() implies is_small_part(
        #[trigger] tail[i],
        rest,
    ) by {
        assert(belongs(tail[i], components, total));
        lemma_part_of_rest(components, adjacency, rest, tail[i]);
    }
}

proof fn lemma_sampled_plan_is_small(
    adjacency: Seq<Seq<usize>>,
    indices: Seq<usize>,
    seeds: Seq<usize>,
    tail: Seq<Seq<usize>>,
)
    requires
        all_below(indices, adjacency.len() as int),
        indices.len() >= MIN_LENGTH_FOR_RECURSIVE_DEFAULT,
        is_sample(indices, seeds),
        parts_are_small(tail, residual(adjacency, indices, seeds)),
    ensures
        parts_are_small(seq![seeds] + tail, indices),
{
    let rest = residual(adjacency, indices, seeds);
    let plan = seq![seeds] + tail;
    lemma_sample_contained(indices, seeds);
    assert forall|i: int| 0 <= i < plan.len() implies is_small_part(
        #[trigger] plan[i],
        indices,
    ) by {
        if i > 0 {
            assert(plan[i] == tail[i - 1]);
            assert(is_small_part(tail[i - 1], rest));
            assert forall|x: usize| #[trigger] plan[i].contains(x) implies indices.contains(x) by {
                assert(rest.contains(x));
                lemma_residual_members(adjacency, indices, seeds, x);
            }
        } else {
            assert(plan[0] == seeds);
            assert forall|x: usize| #[trigger] seeds.contains(x) implies indices.contains(x) by {
                let j = choose|j: int| 0 <= j < seeds.len() && seeds[j] == x;
                assert(indices.contains(seeds[j]));
            }
        }
    }
}

proof fn lemma_sampled_plan_is_independent(
    adjacency: Seq<Seq<usize>>,
    seeds: Seq<usize>,
    rest: Seq<usize>,
    tail: Seq<Seq<usize>>,
)
    requires
        0 < seeds.len() < MIN_LENGTH_FOR_RECURSIVE_DEFAULT,
        are_independent(adjacency, seeds, rest),
        are_independent(adjacency, rest, seeds),
        parts_are_small(tail, rest),
        parts_are_independent(adjacency, tail),
    ensures
        parts_are_independent(adjacency, seq![seeds] + tail),
{
    let plan = seq![seeds] + tail;
    assert(is_small_part(seeds, seeds));
    assert forall|i: int, j: int|
        0 <= i < plan.len() && 0 <= j < plan.len() && i != j implies are_independent(
        adjacency,
        #[trigger] plan[i],
        #[trigger] plan[j],
    ) by {
        if i > 0 && j > 0 {
            assert(plan[i] == tail[i - 1] && plan[j] == tail[j - 1]);
        } else if i == 0 {
            assert(plan[j] == tail[j - 1]);
            lemma_parts_of_independent(adjacency, seeds, rest, seeds, tail[j - 1]);
        } else {
            assert(plan[i] == tail[i - 1]);
            lemma_parts_of_independent(adjacency, rest, seeds, tail[i - 1], seeds);
        }
    }
}

proof fn lemma_sampled_plan_covers(
    adjacency: Seq<Seq<usize>>,
    indices: Seq<usize>,
    seeds: Seq<usize>,
    components: Seq<Seq<usize>>,
    plans: Seq<Seq<Seq<usize>>>,
    x: usize,
)
    requires
        all_below(indices, adjacency.len() as int),
        are_components(components, adjacency, residual(adjacency, indices, seeds)),
        plans.len() == components.len(),
        forall|c: int|
            0 <= c < components.len() ==> all_are_covered(
                adjacency,
                #[trigger] plans[c],
                components[c],
            ),
        indices.contains(x),
    ensures
        is_covered(adjacency, seq![seeds] + joined(plans), x),
{
    let rest = residual(adjacency, indices, seeds);
    let tail = joined(plans);
    let plan = seq![seeds] + tail;
    let total = plans.len() as int;
    assert(plan[0] == seeds);
    lemma_residual_members(adjacency, indices, seeds, x);
    if is_residual(adjacency, seeds, x) {
        assert(rest.contains(x));
        assert(in_some(components, x));
        let c = choose|c: int| 0 <= c < components.len() && #[trigger] components[c].contains(x);
        assert(all_are_covered(adjacency, plans[c], components[c]));
        lemma_joined_covered(components, adjacency, plans, total, c, x);
        assert(plans.take(total) =~= plans);
        let none = Seq::<Seq<usize>>::empty();
        lemma_covered_by_more(adjacency, tail, seq![seeds], none, x);
        assert(seq![seeds] + tail + none =~= plan);
    } else if seeds.contains(x) {
        assert(plan[0].contains(x));
    } else {
        let s = choose|s: usize| #[trigger] seeds.contains(s) && adjacent(adjacency, x, s);
        assert(plan[0].contains(s));
    }
}

/// The parts of a plan that begins with a sample.
proof fn lemma_sampled_plan(
    adjacency: Seq<Seq<usize>>,
    indices: Seq<usize>,
    seeds: Seq<usize>,
    components: Seq<Seq<usize>>,
    plans: Seq<Seq<Seq<usize>>>,
)
    requires
        is_graph(adjacency, adjacency.len() as int),
        all_below(indices, adjacency.len() as int),
        indices.len() >= MIN_LENGTH_FOR_RECURSIVE_DEFAULT,
        is_sample(indices, seeds),
        are_components(components, adjacency, residual(adjacency, indices, seeds)),
        plans.len() == components.len(),
        forall|c: int|
            0 <= c < components.len() ==> parts_are_small(#[trigger] plans[c], components[c]),
        forall|c: int|
            0 <= c < components.len() ==> parts_are_independent(adjacency, #[trigger] plans[c]),
        forall|c: int|
            0 <= c < components.len() ==> all_are_covered(
                adjacency,
                #[trigger] plans[c],
                components[c],
            ),
    ensures
        parts_are_small(seed_plan(seeds, plans), indices),
        parts_are_independent(adjacency, seed_plan(seeds, plans)),
        all_are_covered(adjacency, seed_plan(seeds, plans), indices),
{
    let rest = residual(adjacency, indices, seeds);
    let plan = seed_plan(seeds, plans);
    let tail = joined(plans);
    assert(plan == seq![seeds] + tail);
    lemma_tail_is_small(components, adjacency, rest, plans);
    assert(parts_are_small(plan, indices)) by {
        lemma_sampled_plan_is_small(adjacency, indices, seeds, tail);
    }
    assert(parts_are_independent(adjacency, plan)) by {
        assert(parts_are_independent(adjacency, tail)) by {
            lemma_are_apart(components, adjacency, rest);
            lemma_joined_independent(components, adjacency, plans, plans.len() as int);
            assert(plans.take(plans.len() as int) =~= plans);
        }
        lemma_seeds_apart(adjacency, indices, seeds);
        lemma_sampled_plan_is_independent(adjacency, seeds, rest, tail);
    }
    assert(all_are_covered(adjacency, plan, indices)) by {
        assert forall|x: usize| #[trigger] indices.contains(x) implies is_covered(
            adjacency,
            plan,
            x,
        ) by {
            lemma_sampled_plan_covers(adjacency, indices, seeds, components, plans, x);
        }
    }
}

/// A plan never splits an interaction: its subproblems are small, any two of them share no order
/// and have no edge between them, and a given order that is in none has an edge to one that is.
pub proof fn law_plan_parts_are_independent(
    adjacency: Seq<Seq<usize>>,
    indices: Seq<usize>,
    plan: Seq<Seq<usize>>,
)
    requires
        is_graph(adjacency, adjacency.len() as int),
        all_below(indices, adjacency.len() as int),
        is_plan(adjacency, indices, plan),
    ensures
        parts_are_small(plan, indices),
        parts_are_independent(adjacency, plan),
        all_are_covered(adjacency, plan, indices),
    decreases indices.len(),
{
    if indices.len() == 0 {
    } else if indices.len() < MIN_LENGTH_FOR_RECURSIVE_DEFAULT {
        assert(plan[0] == indices);
        assert forall|x: usize| #[trigger] indices.contains(x) implies is_covered(
            adjacency,
            plan,
            x,
        ) by {
            assert(plan[0].contains(x));
        }
    } else {
        let (seeds, components, plans) = choose|
            seeds: Seq<usize>,
            components: Seq<Seq<usize>>,
            plans: Seq<Seq<Seq<usize>>>,
        |
            {
                &&& is_sample(indices, seeds)
                &&& #[trigger] are_components(
                    components,
                    adjacency,
                    residual(adjacency, indices, seeds),
                )
                &&& plans.len() == components.len()
                &&& forall|c: int|
                    0 <= c < components.len() ==> (#[trigger] components[c]).len() < indices.len()
                        && is_plan(adjacency, components[c], plans[c])
                &&& plan == #[trigger] seed_plan(seeds, plans)
            };
        let rest = residual(adjacency, indices, seeds);
        assert forall|c: int| 0 <= c < components.len() implies parts_are_small(
            #[trigger] plans[c],
            components[c],
        ) && parts_are_independent(adjacency, plans[c]) && all_are_covered(
            adjacency,
            plans[c],
            components[c],
        ) by {
            let part = components[c];
            assert(is_component(adjacency, rest, part));
            assert forall|i: int| 0 <= i < part.len() implies (#[trigger] part[i] as int)
                < adjacency.len() by {
                assert(rest.contains(part[i]));
                lemma_residual_members(adjacency, indices, seeds, part[i]);
            }
            law_plan_parts_are_independent(adjacency, part, plans[c]);
        }
        lemma_sampled_plan(adjacency, indices, seeds, components, plans);
    }
}

/// Every solution lists orders of its subproblem, none of them twice.
pub open spec fn solutions_repeat_no_order(
    plan: Seq<Seq<usize>>,
    outs: Seq<(Vec<usize>, usize)>,
) -> bool {
    &&& outs.len() == plan.len()
    &&& forall|i: int|
        0 <= i < plan.len() ==> (#[trigger] outs[i]).0@.no_duplicates() && forall|x: usize|
            outs[i].0@.contains(x) ==> #[trigger] plan[i].contains(x)
}

proof fn lemma_joined_from_parts(
    plan: Seq<Seq<usize>>,
    outs: Seq<(Vec<usize>, usize)>,
    k: int,
    x: usize,
)
    requires
        solutions_repeat_no_order(plan, outs),
        0 <= k <= outs.len(),
        joined_sequences(outs.take(k)).contains(x),
    ensures
        exists|i: int| 0 <= i < k && #[trigger] plan[i].contains(x),
    decreases k,
{
    let some = outs.take(k);
    if k > 0 {
        assert(some.drop_last() =~= outs.take(k - 1));
        assert(some.last() == outs[k - 1]);
        let a = joined_sequences(outs.take(k - 1));
        let b = outs[k - 1].0@;
        let j = choose|j: int| 0 <= j < (a + b).len() && (a + b)[j] == x;
        if j < a.len() {
            assert(a[j] == x);
            lemma_joined_from_parts(plan, outs, k - 1, x);
            let i = choose|i: int| 0 <= i < k - 1 && #[trigger] plan[i].contains(x);
            assert(plan[i].contains(x));
        } else {
            assert(b[j - a.len()] == x);
            assert(outs[k - 1].0@.contains(x));
            assert(plan[k - 1].contains(x));
        }
    }
}

proof fn lemma_joined_repeat_no_order(
    adjacency: Seq<Seq<usize>>,
    plan: Seq<Seq<usize>>,
    outs: Seq<(Vec<usize>, usize)>,
    k: int,
)
    requires
        parts_are_independent(adjacency, plan),
        solutions_repeat_no_order(plan, outs),
        0 <= k <= outs.len(),
    ensures
        joined_sequences(outs.take(k)).no_duplicates(),
    decreases k,
{
    let some = outs.take(k);
    if k > 0 {
        lemma_joined_repeat_no_order(adjacency, plan, outs, k - 1);
        assert(some.drop_last() =~= outs.take(k - 1));
        assert(some.last() == outs[k - 1]);
        let a = joined_sequences(outs.take(k - 1));
        let b = outs[k - 1].0@;
        assert forall|x: usize| a.contains(x) implies !#[trigger] b.contains(x) by {
            lemma_joined_from_parts(plan, outs, k - 1, x);
            let i = choose|i: int| 0 <= i < k - 1 && #[trigger] plan[i].contains(x);
            if b.contains(x) {
                assert(outs[k - 1].0@.contains(x));
                assert(plan[k - 1].contains(x));
                assert(are_independent(adjacency, plan[i], plan[k - 1]));
            }
        }
        assert(outs[k - 1].0@.no_duplicates());
        lemma_concatenated_no_duplicates(a, b);
    }
}

/// The sequence that the solutions of a plan make up lists only the given orders, and none of
/// them twice, where each solution lists only orders of its subproblem, and none of them twice.
pub proof fn law_joined_solutions_repeat_no_order(
    adjacency: Seq<Seq<usize>>,
    indices: Seq<usize>,
    plan: Seq<Seq<usize>>,
    outs: Seq<(Vec<usize>, usize)>,
)
    requires
        is_graph(adjacency, adjacency.len() as int),
        all_below(indices, adjacency.len() as int),
        is_plan(adjacency, indices, plan),
        solutions_repeat_no_order(plan, outs),
    ensures
        joined_sequences(outs).no_duplicates(),
        forall|x: usize| #[trigger] joined_sequences(outs).contains(x) ==> indices.contains(x),
{
    law_plan_parts_are_independent(adjacency, indices, plan);
    assert(outs.take(outs.len() as int) =~= outs);
    lemma_joined_repeat_no_order(adjacency, plan, outs, outs.len() as int);
    assert forall|x: usize| #[trigger] joined_sequences(outs).contains(x) implies indices.contains(
        x,
    ) by {
        lemma_joined_from_parts(plan, outs, outs.len() as int, x);
        let i = choose|i: int| 0 <= i < plan.len() && #[trigger] plan[i].contains(x);
        assert(is_small_part(plan[i], indices));
    }
}

/// No part of the plan lists an order twice.
pub open spec fn parts_repeat_no_order(plan: Seq<Seq<usize>>) -> bool {
    forall|i: int| 0 <= i < plan.len() ==> (#[trigger] plan[i]).no_duplicates()
}

/// A sample of distinct orders lists none twice.
proof fn lemma_sample_repeats_no_order(indices: Seq<usize>, seeds: Seq<usize>)
    requires
        indices.no_duplicates(),
        is_sample(indices, seeds),
    ensures
        seeds.no_duplicates(),
{
    indices.to_multiset_ensures();
    seeds.to_multiset_ensures();
    indices.lemma_multiset_has_no_duplicates();
    assert forall|x: usize| seeds.to_multiset().contains(x) implies seeds.to_multiset().count(x)
        == 1 by {
        assert(seeds.to_multiset().count(x) <= indices.to_multiset().count(x));
        assert(indices.to_multiset().contains(x));
    }
    seeds.lemma_multiset_has_no_duplicates_conv();
}

proof fn lemma_joined_parts_repeat_no_order(plans: Seq<Seq<Seq<usize>>>)
    requires
        forall|c: int| 0 <= c < plans.len() ==> parts_repeat_no_order(#[trigger] plans[c]),
    ensures
        parts_repeat_no_order(joined(plans)),
    decreases plans.len(),
{
    if plans.len() > 0 {
        let init = plans.drop_last();
        assert forall|c: int| 0 <= c < init.len() implies parts_repeat_no_order(
            #[trigger] init[c],
        ) by {
            assert(init[c] == plans[c]);
        }
        lemma_joined_parts_repeat_no_order(init);
        assert(parts_repeat_no_order(plans[plans.len() - 1]));
    }
}

/// Where the given orders are distinct, no subproblem of a plan lists an order twice.
pub proof fn law_plan_parts_repeat_no_order(
    adjacency: Seq<Seq<usize>>,
    indices: Seq<usize>,
    plan: Seq<Seq<usize>>,
)
    requires
        indices.no_duplicates(),
        is_plan(adjacency, indices, plan),
    ensures
        parts_repeat_no_order(plan),
    decreases indices.len(),
{
    if indices.len() >= MIN_LENGTH_FOR_RECURSIVE_DEFAULT {
        let (seeds, components, plans) = choose|
            seeds: Seq<usize>,
            components: Seq<Seq<usize>>,
            plans: Seq<Seq<Seq<usize>>>,
        |
            {
                &&& is_sample(indices, seeds)
                &&& #[trigger] are_components(
                    components,
                    adjacency,
                    residual(adjacency, indices, seeds),
                )
                &&& plans.len() == components.len()
                &&& forall|c: int|
                    0 <= c < components.len() ==> (#[trigger] components[c]).len() < indices.len()
                        && is_plan(adjacency, components[c], plans[c])
                &&& plan == #[trigger] seed_plan(seeds, plans)
            };
        let rest = residual(adjacency, indices, seeds);
        assert forall|c: int| 0 <= c < plans.len() implies parts_repeat_no_order(
            #[trigger] plans[c],
        ) by {
            assert(is_component(adjacency, rest, components[c]));
            lemma_increasing_no_duplicates(components[c]);
            law_plan_parts_repeat_no_order(adjacency, components[c], plans[c]);
        }
        lemma_joined_parts_repeat_no_order(plans);
        lemma_sample_repeats_no_order(indices, seeds);
    }
}

} // verus!
