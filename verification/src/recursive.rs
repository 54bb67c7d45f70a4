//! Resolving a large group piece by piece: a sample of its orders is solved first, then what the
//! sample leaves over, component by component.
use rand::rngs::SmallRng;
use vstd::prelude::*;
use vstd::seq_lib::*;
use vstd::set_lib::*;

use crate::graph::{
    are_components, connected, increasing, is_component, is_residual,
    partition_residual_components, residual, InteractionGraph,
};
use crate::orderings::{all_below, nested};
use crate::random::{choose_among, is_choice};

verus! {

/// Groups of fewer orders than this are solved at once.
pub const MIN_LENGTH_FOR_RECURSIVE_DEFAULT: usize = 8;

/// How many orders are sampled from a group that is not solved at once.
pub const RECURSIVE_DEFAULT_SEED_COUNT: usize = 7;

/// The seed of the generator that samples are drawn with.
pub const RECURSIVE_DEFAULT_SAMPLE_SEED: u64 = 0x06511;

/// `seeds` are the orders at as many different positions as are sampled.
pub open spec fn is_sample(indices: Seq<usize>, seeds: Seq<usize>) -> bool {
    &&& seeds.len() == if RECURSIVE_DEFAULT_SEED_COUNT <= indices.len() {
        RECURSIVE_DEFAULT_SEED_COUNT as nat
    } else {
        indices.len()
    }
    &&& seeds.to_multiset().subset_of(indices.to_multiset())
}

/// `seeds` are a sample that was drawn with the generator, which left the other one.
pub open spec fn is_draw(
    indices: Seq<usize>,
    rng: SmallRng,
    seeds: Seq<usize>,
    left: SmallRng,
) -> bool {
    &&& is_sample(indices, seeds)
    &&& is_choice(indices, RECURSIVE_DEFAULT_SEED_COUNT, rng, seeds, left)
}

/// Samples the orders to solve first.
pub fn sample_seed_indices(indices: &[usize], rng: &mut SmallRng) -> (seeds: Vec<usize>)
    ensures
        is_draw(indices@, *old(rng), seeds@, *final(rng)),
{
    choose_among(indices, rng, RECURSIVE_DEFAULT_SEED_COUNT)
}

/// The parts, one after another.
pub open spec fn joined(parts: Seq<Seq<Seq<usize>>>) -> Seq<Seq<usize>>
    decreases parts.len(),
{
    if parts.len() == 0 {
        Seq::empty()
    } else {
        joined(parts.drop_last()) + parts.last()
    }
}

/// `plan` lists the subproblems into which the given orders are split, in the order in which they
/// are solved: nothing for no order, the orders themselves where they are few, and otherwise a
/// sample followed by the plans of what it leaves over.
pub open spec fn is_plan(
    adjacency: Seq<Seq<usize>>,
    indices: Seq<usize>,
    plan: Seq<Seq<usize>>,
) -> bool
    decreases indices.len(), 0nat,
{
    if indices.len() == 0 {
        plan.len() == 0
    } else if indices.len() < MIN_LENGTH_FOR_RECURSIVE_DEFAULT {
        plan == seq![indices]
    } else {
        exists|seeds: Seq<usize>, components: Seq<Seq<usize>>, plans: Seq<Seq<Seq<usize>>>|
            {
                &&& is_sample(indices, seeds)
                &&& #[trigger] are_components(
                    components,
                    adjacency,
                    residual(adjacency, indices, seeds),
                )
                &&& plans.len() == components.len()
                &&& forall|c: int|
                    0 <= c < components.len() ==> (#[trigger] components[c]).len() < indices.len()
                        && is_plan(adjacency, components[c], plans[c])
                &&& plan == #[trigger] seed_plan(seeds, plans)
            }
    }
}

/// The seeds, followed by the plans of the components.
pub open spec fn seed_plan(seeds: Seq<usize>, plans: Seq<Seq<Seq<usize>>>) -> Seq<Seq<usize>> {
    seq![seeds] + joined(plans)
}

/// `plan` is a plan whose samples are drawn with the generator, one after another; `left` is what
/// is left of the generator.
#[verifier::opaque]
pub open spec fn is_drawn_plan(
    adjacency: Seq<Seq<usize>>,
    indices: Seq<usize>,
    rng: SmallRng,
    plan: Seq<Seq<usize>>,
    left: SmallRng,
) -> bool
    decreases indices.len(), 0nat,
{
    if indices.len() < MIN_LENGTH_FOR_RECURSIVE_DEFAULT {
        is_plan(adjacency, indices, plan) && left == rng
    } else {
        exists|
            seeds: Seq<usize>,
            components: Seq<Seq<usize>>,
            plans: Seq<Seq<Seq<usize>>>,
            generators: Seq<SmallRng>,
        |
            {
                &&& #[trigger] are_components(
                    components,
                    adjacency,
                    residual(adjacency, indices, seeds),
                )
                &&& plans.len() == components.len()
                &&& generators.len() == components.len() + 1
                &&& #[trigger] is_draw(indices, rng, seeds, generators[0])
                &&& forall|c: int|
                    0 <= c < components.len() ==> (#[trigger] components[c]).len() < indices.len()
                        && is_drawn_plan(
                        adjacency,
                        components[c],
                        generators[c],
                        plans[c],
                        generators[c + 1],
                    )
                &&& plan == #[trigger] seed_plan(seeds, plans)
                &&& left == generators.last()
            }
    }
}

/// `plan` lists the subproblems where the given seeds are solved first, and the samples behind them
/// are drawn with the generator; `left` is what is left of it.
pub open spec fn is_drawn_plan_from(
    adjacency: Seq<Seq<usize>>,
    indices: Seq<usize>,
    seeds: Seq<usize>,
    rng: SmallRng,
    plan: Seq<Seq<usize>>,
    left: SmallRng,
) -> bool {
    exists|
        components: Seq<Seq<usize>>,
        plans: Seq<Seq<Seq<usize>>>,
        generators: Seq<SmallRng>,
    |
        {
            &&& #[trigger] are_components(
                components,
                adjacency,
                residual(adjacency, indices, seeds),
            )
            &&& plans.len() == components.len()
            &&& generators.len() == components.len() + 1
            &&& generators[0] == rng
            &&& #[trigger] are_drawn_plans(adjacency, components, plans, generators)
            &&& plan == seed_plan(seeds, plans)
            &&& left == generators.last()
        }
}

/// The plans are those of the first components, and their samples are drawn one after another,
/// while the generator goes through the states.
pub open spec fn are_drawn_plans(
    adjacency: Seq<Seq<usize>>,
    components: Seq<Seq<usize>>,
    plans: Seq<Seq<Seq<usize>>>,
    generators: Seq<SmallRng>,
) -> bool {
    &&& plans.len() <= components.len()
    &&& forall|c: int|
        0 <= c < plans.len() ==> is_drawn_plan(
            adjacency,
            components[c],
            generators[c],
            #[trigger] plans[c],
            generators[c + 1],
        )
}

/// `tried` is the beginning of a plan, up to one of its subproblems, whose samples are drawn with
/// the generator: the whole plan where the orders are few; and otherwise the sample alone, or the
/// sample, the plans of some components and the beginning of a plan of the next component.
#[verifier::opaque]
pub open spec fn is_drawn_beginning(
    adjacency: Seq<Seq<usize>>,
    indices: Seq<usize>,
    rng: SmallRng,
    tried: Seq<Seq<usize>>,
) -> bool
    decreases indices.len(), 0nat,
{
    if indices.len() == 0 {
        false
    } else if indices.len() < MIN_LENGTH_FOR_RECURSIVE_DEFAULT {
        tried == seq![indices]
    } else {
        exists|
            seeds: Seq<usize>,
            components: Seq<Seq<usize>>,
            plans: Seq<Seq<Seq<usize>>>,
            generators: Seq<SmallRng>,
            begun: Option<Seq<Seq<usize>>>,
        |
            {
                &&& #[trigger] are_components(
                    components,
                    adjacency,
                    residual(adjacency, indices, seeds),
                )
                &&& #[trigger] is_draw(indices, rng, seeds, generators[0])
                &&& #[trigger] are_drawn_plans(adjacency, components, plans, generators)
                &&& match begun {
                    Some(last) => {
                        &&& plans.len() < components.len()
                        &&& components[plans.len() as int].len() < indices.len()
                        &&& is_drawn_beginning(
                            adjacency,
                            components[plans.len() as int],
                            generators[plans.len() as int],
                            last,
                        )
                    },
                    None => plans.len() == 0,
                }
                &&& tried == #[trigger] begun_plan(seeds, plans, begun)
            }
    }
}

/// The seeds, the plans of some components and the beginning of the next one's, where there is one.
pub open spec fn begun_plan(
    seeds: Seq<usize>,
    plans: Seq<Seq<Seq<usize>>>,
    begun: Option<Seq<Seq<usize>>>,
) -> Seq<Seq<usize>> {
    match begun {
        Some(last) => seed_plan(seeds, plans) + last,
        None => seed_plan(seeds, plans),
    }
}

/// `tried` is the beginning of a plan where the given seeds are solved first.
pub open spec fn is_drawn_beginning_from(
    adjacency: Seq<Seq<usize>>,
    indices: Seq<usize>,
    seeds: Seq<usize>,
    rng: SmallRng,
    tried: Seq<Seq<usize>>,
) -> bool {
    exists|
        components: Seq<Seq<usize>>,
        plans: Seq<Seq<Seq<usize>>>,
        generators: Seq<SmallRng>,
        begun: Option<Seq<Seq<usize>>>,
    |
        {
            &&& #[trigger] are_components(
                components,
                adjacency,
                residual(adjacency, indices, seeds),
            )
            &&& generators[0] == rng
            &&& #[trigger] are_drawn_plans(adjacency, components, plans, generators)
            &&& match begun {
                Some(last) => plans.len() < components.len() && is_drawn_beginning(
                    adjacency,
                    components[plans.len() as int],
                    generators[plans.len() as int],
                    last,
                ),
                None => plans.len() == 0,
            }
            &&& tried == #[trigger] begun_plan(seeds, plans, begun)
        }
}

/// A plan whose samples are drawn is a plan.
pub proof fn lemma_drawn_plan_is_plan(
    adjacency: Seq<Seq<usize>>,
    indices: Seq<usize>,
    rng: SmallRng,
    plan: Seq<Seq<usize>>,
    left: SmallRng,
)
    requires
        is_drawn_plan(adjacency, indices, rng, plan, left),
    ensures
        is_plan(adjacency, indices, plan),
    decreases indices.len(),
{
    reveal(is_drawn_plan);
    if indices.len() >= MIN_LENGTH_FOR_RECURSIVE_DEFAULT {
        let (seeds, components, plans, generators) = choose|
            seeds: Seq<usize>,
            components: Seq<Seq<usize>>,
            plans: Seq<Seq<Seq<usize>>>,
            generators: Seq<SmallRng>,
        |
            {
                &&& #[trigger] are_components(
                    components,
                    adjacency,
                    residual(adjacency, indices, seeds),
                )
                &&& plans.len() == components.len()
                &&& generators.len() == components.len() + 1
                &&& #[trigger] is_draw(indices, rng, seeds, generators[0])
                &&& forall|c: int|
                    0 <= c < components.len() ==> (#[trigger] components[c]).len() < indices.len()
                        && is_drawn_plan(
                        adjacency,
                        components[c],
                        generators[c],
                        plans[c],
                        generators[c + 1],
                    )
                &&& plan == #[trigger] seed_plan(seeds, plans)
                &&& left == generators.last()
            };
        assert forall|c: int| 0 <= c < components.len() implies (#[trigger] components[c]).len()
            < indices.len() && is_plan(adjacency, components[c], plans[c]) by {
            lemma_drawn_plan_is_plan(
                adjacency,
                components[c],
                generators[c],
                plans[c],
                generators[c + 1],
            );
        }
    }
}

/// The solver accepts every small subproblem of `n` orders.
pub open spec fn accepts_small<E, F: Fn(&[usize]) -> Result<(Vec<usize>, usize), E>>(
    solver: F,
    n: int,
) -> bool {
    forall|s: &[usize]|
        0 < s@.len() < MIN_LENGTH_FOR_RECURSIVE_DEFAULT && all_below(s@, n)
            ==> #[trigger] call_requires(solver, (s,))
}

/// The solver gives `out` for a subproblem.
pub open spec fn solves<E, F: Fn(&[usize]) -> Result<(Vec<usize>, usize), E>>(
    solver: F,
    part: Seq<usize>,
    out: (Vec<usize>, usize),
) -> bool {
    exists|s: &[usize]| s@ == part && #[trigger] call_ensures(solver, (s,), Ok(out))
}

/// The solver fails on a subproblem.
pub open spec fn fails<E, F: Fn(&[usize]) -> Result<(Vec<usize>, usize), E>>(
    solver: F,
    part: Seq<usize>,
    error: E,
) -> bool {
    exists|s: &[usize]| s@ == part && #[trigger] call_ensures(solver, (s,), Err(error))
}

/// The solver solved the subproblems before the last one, and failed on that.
pub open spec fn fails_at_last<E, F: Fn(&[usize]) -> Result<(Vec<usize>, usize), E>>(
    solver: F,
    tried: Seq<Seq<usize>>,
    error: E,
) -> bool {
    &&& tried.len() > 0
    &&& fails(solver, tried.last(), error)
    &&& exists|outs: Seq<(Vec<usize>, usize)>| #[trigger]
        solves_all(solver, tried.drop_last(), outs)
}

/// The sequences that the solver gave, one after another.
pub open spec fn joined_sequences(outs: Seq<(Vec<usize>, usize)>) -> Seq<usize>
    decreases outs.len(),
{
    if outs.len() == 0 {
        Seq::empty()
    } else {
        joined_sequences(outs.drop_last()) + outs.last().0@
    }
}

/// The number of candidate sequences that the solver tried.
pub open spec fn total_count(outs: Seq<(Vec<usize>, usize)>) -> nat
    decreases outs.len(),
{
    if outs.len() == 0 {
        0
    } else {
        total_count(outs.drop_last()) + outs.last().1 as nat
    }
}

/// The solver gave `outs` for the subproblems of the plan.
pub open spec fn solves_all<E, F: Fn(&[usize]) -> Result<(Vec<usize>, usize), E>>(
    solver: F,
    plan: Seq<Seq<usize>>,
    outs: Seq<(Vec<usize>, usize)>,
) -> bool {
    &&& outs.len() == plan.len()
    &&& forall|i: int| 0 <= i < plan.len() ==> solves(solver, #[trigger] plan[i], outs[i])
}

/// The sequence and the count are made up of what the solver gave for the plan.
pub open spec fn is_solution<E, F: Fn(&[usize]) -> Result<(Vec<usize>, usize), E>>(
    solver: F,
    plan: Seq<Seq<usize>>,
    sequence: Seq<usize>,
    count: usize,
) -> bool {
    exists|outs: Seq<(Vec<usize>, usize)>| #[trigger]
        solves_all(solver, plan, outs) && sequence == joined_sequences(outs) && count
            == total_count(outs)
}

/// The solver never tries more than `limit` candidate sequences.
pub open spec fn tries_at_most<E, F: Fn(&[usize]) -> Result<(Vec<usize>, usize), E>>(
    solver: F,
    limit: nat,
) -> bool {
    forall|s: &[usize], out: (Vec<usize>, usize)| #[trigger]
        call_ensures(solver, (s,), Ok(out)) ==> out.1 <= limit
}

/// The candidates that the solver tries for `parts` subproblems can be counted.
pub open spec fn can_count<E, F: Fn(&[usize]) -> Result<(Vec<usize>, usize), E>>(
    solver: F,
    parts: nat,
) -> bool {
    exists|limit: nat| #[trigger] tries_at_most(solver, limit) && limit * parts <= usize::MAX
}

pub proof fn lemma_total_count_bound<E, F: Fn(&[usize]) -> Result<(Vec<usize>, usize), E>>(
    solver: F,
    plan: Seq<Seq<usize>>,
    outs: Seq<(Vec<usize>, usize)>,
    limit: nat,
)
    requires
        tries_at_most(solver, limit),
        solves_all(solver, plan, outs),
    ensures
        total_count(outs) <= limit * plan.len(),
    decreases plan.len(),
{
    if plan.len() > 0 {
        let k = plan.len() - 1;
        assert(solves(solver, plan[k], outs[k]));
        assert(solves_all(solver, plan.drop_last(), outs.drop_last())) by {
            assert forall|i: int| 0 <= i < k implies solves(
                solver,
                #[trigger] plan.drop_last()[i],
                outs.drop_last()[i],
            ) by {
                assert(plan.drop_last()[i] == plan[i]);
            }
        }
        lemma_total_count_bound(solver, plan.drop_last(), outs.drop_last(), limit);
        assert(limit * plan.len() == limit * (plan.len() - 1) + limit) by (nonlinear_arith)
            requires
                plan.len() > 0,
        ;
    } else {
        assert(limit * plan.len() == 0) by (nonlinear_arith)
            requires
                plan.len() == 0,
        ;
    }
}

proof fn lemma_total_count_add(a: Seq<(Vec<usize>, usize)>, b: Seq<(Vec<usize>, usize)>)
    ensures
        total_count(a + b) == total_count(a) + total_count(b),
        joined_sequences(a + b) == joined_sequences(a) + joined_sequences(b),
    decreases b.len(),
{
    if b.len() == 0 {
        assert(a + b =~= a);
        assert(joined_sequences(a) + joined_sequences(b) =~= joined_sequences(a));
    } else {
        lemma_total_count_add(a, b.drop_last());
        assert((a + b).drop_last() =~= a + b.drop_last());
        assert((a + b).last() == b.last());
        assert(joined_sequences(a + b) =~= joined_sequences(a) + joined_sequences(b));
    }
}

proof fn lemma_solves_all_add<E, F: Fn(&[usize]) -> Result<(Vec<usize>, usize), E>>(
    solver: F,
    p: Seq<Seq<usize>>,
    q: Seq<Seq<usize>>,
    a: Seq<(Vec<usize>, usize)>,
    b: Seq<(Vec<usize>, usize)>,
)
    requires
        solves_all(solver, p, a),
        solves_all(solver, q, b),
    ensures
        solves_all(solver, p + q, a + b),
{
    assert forall|i: int| 0 <= i < (p + q).len() implies solves(
        solver,
        #[trigger] (p + q)[i],
        (a + b)[i],
    ) by {
        if i < p.len() {
            assert((p + q)[i] == p[i] && (a + b)[i] == a[i]);
        } else {
            let k = i - p.len();
            assert((p + q)[i] == q[k] && (a + b)[i] == b[k]);
        }
    }
}

/// Distinct elements that are all among those of another sequence are no more than these.
proof fn lemma_contained_len(a: Seq<usize>, b: Seq<usize>)
    requires
        a.no_duplicates(),
        forall|i: int| 0 <= i < a.len() ==> b.contains(#[trigger] a[i]),
    ensures
        a.len() <= b.len(),
{
    a.unique_seq_to_set();
    b.lemma_cardinality_of_set();
    assert(a.to_set().subset_of(b.to_set())) by {
        assert forall|x: usize| a.to_set().contains(x) implies b.to_set().contains(x) by {
            let i = choose|i: int| 0 <= i < a.len() && a[i] == x;
            assert(b.contains(a[i]));
        }
    }
    lemma_len_subset(a.to_set(), b.to_set());
}

/// A filter that drops an element makes the sequence shorter.
proof fn lemma_filter_drops(s: Seq<usize>, keep: spec_fn(usize) -> bool, k: int)
    requires
        0 <= k < s.len(),
        !keep(s[k]),
    ensures
        s.filter(keep).len() < s.len(),
    decreases s.len(),
{
    reveal(Seq::filter);
    if k == s.len() - 1 {
        s.drop_last().lemma_filter_len(keep);
    } else {
        assert(s.drop_last()[k] == s[k]);
        lemma_filter_drops(s.drop_last(), keep, k);
    }
}

/// The elements of a sample are among those that it was taken from.
pub proof fn lemma_sample_contained(indices: Seq<usize>, seeds: Seq<usize>)
    requires
        is_sample(indices, seeds),
    ensures
        forall|i: int| 0 <= i < seeds.len() ==> indices.contains(#[trigger] seeds[i]),
{
    assert forall|i: int| 0 <= i < seeds.len() implies indices.contains(#[trigger] seeds[i]) by {
        seeds.to_multiset_ensures();
        indices.to_multiset_ensures();
        assert(seeds.contains(seeds[i]));
        assert(seeds.to_multiset().count(seeds[i]) > 0);
        assert(indices.to_multiset().count(seeds[i]) > 0);
    }
}

/// What a sample leaves over is less than what it was taken from.
proof fn lemma_residual_shrinks(
    adjacency: Seq<Seq<usize>>,
    indices: Seq<usize>,
    seeds: Seq<usize>,
)
    requires
        is_sample(indices, seeds),
        indices.len() > 0,
    ensures
        residual(adjacency, indices, seeds).len() < indices.len(),
{
    lemma_sample_contained(indices, seeds);
    let k = choose|k: int| 0 <= k < indices.len() && indices[k] == seeds[0];
    assert(indices.contains(seeds[0]));
    assert(seeds.contains(seeds[0]));
    lemma_filter_drops(indices, |x: usize| is_residual(adjacency, seeds, x), k);
}

pub proof fn lemma_increasing_no_duplicates(s: Seq<usize>)
    requires
        increasing(s),
    ensures
        s.no_duplicates(),
{
    assert forall|i: int, j: int| 0 <= i < s.len() && 0 <= j < s.len() && i != j implies s[i]
        != s[j] by {
        if i < j {
            assert(s[i] < s[j]);
        } else {
            assert(s[j] < s[i]);
        }
    }
}

/// The members of the components `0..k`, one component after another.
spec fn members(components: Seq<Seq<usize>>, k: int) -> Seq<usize>
    decreases k,
{
    if k <= 0 {
        Seq::empty()
    } else {
        members(components, k - 1) + components[k - 1]
    }
}

/// Two sequences without duplicates that share no element have none together.
pub proof fn lemma_concatenated_no_duplicates(a: Seq<usize>, b: Seq<usize>)
    requires
        a.no_duplicates(),
        b.no_duplicates(),
        forall|x: usize| a.contains(x) ==> !#[trigger] b.contains(x),
    ensures
        (a + b).no_duplicates(),
{
    let m = a + b;
    assert forall|i: int, j: int| 0 <= i < m.len() && 0 <= j < m.len() && i != j implies m[i]
        != m[j] by {
        if i < a.len() && j >= a.len() {
            assert(a.contains(a[i]));
            assert(b.contains(b[j - a.len()]));
        } else if j < a.len() && i >= a.len() {
            assert(a.contains(a[j]));
            assert(b.contains(b[i - a.len()]));
        }
    }
}

proof fn lemma_members(
    components: Seq<Seq<usize>>,
    adjacency: Seq<Seq<usize>>,
    rest: Seq<usize>,
    k: int,
)
    requires
        are_components(components, adjacency, rest),
        0 <= k <= components.len(),
    ensures
        members(components, k).no_duplicates(),
        forall|x: usize| #[trigger]
            members(components, k).contains(x) ==> rest.contains(x) && exists|c: int|
                0 <= c < k && #[trigger] components[c].contains(x),
    decreases k,
{
    if k > 0 {
        lemma_members(components, adjacency, rest, k - 1);
        let a = members(components, k - 1);
        let b = components[k - 1];
        lemma_increasing_no_duplicates(b);
        assert forall|x: usize| a.contains(x) implies !#[trigger] b.contains(x) by {
            let c = choose|c: int| 0 <= c < k - 1 && #[trigger] components[c].contains(x);
            if b.contains(x) {
                lemma_components_disjoint(components, adjacency, rest, c, k - 1, x);
            }
        }
        let m = a + b;
        lemma_concatenated_no_duplicates(a, b);
        assert forall|x: usize| #[trigger] m.contains(x) implies rest.contains(x) && exists|c: int|
            0 <= c < k && #[trigger] components[c].contains(x) by {
            let i = choose|i: int| 0 <= i < m.len() && m[i] == x;
            if i < a.len() {
                assert(a.contains(x));
            } else {
                assert(b[i - a.len()] == x);
                assert(components[k - 1].contains(x));
                assert(rest.contains(b[i - a.len()]));
            }
        }
    }
}

/// No order is in two components.
pub proof fn lemma_components_disjoint(
    components: Seq<Seq<usize>>,
    adjacency: Seq<Seq<usize>>,
    rest: Seq<usize>,
    c: int,
    d: int,
    x: usize,
)
    requires
        are_components(components, adjacency, rest),
        0 <= c < components.len(),
        0 <= d < components.len(),
        components[c].contains(x),
        components[d].contains(x),
    ensures
        c == d,
{
    if c != d {
        let a = components[c];
        let b = components[d];
        assert(is_component(adjacency, rest, a) && is_component(adjacency, rest, b));
        let fa = a[0];
        let fb = b[0];
        assert(a.contains(fa));
        assert(b.contains(fb));
        assert(a.contains(fa) == connected(adjacency, rest, x, fa));
        assert(b.contains(fa) == connected(adjacency, rest, x, fa));
        assert(b.contains(fb) == connected(adjacency, rest, x, fb));
        assert(a.contains(fb) == connected(adjacency, rest, x, fb));
        let i = choose|i: int| 0 <= i < b.len() && b[i] == fa;
        let j = choose|j: int| 0 <= j < a.len() && a[j] == fb;
        assert(increasing(a) && increasing(b));
        if c < d {
            assert(components[c][0] < components[d][0]);
            if i > 0 {
                assert(b[0] < b[i]);
            }
        } else {
            assert(components[d][0] < components[c][0]);
            if j > 0 {
                assert(a[0] < a[j]);
            }
        }
    }
}

/// A plan has at most as many subproblems as there are orders.
pub proof fn lemma_plan_len(adjacency: Seq<Seq<usize>>, indices: Seq<usize>, plan: Seq<Seq<usize>>)
    requires
        is_plan(adjacency, indices, plan),
    ensures
        plan.len() <= indices.len(),
    decreases indices.len(),
{
    if indices.len() >= MIN_LENGTH_FOR_RECURSIVE_DEFAULT {
        let (seeds, components, plans) = choose|
            seeds: Seq<usize>,
            components: Seq<Seq<usize>>,
            plans: Seq<Seq<Seq<usize>>>,
        |
            {
                &&& is_sample(indices, seeds)
                &&& #[trigger] are_components(
                    components,
                    adjacency,
                    residual(adjacency, indices, seeds),
                )
                &&& plans.len() == components.len()
                &&& forall|c: int|
                    0 <= c < components.len() ==> (#[trigger] components[c]).len() < indices.len()
                        && is_plan(adjacency, components[c], plans[c])
                &&& plan == #[trigger] seed_plan(seeds, plans)
            };
        let rest = residual(adjacency, indices, seeds);
        assert forall|c: int| 0 <= c < components.len() implies (#[trigger] plans[c]).len()
            <= components[c].len() by {
            lemma_plan_len(adjacency, components[c], plans[c]);
        }
        lemma_joined_len(components, plans, plans.len() as int);
        lemma_members(components, adjacency, rest, components.len() as int);
        let m = members(components, components.len() as int);
        assert forall|i: int| 0 <= i < m.len() implies rest.contains(#[trigger] m[i]) by {
            assert(m.contains(m[i]));
        }
        lemma_contained_len(m, rest);
        lemma_residual_shrinks(adjacency, indices, seeds);
        assert(plans.take(plans.len() as int) =~= plans);
    }
}

proof fn lemma_joined_len(components: Seq<Seq<usize>>, plans: Seq<Seq<Seq<usize>>>, k: int)
    requires
        plans.len() == components.len(),
        0 <= k <= plans.len(),
        forall|c: int|
            0 <= c < components.len() ==> (#[trigger] plans[c]).len() <= components[c].len(),
    ensures
        joined(plans.take(k)).len() <= members(components, k).len(),
    decreases k,
{
    if k > 0 {
        lemma_joined_len(components, plans, k - 1);
        assert(plans.take(k).drop_last() =~= plans.take(k - 1));
        assert(plans[k - 1].len() <= components[k - 1].len());
    }
}

/// Every order of a subproblem, and of what it is split into, is one of the group's.
proof fn lemma_components_below(
    components: Seq<Seq<usize>>,
    adjacency: Seq<Seq<usize>>,
    indices: Seq<usize>,
    seeds: Seq<usize>,
    c: int,
)
    requires
        are_components(components, adjacency, residual(adjacency, indices, seeds)),
        0 <= c < components.len(),
        all_below(indices, adjacency.len() as int),
    ensures
        all_below(components[c], adjacency.len() as int),
        components[c].len() <= residual(adjacency, indices, seeds).len(),
        components[c].len() > 0,
        forall|i: int|
            0 <= i < components[c].len() ==> indices.contains(#[trigger] components[c][i]),
{
    let rest = residual(adjacency, indices, seeds);
    let part = components[c];
    assert(is_component(adjacency, rest, part));
    lemma_increasing_no_duplicates(part);
    assert forall|i: int| 0 <= i < part.len() implies rest.contains(#[trigger] part[i]) && (
    part[i] as int) < adjacency.len() && indices.contains(part[i]) by {
        indices.lemma_filter_contains_rev(
            |x: usize| is_residual(adjacency, seeds, x),
            part[i],
        );
        let j = choose|j: int| 0 <= j < indices.len() && indices[j] == part[i];
        assert((indices[j] as int) < adjacency.len());
    }
    lemma_contained_len(part, rest);
}

/// Solves the given orders: at once where they are few, and otherwise a sample of them first.
pub fn solve_recursive_default_indices_with_solver<
    E,
    F: Fn(&[usize]) -> Result<(Vec<usize>, usize), E>,
>(graph: &InteractionGraph, indices: &[usize], rng: &mut SmallRng, solve_small: &F) -> (r: Result<
    (Vec<usize>, usize),
    E,
>)
    requires
        graph.well_formed(),
        all_below(indices@, graph.order_count()),
        accepts_small(*solve_small, graph.order_count()),
        can_count(*solve_small, indices@.len()),
    ensures
        match r {
            Ok(out) => exists|plan: Seq<Seq<usize>>| #[trigger]
                is_drawn_plan(graph.adjacency(), indices@, *old(rng), plan, *final(rng))
                    && is_solution(*solve_small, plan, out.0@, out.1),
            Err(error) => exists|tried: Seq<Seq<usize>>| #[trigger]
                is_drawn_beginning(graph.adjacency(), indices@, *old(rng), tried)
                    && fails_at_last(*solve_small, tried, error),
        },
    decreases 2 * indices@.len(),
{
    let ghost adjacency = graph.adjacency();
    if indices.len() == 0 {
        proof {
            let plan = Seq::<Seq<usize>>::empty();
            let outs = Seq::<(Vec<usize>, usize)>::empty();
            assert(is_drawn_plan(adjacency, indices@, *rng, plan, *rng)) by {
                reveal(is_drawn_plan);
            }
            assert(solves_all(*solve_small, plan, outs));
        }
        return Ok((Vec::new(), 0));
    }
    if indices.len() < MIN_LENGTH_FOR_RECURSIVE_DEFAULT {
        let r = solve_small(indices);
        let ghost given = r;
        proof {
            match given {
                Ok(out) => {
                    let plan = seq![indices@];
                    let outs = seq![out];
                    assert(is_drawn_plan(adjacency, indices@, *rng, plan, *rng)) by {
                        reveal(is_drawn_plan);
                    }
                    assert(solves(*solve_small, plan[0], outs[0]));
                    assert(solves_all(*solve_small, plan, outs));
                    lemma_single_out(out);
                    assert(is_solution(*solve_small, plan, out.0@, out.1));
                },
                Err(error) => {
                    let tried = seq![indices@];
                    assert(fails(*solve_small, tried.last(), error));
                    assert(solves_all(*solve_small, tried.drop_last(), Seq::empty()));
                    assert(is_drawn_beginning(adjacency, indices@, *rng, tried)) by {
                        reveal(is_drawn_beginning);
                    }
                },
            }
        }
        return r;
    }
    let ghost first = *rng;
    let seeds = sample_seed_indices(indices, rng);
    let ghost second = *rng;
    proof {
        lemma_sample_contained(indices@, seeds@);
        assert forall|i: int| 0 <= i < seeds@.len() implies (#[trigger] seeds@[i] as int)
            < graph.order_count() by {
            assert(indices@.contains(seeds@[i]));
            let j = choose|j: int| 0 <= j < indices@.len() && indices@[j] == seeds@[i];
            assert((indices@[j] as int) < graph.order_count());
        }
        lemma_residual_shrinks(adjacency, indices@, seeds@);
        let limit = choose|limit: nat| #[trigger]
            tries_at_most(*solve_small, limit) && limit * indices@.len() <= usize::MAX;
        lemma_fewer_fit(
            limit,
            residual(adjacency, indices@, seeds@).len() + 1,
            indices@.len(),
        );
    }
    let r = solve_recursive_default_from_seed_indices_with_solver(
        graph,
        indices,
        &seeds,
        rng,
        solve_small,
    );
    let ghost given = r;
    proof {
        match given {
            Ok(out) => {
                let plan = choose|plan: Seq<Seq<usize>>| #[trigger]
                    is_drawn_plan_from(adjacency, indices@, seeds@, second, plan, *rng)
                        && is_solution(*solve_small, plan, out.0@, out.1);
                lemma_plan_from_sample(
                    adjacency,
                    indices@,
                    first,
                    seeds@,
                    second,
                    plan,
                    *rng,
                );
            },
            Err(error) => {
                let tried = choose|tried: Seq<Seq<usize>>| #[trigger]
                    is_drawn_beginning_from(adjacency, indices@, seeds@, second, tried)
                        && fails_at_last(*solve_small, tried, error);
                lemma_beginning_from_sample(adjacency, indices@, first, seeds@, second, tried);
            },
        }
    }
    r
}

proof fn lemma_single_out(out: (Vec<usize>, usize))
    ensures
        joined_sequences(seq![out]) == out.0@,
        total_count(seq![out]) == out.1,
{
    let outs = seq![out];
    assert(outs.drop_last() =~= Seq::empty());
    assert(outs.last() == out);
    reveal_with_fuel(joined_sequences, 2);
    reveal_with_fuel(total_count, 2);
    assert(joined_sequences(outs) =~= out.0@);
}

proof fn lemma_fewer_fit(limit: nat, fewer: nat, more: nat)
    requires
        limit * more <= usize::MAX,
        fewer <= more,
    ensures
        limit * fewer <= usize::MAX,
{
    assert(limit * fewer <= limit * more) by (nonlinear_arith)
        requires
            fewer <= more,
    ;
}

/// A plan from sampled seeds is a plan.
proof fn lemma_plan_from_sample(
    adjacency: Seq<Seq<usize>>,
    indices: Seq<usize>,
    rng: SmallRng,
    seeds: Seq<usize>,
    next: SmallRng,
    plan: Seq<Seq<usize>>,
    left: SmallRng,
)
    requires
        is_drawn_plan_from(adjacency, indices, seeds, next, plan, left),
        is_draw(indices, rng, seeds, next),
        indices.len() >= MIN_LENGTH_FOR_RECURSIVE_DEFAULT,
        all_below(indices, adjacency.len() as int),
    ensures
        is_drawn_plan(adjacency, indices, rng, plan, left),
{
    reveal(is_drawn_plan);
    let (components, plans, generators) = choose|
        components: Seq<Seq<usize>>,
        plans: Seq<Seq<Seq<usize>>>,
        generators: Seq<SmallRng>,
    |
        {
            &&& #[trigger] are_components(
                components,
                adjacency,
                residual(adjacency, indices, seeds),
            )
            &&& plans.len() == components.len()
            &&& generators.len() == components.len() + 1
            &&& generators[0] == next
            &&& #[trigger] are_drawn_plans(adjacency, components, plans, generators)
            &&& plan == seed_plan(seeds, plans)
            &&& left == generators.last()
        };
    lemma_residual_shrinks(adjacency, indices, seeds);
    assert forall|c: int| 0 <= c < components.len() implies (#[trigger] components[c]).len()
        < indices.len() && is_drawn_plan(
        adjacency,
        components[c],
        generators[c],
        plans[c],
        generators[c + 1],
    ) by {
        lemma_components_below(components, adjacency, indices, seeds, c);
        assert(is_drawn_plan(
            adjacency,
            components[c],
            generators[c],
            plans[c],
            generators[c + 1],
        ));
    }
    assert(is_draw(indices, rng, seeds, generators[0]));
    assert(plan == seed_plan(seeds, plans));
}

/// The beginning of a plan from sampled seeds is the beginning of a plan.
proof fn lemma_beginning_from_sample(
    adjacency: Seq<Seq<usize>>,
    indices: Seq<usize>,
    rng: SmallRng,
    seeds: Seq<usize>,
    next: SmallRng,
    tried: Seq<Seq<usize>>,
)
    requires
        is_drawn_beginning_from(adjacency, indices, seeds, next, tried),
        is_draw(indices, rng, seeds, next),
        indices.len() >= MIN_LENGTH_FOR_RECURSIVE_DEFAULT,
        all_below(indices, adjacency.len() as int),
    ensures
        is_drawn_beginning(adjacency, indices, rng, tried),
{
    reveal(is_drawn_beginning);
    let (components, plans, generators, begun) = choose|
        components: Seq<Seq<usize>>,
        plans: Seq<Seq<Seq<usize>>>,
        generators: Seq<SmallRng>,
        begun: Option<Seq<Seq<usize>>>,
    |
        {
            &&& #[trigger] are_components(
                components,
                adjacency,
                residual(adjacency, indices, seeds),
            )
            &&& generators[0] == next
            &&& #[trigger] are_drawn_plans(adjacency, components, plans, generators)
            &&& match begun {
                Some(last) => plans.len() < components.len() && is_drawn_beginning(
                    adjacency,
                    components[plans.len() as int],
                    generators[plans.len() as int],
                    last,
                ),
                None => plans.len() == 0,
            }
            &&& tried == #[trigger] begun_plan(seeds, plans, begun)
        };
    lemma_residual_shrinks(adjacency, indices, seeds);
    if begun is Some {
        lemma_components_below(components, adjacency, indices, seeds, plans.len() as int);
    }
    assert(is_draw(indices, rng, seeds, generators[0]));
}

/// One more plan, drawn with what the others left of the generator.
proof fn lemma_drawn_plans_push(
    adjacency: Seq<Seq<usize>>,
    components: Seq<Seq<usize>>,
    plans: Seq<Seq<Seq<usize>>>,
    generators: Seq<SmallRng>,
    plan: Seq<Seq<usize>>,
    left: SmallRng,
)
    requires
        are_drawn_plans(adjacency, components, plans, generators),
        generators.len() == plans.len() + 1,
        plans.len() < components.len(),
        is_drawn_plan(
            adjacency,
            components[plans.len() as int],
            generators.last(),
            plan,
            left,
        ),
    ensures
        are_drawn_plans(adjacency, components, plans.push(plan), generators.push(left)),
{
    let grown = plans.push(plan);
    let further = generators.push(left);
    assert forall|d: int| 0 <= d < grown.len() implies is_drawn_plan(
        adjacency,
        components[d],
        further[d],
        #[trigger] grown[d],
        further[d + 1],
    ) by {
        if d < plans.len() {
            assert(grown[d] == plans[d]);
            assert(further[d] == generators[d] && further[d + 1] == generators[d + 1]);
        }
    }
}

proof fn lemma_drawn_plans_are_plans(
    adjacency: Seq<Seq<usize>>,
    components: Seq<Seq<usize>>,
    plans: Seq<Seq<Seq<usize>>>,
    generators: Seq<SmallRng>,
)
    requires
        are_drawn_plans(adjacency, components, plans, generators),
    ensures
        forall|d: int|
            0 <= d < plans.len() ==> is_plan(adjacency, #[trigger] components[d], plans[d]),
{
    assert forall|d: int| 0 <= d < plans.len() implies is_plan(
        adjacency,
        #[trigger] components[d],
        plans[d],
    ) by {
        lemma_drawn_plan_is_plan(
            adjacency,
            components[d],
            generators[d],
            plans[d],
            generators[d + 1],
        );
    }
}

/// The solutions of one more component's plan follow those before, and can still be counted.
proof fn lemma_component_solved<E, F: Fn(&[usize]) -> Result<(Vec<usize>, usize), E>>(
    solver: F,
    adjacency: Seq<Seq<usize>>,
    components: Seq<Seq<usize>>,
    rest: Seq<usize>,
    seeds: Seq<usize>,
    plans: Seq<Seq<Seq<usize>>>,
    plan: Seq<Seq<usize>>,
    outs: Seq<(Vec<usize>, usize)>,
    more: Seq<(Vec<usize>, usize)>,
    limit: nat,
)
    requires
        are_components(components, adjacency, rest),
        plans.len() < components.len(),
        forall|d: int|
            0 <= d < plans.len() + 1 ==> is_plan(
                adjacency,
                #[trigger] components[d],
                plans.push(plan)[d],
            ),
        tries_at_most(solver, limit),
        limit * (rest.len() + 1) <= usize::MAX,
        solves_all(solver, seed_plan(seeds, plans), outs),
        solves_all(solver, plan, more),
    ensures
        solves_all(solver, seed_plan(seeds, plans.push(plan)), outs + more),
        joined_sequences(outs + more) == joined_sequences(outs) + joined_sequences(more),
        total_count(outs + more) == total_count(outs) + total_count(more),
        total_count(outs + more) <= usize::MAX,
{
    let grown = plans.push(plan);
    assert(grown.drop_last() =~= plans);
    assert(seed_plan(seeds, grown) =~= seed_plan(seeds, plans) + plan);
    lemma_solves_all_add(solver, seed_plan(seeds, plans), plan, outs, more);
    lemma_total_count_add(outs, more);
    lemma_seed_plan_len(adjacency, components, rest, seeds, grown, grown.len() as int);
    lemma_total_count_bound(solver, seed_plan(seeds, grown), outs + more, limit);
    lemma_fewer_fit(limit, seed_plan(seeds, grown).len(), rest.len() + 1);
}

/// What fails at its last subproblem still does so behind subproblems that were solved.
proof fn lemma_fails_behind<E, F: Fn(&[usize]) -> Result<(Vec<usize>, usize), E>>(
    solver: F,
    solved: Seq<Seq<usize>>,
    outs: Seq<(Vec<usize>, usize)>,
    begun: Seq<Seq<usize>>,
    error: E,
)
    requires
        solves_all(solver, solved, outs),
        fails_at_last(solver, begun, error),
    ensures
        fails_at_last(solver, solved + begun, error),
{
    let more = choose|more: Seq<(Vec<usize>, usize)>| #[trigger]
        solves_all(solver, begun.drop_last(), more);
    let tried = solved + begun;
    assert(tried.last() == begun.last());
    assert(tried.drop_last() =~= solved + begun.drop_last());
    lemma_solves_all_add(solver, solved, begun.drop_last(), outs, more);
}

/// Solves the seeds, and then each component of what they leave over.
pub fn solve_recursive_default_from_seed_indices_with_solver<
    E,
    F: Fn(&[usize]) -> Result<(Vec<usize>, usize), E>,
>(
    graph: &InteractionGraph,
    indices: &[usize],
    seed_indices: &[usize],
    rng: &mut SmallRng,
    solve_small: &F,
) -> (r: Result<(Vec<usize>, usize), E>)
    requires
        graph.well_formed(),
        all_below(indices@, graph.order_count()),
        all_below(seed_indices@, graph.order_count()),
        call_requires(*solve_small, (seed_indices,)),
        accepts_small(*solve_small, graph.order_count()),
        can_count(
            *solve_small,
            residual(graph.adjacency(), indices@, seed_indices@).len() + 1,
        ),
    ensures
        match r {
            Ok(out) => exists|plan: Seq<Seq<usize>>| #[trigger]
                is_drawn_plan_from(
                    graph.adjacency(),
                    indices@,
                    seed_indices@,
                    *old(rng),
                    plan,
                    *final(rng),
                ) && is_solution(*solve_small, plan, out.0@, out.1),
            Err(error) => exists|tried: Seq<Seq<usize>>| #[trigger]
                is_drawn_beginning_from(
                    graph.adjacency(),
                    indices@,
                    seed_indices@,
                    *old(rng),
                    tried,
                ) && fails_at_last(*solve_small, tried, error),
        },
    decreases 2 * residual(graph.adjacency(), indices@, seed_indices@).len() + 1,
{
    let ghost adjacency = graph.adjacency();
    let ghost rest = residual(adjacency, indices@, seed_indices@);
    let ghost limit = choose|limit: nat| #[trigger]
        tries_at_most(*solve_small, limit) && limit * (rest.len() + 1) <= usize::MAX;
    let components = partition_residual_components(indices, seed_indices, graph);
    let ghost rows = nested(components@);
    let ghost mut generators = seq![*rng];
    let (mut sequence, mut count) = match solve_small(seed_indices) {
        Ok(out) => out,
        Err(error) => {
            proof {
                let plans = Seq::<Seq<Seq<usize>>>::empty();
                let tried = seed_plan(seed_indices@, plans);
                assert(tried =~= seq![seed_indices@]);
                assert(fails(*solve_small, tried.last(), error));
                assert(solves_all(*solve_small, tried.drop_last(), Seq::empty()));
                assert(are_components(rows, adjacency, rest));
                assert(are_drawn_plans(adjacency, rows, plans, generators));
                assert(tried == begun_plan(seed_indices@, plans, None));
                assert(is_drawn_beginning_from(
                    adjacency,
                    indices@,
                    seed_indices@,
                    *old(rng),
                    tried,
                ));
            }
            return Err(error);
        },
    };
    let ghost first = (sequence, count);
    let ghost mut outs = seq![first];
    let ghost mut plans: Seq<Seq<Seq<usize>>> = Seq::empty();
    proof {
        lemma_single_out(first);
        assert(solves(*solve_small, seed_indices@, first));
        assert(seed_plan(seed_indices@, plans) =~= seq![seed_indices@]);
        assert(solves_all(*solve_small, seed_plan(seed_indices@, plans), outs));
    }
    for c in 0..components.len()
        invariant
            graph.well_formed(),
            adjacency == graph.adjacency(),
            rest == residual(adjacency, indices@, seed_indices@),
            all_below(indices@, graph.order_count()),
            accepts_small(*solve_small, graph.order_count()),
            tries_at_most(*solve_small, limit),
            limit * (rest.len() + 1) <= usize::MAX,
            rows == nested(components@),
            are_components(rows, adjacency, rest),
            plans.len() == c,
            generators.len() == c + 1,
            generators[0] == *old(rng),
            generators.last() == *rng,
            are_drawn_plans(adjacency, rows, plans, generators),
            solves_all(*solve_small, seed_plan(seed_indices@, plans), outs),
            sequence@ == joined_sequences(outs),
            count == total_count(outs),
    {
        proof {
            lemma_components_below(rows, adjacency, indices@, seed_indices@, c as int);
            assert(rows[c as int] == components@[c as int]@);
            lemma_fewer_fit(limit, rows[c as int].len(), rest.len() + 1);
        }
        let ghost from = *rng;
        match solve_recursive_default_indices_with_solver(
            graph,
            &components[c],
            rng,
            solve_small,
        ) {
            Ok(out) => {
                let (part_sequence, part_count) = out;
                let ghost part = part_sequence@;
                let ghost plan = choose|plan: Seq<Seq<usize>>| #[trigger]
                    is_drawn_plan(adjacency, rows[c as int], from, plan, *rng) && is_solution(
                        *solve_small,
                        plan,
                        part,
                        part_count,
                    );
                let ghost further = generators.push(*rng);
                let ghost more = choose|more: Seq<(Vec<usize>, usize)>| #[trigger]
                    solves_all(*solve_small, plan, more) && part == joined_sequences(more)
                        && part_count == total_count(more);
                proof {
                    let grown = plans.push(plan);
                    lemma_drawn_plans_push(adjacency, rows, plans, generators, plan, *rng);
                    lemma_drawn_plans_are_plans(adjacency, rows, grown, further);
                    lemma_component_solved(
                        *solve_small,
                        adjacency,
                        rows,
                        rest,
                        seed_indices@,
                        plans,
                        plan,
                        outs,
                        more,
                        limit,
                    );
                    plans = grown;
                    generators = further;
                    outs = outs + more;
                }
                let mut tail = part_sequence;
                sequence.append(&mut tail);
                count = count + part_count;
            },
            Err(error) => {
                proof {
                    let begun = choose|begun: Seq<Seq<usize>>| #[trigger]
                        is_drawn_beginning(adjacency, rows[c as int], from, begun)
                            && fails_at_last(*solve_small, begun, error);
                    let tried = begun_plan(seed_indices@, plans, Some(begun));
                    lemma_fails_behind(
                        *solve_small,
                        seed_plan(seed_indices@, plans),
                        outs,
                        begun,
                        error,
                    );
                    assert(is_drawn_beginning_from(
                        adjacency,
                        indices@,
                        seed_indices@,
                        *old(rng),
                        tried,
                    ));
                    assert(fails_at_last(*solve_small, tried, error));
                }
                return Err(error);
            },
        }
    }
    proof {
        assert(is_drawn_plan_from(
            adjacency,
            indices@,
            seed_indices@,
            *old(rng),
            seed_plan(seed_indices@, plans),
            *rng,
        ));
        assert(is_solution(
            *solve_small,
            seed_plan(seed_indices@, plans),
            sequence@,
            count,
        ));
    }
    Ok((sequence, count))
}

/// The seeds and the plans of the first `k` components hold at most one subproblem for each order
/// that the seeds leave over, besides the seeds.
proof fn lemma_seed_plan_len(
    adjacency: Seq<Seq<usize>>,
    components: Seq<Seq<usize>>,
    rest: Seq<usize>,
    seeds: Seq<usize>,
    plans: Seq<Seq<Seq<usize>>>,
    k: int,
)
    requires
        are_components(components, adjacency, rest),
        0 <= k <= components.len(),
        plans.len() == k,
        forall|c: int| 0 <= c < k ==> is_plan(adjacency, #[trigger] components[c], plans[c]),
    ensures
        seed_plan(seeds, plans).len() <= rest.len() + 1,
{
    let some = components.take(k);
    assert forall|c: int| 0 <= c < some.len() implies (#[trigger] plans[c]).len()
        <= some[c].len() by {
        assert(is_plan(adjacency, components[c], plans[c]));
        lemma_plan_len(adjacency, components[c], plans[c]);
    }
    lemma_joined_len(some, plans, k);
    assert(plans.take(k) =~= plans);
    lemma_members_take(components, k, k);
    lemma_members(components, adjacency, rest, k);
    let m = members(components, k);
    assert forall|i: int| 0 <= i < m.len() implies rest.contains(#[trigger] m[i]) by {
        assert(m.contains(m[i]));
    }
    lemma_contained_len(m, rest);
}

proof fn lemma_members_take(components: Seq<Seq<usize>>, k: int, j: int)
    requires
        0 <= j <= k <= components.len(),
    ensures
        members(components.take(k), j) == members(components, j),
    decreases j,
{
    if j > 0 {
        lemma_members_take(components, k, j - 1);
    }
}

} // verus!
