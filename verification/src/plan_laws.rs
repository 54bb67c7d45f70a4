//! How a group is split into the parts that are solved, one after another.
use rand::rngs::SmallRng;
use vstd::prelude::*;

use crate::graph::{are_components, residual};
use crate::random::is_choice;
use crate::recursive::{
    is_draw, is_drawn_plan, is_plan, joined, lemma_sample_contained, seed_plan,
};

verus! {

/// The plans of parts are put together as they stand, one after another.
pub proof fn law_plans_are_put_together(
    parts: Seq<Seq<Seq<usize>>>,
    more: Seq<Seq<Seq<usize>>>,
    part: Seq<Seq<usize>>,
)
    ensures
        joined(Seq::empty()).len() == 0,
        joined(seq![part]) == part,
        joined(parts + more) == joined(parts) + joined(more),
    decreases more.len(),
{
    let one = seq![part];
    assert(one.drop_last() =~= Seq::empty());
    assert(joined(one.drop_last()) =~= Seq::empty());
    assert(one.last() == part);
    assert(joined(one) =~= part);
    if more.len() == 0 {
        assert(parts + more =~= parts);
        assert(joined(parts) + joined(more) =~= joined(parts));
    } else {
        law_plans_are_put_together(parts, more.drop_last(), part);
        assert((parts + more).drop_last() =~= parts + more.drop_last());
        assert(joined(parts + more) =~= joined(parts) + joined(more));
    }
}

/// A group of fewer than eight orders is solved as it is, and without orders there is nothing to
/// solve; no number is drawn for it.
pub proof fn law_small_groups_are_solved_whole(
    adjacency: Seq<Seq<usize>>,
    indices: Seq<usize>,
    rng: SmallRng,
    plan: Seq<Seq<usize>>,
    left: SmallRng,
)
    requires
        is_drawn_plan(adjacency, indices, rng, plan, left),
        indices.len() < 8,
    ensures
        indices.len() == 0 ==> plan.len() == 0,
        indices.len() > 0 ==> plan.len() == 1 && plan[0] == indices,
        left == rng,
{
    reveal(is_drawn_plan);
    assert(is_plan(adjacency, indices, plan));
}

/// The parts that stand behind a sample: those of each component of what the sample leaves over,
/// the component with the smallest order first, and each drawn with what the one before it left of
/// the generator.
pub open spec fn follow_the_sample(
    adjacency: Seq<Seq<usize>>,
    indices: Seq<usize>,
    sample: Seq<usize>,
    rng: SmallRng,
    parts: Seq<Seq<usize>>,
    left: SmallRng,
) -> bool {
    exists|
        components: Seq<Seq<usize>>,
        plans: Seq<Seq<Seq<usize>>>,
        generators: Seq<SmallRng>,
    |
        {
            &&& #[trigger] are_components(
                components,
                adjacency,
                residual(adjacency, indices, sample),
            )
            &&& plans.len() == components.len()
            &&& generators.len() == components.len() + 1
            &&& generators[0] == rng
            &&& #[trigger] generators.last() == left
            &&& forall|c: int|
                0 <= c < components.len() ==> is_drawn_plan(
                    adjacency,
                    components[c],
                    generators[c],
                    #[trigger] plans[c],
                    generators[c + 1],
                )
            &&& parts == #[trigger] joined(plans)
        }
}

/// A larger group begins with a sample of seven of its orders, drawn with the generator as it is
/// given. Behind it stand the parts of what the sample leaves over.
pub proof fn law_a_large_group_begins_with_a_sample(
    adjacency: Seq<Seq<usize>>,
    indices: Seq<usize>,
    rng: SmallRng,
    plan: Seq<Seq<usize>>,
    left: SmallRng,
)
    requires
        is_drawn_plan(adjacency, indices, rng, plan, left),
        indices.len() >= 8,
    ensures
        plan.len() > 0,
        plan[0].len() == 7,
        forall|x: usize| #[trigger] plan[0].contains(x) ==> indices.contains(x),
        exists|next: SmallRng|
            #[trigger] is_choice(indices, 7, rng, plan[0], next) && follow_the_sample(
                adjacency,
                indices,
                plan[0],
                next,
                plan.skip(1),
                left,
            ),
{
    reveal(is_drawn_plan);
    let (seeds, components, plans, generators) = choose|
        seeds: Seq<usize>,
        components: Seq<Seq<usize>>,
        plans: Seq<Seq<Seq<usize>>>,
        generators: Seq<SmallRng>,
    |
        {
            &&& #[trigger] are_components(
                components,
                adjacency,
                residual(adjacency, indices, seeds),
            )
            &&& plans.len() == components.len()
            &&& generators.len() == components.len() + 1
            &&& #[trigger] is_draw(indices, rng, seeds, generators[0])
            &&& forall|c: int|
                0 <= c < components.len() ==> (#[trigger] components[c]).len() < indices.len()
                    && is_drawn_plan(
                    adjacency,
                    components[c],
                    generators[c],
                    plans[c],
                    generators[c + 1],
                )
            &&& plan == #[trigger] seed_plan(seeds, plans)
            &&& left == generators.last()
        };
    assert(plan[0] == seeds);
    assert(plan.skip(1) =~= joined(plans));
    lemma_sample_contained(indices, seeds);
    assert forall|c: int| 0 <= c < components.len() implies is_drawn_plan(
        adjacency,
        components[c],
        generators[c],
        #[trigger] plans[c],
        generators[c + 1],
    ) by {
        assert(components[c].len() < indices.len());
    }
    assert(are_components(components, adjacency, residual(adjacency, indices, plan[0])));
    assert(follow_the_sample(adjacency, indices, plan[0], generators[0], plan.skip(1), left));
    assert(is_choice(indices, 7, rng, plan[0], generators[0]));
}

} // verus!
