//! Connected components and what is left over beside seeds, told by single edges, and how the
//! solutions of the parts are put together.
use vstd::prelude::*;

use crate::graph::{
    adjacent, are_components, connected, in_some, is_component, is_path, is_residual, residual,
};
use crate::recursive::{is_solution, joined_sequences, solves_all, total_count};

verus! {

/// Two components that share an order are the same.
proof fn lemma_one_component(
    components: Seq<Seq<usize>>,
    adjacency: Seq<Seq<usize>>,
    indices: Seq<usize>,
    c: int,
    d: int,
    x: usize,
)
    requires
        are_components(components, adjacency, indices),
        0 <= c < components.len(),
        0 <= d < components.len(),
        components[c].contains(x),
        components[d].contains(x),
    ensures
        c == d,
{
    if d != c {
        let a = components[c];
        let b = components[d];
        assert(is_component(adjacency, indices, a));
        assert(is_component(adjacency, indices, b));
        assert(a.contains(a[0]) && b.contains(b[0]));
        assert(a.contains(b[0]) == connected(adjacency, indices, x, b[0]));
        assert(b.contains(b[0]) == connected(adjacency, indices, x, b[0]));
        assert(b.contains(a[0]) == connected(adjacency, indices, x, a[0]));
        assert(a.contains(a[0]) == connected(adjacency, indices, x, a[0]));
        let i = choose|i: int| 0 <= i < a.len() && a[i] == b[0];
        let j = choose|j: int| 0 <= j < b.len() && b[j] == a[0];
        assert(a[0] <= a[i]);
        assert(b[0] <= b[j]);
        if c < d {
            assert(components[c][0] < components[d][0]);
        } else {
            assert(components[d][0] < components[c][0]);
        }
    }
}

/// Every one of the given orders stands in one component, and in no other; a component holds no
/// other orders, and lists its own in increasing order. The components stand by their smallest
/// orders.
pub proof fn law_components_part_the_orders(
    components: Seq<Seq<usize>>,
    adjacency: Seq<Seq<usize>>,
    indices: Seq<usize>,
    x: usize,
)
    requires
        are_components(components, adjacency, indices),
    ensures
        indices.contains(x) ==> exists|c: int|
            {
                &&& 0 <= c < components.len()
                &&& #[trigger] components[c].contains(x)
                &&& forall|d: int|
                    0 <= d < components.len() && (#[trigger] components[d]).contains(x) ==> d == c
            },
        !indices.contains(x) ==> forall|c: int|
            0 <= c < components.len() ==> !(#[trigger] components[c]).contains(x),
        forall|c: int, i: int, j: int|
            0 <= c < components.len() && 0 <= i < j < components[c].len()
                ==> #[trigger] components[c][i] < #[trigger] components[c][j],
        forall|c: int| 0 <= c < components.len() ==> (#[trigger] components[c]).len() > 0,
        forall|c: int, d: int|
            0 <= c < d < components.len() ==> (#[trigger] components[c])[0] < (
            #[trigger] components[d])[0],
{
    if indices.contains(x) {
        assert(in_some(components, x));
        let c = choose|c: int| 0 <= c < components.len() && #[trigger] components[c].contains(x);
        assert forall|d: int|
            0 <= d < components.len() && (#[trigger] components[d]).contains(x) implies d == c by {
            lemma_one_component(components, adjacency, indices, c, d, x);
        }
    } else {
        assert forall|c: int| 0 <= c < components.len() implies !(
        #[trigger] components[c]).contains(x) by {
            if components[c].contains(x) {
                assert(in_some(components, x));
            }
        }
    }
    assert forall|c: int, i: int, j: int|
        0 <= c < components.len() && 0 <= i < j < components[c].len() implies
        #[trigger] components[c][i] < #[trigger] components[c][j] by {
        assert(is_component(adjacency, indices, components[c]));
    }
    assert forall|c: int| 0 <= c < components.len() implies (
    #[trigger] components[c]).len() > 0 by {
        assert(is_component(adjacency, indices, components[c]));
    }
}

/// No edge leads from one component to another.
pub proof fn law_no_edge_leaves_a_component(
    components: Seq<Seq<usize>>,
    adjacency: Seq<Seq<usize>>,
    indices: Seq<usize>,
    c: int,
    d: int,
    x: usize,
    y: usize,
)
    requires
        are_components(components, adjacency, indices),
        0 <= c < components.len(),
        0 <= d < components.len(),
        c != d,
        components[c].contains(x),
        components[d].contains(y),
    ensures
        !adjacency[x as int].contains(y),
{
    if adjacency[x as int].contains(y) {
        assert(is_component(adjacency, indices, components[c]));
        assert(is_component(adjacency, indices, components[d]));
        let i = choose|i: int| 0 <= i < components[c].len() && components[c][i] == x;
        let j = choose|j: int| 0 <= j < components[d].len() && components[d][j] == y;
        assert(indices.contains(components[c][i]) && indices.contains(components[d][j]));
        let path = seq![x, y];
        assert(adjacent(adjacency, path[0], path[1]));
        assert(is_path(adjacency, indices, path));
        assert(connected(adjacency, indices, x, y));
        assert(components[c].contains(y));
        lemma_one_component(components, adjacency, indices, c, d, y);
    }
}

/// The place where a path leaves a set that it begins in and does not end in.
proof fn lemma_leaving(path: Seq<usize>, inside: Set<usize>) -> (k: int)
    requires
        path.len() > 0,
        inside.contains(path[0]),
        !inside.contains(path.last()),
    ensures
        0 <= k < path.len() - 1,
        inside.contains(path[k]),
        !inside.contains(path[k + 1]),
    decreases path.len(),
{
    let last = path.len() - 2;
    if inside.contains(path[last]) {
        last
    } else {
        let shorter = path.drop_last();
        let k = lemma_leaving(shorter, inside);
        assert(shorter[k] == path[k] && shorter[k + 1] == path[k + 1]);
        k
    }
}

/// A component hangs together: wherever some of its orders are parted from the others, an edge
/// leads from one of them to one of the others.
pub proof fn law_a_component_hangs_together(
    components: Seq<Seq<usize>>,
    adjacency: Seq<Seq<usize>>,
    indices: Seq<usize>,
    c: int,
    inside: Set<usize>,
    x: usize,
    y: usize,
)
    requires
        are_components(components, adjacency, indices),
        0 <= c < components.len(),
        components[c].contains(x),
        components[c].contains(y),
        inside.contains(x),
        !inside.contains(y),
    ensures
        exists|a: usize, b: usize|
            {
                &&& components[c].contains(a)
                &&& components[c].contains(b)
                &&& inside.contains(a)
                &&& !inside.contains(b)
                &&& #[trigger] adjacency[a as int].contains(b)
            },
{
    let component = components[c];
    assert(is_component(adjacency, indices, component));
    assert(connected(adjacency, indices, x, y));
    let path = choose|path: Seq<usize>| #[trigger]
        is_path(adjacency, indices, path) && path[0] == x && path.last() == y;
    let k = lemma_leaving(path, inside);
    let a = path[k];
    let b = path[k + 1];
    assert(adjacent(adjacency, a, b));
    lemma_path_stays(adjacency, indices, path, k);
    lemma_path_stays(adjacency, indices, path, k + 1);
    assert(connected(adjacency, indices, x, a));
    assert(connected(adjacency, indices, x, b));
    assert(component.contains(a) && component.contains(b));
    assert(adjacency[a as int].contains(b));
}

proof fn lemma_path_stays(
    adjacency: Seq<Seq<usize>>,
    indices: Seq<usize>,
    path: Seq<usize>,
    k: int,
)
    requires
        is_path(adjacency, indices, path),
        0 <= k < path.len(),
    ensures
        connected(adjacency, indices, path[0], path[k]),
{
    let part = path.take(k + 1);
    assert forall|i: int| 0 <= i < part.len() implies indices.contains(#[trigger] part[i]) by {
        assert(part[i] == path[i]);
    }
    assert forall|i: int, j: int| 0 <= i && j == i + 1 && j < part.len() implies adjacent(
        adjacency,
        #[trigger] part[i],
        #[trigger] part[j],
    ) by {
        assert(part[i] == path[i] && part[j] == path[j]);
    }
    assert(is_path(adjacency, indices, part));
}

/// What seeds leave over are the given orders that are no seeds and have no edge to a seed, as they
/// stand.
pub proof fn law_seeds_leave_over_what_they_do_not_touch(
    adjacency: Seq<Seq<usize>>,
    indices: Seq<usize>,
    seeds: Seq<usize>,
    x: usize,
)
    ensures
        residual(adjacency, indices, seeds).contains(x) <==> {
            &&& indices.contains(x)
            &&& !seeds.contains(x)
            &&& forall|i: int|
                0 <= i < seeds.len() ==> !adjacency[x as int].contains(#[trigger] seeds[i])
        },
        ({
            let more = residual(adjacency, indices.push(x), seeds);
            let kept = !seeds.contains(x) && forall|i: int|
                0 <= i < seeds.len() ==> !adjacency[x as int].contains(#[trigger] seeds[i]);
            more == if kept {
                residual(adjacency, indices, seeds).push(x)
            } else {
                residual(adjacency, indices, seeds)
            }
        }),
{
    let keep = |v: usize| is_residual(adjacency, seeds, v);
    let kept = !seeds.contains(x) && forall|i: int|
        0 <= i < seeds.len() ==> !adjacency[x as int].contains(#[trigger] seeds[i]);
    assert(is_residual(adjacency, seeds, x) == kept) by {
        if is_residual(adjacency, seeds, x) {
            assert forall|i: int| 0 <= i < seeds.len() implies !adjacency[x as int].contains(
                #[trigger] seeds[i],
            ) by {
                assert(seeds.contains(seeds[i]));
                assert(!adjacent(adjacency, x, seeds[i]));
            }
        }
        if kept {
            assert forall|s: usize| #[trigger] seeds.contains(s) implies !adjacent(
                adjacency,
                x,
                s,
            ) by {
                let i = choose|i: int| 0 <= i < seeds.len() && seeds[i] == s;
                assert(!adjacency[x as int].contains(seeds[i]));
            }
        }
    }
    lemma_filtered(indices, keep, x);
    assert(indices.push(x).drop_last() =~= indices);
    reveal(Seq::filter);
}

/// What a filter leaves was there before and passes the filter; and what passes it is left.
proof fn lemma_filtered(s: Seq<usize>, keep: spec_fn(usize) -> bool, x: usize)
    ensures
        s.filter(keep).contains(x) <==> s.contains(x) && keep(x),
    decreases s.len(),
{
    reveal(Seq::filter);
    if s.len() > 0 {
        let init = s.drop_last();
        lemma_filtered(init, keep, x);
        let earlier = init.filter(keep);
        if s.contains(x) {
            let i = choose|i: int| 0 <= i < s.len() && s[i] == x;
            if i < init.len() {
                assert(init[i] == x);
            }
        }
        if init.contains(x) {
            let i = choose|i: int| 0 <= i < init.len() && init[i] == x;
            assert(s[i] == x);
        }
        assert(s[s.len() - 1] == s.last());
        if keep(s.last()) {
            let more = earlier.push(s.last());
            if earlier.contains(x) {
                let i = choose|i: int| 0 <= i < earlier.len() && earlier[i] == x;
                assert(more[i] == x);
            }
            assert(more[earlier.len() as int] == s.last());
            if more.contains(x) {
                let i = choose|i: int| 0 <= i < more.len() && more[i] == x;
                if i < earlier.len() {
                    assert(earlier[i] == x);
                }
            }
        }
    }
}

/// The solutions of the parts are put together as they stand, one after another, and the sequences
/// that were tried for them are added up.
pub proof fn law_solutions_are_put_together(
    outs: Seq<(Vec<usize>, usize)>,
    out: (Vec<usize>, usize),
    more: Seq<(Vec<usize>, usize)>,
)
    ensures
        joined_sequences(Seq::empty()).len() == 0,
        total_count(Seq::empty()) == 0,
        joined_sequences(seq![out]) == out.0@,
        total_count(seq![out]) == out.1,
        joined_sequences(outs + more) == joined_sequences(outs) + joined_sequences(more),
        total_count(outs + more) == total_count(outs) + total_count(more),
    decreases more.len(),
{
    let one = seq![out];
    assert(one.drop_last() =~= Seq::empty());
    assert(total_count(one.drop_last()) == 0);
    assert(one.last() == out);
    assert(joined_sequences(one.drop_last()) =~= Seq::empty());
    assert(joined_sequences(one) =~= out.0@);
    if more.len() == 0 {
        assert(outs + more =~= outs);
        assert(joined_sequences(outs) + joined_sequences(more) =~= joined_sequences(outs));
    } else {
        law_solutions_are_put_together(outs, out, more.drop_last());
        assert((outs + more).drop_last() =~= outs + more.drop_last());
        assert(joined_sequences(outs + more) =~= joined_sequences(outs) + joined_sequences(more));
    }
}

/// Where a single part is solved, the solution of the whole is the solution of the part.
pub proof fn law_one_part_is_solved_as_it_is<
    E,
    F: Fn(&[usize]) -> Result<(Vec<usize>, usize), E>,
>(solver: F, part: Seq<usize>, sequence: Seq<usize>, count: usize)
    requires
        is_solution(solver, seq![part], sequence, count),
    ensures
        exists|s: &[usize], out: (Vec<usize>, usize)|
            s@ == part && #[trigger] call_ensures(solver, (s,), Ok(out)) && out.0@ == sequence
                && out.1 == count,
{
    let outs = choose|outs: Seq<(Vec<usize>, usize)>| #[trigger]
        solves_all(solver, seq![part], outs) && sequence == joined_sequences(outs) && count
            == total_count(outs);
    let out = outs[0];
    assert(outs =~= seq![out]);
    law_solutions_are_put_together(outs, out, Seq::empty());
    assert(seq![part][0] == part);
    let s = choose|s: &[usize]| s@ == part && #[trigger] call_ensures(solver, (s,), Ok(out));
    assert(call_ensures(solver, (s,), Ok(out)));
}

} // verus!
