//! How many orderings there are.
use vstd::prelude::*;

use crate::orderings::{is_ordering, lemma_ordering_is_onto};

verus! {

/// The product of `1..=n`.
pub open spec fn factorial(n: nat) -> nat
    decreases n,
{
    if n == 0 {
        1
    } else {
        n * factorial((n - 1) as nat)
    }
}

/// Every row lists the elements of `values`, each once.
spec fn rearrange(rows: Seq<Seq<usize>>, values: Set<usize>) -> bool {
    forall|i: int|
        0 <= i < rows.len() ==> (#[trigger] rows[i]).len() == values.len()
            && rows[i].no_duplicates() && rows[i].to_set().subset_of(values)
}

/// The rows that begin with `first`, and the others.
proof fn split_rows(rows: Seq<Seq<usize>>, first: usize) -> (r: (Seq<Seq<usize>>, Seq<Seq<usize>>))
    requires
        rows.no_duplicates(),
    ensures
        r.0.len() + r.1.len() == rows.len(),
        r.0.no_duplicates(),
        r.1.no_duplicates(),
        forall|i: int|
            0 <= i < r.0.len() ==> rows.contains(#[trigger] r.0[i]) && r.0[i][0] == first,
        forall|i: int|
            0 <= i < r.1.len() ==> rows.contains(#[trigger] r.1[i]) && r.1[i][0] != first,
    decreases rows.len(),
{
    if rows.len() == 0 {
        (Seq::empty(), Seq::empty())
    } else {
        let init = rows.drop_last();
        let row = rows.last();
        let (with, without) = split_rows(init, first);
        assert forall|i: int| 0 <= i < with.len() implies rows.contains(#[trigger] with[i])
            && with[i] != row by {
            assert(init.contains(with[i]));
            let j = choose|j: int| 0 <= j < init.len() && init[j] == with[i];
            assert(rows[j] == with[i]);
        }
        assert forall|i: int| 0 <= i < without.len() implies rows.contains(#[trigger] without[i])
            && without[i] != row by {
            assert(init.contains(without[i]));
            let j = choose|j: int| 0 <= j < init.len() && init[j] == without[i];
            assert(rows[j] == without[i]);
        }
        assert(rows[rows.len() - 1] == row);
        if row[0] == first {
            (with.push(row), without)
        } else {
            (with, without.push(row))
        }
    }
}

proof fn lemma_part_rearranges(
    rows: Seq<Seq<usize>>,
    part: Seq<Seq<usize>>,
    values: Set<usize>,
)
    requires
        rearrange(rows, values),
        forall|i: int| 0 <= i < part.len() ==> rows.contains(#[trigger] part[i]),
    ensures
        rearrange(part, values),
{
    assert forall|i: int| 0 <= i < part.len() implies (#[trigger] part[i]).len() == values.len()
        && part[i].no_duplicates() && part[i].to_set().subset_of(values) by {
        let j = choose|j: int| 0 <= j < rows.len() && rows[j] == part[i];
        assert(rows[j].len() == values.len());
    }
}

/// What follows the first element of rows that begin with the same one rearranges the others.
proof fn lemma_tails(rows: Seq<Seq<usize>>, values: Set<usize>, first: usize)
    requires
        rows.no_duplicates(),
        values.finite(),
        values.contains(first),
        rearrange(rows, values),
        forall|i: int| 0 <= i < rows.len() ==> (#[trigger] rows[i])[0] == first,
    ensures
        ({
            let tails = Seq::new(rows.len(), |i: int| rows[i].skip(1));
            tails.no_duplicates() && rearrange(tails, values.remove(first))
        }),
{
    let tails = Seq::new(rows.len(), |i: int| rows[i].skip(1));
    assert forall|i: int, j: int| 0 <= i < tails.len() && 0 <= j < tails.len() && i != j implies
        tails[i] != tails[j] by {
        if tails[i] == tails[j] {
            assert(rows[i].len() == rows[j].len());
            assert forall|k: int| 0 <= k < rows[i].len() implies rows[i][k] == rows[j][k] by {
                if k > 0 {
                    assert(tails[i][k - 1] == tails[j][k - 1]);
                }
            }
            assert(rows[i] =~= rows[j]);
        }
    }
    assert forall|i: int| 0 <= i < tails.len() implies (#[trigger] tails[i]).len()
        == values.remove(first).len() && tails[i].no_duplicates() && tails[i].to_set().subset_of(
        values.remove(first),
    ) by {
        let row = rows[i];
        assert(row.len() == values.len());
        assert forall|x: usize| tails[i].to_set().contains(x) implies values.remove(
            first,
        ).contains(x) by {
            let k = choose|k: int| 0 <= k < tails[i].len() && tails[i][k] == x;
            assert(row[k + 1] == x);
            assert(row.to_set().contains(row[k + 1]));
        }
    }
}

/// There are at most as many rearrangements as the factorial says.
proof fn lemma_rearrangements(rows: Seq<Seq<usize>>, values: Set<usize>)
    requires
        rows.no_duplicates(),
        values.finite(),
        rearrange(rows, values),
    ensures
        rows.len() <= factorial(values.len()),
    decreases values.len(), values.len() + 1,
{
    if values.len() == 0 {
        if rows.len() > 1 {
            assert(rows[0] =~= rows[1]);
        }
    } else {
        assert forall|i: int| 0 <= i < rows.len() implies values.contains(
            (#[trigger] rows[i])[0],
        ) by {
            assert(rows[i].to_set().contains(rows[i][0]));
        }
        lemma_rearrangements_from(rows, values, values);
    }
}

/// Where the first elements are in `firsts`, there are at most as many for each of these.
proof fn lemma_rearrangements_from(
    rows: Seq<Seq<usize>>,
    values: Set<usize>,
    firsts: Set<usize>,
)
    requires
        rows.no_duplicates(),
        values.finite(),
        values.len() > 0,
        rearrange(rows, values),
        firsts.subset_of(values),
        forall|i: int| 0 <= i < rows.len() ==> firsts.contains((#[trigger] rows[i])[0]),
    ensures
        rows.len() <= firsts.len() * factorial((values.len() - 1) as nat),
    decreases values.len(), firsts.len(),
{
    vstd::set_lib::lemma_set_subset_finite(values, firsts);
    let each = factorial((values.len() - 1) as nat);
    if firsts.len() == 0 {
        if rows.len() > 0 {
            assert(firsts.contains(rows[0][0]));
        }
    } else {
        let first = firsts.choose();
        let (with, without) = split_rows(rows, first);
        lemma_part_rearranges(rows, with, values);
        lemma_part_rearranges(rows, without, values);
        lemma_tails(with, values, first);
        lemma_rearrangements(
            Seq::new(with.len(), |i: int| with[i].skip(1)),
            values.remove(first),
        );
        assert forall|i: int| 0 <= i < without.len() implies firsts.remove(first).contains(
            (#[trigger] without[i])[0],
        ) by {
            let j = choose|j: int| 0 <= j < rows.len() && rows[j] == without[i];
            assert(firsts.contains(rows[j][0]));
        }
        lemma_rearrangements_from(without, values, firsts.remove(first));
        assert(firsts.len() * each == (firsts.len() - 1) * each + each) by (nonlinear_arith)
            requires
                firsts.len() > 0,
        ;
    }
}

/// There are at most `n!` different orderings of `0..n`.
pub proof fn lemma_ordering_count(rows: Seq<Seq<usize>>, n: nat)
    requires
        rows.no_duplicates(),
        forall|i: int| 0 <= i < rows.len() ==> is_ordering(#[trigger] rows[i], n as int),
    ensures
        rows.len() <= factorial(n),
{
    if rows.len() > 0 {
        let values = rows[0].to_set();
        rows[0].unique_seq_to_set();
        assert forall|i: int| 0 <= i < rows.len() implies (#[trigger] rows[i]).to_set().subset_of(
            values,
        ) by {
            assert forall|x: usize| rows[i].to_set().contains(x) implies values.contains(x) by {
                let k = choose|k: int| 0 <= k < rows[i].len() && rows[i][k] == x;
                assert((rows[i][k] as int) < n);
                lemma_ordering_is_onto(rows[0], n as int, x);
            }
        }
        lemma_rearrangements(rows, values);
    }
}

/// Seven orders and fewer have at most 5040 orderings.
pub proof fn lemma_small_factorial(n: nat)
    requires
        n <= 7,
    ensures
        factorial(n) <= 5040,
{
    assert(factorial(0) == 1);
    assert(factorial(1) == 1);
    assert(factorial(2) == 2);
    assert(factorial(3) == 6);
    assert(factorial(4) == 24);
    assert(factorial(5) == 120);
    assert(factorial(6) == 720);
    assert(factorial(7) == 5040);
    assert(n == 0 || n == 1 || n == 2 || n == 3 || n == 4 || n == 5 || n == 6 || n == 7);
}

} // verus!
