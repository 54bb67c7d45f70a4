//! Orderings of the indices `0..n` and the lexicographic order between them.
use vstd::prelude::*;
use vstd::seq_lib::*;
use vstd::set_lib::*;

verus! {

/// The contents of a vector of vectors.
pub open spec fn nested(rows: Seq<Vec<usize>>) -> Seq<Seq<usize>> {
    Seq::new(rows.len(), |i: int| rows[i]@)
}

/// Every index is below `n`.
pub open spec fn all_below(indices: Seq<usize>, n: int) -> bool {
    forall|i: int| 0 <= i < indices.len() ==> (#[trigger] indices[i] as int) < n
}

/// `p` lists each of `0..n` exactly once.
pub open spec fn is_ordering(p: Seq<usize>, n: int) -> bool {
    &&& p.len() == n
    &&& p.no_duplicates()
    &&& all_below(p, n)
}

/// `a` and `b` agree below position `k`, and `a` is smaller there.
pub open spec fn less_at(a: Seq<usize>, b: Seq<usize>, k: int) -> bool {
    &&& 0 <= k < a.len()
    &&& k < b.len()
    &&& a[k] < b[k]
    &&& forall|i: int| 0 <= i < k ==> a[i] == #[trigger] b[i]
}

/// `a` comes before `b` in lexicographic order: at the first position where they differ, `a`
/// holds the smaller index.
pub open spec fn lex_less(a: Seq<usize>, b: Seq<usize>) -> bool {
    exists|k: int| less_at(a, b, k)
}

/// The rows are in strictly increasing lexicographic order.
pub open spec fn lex_sorted(rows: Seq<Seq<usize>>) -> bool {
    forall|i: int, j: int|
        0 <= i < j < rows.len() ==> lex_less(#[trigger] rows[i], #[trigger] rows[j])
}

/// An ordering of `0..n` misses none of them.
pub proof fn lemma_ordering_is_onto(p: Seq<usize>, n: int, x: usize)
    requires
        is_ordering(p, n),
        x < n,
    ensures
        p.contains(x),
{
    let s = p.map_values(|v: usize| v as int);
    assert(s.no_duplicates());
    s.unique_seq_to_set();
    lemma_int_range(0, n);
    let all = set_int_range(0, n);
    assert(s.to_set().subset_of(all)) by {
        assert forall|v: int| s.to_set().contains(v) implies all.contains(v) by {
            let i = choose|i: int| 0 <= i < s.len() && s[i] == v;
            assert(p[i] as int == v);
        }
    }
    if !p.contains(x) {
        assert(!s.to_set().contains(x as int)) by {
            if s.to_set().contains(x as int) {
                let i = choose|i: int| 0 <= i < s.len() && s[i] == x as int;
                assert(p[i] == x);
            }
        }
        assert(s.to_set().subset_of(all.remove(x as int)));
        lemma_len_subset(s.to_set(), all.remove(x as int));
        assert(false);
    }
}

/// Distinct indices below `n` are at most `n` in number.
pub proof fn lemma_distinct_below_len(p: Seq<usize>, n: int)
    requires
        p.no_duplicates(),
        all_below(p, n),
        0 <= n,
    ensures
        p.len() <= n,
{
    let s = p.map_values(|v: usize| v as int);
    assert(s.no_duplicates());
    s.unique_seq_to_set();
    lemma_int_range(0, n);
    let all = set_int_range(0, n);
    assert(s.to_set().subset_of(all)) by {
        assert forall|v: int| s.to_set().contains(v) implies all.contains(v) by {
            let i = choose|i: int| 0 <= i < s.len() && s[i] == v;
            assert(p[i] as int == v);
        }
    }
    lemma_len_subset(s.to_set(), all);
}

/// Lexicographic order is irreflexive.
pub proof fn lemma_lex_less_irreflexive(a: Seq<usize>)
    ensures
        !lex_less(a, a),
{
}

/// Lexicographic order is transitive.
pub proof fn lemma_lex_less_transitive(a: Seq<usize>, b: Seq<usize>, c: Seq<usize>)
    requires
        lex_less(a, b),
        lex_less(b, c),
    ensures
        lex_less(a, c),
{
    let i = choose|k: int| less_at(a, b, k);
    let j = choose|k: int| less_at(b, c, k);
    if i <= j {
        assert(less_at(a, c, i)) by {
            assert forall|m: int| 0 <= m < i implies a[m] == #[trigger] c[m] by {
                assert(a[m] == b[m]);
            }
            if i < j {
                assert(b[i] == c[i]);
            }
        }
    } else {
        assert(less_at(a, c, j)) by {
            assert forall|m: int| 0 <= m < j implies a[m] == #[trigger] c[m] by {
                assert(a[m] == b[m]);
            }
            assert(a[j] == b[j]);
        }
    }
}

/// Rows in lexicographic order are all different.
pub proof fn lemma_lex_sorted_distinct(rows: Seq<Seq<usize>>)
    requires
        lex_sorted(rows),
    ensures
        rows.no_duplicates(),
{
    assert forall|i: int, j: int| 0 <= i < rows.len() && 0 <= j < rows.len() && i != j implies
        rows[i] != rows[j] by {
        if i < j {
            assert(lex_less(rows[i], rows[j]));
        } else {
            assert(lex_less(rows[j], rows[i]));
        }
    }
}

/// Two lists in strictly increasing lexicographic order that hold the same rows are equal.
pub proof fn lemma_lex_sorted_unique(a: Seq<Seq<usize>>, b: Seq<Seq<usize>>)
    requires
        lex_sorted(a),
        lex_sorted(b),
        forall|p: Seq<usize>| #[trigger] a.contains(p) <==> b.contains(p),
    ensures
        a == b,
    decreases a.len(),
{
    if a.len() == 0 {
        if b.len() > 0 {
            assert(b.contains(b[0]));
            assert(a.contains(b[0]));
        }
    } else {
        let la = a.last();
        assert(a.contains(la));
        assert(b.contains(la));
        let lb = b.last();
        assert(b.contains(lb));
        assert(a.contains(lb));
        if la != lb {
            let i = choose|i: int| 0 <= i < a.len() && a[i] == lb;
            let j = choose|j: int| 0 <= j < b.len() && b[j] == la;
            assert(i < a.len() - 1);
            assert(j < b.len() - 1);
            assert(lex_less(a[i], a[a.len() - 1]));
            assert(lex_less(b[j], b[b.len() - 1]));
            lemma_lex_less_transitive(la, lb, la);
            lemma_lex_less_irreflexive(la);
        }
        let a1 = a.drop_last();
        let b1 = b.drop_last();
        assert forall|p: Seq<usize>| #[trigger] a1.contains(p) <==> b1.contains(p) by {
            if a1.contains(p) {
                let i = choose|i: int| 0 <= i < a1.len() && a1[i] == p;
                assert(a[i] == p);
                assert(a.contains(p));
                assert(b.contains(p));
                let j = choose|j: int| 0 <= j < b.len() && b[j] == p;
                if j == b.len() - 1 {
                    assert(lex_less(a[i], a[a.len() - 1]));
                    lemma_lex_less_irreflexive(p);
                }
                assert(b1[j] == p);
            }
            if b1.contains(p) {
                let i = choose|i: int| 0 <= i < b1.len() && b1[i] == p;
                assert(b[i] == p);
                assert(b.contains(p));
                assert(a.contains(p));
                let j = choose|j: int| 0 <= j < a.len() && a[j] == p;
                if j == a.len() - 1 {
                    assert(lex_less(b[i], b[b.len() - 1]));
                    lemma_lex_less_irreflexive(p);
                }
                assert(a1[j] == p);
            }
        }
        lemma_lex_sorted_unique(a1, b1);
        assert(a == a1.push(la));
        assert(b == b1.push(lb));
    }
}

/// `x` is among the elements after pushing, if it was before or is the new one.
pub proof fn lemma_push_contains(s: Seq<usize>, x: usize, v: usize)
    ensures
        s.push(x).contains(v) <==> s.contains(v) || v == x,
{
    if s.contains(v) {
        let i = choose|i: int| 0 <= i < s.len() && s[i] == v;
        assert(s.push(x)[i] == v);
    }
    assert(s.push(x)[s.len() as int] == x);
    if s.push(x).contains(v) && v != x {
        let i = choose|i: int| 0 <= i < s.push(x).len() && s.push(x)[i] == v;
        assert(s[i] == v);
    }
}

/// A new element keeps the elements distinct.
pub proof fn lemma_push_no_duplicates(s: Seq<usize>, x: usize)
    requires
        s.no_duplicates(),
        !s.contains(x),
    ensures
        s.push(x).no_duplicates(),
{
    let p = s.push(x);
    assert forall|i: int, j: int| 0 <= i < p.len() && 0 <= j < p.len() && i != j implies p[i]
        != p[j] by {
        if i == s.len() {
            assert(s.contains(s[j]));
        } else if j == s.len() {
            assert(s.contains(s[i]));
        }
    }
}

/// Whether `x` is among the values.
pub fn contains_index(values: &Vec<usize>, x: usize) -> (found: bool)
    ensures
        found == values@.contains(x),
{
    for i in 0..values.len()
        invariant
            forall|j: int| 0 <= j < i ==> values@[j] != x,
    {
        if values[i] == x {
            assert(values@[i as int] == x);
            return true;
        }
    }
    false
}

} // verus!
