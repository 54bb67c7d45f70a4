//! Lists of processors, told by how they are written, and the budget that they allow.
use vstd::prelude::*;

use crate::compute_budget::{
    budget_fits, core_limit, is_budget_verdict, makes_budget, makes_executor, message_of,
    thread_name, BacktestComputeBudget, BudgetError, CandidateExecutor, ProcessorReadings,
};
use crate::cpu_lists::{
    core_of, cores_of, is_cpu_list, is_list_line, is_piece, list_label, list_names, piece_names,
    pieces_name, processors_between, status_has_list, status_names, topology_path,
};
use crate::line_laws::{begins_with, ends_with, is_made_of};
use crate::list_laws::{
    joined_by, law_a_text_is_split_at_each_separator, law_one_piece_is_not_split,
    law_splitting_undoes_joining,
};
use crate::text::{
    decimal, is_first_place, is_white_space, number, split, trimmed, trimmed_end, trimmed_start,
    without_plus,
};
use crate::text_laws::{law_decimal_is_read_back, law_decimals_differ, lemma_decimal};

verus! {

/// The text is nothing but white space.
pub open spec fn is_blank(s: Seq<char>) -> bool {
    forall|i: int| 0 <= i < s.len() ==> is_white_space(#[trigger] s[i])
}

proof fn lemma_blank_start(a: Seq<char>, s: Seq<char>)
    requires
        is_blank(a),
        s.len() > 0 ==> !is_white_space(s[0]),
    ensures
        trimmed_start(a + s) == s,
    decreases a.len(),
{
    let t = a + s;
    if a.len() == 0 {
        assert(t =~= s);
    } else {
        assert(t[0] == a[0]);
        let rest = a.skip(1);
        assert forall|i: int| 0 <= i < rest.len() implies is_white_space(#[trigger] rest[i]) by {
            assert(rest[i] == a[i + 1]);
        }
        lemma_blank_start(rest, s);
        assert(t.skip(1) =~= rest + s);
    }
}

proof fn lemma_blank_end(s: Seq<char>, b: Seq<char>)
    requires
        is_blank(b),
        s.len() > 0 ==> !is_white_space(s.last()),
    ensures
        trimmed_end(s + b) == s,
    decreases b.len(),
{
    let t = s + b;
    if b.len() == 0 {
        assert(t =~= s);
    } else {
        assert(t.last() == b[b.len() - 1]);
        let rest = b.drop_last();
        assert forall|i: int| 0 <= i < rest.len() implies is_white_space(#[trigger] rest[i]) by {
            assert(rest[i] == b[i]);
        }
        lemma_blank_end(s, rest);
        assert(t.drop_last() =~= s + rest);
    }
}

/// White space around a text is taken away, all of it and nothing else.
pub proof fn law_white_space_around_a_text_is_taken_away(
    a: Seq<char>,
    s: Seq<char>,
    b: Seq<char>,
)
    requires
        is_blank(a),
        is_blank(b),
        s.len() > 0,
        !is_white_space(s[0]),
        !is_white_space(s.last()),
    ensures
        trimmed(a + s + b) == s,
        trimmed(a + b).len() == 0,
{
    assert(a + s + b =~= a + (s + b));
    assert((s + b)[0] == s[0]);
    lemma_blank_start(a, s + b);
    lemma_blank_end(s, b);
    let blank = a + b;
    assert forall|i: int| 0 <= i < blank.len() implies is_white_space(#[trigger] blank[i]) by {
        if i < a.len() {
            assert(blank[i] == a[i]);
        } else {
            assert(blank[i] == b[i - a.len()]);
        }
    }
    assert(blank + Seq::<char>::empty() =~= blank);
    lemma_blank_start(blank, Seq::empty());
    assert(trimmed_end(Seq::<char>::empty()) =~= Seq::<char>::empty());
}

proof fn lemma_decimal_is_plain(n: nat)
    ensures
        trimmed(decimal(n)) == decimal(n),
        !decimal(n).contains('-'),
        !decimal(n).contains(','),
        decimal(n).len() > 0,
        !is_white_space(decimal(n)[0]),
        !is_white_space(decimal(n).last()),
{
    lemma_decimal(n);
    let s = decimal(n);
    assert('0' <= s[0] <= '9');
    assert('0' <= s[s.len() - 1] <= '9');
    law_white_space_around_a_text_is_taken_away(Seq::empty(), s, Seq::empty());
    assert(Seq::<char>::empty() + s + Seq::<char>::empty() =~= s);
    if s.contains('-') {
        let i = choose|i: int| 0 <= i < s.len() && s[i] == '-';
        assert('0' <= s[i]);
    }
    if s.contains(',') {
        let i = choose|i: int| 0 <= i < s.len() && s[i] == ',';
        assert('0' <= s[i]);
    }
}

/// A number may have a plus sign before it.
pub proof fn law_a_plus_sign_changes_nothing(n: nat)
    ensures
        number(seq!['+'] + decimal(n)) == Some(n),
{
    lemma_decimal(n);
    let s = seq!['+'] + decimal(n);
    assert(s.skip(1) =~= decimal(n));
    assert(without_plus(s) == decimal(n));
}

/// A list of processors is read part by part: the processors before a comma come first, those
/// behind it come then, and both parts must be lists.
pub proof fn law_lists_of_processors_are_joined_by_commas(
    a: Seq<char>,
    b: Seq<char>,
    x: Seq<usize>,
    y: Seq<usize>,
)
    ensures
        list_names(a, x) && list_names(b, y) ==> list_names(a + seq![','] + b, x + y),
        is_cpu_list(a + seq![','] + b) <==> is_cpu_list(a) && is_cpu_list(b),
{
    law_a_text_is_split_at_each_separator(a, b, ',');
    let p = split(a, ',');
    let q = split(b, ',');
    let both = p + q;
    if list_names(a, x) && list_names(b, y) {
        lemma_names_of_both(p, q, x, y, q.len() as int);
    }
    if is_cpu_list(a + seq![','] + b) {
        assert forall|k: int| 0 <= k < p.len() implies is_piece(#[trigger] p[k]) by {
            assert(both[k] == p[k]);
        }
        assert forall|k: int| 0 <= k < q.len() implies is_piece(#[trigger] q[k]) by {
            assert(both[p.len() + k] == q[k]);
        }
    }
    if is_cpu_list(a) && is_cpu_list(b) {
        assert forall|k: int| 0 <= k < both.len() implies is_piece(#[trigger] both[k]) by {
            if k < p.len() {
                assert(both[k] == p[k]);
            } else {
                assert(both[k] == q[k - p.len()]);
            }
        }
    }
}

proof fn lemma_names_of_first(p: Seq<Seq<char>>, q: Seq<Seq<char>>, x: Seq<usize>, k: int)
    requires
        0 <= k <= p.len(),
        pieces_name(p, k, x),
    ensures
        pieces_name(p + q, k, x),
    decreases k,
{
    if k > 0 {
        let (earlier, last) = choose|earlier: Seq<usize>, last: Seq<usize>|
            pieces_name(p, k - 1, earlier) && piece_names(p[k - 1], last) && x == #[trigger] (
            earlier + last);
        lemma_names_of_first(p, q, earlier, k - 1);
        assert((p + q)[k - 1] == p[k - 1]);
        assert(x == earlier + last);
    }
}

proof fn lemma_names_of_both(
    p: Seq<Seq<char>>,
    q: Seq<Seq<char>>,
    x: Seq<usize>,
    y: Seq<usize>,
    k: int,
)
    requires
        0 <= k <= q.len(),
        pieces_name(p, p.len() as int, x),
        pieces_name(q, k, y),
    ensures
        pieces_name(p + q, p.len() + k, x + y),
    decreases k,
{
    if k == 0 {
        lemma_names_of_first(p, q, x, p.len() as int);
        assert(x + y =~= x);
    } else {
        let (earlier, last) = choose|earlier: Seq<usize>, last: Seq<usize>|
            pieces_name(q, k - 1, earlier) && piece_names(q[k - 1], last) && y == #[trigger] (
            earlier + last);
        lemma_names_of_both(p, q, x, earlier, k - 1);
        assert((p + q)[p.len() + k - 1] == q[k - 1]);
        assert(x + y =~= (x + earlier) + last);
    }
}

/// The only piece of a text without a comma.
proof fn lemma_single(piece: Seq<char>, cpus: Seq<usize>)
    requires
        !piece.contains(','),
    ensures
        list_names(piece, cpus) <==> piece_names(piece, cpus),
        is_cpu_list(piece) <==> is_piece(piece),
{
    law_one_piece_is_not_split(piece, ',');
    let pieces = split(piece, ',');
    assert(pieces[0] == piece);
    assert(pieces.len() == 1);
    if piece_names(piece, cpus) {
        assert(pieces_name(pieces, 0, Seq::<usize>::empty()));
        assert(cpus =~= Seq::<usize>::empty() + cpus);
        assert(pieces_name(pieces, 1, Seq::<usize>::empty() + cpus));
    }
    if pieces_name(pieces, 1, cpus) {
        let (earlier, last) = choose|earlier: Seq<usize>, last: Seq<usize>|
            pieces_name(pieces, 0, earlier) && piece_names(pieces[0], last) && cpus == #[trigger] (
            earlier + last);
        assert(earlier + last =~= last);
    }
}

/// A number names the processor with that number, white space around it or not.
pub proof fn law_a_number_names_one_processor(a: Seq<char>, n: usize, b: Seq<char>)
    requires
        is_blank(a),
        is_blank(b),
        !a.contains(','),
        !b.contains(','),
    ensures
        list_names(a + decimal(n as nat) + b, seq![n]),
{
    let d = decimal(n as nat);
    let s = a + d + b;
    lemma_decimal_is_plain(n as nat);
    law_white_space_around_a_text_is_taken_away(a, d, b);
    law_decimal_is_read_back(n as nat);
    assert(!s.contains(',')) by {
        if s.contains(',') {
            let i = choose|i: int| 0 <= i < s.len() && s[i] == ',';
            if i < a.len() {
                assert(a[i] == ',');
            } else if i < a.len() + d.len() {
                assert(d[i - a.len()] == ',');
            } else {
                assert(b[i - a.len() - d.len()] == ',');
            }
        }
    }
    assert(piece_names(s, seq![n]));
    lemma_single(s, seq![n]);
}

/// Two numbers with a hyphen between them name every processor from the first up to the second,
/// both included; where the first is the larger one they are no list.
pub proof fn law_a_range_names_all_between(start: usize, end: usize, cpus: Seq<usize>)
    requires
        start <= end ==> cpus.len() == end - start + 1,
        forall|i: int| 0 <= i < cpus.len() ==> #[trigger] cpus[i] == start + i,
    ensures
        start <= end ==> list_names(
            decimal(start as nat) + seq!['-'] + decimal(end as nat),
            cpus,
        ),
        start > end ==> !is_cpu_list(decimal(start as nat) + seq!['-'] + decimal(end as nat)),
{
    let a = decimal(start as nat);
    let b = decimal(end as nat);
    let s = a + seq!['-'] + b;
    lemma_decimal_is_plain(start as nat);
    lemma_decimal_is_plain(end as nat);
    law_decimal_is_read_back(start as nat);
    law_decimal_is_read_back(end as nat);
    assert(!s.contains(',')) by {
        if s.contains(',') {
            let i = choose|i: int| 0 <= i < s.len() && s[i] == ',';
            if i < a.len() {
                assert(a[i] == ',');
            } else if i > a.len() {
                assert(b[i - a.len() - 1] == ',');
            }
        }
    }
    assert(s[0] == a[0] && s.last() == b.last());
    law_white_space_around_a_text_is_taken_away(Seq::empty(), s, Seq::empty());
    assert(Seq::<char>::empty() + s + Seq::<char>::empty() =~= s);
    let at = a.len() as int;
    assert(s[at] == '-');
    assert forall|i: int| 0 <= i < at implies #[trigger] s[i] != '-' by {
        assert(s[i] == a[i]);
        assert(!a.contains('-'));
    }
    assert(is_first_place(s, '-', at));
    assert(s.take(at) =~= a);
    assert(s.skip(at + 1) =~= b);
    if start <= end {
        assert(cpus =~= processors_between(start as nat, end as nat));
        assert(piece_names(s, processors_between(start as nat, end as nat)));
        lemma_single(s, cpus);
    } else {
        lemma_single(s, cpus);
        if is_piece(s) {
            let named = choose|named: Seq<usize>| #[trigger] piece_names(s, named);
            let (i, x, y) = choose|i: int, x: usize, y: usize|
                {
                    &&& #[trigger] is_first_place(s, '-', i)
                    &&& number(s.take(i)) == Some(x as nat)
                    &&& number(s.skip(i + 1)) == Some(y as nat)
                    &&& x <= y
                    &&& named == #[trigger] processors_between(x as nat, y as nat)
                };
            assert(i == at) by {
                if i < at {
                    assert(s[i] != '-');
                } else if i > at {
                    assert(s[at] != '-');
                }
            }
        }
    }
}

/// A piece names one row of processors.
proof fn lemma_piece_is_read_one_way(piece: Seq<char>, x: Seq<usize>, y: Seq<usize>)
    requires
        piece_names(piece, x),
        piece_names(piece, y),
    ensures
        x == y,
{
    let t = trimmed(piece);
    if t.contains('-') {
        let (i, a, b) = choose|i: int, a: usize, b: usize|
            {
                &&& #[trigger] is_first_place(t, '-', i)
                &&& number(t.take(i)) == Some(a as nat)
                &&& number(t.skip(i + 1)) == Some(b as nat)
                &&& a <= b
                &&& x == #[trigger] processors_between(a as nat, b as nat)
            };
        let (j, c, d) = choose|j: int, c: usize, d: usize|
            {
                &&& #[trigger] is_first_place(t, '-', j)
                &&& number(t.take(j)) == Some(c as nat)
                &&& number(t.skip(j + 1)) == Some(d as nat)
                &&& c <= d
                &&& y == #[trigger] processors_between(c as nat, d as nat)
            };
        if i < j {
            assert(t[i] != '-');
        } else if j < i {
            assert(t[j] != '-');
        }
    }
}

proof fn lemma_pieces_are_read_one_way(
    pieces: Seq<Seq<char>>,
    k: int,
    x: Seq<usize>,
    y: Seq<usize>,
)
    requires
        pieces_name(pieces, k, x),
        pieces_name(pieces, k, y),
    ensures
        x == y,
    decreases k,
{
    if k <= 0 {
        assert(x =~= y);
    } else {
        let (a, b) = choose|a: Seq<usize>, b: Seq<usize>|
            pieces_name(pieces, k - 1, a) && piece_names(pieces[k - 1], b) && x == #[trigger] (a
                + b);
        let (c, d) = choose|c: Seq<usize>, d: Seq<usize>|
            pieces_name(pieces, k - 1, c) && piece_names(pieces[k - 1], d) && y == #[trigger] (c
                + d);
        lemma_pieces_are_read_one_way(pieces, k - 1, a, c);
        lemma_piece_is_read_one_way(pieces[k - 1], b, d);
    }
}

/// A list names one row of processors, and no other.
pub proof fn law_a_list_is_read_one_way(value: Seq<char>, x: Seq<usize>, y: Seq<usize>)
    requires
        list_names(value, x),
        list_names(value, y),
    ensures
        x == y,
{
    lemma_pieces_are_read_one_way(split(value, ','), split(value, ',').len() as int, x, y);
}

/// Of the lines of a status the first that begins with the label and holds a list counts.
pub proof fn law_the_first_list_of_a_status_counts(
    lines: Seq<Seq<char>>,
    k: int,
    list: Seq<char>,
    cpus: Seq<usize>,
)
    requires
        0 <= k < lines.len(),
        forall|i: int| 0 <= i < lines.len() ==> !(#[trigger] lines[i]).contains('\n'),
        forall|i: int|
            0 <= i < k ==> !list_label().is_prefix_of(#[trigger] lines[i]) || !is_cpu_list(
                trimmed(lines[i].skip(list_label().len() as int)),
            ),
        lines[k] == list_label() + list,
        is_cpu_list(trimmed(list)),
        list_names(trimmed(list), cpus),
    ensures
        status_has_list(joined_by(lines, '\n')),
        status_names(joined_by(lines, '\n'), cpus),
{
    law_splitting_undoes_joining(lines, '\n');
    let label = list_label();
    assert(lines[k].skip(label.len() as int) =~= list);
    assert(label =~= lines[k].subrange(0, label.len() as int));
    assert(is_list_line(lines[k]));
    assert forall|j: int| 0 <= j < k implies !is_list_line(#[trigger] lines[j]) by {}
    assert(is_list_line(split(joined_by(lines, '\n'), '\n')[k]));
}

/// A reading of another core counts, and one of a core that was read before does not, whatever
/// white space stands around the numbers.
pub proof fn law_every_core_counts_once(
    readings: Seq<(String, String)>,
    reading: (String, String),
)
    ensures
        ({
            let known = exists|i: int|
                0 <= i < readings.len() && trimmed((#[trigger] readings[i]).0@) == trimmed(
                    reading.0@,
                ) && trimmed(readings[i].1@) == trimmed(reading.1@);
            cores_of(readings.push(reading)).len() == cores_of(readings).len() + if known {
                0int
            } else {
                1
            }
        }),
        cores_of(Seq::<(String, String)>::empty()).len() == 0,
{
    let more = readings.push(reading);
    let a = Seq::new(readings.len(), |i: int| core_of(readings[i]));
    let b = Seq::new(more.len(), |i: int| core_of(more[i]));
    let this = core_of(reading);
    assert(b =~= a.push(this));
    assert(b.to_set() =~= a.to_set().insert(this)) by {
        assert forall|x: (Seq<char>, Seq<char>)| b.to_set().contains(x) <==> (a.to_set().contains(x)
            || x == this) by {
            if a.contains(x) {
                let k = choose|k: int| 0 <= k < a.len() && a[k] == x;
                assert(b[k] == x);
            }
            assert(b[a.len() as int] == this);
        }
    }
    a.lemma_cardinality_of_set();
    let known = exists|i: int|
        0 <= i < readings.len() && trimmed((#[trigger] readings[i]).0@) == trimmed(reading.0@)
            && trimmed(readings[i].1@) == trimmed(reading.1@);
    if known {
        let i = choose|i: int|
            0 <= i < readings.len() && trimmed((#[trigger] readings[i]).0@) == trimmed(reading.0@)
                && trimmed(readings[i].1@) == trimmed(reading.1@);
        assert(a[i] == this);
    } else if a.contains(this) {
        let i = choose|i: int| 0 <= i < a.len() && a[i] == this;
        assert(core_of(readings[i]) == this);
    }
    let none = Seq::<(String, String)>::empty();
    assert(Seq::new(none.len(), |i: int| core_of(none[i])).to_set() =~= Set::empty());
}

/// A budget is accepted exactly where every lane has a thread and the machine has a core for each
/// thread of all lanes. The error says what was asked for and what there is.
pub proof fn law_a_budget_needs_a_core_for_each_thread(
    lanes: usize,
    threads: usize,
    cores: usize,
    verdict: Result<(), BudgetError>,
)
    requires
        is_budget_verdict(lanes, threads, cores, verdict),
    ensures
        verdict is Ok <==> lanes > 0 && threads > 0 && lanes * threads <= cores,
        budget_fits(lanes, threads, cores) <==> lanes > 0 && threads > 0 && lanes * threads
            <= cores,
        verdict matches Err(
            BudgetError::ExceedsPhysicalCores {
                block_concurrency,
                candidate_threads,
                requested_threads,
                physical_core_limit,
            },
        ) ==> block_concurrency == lanes && candidate_threads == threads && requested_threads
            == lanes * threads && physical_core_limit == cores && requested_threads > cores,
        verdict matches Err(BudgetError::NoBlockConcurrency) ==> lanes == 0,
        verdict matches Err(BudgetError::NoCandidateThreads) ==> threads == 0,
        verdict matches Err(BudgetError::NoPhysicalCores) ==> cores == 0,
        verdict matches Err(BudgetError::Overflow) ==> lanes * threads > usize::MAX,
        lanes == 0 ==> verdict matches Err(BudgetError::NoBlockConcurrency),
        lanes > 0 && threads == 0 ==> verdict matches Err(BudgetError::NoCandidateThreads),
        lanes > 0 && threads > 0 && cores == 0 ==> verdict matches Err(
            BudgetError::NoPhysicalCores,
        ),
        threads > 0 && cores > 0 && lanes * threads > usize::MAX ==> verdict matches Err(
            BudgetError::Overflow,
        ),
        threads > 0 && cores > 0 && cores < lanes * threads <= usize::MAX ==> verdict matches Err(
            BudgetError::ExceedsPhysicalCores { .. },
        ),
{
    if lanes > 0 && threads > 0 {
        assert(lanes * threads > 0) by (nonlinear_arith)
            requires
                lanes > 0,
                threads > 0,
        ;
    }
}

/// The limit of cores is at least one, and beyond that no larger than the number of threads that
/// the system runs at once, nor than the number of cores that the process may use; where that is
/// not known, than the number that the machine has. It is as large as that allows.
pub proof fn law_the_core_limit_is_the_smallest_bound(readings: ProcessorReadings, detected: usize)
    ensures
        ({
            let limit = core_limit(readings, detected);
            let threads = if readings.available_logical is Some {
                readings.available_logical->0
            } else {
                1
            };
            let cores = if readings.affine_physical is Some {
                readings.affine_physical->0
            } else {
                detected
            };
            &&& limit >= 1
            &&& limit > 1 ==> limit <= threads && limit <= cores
            &&& limit == threads || limit == cores || limit == 1
            &&& threads >= 1 && cores >= 1 ==> limit == threads || limit == cores
        }),
{
}

/// No two workers have the same name.
pub proof fn law_workers_have_names_of_their_own(
    lane: usize,
    worker: usize,
    other_lane: usize,
    other_worker: usize,
)
    requires
        thread_name(lane, worker) == thread_name(other_lane, other_worker),
    ensures
        lane == other_lane,
        worker == other_worker,
{
    reveal_strlit("backtest-candidate-");
    reveal_strlit("-");
    let head = "backtest-candidate-"@;
    let a = decimal(lane as nat);
    let b = decimal(worker as nat);
    let c = decimal(other_lane as nat);
    let d = decimal(other_worker as nat);
    let s = thread_name(lane, worker);
    let t = thread_name(other_lane, other_worker);
    lemma_decimal_is_plain(lane as nat);
    lemma_decimal_is_plain(other_lane as nat);
    let x = s.skip(head.len() as int);
    let y = t.skip(head.len() as int);
    assert(x =~= a + seq!['-'] + b);
    assert(y =~= c + seq!['-'] + d);
    assert(a.len() == c.len()) by {
        if a.len() < c.len() {
            assert(x[a.len() as int] == '-');
            assert(y[a.len() as int] == c[a.len() as int]);
            assert(c.contains(c[a.len() as int]));
        } else if c.len() < a.len() {
            assert(y[c.len() as int] == '-');
            assert(x[c.len() as int] == a[c.len() as int]);
            assert(a.contains(a[c.len() as int]));
        }
    }
    assert(a =~= x.take(a.len() as int));
    assert(c =~= y.take(a.len() as int));
    assert(b =~= x.skip(a.len() as int + 1));
    assert(d =~= y.skip(a.len() as int + 1));
    law_decimals_differ(lane as nat, other_lane as nat);
    law_decimals_differ(worker as nat, other_worker as nat);
}

/// The message about a budget that is too large names the lanes, the threads of each, their product
/// and the cores, in this order.
pub proof fn law_a_large_budget_is_named(lanes: usize, threads: usize, product: usize, cores: usize)
    ensures
        ({
            let message = message_of(
                BudgetError::ExceedsPhysicalCores {
                    block_concurrency: lanes,
                    candidate_threads: threads,
                    requested_threads: product,
                    physical_core_limit: cores,
                },
            );
            &&& begins_with(
                message,
                "backtest compute budget exceeds available physical cores: block_concurrency ("@
                    + decimal(lanes as nat) + ") * candidate_threads ("@ + decimal(threads as nat)
                    + ") = "@,
            )
            &&& ends_with(
                message,
                ") = "@ + decimal(product as nat) + ", available physical cores = "@ + decimal(
                    cores as nat,
                ),
            )
        }),
{
    let message = message_of(
        BudgetError::ExceedsPhysicalCores {
            block_concurrency: lanes,
            candidate_threads: threads,
            requested_threads: product,
            physical_core_limit: cores,
        },
    );
    let start = "backtest compute budget exceeds available physical cores: block_concurrency ("@
        + decimal(lanes as nat) + ") * candidate_threads ("@ + decimal(threads as nat);
    let rest = decimal(product as nat) + ", available physical cores = "@ + decimal(cores as nat);
    assert(message =~= (start + ") = "@) + rest);
    assert(message.take((start + ") = "@).len() as int) =~= start + ") = "@);
    assert(message.skip(start.len() as int) =~= ") = "@ + rest);
    assert(") = "@ + rest =~= ") = "@ + decimal(product as nat) + ", available physical cores = "@
        + decimal(cores as nat));
}

/// The message about a pool that could not be made names the lane and then the threads; that about
/// a batch that is too large names the blocks and then the lanes.
pub proof fn law_refusals_name_their_figures(error: BudgetError)
    ensures
        error matches BudgetError::PoolNotCreated { lane_index, candidate_threads, error: cause }
            ==> is_made_of(
            message_of(error),
            "failed to create candidate pool for lane "@ + decimal(lane_index as nat),
            " with "@ + decimal(candidate_threads as nat) + " threads"@,
        ),
        error matches BudgetError::BatchTooLarge { blocks, block_concurrency } ==> is_made_of(
            message_of(error),
            "backtest batch contains "@ + decimal(blocks as nat),
            " blocks but block_concurrency is "@ + decimal(block_concurrency as nat),
        ),
{
    let message = message_of(error);
    match error {
        BudgetError::PoolNotCreated { lane_index, candidate_threads, error: cause } => {
            let head = "failed to create candidate pool for lane "@ + decimal(lane_index as nat);
            let tail = " with "@ + decimal(candidate_threads as nat) + " threads"@;
            assert(message =~= head + tail);
            assert(message.take(head.len() as int) =~= head);
            assert(message.skip(head.len() as int) =~= tail);
        },
        BudgetError::BatchTooLarge { blocks, block_concurrency } => {
            let head = "backtest batch contains "@ + decimal(blocks as nat);
            let tail = " blocks but block_concurrency is "@ + decimal(block_concurrency as nat);
            assert(message =~= head + tail);
            assert(message.take(head.len() as int) =~= head);
            assert(message.skip(head.len() as int) =~= tail);
        },
        _ => {},
    }
}

/// A text is a number exactly where it is made of digits, at least one, which a single plus sign
/// may precede. Each further digit counts ten times less than the one before it.
pub proof fn law_only_digits_make_a_number(s: Seq<char>, c: char)
    ensures
        s.len() > 0 && (forall|i: int| 0 <= i < s.len() ==> '0' <= #[trigger] s[i] <= '9')
            ==> number(s) is Some,
        number(s) is Some ==> s.len() > 0 && ('0' <= s[0] <= '9' || (s[0] == '+' && s.len() > 1))
            && (forall|i: int| 1 <= i < s.len() ==> '0' <= #[trigger] s[i] <= '9'),
        number(s) is Some && '0' <= c <= '9' ==> number(s.push(c)) == Some(
            (number(s)->0 * 10 + (c as u32 - '0' as u32)) as nat,
        ),
{
    let digits = without_plus(s);
    if s.len() > 0 && (forall|i: int| 0 <= i < s.len() ==> '0' <= #[trigger] s[i] <= '9') {
        assert('0' <= s[0]);
        assert(digits == s);
    }
    if number(s) is Some {
        if s.len() > 1 && s[0] == '+' {
            assert forall|i: int| 1 <= i < s.len() implies '0' <= #[trigger] s[i] <= '9' by {
                assert(digits[i - 1] == s[i]);
            }
        } else {
            assert('0' <= digits[0] <= '9');
        }
        if '0' <= c <= '9' {
            let more = s.push(c);
            let longer = without_plus(more);
            assert(more[0] == s[0]);
            assert(longer =~= digits.push(c));
            assert(longer.drop_last() =~= digits);
            assert forall|i: int| 0 <= i < longer.len() implies '0' <= #[trigger] longer[i]
                <= '9' by {
                if i < digits.len() {
                    assert(longer[i] == digits[i]);
                }
            }
        }
    }
}

/// The description of a processor lies under its number.
pub proof fn law_a_processor_is_described_under_its_number(cpu: usize, file: Seq<char>)
    ensures
        is_made_of(
            topology_path(cpu, file),
            "/sys/devices/system/cpu/cpu"@ + decimal(cpu as nat),
            "/topology/"@ + file,
        ),
{
    let head = "/sys/devices/system/cpu/cpu"@ + decimal(cpu as nat);
    let tail = "/topology/"@ + file;
    let path = topology_path(cpu, file);
    assert(path =~= head + tail);
    assert(path.take(head.len() as int) =~= head);
    assert(path.skip(head.len() as int) =~= tail);
}

/// A budget that is made has a pool for each lane, and each pool was asked for with the threads of
/// a lane, under the number of its lane. None is made that was not accepted.
pub proof fn law_a_budget_has_a_pool_for_each_lane(
    lanes: usize,
    threads: usize,
    cores: usize,
    budget: BacktestComputeBudget,
    i: int,
)
    requires
        makes_budget(lanes, threads, cores, Ok(budget)),
    ensures
        lanes > 0,
        threads > 0,
        lanes * threads <= cores,
        budget.pools().len() == lanes,
        0 <= i < lanes ==> budget.pools()[i].pool_asked_for() == (threads, i as usize),
        budget.concurrency() == lanes,
        budget.threads() == threads,
        budget.core_limit() == cores,
{
    if 0 <= i < lanes {
        assert(budget.pools()[i].threads() == threads);
    }
}

/// A pool of its own is asked for with the threads that were wanted, as the first lane, and only
/// where there is a core for each of them.
pub proof fn law_a_single_pool_is_the_first_lane(
    threads: usize,
    cores: usize,
    executor: CandidateExecutor,
)
    requires
        makes_executor(threads, cores, Ok(executor)),
    ensures
        0 < threads <= cores,
        executor.threads() == threads,
        executor.pool_asked_for() == (threads, 0usize),
{
    assert(1 * threads == threads) by (nonlinear_arith);
}

/// The name of a worker holds the number of its lane and then its own.
pub proof fn law_a_name_holds_lane_and_worker(lane: usize, worker: usize)
    ensures
        is_made_of(
            thread_name(lane, worker),
            "backtest-candidate-"@ + decimal(lane as nat),
            "-"@ + decimal(worker as nat),
        ),
{
    let head = "backtest-candidate-"@ + decimal(lane as nat);
    let tail = "-"@ + decimal(worker as nat);
    let name = thread_name(lane, worker);
    assert(name =~= head + tail);
    assert(name.take(head.len() as int) =~= head);
    assert(name.skip(head.len() as int) =~= tail);
}

} // verus!
