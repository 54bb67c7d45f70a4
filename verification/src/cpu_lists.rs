//! Which processors may be used, and how many physical cores they belong to.
use vstd::prelude::*;

use crate::text::{
    append_chars, append_text, chars_of, decimal, decimal_chars, find_char, is_first_place, number,
    parse_usize, split, split_chars, sub_chars, text_of, texts, trim, trimmed,
};

verus! {

/// The numbers `start..=end`.
pub open spec fn processors_between(start: nat, end: nat) -> Seq<usize> {
    Seq::new((end - start + 1) as nat, |i: int| (start + i) as usize)
}

/// `cpus` are the processors that a piece of a list names: a single one, or all of a range whose
/// ends a hyphen parts.
pub open spec fn piece_names(piece: Seq<char>, cpus: Seq<usize>) -> bool {
    let t = trimmed(piece);
    if t.contains('-') {
        exists|i: int, start: usize, end: usize|
            {
                &&& #[trigger] is_first_place(t, '-', i)
                &&& number(t.take(i)) == Some(start as nat)
                &&& number(t.skip(i + 1)) == Some(end as nat)
                &&& start <= end
                &&& cpus == #[trigger] processors_between(start as nat, end as nat)
            }
    } else {
        exists|cpu: usize| number(t) == Some(cpu as nat) && cpus == #[trigger] seq![cpu]
    }
}

/// `cpus` are the processors that the first `k` pieces name, one piece after another.
pub open spec fn pieces_name(pieces: Seq<Seq<char>>, k: int, cpus: Seq<usize>) -> bool
    decreases k,
{
    if k <= 0 {
        cpus.len() == 0
    } else {
        exists|earlier: Seq<usize>, last: Seq<usize>|
            pieces_name(pieces, k - 1, earlier) && piece_names(pieces[k - 1], last) && cpus
                == #[trigger] (earlier + last)
    }
}

/// `cpus` are the processors that the list names.
pub open spec fn list_names(value: Seq<char>, cpus: Seq<usize>) -> bool {
    let pieces = split(value, ',');
    pieces_name(pieces, pieces.len() as int, cpus)
}

/// The piece names some processors.
pub open spec fn is_piece(piece: Seq<char>) -> bool {
    exists|cpus: Seq<usize>| #[trigger] piece_names(piece, cpus)
}

/// The text is a list of processors: every piece names some.
pub open spec fn is_cpu_list(value: Seq<char>) -> bool {
    let pieces = split(value, ',');
    forall|k: int| 0 <= k < pieces.len() ==> is_piece(#[trigger] pieces[k])
}

proof fn lemma_first_place_is_unique(s: Seq<char>, c: char, i: int, j: int)
    requires
        is_first_place(s, c, i),
        is_first_place(s, c, j),
    ensures
        i == j,
{
    if i < j {
        assert(s[i] != c);
    } else if j < i {
        assert(s[j] != c);
    }
}

/// Reads a piece of a list of processors.
fn parse_piece(piece: &[char]) -> (r: Option<Vec<usize>>)
    ensures
        match r {
            Some(cpus) => piece_names(piece@, cpus@),
            None => !is_piece(piece@),
        },
{
    let part = trim(piece);
    let ghost t = trimmed(piece@);
    match find_char(&part, '-') {
        Some(place) => {
            assert(t[place as int] == '-');
            let first = sub_chars(&part, 0, place);
            let length: usize = part.len();
            let second = sub_chars(&part, place + 1, length);
            proof {
                assert(first@ =~= t.take(place as int));
                assert(second@ =~= t.skip(place + 1));
                assert forall|i: int| #[trigger] is_first_place(t, '-', i) implies i == place by {
                    lemma_first_place_is_unique(t, '-', i, place as int);
                }
            }
            let start: usize = match parse_usize(&first) {
                Some(start) => start,
                None => {
                    return None;
                },
            };
            let end: usize = match parse_usize(&second) {
                Some(end) => end,
                None => {
                    return None;
                },
            };
            if start > end {
                return None;
            }
            let mut cpus: Vec<usize> = Vec::new();
            let mut cpu: usize = start;
            while cpu < end
                invariant
                    start <= cpu <= end,
                    cpus@.len() == cpu - start,
                    forall|i: int| 0 <= i < cpus@.len() ==> #[trigger] cpus@[i] == start + i,
                decreases end - cpu,
            {
                cpus.push(cpu);
                cpu = cpu + 1;
            }
            cpus.push(cpu);
            assert(cpus@ =~= processors_between(start as nat, end as nat));
            Some(cpus)
        },
        None => {
            match parse_usize(&part) {
                Some(cpu) => {
                    let mut cpus: Vec<usize> = Vec::new();
                    cpus.push(cpu);
                    assert(cpus@ =~= seq![cpu]);
                    Some(cpus)
                },
                None => None,
            }
        },
    }
}

/// Reads a list of processors such as `0-2,8`.
pub fn parse_cpu_list(value: &str) -> (r: Option<Vec<usize>>)
    ensures
        match r {
            Some(cpus) => list_names(value@, cpus@),
            None => !is_cpu_list(value@),
        },
{
    parse_cpu_chars(&chars_of(value))
}

fn parse_cpu_chars(value: &[char]) -> (r: Option<Vec<usize>>)
    ensures
        match r {
            Some(cpus) => list_names(value@, cpus@),
            None => !is_cpu_list(value@),
        },
{
    let pieces = split_chars(value, ',');
    let ghost rows = split(value@, ',');
    let mut cpus: Vec<usize> = Vec::new();
    for k in 0..pieces.len()
        invariant
            texts(pieces@) == rows,
            rows == split(value@, ','),
            pieces_name(rows, k as int, cpus@),
    {
        assert(rows[k as int] == pieces@[k as int]@);
        match parse_piece(&pieces[k]) {
            Some(more) => {
                let ghost earlier = cpus@;
                let ghost last = more@;
                let mut tail = more;
                cpus.append(&mut tail);
                assert(cpus@ =~= earlier + last);
            },
            None => {
                return None;
            },
        }
    }
    Some(cpus)
}

/// The text that stands before the list of processors in a process's status.
pub open spec fn list_label() -> Seq<char> {
    "Cpus_allowed_list:"@
}

/// The line holds a list of processors that can be read.
pub open spec fn is_list_line(line: Seq<char>) -> bool {
    &&& list_label().is_prefix_of(line)
    &&& is_cpu_list(trimmed(line.skip(list_label().len() as int)))
}

/// `cpus` are the processors that the first line with a readable list names.
pub open spec fn status_names(status: Seq<char>, cpus: Seq<usize>) -> bool {
    let lines = split(status, '\n');
    exists|k: int|
        {
            &&& 0 <= k < lines.len()
            &&& #[trigger] is_list_line(lines[k])
            &&& forall|j: int| 0 <= j < k ==> !is_list_line(#[trigger] lines[j])
            &&& list_names(trimmed(lines[k].skip(list_label().len() as int)), cpus)
        }
}

/// Some line of the status holds a list of processors that can be read.
pub open spec fn status_has_list(status: Seq<char>) -> bool {
    exists|k: int|
        0 <= k < split(status, '\n').len() && is_list_line(#[trigger] split(status, '\n')[k])
}

fn has_prefix(s: &[char], prefix: &[char]) -> (r: bool)
    ensures
        r == prefix@.is_prefix_of(s@),
{
    if s.len() < prefix.len() {
        return false;
    }
    for i in 0..prefix.len()
        invariant
            prefix@.len() <= s@.len(),
            forall|j: int| 0 <= j < i ==> #[trigger] prefix@[j] == s@[j],
    {
        if s[i] != prefix[i] {
            assert(prefix@[i as int] != s@.subrange(0, prefix@.len() as int)[i as int]);
            return false;
        }
    }
    assert(prefix@ =~= s@.subrange(0, prefix@.len() as int));
    true
}

proof fn lemma_named_list_is_a_list(value: Seq<char>, k: int, cpus: Seq<usize>)
    requires
        0 <= k <= split(value, ',').len(),
        pieces_name(split(value, ','), k, cpus),
    ensures
        forall|j: int| 0 <= j < k ==> is_piece(#[trigger] split(value, ',')[j]),
    decreases k,
{
    let pieces = split(value, ',');
    if k > 0 {
        let (earlier, last) = choose|earlier: Seq<usize>, last: Seq<usize>|
            pieces_name(pieces, k - 1, earlier) && piece_names(pieces[k - 1], last) && cpus
                == #[trigger] (earlier + last);
        lemma_named_list_is_a_list(value, k - 1, earlier);
        assert forall|j: int| 0 <= j < k implies is_piece(#[trigger] pieces[j]) by {
            if j == k - 1 {
                assert(piece_names(pieces[j], last));
            }
        }
    }
}

/// Finds the processors that a process may use, by its status: those of the first line that holds
/// a list that can be read.
pub fn allowed_processors(status: &str) -> (r: Option<Vec<usize>>)
    ensures
        match r {
            Some(cpus) => status_names(status@, cpus@),
            None => !status_has_list(status@),
        },
{
    let lines = split_chars(&chars_of(status), '\n');
    let label = chars_of("Cpus_allowed_list:");
    let ghost rows = split(status@, '\n');
    for k in 0..lines.len()
        invariant
            texts(lines@) == rows,
            rows == split(status@, '\n'),
            label@ == list_label(),
            forall|j: int| 0 <= j < k ==> !is_list_line(#[trigger] rows[j]),
    {
        let line = &lines[k];
        assert(rows[k as int] == line@);
        if has_prefix(line, &label) {
            let rest = sub_chars(line, label.len(), line.len());
            assert(rest@ =~= line@.skip(label@.len() as int));
            if let Some(cpus) = parse_cpu_chars(&trim(&rest)) {
                proof {
                    let value = trimmed(rest@);
                    lemma_named_list_is_a_list(value, split(value, ',').len() as int, cpus@);
                    assert(is_list_line(rows[k as int]));
                }
                return Some(cpus);
            }
        }
    }
    None
}

/// Where the topology of a processor is described.
pub open spec fn topology_path(cpu: usize, file: Seq<char>) -> Seq<char> {
    "/sys/devices/system/cpu/cpu"@ + decimal(cpu as nat) + "/topology/"@ + file
}

/// The file with the number of the core that a processor belongs to.
pub fn core_id_path(cpu: usize) -> (r: String)
    ensures
        r@ == topology_path(cpu, "core_id"@),
{
    let mut out = chars_of("/sys/devices/system/cpu/cpu");
    append_chars(&mut out, decimal_chars(cpu as u128));
    append_text(&mut out, "/topology/");
    append_text(&mut out, "core_id");
    text_of(&out)
}

/// The file with the number of the package that a processor belongs to.
pub fn package_id_path(cpu: usize) -> (r: String)
    ensures
        r@ == topology_path(cpu, "physical_package_id"@),
{
    let mut out = chars_of("/sys/devices/system/cpu/cpu");
    append_chars(&mut out, decimal_chars(cpu as u128));
    append_text(&mut out, "/topology/");
    append_text(&mut out, "physical_package_id");
    text_of(&out)
}

/// A core: its package and its number there, without white space around them.
pub open spec fn core_of(reading: (String, String)) -> (Seq<char>, Seq<char>) {
    (trimmed(reading.0@), trimmed(reading.1@))
}

/// The cores that the readings name.
pub open spec fn cores_of(readings: Seq<(String, String)>) -> Set<(Seq<char>, Seq<char>)> {
    Seq::new(readings.len(), |i: int| core_of(readings[i])).to_set()
}

fn same_chars(a: &Vec<char>, b: &Vec<char>) -> (r: bool)
    ensures
        r == (a@ == b@),
{
    if a.len() != b.len() {
        return false;
    }
    for i in 0..a.len()
        invariant
            a@.len() == b@.len(),
            forall|j: int| 0 <= j < i ==> #[trigger] a@[j] == b@[j],
    {
        if a[i] != b[i] {
            return false;
        }
    }
    assert(a@ =~= b@);
    true
}

/// The contents of a pair of texts.
pub open spec fn pair_text(pair: (Vec<char>, Vec<char>)) -> (Seq<char>, Seq<char>) {
    (pair.0@, pair.1@)
}

/// Counts the different cores among the readings of package and core number, one for each
/// processor. There is no count where there is no core.
pub fn count_cores(readings: &Vec<(String, String)>) -> (r: Option<usize>)
    ensures
        r == if readings@.len() == 0 {
            None
        } else {
            Some(cores_of(readings@).len() as usize)
        },
        cores_of(readings@).len() <= readings@.len(),
{
    let mut cores: Vec<(Vec<char>, Vec<char>)> = Vec::new();
    let ghost mut seen: Seq<(Seq<char>, Seq<char>)> = Seq::empty();
    for i in 0..readings.len()
        invariant
            seen.no_duplicates(),
            seen.len() == cores@.len(),
            seen.len() <= i,
            forall|j: int| 0 <= j < seen.len() ==> #[trigger] seen[j] == pair_text(cores@[j]),
            seen.to_set() == cores_of(readings@.take(i as int)),
            i > 0 ==> cores@.len() > 0,
    {
        let reading = &readings[i];
        let package = trim(&chars_of(reading.0.as_str()));
        let core = trim(&chars_of(reading.1.as_str()));
        let ghost this = core_of(readings@[i as int]);
        let mut known: bool = false;
        for j in 0..cores.len()
            invariant
                seen.len() == cores@.len(),
                forall|k: int| 0 <= k < seen.len() ==> #[trigger] seen[k] == pair_text(cores@[k]),
                this == (package@, core@),
                known == exists|k: int| 0 <= k < j && #[trigger] seen[k] == this,
        {
            assert(seen[j as int] == pair_text(cores@[j as int]));
            if same_chars(&cores[j].0, &package) && same_chars(&cores[j].1, &core) {
                known = true;
            }
        }
        proof {
            let before = readings@.take(i as int);
            let after = readings@.take(i + 1);
            let a = Seq::new(before.len(), |k: int| core_of(before[k]));
            let b = Seq::new(after.len(), |k: int| core_of(after[k]));
            assert(b =~= a.push(this));
            assert(b.to_set() =~= a.to_set().insert(this)) by {
                assert forall|x: (Seq<char>, Seq<char>)| b.to_set().contains(x) <==> (
                a.to_set().contains(x) || x == this) by {
                    if a.contains(x) {
                        let k = choose|k: int| 0 <= k < a.len() && a[k] == x;
                        assert(b[k] == x);
                    }
                    assert(b[a.len() as int] == this);
                }
            }
            if known {
                assert(seen.to_set().contains(this));
                assert(cores_of(after) =~= cores_of(before));
            } else {
                let more = seen.push(this);
                assert(!seen.contains(this));
                assert(more.no_duplicates());
                assert(more.to_set() =~= seen.to_set().insert(this)) by {
                    assert forall|x: (Seq<char>, Seq<char>)| more.to_set().contains(x) <==> (
                    seen.to_set().contains(x) || x == this) by {
                        if seen.contains(x) {
                            let k = choose|k: int| 0 <= k < seen.len() && seen[k] == x;
                            assert(more[k] == x);
                        }
                        assert(more[seen.len() as int] == this);
                    }
                }
                seen = more;
            }
        }
        if !known {
            cores.push((package, core));
        }
    }
    assert(readings@.take(readings@.len() as int) =~= readings@);
    proof {
        seen.unique_seq_to_set();
    }
    if cores.len() == 0 {
        None
    } else {
        Some(cores.len())
    }
}

} // verus!
