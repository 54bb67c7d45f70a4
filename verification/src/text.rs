//! Text: decimal numbers, pieces between separators, and surrounding white space.
use vstd::prelude::*;

verus! {

/// The characters of a text.
pub fn chars_of(s: &str) -> (r: Vec<char>)
    ensures
        r@ == s@,
{
    let mut r: Vec<char> = Vec::new();
    let n: usize = s.unicode_len();
    for i in 0..n
        invariant
            n == s@.len(),
            r@ == s@.take(i as int),
    {
        r.push(s.get_char(i));
        assert(r@ =~= s@.take(i + 1));
    }
    assert(s@.take(n as int) =~= s@);
    r
}

/// `String::from_iter`: the text with the given characters.
#[verifier::external_body]
pub(crate) fn text_of(chars: &Vec<char>) -> (r: String)
    ensures
        r@ == chars@,
{
    String::from_iter(chars)
}

/// Appends a text.
pub fn append_text(out: &mut Vec<char>, text: &str)
    ensures
        final(out)@ == old(out)@ + text@,
{
    let mut more = chars_of(text);
    out.append(&mut more);
}

/// Appends characters.
pub fn append_chars(out: &mut Vec<char>, chars: Vec<char>)
    ensures
        final(out)@ == old(out)@ + chars@,
{
    let mut more = chars;
    out.append(&mut more);
}

/// So many times the same character.
pub open spec fn repeated(c: char, count: nat) -> Seq<char> {
    Seq::new(count, |i: int| c)
}

/// How many characters are missing up to the width.
pub open spec fn missing(s: Seq<char>, width: nat) -> nat {
    if s.len() < width {
        (width - s.len()) as nat
    } else {
        0
    }
}

/// The text, with characters before it up to the width.
pub open spec fn padded_start(s: Seq<char>, width: nat, fill: char) -> Seq<char> {
    repeated(fill, missing(s, width)) + s
}

/// The text, with spaces behind it up to the width.
pub open spec fn padded_end(s: Seq<char>, width: nat) -> Seq<char> {
    s + repeated(' ', missing(s, width))
}

/// Puts spaces before a text up to the width.
pub fn pad_start(chars: Vec<char>, width: usize) -> (r: Vec<char>)
    ensures
        r@ == padded_start(chars@, width as nat, ' '),
{
    let mut r: Vec<char> = Vec::new();
    let length: usize = chars.len();
    let count: usize = if length < width {
        width - length
    } else {
        0
    };
    for i in 0..count
        invariant
            r@ == repeated(' ', i as nat),
    {
        r.push(' ');
        assert(r@ =~= repeated(' ', (i + 1) as nat));
    }
    append_chars(&mut r, chars);
    r
}

/// Puts spaces behind a text up to the width.
pub fn pad_end(chars: Vec<char>, width: usize) -> (r: Vec<char>)
    ensures
        r@ == padded_end(chars@, width as nat),
{
    let ghost given = chars@;
    let length: usize = chars.len();
    let count: usize = if length < width {
        width - length
    } else {
        0
    };
    let mut r = chars;
    assert(r@ =~= given + repeated(' ', 0));
    for i in 0..count
        invariant
            r@ == given + repeated(' ', i as nat),
    {
        r.push(' ');
        assert(r@ =~= given + repeated(' ', (i + 1) as nat));
    }
    r
}

/// The digit's character.
pub open spec fn digit_char(digit: nat) -> char {
    (('0' as u32 + digit) as u32) as char
}

/// A number in decimal, without leading zeros.
pub open spec fn decimal(n: nat) -> Seq<char>
    decreases n,
{
    if n < 10 {
        seq![digit_char(n)]
    } else {
        decimal(n / 10).push(digit_char(n % 10))
    }
}

fn char_of_digit(digit: u8) -> (c: char)
    requires
        digit < 10,
    ensures
        c == digit_char(digit as nat),
{
    (48u8 + digit) as char
}

/// Writes a number in decimal.
pub fn decimal_chars(n: u128) -> (r: Vec<char>)
    ensures
        r@ == decimal(n as nat),
    decreases n,
{
    if n < 10 {
        let mut r: Vec<char> = Vec::new();
        r.push(char_of_digit(n as u8));
        assert(r@ =~= decimal(n as nat));
        r
    } else {
        let mut r = decimal_chars(n / 10);
        r.push(char_of_digit((n % 10) as u8));
        r
    }
}

/// A number in decimal, with a minus sign before a negative one.
pub open spec fn signed_decimal(n: int) -> Seq<char> {
    if n >= 0 {
        decimal(n as nat)
    } else {
        "-"@ + decimal((-n) as nat)
    }
}

/// Writes a number in decimal, with a minus sign before a negative one.
pub fn signed_decimal_chars(n: i64) -> (r: Vec<char>)
    ensures
        r@ == signed_decimal(n as int),
{
    if n >= 0 {
        decimal_chars(n as u128)
    } else {
        let mut out = chars_of("-");
        append_chars(&mut out, decimal_chars((-(n as i128)) as u128));
        out
    }
}

/// White space as Unicode has it.
pub open spec fn is_white_space(c: char) -> bool {
    let n = c as u32;
    ||| 0x9 <= n <= 0xd
    ||| n == 0x20
    ||| n == 0x85
    ||| n == 0xa0
    ||| n == 0x1680
    ||| 0x2000 <= n <= 0x200a
    ||| n == 0x2028
    ||| n == 0x2029
    ||| n == 0x202f
    ||| n == 0x205f
    ||| n == 0x3000
}

/// Computes [`is_white_space`].
pub fn char_is_white_space(c: char) -> (r: bool)
    ensures
        r == is_white_space(c),
{
    let n: u32 = c as u32;
    (0x9 <= n && n <= 0xd) || n == 0x20 || n == 0x85 || n == 0xa0 || n == 0x1680 || (0x2000 <= n
        && n <= 0x200a) || n == 0x2028 || n == 0x2029 || n == 0x202f || n == 0x205f || n == 0x3000
}

/// The text without the white space that it begins with.
pub open spec fn trimmed_start(s: Seq<char>) -> Seq<char>
    decreases s.len(),
{
    if s.len() > 0 && is_white_space(s[0]) {
        trimmed_start(s.skip(1))
    } else {
        s
    }
}

/// The text without the white space that it ends with.
pub open spec fn trimmed_end(s: Seq<char>) -> Seq<char>
    decreases s.len(),
{
    if s.len() > 0 && is_white_space(s.last()) {
        trimmed_end(s.drop_last())
    } else {
        s
    }
}

/// The text without white space around it.
pub open spec fn trimmed(s: Seq<char>) -> Seq<char> {
    trimmed_end(trimmed_start(s))
}

/// Copies the characters from `from` up to `to`.
pub fn sub_chars(s: &[char], from: usize, to: usize) -> (r: Vec<char>)
    requires
        from <= to <= s@.len(),
    ensures
        r@ == s@.subrange(from as int, to as int),
{
    let mut r: Vec<char> = Vec::new();
    for i in from..to
        invariant
            from <= to <= s@.len(),
            from <= i,
            r@ == s@.subrange(from as int, i as int),
    {
        r.push(s[i]);
        assert(r@ =~= s@.subrange(from as int, i + 1));
    }
    r
}

/// Takes the white space around a text away.
pub fn trim(s: &[char]) -> (r: Vec<char>)
    ensures
        r@ == trimmed(s@),
{
    let mut from: usize = 0;
    assert(s@.skip(0) =~= s@);
    while from < s.len() && char_is_white_space(s[from])
        invariant
            from <= s@.len(),
            trimmed_start(s@) == trimmed_start(s@.skip(from as int)),
        decreases s@.len() - from,
    {
        assert(s@.skip(from as int).skip(1) =~= s@.skip(from + 1));
        from = from + 1;
    }
    let ghost rest = s@.skip(from as int);
    let mut to: usize = s.len();
    assert(rest.take(to - from) =~= rest);
    while to > from && char_is_white_space(s[to - 1])
        invariant
            from <= to <= s@.len(),
            rest == s@.skip(from as int),
            trimmed_end(rest) == trimmed_end(rest.take(to - from)),
        decreases to,
    {
        assert(rest.take(to - from).last() == s@[to - 1]);
        assert(rest.take(to - from).drop_last() =~= rest.take(to - 1 - from));
        to = to - 1;
    }
    proof {
        if to > from {
            assert(rest.take(to - from).last() == s@[to - 1]);
        }
        assert(rest.take(to - from) =~= s@.subrange(from as int, to as int));
    }
    sub_chars(s, from, to)
}

/// The pieces of the text between the separators.
pub open spec fn split(s: Seq<char>, separator: char) -> Seq<Seq<char>>
    decreases s.len(),
{
    if s.len() == 0 {
        seq![Seq::empty()]
    } else {
        let earlier = split(s.drop_last(), separator);
        if s.last() == separator {
            earlier.push(Seq::empty())
        } else {
            earlier.drop_last().push(earlier.last().push(s.last()))
        }
    }
}

/// The contents of a vector of texts.
pub open spec fn texts(rows: Seq<Vec<char>>) -> Seq<Seq<char>> {
    Seq::new(rows.len(), |i: int| rows[i]@)
}

proof fn lemma_split_is_not_empty(s: Seq<char>, separator: char)
    ensures
        split(s, separator).len() > 0,
    decreases s.len(),
{
    if s.len() > 0 {
        lemma_split_is_not_empty(s.drop_last(), separator);
    }
}

/// Splits a text at the separators.
pub fn split_chars(s: &[char], separator: char) -> (r: Vec<Vec<char>>)
    ensures
        texts(r@) == split(s@, separator),
        r@.len() > 0,
{
    let mut done: Vec<Vec<char>> = Vec::new();
    let mut current: Vec<char> = Vec::new();
    assert(texts(done@).push(current@) =~= split(s@.take(0), separator));
    for i in 0..s.len()
        invariant
            texts(done@).push(current@) == split(s@.take(i as int), separator),
    {
        let ghost earlier = split(s@.take(i as int), separator);
        let ghost before = done@;
        proof {
            assert(s@.take(i + 1).drop_last() =~= s@.take(i as int));
            assert(s@.take(i + 1).last() == s@[i as int]);
            assert(earlier.drop_last() =~= texts(before));
            assert(earlier.last() == current@);
        }
        if s[i] == separator {
            done.push(current);
            current = Vec::new();
            assert(texts(done@) =~= earlier);
            assert(current@ =~= Seq::empty());
        } else {
            current.push(s[i]);
        }
    }
    assert(s@.take(s@.len() as int) =~= s@);
    let ghost before = texts(done@);
    let ghost tail = current@;
    done.push(current);
    assert(texts(done@) =~= before.push(tail));
    done
}

/// The place of the first `c`.
pub open spec fn is_first_place(s: Seq<char>, c: char, place: int) -> bool {
    &&& 0 <= place < s.len()
    &&& s[place] == c
    &&& forall|i: int| 0 <= i < place ==> #[trigger] s[i] != c
}

/// Finds the first `c`.
pub fn find_char(s: &[char], c: char) -> (r: Option<usize>)
    ensures
        match r {
            Some(place) => is_first_place(s@, c, place as int),
            None => !s@.contains(c),
        },
{
    for i in 0..s.len()
        invariant
            forall|j: int| 0 <= j < i ==> #[trigger] s@[j] != c,
    {
        if s[i] == c {
            return Some(i);
        }
    }
    None
}

/// Every character is a decimal digit.
pub open spec fn all_digits(s: Seq<char>) -> bool {
    forall|i: int| 0 <= i < s.len() ==> '0' <= #[trigger] s[i] <= '9'
}

/// The number that the digits make up.
pub open spec fn digits_value(s: Seq<char>) -> nat
    decreases s.len(),
{
    if s.len() == 0 {
        0
    } else {
        (digits_value(s.drop_last()) * 10 + (s.last() as u32 - '0' as u32)) as nat
    }
}

/// The digits of a number that may begin with a plus sign.
pub open spec fn without_plus(s: Seq<char>) -> Seq<char> {
    if s.len() > 1 && s[0] == '+' {
        s.skip(1)
    } else {
        s
    }
}

/// The number that the text stands for: digits, which a plus sign may precede.
pub open spec fn number(s: Seq<char>) -> Option<nat> {
    let digits = without_plus(s);
    if digits.len() > 0 && all_digits(digits) {
        Some(digits_value(digits))
    } else {
        None
    }
}

proof fn lemma_digits_grow(s: Seq<char>, k: int)
    requires
        all_digits(s),
        0 <= k <= s.len(),
    ensures
        digits_value(s.take(k)) <= digits_value(s),
    decreases s.len(),
{
    if k == s.len() {
        assert(s.take(k) =~= s);
    } else {
        let init = s.drop_last();
        assert forall|i: int| 0 <= i < init.len() implies '0' <= #[trigger] init[i] <= '9' by {
            assert(init[i] == s[i]);
        }
        lemma_digits_grow(init, k);
        assert(init.take(k) =~= s.take(k));
        assert('0' <= s[s.len() - 1]);
    }
}

/// Reads a number, where the text stands for one that fits.
pub fn parse_usize(s: &[char]) -> (r: Option<usize>)
    ensures
        match r {
            Some(n) => number(s@) == Some(n as nat),
            None => match number(s@) {
                Some(n) => n > usize::MAX,
                None => true,
            },
        },
{
    let from: usize = if s.len() > 1 && s[0] == '+' {
        1
    } else {
        0
    };
    let ghost digits = without_plus(s@);
    proof {
        assert(digits =~= s@.skip(from as int));
    }
    if from == s.len() {
        return None;
    }
    let mut value: usize = 0;
    for i in from..s.len()
        invariant
            from <= i <= s@.len(),
            digits == s@.skip(from as int),
            digits == without_plus(s@),
            all_digits(digits.take(i - from)),
            value == digits_value(digits.take(i - from)),
    {
        let c = s[i];
        let ghost next = digits.take(i + 1 - from);
        proof {
            assert(next.drop_last() =~= digits.take(i - from));
            assert(next.last() == c);
            assert(digits[i - from] == c);
        }
        if !('0' <= c && c <= '9') {
            return None;
        }
        let digit: usize = (c as u32 - '0' as u32) as usize;
        proof {
            assert(all_digits(next)) by {
                assert forall|j: int| 0 <= j < next.len() implies '0' <= #[trigger] next[j]
                    <= '9' by {
                    if j < i - from {
                        assert(next[j] == digits.take(i - from)[j]);
                    }
                }
            }
            assert(digits_value(next) == value * 10 + digit);
            if all_digits(digits) {
                lemma_digits_grow(digits, i + 1 - from);
            }
        }
        let scaled: usize = match value.checked_mul(10) {
            Some(scaled) => scaled,
            None => {
                return None;
            },
        };
        value = match scaled.checked_add(digit) {
            Some(sum) => sum,
            None => {
                return None;
            },
        };
    }
    assert(digits.take(s@.len() - from) =~= digits);
    Some(value)
}

} // verus!
