//! What is written can be read back.
use vstd::prelude::*;

use crate::default_tasks::algorithm_text;
use crate::hexadecimal::{
    address_text, big_endian, byte_power, bytes_of_digits, fixed_hex_bytes, hash_text, hex_char,
    hex_digits, hex_value, is_address_of, is_hash_of, is_hex, without_prefix,
};
use crate::text::{all_digits, decimal, digit_char, digits_value, number, without_plus};
use crate::types::{Address, Algorithm, B256};

verus! {

/// A number in decimal is made of digits, at least one, and they make up the number.
pub proof fn lemma_decimal(n: nat)
    ensures
        decimal(n).len() > 0,
        all_digits(decimal(n)),
        digits_value(decimal(n)) == n,
    decreases n,
{
    if n < 10 {
        let s = decimal(n);
        assert(s.drop_last() =~= Seq::empty());
        assert(s.last() == digit_char(n));
        assert(digits_value(s.drop_last()) == 0);
    } else {
        lemma_decimal(n / 10);
        let earlier = decimal(n / 10);
        let s = decimal(n);
        assert(s.drop_last() =~= earlier);
        assert(s.last() == digit_char(n % 10));
        assert forall|i: int| 0 <= i < s.len() implies '0' <= #[trigger] s[i] <= '9' by {
            if i < earlier.len() {
                assert(s[i] == earlier[i]);
            }
        }
    }
}

/// A number that is written in decimal is read back.
pub proof fn law_decimal_is_read_back(n: nat)
    ensures
        number(decimal(n)) == Some(n),
{
    lemma_decimal(n);
    let s = decimal(n);
    assert('0' <= s[0]);
    assert(without_plus(s) == s);
}

/// Different numbers are written differently.
pub proof fn law_decimals_differ(a: nat, b: nat)
    requires
        decimal(a) == decimal(b),
    ensures
        a == b,
{
    law_decimal_is_read_back(a);
    law_decimal_is_read_back(b);
}

/// Where two texts that begin with digits up to a comma are equal, the digits are.
proof fn lemma_digits_up_to_comma(a: Seq<char>, x: Seq<char>, b: Seq<char>, y: Seq<char>)
    requires
        all_digits(a),
        all_digits(b),
        x.len() > 0,
        y.len() > 0,
        !('0' <= x[0] <= '9'),
        !('0' <= y[0] <= '9'),
        a + x == b + y,
    ensures
        a == b,
        x == y,
{
    let s = a + x;
    assert(s[a.len() as int] == x[0]);
    assert((b + y)[b.len() as int] == y[0]);
    if a.len() < b.len() {
        assert(s[a.len() as int] == b[a.len() as int]);
    }
    if b.len() < a.len() {
        assert(s[b.len() as int] == a[b.len() as int]);
    }
    assert(a =~= s.take(a.len() as int));
    assert(b =~= (b + y).take(a.len() as int));
    assert(x =~= s.skip(a.len() as int));
    assert(y =~= (b + y).skip(a.len() as int));
}

proof fn lemma_random_names_differ(seed_a: u64, count_a: usize, seed_b: u64, count_b: usize)
    requires
        algorithm_text(Algorithm::Random { seed: seed_a, count: count_a }) == algorithm_text(
            Algorithm::Random { seed: seed_b, count: count_b },
        ),
    ensures
        seed_a == seed_b,
        count_a == count_b,
{
    reveal_strlit("Random { seed: ");
    reveal_strlit(", count: ");
    reveal_strlit(" }");
    let head = "Random { seed: "@;
    let between = ", count: "@;
    let end = " }"@;
    let a = decimal(seed_a as nat);
    let b = decimal(seed_b as nat);
    let c = decimal(count_a as nat);
    let d = decimal(count_b as nat);
    lemma_decimal(seed_a as nat);
    lemma_decimal(seed_b as nat);
    lemma_decimal(count_a as nat);
    lemma_decimal(count_b as nat);
    let s = head + a + between + c + end;
    let t = head + b + between + d + end;
    assert(s == t);
    let x = between + c + end;
    let y = between + d + end;
    assert(s.skip(head.len() as int) =~= a + x);
    assert(t.skip(head.len() as int) =~= b + y);
    assert(x[0] == ',' && y[0] == ',');
    lemma_digits_up_to_comma(a, x, b, y);
    assert(x.skip(between.len() as int) =~= c + end);
    assert(y.skip(between.len() as int) =~= d + end);
    assert(end[0] == ' ');
    lemma_digits_up_to_comma(c, end, d, end);
    law_decimals_differ(seed_a as nat, seed_b as nat);
    law_decimals_differ(count_a as nat, count_b as nat);
}

/// The second character of an algorithm's name, and its length, where these tell the algorithm.
spec fn name_mark(algorithm: Algorithm) -> (int, char) {
    match algorithm {
        Algorithm::Greedy => (6, 'r'),
        Algorithm::ReverseGreedy => (13, 'e'),
        Algorithm::Length => (6, 'e'),
        Algorithm::AllPermutations => (15, 'l'),
        Algorithm::RecursiveDefault => (16, 'e'),
        Algorithm::Random { seed, count } => (0, 'a'),
        Algorithm::PermutationsWithNonces => (22, 'e'),
        Algorithm::BestOfN => (7, 'e'),
    }
}

proof fn lemma_name_mark(algorithm: Algorithm)
    ensures
        algorithm_text(algorithm).len() > 1,
        algorithm_text(algorithm)[1] == name_mark(algorithm).1,
        !(algorithm is Random) ==> algorithm_text(algorithm).len() == name_mark(algorithm).0,
{
    reveal_strlit("Greedy");
    reveal_strlit("ReverseGreedy");
    reveal_strlit("Length");
    reveal_strlit("AllPermutations");
    reveal_strlit("RecursiveDefault");
    reveal_strlit("PermutationsWithNonces");
    reveal_strlit("BestOfN");
    reveal_strlit("Random { seed: ");
    if let Algorithm::Random { seed, count } = algorithm {
        let head = "Random { seed: "@;
        assert(algorithm_text(algorithm)[1] == head[1]);
    }
}

/// Different algorithms have different names, so that a record about one is never taken for a
/// record about another.
pub proof fn law_algorithm_names_differ(a: Algorithm, b: Algorithm)
    requires
        algorithm_text(a) == algorithm_text(b),
    ensures
        a == b,
{
    lemma_name_mark(a);
    lemma_name_mark(b);
    match (a, b) {
        (
            Algorithm::Random { seed: seed_a, count: count_a },
            Algorithm::Random { seed: seed_b, count: count_b },
        ) => {
            lemma_random_names_differ(seed_a, count_a, seed_b, count_b);
        },
        _ => {},
    }
}

proof fn lemma_hex_char(digit: nat)
    requires
        digit < 16,
    ensures
        hex_value(hex_char(digit)) == Some(digit),
{
}

proof fn lemma_hex_digits(n: nat, width: nat)
    ensures
        hex_digits(n, width).len() == width,
        forall|i: int|
            0 <= i < width ==> hex_value(#[trigger] hex_digits(n, width)[i]) is Some,
    decreases width,
{
    if width > 0 {
        lemma_hex_digits(n / 16, (width - 1) as nat);
        lemma_hex_char(n % 16);
        let earlier = hex_digits(n / 16, (width - 1) as nat);
        assert forall|i: int| 0 <= i < width implies hex_value(
            #[trigger] hex_digits(n, width)[i],
        ) is Some by {
            if i < width - 1 {
                assert(hex_digits(n, width)[i] == earlier[i]);
            }
        }
    }
}

proof fn lemma_two_digits(n: nat, count: nat)
    requires
        count > 0,
    ensures
        hex_digits(n, 2 * count) == hex_digits(n / 256, (2 * count - 2) as nat).push(
            hex_char(n / 16 % 16),
        ).push(hex_char(n % 16)),
{
    reveal_with_fuel(hex_digits, 3);
    assert(n / 16 / 16 == n / 256);
    assert((2 * count - 1) as nat - 1 == 2 * count - 2);
}

proof fn lemma_power_positive(k: nat)
    ensures
        byte_power(k) > 0,
    decreases k,
{
    if k > 0 {
        lemma_power_positive((k - 1) as nat);
    }
}

/// Two hexadecimal digits make up a byte.
proof fn lemma_low_byte(n: nat)
    ensures
        n / 16 % 16 * 16 + n % 16 == n % 256,
        n / 16 / 16 == n / 256,
{
}

/// The lowest bytes of a number are its lowest byte and those before it.
proof fn lemma_lowest_bytes(n: nat, k: nat)
    ensures
        n % byte_power(k + 1) == 256 * ((n / 256) % byte_power(k)) + n % 256,
{
    let p = byte_power(k);
    lemma_power_positive(k);
    assert(byte_power(k + 1) == 256 * p);
    vstd::arithmetic::div_mod::lemma_mod_breakdown(n as int, 256, p as int);
}

/// The bytes of a number's digits make up the number, as far as there are digits.
proof fn lemma_bytes_of_digits(n: nat, count: nat)
    ensures
        big_endian(bytes_of_digits(hex_digits(n, 2 * count))) == n % byte_power(count),
        bytes_of_digits(hex_digits(n, 2 * count)).len() == count,
    decreases count,
{
    let s = hex_digits(n, 2 * count);
    lemma_hex_digits(n, 2 * count);
    let bytes = bytes_of_digits(s);
    if count == 0 {
        assert(bytes =~= Seq::empty());
    } else {
        let k = (count - 1) as nat;
        lemma_bytes_of_digits(n / 256, k);
        lemma_hex_digits(n / 256, 2 * k);
        lemma_two_digits(n, count);
        lemma_hex_char(n / 16 % 16);
        lemma_hex_char(n % 16);
        let t = hex_digits(n / 256, 2 * k);
        assert(bytes.drop_last() =~= bytes_of_digits(t)) by {
            assert forall|i: int| 0 <= i < k implies #[trigger] bytes[i] == bytes_of_digits(
                t,
            )[i] by {
                assert(s[2 * i] == t[2 * i]);
                assert(s[2 * i + 1] == t[2 * i + 1]);
            }
        }
        assert(s[2 * k as int] == hex_char(n / 16 % 16));
        assert(s[2 * k as int + 1] == hex_char(n % 16));
        assert(bytes.last() == bytes[k as int]);
        lemma_low_byte(n);
        assert(bytes.last() == n % 256);
        lemma_lowest_bytes(n, k);
    }
}

proof fn lemma_power_of_word()
    ensures
        byte_power(16) == 0x1_0000_0000_0000_0000_0000_0000_0000_0000nat,
        byte_power(4) == 0x1_0000_0000nat,
{
    reveal_with_fuel(byte_power, 17);
}

/// The bytes of two texts of digits, one after the other.
proof fn lemma_joined_digits(a: Seq<char>, b: Seq<char>)
    requires
        is_hex(a),
        is_hex(b),
    ensures
        is_hex(a + b),
        bytes_of_digits(a + b) == bytes_of_digits(a) + bytes_of_digits(b),
{
    let s = a + b;
    assert(is_hex(s)) by {
        assert forall|i: int| 0 <= i < s.len() implies hex_value(#[trigger] s[i]) is Some by {
            if i < a.len() {
                assert(s[i] == a[i]);
            } else {
                assert(s[i] == b[i - a.len()]);
            }
        }
    }
    let x = bytes_of_digits(a);
    let y = bytes_of_digits(b);
    assert(bytes_of_digits(s).len() == x.len() + y.len());
    assert forall|i: int| 0 <= i < x.len() + y.len() implies #[trigger] bytes_of_digits(s)[i] == (x
        + y)[i] by {
        if i < x.len() {
            assert(s[2 * i] == a[2 * i]);
            assert(s[2 * i + 1] == a[2 * i + 1]);
        } else {
            let j = i - x.len();
            assert(s[2 * i] == b[2 * j]);
            assert(s[2 * i + 1] == b[2 * j + 1]);
        }
    }
    assert(bytes_of_digits(s) =~= x + y);
}

/// A hash that is written is read back.
pub proof fn law_hash_text_is_read_back(hash: B256)
    ensures
        fixed_hex_bytes(hash_text(hash), 32) is Some,
        is_hash_of(hash, fixed_hex_bytes(hash_text(hash), 32)->0),
{
    reveal_strlit("0x");
    let a = hex_digits(hash.high as nat, 32);
    let b = hex_digits(hash.low as nat, 32);
    let s = hash_text(hash);
    lemma_hex_digits(hash.high as nat, 32);
    lemma_hex_digits(hash.low as nat, 32);
    assert(s[0] == '0' && s[1] == 'x');
    assert(without_prefix(s) =~= a + b);
    lemma_joined_digits(a, b);
    lemma_bytes_of_digits(hash.high as nat, 16);
    lemma_bytes_of_digits(hash.low as nat, 16);
    lemma_power_of_word();
    let bytes = bytes_of_digits(a + b);
    assert(bytes.subrange(0, 16) =~= bytes_of_digits(a));
    assert(bytes.subrange(16, 32) =~= bytes_of_digits(b));
}

/// An address that is written is read back.
pub proof fn law_address_text_is_read_back(address: Address)
    ensures
        fixed_hex_bytes(address_text(address), 20) is Some,
        is_address_of(address, fixed_hex_bytes(address_text(address), 20)->0),
{
    reveal_strlit("0x");
    let a = hex_digits(address.high as nat, 8);
    let b = hex_digits(address.low as nat, 32);
    let s = address_text(address);
    lemma_hex_digits(address.high as nat, 8);
    lemma_hex_digits(address.low as nat, 32);
    assert(s[0] == '0' && s[1] == 'x');
    assert(without_prefix(s) =~= a + b);
    lemma_joined_digits(a, b);
    lemma_bytes_of_digits(address.high as nat, 4);
    lemma_bytes_of_digits(address.low as nat, 16);
    lemma_power_of_word();
    let bytes = bytes_of_digits(a + b);
    assert(bytes.subrange(0, 4) =~= bytes_of_digits(a));
    assert(bytes.subrange(4, 20) =~= bytes_of_digits(b));
}

/// A number is written without leading zeros.
pub proof fn law_decimals_have_no_leading_zeros(n: nat)
    ensures
        decimal(n).len() > 1 ==> decimal(n)[0] != '0',
        n > 0 ==> decimal(n)[0] != '0',
    decreases n,
{
    lemma_decimal(n);
    if n >= 10 {
        law_decimals_have_no_leading_zeros(n / 10);
        lemma_decimal(n / 10);
        assert(decimal(n)[0] == decimal(n / 10)[0]);
    }
}

/// The character is a hexadecimal digit in lower case.
pub open spec fn is_lower_hex(c: char) -> bool {
    '0' <= c <= '9' || 'a' <= c <= 'f'
}

proof fn lemma_lower_hex(n: nat, width: nat, i: int)
    requires
        0 <= i < width,
    ensures
        is_lower_hex(hex_digits(n, width)[i]),
    decreases width,
{
    lemma_hex_digits(n / 16, (width - 1) as nat);
    if i < width - 1 {
        lemma_lower_hex(n / 16, (width - 1) as nat, i);
    }
}

/// Hashes and addresses are written with a prefix and all their digits, in lower case.
pub proof fn law_hashes_and_addresses_are_written_in_full(hash: B256, address: Address, i: int)
    ensures
        hash_text(hash).len() == 66,
        hash_text(hash).take(2) == seq!['0', 'x'],
        2 <= i < 66 ==> is_lower_hex(hash_text(hash)[i]),
        address_text(address).len() == 42,
        address_text(address).take(2) == seq!['0', 'x'],
        2 <= i < 42 ==> is_lower_hex(address_text(address)[i]),
{
    reveal_strlit("0x");
    lemma_hex_digits(hash.high as nat, 32);
    lemma_hex_digits(hash.low as nat, 32);
    lemma_hex_digits(address.high as nat, 8);
    lemma_hex_digits(address.low as nat, 32);
    assert(hash_text(hash).take(2) =~= seq!['0', 'x']);
    assert(address_text(address).take(2) =~= seq!['0', 'x']);
    if 2 <= i < 34 {
        lemma_lower_hex(hash.high as nat, 32, i - 2);
    } else if 34 <= i < 66 {
        lemma_lower_hex(hash.low as nat, 32, i - 34);
    }
    if 2 <= i < 10 {
        lemma_lower_hex(address.high as nat, 8, i - 2);
    } else if 10 <= i < 42 {
        lemma_lower_hex(address.low as nat, 32, i - 10);
    }
}

} // verus!
