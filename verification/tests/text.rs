use parallel_builder::default_tasks::algorithm_name;
use parallel_builder::hexadecimal::{address_chars, hash_chars, parse_address, parse_hash};
use parallel_builder::text::{decimal_chars, parse_usize};
use parallel_builder::types::{Address, Algorithm, B256};

fn as_text(chars: &[char]) -> String {
    chars.iter().collect()
}

#[test]
fn what_is_written_in_decimal_is_read_back() {
    for n in [0usize, 7, 10, 90, 1000000, 18446744073709551615] {
        let written = decimal_chars(n as u128);
        assert_eq!(as_text(&written), n.to_string());
        assert_eq!(parse_usize(&written), Some(n));
    }
    assert_ne!(decimal_chars(12), decimal_chars(21));
}

#[test]
fn hashes_and_addresses_are_read_back() {
    let hash = B256 {
        high: 0x4905f253e997236afecddb080e380282,
        low: 0x27b083c4d9921209df7fda192f0ec428,
    };
    let written = as_text(&hash_chars(hash));
    assert_eq!(
        written,
        "0x4905f253e997236afecddb080e38028227b083c4d9921209df7fda192f0ec428"
    );
    assert_eq!(parse_hash(&written), Some(hash));
    let address = Address {
        high: 0x00c0ffee,
        low: 1,
    };
    let written = as_text(&address_chars(address));
    assert_eq!(parse_address(&written), Some(address));
    assert_eq!(parse_hash(&written), None);
}

#[test]
fn no_two_algorithms_have_the_same_name() {
    let algorithms = [
        Algorithm::Greedy,
        Algorithm::ReverseGreedy,
        Algorithm::Length,
        Algorithm::AllPermutations,
        Algorithm::RecursiveDefault,
        Algorithm::Random { seed: 1, count: 11 },
        Algorithm::Random { seed: 11, count: 1 },
        Algorithm::PermutationsWithNonces,
        Algorithm::BestOfN,
    ];
    for (i, left) in algorithms.iter().enumerate() {
        for right in &algorithms[i + 1..] {
            assert_ne!(algorithm_name(*left), algorithm_name(*right));
        }
    }
}
