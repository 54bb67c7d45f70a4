use parallel_builder::hexadecimal::{parse_address, parse_hash};
use parallel_builder::private_mempool::{
    bundle_order, filter_bundles, get_bundles, get_bundles_from_file, millis_of, parse_with_utc,
    path_bundles, range_to_fetch, raw_bundle, utc_text, BlockRef, BundleError, BundleRecord,
    FetchError, PrivateTransactionsDatasource, RawBundle,
};
use parallel_builder::types::{Address, B256};
use std::sync::atomic::{AtomicUsize, Ordering};

const HASH: &str = "0x4905f253e997236afecddb080e38028227b083c4d9921209df7fda192f0ec428";
const NEW_YEAR: i128 = 1_546_300_800_000_000_000;

fn record(inserted_at: i128, block: u64, txs: &str) -> BundleRecord {
    BundleRecord {
        inserted_at,
        bundle_hash: HASH.to_owned(),
        param_block_number: block,
        param_signed_txs: txs.to_owned(),
        param_reverting_tx_hashes: String::new(),
        signing_address: "0x000000000000000000000000000000000000002A".to_owned(),
        replacement_uuid: None,
        param_timestamp: None,
    }
}

/// The first byte of the first transaction.
fn first_byte(raw: RawBundle) -> Option<u8> {
    raw.txs[0].first().copied()
}

#[test]
fn times_of_records_are_in_utc() {
    assert_eq!(utc_text("2019-01-01 00:00:00.5"), "2019-01-01T00:00:00.5Z");
    assert_eq!(parse_with_utc("2019-01-01 00:00:00").unwrap(), NEW_YEAR);
    assert_eq!(
        parse_with_utc("2019-01-01 00:00:00.25").unwrap(),
        NEW_YEAR + 250_000_000
    );
    assert!(parse_with_utc("yesterday").is_err());
}

#[test]
fn records_are_kept_for_the_block_and_sorted_by_time() {
    let kept = filter_bundles(
        vec![
            record(30, 7, "a"),
            record(10, 8, "b"),
            record(10, 7, "c"),
            record(-5, 7, "d"),
            record(10, 7, "e"),
        ],
        7,
    );
    let txs: Vec<&str> = kept.iter().map(|r| r.param_signed_txs.as_str()).collect();
    assert_eq!(txs, vec!["d", "c", "e", "a"]);
}

#[test]
fn bundles_of_all_hours_are_collected_by_time() {
    let read = |path: &str| -> Result<Vec<BundleRecord>, String> {
        match path {
            "bundles/2019-01-01-00.csv.zip" => Ok(vec![
                record(NEW_YEAR + 9, 5, "0x01"),
                record(NEW_YEAR, 6, "0x02"),
            ]),
            "bundles/2019-01-01-01.csv.zip" => Ok(vec![
                record(NEW_YEAR + 3, 5, "0x03"),
                record(NEW_YEAR + 4, 5, "zz"),
                record(NEW_YEAR + 9, 5, "0x04"),
            ]),
            other => Err(other.to_owned()),
        }
    };
    let hour: i128 = 3_600_000_000_000;
    let orders = get_bundles(NEW_YEAR, NEW_YEAR + hour, 0, 5, &read, &first_byte).unwrap();
    let bytes: Vec<u8> = orders.iter().map(|o| o.order).collect();
    assert_eq!(bytes, vec![3, 1, 4]);
    assert!(orders
        .windows(2)
        .all(|pair| pair[0].timestamp_ms <= pair[1].timestamp_ms));

    match get_bundles(NEW_YEAR, NEW_YEAR + 2 * hour, 0, 5, &read, &first_byte) {
        Err(FetchError::Read(path)) => assert_eq!(path, "bundles/2019-01-01-02.csv.zip"),
        _ => panic!("the last hour has no file"),
    }
    match get_bundles(NEW_YEAR, NEW_YEAR + hour - 1, 0, 9, &read, &first_byte) {
        Err(FetchError::NoBundles { block }) => assert_eq!(block, 9),
        _ => panic!("there is no bundle for the block"),
    }
    assert!(matches!(
        get_bundles(NEW_YEAR, NEW_YEAR - 1, 0, 5, &read, &first_byte),
        Err(FetchError::NoBundles { .. })
    ));
    assert!(matches!(
        get_bundles(i128::MAX / 2, i128::MAX / 2, 0, 5, &read, &first_byte),
        Err(FetchError::HourOutOfRange)
    ));
    let shifted = get_bundles(NEW_YEAR, NEW_YEAR + 10, 3600, 5, &read, &first_byte).unwrap();
    assert_eq!(shifted.len(), 2);
}

#[test]
fn every_hour_that_the_range_touches_is_read() {
    // 2023-09-04 23:58:00 to 2023-09-05 00:01:05
    let from: i128 = 1_693_871_880_000_000_000;
    let to: i128 = 1_693_872_065_000_000_000;
    let first = from + 60_000_000_000;
    let second = from + 150_000_000_000;
    let read = |path: &str| -> Result<Vec<BundleRecord>, String> {
        match path {
            "bundles/2023-09-04-23.csv.zip" => Ok(vec![record(first, 5, "0x01")]),
            "bundles/2023-09-05-00.csv.zip" => Ok(vec![record(second, 5, "0x02")]),
            other => Err(other.to_owned()),
        }
    };
    let times = |from: i128, to: i128| -> Vec<i128> {
        get_bundles_from_file(from, to, 0, 5, &read)
            .unwrap()
            .iter()
            .map(|r| r.inserted_at)
            .collect()
    };
    assert_eq!(times(from, to), vec![first, second]);
    assert_eq!(times(from, first), vec![first]);
    assert_eq!(times(second, second), vec![second]);

    let before_1970 = |path: &str| -> Result<Vec<BundleRecord>, String> {
        Ok(vec![record(0, 5, path)])
    };
    let paths: Vec<String> = get_bundles_from_file(-1, 0, 0, 5, &before_1970)
        .unwrap()
        .into_iter()
        .map(|r| r.param_signed_txs)
        .collect();
    assert_eq!(
        paths,
        vec![
            "bundles/1969-12-31-23.csv.zip",
            "bundles/1970-01-01-00.csv.zip"
        ]
    );
}

#[test]
fn orders_from_outside_the_interval_are_left_out() {
    let read = |_: &str| -> Result<Vec<BundleRecord>, String> {
        Ok(vec![
            record(NEW_YEAR + 1, 5, "0x01"),
            record(NEW_YEAR + 2, 5, "0x02"),
            record(NEW_YEAR + 5, 5, "0x03"),
            record(NEW_YEAR + 6, 5, "0x04"),
        ])
    };
    let bytes = |from: i128, to: i128| -> Vec<u8> {
        get_bundles(from, to, 0, 5, &read, &first_byte)
            .unwrap()
            .iter()
            .map(|o| o.order)
            .collect()
    };
    assert_eq!(bytes(NEW_YEAR + 2, NEW_YEAR + 5), vec![2, 3]);
    assert_eq!(bytes(NEW_YEAR, NEW_YEAR + 9), vec![1, 2, 3, 4]);
    assert!(bytes(NEW_YEAR + 3, NEW_YEAR + 4).is_empty());
}

#[test]
fn a_source_looks_around_the_time_of_the_block() {
    let asked = AtomicUsize::new(0);
    let read = |path: &str| -> Result<Vec<BundleRecord>, String> {
        asked.fetch_add(1, Ordering::Relaxed);
        match path {
            "bundles/2018-12-31-23.csv.zip" => Ok(vec![
                record(NEW_YEAR - 181_000_000_000, 5, "0x05"),
                record(NEW_YEAR - 180_000_000_000, 5, "0x06"),
            ]),
            "bundles/2019-01-01-00.csv.zip" => Ok(vec![
                record(NEW_YEAR, 5, "0x07,,0x08"),
                record(NEW_YEAR + 6_000_000_000, 5, "0x09"),
            ]),
            other => Err(other.to_owned()),
        }
    };
    let source = PrivateTransactionsDatasource::new("data".to_owned());
    assert_eq!(source.clone().path(), "data");
    let block = BlockRef {
        block_number: 5,
        block_timestamp: 1_546_300_800,
        landed_block_hash: None,
    };
    let orders = source
        .get_data(block, &read, &|raw: RawBundle| Some(raw.txs.len()))
        .unwrap();
    assert_eq!(orders.len(), 2);
    assert_eq!(orders[0].order, 1);
    assert_eq!(orders[0].timestamp_ms, 1_546_300_620_000);
    assert_eq!(orders[1].order, 2);
    assert_eq!(orders[1].timestamp_ms, 1_546_300_800_000);
    assert_eq!(asked.load(Ordering::Relaxed), 2);

    let nowhere = BlockRef {
        block_timestamp: 253_402_300_800,
        ..block
    };
    assert!(matches!(
        source.get_data(nowhere, &read, &first_byte),
        Err(FetchError::BlockTimeOutOfRange)
    ));
}

#[test]
fn the_range_to_fetch_is_three_minutes_back_and_five_seconds_ahead() {
    assert_eq!(
        range_to_fetch(1_546_300_800),
        Some((NEW_YEAR - 180_000_000_000, NEW_YEAR + 5_000_000_000))
    );
    assert_eq!(range_to_fetch(u64::MAX), Some((-181_000_000_000, 4_000_000_000)));
    assert!(range_to_fetch(253_402_300_799).is_some());
    assert_eq!(range_to_fetch(253_402_300_800), None);
    assert_eq!(range_to_fetch(1 << 63), None);
}

#[test]
fn the_parts_of_a_record_are_read() {
    let mut full = record(NEW_YEAR, 5, "0x0aFF,,00");
    full.param_reverting_tx_hashes = format!("{HASH},");
    full.replacement_uuid = Some(77);
    full.param_timestamp = Some(-4);
    let raw = raw_bundle(&full, 9).unwrap();
    assert_eq!(raw.block_number, 9);
    assert_eq!(raw.txs, vec![vec![0x0a, 0xff], vec![0]]);
    assert_eq!(raw.reverting_tx_hashes, vec![parse_hash(HASH).unwrap()]);
    assert!(raw.dropping_tx_hashes.is_empty());
    assert_eq!(raw.replacement_uuid, Some(77));
    assert_eq!(raw.uuid, Some(77));
    assert_eq!(raw.replacement_nonce, Some(0));
    assert_eq!(raw.signing_address, Some(Address { high: 0, low: 42 }));
    assert_eq!(raw.min_timestamp, Some(0));
    assert_eq!(raw.max_timestamp, None);
    assert_eq!(
        raw.bundle_hash,
        Some(B256 {
            high: 0x4905f253e997236afecddb080e380282,
            low: 0x27b083c4d9921209df7fda192f0ec428,
        })
    );
    assert!(!raw.disable_cross_region_sharing);

    let mut plain = record(NEW_YEAR, 5, "00");
    plain.bundle_hash = "none".to_owned();
    plain.param_timestamp = Some(12);
    let raw = raw_bundle(&plain, 5).unwrap();
    assert_eq!(raw.replacement_nonce, None);
    assert_eq!(raw.min_timestamp, Some(12));
    assert_eq!(raw.bundle_hash, None);
}

#[test]
fn a_record_is_refused_for_the_first_thing_that_is_wrong() {
    let refused = |record: BundleRecord| bundle_order(&record, 5, &first_byte).unwrap_err();
    assert_eq!(
        refused(record(NEW_YEAR, 5, "0x1")),
        BundleError::BadTransactions
    );
    let mut bad = record(NEW_YEAR, 5, "");
    bad.param_reverting_tx_hashes = "0x00".to_owned();
    assert_eq!(refused(bad), BundleError::BadRevertingHashes);
    assert_eq!(refused(record(NEW_YEAR, 5, ",")), BundleError::NoTransactions);
    let mut bad = record(NEW_YEAR, 5, "00");
    bad.signing_address = HASH.to_owned();
    assert_eq!(refused(bad), BundleError::BadSigningAddress);
    assert_eq!(refused(record(-1_000_000, 5, "0x")), BundleError::Undecodable);
    assert_eq!(refused(record(-1_000_000, 5, "00")), BundleError::BadTimestamp);
    assert_eq!(
        bundle_order(&record(-999_999, 5, "00"), 5, &first_byte)
            .unwrap()
            .timestamp_ms,
        0
    );
}

#[test]
fn milliseconds_are_cut_off() {
    assert_eq!(millis_of(1_999_999), Some(1));
    assert_eq!(millis_of(-1), Some(0));
    assert_eq!(millis_of(-1_000_000), None);
    assert_eq!(millis_of(u64::MAX as i128 * 1_000_000), Some(u64::MAX));
    assert_eq!(millis_of((u64::MAX as i128 + 1) * 1_000_000), None);
}

#[test]
fn hexadecimal_text_is_read_with_or_without_a_prefix() {
    let address = Address {
        high: 0xdeadbeef,
        low: 0x00112233445566778899aabbccddeeff,
    };
    for text in [
        "0xdeadbeef00112233445566778899aabbccddeeff",
        "0XDEADBEEF00112233445566778899AABBCCDDEEFF",
        "deadBEEF00112233445566778899aabbccddeeff",
    ] {
        assert_eq!(parse_address(text), Some(address));
    }
    for text in ["", "0x", "0xdeadbeef", HASH, "0xzeadbeef00112233445566778899aabbccddeeff"] {
        assert_eq!(parse_address(text), None);
    }
    assert_eq!(path_bundles("2023-09-04-23"), "bundles/2023-09-04-23.csv.zip");
}
