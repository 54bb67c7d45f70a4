//! Bundles that were sent privately: reading their records and turning them into orders.
//!
//! Moments are counted in nanoseconds since the beginning of 1970.
use time::format_description::well_known::Rfc3339;
use time::{OffsetDateTime, UtcOffset};
use vstd::prelude::*;

use crate::hexadecimal::{
    fixed_hex_bytes, hex_bytes, is_address_of, is_hash_of, parse_address, parse_bytes,
    parse_hash,
};
use crate::sorting::{is_stably_sorted, ranks, sort_stably};
use crate::text::{append_text, chars_of, split, split_chars, text_of, texts};
use crate::types::{Address, B256};

verus! {

#[verifier::external_type_specification]
#[verifier::external_body]
pub struct ExParseError(time::error::Parse);

/// The moment that a text in the format of RFC 3339 stands for.
pub uninterp spec fn rfc3339_moment(text: Seq<char>) -> Option<i128>;

/// The moment that was read, if any.
pub open spec fn moment_read(r: Result<i128, time::error::Parse>) -> Option<i128> {
    match r {
        Ok(moment) => Some(moment),
        Err(_) => None,
    }
}

/// `OffsetDateTime::parse` of `time`, with the format of RFC 3339: the moment that the text stands
/// for, by its name.
#[verifier::external_body]
fn parse_rfc3339(text: &str) -> (r: Result<i128, time::error::Parse>)
    ensures
        moment_read(r) == rfc3339_moment(text@),
{
    match OffsetDateTime::parse(text, &Rfc3339) {
        Ok(moment) => Ok(moment.unix_timestamp_nanos()),
        Err(error) => Err(error),
    }
}

/// The text of a moment, at a distance from Greenwich in seconds, in the given pattern.
pub uninterp spec fn moment_text(moment: i128, offset_seconds: i32, pattern: Seq<char>) -> Option<
    Seq<char>,
>;

/// What a text holds, where there is one.
pub open spec fn text_in(text: Option<String>) -> Option<Seq<char>> {
    match text {
        Some(text) => Some(text@),
        None => None,
    }
}

/// `OffsetDateTime::format` of `time`: the text of the moment, by its name. There is none where
/// the moment or the distance is out of range, or the pattern cannot be read.
#[verifier::external_body]
fn format_moment(moment: i128, offset_seconds: i32, pattern: &str) -> (r: Option<String>)
    ensures
        text_in(r) == moment_text(moment, offset_seconds, pattern@),
{
    let items = time::format_description::parse(pattern).ok()?;
    let offset = UtcOffset::from_whole_seconds(offset_seconds).ok()?;
    let moment = OffsetDateTime::from_unix_timestamp_nanos(moment).ok()?;
    moment.checked_to_offset(offset)?.format(&items).ok()
}

/// The first and the last second that have a date: the years run from -9999 to 9999.
pub open spec fn has_date(seconds: int) -> bool {
    -377705116800 <= seconds <= 253402300799
}

/// `OffsetDateTime::from_unix_timestamp` of `time`: the moment that is so many seconds after the
/// beginning of 1970, where it has a date.
#[verifier::external_body]
fn moment_of_second(seconds: i64) -> (r: Option<i128>)
    ensures
        r == if has_date(seconds as int) {
            Some((seconds * 1_000_000_000) as i128)
        } else {
            None
        },
{
    match OffsetDateTime::from_unix_timestamp(seconds) {
        Ok(moment) => Some(moment.unix_timestamp_nanos()),
        Err(_) => None,
    }
}

/// The time of a record as RFC 3339 has it: a `T` for each space, and a `Z` at the end.
pub open spec fn with_utc(s: Seq<char>) -> Seq<char> {
    Seq::new(
        s.len(),
        |i: int|
            if s[i] == ' ' {
                'T'
            } else {
                s[i]
            },
    ).push('Z')
}

/// Writes [`with_utc`].
pub fn utc_text(s: &str) -> (r: String)
    ensures
        r@ == with_utc(s@),
{
    let chars = chars_of(s);
    let mut out: Vec<char> = Vec::new();
    for i in 0..chars.len()
        invariant
            chars@ == s@,
            out@.len() == i,
            forall|j: int|
                0 <= j < i ==> #[trigger] out@[j] == if s@[j] == ' ' {
                    'T'
                } else {
                    s@[j]
                },
    {
        let c = if chars[i] == ' ' {
            'T'
        } else {
            chars[i]
        };
        out.push(c);
    }
    out.push('Z');
    assert(out@ =~= with_utc(s@));
    text_of(&out)
}

/// Reads the time of a record.
pub fn parse_with_utc(s: &str) -> (r: Result<i128, time::error::Parse>)
    ensures
        moment_read(r) == rfc3339_moment(with_utc(s@)),
{
    let text = utc_text(s);
    parse_rfc3339(text.as_str())
}

/// A bundle as it was recorded.
#[derive(Debug)]
pub struct BundleRecord {
    /// The moment at which it came in.
    pub inserted_at: i128,
    pub bundle_hash: String,
    pub param_block_number: u64,
    /// The transactions in hexadecimal, parted by commas.
    pub param_signed_txs: String,
    /// The hashes of the transactions that may revert, parted by commas.
    pub param_reverting_tx_hashes: String,
    pub signing_address: String,
    pub replacement_uuid: Option<u128>,
    pub param_timestamp: Option<i64>,
}

/// Why no bundles were found.
#[derive(Debug)]
pub enum FetchError<E> {
    /// The block's time has no date.
    BlockTimeOutOfRange,
    /// The hour to read has no date.
    HourOutOfRange,
    /// The records of an hour could not be read.
    Read(E),
    /// There is no bundle for the block.
    NoBundles { block: u64 },
}

/// The file with the bundles of an hour.
pub open spec fn bundle_path(hour: Seq<char>) -> Seq<char> {
    "bundles/"@ + hour + ".csv.zip"@
}

/// Writes [`bundle_path`].
pub fn path_bundles(hour: &str) -> (r: String)
    ensures
        r@ == bundle_path(hour@),
{
    let mut out = chars_of("bundles/");
    append_text(&mut out, hour);
    append_text(&mut out, ".csv.zip");
    text_of(&out)
}

/// When the records came in.
pub open spec fn insertion_times(records: Seq<BundleRecord>) -> Seq<int> {
    Seq::new(records.len(), |i: int| records[i].inserted_at as int)
}

/// The records for a block.
pub open spec fn for_block(records: Seq<BundleRecord>, block: u64) -> Seq<BundleRecord> {
    records.filter(|record: BundleRecord| record.param_block_number == block)
}

/// `sorted` holds the records by the time at which they came in, and those that came in at the
/// same time as they stood.
pub open spec fn is_sorted_by_time(sorted: Seq<BundleRecord>, records: Seq<BundleRecord>) -> bool {
    is_stably_sorted(sorted, records, insertion_times(records))
}

fn sort_by_time(records: Vec<BundleRecord>) -> (r: Vec<BundleRecord>)
    ensures
        is_sorted_by_time(r@, records@),
{
    let mut times: Vec<i128> = Vec::new();
    for i in 0..records.len()
        invariant
            times@.len() == i,
            forall|j: int| 0 <= j < i ==> #[trigger] times@[j] == records@[j].inserted_at,
    {
        times.push(records[i].inserted_at);
    }
    assert(ranks(times@) =~= insertion_times(records@));
    sort_stably(records, times)
}

/// Keeps the records for a block, by the time at which they came in.
pub fn filter_bundles(records: Vec<BundleRecord>, block: u64) -> (r: Vec<BundleRecord>)
    ensures
        is_sorted_by_time(r@, for_block(records@, block)),
{
    let ghost all = records@;
    let ghost keep = |record: BundleRecord| record.param_block_number == block;
    let mut kept: Vec<BundleRecord> = Vec::new();
    assert(all.take(0).filter(keep) =~= Seq::empty()) by {
        reveal(Seq::filter);
    }
    for record in it: records
        invariant
            it.seq() == all,
            keep == (|record: BundleRecord| record.param_block_number == block),
            kept@ == all.take(it.index() as int).filter(keep),
    {
        proof {
            let i = it.index() as int;
            assert(all.take(i + 1).drop_last() =~= all.take(i));
            assert(all.take(i + 1).last() == record);
            reveal(Seq::filter);
        }
        if record.param_block_number == block {
            kept.push(record);
        }
    }
    assert(all.take(all.len() as int) =~= all);
    sort_by_time(kept)
}

/// An hour in nanoseconds.
pub const HOUR_NANOS: i128 = 3_600_000_000_000;

/// A second in nanoseconds.
pub const SECOND_NANOS: i128 = 1_000_000_000;

/// The hour on the clock in which a moment lies, at a distance from Greenwich in seconds, counted
/// from the beginning of 1970.
pub open spec fn clock_hour(moment: int, offset_seconds: i32) -> int {
    (moment + offset_seconds * SECOND_NANOS) / HOUR_NANOS as int
}

/// A moment in each hour on the clock that the time from `from` to `to` touches, from that of
/// `from` up to that of `to`.
pub open spec fn hours_between(from: i128, to: i128, offset_seconds: i32) -> Seq<i128> {
    if from > to {
        Seq::empty()
    } else {
        Seq::new(
            (clock_hour(to as int, offset_seconds) - clock_hour(from as int, offset_seconds)
                + 1) as nat,
            |k: int| (from + k * HOUR_NANOS) as i128,
        )
    }
}

/// The hours between the moments can be counted, and the hour after them has a number.
pub open spec fn can_count_hours(from: i128, to: i128, offset_seconds: i32) -> bool {
    &&& i128::MIN <= from + offset_seconds * SECOND_NANOS
    &&& to + offset_seconds * SECOND_NANOS <= i128::MAX
    &&& to + 2 * HOUR_NANOS <= i128::MAX
}

/// Computes [`clock_hour`].
fn hour_on_clock(moment: i128, offset_seconds: i32) -> (r: i128)
    requires
        i128::MIN <= moment + offset_seconds * SECOND_NANOS <= i128::MAX,
    ensures
        r == clock_hour(moment as int, offset_seconds),
{
    let local: i128 = moment + offset_seconds as i128 * SECOND_NANOS;
    if local >= 0 {
        (local as u128 / HOUR_NANOS as u128) as i128
    } else {
        let short: u128 = (-(local + 1)) as u128;
        let hours: u128 = short / HOUR_NANOS as u128;
        -(hours as i128) - 1
    }
}

/// How the name of an hour is written.
pub open spec fn hour_pattern() -> Seq<char> {
    "[year]-[month]-[day]-[hour]"@
}

/// `part` are the bundles for the block in the file of the hour.
pub open spec fn is_hour_read<E, R: Fn(&str) -> Result<Vec<BundleRecord>, E>>(
    read: R,
    moment: i128,
    offset_seconds: i32,
    block: u64,
    part: Seq<BundleRecord>,
) -> bool {
    exists|path: &str, records: Vec<BundleRecord>|
        {
            &&& moment_text(moment, offset_seconds, hour_pattern()) is Some
            &&& path@ == bundle_path(moment_text(moment, offset_seconds, hour_pattern())->0)
            &&& #[trigger] call_ensures(read, (path,), Ok(records))
            &&& is_sorted_by_time(part, for_block(records@, block))
        }
}

/// Reading the file of the hour failed.
pub open spec fn hour_fails<E, R: Fn(&str) -> Result<Vec<BundleRecord>, E>>(
    read: R,
    moment: i128,
    offset_seconds: i32,
    error: E,
) -> bool {
    exists|path: &str|
        {
            &&& moment_text(moment, offset_seconds, hour_pattern()) is Some
            &&& path@ == bundle_path(moment_text(moment, offset_seconds, hour_pattern())->0)
            &&& #[trigger] call_ensures(read, (path,), Err(error))
        }
}

/// The parts, one after another.
pub open spec fn concatenated(parts: Seq<Seq<BundleRecord>>) -> Seq<BundleRecord>
    decreases parts.len(),
{
    if parts.len() == 0 {
        Seq::empty()
    } else {
        concatenated(parts.drop_last()) + parts.last()
    }
}

/// `parts` are the bundles for the block of the first hours.
pub open spec fn are_hours_read<E, R: Fn(&str) -> Result<Vec<BundleRecord>, E>>(
    read: R,
    hours: Seq<i128>,
    offset_seconds: i32,
    block: u64,
    parts: Seq<Seq<BundleRecord>>,
) -> bool {
    &&& parts.len() <= hours.len()
    &&& forall|k: int|
        0 <= k < parts.len() ==> is_hour_read(
            read,
            hours[k],
            offset_seconds,
            block,
            #[trigger] parts[k],
        )
}

/// The bundles for the block that the files of the hours hold, by the time at which they came in;
/// or why there are none: the first hour that has no name or cannot be read, or that no file holds
/// any.
pub open spec fn is_collected<E, R: Fn(&str) -> Result<Vec<BundleRecord>, E>>(
    read: R,
    hours: Seq<i128>,
    offset_seconds: i32,
    block: u64,
    r: Result<Vec<BundleRecord>, FetchError<E>>,
) -> bool {
    exists|parts: Seq<Seq<BundleRecord>>|
        {
            let all = concatenated(parts);
            &&& #[trigger] are_hours_read(read, hours, offset_seconds, block, parts)
            &&& match r {
                Ok(bundles) => parts.len() == hours.len() && all.len() > 0 && is_sorted_by_time(
                    bundles@,
                    all,
                ),
                Err(FetchError::NoBundles { block: of }) => parts.len() == hours.len() && all.len()
                    == 0 && of == block,
                Err(FetchError::HourOutOfRange) => parts.len() < hours.len() && moment_text(
                    hours[parts.len() as int],
                    offset_seconds,
                    hour_pattern(),
                ) is None,
                Err(FetchError::Read(error)) => parts.len() < hours.len() && hour_fails(
                    read,
                    hours[parts.len() as int],
                    offset_seconds,
                    error,
                ),
                Err(FetchError::BlockTimeOutOfRange) => false,
            }
        }
}

/// A moment so many hours later lies so many hours later on the clock.
pub proof fn lemma_later_hour(moment: int, offset_seconds: i32, k: int)
    ensures
        clock_hour(moment + k * HOUR_NANOS, offset_seconds) == clock_hour(moment, offset_seconds)
            + k,
{
    let local = moment + offset_seconds * SECOND_NANOS;
    let h = HOUR_NANOS as int;
    assert((local + k * h) / h == local / h + k) by (nonlinear_arith)
        requires
            h > 0,
    ;
}

/// A moment in an hour no later than that of `to` is less than an hour after `to`.
pub proof fn lemma_same_hour(moment: int, to: int, offset_seconds: i32)
    requires
        clock_hour(moment, offset_seconds) <= clock_hour(to, offset_seconds),
    ensures
        moment < to + HOUR_NANOS,
{
    let shift = offset_seconds * SECOND_NANOS;
    let h = HOUR_NANOS as int;
    assert(moment + shift < to + shift + h) by (nonlinear_arith)
        requires
            h > 0,
            (moment + shift) / h <= (to + shift) / h,
    ;
}

/// An earlier moment lies in no later hour.
pub proof fn lemma_hours_in_order(from: int, to: int, offset_seconds: i32)
    requires
        from <= to,
    ensures
        clock_hour(from, offset_seconds) <= clock_hour(to, offset_seconds),
{
    let shift = offset_seconds * SECOND_NANOS;
    let h = HOUR_NANOS as int;
    assert((from + shift) / h <= (to + shift) / h) by (nonlinear_arith)
        requires
            h > 0,
            from <= to,
    ;
}

/// Collects the bundles for a block from the files of all hours that the time from `from` to `to`
/// touches.
pub fn get_bundles_from_file<E, R: Fn(&str) -> Result<Vec<BundleRecord>, E>>(
    from: i128,
    to: i128,
    offset_seconds: i32,
    block: u64,
    read: &R,
) -> (r: Result<Vec<BundleRecord>, FetchError<E>>)
    requires
        can_count_hours(from, to, offset_seconds),
        forall|path: &str| #[trigger] call_requires(*read, (path,)),
    ensures
        is_collected(*read, hours_between(from, to, offset_seconds), offset_seconds, block, r),
{
    let ghost hours = hours_between(from, to, offset_seconds);
    let ghost mut parts: Seq<Seq<BundleRecord>> = Seq::empty();
    if from > to {
        assert(are_hours_read(*read, hours, offset_seconds, block, parts));
        return Err(FetchError::NoBundles { block });
    }
    let mut bundles: Vec<BundleRecord> = Vec::new();
    let mut current: i128 = from;
    let mut number: i128 = hour_on_clock(from, offset_seconds);
    let last: i128 = hour_on_clock(to, offset_seconds);
    proof {
        lemma_hours_in_order(from as int, to as int, offset_seconds);
    }
    while number <= last
        invariant
            can_count_hours(from, to, offset_seconds),
            from <= to,
            forall|path: &str| #[trigger] call_requires(*read, (path,)),
            hours == hours_between(from, to, offset_seconds),
            last == clock_hour(to as int, offset_seconds),
            number == clock_hour(from as int, offset_seconds) + parts.len(),
            number <= last + 1,
            current == from + parts.len() * HOUR_NANOS,
            are_hours_read(*read, hours, offset_seconds, block, parts),
            bundles@ == concatenated(parts),
        decreases last + 1 - number,
    {
        let ghost k = parts.len() as int;
        assert(hours[k] == current);
        proof {
            lemma_later_hour(from as int, offset_seconds, k);
            lemma_same_hour(current as int, to as int, offset_seconds);
            assert(last < i128::MAX);
        }
        let hour = match format_moment(current, offset_seconds, "[year]-[month]-[day]-[hour]") {
            Some(hour) => hour,
            None => {
                return Err(FetchError::HourOutOfRange);
            },
        };
        let path = path_bundles(hour.as_str());
        match read(path.as_str()) {
            Ok(records) => {
                let part = filter_bundles(records, block);
                proof {
                    let more = parts.push(part@);
                    assert(is_hour_read(*read, hours[k], offset_seconds, block, part@));
                    assert(are_hours_read(*read, hours, offset_seconds, block, more)) by {
                        assert forall|j: int| 0 <= j < more.len() implies is_hour_read(
                            *read,
                            hours[j],
                            offset_seconds,
                            block,
                            #[trigger] more[j],
                        ) by {
                            if j < k {
                                assert(more[j] == parts[j]);
                            }
                        }
                    }
                    assert(more.drop_last() =~= parts);
                    assert((k + 1) * HOUR_NANOS == k * HOUR_NANOS + HOUR_NANOS)
                        by (nonlinear_arith);
                    parts = more;
                }
                let mut tail = part;
                bundles.append(&mut tail);
            },
            Err(error) => {
                return Err(FetchError::Read(error));
            },
        }
        current = current + HOUR_NANOS;
        number = number + 1;
    }
    if bundles.len() == 0 {
        return Err(FetchError::NoBundles { block });
    }
    Ok(sort_by_time(bundles))
}

/// The records that came in between the two moments, both included, as they stand.
pub open spec fn in_interval(records: Seq<BundleRecord>, from: i128, to: i128) -> Seq<
    BundleRecord,
> {
    records.filter(|record: BundleRecord| from <= record.inserted_at <= to)
}

/// Keeps the records of [`in_interval`].
pub fn keep_interval(records: Vec<BundleRecord>, from: i128, to: i128) -> (r: Vec<BundleRecord>)
    ensures
        r@ == in_interval(records@, from, to),
{
    let ghost all = records@;
    let ghost keep = |record: BundleRecord| from <= record.inserted_at <= to;
    let mut kept: Vec<BundleRecord> = Vec::new();
    assert(all.take(0).filter(keep) =~= Seq::empty()) by {
        reveal(Seq::filter);
    }
    for record in it: records
        invariant
            it.seq() == all,
            keep == (|record: BundleRecord| from <= record.inserted_at <= to),
            kept@ == all.take(it.index() as int).filter(keep),
    {
        proof {
            let i = it.index() as int;
            assert(all.take(i + 1).drop_last() =~= all.take(i));
            assert(all.take(i + 1).last() == record);
            reveal(Seq::filter);
        }
        if from <= record.inserted_at && record.inserted_at <= to {
            kept.push(record);
        }
    }
    assert(all.take(all.len() as int) =~= all);
    kept
}

/// A bundle whose parts have been read.
#[derive(Debug)]
pub struct RawBundle {
    pub block_number: u64,
    pub txs: Vec<Vec<u8>>,
    pub reverting_tx_hashes: Vec<B256>,
    pub dropping_tx_hashes: Vec<B256>,
    pub replacement_uuid: Option<u128>,
    pub uuid: Option<u128>,
    pub signing_address: Option<Address>,
    pub min_timestamp: Option<u64>,
    pub max_timestamp: Option<u64>,
    pub replacement_nonce: Option<u64>,
    pub bundle_hash: Option<B256>,
    pub disable_cross_region_sharing: bool,
}

/// Why a record gives no order.
#[derive(Debug, Clone, Copy, PartialEq, Eq, Structural)]
pub enum BundleError {
    BadTransactions,
    BadRevertingHashes,
    NoTransactions,
    BadSigningAddress,
    /// The transactions cannot be decoded.
    Undecodable,
    /// The record has no time after the beginning of 1970 that can be counted in milliseconds.
    BadTimestamp,
}

/// The bytes that a piece of a list stands for; `count` says how many there must be, where that is
/// fixed.
pub open spec fn piece_bytes(piece: Seq<char>, count: Option<nat>) -> Option<Seq<u8>> {
    match count {
        Some(n) => fixed_hex_bytes(piece, n),
        None => hex_bytes(piece),
    }
}

/// The bytes that the first `k` pieces of a list stand for, where all of them stand for some.
/// Empty pieces are passed over.
pub open spec fn pieces_bytes(pieces: Seq<Seq<char>>, count: Option<nat>, k: int) -> Option<
    Seq<Seq<u8>>,
>
    decreases k,
{
    if k <= 0 {
        Some(Seq::empty())
    } else {
        match pieces_bytes(pieces, count, k - 1) {
            None => None,
            Some(earlier) => if pieces[k - 1].len() == 0 {
                Some(earlier)
            } else {
                match piece_bytes(pieces[k - 1], count) {
                    Some(bytes) => Some(earlier.push(bytes)),
                    None => None,
                }
            },
        }
    }
}

/// The bytes that the pieces of a list stand for.
pub open spec fn list_bytes(list: Seq<char>, count: Option<nat>) -> Option<Seq<Seq<u8>>> {
    let pieces = split(list, ',');
    pieces_bytes(pieces, count, pieces.len() as int)
}

proof fn lemma_unreadable_piece(
    pieces: Seq<Seq<char>>,
    count: Option<nat>,
    k: int,
    end: int,
)
    requires
        0 <= k <= end,
        pieces_bytes(pieces, count, k) is None,
    ensures
        pieces_bytes(pieces, count, end) is None,
    decreases end,
{
    if k < end {
        lemma_unreadable_piece(pieces, count, k, end - 1);
    }
}

/// The contents of a vector of bytes.
pub open spec fn byte_rows(rows: Seq<Vec<u8>>) -> Seq<Seq<u8>> {
    Seq::new(rows.len(), |i: int| rows[i]@)
}

fn parse_transactions(list: &str) -> (r: Option<Vec<Vec<u8>>>)
    ensures
        match r {
            Some(txs) => list_bytes(list@, None) == Some(byte_rows(txs@)),
            None => list_bytes(list@, None) is None,
        },
{
    let pieces = split_chars(&chars_of(list), ',');
    let ghost rows = split(list@, ',');
    let mut txs: Vec<Vec<u8>> = Vec::new();
    assert(byte_rows(txs@) =~= Seq::empty());
    for k in 0..pieces.len()
        invariant
            texts(pieces@) == rows,
            rows == split(list@, ','),
            pieces_bytes(rows, None, k as int) == Some(byte_rows(txs@)),
    {
        assert(rows[k as int] == pieces@[k as int]@);
        if pieces[k].len() > 0 {
            let piece = text_of(&pieces[k]);
            match parse_bytes(piece.as_str()) {
                Some(bytes) => {
                    let ghost before = byte_rows(txs@);
                    let ghost last = bytes@;
                    txs.push(bytes);
                    assert(byte_rows(txs@) =~= before.push(last));
                },
                None => {
                    proof {
                        lemma_unreadable_piece(rows, None, k + 1, rows.len() as int);
                    }
                    return None;
                },
            }
        }
    }
    Some(txs)
}

/// The hashes whose bytes these are.
pub open spec fn are_hashes_of(hashes: Seq<B256>, rows: Seq<Seq<u8>>) -> bool {
    &&& hashes.len() == rows.len()
    &&& forall|i: int| 0 <= i < hashes.len() ==> is_hash_of(#[trigger] hashes[i], rows[i])
}

fn parse_hashes(list: &str) -> (r: Option<Vec<B256>>)
    ensures
        match r {
            Some(hashes) => match list_bytes(list@, Some(32)) {
                Some(rows) => are_hashes_of(hashes@, rows),
                None => false,
            },
            None => list_bytes(list@, Some(32)) is None,
        },
{
    let pieces = split_chars(&chars_of(list), ',');
    let ghost rows = split(list@, ',');
    let ghost mut read: Seq<Seq<u8>> = Seq::empty();
    let mut hashes: Vec<B256> = Vec::new();
    for k in 0..pieces.len()
        invariant
            texts(pieces@) == rows,
            rows == split(list@, ','),
            pieces_bytes(rows, Some(32), k as int) == Some(read),
            are_hashes_of(hashes@, read),
    {
        assert(rows[k as int] == pieces@[k as int]@);
        if pieces[k].len() > 0 {
            let piece = text_of(&pieces[k]);
            match parse_hash(piece.as_str()) {
                Some(hash) => {
                    hashes.push(hash);
                    proof {
                        read = read.push(fixed_hex_bytes(rows[k as int], 32)->0);
                    }
                },
                None => {
                    proof {
                        lemma_unreadable_piece(rows, Some(32), k + 1, rows.len() as int);
                    }
                    return None;
                },
            }
        }
    }
    Some(hashes)
}

/// The number, where it is not negative; else zero.
pub open spec fn not_negative(n: int) -> u64 {
    if n >= 0 {
        n as u64
    } else {
        0
    }
}

/// What prevents a record's parts from being read, if anything does.
pub open spec fn record_error(record: BundleRecord) -> Option<BundleError> {
    if list_bytes(record.param_signed_txs@, None) is None {
        Some(BundleError::BadTransactions)
    } else if list_bytes(record.param_reverting_tx_hashes@, Some(32)) is None {
        Some(BundleError::BadRevertingHashes)
    } else if list_bytes(record.param_signed_txs@, None)->0.len() == 0 {
        Some(BundleError::NoTransactions)
    } else if fixed_hex_bytes(record.signing_address@, 20) is None {
        Some(BundleError::BadSigningAddress)
    } else {
        None
    }
}

/// The bundle holds the parts of the record.
pub open spec fn is_raw_bundle_of(raw: RawBundle, record: BundleRecord, block: u64) -> bool {
    &&& raw.block_number == block
    &&& list_bytes(record.param_signed_txs@, None) == Some(byte_rows(raw.txs@))
    &&& are_hashes_of(
        raw.reverting_tx_hashes@,
        list_bytes(record.param_reverting_tx_hashes@, Some(32))->0,
    )
    &&& raw.dropping_tx_hashes@.len() == 0
    &&& raw.replacement_uuid == record.replacement_uuid
    &&& raw.uuid == record.replacement_uuid
    &&& raw.signing_address is Some
    &&& is_address_of(raw.signing_address->0, fixed_hex_bytes(record.signing_address@, 20)->0)
    &&& raw.min_timestamp == match record.param_timestamp {
        Some(timestamp) => Some(not_negative(timestamp as int)),
        None => None,
    }
    &&& raw.max_timestamp is None
    &&& raw.replacement_nonce == match record.replacement_uuid {
        Some(_) => Some(0u64),
        None => None,
    }
    &&& match fixed_hex_bytes(record.bundle_hash@, 32) {
        Some(bytes) => raw.bundle_hash is Some && is_hash_of(raw.bundle_hash->0, bytes),
        None => raw.bundle_hash is None,
    }
    &&& !raw.disable_cross_region_sharing
}

/// Reads the parts of a record.
pub fn raw_bundle(record: &BundleRecord, block: u64) -> (r: Result<RawBundle, BundleError>)
    ensures
        match r {
            Ok(raw) => record_error(*record) is None && is_raw_bundle_of(raw, *record, block),
            Err(error) => record_error(*record) == Some(error),
        },
{
    let txs = match parse_transactions(record.param_signed_txs.as_str()) {
        Some(txs) => txs,
        None => {
            return Err(BundleError::BadTransactions);
        },
    };
    let reverting_tx_hashes = match parse_hashes(record.param_reverting_tx_hashes.as_str()) {
        Some(hashes) => hashes,
        None => {
            return Err(BundleError::BadRevertingHashes);
        },
    };
    if txs.len() == 0 {
        return Err(BundleError::NoTransactions);
    }
    let signing_address = match parse_address(record.signing_address.as_str()) {
        Some(address) => Some(address),
        None => {
            return Err(BundleError::BadSigningAddress);
        },
    };
    let min_timestamp = match record.param_timestamp {
        Some(timestamp) => if timestamp >= 0 {
            Some(timestamp as u64)
        } else {
            Some(0)
        },
        None => None,
    };
    let replacement_nonce = match record.replacement_uuid {
        Some(_) => Some(0u64),
        None => None,
    };
    Ok(
        RawBundle {
            block_number: block,
            txs,
            reverting_tx_hashes,
            dropping_tx_hashes: Vec::new(),
            replacement_uuid: record.replacement_uuid,
            uuid: record.replacement_uuid,
            signing_address,
            min_timestamp,
            max_timestamp: None,
            replacement_nonce,
            bundle_hash: parse_hash(record.bundle_hash.as_str()),
            disable_cross_region_sharing: false,
        },
    )
}

/// The milliseconds from the beginning of 1970 up to a moment, where they can be counted. The part
/// of a millisecond is cut off.
pub open spec fn milliseconds(moment: int) -> Option<u64> {
    if moment <= -1_000_000 {
        None
    } else if moment < 0 {
        Some(0)
    } else if moment / 1_000_000 <= u64::MAX {
        Some((moment / 1_000_000) as u64)
    } else {
        None
    }
}

/// Computes [`milliseconds`].
pub fn millis_of(moment: i128) -> (r: Option<u64>)
    ensures
        r == milliseconds(moment as int),
{
    if moment <= -1_000_000 {
        None
    } else if moment < 0 {
        Some(0)
    } else {
        let millis: u128 = moment as u128 / 1_000_000;
        if millis <= u64::MAX as u128 {
            Some(millis as u64)
        } else {
            None
        }
    }
}

/// An order, and when it came in.
#[derive(Debug)]
pub struct OrdersWithTimestamp<O> {
    pub timestamp_ms: u64,
    pub order: O,
}

/// What becomes of a record: an error of its parts, or what decoding the bundle gives.
pub open spec fn is_order_of<O, D: Fn(RawBundle) -> Option<O>>(
    decode: D,
    record: BundleRecord,
    block: u64,
    r: Result<OrdersWithTimestamp<O>, BundleError>,
) -> bool {
    match record_error(record) {
        Some(error) => r == Err::<OrdersWithTimestamp<O>, BundleError>(error),
        None => exists|raw: RawBundle, decoded: Option<O>|
            {
                &&& is_raw_bundle_of(raw, record, block)
                &&& #[trigger] call_ensures(decode, (raw,), decoded)
                &&& match (decoded, milliseconds(record.inserted_at as int)) {
                    (None, _) => r == Err::<OrdersWithTimestamp<O>, BundleError>(
                        BundleError::Undecodable,
                    ),
                    (Some(_), None) => r == Err::<OrdersWithTimestamp<O>, BundleError>(
                        BundleError::BadTimestamp,
                    ),
                    (Some(order), Some(timestamp_ms)) => r == Ok::<
                        OrdersWithTimestamp<O>,
                        BundleError,
                    >(OrdersWithTimestamp { timestamp_ms, order }),
                }
            },
    }
}

/// Turns a record into an order.
pub fn bundle_order<O, D: Fn(RawBundle) -> Option<O>>(
    record: &BundleRecord,
    block: u64,
    decode: &D,
) -> (r: Result<OrdersWithTimestamp<O>, BundleError>)
    requires
        forall|raw: RawBundle| #[trigger] call_requires(*decode, (raw,)),
    ensures
        is_order_of(*decode, *record, block, r),
{
    let raw = match raw_bundle(record, block) {
        Ok(raw) => raw,
        Err(error) => {
            return Err(error);
        },
    };
    let ghost given = raw;
    let decoded = decode(raw);
    assert(is_raw_bundle_of(given, *record, block));
    assert(call_ensures(*decode, (given,), decoded));
    match decoded {
        None => Err(BundleError::Undecodable),
        Some(order) => match millis_of(record.inserted_at) {
            Some(timestamp_ms) => Ok(OrdersWithTimestamp { timestamp_ms, order }),
            None => Err(BundleError::BadTimestamp),
        },
    }
}

/// The orders among the results, as they stand.
pub open spec fn orders_among<O>(
    results: Seq<Result<OrdersWithTimestamp<O>, BundleError>>,
) -> Seq<OrdersWithTimestamp<O>>
    decreases results.len(),
{
    if results.len() == 0 {
        Seq::empty()
    } else {
        let earlier = orders_among(results.drop_last());
        match results.last() {
            Ok(order) => earlier.push(order),
            Err(_) => earlier,
        }
    }
}

/// `orders` are the orders of the records, without those that give none.
pub open spec fn are_orders_of<O, D: Fn(RawBundle) -> Option<O>>(
    decode: D,
    records: Seq<BundleRecord>,
    block: u64,
    orders: Seq<OrdersWithTimestamp<O>>,
) -> bool {
    exists|results: Seq<Result<OrdersWithTimestamp<O>, BundleError>>|
        {
            &&& results.len() == records.len()
            &&& forall|i: int|
                0 <= i < records.len() ==> is_order_of(
                    decode,
                    #[trigger] records[i],
                    block,
                    results[i],
                )
            &&& orders == #[trigger] orders_among(results)
        }
}

/// Turns the records into orders. Those that give none are left out.
pub fn bundle_orders<O, D: Fn(RawBundle) -> Option<O>>(
    records: &Vec<BundleRecord>,
    block: u64,
    decode: &D,
) -> (orders: Vec<OrdersWithTimestamp<O>>)
    requires
        forall|raw: RawBundle| #[trigger] call_requires(*decode, (raw,)),
    ensures
        are_orders_of(*decode, records@, block, orders@),
{
    let mut orders: Vec<OrdersWithTimestamp<O>> = Vec::new();
    let ghost mut results: Seq<Result<OrdersWithTimestamp<O>, BundleError>> = Seq::empty();
    for i in 0..records.len()
        invariant
            forall|raw: RawBundle| #[trigger] call_requires(*decode, (raw,)),
            results.len() == i,
            forall|j: int|
                0 <= j < i ==> is_order_of(*decode, #[trigger] records@[j], block, results[j]),
            orders@ == orders_among(results),
    {
        let result = bundle_order(&records[i], block, decode);
        proof {
            let more = results.push(result);
            assert(more.drop_last() =~= results);
            results = more;
        }
        match result {
            Ok(order) => {
                orders.push(order);
            },
            Err(_) => {},
        }
    }
    orders
}

/// Collects the orders for a block that came in from `from` up to `to`, from the files of the hours
/// that this time touches.
pub fn get_bundles<
    O,
    E,
    R: Fn(&str) -> Result<Vec<BundleRecord>, E>,
    D: Fn(RawBundle) -> Option<O>,
>(from: i128, to: i128, offset_seconds: i32, block: u64, read: &R, decode: &D) -> (r: Result<
    Vec<OrdersWithTimestamp<O>>,
    FetchError<E>,
>)
    requires
        can_count_hours(from, to, offset_seconds),
        forall|path: &str| #[trigger] call_requires(*read, (path,)),
        forall|raw: RawBundle| #[trigger] call_requires(*decode, (raw,)),
    ensures
        gives_orders(*read, *decode, from, to, offset_seconds, block, r),
{
    let collected = get_bundles_from_file(from, to, offset_seconds, block, read);
    assert(is_collected(
        *read,
        hours_between(from, to, offset_seconds),
        offset_seconds,
        block,
        collected,
    ));
    match collected {
        Ok(bundles) => {
            let bundles = keep_interval(bundles, from, to);
            Ok(bundle_orders(&bundles, block, decode))
        },
        Err(error) => Err(error),
    }
}

/// The orders of the bundles that were collected and came in from `from` up to `to`, or the error
/// of collecting them. Where bundles for the block were collected and none of them came in then,
/// there is no order, and no error.
pub open spec fn gives_orders<
    O,
    E,
    R: Fn(&str) -> Result<Vec<BundleRecord>, E>,
    D: Fn(RawBundle) -> Option<O>,
>(
    read: R,
    decode: D,
    from: i128,
    to: i128,
    offset_seconds: i32,
    block: u64,
    r: Result<Vec<OrdersWithTimestamp<O>>, FetchError<E>>,
) -> bool {
    exists|collected: Result<Vec<BundleRecord>, FetchError<E>>|
        {
            &&& #[trigger] is_collected(
                read,
                hours_between(from, to, offset_seconds),
                offset_seconds,
                block,
                collected,
            )
            &&& match collected {
                Ok(bundles) => r is Ok && are_orders_of(
                    decode,
                    in_interval(bundles@, from, to),
                    block,
                    r->Ok_0@,
                ),
                Err(error) => r is Err && r->Err_0 == error,
            }
        }
}

/// A block to fetch orders for.
#[derive(Debug, Clone, Copy)]
pub struct BlockRef {
    pub block_number: u64,
    /// In seconds since the beginning of 1970.
    pub block_timestamp: u64,
    pub landed_block_hash: Option<B256>,
}

/// The number that the bits of an unsigned one stand for as a signed one.
pub open spec fn as_signed(n: u64) -> int {
    if n < 0x8000_0000_0000_0000 {
        n as int
    } else {
        n - 0x1_0000_0000_0000_0000
    }
}

/// Computes [`as_signed`].
pub fn signed(n: u64) -> (r: i64)
    ensures
        r == as_signed(n),
{
    assert(n < 0x8000_0000_0000_0000u64 ==> n as i64 >= 0) by (bit_vector);
    assert(n < 0x8000_0000_0000_0000u64 ==> (n as i64) as u64 == n) by (bit_vector);
    assert(n >= 0x8000_0000_0000_0000u64 ==> (n as i64) == (n as i128)
        - 0x1_0000_0000_0000_0000i128) by (bit_vector);
    n as i64
}

/// How long before the block's time orders are looked for: three minutes.
pub const LOOK_BACK_NANOS: i128 = 180_000_000_000;

/// How long after the block's time orders are looked for: five seconds, as the block may be late.
pub const LOOK_AHEAD_NANOS: i128 = 5_000_000_000;

/// The moments between which a block's orders are looked for.
pub open spec fn fetch_range(block_timestamp: u64) -> Option<(i128, i128)> {
    let seconds = as_signed(block_timestamp);
    if has_date(seconds) {
        Some(
            (
                (seconds * 1_000_000_000 - LOOK_BACK_NANOS) as i128,
                (seconds * 1_000_000_000 + LOOK_AHEAD_NANOS) as i128,
            ),
        )
    } else {
        None
    }
}

/// Computes [`fetch_range`].
pub fn range_to_fetch(block_timestamp: u64) -> (r: Option<(i128, i128)>)
    ensures
        r == fetch_range(block_timestamp),
{
    match moment_of_second(signed(block_timestamp)) {
        Some(moment) => Some((moment - LOOK_BACK_NANOS, moment + LOOK_AHEAD_NANOS)),
        None => None,
    }
}

/// A source of privately sent bundles, in a directory of files.
#[derive(Debug)]
pub struct PrivateTransactionsDatasource {
    path: String,
}

impl Clone for PrivateTransactionsDatasource {
    fn clone(&self) -> (r: PrivateTransactionsDatasource)
        ensures
            r.directory() == self.directory(),
    {
        PrivateTransactionsDatasource { path: self.path.clone() }
    }
}

impl PrivateTransactionsDatasource {
    /// The directory of the files.
    pub closed spec fn directory(&self) -> Seq<char> {
        self.path@
    }

    /// A source of the files in a directory.
    pub fn new(path: String) -> (r: PrivateTransactionsDatasource)
        ensures
            r.directory() == path@,
    {
        PrivateTransactionsDatasource { path }
    }

    /// The directory of the files.
    pub fn path(&self) -> (r: &str)
        ensures
            r@ == self.directory(),
    {
        self.path.as_str()
    }

    /// Collects the orders for a block: those that came in from three minutes before the block's
    /// time up to five seconds after it.
    pub fn get_data<
        O,
        E,
        R: Fn(&str) -> Result<Vec<BundleRecord>, E>,
        D: Fn(RawBundle) -> Option<O>,
    >(&self, block: BlockRef, read: &R, decode: &D) -> (r: Result<
        Vec<OrdersWithTimestamp<O>>,
        FetchError<E>,
    >)
        requires
            forall|path: &str| #[trigger] call_requires(*read, (path,)),
            forall|raw: RawBundle| #[trigger] call_requires(*decode, (raw,)),
        ensures
            match fetch_range(block.block_timestamp) {
                Some((from, to)) => gives_orders(
                    *read,
                    *decode,
                    from,
                    to,
                    0,
                    block.block_number,
                    r,
                ),
                None => r is Err && r->Err_0 is BlockTimeOutOfRange,
            },
    {
        match range_to_fetch(block.block_timestamp) {
            Some((from, to)) => get_bundles(from, to, 0, block.block_number, read, decode),
            None => Err(FetchError::BlockTimeOutOfRange),
        }
    }
}

} // verus!
