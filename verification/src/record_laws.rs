//! Which records are kept, in which order, and what becomes of each.
use vstd::prelude::*;

use crate::private_mempool::{
    are_hours_read, are_orders_of, bundle_path, clock_hour, concatenated, for_block, gives_orders,
    hour_fails, hour_pattern, hours_between, in_interval, insertion_times, is_collected,
    is_hour_read, is_order_of, is_raw_bundle_of, is_sorted_by_time, lemma_hours_in_order,
    lemma_later_hour, milliseconds, moment_text, orders_among, record_error, with_utc, BundleError,
    BundleRecord, FetchError, OrdersWithTimestamp, RawBundle, HOUR_NANOS,
};
use crate::sequence_laws::law_sorting_keeps_every_item;
use crate::sorting::{is_stable_order, picked};

verus! {

/// The time of a record gets a `T` for each space and a `Z` at its end, and is the same otherwise.
pub proof fn law_only_spaces_change_in_a_time(s: Seq<char>, i: int)
    ensures
        with_utc(s).len() == s.len() + 1,
        with_utc(s).last() == 'Z',
        0 <= i < s.len() && s[i] == ' ' ==> with_utc(s)[i] == 'T',
        0 <= i < s.len() && s[i] != ' ' ==> with_utc(s)[i] == s[i],
{
}

/// The file of an hour lies under `bundles/` and is named after the hour, so that no two hours
/// share a file.
pub proof fn law_every_hour_has_a_file_of_its_own(hour: Seq<char>, other: Seq<char>)
    ensures
        bundle_path(hour).take(8) == "bundles/"@,
        bundle_path(hour).skip(bundle_path(hour).len() - 8) == ".csv.zip"@,
        bundle_path(hour).subrange(8, bundle_path(hour).len() - 8) == hour,
        bundle_path(hour) == bundle_path(other) ==> hour == other,
{
    reveal_strlit("bundles/");
    reveal_strlit(".csv.zip");
    let path = bundle_path(hour);
    let second = bundle_path(other);
    assert(path.take(8) =~= "bundles/"@);
    assert(path.skip(path.len() - 8) =~= ".csv.zip"@);
    assert(path.subrange(8, path.len() - 8) =~= hour);
    assert(second.subrange(8, second.len() - 8) =~= other);
}

/// Of the records exactly those for the block are kept, and of these exactly those that came in
/// between the two moments, both included; they stay as they stand.
pub proof fn law_records_are_kept_by_block_and_time(
    records: Seq<BundleRecord>,
    record: BundleRecord,
    block: u64,
    from: i128,
    to: i128,
)
    ensures
        for_block(Seq::empty(), block).len() == 0,
        in_interval(Seq::empty(), from, to).len() == 0,
        record.param_block_number == block ==> for_block(records.push(record), block) == for_block(
            records,
            block,
        ).push(record),
        record.param_block_number != block ==> for_block(records.push(record), block) == for_block(
            records,
            block,
        ),
        from <= record.inserted_at <= to ==> in_interval(records.push(record), from, to)
            == in_interval(records, from, to).push(record),
        !(from <= record.inserted_at <= to) ==> in_interval(records.push(record), from, to)
            == in_interval(records, from, to),
{
    reveal(Seq::filter);
    assert(records.push(record).drop_last() =~= records);
}

/// Records that are sorted are the same records: none is lost and none is added. They come by the
/// time at which they came in, and those of the same time as they stood.
pub proof fn law_sorting_by_time_loses_no_record(
    sorted: Seq<BundleRecord>,
    records: Seq<BundleRecord>,
)
    requires
        is_sorted_by_time(sorted, records),
        records.len() <= usize::MAX,
    ensures
        sorted.to_multiset() =~= records.to_multiset(),
        exists|p: Seq<usize>|
            {
                &&& p.len() == records.len()
                &&& #[trigger] p.no_duplicates()
                &&& sorted.len() == records.len()
                &&& forall|i: int|
                    0 <= i < p.len() ==> (#[trigger] p[i] as int) < records.len() && sorted[i]
                        == records[p[i] as int]
                &&& forall|i: int, j: int|
                    0 <= i < j < p.len() ==> {
                        let a = records[#[trigger] p[i] as int].inserted_at;
                        let b = records[#[trigger] p[j] as int].inserted_at;
                        a < b || (a == b && p[i] < p[j])
                    }
            },
{
    let times = insertion_times(records);
    let p = choose|p: Seq<usize>| #[trigger]
        is_stable_order(times, p) && sorted == picked(records, p);
    if records.len() > 0 {
        law_sorting_keeps_every_item(sorted, records, times, 0);
    } else {
        assert(sorted =~= records);
    }
    assert forall|i: int, j: int| 0 <= i < j < p.len() implies {
        let a = records[#[trigger] p[i] as int].inserted_at;
        let b = records[#[trigger] p[j] as int].inserted_at;
        a < b || (a == b && p[i] < p[j])
    } by {
        assert(times[p[i] as int] == records[p[i] as int].inserted_at);
        assert(times[p[j] as int] == records[p[j] as int].inserted_at);
    }
    assert(p.no_duplicates());
}

/// The records of the hours are put together hour by hour, and none is left out.
pub proof fn law_the_hours_are_put_together(
    parts: Seq<Seq<BundleRecord>>,
    more: Seq<Seq<BundleRecord>>,
    part: Seq<BundleRecord>,
)
    ensures
        concatenated(Seq::empty()).len() == 0,
        concatenated(seq![part]) == part,
        concatenated(parts + more) == concatenated(parts) + concatenated(more),
    decreases more.len(),
{
    let one = seq![part];
    assert(one.drop_last() =~= Seq::empty());
    assert(concatenated(one.drop_last()) =~= Seq::empty());
    assert(one.last() == part);
    assert(concatenated(one) =~= part);
    if more.len() == 0 {
        assert(parts + more =~= parts);
        assert(concatenated(parts) + concatenated(more) =~= concatenated(parts));
    } else {
        law_the_hours_are_put_together(parts, more.drop_last(), part);
        assert((parts + more).drop_last() =~= parts + more.drop_last());
        assert(concatenated(parts + more) =~= concatenated(parts) + concatenated(more));
    }
}

/// Every record that gives an order gives it, in its turn, and every other gives nothing.
pub proof fn law_every_order_is_taken<O>(
    results: Seq<Result<OrdersWithTimestamp<O>, BundleError>>,
    more: Seq<Result<OrdersWithTimestamp<O>, BundleError>>,
    order: OrdersWithTimestamp<O>,
    error: BundleError,
)
    ensures
        orders_among(Seq::<Result<OrdersWithTimestamp<O>, BundleError>>::empty()).len() == 0,
        orders_among(seq![Ok::<OrdersWithTimestamp<O>, BundleError>(order)]) == seq![order],
        orders_among(seq![Err::<OrdersWithTimestamp<O>, BundleError>(error)]).len() == 0,
        orders_among(results + more) == orders_among(results) + orders_among(more),
    decreases more.len(),
{
    let none = Seq::<Result<OrdersWithTimestamp<O>, BundleError>>::empty();
    let good = seq![Ok::<OrdersWithTimestamp<O>, BundleError>(order)];
    let bad = seq![Err::<OrdersWithTimestamp<O>, BundleError>(error)];
    assert(good.drop_last() =~= none);
    assert(bad.drop_last() =~= none);
    assert(orders_among(none) =~= Seq::empty());
    assert(good.last() == Ok::<OrdersWithTimestamp<O>, BundleError>(order));
    assert(orders_among(good) =~= seq![order]);
    if more.len() == 0 {
        assert(results + more =~= results);
        assert(orders_among(results) + orders_among(more) =~= orders_among(results));
    } else {
        law_every_order_is_taken(results, more.drop_last(), order, error);
        assert((results + more).drop_last() =~= results + more.drop_last());
        assert(orders_among(results + more) =~= orders_among(results) + orders_among(more));
    }
}

/// An order has the time of its record, in whole milliseconds, and is what decoding the record's
/// bundle gave. There is none where the record has a fault.
pub proof fn law_an_order_has_the_time_of_its_record<O, D: Fn(RawBundle) -> Option<O>>(
    decode: D,
    record: BundleRecord,
    block: u64,
    order: OrdersWithTimestamp<O>,
)
    requires
        is_order_of(
            decode,
            record,
            block,
            Ok::<OrdersWithTimestamp<O>, BundleError>(order),
        ),
    ensures
        record_error(record) is None,
        record.inserted_at >= 0 ==> order.timestamp_ms * 1_000_000 <= record.inserted_at < (
        order.timestamp_ms + 1) * 1_000_000,
        record.inserted_at < 0 ==> order.timestamp_ms == 0 && record.inserted_at > -1_000_000,
        exists|raw: RawBundle|
            is_raw_bundle_of(raw, record, block) && #[trigger] call_ensures(
                decode,
                (raw,),
                Some(order.order),
            ),
{
    let r = Ok::<OrdersWithTimestamp<O>, BundleError>(order);
    let (raw, decoded) = choose|raw: RawBundle, decoded: Option<O>|
        {
            &&& is_raw_bundle_of(raw, record, block)
            &&& #[trigger] call_ensures(decode, (raw,), decoded)
            &&& match (decoded, milliseconds(record.inserted_at as int)) {
                (None, _) => r == Err::<OrdersWithTimestamp<O>, BundleError>(
                    BundleError::Undecodable,
                ),
                (Some(_), None) => r == Err::<OrdersWithTimestamp<O>, BundleError>(
                    BundleError::BadTimestamp,
                ),
                (Some(order), Some(timestamp_ms)) => r == Ok::<OrdersWithTimestamp<O>, BundleError>(
                    OrdersWithTimestamp { timestamp_ms, order },
                ),
            }
        };
    assert(decoded == Some(order.order));
    assert(call_ensures(decode, (raw,), Some(order.order)));
}

/// The hours that are read follow one another, each an hour after the one before; the first is that
/// of the first moment and the last that of the last one, so that no hour is read twice.
pub proof fn law_hours_follow_one_another(from: i128, to: i128, offset_seconds: i32, k: int)
    requires
        from <= to,
        0 <= k < hours_between(from, to, offset_seconds).len(),
        from + k * HOUR_NANOS <= i128::MAX,
    ensures
        hours_between(from, to, offset_seconds)[k] == from + k * 3_600_000_000_000,
        clock_hour(
            hours_between(from, to, offset_seconds)[k] as int,
            offset_seconds,
        ) == clock_hour(from as int, offset_seconds) + k,
        clock_hour(
            hours_between(from, to, offset_seconds)[k] as int,
            offset_seconds,
        ) <= clock_hour(to as int, offset_seconds),
        k == hours_between(from, to, offset_seconds).len() - 1 ==> clock_hour(
            hours_between(from, to, offset_seconds)[k] as int,
            offset_seconds,
        ) == clock_hour(to as int, offset_seconds),
{
    lemma_hours_in_order(from as int, to as int, offset_seconds);
    lemma_later_hour(from as int, offset_seconds, k);
    assert(k * HOUR_NANOS >= 0) by (nonlinear_arith)
        requires
            k >= 0,
    ;
}

/// An hour on the clock lasts three thousand six hundred seconds, and the clock is ahead of
/// Greenwich by the distance.
pub proof fn law_an_hour_on_the_clock_lasts_an_hour(moment: int, offset_seconds: i32)
    ensures
        ({
            let local = moment + offset_seconds * 1_000_000_000;
            let hour = clock_hour(moment, offset_seconds);
            hour * 3_600_000_000_000 <= local < (hour + 1) * 3_600_000_000_000
        }),
{
    let local = moment + offset_seconds * 1_000_000_000;
    let h = 3_600_000_000_000int;
    assert((local / h) * h <= local < (local / h + 1) * h) by (nonlinear_arith)
        requires
            h > 0,
    ;
}

/// The records of an hour are read from the file that is named after the hour, by year, month, day
/// and hour on the clock, and those for the block are taken from it.
pub proof fn law_an_hour_is_read_from_its_file<E, R: Fn(&str) -> Result<Vec<BundleRecord>, E>>(
    read: R,
    moment: i128,
    offset_seconds: i32,
    block: u64,
    part: Seq<BundleRecord>,
)
    requires
        is_hour_read(read, moment, offset_seconds, block, part),
    ensures
        exists|path: &str, records: Vec<BundleRecord>|
            {
                &&& moment_text(moment, offset_seconds, "[year]-[month]-[day]-[hour]"@) is Some
                &&& path@ == "bundles/"@ + moment_text(
                    moment,
                    offset_seconds,
                    "[year]-[month]-[day]-[hour]"@,
                )->0 + ".csv.zip"@
                &&& #[trigger] call_ensures(read, (path,), Ok(records))
                &&& part.to_multiset() =~= for_block(records@, block).to_multiset()
            },
{
    let (path, records) = choose|path: &str, records: Vec<BundleRecord>|
        {
            &&& path@ == bundle_path(moment_text(moment, offset_seconds, hour_pattern())->0)
            &&& #[trigger] call_ensures(read, (path,), Ok(records))
            &&& is_sorted_by_time(part, for_block(records@, block))
        };
    let kept = for_block(records@, block);
    assert(kept.len() <= records@.len()) by {
        records@.lemma_filter_len(|record: BundleRecord| record.param_block_number == block);
    }
    assert(records@.len() == records.len());
    law_sorting_by_time_loses_no_record(part, kept);
    assert(call_ensures(read, (path,), Ok(records)));
}

/// The bundles that are collected are all that the files of all hours hold for the block: none is
/// lost and none is added.
pub proof fn law_no_bundle_is_lost<E, R: Fn(&str) -> Result<Vec<BundleRecord>, E>>(
    read: R,
    hours: Seq<i128>,
    offset_seconds: i32,
    block: u64,
    bundles: Vec<BundleRecord>,
)
    requires
        is_collected(
            read,
            hours,
            offset_seconds,
            block,
            Ok::<Vec<BundleRecord>, FetchError<E>>(bundles),
        ),
    ensures
        exists|parts: Seq<Seq<BundleRecord>>|
            {
                &&& parts.len() == hours.len()
                &&& forall|k: int|
                    0 <= k < parts.len() ==> is_hour_read(
                        read,
                        hours[k],
                        offset_seconds,
                        block,
                        #[trigger] parts[k],
                    )
                &&& bundles@.to_multiset() =~= (#[trigger] concatenated(parts)).to_multiset()
            },
{
    let parts = choose|parts: Seq<Seq<BundleRecord>>|
        {
            let all = concatenated(parts);
            &&& #[trigger] are_hours_read(read, hours, offset_seconds, block, parts)
            &&& parts.len() == hours.len()
            &&& all.len() > 0
            &&& is_sorted_by_time(bundles@, all)
        };
    let all = concatenated(parts);
    let p = choose|p: Seq<usize>| #[trigger]
        is_stable_order(insertion_times(all), p) && bundles@ == picked(all, p);
    assert(bundles@.len() == all.len());
    assert(bundles@.len() == bundles.len());
    law_sorting_by_time_loses_no_record(bundles@, all);
}

/// Collecting goes hour by hour and stops at the first hour that has no name or cannot be read: all
/// hours before it were read, and the error is that of this hour. Where all hours were read and
/// none had a bundle for the block, the error names the block.
pub proof fn law_collecting_stops_at_the_first_fault<
    E,
    R: Fn(&str) -> Result<Vec<BundleRecord>, E>,
>(
    read: R,
    hours: Seq<i128>,
    offset_seconds: i32,
    block: u64,
    fault: FetchError<E>,
)
    requires
        is_collected(
            read,
            hours,
            offset_seconds,
            block,
            Err::<Vec<BundleRecord>, FetchError<E>>(fault),
        ),
    ensures
        exists|parts: Seq<Seq<BundleRecord>>|
            {
                &&& forall|k: int|
                    0 <= k < parts.len() ==> is_hour_read(
                        read,
                        hours[k],
                        offset_seconds,
                        block,
                        #[trigger] parts[k],
                    )
                &&& match fault {
                    FetchError::NoBundles { block: of } => of == block && parts.len()
                        == hours.len() && (#[trigger] concatenated(parts)).len() == 0,
                    FetchError::HourOutOfRange => parts.len() < hours.len() && moment_text(
                        hours[parts.len() as int],
                        offset_seconds,
                        hour_pattern(),
                    ) is None,
                    FetchError::Read(error) => parts.len() < hours.len() && exists|path: &str|
                        path@ == bundle_path(
                            moment_text(
                                hours[parts.len() as int],
                                offset_seconds,
                                hour_pattern(),
                            )->0,
                        ) && #[trigger] call_ensures(read, (path,), Err(error)),
                    FetchError::BlockTimeOutOfRange => false,
                }
            },
{
    let parts = choose|parts: Seq<Seq<BundleRecord>>|
        {
            let all = concatenated(parts);
            &&& #[trigger] are_hours_read(read, hours, offset_seconds, block, parts)
            &&& match fault {
                FetchError::NoBundles { block: of } => parts.len() == hours.len() && all.len() == 0
                    && of == block,
                FetchError::HourOutOfRange => parts.len() < hours.len() && moment_text(
                    hours[parts.len() as int],
                    offset_seconds,
                    hour_pattern(),
                ) is None,
                FetchError::Read(error) => parts.len() < hours.len() && hour_fails(
                    read,
                    hours[parts.len() as int],
                    offset_seconds,
                    error,
                ),
                FetchError::BlockTimeOutOfRange => false,
            }
        };
    assert(concatenated(parts).len() >= 0);
    if let FetchError::Read(error) = fault {
        assert(hour_fails(read, hours[parts.len() as int], offset_seconds, error));
    }
}

/// Fetching orders fails exactly as collecting the bundles does. Where bundles were collected there
/// is no error, whichever of them came in between the two moments.
pub proof fn law_fetching_fails_only_where_collecting_does<
    O,
    E,
    R: Fn(&str) -> Result<Vec<BundleRecord>, E>,
    D: Fn(RawBundle) -> Option<O>,
>(
    read: R,
    decode: D,
    from: i128,
    to: i128,
    offset_seconds: i32,
    block: u64,
    r: Result<Vec<OrdersWithTimestamp<O>>, FetchError<E>>,
)
    requires
        gives_orders(read, decode, from, to, offset_seconds, block, r),
    ensures
        r is Err ==> is_collected(
            read,
            hours_between(from, to, offset_seconds),
            offset_seconds,
            block,
            Err::<Vec<BundleRecord>, FetchError<E>>(r->Err_0),
        ),
        r is Ok ==> exists|bundles: Vec<BundleRecord>|
            {
                &&& #[trigger] is_collected(
                    read,
                    hours_between(from, to, offset_seconds),
                    offset_seconds,
                    block,
                    Ok::<Vec<BundleRecord>, FetchError<E>>(bundles),
                )
                &&& are_orders_of(
                    decode,
                    in_interval(bundles@, from, to),
                    block,
                    r->Ok_0@,
                )
            },
{
    let hours = hours_between(from, to, offset_seconds);
    let collected = choose|collected: Result<Vec<BundleRecord>, FetchError<E>>|
        {
            &&& #[trigger] is_collected(read, hours, offset_seconds, block, collected)
            &&& match collected {
                Ok(bundles) => r is Ok && are_orders_of(
                    decode,
                    in_interval(bundles@, from, to),
                    block,
                    r->Ok_0@,
                ),
                Err(error) => r is Err && r->Err_0 == error,
            }
        };
    match collected {
        Ok(bundles) => {
            assert(is_collected(
                read,
                hours,
                offset_seconds,
                block,
                Ok::<Vec<BundleRecord>, FetchError<E>>(bundles),
            ));
        },
        Err(error) => {},
    }
}

} // verus!
