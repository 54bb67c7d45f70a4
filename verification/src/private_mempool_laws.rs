//! What holds of all bundles that are collected, and of the orders that they give.
use vstd::prelude::*;

use crate::private_mempool::{
    are_hours_read, are_orders_of, can_count_hours, clock_hour, concatenated, for_block,
    gives_orders, hours_between, in_interval, insertion_times, is_collected, is_hour_read,
    is_order_of, is_sorted_by_time, lemma_hours_in_order, lemma_later_hour, lemma_same_hour,
    milliseconds, orders_among, BundleError, BundleRecord, FetchError, OrdersWithTimestamp,
    RawBundle, HOUR_NANOS,
};
use crate::sorting::{is_stable_order, picked};

verus! {

/// The records come by the time at which they came in.
pub open spec fn come_by_time(records: Seq<BundleRecord>) -> bool {
    forall|i: int, j: int|
        0 <= i < j < records.len() ==> (#[trigger] records[i]).inserted_at <= (
        #[trigger] records[j]).inserted_at
}

/// All records are for the block.
pub open spec fn are_for_block(records: Seq<BundleRecord>, block: u64) -> bool {
    forall|i: int| 0 <= i < records.len() ==> (#[trigger] records[i]).param_block_number == block
}

proof fn lemma_sorted_records(sorted: Seq<BundleRecord>, records: Seq<BundleRecord>, block: u64)
    requires
        is_sorted_by_time(sorted, records),
        are_for_block(records, block),
    ensures
        come_by_time(sorted),
        are_for_block(sorted, block),
{
    let times = insertion_times(records);
    let p = choose|p: Seq<usize>| #[trigger]
        is_stable_order(times, p) && sorted == picked(records, p);
    assert forall|i: int, j: int| 0 <= i < j < sorted.len() implies (
    #[trigger] sorted[i]).inserted_at <= (#[trigger] sorted[j]).inserted_at by {
        let a = p[i];
        let b = p[j];
        assert(times[a as int] <= times[b as int]);
    }
    assert forall|i: int| 0 <= i < sorted.len() implies (
    #[trigger] sorted[i]).param_block_number == block by {
        assert(sorted[i] == records[p[i] as int]);
        assert((p[i] as int) < records.len());
    }
}

proof fn lemma_kept_records(records: Seq<BundleRecord>, block: u64)
    ensures
        are_for_block(for_block(records, block), block),
{
    let keep = |record: BundleRecord| record.param_block_number == block;
    let kept = for_block(records, block);
    assert forall|i: int| 0 <= i < kept.len() implies (#[trigger] kept[i]).param_block_number
        == block by {
        records.lemma_filter_pred(keep, i);
    }
}

proof fn lemma_concatenated_records(parts: Seq<Seq<BundleRecord>>, block: u64)
    requires
        forall|k: int| 0 <= k < parts.len() ==> are_for_block(#[trigger] parts[k], block),
    ensures
        are_for_block(concatenated(parts), block),
    decreases parts.len(),
{
    if parts.len() > 0 {
        let init = parts.drop_last();
        assert forall|k: int| 0 <= k < init.len() implies are_for_block(
            #[trigger] init[k],
            block,
        ) by {
            assert(init[k] == parts[k]);
        }
        lemma_concatenated_records(init, block);
        assert(are_for_block(parts[parts.len() - 1], block));
    }
}

/// The bundles that are collected are all for the block, and come by the time at which they came
/// in.
pub proof fn law_collected_bundles_come_by_time<
    E,
    R: Fn(&str) -> Result<Vec<BundleRecord>, E>,
>(
    read: R,
    hours: Seq<i128>,
    offset_seconds: i32,
    block: u64,
    bundles: Vec<BundleRecord>,
)
    requires
        is_collected(
            read,
            hours,
            offset_seconds,
            block,
            Ok::<Vec<BundleRecord>, FetchError<E>>(bundles),
        ),
    ensures
        come_by_time(bundles@),
        are_for_block(bundles@, block),
        bundles@.len() > 0,
{
    let parts = choose|parts: Seq<Seq<BundleRecord>>|
        {
            let all = concatenated(parts);
            &&& #[trigger] are_hours_read(read, hours, offset_seconds, block, parts)
            &&& parts.len() == hours.len()
            &&& all.len() > 0
            &&& is_sorted_by_time(bundles@, all)
        };
    let all = concatenated(parts);
    assert forall|k: int| 0 <= k < parts.len() implies are_for_block(
        #[trigger] parts[k],
        block,
    ) by {
        assert(is_hour_read(read, hours[k], offset_seconds, block, parts[k]));
        let (path, records) = choose|path: &str, records: Vec<BundleRecord>|
            #[trigger] call_ensures(read, (path,), Ok(records)) && is_sorted_by_time(
                parts[k],
                for_block(records@, block),
            );
        lemma_kept_records(records@, block);
        lemma_sorted_records(parts[k], for_block(records@, block), block);
    }
    lemma_concatenated_records(parts, block);
    lemma_sorted_records(bundles@, all, block);
    let p = choose|p: Seq<usize>| #[trigger]
        is_stable_order(insertion_times(all), p) && bundles@ == picked(all, p);
    assert(bundles@.len() == all.len());
}

proof fn lemma_orders_come_by_time<O, D: Fn(RawBundle) -> Option<O>>(
    decode: D,
    records: Seq<BundleRecord>,
    block: u64,
    results: Seq<Result<OrdersWithTimestamp<O>, BundleError>>,
    k: int,
)
    requires
        come_by_time(records),
        0 <= k <= records.len(),
        results.len() == records.len(),
        forall|i: int|
            0 <= i < records.len() ==> is_order_of(
                decode,
                #[trigger] records[i],
                block,
                results[i],
            ),
    ensures
        ({
            let orders = orders_among(results.take(k));
            &&& forall|i: int, j: int|
                0 <= i < j < orders.len() ==> (#[trigger] orders[i]).timestamp_ms <= (
                #[trigger] orders[j]).timestamp_ms
            &&& orders.len() > 0 ==> exists|m: int|
                0 <= m < k && milliseconds((#[trigger] records[m]).inserted_at as int) == Some(
                    orders.last().timestamp_ms,
                )
        }),
    decreases k,
{
    if k > 0 {
        lemma_orders_come_by_time(decode, records, block, results, k - 1);
        assert(results.take(k).drop_last() =~= results.take(k - 1));
        assert(results.take(k).last() == results[k - 1]);
        assert(is_order_of(decode, records[k - 1], block, results[k - 1]));
        let earlier = orders_among(results.take(k - 1));
        let orders = orders_among(results.take(k));
        if let Ok(order) = results[k - 1] {
            assert(milliseconds(records[k - 1].inserted_at as int) == Some(order.timestamp_ms));
            assert forall|i: int, j: int| 0 <= i < j < orders.len() implies (
            #[trigger] orders[i]).timestamp_ms <= (#[trigger] orders[j]).timestamp_ms by {
                if j == orders.len() - 1 {
                    let m = choose|m: int|
                        0 <= m < k - 1 && milliseconds(
                            (#[trigger] records[m]).inserted_at as int,
                        ) == Some(earlier.last().timestamp_ms);
                    assert(records[m].inserted_at <= records[k - 1].inserted_at);
                    assert(earlier.last().timestamp_ms <= order.timestamp_ms);
                    if i < earlier.len() - 1 {
                        assert(earlier[i].timestamp_ms <= earlier[earlier.len() - 1].timestamp_ms);
                    }
                }
            }
        }
    }
}

/// The orders of bundles that come by time come by time too.
pub proof fn law_orders_come_by_time<O, D: Fn(RawBundle) -> Option<O>>(
    decode: D,
    records: Seq<BundleRecord>,
    block: u64,
    orders: Seq<OrdersWithTimestamp<O>>,
)
    requires
        come_by_time(records),
        are_orders_of(decode, records, block, orders),
    ensures
        forall|i: int, j: int|
            0 <= i < j < orders.len() ==> (#[trigger] orders[i]).timestamp_ms <= (
            #[trigger] orders[j]).timestamp_ms,
{
    let results = choose|results: Seq<Result<OrdersWithTimestamp<O>, BundleError>>|
        {
            &&& results.len() == records.len()
            &&& forall|i: int|
                0 <= i < records.len() ==> is_order_of(
                    decode,
                    #[trigger] records[i],
                    block,
                    results[i],
                )
            &&& orders == #[trigger] orders_among(results)
        };
    lemma_orders_come_by_time(decode, records, block, results, records.len() as int);
    assert(results.take(records.len() as int) =~= results);
}

/// The files that are read are those of the hours that the time from `from` to `to` touches: there
/// is one for the hour of every moment between them.
pub proof fn law_the_hour_of_every_moment_is_read(
    from: i128,
    to: i128,
    offset_seconds: i32,
    moment: i128,
)
    requires
        can_count_hours(from, to, offset_seconds),
        from <= moment <= to,
    ensures
        ({
            let hours = hours_between(from, to, offset_seconds);
            let k = clock_hour(moment as int, offset_seconds) - clock_hour(
                from as int,
                offset_seconds,
            );
            &&& 0 <= k < hours.len()
            &&& clock_hour(hours[k] as int, offset_seconds) == clock_hour(
                moment as int,
                offset_seconds,
            )
        }),
{
    lemma_hours_in_order(from as int, moment as int, offset_seconds);
    lemma_hours_in_order(moment as int, to as int, offset_seconds);
    let k = clock_hour(moment as int, offset_seconds) - clock_hour(from as int, offset_seconds);
    lemma_later_hour(from as int, offset_seconds, k);
    lemma_same_hour(from + k * HOUR_NANOS, moment as int, offset_seconds);
    assert(k * HOUR_NANOS >= 0) by (nonlinear_arith)
        requires
            k >= 0,
    ;
}

/// An order with the time came in between the two moments, both included.
pub open spec fn came_in_between(from: i128, to: i128, timestamp_ms: u64) -> bool {
    exists|moment: i128|
        from <= moment <= to && #[trigger] milliseconds(moment as int) == Some(timestamp_ms)
}

/// Leaving records out keeps the others in their order, and adds none.
proof fn lemma_left_out(records: Seq<BundleRecord>, keep: spec_fn(BundleRecord) -> bool)
    requires
        come_by_time(records),
    ensures
        come_by_time(records.filter(keep)),
        forall|i: int|
            0 <= i < records.filter(keep).len() ==> records.contains(
                #[trigger] records.filter(keep)[i],
            ) && keep(records.filter(keep)[i]),
    decreases records.len(),
{
    reveal(Seq::filter);
    if records.len() > 0 {
        let init = records.drop_last();
        let last = records.last();
        assert forall|i: int, j: int| 0 <= i < j < init.len() implies (
        #[trigger] init[i]).inserted_at <= (#[trigger] init[j]).inserted_at by {
            assert(init[i] == records[i] && init[j] == records[j]);
        }
        lemma_left_out(init, keep);
        let kept = init.filter(keep);
        let all = records.filter(keep);
        assert forall|i: int| 0 <= i < all.len() implies records.contains(#[trigger] all[i])
            && keep(all[i]) by {
            if i < kept.len() {
                assert(all[i] == kept[i]);
                let m = choose|m: int| 0 <= m < init.len() && init[m] == kept[i];
                assert(records[m] == all[i]);
            } else {
                assert(records[records.len() - 1] == all[i]);
            }
        }
        assert forall|i: int, j: int| 0 <= i < j < all.len() implies (
        #[trigger] all[i]).inserted_at <= (#[trigger] all[j]).inserted_at by {
            assert(all[i] == kept[i]);
            if j < kept.len() {
                assert(all[j] == kept[j]);
            } else {
                let m = choose|m: int| 0 <= m < init.len() && init[m] == kept[i];
                assert(records[m].inserted_at <= records[records.len() - 1].inserted_at);
            }
        }
    }
}

/// Every order has the time of one of the records.
proof fn lemma_order_times<O, D: Fn(RawBundle) -> Option<O>>(
    decode: D,
    records: Seq<BundleRecord>,
    block: u64,
    results: Seq<Result<OrdersWithTimestamp<O>, BundleError>>,
    k: int,
    i: int,
)
    requires
        0 <= k <= records.len(),
        results.len() == records.len(),
        forall|m: int|
            0 <= m < records.len() ==> is_order_of(
                decode,
                #[trigger] records[m],
                block,
                results[m],
            ),
        0 <= i < orders_among(results.take(k)).len(),
    ensures
        exists|m: int|
            0 <= m < k && milliseconds((#[trigger] records[m]).inserted_at as int) == Some(
                orders_among(results.take(k))[i].timestamp_ms,
            ),
    decreases k,
{
    if k > 0 {
        assert(results.take(k).drop_last() =~= results.take(k - 1));
        assert(results.take(k).last() == results[k - 1]);
        assert(is_order_of(decode, records[k - 1], block, results[k - 1]));
        let earlier = orders_among(results.take(k - 1));
        if i < earlier.len() {
            lemma_order_times(decode, records, block, results, k - 1, i);
        } else {
            assert(milliseconds(records[k - 1].inserted_at as int) == Some(
                orders_among(results.take(k))[i].timestamp_ms,
            ));
        }
    }
}

/// The orders that are given for an interval all came in within it, and come by time.
pub proof fn law_orders_are_those_of_the_interval<
    O,
    E,
    R: Fn(&str) -> Result<Vec<BundleRecord>, E>,
    D: Fn(RawBundle) -> Option<O>,
>(
    read: R,
    decode: D,
    from: i128,
    to: i128,
    offset_seconds: i32,
    block: u64,
    orders: Vec<OrdersWithTimestamp<O>>,
)
    requires
        gives_orders(
            read,
            decode,
            from,
            to,
            offset_seconds,
            block,
            Ok::<Vec<OrdersWithTimestamp<O>>, FetchError<E>>(orders),
        ),
    ensures
        forall|i: int|
            0 <= i < orders@.len() ==> came_in_between(
                from,
                to,
                (#[trigger] orders@[i]).timestamp_ms,
            ),
        forall|i: int, j: int|
            0 <= i < j < orders@.len() ==> (#[trigger] orders@[i]).timestamp_ms <= (
            #[trigger] orders@[j]).timestamp_ms,
{
    let hours = hours_between(from, to, offset_seconds);
    let collected = choose|collected: Result<Vec<BundleRecord>, FetchError<E>>|
        {
            &&& #[trigger] is_collected(read, hours, offset_seconds, block, collected)
            &&& match collected {
                Ok(bundles) => are_orders_of(
                    decode,
                    in_interval(bundles@, from, to),
                    block,
                    orders@,
                ),
                Err(error) => false,
            }
        };
    let bundles = collected->Ok_0;
    law_collected_bundles_come_by_time(read, hours, offset_seconds, block, bundles);
    let keep = |record: BundleRecord| from <= record.inserted_at <= to;
    let records = in_interval(bundles@, from, to);
    lemma_left_out(bundles@, keep);
    law_orders_come_by_time(decode, records, block, orders@);
    let results = choose|results: Seq<Result<OrdersWithTimestamp<O>, BundleError>>|
        {
            &&& results.len() == records.len()
            &&& forall|i: int|
                0 <= i < records.len() ==> is_order_of(
                    decode,
                    #[trigger] records[i],
                    block,
                    results[i],
                )
            &&& orders@ == #[trigger] orders_among(results)
        };
    assert(results.take(records.len() as int) =~= results);
    assert forall|i: int| 0 <= i < orders@.len() implies came_in_between(
        from,
        to,
        (#[trigger] orders@[i]).timestamp_ms,
    ) by {
        lemma_order_times(decode, records, block, results, records.len() as int, i);
        let m = choose|m: int|
            0 <= m < records.len() && milliseconds((#[trigger] records[m]).inserted_at as int)
                == Some(orders@[i].timestamp_ms);
        assert(keep(records[m]));
        assert(milliseconds(records[m].inserted_at as int) == Some(orders@[i].timestamp_ms));
    }
}

} // verus!
