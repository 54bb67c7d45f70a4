//! The lines that a backtest prints: how they begin and end, how many there are, and in which order
//! they come.
use vstd::prelude::*;

use crate::amounts::ether_text;
use crate::backtest::{order_timestamp, slot_time};
use crate::hexadecimal::{address_text, hash_text};
use crate::private_mempool::OrdersWithTimestamp;
use crate::report::{
    arrival_times, available_orders_text, builder_profit_text, builder_time_text,
    delayed_kickback_line, execution_line, execution_lines, has_tx, is_sim_report, is_time_report,
    kickback_line, lines_in, matching_order_lines, matching_sim_lines, mev_blocker_price_text,
    order_lines, profit_line, recipient_text, sim_line, sim_order_lines, sim_profits,
    timed_order_lines, timed_orders_lines, tx_detail_line, tx_detail_lines, tx_hash_report,
    tx_head_line, used_orders_text, winner_text, DelayedKickbackReport, ExecutionReport,
    OrderReport, ProfitReport, SimOrderReport, TxReport,
};
use crate::sorting::is_stable_order;
use crate::text::{decimal, number, padded_end, padded_start, signed_decimal};
use crate::text_laws::law_decimal_is_read_back;
use crate::types::{Address, OrderId, B256, U256};

verus! {

/// The line begins with the text.
pub open spec fn begins_with(line: Seq<char>, head: Seq<char>) -> bool {
    head.len() <= line.len() && line.take(head.len() as int) == head
}

/// The line ends with the text.
pub open spec fn ends_with(line: Seq<char>, tail: Seq<char>) -> bool {
    tail.len() <= line.len() && line.skip(line.len() - tail.len()) == tail
}

/// The line is made up of the two texts and nothing else.
pub open spec fn is_made_of(line: Seq<char>, head: Seq<char>, tail: Seq<char>) -> bool {
    &&& begins_with(line, head)
    &&& ends_with(line, tail)
    &&& line.len() == head.len() + tail.len()
}

proof fn lemma_made_of(line: Seq<char>, head: Seq<char>, tail: Seq<char>)
    requires
        line == head + tail,
    ensures
        is_made_of(line, head, tail),
{
    assert(line.take(head.len() as int) =~= head);
    assert(line.skip(head.len() as int) =~= tail);
}

/// A text that is padded is as long as asked for, or as it was where that is longer; it stands at
/// the end or at the beginning, and the rest is filled up.
pub proof fn law_padding_fills_up_to_the_width(s: Seq<char>, width: nat, fill: char, i: int)
    ensures
        ({
            let before = padded_start(s, width, fill);
            let behind = padded_end(s, width);
            let length = if s.len() < width {
                width
            } else {
                s.len()
            };
            &&& before.len() == length && behind.len() == length
            &&& ends_with(before, s)
            &&& begins_with(behind, s)
            &&& 0 <= i < length - s.len() ==> before[i] == fill
            &&& s.len() <= i < length ==> behind[i] == ' '
        }),
{
    let before = padded_start(s, width, fill);
    let behind = padded_end(s, width);
    assert(before.skip(before.len() - s.len()) =~= s);
    assert(behind.take(s.len() as int) =~= s);
}

/// A number that is not negative is written as it is, and a negative one with a minus sign before
/// what it is without it.
pub proof fn law_negative_numbers_have_a_sign(n: int)
    ensures
        n >= 0 ==> number(signed_decimal(n)) == Some(n as nat),
        n < 0 ==> signed_decimal(n).len() > 0 && signed_decimal(n)[0] == '-' && number(
            signed_decimal(n).skip(1),
        ) == Some((-n) as nat),
{
    reveal_strlit("-");
    if n >= 0 {
        law_decimal_is_read_back(n as nat);
    } else {
        law_decimal_is_read_back((-n) as nat);
        assert(signed_decimal(n).skip(1) =~= decimal((-n) as nat));
    }
}

/// What is printed of an order begins with its identifier. A bundle has a line for each of its
/// transactions, which ends with the transaction's hash; another order has no other line.
pub proof fn law_a_bundle_shows_each_transaction(order: OrderReport, i: int)
    ensures
        order_lines(order).len() == 1 + if order.is_bundle {
            order.txs@.len()
        } else {
            0
        },
        order_lines(order)[0] == order.id_text@,
        order.is_bundle && 0 <= i < order.txs@.len() ==> is_made_of(
            order_lines(order)[1 + i],
            "      ↳ "@,
            hash_text(order.txs@[i].hash),
        ),
{
    if order.is_bundle && 0 <= i < order.txs@.len() {
        lemma_made_of(order_lines(order)[1 + i], "      ↳ "@, hash_text(order.txs@[i].hash));
    }
}

/// The line about what an order is worth names the coinbase profit first and the gas price then.
pub proof fn law_profit_stands_before_price(name: Seq<char>, profit: ProfitReport)
    ensures
        is_made_of(
            profit_line(name, profit),
            "      * "@ + name + ": coinbase_profit "@ + ether_text(
                profit.coinbase_profit.value(),
            ),
            " mev_gas_price "@ + ether_text(profit.mev_gas_price.value()),
        ),
{
    let head = "      * "@ + name + ": coinbase_profit "@ + ether_text(
        profit.coinbase_profit.value(),
    );
    let tail = " mev_gas_price "@ + ether_text(profit.mev_gas_price.value());
    assert(profit_line(name, profit) =~= head + tail);
    lemma_made_of(profit_line(name, profit), head, tail);
}

/// What is printed of a simulated order is what is printed of the order, what it is worth in full,
/// what it is worth beside the mempool, and the gas that it used.
pub proof fn law_a_simulated_order_shows_what_it_is_worth(sim: SimOrderReport)
    ensures
        ({
            let lines = sim_order_lines(sim);
            let n = order_lines(sim.order).len() as int;
            &&& lines.len() == n + 3
            &&& lines.take(n) == order_lines(sim.order)
            &&& is_made_of(
                lines[n],
                "      * "@ + "full"@ + ": coinbase_profit "@ + ether_text(
                    sim.full.coinbase_profit.value(),
                ),
                " mev_gas_price "@ + ether_text(sim.full.mev_gas_price.value()),
            )
            &&& is_made_of(
                lines[n + 1],
                "      * "@ + "non_mempool"@ + ": coinbase_profit "@ + ether_text(
                    sim.non_mempool.coinbase_profit.value(),
                ),
                " mev_gas_price "@ + ether_text(sim.non_mempool.mev_gas_price.value()),
            )
            &&& is_made_of(lines[n + 2], "      * gas_used "@, decimal(sim.gas_used as nat))
        }),
{
    let lines = sim_order_lines(sim);
    let n = order_lines(sim.order).len() as int;
    assert(lines.take(n) =~= order_lines(sim.order));
    law_profit_stands_before_price("full"@, sim.full);
    law_profit_stands_before_price("non_mempool"@, sim.non_mempool);
    lemma_made_of(lines[n + 2], "      * gas_used "@, decimal(sim.gas_used as nat));
}

proof fn lemma_matching_orders(
    orders: Seq<OrderReport>,
    more: Seq<OrderReport>,
    tx_hash: B256,
    k: int,
)
    requires
        0 <= k <= orders.len(),
    ensures
        matching_order_lines(orders + more, tx_hash, k) == matching_order_lines(
            orders,
            tx_hash,
            k,
        ),
    decreases k,
{
    if k > 0 {
        lemma_matching_orders(orders, more, tx_hash, k - 1);
        assert((orders + more)[k - 1] == orders[k - 1]);
    }
}

proof fn lemma_matching_sims(
    sims: Seq<SimOrderReport>,
    more: Seq<SimOrderReport>,
    tx_hash: B256,
    k: int,
)
    requires
        0 <= k <= sims.len(),
    ensures
        matching_sim_lines(sims + more, tx_hash, k) == matching_sim_lines(sims, tx_hash, k),
    decreases k,
{
    if k > 0 {
        lemma_matching_sims(sims, more, tx_hash, k - 1);
        assert((sims + more)[k - 1] == sims[k - 1]);
    }
}

/// One more order adds its lines at the end where one of its transactions has the hash, and nothing
/// otherwise.
pub proof fn law_every_order_with_the_transaction_is_shown(
    orders: Seq<OrderReport>,
    order: OrderReport,
    sims: Seq<SimOrderReport>,
    sim: SimOrderReport,
    tx_hash: B256,
)
    ensures
        matching_order_lines(orders, tx_hash, 0).len() == 0,
        matching_sim_lines(sims, tx_hash, 0).len() == 0,
        ({
            let shown = exists|i: int|
                0 <= i < order.txs@.len() && (#[trigger] order.txs@[i]).hash == tx_hash;
            matching_order_lines(orders.push(order), tx_hash, orders.len() as int + 1)
                == if shown {
                matching_order_lines(orders, tx_hash, orders.len() as int) + order_lines(order)
            } else {
                matching_order_lines(orders, tx_hash, orders.len() as int)
            }
        }),
        ({
            let shown = exists|i: int|
                0 <= i < sim.order.txs@.len() && (#[trigger] sim.order.txs@[i]).hash == tx_hash;
            matching_sim_lines(sims.push(sim), tx_hash, sims.len() as int + 1) == if shown {
                matching_sim_lines(sims, tx_hash, sims.len() as int) + sim_order_lines(sim)
            } else {
                matching_sim_lines(sims, tx_hash, sims.len() as int)
            }
        }),
{
    let n = orders.len() as int;
    assert(orders.push(order) =~= orders + seq![order]);
    lemma_matching_orders(orders, seq![order], tx_hash, n);
    assert(has_tx(order, tx_hash) == exists|i: int|
        0 <= i < order.txs@.len() && (#[trigger] order.txs@[i]).hash == tx_hash);
    if !has_tx(order, tx_hash) {
        assert(matching_order_lines(orders, tx_hash, n) + Seq::<Seq<char>>::empty()
            =~= matching_order_lines(orders, tx_hash, n));
    }
    let m = sims.len() as int;
    assert(sims.push(sim) =~= sims + seq![sim]);
    lemma_matching_sims(sims, seq![sim], tx_hash, m);
    assert(has_tx(sim.order, tx_hash) == exists|i: int|
        0 <= i < sim.order.txs@.len() && (#[trigger] sim.order.txs@[i]).hash == tx_hash);
    if !has_tx(sim.order, tx_hash) {
        assert(matching_sim_lines(sims, tx_hash, m) + Seq::<Seq<char>>::empty()
            =~= matching_sim_lines(sims, tx_hash, m));
    }
}

/// The report on a transaction begins and ends with its hash, and shows the orders before the
/// simulated ones.
pub proof fn law_a_report_on_a_transaction_names_it(
    tx_hash: B256,
    orders: Seq<OrderReport>,
    sims: Seq<SimOrderReport>,
)
    ensures
        ({
            let lines = tx_hash_report(tx_hash, orders, sims);
            let shown = matching_order_lines(orders, tx_hash, orders.len() as int);
            let simulated = matching_sim_lines(sims, tx_hash, sims.len() as int);
            let n = shown.len() as int;
            &&& lines.len() == shown.len() + simulated.len() + 5
            &&& is_made_of(lines[0], "---- BEGIN Orders with tx hash: "@, hash_text(tx_hash))
            &&& lines[1] == "ORDERS:"@
            &&& lines.subrange(2, 2 + n) == shown
            &&& lines[2 + n].len() == 0
            &&& lines[3 + n] == "SIM ORDERS:"@
            &&& lines.subrange(4 + n, 4 + n + simulated.len()) == simulated
            &&& is_made_of(lines.last(), "---- END Orders with tx hash: "@, hash_text(tx_hash))
        }),
{
    let lines = tx_hash_report(tx_hash, orders, sims);
    let shown = matching_order_lines(orders, tx_hash, orders.len() as int);
    let simulated = matching_sim_lines(sims, tx_hash, sims.len() as int);
    let n = shown.len() as int;
    assert(lines.subrange(2, 2 + n) =~= shown);
    assert(lines.subrange(4 + n, 4 + n + simulated.len()) =~= simulated);
    lemma_made_of(lines[0], "---- BEGIN Orders with tx hash: "@, hash_text(tx_hash));
    lemma_made_of(lines.last(), "---- END Orders with tx hash: "@, hash_text(tx_hash));
}

/// The line about a kickback names who gets it and how much.
pub proof fn law_a_kickback_names_its_recipient(kickback: (Address, U256))
    ensures
        is_made_of(
            kickback_line(kickback),
            "      $ Paid kickback to: "@ + address_text(kickback.0),
            " value: "@ + ether_text(kickback.1.value()),
        ),
{
    let head = "      $ Paid kickback to: "@ + address_text(kickback.0);
    let tail = " value: "@ + ether_text(kickback.1.value());
    assert(kickback_line(kickback) =~= head + tail);
    lemma_made_of(kickback_line(kickback), head, tail);
}

/// The line about a kickback that is paid later names who gets it, how much, what the transaction
/// costs, and whether the block itself pays it.
pub proof fn law_a_delayed_kickback_names_its_cost(kickback: DelayedKickbackReport)
    ensures
        begins_with(
            delayed_kickback_line(kickback),
            "      $ Delayed kickback to: "@ + address_text(kickback.recipient) + " value: "@
                + ether_text(kickback.payout_value.value()) + " tx_fee: "@ + ether_text(
                kickback.payout_tx_fee.value(),
            ),
        ),
        kickback.should_pay_in_block ==> ends_with(
            delayed_kickback_line(kickback),
            " tx_fee: "@ + ether_text(kickback.payout_tx_fee.value()) + " paid at end of block: "@
                + "true"@,
        ),
        !kickback.should_pay_in_block ==> ends_with(
            delayed_kickback_line(kickback),
            " tx_fee: "@ + ether_text(kickback.payout_tx_fee.value()) + " paid at end of block: "@
                + "false"@,
        ),
{
    let line = delayed_kickback_line(kickback);
    let start = "      $ Delayed kickback to: "@ + address_text(kickback.recipient) + " value: "@
        + ether_text(kickback.payout_value.value());
    let fee = " tx_fee: "@ + ether_text(kickback.payout_tx_fee.value());
    let paid = if kickback.should_pay_in_block {
        " paid at end of block: "@ + "true"@
    } else {
        " paid at end of block: "@ + "false"@
    };
    let head = start + fee;
    assert(head =~= "      $ Delayed kickback to: "@ + address_text(kickback.recipient)
        + " value: "@ + ether_text(kickback.payout_value.value()) + " tx_fee: "@ + ether_text(
        kickback.payout_tx_fee.value(),
    ));
    assert(line =~= head + paid);
    assert(line =~= start + (fee + paid));
    lemma_made_of(line, head, paid);
    lemma_made_of(line, start, fee + paid);
    assert(fee + paid =~= fee + " paid at end of block: "@ + if kickback.should_pay_in_block {
        "true"@
    } else {
        "false"@
    });
}

/// What is printed of an order that went in: a line with its gas and its profit, and of a bundle a
/// line for each transaction, one for each kickback that was paid, and one for a kickback that is
/// paid later, in this order.
pub proof fn law_an_executed_bundle_shows_each_kickback(result: ExecutionReport, i: int)
    ensures
        ({
            let lines = execution_lines(result);
            let txs = result.order.txs@.len() as int;
            let paid = result.paid_kickbacks@.len() as int;
            let later: int = if result.delayed_kickback is Some {
                1
            } else {
                0
            };
            &&& lines.len() == 1 + if result.order.is_bundle {
                txs + paid + later
            } else {
                0
            }
            &&& is_made_of(
                lines[0],
                padded_end(result.order.id_text@, 74) + " gas: "@ + padded_start(
                    decimal(result.gas as nat),
                    8,
                    ' ',
                ),
                " profit: "@ + ether_text(result.coinbase_profit.value()),
            )
            &&& result.order.is_bundle && 0 <= i < txs ==> is_made_of(
                lines[1 + i],
                "      ↳ "@,
                hash_text(result.order.txs@[i].hash),
            )
            &&& result.order.is_bundle && 0 <= i < paid ==> lines[1 + txs + i] == kickback_line(
                result.paid_kickbacks@[i],
            )
            &&& result.order.is_bundle && later == 1 ==> lines.last() == delayed_kickback_line(
                result.delayed_kickback->0,
            )
        }),
{
    let lines = execution_lines(result);
    let head = padded_end(result.order.id_text@, 74) + " gas: "@ + padded_start(
        decimal(result.gas as nat),
        8,
        ' ',
    );
    let tail = " profit: "@ + ether_text(result.coinbase_profit.value());
    assert(execution_line(result) =~= head + tail);
    lemma_made_of(lines[0], head, tail);
    if result.order.is_bundle && 0 <= i < result.order.txs@.len() {
        lemma_made_of(lines[1 + i], "      ↳ "@, hash_text(result.order.txs@[i].hash));
    }
}

/// The lines about a transaction: its hash and whether it is optional, and then who sent it, to
/// whom, and with which nonce.
pub proof fn law_a_transaction_shows_who_sent_it(tx: TxReport)
    ensures
        tx.optional ==> is_made_of(tx_head_line(tx), "    "@ + hash_text(tx.hash), " "@ + "true"@),
        !tx.optional ==> is_made_of(
            tx_head_line(tx),
            "    "@ + hash_text(tx.hash),
            " "@ + "false"@,
        ),
        begins_with(tx_detail_line(tx), "        from: "@ + address_text(tx.signer) + " to: "@),
        tx.to is Some ==> is_made_of(
            tx_detail_line(tx),
            "        from: "@ + address_text(tx.signer) + " to: "@ + ("Some("@ + address_text(
                tx.to->0,
            ) + ")"@),
            " nonce: "@ + decimal(tx.nonce as nat),
        ),
        tx.to is None ==> is_made_of(
            tx_detail_line(tx),
            "        from: "@ + address_text(tx.signer) + " to: "@ + "None"@,
            " nonce: "@ + decimal(tx.nonce as nat),
        ),
{
    let head = "    "@ + hash_text(tx.hash);
    let flag = if tx.optional {
        " "@ + "true"@
    } else {
        " "@ + "false"@
    };
    assert(tx_head_line(tx) =~= head + flag);
    lemma_made_of(tx_head_line(tx), head, flag);
    let sender = "        from: "@ + address_text(tx.signer) + " to: "@;
    let nonce = " nonce: "@ + decimal(tx.nonce as nat);
    let line = tx_detail_line(tx);
    assert(line =~= (sender + recipient_text(tx.to)) + nonce);
    assert(line =~= sender + (recipient_text(tx.to) + nonce));
    lemma_made_of(line, sender + recipient_text(tx.to), nonce);
    lemma_made_of(line, sender, recipient_text(tx.to) + nonce);
}

/// Every transaction has its two lines, in the order of the transactions.
pub proof fn law_every_transaction_has_two_lines(txs: Seq<TxReport>, k: int, i: int)
    requires
        0 <= i < k <= txs.len(),
    ensures
        tx_detail_lines(txs, k).len() == 2 * k,
        tx_detail_lines(txs, k)[2 * i] == tx_head_line(txs[i]),
        tx_detail_lines(txs, k)[2 * i + 1] == tx_detail_line(txs[i]),
    decreases k,
{
    if i < k - 1 {
        law_every_transaction_has_two_lines(txs, k - 1, i);
    } else {
        lemma_detail_count(txs, k - 1);
    }
}

proof fn lemma_detail_count(txs: Seq<TxReport>, k: int)
    requires
        0 <= k,
    ensures
        tx_detail_lines(txs, k).len() == 2 * k,
    decreases k,
{
    if k > 0 {
        lemma_detail_count(txs, k - 1);
    }
}

/// The lines about an order by time: its identifier and how long before the block it came in, and
/// then the lines of its transactions.
pub proof fn law_a_timed_order_shows_its_slot_time(
    order: OrdersWithTimestamp<OrderReport>,
    block_time: u64,
)
    ensures
        ({
            let lines = timed_order_lines(order, block_time);
            &&& lines.len() == 1 + 2 * order.order.txs@.len()
            &&& is_made_of(
                lines[0],
                padded_start(order.order.id_text@, 74, ' '),
                " ts: "@ + signed_decimal(slot_time(order.timestamp_ms, block_time)),
            )
            &&& lines.skip(1) == tx_detail_lines(
                order.order.txs@,
                order.order.txs@.len() as int,
            )
        }),
{
    let lines = timed_order_lines(order, block_time);
    lemma_detail_count(order.order.txs@, order.order.txs@.len() as int);
    let head = padded_start(order.order.id_text@, 74, ' ');
    let tail = " ts: "@ + signed_decimal(slot_time(order.timestamp_ms, block_time));
    assert(lines[0] =~= head + tail);
    lemma_made_of(lines[0], head, tail);
    assert(lines.skip(1) =~= tx_detail_lines(order.order.txs@, order.order.txs@.len() as int));
}

/// The lines about each of the orders, one order after another.
pub open spec fn all_timed_lines(
    orders: Seq<OrdersWithTimestamp<OrderReport>>,
    block_time: u64,
) -> Seq<Seq<char>>
    decreases orders.len(),
{
    if orders.len() == 0 {
        Seq::empty()
    } else {
        timed_order_lines(orders[0], block_time) + all_timed_lines(orders.skip(1), block_time)
    }
}

/// The orders at the first `k` places of the sequence.
pub open spec fn arranged(
    orders: Seq<OrdersWithTimestamp<OrderReport>>,
    sequence: Seq<usize>,
    k: int,
) -> Seq<OrdersWithTimestamp<OrderReport>> {
    Seq::new(k as nat, |i: int| orders[sequence[i] as int])
}

proof fn lemma_timed_lines_end(
    orders: Seq<OrdersWithTimestamp<OrderReport>>,
    last: OrdersWithTimestamp<OrderReport>,
    block_time: u64,
)
    ensures
        all_timed_lines(orders.push(last), block_time) == all_timed_lines(orders, block_time)
            + timed_order_lines(last, block_time),
    decreases orders.len(),
{
    let all = orders.push(last);
    if orders.len() == 0 {
        assert(all.skip(1) =~= Seq::empty());
        assert(all_timed_lines(all.skip(1), block_time) =~= Seq::<Seq<char>>::empty());
        assert(all_timed_lines(all, block_time) =~= all_timed_lines(orders, block_time)
            + timed_order_lines(last, block_time));
    } else {
        lemma_timed_lines_end(orders.skip(1), last, block_time);
        assert(all.skip(1) =~= orders.skip(1).push(last));
        assert(all_timed_lines(all, block_time) =~= all_timed_lines(orders, block_time)
            + timed_order_lines(last, block_time));
    }
}

proof fn lemma_timed_lines(
    orders: Seq<OrdersWithTimestamp<OrderReport>>,
    sequence: Seq<usize>,
    block_time: u64,
    k: int,
)
    requires
        0 <= k <= sequence.len(),
    ensures
        timed_orders_lines(orders, sequence, block_time, k) == all_timed_lines(
            arranged(orders, sequence, k),
            block_time,
        ),
    decreases k,
{
    let shown = arranged(orders, sequence, k);
    if k == 0 {
        assert(shown =~= Seq::empty());
    } else {
        let fewer = arranged(orders, sequence, k - 1);
        lemma_timed_lines(orders, sequence, block_time, k - 1);
        lemma_timed_lines_end(fewer, orders[sequence[k - 1] as int], block_time);
        assert(shown =~= fewer.push(orders[sequence[k - 1] as int]));
    }
}

/// The report by time shows every order once, the earliest first, and orders of the same time as
/// they stand.
pub proof fn law_orders_are_shown_by_time(
    orders: Seq<OrdersWithTimestamp<OrderReport>>,
    block_time: u64,
    lines: Seq<Seq<char>>,
)
    requires
        is_time_report(orders, block_time, lines),
    ensures
        exists|p: Seq<usize>|
            {
                &&& p.len() == orders.len()
                &&& p.no_duplicates()
                &&& forall|i: int|
                    0 <= i < p.len() ==> (#[trigger] p[i] as int) < orders.len()
                &&& forall|i: int, j: int|
                    0 <= i < j < p.len() ==> {
                        let a = orders[#[trigger] p[i] as int].timestamp_ms;
                        let b = orders[#[trigger] p[j] as int].timestamp_ms;
                        a < b || (a == b && p[i] < p[j])
                    }
                &&& lines == seq!["---- BEGIN Orders and timestamp:"@] + all_timed_lines(
                    #[trigger] arranged(orders, p, p.len() as int),
                    block_time,
                ) + seq!["---- END Orders and timestamp"@]
            },
{
    let p = choose|p: Seq<usize>| #[trigger]
        is_stable_order(arrival_times(orders), p) && lines == seq![
            "---- BEGIN Orders and timestamp:"@,
        ] + timed_orders_lines(orders, p, block_time, p.len() as int) + seq![
            "---- END Orders and timestamp"@,
        ];
    lemma_timed_lines(orders, p, block_time, p.len() as int);
    let shown = arranged(orders, p, p.len() as int);
    assert(all_timed_lines(shown, block_time) == timed_orders_lines(
        orders,
        p,
        block_time,
        p.len() as int,
    ));
    let times = arrival_times(orders);
    assert forall|i: int, j: int| 0 <= i < j < p.len() implies {
        let a = orders[#[trigger] p[i] as int].timestamp_ms;
        let b = orders[#[trigger] p[j] as int].timestamp_ms;
        a < b || (a == b && p[i] < p[j])
    } by {
        assert(times[p[i] as int] == orders[p[i] as int].timestamp_ms);
        assert(times[p[j] as int] == orders[p[j] as int].timestamp_ms);
    }
}

/// The line about a simulated order: its identifier and how long before the block it came in, and
/// then the gas that it used and what it is worth in full.
pub proof fn law_a_simulated_order_shows_gas_and_profit(
    sim: SimOrderReport,
    timestamp: u64,
    block_time: u64,
)
    ensures
        begins_with(
            sim_line(sim, timestamp, block_time),
            padded_start(sim.order.id_text@, 74, ' ') + " slot_time_ms: "@ + padded_start(
                signed_decimal(slot_time(timestamp, block_time)),
                8,
                ' ',
            ) + ", gas: "@,
        ),
        ends_with(
            sim_line(sim, timestamp, block_time),
            ", gas: "@ + padded_start(decimal(sim.gas_used as nat), 8, ' ') + " profit: "@
                + ether_text(sim.full.coinbase_profit.value()),
        ),
{
    let line = sim_line(sim, timestamp, block_time);
    let start = padded_start(sim.order.id_text@, 74, ' ') + " slot_time_ms: "@ + padded_start(
        signed_decimal(slot_time(timestamp, block_time)),
        8,
        ' ',
    );
    let rest = padded_start(decimal(sim.gas_used as nat), 8, ' ') + " profit: "@ + ether_text(
        sim.full.coinbase_profit.value(),
    );
    assert(line =~= (start + ", gas: "@) + rest);
    assert(line =~= start + (", gas: "@ + rest));
    lemma_made_of(line, start + ", gas: "@, rest);
    lemma_made_of(line, start, ", gas: "@ + rest);
    assert(", gas: "@ + rest =~= ", gas: "@ + padded_start(decimal(sim.gas_used as nat), 8, ' ')
        + " profit: "@ + ether_text(sim.full.coinbase_profit.value()));
}

/// The report on simulated orders says how many there are and shows each of them once. No order
/// stands behind one with a smaller profit, and each has the time of its last arrival.
pub proof fn law_simulated_orders_are_shown_by_profit(
    sims: Seq<SimOrderReport>,
    arrivals: Seq<(OrderId, u64)>,
    block_time: u64,
    lines: Seq<Seq<char>>,
)
    requires
        is_sim_report(sims, arrivals, block_time, lines),
    ensures
        lines.len() == sims.len() + 2,
        lines[0] == "Simulated orders: ("@ + decimal(sims.len()) + " total)"@,
        lines.last().len() == 0,
        exists|q: Seq<usize>|
            {
                &&& #[trigger] q.no_duplicates()
                &&& q.len() == sims.len()
                &&& forall|i: int| 0 <= i < q.len() ==> (#[trigger] q[i] as int) < sims.len()
                &&& forall|i: int, j: int|
                    0 <= i < j < q.len() ==> {
                        let a = sims[#[trigger] q[i] as int].full.coinbase_profit.value();
                        let b = sims[#[trigger] q[j] as int].full.coinbase_profit.value();
                        a > b || (a == b && q[i] > q[j])
                    }
                &&& forall|i: int|
                    0 <= i < q.len() ==> lines[1 + i] == sim_line(
                        sims[#[trigger] q[i] as int],
                        order_timestamp(arrivals, sims[q[i] as int].order.id),
                        block_time,
                    )
            },
{
    let p = choose|p: Seq<usize>| #[trigger]
        is_stable_order(sim_profits(sims), p) && lines == seq![
            "Simulated orders: ("@ + decimal(sims.len()) + " total)"@,
        ] + crate::report::sim_lines(sims, arrivals, p, block_time, p.len() as int) + seq![
            Seq::empty(),
        ];
    let q = p.reverse();
    let ranks = sim_profits(sims);
    assert forall|i: int| 0 <= i < q.len() implies (#[trigger] q[i] as int) < sims.len() by {
        assert(q[i] == p[p.len() - 1 - i]);
    }
    assert forall|i: int, j: int| 0 <= i < j < q.len() implies {
        let a = sims[#[trigger] q[i] as int].full.coinbase_profit.value();
        let b = sims[#[trigger] q[j] as int].full.coinbase_profit.value();
        a > b || (a == b && q[i] > q[j])
    } by {
        let x = p[p.len() - 1 - j];
        let y = p[p.len() - 1 - i];
        assert(q[i] == y && q[j] == x);
        assert(ranks[x as int] == sims[x as int].full.coinbase_profit.value());
        assert(ranks[y as int] == sims[y as int].full.coinbase_profit.value());
    }
    assert(q.no_duplicates()) by {
        assert forall|i: int, j: int| 0 <= i < q.len() && 0 <= j < q.len() && i != j implies q[i]
            != q[j] by {
            assert(q[i] == p[p.len() - 1 - i]);
            assert(q[j] == p[p.len() - 1 - j]);
        }
    }
    assert forall|i: int| 0 <= i < q.len() implies lines[1 + i] == sim_line(
        sims[#[trigger] q[i] as int],
        order_timestamp(arrivals, sims[q[i] as int].order.id),
        block_time,
    ) by {
        assert(q[i] == p[p.len() - 1 - i]);
    }
}

/// The lines about a builder say what its block is worth, how long it took and how many orders it
/// holds; that about the winner names it before its profit.
pub proof fn law_lines_about_builders_end_with_their_figures(
    price: U256,
    count: usize,
    profit: U256,
    milliseconds: u64,
    name: Seq<char>,
)
    ensures
        is_made_of(mev_blocker_price_text(price), "mev_blocker_price "@, ether_text(price.value())),
        is_made_of(available_orders_text(count), "Available orders: "@, decimal(count as nat)),
        is_made_of(builder_profit_text(profit), "Builder profit: "@, ether_text(profit.value())),
        is_made_of(
            builder_time_text(milliseconds),
            "Builder time:   "@ + decimal(milliseconds as nat),
            " ms"@,
        ),
        is_made_of(used_orders_text(count), "Number of used orders: "@, decimal(count as nat)),
        is_made_of(
            winner_text(name, profit),
            "Winning builder: "@ + name,
            " with profit: "@ + ether_text(profit.value()),
        ),
{
    lemma_made_of(mev_blocker_price_text(price), "mev_blocker_price "@, ether_text(price.value()));
    lemma_made_of(available_orders_text(count), "Available orders: "@, decimal(count as nat));
    lemma_made_of(builder_profit_text(profit), "Builder profit: "@, ether_text(profit.value()));
    lemma_made_of(
        builder_time_text(milliseconds),
        "Builder time:   "@ + decimal(milliseconds as nat),
        " ms"@,
    );
    lemma_made_of(used_orders_text(count), "Number of used orders: "@, decimal(count as nat));
    let head = "Winning builder: "@ + name;
    let tail = " with profit: "@ + ether_text(profit.value());
    assert(winner_text(name, profit) =~= head + tail);
    lemma_made_of(winner_text(name, profit), head, tail);
}

/// The contents of lines are those of each line, in the order of the lines.
pub proof fn law_lines_are_read_one_by_one(lines: Seq<String>, i: int)
    ensures
        lines_in(lines).len() == lines.len(),
        0 <= i < lines.len() ==> lines_in(lines)[i] == lines[i]@,
{
}

} // verus!
