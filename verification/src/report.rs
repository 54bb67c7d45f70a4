//! What a backtest prints of orders.
use vstd::prelude::*;

use crate::amounts::{ether_text, format_amount, format_ether};
use crate::backtest::{order_timestamp, slot_time, timestamp_ms_to_slot_time, timestamps_of};
use crate::default_tasks::DefaultGraphStudyRecord;
use crate::hash_maps::{key_of_order, map_get, AhashMap};
use crate::hexadecimal::{address_chars, address_text, hash_chars, hash_text};
use crate::private_mempool::OrdersWithTimestamp;
use crate::sequences::sorted_indices;
use crate::sorting::{is_stable_order, ranks};
use crate::text::{
    append_chars, append_text, chars_of, decimal, decimal_chars, pad_end, pad_start, padded_end,
    padded_start, signed_decimal, signed_decimal_chars, text_of,
};
use crate::types::{Address, OrderId, B256, U256};

verus! {

/// What is printed of a transaction.
#[derive(Debug)]
pub struct TxReport {
    pub hash: B256,
    pub optional: bool,
    pub signer: Address,
    pub to: Option<Address>,
    pub nonce: u64,
}

/// What is printed of an order.
#[derive(Debug)]
pub struct OrderReport {
    pub id: OrderId,
    /// The identifier as text.
    pub id_text: String,
    pub is_bundle: bool,
    pub txs: Vec<TxReport>,
}

/// What an order is worth.
#[derive(Debug, Clone, Copy)]
pub struct ProfitReport {
    pub coinbase_profit: U256,
    pub mev_gas_price: U256,
}

/// What is printed of a simulated order.
#[derive(Debug)]
pub struct SimOrderReport {
    pub order: OrderReport,
    pub full: ProfitReport,
    pub non_mempool: ProfitReport,
    pub gas_used: u64,
}

/// The contents of lines.
pub open spec fn lines_in(lines: Seq<String>) -> Seq<Seq<char>> {
    Seq::new(lines.len(), |i: int| lines[i]@)
}

/// Adds a line.
fn push_line(lines: &mut Vec<String>, chars: &Vec<char>)
    ensures
        lines_in(final(lines)@) == lines_in(old(lines)@).push(chars@),
{
    let ghost before = lines_in(lines@);
    let line = text_of(chars);
    lines.push(line);
    assert(lines_in(lines@) =~= before.push(chars@));
}

/// The line about a transaction of a bundle.
pub open spec fn tx_line(hash: B256) -> Seq<char> {
    "      ↳ "@ + hash_text(hash)
}

/// The lines about the first `k` transactions of a bundle.
pub open spec fn tx_lines(txs: Seq<TxReport>, k: int) -> Seq<Seq<char>> {
    Seq::new(k as nat, |i: int| tx_line(txs[i].hash))
}

/// The lines about an order: its identifier, and the transactions of a bundle.
pub open spec fn order_lines(order: OrderReport) -> Seq<Seq<char>> {
    seq![order.id_text@] + if order.is_bundle {
        tx_lines(order.txs@, order.txs@.len() as int)
    } else {
        Seq::empty()
    }
}

fn push_tx_lines(lines: &mut Vec<String>, txs: &Vec<TxReport>)
    ensures
        lines_in(final(lines)@) == lines_in(old(lines)@) + tx_lines(txs@, txs@.len() as int),
{
    let ghost before = lines_in(lines@);
    assert(before + tx_lines(txs@, 0) =~= before);
    for i in 0..txs.len()
        invariant
            lines_in(lines@) == before + tx_lines(txs@, i as int),
    {
        let mut line = chars_of("      ↳ ");
        append_chars(&mut line, hash_chars(txs[i].hash));
        push_line(lines, &line);
        assert(lines_in(lines@) =~= before + tx_lines(txs@, i + 1));
    }
}

/// Adds the lines about an order.
pub fn print_order(lines: &mut Vec<String>, order: &OrderReport)
    ensures
        lines_in(final(lines)@) == lines_in(old(lines)@) + order_lines(*order),
{
    let ghost before = lines_in(lines@);
    let id = chars_of(order.id_text.as_str());
    push_line(lines, &id);
    if order.is_bundle {
        push_tx_lines(lines, &order.txs);
    }
    assert(lines_in(lines@) =~= before + order_lines(*order));
}

/// The line about one way to count what an order is worth.
pub open spec fn profit_line(name: Seq<char>, profit: ProfitReport) -> Seq<char> {
    "      * "@ + name + ": coinbase_profit "@ + ether_text(profit.coinbase_profit.value())
        + " mev_gas_price "@ + ether_text(profit.mev_gas_price.value())
}

fn profit_chars(name: &str, profit: ProfitReport) -> (r: Vec<char>)
    ensures
        r@ == profit_line(name@, profit),
{
    let mut line = chars_of("      * ");
    append_text(&mut line, name);
    append_text(&mut line, ": coinbase_profit ");
    append_text(&mut line, format_ether(profit.coinbase_profit).as_str());
    append_text(&mut line, " mev_gas_price ");
    append_text(&mut line, format_ether(profit.mev_gas_price).as_str());
    line
}

/// The lines about a simulated order.
pub open spec fn sim_order_lines(sim: SimOrderReport) -> Seq<Seq<char>> {
    order_lines(sim.order) + seq![
        profit_line("full"@, sim.full),
        profit_line("non_mempool"@, sim.non_mempool),
        "      * gas_used "@ + decimal(sim.gas_used as nat),
    ]
}

/// Adds the lines about a simulated order.
pub fn print_sim_order(lines: &mut Vec<String>, sim: &SimOrderReport)
    ensures
        lines_in(final(lines)@) == lines_in(old(lines)@) + sim_order_lines(*sim),
{
    let ghost before = lines_in(lines@);
    print_order(lines, &sim.order);
    let full = profit_chars("full", sim.full);
    push_line(lines, &full);
    let non_mempool = profit_chars("non_mempool", sim.non_mempool);
    push_line(lines, &non_mempool);
    let mut gas = chars_of("      * gas_used ");
    append_chars(&mut gas, decimal_chars(sim.gas_used as u128));
    push_line(lines, &gas);
    assert(lines_in(lines@) =~= before + sim_order_lines(*sim));
}

/// The order holds the transaction.
pub open spec fn has_tx(order: OrderReport, tx_hash: B256) -> bool {
    exists|i: int| 0 <= i < order.txs@.len() && (#[trigger] order.txs@[i]).hash == tx_hash
}

fn holds_tx(order: &OrderReport, tx_hash: B256) -> (r: bool)
    ensures
        r == has_tx(*order, tx_hash),
{
    for i in 0..order.txs.len()
        invariant
            forall|j: int| 0 <= j < i ==> (#[trigger] order.txs@[j]).hash != tx_hash,
    {
        if order.txs[i].hash == tx_hash {
            assert(order.txs@[i as int].hash == tx_hash);
            return true;
        }
    }
    false
}

/// The lines about those of the first `k` orders that hold the transaction.
pub open spec fn matching_order_lines(orders: Seq<OrderReport>, tx_hash: B256, k: int) -> Seq<
    Seq<char>,
>
    decreases k,
{
    if k <= 0 {
        Seq::empty()
    } else {
        matching_order_lines(orders, tx_hash, k - 1) + if has_tx(orders[k - 1], tx_hash) {
            order_lines(orders[k - 1])
        } else {
            Seq::empty()
        }
    }
}

/// The lines about those of the first `k` simulated orders that hold the transaction.
pub open spec fn matching_sim_lines(sims: Seq<SimOrderReport>, tx_hash: B256, k: int) -> Seq<
    Seq<char>,
>
    decreases k,
{
    if k <= 0 {
        Seq::empty()
    } else {
        matching_sim_lines(sims, tx_hash, k - 1) + if has_tx(sims[k - 1].order, tx_hash) {
            sim_order_lines(sims[k - 1])
        } else {
            Seq::empty()
        }
    }
}

/// Everything about the orders that hold a transaction.
pub open spec fn tx_hash_report(
    tx_hash: B256,
    orders: Seq<OrderReport>,
    sims: Seq<SimOrderReport>,
) -> Seq<Seq<char>> {
    seq!["---- BEGIN Orders with tx hash: "@ + hash_text(tx_hash), "ORDERS:"@]
        + matching_order_lines(orders, tx_hash, orders.len() as int) + seq![
        Seq::empty(),
        "SIM ORDERS:"@,
    ] + matching_sim_lines(sims, tx_hash, sims.len() as int) + seq![
        "---- END Orders with tx hash: "@ + hash_text(tx_hash),
    ]
}

/// Reports the orders and the simulated orders that hold a transaction.
pub fn print_orders_with_tx_hash(
    tx_hash: B256,
    available_orders: &Vec<OrderReport>,
    sim_orders: &Vec<SimOrderReport>,
) -> (lines: Vec<String>)
    ensures
        lines_in(lines@) == tx_hash_report(tx_hash, available_orders@, sim_orders@),
{
    let mut lines: Vec<String> = Vec::new();
    let mut begin = chars_of("---- BEGIN Orders with tx hash: ");
    append_chars(&mut begin, hash_chars(tx_hash));
    push_line(&mut lines, &begin);
    let orders_title = chars_of("ORDERS:");
    push_line(&mut lines, &orders_title);
    let ghost head = lines_in(lines@);
    assert(head =~= seq![
        "---- BEGIN Orders with tx hash: "@ + hash_text(tx_hash),
        "ORDERS:"@,
    ]);
    for i in 0..available_orders.len()
        invariant
            lines_in(lines@) == head + matching_order_lines(
                available_orders@,
                tx_hash,
                i as int,
            ),
    {
        if holds_tx(&available_orders[i], tx_hash) {
            print_order(&mut lines, &available_orders[i]);
        }
        assert(lines_in(lines@) =~= head + matching_order_lines(
            available_orders@,
            tx_hash,
            i + 1,
        ));
    }
    let empty: Vec<char> = Vec::new();
    push_line(&mut lines, &empty);
    let sims_title = chars_of("SIM ORDERS:");
    push_line(&mut lines, &sims_title);
    let ghost middle = lines_in(lines@);
    assert(middle =~= head + matching_order_lines(
        available_orders@,
        tx_hash,
        available_orders@.len() as int,
    ) + seq![Seq::empty(), "SIM ORDERS:"@]);
    for i in 0..sim_orders.len()
        invariant
            lines_in(lines@) == middle + matching_sim_lines(sim_orders@, tx_hash, i as int),
    {
        if holds_tx(&sim_orders[i].order, tx_hash) {
            print_sim_order(&mut lines, &sim_orders[i]);
        }
        assert(lines_in(lines@) =~= middle + matching_sim_lines(sim_orders@, tx_hash, i + 1));
    }
    let mut end = chars_of("---- END Orders with tx hash: ");
    append_chars(&mut end, hash_chars(tx_hash));
    push_line(&mut lines, &end);
    assert(lines_in(lines@) =~= tx_hash_report(tx_hash, available_orders@, sim_orders@));
    lines
}

/// A kickback that is paid later.
#[derive(Debug, Clone, Copy)]
pub struct DelayedKickbackReport {
    pub recipient: Address,
    pub payout_value: U256,
    pub payout_tx_fee: U256,
    pub should_pay_in_block: bool,
}

/// What is printed of an order that went into a block.
#[derive(Debug)]
pub struct ExecutionReport {
    pub order: OrderReport,
    pub gas: u64,
    pub coinbase_profit: U256,
    pub paid_kickbacks: Vec<(Address, U256)>,
    pub delayed_kickback: Option<DelayedKickbackReport>,
}

/// The line about a kickback.
pub open spec fn kickback_line(kickback: (Address, U256)) -> Seq<char> {
    "      $ Paid kickback to: "@ + address_text(kickback.0) + " value: "@ + ether_text(
        kickback.1.value(),
    )
}

/// The lines about the first `k` kickbacks.
pub open spec fn kickback_lines(kickbacks: Seq<(Address, U256)>, k: int) -> Seq<Seq<char>> {
    Seq::new(k as nat, |i: int| kickback_line(kickbacks[i]))
}

/// Truth as text.
pub open spec fn bool_text(b: bool) -> Seq<char> {
    if b {
        "true"@
    } else {
        "false"@
    }
}

fn bool_chars(b: bool) -> (r: Vec<char>)
    ensures
        r@ == bool_text(b),
{
    if b {
        chars_of("true")
    } else {
        chars_of("false")
    }
}

/// The line about a kickback that is paid later.
pub open spec fn delayed_kickback_line(kickback: DelayedKickbackReport) -> Seq<char> {
    "      $ Delayed kickback to: "@ + address_text(kickback.recipient) + " value: "@ + ether_text(
        kickback.payout_value.value(),
    ) + " tx_fee: "@ + ether_text(kickback.payout_tx_fee.value()) + " paid at end of block: "@
        + bool_text(kickback.should_pay_in_block)
}

/// The first line about an order that went into a block.
pub open spec fn execution_line(result: ExecutionReport) -> Seq<char> {
    padded_end(result.order.id_text@, 74) + " gas: "@ + padded_start(
        decimal(result.gas as nat),
        8,
        ' ',
    ) + " profit: "@ + ether_text(result.coinbase_profit.value())
}

/// The lines about what belongs to a bundle that went into a block.
pub open spec fn bundle_lines(result: ExecutionReport) -> Seq<Seq<char>> {
    tx_lines(result.order.txs@, result.order.txs@.len() as int) + kickback_lines(
        result.paid_kickbacks@,
        result.paid_kickbacks@.len() as int,
    ) + match result.delayed_kickback {
        Some(kickback) => seq![delayed_kickback_line(kickback)],
        None => Seq::empty(),
    }
}

/// The lines about an order that went into a block.
pub open spec fn execution_lines(result: ExecutionReport) -> Seq<Seq<char>> {
    seq![execution_line(result)] + if result.order.is_bundle {
        bundle_lines(result)
    } else {
        Seq::empty()
    }
}

fn push_bundle_lines(lines: &mut Vec<String>, result: &ExecutionReport)
    ensures
        lines_in(final(lines)@) == lines_in(old(lines)@) + bundle_lines(*result),
{
    let ghost before = lines_in(lines@);
    push_tx_lines(lines, &result.order.txs);
    let ghost middle = lines_in(lines@);
    let kickbacks = &result.paid_kickbacks;
    assert(middle + kickback_lines(kickbacks@, 0) =~= middle);
    for i in 0..kickbacks.len()
        invariant
            lines_in(lines@) == middle + kickback_lines(kickbacks@, i as int),
    {
        let kickback = kickbacks[i];
        assert(kickbacks@[i as int] == kickback);
        let mut line = chars_of("      $ Paid kickback to: ");
        append_chars(&mut line, address_chars(kickback.0));
        append_text(&mut line, " value: ");
        append_text(&mut line, format_ether(kickback.1).as_str());
        push_line(lines, &line);
        assert(lines_in(lines@) =~= middle + kickback_lines(kickbacks@, i + 1));
    }
    if let Some(kickback) = result.delayed_kickback {
        let mut line = chars_of("      $ Delayed kickback to: ");
        append_chars(&mut line, address_chars(kickback.recipient));
        append_text(&mut line, " value: ");
        append_text(&mut line, format_ether(kickback.payout_value).as_str());
        append_text(&mut line, " tx_fee: ");
        append_text(&mut line, format_ether(kickback.payout_tx_fee).as_str());
        append_text(&mut line, " paid at end of block: ");
        append_chars(&mut line, bool_chars(kickback.should_pay_in_block));
        push_line(lines, &line);
    }
    assert(lines_in(lines@) =~= before + bundle_lines(*result));
}

/// Reports an order that went into a block.
pub fn print_order_execution_result(result: &ExecutionReport) -> (lines: Vec<String>)
    ensures
        lines_in(lines@) == execution_lines(*result),
{
    let mut lines: Vec<String> = Vec::new();
    let mut line = pad_end(chars_of(result.order.id_text.as_str()), 74);
    append_text(&mut line, " gas: ");
    append_chars(&mut line, pad_start(decimal_chars(result.gas as u128), 8));
    append_text(&mut line, " profit: ");
    append_text(&mut line, format_ether(result.coinbase_profit).as_str());
    push_line(&mut lines, &line);
    if result.order.is_bundle {
        push_bundle_lines(&mut lines, result);
    }
    assert(lines_in(lines@) =~= execution_lines(*result));
    lines
}

/// An optional address as text.
pub open spec fn recipient_text(to: Option<Address>) -> Seq<char> {
    match to {
        Some(address) => "Some("@ + address_text(address) + ")"@,
        None => "None"@,
    }
}

fn recipient_chars(to: Option<Address>) -> (r: Vec<char>)
    ensures
        r@ == recipient_text(to),
{
    match to {
        Some(address) => {
            let mut out = chars_of("Some(");
            append_chars(&mut out, address_chars(address));
            append_text(&mut out, ")");
            out
        },
        None => chars_of("None"),
    }
}

/// The first line about a transaction.
pub open spec fn tx_head_line(tx: TxReport) -> Seq<char> {
    "    "@ + hash_text(tx.hash) + " "@ + bool_text(tx.optional)
}

/// The second line about a transaction.
pub open spec fn tx_detail_line(tx: TxReport) -> Seq<char> {
    "        from: "@ + address_text(tx.signer) + " to: "@ + recipient_text(tx.to) + " nonce: "@
        + decimal(tx.nonce as nat)
}

/// The lines about the first `k` transactions.
pub open spec fn tx_detail_lines(txs: Seq<TxReport>, k: int) -> Seq<Seq<char>>
    decreases k,
{
    if k <= 0 {
        Seq::empty()
    } else {
        tx_detail_lines(txs, k - 1) + seq![tx_head_line(txs[k - 1]), tx_detail_line(txs[k - 1])]
    }
}

fn push_tx_detail_lines(lines: &mut Vec<String>, txs: &Vec<TxReport>)
    ensures
        lines_in(final(lines)@) == lines_in(old(lines)@) + tx_detail_lines(
            txs@,
            txs@.len() as int,
        ),
{
    let ghost before = lines_in(lines@);
    for i in 0..txs.len()
        invariant
            lines_in(lines@) == before + tx_detail_lines(txs@, i as int),
    {
        let tx = &txs[i];
        let mut head = chars_of("    ");
        append_chars(&mut head, hash_chars(tx.hash));
        append_text(&mut head, " ");
        append_chars(&mut head, bool_chars(tx.optional));
        push_line(lines, &head);
        let mut detail = chars_of("        from: ");
        append_chars(&mut detail, address_chars(tx.signer));
        append_text(&mut detail, " to: ");
        append_chars(&mut detail, recipient_chars(tx.to));
        append_text(&mut detail, " nonce: ");
        append_chars(&mut detail, decimal_chars(tx.nonce as u128));
        push_line(lines, &detail);
        assert(lines_in(lines@) =~= before + tx_detail_lines(txs@, i + 1));
    }
}

/// The lines about an order and when it came in.
pub open spec fn timed_order_lines(
    order: OrdersWithTimestamp<OrderReport>,
    block_time: u64,
) -> Seq<Seq<char>> {
    seq![
        padded_start(order.order.id_text@, 74, ' ') + " ts: "@ + signed_decimal(
            slot_time(order.timestamp_ms, block_time),
        ),
    ] + tx_detail_lines(order.order.txs@, order.order.txs@.len() as int)
}

/// The lines about the first `k` orders of the sequence.
pub open spec fn timed_orders_lines(
    orders: Seq<OrdersWithTimestamp<OrderReport>>,
    sequence: Seq<usize>,
    block_time: u64,
    k: int,
) -> Seq<Seq<char>>
    decreases k,
{
    if k <= 0 {
        Seq::empty()
    } else {
        timed_orders_lines(orders, sequence, block_time, k - 1) + timed_order_lines(
            orders[sequence[k - 1] as int],
            block_time,
        )
    }
}

/// When the orders came in.
pub open spec fn arrival_times(orders: Seq<OrdersWithTimestamp<OrderReport>>) -> Seq<int> {
    Seq::new(orders.len(), |i: int| orders[i].timestamp_ms as int)
}

/// The report on the orders, by the time at which they came in.
pub open spec fn is_time_report(
    orders: Seq<OrdersWithTimestamp<OrderReport>>,
    block_time: u64,
    lines: Seq<Seq<char>>,
) -> bool {
    exists|sequence: Seq<usize>| #[trigger]
        is_stable_order(arrival_times(orders), sequence) && lines == seq![
            "---- BEGIN Orders and timestamp:"@,
        ] + timed_orders_lines(orders, sequence, block_time, sequence.len() as int) + seq![
            "---- END Orders and timestamp"@,
        ]
}

/// Reports the orders by the time at which they came in.
pub fn print_order_and_timestamp(
    orders: &Vec<OrdersWithTimestamp<OrderReport>>,
    block_time: u64,
) -> (lines: Vec<String>)
    requires
        forall|i: int|
            0 <= i < orders@.len() ==> crate::backtest::has_slot_time(
                (#[trigger] orders@[i]).timestamp_ms,
                block_time,
            ),
    ensures
        is_time_report(orders@, block_time, lines_in(lines@)),
{
    let mut times: Vec<u64> = Vec::new();
    for i in 0..orders.len()
        invariant
            times@.len() == i,
            forall|j: int| 0 <= j < i ==> #[trigger] times@[j] == orders@[j].timestamp_ms,
    {
        times.push(orders[i].timestamp_ms);
    }
    assert(ranks(times@) =~= arrival_times(orders@));
    let sequence = sorted_indices(times);
    let mut lines: Vec<String> = Vec::new();
    let begin = chars_of("---- BEGIN Orders and timestamp:");
    push_line(&mut lines, &begin);
    let ghost head = lines_in(lines@);
    assert(head =~= seq!["---- BEGIN Orders and timestamp:"@]);
    for k in 0..sequence.len()
        invariant
            is_stable_order(arrival_times(orders@), sequence@),
            forall|i: int|
                0 <= i < orders@.len() ==> crate::backtest::has_slot_time(
                    (#[trigger] orders@[i]).timestamp_ms,
                    block_time,
                ),
            lines_in(lines@) == head + timed_orders_lines(
                orders@,
                sequence@,
                block_time,
                k as int,
            ),
    {
        assert((sequence@[k as int] as int) < orders@.len());
        let order = &orders[sequence[k]];
        let mut line = pad_start(chars_of(order.order.id_text.as_str()), 74);
        append_text(&mut line, " ts: ");
        append_chars(
            &mut line,
            signed_decimal_chars(timestamp_ms_to_slot_time(order.timestamp_ms, block_time)),
        );
        push_line(&mut lines, &line);
        push_tx_detail_lines(&mut lines, &order.order.txs);
        assert(lines_in(lines@) =~= head + timed_orders_lines(
            orders@,
            sequence@,
            block_time,
            k + 1,
        ));
    }
    let end = chars_of("---- END Orders and timestamp");
    push_line(&mut lines, &end);
    proof {
        assert(lines_in(lines@) =~= seq!["---- BEGIN Orders and timestamp:"@] + timed_orders_lines(
            orders@,
            sequence@,
            block_time,
            sequence@.len() as int,
        ) + seq!["---- END Orders and timestamp"@]);
    }
    lines
}

/// What the simulated orders are worth.
pub open spec fn sim_profits(sims: Seq<SimOrderReport>) -> Seq<int> {
    Seq::new(sims.len(), |i: int| sims[i].full.coinbase_profit.value() as int)
}

/// The line about a simulated order.
pub open spec fn sim_line(sim: SimOrderReport, timestamp: u64, block_time: u64) -> Seq<char> {
    padded_start(sim.order.id_text@, 74, ' ') + " slot_time_ms: "@ + padded_start(
        signed_decimal(slot_time(timestamp, block_time)),
        8,
        ' ',
    ) + ", gas: "@ + padded_start(decimal(sim.gas_used as nat), 8, ' ') + " profit: "@ + ether_text(
        sim.full.coinbase_profit.value(),
    )
}

/// The lines about the last `k` orders of the sequence, the last one first.
pub open spec fn sim_lines(
    sims: Seq<SimOrderReport>,
    arrivals: Seq<(OrderId, u64)>,
    sequence: Seq<usize>,
    block_time: u64,
    k: int,
) -> Seq<Seq<char>> {
    Seq::new(
        k as nat,
        |i: int|
            {
                let sim = sims[sequence[sequence.len() - 1 - i] as int];
                sim_line(sim, order_timestamp(arrivals, sim.order.id), block_time)
            },
    )
}

/// The report on the simulated orders, the most profitable one first.
pub open spec fn is_sim_report(
    sims: Seq<SimOrderReport>,
    arrivals: Seq<(OrderId, u64)>,
    block_time: u64,
    lines: Seq<Seq<char>>,
) -> bool {
    exists|sequence: Seq<usize>| #[trigger]
        is_stable_order(sim_profits(sims), sequence) && lines == seq![
            "Simulated orders: ("@ + decimal(sims.len()) + " total)"@,
        ] + sim_lines(sims, arrivals, sequence, block_time, sequence.len() as int) + seq![
            Seq::empty(),
        ]
}

/// Reports the simulated orders, the most profitable one first; `arrivals` says when the orders
/// came in.
pub fn print_simulated_orders(
    sims: &Vec<SimOrderReport>,
    arrivals: &Vec<(OrderId, u64)>,
    block_time: u64,
) -> (lines: Vec<String>)
    requires
        forall|i: int|
            0 <= i < sims@.len() ==> crate::backtest::has_slot_time(
                order_timestamp(arrivals@, (#[trigger] sims@[i]).order.id),
                block_time,
            ),
    ensures
        is_sim_report(sims@, arrivals@, block_time, lines_in(lines@)),
{
    let timestamps: AhashMap<u64> = timestamps_of(arrivals);
    let mut profits: Vec<U256> = Vec::new();
    for i in 0..sims.len()
        invariant
            profits@.len() == i,
            forall|j: int|
                0 <= j < i ==> #[trigger] profits@[j] == sims@[j].full.coinbase_profit,
    {
        profits.push(sims[i].full.coinbase_profit);
    }
    assert(ranks(profits@) =~= sim_profits(sims@));
    let sequence = sorted_indices(profits);
    let mut lines: Vec<String> = Vec::new();
    let mut begin = chars_of("Simulated orders: (");
    append_chars(&mut begin, decimal_chars(sims.len() as u128));
    append_text(&mut begin, " total)");
    push_line(&mut lines, &begin);
    let ghost head = lines_in(lines@);
    assert(head =~= seq!["Simulated orders: ("@ + decimal(sims@.len()) + " total)"@]);
    assert(head + sim_lines(sims@, arrivals@, sequence@, block_time, 0) =~= head);
    for k in 0..sequence.len()
        invariant
            is_stable_order(sim_profits(sims@), sequence@),
            forall|i: int|
                0 <= i < sims@.len() ==> crate::backtest::has_slot_time(
                    order_timestamp(arrivals@, (#[trigger] sims@[i]).order.id),
                    block_time,
                ),
            forall|id: OrderId| #[trigger]
                crate::backtest::timestamp_in(timestamps@, id) == order_timestamp(arrivals@, id),
            lines_in(lines@) == head + sim_lines(
                sims@,
                arrivals@,
                sequence@,
                block_time,
                k as int,
            ),
    {
        let place: usize = sequence[sequence.len() - 1 - k];
        assert((sequence@[sequence@.len() - 1 - k] as int) < sims@.len());
        let sim = &sims[place];
        assert(crate::backtest::timestamp_in(timestamps@, sim.order.id) == order_timestamp(
            arrivals@,
            sim.order.id,
        ));
        let timestamp: u64 = match map_get(&timestamps, &key_of_order(sim.order.id)) {
            Some(timestamp) => *timestamp,
            None => 0,
        };
        let mut line = pad_start(chars_of(sim.order.id_text.as_str()), 74);
        append_text(&mut line, " slot_time_ms: ");
        let slot: i64 = timestamp_ms_to_slot_time(timestamp, block_time);
        append_chars(&mut line, pad_start(signed_decimal_chars(slot), 8));
        append_text(&mut line, ", gas: ");
        append_chars(&mut line, pad_start(decimal_chars(sim.gas_used as u128), 8));
        append_text(&mut line, " profit: ");
        append_text(&mut line, format_ether(sim.full.coinbase_profit).as_str());
        push_line(&mut lines, &line);
        assert(lines_in(lines@) =~= head + sim_lines(
            sims@,
            arrivals@,
            sequence@,
            block_time,
            k + 1,
        ));
    }
    let empty: Vec<char> = Vec::new();
    push_line(&mut lines, &empty);
    proof {
        assert(lines_in(lines@) =~= seq![
            "Simulated orders: ("@ + decimal(sims@.len()) + " total)"@,
        ] + sim_lines(sims@, arrivals@, sequence@, block_time, sequence@.len() as int) + seq![
            Seq::empty(),
        ]);
    }
    lines
}

/// The line that says what the price of the blocker is.
pub open spec fn mev_blocker_price_text(price: U256) -> Seq<char> {
    "mev_blocker_price "@ + ether_text(price.value())
}

/// Writes [`mev_blocker_price_text`].
pub fn mev_blocker_price_line(price: U256) -> (r: String)
    ensures
        r@ == mev_blocker_price_text(price),
{
    let mut out = chars_of("mev_blocker_price ");
    append_text(&mut out, format_ether(price).as_str());
    text_of(&out)
}

/// The line that says how many orders are available.
pub open spec fn available_orders_text(count: usize) -> Seq<char> {
    "Available orders: "@ + decimal(count as nat)
}

/// Writes [`available_orders_text`].
pub fn available_orders_line(count: usize) -> (r: String)
    ensures
        r@ == available_orders_text(count),
{
    let mut out = chars_of("Available orders: ");
    append_chars(&mut out, decimal_chars(count as u128));
    text_of(&out)
}

/// The line that says what a builder's block is worth.
pub open spec fn builder_profit_text(profit: U256) -> Seq<char> {
    "Builder profit: "@ + ether_text(profit.value())
}

/// Writes [`builder_profit_text`].
pub fn builder_profit_line(profit: U256) -> (r: String)
    ensures
        r@ == builder_profit_text(profit),
{
    let mut out = chars_of("Builder profit: ");
    append_text(&mut out, format_ether(profit).as_str());
    text_of(&out)
}

/// The line that says how long a builder took.
pub open spec fn builder_time_text(milliseconds: u64) -> Seq<char> {
    "Builder time:   "@ + decimal(milliseconds as nat) + " ms"@
}

/// Writes [`builder_time_text`].
pub fn builder_time_line(milliseconds: u64) -> (r: String)
    ensures
        r@ == builder_time_text(milliseconds),
{
    let mut out = chars_of("Builder time:   ");
    append_chars(&mut out, decimal_chars(milliseconds as u128));
    append_text(&mut out, " ms");
    text_of(&out)
}

/// The line that says how many orders are in a builder's block.
pub open spec fn used_orders_text(count: usize) -> Seq<char> {
    "Number of used orders: "@ + decimal(count as nat)
}

/// Writes [`used_orders_text`].
pub fn used_orders_line(count: usize) -> (r: String)
    ensures
        r@ == used_orders_text(count),
{
    let mut out = chars_of("Number of used orders: ");
    append_chars(&mut out, decimal_chars(count as u128));
    text_of(&out)
}

/// The line that names the builder that wins.
pub open spec fn winner_text(builder_name: Seq<char>, profit: U256) -> Seq<char> {
    "Winning builder: "@ + builder_name + " with profit: "@ + ether_text(profit.value())
}

/// Writes [`winner_text`].
pub fn winner_line(builder_name: &str, profit: U256) -> (r: String)
    ensures
        r@ == winner_text(builder_name@, profit),
{
    let mut out = chars_of("Winning builder: ");
    append_text(&mut out, builder_name);
    append_text(&mut out, " with profit: ");
    append_text(&mut out, format_ether(profit).as_str());
    text_of(&out)
}

/// The first line of a file of graph statistics.
pub open spec fn graph_stats_header() -> Seq<char> {
    "block_number,builder_name,group_id,algorithm,original_order_count,selected_order_count,edge_count,density,max_degree,has_missing_traces,orientation_eligible,random_task_added,candidate_sequence_count,best_profit"@
}

/// Writes [`graph_stats_header`].
pub fn graph_stats_header_line() -> (r: String)
    ensures
        r@ == graph_stats_header(),
{
    String::from_str(
        "block_number,builder_name,group_id,algorithm,original_order_count,selected_order_count,edge_count,density,max_degree,has_missing_traces,orientation_eligible,random_task_added,candidate_sequence_count,best_profit",
    )
}

/// What a line of graph statistics holds beside the record.
pub struct GraphStatsContext<'a> {
    pub block_number: u64,
    pub builder_name: &'a str,
    /// The density of the graph, with six decimal places.
    pub density: &'a str,
    pub orientation_eligible: bool,
    pub random_task_added: bool,
}

/// A number as text, or nothing where there is none.
pub open spec fn optional_count_text(n: Option<usize>) -> Seq<char> {
    match n {
        Some(n) => decimal(n as nat),
        None => Seq::empty(),
    }
}

/// An amount as text, or nothing where there is none.
pub open spec fn optional_amount_text(n: Option<U256>) -> Seq<char> {
    match n {
        Some(n) => decimal(n.value()),
        None => Seq::empty(),
    }
}

/// The line of graph statistics about a record.
pub open spec fn graph_stats_row(
    context: GraphStatsContext<'_>,
    record: DefaultGraphStudyRecord,
) -> Seq<char> {
    decimal(context.block_number as nat) + ","@ + context.builder_name@ + ","@ + decimal(
        record.group_id as nat,
    ) + ","@ + record.algorithm@ + ","@ + decimal(record.original_order_count as nat) + ","@
        + decimal(record.selected_order_count as nat) + ","@ + decimal(record.edge_count as nat)
        + ","@ + context.density@ + ","@ + decimal(record.max_degree as nat) + ","@ + bool_text(
        record.has_missing_traces,
    ) + ","@ + bool_text(context.orientation_eligible) + ","@ + bool_text(
        context.random_task_added,
    ) + ","@ + optional_count_text(record.candidate_sequence_count) + ","@
        + optional_amount_text(record.best_profit)
}

/// Writes [`graph_stats_row`].
pub fn graph_stats_line(context: &GraphStatsContext<'_>, record: &DefaultGraphStudyRecord) -> (r:
    String)
    ensures
        r@ == graph_stats_row(*context, *record),
{
    let mut out = decimal_chars(context.block_number as u128);
    append_text(&mut out, ",");
    append_text(&mut out, context.builder_name);
    append_text(&mut out, ",");
    append_chars(&mut out, decimal_chars(record.group_id as u128));
    append_text(&mut out, ",");
    append_text(&mut out, record.algorithm.as_str());
    append_text(&mut out, ",");
    append_chars(&mut out, decimal_chars(record.original_order_count as u128));
    append_text(&mut out, ",");
    append_chars(&mut out, decimal_chars(record.selected_order_count as u128));
    append_text(&mut out, ",");
    append_chars(&mut out, decimal_chars(record.edge_count as u128));
    append_text(&mut out, ",");
    append_text(&mut out, context.density);
    append_text(&mut out, ",");
    append_chars(&mut out, decimal_chars(record.max_degree as u128));
    append_text(&mut out, ",");
    append_chars(&mut out, bool_chars(record.has_missing_traces));
    append_text(&mut out, ",");
    append_chars(&mut out, bool_chars(context.orientation_eligible));
    append_text(&mut out, ",");
    append_chars(&mut out, bool_chars(context.random_task_added));
    append_text(&mut out, ",");
    if let Some(count) = record.candidate_sequence_count {
        append_chars(&mut out, decimal_chars(count as u128));
    }
    append_text(&mut out, ",");
    if let Some(profit) = record.best_profit {
        append_text(&mut out, format_amount(profit).as_str());
    }
    assert(out@ =~= graph_stats_row(*context, *record));
    text_of(&out)
}

} // verus!
