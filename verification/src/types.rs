//! The plain data of block building: amounts, identifiers, simulated orders and the tasks that
//! are built from groups of conflicting orders.
use std::sync::Arc;
use vstd::prelude::*;

verus! {

/// One more than the largest value of a `u128`.
pub open spec fn two_to_128() -> nat {
    0x1_0000_0000_0000_0000_0000_0000_0000_0000nat
}

/// One more than the largest value of a [`U256`].
pub open spec fn two_to_256() -> nat {
    two_to_128() * two_to_128()
}

/// A 256-bit unsigned integer: `high * 2^128 + low`.
#[derive(Clone, Copy, Debug, PartialEq, Eq, Structural, Hash)]
pub struct U256 {
    pub high: u128,
    pub low: u128,
}

impl U256 {
    /// The number that the two halves stand for.
    pub open spec fn value(self) -> nat {
        self.high as nat * two_to_128() + self.low as nat
    }

    /// The number zero.
    pub fn zero() -> (r: U256)
        ensures
            r.value() == 0,
            r == (U256 { high: 0, low: 0 }),
    {
        U256 { high: 0, low: 0 }
    }

    /// Whether this number is below `other`.
    pub fn is_less_than(self, other: U256) -> (r: bool)
        ensures
            r == (self.value() < other.value()),
    {
        proof {
            lemma_high_decides(self, other);
            lemma_high_decides(other, self);
        }
        self.high < other.high || (self.high == other.high && self.low < other.low)
    }

    /// The sum, reduced modulo `2^256`.
    pub fn wrapping_sum(self, other: U256) -> (r: U256)
        ensures
            r.value() == (self.value() + other.value()) % two_to_256(),
    {
        let low: u128 = self.low.wrapping_add(other.low);
        let carry: u128 = if low < self.low {
            1
        } else {
            0
        };
        let high: u128 = self.high.wrapping_add(other.high).wrapping_add(carry);
        let r = U256 { high, low };
        proof {
            let b = two_to_128() as int;
            let sum_low = self.low + other.low;
            assert(low == sum_low - carry * b);
            let sum_high = self.high + other.high + carry;
            let k: int = if sum_high < b {
                0
            } else {
                1
            };
            assert(high == sum_high - k * b);
            let total = (self.value() + other.value()) as int;
            assert(total == k * (b * b) + (high * b + low)) by (nonlinear_arith)
                requires
                    total == (self.high * b + self.low) + (other.high * b + other.low),
                    low == self.low + other.low - carry * b,
                    high == self.high + other.high + carry - k * b,
            ;
            assert(0 <= high * b + low < b * b) by (nonlinear_arith)
                requires
                    0 <= high < b,
                    0 <= low < b,
            ;
            vstd::arithmetic::div_mod::lemma_fundamental_div_mod_converse(
                total,
                b * b,
                k,
                high * b + low,
            );
        }
        r
    }
}

proof fn lemma_high_decides(a: U256, b: U256)
    ensures
        a.high < b.high ==> a.value() < b.value(),
        a.value() == b.value() ==> a == b,
{
    let base = two_to_128() as int;
    if a.high < b.high {
        assert(a.high * base + a.low < b.high * base + b.low) by (nonlinear_arith)
            requires
                a.high + 1 <= b.high,
                0 <= a.low < base,
                0 <= b.low,
        ;
    }
    if a.value() == b.value() && a.high != b.high {
        assert(a.high * base + a.low != b.high * base + b.low) by (nonlinear_arith)
            requires
                a.high != b.high,
                0 <= a.low < base,
                0 <= b.low < base,
        ;
    }
}

/// Every number is below `2^256`.
pub proof fn lemma_value_bound(a: U256)
    ensures
        a.value() < two_to_256(),
{
    let base = two_to_128() as int;
    assert(a.high * base + a.low < base * base) by (nonlinear_arith)
        requires
            0 <= a.high < base,
            0 <= a.low < base,
    ;
}

impl From<u64> for U256 {
    fn from(x: u64) -> (r: U256) {
        U256 { high: 0, low: x as u128 }
    }
}

impl vstd::std_specs::convert::FromSpecImpl<u64> for U256 {
    open spec fn obeys_from_spec() -> bool {
        true
    }

    open spec fn from_spec(x: u64) -> U256 {
        U256 { high: 0, low: x as u128 }
    }
}

/// A 256-bit hash: the first sixteen bytes, then the last sixteen, each read big-endian.
#[derive(Clone, Copy, Debug, PartialEq, Eq, Structural, Hash)]
pub struct B256 {
    pub high: u128,
    pub low: u128,
}

/// A 160-bit account address: the first four bytes, then the last sixteen, each read big-endian.
#[derive(Clone, Copy, Debug, PartialEq, Eq, Structural, Hash)]
pub struct Address {
    pub high: u32,
    pub low: u128,
}

/// The identifier of an order.
#[derive(Clone, Copy, Debug, PartialEq, Eq, Structural, Hash)]
pub struct OrderId {
    pub hash: B256,
}

/// A nonce that an order uses.
#[derive(Clone, Copy, Debug, PartialEq, Eq, Structural, Hash)]
pub struct Nonce {
    pub address: Address,
    pub nonce: u64,
}

/// A storage slot of an account.
#[derive(Clone, Copy, Debug, PartialEq, Eq, Structural, Hash)]
pub struct SlotKey {
    pub address: Address,
    pub key: B256,
}

/// The state that the simulation of an order touched.
#[derive(Debug)]
pub struct UsedStateTrace {
    /// Slots that were read.
    pub read_slots: Vec<SlotKey>,
    /// Slots that were written.
    pub written_slots: Vec<SlotKey>,
    /// Contracts that were created.
    pub created_contracts: Vec<Address>,
    /// Contracts that were destructed.
    pub destructed_contracts: Vec<Address>,
}

/// An order with the outcome of its simulation at the top of the block.
#[derive(Debug)]
pub struct SimulatedOrder {
    pub id: OrderId,
    /// The nonces that the order's transactions use.
    pub nonces: Vec<Nonce>,
    /// The number of transactions in the order.
    pub tx_count: usize,
    /// What the coinbase gains from the order.
    pub coinbase_profit: U256,
    /// The coinbase profit per unit of gas.
    pub mev_gas_price: U256,
    /// The state that the simulation touched, where it was traced.
    pub used_state_trace: Option<UsedStateTrace>,
}

/// The identifier of a conflict group.
pub type GroupId = usize;

/// A group of orders that conflict with one another.
#[derive(Debug)]
pub struct ConflictGroup {
    pub id: GroupId,
    pub orders: Arc<Vec<Arc<SimulatedOrder>>>,
    pub conflicting_group_ids: Arc<Vec<GroupId>>,
}

impl Clone for ConflictGroup {
    fn clone(&self) -> (r: ConflictGroup)
        ensures
            r == *self,
    {
        ConflictGroup {
            id: self.id,
            orders: self.orders.clone(),
            conflicting_group_ids: self.conflicting_group_ids.clone(),
        }
    }
}

/// How urgently a task should be run.
#[derive(Clone, Copy, Debug, PartialEq, Eq, Structural)]
pub enum TaskPriority {
    Low,
    Medium,
    High,
}

/// The way in which candidate sequences of a group's orders are made.
#[derive(Clone, Copy, Debug, PartialEq, Eq, Structural)]
pub enum Algorithm {
    /// By decreasing profit, then by decreasing gas price.
    Greedy,
    /// By increasing profit, then by increasing gas price.
    ReverseGreedy,
    /// By decreasing number of transactions.
    Length,
    /// Every permutation.
    AllPermutations,
    /// Solves samples of the group and what they leave over, one after another.
    RecursiveDefault,
    /// A number of random permutations.
    Random { seed: u64, count: usize },
    /// Every permutation that keeps the nonce order.
    PermutationsWithNonces,
    /// The most profitable order alone.
    BestOfN,
}

/// A conflict group together with the algorithm that is to resolve it.
#[derive(Debug)]
pub struct ConflictTask {
    pub group_idx: usize,
    pub algorithm: Algorithm,
    pub priority: TaskPriority,
    pub group: ConflictGroup,
    /// When the task was made, in milliseconds.
    pub created_at: u64,
}

/// The outcome of trying a sequence: the orders that went in, each with its profit.
#[derive(Debug)]
pub struct ResolutionResult {
    pub total_profit: U256,
    pub sequence_of_orders: Vec<(usize, U256)>,
}

} // verus!
