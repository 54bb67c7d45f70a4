//! Running a sequence of orders through a block: an order whose nonce is still too high waits
//! until a committed order brings the nonce up, and is then tried again.
use std::sync::Arc;
use vstd::prelude::*;

use crate::hash_maps::{
    key_of_nonce, key_of_order, map_get, map_insert, map_new, map_remove, nonce_key, order_key,
    AhashMap, MapKey,
};
use crate::orderings::all_below;
use crate::types::{Address, ConflictTask, OrderId, ResolutionResult, SimulatedOrder, U256};

verus! {

/// What became of an order that was to be committed.
#[derive(Debug)]
pub enum CommitOutcome {
    /// It went in: the nonces that are expected next, and what the coinbase gained.
    Committed { nonces_updated: Vec<(Address, u64)>, coinbase_profit: U256 },
    /// It did not go in; where its nonce was too high, the nonce that has to be reached first.
    Failed { nonce_too_high: Option<(Address, u64)> },
}

/// What is kept of a sequence that was run before.
#[derive(Debug)]
pub struct CachedSimulationState {
    pub total_profit: U256,
    pub per_order_profits: Vec<(OrderId, U256)>,
}

/// The state of a run: which orders are to be tried, which wait for a nonce, and what went in.
#[derive(Debug)]
pub struct SequenceRun {
    /// The orders to try, the next one last.
    pub remaining: Vec<usize>,
    /// The orders that wait, by the nonce that they wait for.
    pub pending: AhashMap<usize>,
    /// The orders that went in, each with its profit.
    pub sequenced: Vec<(usize, U256)>,
    /// The profit of all that went in.
    pub total_profit: U256,
    /// The identifiers of the orders that went in, each with its profit.
    pub per_order_profits: Vec<(OrderId, U256)>,
}

/// The contents of a [`SequenceRun`].
#[verifier::ext_equal]
pub struct RunState {
    pub remaining: Seq<usize>,
    pub pending: Map<MapKey, usize>,
    pub sequenced: Seq<(usize, U256)>,
    pub total_profit: nat,
    pub per_order_profits: Seq<(OrderId, U256)>,
}

impl View for SequenceRun {
    type V = RunState;

    open spec fn view(&self) -> RunState {
        RunState {
            remaining: self.remaining@,
            pending: self.pending@,
            sequenced: self.sequenced@,
            total_profit: self.total_profit.value(),
            per_order_profits: self.per_order_profits@,
        }
    }
}

/// The orders to try and the orders that wait, after the first `k` nonces have been reached: each
/// order that waited for one of them is to be tried next.
pub open spec fn released(
    remaining: Seq<usize>,
    pending: Map<MapKey, usize>,
    nonces: Seq<(Address, u64)>,
    k: int,
) -> (Seq<usize>, Map<MapKey, usize>)
    decreases k,
{
    if k <= 0 {
        (remaining, pending)
    } else {
        let (r, p) = released(remaining, pending, nonces, k - 1);
        let key = nonce_key(nonces[k - 1].0, nonces[k - 1].1);
        if p.contains_key(key) {
            (r.push(p[key]), p.remove(key))
        } else {
            (r, p)
        }
    }
}

impl RunState {
    /// The state once order `order` has gone in.
    pub open spec fn after_commit(
        self,
        order: usize,
        id: OrderId,
        nonces: Seq<(Address, u64)>,
        profit: U256,
    ) -> RunState {
        let (remaining, pending) = released(
            self.remaining,
            self.pending,
            nonces,
            nonces.len() as int,
        );
        RunState {
            remaining,
            pending,
            sequenced: self.sequenced.push((order, profit)),
            total_profit: (self.total_profit + profit.value()) % crate::types::two_to_256(),
            per_order_profits: self.per_order_profits.push((id, profit)),
        }
    }

    /// The state once order `order` has failed.
    pub open spec fn after_failure(
        self,
        order: usize,
        nonce_too_high: Option<(Address, u64)>,
    ) -> RunState {
        match nonce_too_high {
            Some(nonce) => RunState {
                pending: self.pending.insert(nonce_key(nonce.0, nonce.1), order),
                ..self
            },
            None => self,
        }
    }

    /// The state once the next order has been taken.
    pub open spec fn taken(self) -> RunState {
        RunState { remaining: self.remaining.drop_last(), ..self }
    }

    /// The state once the next order has been tried.
    pub open spec fn after(
        self,
        orders: Seq<Arc<SimulatedOrder>>,
        outcome: CommitOutcome,
    ) -> RunState {
        let order = self.remaining.last();
        match outcome {
            CommitOutcome::Committed { nonces_updated, coinbase_profit } =>
            self.taken().after_commit(
                order,
                orders[order as int].id,
                nonces_updated@,
                coinbase_profit,
            ),
            CommitOutcome::Failed { nonce_too_high } => self.taken().after_failure(
                order,
                nonce_too_high,
            ),
        }
    }

    /// The state once the next orders have been tried with the given outcomes.
    pub open spec fn after_all(
        self,
        orders: Seq<Arc<SimulatedOrder>>,
        outcomes: Seq<CommitOutcome>,
    ) -> RunState
        decreases outcomes.len(),
    {
        if outcomes.len() == 0 {
            self
        } else {
            self.after_all(orders, outcomes.drop_last()).after(orders, outcomes.last())
        }
    }

    /// The run has an order to try before each of the outcomes.
    pub open spec fn admits(
        self,
        orders: Seq<Arc<SimulatedOrder>>,
        outcomes: Seq<CommitOutcome>,
    ) -> bool {
        forall|k: int|
            0 <= k < outcomes.len() ==> (#[trigger] self.after_all(
                orders,
                outcomes.take(k),
            )).remaining.len() > 0
    }
}

impl SequenceRun {
    /// Takes in that order `order_idx` went in: the orders that waited for one of the nonces are
    /// tried next, and the profit is added.
    pub fn handle_successful_commit(
        &mut self,
        nonces_updated: &Vec<(Address, u64)>,
        coinbase_profit: U256,
        order_id: OrderId,
        order_idx: usize,
    )
        ensures
            final(self)@ == old(self)@.after_commit(
                order_idx,
                order_id,
                nonces_updated@,
                coinbase_profit,
            ),
    {
        let ghost before = self@;
        for k in 0..nonces_updated.len()
            invariant
                (self.remaining@, self.pending@) == released(
                    before.remaining,
                    before.pending,
                    nonces_updated@,
                    k as int,
                ),
                self.sequenced@ == before.sequenced,
                self.total_profit.value() == before.total_profit,
                self.per_order_profits@ == before.per_order_profits,
        {
            let nonce = nonces_updated[k];
            assert(nonces_updated@[k as int] == nonce);
            match map_remove(&mut self.pending, &key_of_nonce(nonce.0, nonce.1)) {
                Some(order) => {
                    self.remaining.push(order);
                },
                None => {
                    assert(self.pending@ =~= released(
                        before.remaining,
                        before.pending,
                        nonces_updated@,
                        k as int,
                    ).1);
                },
            }
        }
        self.total_profit = self.total_profit.wrapping_sum(coinbase_profit);
        self.per_order_profits.push((order_id, coinbase_profit));
        self.sequenced.push((order_idx, coinbase_profit));
    }

    /// Takes in that order `order_idx` failed: where its nonce was too high it waits for the
    /// nonce, in place of any other order that waited for it; otherwise it is dropped.
    pub fn handle_err(&mut self, nonce_too_high: Option<(Address, u64)>, order_idx: usize)
        ensures
            final(self)@ == old(self)@.after_failure(order_idx, nonce_too_high),
    {
        if let Some(nonce) = nonce_too_high {
            map_insert(&mut self.pending, key_of_nonce(nonce.0, nonce.1), order_idx);
        }
    }
}

/// The last order with the identifier.
pub open spec fn order_position(orders: Seq<Arc<SimulatedOrder>>, id: OrderId) -> Option<int>
    decreases orders.len(),
{
    if orders.len() == 0 {
        None
    } else if orders.last().id == id {
        Some(orders.len() - 1)
    } else {
        order_position(orders.drop_last(), id)
    }
}

/// What the map says of an identifier.
pub open spec fn position_in(m: Map<MapKey, usize>, id: OrderId) -> Option<int> {
    if m.contains_key(order_key(id)) {
        Some(m[order_key(id)] as int)
    } else {
        None
    }
}

/// Maps the identifiers of the task's orders to their positions.
pub(crate) fn initialize_order_id_to_index_map(task: &ConflictTask) -> (m: AhashMap<usize>)
    ensures
        forall|id: OrderId| #[trigger]
            position_in(m@, id) == order_position(task.group.orders@, id),
{
    let orders = &task.group.orders;
    let mut m: AhashMap<usize> = map_new();
    for i in 0..orders.len()
        invariant
            orders == task.group.orders,
            forall|id: OrderId| #[trigger]
                position_in(m@, id) == order_position(orders@.take(i as int), id),
    {
        let ghost before = m@;
        map_insert(&mut m, key_of_order(orders[i].id), i);
        proof {
            let next = orders@.take(i + 1);
            assert(next.drop_last() =~= orders@.take(i as int));
            assert(next.last() == orders@[i as int]);
            assert forall|id: OrderId| #[trigger] position_in(m@, id) == order_position(
                next,
                id,
            ) by {
                assert(position_in(before, id) == order_position(orders@.take(i as int), id));
                if id != orders@[i as int].id {
                    assert(order_key(id) != order_key(orders@[i as int].id));
                }
            }
        }
    }
    assert(orders@.take(orders@.len() as int) =~= orders@);
    m
}

/// The identifiers of the orders in the sequence.
pub open spec fn ids_of(orders: Seq<Arc<SimulatedOrder>>, sequence: Seq<usize>) -> Seq<OrderId> {
    Seq::new(sequence.len(), |i: int| orders[sequence[i] as int].id)
}

/// Lists the identifiers of the orders in the sequence.
pub fn initialize_full_order_ids_vec(sequence_of_orders: &[usize], task: &ConflictTask) -> (r: Vec<
    OrderId,
>)
    requires
        all_below(sequence_of_orders@, task.group.orders@.len() as int),
    ensures
        r@ == ids_of(task.group.orders@, sequence_of_orders@),
{
    let mut r: Vec<OrderId> = Vec::new();
    for i in 0..sequence_of_orders.len()
        invariant
            all_below(sequence_of_orders@, task.group.orders@.len() as int),
            r@ == ids_of(task.group.orders@, sequence_of_orders@.take(i as int)),
    {
        r.push(task.group.orders[sequence_of_orders[i]].id);
        assert(r@ =~= ids_of(task.group.orders@, sequence_of_orders@.take(i + 1)));
    }
    assert(sequence_of_orders@.take(sequence_of_orders@.len() as int) =~= sequence_of_orders@);
    r
}

/// The profits of the orders that the task knows, by position.
pub open spec fn known_profits(
    orders: Seq<Arc<SimulatedOrder>>,
    profits: Seq<(OrderId, U256)>,
) -> Seq<(usize, U256)>
    decreases profits.len(),
{
    if profits.len() == 0 {
        Seq::empty()
    } else {
        let earlier = known_profits(orders, profits.drop_last());
        match order_position(orders, profits.last().0) {
            Some(i) => earlier.push((i as usize, profits.last().1)),
            None => earlier,
        }
    }
}

/// The orders that went in before, as far as the task knows them, each with its profit.
fn initialize_result_order_sequence(
    cached: Option<&CachedSimulationState>,
    task: &ConflictTask,
) -> (r: Vec<(usize, U256)>)
    ensures
        r@ == match cached {
            Some(state) => known_profits(task.group.orders@, state.per_order_profits@),
            None => Seq::empty(),
        },
{
    let mut r: Vec<(usize, U256)> = Vec::new();
    if let Some(state) = cached {
        let positions = initialize_order_id_to_index_map(task);
        let ghost orders = task.group.orders@;
        for i in 0..state.per_order_profits.len()
            invariant
                orders == task.group.orders@,
                forall|id: OrderId| #[trigger]
                    position_in(positions@, id) == order_position(orders, id),
                r@ == known_profits(orders, state.per_order_profits@.take(i as int)),
        {
            let entry = state.per_order_profits[i];
            proof {
                let next = state.per_order_profits@.take(i + 1);
                assert(next.drop_last() =~= state.per_order_profits@.take(i as int));
                assert(next.last() == entry);
                assert(position_in(positions@, entry.0) == order_position(orders, entry.0));
            }
            if let Some(position) = map_get(&positions, &key_of_order(entry.0)) {
                r.push((*position, entry.1));
            }
        }
        assert(state.per_order_profits@.take(state.per_order_profits@.len() as int)
            =~= state.per_order_profits@);
    }
    r
}

/// The state of a run before its first order: what went in before is taken over, and the sequence
/// from `from` on is to be tried.
pub open spec fn start_of(
    orders: Seq<Arc<SimulatedOrder>>,
    sequence: Seq<usize>,
    cached: Option<&CachedSimulationState>,
    from: int,
) -> RunState {
    RunState {
        remaining: sequence.skip(from).reverse(),
        pending: Map::empty(),
        sequenced: match cached {
            Some(state) => known_profits(orders, state.per_order_profits@),
            None => Seq::empty(),
        },
        total_profit: match cached {
            Some(state) => state.total_profit.value(),
            None => 0,
        },
        per_order_profits: match cached {
            Some(state) => state.per_order_profits@,
            None => Seq::empty(),
        },
    }
}

impl SequenceRun {
    /// Prepares to run the sequence from `cached_up_to_index` on, after what went in before.
    pub fn start(
        sequence_of_orders: &Vec<usize>,
        task: &ConflictTask,
        cached: Option<&CachedSimulationState>,
        cached_up_to_index: usize,
    ) -> (run: SequenceRun)
        requires
            cached_up_to_index <= sequence_of_orders@.len(),
        ensures
            run@ == start_of(
                task.group.orders@,
                sequence_of_orders@,
                cached,
                cached_up_to_index as int,
            ),
    {
        let sequenced = initialize_result_order_sequence(cached, task);
        let mut per_order_profits: Vec<(OrderId, U256)> = Vec::new();
        let mut total_profit: U256 = U256::zero();
        if let Some(state) = cached {
            total_profit = state.total_profit;
            for i in 0..state.per_order_profits.len()
                invariant
                    per_order_profits@ == state.per_order_profits@.take(i as int),
            {
                per_order_profits.push(state.per_order_profits[i]);
                assert(per_order_profits@ =~= state.per_order_profits@.take(i + 1));
            }
            assert(per_order_profits@ =~= state.per_order_profits@);
        }
        let mut remaining: Vec<usize> = Vec::new();
        let mut i: usize = sequence_of_orders.len();
        while i > cached_up_to_index
            invariant
                cached_up_to_index <= i <= sequence_of_orders@.len(),
                remaining@ == sequence_of_orders@.skip(i as int).reverse(),
            decreases i,
        {
            i = i - 1;
            remaining.push(sequence_of_orders[i]);
            assert(remaining@ =~= sequence_of_orders@.skip(i as int).reverse());
        }
        let run = SequenceRun {
            remaining,
            pending: map_new(),
            sequenced,
            total_profit,
            per_order_profits,
        };
        assert(run@ =~= start_of(
            task.group.orders@,
            sequence_of_orders@,
            cached,
            cached_up_to_index as int,
        ));
        run
    }
}

/// Commits orders to a block.
pub trait OrderCommitter {
    type Error;

    /// Whether the work is to be given up.
    fn is_cancelled(&self) -> bool;

    /// Tries to commit an order on top of those that went in before.
    fn commit_order(&mut self, order_idx: usize) -> Result<CommitOutcome, Self::Error>;
}

/// Why a run was broken off.
#[derive(Debug)]
pub enum ProcessError<E> {
    /// The work was given up.
    Cancelled,
    /// An order could not be tried.
    Commit(E),
}

/// A sequence that was run to its end.
#[derive(Debug)]
pub struct ProcessedSequence {
    pub resolution: ResolutionResult,
    /// What can be kept for runs that begin with the same orders.
    pub state: CachedSimulationState,
}

/// The run has come to the given result.
pub open spec fn is_result_of(result: ProcessedSequence, end: RunState) -> bool {
    &&& end.remaining.len() == 0
    &&& result.resolution.total_profit.value() == end.total_profit
    &&& result.resolution.sequence_of_orders@ == end.sequenced
    &&& result.state.total_profit.value() == end.total_profit
    &&& result.state.per_order_profits@ == end.per_order_profits
}

/// The committer says of itself whether the work is to be given up.
pub open spec fn says_cancelled<C: OrderCommitter>(committer: C, answer: bool) -> bool {
    call_ensures(C::is_cancelled, (&committer,), answer)
}

/// A number of a try.
pub open spec fn at(k: int) -> bool {
    true
}

/// What came of a run: its result, or why it was broken off.
pub type RunResult<E> = Result<ProcessedSequence, ProcessError<E>>;

/// What the committer gave for the try with the number: one of the outcomes, or the error that the
/// run was broken off with.
pub open spec fn answer_to<E>(outcomes: Seq<CommitOutcome>, r: RunResult<E>, k: int) -> Result<
    CommitOutcome,
    E,
> {
    if k < outcomes.len() {
        Ok(outcomes[k])
    } else {
        Err(r->Err_0->Commit_0)
    }
}

/// What comes of a run in which the orders `tries` were tried, with the outcomes, while the
/// committer went through the states. Each order was tried when its turn came, and before that the
/// committer said that the work is not to be given up. In the end no order was left, or the work
/// was to be given up, or the last try could not be made.
pub open spec fn is_run<C: OrderCommitter>(
    start: RunState,
    orders: Seq<Arc<SimulatedOrder>>,
    tries: Seq<usize>,
    outcomes: Seq<CommitOutcome>,
    states: Seq<C>,
    r: RunResult<C::Error>,
) -> bool {
    let end = start.after_all(orders, outcomes);
    let done = outcomes.len() as int;
    &&& start.admits(orders, outcomes)
    &&& states.len() == tries.len() + 1
    &&& forall|k: int| #[trigger]
        at(k) && 0 <= k < tries.len() ==> says_cancelled(states[k], false) && tries[k]
            == start.after_all(orders, outcomes.take(k)).remaining.last()
    &&& match r {
        Ok(result) => tries.len() == done && is_result_of(result, end),
        Err(ProcessError::Cancelled) => tries.len() == done && end.remaining.len() > 0
            && says_cancelled(states[done], true),
        Err(ProcessError::Commit(_)) => tries.len() == done + 1 && end.remaining.len() > 0,
    }
}

/// Every order to try, and every order that waits, is below `n`.
pub open spec fn run_below(state: RunState, n: int) -> bool {
    &&& all_below(state.remaining, n)
    &&& forall|key: MapKey| #[trigger] state.pending.contains_key(key) ==> state.pending[key] < n
}

proof fn lemma_released(
    remaining: Seq<usize>,
    pending: Map<MapKey, usize>,
    nonces: Seq<(Address, u64)>,
    k: int,
    n: int,
)
    requires
        pending.dom().finite(),
        0 <= k <= nonces.len(),
        all_below(remaining, n),
        forall|key: MapKey| #[trigger] pending.contains_key(key) ==> pending[key] < n,
    ensures
        ({
            let (r, p) = released(remaining, pending, nonces, k);
            &&& p.dom().finite()
            &&& r.len() + p.dom().len() == remaining.len() + pending.dom().len()
            &&& all_below(r, n)
            &&& forall|key: MapKey| #[trigger] p.contains_key(key) ==> p[key] < n
        }),
    decreases k,
{
    if k > 0 {
        lemma_released(remaining, pending, nonces, k - 1, n);
        let (r, p) = released(remaining, pending, nonces, k - 1);
        let key = nonce_key(nonces[k - 1].0, nonces[k - 1].1);
        if p.contains_key(key) {
            assert(p.remove(key).dom() =~= p.dom().remove(key));
        }
    }
}

/// Runs the sequence from `cached_up_to_index` on. Each order is tried in turn, unless the work is
/// to be given up by then; one whose nonce is too high is tried again once the nonce has been
/// reached.
pub fn process_sequence_of_orders<C: OrderCommitter>(
    sequence_of_orders: &Vec<usize>,
    task: &ConflictTask,
    cached: Option<&CachedSimulationState>,
    cached_up_to_index: usize,
    committer: &mut C,
) -> (r: Result<ProcessedSequence, ProcessError<C::Error>>)
    requires
        all_below(sequence_of_orders@, task.group.orders@.len() as int),
        cached_up_to_index <= sequence_of_orders@.len(),
    ensures
        exists|tries: Seq<usize>, outcomes: Seq<CommitOutcome>, states: Seq<C>|
            {
                &&& #[trigger] is_run(
                    start_of(
                        task.group.orders@,
                        sequence_of_orders@,
                        cached,
                        cached_up_to_index as int,
                    ),
                    task.group.orders@,
                    tries,
                    outcomes,
                    states,
                    r,
                )
                &&& states[0] == *old(committer)
                &&& states.last() == *final(committer)
                &&& forall|k: int| #[trigger]
                    at(k) && 0 <= k < tries.len() ==> exists|c: &mut C| #[trigger]
                        call_ensures(
                            C::commit_order,
                            (c, tries[k]),
                            answer_to(outcomes, r, k),
                        ) && *c == states[k] && *final(c) == states[k + 1]
            },
{
    let ghost orders = task.group.orders@;
    let ghost n = orders.len() as int;
    let mut run = SequenceRun::start(sequence_of_orders, task, cached, cached_up_to_index);
    let ghost start = run@;
    let ghost mut outcomes: Seq<CommitOutcome> = Seq::empty();
    let ghost mut tries: Seq<usize> = Seq::empty();
    let ghost mut states: Seq<C> = seq![*committer];
    proof {
        assert forall|i: int| 0 <= i < run@.remaining.len() implies (
        #[trigger] run@.remaining[i] as int) < n by {
            let rest = sequence_of_orders@.skip(cached_up_to_index as int);
            assert(run@.remaining[i] == rest[rest.len() - 1 - i]);
        }
    }
    while run.remaining.len() > 0
        invariant
            orders == task.group.orders@,
            n == orders.len(),
            start == start_of(orders, sequence_of_orders@, cached, cached_up_to_index as int),
            run@ == start.after_all(orders, outcomes),
            start.admits(orders, outcomes),
            tries.len() == outcomes.len(),
            states.len() == tries.len() + 1,
            states[0] == *old(committer),
            states.last() == *committer,
            forall|k: int| #[trigger]
                at(k) && 0 <= k < tries.len() ==> says_cancelled(states[k], false) && tries[k]
                    == start.after_all(orders, outcomes.take(k)).remaining.last(),
            forall|k: int| #[trigger]
                at(k) && 0 <= k < tries.len() ==> exists|c: &mut C| #[trigger]
                    call_ensures(C::commit_order, (c, tries[k]), Ok(outcomes[k])) && *c == states[k]
                        && *final(c) == states[k + 1],
            run_below(run@, n),
            run@.pending.dom().finite(),
        decreases run@.remaining.len() + run@.pending.dom().len(), run@.remaining.len(),
    {
        let ghost before = run@;
        let ghost state = *committer;
        let popped = run.remaining.pop();
        let order_idx: usize = popped.unwrap();
        assert(before.remaining.last() == order_idx);
        if committer.is_cancelled() {
            assert(says_cancelled(state, true));
            assert(is_run(
                start,
                orders,
                tries,
                outcomes,
                states,
                Err(ProcessError::Cancelled),
            ));
            return Err(ProcessError::Cancelled);
        }
        assert(says_cancelled(state, false));
        let answer = committer.commit_order(order_idx);
        let ghost given = answer;
        let ghost after = *committer;
        assert(exists|c: &mut C| #[trigger]
            call_ensures(C::commit_order, (c, order_idx), given) && *c == state && *final(c)
                == after);
        let ghost last = tries.len() as int;
        let ghost all_tries = tries.push(order_idx);
        let ghost all_states = states.push(after);
        proof {
            assert(outcomes.take(last) =~= outcomes);
            assert(all_states[last] == state);
            assert(all_states[last + 1] == after);
            assert(all_tries[last] == order_idx);
            assert forall|k: int| #[trigger] at(k) && 0 <= k < all_tries.len() implies
                says_cancelled(all_states[k], false) && all_tries[k] == start.after_all(
                orders,
                outcomes.take(k),
            ).remaining.last() by {
                if k < last {
                    assert(all_states[k] == states[k] && all_tries[k] == tries[k]);
                }
            }
        }
        let outcome = match answer {
            Ok(outcome) => outcome,
            Err(error) => {
                let r: RunResult<C::Error> = Err(ProcessError::Commit(error));
                proof {
                    assert(is_run(start, orders, all_tries, outcomes, all_states, r));
                    assert forall|k: int| #[trigger] at(k) && 0 <= k < all_tries.len() implies
                        exists|c: &mut C| #[trigger]
                        call_ensures(
                            C::commit_order,
                            (c, all_tries[k]),
                            answer_to(outcomes, r, k),
                        ) && *c == all_states[k] && *final(c) == all_states[k + 1] by {
                        if k < last {
                            assert(all_states[k] == states[k] && all_tries[k] == tries[k]);
                            assert(all_states[k + 1] == states[k + 1]);
                        }
                    }
                }
                return r;
            },
        };
        proof {
            assert(before.remaining[before.remaining.len() - 1] == order_idx);
            assert((order_idx as int) < n);
            let more = outcomes.push(outcome);
            assert(more.drop_last() =~= outcomes);
            assert(start.after_all(orders, more) == before.after(orders, outcome));
            assert forall|k: int| 0 <= k < more.len() implies (#[trigger] start.after_all(
                orders,
                more.take(k),
            )).remaining.len() > 0 by {
                assert(more.take(k) =~= outcomes.take(k));
            }
            assert forall|k: int| #[trigger] at(k) && 0 <= k < all_tries.len() implies
                says_cancelled(all_states[k], false) && all_tries[k] == start.after_all(
                orders,
                more.take(k),
            ).remaining.last() by {
                assert(more.take(k) =~= outcomes.take(k));
            }
            assert forall|k: int| #[trigger] at(k) && 0 <= k < all_tries.len() implies exists|
                c: &mut C,
            | #[trigger]
                call_ensures(C::commit_order, (c, all_tries[k]), Ok(more[k])) && *c
                    == all_states[k] && *final(c) == all_states[k + 1] by {
                if k < last {
                    assert(all_states[k] == states[k] && all_tries[k] == tries[k]);
                    assert(all_states[k + 1] == states[k + 1]);
                    assert(more[k] == outcomes[k]);
                } else {
                    assert(more[k] == outcome);
                }
            }
            tries = all_tries;
            states = all_states;
            outcomes = more;
            assert(run@ =~= before.taken());
        }
        match &outcome {
            CommitOutcome::Committed { nonces_updated, coinbase_profit } => {
                proof {
                    lemma_released(
                        before.taken().remaining,
                        before.pending,
                        nonces_updated@,
                        nonces_updated@.len() as int,
                        n,
                    );
                }
                run.handle_successful_commit(
                    nonces_updated,
                    *coinbase_profit,
                    task.group.orders[order_idx].id,
                    order_idx,
                );
            },
            CommitOutcome::Failed { nonce_too_high } => {
                run.handle_err(*nonce_too_high, order_idx);
                proof {
                    if let Some(nonce) = *nonce_too_high {
                        let key = nonce_key(nonce.0, nonce.1);
                        assert(before.pending.insert(key, order_idx).dom()
                            =~= before.pending.dom().insert(key));
                    }
                }
            },
        }
    }
    let total_profit: U256 = run.total_profit;
    let done = ProcessedSequence {
        resolution: ResolutionResult { total_profit, sequence_of_orders: run.sequenced },
        state: CachedSimulationState { total_profit, per_order_profits: run.per_order_profits },
    };
    let r: RunResult<C::Error> = Ok(done);
    proof {
        assert(is_run(start, orders, tries, outcomes, states, r));
        assert forall|k: int| #[trigger] at(k) && 0 <= k < tries.len() implies answer_to(
            outcomes,
            r,
            k,
        ) == Ok::<CommitOutcome, C::Error>(outcomes[k]) by {
        }
    }
    r
}

} // verus!
