//! The threads of a backtest: how many may run, and the pools that they run in.
use rayon::{ThreadPool, ThreadPoolBuildError, ThreadPoolBuilder};
use std::sync::Arc;
use vstd::prelude::*;

use crate::text::{append_chars, append_text, chars_of, decimal, decimal_chars, text_of};

verus! {

#[verifier::external_type_specification]
#[verifier::external_body]
pub struct ExThreadPool(rayon::ThreadPool);

#[verifier::external_type_specification]
#[verifier::external_body]
pub struct ExThreadPoolBuildError(rayon::ThreadPoolBuildError);

/// Why a budget or a batch was refused.
#[derive(Debug)]
pub enum BudgetError {
    NoBlockConcurrency,
    NoCandidateThreads,
    NoPhysicalCores,
    /// The product of block concurrency and candidate threads is too large to be computed.
    Overflow,
    ExceedsPhysicalCores {
        block_concurrency: usize,
        candidate_threads: usize,
        requested_threads: usize,
        physical_core_limit: usize,
    },
    /// The thread pool of a lane could not be made.
    PoolNotCreated { lane_index: usize, candidate_threads: usize, error: ThreadPoolBuildError },
    BatchTooLarge { blocks: usize, block_concurrency: usize },
}

/// What an error says.
pub open spec fn message_of(error: BudgetError) -> Seq<char> {
    match error {
        BudgetError::NoBlockConcurrency => "block_concurrency must be greater than zero"@,
        BudgetError::NoCandidateThreads => "candidate_threads must be greater than zero"@,
        BudgetError::NoPhysicalCores =>
        "available physical core count must be greater than zero"@,
        BudgetError::Overflow => "block_concurrency * candidate_threads overflowed"@,
        BudgetError::ExceedsPhysicalCores {
            block_concurrency,
            candidate_threads,
            requested_threads,
            physical_core_limit,
        } => "backtest compute budget exceeds available physical cores: block_concurrency ("@
            + decimal(block_concurrency as nat) + ") * candidate_threads ("@ + decimal(
            candidate_threads as nat,
        ) + ") = "@ + decimal(requested_threads as nat) + ", available physical cores = "@
            + decimal(physical_core_limit as nat),
        BudgetError::PoolNotCreated { lane_index, candidate_threads, error } =>
        "failed to create candidate pool for lane "@ + decimal(lane_index as nat) + " with "@
            + decimal(candidate_threads as nat) + " threads"@,
        BudgetError::BatchTooLarge { blocks, block_concurrency } => "backtest batch contains "@
            + decimal(blocks as nat) + " blocks but block_concurrency is "@ + decimal(
            block_concurrency as nat,
        ),
    }
}

impl BudgetError {
    /// Writes [`message_of`].
    pub fn message(&self) -> (r: String)
        ensures
            r@ == message_of(*self),
    {
        match self {
            BudgetError::NoBlockConcurrency => String::from_str(
                "block_concurrency must be greater than zero",
            ),
            BudgetError::NoCandidateThreads => String::from_str(
                "candidate_threads must be greater than zero",
            ),
            BudgetError::NoPhysicalCores => String::from_str(
                "available physical core count must be greater than zero",
            ),
            BudgetError::Overflow => String::from_str(
                "block_concurrency * candidate_threads overflowed",
            ),
            BudgetError::ExceedsPhysicalCores {
                block_concurrency,
                candidate_threads,
                requested_threads,
                physical_core_limit,
            } => {
                let mut out = chars_of(
                    "backtest compute budget exceeds available physical cores: block_concurrency (",
                );
                append_chars(&mut out, decimal_chars(*block_concurrency as u128));
                append_text(&mut out, ") * candidate_threads (");
                append_chars(&mut out, decimal_chars(*candidate_threads as u128));
                append_text(&mut out, ") = ");
                append_chars(&mut out, decimal_chars(*requested_threads as u128));
                append_text(&mut out, ", available physical cores = ");
                append_chars(&mut out, decimal_chars(*physical_core_limit as u128));
                text_of(&out)
            },
            BudgetError::PoolNotCreated { lane_index, candidate_threads, error } => {
                let mut out = chars_of("failed to create candidate pool for lane ");
                append_chars(&mut out, decimal_chars(*lane_index as u128));
                append_text(&mut out, " with ");
                append_chars(&mut out, decimal_chars(*candidate_threads as u128));
                append_text(&mut out, " threads");
                text_of(&out)
            },
            BudgetError::BatchTooLarge { blocks, block_concurrency } => {
                let mut out = chars_of("backtest batch contains ");
                append_chars(&mut out, decimal_chars(*blocks as u128));
                append_text(&mut out, " blocks but block_concurrency is ");
                append_chars(&mut out, decimal_chars(*block_concurrency as u128));
                text_of(&out)
            },
        }
    }
}

/// What comes of checking a budget: it is accepted, or refused for the first reason that holds.
pub open spec fn is_budget_verdict(
    block_concurrency: usize,
    candidate_threads: usize,
    physical_core_limit: usize,
    verdict: Result<(), BudgetError>,
) -> bool {
    let requested = block_concurrency * candidate_threads;
    if block_concurrency == 0 {
        verdict matches Err(BudgetError::NoBlockConcurrency)
    } else if candidate_threads == 0 {
        verdict matches Err(BudgetError::NoCandidateThreads)
    } else if physical_core_limit == 0 {
        verdict matches Err(BudgetError::NoPhysicalCores)
    } else if requested > usize::MAX {
        verdict matches Err(BudgetError::Overflow)
    } else if requested > physical_core_limit {
        verdict == Err::<(), BudgetError>(
            BudgetError::ExceedsPhysicalCores {
                block_concurrency,
                candidate_threads,
                requested_threads: requested as usize,
                physical_core_limit,
            },
        )
    } else {
        verdict is Ok
    }
}

/// The budget is accepted: every lane has threads, and all of them have a core.
pub open spec fn budget_fits(
    block_concurrency: usize,
    candidate_threads: usize,
    physical_core_limit: usize,
) -> bool {
    &&& block_concurrency > 0
    &&& candidate_threads > 0
    &&& block_concurrency * candidate_threads <= physical_core_limit
}

/// Checks that every thread of every lane has a physical core.
pub fn validate_compute_budget(
    block_concurrency: usize,
    candidate_threads: usize,
    physical_core_limit: usize,
) -> (r: Result<(), BudgetError>)
    ensures
        is_budget_verdict(block_concurrency, candidate_threads, physical_core_limit, r),
        r is Ok <==> budget_fits(block_concurrency, candidate_threads, physical_core_limit),
{
    proof {
        if block_concurrency > 0 && candidate_threads > 0 {
            assert(block_concurrency * candidate_threads > 0) by (nonlinear_arith)
                requires
                    block_concurrency > 0,
                    candidate_threads > 0,
            ;
        }
    }
    if block_concurrency == 0 {
        return Err(BudgetError::NoBlockConcurrency);
    }
    if candidate_threads == 0 {
        return Err(BudgetError::NoCandidateThreads);
    }
    if physical_core_limit == 0 {
        return Err(BudgetError::NoPhysicalCores);
    }
    match block_concurrency.checked_mul(candidate_threads) {
        None => Err(BudgetError::Overflow),
        Some(requested_threads) => {
            if requested_threads > physical_core_limit {
                Err(
                    BudgetError::ExceedsPhysicalCores {
                        block_concurrency,
                        candidate_threads,
                        requested_threads,
                        physical_core_limit,
                    },
                )
            } else {
                Ok(())
            }
        },
    }
}

/// What is known of the processors that this process may use.
#[derive(Clone, Copy, Debug)]
pub struct ProcessorReadings {
    /// How many threads the system can run at once, where it says so.
    pub available_logical: Option<usize>,
    /// How many physical cores the processors that the process may use belong to, where that was
    /// found out.
    pub affine_physical: Option<usize>,
}

/// The smaller of two numbers, and at least one.
pub open spec fn capped(n: usize, limit: usize) -> usize {
    let least = if n <= limit {
        n
    } else {
        limit
    };
    if least >= 1 {
        least
    } else {
        1
    }
}

/// How many physical cores may be used: those that were found for the process, or else those that
/// the machine has, but no more than the system can run threads, and at least one.
pub open spec fn core_limit(readings: ProcessorReadings, detected_physical: usize) -> usize {
    let logical = match readings.available_logical {
        Some(n) => n,
        None => 1,
    };
    match readings.affine_physical {
        Some(n) => capped(n, logical),
        None => capped(capped(detected_physical, usize::MAX), logical),
    }
}

/// Computes [`core_limit`].
pub fn limit_of_cores(readings: ProcessorReadings, detected_physical: usize) -> (r: usize)
    ensures
        r == core_limit(readings, detected_physical),
{
    let logical: usize = match readings.available_logical {
        Some(n) => n,
        None => 1,
    };
    let physical: usize = match readings.affine_physical {
        Some(n) => n,
        None => if detected_physical >= 1 {
            detected_physical
        } else {
            1
        },
    };
    let least: usize = if physical <= logical {
        physical
    } else {
        logical
    };
    if least >= 1 {
        least
    } else {
        1
    }
}

/// `num_cpus::get_physical`: the number of physical cores of the machine, which is at least one.
#[verifier::external_body]
fn detected_physical_cores() -> (n: usize)
    ensures
        n >= 1,
{
    num_cpus::get_physical()
}

/// The machine was asked for the number of its physical cores, and gave the number.
pub closed spec fn were_detected(cores: usize) -> bool {
    call_ensures(detected_physical_cores, (), cores)
}

/// The limit is that of the readings, with the number of cores that the machine gave.
pub open spec fn is_limit_of(readings: ProcessorReadings, limit: usize) -> bool {
    exists|detected: usize|
        detected >= 1 && were_detected(detected) && limit == #[trigger] core_limit(
            readings,
            detected,
        )
}

/// How many physical cores are available to this process.
pub fn available_physical_cores(readings: ProcessorReadings) -> (r: usize)
    ensures
        is_limit_of(readings, r),
        r >= 1,
        readings.affine_physical is Some ==> r == core_limit(readings, 1),
{
    let detected: usize = detected_physical_cores();
    limit_of_cores(readings, detected)
}

/// The name of a worker thread.
pub open spec fn thread_name(lane_index: usize, worker_index: usize) -> Seq<char> {
    "backtest-candidate-"@ + decimal(lane_index as nat) + "-"@ + decimal(worker_index as nat)
}

/// Writes [`thread_name`].
pub fn candidate_thread_name(lane_index: usize, worker_index: usize) -> (r: String)
    ensures
        r@ == thread_name(lane_index, worker_index),
{
    let mut out = chars_of("backtest-candidate-");
    append_chars(&mut out, decimal_chars(lane_index as u128));
    append_text(&mut out, "-");
    append_chars(&mut out, decimal_chars(worker_index as u128));
    text_of(&out)
}

/// What a pool was asked for: the number of its threads, and the lane that their names hold.
pub uninterp spec fn asked_for(pool: ThreadPool) -> (usize, usize);

/// `ThreadPoolBuilder::build` of `rayon`: a pool that was asked for with the given number of
/// threads, and with [`candidate_thread_name`] for their names. Whether the threads can be started
/// is up to the system. How many threads the pool really has is not said: `rayon` takes its own
/// number for zero, and has a largest one.
#[verifier::external_body]
fn build_pool(candidate_threads: usize, lane_index: usize) -> (r: Result<
    ThreadPool,
    ThreadPoolBuildError,
>)
    ensures
        r is Ok ==> asked_for(r->Ok_0) == (candidate_threads, lane_index),
{
    ThreadPoolBuilder::new()
        .num_threads(candidate_threads)
        .thread_name(move |worker_index| candidate_thread_name(lane_index, worker_index))
        .build()
}

/// `ThreadPool::install` of `rayon`: runs the operation on a thread of the pool and returns what
/// it returns.
#[verifier::external_body]
fn install_in_pool<Operation: FnOnce() -> Output + Send, Output: Send>(
    pool: &ThreadPool,
    operation: Operation,
) -> (r: Output)
    requires
        call_requires(operation, ()),
    ensures
        call_ensures(operation, (), r),
{
    pool.install(operation)
}

/// A reusable pool of threads that try candidate sequences in a backtest.
pub struct CandidateExecutor {
    pool: Arc<ThreadPool>,
    candidate_threads: usize,
}

impl Clone for CandidateExecutor {
    /// Another handle of the same pool.
    fn clone(&self) -> (r: CandidateExecutor)
        ensures
            r == *self,
    {
        proof {
            use_type_invariant(self);
        }
        CandidateExecutor { pool: self.pool.clone(), candidate_threads: self.candidate_threads }
    }
}

impl CandidateExecutor {
    /// The number of threads that the pool was made with.
    pub closed spec fn threads(&self) -> usize {
        self.candidate_threads
    }

    /// What the pool was asked for: the number of its threads, and the lane that their names hold.
    pub closed spec fn pool_asked_for(&self) -> (usize, usize) {
        asked_for(*self.pool)
    }

    #[verifier::type_invariant]
    spec fn well_formed(&self) -> bool {
        asked_for(*self.pool).0 == self.candidate_threads
    }

    /// A pool of its own, as the backtest of a single block uses it.
    pub fn new(candidate_threads: usize, readings: ProcessorReadings) -> (r: Result<
        CandidateExecutor,
        BudgetError,
    >)
        ensures
            exists|limit: usize| #[trigger]
                makes_executor(candidate_threads, limit, r) && is_limit_of(readings, limit),
    {
        let limit: usize = available_physical_cores(readings);
        let r = Self::new_with_physical_core_limit(candidate_threads, limit);
        assert(makes_executor(candidate_threads, limit, r));
        r
    }

    /// A pool of its own, on a machine with the given number of cores.
    pub fn new_with_physical_core_limit(
        candidate_threads: usize,
        physical_core_limit: usize,
    ) -> (r: Result<CandidateExecutor, BudgetError>)
        ensures
            makes_executor(candidate_threads, physical_core_limit, r),
    {
        match validate_compute_budget(1, candidate_threads, physical_core_limit) {
            Ok(_) => Self::new_for_lane(candidate_threads, 0),
            Err(error) => Err(error),
        }
    }

    /// The pool of a lane.
    pub fn new_for_lane(candidate_threads: usize, lane_index: usize) -> (r: Result<
        CandidateExecutor,
        BudgetError,
    >)
        ensures
            is_lane_pool(candidate_threads, lane_index, r),
    {
        match build_pool(candidate_threads, lane_index) {
            Ok(pool) => Ok(CandidateExecutor { pool: Arc::new(pool), candidate_threads }),
            Err(error) => Err(
                BudgetError::PoolNotCreated { lane_index, candidate_threads, error },
            ),
        }
    }

    /// The operation was handed to the pool, which gave the output.
    pub closed spec fn was_installed<Operation: FnOnce() -> Output + Send, Output: Send>(
        &self,
        operation: Operation,
        output: Output,
    ) -> bool {
        call_ensures(install_in_pool::<Operation, Output>, (&*self.pool, operation), output)
    }

    /// Runs an operation in the pool.
    pub fn install<Operation: FnOnce() -> Output + Send, Output: Send>(
        &self,
        operation: Operation,
    ) -> (r: Output)
        requires
            call_requires(operation, ()),
        ensures
            call_ensures(operation, (), r),
            self.was_installed(operation, r),
    {
        install_in_pool(&self.pool, operation)
    }

    /// The number of threads that the pool was made with.
    pub fn candidate_threads(&self) -> (r: usize)
        ensures
            r == self.threads(),
            r == self.pool_asked_for().0,
    {
        proof {
            use_type_invariant(self);
        }
        self.candidate_threads
    }
}

/// A pool that was asked for with the given number of threads, for the lane; or the error that says
/// that it could not be made.
pub open spec fn is_lane_pool(
    candidate_threads: usize,
    lane_index: usize,
    r: Result<CandidateExecutor, BudgetError>,
) -> bool {
    match r {
        Ok(executor) => executor.threads() == candidate_threads && executor.pool_asked_for() == (
            candidate_threads,
            lane_index,
        ),
        Err(BudgetError::PoolNotCreated { lane_index: lane, candidate_threads: threads, error }) =>
        lane == lane_index && threads == candidate_threads,
        Err(_) => false,
    }
}

/// The result of making a pool: an error where the machine has too few cores, and else the pool of
/// the first lane.
pub open spec fn makes_executor(
    candidate_threads: usize,
    physical_core_limit: usize,
    r: Result<CandidateExecutor, BudgetError>,
) -> bool {
    if budget_fits(1, candidate_threads, physical_core_limit) {
        is_lane_pool(candidate_threads, 0, r)
    } else {
        match r {
            Ok(_) => false,
            Err(error) => is_budget_verdict(
                1,
                candidate_threads,
                physical_core_limit,
                Err(error),
            ),
        }
    }
}

/// The fixed budget of a backtest over a range of blocks: one pool for each lane, which every
/// batch uses again.
pub struct BacktestComputeBudget {
    block_concurrency: usize,
    candidate_threads: usize,
    physical_core_limit: usize,
    lanes: Vec<CandidateExecutor>,
}

impl BacktestComputeBudget {
    #[verifier::type_invariant]
    spec fn well_formed(&self) -> bool {
        &&& budget_fits(self.block_concurrency, self.candidate_threads, self.physical_core_limit)
        &&& self.is_budget(self.block_concurrency, self.candidate_threads, self.physical_core_limit)
    }

    /// The number of lanes.
    pub closed spec fn concurrency(&self) -> usize {
        self.block_concurrency
    }

    /// The number of threads of each lane.
    pub closed spec fn threads(&self) -> usize {
        self.candidate_threads
    }

    /// The number of cores that the budget was made for.
    pub closed spec fn core_limit(&self) -> usize {
        self.physical_core_limit
    }

    /// The pools of the lanes.
    pub closed spec fn pools(&self) -> Seq<CandidateExecutor> {
        self.lanes@
    }

    /// The budget has a pool of its own for each lane, each asked for with the given number of
    /// threads, and every thread has a core.
    pub open spec fn is_budget(
        &self,
        block_concurrency: usize,
        candidate_threads: usize,
        physical_core_limit: usize,
    ) -> bool {
        &&& self.concurrency() == block_concurrency
        &&& self.threads() == candidate_threads
        &&& self.core_limit() == physical_core_limit
        &&& self.pools().len() == block_concurrency
        &&& forall|i: int|
            0 <= i < self.pools().len() ==> (#[trigger] self.pools()[i]).threads()
                == candidate_threads && self.pools()[i].pool_asked_for() == (
                candidate_threads,
                i as usize,
            )
        &&& self.pools().len() * candidate_threads <= physical_core_limit
    }

    /// A budget for the cores that are available to this process.
    pub fn new(
        block_concurrency: usize,
        candidate_threads: usize,
        readings: ProcessorReadings,
    ) -> (r: Result<BacktestComputeBudget, BudgetError>)
        ensures
            exists|limit: usize| #[trigger]
                makes_budget(block_concurrency, candidate_threads, limit, r) && is_limit_of(
                    readings,
                    limit,
                ),
    {
        let limit: usize = available_physical_cores(readings);
        let r = Self::new_with_physical_core_limit(block_concurrency, candidate_threads, limit);
        assert(makes_budget(block_concurrency, candidate_threads, limit, r));
        r
    }

    /// A budget for the given number of cores.
    pub fn new_with_physical_core_limit(
        block_concurrency: usize,
        candidate_threads: usize,
        physical_core_limit: usize,
    ) -> (r: Result<BacktestComputeBudget, BudgetError>)
        ensures
            makes_budget(block_concurrency, candidate_threads, physical_core_limit, r),
    {
        match validate_compute_budget(block_concurrency, candidate_threads, physical_core_limit) {
            Ok(_) => {},
            Err(error) => {
                return Err(error);
            },
        }
        let mut lanes: Vec<CandidateExecutor> = Vec::new();
        for lane_index in 0..block_concurrency
            invariant
                lanes@.len() == lane_index,
                budget_fits(block_concurrency, candidate_threads, physical_core_limit),
                forall|i: int|
                    0 <= i < lanes@.len() ==> (#[trigger] lanes@[i]).threads()
                        == candidate_threads && lanes@[i].pool_asked_for() == (
                        candidate_threads,
                        i as usize,
                    ),
        {
            match CandidateExecutor::new_for_lane(candidate_threads, lane_index) {
                Ok(executor) => {
                    lanes.push(executor);
                },
                Err(error) => {
                    return Err(error);
                },
            }
        }
        Ok(
            BacktestComputeBudget {
                block_concurrency,
                candidate_threads,
                physical_core_limit,
                lanes,
            },
        )
    }

    /// The number of lanes.
    pub fn block_concurrency(&self) -> (r: usize)
        ensures
            r == self.concurrency(),
            r > 0,
            self.is_budget(r, self.threads(), self.core_limit()),
    {
        proof {
            use_type_invariant(self);
        }
        self.block_concurrency
    }

    /// The number of threads of each lane.
    pub fn candidate_threads(&self) -> (r: usize)
        ensures
            r == self.threads(),
            r > 0,
    {
        proof {
            use_type_invariant(self);
        }
        self.candidate_threads
    }

    /// The number of cores that the budget was made for: there is one for each thread.
    pub fn physical_core_limit(&self) -> (r: usize)
        ensures
            r == self.core_limit(),
            self.concurrency() * self.threads() <= r,
    {
        proof {
            use_type_invariant(self);
        }
        self.physical_core_limit
    }

    /// The pool of a lane.
    pub fn lane(&self, lane_index: usize) -> (r: &CandidateExecutor)
        requires
            lane_index < self.pools().len(),
        ensures
            *r == self.pools()[lane_index as int],
            r.threads() == self.threads(),
            r.pool_asked_for() == (self.threads(), lane_index),
    {
        proof {
            use_type_invariant(self);
        }
        &self.lanes[lane_index]
    }

    /// Assigns each input of a batch to the lane of its number. A batch of more inputs than lanes
    /// is refused.
    pub fn assign_batch<Input>(&self, inputs: Vec<Input>) -> (r: Result<
        Vec<(usize, CandidateExecutor, Input)>,
        BudgetError,
    >)
        ensures
            match r {
                Ok(assigned) => inputs@.len() <= self.concurrency() && assigned@ == Seq::new(
                    inputs@.len(),
                    |i: int| (i as usize, self.pools()[i], inputs@[i]),
                ) && forall|i: int|
                    0 <= i < assigned@.len() ==> (#[trigger] assigned@[i]).1.pool_asked_for() == (
                        self.threads(),
                        i as usize,
                    ),
                Err(error) => inputs@.len() > self.concurrency() && error
                    == (BudgetError::BatchTooLarge {
                    blocks: inputs@.len() as usize,
                    block_concurrency: self.concurrency(),
                }),
            },
    {
        proof {
            use_type_invariant(self);
        }
        let count: usize = inputs.len();
        if count > self.block_concurrency {
            return Err(
                BudgetError::BatchTooLarge {
                    blocks: count,
                    block_concurrency: self.block_concurrency,
                },
            );
        }
        let ghost given = inputs@;
        let mut assigned: Vec<(usize, CandidateExecutor, Input)> = Vec::new();
        let mut lane_index: usize = 0;
        for input in it: inputs
            invariant
                it.seq() == given,
                count == given.len(),
                lane_index == it.index(),
                given.len() <= self.lanes@.len(),
                assigned@ == Seq::new(
                    lane_index as nat,
                    |i: int| (i as usize, self.pools()[i], given[i]),
                ),
        {
            assigned.push((lane_index, self.lanes[lane_index].clone(), input));
            lane_index = lane_index + 1;
            assert(assigned@ =~= Seq::new(
                lane_index as nat,
                |i: int| (i as usize, self.pools()[i], given[i]),
            ));
        }
        Ok(assigned)
    }
}

/// The result of making a budget: an error where the machine has too few cores, else the budget,
/// unless the pool of a lane could not be made.
pub open spec fn makes_budget(
    block_concurrency: usize,
    candidate_threads: usize,
    physical_core_limit: usize,
    r: Result<BacktestComputeBudget, BudgetError>,
) -> bool {
    if budget_fits(block_concurrency, candidate_threads, physical_core_limit) {
        match r {
            Ok(budget) => budget.is_budget(
                block_concurrency,
                candidate_threads,
                physical_core_limit,
            ),
            Err(
                BudgetError::PoolNotCreated { lane_index, candidate_threads: threads, error },
            ) => lane_index < block_concurrency && threads == candidate_threads,
            Err(_) => false,
        }
    } else {
        match r {
            Ok(_) => false,
            Err(error) => is_budget_verdict(
                block_concurrency,
                candidate_threads,
                physical_core_limit,
                Err(error),
            ),
        }
    }
}

/// No two lanes of a budget share a pool.
pub proof fn law_lanes_have_pools_of_their_own(
    budget: BacktestComputeBudget,
    block_concurrency: usize,
    candidate_threads: usize,
    physical_core_limit: usize,
    i: int,
    j: int,
)
    requires
        budget.is_budget(block_concurrency, candidate_threads, physical_core_limit),
        0 <= i < budget.pools().len(),
        0 <= j < budget.pools().len(),
        i != j,
    ensures
        budget.pools()[i] != budget.pools()[j],
        budget.pools()[i].pool_asked_for() != budget.pools()[j].pool_asked_for(),
{
}

} // verus!
