use parallel_builder::compute_budget::{
    available_physical_cores, candidate_thread_name, limit_of_cores, validate_compute_budget,
    BacktestComputeBudget, BudgetError, CandidateExecutor, ProcessorReadings,
};
use parallel_builder::cpu_lists::{
    allowed_processors, core_id_path, count_cores, package_id_path, parse_cpu_list,
};
use parallel_builder::text::{char_is_white_space, parse_usize};
use rayon::iter::{IntoParallelIterator, ParallelIterator};
use std::sync::atomic::{AtomicBool, AtomicUsize, Ordering};
use std::sync::{Arc, Barrier};
use std::time::{Duration, Instant};

#[test]
fn requested_sweep_combinations_fit_sixty_physical_cores() {
    for (block_concurrency, candidate_threads) in [(1, 60), (2, 30), (4, 15), (6, 10), (10, 6)] {
        validate_compute_budget(block_concurrency, candidate_threads, 60).unwrap();
    }
    assert!(validate_compute_budget(2, 31, 60).is_err());
    assert!(validate_compute_budget(0, 60, 60).is_err());
    assert!(validate_compute_budget(1, 0, 60).is_err());
    assert!(validate_compute_budget(1, 1, 0).is_err());
    assert!(validate_compute_budget(usize::MAX, 2, usize::MAX).is_err());
}

/// Runs a batch with one coordinator for each lane.
fn run_batch<Output: Send>(
    budget: &BacktestComputeBudget,
    blocks: usize,
    operation: &(dyn Fn(usize, CandidateExecutor) -> Output + Sync),
) -> Result<Vec<Output>, BudgetError> {
    let assigned = budget.assign_batch(vec![(); blocks])?;
    let coordinators = rayon::ThreadPoolBuilder::new()
        .num_threads(blocks)
        .build()
        .unwrap();
    Ok(coordinators.install(|| {
        assigned
            .into_par_iter()
            .with_max_len_one()
            .map(|(lane_index, executor, ())| {
                let for_operation = executor.clone();
                executor.install(|| operation(lane_index, for_operation))
            })
            .collect()
    }))
}

trait WithMaxLenOne: Sized {
    type Out: ParallelIterator<Item = (usize, CandidateExecutor, ())>;
    fn with_max_len_one(self) -> Self::Out;
}

impl WithMaxLenOne for rayon::vec::IntoIter<(usize, CandidateExecutor, ())> {
    type Out = rayon::iter::MaxLen<Self>;
    fn with_max_len_one(self) -> Self::Out {
        rayon::iter::IndexedParallelIterator::with_max_len(self, 1)
    }
}

/// Whether two executors with one thread each use the same pool: then work of the second cannot
/// begin while work of the first goes on.
fn share_a_pool(first: &CandidateExecutor, second: &CandidateExecutor) -> bool {
    let coordinators = rayon::ThreadPoolBuilder::new()
        .num_threads(2)
        .build()
        .unwrap();
    let first_runs = AtomicBool::new(false);
    let second_ran = AtomicBool::new(false);
    let (overlap, ()) = coordinators.install(|| {
        rayon::join(
            || {
                first.install(|| {
                    first_runs.store(true, Ordering::SeqCst);
                    let begin = Instant::now();
                    while !second_ran.load(Ordering::SeqCst)
                        && begin.elapsed() < Duration::from_millis(500)
                    {
                        std::hint::spin_loop();
                    }
                    second_ran.load(Ordering::SeqCst)
                })
            },
            || {
                while !first_runs.load(Ordering::SeqCst) {
                    std::hint::spin_loop();
                }
                second.install(|| second_ran.store(true, Ordering::SeqCst))
            },
        )
    });
    !overlap
}

#[test]
fn candidate_pool_is_reused_across_lane_installs() {
    let budget = BacktestComputeBudget::new_with_physical_core_limit(2, 1, 2).unwrap();
    let run = || {
        run_batch(&budget, 2, &|lane_index, executor| {
            (lane_index, executor, rayon::current_num_threads())
        })
        .unwrap()
    };

    let first_batch = run();
    let second_batch = run();
    assert_eq!(first_batch.len(), second_batch.len());
    for (first, second) in first_batch.iter().zip(&second_batch) {
        assert_eq!(first.0, second.0);
        assert!(share_a_pool(&first.1, &second.1));
        assert_eq!(first.2, second.2);
    }
    assert_eq!(first_batch[0].2, 1);
    assert_eq!(first_batch[1].2, 1);
    assert!(!share_a_pool(&first_batch[0].1, &first_batch[1].1));
    assert!(run_batch(&budget, 3, &|_, _| ()).is_err());
}

#[test]
fn nested_install_stays_on_the_same_lane_worker() {
    let executor = CandidateExecutor::new_for_lane(2, 0).unwrap();
    let nested_executor = executor.clone();

    executor.install(move || {
        let outer_thread = rayon::current_thread_index();
        let inner_thread = nested_executor.install(|| rayon::current_thread_index());
        assert!(outer_thread.is_some());
        assert_eq!(outer_thread, inner_thread);
    });
}

#[test]
fn active_candidate_work_never_exceeds_total_compute_budget() {
    let budget = BacktestComputeBudget::new_with_physical_core_limit(2, 2, 4).unwrap();
    let barrier = Arc::new(Barrier::new(4));
    let active = Arc::new(AtomicUsize::new(0));
    let peak = Arc::new(AtomicUsize::new(0));

    run_batch(&budget, 2, &|_, _| {
        let barrier = Arc::clone(&barrier);
        let active = Arc::clone(&active);
        let peak = Arc::clone(&peak);
        (0..2usize).into_par_iter().for_each(|_| {
            let current = active.fetch_add(1, Ordering::SeqCst) + 1;
            peak.fetch_max(current, Ordering::SeqCst);
            barrier.wait();
            active.fetch_sub(1, Ordering::SeqCst);
        });
    })
    .unwrap();

    assert_eq!(peak.load(Ordering::SeqCst), 4);
    assert_eq!(active.load(Ordering::SeqCst), 0);
}

#[test]
fn parses_linux_cpu_affinity_lists() {
    assert_eq!(
        parse_cpu_list("0-2,8,10-11"),
        Some(vec![0, 1, 2, 8, 10, 11])
    );
    assert_eq!(parse_cpu_list("4"), Some(vec![4]));
    assert_eq!(parse_cpu_list("3-1"), None);
}

#[test]
fn odd_processor_lists_are_read_as_the_standard_library_reads_numbers() {
    assert_eq!(parse_cpu_list(" 1 , +2 ,003"), Some(vec![1, 2, 3]));
    assert_eq!(parse_cpu_list("5-5"), Some(vec![5]));
    for refused in ["", "1,", "a", "-", "1-", "-1", "1 - 2", "1-2-3", "+", "99999999999999999999"] {
        assert_eq!(parse_cpu_list(refused), None);
    }
    for text in ["0", "12", "+12", "++1", "", "+", "1 ", "18446744073709551615", "1e3"] {
        let chars: Vec<char> = text.chars().collect();
        assert_eq!(parse_usize(&chars), text.parse::<usize>().ok());
    }
}

#[test]
fn white_space_is_what_the_standard_library_takes_for_it() {
    for n in 0..=0x10ffffu32 {
        if let Some(c) = char::from_u32(n) {
            assert_eq!(char_is_white_space(c), c.is_whitespace());
        }
    }
}

#[test]
fn the_first_readable_list_of_a_status_counts() {
    let status = "Name:\tx\nCpus_allowed:\tff\nCpus_allowed_list:\tnone\nCpus_allowed_list:\t0-1,4\r\nCpus_allowed_list:\t9\n";
    assert_eq!(allowed_processors(status), Some(vec![0, 1, 4]));
    assert_eq!(allowed_processors("Name: x\n"), None);
    assert_eq!(allowed_processors("Cpus_allowed_list:"), None);
    assert_eq!(
        core_id_path(12),
        "/sys/devices/system/cpu/cpu12/topology/core_id"
    );
    assert_eq!(
        package_id_path(0),
        "/sys/devices/system/cpu/cpu0/topology/physical_package_id"
    );
}

#[test]
fn processors_of_one_core_count_once() {
    let reading = |package: &str, core: &str| (package.to_owned(), core.to_owned());
    assert_eq!(
        count_cores(&vec![
            reading("0\n", "0\n"),
            reading("0\n", "1\n"),
            reading(" 0", "0"),
            reading("1\n", "0\n"),
        ]),
        Some(3)
    );
    assert_eq!(count_cores(&Vec::new()), None);
}

#[test]
fn the_number_of_cores_is_capped_and_at_least_one() {
    let readings = |available_logical, affine_physical| ProcessorReadings {
        available_logical,
        affine_physical,
    };
    assert_eq!(limit_of_cores(readings(Some(8), Some(4)), 64), 4);
    assert_eq!(limit_of_cores(readings(Some(2), Some(4)), 64), 2);
    assert_eq!(limit_of_cores(readings(Some(8), Some(0)), 64), 1);
    assert_eq!(limit_of_cores(readings(Some(8), None), 64), 8);
    assert_eq!(limit_of_cores(readings(Some(8), None), 0), 1);
    assert_eq!(limit_of_cores(readings(None, None), 64), 1);
    assert_eq!(available_physical_cores(readings(Some(8), Some(4))), 4);
    assert!(available_physical_cores(readings(Some(usize::MAX), None)) >= 1);
}

#[test]
fn errors_say_what_is_wrong() {
    let message = |r: Result<(), BudgetError>| r.unwrap_err().message();
    assert_eq!(
        message(validate_compute_budget(0, 0, 0)),
        "block_concurrency must be greater than zero"
    );
    assert_eq!(
        message(validate_compute_budget(1, 0, 0)),
        "candidate_threads must be greater than zero"
    );
    assert_eq!(
        message(validate_compute_budget(1, 1, 0)),
        "available physical core count must be greater than zero"
    );
    assert_eq!(
        message(validate_compute_budget(usize::MAX, 2, 1)),
        "block_concurrency * candidate_threads overflowed"
    );
    assert_eq!(
        message(validate_compute_budget(2, 31, 60)),
        "backtest compute budget exceeds available physical cores: block_concurrency (2) * candidate_threads (31) = 62, available physical cores = 60"
    );
    let budget = BacktestComputeBudget::new_with_physical_core_limit(2, 1, 2).unwrap();
    match budget.assign_batch(vec![1, 2, 3]) {
        Err(error) => assert_eq!(
            error.message(),
            "backtest batch contains 3 blocks but block_concurrency is 2"
        ),
        Ok(_) => panic!("the batch should have been refused"),
    }
}

#[test]
fn a_budget_has_a_pool_for_each_lane() {
    let readings = ProcessorReadings {
        available_logical: Some(4),
        affine_physical: Some(3),
    };
    let budget = BacktestComputeBudget::new(3, 1, readings).unwrap();
    assert_eq!(budget.block_concurrency(), 3);
    assert_eq!(budget.candidate_threads(), 1);
    assert_eq!(budget.physical_core_limit(), 3);
    assert_eq!(budget.lane(2).candidate_threads(), 1);
    assert!(BacktestComputeBudget::new(2, 2, readings).is_err());

    let assigned = budget.assign_batch(vec!["a", "b"]).unwrap();
    assert_eq!(assigned.len(), 2);
    assert_eq!((assigned[0].0, assigned[0].2), (0, "a"));
    assert_eq!((assigned[1].0, assigned[1].2), (1, "b"));

    let executor = CandidateExecutor::new(2, readings).unwrap();
    assert_eq!(executor.install(|| rayon::current_num_threads()), 2);
    assert!(CandidateExecutor::new(4, readings).is_err());
    assert_eq!(candidate_thread_name(3, 10), "backtest-candidate-3-10");
}
