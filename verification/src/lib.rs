//! Resolving conflicts between orders when a block is built in parallel, and what a backtest needs
//! around that.
//!
//! - [`types`]: orders, groups of conflicting orders, and the tasks that resolve them.
//! - [`conflicts`], [`graph`]: which orders conflict, and which have to be handled together.
//! - [`sequences`], [`permutations`]: the sequences of a group's orders that are tried.
//! - [`recursive`]: large groups, which are resolved piece by piece.
//! - [`sequencing`]: running a sequence through a block, with orders that wait for a nonce.
//! - [`resolver`]: trying the sequences of a task and keeping the best result.
//! - [`default_tasks`]: the tasks that a group gets, and records of them.
//! - [`compute_budget`], [`cpu_lists`]: the threads that a backtest may use.
//! - [`cached_reads`], [`shared_writes`], [`provider`]: the state that orders are executed on.
//! - [`private_mempool`]: recorded bundles.
//! - [`backtest`], [`report`]: the steps of a backtest and what it prints.
//!
//! The modules whose names end in `_laws` state what holds across functions.
pub mod amounts;
pub mod backtest;
pub mod backtest_laws;
pub mod cached_reads;
pub mod cached_reads_laws;
pub mod compute_budget;
pub mod conflict_laws;
pub mod conflicts;
pub mod counting;
pub mod cpu_lists;
pub mod default_tasks;
pub mod graph;
pub mod graph_laws;
pub mod hash_maps;
pub mod hexadecimal;
pub mod line_laws;
pub mod list_laws;
pub mod nonce_laws;
pub mod nonces;
pub mod orderings;
pub mod permutations;
pub mod plan_laws;
pub mod private_mempool;
pub mod private_mempool_laws;
pub mod processor_laws;
pub mod provider;
pub mod random;
pub mod record_laws;
pub mod recursive;
pub mod recursive_laws;
pub mod report;
pub mod report_laws;
pub mod resolver;
pub mod sequence_laws;
pub mod sequences;
pub mod sequencing;
pub mod sequencing_laws;
pub mod shared_writes;
pub mod sorting;
pub mod text;
pub mod text_laws;
pub mod types;
pub mod waiting_laws;
