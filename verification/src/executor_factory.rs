//! Which executor a configuration asks for, and the runtime a configuration makes.
use vstd::prelude::*;
use crate::config::{Config, Strategy};
use crate::errors::FailureStrategy;
use crate::work_queue::WorkQueueExecutor;
use crate::level_by_level::LevelByLevelExecutor;
use crate::reactive::ReactiveExecutor;
use crate::processor_map::ProcessorMap;

verus! {

/// The concurrency used when neither the configuration nor the machine gives one.
pub const FALLBACK_CONCURRENCY: usize = 4;

/// An executor chosen by a configuration.
#[derive(Debug)]
pub enum ConfiguredExecutor {
    WorkQueue(WorkQueueExecutor),
    Level(LevelByLevelExecutor),
    Reactive(ReactiveExecutor),
}

/// The limit a configuration sets on concurrency: the configured one, else the
/// parallelism of the machine (when known), else the fallback.
pub open spec fn chosen_concurrency(configured: Option<usize>, available: Option<usize>) -> usize {
    match configured {
        Some(n) => n,
        None => match available {
            Some(n) => n,
            None => FALLBACK_CONCURRENCY,
        },
    }
}

/// A limit of 0 is raised to 1.
pub open spec fn effective_concurrency(n: usize) -> usize {
    if n == 0 { 1 } else { n }
}

/// Creates executors from configurations.
pub struct ExecutorFactory;

impl ExecutorFactory {
    /// The executor of the configured strategy (the hybrid strategy runs on the
    /// work queue), limited to the configured concurrency; `available_parallelism`
    /// is what the machine reports, if anything.
    pub fn from_config(cfg: &Config, available_parallelism: Option<usize>) -> (e: ConfiguredExecutor)
        ensures
            ({
                let n = effective_concurrency(chosen_concurrency(cfg.executor_options.max_concurrency, available_parallelism));
                match cfg.strategy {
                    Strategy::WorkQueue | Strategy::Hybrid => e matches ConfiguredExecutor::WorkQueue(x) && x.max_concurrency == n,
                    Strategy::Level => e matches ConfiguredExecutor::Level(x) && x.max_concurrency == n,
                    Strategy::Reactive => e matches ConfiguredExecutor::Reactive(x) && x.max_concurrency == n,
                }
            }),
    {
        let max_concurrency = match cfg.executor_options.max_concurrency {
            Some(n) => n,
            None => match available_parallelism {
                Some(n) => n,
                None => FALLBACK_CONCURRENCY,
            },
        };
        match cfg.strategy {
            Strategy::WorkQueue => ConfiguredExecutor::WorkQueue(WorkQueueExecutor::new(max_concurrency)),
            Strategy::Level => ConfiguredExecutor::Level(LevelByLevelExecutor::new(max_concurrency)),
            Strategy::Reactive => ConfiguredExecutor::Reactive(ReactiveExecutor::new(max_concurrency)),
            Strategy::Hybrid => ConfiguredExecutor::WorkQueue(WorkQueueExecutor::new(max_concurrency)),
        }
    }
}

/// Puts together what a DAG run needs from its configuration.
pub struct RuntimeBuilder;

impl RuntimeBuilder {
    /// The registered processors, the configured executor, and the configured
    /// failure strategy.
    pub fn from_config<P>(
        cfg: &Config,
        processors: ProcessorMap<P>,
        available_parallelism: Option<usize>,
    ) -> (r: (ProcessorMap<P>, ConfiguredExecutor, FailureStrategy))
        ensures
            r.0 == processors,
            r.2 == cfg.failure_strategy,
            ({
                let n = effective_concurrency(chosen_concurrency(cfg.executor_options.max_concurrency, available_parallelism));
                match cfg.strategy {
                    Strategy::WorkQueue | Strategy::Hybrid => r.1 matches ConfiguredExecutor::WorkQueue(x) && x.max_concurrency == n,
                    Strategy::Level => r.1 matches ConfiguredExecutor::Level(x) && x.max_concurrency == n,
                    Strategy::Reactive => r.1 matches ConfiguredExecutor::Reactive(x) && x.max_concurrency == n,
                }
            }),
    {
        let executor = ExecutorFactory::from_config(cfg, available_parallelism);
        (processors, executor, cfg.failure_strategy)
    }
}

} // verus!
