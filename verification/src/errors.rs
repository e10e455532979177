//! Error types and the failure strategy shared by configuration and execution.
use vstd::prelude::*;

verus! {

/// How an executor reacts to a processor that fails.
#[derive(Debug, Clone, Copy, PartialEq, Eq, Structural)]
pub enum FailureStrategy {
    /// Stop at the first failure.
    FailFast,
    /// Keep running what does not depend on the failed processor; report all failures.
    ContinueOnError,
    /// Run as much as possible; report all failures.
    BestEffort,
}

impl Default for FailureStrategy {
    fn default() -> (s: Self)
        ensures
            s == FailureStrategy::FailFast,
    {
        FailureStrategy::FailFast
    }
}

/// A processor that failed during execution, with the reason.
#[derive(Debug, Clone, PartialEq, Eq)]
pub struct ProcessorFailure {
    pub processor_id: String,
    pub error: String,
}

/// Errors of DAG execution.
#[derive(Debug, Clone, PartialEq, Eq)]
pub enum ExecutionError {
    /// A processor named by the graph is not registered.
    ProcessorNotFound(String),
    /// A processor failed.
    ProcessorFailed { processor_id: String, error: String },
    /// Several processors failed (continue-on-error and best-effort strategies).
    MultipleFailed { failures: Vec<ProcessorFailure> },
    /// An internal consistency error.
    InternalError { message: String },
}

/// Problems found when validating a configuration's dependency graph.
#[derive(Debug, Clone, PartialEq, Eq)]
pub enum ValidationError {
    /// The processors in `cycle` depend on each other in a circle (the first id is repeated last).
    CyclicDependency { cycle: Vec<String> },
    /// `processor_id` depends on `missing_dependency`, which is not configured.
    UnresolvedDependency { processor_id: String, missing_dependency: String },
    /// Two processors share the id `processor_id`.
    DuplicateProcessorId { processor_id: String },
    /// Several independent paths converge at `convergence_processor` (a warning).
    DiamondPatternWarning { convergence_processor: String, parallel_paths: Vec<Vec<String>> },
}

} // verus!
