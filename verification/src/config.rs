//! Configuration of a DAG workflow: strategy, failure handling, executor and WASM
//! options, and processor definitions; entry points and fuel limits.
use vstd::prelude::*;
use crate::errors::FailureStrategy;
use crate::string_map::StringMap;

verus! {

/// Default fuel level for WASM execution (100 million instructions).
pub const DEFAULT_FUEL_LEVEL: u64 = 100_000_000;
/// Minimum allowed fuel level (1 million instructions).
pub const MIN_FUEL_LEVEL: u64 = 1_000_000;
/// Maximum allowed fuel level (500 million instructions), a security limit.
pub const MAX_FUEL_LEVEL: u64 = 500_000_000;

/// Execution strategy for DAG processing.
#[derive(Debug, Clone, Copy, PartialEq, Eq, Structural)]
pub enum Strategy {
    WorkQueue,
    Level,
    Reactive,
    Hybrid,
}

/// Backend implementation type for processors.
#[derive(Debug, Clone, Copy, PartialEq, Eq, Structural)]
pub enum BackendType {
    Local,
    Loadable,
    Grpc,
    Http,
    Wasm,
}

/// Executor-specific configuration options.
#[derive(Debug, Clone, Copy, PartialEq, Eq)]
pub struct ExecutorOptions {
    pub max_concurrency: Option<usize>,
    pub timeout_seconds: Option<u64>,
    pub retry_attempts: Option<u32>,
    pub batch_size: Option<usize>,
}

impl Default for ExecutorOptions {
    fn default() -> (o: Self)
        ensures
            o.max_concurrency is None,
            o.timeout_seconds is None,
            o.retry_attempts is None,
            o.batch_size is None,
    {
        ExecutorOptions { max_concurrency: None, timeout_seconds: None, retry_attempts: None, batch_size: None }
    }
}

/// Fuel consumption configuration for WASM execution; unset bounds use the built-in ones.
#[derive(Debug, Clone, Copy, PartialEq, Eq)]
pub struct FuelConfig {
    pub default: Option<u64>,
    pub minimum: Option<u64>,
    pub maximum: Option<u64>,
}

impl Default for FuelConfig {
    fn default() -> (c: Self)
        ensures
            c.default is None,
            c.minimum is None,
            c.maximum is None,
    {
        FuelConfig { default: None, minimum: None, maximum: None }
    }
}

impl FuelConfig {
    pub open spec fn spec_minimum(&self) -> u64 {
        match self.minimum {
            Some(m) => m,
            None => MIN_FUEL_LEVEL,
        }
    }

    pub open spec fn spec_maximum(&self) -> u64 {
        match self.maximum {
            Some(m) => m,
            None => MAX_FUEL_LEVEL,
        }
    }

    pub open spec fn spec_default(&self) -> u64 {
        match self.default {
            Some(d) => d,
            None => DEFAULT_FUEL_LEVEL,
        }
    }

    /// Law: with ordered bounds, a clamped level lies within them; a request
    /// within them is kept, one below the minimum becomes the minimum, and one
    /// above the maximum becomes the maximum.
    pub proof fn law_clamp_within_bounds(&self, requested: u64)
        requires
            self.spec_minimum() <= self.spec_maximum(),
        ensures
            self.spec_minimum() <= self.spec_clamp(requested) <= self.spec_maximum(),
            self.spec_minimum() <= requested <= self.spec_maximum() ==> self.spec_clamp(requested) == requested,
            requested < self.spec_minimum() ==> self.spec_clamp(requested) == self.spec_minimum(),
            requested > self.spec_maximum() ==> self.spec_clamp(requested) == self.spec_maximum(),
    {
    }

    /// A requested level brought within the configured bounds.
    pub open spec fn spec_clamp(&self, requested: u64) -> u64 {
        if requested < self.spec_minimum() {
            self.spec_minimum()
        } else if requested > self.spec_maximum() {
            self.spec_maximum()
        } else {
            requested
        }
    }

    /// The default fuel level, the built-in default if not configured.
    pub fn get_default(&self) -> (f: u64)
        ensures
            f == self.spec_default(),
    {
        self.default.unwrap_or(DEFAULT_FUEL_LEVEL)
    }

    /// The minimum fuel level, the built-in minimum if not configured.
    pub fn get_minimum(&self) -> (f: u64)
        ensures
            f == self.spec_minimum(),
    {
        self.minimum.unwrap_or(MIN_FUEL_LEVEL)
    }

    /// The maximum fuel level, the built-in maximum if not configured.
    pub fn get_maximum(&self) -> (f: u64)
        ensures
            f == self.spec_maximum(),
    {
        self.maximum.unwrap_or(MAX_FUEL_LEVEL)
    }

    /// Clamp a requested fuel level to the configured bounds.
    pub fn validate_and_clamp(&self, requested: u64) -> (f: u64)
        requires
            self.spec_minimum() <= self.spec_maximum(),
        ensures
            f == self.spec_clamp(requested),
            self.spec_minimum() <= f <= self.spec_maximum(),
    {
        let min = self.get_minimum();
        let max = self.get_maximum();
        if requested < min {
            min
        } else if requested > max {
            max
        } else {
            requested
        }
    }
}

/// WASM-specific configuration options.
#[derive(Debug, Clone, Copy, PartialEq, Eq)]
pub struct WasmConfig {
    pub fuel: FuelConfig,
}

impl Default for WasmConfig {
    fn default() -> (c: Self)
        ensures
            c.fuel.default is None,
            c.fuel.minimum is None,
            c.fuel.maximum is None,
    {
        WasmConfig { fuel: FuelConfig::default() }
    }
}

/// How conflicting keys are resolved when JSON results are merged.
#[derive(Debug, Clone, Copy, PartialEq, Eq, Structural)]
pub enum ConflictResolution {
    TakeFirst,
    TakeLast,
    Merge,
    Error,
}

/// How a result collector combines the results of its dependencies.
#[derive(Debug, Clone, PartialEq, Eq)]
pub enum CollectionStrategy {
    FirstAvailable,
    MergeMetadata { primary_source: String, metadata_sources: Vec<String> },
    Concatenate { separator: Option<String> },
    JsonMerge { merge_arrays: bool, conflict_resolution: ConflictResolution },
    Custom { combiner_impl: String },
}

impl CollectionStrategy {
    /// The same strategy: equal flags and resolutions, and strings with the same characters.
    pub open spec fn same_as(&self, other: CollectionStrategy) -> bool {
        match (*self, other) {
            (CollectionStrategy::FirstAvailable, CollectionStrategy::FirstAvailable) => true,
            (
                CollectionStrategy::MergeMetadata { primary_source: p1, metadata_sources: m1 },
                CollectionStrategy::MergeMetadata { primary_source: p2, metadata_sources: m2 },
            ) => p1@ == p2@ && crate::string_map::strs_view(m1@) == crate::string_map::strs_view(m2@),
            (CollectionStrategy::Concatenate { separator: s1 }, CollectionStrategy::Concatenate { separator: s2 }) =>
                (s1 is None && s2 is None) || (s1 is Some && s2 is Some && s1->0@ == s2->0@),
            (
                CollectionStrategy::JsonMerge { merge_arrays: a1, conflict_resolution: c1 },
                CollectionStrategy::JsonMerge { merge_arrays: a2, conflict_resolution: c2 },
            ) => a1 == a2 && c1 == c2,
            (CollectionStrategy::Custom { combiner_impl: c1 }, CollectionStrategy::Custom { combiner_impl: c2 }) => c1@ == c2@,
            _ => false,
        }
    }

    /// A copy of this strategy.
    pub fn duplicate(&self) -> (c: Self)
        ensures
            c.same_as(*self),
    {
        match self {
            CollectionStrategy::FirstAvailable => CollectionStrategy::FirstAvailable,
            CollectionStrategy::MergeMetadata { primary_source, metadata_sources } => {
                let m = metadata_sources.clone();
                proof {
                    assert(crate::string_map::strs_view(m@) =~= crate::string_map::strs_view(metadata_sources@));
                }
                CollectionStrategy::MergeMetadata { primary_source: primary_source.clone(), metadata_sources: m }
            },
            CollectionStrategy::Concatenate { separator } => CollectionStrategy::Concatenate {
                separator: match separator {
                    Some(s) => Some(s.clone()),
                    None => None,
                },
            },
            CollectionStrategy::JsonMerge { merge_arrays, conflict_resolution } => CollectionStrategy::JsonMerge {
                merge_arrays: *merge_arrays,
                conflict_resolution: *conflict_resolution,
            },
            CollectionStrategy::Custom { combiner_impl } => CollectionStrategy::Custom { combiner_impl: combiner_impl.clone() },
        }
    }
}

/// A processor option value, as written in a configuration file.
#[derive(Debug, Clone, PartialEq, Eq)]
pub enum ConfigValue {
    Null,
    Bool(bool),
    /// A number that fits an unsigned 64-bit integer.
    UInt(u64),
    /// A negative number that fits a signed 64-bit integer.
    Int(i64),
    /// Any other number (for example a fraction).
    OtherNumber,
    Str(String),
    /// A sequence whose items are all strings.
    StrSequence(Vec<String>),
    /// Any other sequence.
    OtherSequence,
    Mapping,
}

/// Configuration for a single processor (a node of the DAG).
#[derive(Debug, Clone)]
pub struct ProcessorConfig {
    pub id: String,
    pub backend: BackendType,
    /// Implementation name (local backends).
    pub processor: Option<String>,
    /// Network endpoint (RPC backends).
    pub endpoint: Option<String>,
    /// Module path (WASM backends).
    pub module: Option<String>,
    /// Ids of the processors this processor depends on.
    pub depends_on: Vec<String>,
    /// Collection strategy (result collectors).
    pub collection_strategy: Option<CollectionStrategy>,
    /// Processor-specific options.
    pub options: StringMap<ConfigValue>,
}

/// The complete configuration of a DAG workflow.
#[derive(Debug, Clone)]
pub struct Config {
    pub strategy: Strategy,
    pub failure_strategy: FailureStrategy,
    pub executor_options: ExecutorOptions,
    pub wasm: WasmConfig,
    pub processors: Vec<ProcessorConfig>,
}

/// DAG entry points: processors with no dependencies.
#[derive(Debug, Clone, PartialEq, Eq)]
pub struct EntryPoints(pub Vec<String>);

impl EntryPoints {
    /// Create a new empty entry point list.
    pub fn new() -> (e: Self)
        ensures
            e.0@ == Seq::<String>::empty(),
    {
        EntryPoints(Vec::new())
    }

    /// Wraps a list of entry points.
    pub fn from(entrypoints: Vec<String>) -> (e: Self)
        ensures
            e.0 == entrypoints,
    {
        EntryPoints(entrypoints)
    }

    /// Add an entry point.
    pub fn add(&mut self, processor_id: String)
        ensures
            final(self).0@ == old(self).0@.push(processor_id),
    {
        self.0.push(processor_id);
    }

    /// The entry points, in order.
    pub fn iter(&self) -> (s: &[String])
        ensures
            s@ == self.0@,
    {
        self.0.as_slice()
    }
}

} // verus!
