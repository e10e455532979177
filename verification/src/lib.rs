//! The DAGwood: a library for exploring DAG execution strategies.
//!
//! The verified core of the library holds the graph algorithms (dependency
//! counting, reverse dependencies, Kahn and depth-first topological sorting,
//! level computation), the scheduling structures (the priority work queue and
//! the per-strategy scheduling decisions), configuration validation, the
//! metadata merging rules, the text processors and result collectors, and the
//! WASM backend: binary detection, the C-style memory protocol, and the
//! executors that run modules with wasmtime.

pub mod string_map;
pub mod graph_model;
pub mod graph;
pub mod graph_dfs;
pub mod kahn_graph;
pub mod errors;
pub mod config;
pub mod proto;
pub mod metadata;
pub mod priority_work_queue;
pub mod work_queue;
pub mod reactive;
pub mod level_by_level;
pub mod validation;
pub mod text;
pub mod processors;
pub mod json;
pub mod collectors;
pub mod factory;
pub mod wasm;
pub mod processing_node;
pub mod cstyle;
pub mod wasmtime_calls;
pub mod wasm_runtime;
pub mod processor_map;
pub mod executor_factory;
