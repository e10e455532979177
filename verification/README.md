# The DAGwood, verified

A library for running processors arranged as a directed acyclic graph:
configuration checks, dependency graphs, topological orders and levels,
priority scheduling, reactive completion tracking, result collectors, the
text and JSON processors, and the WASM backend: binary detection, the
C-style memory protocol as a state machine, and the executors that compile
and run modules with wasmtime.

Layout:

- `src/` — the library, written in Verus. Its functions are verified against
  their contracts (small getters and builders say only what they return), and
  the laws of the graph model, the level computation, the priority queue
  and the C-style protocol are stated there as public proof functions
  (`law_*`). The calls into wasmtime sit behind the trusted wrappers of
  `src/wasmtime_calls.rs`.
- `tests/` — ordinary Rust tests against the compiled library.
- `app/` — the unverified shell: configuration loading (serde), the async
  executors that drive the library's state machines, and reading WASM files.

Component-model (WIT) components are compiled and described, but not run:
running one needs bindings generated from the DAGwood WIT interface
definition, which this project does not include, so `WitNodeExecutor::execute`
returns an instantiation error saying so. Core modules that follow the C-style
memory protocol are run.
