//! The interface of a WASM execution strategy and the errors it reports.
//!
//! An executor runs a loaded artifact synchronously on a byte input; its errors
//! say which strategy failed and how, and each has a user-facing text.
use vstd::prelude::*;
use vstd::string::*;
use crate::wasm::WasmError;

verus! {

/// What an executor reports about the artifact it runs.
#[derive(Debug, Clone)]
pub struct ExecutionMetadata {
    pub module_file: String,
    pub artifact_type: String,
    pub import_count: usize,
    pub capabilities: Vec<String>,
}

/// Failures of a component-model execution.
#[derive(Debug, Clone, PartialEq, Eq)]
pub enum ComponentExecutionError {
    InstantiationFailed(String),
    InterfaceNotFound(String),
    FunctionCallFailed(String),
    MemoryAllocationFailed(String),
    MemoryAccessFailed(String),
}

impl ComponentExecutionError {
    pub open spec fn spec_message(&self) -> Seq<char> {
        match self {
            ComponentExecutionError::InstantiationFailed(m) => "Component instantiation failed: "@ + m@,
            ComponentExecutionError::InterfaceNotFound(i) => "Required interface '"@ + i@ + "' not found in component"@,
            ComponentExecutionError::FunctionCallFailed(m) => "Component function call failed: "@ + m@,
            ComponentExecutionError::MemoryAllocationFailed(m) => "Component memory allocation failed: "@ + m@,
            ComponentExecutionError::MemoryAccessFailed(m) => "Component memory access failed: "@ + m@,
        }
    }

    /// The text of the error, as it is shown to users.
    pub fn message(&self) -> (s: String)
        ensures
            s@ == self.spec_message(),
    {
        match self {
            ComponentExecutionError::InstantiationFailed(m) => concat2("Component instantiation failed: ", m),
            ComponentExecutionError::InterfaceNotFound(i) => concat3("Required interface '", i, "' not found in component"),
            ComponentExecutionError::FunctionCallFailed(m) => concat2("Component function call failed: ", m),
            ComponentExecutionError::MemoryAllocationFailed(m) => concat2("Component memory allocation failed: ", m),
            ComponentExecutionError::MemoryAccessFailed(m) => concat2("Component memory access failed: ", m),
        }
    }
}

/// Failures around WASI.
#[derive(Debug, Clone, PartialEq, Eq)]
pub enum WasiExecutionError {
    ContextCreationFailed(String),
    FunctionNotAvailable(String),
    RuntimeError(String),
    MemoryError(String),
}

impl WasiExecutionError {
    pub open spec fn spec_message(&self) -> Seq<char> {
        match self {
            WasiExecutionError::ContextCreationFailed(m) => "WASI context creation failed: "@ + m@,
            WasiExecutionError::FunctionNotAvailable(f) => "Required WASI function '"@ + f@ + "' not available"@,
            WasiExecutionError::RuntimeError(m) => "WASI runtime error: "@ + m@,
            WasiExecutionError::MemoryError(m) => "WASI memory error: "@ + m@,
        }
    }

    /// The text of the error, as it is shown to users.
    pub fn message(&self) -> (s: String)
        ensures
            s@ == self.spec_message(),
    {
        match self {
            WasiExecutionError::ContextCreationFailed(m) => concat2("WASI context creation failed: ", m),
            WasiExecutionError::FunctionNotAvailable(f) => concat3("Required WASI function '", f, "' not available"),
            WasiExecutionError::RuntimeError(m) => concat2("WASI runtime error: ", m),
            WasiExecutionError::MemoryError(m) => concat2("WASI memory error: ", m),
        }
    }
}

/// Failures of a C-style module execution.
#[derive(Debug, Clone, PartialEq, Eq)]
pub enum CStyleExecutionError {
    FunctionNotFound(String),
    SignatureMismatch(String),
    AllocationFailed(String),
    FunctionExecutionFailed(String),
}

impl CStyleExecutionError {
    pub open spec fn spec_message(&self) -> Seq<char> {
        match self {
            CStyleExecutionError::FunctionNotFound(f) => "Required function '"@ + f@ + "' not found in module exports"@,
            CStyleExecutionError::SignatureMismatch(m) => "Function signature mismatch: "@ + m@,
            CStyleExecutionError::AllocationFailed(m) => "Memory allocation failed: "@ + m@,
            CStyleExecutionError::FunctionExecutionFailed(m) => "C-Style execution failed: "@ + m@,
        }
    }

    /// The text of the error, as it is shown to users.
    pub fn message(&self) -> (s: String)
        ensures
            s@ == self.spec_message(),
    {
        match self {
            CStyleExecutionError::FunctionNotFound(f) => concat3("Required function '", f, "' not found in module exports"),
            CStyleExecutionError::SignatureMismatch(m) => concat2("Function signature mismatch: ", m),
            CStyleExecutionError::AllocationFailed(m) => concat2("Memory allocation failed: ", m),
            CStyleExecutionError::FunctionExecutionFailed(m) => concat2("C-Style execution failed: ", m),
        }
    }
}

/// Any failure of an executor.
#[derive(Debug, Clone, PartialEq, Eq)]
pub enum ProcessingNodeError {
    ComponentError(ComponentExecutionError),
    WasiError(WasiExecutionError),
    CStyleError(CStyleExecutionError),
    InputError(String),
    ValidationError(String),
    RuntimeError(String),
}

impl ProcessingNodeError {
    pub open spec fn spec_message(&self) -> Seq<char> {
        match self {
            ProcessingNodeError::ComponentError(e) => "Component execution error: "@ + e.spec_message(),
            ProcessingNodeError::WasiError(e) => "WASI execution error: "@ + e.spec_message(),
            ProcessingNodeError::CStyleError(e) => "C-Style execution error: "@ + e.spec_message(),
            ProcessingNodeError::InputError(m) => "Input error: "@ + m@,
            ProcessingNodeError::ValidationError(m) => "Validation error: "@ + m@,
            ProcessingNodeError::RuntimeError(m) => "Runtime error: "@ + m@,
        }
    }

    /// The text of the error, as it is shown to users.
    pub fn message(&self) -> (s: String)
        ensures
            s@ == self.spec_message(),
    {
        match self {
            ProcessingNodeError::ComponentError(e) => concat2("Component execution error: ", &e.message()),
            ProcessingNodeError::WasiError(e) => concat2("WASI execution error: ", &e.message()),
            ProcessingNodeError::CStyleError(e) => concat2("C-Style execution error: ", &e.message()),
            ProcessingNodeError::InputError(m) => concat2("Input error: ", m),
            ProcessingNodeError::ValidationError(m) => concat2("Validation error: ", m),
            ProcessingNodeError::RuntimeError(m) => concat2("Runtime error: ", m),
        }
    }

    /// A failure of the WASM backend, seen from an executor: a runtime error
    /// with the backend error's text.
    pub fn from_wasm_error(error: &WasmError) -> (e: ProcessingNodeError)
        ensures
            e matches ProcessingNodeError::RuntimeError(m) && m@ == error.spec_message(),
    {
        ProcessingNodeError::RuntimeError(error.message())
    }

    /// An executor's failure, seen from the WASM backend: a processor error with
    /// the executor error's text.
    pub fn into_wasm_error(&self) -> (e: WasmError)
        ensures
            e matches WasmError::ProcessorError(m) && m@ == self.spec_message(),
    {
        WasmError::ProcessorError(self.message())
    }
}

impl From<String> for ProcessingNodeError {
    fn from(error: String) -> (e: Self) {
        ProcessingNodeError::RuntimeError(error)
    }
}

impl vstd::std_specs::convert::FromSpecImpl<String> for ProcessingNodeError {
    open spec fn obeys_from_spec() -> bool {
        true
    }

    open spec fn from_spec(error: String) -> Self {
        ProcessingNodeError::RuntimeError(error)
    }
}

fn concat2(a: &str, b: &String) -> (s: String)
    ensures
        s@ == a@ + b@,
{
    let mut s = a.to_owned();
    s.append(b.as_str());
    s
}

fn concat3(a: &str, b: &String, c: &str) -> (s: String)
    ensures
        s@ == a@ + b@ + c@,
{
    let mut s = a.to_owned();
    s.append(b.as_str());
    s.append(c);
    s
}

/// A WASM execution strategy: runs a loaded artifact on an input, synchronously.
///
/// Each strategy says, by `runs`, what a run on an input may give back; an
/// implementation that does not say it claims nothing of its runs.
pub trait ProcessingNodeExecutor {
    /// `r` is an outcome that running the artifact on `input` may give.
    open spec fn runs(&self, input: Seq<u8>, r: Result<Vec<u8>, ProcessingNodeError>) -> bool {
        true
    }

    fn execute(&self, input: &[u8]) -> (r: Result<Vec<u8>, ProcessingNodeError>)
        ensures
            self.runs(input@, r),
    ;

    fn artifact_type(&self) -> &'static str;

    fn capabilities(&self) -> Vec<String>;

    fn execution_metadata(&self) -> ExecutionMetadata;
}

/// The older way of creating executors, which no longer creates any.
pub struct ProcessingNodeFactory;

impl ProcessingNodeFactory {
    /// Always refuses, naming the way executors are created now.
    pub fn create_executor<M, E>(_loaded_module: M) -> (r: Result<E, ProcessingNodeError>)
        ensures
            r matches Err(ProcessingNodeError::ValidationError(m)) && m@ == FACTORY_REFUSAL@,
    {
        Err(ProcessingNodeError::ValidationError(FACTORY_REFUSAL.to_string()))
    }
}

/// What the older factory answers.
pub const FACTORY_REFUSAL: &'static str = "ProcessingNodeFactory is deprecated. Use factory::create_executor() with the new ADR-17 flow instead.";

} // verus!
