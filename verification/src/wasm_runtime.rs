//! Running WASM modules with wasmtime: creating engines, compiling modules and
//! components, and driving a C-style module through its memory protocol.
//!
//! wasmtime's values (engines, modules, stores, instances, memories, typed
//! functions) are opaque here: they are carried from one call to the next (see
//! `wasmtime_calls`). The decisions between the calls are the library's and are
//! verified; see `cstyle` for the protocol itself.
use vstd::prelude::*;
use vstd::string::*;
use vstd::utf8::encode_utf8;
use crate::wasm::{
    ComponentType, WasmError, ModuleImport, ImportType, MAX_WASM_SIZE, check_module_size, parse_module_imports,
    starts_with, allowed_wasi_functions, WasmProcessor, WasmSettings, detect_component_type, wasm_payloads,
    wasm_parse_error, last_encoding, has_component_section, WASM_UNSUPPORTED_ENCODING,
};
use crate::cstyle::{
    CStyleAction, CStyleEvent, CStyleExports, CStylePhase, CStyleRun, LegacyCStyleRun, begins, runs, steps,
    waits_for, phase_rank, lemma_step_advances, legacy_begins, legacy_runs, legacy_steps,
    lemma_legacy_step_advances, c_string_input, decode_c_string, check_input_size, c_string_read,
    MAX_INPUT_SIZE,
};
use crate::processing_node::{ComponentExecutionError, ExecutionMetadata, ProcessingNodeError, ProcessingNodeExecutor};
use crate::text::{decimal, decimal_string};
use crate::string_map::str_equal;
use crate::wasmtime_calls::{
    engine_new, engine_with_features, module_new, component_new, module_imports, instantiate, instance_fuel,
    component_instantiate, call_process, call_allocate, call_deallocate, memory_write, memory_read, clock_now,
    elapsed_millis, ModuleInstance, exports_memory, exports_i32_function, instantiation_failure,
    allocate_outcome, deallocate_outcome, process_outcome, outcome_view, OUT_OF_BOUNDS_ACCESS, compiled_from,
    component_instantiation, compiled_component_instantiation, declared_imports, pairs_view,
};

verus! {

/// Creates the engine for a kind of binary: with component-model support for a
/// component; with fuel consumption, and without the component model, for a
/// C-style module. A failure is an engine error with wasmtime's text.
pub fn create_engine(component_type: ComponentType) -> (r: Result<wasmtime::Engine, WasmError>)
    ensures
        r matches Err(e) ==> e is EngineError,
{
    let created = match component_type {
        ComponentType::Wit => engine_new(true, false),
        ComponentType::CStyle => engine_new(false, true),
    };
    match created {
        Ok(engine) => Ok(engine),
        Err(m) => Err(WasmError::EngineError(m)),
    }
}

/// What a read of `len` bytes at `offset` of the memory `mem` gives: the bytes
/// there when they lie within it, else the out-of-bounds error.
pub open spec fn read_gives(mem: Seq<u8>, offset: int, len: int, r: Result<Vec<u8>, String>) -> bool {
    &&& r is Ok <==> offset + len <= mem.len()
    &&& r matches Ok(b) ==> b@ == mem.subrange(offset, offset + len)
    &&& r matches Err(m) ==> m@ == OUT_OF_BOUNDS_ACCESS@
}

/// The call `a`, made on the instance `i` as it stands, gave `e`: a write
/// writes `written`, a read reads the memory, and a call into the module gives
/// its named outcome with exactly the arguments that `a` holds. (A read of a
/// negative length is the out-of-bounds failure that any read past the end of a
/// 32-bit memory gives.)
pub open spec fn call_gives(i: ModuleInstance, a: CStyleAction, written: Seq<u8>, e: CStyleEvent) -> bool {
    match a {
        CStyleAction::Allocate { size } => e matches CStyleEvent::Pointer(r)
            && outcome_view(r) == allocate_outcome(i.store(), i.allocate()->0, size),
        CStyleAction::WriteInput { ptr } => e matches CStyleEvent::Unit(r)
            && (r is Ok <==> (ptr as usize) + written.len() <= i.bytes().len())
            && (r matches Err(m) ==> m@ == OUT_OF_BOUNDS_ACCESS@),
        CStyleAction::CallProcess { input_ptr, input_len, output_len_ptr } => e matches CStyleEvent::Pointer(r)
            && outcome_view(r) == process_outcome(i.store(), i.process()->0, input_ptr, input_len, output_len_ptr),
        CStyleAction::Deallocate { ptr, size } => e matches CStyleEvent::Unit(r)
            && outcome_view(r) == deallocate_outcome(i.store(), i.deallocate()->0, ptr, size),
        CStyleAction::ReadLength { ptr } => e matches CStyleEvent::Bytes(r) && read_gives(i.bytes(), (ptr as usize) as int, 4, r),
        CStyleAction::ReadOutput { ptr, len } => e matches CStyleEvent::Bytes(r) && if len < 0 {
            r matches Err(m) && m@ == OUT_OF_BOUNDS_ACCESS@
        } else {
            read_gives(i.bytes(), (ptr as usize) as int, len as int, r)
        },
        _ => false,
    }
}

/// What the call `a`, which gave `e`, left of the instance `i`: the same
/// exports; a successful write has put `written` at the pointer and changed
/// nothing else of the memory, a failed one changed nothing; a read changes
/// nothing. What a call into the module does to its store is its own.
pub open spec fn call_leaves(i: ModuleInstance, a: CStyleAction, written: Seq<u8>, e: CStyleEvent, after: ModuleInstance) -> bool {
    &&& after.same_exports(i)
    &&& match a {
        CStyleAction::WriteInput { ptr } => {
            &&& (e matches CStyleEvent::Unit(Ok(_))) ==> after.bytes() == i.bytes().take((ptr as usize) as int) + written
                + i.bytes().skip((ptr as usize) + written.len())
            &&& !(e matches CStyleEvent::Unit(Ok(_))) ==> after.bytes() == i.bytes()
        },
        CStyleAction::ReadLength { .. } | CStyleAction::ReadOutput { .. } => after == i,
        _ => true,
    }
}

/// The exports of the C-style protocol that an instance holds.
pub open spec fn instance_exports(i: ModuleInstance) -> CStyleExports {
    CStyleExports {
        memory: i.memory() is Some,
        process: i.process() is Some,
        allocate: i.allocate() is Some,
        deallocate: i.deallocate() is Some,
    }
}

/// The exports of the C-style protocol that a module declares.
pub open spec fn module_exports(module: wasmtime::Module) -> CStyleExports {
    CStyleExports {
        memory: exports_memory(module, "memory"@),
        process: exports_i32_function(module, "process"@, 3, 1),
        allocate: exports_i32_function(module, "allocate"@, 1, 1),
        deallocate: exports_i32_function(module, "deallocate"@, 2, 0),
    }
}

/// The call asked for after the calls `calls` (the first one, `a0`, before any).
pub open spec fn asked(a0: CStyleAction, calls: Seq<CStyleAction>) -> CStyleAction {
    if calls.len() == 0 { a0 } else { calls.last() }
}

/// The run `last` and the instance `i` follow from `first` and `i0` by steps of
/// the protocol that asked in turn for `calls`, where each step's event is what
/// the call asked for gave on the instance as it stood (see `call_gives`), and
/// each call left the instance as `call_leaves` says.
pub open spec fn drives(
    first: CStyleRun,
    i0: ModuleInstance,
    a0: CStyleAction,
    written: Seq<u8>,
    last: CStyleRun,
    i: ModuleInstance,
    calls: Seq<CStyleAction>,
) -> bool
    decreases calls.len(),
{
    if calls.len() == 0 {
        last == first && i == i0
    } else {
        exists|mid: CStyleRun, im: ModuleInstance, e: CStyleEvent|
            #![trigger steps(mid, e, last, calls.last()), call_leaves(im, asked(a0, calls.drop_last()), written, e, i)]
            drives(first, i0, a0, written, mid, im, calls.drop_last())
                && call_gives(im, asked(a0, calls.drop_last()), written, e)
                && call_leaves(im, asked(a0, calls.drop_last()), written, e, i)
                && steps(mid, e, last, calls.last())
    }
}

/// The outcome of the C-style protocol run on the instance `i0` with `input`:
/// the run that starts on the instance's exports, and in which every call is
/// made on the instance as `drives` says, finishes with it.
pub open spec fn instance_outcome(i0: ModuleInstance, input: Seq<u8>, r: Result<Vec<u8>, ProcessingNodeError>) -> bool {
    exists|first: CStyleRun, a0: CStyleAction, last: CStyleRun, i: ModuleInstance, calls: Seq<CStyleAction>|
        #![trigger begins(first, a0, input.len(), instance_exports(i0)), drives(first, i0, a0, input, last, i, calls)]
        begins(first, a0, input.len(), instance_exports(i0)) && drives(first, i0, a0, input, last, i, calls)
            && last.phase == CStylePhase::Done && last.outcome == Some(r)
}

/// A run driven on an instance is a run of the protocol.
pub proof fn lemma_drives_runs(
    first: CStyleRun,
    i0: ModuleInstance,
    a0: CStyleAction,
    written: Seq<u8>,
    last: CStyleRun,
    i: ModuleInstance,
    calls: Seq<CStyleAction>,
)
    requires
        drives(first, i0, a0, written, last, i, calls),
    ensures
        runs(first, last, calls),
    decreases calls.len(),
{
    if calls.len() > 0 {
        let (mid, im, e) = choose|mid: CStyleRun, im: ModuleInstance, e: CStyleEvent|
            #![trigger steps(mid, e, last, calls.last()), call_leaves(im, asked(a0, calls.drop_last()), written, e, i)]
            drives(first, i0, a0, written, mid, im, calls.drop_last())
                && call_gives(im, asked(a0, calls.drop_last()), written, e)
                && call_leaves(im, asked(a0, calls.drop_last()), written, e, i)
                && steps(mid, e, last, calls.last());
        lemma_drives_runs(first, i0, a0, written, mid, im, calls.drop_last());
    }
}

/// Makes the call the protocol asks for on the instance and hands back its
/// outcome (see `call_gives` and `call_leaves`).
fn perform(action: CStyleAction, inst: &mut ModuleInstance, written: &[u8]) -> (e: CStyleEvent)
    requires
        !(action is Finish),
        !(action is DecodeOutput),
        old(inst).memory() is Some,
        old(inst).process() is Some,
        old(inst).allocate() is Some,
        old(inst).deallocate() is Some,
    ensures
        call_gives(*old(inst), action, written@, e),
        call_leaves(*old(inst), action, written@, e, *final(inst)),
{
    match action {
        CStyleAction::Allocate { size } => CStyleEvent::Pointer(call_allocate(inst, size)),
        CStyleAction::WriteInput { ptr } => CStyleEvent::Unit(memory_write(inst, ptr as usize, written)),
        CStyleAction::CallProcess { input_ptr, input_len, output_len_ptr } => {
            CStyleEvent::Pointer(call_process(inst, input_ptr, input_len, output_len_ptr))
        },
        CStyleAction::Deallocate { ptr, size } => CStyleEvent::Unit(call_deallocate(inst, ptr, size)),
        CStyleAction::ReadLength { ptr } => CStyleEvent::Bytes(memory_read(inst, ptr as usize, 4)),
        CStyleAction::ReadOutput { ptr, len } => {
            if len < 0 {
                CStyleEvent::Bytes(Err(String::from_str(OUT_OF_BOUNDS_ACCESS)))
            } else {
                CStyleEvent::Bytes(memory_read(inst, ptr as usize, len as usize))
            }
        },
        _ => CStyleEvent::Unit(Ok(())),
    }
}

/// The exports an instance holds, as the protocol sees them.
fn exports_of(inst: &ModuleInstance) -> (x: CStyleExports)
    ensures
        x == instance_exports(*inst),
{
    CStyleExports {
        memory: inst.has_memory(),
        process: inst.has_process(),
        allocate: inst.has_allocate(),
        deallocate: inst.has_deallocate(),
    }
}

/// Runs the C-style protocol on an instance: the protocol decides each call
/// and this makes it, until it finishes.
fn run_c_style_protocol(inst: &mut ModuleInstance, input: &[u8]) -> (r: Result<Vec<u8>, ProcessingNodeError>)
    requires
        input@.len() <= i32::MAX,
    ensures
        instance_outcome(*old(inst), input@, r),
{
    let ghost i0 = *inst;
    let exports = exports_of(inst);
    let (mut run, mut action) = CStyleRun::start(input.len(), exports);
    let ghost first = run;
    let ghost a0 = action;
    let ghost mut calls: Seq<CStyleAction> = Seq::empty();
    if exports.memory && exports.process && exports.allocate && exports.deallocate {
        while action != CStyleAction::Finish
            invariant
                run.wf(),
                waits_for(run.phase, action),
                action == asked(a0, calls),
                drives(first, i0, a0, input@, run, *inst, calls),
                begins(first, a0, input@.len(), exports),
                exports == instance_exports(i0),
                inst.same_exports(i0),
                exports.memory && exports.process && exports.allocate && exports.deallocate,
            decreases 15 - phase_rank(run.phase),
        {
            let ghost ib = *inst;
            let event = perform(action, inst, input);
            let ghost before = run;
            let ghost ev = event;
            let next = run.step(event);
            proof {
                lemma_step_advances(before, ev, run, next);
                let c2 = calls.push(next);
                assert(c2.drop_last() =~= calls);
                assert(c2.last() == next);
                assert(drives(first, i0, a0, input@, before, ib, c2.drop_last()) && steps(before, ev, run, c2.last())
                    && call_leaves(ib, asked(a0, c2.drop_last()), input@, ev, *inst));
                calls = c2;
            }
            action = next;
        }
    }
    proof {
        assert(run.phase == CStylePhase::Done);
        assert(begins(first, a0, input@.len(), instance_exports(i0)) && drives(first, i0, a0, input@, run, *inst, calls));
    }
    match run.outcome {
        Some(outcome) => outcome,
        None => Err(ProcessingNodeError::RuntimeError(String::new())),
    }
}

/// The error for an input longer than a 32-bit module can address.
pub open spec fn oversized_input_text(len: nat) -> Seq<char> {
    "Input of "@ + decimal(len) + " bytes does not fit in a 32-bit module's memory"@
}

fn oversized_input(len: usize) -> (e: ProcessingNodeError)
    ensures
        e matches ProcessingNodeError::InputError(m) && m@ == oversized_input_text(len as nat),
{
    let mut m = String::from_str("Input of ");
    m.append(decimal_string(len).as_str());
    m.append(" bytes does not fit in a 32-bit module's memory");
    ProcessingNodeError::InputError(m)
}

/// The capabilities a C-style module has.
pub open spec fn cstyle_capabilities() -> Seq<Seq<char>> {
    seq!["c-style"@, "sandboxed"@, "no-system-access"@]
}

/// Runs classic core modules that follow the C-style memory protocol (see
/// `cstyle`), each run in a fresh store with the executor's fuel.
pub struct CStyleNodeExecutor {
    module: wasmtime::Module,
    engine: wasmtime::Engine,
    fuel_level: u64,
}

impl CStyleNodeExecutor {
    /// The fuel each run starts with.
    pub closed spec fn fuel(&self) -> u64 {
        self.fuel_level
    }

    /// The module it runs.
    pub closed spec fn module(&self) -> wasmtime::Module {
        self.module
    }

    /// The engine its stores are made for.
    pub closed spec fn engine(&self) -> wasmtime::Engine {
        self.engine
    }

    /// An executor for a compiled module; it always succeeds.
    pub fn new(module: wasmtime::Module, engine: wasmtime::Engine, fuel_level: u64) -> (r: Result<Self, ProcessingNodeError>)
        ensures
            r matches Ok(x) && x.fuel() == fuel_level && x.module() == module && x.engine() == engine,
    {
        Ok(CStyleNodeExecutor { module, engine, fuel_level })
    }

    /// The fuel each run starts with.
    pub fn fuel_level(&self) -> (f: u64)
        ensures
            f == self.fuel(),
    {
        self.fuel_level
    }

    /// Runs the protocol on an instance, for an input that a 32-bit module can
    /// address (a longer one is an input error).
    fn execute_c_style_process(&self, inst: &mut ModuleInstance, input: &[u8]) -> (r: Result<Vec<u8>, ProcessingNodeError>)
        ensures
            input@.len() > i32::MAX ==> (r matches Err(ProcessingNodeError::InputError(m))
                && m@ == oversized_input_text(input@.len())),
            input@.len() <= i32::MAX ==> instance_outcome(*old(inst), input@, r),
    {
        if input.len() > 2147483647 {
            return Err(oversized_input(input.len()));
        }
        run_c_style_protocol(inst, input)
    }
}

impl ProcessingNodeExecutor for CStyleNodeExecutor {
    open spec fn runs(&self, input: Seq<u8>, r: Result<Vec<u8>, ProcessingNodeError>) -> bool {
        cstyle_run_result(*self, input, r)
    }

    /// Instantiates the module in a fresh store with the executor's fuel and
    /// runs the protocol on the input (see `cstyle_run_result`).
    fn execute(&self, input: &[u8]) -> (r: Result<Vec<u8>, ProcessingNodeError>)
        ensures
            cstyle_run_result(*self, input@, r),
    {
        let mut inst = match instantiate(&self.engine, &self.module, self.fuel_level, "memory", "process", "allocate", "deallocate") {
            Ok(inst) => inst,
            Err(e) => return Err(ProcessingNodeError::RuntimeError(e)),
        };
        proof {
            reveal_strlit("memory");
            reveal_strlit("process");
            reveal_strlit("allocate");
            reveal_strlit("deallocate");
        }
        let ghost i0 = inst;
        let r = self.execute_c_style_process(&mut inst, input);
        proof {
            assert(instance_exports(i0) == module_exports(self.module()));
        }
        r
    }

    fn artifact_type(&self) -> (t: &'static str)
        ensures
            t@ == "C-Style"@,
    {
        "C-Style"
    }

    fn capabilities(&self) -> (c: Vec<String>)
        ensures
            c@.map_values(|s: String| s@) == cstyle_capabilities(),
    {
        let c = vec![String::from_str("c-style"), String::from_str("sandboxed"), String::from_str("no-system-access")];
        proof {
            assert(c@.map_values(|s: String| s@) =~= cstyle_capabilities());
        }
        c
    }

    fn execution_metadata(&self) -> (m: ExecutionMetadata)
        ensures
            m.module_file@.len() == 0,
            m.artifact_type@ == "C-Style"@,
            m.import_count == 0,
            m.capabilities@.map_values(|s: String| s@) == cstyle_capabilities(),
    {
        ExecutionMetadata {
            module_file: String::new(),
            artifact_type: self.artifact_type().to_string(),
            import_count: 0,
            capabilities: self.capabilities(),
        }
    }
}

/// The text of a component-model run: the library holds no bindings for the
/// processing interface of DAGwood components, so a component is compiled and
/// described but not run.
pub const NO_COMPONENT_BINDINGS: &'static str = "no bindings for the dagwood-component world are compiled into this library";

/// Holds a compiled component-model component.
pub struct WitNodeExecutor {
    component: wasmtime::component::Component,
    engine: wasmtime::Engine,
}

impl WitNodeExecutor {
    /// The component it holds.
    pub closed spec fn component(&self) -> wasmtime::component::Component {
        self.component
    }

    /// The engine the component was compiled for.
    pub closed spec fn engine(&self) -> wasmtime::Engine {
        self.engine
    }

    /// An executor for a compiled component; it always succeeds.
    pub fn new(component: wasmtime::component::Component, engine: wasmtime::Engine) -> (r: Result<Self, ProcessingNodeError>)
        ensures
            r matches Ok(x) && x.component() == component && x.engine() == engine,
    {
        Ok(WitNodeExecutor { component, engine })
    }
}

impl ProcessingNodeExecutor for WitNodeExecutor {
    open spec fn runs(&self, input: Seq<u8>, r: Result<Vec<u8>, ProcessingNodeError>) -> bool {
        r matches Err(ProcessingNodeError::ComponentError(ComponentExecutionError::InstantiationFailed(m)))
            && m@ == NO_COMPONENT_BINDINGS@
    }

    /// Refuses: see `NO_COMPONENT_BINDINGS`.
    fn execute(&self, input: &[u8]) -> (r: Result<Vec<u8>, ProcessingNodeError>)
        ensures
            r matches Err(ProcessingNodeError::ComponentError(ComponentExecutionError::InstantiationFailed(m)))
                && m@ == NO_COMPONENT_BINDINGS@,
    {
        Err(ProcessingNodeError::ComponentError(ComponentExecutionError::InstantiationFailed(
            String::from_str(NO_COMPONENT_BINDINGS),
        )))
    }

    fn artifact_type(&self) -> (t: &'static str)
        ensures
            t@ == "WIT Component"@,
    {
        "WIT Component"
    }

    fn capabilities(&self) -> (c: Vec<String>)
        ensures
            c@.len() == 0,
    {
        let c: Vec<String> = Vec::new();
        proof {
            assert(c@.map_values(|s: String| s@) =~= Seq::<Seq<char>>::empty());
        }
        c
    }

    fn execution_metadata(&self) -> (m: ExecutionMetadata)
        ensures
            m.module_file@.len() == 0,
            m.artifact_type@ == "WIT Component"@,
            m.import_count == 0,
            m.capabilities@.len() == 0,
    {
        ExecutionMetadata {
            module_file: String::new(),
            artifact_type: self.artifact_type().to_string(),
            import_count: 0,
            capabilities: self.capabilities(),
        }
    }
}

/// The executor made for a WASM binary, by its kind.
pub enum WasmNodeExecutor {
    CStyle(CStyleNodeExecutor),
    Wit(WitNodeExecutor),
}

/// What running the executor's module on the input gives: wasmtime's error as
/// a runtime error when the module cannot be instantiated with the executor's
/// engine and fuel; else the input-size error, or the outcome of the protocol
/// on the instance of the module that instantiation gave with that engine and
/// fuel, before any call was made on it (its exports are the module's).
pub open spec fn cstyle_run_result(x: CStyleNodeExecutor, input: Seq<u8>, r: Result<Vec<u8>, ProcessingNodeError>) -> bool {
    match instantiation_failure(x.engine(), x.module(), x.fuel()) {
        Some(m) => r matches Err(ProcessingNodeError::RuntimeError(t)) && t@ == m,
        None => {
            &&& input.len() > i32::MAX ==> (r matches Err(ProcessingNodeError::InputError(m))
                && m@ == oversized_input_text(input.len()))
            &&& input.len() <= i32::MAX ==> exists|i0: ModuleInstance|
                i0.origin() == (x.engine(), x.module(), x.fuel()) && i0.calls() == 0
                    && instance_exports(i0) == module_exports(x.module()) && #[trigger] instance_outcome(i0, input, r)
        },
    }
}

impl ProcessingNodeExecutor for WasmNodeExecutor {
    open spec fn runs(&self, input: Seq<u8>, r: Result<Vec<u8>, ProcessingNodeError>) -> bool {
        match self {
            WasmNodeExecutor::CStyle(x) => x.runs(input, r),
            WasmNodeExecutor::Wit(x) => x.runs(input, r),
        }
    }

    fn execute(&self, input: &[u8]) -> (r: Result<Vec<u8>, ProcessingNodeError>)
        ensures
            self matches WasmNodeExecutor::CStyle(x) ==> cstyle_run_result(*x, input@, r),
            self is Wit ==> (r matches Err(ProcessingNodeError::ComponentError(
                ComponentExecutionError::InstantiationFailed(m))) && m@ == NO_COMPONENT_BINDINGS@),
    {
        match self {
            WasmNodeExecutor::CStyle(x) => x.execute(input),
            WasmNodeExecutor::Wit(x) => x.execute(input),
        }
    }

    fn artifact_type(&self) -> (t: &'static str)
        ensures
            self is CStyle ==> t@ == "C-Style"@,
            self is Wit ==> t@ == "WIT Component"@,
    {
        match self {
            WasmNodeExecutor::CStyle(x) => x.artifact_type(),
            WasmNodeExecutor::Wit(x) => x.artifact_type(),
        }
    }

    fn capabilities(&self) -> (c: Vec<String>)
        ensures
            self is CStyle ==> c@.map_values(|s: String| s@) == cstyle_capabilities(),
            self is Wit ==> c@.len() == 0,
    {
        match self {
            WasmNodeExecutor::CStyle(x) => x.capabilities(),
            WasmNodeExecutor::Wit(x) => x.capabilities(),
        }
    }

    fn execution_metadata(&self) -> (m: ExecutionMetadata)
        ensures
            m.module_file@.len() == 0,
            m.import_count == 0,
            self is CStyle ==> m.artifact_type@ == "C-Style"@ && m.capabilities@.map_values(|s: String| s@)
                == cstyle_capabilities(),
            self is Wit ==> m.artifact_type@ == "WIT Component"@ && m.capabilities@.len() == 0,
    {
        match self {
            WasmNodeExecutor::CStyle(x) => x.execution_metadata(),
            WasmNodeExecutor::Wit(x) => x.execution_metadata(),
        }
    }
}

/// The start of the error for a binary that does not compile as its kind.
pub open spec fn parse_failure_prefix(component_type: ComponentType) -> Seq<char> {
    match component_type {
        ComponentType::Wit => "Failed to parse Component Model component: "@,
        ComponentType::CStyle => "Failed to parse classic WASM module: "@,
    }
}

/// Makes the executor for a WASM binary of the given kind: creates its engine
/// (see `create_engine`) and compiles the binary as a component or as a core
/// module. A binary that does not compile is a module error whose text starts
/// with `parse_failure_prefix` and ends with wasmtime's.
pub fn create_executor(bytes: &[u8], component_type: ComponentType, fuel_level: u64) -> (r: Result<WasmNodeExecutor, WasmError>)
    ensures
        r matches Ok(WasmNodeExecutor::CStyle(x)) ==> component_type == ComponentType::CStyle && x.fuel() == fuel_level
            && compiled_from(x.engine(), x.module(), bytes@),
        r matches Ok(WasmNodeExecutor::Wit(x)) ==> component_type == ComponentType::Wit
            && forall|f: u64| #[trigger] component_instantiation(x.component(), f)
                == compiled_component_instantiation(x.engine(), bytes@, f),
        r matches Err(e) ==> e is EngineError || (e matches WasmError::ModuleError(m)
            && m@.len() >= parse_failure_prefix(component_type).len()
            && m@.take(parse_failure_prefix(component_type).len() as int) == parse_failure_prefix(component_type)),
{
    let engine = match create_engine(component_type) {
        Ok(engine) => engine,
        Err(e) => return Err(e),
    };
    match component_type {
        ComponentType::Wit => match component_new(&engine, bytes) {
            Ok(component) => match WitNodeExecutor::new(component, engine) {
                Ok(x) => Ok(WasmNodeExecutor::Wit(x)),
                Err(e) => Err(e.into_wasm_error()),
            },
            Err(m) => Err(WasmError::ModuleError(prefixed("Failed to parse Component Model component: ", &m))),
        },
        ComponentType::CStyle => match module_new(&engine, bytes) {
            Ok(module) => match CStyleNodeExecutor::new(module, engine, fuel_level) {
                Ok(x) => Ok(WasmNodeExecutor::CStyle(x)),
                Err(e) => Err(e.into_wasm_error()),
            },
            Err(m) => Err(WasmError::ModuleError(prefixed("Failed to parse classic WASM module: ", &m))),
        },
    }
}

fn prefixed(prefix: &str, detail: &String) -> (m: String)
    ensures
        m@ == prefix@ + detail@,
{
    let mut m = prefix.to_owned();
    m.append(detail.as_str());
    m
}

/// A compiled WASM binary: a core module or a component.
pub enum WasmArtifact {
    Module(wasmtime::Module),
    Component(wasmtime::component::Component),
}

/// A binary compiled for the legacy executor, with its engine and the imports
/// it declares.
pub struct LoadedModule {
    pub engine: wasmtime::Engine,
    pub artifact: WasmArtifact,
    pub imports: Vec<ModuleImport>,
    pub module_file: String,
}

/// Every import is classified by its module name, and every WASI import is
/// one of the allowed functions.
pub open spec fn imports_checked(imports: Seq<ModuleImport>) -> bool {
    forall|i: int| 0 <= i < imports.len() ==> {
        &&& ((#[trigger] imports[i]).import_type == if starts_with(imports[i].module_name@, "wasi"@) {
            ImportType::Wasi
        } else {
            ImportType::Other
        })
        &&& starts_with(imports[i].module_name@, "wasi"@) ==> allowed_wasi_functions().contains(imports[i].function_name@)
    }
}

/// The module name and the function name of each import.
pub open spec fn import_names(imports: Seq<ModuleImport>) -> Seq<(Seq<char>, Seq<char>)> {
    Seq::new(imports.len(), |i: int| (imports[i].module_name@, imports[i].function_name@))
}

/// Compiles WASM binaries for the legacy executor.
pub struct WasmModuleLoader;

impl WasmModuleLoader {
    /// The sandboxed engine: no threads, SIMD, multiple or 64-bit memories, nor
    /// component model; fuel consumption on, epoch interruption off.
    pub fn create_engine() -> (r: Result<wasmtime::Engine, WasmError>)
        ensures
            r matches Err(e) ==> e is EngineError,
    {
        match engine_with_features(false, false, false, false, false, false, true, false) {
            Ok(engine) => Ok(engine),
            Err(m) => Err(WasmError::EngineError(m)),
        }
    }

    /// Compiles a binary read from `module_file`: the engine is created, the
    /// size checked (see `check_module_size`), and the bytes compiled as a
    /// component, else as a core module, whose imports are checked (see
    /// `parse_module_imports`). A component declares no imports here.
    pub fn load_module_bytes(bytes: &[u8], module_file: String) -> (r: Result<LoadedModule, WasmError>)
        ensures
            r matches Ok(m) ==> {
                &&& bytes@.len() <= MAX_WASM_SIZE
                &&& m.module_file == module_file
                &&& imports_checked(m.imports@)
                &&& m.artifact is Component ==> m.imports@.len() == 0
                &&& m.artifact matches WasmArtifact::Component(c) ==> forall|f: u64| #[trigger] component_instantiation(c, f)
                    == compiled_component_instantiation(m.engine, bytes@, f)
                &&& m.artifact matches WasmArtifact::Module(md) ==> compiled_from(m.engine, md, bytes@)
                    && import_names(m.imports@) == declared_imports(bytes@)
            },
            r matches Err(e) ==> {
                ||| e is EngineError
                ||| (bytes@.len() > MAX_WASM_SIZE && (e matches WasmError::ValidationError(m) && m@ == "WASM module too large: "@
                    + decimal(bytes@.len()) + " bytes (max: "@ + decimal(MAX_WASM_SIZE as nat) + " bytes)"@))
                ||| e is ModuleError
                ||| e is ValidationError
            },
            bytes@.len() > MAX_WASM_SIZE ==> r is Err,
    {
        let engine = match Self::create_engine() {
            Ok(engine) => engine,
            Err(e) => return Err(e),
        };
        if let Err(e) = check_module_size(bytes.len()) {
            return Err(e);
        }
        match component_new(&engine, bytes) {
            Ok(component) => Ok(LoadedModule {
                engine,
                artifact: WasmArtifact::Component(component),
                imports: Vec::new(),
                module_file,
            }),
            Err(_) => {
                let module = match module_new(&engine, bytes) {
                    Ok(module) => module,
                    Err(m) => return Err(WasmError::ModuleError(m)),
                };
                let listed = module_imports(&module);
                let ghost listed_view = listed@;
                let imports = match parse_module_imports(listed) {
                    Ok(imports) => imports,
                    Err(e) => return Err(e),
                };
                proof {
                    assert(import_names(imports@) =~= pairs_view(listed_view));
                    assert(imports_checked(imports@));
                }
                Ok(LoadedModule { engine, artifact: WasmArtifact::Module(module), imports, module_file })
            },
        }
    }
}

/// The fuel each run of the legacy executor starts with (100 million).
pub const FUEL_LEVEL: u64 = 100000000;

/// What a run of the legacy executor gave, with its measurements.
pub struct ExecutionResult {
    pub output: String,
    pub fuel_consumed: u64,
    pub input_size: usize,
    pub output_size: usize,
    pub execution_time_ms: u64,
}

/// The legacy executor: runs a loaded core module with the C-string protocol
/// (see `LegacyCStyleRun`), or instantiates a loaded component.
pub struct WasmExecutor;

/// As `call_gives`, for the older protocol, whose decoding step reads the
/// run's output as a C string and calls nothing.
pub open spec fn legacy_call_gives(run: LegacyCStyleRun, i: ModuleInstance, a: CStyleAction, written: Seq<u8>, e: CStyleEvent) -> bool {
    if a is DecodeOutput {
        e matches CStyleEvent::Text(t) && c_string_read(run.output@, t)
    } else {
        call_gives(i, a, written, e)
    }
}

/// As `call_leaves`, for the older protocol (decoding leaves the instance).
pub open spec fn legacy_call_leaves(i: ModuleInstance, a: CStyleAction, written: Seq<u8>, e: CStyleEvent, after: ModuleInstance) -> bool {
    if a is DecodeOutput { after == i } else { call_leaves(i, a, written, e, after) }
}

/// As `drives`, for the older protocol.
pub open spec fn legacy_drives(
    first: LegacyCStyleRun,
    i0: ModuleInstance,
    a0: CStyleAction,
    written: Seq<u8>,
    last: LegacyCStyleRun,
    i: ModuleInstance,
    calls: Seq<CStyleAction>,
) -> bool
    decreases calls.len(),
{
    if calls.len() == 0 {
        last == first && i == i0
    } else {
        exists|mid: LegacyCStyleRun, im: ModuleInstance, e: CStyleEvent|
            #![trigger legacy_steps(mid, e, last, calls.last()), legacy_call_leaves(im, asked(a0, calls.drop_last()), written, e, i)]
            legacy_drives(first, i0, a0, written, mid, im, calls.drop_last())
                && legacy_call_gives(mid, im, asked(a0, calls.drop_last()), written, e)
                && legacy_call_leaves(im, asked(a0, calls.drop_last()), written, e, i)
                && legacy_steps(mid, e, last, calls.last())
    }
}

/// The outcome of the older protocol run on the instance `i0` with `input`,
/// which is written as a C string (the input and a closing NUL).
pub open spec fn legacy_instance_outcome(i0: ModuleInstance, input: Seq<u8>, r: Result<String, WasmError>) -> bool {
    exists|first: LegacyCStyleRun, a0: CStyleAction, last: LegacyCStyleRun, i: ModuleInstance, calls: Seq<CStyleAction>|
        #![trigger legacy_begins(first, a0, input, instance_exports(i0)), legacy_drives(first, i0, a0, input.push(0u8), last, i, calls)]
        legacy_begins(first, a0, input, instance_exports(i0)) && legacy_drives(first, i0, a0, input.push(0u8), last, i, calls)
            && last.phase == CStylePhase::Done && last.outcome == Some(r)
}

/// A run of the older protocol driven on an instance is a run of it.
pub proof fn lemma_legacy_drives_runs(
    first: LegacyCStyleRun,
    i0: ModuleInstance,
    a0: CStyleAction,
    written: Seq<u8>,
    last: LegacyCStyleRun,
    i: ModuleInstance,
    calls: Seq<CStyleAction>,
)
    requires
        legacy_drives(first, i0, a0, written, last, i, calls),
    ensures
        legacy_runs(first, last, calls),
    decreases calls.len(),
{
    if calls.len() > 0 {
        let (mid, im, e) = choose|mid: LegacyCStyleRun, im: ModuleInstance, e: CStyleEvent|
            #![trigger legacy_steps(mid, e, last, calls.last()), legacy_call_leaves(im, asked(a0, calls.drop_last()), written, e, i)]
            legacy_drives(first, i0, a0, written, mid, im, calls.drop_last())
                && legacy_call_gives(mid, im, asked(a0, calls.drop_last()), written, e)
                && legacy_call_leaves(im, asked(a0, calls.drop_last()), written, e, i)
                && legacy_steps(mid, e, last, calls.last());
        lemma_legacy_drives_runs(first, i0, a0, written, mid, im, calls.drop_last());
    }
}

/// The output of a run of the legacy executor, or its error.
pub open spec fn execution_output(r: Result<ExecutionResult, WasmError>) -> Result<String, WasmError> {
    match r {
        Ok(x) => Ok(x.output),
        Err(e) => Err(e),
    }
}

impl WasmExecutor {
    /// Runs the loaded binary on the input, which may hold at most
    /// `MAX_INPUT_SIZE` bytes, with `FUEL_LEVEL` fuel. A core module is
    /// instantiated without imports in a fresh store of the loaded engine
    /// (failing as an execution error with wasmtime's text) and run with the
    /// legacy protocol on that instance, whose exports are the module's; a
    /// component is instantiated, and its output is the input followed by
    /// `-wit-processed`.
    pub fn execute(loaded_module: &LoadedModule, input: &str) -> (r: Result<ExecutionResult, WasmError>)
        ensures
            encode_utf8(input@).len() > MAX_INPUT_SIZE ==> (r matches Err(WasmError::ValidationError(m))
                && m@ == "Input too large: "@ + decimal(encode_utf8(input@).len()) + " bytes (max: "@
                    + decimal(MAX_INPUT_SIZE as nat) + " bytes)"@),
            encode_utf8(input@).len() <= MAX_INPUT_SIZE ==> match loaded_module.artifact {
                WasmArtifact::Module(m) => match instantiation_failure(loaded_module.engine, m, FUEL_LEVEL) {
                    Some(t) => r matches Err(WasmError::ExecutionError(u)) && u@ == t,
                    None => exists|i0: ModuleInstance| i0.origin() == (loaded_module.engine, m, FUEL_LEVEL)
                        && i0.calls() == 0 && instance_exports(i0) == module_exports(m)
                        && #[trigger] legacy_instance_outcome(i0, encode_utf8(input@), execution_output(r)),
                },
                WasmArtifact::Component(c) => match component_instantiation(c, FUEL_LEVEL) {
                    Ok(_) => r matches Ok(x) && x.output@ == input@ + "-wit-processed"@,
                    Err(t) => r matches Err(WasmError::ExecutionError(u)) && u@ == t,
                },
            },
            r matches Ok(x) ==> x.input_size == encode_utf8(input@).len(),
            r matches Ok(x) ==> x.output_size == encode_utf8(x.output@).len(),
            r matches Ok(x) ==> x.fuel_consumed <= FUEL_LEVEL,
    {
        let start_time = clock_now();
        let bytes = input.as_bytes();
        let input_size = bytes.len();
        if let Err(e) = check_input_size(input_size) {
            return Err(e);
        }
        let (output, remaining) = match &loaded_module.artifact {
            WasmArtifact::Module(module) => {
                let mut inst = match instantiate(&loaded_module.engine, module, FUEL_LEVEL, "memory", "process", "allocate", "deallocate") {
                    Ok(inst) => inst,
                    Err(m) => return Err(WasmError::ExecutionError(m)),
                };
                proof {
                    reveal_strlit("memory");
                    reveal_strlit("process");
                    reveal_strlit("allocate");
                    reveal_strlit("deallocate");
                }
                let ghost i0 = inst;
                let output = match Self::execute_c_style(&mut inst, bytes) {
                    Ok(output) => output,
                    Err(e) => {
                        proof {
                            assert(instance_exports(i0) == module_exports(*module));
                            assert(execution_output(Err::<ExecutionResult, WasmError>(e)) == Err::<String, WasmError>(e));
                        }
                        return Err(e);
                    },
                };
                proof {
                    assert(instance_exports(i0) == module_exports(*module));
                }
                let remaining = match instance_fuel(&inst) {
                    Ok(fuel) => fuel,
                    Err(_) => 0,
                };
                (output, remaining)
            },
            WasmArtifact::Component(component) => match Self::execute_wit_component(component, input) {
                Ok(result) => result,
                Err(e) => return Err(e),
            },
        };
        let fuel_consumed = FUEL_LEVEL.saturating_sub(remaining);
        let execution_time_ms = elapsed_millis(&start_time);
        let output_size = output.as_str().as_bytes().len();
        let r = ExecutionResult { output, fuel_consumed, input_size, output_size, execution_time_ms };
        proof {
            assert(execution_output(Ok::<ExecutionResult, WasmError>(r)) == Ok::<String, WasmError>(r.output));
        }
        Ok(r)
    }

    /// Runs the legacy protocol on an instance (see `LegacyCStyleRun`).
    fn execute_c_style(inst: &mut ModuleInstance, input: &[u8]) -> (r: Result<String, WasmError>)
        requires
            input@.len() < i32::MAX,
        ensures
            legacy_instance_outcome(*old(inst), input@, r),
    {
        let ghost i0 = *inst;
        let exports = exports_of(inst);
        let (mut run, mut action) = LegacyCStyleRun::start(input, exports);
        let ghost first = run;
        let ghost a0 = action;
        let ghost mut calls: Seq<CStyleAction> = Seq::empty();
        if exports.memory && exports.process && exports.allocate && exports.deallocate {
            let c_input = match c_string_input(input) {
                Ok(b) => b,
                Err(_) => Vec::new(),
            };
            while action != CStyleAction::Finish
                invariant
                    run.wf(),
                    waits_for(run.phase, action),
                    action == asked(a0, calls),
                    legacy_drives(first, i0, a0, input@.push(0u8), run, *inst, calls),
                    legacy_begins(first, a0, input@, exports),
                    exports == instance_exports(i0),
                    inst.same_exports(i0),
                    exports.memory && exports.process && exports.allocate && exports.deallocate,
                    !input@.contains(0u8) ==> c_input@ == input@.push(0u8),
                    input@.contains(0u8) ==> run.phase == CStylePhase::Done,
                    run.phase == CStylePhase::Decoding ==> run.output@.len() > 0 && run.output@.last() == 0u8,
                decreases 15 - phase_rank(run.phase),
            {
                let ghost ib = *inst;
                let ghost before = run;
                let event = if action == CStyleAction::DecodeOutput {
                    CStyleEvent::Text(decode_c_string(&run.output))
                } else {
                    perform(action, inst, &c_input)
                };
                let ghost ev = event;
                let next = run.step(event);
                proof {
                    lemma_legacy_step_advances(before, ev, run, next);
                    let c2 = calls.push(next);
                    assert(c2.drop_last() =~= calls);
                    assert(c2.last() == next);
                    assert(legacy_drives(first, i0, a0, input@.push(0u8), before, ib, c2.drop_last())
                        && legacy_steps(before, ev, run, c2.last())
                        && legacy_call_leaves(ib, asked(a0, c2.drop_last()), input@.push(0u8), ev, *inst));
                    calls = c2;
                }
                action = next;
            }
        }
        proof {
            assert(run.phase == CStylePhase::Done);
            assert(legacy_begins(first, a0, input@, instance_exports(i0))
                && legacy_drives(first, i0, a0, input@.push(0u8), run, *inst, calls));
        }
        match run.outcome {
            Some(outcome) => outcome,
            None => Err(WasmError::ExecutionError(String::new())),
        }
    }

    /// Instantiates the component with `FUEL_LEVEL` fuel; its output is the
    /// input followed by `-wit-processed`, with the fuel left.
    fn execute_wit_component(component: &wasmtime::component::Component, input: &str) -> (r: Result<(String, u64), WasmError>)
        ensures
            match component_instantiation(*component, FUEL_LEVEL) {
                Ok(f) => r matches Ok((s, g)) && s@ == input@ + "-wit-processed"@ && g == f,
                Err(t) => r matches Err(WasmError::ExecutionError(u)) && u@ == t,
            },
    {
        let remaining = match component_instantiate(component, FUEL_LEVEL) {
            Ok(fuel) => fuel,
            Err(m) => return Err(WasmError::ExecutionError(m)),
        };
        let mut output = input.to_owned();
        output.append("-wit-processed");
        Ok((output, remaining))
    }
}

/// Runs a loaded component-model artifact: a run gives no output.
pub struct ComponentNodeExecutor {
    loaded_module: LoadedModule,
}

impl ComponentNodeExecutor {
    /// An executor for a loaded artifact; it always succeeds.
    pub fn new(loaded_module: LoadedModule) -> (r: Result<Self, ProcessingNodeError>)
        ensures
            r matches Ok(x) && x.loaded() == loaded_module,
    {
        Ok(ComponentNodeExecutor { loaded_module })
    }

    /// The artifact it runs.
    pub closed spec fn loaded(&self) -> LoadedModule {
        self.loaded_module
    }
}

/// The capabilities of a component-model artifact.
pub open spec fn component_capabilities() -> Seq<Seq<char>> {
    seq!["wasmtime:component-model"@, "string-processing"@]
}

impl ProcessingNodeExecutor for ComponentNodeExecutor {
    open spec fn runs(&self, input: Seq<u8>, r: Result<Vec<u8>, ProcessingNodeError>) -> bool {
        r matches Ok(out) && out@.len() == 0
    }

    fn execute(&self, input: &[u8]) -> (r: Result<Vec<u8>, ProcessingNodeError>)
        ensures
            r matches Ok(out) && out@.len() == 0,
    {
        Ok(Vec::new())
    }

    fn artifact_type(&self) -> (t: &'static str)
        ensures
            t@ == "WIT Component"@,
    {
        "WIT Component"
    }

    fn capabilities(&self) -> (c: Vec<String>)
        ensures
            c@.map_values(|s: String| s@) == component_capabilities(),
    {
        let c = vec![String::from_str("wasmtime:component-model"), String::from_str("string-processing")];
        proof {
            assert(c@.map_values(|s: String| s@) =~= component_capabilities());
        }
        c
    }

    fn execution_metadata(&self) -> (m: ExecutionMetadata)
        ensures
            m.module_file@ == self.loaded().module_file@,
            m.artifact_type@ == "WIT Component"@,
            m.import_count == self.loaded().imports@.len(),
            m.capabilities@.map_values(|s: String| s@) == component_capabilities(),
    {
        ExecutionMetadata {
            module_file: self.loaded_module.module_file.clone(),
            artifact_type: self.artifact_type().to_string(),
            import_count: self.loaded_module.imports.len(),
            capabilities: self.capabilities(),
        }
    }
}

/// The capabilities of a WASI module with these imports: `wasi:preview1`, then
/// `wasi:` and the function of each import from `wasi_snapshot_preview1`, in
/// order, unless the list already holds the function's bare name.
pub open spec fn wasi_capabilities(imports: Seq<ModuleImport>) -> Seq<Seq<char>>
    decreases imports.len(),
{
    if imports.len() == 0 {
        seq!["wasi:preview1"@]
    } else {
        let caps = wasi_capabilities(imports.drop_last());
        let i = imports.last();
        if i.module_name@ == "wasi_snapshot_preview1"@ && !caps.contains(i.function_name@) {
            caps.push("wasi:"@ + i.function_name@)
        } else {
            caps
        }
    }
}

fn holds_text(items: &Vec<String>, item: &String) -> (b: bool)
    ensures
        b == items@.map_values(|s: String| s@).contains(item@),
{
    let ghost view = items@.map_values(|s: String| s@);
    let mut i: usize = 0;
    while i < items.len()
        invariant
            i <= items@.len(),
            view == items@.map_values(|s: String| s@),
            forall|j: int| 0 <= j < i ==> view[j] != item@,
        decreases items@.len() - i,
    {
        if str_equal(&items[i], item) {
            proof {
                assert(view[i as int] == item@);
            }
            return true;
        }
        i = i + 1;
    }
    false
}

/// Runs a loaded WASI preview 1 module: a run gives no output.
pub struct WasiNodeExecutor {
    loaded_module: LoadedModule,
}

impl WasiNodeExecutor {
    /// An executor for a loaded module; it always succeeds.
    pub fn new(loaded_module: LoadedModule) -> (r: Result<Self, ProcessingNodeError>)
        ensures
            r matches Ok(x) && x.loaded() == loaded_module,
    {
        Ok(WasiNodeExecutor { loaded_module })
    }

    /// The module it runs.
    pub closed spec fn loaded(&self) -> LoadedModule {
        self.loaded_module
    }
}

impl ProcessingNodeExecutor for WasiNodeExecutor {
    open spec fn runs(&self, input: Seq<u8>, r: Result<Vec<u8>, ProcessingNodeError>) -> bool {
        r matches Ok(out) && out@.len() == 0
    }

    fn execute(&self, input: &[u8]) -> (r: Result<Vec<u8>, ProcessingNodeError>)
        ensures
            r matches Ok(out) && out@.len() == 0,
    {
        Ok(Vec::new())
    }

    fn artifact_type(&self) -> (t: &'static str)
        ensures
            t@ == "WASI Preview 1"@,
    {
        "WASI Preview 1"
    }

    fn capabilities(&self) -> (c: Vec<String>)
        ensures
            c@.map_values(|s: String| s@) == wasi_capabilities(self.loaded().imports@),
    {
        let imports = &self.loaded_module.imports;
        let preview = String::from_str("wasi_snapshot_preview1");
        let mut caps: Vec<String> = vec![String::from_str("wasi:preview1")];
        let mut i: usize = 0;
        proof {
            assert(caps@.map_values(|s: String| s@) =~= wasi_capabilities(imports@.take(0)));
        }
        while i < imports.len()
            invariant
                i <= imports@.len(),
                preview@ == "wasi_snapshot_preview1"@,
                caps@.map_values(|s: String| s@) == wasi_capabilities(imports@.take(i as int)),
            decreases imports@.len() - i,
        {
            let import = &imports[i];
            proof {
                assert(imports@.take(i + 1).drop_last() =~= imports@.take(i as int));
            }
            if str_equal(&import.module_name, &preview) && !holds_text(&caps, &import.function_name) {
                let mut cap = String::from_str("wasi:");
                cap.append(import.function_name.as_str());
                caps.push(cap);
                proof {
                    assert(caps@.map_values(|s: String| s@) =~= wasi_capabilities(imports@.take(i as int)).push(
                        "wasi:"@ + import.function_name@,
                    ));
                }
            }
            i = i + 1;
        }
        proof {
            assert(imports@.take(imports@.len() as int) =~= imports@);
        }
        caps
    }

    fn execution_metadata(&self) -> (m: ExecutionMetadata)
        ensures
            m.module_file@ == self.loaded().module_file@,
            m.artifact_type@ == "WASI Preview 1"@,
            m.import_count == self.loaded().imports@.len(),
            m.capabilities@.map_values(|s: String| s@) == wasi_capabilities(self.loaded().imports@),
    {
        ExecutionMetadata {
            module_file: self.loaded_module.module_file.clone(),
            artifact_type: self.artifact_type().to_string(),
            import_count: self.loaded_module.imports.len(),
            capabilities: self.capabilities(),
        }
    }
}

/// Why a binary's kind cannot be detected, as the error's text (see
/// `detect_component_type`); `None` when it can.
pub open spec fn detection_failure(bytes: Seq<u8>) -> Option<Seq<char>> {
    match wasm_payloads(bytes) {
        None => Some("WASM parser error: "@ + wasm_parse_error(bytes)),
        Some(ps) => match last_encoding(ps) {
            None => Some("Invalid WASM binary: "@ + "Invalid WASM binary"@),
            Some(true) => None,
            Some(false) => if has_component_section(ps) {
                Some("Unsupported encoding: "@ + WASM_UNSUPPORTED_ENCODING@)
            } else {
                None
            },
        },
    }
}

/// The kind detected for a binary whose kind can be detected.
pub open spec fn detected_kind(bytes: Seq<u8>) -> ComponentType {
    match wasm_payloads(bytes) {
        Some(ps) => if last_encoding(ps) == Some(true) { ComponentType::Wit } else { ComponentType::CStyle },
        None => ComponentType::CStyle,
    }
}

impl WasmProcessor<WasmNodeExecutor> {
    /// The processor for resolved settings (see `resolve_wasm_settings`) and
    /// the bytes of its module: the binary's kind is detected (a failure is a
    /// validation error with the detection error's text) and its executor made
    /// (see `create_executor`).
    pub fn from_parts(processor_id: String, settings: WasmSettings, bytes: &[u8]) -> (r: Result<Self, WasmError>)
        ensures
            detection_failure(bytes@) matches Some(m) ==> (r matches Err(WasmError::ValidationError(t)) && t@ == m),
            r matches Ok(p) ==> {
                &&& detection_failure(bytes@) is None
                &&& p.processor_id == processor_id
                &&& p.module_file == settings.module_file
                &&& p.intent == settings.intent
                &&& (p.executor is CStyle <==> detected_kind(bytes@) == ComponentType::CStyle)
                &&& (p.executor matches WasmNodeExecutor::CStyle(x) ==> x.fuel() == settings.fuel_level
                    && compiled_from(x.engine(), x.module(), bytes@))
                &&& (p.executor matches WasmNodeExecutor::Wit(x) ==> forall|f: u64| #[trigger] component_instantiation(
                    x.component(),
                    f,
                ) == compiled_component_instantiation(x.engine(), bytes@, f))
            },
            detection_failure(bytes@) is None ==> (r matches Err(e) ==> (e is EngineError || e is ModuleError)),
    {
        let component_type = match detect_component_type(bytes) {
            Ok(t) => t,
            Err(e) => return Err(WasmError::ValidationError(e.message())),
        };
        let executor = match create_executor(bytes, component_type, settings.fuel_level) {
            Ok(x) => x,
            Err(e) => return Err(e),
        };
        Ok(WasmProcessor {
            processor_id,
            module_file: settings.module_file,
            executor,
            intent: settings.intent,
        })
    }
}

} // verus!
