//! The calls into wasmtime (and the clock) that the WASM executors make, with
//! the contracts they are trusted to meet: one wrapper per operation, each stating
//! only what wasmtime's source and documentation show. wasmtime's values are
//! opaque to the verifier and carried from call to call.
//!
//! wasmtime panics when a store is handed a value (instance, memory, function)
//! that another store owns. The values of an instance are therefore kept in
//! `ModuleInstance` together with the store they came from, and only
//! `instantiate` makes one.
use vstd::prelude::*;

verus! {

#[verifier::external_type_specification]
#[verifier::external_body]
pub struct ExEngine(wasmtime::Engine);

/// `wasmtime::Engine::new` on a fresh `wasmtime::Config` whose component-model
/// support and fuel consumption are set as given. Nothing is claimed of the
/// engine; an error is wasmtime's error as it displays.
#[verifier::external_body]
pub(crate) fn engine_new(component_model: bool, consume_fuel: bool) -> (r: Result<wasmtime::Engine, String>) {
    let mut config = wasmtime::Config::new();
    config.wasm_component_model(component_model);
    config.consume_fuel(consume_fuel);
    wasmtime::Engine::new(&config).map_err(|e| e.to_string())
}

#[verifier::external_type_specification]
#[verifier::external_body]
pub struct ExModule(wasmtime::Module);

#[verifier::external_type_specification]
#[verifier::external_body]
pub struct ExMemory(wasmtime::Memory);

#[verifier::external_type_specification]
#[verifier::external_body]
#[verifier::reject_recursive_types(T)]
pub struct ExStore<T: 'static>(wasmtime::Store<T>);

#[verifier::external_type_specification]
#[verifier::external_body]
#[verifier::reject_recursive_types(Params)]
#[verifier::reject_recursive_types(Results)]
pub struct ExTypedFunc<Params, Results>(wasmtime::TypedFunc<Params, Results>);

/// `wasmtime::Module::new`: compiles a core module for the engine. What the
/// compiled module exports, imports, and whether it can be instantiated are
/// what the binary declares (the names below over the bytes); an error is
/// wasmtime's error as it displays.
#[verifier::external_body]
pub(crate) fn module_new(engine: &wasmtime::Engine, bytes: &[u8]) -> (r: Result<wasmtime::Module, String>)
    ensures
        r matches Ok(m) ==> forall|n: Seq<char>| #[trigger] exports_memory(m, n) == declares_memory(bytes@, n),
        r matches Ok(m) ==> forall|n: Seq<char>, p: nat, q: nat| #[trigger] exports_i32_function(m, n, p, q)
            == declares_i32_function(bytes@, n, p, q),
        r matches Ok(m) ==> imports_of(m) == declared_imports(bytes@),
        r matches Ok(m) ==> forall|f: u64| #[trigger] instantiation_failure(*engine, m, f)
            == compiled_instantiation_failure(*engine, bytes@, f),
{
    wasmtime::Module::new(engine, bytes).map_err(|e| e.to_string())
}

/// Whether a binary exports a memory under `name`.
pub uninterp spec fn declares_memory(bytes: Seq<u8>, name: Seq<char>) -> bool;

/// Whether a binary exports a function under `name` whose type is `params`
/// `i32` parameters to `results` `i32` results.
pub uninterp spec fn declares_i32_function(bytes: Seq<u8>, name: Seq<char>, params: nat, results: nat) -> bool;

/// The imports a binary declares, as module name and field name, in order.
pub uninterp spec fn declared_imports(bytes: Seq<u8>) -> Seq<(Seq<char>, Seq<char>)>;

/// Why the module compiled from a binary for the engine cannot be
/// instantiated, without imports, in a fresh store of the engine with this
/// fuel (wasmtime's error text); `None` when it can.
pub uninterp spec fn compiled_instantiation_failure(engine: wasmtime::Engine, bytes: Seq<u8>, fuel: u64) -> Option<Seq<char>>;

/// The imports of a compiled module (`wasmtime::Module::imports`), as module
/// name and field name, in order.
pub uninterp spec fn imports_of(module: wasmtime::Module) -> Seq<(Seq<char>, Seq<char>)>;

/// A compiled module is what the binary declares: its exports, its imports,
/// and when it can be instantiated with the engine.
pub open spec fn compiled_from(engine: wasmtime::Engine, module: wasmtime::Module, bytes: Seq<u8>) -> bool {
    &&& forall|n: Seq<char>| #[trigger] exports_memory(module, n) == declares_memory(bytes, n)
    &&& forall|n: Seq<char>, p: nat, q: nat| #[trigger] exports_i32_function(module, n, p, q)
        == declares_i32_function(bytes, n, p, q)
    &&& imports_of(module) == declared_imports(bytes)
    &&& forall|f: u64| #[trigger] instantiation_failure(engine, module, f) == compiled_instantiation_failure(engine, bytes, f)
}

/// Whether a module exports a memory under `name`: what
/// `wasmtime::Instance::get_memory` finds on any instance of it.
pub uninterp spec fn exports_memory(module: wasmtime::Module, name: Seq<char>) -> bool;

/// Whether a module exports a function under `name` whose type is `params`
/// `i32` parameters to `results` `i32` results: what
/// `wasmtime::Instance::get_typed_func` finds with that type on any instance of it.
pub uninterp spec fn exports_i32_function(module: wasmtime::Module, name: Seq<char>, params: nat, results: nat) -> bool;

/// Why a module cannot be instantiated, without imports, in a fresh store of
/// the engine with this fuel (wasmtime's error text); `None` when it can.
pub uninterp spec fn instantiation_failure(engine: wasmtime::Engine, module: wasmtime::Module, fuel: u64) -> Option<Seq<char>>;

/// The bytes of `memory` in `store` (`wasmtime::Memory::data`).
pub uninterp spec fn memory_data(store: wasmtime::Store<()>, memory: wasmtime::Memory) -> Seq<u8>;

/// What calling a function of type `i32 -> i32` on the store, as it stands,
/// gives back: its result, or wasmtime's error text (a trap, running out of fuel).
pub uninterp spec fn allocate_outcome(store: wasmtime::Store<()>, f: wasmtime::TypedFunc<i32, i32>, size: i32) -> Result<i32, Seq<char>>;

/// As `allocate_outcome`, for a function of type `(i32, i32) -> ()`.
pub uninterp spec fn deallocate_outcome(
    store: wasmtime::Store<()>,
    f: wasmtime::TypedFunc<(i32, i32), ()>,
    ptr: i32,
    size: i32,
) -> Result<(), Seq<char>>;

/// As `allocate_outcome`, for a function of type `(i32, i32, i32) -> i32`.
pub uninterp spec fn process_outcome(
    store: wasmtime::Store<()>,
    f: wasmtime::TypedFunc<(i32, i32, i32), i32>,
    input_ptr: i32,
    input_len: i32,
    output_len_ptr: i32,
) -> Result<i32, Seq<char>>;

/// A string error's text, for comparison with a named outcome.
pub open spec fn outcome_view<T>(r: Result<T, String>) -> Result<T, Seq<char>> {
    match r {
        Ok(v) => Ok(v),
        Err(m) => Err(m@),
    }
}

/// A core module instantiated in a store of its own, with the memory and the
/// functions of the C-style protocol that it exports. Only `instantiate` makes
/// one, so every value inside belongs to the store inside, which the calls
/// below hand to wasmtime.
pub struct ModuleInstance {
    store: wasmtime::Store<()>,
    memory: Option<wasmtime::Memory>,
    process: Option<wasmtime::TypedFunc<(i32, i32, i32), i32>>,
    allocate: Option<wasmtime::TypedFunc<i32, i32>>,
    deallocate: Option<wasmtime::TypedFunc<(i32, i32), ()>>,
    origin: Ghost<(wasmtime::Engine, wasmtime::Module, u64)>,
    calls: Ghost<nat>,
}

impl ModuleInstance {
    /// The store, as it stands.
    pub closed spec fn store(&self) -> wasmtime::Store<()> {
        self.store
    }

    pub closed spec fn memory(&self) -> Option<wasmtime::Memory> {
        self.memory
    }

    pub closed spec fn process(&self) -> Option<wasmtime::TypedFunc<(i32, i32, i32), i32>> {
        self.process
    }

    pub closed spec fn allocate(&self) -> Option<wasmtime::TypedFunc<i32, i32>> {
        self.allocate
    }

    pub closed spec fn deallocate(&self) -> Option<wasmtime::TypedFunc<(i32, i32), ()>> {
        self.deallocate
    }

    /// The engine, the module and the fuel it was instantiated with.
    pub closed spec fn origin(&self) -> (wasmtime::Engine, wasmtime::Module, u64) {
        self.origin@
    }

    /// How many calls have been made on it that may change its store: calls
    /// of its functions and writes to its memory.
    pub closed spec fn calls(&self) -> nat {
        self.calls@
    }

    /// The bytes of the exported memory, as they stand.
    pub open spec fn bytes(&self) -> Seq<u8> {
        memory_data(self.store(), self.memory()->0)
    }

    /// Whether the memory is exported.
    pub fn has_memory(&self) -> (b: bool)
        ensures
            b == self.memory() is Some,
    {
        self.memory.is_some()
    }

    /// Whether `process` is exported with its type.
    pub fn has_process(&self) -> (b: bool)
        ensures
            b == self.process() is Some,
    {
        self.process.is_some()
    }

    /// Whether `allocate` is exported with its type.
    pub fn has_allocate(&self) -> (b: bool)
        ensures
            b == self.allocate() is Some,
    {
        self.allocate.is_some()
    }

    /// Whether `deallocate` is exported with its type.
    pub fn has_deallocate(&self) -> (b: bool)
        ensures
            b == self.deallocate() is Some,
    {
        self.deallocate.is_some()
    }

    /// Both hold the same exports.
    pub open spec fn same_exports(&self, other: ModuleInstance) -> bool {
        &&& self.memory() == other.memory()
        &&& self.process() == other.process()
        &&& self.allocate() == other.allocate()
        &&& self.deallocate() == other.deallocate()
    }
}

/// The exports of the C-style protocol that an instance holds, with the store
/// they belong to: the store, the memory, `process`, `allocate`, `deallocate`.
pub type InstanceParts = (
    wasmtime::Store<()>,
    Option<wasmtime::Memory>,
    Option<wasmtime::TypedFunc<(i32, i32, i32), i32>>,
    Option<wasmtime::TypedFunc<i32, i32>>,
    Option<wasmtime::TypedFunc<(i32, i32), ()>>,
);

/// `wasmtime::Store::new` for the engine, `Store::set_fuel`, and
/// `wasmtime::Instance::new` of the module without imports; then the exports
/// under the four names are looked up, the functions with the types of the
/// C-style protocol (`Instance::get_memory`, `Instance::get_typed_func`).
/// Success is as `instantiation_failure` says; each export is there as the
/// module declares it.
#[verifier::external_body]
fn raw_instantiate(
    engine: &wasmtime::Engine,
    module: &wasmtime::Module,
    fuel: u64,
    memory_name: &str,
    process_name: &str,
    allocate_name: &str,
    deallocate_name: &str,
) -> (r: Result<InstanceParts, String>)
    ensures
        r is Err <==> instantiation_failure(*engine, *module, fuel) is Some,
        r matches Err(m) ==> instantiation_failure(*engine, *module, fuel) == Some(m@),
        r matches Ok(p) ==> {
            &&& p.1 is Some == exports_memory(*module, memory_name@)
            &&& p.2 is Some == exports_i32_function(*module, process_name@, 3, 1)
            &&& p.3 is Some == exports_i32_function(*module, allocate_name@, 1, 1)
            &&& p.4 is Some == exports_i32_function(*module, deallocate_name@, 2, 0)
        },
{
    let mut store = wasmtime::Store::new(engine, ());
    store.set_fuel(fuel).map_err(|e| e.to_string())?;
    let instance = wasmtime::Instance::new(&mut store, module, &[]).map_err(|e| e.to_string())?;
    let memory = instance.get_memory(&mut store, memory_name);
    let process = instance.get_typed_func::<(i32, i32, i32), i32>(&mut store, process_name).ok();
    let allocate = instance.get_typed_func::<i32, i32>(&mut store, allocate_name).ok();
    let deallocate = instance.get_typed_func::<(i32, i32), ()>(&mut store, deallocate_name).ok();
    Ok((store, memory, process, allocate, deallocate))
}

/// Instantiates the module (see `raw_instantiate`) and keeps its exports with
/// their store; the instance records what it was made from, and that no call
/// has been made on it yet.
pub(crate) fn instantiate(
    engine: &wasmtime::Engine,
    module: &wasmtime::Module,
    fuel: u64,
    memory_name: &str,
    process_name: &str,
    allocate_name: &str,
    deallocate_name: &str,
) -> (r: Result<ModuleInstance, String>)
    ensures
        r is Err <==> instantiation_failure(*engine, *module, fuel) is Some,
        r matches Err(m) ==> instantiation_failure(*engine, *module, fuel) == Some(m@),
        r matches Ok(i) ==> {
            &&& i.origin() == (*engine, *module, fuel)
            &&& i.calls() == 0
            &&& i.memory() is Some == exports_memory(*module, memory_name@)
            &&& i.process() is Some == exports_i32_function(*module, process_name@, 3, 1)
            &&& i.allocate() is Some == exports_i32_function(*module, allocate_name@, 1, 1)
            &&& i.deallocate() is Some == exports_i32_function(*module, deallocate_name@, 2, 0)
        },
{
    match raw_instantiate(engine, module, fuel, memory_name, process_name, allocate_name, deallocate_name) {
        Ok((store, memory, process, allocate, deallocate)) => Ok(ModuleInstance {
            store,
            memory,
            process,
            allocate,
            deallocate,
            origin: Ghost((*engine, *module, fuel)),
            calls: Ghost(0),
        }),
        Err(m) => Err(m),
    }
}

/// `wasmtime::TypedFunc::call` on the exported `process`: the outcome is as
/// `process_outcome` names it on the store before the call. What the call does
/// to the store is not claimed.
#[verifier::external_body]
fn raw_call_process(inst: &mut ModuleInstance, input_ptr: i32, input_len: i32, output_len_ptr: i32) -> (r: Result<i32, String>)
    requires
        old(inst).process() is Some,
    ensures
        final(inst).same_exports(*old(inst)),
        final(inst).origin() == old(inst).origin(),
        final(inst).calls() == old(inst).calls(),
        outcome_view(r) == process_outcome(old(inst).store(), old(inst).process()->0, input_ptr, input_len, output_len_ptr),
{
    let f = inst.process.as_ref().unwrap();
    f.call(&mut inst.store, (input_ptr, input_len, output_len_ptr)).map_err(|e| e.to_string())
}

/// `wasmtime::TypedFunc::call` on the exported `allocate`, as `raw_call_process`.
#[verifier::external_body]
fn raw_call_allocate(inst: &mut ModuleInstance, size: i32) -> (r: Result<i32, String>)
    requires
        old(inst).allocate() is Some,
    ensures
        final(inst).same_exports(*old(inst)),
        final(inst).origin() == old(inst).origin(),
        final(inst).calls() == old(inst).calls(),
        outcome_view(r) == allocate_outcome(old(inst).store(), old(inst).allocate()->0, size),
{
    let f = inst.allocate.as_ref().unwrap();
    f.call(&mut inst.store, size).map_err(|e| e.to_string())
}

/// `wasmtime::TypedFunc::call` on the exported `deallocate`, as `raw_call_process`.
#[verifier::external_body]
fn raw_call_deallocate(inst: &mut ModuleInstance, ptr: i32, size: i32) -> (r: Result<(), String>)
    requires
        old(inst).deallocate() is Some,
    ensures
        final(inst).same_exports(*old(inst)),
        final(inst).origin() == old(inst).origin(),
        final(inst).calls() == old(inst).calls(),
        outcome_view(r) == deallocate_outcome(old(inst).store(), old(inst).deallocate()->0, ptr, size),
{
    let f = inst.deallocate.as_ref().unwrap();
    f.call(&mut inst.store, (ptr, size)).map_err(|e| e.to_string())
}

/// The text of wasmtime's `MemoryAccessError`.
pub const OUT_OF_BOUNDS_ACCESS: &'static str = "out of bounds memory access";

/// `wasmtime::Memory::write` on the exported memory: the bytes are written at
/// `offset` when they fit in the memory; otherwise nothing is written and the
/// call fails with `MemoryAccessError`, whose text is fixed.
#[verifier::external_body]
fn raw_memory_write(inst: &mut ModuleInstance, offset: usize, bytes: &[u8]) -> (r: Result<(), String>)
    requires
        old(inst).memory() is Some,
    ensures
        final(inst).same_exports(*old(inst)),
        final(inst).origin() == old(inst).origin(),
        final(inst).calls() == old(inst).calls(),
        r is Ok <==> offset + bytes@.len() <= memory_data(old(inst).store(), old(inst).memory()->0).len(),
        r is Ok ==> memory_data(final(inst).store(), final(inst).memory()->0)
            == memory_data(old(inst).store(), old(inst).memory()->0).take(offset as int) + bytes@
            + memory_data(old(inst).store(), old(inst).memory()->0).skip(offset + bytes@.len()),
        r matches Err(m) ==> m@ == OUT_OF_BOUNDS_ACCESS@
            && memory_data(final(inst).store(), final(inst).memory()->0) == memory_data(old(inst).store(), old(inst).memory()->0),
{
    let memory = inst.memory.as_ref().unwrap();
    memory.write(&mut inst.store, offset, bytes).map_err(|e| e.to_string())
}

/// Calls the exported `process` (see `raw_call_process`) and counts the call.
pub(crate) fn call_process(inst: &mut ModuleInstance, input_ptr: i32, input_len: i32, output_len_ptr: i32) -> (r: Result<i32, String>)
    requires
        old(inst).process() is Some,
    ensures
        final(inst).same_exports(*old(inst)),
        final(inst).origin() == old(inst).origin(),
        final(inst).calls() == old(inst).calls() + 1,
        outcome_view(r) == process_outcome(old(inst).store(), old(inst).process()->0, input_ptr, input_len, output_len_ptr),
{
    let r = raw_call_process(inst, input_ptr, input_len, output_len_ptr);
    proof {
        inst.calls@ = inst.calls@ + 1;
    }
    r
}

/// Calls the exported `allocate` (see `raw_call_allocate`) and counts the call.
pub(crate) fn call_allocate(inst: &mut ModuleInstance, size: i32) -> (r: Result<i32, String>)
    requires
        old(inst).allocate() is Some,
    ensures
        final(inst).same_exports(*old(inst)),
        final(inst).origin() == old(inst).origin(),
        final(inst).calls() == old(inst).calls() + 1,
        outcome_view(r) == allocate_outcome(old(inst).store(), old(inst).allocate()->0, size),
{
    let r = raw_call_allocate(inst, size);
    proof {
        inst.calls@ = inst.calls@ + 1;
    }
    r
}

/// Calls the exported `deallocate` (see `raw_call_deallocate`) and counts the call.
pub(crate) fn call_deallocate(inst: &mut ModuleInstance, ptr: i32, size: i32) -> (r: Result<(), String>)
    requires
        old(inst).deallocate() is Some,
    ensures
        final(inst).same_exports(*old(inst)),
        final(inst).origin() == old(inst).origin(),
        final(inst).calls() == old(inst).calls() + 1,
        outcome_view(r) == deallocate_outcome(old(inst).store(), old(inst).deallocate()->0, ptr, size),
{
    let r = raw_call_deallocate(inst, ptr, size);
    proof {
        inst.calls@ = inst.calls@ + 1;
    }
    r
}

/// Writes to the exported memory (see `raw_memory_write`) and counts the write.
pub(crate) fn memory_write(inst: &mut ModuleInstance, offset: usize, bytes: &[u8]) -> (r: Result<(), String>)
    requires
        old(inst).memory() is Some,
    ensures
        final(inst).same_exports(*old(inst)),
        final(inst).origin() == old(inst).origin(),
        final(inst).calls() == old(inst).calls() + 1,
        r is Ok <==> offset + bytes@.len() <= memory_data(old(inst).store(), old(inst).memory()->0).len(),
        r is Ok ==> memory_data(final(inst).store(), final(inst).memory()->0)
            == memory_data(old(inst).store(), old(inst).memory()->0).take(offset as int) + bytes@
            + memory_data(old(inst).store(), old(inst).memory()->0).skip(offset + bytes@.len()),
        r matches Err(m) ==> m@ == OUT_OF_BOUNDS_ACCESS@
            && memory_data(final(inst).store(), final(inst).memory()->0) == memory_data(old(inst).store(), old(inst).memory()->0),
{
    let r = raw_memory_write(inst, offset, bytes);
    proof {
        inst.calls@ = inst.calls@ + 1;
    }
    r
}

/// `wasmtime::Memory::read` of `len` bytes at `offset` from the exported
/// memory: the bytes there when they lie within the memory, else
/// `MemoryAccessError`.
#[verifier::external_body]
pub(crate) fn memory_read(inst: &ModuleInstance, offset: usize, len: usize) -> (r: Result<Vec<u8>, String>)
    requires
        inst.memory() is Some,
        len <= i32::MAX,
    ensures
        r is Ok <==> offset + len <= memory_data(inst.store(), inst.memory()->0).len(),
        r matches Ok(b) ==> b@ == memory_data(inst.store(), inst.memory()->0).subrange(offset as int, offset + len),
        r matches Err(m) ==> m@ == OUT_OF_BOUNDS_ACCESS@,
{
    let memory = inst.memory.as_ref().unwrap();
    let mut buffer = vec![0u8; len];
    memory.read(&inst.store, offset, &mut buffer).map(|_| buffer).map_err(|e| e.to_string())
}

/// `wasmtime::Store::get_fuel` of the instance's store: the fuel left. Nothing
/// is claimed of it.
#[verifier::external_body]
pub(crate) fn instance_fuel(inst: &ModuleInstance) -> (r: Result<u64, String>) {
    inst.store.get_fuel().map_err(|e| e.to_string())
}

#[verifier::external_type_specification]
#[verifier::external_body]
pub struct ExComponent(wasmtime::component::Component);

/// `wasmtime::component::Component::new`: compiles a component for the
/// engine. What instantiating the compiled component gives is what the binary
/// gives with the engine (named below); an error is wasmtime's error as it
/// displays.
#[verifier::external_body]
pub(crate) fn component_new(engine: &wasmtime::Engine, bytes: &[u8]) -> (r: Result<wasmtime::component::Component, String>)
    ensures
        r matches Ok(c) ==> forall|f: u64| #[trigger] component_instantiation(c, f)
            == compiled_component_instantiation(*engine, bytes@, f),
{
    wasmtime::component::Component::new(engine, bytes).map_err(|e| e.to_string())
}

/// What instantiating a component (see `component_instantiate`) with this
/// fuel gives: the fuel left, or wasmtime's error text.
pub uninterp spec fn component_instantiation(component: wasmtime::component::Component, fuel: u64) -> Result<u64, Seq<char>>;

/// What instantiating the component compiled from a binary for the engine
/// gives with this fuel: the fuel left, or wasmtime's error text.
pub uninterp spec fn compiled_component_instantiation(engine: wasmtime::Engine, bytes: Seq<u8>, fuel: u64) -> Result<u64, Seq<char>>;

/// `wasmtime::Engine::new` on a fresh `wasmtime::Config` with these WASM
/// features (threads, SIMD, relaxed SIMD, multiple memories, 64-bit memories,
/// the component model), fuel consumption and epoch interruption set as given.
/// Nothing is claimed of the engine; an error is wasmtime's error as it displays.
#[verifier::external_body]
pub(crate) fn engine_with_features(
    threads: bool,
    simd: bool,
    relaxed_simd: bool,
    multi_memory: bool,
    memory64: bool,
    component_model: bool,
    consume_fuel: bool,
    epoch_interruption: bool,
) -> (r: Result<wasmtime::Engine, String>) {
    let mut config = wasmtime::Config::new();
    config.wasm_threads(threads).wasm_simd(simd).wasm_relaxed_simd(relaxed_simd);
    config.wasm_multi_memory(multi_memory).wasm_memory64(memory64).wasm_component_model(component_model);
    config.consume_fuel(consume_fuel).epoch_interruption(epoch_interruption);
    wasmtime::Engine::new(&config).map_err(|e| e.to_string())
}

/// The module name and the field name of each of a list of pairs.
pub open spec fn pairs_view(v: Seq<(String, String)>) -> Seq<(Seq<char>, Seq<char>)> {
    Seq::new(v.len(), |i: int| (v[i].0@, v[i].1@))
}

/// `wasmtime::Module::imports`: the module name and the field name of each
/// import, in the module's order.
#[verifier::external_body]
pub(crate) fn module_imports(module: &wasmtime::Module) -> (r: Vec<(String, String)>)
    ensures
        pairs_view(r@) == imports_of(*module),
{
    module.imports().map(|i| (i.module().to_string(), i.name().to_string())).collect()
}

#[verifier::external_type_specification]
#[verifier::external_body]
pub struct ExInstant(std::time::Instant);

/// `std::time::Instant::now`.
#[verifier::external_body]
pub(crate) fn clock_now() -> (t: std::time::Instant) {
    std::time::Instant::now()
}

/// `std::time::Instant::elapsed`, in whole milliseconds (truncated to 64
/// bits). It depends on the clock: nothing is claimed of it.
#[verifier::external_body]
pub(crate) fn elapsed_millis(start: &std::time::Instant) -> (ms: u64) {
    start.elapsed().as_millis() as u64
}

/// `wasmtime::component::Linker::instantiate` of the component, with a linker
/// that defines nothing, in a fresh store of the component's own engine given
/// this fuel (`Store::new`, `Store::set_fuel`). Gives the fuel left
/// (`Store::get_fuel`, 0 when it cannot be read); only success is reported, an
/// error is wasmtime's error as it displays.
#[verifier::external_body]
pub(crate) fn component_instantiate(component: &wasmtime::component::Component, fuel: u64) -> (r: Result<u64, String>)
    ensures
        outcome_view(r) == component_instantiation(*component, fuel),
{
    let mut store = wasmtime::Store::new(component.engine(), ());
    store.set_fuel(fuel).map_err(|e| e.to_string())?;
    let linker = wasmtime::component::Linker::<()>::new(component.engine());
    linker.instantiate(&mut store, component).map_err(|e| e.to_string())?;
    Ok(store.get_fuel().unwrap_or(0))
}

} // verus!
