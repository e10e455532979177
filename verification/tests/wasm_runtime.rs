use the_dagwood::cstyle::MAX_INPUT_SIZE;
use the_dagwood::processing_node::{ComponentExecutionError, ProcessingNodeError, ProcessingNodeExecutor};
use the_dagwood::proto::{Outcome, ProcessorIntent, ProcessorRequest};
use the_dagwood::string_map::StringMap;
use the_dagwood::wasm::{ComponentType, ImportType, ModuleImport, WasmError, WasmProcessor, WasmSettings};
use the_dagwood::wasm_runtime::{
    create_engine, create_executor, CStyleNodeExecutor, ComponentNodeExecutor, LoadedModule, WasiNodeExecutor,
    WasmArtifact, WasmExecutor, WasmModuleLoader, WasmNodeExecutor, NO_COMPONENT_BINDINGS,
};

/// An engine with fuel that reserves no address space up front for linear
/// memories, so that modules can be instantiated where address space is
/// limited (the library's engines keep wasmtime's defaults).
fn small_engine() -> wasmtime::Engine {
    let mut config = wasmtime::Config::new();
    config.consume_fuel(true);
    config.memory_reservation(0);
    config.memory_guard_size(0);
    config.memory_reservation_for_growth(0);
    wasmtime::Engine::new(&config).unwrap()
}

fn small_module(bytes: &[u8]) -> (wasmtime::Engine, wasmtime::Module) {
    let engine = small_engine();
    let module = wasmtime::Module::new(&engine, bytes).unwrap();
    (engine, module)
}

/// A C-style module whose `process` appends "::WASM" to its input.
const APPENDER: &str = r#"
    (module
        (memory (export "memory") 1)
        (global $heap (mut i32) (i32.const 1024))
        (data (i32.const 16) "::WASM")
        (func $alloc (export "allocate") (param $size i32) (result i32)
            (local $p i32)
            (local.set $p (global.get $heap))
            (global.set $heap (i32.add (global.get $heap) (local.get $size)))
            (local.get $p))
        (func (export "deallocate") (param i32 i32))
        (func (export "process") (param $in i32) (param $len i32) (param $outlen i32) (result i32)
            (local $out i32)
            (local.set $out (call $alloc (i32.add (local.get $len) (i32.const 6))))
            (memory.copy (local.get $out) (local.get $in) (local.get $len))
            (memory.copy (i32.add (local.get $out) (local.get $len)) (i32.const 16) (i32.const 6))
            (i32.store (local.get $outlen) (i32.add (local.get $len) (i32.const 6)))
            (local.get $out))
    )
"#;

/// A C-style module with the given body for `process` and a fixed allocator.
fn cstyle_module(allocate_result: i32, process_body: &str) -> Vec<u8> {
    wat::parse_str(format!(
        r#"
        (module
            (memory (export "memory") 1)
            (func (export "allocate") (param i32) (result i32) (i32.const {allocate_result}))
            (func (export "deallocate") (param i32 i32))
            (func (export "process") (param $in i32) (param $len i32) (param $outlen i32) (result i32)
                {process_body})
        )
        "#
    ))
    .unwrap()
}

fn cstyle_executor(bytes: &[u8], fuel: u64) -> WasmNodeExecutor {
    let (engine, module) = small_module(bytes);
    match CStyleNodeExecutor::new(module, engine, fuel) {
        Ok(x) => WasmNodeExecutor::CStyle(x),
        Err(e) => panic!("executor not created: {:?}", e),
    }
}

fn create_test_wasm_module() -> Vec<u8> {
    wat::parse_str(
        r#"
            (module
                (memory (export "memory") 1)
                (func $allocate (export "allocate") (param $size i32) (result i32)
                    (i32.const 1000)
                )
                (func $deallocate (export "deallocate") (param $ptr i32) (param $size i32)
                )
                (func $process (export "process") (param $input_ptr i32) (param $input_len i32) (param $output_len_ptr i32) (result i32)
                    (i32.store8 (i32.const 2000) (i32.const 116))
                    (i32.store8 (i32.const 2001) (i32.const 101))
                    (i32.store8 (i32.const 2002) (i32.const 115))
                    (i32.store8 (i32.const 2003) (i32.const 116))
                    (i32.store8 (i32.const 2004) (i32.const 45))
                    (i32.store8 (i32.const 2005) (i32.const 112))
                    (i32.store8 (i32.const 2006) (i32.const 114))
                    (i32.store8 (i32.const 2007) (i32.const 111))
                    (i32.store8 (i32.const 2008) (i32.const 99))
                    (i32.store8 (i32.const 2009) (i32.const 101))
                    (i32.store8 (i32.const 2010) (i32.const 115))
                    (i32.store8 (i32.const 2011) (i32.const 115))
                    (i32.store8 (i32.const 2012) (i32.const 101))
                    (i32.store8 (i32.const 2013) (i32.const 100))
                    (i32.store8 (i32.const 2014) (i32.const 0))
                    (i32.store (local.get $output_len_ptr) (i32.const 15))
                    (i32.const 2000)
                )
            )
        "#,
    )
    .unwrap()
}

fn load(bytes: &[u8]) -> LoadedModule {
    let (engine, module) = small_module(bytes);
    LoadedModule { engine, artifact: WasmArtifact::Module(module), imports: vec![], module_file: "test.wasm".to_string() }
}

fn loaded_module(wat_text: &str, imports: Vec<ModuleImport>, module_file: &str) -> LoadedModule {
    let engine = wasmtime::Engine::default();
    let wasm_bytes = wat::parse_str(wat_text).unwrap();
    let module = wasmtime::Module::new(&engine, &wasm_bytes).unwrap();
    LoadedModule { engine, artifact: WasmArtifact::Module(module), imports, module_file: module_file.to_string() }
}

#[test]
fn test_create_component_engine() {
    let engine = create_engine(ComponentType::Wit);
    assert!(engine.is_ok(), "Should create Component Model engine");
}

#[test]
fn test_create_classic_engine() {
    let engine = create_engine(ComponentType::CStyle);
    assert!(engine.is_ok(), "Should create classic module engine");
}

#[test]
fn test_engines_are_different_configs() {
    let component_engine = create_engine(ComponentType::Wit).unwrap();
    let classic_engine = create_engine(ComponentType::CStyle).unwrap();
    assert!(
        !std::ptr::eq(&component_engine, &classic_engine),
        "Engines should be distinct instances"
    );
}

#[test]
fn test_create_classic_executor() {
    let wasm_bytes = wat::parse_str(
        r#"
            (module
                (func (export "process") (param i32 i32) (result i32)
                    i32.const 0
                )
            )
            "#,
    )
    .unwrap();
    let result = create_executor(&wasm_bytes, ComponentType::CStyle, 100_000_000);
    assert!(result.is_ok(), "Should create CStyleNodeExecutor for classic module");
}

#[test]
fn test_invalid_wasm_bytes() {
    let invalid_bytes = b"not a valid wasm module";
    let result = create_executor(invalid_bytes, ComponentType::CStyle, 100_000_000);
    assert!(result.is_err(), "Should fail with invalid WASM bytes");
    if let Err(WasmError::ModuleError(msg)) = result {
        assert!(msg.contains("Failed to parse"), "Error should mention parsing failure");
    } else {
        panic!("Expected ModuleError");
    }
}

#[test]
fn test_cstyle_executor_with_wasm_appender() {
    let bytes = wat::parse_str(APPENDER).expect("Failed to load wasm_appender module");
    let component_type = the_dagwood::wasm::detect_component_type(&bytes).expect("Failed to detect component type");
    assert!(component_type.is_cstyle());
    let executor = cstyle_executor(&bytes, 100_000_000);
    let input = b"hello";
    let result = executor.execute(input).expect("Failed to execute WASM module");
    let output = String::from_utf8(result).expect("Output is not valid UTF-8");
    assert_eq!(output, "hello::WASM");
    let metadata = executor.execution_metadata();
    assert_eq!(metadata.artifact_type, "C-Style");
    assert!(metadata.capabilities.contains(&"c-style".to_string()));
    assert!(metadata.capabilities.contains(&"sandboxed".to_string()));
}

#[test]
fn cstyle_executor_runs_the_appender() {
    let bytes = wat::parse_str(APPENDER).unwrap();
    let executor = cstyle_executor(&bytes, 100_000_000);
    assert_eq!(executor.execute(b"hello"), Ok(b"hello::WASM".to_vec()));
    assert_eq!(executor.execute(b""), Ok(b"::WASM".to_vec()));
    assert_eq!(executor.artifact_type(), "C-Style");
    assert_eq!(executor.capabilities(), vec!["c-style", "sandboxed", "no-system-access"]);
    let metadata = executor.execution_metadata();
    assert_eq!(metadata.module_file, "");
    assert_eq!(metadata.import_count, 0);
    match executor {
        WasmNodeExecutor::CStyle(x) => assert_eq!(x.fuel_level(), 100_000_000),
        WasmNodeExecutor::Wit(_) => panic!("expected a C-style executor"),
    }
}

#[test]
fn cstyle_executor_reports_a_missing_export() {
    let bytes = wat::parse_str(
        r#"(module (memory (export "memory") 1)
            (func (export "process") (param i32 i32 i32) (result i32) (i32.const 0))
            (func (export "allocate") (param i32) (result i32) (i32.const 0)))"#,
    )
    .unwrap();
    let executor = cstyle_executor(&bytes, 1_000_000);
    assert_eq!(
        executor.execute(b"x"),
        Err(ProcessingNodeError::ValidationError(
            "WASM module must export 'deallocate' function with signature (i32, i32) -> ()".to_string()
        ))
    );
    let no_memory = wat::parse_str("(module)").unwrap();
    assert_eq!(
        cstyle_executor(&no_memory, 1_000_000).execute(b"x"),
        Err(ProcessingNodeError::ValidationError("WASM module must export 'memory'".to_string()))
    );
}

#[test]
fn cstyle_executor_reports_a_null_result() {
    let bytes = cstyle_module(100, "(i32.const 0)");
    assert_eq!(
        cstyle_executor(&bytes, 1_000_000).execute(b"abc"),
        Err(ProcessingNodeError::RuntimeError("WASM process function returned null pointer".to_string()))
    );
}

#[test]
fn cstyle_executor_reports_a_null_allocation() {
    let bytes = cstyle_module(0, "(i32.const 0)");
    assert_eq!(
        cstyle_executor(&bytes, 1_000_000).execute(b"abc"),
        Err(ProcessingNodeError::RuntimeError("Failed to allocate input memory".to_string()))
    );
}

#[test]
fn cstyle_executor_reports_out_of_bounds_access() {
    let bytes = cstyle_module(70000, "(i32.const 0)");
    assert_eq!(
        cstyle_executor(&bytes, 1_000_000).execute(b"abc"),
        Err(ProcessingNodeError::RuntimeError(
            "Failed to write input to WASM memory: out of bounds memory access".to_string()
        ))
    );
}

#[test]
fn cstyle_executor_reports_a_negative_output_length() {
    let bytes = cstyle_module(100, "(i32.store (local.get $outlen) (i32.const -1)) (i32.const 200)");
    assert_eq!(
        cstyle_executor(&bytes, 1_000_000).execute(b"abc"),
        Err(ProcessingNodeError::RuntimeError("Failed to read output data: out of bounds memory access".to_string()))
    );
}

#[test]
fn cstyle_executor_runs_out_of_fuel() {
    let bytes = cstyle_module(100, "(loop $l (br $l)) (i32.const 0)");
    match cstyle_executor(&bytes, 10_000).execute(b"abc") {
        Err(ProcessingNodeError::RuntimeError(m)) => assert!(m.starts_with("Failed to call process function: ")),
        other => panic!("expected a failed call, got {:?}", other),
    }
}

#[test]
fn cstyle_executor_empty_output() {
    let bytes = cstyle_module(100, "(i32.store (local.get $outlen) (i32.const 0)) (i32.const 200)");
    assert_eq!(cstyle_executor(&bytes, 1_000_000).execute(b"abc"), Ok(vec![]));
}

#[test]
fn component_executor_is_made_for_components() {
    let bytes = wat::parse_str("(component)").unwrap();
    let executor = match create_executor(&bytes, ComponentType::Wit, 1_000) {
        Ok(x) => x,
        Err(e) => panic!("executor not created: {:?}", e),
    };
    assert!(matches!(executor, WasmNodeExecutor::Wit(_)));
    assert_eq!(executor.artifact_type(), "WIT Component");
    assert!(executor.capabilities().is_empty());
    assert_eq!(
        executor.execute(b"x"),
        Err(ProcessingNodeError::ComponentError(ComponentExecutionError::InstantiationFailed(
            NO_COMPONENT_BINDINGS.to_string()
        )))
    );
    match create_executor(b"junk", ComponentType::Wit, 1_000) {
        Err(WasmError::ModuleError(m)) => assert!(m.starts_with("Failed to parse Component Model component: ")),
        _ => panic!("expected a module error"),
    }
}

#[test]
fn test_execute_c_style_success() {
    let wasm_bytes = create_test_wasm_module();
    let loaded_module = load(&wasm_bytes);
    let result = WasmExecutor::execute(&loaded_module, "test").unwrap();
    assert_eq!(result.output, "test-processed");
    assert_eq!(result.input_size, 4);
    assert_eq!(result.output_size, 14);
    assert!(result.fuel_consumed > 0);
}

#[test]
fn test_input_size_validation() {
    let wasm_bytes = create_test_wasm_module();
    let loaded_module = load(&wasm_bytes);
    let large_input = "x".repeat(MAX_INPUT_SIZE + 1);
    let result = WasmExecutor::execute(&loaded_module, &large_input);
    assert!(result.is_err());
    if let Err(WasmError::ValidationError(msg)) = result {
        assert!(msg.contains("Input too large"));
    } else {
        panic!("Expected ValidationError for oversized input");
    }
}

#[test]
fn legacy_executor_refuses_a_nul_in_the_input() {
    let loaded_module = load(&create_test_wasm_module());
    match WasmExecutor::execute(&loaded_module, "a\0b") {
        Err(WasmError::ValidationError(m)) => assert_eq!(m, "Input contains null bytes"),
        _ => panic!("expected a validation error"),
    }
}

#[test]
fn legacy_executor_reads_c_strings() {
    let interior = cstyle_module(
        1000,
        "(i32.store (i32.const 2000) (i32.const 0x00626100)) (i32.store (local.get $outlen) (i32.const 4)) (i32.const 2000)",
    );
    match WasmExecutor::execute(&load(&interior), "x") {
        Err(WasmError::StringError(m)) => assert_eq!(
            m,
            "Invalid C string in output: data provided contains an interior nul byte at byte pos 0"
        ),
        _ => panic!("expected a string error"),
    }
    let invalid = cstyle_module(
        1000,
        "(i32.store8 (i32.const 2000) (i32.const 0xff)) (i32.store (local.get $outlen) (i32.const 1)) (i32.const 2000)",
    );
    match WasmExecutor::execute(&load(&invalid), "x") {
        Err(WasmError::StringError(m)) => {
            assert_eq!(m, "Invalid UTF-8 in output: invalid utf-8 sequence of 1 bytes from index 0")
        },
        _ => panic!("expected a string error"),
    }
    let unterminated = cstyle_module(
        1000,
        "(i32.store16 (i32.const 2000) (i32.const 0x6968)) (i32.store (local.get $outlen) (i32.const 2)) (i32.const 2000)",
    );
    let result = WasmExecutor::execute(&load(&unterminated), "x").unwrap();
    assert_eq!(result.output, "hi");
    assert_eq!(result.output_size, 2);
    assert_eq!(result.input_size, 1);
}

#[test]
fn legacy_executor_reports_a_null_result() {
    let bytes = cstyle_module(1000, "(i32.const 0)");
    match WasmExecutor::execute(&load(&bytes), "x") {
        Err(WasmError::ExecutionError(m)) => assert_eq!(m, "WASM process function returned null pointer"),
        _ => panic!("expected an execution error"),
    }
}

#[test]
fn test_engine_creation() {
    let engine = WasmModuleLoader::create_engine();
    assert!(engine.is_ok());
}

#[test]
fn loader_classifies_imports() {
    let bytes = wat::parse_str(
        r#"(module
            (import "wasi_snapshot_preview1" "fd_write" (func (param i32 i32 i32 i32) (result i32)))
            (import "env" "log" (func (param i32))))"#,
    )
    .unwrap();
    let loaded = match WasmModuleLoader::load_module_bytes(&bytes, "test.wasm".to_string()) {
        Ok(m) => m,
        Err(e) => panic!("module not loaded: {:?}", e),
    };
    assert!(matches!(loaded.artifact, WasmArtifact::Module(_)));
    assert_eq!(loaded.module_file, "test.wasm");
    assert_eq!(loaded.imports.len(), 2);
    assert_eq!(loaded.imports[0].import_type, ImportType::Wasi);
    assert_eq!(loaded.imports[1].import_type, ImportType::Other);
    let refused = wat::parse_str(r#"(module (import "wasi_snapshot_preview1" "path_open" (func)))"#).unwrap();
    match WasmModuleLoader::load_module_bytes(&refused, "refused.wasm".to_string()) {
        Err(WasmError::ValidationError(m)) => assert!(m.contains("is not allowed")),
        _ => panic!("expected a validation error"),
    }
    match WasmModuleLoader::load_module_bytes(b"junk", "junk.wasm".to_string()) {
        Err(WasmError::ModuleError(_)) => {},
        _ => panic!("expected a module error"),
    }
}

#[test]
fn test_component_type_detection() {}

#[test]
fn test_component_executor_creation() {
    let loaded_module = loaded_module("(module (memory (export \"memory\") 1))", vec![], "test_component.wasm");
    let executor = ComponentNodeExecutor::new(loaded_module).unwrap_or_else(|_| panic!("not created"));
    assert_eq!(executor.artifact_type(), "WIT Component");
    let capabilities = executor.capabilities();
    assert!(capabilities.contains(&"wasmtime:component-model".to_string()));
}

#[test]
fn test_component_executor_validation_error() {
    let loaded_module = loaded_module(r#"(module (func (export "run") (result i32) i32.const 42))"#, vec![], "test_module.wasm");
    let result = ComponentNodeExecutor::new(loaded_module);
    assert!(result.is_ok());
}

#[test]
fn test_component_execution() {
    let loaded_module = loaded_module("(module (memory (export \"memory\") 1))", vec![], "test_component.wasm");
    let executor = ComponentNodeExecutor::new(loaded_module).unwrap_or_else(|_| panic!("not created"));
    let input = b"test input";
    match executor.execute(input) {
        Ok(output_bytes) => assert_eq!(output_bytes, Vec::<u8>::new()),
        Err(e) => panic!("Component execution failed: {}", e.message()),
    }
    let metadata = executor.execution_metadata();
    assert_eq!(metadata.module_file, "test_component.wasm");
    assert_eq!(metadata.capabilities, vec!["wasmtime:component-model", "string-processing"]);
}

fn wasi_import(function_name: &str) -> ModuleImport {
    ModuleImport {
        module_name: "wasi_snapshot_preview1".to_string(),
        function_name: function_name.to_string(),
        import_type: ImportType::Wasi,
    }
}

#[test]
fn test_wasi_executor_creation() {
    let loaded_module = loaded_module("(module)", vec![wasi_import("proc_exit")], "test_wasi.wasm");
    let executor = WasiNodeExecutor::new(loaded_module).unwrap_or_else(|_| panic!("not created"));
    assert_eq!(executor.artifact_type(), "WASI Preview 1");
    let capabilities = executor.capabilities();
    assert!(capabilities.contains(&"wasi:preview1".to_string()));
    assert!(capabilities.contains(&"wasi:proc_exit".to_string()));
}

#[test]
fn test_wasi_executor_fallback_execution() {
    let loaded_module = loaded_module("(module)", vec![wasi_import("proc_exit")], "test_wasi.wasm");
    let executor = WasiNodeExecutor::new(loaded_module).unwrap_or_else(|_| panic!("not created"));
    let input = b"test input";
    let result = executor.execute(input);
    assert!(result.is_ok());
    let output = result.unwrap();
    assert_eq!(output, Vec::<u8>::new());
}

#[test]
fn wasi_capabilities_follow_the_imports() {
    let imports = vec![
        wasi_import("fd_write"),
        ModuleImport { module_name: "env".to_string(), function_name: "log".to_string(), import_type: ImportType::Other },
        wasi_import("fd_write"),
        wasi_import("random_get"),
    ];
    let executor = WasiNodeExecutor::new(loaded_module("(module)", imports, "w.wasm")).unwrap_or_else(|_| panic!("not created"));
    assert_eq!(executor.capabilities(), vec!["wasi:preview1", "wasi:fd_write", "wasi:fd_write", "wasi:random_get"]);
    let metadata = executor.execution_metadata();
    assert_eq!(metadata.import_count, 4);
    assert_eq!(metadata.artifact_type, "WASI Preview 1");
}

#[test]
fn wasm_processor_from_parts_makes_its_executor() {
    let bytes = wat::parse_str(APPENDER).unwrap();
    let settings = WasmSettings {
        module_file: "appender.wasm".to_string(),
        intent: ProcessorIntent::Transform,
        fuel_level: 1_000_000,
    };
    let processor = match WasmProcessor::from_parts("append".to_string(), settings, &bytes) {
        Ok(p) => p,
        Err(e) => panic!("processor not made: {:?}", e),
    };
    assert_eq!(processor.processor_id, "append");
    assert_eq!(processor.module_file, "appender.wasm");
    assert_eq!(processor.intent, ProcessorIntent::Transform);
    match &processor.executor {
        WasmNodeExecutor::CStyle(x) => assert_eq!(x.fuel_level(), 1_000_000),
        WasmNodeExecutor::Wit(_) => panic!("expected a C-style executor"),
    }
    let bad = WasmSettings { module_file: "bad.wasm".to_string(), intent: ProcessorIntent::Analyze, fuel_level: 1 };
    match WasmProcessor::from_parts("bad".to_string(), bad, b"junk") {
        Err(WasmError::ValidationError(m)) => assert!(m.starts_with("WASM parser error: ")),
        _ => panic!("expected a validation error"),
    }
}

#[test]
fn wasm_processor_runs_its_module() {
    let bytes = wat::parse_str(APPENDER).unwrap();
    let processor = WasmProcessor {
        processor_id: "append".to_string(),
        module_file: "appender.wasm".to_string(),
        executor: cstyle_executor(&bytes, 1_000_000),
        intent: ProcessorIntent::Transform,
    };
    let r = processor.process(ProcessorRequest { payload: b"hi".to_vec(), metadata: StringMap::new() });
    assert_eq!(r.outcome, Some(Outcome::NextPayload(b"hi::WASM".to_vec())));
    let meta = r.metadata.get("append").unwrap();
    assert_eq!(meta.metadata.get("artifact_type"), Some(&"C-Style".to_string()));
    assert_eq!(
        meta.metadata.get("capabilities"),
        Some(&"[\"c-style\", \"sandboxed\", \"no-system-access\"]".to_string())
    );
    assert_eq!(meta.metadata.get("input_length"), Some(&"2".to_string()));
    assert_eq!(meta.metadata.get("output_length"), Some(&"8".to_string()));
}
