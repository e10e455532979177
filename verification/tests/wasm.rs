use the_dagwood::config::{BackendType, ConfigValue, FuelConfig, ProcessorConfig};
use the_dagwood::processing_node::{
    CStyleExecutionError, ComponentExecutionError, ProcessingNodeError, ProcessingNodeExecutor, ProcessingNodeFactory,
    WasiExecutionError, ExecutionMetadata,
};
use the_dagwood::proto::{Outcome, ProcessorIntent, ProcessorRequest};
use the_dagwood::string_map::StringMap;
use the_dagwood::wasm_runtime::{LoadedModule, WasmArtifact, WasmModuleLoader};
use the_dagwood::wasm::{
    check_file_size, check_module_size, clamps_fuel_level, detect_component_type, parse_module_imports, resolve_wasm_settings,
    validate_wasi_import, wasm_failure_response, wasm_response, ComponentType, ImportType, WasmComponentDetector,
    WasmError, WasmProcessor, MAX_WASM_SIZE, WASM_UNSUPPORTED_ENCODING,
};

const MODULE_HEADER: [u8; 8] = [0x00, 0x61, 0x73, 0x6d, 0x01, 0x00, 0x00, 0x00];
const COMPONENT_HEADER: [u8; 8] = [0x00, 0x61, 0x73, 0x6d, 0x0d, 0x00, 0x01, 0x00];

fn wasm_config(options: StringMap<ConfigValue>) -> ProcessorConfig {
    ProcessorConfig {
        id: "test_processor".to_string(),
        backend: BackendType::Wasm,
        processor: None,
        endpoint: None,
        module: Some("wasm_components/wasm_appender.wasm".to_string()),
        depends_on: vec![],
        collection_strategy: None,
        options,
    }
}

fn bounded_fuel() -> FuelConfig {
    FuelConfig { default: Some(100_000_000), minimum: Some(1_000_000), maximum: Some(500_000_000) }
}

#[test]
fn test_empty_input() {
    let empty: &[u8] = &[];
    let result = detect_component_type(empty);
    assert!(result.is_err());
}

#[test]
fn test_invalid_input() {
    let bad = b"\x00\x00\x00\x00\x00\x00\x00\x00";
    let result = detect_component_type(bad);
    assert!(result.is_err());
}

#[test]
fn test_component_type_helper_methods() {
    assert!(ComponentType::Wit.is_wit());
    assert!(!ComponentType::Wit.is_cstyle());

    assert!(ComponentType::CStyle.is_cstyle());
    assert!(!ComponentType::CStyle.is_wit());
}

#[test]
fn detect_core_module_is_cstyle() {
    assert_eq!(detect_component_type(&MODULE_HEADER), Ok(ComponentType::CStyle));
}

#[test]
fn detect_component_is_wit() {
    assert_eq!(detect_component_type(&COMPONENT_HEADER), Ok(ComponentType::Wit));
}

#[test]
fn detect_legacy_component_is_refused() {
    let mut bytes = MODULE_HEADER.to_vec();
    bytes.extend_from_slice(&[0x00, 0x0a, 0x09]);
    bytes.extend_from_slice(b"component");
    assert_eq!(
        detect_component_type(&bytes),
        Err(WasmError::UnsupportedEncoding(WASM_UNSUPPORTED_ENCODING.to_string()))
    );
}

#[test]
fn detect_parse_error_is_reported() {
    let result = detect_component_type(b"\x00\x00\x00\x00\x00\x00\x00\x00");
    match result {
        Err(WasmError::ParserError(m)) => assert!(!m.is_empty()),
        other => panic!("expected a parser error, got {:?}", other),
    }
}

#[test]
fn test_determine_type_returns_cstyle() {
    let engine = wasmtime::Engine::default();
    let wasm_bytes = wat::parse_str("(module)").unwrap();
    let module = wasmtime::Module::new(&engine, &wasm_bytes).unwrap();
    let loaded_module = LoadedModule {
        engine,
        artifact: WasmArtifact::Module(module),
        imports: vec![],
        module_file: "test.wasm".to_string(),
    };
    let component_type = WasmComponentDetector::determine_type(&loaded_module);
    assert!(matches!(component_type, ComponentType::CStyle));
}

#[test]
fn test_module_size_validation() {
    let large_data = vec![0u8; MAX_WASM_SIZE + 1];
    let result = WasmModuleLoader::load_module_bytes(&large_data, "large.wasm".to_string());
    assert!(result.is_err());
    if let Err(WasmError::ValidationError(msg)) = result {
        assert!(msg.contains("WASM module too large"));
    } else {
        panic!("Expected ValidationError for oversized module");
    }
}

#[test]
fn module_size_limit_text() {
    let result = check_module_size(MAX_WASM_SIZE + 1);
    assert!(result.is_err());
    if let Err(WasmError::ValidationError(msg)) = result {
        assert!(msg.contains("WASM module too large"));
        assert_eq!(msg, format!("WASM module too large: {} bytes (max: {} bytes)", MAX_WASM_SIZE + 1, MAX_WASM_SIZE));
    } else {
        panic!("Expected ValidationError for oversized module");
    }
    assert!(check_module_size(MAX_WASM_SIZE).is_ok());
}

#[test]
fn test_wasi_import_validation() {
    let result = validate_wasi_import("wasi_snapshot_preview1", "proc_exit");
    assert!(result.is_ok());

    let result = validate_wasi_import("wasi_snapshot_preview1", "path_open");
    assert!(result.is_err());

    if let Err(WasmError::ValidationError(msg)) = result {
        assert!(msg.contains("is not allowed"));
        assert!(msg.contains("path_open"));
        assert_eq!(
            msg,
            "WASI function 'path_open' from module 'wasi_snapshot_preview1' is not allowed. Allowed functions: [\"proc_exit\", \"random_get\", \"clock_time_get\", \"fd_write\", \"fd_read\"]"
        );
    } else {
        panic!("Expected ValidationError for disallowed WASI function");
    }
}

#[test]
fn module_imports_are_classified() {
    let imports = vec![
        ("env".to_string(), "log".to_string()),
        ("wasi_snapshot_preview1".to_string(), "fd_write".to_string()),
    ];
    let parsed = parse_module_imports(imports).unwrap();
    assert_eq!(parsed.len(), 2);
    assert_eq!(parsed[0].import_type, ImportType::Other);
    assert_eq!(parsed[1].import_type, ImportType::Wasi);
    assert_eq!(parsed[1].function_name, "fd_write");
}

#[test]
fn module_imports_stop_at_first_disallowed() {
    let imports = vec![
        ("wasi_snapshot_preview1".to_string(), "path_open".to_string()),
        ("wasi_snapshot_preview1".to_string(), "sock_send".to_string()),
    ];
    match parse_module_imports(imports) {
        Err(WasmError::ValidationError(msg)) => assert!(msg.contains("'path_open'")),
        other => panic!("expected a validation error, got {:?}", other.map(|v| v.len())),
    }
}

#[test]
fn test_file_too_large() {
    let result = check_file_size(MAX_WASM_SIZE + 1);
    assert!(result.is_err());
    if let Err(WasmError::ValidationError(msg)) = result {
        assert!(msg.contains("too large"));
        assert!(msg.contains(&format!("{}", MAX_WASM_SIZE + 1)));
    } else {
        panic!("Expected ValidationError for oversized file");
    }
}

#[test]
fn test_max_size_boundary() {
    assert!(check_file_size(MAX_WASM_SIZE).is_ok());
}

#[test]
fn test_fuel_level_from_config_default() {
    let mut options = StringMap::new();
    options.insert("intent".to_string(), ConfigValue::Str("transform".to_string()));
    let settings = resolve_wasm_settings(&wasm_config(options), &FuelConfig::default()).unwrap();
    assert_eq!(settings.fuel_level, 100_000_000);
    assert_eq!(settings.intent, ProcessorIntent::Transform);
    assert_eq!(settings.module_file, "wasm_components/wasm_appender.wasm");
}

#[test]
fn test_fuel_level_from_config_custom() {
    let mut options = StringMap::new();
    options.insert("intent".to_string(), ConfigValue::Str("transform".to_string()));
    options.insert("fuel_level".to_string(), ConfigValue::UInt(50_000_000));
    let settings = resolve_wasm_settings(&wasm_config(options), &FuelConfig::default()).unwrap();
    assert_eq!(settings.fuel_level, 50_000_000);
}

#[test]
fn test_fuel_level_clamped_to_maximum() {
    let mut options = StringMap::new();
    options.insert("fuel_level".to_string(), ConfigValue::UInt(1_000_000_000));
    let settings = resolve_wasm_settings(&wasm_config(options), &bounded_fuel()).unwrap();
    assert_eq!(settings.fuel_level, 500_000_000);
}

#[test]
fn test_fuel_level_clamped_to_minimum() {
    let mut options = StringMap::new();
    options.insert("fuel_level".to_string(), ConfigValue::UInt(100));
    let settings = resolve_wasm_settings(&wasm_config(options), &bounded_fuel()).unwrap();
    assert_eq!(settings.fuel_level, 1_000_000);
}

#[test]
fn test_fuel_level_negative_number_error() {
    let mut options = StringMap::new();
    options.insert("fuel_level".to_string(), ConfigValue::Int(-100));
    let result = resolve_wasm_settings(&wasm_config(options), &FuelConfig::default());
    assert!(result.is_err(), "Should fail with negative fuel_level");
    if let Err(e) = result {
        let error_msg = e.message();
        assert!(error_msg.contains("fuel_level must be a positive number"));
        assert_eq!(error_msg, "Invalid input: fuel_level must be a positive number");
    }
}

#[test]
fn test_fuel_level_invalid_type_error() {
    let mut options = StringMap::new();
    options.insert("fuel_level".to_string(), ConfigValue::Str("not_a_number".to_string()));
    let result = resolve_wasm_settings(&wasm_config(options), &FuelConfig::default());
    assert!(result.is_err(), "Should fail with invalid fuel_level type");
    if let Err(e) = result {
        assert!(e.message().contains("fuel_level must be a number"));
    }
}

#[test]
fn wasm_settings_intent_is_case_insensitive() {
    let mut options = StringMap::new();
    options.insert("intent".to_string(), ConfigValue::Str("ANALYZE".to_string()));
    let settings = resolve_wasm_settings(&wasm_config(options), &FuelConfig::default()).unwrap();
    assert_eq!(settings.intent, ProcessorIntent::Analyze);
}

#[test]
fn wasm_settings_invalid_intent() {
    let mut options = StringMap::new();
    options.insert("intent".to_string(), ConfigValue::Str("Mutate".to_string()));
    let result = resolve_wasm_settings(&wasm_config(options), &FuelConfig::default());
    assert_eq!(
        result.err(),
        Some(WasmError::ValidationError("Invalid intent 'mutate'. Must be 'transform' or 'analyze'.".to_string()))
    );
}

#[test]
fn wasm_settings_intent_must_be_string() {
    let mut options = StringMap::new();
    options.insert("intent".to_string(), ConfigValue::Bool(true));
    let result = resolve_wasm_settings(&wasm_config(options), &FuelConfig::default());
    assert_eq!(result.err(), Some(WasmError::ValidationError("Intent option must be a string".to_string())));
}

#[test]
fn wasm_settings_need_module() {
    let mut config = wasm_config(StringMap::new());
    config.module = None;
    let result = resolve_wasm_settings(&config, &FuelConfig::default());
    assert_eq!(
        result.err(),
        Some(WasmError::ValidationError("Missing required 'module' field in WASM processor configuration".to_string()))
    );
}

#[test]
fn wasm_error_messages() {
    assert_eq!(WasmError::InvalidPointer(-7).message(), "Invalid pointer: -7");
    assert_eq!(WasmError::InvalidPointer(42).message(), "Invalid pointer: 42");
    assert_eq!(WasmError::ModuleError("bad".to_string()).message(), "WASM module error: bad");
    assert_eq!(WasmError::ParserError("eof".to_string()).message(), "WASM parser error: eof");
}

#[test]
fn processing_node_error_messages() {
    let e = ProcessingNodeError::CStyleError(CStyleExecutionError::FunctionNotFound("process".to_string()));
    assert_eq!(e.message(), "C-Style execution error: Required function 'process' not found in module exports");
    let e = ProcessingNodeError::ComponentError(ComponentExecutionError::InterfaceNotFound("run".to_string()));
    assert_eq!(e.message(), "Component execution error: Required interface 'run' not found in component");
    let e = ProcessingNodeError::WasiError(WasiExecutionError::FunctionNotAvailable("fd_read".to_string()));
    assert_eq!(e.message(), "WASI execution error: Required WASI function 'fd_read' not available");
    let e: ProcessingNodeError = String::from("boom").into();
    assert_eq!(e, ProcessingNodeError::RuntimeError("boom".to_string()));
    assert_eq!(
        ProcessingNodeError::from_wasm_error(&WasmError::MemoryError("full".to_string())),
        ProcessingNodeError::RuntimeError("Memory error: full".to_string())
    );
    assert_eq!(
        ProcessingNodeError::InputError("empty".to_string()).into_wasm_error(),
        WasmError::ProcessorError("Input error: empty".to_string())
    );
}

#[test]
fn deprecated_factory_refuses() {
    let r: Result<(), ProcessingNodeError> = ProcessingNodeFactory::create_executor(());
    match r {
        Err(ProcessingNodeError::ValidationError(m)) => assert!(m.starts_with("ProcessingNodeFactory is deprecated")),
        other => panic!("unexpected {:?}", other),
    }
}

#[test]
fn wasm_response_success_and_failure() {
    let id = "wasm1".to_string();
    let file = "m.wasm".to_string();
    let ok = wasm_response(&id, &file, "C-Style", "[\"c-style\"]", 3, Ok(b"done!".to_vec()));
    assert_eq!(ok.outcome, Some(Outcome::NextPayload(b"done!".to_vec())));
    let meta = ok.metadata.get("wasm1").unwrap();
    assert_eq!(meta.metadata.get("input_length"), Some(&"3".to_string()));
    assert_eq!(meta.metadata.get("output_length"), Some(&"5".to_string()));
    assert_eq!(meta.metadata.get("module_path"), Some(&"m.wasm".to_string()));

    let failed = wasm_response(&id, &file, "C-Style", "[]", 3, Err(ProcessingNodeError::InputError("x".to_string())));
    match failed.outcome {
        Some(Outcome::Error(d)) => {
            assert_eq!(d.code, 500);
            assert_eq!(d.message, "WASM execution failed: Input error: x");
        },
        other => panic!("unexpected {:?}", other),
    }
    assert!(failed.metadata.is_empty());
    let direct = wasm_failure_response("oops");
    assert!(matches!(direct.outcome, Some(Outcome::Error(ref d)) if d.message == "WASM execution failed: oops"));
}

struct Upper;

impl ProcessingNodeExecutor for Upper {
    fn execute(&self, input: &[u8]) -> Result<Vec<u8>, ProcessingNodeError> {
        Ok(input.to_ascii_uppercase())
    }

    fn artifact_type(&self) -> &'static str {
        "Test"
    }

    fn capabilities(&self) -> Vec<String> {
        vec!["upper".to_string(), "quote\"d".to_string()]
    }

    fn execution_metadata(&self) -> ExecutionMetadata {
        ExecutionMetadata {
            module_file: String::new(),
            artifact_type: "Test".to_string(),
            import_count: 0,
            capabilities: self.capabilities(),
        }
    }
}

#[test]
fn wasm_processor_runs_its_executor() {
    let p = WasmProcessor {
        processor_id: "up".to_string(),
        module_file: "up.wasm".to_string(),
        executor: Upper,
        intent: ProcessorIntent::Transform,
    };
    assert_eq!(p.name(), "WasmProcessor");
    assert_eq!(p.declared_intent(), ProcessorIntent::Transform);
    let r = p.process(ProcessorRequest { payload: b"abc".to_vec(), metadata: StringMap::new() });
    assert_eq!(r.outcome, Some(Outcome::NextPayload(b"ABC".to_vec())));
    let meta = r.metadata.get("up").unwrap();
    assert_eq!(meta.metadata.get("artifact_type"), Some(&"Test".to_string()));
    assert_eq!(meta.metadata.get("capabilities"), Some(&"[\"upper\", \"quote\\\"d\"]".to_string()));
    assert_eq!(meta.metadata.get("processor_id"), Some(&"up".to_string()));
}

#[test]
fn fuel_clamping_is_reached_only_with_valid_settings() {
    let mut options = StringMap::new();
    assert!(!clamps_fuel_level(&wasm_config(options.clone())));
    options.insert("fuel_level".to_string(), ConfigValue::UInt(5));
    assert!(clamps_fuel_level(&wasm_config(options.clone())));
    let mut bad_intent = options.clone();
    bad_intent.insert("intent".to_string(), ConfigValue::Str("sideways".to_string()));
    assert!(!clamps_fuel_level(&wasm_config(bad_intent.clone())));
    // Inverted bounds are never consulted when the intent is refused first.
    let inverted = FuelConfig { default: None, minimum: Some(10), maximum: Some(1) };
    assert!(resolve_wasm_settings(&wasm_config(bad_intent), &inverted).is_err());
    let mut negative = StringMap::new();
    negative.insert("fuel_level".to_string(), ConfigValue::Int(-1));
    assert!(!clamps_fuel_level(&wasm_config(negative.clone())));
    assert!(resolve_wasm_settings(&wasm_config(negative), &inverted).is_err());
    let mut no_module = wasm_config(options);
    no_module.module = None;
    assert!(!clamps_fuel_level(&no_module));
}
