use the_dagwood::config::{BackendType, Config, ExecutorOptions, ProcessorConfig, Strategy, WasmConfig};
use the_dagwood::errors::{FailureStrategy, ValidationError};
use the_dagwood::string_map::StringMap;
use the_dagwood::validation::{validate_dependency_graph, validate_diamond_patterns};

fn create_test_processor(id: &str, depends_on: Vec<&str>) -> ProcessorConfig {
    ProcessorConfig {
        id: id.to_string(),
        backend: BackendType::Local,
        processor: Some("test".to_string()),
        endpoint: None,
        module: None,
        depends_on: depends_on.iter().map(|s| s.to_string()).collect(),
        collection_strategy: None,
        options: StringMap::new(),
    }
}

fn config_of(processors: Vec<ProcessorConfig>) -> Config {
    Config {
        strategy: Strategy::WorkQueue,
        failure_strategy: FailureStrategy::FailFast,
        executor_options: ExecutorOptions::default(),
        wasm: WasmConfig::default(),
        processors,
    }
}

#[test]
fn test_valid_empty_config() {
    let config = config_of(vec![]);
    assert!(validate_dependency_graph(&config).is_ok());
}

#[test]
fn test_valid_single_processor() {
    let config = config_of(vec![create_test_processor("a", vec![])]);
    assert!(validate_dependency_graph(&config).is_ok());
}

#[test]
fn test_valid_linear_chain() {
    let config = config_of(vec![
        create_test_processor("a", vec![]),
        create_test_processor("b", vec!["a"]),
        create_test_processor("c", vec!["b"]),
    ]);
    assert!(validate_dependency_graph(&config).is_ok());
}

#[test]
fn test_valid_diamond_dependency() {
    let config = config_of(vec![
        create_test_processor("a", vec![]),
        create_test_processor("b", vec!["a"]),
        create_test_processor("c", vec!["a"]),
        create_test_processor("d", vec!["b", "c"]),
    ]);
    assert!(validate_dependency_graph(&config).is_ok());
}

#[test]
fn test_duplicate_processor_ids() {
    let config = config_of(vec![create_test_processor("a", vec![]), create_test_processor("a", vec![])]);

    let result = validate_dependency_graph(&config);
    assert!(result.is_err());
    let errors = result.unwrap_err();
    assert_eq!(errors.len(), 1);
    assert!(matches!(errors[0], ValidationError::DuplicateProcessorId { .. }));
}

#[test]
fn test_unresolved_dependency() {
    let config = config_of(vec![create_test_processor("a", vec![]), create_test_processor("b", vec!["nonexistent"])]);

    let result = validate_dependency_graph(&config);
    assert!(result.is_err());
    let errors = result.unwrap_err();
    assert_eq!(errors.len(), 1);
    assert!(matches!(errors[0], ValidationError::UnresolvedDependency { .. }));
}

#[test]
fn test_simple_cycle() {
    let config = config_of(vec![create_test_processor("a", vec!["b"]), create_test_processor("b", vec!["a"])]);

    let result = validate_dependency_graph(&config);
    assert!(result.is_err());
    let errors = result.unwrap_err();
    assert_eq!(errors.len(), 1);
    assert!(matches!(errors[0], ValidationError::CyclicDependency { .. }));
}

#[test]
fn test_self_dependency_cycle() {
    let config = config_of(vec![create_test_processor("a", vec!["a"])]);

    let result = validate_dependency_graph(&config);
    assert!(result.is_err());
    let errors = result.unwrap_err();
    assert_eq!(errors.len(), 1);
    assert!(matches!(errors[0], ValidationError::CyclicDependency { .. }));
}

#[test]
fn test_complex_cycle() {
    let config = config_of(vec![
        create_test_processor("a", vec!["b"]),
        create_test_processor("b", vec!["c"]),
        create_test_processor("c", vec!["d"]),
        create_test_processor("d", vec!["b"]),
    ]);

    let result = validate_dependency_graph(&config);
    assert!(result.is_err());
    let errors = result.unwrap_err();
    assert_eq!(errors.len(), 1);
    assert!(matches!(errors[0], ValidationError::CyclicDependency { .. }));
}

#[test]
fn test_multiple_errors() {
    let config = config_of(vec![
        create_test_processor("a", vec!["nonexistent"]),
        create_test_processor("a", vec![]),
        create_test_processor("b", vec!["missing"]),
    ]);

    let result = validate_dependency_graph(&config);
    assert!(result.is_err());
    let errors = result.unwrap_err();
    assert!(errors.len() >= 2);
}

#[test]
fn test_diamond_pattern_detection() {
    let config = config_of(vec![
        create_test_processor("entry", vec![]),
        create_test_processor("left", vec!["entry"]),
        create_test_processor("right", vec!["entry"]),
        create_test_processor("merge", vec!["left", "right"]),
    ]);

    let result = validate_dependency_graph(&config);
    assert!(result.is_ok(), "Diamond patterns should be warnings, not blocking errors");

    let diamond_result = validate_diamond_patterns(&config);
    assert!(diamond_result.is_err());
    let warnings = diamond_result.unwrap_err();
    assert_eq!(warnings.len(), 1);
    assert!(matches!(warnings[0], ValidationError::DiamondPatternWarning { .. }));

    if let ValidationError::DiamondPatternWarning { convergence_processor, parallel_paths } = &warnings[0] {
        assert_eq!(convergence_processor, "merge");
        assert_eq!(parallel_paths.len(), 2);
    }
}

#[test]
fn test_no_diamond_pattern_linear_chain() {
    let config = config_of(vec![
        create_test_processor("a", vec![]),
        create_test_processor("b", vec!["a"]),
        create_test_processor("c", vec!["b"]),
    ]);

    let result = validate_dependency_graph(&config);
    assert!(result.is_ok());
}

#[test]
fn test_no_diamond_pattern_single_dependency() {
    let config = config_of(vec![
        create_test_processor("a", vec![]),
        create_test_processor("b", vec!["a"]),
        create_test_processor("c", vec!["a"]),
        create_test_processor("d", vec!["b"]),
    ]);

    let result = validate_dependency_graph(&config);
    assert!(result.is_ok());
}
