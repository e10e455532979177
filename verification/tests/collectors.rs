use the_dagwood::collectors::{
    CollectableResult, ConcatenateCollector, CustomCollector, FirstAvailableCollector, JsonMergeCollector,
    MetadataMergeCollector, ResultCollectorProcessor,
};
use the_dagwood::config::{BackendType, ConfigValue, ConflictResolution, ProcessorConfig};
use the_dagwood::factory::{LocalProcessorFactory, LocalProcessorKind};
use the_dagwood::proto::{Outcome, ProcessorRequest, ProcessorResponse};
use the_dagwood::string_map::StringMap;

fn success_result(payload: &str) -> CollectableResult {
    CollectableResult { success: true, payload: Some(payload.as_bytes().to_vec()), error_code: None, error_message: None }
}

fn error_result(code: i32, message: &str) -> CollectableResult {
    CollectableResult { success: false, payload: None, error_code: Some(code), error_message: Some(message.to_string()) }
}

fn results(entries: Vec<(&str, CollectableResult)>) -> StringMap<CollectableResult> {
    let mut m = StringMap::new();
    for (k, v) in entries {
        m.insert(k.to_string(), v);
    }
    m
}

fn empty_request() -> ProcessorRequest {
    ProcessorRequest { payload: vec![], metadata: StringMap::new() }
}

fn payload_text(r: &ProcessorResponse) -> String {
    match &r.outcome {
        Some(Outcome::NextPayload(p)) => String::from_utf8(p.clone()).unwrap(),
        other => panic!("expected a payload, got {:?}", other),
    }
}

fn error_message(r: &ProcessorResponse) -> String {
    match &r.outcome {
        Some(Outcome::Error(e)) => e.message.clone(),
        other => panic!("expected an error, got {:?}", other),
    }
}

fn local_config(name: &str, options: StringMap<ConfigValue>) -> ProcessorConfig {
    ProcessorConfig {
        id: "test_collector".to_string(),
        backend: BackendType::Local,
        processor: Some(name.to_string()),
        endpoint: None,
        module: None,
        depends_on: vec![],
        collection_strategy: None,
        options,
    }
}

#[test]
fn test_first_available_collector_direct() {
    let collector = FirstAvailableCollector::new();
    let deps = results(vec![("dep1", error_result(400, "Failed")), ("dep2", success_result("success_data"))]);
    let response = collector.collect_results(&deps, &empty_request());
    assert_eq!(payload_text(&response), "success_data");
}

#[test]
fn test_first_available_collector_via_factory() {
    let kind = LocalProcessorFactory::resolve(&local_config("first_available_collector", StringMap::new())).unwrap();
    assert!(matches!(kind, LocalProcessorKind::FirstAvailableCollector));
    let deps = results(vec![("dep1", success_result("first_success")), ("dep2", success_result("second_success"))]);
    let result = payload_text(&FirstAvailableCollector::new().collect_results(&deps, &empty_request()));
    assert!(result == "first_success" || result == "second_success");
    assert_eq!(result, "first_success");
}

#[test]
fn first_available_none_succeeded() {
    let deps = results(vec![("dep1", error_result(500, "boom"))]);
    let r = FirstAvailableCollector::new().collect_results(&deps, &empty_request());
    assert_eq!(error_message(&r), "No successful dependency results found");
}

#[test]
fn test_metadata_merge_collector_direct() {
    let collector = MetadataMergeCollector::new("primary".to_string(), vec!["secondary".to_string()]);
    let deps = results(vec![("primary", success_result("primary_data")), ("secondary", success_result("secondary_data"))]);
    let response = collector.collect_results(&deps, &empty_request());
    let result_json: serde_json::Value = serde_json::from_str(&payload_text(&response)).unwrap();
    assert!(result_json.get("primary_payload").is_some());
    assert!(result_json.get("metadata").is_some());
    let metadata = result_json.get("metadata").unwrap().as_object().unwrap();
    assert!(metadata.contains_key("secondary_result"));
    assert_eq!(metadata.get("secondary_result").unwrap().as_str().unwrap(), "secondary_data");
}

#[test]
fn test_metadata_merge_collector_via_factory() {
    let mut options = StringMap::new();
    options.insert("primary_source".to_string(), ConfigValue::Str("main".to_string()));
    options.insert("metadata_sources".to_string(), ConfigValue::StrSequence(vec!["analysis".to_string()]));
    let kind = LocalProcessorFactory::resolve(&local_config("metadata_merge_collector", options)).unwrap();
    let collector = match kind {
        LocalProcessorKind::MetadataMergeCollector { primary_source, metadata_sources } => {
            assert_eq!(primary_source, "main");
            assert_eq!(metadata_sources, vec!["analysis".to_string()]);
            MetadataMergeCollector::new(primary_source, metadata_sources)
        },
        _ => panic!("expected a metadata merge collector"),
    };
    let deps = results(vec![("main", success_result("main_content")), ("analysis", success_result("analysis_result"))]);
    let result_json: serde_json::Value =
        serde_json::from_str(&payload_text(&collector.collect_results(&deps, &empty_request()))).unwrap();
    assert!(result_json.get("primary_payload").is_some());
    assert!(result_json.get("metadata").is_some());
}

#[test]
fn test_factory_missing_required_options() {
    let result = LocalProcessorFactory::resolve(&local_config("metadata_merge_collector", StringMap::new()));
    assert!(result.is_err());
    assert!(result.err().unwrap().contains("requires 'primary_source' option"));
}

#[test]
fn test_create_processor_missing_impl() {
    let mut config = local_config("test", StringMap::new());
    config.processor = None;
    let result = LocalProcessorFactory::resolve(&config);
    assert!(result.is_err());
    assert!(result.err().unwrap().contains("missing 'impl_' field"));
}

#[test]
fn test_create_processor_unknown_impl() {
    let result = LocalProcessorFactory::resolve(&local_config("unknown_processor", StringMap::new()));
    assert!(result.is_err());
    let error_msg = result.err().unwrap();
    assert!(error_msg.contains("Unknown local processor implementation"));
    assert_eq!(error_msg, "Unknown local processor implementation: 'unknown_processor'");
}

#[test]
fn test_concatenate_collector_direct() {
    let collector = ConcatenateCollector::new(Some(" | ".to_string()));
    let deps = results(vec![("dep1", success_result("data1")), ("dep2", success_result("data2"))]);
    let result = payload_text(&collector.collect_results(&deps, &empty_request()));
    assert!(result == "data1 | data2" || result == "data2 | data1");
}

#[test]
fn test_concatenate_collector_via_factory() {
    let mut options = StringMap::new();
    options.insert("separator".to_string(), ConfigValue::Str(" -> ".to_string()));
    let collector = match LocalProcessorFactory::resolve(&local_config("concatenate_collector", options)).unwrap() {
        LocalProcessorKind::ConcatenateCollector { separator } => ConcatenateCollector::new(separator),
        _ => panic!("expected a concatenate collector"),
    };
    let deps = results(vec![("b", success_result("second")), ("a", success_result("first"))]);
    assert_eq!(payload_text(&collector.collect_results(&deps, &empty_request())), "first -> second");
}

#[test]
fn test_json_merge_collector_direct() {
    let collector = JsonMergeCollector::new(true, ConflictResolution::Merge);
    let deps = results(vec![
        ("dep1", success_result(r#"{"count": 5, "items": ["a"]}"#)),
        ("dep2", success_result(r#"{"total": 10, "items": ["b"]}"#)),
    ]);
    let json: serde_json::Value =
        serde_json::from_str(&payload_text(&collector.collect_results(&deps, &empty_request()))).unwrap();
    assert!(json.get("count").is_some());
    assert!(json.get("total").is_some());
    assert!(json.get("items").is_some());
    assert_eq!(json.get("items").unwrap().as_array().unwrap().len(), 2);
}

#[test]
fn test_json_merge_collector_via_factory() {
    let mut options = StringMap::new();
    options.insert("merge_arrays".to_string(), ConfigValue::Bool(false));
    options.insert("conflict_resolution".to_string(), ConfigValue::Str("take_last".to_string()));
    let collector = match LocalProcessorFactory::resolve(&local_config("json_merge_collector", options)).unwrap() {
        LocalProcessorKind::JsonMergeCollector { merge_arrays, conflict_resolution } => {
            assert!(!merge_arrays);
            assert_eq!(conflict_resolution, ConflictResolution::TakeLast);
            JsonMergeCollector::new(merge_arrays, conflict_resolution)
        },
        _ => panic!("expected a JSON merge collector"),
    };
    let deps = results(vec![("dep1", success_result(r#"{"value": "first"}"#)), ("dep2", success_result(r#"{"value": "second"}"#))]);
    let json: serde_json::Value =
        serde_json::from_str(&payload_text(&collector.collect_results(&deps, &empty_request()))).unwrap();
    assert_eq!(json.get("value").unwrap().as_str().unwrap(), "second");
}

#[test]
fn json_merge_conflict_error() {
    let collector = JsonMergeCollector::new(false, ConflictResolution::Error);
    let deps = results(vec![("dep1", success_result(r#"{"v": 1}"#)), ("dep2", success_result(r#"{"v": 2}"#))]);
    let r = collector.collect_results(&deps, &empty_request());
    assert!(matches!(r.outcome, Some(Outcome::Error(_))));
}

#[test]
fn test_custom_collector_via_factory() {
    let mut options = StringMap::new();
    options.insert("combiner_impl".to_string(), ConfigValue::Str("test_combiner".to_string()));
    let collector = match LocalProcessorFactory::resolve(&local_config("custom_collector", options)).unwrap() {
        LocalProcessorKind::CustomCollector { combiner_impl } => CustomCollector::new(combiner_impl),
        _ => panic!("expected a custom collector"),
    };
    let deps = results(vec![("dep1", success_result("data"))]);
    let message = error_message(&collector.collect_results(&deps, &empty_request()));
    assert!(message.contains("not implemented yet"));
    assert_eq!(message, "Custom combiner 'test_combiner' not implemented yet");
}

#[test]
fn result_collector_concatenate_strategy() {
    let p = ResultCollectorProcessor::concatenate(Some(", ".to_string()));
    let deps = results(vec![("z", success_result("last")), ("a", success_result("first")), ("m", error_result(1, "x"))]);
    assert_eq!(payload_text(&p.collect_results(&deps)), "first, last");
}

#[test]
fn result_collector_first_available_strategy() {
    let p = ResultCollectorProcessor::new(the_dagwood::config::CollectionStrategy::FirstAvailable);
    let deps = results(vec![("b", success_result("bee")), ("a", error_result(1, "x"))]);
    assert_eq!(payload_text(&p.collect_results(&deps)), "bee");
}
