use the_dagwood::metadata::{
    extract_processor_metadata, get_base_metadata, has_base_metadata, merge_dependency_metadata_for_execution,
    BASE_METADATA_KEY,
};
use the_dagwood::proto::{Metadata, ProcessorResponse};
use the_dagwood::string_map::StringMap;

fn strings(pairs: &[(&str, &str)]) -> StringMap<String> {
    let mut m = StringMap::new();
    for (k, v) in pairs {
        m.insert(k.to_string(), v.to_string());
    }
    m
}

#[test]
fn test_merge_dependency_metadata_for_execution_basic() {
    let base = strings(&[("request_id", "req_123"), ("user_id", "user_456")]);

    let mut responses = StringMap::new();
    let mut response = ProcessorResponse::default();
    response.metadata.insert(
        "sentiment_analyzer".to_string(),
        Metadata { metadata: strings(&[("analysis_result", "POSITIVE"), ("confidence", "0.95")]) },
    );
    responses.insert("analyzer_dep".to_string(), response);

    let merged = merge_dependency_metadata_for_execution(base, &responses);

    assert!(merged.contains_key(BASE_METADATA_KEY));
    let base_meta = merged.get(BASE_METADATA_KEY).unwrap();
    assert_eq!(base_meta.metadata.get("request_id"), Some(&"req_123".to_string()));
    assert_eq!(base_meta.metadata.get("user_id"), Some(&"user_456".to_string()));

    assert!(merged.contains_key("sentiment_analyzer"));
    let analyzer_meta = merged.get("sentiment_analyzer").unwrap();
    assert_eq!(analyzer_meta.metadata.get("analysis_result"), Some(&"POSITIVE".to_string()));
    assert_eq!(analyzer_meta.metadata.get("confidence"), Some(&"0.95".to_string()));
}

#[test]
fn test_merge_dependency_metadata_for_execution_empty_base() {
    let base = StringMap::new();

    let mut responses = StringMap::new();
    let mut response = ProcessorResponse::default();
    response.metadata.insert("processor1".to_string(), Metadata { metadata: strings(&[("result", "SUCCESS")]) });
    responses.insert("dep1".to_string(), response);

    let merged = merge_dependency_metadata_for_execution(base, &responses);

    assert!(!merged.contains_key(BASE_METADATA_KEY));
    assert!(merged.contains_key("processor1"));
    assert_eq!(merged.get("processor1").unwrap().metadata.get("result"), Some(&"SUCCESS".to_string()));
}

#[test]
fn test_merge_dependency_metadata_for_execution_multiple_dependencies() {
    let base = strings(&[("session_id", "sess_789")]);

    let mut responses = StringMap::new();
    let mut response1 = ProcessorResponse::default();
    response1.metadata.insert("tokenizer".to_string(), Metadata { metadata: strings(&[("tokens", "42")]) });
    response1.metadata.insert("language_detector".to_string(), Metadata { metadata: strings(&[("language", "en")]) });
    responses.insert("text_analysis_dep".to_string(), response1);

    let mut response2 = ProcessorResponse::default();
    response2.metadata.insert("quality_scorer".to_string(), Metadata { metadata: strings(&[("score", "8.5")]) });
    responses.insert("quality_dep".to_string(), response2);

    let merged = merge_dependency_metadata_for_execution(base, &responses);

    assert_eq!(merged.len(), 4);
    assert!(merged.contains_key(BASE_METADATA_KEY));
    assert!(merged.contains_key("tokenizer"));
    assert!(merged.contains_key("language_detector"));
    assert!(merged.contains_key("quality_scorer"));

    assert_eq!(get_base_metadata(&merged).unwrap().get("session_id"), Some(&"sess_789".to_string()));
    assert_eq!(extract_processor_metadata(&merged, "tokenizer").unwrap().get("tokens"), Some(&"42".to_string()));
    assert_eq!(
        extract_processor_metadata(&merged, "language_detector").unwrap().get("language"),
        Some(&"en".to_string())
    );
    assert_eq!(extract_processor_metadata(&merged, "quality_scorer").unwrap().get("score"), Some(&"8.5".to_string()));
}

#[test]
fn test_extract_processor_metadata() {
    let mut merged = StringMap::new();
    merged.insert("test_processor".to_string(), Metadata { metadata: strings(&[("key1", "value1"), ("key2", "value2")]) });

    let extracted = extract_processor_metadata(&merged, "test_processor");
    assert!(extracted.is_some());
    assert_eq!(extracted.unwrap().get("key1"), Some(&"value1".to_string()));
    assert_eq!(extracted.unwrap().get("key2"), Some(&"value2".to_string()));

    let missing = extract_processor_metadata(&merged, "nonexistent");
    assert!(missing.is_none());
}

#[test]
fn test_has_base_metadata() {
    let mut merged_with_base = StringMap::new();
    merged_with_base.insert(BASE_METADATA_KEY.to_string(), Metadata { metadata: strings(&[("original", "data")]) });

    assert!(has_base_metadata(&merged_with_base));

    let merged_without_base = StringMap::new();
    assert!(!has_base_metadata(&merged_without_base));
}

#[test]
fn test_get_base_metadata() {
    let mut merged = StringMap::new();
    merged.insert(
        BASE_METADATA_KEY.to_string(),
        Metadata { metadata: strings(&[("original_key", "original_value")]) },
    );

    let base = get_base_metadata(&merged);
    assert!(base.is_some());
    assert_eq!(base.unwrap().get("original_key"), Some(&"original_value".to_string()));

    let empty_merged = StringMap::new();
    let no_base = get_base_metadata(&empty_merged);
    assert!(no_base.is_none());
}

#[test]
fn test_processor_name_collision() {
    let base = StringMap::new();
    let mut responses = StringMap::new();

    let mut response1 = ProcessorResponse::default();
    response1.metadata.insert("analyzer".to_string(), Metadata { metadata: strings(&[("version", "1.0")]) });
    responses.insert("dep1".to_string(), response1);

    let mut response2 = ProcessorResponse::default();
    response2.metadata.insert("analyzer".to_string(), Metadata { metadata: strings(&[("version", "2.0")]) });
    responses.insert("dep2".to_string(), response2);

    let merged = merge_dependency_metadata_for_execution(base, &responses);

    assert_eq!(merged.len(), 1);
    assert!(merged.contains_key("analyzer"));

    let analyzer_meta = extract_processor_metadata(&merged, "analyzer").unwrap();
    let version = analyzer_meta.get("version").unwrap();
    assert!(version == "1.0" || version == "2.0");
}
