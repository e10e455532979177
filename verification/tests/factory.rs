use the_dagwood::factory::LocalProcessorFactory;

#[test]
fn test_list_available_implementations() {
    let implementations = LocalProcessorFactory::list_available_implementations();
    assert!(!implementations.is_empty());
    assert!(implementations.contains(&"change_text_case_upper"));
    assert!(implementations.contains(&"reverse_text"));
    assert!(implementations.contains(&"token_counter"));
}

#[test]
fn test_is_implementation_available() {
    assert!(LocalProcessorFactory::is_implementation_available("change_text_case_upper"));
    assert!(LocalProcessorFactory::is_implementation_available("reverse_text"));
    assert!(!LocalProcessorFactory::is_implementation_available("nonexistent_processor"));
}

#[test]
fn test_factory_list_includes_new_collectors() {
    let implementations = LocalProcessorFactory::list_available_implementations();

    assert!(implementations.contains(&"first_available_collector"));
    assert!(implementations.contains(&"metadata_merge_collector"));
    assert!(implementations.contains(&"concatenate_collector"));
    assert!(implementations.contains(&"json_merge_collector"));
    assert!(implementations.contains(&"custom_collector"));
}
