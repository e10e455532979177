use the_dagwood::processors::{
    CaseType, ChangeTextCaseConfig, ChangeTextCaseProcessor, PrefixSuffixAdderProcessor, ReverseTextProcessor,
    TokenCounterProcessor, WordFrequencyAnalyzerProcessor,
};
use the_dagwood::proto::{Outcome, ProcessorRequest, ProcessorResponse};
use the_dagwood::string_map::StringMap;

fn request(text: &[u8]) -> ProcessorRequest {
    ProcessorRequest { payload: text.to_vec(), metadata: StringMap::new() }
}

fn payload_text(r: &ProcessorResponse) -> String {
    match &r.outcome {
        Some(Outcome::NextPayload(p)) => String::from_utf8(p.clone()).unwrap(),
        other => panic!("expected a payload, got {:?}", other),
    }
}

fn meta<'a>(r: &'a ProcessorResponse, processor: &str, key: &str) -> Option<&'a String> {
    r.metadata.get(processor).and_then(|m| m.metadata.get(key))
}

#[test]
fn change_case_upper_lower() {
    assert_eq!(payload_text(&ChangeTextCaseProcessor::upper().process(request(b"hello world"))), "HELLO WORLD");
    assert_eq!(payload_text(&ChangeTextCaseProcessor::lower().process(request(b"HeLLo World"))), "hello world");
}

#[test]
fn change_case_proper_and_title() {
    assert_eq!(
        payload_text(&ChangeTextCaseProcessor::proper().process(request(b"the QUICK  brown fox"))),
        "The Quick Brown Fox"
    );
    assert_eq!(
        payload_text(&ChangeTextCaseProcessor::title().process(request(b"the lord OF the rings"))),
        "The Lord of the Rings"
    );
    assert_eq!(payload_text(&ChangeTextCaseProcessor::title().process(request(b"  "))), "");
}

#[test]
fn change_case_errors() {
    let custom = ChangeTextCaseProcessor::new(ChangeTextCaseConfig { case_type: CaseType::from_str("Snake") });
    match custom.process(request(b"abc")).outcome {
        Some(Outcome::Error(e)) => {
            assert_eq!(e.code, 400);
            assert_eq!(e.message, "Unsupported custom case type: Snake");
        },
        other => panic!("unexpected {:?}", other),
    }
    match ChangeTextCaseProcessor::upper().process(request(&[0xff, 0xfe])).outcome {
        Some(Outcome::Error(e)) => {
            assert_eq!(e.code, 400);
            assert!(e.message.starts_with("Invalid UTF-8 input: "));
        },
        other => panic!("unexpected {:?}", other),
    }
}

#[test]
fn case_type_names() {
    assert!(matches!(CaseType::from_str("UPPER"), CaseType::Upper));
    assert!(matches!(CaseType::from_str("title"), CaseType::Title));
    assert_eq!(CaseType::Proper.as_str(), "proper");
    assert_eq!(CaseType::Custom("kebab".to_string()).as_str(), "kebab");
}

#[test]
fn reverse_text() {
    assert_eq!(payload_text(&ReverseTextProcessor::new().process(request("HELLO WORLD".as_bytes()))), "DLROW OLLEH");
    assert_eq!(payload_text(&ReverseTextProcessor::new().process(request("añb".as_bytes()))), "bña");
}

#[test]
fn prefix_suffix() {
    let p = PrefixSuffixAdderProcessor::with_prefix_and_suffix("[START] ".to_string(), " [END]".to_string());
    assert_eq!(payload_text(&p.process(request(b"Hello World"))), "[START] Hello World [END]");
    assert_eq!(payload_text(&PrefixSuffixAdderProcessor::with_prefix("> ".to_string()).process(request(b"x"))), "> x");
    assert_eq!(payload_text(&PrefixSuffixAdderProcessor::with_suffix("!".to_string()).process(request(b"x"))), "x!");
}

#[test]
fn token_counter_counts() {
    let r = TokenCounterProcessor::new().process(request("héllo world\nsecond line".as_bytes()));
    assert_eq!(meta(&r, "token_counter", "char_count"), Some(&"23".to_string()));
    assert_eq!(meta(&r, "token_counter", "word_count"), Some(&"4".to_string()));
    assert_eq!(meta(&r, "token_counter", "line_count"), Some(&"2".to_string()));
}

#[test]
fn word_frequencies() {
    let r = WordFrequencyAnalyzerProcessor::new().process(request(b"The cat, the DOG; the end!"));
    assert_eq!(meta(&r, "word_frequency_analyzer", "word_freq_the"), Some(&"3".to_string()));
    assert_eq!(meta(&r, "word_frequency_analyzer", "word_freq_cat"), Some(&"1".to_string()));
    assert_eq!(meta(&r, "word_frequency_analyzer", "word_freq_dog"), Some(&"1".to_string()));
    assert_eq!(meta(&r, "word_frequency_analyzer", "total_unique_words"), Some(&"4".to_string()));
}
