//! The factory of local processors: which implementation a processor
//! configuration names, and with which settings.
use vstd::prelude::*;
use vstd::string::*;
use crate::string_map::{StringMap, str_equal, strs_view};
use crate::config::{ProcessorConfig, CollectionStrategy, ConflictResolution, ConfigValue};
use crate::processors::CaseType;

verus! {

/// A local processor, as the factory resolves a configuration.
pub enum LocalProcessorKind {
    ChangeTextCase(CaseType),
    ReverseText,
    TokenCounter,
    WordFrequencyAnalyzer,
    PrefixSuffixAdder { prefix: String, suffix: String },
    ResultCollector(CollectionStrategy),
    FirstAvailableCollector,
    MetadataMergeCollector { primary_source: String, metadata_sources: Vec<String> },
    ConcatenateCollector { separator: Option<String> },
    JsonMergeCollector { merge_arrays: bool, conflict_resolution: ConflictResolution },
    CustomCollector { combiner_impl: String },
}

/// The names of the local implementations, in order.
pub open spec fn implementation_names() -> Seq<Seq<char>> {
    seq![
        "change_text_case_upper"@, "change_text_case_lower"@, "change_text_case_proper"@, "change_text_case_title"@,
        "reverse_text"@, "token_counter"@, "word_frequency_analyzer"@, "prefix_suffix_adder"@, "result_collector"@,
        "first_available_collector"@, "metadata_merge_collector"@, "concatenate_collector"@, "json_merge_collector"@,
        "custom_collector"@
    ]
}

/// The string option `key`, if present and a string.
pub open spec fn str_option(options: Map<Seq<char>, ConfigValue>, key: Seq<char>) -> Option<Seq<char>> {
    if options.contains_key(key) {
        match options[key] {
            ConfigValue::Str(s) => Some(s@),
            _ => None,
        }
    } else {
        None
    }
}

/// The conflict resolution a name stands for.
pub open spec fn resolution_named(name: Seq<char>) -> Option<ConflictResolution> {
    if name == "take_first"@ {
        Some(ConflictResolution::TakeFirst)
    } else if name == "take_last"@ {
        Some(ConflictResolution::TakeLast)
    } else if name == "merge"@ {
        Some(ConflictResolution::Merge)
    } else if name == "error"@ {
        Some(ConflictResolution::Error)
    } else {
        None
    }
}

/// Creates local processors from configurations.
pub struct LocalProcessorFactory;

fn named(s: &String, lit: &str) -> (b: bool)
    ensures
        b == (s@ == lit@),
{
    str_equal(s, &String::from_str(lit))
}

fn get_str_option(options: &StringMap<ConfigValue>, key: &str) -> (r: Option<String>)
    requires
        options.wf(),
    ensures
        match r {
            Some(s) => str_option(options@, key@) == Some(s@),
            None => str_option(options@, key@) is None,
        },
{
    match options.get(key) {
        Some(ConfigValue::Str(s)) => Some(s.clone()),
        _ => None,
    }
}

fn parse_resolution(name: &String) -> (r: Option<ConflictResolution>)
    ensures
        r == resolution_named(name@),
{
    if named(name, "take_first") {
        Some(ConflictResolution::TakeFirst)
    } else if named(name, "take_last") {
        Some(ConflictResolution::TakeLast)
    } else if named(name, "merge") {
        Some(ConflictResolution::Merge)
    } else if named(name, "error") {
        Some(ConflictResolution::Error)
    } else {
        None
    }
}

impl LocalProcessorFactory {
    /// The names of the local implementations.
    pub fn list_available_implementations() -> (names: Vec<&'static str>)
        ensures
            names@.len() == implementation_names().len(),
            forall|i: int| 0 <= i < names@.len() ==> (#[trigger] names@[i])@ == implementation_names()[i],
    {
        let mut names: Vec<&'static str> = Vec::new();
        names.push("change_text_case_upper");
        names.push("change_text_case_lower");
        names.push("change_text_case_proper");
        names.push("change_text_case_title");
        names.push("reverse_text");
        names.push("token_counter");
        names.push("word_frequency_analyzer");
        names.push("prefix_suffix_adder");
        names.push("result_collector");
        names.push("first_available_collector");
        names.push("metadata_merge_collector");
        names.push("concatenate_collector");
        names.push("json_merge_collector");
        names.push("custom_collector");
        names
    }

    /// Whether `impl_name` names a local implementation.
    pub fn is_implementation_available(impl_name: &str) -> (b: bool)
        ensures
            b == implementation_names().contains(impl_name@),
    {
        let names = Self::list_available_implementations();
        let mut i: usize = 0;
        while i < names.len()
            invariant
                names@.len() == implementation_names().len(),
                forall|k: int| 0 <= k < names@.len() ==> (#[trigger] names@[k])@ == implementation_names()[k],
                i <= names@.len(),
                forall|k: int| 0 <= k < i ==> implementation_names()[k] != impl_name@,
            decreases names@.len() - i,
        {
            if str_equal(&names[i].to_owned(), &impl_name.to_owned()) {
                proof {
                    assert(implementation_names()[i as int] == impl_name@);
                }
                return true;
            }
            i = i + 1;
        }
        proof {
            if implementation_names().contains(impl_name@) {
                let k = choose|k: int| 0 <= k < implementation_names().len() && implementation_names()[k] == impl_name@;
            }
        }
        false
    }

    /// Resolves which local processor a configuration asks for. The processor's
    /// implementation name must be given and known; a metadata merge needs a
    /// `primary_source` option, and a custom collector a `combiner_impl` option.
    pub fn resolve(config: &ProcessorConfig) -> (r: Result<LocalProcessorKind, String>)
        requires
            config.options.wf(),
        ensures
            config.processor is None ==> (r matches Err(m)
                && m@ == "Local processor '"@ + config.id@ + "' missing 'impl_' field"@),
            config.processor matches Some(name) ==> {
                let n = name@;
                let opts = config.options@;
                &&& !implementation_names().contains(n) ==> (r matches Err(m)
                    && m@ == "Unknown local processor implementation: '"@ + n + "'"@)
                &&& n == "change_text_case_upper"@ ==> (r matches Ok(LocalProcessorKind::ChangeTextCase(c)) && c is Upper)
                &&& n == "change_text_case_lower"@ ==> (r matches Ok(LocalProcessorKind::ChangeTextCase(c)) && c is Lower)
                &&& n == "change_text_case_proper"@ ==> (r matches Ok(LocalProcessorKind::ChangeTextCase(c)) && c is Proper)
                &&& n == "change_text_case_title"@ ==> (r matches Ok(LocalProcessorKind::ChangeTextCase(c)) && c is Title)
                &&& n == "reverse_text"@ ==> (r matches Ok(LocalProcessorKind::ReverseText))
                &&& n == "token_counter"@ ==> (r matches Ok(LocalProcessorKind::TokenCounter))
                &&& n == "word_frequency_analyzer"@ ==> (r matches Ok(LocalProcessorKind::WordFrequencyAnalyzer))
                &&& n == "prefix_suffix_adder"@ ==> (r matches Ok(LocalProcessorKind::PrefixSuffixAdder { prefix, suffix })
                    && prefix@ == "["@ && suffix@ == "]"@)
                &&& n == "result_collector"@ ==> (r matches Ok(LocalProcessorKind::ResultCollector(s))
                    && match config.collection_strategy {
                        Some(cs) => s.same_as(cs),
                        None => s is FirstAvailable,
                    })
                &&& n == "first_available_collector"@ ==> (r matches Ok(LocalProcessorKind::FirstAvailableCollector))
                &&& n == "metadata_merge_collector"@ ==> match str_option(opts, "primary_source"@) {
                    None => (r matches Err(m) && m@ == "metadata_merge_collector requires 'primary_source' option"@),
                    Some(p) => r matches Ok(LocalProcessorKind::MetadataMergeCollector { primary_source, metadata_sources })
                        && primary_source@ == p
                        && strs_view(metadata_sources@) == if opts.contains_key("metadata_sources"@)
                            && opts["metadata_sources"@] is StrSequence {
                            strs_view(opts["metadata_sources"@]->StrSequence_0@)
                        } else {
                            Seq::<Seq<char>>::empty()
                        },
                }
                &&& n == "concatenate_collector"@ ==> (r matches Ok(LocalProcessorKind::ConcatenateCollector { separator })
                    && match str_option(opts, "separator"@) {
                        Some(s) => separator is Some && separator->0@ == s,
                        None => separator is None,
                    })
                &&& n == "json_merge_collector"@ ==> (r matches Ok(LocalProcessorKind::JsonMergeCollector { merge_arrays, conflict_resolution })
                    && merge_arrays == (opts.contains_key("merge_arrays"@) && opts["merge_arrays"@] == ConfigValue::Bool(true))
                    && conflict_resolution == match str_option(opts, "conflict_resolution"@) {
                        Some(s) => match resolution_named(s) { Some(c) => c, None => ConflictResolution::TakeLast },
                        None => ConflictResolution::TakeLast,
                    })
                &&& n == "custom_collector"@ ==> match str_option(opts, "combiner_impl"@) {
                    None => (r matches Err(m) && m@ == "custom_collector requires 'combiner_impl' option"@),
                    Some(c) => (r matches Ok(LocalProcessorKind::CustomCollector { combiner_impl }) && combiner_impl@ == c),
                }
            },
    {
        let name = match &config.processor {
            Some(n) => n,
            None => {
                let mut m = String::from_str("Local processor '");
                m.append(config.id.as_str());
                m.append("' missing 'impl_' field");
                return Err(m);
            },
        };
        let ghost nv = name@;
        proof {
            reveal_strlit("change_text_case_upper");
            reveal_strlit("change_text_case_lower");
            reveal_strlit("change_text_case_proper");
            reveal_strlit("change_text_case_title");
            reveal_strlit("reverse_text");
            reveal_strlit("token_counter");
            reveal_strlit("word_frequency_analyzer");
            reveal_strlit("prefix_suffix_adder");
            reveal_strlit("result_collector");
            reveal_strlit("first_available_collector");
            reveal_strlit("metadata_merge_collector");
            reveal_strlit("concatenate_collector");
            reveal_strlit("json_merge_collector");
            reveal_strlit("custom_collector");
            assert("change_text_case_upper"@[17] == 'u' && "change_text_case_lower"@[17] == 'l');
            assert("change_text_case_title"@[17] == 't' && "change_text_case_proper"@[0] == 'c');
            assert("word_frequency_analyzer"@[0] == 'w' && "result_collector"@[0] == 'r' && "custom_collector"@[0] == 'c');
            assert("change_text_case_upper"@.len() == 22 && "change_text_case_lower"@.len() == 22);
            assert("change_text_case_title"@.len() == 22 && "change_text_case_proper"@.len() == 23);
            assert("reverse_text"@.len() == 12 && "token_counter"@.len() == 13 && "word_frequency_analyzer"@.len() == 23);
            assert("prefix_suffix_adder"@.len() == 19 && "result_collector"@.len() == 16);
            assert("first_available_collector"@.len() == 25 && "metadata_merge_collector"@.len() == 24);
            assert("concatenate_collector"@.len() == 21 && "json_merge_collector"@.len() == 20 && "custom_collector"@.len() == 16);
        }
        if named(name, "change_text_case_upper") {
            Ok(LocalProcessorKind::ChangeTextCase(CaseType::Upper))
        } else if named(name, "change_text_case_lower") {
            Ok(LocalProcessorKind::ChangeTextCase(CaseType::Lower))
        } else if named(name, "change_text_case_proper") {
            Ok(LocalProcessorKind::ChangeTextCase(CaseType::Proper))
        } else if named(name, "change_text_case_title") {
            Ok(LocalProcessorKind::ChangeTextCase(CaseType::Title))
        } else if named(name, "reverse_text") {
            Ok(LocalProcessorKind::ReverseText)
        } else if named(name, "token_counter") {
            Ok(LocalProcessorKind::TokenCounter)
        } else if named(name, "word_frequency_analyzer") {
            Ok(LocalProcessorKind::WordFrequencyAnalyzer)
        } else if named(name, "prefix_suffix_adder") {
            Ok(LocalProcessorKind::PrefixSuffixAdder { prefix: String::from_str("["), suffix: String::from_str("]") })
        } else if named(name, "result_collector") {
            let strategy = match &config.collection_strategy {
                Some(s) => s.duplicate(),
                None => CollectionStrategy::FirstAvailable,
            };
            Ok(LocalProcessorKind::ResultCollector(strategy))
        } else if named(name, "first_available_collector") {
            Ok(LocalProcessorKind::FirstAvailableCollector)
        } else if named(name, "metadata_merge_collector") {
            let primary_source = match get_str_option(&config.options, "primary_source") {
                Some(p) => p,
                None => {
                    return Err(String::from_str("metadata_merge_collector requires 'primary_source' option"));
                },
            };
            let metadata_sources: Vec<String> = match config.options.get("metadata_sources") {
                Some(ConfigValue::StrSequence(v)) => {
                    let c = v.clone();
                    proof {
                        assert(strs_view(c@) =~= strs_view(v@));
                    }
                    c
                },
                _ => {
                    let e: Vec<String> = Vec::new();
                    proof {
                        assert(strs_view(e@) =~= Seq::<Seq<char>>::empty());
                    }
                    e
                },
            };
            Ok(LocalProcessorKind::MetadataMergeCollector { primary_source, metadata_sources })
        } else if named(name, "concatenate_collector") {
            Ok(LocalProcessorKind::ConcatenateCollector { separator: get_str_option(&config.options, "separator") })
        } else if named(name, "json_merge_collector") {
            let merge_arrays = match config.options.get("merge_arrays") {
                Some(ConfigValue::Bool(b)) => *b,
                _ => false,
            };
            let conflict_resolution = match get_str_option(&config.options, "conflict_resolution") {
                Some(n) => match parse_resolution(&n) {
                    Some(c) => c,
                    None => ConflictResolution::TakeLast,
                },
                None => ConflictResolution::TakeLast,
            };
            Ok(LocalProcessorKind::JsonMergeCollector { merge_arrays, conflict_resolution })
        } else if named(name, "custom_collector") {
            match get_str_option(&config.options, "combiner_impl") {
                Some(c) => Ok(LocalProcessorKind::CustomCollector { combiner_impl: c }),
                None => Err(String::from_str("custom_collector requires 'combiner_impl' option")),
            }
        } else {
            proof {
                assert(!implementation_names().contains(nv)) by {
                    if implementation_names().contains(nv) {
                        let k = choose|k: int| 0 <= k < implementation_names().len() && implementation_names()[k] == nv;
                    }
                }
            }
            let mut m = String::from_str("Unknown local processor implementation: '");
            m.append(name.as_str());
            m.append("'");
            Err(m)
        }
    }
}

} // verus!
