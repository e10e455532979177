use the_dagwood::config::{EntryPoints, Strategy, Config, ExecutorOptions, WasmConfig};
use the_dagwood::errors::{ExecutionError, FailureStrategy};
use the_dagwood::executor_factory::{ConfiguredExecutor, ExecutorFactory, RuntimeBuilder, FALLBACK_CONCURRENCY};
use the_dagwood::graph::DependencyGraph;
use the_dagwood::level_by_level::{build_processor_input, complete_level_task, level_outcome};
use the_dagwood::processor_map::ProcessorMap;
use the_dagwood::processors::{error_response, ChangeTextCaseProcessor, ReverseTextProcessor};
use the_dagwood::proto::{Metadata, Outcome, PipelineMetadata, ProcessorRequest, ProcessorResponse};
use the_dagwood::reactive::{build_notification_network, decide_completion, notify_dependents, select_error, start_entry_points, CompletionAction, ProcessorEvent};
use the_dagwood::string_map::{StringMap, StringSet};
use the_dagwood::work_queue::{WorkQueueRun, WorkQueueStep};

fn graph_of(entries: &[(&str, &[&str])]) -> DependencyGraph {
    let mut graph = StringMap::new();
    for (id, deps) in entries {
        graph.insert(id.to_string(), deps.iter().map(|d| d.to_string()).collect::<Vec<String>>());
    }
    DependencyGraph::from(graph)
}

fn set_of(ids: &[&str]) -> StringSet {
    let mut s = StringSet::new();
    for id in ids {
        s.insert(id.to_string());
    }
    s
}

fn request(text: &str) -> ProcessorRequest {
    ProcessorRequest { payload: text.as_bytes().to_vec(), metadata: StringMap::new() }
}

fn payload(text: &str) -> ProcessorResponse {
    ProcessorResponse { outcome: Some(Outcome::NextPayload(text.as_bytes().to_vec())), metadata: StringMap::new() }
}

/// Drives a run to its end, answering each processor with `answer`.
fn drive(run: &mut WorkQueueRun, strategy: FailureStrategy, answer: &dyn Fn(&str, ProcessorRequest) -> ProcessorResponse) -> Result<Vec<String>, ExecutionError> {
    let mut order = Vec::new();
    let mut pending: Vec<(String, ProcessorRequest)> = Vec::new();
    loop {
        match run.next_step(strategy, 1) {
            WorkQueueStep::Run(id) => {
                if let Some(r) = run.begin(&id) {
                    pending.push((id, r));
                }
            },
            WorkQueueStep::Wait => {
                let (id, r) = pending.remove(0);
                order.push(id.clone());
                let response = answer(&id, r);
                run.finish(id, response);
            },
            WorkQueueStep::Done => return Ok(order),
            WorkQueueStep::Fail(e) => return Err(e),
        }
    }
}

#[test]
fn work_queue_runs_a_chain_in_order() {
    let graph = graph_of(&[("upper", &["reverse"]), ("reverse", &[])]);
    let mut run = WorkQueueRun::start(
        graph,
        set_of(&["upper", "reverse"]),
        set_of(&["upper", "reverse"]),
        &EntryPoints::from(vec!["upper".to_string()]),
        request("hello world"),
    )
    .unwrap();
    let order = drive(&mut run, FailureStrategy::FailFast, &|id, r| {
        if id == "upper" {
            ChangeTextCaseProcessor::upper().process(r)
        } else {
            ReverseTextProcessor::new().process(r)
        }
    })
    .unwrap();
    assert_eq!(order, vec!["upper".to_string(), "reverse".to_string()]);
    assert_eq!(run.canonical_payload, b"DLROW OLLEH".to_vec());
    assert_eq!(run.results.get("upper").unwrap().outcome, Some(Outcome::NextPayload(b"HELLO WORLD".to_vec())));
}

#[test]
fn work_queue_refuses_unregistered_and_cycles() {
    let graph = graph_of(&[("a", &["b"]), ("b", &[])]);
    let r = WorkQueueRun::start(graph, set_of(&["a"]), set_of(&[]), &EntryPoints::new(), request("x"));
    assert_eq!(r.err(), Some(ExecutionError::ProcessorNotFound("b".to_string())));

    let graph = graph_of(&[("a", &["b"]), ("b", &["a"])]);
    let r = WorkQueueRun::start(graph, set_of(&["a", "b"]), set_of(&[]), &EntryPoints::new(), request("x"));
    assert!(matches!(r.err(), Some(ExecutionError::InternalError { .. })));
}

#[test]
fn work_queue_fail_fast_stops_at_first_failure() {
    let graph = graph_of(&[("a", &["b"]), ("b", &[])]);
    let mut run = WorkQueueRun::start(graph, set_of(&["a", "b"]), set_of(&["a", "b"]), &EntryPoints::from(vec!["a".to_string()]), request("x"))
        .unwrap();
    let result = drive(&mut run, FailureStrategy::FailFast, &|_, _| error_response(500, "broken".to_string()));
    match result {
        Err(ExecutionError::ProcessorFailed { processor_id, .. }) => assert_eq!(processor_id, "a"),
        other => panic!("unexpected {:?}", other),
    }
}

#[test]
fn work_queue_continue_on_error_blocks_dependents() {
    // a fails; b depends on a and is blocked; c runs.
    let graph = graph_of(&[("a", &["b"]), ("b", &[]), ("c", &[])]);
    let mut run = WorkQueueRun::start(
        graph,
        set_of(&["a", "b", "c"]),
        set_of(&["a", "b", "c"]),
        &EntryPoints::from(vec!["a".to_string(), "c".to_string()]),
        request("x"),
    )
    .unwrap();
    let result = drive(&mut run, FailureStrategy::ContinueOnError, &|id, r| {
        if id == "a" { error_response(500, "broken".to_string()) } else { ChangeTextCaseProcessor::upper().process(r) }
    });
    match result {
        Err(ExecutionError::MultipleFailed { failures }) => {
            assert_eq!(failures.len(), 1);
            assert_eq!(failures[0].processor_id, "a");
        },
        other => panic!("unexpected {:?}", other),
    }
    assert!(run.results.get("c").is_some());
    assert!(run.results.get("b").is_none());
}

#[test]
fn notification_network_counts_dependencies() {
    let graph = graph_of(&[("a", &["c"]), ("b", &["c"]), ("c", &[])]);
    let mut nodes = build_notification_network(&graph);
    assert_eq!(nodes.len(), 3);
    assert_eq!(nodes[2].processor_id, "c");
    assert_eq!(nodes[2].pending_dependencies, 2);
    assert!(!nodes[2].process_event(ProcessorEvent::DependencyCompleted { dependency_id: "a".to_string(), metadata: None }));
    assert_eq!(nodes[2].pending_dependencies, 1);
    assert!(nodes[2].process_event(ProcessorEvent::Execute { metadata: None }));
    assert_eq!(nodes[2].pending_dependencies, 0);
}

#[test]
fn completed_processors_release_their_dependents() {
    let graph = graph_of(&[("a", &["b", "c"]), ("b", &["d", "x"]), ("c", &["d"]), ("d", &[])]);
    let mut nodes = build_notification_network(&graph);
    let mut processors: ProcessorMap<u8> = ProcessorMap::new();
    processors.insert("a".to_string(), 0);
    processors.insert("b".to_string(), 1);
    processors.insert("d".to_string(), 3);
    let (ready, missing) = notify_dependents(&mut nodes, &"a".to_string(), &processors);
    assert_eq!(ready, vec!["b".to_string()]);
    assert_eq!(missing, vec![ExecutionError::ProcessorNotFound("c".to_string())]);
    let (ready, missing) = notify_dependents(&mut nodes, &"b".to_string(), &processors);
    assert!(ready.is_empty());
    assert!(missing.is_empty());
    assert_eq!(nodes[3].pending_dependencies, 1);
    let (ready, _) = notify_dependents(&mut nodes, &"c".to_string(), &processors);
    assert_eq!(ready, vec!["d".to_string()]);
    assert_eq!(nodes[3].pending_dependencies, 0);
    let (ready, missing) = notify_dependents(&mut nodes, &"c".to_string(), &processors);
    assert!(ready.is_empty() && missing.is_empty());
    assert_eq!(nodes[3].pending_dependencies, 0);
    let (ready, missing) = notify_dependents(&mut nodes, &"unknown".to_string(), &processors);
    assert!(ready.is_empty() && missing.is_empty());
}

#[test]
fn completion_decisions() {
    let id = "p".to_string();
    match decide_completion(&id, payload("out"), true, FailureStrategy::FailFast) {
        CompletionAction::Succeeded { new_payload, .. } => assert_eq!(new_payload, Some(b"out".to_vec())),
        _ => panic!("expected success"),
    }
    match decide_completion(&id, payload("out"), false, FailureStrategy::FailFast) {
        CompletionAction::Succeeded { new_payload, .. } => assert_eq!(new_payload, None),
        _ => panic!("expected success"),
    }
    match decide_completion(&id, ProcessorResponse::default(), false, FailureStrategy::FailFast) {
        CompletionAction::Abort(ExecutionError::ProcessorFailed { error, .. }) => assert_eq!(error, "Processor returned no outcome"),
        _ => panic!("expected an abort"),
    }
    match decide_completion(&id, ProcessorResponse::default(), false, FailureStrategy::BestEffort) {
        CompletionAction::Failed { response } => match response.outcome {
            Some(Outcome::Error(e)) => assert_eq!(e.code, 500),
            other => panic!("unexpected {:?}", other),
        },
        _ => panic!("expected a recorded failure"),
    }
}

#[test]
fn select_error_prefers_processor_failures() {
    let internal = ExecutionError::InternalError { message: "x".to_string() };
    let failed = ExecutionError::ProcessorFailed { processor_id: "p".to_string(), error: "e".to_string() };
    assert_eq!(select_error(vec![internal.clone(), failed.clone()]), Some(failed));
    assert_eq!(select_error(vec![internal.clone()]), Some(internal));
    assert_eq!(select_error(vec![]), None);
}

#[test]
fn level_inputs_and_outcomes() {
    let mut reverse = StringMap::new();
    reverse.insert("entry".to_string(), vec![]);
    reverse.insert("next".to_string(), vec!["entry".to_string()]);
    let mut input = request("original");
    let mut m = StringMap::new();
    m.insert("k".to_string(), "v".to_string());
    input.metadata.insert("input".to_string(), Metadata { metadata: m });
    let canonical = b"canonical".to_vec();

    let mut results: StringMap<ProcessorResponse> = StringMap::new();
    let first = build_processor_input("entry", &reverse, &results, &canonical, &input);
    assert_eq!(first.payload, b"original".to_vec());
    assert_eq!(first.metadata.len(), 1);
    let second = build_processor_input("next", &reverse, &results, &canonical, &input);
    assert_eq!(second.payload, b"canonical".to_vec());
    assert_eq!(second.metadata.len(), 1);
    assert_eq!(second.metadata.get("input").unwrap().metadata.get("k"), Some(&"v".to_string()));

    let mut produced = payload("entry-out");
    let mut em = StringMap::new();
    em.insert("seen".to_string(), "yes".to_string());
    produced.metadata.insert("entry".to_string(), Metadata { metadata: em });
    results.insert("entry".to_string(), produced);
    let third = build_processor_input("next", &reverse, &results, &canonical, &input);
    assert_eq!(third.payload, b"canonical".to_vec());
    assert_eq!(third.metadata.len(), 2);
    assert_eq!(third.metadata.get("entry").unwrap().metadata.get("seen"), Some(&"yes".to_string()));
    assert!(third.metadata.get("input").is_some());

    let id = "t".to_string();
    assert_eq!(complete_level_task(&id, &payload("new"), true), Ok(Some(b"new".to_vec())));
    assert_eq!(complete_level_task(&id, &payload("new"), false), Ok(None));
    assert!(complete_level_task(&id, &ProcessorResponse::default(), true).is_err());

    let err = ExecutionError::InternalError { message: "m".to_string() };
    assert_eq!(level_outcome(vec![Ok(()), Err(err.clone())], FailureStrategy::FailFast), Err(err.clone()));
    assert_eq!(level_outcome(vec![Ok(()), Err(err)], FailureStrategy::ContinueOnError), Ok(()));
}

fn config_with(strategy: Strategy, max: Option<usize>) -> Config {
    Config {
        strategy,
        failure_strategy: FailureStrategy::BestEffort,
        executor_options: ExecutorOptions { max_concurrency: max, ..ExecutorOptions::default() },
        wasm: WasmConfig::default(),
        processors: vec![],
    }
}

#[test]
fn executor_factory_choices() {
    assert!(matches!(
        ExecutorFactory::from_config(&config_with(Strategy::Level, Some(3)), Some(8)),
        ConfiguredExecutor::Level(e) if e.max_concurrency == 3
    ));
    assert!(matches!(
        ExecutorFactory::from_config(&config_with(Strategy::Hybrid, None), Some(8)),
        ConfiguredExecutor::WorkQueue(e) if e.max_concurrency == 8
    ));
    assert!(matches!(
        ExecutorFactory::from_config(&config_with(Strategy::Reactive, None), None),
        ConfiguredExecutor::Reactive(e) if e.max_concurrency == FALLBACK_CONCURRENCY
    ));
    assert!(matches!(
        ExecutorFactory::from_config(&config_with(Strategy::WorkQueue, Some(0)), None),
        ConfiguredExecutor::WorkQueue(e) if e.max_concurrency == 1
    ));
    let (processors, executor, strategy) =
        RuntimeBuilder::from_config(&config_with(Strategy::Level, Some(2)), ProcessorMap::<u8>::new(), None);
    assert!(processors.is_empty());
    assert!(matches!(executor, ConfiguredExecutor::Level(e) if e.max_concurrency == 2));
    assert_eq!(strategy, FailureStrategy::BestEffort);
}

#[test]
fn processor_map_registry() {
    let mut m: ProcessorMap<u32> = ProcessorMap::new();
    assert!(m.is_empty());
    m.insert("a".to_string(), 1);
    m.insert("b".to_string(), 2);
    m.insert("a".to_string(), 3);
    assert_eq!(m.len(), 2);
    assert_eq!(m.get("a"), Some(&3));
    assert!(m.contains_key("b"));
    assert!(!m.contains_key("c"));
    assert_eq!(m.keys(), vec!["a".to_string(), "b".to_string()]);
}

#[test]
fn entry_points_start_once_all_are_known() {
    let graph = graph_of(&[("a", &["c"]), ("b", &["c"]), ("c", &[])]);
    let mut nodes = build_notification_network(&graph);
    let missing = start_entry_points(&mut nodes, &EntryPoints(vec!["a".to_string(), "zz".to_string()]));
    assert_eq!(missing, Err(ExecutionError::ProcessorNotFound("zz".to_string())));
    assert_eq!(nodes[2].pending_dependencies, 2);
    assert!(start_entry_points(&mut nodes, &EntryPoints(vec!["c".to_string(), "a".to_string()])).is_ok());
    assert_eq!(nodes[2].pending_dependencies, 0);
    assert_eq!(nodes[0].pending_dependencies, 0);
}

#[test]
fn completions_record_metadata_only_with_an_outcome() {
    let mut pm = PipelineMetadata::new();
    let mut done = payload("x");
    let mut m = StringMap::new();
    m.insert("k".to_string(), "v".to_string());
    done.metadata.insert("p".to_string(), Metadata { metadata: m.clone() });
    let mut silent = ProcessorResponse::default();
    silent.metadata.insert("q".to_string(), Metadata { metadata: m });
    pm.record_completion("q", &silent);
    assert!(pm.metadata.is_empty());
    pm.record_completion("p", &done);
    assert_eq!(pm.metadata.get("p").unwrap().metadata.get("k"), Some(&"v".to_string()));
}
