use the_dagwood::cstyle::{
    c_string_input, check_input_size, CStringRead, CStyleAction, CStyleEvent, CStyleExports, CStylePhase, CStyleRun,
    LegacyCStyleRun, MAX_INPUT_SIZE,
};
use the_dagwood::processing_node::ProcessingNodeError;
use the_dagwood::wasm::WasmError;

const ALL: CStyleExports = CStyleExports { memory: true, process: true, allocate: true, deallocate: true };

fn ptr(p: i32) -> CStyleEvent {
    CStyleEvent::Pointer(Ok(p))
}

fn unit() -> CStyleEvent {
    CStyleEvent::Unit(Ok(()))
}

#[test]
fn cstyle_successful_run() {
    let (mut run, a) = CStyleRun::start(3, ALL);
    assert_eq!(a, CStyleAction::Allocate { size: 3 });
    assert_eq!(run.step(ptr(100)), CStyleAction::WriteInput { ptr: 100 });
    assert_eq!(run.step(unit()), CStyleAction::Allocate { size: 4 });
    assert_eq!(run.step(ptr(200)), CStyleAction::CallProcess { input_ptr: 100, input_len: 3, output_len_ptr: 200 });
    assert_eq!(run.step(ptr(300)), CStyleAction::Deallocate { ptr: 100, size: 3 });
    assert_eq!(run.step(unit()), CStyleAction::ReadLength { ptr: 200 });
    assert_eq!(run.step(CStyleEvent::Bytes(Ok(vec![5, 0, 0, 0]))), CStyleAction::Deallocate { ptr: 200, size: 4 });
    assert_eq!(run.step(unit()), CStyleAction::ReadOutput { ptr: 300, len: 5 });
    assert_eq!(run.step(CStyleEvent::Bytes(Ok(b"hello".to_vec()))), CStyleAction::Deallocate { ptr: 300, size: 5 });
    assert_eq!(run.step(unit()), CStyleAction::Finish);
    assert_eq!(run.phase, CStylePhase::Done);
    assert_eq!(run.outcome, Some(Ok(b"hello".to_vec())));
}

#[test]
fn cstyle_missing_exports() {
    let (run, a) = CStyleRun::start(3, CStyleExports { memory: false, ..ALL });
    assert_eq!(a, CStyleAction::Finish);
    assert_eq!(run.outcome, Some(Err(ProcessingNodeError::ValidationError("WASM module must export 'memory'".to_string()))));
    let (run, _) = CStyleRun::start(3, CStyleExports { deallocate: false, ..ALL });
    assert_eq!(
        run.outcome,
        Some(Err(ProcessingNodeError::ValidationError(
            "WASM module must export 'deallocate' function with signature (i32, i32) -> ()".to_string()
        )))
    );
}

#[test]
fn cstyle_failed_process_releases_both_buffers() {
    let (mut run, _) = CStyleRun::start(2, ALL);
    run.step(ptr(8));
    run.step(unit());
    run.step(ptr(16));
    assert_eq!(run.step(CStyleEvent::Pointer(Err("trap".to_string()))), CStyleAction::Deallocate { ptr: 8, size: 2 });
    assert_eq!(run.step(CStyleEvent::Unit(Err("ignored".to_string()))), CStyleAction::Deallocate { ptr: 16, size: 4 });
    assert_eq!(run.step(unit()), CStyleAction::Finish);
    assert_eq!(run.outcome, Some(Err(ProcessingNodeError::RuntimeError("Failed to call process function: trap".to_string()))));
}

#[test]
fn cstyle_null_result_and_empty_output() {
    let (mut run, _) = CStyleRun::start(1, ALL);
    run.step(ptr(8));
    run.step(unit());
    run.step(ptr(16));
    run.step(ptr(0));
    assert_eq!(run.step(unit()), CStyleAction::Deallocate { ptr: 16, size: 4 });
    run.step(unit());
    assert_eq!(
        run.outcome,
        Some(Err(ProcessingNodeError::RuntimeError("WASM process function returned null pointer".to_string())))
    );

    let (mut run, _) = CStyleRun::start(1, ALL);
    run.step(ptr(8));
    run.step(unit());
    run.step(ptr(16));
    run.step(ptr(24));
    run.step(unit());
    run.step(CStyleEvent::Bytes(Ok(vec![0, 0, 0, 0])));
    assert_eq!(run.step(unit()), CStyleAction::Deallocate { ptr: 24, size: 1 });
    assert_eq!(run.step(CStyleEvent::Unit(Err("ignored".to_string()))), CStyleAction::Finish);
    assert_eq!(run.outcome, Some(Ok(vec![])));
}

#[test]
fn cstyle_null_input_allocation() {
    let (mut run, _) = CStyleRun::start(1, ALL);
    assert_eq!(run.step(ptr(0)), CStyleAction::Finish);
    assert_eq!(run.outcome, Some(Err(ProcessingNodeError::RuntimeError("Failed to allocate input memory".to_string()))));
}

#[test]
fn cstyle_length_is_little_endian_and_signed() {
    let (mut run, _) = CStyleRun::start(1, ALL);
    run.step(ptr(8));
    run.step(unit());
    run.step(ptr(16));
    run.step(ptr(24));
    run.step(unit());
    run.step(CStyleEvent::Bytes(Ok(vec![0x01, 0x02, 0x00, 0x00])));
    assert_eq!(run.output_len, 0x0201);
    let (mut run, _) = CStyleRun::start(1, ALL);
    run.step(ptr(8));
    run.step(unit());
    run.step(ptr(16));
    run.step(ptr(24));
    run.step(unit());
    run.step(CStyleEvent::Bytes(Ok(vec![0xff, 0xff, 0xff, 0xff])));
    assert_eq!(run.output_len, -1);
}

#[test]
fn input_size_limit() {
    let result = check_input_size(MAX_INPUT_SIZE + 1);
    assert!(result.is_err());
    if let Err(WasmError::ValidationError(msg)) = result {
        assert!(msg.contains("Input too large"));
    } else {
        panic!("Expected ValidationError for oversized input");
    }
    assert!(check_input_size(MAX_INPUT_SIZE).is_ok());
}

#[test]
fn c_string_input_appends_nul() {
    assert_eq!(c_string_input(b"test"), Ok(b"test\0".to_vec()));
    assert_eq!(
        c_string_input(b"te\0st"),
        Err(WasmError::ValidationError("Input contains null bytes".to_string()))
    );
}

#[test]
fn legacy_successful_run() {
    let (mut run, a) = LegacyCStyleRun::start(b"test", ALL);
    assert_eq!(a, CStyleAction::Allocate { size: 5 });
    run.step(ptr(1000));
    run.step(unit());
    run.step(ptr(1100));
    assert_eq!(run.step(ptr(2000)), CStyleAction::Deallocate { ptr: 1000, size: 5 });
    run.step(unit());
    run.step(CStyleEvent::Bytes(Ok(vec![15, 0, 0, 0])));
    assert_eq!(run.step(unit()), CStyleAction::ReadOutput { ptr: 2000, len: 15 });
    run.step(CStyleEvent::Bytes(Ok(b"test-processed\0".to_vec())));
    assert_eq!(run.step(unit()), CStyleAction::DecodeOutput);
    assert_eq!(run.output, b"test-processed\0".to_vec());
    assert_eq!(run.step(CStyleEvent::Text(CStringRead::Text("test-processed".to_string()))), CStyleAction::Finish);
    assert_eq!(run.outcome, Some(Ok("test-processed".to_string())));
}

#[test]
fn legacy_output_gets_terminator_and_errors_end_run() {
    let (mut run, _) = LegacyCStyleRun::start(b"x", ALL);
    run.step(ptr(8));
    run.step(unit());
    run.step(ptr(16));
    run.step(ptr(24));
    run.step(unit());
    run.step(CStyleEvent::Bytes(Ok(vec![2, 0, 0, 0])));
    run.step(unit());
    run.step(CStyleEvent::Bytes(Ok(b"ok".to_vec())));
    run.step(unit());
    assert_eq!(run.output, b"ok\0".to_vec());
    run.step(CStyleEvent::Text(CStringRead::InvalidUtf8("bad".to_string())));
    assert_eq!(run.outcome, Some(Err(WasmError::StringError("Invalid UTF-8 in output: bad".to_string()))));

    let (mut run, _) = LegacyCStyleRun::start(b"x", ALL);
    assert_eq!(run.step(CStyleEvent::Pointer(Err("trap".to_string()))), CStyleAction::Finish);
    assert_eq!(run.outcome, Some(Err(WasmError::ExecutionError("trap".to_string()))));

    let (run, a) = LegacyCStyleRun::start(b"a\0b", ALL);
    assert_eq!(a, CStyleAction::Finish);
    assert_eq!(run.outcome, Some(Err(WasmError::ValidationError("Input contains null bytes".to_string()))));
}

/// Feeds the events to a run and collects every call it asks for.
fn calls_asked(run: &mut CStyleRun, first: CStyleAction, events: Vec<CStyleEvent>) -> Vec<CStyleAction> {
    let mut calls = vec![first];
    for e in events {
        calls.push(run.step(e));
    }
    calls
}

#[test]
fn successful_run_releases_its_buffers() {
    let (mut run, a) = CStyleRun::start(3, ALL);
    let calls = calls_asked(
        &mut run,
        a,
        vec![
            ptr(100),
            unit(),
            ptr(200),
            ptr(300),
            unit(),
            CStyleEvent::Bytes(Ok(vec![5, 0, 0, 0])),
            unit(),
            CStyleEvent::Bytes(Ok(b"hello".to_vec())),
            unit(),
        ],
    );
    assert!(matches!(run.outcome, Some(Ok(_))));
    assert!(calls.contains(&CStyleAction::Deallocate { ptr: run.input_ptr, size: run.input_len }));
    assert!(calls.contains(&CStyleAction::Deallocate { ptr: run.length_ptr, size: 4 }));
    assert!(calls.contains(&CStyleAction::Deallocate { ptr: run.result_ptr, size: run.output_len }));
    assert_eq!((run.input_ptr, run.length_ptr, run.result_ptr), (100, 200, 300));

    let (mut empty, a) = CStyleRun::start(1, ALL);
    let calls = calls_asked(
        &mut empty,
        a,
        vec![ptr(8), unit(), ptr(16), ptr(24), unit(), CStyleEvent::Bytes(Ok(vec![0, 0, 0, 0])), unit(), unit()],
    );
    assert_eq!(empty.outcome, Some(Ok(vec![])));
    assert!(calls.contains(&CStyleAction::Deallocate { ptr: 8, size: 1 }));
    assert!(calls.contains(&CStyleAction::Deallocate { ptr: 16, size: 4 }));
    assert!(calls.contains(&CStyleAction::Deallocate { ptr: 24, size: 1 }));
}

#[test]
fn successful_legacy_run_releases_its_buffers() {
    let (mut run, a) = LegacyCStyleRun::start(b"test", ALL);
    let mut calls = vec![a];
    for e in vec![
        ptr(1000),
        unit(),
        ptr(1100),
        ptr(2000),
        unit(),
        CStyleEvent::Bytes(Ok(vec![3, 0, 0, 0])),
        unit(),
        CStyleEvent::Bytes(Ok(b"ok\0".to_vec())),
        unit(),
        CStyleEvent::Text(CStringRead::Text("ok".to_string())),
    ] {
        calls.push(run.step(e));
    }
    assert_eq!(run.outcome, Some(Ok("ok".to_string())));
    assert!(calls.contains(&CStyleAction::Deallocate { ptr: 1000, size: 5 }));
    assert!(calls.contains(&CStyleAction::Deallocate { ptr: 1100, size: 4 }));
    assert!(calls.contains(&CStyleAction::Deallocate { ptr: 2000, size: 3 }));
}

#[test]
fn c_strings_are_read_up_to_their_nul() {
    match the_dagwood::cstyle::decode_c_string(&b"hello\0".to_vec()) {
        CStringRead::Text(t) => assert_eq!(t, "hello"),
        other => panic!("unexpected {:?}", other),
    }
    match the_dagwood::cstyle::decode_c_string(&b"he\0llo\0".to_vec()) {
        CStringRead::InteriorNul(m) => assert_eq!(m, "data provided contains an interior nul byte at byte pos 2"),
        other => panic!("unexpected {:?}", other),
    }
    match the_dagwood::cstyle::decode_c_string(&vec![0xc3, 0x28, 0]) {
        CStringRead::InvalidUtf8(m) => assert_eq!(m, "invalid utf-8 sequence of 1 bytes from index 0"),
        other => panic!("unexpected {:?}", other),
    }
    match the_dagwood::cstyle::decode_c_string(&vec![0]) {
        CStringRead::Text(t) => assert_eq!(t, ""),
        other => panic!("unexpected {:?}", other),
    }
}
