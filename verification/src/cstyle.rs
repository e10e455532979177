//! The memory protocol of a C-style WASM module, as a state machine.
//!
//! A C-style module exports its `memory` and three functions: `allocate(size)`,
//! `deallocate(ptr, size)` and `process(input_ptr, input_len, output_len_ptr)`,
//! which returns a pointer to its output and stores the output's length (four
//! bytes, little-endian) at `output_len_ptr`. Running it is a fixed sequence of
//! calls into the module; what each call returns decides the next one. The
//! machine here makes those decisions: it is given the outcome of each call and
//! answers with the next call to make, until it finishes with the output or an
//! error. Whoever holds the module makes the calls.
use vstd::prelude::*;
use vstd::string::*;
use crate::processing_node::ProcessingNodeError;
use crate::wasm::WasmError;
use crate::text::{decimal, decimal_string, decode_text, utf8_error_text};
use vstd::utf8::{valid_utf8, decode_utf8};

verus! {

/// Which of the required exports a module has.
#[derive(Debug, Clone, Copy, PartialEq, Eq)]
pub struct CStyleExports {
    pub memory: bool,
    pub process: bool,
    pub allocate: bool,
    pub deallocate: bool,
}

/// The next call into the module, or the end of the run.
#[derive(Debug, Clone, Copy, PartialEq, Eq, Structural)]
pub enum CStyleAction {
    Allocate { size: i32 },
    WriteInput { ptr: i32 },
    CallProcess { input_ptr: i32, input_len: i32, output_len_ptr: i32 },
    Deallocate { ptr: i32, size: i32 },
    ReadLength { ptr: i32 },
    ReadOutput { ptr: i32, len: i32 },
    /// Read the output (`LegacyCStyleRun::output`, NUL-terminated) as a C string.
    DecodeOutput,
    Finish,
}

/// What a call into the module gave back: a pointer, nothing, or bytes read
/// from its memory; or the text of the call's error.
#[derive(Debug)]
pub enum CStyleEvent {
    Pointer(Result<i32, String>),
    Unit(Result<(), String>),
    Bytes(Result<Vec<u8>, String>),
    Text(CStringRead),
}

/// What reading bytes as a C string gave: the text up to the first NUL, or the
/// error's text (a NUL before the last byte, or text that is not UTF-8).
#[derive(Debug)]
pub enum CStringRead {
    Text(String),
    InteriorNul(String),
    InvalidUtf8(String),
}

/// Where a run is: which call it waits on.
#[derive(Debug, Clone, Copy, PartialEq, Eq, Structural)]
pub enum CStylePhase {
    AllocatingInput,
    WritingInput,
    AllocatingLength,
    ReleasingInputAfterLengthFailure,
    Processing,
    ReleasingInputAfterProcessFailure,
    ReleasingLengthAfterProcessFailure,
    ReleasingInput,
    ReleasingLengthAfterNullResult,
    ReadingLength,
    ReleasingLength,
    ReleasingEmptyResult,
    ReadingOutput,
    ReleasingResult,
    Decoding,
    Done,
}

/// A run of the protocol on an input of `input_len` bytes.
#[derive(Debug)]
pub struct CStyleRun {
    pub phase: CStylePhase,
    pub input_len: i32,
    pub input_ptr: i32,
    pub length_ptr: i32,
    pub result_ptr: i32,
    pub output_len: i32,
    pub output: Vec<u8>,
    /// The error to report once the buffers that can be released are released.
    pub failure: Option<ProcessingNodeError>,
    /// How the run ended, once it has.
    pub outcome: Option<Result<Vec<u8>, ProcessingNodeError>>,
}

/// The signed 32-bit number that four little-endian bytes encode.
pub open spec fn le_i32(b: Seq<u8>) -> int {
    let v = b[0] + 256 * b[1] + 65536 * b[2] + 16777216 * b[3];
    if v >= 2147483648 { v - 4294967296 } else { v }
}

/// Law: four bytes are read as a little-endian 32-bit number in two's
/// complement: the first byte is the least significant, and the result is the
/// signed number whose 32-bit pattern the bytes give.
pub proof fn law_le_i32(b: Seq<u8>)
    requires
        b.len() >= 4,
    ensures
        -2147483648 <= le_i32(b) < 2147483648,
        le_i32(b) == b[0] + 256 * b[1] + 65536 * b[2] + 16777216 * b[3]
            || le_i32(b) == b[0] + 256 * b[1] + 65536 * b[2] + 16777216 * b[3] - 4294967296,
        (b[3] as int) < 128 ==> le_i32(b) == b[0] + 256 * b[1] + 65536 * b[2] + 16777216 * b[3],
{
}

/// A runtime error with the given text.
pub open spec fn runtime_error(e: ProcessingNodeError, m: Seq<char>) -> bool {
    e matches ProcessingNodeError::RuntimeError(t) && t@ == m
}

/// A run that ended with a runtime error with the given text.
pub open spec fn failed_with(r: CStyleRun, m: Seq<char>) -> bool {
    &&& r.phase == CStylePhase::Done
    &&& r.outcome matches Some(Err(e)) && runtime_error(e, m)
}

/// The event is of the kind the run waits for (lengths are four bytes).
pub open spec fn event_fits(phase: CStylePhase, event: CStyleEvent) -> bool {
    match phase {
        CStylePhase::AllocatingInput | CStylePhase::AllocatingLength | CStylePhase::Processing => event is Pointer,
        CStylePhase::ReadingLength => event matches CStyleEvent::Bytes(r) && (r matches Ok(b) ==> b@.len() == 4),
        CStylePhase::ReadingOutput => event is Bytes,
        CStylePhase::Done => true,
        _ => event is Unit,
    }
}

/// The fields that say where the buffers are stay as they were.
pub open spec fn same_buffers(a: CStyleRun, b: CStyleRun) -> bool {
    &&& a.input_len == b.input_len
    &&& a.input_ptr == b.input_ptr
    &&& a.length_ptr == b.length_ptr
    &&& a.result_ptr == b.result_ptr
    &&& a.output_len == b.output_len
}

/// The phases that hold an error to report once the cleanup is done.
pub open spec fn cleaning_up(phase: CStylePhase) -> bool {
    ||| phase == CStylePhase::ReleasingInputAfterLengthFailure
    ||| phase == CStylePhase::ReleasingInputAfterProcessFailure
    ||| phase == CStylePhase::ReleasingLengthAfterProcessFailure
}

/// The run moved on to `phase` and asks for `action`, not finished yet.
pub open spec fn moves(after: CStyleRun, phase: CStylePhase, action: CStyleAction, a: CStyleAction) -> bool {
    &&& after.phase == phase
    &&& after.outcome is None
    &&& a == action
}

/// The run finished with `outcome`.
pub open spec fn ends(after: CStyleRun, outcome: Result<Vec<u8>, ProcessingNodeError>, a: CStyleAction) -> bool {
    &&& after.phase == CStylePhase::Done
    &&& after.outcome == Some(outcome)
    &&& a == CStyleAction::Finish
}

/// The run finished with a runtime error with the given text.
pub open spec fn ends_with(after: CStyleRun, m: Seq<char>, a: CStyleAction) -> bool {
    failed_with(after, m) && a == CStyleAction::Finish
}

/// One step of the protocol: from the run `b`, on the outcome `event` of the
/// call it waited on, to the run `r` that asks for the call `a` next.
pub open spec fn steps(b: CStyleRun, event: CStyleEvent, r: CStyleRun, a: CStyleAction) -> bool {
    match b.phase {
        CStylePhase::AllocatingInput => match event {
            CStyleEvent::Pointer(Err(e)) => ends_with(r, "Failed to call allocate function: "@ + e@, a),
            CStyleEvent::Pointer(Ok(p)) => if p == 0 {
                ends_with(r, "Failed to allocate input memory"@, a)
            } else {
                moves(r, CStylePhase::WritingInput, CStyleAction::WriteInput { ptr: p }, a)
                    && r.input_len == b.input_len && r.input_ptr == p
            },
            _ => false,
        },
        CStylePhase::WritingInput => match event {
            CStyleEvent::Unit(Err(e)) => ends_with(r, "Failed to write input to WASM memory: "@ + e@, a),
            CStyleEvent::Unit(Ok(())) => moves(r, CStylePhase::AllocatingLength, CStyleAction::Allocate { size: 4 }, a)
                && same_buffers(b, r),
            _ => false,
        },
        CStylePhase::AllocatingLength => match event {
            CStyleEvent::Pointer(Err(e)) => ends_with(r, "Failed to allocate output length memory: "@ + e@, a),
            CStyleEvent::Pointer(Ok(p)) => if p == 0 {
                moves(r, CStylePhase::ReleasingInputAfterLengthFailure,
                    CStyleAction::Deallocate { ptr: b.input_ptr, size: b.input_len }, a)
                    && same_buffers(b, r)
                    && (r.failure matches Some(f) && runtime_error(f, "Failed to allocate output length memory"@))
            } else {
                moves(r, CStylePhase::Processing,
                    CStyleAction::CallProcess { input_ptr: b.input_ptr, input_len: b.input_len, output_len_ptr: p }, a)
                    && r.input_len == b.input_len && r.input_ptr == b.input_ptr && r.length_ptr == p
            },
            _ => false,
        },
        CStylePhase::ReleasingInputAfterLengthFailure => event is Unit && ends(r, Err(b.failure->0), a),
        CStylePhase::Processing => match event {
            CStyleEvent::Pointer(Err(e)) => moves(r, CStylePhase::ReleasingInputAfterProcessFailure,
                CStyleAction::Deallocate { ptr: b.input_ptr, size: b.input_len }, a)
                && same_buffers(b, r)
                && (r.failure matches Some(f) && runtime_error(f, "Failed to call process function: "@ + e@)),
            CStyleEvent::Pointer(Ok(p)) => moves(r, CStylePhase::ReleasingInput,
                CStyleAction::Deallocate { ptr: b.input_ptr, size: b.input_len }, a)
                && r.input_len == b.input_len && r.input_ptr == b.input_ptr && r.length_ptr == b.length_ptr
                && r.result_ptr == p,
            _ => false,
        },
        CStylePhase::ReleasingInputAfterProcessFailure => event is Unit
            && moves(r, CStylePhase::ReleasingLengthAfterProcessFailure,
                CStyleAction::Deallocate { ptr: b.length_ptr, size: 4 }, a)
            && same_buffers(b, r) && r.failure == b.failure,
        CStylePhase::ReleasingLengthAfterProcessFailure => event is Unit && ends(r, Err(b.failure->0), a),
        CStylePhase::ReleasingInput => match event {
            CStyleEvent::Unit(Err(e)) => ends_with(r, "Failed to deallocate input memory: "@ + e@, a),
            CStyleEvent::Unit(Ok(())) => same_buffers(b, r) && if b.result_ptr == 0 {
                moves(r, CStylePhase::ReleasingLengthAfterNullResult, CStyleAction::Deallocate { ptr: b.length_ptr, size: 4 }, a)
            } else {
                moves(r, CStylePhase::ReadingLength, CStyleAction::ReadLength { ptr: b.length_ptr }, a)
            },
            _ => false,
        },
        CStylePhase::ReleasingLengthAfterNullResult => event is Unit
            && ends_with(r, "WASM process function returned null pointer"@, a),
        CStylePhase::ReadingLength => match event {
            CStyleEvent::Bytes(Err(e)) => ends_with(r, "Failed to read output length: "@ + e@, a),
            CStyleEvent::Bytes(Ok(bytes)) => moves(r, CStylePhase::ReleasingLength,
                CStyleAction::Deallocate { ptr: b.length_ptr, size: 4 }, a)
                && r.input_len == b.input_len && r.input_ptr == b.input_ptr && r.length_ptr == b.length_ptr
                && r.result_ptr == b.result_ptr && r.output_len == le_i32(bytes@),
            _ => false,
        },
        CStylePhase::ReleasingLength => match event {
            CStyleEvent::Unit(Err(e)) => ends_with(r, "Failed to deallocate output length memory: "@ + e@, a),
            CStyleEvent::Unit(Ok(())) => same_buffers(b, r) && if b.output_len == 0 {
                moves(r, CStylePhase::ReleasingEmptyResult, CStyleAction::Deallocate { ptr: b.result_ptr, size: 1 }, a)
            } else {
                moves(r, CStylePhase::ReadingOutput, CStyleAction::ReadOutput { ptr: b.result_ptr, len: b.output_len }, a)
            },
            _ => false,
        },
        CStylePhase::ReleasingEmptyResult => event is Unit && r.phase == CStylePhase::Done && a == CStyleAction::Finish
            && same_buffers(b, r) && (r.outcome matches Some(Ok(out)) && out@.len() == 0),
        CStylePhase::ReadingOutput => match event {
            CStyleEvent::Bytes(Err(e)) => ends_with(r, "Failed to read output data: "@ + e@, a),
            CStyleEvent::Bytes(Ok(bytes)) => moves(r, CStylePhase::ReleasingResult,
                CStyleAction::Deallocate { ptr: b.result_ptr, size: b.output_len }, a)
                && same_buffers(b, r) && r.output@ == bytes@,
            _ => false,
        },
        CStylePhase::ReleasingResult => match event {
            CStyleEvent::Unit(Err(e)) => ends_with(r, "Failed to deallocate result memory: "@ + e@, a),
            CStyleEvent::Unit(Ok(())) => r.phase == CStylePhase::Done && a == CStyleAction::Finish
                && same_buffers(b, r) && (r.outcome matches Some(Ok(out)) && out@ == b.output@),
            _ => false,
        },
        CStylePhase::Done => r == b && a == CStyleAction::Finish,
        CStylePhase::Decoding => false,
    }
}

/// How far along the protocol a phase is: every step that does not finish
/// moves to a later phase.
pub open spec fn phase_rank(p: CStylePhase) -> nat {
    match p {
        CStylePhase::AllocatingInput => 0,
        CStylePhase::WritingInput => 1,
        CStylePhase::AllocatingLength => 2,
        CStylePhase::ReleasingInputAfterLengthFailure => 3,
        CStylePhase::Processing => 4,
        CStylePhase::ReleasingInputAfterProcessFailure => 5,
        CStylePhase::ReleasingLengthAfterProcessFailure => 6,
        CStylePhase::ReleasingInput => 7,
        CStylePhase::ReleasingLengthAfterNullResult => 8,
        CStylePhase::ReadingLength => 9,
        CStylePhase::ReleasingLength => 10,
        CStylePhase::ReleasingEmptyResult => 11,
        CStylePhase::ReadingOutput => 12,
        CStylePhase::ReleasingResult => 13,
        CStylePhase::Decoding => 14,
        CStylePhase::Done => 15,
    }
}

/// The call that a run in `phase` asks for is `a`.
pub open spec fn waits_for(phase: CStylePhase, a: CStyleAction) -> bool {
    match phase {
        CStylePhase::AllocatingInput | CStylePhase::AllocatingLength => a is Allocate,
        CStylePhase::WritingInput => a is WriteInput,
        CStylePhase::Processing => a is CallProcess,
        CStylePhase::ReadingLength => a is ReadLength,
        CStylePhase::ReadingOutput => a is ReadOutput,
        CStylePhase::Decoding => a is DecodeOutput,
        CStylePhase::Done => a is Finish,
        _ => a is Deallocate,
    }
}

/// The run `last` follows from `first` by steps of the protocol, on some
/// outcomes of the calls into the module, that asked in turn for the calls
/// `calls` (the call that `first` asks for is not among them).
pub open spec fn runs(first: CStyleRun, last: CStyleRun, calls: Seq<CStyleAction>) -> bool
    decreases calls.len(),
{
    if calls.len() == 0 {
        last == first
    } else {
        exists|mid: CStyleRun, e: CStyleEvent|
            #[trigger] steps(mid, e, last, calls.last()) && runs(first, mid, calls.drop_last())
    }
}

/// How `CStyleRun::start` sets up a run on `input_len` bytes for a module with
/// these exports, asking for `a` first.
pub open spec fn begins(r: CStyleRun, a: CStyleAction, input_len: nat, exports: CStyleExports) -> bool {
    &&& r.wf()
    &&& r.input_len == input_len
    &&& !exports.memory ==> r.phase == CStylePhase::Done && a == CStyleAction::Finish
        && (r.outcome matches Some(Err(ProcessingNodeError::ValidationError(m)))
            && m@ == "WASM module must export 'memory'"@)
    &&& exports.memory && !exports.process ==> r.phase == CStylePhase::Done && a == CStyleAction::Finish
        && (r.outcome matches Some(Err(ProcessingNodeError::ValidationError(m)))
            && m@ == "WASM module must export 'process' function with signature (i32, i32, i32) -> i32"@)
    &&& exports.memory && exports.process && !exports.allocate ==> r.phase == CStylePhase::Done
        && a == CStyleAction::Finish
        && (r.outcome matches Some(Err(ProcessingNodeError::ValidationError(m)))
            && m@ == "WASM module must export 'allocate' function with signature (i32) -> i32"@)
    &&& exports.memory && exports.process && exports.allocate && !exports.deallocate ==> r.phase == CStylePhase::Done
        && a == CStyleAction::Finish
        && (r.outcome matches Some(Err(ProcessingNodeError::ValidationError(m)))
            && m@ == "WASM module must export 'deallocate' function with signature (i32, i32) -> ()"@)
    &&& exports.memory && exports.process && exports.allocate && exports.deallocate ==> {
        &&& r.phase == CStylePhase::AllocatingInput
        &&& r.outcome is None
        &&& a == CStyleAction::Allocate { size: input_len as i32 }
    }
}

/// An outcome of the protocol on an input of `input_len` bytes: for some
/// exports and some outcomes of the calls into the module, the run that starts
/// on them finishes with it.
pub open spec fn protocol_outcome(input_len: nat, outcome: Result<Vec<u8>, ProcessingNodeError>) -> bool {
    exists|exports: CStyleExports, first: CStyleRun, a: CStyleAction, last: CStyleRun, calls: Seq<CStyleAction>|
        #![trigger begins(first, a, input_len, exports), runs(first, last, calls)]
        begins(first, a, input_len, exports) && runs(first, last, calls)
            && last.phase == CStylePhase::Done && last.outcome == Some(outcome)
}

/// A phase after the run asked to release its input buffer.
pub open spec fn input_released(p: CStylePhase) -> bool {
    ||| p == CStylePhase::ReleasingInput
    ||| p == CStylePhase::ReleasingLengthAfterNullResult
    ||| p == CStylePhase::ReadingLength
    ||| length_released(p)
}

/// A phase after the run asked to release the buffer of the output length.
pub open spec fn length_released(p: CStylePhase) -> bool {
    ||| p == CStylePhase::ReleasingLength
    ||| p == CStylePhase::ReleasingEmptyResult
    ||| p == CStylePhase::ReadingOutput
    ||| p == CStylePhase::ReleasingResult
}

/// The release of the output buffer: of its length, or of one byte when the
/// output is empty.
pub open spec fn result_release(r: CStyleRun) -> CStyleAction {
    CStyleAction::Deallocate { ptr: r.result_ptr, size: if r.output_len == 0 { 1 } else { r.output_len } }
}

/// The calls asked for so far release every buffer that the run's phase has
/// finished with; a successful run has finished with all of them.
pub open spec fn releases_asked(r: CStyleRun, calls: Seq<CStyleAction>) -> bool {
    let ok = r.phase == CStylePhase::Done && r.outcome matches Some(Ok(_));
    &&& (input_released(r.phase) || ok) ==> calls.contains(CStyleAction::Deallocate { ptr: r.input_ptr, size: r.input_len })
    &&& (length_released(r.phase) || ok) ==> calls.contains(CStyleAction::Deallocate { ptr: r.length_ptr, size: 4 })
    &&& (r.phase == CStylePhase::ReleasingEmptyResult || r.phase == CStylePhase::ReleasingResult || ok)
        ==> calls.contains(result_release(r))
    &&& (r.phase == CStylePhase::ReadingOutput || r.phase == CStylePhase::ReleasingResult) ==> r.output_len != 0
    &&& r.phase == CStylePhase::ReleasingEmptyResult ==> r.output_len == 0
}

proof fn lemma_releases_asked(
    first: CStyleRun,
    a0: CStyleAction,
    input_len: nat,
    exports: CStyleExports,
    last: CStyleRun,
    calls: Seq<CStyleAction>,
)
    requires
        begins(first, a0, input_len, exports),
        runs(first, last, calls),
    ensures
        releases_asked(last, seq![a0] + calls),
    decreases calls.len(),
{
    if calls.len() > 0 {
        let (mid, e) = choose|mid: CStyleRun, e: CStyleEvent|
            #[trigger] steps(mid, e, last, calls.last()) && runs(first, mid, calls.drop_last());
        lemma_releases_asked(first, a0, input_len, exports, mid, calls.drop_last());
        let before = seq![a0] + calls.drop_last();
        let after = seq![a0] + calls;
        assert(after =~= before.push(calls.last()));
        assert forall|x: CStyleAction| before.contains(x) implies after.contains(x) by {
            let k = choose|k: int| 0 <= k < before.len() && before[k] == x;
            assert(after[k] == x);
        }
        assert(after[after.len() - 1] == calls.last());
    }
}

/// A run of the protocol that succeeds has asked to release every buffer it
/// used: the input buffer, the four bytes that held the output's length, and
/// the output (one byte of it when the output is empty).
pub proof fn law_successful_run_releases_its_buffers(
    first: CStyleRun,
    a0: CStyleAction,
    input_len: nat,
    exports: CStyleExports,
    last: CStyleRun,
    calls: Seq<CStyleAction>,
)
    requires
        begins(first, a0, input_len, exports),
        runs(first, last, calls),
        last.outcome matches Some(Ok(_)),
    ensures
        (seq![a0] + calls).contains(CStyleAction::Deallocate { ptr: last.input_ptr, size: last.input_len }),
        (seq![a0] + calls).contains(CStyleAction::Deallocate { ptr: last.length_ptr, size: 4 }),
        (seq![a0] + calls).contains(result_release(last)),
{
    lemma_releases_asked(first, a0, input_len, exports, last, calls);
    lemma_outcome_means_done(first, a0, input_len, exports, last, calls);
}

proof fn lemma_outcome_means_done(
    first: CStyleRun,
    a0: CStyleAction,
    input_len: nat,
    exports: CStyleExports,
    last: CStyleRun,
    calls: Seq<CStyleAction>,
)
    requires
        begins(first, a0, input_len, exports),
        runs(first, last, calls),
    ensures
        last.outcome is Some ==> last.phase == CStylePhase::Done,
    decreases calls.len(),
{
    if calls.len() > 0 {
        let (mid, e) = choose|mid: CStyleRun, e: CStyleEvent|
            #[trigger] steps(mid, e, last, calls.last()) && runs(first, mid, calls.drop_last());
        lemma_outcome_means_done(first, a0, input_len, exports, mid, calls.drop_last());
    }
}

/// A step from a run that has not finished asks for the call its new phase
/// waits on, and a step that does not finish moves to a later phase.
pub proof fn lemma_step_advances(b: CStyleRun, e: CStyleEvent, r: CStyleRun, a: CStyleAction)
    requires
        steps(b, e, r, a),
        b.phase != CStylePhase::Done,
    ensures
        waits_for(r.phase, a),
        a != CStyleAction::Finish ==> phase_rank(r.phase) > phase_rank(b.phase),
{
}

/// A step of the older protocol from a run that has not finished asks for the
/// call its new phase waits on, and one that does not finish moves on.
pub proof fn lemma_legacy_step_advances(b: LegacyCStyleRun, e: CStyleEvent, r: LegacyCStyleRun, a: CStyleAction)
    requires
        legacy_steps(b, e, r, a),
        b.phase != CStylePhase::Done,
    ensures
        waits_for(r.phase, a),
        a != CStyleAction::Finish ==> phase_rank(r.phase) > phase_rank(b.phase),
        r.phase == CStylePhase::Decoding ==> r.output@.len() > 0 && r.output@.last() == 0u8,
{
}

fn runtime(prefix: &str, detail: &String) -> (e: ProcessingNodeError)
    ensures
        runtime_error(e, prefix@ + detail@),
{
    let mut m = prefix.to_owned();
    m.append(detail.as_str());
    ProcessingNodeError::RuntimeError(m)
}

fn decode_length(b: &Vec<u8>) -> (n: i32)
    requires
        b@.len() == 4,
    ensures
        n as int == le_i32(b@),
{
    let v: u32 = b[0] as u32 + 256 * (b[1] as u32) + 65536 * (b[2] as u32) + 16777216 * (b[3] as u32);
    if v >= 2147483648 {
        let w: i64 = v as i64 - 4294967296;
        w as i32
    } else {
        v as i32
    }
}

impl CStyleRun {
    pub open spec fn finished(&self) -> bool {
        self.phase == CStylePhase::Done && self.outcome is Some
    }

    fn done(failure: ProcessingNodeError, input_len: i32) -> (r: (CStyleRun, CStyleAction))
        ensures
            r.0.phase == CStylePhase::Done,
            r.0.outcome == Some(Err::<Vec<u8>, ProcessingNodeError>(failure)),
            r.0.input_len == input_len,
            r.0.wf(),
            r.1 == CStyleAction::Finish,
    {
        (CStyleRun {
            phase: CStylePhase::Done,
            input_len,
            input_ptr: 0,
            length_ptr: 0,
            result_ptr: 0,
            output_len: 0,
            output: Vec::new(),
            failure: None,
            outcome: Some(Err(failure)),
        }, CStyleAction::Finish)
    }

    /// The run is consistent: a run that is cleaning up holds the error to
    /// report, and a finished run its outcome; it never decodes text.
    pub open spec fn wf(&self) -> bool {
        &&& cleaning_up(self.phase) ==> self.failure is Some
        &&& self.phase != CStylePhase::Decoding
        &&& (self.phase == CStylePhase::Done <==> self.outcome is Some)
    }

    /// Takes the outcome of the call the run waited on and answers with the
    /// next call (see `steps`).
    pub fn step(&mut self, event: CStyleEvent) -> (a: CStyleAction)
        requires
            old(self).wf(),
            event_fits(old(self).phase, event),
        ensures
            final(self).wf(),
            steps(*old(self), event, *final(self), a),
    {
        match self.phase {
            CStylePhase::AllocatingInput => match event {
                CStyleEvent::Pointer(Err(e)) => self.fail(runtime("Failed to call allocate function: ", &e)),
                CStyleEvent::Pointer(Ok(p)) => {
                    if p == 0 {
                        self.fail(ProcessingNodeError::RuntimeError(String::from_str("Failed to allocate input memory")))
                    } else {
                        self.input_ptr = p;
                        self.phase = CStylePhase::WritingInput;
                        CStyleAction::WriteInput { ptr: p }
                    }
                },
                _ => CStyleAction::Finish,
            },
            CStylePhase::WritingInput => match event {
                CStyleEvent::Unit(Err(e)) => self.fail(runtime("Failed to write input to WASM memory: ", &e)),
                CStyleEvent::Unit(Ok(())) => {
                    self.phase = CStylePhase::AllocatingLength;
                    CStyleAction::Allocate { size: 4 }
                },
                _ => CStyleAction::Finish,
            },
            CStylePhase::AllocatingLength => match event {
                CStyleEvent::Pointer(Err(e)) => self.fail(runtime("Failed to allocate output length memory: ", &e)),
                CStyleEvent::Pointer(Ok(p)) => {
                    if p == 0 {
                        self.failure = Some(ProcessingNodeError::RuntimeError(String::from_str(
                            "Failed to allocate output length memory",
                        )));
                        self.phase = CStylePhase::ReleasingInputAfterLengthFailure;
                        CStyleAction::Deallocate { ptr: self.input_ptr, size: self.input_len }
                    } else {
                        self.length_ptr = p;
                        self.phase = CStylePhase::Processing;
                        CStyleAction::CallProcess { input_ptr: self.input_ptr, input_len: self.input_len, output_len_ptr: p }
                    }
                },
                _ => CStyleAction::Finish,
            },
            CStylePhase::ReleasingInputAfterLengthFailure => self.finish_failure(),
            CStylePhase::Processing => match event {
                CStyleEvent::Pointer(Err(e)) => {
                    self.failure = Some(runtime("Failed to call process function: ", &e));
                    self.phase = CStylePhase::ReleasingInputAfterProcessFailure;
                    CStyleAction::Deallocate { ptr: self.input_ptr, size: self.input_len }
                },
                CStyleEvent::Pointer(Ok(p)) => {
                    self.result_ptr = p;
                    self.phase = CStylePhase::ReleasingInput;
                    CStyleAction::Deallocate { ptr: self.input_ptr, size: self.input_len }
                },
                _ => CStyleAction::Finish,
            },
            CStylePhase::ReleasingInputAfterProcessFailure => {
                self.phase = CStylePhase::ReleasingLengthAfterProcessFailure;
                CStyleAction::Deallocate { ptr: self.length_ptr, size: 4 }
            },
            CStylePhase::ReleasingLengthAfterProcessFailure => self.finish_failure(),
            CStylePhase::ReleasingInput => match event {
                CStyleEvent::Unit(Err(e)) => self.fail(runtime("Failed to deallocate input memory: ", &e)),
                CStyleEvent::Unit(Ok(())) => {
                    if self.result_ptr == 0 {
                        self.phase = CStylePhase::ReleasingLengthAfterNullResult;
                        CStyleAction::Deallocate { ptr: self.length_ptr, size: 4 }
                    } else {
                        self.phase = CStylePhase::ReadingLength;
                        CStyleAction::ReadLength { ptr: self.length_ptr }
                    }
                },
                _ => CStyleAction::Finish,
            },
            CStylePhase::ReleasingLengthAfterNullResult => {
                self.fail(ProcessingNodeError::RuntimeError(String::from_str("WASM process function returned null pointer")))
            },
            CStylePhase::ReadingLength => match event {
                CStyleEvent::Bytes(Err(e)) => self.fail(runtime("Failed to read output length: ", &e)),
                CStyleEvent::Bytes(Ok(bytes)) => {
                    self.output_len = decode_length(&bytes);
                    self.phase = CStylePhase::ReleasingLength;
                    CStyleAction::Deallocate { ptr: self.length_ptr, size: 4 }
                },
                _ => CStyleAction::Finish,
            },
            CStylePhase::ReleasingLength => match event {
                CStyleEvent::Unit(Err(e)) => self.fail(runtime("Failed to deallocate output length memory: ", &e)),
                CStyleEvent::Unit(Ok(())) => {
                    if self.output_len == 0 {
                        self.phase = CStylePhase::ReleasingEmptyResult;
                        CStyleAction::Deallocate { ptr: self.result_ptr, size: 1 }
                    } else {
                        self.phase = CStylePhase::ReadingOutput;
                        CStyleAction::ReadOutput { ptr: self.result_ptr, len: self.output_len }
                    }
                },
                _ => CStyleAction::Finish,
            },
            CStylePhase::ReleasingEmptyResult => {
                self.phase = CStylePhase::Done;
                self.outcome = Some(Ok(Vec::new()));
                CStyleAction::Finish
            },
            CStylePhase::ReadingOutput => match event {
                CStyleEvent::Bytes(Err(e)) => self.fail(runtime("Failed to read output data: ", &e)),
                CStyleEvent::Bytes(Ok(bytes)) => {
                    self.output = bytes;
                    self.phase = CStylePhase::ReleasingResult;
                    CStyleAction::Deallocate { ptr: self.result_ptr, size: self.output_len }
                },
                _ => CStyleAction::Finish,
            },
            CStylePhase::ReleasingResult => match event {
                CStyleEvent::Unit(Err(e)) => self.fail(runtime("Failed to deallocate result memory: ", &e)),
                CStyleEvent::Unit(Ok(())) => {
                    let mut out: Vec<u8> = Vec::new();
                    std::mem::swap(&mut out, &mut self.output);
                    self.phase = CStylePhase::Done;
                    self.outcome = Some(Ok(out));
                    CStyleAction::Finish
                },
                _ => CStyleAction::Finish,
            },
            CStylePhase::Done => CStyleAction::Finish,
            CStylePhase::Decoding => CStyleAction::Finish,
        }
    }

    fn fail(&mut self, e: ProcessingNodeError) -> (a: CStyleAction)
        ensures
            final(self).phase == CStylePhase::Done,
            final(self).outcome == Some(Err::<Vec<u8>, ProcessingNodeError>(e)),
            a == CStyleAction::Finish,
    {
        self.phase = CStylePhase::Done;
        self.outcome = Some(Err(e));
        CStyleAction::Finish
    }

    fn finish_failure(&mut self) -> (a: CStyleAction)
        requires
            old(self).failure is Some,
        ensures
            final(self).phase == CStylePhase::Done,
            final(self).outcome == Some(Err::<Vec<u8>, ProcessingNodeError>(old(self).failure->0)),
            a == CStyleAction::Finish,
    {
        let f = self.failure.take();
        match f {
            Some(e) => self.fail(e),
            None => CStyleAction::Finish,
        }
    }

    /// Starts a run on an input of `input_len` bytes: the module must export its
    /// memory, `process`, `allocate` and `deallocate` (checked in that order); the
    /// first call allocates the input buffer.
    pub fn start(input_len: usize, exports: CStyleExports) -> (r: (CStyleRun, CStyleAction))
        requires
            input_len <= i32::MAX,
        ensures
            begins(r.0, r.1, input_len as nat, exports),
    {
        let n = input_len as i32;
        if !exports.memory {
            return Self::done(ProcessingNodeError::ValidationError(String::from_str("WASM module must export 'memory'")), n);
        }
        if !exports.process {
            return Self::done(ProcessingNodeError::ValidationError(String::from_str(
                "WASM module must export 'process' function with signature (i32, i32, i32) -> i32",
            )), n);
        }
        if !exports.allocate {
            return Self::done(ProcessingNodeError::ValidationError(String::from_str(
                "WASM module must export 'allocate' function with signature (i32) -> i32",
            )), n);
        }
        if !exports.deallocate {
            return Self::done(ProcessingNodeError::ValidationError(String::from_str(
                "WASM module must export 'deallocate' function with signature (i32, i32) -> ()",
            )), n);
        }
        (CStyleRun {
            phase: CStylePhase::AllocatingInput,
            input_len: n,
            input_ptr: 0,
            length_ptr: 0,
            result_ptr: 0,
            output_len: 0,
            output: Vec::new(),
            failure: None,
            outcome: None,
        }, CStyleAction::Allocate { size: n })
    }
}

/// The largest input the older executor accepts, in bytes (1 MiB).
pub const MAX_INPUT_SIZE: usize = 1048576;

/// Checks the size of an input before it is run.
pub fn check_input_size(len: usize) -> (r: Result<(), WasmError>)
    ensures
        r is Ok <==> len <= MAX_INPUT_SIZE,
        r matches Err(e) ==> (e matches WasmError::ValidationError(m) && m@ == "Input too large: "@
            + decimal(len as nat) + " bytes (max: "@ + decimal(MAX_INPUT_SIZE as nat) + " bytes)"@),
{
    if len > MAX_INPUT_SIZE {
        let mut m = String::from_str("Input too large: ");
        m.append(decimal_string(len).as_str());
        m.append(" bytes (max: ");
        m.append(decimal_string(MAX_INPUT_SIZE).as_str());
        m.append(" bytes)");
        Err(WasmError::ValidationError(m))
    } else {
        Ok(())
    }
}

/// The input as a C string: its bytes and a closing NUL; an input that holds a
/// NUL is refused.
pub fn c_string_input(input: &[u8]) -> (r: Result<Vec<u8>, WasmError>)
    ensures
        input@.contains(0u8) ==> (r matches Err(WasmError::ValidationError(m)) && m@ == "Input contains null bytes"@),
        !input@.contains(0u8) ==> (r matches Ok(b) && b@ == input@.push(0u8)),
{
    let mut bytes: Vec<u8> = Vec::new();
    let mut i: usize = 0;
    while i < input.len()
        invariant
            i <= input@.len(),
            bytes@ == input@.take(i as int),
            !input@.take(i as int).contains(0u8),
        decreases input@.len() - i,
    {
        if input[i] == 0 {
            proof {
                assert(input@[i as int] == 0u8);
            }
            return Err(WasmError::ValidationError(String::from_str("Input contains null bytes")));
        }
        bytes.push(input[i]);
        proof {
            assert(input@.take(i + 1) =~= input@.take(i as int).push(input@[i as int]));
            if input@.take(i + 1).contains(0u8) {
                let k = choose|k: int| 0 <= k < i + 1 && #[trigger] input@.take(i + 1)[k] == 0u8;
                if k < i {
                    assert(input@.take(i as int)[k] == 0u8);
                }
            }
        }
        i = i + 1;
    }
    proof {
        assert(input@.take(input@.len() as int) =~= input@);
    }
    bytes.push(0);
    Ok(bytes)
}

/// The bytes read as a C string: a NUL is added unless they end with one.
pub open spec fn nul_terminated(b: Seq<u8>) -> Seq<u8> {
    if b.len() > 0 && b.last() == 0u8 { b } else { b.push(0u8) }
}

/// An older executor's run, which passes its input as a C string and reads its
/// output as one; every failure of a call into the module ends the run.
#[derive(Debug)]
pub struct LegacyCStyleRun {
    pub phase: CStylePhase,
    pub input_len: i32,
    pub input_ptr: i32,
    pub length_ptr: i32,
    pub result_ptr: i32,
    pub output_len: i32,
    pub output: Vec<u8>,
    pub outcome: Option<Result<String, WasmError>>,
}

/// The older run finished with an error of the given kind and text.
pub open spec fn legacy_fails(r: LegacyCStyleRun, a: CStyleAction, kind: spec_fn(WasmError) -> bool) -> bool {
    &&& r.phase == CStylePhase::Done
    &&& a == CStyleAction::Finish
    &&& r.outcome matches Some(Err(e)) && kind(e)
}

/// The older run moved on to `phase` and asks for `action`.
pub open spec fn legacy_moves(r: LegacyCStyleRun, phase: CStylePhase, action: CStyleAction, a: CStyleAction) -> bool {
    &&& r.phase == phase
    &&& r.outcome is None
    &&& a == action
}

pub open spec fn legacy_buffers(b: LegacyCStyleRun, r: LegacyCStyleRun) -> bool {
    &&& b.input_len == r.input_len
    &&& b.input_ptr == r.input_ptr
    &&& b.length_ptr == r.length_ptr
    &&& b.result_ptr == r.result_ptr
    &&& b.output_len == r.output_len
}

pub open spec fn execution_error(e: WasmError, m: Seq<char>) -> bool {
    e matches WasmError::ExecutionError(t) && t@ == m
}

pub open spec fn memory_error(e: WasmError, m: Seq<char>) -> bool {
    e matches WasmError::MemoryError(t) && t@ == m
}

/// The event is of the kind the older run waits for.
pub open spec fn legacy_event_fits(phase: CStylePhase, event: CStyleEvent) -> bool {
    match phase {
        CStylePhase::AllocatingInput | CStylePhase::AllocatingLength | CStylePhase::Processing => event is Pointer,
        CStylePhase::ReadingLength => event matches CStyleEvent::Bytes(r) && (r matches Ok(b) ==> b@.len() == 4),
        CStylePhase::ReadingOutput => event is Bytes,
        CStylePhase::Decoding => event is Text,
        CStylePhase::Done => true,
        _ => event is Unit,
    }
}

/// One step of the older protocol (see `steps` for the newer one): a failed
/// call is an execution error with its text, a failed memory access a memory
/// error; the output is read as a C string.
pub open spec fn legacy_steps(b: LegacyCStyleRun, event: CStyleEvent, r: LegacyCStyleRun, a: CStyleAction) -> bool {
    match b.phase {
        CStylePhase::AllocatingInput => match event {
            CStyleEvent::Pointer(Err(e)) => legacy_fails(r, a, |x: WasmError| execution_error(x, e@)),
            CStyleEvent::Pointer(Ok(p)) => if p == 0 {
                legacy_fails(r, a, |x: WasmError| memory_error(x, "Failed to allocate input memory"@))
            } else {
                legacy_moves(r, CStylePhase::WritingInput, CStyleAction::WriteInput { ptr: p }, a)
                    && r.input_len == b.input_len && r.input_ptr == p
            },
            _ => false,
        },
        CStylePhase::WritingInput => match event {
            CStyleEvent::Unit(Err(e)) => legacy_fails(r, a, |x: WasmError| memory_error(x, "Failed to write input to WASM memory: "@ + e@)),
            CStyleEvent::Unit(Ok(())) => legacy_moves(r, CStylePhase::AllocatingLength, CStyleAction::Allocate { size: 4 }, a)
                && legacy_buffers(b, r),
            _ => false,
        },
        CStylePhase::AllocatingLength => match event {
            CStyleEvent::Pointer(Err(e)) => legacy_fails(r, a, |x: WasmError| execution_error(x, e@)),
            CStyleEvent::Pointer(Ok(p)) => if p == 0 {
                legacy_moves(r, CStylePhase::ReleasingInputAfterLengthFailure,
                    CStyleAction::Deallocate { ptr: b.input_ptr, size: b.input_len }, a) && legacy_buffers(b, r)
            } else {
                legacy_moves(r, CStylePhase::Processing,
                    CStyleAction::CallProcess { input_ptr: b.input_ptr, input_len: b.input_len, output_len_ptr: p }, a)
                    && r.input_len == b.input_len && r.input_ptr == b.input_ptr && r.length_ptr == p
            },
            _ => false,
        },
        CStylePhase::ReleasingInputAfterLengthFailure => match event {
            CStyleEvent::Unit(Err(e)) => legacy_fails(r, a, |x: WasmError| execution_error(x, e@)),
            CStyleEvent::Unit(Ok(())) => legacy_fails(r, a, |x: WasmError| memory_error(x, "Failed to allocate output length memory"@)),
            _ => false,
        },
        CStylePhase::Processing => match event {
            CStyleEvent::Pointer(Err(e)) => legacy_fails(r, a, |x: WasmError| execution_error(x, e@)),
            CStyleEvent::Pointer(Ok(p)) => legacy_moves(r, CStylePhase::ReleasingInput,
                CStyleAction::Deallocate { ptr: b.input_ptr, size: b.input_len }, a)
                && r.input_len == b.input_len && r.input_ptr == b.input_ptr && r.length_ptr == b.length_ptr
                && r.result_ptr == p,
            _ => false,
        },
        CStylePhase::ReleasingInput => match event {
            CStyleEvent::Unit(Err(e)) => legacy_fails(r, a, |x: WasmError| execution_error(x, e@)),
            CStyleEvent::Unit(Ok(())) => legacy_buffers(b, r) && if b.result_ptr == 0 {
                legacy_moves(r, CStylePhase::ReleasingLengthAfterNullResult, CStyleAction::Deallocate { ptr: b.length_ptr, size: 4 }, a)
            } else {
                legacy_moves(r, CStylePhase::ReadingLength, CStyleAction::ReadLength { ptr: b.length_ptr }, a)
            },
            _ => false,
        },
        CStylePhase::ReleasingLengthAfterNullResult => match event {
            CStyleEvent::Unit(Err(e)) => legacy_fails(r, a, |x: WasmError| execution_error(x, e@)),
            CStyleEvent::Unit(Ok(())) => legacy_fails(r, a, |x: WasmError| execution_error(x, "WASM process function returned null pointer"@)),
            _ => false,
        },
        CStylePhase::ReadingLength => match event {
            CStyleEvent::Bytes(Err(e)) => legacy_fails(r, a, |x: WasmError| memory_error(x, "Failed to read output length: "@ + e@)),
            CStyleEvent::Bytes(Ok(bytes)) => legacy_moves(r, CStylePhase::ReleasingLength,
                CStyleAction::Deallocate { ptr: b.length_ptr, size: 4 }, a)
                && r.input_len == b.input_len && r.input_ptr == b.input_ptr && r.length_ptr == b.length_ptr
                && r.result_ptr == b.result_ptr && r.output_len == le_i32(bytes@),
            _ => false,
        },
        CStylePhase::ReleasingLength => match event {
            CStyleEvent::Unit(Err(e)) => legacy_fails(r, a, |x: WasmError| execution_error(x, e@)),
            CStyleEvent::Unit(Ok(())) => legacy_buffers(b, r) && if b.output_len == 0 {
                legacy_moves(r, CStylePhase::ReleasingEmptyResult, CStyleAction::Deallocate { ptr: b.result_ptr, size: 1 }, a)
            } else {
                legacy_moves(r, CStylePhase::ReadingOutput, CStyleAction::ReadOutput { ptr: b.result_ptr, len: b.output_len }, a)
            },
            _ => false,
        },
        CStylePhase::ReleasingEmptyResult => match event {
            CStyleEvent::Unit(Err(e)) => legacy_fails(r, a, |x: WasmError| execution_error(x, e@)),
            CStyleEvent::Unit(Ok(())) => r.phase == CStylePhase::Done && a == CStyleAction::Finish
                && legacy_buffers(b, r) && (r.outcome matches Some(Ok(t)) && t@.len() == 0),
            _ => false,
        },
        CStylePhase::ReadingOutput => match event {
            CStyleEvent::Bytes(Err(e)) => legacy_fails(r, a, |x: WasmError| memory_error(x, "Failed to read output data: "@ + e@)),
            CStyleEvent::Bytes(Ok(bytes)) => legacy_moves(r, CStylePhase::ReleasingResult,
                CStyleAction::Deallocate { ptr: b.result_ptr, size: b.output_len }, a)
                && legacy_buffers(b, r) && r.output@ == bytes@,
            _ => false,
        },
        CStylePhase::ReleasingResult => match event {
            CStyleEvent::Unit(Err(e)) => legacy_fails(r, a, |x: WasmError| execution_error(x, e@)),
            CStyleEvent::Unit(Ok(())) => legacy_moves(r, CStylePhase::Decoding, CStyleAction::DecodeOutput, a)
                && legacy_buffers(b, r) && r.output@ == nul_terminated(b.output@),
            _ => false,
        },
        CStylePhase::Decoding => match event {
            CStyleEvent::Text(CStringRead::Text(t)) => r.phase == CStylePhase::Done && a == CStyleAction::Finish
                && legacy_buffers(b, r) && (r.outcome matches Some(Ok(u)) && u@ == t@),
            CStyleEvent::Text(CStringRead::InteriorNul(m)) => legacy_fails(r, a,
                |x: WasmError| x matches WasmError::StringError(t) && t@ == "Invalid C string in output: "@ + m@),
            CStyleEvent::Text(CStringRead::InvalidUtf8(m)) => legacy_fails(r, a,
                |x: WasmError| x matches WasmError::StringError(t) && t@ == "Invalid UTF-8 in output: "@ + m@),
            _ => false,
        },
        CStylePhase::Done => r == b && a == CStyleAction::Finish,
        _ => false,
    }
}

/// How `LegacyCStyleRun::start` sets up a run on the input for a module with
/// these exports, asking for `a` first.
pub open spec fn legacy_begins(r: LegacyCStyleRun, a: CStyleAction, input: Seq<u8>, exports: CStyleExports) -> bool {
    &&& r.wf()
    &&& !exports.memory ==> (r.outcome matches Some(Err(WasmError::ValidationError(m)))
        && m@ == "WASM module must export 'memory'"@)
    &&& exports.memory && !exports.process ==> (r.outcome matches Some(Err(WasmError::ValidationError(m)))
        && m@ == "WASM module must export 'process' function with signature (i32, i32, i32) -> i32"@)
    &&& exports.memory && exports.process && !exports.allocate ==> (r.outcome matches Some(Err(WasmError::ValidationError(m)))
        && m@ == "WASM module must export 'allocate' function with signature (i32) -> i32"@)
    &&& exports.memory && exports.process && exports.allocate && !exports.deallocate
        ==> (r.outcome matches Some(Err(WasmError::ValidationError(m)))
        && m@ == "WASM module must export 'deallocate' function with signature (i32, i32) -> ()"@)
    &&& exports.memory && exports.process && exports.allocate && exports.deallocate && input.contains(0u8)
        ==> (r.outcome matches Some(Err(WasmError::ValidationError(m))) && m@ == "Input contains null bytes"@)
    &&& r.outcome is Some ==> r.phase == CStylePhase::Done && a == CStyleAction::Finish
    &&& exports.memory && exports.process && exports.allocate && exports.deallocate && !input.contains(0u8) ==> {
        &&& r.phase == CStylePhase::AllocatingInput
        &&& r.input_len == input.len() + 1
        &&& a == CStyleAction::Allocate { size: (input.len() + 1) as i32 }
    }
}

/// The older run `last` follows from `first` by steps, on some outcomes of the
/// calls into the module, that asked in turn for the calls `calls`.
pub open spec fn legacy_runs(first: LegacyCStyleRun, last: LegacyCStyleRun, calls: Seq<CStyleAction>) -> bool
    decreases calls.len(),
{
    if calls.len() == 0 {
        last == first
    } else {
        exists|mid: LegacyCStyleRun, e: CStyleEvent|
            #[trigger] legacy_steps(mid, e, last, calls.last()) && legacy_runs(first, mid, calls.drop_last())
    }
}

/// An outcome of the older protocol on the input: for some exports and some
/// outcomes of the calls into the module, the run that starts on them
/// finishes with it.
pub open spec fn legacy_protocol_outcome(input: Seq<u8>, outcome: Result<String, WasmError>) -> bool {
    exists|exports: CStyleExports, first: LegacyCStyleRun, a: CStyleAction, last: LegacyCStyleRun, calls: Seq<CStyleAction>|
        #![trigger legacy_begins(first, a, input, exports), legacy_runs(first, last, calls)]
        legacy_begins(first, a, input, exports) && legacy_runs(first, last, calls)
            && last.phase == CStylePhase::Done && last.outcome == Some(outcome)
}

/// The release of the older run's output buffer (one byte when it is empty).
pub open spec fn legacy_result_release(r: LegacyCStyleRun) -> CStyleAction {
    CStyleAction::Deallocate { ptr: r.result_ptr, size: if r.output_len == 0 { 1 } else { r.output_len } }
}

/// As `releases_asked`, for the older protocol, which decodes its output after
/// releasing it.
pub open spec fn legacy_releases_asked(r: LegacyCStyleRun, calls: Seq<CStyleAction>) -> bool {
    let ok = r.phase == CStylePhase::Done && r.outcome matches Some(Ok(_));
    let output_read = r.phase == CStylePhase::ReadingOutput || r.phase == CStylePhase::ReleasingResult
        || r.phase == CStylePhase::Decoding;
    let length_done = length_released(r.phase) || r.phase == CStylePhase::Decoding;
    &&& (input_released(r.phase) || r.phase == CStylePhase::Decoding || ok)
        ==> calls.contains(CStyleAction::Deallocate { ptr: r.input_ptr, size: r.input_len })
    &&& (length_done || ok) ==> calls.contains(CStyleAction::Deallocate { ptr: r.length_ptr, size: 4 })
    &&& (r.phase == CStylePhase::ReleasingEmptyResult || r.phase == CStylePhase::ReleasingResult
        || r.phase == CStylePhase::Decoding || ok) ==> calls.contains(legacy_result_release(r))
    &&& output_read ==> r.output_len != 0
    &&& r.phase == CStylePhase::ReleasingEmptyResult ==> r.output_len == 0
}

proof fn lemma_legacy_releases_asked(
    first: LegacyCStyleRun,
    a0: CStyleAction,
    input: Seq<u8>,
    exports: CStyleExports,
    last: LegacyCStyleRun,
    calls: Seq<CStyleAction>,
)
    requires
        legacy_begins(first, a0, input, exports),
        legacy_runs(first, last, calls),
    ensures
        legacy_releases_asked(last, seq![a0] + calls),
        last.outcome is Some ==> last.phase == CStylePhase::Done,
    decreases calls.len(),
{
    if calls.len() > 0 {
        let (mid, e) = choose|mid: LegacyCStyleRun, e: CStyleEvent|
            #[trigger] legacy_steps(mid, e, last, calls.last()) && legacy_runs(first, mid, calls.drop_last());
        lemma_legacy_releases_asked(first, a0, input, exports, mid, calls.drop_last());
        let before = seq![a0] + calls.drop_last();
        let after = seq![a0] + calls;
        assert(after =~= before.push(calls.last()));
        assert forall|x: CStyleAction| before.contains(x) implies after.contains(x) by {
            let k = choose|k: int| 0 <= k < before.len() && before[k] == x;
            assert(after[k] == x);
        }
        assert(after[after.len() - 1] == calls.last());
    }
}

/// A run of the older protocol that succeeds has asked to release every buffer
/// it used: the input buffer, the four bytes that held the output's length, and
/// the output (one byte of it when the output is empty).
pub proof fn law_successful_legacy_run_releases_its_buffers(
    first: LegacyCStyleRun,
    a0: CStyleAction,
    input: Seq<u8>,
    exports: CStyleExports,
    last: LegacyCStyleRun,
    calls: Seq<CStyleAction>,
)
    requires
        legacy_begins(first, a0, input, exports),
        legacy_runs(first, last, calls),
        last.outcome matches Some(Ok(_)),
    ensures
        (seq![a0] + calls).contains(CStyleAction::Deallocate { ptr: last.input_ptr, size: last.input_len }),
        (seq![a0] + calls).contains(CStyleAction::Deallocate { ptr: last.length_ptr, size: 4 }),
        (seq![a0] + calls).contains(legacy_result_release(last)),
{
    lemma_legacy_releases_asked(first, a0, input, exports, last, calls);
}

/// The text with which a C string that holds a NUL at `pos`, before its end,
/// is refused.
pub open spec fn interior_nul_text(pos: nat) -> Seq<char> {
    "data provided contains an interior nul byte at byte pos "@ + decimal(pos)
}

/// Reading NUL-terminated bytes as a C string: a NUL before the last byte is
/// refused at the first one; otherwise the bytes before the closing NUL are
/// decoded as UTF-8.
pub open spec fn c_string_read(b: Seq<u8>, r: CStringRead) -> bool {
    if exists|i: int| 0 <= i < b.len() - 1 && b[i] == 0u8 {
        exists|k: int| #![trigger b[k]]
            0 <= k < b.len() - 1 && b[k] == 0u8 && (forall|j: int| 0 <= j < k ==> b[j] != 0u8)
            && (r matches CStringRead::InteriorNul(m) && m@ == interior_nul_text(k as nat))
    } else if valid_utf8(b.drop_last()) {
        r matches CStringRead::Text(s) && s@ == decode_utf8(b.drop_last())
    } else {
        r matches CStringRead::InvalidUtf8(m) && m@ == utf8_error_text(b.drop_last())
    }
}

/// Reads the bytes, which end with a NUL, as a C string (see `c_string_read`).
pub fn decode_c_string(bytes: &Vec<u8>) -> (r: CStringRead)
    requires
        bytes@.len() > 0,
        bytes@.last() == 0u8,
    ensures
        c_string_read(bytes@, r),
{
    let last = bytes.len() - 1;
    let mut body: Vec<u8> = Vec::new();
    let mut i: usize = 0;
    while i < last
        invariant
            last == bytes@.len() - 1,
            i <= last,
            body@ == bytes@.take(i as int),
            forall|j: int| 0 <= j < i ==> bytes@[j] != 0u8,
        decreases last - i,
    {
        if bytes[i] == 0 {
            let mut m = String::from_str("data provided contains an interior nul byte at byte pos ");
            m.append(decimal_string(i).as_str());
            proof {
                assert(bytes@[i as int] == 0u8);
            }
            return CStringRead::InteriorNul(m);
        }
        body.push(bytes[i]);
        proof {
            assert(bytes@.take(i + 1) =~= bytes@.take(i as int).push(bytes@[i as int]));
        }
        i = i + 1;
    }
    proof {
        assert(body@ =~= bytes@.drop_last());
    }
    match decode_text(body) {
        Ok(s) => CStringRead::Text(s),
        Err(m) => CStringRead::InvalidUtf8(m),
    }
}

fn prefixed(prefix: &str, detail: &String) -> (m: String)
    ensures
        m@ == prefix@ + detail@,
{
    let mut m = prefix.to_owned();
    m.append(detail.as_str());
    m
}

impl LegacyCStyleRun {
    /// The run is consistent: a finished run holds its outcome.
    pub open spec fn wf(&self) -> bool {
        &&& (self.phase == CStylePhase::Done <==> self.outcome is Some)
        &&& self.phase != CStylePhase::ReleasingInputAfterProcessFailure
        &&& self.phase != CStylePhase::ReleasingLengthAfterProcessFailure
    }

    fn end(&mut self, outcome: Result<String, WasmError>) -> (a: CStyleAction)
        ensures
            final(self).phase == CStylePhase::Done,
            final(self).outcome == Some(outcome),
            legacy_buffers(*old(self), *final(self)),
            a == CStyleAction::Finish,
    {
        self.phase = CStylePhase::Done;
        self.outcome = Some(outcome);
        CStyleAction::Finish
    }

    /// Starts a run on the input, passed as a C string (see `c_string_input`):
    /// the module must export its memory, `process`, `allocate` and `deallocate`.
    pub fn start(input: &[u8], exports: CStyleExports) -> (r: (LegacyCStyleRun, CStyleAction))
        requires
            input@.len() < i32::MAX,
        ensures
            legacy_begins(r.0, r.1, input@, exports),
    {
        let mut run = LegacyCStyleRun {
            phase: CStylePhase::AllocatingInput,
            input_len: 0,
            input_ptr: 0,
            length_ptr: 0,
            result_ptr: 0,
            output_len: 0,
            output: Vec::new(),
            outcome: None,
        };
        if !exports.memory {
            let a = run.end(Err(WasmError::ValidationError(String::from_str("WASM module must export 'memory'"))));
            return (run, a);
        }
        if !exports.process {
            let a = run.end(Err(WasmError::ValidationError(String::from_str(
                "WASM module must export 'process' function with signature (i32, i32, i32) -> i32",
            ))));
            return (run, a);
        }
        if !exports.allocate {
            let a = run.end(Err(WasmError::ValidationError(String::from_str(
                "WASM module must export 'allocate' function with signature (i32) -> i32",
            ))));
            return (run, a);
        }
        if !exports.deallocate {
            let a = run.end(Err(WasmError::ValidationError(String::from_str(
                "WASM module must export 'deallocate' function with signature (i32, i32) -> ()",
            ))));
            return (run, a);
        }
        match c_string_input(input) {
            Err(e) => {
                let a = run.end(Err(e));
                (run, a)
            },
            Ok(bytes) => {
                let n = bytes.len() as i32;
                run.input_len = n;
                (run, CStyleAction::Allocate { size: n })
            },
        }
    }

    /// Takes the outcome of the call the run waited on and answers with the
    /// next call (see `legacy_steps`).
    pub fn step(&mut self, event: CStyleEvent) -> (a: CStyleAction)
        requires
            old(self).wf(),
            legacy_event_fits(old(self).phase, event),
        ensures
            final(self).wf(),
            legacy_steps(*old(self), event, *final(self), a),
    {
        match self.phase {
            CStylePhase::AllocatingInput => match event {
                CStyleEvent::Pointer(Err(e)) => self.end(Err(WasmError::ExecutionError(e))),
                CStyleEvent::Pointer(Ok(p)) => {
                    if p == 0 {
                        self.end(Err(WasmError::MemoryError(String::from_str("Failed to allocate input memory"))))
                    } else {
                        self.input_ptr = p;
                        self.phase = CStylePhase::WritingInput;
                        CStyleAction::WriteInput { ptr: p }
                    }
                },
                _ => CStyleAction::Finish,
            },
            CStylePhase::WritingInput => match event {
                CStyleEvent::Unit(Err(e)) => self.end(Err(WasmError::MemoryError(prefixed("Failed to write input to WASM memory: ", &e)))),
                CStyleEvent::Unit(Ok(())) => {
                    self.phase = CStylePhase::AllocatingLength;
                    CStyleAction::Allocate { size: 4 }
                },
                _ => CStyleAction::Finish,
            },
            CStylePhase::AllocatingLength => match event {
                CStyleEvent::Pointer(Err(e)) => self.end(Err(WasmError::ExecutionError(e))),
                CStyleEvent::Pointer(Ok(p)) => {
                    if p == 0 {
                        self.phase = CStylePhase::ReleasingInputAfterLengthFailure;
                        CStyleAction::Deallocate { ptr: self.input_ptr, size: self.input_len }
                    } else {
                        self.length_ptr = p;
                        self.phase = CStylePhase::Processing;
                        CStyleAction::CallProcess { input_ptr: self.input_ptr, input_len: self.input_len, output_len_ptr: p }
                    }
                },
                _ => CStyleAction::Finish,
            },
            CStylePhase::ReleasingInputAfterLengthFailure => match event {
                CStyleEvent::Unit(Err(e)) => self.end(Err(WasmError::ExecutionError(e))),
                _ => self.end(Err(WasmError::MemoryError(String::from_str("Failed to allocate output length memory")))),
            },
            CStylePhase::Processing => match event {
                CStyleEvent::Pointer(Err(e)) => self.end(Err(WasmError::ExecutionError(e))),
                CStyleEvent::Pointer(Ok(p)) => {
                    self.result_ptr = p;
                    self.phase = CStylePhase::ReleasingInput;
                    CStyleAction::Deallocate { ptr: self.input_ptr, size: self.input_len }
                },
                _ => CStyleAction::Finish,
            },
            CStylePhase::ReleasingInput => match event {
                CStyleEvent::Unit(Err(e)) => self.end(Err(WasmError::ExecutionError(e))),
                CStyleEvent::Unit(Ok(())) => {
                    if self.result_ptr == 0 {
                        self.phase = CStylePhase::ReleasingLengthAfterNullResult;
                        CStyleAction::Deallocate { ptr: self.length_ptr, size: 4 }
                    } else {
                        self.phase = CStylePhase::ReadingLength;
                        CStyleAction::ReadLength { ptr: self.length_ptr }
                    }
                },
                _ => CStyleAction::Finish,
            },
            CStylePhase::ReleasingLengthAfterNullResult => match event {
                CStyleEvent::Unit(Err(e)) => self.end(Err(WasmError::ExecutionError(e))),
                _ => self.end(Err(WasmError::ExecutionError(String::from_str("WASM process function returned null pointer")))),
            },
            CStylePhase::ReadingLength => match event {
                CStyleEvent::Bytes(Err(e)) => self.end(Err(WasmError::MemoryError(prefixed("Failed to read output length: ", &e)))),
                CStyleEvent::Bytes(Ok(bytes)) => {
                    self.output_len = decode_length(&bytes);
                    self.phase = CStylePhase::ReleasingLength;
                    CStyleAction::Deallocate { ptr: self.length_ptr, size: 4 }
                },
                _ => CStyleAction::Finish,
            },
            CStylePhase::ReleasingLength => match event {
                CStyleEvent::Unit(Err(e)) => self.end(Err(WasmError::ExecutionError(e))),
                CStyleEvent::Unit(Ok(())) => {
                    if self.output_len == 0 {
                        self.phase = CStylePhase::ReleasingEmptyResult;
                        CStyleAction::Deallocate { ptr: self.result_ptr, size: 1 }
                    } else {
                        self.phase = CStylePhase::ReadingOutput;
                        CStyleAction::ReadOutput { ptr: self.result_ptr, len: self.output_len }
                    }
                },
                _ => CStyleAction::Finish,
            },
            CStylePhase::ReleasingEmptyResult => match event {
                CStyleEvent::Unit(Err(e)) => self.end(Err(WasmError::ExecutionError(e))),
                _ => self.end(Ok(String::new())),
            },
            CStylePhase::ReadingOutput => match event {
                CStyleEvent::Bytes(Err(e)) => self.end(Err(WasmError::MemoryError(prefixed("Failed to read output data: ", &e)))),
                CStyleEvent::Bytes(Ok(bytes)) => {
                    self.output = bytes;
                    self.phase = CStylePhase::ReleasingResult;
                    CStyleAction::Deallocate { ptr: self.result_ptr, size: self.output_len }
                },
                _ => CStyleAction::Finish,
            },
            CStylePhase::ReleasingResult => match event {
                CStyleEvent::Unit(Err(e)) => self.end(Err(WasmError::ExecutionError(e))),
                CStyleEvent::Unit(Ok(())) => {
                    let n = self.output.len();
                    if n == 0 || self.output[n - 1] != 0 {
                        self.output.push(0);
                    }
                    self.phase = CStylePhase::Decoding;
                    CStyleAction::DecodeOutput
                },
                _ => CStyleAction::Finish,
            },
            CStylePhase::Decoding => match event {
                CStyleEvent::Text(CStringRead::Text(t)) => self.end(Ok(t)),
                CStyleEvent::Text(CStringRead::InteriorNul(m)) => self.end(Err(WasmError::StringError(prefixed("Invalid C string in output: ", &m)))),
                CStyleEvent::Text(CStringRead::InvalidUtf8(m)) => self.end(Err(WasmError::StringError(prefixed("Invalid UTF-8 in output: ", &m)))),
                _ => CStyleAction::Finish,
            },
            _ => CStyleAction::Finish,
        }
    }
}

} // verus!
