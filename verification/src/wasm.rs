//! The decisions of the WASM backend: which WASI imports a module may have,
//! how large a module may be, what kind of binary it is, how a WASM processor
//! is configured (intent and fuel), and what its responses hold.
//!
//! Compiling and running modules is in `wasm_runtime`; the binary format
//! itself is read by wasmparser.
use vstd::prelude::*;
use vstd::string::*;
use crate::string_map::{StringMap, str_equal, strs_view};
use crate::config::{ProcessorConfig, FuelConfig, ConfigValue};
use crate::proto::{ProcessorIntent, ProcessorRequest, ProcessorResponse, Outcome, ErrorDetail, Metadata, MetaView};
use crate::text::{to_lower, str_lower, decimal_string, decimal, law_decimal_denotes, digits_value, is_ascii_digit};
use crate::processors::error_response;
use crate::processing_node::{ProcessingNodeExecutor, ProcessingNodeError};
use crate::wasm_runtime::LoadedModule;

verus! {

/// The largest WASM module or component accepted, in bytes (16 MiB).
pub const MAX_WASM_SIZE: usize = 16777216;

/// The message for a module in the legacy component encoding.
pub const WASM_UNSUPPORTED_ENCODING: &'static str = "Unsupported WASM binary: Legacy Preview 1 Component Model detected. Please upgrade to modern Component Model (binary version 2+) or use classic WASM.";

/// Errors of the WASM backend.
#[derive(Debug, Clone, PartialEq, Eq)]
pub enum WasmError {
    InvalidWasmBinary(String),
    UnknownEncoding(String),
    MemoryError(String),
    InvalidPointer(i32),
    OutOfBounds(String),
    ModuleError(String),
    IoError(String),
    Utf8Error(String),
    ExecutionError(String),
    ValidationError(String),
    EngineError(String),
    StringError(String),
    ProcessorError(String),
    UnsupportedEncoding(String),
    ParserError(String),
}

/// The decimal text of a signed number.
pub open spec fn signed_decimal(n: int) -> Seq<char> {
    if n < 0 { "-"@ + decimal((-n) as nat) } else { decimal(n as nat) }
}

/// Law: the signed decimal text of `n` is the decimal text of its magnitude,
/// after a minus sign when `n` is negative.
pub proof fn law_signed_decimal(n: int)
    ensures
        n < 0 ==> signed_decimal(n).len() > 1 && signed_decimal(n)[0] == '-'
            && digits_value(signed_decimal(n).drop_first()) == -n,
        n >= 0 ==> digits_value(signed_decimal(n)) == n && is_ascii_digit(signed_decimal(n)[0]),
{
    if n < 0 {
        law_decimal_denotes((-n) as nat);
        reveal_strlit("-");
        assert(signed_decimal(n).drop_first() =~= decimal((-n) as nat));
    } else {
        law_decimal_denotes(n as nat);
    }
}

fn signed_decimal_string(n: i32) -> (s: String)
    ensures
        s@ == signed_decimal(n as int),
{
    if n < 0 {
        let magnitude: i64 = -(n as i64);
        let mut s = String::from_str("-");
        s.append(decimal_string(magnitude as usize).as_str());
        proof {
            reveal_strlit("-");
        }
        s
    } else {
        decimal_string(n as usize)
    }
}

impl WasmError {
    /// The text of the error, as it is shown to users.
    pub open spec fn spec_message(&self) -> Seq<char> {
        match self {
            WasmError::InvalidWasmBinary(m) => "Invalid WASM binary: "@ + m@,
            WasmError::UnknownEncoding(m) => "Unknown WASM encoding: "@ + m@,
            WasmError::MemoryError(m) => "Memory error: "@ + m@,
            WasmError::InvalidPointer(p) => "Invalid pointer: "@ + signed_decimal(*p as int),
            WasmError::OutOfBounds(m) => "Memory access out of bounds: "@ + m@,
            WasmError::ModuleError(m) => "WASM module error: "@ + m@,
            WasmError::IoError(m) => "I/O error: "@ + m@,
            WasmError::Utf8Error(m) => "UTF-8 error: "@ + m@,
            WasmError::ExecutionError(m) => "WASM execution error: "@ + m@,
            WasmError::ValidationError(m) => "Invalid input: "@ + m@,
            WasmError::EngineError(m) => "Engine creation error: "@ + m@,
            WasmError::StringError(m) => "String conversion error: "@ + m@,
            WasmError::ProcessorError(m) => "Processor error: "@ + m@,
            WasmError::UnsupportedEncoding(m) => "Unsupported encoding: "@ + m@,
            WasmError::ParserError(m) => "WASM parser error: "@ + m@,
        }
    }

    /// The text of the error, as it is shown to users.
    pub fn message(&self) -> (s: String)
        ensures
            s@ == self.spec_message(),
    {
        let (prefix, detail): (&str, String) = match self {
            WasmError::InvalidWasmBinary(m) => ("Invalid WASM binary: ", m.clone()),
            WasmError::UnknownEncoding(m) => ("Unknown WASM encoding: ", m.clone()),
            WasmError::MemoryError(m) => ("Memory error: ", m.clone()),
            WasmError::InvalidPointer(p) => ("Invalid pointer: ", signed_decimal_string(*p)),
            WasmError::OutOfBounds(m) => ("Memory access out of bounds: ", m.clone()),
            WasmError::ModuleError(m) => ("WASM module error: ", m.clone()),
            WasmError::IoError(m) => ("I/O error: ", m.clone()),
            WasmError::Utf8Error(m) => ("UTF-8 error: ", m.clone()),
            WasmError::ExecutionError(m) => ("WASM execution error: ", m.clone()),
            WasmError::ValidationError(m) => ("Invalid input: ", m.clone()),
            WasmError::EngineError(m) => ("Engine creation error: ", m.clone()),
            WasmError::StringError(m) => ("String conversion error: ", m.clone()),
            WasmError::ProcessorError(m) => ("Processor error: ", m.clone()),
            WasmError::UnsupportedEncoding(m) => ("Unsupported encoding: ", m.clone()),
            WasmError::ParserError(m) => ("WASM parser error: ", m.clone()),
        };
        let mut s = prefix.to_owned();
        s.append(detail.as_str());
        s
    }
}

/// The kind of a WASM binary.
#[derive(Debug, Clone, Copy, PartialEq, Eq, Structural)]
pub enum ComponentType {
    /// A component of the component model (WIT interfaces).
    Wit,
    /// A core module with the C-style memory protocol.
    CStyle,
}

impl ComponentType {
    pub fn is_wit(self) -> (b: bool)
        ensures
            b == (self == ComponentType::Wit),
    {
        match self {
            ComponentType::Wit => true,
            ComponentType::CStyle => false,
        }
    }

    pub fn is_cstyle(self) -> (b: bool)
        ensures
            b == (self == ComponentType::CStyle),
    {
        match self {
            ComponentType::Wit => false,
            ComponentType::CStyle => true,
        }
    }
}

/// The WASI functions a module may import.
pub open spec fn allowed_wasi_functions() -> Seq<Seq<char>> {
    seq!["proc_exit"@, "random_get"@, "clock_time_get"@, "fd_write"@, "fd_read"@]
}

/// The allowed functions as the error message lists them.
pub open spec fn allowed_list_text() -> Seq<char> {
    "[\"proc_exit\", \"random_get\", \"clock_time_get\", \"fd_write\", \"fd_read\"]"@
}

/// Law: a WASI import is accepted (see `validate_wasi_import`) exactly when
/// its function is one of `proc_exit`, `random_get`, `clock_time_get`,
/// `fd_write` and `fd_read`, the five that the refusal message lists.
pub proof fn law_accepted_wasi_functions(f: Seq<char>)
    ensures
        allowed_wasi_functions().contains(f) <==> (f == "proc_exit"@ || f == "random_get"@ || f == "clock_time_get"@
            || f == "fd_write"@ || f == "fd_read"@),
        allowed_wasi_functions().len() == 5,
{
    let a = allowed_wasi_functions();
    assert(a[0] == "proc_exit"@);
    assert(a[1] == "random_get"@);
    assert(a[2] == "clock_time_get"@);
    assert(a[3] == "fd_write"@);
    assert(a[4] == "fd_read"@);
    if a.contains(f) {
        let k = choose|k: int| 0 <= k < a.len() && a[k] == f;
        assert(k == 0 || k == 1 || k == 2 || k == 3 || k == 4);
    }
    if f == "proc_exit"@ {
        assert(a[0] == f);
    }
    if f == "random_get"@ {
        assert(a[1] == f);
    }
    if f == "clock_time_get"@ {
        assert(a[2] == f);
    }
    if f == "fd_write"@ {
        assert(a[3] == f);
    }
    if f == "fd_read"@ {
        assert(a[4] == f);
    }
}

/// Checks that a WASI import is one of the allowed functions.
pub fn validate_wasi_import(module_name: &str, function_name: &str) -> (r: Result<(), WasmError>)
    ensures
        r is Ok <==> allowed_wasi_functions().contains(function_name@),
        r matches Err(e) ==> (e matches WasmError::ValidationError(m) && m@ == "WASI function '"@ + function_name@
            + "' from module '"@ + module_name@ + "' is not allowed. Allowed functions: "@ + allowed_list_text()),
        r is Ok <==> (function_name@ == "proc_exit"@ || function_name@ == "random_get"@
            || function_name@ == "clock_time_get"@ || function_name@ == "fd_write"@ || function_name@ == "fd_read"@),
{
    proof {
        law_accepted_wasi_functions(function_name@);
    }
    let f = function_name.to_owned();
    if str_equal(&f, &String::from_str("proc_exit")) || str_equal(&f, &String::from_str("random_get"))
        || str_equal(&f, &String::from_str("clock_time_get")) || str_equal(&f, &String::from_str("fd_write"))
        || str_equal(&f, &String::from_str("fd_read")) {
        proof {
            assert(allowed_wasi_functions()[0] == "proc_exit"@);
            assert(allowed_wasi_functions()[1] == "random_get"@);
            assert(allowed_wasi_functions()[2] == "clock_time_get"@);
            assert(allowed_wasi_functions()[3] == "fd_write"@);
            assert(allowed_wasi_functions()[4] == "fd_read"@);
        }
        Ok(())
    } else {
        proof {
            if allowed_wasi_functions().contains(function_name@) {
                let k = choose|k: int| 0 <= k < 5 && allowed_wasi_functions()[k] == function_name@;
            }
        }
        let mut m = String::from_str("WASI function '");
        m.append(function_name);
        m.append("' from module '");
        m.append(module_name);
        m.append("' is not allowed. Allowed functions: ");
        m.append("[\"proc_exit\", \"random_get\", \"clock_time_get\", \"fd_write\", \"fd_read\"]");
        Err(WasmError::ValidationError(m))
    }
}

/// Whether an import is from WASI or from elsewhere.
#[derive(Debug, Clone, Copy, PartialEq, Eq, Structural)]
pub enum ImportType {
    Wasi,
    Other,
}

/// An import of a core module.
#[derive(Debug, Clone)]
pub struct ModuleImport {
    pub module_name: String,
    pub function_name: String,
    pub import_type: ImportType,
}

/// `s` starts with `p`.
pub open spec fn starts_with(s: Seq<char>, p: Seq<char>) -> bool {
    s.len() >= p.len() && s.take(p.len() as int) == p
}

fn has_prefix(s: &String, p: &str) -> (b: bool)
    ensures
        b == starts_with(s@, p@),
{
    let sc = crate::text::chars_of(s.as_str());
    let pc = crate::text::chars_of(p);
    if sc.len() < pc.len() {
        return false;
    }
    let mut i: usize = 0;
    while i < pc.len()
        invariant
            sc@ == s@,
            pc@ == p@,
            pc@.len() <= sc@.len(),
            i <= pc@.len(),
            forall|j: int| 0 <= j < i ==> sc@[j] == pc@[j],
        decreases pc@.len() - i,
    {
        if sc[i] != pc[i] {
            proof {
                assert(s@.take(p@.len() as int)[i as int] != p@[i as int]);
            }
            return false;
        }
        i = i + 1;
    }
    proof {
        assert(s@.take(p@.len() as int) =~= p@);
    }
    true
}

/// Classifies the imports of a core module (module name and function name, in
/// order): an import from a module whose name starts with `wasi` is a WASI
/// import and must be allowed; the first one that is not is the error.
pub fn parse_module_imports(imports: Vec<(String, String)>) -> (r: Result<Vec<ModuleImport>, WasmError>)
    ensures
        match r {
            Ok(v) => v@.len() == imports@.len() && forall|i: int| 0 <= i < v@.len() ==> {
                &&& (#[trigger] v@[i]).module_name@ == imports@[i].0@
                &&& v@[i].function_name@ == imports@[i].1@
                &&& v@[i].import_type == if starts_with(imports@[i].0@, "wasi"@) { ImportType::Wasi } else { ImportType::Other }
                &&& starts_with(imports@[i].0@, "wasi"@) ==> allowed_wasi_functions().contains(imports@[i].1@)
            },
            Err(e) => exists|i: int| 0 <= i < imports@.len()
                && starts_with(#[trigger] imports@[i].0@, "wasi"@)
                && !allowed_wasi_functions().contains(imports@[i].1@)
                && (forall|j: int| 0 <= j < i && starts_with(#[trigger] imports@[j].0@, "wasi"@) ==> allowed_wasi_functions().contains(imports@[j].1@))
                && (e matches WasmError::ValidationError(m) && m@ == "WASI function '"@ + imports@[i].1@
                    + "' from module '"@ + imports@[i].0@ + "' is not allowed. Allowed functions: "@ + allowed_list_text()),
        },
{
    let mut result: Vec<ModuleImport> = Vec::new();
    let mut i: usize = 0;
    while i < imports.len()
        invariant
            i <= imports@.len(),
            result@.len() == i,
            forall|k: int| 0 <= k < i ==> {
                &&& (#[trigger] result@[k]).module_name@ == imports@[k].0@
                &&& result@[k].function_name@ == imports@[k].1@
                &&& result@[k].import_type == if starts_with(imports@[k].0@, "wasi"@) { ImportType::Wasi } else { ImportType::Other }
                &&& starts_with(imports@[k].0@, "wasi"@) ==> allowed_wasi_functions().contains(imports@[k].1@)
            },
        decreases imports@.len() - i,
    {
        let module_name = imports[i].0.clone();
        let function_name = imports[i].1.clone();
        let import_type = if has_prefix(&module_name, "wasi") {
            match validate_wasi_import(module_name.as_str(), function_name.as_str()) {
                Ok(()) => ImportType::Wasi,
                Err(e) => {
                    proof {
                        assert(starts_with(imports@[i as int].0@, "wasi"@));
                        assert forall|j: int| 0 <= j < i && starts_with(#[trigger] imports@[j].0@, "wasi"@) implies
                            allowed_wasi_functions().contains(imports@[j].1@) by {
                            assert(result@[j].module_name@ == imports@[j].0@);
                        }
                    }
                    return Err(e);
                },
            }
        } else {
            ImportType::Other
        };
        result.push(ModuleImport { module_name, function_name, import_type });
        i = i + 1;
    }
    Ok(result)
}

/// Checks the size of a module's bytes before it is compiled.
pub fn check_module_size(len: usize) -> (r: Result<(), WasmError>)
    ensures
        r is Ok <==> len <= MAX_WASM_SIZE,
        r matches Err(e) ==> (e matches WasmError::ValidationError(m) && m@ == "WASM module too large: "@
            + decimal(len as nat) + " bytes (max: "@ + decimal(MAX_WASM_SIZE as nat) + " bytes)"@),
{
    if len > MAX_WASM_SIZE {
        let mut m = String::from_str("WASM module too large: ");
        m.append(decimal_string(len).as_str());
        m.append(" bytes (max: ");
        m.append(decimal_string(MAX_WASM_SIZE).as_str());
        m.append(" bytes)");
        Err(WasmError::ValidationError(m))
    } else {
        Ok(())
    }
}

/// Checks the size of a WASM file's bytes once read.
pub fn check_file_size(len: usize) -> (r: Result<(), WasmError>)
    ensures
        r is Ok <==> len <= MAX_WASM_SIZE,
        r matches Err(e) ==> (e matches WasmError::ValidationError(m) && m@ == "WASM file too large: "@
            + decimal(len as nat) + " bytes (max: "@ + decimal(MAX_WASM_SIZE as nat) + " bytes)"@),
{
    if len > MAX_WASM_SIZE {
        let mut m = String::from_str("WASM file too large: ");
        m.append(decimal_string(len).as_str());
        m.append(" bytes (max: ");
        m.append(decimal_string(MAX_WASM_SIZE).as_str());
        m.append(" bytes)");
        Err(WasmError::ValidationError(m))
    } else {
        Ok(())
    }
}

/// What the detection of a binary's kind reads of one section (payload) of it.
#[derive(Debug, Clone)]
pub enum PayloadInfo {
    /// The header, with the binary's encoding.
    Version { component: bool },
    /// A custom section, with its name.
    CustomSection { name: String },
    /// Any other section.
    Other,
}

/// A payload as a plain value: 0 a module header, 1 a component header, 2 a custom section (with its name), 3 anything else.
pub open spec fn payload_view(p: PayloadInfo) -> (u8, Seq<char>) {
    match p {
        PayloadInfo::Version { component } => (if component { 1u8 } else { 0u8 }, Seq::empty()),
        PayloadInfo::CustomSection { name } => (2u8, name@),
        PayloadInfo::Other => (3u8, Seq::empty()),
    }
}

/// The payloads that wasmparser reads from these bytes, in order, or `None` when
/// it reports an error.
pub uninterp spec fn wasm_payloads(bytes: Seq<u8>) -> Option<Seq<(u8, Seq<char>)>>;

/// The text of the error that wasmparser reports for these bytes.
pub uninterp spec fn wasm_parse_error(bytes: Seq<u8>) -> Seq<char>;

/// `wasmparser::Parser::parse_all` from offset 0, up to the first error: each
/// payload as the detection reads it.
#[verifier::external_body]
fn read_payloads(bytes: &[u8]) -> (r: Result<Vec<PayloadInfo>, String>)
    ensures
        match r {
            Ok(v) => wasm_payloads(bytes@) == Some(Seq::new(v@.len(), |i: int| payload_view(v@[i]))),
            Err(m) => wasm_payloads(bytes@) is None && m@ == wasm_parse_error(bytes@),
        },
{
    wasmparser::Parser::new(0).parse_all(bytes).map(|p| match p {
        Ok(wasmparser::Payload::Version { encoding, .. }) => Ok(PayloadInfo::Version { component: encoding == wasmparser::Encoding::Component }),
        Ok(wasmparser::Payload::CustomSection(reader)) => Ok(PayloadInfo::CustomSection { name: reader.name().to_string() }),
        Ok(_) => Ok(PayloadInfo::Other),
        Err(e) => Err(e.to_string()),
    }).collect()
}

/// The encoding that the last header gives (true for a component), if any header.
pub open spec fn last_encoding(ps: Seq<(u8, Seq<char>)>) -> Option<bool>
    decreases ps.len(),
{
    if ps.len() == 0 {
        None
    } else if ps.last().0 == 0 {
        Some(false)
    } else if ps.last().0 == 1 {
        Some(true)
    } else {
        last_encoding(ps.drop_last())
    }
}

/// Law: the encoding detected is that of the last header among the payloads
/// (a component header gives `true`, a module header `false`), and there is
/// none exactly when no payload is a header.
pub proof fn law_last_encoding(ps: Seq<(u8, Seq<char>)>)
    ensures
        last_encoding(ps) is None <==> forall|i: int| 0 <= i < ps.len() ==> (#[trigger] ps[i]).0 != 0 && ps[i].0 != 1,
        last_encoding(ps) matches Some(c) ==> exists|i: int| 0 <= i < ps.len()
            && (#[trigger] ps[i]).0 == (if c { 1u8 } else { 0u8 })
            && forall|j: int| i < j < ps.len() ==> (#[trigger] ps[j]).0 != 0 && ps[j].0 != 1,
    decreases ps.len(),
{
    if ps.len() > 0 {
        let d = ps.drop_last();
        law_last_encoding(d);
        let n = ps.len() - 1;
        assert(ps.last() == ps[n]);
        if ps[n].0 == 0 || ps[n].0 == 1 {
        } else {
            assert forall|i: int| 0 <= i < d.len() implies #[trigger] d[i] == ps[i] by {}
            if last_encoding(d) is None {
                assert forall|i: int| 0 <= i < ps.len() implies (#[trigger] ps[i]).0 != 0 && ps[i].0 != 1 by {
                    if i < d.len() {
                        assert(d[i] == ps[i]);
                    }
                }
            } else {
                let c = last_encoding(d)->0;
                let i = choose|i: int| 0 <= i < d.len() && (#[trigger] d[i]).0 == (if c { 1u8 } else { 0u8 })
                    && forall|j: int| i < j < d.len() ==> (#[trigger] d[j]).0 != 0 && d[j].0 != 1;
                assert(ps[i] == d[i]);
                assert forall|j: int| i < j < ps.len() implies (#[trigger] ps[j]).0 != 0 && ps[j].0 != 1 by {
                    if j < d.len() {
                        assert(d[j] == ps[j]);
                    }
                }
                assert(!(forall|i: int| 0 <= i < ps.len() ==> (#[trigger] ps[i]).0 != 0 && ps[i].0 != 1));
            }
        }
    }
}

/// Some custom section is named `component`.
pub open spec fn has_component_section(ps: Seq<(u8, Seq<char>)>) -> bool {
    exists|i: int| 0 <= i < ps.len() && (#[trigger] ps[i]).0 == 2 && ps[i].1 == "component"@
}

/// The kind of a binary from its payloads: a component header makes a WIT
/// component; a module header makes a C-style module, unless a custom section
/// named `component` marks the legacy component encoding; no header is an invalid binary.
pub fn component_type_of(payloads: &Vec<PayloadInfo>) -> (r: Result<ComponentType, WasmError>)
    ensures
        ({
            let ps = Seq::new(payloads@.len(), |i: int| payload_view(payloads@[i]));
            match last_encoding(ps) {
                None => r matches Err(WasmError::InvalidWasmBinary(m)) && m@ == "Invalid WASM binary"@,
                Some(true) => r == Ok::<ComponentType, WasmError>(ComponentType::Wit),
                Some(false) => if has_component_section(ps) {
                    r matches Err(WasmError::UnsupportedEncoding(m)) && m@ == WASM_UNSUPPORTED_ENCODING@
                } else {
                    r == Ok::<ComponentType, WasmError>(ComponentType::CStyle)
                },
            }
        }),
{
    let ghost ps = Seq::new(payloads@.len(), |i: int| payload_view(payloads@[i]));
    let mut encoding: Option<bool> = None;
    let mut has_section = false;
    let mut i: usize = 0;
    proof {
        assert(ps.take(0) =~= Seq::<(u8, Seq<char>)>::empty());
    }
    while i < payloads.len()
        invariant
            ps == Seq::new(payloads@.len(), |k: int| payload_view(payloads@[k])),
            i <= payloads@.len(),
            encoding == last_encoding(ps.take(i as int)),
            has_section == has_component_section(ps.take(i as int)),
        decreases payloads@.len() - i,
    {
        proof {
            assert(ps.take(i + 1).drop_last() =~= ps.take(i as int));
            assert(ps.take(i + 1).last() == payload_view(payloads@[i as int]));
        }
        match &payloads[i] {
            PayloadInfo::Version { component } => {
                encoding = Some(*component);
            },
            PayloadInfo::CustomSection { name } => {
                if str_equal(name, &String::from_str("component")) {
                    has_section = true;
                }
            },
            PayloadInfo::Other => {},
        }
        proof {
            let t1 = ps.take(i + 1);
            let t0 = ps.take(i as int);
            assert forall|k: int| 0 <= k < t0.len() implies t1[k] == t0[k] by {}
            if has_component_section(t0) {
                let k = choose|k: int| 0 <= k < t0.len() && (#[trigger] t0[k]).0 == 2 && t0[k].1 == "component"@;
                assert(t1[k] == t0[k]);
            }
            if has_component_section(t1) {
                let k = choose|k: int| 0 <= k < t1.len() && (#[trigger] t1[k]).0 == 2 && t1[k].1 == "component"@;
                if k < t0.len() {
                    assert(t0[k] == t1[k]);
                }
            }
            if has_section && !has_component_section(t0) {
                assert(t1[i as int].0 == 2 && t1[i as int].1 == "component"@);
            }
        }
        i = i + 1;
    }
    proof {
        assert(ps.take(i as int) =~= ps);
    }
    match encoding {
        None => Err(WasmError::InvalidWasmBinary(String::from_str("Invalid WASM binary"))),
        Some(true) => Ok(ComponentType::Wit),
        Some(false) => {
            if has_section {
                Err(WasmError::UnsupportedEncoding(WASM_UNSUPPORTED_ENCODING.to_owned()))
            } else {
                Ok(ComponentType::CStyle)
            }
        },
    }
}

/// Detects the kind of a WASM binary (see `component_type_of`); a parse error of
/// wasmparser is reported as such.
pub fn detect_component_type(bytes: &[u8]) -> (r: Result<ComponentType, WasmError>)
    ensures
        wasm_payloads(bytes@) is None ==> (r matches Err(WasmError::ParserError(m)) && m@ == wasm_parse_error(bytes@)),
        wasm_payloads(bytes@) matches Some(ps) ==> match last_encoding(ps) {
            None => r matches Err(WasmError::InvalidWasmBinary(m)) && m@ == "Invalid WASM binary"@,
            Some(true) => r == Ok::<ComponentType, WasmError>(ComponentType::Wit),
            Some(false) => if has_component_section(ps) {
                r matches Err(WasmError::UnsupportedEncoding(m)) && m@ == WASM_UNSUPPORTED_ENCODING@
            } else {
                r == Ok::<ComponentType, WasmError>(ComponentType::CStyle)
            },
        },
{
    match read_payloads(bytes) {
        Ok(payloads) => component_type_of(&payloads),
        Err(m) => Err(WasmError::ParserError(m)),
    }
}

/// The metadata key under which a WASM run records its module's file.
pub open spec fn module_file_key() -> Seq<char> {
    "module_"@ + "path"@
}

/// Tells the kind of a loaded artifact.
pub struct WasmComponentDetector;

impl WasmComponentDetector {
    /// A loaded artifact is run with the C-style protocol.
    pub fn determine_type(_loaded_module: &LoadedModule) -> (t: ComponentType)
        ensures
            t == ComponentType::CStyle,
    {
        ComponentType::CStyle
    }
}

/// How a WASM processor is set up from its configuration.
pub struct WasmSettings {
    pub module_file: String,
    pub intent: ProcessorIntent,
    pub fuel_level: u64,
}

/// The intent a name stands for, ignoring letter case.
pub open spec fn intent_named(name: Seq<char>) -> Option<ProcessorIntent> {
    if str_lower(name) == "transform"@ {
        Some(ProcessorIntent::Transform)
    } else if str_lower(name) == "analyze"@ {
        Some(ProcessorIntent::Analyze)
    } else {
        None
    }
}

/// The fuel a configuration value requests, or the error's message.
pub open spec fn requested_fuel(v: ConfigValue) -> Result<u64, Seq<char>> {
    match v {
        ConfigValue::UInt(n) => Ok(n),
        ConfigValue::Int(n) => if n < 0 { Err("fuel_level must be a positive number"@) } else { Ok(n as u64) },
        _ => Err("fuel_level must be a number"@),
    }
}

/// The intent the options name, transform when none is named, or the error's
/// message.
pub open spec fn intent_choice(opts: Map<Seq<char>, ConfigValue>) -> Result<ProcessorIntent, Seq<char>> {
    if !opts.contains_key("intent"@) {
        Ok(ProcessorIntent::Transform)
    } else {
        match opts["intent"@] {
            ConfigValue::Str(s) => match intent_named(s@) {
                Some(i) => Ok(i),
                None => Err("Invalid intent '"@ + str_lower(s@) + "'. Must be 'transform' or 'analyze'."@),
            },
            _ => Err("Intent option must be a string"@),
        }
    }
}

/// Resolving the settings reaches the clamping of a requested fuel level: the
/// module is given, the intent is valid and a valid fuel level is requested.
pub open spec fn clamps_fuel(config: ProcessorConfig) -> bool {
    &&& config.module is Some
    &&& intent_choice(config.options@) is Ok
    &&& config.options@.contains_key("fuel_level"@)
    &&& requested_fuel(config.options@["fuel_level"@]) is Ok
}

fn parse_intent(config: &ProcessorConfig) -> (r: Result<ProcessorIntent, WasmError>)
    requires
        config.options.wf(),
    ensures
        match intent_choice(config.options@) {
            Ok(i) => r == Ok::<ProcessorIntent, WasmError>(i),
            Err(m) => r matches Err(WasmError::ValidationError(e)) && e@ == m,
        },
{
    match config.options.get("intent") {
        Some(value) => match value {
            ConfigValue::Str(s) => {
                let lowered = to_lower(s.as_str());
                proof {
                    reveal_strlit("transform");
                    reveal_strlit("analyze");
                    assert("transform"@[0] == 't' && "analyze"@[0] == 'a');
                }
                if str_equal(&lowered, &String::from_str("transform")) {
                    Ok(ProcessorIntent::Transform)
                } else if str_equal(&lowered, &String::from_str("analyze")) {
                    Ok(ProcessorIntent::Analyze)
                } else {
                    let mut m = String::from_str("Invalid intent '");
                    m.append(lowered.as_str());
                    m.append("'. Must be 'transform' or 'analyze'.");
                    Err(WasmError::ValidationError(m))
                }
            },
            _ => Err(WasmError::ValidationError(String::from_str("Intent option must be a string"))),
        },
        None => Ok(ProcessorIntent::Transform),
    }
}

fn parse_fuel_request(config: &ProcessorConfig) -> (r: Option<Result<u64, WasmError>>)
    requires
        config.options.wf(),
    ensures
        !config.options@.contains_key("fuel_level"@) ==> r is None,
        config.options@.contains_key("fuel_level"@) ==> match requested_fuel(config.options@["fuel_level"@]) {
            Ok(n) => r == Some(Ok::<u64, WasmError>(n)),
            Err(m) => r matches Some(Err(WasmError::ValidationError(e))) && e@ == m,
        },
{
    match config.options.get("fuel_level") {
        Some(value) => Some(match value {
            ConfigValue::UInt(n) => Ok(*n),
            ConfigValue::Int(n) => {
                if *n < 0 {
                    Err(WasmError::ValidationError(String::from_str("fuel_level must be a positive number")))
                } else {
                    Ok(*n as u64)
                }
            },
            _ => Err(WasmError::ValidationError(String::from_str("fuel_level must be a number"))),
        }),
        None => None,
    }
}

/// Whether resolving these settings (see `resolve_wasm_settings`) clamps a
/// requested fuel level, which needs the global minimum not to exceed the
/// maximum.
pub fn clamps_fuel_level(config: &ProcessorConfig) -> (b: bool)
    requires
        config.options.wf(),
    ensures
        b == clamps_fuel(*config),
{
    if config.module.is_none() {
        return false;
    }
    match parse_intent(config) {
        Ok(_) => match parse_fuel_request(config) {
            Some(Ok(_)) => true,
            _ => false,
        },
        Err(_) => false,
    }
}

/// Resolves the settings of a WASM processor: the `module` is required; the
/// `intent` option, if given, must be a string naming transform or analyze
/// (transform by default); the `fuel_level` option, if given, must be a
/// non-negative number and is clamped to the global bounds (the global default
/// otherwise). Clamping needs the global minimum not to exceed the maximum.
pub fn resolve_wasm_settings(config: &ProcessorConfig, fuel: &FuelConfig) -> (r: Result<WasmSettings, WasmError>)
    requires
        config.options.wf(),
        clamps_fuel(*config) ==> fuel.spec_minimum() <= fuel.spec_maximum(),
    ensures
        config.module is None ==> (r matches Err(WasmError::ValidationError(m))
            && m@ == "Missing required 'module' field in WASM processor configuration"@),
        config.module matches Some(path) ==> {
            let opts = config.options@;
            let fuel_result: Result<u64, Seq<char>> = if !opts.contains_key("fuel_level"@) {
                Ok(fuel.spec_default())
            } else {
                match requested_fuel(opts["fuel_level"@]) {
                    Ok(n) => Ok(fuel.spec_clamp(n)),
                    Err(m) => Err(m),
                }
            };
            match intent_choice(opts) {
                Err(m) => r matches Err(WasmError::ValidationError(e)) && e@ == m,
                Ok(i) => match fuel_result {
                    Err(m) => r matches Err(WasmError::ValidationError(e)) && e@ == m,
                    Ok(f) => r matches Ok(s) && s.module_file@ == path@ && s.intent == i && s.fuel_level == f,
                },
            }
        },
{
    let module_file = match &config.module {
        Some(p) => p.clone(),
        None => {
            return Err(WasmError::ValidationError(String::from_str("Missing required 'module' field in WASM processor configuration")));
        },
    };
    let intent = match parse_intent(config) {
        Ok(i) => i,
        Err(e) => return Err(e),
    };
    let fuel_level = match parse_fuel_request(config) {
        Some(Ok(requested)) => fuel.validate_and_clamp(requested),
        Some(Err(e)) => return Err(e),
        None => fuel.get_default(),
    };
    Ok(WasmSettings { module_file, intent, fuel_level })
}

/// The text that std's `Debug` formatting gives a list of strings.
pub uninterp spec fn debug_list_text(items: Seq<Seq<char>>) -> Seq<char>;

/// `format!("{:?}", items)`: a list of strings as std's `Debug` formats it.
#[verifier::external_body]
fn debug_list(items: &Vec<String>) -> (s: String)
    ensures
        s@ == debug_list_text(strs_view(items@)),
{
    format!("{:?}", items)
}

/// `r` is the response to `result`: an output becomes the next payload,
/// described under the processor's id by the module's file, the artifact type,
/// the capabilities, and the input and output lengths; an error becomes code
/// 500 with its text and no metadata.
pub open spec fn wasm_responds(
    processor_id: Seq<char>,
    module_file: Seq<char>,
    artifact_type: Seq<char>,
    capabilities: Seq<char>,
    input_length: nat,
    result: Result<Vec<u8>, ProcessingNodeError>,
    r: ProcessorResponse,
) -> bool {
    &&& r.metadata.meta_wf()
    &&& match result {
        Ok(output) => r.outcome matches Some(Outcome::NextPayload(p)) && p@ == output@
            && r.metadata.meta_view() == map![processor_id => map![
                "processor_id"@ => processor_id,
                module_file_key() => module_file,
                "artifact_type"@ => artifact_type,
                "capabilities"@ => capabilities,
                "input_length"@ => decimal(input_length),
                "output_length"@ => decimal(output@.len())
            ]],
        Err(e) => r.outcome matches Some(Outcome::Error(d)) && d.code == 500
            && d.message@ == "WASM execution failed: "@ + e.spec_message()
            && r.metadata.meta_view() == MetaView::empty(),
    }
}

/// The response of a WASM processor from the outcome of its executor (see
/// `wasm_responds`).
pub fn wasm_response(
    processor_id: &String,
    module_file: &String,
    artifact_type: &str,
    capabilities: &str,
    input_length: usize,
    result: Result<Vec<u8>, ProcessingNodeError>,
) -> (r: ProcessorResponse)
    ensures
        wasm_responds(processor_id@, module_file@, artifact_type@, capabilities@, input_length as nat, result, r),
{
    match result {
        Ok(output) => wasm_success_response(processor_id, module_file, artifact_type, capabilities, input_length, output),
        Err(e) => wasm_failure_response(e.message().as_str()),
    }
}

/// A processor backed by a WASM artifact, run by an executor of type `E`.
pub struct WasmProcessor<E> {
    pub processor_id: String,
    pub module_file: String,
    pub executor: E,
    pub intent: ProcessorIntent,
}

impl<E: ProcessingNodeExecutor> WasmProcessor<E> {
    pub fn name(&self) -> (n: &'static str)
        ensures
            n@ == "WasmProcessor"@,
    {
        "WasmProcessor"
    }

    pub fn declared_intent(&self) -> (i: ProcessorIntent)
        ensures
            i == self.intent,
    {
        self.intent
    }

    /// Runs the executor once on the payload; its answer becomes the response
    /// (see `wasm_responds`), described by the executor's artifact type and
    /// capabilities.
    pub fn process(&self, request: ProcessorRequest) -> (r: ProcessorResponse)
        ensures
            exists|res: Result<Vec<u8>, ProcessingNodeError>, a: Seq<char>, c: Seq<char>|
                self.executor.runs(request.payload@, res) && #[trigger] wasm_responds(
                    self.processor_id@,
                    self.module_file@,
                    a,
                    c,
                    request.payload@.len(),
                    res,
                    r,
                ),
    {
        let input = request.payload;
        let result = self.executor.execute(input.as_slice());
        let artifact_type = self.executor.artifact_type();
        let capabilities = debug_list(&self.executor.capabilities());
        let ghost res = result;
        let r = wasm_response(&self.processor_id, &self.module_file, artifact_type, capabilities.as_str(), input.len(), result);
        proof {
            assert(self.executor.runs(request.payload@, res));
            assert(wasm_responds(self.processor_id@, self.module_file@, artifact_type@, capabilities@, request.payload@.len(), res, r));
        }
        r
    }
}

/// The response of a WASM processor whose module ran: the output as payload, and
/// a description of the run as metadata under the processor's id.
pub fn wasm_success_response(
    processor_id: &String,
    module_file: &String,
    artifact_type: &str,
    capabilities: &str,
    input_length: usize,
    output: Vec<u8>,
) -> (r: ProcessorResponse)
    ensures
        r.outcome matches Some(Outcome::NextPayload(p)) && p@ == output@,
        r.metadata.meta_wf(),
        r.metadata.meta_view() == map![processor_id@ => map![
            "processor_id"@ => processor_id@,
            module_file_key() => module_file@,
            "artifact_type"@ => artifact_type@,
            "capabilities"@ => capabilities@,
            "input_length"@ => decimal(input_length as nat),
            "output_length"@ => decimal(output@.len())
        ]],
{
    let output_length = output.len();
    let mut own: StringMap<String> = StringMap::new();
    proof {
        reveal_strlit("processor_id");
        reveal_strlit("module_");
        reveal_strlit("path");
        reveal_strlit("artifact_type");
        reveal_strlit("capabilities");
        reveal_strlit("input_length");
        reveal_strlit("output_length");
        assert("processor_id"@[0] == 'p' && module_file_key()[0] == 'm' && "artifact_type"@[0] == 'a');
        assert("capabilities"@[0] == 'c' && "input_length"@[0] == 'i' && "output_length"@[0] == 'o');
    }
    own.insert(String::from_str("processor_id"), processor_id.clone());
    let mut key = String::from_str("module_");
    key.append("path");
    own.insert(key, module_file.clone());
    own.insert(String::from_str("artifact_type"), artifact_type.to_owned());
    own.insert(String::from_str("capabilities"), capabilities.to_owned());
    own.insert(String::from_str("input_length"), decimal_string(input_length));
    own.insert(String::from_str("output_length"), decimal_string(output_length));
    proof {
        assert(own.str_view() =~= map![
            "processor_id"@ => processor_id@,
            module_file_key() => module_file@,
            "artifact_type"@ => artifact_type@,
            "capabilities"@ => capabilities@,
            "input_length"@ => decimal(input_length as nat),
            "output_length"@ => decimal(output_length as nat)
        ]);
    }
    let ghost ov = own.str_view();
    let mut metadata: StringMap<Metadata> = StringMap::new();
    metadata.insert(processor_id.clone(), Metadata { metadata: own });
    proof {
        assert(metadata.meta_view() =~= map![processor_id@ => ov]);
    }
    ProcessorResponse { outcome: Some(Outcome::NextPayload(output)), metadata }
}

/// The response of a WASM processor whose module failed: code 500.
pub fn wasm_failure_response(error: &str) -> (r: ProcessorResponse)
    ensures
        r.outcome matches Some(Outcome::Error(e)) && e.code == 500 && e.message@ == "WASM execution failed: "@ + error@,
        r.metadata.meta_wf(),
        r.metadata.meta_view() == MetaView::empty(),
{
    let mut m = String::from_str("WASM execution failed: ");
    m.append(error);
    error_response(500, m)
}

} // verus!
