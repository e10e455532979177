//! The local text processors: case changes, reversal, prefix and suffix,
//! token counting and word frequencies.
//!
//! Each processor turns a request into a response: a payload that is not UTF-8
//! gets an error response with code 400; Transform processors answer with the
//! new text, Analyze processors with an empty payload and their findings as
//! metadata under their own name.
use vstd::prelude::*;
use vstd::string::*;
use vstd::utf8::{valid_utf8, decode_utf8, encode_utf8};
use crate::string_map::{StringMap, str_equal};
use crate::proto::{ProcessorRequest, ProcessorResponse, Outcome, ErrorDetail, Metadata, MetaView, ProcessorIntent};
use crate::text::{
    decode_text, to_upper, to_lower, char_to_upper, chars_of, string_from_chars, text_bytes, push_all, split_words,
    join_words, count_lines, decimal_string, is_alphanumeric, str_upper, str_lower, char_upper, char_alphanumeric,
    utf8_error_text, words, join, newlines, decimal, all_ascii, ascii_lowered, ascii_uppered,
};

verus! {

/// The message of the error for a payload that is not UTF-8.
pub open spec fn invalid_utf8_message(payload: Seq<u8>) -> Seq<char> {
    "Invalid UTF-8 input: "@ + utf8_error_text(payload)
}

/// An error response: no metadata, and an error outcome.
pub fn error_response(code: i32, message: String) -> (r: ProcessorResponse)
    ensures
        r.outcome == Some(Outcome::Error(ErrorDetail { code, message })),
        r.metadata.meta_wf(),
        r.metadata.meta_view() == MetaView::empty(),
{
    let r = ProcessorResponse { outcome: Some(Outcome::Error(ErrorDetail { code, message })), metadata: StringMap::new() };
    proof {
        assert(r.metadata.meta_view() =~= MetaView::empty());
    }
    r
}

/// The response for a payload that is not UTF-8.
pub fn invalid_utf8_response(err: String) -> (r: ProcessorResponse)
    ensures
        r.outcome matches Some(Outcome::Error(e)) && e.code == 400 && e.message@ == "Invalid UTF-8 input: "@ + err@,
        r.metadata.meta_wf(),
        r.metadata.meta_view() == MetaView::empty(),
{
    let mut message = String::from_str("Invalid UTF-8 input: ");
    message.append(err.as_str());
    error_response(400, message)
}

/// A response with a text payload and no metadata.
pub fn text_response(text: &String) -> (r: ProcessorResponse)
    ensures
        r.outcome matches Some(Outcome::NextPayload(p)) && p@ == encode_utf8(text@),
        r.metadata.meta_wf(),
        r.metadata.meta_view() == MetaView::empty(),
{
    let r = ProcessorResponse { outcome: Some(Outcome::NextPayload(text_bytes(text))), metadata: StringMap::new() };
    proof {
        assert(r.metadata.meta_view() =~= MetaView::empty());
    }
    r
}

/// How a text's case is changed.
#[derive(Debug, Clone)]
pub enum CaseType {
    Upper,
    Lower,
    Proper,
    Title,
    /// Any other name, which the processor does not support.
    Custom(String),
}

/// The name of a case: the lower-case word of a named case, a custom name as given.
pub open spec fn case_name(c: CaseType) -> Seq<char> {
    match c {
        CaseType::Upper => "upper"@,
        CaseType::Lower => "lower"@,
        CaseType::Proper => "proper"@,
        CaseType::Title => "title"@,
        CaseType::Custom(name) => name@,
    }
}

/// `c` is what the name `s` parses to: the named case whose word is `s` in
/// lower case, else `s` itself as a custom name.
pub open spec fn parsed_as(s: Seq<char>, c: CaseType) -> bool {
    let l = str_lower(s);
    if l == "upper"@ {
        c is Upper
    } else if l == "lower"@ {
        c is Lower
    } else if l == "proper"@ {
        c is Proper
    } else if l == "title"@ {
        c is Title
    } else {
        c matches CaseType::Custom(name) && name@ == s
    }
}

/// The words of the named cases are their own ASCII lower-case forms.
pub proof fn lemma_case_words_lowered()
    ensures
        all_ascii("upper"@) && ascii_lowered("upper"@) == "upper"@,
        all_ascii("lower"@) && ascii_lowered("lower"@) == "lower"@,
        all_ascii("proper"@) && ascii_lowered("proper"@) == "proper"@,
        all_ascii("title"@) && ascii_lowered("title"@) == "title"@,
{
    reveal_strlit("upper");
    reveal_strlit("lower");
    reveal_strlit("proper");
    reveal_strlit("title");
    assert(ascii_lowered("upper"@) =~= "upper"@);
    assert(ascii_lowered("lower"@) =~= "lower"@);
    assert(ascii_lowered("proper"@) =~= "proper"@);
    assert(ascii_lowered("title"@) =~= "title"@);
}

/// A case's name parses back to the case, provided that lower-casing ASCII
/// text is the ASCII mapping (as `str::to_lowercase` documents, and as every
/// call of `to_lower` on the name states) and does not turn a custom name into
/// the word of a named case.
pub proof fn law_case_name_parses_back(c: CaseType)
    requires
        all_ascii(case_name(c)) ==> str_lower(case_name(c)) == ascii_lowered(case_name(c)),
        c is Custom ==> !(str_lower(case_name(c)) == "upper"@ || str_lower(case_name(c)) == "lower"@
            || str_lower(case_name(c)) == "proper"@ || str_lower(case_name(c)) == "title"@),
    ensures
        parsed_as(case_name(c), c),
{
    lemma_case_words_lowered();
    reveal_strlit("upper");
    reveal_strlit("lower");
    reveal_strlit("proper");
    reveal_strlit("title");
    assert("upper"@[0] == 'u' && "lower"@[0] == 'l' && "proper"@[0] == 'p' && "title"@[0] == 't');
}

impl CaseType {
    /// Parses a case name, ignoring letter case; other names are kept as `Custom`.
    pub fn from_str(s: &str) -> (c: CaseType)
        ensures
            parsed_as(s@, c),
            all_ascii(s@) ==> str_lower(s@) == ascii_lowered(s@),
            s@ == "upper"@ ==> c is Upper,
            s@ == "lower"@ ==> c is Lower,
            s@ == "proper"@ ==> c is Proper,
            s@ == "title"@ ==> c is Title,
    {
        proof {
            lemma_case_words_lowered();
        }
        proof {
            reveal_strlit("upper");
            reveal_strlit("lower");
            reveal_strlit("proper");
            reveal_strlit("title");
            assert("upper"@[0] == 'u' && "lower"@[0] == 'l' && "proper"@[0] == 'p' && "title"@[0] == 't');
        }
        let lower = to_lower(s);
        if str_equal(&lower, &String::from_str("upper")) {
            CaseType::Upper
        } else if str_equal(&lower, &String::from_str("lower")) {
            CaseType::Lower
        } else if str_equal(&lower, &String::from_str("proper")) {
            CaseType::Proper
        } else if str_equal(&lower, &String::from_str("title")) {
            CaseType::Title
        } else {
            CaseType::Custom(s.to_owned())
        }
    }

    /// The case's name.
    pub fn as_str(&self) -> (r: &str)
        ensures
            r@ == case_name(*self),
    {
        match self {
            CaseType::Upper => "upper",
            CaseType::Lower => "lower",
            CaseType::Proper => "proper",
            CaseType::Title => "title",
            CaseType::Custom(s) => s.as_str(),
        }
    }
}

/// The configuration of a case change.
#[derive(Debug, Clone)]
pub struct ChangeTextCaseConfig {
    pub case_type: CaseType,
}

/// A word with its first character in upper case and the rest in lower case.
pub open spec fn capitalized(w: Seq<char>) -> Seq<char> {
    if w.len() == 0 { Seq::empty() } else { char_upper(w[0]) + str_lower(w.drop_first()) }
}

/// The short words that title case keeps in lower case (after the first word).
pub open spec fn is_minor_word(w: Seq<char>) -> bool {
    ||| w == "a"@ ||| w == "an"@ ||| w == "the"@ ||| w == "and"@ ||| w == "or"@ ||| w == "but"@ ||| w == "in"@
    ||| w == "on"@ ||| w == "at"@ ||| w == "to"@ ||| w == "for"@ ||| w == "of"@ ||| w == "with"@ ||| w == "by"@
}

/// The word at position `i` in title case.
pub open spec fn title_word(i: int, w: Seq<char>) -> Seq<char> {
    if i == 0 || !is_minor_word(str_lower(w)) { capitalized(w) } else { str_lower(w) }
}

/// The words that title case writes in lower case when they come after the first.
pub open spec fn title_minor_words() -> Seq<Seq<char>> {
    seq![
        "a"@, "an"@, "the"@, "and"@, "or"@, "but"@, "in"@, "on"@, "at"@, "to"@, "for"@, "of"@, "with"@, "by"@
    ]
}

/// Law: in title case, every word after the first whose lower-case form is one
/// of a, an, the, and, or, but, in, on, at, to, for, of, with, by is written in
/// lower case; the first word, and every other word, is capitalized.
pub proof fn law_title_case_words(i: int, w: Seq<char>)
    requires
        i >= 0,
    ensures
        i > 0 && title_minor_words().contains(str_lower(w)) ==> title_word(i, w) == str_lower(w),
        !(i > 0 && title_minor_words().contains(str_lower(w))) ==> title_word(i, w) == capitalized(w),
{
    let l = title_minor_words();
    let x = str_lower(w);
    assert(l[0] == "a"@ && l[1] == "an"@ && l[2] == "the"@ && l[3] == "and"@ && l[4] == "or"@);
    assert(l[5] == "but"@ && l[6] == "in"@ && l[7] == "on"@ && l[8] == "at"@ && l[9] == "to"@);
    assert(l[10] == "for"@ && l[11] == "of"@ && l[12] == "with"@ && l[13] == "by"@);
    if l.contains(x) {
        let k = choose|k: int| 0 <= k < l.len() && l[k] == x;
        assert(0 <= k < 14);
        assert(is_minor_word(x));
    }
    if is_minor_word(x) {
        if x == "a"@ { assert(l[0] == x); }
        if x == "an"@ { assert(l[1] == x); }
        if x == "the"@ { assert(l[2] == x); }
        if x == "and"@ { assert(l[3] == x); }
        if x == "or"@ { assert(l[4] == x); }
        if x == "but"@ { assert(l[5] == x); }
        if x == "in"@ { assert(l[6] == x); }
        if x == "on"@ { assert(l[7] == x); }
        if x == "at"@ { assert(l[8] == x); }
        if x == "to"@ { assert(l[9] == x); }
        if x == "for"@ { assert(l[10] == x); }
        if x == "of"@ { assert(l[11] == x); }
        if x == "with"@ { assert(l[12] == x); }
        if x == "by"@ { assert(l[13] == x); }
        assert(l.contains(x));
    }
}

/// The text in proper case: every word capitalized, joined by single spaces.
pub open spec fn proper_text(t: Seq<char>) -> Seq<char> {
    join(Seq::new(words(t).len(), |i: int| capitalized(words(t)[i])), " "@)
}

/// The text in title case: words capitalized but for minor words after the first, joined by single spaces.
pub open spec fn title_text(t: Seq<char>) -> Seq<char> {
    join(Seq::new(words(t).len(), |i: int| title_word(i, words(t)[i])), " "@)
}

/// The text of a case change, or none for a custom case.
pub open spec fn case_result(c: CaseType, t: Seq<char>) -> Option<Seq<char>> {
    match c {
        CaseType::Upper => Some(str_upper(t)),
        CaseType::Lower => Some(str_lower(t)),
        CaseType::Proper => Some(proper_text(t)),
        CaseType::Title => Some(title_text(t)),
        CaseType::Custom(_) => None,
    }
}

fn capitalize(w: &Vec<char>) -> (r: Vec<char>)
    ensures
        r@ == capitalized(w@),
{
    if w.len() == 0 {
        return Vec::new();
    }
    let first = char_to_upper(w[0]);
    let mut rest: Vec<char> = Vec::new();
    let mut i: usize = 1;
    while i < w.len()
        invariant
            1 <= i <= w@.len(),
            rest@ == w@.subrange(1, i as int),
        decreases w@.len() - i,
    {
        rest.push(w[i]);
        proof {
            assert(w@.subrange(1, i + 1) =~= w@.subrange(1, i as int).push(w@[i as int]));
        }
        i = i + 1;
    }
    proof {
        assert(w@.subrange(1, i as int) =~= w@.drop_first());
    }
    let rest_lower = to_lower(string_from_chars(&rest).as_str());
    let mut r = chars_of(first.as_str());
    push_all(&mut r, &chars_of(rest_lower.as_str()));
    r
}

fn is_minor(w: &String) -> (b: bool)
    ensures
        b == is_minor_word(w@),
{
    str_equal(w, &String::from_str("a")) || str_equal(w, &String::from_str("an"))
        || str_equal(w, &String::from_str("the")) || str_equal(w, &String::from_str("and"))
        || str_equal(w, &String::from_str("or")) || str_equal(w, &String::from_str("but"))
        || str_equal(w, &String::from_str("in")) || str_equal(w, &String::from_str("on"))
        || str_equal(w, &String::from_str("at")) || str_equal(w, &String::from_str("to"))
        || str_equal(w, &String::from_str("for")) || str_equal(w, &String::from_str("of"))
        || str_equal(w, &String::from_str("with")) || str_equal(w, &String::from_str("by"))
}

/// Changes the case of a text: upper, lower, proper or title case.
pub struct ChangeTextCaseProcessor {
    pub config: ChangeTextCaseConfig,
}

impl ChangeTextCaseProcessor {
    pub fn new(config: ChangeTextCaseConfig) -> (p: Self)
        ensures
            p.config == config,
    {
        ChangeTextCaseProcessor { config }
    }

    pub fn upper() -> (p: Self)
        ensures
            p.config.case_type is Upper,
    {
        Self::new(ChangeTextCaseConfig { case_type: CaseType::Upper })
    }

    pub fn lower() -> (p: Self)
        ensures
            p.config.case_type is Lower,
    {
        Self::new(ChangeTextCaseConfig { case_type: CaseType::Lower })
    }

    pub fn proper() -> (p: Self)
        ensures
            p.config.case_type is Proper,
    {
        Self::new(ChangeTextCaseConfig { case_type: CaseType::Proper })
    }

    pub fn title() -> (p: Self)
        ensures
            p.config.case_type is Title,
    {
        Self::new(ChangeTextCaseConfig { case_type: CaseType::Title })
    }

    pub fn name(&self) -> (n: &'static str)
        ensures
            n@ == "change_text_case"@,
    {
        "change_text_case"
    }

    pub fn declared_intent(&self) -> (i: ProcessorIntent)
        ensures
            i == ProcessorIntent::Transform,
    {
        ProcessorIntent::Transform
    }

    /// Changes the case of the payload's text.
    pub fn process(&self, req: ProcessorRequest) -> (r: ProcessorResponse)
        ensures
            r.metadata.meta_wf(),
            r.metadata.meta_view() == MetaView::empty(),
            !valid_utf8(req.payload@) ==> (r.outcome matches Some(Outcome::Error(e))
                && e.code == 400 && e.message@ == invalid_utf8_message(req.payload@)),
            valid_utf8(req.payload@) ==> match case_result(self.config.case_type, decode_utf8(req.payload@)) {
                Some(t) => r.outcome matches Some(Outcome::NextPayload(p)) && p@ == encode_utf8(t),
                None => r.outcome matches Some(Outcome::Error(e)) && e.code == 400
                    && (self.config.case_type matches CaseType::Custom(name)
                        && e.message@ == "Unsupported custom case type: "@ + name@),
            },
            valid_utf8(req.payload@) && all_ascii(decode_utf8(req.payload@)) && self.config.case_type is Upper
                ==> str_upper(decode_utf8(req.payload@)) == ascii_uppered(decode_utf8(req.payload@)),
            valid_utf8(req.payload@) && all_ascii(decode_utf8(req.payload@)) && self.config.case_type is Lower
                ==> str_lower(decode_utf8(req.payload@)) == ascii_lowered(decode_utf8(req.payload@)),
    {
        let ghost payload = req.payload@;
        let input = match decode_text(req.payload) {
            Ok(text) => text,
            Err(e) => {
                return invalid_utf8_response(e);
            },
        };
        let result: String = match &self.config.case_type {
            CaseType::Upper => to_upper(input.as_str()),
            CaseType::Lower => to_lower(input.as_str()),
            CaseType::Proper => {
                let chars = chars_of(input.as_str());
                let ws = split_words(&chars);
                let mut out: Vec<Vec<char>> = Vec::new();
                let mut i: usize = 0;
                while i < ws.len()
                    invariant
                        i <= ws@.len(),
                        ws@.len() == words(chars@).len(),
                        forall|k: int| 0 <= k < ws@.len() ==> (#[trigger] ws@[k])@ == words(chars@)[k],
                        out@.len() == i,
                        forall|k: int| 0 <= k < i ==> (#[trigger] out@[k])@ == capitalized(words(chars@)[k]),
                    decreases ws@.len() - i,
                {
                    out.push(capitalize(&ws[i]));
                    i = i + 1;
                }
                let joined = join_words(&out, &chars_of(" "));
                proof {
                    assert(Seq::new(out@.len(), |k: int| out@[k]@) =~= Seq::new(words(chars@).len(), |k: int| capitalized(words(chars@)[k])));
                }
                string_from_chars(&joined)
            },
            CaseType::Title => {
                let chars = chars_of(input.as_str());
                let ws = split_words(&chars);
                let mut out: Vec<Vec<char>> = Vec::new();
                let mut i: usize = 0;
                while i < ws.len()
                    invariant
                        i <= ws@.len(),
                        ws@.len() == words(chars@).len(),
                        forall|k: int| 0 <= k < ws@.len() ==> (#[trigger] ws@[k])@ == words(chars@)[k],
                        out@.len() == i,
                        forall|k: int| 0 <= k < i ==> (#[trigger] out@[k])@ == title_word(k, words(chars@)[k]),
                    decreases ws@.len() - i,
                {
                    let lower_word = to_lower(string_from_chars(&ws[i]).as_str());
                    if i == 0 || !is_minor(&lower_word) {
                        out.push(capitalize(&ws[i]));
                    } else {
                        out.push(chars_of(lower_word.as_str()));
                    }
                    i = i + 1;
                }
                let joined = join_words(&out, &chars_of(" "));
                proof {
                    assert(Seq::new(out@.len(), |k: int| out@[k]@) =~= Seq::new(words(chars@).len(), |k: int| title_word(k, words(chars@)[k])));
                }
                string_from_chars(&joined)
            },
            CaseType::Custom(custom_type) => {
                let mut message = String::from_str("Unsupported custom case type: ");
                message.append(custom_type.as_str());
                return error_response(400, message);
            },
        };
        text_response(&result)
    }
}


/// The payload with the characters of its text in reverse order.
pub open spec fn reversed_payload(payload: Seq<u8>) -> Seq<u8> {
    encode_utf8(decode_utf8(payload).reverse())
}

/// Law: reversing a text twice gives it back. For a valid UTF-8 payload, the
/// payload that `ReverseTextProcessor::process` makes (`reversed_payload`) is
/// valid UTF-8 again, and the payload it makes of that one is the original.
pub proof fn law_reverse_twice(payload: Seq<u8>)
    requires
        valid_utf8(payload),
    ensures
        valid_utf8(reversed_payload(payload)),
        reversed_payload(reversed_payload(payload)) == payload,
{
    let s = decode_utf8(payload);
    vstd::utf8::encode_utf8_valid_utf8(s.reverse());
    vstd::utf8::encode_utf8_decode_utf8(s.reverse());
    vstd::utf8::decode_utf8_encode_utf8(payload);
    assert(s.reverse().reverse() =~= s);
}

/// Reverses the characters of a text.
pub struct ReverseTextProcessor;

impl ReverseTextProcessor {
    pub fn new() -> (p: Self) {
        ReverseTextProcessor
    }

    pub fn name(&self) -> (n: &'static str)
        ensures
            n@ == "reverse_text"@,
    {
        "reverse_text"
    }

    pub fn declared_intent(&self) -> (i: ProcessorIntent)
        ensures
            i == ProcessorIntent::Transform,
    {
        ProcessorIntent::Transform
    }

    /// The payload's text with its characters in reverse order.
    pub fn process(&self, req: ProcessorRequest) -> (r: ProcessorResponse)
        ensures
            r.metadata.meta_wf(),
            r.metadata.meta_view() == MetaView::empty(),
            !valid_utf8(req.payload@) ==> (r.outcome matches Some(Outcome::Error(e))
                && e.code == 400 && e.message@ == invalid_utf8_message(req.payload@)),
            valid_utf8(req.payload@) ==> (r.outcome matches Some(Outcome::NextPayload(p))
                && p@ == reversed_payload(req.payload@)),
    {
        let input = match decode_text(req.payload) {
            Ok(text) => text,
            Err(e) => {
                return invalid_utf8_response(e);
            },
        };
        let chars = chars_of(input.as_str());
        let n = chars.len();
        let mut rev: Vec<char> = Vec::new();
        let mut k: usize = n;
        while k > 0
            invariant
                n == chars@.len(),
                k <= n,
                rev@.len() == n - k,
                forall|m: int| 0 <= m < n - k ==> #[trigger] rev@[m] == chars@[n - 1 - m],
            decreases k,
        {
            k = k - 1;
            rev.push(chars[k]);
        }
        proof {
            assert(rev@ =~= chars@.reverse());
        }
        text_response(&string_from_chars(&rev))
    }
}

/// The prefix and suffix added to a text.
#[derive(Debug, Clone)]
pub struct PrefixSuffixConfig {
    pub prefix: Option<String>,
    pub suffix: Option<String>,
}

/// The characters of an optional text (none for no text).
pub open spec fn opt_text(s: Option<String>) -> Seq<char> {
    match s {
        Some(t) => t@,
        None => Seq::empty(),
    }
}

/// Adds a prefix and a suffix to a text.
pub struct PrefixSuffixAdderProcessor {
    pub config: PrefixSuffixConfig,
}

impl PrefixSuffixAdderProcessor {
    pub fn new(config: PrefixSuffixConfig) -> (p: Self)
        ensures
            p.config == config,
    {
        PrefixSuffixAdderProcessor { config }
    }

    pub fn with_prefix(prefix: String) -> (p: Self)
        ensures
            p.config.prefix == Some(prefix),
            p.config.suffix is None,
    {
        Self::new(PrefixSuffixConfig { prefix: Some(prefix), suffix: None })
    }

    pub fn with_suffix(suffix: String) -> (p: Self)
        ensures
            p.config.prefix is None,
            p.config.suffix == Some(suffix),
    {
        Self::new(PrefixSuffixConfig { prefix: None, suffix: Some(suffix) })
    }

    pub fn with_prefix_and_suffix(prefix: String, suffix: String) -> (p: Self)
        ensures
            p.config.prefix == Some(prefix),
            p.config.suffix == Some(suffix),
    {
        Self::new(PrefixSuffixConfig { prefix: Some(prefix), suffix: Some(suffix) })
    }

    pub fn name(&self) -> (n: &'static str)
        ensures
            n@ == "prefix_suffix_adder"@,
    {
        "prefix_suffix_adder"
    }

    pub fn declared_intent(&self) -> (i: ProcessorIntent)
        ensures
            i == ProcessorIntent::Transform,
    {
        ProcessorIntent::Transform
    }

    /// The payload's text between the prefix and the suffix.
    pub fn process(&self, req: ProcessorRequest) -> (r: ProcessorResponse)
        ensures
            r.metadata.meta_wf(),
            r.metadata.meta_view() == MetaView::empty(),
            !valid_utf8(req.payload@) ==> (r.outcome matches Some(Outcome::Error(e))
                && e.code == 400 && e.message@ == invalid_utf8_message(req.payload@)),
            valid_utf8(req.payload@) ==> (r.outcome matches Some(Outcome::NextPayload(p))
                && p@ == encode_utf8(opt_text(self.config.prefix) + decode_utf8(req.payload@) + opt_text(self.config.suffix))),
    {
        let input = match decode_text(req.payload) {
            Ok(text) => text,
            Err(e) => {
                return invalid_utf8_response(e);
            },
        };
        let mut result = String::new();
        match &self.config.prefix {
            Some(prefix) => result.append(prefix.as_str()),
            None => {},
        }
        result.append(input.as_str());
        match &self.config.suffix {
            Some(suffix) => result.append(suffix.as_str()),
            None => {},
        }
        proof {
            assert(result@ =~= opt_text(self.config.prefix) + input@ + opt_text(self.config.suffix));
        }
        text_response(&result)
    }
}

/// The metadata of a processor that found `entries`, under the processor's name.
fn findings(name: &str, entries: StringMap<String>) -> (m: StringMap<Metadata>)
    requires
        entries.wf(),
    ensures
        m.meta_wf(),
        m.meta_view() == map![name@ => entries.str_view()],
{
    let mut m: StringMap<Metadata> = StringMap::new();
    let ghost ev = entries.str_view();
    m.insert(name.to_owned(), Metadata { metadata: entries });
    proof {
        assert(m.meta_view() =~= map![name@ => ev]);
    }
    m
}

/// Counts the characters, words and lines of a text.
pub struct TokenCounterProcessor;

impl TokenCounterProcessor {
    pub fn new() -> (p: Self) {
        TokenCounterProcessor
    }

    pub fn name(&self) -> (n: &'static str)
        ensures
            n@ == "token_counter"@,
    {
        "token_counter"
    }

    pub fn declared_intent(&self) -> (i: ProcessorIntent)
        ensures
            i == ProcessorIntent::Analyze,
    {
        ProcessorIntent::Analyze
    }

    /// An empty payload, with the numbers of characters, words and lines (at least
    /// one) of the text as metadata.
    pub fn process(&self, req: ProcessorRequest) -> (r: ProcessorResponse)
        ensures
            r.metadata.meta_wf(),
            !valid_utf8(req.payload@) ==> (r.outcome matches Some(Outcome::Error(e))
                && e.code == 400 && e.message@ == invalid_utf8_message(req.payload@))
                && r.metadata.meta_view() == MetaView::empty(),
            valid_utf8(req.payload@) ==> {
                let t = decode_utf8(req.payload@);
                let lines = newlines(t) + if t.len() > 0 && t.last() != '\n' { 1nat } else { 0nat };
                &&& r.outcome matches Some(Outcome::NextPayload(p)) && p@.len() == 0
                &&& r.metadata.meta_view() == map!["token_counter"@ => map![
                    "char_count"@ => decimal(t.len()),
                    "word_count"@ => decimal(words(t).len()),
                    "line_count"@ => decimal(if lines == 0 { 1nat } else { lines })
                ]]
            },
    {
        let input = match decode_text(req.payload) {
            Ok(text) => text,
            Err(e) => {
                return invalid_utf8_response(e);
            },
        };
        let chars = chars_of(input.as_str());
        let char_count = chars.len();
        let word_count = split_words(&chars).len();
        let lines = count_lines(&chars);
        let line_count: usize = if lines == 0 { 1 } else { lines };
        let mut own: StringMap<String> = StringMap::new();
        proof {
            reveal_strlit("char_count");
            reveal_strlit("word_count");
            reveal_strlit("line_count");
            assert("char_count"@[0] == 'c' && "word_count"@[0] == 'w' && "line_count"@[0] == 'l');
        }
        own.insert(String::from_str("char_count"), decimal_string(char_count));
        own.insert(String::from_str("word_count"), decimal_string(word_count));
        own.insert(String::from_str("line_count"), decimal_string(line_count));
        proof {
            assert(own.str_view() =~= map![
                "char_count"@ => decimal(char_count as nat),
                "word_count"@ => decimal(word_count as nat),
                "line_count"@ => decimal(line_count as nat)
            ]);
        }
        let metadata = findings("token_counter", own);
        ProcessorResponse { outcome: Some(Outcome::NextPayload(Vec::new())), metadata }
    }
}


/// The alphanumeric characters of a word, in order.
pub open spec fn keep_alnum(w: Seq<char>) -> Seq<char>
    decreases w.len(),
{
    if w.len() == 0 {
        Seq::empty()
    } else if char_alphanumeric(w.last()) {
        keep_alnum(w.drop_last()).push(w.last())
    } else {
        keep_alnum(w.drop_last())
    }
}

/// A word reduced to its alphanumeric characters, in lower case.
pub open spec fn normalized(w: Seq<char>) -> Seq<char> {
    str_lower(keep_alnum(w))
}

/// The normalized words that are not empty, in order.
pub open spec fn norm_words(ws: Seq<Seq<char>>) -> Seq<Seq<char>>
    decreases ws.len(),
{
    if ws.len() == 0 {
        Seq::empty()
    } else if normalized(ws.last()).len() > 0 {
        norm_words(ws.drop_last()).push(normalized(ws.last()))
    } else {
        norm_words(ws.drop_last())
    }
}

/// Law: `keep_alnum` keeps exactly the alphanumeric characters of a word, in
/// order, and `norm_words` the non-empty normalized forms of the words, in
/// order.
pub proof fn law_normalized_words(w: Seq<char>, ws: Seq<Seq<char>>)
    ensures
        keep_alnum(w) == w.filter(|c: char| char_alphanumeric(c)),
        norm_words(ws) == ws.map_values(|x: Seq<char>| normalized(x)).filter(|n: Seq<char>| n.len() > 0),
    decreases w.len() + ws.len(),
{
    reveal(Seq::filter);
    if w.len() > 0 {
        law_normalized_words(w.drop_last(), ws);
    }
    if ws.len() > 0 {
        law_normalized_words(w, ws.drop_last());
        let f = |x: Seq<char>| normalized(x);
        assert(ws.map_values(f).drop_last() =~= ws.drop_last().map_values(f));
        assert(ws.map_values(f).last() == normalized(ws.last()));
    }
}

/// The word frequencies of a text: under `word_freq_` and each normalized word,
/// the number of its occurrences; under `total_unique_words`, the number of
/// distinct normalized words.
pub open spec fn frequencies(t: Seq<char>) -> Map<Seq<char>, Seq<char>> {
    let ns = norm_words(words(t));
    Map::new(
        |k: Seq<char>| k == "total_unique_words"@ || (k.len() >= 10 && k.take(10) == "word_freq_"@ && ns.contains(k.skip(10))),
        |k: Seq<char>| if k == "total_unique_words"@ {
            decimal(ns.to_set().len())
        } else {
            decimal(crate::graph_model::occurrences(ns, k.skip(10)))
        },
    )
}

fn normalize(w: &Vec<char>) -> (r: String)
    ensures
        r@ == normalized(w@),
{
    let mut kept: Vec<char> = Vec::new();
    let mut i: usize = 0;
    while i < w.len()
        invariant
            i <= w@.len(),
            kept@ == keep_alnum(w@.take(i as int)),
        decreases w@.len() - i,
    {
        proof {
            assert(w@.take(i + 1).drop_last() =~= w@.take(i as int));
            assert(w@.take(i + 1).last() == w@[i as int]);
        }
        if is_alphanumeric(w[i]) {
            kept.push(w[i]);
        }
        i = i + 1;
    }
    proof {
        assert(w@.take(i as int) =~= w@);
    }
    to_lower(string_from_chars(&kept).as_str())
}

/// Counts the frequencies of the words of a text.
pub struct WordFrequencyAnalyzerProcessor;

impl WordFrequencyAnalyzerProcessor {
    pub fn new() -> (p: Self) {
        WordFrequencyAnalyzerProcessor
    }

    pub fn name(&self) -> (n: &'static str)
        ensures
            n@ == "word_frequency_analyzer"@,
    {
        "word_frequency_analyzer"
    }

    pub fn declared_intent(&self) -> (i: ProcessorIntent)
        ensures
            i == ProcessorIntent::Analyze,
    {
        ProcessorIntent::Analyze
    }

    /// An empty payload, with the word frequencies of the text as metadata.
    pub fn process(&self, req: ProcessorRequest) -> (r: ProcessorResponse)
        ensures
            r.metadata.meta_wf(),
            !valid_utf8(req.payload@) ==> (r.outcome matches Some(Outcome::Error(e))
                && e.code == 400 && e.message@ == invalid_utf8_message(req.payload@))
                && r.metadata.meta_view() == MetaView::empty(),
            valid_utf8(req.payload@) ==> {
                &&& r.outcome matches Some(Outcome::NextPayload(p)) && p@.len() == 0
                &&& r.metadata.meta_view() == map!["word_frequency_analyzer"@ => frequencies(decode_utf8(req.payload@))]
            },
    {
        let input = match decode_text(req.payload) {
            Ok(text) => text,
            Err(e) => {
                return invalid_utf8_response(e);
            },
        };
        let chars = chars_of(input.as_str());
        let ws = split_words(&chars);
        let ghost wsv = words(chars@);
        let ghost ns = norm_words(wsv);
        let mut counts: StringMap<usize> = StringMap::new();
        let mut i: usize = 0;
        proof {
            assert(wsv.take(0) =~= Seq::<Seq<char>>::empty());
        }
        while i < ws.len()
            invariant
                wsv == words(chars@),
                ns == norm_words(wsv),
                i <= ws@.len(),
                ws@.len() == wsv.len(),
                forall|k: int| 0 <= k < ws@.len() ==> (#[trigger] ws@[k])@ == wsv[k],
                counts.wf(),
                norm_words(wsv.take(i as int)).len() <= i,
                forall|w: Seq<char>| #[trigger] counts@.contains_key(w) <==> norm_words(wsv.take(i as int)).contains(w),
                forall|w: Seq<char>| #[trigger] counts@.contains_key(w) ==>
                    counts@[w] == crate::graph_model::occurrences(norm_words(wsv.take(i as int)), w),
            decreases ws@.len() - i,
        {
            let ghost prev = norm_words(wsv.take(i as int));
            proof {
                assert(wsv.take(i + 1).drop_last() =~= wsv.take(i as int));
                assert(wsv.take(i + 1).last() == wsv[i as int]);
            }
            let nw = normalize(&ws[i]);
            let nonempty = nw.as_str().unicode_len() > 0;
            if nonempty {
                let ghost nv = nw@;
                let ghost next = prev.push(nv);
                let ghost before = counts@;
                proof {
                    assert(norm_words(wsv.take(i + 1)) == next);
                    crate::string_map::lemma_push_contains(prev, nv);
                    assert(next.drop_last() =~= prev);
                    crate::graph_model::lemma_occurrences_le_len(prev, nv);
                }
                match counts.position(&nw) {
                    Some(p) => {
                        proof {
                            counts.lemma_value_at(p as int);
                        }
                        let c: usize = *counts.value_at(p);
                        proof {
                            assert(c == before[nv]);
                            assert(before.contains_key(nv));
                            assert(before[nv] == crate::graph_model::occurrences(prev, nv));
                            assert(c <= prev.len());
                        }
                        counts.replace_value_at(p, c + 1);
                        proof {
                            assert(counts@ == before.insert(nv, (c + 1) as usize));
                        }
                    },
                    None => {
                        counts.insert(nw, 1);
                        proof {
                            crate::graph_model::lemma_occurrences_contains(prev, nv);
                            assert(counts@ == before.insert(nv, 1usize));
                        }
                    },
                }
                proof {
                    assert forall|w: Seq<char>| #[trigger] counts@.contains_key(w) ==
                        norm_words(wsv.take(i + 1)).contains(w) by {}
                    assert forall|w: Seq<char>| #[trigger] counts@.contains_key(w) implies
                        counts@[w] == crate::graph_model::occurrences(norm_words(wsv.take(i + 1)), w) by {
                        assert(crate::graph_model::occurrences(next, w)
                            == crate::graph_model::occurrences(prev, w) + if w == nv { 1nat } else { 0nat });
                        if w == nv && !before.contains_key(nv) {
                            crate::graph_model::lemma_occurrences_contains(prev, nv);
                        }
                    }
                }
            } else {
                proof {
                    assert(norm_words(wsv.take(i + 1)) == prev);
                }
            }
            i = i + 1;
        }
        proof {
            assert(wsv.take(i as int) =~= wsv);
        }
        let mut analysis: StringMap<String> = StringMap::new();
        let n = counts.len();
        let mut j: usize = 0;
        proof {
            reveal_strlit("word_freq_");
            reveal_strlit("total_unique_words");
            assert("word_freq_"@.len() == 10);
            assert(analysis.str_view() =~= Map::new(
                |k: Seq<char>| k.len() >= 10 && k.take(10) == "word_freq_"@ && counts.keys_seq().take(0).contains(k.skip(10)),
                |k: Seq<char>| decimal(counts@[k.skip(10)] as nat),
            ));
        }
        while j < n
            invariant
                n == counts.spec_len(),
                counts.wf(),
                j <= n,
                "word_freq_"@.len() == 10,
                analysis.wf(),
                analysis.spec_len() == j,
                analysis.str_view() == Map::new(
                    |k: Seq<char>| k.len() >= 10 && k.take(10) == "word_freq_"@ && counts.keys_seq().take(j as int).contains(k.skip(10)),
                    |k: Seq<char>| decimal(counts@[k.skip(10)] as nat),
                ),
            decreases n - j,
        {
            proof {
                counts.lemma_value_at(j as int);
            }
            let word = counts.key_at(j);
            let c: usize = *counts.value_at(j);
            let mut key = String::from_str("word_freq_");
            key.append(word.as_str());
            let ghost kv = key@;
            let ghost wv = word@;
            proof {
                assert(kv.take(10) =~= "word_freq_"@);
                assert(kv.skip(10) =~= wv);
                let t0 = counts.keys_seq().take(j as int);
                assert(counts.keys_seq().take(j + 1) =~= t0.push(wv));
                crate::string_map::lemma_push_contains(t0, wv);
                assert(!t0.contains(wv)) by {
                    if t0.contains(wv) {
                        let m = choose|m: int| 0 <= m < t0.len() && t0[m] == wv;
                        assert(counts.keys_seq()[m] == counts.keys_seq()[j as int]);
                    }
                }
                assert(!analysis.has_key(kv)) by {
                    assert(analysis@.contains_key(kv) == analysis.has_key(kv));
                    assert(analysis.str_view().contains_key(kv) == analysis@.contains_key(kv));
                }
            }
            let ghost before = analysis;
            let ghost target0 = Map::new(
                |k: Seq<char>| k.len() >= 10 && k.take(10) == "word_freq_"@ && counts.keys_seq().take(j as int).contains(k.skip(10)),
                |k: Seq<char>| decimal(counts@[k.skip(10)] as nat),
            );
            let ghost target1 = Map::new(
                |k: Seq<char>| k.len() >= 10 && k.take(10) == "word_freq_"@ && counts.keys_seq().take(j + 1).contains(k.skip(10)),
                |k: Seq<char>| decimal(counts@[k.skip(10)] as nat),
            );
            let value = decimal_string(c);
            let ghost vv = value@;
            analysis.insert(key, value);
            proof {
                assert(c == counts@[wv]);
                assert(vv == decimal(counts@[wv] as nat));
                assert(analysis.str_view() =~= before.str_view().insert(kv, vv)) by {
                    assert forall|k: Seq<char>| #[trigger] analysis.str_view().contains_key(k) <==> before.str_view().insert(kv, vv).contains_key(k) by {}
                    assert forall|k: Seq<char>| #[trigger] analysis.str_view().contains_key(k) implies analysis.str_view()[k] == before.str_view().insert(kv, vv)[k] by {
                        if k != kv {
                            assert(analysis@[k] == before@[k]);
                        }
                    }
                }
                assert(target1 =~= target0.insert(kv, vv)) by {
                    assert forall|k: Seq<char>| #[trigger] target1.contains_key(k) <==> target0.insert(kv, vv).contains_key(k) by {
                        if k.len() >= 10 && k.take(10) == "word_freq_"@ && k.skip(10) == wv {
                            assert(k =~= k.take(10) + k.skip(10));
                            assert(kv =~= kv.take(10) + kv.skip(10));
                        }
                    }
                }
            }
            j = j + 1;
        }
        let total = analysis.len();
        proof {
            crate::graph_model::lemma_take_full(counts.keys_seq());
            assert("total_unique_words"@[0] == 't');
            assert("word_freq_"@[0] == 'w');
            assert(!analysis.str_view().contains_key("total_unique_words"@)) by {
                let k = "total_unique_words"@;
                if k.take(10) == "word_freq_"@ {
                    assert(k.take(10)[0] == k[0]);
                }
            }
            assert(!analysis.has_key("total_unique_words"@)) by {
                assert(analysis@.contains_key("total_unique_words"@) == analysis.has_key("total_unique_words"@));
            }
            // the distinct words are exactly the keys of the counts
            assert(counts.keys_seq().to_set() =~= ns.to_set()) by {
                assert forall|w: Seq<char>| counts.keys_seq().to_set().contains(w) <==> ns.to_set().contains(w) by {
                    assert(counts@.contains_key(w) == counts.has_key(w));
                }
            }
            counts.keys_seq().unique_seq_to_set();
        }
        let ghost before_total = analysis;
        let total_value = decimal_string(total);
        let ghost tv = total_value@;
        analysis.insert(String::from_str("total_unique_words"), total_value);
        proof {
            let tk = "total_unique_words"@;
            assert(analysis.str_view() =~= before_total.str_view().insert(tk, tv)) by {
                assert forall|k: Seq<char>| #[trigger] analysis.str_view().contains_key(k) <==> before_total.str_view().insert(tk, tv).contains_key(k) by {}
                assert forall|k: Seq<char>| #[trigger] analysis.str_view().contains_key(k) implies analysis.str_view()[k] == before_total.str_view().insert(tk, tv)[k] by {
                    if k != tk {
                        assert(analysis@[k] == before_total@[k]);
                    }
                }
            }
            assert(total == ns.to_set().len());
            let f = frequencies(chars@);
            assert forall|k: Seq<char>| #[trigger] analysis.str_view().contains_key(k) <==> f.contains_key(k) by {
                if k.len() >= 10 && k.take(10) == "word_freq_"@ {
                    assert(counts@.contains_key(k.skip(10)) == counts.has_key(k.skip(10)));
                }
            }
            assert forall|k: Seq<char>| #[trigger] analysis.str_view().contains_key(k) implies analysis.str_view()[k] == f[k] by {
                if k != tk {
                    assert(counts@.contains_key(k.skip(10)) == counts.has_key(k.skip(10)));
                    assert(counts@.contains_key(k.skip(10)));
                }
            }
            assert(analysis.str_view() =~= f);
        }
        let metadata = findings("word_frequency_analyzer", analysis);
        ProcessorResponse { outcome: Some(Outcome::NextPayload(Vec::new())), metadata }
    }
}

} // verus!
