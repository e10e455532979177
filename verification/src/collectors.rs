//! Result collectors: processors that combine the results of their
//! dependencies into one response.
//!
//! The dependency results arrive as a map from dependency id to
//! `CollectableResult`. A collector picks the first successful payload, joins
//! the text payloads, merges JSON objects, or builds a JSON document of a
//! primary payload with metadata from other dependencies. Any failure is an
//! error response with code 500.
use vstd::prelude::*;
use vstd::string::*;
use vstd::utf8::{valid_utf8, decode_utf8, encode_utf8};
use crate::string_map::{StringMap, StringSet, strs_view, str_equal};
use crate::proto::{ProcessorRequest, ProcessorResponse, Outcome, ErrorDetail, MetaView, ProcessorIntent};
use crate::priority_work_queue::{chars_lt, chars_less};
use crate::text::{decode_text, chars_of, text_bytes, join, join_words, push_all, string_from_chars};
use crate::processors::error_response;
use crate::config::{CollectionStrategy, ConflictResolution};
use crate::json::{
    MemberView, Members, json_object_members, json_object_text, json_string_text, set_member, member_keys, merged_value,
    parse_object, object_text, string_text, merge_json_values, members_view,
};

verus! {

/// The result of one dependency, as a collector receives it.
#[derive(Debug, Clone)]
pub struct CollectableResult {
    pub success: bool,
    pub payload: Option<Vec<u8>>,
    pub error_code: Option<i32>,
    pub error_message: Option<String>,
}

/// The payload of a successful result that has one.
pub open spec fn success_payload(r: CollectableResult) -> Option<Seq<u8>> {
    if r.success && r.payload is Some { Some(r.payload->0@) } else { None }
}

/// The text of a successful result whose payload is UTF-8.
pub open spec fn success_text(r: CollectableResult) -> Option<Seq<char>> {
    match success_payload(r) {
        Some(p) => if valid_utf8(p) { Some(decode_utf8(p)) } else { None },
        None => None,
    }
}

/// A collector's error response: code 500 and no metadata.
pub open spec fn is_collector_error(r: ProcessorResponse, message: Seq<char>) -> bool {
    &&& r.outcome matches Some(Outcome::Error(e)) && e.code == 500 && e.message@ == message
    &&& r.metadata.meta_wf()
    &&& r.metadata.meta_view() == MetaView::empty()
}

/// A collector's payload response: the payload and no metadata.
pub open spec fn is_collector_payload(r: ProcessorResponse, payload: Seq<u8>) -> bool {
    &&& r.outcome matches Some(Outcome::NextPayload(p)) && p@ == payload
    &&& r.metadata.meta_wf()
    &&& r.metadata.meta_view() == MetaView::empty()
}

/// The error response of a collector.
pub fn collector_error(message: String) -> (r: ProcessorResponse)
    ensures
        is_collector_error(r, message@),
{
    error_response(500, message)
}

fn payload_response(payload: Vec<u8>) -> (r: ProcessorResponse)
    ensures
        is_collector_payload(r, payload@),
{
    let r = ProcessorResponse { outcome: Some(Outcome::NextPayload(payload)), metadata: StringMap::new() };
    proof {
        assert(r.metadata.meta_view() =~= MetaView::empty());
    }
    r
}

/// The error response for a payload that does not hold dependency results.
pub fn deserialize_error_response(reason: &str) -> (r: ProcessorResponse)
    ensures
        is_collector_error(r, "Failed to deserialize dependency results: "@ + reason@),
{
    let mut message = String::from_str("Failed to deserialize dependency results: ");
    message.append(reason);
    collector_error(message)
}

/// A copy of a byte vector.
fn copy_bytes(v: &Vec<u8>) -> (c: Vec<u8>)
    ensures
        c@ == v@,
{
    let c = v.clone();
    proof {
        assert(c@ =~= v@);
    }
    c
}

/// Whether `k` is the least id (in character order) among the ids of `m` with a successful payload.
pub open spec fn least_successful(m: StringMap<CollectableResult>, k: Seq<char>) -> bool {
    &&& m@.contains_key(k)
    &&& success_payload(m@[k]) is Some
    &&& forall|k2: Seq<char>| #[trigger] m@.contains_key(k2) && success_payload(m@[k2]) is Some ==> k2 == k || chars_lt(k, k2)
}

/// The successful payload of the dependency with the least id, if any.
pub fn first_by_id(results: &StringMap<CollectableResult>) -> (r: Option<Vec<u8>>)
    requires
        results.wf(),
    ensures
        match r {
            Some(p) => exists|k: Seq<char>| #[trigger] least_successful(*results, k) && p@ == success_payload(results@[k])->0,
            None => forall|k: Seq<char>| #[trigger] results@.contains_key(k) ==> success_payload(results@[k]) is None,
        },
{
    let n = results.len();
    let mut best: Option<usize> = None;
    let mut i: usize = 0;
    while i < n
        invariant
            n == results.spec_len(),
            results.wf(),
            i <= n,
            match best {
                Some(b) => b < i && success_payload(results.values_seq()[b as int]) is Some
                    && forall|j: int| 0 <= j < i && success_payload(#[trigger] results.values_seq()[j]) is Some
                        ==> j == b || chars_lt(results.keys_seq()[b as int], results.keys_seq()[j]),
                None => forall|j: int| 0 <= j < i ==> success_payload(#[trigger] results.values_seq()[j]) is None,
            },
        decreases n - i,
    {
        let r = results.value_at(i);
        if r.success && r.payload.is_some() {
            match best {
                None => {
                    best = Some(i);
                },
                Some(b) => {
                    let ki = chars_of(results.key_at(i).as_str());
                    let kb = chars_of(results.key_at(b).as_str());
                    if chars_less(&ki, &kb) {
                        proof {
                            assert forall|j: int| 0 <= j < i + 1 && success_payload(#[trigger] results.values_seq()[j]) is Some
                                implies j == i || chars_lt(results.keys_seq()[i as int], results.keys_seq()[j]) by {
                                if j != i {
                                    if j != b {
                                        lemma_chars_lt_trans(results.keys_seq()[i as int], results.keys_seq()[b as int], results.keys_seq()[j]);
                                    }
                                }
                            }
                        }
                        best = Some(i);
                    } else {
                        proof {
                            assert(results.keys_seq()[i as int] != results.keys_seq()[b as int]);
                            lemma_chars_lt_total(results.keys_seq()[b as int], results.keys_seq()[i as int]);
                        }
                    }
                },
            }
        }
        i = i + 1;
    }
    match best {
        Some(b) => {
            proof {
                results.lemma_value_at(b as int);
                let kb = results.keys_seq()[b as int];
                assert forall|k2: Seq<char>| #[trigger] results@.contains_key(k2) && success_payload(results@[k2]) is Some
                    implies k2 == kb || chars_lt(kb, k2) by {
                    let j = results.keys_seq().index_of(k2);
                    results.lemma_value_at(j);
                }
                assert(least_successful(*results, kb));
            }
            let r = results.value_at(b);
            match &r.payload {
                Some(p) => Some(copy_bytes(p)),
                None => None,
            }
        },
        None => {
            proof {
                assert forall|k: Seq<char>| #[trigger] results@.contains_key(k) implies success_payload(results@[k]) is None by {
                    let j = results.keys_seq().index_of(k);
                    results.lemma_value_at(j);
                }
            }
            None
        },
    }
}

proof fn lemma_chars_lt_trans(a: Seq<char>, b: Seq<char>, c: Seq<char>)
    requires
        chars_lt(a, b),
        chars_lt(b, c),
    ensures
        chars_lt(a, c),
{
    crate::priority_work_queue::lemma_outranks_order((c, 0usize, false), (b, 0usize, false), (a, 0usize, false));
}

proof fn lemma_chars_lt_total(a: Seq<char>, b: Seq<char>)
    ensures
        a == b || chars_lt(a, b) || chars_lt(b, a),
{
    crate::priority_work_queue::lemma_outranks_order((a, 0usize, false), (b, 0usize, false), (a, 0usize, false));
}

/// Returns the successful payload of the dependency with the least id.
pub struct FirstAvailableCollector;

impl FirstAvailableCollector {
    pub fn new() -> (c: Self) {
        FirstAvailableCollector
    }

    pub fn name(&self) -> (n: &'static str)
        ensures
            n@ == "first_available_collector"@,
    {
        "first_available_collector"
    }

    pub fn error_response(&self, message: &str) -> (r: ProcessorResponse)
        ensures
            is_collector_error(r, message@),
    {
        collector_error(message.to_owned())
    }

    /// The successful payload of the dependency with the least id; an error when none succeeded.
    pub fn collect_results(&self, dependency_results: &StringMap<CollectableResult>, request: &ProcessorRequest) -> (r: ProcessorResponse)
        requires
            dependency_results.wf(),
        ensures
            (exists|k: Seq<char>| #[trigger] least_successful(*dependency_results, k)
                && is_collector_payload(r, success_payload(dependency_results@[k])->0))
            || ((forall|k: Seq<char>| #[trigger] dependency_results@.contains_key(k)
                ==> success_payload(dependency_results@[k]) is None)
                && is_collector_error(r, "No successful dependency results found"@)),
    {
        match first_by_id(dependency_results) {
            Some(p) => payload_response(p),
            None => self.error_response("No successful dependency results found"),
        }
    }
}


/// The ids are in strictly ascending character order.
pub open spec fn ids_ascending(ks: Seq<Seq<char>>) -> bool {
    forall|i: int, j: int| 0 <= i < j < ks.len() ==> chars_lt(#[trigger] ks[i], #[trigger] ks[j])
}

/// The ids of a map, each once, in ascending order.
pub fn sorted_ids(m: &StringMap<CollectableResult>) -> (ids: Vec<String>)
    requires
        m.wf(),
    ensures
        ids_ascending(strs_view(ids@)),
        forall|k: Seq<char>| #[trigger] strs_view(ids@).contains(k) <==> m@.contains_key(k),
{
    let n = m.len();
    let mut ids: Vec<String> = Vec::new();
    let mut i: usize = 0;
    while i < n
        invariant
            n == m.spec_len(),
            m.wf(),
            i <= n,
            ids_ascending(strs_view(ids@)),
            forall|k: Seq<char>| #[trigger] strs_view(ids@).contains(k) <==> m.keys_seq().take(i as int).contains(k),
        decreases n - i,
    {
        let key = m.key_at(i);
        let kc = chars_of(key.as_str());
        let ghost kv = key@;
        let ghost before = strs_view(ids@);
        proof {
            assert(m.keys_seq().take(i + 1) =~= m.keys_seq().take(i as int).push(kv));
            crate::string_map::lemma_push_contains(m.keys_seq().take(i as int), kv);
            assert(!before.contains(kv)) by {
                if m.keys_seq().take(i as int).contains(kv) {
                    let j = choose|j: int| 0 <= j < i && m.keys_seq().take(i as int)[j] == kv;
                    assert(m.keys_seq()[j] == m.keys_seq()[i as int]);
                }
            }
        }
        let mut p: usize = 0;
        while p < ids.len()
            invariant
                kc@ == kv,
                before == strs_view(ids@),
                p <= ids@.len(),
                forall|q: int| 0 <= q < p ==> chars_lt(#[trigger] before[q], kv),
            ensures
                p <= ids@.len(),
                forall|q: int| 0 <= q < p ==> chars_lt(#[trigger] before[q], kv),
                p < ids@.len() ==> !chars_lt(before[p as int], kv),
            decreases ids@.len() - p,
        {
            let pc = chars_of(ids[p].as_str());
            proof {
                assert(before[p as int] == ids@[p as int]@);
            }
            if !chars_less(&pc, &kc) {
                break;
            }
            p = p + 1;
        }
        proof {
            if p < ids@.len() {
                assert(!chars_lt(before[p as int], kv));
                assert(before.contains(before[p as int]));
                lemma_chars_lt_total(before[p as int], kv);
                assert(chars_lt(kv, before[p as int]));
            }
        }
        ids.insert(p, key.clone());
        proof {
            let after = strs_view(ids@);
            assert(after =~= before.insert(p as int, kv));
            assert forall|a: int, b: int| 0 <= a < b < after.len() implies chars_lt(#[trigger] after[a], #[trigger] after[b]) by {
                if b < p {
                } else if b == p {
                    assert(chars_lt(before[a], kv));
                } else if a < p {
                    assert(after[b] == before[b - 1]);
                    if b - 1 == p {
                        assert(chars_lt(before[a], kv));
                        assert(chars_lt(kv, before[p as int]));
                        lemma_chars_lt_trans(before[a], kv, before[p as int]);
                    } else {
                        assert(chars_lt(before[a], before[p as int]));
                        assert(chars_lt(before[p as int], before[b - 1]));
                        lemma_chars_lt_trans(before[a], before[p as int], before[b - 1]);
                    }
                } else if a == p {
                    assert(after[b] == before[b - 1]);
                    if b - 1 == p {
                        assert(chars_lt(kv, before[p as int]));
                    } else {
                        assert(chars_lt(before[p as int], before[b - 1]));
                        lemma_chars_lt_trans(kv, before[p as int], before[b - 1]);
                    }
                } else {
                    assert(after[a] == before[a - 1] && after[b] == before[b - 1]);
                }
            }
            assert forall|k: Seq<char>| #[trigger] after.contains(k) <==> m.keys_seq().take(i + 1).contains(k) by {
                if after.contains(k) {
                    let q = choose|q: int| 0 <= q < after.len() && after[q] == k;
                    if q < p {
                        assert(before[q] == k);
                        assert(before.contains(k));
                    } else if q > p {
                        assert(before[q - 1] == k);
                        assert(before.contains(k));
                    }
                }
                if before.contains(k) {
                    let q = choose|q: int| 0 <= q < before.len() && before[q] == k;
                    if q < p {
                        assert(after[q] == k);
                    } else {
                        assert(after[q + 1] == k);
                    }
                }
                if k == kv {
                    assert(after[p as int] == kv);
                }
            }
        }
        i = i + 1;
    }
    proof {
        crate::graph_model::lemma_take_full(m.keys_seq());
        assert forall|k: Seq<char>| #[trigger] strs_view(ids@).contains(k) <==> m@.contains_key(k) by {
            assert(m@.contains_key(k) == m.has_key(k));
        }
    }
    ids
}

/// The texts of the successful UTF-8 results of `ks`, in order.
pub open spec fn texts_of(m: Map<Seq<char>, CollectableResult>, ks: Seq<Seq<char>>) -> Seq<Seq<char>>
    decreases ks.len(),
{
    if ks.len() == 0 {
        Seq::empty()
    } else {
        let r = texts_of(m, ks.drop_last());
        match success_text(m[ks.last()]) {
            Some(t) => r.push(t),
            None => r,
        }
    }
}

/// Law: the texts joined by a concatenation are exactly those of the
/// dependencies that succeeded with UTF-8 text, each once, in the order of the
/// ids.
pub proof fn law_texts_are_the_successful_ones(m: Map<Seq<char>, CollectableResult>, ks: Seq<Seq<char>>)
    ensures
        texts_of(m, ks) == ks.filter(|k: Seq<char>| success_text(m[k]) is Some).map_values(
            |k: Seq<char>| success_text(m[k])->0,
        ),
    decreases ks.len(),
{
    reveal(Seq::filter);
    let p = |k: Seq<char>| success_text(m[k]) is Some;
    let f = |k: Seq<char>| success_text(m[k])->0;
    if ks.len() == 0 {
        assert(ks.filter(p) =~= Seq::<Seq<char>>::empty());
        assert(ks.filter(p).map_values(f) =~= Seq::<Seq<char>>::empty());
    } else {
        let d = ks.drop_last();
        law_texts_are_the_successful_ones(m, d);
        if p(ks.last()) {
            assert(ks.filter(p) == d.filter(p).push(ks.last()));
            assert(ks.filter(p).map_values(f) =~= d.filter(p).map_values(f).push(f(ks.last())));
        } else {
            assert(ks.filter(p) == d.filter(p));
        }
    }
}

/// The ids of `m` in ascending order (there is exactly one such sequence).
pub open spec fn ascending_ids_of(m: Map<Seq<char>, CollectableResult>, ks: Seq<Seq<char>>) -> bool {
    &&& ids_ascending(ks)
    &&& forall|k: Seq<char>| #[trigger] ks.contains(k) <==> m.contains_key(k)
}

/// The texts of the successful UTF-8 results in ascending id order, joined by
/// `separator`; `None` when there is none.
pub fn concatenate_texts(dependency_results: &StringMap<CollectableResult>, separator: &str) -> (r: Option<String>)
    requires
        dependency_results.wf(),
    ensures
        exists|ks: Seq<Seq<char>>| #[trigger] ascending_ids_of(dependency_results@, ks) && {
            let texts = texts_of(dependency_results@, ks);
            &&& texts.len() == 0 ==> r is None
            &&& texts.len() > 0 ==> (r matches Some(s) && s@ == join(texts, separator@))
        },
{
    let ids = sorted_ids(dependency_results);
    let ghost ks = strs_view(ids@);
    let mut parts: Vec<Vec<char>> = Vec::new();
    let mut i: usize = 0;
    while i < ids.len()
        invariant
            ks == strs_view(ids@),
            dependency_results.wf(),
            forall|k: Seq<char>| #[trigger] ks.contains(k) <==> dependency_results@.contains_key(k),
            i <= ids@.len(),
            parts@.len() == texts_of(dependency_results@, ks.take(i as int)).len(),
            forall|q: int| 0 <= q < parts@.len() ==> (#[trigger] parts@[q])@ == texts_of(dependency_results@, ks.take(i as int))[q],
        decreases ids@.len() - i,
    {
        let ghost prev = texts_of(dependency_results@, ks.take(i as int));
        proof {
            assert(ks.take(i + 1).drop_last() =~= ks.take(i as int));
            assert(ks.take(i + 1).last() == ids@[i as int]@);
            assert(ks.contains(ks[i as int]));
        }
        match dependency_results.get(ids[i].as_str()) {
            Some(result) => {
                if result.success {
                    match &result.payload {
                        Some(payload) => {
                            match decode_text(copy_bytes(payload)) {
                                Ok(text) => {
                                    let ghost before = parts@;
                                    parts.push(chars_of(text.as_str()));
                                    proof {
                                        assert forall|q: int| 0 <= q < parts@.len() implies (#[trigger] parts@[q])@
                                            == texts_of(dependency_results@, ks.take(i + 1))[q] by {
                                            if q < before.len() {
                                                assert(parts@[q] == before[q]);
                                            }
                                        }
                                    }
                                },
                                Err(_) => {},
                            }
                        },
                        None => {},
                    }
                }
            },
            None => {},
        }
        i = i + 1;
    }
    proof {
        assert(ks.take(i as int) =~= ks);
        assert(ascending_ids_of(dependency_results@, ks));
    }
    if parts.len() == 0 {
        None
    } else {
        let joined = join_words(&parts, &chars_of(separator));
        proof {
            assert(Seq::new(parts@.len(), |q: int| parts@[q]@) =~= texts_of(dependency_results@, ks));
        }
        Some(string_from_chars(&joined))
    }
}

/// Joins the text payloads of the successful dependencies, in ascending id order.
pub struct ConcatenateCollector {
    pub separator: String,
}

impl ConcatenateCollector {
    /// No separator joins the texts directly.
    pub fn new(separator: Option<String>) -> (c: Self)
        ensures
            c.separator@ == match separator { Some(s) => s@, None => Seq::<char>::empty() },
    {
        ConcatenateCollector {
            separator: match separator {
                Some(s) => s,
                None => String::new(),
            },
        }
    }

    pub fn name(&self) -> (n: &'static str)
        ensures
            n@ == "concatenate_collector"@,
    {
        "concatenate_collector"
    }

    pub fn error_response(&self, message: &str) -> (r: ProcessorResponse)
        ensures
            is_collector_error(r, message@),
    {
        collector_error(message.to_owned())
    }

    /// The joined texts; an error when no dependency gave a text.
    pub fn collect_results(&self, dependency_results: &StringMap<CollectableResult>, request: &ProcessorRequest) -> (r: ProcessorResponse)
        requires
            dependency_results.wf(),
        ensures
            exists|ks: Seq<Seq<char>>| #[trigger] ascending_ids_of(dependency_results@, ks) && {
                let texts = texts_of(dependency_results@, ks);
                &&& texts.len() == 0 ==> is_collector_error(r, "No successful dependency results to concatenate"@)
                &&& texts.len() > 0 ==> is_collector_payload(r, encode_utf8(join(texts, self.separator@)))
            },
    {
        match concatenate_texts(dependency_results, self.separator.as_str()) {
            Some(text) => payload_response(text_bytes(&text)),
            None => self.error_response("No successful dependency results to concatenate"),
        }
    }
}

/// Stands for a combiner that is not implemented: always an error.
pub struct CustomCollector {
    pub combiner_impl: String,
}

impl CustomCollector {
    pub fn new(combiner_impl: String) -> (c: Self)
        ensures
            c.combiner_impl == combiner_impl,
    {
        CustomCollector { combiner_impl }
    }

    pub fn name(&self) -> (n: &'static str)
        ensures
            n@ == "custom_collector"@,
    {
        "custom_collector"
    }

    pub fn error_response(&self, message: &str) -> (r: ProcessorResponse)
        ensures
            is_collector_error(r, message@),
    {
        collector_error(message.to_owned())
    }

    /// Always the error that the combiner is not implemented.
    pub fn collect_results(&self, dependency_results: &StringMap<CollectableResult>, request: &ProcessorRequest) -> (r: ProcessorResponse)
        ensures
            is_collector_error(r, "Custom combiner '"@ + self.combiner_impl@ + "' not implemented yet"@),
    {
        not_implemented_response(self.combiner_impl.as_str())
    }
}

/// The error for a custom combiner, which is not implemented.
pub fn not_implemented_response(combiner: &str) -> (r: ProcessorResponse)
    ensures
        is_collector_error(r, "Custom combiner '"@ + combiner@ + "' not implemented yet"@),
{
    let mut message = String::from_str("Custom combiner '");
    message.append(combiner);
    message.append("' not implemented yet");
    collector_error(message)
}


/// What `String::from_utf8_lossy` makes of these bytes.
pub uninterp spec fn utf8_lossy(bytes: Seq<u8>) -> Seq<char>;

/// `String::from_utf8_lossy`: valid UTF-8 is decoded as is (as the standard
/// library documents); other bytes are decoded with replacement characters.
#[verifier::external_body]
pub(crate) fn lossy_text(bytes: &Vec<u8>) -> (s: String)
    ensures
        s@ == utf8_lossy(bytes@),
        valid_utf8(bytes@) ==> s@ == decode_utf8(bytes@),
{
    String::from_utf8_lossy(bytes).into_owned()
}

/// The metadata members that the sources contribute: under each source's id
/// followed by `_result`, the JSON string of its text, when it succeeded with UTF-8
/// text; a source listed twice sets its member twice.
pub open spec fn source_members(m: Map<Seq<char>, CollectableResult>, sources: Seq<Seq<char>>) -> Seq<MemberView>
    decreases sources.len(),
{
    if sources.len() == 0 {
        Seq::empty()
    } else {
        let r = source_members(m, sources.drop_last());
        let src = sources.last();
        if m.contains_key(src) && success_text(m[src]) is Some {
            set_member(r, src + "_result"@, json_string_text(success_text(m[src])->0))
        } else {
            r
        }
    }
}

/// The source succeeded with UTF-8 text.
pub open spec fn contributes(m: Map<Seq<char>, CollectableResult>, src: Seq<char>) -> bool {
    m.contains_key(src) && success_text(m[src]) is Some
}

/// The member a contributing source adds: its id followed by `_result`, with
/// the JSON string of its text.
pub open spec fn source_member(m: Map<Seq<char>, CollectableResult>, src: Seq<char>) -> MemberView {
    (src + "_result"@, json_string_text(success_text(m[src])->0))
}

proof fn lemma_suffix_cancel(a: Seq<char>, b: Seq<char>, suf: Seq<char>)
    requires
        a + suf == b + suf,
    ensures
        a == b,
{
    assert((a + suf).len() == (b + suf).len());
    assert((a + suf).subrange(0, a.len() as int) =~= a);
    assert((b + suf).subrange(0, b.len() as int) =~= b);
}

/// Law: the metadata of a metadata merge holds, for every listed source that
/// succeeded with UTF-8 text, the member `<source>_result` with the JSON string
/// of that text, and nothing else; no key occurs twice.
pub proof fn law_source_members(m: Map<Seq<char>, CollectableResult>, sources: Seq<Seq<char>>)
    ensures
        member_keys(source_members(m, sources)).no_duplicates(),
        forall|i: int| 0 <= i < sources.len() && contributes(m, #[trigger] sources[i])
            ==> source_members(m, sources).contains(source_member(m, sources[i])),
        forall|x: MemberView| #[trigger] source_members(m, sources).contains(x) ==> exists|i: int|
            0 <= i < sources.len() && contributes(m, sources[i]) && x == source_member(m, sources[i]),
    decreases sources.len(),
{
    if sources.len() > 0 {
        let d = sources.drop_last();
        let s = sources.last();
        law_source_members(m, d);
        let r = source_members(m, d);
        let rs = source_members(m, sources);
        let ks = member_keys(r);
        if contributes(m, s) {
            let (k, v) = source_member(m, s);
            assert(rs == set_member(r, k, v));
            if ks.contains(k) {
                let p = ks.index_of(k);
                assert(0 <= p < r.len() && ks[p] == k);
                assert(r.contains(r[p]));
                let i = choose|i: int| 0 <= i < d.len() && contributes(m, d[i]) && r[p] == source_member(m, d[i]);
                lemma_suffix_cancel(d[i], s, "_result"@);
                assert(r[p] == (k, v));
                assert(rs =~= r);
                assert forall|i: int| 0 <= i < sources.len() && contributes(m, #[trigger] sources[i])
                    implies rs.contains(source_member(m, sources[i])) by {
                    if i < d.len() {
                        assert(d[i] == sources[i]);
                    } else {
                        assert(r[p] == source_member(m, sources[i]));
                    }
                }
                assert forall|x: MemberView| #[trigger] rs.contains(x) implies exists|i: int|
                    0 <= i < sources.len() && contributes(m, sources[i]) && x == source_member(m, sources[i]) by {
                    let i = choose|i: int| 0 <= i < d.len() && contributes(m, d[i]) && x == source_member(m, d[i]);
                    assert(sources[i] == d[i]);
                }
            } else {
                assert(rs =~= r.push((k, v)));
                assert(member_keys(rs) =~= ks.push(k));
                assert forall|a: int, b: int| 0 <= a < member_keys(rs).len() && 0 <= b < member_keys(rs).len() && a != b
                    implies member_keys(rs)[a] != member_keys(rs)[b] by {
                    if a < r.len() && b < r.len() {
                        assert(member_keys(rs)[a] == ks[a] && member_keys(rs)[b] == ks[b]);
                    } else if a == r.len() {
                        assert(member_keys(rs)[b] == ks[b]);
                        assert(ks.contains(ks[b]));
                    } else {
                        assert(member_keys(rs)[a] == ks[a]);
                        assert(ks.contains(ks[a]));
                    }
                }
                assert forall|i: int| 0 <= i < sources.len() && contributes(m, #[trigger] sources[i])
                    implies rs.contains(source_member(m, sources[i])) by {
                    if i < d.len() {
                        assert(d[i] == sources[i]);
                        let q = choose|q: int| 0 <= q < r.len() && r[q] == source_member(m, d[i]);
                        assert(rs[q] == r[q]);
                    } else {
                        assert(rs[r.len() as int] == (k, v));
                    }
                }
                assert forall|x: MemberView| #[trigger] rs.contains(x) implies exists|i: int|
                    0 <= i < sources.len() && contributes(m, sources[i]) && x == source_member(m, sources[i]) by {
                    let q = choose|q: int| 0 <= q < rs.len() && rs[q] == x;
                    if q < r.len() {
                        assert(r[q] == x);
                        assert(r.contains(x));
                        let i = choose|i: int| 0 <= i < d.len() && contributes(m, d[i]) && x == source_member(m, d[i]);
                        assert(sources[i] == d[i]);
                    } else {
                        assert(x == source_member(m, sources[sources.len() - 1]));
                    }
                }
            }
        } else {
            assert(rs == r);
            assert forall|i: int| 0 <= i < sources.len() && contributes(m, #[trigger] sources[i])
                implies rs.contains(source_member(m, sources[i])) by {
                assert(i < d.len());
                assert(d[i] == sources[i]);
            }
            assert forall|x: MemberView| #[trigger] rs.contains(x) implies exists|i: int|
                0 <= i < sources.len() && contributes(m, sources[i]) && x == source_member(m, sources[i]) by {
                let i = choose|i: int| 0 <= i < d.len() && contributes(m, d[i]) && x == source_member(m, d[i]);
                assert(sources[i] == d[i]);
            }
        }
    }
}

/// The JSON document of a metadata merge: the primary payload as a string (invalid
/// UTF-8 replaced), and the sources' texts as metadata.
pub open spec fn metadata_document(primary: Seq<u8>, members: Seq<MemberView>) -> Seq<char> {
    json_object_text(seq![
        ("primary_payload"@, json_string_text(utf8_lossy(primary))),
        ("metadata"@, json_object_text(members))
    ])
}

/// The response of a metadata merge.
pub open spec fn metadata_merge_result(
    m: Map<Seq<char>, CollectableResult>,
    primary: Seq<char>,
    sources: Seq<Seq<char>>,
    r: ProcessorResponse,
) -> bool {
    if !m.contains_key(primary) {
        is_collector_error(r, "Primary source '"@ + primary + "' not found in dependency results"@)
    } else if !m[primary].success {
        is_collector_error(r, "Primary source '"@ + primary + "' failed"@)
    } else if m[primary].payload is None {
        is_collector_error(r, "Primary source '"@ + primary + "' has no payload"@)
    } else {
        is_collector_payload(r, encode_utf8(metadata_document(m[primary].payload->0@, source_members(m, sources))))
    }
}

fn quoted_error(before: &str, subject: &str, after: &str) -> (r: ProcessorResponse)
    ensures
        is_collector_error(r, before@ + subject@ + after@),
{
    let mut message = before.to_owned();
    message.append(subject);
    message.append(after);
    collector_error(message)
}

/// Builds the metadata merge of `primary_source` with `metadata_sources`.
pub fn merge_metadata_results(
    dependency_results: &StringMap<CollectableResult>,
    primary_source: &str,
    metadata_sources: &[String],
) -> (r: ProcessorResponse)
    requires
        dependency_results.wf(),
    ensures
        metadata_merge_result(dependency_results@, primary_source@, strs_view(metadata_sources@), r),
{
    let primary_payload: Vec<u8> = match dependency_results.get(primary_source) {
        Some(primary_result) => {
            if primary_result.success {
                match &primary_result.payload {
                    Some(payload) => copy_bytes(payload),
                    None => {
                        return quoted_error("Primary source '", primary_source, "' has no payload");
                    },
                }
            } else {
                return quoted_error("Primary source '", primary_source, "' failed");
            }
        },
        None => {
            return quoted_error("Primary source '", primary_source, "' not found in dependency results");
        },
    };
    let ghost ss = strs_view(metadata_sources@);
    let mut members = Members::new();
    let mut i: usize = 0;
    while i < metadata_sources.len()
        invariant
            dependency_results.wf(),
            ss == strs_view(metadata_sources@),
            i <= metadata_sources@.len(),
            members.wf(),
            members@ == source_members(dependency_results@, ss.take(i as int)),
        decreases metadata_sources@.len() - i,
    {
        let source = &metadata_sources[i];
        proof {
            assert(ss.take(i + 1).drop_last() =~= ss.take(i as int));
            assert(ss.take(i + 1).last() == source@);
        }
        match dependency_results.get(source.as_str()) {
            Some(result) => {
                if result.success {
                    match &result.payload {
                        Some(payload) => {
                            match decode_text(copy_bytes(payload)) {
                                Ok(text) => {
                                    let mut key = source.clone();
                                    key.append("_result");
                                    members.set(key, string_text(text.as_str()));
                                },
                                Err(_) => {},
                            }
                        },
                        None => {},
                    }
                }
            },
            None => {},
        }
        i = i + 1;
    }
    proof {
        assert(ss.take(i as int) =~= ss);
    }
    let primary_text = lossy_text(&primary_payload);
    let mut document: Vec<(String, String)> = Vec::new();
    document.push((String::from_str("primary_payload"), string_text(primary_text.as_str())));
    document.push((String::from_str("metadata"), object_text(&members.to_vec())));
    proof {
        assert(members_view(document@) =~= seq![
            ("primary_payload"@, json_string_text(utf8_lossy(primary_payload@))),
            ("metadata"@, json_object_text(members@))
        ]);
    }
    let text = object_text(&document);
    payload_response(text_bytes(&text))
}

/// Returns the primary source's payload with the other sources' texts as metadata, in JSON.
pub struct MetadataMergeCollector {
    pub primary_source: String,
    pub metadata_sources: Vec<String>,
}

impl MetadataMergeCollector {
    pub fn new(primary_source: String, metadata_sources: Vec<String>) -> (c: Self)
        ensures
            c.primary_source == primary_source,
            c.metadata_sources == metadata_sources,
    {
        MetadataMergeCollector { primary_source, metadata_sources }
    }

    pub fn name(&self) -> (n: &'static str)
        ensures
            n@ == "metadata_merge_collector"@,
    {
        "metadata_merge_collector"
    }

    pub fn error_response(&self, message: &str) -> (r: ProcessorResponse)
        ensures
            is_collector_error(r, message@),
    {
        collector_error(message.to_owned())
    }

    /// The metadata merge (see `metadata_merge_result`).
    pub fn collect_results(&self, dependency_results: &StringMap<CollectableResult>, request: &ProcessorRequest) -> (r: ProcessorResponse)
        requires
            dependency_results.wf(),
        ensures
            metadata_merge_result(dependency_results@, self.primary_source@, strs_view(self.metadata_sources@), r),
    {
        merge_metadata_results(dependency_results, self.primary_source.as_str(), self.metadata_sources.as_slice())
    }
}

/// The members after merging in one member, or `None` on a conflict that is an error.
pub open spec fn merge_member(
    acc: Seq<MemberView>,
    key: Seq<char>,
    value: Seq<char>,
    res: ConflictResolution,
    merge_arrays: bool,
) -> Option<Seq<MemberView>> {
    let ks = member_keys(acc);
    if !ks.contains(key) {
        Some(set_member(acc, key, value))
    } else {
        match res {
            ConflictResolution::TakeFirst => Some(acc),
            ConflictResolution::TakeLast => Some(set_member(acc, key, value)),
            ConflictResolution::Merge => Some(set_member(acc, key, match merged_value(acc[ks.index_of(key)].1, value, merge_arrays) {
                Some(v) => v,
                None => value,
            })),
            ConflictResolution::Error => None,
        }
    }
}

/// The members after merging in the members of an object, in order; on a
/// conflict that is an error, the key in conflict.
pub open spec fn merge_object_into(
    acc: Seq<MemberView>,
    obj: Seq<MemberView>,
    res: ConflictResolution,
    merge_arrays: bool,
) -> Result<Seq<MemberView>, Seq<char>>
    decreases obj.len(),
{
    if obj.len() == 0 {
        Ok(acc)
    } else {
        match merge_object_into(acc, obj.drop_last(), res, merge_arrays) {
            Ok(a) => match merge_member(a, obj.last().0, obj.last().1, res, merge_arrays) {
                Some(b) => Ok(b),
                None => Err(obj.last().0),
            },
            Err(k) => Err(k),
        }
    }
}

/// The merge of the JSON objects of the successful dependencies `ks`, in order;
/// on a conflict that is an error, the key and the dependency.
pub open spec fn json_merge_of(
    m: Map<Seq<char>, CollectableResult>,
    ks: Seq<Seq<char>>,
    res: ConflictResolution,
    merge_arrays: bool,
) -> Result<Seq<MemberView>, (Seq<char>, Seq<char>)>
    decreases ks.len(),
{
    if ks.len() == 0 {
        Ok(Seq::empty())
    } else {
        match json_merge_of(m, ks.drop_last(), res, merge_arrays) {
            Err(e) => Err(e),
            Ok(acc) => {
                let k = ks.last();
                match success_text(m[k]) {
                    Some(t) => match json_object_members(t) {
                        Some(obj) => match merge_object_into(acc, obj, res, merge_arrays) {
                            Ok(a) => Ok(a),
                            Err(key) => Err((key, k)),
                        },
                        None => Ok(acc),
                    },
                    None => Ok(acc),
                }
            },
        }
    }
}

/// The members of the JSON object a dependency holds, when it succeeded with
/// the text of a JSON object; none otherwise.
pub open spec fn dep_object(m: Map<Seq<char>, CollectableResult>, k: Seq<char>) -> Seq<MemberView> {
    match success_text(m[k]) {
        Some(t) => match json_object_members(t) {
            Some(obj) => obj,
            None => Seq::empty(),
        },
        None => Seq::empty(),
    }
}

/// The members of the objects of the dependencies `ks`, one after the other.
pub open spec fn dep_members(m: Map<Seq<char>, CollectableResult>, ks: Seq<Seq<char>>) -> Seq<MemberView>
    decreases ks.len(),
{
    if ks.len() == 0 {
        Seq::empty()
    } else {
        dep_members(m, ks.drop_last()) + dep_object(m, ks.last())
    }
}

/// `acc` holds, once per key, each key of `flat` with the value it has where
/// it occurs first in `flat`, and no other key.
pub open spec fn keeps_first(acc: Seq<MemberView>, flat: Seq<MemberView>) -> bool {
    &&& member_keys(acc).no_duplicates()
    &&& forall|y: Seq<char>| #[trigger] member_keys(acc).contains(y) <==> member_keys(flat).contains(y)
    &&& forall|i: int| 0 <= i < flat.len() && (forall|j: int| 0 <= j < i ==> (#[trigger] flat[j]).0 != flat[i].0)
        ==> acc.contains(#[trigger] flat[i])
}

proof fn lemma_take_first_member(acc: Seq<MemberView>, flat: Seq<MemberView>, k: Seq<char>, v: Seq<char>, merge_arrays: bool)
    requires
        keeps_first(acc, flat),
    ensures
        merge_member(acc, k, v, ConflictResolution::TakeFirst, merge_arrays) matches Some(a)
            && keeps_first(a, flat.push((k, v))),
{
    let f2 = flat.push((k, v));
    let ks = member_keys(acc);
    assert(member_keys(f2) =~= member_keys(flat).push(k));
    if ks.contains(k) {
        let a = acc;
        assert(member_keys(flat).contains(k));
        let j0 = choose|j: int| 0 <= j < member_keys(flat).len() && member_keys(flat)[j] == k;
        assert forall|y: Seq<char>| #[trigger] member_keys(a).contains(y) <==> member_keys(f2).contains(y) by {
            vstd::seq_lib::lemma_seq_contains_after_push(member_keys(flat), k, y);
        }
        assert forall|i: int| 0 <= i < f2.len() && (forall|j: int| 0 <= j < i ==> (#[trigger] f2[j]).0 != f2[i].0)
            implies a.contains(#[trigger] f2[i]) by {
            if i < flat.len() {
                assert(f2[i] == flat[i]);
                assert forall|j: int| 0 <= j < i implies (#[trigger] flat[j]).0 != flat[i].0 by {
                    assert(f2[j] == flat[j]);
                }
            } else {
                assert(f2[j0] == flat[j0]);
                assert(f2[j0].0 == f2[i].0);
            }
        }
    } else {
        let a = acc.push((k, v));
        assert(set_member(acc, k, v) == a);
        assert(!member_keys(flat).contains(k));
        assert(member_keys(a) =~= ks.push(k));
        assert forall|p: int, q: int| 0 <= p < member_keys(a).len() && 0 <= q < member_keys(a).len() && p != q
            implies member_keys(a)[p] != member_keys(a)[q] by {
            if p < acc.len() && q < acc.len() {
                assert(member_keys(a)[p] == ks[p] && member_keys(a)[q] == ks[q]);
            } else if p == acc.len() {
                assert(member_keys(a)[q] == ks[q]);
                assert(ks.contains(ks[q]));
            } else {
                assert(member_keys(a)[p] == ks[p]);
                assert(ks.contains(ks[p]));
            }
        }
        assert forall|y: Seq<char>| #[trigger] member_keys(a).contains(y) <==> member_keys(f2).contains(y) by {
            vstd::seq_lib::lemma_seq_contains_after_push(member_keys(flat), k, y);
            vstd::seq_lib::lemma_seq_contains_after_push(ks, k, y);
        }
        assert forall|i: int| 0 <= i < f2.len() && (forall|j: int| 0 <= j < i ==> (#[trigger] f2[j]).0 != f2[i].0)
            implies a.contains(#[trigger] f2[i]) by {
            if i < flat.len() {
                assert(f2[i] == flat[i]);
                assert forall|j: int| 0 <= j < i implies (#[trigger] flat[j]).0 != flat[i].0 by {
                    assert(f2[j] == flat[j]);
                }
                assert(acc.contains(flat[i]));
                let q = choose|q: int| 0 <= q < acc.len() && acc[q] == flat[i];
                assert(a[q] == acc[q]);
            } else {
                assert(a[acc.len() as int] == (k, v));
            }
        }
    }
}

proof fn lemma_take_first_object(acc: Seq<MemberView>, flat: Seq<MemberView>, obj: Seq<MemberView>, merge_arrays: bool)
    requires
        keeps_first(acc, flat),
    ensures
        merge_object_into(acc, obj, ConflictResolution::TakeFirst, merge_arrays) matches Ok(a)
            && keeps_first(a, flat + obj),
    decreases obj.len(),
{
    if obj.len() == 0 {
        assert(flat + obj =~= flat);
    } else {
        let d = obj.drop_last();
        lemma_take_first_object(acc, flat, d, merge_arrays);
        let a = merge_object_into(acc, d, ConflictResolution::TakeFirst, merge_arrays)->Ok_0;
        lemma_take_first_member(a, flat + d, obj.last().0, obj.last().1, merge_arrays);
        assert((flat + d).push((obj.last().0, obj.last().1)) =~= flat + obj);
    }
}

proof fn lemma_take_first_deps(m: Map<Seq<char>, CollectableResult>, ks: Seq<Seq<char>>, merge_arrays: bool)
    ensures
        json_merge_of(m, ks, ConflictResolution::TakeFirst, merge_arrays) matches Ok(acc)
            && keeps_first(acc, dep_members(m, ks)),
    decreases ks.len(),
{
    if ks.len() == 0 {
        let e = Seq::<MemberView>::empty();
        assert(member_keys(e) =~= Seq::<Seq<char>>::empty());
    } else {
        let d = ks.drop_last();
        lemma_take_first_deps(m, d, merge_arrays);
        let acc = json_merge_of(m, d, ConflictResolution::TakeFirst, merge_arrays)->Ok_0;
        let k = ks.last();
        lemma_take_first_object(acc, dep_members(m, d), dep_object(m, k), merge_arrays);
        if !(success_text(m[k]) is Some && json_object_members(success_text(m[k])->0) is Some) {
            assert(dep_object(m, k) =~= Seq::<MemberView>::empty());
            assert(dep_members(m, ks) =~= dep_members(m, d));
        }
    }
}

/// Law: under `TakeFirst`, the merge keeps, for every key met in the objects
/// of the successful dependencies (in the order given), the value with which
/// it is met first, once; it holds no other key, and never fails on a
/// conflict.
pub proof fn law_take_first_keeps_first_value(m: Map<Seq<char>, CollectableResult>, ks: Seq<Seq<char>>, merge_arrays: bool)
    ensures
        json_merge_of(m, ks, ConflictResolution::TakeFirst, merge_arrays) matches Ok(acc) && {
            let flat = dep_members(m, ks);
            &&& member_keys(acc).no_duplicates()
            &&& forall|i: int| 0 <= i < flat.len() && (forall|j: int| 0 <= j < i ==> (#[trigger] flat[j]).0 != flat[i].0)
                ==> acc.contains(#[trigger] flat[i])
            &&& forall|x: MemberView| #[trigger] acc.contains(x) ==> member_keys(flat).contains(x.0)
        },
{
    lemma_take_first_deps(m, ks, merge_arrays);
    let acc = json_merge_of(m, ks, ConflictResolution::TakeFirst, merge_arrays)->Ok_0;
    assert forall|x: MemberView| #[trigger] acc.contains(x) implies member_keys(dep_members(m, ks)).contains(x.0) by {
        let q = choose|q: int| 0 <= q < acc.len() && acc[q] == x;
        assert(member_keys(acc)[q] == x.0);
        assert(member_keys(acc).contains(x.0));
    }
}

/// `acc` holds, once per key, each key of `flat` with the value it has where
/// it occurs last in `flat`, and no other key.
pub open spec fn keeps_last(acc: Seq<MemberView>, flat: Seq<MemberView>) -> bool {
    &&& member_keys(acc).no_duplicates()
    &&& forall|y: Seq<char>| #[trigger] member_keys(acc).contains(y) <==> member_keys(flat).contains(y)
    &&& forall|i: int| 0 <= i < flat.len() && (forall|j: int| i < j < flat.len() ==> (#[trigger] flat[j]).0 != flat[i].0)
        ==> acc.contains(#[trigger] flat[i])
}

proof fn lemma_take_last_member(acc: Seq<MemberView>, flat: Seq<MemberView>, k: Seq<char>, v: Seq<char>, merge_arrays: bool)
    requires
        keeps_last(acc, flat),
    ensures
        merge_member(acc, k, v, ConflictResolution::TakeLast, merge_arrays) matches Some(a)
            && keeps_last(a, flat.push((k, v))),
{
    let f2 = flat.push((k, v));
    let ks = member_keys(acc);
    assert(member_keys(f2) =~= member_keys(flat).push(k));
    if ks.contains(k) {
        let p = ks.index_of(k);
        assert(0 <= p < acc.len() && ks[p] == k);
        let a = acc.update(p, (k, v));
        assert(set_member(acc, k, v) == a);
        assert(member_keys(a) =~= ks);
        assert forall|y: Seq<char>| #[trigger] member_keys(a).contains(y) <==> member_keys(f2).contains(y) by {
            vstd::seq_lib::lemma_seq_contains_after_push(member_keys(flat), k, y);
        }
        assert forall|i: int| 0 <= i < f2.len() && (forall|j: int| i < j < f2.len() ==> (#[trigger] f2[j]).0 != f2[i].0)
            implies a.contains(#[trigger] f2[i]) by {
            if i < flat.len() {
                assert(f2[i] == flat[i]);
                assert(f2[flat.len() as int].0 == k);
                assert(flat[i].0 != k);
                assert forall|j: int| i < j < flat.len() implies (#[trigger] flat[j]).0 != flat[i].0 by {
                    assert(f2[j] == flat[j]);
                }
                assert(acc.contains(flat[i]));
                let q = choose|q: int| 0 <= q < acc.len() && acc[q] == flat[i];
                assert(ks[q] == flat[i].0);
                assert(q != p);
                assert(a[q] == acc[q]);
            } else {
                assert(a[p] == (k, v));
            }
        }
    } else {
        let a = acc.push((k, v));
        assert(set_member(acc, k, v) == a);
        assert(!member_keys(flat).contains(k));
        assert(member_keys(a) =~= ks.push(k));
        assert forall|p: int, q: int| 0 <= p < member_keys(a).len() && 0 <= q < member_keys(a).len() && p != q
            implies member_keys(a)[p] != member_keys(a)[q] by {
            if p < acc.len() && q < acc.len() {
                assert(member_keys(a)[p] == ks[p] && member_keys(a)[q] == ks[q]);
            } else if p == acc.len() {
                assert(member_keys(a)[q] == ks[q]);
                assert(ks.contains(ks[q]));
            } else {
                assert(member_keys(a)[p] == ks[p]);
                assert(ks.contains(ks[p]));
            }
        }
        assert forall|y: Seq<char>| #[trigger] member_keys(a).contains(y) <==> member_keys(f2).contains(y) by {
            vstd::seq_lib::lemma_seq_contains_after_push(member_keys(flat), k, y);
            vstd::seq_lib::lemma_seq_contains_after_push(ks, k, y);
        }
        assert forall|i: int| 0 <= i < f2.len() && (forall|j: int| i < j < f2.len() ==> (#[trigger] f2[j]).0 != f2[i].0)
            implies a.contains(#[trigger] f2[i]) by {
            if i < flat.len() {
                assert(f2[i] == flat[i]);
                assert forall|j: int| i < j < flat.len() implies (#[trigger] flat[j]).0 != flat[i].0 by {
                    assert(f2[j] == flat[j]);
                }
                assert(acc.contains(flat[i]));
                let q = choose|q: int| 0 <= q < acc.len() && acc[q] == flat[i];
                assert(a[q] == acc[q]);
            } else {
                assert(a[acc.len() as int] == (k, v));
            }
        }
    }
}

proof fn lemma_take_last_object(acc: Seq<MemberView>, flat: Seq<MemberView>, obj: Seq<MemberView>, merge_arrays: bool)
    requires
        keeps_last(acc, flat),
    ensures
        merge_object_into(acc, obj, ConflictResolution::TakeLast, merge_arrays) matches Ok(a)
            && keeps_last(a, flat + obj),
    decreases obj.len(),
{
    if obj.len() == 0 {
        assert(flat + obj =~= flat);
    } else {
        let d = obj.drop_last();
        lemma_take_last_object(acc, flat, d, merge_arrays);
        let a = merge_object_into(acc, d, ConflictResolution::TakeLast, merge_arrays)->Ok_0;
        lemma_take_last_member(a, flat + d, obj.last().0, obj.last().1, merge_arrays);
        assert((flat + d).push((obj.last().0, obj.last().1)) =~= flat + obj);
    }
}

proof fn lemma_take_last_deps(m: Map<Seq<char>, CollectableResult>, ks: Seq<Seq<char>>, merge_arrays: bool)
    ensures
        json_merge_of(m, ks, ConflictResolution::TakeLast, merge_arrays) matches Ok(acc)
            && keeps_last(acc, dep_members(m, ks)),
    decreases ks.len(),
{
    if ks.len() == 0 {
        let e = Seq::<MemberView>::empty();
        assert(member_keys(e) =~= Seq::<Seq<char>>::empty());
    } else {
        let d = ks.drop_last();
        lemma_take_last_deps(m, d, merge_arrays);
        let acc = json_merge_of(m, d, ConflictResolution::TakeLast, merge_arrays)->Ok_0;
        let k = ks.last();
        lemma_take_last_object(acc, dep_members(m, d), dep_object(m, k), merge_arrays);
        if !(success_text(m[k]) is Some && json_object_members(success_text(m[k])->0) is Some) {
            assert(dep_object(m, k) =~= Seq::<MemberView>::empty());
            assert(dep_members(m, ks) =~= dep_members(m, d));
        }
    }
}

/// Law: under `TakeLast`, the merge keeps, for every key met in the objects
/// of the successful dependencies (in the order given), the value with which
/// it is met last, once; it holds no other key, and never fails on a conflict.
pub proof fn law_take_last_keeps_last_value(m: Map<Seq<char>, CollectableResult>, ks: Seq<Seq<char>>, merge_arrays: bool)
    ensures
        json_merge_of(m, ks, ConflictResolution::TakeLast, merge_arrays) matches Ok(acc) && {
            let flat = dep_members(m, ks);
            &&& member_keys(acc).no_duplicates()
            &&& forall|i: int| 0 <= i < flat.len() && (forall|j: int| i < j < flat.len() ==> (#[trigger] flat[j]).0 != flat[i].0)
                ==> acc.contains(#[trigger] flat[i])
            &&& forall|x: MemberView| #[trigger] acc.contains(x) ==> member_keys(flat).contains(x.0)
        },
{
    lemma_take_last_deps(m, ks, merge_arrays);
    let acc = json_merge_of(m, ks, ConflictResolution::TakeLast, merge_arrays)->Ok_0;
    assert forall|x: MemberView| #[trigger] acc.contains(x) implies member_keys(dep_members(m, ks)).contains(x.0) by {
        let q = choose|q: int| 0 <= q < acc.len() && acc[q] == x;
        assert(member_keys(acc)[q] == x.0);
        assert(member_keys(acc).contains(x.0));
    }
}

proof fn lemma_keys_concat(a: Seq<MemberView>, b: Seq<MemberView>)
    ensures
        member_keys(a + b) == member_keys(a) + member_keys(b),
{
    assert(member_keys(a + b) =~= member_keys(a) + member_keys(b));
}

proof fn lemma_repeat_stays(a: Seq<MemberView>, b: Seq<MemberView>)
    requires
        !member_keys(a).no_duplicates(),
    ensures
        !member_keys(a + b).no_duplicates(),
{
    let (p, q) = choose|p: int, q: int| 0 <= p < member_keys(a).len() && 0 <= q < member_keys(a).len() && p != q
        && member_keys(a)[p] == member_keys(a)[q];
    lemma_keys_concat(a, b);
    assert(member_keys(a + b)[p] == member_keys(a)[p]);
    assert(member_keys(a + b)[q] == member_keys(a)[q]);
}

proof fn lemma_error_object(flat: Seq<MemberView>, obj: Seq<MemberView>, merge_arrays: bool)
    requires
        member_keys(flat).no_duplicates(),
    ensures
        merge_object_into(flat, obj, ConflictResolution::Error, merge_arrays) is Ok
            <==> member_keys(flat + obj).no_duplicates(),
        merge_object_into(flat, obj, ConflictResolution::Error, merge_arrays) matches Ok(a) ==> a == flat + obj,
    decreases obj.len(),
{
    if obj.len() == 0 {
        assert(flat + obj =~= flat);
    } else {
        let d = obj.drop_last();
        let e = obj.last();
        lemma_error_object(flat, d, merge_arrays);
        assert((flat + d).push(e) =~= flat + obj);
        lemma_keys_concat(flat + d, seq![e]);
        assert(flat + obj =~= (flat + d) + seq![e]);
        match merge_object_into(flat, d, ConflictResolution::Error, merge_arrays) {
            Err(_) => {
                lemma_repeat_stays(flat + d, seq![e]);
            },
            Ok(a) => {
                let ks = member_keys(a);
                let kk = member_keys(flat + obj);
                assert(kk =~= ks.push(e.0));
                if ks.contains(e.0) {
                    let p = choose|p: int| 0 <= p < ks.len() && ks[p] == e.0;
                    assert(kk[p] == kk[ks.len() as int]);
                } else {
                    assert(set_member(a, e.0, e.1) == a.push(e));
                    assert forall|p: int, q: int| 0 <= p < kk.len() && 0 <= q < kk.len() && p != q implies kk[p] != kk[q] by {
                        if p < ks.len() && q < ks.len() {
                            assert(kk[p] == ks[p] && kk[q] == ks[q]);
                        } else if p == ks.len() {
                            assert(kk[q] == ks[q]);
                            assert(ks.contains(ks[q]));
                        } else {
                            assert(kk[p] == ks[p]);
                            assert(ks.contains(ks[p]));
                        }
                    }
                }
            },
        }
    }
}

/// Law: under `Error`, the merge fails on a conflict exactly when some key
/// occurs more than once among the objects of the successful dependencies (in
/// the order given); otherwise it holds all their members, in that order.
pub proof fn law_error_fails_on_repeated_key(m: Map<Seq<char>, CollectableResult>, ks: Seq<Seq<char>>, merge_arrays: bool)
    ensures
        json_merge_of(m, ks, ConflictResolution::Error, merge_arrays) is Ok
            <==> member_keys(dep_members(m, ks)).no_duplicates(),
        json_merge_of(m, ks, ConflictResolution::Error, merge_arrays) matches Ok(acc) ==> acc == dep_members(m, ks),
    decreases ks.len(),
{
    if ks.len() == 0 {
        assert(member_keys(Seq::<MemberView>::empty()) =~= Seq::<Seq<char>>::empty());
    } else {
        let d = ks.drop_last();
        let k = ks.last();
        law_error_fails_on_repeated_key(m, d, merge_arrays);
        let flat = dep_members(m, d);
        match json_merge_of(m, d, ConflictResolution::Error, merge_arrays) {
            Err(_) => {
                lemma_repeat_stays(flat, dep_object(m, k));
            },
            Ok(acc) => {
                lemma_error_object(flat, dep_object(m, k), merge_arrays);
                if !(success_text(m[k]) is Some && json_object_members(success_text(m[k])->0) is Some) {
                    assert(dep_object(m, k) =~= Seq::<MemberView>::empty());
                    assert(dep_members(m, ks) =~= flat);
                }
            },
        }
    }
}

/// The response of a JSON merge over the dependencies in ascending id order `ks`.
pub open spec fn json_merge_result(
    m: Map<Seq<char>, CollectableResult>,
    ks: Seq<Seq<char>>,
    res: ConflictResolution,
    merge_arrays: bool,
    r: ProcessorResponse,
) -> bool {
    match json_merge_of(m, ks, res, merge_arrays) {
        Err((key, dep)) => is_collector_error(r, "JSON merge conflict for key '"@ + key + "' from dependency '"@ + dep + "'"@),
        Ok(acc) => if acc.len() == 0 {
            is_collector_error(r, "No valid JSON results to merge"@)
        } else {
            is_collector_payload(r, encode_utf8(json_object_text(acc)))
        },
    }
}

/// Merges the JSON objects of the successful dependencies, in ascending id order,
/// resolving keys met twice as `conflict_resolution` says.
pub fn json_merge_results(
    dependency_results: &StringMap<CollectableResult>,
    merge_arrays: bool,
    conflict_resolution: ConflictResolution,
) -> (r: ProcessorResponse)
    requires
        dependency_results.wf(),
    ensures
        exists|ks: Seq<Seq<char>>| #[trigger] ascending_ids_of(dependency_results@, ks)
            && json_merge_result(dependency_results@, ks, conflict_resolution, merge_arrays, r),
{
    let ids = sorted_ids(dependency_results);
    let ghost ks = strs_view(ids@);
    let ghost m = dependency_results@;
    let mut merged = Members::new();
    let mut i: usize = 0;
    while i < ids.len()
        invariant
            ks == strs_view(ids@),
            m == dependency_results@,
            dependency_results.wf(),
            forall|k: Seq<char>| #[trigger] ks.contains(k) <==> dependency_results@.contains_key(k),
            ids_ascending(ks),
            i <= ids@.len(),
            merged.wf(),
            json_merge_of(m, ks.take(i as int), conflict_resolution, merge_arrays) == Ok::<Seq<MemberView>, (Seq<char>, Seq<char>)>(merged@),
        decreases ids@.len() - i,
    {
        let dep_id = &ids[i];
        let ghost acc0 = merged@;
        proof {
            assert(ks.take(i + 1).drop_last() =~= ks.take(i as int));
            assert(ks.take(i + 1).last() == dep_id@);
            assert(ks.contains(ks[i as int]));
        }
        let mut text: Option<String> = None;
        match dependency_results.get(dep_id.as_str()) {
            Some(result) => {
                if result.success {
                    match &result.payload {
                        Some(payload) => {
                            match decode_text(copy_bytes(payload)) {
                                Ok(t) => {
                                    text = Some(t);
                                },
                                Err(_) => {},
                            }
                        },
                        None => {},
                    }
                }
            },
            None => {},
        }
        proof {
            if text is Some {
                assert(success_text(m[dep_id@]) == Some(text->0@));
            } else {
                assert(success_text(m[dep_id@]) is None);
            }
        }
        match text {
            Some(t) => {
                match parse_object(t.as_str()) {
                    Some(obj) => {
                        let ghost ov = members_view(obj@);
                        let mut j: usize = 0;
                        proof {
                            assert(ov.take(0) =~= Seq::<MemberView>::empty());
                        }
                        while j < obj.len()
                            invariant
                                ov == members_view(obj@),
                                json_object_members(t@) == Some(ov),
                                success_text(m[dep_id@]) == Some(t@),
                                ks == strs_view(ids@),
                                m == dependency_results@,
                                dependency_results.wf(),
                                forall|k: Seq<char>| #[trigger] ks.contains(k) <==> dependency_results@.contains_key(k),
                                ids_ascending(ks),
                                i < ids@.len(),
                                ks.take(i + 1).drop_last() == ks.take(i as int),
                                ks.take(i + 1).last() == dep_id@,
                                json_merge_of(m, ks.take(i as int), conflict_resolution, merge_arrays)
                                    == Ok::<Seq<MemberView>, (Seq<char>, Seq<char>)>(acc0),
                                j <= obj@.len(),
                                merged.wf(),
                                merge_object_into(acc0, ov.take(j as int), conflict_resolution, merge_arrays)
                                    == Ok::<Seq<MemberView>, Seq<char>>(merged@),
                            decreases obj@.len() - j,
                        {
                            let key = &obj[j].0;
                            let value = &obj[j].1;
                            proof {
                                assert(ov.take(j + 1).drop_last() =~= ov.take(j as int));
                                assert(ov.take(j + 1).last() == (key@, value@));
                            }
                            let resolved: Option<String> = match merged.get(key.as_str()) {
                                None => Some(value.clone()),
                                Some(existing) => {
                                    match conflict_resolution {
                                        ConflictResolution::TakeFirst => None,
                                        ConflictResolution::TakeLast => Some(value.clone()),
                                        ConflictResolution::Merge => {
                                            match merge_json_values(existing.as_str(), value.as_str(), merge_arrays) {
                                                Some(v) => Some(v),
                                                None => Some(value.clone()),
                                            }
                                        },
                                        ConflictResolution::Error => {
                                            let mut message = String::from_str("JSON merge conflict for key '");
                                            message.append(key.as_str());
                                            message.append("' from dependency '");
                                            message.append(dep_id.as_str());
                                            message.append("'");
                                            proof {
                                                assert(merge_object_into(acc0, ov.take(j + 1), conflict_resolution, merge_arrays)
                                                    == Err::<Seq<MemberView>, Seq<char>>(key@));
                                                lemma_object_error_stays(acc0, ov, j + 1, conflict_resolution, merge_arrays, key@);
                                                assert(json_merge_of(m, ks.take(i + 1), conflict_resolution, merge_arrays)
                                                    == Err::<Seq<MemberView>, (Seq<char>, Seq<char>)>((key@, dep_id@)));
                                                lemma_merge_error_stays(m, ks, i + 1, conflict_resolution, merge_arrays, (key@, dep_id@));
                                                assert(ascending_ids_of(dependency_results@, ks));
                                            }
                                            return collector_error(message);
                                        },
                                    }
                                },
                            };
                            match resolved {
                                Some(v) => merged.set(key.clone(), v),
                                None => {},
                            }
                            j = j + 1;
                        }
                        proof {
                            assert(ov.take(j as int) =~= ov);
                        }
                    },
                    None => {},
                }
            },
            None => {},
        }
        i = i + 1;
    }
    proof {
        assert(ks.take(i as int) =~= ks);
        assert(ascending_ids_of(dependency_results@, ks));
    }
    if merged.is_empty() {
        collector_error(String::from_str("No valid JSON results to merge"))
    } else {
        let text = object_text(&merged.to_vec());
        payload_response(text_bytes(&text))
    }
}


proof fn lemma_object_error_stays(
    acc: Seq<MemberView>,
    obj: Seq<MemberView>,
    n: int,
    res: ConflictResolution,
    merge_arrays: bool,
    key: Seq<char>,
)
    requires
        0 <= n <= obj.len(),
        merge_object_into(acc, obj.take(n), res, merge_arrays) == Err::<Seq<MemberView>, Seq<char>>(key),
    ensures
        merge_object_into(acc, obj, res, merge_arrays) == Err::<Seq<MemberView>, Seq<char>>(key),
    decreases obj.len() - n,
{
    if n < obj.len() {
        assert(obj.take(n + 1).drop_last() =~= obj.take(n));
        lemma_object_error_stays(acc, obj, n + 1, res, merge_arrays, key);
    } else {
        assert(obj.take(n) =~= obj);
    }
}

proof fn lemma_merge_error_stays(
    m: Map<Seq<char>, CollectableResult>,
    ks: Seq<Seq<char>>,
    n: int,
    res: ConflictResolution,
    merge_arrays: bool,
    e: (Seq<char>, Seq<char>),
)
    requires
        0 <= n <= ks.len(),
        json_merge_of(m, ks.take(n), res, merge_arrays) == Err::<Seq<MemberView>, (Seq<char>, Seq<char>)>(e),
    ensures
        json_merge_of(m, ks, res, merge_arrays) == Err::<Seq<MemberView>, (Seq<char>, Seq<char>)>(e),
    decreases ks.len() - n,
{
    if n < ks.len() {
        assert(ks.take(n + 1).drop_last() =~= ks.take(n));
        lemma_merge_error_stays(m, ks, n + 1, res, merge_arrays, e);
    } else {
        assert(ks.take(n) =~= ks);
    }
}


/// Merges the JSON objects of the successful dependencies.
pub struct JsonMergeCollector {
    pub merge_arrays: bool,
    pub conflict_resolution: ConflictResolution,
}

impl JsonMergeCollector {
    pub fn new(merge_arrays: bool, conflict_resolution: ConflictResolution) -> (c: Self)
        ensures
            c.merge_arrays == merge_arrays,
            c.conflict_resolution == conflict_resolution,
    {
        JsonMergeCollector { merge_arrays, conflict_resolution }
    }

    pub fn name(&self) -> (n: &'static str)
        ensures
            n@ == "json_merge_collector"@,
    {
        "json_merge_collector"
    }

    pub fn error_response(&self, message: &str) -> (r: ProcessorResponse)
        ensures
            is_collector_error(r, message@),
    {
        collector_error(message.to_owned())
    }

    /// Merges two JSON values (see `merged_value`).
    pub fn merge_json_values(&self, existing: &str, new: &str) -> (r: Option<String>)
        ensures
            match r {
                Some(s) => merged_value(existing@, new@, self.merge_arrays) == Some(s@),
                None => merged_value(existing@, new@, self.merge_arrays) is None,
            },
    {
        merge_json_values(existing, new, self.merge_arrays)
    }

    /// The merge (see `json_merge_result`).
    pub fn collect_results(&self, dependency_results: &StringMap<CollectableResult>, request: &ProcessorRequest) -> (r: ProcessorResponse)
        requires
            dependency_results.wf(),
        ensures
            exists|ks: Seq<Seq<char>>| #[trigger] ascending_ids_of(dependency_results@, ks)
                && json_merge_result(dependency_results@, ks, self.conflict_resolution, self.merge_arrays, r),
    {
        json_merge_results(dependency_results, self.merge_arrays, self.conflict_resolution)
    }
}

/// The separator of a concatenation (none joins directly).
pub open spec fn separator_of(s: Option<String>) -> Seq<char> {
    match s {
        Some(t) => t@,
        None => Seq::empty(),
    }
}

/// Whether `r` is the response of the collection strategy `strategy`.
pub open spec fn strategy_result(strategy: CollectionStrategy, m: StringMap<CollectableResult>, r: ProcessorResponse) -> bool {
    match strategy {
        CollectionStrategy::FirstAvailable => first_in_order_result(m, r),
        CollectionStrategy::MergeMetadata { primary_source, metadata_sources } =>
            metadata_merge_result(m@, primary_source@, strs_view(metadata_sources@), r),
        CollectionStrategy::Concatenate { separator } => exists|ks: Seq<Seq<char>>| #[trigger] ascending_ids_of(m@, ks) && {
            let texts = texts_of(m@, ks);
            &&& texts.len() == 0 ==> is_collector_error(r, "No successful dependency results to concatenate"@)
            &&& texts.len() > 0 ==> is_collector_payload(r, encode_utf8(join(texts, separator_of(separator))))
        },
        CollectionStrategy::JsonMerge { merge_arrays, conflict_resolution } => exists|ks: Seq<Seq<char>>|
            #[trigger] ascending_ids_of(m@, ks) && json_merge_result(m@, ks, conflict_resolution, merge_arrays, r),
        CollectionStrategy::Custom { combiner_impl } =>
            is_collector_error(r, "Custom combiner '"@ + combiner_impl@ + "' not implemented yet"@),
    }
}

/// The successful payload of the first dependency in the map's order; an error when none succeeded.
pub open spec fn first_in_order_result(m: StringMap<CollectableResult>, r: ProcessorResponse) -> bool {
    ||| exists|i: int| 0 <= i < m.spec_len() && #[trigger] success_payload(m.values_seq()[i]) is Some
        && (forall|j: int| 0 <= j < i ==> success_payload(#[trigger] m.values_seq()[j]) is None)
        && is_collector_payload(r, success_payload(m.values_seq()[i])->0)
    ||| (forall|j: int| 0 <= j < m.spec_len() ==> success_payload(#[trigger] m.values_seq()[j]) is None)
        && is_collector_error(r, "No successful dependency results found"@)
}

/// Combines the results of its dependencies with a collection strategy.
pub struct ResultCollectorProcessor {
    pub strategy: CollectionStrategy,
}

impl ResultCollectorProcessor {
    pub fn new(strategy: CollectionStrategy) -> (p: Self)
        ensures
            p.strategy == strategy,
    {
        ResultCollectorProcessor { strategy }
    }

    pub fn merge_metadata(primary_source: String, metadata_sources: Vec<String>) -> (p: Self)
        ensures
            p.strategy == (CollectionStrategy::MergeMetadata { primary_source, metadata_sources }),
    {
        Self::new(CollectionStrategy::MergeMetadata { primary_source, metadata_sources })
    }

    pub fn concatenate(separator: Option<String>) -> (p: Self)
        ensures
            p.strategy == (CollectionStrategy::Concatenate { separator }),
    {
        Self::new(CollectionStrategy::Concatenate { separator })
    }

    pub fn json_merge(merge_arrays: bool, conflict_resolution: ConflictResolution) -> (p: Self)
        ensures
            p.strategy == (CollectionStrategy::JsonMerge { merge_arrays, conflict_resolution }),
    {
        Self::new(CollectionStrategy::JsonMerge { merge_arrays, conflict_resolution })
    }

    pub fn name(&self) -> (n: &'static str)
        ensures
            n@ == "result_collector"@,
    {
        "result_collector"
    }

    pub fn error_response(&self, message: &str) -> (r: ProcessorResponse)
        ensures
            is_collector_error(r, message@),
    {
        collector_error(message.to_owned())
    }

    /// Combines the results as the strategy says.
    pub fn collect_results(&self, dependency_results: &StringMap<CollectableResult>) -> (r: ProcessorResponse)
        requires
            dependency_results.wf(),
        ensures
            strategy_result(self.strategy, *dependency_results, r),
    {
        match &self.strategy {
            CollectionStrategy::FirstAvailable => self.first_available_strategy(dependency_results),
            CollectionStrategy::MergeMetadata { primary_source, metadata_sources } =>
                self.merge_metadata_strategy(dependency_results, primary_source.as_str(), metadata_sources.as_slice()),
            CollectionStrategy::Concatenate { separator } => {
                let sep: Option<&str> = match separator {
                    Some(s) => Some(s.as_str()),
                    None => None,
                };
                self.concatenate_strategy(dependency_results, sep)
            },
            CollectionStrategy::JsonMerge { merge_arrays, conflict_resolution } =>
                self.json_merge_strategy(dependency_results, *merge_arrays, *conflict_resolution),
            CollectionStrategy::Custom { combiner_impl } => self.custom_strategy(dependency_results, combiner_impl.as_str()),
        }
    }

    /// The successful payload of the first dependency in the map's order.
    pub fn first_available_strategy(&self, dependency_results: &StringMap<CollectableResult>) -> (r: ProcessorResponse)
        requires
            dependency_results.wf(),
        ensures
            first_in_order_result(*dependency_results, r),
    {
        let n = dependency_results.len();
        let mut i: usize = 0;
        while i < n
            invariant
                n == dependency_results.spec_len(),
                i <= n,
                forall|j: int| 0 <= j < i ==> success_payload(#[trigger] dependency_results.values_seq()[j]) is None,
            decreases n - i,
        {
            let result = dependency_results.value_at(i);
            if result.success {
                match &result.payload {
                    Some(payload) => {
                        return payload_response(copy_bytes(payload));
                    },
                    None => {},
                }
            }
            i = i + 1;
        }
        self.error_response("No successful dependency results found")
    }

    /// The metadata merge (see `metadata_merge_result`).
    pub fn merge_metadata_strategy(
        &self,
        dependency_results: &StringMap<CollectableResult>,
        primary_source: &str,
        metadata_sources: &[String],
    ) -> (r: ProcessorResponse)
        requires
            dependency_results.wf(),
        ensures
            metadata_merge_result(dependency_results@, primary_source@, strs_view(metadata_sources@), r),
    {
        merge_metadata_results(dependency_results, primary_source, metadata_sources)
    }

    /// The joined texts, in ascending id order.
    pub fn concatenate_strategy(&self, dependency_results: &StringMap<CollectableResult>, separator: Option<&str>) -> (r: ProcessorResponse)
        requires
            dependency_results.wf(),
        ensures
            exists|ks: Seq<Seq<char>>| #[trigger] ascending_ids_of(dependency_results@, ks) && {
                let texts = texts_of(dependency_results@, ks);
                let sep = match separator { Some(s) => s@, None => Seq::<char>::empty() };
                &&& texts.len() == 0 ==> is_collector_error(r, "No successful dependency results to concatenate"@)
                &&& texts.len() > 0 ==> is_collector_payload(r, encode_utf8(join(texts, sep)))
            },
    {
        let sep: &str = match separator {
            Some(s) => s,
            None => "",
        };
        proof {
            if separator is None {
                reveal_strlit("");
                assert(sep@ =~= Seq::<char>::empty());
            }
        }
        match concatenate_texts(dependency_results, sep) {
            Some(text) => payload_response(text_bytes(&text)),
            None => self.error_response("No successful dependency results to concatenate"),
        }
    }

    /// The JSON merge (see `json_merge_result`).
    pub fn json_merge_strategy(
        &self,
        dependency_results: &StringMap<CollectableResult>,
        merge_arrays: bool,
        conflict_resolution: ConflictResolution,
    ) -> (r: ProcessorResponse)
        requires
            dependency_results.wf(),
        ensures
            exists|ks: Seq<Seq<char>>| #[trigger] ascending_ids_of(dependency_results@, ks)
                && json_merge_result(dependency_results@, ks, conflict_resolution, merge_arrays, r),
    {
        json_merge_results(dependency_results, merge_arrays, conflict_resolution)
    }

    /// Always the error that the combiner is not implemented.
    pub fn custom_strategy(&self, dependency_results: &StringMap<CollectableResult>, combiner_impl: &str) -> (r: ProcessorResponse)
        ensures
            is_collector_error(r, "Custom combiner '"@ + combiner_impl@ + "' not implemented yet"@),
    {
        not_implemented_response(combiner_impl)
    }
}

/// A processor that combines the results of its dependencies into one response.
pub trait ResultCollector {
    fn collect_results(&self, dependency_results: &StringMap<CollectableResult>, request: &ProcessorRequest) -> ProcessorResponse
        requires
            dependency_results.wf(),
    ;
}

impl ResultCollector for FirstAvailableCollector {
    fn collect_results(&self, dependency_results: &StringMap<CollectableResult>, request: &ProcessorRequest) -> (r: ProcessorResponse)
        ensures
            (exists|k: Seq<char>| #[trigger] least_successful(*dependency_results, k)
                && is_collector_payload(r, success_payload(dependency_results@[k])->0))
            || ((forall|k: Seq<char>| #[trigger] dependency_results@.contains_key(k)
                ==> success_payload(dependency_results@[k]) is None)
                && is_collector_error(r, "No successful dependency results found"@)),
    {
        FirstAvailableCollector::collect_results(self, dependency_results, request)
    }
}

impl ResultCollector for ConcatenateCollector {
    fn collect_results(&self, dependency_results: &StringMap<CollectableResult>, request: &ProcessorRequest) -> (r: ProcessorResponse)
        ensures
            exists|ks: Seq<Seq<char>>| #[trigger] ascending_ids_of(dependency_results@, ks) && {
                let texts = texts_of(dependency_results@, ks);
                &&& texts.len() == 0 ==> is_collector_error(r, "No successful dependency results to concatenate"@)
                &&& texts.len() > 0 ==> is_collector_payload(r, encode_utf8(join(texts, self.separator@)))
            },
    {
        ConcatenateCollector::collect_results(self, dependency_results, request)
    }
}

impl ResultCollector for CustomCollector {
    fn collect_results(&self, dependency_results: &StringMap<CollectableResult>, request: &ProcessorRequest) -> (r: ProcessorResponse)
        ensures
            is_collector_error(r, "Custom combiner '"@ + self.combiner_impl@ + "' not implemented yet"@),
    {
        CustomCollector::collect_results(self, dependency_results, request)
    }
}

impl ResultCollector for MetadataMergeCollector {
    fn collect_results(&self, dependency_results: &StringMap<CollectableResult>, request: &ProcessorRequest) -> (r: ProcessorResponse)
        ensures
            metadata_merge_result(dependency_results@, self.primary_source@, strs_view(self.metadata_sources@), r),
    {
        MetadataMergeCollector::collect_results(self, dependency_results, request)
    }
}

impl ResultCollector for JsonMergeCollector {
    fn collect_results(&self, dependency_results: &StringMap<CollectableResult>, request: &ProcessorRequest) -> (r: ProcessorResponse)
        ensures
            exists|ks: Seq<Seq<char>>| #[trigger] ascending_ids_of(dependency_results@, ks)
                && json_merge_result(dependency_results@, ks, self.conflict_resolution, self.merge_arrays, r),
    {
        JsonMergeCollector::collect_results(self, dependency_results, request)
    }
}

} // verus!
