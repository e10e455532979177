//! The messages exchanged with processors: requests, responses, outcomes and
//! per-processor metadata.
use vstd::prelude::*;
use crate::string_map::StringMap;
use crate::graph_model::lemma_take_full;

verus! {

/// A map from processor names to their metadata, as a mathematical map.
pub type MetaView = Map<Seq<char>, Map<Seq<char>, Seq<char>>>;

impl StringMap<String> {
    /// The map's model with values taken by their characters.
    pub open spec fn str_view(&self) -> Map<Seq<char>, Seq<char>> {
        Map::new(|k: Seq<char>| self@.contains_key(k), |k: Seq<char>| self@[k]@)
    }

    /// A copy with the same keys, in the same order, and equal values.
    pub fn duplicate(&self) -> (c: Self)
        requires
            self.wf(),
        ensures
            c.wf(),
            c.str_view() == self.str_view(),
            c.keys_seq() == self.keys_seq(),
    {
        let mut c: StringMap<String> = StringMap::new();
        let n = self.len();
        let mut i: usize = 0;
        while i < n
            invariant
                n == self.spec_len(),
                self.wf(),
                i <= n,
                c.wf(),
                c.keys_seq() == self.keys_seq().take(i as int),
                forall|k: Seq<char>| #[trigger] c.has_key(k) ==> self.has_key(k) && c.str_view()[k] == self.str_view()[k],
            decreases n - i,
        {
            proof { self.lemma_value_at(i as int); }
            let k = self.key_at(i).clone();
            let v = self.value_at(i).clone();
            let ghost kv = k@;
            proof {
                assert(!self.keys_seq().take(i as int).contains(kv)) by {
                    if self.keys_seq().take(i as int).contains(kv) {
                        let j = choose|j: int| 0 <= j < i && self.keys_seq().take(i as int)[j] == kv;
                        assert(self.keys_seq()[j] == self.keys_seq()[i as int]);
                    }
                }
            }
            let ghost old_c = c;
            c.insert(k, v);
            i = i + 1;
            proof {
                assert(self.keys_seq().take(i as int) =~= self.keys_seq().take(i - 1).push(kv));
                assert forall|k2: Seq<char>| #[trigger] c.has_key(k2) implies self.has_key(k2) && c.str_view()[k2] == self.str_view()[k2] by {
                    assert(c@.contains_key(k2));
                    assert(c.str_view()[k2] == c@[k2]@);
                    if k2 != kv {
                        assert(old_c@.contains_key(k2));
                        assert(old_c.has_key(k2));
                        assert(c@[k2] == old_c@[k2]);
                        assert(old_c.str_view()[k2] == old_c@[k2]@);
                    } else {
                        assert(c@[k2] == v);
                        assert(self.has_key(kv));
                        assert(self.str_view()[kv] == self@[kv]@);
                    }
                }
            }
        }
        proof {
            lemma_take_full(self.keys_seq());
            assert(c.str_view() =~= self.str_view()) by {
                assert forall|k: Seq<char>| c.has_key(k) <==> self.has_key(k) by {}
            }
        }
        c
    }
}

/// Key/value metadata contributed by one processor.
#[derive(Debug, Clone, PartialEq, Eq)]
pub struct Metadata {
    pub metadata: StringMap<String>,
}

/// Metadata of one processor within a pipeline.
pub type ProcessorMetadata = Metadata;

impl Metadata {
    pub open spec fn view(&self) -> Map<Seq<char>, Seq<char>> {
        self.metadata.str_view()
    }

    pub open spec fn wf(&self) -> bool {
        self.metadata.wf()
    }

    /// Empty metadata.
    pub fn new() -> (m: Self)
        ensures
            m.wf(),
            m@ == Map::<Seq<char>, Seq<char>>::empty(),
            m.metadata.spec_len() == 0,
    {
        let m = Metadata { metadata: StringMap::new() };
        assert(m@ =~= Map::<Seq<char>, Seq<char>>::empty());
        m
    }

    /// A copy with equal contents.
    pub fn duplicate(&self) -> (c: Self)
        requires
            self.wf(),
        ensures
            c.wf(),
            c@ == self@,
    {
        Metadata { metadata: self.metadata.duplicate() }
    }
}

impl StringMap<Metadata> {
    /// The map's model with each processor's metadata taken by its model.
    pub open spec fn meta_view(&self) -> MetaView {
        Map::new(|k: Seq<char>| self@.contains_key(k), |k: Seq<char>| self@[k]@)
    }

    /// The map and all the metadata it holds are well-formed.
    pub open spec fn meta_wf(&self) -> bool {
        &&& self.wf()
        &&& forall|k: Seq<char>| #[trigger] self@.contains_key(k) ==> self@[k].wf()
    }
}

/// The error reported by a processor.
#[derive(Debug, Clone, PartialEq, Eq)]
pub struct ErrorDetail {
    pub code: i32,
    pub message: String,
}

/// What a processor produced: the next payload, or an error.
#[derive(Debug, Clone, PartialEq, Eq)]
pub enum Outcome {
    NextPayload(Vec<u8>),
    Error(ErrorDetail),
}

/// What an outcome holds: whether it is a next payload, the payload, and the error's code and message.
pub open spec fn outcome_view(o: Option<Outcome>) -> Option<(bool, Seq<u8>, i32, Seq<char>)> {
    match o {
        None => None,
        Some(Outcome::NextPayload(p)) => Some((true, p@, 0i32, Seq::<char>::empty())),
        Some(Outcome::Error(e)) => Some((false, Seq::<u8>::empty(), e.code, e.message@)),
    }
}

/// Whether a processor transforms the payload or only contributes metadata.
#[derive(Debug, Clone, Copy, PartialEq, Eq, Structural)]
pub enum ProcessorIntent {
    Transform,
    Analyze,
}

/// A request to a processor: the payload and the metadata gathered so far.
#[derive(Debug, Clone, PartialEq, Eq)]
pub struct ProcessorRequest {
    pub payload: Vec<u8>,
    pub metadata: StringMap<Metadata>,
}

/// A processor's response: its outcome and the metadata it contributes, by processor name.
#[derive(Debug, Clone, PartialEq, Eq)]
pub struct ProcessorResponse {
    pub outcome: Option<Outcome>,
    pub metadata: StringMap<Metadata>,
}

impl Default for ProcessorResponse {
    fn default() -> (r: Self)
        ensures
            r.outcome is None,
            r.metadata.meta_wf(),
            r.metadata.spec_len() == 0,
            r.metadata.meta_view() == MetaView::empty(),
    {
        let r = ProcessorResponse { outcome: None, metadata: StringMap::new() };
        assert(r.metadata.meta_view() =~= MetaView::empty());
        r
    }
}

/// Metadata collected across a pipeline run, by processor name.
#[derive(Debug, Clone, PartialEq, Eq)]
pub struct PipelineMetadata {
    pub metadata: StringMap<Metadata>,
}

} // verus!
