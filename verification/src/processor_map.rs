//! The registry of processors of a DAG run, keyed by processor id.
use vstd::prelude::*;
use crate::string_map::{StringMap, strs_view};

verus! {

/// Maps processor ids to their implementations (of any type `P`).
#[derive(Debug, Clone)]
pub struct ProcessorMap<P>(pub StringMap<P>);

impl<P> ProcessorMap<P> {
    pub open spec fn view(&self) -> Map<Seq<char>, P> {
        self.0@
    }

    pub open spec fn wf(&self) -> bool {
        self.0.wf()
    }

    proof fn lemma_size(&self)
        requires
            self.wf(),
        ensures
            self@.dom().finite(),
            self@.dom().len() == self.0.spec_len(),
    {
        assert(self@.dom() =~= self.0.keys_seq().to_set());
        self.0.keys_seq().unique_seq_to_set();
    }

    /// An empty map.
    pub fn new() -> (m: Self)
        ensures
            m.wf(),
            m@ == Map::<Seq<char>, P>::empty(),
    {
        ProcessorMap(StringMap::new())
    }

    /// Registers `processor` under `id`, replacing any processor registered there.
    pub fn insert(&mut self, id: String, processor: P)
        requires
            old(self).wf(),
        ensures
            final(self).wf(),
            final(self)@ == old(self)@.insert(id@, processor),
    {
        self.0.insert(id, processor);
    }

    /// The processor registered under `id`, if any.
    pub fn get(&self, id: &str) -> (r: Option<&P>)
        requires
            self.wf(),
        ensures
            match r {
                Some(p) => self@.contains_key(id@) && *p == self@[id@],
                None => !self@.contains_key(id@),
            },
    {
        self.0.get(id)
    }

    /// Whether a processor is registered under `id`.
    pub fn contains_key(&self, id: &str) -> (b: bool)
        requires
            self.wf(),
        ensures
            b == self@.contains_key(id@),
    {
        self.0.contains_key(id)
    }

    /// The registered ids, each once.
    pub fn keys(&self) -> (ks: Vec<String>)
        requires
            self.wf(),
        ensures
            strs_view(ks@).no_duplicates(),
            forall|k: Seq<char>| #[trigger] strs_view(ks@).contains(k) <==> self@.contains_key(k),
    {
        self.0.keys()
    }

    /// The number of registered processors.
    pub fn len(&self) -> (n: usize)
        requires
            self.wf(),
        ensures
            n == self@.dom().len(),
    {
        proof {
            self.lemma_size();
        }
        self.0.len()
    }

    /// Whether no processor is registered.
    pub fn is_empty(&self) -> (b: bool)
        requires
            self.wf(),
        ensures
            b == (self@.dom().len() == 0),
    {
        proof {
            self.lemma_size();
        }
        self.0.is_empty()
    }
}

} // verus!
