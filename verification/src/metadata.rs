//! Metadata merging for DAG execution, and the pipeline-wide metadata collection.
use vstd::prelude::*;
use vstd::string::*;
use crate::string_map::StringMap;
use crate::proto::{Metadata, MetaView, ProcessorResponse, PipelineMetadata, Outcome, ErrorDetail, outcome_view};

verus! {

/// Key under which the original input metadata is kept in a merged metadata map.
pub const BASE_METADATA_KEY: &'static str = "input";

/// The metadata maps of a sequence of dependency responses, in order.
pub open spec fn response_metas(deps: &StringMap<ProcessorResponse>) -> Seq<MetaView> {
    Seq::new(deps.spec_len(), |i: int| deps.values_seq()[i].metadata.meta_view())
}

/// Every response in `deps`, and all the metadata in it, is well-formed.
pub open spec fn responses_wf(deps: &StringMap<ProcessorResponse>) -> bool {
    &&& deps.wf()
    &&& forall|i: int| 0 <= i < deps.spec_len() ==> (#[trigger] deps.values_seq()[i]).metadata.meta_wf()
}

/// The merged metadata: the base metadata under `BASE_METADATA_KEY` when it is
/// not empty, then every dependency's metadata in order, later entries replacing
/// earlier ones under the same processor name.
pub open spec fn merged_metadata(base: Map<Seq<char>, Seq<char>>, base_nonempty: bool, metas: Seq<MetaView>) -> MetaView
    decreases metas.len(),
{
    if metas.len() == 0 {
        if base_nonempty {
            map![BASE_METADATA_KEY@ => base]
        } else {
            MetaView::empty()
        }
    } else {
        merged_metadata(base, base_nonempty, metas.drop_last()).union_prefer_right(metas.last())
    }
}

proof fn lemma_merged_domain(base: Map<Seq<char>, Seq<char>>, base_nonempty: bool, metas: Seq<MetaView>, k: Seq<char>)
    ensures
        merged_metadata(base, base_nonempty, metas).contains_key(k) <==> ((base_nonempty && k == BASE_METADATA_KEY@)
            || exists|i: int| 0 <= i < metas.len() && (#[trigger] metas[i]).contains_key(k)),
    decreases metas.len(),
{
    if metas.len() > 0 {
        let d = metas.drop_last();
        lemma_merged_domain(base, base_nonempty, d, k);
        if exists|i: int| 0 <= i < d.len() && (#[trigger] d[i]).contains_key(k) {
            let i = choose|i: int| 0 <= i < d.len() && (#[trigger] d[i]).contains_key(k);
            assert(metas[i] == d[i]);
        }
        if exists|i: int| 0 <= i < metas.len() && (#[trigger] metas[i]).contains_key(k) {
            let i = choose|i: int| 0 <= i < metas.len() && (#[trigger] metas[i]).contains_key(k);
            if i < d.len() {
                assert(d[i] == metas[i]);
            }
        }
    }
}

proof fn lemma_merged_last_holder(base: Map<Seq<char>, Seq<char>>, base_nonempty: bool, metas: Seq<MetaView>, k: Seq<char>, i: int)
    requires
        0 <= i < metas.len(),
        metas[i].contains_key(k),
        forall|j: int| i < j < metas.len() ==> !(#[trigger] metas[j]).contains_key(k),
    ensures
        merged_metadata(base, base_nonempty, metas).contains_key(k),
        merged_metadata(base, base_nonempty, metas)[k] == metas[i][k],
    decreases metas.len(),
{
    let d = metas.drop_last();
    if i < d.len() {
        assert(!metas[metas.len() - 1].contains_key(k));
        assert(d[i] == metas[i]);
        assert forall|j: int| i < j < d.len() implies !(#[trigger] d[j]).contains_key(k) by {
            assert(d[j] == metas[j]);
        }
        lemma_merged_last_holder(base, base_nonempty, d, k, i);
    }
}

proof fn lemma_merged_base(base: Map<Seq<char>, Seq<char>>, metas: Seq<MetaView>)
    requires
        forall|i: int| 0 <= i < metas.len() ==> !(#[trigger] metas[i]).contains_key(BASE_METADATA_KEY@),
    ensures
        merged_metadata(base, true, metas).contains_key(BASE_METADATA_KEY@),
        merged_metadata(base, true, metas)[BASE_METADATA_KEY@] == base,
    decreases metas.len(),
{
    if metas.len() > 0 {
        let d = metas.drop_last();
        assert(!metas[metas.len() - 1].contains_key(BASE_METADATA_KEY@));
        assert forall|i: int| 0 <= i < d.len() implies !(#[trigger] d[i]).contains_key(BASE_METADATA_KEY@) by {
            assert(d[i] == metas[i]);
        }
        lemma_merged_base(base, d);
    }
}

/// Law: the merged metadata holds a processor name exactly when some
/// dependency's metadata holds it, or it is `BASE_METADATA_KEY` and the base is
/// not empty; under it lies the metadata of the last dependency that holds the
/// name, or the base when none does.
pub proof fn law_merged_metadata(base: Map<Seq<char>, Seq<char>>, base_nonempty: bool, metas: Seq<MetaView>, k: Seq<char>)
    ensures
        merged_metadata(base, base_nonempty, metas).contains_key(k) <==> ((base_nonempty && k == BASE_METADATA_KEY@)
            || exists|i: int| 0 <= i < metas.len() && (#[trigger] metas[i]).contains_key(k)),
        forall|i: int| 0 <= i < metas.len() && (#[trigger] metas[i]).contains_key(k)
            && (forall|j: int| i < j < metas.len() ==> !(#[trigger] metas[j]).contains_key(k))
            ==> merged_metadata(base, base_nonempty, metas)[k] == metas[i][k],
        (forall|i: int| 0 <= i < metas.len() ==> !(#[trigger] metas[i]).contains_key(k)) && base_nonempty
            && k == BASE_METADATA_KEY@ ==> merged_metadata(base, base_nonempty, metas)[k] == base,
{
    lemma_merged_domain(base, base_nonempty, metas, k);
    assert forall|i: int| 0 <= i < metas.len() && (#[trigger] metas[i]).contains_key(k)
        && (forall|j: int| i < j < metas.len() ==> !(#[trigger] metas[j]).contains_key(k))
        implies merged_metadata(base, base_nonempty, metas)[k] == metas[i][k] by {
        lemma_merged_last_holder(base, base_nonempty, metas, k, i);
    }
    if (forall|i: int| 0 <= i < metas.len() ==> !(#[trigger] metas[i]).contains_key(k)) && base_nonempty
        && k == BASE_METADATA_KEY@ {
        lemma_merged_base(base, metas);
    }
}

/// Copies every processor's metadata from `from` into `into`, replacing metadata
/// already held under the same name.
pub fn insert_all(into: &mut StringMap<Metadata>, from: &StringMap<Metadata>)
    requires
        old(into).meta_wf(),
        from.meta_wf(),
    ensures
        final(into).meta_wf(),
        final(into).meta_view() == old(into).meta_view().union_prefer_right(from.meta_view()),
{
    let ghost start = into.meta_view();
    let n = from.len();
    let mut j: usize = 0;
    while j < n
        invariant
            n == from.spec_len(),
            from.meta_wf(),
            j <= n,
            into.meta_wf(),
            into.meta_view() == start.union_prefer_right(Map::new(
                |k: Seq<char>| from.keys_seq().take(j as int).contains(k),
                |k: Seq<char>| from.meta_view()[k],
            )),
        decreases n - j,
    {
        proof { from.lemma_value_at(j as int); }
        let name = from.key_at(j).clone();
        let ghost nv = name@;
        assert(from@.contains_key(nv));
        assert(from.values_seq()[j as int] == from@[nv]);
        let m = from.value_at(j).duplicate();
        assert(m@ == from.meta_view()[nv]);
        let ghost before = *into;
        into.insert(name, m);
        j = j + 1;
        proof {
            let t0 = from.keys_seq().take(j - 1);
            let t1 = from.keys_seq().take(j as int);
            assert(t1 =~= t0.push(nv));
            crate::string_map::lemma_push_contains(t0, nv);
            assert forall|k: Seq<char>| #[trigger] into@.contains_key(k) implies into@[k].wf() by {
                if k != nv {
                    assert(before@.contains_key(k));
                }
            }
            assert(into@ == before@.insert(nv, m));
            assert(into.meta_view() =~= before.meta_view().insert(nv, m@)) by {
                assert forall|k: Seq<char>| #![auto] into.meta_view().contains_key(k) <==> before.meta_view().insert(nv, m@).contains_key(k) by {}
                assert forall|k: Seq<char>| #![auto] into.meta_view().contains_key(k) ==> into.meta_view()[k] == before.meta_view().insert(nv, m@)[k] by {
                    if k != nv {
                        assert(into@[k] == before@[k]);
                    }
                }
            }
            let f0 = Map::new(|k: Seq<char>| t0.contains(k), |k: Seq<char>| from.meta_view()[k]);
            let f1 = Map::new(|k: Seq<char>| t1.contains(k), |k: Seq<char>| from.meta_view()[k]);
            assert(f1 =~= f0.insert(nv, m@));
            assert(into.meta_view() =~= start.union_prefer_right(f1));
        }
    }
    proof {
        crate::graph_model::lemma_take_full(from.keys_seq());
        assert(Map::new(
            |k: Seq<char>| from.keys_seq().take(n as int).contains(k),
            |k: Seq<char>| from.meta_view()[k],
        ) =~= from.meta_view());
    }
}

/// A copy of a metadata map.
pub fn duplicate_metadata(m: &StringMap<Metadata>) -> (c: StringMap<Metadata>)
    requires
        m.meta_wf(),
    ensures
        c.meta_wf(),
        c.meta_view() == m.meta_view(),
{
    let mut c: StringMap<Metadata> = StringMap::new();
    proof {
        assert(c.meta_view() =~= MetaView::empty());
    }
    insert_all(&mut c, m);
    proof {
        assert(c.meta_view() =~= m.meta_view());
    }
    c
}

impl ProcessorResponse {
    /// A copy of this response.
    pub fn duplicate(&self) -> (c: Self)
        requires
            self.metadata.meta_wf(),
        ensures
            c.metadata.meta_wf(),
            c.metadata.meta_view() == self.metadata.meta_view(),
            outcome_view(c.outcome) == outcome_view(self.outcome),
    {
        let outcome = match &self.outcome {
            None => None,
            Some(Outcome::NextPayload(p)) => {
                let q = p.clone();
                proof {
                    assert(q@ =~= p@);
                }
                Some(Outcome::NextPayload(q))
            },
            Some(Outcome::Error(e)) => Some(Outcome::Error(ErrorDetail { code: e.code, message: e.message.clone() })),
        };
        ProcessorResponse { outcome, metadata: duplicate_metadata(&self.metadata) }
    }
}

/// Merges metadata from dependency responses for the next processor's input: the
/// base metadata is kept under `BASE_METADATA_KEY` (when not empty), and each
/// dependency processor's metadata under its processor name.
pub fn merge_dependency_metadata_for_execution(
    base_metadata: StringMap<String>,
    dependency_responses: &StringMap<ProcessorResponse>,
) -> (merged: StringMap<Metadata>)
    requires
        base_metadata.wf(),
        responses_wf(dependency_responses),
    ensures
        merged.meta_wf(),
        merged.meta_view() == merged_metadata(
            base_metadata.str_view(),
            base_metadata.spec_len() > 0,
            response_metas(dependency_responses),
        ),
{
    let ghost base_view = base_metadata.str_view();
    let ghost nonempty = base_metadata.spec_len() > 0;
    let mut result: StringMap<Metadata> = StringMap::new();
    if !base_metadata.is_empty() {
        let key = String::from_str(BASE_METADATA_KEY);
        let m = Metadata { metadata: base_metadata };
        result.insert(key, m);
        proof {
            assert(result.meta_view() =~= map![BASE_METADATA_KEY@ => base_view]);
        }
    } else {
        proof {
            assert(result.meta_view() =~= MetaView::empty());
        }
    }
    let n = dependency_responses.len();
    let mut i: usize = 0;
    while i < n
        invariant
            n == dependency_responses.spec_len(),
            responses_wf(dependency_responses),
            i <= n,
            result.meta_wf(),
            result.meta_view() == merged_metadata(base_view, nonempty, response_metas(dependency_responses).take(i as int)),
        decreases n - i,
    {
        let response = dependency_responses.value_at(i);
        insert_all(&mut result, &response.metadata);
        i = i + 1;
        proof {
            let ms = response_metas(dependency_responses);
            assert(ms.take(i as int).drop_last() =~= ms.take(i - 1));
        }
    }
    proof {
        crate::graph_model::lemma_take_full(response_metas(dependency_responses));
    }
    result
}

/// The metadata of processor `processor_name` in a merged metadata map, if present.
pub fn extract_processor_metadata<'a>(
    merged_metadata: &'a StringMap<Metadata>,
    processor_name: &str,
) -> (r: Option<&'a StringMap<String>>)
    requires
        merged_metadata.meta_wf(),
    ensures
        match r {
            Some(m) => merged_metadata.meta_view().contains_key(processor_name@)
                && m.str_view() == merged_metadata.meta_view()[processor_name@] && m.wf(),
            None => !merged_metadata.meta_view().contains_key(processor_name@),
        },
{
    match merged_metadata.get(processor_name) {
        Some(m) => Some(&m.metadata),
        None => None,
    }
}

/// Whether a merged metadata map holds the original input metadata.
pub fn has_base_metadata(merged_metadata: &StringMap<Metadata>) -> (b: bool)
    requires
        merged_metadata.wf(),
    ensures
        b == merged_metadata.meta_view().contains_key(BASE_METADATA_KEY@),
{
    merged_metadata.contains_key(BASE_METADATA_KEY)
}

/// The original input metadata of a merged metadata map, if present.
pub fn get_base_metadata<'a>(merged_metadata: &'a StringMap<Metadata>) -> (r: Option<&'a StringMap<String>>)
    requires
        merged_metadata.meta_wf(),
    ensures
        match r {
            Some(m) => merged_metadata.meta_view().contains_key(BASE_METADATA_KEY@)
                && m.str_view() == merged_metadata.meta_view()[BASE_METADATA_KEY@],
            None => !merged_metadata.meta_view().contains_key(BASE_METADATA_KEY@),
        },
{
    extract_processor_metadata(merged_metadata, BASE_METADATA_KEY)
}

/// `acc` with `key` set to `value` in the metadata of processor `name`.
pub open spec fn deep_insert(acc: MetaView, name: Seq<char>, key: Seq<char>, value: Seq<char>) -> MetaView {
    acc.insert(name, (if acc.contains_key(name) { acc[name] } else { Map::empty() }).insert(key, value))
}

/// `acc` with the entries of `m` set in the metadata of processor `name`
/// (`acc` itself when `m` is empty).
pub open spec fn deep_merge(acc: MetaView, name: Seq<char>, m: Map<Seq<char>, Seq<char>>, nonempty: bool) -> MetaView {
    if nonempty {
        acc.insert(name, (if acc.contains_key(name) { acc[name] } else { Map::empty() }).union_prefer_right(m))
    } else {
        acc
    }
}

/// The processor metadata of a response, in order: name, contents, and whether it is non-empty.
pub open spec fn metadata_entries(m: &StringMap<Metadata>) -> Seq<(Seq<char>, Map<Seq<char>, Seq<char>>, bool)> {
    Seq::new(m.spec_len(), |i: int| (m.keys_seq()[i], m.values_seq()[i]@, m.values_seq()[i].metadata.spec_len() > 0))
}

/// `acc` after merging each processor's metadata of `entries` in order.
pub open spec fn merge_entries(acc: MetaView, entries: Seq<(Seq<char>, Map<Seq<char>, Seq<char>>, bool)>) -> MetaView
    decreases entries.len(),
{
    if entries.len() == 0 {
        acc
    } else {
        let e = entries.last();
        deep_merge(merge_entries(acc, entries.drop_last()), e.0, e.1, e.2)
    }
}

/// Law: merging the entries keeps the processors not named by any non-empty
/// entry as they were; a processor named by some non-empty entry gets, for
/// each key, the value of the last non-empty entry for it that holds the key,
/// else the value it had.
pub proof fn law_merge_entries(
    acc: MetaView,
    entries: Seq<(Seq<char>, Map<Seq<char>, Seq<char>>, bool)>,
    name: Seq<char>,
    key: Seq<char>,
)
    ensures
        (forall|i: int| 0 <= i < entries.len() ==> !((#[trigger] entries[i]).0 == name && entries[i].2))
            ==> (merge_entries(acc, entries).contains_key(name) == acc.contains_key(name)
                && (acc.contains_key(name) ==> merge_entries(acc, entries)[name] == acc[name])),
        forall|i: int| 0 <= i < entries.len() && (#[trigger] entries[i]).0 == name && entries[i].2
            && entries[i].1.contains_key(key)
            && (forall|j: int| i < j < entries.len() && (#[trigger] entries[j]).0 == name && entries[j].2
                ==> !entries[j].1.contains_key(key))
            ==> merge_entries(acc, entries).contains_key(name) && merge_entries(acc, entries)[name].contains_key(key)
                && merge_entries(acc, entries)[name][key] == entries[i].1[key],
    decreases entries.len(),
{
    if entries.len() > 0 {
        let d = entries.drop_last();
        let e = entries.last();
        law_merge_entries(acc, d, name, key);
        assert(e == entries[entries.len() - 1]);
        if forall|i: int| 0 <= i < entries.len() ==> !((#[trigger] entries[i]).0 == name && entries[i].2) {
            assert forall|i: int| 0 <= i < d.len() implies !((#[trigger] d[i]).0 == name && d[i].2) by {
                assert(d[i] == entries[i]);
            }
        }
        assert forall|i: int| 0 <= i < entries.len() && (#[trigger] entries[i]).0 == name && entries[i].2
            && entries[i].1.contains_key(key)
            && (forall|j: int| i < j < entries.len() && (#[trigger] entries[j]).0 == name && entries[j].2
                ==> !entries[j].1.contains_key(key))
            implies merge_entries(acc, entries).contains_key(name) && merge_entries(acc, entries)[name].contains_key(key)
                && merge_entries(acc, entries)[name][key] == entries[i].1[key] by {
            if i < d.len() {
                assert(d[i] == entries[i]);
                assert forall|j: int| i < j < d.len() && (#[trigger] d[j]).0 == name && d[j].2
                    implies !d[j].1.contains_key(key) by {
                    assert(d[j] == entries[j]);
                }
            }
        }
    }
}

impl PipelineMetadata {
    pub open spec fn view(&self) -> MetaView {
        self.metadata.meta_view()
    }

    pub open spec fn wf(&self) -> bool {
        self.metadata.meta_wf()
    }

    /// An empty collection.
    pub fn new() -> (p: Self)
        ensures
            p.wf(),
            p@ == MetaView::empty(),
    {
        let p = PipelineMetadata { metadata: StringMap::new() };
        assert(p@ =~= MetaView::empty());
        p
    }

    /// Sets `key` to `value` in the metadata of processor `processor_name`.
    pub fn add_metadata(&mut self, processor_name: &str, key: &str, value: &str)
        requires
            old(self).wf(),
        ensures
            final(self).wf(),
            final(self)@ == deep_insert(old(self)@, processor_name@, key@, value@),
    {
        let name = processor_name.to_owned();
        let ghost before = self.metadata;
        match self.metadata.position(&name) {
            Some(i) => {
                proof { self.metadata.lemma_value_at(i as int); }
                assert(before@.contains_key(name@));
                let mut m = self.metadata.replace_value_at(i, Metadata::new());
                assert(m == before@[name@]);
                m.metadata.insert(key.to_owned(), value.to_owned());
                self.metadata.replace_value_at(i, m);
                proof {
                    assert(m@ =~= before@[name@]@.insert(key@, value@)) by {
                        assert forall|kk: Seq<char>| #![auto] m@.contains_key(kk) ==> m@[kk] == m.metadata@[kk]@ by {}
                    }
                    assert(self.metadata@ =~= before@.insert(name@, m));
                    self.lemma_view_insert(before, name@, m);
                }
            },
            None => {
                let mut m = Metadata::new();
                m.metadata.insert(key.to_owned(), value.to_owned());
                proof {
                    assert(m@ =~= Map::<Seq<char>, Seq<char>>::empty().insert(key@, value@));
                }
                self.metadata.insert(name, m);
                proof { self.lemma_view_insert(before, name@, m); }
            },
        }
    }

    proof fn lemma_view_insert(&self, before: StringMap<Metadata>, name: Seq<char>, m: Metadata)
        requires
            before.meta_wf(),
            m.wf(),
            self.metadata.wf(),
            self.metadata@ == before@.insert(name, m),
        ensures
            self.wf(),
            self@ == before.meta_view().insert(name, m@),
    {
        assert forall|k: Seq<char>| #[trigger] self.metadata@.contains_key(k) implies self.metadata@[k].wf() by {
            if k != name {
                assert(before@.contains_key(k));
            }
        }
        assert(self@ =~= before.meta_view().insert(name, m@)) by {
            assert forall|k: Seq<char>| #![auto] self@.contains_key(k) ==> self@[k] == before.meta_view().insert(name, m@)[k] by {
                if k != name {
                    assert(self.metadata@[k] == before@[k]);
                }
            }
        }
    }

    /// Sets every entry of `processor_metadata` in the metadata of processor `processor_name`.
    pub fn merge_processor_metadata(&mut self, processor_name: &str, processor_metadata: &Metadata)
        requires
            old(self).wf(),
            processor_metadata.wf(),
        ensures
            final(self).wf(),
            final(self)@ == deep_merge(old(self)@, processor_name@, processor_metadata@,
                processor_metadata.metadata.spec_len() > 0),
    {
        let ghost start = self@;
        let pm = &processor_metadata.metadata;
        let n = pm.len();
        let mut j: usize = 0;
        while j < n
            invariant
                n == pm.spec_len(),
                pm.wf(),
                j <= n,
                self.wf(),
                j == 0 ==> self@ == start,
                j > 0 ==> self@ == start.insert(processor_name@,
                    (if start.contains_key(processor_name@) { start[processor_name@] } else { Map::empty() })
                    .union_prefer_right(Map::new(|k: Seq<char>| pm.keys_seq().take(j as int).contains(k), |k: Seq<char>| pm@[k]@))),
            decreases n - j,
        {
            proof { pm.lemma_value_at(j as int); }
            let ghost kv = pm.keys_seq()[j as int];
            self.add_metadata(processor_name, pm.key_at(j).as_str(), pm.value_at(j).as_str());
            j = j + 1;
            proof {
                let t0 = pm.keys_seq().take(j - 1);
                let t1 = pm.keys_seq().take(j as int);
                assert(t1 =~= t0.push(kv));
                crate::string_map::lemma_push_contains(t0, kv);
                let base = if start.contains_key(processor_name@) { start[processor_name@] } else { Map::<Seq<char>, Seq<char>>::empty() };
                let f0 = Map::new(|k: Seq<char>| t0.contains(k), |k: Seq<char>| pm@[k]@);
                let f1 = Map::new(|k: Seq<char>| t1.contains(k), |k: Seq<char>| pm@[k]@);
                assert(f1 =~= f0.insert(kv, pm@[kv]@));
                assert(base.union_prefer_right(f1) =~= base.union_prefer_right(f0).insert(kv, pm@[kv]@));
                if j == 1 {
                    assert(f0 =~= Map::<Seq<char>, Seq<char>>::empty());
                    assert(base.union_prefer_right(f0) =~= base);
                }
            }
        }
        proof {
            crate::graph_model::lemma_take_full(pm.keys_seq());
            assert(Map::new(|k: Seq<char>| pm.keys_seq().take(n as int).contains(k), |k: Seq<char>| pm@[k]@) =~= processor_metadata@);
        }
    }

    /// Records a completed processor's response: the metadata of one that
    /// produced an outcome is merged (see `merge_processor_response`); one with
    /// no outcome contributes nothing.
    pub fn record_completion(&mut self, processor_name: &str, response: &ProcessorResponse)
        requires
            old(self).wf(),
            response.metadata.meta_wf(),
        ensures
            final(self).wf(),
            response.outcome is Some ==> final(self)@ == merge_entries(old(self)@, metadata_entries(&response.metadata)),
            response.outcome is None ==> final(self)@ == old(self)@,
    {
        if response.outcome.is_some() {
            self.merge_processor_response(processor_name, response);
        }
    }

    /// Merges all processor metadata carried by `response` into the collection.
    pub fn merge_processor_response(&mut self, processor_name: &str, response: &ProcessorResponse)
        requires
            old(self).wf(),
            response.metadata.meta_wf(),
        ensures
            final(self).wf(),
            final(self)@ == merge_entries(old(self)@, metadata_entries(&response.metadata)),
    {
        let ghost start = self@;
        let rm = &response.metadata;
        let n = rm.len();
        let mut i: usize = 0;
        while i < n
            invariant
                n == rm.spec_len(),
                rm.meta_wf(),
                i <= n,
                self.wf(),
                self@ == merge_entries(start, metadata_entries(rm).take(i as int)),
            decreases n - i,
        {
            proof {
                rm.lemma_value_at(i as int);
                assert(rm@.contains_key(rm.keys_seq()[i as int]));
            }
            self.merge_processor_metadata(rm.key_at(i).as_str(), rm.value_at(i));
            i = i + 1;
            proof {
                assert(metadata_entries(rm).take(i as int).drop_last() =~= metadata_entries(rm).take(i - 1));
            }
        }
        proof { crate::graph_model::lemma_take_full(metadata_entries(rm)); }
    }

    /// The metadata of processor `processor_name`, if any.
    pub fn get_processor_metadata(&self, processor_name: &str) -> (r: Option<&Metadata>)
        requires
            self.wf(),
        ensures
            match r {
                Some(m) => self@.contains_key(processor_name@) && m@ == self@[processor_name@],
                None => !self@.contains_key(processor_name@),
            },
    {
        self.metadata.get(processor_name)
    }

    /// The value of `key` in the metadata of processor `processor_name`, if any.
    pub fn get_metadata_value(&self, processor_name: &str, key: &str) -> (r: Option<&str>)
        requires
            self.wf(),
        ensures
            match r {
                Some(v) => self@.contains_key(processor_name@) && self@[processor_name@].contains_key(key@)
                    && v@ == self@[processor_name@][key@],
                None => !(self@.contains_key(processor_name@) && self@[processor_name@].contains_key(key@)),
            },
    {
        match self.metadata.get(processor_name) {
            Some(m) => {
                assert(self.metadata@.contains_key(processor_name@));
                match m.metadata.get(key) {
                    Some(v) => Some(v.as_str()),
                    None => None,
                }
            },
            None => None,
        }
    }

    /// The names of the processors that contributed metadata, in order.
    pub fn list_processors(&self) -> (names: Vec<String>)
        ensures
            crate::string_map::strs_view(names@) == self.metadata.keys_seq(),
    {
        self.metadata.keys()
    }
}

} // verus!
