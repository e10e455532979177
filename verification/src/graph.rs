//! `DependencyGraph`: processor dependencies as a forward adjacency map, with the
//! graph algorithms used to plan DAG execution.
//!
//! Each entry maps a processor id to the ids of the processors that consume its
//! output. The model of a graph is its ordered sequence of entries
//! (`entries_view`), described in `graph_model`.
use vstd::prelude::*;
use crate::string_map::{
    StringMap, strs_view, lemma_strs_view_push, lemma_strs_view_drop_last, lemma_distinct_within_len,
    lemma_push_contains, lemma_drop_last_contains,
};
use crate::graph_model::{
    GraphEntry, graph_keys, is_key, dependents_of, in_degree, total_edges, occurrences, counts_exact,
    lemma_take_full, lemma_total_edges_take, lemma_in_degree_take, lemma_occurrences_take,
    lemma_in_degree_le_total, lemma_occurrences_le_len, is_node, reverse_of, is_acyclic, ranks_edges,
    lemma_kahn_complete, lemma_kahn_respects_edges, lemma_listed_in_degree, lemma_occurrences_concat,
    in_degree_from, counts_cover, kahn_order, kahn_closed, kahn_maximal, lemma_in_degree_from_empty,
    lemma_in_degree_from_insert, lemma_in_degree_from_le, lemma_occurrences_take_le, lemma_kahn_unique,
    exact_counts, ranks_of, lemma_counts_exact_is, lemma_exact_counts,
};

verus! {

/// A type-safe wrapper for DAG dependency relationships with graph algorithms.
#[derive(Debug, Clone)]
pub struct DependencyGraph(pub StringMap<Vec<String>>);

impl DependencyGraph {
    /// The graph's entries: each processor id with the ids of its dependents.
    pub open spec fn entries_view(&self) -> Seq<GraphEntry> {
        Seq::new(self.0.spec_len(), |i: int| (self.0.keys_seq()[i], strs_view(self.0.values_seq()[i]@)))
    }

    pub open spec fn wf(&self) -> bool {
        self.0.wf()
    }

    pub proof fn lemma_keys(&self)
        ensures
            graph_keys(self.entries_view()) == self.0.keys_seq(),
            self.entries_view().len() == self.0.spec_len(),
    {
        assert(graph_keys(self.entries_view()) =~= self.0.keys_seq());
    }

    /// Create a new empty dependency graph.
    pub fn new() -> (g: Self)
        ensures
            g.wf(),
            g.entries_view() == Seq::<GraphEntry>::empty(),
    {
        let g = DependencyGraph(StringMap::new());
        assert(g.entries_view() =~= Seq::<GraphEntry>::empty());
        g
    }

    /// Wraps an adjacency map (processor id to its dependents) as a graph.
    pub fn from(map: StringMap<Vec<String>>) -> (g: Self)
        ensures
            g.0 == map,
    {
        DependencyGraph(map)
    }

    /// Add a dependency relationship: `processor_id` is consumed by `dependents`,
    /// replacing any dependents recorded for it before.
    pub fn add_dependency(&mut self, processor_id: String, dependents: Vec<String>)
        requires
            old(self).wf(),
        ensures
            final(self).wf(),
            final(self).0@ == old(self).0@.insert(processor_id@, dependents),
            old(self).0.has_key(processor_id@) ==> final(self).0.keys_seq() == old(self).0.keys_seq(),
            !old(self).0.has_key(processor_id@) ==> final(self).0.keys_seq() == old(self).0.keys_seq().push(processor_id@),
    {
        self.0.insert(processor_id, dependents);
    }

    /// The dependents listed under a key with an entry are those stored for it.
    pub proof fn lemma_dependents_of_stored(&self, id: Seq<char>)
        requires
            self.wf(),
            self.0@.contains_key(id),
        ensures
            is_key(self.entries_view(), id),
            dependents_of(self.entries_view(), id) == strs_view(self.0@[id]@),
    {
        self.lemma_keys();
        let k = self.0.keys_seq().index_of(id);
        assert(self.0.keys_seq().contains(id));
        self.0.lemma_value_at(k);
    }

    /// Get the dependents of a processor.
    pub fn get_dependents(&self, processor_id: &str) -> (r: Option<&Vec<String>>)
        requires
            self.wf(),
        ensures
            match r {
                Some(d) => is_key(self.entries_view(), processor_id@)
                    && strs_view(d@) == dependents_of(self.entries_view(), processor_id@),
                None => !is_key(self.entries_view(), processor_id@),
            },
    {
        proof { self.lemma_keys(); }
        let r = self.0.get(processor_id);
        proof {
            if self.0.has_key(processor_id@) {
                let k = self.0.keys_seq().index_of(processor_id@);
                self.0.lemma_value_at(k);
            }
        }
        r
    }

    /// All processor ids that have an entry, in entry order.
    pub fn keys(&self) -> (ks: Vec<String>)
        ensures
            strs_view(ks@) == graph_keys(self.entries_view()),
    {
        proof { self.lemma_keys(); }
        self.0.keys()
    }

    /// All dependent lists, in entry order.
    pub fn values(&self) -> (vs: Vec<&Vec<String>>)
        ensures
            vs@.len() == self.entries_view().len(),
            forall|i: int| 0 <= i < vs@.len() ==> strs_view((#[trigger] vs@[i])@) == self.entries_view()[i].1,
    {
        let mut vs: Vec<&Vec<String>> = Vec::new();
        let mut i: usize = 0;
        let n = self.0.len();
        while i < n
            invariant
                n == self.0.spec_len(),
                i <= n,
                vs@.len() == i,
                forall|j: int| 0 <= j < i ==> strs_view((#[trigger] vs@[j])@) == self.entries_view()[j].1,
            decreases n - i,
        {
            vs.push(self.0.value_at(i));
            i = i + 1;
        }
        vs
    }

    /// Build the dependency count map: every processor the graph mentions, with
    /// the number of incoming dependencies (listed edges) it has.
    pub fn build_dependency_counts(&self) -> (counts: StringMap<usize>)
        requires
            self.wf(),
            total_edges(self.entries_view()) <= usize::MAX,
        ensures
            counts.wf(),
            counts_exact(self.entries_view(), counts@),
    {
        let ghost g = self.entries_view();
        proof { self.lemma_keys(); }
        let n = self.0.len();
        let mut counts: StringMap<usize> = StringMap::new();
        let mut i: usize = 0;
        while i < n
            invariant
                n == g.len(),
                g == self.entries_view(),
                graph_keys(g) == self.0.keys_seq(),
                i <= n,
                counts.wf(),
                forall|v: Seq<char>| #[trigger] counts@.contains_key(v) <==> graph_keys(g).take(i as int).contains(v),
                forall|v: Seq<char>| #[trigger] counts@.contains_key(v) ==> counts@[v] == 0,
            decreases n - i,
        {
            let k = self.0.key_at(i).clone();
            let ghost old_counts = counts@;
            let ghost kv = k@;
            counts.insert(k, 0);
            i = i + 1;
            proof {
                assert(kv == graph_keys(g)[i - 1]);
                assert(counts@ == old_counts.insert(kv, 0usize));
                let t0 = graph_keys(g).take(i - 1);
                let t1 = graph_keys(g).take(i as int);
                assert(t1 =~= t0.push(graph_keys(g)[i - 1]));
                assert forall|v: Seq<char>| #[trigger] counts@.contains_key(v) <==> t1.contains(v) by {
                    if t1.contains(v) {
                        let j = choose|j: int| 0 <= j < t1.len() && t1[j] == v;
                        if j < i - 1 {
                            assert(t0[j] == v);
                            assert(t0.contains(v));
                            assert(old_counts.contains_key(v));
                        } else {
                            assert(v == kv);
                        }
                        assert(counts@.contains_key(v));
                    }
                    if counts@.contains_key(v) {
                        if v == kv {
                            assert(t1[i - 1] == kv);
                        } else {
                            assert(old_counts.contains_key(v));
                            assert(t0.contains(v));
                            let j = choose|j: int| 0 <= j < t0.len() && t0[j] == v;
                            assert(t1[j] == v);
                        }
                        assert(t1.contains(v));
                    }
                }
            }
        }
        proof { lemma_take_full(graph_keys(g)); }
        let mut i: usize = 0;
        while i < n
            invariant
                n == g.len(),
                g == self.entries_view(),
                graph_keys(g) == self.0.keys_seq(),
                total_edges(g) <= usize::MAX,
                i <= n,
                counts.wf(),
                forall|v: Seq<char>| #[trigger] counts@.contains_key(v) <==> (is_key(g, v) || in_degree(g.take(i as int), v) > 0),
                forall|v: Seq<char>| #[trigger] counts@.contains_key(v) ==> counts@[v] == in_degree(g.take(i as int), v),
            decreases n - i,
        {
            let deps = self.0.value_at(i);
            let m = deps.len();
            let mut j: usize = 0;
            proof {
                lemma_total_edges_take(g, i + 1);
                lemma_in_degree_take(g, i as int, Seq::empty());
            }
            while j < m
                invariant
                    n == g.len(),
                    g == self.entries_view(),
                    i < n,
                    m == deps@.len(),
                    strs_view(deps@) == g[i as int].1,
                    total_edges(g.take(i as int)) + m <= usize::MAX,
                    j <= m,
                    counts.wf(),
                    forall|v: Seq<char>| #[trigger] counts@.contains_key(v) <==> (is_key(g, v)
                        || in_degree(g.take(i as int), v) + occurrences(g[i as int].1.take(j as int), v) > 0),
                    forall|v: Seq<char>| #[trigger] counts@.contains_key(v) ==> counts@[v] == in_degree(g.take(i as int), v)
                        + occurrences(g[i as int].1.take(j as int), v),
                decreases m - j,
            {
                let d = &deps[j];
                let ghost dv = d@;
                proof {
                    assert(g[i as int].1[j as int] == dv);
                    lemma_occurrences_take(g[i as int].1, j as int, dv);
                    lemma_in_degree_le_total(g.take(i as int), dv);
                    lemma_occurrences_le_len(g[i as int].1.take(j as int), dv);
                }
                let ghost old_counts = counts@;
                match counts.position(d) {
                    Some(ci) => {
                        proof { counts.lemma_value_at(ci as int); }
                        let c = *counts.value_at(ci);
                        assert(old_counts.contains_key(dv));
                        assert(c == old_counts[dv]);
                        assert(c == in_degree(g.take(i as int), dv) + occurrences(g[i as int].1.take(j as int), dv));
                        assert(in_degree(g.take(i as int), dv) <= total_edges(g.take(i as int)));
                        assert(g[i as int].1.take(j as int).len() == j);
                        assert(c <= total_edges(g.take(i as int)) + j);
                        counts.replace_value_at(ci, c + 1);
                    },
                    None => {
                        assert(!old_counts.contains_key(dv));
                        counts.insert(d.clone(), 1);
                    },
                }
                j = j + 1;
                proof {
                    assert(counts@ == old_counts.insert(dv, (in_degree(g.take(i as int), dv) + occurrences(g[i as int].1.take(j as int), dv)) as usize));
                    assert forall|v: Seq<char>| v != dv implies occurrences(g[i as int].1.take(j as int), v)
                        == occurrences(g[i as int].1.take(j - 1), v) by {
                        lemma_occurrences_take(g[i as int].1, j - 1, v);
                    }
                }
            }
            proof {
                lemma_take_full(g[i as int].1);
                assert forall|v: Seq<char>| #![auto] in_degree(g.take(i + 1), v) == in_degree(g.take(i as int), v) + occurrences(g[i as int].1, v) by {
                    lemma_in_degree_take(g, i as int, v);
                }
            }
            i = i + 1;
        }
        proof { lemma_take_full(g); }
        counts
    }

    /// Build the reverse dependency map: every processor the graph mentions, with
    /// the processors it depends on (in entry order, once per listed edge).
    pub fn build_reverse_dependencies(&self) -> (rev: StringMap<Vec<String>>)
        requires
            self.wf(),
        ensures
            rev.wf(),
            forall|v: Seq<char>| #[trigger] rev@.contains_key(v) <==> is_node(self.entries_view(), v),
            forall|v: Seq<char>| #[trigger] rev@.contains_key(v) ==> strs_view(rev@[v]@) == reverse_of(self.entries_view(), v),
    {
        let ghost g = self.entries_view();
        proof { self.lemma_keys(); }
        let n = self.0.len();
        let mut rev: StringMap<Vec<String>> = StringMap::new();
        let mut i: usize = 0;
        while i < n
            invariant
                n == g.len(),
                g == self.entries_view(),
                graph_keys(g) == self.0.keys_seq(),
                i <= n,
                rev.wf(),
                forall|v: Seq<char>| #[trigger] rev@.contains_key(v) <==> graph_keys(g).take(i as int).contains(v),
                forall|v: Seq<char>| #[trigger] rev@.contains_key(v) ==> rev@[v]@ == Seq::<String>::empty(),
            decreases n - i,
        {
            let k = self.0.key_at(i).clone();
            let ghost old_rev = rev@;
            let ghost kv = k@;
            rev.insert(k, Vec::new());
            i = i + 1;
            proof {
                assert(kv == graph_keys(g)[i - 1]);
                let t0 = graph_keys(g).take(i - 1);
                let t1 = graph_keys(g).take(i as int);
                assert(t1 =~= t0.push(graph_keys(g)[i - 1]));
                assert forall|v: Seq<char>| #[trigger] rev@.contains_key(v) <==> t1.contains(v) by {
                    if t1.contains(v) {
                        let j = choose|j: int| 0 <= j < t1.len() && t1[j] == v;
                        if j < i - 1 {
                            assert(t0[j] == v);
                            assert(t0.contains(v));
                            assert(old_rev.contains_key(v));
                        } else {
                            assert(v == kv);
                        }
                        assert(rev@.contains_key(v));
                    }
                    if rev@.contains_key(v) {
                        if v == kv {
                            assert(t1[i - 1] == kv);
                        } else {
                            assert(old_rev.contains_key(v));
                            assert(t0.contains(v));
                            let j = choose|j: int| 0 <= j < t0.len() && t0[j] == v;
                            assert(t1[j] == v);
                        }
                        assert(t1.contains(v));
                    }
                }
            }
        }
        proof {
            lemma_take_full(graph_keys(g));
            assert forall|v: Seq<char>| #![auto] reverse_of(g.take(0), v) == Seq::<Seq<char>>::empty() by {
                assert(g.take(0).len() == 0);
            }
        }
        let mut i: usize = 0;
        while i < n
            invariant
                n == g.len(),
                g == self.entries_view(),
                graph_keys(g) == self.0.keys_seq(),
                i <= n,
                rev.wf(),
                forall|v: Seq<char>| #[trigger] rev@.contains_key(v) <==> (is_key(g, v) || in_degree(g.take(i as int), v) > 0),
                forall|v: Seq<char>| #[trigger] rev@.contains_key(v) ==> strs_view(rev@[v]@) == reverse_of(g.take(i as int), v),
            decreases n - i,
        {
            let p = self.0.key_at(i);
            let deps = self.0.value_at(i);
            let m = deps.len();
            let mut j: usize = 0;
            while j < m
                invariant
                    n == g.len(),
                    g == self.entries_view(),
                    i < n,
                    m == deps@.len(),
                    strs_view(deps@) == g[i as int].1,
                    p@ == g[i as int].0,
                    j <= m,
                    rev.wf(),
                    forall|v: Seq<char>| #[trigger] rev@.contains_key(v) <==> (is_key(g, v)
                        || in_degree(g.take(i as int), v) + occurrences(g[i as int].1.take(j as int), v) > 0),
                    forall|v: Seq<char>| #[trigger] rev@.contains_key(v) ==> strs_view(rev@[v]@) == reverse_of(g.take(i as int), v)
                        + Seq::new(occurrences(g[i as int].1.take(j as int), v), |k: int| g[i as int].0),
                decreases m - j,
            {
                let d = &deps[j];
                let ghost dv = d@;
                proof {
                    assert(g[i as int].1[j as int] == dv);
                    lemma_occurrences_take(g[i as int].1, j as int, dv);
                }
                let ghost old_rev = rev@;
                let ghost pv = p@;
                match rev.position(d) {
                    Some(ci) => {
                        proof { rev.lemma_value_at(ci as int); }
                        assert(old_rev.contains_key(dv));
                        let mut list = rev.replace_value_at(ci, Vec::new());
                        let ghost old_list = list@;
                        list.push(p.clone());
                        proof {
                            assert(strs_view(list@) =~= strs_view(old_list).push(pv));
                            let a = reverse_of(g.take(i as int), dv);
                            let c0 = occurrences(g[i as int].1.take(j as int), dv);
                            assert(Seq::new(c0 + 1, |k: int| g[i as int].0) =~= Seq::new(c0, |k: int| g[i as int].0).push(pv));
                            assert(a + Seq::new(c0 + 1, |k: int| g[i as int].0) =~= (a + Seq::new(c0, |k: int| g[i as int].0)).push(pv));
                        }
                        rev.replace_value_at(ci, list);
                    },
                    None => {
                        assert(!old_rev.contains_key(dv));
                        let mut list: Vec<String> = Vec::new();
                        list.push(p.clone());
                        proof {
                            assert(strs_view(list@) =~= seq![pv]);
                            let a = reverse_of(g.take(i as int), dv);
                            lemma_reverse_of_len(g.take(i as int), dv);
                            assert(a.len() == 0);
                            assert(a =~= Seq::<Seq<char>>::empty());
                            assert(a + Seq::new(1, |k: int| g[i as int].0) =~= seq![pv]);
                        }
                        rev.insert(d.clone(), list);
                    },
                }
                j = j + 1;
                proof {
                    assert forall|v: Seq<char>| v != dv implies occurrences(g[i as int].1.take(j as int), v)
                        == occurrences(g[i as int].1.take(j - 1), v) by {
                        lemma_occurrences_take(g[i as int].1, j - 1, v);
                    }
                }
            }
            proof {
                lemma_take_full(g[i as int].1);
                assert forall|v: Seq<char>| #![auto] in_degree(g.take(i + 1), v) == in_degree(g.take(i as int), v) + occurrences(g[i as int].1, v)
                    && reverse_of(g.take(i + 1), v) == reverse_of(g.take(i as int), v) + Seq::new(occurrences(g[i as int].1, v), |k: int| g[i as int].0) by {
                    lemma_in_degree_take(g, i as int, v);
                }
            }
            i = i + 1;
        }
        proof { lemma_take_full(g); }
        rev
    }

    /// Kahn's algorithm from the given dependency counts: ids whose count is zero
    /// are ready; taking a ready id lowers the count of each of its dependents.
    /// Returns the ids in the order they were taken, until none is ready.
    pub fn kahn_run(&self, dependency_counts: StringMap<usize>) -> (order: Vec<String>)
        requires
            self.wf(),
            dependency_counts.wf(),
            counts_cover(self.entries_view(), dependency_counts@),
        ensures
            kahn_order(self.entries_view(), dependency_counts@, strs_view(order@)),
    {
        let ghost g = self.entries_view();
        let ghost c0 = dependency_counts@;
        let ghost ckeys = dependency_counts.keys_seq();
        proof { self.lemma_keys(); }
        let mut counts = dependency_counts;
        let mut stack: Vec<String> = Vec::new();
        let mut result: Vec<String> = Vec::new();
        let nc = counts.len();
        let mut i: usize = 0;
        while i < nc
            invariant
                nc == counts.spec_len(),
                counts@ == c0,
                counts.keys_seq() == ckeys,
                counts.wf(),
                i <= nc,
                strs_view(stack@).no_duplicates(),
                forall|v: Seq<char>| #[trigger] strs_view(stack@).contains(v) <==> (ckeys.take(i as int).contains(v) && c0[v] == 0),
            decreases nc - i,
        {
            proof { counts.lemma_value_at(i as int); }
            let ghost kv = ckeys[i as int];
            let ghost s0 = strs_view(stack@);
            if *counts.value_at(i) == 0 {
                let ghost stb = stack@;
                let x = counts.key_at(i).clone();
                let ghost xs = x;
                stack.push(x);
                proof { lemma_strs_view_push(stb, xs); }
            }
            i = i + 1;
            proof {
                lemma_push_contains(s0, kv);
                let t0 = ckeys.take(i - 1);
                let t1 = ckeys.take(i as int);
                assert(t1 =~= t0.push(kv));
                assert(!t0.contains(kv)) by {
                    if t0.contains(kv) {
                        let j = choose|j: int| 0 <= j < t0.len() && t0[j] == kv;
                        assert(ckeys[j] == ckeys[i - 1]);
                    }
                }
                lemma_push_contains(t0, kv);
                assert(!s0.contains(kv));
                assert forall|v: Seq<char>| #[trigger] strs_view(stack@).contains(v) <==> (t1.contains(v) && c0[v] == 0) by {
                    assert(t1.contains(v) <==> (t0.contains(v) || v == kv));
                }
            }
        }
        proof {
            lemma_take_full(ckeys);
            assert forall|v: Seq<char>| #![auto] in_degree_from(g, Seq::<Seq<char>>::empty().to_set(), v) == 0 by {
                assert(Seq::<Seq<char>>::empty().to_set() =~= Set::<Seq<char>>::empty());
                lemma_in_degree_from_empty(g, v);
            }
            assert(strs_view(result@) =~= Seq::<Seq<char>>::empty());
            assert forall|k: Seq<char>| #![auto] counts@.contains_key(k) <==> ckeys.contains(k) by {}
        }
        while stack.len() > 0
            invariant
                g == self.entries_view(),
                graph_keys(g) == self.0.keys_seq(),
                self.wf(),
                counts_cover(g, c0),
                counts.wf(),
                counts.keys_seq() == ckeys,
                forall|v: Seq<char>| #[trigger] counts@.contains_key(v) <==> c0.contains_key(v),
                forall|v: Seq<char>| #[trigger] counts@.contains_key(v) ==>
                    counts@[v] == c0[v] - in_degree_from(g, strs_view(result@).to_set(), v),
                forall|v: Seq<char>| #[trigger] counts@.contains_key(v) ==>
                    ((strs_view(result@).contains(v) || strs_view(stack@).contains(v)) <==> counts@[v] == 0),
                strs_view(stack@).no_duplicates(),
                forall|v: Seq<char>| #[trigger] strs_view(stack@).contains(v) ==> c0.contains_key(v) && !strs_view(result@).contains(v),
                kahn_closed(g, c0, strs_view(result@)),
                result@.len() <= ckeys.len(),
            decreases ckeys.len() - result@.len(),
        {
            let ghost r0 = strs_view(result@);
            let ghost s0 = strs_view(stack@);
            let ghost stb = stack@;
            let p = stack.pop().unwrap();
            let ghost pv = p@;
            proof {
                lemma_strs_view_drop_last(stb);
                assert(s0.last() == pv);
                assert(strs_view(stack@) == s0.drop_last());
                lemma_drop_last_contains(s0);
                assert(counts@.contains_key(pv));
                assert(counts@[pv] == 0);
            }
            let ghost rb = result@;
            let pc = p.clone();
            let ghost pcs = pc;
            result.push(pc);
            let ghost rset0 = r0.to_set();
            proof {
                lemma_strs_view_push(rb, pcs);
                let r1 = strs_view(result@);
                assert(r1 == r0.push(pv));
                lemma_push_contains(r0, pv);
                assert(kahn_closed(g, c0, r1)) by {
                    assert forall|k: int| 0 <= k < r1.len() implies {
                        &&& c0.contains_key(#[trigger] r1[k])
                        &&& c0[r1[k]] == in_degree_from(g, r1.take(k).to_set(), r1[k])
                    } by {
                        if k < r0.len() {
                            assert(r1.take(k) =~= r0.take(k));
                        } else {
                            assert(r1.take(k) =~= r0);
                        }
                    }
                }
                // the ids found so far lie among the counted keys
                assert forall|x: Seq<char>| r1.contains(x) implies ckeys.contains(x) by {
                    let j = choose|j: int| 0 <= j < r1.len() && r1[j] == x;
                    assert(c0.contains_key(r1[j]));
                    assert(counts@.contains_key(x));
                }
                assert(r1.no_duplicates());
                lemma_distinct_within_len(r1, ckeys);
            }
            match self.0.position(&p) {
                Some(pi) => {
                    let deps = self.0.value_at(pi);
                    let m = deps.len();
                    let ghost dseq = g[pi as int].1;
                    proof {
                        assert(graph_keys(g)[pi as int] == pv);
                        assert(is_key(g, pv));
                        assert(dependents_of(g, pv) == dseq);
                    }
                    let mut j: usize = 0;
                    while j < m
                        invariant
                            g == self.entries_view(),
                            graph_keys(g) == self.0.keys_seq(),
                            self.wf(),
                            counts_cover(g, c0),
                            m == deps@.len(),
                            strs_view(deps@) == dseq,
                            is_key(g, pv),
                            dependents_of(g, pv) == dseq,
                            !rset0.contains(pv),
                            j <= m,
                            counts.wf(),
                            counts.keys_seq() == ckeys,
                            forall|v: Seq<char>| #[trigger] counts@.contains_key(v) <==> c0.contains_key(v),
                            forall|v: Seq<char>| #[trigger] counts@.contains_key(v) ==>
                                counts@[v] == c0[v] - in_degree_from(g, rset0, v) - occurrences(dseq.take(j as int), v),
                            forall|v: Seq<char>| #[trigger] counts@.contains_key(v) ==>
                                ((rset0.contains(v) || v == pv || strs_view(stack@).contains(v)) <==> counts@[v] == 0),
                            strs_view(stack@).no_duplicates(),
                            forall|v: Seq<char>| #[trigger] strs_view(stack@).contains(v) ==> c0.contains_key(v) && !rset0.contains(v) && v != pv,
                        decreases m - j,
                    {
                        let d = &deps[j];
                        let ghost dv = d@;
                        proof {
                            assert(dseq[j as int] == dv);
                            lemma_occurrences_take(dseq, j as int, dv);
                        }
                        match counts.position(d) {
                            Some(ci) => {
                                proof {
                                    counts.lemma_value_at(ci as int);
                                    assert(counts@.contains_key(dv));
                                    lemma_in_degree_from_insert(g, rset0, pv, dv);
                                    lemma_in_degree_from_le(g, rset0.insert(pv), dv);
                                    lemma_occurrences_take_le(dseq, j + 1, dv);
                                    assert(c0[dv] >= in_degree(g, dv));
                                }
                                let c = *counts.value_at(ci);
                                assert(c >= 1);
                                let ghost s1 = strs_view(stack@);
                                counts.replace_value_at(ci, c - 1);
                                if c - 1 == 0 {
                                    let ghost stb = stack@;
                                    let x = d.clone();
                                    let ghost xs = x;
                                    stack.push(x);
                                    proof { lemma_strs_view_push(stb, xs); }
                                }
                                proof {
                                    assert(!s1.contains(dv));
                                    assert(!rset0.contains(dv) && dv != pv);
                                    lemma_push_contains(s1, dv);
                                }
                            },
                            None => {
                                assert(!counts@.contains_key(dv));
                            },
                        }
                        j = j + 1;
                        proof {
                            assert forall|v: Seq<char>| v != dv implies occurrences(dseq.take(j as int), v)
                                == occurrences(dseq.take(j - 1), v) by {
                                lemma_occurrences_take(dseq, j - 1, v);
                            }
                        }
                    }
                    proof {
                        lemma_take_full(dseq);
                        assert forall|v: Seq<char>| #![auto] in_degree_from(g, rset0.insert(pv), v)
                            == in_degree_from(g, rset0, v) + occurrences(dseq, v) by {
                            lemma_in_degree_from_insert(g, rset0, pv, v);
                        }
                    }
                },
                None => {
                    proof {
                        assert(!is_key(g, pv));
                        assert forall|v: Seq<char>| #![auto] in_degree_from(g, rset0.insert(pv), v) == in_degree_from(g, rset0, v) by {
                            lemma_in_degree_from_insert(g, rset0, pv, v);
                        }
                    }
                },
            }
            proof {
                let r1 = strs_view(result@);
                lemma_push_contains(r0, pv);
                assert(r1.to_set() == rset0.insert(pv));
            }
        }
        let ghost rf = strs_view(result@);
        proof {
            assert(strs_view(stack@).len() == 0);
            assert(kahn_maximal(g, c0, rf)) by {
                assert forall|v: Seq<char>| #[trigger] c0.contains_key(v) && !rf.contains(v) implies c0[v] != in_degree_from(g, rf.to_set(), v) by {
                    assert(counts@.contains_key(v));
                    if strs_view(stack@).contains(v) {
                        let k = choose|k: int| 0 <= k < strs_view(stack@).len() && strs_view(stack@)[k] == v;
                    }
                }
            }
        }
        result
    }

    /// Kahn's algorithm (see `kahn_run`): the order in which ids were taken when
    /// it takes every counted id, and `None` otherwise. With exact counts, `None`
    /// comes only from a cycle.
    pub fn topological_sort_with_counts(&self, dependency_counts: StringMap<usize>) -> (r: Option<Vec<String>>)
        requires
            self.wf(),
            dependency_counts.wf(),
            counts_cover(self.entries_view(), dependency_counts@),
        ensures
            match r {
                Some(order) => kahn_order(self.entries_view(), dependency_counts@, strs_view(order@))
                    && order@.len() == dependency_counts.spec_len()
                    && forall|v: Seq<char>| #[trigger] dependency_counts@.contains_key(v) ==> strs_view(order@).contains(v),
                None => forall|o: Seq<Seq<char>>| #[trigger] kahn_order(self.entries_view(), dependency_counts@, o)
                    ==> o.len() != dependency_counts.spec_len(),
            },
            counts_exact(self.entries_view(), dependency_counts@) && is_acyclic(self.entries_view()) ==> r is Some,
    {
        let ghost g = self.entries_view();
        let ghost c0 = dependency_counts@;
        let ghost keys = dependency_counts.keys_seq();
        let n = dependency_counts.len();
        proof {
            assert(forall|v: Seq<char>| c0.contains_key(v) <==> keys.contains(v));
        }
        let result = self.kahn_run(dependency_counts);
        let ghost rf = strs_view(result@);
        proof {
            self.lemma_keys();
            assert forall|x: Seq<char>| rf.contains(x) implies keys.contains(x) by {
                let j = choose|j: int| 0 <= j < rf.len() && rf[j] == x;
                assert(c0.contains_key(rf[j]));
            }
        }
        if result.len() == n {
            proof {
                rf.unique_seq_to_set();
                keys.unique_seq_to_set();
                assert(rf.to_set().subset_of(keys.to_set()));
                vstd::set_lib::lemma_subset_equality(rf.to_set(), keys.to_set());
                assert forall|v: Seq<char>| #[trigger] c0.contains_key(v) implies rf.contains(v) by {
                    assert(keys.to_set().contains(v));
                }
            }
            Some(result)
        } else {
            proof {
                assert forall|o: Seq<Seq<char>>| #[trigger] kahn_order(g, c0, o) implies o.len() != keys.len() by {
                    lemma_kahn_unique(g, c0, rf, o);
                }
                if counts_exact(g, c0) && is_acyclic(g) {
                    let rk = choose|rk: spec_fn(Seq<char>) -> nat| ranks_edges(g, rk);
                    lemma_kahn_complete(g, c0, rf, rk);
                    crate::string_map::lemma_distinct_within_len(keys, rf);
                    crate::string_map::lemma_distinct_within_len(rf, keys);
                }
            }
            None
        }
    }

    /// Compute a topological sort order of the processors in the graph with Kahn's
    /// algorithm: every processor the graph mentions is taken. Returns `None`
    /// only if the graph has cycles.
    pub fn topological_sort(&self) -> (r: Option<Vec<String>>)
        requires
            self.wf(),
            total_edges(self.entries_view()) <= usize::MAX,
        ensures
            match r {
                Some(order) => kahn_order(self.entries_view(), exact_counts(self.entries_view()), strs_view(order@))
                    && forall|v: Seq<char>| is_node(self.entries_view(), v) ==> #[trigger] strs_view(order@).contains(v),
                None => !is_acyclic(self.entries_view()),
            },
            r is Some <==> is_acyclic(self.entries_view()),
    {
        let counts = self.build_dependency_counts();
        proof { lemma_counts_exact_is(self.entries_view(), counts@); }
        let r = self.topological_sort_with_counts(counts);
        proof {
            if r is Some {
                let order = r->0;
                assert forall|v: Seq<char>| is_node(self.entries_view(), v) implies #[trigger] strs_view(order@).contains(v) by {
                    assert(exact_counts(self.entries_view()).contains_key(v));
                }
                law_ranks_follow_dependencies(self.entries_view(), strs_view(order@));
            }
        }
        r
    }

    /// Efficiently compute both dependency counts and topological ranks together.
    /// Returns `None` if the graph has cycles.
    pub fn dependency_counts_and_ranks(&self) -> (r: Option<(StringMap<usize>, StringMap<usize>)>)
        requires
            self.wf(),
            total_edges(self.entries_view()) <= usize::MAX,
        ensures
            match r {
                Some((counts, ranks)) => counts.wf() && ranks.wf()
                    && counts@ == exact_counts(self.entries_view())
                    && exists|o: Seq<Seq<char>>| #[trigger] kahn_order(self.entries_view(), exact_counts(self.entries_view()), o)
                        && (forall|v: Seq<char>| is_node(self.entries_view(), v) ==> o.contains(v)) && ranks@ == ranks_of(o),
                None => !is_acyclic(self.entries_view()),
            },
            r is Some <==> is_acyclic(self.entries_view()),
    {
        let counts = self.build_dependency_counts();
        proof { lemma_counts_exact_is(self.entries_view(), counts@); }
        let counts_copy = copy_counts(&counts);
        match self.topological_sort_with_counts(counts_copy) {
            Some(order) => {
                let ranks = ranks_from_order(&order);
                proof {
                    let o = strs_view(order@);
                    assert forall|v: Seq<char>| is_node(self.entries_view(), v) implies o.contains(v) by {
                        assert(exact_counts(self.entries_view()).contains_key(v));
                    }
                    assert(kahn_order(self.entries_view(), exact_counts(self.entries_view()), o));
                    law_ranks_follow_dependencies(self.entries_view(), o);
                }
                Some((counts, ranks))
            },
            None => None,
        }
    }

    /// Get topological ranks for all processors: rank 0 is earliest in the
    /// topological order. Returns `None` if the graph has cycles.
    pub fn topological_ranks(&self) -> (r: Option<StringMap<usize>>)
        requires
            self.wf(),
            total_edges(self.entries_view()) <= usize::MAX,
        ensures
            match r {
                Some(ranks) => ranks.wf()
                    && exists|o: Seq<Seq<char>>| #[trigger] kahn_order(self.entries_view(), exact_counts(self.entries_view()), o)
                        && (forall|v: Seq<char>| is_node(self.entries_view(), v) ==> o.contains(v)) && ranks@ == ranks_of(o),
                None => !is_acyclic(self.entries_view()),
            },
            r is Some <==> is_acyclic(self.entries_view()),
    {
        match self.topological_sort() {
            Some(order) => Some(ranks_from_order(&order)),
            None => None,
        }
    }
}

/// The dependencies of `v` listed under the processor `u`: how often `v` is
/// listed among the dependents of each entry of `u`, added up.
pub open spec fn listed_under(g: Seq<GraphEntry>, u: Seq<char>, v: Seq<char>) -> nat
    decreases g.len(),
{
    if g.len() == 0 {
        0
    } else {
        listed_under(g.drop_last(), u, v) + if g.last().0 == u { occurrences(g.last().1, v) } else { 0 }
    }
}

proof fn lemma_occurrences_repeat(n: nat, x: Seq<char>, u: Seq<char>)
    ensures
        occurrences(Seq::new(n, |k: int| x), u) == if x == u { n } else { 0 },
    decreases n,
{
    if n > 0 {
        lemma_occurrences_repeat((n - 1) as nat, x, u);
        assert(Seq::new(n, |k: int| x).drop_last() =~= Seq::new((n - 1) as nat, |k: int| x));
    }
}

proof fn lemma_reverse_of_occurrences(g: Seq<GraphEntry>, u: Seq<char>, v: Seq<char>)
    ensures
        occurrences(reverse_of(g, v), u) == listed_under(g, u, v),
    decreases g.len(),
{
    if g.len() > 0 {
        lemma_reverse_of_occurrences(g.drop_last(), u, v);
        let tail = Seq::new(occurrences(g.last().1, v), |k: int| g.last().0);
        lemma_occurrences_concat(reverse_of(g.drop_last(), v), tail, u);
        lemma_occurrences_repeat(occurrences(g.last().1, v), g.last().0, u);
    }
}

/// Law: the reverse dependencies of each processor list every processor it
/// depends on as often as that processor lists it among its dependents, and so
/// hold as many entries as its dependency count.
pub proof fn law_reverse_dependencies_match_counts(g: Seq<GraphEntry>, u: Seq<char>, v: Seq<char>)
    requires
        total_edges(g) <= usize::MAX,
        is_node(g, v),
    ensures
        occurrences(reverse_of(g, v), u) == listed_under(g, u, v),
        reverse_of(g, v).len() == exact_counts(g)[v],
{
    lemma_reverse_of_occurrences(g, u, v);
    lemma_reverse_of_len(g, v);
    lemma_in_degree_le_total(g, v);
}

/// Law: the ranks of a complete topological order (`ranks_of`, each processor's
/// position) number its processors 0, 1, ... in order, every processor ranks
/// after each processor it depends on, and so the graph has no cycle.
pub proof fn law_ranks_follow_dependencies(g: Seq<GraphEntry>, o: Seq<Seq<char>>)
    requires
        total_edges(g) <= usize::MAX,
        kahn_order(g, exact_counts(g), o),
        forall|v: Seq<char>| is_node(g, v) ==> o.contains(v),
    ensures
        forall|i: int| 0 <= i < o.len() ==> o.index_of(#[trigger] o[i]) == i,
        forall|k: int, j: int| 0 <= k < g.len() && 0 <= j < g[k].1.len()
            ==> o.index_of(g[k].0) < o.index_of(#[trigger] g[k].1[j]),
        is_acyclic(g),
{
    lemma_exact_counts(g);
    lemma_kahn_respects_edges(g, exact_counts(g), o);
    assert forall|i: int| 0 <= i < o.len() implies o.index_of(#[trigger] o[i]) == i by {
        assert(o.contains(o[i]));
        let q = o.index_of(o[i]);
        assert(o[q] == o[i]);
    }
    let r = |x: Seq<char>| o.index_of(x) as nat;
    assert forall|k: int, j: int| 0 <= k < g.len() && 0 <= j < g[k].1.len()
        implies r(g[k].0) < r(#[trigger] g[k].1[j]) && o.index_of(g[k].0) < o.index_of(g[k].1[j]) by {
        let v = g[k].1[j];
        lemma_listed_in_degree(g, k, v);
        assert(is_node(g, v));
        assert(o.contains(v));
        let iv = o.index_of(v);
        assert(o[iv] == v);
        assert(g[k].1.contains(v));
        let jj = choose|jj: int| 0 <= jj < iv && #[trigger] o[jj] == g[k].0;
        assert(o.index_of(g[k].0) == jj) by {
            assert(o.contains(g[k].0));
            let q = o.index_of(g[k].0);
            assert(o[q] == o[jj]);
        }
    }
    assert(ranks_edges(g, r));
}

proof fn lemma_reverse_of_len(g: Seq<GraphEntry>, v: Seq<char>)
    ensures
        reverse_of(g, v).len() == in_degree(g, v),
    decreases g.len(),
{
    if g.len() > 0 {
        lemma_reverse_of_len(g.drop_last(), v);
    }
}

/// A copy of a count map.
pub fn copy_counts(m: &StringMap<usize>) -> (c: StringMap<usize>)
    requires
        m.wf(),
    ensures
        c.wf(),
        c@ == m@,
        c.keys_seq() == m.keys_seq(),
{
    let mut c: StringMap<usize> = StringMap::new();
    let n = m.len();
    let mut i: usize = 0;
    while i < n
        invariant
            n == m.spec_len(),
            m.wf(),
            i <= n,
            c.wf(),
            c.keys_seq() == m.keys_seq().take(i as int),
            forall|k: Seq<char>| #[trigger] c@.contains_key(k) ==> m@.contains_key(k) && c@[k] == m@[k],
            forall|k: Seq<char>| #[trigger] c@.contains_key(k) <==> m.keys_seq().take(i as int).contains(k),
        decreases n - i,
    {
        proof { m.lemma_value_at(i as int); }
        let k = m.key_at(i).clone();
        let ghost kv = k@;
        let v = *m.value_at(i);
        proof {
            assert(!m.keys_seq().take(i as int).contains(kv)) by {
                if m.keys_seq().take(i as int).contains(kv) {
                    let j = choose|j: int| 0 <= j < i && m.keys_seq().take(i as int)[j] == kv;
                    assert(m.keys_seq()[j] == m.keys_seq()[i as int]);
                }
            }
        }
        c.insert(k, v);
        i = i + 1;
        proof {
            assert(m.keys_seq().take(i as int) =~= m.keys_seq().take(i - 1).push(kv));
            lemma_push_contains(m.keys_seq().take(i - 1), kv);
        }
    }
    proof {
        lemma_take_full(m.keys_seq());
        assert(c@ =~= m@);
    }
    c
}

/// The rank map of a duplicate-free order: each id maps to its position.
pub fn ranks_from_order(order: &Vec<String>) -> (ranks: StringMap<usize>)
    requires
        strs_view(order@).no_duplicates(),
    ensures
        ranks.wf(),
        ranks@ == ranks_of(strs_view(order@)),
{
    let ghost o = strs_view(order@);
    let mut ranks: StringMap<usize> = StringMap::new();
    let n = order.len();
    let mut i: usize = 0;
    while i < n
        invariant
            n == order@.len(),
            o == strs_view(order@),
            o.no_duplicates(),
            i <= n,
            ranks.wf(),
            forall|k: Seq<char>| #[trigger] ranks@.contains_key(k) <==> o.take(i as int).contains(k),
            forall|k: Seq<char>| #[trigger] ranks@.contains_key(k) ==> ranks@[k] == o.index_of(k),
        decreases n - i,
    {
        let k = order[i].clone();
        let ghost kv = k@;
        proof {
            assert(o[i as int] == kv);
            assert(o.index_of(kv) == i) by {
                assert(o.contains(kv));
                let q = o.index_of(kv);
                assert(o[q] == o[i as int]);
            }
        }
        ranks.insert(k, i);
        i = i + 1;
        proof {
            assert(o.take(i as int) =~= o.take(i - 1).push(kv));
            lemma_push_contains(o.take(i - 1), kv);
        }
    }
    proof {
        lemma_take_full(o);
        assert(ranks@ =~= ranks_of(o));
    }
    ranks
}

/// Law: once `add_dependency` has recorded `ds` for `id`, the graph has an
/// entry for `id` whose dependents (what `get_dependents` gives) are `ds`.
pub proof fn law_get_after_add(before: DependencyGraph, after: DependencyGraph, id: Seq<char>, ds: Vec<String>)
    requires
        before.wf(),
        after.wf(),
        after.0@ == before.0@.insert(id, ds),
    ensures
        is_key(after.entries_view(), id),
        dependents_of(after.entries_view(), id) == strs_view(ds@),
{
    after.lemma_dependents_of_stored(id);
}

} // verus!
