//! Depth-first topological sorting with cycle detection.
//!
//! Every processor is white (unvisited), grey (on the current search path) or
//! black (finished). A search that meets a grey processor has found a cycle;
//! otherwise each processor is finished after all its dependents, and the
//! reverse of the finishing order is a topological order.
use vstd::prelude::*;
use crate::string_map::{StringMap, strs_view};
use crate::graph::DependencyGraph;
use crate::graph_model::{
    GraphEntry, graph_keys, is_key, is_node, dependents_of, in_degree, ranks_edges, is_acyclic,
    lemma_in_degree_positive,
};

verus! {

/// Every id that the graph names, keys and dependents, with repetitions.
pub open spec fn mentions(g: Seq<GraphEntry>) -> Seq<Seq<char>>
    decreases g.len(),
{
    if g.len() == 0 {
        Seq::empty()
    } else {
        mentions(g.drop_last()).push(g.last().0) + g.last().1
    }
}

/// The search colour of `v`: 0 white, 1 grey, 2 black.
pub open spec fn color(state: Map<Seq<char>, u8>, v: Seq<char>) -> u8 {
    if state.contains_key(v) { state[v] } else { 0 }
}

/// What holds between searches: the finished ids are exactly the black ones,
/// each finished after all its dependents; the grey ids are exactly those of the
/// search path, which follows edges.
pub open spec fn dfs_inv(g: Seq<GraphEntry>, state: Map<Seq<char>, u8>, post: Seq<Seq<char>>, path: Seq<Seq<char>>) -> bool {
    &&& forall|v: Seq<char>| #[trigger] post.contains(v) <==> color(state, v) == 2
    &&& forall|v: Seq<char>| #[trigger] path.contains(v) <==> color(state, v) == 1
    &&& forall|v: Seq<char>| #[trigger] state.contains_key(v) ==> state[v] <= 2
    &&& forall|v: Seq<char>| color(state, v) != 0 ==> #[trigger] is_node(g, v)
    &&& post.no_duplicates()
    &&& path.no_duplicates()
    &&& forall|k: int, j: int| 0 <= k < g.len() && 0 <= j < g[k].1.len() && color(state, g[k].0) == 2
        ==> color(state, #[trigger] g[k].1[j]) == 2 && post.index_of(g[k].1[j]) < post.index_of(g[k].0)
    &&& forall|i: int| 0 <= i < path.len() - 1 ==> is_key(g, #[trigger] path[i]) && dependents_of(g, path[i]).contains(path[i + 1])
}

proof fn lemma_mentions(g: Seq<GraphEntry>)
    ensures
        forall|k: int| 0 <= k < g.len() ==> mentions(g).contains(#[trigger] g[k].0),
        forall|k: int, j: int| 0 <= k < g.len() && 0 <= j < g[k].1.len() ==> mentions(g).contains(#[trigger] g[k].1[j]),
    decreases g.len(),
{
    if g.len() > 0 {
        let d = g.drop_last();
        lemma_mentions(d);
        let m = mentions(g);
        let md = mentions(d);
        let n = md.len() + 1;
        assert(m == md.push(g.last().0) + g.last().1);
        assert forall|k: int| 0 <= k < g.len() implies m.contains(#[trigger] g[k].0) by {
            if k < g.len() - 1 {
                assert(d[k] == g[k]);
                let i = choose|i: int| 0 <= i < md.len() && md[i] == d[k].0;
                assert(m[i] == g[k].0);
            } else {
                assert(m[md.len() as int] == g[k].0);
            }
        }
        assert forall|k: int, j: int| 0 <= k < g.len() && 0 <= j < g[k].1.len() implies m.contains(#[trigger] g[k].1[j]) by {
            if k < g.len() - 1 {
                assert(d[k] == g[k]);
                assert(md.contains(d[k].1[j]));
                let i = choose|i: int| 0 <= i < md.len() && md[i] == d[k].1[j];
                assert(m[i] == g[k].1[j]);
            } else {
                assert(m[n + j] == g[k].1[j]);
            }
        }
    }
}

/// Every id of the graph is among its mentions.
pub proof fn lemma_nodes_mentioned(g: Seq<GraphEntry>, v: Seq<char>)
    requires
        is_node(g, v),
    ensures
        mentions(g).contains(v),
{
    lemma_mentions(g);
    if is_key(g, v) {
        let k = choose|k: int| 0 <= k < graph_keys(g).len() && graph_keys(g)[k] == v;
        assert(g[k].0 == v);
    } else {
        let k = lemma_in_degree_positive(g, v);
        let j = choose|j: int| 0 <= j < g[k].1.len() && g[k].1[j] == v;
        assert(mentions(g).contains(g[k].1[j]));
    }
}

/// The coloured ids are distinct ids of the graph, so there are no more of them than mentions.
proof fn lemma_coloured_bound(g: Seq<GraphEntry>, state: Map<Seq<char>, u8>, post: Seq<Seq<char>>, path: Seq<Seq<char>>)
    requires
        dfs_inv(g, state, post, path),
    ensures
        post.len() + path.len() <= mentions(g).len(),
{
    let both = post + path;
    assert forall|a: int, b: int| 0 <= a < b < both.len() implies both[a] != both[b] by {
        if b < post.len() {
        } else if a >= post.len() {
            assert(both[a] == path[a - post.len()]);
            assert(both[b] == path[b - post.len()]);
        } else {
            assert(post.contains(both[a]));
            assert(path.contains(both[b]));
        }
    }
    assert forall|x: Seq<char>| both.to_set().contains(x) implies mentions(g).to_set().contains(x) by {
        let i = choose|i: int| 0 <= i < both.len() && both[i] == x;
        if i < post.len() {
            assert(post.contains(x));
        } else {
            assert(path[i - post.len()] == x);
            assert(path.contains(x));
        }
        lemma_nodes_mentioned(g, x);
    }
    both.unique_seq_to_set();
    mentions(g).lemma_cardinality_of_set();
    vstd::set_lib::lemma_len_subset(both.to_set(), mentions(g).to_set());
}

/// Along a search path that follows edges, ranks increase.
proof fn lemma_path_ranks(g: Seq<GraphEntry>, path: Seq<Seq<char>>, r: spec_fn(Seq<char>) -> nat, i: int, j: int)
    requires
        ranks_edges(g, r),
        graph_keys(g).no_duplicates(),
        forall|m: int| 0 <= m < path.len() - 1 ==> is_key(g, #[trigger] path[m]) && dependents_of(g, path[m]).contains(path[m + 1]),
        0 <= i <= j < path.len(),
    ensures
        r(path[i]) <= r(path[j]),
    decreases j - i,
{
    if i < j {
        lemma_path_ranks(g, path, r, i, j - 1);
        lemma_edge_rank(g, r, path[j - 1], path[j]);
    }
}

/// An edge goes uphill in any ranking of the graph.
proof fn lemma_edge_rank(g: Seq<GraphEntry>, r: spec_fn(Seq<char>) -> nat, u: Seq<char>, v: Seq<char>)
    requires
        ranks_edges(g, r),
        is_key(g, u),
        dependents_of(g, u).contains(v),
    ensures
        r(u) < r(v),
{
    let k = graph_keys(g).index_of(u);
    assert(g[k].0 == u);
    let j = choose|j: int| 0 <= j < g[k].1.len() && g[k].1[j] == v;
    assert(r(g[k].0) < r(g[k].1[j]));
}

/// Search along an edge that reaches the search path again: the graph has a cycle.
proof fn lemma_grey_edge_is_cycle(g: Seq<GraphEntry>, path: Seq<Seq<char>>, v: Seq<char>)
    requires
        graph_keys(g).no_duplicates(),
        forall|m: int| 0 <= m < path.len() - 1 ==> is_key(g, #[trigger] path[m]) && dependents_of(g, path[m]).contains(path[m + 1]),
        path.len() > 0,
        is_key(g, path.last()),
        dependents_of(g, path.last()).contains(v),
        path.contains(v),
    ensures
        !is_acyclic(g),
{
    if is_acyclic(g) {
        let r = choose|r: spec_fn(Seq<char>) -> nat| ranks_edges(g, r);
        let i = choose|i: int| 0 <= i < path.len() && path[i] == v;
        lemma_path_ranks(g, path, r, i, path.len() - 1);
        lemma_edge_rank(g, r, path.last(), v);
    }
}

impl DependencyGraph {
    /// Searches from `node`, reached from the last id of `path` (when there is one).
    /// Returns false when the search meets the search path: a cycle.
    fn dfs(
        &self,
        node: &String,
        state: &mut StringMap<u8>,
        order: &mut Vec<String>,
        Ghost(path): Ghost<Seq<Seq<char>>>,
    ) -> (ok: bool)
        requires
            self.wf(),
            old(state).wf(),
            dfs_inv(self.entries_view(), old(state)@, strs_view(old(order)@), path),
            is_node(self.entries_view(), node@),
            path.len() > 0 ==> is_key(self.entries_view(), path.last())
                && dependents_of(self.entries_view(), path.last()).contains(node@),
        ensures
            ok ==> {
                &&& final(state).wf()
                &&& dfs_inv(self.entries_view(), final(state)@, strs_view(final(order)@), path)
                &&& color(final(state)@, node@) == 2
                &&& forall|v: Seq<char>| color(old(state)@, v) == 2 ==> #[trigger] color(final(state)@, v) == 2
                &&& strs_view(final(order)@).take(old(order)@.len() as int) == strs_view(old(order)@)
                &&& old(order)@.len() <= final(order)@.len()
            },
            !ok ==> !is_acyclic(self.entries_view()),
        decreases mentions(self.entries_view()).len() - old(order)@.len() - path.len(),
    {
        let ghost g = self.entries_view();
        proof {
            self.lemma_keys();
        }
        let c: u8 = match state.get(node.as_str()) {
            Some(x) => *x,
            None => 0,
        };
        if c == 1 {
            proof {
                assert(path.contains(node@));
                lemma_grey_edge_is_cycle(g, path, node@);
            }
            return false;
        }
        if c == 2 {
            return true;
        }
        proof {
            assert(!path.contains(node@));
            assert(!strs_view(order@).contains(node@));
            lemma_coloured_bound(g, state@, strs_view(order@), path);
            lemma_nodes_mentioned(g, node@);
        }
        let ghost post0 = strs_view(order@);
        let ghost state0 = state@;
        let ghost path1 = path.push(node@);
        state.insert(node.clone(), 1);
        proof {
            crate::string_map::lemma_push_contains(path, node@);
            assert forall|i: int| 0 <= i < path1.len() - 1 implies is_key(g, #[trigger] path1[i]) && dependents_of(g, path1[i]).contains(path1[i + 1]) by {
                if i < path.len() - 1 {
                    assert(path1[i] == path[i] && path1[i + 1] == path[i + 1]);
                } else {
                    assert(path1[i] == path.last());
                    assert(path1[i + 1] == node@);
                }
            }
            assert forall|v: Seq<char>| #[trigger] post0.contains(v) <==> color(state@, v) == 2 by {
                if v == node@ {
                } else {
                    assert(color(state@, v) == color(state0, v));
                }
            }
            assert forall|v: Seq<char>| #[trigger] path1.contains(v) <==> color(state@, v) == 1 by {
                if v != node@ {
                    assert(color(state@, v) == color(state0, v));
                }
            }
            assert forall|k: int, j: int| 0 <= k < g.len() && 0 <= j < g[k].1.len() && color(state@, g[k].0) == 2
                implies color(state@, #[trigger] g[k].1[j]) == 2 && post0.index_of(g[k].1[j]) < post0.index_of(g[k].0) by {
                assert(g[k].0 != node@);
                assert(color(state0, g[k].0) == 2);
                assert(color(state0, g[k].1[j]) == 2);
            }
            assert(dfs_inv(g, state@, post0, path1));
        }
        proof {
            assert forall|v: Seq<char>| color(state0, v) == 2 implies #[trigger] color(state@, v) == 2 by {
                assert(v != node@);
            }
            assert(strs_view(order@).take(post0.len() as int) =~= post0);
        }
        match self.0.get(node.as_str()) {
            Some(neighbors) => {
                proof {
                    let k = self.0.keys_seq().index_of(node@);
                    self.0.lemma_value_at(k);
                    assert(graph_keys(g)[k] == node@);
                    assert(dependents_of(g, node@) == strs_view(neighbors@));
                }
                let mut i: usize = 0;
                while i < neighbors.len()
                    invariant
                        g == self.entries_view(),
                        self.wf(),
                        graph_keys(g) == self.0.keys_seq(),
                        is_key(g, node@),
                        dependents_of(g, node@) == strs_view(neighbors@),
                        path1 == path.push(node@),
                        i <= neighbors@.len(),
                        state.wf(),
                        dfs_inv(g, state@, strs_view(order@), path1),
                        forall|j: int| 0 <= j < i ==> color(state@, #[trigger] strs_view(neighbors@)[j]) == 2,
                        forall|v: Seq<char>| color(state0, v) == 2 ==> #[trigger] color(state@, v) == 2,
                        strs_view(order@).take(post0.len() as int) == post0,
                        post0.len() <= order@.len(),
                        post0 == strs_view(old(order)@),
                    decreases neighbors@.len() - i,
                {
                    proof {
                        assert(strs_view(neighbors@)[i as int] == neighbors@[i as int]@);
                        assert(dependents_of(g, node@).contains(neighbors@[i as int]@));
                        let k = graph_keys(g).index_of(node@);
                        assert(g[k].1 == dependents_of(g, node@));
                        crate::graph_model::lemma_listed_in_degree(g, k, neighbors@[i as int]@);
                    }
                    let ghost post_before = strs_view(order@);
                    let ghost state_before = state@;
                    proof {
                        lemma_coloured_bound(g, state@, strs_view(order@), path1);
                    }
                    if !self.dfs(&neighbors[i], state, order, Ghost(path1)) {
                        return false;
                    }
                    proof {
                        assert forall|j: int| 0 <= j < i + 1 implies color(state@, #[trigger] strs_view(neighbors@)[j]) == 2 by {
                            if j < i {
                                assert(color(state_before, strs_view(neighbors@)[j]) == 2);
                            }
                        }
                        let p = strs_view(order@);
                        assert(p.take(post0.len() as int) =~= post_before.take(post0.len() as int));
                    }
                    i = i + 1;
                }
            },
            None => {},
        }
        let ghost post1 = strs_view(order@);
        let ghost state1 = state@;
        state.insert(node.clone(), 2);
        let ghost on = order@;
        order.push(node.clone());
        proof {
            crate::string_map::lemma_strs_view_push(on, *node);
            let post2 = strs_view(order@);
            assert(post2 == post1.push(node@));
            assert(path1[path.len() as int] == node@);
            assert(path1.contains(node@));
            assert(color(state1, node@) == 1);
            assert(!post1.contains(node@));
            crate::string_map::lemma_push_contains(post1, node@);
            let n1 = post1.len() as int;
            assert(post2[n1] == node@);
            assert(post2.index_of(node@) == n1) by {
                assert(post2.contains(node@));
            }
            assert forall|v: Seq<char>| #[trigger] post1.contains(v) implies post2.index_of(v) == post1.index_of(v) by {
                let a = post1.index_of(v);
                assert(post2[a] == v);
            }
            assert(path1.drop_last() =~= path);
            crate::string_map::lemma_drop_last_contains(path1);
            assert forall|v: Seq<char>| #[trigger] post2.contains(v) <==> color(state@, v) == 2 by {
                if v != node@ {
                    assert(color(state@, v) == color(state1, v));
                }
            }
            assert forall|v: Seq<char>| #[trigger] path.contains(v) <==> color(state@, v) == 1 by {
                if v != node@ {
                    assert(color(state@, v) == color(state1, v));
                }
            }
            assert forall|k: int, j: int| 0 <= k < g.len() && 0 <= j < g[k].1.len() && color(state@, g[k].0) == 2
                implies color(state@, #[trigger] g[k].1[j]) == 2 && post2.index_of(g[k].1[j]) < post2.index_of(g[k].0) by {
                if g[k].0 == node@ {
                    assert(graph_keys(g)[k] == node@);
                    assert(graph_keys(g).index_of(node@) == k);
                    assert(dependents_of(g, node@)[j] == g[k].1[j]);
                    if self.0.has_key(node@) {
                    }
                    assert(color(state1, g[k].1[j]) == 2);
                    assert(post1.contains(g[k].1[j]));
                } else {
                    assert(color(state1, g[k].0) == 2);
                    assert(color(state1, g[k].1[j]) == 2);
                    assert(post1.contains(g[k].0));
                    assert(post1.contains(g[k].1[j]));
                }
            }
            assert forall|i: int| 0 <= i < path.len() - 1 implies is_key(g, #[trigger] path[i]) && dependents_of(g, path[i]).contains(path[i + 1]) by {
                assert(path1[i] == path[i] && path1[i + 1] == path[i + 1]);
            }
            assert(post2.take(post0.len() as int) =~= post1.take(post0.len() as int));
            assert forall|v: Seq<char>| color(state0, v) == 2 implies #[trigger] color(state@, v) == 2 by {
                if v != node@ {
                    assert(color(state@, v) == color(state1, v));
                    if color(state1, v) != 2 {
                        assert(color(old(state)@, v) == 2);
                    }
                }
            }
        }
        true
    }

    /// A topological order by depth-first search: `None` exactly when the graph
    /// has a cycle; otherwise every processor the graph names, once, each before
    /// all of its dependents.
    pub fn topological_sort_dfs(&self) -> (r: Option<Vec<String>>)
        requires
            self.wf(),
        ensures
            r is None <==> !is_acyclic(self.entries_view()),
            r matches Some(o) ==> {
                let s = strs_view(o@);
                &&& s.no_duplicates()
                &&& forall|v: Seq<char>| #[trigger] s.contains(v) <==> is_node(self.entries_view(), v)
                &&& forall|k: int, j: int| 0 <= k < self.entries_view().len() && 0 <= j < self.entries_view()[k].1.len()
                    ==> s.index_of(self.entries_view()[k].0) < s.index_of(#[trigger] self.entries_view()[k].1[j])
            },
    {
        let ghost g = self.entries_view();
        proof {
            self.lemma_keys();
        }
        let mut state: StringMap<u8> = StringMap::new();
        let mut order: Vec<String> = Vec::new();
        let keys = self.keys();
        let ghost empty = Seq::<Seq<char>>::empty();
        proof {
            assert(strs_view(order@) =~= empty);
            assert(dfs_inv(g, state@, strs_view(order@), empty));
        }
        let mut i: usize = 0;
        while i < keys.len()
            invariant
                g == self.entries_view(),
                empty == Seq::<Seq<char>>::empty(),
                self.wf(),
                strs_view(keys@) == graph_keys(g),
                i <= keys@.len(),
                state.wf(),
                dfs_inv(g, state@, strs_view(order@), empty),
                forall|j: int| 0 <= j < i ==> color(state@, #[trigger] strs_view(keys@)[j]) == 2,
            decreases keys@.len() - i,
        {
            proof {
                assert(strs_view(keys@)[i as int] == keys@[i as int]@);
                assert(graph_keys(g).contains(keys@[i as int]@)) by {
                    assert(graph_keys(g)[i as int] == keys@[i as int]@);
                }
            }
            let c: u8 = match state.get(keys[i].as_str()) {
                Some(x) => *x,
                None => 0,
            };
            if c == 0 {
                let ghost state_before = state@;
                if !self.dfs(&keys[i], &mut state, &mut order, Ghost(empty)) {
                    return None;
                }
                proof {
                    assert forall|j: int| 0 <= j < i + 1 implies color(state@, #[trigger] strs_view(keys@)[j]) == 2 by {
                        if j < i {
                            assert(color(state_before, strs_view(keys@)[j]) == 2);
                        }
                    }
                }
            } else {
                proof {
                    assert(!empty.contains(keys@[i as int]@));
                    assert(color(state@, keys@[i as int]@) == 2);
                }
            }
            i = i + 1;
        }
        let ghost post = strs_view(order@);
        proof {
            assert forall|v: Seq<char>| #[trigger] post.contains(v) <==> is_node(g, v) by {
                if is_node(g, v) {
                    if is_key(g, v) {
                        let j = choose|j: int| 0 <= j < graph_keys(g).len() && graph_keys(g)[j] == v;
                        assert(color(state@, strs_view(keys@)[j]) == 2);
                    } else {
                        let k = lemma_in_degree_positive(g, v);
                        let j = choose|j: int| 0 <= j < g[k].1.len() && g[k].1[j] == v;
                        assert(graph_keys(g)[k] == g[k].0);
                        assert(color(state@, strs_view(keys@)[k]) == 2);
                        assert(color(state@, g[k].1[j]) == 2);
                    }
                }
            }
        }
        let n = order.len();
        let mut result: Vec<String> = Vec::new();
        let mut k: usize = n;
        while k > 0
            invariant
                n == order@.len(),
                post == strs_view(order@),
                k <= n,
                result@.len() == n - k,
                forall|m: int| 0 <= m < n - k ==> (#[trigger] result@[m])@ == post[n - 1 - m],
            decreases k,
        {
            k = k - 1;
            result.push(order[k].clone());
            proof {
                assert(result@[n - 1 - k]@ == post[k as int]);
            }
        }
        let ghost s = strs_view(result@);
        proof {
            assert forall|m: int| 0 <= m < n implies #[trigger] s[m] == post[n - 1 - m] by {
                assert(s[m] == result@[m]@);
            }
            assert forall|a: int, b: int| 0 <= a < b < s.len() implies s[a] != s[b] by {
                assert(s[a] == post[n - 1 - a] && s[b] == post[n - 1 - b]);
            }
            assert forall|x: Seq<char>| #[trigger] post.contains(x) implies s.contains(x) && s.index_of(x) == n - 1 - post.index_of(x) by {
                let p = post.index_of(x);
                assert(s[n - 1 - p] == x);
            }
            assert forall|v: Seq<char>| #[trigger] s.contains(v) <==> is_node(g, v) by {
                if s.contains(v) {
                    let m = choose|m: int| 0 <= m < s.len() && s[m] == v;
                    assert(post[n - 1 - m] == v);
                    assert(post.contains(v));
                }
                if is_node(g, v) {
                    assert(post.contains(v));
                }
            }
            assert forall|kk: int, j: int| 0 <= kk < g.len() && 0 <= j < g[kk].1.len()
                implies s.index_of(g[kk].0) < s.index_of(#[trigger] g[kk].1[j]) by {
                assert(graph_keys(g)[kk] == g[kk].0);
                assert(is_key(g, g[kk].0));
                assert(post.contains(g[kk].0));
                assert(color(state@, g[kk].0) == 2);
                assert(post.contains(g[kk].1[j]));
            }
            let rk = |v: Seq<char>| s.index_of(v) as nat;
            assert(ranks_edges(g, rk)) by {
                assert forall|kk: int, j: int| 0 <= kk < g.len() && 0 <= j < g[kk].1.len() implies rk(g[kk].0) < rk(#[trigger] g[kk].1[j]) by {
                    assert(s.index_of(g[kk].0) < s.index_of(g[kk].1[j]));
                    assert(graph_keys(g)[kk] == g[kk].0);
                    assert(post.contains(g[kk].0));
                    assert(s.index_of(g[kk].0) >= 0);
                }
            }
        }
        Some(result)
    }
}

} // verus!
