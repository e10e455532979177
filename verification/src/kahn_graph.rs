//! A small directed graph built edge by edge, sorted with Kahn's algorithm.
//!
//! Unlike a dependency graph, every node that an edge touches counts: the graph
//! keeps the in-degree of each node, and a sort must take them all.
use vstd::prelude::*;
use vstd::string::*;
use crate::string_map::{StringMap, StringSet, strs_view};
use crate::graph::DependencyGraph;
use crate::text::{decimal, decimal_string};
use crate::graph_model::{
    GraphEntry, graph_keys, is_key, is_node, dependents_of, in_degree, occurrences, total_edges, counts_exact,
    kahn_order, lemma_counts_exact_is, lemma_kahn_unique, lemma_in_degree_le_total,
};

verus! {

/// The entries after adding the edge `from -> to`: appended to the successors
/// of `from`, or as a new entry for `from`.
pub open spec fn with_edge(g: Seq<GraphEntry>, from: Seq<char>, to: Seq<char>) -> Seq<GraphEntry> {
    if is_key(g, from) {
        let k = graph_keys(g).index_of(from);
        g.update(k, (from, g[k].1.push(to)))
    } else {
        g.push((from, seq![to]))
    }
}

/// Replacing one entry changes the in-degrees by what the two entries list.
proof fn lemma_in_degree_update(g: Seq<GraphEntry>, k: int, e: GraphEntry, v: Seq<char>)
    requires
        0 <= k < g.len(),
    ensures
        in_degree(g.update(k, e), v) == in_degree(g, v) - occurrences(g[k].1, v) + occurrences(e.1, v),
        total_edges(g.update(k, e)) == total_edges(g) - g[k].1.len() + e.1.len(),
    decreases g.len(),
{
    let h = g.update(k, e);
    if k == g.len() - 1 {
        assert(h.drop_last() =~= g.drop_last());
    } else {
        lemma_in_degree_update(g.drop_last(), k, e, v);
        assert(h.drop_last() =~= g.drop_last().update(k, e));
    }
}

/// Adding an edge adds one to the in-degree of its target, and makes both ends nodes.
proof fn lemma_with_edge(g: Seq<GraphEntry>, from: Seq<char>, to: Seq<char>)
    requires
        graph_keys(g).no_duplicates(),
    ensures
        graph_keys(with_edge(g, from, to)).no_duplicates(),
        total_edges(with_edge(g, from, to)) == total_edges(g) + 1,
        forall|v: Seq<char>| #[trigger] in_degree(with_edge(g, from, to), v) as int == in_degree(g, v) + (if v == to { 1int } else { 0int }),
        forall|v: Seq<char>| #[trigger] is_key(with_edge(g, from, to), v) <==> (is_key(g, v) || v == from),
{
    let h = with_edge(g, from, to);
    if is_key(g, from) {
        let k = graph_keys(g).index_of(from);
        assert(graph_keys(h) =~= graph_keys(g));
        let e = (from, g[k].1.push(to));
        assert(h == g.update(k, e));
        assert(e.1.drop_last() =~= g[k].1);
        assert(0 <= k < g.len());
        assert forall|v: Seq<char>| #[trigger] in_degree(h, v) as int == in_degree(g, v) + (if v == to { 1int } else { 0int }) by {
            lemma_in_degree_update(g, k, e, v);
            assert(in_degree(h, v) == in_degree(g, v) - occurrences(g[k].1, v) + occurrences(e.1, v));
            assert(occurrences(e.1, v) as int == occurrences(g[k].1, v) + (if v == to { 1int } else { 0int }));
        }
        lemma_in_degree_update(g, k, e, to);
    } else {
        assert(graph_keys(h) =~= graph_keys(g).push(from));
        assert(h.drop_last() =~= g);
        assert forall|v: Seq<char>| #[trigger] in_degree(h, v) as int == in_degree(g, v) + (if v == to { 1int } else { 0int }) by {
            let one: Seq<Seq<char>> = seq![to];
            assert(one.drop_last() =~= Seq::<Seq<char>>::empty());
            assert(occurrences(Seq::<Seq<char>>::empty(), v) == 0);
            assert(occurrences(one, v) as int == (if v == to { 1int } else { 0int }));
            assert(h.last().1 == one);
            assert(in_degree(h, v) == in_degree(h.drop_last(), v) + occurrences(h.last().1, v));
        }
        assert forall|v: Seq<char>| #[trigger] is_key(h, v) <==> (is_key(g, v) || v == from) by {
            crate::string_map::lemma_push_contains(graph_keys(g), from);
        }
        crate::string_map::lemma_push_contains(graph_keys(g), from);
    }
}

/// `x`'s successors at positions `i < j` both have successors of their own, and
/// both lead on to `t`: a diamond from `x` to `t`.
pub open spec fn diamond_at(g: Seq<GraphEntry>, x: Seq<char>, i: int, j: int, t: Seq<char>) -> bool {
    let ds = dependents_of(g, x);
    &&& is_key(g, x)
    &&& 0 <= i < j < ds.len()
    &&& is_key(g, ds[i])
    &&& is_key(g, ds[j])
    &&& dependents_of(g, ds[i]).contains(t)
    &&& dependents_of(g, ds[j]).contains(t)
}

/// The line `x → [y] → t` belongs to a diamond from `x` to `t` that goes through `y`.
pub open spec fn diamond_line(g: Seq<GraphEntry>, x: Seq<char>, y: Seq<char>, t: Seq<char>) -> bool {
    exists|i: int, j: int| #[trigger] diamond_at(g, x, i, j, t)
        && (y == dependents_of(g, x)[i] || y == dependents_of(g, x)[j])
}

/// The character sequences of a list of string triples.
pub open spec fn triples_view(v: Seq<(String, String, String)>) -> Seq<(Seq<char>, Seq<char>, Seq<char>)> {
    Seq::new(v.len(), |k: int| (v[k].0@, v[k].1@, v[k].2@))
}

/// Every line is part of a diamond.
pub open spec fn lines_sound(g: Seq<GraphEntry>, lines: Seq<(Seq<char>, Seq<char>, Seq<char>)>) -> bool {
    forall|k: int| 0 <= k < lines.len() ==> #[trigger] diamond_line(g, lines[k].0, lines[k].1, lines[k].2)
}

/// Both lines of the diamond at `(x, i, j, t)` are listed.
pub open spec fn lists_diamond(g: Seq<GraphEntry>, lines: Seq<(Seq<char>, Seq<char>, Seq<char>)>, x: Seq<char>, i: int, j: int, t: Seq<char>) -> bool {
    &&& lines.contains((x, dependents_of(g, x)[i], t))
    &&& lines.contains((x, dependents_of(g, x)[j], t))
}

fn str_vec_contains(v: &Vec<String>, s: &String) -> (b: bool)
    ensures
        b == strs_view(v@).contains(s@),
{
    let mut i: usize = 0;
    while i < v.len()
        invariant
            i <= v@.len(),
            forall|k: int| 0 <= k < i ==> strs_view(v@)[k] != s@,
        decreases v@.len() - i,
    {
        if crate::string_map::str_equal(&v[i], s) {
            assert(strs_view(v@)[i as int] == s@);
            return true;
        }
        i = i + 1;
    }
    false
}

fn push_line(lines: &mut Vec<(String, String, String)>, x: &String, y: &String, t: &String)
    ensures
        triples_view(final(lines)@) == triples_view(old(lines)@).push((x@, y@, t@)),
{
    let ghost before = lines@;
    lines.push((x.clone(), y.clone(), t.clone()));
    assert(triples_view(lines@) =~= triples_view(before).push((x@, y@, t@)));
}

/// The lines listing the edges, source by source: `    from → to`.
pub open spec fn edge_lines(g: Seq<GraphEntry>) -> Seq<Seq<char>>
    decreases g.len(),
{
    if g.len() == 0 {
        Seq::empty()
    } else {
        let e = g.last();
        edge_lines(g.drop_last()) + Seq::new(e.1.len(), |k: int| "    "@ + e.0 + " → "@ + e.1[k])
    }
}

/// The lines listing the in-degrees: `    node: degree`.
pub open spec fn degree_lines(nodes: Seq<Seq<char>>, degrees: Seq<usize>) -> Seq<Seq<char>> {
    Seq::new(nodes.len(), |k: int| "    "@ + nodes[k] + ": "@ + decimal(degrees[k] as nat))
}

/// `n` levels of indentation, two spaces each.
pub open spec fn indent(n: nat) -> Seq<char> {
    Seq::new(2 * n, |i: int| ' ')
}

/// The line that shows `node` at depth `depth` of a tree.
pub open spec fn tree_line(depth: nat, node: Seq<char>, seen: bool) -> Seq<char> {
    indent(depth) + "├─ "@ + node + if seen { " (already visited)"@ } else { Seq::empty() }
}

/// The line is indented by at least `depth` levels.
pub open spec fn indented(line: Seq<char>, depth: nat) -> bool {
    line.len() >= 2 * depth && line.take((2 * depth) as int) == indent(depth)
}

fn indent_string(n: usize) -> (s: String)
    requires
        2 * n <= usize::MAX,
    ensures
        s@ == indent(n as nat),
{
    let mut s = String::new();
    let mut i: usize = 0;
    while i < n
        invariant
            i <= n,
            2 * n <= usize::MAX,
            s@ == indent(i as nat),
        decreases n - i,
    {
        s.append("  ");
        proof {
            reveal_strlit("  ");
            assert(s@ =~= indent((i + 1) as nat));
        }
        i = i + 1;
    }
    s
}

/// A directed graph: the successors of each node with outgoing edges, and the
/// in-degree of every node that an edge touches.
#[derive(Debug, Clone)]
pub struct Graph {
    pub adjacency_list: DependencyGraph,
    pub in_degree: StringMap<usize>,
}

impl Graph {
    /// The graph's edges, by source.
    pub open spec fn edges_view(&self) -> Seq<GraphEntry> {
        self.adjacency_list.entries_view()
    }

    /// The in-degrees are exactly those of the edges.
    pub open spec fn wf(&self) -> bool {
        &&& self.adjacency_list.wf()
        &&& self.in_degree.wf()
        &&& counts_exact(self.edges_view(), self.in_degree@)
    }

    /// An empty graph.
    pub fn new() -> (g: Self)
        ensures
            g.wf(),
            g.edges_view() == Seq::<GraphEntry>::empty(),
    {
        let g = Graph { adjacency_list: DependencyGraph::new(), in_degree: StringMap::new() };
        proof {
            assert forall|v: Seq<char>| #[trigger] g.in_degree@.contains_key(v) <==> is_node(g.edges_view(), v) by {
                assert(graph_keys(g.edges_view()) =~= Seq::<Seq<char>>::empty());
            }
        }
        g
    }

    /// Adds the edge `from -> to`: one more for the in-degree of `to`, and `from`
    /// becomes a node (with in-degree 0) if it was not one.
    pub fn add_edge(&mut self, from: String, to: String)
        requires
            old(self).wf(),
            total_edges(old(self).edges_view()) < usize::MAX,
        ensures
            final(self).wf(),
            final(self).edges_view() == with_edge(old(self).edges_view(), from@, to@),
    {
        let ghost g = self.edges_view();
        proof {
            self.adjacency_list.lemma_keys();
            lemma_with_edge(g, from@, to@);
            lemma_in_degree_le_total(g, to@);
        }
        let current: usize = match self.in_degree.get(to.as_str()) {
            Some(d) => *d,
            None => 0,
        };
        self.in_degree.insert(to.clone(), current + 1);
        if !self.in_degree.contains_key(from.as_str()) {
            self.in_degree.insert(from.clone(), 0);
        }
        let mut successors: Vec<String> = Vec::new();
        match self.adjacency_list.get_dependents(from.as_str()) {
            Some(s) => {
                let mut i: usize = 0;
                while i < s.len()
                    invariant
                        i <= s@.len(),
                        successors@.len() == i,
                        forall|j: int| 0 <= j < i ==> #[trigger] successors@[j]@ == s@[j]@,
                    decreases s@.len() - i,
                {
                    successors.push(s[i].clone());
                    i = i + 1;
                }
                proof {
                    assert(strs_view(successors@) =~= strs_view(s@));
                }
            },
            None => {},
        }
        let ghost before = successors@;
        let ghost to_g = to;
        successors.push(to);
        proof {
            self.adjacency_list.0.lemma_same_length();
        }
        let ghost key_is_new = !self.adjacency_list.0.has_key(from@);
        let ghost old_values = self.adjacency_list.0.values_seq();
        self.adjacency_list.0.insert(from, successors);
        proof {
            crate::string_map::lemma_strs_view_push(before, to_g);
            self.adjacency_list.lemma_keys();
            let h = self.edges_view();
            let w = with_edge(g, from@, to@);
            self.adjacency_list.0.lemma_same_length();
            if key_is_new {
                assert(strs_view(before) =~= Seq::<Seq<char>>::empty());
                assert(h =~= w) by {
                    assert(h.len() == w.len());
                    assert forall|i: int| 0 <= i < h.len() implies h[i] == w[i] by {
                        if i < g.len() {
                            assert(self.adjacency_list.0.values_seq()[i] == old_values[i]);
                        }
                    }
                }
            } else {
                let k = graph_keys(g).index_of(from@);
                assert(strs_view(before) == g[k].1);
                assert(h =~= w) by {
                    assert(h.len() == w.len());
                    assert forall|i: int| 0 <= i < h.len() implies h[i] == w[i] by {
                        if i != k {
                            assert(self.adjacency_list.0.values_seq()[i] == old_values[i]);
                        }
                    }
                }
            }
            assert forall|v: Seq<char>| #[trigger] self.in_degree@.contains_key(v) <==> is_node(w, v) by {}
            assert forall|v: Seq<char>| #[trigger] self.in_degree@.contains_key(v) implies self.in_degree@[v] == in_degree(w, v) by {}
        }
    }

    /// The diamonds of the graph, as pairs of lines `x → [y] → t`: for every node
    /// `x`, every two of its successors (by position) that have successors, and
    /// every successor `t` of the first that the second also has, one line
    /// through each of the two.
    pub fn diamonds(&self) -> (lines: Vec<(String, String, String)>)
        requires
            self.wf(),
        ensures
            lines_sound(self.edges_view(), triples_view(lines@)),
            forall|x: Seq<char>, i: int, j: int, t: Seq<char>| #[trigger] diamond_at(self.edges_view(), x, i, j, t)
                ==> lists_diamond(self.edges_view(), triples_view(lines@), x, i, j, t),
    {
        let ghost g = self.edges_view();
        let keys = self.adjacency_list.keys();
        let mut lines: Vec<(String, String, String)> = Vec::new();
        let mut k: usize = 0;
        while k < keys.len()
            invariant
                g == self.edges_view(),
                self.wf(),
                strs_view(keys@) == graph_keys(g),
                k <= keys@.len(),
                lines_sound(g, triples_view(lines@)),
                forall|k2: int, i: int, j: int, t: Seq<char>| 0 <= k2 < k && #[trigger] diamond_at(g, graph_keys(g)[k2], i, j, t)
                    ==> lists_diamond(g, triples_view(lines@), graph_keys(g)[k2], i, j, t),
            decreases keys@.len() - k,
        {
            let ghost before = triples_view(lines@);
            let x = &keys[k];
            assert(graph_keys(g)[k as int] == x@);
            self.node_diamonds(x, &mut lines);
            proof {
                assert forall|k2: int, i: int, j: int, t: Seq<char>| 0 <= k2 < k + 1 && #[trigger] diamond_at(g, graph_keys(g)[k2], i, j, t)
                    implies lists_diamond(g, triples_view(lines@), graph_keys(g)[k2], i, j, t) by {
                    if k2 < k {
                        assert(lists_diamond(g, before, graph_keys(g)[k2], i, j, t));
                    }
                }
            }
            k = k + 1;
        }
        proof {
            assert forall|x: Seq<char>, i: int, j: int, t: Seq<char>| #[trigger] diamond_at(g, x, i, j, t)
                implies lists_diamond(g, triples_view(lines@), x, i, j, t) by {
                let k2 = choose|k2: int| 0 <= k2 < graph_keys(g).len() && graph_keys(g)[k2] == x;
                assert(diamond_at(g, graph_keys(g)[k2], i, j, t));
            }
        }
        lines
    }

    /// Adds the diamond lines from `x`.
    fn node_diamonds(&self, x: &String, lines: &mut Vec<(String, String, String)>)
        requires
            self.wf(),
            lines_sound(self.edges_view(), triples_view(old(lines)@)),
        ensures
            lines_sound(self.edges_view(), triples_view(final(lines)@)),
            forall|e: (Seq<char>, Seq<char>, Seq<char>)| triples_view(old(lines)@).contains(e) ==> #[trigger] triples_view(final(lines)@).contains(e),
            forall|i: int, j: int, t: Seq<char>| #[trigger] diamond_at(self.edges_view(), x@, i, j, t)
                ==> lists_diamond(self.edges_view(), triples_view(final(lines)@), x@, i, j, t),
    {
        let ghost g = self.edges_view();
        let ds = match self.adjacency_list.get_dependents(x.as_str()) {
            Some(d) => d,
            None => {
                return;
            },
        };
        let ghost dv = strs_view(ds@);
        if ds.len() < 2 {
            return;
        }
        let mut i: usize = 0;
        while i < ds.len()
            invariant
                g == self.edges_view(),
                self.wf(),
                is_key(g, x@),
                dv == dependents_of(g, x@),
                dv == strs_view(ds@),
                i <= ds@.len(),
                lines_sound(g, triples_view(lines@)),
                forall|e: (Seq<char>, Seq<char>, Seq<char>)| triples_view(old(lines)@).contains(e) ==> #[trigger] triples_view(lines@).contains(e),
                forall|i2: int, j: int, t: Seq<char>| 0 <= i2 < i && #[trigger] diamond_at(g, x@, i2, j, t)
                    ==> lists_diamond(g, triples_view(lines@), x@, i2, j, t),
            decreases ds@.len() - i,
        {
            let mut j: usize = i + 1;
            while j < ds.len()
                invariant
                    g == self.edges_view(),
                    self.wf(),
                    is_key(g, x@),
                    dv == dependents_of(g, x@),
                    dv == strs_view(ds@),
                    i < ds@.len(),
                    i + 1 <= j <= ds@.len(),
                    lines_sound(g, triples_view(lines@)),
                    forall|e: (Seq<char>, Seq<char>, Seq<char>)| triples_view(old(lines)@).contains(e) ==> #[trigger] triples_view(lines@).contains(e),
                    forall|i2: int, j2: int, t: Seq<char>| 0 <= i2 < i && #[trigger] diamond_at(g, x@, i2, j2, t)
                        ==> lists_diamond(g, triples_view(lines@), x@, i2, j2, t),
                    forall|j2: int, t: Seq<char>| j2 < j && #[trigger] diamond_at(g, x@, i as int, j2, t)
                        ==> lists_diamond(g, triples_view(lines@), x@, i as int, j2, t),
                decreases ds@.len() - j,
            {
                let ghost before = triples_view(lines@);
                self.pair_diamonds(x, &ds[i], &ds[j], lines, Ghost(i as int), Ghost(j as int));
                proof {
                    assert forall|i2: int, j2: int, t: Seq<char>| 0 <= i2 < i && #[trigger] diamond_at(g, x@, i2, j2, t)
                        implies lists_diamond(g, triples_view(lines@), x@, i2, j2, t) by {
                        assert(lists_diamond(g, before, x@, i2, j2, t));
                    }
                    assert forall|j2: int, t: Seq<char>| j2 < j + 1 && #[trigger] diamond_at(g, x@, i as int, j2, t)
                        implies lists_diamond(g, triples_view(lines@), x@, i as int, j2, t) by {
                        if j2 < j {
                            assert(lists_diamond(g, before, x@, i as int, j2, t));
                        }
                    }
                }
                j = j + 1;
            }
            proof {
                assert forall|i2: int, j2: int, t: Seq<char>| 0 <= i2 < i + 1 && #[trigger] diamond_at(g, x@, i2, j2, t)
                    implies lists_diamond(g, triples_view(lines@), x@, i2, j2, t) by {
                    if i2 == i {
                        assert(j2 < ds@.len());
                    }
                }
            }
            i = i + 1;
        }
    }

    /// Adds the lines of the diamonds through `x`'s successors `n1` (at position
    /// `i`) and `n2` (at position `j`).
    fn pair_diamonds(
        &self,
        x: &String,
        n1: &String,
        n2: &String,
        lines: &mut Vec<(String, String, String)>,
        Ghost(i): Ghost<int>,
        Ghost(j): Ghost<int>,
    )
        requires
            self.wf(),
            is_key(self.edges_view(), x@),
            0 <= i < j < dependents_of(self.edges_view(), x@).len(),
            dependents_of(self.edges_view(), x@)[i] == n1@,
            dependents_of(self.edges_view(), x@)[j] == n2@,
            lines_sound(self.edges_view(), triples_view(old(lines)@)),
        ensures
            lines_sound(self.edges_view(), triples_view(final(lines)@)),
            forall|e: (Seq<char>, Seq<char>, Seq<char>)| triples_view(old(lines)@).contains(e) ==> #[trigger] triples_view(final(lines)@).contains(e),
            forall|t: Seq<char>| #[trigger] diamond_at(self.edges_view(), x@, i, j, t)
                ==> lists_diamond(self.edges_view(), triples_view(final(lines)@), x@, i, j, t),
    {
        let ghost g = self.edges_view();
        let (a, b) = match (self.adjacency_list.get_dependents(n1.as_str()), self.adjacency_list.get_dependents(n2.as_str())) {
            (Some(a), Some(b)) => (a, b),
            _ => {
                return;
            },
        };
        let mut m: usize = 0;
        while m < a.len()
            invariant
                g == self.edges_view(),
                is_key(g, x@),
                is_key(g, n1@),
                is_key(g, n2@),
                0 <= i < j < dependents_of(g, x@).len(),
                dependents_of(g, x@)[i] == n1@,
                dependents_of(g, x@)[j] == n2@,
                strs_view(a@) == dependents_of(g, n1@),
                strs_view(b@) == dependents_of(g, n2@),
                m <= a@.len(),
                lines_sound(g, triples_view(lines@)),
                forall|e: (Seq<char>, Seq<char>, Seq<char>)| triples_view(old(lines)@).contains(e) ==> #[trigger] triples_view(lines@).contains(e),
                forall|t: Seq<char>| #[trigger] strs_view(a@).take(m as int).contains(t) && strs_view(b@).contains(t)
                    ==> lists_diamond(g, triples_view(lines@), x@, i, j, t),
            decreases a@.len() - m,
        {
            let t = &a[m];
            let ghost before = triples_view(lines@);
            proof {
                assert(strs_view(a@)[m as int] == t@);
                assert(strs_view(a@).take(m + 1) =~= strs_view(a@).take(m as int).push(t@));
                crate::string_map::lemma_push_contains(strs_view(a@).take(m as int), t@);
            }
            if str_vec_contains(b, t) {
                proof {
                    assert(diamond_at(g, x@, i, j, t@));
                    assert(diamond_line(g, x@, n1@, t@));
                    assert(diamond_line(g, x@, n2@, t@));
                }
                push_line(lines, x, n1, t);
                push_line(lines, x, n2, t);
                proof {
                    let after = triples_view(lines@);
                    assert(after[after.len() - 2] == (x@, n1@, t@));
                    assert(after[after.len() - 1] == (x@, n2@, t@));
                    assert forall|k: int| 0 <= k < after.len() implies #[trigger] diamond_line(g, after[k].0, after[k].1, after[k].2) by {
                        if k < before.len() {
                            assert(after[k] == before[k]);
                        }
                    }
                    assert forall|e: (Seq<char>, Seq<char>, Seq<char>)| before.contains(e) implies #[trigger] after.contains(e) by {
                        let k = choose|k: int| 0 <= k < before.len() && before[k] == e;
                        assert(after[k] == e);
                    }
                }
            }
            proof {
                let after = triples_view(lines@);
                assert forall|u: Seq<char>| #[trigger] strs_view(a@).take(m + 1).contains(u) && strs_view(b@).contains(u)
                    implies lists_diamond(g, after, x@, i, j, u) by {
                    if u != t@ {
                        assert(strs_view(a@).take(m as int).contains(u));
                        assert(lists_diamond(g, before, x@, i, j, u));
                        assert(before.contains((x@, n1@, u)));
                        assert(before.contains((x@, n2@, u)));
                    } else {
                        assert(after.contains((x@, n1@, u)));
                    }
                }
            }
            m = m + 1;
        }
        proof {
            assert(strs_view(a@).take(a@.len() as int) =~= strs_view(a@));
        }
    }

    /// The graph as text, line by line: its node count, its edges, and the
    /// in-degree of every node.
    pub fn describe(&self) -> (lines: Vec<String>)
        requires
            self.wf(),
        ensures
            strs_view(lines@) == seq!["Graph:"@, "  Nodes: "@ + decimal(self.in_degree.spec_len())] + seq!["  Edges:"@]
                + edge_lines(self.edges_view()) + seq!["  In-degrees:"@]
                + degree_lines(self.in_degree.keys_seq(), self.in_degree.values_seq()),
    {
        let ghost g = self.edges_view();
        proof {
            self.adjacency_list.lemma_keys();
            self.adjacency_list.0.lemma_same_length();
            self.in_degree.lemma_same_length();
        }
        let mut lines: Vec<String> = Vec::new();
        lines.push(String::from_str("Graph:"));
        let mut nodes = String::from_str("  Nodes: ");
        nodes.append(decimal_string(self.in_degree.len()).as_str());
        lines.push(nodes);
        lines.push(String::from_str("  Edges:"));
        let ghost head = strs_view(lines@);
        proof {
            assert(head =~= seq!["Graph:"@, "  Nodes: "@ + decimal(self.in_degree.spec_len()), "  Edges:"@]);
            assert(edge_lines(g.take(0)) =~= Seq::<Seq<char>>::empty());
            assert(head + edge_lines(g.take(0)) =~= head);
        }
        let n = self.adjacency_list.0.len();
        let mut k: usize = 0;
        while k < n
            invariant
                g == self.edges_view(),
                n == g.len(),
                self.wf(),
                k <= n,
                strs_view(lines@) == head + edge_lines(g.take(k as int)),
            decreases n - k,
        {
            let from = self.adjacency_list.0.key_at(k);
            let tos = self.adjacency_list.0.value_at(k);
            let ghost before = strs_view(lines@);
            proof {
                assert(g.take(k + 1).drop_last() =~= g.take(k as int));
                assert(g[k as int].1 == strs_view(tos@));
            }
            let mut m: usize = 0;
            while m < tos.len()
                invariant
                    m <= tos@.len(),
                    strs_view(lines@) == before + Seq::new(m as nat, |j: int| "    "@ + from@ + " → "@ + strs_view(tos@)[j]),
                decreases tos@.len() - m,
            {
                let mut line = String::from_str("    ");
                line.append(from.as_str());
                line.append(" → ");
                line.append(tos[m].as_str());
                let ghost prev = lines@;
                let ghost line_g = line;
                lines.push(line);
                proof {
                    crate::string_map::lemma_strs_view_push(prev, line_g);
                    assert(strs_view(lines@) =~= before + Seq::new((m + 1) as nat, |j: int| "    "@ + from@ + " → "@ + strs_view(tos@)[j]));
                }
                m = m + 1;
            }
            proof {
                assert(strs_view(lines@) =~= head + edge_lines(g.take(k + 1)));
            }
            k = k + 1;
        }
        proof {
            assert(g.take(n as int) =~= g);
        }
        let ghost before_degrees = lines@;
        let last = String::from_str("  In-degrees:");
        let ghost last_g = last;
        lines.push(last);
        let ghost mid = strs_view(lines@);
        proof {
            crate::string_map::lemma_strs_view_push(before_degrees, last_g);
            assert(mid == head + edge_lines(g) + seq!["  In-degrees:"@]);
        }
        let d = self.in_degree.len();
        let mut i: usize = 0;
        while i < d
            invariant
                d == self.in_degree.spec_len(),
                self.in_degree.values_seq().len() == d,
                i <= d,
                strs_view(lines@) == mid + degree_lines(self.in_degree.keys_seq(), self.in_degree.values_seq()).take(i as int),
            decreases d - i,
        {
            let mut line = String::from_str("    ");
            line.append(self.in_degree.key_at(i).as_str());
            line.append(": ");
            line.append(decimal_string(*self.in_degree.value_at(i)).as_str());
            let ghost prev = lines@;
            let ghost line_g = line;
            lines.push(line);
            proof {
                crate::string_map::lemma_strs_view_push(prev, line_g);
                assert(strs_view(lines@) =~= mid + degree_lines(self.in_degree.keys_seq(), self.in_degree.values_seq()).take(i + 1));
            }
            i = i + 1;
        }
        proof {
            assert(degree_lines(self.in_degree.keys_seq(), self.in_degree.values_seq()).take(d as int)
                =~= degree_lines(self.in_degree.keys_seq(), self.in_degree.values_seq()));
            assert(seq!["Graph:"@, "  Nodes: "@ + decimal(self.in_degree.spec_len())] + seq!["  Edges:"@] =~= head);
        }
        lines
    }

    /// Shows the subtree from `node`, depth first: its line, then the subtrees of
    /// its successors one level deeper. A node shown before is marked and not
    /// expanded again.
    pub fn print_subtree(&self, node: &String, depth: usize, visited: &mut StringSet, lines: &mut Vec<String>)
        requires
            self.wf(),
            old(visited).wf(),
            old(visited)@.subset_of(self.in_degree@.dom()),
            self.in_degree@.contains_key(node@),
            depth + self.in_degree@.dom().len() - old(visited)@.len() < usize::MAX / 2,
        ensures
            final(visited).wf(),
            final(visited)@.subset_of(self.in_degree@.dom()),
            old(visited)@.insert(node@).subset_of(final(visited)@),
            strs_view(final(lines)@).len() > strs_view(old(lines)@).len(),
            strs_view(final(lines)@).take(old(lines)@.len() as int) == strs_view(old(lines)@),
            strs_view(final(lines)@)[old(lines)@.len() as int] == tree_line(depth as nat, node@, old(visited)@.contains(node@)),
            forall|k: int| #![trigger strs_view(final(lines)@)[k]] old(lines)@.len() < k < final(lines)@.len()
                ==> indented(strs_view(final(lines)@)[k], (depth + 1) as nat),
        decreases self.in_degree@.dom().len() - old(visited)@.len(),
    {
        let ghost dom = self.in_degree@.dom();
        let ghost start = lines@;
        proof {
            assert(dom =~= self.in_degree.keys_seq().to_set());
            vstd::seq_lib::seq_to_set_is_finite(self.in_degree.keys_seq());
            vstd::set_lib::lemma_len_subset(visited@, dom);
        }
        let seen = visited.contains(node);
        let mut line = indent_string(depth);
        line.append("├─ ");
        line.append(node.as_str());
        if seen {
            line.append(" (already visited)");
        }
        let ghost line_g = line;
        lines.push(line);
        proof {
            crate::string_map::lemma_strs_view_push(start, line_g);
            assert(strs_view(lines@).take(start.len() as int) =~= strs_view(start));
        }
        if seen {
            proof {
                assert(visited@.insert(node@) =~= visited@);
            }
            return;
        }
        let ghost entry_len = visited@.len();
        let ghost base = visited@.insert(node@);
        visited.insert(node.clone());
        proof {
            vstd::set_lib::lemma_len_subset(visited@, dom);
            assert(base.len() == entry_len + 1);
        }
        let ghost first = lines@;
        match self.adjacency_list.get_dependents(node.as_str()) {
            Some(neighbors) => {
                let mut i: usize = 0;
                while i < neighbors.len()
                    invariant
                        self.wf(),
                        dom == self.in_degree@.dom(),
                        dom.finite(),
                        is_key(self.edges_view(), node@),
                        strs_view(neighbors@) == dependents_of(self.edges_view(), node@),
                        i <= neighbors@.len(),
                        visited.wf(),
                        visited@.subset_of(dom),
                        old(visited)@.insert(node@).subset_of(visited@),
                        entry_len == old(visited)@.len(),
                        base == old(visited)@.insert(node@),
                        base.len() == entry_len + 1,
                        visited@.len() >= entry_len + 1,
                        depth + dom.len() - entry_len < usize::MAX / 2,
                        lines@.len() >= first.len(),
                        first.len() == start.len() + 1,
                        strs_view(lines@).take(first.len() as int) == strs_view(first),
                        forall|k: int| #![trigger strs_view(lines@)[k]] start.len() < k < lines@.len() ==> indented(strs_view(lines@)[k], (depth + 1) as nat),
                    decreases neighbors@.len() - i,
                {
                    let next = &neighbors[i];
                    let ghost before = lines@;
                    proof {
                        assert(strs_view(neighbors@)[i as int] == next@);
                        crate::graph_model::lemma_listed_in_degree(self.edges_view(), graph_keys(self.edges_view()).index_of(node@), next@);
                        assert(self.edges_view()[graph_keys(self.edges_view()).index_of(node@)].1.contains(next@));
                        vstd::set_lib::lemma_len_subset(visited@, dom);
                    }
                    self.print_subtree(next, depth + 1, visited, lines);
                    proof {
                        assert forall|k: int| #![trigger strs_view(lines@)[k]] start.len() < k < lines@.len() implies indented(strs_view(lines@)[k], (depth + 1) as nat) by {
                            if k < before.len() {
                                assert(strs_view(lines@)[k] == strs_view(lines@).take(before.len() as int)[k]);
                                assert(strs_view(lines@)[k] == strs_view(before)[k]);
                            } else if k == before.len() {
                                let l = strs_view(lines@)[k];
                                assert(l.take((2 * (depth + 1)) as int) =~= indent((depth + 1) as nat));
                            } else {
                                let l = strs_view(lines@)[k];
                                assert(indented(l, ((depth + 1) + 1) as nat));
                                assert(l.take((2 * (depth + 1)) as int) =~= l.take((2 * (depth + 2)) as int).take((2 * (depth + 1)) as int));
                                assert(indent((depth + 2) as nat).take((2 * (depth + 1)) as int) =~= indent((depth + 1) as nat));
                            }
                        }
                        assert(strs_view(lines@).take(first.len() as int) =~= strs_view(lines@).take(before.len() as int).take(first.len() as int));
                        vstd::set_lib::lemma_len_subset(base, visited@);
                    }
                    i = i + 1;
                }
            },
            None => {},
        }
        proof {
            assert(strs_view(lines@)[start.len() as int] == strs_view(lines@).take(first.len() as int)[start.len() as int]);
            assert(strs_view(lines@).take(start.len() as int) =~= strs_view(lines@).take(first.len() as int).take(start.len() as int));
        }
    }

    /// Shows the graph as trees: under a heading, the subtree of every node that
    /// no edge points into.
    pub fn visual_display(&self) -> (lines: Vec<String>)
        requires
            self.wf(),
            self.in_degree@.dom().len() < usize::MAX / 2,
        ensures
            strs_view(lines@).len() >= 1,
            strs_view(lines@)[0] == "Graph Structure:"@,
            forall|k: int| 0 <= k < self.in_degree.spec_len() && self.in_degree.values_seq()[k] == 0
                ==> #[trigger] strs_view(lines@).contains(tree_line(0, self.in_degree.keys_seq()[k], false)),
    {
        let mut lines: Vec<String> = Vec::new();
        lines.push(String::from_str("Graph Structure:"));
        let n = self.in_degree.len();
        proof {
            self.in_degree.lemma_same_length();
            assert(self.in_degree@.dom() =~= self.in_degree.keys_seq().to_set());
            self.in_degree.keys_seq().unique_seq_to_set();
        }
        let mut k: usize = 0;
        while k < n
            invariant
                self.wf(),
                n == self.in_degree.spec_len(),
                self.in_degree.values_seq().len() == n,
                self.in_degree@.dom().len() < usize::MAX / 2,
                k <= n,
                lines@.len() >= 1,
                strs_view(lines@)[0] == "Graph Structure:"@,
                forall|k2: int| 0 <= k2 < k && self.in_degree.values_seq()[k2] == 0
                    ==> #[trigger] strs_view(lines@).contains(tree_line(0, self.in_degree.keys_seq()[k2], false)),
            decreases n - k,
        {
            if *self.in_degree.value_at(k) == 0 {
                let root = self.in_degree.key_at(k);
                let mut visited = StringSet::new();
                let ghost before = lines@;
                proof {
                    assert(self.in_degree.has_key(root@));
                }
                self.print_subtree(root, 0, &mut visited, &mut lines);
                proof {
                    let lv = strs_view(lines@);
                    assert(lv[before.len() as int] == tree_line(0, root@, false));
                    assert(lv.contains(tree_line(0, root@, false)));
                    assert(lv[0] == lv.take(before.len() as int)[0]);
                    assert forall|k2: int| 0 <= k2 < k && self.in_degree.values_seq()[k2] == 0
                        implies #[trigger] lv.contains(tree_line(0, self.in_degree.keys_seq()[k2], false)) by {
                        let e = tree_line(0, self.in_degree.keys_seq()[k2], false);
                        assert(strs_view(before).contains(e));
                        let j = choose|j: int| 0 <= j < strs_view(before).len() && strs_view(before)[j] == e;
                        assert(lv[j] == lv.take(before.len() as int)[j]);
                    }
                }
            }
            k = k + 1;
        }
        lines
    }

    /// Kahn's algorithm over every node: the nodes in the order they were taken,
    /// or "Cycle detected in graph" when some node could not be taken.
    pub fn topological_sort(&self) -> (r: Result<Vec<String>, String>)
        requires
            self.wf(),
        ensures
            match r {
                Ok(order) => kahn_order(self.edges_view(), self.in_degree@, strs_view(order@))
                    && order@.len() == self.in_degree@.dom().len(),
                Err(m) => m@ == "Cycle detected in graph"@
                    && forall|o: Seq<Seq<char>>| #[trigger] kahn_order(self.edges_view(), self.in_degree@, o)
                        ==> o.len() != self.in_degree@.dom().len(),
            },
    {
        let ghost g = self.edges_view();
        let ghost c0 = self.in_degree@;
        proof {
            lemma_counts_exact_is(g, c0);
            assert(self.in_degree@.dom() =~= self.in_degree.keys_seq().to_set());
            self.in_degree.keys_seq().unique_seq_to_set();
        }
        let counts = crate::graph::copy_counts(&self.in_degree);
        let order = self.adjacency_list.kahn_run(counts);
        let ghost ov = strs_view(order@);
        if order.len() != self.in_degree.len() {
            proof {
                assert forall|o: Seq<Seq<char>>| #[trigger] kahn_order(g, c0, o) implies o.len() != c0.dom().len() by {
                    lemma_kahn_unique(g, c0, ov, o);
                }
            }
            return Err(String::from_str("Cycle detected in graph"));
        }
        Ok(order)
    }

    /// The same sort as `topological_sort`, kept for callers that ask for the
    /// faster variant; the result obeys the same contract.
    pub fn topological_sort_perf(&self) -> (r: Result<Vec<String>, String>)
        requires
            self.wf(),
        ensures
            match r {
                Ok(order) => kahn_order(self.edges_view(), self.in_degree@, strs_view(order@))
                    && order@.len() == self.in_degree@.dom().len(),
                Err(m) => m@ == "Cycle detected in graph"@
                    && forall|o: Seq<Seq<char>>| #[trigger] kahn_order(self.edges_view(), self.in_degree@, o)
                        ==> o.len() != self.in_degree@.dom().len(),
            },
    {
        if self.in_degree.len() == 0 {
            let empty: Vec<String> = Vec::new();
            proof {
                assert(self.in_degree@.dom() =~= self.in_degree.keys_seq().to_set());
                self.in_degree.keys_seq().unique_seq_to_set();
                assert(strs_view(empty@) =~= Seq::<Seq<char>>::empty());
            }
            return Ok(empty);
        }
        self.topological_sort()
    }
}

} // verus!
