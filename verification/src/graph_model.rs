//! The mathematical model of a dependency graph and the facts about it that the
//! graph algorithms rely on.
//!
//! A graph is modelled as the ordered sequence of its entries: each entry is a
//! processor id together with the ids of the processors that depend on it
//! (its dependents). Ids are character sequences. A dependent may occur more than
//! once in a list, and may name a processor that has no entry of its own.
use vstd::prelude::*;

verus! {

/// An entry of a graph: a processor and the processors that consume its output.
pub type GraphEntry = (Seq<char>, Seq<Seq<char>>);

/// The number of times `v` occurs in `s`.
pub open spec fn occurrences(s: Seq<Seq<char>>, v: Seq<char>) -> nat
    decreases s.len(),
{
    if s.len() == 0 {
        0
    } else {
        occurrences(s.drop_last(), v) + if s.last() == v { 1nat } else { 0nat }
    }
}

/// The ids that have an entry, in entry order.
pub open spec fn graph_keys(g: Seq<GraphEntry>) -> Seq<Seq<char>> {
    Seq::new(g.len(), |i: int| g[i].0)
}

pub open spec fn is_key(g: Seq<GraphEntry>, v: Seq<char>) -> bool {
    graph_keys(g).contains(v)
}

/// The dependents listed under `v` (meaningful when `is_key(g, v)`).
pub open spec fn dependents_of(g: Seq<GraphEntry>, v: Seq<char>) -> Seq<Seq<char>> {
    g[graph_keys(g).index_of(v)].1
}

/// The number of edges into `v`: how often `v` occurs across all dependent lists.
pub open spec fn in_degree(g: Seq<GraphEntry>, v: Seq<char>) -> nat
    decreases g.len(),
{
    if g.len() == 0 {
        0
    } else {
        in_degree(g.drop_last(), v) + occurrences(g.last().1, v)
    }
}

/// The number of edges into `v` whose source lies in `s`.
pub open spec fn in_degree_from(g: Seq<GraphEntry>, s: Set<Seq<char>>, v: Seq<char>) -> nat
    decreases g.len(),
{
    if g.len() == 0 {
        0
    } else {
        in_degree_from(g.drop_last(), s, v) + if s.contains(g.last().0) {
            occurrences(g.last().1, v)
        } else {
            0nat
        }
    }
}

/// The total number of listed dependents.
pub open spec fn total_edges(g: Seq<GraphEntry>) -> nat
    decreases g.len(),
{
    if g.len() == 0 {
        0
    } else {
        total_edges(g.drop_last()) + g.last().1.len()
    }
}

/// The ids that the graph mentions: those with an entry and those listed as dependents.
pub open spec fn is_node(g: Seq<GraphEntry>, v: Seq<char>) -> bool {
    is_key(g, v) || in_degree(g, v) > 0
}

/// Every listed dependent has an entry of its own.
pub open spec fn is_closed(g: Seq<GraphEntry>) -> bool {
    forall|i: int, j: int| 0 <= i < g.len() && 0 <= j < g[i].1.len() ==> is_key(g, #[trigger] g[i].1[j])
}

/// `r` ranks the graph's ids so that every edge goes from a lower to a higher rank.
pub open spec fn ranks_edges(g: Seq<GraphEntry>, r: spec_fn(Seq<char>) -> nat) -> bool {
    forall|i: int, j: int| 0 <= i < g.len() && 0 <= j < g[i].1.len() ==> r(g[i].0) < r(#[trigger] g[i].1[j])
}

/// The graph has no cycle: some ranking puts every edge uphill.
pub open spec fn is_acyclic(g: Seq<GraphEntry>) -> bool {
    exists|r: spec_fn(Seq<char>) -> nat| ranks_edges(g, r)
}

/// The processors that `v` depends on, in entry order, once per listed edge.
pub open spec fn reverse_of(g: Seq<GraphEntry>, v: Seq<char>) -> Seq<Seq<char>>
    decreases g.len(),
{
    if g.len() == 0 {
        Seq::empty()
    } else {
        reverse_of(g.drop_last(), v) + Seq::new(occurrences(g.last().1, v), |k: int| g.last().0)
    }
}

/// The dependency counts of a graph as machine integers.
pub open spec fn exact_counts(g: Seq<GraphEntry>) -> Map<Seq<char>, usize> {
    Map::new(|v: Seq<char>| is_node(g, v), |v: Seq<char>| in_degree(g, v) as usize)
}

/// The position of every id in `order`.
pub open spec fn ranks_of(order: Seq<Seq<char>>) -> Map<Seq<char>, usize> {
    Map::new(|v: Seq<char>| order.contains(v), |v: Seq<char>| order.index_of(v) as usize)
}

/// `order` is a run of Kahn's algorithm from the counts `c`: no id occurs twice,
/// and each id's count was used up exactly by the edges from the ids before it.
pub open spec fn kahn_closed(g: Seq<GraphEntry>, c: Map<Seq<char>, usize>, order: Seq<Seq<char>>) -> bool {
    &&& order.no_duplicates()
    &&& forall|i: int| 0 <= i < order.len() ==> {
        &&& c.contains_key(#[trigger] order[i])
        &&& c[order[i]] == in_degree_from(g, order.take(i).to_set(), order[i])
    }
}

/// No further id can join `order`: every counted id outside it still waits on an edge.
pub open spec fn kahn_maximal(g: Seq<GraphEntry>, c: Map<Seq<char>, usize>, order: Seq<Seq<char>>) -> bool {
    forall|v: Seq<char>| #[trigger] c.contains_key(v) && !order.contains(v) ==> c[v] != in_degree_from(g, order.to_set(), v)
}

/// `order` is a complete run of Kahn's algorithm from the counts `c`.
pub open spec fn kahn_order(g: Seq<GraphEntry>, c: Map<Seq<char>, usize>, order: Seq<Seq<char>>) -> bool {
    kahn_closed(g, c, order) && kahn_maximal(g, c, order)
}

/// The counts never undercount the edges into an id.
pub open spec fn counts_cover(g: Seq<GraphEntry>, c: Map<Seq<char>, usize>) -> bool {
    forall|v: Seq<char>| #[trigger] c.contains_key(v) ==> c[v] >= in_degree(g, v)
}

/// The counts are exactly the dependency counts of the graph.
pub open spec fn counts_exact(g: Seq<GraphEntry>, c: Map<Seq<char>, usize>) -> bool {
    &&& forall|v: Seq<char>| #[trigger] c.contains_key(v) <==> is_node(g, v)
    &&& forall|v: Seq<char>| #[trigger] c.contains_key(v) ==> c[v] == in_degree(g, v)
}

/// `order` lists each id before every id that depends on it (among the listed ids,
/// an id appears only after all of the processors it depends on).
pub open spec fn respects_edges(g: Seq<GraphEntry>, order: Seq<Seq<char>>) -> bool {
    forall|i: int, k: int| 0 <= i < order.len() && 0 <= k < g.len() && #[trigger] g[k].1.contains(order[i])
        ==> exists|j: int| 0 <= j < i && #[trigger] order[j] == g[k].0
}

pub proof fn lemma_occurrences_le_len(s: Seq<Seq<char>>, v: Seq<char>)
    ensures
        occurrences(s, v) <= s.len(),
    decreases s.len(),
{
    if s.len() > 0 {
        lemma_occurrences_le_len(s.drop_last(), v);
    }
}

pub proof fn lemma_occurrences_contains(s: Seq<Seq<char>>, v: Seq<char>)
    ensures
        occurrences(s, v) > 0 <==> s.contains(v),
    decreases s.len(),
{
    if s.len() > 0 {
        lemma_occurrences_contains(s.drop_last(), v);
        if s.drop_last().contains(v) {
            let j = choose|j: int| 0 <= j < s.drop_last().len() && s.drop_last()[j] == v;
            assert(s[j] == v);
        }
        if s.contains(v) && s.last() != v {
            let j = choose|j: int| 0 <= j < s.len() && s[j] == v;
            assert(s.drop_last()[j] == v);
        }
    }
}

/// Counting over one more element of a prefix.
pub proof fn lemma_occurrences_take(s: Seq<Seq<char>>, j: int, v: Seq<char>)
    requires
        0 <= j < s.len(),
    ensures
        occurrences(s.take(j + 1), v) == occurrences(s.take(j), v) + if s[j] == v { 1nat } else { 0nat },
{
    assert(s.take(j + 1).drop_last() =~= s.take(j));
}

/// A prefix holds no more occurrences than the whole.
pub proof fn lemma_occurrences_take_le(s: Seq<Seq<char>>, j: int, v: Seq<char>)
    requires
        0 <= j <= s.len(),
    ensures
        occurrences(s.take(j), v) <= occurrences(s, v),
    decreases s.len() - j,
{
    if j < s.len() {
        lemma_occurrences_take(s, j, v);
        lemma_occurrences_take_le(s, j + 1, v);
    } else {
        lemma_take_full(s);
    }
}

pub proof fn lemma_take_full<A>(s: Seq<A>)
    ensures
        s.take(s.len() as int) == s,
{
    assert(s.take(s.len() as int) =~= s);
}

pub proof fn lemma_in_degree_take(g: Seq<GraphEntry>, i: int, v: Seq<char>)
    requires
        0 <= i < g.len(),
    ensures
        in_degree(g.take(i + 1), v) == in_degree(g.take(i), v) + occurrences(g[i].1, v),
        total_edges(g.take(i + 1)) == total_edges(g.take(i)) + g[i].1.len(),
        reverse_of(g.take(i + 1), v) == reverse_of(g.take(i), v) + Seq::new(occurrences(g[i].1, v), |k: int| g[i].0),
{
    assert(g.take(i + 1).drop_last() =~= g.take(i));
}

pub proof fn lemma_in_degree_le_total(g: Seq<GraphEntry>, v: Seq<char>)
    ensures
        in_degree(g, v) <= total_edges(g),
    decreases g.len(),
{
    if g.len() > 0 {
        lemma_in_degree_le_total(g.drop_last(), v);
        lemma_occurrences_le_len(g.last().1, v);
    }
}

pub proof fn lemma_total_edges_take(g: Seq<GraphEntry>, i: int)
    requires
        0 <= i <= g.len(),
    ensures
        total_edges(g.take(i)) <= total_edges(g),
    decreases g.len() - i,
{
    if i < g.len() {
        lemma_in_degree_take(g, i, Seq::empty());
        lemma_total_edges_take(g, i + 1);
    } else {
        lemma_take_full(g);
    }
}

pub proof fn lemma_in_degree_from_le(g: Seq<GraphEntry>, s: Set<Seq<char>>, v: Seq<char>)
    ensures
        in_degree_from(g, s, v) <= in_degree(g, v),
    decreases g.len(),
{
    if g.len() > 0 {
        lemma_in_degree_from_le(g.drop_last(), s, v);
    }
}

pub proof fn lemma_in_degree_from_mono(g: Seq<GraphEntry>, a: Set<Seq<char>>, b: Set<Seq<char>>, v: Seq<char>)
    requires
        a.subset_of(b),
    ensures
        in_degree_from(g, a, v) <= in_degree_from(g, b, v),
    decreases g.len(),
{
    if g.len() > 0 {
        lemma_in_degree_from_mono(g.drop_last(), a, b, v);
    }
}

/// Edges counted from a set that already holds the graph's keys-free part stay the same.
pub proof fn lemma_in_degree_from_insert(g: Seq<GraphEntry>, s: Set<Seq<char>>, p: Seq<char>, v: Seq<char>)
    requires
        graph_keys(g).no_duplicates(),
        !s.contains(p),
    ensures
        in_degree_from(g, s.insert(p), v) == in_degree_from(g, s, v) + if is_key(g, p) {
            occurrences(dependents_of(g, p), v)
        } else {
            0nat
        },
    decreases g.len(),
{
    if g.len() > 0 {
        let h = g.drop_last();
        assert(graph_keys(h) =~= graph_keys(g).drop_last());
        lemma_in_degree_from_insert(h, s, p, v);
        let n = g.len() - 1;
        if g.last().0 == p {
            assert(graph_keys(g)[n] == p);
            assert(is_key(g, p));
            let k = graph_keys(g).index_of(p);
            assert(k == n);
            assert(!is_key(h, p)) by {
                if is_key(h, p) {
                    let kk = graph_keys(h).index_of(p);
                    assert(graph_keys(g)[kk] == p);
                }
            }
        } else {
            if is_key(h, p) {
                let kk = graph_keys(h).index_of(p);
                assert(graph_keys(g)[kk] == p);
                assert(is_key(g, p));
                let k = graph_keys(g).index_of(p);
                assert(k == kk);
            }
            if is_key(g, p) {
                let k = graph_keys(g).index_of(p);
                assert(k != n);
                assert(graph_keys(h)[k] == p);
            }
        }
    }
}

/// When every edge into `v` comes from `s`, every source listing `v` lies in `s`.
pub proof fn lemma_in_degree_from_full(g: Seq<GraphEntry>, s: Set<Seq<char>>, v: Seq<char>, k: int)
    requires
        in_degree_from(g, s, v) == in_degree(g, v),
        0 <= k < g.len(),
        g[k].1.contains(v),
    ensures
        s.contains(g[k].0),
    decreases g.len(),
{
    let h = g.drop_last();
    lemma_in_degree_from_le(h, s, v);
    lemma_occurrences_contains(g[k].1, v);
    if k < g.len() - 1 {
        if !s.contains(g.last().0) {
            assert(in_degree_from(h, s, v) == in_degree(h, v) + occurrences(g.last().1, v));
        }
        assert(in_degree_from(h, s, v) == in_degree(h, v));
        assert(h[k] == g[k]);
        lemma_in_degree_from_full(h, s, v, k);
    }
}

/// When some edge into `v` does not come from `s`, a source outside `s` lists `v`.
pub proof fn lemma_in_degree_from_short(g: Seq<GraphEntry>, s: Set<Seq<char>>, v: Seq<char>) -> (k: int)
    requires
        in_degree_from(g, s, v) < in_degree(g, v),
    ensures
        0 <= k < g.len(),
        !s.contains(g[k].0),
        g[k].1.contains(v),
    decreases g.len(),
{
    let h = g.drop_last();
    if !s.contains(g.last().0) && occurrences(g.last().1, v) > 0 {
        lemma_occurrences_contains(g.last().1, v);
        (g.len() - 1) as int
    } else {
        let k = lemma_in_degree_from_short(h, s, v);
        assert(g[k] == h[k]);
        k
    }
}

/// A dependent with positive in-degree is listed by some entry.
pub proof fn lemma_in_degree_positive(g: Seq<GraphEntry>, v: Seq<char>) -> (k: int)
    requires
        in_degree(g, v) > 0,
    ensures
        0 <= k < g.len(),
        g[k].1.contains(v),
{
    lemma_in_degree_from_empty(g, v);
    lemma_in_degree_from_short(g, Set::empty(), v)
}

pub proof fn lemma_in_degree_from_empty(g: Seq<GraphEntry>, v: Seq<char>)
    ensures
        in_degree_from(g, Set::empty(), v) == 0,
    decreases g.len(),
{
    if g.len() > 0 {
        lemma_in_degree_from_empty(g.drop_last(), v);
    }
}

/// Edges listed by entry `k` count toward the in-degree of their targets.
pub proof fn lemma_listed_in_degree(g: Seq<GraphEntry>, k: int, v: Seq<char>)
    requires
        0 <= k < g.len(),
        g[k].1.contains(v),
    ensures
        in_degree(g, v) > 0,
    decreases g.len(),
{
    lemma_occurrences_contains(g[k].1, v);
    if k < g.len() - 1 {
        assert(g.drop_last()[k] == g[k]);
        lemma_listed_in_degree(g.drop_last(), k, v);
    }
}

/// Two complete Kahn runs from counts that cover the edges reach the same ids.
pub proof fn lemma_kahn_unique(g: Seq<GraphEntry>, c: Map<Seq<char>, usize>, o1: Seq<Seq<char>>, o2: Seq<Seq<char>>)
    requires
        counts_cover(g, c),
        kahn_order(g, c, o1),
        kahn_order(g, c, o2),
    ensures
        o1.to_set() == o2.to_set(),
        o1.len() == o2.len(),
{
    lemma_kahn_subset(g, c, o1, o2);
    lemma_kahn_subset(g, c, o2, o1);
    assert(o1.to_set() =~= o2.to_set());
    o1.unique_seq_to_set();
    o2.unique_seq_to_set();
}

proof fn lemma_kahn_subset(g: Seq<GraphEntry>, c: Map<Seq<char>, usize>, o1: Seq<Seq<char>>, o2: Seq<Seq<char>>)
    requires
        counts_cover(g, c),
        kahn_closed(g, c, o1),
        kahn_maximal(g, c, o2),
    ensures
        forall|x: Seq<char>| o1.contains(x) ==> o2.contains(x),
{
    lemma_kahn_subset_prefix(g, c, o1, o2, o1.len() as int);
    lemma_take_full(o1);
}

proof fn lemma_kahn_subset_prefix(g: Seq<GraphEntry>, c: Map<Seq<char>, usize>, o1: Seq<Seq<char>>, o2: Seq<Seq<char>>, i: int)
    requires
        counts_cover(g, c),
        kahn_closed(g, c, o1),
        kahn_maximal(g, c, o2),
        0 <= i <= o1.len(),
    ensures
        forall|x: Seq<char>| o1.take(i).contains(x) ==> o2.contains(x),
    decreases i,
{
    if i > 0 {
        lemma_kahn_subset_prefix(g, c, o1, o2, i - 1);
        let v = o1[i - 1];
        assert(c.contains_key(v));
        let pre = o1.take(i - 1).to_set();
        assert(pre.subset_of(o2.to_set())) by {
            assert forall|x: Seq<char>| pre.contains(x) implies o2.to_set().contains(x) by {
                assert(o1.take(i - 1).contains(x));
            }
        }
        lemma_in_degree_from_mono(g, pre, o2.to_set(), v);
        lemma_in_degree_from_le(g, o2.to_set(), v);
        assert(o2.contains(v));
        assert forall|x: Seq<char>| o1.take(i).contains(x) implies o2.contains(x) by {
            let j = choose|j: int| 0 <= j < o1.take(i).len() && o1.take(i)[j] == x;
            if j < i - 1 {
                assert(o1.take(i - 1)[j] == x);
            }
        }
    }
}

/// Along a Kahn run from exact counts, every processor an id depends on comes before it.
pub proof fn lemma_kahn_respects_edges(g: Seq<GraphEntry>, c: Map<Seq<char>, usize>, o: Seq<Seq<char>>)
    requires
        counts_exact(g, c),
        kahn_closed(g, c, o),
    ensures
        respects_edges(g, o),
{
    assert forall|i: int, k: int| 0 <= i < o.len() && 0 <= k < g.len() && #[trigger] g[k].1.contains(o[i])
        implies exists|j: int| 0 <= j < i && #[trigger] o[j] == g[k].0 by {
        let v = o[i];
        assert(c.contains_key(v));
        lemma_in_degree_from_full(g, o.take(i).to_set(), v, k);
        assert(o.take(i).contains(g[k].0));
        let j = choose|j: int| 0 <= j < o.take(i).len() && o.take(i)[j] == g[k].0;
        assert(o[j] == g[k].0);
    }
}

/// In an acyclic graph with exact counts, a complete Kahn run reaches every counted id.
pub proof fn lemma_kahn_complete(g: Seq<GraphEntry>, c: Map<Seq<char>, usize>, o: Seq<Seq<char>>, r: spec_fn(Seq<char>) -> nat)
    requires
        counts_exact(g, c),
        kahn_maximal(g, c, o),
        ranks_edges(g, r),
    ensures
        forall|v: Seq<char>| #[trigger] c.contains_key(v) ==> o.contains(v),
{
    assert forall|v: Seq<char>| #[trigger] c.contains_key(v) implies o.contains(v) by {
        lemma_kahn_complete_rank(g, c, o, r, r(v), v);
    }
}

proof fn lemma_kahn_complete_rank(g: Seq<GraphEntry>, c: Map<Seq<char>, usize>, o: Seq<Seq<char>>, r: spec_fn(Seq<char>) -> nat, n: nat, v: Seq<char>)
    requires
        counts_exact(g, c),
        kahn_maximal(g, c, o),
        ranks_edges(g, r),
        c.contains_key(v),
        r(v) <= n,
    ensures
        o.contains(v),
    decreases n,
{
    if !o.contains(v) {
        let s = o.to_set();
        lemma_in_degree_from_le(g, s, v);
        assert(in_degree_from(g, s, v) < in_degree(g, v));
        let k = lemma_in_degree_from_short(g, s, v);
        let u = g[k].0;
        let j = choose|j: int| 0 <= j < g[k].1.len() && g[k].1[j] == v;
        assert(r(u) < r(g[k].1[j]));
        assert(is_key(g, u)) by {
            assert(graph_keys(g)[k] == u);
        }
        assert(c.contains_key(u));
        assert(r(u) < n);
        lemma_kahn_complete_rank(g, c, o, r, (n - 1) as nat, u);
        assert(s.contains(u));
    }
}

/// Exact counts that fit machine integers are the graph's dependency counts.
pub proof fn lemma_counts_exact_is(g: Seq<GraphEntry>, c: Map<Seq<char>, usize>)
    requires
        counts_exact(g, c),
    ensures
        c == exact_counts(g),
        counts_cover(g, c),
{
    assert(c =~= exact_counts(g));
}

pub proof fn lemma_exact_counts(g: Seq<GraphEntry>)
    requires
        total_edges(g) <= usize::MAX,
    ensures
        counts_exact(g, exact_counts(g)),
        counts_cover(g, exact_counts(g)),
{
    assert forall|v: Seq<char>| #![auto] in_degree(g, v) <= usize::MAX by {
        lemma_in_degree_le_total(g, v);
    }
}

/// Law: in every topological sort of a graph, each processor comes after all of
/// the processors it depends on.
pub proof fn law_sort_respects_dependencies(g: Seq<GraphEntry>, order: Seq<Seq<char>>)
    requires
        total_edges(g) <= usize::MAX,
        kahn_order(g, exact_counts(g), order),
    ensures
        respects_edges(g, order),
{
    lemma_exact_counts(g);
    lemma_kahn_respects_edges(g, exact_counts(g), order);
}

/// Law: a graph whose dependents all have entries and that has no cycle always sorts:
/// the complete run of Kahn's algorithm takes every processor.
pub proof fn law_acyclic_graph_sorts(g: Seq<GraphEntry>, r: spec_fn(Seq<char>) -> nat, order: Seq<Seq<char>>)
    requires
        graph_keys(g).no_duplicates(),
        total_edges(g) <= usize::MAX,
        is_closed(g),
        ranks_edges(g, r),
        kahn_order(g, exact_counts(g), order),
    ensures
        order.len() == g.len(),
        forall|v: Seq<char>| is_key(g, v) ==> order.contains(v),
{
    lemma_exact_counts(g);
    lemma_kahn_complete(g, exact_counts(g), order, r);
    assert forall|v: Seq<char>| is_key(g, v) implies order.contains(v) by {
        assert(exact_counts(g).contains_key(v));
    }
    lemma_closed_nodes_are_keys(g);
    assert forall|x: Seq<char>| order.contains(x) implies graph_keys(g).contains(x) by {
        let j = choose|j: int| 0 <= j < order.len() && order[j] == x;
        assert(exact_counts(g).contains_key(order[j]));
    }
    crate::string_map::lemma_distinct_within_len(order, graph_keys(g));
    crate::string_map::lemma_distinct_within_len(graph_keys(g), order);
}

/// Law: a graph whose dependents all have entries and whose topological sort takes
/// every processor has no cycle (the sort positions rank every edge uphill).
pub proof fn law_sorted_graph_is_acyclic(g: Seq<GraphEntry>, order: Seq<Seq<char>>)
    requires
        graph_keys(g).no_duplicates(),
        total_edges(g) <= usize::MAX,
        is_closed(g),
        kahn_order(g, exact_counts(g), order),
        order.len() == g.len(),
    ensures
        is_acyclic(g),
{
    lemma_exact_counts(g);
    lemma_kahn_respects_edges(g, exact_counts(g), order);
    lemma_closed_nodes_are_keys(g);
    // every key is in the order: the order is a duplicate-free list of as many keys
    assert forall|x: Seq<char>| order.contains(x) implies graph_keys(g).contains(x) by {
        let j = choose|j: int| 0 <= j < order.len() && order[j] == x;
        assert(exact_counts(g).contains_key(order[j]));
    }
    order.unique_seq_to_set();
    graph_keys(g).unique_seq_to_set();
    assert(order.to_set().subset_of(graph_keys(g).to_set()));
    assert(graph_keys(g).len() == g.len());
    assert(order.to_set() =~= graph_keys(g).to_set()) by {
        vstd::set_lib::lemma_subset_equality(order.to_set(), graph_keys(g).to_set());
    }
    let r = |x: Seq<char>| order.index_of(x) as nat;
    assert forall|i: int, j: int| 0 <= i < g.len() && 0 <= j < g[i].1.len() implies r(g[i].0) < r(#[trigger] g[i].1[j]) by {
        let v = g[i].1[j];
        assert(is_key(g, v));
        assert(graph_keys(g).to_set().contains(v));
        assert(order.contains(v));
        let iv = order.index_of(v);
        assert(order[iv] == v);
        assert(g[i].1.contains(v));
        let jj = choose|jj: int| 0 <= jj < iv && #[trigger] order[jj] == g[i].0;
        assert(order.index_of(g[i].0) == jj) by {
            assert(order.contains(g[i].0));
            let q = order.index_of(g[i].0);
            assert(order[q] == order[jj]);
        }
    }
    assert(ranks_edges(g, r));
}

/// In a graph whose dependents all have entries, every mentioned id has an entry.
pub proof fn lemma_closed_nodes_are_keys(g: Seq<GraphEntry>)
    requires
        is_closed(g),
    ensures
        forall|v: Seq<char>| #[trigger] is_node(g, v) ==> is_key(g, v),
{
    assert forall|v: Seq<char>| #[trigger] is_node(g, v) implies is_key(g, v) by {
        if in_degree(g, v) > 0 {
            let k = lemma_in_degree_positive(g, v);
            let j = choose|j: int| 0 <= j < g[k].1.len() && g[k].1[j] == v;
            assert(is_key(g, g[k].1[j]));
        }
    }
}

/// Occurrences add up over a concatenation.
pub proof fn lemma_occurrences_concat(a: Seq<Seq<char>>, b: Seq<Seq<char>>, u: Seq<char>)
    ensures
        occurrences(a + b, u) == occurrences(a, u) + occurrences(b, u),
    decreases b.len(),
{
    if b.len() > 0 {
        lemma_occurrences_concat(a, b.drop_last(), u);
        assert((a + b).drop_last() =~= a + b.drop_last());
    } else {
        assert(a + b =~= a);
    }
}

/// Law: `occurrences` counts the positions holding `v`.
pub proof fn law_occurrences_count(s: Seq<Seq<char>>, v: Seq<char>)
    ensures
        occurrences(s, v) == s.filter(|x: Seq<char>| x == v).len(),
    decreases s.len(),
{
    reveal(Seq::filter);
    if s.len() > 0 {
        law_occurrences_count(s.drop_last(), v);
    }
}

} // verus!
