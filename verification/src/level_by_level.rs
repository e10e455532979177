//! The level-by-level strategy: processors are grouped into topological levels,
//! and each level runs only after the one before has finished.
//!
//! The levels, each processor's input, what a processor's response means, and
//! how a level's failures are reported are decided here; the tasks that run a
//! level belong to whoever drives the run.
use vstd::prelude::*;
use crate::string_map::{StringMap, StringSet, strs_view, lemma_push_contains, lemma_drop_last_contains, lemma_strs_view_push};
use crate::graph::DependencyGraph;
use crate::graph_model::{
    GraphEntry, total_edges, is_node, graph_keys, dependents_of, is_key, in_degree, in_degree_from,
    occurrences, counts_exact, lemma_in_degree_from_insert, lemma_in_degree_from_le, lemma_in_degree_from_mono,
    lemma_in_degree_from_full, lemma_in_degree_from_empty, lemma_occurrences_take, lemma_occurrences_take_le,
    lemma_listed_in_degree, lemma_occurrences_concat,
};
use crate::config::EntryPoints;
use crate::errors::{ExecutionError, FailureStrategy};
use crate::proto::{ProcessorRequest, ProcessorResponse, Outcome, MetaView};
use crate::work_queue::{
    duplicate_request, next_payload, CYCLE_MESSAGE, collect_dependency_results, base_of, base_nonempty, dep_metas,
};
use crate::metadata::{BASE_METADATA_KEY, merge_dependency_metadata_for_execution, merged_metadata, responses_wf};
use crate::reactive::NO_OUTCOME_MESSAGE;

verus! {

/// A level-by-level executor with a limit on how many processors of a level run at once.
#[derive(Debug, Clone, Copy, PartialEq, Eq)]
pub struct LevelByLevelExecutor {
    pub max_concurrency: usize,
}

impl LevelByLevelExecutor {
    /// A limit of 0 is raised to 1.
    pub fn new(max_concurrency: usize) -> (e: Self)
        ensures
            e.max_concurrency == if max_concurrency == 0 { 1 } else { max_concurrency },
    {
        LevelByLevelExecutor { max_concurrency: if max_concurrency == 0 { 1 } else { max_concurrency } }
    }
}

/// The input of a processor: an entry point (no dependencies recorded in
/// `reverse_deps`) gets the original input; any other processor the canonical
/// payload, with the original input's base metadata under `BASE_METADATA_KEY`
/// and the metadata of each of its dependencies that has a result under that
/// dependency's id (see `merge_dependency_metadata_for_execution`).
pub fn build_processor_input(
    processor_id: &str,
    reverse_deps: &StringMap<Vec<String>>,
    results: &StringMap<ProcessorResponse>,
    canonical_payload: &Vec<u8>,
    original_input: &ProcessorRequest,
) -> (r: ProcessorRequest)
    requires
        reverse_deps.wf(),
        responses_wf(results),
        original_input.metadata.meta_wf(),
    ensures
        r.metadata.meta_wf(),
        ({
            let no_deps = !reverse_deps@.contains_key(processor_id@) || reverse_deps@[processor_id@]@.len() == 0;
            &&& no_deps ==> r.payload@ == original_input.payload@
                && r.metadata.meta_view() == original_input.metadata.meta_view()
            &&& !no_deps ==> r.payload@ == canonical_payload@ && r.metadata.meta_view() == merged_metadata(
                base_of(*original_input),
                base_nonempty(*original_input),
                dep_metas(results@, strs_view(reverse_deps@[processor_id@]@)),
            )
        }),
{
    match reverse_deps.get(processor_id) {
        Some(deps) => {
            if deps.len() == 0 {
                return duplicate_request(original_input);
            }
            let payload = canonical_payload.clone();
            proof {
                assert(payload@ =~= canonical_payload@);
            }
            let base: StringMap<String> = match original_input.metadata.get(BASE_METADATA_KEY) {
                Some(m) => m.metadata.duplicate(),
                None => StringMap::new(),
            };
            let dependency_results = collect_dependency_results(results, deps);
            proof {
                assert(base.str_view() == base_of(*original_input)) by {
                    if !original_input.metadata@.contains_key(BASE_METADATA_KEY@) {
                        assert(base.str_view() =~= Map::<Seq<char>, Seq<char>>::empty());
                    }
                }
            }
            let metadata = merge_dependency_metadata_for_execution(base, &dependency_results);
            ProcessorRequest { payload, metadata }
        },
        None => duplicate_request(original_input),
    }
}

/// What a processor's response means in a level: any outcome succeeds, and a
/// Transform's next payload becomes the canonical payload; no outcome fails.
pub fn complete_level_task(
    processor_id: &String,
    response: &ProcessorResponse,
    is_transform: bool,
) -> (r: Result<Option<Vec<u8>>, ExecutionError>)
    ensures
        response.outcome is None ==> (r matches Err(ExecutionError::ProcessorFailed { processor_id: id, error })
            && id@ == processor_id@ && error@ == NO_OUTCOME_MESSAGE@),
        response.outcome is Some ==> r is Ok,
        response.outcome is Some && is_transform && next_payload(response.outcome) is Some ==> (r matches Ok(Some(p))
            && p@ == next_payload(response.outcome)->0),
        response.outcome is Some && !(is_transform && next_payload(response.outcome) is Some) ==> r matches Ok(None),
{
    match &response.outcome {
        None => Err(ExecutionError::ProcessorFailed {
            processor_id: processor_id.clone(),
            error: NO_OUTCOME_MESSAGE.to_string(),
        }),
        Some(Outcome::NextPayload(p)) => {
            if is_transform {
                let q = p.clone();
                proof {
                    assert(q@ =~= p@);
                }
                Ok(Some(q))
            } else {
                Ok(None)
            }
        },
        Some(Outcome::Error(_)) => Ok(None),
    }
}

/// The outcome of a level from the outcomes of its tasks, in order: under
/// fail-fast the first error, under the other strategies success.
pub fn level_outcome(task_results: Vec<Result<(), ExecutionError>>, strategy: FailureStrategy) -> (r: Result<(), ExecutionError>)
    ensures
        strategy != FailureStrategy::FailFast ==> r is Ok,
        strategy == FailureStrategy::FailFast ==> {
            ||| (r is Ok && forall|i: int| 0 <= i < task_results@.len() ==> (#[trigger] task_results@[i]) is Ok)
            ||| exists|i: int| 0 <= i < task_results@.len() && (#[trigger] task_results@[i]) is Err
                && r == task_results@[i]
                && forall|j: int| 0 <= j < i ==> (#[trigger] task_results@[j]) is Ok
        },
{
    if strategy != FailureStrategy::FailFast {
        return Ok(());
    }
    let ghost all = task_results@;
    let n: usize = task_results.len();
    let mut rest = task_results;
    let mut k: usize = 0;
    proof {
        assert(all.skip(0) =~= all);
    }
    while rest.len() > 0
        invariant
            strategy == FailureStrategy::FailFast,
            all == task_results@,
            n == all.len(),
            rest@ == all.skip(k as int),
            k <= all.len(),
            forall|j: int| 0 <= j < k ==> (#[trigger] all[j]) is Ok,
        decreases rest@.len(),
    {
        let t = rest.remove(0);
        proof {
            assert(t == all[k as int]);
            assert(rest@ =~= all.skip(k + 1));
        }
        match t {
            Ok(()) => {},
            Err(e) => {
                proof {
                    assert(all[k as int] is Err);
                }
                return Err(e);
            },
        }
        k = k + 1;
    }
    Ok(())
}

/// The message when no entry point is free of dependencies.
pub const NO_ENTRY_POINTS_MESSAGE: &'static str = "No valid entry points found - all processors have dependencies";

/// The entry points that no edge points into, in their order: the first level.
pub open spec fn entry_level(g: Seq<GraphEntry>, eps: Seq<Seq<char>>) -> Seq<Seq<char>>
    decreases eps.len(),
{
    if eps.len() == 0 {
        Seq::empty()
    } else if in_degree(g, eps.last()) == 0 {
        entry_level(g, eps.drop_last()).push(eps.last())
    } else {
        entry_level(g, eps.drop_last())
    }
}

/// The dependents listed under `u`; none when `u` has no entry.
pub open spec fn listed(g: Seq<GraphEntry>, u: Seq<char>) -> Seq<Seq<char>> {
    if is_key(g, u) {
        dependents_of(g, u)
    } else {
        Seq::empty()
    }
}

/// The dependent lists walked once more because an id occurs again in `cs`:
/// for each occurrence after the first, the dependents listed under that id.
pub open spec fn repeat_edges(g: Seq<GraphEntry>, cs: Seq<Seq<char>>) -> Seq<Seq<char>>
    decreases cs.len(),
{
    if cs.len() == 0 {
        Seq::empty()
    } else if cs.drop_last().contains(cs.last()) {
        repeat_edges(g, cs.drop_last()) + listed(g, cs.last())
    } else {
        repeat_edges(g, cs.drop_last())
    }
}

/// The edges walked again because an entry point is listed more than once.
pub open spec fn entry_repeats(g: Seq<GraphEntry>, eps: Seq<Seq<char>>) -> Seq<Seq<char>> {
    repeat_edges(g, entry_level(g, eps))
}

/// How many edges into `v` have been walked: those from the ids in `popped` and
/// the walked-again edges `extra`.
pub open spec fn walked(g: Seq<GraphEntry>, popped: Set<Seq<char>>, extra: Seq<Seq<char>>, v: Seq<char>) -> nat {
    in_degree_from(g, popped, v) + occurrences(extra, v)
}

/// `v` joins the level after the ids in `upto`: it is not placed yet, and the
/// edges walked while the last level (the ids of `upto` that are not in
/// `before`) was taken off the queue were the last it waited for.
pub open spec fn joins(
    g: Seq<GraphEntry>,
    before: Set<Seq<char>>,
    upto: Set<Seq<char>>,
    before_extra: Seq<Seq<char>>,
    extra: Seq<Seq<char>>,
    v: Seq<char>,
) -> bool {
    &&& !upto.contains(v)
    &&& walked(g, before, before_extra, v) < in_degree(g, v)
    &&& walked(g, upto, extra, v) >= in_degree(g, v)
}

/// The edges walked again before the level that makes the first `k` levels
/// into `k + 1` is taken off the queue.
pub open spec fn extra_before(g: Seq<GraphEntry>, eps: Seq<Seq<char>>, k: nat) -> Seq<Seq<char>> {
    if k >= 2 {
        entry_repeats(g, eps)
    } else {
        Seq::empty()
    }
}

/// The ids placed in the first `k` levels.
pub open spec fn placed(g: Seq<GraphEntry>, eps: Seq<Seq<char>>, k: nat) -> Set<Seq<char>>
    decreases k,
{
    if k == 0 {
        Set::empty()
    } else if k == 1 {
        entry_level(g, eps).to_set()
    } else {
        placed(g, eps, (k - 1) as nat).union(
            Set::new(|v: Seq<char>| joins(
                g,
                placed(g, eps, (k - 2) as nat),
                placed(g, eps, (k - 1) as nat),
                extra_before(g, eps, (k - 1) as nat),
                entry_repeats(g, eps),
                v,
            )),
        )
    }
}

/// After `n` levels nothing more is placed.
pub open spec fn settled(g: Seq<GraphEntry>, eps: Seq<Seq<char>>, n: nat) -> bool {
    n >= 1 && placed(g, eps, n + 1) == placed(g, eps, n)
}

/// The ids of each level.
pub open spec fn level_ids(levels: Seq<Vec<String>>) -> Seq<Seq<Seq<char>>> {
    Seq::new(levels.len(), |k: int| strs_view(levels[k]@))
}

/// `ls` lists the levels in order: the first is the entry level, and each holds
/// the ids placed with it, each further level once each; no level is empty.
pub open spec fn levels_follow(g: Seq<GraphEntry>, eps: Seq<Seq<char>>, ls: Seq<Seq<Seq<char>>>) -> bool {
    &&& ls.len() >= 1
    &&& ls[0] == entry_level(g, eps)
    &&& forall|k: int| 0 <= k < ls.len() ==> (#[trigger] ls[k]).len() > 0 && (k > 0 ==> ls[k].no_duplicates())
    &&& forall|k: int, v: Seq<char>| 0 <= k < ls.len() ==> (#[trigger] ls[k].contains(v)
        <==> (placed(g, eps, (k + 1) as nat).contains(v) && !placed(g, eps, k as nat).contains(v)))
}

/// For every id not yet placed, the count holds the edges into it not walked yet
/// (edges from `popped` and the listed `extra` are walked), and it is zero only
/// for an id with no edge into it.
pub open spec fn counts_track(
    g: Seq<GraphEntry>,
    c: Map<Seq<char>, usize>,
    done: Set<Seq<char>>,
    popped: Set<Seq<char>>,
    extra: Seq<Seq<char>>,
) -> bool {
    forall|v: Seq<char>| #[trigger] c.contains_key(v) && !done.contains(v)
        ==> c[v] == in_degree(g, v) - walked(g, popped, extra, v) && (c[v] > 0 || in_degree(g, v) == 0)
}

/// The next level so far: the ids not in `upto`, still waiting for some edge
/// before the level was taken off the queue, all of whose edges have now been
/// walked.
pub open spec fn next_tracks(
    g: Seq<GraphEntry>,
    next: Seq<Seq<char>>,
    before: Set<Seq<char>>,
    before_extra: Seq<Seq<char>>,
    upto: Set<Seq<char>>,
    popped: Set<Seq<char>>,
    extra: Seq<Seq<char>>,
) -> bool {
    forall|v: Seq<char>| #[trigger] next.contains(v) <==> (!upto.contains(v)
        && walked(g, before, before_extra, v) < in_degree(g, v) && walked(g, popped, extra, v) >= in_degree(g, v))
}

pub proof fn lemma_entry_level(g: Seq<GraphEntry>, eps: Seq<Seq<char>>)
    ensures
        forall|v: Seq<char>| #[trigger] entry_level(g, eps).contains(v) <==> (eps.contains(v) && in_degree(g, v) == 0),
        eps.no_duplicates() ==> entry_level(g, eps).no_duplicates(),
    decreases eps.len(),
{
    if eps.len() > 0 {
        let h = eps.drop_last();
        lemma_entry_level(g, h);
        assert(h.push(eps.last()) =~= eps);
        lemma_push_contains(h, eps.last());
        lemma_push_contains(entry_level(g, h), eps.last());
        if eps.no_duplicates() {
            lemma_drop_last_contains(eps);
        }
    }
}

/// The levels grow: what is placed in `k` levels is placed in `k + 1`.
pub proof fn lemma_placed_grows(g: Seq<GraphEntry>, eps: Seq<Seq<char>>, k: nat)
    ensures
        placed(g, eps, k).subset_of(placed(g, eps, k + 1)),
{
}

/// One more level: the ids that join after the first `k` levels.
pub proof fn lemma_placed_step(g: Seq<GraphEntry>, eps: Seq<Seq<char>>, k: nat)
    requires
        k >= 1,
    ensures
        placed(g, eps, k + 1) == placed(g, eps, k).union(
            Set::new(|v: Seq<char>| joins(
                g,
                placed(g, eps, (k - 1) as nat),
                placed(g, eps, k),
                extra_before(g, eps, k),
                entry_repeats(g, eps),
                v,
            )),
        ),
{
}

/// An id placed in the first `k` levels lies in one of them.
pub proof fn lemma_placed_in_level(g: Seq<GraphEntry>, eps: Seq<Seq<char>>, ls: Seq<Seq<Seq<char>>>, k: nat, x: Seq<char>)
    requires
        levels_follow(g, eps, ls),
        k <= ls.len(),
        placed(g, eps, k).contains(x),
    ensures
        exists|j: int| 0 <= j < k && #[trigger] ls[j].contains(x),
    decreases k,
{
    if k > 0 {
        let km = (k - 1) as nat;
        if placed(g, eps, km).contains(x) {
            lemma_placed_in_level(g, eps, ls, km, x);
            let j = choose|j: int| 0 <= j < km && #[trigger] ls[j].contains(x);
            assert(ls[j].contains(x));
        } else {
            assert(ls[km as int].contains(x));
        }
    }
}

/// No id occurs twice, so no edge is walked twice.
pub proof fn lemma_repeat_edges_none(g: Seq<GraphEntry>, cs: Seq<Seq<char>>)
    requires
        cs.no_duplicates(),
    ensures
        repeat_edges(g, cs) == Seq::<Seq<char>>::empty(),
    decreases cs.len(),
{
    if cs.len() > 0 {
        lemma_drop_last_contains(cs);
        lemma_repeat_edges_none(g, cs.drop_last());
    }
}

/// Every processor that another one depends on lies in an earlier level: each
/// level runs only on processors whose dependencies have all run before it
/// (when no entry point is listed twice; one listed twice walks its edges
/// twice, and a processor can then join a level before a dependency of it).
pub proof fn law_levels_follow_dependencies(
    g: Seq<GraphEntry>,
    eps: Seq<Seq<char>>,
    ls: Seq<Seq<Seq<char>>>,
    k: int,
    v: Seq<char>,
    i: int,
)
    requires
        levels_follow(g, eps, ls),
        eps.no_duplicates(),
        0 <= k < ls.len(),
        ls[k].contains(v),
        0 <= i < g.len(),
        g[i].1.contains(v),
    ensures
        exists|j: int| 0 <= j < k && #[trigger] ls[j].contains(g[i].0),
{
    lemma_entry_level(g, eps);
    lemma_repeat_edges_none(g, entry_level(g, eps));
    lemma_listed_in_degree(g, i, v);
    assert(placed(g, eps, (k + 1) as nat).contains(v) && !placed(g, eps, k as nat).contains(v));
    if k == 0 {
        lemma_entry_level(g, eps);
        assert(entry_level(g, eps).contains(v));
    } else {
        lemma_placed_step(g, eps, k as nat);
        assert(joins(
            g,
            placed(g, eps, (k - 1) as nat),
            placed(g, eps, k as nat),
            extra_before(g, eps, k as nat),
            entry_repeats(g, eps),
            v,
        ));
        assert(occurrences(Seq::<Seq<char>>::empty(), v) == 0);
        lemma_in_degree_from_le(g, placed(g, eps, k as nat), v);
        lemma_in_degree_from_full(g, placed(g, eps, k as nat), v, i);
        lemma_placed_in_level(g, eps, ls, k as nat, g[i].0);
    }
}

/// A listed dependent has an edge into it.
proof fn lemma_listed_dependent(g: Seq<GraphEntry>, u: Seq<char>, j: int)
    requires
        0 <= j < listed(g, u).len(),
    ensures
        in_degree(g, listed(g, u)[j]) > 0,
{
    let i = graph_keys(g).index_of(u);
    assert(graph_keys(g).contains(u));
    assert(g[i].1[j] == listed(g, u)[j]);
    assert(g[i].1.contains(listed(g, u)[j]));
    lemma_listed_in_degree(g, i, listed(g, u)[j]);
}

/// Taking `u` off the queue walks the edges listed under it, once more if it
/// was taken off before.
pub open spec fn extra_after(g: Seq<GraphEntry>, popped: Set<Seq<char>>, extra: Seq<Seq<char>>, u: Seq<char>) -> Seq<Seq<char>> {
    if popped.contains(u) {
        extra + listed(g, u)
    } else {
        extra
    }
}

proof fn lemma_walked_after(
    g: Seq<GraphEntry>,
    popped: Set<Seq<char>>,
    extra: Seq<Seq<char>>,
    u: Seq<char>,
    v: Seq<char>,
)
    requires
        graph_keys(g).no_duplicates(),
    ensures
        walked(g, popped.insert(u), extra_after(g, popped, extra, u), v)
            == walked(g, popped, extra, v) + occurrences(listed(g, u), v),
{
    if popped.contains(u) {
        assert(popped.insert(u) =~= popped);
        lemma_occurrences_concat(extra, listed(g, u), v);
    } else {
        lemma_in_degree_from_insert(g, popped, u, v);
    }
}

/// Takes `u` off the queue: each listed edge from `u` to a processor not yet
/// placed lowers its count, and a processor whose count reaches zero joins the
/// next level.
fn release_dependents(
    graph: &DependencyGraph,
    u: &String,
    counts: &mut StringMap<usize>,
    processed: &mut StringSet,
    next: &mut Vec<String>,
    Ghost(before): Ghost<Set<Seq<char>>>,
    Ghost(before_extra): Ghost<Seq<Seq<char>>>,
    Ghost(upto): Ghost<Set<Seq<char>>>,
    Ghost(popped): Ghost<Set<Seq<char>>>,
    Ghost(extra): Ghost<Seq<Seq<char>>>,
)
    requires
        graph.wf(),
        old(counts).wf(),
        old(processed).wf(),
        forall|v: Seq<char>| #[trigger] old(counts)@.contains_key(v) <==> is_node(graph.entries_view(), v),
        forall|v: Seq<char>| walked(graph.entries_view(), before, before_extra, v)
            <= #[trigger] walked(graph.entries_view(), popped, extra, v),
        old(processed)@ == upto.union(strs_view(old(next)@).to_set()),
        strs_view(old(next)@).no_duplicates(),
        counts_track(graph.entries_view(), old(counts)@, old(processed)@, popped, extra),
        next_tracks(graph.entries_view(), strs_view(old(next)@), before, before_extra, upto, popped, extra),
    ensures
        final(counts).wf(),
        final(processed).wf(),
        final(counts).keys_seq() == old(counts).keys_seq(),
        forall|v: Seq<char>| #[trigger] final(counts)@.contains_key(v) <==> is_node(graph.entries_view(), v),
        final(processed)@ == upto.union(strs_view(final(next)@).to_set()),
        strs_view(final(next)@).no_duplicates(),
        counts_track(
            graph.entries_view(),
            final(counts)@,
            final(processed)@,
            popped.insert(u@),
            extra_after(graph.entries_view(), popped, extra, u@),
        ),
        next_tracks(
            graph.entries_view(),
            strs_view(final(next)@),
            before,
            before_extra,
            upto,
            popped.insert(u@),
            extra_after(graph.entries_view(), popped, extra, u@),
        ),
{
    let ghost g = graph.entries_view();
    let ghost ex2 = extra_after(g, popped, extra, u@);
    proof {
        graph.lemma_keys();
        assert forall|v: Seq<char>| walked(g, popped.insert(u@), ex2, v) == walked(g, popped, extra, v)
            + occurrences(listed(g, u@), v) by {
            lemma_walked_after(g, popped, extra, u@, v);
        }
    }
    match graph.get_dependents(u.as_str()) {
        None => {
            proof {
                assert(listed(g, u@) =~= Seq::<Seq<char>>::empty());
                assert forall|v: Seq<char>| walked(g, popped.insert(u@), ex2, v) == walked(g, popped, extra, v) by {
                    assert(occurrences(Seq::<Seq<char>>::empty(), v) == 0);
                }
            }
        },
        Some(deps) => {
            let ghost ds = strs_view(deps@);
            proof {
                assert(ds == listed(g, u@));
                assert(ds.take(0) =~= Seq::<Seq<char>>::empty());
                assert(extra + ds.take(0) =~= extra);
            }
            let mut j: usize = 0;
            while j < deps.len()
                invariant
                    g == graph.entries_view(),
                    graph.wf(),
                    graph_keys(g).no_duplicates(),
                    ds == strs_view(deps@),
                    ds == listed(g, u@),
                    j <= deps@.len(),
                    counts.wf(),
                    processed.wf(),
                    counts.keys_seq() == old(counts).keys_seq(),
                    forall|v: Seq<char>| #[trigger] counts@.contains_key(v) <==> is_node(g, v),
                    forall|v: Seq<char>| walked(g, before, before_extra, v) <= #[trigger] walked(g, popped, extra, v),
                    forall|v: Seq<char>| walked(g, popped.insert(u@), ex2, v) == walked(g, popped, extra, v)
                        + occurrences(ds, v),
                    processed@ == upto.union(strs_view(next@).to_set()),
                    strs_view(next@).no_duplicates(),
                    counts_track(g, counts@, processed@, popped, extra + ds.take(j as int)),
                    next_tracks(g, strs_view(next@), before, before_extra, upto, popped, extra + ds.take(j as int)),
                decreases deps@.len() - j,
            {
                let d = &deps[j];
                let ghost dv = d@;
                proof {
                    assert(ds[j as int] == dv);
                    assert forall|v: Seq<char>| #[trigger] walked(g, popped, extra + ds.take(j + 1), v)
                        == walked(g, popped, extra + ds.take(j as int), v) + if ds[j as int] == v { 1int } else { 0int } by {
                        lemma_occurrences_take(ds, j as int, v);
                        lemma_occurrences_concat(extra, ds.take(j + 1), v);
                        lemma_occurrences_concat(extra, ds.take(j as int), v);
                    }
                    lemma_listed_dependent(g, u@, j as int);
                    assert(walked(g, popped, extra, dv) <= walked(g, popped, extra + ds.take(j as int), dv)) by {
                        lemma_occurrences_concat(extra, ds.take(j as int), dv);
                    }
                }
                if !processed.contains(d) {
                    match counts.get(d.as_str()) {
                        Some(cref) => {
                            let c: usize = *cref;
                            let nc: usize = c - 1;
                            let key = d.clone();
                            counts.insert(key, nc);
                            if nc == 0 {
                                let ghost old_next = next@;
                                let added = d.clone();
                                let ghost added_g = added;
                                next.push(added);
                                processed.insert(d.clone());
                                proof {
                                    lemma_strs_view_push(old_next, added_g);
                                    lemma_push_contains(strs_view(old_next), dv);
                                }
                            }
                        },
                        None => {},
                    }
                }
                j = j + 1;
            }
            proof {
                assert(ds.take(ds.len() as int) =~= ds);
                assert forall|v: Seq<char>| walked(g, popped.insert(u@), ex2, v) == walked(g, popped, extra + ds, v) by {
                    lemma_occurrences_concat(extra, ds, v);
                }
            }
        },
    }
}

/// Takes a whole level off the queue, in order, and returns the next level:
/// the processors whose last dependencies were in it.
fn advance_level(
    graph: &DependencyGraph,
    current: &Vec<String>,
    counts: &mut StringMap<usize>,
    processed: &mut StringSet,
    Ghost(before): Ghost<Set<Seq<char>>>,
    Ghost(before_extra): Ghost<Seq<Seq<char>>>,
    Ghost(upto): Ghost<Set<Seq<char>>>,
) -> (next: Vec<String>)
    requires
        graph.wf(),
        old(counts).wf(),
        old(processed).wf(),
        forall|v: Seq<char>| #[trigger] old(counts)@.contains_key(v) <==> is_node(graph.entries_view(), v),
        before.subset_of(upto),
        forall|v: Seq<char>| #[trigger] strs_view(current@).contains(v) <==> (upto.contains(v) && !before.contains(v)),
        old(processed)@ == upto,
        counts_track(graph.entries_view(), old(counts)@, upto, before, before_extra),
    ensures
        final(counts).wf(),
        final(processed).wf(),
        final(counts).keys_seq() == old(counts).keys_seq(),
        forall|v: Seq<char>| #[trigger] final(counts)@.contains_key(v) <==> is_node(graph.entries_view(), v),
        final(processed)@ == upto.union(strs_view(next@).to_set()),
        strs_view(next@).no_duplicates(),
        forall|v: Seq<char>| #[trigger] strs_view(next@).contains(v) <==> joins(
            graph.entries_view(),
            before,
            upto,
            before_extra,
            before_extra + repeat_edges(graph.entries_view(), strs_view(current@)),
            v,
        ),
        counts_track(
            graph.entries_view(),
            final(counts)@,
            final(processed)@,
            upto,
            before_extra + repeat_edges(graph.entries_view(), strs_view(current@)),
        ),
{
    let ghost g = graph.entries_view();
    let ghost cs = strs_view(current@);
    let mut next: Vec<String> = Vec::new();
    let ghost mut popped = before;
    let ghost mut extra = before_extra;
    proof {
        graph.lemma_keys();
        assert(strs_view(next@) =~= Seq::<Seq<char>>::empty());
        assert(cs.take(0).to_set() =~= Set::<Seq<char>>::empty());
        assert(cs.take(0) =~= Seq::<Seq<char>>::empty());
        assert(before_extra + repeat_edges(g, cs.take(0)) =~= before_extra);
        assert(processed@ =~= upto.union(strs_view(next@).to_set()));
    }
    let mut idx: usize = 0;
    while idx < current.len()
        invariant
            g == graph.entries_view(),
            cs == strs_view(current@),
            graph.wf(),
            graph_keys(g).no_duplicates(),
            idx <= current@.len(),
            before.subset_of(upto),
            forall|v: Seq<char>| #[trigger] cs.contains(v) <==> (upto.contains(v) && !before.contains(v)),
            popped == before.union(cs.take(idx as int).to_set()),
            extra == before_extra + repeat_edges(g, cs.take(idx as int)),
            forall|v: Seq<char>| walked(g, before, before_extra, v) <= #[trigger] walked(g, popped, extra, v),
            counts.wf(),
            processed.wf(),
            counts.keys_seq() == old(counts).keys_seq(),
            forall|v: Seq<char>| #[trigger] counts@.contains_key(v) <==> is_node(g, v),
            processed@ == upto.union(strs_view(next@).to_set()),
            strs_view(next@).no_duplicates(),
            counts_track(g, counts@, processed@, popped, extra),
            next_tracks(g, strs_view(next@), before, before_extra, upto, popped, extra),
        decreases current@.len() - idx,
    {
        let u = &current[idx];
        proof {
            assert(cs[idx as int] == u@);
            assert(cs.take(idx + 1) =~= cs.take(idx as int).push(u@));
            assert(cs.take(idx + 1).drop_last() =~= cs.take(idx as int));
            lemma_push_contains(cs.take(idx as int), u@);
            assert(cs.contains(u@));
            assert(popped.contains(u@) <==> cs.take(idx as int).contains(u@)) by {
                if cs.take(idx as int).contains(u@) {
                    assert(cs.take(idx as int).to_set().contains(u@));
                }
                if cs.take(idx as int).to_set().contains(u@) {
                    assert(cs.take(idx as int).contains(u@));
                }
            }
            assert forall|v: Seq<char>| walked(g, popped.insert(u@), extra_after(g, popped, extra, u@), v)
                == walked(g, popped, extra, v) + occurrences(listed(g, u@), v) by {
                lemma_walked_after(g, popped, extra, u@, v);
            }
        }
        release_dependents(
            graph,
            u,
            counts,
            processed,
            &mut next,
            Ghost(before),
            Ghost(before_extra),
            Ghost(upto),
            Ghost(popped),
            Ghost(extra),
        );
        proof {
            let ex2 = extra_after(g, popped, extra, u@);
            if cs.take(idx as int).contains(u@) {
                assert(ex2 =~= before_extra + repeat_edges(g, cs.take(idx + 1)));
            } else {
                assert(ex2 =~= before_extra + repeat_edges(g, cs.take(idx + 1)));
            }
            assert forall|v: Seq<char>| walked(g, before, before_extra, v) <= #[trigger] walked(
                g,
                popped.insert(u@),
                ex2,
                v,
            ) by {
                assert(walked(g, before, before_extra, v) <= walked(g, popped, extra, v));
            }
            popped = popped.insert(u@);
            extra = ex2;
            assert(popped =~= before.union(cs.take(idx + 1).to_set()));
        }
        idx = idx + 1;
    }
    proof {
        assert(cs.take(cs.len() as int) =~= cs);
        assert(popped =~= upto) by {
            assert forall|v: Seq<char>| popped.contains(v) <==> upto.contains(v) by {
                if cs.to_set().contains(v) {
                    assert(cs.contains(v));
                }
                if upto.contains(v) && !before.contains(v) {
                    assert(cs.contains(v));
                    assert(cs.to_set().contains(v));
                }
            }
        }
    }
    next
}

impl LevelByLevelExecutor {
    /// Groups the processors into topological levels by Kahn's algorithm, level
    /// by level: the first level holds the entry points that nothing points into;
    /// each further level the processors whose last dependencies were in the level
    /// before. An entry point listed more than once stays in the first level as
    /// often, and its dependents are released once per listing. Fails when no
    /// entry point is free, and when the levels do not cover as many processors
    /// as there are graph entries and entry points together (a cycle).
    pub fn compute_topological_levels(
        &self,
        graph: &DependencyGraph,
        entrypoints: &EntryPoints,
    ) -> (r: Result<Vec<Vec<String>>, ExecutionError>)
        requires
            graph.wf(),
            total_edges(graph.entries_view()) <= usize::MAX,
        ensures
            ({
                let g = graph.entries_view();
                let eps = strs_view(entrypoints.0@);
                let total = graph_keys(g).to_set().union(eps.to_set());
                &&& entry_level(g, eps).len() == 0 ==> (r matches Err(ExecutionError::InternalError { message })
                    && message@ == NO_ENTRY_POINTS_MESSAGE@)
                &&& entry_level(g, eps).len() > 0 ==> match r {
                    Ok(levels) => levels_follow(g, eps, level_ids(levels@)) && settled(g, eps, levels@.len())
                        && placed(g, eps, levels@.len()).len() == total.len(),
                    Err(e) => (e matches ExecutionError::InternalError { message } && message@ == CYCLE_MESSAGE@)
                        && exists|n: nat| #[trigger] settled(g, eps, n) && placed(g, eps, n).len() != total.len(),
                }
            }),
    {
        let ghost g = graph.entries_view();
        let ghost eps = strs_view(entrypoints.0@);
        proof {
            graph.lemma_keys();
            lemma_entry_level(g, eps);
        }
        let mut counts = graph.build_dependency_counts();
        let ghost kseq = counts.keys_seq();
        let mut processed = StringSet::new();
        let mut current: Vec<String> = Vec::new();
        proof {
            assert(eps.take(0) =~= Seq::<Seq<char>>::empty());
            assert(strs_view(current@) =~= Seq::<Seq<char>>::empty());
            assert(entry_level(g, Seq::<Seq<char>>::empty()).to_set() =~= Set::<Seq<char>>::empty());
        }
        let mut i: usize = 0;
        while i < entrypoints.0.len()
            invariant
                g == graph.entries_view(),
                eps == strs_view(entrypoints.0@),
                graph.wf(),
                counts.wf(),
                counts_exact(g, counts@),
                i <= eps.len(),
                strs_view(current@) == entry_level(g, eps.take(i as int)),
                processed.wf(),
                processed@ == entry_level(g, eps.take(i as int)).to_set(),
            decreases eps.len() - i,
        {
            let e = &entrypoints.0[i];
            let d: usize = match counts.get(e.as_str()) {
                Some(c) => *c,
                None => 0,
            };
            proof {
                assert(eps.take(i + 1).drop_last() =~= eps.take(i as int));
                assert(eps.take(i + 1).last() == e@);
            }
            if d == 0 {
                let ghost before = current@;
                let entry = e.clone();
                let ghost entry_g = entry;
                current.push(entry);
                processed.insert(e.clone());
                proof {
                    lemma_strs_view_push(before, entry_g);
                    lemma_push_contains(strs_view(before), e@);
                }
            }
            i = i + 1;
        }
        proof {
            assert(eps.take(eps.len() as int) =~= eps);
        }
        if current.len() == 0 {
            return Err(ExecutionError::InternalError { message: NO_ENTRY_POINTS_MESSAGE.to_string() });
        }
        let ghost uset = kseq.to_set().union(eps.to_set());
        proof {
            vstd::seq_lib::seq_to_set_is_finite(kseq);
            vstd::seq_lib::seq_to_set_is_finite(eps);
            assert(processed@.subset_of(uset));
            assert forall|v: Seq<char>| #[trigger] counts@.contains_key(v) && !processed@.contains(v)
                implies counts@[v] == in_degree(g, v) - walked(g, placed(g, eps, 0), extra_before(g, eps, 1), v)
                    && (counts@[v] > 0 || in_degree(g, v) == 0) by {
                lemma_in_degree_from_empty(g, v);
                assert(occurrences(Seq::<Seq<char>>::empty(), v) == 0);
            }
        }
        let mut levels: Vec<Vec<String>> = Vec::new();
        levels.push(current);
        let ghost mut before: Set<Seq<char>> = Set::empty();
        proof {
            assert(level_ids(levels@)[0] == entry_level(g, eps));
        }
        loop
            invariant_except_break
                counts_track(g, counts@, processed@, before, extra_before(g, eps, levels@.len() as nat)),
            invariant
                g == graph.entries_view(),
                eps == strs_view(entrypoints.0@),
                graph.wf(),
                counts.wf(),
                processed.wf(),
                counts.keys_seq() == kseq,
                forall|v: Seq<char>| #[trigger] counts@.contains_key(v) <==> is_node(g, v),
                uset == kseq.to_set().union(eps.to_set()),
                uset.finite(),
                processed@.subset_of(uset),
                levels@.len() >= 1,
                before == placed(g, eps, (levels@.len() - 1) as nat),
                processed@ == placed(g, eps, levels@.len() as nat),
                levels_follow(g, eps, level_ids(levels@)),
            ensures
                settled(g, eps, levels@.len() as nat),
            decreases uset.len() - processed@.len(),
        {
            let k = levels.len();
            let ghost upto = processed@;
            let ghost old_len = processed@.len();
            proof {
                lemma_placed_grows(g, eps, (k - 1) as nat);
                assert forall|v: Seq<char>| #[trigger] strs_view(levels@[k - 1]@).contains(v)
                    <==> (upto.contains(v) && !before.contains(v)) by {
                    assert(level_ids(levels@)[k - 1] == strs_view(levels@[k - 1]@));
                }
                assert(level_ids(levels@)[k - 1] == strs_view(levels@[k - 1]@));
                vstd::set_lib::lemma_len_subset(processed@, uset);
            }
            let ghost bx = extra_before(g, eps, k as nat);
            let next = advance_level(graph, &levels[k - 1], &mut counts, &mut processed, Ghost(before), Ghost(bx), Ghost(upto));
            proof {
                let cs = strs_view(levels@[k - 1]@);
                if k == 1 {
                    assert(cs == entry_level(g, eps));
                    assert(bx + repeat_edges(g, cs) =~= entry_repeats(g, eps));
                } else {
                    assert(level_ids(levels@)[k - 1].no_duplicates());
                    lemma_repeat_edges_none(g, cs);
                    assert(bx + repeat_edges(g, cs) =~= entry_repeats(g, eps));
                }
                assert(extra_before(g, eps, (k + 1) as nat) == entry_repeats(g, eps));
                lemma_placed_step(g, eps, k as nat);
                assert(processed@ =~= placed(g, eps, (k + 1) as nat)) by {
                    assert forall|v: Seq<char>| processed@.contains(v) <==> placed(g, eps, (k + 1) as nat).contains(v) by {
                        if strs_view(next@).to_set().contains(v) {
                            assert(strs_view(next@).contains(v));
                        }
                        if joins(g, before, upto, bx, entry_repeats(g, eps), v) {
                            assert(strs_view(next@).contains(v));
                            assert(strs_view(next@).to_set().contains(v));
                        }
                    }
                }
            }
            if next.len() == 0 {
                proof {
                    assert(strs_view(next@).to_set() =~= Set::<Seq<char>>::empty());
                    assert(placed(g, eps, (k + 1) as nat) =~= placed(g, eps, k as nat));
                }
                break;
            }
            let ghost nv = strs_view(next@);
            let ghost old_levels = levels@;
            levels.push(next);
            proof {
                let x = nv[0];
                assert(nv.contains(x));
                assert(joins(g, before, upto, bx, entry_repeats(g, eps), x));
                lemma_listed_in_degree_positive(g, before, x);
                assert(counts@.contains_key(x));
                assert(kseq.contains(x));
                assert(processed@.subset_of(uset)) by {
                    assert forall|v: Seq<char>| processed@.contains(v) implies uset.contains(v) by {
                        if !upto.contains(v) {
                            assert(nv.to_set().contains(v));
                            assert(nv.contains(v));
                            lemma_listed_in_degree_positive(g, before, v);
                            assert(counts@.contains_key(v));
                            assert(kseq.contains(v));
                        }
                    }
                }
                vstd::set_lib::lemma_len_subset(upto.insert(x), processed@);
                vstd::set_lib::lemma_len_subset(processed@, uset);
                assert(level_ids(levels@) =~= level_ids(old_levels).push(nv));
                assert forall|j: int, v: Seq<char>| 0 <= j < level_ids(levels@).len() implies
                    (#[trigger] level_ids(levels@)[j].contains(v) <==> (placed(g, eps, (j + 1) as nat).contains(v)
                        && !placed(g, eps, j as nat).contains(v))) by {
                    if j == k {
                        assert(level_ids(levels@)[j] == nv);
                    } else {
                        assert(level_ids(levels@)[j] == level_ids(old_levels)[j]);
                    }
                }
                assert forall|j: int| 0 <= j < level_ids(levels@).len() implies
                    (#[trigger] level_ids(levels@)[j]).len() > 0 && (j > 0 ==> level_ids(levels@)[j].no_duplicates()) by {
                    if j == k {
                        assert(level_ids(levels@)[j] == nv);
                    } else {
                        assert(level_ids(levels@)[j] == level_ids(old_levels)[j]);
                    }
                }
                before = upto;
            }
        }
        let keys = graph.keys();
        let mut total = StringSet::new();
        let mut j: usize = 0;
        proof {
            assert(strs_view(keys@).take(0).to_set() =~= Set::<Seq<char>>::empty());
        }
        while j < keys.len()
            invariant
                j <= keys@.len(),
                total.wf(),
                total@ == strs_view(keys@).take(j as int).to_set(),
            decreases keys@.len() - j,
        {
            total.insert(keys[j].clone());
            proof {
                assert(strs_view(keys@).take(j + 1) =~= strs_view(keys@).take(j as int).push(keys@[j as int]@));
                lemma_push_contains(strs_view(keys@).take(j as int), keys@[j as int]@);
            }
            j = j + 1;
        }
        proof {
            assert(strs_view(keys@).take(keys@.len() as int) =~= graph_keys(g));
            assert(eps.take(0).to_set() =~= Set::<Seq<char>>::empty());
            assert(total@ =~= graph_keys(g).to_set().union(eps.take(0).to_set()));
        }
        let mut e: usize = 0;
        while e < entrypoints.0.len()
            invariant
                eps == strs_view(entrypoints.0@),
                e <= eps.len(),
                total.wf(),
                total@ == graph_keys(g).to_set().union(eps.take(e as int).to_set()),
            decreases eps.len() - e,
        {
            total.insert(entrypoints.0[e].clone());
            proof {
                assert(eps.take(e + 1) =~= eps.take(e as int).push(eps[e as int]));
                lemma_push_contains(eps.take(e as int), eps[e as int]);
                assert(total@ =~= graph_keys(g).to_set().union(eps.take(e + 1).to_set()));
            }
            e = e + 1;
        }
        proof {
            assert(eps.take(eps.len() as int) =~= eps);
        }
        if processed.len() != total.len() {
            proof {
                assert(settled(g, eps, levels@.len() as nat));
            }
            return Err(ExecutionError::InternalError { message: CYCLE_MESSAGE.to_string() });
        }
        Ok(levels)
    }
}

/// Once a round places nothing, no later round does.
pub proof fn lemma_settled_stays(g: Seq<GraphEntry>, eps: Seq<Seq<char>>, n: nat, m: nat)
    requires
        settled(g, eps, n),
        n <= m,
    ensures
        placed(g, eps, m) == placed(g, eps, n),
    decreases m - n,
{
    if m > n {
        lemma_settled_stays(g, eps, n, (m - 1) as nat);
        let mm = (m - 1) as nat;
        if mm > n {
            lemma_settled_stays(g, eps, n, (mm - 1) as nat);
            lemma_placed_step(g, eps, mm);
            assert(placed(g, eps, m) =~= placed(g, eps, mm));
        }
    }
}

/// The levels settle on one set of processors: any two points after which
/// nothing more is placed have placed the same processors.
pub proof fn law_settled_levels_agree(g: Seq<GraphEntry>, eps: Seq<Seq<char>>, n: nat, m: nat)
    requires
        settled(g, eps, n),
        settled(g, eps, m),
    ensures
        placed(g, eps, n) == placed(g, eps, m),
{
    if n <= m {
        lemma_settled_stays(g, eps, n, m);
    } else {
        lemma_settled_stays(g, eps, m, n);
    }
}

/// An id that joins a level has edges into it, so the graph mentions it.
proof fn lemma_listed_in_degree_positive(g: Seq<GraphEntry>, before: Set<Seq<char>>, v: Seq<char>)
    requires
        in_degree_from(g, before, v) < in_degree(g, v),
    ensures
        is_node(g, v),
{
}

} // verus!
