//! The reactive strategy: every processor waits for notifications from its
//! dependencies, runs once they have all arrived, and notifies its dependents.
//!
//! The notification network, the counting of pending dependencies, what a
//! processor's response means for the run, and which error a run reports are
//! decided here; channels and tasks belong to whoever drives the run.
use vstd::prelude::*;
use crate::string_map::{StringMap, strs_view, str_equal};
use crate::processor_map::ProcessorMap;
use crate::config::EntryPoints;
use crate::graph::DependencyGraph;
use crate::graph_model::{total_edges, exact_counts, graph_keys, dependents_of, is_key};
use crate::errors::{ExecutionError, FailureStrategy};
use crate::proto::{ProcessorResponse, Outcome, ErrorDetail, PipelineMetadata, MetaView, outcome_view};

verus! {

/// The message recorded for a processor that returned no outcome.
pub const NO_OUTCOME_MESSAGE: &'static str = "Processor returned no outcome";

/// A reactive executor with a limit on how many processors run at once.
#[derive(Debug, Clone, Copy, PartialEq, Eq)]
pub struct ReactiveExecutor {
    pub max_concurrency: usize,
}

impl ReactiveExecutor {
    /// A limit of 0 is raised to 1.
    pub fn new(max_concurrency: usize) -> (e: Self)
        ensures
            e.max_concurrency == if max_concurrency == 0 { 1 } else { max_concurrency },
    {
        ReactiveExecutor { max_concurrency: if max_concurrency == 0 { 1 } else { max_concurrency } }
    }
}

/// A notification to a processor.
pub enum ProcessorEvent {
    /// One of its dependencies has completed.
    DependencyCompleted { dependency_id: String, metadata: Option<PipelineMetadata> },
    /// It is an entry point: run now.
    Execute { metadata: Option<PipelineMetadata> },
}

/// A processor's place in the notification network.
pub struct ProcessorNode {
    pub processor_id: String,
    pub dependents: Vec<String>,
    pub pending_dependencies: usize,
}

impl ProcessorNode {
    /// A dependency has completed: one fewer to wait for.
    pub fn handle_dependency_completed(&mut self)
        requires
            old(self).pending_dependencies > 0,
        ensures
            final(self).pending_dependencies == old(self).pending_dependencies - 1,
            final(self).processor_id == old(self).processor_id,
            final(self).dependents == old(self).dependents,
    {
        self.pending_dependencies = self.pending_dependencies - 1;
    }

    /// An entry point is told to run: nothing is left to wait for.
    pub fn handle_execute_event(&mut self) -> (run_now: bool)
        ensures
            run_now,
            final(self).pending_dependencies == 0,
            final(self).processor_id == old(self).processor_id,
            final(self).dependents == old(self).dependents,
    {
        self.pending_dependencies = 0;
        true
    }

    /// Handles a notification; returns whether the processor runs now regardless of
    /// what it still waits for.
    pub fn process_event(&mut self, event: ProcessorEvent) -> (run_now: bool)
        requires
            old(self).pending_dependencies > 0,
        ensures
            final(self).processor_id == old(self).processor_id,
            final(self).dependents == old(self).dependents,
            event is DependencyCompleted ==> !run_now
                && final(self).pending_dependencies == old(self).pending_dependencies - 1,
            event is Execute ==> run_now && final(self).pending_dependencies == 0,
    {
        match event {
            ProcessorEvent::DependencyCompleted { .. } => {
                self.handle_dependency_completed();
                false
            },
            ProcessorEvent::Execute { .. } => self.handle_execute_event(),
        }
    }
}

/// Builds the notification network: a node for every processor of the graph, in
/// entry order, with the dependents it notifies and the number of dependencies
/// it waits for.
pub fn build_notification_network(graph: &DependencyGraph) -> (nodes: Vec<ProcessorNode>)
    requires
        graph.wf(),
        total_edges(graph.entries_view()) <= usize::MAX,
    ensures
        nodes@.len() == graph.entries_view().len(),
        forall|i: int| 0 <= i < nodes@.len() ==> {
            &&& (#[trigger] nodes@[i]).processor_id@ == graph.entries_view()[i].0
            &&& strs_view(nodes@[i].dependents@) == graph.entries_view()[i].1
            &&& nodes@[i].pending_dependencies == exact_counts(graph.entries_view())[graph.entries_view()[i].0]
        },
{
    let counts = graph.build_dependency_counts();
    let keys = graph.keys();
    let values = graph.values();
    let mut nodes: Vec<ProcessorNode> = Vec::new();
    let mut i: usize = 0;
    proof {
        assert(strs_view(keys@).len() == keys@.len());
    }
    while i < keys.len()
        invariant
            keys@.len() == graph.entries_view().len(),
            strs_view(keys@) == graph_keys(graph.entries_view()),
            values@.len() == graph.entries_view().len(),
            forall|j: int| 0 <= j < values@.len() ==> strs_view((#[trigger] values@[j])@) == graph.entries_view()[j].1,
            counts.wf(),
            counts@ == exact_counts(graph.entries_view()),
            i <= keys@.len(),
            nodes@.len() == i,
            forall|j: int| 0 <= j < i ==> {
                &&& (#[trigger] nodes@[j]).processor_id@ == graph.entries_view()[j].0
                &&& strs_view(nodes@[j].dependents@) == graph.entries_view()[j].1
                &&& nodes@[j].pending_dependencies == exact_counts(graph.entries_view())[graph.entries_view()[j].0]
            },
        decreases keys@.len() - i,
    {
        proof {
            assert(strs_view(keys@)[i as int] == keys@[i as int]@);
            assert(strs_view(keys@).len() == keys@.len());
            assert(graph_keys(graph.entries_view()).len() == graph.entries_view().len());
            assert(graph_keys(graph.entries_view())[i as int] == graph.entries_view()[i as int].0);
            assert(crate::graph_model::is_node(graph.entries_view(), keys@[i as int]@)) by {
                assert(graph_keys(graph.entries_view()).contains(keys@[i as int]@));
            }
        }
        let pending: usize = match counts.get(keys[i].as_str()) {
            Some(c) => *c,
            None => 0,
        };
        let dependents = values[i].clone();
        proof {
            assert(strs_view(dependents@) =~= strs_view(values@[i as int]@));
        }
        nodes.push(ProcessorNode { processor_id: keys[i].clone(), dependents, pending_dependencies: pending });
        i = i + 1;
    }
    nodes
}

/// What a run does with a processor's response.
pub enum CompletionAction {
    /// Success: store the response and notify the dependents with its metadata;
    /// `new_payload` is the canonical payload from now on, when given.
    Succeeded { response: ProcessorResponse, new_payload: Option<Vec<u8>> },
    /// Failure that the run survives: store this response and notify the dependents without metadata.
    Failed { response: ProcessorResponse },
    /// Failure that stops the run with this error.
    Abort(ExecutionError),
}

/// Decides what a processor's response means for the run.
///
/// A next payload succeeds, and a Transform's payload becomes the canonical one.
/// An error, or no outcome at all, stops the run under fail-fast; under the other
/// strategies it is recorded (no outcome as an error response with code 500) and
/// the run goes on.
pub fn decide_completion(
    processor_id: &String,
    response: ProcessorResponse,
    is_transform: bool,
    strategy: FailureStrategy,
) -> (a: CompletionAction)
    ensures
        match response.outcome {
            Some(Outcome::NextPayload(p)) => a matches CompletionAction::Succeeded { response: r, new_payload }
                && r == response
                && (is_transform ==> new_payload is Some && new_payload->0@ == p@)
                && (!is_transform ==> new_payload is None),
            Some(Outcome::Error(e)) => if strategy == FailureStrategy::FailFast {
                a matches CompletionAction::Abort(ExecutionError::ProcessorFailed { processor_id: id, error })
                    && id@ == processor_id@ && error@ == e.message@
            } else {
                a matches CompletionAction::Failed { response: r } && r == response
            },
            None => if strategy == FailureStrategy::FailFast {
                a matches CompletionAction::Abort(ExecutionError::ProcessorFailed { processor_id: id, error })
                    && id@ == processor_id@ && error@ == NO_OUTCOME_MESSAGE@
            } else {
                a matches CompletionAction::Failed { response: r }
                    && outcome_view(r.outcome) == Some((false, Seq::<u8>::empty(), 500i32, NO_OUTCOME_MESSAGE@))
                    && r.metadata.meta_wf()
                    && r.metadata.meta_view() == MetaView::empty()
            },
        },
{
    match &response.outcome {
        Some(Outcome::NextPayload(p)) => {
            let new_payload = if is_transform {
                let q = p.clone();
                proof {
                    assert(q@ =~= p@);
                }
                Some(q)
            } else {
                None
            };
            CompletionAction::Succeeded { response, new_payload }
        },
        Some(Outcome::Error(e)) => {
            if strategy == FailureStrategy::FailFast {
                CompletionAction::Abort(ExecutionError::ProcessorFailed {
                    processor_id: processor_id.clone(),
                    error: e.message.clone(),
                })
            } else {
                CompletionAction::Failed { response }
            }
        },
        None => {
            if strategy == FailureStrategy::FailFast {
                CompletionAction::Abort(ExecutionError::ProcessorFailed {
                    processor_id: processor_id.clone(),
                    error: NO_OUTCOME_MESSAGE.to_string(),
                })
            } else {
                let r = ProcessorResponse {
                    outcome: Some(Outcome::Error(ErrorDetail { code: 500, message: NO_OUTCOME_MESSAGE.to_string() })),
                    metadata: StringMap::new(),
                };
                proof {
                    assert(r.metadata.meta_view() =~= MetaView::empty());
                }
                CompletionAction::Failed { response: r }
            }
        },
    }
}

/// A processor failure.
pub open spec fn is_failure(e: ExecutionError) -> bool {
    e is ProcessorFailed
}

/// The error a run reports, from the errors of its tasks in order: the first
/// processor failure, else the first other error, else none.
pub fn select_error(errors: Vec<ExecutionError>) -> (r: Option<ExecutionError>)
    ensures
        (exists|i: int| 0 <= i < errors@.len() && #[trigger] is_failure(errors@[i])) ==> exists|i: int|
            0 <= i < errors@.len() && #[trigger] is_failure(errors@[i]) && r == Some(errors@[i])
                && forall|j: int| 0 <= j < i ==> !(#[trigger] is_failure(errors@[j])),
        !(exists|i: int| 0 <= i < errors@.len() && #[trigger] is_failure(errors@[i])) ==> if errors@.len() > 0 {
            r == Some(errors@[0])
        } else {
            r is None
        },
{
    let ghost all = errors@;
    let n: usize = errors.len();
    let mut rest = errors;
    let mut first_other: Option<ExecutionError> = None;
    let mut k: usize = 0;
    proof {
        assert(all.skip(0) =~= all);
    }
    while rest.len() > 0
        invariant
            all == errors@,
            n == all.len(),
            rest@ == all.skip(k as int),
            k <= all.len(),
            forall|j: int| 0 <= j < k ==> !(#[trigger] is_failure(all[j])),
            k == 0 ==> first_other is None,
            k > 0 ==> first_other == Some(all[0]),
        decreases rest@.len(),
    {
        let e = rest.remove(0);
        proof {
            assert(e == all[k as int]);
            assert(rest@ =~= all.skip(k + 1));
        }
        match e {
            ExecutionError::ProcessorFailed { .. } => {
                proof {
                    assert(is_failure(all[k as int]));
                }
                return Some(e);
            },
            _ => {
                if k == 0 {
                    first_other = Some(e);
                }
            },
        }
        k = k + 1;
    }
    proof {
        assert(k == all.len());
        if k > 0 {
            assert(all.len() > 0);
        }
    }
    first_other
}

/// `j` is the first node of `nodes` with id `id`.
pub open spec fn first_with_id(nodes: Seq<ProcessorNode>, id: Seq<char>, j: int) -> bool {
    &&& 0 <= j < nodes.len()
    &&& nodes[j].processor_id@ == id
    &&& forall|k: int| 0 <= k < j ==> (#[trigger] nodes[k]).processor_id@ != id
}

/// Some node of `nodes` has id `id`.
pub open spec fn has_node(nodes: Seq<ProcessorNode>, id: Seq<char>) -> bool {
    exists|j: int| #[trigger] first_with_id(nodes, id, j)
}

/// The first node of `nodes` with id `id` (meaningful when `has_node`).
pub open spec fn node_of(nodes: Seq<ProcessorNode>, id: Seq<char>) -> int {
    choose|j: int| #[trigger] first_with_id(nodes, id, j)
}

/// The network after the node named `id` is told that one of its dependencies
/// completed: its count drops by one, unless nothing is left to wait for or no
/// node has that name.
pub open spec fn notified(nodes: Seq<ProcessorNode>, id: Seq<char>) -> Seq<ProcessorNode> {
    if has_node(nodes, id) && nodes[node_of(nodes, id)].pending_dependencies > 0 {
        let j = node_of(nodes, id);
        nodes.update(j, ProcessorNode {
            processor_id: nodes[j].processor_id,
            dependents: nodes[j].dependents,
            pending_dependencies: (nodes[j].pending_dependencies - 1) as usize,
        })
    } else {
        nodes
    }
}

/// Whether that notification leaves the node named `id` with nothing to wait for.
pub open spec fn becomes_ready(nodes: Seq<ProcessorNode>, id: Seq<char>) -> bool {
    has_node(nodes, id) && nodes[node_of(nodes, id)].pending_dependencies == 1
}

/// Notifies the dependents `deps` in order: the network afterwards, the
/// dependents that became ready and have a registered processor (to run), and
/// those that became ready with none registered.
pub open spec fn notify_all(nodes: Seq<ProcessorNode>, deps: Seq<Seq<char>>, registered: Set<Seq<char>>) -> (
    Seq<ProcessorNode>,
    Seq<Seq<char>>,
    Seq<Seq<char>>,
)
    decreases deps.len(),
{
    if deps.len() == 0 {
        (nodes, Seq::empty(), Seq::empty())
    } else {
        let prev = notify_all(nodes, deps.drop_last(), registered);
        let d = deps.last();
        let ready = becomes_ready(prev.0, d);
        (
            notified(prev.0, d),
            if ready && registered.contains(d) { prev.1.push(d) } else { prev.1 },
            if ready && !registered.contains(d) { prev.2.push(d) } else { prev.2 },
        )
    }
}

/// The dependents that the node named `id` notifies when it completes (none
/// when no node has that name).
pub open spec fn dependents_to_notify(nodes: Seq<ProcessorNode>, id: Seq<char>) -> Seq<Seq<char>> {
    if has_node(nodes, id) {
        strs_view(nodes[node_of(nodes, id)].dependents@)
    } else {
        Seq::empty()
    }
}

/// The ids named by a list of processor-not-found errors.
pub open spec fn not_found_ids(errors: Seq<ExecutionError>) -> Seq<Seq<char>> {
    Seq::new(errors.len(), |i: int| match errors[i] {
        ExecutionError::ProcessorNotFound(id) => id@,
        _ => Seq::empty(),
    })
}

proof fn lemma_first_unique(nodes: Seq<ProcessorNode>, id: Seq<char>, j: int)
    requires
        first_with_id(nodes, id, j),
    ensures
        has_node(nodes, id),
        node_of(nodes, id) == j,
{
    let c = node_of(nodes, id);
    assert(first_with_id(nodes, id, c));
    if c < j {
        assert(nodes[c].processor_id@ != id);
    }
    if j < c {
        assert(nodes[j].processor_id@ != id);
    }
}

/// The index of the first node named `id`, if any.
fn find_node(nodes: &Vec<ProcessorNode>, id: &String) -> (r: Option<usize>)
    ensures
        match r {
            Some(j) => first_with_id(nodes@, id@, j as int) && has_node(nodes@, id@) && node_of(nodes@, id@) == j,
            None => !has_node(nodes@, id@),
        },
{
    let mut k: usize = 0;
    while k < nodes.len()
        invariant
            k <= nodes@.len(),
            forall|m: int| 0 <= m < k ==> (#[trigger] nodes@[m]).processor_id@ != id@,
        decreases nodes@.len() - k,
    {
        if str_equal(&nodes[k].processor_id, id) {
            proof {
                lemma_first_unique(nodes@, id@, k as int);
            }
            return Some(k);
        }
        k = k + 1;
    }
    proof {
        if has_node(nodes@, id@) {
            let j = choose|j: int| #[trigger] first_with_id(nodes@, id@, j);
            assert(nodes@[j].processor_id@ != id@);
        }
    }
    None
}

/// What the run does when the processor `completed` finishes, in whichever way:
/// each of its dependents, in order, has one fewer dependency to wait for (a node
/// that waits for nothing more is left as it is, and an id with no node is
/// passed over); those that are left with nothing to wait for are returned to
/// be run, or, when no processor is registered under their id, as a
/// processor-not-found error.
pub fn notify_dependents<P>(nodes: &mut Vec<ProcessorNode>, completed: &String, processors: &ProcessorMap<P>) -> (r: (
    Vec<String>,
    Vec<ExecutionError>,
))
    requires
        processors.wf(),
    ensures
        ({
            let after = notify_all(
                old(nodes)@,
                dependents_to_notify(old(nodes)@, completed@),
                processors@.dom(),
            );
            &&& final(nodes)@ == after.0
            &&& strs_view(r.0@) == after.1
            &&& not_found_ids(r.1@) == after.2
            &&& forall|i: int| 0 <= i < r.1@.len() ==> (#[trigger] r.1@[i]) is ProcessorNotFound
        }),
{
    let ghost start = nodes@;
    let dependents: Vec<String> = match find_node(nodes, completed) {
        Some(c) => nodes[c].dependents.clone(),
        None => Vec::new(),
    };
    let ghost deps = strs_view(dependents@);
    proof {
        assert(deps =~= dependents_to_notify(start, completed@));
    }
    let mut ready: Vec<String> = Vec::new();
    let mut missing: Vec<ExecutionError> = Vec::new();
    let mut i: usize = 0;
    proof {
        assert(deps.take(0) =~= Seq::<Seq<char>>::empty());
        assert(strs_view(ready@) =~= Seq::<Seq<char>>::empty());
        assert(not_found_ids(missing@) =~= Seq::<Seq<char>>::empty());
    }
    while i < dependents.len()
        invariant
            processors.wf(),
            deps == strs_view(dependents@),
            deps.len() == dependents@.len(),
            i <= dependents@.len(),
            nodes@ == notify_all(start, deps.take(i as int), processors@.dom()).0,
            strs_view(ready@) == notify_all(start, deps.take(i as int), processors@.dom()).1,
            not_found_ids(missing@) == notify_all(start, deps.take(i as int), processors@.dom()).2,
            forall|m: int| 0 <= m < missing@.len() ==> (#[trigger] missing@[m]) is ProcessorNotFound,
        decreases dependents@.len() - i,
    {
        let ghost before = nodes@;
        let ghost prev = notify_all(start, deps.take(i as int), processors@.dom());
        let d = &dependents[i];
        proof {
            assert(deps.take(i + 1).drop_last() =~= deps.take(i as int));
            assert(deps.take(i + 1).last() == d@);
        }
        match find_node(nodes, d) {
            Some(j) => {
                if nodes[j].pending_dependencies > 0 {
                    let left: usize = nodes[j].pending_dependencies - 1;
                    nodes[j].pending_dependencies = left;
                    proof {
                        assert(nodes@ =~= notified(before, d@));
                    }
                    if left == 0 {
                        if processors.contains_key(d.as_str()) {
                            ready.push(d.clone());
                            proof {
                                assert(strs_view(ready@) =~= prev.1.push(d@));
                            }
                        } else {
                            missing.push(ExecutionError::ProcessorNotFound(d.clone()));
                            proof {
                                assert(not_found_ids(missing@) =~= prev.2.push(d@));
                            }
                        }
                    }
                }
            },
            None => {},
        }
        i = i + 1;
    }
    proof {
        assert(deps.take(deps.len() as int) =~= deps);
    }
    (ready, missing)
}

/// The network after each of `ids`, in order, is told to run now: the first
/// node with that id waits for nothing more (an id with no node is passed over).
pub open spec fn started(nodes: Seq<ProcessorNode>, ids: Seq<Seq<char>>) -> Seq<ProcessorNode>
    decreases ids.len(),
{
    if ids.len() == 0 {
        nodes
    } else {
        let prev = started(nodes, ids.drop_last());
        let d = ids.last();
        if has_node(prev, d) {
            let j = node_of(prev, d);
            prev.update(j, ProcessorNode {
                processor_id: prev[j].processor_id,
                dependents: prev[j].dependents,
                pending_dependencies: 0,
            })
        } else {
            prev
        }
    }
}

/// Starts a run at its entry points: every entry point must have a node (the
/// first that has none is a processor-not-found error, and nothing changes);
/// then each is told to run now (see `started`).
pub fn start_entry_points(nodes: &mut Vec<ProcessorNode>, entrypoints: &EntryPoints) -> (r: Result<(), ExecutionError>)
    ensures
        ({
            let eps = strs_view(entrypoints.0@);
            &&& (forall|i: int| 0 <= i < eps.len() ==> has_node(old(nodes)@, #[trigger] eps[i])) ==> r is Ok
                && final(nodes)@ == started(old(nodes)@, eps)
            &&& !(forall|i: int| 0 <= i < eps.len() ==> has_node(old(nodes)@, #[trigger] eps[i])) ==> exists|i: int|
                0 <= i < eps.len() && !has_node(old(nodes)@, #[trigger] eps[i])
                    && (forall|k: int| 0 <= k < i ==> has_node(old(nodes)@, #[trigger] eps[k]))
                    && (r matches Err(ExecutionError::ProcessorNotFound(id)) && id@ == eps[i])
                    && final(nodes)@ == old(nodes)@
        }),
{
    let ghost eps = strs_view(entrypoints.0@);
    let ghost start = nodes@;
    let mut i: usize = 0;
    while i < entrypoints.0.len()
        invariant
            eps == strs_view(entrypoints.0@),
            nodes@ == start,
            i <= eps.len(),
            forall|k: int| 0 <= k < i ==> has_node(start, #[trigger] eps[k]),
        decreases eps.len() - i,
    {
        let e = &entrypoints.0[i];
        proof {
            assert(eps[i as int] == e@);
        }
        if find_node(nodes, e).is_none() {
            return Err(ExecutionError::ProcessorNotFound(e.clone()));
        }
        i = i + 1;
    }
    let mut i: usize = 0;
    proof {
        assert(eps.take(0) =~= Seq::<Seq<char>>::empty());
    }
    while i < entrypoints.0.len()
        invariant
            eps == strs_view(entrypoints.0@),
            i <= eps.len(),
            nodes@ == started(start, eps.take(i as int)),
        decreases eps.len() - i,
    {
        let e = &entrypoints.0[i];
        proof {
            assert(eps.take(i + 1).drop_last() =~= eps.take(i as int));
            assert(eps.take(i + 1).last() == e@);
        }
        let ghost before = nodes@;
        match find_node(nodes, e) {
            Some(j) => {
                nodes[j].pending_dependencies = 0;
                proof {
                    assert(nodes@ =~= started(start, eps.take(i + 1)));
                }
            },
            None => {},
        }
        i = i + 1;
    }
    proof {
        assert(eps.take(eps.len() as int) =~= eps);
    }
    Ok(())
}

} // verus!
