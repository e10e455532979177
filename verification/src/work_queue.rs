//! The work-queue strategy: dependency counting, a priority queue, and the
//! canonical payload.
//!
//! A `WorkQueueRun` holds everything the strategy decides on. Whoever drives a
//! run asks it for the next step, runs the processor it names, and reports the
//! response back; the run decides which processors become ready, which are
//! blocked by a failed dependency, what input each processor gets, and which
//! Transform result becomes the canonical payload (only one of a strictly
//! higher topological rank replaces it).
use vstd::prelude::*;
use crate::string_map::{StringMap, StringSet, strs_view};
use crate::graph::DependencyGraph;
use crate::graph_model::{total_edges, exact_counts, kahn_order, ranks_of, is_key, dependents_of, reverse_of, is_node, is_acyclic};
use crate::config::EntryPoints;
use crate::errors::{ExecutionError, FailureStrategy, ProcessorFailure};
use crate::proto::{ProcessorRequest, ProcessorResponse, Outcome, Metadata, MetaView, outcome_view};
use crate::metadata::{BASE_METADATA_KEY, merge_dependency_metadata_for_execution, merged_metadata, duplicate_metadata, response_metas, responses_wf};
use crate::priority_work_queue::{PriorityWorkQueue, PrioritizedTask, TaskView, insert_all, insert_sorted, last_unblocked, unblocked, still_blocked, park_all};

verus! {

/// The message of the error reported when the graph turns out to be cyclic.
pub const CYCLE_MESSAGE: &'static str = "Internal consistency error: dependency graph contains cycles (should have been caught during config validation)";

/// The error text recorded for a processor whose response is not a next payload.
pub const PROCESSOR_FAILED_MESSAGE: &'static str = "Processor execution failed";

/// The rank of `id`, or 0 when it has none.
pub open spec fn rank_or_zero(ranks: Map<Seq<char>, usize>, id: Seq<char>) -> usize {
    if ranks.contains_key(id) { ranks[id] } else { 0 }
}

/// The task queued for `id`.
pub open spec fn task_for(ranks: Map<Seq<char>, usize>, transforms: Set<Seq<char>>, id: Seq<char>) -> TaskView {
    (id, rank_or_zero(ranks, id), transforms.contains(id))
}

/// The tasks queued for `ids`, in order.
pub open spec fn tasks_for(ranks: Map<Seq<char>, usize>, transforms: Set<Seq<char>>, ids: Seq<Seq<char>>) -> Seq<TaskView> {
    Seq::new(ids.len(), |i: int| task_for(ranks, transforms, ids[i]))
}


/// The dependencies of `deps` that have a result, each once, in the order first met.
pub open spec fn found_deps(results: Map<Seq<char>, ProcessorResponse>, deps: Seq<Seq<char>>) -> Seq<Seq<char>>
    decreases deps.len(),
{
    if deps.len() == 0 {
        Seq::empty()
    } else {
        let prev = found_deps(results, deps.drop_last());
        let d = deps.last();
        if results.contains_key(d) && !prev.contains(d) {
            prev.push(d)
        } else {
            prev
        }
    }
}

/// The metadata of the results of `deps`, in the order of `found_deps`.
pub open spec fn dep_metas(results: Map<Seq<char>, ProcessorResponse>, deps: Seq<Seq<char>>) -> Seq<MetaView> {
    Seq::new(found_deps(results, deps).len(), |i: int| results[found_deps(results, deps)[i]].metadata.meta_view())
}

/// The metadata of the run's input under `BASE_METADATA_KEY`, if any.
pub open spec fn base_of(input: ProcessorRequest) -> Map<Seq<char>, Seq<char>> {
    if input.metadata@.contains_key(BASE_METADATA_KEY@) { input.metadata@[BASE_METADATA_KEY@]@ } else { Map::empty() }
}

/// Whether the run's input has non-empty metadata under `BASE_METADATA_KEY`.
pub open spec fn base_nonempty(input: ProcessorRequest) -> bool {
    input.metadata@.contains_key(BASE_METADATA_KEY@) && input.metadata@[BASE_METADATA_KEY@].metadata.spec_len() > 0
}

/// A copy of a request.
pub fn duplicate_request(r: &ProcessorRequest) -> (c: ProcessorRequest)
    requires
        r.metadata.meta_wf(),
    ensures
        c.payload@ == r.payload@,
        c.metadata.meta_wf(),
        c.metadata.meta_view() == r.metadata.meta_view(),
{
    let payload = r.payload.clone();
    proof {
        assert(payload@ =~= r.payload@);
    }
    ProcessorRequest { payload, metadata: duplicate_metadata(&r.metadata) }
}

/// The results of `deps`, each found one once, copied in the order first met.
pub(crate) fn collect_dependency_results(results: &StringMap<ProcessorResponse>, deps: &Vec<String>) -> (d: StringMap<ProcessorResponse>)
    requires
        responses_wf(results),
    ensures
        responses_wf(&d),
        d.keys_seq() == found_deps(results@, strs_view(deps@)),
        response_metas(&d) == dep_metas(results@, strs_view(deps@)),
{
    let ghost ds = strs_view(deps@);
    let mut d: StringMap<ProcessorResponse> = StringMap::new();
    let mut i: usize = 0;
    proof {
        d.lemma_same_length();
        assert(ds.take(0) =~= Seq::<Seq<char>>::empty());
    }
    while i < deps.len()
        invariant
            ds == strs_view(deps@),
            responses_wf(results),
            i <= deps@.len(),
            responses_wf(&d),
            d.keys_seq() == found_deps(results@, ds.take(i as int)),
            d.values_seq().len() == d.keys_seq().len(),
            forall|j: int| 0 <= j < d.keys_seq().len() ==> (#[trigger] d.values_seq()[j]).metadata.meta_view()
                == results@[d.keys_seq()[j]].metadata.meta_view(),
        decreases deps@.len() - i,
    {
        let ghost before = d;
        proof {
            assert(ds.take(i + 1).drop_last() =~= ds.take(i as int));
            assert(ds.take(i + 1).last() == deps@[i as int]@);
        }
        match results.get(deps[i].as_str()) {
            Some(resp) => {
                proof {
                    let k = results.keys_seq().index_of(deps@[i as int]@);
                    results.lemma_value_at(k);
                    assert(results.values_seq()[k] == *resp);
                }
                let copy = resp.duplicate();
                let ghost key = deps@[i as int]@;
                d.insert(deps[i].clone(), copy);
                proof {
                    d.lemma_same_length();
                    before.lemma_same_length();
                    if before.has_key(key) {
                        let k = before.keys_seq().index_of(key);
                        assert(before.keys_seq()[k] == key);
                    }
                    assert forall|j: int| 0 <= j < d.spec_len() implies (#[trigger] d.values_seq()[j]).metadata.meta_wf() by {
                        if j < before.spec_len() && d.values_seq()[j] == before.values_seq()[j] {
                        }
                    }
                    assert forall|j: int| 0 <= j < d.keys_seq().len() implies (#[trigger] d.values_seq()[j]).metadata.meta_view()
                        == results@[d.keys_seq()[j]].metadata.meta_view() by {
                        if j < before.keys_seq().len() && d.values_seq()[j] == before.values_seq()[j] {
                            assert(d.keys_seq()[j] == before.keys_seq()[j]);
                        }
                    }
                }
            },
            None => {},
        }
        i = i + 1;
    }
    proof {
        assert(ds.take(i as int) =~= ds);
        d.lemma_same_length();
        assert(response_metas(&d) =~= dep_metas(results@, ds));
    }
    d
}


/// The payload of a next-payload outcome.
pub open spec fn next_payload(o: Option<Outcome>) -> Option<Seq<u8>> {
    match o {
        Some(Outcome::NextPayload(p)) => Some(p@),
        _ => None,
    }
}

/// A Transform result of rank `rank` replaces the canonical payload: when none has
/// yet, or when its rank is strictly higher than that of the one that did.
pub open spec fn takes_over(highest: Option<usize>, rank: usize) -> bool {
    match highest {
        None => true,
        Some(h) => rank > h,
    }
}

/// The dependency counts after the completion of a processor with dependents `ds`:
/// each listed dependent with a positive count loses one.
pub open spec fn counts_after(c: Map<Seq<char>, usize>, ds: Seq<Seq<char>>) -> Map<Seq<char>, usize>
    decreases ds.len(),
{
    if ds.len() == 0 {
        c
    } else {
        let m = counts_after(c, ds.drop_last());
        let d = ds.last();
        if m.contains_key(d) && m[d] > 0 {
            m.insert(d, (m[d] - 1) as usize)
        } else {
            m
        }
    }
}

/// The dependents whose count reaches zero, in the order they do.
pub open spec fn released(c: Map<Seq<char>, usize>, ds: Seq<Seq<char>>) -> Seq<Seq<char>>
    decreases ds.len(),
{
    if ds.len() == 0 {
        Seq::empty()
    } else {
        let m = counts_after(c, ds.drop_last());
        let d = ds.last();
        if m.contains_key(d) && m[d] == 1 {
            released(c, ds.drop_last()).push(d)
        } else {
            released(c, ds.drop_last())
        }
    }
}

/// A work-queue executor with a limit on how many processors run at once.
#[derive(Debug, Clone, Copy, PartialEq, Eq)]
pub struct WorkQueueExecutor {
    pub max_concurrency: usize,
}

impl WorkQueueExecutor {
    /// A limit of 0 is raised to 1.
    pub fn new(max_concurrency: usize) -> (e: Self)
        ensures
            e.max_concurrency == if max_concurrency == 0 { 1 } else { max_concurrency },
    {
        WorkQueueExecutor { max_concurrency: if max_concurrency == 0 { 1 } else { max_concurrency } }
    }
}

/// What the driver of a run does next.
pub enum WorkQueueStep {
    /// Run this processor.
    Run(String),
    /// Wait for a running processor to finish.
    Wait,
    /// Every processor has finished; the results are complete.
    Done,
    /// Stop with this error.
    Fail(ExecutionError),
}

/// The state of one work-queue execution.
pub struct WorkQueueRun {
    pub graph: DependencyGraph,
    pub reverse: StringMap<Vec<String>>,
    pub registered: StringSet,
    pub transforms: StringSet,
    pub queue: PriorityWorkQueue,
    pub dependency_counts: StringMap<usize>,
    pub ranks: StringMap<usize>,
    pub active: usize,
    pub failed: StringSet,
    pub blocked: StringSet,
    pub canonical_payload: Vec<u8>,
    pub highest_transform_rank: Option<usize>,
    pub results: StringMap<ProcessorResponse>,
    pub input: ProcessorRequest,
}

impl WorkQueueRun {
    pub open spec fn wf(&self) -> bool {
        &&& self.graph.wf()
        &&& self.reverse.wf()
        &&& self.registered.wf()
        &&& self.transforms.wf()
        &&& self.queue.wf()
        &&& self.dependency_counts.wf()
        &&& self.ranks.wf()
        &&& self.failed.wf()
        &&& self.blocked.wf()
        &&& responses_wf(&self.results)
        &&& self.input.metadata.meta_wf()
        &&& forall|v: Seq<char>| #[trigger] self.reverse@.contains_key(v) <==> is_node(self.graph.entries_view(), v)
        &&& forall|v: Seq<char>| #[trigger] self.reverse@.contains_key(v) ==> strs_view(self.reverse@[v]@)
            == reverse_of(self.graph.entries_view(), v)
    }

    /// Sets up a run: every processor of the graph must be registered, and the
    /// graph must be acyclic; the entry points are queued.
    pub fn start(
        graph: DependencyGraph,
        registered: StringSet,
        transforms: StringSet,
        entrypoints: &EntryPoints,
        input: ProcessorRequest,
    ) -> (r: Result<WorkQueueRun, ExecutionError>)
        requires
            graph.wf(),
            total_edges(graph.entries_view()) <= usize::MAX,
            registered.wf(),
            transforms.wf(),
            input.metadata.meta_wf(),
        ensures
            match r {
                Err(ExecutionError::ProcessorNotFound(id)) => exists|i: int|
                    0 <= i < graph.0.keys_seq().len() && #[trigger] graph.0.keys_seq()[i] == id@
                        && !registered@.contains(id@)
                        && forall|j: int| 0 <= j < i ==> registered@.contains(#[trigger] graph.0.keys_seq()[j]),
                Err(ExecutionError::InternalError { message }) => message@ == CYCLE_MESSAGE@
                    && (forall|j: int| 0 <= j < graph.0.keys_seq().len() ==> registered@.contains(#[trigger] graph.0.keys_seq()[j]))
                    && !is_acyclic(graph.entries_view()),
                Err(_) => false,
                Ok(run) => {
                    &&& run.wf()
                    &&& forall|j: int| 0 <= j < graph.0.keys_seq().len() ==> registered@.contains(#[trigger] graph.0.keys_seq()[j])
                    &&& run.graph == graph
                    &&& run.registered@ == registered@
                    &&& run.transforms@ == transforms@
                    &&& run.dependency_counts@ == exact_counts(graph.entries_view())
                    &&& exists|o: Seq<Seq<char>>| #[trigger] kahn_order(graph.entries_view(), exact_counts(graph.entries_view()), o)
                        && (forall|v: Seq<char>| is_node(graph.entries_view(), v) ==> o.contains(v)) && run.ranks@ == ranks_of(o)
                    &&& run.queue.ready_view() == insert_all(Seq::empty(), tasks_for(run.ranks@, transforms@, strs_view(entrypoints.0@)))
                    &&& run.queue.stored_view() == Seq::<TaskView>::empty()
                    &&& run.active == 0
                    &&& run.failed@ == Set::<Seq<char>>::empty()
                    &&& run.blocked@ == Set::<Seq<char>>::empty()
                    &&& run.canonical_payload@ == input.payload@
                    &&& run.highest_transform_rank is None
                    &&& run.results@ == Map::<Seq<char>, ProcessorResponse>::empty()
                    &&& run.input == input
                },
            },
    {
        let keys = graph.keys();
        let n = keys.len();
        let mut i: usize = 0;
        proof {
            graph.lemma_keys();
        }
        while i < n
            invariant
                n == keys@.len(),
                strs_view(keys@) == graph.0.keys_seq(),
                i <= n,
                forall|j: int| 0 <= j < i ==> registered@.contains(#[trigger] graph.0.keys_seq()[j]),
            decreases n - i,
        {
            if !registered.contains(&keys[i]) {
                proof {
                    assert(graph.0.keys_seq()[i as int] == keys@[i as int]@);
                }
                return Err(ExecutionError::ProcessorNotFound(keys[i].clone()));
            }
            proof {
                assert(graph.0.keys_seq()[i as int] == keys@[i as int]@);
            }
            i = i + 1;
        }
        let reverse = graph.build_reverse_dependencies();
        let (counts, ranks) = match graph.dependency_counts_and_ranks() {
            Some(cr) => cr,
            None => {
                return Err(ExecutionError::InternalError { message: CYCLE_MESSAGE.to_string() });
            },
        };
        let mut queue = PriorityWorkQueue::new();
        let eps = entrypoints.iter();
        let ghost ids = strs_view(entrypoints.0@);
        let ghost tasks = tasks_for(ranks@, transforms@, ids);
        let mut k: usize = 0;
        while k < eps.len()
            invariant
                eps@ == entrypoints.0@,
                ids == strs_view(entrypoints.0@),
                tasks == tasks_for(ranks@, transforms@, ids),
                ranks.wf(),
                transforms.wf(),
                k <= eps@.len(),
                queue.wf(),
                queue.stored_view() == Seq::<TaskView>::empty(),
                queue.ready_view() == insert_all(Seq::empty(), tasks.take(k as int)),
            decreases eps@.len() - k,
        {
            let id = &eps[k];
            let rank: usize = match ranks.get(id.as_str()) {
                Some(r) => *r,
                None => 0,
            };
            let is_transform = transforms.contains(id);
            let task = PrioritizedTask::new(id.clone(), rank, is_transform);
            proof {
                assert(task@ == tasks[k as int]);
                assert(tasks.take(k + 1).drop_last() =~= tasks.take(k as int));
            }
            queue.push(task);
            k = k + 1;
        }
        proof {
            assert(tasks.take(k as int) =~= tasks);
        }
        let failed = StringSet::new();
        let blocked = StringSet::new();
        let results: StringMap<ProcessorResponse> = StringMap::new();
        let canonical_payload = input.payload.clone();
        proof {
            assert(canonical_payload@ =~= input.payload@);
            assert(responses_wf(&results));
        }
        Ok(WorkQueueRun {
            graph,
            reverse,
            registered,
            transforms,
            queue,
            dependency_counts: counts,
            ranks,
            active: 0,
            failed,
            blocked,
            canonical_payload,
            highest_transform_rank: None,
            results,
            input,
        })
    }

    /// The failures reported together: each failed processor, in the order it failed.
    pub open spec fn failures_match(&self, failures: Seq<ProcessorFailure>) -> bool {
        &&& failures.len() == self.failed.items_seq().len()
        &&& forall|i: int| 0 <= i < failures.len() ==> (#[trigger] failures[i]).processor_id@ == self.failed.items_seq()[i]
            && failures[i].error@ == PROCESSOR_FAILED_MESSAGE@
    }

    fn failure_list(&self) -> (v: Vec<ProcessorFailure>)
        ensures
            self.failures_match(v@),
    {
        let ids = self.failed.items();
        let mut v: Vec<ProcessorFailure> = Vec::new();
        let mut i: usize = 0;
        while i < ids.len()
            invariant
                strs_view(ids@) == self.failed.items_seq(),
                i <= ids@.len(),
                v@.len() == i,
                forall|j: int| 0 <= j < i ==> (#[trigger] v@[j]).processor_id@ == self.failed.items_seq()[j]
                    && v@[j].error@ == PROCESSOR_FAILED_MESSAGE@,
            decreases ids@.len() - i,
        {
            proof {
                assert(strs_view(ids@)[i as int] == ids@[i as int]@);
            }
            v.push(ProcessorFailure { processor_id: ids[i].clone(), error: PROCESSOR_FAILED_MESSAGE.to_string() });
            i = i + 1;
        }
        v
    }

    /// Everything but the queue and the count of running processors is left as it was.
    pub open spec fn same_but_queue(&self, other: &WorkQueueRun) -> bool {
        &&& self.graph == other.graph
        &&& self.reverse == other.reverse
        &&& self.registered == other.registered
        &&& self.transforms == other.transforms
        &&& self.dependency_counts == other.dependency_counts
        &&& self.ranks == other.ranks
        &&& self.failed == other.failed
        &&& self.blocked == other.blocked
        &&& self.canonical_payload == other.canonical_payload
        &&& self.highest_transform_rank == other.highest_transform_rank
        &&& self.results == other.results
        &&& self.input == other.input
    }

    /// Whether the run pops from its queue: there is room to start a processor and work queued.
    pub open spec fn can_pop(&self, max_concurrency: usize) -> bool {
        self.active < max_concurrency && (self.queue.ready_view().len() > 0 || self.queue.stored_view().len() > 0)
    }

    /// Whether the next step takes a processor from the queue.
    pub open spec fn popped(&self, max_concurrency: usize) -> bool {
        self.can_pop(max_concurrency) && self.queue.pop_index(self.blocked@) >= 0
    }

    /// The processor the next step takes from the queue (when it takes one).
    pub open spec fn popped_id(&self) -> Seq<char> {
        self.queue.restored(self.blocked@)[self.queue.pop_index(self.blocked@)].0
    }

    /// The ready tasks after the next step (unless a recorded failure stops the run).
    pub open spec fn ready_after_step(&self, max_concurrency: usize) -> Seq<TaskView> {
        if self.can_pop(max_concurrency) { self.queue.ready_after_pop(self.blocked@) } else { self.queue.ready_view() }
    }

    /// The parked tasks after the next step (unless a recorded failure stops the run).
    pub open spec fn stored_after_step(&self, max_concurrency: usize) -> Seq<TaskView> {
        if self.can_pop(max_concurrency) { self.queue.stored_after_pop(self.blocked@) } else { self.queue.stored_view() }
    }

    /// All tasks left queued after the next step.
    pub open spec fn left_after_step(&self, max_concurrency: usize) -> Seq<TaskView> {
        self.ready_after_step(max_concurrency) + self.stored_after_step(max_concurrency)
    }

    /// Decides the next step of the run.
    ///
    /// Under fail-fast, a recorded failure stops the run. Otherwise, when fewer than
    /// `max_concurrency` processors run and work is queued, the highest-priority
    /// processor that is not blocked is started. When nothing can start and nothing
    /// runs, the run ends: with the failures, if any were recorded (or if every
    /// queued processor is blocked), and completed otherwise.
    pub fn next_step(&mut self, strategy: FailureStrategy, max_concurrency: usize) -> (step: WorkQueueStep)
        requires
            old(self).wf(),
        ensures
            final(self).wf(),
            final(self).same_but_queue(old(self)),
            strategy == FailureStrategy::FailFast && old(self).failed@.len() > 0 ==> {
                &&& step matches WorkQueueStep::Fail(ExecutionError::ProcessorFailed { processor_id, error })
                    && processor_id@ == old(self).failed.items_seq()[0] && error@ == PROCESSOR_FAILED_MESSAGE@
                &&& final(self).queue == old(self).queue
                &&& final(self).active == old(self).active
            },
            !(strategy == FailureStrategy::FailFast && old(self).failed@.len() > 0) ==> {
                &&& final(self).queue.ready_view() == old(self).ready_after_step(max_concurrency)
                &&& final(self).queue.stored_view() == old(self).stored_after_step(max_concurrency)
                &&& final(self).active == if old(self).popped(max_concurrency) { old(self).active + 1 } else { old(self).active as int }
            },
            !(strategy == FailureStrategy::FailFast && old(self).failed@.len() > 0) && old(self).popped(max_concurrency) ==> {
                if old(self).registered@.contains(old(self).popped_id()) {
                    step matches WorkQueueStep::Run(p) && p@ == old(self).popped_id()
                } else {
                    step matches WorkQueueStep::Fail(ExecutionError::ProcessorNotFound(p)) && p@ == old(self).popped_id()
                }
            },
            !(strategy == FailureStrategy::FailFast && old(self).failed@.len() > 0) && !old(self).popped(max_concurrency)
                && old(self).active == 0 && old(self).left_after_step(max_concurrency).len() == 0 ==> {
                if strategy == FailureStrategy::FailFast || old(self).failed@.len() == 0 {
                    step is Done
                } else {
                    step matches WorkQueueStep::Fail(ExecutionError::MultipleFailed { failures })
                        && old(self).failures_match(failures@)
                }
            },
            !(strategy == FailureStrategy::FailFast && old(self).failed@.len() > 0) && !old(self).popped(max_concurrency)
                && old(self).active == 0 && old(self).left_after_step(max_concurrency).len() > 0 ==> {
                if forall|i: int| 0 <= i < old(self).left_after_step(max_concurrency).len()
                    ==> old(self).blocked@.contains(#[trigger] old(self).left_after_step(max_concurrency)[i].0) {
                    step matches WorkQueueStep::Fail(ExecutionError::MultipleFailed { failures })
                        && old(self).failures_match(failures@)
                } else {
                    step is Wait
                }
            },
            !(strategy == FailureStrategy::FailFast && old(self).failed@.len() > 0) && !old(self).popped(max_concurrency)
                && old(self).active != 0 ==> step is Wait,
    {
        proof {
            self.failed.items_seq().unique_seq_to_set();
        }
        if strategy == FailureStrategy::FailFast && !self.failed.is_empty() {
            let ids = self.failed.items();
            proof {
                assert(strs_view(ids@)[0] == ids@[0]@);
            }
            return WorkQueueStep::Fail(ExecutionError::ProcessorFailed {
                processor_id: ids[0].clone(),
                error: PROCESSOR_FAILED_MESSAGE.to_string(),
            });
        }
        let ghost before = *self;
        let mut next: Option<String> = None;
        let ghost mut tried = false;
        if self.active < max_concurrency && !self.queue.is_empty() {
            next = self.queue.pop_next_available(&self.blocked);
            proof {
                tried = true;
            }
        }
        proof {
            assert(tried == before.can_pop(max_concurrency));
        }
        match next {
            Some(processor_id) => {
                proof {
                    assert(tried);
                    assert(before.queue.pop_index(before.blocked@) >= 0);
                }
                self.active = self.active + 1;
                if self.registered.contains(&processor_id) {
                    WorkQueueStep::Run(processor_id)
                } else {
                    WorkQueueStep::Fail(ExecutionError::ProcessorNotFound(processor_id))
                }
            },
            None => {
                let queue_empty = self.queue.is_empty();
                if self.active == 0 && queue_empty {
                    if strategy == FailureStrategy::FailFast || self.failed.is_empty() {
                        WorkQueueStep::Done
                    } else {
                        WorkQueueStep::Fail(ExecutionError::MultipleFailed { failures: self.failure_list() })
                    }
                } else if self.active == 0 {
                    let tasks = self.queue.iter();
                    let ghost all = self.queue.ready_view() + self.queue.stored_view();
                    let mut all_blocked = true;
                    let mut i: usize = 0;
                    while i < tasks.len()
                        invariant
                            Seq::new(tasks@.len(), |j: int| tasks@[j]@) == all,
                            i <= tasks@.len(),
                            self.blocked.wf(),
                            all_blocked == forall|j: int| 0 <= j < i ==> self.blocked@.contains(#[trigger] all[j].0),
                        decreases tasks@.len() - i,
                    {
                        proof {
                            assert(all[i as int] == tasks@[i as int]@);
                        }
                        let bl = self.blocked.contains(&tasks[i].processor_id);
                        if !bl {
                            all_blocked = false;
                        }
                        proof {
                            assert(all[i as int].0 == tasks@[i as int].processor_id@);
                            if !bl {
                                assert(!self.blocked@.contains(all[i as int].0));
                            }
                        }
                        i = i + 1;
                    }
                    if all_blocked {
                        WorkQueueStep::Fail(ExecutionError::MultipleFailed { failures: self.failure_list() })
                    } else {
                        WorkQueueStep::Wait
                    }
                } else {
                    WorkQueueStep::Wait
                }
            },
        }
    }

    /// The dependencies of `id`: the processors whose dependents list it.
    pub open spec fn deps_of(&self, id: Seq<char>) -> Seq<Seq<char>> {
        if self.reverse@.contains_key(id) { strs_view(self.reverse@[id]@) } else { Seq::empty() }
    }

    /// Some dependency of `id` has failed.
    pub open spec fn has_failed_dependency(&self, id: Seq<char>) -> bool {
        exists|j: int| 0 <= j < self.deps_of(id).len() && self.failed@.contains(#[trigger] self.deps_of(id)[j])
    }

    /// The dependents that the graph lists for `id`.
    pub open spec fn dependents_set(&self, id: Seq<char>) -> Set<Seq<char>> {
        if is_key(self.graph.entries_view(), id) {
            dependents_of(self.graph.entries_view(), id).to_set()
        } else {
            Set::empty()
        }
    }

    /// Everything but the blocked set is left as it was.
    pub open spec fn same_but_blocked(&self, other: &WorkQueueRun) -> bool {
        &&& self.graph == other.graph
        &&& self.reverse == other.reverse
        &&& self.registered == other.registered
        &&& self.transforms == other.transforms
        &&& self.queue == other.queue
        &&& self.dependency_counts == other.dependency_counts
        &&& self.ranks == other.ranks
        &&& self.active == other.active
        &&& self.failed == other.failed
        &&& self.canonical_payload == other.canonical_payload
        &&& self.highest_transform_rank == other.highest_transform_rank
        &&& self.results == other.results
        &&& self.input == other.input
    }

    /// Marks the dependents of `id` as blocked.
    fn block_dependents(&mut self, id: &String)
        requires
            old(self).wf(),
        ensures
            final(self).wf(),
            final(self).same_but_blocked(old(self)),
            final(self).blocked@ == old(self).blocked@.union(old(self).dependents_set(id@)),
    {
        let ghost start = self.blocked@;
        match self.graph.get_dependents(id.as_str()) {
            Some(dependents) => {
                let ghost ds = strs_view(dependents@);
                let mut i: usize = 0;
                while i < dependents.len()
                    invariant
                        ds == strs_view(dependents@),
                        i <= dependents@.len(),
                        self.wf(),
                        self.same_but_blocked(old(self)),
                        self.blocked@ == start.union(ds.take(i as int).to_set()),
                    decreases dependents@.len() - i,
                {
                    proof {
                        assert(ds.take(i + 1) =~= ds.take(i as int).push(ds[i as int]));
                        crate::string_map::lemma_push_contains(ds.take(i as int), ds[i as int]);
                        assert(ds[i as int] == dependents@[i as int]@);
                    }
                    self.blocked.insert(dependents[i].clone());
                    proof {
                        assert(self.blocked@ =~= start.union(ds.take(i + 1).to_set()));
                    }
                    i = i + 1;
                }
                proof {
                    assert(ds.take(i as int) =~= ds);
                }
            },
            None => {
                proof {
                    assert(self.blocked@ =~= start.union(Set::empty()));
                }
            },
        }
    }

    /// Starts the task of a processor taken from the queue.
    ///
    /// A processor with a failed dependency is blocked, together with its
    /// dependents, and its task ends at once (`None`). Otherwise it gets its input:
    /// an entry point (no dependencies) the run's input; any other processor the
    /// canonical payload, with the base metadata and the metadata of the results of
    /// its dependencies.
    pub fn begin(&mut self, processor_id: &String) -> (r: Option<ProcessorRequest>)
        requires
            old(self).wf(),
            old(self).active > 0,
        ensures
            final(self).wf(),
            old(self).has_failed_dependency(processor_id@) ==> {
                &&& r is None
                &&& final(self).blocked@ == old(self).blocked@.insert(processor_id@).union(old(self).dependents_set(processor_id@))
                &&& final(self).active == old(self).active - 1
                &&& final(self).queue == old(self).queue
                &&& final(self).failed == old(self).failed
                &&& final(self).results == old(self).results
            },
            !old(self).has_failed_dependency(processor_id@) ==> {
                &&& *final(self) == *old(self)
                &&& r is Some
                &&& r->0.metadata.meta_wf()
                &&& old(self).deps_of(processor_id@).len() == 0 ==> r->0.payload@ == old(self).input.payload@
                    && r->0.metadata.meta_view() == old(self).input.metadata.meta_view()
                &&& old(self).deps_of(processor_id@).len() > 0 ==> r->0.payload@ == old(self).canonical_payload@
                    && r->0.metadata.meta_view() == merged_metadata(
                        base_of(old(self).input),
                        base_nonempty(old(self).input),
                        dep_metas(old(self).results@, old(self).deps_of(processor_id@)),
                    )
            },
            final(self).graph == old(self).graph,
            final(self).reverse == old(self).reverse,
            final(self).registered == old(self).registered,
            final(self).transforms == old(self).transforms,
            final(self).dependency_counts == old(self).dependency_counts,
            final(self).ranks == old(self).ranks,
            final(self).canonical_payload == old(self).canonical_payload,
            final(self).highest_transform_rank == old(self).highest_transform_rank,
            final(self).input == old(self).input,
    {
        let ghost id = processor_id@;
        let deps: Option<&Vec<String>> = self.reverse.get(processor_id.as_str());
        let mut should_block = false;
        let mut dependencies: Vec<String> = Vec::new();
        match deps {
            Some(ds) => {
                let mut i: usize = 0;
                while i < ds.len()
                    invariant
                        i <= ds@.len(),
                        self.failed.wf(),
                        should_block == exists|j: int| 0 <= j < i && self.failed@.contains(#[trigger] strs_view(ds@)[j]),
                    decreases ds@.len() - i,
                {
                    let f = self.failed.contains(&ds[i]);
                    proof {
                        assert(strs_view(ds@)[i as int] == ds@[i as int]@);
                    }
                    if f {
                        should_block = true;
                    }
                    i = i + 1;
                }
                dependencies = ds.clone();
                proof {
                    assert(strs_view(dependencies@) =~= strs_view(ds@));
                }
            },
            None => {},
        }
        proof {
            assert(strs_view(dependencies@) == self.deps_of(id)) by {
                if !self.reverse@.contains_key(id) {
                    assert(strs_view(dependencies@) =~= Seq::<Seq<char>>::empty());
                }
            }
        }
        if should_block {
            let ghost before = *self;
            self.blocked.insert(processor_id.clone());
            self.block_dependents(processor_id);
            self.active = self.active - 1;
            proof {
                assert(self.blocked@ =~= before.blocked@.insert(id).union(before.dependents_set(id)));
            }
            None
        } else if dependencies.len() == 0 {
            Some(duplicate_request(&self.input))
        } else {
            let payload = self.canonical_payload.clone();
            proof {
                assert(payload@ =~= self.canonical_payload@);
            }
            let base: StringMap<String> = match self.input.metadata.get(BASE_METADATA_KEY) {
                Some(m) => m.metadata.duplicate(),
                None => StringMap::new(),
            };
            let dependency_results = collect_dependency_results(&self.results, &dependencies);
            proof {
                assert(base.str_view() == base_of(self.input)) by {
                    if !self.input.metadata@.contains_key(BASE_METADATA_KEY@) {
                        assert(base.str_view() =~= Map::<Seq<char>, Seq<char>>::empty());
                    }
                }
            }
            let metadata = merge_dependency_metadata_for_execution(base, &dependency_results);
            Some(ProcessorRequest { payload, metadata })
        }
    }

    /// The dependents that the graph lists for `id`, in order.
    pub open spec fn dependents_seq(&self, id: Seq<char>) -> Seq<Seq<char>> {
        if is_key(self.graph.entries_view(), id) { dependents_of(self.graph.entries_view(), id) } else { Seq::empty() }
    }

    /// Whether a successful response of `id` with payload `p` replaces the canonical payload.
    pub open spec fn updates_payload(&self, id: Seq<char>) -> bool {
        &&& self.transforms@.contains(id)
        &&& self.ranks@.contains_key(id)
        &&& takes_over(self.highest_transform_rank, self.ranks@[id])
    }

    /// Counts down the dependents of a completed processor and queues those that become ready.
    fn release_dependents(&mut self, id: &String)
        requires
            old(self).wf(),
        ensures
            final(self).wf(),
            final(self).dependency_counts@ == counts_after(old(self).dependency_counts@, old(self).dependents_seq(id@)),
            final(self).queue.ready_view() == insert_all(
                old(self).queue.ready_view(),
                tasks_for(old(self).ranks@, old(self).transforms@, released(old(self).dependency_counts@, old(self).dependents_seq(id@))),
            ),
            final(self).queue.stored_view() == old(self).queue.stored_view(),
            final(self).graph == old(self).graph,
            final(self).reverse == old(self).reverse,
            final(self).registered == old(self).registered,
            final(self).transforms == old(self).transforms,
            final(self).ranks == old(self).ranks,
            final(self).active == old(self).active,
            final(self).failed == old(self).failed,
            final(self).blocked == old(self).blocked,
            final(self).canonical_payload == old(self).canonical_payload,
            final(self).highest_transform_rank == old(self).highest_transform_rank,
            final(self).results == old(self).results,
            final(self).input == old(self).input,
    {
        let ghost c0 = self.dependency_counts@;
        let ghost r0 = self.queue.ready_view();
        let ghost ds = self.dependents_seq(id@);
        match self.graph.get_dependents(id.as_str()) {
            Some(dependents) => {
                let mut i: usize = 0;
                proof {
                    assert(ds.take(0) =~= Seq::<Seq<char>>::empty());
                }
                while i < dependents.len()
                    invariant
                        ds == strs_view(dependents@),
                        i <= dependents@.len(),
                        self.wf(),
                        self.graph == old(self).graph,
                        self.reverse == old(self).reverse,
                        self.registered == old(self).registered,
                        self.transforms == old(self).transforms,
                        self.ranks == old(self).ranks,
                        self.active == old(self).active,
                        self.failed == old(self).failed,
                        self.blocked == old(self).blocked,
                        self.canonical_payload == old(self).canonical_payload,
                        self.highest_transform_rank == old(self).highest_transform_rank,
                        self.results == old(self).results,
                        self.input == old(self).input,
                        self.queue.stored_view() == old(self).queue.stored_view(),
                        self.dependency_counts@ == counts_after(c0, ds.take(i as int)),
                        self.queue.ready_view() == insert_all(r0, tasks_for(self.ranks@, self.transforms@, released(c0, ds.take(i as int)))),
                    decreases dependents@.len() - i,
                {
                    let ghost prev = ds.take(i as int);
                    let ghost d = ds[i as int];
                    proof {
                        assert(ds.take(i + 1).drop_last() =~= prev);
                        assert(ds.take(i + 1).last() == d);
                        assert(d == dependents@[i as int]@);
                    }
                    match self.dependency_counts.position(&dependents[i]) {
                        Some(p) => {
                            proof {
                                self.dependency_counts.lemma_value_at(p as int);
                            }
                            let c: usize = *self.dependency_counts.value_at(p);
                            if c > 0 {
                                self.dependency_counts.replace_value_at(p, c - 1);
                                if c - 1 == 0 {
                                    let rank: usize = match self.ranks.get(dependents[i].as_str()) {
                                        Some(r) => *r,
                                        None => 0,
                                    };
                                    let is_transform = self.transforms.contains(&dependents[i]);
                                    let task = PrioritizedTask::new(dependents[i].clone(), rank, is_transform);
                                    let ghost rel = released(c0, prev);
                                    self.queue.push(task);
                                    proof {
                                        let ts = tasks_for(self.ranks@, self.transforms@, rel.push(d));
                                        assert(ts.drop_last() =~= tasks_for(self.ranks@, self.transforms@, rel));
                                        assert(ts.last() == task@);
                                    }
                                } else {
                                    proof {
                                        assert(released(c0, ds.take(i + 1)) == released(c0, prev));
                                    }
                                }
                            } else {
                                proof {
                                    assert(released(c0, ds.take(i + 1)) == released(c0, prev));
                                }
                            }
                        },
                        None => {
                            proof {
                                assert(released(c0, ds.take(i + 1)) == released(c0, prev));
                            }
                        },
                    }
                    i = i + 1;
                }
                proof {
                    assert(ds.take(i as int) =~= ds);
                }
            },
            None => {
                proof {
                    assert(ds =~= Seq::<Seq<char>>::empty());
                    assert(tasks_for(self.ranks@, self.transforms@, Seq::<Seq<char>>::empty()) =~= Seq::<TaskView>::empty());
                }
            },
        }
    }

    /// Records the response of a processor whose task has run.
    ///
    /// A response that is not a next payload marks the processor failed and blocks
    /// its dependents. A next payload is stored as the processor's result; it
    /// becomes the canonical payload when the processor is a Transform whose rank
    /// takes over; and the processor's dependents are counted down, those that
    /// reach zero being queued. Either way the task is no longer running.
    pub fn finish(&mut self, processor_id: String, response: ProcessorResponse)
        requires
            old(self).wf(),
            old(self).active > 0,
            response.metadata.meta_wf(),
        ensures
            final(self).wf(),
            final(self).active == old(self).active - 1,
            final(self).graph == old(self).graph,
            final(self).reverse == old(self).reverse,
            final(self).registered == old(self).registered,
            final(self).transforms == old(self).transforms,
            final(self).ranks == old(self).ranks,
            final(self).input == old(self).input,
            next_payload(response.outcome) is None ==> {
                &&& final(self).failed@ == old(self).failed@.insert(processor_id@)
                &&& final(self).blocked@ == old(self).blocked@.union(old(self).dependents_set(processor_id@))
                &&& final(self).results == old(self).results
                &&& final(self).canonical_payload == old(self).canonical_payload
                &&& final(self).highest_transform_rank == old(self).highest_transform_rank
                &&& final(self).dependency_counts == old(self).dependency_counts
                &&& final(self).queue == old(self).queue
            },
            next_payload(response.outcome) is Some ==> {
                &&& final(self).failed == old(self).failed
                &&& final(self).blocked == old(self).blocked
                &&& final(self).results@ == old(self).results@.insert(processor_id@, response)
                &&& final(self).canonical_payload@ == if old(self).updates_payload(processor_id@) {
                    next_payload(response.outcome)->0
                } else {
                    old(self).canonical_payload@
                }
                &&& final(self).highest_transform_rank == if old(self).updates_payload(processor_id@) {
                    Some(old(self).ranks@[processor_id@])
                } else {
                    old(self).highest_transform_rank
                }
                &&& final(self).dependency_counts@ == counts_after(old(self).dependency_counts@, old(self).dependents_seq(processor_id@))
                &&& final(self).queue.ready_view() == insert_all(
                    old(self).queue.ready_view(),
                    tasks_for(old(self).ranks@, old(self).transforms@, released(old(self).dependency_counts@, old(self).dependents_seq(processor_id@))),
                )
                &&& final(self).queue.stored_view() == old(self).queue.stored_view()
            },
    {
        let success = match &response.outcome {
            Some(Outcome::NextPayload(_)) => true,
            _ => false,
        };
        if !success {
            self.failed.insert(processor_id.clone());
            self.block_dependents(&processor_id);
        } else {
            let ghost before = *self;
            if self.transforms.contains(&processor_id) {
                match &response.outcome {
                    Some(Outcome::NextPayload(new_payload)) => {
                        match self.ranks.get(processor_id.as_str()) {
                            Some(rank) => {
                                let should_update = match self.highest_transform_rank {
                                    None => true,
                                    Some(current_highest) => *rank > current_highest,
                                };
                                if should_update {
                                    let p = new_payload.clone();
                                    proof {
                                        assert(p@ =~= new_payload@);
                                    }
                                    self.canonical_payload = p;
                                    self.highest_transform_rank = Some(*rank);
                                }
                            },
                            None => {},
                        }
                    },
                    _ => {},
                }
            }
            let ghost mid = *self;
            self.release_dependents(&processor_id);
            let ghost resp = response;
            self.results.insert(processor_id, response);
            proof {
                assert forall|i: int| 0 <= i < self.results.spec_len() implies (#[trigger] self.results.values_seq()[i]).metadata.meta_wf() by {
                    self.results.lemma_same_length();
                    mid.results.lemma_same_length();
                    if i < mid.results.spec_len() && self.results.values_seq()[i] == mid.results.values_seq()[i] {
                    }
                }
            }
        }
        self.active = self.active - 1;
    }
}

} // verus!
