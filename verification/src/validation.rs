//! Validation of a configuration's dependency graph: unique processor ids,
//! resolvable dependencies, no cycles (the cycle found is reported), and
//! diamond patterns (reported as warnings).
use vstd::prelude::*;
use crate::string_map::{StringMap, StringSet, strs_view, str_equal};
use crate::graph::DependencyGraph;
use crate::graph_dfs::mentions;
use crate::graph_model::{GraphEntry, graph_keys, is_key, is_closed, dependents_of, is_acyclic, ranks_edges};
use crate::config::{Config, ProcessorConfig};
use crate::errors::ValidationError;

verus! {

/// A processor of a configuration as validation reads it: its id and its dependencies.
pub type ProcView = (Seq<char>, Seq<Seq<char>>);

/// The processors of a configuration, in order.
pub open spec fn procs_of(config: &Config) -> Seq<ProcView> {
    Seq::new(config.processors@.len(), |i: int| (config.processors@[i].id@, strs_view(config.processors@[i].depends_on@)))
}

/// The processor ids, in order.
pub open spec fn ids_of_procs(ps: Seq<ProcView>) -> Seq<Seq<char>> {
    Seq::new(ps.len(), |i: int| ps[i].0)
}

/// The ids that occur again after their first occurrence, once per repetition, in order.
pub open spec fn repeated_ids(ids: Seq<Seq<char>>) -> Seq<Seq<char>>
    decreases ids.len(),
{
    if ids.len() == 0 {
        Seq::empty()
    } else if ids.drop_last().contains(ids.last()) {
        repeated_ids(ids.drop_last()).push(ids.last())
    } else {
        repeated_ids(ids.drop_last())
    }
}

/// Law: the ids are reported free of repetitions exactly when no two of them
/// are equal. Every id met again after an earlier occurrence is reported, only
/// such ids are reported, and there are as many reports as ids beyond the
/// distinct ones.
pub proof fn law_repeated_ids(ids: Seq<Seq<char>>)
    ensures
        repeated_ids(ids).len() == 0 <==> ids.no_duplicates(),
        repeated_ids(ids).len() == ids.len() - ids.to_set().len(),
        forall|i: int, j: int| #![trigger ids[j], ids[i]] 0 <= j < i < ids.len() && ids[j] == ids[i] ==> repeated_ids(ids).contains(ids[i]),
        forall|x: Seq<char>| #[trigger] repeated_ids(ids).contains(x) ==> exists|j: int, i: int|
            0 <= j < i < ids.len() && ids[j] == x && ids[i] == x,
    decreases ids.len(),
{
    if ids.len() == 0 {
        assert(ids.to_set() =~= Set::<Seq<char>>::empty());
    } else {
        let d = ids.drop_last();
        let x = ids.last();
        law_repeated_ids(d);
        let rd = repeated_ids(d);
        let r = repeated_ids(ids);
        assert(ids =~= d.push(x));
        vstd::seq_lib::seq_to_set_is_finite(d);
        assert(ids.to_set() =~= d.to_set().insert(x)) by {
            assert forall|y: Seq<char>| ids.to_set().contains(y) <==> d.to_set().insert(x).contains(y) by {
                vstd::seq_lib::lemma_seq_contains_after_push(d, x, y);
            }
        }
        assert(d.contains(x) <==> d.to_set().contains(x));
        if d.contains(x) {
            let k = choose|k: int| 0 <= k < d.len() && d[k] == x;
            assert(ids[k] == ids[ids.len() - 1]);
            assert(!ids.no_duplicates());
            assert(r == rd.push(x));
            assert(r[r.len() - 1] == x);
        } else {
            assert(r == rd);
            assert(ids.no_duplicates() <==> d.no_duplicates()) by {
                if d.no_duplicates() {
                    assert forall|a: int, b: int| 0 <= a < ids.len() && 0 <= b < ids.len() && a != b implies ids[a] != ids[b] by {
                        if a < ids.len() - 1 && b < ids.len() - 1 {
                            assert(d[a] == ids[a] && d[b] == ids[b]);
                        } else if a == ids.len() - 1 {
                            assert(d[b] == ids[b]);
                            assert(d.contains(ids[b]));
                        } else {
                            assert(d[a] == ids[a]);
                            assert(d.contains(ids[a]));
                        }
                    }
                }
                if ids.no_duplicates() {
                    assert forall|a: int, b: int| 0 <= a < d.len() && 0 <= b < d.len() && a != b implies d[a] != d[b] by {
                        assert(d[a] == ids[a] && d[b] == ids[b]);
                    }
                }
            }
        }
        assert forall|i: int, j: int| #![trigger ids[j], ids[i]] 0 <= j < i < ids.len() && ids[j] == ids[i] implies r.contains(ids[i]) by {
            if i < ids.len() - 1 {
                assert(d[i] == ids[i] && d[j] == ids[j]);
                assert(rd.contains(d[i]));
                if d.contains(x) {
                    let k = choose|k: int| 0 <= k < rd.len() && rd[k] == d[i];
                    assert(r[k] == d[i]);
                }
            } else {
                assert(d[j] == x);
                assert(d.contains(x));
                assert(r[r.len() - 1] == x);
            }
        }
        assert forall|y: Seq<char>| #[trigger] r.contains(y) implies exists|j: int, i: int|
            0 <= j < i < ids.len() && ids[j] == y && ids[i] == y by {
            let k = choose|k: int| 0 <= k < r.len() && r[k] == y;
            if k < rd.len() {
                assert(rd[k] == y);
                assert(rd.contains(y));
                let (j, i) = choose|j: int, i: int| 0 <= j < i < d.len() && d[j] == y && d[i] == y;
                assert(ids[j] == y && ids[i] == y);
            } else {
                assert(d.contains(x) && y == x);
                let j = choose|j: int| 0 <= j < d.len() && d[j] == x;
                assert(ids[j] == y && ids[ids.len() - 1] == y);
            }
        }
    }
}

/// The dependencies that name no processor, as (processor id, dependency), in order.
pub open spec fn unresolved_of(ps: Seq<ProcView>, ids: Seq<Seq<char>>) -> Seq<(Seq<char>, Seq<char>)>
    decreases ps.len(),
{
    if ps.len() == 0 {
        Seq::empty()
    } else {
        unresolved_of(ps.drop_last(), ids) + missing_of(ps.last(), ids)
    }
}

/// The dependencies of one processor that name no processor.
pub open spec fn missing_of(p: ProcView, ids: Seq<Seq<char>>) -> Seq<(Seq<char>, Seq<char>)>
    decreases p.1.len(),
{
    if p.1.len() == 0 {
        Seq::empty()
    } else {
        let rest = missing_of((p.0, p.1.drop_last()), ids);
        if ids.contains(p.1.last()) { rest } else { rest.push((p.0, p.1.last())) }
    }
}

proof fn lemma_missing_of(p: ProcView, ids: Seq<Seq<char>>)
    ensures
        forall|j: int| 0 <= j < p.1.len() && !ids.contains(#[trigger] p.1[j]) ==> missing_of(p, ids).contains((p.0, p.1[j])),
        forall|x: (Seq<char>, Seq<char>)| #[trigger] missing_of(p, ids).contains(x) ==> exists|j: int|
            0 <= j < p.1.len() && !ids.contains(p.1[j]) && x == (p.0, p.1[j]),
    decreases p.1.len(),
{
    if p.1.len() > 0 {
        let q = (p.0, p.1.drop_last());
        lemma_missing_of(q, ids);
        let r = missing_of(q, ids);
        let mp = missing_of(p, ids);
        let last = p.1.last();
        assert forall|j: int| 0 <= j < p.1.len() && !ids.contains(#[trigger] p.1[j]) implies mp.contains((p.0, p.1[j])) by {
            if j < p.1.len() - 1 {
                assert(q.1[j] == p.1[j]);
                assert(r.contains((p.0, p.1[j])));
                let k = choose|k: int| 0 <= k < r.len() && r[k] == (p.0, p.1[j]);
                if !ids.contains(last) {
                    assert(mp[k] == r[k]);
                }
            } else {
                assert(mp == r.push((p.0, last)));
                assert(mp[r.len() as int] == (p.0, last));
            }
        }
        assert forall|x: (Seq<char>, Seq<char>)| #[trigger] mp.contains(x) implies exists|j: int|
            0 <= j < p.1.len() && !ids.contains(p.1[j]) && x == (p.0, p.1[j]) by {
            let k = choose|k: int| 0 <= k < mp.len() && mp[k] == x;
            if k < r.len() {
                assert(r[k] == x);
                assert(r.contains(x));
                let j = choose|j: int| 0 <= j < q.1.len() && !ids.contains(q.1[j]) && x == (q.0, q.1[j]);
                assert(p.1[j] == q.1[j]);
            } else {
                assert(x == (p.0, p.1[p.1.len() - 1]));
            }
        }
    }
}

/// Law: the unresolved dependencies reported are exactly the pairs of a
/// processor and a dependency it lists that names no processor.
pub proof fn law_unresolved_dependencies(ps: Seq<ProcView>, ids: Seq<Seq<char>>)
    ensures
        forall|i: int, j: int| 0 <= i < ps.len() && 0 <= j < ps[i].1.len() && !ids.contains(#[trigger] ps[i].1[j])
            ==> unresolved_of(ps, ids).contains((ps[i].0, ps[i].1[j])),
        forall|x: (Seq<char>, Seq<char>)| #[trigger] unresolved_of(ps, ids).contains(x) ==> exists|i: int, j: int|
            0 <= i < ps.len() && 0 <= j < ps[i].1.len() && !ids.contains(ps[i].1[j]) && x == (ps[i].0, ps[i].1[j]),
    decreases ps.len(),
{
    if ps.len() > 0 {
        let d = ps.drop_last();
        law_unresolved_dependencies(d, ids);
        lemma_missing_of(ps.last(), ids);
        let a = unresolved_of(d, ids);
        let b = missing_of(ps.last(), ids);
        let u = unresolved_of(ps, ids);
        assert(u == a + b);
        assert forall|i: int, j: int| 0 <= i < ps.len() && 0 <= j < ps[i].1.len() && !ids.contains(#[trigger] ps[i].1[j])
            implies u.contains((ps[i].0, ps[i].1[j])) by {
            if i < d.len() {
                assert(d[i] == ps[i]);
                assert(a.contains((d[i].0, d[i].1[j])));
                let k = choose|k: int| 0 <= k < a.len() && a[k] == (ps[i].0, ps[i].1[j]);
                assert(u[k] == a[k]);
            } else {
                assert(ps.last() == ps[i]);
                assert(b.contains((ps[i].0, ps[i].1[j])));
                let k = choose|k: int| 0 <= k < b.len() && b[k] == (ps[i].0, ps[i].1[j]);
                assert(u[a.len() + k] == b[k]);
            }
        }
        assert forall|x: (Seq<char>, Seq<char>)| #[trigger] u.contains(x) implies exists|i: int, j: int|
            0 <= i < ps.len() && 0 <= j < ps[i].1.len() && !ids.contains(ps[i].1[j]) && x == (ps[i].0, ps[i].1[j]) by {
            let k = choose|k: int| 0 <= k < u.len() && u[k] == x;
            if k < a.len() {
                assert(a[k] == x);
                assert(a.contains(x));
                let (i, j) = choose|i: int, j: int| 0 <= i < d.len() && 0 <= j < d[i].1.len() && !ids.contains(d[i].1[j])
                    && x == (d[i].0, d[i].1[j]);
                assert(ps[i] == d[i]);
            } else {
                assert(b[k - a.len()] == x);
                assert(b.contains(x));
                let j = choose|j: int| 0 <= j < ps.last().1.len() && !ids.contains(ps.last().1[j]) && x == (ps.last().0, ps.last().1[j]);
                assert(ps[ps.len() - 1] == ps.last());
            }
        }
    }
}

/// Every dependency names a processor.
pub open spec fn all_resolved(ps: Seq<ProcView>) -> bool {
    forall|i: int, j: int| 0 <= i < ps.len() && 0 <= j < ps[i].1.len() ==> ids_of_procs(ps).contains(#[trigger] ps[i].1[j])
}

/// `w` depends on `u`: some processor with id `w` lists `u`.
pub open spec fn depends(ps: Seq<ProcView>, u: Seq<char>, w: Seq<char>) -> bool {
    exists|i: int| 0 <= i < ps.len() && ps[i].0 == w && #[trigger] ps[i].1.contains(u)
}

/// The errors are exactly the duplicate-id errors for `dups`, in order.
pub open spec fn duplicate_errors(errors: Seq<ValidationError>, dups: Seq<Seq<char>>) -> bool {
    &&& errors.len() == dups.len()
    &&& forall|i: int| 0 <= i < errors.len() ==> (#[trigger] errors[i] matches ValidationError::DuplicateProcessorId { processor_id }
        && processor_id@ == dups[i])
}

/// The errors are exactly the unresolved-dependency errors for `missing`, in order.
pub open spec fn unresolved_errors(errors: Seq<ValidationError>, missing: Seq<(Seq<char>, Seq<char>)>) -> bool {
    &&& errors.len() == missing.len()
    &&& forall|i: int| 0 <= i < errors.len() ==> (#[trigger] errors[i] matches ValidationError::UnresolvedDependency { processor_id, missing_dependency }
        && processor_id@ == missing[i].0 && missing_dependency@ == missing[i].1)
}

proof fn lemma_procs_ids(config: &Config)
    ensures
        ids_of_procs(procs_of(config)).len() == config.processors@.len(),
        forall|i: int| 0 <= i < config.processors@.len() ==> #[trigger] ids_of_procs(procs_of(config))[i] == config.processors@[i].id@,
{
}

/// Reports each processor whose id was already used by an earlier one.
pub fn validate_unique_processor_ids(config: &Config) -> (r: Result<(), Vec<ValidationError>>)
    ensures
        match r {
            Ok(()) => repeated_ids(ids_of_procs(procs_of(config))).len() == 0,
            Err(errors) => errors@.len() > 0 && duplicate_errors(errors@, repeated_ids(ids_of_procs(procs_of(config)))),
        },
        r is Ok <==> ids_of_procs(procs_of(config)).no_duplicates(),
{
    let ghost ids = ids_of_procs(procs_of(config));
    proof {
        lemma_procs_ids(config);
        law_repeated_ids(ids);
    }
    let mut seen = StringSet::new();
    let mut errors: Vec<ValidationError> = Vec::new();
    let mut i: usize = 0;
    proof {
        assert(ids.take(0) =~= Seq::<Seq<char>>::empty());
        assert(seen@ =~= ids.take(0).to_set());
    }
    while i < config.processors.len()
        invariant
            ids == ids_of_procs(procs_of(config)),
            ids.len() == config.processors@.len(),
            forall|k: int| 0 <= k < config.processors@.len() ==> #[trigger] ids[k] == config.processors@[k].id@,
            i <= config.processors@.len(),
            seen.wf(),
            seen@ == ids.take(i as int).to_set(),
            duplicate_errors(errors@, repeated_ids(ids.take(i as int))),
        decreases config.processors@.len() - i,
    {
        let ghost t = ids.take(i as int);
        proof {
            assert(ids.take(i + 1) =~= t.push(ids[i as int]));
            assert(ids.take(i + 1).drop_last() =~= t);
            crate::string_map::lemma_push_contains(t, ids[i as int]);
            assert(t.contains(ids[i as int]) == t.to_set().contains(ids[i as int]));
        }
        let id = &config.processors[i].id;
        let added = seen.insert(id.clone());
        if !added {
            let ghost before = errors@;
            errors.push(ValidationError::DuplicateProcessorId { processor_id: id.clone() });
            proof {
                assert(repeated_ids(ids.take(i + 1)) == repeated_ids(t).push(ids[i as int]));
                assert forall|k: int| 0 <= k < errors@.len() implies (#[trigger] errors@[k] matches ValidationError::DuplicateProcessorId { processor_id }
                    && processor_id@ == repeated_ids(ids.take(i + 1))[k]) by {
                    if k < before.len() {
                        assert(errors@[k] == before[k]);
                    }
                }
            }
        } else {
            proof {
                assert(repeated_ids(ids.take(i + 1)) == repeated_ids(t));
            }
        }
        i = i + 1;
    }
    proof {
        assert(ids.take(i as int) =~= ids);
    }
    if errors.len() == 0 {
        Ok(())
    } else {
        Err(errors)
    }
}

/// Reports each dependency that names no processor.
pub fn validate_dependency_references(config: &Config) -> (r: Result<(), Vec<ValidationError>>)
    ensures
        match r {
            Ok(()) => unresolved_of(procs_of(config), ids_of_procs(procs_of(config))).len() == 0,
            Err(errors) => errors@.len() > 0
                && unresolved_errors(errors@, unresolved_of(procs_of(config), ids_of_procs(procs_of(config)))),
        },
{
    let ghost ps = procs_of(config);
    let ghost ids = ids_of_procs(ps);
    proof {
        lemma_procs_ids(config);
    }
    let mut known = StringSet::new();
    let mut i: usize = 0;
    while i < config.processors.len()
        invariant
            ids == ids_of_procs(procs_of(config)),
            ids.len() == config.processors@.len(),
            forall|k: int| 0 <= k < config.processors@.len() ==> #[trigger] ids[k] == config.processors@[k].id@,
            i <= config.processors@.len(),
            known.wf(),
            known@ == ids.take(i as int).to_set(),
        decreases config.processors@.len() - i,
    {
        proof {
            assert(ids.take(i + 1) =~= ids.take(i as int).push(ids[i as int]));
            crate::string_map::lemma_push_contains(ids.take(i as int), ids[i as int]);
        }
        known.insert(config.processors[i].id.clone());
        i = i + 1;
    }
    proof {
        assert(ids.take(i as int) =~= ids);
        assert forall|x: Seq<char>| #[trigger] known@.contains(x) <==> ids.contains(x) by {}
    }
    let mut errors: Vec<ValidationError> = Vec::new();
    let mut p: usize = 0;
    proof {
        assert(ps.take(0) =~= Seq::<ProcView>::empty());
    }
    while p < config.processors.len()
        invariant
            ps == procs_of(config),
            ids == ids_of_procs(ps),
            p <= config.processors@.len(),
            known.wf(),
            forall|x: Seq<char>| #[trigger] known@.contains(x) <==> ids.contains(x),
            unresolved_errors(errors@, unresolved_of(ps.take(p as int), ids)),
        decreases config.processors@.len() - p,
    {
        let proc = &config.processors[p];
        let ghost pv = ps[p as int];
        let ghost base = unresolved_of(ps.take(p as int), ids);
        proof {
            assert(ps.take(p + 1).drop_last() =~= ps.take(p as int));
            assert(pv == (proc.id@, strs_view(proc.depends_on@)));
            assert((pv.0, pv.1.take(0)).1 =~= Seq::<Seq<char>>::empty());
            assert(base + missing_of((pv.0, pv.1.take(0)), ids) =~= base);
        }
        let mut j: usize = 0;
        while j < proc.depends_on.len()
            invariant
                pv == (proc.id@, strs_view(proc.depends_on@)),
                ids == ids_of_procs(ps),
                j <= proc.depends_on@.len(),
                known.wf(),
                forall|x: Seq<char>| #[trigger] known@.contains(x) <==> ids.contains(x),
                unresolved_errors(errors@, base + missing_of((pv.0, pv.1.take(j as int)), ids)),
            decreases proc.depends_on@.len() - j,
        {
            let ghost before = errors@;
            let ghost m0 = missing_of((pv.0, pv.1.take(j as int)), ids);
            proof {
                assert(pv.1.take(j + 1).drop_last() =~= pv.1.take(j as int));
                assert(pv.1.take(j + 1).last() == proc.depends_on@[j as int]@);
            }
            let dep = &proc.depends_on[j];
            if !known.contains(dep) {
                errors.push(ValidationError::UnresolvedDependency {
                    processor_id: proc.id.clone(),
                    missing_dependency: dep.clone(),
                });
                proof {
                    let m1 = missing_of((pv.0, pv.1.take(j + 1)), ids);
                    assert(m1 == m0.push((pv.0, dep@)));
                    assert(base + m1 =~= (base + m0).push((pv.0, dep@)));
                    assert forall|k: int| 0 <= k < errors@.len() implies (#[trigger] errors@[k] matches ValidationError::UnresolvedDependency { processor_id, missing_dependency }
                        && processor_id@ == (base + m1)[k].0 && missing_dependency@ == (base + m1)[k].1) by {
                        if k < before.len() {
                            assert(errors@[k] == before[k]);
                        }
                    }
                }
            } else {
                proof {
                    let m1 = missing_of((pv.0, pv.1.take(j + 1)), ids);
                    assert(m1 == m0);
                }
            }
            j = j + 1;
        }
        proof {
            assert(pv.1.take(j as int) =~= pv.1);
            assert(unresolved_of(ps.take(p + 1), ids) == base + missing_of(pv, ids));
        }
        p = p + 1;
    }
    proof {
        assert(ps.take(p as int) =~= ps);
    }
    if errors.len() == 0 {
        Ok(())
    } else {
        Err(errors)
    }
}


/// `w` depends on `u` through the processors before position `i`, or through the
/// first `j` dependencies of the processor at position `i`.
pub open spec fn depends_upto(ps: Seq<ProcView>, i: int, j: int, u: Seq<char>, w: Seq<char>) -> bool {
    ||| exists|k: int| 0 <= k < i && ps[k].0 == w && #[trigger] ps[k].1.contains(u)
    ||| (0 <= i < ps.len() && ps[i].0 == w && ps[i].1.take(j).contains(u))
}

/// The graph of a configuration: every processor id, with the processors that depend on it.
pub fn build_forward_graph(config: &Config) -> (g: DependencyGraph)
    requires
        all_resolved(procs_of(config)),
    ensures
        g.wf(),
        forall|v: Seq<char>| #[trigger] is_key(g.entries_view(), v) <==> ids_of_procs(procs_of(config)).contains(v),
        forall|u: Seq<char>, w: Seq<char>| is_key(g.entries_view(), u) ==>
            (#[trigger] dependents_of(g.entries_view(), u).contains(w) <==> depends(procs_of(config), u, w)),
{
    let ghost ps = procs_of(config);
    let ghost ids = ids_of_procs(ps);
    proof {
        lemma_procs_ids(config);
    }
    let mut map: StringMap<Vec<String>> = StringMap::new();
    let mut i: usize = 0;
    while i < config.processors.len()
        invariant
            ids == ids_of_procs(procs_of(config)),
            ids.len() == config.processors@.len(),
            forall|k: int| 0 <= k < config.processors@.len() ==> #[trigger] ids[k] == config.processors@[k].id@,
            i <= config.processors@.len(),
            map.wf(),
            forall|v: Seq<char>| #[trigger] map@.contains_key(v) <==> ids.take(i as int).contains(v),
            forall|v: Seq<char>| #[trigger] map@.contains_key(v) ==> map@[v]@.len() == 0,
        decreases config.processors@.len() - i,
    {
        proof {
            assert(ids.take(i + 1) =~= ids.take(i as int).push(ids[i as int]));
            crate::string_map::lemma_push_contains(ids.take(i as int), ids[i as int]);
        }
        map.insert(config.processors[i].id.clone(), Vec::new());
        i = i + 1;
    }
    proof {
        assert(ids.take(i as int) =~= ids);
    }
    let mut p: usize = 0;
    while p < config.processors.len()
        invariant
            ps == procs_of(config),
            ids == ids_of_procs(ps),
            all_resolved(ps),
            p <= config.processors@.len(),
            map.wf(),
            forall|v: Seq<char>| #[trigger] map@.contains_key(v) <==> ids.contains(v),
            forall|u: Seq<char>, w: Seq<char>| map@.contains_key(u) ==>
                (#[trigger] strs_view(map@[u]@).contains(w) <==> depends_upto(ps, p as int, 0, u, w)),
        decreases config.processors@.len() - p,
    {
        let proc = &config.processors[p];
        let ghost pv = ps[p as int];
        proof {
            assert(pv == (proc.id@, strs_view(proc.depends_on@)));
        }
        let mut j: usize = 0;
        while j < proc.depends_on.len()
            invariant
                ps == procs_of(config),
                ids == ids_of_procs(ps),
                all_resolved(ps),
                p < config.processors@.len(),
                pv == ps[p as int],
                pv == (proc.id@, strs_view(proc.depends_on@)),
                j <= proc.depends_on@.len(),
                map.wf(),
                forall|v: Seq<char>| #[trigger] map@.contains_key(v) <==> ids.contains(v),
                forall|u: Seq<char>, w: Seq<char>| map@.contains_key(u) ==>
                    (#[trigger] strs_view(map@[u]@).contains(w) <==> depends_upto(ps, p as int, j as int, u, w)),
            decreases proc.depends_on@.len() - j,
        {
            let dep = &proc.depends_on[j];
            let ghost d = dep@;
            proof {
                assert(pv.1[j as int] == d);
                assert(ids.contains(ps[p as int].1[j as int]));
                assert(pv.1.take(j + 1) =~= pv.1.take(j as int).push(d));
                crate::string_map::lemma_push_contains(pv.1.take(j as int), d);
            }
            let pos = map.position(dep);
            match pos {
                Some(k) => {
                    proof {
                        map.lemma_value_at(k as int);
                    }
                    let ghost before = map@;
                    let mut v = map.value_at(k).clone();
                    let ghost v0 = v@;
                    proof {
                        assert(strs_view(v@) =~= strs_view(before[d]@));
                    }
                    v.push(proc.id.clone());
                    proof {
                        crate::string_map::lemma_strs_view_push(v0, proc.id);
                        crate::string_map::lemma_push_contains(strs_view(v0), proc.id@);
                    }
                    map.replace_value_at(k, v);
                    proof {
                        assert forall|u: Seq<char>, w: Seq<char>| map@.contains_key(u) implies
                            (#[trigger] strs_view(map@[u]@).contains(w) <==> depends_upto(ps, p as int, j + 1, u, w)) by {
                            if u == d {
                                assert(strs_view(before[d]@).contains(w) <==> depends_upto(ps, p as int, j as int, d, w));
                            } else {
                                assert(map@[u] == before[u]);
                                assert(strs_view(before[u]@).contains(w) <==> depends_upto(ps, p as int, j as int, u, w));
                            }
                        }
                    }
                },
                None => {},
            }
            j = j + 1;
        }
        proof {
            assert(pv.1.take(j as int) =~= pv.1);
            assert forall|u: Seq<char>, w: Seq<char>| depends_upto(ps, p as int, j as int, u, w)
                <==> depends_upto(ps, p + 1, 0, u, w) by {
                if depends_upto(ps, p + 1, 0, u, w) {
                    if exists|k: int| 0 <= k < p + 1 && ps[k].0 == w && #[trigger] ps[k].1.contains(u) {
                    } else {
                        assert(ps[p as int].1.take(0) =~= Seq::<Seq<char>>::empty());
                    }
                }
            }
        }
        p = p + 1;
    }
    let g = DependencyGraph(map);
    proof {
        g.lemma_keys();
        assert forall|v: Seq<char>| #[trigger] is_key(g.entries_view(), v) <==> ids.contains(v) by {
            assert(g.0@.contains_key(v) == g.0.has_key(v));
        }
        assert forall|u: Seq<char>, w: Seq<char>| is_key(g.entries_view(), u) implies
            (#[trigger] dependents_of(g.entries_view(), u).contains(w) <==> depends(ps, u, w)) by {
            let k = g.0.keys_seq().index_of(u);
            g.0.lemma_value_at(k);
            assert(dependents_of(g.entries_view(), u) == strs_view(g.0@[u]@));
            if depends_upto(ps, p as int, 0, u, w) {
                let k2 = choose|k2: int| 0 <= k2 < p && ps[k2].0 == w && #[trigger] ps[k2].1.contains(u);
            }
            if depends(ps, u, w) {
                let k2 = choose|k2: int| 0 <= k2 < ps.len() && ps[k2].0 == w && #[trigger] ps[k2].1.contains(u);
                assert(depends_upto(ps, p as int, 0, u, w));
            }
        }
    }
    g
}


/// `r` ranks every processor above each of its dependencies.
pub open spec fn ranks_config(ps: Seq<ProcView>, r: spec_fn(Seq<char>) -> nat) -> bool {
    forall|i: int, j: int| 0 <= i < ps.len() && 0 <= j < ps[i].1.len() ==> r(#[trigger] ps[i].1[j]) < r(ps[i].0)
}

/// Some ranking puts every processor after each of its dependencies.
pub open spec fn config_acyclic(ps: Seq<ProcView>) -> bool {
    exists|r: spec_fn(Seq<char>) -> nat| ranks_config(ps, r)
}

/// `c` is a cycle of dependencies: it starts and ends at the same processor, and
/// each of its processors is a dependency of the next.
pub open spec fn is_config_cycle(ps: Seq<ProcView>, c: Seq<Seq<char>>) -> bool {
    &&& c.len() >= 2
    &&& c[0] == c.last()
    &&& forall|i: int| 0 <= i < c.len() - 1 ==> depends(ps, #[trigger] c[i], c[i + 1])
}

/// `c` is a cycle of the graph: it starts and ends at the same id, and each of its
/// ids lists the next as a dependent.
pub open spec fn is_graph_cycle(g: Seq<GraphEntry>, c: Seq<Seq<char>>) -> bool {
    &&& c.len() >= 2
    &&& c[0] == c.last()
    &&& forall|i: int| 0 <= i < c.len() - 1 ==> is_key(g, #[trigger] c[i]) && dependents_of(g, c[i]).contains(c[i + 1])
}

/// The search colour of `v`: 0 unvisited, 1 on the search path, 2 finished.
pub open spec fn search_color(visited: Set<Seq<char>>, stack: Set<Seq<char>>, v: Seq<char>) -> int {
    if stack.contains(v) { 1 } else if visited.contains(v) { 2 } else { 0 }
}

/// What holds between searches for a cycle: the path's ids are exactly those on
/// the stack, and it follows edges; the finished ids are exactly those of `post`,
/// each finished after all its dependents; every visited id is a key.
pub open spec fn cycle_search_inv(
    g: Seq<GraphEntry>,
    visited: Set<Seq<char>>,
    stack: Set<Seq<char>>,
    path: Seq<Seq<char>>,
    post: Seq<Seq<char>>,
) -> bool {
    &&& forall|v: Seq<char>| #[trigger] stack.contains(v) <==> path.contains(v)
    &&& forall|v: Seq<char>| stack.contains(v) ==> #[trigger] visited.contains(v)
    &&& forall|v: Seq<char>| #[trigger] post.contains(v) <==> (visited.contains(v) && !stack.contains(v))
    &&& forall|v: Seq<char>| #[trigger] visited.contains(v) ==> is_key(g, v)
    &&& path.no_duplicates()
    &&& post.no_duplicates()
    &&& forall|k: int, j: int| 0 <= k < g.len() && 0 <= j < g[k].1.len() && search_color(visited, stack, g[k].0) == 2
        ==> search_color(visited, stack, #[trigger] g[k].1[j]) == 2 && post.index_of(g[k].1[j]) < post.index_of(g[k].0)
    &&& forall|i: int| 0 <= i < path.len() - 1 ==> is_key(g, #[trigger] path[i]) && dependents_of(g, path[i]).contains(path[i + 1])
}

/// Visited ids are distinct keys, so there are no more of them than entries.
proof fn lemma_visited_bound(g: Seq<GraphEntry>, graph: &DependencyGraph, visited: &StringSet)
    requires
        g == graph.entries_view(),
        graph.wf(),
        visited.wf(),
        forall|v: Seq<char>| #[trigger] visited@.contains(v) ==> is_key(g, v),
    ensures
        visited@.finite(),
        visited@.len() <= g.len(),
{
    graph.lemma_keys();
    visited.items_seq().unique_seq_to_set();
    vstd::seq_lib::seq_to_set_is_finite(visited.items_seq());
    assert forall|x: Seq<char>| visited.items_seq().contains(x) implies graph.0.keys_seq().contains(x) by {
        assert(visited@.contains(x));
    }
    crate::string_map::lemma_distinct_within_len(visited.items_seq(), graph.0.keys_seq());
}

/// Searches for a cycle from `node`, an unvisited processor reached from the last
/// id of the path (when there is one). Returns the first cycle met: the part of
/// the path from the processor met again, closed by that processor. The ghost
/// result is the finishing order, extended by the processors this search finished.
pub fn dfs_cycle_detection(
    graph: &DependencyGraph,
    node: &String,
    visited: &mut StringSet,
    rec_stack: &mut StringSet,
    path: &mut Vec<String>,
    Ghost(post): Ghost<Seq<Seq<char>>>,
) -> (r: (Option<Vec<String>>, Ghost<Seq<Seq<char>>>))
    requires
        graph.wf(),
        is_closed(graph.entries_view()),
        old(visited).wf(),
        old(rec_stack).wf(),
        cycle_search_inv(graph.entries_view(), old(visited)@, old(rec_stack)@, strs_view(old(path)@), post),
        is_key(graph.entries_view(), node@),
        !old(visited)@.contains(node@),
        old(path)@.len() > 0 ==> dependents_of(graph.entries_view(), strs_view(old(path)@).last()).contains(node@),
    ensures
        final(visited).wf(),
        final(rec_stack).wf(),
        r.0 matches Some(c) ==> is_graph_cycle(graph.entries_view(), strs_view(c@)),
        r.0 is None ==> {
            &&& cycle_search_inv(graph.entries_view(), final(visited)@, final(rec_stack)@, strs_view(final(path)@), r.1@)
            &&& strs_view(final(path)@) == strs_view(old(path)@)
            &&& final(rec_stack)@ == old(rec_stack)@
            &&& final(visited)@.contains(node@)
            &&& old(visited)@.subset_of(final(visited)@)
            &&& r.1@.take(post.len() as int) == post
            &&& post.len() <= r.1@.len()
        },
    decreases graph.entries_view().len() - old(visited)@.len(),
{
    let ghost g = graph.entries_view();
    let ghost v0 = visited@;
    let ghost s0 = rec_stack@;
    let ghost p0 = strs_view(path@);
    proof {
        graph.lemma_keys();
        visited.items_seq().unique_seq_to_set();
        vstd::seq_lib::seq_to_set_is_finite(visited.items_seq());
        assert forall|x: Seq<char>| visited.items_seq().contains(x) implies graph.0.keys_seq().contains(x) by {
            assert(visited@.contains(x));
        }
        crate::string_map::lemma_push_contains(visited.items_seq(), node@);
        assert(!visited.items_seq().contains(node@));
        assert forall|x: Seq<char>| visited.items_seq().push(node@).contains(x) implies graph.0.keys_seq().contains(x) by {
            if x != node@ {
                assert(visited@.contains(x));
            }
        }
        crate::string_map::lemma_distinct_within_len(visited.items_seq().push(node@), graph.0.keys_seq());
    }
    visited.insert(node.clone());
    rec_stack.insert(node.clone());
    let ghost old_path = path@;
    path.push(node.clone());
    let ghost p1 = strs_view(path@);
    proof {
        crate::string_map::lemma_strs_view_push(old_path, *node);
        crate::string_map::lemma_push_contains(p0, node@);
        assert(!p0.contains(node@)) by {
            if p0.contains(node@) {
                assert(s0.contains(node@));
            }
        }
        assert forall|i: int| 0 <= i < p1.len() - 1 implies is_key(g, #[trigger] p1[i]) && dependents_of(g, p1[i]).contains(p1[i + 1]) by {
            if i < p0.len() - 1 {
                assert(p1[i] == p0[i] && p1[i + 1] == p0[i + 1]);
            } else {
                assert(p1[i] == p0.last());
                assert(p0.contains(p0.last()));
                assert(visited@.contains(p0.last()));
            }
        }
        assert forall|k: int, j: int| 0 <= k < g.len() && 0 <= j < g[k].1.len() && search_color(visited@, rec_stack@, g[k].0) == 2
            implies search_color(visited@, rec_stack@, #[trigger] g[k].1[j]) == 2 && post.index_of(g[k].1[j]) < post.index_of(g[k].0) by {
            assert(g[k].0 != node@);
            assert(search_color(v0, s0, g[k].0) == 2);
            assert(search_color(v0, s0, g[k].1[j]) == 2);
        }
        assert(cycle_search_inv(g, visited@, rec_stack@, p1, post));
    }
    match graph.get_dependents(node.as_str()) {
        Some(neighbors) => {
            let mut i: usize = 0;
            let ghost mut post_now = post;
            while i < neighbors.len()
                invariant
                    g == graph.entries_view(),
                    graph.wf(),
                    is_closed(g),
                    is_key(g, node@),
                    dependents_of(g, node@) == strs_view(neighbors@),
                    i <= neighbors@.len(),
                    visited.wf(),
                    rec_stack.wf(),
                    rec_stack@ == s0.insert(node@),
                    strs_view(path@) == p1,
                    p1 == p0.push(node@),
                    p1.last() == node@,
                    v0.insert(node@).subset_of(visited@),
                    cycle_search_inv(g, visited@, rec_stack@, p1, post_now),
                    forall|j: int| 0 <= j < i ==> search_color(visited@, rec_stack@, #[trigger] strs_view(neighbors@)[j]) == 2,
                    v0.finite(),
                    !v0.contains(node@),
                    post_now.take(post.len() as int) == post,
                    post.len() <= post_now.len(),
                    v0 == old(visited)@,
                decreases neighbors@.len() - i,
            {
                let nb = &neighbors[i];
                proof {
                    assert(strs_view(neighbors@)[i as int] == nb@);
                    assert(dependents_of(g, node@).contains(nb@));
                }
                if !visited.contains(nb) {
                    proof {
                        let k = graph.0.keys_seq().index_of(node@);
                        assert(g[k].0 == node@);
                        assert(g[k].1 == dependents_of(g, node@));
                        let jj = choose|jj: int| 0 <= jj < g[k].1.len() && g[k].1[jj] == nb@;
                        assert(is_key(g, g[k].1[jj]));
                    }
                    let ghost vb = visited@;
                    let ghost sb = rec_stack@;
                    proof {
                        lemma_visited_bound(g, graph, visited);
                        assert(v0.insert(node@).len() == v0.len() + 1);
                        vstd::set_lib::lemma_len_subset(v0.insert(node@), visited@);
                        assert(visited@.len() > v0.len());
                        assert(v0 == old(visited)@);
                        assert(0 <= g.len() - visited@.len() < g.len() - v0.len());
                    }
                    let (found, Ghost(post_after)) = dfs_cycle_detection(graph, nb, visited, rec_stack, path, Ghost(post_now));
                    match found {
                        Some(c) => {
                            return (Some(c), Ghost(post_after));
                        },
                        None => {},
                    }
                    proof {
                        assert(post_after.take(post.len() as int) =~= post_now.take(post.len() as int));
                        post_now = post_after;
                        assert forall|j: int| 0 <= j < i + 1 implies search_color(visited@, rec_stack@, #[trigger] strs_view(neighbors@)[j]) == 2 by {
                            if j < i {
                                assert(search_color(vb, sb, strs_view(neighbors@)[j]) == 2);
                                assert(visited@.contains(strs_view(neighbors@)[j]));
                            } else {
                                assert(!sb.contains(nb@));
                            }
                        }
                    }
                } else if rec_stack.contains(nb) {
                    let mut start: usize = 0;
                    while start < path.len() && !str_equal(&path[start], nb)
                        invariant
                            start <= path@.len(),
                            strs_view(path@) == p1,
                            forall|m: int| 0 <= m < start ==> p1[m] != nb@,
                        decreases path@.len() - start,
                    {
                        start = start + 1;
                    }
                    proof {
                        assert(p1.contains(nb@));
                        if start == path.len() {
                            let m = choose|m: int| 0 <= m < p1.len() && p1[m] == nb@;
                        }
                        assert(p1[start as int] == nb@);
                    }
                    let mut cycle: Vec<String> = Vec::new();
                    let mut m: usize = start;
                    while m < path.len()
                        invariant
                            start <= m <= path@.len(),
                            strs_view(path@) == p1,
                            cycle@.len() == m - start,
                            forall|q: int| 0 <= q < m - start ==> (#[trigger] cycle@[q])@ == p1[start + q],
                        decreases path@.len() - m,
                    {
                        cycle.push(path[m].clone());
                        m = m + 1;
                    }
                    cycle.push(nb.clone());
                    proof {
                        let c = strs_view(cycle@);
                        let n1 = p1.len() as int;
                        assert(c.len() == n1 - start + 1);
                        assert forall|q: int| 0 <= q < c.len() - 1 implies is_key(g, #[trigger] c[q]) && dependents_of(g, c[q]).contains(c[q + 1]) by {
                            assert(c[q] == p1[start + q]);
                            if q < c.len() - 2 {
                                assert(c[q + 1] == p1[start + q + 1]);
                            } else {
                                assert(c[q + 1] == nb@);
                                assert(p1[start + q] == node@);
                            }
                        }
                        assert(c[0] == p1[start as int]);
                    }
                    return (Some(cycle), Ghost(post_now));
                } else {
                    proof {
                        assert(search_color(visited@, rec_stack@, nb@) == 2);
                    }
                }
                i = i + 1;
            }
            let removed = rec_stack.remove(node.as_str());
            let ghost pb = path@;
            path.pop();
            proof {
                assert(path@ =~= pb.drop_last());
                crate::string_map::lemma_strs_view_drop_last(pb);
                assert(strs_view(path@) =~= p0);
                let post2 = post_now.push(node@);
                crate::string_map::lemma_push_contains(post_now, node@);
                assert(!post_now.contains(node@));
                let n1 = post_now.len() as int;
                assert(post2[n1] == node@);
                assert(post2.index_of(node@) == n1) by {
                    assert(post2.contains(node@));
                }
                assert forall|v: Seq<char>| #[trigger] post_now.contains(v) implies post2.index_of(v) == post_now.index_of(v) by {
                    let a = post_now.index_of(v);
                    assert(post2[a] == v);
                }
                assert(rec_stack@ =~= s0);
                assert forall|v: Seq<char>| #[trigger] rec_stack@.contains(v) <==> p0.contains(v) by {
                    assert(s0.contains(v) <==> p0.contains(v));
                }
                assert forall|k: int, j: int| 0 <= k < g.len() && 0 <= j < g[k].1.len() && search_color(visited@, rec_stack@, g[k].0) == 2
                    implies search_color(visited@, rec_stack@, #[trigger] g[k].1[j]) == 2 && post2.index_of(g[k].1[j]) < post2.index_of(g[k].0) by {
                    if g[k].0 == node@ {
                        assert(graph_keys(g)[k] == node@);
                        assert(graph_keys(g).index_of(node@) == k);
                        assert(strs_view(neighbors@)[j] == g[k].1[j]);
                        let x = g[k].1[j];
                        assert(search_color(visited@, s0.insert(node@), x) == 2);
                        assert(post_now.contains(x));
                    } else {
                        assert(search_color(visited@, s0.insert(node@), g[k].0) == 2);
                        assert(search_color(visited@, s0.insert(node@), g[k].1[j]) == 2);
                        assert(post_now.contains(g[k].0));
                        assert(post_now.contains(g[k].1[j]));
                    }
                }
                assert forall|i2: int| 0 <= i2 < p0.len() - 1 implies is_key(g, #[trigger] p0[i2]) && dependents_of(g, p0[i2]).contains(p0[i2 + 1]) by {
                    assert(p1[i2] == p0[i2] && p1[i2 + 1] == p0[i2 + 1]);
                }
                assert(post2.take(post.len() as int) =~= post_now.take(post.len() as int));
                assert(cycle_search_inv(g, visited@, rec_stack@, strs_view(path@), post2));
            }
            (None, Ghost(post_now.push(node@)))
        },
        None => {
            proof {
                assert(false);
            }
            (None, Ghost(post))
        },
    }
}


proof fn lemma_missing_empty(p: ProcView, ids: Seq<Seq<char>>)
    requires
        missing_of(p, ids).len() == 0,
    ensures
        forall|j: int| 0 <= j < p.1.len() ==> ids.contains(#[trigger] p.1[j]),
    decreases p.1.len(),
{
    if p.1.len() > 0 {
        let q = (p.0, p.1.drop_last());
        if !ids.contains(p.1.last()) {
            assert(missing_of(p, ids).len() == missing_of(q, ids).len() + 1);
        }
        lemma_missing_empty(q, ids);
        assert forall|j: int| 0 <= j < p.1.len() implies ids.contains(#[trigger] p.1[j]) by {
            if j < p.1.len() - 1 {
                assert(q.1[j] == p.1[j]);
            }
        }
    }
}

/// With no unresolved dependency, every dependency names a processor.
proof fn lemma_unresolved_empty(ps: Seq<ProcView>, ids: Seq<Seq<char>>)
    requires
        unresolved_of(ps, ids).len() == 0,
    ensures
        forall|i: int, j: int| 0 <= i < ps.len() && 0 <= j < ps[i].1.len() ==> ids.contains(#[trigger] ps[i].1[j]),
    decreases ps.len(),
{
    if ps.len() > 0 {
        lemma_unresolved_empty(ps.drop_last(), ids);
        lemma_missing_empty(ps.last(), ids);
        assert forall|i: int, j: int| 0 <= i < ps.len() && 0 <= j < ps[i].1.len() implies ids.contains(#[trigger] ps[i].1[j]) by {
            if i < ps.len() - 1 {
                assert(ps.drop_last()[i] == ps[i]);
            }
        }
    }
}

proof fn lemma_cycle_ranks(ps: Seq<ProcView>, c: Seq<Seq<char>>, r: spec_fn(Seq<char>) -> nat, i: int)
    requires
        ranks_config(ps, r),
        forall|m: int| 0 <= m < c.len() - 1 ==> depends(ps, #[trigger] c[m], c[m + 1]),
        0 < i < c.len(),
    ensures
        r(c[0]) < r(c[i]),
    decreases i,
{
    if i > 1 {
        lemma_cycle_ranks(ps, c, r, i - 1);
    }
    assert(depends(ps, c[i - 1], c[i]));
    let k = choose|k: int| 0 <= k < ps.len() && ps[k].0 == c[i] && #[trigger] ps[k].1.contains(c[i - 1]);
    let j = choose|j: int| 0 <= j < ps[k].1.len() && ps[k].1[j] == c[i - 1];
    assert(r(ps[k].1[j]) < r(ps[k].0));
}

/// A configuration with a cycle of dependencies has no ranking.
pub proof fn lemma_cycle_not_acyclic(ps: Seq<ProcView>, c: Seq<Seq<char>>)
    requires
        is_config_cycle(ps, c),
    ensures
        !config_acyclic(ps),
{
    if config_acyclic(ps) {
        let r = choose|r: spec_fn(Seq<char>) -> nat| ranks_config(ps, r);
        lemma_cycle_ranks(ps, c, r, c.len() - 1);
    }
}

/// Checks that the dependencies have no cycle; reports the first cycle found.
pub fn validate_acyclic_graph(config: &Config) -> (r: Result<(), Vec<ValidationError>>)
    requires
        all_resolved(procs_of(config)),
    ensures
        r is Ok <==> config_acyclic(procs_of(config)),
        r matches Err(errors) ==> errors@.len() == 1
            && (errors@[0] matches ValidationError::CyclicDependency { cycle }
                && is_config_cycle(procs_of(config), strs_view(cycle@))),
{
    let ghost ps = procs_of(config);
    let graph = build_forward_graph(config);
    let ghost g = graph.entries_view();
    proof {
        graph.lemma_keys();
        assert forall|i: int, j: int| 0 <= i < g.len() && 0 <= j < g[i].1.len() implies is_key(g, #[trigger] g[i].1[j]) by {
            assert(graph_keys(g)[i] == g[i].0);
            assert(is_key(g, g[i].0));
            assert(dependents_of(g, g[i].0) == g[i].1) by {
                assert(graph_keys(g).index_of(g[i].0) == i);
            }
            assert(dependents_of(g, g[i].0).contains(g[i].1[j]));
            assert(depends(ps, g[i].0, g[i].1[j]));
            let k = choose|k: int| 0 <= k < ps.len() && ps[k].0 == g[i].1[j] && #[trigger] ps[k].1.contains(g[i].0);
            assert(ids_of_procs(ps)[k] == g[i].1[j]);
        }
    }
    let keys = graph.keys();
    let mut visited = StringSet::new();
    let mut rec_stack = StringSet::new();
    let mut path: Vec<String> = Vec::new();
    let ghost mut post = Seq::<Seq<char>>::empty();
    proof {
        assert(strs_view(path@) =~= Seq::<Seq<char>>::empty());
    }
    let mut i: usize = 0;
    while i < keys.len()
        invariant
            ps == procs_of(config),
            g == graph.entries_view(),
            graph.wf(),
            is_closed(g),
            strs_view(keys@) == graph_keys(g),
            forall|v: Seq<char>| #[trigger] is_key(g, v) <==> ids_of_procs(ps).contains(v),
            forall|u: Seq<char>, w: Seq<char>| is_key(g, u) ==>
                (#[trigger] dependents_of(g, u).contains(w) <==> depends(ps, u, w)),
            i <= keys@.len(),
            visited.wf(),
            rec_stack.wf(),
            rec_stack@ == Set::<Seq<char>>::empty(),
            strs_view(path@) == Seq::<Seq<char>>::empty(),
            cycle_search_inv(g, visited@, rec_stack@, strs_view(path@), post),
            forall|j: int| 0 <= j < i ==> visited@.contains(#[trigger] strs_view(keys@)[j]),
        decreases keys@.len() - i,
    {
        proof {
            assert(strs_view(keys@)[i as int] == keys@[i as int]@);
            assert(graph_keys(g)[i as int] == keys@[i as int]@);
            assert(is_key(g, keys@[i as int]@));
            assert(strs_view(path@).len() == path@.len());
            assert(path@.len() == 0);
        }
        if !visited.contains(&keys[i]) {
            let ghost vb = visited@;
            let (found, Ghost(p)) = dfs_cycle_detection(&graph, &keys[i], &mut visited, &mut rec_stack, &mut path, Ghost(post));
            match found {
                Some(cycle) => {
                    proof {
                        let c = strs_view(cycle@);
                        assert forall|m: int| 0 <= m < c.len() - 1 implies depends(ps, #[trigger] c[m], c[m + 1]) by {
                            assert(is_key(g, c[m]) && dependents_of(g, c[m]).contains(c[m + 1]));
                        }
                        lemma_cycle_not_acyclic(ps, c);
                    }
                    return Err(vec![ValidationError::CyclicDependency { cycle }]);
                },
                None => {
                    proof {
                        post = p;
                        assert forall|j: int| 0 <= j < i + 1 implies visited@.contains(#[trigger] strs_view(keys@)[j]) by {
                            if j < i {
                                assert(vb.contains(strs_view(keys@)[j]));
                            }
                        }
                    }
                },
            }
        }
        i = i + 1;
    }
    proof {
        let rk = |v: Seq<char>| (post.len() - post.index_of(v)) as nat;
        assert forall|k: int| 0 <= k < g.len() implies search_color(visited@, rec_stack@, #[trigger] g[k].0) == 2 by {
            assert(graph_keys(g)[k] == g[k].0);
            assert(strs_view(keys@)[k] == g[k].0);
        }
        assert(ranks_config(ps, rk)) by {
            assert forall|a: int, b: int| 0 <= a < ps.len() && 0 <= b < ps[a].1.len() implies rk(#[trigger] ps[a].1[b]) < rk(ps[a].0) by {
                let u = ps[a].1[b];
                let w = ps[a].0;
                assert(ps[a].1.contains(u));
                assert(depends(ps, u, w));
                assert(ids_of_procs(ps).contains(u));
                assert(is_key(g, u));
                let k = graph_keys(g).index_of(u);
                assert(g[k].0 == u);
                assert(dependents_of(g, u) == g[k].1);
                assert(dependents_of(g, u).contains(w));
                let jj = choose|jj: int| 0 <= jj < g[k].1.len() && g[k].1[jj] == w;
                assert(search_color(visited@, rec_stack@, g[k].0) == 2);
                assert(post.index_of(g[k].1[jj]) < post.index_of(g[k].0));
                assert(post.contains(w));
                assert(post.contains(u));
            }
        }
    }
    Ok(())
}

/// Validates a configuration's dependency graph: duplicate ids, then unresolved
/// dependencies, and, when there is neither, cycles. Diamond patterns are
/// warnings, which `validate_diamond_patterns` reports.
pub fn validate_dependency_graph(config: &Config) -> (r: Result<(), Vec<ValidationError>>)
    ensures
        ({
            let ps = procs_of(config);
            let dups = repeated_ids(ids_of_procs(ps));
            let missing = unresolved_of(ps, ids_of_procs(ps));
            &&& r is Ok <==> (dups.len() == 0 && missing.len() == 0 && config_acyclic(ps))
            &&& r matches Err(errors) ==> {
                &&& duplicate_errors(errors@.take(dups.len() as int), dups)
                &&& unresolved_errors(errors@.subrange(dups.len() as int, (dups.len() + missing.len()) as int), missing)
                &&& (dups.len() > 0 || missing.len() > 0) ==> errors@.len() == dups.len() + missing.len()
                &&& (dups.len() == 0 && missing.len() == 0) ==> errors@.len() == 1
                    && (errors@[0] matches ValidationError::CyclicDependency { cycle } && is_config_cycle(ps, strs_view(cycle@)))
            }
        }),
{
    let ghost ps = procs_of(config);
    let ghost dups = repeated_ids(ids_of_procs(ps));
    let ghost missing = unresolved_of(ps, ids_of_procs(ps));
    let mut errors: Vec<ValidationError> = Vec::new();
    match validate_unique_processor_ids(config) {
        Err(mut e) => errors.append(&mut e),
        Ok(()) => {},
    }
    let ghost after_dups = errors@;
    match validate_dependency_references(config) {
        Err(mut e) => errors.append(&mut e),
        Ok(()) => {},
    }
    proof {
        assert(errors@.take(dups.len() as int) =~= after_dups);
        assert(errors@.len() == dups.len() + missing.len());
    }
    if errors.len() == 0 {
        proof {
            lemma_unresolved_empty(ps, ids_of_procs(ps));
        }
        match validate_acyclic_graph(config) {
            Err(mut e) => errors.append(&mut e),
            Ok(()) => {},
        }
    }
    if errors.len() == 0 {
        Ok(())
    } else {
        Err(errors)
    }
}


/// `p` walks the graph: at least one id, each listing the next as a dependent.
pub open spec fn is_walk(g: Seq<GraphEntry>, p: Seq<Seq<char>>) -> bool {
    &&& p.len() >= 1
    &&& forall|i: int| 0 <= i < p.len() - 1 ==> is_key(g, #[trigger] p[i]) && dependents_of(g, p[i]).contains(p[i + 1])
}

/// Some walk leads from `a` to `b` (every id reaches itself).
pub open spec fn reaches(g: Seq<GraphEntry>, a: Seq<char>, b: Seq<char>) -> bool {
    exists|p: Seq<Seq<char>>| #[trigger] is_walk(g, p) && p[0] == a && p.last() == b
}

proof fn lemma_walk_extend(g: Seq<GraphEntry>, p: Seq<Seq<char>>, v: Seq<char>)
    requires
        is_walk(g, p),
        is_key(g, p.last()),
        dependents_of(g, p.last()).contains(v),
    ensures
        is_walk(g, p.push(v)),
        p.push(v)[0] == p[0],
        p.push(v).last() == v,
{
    let q = p.push(v);
    assert forall|i: int| 0 <= i < q.len() - 1 implies is_key(g, #[trigger] q[i]) && dependents_of(g, q[i]).contains(q[i + 1]) by {
        if i < p.len() - 1 {
            assert(q[i] == p[i] && q[i + 1] == p[i + 1]);
        } else {
            assert(q[i] == p.last());
        }
    }
}

/// A walk that starts in a set closed under dependents stays in it.
proof fn lemma_walk_stays(g: Seq<GraphEntry>, p: Seq<Seq<char>>, s: Set<Seq<char>>, m: int)
    requires
        is_walk(g, p),
        s.contains(p[0]),
        forall|u: Seq<char>, w: Seq<char>| s.contains(u) && is_key(g, u) && #[trigger] dependents_of(g, u).contains(w) ==> s.contains(w),
        0 <= m < p.len(),
    ensures
        s.contains(p[m]),
    decreases m,
{
    if m > 0 {
        lemma_walk_stays(g, p, s, m - 1);
        assert(is_key(g, p[m - 1]) && dependents_of(g, p[m - 1]).contains(p[m]));
    }
}

/// Whether some walk of the graph leads from `from` to `to`, by breadth-first search.
pub fn has_path_between(from: &str, to: &str, graph: &DependencyGraph) -> (b: bool)
    requires
        graph.wf(),
    ensures
        b == reaches(graph.entries_view(), from@, to@),
{
    let ghost g = graph.entries_view();
    let from_s = from.to_owned();
    let to_s = to.to_owned();
    if str_equal(&from_s, &to_s) {
        proof {
            assert(is_walk(g, seq![from@]));
        }
        return true;
    }
    let mut queue: Vec<String> = Vec::new();
    let mut visited = StringSet::new();
    queue.push(from_s.clone());
    visited.insert(from_s.clone());
    proof {
        assert(is_walk(g, seq![from@]));
        assert(strs_view(queue@) =~= seq![from@]);
        let s1 = seq![from@];
        assert(s1[0] == from@);
        assert forall|x: Seq<char>| #[trigger] s1.to_set().contains(x) <==> visited@.contains(x) by {
            if s1.contains(x) {
                let k = choose|k: int| 0 <= k < s1.len() && s1[k] == x;
            }
            if x == from@ {
                assert(s1.contains(x));
            }
        }
        assert(visited@ =~= s1.to_set());
    }
    let mut i: usize = 0;
    while i < queue.len()
        invariant
            g == graph.entries_view(),
            graph.wf(),
            from_s@ == from@,
            to_s@ == to@,
            from@ != to@,
            i <= queue@.len(),
            queue@.len() >= 1,
            strs_view(queue@)[0] == from@,
            strs_view(queue@).no_duplicates(),
            visited.wf(),
            visited@ == strs_view(queue@).to_set(),
            !visited@.contains(to@),
            forall|m: int| 0 <= m < queue@.len() ==> #[trigger] reaches(g, from@, strs_view(queue@)[m]),
            forall|m: int, w: Seq<char>| 0 <= m < i && is_key(g, strs_view(queue@)[m])
                && #[trigger] dependents_of(g, strs_view(queue@)[m]).contains(w) ==> visited@.contains(w),
        decreases mentions(g).len() + 1 - queue@.len(), queue@.len() - i,
    {
        let current = queue[i].clone();
        let ghost cur = current@;
        proof {
            assert(strs_view(queue@)[i as int] == cur);
        }
        match graph.get_dependents(current.as_str()) {
            Some(neighbors) => {
                let mut j: usize = 0;
                let ghost q_start = strs_view(queue@);
                while j < neighbors.len()
                    invariant
                        g == graph.entries_view(),
                        graph.wf(),
                        to_s@ == to@,
                        from@ != to@,
                        i < queue@.len(),
                        is_key(g, cur),
                        strs_view(queue@)[i as int] == cur,
                        dependents_of(g, cur) == strs_view(neighbors@),
                        j <= neighbors@.len(),
                        queue@.len() >= q_start.len(),
                        strs_view(queue@).take(q_start.len() as int) == q_start,
                        q_start.len() >= 1,
                        q_start[0] == from@,
                        strs_view(queue@).no_duplicates(),
                        visited.wf(),
                        visited@ == strs_view(queue@).to_set(),
                        !visited@.contains(to@),
                        reaches(g, from@, cur),
                        forall|m: int| 0 <= m < queue@.len() ==> #[trigger] reaches(g, from@, strs_view(queue@)[m]),
                        forall|m: int, w: Seq<char>| 0 <= m < i && is_key(g, q_start[m])
                            && #[trigger] dependents_of(g, q_start[m]).contains(w) ==> visited@.contains(w),
                        forall|k: int| 0 <= k < j ==> visited@.contains(#[trigger] strs_view(neighbors@)[k]),
                    decreases neighbors@.len() - j,
                {
                    let nb = &neighbors[j];
                    proof {
                        assert(strs_view(neighbors@)[j as int] == nb@);
                        assert(dependents_of(g, cur).contains(nb@));
                        let p = choose|p: Seq<Seq<char>>| #[trigger] is_walk(g, p) && p[0] == from@ && p.last() == cur;
                        lemma_walk_extend(g, p, nb@);
                        assert(is_walk(g, p.push(nb@)));
                        assert(reaches(g, from@, nb@));
                    }
                    if str_equal(nb, &to_s) {
                        return true;
                    }
                    if !visited.contains(nb) {
                        let ghost qb = strs_view(queue@);
                        let ghost qv = queue@;
                        visited.insert(nb.clone());
                        queue.push(nb.clone());
                        proof {
                            crate::string_map::lemma_strs_view_push(qv, *nb);
                            crate::string_map::lemma_push_contains(qb, nb@);
                            assert(!qb.contains(nb@));
                            assert(strs_view(queue@).take(q_start.len() as int) =~= qb.take(q_start.len() as int));
                            assert forall|m: int| 0 <= m < queue@.len() implies #[trigger] reaches(g, from@, strs_view(queue@)[m]) by {
                                if m < qb.len() {
                                    assert(strs_view(queue@)[m] == qb[m]);
                                }
                            }
                        }
                    }
                    j = j + 1;
                }
                proof {
                    assert forall|m: int, w: Seq<char>| 0 <= m < i + 1 && is_key(g, strs_view(queue@)[m])
                        && #[trigger] dependents_of(g, strs_view(queue@)[m]).contains(w) implies visited@.contains(w) by {
                        assert(strs_view(queue@)[m] == q_start[m]);
                        if m == i {
                            let k = choose|k: int| 0 <= k < strs_view(neighbors@).len() && strs_view(neighbors@)[k] == w;
                        }
                    }
                }
            },
            None => {},
        }
        proof {
            let q = strs_view(queue@);
            assert forall|x: Seq<char>| q.to_set().contains(x) implies mentions(g).push(from@).to_set().contains(x) by {
                let m = choose|m: int| 0 <= m < q.len() && q[m] == x;
                if m == 0 {
                    assert(mentions(g).push(from@)[mentions(g).len() as int] == from@);
                } else {
                    assert(reaches(g, from@, q[m]));
                    let p = choose|p: Seq<Seq<char>>| #[trigger] is_walk(g, p) && p[0] == from@ && p.last() == x;
                    assert(q[0] != q[m]);
                    assert(x != from@);
                    assert(p.len() >= 2) by {
                        if p.len() == 1 {
                            assert(p[0] == p.last());
                        }
                    }
                    let pl = p.len() - 2;
                    assert(p[pl + 1] == p.last());
                    assert(is_key(g, p[pl]) && dependents_of(g, p[pl]).contains(p[pl + 1]));
                    let k = graph_keys(g).index_of(p[pl]);
                    assert(g[k].0 == p[pl]);
                    crate::graph_model::lemma_listed_in_degree(g, k, x);
                    crate::graph_dfs::lemma_nodes_mentioned(g, x);
                    let mi = choose|mi: int| 0 <= mi < mentions(g).len() && mentions(g)[mi] == x;
                    assert(mentions(g).push(from@)[mi] == x);
                }
            }
            q.unique_seq_to_set();
            mentions(g).push(from@).lemma_cardinality_of_set();
            vstd::set_lib::lemma_len_subset(q.to_set(), mentions(g).push(from@).to_set());
        }
        i = i + 1;
    }
    proof {
        if reaches(g, from@, to@) {
            let p = choose|p: Seq<Seq<char>>| #[trigger] is_walk(g, p) && p[0] == from@ && p.last() == to@;
            assert forall|u: Seq<char>, w: Seq<char>| visited@.contains(u) && is_key(g, u) && #[trigger] dependents_of(g, u).contains(w)
                implies visited@.contains(w) by {
                let m = choose|m: int| 0 <= m < strs_view(queue@).len() && strs_view(queue@)[m] == u;
            }
            assert(visited@.contains(p[0])) by {
                assert(strs_view(queue@)[0] == from@);
            }
            lemma_walk_stays(g, p, visited@, p.len() - 1);
        }
    }
    false
}


/// `p` walks the dependencies: at least one id, each a dependency of the next.
pub open spec fn is_config_walk(ps: Seq<ProcView>, p: Seq<Seq<char>>) -> bool {
    &&& p.len() >= 1
    &&& forall|i: int| 0 <= i < p.len() - 1 ==> depends(ps, #[trigger] p[i], p[i + 1])
}

/// Reachability along the edges of a graph.
pub open spec fn graph_reach(g: Seq<GraphEntry>) -> spec_fn(Seq<char>, Seq<char>) -> bool {
    |a: Seq<char>, b: Seq<char>| reaches(g, a, b)
}

/// Reachability from a processor to those that depend on it, directly or not.
pub open spec fn config_reach(ps: Seq<ProcView>) -> spec_fn(Seq<char>, Seq<char>) -> bool {
    |a: Seq<char>, b: Seq<char>| exists|p: Seq<Seq<char>>| #[trigger] is_config_walk(ps, p) && p[0] == a && p.last() == b
}

/// In the graph of a configuration, walks are the walks of its dependencies.
proof fn lemma_forward_reach(ps: Seq<ProcView>, g: Seq<GraphEntry>)
    requires
        all_resolved(ps),
        forall|v: Seq<char>| #[trigger] is_key(g, v) <==> ids_of_procs(ps).contains(v),
        forall|u: Seq<char>, w: Seq<char>| is_key(g, u) ==>
            (#[trigger] dependents_of(g, u).contains(w) <==> depends(ps, u, w)),
    ensures
        graph_reach(g) == config_reach(ps),
{
    assert forall|p: Seq<Seq<char>>| #[trigger] is_walk(g, p) <==> is_config_walk(ps, p) by {
        if is_config_walk(ps, p) {
            assert forall|i: int| 0 <= i < p.len() - 1 implies is_key(g, #[trigger] p[i]) && dependents_of(g, p[i]).contains(p[i + 1]) by {
                assert(depends(ps, p[i], p[i + 1]));
                let k = choose|k: int| 0 <= k < ps.len() && ps[k].0 == p[i + 1] && #[trigger] ps[k].1.contains(p[i]);
                let j = choose|j: int| 0 <= j < ps[k].1.len() && ps[k].1[j] == p[i];
                assert(ids_of_procs(ps).contains(ps[k].1[j]));
            }
        }
        if is_walk(g, p) {
            assert forall|i: int| 0 <= i < p.len() - 1 implies depends(ps, #[trigger] p[i], p[i + 1]) by {
                assert(is_key(g, p[i]) && dependents_of(g, p[i]).contains(p[i + 1]));
            }
        }
    }
    assert forall|a: Seq<char>, b: Seq<char>| #[trigger] graph_reach(g)(a, b) == config_reach(ps)(a, b) by {
        if reaches(g, a, b) {
            let p = choose|p: Seq<Seq<char>>| #[trigger] is_walk(g, p) && p[0] == a && p.last() == b;
            assert(is_config_walk(ps, p));
        }
        if config_reach(ps)(a, b) {
            let p = choose|p: Seq<Seq<char>>| #[trigger] is_config_walk(ps, p) && p[0] == a && p.last() == b;
            assert(is_walk(g, p));
        }
    }
    assert(graph_reach(g) =~= config_reach(ps));
}

/// The dependency at position `a` reaches no other (different) dependency of the list.
pub open spec fn isolated(reach: spec_fn(Seq<char>, Seq<char>) -> bool, deps: Seq<Seq<char>>, a: int) -> bool {
    !exists|b: int| 0 <= b < deps.len() && deps[b] != deps[a] && #[trigger] reach(deps[a], deps[b])
}

/// The isolated dependencies among the first `n`, in order.
pub open spec fn isolated_upto(reach: spec_fn(Seq<char>, Seq<char>) -> bool, deps: Seq<Seq<char>>, n: int) -> Seq<Seq<char>>
    decreases n,
{
    if n <= 0 {
        Seq::empty()
    } else if isolated(reach, deps, n - 1) {
        isolated_upto(reach, deps, n - 1).push(deps[n - 1])
    } else {
        isolated_upto(reach, deps, n - 1)
    }
}

/// The parallel paths of a diamond converging at `conv`: one path from each
/// isolated dependency, when there are at least two.
pub open spec fn diamond_paths(reach: spec_fn(Seq<char>, Seq<char>) -> bool, conv: Seq<char>, deps: Seq<Seq<char>>) -> Seq<Seq<Seq<char>>> {
    let iso = isolated_upto(reach, deps, deps.len() as int);
    if iso.len() >= 2 {
        Seq::new(iso.len(), |k: int| seq![iso[k], conv])
    } else {
        Seq::empty()
    }
}

/// The character sequences of a list of lists of strings.
pub open spec fn paths_view(v: Seq<Vec<String>>) -> Seq<Seq<Seq<char>>> {
    Seq::new(v.len(), |i: int| strs_view(v[i]@))
}

/// Finds the parallel paths of a diamond that converges at `convergence_processor`:
/// each dependency that reaches none of the other dependencies starts a path
/// to the convergence point. Fewer than two such paths make no diamond.
pub fn find_diamond_paths(convergence_processor: &str, dependencies: &[String], graph: &DependencyGraph) -> (paths: Vec<Vec<String>>)
    requires
        graph.wf(),
    ensures
        paths_view(paths@) == diamond_paths(graph_reach(graph.entries_view()), convergence_processor@, strs_view(dependencies@)),
{
    let ghost g = graph.entries_view();
    let ghost rch = graph_reach(g);
    let ghost deps = strs_view(dependencies@);
    let mut parallel: Vec<Vec<String>> = Vec::new();
    let mut a: usize = 0;
    while a < dependencies.len()
        invariant
            g == graph.entries_view(),
            rch == graph_reach(g),
            graph.wf(),
            deps == strs_view(dependencies@),
            a <= dependencies@.len(),
            parallel@.len() == isolated_upto(rch, deps, a as int).len(),
            forall|k: int| 0 <= k < parallel@.len() ==> strs_view((#[trigger] parallel@[k])@)
                == seq![isolated_upto(rch, deps, a as int)[k], convergence_processor@],
        decreases dependencies@.len() - a,
    {
        let mut has_other = false;
        let mut b: usize = 0;
        while b < dependencies.len()
            invariant_except_break
                !has_other,
                forall|c: int| 0 <= c < b && deps[c] != deps[a as int] ==> !#[trigger] rch(deps[a as int], deps[c]),
            invariant
                g == graph.entries_view(),
                rch == graph_reach(g),
                graph.wf(),
                deps == strs_view(dependencies@),
                a < dependencies@.len(),
                b <= dependencies@.len(),
            ensures
                has_other ==> exists|c: int| 0 <= c < deps.len() && deps[c] != deps[a as int] && #[trigger] rch(deps[a as int], deps[c]),
                !has_other ==> forall|c: int| 0 <= c < deps.len() && deps[c] != deps[a as int] ==> !#[trigger] rch(deps[a as int], deps[c]),
            decreases dependencies@.len() - b,
        {
            proof {
                assert(deps[a as int] == dependencies@[a as int]@);
                assert(deps[b as int] == dependencies@[b as int]@);
            }
            if !str_equal(&dependencies[a], &dependencies[b])
                && has_path_between(dependencies[a].as_str(), dependencies[b].as_str(), graph) {
                proof {
                    assert(rch(deps[a as int], deps[b as int]));
                }
                has_other = true;
                break;
            }
            proof {
                if deps[b as int] != deps[a as int] {
                    assert(!rch(deps[a as int], deps[b as int]));
                }
            }
            b = b + 1;
        }
        let ghost before = parallel@;
        if !has_other {
            let mut path: Vec<String> = Vec::new();
            path.push(dependencies[a].clone());
            path.push(convergence_processor.to_owned());
            let ghost pv = path@;
            parallel.push(path);
            proof {
                assert(strs_view(pv) =~= seq![deps[a as int], convergence_processor@]);
                assert(isolated(rch, deps, a as int));
                assert(isolated_upto(rch, deps, a + 1) == isolated_upto(rch, deps, a as int).push(deps[a as int]));
                assert forall|k: int| 0 <= k < parallel@.len() implies strs_view((#[trigger] parallel@[k])@)
                    == seq![isolated_upto(rch, deps, a + 1)[k], convergence_processor@] by {
                    if k < before.len() {
                        assert(parallel@[k] == before[k]);
                    }
                }
            }
        } else {
            proof {
                assert(!isolated(rch, deps, a as int));
                assert(isolated_upto(rch, deps, a + 1) == isolated_upto(rch, deps, a as int));
            }
        }
        a = a + 1;
    }
    if parallel.len() >= 2 {
        proof {
            assert(paths_view(parallel@) =~= diamond_paths(rch, convergence_processor@, deps));
        }
        parallel
    } else {
        let empty: Vec<Vec<String>> = Vec::new();
        proof {
            assert(paths_view(empty@) =~= diamond_paths(rch, convergence_processor@, deps));
        }
        empty
    }
}

/// The warnings match the diamonds of the processors with two or more dependencies, in order.
pub open spec fn diamond_warnings(reach: spec_fn(Seq<char>, Seq<char>) -> bool, ps: Seq<ProcView>, warnings: Seq<ValidationError>) -> bool
    decreases ps.len(),
{
    if ps.len() == 0 {
        warnings.len() == 0
    } else {
        let p = ps.last();
        if p.1.len() >= 2 && diamond_paths(reach, p.0, p.1).len() > 0 {
            &&& warnings.len() > 0
            &&& diamond_warnings(reach, ps.drop_last(), warnings.drop_last())
            &&& warnings.last() matches ValidationError::DiamondPatternWarning { convergence_processor, parallel_paths }
                && convergence_processor@ == p.0 && paths_view(parallel_paths@) == diamond_paths(reach, p.0, p.1)
        } else {
            diamond_warnings(reach, ps.drop_last(), warnings)
        }
    }
}

/// Reports, for every processor with two or more dependencies, the parallel paths
/// of the diamond converging at it, if any.
pub fn validate_diamond_patterns(config: &Config) -> (r: Result<(), Vec<ValidationError>>)
    requires
        all_resolved(procs_of(config)),
    ensures
        match r {
            Ok(()) => diamond_warnings(config_reach(procs_of(config)), procs_of(config), Seq::empty()),
            Err(warnings) => warnings@.len() > 0 && diamond_warnings(config_reach(procs_of(config)), procs_of(config), warnings@),
        },
{
    let ghost ps = procs_of(config);
    let graph = build_forward_graph(config);
    let ghost rch = config_reach(ps);
    proof {
        lemma_forward_reach(ps, graph.entries_view());
    }
    let mut warnings: Vec<ValidationError> = Vec::new();
    let mut i: usize = 0;
    proof {
        assert(ps.take(0) =~= Seq::<ProcView>::empty());
    }
    while i < config.processors.len()
        invariant
            ps == procs_of(config),
            rch == config_reach(ps),
            graph_reach(graph.entries_view()) == rch,
            graph.wf(),
            i <= config.processors@.len(),
            diamond_warnings(rch, ps.take(i as int), warnings@),
        decreases config.processors@.len() - i,
    {
        let proc = &config.processors[i];
        proof {
            assert(ps.take(i + 1).drop_last() =~= ps.take(i as int));
            assert(ps.take(i + 1).last() == ps[i as int]);
            assert(ps[i as int] == (proc.id@, strs_view(proc.depends_on@)));
        }
        if proc.depends_on.len() >= 2 {
            let paths = find_diamond_paths(proc.id.as_str(), proc.depends_on.as_slice(), &graph);
            if paths.len() > 0 {
                let ghost before = warnings@;
                warnings.push(ValidationError::DiamondPatternWarning {
                    convergence_processor: proc.id.clone(),
                    parallel_paths: paths,
                });
                proof {
                    assert(warnings@.drop_last() =~= before);
                }
            } else {
                proof {
                    assert(paths_view(paths@).len() == 0);
                }
            }
        }
        i = i + 1;
    }
    proof {
        assert(ps.take(i as int) =~= ps);
    }
    if warnings.len() == 0 {
        proof {
            assert(warnings@ =~= Seq::<ValidationError>::empty());
        }
        Ok(())
    } else {
        Err(warnings)
    }
}

} // verus!
