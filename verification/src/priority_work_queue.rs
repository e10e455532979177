//! A priority queue of processors that skips blocked ones.
//!
//! Tasks are ordered by topological rank (higher first), then by intent
//! (a Transform before an Analyze at the same rank), then by processor id
//! (lexicographically greater first). The ready tasks are kept sorted in
//! ascending priority, so the next task is the last one; tasks met while
//! looking for an unblocked one are parked in a separate store, keyed by
//! processor id, and come back to the ready tasks once they are unblocked.
use vstd::prelude::*;
use crate::string_map::{StringMap, StringSet, str_equal};

verus! {

/// What the ordering of tasks reads: processor id, topological rank, intent.
pub type TaskView = (Seq<char>, usize, bool);

/// Lexicographic order on character sequences (a proper prefix comes first).
pub open spec fn chars_lt(a: Seq<char>, b: Seq<char>) -> bool
    decreases a.len(),
{
    if a.len() == 0 {
        b.len() > 0
    } else if b.len() == 0 {
        false
    } else if a[0] != b[0] {
        (a[0] as int) < (b[0] as int)
    } else {
        chars_lt(a.drop_first(), b.drop_first())
    }
}

/// Law: `chars_lt` is the lexicographic order on characters: `a` comes first
/// exactly when it is a proper prefix of `b`, or at the first position where
/// they differ, `a`'s character is the smaller.
pub proof fn law_chars_lt_lexicographic(a: Seq<char>, b: Seq<char>)
    ensures
        chars_lt(a, b) <==> ((a.len() < b.len() && b.take(a.len() as int) == a) || exists|i: int|
            0 <= i < a.len() && i < b.len() && a.take(i) == b.take(i) && (a[i] as int) < (#[trigger] b[i] as int)),
    decreases a.len(),
{
    if a.len() == 0 {
        assert(b.take(0) =~= a);
    } else if b.len() == 0 {
    } else if a[0] != b[0] {
        if (a[0] as int) < (b[0] as int) {
            assert(a.take(0) =~= b.take(0));
        }
        if a.len() < b.len() && b.take(a.len() as int) == a {
            assert(b.take(a.len() as int)[0] == b[0]);
        }
        if exists|i: int| 0 <= i < a.len() && i < b.len() && a.take(i) == b.take(i) && (a[i] as int) < (#[trigger] b[i] as int) {
            let i = choose|i: int| 0 <= i < a.len() && i < b.len() && a.take(i) == b.take(i) && (a[i] as int) < (#[trigger] b[i] as int);
            if i > 0 {
                assert(a.take(i)[0] == b.take(i)[0]);
            }
        }
    } else {
        let a1 = a.drop_first();
        let b1 = b.drop_first();
        law_chars_lt_lexicographic(a1, b1);
        if a.len() < b.len() && b.take(a.len() as int) == a {
            assert(b1.take(a1.len() as int) =~= a1) by {
                assert forall|k: int| 0 <= k < a1.len() implies #[trigger] b1.take(a1.len() as int)[k] == a1[k] by {
                    assert(b.take(a.len() as int)[k + 1] == a[k + 1]);
                }
            }
        }
        if a1.len() < b1.len() && b1.take(a1.len() as int) == a1 {
            assert(b.take(a.len() as int) =~= a) by {
                assert forall|k: int| 0 <= k < a.len() implies #[trigger] b.take(a.len() as int)[k] == a[k] by {
                    if k > 0 {
                        assert(b1.take(a1.len() as int)[k - 1] == a1[k - 1]);
                    }
                }
            }
        }
        if exists|i: int| 0 <= i < a.len() && i < b.len() && a.take(i) == b.take(i) && (a[i] as int) < (#[trigger] b[i] as int) {
            let i = choose|i: int| 0 <= i < a.len() && i < b.len() && a.take(i) == b.take(i) && (a[i] as int) < (#[trigger] b[i] as int);
            assert(i > 0);
            assert(a1.take(i - 1) =~= b1.take(i - 1)) by {
                assert forall|k: int| 0 <= k < i - 1 implies #[trigger] a1.take(i - 1)[k] == b1.take(i - 1)[k] by {
                    assert(a.take(i)[k + 1] == b.take(i)[k + 1]);
                }
            }
            assert(a1[i - 1] == a[i] && b1[i - 1] == b[i]);
        }
        if exists|i: int| 0 <= i < a1.len() && i < b1.len() && a1.take(i) == b1.take(i) && (a1[i] as int) < (#[trigger] b1[i] as int) {
            let i = choose|i: int| 0 <= i < a1.len() && i < b1.len() && a1.take(i) == b1.take(i) && (a1[i] as int) < (#[trigger] b1[i] as int);
            assert(a.take(i + 1) =~= b.take(i + 1)) by {
                assert forall|k: int| 0 <= k < i + 1 implies #[trigger] a.take(i + 1)[k] == b.take(i + 1)[k] by {
                    if k > 0 {
                        assert(a1.take(i)[k - 1] == b1.take(i)[k - 1]);
                    }
                }
            }
            assert(a[i + 1] == a1[i] && b[i + 1] == b1[i]);
        }
    }
}

/// Law: tasks are scheduled by topological rank, highest first; at the same
/// rank a Transform before an Analyze task; and between tasks of the same rank
/// and intent, the greater id first.
pub proof fn law_scheduling_priority(a: TaskView, b: TaskView)
    ensures
        a.1 > b.1 ==> outranks(a, b),
        a.1 == b.1 && a.2 && !b.2 ==> outranks(a, b),
        a.1 == b.1 && a.2 == b.2 ==> (outranks(a, b) <==> chars_lt(b.0, a.0)),
        a.1 < b.1 ==> !outranks(a, b),
        a.1 == b.1 && !a.2 && b.2 ==> !outranks(a, b),
{
}

/// `a` is scheduled before `b`.
pub open spec fn outranks(a: TaskView, b: TaskView) -> bool {
    ||| a.1 > b.1
    ||| (a.1 == b.1 && a.2 && !b.2)
    ||| (a.1 == b.1 && a.2 == b.2 && chars_lt(b.0, a.0))
}

proof fn lemma_chars_lt_irreflexive(a: Seq<char>)
    ensures
        !chars_lt(a, a),
    decreases a.len(),
{
    if a.len() > 0 {
        lemma_chars_lt_irreflexive(a.drop_first());
    }
}

proof fn lemma_chars_lt_transitive(a: Seq<char>, b: Seq<char>, c: Seq<char>)
    requires
        chars_lt(a, b),
        chars_lt(b, c),
    ensures
        chars_lt(a, c),
    decreases a.len(),
{
    if a.len() > 0 && b.len() > 0 && c.len() > 0 && a[0] == b[0] && b[0] == c[0] {
        lemma_chars_lt_transitive(a.drop_first(), b.drop_first(), c.drop_first());
    }
}

proof fn lemma_chars_lt_total(a: Seq<char>, b: Seq<char>)
    ensures
        a == b || chars_lt(a, b) || chars_lt(b, a),
    decreases a.len(),
{
    if a.len() > 0 && b.len() > 0 {
        if a[0] == b[0] {
            lemma_chars_lt_total(a.drop_first(), b.drop_first());
            if a.drop_first() == b.drop_first() {
                assert(a =~= seq![a[0]] + a.drop_first());
                assert(b =~= seq![b[0]] + b.drop_first());
            }
        } else {
            assert((a[0] as int) != (b[0] as int));
        }
    } else if a.len() == 0 && b.len() == 0 {
        assert(a =~= b);
    }
}

proof fn lemma_chars_lt_asymmetric(a: Seq<char>, b: Seq<char>)
    ensures
        !(chars_lt(a, b) && chars_lt(b, a)),
{
    if chars_lt(a, b) && chars_lt(b, a) {
        lemma_chars_lt_transitive(a, b, a);
        lemma_chars_lt_irreflexive(a);
    }
}

/// Scheduling order is a strict total order on task views.
pub proof fn lemma_outranks_order(a: TaskView, b: TaskView, c: TaskView)
    ensures
        !outranks(a, a),
        outranks(a, b) ==> !outranks(b, a),
        outranks(a, b) && outranks(b, c) ==> outranks(a, c),
        a == b || outranks(a, b) || outranks(b, a),
{
    lemma_chars_lt_irreflexive(a.0);
    lemma_chars_lt_asymmetric(a.0, b.0);
    if chars_lt(b.0, a.0) && chars_lt(c.0, b.0) {
        lemma_chars_lt_transitive(c.0, b.0, a.0);
    }
    lemma_chars_lt_total(a.0, b.0);
}

/// Whether `a` comes before `b` in the lexicographic order of their characters.
pub fn chars_less(a: &Vec<char>, b: &Vec<char>) -> (r: bool)
    ensures
        r == chars_lt(a@, b@),
{
    let mut i: usize = 0;
    proof {
        assert(a@.skip(0) =~= a@);
        assert(b@.skip(0) =~= b@);
    }
    while i < a.len() && i < b.len()
        invariant
            i <= a@.len(),
            i <= b@.len(),
            chars_lt(a@, b@) == chars_lt(a@.skip(i as int), b@.skip(i as int)),
        decreases a@.len() - i,
    {
        if a[i] != b[i] {
            let ca: char = a[i];
            let cb: char = b[i];
            proof {
                assert(a@.skip(i as int)[0] == a@[i as int]);
                assert(b@.skip(i as int)[0] == b@[i as int]);
            }
            return ca < cb;
        }
        proof {
            assert(a@.skip(i as int).drop_first() =~= a@.skip(i + 1));
            assert(b@.skip(i as int).drop_first() =~= b@.skip(i + 1));
        }
        i = i + 1;
    }
    i < b.len()
}

/// The characters of a string.
pub fn chars_of(s: &str) -> (v: Vec<char>)
    ensures
        v@ == s@,
{
    let n = s.unicode_len();
    let mut v: Vec<char> = Vec::new();
    let mut i: usize = 0;
    while i < n
        invariant
            n == s@.len(),
            i <= n,
            v@ == s@.take(i as int),
        decreases n - i,
    {
        let c = s.get_char(i);
        v.push(c);
        proof {
            assert(s@.take(i + 1) =~= s@.take(i as int).push(c));
        }
        i = i + 1;
    }
    proof {
        assert(s@.take(n as int) =~= s@);
    }
    v
}

/// Ascending priority: no task outranks one that comes after it.
pub open spec fn sorted_by_priority(s: Seq<TaskView>) -> bool {
    forall|i: int, j: int| 0 <= i < j < s.len() ==> !outranks(#[trigger] s[i], #[trigger] s[j])
}

/// `s` with `t` placed after every task that it outranks or equals.
pub open spec fn insert_sorted(s: Seq<TaskView>, t: TaskView) -> Seq<TaskView>
    decreases s.len(),
{
    if s.len() == 0 {
        seq![t]
    } else if outranks(s.last(), t) {
        insert_sorted(s.drop_last(), t).push(s.last())
    } else {
        s.push(t)
    }
}

/// `s` with the tasks of `ts` placed one after the other, first to last.
pub open spec fn insert_all(s: Seq<TaskView>, ts: Seq<TaskView>) -> Seq<TaskView>
    decreases ts.len(),
{
    if ts.len() == 0 {
        s
    } else {
        insert_sorted(insert_all(s, ts.drop_last()), ts.last())
    }
}

/// The processor ids of a sequence of tasks.
pub open spec fn ids_of(es: Seq<TaskView>) -> Seq<Seq<char>> {
    Seq::new(es.len(), |i: int| es[i].0)
}

/// Parking `t`: it replaces a parked task with its id, or is added at the end.
pub open spec fn park(es: Seq<TaskView>, t: TaskView) -> Seq<TaskView> {
    if ids_of(es).contains(t.0) {
        es.update(ids_of(es).index_of(t.0), t)
    } else {
        es.push(t)
    }
}

/// Parking the tasks of `s` from the last to the first.
pub open spec fn park_all(es: Seq<TaskView>, s: Seq<TaskView>) -> Seq<TaskView>
    decreases s.len(),
{
    if s.len() == 0 {
        es
    } else {
        park(park_all(es, s.drop_first()), s[0])
    }
}

/// The tasks of `es` whose ids are in `b`, in order.
pub open spec fn still_blocked(es: Seq<TaskView>, b: Set<Seq<char>>) -> Seq<TaskView>
    decreases es.len(),
{
    if es.len() == 0 {
        es
    } else if b.contains(es.last().0) {
        still_blocked(es.drop_last(), b).push(es.last())
    } else {
        still_blocked(es.drop_last(), b)
    }
}

/// The tasks of `es` whose ids are not in `b`, in order.
pub open spec fn unblocked(es: Seq<TaskView>, b: Set<Seq<char>>) -> Seq<TaskView>
    decreases es.len(),
{
    if es.len() == 0 {
        es
    } else if b.contains(es.last().0) {
        unblocked(es.drop_last(), b)
    } else {
        unblocked(es.drop_last(), b).push(es.last())
    }
}

/// The position of the last task of `r` whose id is not in `b`, or -1.
pub open spec fn last_unblocked(r: Seq<TaskView>, b: Set<Seq<char>>) -> int
    decreases r.len(),
{
    if r.len() == 0 {
        -1
    } else if !b.contains(r.last().0) {
        r.len() - 1
    } else {
        last_unblocked(r.drop_last(), b)
    }
}

proof fn lemma_sorted_drop_last(s: Seq<TaskView>)
    requires
        sorted_by_priority(s),
        s.len() > 0,
    ensures
        sorted_by_priority(s.drop_last()),
        forall|x: TaskView| s.drop_last().contains(x) ==> !outranks(x, s.last()),
{
    assert forall|x: TaskView| s.drop_last().contains(x) implies !outranks(x, s.last()) by {
        let k = choose|k: int| 0 <= k < s.drop_last().len() && s.drop_last()[k] == x;
        assert(s[k] == x);
        assert(!outranks(s[k], s[s.len() - 1]));
    }
}

/// Inserting keeps the order, adds exactly `t`, and lengthens by one.
pub proof fn lemma_insert_sorted(s: Seq<TaskView>, t: TaskView)
    requires
        sorted_by_priority(s),
    ensures
        sorted_by_priority(insert_sorted(s, t)),
        insert_sorted(s, t).len() == s.len() + 1,
        forall|x: TaskView| #[trigger] insert_sorted(s, t).contains(x) <==> (s.contains(x) || x == t),
    decreases s.len(),
{
    let r = insert_sorted(s, t);
    if s.len() == 0 {
        assert forall|x: TaskView| #[trigger] r.contains(x) <==> (s.contains(x) || x == t) by {
            if r.contains(x) {
                let k = choose|k: int| 0 <= k < r.len() && r[k] == x;
            }
            if x == t {
                assert(r[0] == t);
            }
        }
    } else if outranks(s.last(), t) {
        let d = s.drop_last();
        lemma_sorted_drop_last(s);
        lemma_insert_sorted(d, t);
        let q = insert_sorted(d, t);
        assert(r == q.push(s.last()));
        lemma_outranks_order(s.last(), t, t);
        assert forall|i: int, j: int| 0 <= i < j < r.len() implies !outranks(#[trigger] r[i], #[trigger] r[j]) by {
            if j == r.len() - 1 {
                assert(q.contains(q[i]));
                assert(r[i] == q[i]);
                if q[i] != t {
                    assert(d.contains(q[i]));
                }
            } else {
                assert(r[i] == q[i] && r[j] == q[j]);
            }
        }
        assert forall|x: TaskView| #[trigger] r.contains(x) <==> (s.contains(x) || x == t) by {
            vstd::seq_lib::lemma_seq_contains_after_push(q, s.last(), x);
            assert(s == d.push(s.last()));
            vstd::seq_lib::lemma_seq_contains_after_push(d, s.last(), x);
        }
    } else {
        assert(r == s.push(t));
        assert forall|i: int, j: int| 0 <= i < j < r.len() implies !outranks(#[trigger] r[i], #[trigger] r[j]) by {
            if j == r.len() - 1 {
                assert(r[i] == s[i]);
                if i < s.len() - 1 {
                    assert(!outranks(s[i], s[s.len() - 1]));
                    lemma_outranks_order(s[i], s.last(), t);
                    lemma_outranks_order(s.last(), t, s[i]);
                    lemma_outranks_order(t, s[i], s.last());
                    lemma_outranks_order(s.last(), s[i], t);
                }
            } else {
                assert(r[i] == s[i] && r[j] == s[j]);
            }
        }
        assert forall|x: TaskView| #[trigger] r.contains(x) <==> (s.contains(x) || x == t) by {
            vstd::seq_lib::lemma_seq_contains_after_push(s, t, x);
        }
    }
}

/// Inserting many keeps the order, adds exactly their tasks, and lengthens by their number.
pub proof fn lemma_insert_all(s: Seq<TaskView>, ts: Seq<TaskView>)
    requires
        sorted_by_priority(s),
    ensures
        sorted_by_priority(insert_all(s, ts)),
        insert_all(s, ts).len() == s.len() + ts.len(),
        forall|x: TaskView| #[trigger] insert_all(s, ts).contains(x) <==> (s.contains(x) || ts.contains(x)),
    decreases ts.len(),
{
    if ts.len() > 0 {
        lemma_insert_all(s, ts.drop_last());
        lemma_insert_sorted(insert_all(s, ts.drop_last()), ts.last());
        assert forall|x: TaskView| #[trigger] insert_all(s, ts).contains(x) <==> (s.contains(x) || ts.contains(x)) by {
            assert(ts == ts.drop_last().push(ts.last()));
            vstd::seq_lib::lemma_seq_contains_after_push(ts.drop_last(), ts.last(), x);
        }
    }
}

proof fn lemma_last_unblocked(r: Seq<TaskView>, b: Set<Seq<char>>, m: int)
    requires
        -1 <= m < r.len(),
        m >= 0 ==> !b.contains(r[m].0),
        forall|i: int| m < i < r.len() ==> b.contains(#[trigger] r[i].0),
    ensures
        last_unblocked(r, b) == m,
    decreases r.len(),
{
    if r.len() > 0 && m < r.len() - 1 {
        lemma_last_unblocked(r.drop_last(), b, m);
    }
}

/// What `last_unblocked` finds: an unblocked position with only blocked tasks after it.
pub proof fn lemma_last_unblocked_facts(r: Seq<TaskView>, b: Set<Seq<char>>)
    ensures
        -1 <= last_unblocked(r, b) < r.len(),
        last_unblocked(r, b) >= 0 ==> !b.contains(r[last_unblocked(r, b)].0),
        forall|i: int| last_unblocked(r, b) < i < r.len() ==> b.contains(#[trigger] r[i].0),
    decreases r.len(),
{
    if r.len() > 0 && b.contains(r.last().0) {
        lemma_last_unblocked_facts(r.drop_last(), b);
        let k = last_unblocked(r, b);
        assert forall|i: int| k < i < r.len() implies b.contains(#[trigger] r[i].0) by {
            if i < r.len() - 1 {
                assert(r.drop_last()[i] == r[i]);
            }
        }
    }
}

/// Splitting by blocked status: each part holds exactly the tasks of its kind.
pub proof fn lemma_split_blocked(es: Seq<TaskView>, b: Set<Seq<char>>)
    ensures
        forall|x: TaskView| #[trigger] still_blocked(es, b).contains(x) <==> (es.contains(x) && b.contains(x.0)),
        forall|x: TaskView| #[trigger] unblocked(es, b).contains(x) <==> (es.contains(x) && !b.contains(x.0)),
        still_blocked(es, b).len() + unblocked(es, b).len() == es.len(),
    decreases es.len(),
{
    if es.len() > 0 {
        let d = es.drop_last();
        lemma_split_blocked(d, b);
        assert(es == d.push(es.last()));
        assert forall|x: TaskView| #[trigger] still_blocked(es, b).contains(x) <==> (es.contains(x) && b.contains(x.0)) by {
            vstd::seq_lib::lemma_seq_contains_after_push(d, es.last(), x);
            vstd::seq_lib::lemma_seq_contains_after_push(still_blocked(d, b), es.last(), x);
        }
        assert forall|x: TaskView| #[trigger] unblocked(es, b).contains(x) <==> (es.contains(x) && !b.contains(x.0)) by {
            vstd::seq_lib::lemma_seq_contains_after_push(d, es.last(), x);
            vstd::seq_lib::lemma_seq_contains_after_push(unblocked(d, b), es.last(), x);
        }
    }
}

/// The ids that parking leaves in the store: those already there and those parked.
pub proof fn lemma_park_all_ids(es: Seq<TaskView>, s: Seq<TaskView>)
    ensures
        forall|y: Seq<char>| #[trigger] ids_of(park_all(es, s)).contains(y) <==> (ids_of(es).contains(y) || ids_of(s).contains(y)),
        forall|x: TaskView| #[trigger] park_all(es, s).contains(x) ==> (es.contains(x) || s.contains(x)),
    decreases s.len(),
{
    if s.len() > 0 {
        let d = s.drop_first();
        lemma_park_all_ids(es, d);
        let p = park_all(es, d);
        let t = s[0];
        let q = park(p, t);
        assert forall|y: Seq<char>| #[trigger] ids_of(q).contains(y) <==> (ids_of(p).contains(y) || y == t.0) by {
            if ids_of(p).contains(t.0) {
                let j = ids_of(p).index_of(t.0);
                assert(ids_of(q) =~= ids_of(p).update(j, t.0));
                if ids_of(q).contains(y) {
                    let k = choose|k: int| 0 <= k < ids_of(q).len() && ids_of(q)[k] == y;
                    if k != j {
                        assert(ids_of(p)[k] == y);
                    }
                }
                if ids_of(p).contains(y) {
                    let k = choose|k: int| 0 <= k < ids_of(p).len() && ids_of(p)[k] == y;
                    if k != j {
                        assert(ids_of(q)[k] == y);
                    } else {
                        assert(ids_of(q)[j] == y);
                    }
                }
                if y == t.0 {
                    assert(ids_of(q)[j] == y);
                }
            } else {
                assert(ids_of(q) =~= ids_of(p).push(t.0));
                vstd::seq_lib::lemma_seq_contains_after_push(ids_of(p), t.0, y);
            }
        }
        assert forall|y: Seq<char>| #[trigger] ids_of(s).contains(y) <==> (ids_of(d).contains(y) || y == t.0) by {
            if ids_of(s).contains(y) {
                let k = choose|k: int| 0 <= k < ids_of(s).len() && ids_of(s)[k] == y;
                if k > 0 {
                    assert(ids_of(d)[k - 1] == y);
                }
            }
            if ids_of(d).contains(y) {
                let k = choose|k: int| 0 <= k < ids_of(d).len() && ids_of(d)[k] == y;
                assert(ids_of(s)[k + 1] == y);
            }
            if y == t.0 {
                assert(ids_of(s)[0] == y);
            }
        }
        assert forall|x: TaskView| #[trigger] q.contains(x) implies (es.contains(x) || s.contains(x)) by {
            let k = choose|k: int| 0 <= k < q.len() && q[k] == x;
            if x == t {
                assert(s[0] == x);
            } else {
                if ids_of(p).contains(t.0) {
                    let j = ids_of(p).index_of(t.0);
                    assert(p[k] == x);
                } else {
                    assert(p[k] == x);
                }
                assert(p.contains(x));
                if d.contains(x) {
                    let m = choose|m: int| 0 <= m < d.len() && d[m] == x;
                    assert(s[m + 1] == x);
                }
            }
        }
    }
}

/// Law: extending the queue is pushing the tasks one after the other, first to
/// last (`extend` gives `insert_all`, `push` gives `insert_sorted`): with no
/// task nothing changes, one task more is placed after the others, and the
/// ready tasks grow by the number of tasks.
pub proof fn law_extend_is_repeated_push(ready: Seq<TaskView>, tasks: Seq<TaskView>, t: TaskView)
    requires
        sorted_by_priority(ready),
    ensures
        insert_all(ready, Seq::empty()) == ready,
        insert_all(ready, tasks.push(t)) == insert_sorted(insert_all(ready, tasks), t),
        insert_all(ready, tasks).len() == ready.len() + tasks.len(),
{
    assert(tasks.push(t).drop_last() =~= tasks);
    lemma_insert_all(ready, tasks);
}

/// No two tasks of `s` share an id.
pub open spec fn distinct_ids(s: Seq<TaskView>) -> bool {
    forall|i: int, j: int| 0 <= i < j < s.len() ==> (#[trigger] s[i]).0 != (#[trigger] s[j]).0
}

/// No task of `a` shares an id with a task of `b`.
pub open spec fn apart(a: Seq<TaskView>, b: Seq<TaskView>) -> bool {
    forall|x: TaskView, y: TaskView| #[trigger] a.contains(x) && #[trigger] b.contains(y) ==> x.0 != y.0
}

/// No two queued tasks, ready or parked, share an id.
pub open spec fn queue_distinct(ready: Seq<TaskView>, stored: Seq<TaskView>) -> bool {
    distinct_ids(ready) && distinct_ids(stored) && apart(ready, stored)
}

proof fn lemma_distinct_push(s: Seq<TaskView>, x: TaskView)
    requires
        distinct_ids(s),
        forall|y: TaskView| #[trigger] s.contains(y) ==> y.0 != x.0,
    ensures
        distinct_ids(s.push(x)),
{
    let r = s.push(x);
    assert forall|i: int, j: int| 0 <= i < j < r.len() implies (#[trigger] r[i]).0 != (#[trigger] r[j]).0 by {
        assert(r[i] == s[i]);
        if j == s.len() {
            assert(s.contains(s[i]));
        } else {
            assert(r[j] == s[j]);
        }
    }
}

proof fn lemma_distinct_insert_sorted(s: Seq<TaskView>, t: TaskView)
    requires
        sorted_by_priority(s),
        distinct_ids(s),
        forall|y: TaskView| #[trigger] s.contains(y) ==> y.0 != t.0,
    ensures
        distinct_ids(insert_sorted(s, t)),
    decreases s.len(),
{
    if s.len() == 0 {
        assert(insert_sorted(s, t) =~= s.push(t));
        lemma_distinct_push(s, t);
    } else if outranks(s.last(), t) {
        let d = s.drop_last();
        lemma_sorted_drop_last(s);
        assert forall|i: int, j: int| 0 <= i < j < d.len() implies (#[trigger] d[i]).0 != (#[trigger] d[j]).0 by {
            assert(d[i] == s[i] && d[j] == s[j]);
        }
        assert forall|y: TaskView| #[trigger] d.contains(y) implies y.0 != t.0 by {
            let k = choose|k: int| 0 <= k < d.len() && d[k] == y;
            assert(s[k] == y);
            assert(s.contains(y));
        }
        lemma_distinct_insert_sorted(d, t);
        lemma_insert_sorted(d, t);
        assert(s.contains(s.last()));
        assert forall|y: TaskView| #[trigger] insert_sorted(d, t).contains(y) implies y.0 != s.last().0 by {
            if d.contains(y) {
                let k = choose|k: int| 0 <= k < d.len() && d[k] == y;
                assert(s[k] == y);
            }
        }
        lemma_distinct_push(insert_sorted(d, t), s.last());
    } else {
        lemma_distinct_push(s, t);
    }
}

proof fn lemma_distinct_insert_all(s: Seq<TaskView>, ts: Seq<TaskView>)
    requires
        sorted_by_priority(s),
        distinct_ids(s),
        distinct_ids(ts),
        apart(s, ts),
    ensures
        distinct_ids(insert_all(s, ts)),
    decreases ts.len(),
{
    if ts.len() > 0 {
        let d = ts.drop_last();
        assert forall|i: int, j: int| 0 <= i < j < d.len() implies (#[trigger] d[i]).0 != (#[trigger] d[j]).0 by {
            assert(d[i] == ts[i] && d[j] == ts[j]);
        }
        assert forall|x: TaskView, y: TaskView| #[trigger] s.contains(x) && #[trigger] d.contains(y) implies x.0 != y.0 by {
            let k = choose|k: int| 0 <= k < d.len() && d[k] == y;
            assert(ts[k] == y);
            assert(ts.contains(y));
        }
        lemma_distinct_insert_all(s, d);
        lemma_insert_all(s, d);
        assert(ts.contains(ts.last()));
        assert forall|y: TaskView| #[trigger] insert_all(s, d).contains(y) implies y.0 != ts.last().0 by {
            if d.contains(y) {
                let k = choose|k: int| 0 <= k < d.len() && d[k] == y;
                assert(ts[k] == y);
            }
        }
        lemma_distinct_insert_sorted(insert_all(s, d), ts.last());
    }
}

proof fn lemma_distinct_split(es: Seq<TaskView>, b: Set<Seq<char>>)
    requires
        distinct_ids(es),
    ensures
        distinct_ids(still_blocked(es, b)),
        distinct_ids(unblocked(es, b)),
    decreases es.len(),
{
    if es.len() > 0 {
        let d = es.drop_last();
        assert forall|i: int, j: int| 0 <= i < j < d.len() implies (#[trigger] d[i]).0 != (#[trigger] d[j]).0 by {
            assert(d[i] == es[i] && d[j] == es[j]);
        }
        lemma_distinct_split(d, b);
        lemma_split_blocked(d, b);
        assert forall|y: TaskView| #[trigger] d.contains(y) implies y.0 != es.last().0 by {
            let k = choose|k: int| 0 <= k < d.len() && d[k] == y;
            assert(es[k] == y);
        }
        if b.contains(es.last().0) {
            lemma_distinct_push(still_blocked(d, b), es.last());
        } else {
            lemma_distinct_push(unblocked(d, b), es.last());
        }
    }
}

proof fn lemma_park_all_distinct(es: Seq<TaskView>, s: Seq<TaskView>)
    requires
        distinct_ids(es),
        distinct_ids(s),
        apart(es, s),
    ensures
        park_all(es, s).len() == es.len() + s.len(),
        distinct_ids(park_all(es, s)),
    decreases s.len(),
{
    if s.len() > 0 {
        let d = s.drop_first();
        assert forall|i: int, j: int| 0 <= i < j < d.len() implies (#[trigger] d[i]).0 != (#[trigger] d[j]).0 by {
            assert(d[i] == s[i + 1] && d[j] == s[j + 1]);
        }
        assert forall|x: TaskView, y: TaskView| #[trigger] es.contains(x) && #[trigger] d.contains(y) implies x.0 != y.0 by {
            let k = choose|k: int| 0 <= k < d.len() && d[k] == y;
            assert(s[k + 1] == y);
            assert(s.contains(y));
        }
        lemma_park_all_distinct(es, d);
        lemma_park_all_ids(es, d);
        let p = park_all(es, d);
        let t = s[0];
        assert(s.contains(t));
        assert(!ids_of(p).contains(t.0)) by {
            if ids_of(es).contains(t.0) {
                let k = choose|k: int| 0 <= k < ids_of(es).len() && ids_of(es)[k] == t.0;
                assert(es.contains(es[k]));
            }
            if ids_of(d).contains(t.0) {
                let k = choose|k: int| 0 <= k < ids_of(d).len() && ids_of(d)[k] == t.0;
                assert(d[k] == s[k + 1]);
            }
        }
        assert forall|y: TaskView| #[trigger] p.contains(y) implies y.0 != t.0 by {
            let k = choose|k: int| 0 <= k < p.len() && p[k] == y;
            assert(ids_of(p)[k] == y.0);
        }
        lemma_distinct_push(p, t);
    }
}

/// Law: while no two queued tasks share an id, a push adds one task to the
/// queue (ready and parked together) and keeps the ids apart, provided the
/// pushed task's id is not queued yet.
pub proof fn law_push_counts_one(ready: Seq<TaskView>, stored: Seq<TaskView>, t: TaskView)
    requires
        sorted_by_priority(ready),
        queue_distinct(ready, stored),
        forall|x: TaskView|
            #![trigger ready.contains(x)]
            #![trigger stored.contains(x)]
            ready.contains(x) || stored.contains(x) ==> x.0 != t.0,
    ensures
        insert_sorted(ready, t).len() + stored.len() == ready.len() + stored.len() + 1,
        queue_distinct(insert_sorted(ready, t), stored),
{
    lemma_insert_sorted(ready, t);
    assert forall|y: TaskView| #[trigger] ready.contains(y) implies y.0 != t.0 by {
        assert(ready.contains(y) || stored.contains(y));
    }
    lemma_distinct_insert_sorted(ready, t);
    assert forall|x: TaskView, y: TaskView| #[trigger] insert_sorted(ready, t).contains(x) && #[trigger] stored.contains(y)
        implies x.0 != y.0 by {
        if x == t {
            assert(ready.contains(y) || stored.contains(y));
        }
    }
}

/// Law: while no two queued tasks share an id, a pop takes exactly one task
/// off the queue (ready and parked together) when it returns one, and none
/// when it returns none; the ids stay apart, so this holds for every later
/// pop too.
pub proof fn law_pop_counts_one(ready: Seq<TaskView>, stored: Seq<TaskView>, b: Set<Seq<char>>)
    requires
        sorted_by_priority(ready),
        queue_distinct(ready, stored),
    ensures
        ({
            let rr = insert_all(ready, unblocked(stored, b));
            let k = last_unblocked(rr, b);
            let ready_after = rr.take(if k < 0 { 0 } else { k });
            let stored_after = park_all(still_blocked(stored, b), rr.skip(k + 1));
            &&& ready_after.len() + stored_after.len() == ready.len() + stored.len() - if k >= 0 { 1int } else { 0int }
            &&& queue_distinct(ready_after, stored_after)
        }),
{
    let ub = unblocked(stored, b);
    let ee = still_blocked(stored, b);
    let rr = insert_all(ready, ub);
    let k = last_unblocked(rr, b);
    let ready_after = rr.take(if k < 0 { 0 } else { k });
    let moved = rr.skip(k + 1);
    lemma_split_blocked(stored, b);
    lemma_distinct_split(stored, b);
    lemma_insert_all(ready, ub);
    lemma_last_unblocked_facts(rr, b);
    assert forall|x: TaskView, y: TaskView| #[trigger] ready.contains(x) && #[trigger] ub.contains(y) implies x.0 != y.0 by {
        assert(stored.contains(y));
    }
    lemma_distinct_insert_all(ready, ub);
    assert(distinct_ids(moved)) by {
        assert forall|i: int, j: int| 0 <= i < j < moved.len() implies (#[trigger] moved[i]).0 != (#[trigger] moved[j]).0 by {
            assert(moved[i] == rr[i + k + 1] && moved[j] == rr[j + k + 1]);
        }
    }
    assert forall|x: TaskView, y: TaskView| #[trigger] ee.contains(x) && #[trigger] moved.contains(y) implies x.0 != y.0 by {
        let m = choose|m: int| 0 <= m < moved.len() && moved[m] == y;
        assert(rr[m + k + 1] == y);
        assert(rr.contains(y));
        assert(stored.contains(x));
        if ready.contains(y) {
            assert(x.0 != y.0);
        }
    }
    lemma_park_all_distinct(ee, moved);
    lemma_park_all_ids(ee, moved);
    let stored_after = park_all(ee, moved);
    assert(distinct_ids(ready_after)) by {
        assert forall|i: int, j: int| 0 <= i < j < ready_after.len() implies (#[trigger] ready_after[i]).0
            != (#[trigger] ready_after[j]).0 by {
            assert(ready_after[i] == rr[i] && ready_after[j] == rr[j]);
        }
    }
    assert forall|x: TaskView, y: TaskView| #[trigger] ready_after.contains(x) && #[trigger] stored_after.contains(y)
        implies x.0 != y.0 by {
        let i = choose|i: int| 0 <= i < ready_after.len() && ready_after[i] == x;
        assert(rr[i] == x);
        assert(rr.contains(x));
        if moved.contains(y) {
            let m = choose|m: int| 0 <= m < moved.len() && moved[m] == y;
            assert(rr[m + k + 1] == y);
        } else {
            assert(ee.contains(y));
            assert(stored.contains(y));
            if ready.contains(x) {
                assert(x.0 != y.0);
            }
        }
    }
}

/// The task `pop_next_available` takes is never blocked, comes from the queue, and no
/// unblocked task of the queue, ready or parked, is scheduled before it; when it takes
/// none, every task of the queue is blocked.
pub proof fn law_pop_takes_highest_unblocked(ready: Seq<TaskView>, stored: Seq<TaskView>, b: Set<Seq<char>>)
    requires
        sorted_by_priority(ready),
    ensures
        ({
            let rr = insert_all(ready, unblocked(stored, b));
            let k = last_unblocked(rr, b);
            &&& k >= 0 ==> !b.contains(rr[k].0)
            &&& k >= 0 ==> (ready.contains(rr[k]) || stored.contains(rr[k]))
            &&& k >= 0 ==> forall|u: TaskView|
                (ready.contains(u) || stored.contains(u)) && !b.contains(u.0) ==> !outranks(u, rr[k])
            &&& k < 0 ==> forall|u: TaskView| (ready.contains(u) || stored.contains(u)) ==> b.contains(u.0)
        }),
{
    let rr = insert_all(ready, unblocked(stored, b));
    lemma_split_blocked(stored, b);
    lemma_insert_all(ready, unblocked(stored, b));
    lemma_last_unblocked_facts(rr, b);
    let k = last_unblocked(rr, b);
    assert forall|u: TaskView| (ready.contains(u) || stored.contains(u)) && !b.contains(u.0) implies k >= 0 && !outranks(u, rr[k]) by {
        assert(rr.contains(u));
        let m = choose|m: int| 0 <= m < rr.len() && rr[m] == u;
        assert(m <= k);
        if m < k {
            assert(!outranks(rr[m], rr[k]));
        } else {
            lemma_outranks_order(u, u, u);
        }
    }
    if k >= 0 {
        assert(rr.contains(rr[k]));
    }
}

/// A task that was queued is still queued after `pop_next_available`, ready or under a
/// parked task with its id, unless it is the one taken; and every parked task is then blocked.
pub proof fn law_pop_keeps_the_rest(ready: Seq<TaskView>, stored: Seq<TaskView>, b: Set<Seq<char>>)
    requires
        sorted_by_priority(ready),
    ensures
        ({
            let rr = insert_all(ready, unblocked(stored, b));
            let ee = still_blocked(stored, b);
            let k = last_unblocked(rr, b);
            let ready_after = rr.take(if k < 0 { 0 } else { k });
            let stored_after = park_all(ee, rr.skip(k + 1));
            &&& forall|u: TaskView|
                (ready.contains(u) || stored.contains(u)) ==> (k >= 0 && u == rr[k]) || ready_after.contains(u)
                    || ids_of(stored_after).contains(u.0)
            &&& forall|x: TaskView| stored_after.contains(x) ==> b.contains(x.0)
        }),
{
    let rr = insert_all(ready, unblocked(stored, b));
    let ee = still_blocked(stored, b);
    let k = last_unblocked(rr, b);
    let ready_after = rr.take(if k < 0 { 0 } else { k });
    let moved = rr.skip(k + 1);
    let stored_after = park_all(ee, moved);
    lemma_split_blocked(stored, b);
    lemma_insert_all(ready, unblocked(stored, b));
    lemma_last_unblocked_facts(rr, b);
    lemma_park_all_ids(ee, moved);
    assert forall|u: TaskView| (ready.contains(u) || stored.contains(u)) implies (k >= 0 && u == rr[k])
        || ready_after.contains(u) || ids_of(stored_after).contains(u.0) by {
        if stored.contains(u) && b.contains(u.0) {
            assert(ee.contains(u));
            let m = choose|m: int| 0 <= m < ee.len() && ee[m] == u;
            assert(ids_of(ee)[m] == u.0);
        } else {
            assert(rr.contains(u));
            let m = choose|m: int| 0 <= m < rr.len() && rr[m] == u;
            if m < k {
                assert(ready_after[m] == u);
            } else if m > k {
                assert(moved[m - k - 1] == u);
                assert(ids_of(moved)[m - k - 1] == u.0);
            }
        }
    }
    assert forall|x: TaskView| stored_after.contains(x) implies b.contains(x.0) by {
        if moved.contains(x) {
            let m = choose|m: int| 0 <= m < moved.len() && moved[m] == x;
            assert(rr[m + k + 1] == x);
        }
    }
}

/// A processor ready to be scheduled.
#[derive(Debug, Clone)]
pub struct PrioritizedTask {
    pub processor_id: String,
    pub topological_rank: usize,
    pub is_transform: bool,
}

impl PrioritizedTask {
    pub open spec fn view(&self) -> TaskView {
        (self.processor_id@, self.topological_rank, self.is_transform)
    }

    pub fn new(processor_id: String, topological_rank: usize, is_transform: bool) -> (t: Self)
        ensures
            t.processor_id@ == processor_id@,
            t.topological_rank == topological_rank,
            t.is_transform == is_transform,
    {
        PrioritizedTask { processor_id, topological_rank, is_transform }
    }

    /// The same prioritized entry, as a new value.
    pub fn duplicate(&self) -> (t: Self)
        ensures
            t@ == self@,
    {
        PrioritizedTask {
            processor_id: self.processor_id.clone(),
            topological_rank: self.topological_rank,
            is_transform: self.is_transform,
        }
    }

    /// Whether `self` comes before `other` in the queue.
    pub fn outranks(&self, other: &PrioritizedTask) -> (r: bool)
        ensures
            r == outranks(self@, other@),
    {
        if self.topological_rank != other.topological_rank {
            return self.topological_rank > other.topological_rank;
        }
        if self.is_transform != other.is_transform {
            return self.is_transform;
        }
        let mine = chars_of(self.processor_id.as_str());
        let theirs = chars_of(other.processor_id.as_str());
        chars_less(&theirs, &mine)
    }
}

impl PartialEq for PrioritizedTask {
    /// Two tasks are equal when they are for the same processor.
    fn eq(&self, other: &Self) -> (r: bool) {
        str_equal(&self.processor_id, &other.processor_id)
    }
}

impl vstd::std_specs::cmp::PartialEqSpecImpl for PrioritizedTask {
    open spec fn obeys_eq_spec() -> bool {
        true
    }

    open spec fn eq_spec(&self, other: &Self) -> bool {
        self.processor_id@ == other.processor_id@
    }
}

impl Eq for PrioritizedTask {}


/// Tasks waiting to run, and tasks parked because they were found blocked.
#[derive(Debug)]
pub struct PriorityWorkQueue {
    ready: Vec<PrioritizedTask>,
    blocked_tasks: StringMap<PrioritizedTask>,
}

impl PriorityWorkQueue {
    /// The ready tasks, in ascending priority.
    pub closed spec fn ready_view(&self) -> Seq<TaskView> {
        Seq::new(self.ready@.len(), |i: int| self.ready@[i]@)
    }

    /// The parked tasks, in the order of the store.
    pub closed spec fn stored_view(&self) -> Seq<TaskView> {
        Seq::new(self.blocked_tasks.values_seq().len(), |i: int| self.blocked_tasks.values_seq()[i]@)
    }

    /// The store is keyed by the ids of the tasks it holds.
    pub closed spec fn store_consistent(&self) -> bool {
        &&& self.blocked_tasks.wf()
        &&& self.blocked_tasks.values_seq().len() == self.blocked_tasks.keys_seq().len()
        &&& forall|i: int|
            0 <= i < self.blocked_tasks.keys_seq().len() ==> #[trigger] self.blocked_tasks.keys_seq()[i]
                == self.blocked_tasks.values_seq()[i].processor_id@
    }

    /// Ready tasks are sorted; parked tasks have distinct ids.
    pub open spec fn wf(&self) -> bool {
        &&& sorted_by_priority(self.ready_view())
        &&& ids_of(self.stored_view()).no_duplicates()
        &&& self.store_consistent()
    }

    proof fn lemma_ids_are_keys(&self)
        requires
            self.store_consistent(),
        ensures
            ids_of(self.stored_view()) == self.blocked_tasks.keys_seq(),
    {
        assert(ids_of(self.stored_view()) =~= self.blocked_tasks.keys_seq());
    }

    pub fn new() -> (q: Self)
        ensures
            q.wf(),
            q.ready_view() == Seq::<TaskView>::empty(),
            q.stored_view() == Seq::<TaskView>::empty(),
    {
        let q = PriorityWorkQueue { ready: Vec::new(), blocked_tasks: StringMap::new() };
        proof {
            q.blocked_tasks.lemma_same_length();
            assert(q.ready_view() =~= Seq::<TaskView>::empty());
            assert(q.stored_view() =~= Seq::<TaskView>::empty());
            q.lemma_ids_are_keys();
        }
        q
    }

    /// Adds a task to the ready tasks.
    pub fn push(&mut self, task: PrioritizedTask)
        requires
            old(self).wf(),
        ensures
            final(self).wf(),
            final(self).ready_view() == insert_sorted(old(self).ready_view(), task@),
            final(self).stored_view() == old(self).stored_view(),
    {
        let ghost r = self.ready_view();
        let ghost t = task@;
        let mut p: usize = self.ready.len();
        proof {
            assert(r.take(p as int) =~= r);
            assert(r.skip(p as int) =~= Seq::<TaskView>::empty());
        }
        while p > 0 && self.ready[p - 1].outranks(&task)
            invariant
                p <= self.ready@.len(),
                r == self.ready_view(),
                t == task@,
                insert_sorted(r, t) == insert_sorted(r.take(p as int), t) + r.skip(p as int),
            decreases p,
        {
            proof {
                let tp = r.take(p as int);
                assert(tp.last() == r[p - 1]);
                assert(tp.drop_last() =~= r.take(p - 1));
                assert(r.skip(p - 1) =~= seq![r[p - 1]] + r.skip(p as int));
                assert(insert_sorted(tp, t) == insert_sorted(r.take(p - 1), t).push(r[p - 1]));
                assert(insert_sorted(r.take(p - 1), t).push(r[p - 1]) + r.skip(p as int)
                    =~= insert_sorted(r.take(p - 1), t) + r.skip(p - 1));
            }
            p = p - 1;
        }
        proof {
            let tp = r.take(p as int);
            if p == 0 {
                assert(tp =~= Seq::<TaskView>::empty());
            } else {
                assert(tp.last() == r[p - 1]);
            }
            assert(insert_sorted(tp, t) =~= tp.push(t));
            lemma_insert_sorted(r, t);
        }
        self.ready.insert(p, task);
        proof {
            assert(self.ready_view() =~= r.take(p as int).push(t) + r.skip(p as int));
        }
    }

    /// Adds several tasks to the ready tasks.
    pub fn extend(&mut self, tasks: Vec<PrioritizedTask>)
        requires
            old(self).wf(),
        ensures
            final(self).wf(),
            final(self).ready_view() == insert_all(
                old(self).ready_view(),
                Seq::new(tasks@.len(), |i: int| tasks@[i]@),
            ),
            final(self).stored_view() == old(self).stored_view(),
    {
        let ghost r0 = self.ready_view();
        let ghost ts = Seq::new(tasks@.len(), |i: int| tasks@[i]@);
        let mut rest = tasks;
        let ghost orig = rest@;
        let n: usize = rest.len();
        let mut i: usize = 0;
        while rest.len() > 0
            invariant
                self.wf(),
                self.stored_view() == old(self).stored_view(),
                ts.len() == orig.len(),
                orig.len() == n,
                forall|j: int| 0 <= j < orig.len() ==> #[trigger] orig[j]@ == ts[j],
                rest@.len() + i == ts.len(),
                rest@ == orig.skip(i as int),
                self.ready_view() == insert_all(r0, ts.take(i as int)),
            decreases rest@.len(),
        {
            let task = rest.remove(0);
            proof {
                assert(task@ == ts[i as int]);
                assert(ts.take(i + 1).drop_last() =~= ts.take(i as int));
                assert(rest@ =~= orig.skip(i + 1));
            }
            self.push(task);
            i = i + 1;
        }
        proof {
            assert(ts.take(i as int) =~= ts);
        }
    }

    /// The ready tasks once the parked tasks that are not blocked have come back.
    pub open spec fn restored(&self, b: Set<Seq<char>>) -> Seq<TaskView> {
        insert_all(self.ready_view(), unblocked(self.stored_view(), b))
    }

    /// The position among the restored tasks of the task that a pop takes, or -1.
    pub open spec fn pop_index(&self, b: Set<Seq<char>>) -> int {
        last_unblocked(self.restored(b), b)
    }

    /// The ready tasks after a pop.
    pub open spec fn ready_after_pop(&self, b: Set<Seq<char>>) -> Seq<TaskView> {
        self.restored(b).take(if self.pop_index(b) < 0 { 0 } else { self.pop_index(b) })
    }

    /// The parked tasks after a pop.
    pub open spec fn stored_after_pop(&self, b: Set<Seq<char>>) -> Seq<TaskView> {
        park_all(still_blocked(self.stored_view(), b), self.restored(b).skip(self.pop_index(b) + 1))
    }

    /// Moves the parked tasks whose ids are not in `blocked` back to the ready tasks.
    pub fn restore_unblocked_tasks(&mut self, blocked: &StringSet)
        requires
            old(self).wf(),
        ensures
            final(self).wf(),
            final(self).ready_view() == insert_all(
                old(self).ready_view(),
                unblocked(old(self).stored_view(), blocked@),
            ),
            final(self).stored_view() == still_blocked(old(self).stored_view(), blocked@),
    {
        let ghost e0 = self.stored_view();
        let ghost r0 = self.ready_view();
        let ghost b = blocked@;
        let ghost mut c: int = 0;
        let mut i: usize = 0;
        proof {
            assert(e0.take(0) =~= Seq::<TaskView>::empty());
            assert(e0.skip(0) =~= e0);
            assert(still_blocked(e0.take(0), b) =~= Seq::<TaskView>::empty());
        }
        while i < self.blocked_tasks.len()
            invariant
                self.wf(),
                b == blocked@,
                0 <= c <= e0.len(),
                ids_of(e0).no_duplicates(),
                i == still_blocked(e0.take(c), b).len(),
                self.stored_view() == still_blocked(e0.take(c), b) + e0.skip(c),
                self.ready_view() == insert_all(r0, unblocked(e0.take(c), b)),
            decreases self.blocked_tasks.spec_len() - i,
        {
            proof {
                self.blocked_tasks.lemma_same_length();
                assert(self.stored_view()[i as int] == e0[c]);
                assert(e0.take(c + 1).drop_last() =~= e0.take(c));
                assert(e0.take(c + 1).last() == e0[c]);
            }
            let key_blocked = blocked.contains(self.blocked_tasks.key_at(i));
            if key_blocked {
                proof {
                    assert(self.blocked_tasks.keys_seq()[i as int] == e0[c].0);
                    assert(still_blocked(e0.take(c), b).push(e0[c]) + e0.skip(c + 1) =~= still_blocked(e0.take(c), b) + e0.skip(c));
                    assert(unblocked(e0.take(c + 1), b) == unblocked(e0.take(c), b));
                    c = c + 1;
                }
                i = i + 1;
            } else {
                let ghost before = *self;
                let (_key, task) = self.blocked_tasks.remove_at(i);
                proof {
                    before.blocked_tasks.lemma_same_length();
                    self.blocked_tasks.lemma_same_length();
                    assert(task@ == e0[c]);
                    assert(self.stored_view() =~= before.stored_view().remove(i as int));
                    assert(self.stored_view() =~= still_blocked(e0.take(c + 1), b) + e0.skip(c + 1));
                    assert forall|j: int| 0 <= j < self.blocked_tasks.keys_seq().len() implies #[trigger] self.blocked_tasks.keys_seq()[j]
                        == self.blocked_tasks.values_seq()[j].processor_id@ by {
                        let j0 = if j < i { j } else { j + 1 };
                        assert(before.blocked_tasks.keys_seq()[j0] == before.blocked_tasks.values_seq()[j0].processor_id@);
                    }
                    self.lemma_ids_are_keys();
                    let u = unblocked(e0.take(c), b);
                    assert(unblocked(e0.take(c + 1), b) == u.push(e0[c]));
                    assert(u.push(e0[c]).drop_last() =~= u);
                    assert(insert_all(r0, u.push(e0[c])) == insert_sorted(insert_all(r0, u), e0[c]));
                    c = c + 1;
                }
                self.push(task);
            }
        }
        proof {
            self.blocked_tasks.lemma_same_length();
            assert(e0.take(c) =~= e0);
            assert(e0.skip(c) =~= Seq::<TaskView>::empty());
            assert(self.stored_view() =~= still_blocked(e0, b));
        }
    }

    /// Parks a task under its id.
    fn park_task(&mut self, task: PrioritizedTask)
        requires
            old(self).wf(),
        ensures
            final(self).wf(),
            final(self).ready_view() == old(self).ready_view(),
            final(self).stored_view() == park(old(self).stored_view(), task@),
    {
        let ghost before = *self;
        let ghost t = task@;
        proof {
            self.lemma_ids_are_keys();
            self.blocked_tasks.lemma_same_length();
        }
        let key = task.processor_id.clone();
        self.blocked_tasks.insert(key, task);
        proof {
            self.blocked_tasks.lemma_same_length();
            let ks = before.blocked_tasks.keys_seq();
            if ks.contains(t.0) {
                let j = ks.index_of(t.0);
                assert(self.stored_view() =~= before.stored_view().update(j, t));
            } else {
                assert(self.stored_view() =~= before.stored_view().push(t));
            }
            assert forall|j: int| 0 <= j < self.blocked_tasks.keys_seq().len() implies #[trigger] self.blocked_tasks.keys_seq()[j]
                == self.blocked_tasks.values_seq()[j].processor_id@ by {
                if j < ks.len() {
                    assert(before.blocked_tasks.keys_seq()[j] == before.blocked_tasks.values_seq()[j].processor_id@);
                }
            }
            self.lemma_ids_are_keys();
        }
    }

    /// Removes and returns the id of the highest-priority task that is not blocked.
    ///
    /// Parked tasks that are no longer blocked come back first; then the ready
    /// tasks are taken from the highest priority down, parking each blocked one,
    /// until an unblocked one is found.
    pub fn pop_next_available(&mut self, blocked: &StringSet) -> (r: Option<String>)
        requires
            old(self).wf(),
        ensures
            final(self).wf(),
            old(self).pop_index(blocked@) >= 0 ==> r is Some
                && r->0@ == old(self).restored(blocked@)[old(self).pop_index(blocked@)].0,
            old(self).pop_index(blocked@) < 0 ==> r is None,
            final(self).ready_view() == old(self).ready_after_pop(blocked@),
            final(self).stored_view() == old(self).stored_after_pop(blocked@),
    {
        self.restore_unblocked_tasks(blocked);
        let ghost rr = self.ready_view();
        let ghost ee = self.stored_view();
        let ghost b = blocked@;
        proof {
            lemma_last_unblocked_facts(rr, b);
            assert(rr.take(rr.len() as int) =~= rr);
            assert(rr.skip(rr.len() as int) =~= Seq::<TaskView>::empty());
        }
        let n = self.ready.len();
        if n > 0 {
            let top_blocked = blocked.contains(&self.ready[n - 1].processor_id);
            if !top_blocked {
                let task = self.ready.pop().unwrap();
                proof {
                    lemma_last_unblocked(rr, b, n - 1);
                    assert(self.ready_view() =~= rr.take(n - 1));
                    assert(rr.skip(n as int) =~= Seq::<TaskView>::empty());
                }
                return Some(task.processor_id);
            }
        }
        let mut result: Option<String> = None;
        while self.ready.len() > 0
            invariant_except_break
                result is None,
                self.ready_view() == rr.take(self.ready@.len() as int),
                self.stored_view() == park_all(ee, rr.skip(self.ready@.len() as int)),
                forall|i: int| self.ready@.len() <= i < rr.len() ==> b.contains(#[trigger] rr[i].0),
            invariant
                self.wf(),
                b == blocked@,
                self.ready@.len() <= rr.len(),
                rr.skip(0) == rr,
            ensures
                result is Some ==> self.ready@.len() < rr.len() && result->0@ == rr[self.ready@.len() as int].0
                    && !b.contains(rr[self.ready@.len() as int].0)
                    && self.ready_view() == rr.take(self.ready@.len() as int)
                    && self.stored_view() == park_all(ee, rr.skip(self.ready@.len() as int + 1))
                    && forall|i: int| self.ready@.len() < i < rr.len() ==> b.contains(#[trigger] rr[i].0),
                result is None ==> self.ready@.len() == 0
                    && self.stored_view() == park_all(ee, rr)
                    && forall|i: int| 0 <= i < rr.len() ==> b.contains(#[trigger] rr[i].0),
            decreases self.ready@.len(),
        {
            let ghost j = self.ready@.len() as int;
            proof {
                assert(self.ready_view()[j - 1] == self.ready@[j - 1]@);
                assert(rr.take(j)[j - 1] == rr[j - 1]);
            }
            let task = self.ready.pop().unwrap();
            proof {
                assert(task@ == rr[j - 1]);
                assert(self.ready_view() =~= rr.take(j - 1));
            }
            let task_blocked = blocked.contains(&task.processor_id);
            if !task_blocked {
                result = Some(task.processor_id);
                break;
            } else {
                proof {
                    assert(rr.skip(j - 1)[0] == rr[j - 1]);
                    assert(rr.skip(j - 1).drop_first() =~= rr.skip(j));
                }
                self.park_task(task);
            }
        }
        proof {
            let m = self.ready@.len() as int;
            if result is Some {
                lemma_last_unblocked(rr, b, m);
            } else {
                lemma_last_unblocked(rr, b, -1);
                assert(rr.take(0) =~= Seq::<TaskView>::empty());
                assert(self.ready_view() =~= Seq::<TaskView>::empty());
                assert(rr.skip(0) =~= rr);
            }
        }
        result
    }

    /// Whether no task is ready or parked.
    pub fn is_empty(&self) -> (b: bool)
        ensures
            b == (self.ready_view().len() == 0 && self.stored_view().len() == 0),
    {
        proof { self.blocked_tasks.lemma_same_length(); }
        self.ready.len() == 0 && self.blocked_tasks.is_empty()
    }

    /// The highest-priority ready task, if any.
    pub fn peek(&self) -> (r: Option<&PrioritizedTask>)
        ensures
            self.ready_view().len() == 0 ==> r is None,
            self.ready_view().len() > 0 ==> r is Some && r->0@ == self.ready_view().last(),
    {
        let n = self.ready.len();
        if n == 0 {
            None
        } else {
            Some(&self.ready[n - 1])
        }
    }

    /// The number of ready tasks (those not parked as blocked).
    pub fn ready_count(&self) -> (n: usize)
        ensures
            n == self.ready_view().len(),
    {
        self.ready.len()
    }

    /// The number of tasks, ready and parked.
    pub fn len(&self) -> (n: usize)
        requires
            self.ready_view().len() + self.stored_view().len() <= usize::MAX,
        ensures
            n == self.ready_view().len() + self.stored_view().len(),
    {
        proof { self.blocked_tasks.lemma_same_length(); }
        self.ready.len() + self.blocked_tasks.len()
    }

    /// Copies of all tasks: the ready ones, then the parked ones.
    pub fn iter(&self) -> (v: Vec<PrioritizedTask>)
        ensures
            Seq::new(v@.len(), |i: int| v@[i]@) == self.ready_view() + self.stored_view(),
    {
        proof { self.blocked_tasks.lemma_same_length(); }
        let mut v: Vec<PrioritizedTask> = Vec::new();
        let mut i: usize = 0;
        while i < self.ready.len()
            invariant
                i <= self.ready@.len(),
                v@.len() == i,
                forall|j: int| 0 <= j < i ==> #[trigger] v@[j]@ == self.ready_view()[j],
            decreases self.ready@.len() - i,
        {
            v.push(self.ready[i].duplicate());
            i = i + 1;
        }
        let mut k: usize = 0;
        while k < self.blocked_tasks.len()
            invariant
                k <= self.blocked_tasks.spec_len(),
                self.blocked_tasks.values_seq().len() == self.blocked_tasks.spec_len(),
                v@.len() == self.ready@.len() + k,
                forall|j: int| 0 <= j < self.ready@.len() ==> #[trigger] v@[j]@ == self.ready_view()[j],
                forall|j: int| 0 <= j < k ==> #[trigger] v@[self.ready@.len() + j]@ == self.stored_view()[j],
            decreases self.blocked_tasks.spec_len() - k,
        {
            let t = self.blocked_tasks.value_at(k).duplicate();
            v.push(t);
            k = k + 1;
        }
        let ghost m = self.ready@.len() as int;
        assert forall|i: int| 0 <= i < v@.len() implies #[trigger] v@[i]@ == (self.ready_view() + self.stored_view())[i] by {
            if i >= m {
                assert(v@[m + (i - m)]@ == self.stored_view()[i - m]);
            }
        }
        assert(Seq::new(v@.len(), |i: int| v@[i]@) =~= self.ready_view() + self.stored_view());
        v
    }
}

impl Default for PriorityWorkQueue {
    fn default() -> (q: Self)
        ensures
            q.wf(),
            q.ready_view() == Seq::<TaskView>::empty(),
            q.stored_view() == Seq::<TaskView>::empty(),
    {
        PriorityWorkQueue::new()
    }
}

} // verus!
