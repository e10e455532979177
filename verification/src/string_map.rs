//! Association maps keyed by strings, and sets of strings.
//!
//! `StringMap<V>` keeps its entries in insertion order in a vector; keys are
//! distinct (the map's well-formedness). Its model is a `Map` from the key's
//! characters to the stored value, together with the ordered sequence of keys.
use vstd::prelude::*;

verus! {

/// The character sequences of a sequence of strings.
pub open spec fn strs_view(s: Seq<String>) -> Seq<Seq<char>> {
    Seq::new(s.len(), |i: int| s[i]@)
}

pub proof fn lemma_strs_view_push(s: Seq<String>, x: String)
    ensures
        strs_view(s.push(x)) == strs_view(s).push(x@),
{
    assert(strs_view(s.push(x)) =~= strs_view(s).push(x@));
}

pub proof fn lemma_strs_view_drop_last(s: Seq<String>)
    requires
        s.len() > 0,
    ensures
        strs_view(s.drop_last()) == strs_view(s).drop_last(),
        strs_view(s).last() == s.last()@,
{
    assert(strs_view(s.drop_last()) =~= strs_view(s).drop_last());
}

pub proof fn lemma_push_contains<A>(s: Seq<A>, x: A)
    ensures
        forall|v: A| #[trigger] s.push(x).contains(v) <==> (s.contains(v) || v == x),
        s.no_duplicates() && !s.contains(x) ==> s.push(x).no_duplicates(),
        s.push(x).to_set() == s.to_set().insert(x),
{
    assert forall|v: A| #[trigger] s.push(x).contains(v) <==> (s.contains(v) || v == x) by {
        if s.push(x).contains(v) {
            let k = choose|k: int| 0 <= k < s.push(x).len() && s.push(x)[k] == v;
            if k < s.len() {
                assert(s[k] == v);
            }
        }
        if s.contains(v) {
            let k = choose|k: int| 0 <= k < s.len() && s[k] == v;
            assert(s.push(x)[k] == v);
        }
        if v == x {
            assert(s.push(x)[s.len() as int] == v);
        }
    }
    if s.no_duplicates() && !s.contains(x) {
        assert forall|a: int, b: int| 0 <= a < b < s.push(x).len() implies s.push(x)[a] != s.push(x)[b] by {
            if b == s.len() {
                assert(s.contains(s.push(x)[a]));
            }
        }
    }
    assert(s.push(x).to_set() =~= s.to_set().insert(x));
}

pub proof fn lemma_drop_last_contains<A>(s: Seq<A>)
    requires
        s.len() > 0,
        s.no_duplicates(),
    ensures
        forall|v: A| #[trigger] s.drop_last().contains(v) <==> (s.contains(v) && v != s.last()),
        s.contains(s.last()),
        s.drop_last().no_duplicates(),
{
    lemma_push_contains(s.drop_last(), s.last());
    assert(s.drop_last().push(s.last()) =~= s);
    assert(!s.drop_last().contains(s.last())) by {
        if s.drop_last().contains(s.last()) {
            let k = choose|k: int| 0 <= k < s.drop_last().len() && s.drop_last()[k] == s.last();
            assert(s[k] == s[s.len() - 1]);
        }
    }
}

/// A duplicate-free sequence whose elements all lie in another duplicate-free sequence is no longer.
pub proof fn lemma_distinct_within_len<A>(a: Seq<A>, b: Seq<A>)
    requires
        a.no_duplicates(),
        b.no_duplicates(),
        forall|x: A| a.contains(x) ==> b.contains(x),
    ensures
        a.len() <= b.len(),
{
    a.unique_seq_to_set();
    b.unique_seq_to_set();
    assert(a.to_set().subset_of(b.to_set()));
    vstd::set_lib::lemma_len_subset(a.to_set(), b.to_set());
}

/// Compares two strings by their characters.
pub fn str_equal(a: &String, b: &String) -> (res: bool)
    ensures
        res == (a@ == b@),
{
    <String as PartialEq>::eq(a, b)
}

/// A map from strings to values, kept in insertion order.
#[derive(Debug, Clone, PartialEq, Eq)]
pub struct StringMap<V> {
    entries: Vec<(String, V)>,
}

impl<V> StringMap<V> {
    /// The keys, in the order in which they were first inserted.
    pub closed spec fn keys_seq(&self) -> Seq<Seq<char>> {
        Seq::new(self.entries@.len(), |i: int| self.entries@[i].0@)
    }

    /// The values, in key order.
    pub closed spec fn values_seq(&self) -> Seq<V> {
        Seq::new(self.entries@.len(), |i: int| self.entries@[i].1)
    }

    /// Keys are distinct.
    pub open spec fn wf(&self) -> bool {
        self.keys_seq().no_duplicates()
    }

    pub open spec fn spec_len(&self) -> nat {
        self.keys_seq().len()
    }

    pub open spec fn has_key(&self, k: Seq<char>) -> bool {
        self.keys_seq().contains(k)
    }

    /// The value stored under `k` (meaningful when `has_key(k)`).
    pub open spec fn value_of(&self, k: Seq<char>) -> V {
        self.values_seq()[self.keys_seq().index_of(k)]
    }

    pub open spec fn view(&self) -> Map<Seq<char>, V> {
        Map::new(|k: Seq<char>| self.has_key(k), |k: Seq<char>| self.value_of(k))
    }

    proof fn lemma_lengths(&self)
        ensures
            self.keys_seq().len() == self.entries@.len(),
            self.values_seq().len() == self.entries@.len(),
            forall|i: int| 0 <= i < self.entries@.len() ==> #[trigger] self.keys_seq()[i] == self.entries@[i].0@,
            forall|i: int| 0 <= i < self.entries@.len() ==> #[trigger] self.values_seq()[i] == self.entries@[i].1,
    {
    }

    /// There are as many values as keys.
    pub proof fn lemma_same_length(&self)
        ensures
            self.values_seq().len() == self.keys_seq().len(),
    {
        self.lemma_lengths();
    }

    /// In a well-formed map, the value of the key at position `i` is the value at position `i`.
    pub proof fn lemma_value_at(&self, i: int)
        requires
            self.wf(),
            0 <= i < self.spec_len(),
        ensures
            self.has_key(self.keys_seq()[i]),
            self.keys_seq().index_of(self.keys_seq()[i]) == i,
            self.value_of(self.keys_seq()[i]) == self.values_seq()[i],
            self@[self.keys_seq()[i]] == self.values_seq()[i],
    {
        let k = self.keys_seq()[i];
        assert(self.keys_seq().contains(k));
        let j = self.keys_seq().index_of(k);
        assert(self.keys_seq()[j] == k);
    }

    pub fn new() -> (m: Self)
        ensures
            m.wf(),
            m.keys_seq() == Seq::<Seq<char>>::empty(),
            m@ == Map::<Seq<char>, V>::empty(),
    {
        let m = StringMap { entries: Vec::new() };
        assert(m.keys_seq() =~= Seq::<Seq<char>>::empty());
        assert(m@ =~= Map::<Seq<char>, V>::empty());
        m
    }

    pub fn len(&self) -> (n: usize)
        ensures
            n == self.spec_len(),
    {
        proof { self.lemma_lengths(); }
        self.entries.len()
    }

    pub fn is_empty(&self) -> (b: bool)
        ensures
            b == (self.spec_len() == 0),
    {
        proof { self.lemma_lengths(); }
        self.entries.len() == 0
    }

    /// The key at position `i`.
    pub fn key_at(&self, i: usize) -> (k: &String)
        requires
            i < self.spec_len(),
        ensures
            k@ == self.keys_seq()[i as int],
    {
        proof { self.lemma_lengths(); }
        &self.entries[i].0
    }

    /// The value at position `i`.
    pub fn value_at(&self, i: usize) -> (v: &V)
        requires
            i < self.spec_len(),
        ensures
            *v == self.values_seq()[i as int],
    {
        proof { self.lemma_lengths(); }
        &self.entries[i].1
    }

    /// The position of `key`, if present.
    pub fn position(&self, key: &String) -> (r: Option<usize>)
        ensures
            match r {
                Some(i) => i < self.spec_len() && self.keys_seq()[i as int] == key@,
                None => !self.has_key(key@),
            },
            self.wf() ==> (r is Some <==> self.has_key(key@)),
            self.wf() && r is Some ==> r->0 == self.keys_seq().index_of(key@),
    {
        proof { self.lemma_lengths(); }
        let mut i: usize = 0;
        while i < self.entries.len()
            invariant
                i <= self.entries@.len(),
                self.keys_seq().len() == self.entries@.len(),
                forall|j: int| 0 <= j < i ==> self.keys_seq()[j] != key@,
                forall|j: int| 0 <= j < self.entries@.len() ==> #[trigger] self.keys_seq()[j] == self.entries@[j].0@,
            decreases self.entries@.len() - i,
        {
            if str_equal(&self.entries[i].0, key) {
                proof {
                    if self.wf() {
                        self.lemma_value_at(i as int);
                    }
                }
                return Some(i);
            }
            i = i + 1;
        }
        None
    }

    /// The value stored under `key`, if any.
    pub fn get(&self, key: &str) -> (r: Option<&V>)
        requires
            self.wf(),
        ensures
            match r {
                Some(v) => self@.contains_key(key@) && *v == self@[key@],
                None => !self@.contains_key(key@),
            },
    {
        let k = key.to_owned();
        match self.position(&k) {
            Some(i) => {
                proof { self.lemma_value_at(i as int); }
                Some(self.value_at(i))
            },
            None => None,
        }
    }

    /// Whether `key` is present.
    pub fn contains_key(&self, key: &str) -> (b: bool)
        requires
            self.wf(),
        ensures
            b == self@.contains_key(key@),
    {
        let k = key.to_owned();
        self.position(&k).is_some()
    }

    /// Inserts `value` under `key`, replacing any previous value in place.
    pub fn insert(&mut self, key: String, value: V)
        requires
            old(self).wf(),
        ensures
            final(self).wf(),
            final(self)@ == old(self)@.insert(key@, value),
            old(self).has_key(key@) ==> final(self).keys_seq() == old(self).keys_seq(),
            old(self).has_key(key@) ==> final(self).values_seq() == old(self).values_seq().update(
                old(self).keys_seq().index_of(key@),
                value,
            ),
            !old(self).has_key(key@) ==> final(self).keys_seq() == old(self).keys_seq().push(key@),
            !old(self).has_key(key@) ==> final(self).values_seq() == old(self).values_seq().push(value),
    {
        proof { self.lemma_lengths(); }
        let ghost old_self = *self;
        match self.position(&key) {
            Some(i) => {
                let ghost k = key@;
                self.entries.set(i, (key, value));
                proof {
                    self.lemma_lengths();
                    old_self.lemma_lengths();
                    assert(self.keys_seq() =~= old_self.keys_seq());
                    assert(self.values_seq() =~= old_self.values_seq().update(i as int, value));
                    assert forall|j: int| 0 <= j < self.spec_len() && j != i implies #[trigger] self.values_seq()[j] == old_self.values_seq()[j] by {}
                    assert(self@ =~= old_self@.insert(k, value)) by {
                        assert forall|kk: Seq<char>| self.has_key(kk) implies self.value_of(kk) == old_self@.insert(k, value)[kk] by {
                            let j = self.keys_seq().index_of(kk);
                            self.lemma_value_at(j);
                            old_self.lemma_value_at(j);
                        }
                    }
                }
            },
            None => {
                let ghost k = key@;
                self.entries.push((key, value));
                proof {
                    self.lemma_lengths();
                    old_self.lemma_lengths();
                    assert(self.keys_seq() =~= old_self.keys_seq().push(k));
                    assert(self.values_seq() =~= old_self.values_seq().push(value));
                    let n = old_self.spec_len() as int;
                    assert forall|a: int, b: int| 0 <= a < b < self.spec_len() implies self.keys_seq()[a] != self.keys_seq()[b] by {
                        if b == n {
                            assert(old_self.keys_seq().contains(self.keys_seq()[a]));
                        }
                    }
                    assert(self@ =~= old_self@.insert(k, value)) by {
                        assert forall|kk: Seq<char>| self.has_key(kk) <==> (old_self.has_key(kk) || kk == k) by {
                            if old_self.has_key(kk) {
                                let j = old_self.keys_seq().index_of(kk);
                                assert(self.keys_seq()[j] == kk);
                            }
                            if kk == k {
                                assert(self.keys_seq()[n] == kk);
                            }
                        }
                        assert forall|kk: Seq<char>| self.has_key(kk) implies self.value_of(kk) == old_self@.insert(k, value)[kk] by {
                            let j = self.keys_seq().index_of(kk);
                            self.lemma_value_at(j);
                            if j < n {
                                old_self.lemma_value_at(j);
                                assert(old_self.has_key(kk));
                                assert(kk != k);
                            }
                        }
                    }
                }
            },
        }
    }

    /// Replaces the value at position `i`, returning the previous value.
    pub fn replace_value_at(&mut self, i: usize, v: V) -> (prev: V)
        requires
            old(self).wf(),
            i < old(self).spec_len(),
        ensures
            final(self).wf(),
            final(self).keys_seq() == old(self).keys_seq(),
            final(self).values_seq() == old(self).values_seq().update(i as int, v),
            prev == old(self).values_seq()[i as int],
            final(self)@ == old(self)@.insert(old(self).keys_seq()[i as int], v),
    {
        proof { self.lemma_lengths(); }
        let ghost old_self = *self;
        let (k, prev) = self.entries.remove(i);
        self.entries.insert(i, (k, v));
        proof {
            self.lemma_lengths();
            old_self.lemma_lengths();
            assert(self.entries@ =~= old_self.entries@.update(i as int, (k, v)));
            assert(self.keys_seq() =~= old_self.keys_seq());
            assert(self.values_seq() =~= old_self.values_seq().update(i as int, v));
            let key = old_self.keys_seq()[i as int];
            assert(self@ =~= old_self@.insert(key, v)) by {
                assert forall|kk: Seq<char>| self.has_key(kk) implies self.value_of(kk) == old_self@.insert(key, v)[kk] by {
                    let j = self.keys_seq().index_of(kk);
                    self.lemma_value_at(j);
                    old_self.lemma_value_at(j);
                }
            }
        }
        prev
    }

    /// Removes the entry at position `i`, returning its key and value.
    pub fn remove_at(&mut self, i: usize) -> (entry: (String, V))
        requires
            old(self).wf(),
            i < old(self).spec_len(),
        ensures
            final(self).wf(),
            final(self).keys_seq() == old(self).keys_seq().remove(i as int),
            final(self).values_seq() == old(self).values_seq().remove(i as int),
            entry.0@ == old(self).keys_seq()[i as int],
            entry.1 == old(self).values_seq()[i as int],
            final(self)@ == old(self)@.remove(old(self).keys_seq()[i as int]),
    {
        proof { self.lemma_lengths(); }
        let ghost old_self = *self;
        let entry = self.entries.remove(i);
        proof {
            self.lemma_lengths();
            old_self.lemma_lengths();
            let ks = old_self.keys_seq();
            assert(self.keys_seq() =~= ks.remove(i as int));
            assert(self.values_seq() =~= old_self.values_seq().remove(i as int));
            assert forall|a: int, b: int| 0 <= a < b < self.spec_len() implies self.keys_seq()[a] != self.keys_seq()[b] by {
                let a0 = if a < i { a } else { a + 1 };
                let b0 = if b < i { b } else { b + 1 };
                assert(ks[a0] != ks[b0]);
            }
            let key = ks[i as int];
            assert(self@ =~= old_self@.remove(key)) by {
                assert forall|kk: Seq<char>| self.has_key(kk) <==> (old_self.has_key(kk) && kk != key) by {
                    if self.has_key(kk) {
                        let j = self.keys_seq().index_of(kk);
                        let j0 = if j < i { j } else { j + 1 };
                        assert(ks[j0] == kk);
                        assert(ks[i as int] != ks[j0]);
                    }
                    if old_self.has_key(kk) && kk != key {
                        let j0 = ks.index_of(kk);
                        let j = if j0 < i { j0 } else { j0 - 1 };
                        assert(self.keys_seq()[j] == kk);
                    }
                }
                assert forall|kk: Seq<char>| self.has_key(kk) implies self.value_of(kk) == old_self@.remove(key)[kk] by {
                    let j = self.keys_seq().index_of(kk);
                    self.lemma_value_at(j);
                    let j0 = if j < i { j } else { j + 1 };
                    old_self.lemma_value_at(j0);
                }
            }
        }
        entry
    }

    /// The keys, in order, as owned strings.
    pub fn keys(&self) -> (ks: Vec<String>)
        ensures
            strs_view(ks@) == self.keys_seq(),
    {
        proof { self.lemma_lengths(); }
        let mut ks: Vec<String> = Vec::new();
        let mut i: usize = 0;
        while i < self.entries.len()
            invariant
                i <= self.entries@.len(),
                self.keys_seq().len() == self.entries@.len(),
                forall|j: int| 0 <= j < self.entries@.len() ==> #[trigger] self.keys_seq()[j] == self.entries@[j].0@,
                ks@.len() == i,
                forall|j: int| 0 <= j < i ==> #[trigger] ks@[j]@ == self.keys_seq()[j],
            decreases self.entries@.len() - i,
        {
            let k = self.entries[i].0.clone();
            ks.push(k);
            i = i + 1;
        }
        assert(strs_view(ks@) =~= self.keys_seq());
        ks
    }
}

/// A set of strings.
#[derive(Debug, Clone, PartialEq, Eq)]
pub struct StringSet {
    items: Vec<String>,
}

impl StringSet {
    pub closed spec fn items_seq(&self) -> Seq<Seq<char>> {
        strs_view(self.items@)
    }

    pub open spec fn view(&self) -> Set<Seq<char>> {
        self.items_seq().to_set()
    }

    /// No item is held twice.
    pub open spec fn wf(&self) -> bool {
        self.items_seq().no_duplicates()
    }

    pub fn new() -> (s: Self)
        ensures
            s.wf(),
            s@ == Set::<Seq<char>>::empty(),
    {
        let s = StringSet { items: Vec::new() };
        assert(s.items_seq() =~= Seq::<Seq<char>>::empty());
        assert(s@ =~= Set::<Seq<char>>::empty());
        s
    }

    /// Whether `item` is in the set.
    pub fn contains(&self, item: &String) -> (b: bool)
        ensures
            b == self@.contains(item@),
    {
        let mut i: usize = 0;
        while i < self.items.len()
            invariant
                i <= self.items@.len(),
                forall|j: int| 0 <= j < i ==> self.items_seq()[j] != item@,
            decreases self.items@.len() - i,
        {
            if str_equal(&self.items[i], item) {
                assert(self.items_seq()[i as int] == item@);
                return true;
            }
            i = i + 1;
        }
        proof {
            if self@.contains(item@) {
                let j = choose|j: int| 0 <= j < self.items_seq().len() && self.items_seq()[j] == item@;
            }
        }
        false
    }

    /// Adds `item`; returns whether it was absent.
    pub fn insert(&mut self, item: String) -> (added: bool)
        requires
            old(self).wf(),
        ensures
            final(self).wf(),
            final(self)@ == old(self)@.insert(item@),
            added == !old(self)@.contains(item@),
    {
        if self.contains(&item) {
            proof { assert(self@ =~= self@.insert(item@)); }
            false
        } else {
            let ghost before = self.items_seq();
            let ghost iv = item@;
            let ghost itm = item;
            let ghost old_items = self.items@;
            self.items.push(item);
            proof {
                lemma_strs_view_push(old_items, itm);
                lemma_push_contains(before, iv);
            }
            true
        }
    }

    /// Removes `item`; returns whether it was present.
    pub fn remove(&mut self, item: &str) -> (removed: bool)
        requires
            old(self).wf(),
        ensures
            final(self).wf(),
            final(self)@ == old(self)@.remove(item@),
            removed == old(self)@.contains(item@),
    {
        let key = item.to_owned();
        let ghost before = self.items_seq();
        let mut kept: Vec<String> = Vec::new();
        let mut found = false;
        let mut i: usize = 0;
        while i < self.items.len()
            invariant
                i <= self.items@.len(),
                before == self.items_seq(),
                before.no_duplicates(),
                key@ == item@,
                strs_view(kept@).no_duplicates(),
                forall|v: Seq<char>| #[trigger] strs_view(kept@).contains(v) <==> (before.take(i as int).contains(v) && v != key@),
                found == before.take(i as int).contains(key@),
            decreases self.items@.len() - i,
        {
            let ghost t0 = before.take(i as int);
            let ghost cur = before[i as int];
            proof {
                assert(before.take(i + 1) =~= t0.push(cur));
                lemma_push_contains(t0, cur);
                assert(!t0.contains(cur)) by {
                    if t0.contains(cur) {
                        let j = choose|j: int| 0 <= j < t0.len() && t0[j] == cur;
                        assert(before[j] == before[i as int]);
                    }
                }
            }
            if str_equal(&self.items[i], &key) {
                found = true;
            } else {
                let ghost old_kept = kept@;
                let c = self.items[i].clone();
                let ghost cs = c;
                kept.push(c);
                proof {
                    lemma_strs_view_push(old_kept, cs);
                    lemma_push_contains(strs_view(old_kept), cur);
                }
            }
            i = i + 1;
        }
        proof {
            assert(before.take(i as int) =~= before);
        }
        self.items = kept;
        proof {
            assert(self@ =~= before.to_set().remove(item@));
        }
        found
    }

    /// The items, in the order in which they were added.
    pub fn items(&self) -> (v: Vec<String>)
        ensures
            strs_view(v@) == self.items_seq(),
    {
        let mut v: Vec<String> = Vec::new();
        let mut i: usize = 0;
        while i < self.items.len()
            invariant
                i <= self.items@.len(),
                v@.len() == i,
                forall|j: int| 0 <= j < i ==> #[trigger] v@[j]@ == self.items@[j]@,
            decreases self.items@.len() - i,
        {
            v.push(self.items[i].clone());
            i = i + 1;
        }
        assert(strs_view(v@) =~= self.items_seq());
        v
    }

    /// Removes every item.
    pub fn clear(&mut self)
        ensures
            final(self).wf(),
            final(self)@ == Set::<Seq<char>>::empty(),
    {
        self.items = Vec::new();
        proof {
            assert(self.items_seq() =~= Seq::<Seq<char>>::empty());
            assert(self@ =~= Set::<Seq<char>>::empty());
        }
    }

    /// The number of items.
    pub fn len(&self) -> (n: usize)
        requires
            self.wf(),
        ensures
            n == self@.len(),
    {
        proof { self.items_seq().unique_seq_to_set(); }
        self.items.len()
    }

    pub fn is_empty(&self) -> (b: bool)
        requires
            self.wf(),
        ensures
            b == (self@.len() == 0),
    {
        proof { self.items_seq().unique_seq_to_set(); }
        self.items.len() == 0
    }
}

} // verus!
