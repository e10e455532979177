//! JSON documents handled as text: objects as ordered (key, value text) members,
//! arrays as their items' texts. Parsing and writing JSON is done by serde_json;
//! what is merged, and how, is decided here.
use vstd::prelude::*;
use vstd::string::*;
use crate::string_map::{StringMap, strs_view, str_equal};

verus! {

/// A member of a JSON object: its key and the JSON text of its value.
pub type MemberView = (Seq<char>, Seq<char>);

/// The members of the JSON object that `text` holds, in the order serde_json
/// gives them, or `None` when `text` is not a JSON object.
pub uninterp spec fn json_object_members(text: Seq<char>) -> Option<Seq<MemberView>>;

/// The items of the JSON array that `text` holds, or `None` when it is not a JSON array.
pub uninterp spec fn json_array_items(text: Seq<char>) -> Option<Seq<Seq<char>>>;

/// The JSON text of the object built by inserting the members in order.
pub uninterp spec fn json_object_text(members: Seq<MemberView>) -> Seq<char>;

/// The JSON text of the array of the items.
pub uninterp spec fn json_array_text(items: Seq<Seq<char>>) -> Seq<char>;

/// The JSON text of a string.
pub uninterp spec fn json_string_text(s: Seq<char>) -> Seq<char>;

/// The views of a list of members.
pub open spec fn members_view(v: Seq<(String, String)>) -> Seq<MemberView> {
    Seq::new(v.len(), |i: int| (v[i].0@, v[i].1@))
}

/// `serde_json::from_str` into a `Value`, kept when it is an object: its members,
/// each value written back as JSON text. The members of an object (a map) have
/// distinct keys.
#[verifier::external_body]
pub(crate) fn parse_object(text: &str) -> (r: Option<Vec<(String, String)>>)
    ensures
        match r {
            Some(v) => json_object_members(text@) == Some(members_view(v@))
                && member_keys(members_view(v@)).no_duplicates(),
            None => json_object_members(text@) is None,
        },
{
    match serde_json::from_str::<serde_json::Value>(text) {
        Ok(serde_json::Value::Object(map)) => Some(map.into_iter().map(|(k, v)| (k, v.to_string())).collect()),
        _ => None,
    }
}

/// `serde_json::from_str` into a `Value`, kept when it is an array: its items as JSON text.
#[verifier::external_body]
pub(crate) fn parse_array(text: &str) -> (r: Option<Vec<String>>)
    ensures
        match r {
            Some(v) => json_array_items(text@) == Some(strs_view(v@)),
            None => json_array_items(text@) is None,
        },
{
    match serde_json::from_str::<serde_json::Value>(text) {
        Ok(serde_json::Value::Array(items)) => Some(items.into_iter().map(|v| v.to_string()).collect()),
        _ => None,
    }
}

/// `serde_json::to_string` of the object built from the members (each value parsed from its text).
#[verifier::external_body]
pub(crate) fn object_text(members: &Vec<(String, String)>) -> (s: String)
    ensures
        s@ == json_object_text(members_view(members@)),
{
    let mut map = serde_json::Map::new();
    for (k, v) in members {
        map.insert(k.clone(), serde_json::from_str(v).unwrap_or(serde_json::Value::Null));
    }
    serde_json::Value::Object(map).to_string()
}

/// `serde_json::to_string` of the array of the items (each parsed from its text).
#[verifier::external_body]
pub(crate) fn array_text(items: &Vec<String>) -> (s: String)
    ensures
        s@ == json_array_text(strs_view(items@)),
{
    let values: Vec<serde_json::Value> = items.iter().map(|v| serde_json::from_str(v).unwrap_or(serde_json::Value::Null)).collect();
    serde_json::Value::Array(values).to_string()
}

/// `serde_json::to_string` of a JSON string.
#[verifier::external_body]
pub(crate) fn string_text(s: &str) -> (r: String)
    ensures
        r@ == json_string_text(s@),
{
    serde_json::Value::String(s.to_string()).to_string()
}

/// `es` after setting `k` to `v`: in place when `k` is already there, else at the end.
pub open spec fn set_member(es: Seq<MemberView>, k: Seq<char>, v: Seq<char>) -> Seq<MemberView> {
    let ks = Seq::new(es.len(), |i: int| es[i].0);
    if ks.contains(k) { es.update(ks.index_of(k), (k, v)) } else { es.push((k, v)) }
}

/// `es` after setting each member of `more`, in order.
pub open spec fn set_members(es: Seq<MemberView>, more: Seq<MemberView>) -> Seq<MemberView>
    decreases more.len(),
{
    if more.len() == 0 {
        es
    } else {
        let e = more.last();
        set_member(set_members(es, more.drop_last()), e.0, e.1)
    }
}

/// The keys of a list of members.
pub open spec fn member_keys(es: Seq<MemberView>) -> Seq<Seq<char>> {
    Seq::new(es.len(), |i: int| es[i].0)
}

/// An ordered map from keys to JSON texts.
pub struct Members {
    pub map: StringMap<String>,
}

impl Members {
    pub open spec fn view(&self) -> Seq<MemberView> {
        Seq::new(self.map.spec_len(), |i: int| (self.map.keys_seq()[i], self.map.values_seq()[i]@))
    }

    pub open spec fn wf(&self) -> bool {
        &&& self.map.wf()
        &&& self.map.values_seq().len() == self.map.keys_seq().len()
    }

    pub fn new() -> (m: Self)
        ensures
            m.wf(),
            m@ == Seq::<MemberView>::empty(),
    {
        let m = Members { map: StringMap::new() };
        proof {
            m.map.lemma_same_length();
            assert(m@ =~= Seq::<MemberView>::empty());
        }
        m
    }

    /// Sets `key` to `value`.
    pub fn set(&mut self, key: String, value: String)
        requires
            old(self).wf(),
        ensures
            final(self).wf(),
            final(self)@ == set_member(old(self)@, key@, value@),
    {
        let ghost before = self@;
        let ghost k = key@;
        let ghost v = value@;
        proof {
            assert(member_keys(before) =~= self.map.keys_seq());
        }
        let ghost was = self.map.has_key(k);
        let ghost idx = self.map.keys_seq().index_of(k);
        let ghost old_map = self.map;
        self.map.insert(key, value);
        proof {
            self.map.lemma_same_length();
            if was {
                assert(self.map.keys_seq()[idx] == k);
                assert(self@ =~= before.update(idx, (k, v)));
            } else {
                assert(self@ =~= before.push((k, v)));
            }
        }
    }

    /// The JSON text of the value under `key`, if any.
    pub fn get(&self, key: &str) -> (r: Option<&String>)
        requires
            self.wf(),
        ensures
            match r {
                Some(v) => member_keys(self@).contains(key@) && v@ == self@[member_keys(self@).index_of(key@)].1,
                None => !member_keys(self@).contains(key@),
            },
    {
        proof {
            assert(member_keys(self@) =~= self.map.keys_seq());
        }
        let r = self.map.get(key);
        proof {
            if self.map.has_key(key@) {
                let j = self.map.keys_seq().index_of(key@);
                self.map.lemma_value_at(j);
            }
        }
        r
    }

    /// The members, as owned pairs.
    pub fn to_vec(&self) -> (v: Vec<(String, String)>)
        requires
            self.wf(),
        ensures
            members_view(v@) == self@,
    {
        let mut v: Vec<(String, String)> = Vec::new();
        let mut i: usize = 0;
        while i < self.map.len()
            invariant
                self.wf(),
                i <= self.map.spec_len(),
                v@.len() == i,
                forall|j: int| 0 <= j < i ==> (#[trigger] v@[j]).0@ == self@[j].0 && v@[j].1@ == self@[j].1,
            decreases self.map.spec_len() - i,
        {
            v.push((self.map.key_at(i).clone(), self.map.value_at(i).clone()));
            i = i + 1;
        }
        proof {
            assert(members_view(v@) =~= self@);
        }
        v
    }

    pub fn is_empty(&self) -> (b: bool)
        requires
            self.wf(),
        ensures
            b == (self@.len() == 0),
    {
        self.map.is_empty()
    }
}

/// Merges two JSON values: two objects into one (the second's members set into
/// the first); two arrays, when arrays are merged, into their concatenation;
/// `None` for anything else.
pub open spec fn merged_value(existing: Seq<char>, new: Seq<char>, merge_arrays: bool) -> Option<Seq<char>> {
    match (json_object_members(existing), json_object_members(new)) {
        (Some(a), Some(b)) => Some(json_object_text(set_members(a, b))),
        _ => match (json_array_items(existing), json_array_items(new)) {
            (Some(a), Some(b)) => if merge_arrays { Some(json_array_text(a + b)) } else { None },
            _ => None,
        },
    }
}

/// Merges two JSON values (see `merged_value`).
pub fn merge_json_values(existing: &str, new: &str, merge_arrays: bool) -> (r: Option<String>)
    ensures
        match r {
            Some(s) => merged_value(existing@, new@, merge_arrays) == Some(s@),
            None => merged_value(existing@, new@, merge_arrays) is None,
        },
{
    match (parse_object(existing), parse_object(new)) {
        (Some(a), Some(b)) => {
            let mut merged = Members::new();
            let mut i: usize = 0;
            while i < a.len()
                invariant
                    i <= a@.len(),
                    merged.wf(),
                    merged@ == set_members(Seq::empty(), members_view(a@).take(i as int)),
                decreases a@.len() - i,
            {
                proof {
                    assert(members_view(a@).take(i + 1).drop_last() =~= members_view(a@).take(i as int));
                }
                merged.set(a[i].0.clone(), a[i].1.clone());
                i = i + 1;
            }
            proof {
                lemma_set_members_distinct(members_view(a@));
                assert(members_view(a@).take(i as int) =~= members_view(a@));
            }
            let mut j: usize = 0;
            while j < b.len()
                invariant
                    j <= b@.len(),
                    merged.wf(),
                    merged@ == set_members(members_view(a@), members_view(b@).take(j as int)),
                decreases b@.len() - j,
            {
                proof {
                    assert(members_view(b@).take(j + 1).drop_last() =~= members_view(b@).take(j as int));
                }
                merged.set(b[j].0.clone(), b[j].1.clone());
                j = j + 1;
            }
            proof {
                assert(members_view(b@).take(j as int) =~= members_view(b@));
            }
            Some(object_text(&merged.to_vec()))
        },
        _ => {
            if merge_arrays {
                match (parse_array(existing), parse_array(new)) {
                    (Some(a), Some(b)) => {
                        let mut items = a;
                        let mut more = b;
                        let ghost av = strs_view(items@);
                        let ghost bv = strs_view(more@);
                        items.append(&mut more);
                        proof {
                            assert(strs_view(items@) =~= av + bv);
                        }
                        Some(array_text(&items))
                    },
                    _ => None,
                }
            } else {
                None
            }
        },
    }
}

/// Setting the members of a list with distinct keys into an empty list gives the list back.
pub proof fn lemma_set_members_distinct(es: Seq<MemberView>)
    requires
        member_keys(es).no_duplicates(),
    ensures
        set_members(Seq::empty(), es) == es,
    decreases es.len(),
{
    if es.len() > 0 {
        let d = es.drop_last();
        assert(member_keys(d) =~= member_keys(es).drop_last());
        crate::string_map::lemma_drop_last_contains(member_keys(es));
        lemma_set_members_distinct(d);
        assert(member_keys(d) =~= Seq::new(d.len(), |i: int| d[i].0));
        assert(!member_keys(d).contains(es.last().0)) by {
            assert(member_keys(es).last() == es.last().0);
        }
        assert(d.push((es.last().0, es.last().1)) =~= es);
    }
}

} // verus!
