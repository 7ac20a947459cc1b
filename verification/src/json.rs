//! JSON documents: the model the contracts speak of, the value the program
//! holds, and lookup and store on objects whose entries are meant to stand
//! in key order (see `settings::ordered_file`).

use vstd::prelude::*;

use crate::text::{same_text, text_less};

verus! {

/// The mathematical model of a JSON document. An object is the list of its
/// entries; a `serde_json::Map` keeps them in key order, each key once
/// (`order::keys_sorted`), which the parse and every store here keep.
pub enum Json {
    Null,
    Bool(bool),
    Number(Seq<char>),
    Str(Seq<char>),
    Array(Seq<Json>),
    Object(Seq<(Seq<char>, Json)>),
}

/// A JSON document. A number is held as the text that represents it.
#[derive(Debug)]
pub enum JsonValue {
    Null,
    Bool(bool),
    Number(String),
    Str(String),
    Array(Vec<JsonValue>),
    Object(Vec<(String, JsonValue)>),
}

pub open spec fn view_items(s: Seq<JsonValue>) -> Seq<Json>
    decreases s,
{
    if s.len() == 0 {
        Seq::empty()
    } else {
        view_items(s.drop_last()).push(view_json(s.last()))
    }
}

pub open spec fn view_entries(s: Seq<(String, JsonValue)>) -> Seq<(Seq<char>, Json)>
    decreases s,
{
    if s.len() == 0 {
        Seq::empty()
    } else {
        view_entries(s.drop_last()).push((s.last().0@, view_json(s.last().1)))
    }
}

pub open spec fn view_json(v: JsonValue) -> Json
    decreases v,
{
    match v {
        JsonValue::Null => Json::Null,
        JsonValue::Bool(b) => Json::Bool(b),
        JsonValue::Number(n) => Json::Number(n@),
        JsonValue::Str(s) => Json::Str(s@),
        JsonValue::Array(items) => Json::Array(view_items(items@)),
        JsonValue::Object(entries) => Json::Object(view_entries(entries@)),
    }
}

impl View for JsonValue {
    type V = Json;

    open spec fn view(&self) -> Json {
        view_json(*self)
    }
}


pub proof fn lemma_view_items(s: Seq<JsonValue>)
    ensures
        view_items(s).len() == s.len(),
        forall|i: int| 0 <= i < s.len() ==> #[trigger] view_items(s)[i] == view_json(s[i]),
    decreases s.len(),
{
    if s.len() > 0 {
        lemma_view_items(s.drop_last());
    }
}

pub proof fn lemma_view_entries(s: Seq<(String, JsonValue)>)
    ensures
        view_entries(s).len() == s.len(),
        forall|i: int|
            0 <= i < s.len() ==> #[trigger] view_entries(s)[i] == (s[i].0@, view_json(s[i].1)),
    decreases s.len(),
{
    if s.len() > 0 {
        lemma_view_entries(s.drop_last());
    }
}

/// Lexicographic order of texts by code point, which is the byte order of
/// their UTF-8 encodings and so the order of `String`'s `Ord`.
pub open spec fn text_lt(a: Seq<char>, b: Seq<char>) -> bool
    decreases a.len(),
{
    if a.len() == 0 {
        b.len() > 0
    } else if b.len() == 0 {
        false
    } else if a[0] != b[0] {
        (a[0] as int) < (b[0] as int)
    } else {
        text_lt(a.drop_first(), b.drop_first())
    }
}

/// The value stored under `key` among `entries` (the first entry with that key).
pub open spec fn entries_get(entries: Seq<(Seq<char>, Json)>, key: Seq<char>) -> Option<Json>
    decreases entries.len(),
{
    if entries.len() == 0 {
        None
    } else if entries[0].0 == key {
        Some(entries[0].1)
    } else {
        entries_get(entries.drop_first(), key)
    }
}

/// The index at which `key` is found or would be inserted: the first entry
/// whose key is not below `key`.
pub open spec fn entries_slot(entries: Seq<(Seq<char>, Json)>, key: Seq<char>) -> nat
    decreases entries.len(),
{
    if entries.len() == 0 {
        0
    } else if !text_lt(entries[0].0, key) {
        0
    } else {
        1 + entries_slot(entries.drop_first(), key)
    }
}

/// The entries after `map[key] = value` on a key-ordered map (the new entry
/// goes before the first key not below it).
pub open spec fn entries_set(entries: Seq<(Seq<char>, Json)>, key: Seq<char>, value: Json) -> Seq<(Seq<char>, Json)> {
    let p = entries_slot(entries, key) as int;
    if p < entries.len() && entries[p].0 == key {
        entries.update(p, (key, value))
    } else {
        entries.insert(p, (key, value))
    }
}

pub open spec fn entries_has(entries: Seq<(Seq<char>, Json)>, key: Seq<char>) -> bool {
    entries_get(entries, key) is Some
}

impl Json {
    /// `Value::get` with a string index: the member of an object, if any.
    pub open spec fn get(self, key: Seq<char>) -> Option<Json> {
        match self {
            Json::Object(entries) => entries_get(entries, key),
            _ => None,
        }
    }

    pub open spec fn str_of(self) -> Option<Seq<char>> {
        match self {
            Json::Str(s) => Some(s),
            _ => None,
        }
    }

    pub open spec fn entries_of(self) -> Option<Seq<(Seq<char>, Json)>> {
        match self {
            Json::Object(e) => Some(e),
            _ => None,
        }
    }
}


pub proof fn lemma_entries_get_at(e: Seq<(Seq<char>, Json)>, key: Seq<char>, i: int)
    requires
        0 <= i < e.len(),
        e[i].0 == key,
        forall|j: int| 0 <= j < i ==> e[j].0 != key,
    ensures
        entries_get(e, key) == Some(e[i].1),
    decreases i,
{
    if i > 0 {
        lemma_entries_get_at(e.drop_first(), key, i - 1);
    }
}

pub proof fn lemma_entries_get_none(e: Seq<(Seq<char>, Json)>, key: Seq<char>)
    requires
        forall|j: int| 0 <= j < e.len() ==> e[j].0 != key,
    ensures
        entries_get(e, key) is None,
    decreases e.len(),
{
    if e.len() > 0 {
        lemma_entries_get_none(e.drop_first(), key);
    }
}

pub proof fn lemma_entries_slot_at(e: Seq<(Seq<char>, Json)>, key: Seq<char>, i: int)
    requires
        0 <= i <= e.len(),
        forall|j: int| 0 <= j < i ==> text_lt(#[trigger] e[j].0, key),
        i < e.len() ==> !text_lt(e[i].0, key),
    ensures
        entries_slot(e, key) == i,
    decreases i,
{
    if i > 0 {
        assert forall|j: int| 0 <= j < i - 1 implies text_lt(#[trigger] e.drop_first()[j].0, key) by {
            assert(e.drop_first()[j] == e[j + 1]);
        }
        lemma_entries_slot_at(e.drop_first(), key, i - 1);
    }
}

/// The index of the entry stored under `key`, if any.
pub fn find_entry(entries: &Vec<(String, JsonValue)>, key: &str) -> (r: Option<usize>)
    ensures
        r is None <==> entries_get(view_entries(entries@), key@) is None,
        r matches Some(i) ==> i < entries.len() && entries@[i as int].0@ == key@
            && entries_get(view_entries(entries@), key@) == Some(view_json(entries@[i as int].1)),
{
    proof {
        lemma_view_entries(entries@);
    }
    let ghost e = view_entries(entries@);
    let mut i: usize = 0;
    while i < entries.len()
        invariant
            i <= entries.len(),
            e == view_entries(entries@),
            e.len() == entries.len(),
            forall|j: int| 0 <= j < e.len() ==> #[trigger] e[j] == (entries@[j].0@, view_json(entries@[j].1)),
            forall|j: int| 0 <= j < i ==> e[j].0 != key@,
        decreases entries.len() - i,
    {
        if same_text(entries[i].0.as_str(), key) {
            proof {
                lemma_entries_get_at(e, key@, i as int);
            }
            return Some(i);
        }
        i = i + 1;
    }
    proof {
        lemma_entries_get_none(e, key@);
    }
    None
}

/// `map.insert(key, value)` on a key-ordered map.
pub fn set_entry(entries: &mut Vec<(String, JsonValue)>, key: String, value: JsonValue)
    ensures
        view_entries(final(entries)@) == entries_set(view_entries(old(entries)@), key@, value@),
{
    proof {
        lemma_view_entries(entries@);
    }
    let ghost e = view_entries(entries@);
    let mut i: usize = 0;
    while i < entries.len() && text_less(entries[i].0.as_str(), key.as_str())
        invariant
            i <= entries.len(),
            e == view_entries(entries@),
            e.len() == entries.len(),
            forall|j: int| 0 <= j < e.len() ==> #[trigger] e[j] == (entries@[j].0@, view_json(entries@[j].1)),
            forall|j: int| 0 <= j < i ==> text_lt(#[trigger] e[j].0, key@),
        decreases entries.len() - i,
    {
        i = i + 1;
    }
    proof {
        lemma_entries_slot_at(e, key@, i as int);
    }
    let ghost kv = key@;
    let ghost vv = value@;
    if i < entries.len() && same_text(entries[i].0.as_str(), key.as_str()) {
        entries.set(i, (key, value));
        proof {
            lemma_view_entries(entries@);
            assert(view_entries(entries@) =~= e.update(i as int, (kv, vv)));
        }
    } else {
        entries.insert(i, (key, value));
        proof {
            lemma_view_entries(entries@);
            assert(view_entries(entries@) =~= e.insert(i as int, (kv, vv)));
        }
    }
}

pub proof fn lemma_slot_bound(e: Seq<(Seq<char>, Json)>, key: Seq<char>)
    ensures
        entries_slot(e, key) <= e.len(),
        forall|j: int| 0 <= j < entries_slot(e, key) ==> text_lt(#[trigger] e[j].0, key),
        entries_slot(e, key) < e.len() ==> !text_lt(e[entries_slot(e, key) as int].0, key),
    decreases e.len(),
{
    if e.len() > 0 && text_lt(e[0].0, key) {
        lemma_slot_bound(e.drop_first(), key);
        assert forall|j: int| 0 <= j < entries_slot(e, key) implies text_lt(#[trigger] e[j].0, key) by {
            if j > 0 {
                assert(e[j] == e.drop_first()[j - 1]);
            }
        }
    }
}

pub proof fn lemma_text_lt_irreflexive(a: Seq<char>)
    ensures
        !text_lt(a, a),
    decreases a.len(),
{
    if a.len() > 0 {
        lemma_text_lt_irreflexive(a.drop_first());
    }
}

/// After `map[key] = value`, `key` holds `value` and every other key holds
/// what it held before.
pub proof fn lemma_set_then_get(e: Seq<(Seq<char>, Json)>, key: Seq<char>, value: Json, other: Seq<char>)
    ensures
        entries_get(entries_set(e, key, value), key) == Some(value),
        other != key ==> entries_get(entries_set(e, key, value), other) == entries_get(e, other),
{
    lemma_slot_bound(e, key);
    let p = entries_slot(e, key) as int;
    let n = entries_set(e, key, value);
    assert forall|j: int| 0 <= j < p implies e[j].0 != key by {
        lemma_text_lt_irreflexive(key);
    }
    assert(n[p] == (key, value));
    assert forall|j: int| 0 <= j < p implies n[j].0 != key by {
        assert(n[j] == e[j]);
    }
    lemma_entries_get_at(n, key, p);
    if other != key {
        lemma_get_other(e, n, key, value, other, p);
    }
}

proof fn lemma_get_other(
    e: Seq<(Seq<char>, Json)>,
    n: Seq<(Seq<char>, Json)>,
    key: Seq<char>,
    value: Json,
    other: Seq<char>,
    p: int,
)
    requires
        other != key,
        0 <= p <= e.len(),
        n == (if p < e.len() && e[p].0 == key { e.update(p, (key, value)) } else { e.insert(p, (key, value)) }),
    ensures
        entries_get(n, other) == entries_get(e, other),
    decreases e.len(),
{
    if e.len() == 0 {
        assert(n.len() == 1);
        assert(n.drop_first().len() == 0);
    } else if p == 0 {
        if e[0].0 == key {
            assert(n.drop_first() =~= e.drop_first());
        } else {
            assert(n.drop_first() =~= e);
        }
    } else {
        assert(n[0] == e[0]);
        if e[0].0 != other {
            let e1 = e.drop_first();
            let n1 = n.drop_first();
            if p < e.len() && e[p].0 == key {
                assert(n1 =~= e1.update(p - 1, (key, value)));
            } else {
                assert(n1 =~= e1.insert(p - 1, (key, value)));
            }
            lemma_get_other(e1, n1, key, value, other, p - 1);
        }
    }
}

impl JsonValue {
    /// A deep copy.
    #[verifier::loop_isolation(false)]
    pub fn copy(&self) -> (r: JsonValue)
        ensures
            r@ == self@,
        decreases self,
    {
        match self {
            JsonValue::Null => JsonValue::Null,
            JsonValue::Bool(b) => JsonValue::Bool(*b),
            JsonValue::Number(n) => JsonValue::Number(n.clone()),
            JsonValue::Str(s) => JsonValue::Str(s.clone()),
            JsonValue::Array(items) => {
                let mut out: Vec<JsonValue> = Vec::new();
                let mut i: usize = 0;
                while i < items.len()
                    invariant
                        i <= items.len(),
                        out.len() == i,
                        forall|j: int| 0 <= j < i ==> #[trigger] view_json(out@[j]) == view_json(items@[j]),
                    decreases items.len() - i,
                {
                    proof {
                        assert(decreases_to!(*items => items@));
                        assert(decreases_to!(items@ => items@[i as int]));
                        assert(decreases_to!(*self => items@[i as int]));
                    }
                    let c = items[i].copy();
                    out.push(c);
                    i = i + 1;
                }
                proof {
                    lemma_view_items(out@);
                    lemma_view_items(items@);
                    assert(view_items(out@) =~= view_items(items@));
                }
                JsonValue::Array(out)
            },
            JsonValue::Object(entries) => {
                let mut out: Vec<(String, JsonValue)> = Vec::new();
                let mut i: usize = 0;
                while i < entries.len()
                    invariant
                        i <= entries.len(),
                        out.len() == i,
                        forall|j: int| 0 <= j < i ==> #[trigger] out@[j].0@ == entries@[j].0@,
                        forall|j: int| 0 <= j < i ==> #[trigger] view_json(out@[j].1) == view_json(entries@[j].1),
                    decreases entries.len() - i,
                {
                    proof {
                        assert(decreases_to!(*entries => entries@));
                        assert(decreases_to!(entries@ => entries@[i as int]));
                        assert(decreases_to!(entries@[i as int] => entries@[i as int].1));
                        assert(decreases_to!(*self => entries@[i as int].1));
                    }
                    let c = entries[i].1.copy();
                    out.push((entries[i].0.clone(), c));
                    i = i + 1;
                }
                proof {
                    lemma_view_entries(out@);
                    lemma_view_entries(entries@);
                    assert(view_entries(out@) =~= view_entries(entries@));
                }
                JsonValue::Object(out)
            },
        }
    }

    /// `Value::get` with a string index.
    pub fn get(&self, key: &str) -> (r: Option<&JsonValue>)
        ensures
            r is None <==> self@.get(key@) is None,
            r matches Some(v) ==> self@.get(key@) == Some(v@),
    {
        match self {
            JsonValue::Object(entries) => match find_entry(entries, key) {
                Some(i) => Some(&entries[i].1),
                None => None,
            },
            _ => None,
        }
    }

    /// `Value::as_str`.
    pub fn as_text(&self) -> (r: Option<&String>)
        ensures
            r is None <==> self@.str_of() is None,
            r matches Some(s) ==> self@.str_of() == Some(s@),
    {
        match self {
            JsonValue::Str(s) => Some(s),
            _ => None,
        }
    }

    /// `Value::as_object`: the entries of an object.
    pub fn as_entries(&self) -> (r: Option<&Vec<(String, JsonValue)>>)
        ensures
            r is None <==> self@.entries_of() is None,
            r matches Some(e) ==> self@.entries_of() == Some(view_entries(e@)),
    {
        match self {
            JsonValue::Object(e) => Some(e),
            _ => None,
        }
    }
}

} // verus!
