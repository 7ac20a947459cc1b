//! Ordered maps: the key order `serde_json::Map` keeps, and what storing
//! into such a map preserves.

use vstd::prelude::*;

use crate::json::{
    entries_get, entries_set, entries_slot, lemma_entries_slot_at, lemma_slot_bound, lemma_text_lt_irreflexive,
    text_lt, Json,
};

verus! {

/// Two different texts are ordered one way or the other.
pub proof fn lemma_text_lt_total(a: Seq<char>, b: Seq<char>)
    requires
        a != b,
    ensures
        text_lt(a, b) || text_lt(b, a),
    decreases a.len(),
{
    if a.len() > 0 && b.len() > 0 && a[0] == b[0] {
        assert(a.drop_first() != b.drop_first()) by {
            if a.drop_first() == b.drop_first() {
                assert(a =~= seq![a[0]] + a.drop_first());
                assert(b =~= seq![b[0]] + b.drop_first());
            }
        }
        lemma_text_lt_total(a.drop_first(), b.drop_first());
    } else if a.len() == 0 && b.len() == 0 {
        assert(a =~= b);
    }
}

pub proof fn lemma_text_lt_transitive(a: Seq<char>, b: Seq<char>, c: Seq<char>)
    requires
        text_lt(a, b),
        text_lt(b, c),
    ensures
        text_lt(a, c),
    decreases a.len(),
{
    if a.len() > 0 && a[0] == b[0] && b[0] == c[0] {
        lemma_text_lt_transitive(a.drop_first(), b.drop_first(), c.drop_first());
    }
}

/// Whether the keys of `e` strictly increase, as in every `serde_json::Map`.
pub open spec fn keys_sorted(e: Seq<(Seq<char>, Json)>) -> bool {
    forall|a: int, b: int| 0 <= a < b < e.len() ==> text_lt(#[trigger] e[a].0, #[trigger] e[b].0)
}

/// Storing under a key of an ordered map the value it already holds changes
/// nothing.
pub proof fn lemma_set_existing(e: Seq<(Seq<char>, Json)>, key: Seq<char>, value: Json)
    requires
        keys_sorted(e),
        entries_get(e, key) == Some(value),
    ensures
        entries_set(e, key, value) == e,
{
    lemma_get_index(e, key);
    let i = choose|i: int| 0 <= i < e.len() && (#[trigger] e[i]).0 == key && e[i].1 == value;
    lemma_text_lt_irreflexive(key);
    assert forall|j: int| 0 <= j < i implies text_lt(#[trigger] e[j].0, key) by {
        assert(text_lt(e[j].0, e[i].0));
    }
    lemma_entries_slot_at(e, key, i);
    assert(e.update(i, (key, value)) =~= e);
}

proof fn lemma_get_index(e: Seq<(Seq<char>, Json)>, key: Seq<char>)
    requires
        entries_get(e, key) is Some,
    ensures
        exists|i: int| 0 <= i < e.len() && (#[trigger] e[i]).0 == key && e[i].1 == entries_get(e, key)->Some_0,
    decreases e.len(),
{
    if e[0].0 != key {
        lemma_get_index(e.drop_first(), key);
        let i = choose|i: int|
            0 <= i < e.drop_first().len() && (#[trigger] e.drop_first()[i]).0 == key && e.drop_first()[i].1
                == entries_get(e.drop_first(), key)->Some_0;
        assert(e[i + 1] == e.drop_first()[i]);
    } else {
        assert(e[0].0 == key);
    }
}

/// `map[key] = value` keeps an ordered map ordered.
pub proof fn lemma_set_keeps_sorted(e: Seq<(Seq<char>, Json)>, key: Seq<char>, value: Json)
    requires
        keys_sorted(e),
    ensures
        keys_sorted(entries_set(e, key, value)),
{
    lemma_slot_bound(e, key);
    let p = entries_slot(e, key) as int;
    let n = entries_set(e, key, value);
    if !(p < e.len() && e[p].0 == key) {
        if p < e.len() {
            lemma_text_lt_total(e[p].0, key);
        }
        assert forall|a: int, b: int| 0 <= a < b < n.len() implies text_lt(#[trigger] n[a].0, #[trigger] n[b].0) by {
            if b < p {
                assert(n[a] == e[a] && n[b] == e[b]);
            } else if b == p {
                assert(n[a] == e[a]);
            } else if a < p {
                assert(n[a] == e[a] && n[b] == e[b - 1]);
                if p < e.len() {
                    if b - 1 > p {
                        assert(text_lt(e[p].0, e[b - 1].0));
                        lemma_text_lt_transitive(key, e[p].0, e[b - 1].0);
                    }
                    lemma_text_lt_transitive(e[a].0, key, e[b - 1].0);
                }
            } else if a == p {
                assert(n[b] == e[b - 1]);
                if b - 1 > p {
                    assert(text_lt(e[p].0, e[b - 1].0));
                    lemma_text_lt_transitive(key, e[p].0, e[b - 1].0);
                }
            } else {
                assert(n[a] == e[a - 1] && n[b] == e[b - 1]);
            }
        }
    } else {
        assert forall|a: int, b: int| 0 <= a < b < n.len() implies text_lt(#[trigger] n[a].0, #[trigger] n[b].0) by {
            assert(n[a].0 == e[a].0 && n[b].0 == e[b].0);
        }
    }
}

} // verus!
