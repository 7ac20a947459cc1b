//! The library's JSON writer: compact text, and pretty text with two spaces
//! per level. The layout follows `serde_json`'s `to_string` and
//! `to_string_pretty` (no spaces in compact text, `"key": value` in pretty
//! text, the same string escapes); nothing here proves that they agree.

use vstd::prelude::*;

use crate::json::{lemma_view_entries, lemma_view_items, view_entries, view_items, view_json, Json, JsonValue};
use crate::text::{chars_of, code_point, push_char, push_text};

verus! {

pub open spec fn hex_digit(n: int) -> char {
    seq!['0', '1', '2', '3', '4', '5', '6', '7', '8', '9', 'a', 'b', 'c', 'd', 'e', 'f'][n]
}

/// How one character of a string is written inside quotes.
pub open spec fn escape_char(c: char) -> Seq<char> {
    if c == '"' {
        seq!['\\', '"']
    } else if c == '\\' {
        seq!['\\', '\\']
    } else if c == '\u{8}' {
        seq!['\\', 'b']
    } else if c == '\u{c}' {
        seq!['\\', 'f']
    } else if c == '\n' {
        seq!['\\', 'n']
    } else if c == '\r' {
        seq!['\\', 'r']
    } else if c == '\t' {
        seq!['\\', 't']
    } else if (c as int) < 0x20 {
        seq!['\\', 'u', '0', '0', hex_digit((c as int) / 16), hex_digit((c as int) % 16)]
    } else {
        seq![c]
    }
}

pub open spec fn escaped(s: Seq<char>) -> Seq<char>
    decreases s.len(),
{
    if s.len() == 0 {
        Seq::empty()
    } else {
        escaped(s.drop_last()) + escape_char(s.last())
    }
}

/// A string literal: the escaped text in double quotes.
pub open spec fn quoted(s: Seq<char>) -> Seq<char> {
    seq!['"'] + escaped(s) + seq!['"']
}

pub open spec fn scalar_text(v: Json) -> Seq<char> {
    match v {
        Json::Null => "null"@,
        Json::Bool(b) => if b { "true"@ } else { "false"@ },
        Json::Number(n) => n,
        Json::Str(s) => quoted(s),
        _ => Seq::empty(),
    }
}

/// The compact text of `v`.
pub open spec fn compact(v: Json) -> Seq<char>
    decreases v,
{
    match v {
        Json::Array(items) => seq!['['] + compact_items(items) + seq![']'],
        Json::Object(entries) => seq!['{'] + compact_entries(entries) + seq!['}'],
        _ => scalar_text(v),
    }
}

pub open spec fn compact_items(items: Seq<Json>) -> Seq<char>
    decreases items,
{
    if items.len() == 0 {
        Seq::empty()
    } else {
        let prev = compact_items(items.drop_last());
        (if items.len() == 1 { prev } else { prev + seq![','] }) + compact(items.last())
    }
}

pub open spec fn compact_entries(entries: Seq<(Seq<char>, Json)>) -> Seq<char>
    decreases entries,
{
    if entries.len() == 0 {
        Seq::empty()
    } else {
        let prev = compact_entries(entries.drop_last());
        (if entries.len() == 1 { prev } else { prev + seq![','] }) + quoted(entries.last().0) + seq![':']
            + compact(entries.last().1)
    }
}

pub open spec fn spaces(n: nat) -> Seq<char> {
    Seq::new(n, |i: int| ' ')
}

/// The pretty text of `v`, with every line after the first indented by `n`
/// more spaces.
pub open spec fn pretty(v: Json, n: nat) -> Seq<char>
    decreases v,
{
    match v {
        Json::Array(items) => if items.len() == 0 {
            "[]"@
        } else {
            seq!['['] + pretty_items(items, n) + seq!['\n'] + spaces(n) + seq![']']
        },
        Json::Object(entries) => if entries.len() == 0 {
            "{}"@
        } else {
            seq!['{'] + pretty_entries(entries, n) + seq!['\n'] + spaces(n) + seq!['}']
        },
        _ => scalar_text(v),
    }
}

pub open spec fn pretty_items(items: Seq<Json>, n: nat) -> Seq<char>
    decreases items,
{
    if items.len() == 0 {
        Seq::empty()
    } else {
        pretty_items(items.drop_last(), n) + (if items.len() == 1 { seq!['\n'] } else { seq![',', '\n'] })
            + spaces(n + 2) + pretty(items.last(), n + 2)
    }
}

pub open spec fn pretty_entries(entries: Seq<(Seq<char>, Json)>, n: nat) -> Seq<char>
    decreases entries,
{
    if entries.len() == 0 {
        Seq::empty()
    } else {
        pretty_entries(entries.drop_last(), n) + (if entries.len() == 1 { seq!['\n'] } else { seq![',', '\n'] })
            + spaces(n + 2) + quoted(entries.last().0) + seq![':', ' '] + pretty(entries.last().1, n + 2)
    }
}

fn hex_char(n: u32) -> (r: char)
    requires
        n < 16,
    ensures
        r == hex_digit(n as int),
{
    let digits: [char; 16] = ['0', '1', '2', '3', '4', '5', '6', '7', '8', '9', 'a', 'b', 'c', 'd', 'e', 'f'];
    assert(digits@ =~= seq!['0', '1', '2', '3', '4', '5', '6', '7', '8', '9', 'a', 'b', 'c', 'd', 'e', 'f']);
    digits[n as usize]
}

fn push_escaped_char(out: &mut String, c: char)
    ensures
        final(out)@ == old(out)@ + escape_char(c),
{
    let ghost start = out@;
    if c == '"' {
        push_char(out, '\\');
        push_char(out, '"');
    } else if c == '\\' {
        push_char(out, '\\');
        push_char(out, '\\');
    } else if c == '\u{8}' {
        push_char(out, '\\');
        push_char(out, 'b');
    } else if c == '\u{c}' {
        push_char(out, '\\');
        push_char(out, 'f');
    } else if c == '\n' {
        push_char(out, '\\');
        push_char(out, 'n');
    } else if c == '\r' {
        push_char(out, '\\');
        push_char(out, 'r');
    } else if c == '\t' {
        push_char(out, '\\');
        push_char(out, 't');
    } else if code_point(c) < 0x20 {
        let n = code_point(c);
        push_char(out, '\\');
        push_char(out, 'u');
        push_char(out, '0');
        push_char(out, '0');
        push_char(out, hex_char(n / 16));
        push_char(out, hex_char(n % 16));
    } else {
        push_char(out, c);
    }
    assert(out@ =~= start + escape_char(c));
}

/// Appends `s` as a JSON string literal.
pub fn push_quoted(out: &mut String, s: &str)
    ensures
        final(out)@ == old(out)@ + quoted(s@),
{
    let ghost start = out@;
    let cs = chars_of(s);
    push_char(out, '"');
    let mut i: usize = 0;
    while i < cs.len()
        invariant
            i <= cs.len(),
            cs@ == s@,
            out@ == start + seq!['"'] + escaped(cs@.take(i as int)),
        decreases cs.len() - i,
    {
        assert(cs@.take(i + 1).drop_last() =~= cs@.take(i as int));
        push_escaped_char(out, cs[i]);
        i = i + 1;
    }
    assert(cs@.take(cs.len() as int) =~= cs@);
    push_char(out, '"');
    assert(out@ =~= start + quoted(s@));
}

/// Appends the compact text of `v` (see [`compact`]).
#[verifier::loop_isolation(false)]
#[verifier::rlimit(40)]
#[verifier::spinoff_prover]
pub fn write_compact(v: &JsonValue, out: &mut String)
    ensures
        final(out)@ == old(out)@ + compact(v@),
    decreases v,
{
    let ghost start = out@;
    match v {
        JsonValue::Null => push_text(out, "null"),
        JsonValue::Bool(b) => if *b { push_text(out, "true") } else { push_text(out, "false") },
        JsonValue::Number(n) => push_text(out, n.as_str()),
        JsonValue::Str(s) => push_quoted(out, s.as_str()),
        JsonValue::Array(items) => {
            let ghost iv = view_items(items@);
            proof {
                lemma_view_items(items@);
            }
            push_char(out, '[');
            let mut i: usize = 0;
            while i < items.len()
                invariant
                    i <= items.len(),
                    out@ == start + seq!['['] + compact_items(iv.take(i as int)),
                decreases items.len() - i,
            {
                proof {
                    assert(decreases_to!(*items => items@));
                    assert(decreases_to!(items@ => items@[i as int]));
                    assert(iv.take(i + 1).drop_last() =~= iv.take(i as int));
                    assert(iv.take(i + 1).last() == items@[i as int]@);
                }
                if i > 0 {
                    push_char(out, ',');
                }
                write_compact(&items[i], out);
                i = i + 1;
            }
            assert(iv.take(items.len() as int) =~= iv);
            push_char(out, ']');
        },
        JsonValue::Object(entries) => {
            let ghost ev = view_entries(entries@);
            proof {
                lemma_view_entries(entries@);
            }
            push_char(out, '{');
            let mut i: usize = 0;
            while i < entries.len()
                invariant
                    i <= entries.len(),
                    out@ == start + seq!['{'] + compact_entries(ev.take(i as int)),
                decreases entries.len() - i,
            {
                proof {
                    assert(decreases_to!(*entries => entries@));
                    assert(decreases_to!(entries@ => entries@[i as int]));
                    assert(decreases_to!(entries@[i as int] => entries@[i as int].1));
                    assert(ev.take(i + 1).drop_last() =~= ev.take(i as int));
                    assert(ev.take(i + 1).last() == (entries@[i as int].0@, entries@[i as int].1@));
                }
                if i > 0 {
                    push_char(out, ',');
                }
                push_quoted(out, entries[i].0.as_str());
                push_char(out, ':');
                write_compact(&entries[i].1, out);
                i = i + 1;
            }
            assert(ev.take(entries.len() as int) =~= ev);
            push_char(out, '}');
        },
    }
    assert(out@ =~= start + compact(v@));
}

fn push_spaces(out: &mut String, n: usize)
    ensures
        final(out)@ == old(out)@ + spaces(n as nat),
{
    let ghost start = out@;
    let mut i: usize = 0;
    while i < n
        invariant
            i <= n,
            out@ == start + spaces(i as nat),
        decreases n - i,
    {
        push_char(out, ' ');
        assert(spaces((i + 1) as nat) =~= spaces(i as nat).push(' '));
        i = i + 1;
    }
}

/// Appends the pretty text of `v` (see [`pretty`]), with every line after the
/// first indented by `n` more spaces.
pub fn write_pretty(v: &JsonValue, n: usize, out: &mut String)
    requires
        n + 2 * depth(v@) <= usize::MAX,
    ensures
        final(out)@ == old(out)@ + pretty(v@, n as nat),
    decreases v, 1nat,
{
    match v {
        JsonValue::Array(items) => {
            assert(decreases_to!(*v => *items));
            write_pretty_items(items, n, out);
        },
        JsonValue::Object(entries) => {
            assert(decreases_to!(*v => *entries));
            write_pretty_entries(entries, n, out);
        },
        JsonValue::Null => push_text(out, "null"),
        JsonValue::Bool(b) => if *b { push_text(out, "true") } else { push_text(out, "false") },
        JsonValue::Number(t) => push_text(out, t.as_str()),
        JsonValue::Str(s) => push_quoted(out, s.as_str()),
    }
}

#[verifier::loop_isolation(false)]
#[verifier::spinoff_prover]
#[verifier::rlimit(40)]
fn write_pretty_items(items: &Vec<JsonValue>, n: usize, out: &mut String)
    requires
        n + 2 * depth(Json::Array(view_items(items@))) <= usize::MAX,
    ensures
        final(out)@ == old(out)@ + pretty(Json::Array(view_items(items@)), n as nat),
    decreases items, 0nat,
{
    let ghost start = out@;
    let ghost iv = view_items(items@);
    proof {
        lemma_view_items(items@);
    }
    if items.len() == 0 {
        push_text(out, "[]");
        return;
    }
    push_char(out, '[');
    let mut i: usize = 0;
    while i < items.len()
        invariant
            i <= items.len(),
            out@ == start + seq!['['] + pretty_items(iv.take(i as int), n as nat),
        decreases items.len() - i,
    {
        proof {
            assert(decreases_to!(*items => items@));
            assert(decreases_to!(items@ => items@[i as int]));
            assert(iv.take(i + 1).drop_last() =~= iv.take(i as int));
            assert(iv.take(i + 1).last() == items@[i as int]@);
            lemma_depth_item(iv, i as int);
        }
        let ghost before = out@;
        if i > 0 {
            push_char(out, ',');
        }
        push_char(out, '\n');
        push_spaces(out, n + 2);
        write_pretty(&items[i], n + 2, out);
        assert(out@ =~= before + (if i + 1 == 1 { seq!['\n'] } else { seq![',', '\n'] }) + spaces((n + 2) as nat)
            + pretty(iv[i as int], (n + 2) as nat));
        i = i + 1;
    }
    assert(iv.take(items.len() as int) =~= iv);
    push_char(out, '\n');
    push_spaces(out, n);
    push_char(out, ']');
}

#[verifier::loop_isolation(false)]
#[verifier::spinoff_prover]
#[verifier::rlimit(40)]
fn write_pretty_entries(entries: &Vec<(String, JsonValue)>, n: usize, out: &mut String)
    requires
        n + 2 * depth(Json::Object(view_entries(entries@))) <= usize::MAX,
    ensures
        final(out)@ == old(out)@ + pretty(Json::Object(view_entries(entries@)), n as nat),
    decreases entries, 0nat,
{
    let ghost start = out@;
    let ghost ev = view_entries(entries@);
    proof {
        lemma_view_entries(entries@);
    }
    if entries.len() == 0 {
        push_text(out, "{}");
        return;
    }
    push_char(out, '{');
    let mut i: usize = 0;
    while i < entries.len()
        invariant
            i <= entries.len(),
            out@ == start + seq!['{'] + pretty_entries(ev.take(i as int), n as nat),
        decreases entries.len() - i,
    {
        proof {
            assert(decreases_to!(*entries => entries@));
            assert(decreases_to!(entries@ => entries@[i as int]));
            assert(decreases_to!(entries@[i as int] => entries@[i as int].1));
            assert(ev.take(i + 1).drop_last() =~= ev.take(i as int));
            assert(ev.take(i + 1).last() == (entries@[i as int].0@, entries@[i as int].1@));
            lemma_depth_entry(ev, i as int);
        }
        let ghost before = out@;
        if i > 0 {
            push_char(out, ',');
        }
        push_char(out, '\n');
        push_spaces(out, n + 2);
        push_quoted(out, entries[i].0.as_str());
        push_char(out, ':');
        push_char(out, ' ');
        write_pretty(&entries[i].1, n + 2, out);
        assert(out@ =~= before + (if i + 1 == 1 { seq!['\n'] } else { seq![',', '\n'] }) + spaces((n + 2) as nat)
            + quoted(ev[i as int].0) + seq![':', ' '] + pretty(ev[i as int].1, (n + 2) as nat));
        i = i + 1;
    }
    assert(ev.take(entries.len() as int) =~= ev);
    push_char(out, '\n');
    push_spaces(out, n);
    push_char(out, '}');
}

/// How deeply arrays and objects nest in `v`.
pub open spec fn depth(v: Json) -> nat
    decreases v,
{
    match v {
        Json::Array(items) => 1 + depth_items(items),
        Json::Object(entries) => 1 + depth_entries(entries),
        _ => 0,
    }
}

pub open spec fn depth_items(items: Seq<Json>) -> nat
    decreases items,
{
    if items.len() == 0 {
        0
    } else {
        let a = depth_items(items.drop_last());
        let b = depth(items.last());
        if a < b { b } else { a }
    }
}

pub open spec fn depth_entries(entries: Seq<(Seq<char>, Json)>) -> nat
    decreases entries,
{
    if entries.len() == 0 {
        0
    } else {
        let a = depth_entries(entries.drop_last());
        let b = depth(entries.last().1);
        if a < b { b } else { a }
    }
}

pub proof fn lemma_depth_items_bound(items: Seq<Json>, m: nat)
    ensures
        depth_items(items) <= m <==> forall|i: int| 0 <= i < items.len() ==> depth(#[trigger] items[i]) <= m,
    decreases items.len(),
{
    if items.len() > 0 {
        let d = items.drop_last();
        lemma_depth_items_bound(d, m);
        if depth_items(items) <= m {
            assert forall|i: int| 0 <= i < items.len() implies depth(#[trigger] items[i]) <= m by {
                if i < items.len() - 1 {
                    assert(items[i] == d[i]);
                }
            }
        }
        if forall|i: int| 0 <= i < items.len() ==> depth(#[trigger] items[i]) <= m {
            assert forall|i: int| 0 <= i < d.len() implies depth(#[trigger] d[i]) <= m by {
                assert(items[i] == d[i]);
            }
            assert(depth(items[items.len() - 1]) <= m);
        }
    }
}

pub proof fn lemma_depth_entries_bound(entries: Seq<(Seq<char>, Json)>, m: nat)
    ensures
        depth_entries(entries) <= m <==> forall|i: int| 0 <= i < entries.len() ==> depth(#[trigger] entries[i].1) <= m,
    decreases entries.len(),
{
    if entries.len() > 0 {
        let d = entries.drop_last();
        lemma_depth_entries_bound(d, m);
        if depth_entries(entries) <= m {
            assert forall|i: int| 0 <= i < entries.len() implies depth(#[trigger] entries[i].1) <= m by {
                if i < entries.len() - 1 {
                    assert(entries[i] == d[i]);
                }
            }
        }
        if forall|i: int| 0 <= i < entries.len() ==> depth(#[trigger] entries[i].1) <= m {
            assert forall|i: int| 0 <= i < d.len() implies depth(#[trigger] d[i].1) <= m by {
                assert(entries[i] == d[i]);
            }
            assert(depth(entries[entries.len() - 1].1) <= m);
        }
    }
}

/// Whether arrays and objects nest at most `limit` deep in `v`.
#[verifier::loop_isolation(false)]
pub fn depth_within(v: &JsonValue, limit: usize) -> (r: bool)
    ensures
        r == (depth(v@) <= limit),
    decreases v,
{
    match v {
        JsonValue::Array(items) => {
            if limit == 0 {
                return false;
            }
            let ghost iv = view_items(items@);
            proof {
                lemma_view_items(items@);
                lemma_depth_items_bound(iv, (limit - 1) as nat);
            }
            let mut i: usize = 0;
            while i < items.len()
                invariant
                    i <= items.len(),
                    limit > 0,
                    iv == view_items(items@),
                    iv.len() == items.len(),
                    forall|k: int| 0 <= k < iv.len() ==> #[trigger] iv[k] == view_json(items@[k]),
                    forall|k: int| 0 <= k < i ==> depth(#[trigger] iv[k]) <= limit - 1,
                decreases items.len() - i,
            {
                proof {
                    assert(decreases_to!(*v => *items));
                    assert(decreases_to!(*items => items@));
                    assert(decreases_to!(items@ => items@[i as int]));
                }
                if !depth_within(&items[i], limit - 1) {
                    assert(depth(iv[i as int]) > limit - 1);
                    return false;
                }
                i = i + 1;
            }
            true
        },
        JsonValue::Object(entries) => {
            if limit == 0 {
                return false;
            }
            let ghost ev = view_entries(entries@);
            proof {
                lemma_view_entries(entries@);
                lemma_depth_entries_bound(ev, (limit - 1) as nat);
            }
            let mut i: usize = 0;
            while i < entries.len()
                invariant
                    i <= entries.len(),
                    limit > 0,
                    ev == view_entries(entries@),
                    ev.len() == entries.len(),
                    forall|k: int| 0 <= k < ev.len() ==> #[trigger] ev[k] == (entries@[k].0@, view_json(entries@[k].1)),
                    forall|k: int| 0 <= k < i ==> depth(#[trigger] ev[k].1) <= limit - 1,
                decreases entries.len() - i,
            {
                proof {
                    assert(decreases_to!(*v => *entries));
                    assert(decreases_to!(*entries => entries@));
                    assert(decreases_to!(entries@ => entries@[i as int]));
                    assert(decreases_to!(entries@[i as int] => entries@[i as int].1));
                }
                if !depth_within(&entries[i].1, limit - 1) {
                    assert(depth(ev[i as int].1) > limit - 1);
                    return false;
                }
                i = i + 1;
            }
            true
        },
        _ => true,
    }
}

pub proof fn lemma_depth_item(items: Seq<Json>, i: int)
    requires
        0 <= i < items.len(),
    ensures
        depth(items[i]) <= depth_items(items),
    decreases items.len(),
{
    if i < items.len() - 1 {
        lemma_depth_item(items.drop_last(), i);
    }
}

pub proof fn lemma_depth_entry(entries: Seq<(Seq<char>, Json)>, i: int)
    requires
        0 <= i < entries.len(),
    ensures
        depth(entries[i].1) <= depth_entries(entries),
    decreases entries.len(),
{
    if i < entries.len() - 1 {
        lemma_depth_entry(entries.drop_last(), i);
    }
}

} // verus!
