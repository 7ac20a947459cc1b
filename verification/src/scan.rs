//! The pieces of `str` that request parsing uses — `split`, `split_once`,
//! `lines`, `trim`, `split_whitespace`, `eq_ignore_ascii_case` and
//! `parse::<usize>` — stated over characters.

use vstd::prelude::*;

use crate::command::{is_white, white};
use crate::text::{chars_of, push_char};

verus! {

/// `s.split(c)`: the pieces between the occurrences of `c` (always one more
/// than there are occurrences).
pub open spec fn split_char(s: Seq<char>, c: char) -> Seq<Seq<char>>
    decreases s.len(),
{
    if s.len() == 0 {
        seq![Seq::empty()]
    } else {
        let p = split_char(s.drop_last(), c);
        if s.last() == c {
            p.push(Seq::empty())
        } else {
            p.update(p.len() - 1, p.last().push(s.last()))
        }
    }
}

pub proof fn lemma_split_char_nonempty(s: Seq<char>, c: char)
    ensures
        split_char(s, c).len() >= 1,
    decreases s.len(),
{
    if s.len() > 0 {
        lemma_split_char_nonempty(s.drop_last(), c);
    }
}

/// The pieces of `s` between occurrences of `c` (see [`split_char`]).
pub fn split_text(s: &str, c: char) -> (r: Vec<String>)
    ensures
        r@.map_values(|t: String| t@) == split_char(s@, c),
{
    let cs = chars_of(s);
    let mut done: Vec<String> = Vec::new();
    let mut cur = String::new();
    let mut i: usize = 0;
    while i < cs.len()
        invariant
            i <= cs.len(),
            cs@ == s@,
            split_char(cs@.take(i as int), c) == done@.map_values(|t: String| t@).push(cur@),
        decreases cs.len() - i,
    {
        proof {
            lemma_split_char_nonempty(cs@.take(i as int), c);
        }
        assert(cs@.take(i + 1).drop_last() =~= cs@.take(i as int));
        let ghost before = done@.map_values(|t: String| t@);
        if cs[i] == c {
            let finished = cur;
            done.push(finished);
            cur = String::new();
            assert(done@.map_values(|t: String| t@) =~= before.push(finished@));
        } else {
            push_char(&mut cur, cs[i]);
            assert(before.push(cur@) =~= before.push(cur@.drop_last()).update(before.len() as int, cur@));
        }
        i = i + 1;
    }
    assert(cs@.take(cs.len() as int) =~= cs@);
    let ghost before = done@.map_values(|t: String| t@);
    done.push(cur);
    assert(done@.map_values(|t: String| t@) =~= before.push(done@.last()@));
    done
}

/// The index of the first `c` in `s`, if any.
pub open spec fn first_index_of(s: Seq<char>, c: char) -> Option<int>
    decreases s.len(),
{
    if s.len() == 0 {
        None
    } else if s[0] == c {
        Some(0)
    } else {
        match first_index_of(s.drop_first(), c) {
            Some(i) => Some(i + 1),
            None => None,
        }
    }
}

proof fn lemma_first_index_at(s: Seq<char>, c: char, i: int)
    requires
        0 <= i < s.len(),
        s[i] == c,
        forall|j: int| 0 <= j < i ==> s[j] != c,
    ensures
        first_index_of(s, c) == Some(i),
    decreases i,
{
    if i > 0 {
        lemma_first_index_at(s.drop_first(), c, i - 1);
    }
}

proof fn lemma_first_index_none(s: Seq<char>, c: char)
    requires
        forall|j: int| 0 <= j < s.len() ==> s[j] != c,
    ensures
        first_index_of(s, c) is None,
    decreases s.len(),
{
    if s.len() > 0 {
        lemma_first_index_none(s.drop_first(), c);
    }
}

/// `s.split_once(c)`: the text before and after the first `c`.
pub open spec fn split_once_char(s: Seq<char>, c: char) -> Option<(Seq<char>, Seq<char>)> {
    match first_index_of(s, c) {
        Some(i) => Some((s.take(i), s.skip(i + 1))),
        None => None,
    }
}

/// The text before and after the first `c` (see [`split_once_char`]).
pub fn split_once_text(s: &str, c: char) -> (r: Option<(String, String)>)
    ensures
        r is None <==> split_once_char(s@, c) is None,
        r matches Some(p) ==> split_once_char(s@, c) == Some((p.0@, p.1@)),
{
    let cs = chars_of(s);
    let mut i: usize = 0;
    while i < cs.len()
        invariant
            i <= cs.len(),
            cs@ == s@,
            forall|j: int| 0 <= j < i ==> cs@[j] != c,
        decreases cs.len() - i,
    {
        if cs[i] == c {
            proof {
                lemma_first_index_at(cs@, c, i as int);
            }
            let a = collect(&cs, 0, i);
            let b = collect(&cs, i + 1, cs.len());
            return Some((a, b));
        }
        i = i + 1;
    }
    proof {
        lemma_first_index_none(cs@, c);
    }
    None
}

/// The characters `cs[from..to]` as a `String`.
pub fn collect(cs: &Vec<char>, from: usize, to: usize) -> (r: String)
    requires
        from <= to <= cs.len(),
    ensures
        r@ == cs@.subrange(from as int, to as int),
{
    let mut out = String::new();
    let mut i = from;
    while i < to
        invariant
            from <= i <= to,
            to <= cs.len(),
            out@ == cs@.subrange(from as int, i as int),
        decreases to - i,
    {
        push_char(&mut out, cs[i]);
        assert(cs@.subrange(from as int, i + 1) =~= cs@.subrange(from as int, i as int).push(cs@[i as int]));
        i = i + 1;
    }
    out
}

/// A line of `str::lines` that a `\n` ended: one `\r` before it goes too.
pub open spec fn without_cr(s: Seq<char>) -> Seq<char> {
    if s.len() > 0 && s.last() == '\r' {
        s.drop_last()
    } else {
        s
    }
}

/// `s.lines()`: the pieces between `\n`s, each that a `\n` ended without a
/// trailing `\r`, and no empty piece after a final `\n`.
pub open spec fn lines_of(s: Seq<char>) -> Seq<Seq<char>> {
    let parts = split_char(s, '\n');
    let n = parts.len() as int;
    let ended = Seq::new((n - 1) as nat, |i: int| without_cr(parts[i]));
    if parts[n - 1].len() == 0 {
        ended
    } else {
        ended.push(parts[n - 1])
    }
}

/// The lines of `s` (see [`lines_of`]).
pub fn lines(s: &str) -> (r: Vec<String>)
    ensures
        r@.map_values(|t: String| t@) == lines_of(s@),
{
    let parts = split_text(s, '\n');
    let ghost pv = parts@.map_values(|t: String| t@);
    proof {
        lemma_split_char_nonempty(s@, '\n');
    }
    let n = parts.len();
    let mut out: Vec<String> = Vec::new();
    let mut i: usize = 0;
    while i + 1 < n
        invariant
            n == parts.len(),
            n >= 1,
            i + 1 <= n,
            pv == parts@.map_values(|t: String| t@),
            out@.map_values(|t: String| t@) == Seq::new(i as nat, |k: int| without_cr(pv[k])),
        decreases n - i,
    {
        let cs = chars_of(parts[i].as_str());
        let line = if cs.len() > 0 && cs[cs.len() - 1] == '\r' {
            collect(&cs, 0, cs.len() - 1)
        } else {
            collect(&cs, 0, cs.len())
        };
        let ghost before = out@.map_values(|t: String| t@);
        proof {
            assert(pv[i as int] == parts@[i as int]@);
            if cs@.len() > 0 && cs@.last() == '\r' {
                assert(cs@.subrange(0, cs@.len() - 1) =~= cs@.drop_last());
            } else {
                assert(cs@.subrange(0, cs@.len() as int) =~= cs@);
            }
            assert(line@ == without_cr(pv[i as int]));
        }
        out.push(line);
        assert(out@.map_values(|t: String| t@) =~= before.push(line@));
        assert(out@.map_values(|t: String| t@) =~= Seq::new((i + 1) as nat, |k: int| without_cr(pv[k])));
        i = i + 1;
    }
    if chars_of(parts[n - 1].as_str()).len() > 0 {
        let ghost before = out@.map_values(|t: String| t@);
        out.push(parts[n - 1].clone());
        assert(out@.map_values(|t: String| t@) =~= before.push(pv[n - 1]));
    }
    out
}

/// `s.trim_start()`.
pub open spec fn trim_start(s: Seq<char>) -> Seq<char>
    decreases s.len(),
{
    if s.len() > 0 && is_white(s[0]) {
        trim_start(s.drop_first())
    } else {
        s
    }
}

/// `s.trim_end()`.
pub open spec fn trim_end(s: Seq<char>) -> Seq<char>
    decreases s.len(),
{
    if s.len() > 0 && is_white(s.last()) {
        trim_end(s.drop_last())
    } else {
        s
    }
}

/// `s.trim()`.
pub open spec fn trimmed(s: Seq<char>) -> Seq<char> {
    trim_end(trim_start(s))
}

proof fn lemma_trim_start_at(s: Seq<char>, i: int)
    requires
        0 <= i <= s.len(),
        forall|j: int| 0 <= j < i ==> is_white(#[trigger] s[j]),
        i < s.len() ==> !is_white(s[i]),
    ensures
        trim_start(s) == s.skip(i),
    decreases i,
{
    if i > 0 {
        assert forall|j: int| 0 <= j < i - 1 implies is_white(#[trigger] s.drop_first()[j]) by {
            assert(s.drop_first()[j] == s[j + 1]);
        }
        lemma_trim_start_at(s.drop_first(), i - 1);
        assert(s.drop_first().skip(i - 1) =~= s.skip(i));
    } else {
        assert(s.skip(0) =~= s);
    }
}

proof fn lemma_trim_end_at(s: Seq<char>, k: int)
    requires
        0 <= k <= s.len(),
        forall|j: int| k <= j < s.len() ==> is_white(#[trigger] s[j]),
        k > 0 ==> !is_white(s[k - 1]),
    ensures
        trim_end(s) == s.take(k),
    decreases s.len() - k,
{
    if k < s.len() {
        assert forall|j: int| k <= j < s.drop_last().len() implies is_white(#[trigger] s.drop_last()[j]) by {
            assert(s.drop_last()[j] == s[j]);
        }
        lemma_trim_end_at(s.drop_last(), k);
        assert(s.drop_last().take(k) =~= s.take(k));
    } else {
        assert(s.take(k) =~= s);
    }
}

/// `s.trim()` as a `String`.
pub fn trim(s: &str) -> (r: String)
    ensures
        r@ == trimmed(s@),
{
    let cs = chars_of(s);
    let mut a: usize = 0;
    while a < cs.len() && white(cs[a])
        invariant
            a <= cs.len(),
            cs@ == s@,
            forall|j: int| 0 <= j < a ==> is_white(#[trigger] cs@[j]),
        decreases cs.len() - a,
    {
        a = a + 1;
    }
    proof {
        lemma_trim_start_at(cs@, a as int);
    }
    let mut b: usize = cs.len();
    while b > a && white(cs[b - 1])
        invariant
            a <= b <= cs.len(),
            cs@ == s@,
            forall|j: int| b <= j < cs.len() ==> is_white(#[trigger] cs@[j]),
        decreases b,
    {
        b = b - 1;
    }
    proof {
        let t = cs@.skip(a as int);
        assert forall|j: int| (b - a) <= j < t.len() implies is_white(#[trigger] t[j]) by {
            assert(t[j] == cs@[a + j]);
        }
        if b > a {
            assert(t[b - a - 1] == cs@[b - 1]);
        }
        lemma_trim_end_at(t, (b - a) as int);
        assert(t.take((b - a) as int) =~= cs@.subrange(a as int, b as int));
    }
    collect(&cs, a, b)
}

/// Where the first word of `t` ends: its first white space, or its end.
pub open spec fn word_end(t: Seq<char>) -> int
    decreases t.len(),
{
    if t.len() == 0 || is_white(t[0]) {
        0
    } else {
        1 + word_end(t.drop_first())
    }
}

/// The first item of `s.split_whitespace()`, or nothing (empty) when there is none.
pub open spec fn first_word(s: Seq<char>) -> Seq<char> {
    let t = trim_start(s);
    t.take(word_end(t))
}

/// What follows the first word of `s`.
pub open spec fn after_first_word(s: Seq<char>) -> Seq<char> {
    let t = trim_start(s);
    t.skip(word_end(t))
}

proof fn lemma_word_end_at(t: Seq<char>, k: int)
    requires
        0 <= k <= t.len(),
        forall|j: int| 0 <= j < k ==> !is_white(#[trigger] t[j]),
        k < t.len() ==> is_white(t[k]),
    ensures
        word_end(t) == k,
    decreases k,
{
    if k > 0 {
        assert forall|j: int| 0 <= j < k - 1 implies !is_white(#[trigger] t.drop_first()[j]) by {
            assert(t.drop_first()[j] == t[j + 1]);
        }
        lemma_word_end_at(t.drop_first(), k - 1);
    }
}

/// The first word of `s` and what follows it (see [`first_word`]).
pub fn split_first_word(s: &str) -> (r: (String, String))
    ensures
        r.0@ == first_word(s@),
        r.1@ == after_first_word(s@),
{
    let cs = chars_of(s);
    let mut a: usize = 0;
    while a < cs.len() && white(cs[a])
        invariant
            a <= cs.len(),
            cs@ == s@,
            forall|j: int| 0 <= j < a ==> is_white(#[trigger] cs@[j]),
        decreases cs.len() - a,
    {
        a = a + 1;
    }
    proof {
        lemma_trim_start_at(cs@, a as int);
    }
    let mut b: usize = a;
    while b < cs.len() && !white(cs[b])
        invariant
            a <= b <= cs.len(),
            cs@ == s@,
            forall|j: int| a <= j < b ==> !is_white(#[trigger] cs@[j]),
        decreases cs.len() - b,
    {
        b = b + 1;
    }
    proof {
        let t = cs@.skip(a as int);
        assert forall|j: int| 0 <= j < (b - a) implies !is_white(#[trigger] t[j]) by {
            assert(t[j] == cs@[a + j]);
        }
        if b < cs.len() {
            assert(t[b - a] == cs@[b as int]);
        }
        lemma_word_end_at(t, (b - a) as int);
        assert(t.take((b - a) as int) =~= cs@.subrange(a as int, b as int));
        assert(t.skip((b - a) as int) =~= cs@.subrange(b as int, cs@.len() as int));
    }
    (collect(&cs, a, b), collect(&cs, b, cs.len()))
}

pub open spec fn ascii_lower(c: char) -> char {
    if 'A' <= c && c <= 'Z' {
        ((c as int) + 32) as char
    } else {
        c
    }
}

/// `a.eq_ignore_ascii_case(b)`.
pub open spec fn same_ignoring_ascii_case(a: Seq<char>, b: Seq<char>) -> bool {
    a.len() == b.len() && forall|i: int| 0 <= i < a.len() ==> ascii_lower(#[trigger] a[i]) == ascii_lower(b[i])
}

/// The code point of `c.to_ascii_lowercase()`.
pub fn lower(c: char) -> (r: u32)
    ensures
        r as int == ascii_lower(c) as int,
{
    let n = crate::text::code_point(c);
    if 65 <= n && n <= 90 {
        n + 32
    } else {
        n
    }
}

/// Whether `a` and `b` match up to ASCII case (see [`same_ignoring_ascii_case`]).
pub fn eq_ignore_ascii_case(a: &str, b: &str) -> (r: bool)
    ensures
        r == same_ignoring_ascii_case(a@, b@),
{
    let x = chars_of(a);
    let y = chars_of(b);
    if x.len() != y.len() {
        return false;
    }
    let mut i: usize = 0;
    while i < x.len()
        invariant
            i <= x.len(),
            x.len() == y.len(),
            x@ == a@,
            y@ == b@,
            forall|j: int| 0 <= j < i ==> ascii_lower(#[trigger] x@[j]) == ascii_lower(y@[j]),
        decreases x.len() - i,
    {
        if lower(x[i]) != lower(y[i]) {
            return false;
        }
        i = i + 1;
    }
    true
}

pub open spec fn is_digit(c: char) -> bool {
    '0' <= c && c <= '9'
}

/// The number that a run of decimal digits denotes.
pub open spec fn digits_value(s: Seq<char>) -> nat
    decreases s.len(),
{
    if s.len() == 0 {
        0
    } else {
        digits_value(s.drop_last()) * 10 + ((s.last() as int) - ('0' as int)) as nat
    }
}

/// `s.parse::<usize>()`: an optional `+`, then one or more decimal digits
/// whose value fits in a `usize`.
pub open spec fn parsed_usize(s: Seq<char>) -> Option<nat> {
    let d = digits_part(s);
    if d.len() > 0 && all_digits(d) && digits_value(d) <= usize::MAX {
        Some(digits_value(d))
    } else {
        None
    }
}

/// `s` without one leading `+`.
pub open spec fn digits_part(s: Seq<char>) -> Seq<char> {
    if s.len() > 0 && s[0] == '+' {
        s.drop_first()
    } else {
        s
    }
}

pub open spec fn all_digits(d: Seq<char>) -> bool {
    forall|i: int| 0 <= i < d.len() ==> is_digit(#[trigger] d[i])
}

proof fn lemma_digits_grow(s: Seq<char>, i: int)
    requires
        0 <= i <= s.len(),
        forall|j: int| 0 <= j < s.len() ==> is_digit(#[trigger] s[j]),
    ensures
        digits_value(s.take(i)) <= digits_value(s),
    decreases s.len() - i,
{
    if i < s.len() {
        lemma_digits_grow(s, i + 1);
        assert(s.take(i + 1).drop_last() =~= s.take(i));
    } else {
        assert(s.take(i) =~= s);
    }
}

/// The `usize` that `s` denotes, if any (see [`parsed_usize`]).
#[verifier::loop_isolation(false)]
pub fn parse_usize(s: &str) -> (r: Option<usize>)
    ensures
        r is None <==> parsed_usize(s@) is None,
        r matches Some(n) ==> parsed_usize(s@) == Some(n as nat),
{
    let cs = chars_of(s);
    let start: usize = if cs.len() > 0 && cs[0] == '+' { 1 } else { 0 };
    let ghost d = digits_part(s@);
    assert(d =~= cs@.skip(start as int));
    if start == cs.len() {
        return None;
    }
    let mut value: usize = 0;
    let mut i: usize = start;
    while i < cs.len()
        invariant
            start <= i <= cs.len(),
            cs@ == s@,
            d == cs@.skip(start as int),
            forall|j: int| 0 <= j < i - start ==> is_digit(#[trigger] d[j]),
            value as nat == digits_value(d.take(i - start)),
        decreases cs.len() - i,
    {
        let c = cs[i];
        assert(d[i - start] == c);
        if !('0' <= c && c <= '9') {
            assert(!is_digit(d[(i - start) as int]));
            assert(0 <= i - start < d.len());
            assert(!all_digits(d));
            return None;
        }
        assert(d.take(i - start + 1).drop_last() =~= d.take(i - start));
        assert(d.take(i - start + 1).last() == c);
        let digit = crate::text::code_point(c) - 48;
        let next = match value.checked_mul(10) {
            Some(v) => v.checked_add(digit as usize),
            None => None,
        };
        match next {
            Some(v) => value = v,
            None => {
                proof {
                    assert(digits_value(d.take(i - start + 1)) == value * 10 + (c as int - '0' as int));
                    if all_digits(d) {
                        lemma_digits_grow(d, i - start + 1);
                    }
                }
                return None;
            },
        }
        i = i + 1;
    }
    assert(d.take(i - start) =~= d);
    Some(value)
}

} // verus!
