//! The language file beside the executable: its shape, how a user's file is
//! merged with the built-in catalog, how it is written back, and what the
//! window chrome and the dashboard read from it.

use vstd::prelude::*;

use crate::json::{
    text_lt, entries_get, entries_has, entries_set, entries_slot, find_entry, lemma_entries_get_none, lemma_set_then_get,
    lemma_slot_bound, lemma_view_entries,
    set_entry, view_entries, view_json, Json, JsonValue,
};
use crate::jsontext::{
    compact, depth, depth_entries, depth_within, lemma_depth_entries_bound, lemma_depth_entry, pretty,
    write_compact, write_pretty,
};
use crate::order::{keys_sorted, lemma_set_keeps_sorted};
use crate::text::{
    chars_of, html_escape, html_escaped, push_char, push_text, replace_text, replaced, same_text,
};

verus! {

/// The language codes that ship with the program, in the order the file and
/// the language cycle list them.
pub open spec fn builtin_order() -> Seq<Seq<char>> {
    seq!["zh_TW"@, "zh_CN"@, "ja_JP"@, "en_US"@]
}

/// A language table that every reader accepts: an object of texts whose
/// `language_name` is a non-empty text.
pub open spec fn valid_table(t: Json) -> bool {
    match t {
        Json::Object(e) => {
            &&& forall|j: int| 0 <= j < e.len() ==> (#[trigger] e[j]).1 is Str
            &&& match entries_get(e, "language_name"@) {
                Some(Json::Str(s)) => s.len() > 0,
                _ => false,
            }
        },
        _ => false,
    }
}

/// Whether a parsed file is usable as it stands: an object whose `settings`
/// object names a non-empty current language that `languages` (a non-empty
/// object of valid tables) holds.
pub open spec fn is_valid(root: Json) -> bool {
    match root {
        Json::Object(obj) => match entries_get(obj, "settings"@) {
            Some(Json::Object(settings)) => match entries_get(settings, "languages"@) {
                Some(Json::Str(current)) => {
                    &&& current.len() > 0
                    &&& match entries_get(obj, "languages"@) {
                        Some(Json::Object(langs)) => {
                            &&& langs.len() > 0
                            &&& entries_has(langs, current)
                            &&& forall|i: int| 0 <= i < langs.len() ==> valid_table(#[trigger] langs[i].1)
                        },
                        _ => false,
                    }
                },
                _ => false,
            },
            _ => false,
        },
        _ => false,
    }
}

#[verifier::loop_isolation(false)]
fn table_ok(t: &JsonValue) -> (r: bool)
    ensures
        r == valid_table(t@),
{
    let e = match t.as_entries() {
        Some(e) => e,
        None => return false,
    };
    proof {
        lemma_view_entries(e@);
    }
    let ghost ev = view_entries(e@);
    let mut j: usize = 0;
    while j < e.len()
        invariant
            j <= e.len(),
            ev == view_entries(e@),
            ev.len() == e.len(),
            forall|k: int| 0 <= k < ev.len() ==> #[trigger] ev[k] == (e@[k].0@, view_json(e@[k].1)),
            forall|k: int| 0 <= k < j ==> (#[trigger] ev[k]).1 is Str,
        decreases e.len() - j,
    {
        if e[j].1.as_text().is_none() {
            assert(!(ev[j as int].1 is Str));
            return false;
        }
        j = j + 1;
    }
    match find_entry(e, "language_name") {
        Some(i) => match e[i].1.as_text() {
            Some(s) => !s.as_str().is_empty(),
            None => false,
        },
        None => false,
    }
}

/// Whether `root` is a usable language file (see [`is_valid`]).
#[verifier::loop_isolation(false)]
pub fn validate(root: &JsonValue) -> (r: bool)
    ensures
        r == is_valid(root@),
{
    let obj = match root.as_entries() {
        Some(o) => o,
        None => return false,
    };
    let settings = match find_entry(obj, "settings") {
        Some(i) => match obj[i].1.as_entries() {
            Some(s) => s,
            None => return false,
        },
        None => return false,
    };
    let current = match find_entry(settings, "languages") {
        Some(i) => match settings[i].1.as_text() {
            Some(c) => c,
            None => return false,
        },
        None => return false,
    };
    if current.as_str().is_empty() {
        return false;
    }
    let langs = match find_entry(obj, "languages") {
        Some(i) => match obj[i].1.as_entries() {
            Some(l) => l,
            None => return false,
        },
        None => return false,
    };
    if langs.len() == 0 {
        proof { lemma_view_entries(langs@); }
        return false;
    }
    if find_entry(langs, current.as_str()).is_none() {
        return false;
    }
    proof {
        lemma_view_entries(langs@);
    }
    let ghost lv = view_entries(langs@);
    let mut i: usize = 0;
    while i < langs.len()
        invariant
            i <= langs.len(),
            lv == view_entries(langs@),
            lv.len() == langs.len(),
            forall|k: int| 0 <= k < lv.len() ==> #[trigger] lv[k] == (langs@[k].0@, view_json(langs@[k].1)),
            forall|k: int| 0 <= k < i ==> valid_table(#[trigger] lv[k].1),
        decreases langs.len() - i,
    {
        if !table_ok(&langs[i].1) {
            assert(lv[i as int].1 == langs@[i as int].1@);
            assert(!valid_table(lv[i as int].1));
            return false;
        }
        i = i + 1;
    }
    true
}


/// `root["settings"]["languages"]` as the file holds it, if at all.
pub open spec fn current_entry(root: Json) -> Option<Json> {
    match root.get("settings"@) {
        Some(s) => s.get("languages"@),
        None => None,
    }
}

/// The current language code: `settings.languages` when it is a text, else
/// `zh_TW`.
pub open spec fn current_code_of(root: Json) -> Seq<char> {
    match current_entry(root) {
        Some(Json::Str(c)) => c,
        _ => "zh_TW"@,
    }
}

/// `root["languages"][lang][key]` when it is a text.
pub open spec fn table_text(root: Json, lang: Seq<char>, key: Seq<char>) -> Option<Seq<char>> {
    match root.get("languages"@) {
        Some(langs) => match langs.get(lang) {
            Some(table) => match table.get(key) {
                Some(Json::Str(s)) => Some(s),
                _ => None,
            },
            None => None,
        },
        None => None,
    }
}

/// The text shown for `key`: the current language, then Traditional Chinese,
/// then English, then the key itself.
pub open spec fn translate(root: Json, key: Seq<char>) -> Seq<char> {
    match table_text(root, current_code_of(root), key) {
        Some(s) => s,
        None => match table_text(root, "zh_TW"@, key) {
            Some(s) => s,
            None => match table_text(root, "en_US"@, key) {
                Some(s) => s,
                None => key,
            },
        },
    }
}

/// The page locale for a language code: the built-in codes map to their
/// browser tags, any other code has each `_` turned into `-`.
pub open spec fn locale_of(code: Seq<char>) -> Seq<char> {
    if code == "zh_TW"@ {
        "zh-TW"@
    } else if code == "zh_CN"@ {
        "zh-CN"@
    } else if code == "ja_JP"@ {
        "ja"@
    } else if code == "en_US"@ {
        "en"@
    } else {
        code.map_values(|c: char| if c == '_' { '-' } else { c })
    }
}

pub open spec fn is_builtin(code: Seq<char>) -> bool {
    code == "zh_TW"@ || code == "zh_CN"@ || code == "ja_JP"@ || code == "en_US"@
}

/// The entries of `root["languages"]` when it is an object.
pub open spec fn languages_of(root: Json) -> Option<Seq<(Seq<char>, Json)>> {
    match root.get("languages"@) {
        Some(Json::Object(e)) => Some(e),
        _ => None,
    }
}

/// The built-in codes among the first `n` of [`builtin_order`] that `langs` holds.
pub open spec fn builtins_held(langs: Seq<(Seq<char>, Json)>, n: nat) -> Seq<Seq<char>>
    decreases n,
{
    if n == 0 {
        Seq::empty()
    } else {
        let prev = builtins_held(langs, (n - 1) as nat);
        if entries_has(langs, builtin_order()[n - 1]) {
            prev.push(builtin_order()[n - 1])
        } else {
            prev
        }
    }
}

/// The keys of `langs` that are not built-in codes, in entry order, which is
/// ascending order of the codes in a file kept in order (see
/// [`lemma_custom_codes_ascending`]).
pub open spec fn custom_codes(langs: Seq<(Seq<char>, Json)>) -> Seq<Seq<char>>
    decreases langs.len(),
{
    if langs.len() == 0 {
        Seq::empty()
    } else {
        let prev = custom_codes(langs.drop_last());
        if is_builtin(langs.last().0) {
            prev
        } else {
            prev.push(langs.last().0)
        }
    }
}

/// The order in which the tray and the dashboard cycle languages: the
/// built-in codes the file holds, then its own codes (see [`custom_codes`]).
pub open spec fn cycle_order(root: Json) -> Seq<Seq<char>> {
    match languages_of(root) {
        Some(langs) => builtins_held(langs, 4) + custom_codes(langs),
        None => Seq::empty(),
    }
}

/// The first index of `code` in `codes`, if any.
pub open spec fn index_of(codes: Seq<Seq<char>>, code: Seq<char>) -> Option<nat>
    decreases codes.len(),
{
    if codes.len() == 0 {
        None
    } else if codes[0] == code {
        Some(0)
    } else {
        match index_of(codes.drop_first(), code) {
            Some(i) => Some(i + 1),
            None => None,
        }
    }
}

proof fn lemma_index_of_at(codes: Seq<Seq<char>>, code: Seq<char>, i: int)
    requires
        0 <= i < codes.len(),
        codes[i] == code,
        forall|j: int| 0 <= j < i ==> codes[j] != code,
    ensures
        index_of(codes, code) == Some(i as nat),
    decreases i,
{
    if i > 0 {
        lemma_index_of_at(codes.drop_first(), code, i - 1);
    }
}

proof fn lemma_index_of_none(codes: Seq<Seq<char>>, code: Seq<char>)
    requires
        forall|j: int| 0 <= j < codes.len() ==> codes[j] != code,
    ensures
        index_of(codes, code) is None,
    decreases codes.len(),
{
    if codes.len() > 0 {
        lemma_index_of_none(codes.drop_first(), code);
    }
}

/// The file after `root["settings"]["languages"] = code`, where `root` and
/// its `settings` are objects (or absent, or null, which become objects).
pub open spec fn with_current(root: Json, code: Seq<char>) -> Json {
    let re = match root {
        Json::Object(e) => e,
        _ => Seq::empty(),
    };
    let se = match entries_get(re, "settings"@) {
        Some(Json::Object(e)) => e,
        _ => Seq::empty(),
    };
    Json::Object(entries_set(re, "settings"@, Json::Object(entries_set(se, "languages"@, Json::Str(code)))))
}

/// The file after one step of the language cycle: the code after the current
/// one in [`cycle_order`] (the first one when the current code is not
/// there) becomes current. Nothing changes when there is no language.
pub open spec fn cycled(root: Json) -> Json {
    let codes = cycle_order(root);
    if codes.len() == 0 {
        root
    } else {
        let idx = match index_of(codes, current_code_of(root)) {
            Some(i) => i as int,
            None => 0,
        };
        with_current(root, codes[(idx + 1) % (codes.len() as int)])
    }
}

/// The shape that writing `root["settings"]["languages"]` needs: an object
/// whose `settings` member is an object.
pub open spec fn has_settings_object(root: Json) -> bool {
    match root {
        Json::Object(e) => entries_get(e, "settings"@) matches Some(Json::Object(_)),
        _ => false,
    }
}

pub proof fn lemma_with_current_keeps_shape(root: Json, code: Seq<char>)
    ensures
        has_settings_object(with_current(root, code)),
        current_code_of(with_current(root, code)) == code,
        current_entry(with_current(root, code)) == Some(Json::Str(code)),
        (root is Object || root is Null) ==> with_current(root, code).get("languages"@) == root.get("languages"@),
{
    let re = match root {
        Json::Object(e) => e,
        _ => Seq::empty(),
    };
    let se = match entries_get(re, "settings"@) {
        Some(Json::Object(e)) => e,
        _ => Seq::empty(),
    };
    let ns = Json::Object(entries_set(se, "languages"@, Json::Str(code)));
    lemma_set_then_get(re, "settings"@, ns, "languages"@);
    lemma_set_then_get(se, "languages"@, Json::Str(code), "languages"@);
    reveal_strlit("settings");
    reveal_strlit("languages");
    assert("settings"@ != "languages"@) by {
        assert("settings"@.len() != "languages"@.len());
    }
}

pub(crate) fn lit(s: &str) -> (r: String)
    ensures
        r@ == s@,
{
    s.to_owned()
}

/// Whether `root["settings"]["languages"] = ...` can be written: `root` is
/// null or an object, and its `settings` member, if any, is null or an object.
pub open spec fn settings_writable(root: Json) -> bool {
    match root {
        Json::Null => true,
        Json::Object(e) => match entries_get(e, "settings"@) {
            None => true,
            Some(Json::Null) => true,
            Some(Json::Object(_)) => true,
            _ => false,
        },
        _ => false,
    }
}

/// `root["settings"]["languages"] = code`.
pub(crate) fn set_current(root: &JsonValue, code: String) -> (r: JsonValue)
    requires
        settings_writable(root@),
    ensures
        r@ == with_current(root@, code@),
{
    let mut re: Vec<(String, JsonValue)> = match root {
        JsonValue::Object(e) => copy_entries(e),
        _ => Vec::new(),
    };
    proof {
        lemma_view_entries(re@);
    }
    let mut se: Vec<(String, JsonValue)> = match find_entry(&re, "settings") {
        Some(i) => match &re[i].1 {
            JsonValue::Object(s) => copy_entries(s),
            _ => Vec::new(),
        },
        None => Vec::new(),
    };
    proof {
        lemma_view_entries(se@);
    }
    set_entry(&mut se, lit("languages"), JsonValue::Str(code));
    set_entry(&mut re, lit("settings"), JsonValue::Object(se));
    JsonValue::Object(re)
}

/// The ordered language codes the tray and dashboard cycle through (see
/// [`cycle_order`]).
pub fn cycle_codes(root: &JsonValue) -> (r: Vec<String>)
    ensures
        r@.map_values(|s: String| s@) == cycle_order(root@),
{
    let langs = match root.get("languages") {
        Some(l) => match l.as_entries() {
            Some(e) => e,
            None => {
                let r: Vec<String> = Vec::new();
                assert(r@.map_values(|s: String| s@) =~= Seq::<Seq<char>>::empty());
                return r;
            },
        },
        None => {
            let r: Vec<String> = Vec::new();
            assert(r@.map_values(|s: String| s@) =~= Seq::<Seq<char>>::empty());
            return r;
        },
    };
    let ghost lv = view_entries(langs@);
    proof {
        lemma_view_entries(langs@);
    }
    let order: [&str; 4] = ["zh_TW", "zh_CN", "ja_JP", "en_US"];
    let mut out: Vec<String> = Vec::new();
    let mut n: usize = 0;
    while n < 4
        invariant
            n <= 4,
            lv == view_entries(langs@),
            order@.len() == 4,
            order@[0]@ == "zh_TW"@,
            order@[1]@ == "zh_CN"@,
            order@[2]@ == "ja_JP"@,
            order@[3]@ == "en_US"@,
            out@.map_values(|s: String| s@) == builtins_held(lv, n as nat),
        decreases 4 - n,
    {
        let ghost prev = out@;
        assert(order@[n as int]@ == builtin_order()[n as int]);
        if find_entry(langs, order[n]).is_some() {
            out.push(lit(order[n]));
            assert(out@.map_values(|s: String| s@) =~= prev.map_values(|s: String| s@).push(order@[n as int]@));
        }
        n = n + 1;
    }
    let ghost base = out@.map_values(|s: String| s@);
    let mut i: usize = 0;
    while i < langs.len()
        invariant
            i <= langs.len(),
            lv == view_entries(langs@),
            lv.len() == langs.len(),
            forall|k: int| 0 <= k < lv.len() ==> #[trigger] lv[k] == (langs@[k].0@, view_json(langs@[k].1)),
            out@.map_values(|s: String| s@) == base + custom_codes(lv.take(i as int)),
        decreases langs.len() - i,
    {
        let ghost prev = out@;
        assert(lv.take(i + 1).drop_last() =~= lv.take(i as int));
        let k = &langs[i].0;
        if !(same_text(k.as_str(), "zh_TW") || same_text(k.as_str(), "zh_CN") || same_text(k.as_str(), "ja_JP")
            || same_text(k.as_str(), "en_US")) {
            out.push(k.clone());
            assert(out@.map_values(|s: String| s@) =~= prev.map_values(|s: String| s@).push(k@));
        }
        i = i + 1;
    }
    assert(lv.take(langs.len() as int) =~= lv);
    out
}

pub(crate) fn copy_entries(e: &Vec<(String, JsonValue)>) -> (r: Vec<(String, JsonValue)>)
    ensures
        view_entries(r@) == view_entries(e@),
{
    let mut out: Vec<(String, JsonValue)> = Vec::new();
    let mut i: usize = 0;
    while i < e.len()
        invariant
            i <= e.len(),
            out.len() == i,
            forall|j: int| 0 <= j < i ==> #[trigger] out@[j].0@ == e@[j].0@,
            forall|j: int| 0 <= j < i ==> #[trigger] view_json(out@[j].1) == view_json(e@[j].1),
        decreases e.len() - i,
    {
        out.push((e[i].0.clone(), e[i].1.copy()));
        i = i + 1;
    }
    proof {
        lemma_view_entries(out@);
        lemma_view_entries(e@);
        assert(view_entries(out@) =~= view_entries(e@));
    }
    out
}


/// The language settings in use: a file whose `settings` member is an object.
pub struct GuiConfig {
    value: JsonValue,
}

impl View for GuiConfig {
    type V = Json;

    closed spec fn view(&self) -> Json {
        self.value@
    }
}

/// `root["languages"][lang][key]` when it is a text.
fn table_get(root: &JsonValue, lang: &str, key: &str) -> (r: Option<String>)
    ensures
        r matches Some(s) ==> table_text(root@, lang@, key@) == Some(s@),
        r is None <==> table_text(root@, lang@, key@) is None,
{
    let langs = root.get("languages")?;
    let table = langs.get(lang)?;
    let v = table.get(key)?;
    match v.as_text() {
        Some(s) => Some(s.clone()),
        None => None,
    }
}

impl GuiConfig {
    #[verifier::type_invariant]
    closed spec fn inv(self) -> bool {
        &&& has_settings_object(self.value@)
        &&& depth(self.value@) <= MAX_NESTING
    }

    /// A configuration over `value` when it is a usable language file.
    pub fn from_value(value: JsonValue) -> (r: Option<GuiConfig>)
        ensures
            r is Some <==> is_valid(value@) && depth(value@) <= MAX_NESTING,
            r matches Some(c) ==> c@ == value@,
    {
        if validate(&value) && depth_within(&value, MAX_NESTING) {
            Some(GuiConfig { value })
        } else {
            None
        }
    }

    /// The file as it stands.
    pub fn value(&self) -> (r: &JsonValue)
        ensures
            r@ == self@,
    {
        &self.value
    }

    /// The current language code.
    pub fn current_code(&self) -> (r: &str)
        ensures
            r@ == current_code_of(self@),
    {
        let cur = match self.value.get("settings") {
            Some(s) => match s.get("languages") {
                Some(l) => l.as_text(),
                None => None,
            },
            None => None,
        };
        match cur {
            Some(c) => c.as_str(),
            None => "zh_TW",
        }
    }

    /// The text for `key` (see [`translate`]).
    pub fn t(&self, key: &str) -> (r: String)
        ensures
            r@ == translate(self@, key@),
    {
        if let Some(s) = table_get(&self.value, self.current_code(), key) {
            return s;
        }
        if let Some(s) = table_get(&self.value, "zh_TW", key) {
            return s;
        }
        if let Some(s) = table_get(&self.value, "en_US", key) {
            return s;
        }
        key.to_owned()
    }

    /// The page locale of the current language (see [`locale_of`]).
    pub fn js_locale(&self) -> (r: String)
        ensures
            r@ == locale_of(current_code_of(self@)),
    {
        let code = self.current_code();
        if same_text(code, "zh_TW") {
            return lit("zh-TW");
        }
        if same_text(code, "zh_CN") {
            return lit("zh-CN");
        }
        if same_text(code, "ja_JP") {
            return lit("ja");
        }
        if same_text(code, "en_US") {
            return lit("en");
        }
        let cs = chars_of(code);
        let mut out = String::new();
        let mut i: usize = 0;
        while i < cs.len()
            invariant
                i <= cs.len(),
                cs@ == code@,
                out@ == cs@.take(i as int).map_values(|c: char| if c == '_' { '-' } else { c }),
            decreases cs.len() - i,
        {
            let c = cs[i];
            push_char(&mut out, if c == '_' { '-' } else { c });
            assert(cs@.take(i + 1) =~= cs@.take(i as int).push(c));
            assert(out@ =~= cs@.take(i + 1).map_values(|c: char| if c == '_' { '-' } else { c }));
            i = i + 1;
        }
        assert(cs@.take(cs.len() as int) =~= cs@);
        out
    }

    /// Moves to the next language of the cycle (see [`cycled`]).
    pub fn cycle(&mut self)
        ensures
            final(self)@ == cycled(old(self)@),
            ordered_file(old(self)@) ==> ordered_file(final(self)@),
    {
        proof {
            use_type_invariant(&*self);
        }
        let codes = cycle_codes(&self.value);
        if codes.len() == 0 {
            assert(codes@.map_values(|s: String| s@).len() == 0);
            return;
        }
        let ghost cv = codes@.map_values(|s: String| s@);
        let cur = self.current_code();
        let mut idx: usize = 0;
        let mut found = false;
        while idx < codes.len()
            invariant_except_break
                !found,
            invariant
                idx <= codes.len(),
                cv == codes@.map_values(|s: String| s@),
                cv.len() == codes.len(),
                forall|j: int| 0 <= j < idx ==> cv[j] != cur@,
            ensures
                found ==> idx < codes.len() && cv[idx as int] == cur@,
                !found ==> idx == codes.len(),
            decreases codes.len() - idx,
        {
            if same_text(codes[idx].as_str(), cur) {
                found = true;
                break;
            }
            idx = idx + 1;
        }
        proof {
            if found {
                lemma_index_of_at(cv, cur@, idx as int);
            } else {
                lemma_index_of_none(cv, cur@);
            }
        }
        if !found {
            idx = 0;
        }
        let next = codes[(idx + 1) % codes.len()].clone();
        let new_value = set_current(&self.value, next);
        proof {
            lemma_with_current_keeps_shape(self.value@, next@);
            lemma_with_current_depth(self.value@, next@);
            if ordered_file(self.value@) {
                lemma_with_current_keeps_order(self.value@, next@);
            }
        }
        self.value = new_value;
    }
}


/// How deeply a configuration may nest: as deep as the indentation of its
/// written text can be counted in a `usize` (two spaces per level, under a
/// block already indented by six).
pub const MAX_NESTING: usize = (usize::MAX - 6) / 2;

/// One language block of the file: `    "code": table` with the table's
/// lines indented under it. The code is written as it is.
pub open spec fn lang_block(code: Seq<char>, table: Json) -> Seq<char> {
    "    \""@ + code + "\": "@ + pretty(table, 4)
}

/// The blocks of the built-in languages among the first `n` of
/// [`builtin_order`] that `langs` holds.
pub open spec fn builtin_blocks(langs: Seq<(Seq<char>, Json)>, n: nat) -> Seq<Seq<char>>
    decreases n,
{
    if n == 0 {
        Seq::empty()
    } else {
        let prev = builtin_blocks(langs, (n - 1) as nat);
        match entries_get(langs, builtin_order()[n - 1]) {
            Some(t) => prev.push(lang_block(builtin_order()[n - 1], t)),
            None => prev,
        }
    }
}

/// The blocks of the languages that are not built in, in the order of
/// [`custom_codes`].
pub open spec fn custom_blocks(langs: Seq<(Seq<char>, Json)>) -> Seq<Seq<char>>
    decreases langs.len(),
{
    if langs.len() == 0 {
        Seq::empty()
    } else {
        let prev = custom_blocks(langs.drop_last());
        if is_builtin(langs.last().0) {
            prev
        } else {
            prev.push(lang_block(langs.last().0, langs.last().1))
        }
    }
}

/// `parts.join(sep)`.
pub open spec fn joined(parts: Seq<Seq<char>>, sep: Seq<char>) -> Seq<char>
    decreases parts.len(),
{
    if parts.len() == 0 {
        Seq::empty()
    } else if parts.len() == 1 {
        parts[0]
    } else {
        joined(parts.drop_last(), sep) + sep + parts.last()
    }
}

/// The members of the file other than `settings` and `languages`, each as
/// `,\n  "key": value`, in entry order (key order in a file kept in order,
/// see [`ordered_file`]).
pub open spec fn extras_text(obj: Seq<(Seq<char>, Json)>) -> Seq<char>
    decreases obj.len(),
{
    if obj.len() == 0 {
        Seq::empty()
    } else {
        let prev = extras_text(obj.drop_last());
        let k = obj.last().0;
        if k == "settings"@ || k == "languages"@ {
            prev
        } else {
            prev + ",\n  \""@ + k + "\": "@ + pretty(obj.last().1, 2)
        }
    }
}

/// The text of the file: pretty JSON with `settings` first and the language
/// blocks in the order Traditional Chinese, Simplified Chinese, Japanese,
/// English, then the others. Nothing when the file is not an object with a
/// `settings` member and a `languages` object.
pub open spec fn file_text(root: Json) -> Option<Seq<char>> {
    match root {
        Json::Object(obj) => match entries_get(obj, "settings"@) {
            Some(settings) => match entries_get(obj, "languages"@) {
                Some(Json::Object(langs)) => Some(
                    "{\n  \"settings\": "@ + pretty(settings, 2) + ",\n  \"languages\": {\n"@
                        + joined(builtin_blocks(langs, 4) + custom_blocks(langs), ",\n"@) + "\n  }"@
                        + extras_text(obj) + "\n}\n"@,
                ),
                _ => None,
            },
            None => None,
        },
        _ => None,
    }
}

fn push_block(out: &mut String, code: &str, table: &JsonValue)
    requires
        4 + 2 * depth(table@) <= usize::MAX,
    ensures
        final(out)@ == old(out)@ + lang_block(code@, table@),
{
    let ghost start = out@;
    push_text(out, "    \"");
    push_text(out, code);
    push_text(out, "\": ");
    write_pretty(table, 4, out);
    assert(out@ =~= start + lang_block(code@, table@));
}

#[verifier::loop_isolation(false)]
fn write_lang_blocks(langs: &Vec<(String, JsonValue)>, out: &mut String)
    requires
        depth(Json::Object(view_entries(langs@))) <= MAX_NESTING,
    ensures
        final(out)@ == old(out)@ + joined(
            builtin_blocks(view_entries(langs@), 4) + custom_blocks(view_entries(langs@)),
            ",\n"@,
        ),
{
    let ghost lv = view_entries(langs@);
    proof {
        lemma_view_entries(langs@);
    }
    let ghost head = out@;
    let ghost mut blocks: Seq<Seq<char>> = Seq::empty();
    let mut any = false;
    let order: [&str; 4] = ["zh_TW", "zh_CN", "ja_JP", "en_US"];
    let mut n: usize = 0;
    while n < 4
        invariant
            n <= 4,
            order@.len() == 4,
            order@[0]@ == "zh_TW"@,
            order@[1]@ == "zh_CN"@,
            order@[2]@ == "ja_JP"@,
            order@[3]@ == "en_US"@,
            blocks == builtin_blocks(lv, n as nat),
            any == (blocks.len() > 0),
            out@ == head + joined(blocks, ",\n"@),
        decreases 4 - n,
    {
        assert(order@[n as int]@ == builtin_order()[n as int]);
        if let Some(i) = find_entry(langs, order[n]) {
            proof {
                lemma_depth_entry(lv, i as int);
            }
            if any {
                push_text(out, ",\n");
            }
            any = true;
            push_block(out, order[n], &langs[i].1);
            proof {
                blocks = blocks.push(lang_block(order@[n as int]@, langs@[i as int].1@));
                assert(blocks.drop_last() =~= builtin_blocks(lv, n as nat));
            }
        }
        n = n + 1;
    }
    let ghost base = blocks;
    let mut i: usize = 0;
    while i < langs.len()
        invariant
            i <= langs.len(),
            lv.len() == langs.len(),
            forall|k: int| 0 <= k < lv.len() ==> #[trigger] lv[k] == (langs@[k].0@, view_json(langs@[k].1)),
            blocks == base + custom_blocks(lv.take(i as int)),
            any == (blocks.len() > 0),
            out@ == head + joined(blocks, ",\n"@),
        decreases langs.len() - i,
    {
        assert(lv.take(i + 1).drop_last() =~= lv.take(i as int));
        let k = &langs[i].0;
        if !(same_text(k.as_str(), "zh_TW") || same_text(k.as_str(), "zh_CN") || same_text(k.as_str(), "ja_JP")
            || same_text(k.as_str(), "en_US")) {
            proof {
                lemma_depth_entry(lv, i as int);
            }
            if any {
                push_text(out, ",\n");
            }
            any = true;
            push_block(out, k.as_str(), &langs[i].1);
            proof {
                blocks = blocks.push(lang_block(k@, langs@[i as int].1@));
                assert(blocks.drop_last() =~= base + custom_blocks(lv.take(i as int)));
                assert(blocks =~= base + custom_blocks(lv.take(i + 1)));
            }
        } else {
            assert(blocks =~= base + custom_blocks(lv.take(i + 1)));
        }
        i = i + 1;
    }
    assert(lv.take(langs.len() as int) =~= lv);
}

#[verifier::loop_isolation(false)]
fn write_extras(obj: &Vec<(String, JsonValue)>, out: &mut String)
    requires
        depth(Json::Object(view_entries(obj@))) <= MAX_NESTING,
    ensures
        final(out)@ == old(out)@ + extras_text(view_entries(obj@)),
{
    let ghost ov = view_entries(obj@);
    proof {
        lemma_view_entries(obj@);
    }
    let ghost mid = out@;
    let mut j: usize = 0;
    while j < obj.len()
        invariant
            j <= obj.len(),
            ov.len() == obj.len(),
            forall|k: int| 0 <= k < ov.len() ==> #[trigger] ov[k] == (obj@[k].0@, view_json(obj@[k].1)),
            out@ == mid + extras_text(ov.take(j as int)),
        decreases obj.len() - j,
    {
        assert(ov.take(j + 1).drop_last() =~= ov.take(j as int));
        let k = &obj[j].0;
        if !(same_text(k.as_str(), "settings") || same_text(k.as_str(), "languages")) {
            proof {
                lemma_depth_entry(ov, j as int);
            }
            let ghost before = out@;
            push_text(out, ",\n  \"");
            push_text(out, k.as_str());
            push_text(out, "\": ");
            write_pretty(&obj[j].1, 2, out);
            assert(out@ =~= before + ",\n  \""@ + k@ + "\": "@ + pretty(ov[j as int].1, 2));
        }
        j = j + 1;
    }
    assert(ov.take(obj.len() as int) =~= ov);
}

/// The file text (see [`file_text`]).
pub fn pretty_file(root: &JsonValue) -> (r: Option<String>)
    requires
        depth(root@) <= MAX_NESTING,
    ensures
        r is None <==> file_text(root@) is None,
        r matches Some(t) ==> file_text(root@) == Some(t@),
{
    let obj = match root.as_entries() {
        Some(o) => o,
        None => return None,
    };
    let ghost ov = view_entries(obj@);
    proof {
        lemma_view_entries(obj@);
    }
    let si = match find_entry(obj, "settings") {
        Some(i) => i,
        None => return None,
    };
    let li = match find_entry(obj, "languages") {
        Some(i) => i,
        None => return None,
    };
    let langs = match obj[li].1.as_entries() {
        Some(l) => l,
        None => return None,
    };
    proof {
        lemma_depth_entry(ov, si as int);
        lemma_depth_entry(ov, li as int);
    }
    let mut out = String::new();
    push_text(&mut out, "{\n  \"settings\": ");
    write_pretty(&obj[si].1, 2, &mut out);
    push_text(&mut out, ",\n  \"languages\": {\n");
    write_lang_blocks(langs, &mut out);
    push_text(&mut out, "\n  }");
    write_extras(obj, &mut out);
    push_text(&mut out, "\n}\n");
    Some(out)
}


proof fn lemma_with_current_depth(root: Json, code: Seq<char>)
    requires
        has_settings_object(root),
        depth(root) <= MAX_NESTING,
    ensures
        depth(with_current(root, code)) <= MAX_NESTING,
{
    let re = root->Object_0;
    let se = entries_get(re, "settings"@)->Some_0->Object_0;
    let m = depth_entries(re);
    lemma_get_depth(re, "settings"@);
    assert(depth(Json::Object(se)) <= m);
    lemma_set_depth(se, "languages"@, Json::Str(code), (m - 1) as nat);
    lemma_set_depth(re, "settings"@, Json::Object(entries_set(se, "languages"@, Json::Str(code))), m);
}

proof fn lemma_get_depth(e: Seq<(Seq<char>, Json)>, k: Seq<char>)
    requires
        entries_get(e, k) is Some,
    ensures
        depth(entries_get(e, k)->Some_0) <= depth_entries(e),
    decreases e.len(),
{
    lemma_depth_entries_bound(e, depth_entries(e));
    if e[0].0 != k {
        lemma_get_depth(e.drop_first(), k);
        lemma_depth_entries_bound(e.drop_first(), depth_entries(e));
        assert forall|i: int| 0 <= i < e.drop_first().len() implies depth(#[trigger] e.drop_first()[i].1) <= depth_entries(e) by {
            assert(e.drop_first()[i] == e[i + 1]);
        }
    }
}

proof fn lemma_set_depth(e: Seq<(Seq<char>, Json)>, k: Seq<char>, v: Json, m: nat)
    requires
        depth_entries(e) <= m,
        depth(v) <= m,
    ensures
        depth_entries(entries_set(e, k, v)) <= m,
{
    lemma_depth_entries_bound(e, m);
    lemma_slot_bound(e, k);
    let p = entries_slot(e, k) as int;
    let n = entries_set(e, k, v);
    assert forall|i: int| 0 <= i < n.len() implies depth(#[trigger] n[i].1) <= m by {
        if p < e.len() && e[p].0 == k {
            if i != p {
                assert(n[i] == e[i]);
            }
        } else {
            if i < p {
                assert(n[i] == e[i]);
            } else if i > p {
                assert(n[i] == e[i - 1]);
            }
        }
    }
    lemma_depth_entries_bound(n, m);
}

pub open spec fn script_char(c: char) -> Seq<char> {
    if c == '<' {
        "\\u003c"@
    } else if c == '\u{2028}' {
        "\\u2028"@
    } else if c == '\u{2029}' {
        "\\u2029"@
    } else {
        seq![c]
    }
}

/// `s` with `<`, U+2028 and U+2029 written as JSON escapes, so that it can
/// stand inside a `<script>` element.
pub open spec fn script_safe(s: Seq<char>) -> Seq<char>
    decreases s.len(),
{
    if s.len() == 0 {
        Seq::empty()
    } else {
        script_safe(s.drop_last()) + script_char(s.last())
    }
}

/// The JSON text of `v` for a `<script>` element.
pub open spec fn script_json(v: Json) -> Seq<char> {
    script_safe(compact(v))
}

/// `v` as JSON text that is safe inside a `<script>` element.
pub fn json_for_script(v: &JsonValue) -> (r: String)
    ensures
        r@ == script_json(v@),
{
    let mut raw = String::new();
    write_compact(v, &mut raw);
    let cs = chars_of(raw.as_str());
    let mut out = String::new();
    let mut i: usize = 0;
    while i < cs.len()
        invariant
            i <= cs.len(),
            cs@ == compact(v@),
            out@ == script_safe(cs@.take(i as int)),
        decreases cs.len() - i,
    {
        assert(cs@.take(i + 1).drop_last() =~= cs@.take(i as int));
        let c = cs[i];
        if c == '<' {
            push_text(&mut out, "\\u003c");
        } else if c == '\u{2028}' {
            push_text(&mut out, "\\u2028");
        } else if c == '\u{2029}' {
            push_text(&mut out, "\\u2029");
        } else {
            push_char(&mut out, c);
        }
        i = i + 1;
    }
    assert(cs@.take(cs.len() as int) =~= cs@);
    out
}

/// `out` with every text member of `table` written over it, in the table's
/// entry order.
pub open spec fn overlay(out: Seq<(Seq<char>, Json)>, table: Seq<(Seq<char>, Json)>) -> Seq<(Seq<char>, Json)>
    decreases table.len(),
{
    if table.len() == 0 {
        out
    } else {
        let prev = overlay(out, table.drop_last());
        if table.last().1 is Str {
            entries_set(prev, table.last().0, table.last().1)
        } else {
            prev
        }
    }
}

/// The table a language contributes to the dashboard: its entries when it is
/// an object, nothing otherwise.
pub open spec fn table_entries(langs: Seq<(Seq<char>, Json)>, code: Seq<char>) -> Seq<(Seq<char>, Json)> {
    match entries_get(langs, code) {
        Some(Json::Object(t)) => t,
        _ => Seq::empty(),
    }
}

/// The dashboard's lookup table: the English texts, with the current
/// language's texts written over them.
pub open spec fn dashboard_of(root: Json) -> Json {
    match root.get("languages"@) {
        Some(Json::Object(langs)) => Json::Object(
            overlay(overlay(Seq::empty(), table_entries(langs, "en_US"@)), table_entries(langs, current_code_of(root))),
        ),
        _ => Json::Object(Seq::empty()),
    }
}

fn overlay_into(out: &mut Vec<(String, JsonValue)>, table: &JsonValue)
    ensures
        view_entries(final(out)@) == overlay(
            view_entries(old(out)@),
            match table@ {
                Json::Object(t) => t,
                _ => Seq::empty(),
            },
        ),
{
    let t = match table.as_entries() {
        Some(t) => t,
        None => return,
    };
    let ghost tv = view_entries(t@);
    let ghost start = view_entries(out@);
    proof {
        lemma_view_entries(t@);
    }
    let mut i: usize = 0;
    while i < t.len()
        invariant
            i <= t.len(),
            tv == view_entries(t@),
            tv.len() == t.len(),
            forall|k: int| 0 <= k < tv.len() ==> #[trigger] tv[k] == (t@[k].0@, view_json(t@[k].1)),
            view_entries(out@) == overlay(start, tv.take(i as int)),
        decreases t.len() - i,
    {
        assert(tv.take(i + 1).drop_last() =~= tv.take(i as int));
        if t[i].1.as_text().is_some() {
            set_entry(out, t[i].0.clone(), t[i].1.copy());
        }
        i = i + 1;
    }
    assert(tv.take(t.len() as int) =~= tv);
}

/// The page that the dashboard gets: `html` with the catalog script in
/// place of `/*__I18N__*/`, the session token in place of `__TOKEN__` and the
/// escaped language name in place of `__LANG_NAME__`.
pub open spec fn injected(root: Json, html: Seq<char>, token: Seq<char>, runtime: Seq<char>) -> Seq<char> {
    let prelude = "const GUI_LOCALE = "@ + script_json(Json::Str(locale_of(current_code_of(root))))
        + ";\nconst GUI_T = "@ + script_json(dashboard_of(root)) + ";\n"@;
    replaced(
        replaced(replaced(html, "/*__I18N__*/"@, prelude + runtime), "__TOKEN__"@, token),
        "__LANG_NAME__"@,
        html_escaped(translate(root, "language_name"@)),
    )
}

/// The window and tray title.
pub open spec fn title_of(root: Json, version: Seq<char>) -> Seq<char> {
    "[B.M] "@ + translate(root, "project_name"@) + " V"@ + version + " By. [B.M] 圓周率 3.14"@
}

impl GuiConfig {
    /// The dashboard's lookup table (see [`dashboard_of`]).
    pub fn dashboard_table(&self) -> (r: JsonValue)
        ensures
            r@ == dashboard_of(self@),
    {
        let mut out: Vec<(String, JsonValue)> = Vec::new();
        let langs = match self.value.get("languages") {
            Some(l) => l,
            None => {
                proof {
                    lemma_view_entries(out@);
                }
                return JsonValue::Object(out);
            },
        };
        let le = match langs.as_entries() {
            Some(e) => e,
            None => {
                proof {
                    lemma_view_entries(out@);
                }
                return JsonValue::Object(out);
            },
        };
        proof {
            lemma_view_entries(out@);
            assert(view_entries(out@) =~= Seq::<(Seq<char>, Json)>::empty());
        }
        if let Some(i) = find_entry(le, "en_US") {
            overlay_into(&mut out, &le[i].1);
        }
        let cur = self.current_code();
        if let Some(i) = find_entry(le, cur) {
            overlay_into(&mut out, &le[i].1);
        }
        JsonValue::Object(out)
    }

    /// The dashboard page for this language and session (see [`injected`]);
    /// `runtime` is the catalog script that defines `t()`.
    pub fn inject_dashboard(&self, html: &str, token: &str, runtime: &str) -> (r: String)
        ensures
            r@ == injected(self@, html@, token@, runtime@),
    {
        let mut prelude = String::new();
        push_text(&mut prelude, "const GUI_LOCALE = ");
        let locale = JsonValue::Str(self.js_locale());
        push_text(&mut prelude, json_for_script(&locale).as_str());
        push_text(&mut prelude, ";\nconst GUI_T = ");
        push_text(&mut prelude, json_for_script(&self.dashboard_table()).as_str());
        push_text(&mut prelude, ";\n");
        push_text(&mut prelude, runtime);
        proof {
            reveal_strlit("/*__I18N__*/");
            reveal_strlit("__TOKEN__");
            reveal_strlit("__LANG_NAME__");
        }
        let a = replace_text(html, "/*__I18N__*/", prelude.as_str());
        let b = replace_text(a.as_str(), "__TOKEN__", token);
        let name = html_escape(self.t("language_name").as_str());
        replace_text(b.as_str(), "__LANG_NAME__", name.as_str())
    }

    /// The window and tray title for a program of version `version`.
    pub fn window_title(&self, version: &str) -> (r: String)
        ensures
            r@ == title_of(self@, version@),
    {
        let mut out = String::new();
        push_text(&mut out, "[B.M] ");
        push_text(&mut out, self.t("project_name").as_str());
        push_text(&mut out, " V");
        push_text(&mut out, version);
        push_text(&mut out, " By. [B.M] 圓周率 3.14");
        out
    }

    /// The text to write to the language file (see [`file_text`]).
    pub fn file_text(&self) -> (r: Option<String>)
        ensures
            r is None <==> file_text(self@) is None,
            r matches Some(t) ==> file_text(self@) == Some(t@),
    {
        proof {
            use_type_invariant(self);
        }
        pretty_file(&self.value)
    }
}


/// The file after `n` steps of the language cycle.
pub open spec fn cycled_times(root: Json, n: nat) -> Json
    decreases n,
{
    if n == 0 {
        root
    } else {
        cycled(cycled_times(root, (n - 1) as nat))
    }
}

proof fn lemma_index_of_unique(codes: Seq<Seq<char>>, i: int)
    requires
        0 <= i < codes.len(),
        forall|a: int, b: int| 0 <= a < b < codes.len() ==> codes[a] != codes[b],
    ensures
        index_of(codes, codes[i]) == Some(i as nat),
{
    lemma_index_of_at(codes, codes[i], i);
}

/// One step of the cycle keeps the languages and makes the code after the
/// current one current; the cycle order itself does not change.
pub proof fn lemma_cycle_step(root: Json)
    requires
        has_settings_object(root),
        cycle_order(root).len() > 0,
    ensures
        has_settings_object(cycled(root)),
        cycled(root).get("languages"@) == root.get("languages"@),
        cycle_order(cycled(root)) == cycle_order(root),
        current_code_of(cycled(root)) == cycle_order(root)[
            ((match index_of(cycle_order(root), current_code_of(root)) {
                Some(i) => i as int,
                None => 0,
            }) + 1) % (cycle_order(root).len() as int)
        ],
{
    let codes = cycle_order(root);
    let idx = match index_of(codes, current_code_of(root)) {
        Some(i) => i as int,
        None => 0,
    };
    lemma_with_current_keeps_shape(root, codes[(idx + 1) % (codes.len() as int)]);
}

/// Duplicate-free: the cycle lists every language once.
pub proof fn lemma_cycle_order_distinct(root: Json)
    requires
        languages_of(root) matches Some(langs) && keys_distinct(langs),
    ensures
        forall|a: int, b: int| 0 <= a < b < cycle_order(root).len() ==> cycle_order(root)[a] != cycle_order(root)[b],
{
    let langs = languages_of(root)->Some_0;
    lemma_builtins_held_facts(langs, 4);
    lemma_custom_codes_facts(langs);
    let x = builtins_held(langs, 4);
    let y = custom_codes(langs);
    let c = x + y;
    assert forall|a: int, b: int| 0 <= a < b < c.len() implies c[a] != c[b] by {
        if b < x.len() {
        } else if a >= x.len() {
            assert(c[a] == y[a - x.len()]);
            assert(c[b] == y[b - x.len()]);
        } else {
            assert(c[a] == x[a]);
            assert(c[b] == y[b - x.len()]);
            assert(is_builtin(x[a]));
            assert(!is_builtin(y[b - x.len()]));
        }
    }
}

/// Whether the keys of `e` are pairwise distinct, as in every object that
/// `serde_json` builds.
pub open spec fn keys_distinct(e: Seq<(Seq<char>, Json)>) -> bool {
    forall|a: int, b: int| 0 <= a < b < e.len() ==> e[a].0 != e[b].0
}

proof fn lemma_builtins_held_facts(langs: Seq<(Seq<char>, Json)>, n: nat)
    requires
        n <= 4,
    ensures
        forall|a: int| 0 <= a < builtins_held(langs, n).len() ==> is_builtin(#[trigger] builtins_held(langs, n)[a]),
        forall|a: int| 0 <= a < builtins_held(langs, n).len() ==> entries_has(langs, #[trigger] builtins_held(langs, n)[a]),
        forall|a: int, b: int|
            0 <= a < b < builtins_held(langs, n).len() ==> builtins_held(langs, n)[a] != builtins_held(langs, n)[b],
        forall|k: int| 0 <= k < n && entries_has(langs, builtin_order()[k]) ==> builtins_held(langs, n).contains(
            #[trigger] builtin_order()[k],
        ),
        forall|a: int| 0 <= a < builtins_held(langs, n).len() ==> exists|k: int|
            0 <= k < n && #[trigger] builtins_held(langs, n)[a] == builtin_order()[k],
    decreases n,
{
    reveal_strlit("zh_TW");
    reveal_strlit("zh_CN");
    reveal_strlit("ja_JP");
    reveal_strlit("en_US");
    assert("zh_TW"@[3] != "zh_CN"@[3]);
    assert("zh_TW"@[0] != "ja_JP"@[0]);
    assert("zh_TW"@[0] != "en_US"@[0]);
    assert("zh_CN"@[0] != "ja_JP"@[0]);
    assert("zh_CN"@[0] != "en_US"@[0]);
    assert("ja_JP"@[0] != "en_US"@[0]);
    if n > 0 {
        lemma_builtins_held_facts(langs, (n - 1) as nat);
        let prev = builtins_held(langs, (n - 1) as nat);
        let code = builtin_order()[n - 1];
        if entries_has(langs, code) {
            let cur = prev.push(code);
            assert forall|a: int| 0 <= a < prev.len() implies prev[a] != code by {
                let k = choose|k: int| 0 <= k < n - 1 && prev[a] == builtin_order()[k];
            }
            assert(cur[prev.len() as int] == code);
            assert forall|k: int| 0 <= k < n && entries_has(langs, builtin_order()[k]) implies cur.contains(
                #[trigger] builtin_order()[k],
            ) by {
                if k < n - 1 {
                    let j = choose|j: int| 0 <= j < prev.len() && prev[j] == builtin_order()[k];
                    assert(cur[j] == prev[j]);
                }
            }
            assert forall|a: int| 0 <= a < cur.len() implies exists|k: int|
                0 <= k < n && #[trigger] cur[a] == builtin_order()[k] by {
                if a < prev.len() {
                    assert(cur[a] == prev[a]);
                }
            }
        }
    }
}

proof fn lemma_custom_codes_facts(langs: Seq<(Seq<char>, Json)>)
    requires
        keys_distinct(langs),
    ensures
        forall|a: int| 0 <= a < custom_codes(langs).len() ==> !is_builtin(#[trigger] custom_codes(langs)[a]),
        forall|a: int, b: int| 0 <= a < b < custom_codes(langs).len() ==> custom_codes(langs)[a] != custom_codes(langs)[b],
        forall|a: int| 0 <= a < custom_codes(langs).len() ==> exists|j: int|
            0 <= j < langs.len() && langs[j].0 == #[trigger] custom_codes(langs)[a],
        forall|j: int| 0 <= j < langs.len() && !is_builtin(langs[j].0) ==> custom_codes(langs).contains(#[trigger] langs[j].0),
    decreases langs.len(),
{
    if langs.len() > 0 {
        let d = langs.drop_last();
        assert(keys_distinct(d)) by {
            assert forall|a: int, b: int| 0 <= a < b < d.len() implies d[a].0 != d[b].0 by {
                assert(d[a] == langs[a]);
                assert(d[b] == langs[b]);
            }
        }
        lemma_custom_codes_facts(d);
        let prev = custom_codes(d);
        let last = langs.last().0;
        assert forall|a: int| 0 <= a < prev.len() implies exists|j: int|
            0 <= j < langs.len() && langs[j].0 == #[trigger] prev[a] by {
            let j = choose|j: int| 0 <= j < d.len() && d[j].0 == prev[a];
            assert(langs[j] == d[j]);
        }
        if !is_builtin(last) {
            let cur = prev.push(last);
            assert forall|a: int| 0 <= a < prev.len() implies prev[a] != last by {
                let j = choose|j: int| 0 <= j < d.len() && d[j].0 == prev[a];
                assert(langs[j] == d[j]);
                assert(langs[j].0 != langs[langs.len() - 1].0);
            }
            assert(cur[prev.len() as int] == last);
            assert forall|a: int| 0 <= a < cur.len() implies exists|j: int|
                0 <= j < langs.len() && langs[j].0 == #[trigger] cur[a] by {
                if a < prev.len() {
                    assert(cur[a] == prev[a]);
                } else {
                    assert(langs[langs.len() - 1].0 == cur[a]);
                }
            }
            assert forall|j: int| 0 <= j < langs.len() && !is_builtin(langs[j].0) implies cur.contains(
                #[trigger] langs[j].0,
            ) by {
                if j < langs.len() - 1 {
                    assert(langs[j] == d[j]);
                    let k = choose|k: int| 0 <= k < prev.len() && prev[k] == d[j].0;
                    assert(cur[k] == prev[k]);
                }
            }
        } else {
            assert forall|j: int| 0 <= j < langs.len() && !is_builtin(langs[j].0) implies prev.contains(
                #[trigger] langs[j].0,
            ) by {
                assert(j < langs.len() - 1);
                assert(langs[j] == d[j]);
            }
        }
    }
}

proof fn lemma_get_some_index(e: Seq<(Seq<char>, Json)>, k: Seq<char>)
    requires
        entries_has(e, k),
    ensures
        exists|j: int| 0 <= j < e.len() && e[j].0 == k,
    decreases e.len(),
{
    if e[0].0 != k {
        lemma_get_some_index(e.drop_first(), k);
        let j = choose|j: int| 0 <= j < e.drop_first().len() && e.drop_first()[j].0 == k;
        assert(e[j + 1] == e.drop_first()[j]);
    }
}

/// Every language the file holds is in the cycle.
pub proof fn lemma_held_language_in_cycle(root: Json, code: Seq<char>)
    requires
        languages_of(root) matches Some(langs) && keys_distinct(langs) && entries_has(langs, code),
    ensures
        cycle_order(root).contains(code),
{
    let langs = languages_of(root)->Some_0;
    lemma_builtins_held_facts(langs, 4);
    lemma_custom_codes_facts(langs);
    let x = builtins_held(langs, 4);
    let y = custom_codes(langs);
    if is_builtin(code) {
        let k = if code == "zh_TW"@ { 0int } else if code == "zh_CN"@ { 1int } else if code == "ja_JP"@ { 2int } else { 3int };
        assert(builtin_order()[k] == code);
        let a = choose|a: int| 0 <= a < x.len() && x[a] == builtin_order()[k];
        assert((x + y)[a] == code);
    } else {
        lemma_get_some_index(langs, code);
        let j = choose|j: int| 0 <= j < langs.len() && langs[j].0 == code;
        let b = choose|b: int| 0 <= b < y.len() && y[b] == langs[j].0;
        assert((x + y)[x.len() + b] == code);
    }
}

/// In a usable file the current language is in the cycle, and cycling as
/// many times as there are languages comes back to it.
pub proof fn lemma_cycle_returns(root: Json)
    requires
        is_valid(root),
        keys_distinct(languages_of(root)->Some_0),
    ensures
        cycle_order(root).contains(current_code_of(root)),
        current_code_of(cycled_times(root, cycle_order(root).len())) == current_code_of(root),
{
    let codes = cycle_order(root);
    let cur = current_code_of(root);
    lemma_held_language_in_cycle(root, cur);
    lemma_cycle_order_distinct(root);
    let ghost i0 = choose|i: int| 0 <= i < codes.len() && codes[i] == cur;
    lemma_index_of_unique(codes, i0);
    lemma_cycle_walk(root, codes, i0, codes.len());
    assert((i0 + codes.len()) % (codes.len() as int) == i0) by (nonlinear_arith)
        requires
            0 <= i0 < codes.len(),
    ;
}

proof fn lemma_cycle_walk(root: Json, codes: Seq<Seq<char>>, i0: int, n: nat)
    requires
        has_settings_object(root),
        codes == cycle_order(root),
        0 <= i0 < codes.len(),
        current_code_of(root) == codes[i0],
        forall|a: int, b: int| 0 <= a < b < codes.len() ==> codes[a] != codes[b],
    ensures
        has_settings_object(cycled_times(root, n)),
        cycle_order(cycled_times(root, n)) == codes,
        current_code_of(cycled_times(root, n)) == codes[(i0 + n) % (codes.len() as int)],
    decreases n,
{
    if n == 0 {
        assert(i0 % (codes.len() as int) == i0) by (nonlinear_arith)
            requires
                0 <= i0 < codes.len(),
        ;
    } else {
        lemma_cycle_walk(root, codes, i0, (n - 1) as nat);
        let prev = cycled_times(root, (n - 1) as nat);
        let j = (i0 + n - 1) % (codes.len() as int);
        assert(0 <= j < codes.len()) by (nonlinear_arith)
            requires
                codes.len() > 0,
                j == (i0 + n - 1) % (codes.len() as int),
        ;
        lemma_index_of_unique(codes, j);
        lemma_cycle_step(prev);
        assert((j + 1) % (codes.len() as int) == (i0 + n) % (codes.len() as int)) by (nonlinear_arith)
            requires
                codes.len() > 0,
                j == (i0 + n - 1) % (codes.len() as int),
                n >= 1,
                i0 >= 0,
        ;
    }
}


/// Script-safe JSON holds no `<`, U+2028 or U+2029, so it cannot end the
/// `<script>` element it stands in, nor a line of it.
pub proof fn lemma_script_safe(s: Seq<char>)
    ensures
        forall|i: int|
            0 <= i < script_safe(s).len() ==> #[trigger] script_safe(s)[i] != '<' && script_safe(s)[i] != '\u{2028}'
                && script_safe(s)[i] != '\u{2029}',
    decreases s.len(),
{
    if s.len() > 0 {
        lemma_script_safe(s.drop_last());
        reveal_strlit("\\u003c");
        reveal_strlit("\\u2028");
        reveal_strlit("\\u2029");
        let p = script_safe(s.drop_last());
        let q = script_char(s.last());
        assert forall|i: int| 0 <= i < q.len() implies q[i] != '<' && q[i] != '\u{2028}' && q[i] != '\u{2029}' by {}
        assert forall|i: int| 0 <= i < (p + q).len() implies #[trigger] (p + q)[i] != '<' && (p + q)[i] != '\u{2028}'
            && (p + q)[i] != '\u{2029}' by {
            if i >= p.len() {
                assert((p + q)[i] == q[i - p.len()]);
            }
        }
    }
}

proof fn lemma_overlay_get(out: Seq<(Seq<char>, Json)>, t: Seq<(Seq<char>, Json)>, k: Seq<char>)
    requires
        keys_distinct(t),
    ensures
        entries_get(overlay(out, t), k) == match entries_get(t, k) {
            Some(Json::Str(s)) => Some(Json::Str(s)),
            _ => entries_get(out, k),
        },
    decreases t.len(),
{
    if t.len() > 0 {
        let d = t.drop_last();
        assert(keys_distinct(d)) by {
            assert forall|a: int, b: int| 0 <= a < b < d.len() implies d[a].0 != d[b].0 by {
                assert(d[a] == t[a]);
                assert(d[b] == t[b]);
            }
        }
        lemma_overlay_get(out, d, k);
        let prev = overlay(out, d);
        let (k0, v0) = t.last();
        lemma_set_then_get(prev, k0, v0, k);
        if k0 == k {
            assert forall|j: int| 0 <= j < d.len() implies d[j].0 != k by {
                assert(d[j] == t[j]);
            }
            lemma_entries_get_none(d, k);
            assert forall|j: int| 0 <= j < t.len() - 1 implies t[j].0 != k by {}
            crate::json::lemma_entries_get_at(t, k, t.len() - 1);
        } else {
            lemma_get_without_last(t, k);
        }
    }
}

proof fn lemma_get_without_last(t: Seq<(Seq<char>, Json)>, k: Seq<char>)
    requires
        t.len() > 0,
        t.last().0 != k,
    ensures
        entries_get(t, k) == entries_get(t.drop_last(), k),
    decreases t.len(),
{
    if t.len() == 1 {
        assert(t.drop_first().len() == 0);
        assert(t.drop_last().len() == 0);
    } else if t[0].0 != k {
        lemma_get_without_last(t.drop_first(), k);
        assert(t.drop_first().drop_last() =~= t.drop_last().drop_first());
        assert(t.drop_last()[0] == t[0]);
    } else {
        assert(t.drop_last()[0] == t[0]);
    }
}

/// The dashboard shows a key in the current language when that language has
/// a text for it, else in English, else not at all.
pub proof fn lemma_dashboard_prefers_current(root: Json, key: Seq<char>)
    requires
        languages_of(root) matches Some(langs) && keys_distinct(table_entries(langs, "en_US"@))
            && keys_distinct(table_entries(langs, current_code_of(root))),
    ensures
        ({
            let langs = languages_of(root)->Some_0;
            entries_get(dashboard_of(root)->Object_0, key) == match entries_get(table_entries(langs, current_code_of(root)), key) {
                Some(Json::Str(s)) => Some(Json::Str(s)),
                _ => match entries_get(table_entries(langs, "en_US"@), key) {
                    Some(Json::Str(s)) => Some(Json::Str(s)),
                    _ => None,
                },
            }
        }),
{
    let langs = languages_of(root)->Some_0;
    let en = table_entries(langs, "en_US"@);
    let cur = table_entries(langs, current_code_of(root));
    lemma_overlay_get(Seq::empty(), en, key);
    lemma_overlay_get(overlay(Seq::empty(), en), cur, key);
}

/// The order `serde_json` keeps in a file it reads: the file's members, and
/// the languages under `languages`, come in ascending order of their keys,
/// each key once.
pub open spec fn ordered_file(root: Json) -> bool {
    &&& root is Object ==> keys_sorted(root->Object_0)
    &&& languages_of(root) is Some ==> keys_sorted(languages_of(root)->Some_0)
}

/// In a file kept in that order, the languages that are not built in (which
/// the cycle and the written file list after the built-in ones) come in
/// ascending order of their codes.
pub proof fn lemma_custom_codes_ascending(langs: Seq<(Seq<char>, Json)>)
    requires
        keys_sorted(langs),
    ensures
        forall|a: int, b: int|
            0 <= a < b < custom_codes(langs).len() ==> text_lt(
                #[trigger] custom_codes(langs)[a],
                #[trigger] custom_codes(langs)[b],
            ),
    decreases langs.len(),
{
    if langs.len() > 0 {
        let d = langs.drop_last();
        assert(keys_sorted(d)) by {
            assert forall|a: int, b: int| 0 <= a < b < d.len() implies text_lt(#[trigger] d[a].0, #[trigger] d[b].0) by {
                assert(d[a] == langs[a] && d[b] == langs[b]);
            }
        }
        assert(keys_distinct(d)) by {
            assert forall|a: int, b: int| 0 <= a < b < d.len() implies d[a].0 != d[b].0 by {
                assert(text_lt(d[a].0, d[b].0));
                crate::json::lemma_text_lt_irreflexive(d[a].0);
            }
        }
        lemma_custom_codes_ascending(d);
        lemma_custom_codes_facts(d);
        let prev = custom_codes(d);
        let last = langs.last().0;
        if !is_builtin(last) {
            let cur = prev.push(last);
            assert forall|a: int, b: int| 0 <= a < b < cur.len() implies text_lt(#[trigger] cur[a], #[trigger] cur[b]) by {
                if b < prev.len() {
                    assert(cur[a] == prev[a] && cur[b] == prev[b]);
                } else {
                    assert(cur[a] == prev[a]);
                    let j = choose|j: int| 0 <= j < d.len() && d[j].0 == prev[a];
                    assert(langs[j] == d[j]);
                    assert(text_lt(langs[j].0, langs[langs.len() - 1].0));
                }
            }
        }
    }
}

/// Setting the current language keeps a file in order.
pub proof fn lemma_with_current_keeps_order(root: Json, code: Seq<char>)
    requires
        root is Object,
        ordered_file(root),
    ensures
        ordered_file(with_current(root, code)),
{
    let re = root->Object_0;
    let se = match entries_get(re, "settings"@) {
        Some(Json::Object(e)) => e,
        _ => Seq::empty(),
    };
    lemma_set_keeps_sorted(re, "settings"@, Json::Object(entries_set(se, "languages"@, Json::Str(code))));
    lemma_with_current_keeps_shape(root, code);
}

/// The text for a key follows the languages in turn: the current language's
/// text when its table has one, else Traditional Chinese, else English, else
/// the key itself.
pub proof fn lemma_translate_order(root: Json, key: Seq<char>)
    ensures
        table_text(root, current_code_of(root), key) matches Some(s) ==> translate(root, key) == s,
        table_text(root, current_code_of(root), key) is None ==> (table_text(root, "zh_TW"@, key) matches Some(s)
            ==> translate(root, key) == s),
        table_text(root, current_code_of(root), key) is None && table_text(root, "zh_TW"@, key) is None ==> (
        table_text(root, "en_US"@, key) matches Some(s) ==> translate(root, key) == s),
        table_text(root, current_code_of(root), key) is None && table_text(root, "zh_TW"@, key) is None
            && table_text(root, "en_US"@, key) is None ==> translate(root, key) == key,
{
}

/// The dashboard page for `root` built around a given lookup table `table`:
/// `html` with the locale and `table` in place of `/*__I18N__*/`, the session
/// token in place of `__TOKEN__` and the escaped language name in place of
/// `__LANG_NAME__`.
pub open spec fn page_with_table(root: Json, html: Seq<char>, token: Seq<char>, runtime: Seq<char>, table: Json) -> Seq<char> {
    let prelude = "const GUI_LOCALE = "@ + script_json(Json::Str(locale_of(current_code_of(root))))
        + ";\nconst GUI_T = "@ + script_json(table) + ";\n"@;
    replaced(
        replaced(replaced(html, "/*__I18N__*/"@, prelude + runtime), "__TOKEN__"@, token),
        "__LANG_NAME__"@,
        html_escaped(translate(root, "language_name"@)),
    )
}

/// The page the dashboard gets carries, as `GUI_T`, a table that gives for
/// every key the current language's text when it has one, else the English
/// text, else nothing (for a file whose tables hold each key once).
pub proof fn lemma_page_shows_current_over_english(root: Json, html: Seq<char>, token: Seq<char>, runtime: Seq<char>)
    requires
        languages_of(root) matches Some(langs) && keys_distinct(table_entries(langs, "en_US"@))
            && keys_distinct(table_entries(langs, current_code_of(root))),
    ensures
        ({
            let langs = languages_of(root)->Some_0;
            let t = dashboard_of(root);
            &&& injected(root, html, token, runtime) == page_with_table(root, html, token, runtime, t)
            &&& t is Object
            &&& forall|key: Seq<char>| #[trigger] entries_get(t->Object_0, key) == match entries_get(
                table_entries(langs, current_code_of(root)),
                key,
            ) {
                Some(Json::Str(s)) => Some(Json::Str(s)),
                _ => match entries_get(table_entries(langs, "en_US"@), key) {
                    Some(Json::Str(s)) => Some(Json::Str(s)),
                    _ => None,
                },
            }
        }),
{
    assert forall|key: Seq<char>| true implies #[trigger] entries_get(dashboard_of(root)->Object_0, key) == match entries_get(
        table_entries(languages_of(root)->Some_0, current_code_of(root)),
        key,
    ) {
        Some(Json::Str(s)) => Some(Json::Str(s)),
        _ => match entries_get(table_entries(languages_of(root)->Some_0, "en_US"@), key) {
            Some(Json::Str(s)) => Some(Json::Str(s)),
            _ => None,
        },
    } by {
        lemma_dashboard_prefers_current(root, key);
    }
}

/// The block written for a language code of `langs`.
pub open spec fn block_of(langs: Seq<(Seq<char>, Json)>, code: Seq<char>) -> Seq<char> {
    lang_block(code, entries_get(langs, code)->Some_0)
}

proof fn lemma_builtin_blocks_follow_codes(langs: Seq<(Seq<char>, Json)>, n: nat)
    requires
        n <= 4,
    ensures
        builtin_blocks(langs, n) == builtins_held(langs, n).map_values(|c: Seq<char>| block_of(langs, c)),
    decreases n,
{
    if n > 0 {
        lemma_builtin_blocks_follow_codes(langs, (n - 1) as nat);
        let prev = builtins_held(langs, (n - 1) as nat);
        let c = builtin_order()[n - 1];
        if entries_has(langs, c) {
            assert(prev.push(c).map_values(|c: Seq<char>| block_of(langs, c)) =~= prev.map_values(
                |c: Seq<char>| block_of(langs, c),
            ).push(block_of(langs, c)));
        }
    }
}

proof fn lemma_custom_blocks_follow_codes(langs: Seq<(Seq<char>, Json)>, full: Seq<(Seq<char>, Json)>)
    requires
        langs.len() <= full.len(),
        langs == full.take(langs.len() as int),
        keys_distinct(full),
    ensures
        custom_blocks(langs) == custom_codes(langs).map_values(|c: Seq<char>| block_of(full, c)),
    decreases langs.len(),
{
    if langs.len() > 0 {
        let d = langs.drop_last();
        assert(d =~= full.take(d.len() as int));
        lemma_custom_blocks_follow_codes(d, full);
        let n = langs.len() - 1;
        let last = langs.last();
        assert(last == full[n]);
        assert forall|j: int| 0 <= j < n implies full[j].0 != full[n].0 by {}
        crate::json::lemma_entries_get_at(full, full[n].0, n);
        if !is_builtin(last.0) {
            let prev = custom_codes(d);
            assert(prev.push(last.0).map_values(|c: Seq<char>| block_of(full, c)) =~= prev.map_values(
                |c: Seq<char>| block_of(full, c),
            ).push(block_of(full, last.0)));
        }
    }
}

/// The written file lists the languages in the order the language cycle
/// visits them: the built-in ones in the order Traditional Chinese,
/// Simplified Chinese, Japanese, English, then the user's own; so every
/// built-in language comes before every other (for a file whose languages
/// hold each code once).
pub proof fn lemma_file_lists_languages_in_cycle_order(root: Json)
    requires
        file_text(root) is Some,
        languages_of(root) matches Some(langs) && keys_distinct(langs),
    ensures
        ({
            let obj = root->Object_0;
            let langs = languages_of(root)->Some_0;
            file_text(root) == Some(
                "{\n  \"settings\": "@ + pretty(entries_get(obj, "settings"@)->Some_0, 2) + ",\n  \"languages\": {\n"@
                    + joined(cycle_order(root).map_values(|c: Seq<char>| block_of(langs, c)), ",\n"@) + "\n  }"@
                    + extras_text(obj) + "\n}\n"@,
            )
        }),
        forall|a: int, b: int|
            0 <= a < b < cycle_order(root).len() && !is_builtin(#[trigger] cycle_order(root)[a]) ==> !is_builtin(
                #[trigger] cycle_order(root)[b],
            ),
{
    let langs = languages_of(root)->Some_0;
    lemma_builtin_blocks_follow_codes(langs, 4);
    assert(langs =~= langs.take(langs.len() as int));
    lemma_custom_blocks_follow_codes(langs, langs);
    let x = builtins_held(langs, 4);
    let y = custom_codes(langs);
    assert((x + y).map_values(|c: Seq<char>| block_of(langs, c)) =~= x.map_values(|c: Seq<char>| block_of(langs, c))
        + y.map_values(|c: Seq<char>| block_of(langs, c)));
    lemma_builtins_held_facts(langs, 4);
    lemma_custom_codes_facts(langs);
    let c = x + y;
    assert forall|a: int, b: int|
        0 <= a < b < c.len() && !is_builtin(#[trigger] c[a]) implies !is_builtin(#[trigger] c[b]) by {
        if a < x.len() {
            assert(c[a] == x[a]);
        } else {
            assert(c[b] == y[b - x.len()]);
        }
    }
}

} // verus!
