//! Bringing a user's language file up to date with the built-in catalog, and
//! deciding what the program runs with when it starts.

use vstd::prelude::*;

use crate::catalog::{
    all_texts, builtin_catalog, default_config, default_languages, default_value, is_text_table,
    lemma_catalog_lookup, lemma_catalog_texts, lemma_default_config_valid,
};
use crate::json::{
    entries_get, entries_has, entries_set, entries_slot, find_entry, lemma_entries_get_at, lemma_set_then_get,
    lemma_slot_bound, lemma_view_entries, set_entry, text_lt, view_entries, view_json, Json, JsonValue,
};
use crate::jsontext::depth;
use crate::order::{keys_sorted, lemma_set_existing, lemma_set_keeps_sorted};
use crate::settings::{
    builtin_order, languages_of, ordered_file, copy_entries, current_code_of, current_entry, has_settings_object, is_valid,
    lemma_with_current_keeps_shape, lit, set_current, settings_writable, validate, with_current, GuiConfig,
    MAX_NESTING,
};

verus! {

/// What `table` becomes when every key of `fallback` it lacks is added with
/// the fallback's value (in the fallback's key order).
pub open spec fn filled_table(table: Seq<(Seq<char>, Json)>, fallback: Seq<(Seq<char>, Json)>) -> Seq<(Seq<char>, Json)>
    decreases fallback.len(),
{
    if fallback.len() == 0 {
        table
    } else {
        let prev = filled_table(table, fallback.drop_last());
        if entries_has(prev, fallback.last().0) {
            prev
        } else {
            entries_set(prev, fallback.last().0, fallback.last().1)
        }
    }
}

/// The languages after every built-in language among the first `n` that is
/// missing has been added from the catalog; nothing when the catalog lacks one.
pub open spec fn with_builtins(langs: Seq<(Seq<char>, Json)>, n: nat) -> Option<Seq<(Seq<char>, Json)>>
    decreases n,
{
    if n == 0 {
        Some(langs)
    } else {
        match with_builtins(langs, (n - 1) as nat) {
            Some(prev) => {
                let code = builtin_order()[n - 1];
                if entries_has(prev, code) {
                    Some(prev)
                } else {
                    match entries_get(builtin_catalog(), code) {
                        Some(t) => Some(entries_set(prev, code, t)),
                        None => None,
                    }
                }
            },
            None => None,
        }
    }
}

/// The table a language inherits gaps from: its own built-in table, or
/// English for a language of the user's.
pub open spec fn fallback_of(code: Seq<char>, en: Json) -> Json {
    match entries_get(builtin_catalog(), code) {
        Some(t) => t,
        None => en,
    }
}

/// One language completed from its fallback; nothing when the table is not an
/// object of texts (or the fallback is not an object).
pub open spec fn completed(entry: (Seq<char>, Json), en: Json) -> Option<(Seq<char>, Json)> {
    match fallback_of(entry.0, en) {
        Json::Object(fb) => match entry.1 {
            Json::Object(t) => if forall|j: int| 0 <= j < t.len() ==> (#[trigger] t[j]).1 is Str {
                Some((entry.0, Json::Object(filled_table(t, fb))))
            } else {
                None
            },
            _ => None,
        },
        _ => None,
    }
}

/// Every language completed from its fallback, or nothing when one cannot be.
pub open spec fn completed_all(langs: Seq<(Seq<char>, Json)>, en: Json) -> Option<Seq<(Seq<char>, Json)>>
    decreases langs.len(),
{
    if langs.len() == 0 {
        Some(Seq::empty())
    } else {
        match completed_all(langs.drop_last(), en) {
            Some(prev) => match completed(langs.last(), en) {
                Some(x) => Some(prev.push(x)),
                None => None,
            },
            None => None,
        }
    }
}

/// Whether merging `file` stops the program: it needs to write
/// `settings.languages` and cannot (see [`settings_writable`]).
pub open spec fn merge_fails_hard(file: Json) -> bool {
    current_entry(file) is None && !settings_writable(file)
}

/// The user's file brought up to date. A missing `settings.languages` becomes
/// `zh_TW`; missing built-in languages are added from the catalog; every
/// language gains the keys its fallback has and it lacks (user texts are
/// kept); a current language the file does not hold becomes `zh_TW`.
/// Nothing when `languages` is not an object or a language is not an object
/// of texts.
pub open spec fn merged(file: Json) -> Option<Json> {
    match entries_get(builtin_catalog(), "en_US"@) {
        None => None,
        Some(en) => {
            let f1 = if current_entry(file) is None { with_current(file, "zh_TW"@) } else { file };
            match f1 {
                Json::Object(re) => match entries_get(re, "languages"@) {
                    Some(Json::Object(langs0)) => match with_builtins(langs0, 4) {
                        Some(langs1) => match completed_all(langs1, en) {
                            Some(langs2) => {
                                let f2 = Json::Object(entries_set(re, "languages"@, Json::Object(langs2)));
                                if entries_has(langs2, current_code_of(f2)) {
                                    Some(f2)
                                } else {
                                    Some(with_current(f2, "zh_TW"@))
                                }
                            },
                            None => None,
                        },
                        None => None,
                    },
                    _ => None,
                },
                _ => None,
            }
        },
    }
}

/// Whether merging `file` would stop the program (see [`merge_fails_hard`]).
pub fn merge_would_fail_hard(file: &JsonValue) -> (r: bool)
    ensures
        r == merge_fails_hard(file@),
{
    let has_current = match file.get("settings") {
        Some(s) => s.get("languages").is_some(),
        None => false,
    };
    if has_current {
        return false;
    }
    match file {
        JsonValue::Null => false,
        JsonValue::Object(e) => match find_entry(e, "settings") {
            None => false,
            Some(i) => match &e[i].1 {
                JsonValue::Null => false,
                JsonValue::Object(_) => false,
                _ => true,
            },
        },
        _ => true,
    }
}

fn fill_table(table: &mut Vec<(String, JsonValue)>, fallback: &Vec<(String, JsonValue)>)
    ensures
        view_entries(final(table)@) == filled_table(view_entries(old(table)@), view_entries(fallback@)),
{
    let ghost fv = view_entries(fallback@);
    let ghost start = view_entries(table@);
    proof {
        lemma_view_entries(fallback@);
    }
    let mut i: usize = 0;
    while i < fallback.len()
        invariant
            i <= fallback.len(),
            fv == view_entries(fallback@),
            fv.len() == fallback.len(),
            forall|k: int| 0 <= k < fv.len() ==> #[trigger] fv[k] == (fallback@[k].0@, view_json(fallback@[k].1)),
            view_entries(table@) == filled_table(start, fv.take(i as int)),
        decreases fallback.len() - i,
    {
        assert(fv.take(i + 1).drop_last() =~= fv.take(i as int));
        if find_entry(table, fallback[i].0.as_str()).is_none() {
            set_entry(table, fallback[i].0.clone(), fallback[i].1.copy());
        }
        i = i + 1;
    }
    assert(fv.take(fallback.len() as int) =~= fv);
}

#[verifier::loop_isolation(false)]
fn complete_one(code: &String, table: &JsonValue, catalog: &Vec<(String, JsonValue)>, en: &JsonValue) -> (r: Option<(String, JsonValue)>)
    requires
        view_entries(catalog@) == builtin_catalog(),
    ensures
        r is None <==> completed((code@, table@), en@) is None,
        r matches Some(x) ==> completed((code@, table@), en@) == Some((x.0@, x.1@)),
{
    let fb = match find_entry(catalog, code.as_str()) {
        Some(i) => &catalog[i].1,
        None => en,
    };
    let fbe = fb.as_entries()?;
    let t = table.as_entries()?;
    let ghost tv = view_entries(t@);
    proof {
        lemma_view_entries(t@);
    }
    let mut j: usize = 0;
    while j < t.len()
        invariant
            j <= t.len(),
            tv == view_entries(t@),
            tv.len() == t.len(),
            forall|k: int| 0 <= k < tv.len() ==> #[trigger] tv[k] == (t@[k].0@, view_json(t@[k].1)),
            forall|k: int| 0 <= k < j ==> (#[trigger] tv[k]).1 is Str,
        decreases t.len() - j,
    {
        if t[j].1.as_text().is_none() {
            assert(!(tv[j as int].1 is Str));
            return None;
        }
        j = j + 1;
    }
    let mut filled = copy_entries(t);
    fill_table(&mut filled, fbe);
    Some((code.clone(), JsonValue::Object(filled)))
}

fn add_builtins(langs0: &Vec<(String, JsonValue)>, catalog: &Vec<(String, JsonValue)>) -> (r: Option<Vec<(String, JsonValue)>>)
    requires
        view_entries(catalog@) == builtin_catalog(),
    ensures
        r is None <==> with_builtins(view_entries(langs0@), 4) is None,
        r matches Some(l) ==> with_builtins(view_entries(langs0@), 4) == Some(view_entries(l@)),
{
    let mut langs1 = copy_entries(langs0);
    let order: [&str; 4] = ["zh_TW", "zh_CN", "ja_JP", "en_US"];
    let mut n: usize = 0;
    while n < 4
        invariant
            n <= 4,
            order@.len() == 4,
            order@[0]@ == "zh_TW"@,
            order@[1]@ == "zh_CN"@,
            order@[2]@ == "ja_JP"@,
            order@[3]@ == "en_US"@,
            view_entries(catalog@) == builtin_catalog(),
            with_builtins(view_entries(langs0@), n as nat) == Some(view_entries(langs1@)),
        decreases 4 - n,
    {
        assert(order@[n as int]@ == builtin_order()[n as int]);
        if find_entry(&langs1, order[n]).is_none() {
            match find_entry(catalog, order[n]) {
                Some(i) => set_entry(&mut langs1, lit(order[n]), catalog[i].1.copy()),
                None => {
                    proof {
                        lemma_with_builtins_none(view_entries(langs0@), (n + 1) as nat, 4);
                    }
                    return None;
                },
            }
        }
        n = n + 1;
    }
    Some(langs1)
}

fn complete_all(langs1: &Vec<(String, JsonValue)>, catalog: &Vec<(String, JsonValue)>, en: &JsonValue) -> (r: Option<Vec<(String, JsonValue)>>)
    requires
        view_entries(catalog@) == builtin_catalog(),
    ensures
        r is None <==> completed_all(view_entries(langs1@), en@) is None,
        r matches Some(l) ==> completed_all(view_entries(langs1@), en@) == Some(view_entries(l@)),
{
    let ghost l1 = view_entries(langs1@);
    proof {
        lemma_view_entries(langs1@);
    }
    let mut langs2: Vec<(String, JsonValue)> = Vec::new();
    let mut i: usize = 0;
    proof {
        lemma_view_entries(langs2@);
        assert(l1.take(0) =~= Seq::<(Seq<char>, Json)>::empty());
    }
    while i < langs1.len()
        invariant
            i <= langs1.len(),
            l1 == view_entries(langs1@),
            l1.len() == langs1.len(),
            forall|k: int| 0 <= k < l1.len() ==> #[trigger] l1[k] == (langs1@[k].0@, view_json(langs1@[k].1)),
            view_entries(catalog@) == builtin_catalog(),
            completed_all(l1.take(i as int), en@) == Some(view_entries(langs2@)),
        decreases langs1.len() - i,
    {
        assert(l1.take(i + 1).drop_last() =~= l1.take(i as int));
        match complete_one(&langs1[i].0, &langs1[i].1, catalog, en) {
            Some(x) => {
                let ghost prev = langs2@;
                langs2.push(x);
                proof {
                    assert(langs2@.drop_last() == prev);
                }
            },
            None => {
                proof {
                    lemma_completed_all_none(l1, i as int, en@);
                }
                return None;
            },
        }
        i = i + 1;
    }
    assert(l1.take(langs1.len() as int) =~= l1);
    Some(langs2)
}

/// Brings a user's file up to date (see [`merged`]).
pub fn merge_user_file(file: JsonValue) -> (r: Option<JsonValue>)
    requires
        !merge_fails_hard(file@),
    ensures
        r is None <==> merged(file@) is None,
        r matches Some(v) ==> merged(file@) == Some(v@),
        r matches Some(v) ==> (ordered_file(file@) ==> ordered_file(v@)),
{
    proof {
        if merged(file@) is Some && ordered_file(file@) {
            lemma_merge_keeps_order(file@);
        }
    }
    let defaults = default_languages();
    let catalog = match &defaults {
        JsonValue::Object(c) => c,
        _ => {
            assert(false);
            return None;
        },
    };
    proof {
        lemma_view_entries(catalog@);
    }
    let en = match find_entry(catalog, "en_US") {
        Some(i) => &catalog[i].1,
        None => return None,
    };
    let has_current = match file.get("settings") {
        Some(s) => s.get("languages").is_some(),
        None => false,
    };
    let ghost fv = file@;
    let f1 = if has_current {
        file
    } else {
        proof {
            lemma_with_current_keeps_shape(fv, "zh_TW"@);
        }
        set_current(&file, lit("zh_TW"))
    };
    assert(has_settings_object(f1@) || !(f1@ is Object)) by {
        if has_current {
            assert(current_entry(fv) is Some);
        }
    }
    let re = match &f1 {
        JsonValue::Object(re) => re,
        _ => return None,
    };
    let li = match find_entry(re, "languages") {
        Some(i) => i,
        None => return None,
    };
    let langs0 = match &re[li].1 {
        JsonValue::Object(l) => l,
        _ => return None,
    };
    let langs1 = match add_builtins(langs0, catalog) {
        Some(l) => l,
        None => return None,
    };
    let langs2 = match complete_all(&langs1, catalog, en) {
        Some(l) => l,
        None => return None,
    };
    let ghost l2 = view_entries(langs2@);
    let mut re2 = copy_entries(re);
    set_entry(&mut re2, lit("languages"), JsonValue::Object(langs2));
    let f2 = JsonValue::Object(re2);
    proof {
        lemma_view_entries(re@);
        lemma_set_then_get(view_entries(re@), "languages"@, Json::Object(l2), "settings"@);
        lemma_set_then_get(view_entries(re@), "languages"@, Json::Object(l2), "languages"@);
        reveal_strlit("settings");
        reveal_strlit("languages");
        assert("settings"@ != "languages"@) by {
            assert("settings"@.len() != "languages"@.len());
        }
        assert(has_settings_object(f2@));
    }
    let cur = match f2.get("settings") {
        Some(s) => match s.get("languages") {
            Some(l) => l.as_text(),
            None => None,
        },
        None => None,
    };
    let cur_code: &str = match cur {
        Some(c) => c.as_str(),
        None => "zh_TW",
    };
    assert(cur_code@ == current_code_of(f2@));
    let has = match f2.get("languages") {
        Some(l2v) => match l2v.get(cur_code) {
            Some(_) => true,
            None => false,
        },
        None => false,
    };
    if has {
        Some(f2)
    } else {
        Some(set_current(&f2, lit("zh_TW")))
    }
}

/// Whether the file the program reads is kept: it parsed, merged into a
/// usable file, and does not nest absurdly deep.
pub open spec fn accepted(parsed: Option<Json>) -> bool {
    match parsed {
        Some(v) => match merged(v) {
            Some(m) => is_valid(m) && depth(m) <= MAX_NESTING,
            None => false,
        },
        None => false,
    }
}

/// The file the program runs with, given the parse of the file on disk
/// (nothing when it could not be read or is not JSON): the merged file when
/// it is accepted, else the default file.
pub open spec fn loaded(parsed: Option<Json>) -> Json {
    if accepted(parsed) {
        merged(parsed->Some_0)->Some_0
    } else {
        default_config()
    }
}

pub open spec fn parsed_view(parsed: Option<JsonValue>) -> Option<Json> {
    match parsed {
        Some(v) => Some(v@),
        None => None,
    }
}

impl GuiConfig {
    /// The configuration over the default file.
    pub fn defaults() -> (r: GuiConfig)
        ensures
            r@ == default_config(),
            ordered_file(r@),
    {
        proof {
            lemma_default_config_valid();
            lemma_default_is_ordered();
        }
        GuiConfig::from_value(default_value()).unwrap()
    }

    /// What the program starts with, given the parse of its file (see
    /// [`loaded`]); the flag says whether the file was kept, in which case
    /// it is rewritten in place, else the default file replaces it.
    pub fn load_parsed(parsed: Option<JsonValue>) -> (r: (GuiConfig, bool))
        requires
            parsed matches Some(v) ==> !merge_fails_hard(v@),
        ensures
            r.0@ == loaded(parsed_view(parsed)),
            r.1 == accepted(parsed_view(parsed)),
            (parsed matches Some(v) ==> ordered_file(v@)) ==> ordered_file(r.0@),
    {
        if let Some(v) = parsed {
            if let Some(m) = merge_user_file(v) {
                if let Some(cfg) = GuiConfig::from_value(m) {
                    return (cfg, true);
                }
            }
        }
        (GuiConfig::defaults(), false)
    }
}

/// `serde_json::Value`, the document `serde_json` parses.
#[verifier::external_type_specification]
#[verifier::external_body]
pub struct ExJsonDocument(serde_json::Value);

/// What `serde_json::from_str::<serde_json::Value>` parses from `text`, in
/// the library's form; nothing when the text is not JSON.
pub uninterp spec fn parsed_json(text: Seq<char>) -> Option<Json>;

/// `serde_json::from_str::<serde_json::Value>(text)`, the parsed document
/// handed on in the library's form (see `json_value_of`). Claimed: the
/// outcome is a function of the text (named [`parsed_json`]), and the members
/// of the parsed document, and of its `languages` object, come in key order,
/// each key once, since a `serde_json::Map` is a `BTreeMap<String, Value>`
/// (see [`ordered_file`]). The grammar is left to the name.
#[verifier::external_body]
fn parse_json(text: &str) -> (r: Option<JsonValue>)
    ensures
        match r {
            Some(v) => parsed_json(text@) == Some(v@),
            None => parsed_json(text@) is None,
        },
        r matches Some(v) ==> ordered_file(v@),
{
    match serde_json::from_str::<serde_json::Value>(text) {
        Ok(v) => Some(json_value_of(v)),
        Err(_) => None,
    }
}

/// The result of [`parse_json`] in the library's form, variant for variant:
/// a number keeps the text `serde_json` writes for it, an object its members
/// in the map's order. (It is separate only because it recurses.)
#[verifier::external_body]
fn json_value_of(v: serde_json::Value) -> JsonValue {
    match v {
        serde_json::Value::Null => JsonValue::Null,
        serde_json::Value::Bool(b) => JsonValue::Bool(b),
        serde_json::Value::Number(n) => JsonValue::Number(n.to_string()),
        serde_json::Value::String(s) => JsonValue::Str(s),
        serde_json::Value::Array(a) => JsonValue::Array(a.into_iter().map(json_value_of).collect()),
        serde_json::Value::Object(m) => JsonValue::Object(m.into_iter().map(|(k, x)| (k, json_value_of(x))).collect()),
    }
}

/// The language file as the program reads it: its parse when the file could
/// be read, nothing when it could not.
pub open spec fn parsed_of(text: Option<Seq<char>>) -> Option<Json> {
    match text {
        Some(t) => parsed_json(t),
        None => None,
    }
}

pub open spec fn text_view(text: Option<&str>) -> Option<Seq<char>> {
    match text {
        Some(t) => Some(t@),
        None => None,
    }
}

/// How `serde_json` names the kind of a value in its messages.
pub open spec fn kind_name(v: Json) -> Seq<char> {
    match v {
        Json::Null => "null"@,
        Json::Bool(_) => "boolean"@,
        Json::Number(_) => "number"@,
        Json::Str(_) => "string"@,
        Json::Array(_) => "array"@,
        Json::Object(_) => "object"@,
    }
}

/// Why writing `file["settings"]["languages"]` stops the program: the first
/// of the two keys that lands on a value that is neither null nor an object.
pub open spec fn failure_message(file: Json) -> Seq<char> {
    if !(file is Null || file is Object) {
        "cannot access key \"settings\" in JSON "@ + kind_name(file)
    } else {
        "cannot access key \"languages\" in JSON "@ + kind_name(file.get("settings"@)->Some_0)
    }
}

fn kind_text(v: &JsonValue) -> (r: &'static str)
    ensures
        r@ == kind_name(v@),
{
    match v {
        JsonValue::Null => "null",
        JsonValue::Bool(_) => "boolean",
        JsonValue::Number(_) => "number",
        JsonValue::Str(_) => "string",
        JsonValue::Array(_) => "array",
        JsonValue::Object(_) => "object",
    }
}

fn failure_text(file: &JsonValue) -> (r: String)
    requires
        merge_fails_hard(file@),
    ensures
        r@ == failure_message(file@),
{
    match file {
        JsonValue::Null | JsonValue::Object(_) => {
            let settings = file.get("settings");
            match settings {
                Some(s) => {
                    let mut out = lit("cannot access key \"languages\" in JSON ");
                    crate::text::push_text(&mut out, kind_text(s));
                    out
                },
                None => {
                    assert(false);
                    String::new()
                },
            }
        },
        _ => {
            let mut out = lit("cannot access key \"settings\" in JSON ");
            crate::text::push_text(&mut out, kind_text(file));
            out
        },
    }
}

impl GuiConfig {
    /// What the program starts with, given the text of its file (nothing
    /// when the file could not be read; see [`loaded`]); the flag says
    /// whether the file was kept. Refused, with the message the program
    /// stops with, when the file's `settings.languages` cannot be written
    /// (see [`merge_fails_hard`]).
    pub fn load_text(text: Option<&str>) -> (r: Result<(GuiConfig, bool), String>)
        ensures
            r is Err <==> (parsed_of(text_view(text)) matches Some(v) && merge_fails_hard(v)),
            r matches Err(m) ==> m@ == failure_message(parsed_of(text_view(text))->Some_0),
            r matches Ok(p) ==> p.0@ == loaded(parsed_of(text_view(text))) && p.1 == accepted(
                parsed_of(text_view(text)),
            ),
            r matches Ok(p) ==> ordered_file(p.0@),
    {
        let parsed = match text {
            Some(t) => parse_json(t),
            None => None,
        };
        if let Some(v) = &parsed {
            if merge_would_fail_hard(v) {
                return Err(failure_text(v));
            }
        }
        Ok(GuiConfig::load_parsed(parsed))
    }
}

proof fn lemma_with_builtins_none(langs: Seq<(Seq<char>, Json)>, n: nat, m: nat)
    requires
        n <= m,
        with_builtins(langs, n) is None,
    ensures
        with_builtins(langs, m) is None,
    decreases m - n,
{
    if n < m {
        lemma_with_builtins_none(langs, n + 1, m);
    }
}

proof fn lemma_completed_all_none(langs: Seq<(Seq<char>, Json)>, i: int, en: Json)
    requires
        0 <= i < langs.len(),
        completed_all(langs.take(i + 1), en) is None,
    ensures
        completed_all(langs, en) is None,
    decreases langs.len() - i,
{
    if i + 1 < langs.len() {
        assert(langs.take(i + 2).drop_last() =~= langs.take(i + 1));
        lemma_completed_all_none(langs, i + 1, en);
    } else {
        assert(langs.take(i + 1) =~= langs);
    }
}


/// Where a key is found: the first entry with it.
pub proof fn lemma_get_found(e: Seq<(Seq<char>, Json)>, k: Seq<char>)
    requires
        entries_has(e, k),
    ensures
        exists|i: int|
            0 <= i < e.len() && (#[trigger] e[i]).0 == k && entries_get(e, k) == Some(e[i].1) && forall|j: int|
                0 <= j < i ==> e[j].0 != k,
    decreases e.len(),
{
    if e[0].0 != k {
        lemma_get_found(e.drop_first(), k);
        let i = choose|i: int|
            0 <= i < e.drop_first().len() && (#[trigger] e.drop_first()[i]).0 == k && entries_get(e.drop_first(), k)
                == Some(e.drop_first()[i].1) && forall|j: int| 0 <= j < i ==> e.drop_first()[j].0 != k;
        assert(e[i + 1] == e.drop_first()[i]);
        assert forall|j: int| 0 <= j < i + 1 implies e[j].0 != k by {
            if j > 0 {
                assert(e[j] == e.drop_first()[j - 1]);
            }
        }
    } else {
        assert(e[0].0 == k);
    }
}

proof fn lemma_with_builtins_facts(langs: Seq<(Seq<char>, Json)>, n: nat)
    requires
        n <= 4,
        with_builtins(langs, n) is Some,
    ensures
        forall|k: int| 0 <= k < n ==> entries_has(with_builtins(langs, n)->Some_0, #[trigger] builtin_order()[k]),
        forall|c: Seq<char>| entries_has(langs, c) ==> #[trigger] entries_get(with_builtins(langs, n)->Some_0, c) == entries_get(langs, c),
        forall|c: Seq<char>| #[trigger] entries_has(with_builtins(langs, n)->Some_0, c) ==> entries_has(langs, c) || exists|k: int|
            0 <= k < n && c == builtin_order()[k],
    decreases n,
{
    if n > 0 {
        lemma_with_builtins_facts(langs, (n - 1) as nat);
        let prev = with_builtins(langs, (n - 1) as nat)->Some_0;
        let code = builtin_order()[n - 1];
        if !entries_has(prev, code) {
            let t = entries_get(builtin_catalog(), code)->Some_0;
            let cur = entries_set(prev, code, t);
            assert forall|c: Seq<char>| true implies #[trigger] entries_get(cur, c) == if c == code { Some(t) } else { entries_get(prev, c) } by {
                lemma_set_then_get(prev, code, t, c);
            }
            assert forall|k: int| 0 <= k < n implies entries_has(cur, #[trigger] builtin_order()[k]) by {
                if k < n - 1 {
                    assert(entries_has(prev, builtin_order()[k]));
                }
            }
            assert forall|c: Seq<char>| entries_has(langs, c) implies #[trigger] entries_get(cur, c) == entries_get(langs, c) by {
                assert(entries_get(prev, c) == entries_get(langs, c));
                if c == code {
                    assert(entries_has(prev, c));
                }
            }
            assert forall|c: Seq<char>| #[trigger] entries_has(cur, c) implies entries_has(langs, c) || exists|k: int|
                0 <= k < n && c == builtin_order()[k] by {
                if c != code {
                    assert(entries_has(prev, c));
                } else {
                    assert(c == builtin_order()[n - 1]);
                }
            }
        } else {
            assert forall|k: int| 0 <= k < n implies entries_has(prev, #[trigger] builtin_order()[k]) by {}
            assert forall|c: Seq<char>| #[trigger] entries_has(prev, c) implies entries_has(langs, c) || exists|k: int|
                0 <= k < n && c == builtin_order()[k] by {
                if !entries_has(langs, c) {
                    let k = choose|k: int| 0 <= k < n - 1 && c == builtin_order()[k];
                }
            }
        }
    }
}

proof fn lemma_completed_all_facts(langs: Seq<(Seq<char>, Json)>, en: Json)
    requires
        completed_all(langs, en) is Some,
    ensures
        completed_all(langs, en)->Some_0.len() == langs.len(),
        forall|i: int| 0 <= i < langs.len() ==> Some(#[trigger] completed_all(langs, en)->Some_0[i]) == completed(langs[i], en),
    decreases langs.len(),
{
    if langs.len() > 0 {
        lemma_completed_all_facts(langs.drop_last(), en);
        let prev = completed_all(langs.drop_last(), en)->Some_0;
        let all = completed_all(langs, en)->Some_0;
        assert forall|i: int| 0 <= i < langs.len() implies Some(#[trigger] all[i]) == completed(langs[i], en) by {
            if i < langs.len() - 1 {
                assert(all[i] == prev[i]);
                assert(langs.drop_last()[i] == langs[i]);
            }
        }
    }
}

proof fn lemma_same_keys_get(a: Seq<(Seq<char>, Json)>, b: Seq<(Seq<char>, Json)>, k: Seq<char>)
    requires
        a.len() == b.len(),
        forall|i: int| 0 <= i < a.len() ==> (#[trigger] a[i]).0 == b[i].0,
    ensures
        entries_has(a, k) <==> entries_has(b, k),
        entries_has(a, k) ==> exists|i: int|
            0 <= i < a.len() && entries_get(a, k) == Some((#[trigger] a[i]).1) && entries_get(b, k) == Some(b[i].1)
                && a[i].0 == k,
    decreases a.len(),
{
    if a.len() > 0 {
        if a[0].0 != k {
            assert forall|i: int| 0 <= i < a.drop_first().len() implies (#[trigger] a.drop_first()[i]).0 == b.drop_first()[i].0 by {
                assert(a.drop_first()[i] == a[i + 1]);
                assert(b.drop_first()[i] == b[i + 1]);
            }
            lemma_same_keys_get(a.drop_first(), b.drop_first(), k);
            if entries_has(a, k) {
                let i = choose|i: int|
                    0 <= i < a.drop_first().len() && entries_get(a.drop_first(), k) == Some((#[trigger] a.drop_first()[i]).1)
                        && entries_get(b.drop_first(), k) == Some(b.drop_first()[i].1) && a.drop_first()[i].0 == k;
                assert(a[i + 1] == a.drop_first()[i]);
                assert(b[i + 1] == b.drop_first()[i]);
            }
        } else {
            assert(a[0].0 == k);
        }
    }
}

proof fn lemma_filled_table_facts(t: Seq<(Seq<char>, Json)>, fb: Seq<(Seq<char>, Json)>)
    ensures
        forall|k: Seq<char>| entries_has(t, k) ==> #[trigger] entries_get(filled_table(t, fb), k) == entries_get(t, k),
        forall|i: int| 0 <= i < fb.len() ==> entries_has(filled_table(t, fb), #[trigger] fb[i].0),
    decreases fb.len(),
{
    if fb.len() > 0 {
        let d = fb.drop_last();
        lemma_filled_table_facts(t, d);
        let prev = filled_table(t, d);
        let (k0, v0) = fb.last();
        if !entries_has(prev, k0) {
            let cur = entries_set(prev, k0, v0);
            assert forall|k: Seq<char>| true implies #[trigger] entries_get(cur, k) == if k == k0 { Some(v0) } else { entries_get(prev, k) } by {
                lemma_set_then_get(prev, k0, v0, k);
            }
            assert forall|k: Seq<char>| entries_has(t, k) implies #[trigger] entries_get(cur, k) == entries_get(t, k) by {
                assert(entries_get(prev, k) == entries_get(t, k));
            }
            assert forall|i: int| 0 <= i < fb.len() implies entries_has(cur, #[trigger] fb[i].0) by {
                if i < fb.len() - 1 {
                    assert(fb[i] == d[i]);
                    assert(entries_has(prev, d[i].0));
                }
            }
        } else {
            assert forall|i: int| 0 <= i < fb.len() implies entries_has(prev, #[trigger] fb[i].0) by {
                if i < fb.len() - 1 {
                    assert(fb[i] == d[i]);
                }
            }
        }
    }
}

/// The languages of the merged file, and how they came about.
proof fn lemma_merged_languages(file: Json)
    requires
        merged(file) is Some,
    ensures
        ({
            let en = entries_get(builtin_catalog(), "en_US"@)->Some_0;
            let f1 = if current_entry(file) is None { with_current(file, "zh_TW"@) } else { file };
            let langs0 = entries_get(f1->Object_0, "languages"@)->Some_0->Object_0;
            let langs1 = with_builtins(langs0, 4)->Some_0;
            let langs2 = completed_all(langs1, en)->Some_0;
            &&& file.get("languages"@) == Some(Json::Object(langs0))
            &&& merged(file)->Some_0.get("languages"@) == Some(Json::Object(langs2))
            &&& has_settings_object(merged(file)->Some_0)
            &&& with_builtins(langs0, 4) is Some
            &&& completed_all(langs1, en) is Some
            &&& entries_has(langs2, current_code_of(merged(file)->Some_0)) || current_code_of(merged(file)->Some_0) == "zh_TW"@
        }),
{
    let en = entries_get(builtin_catalog(), "en_US"@)->Some_0;
    let f1 = if current_entry(file) is None { with_current(file, "zh_TW"@) } else { file };
    if current_entry(file) is None {
        lemma_with_current_keeps_shape(file, "zh_TW"@);
        if !(file is Object || file is Null) {
            assert(with_current(file, "zh_TW"@).get("languages"@) is None) by {
                let ns = entries_set(Seq::<(Seq<char>, Json)>::empty(), "languages"@, Json::Str("zh_TW"@));
                lemma_set_then_get(Seq::empty(), "settings"@, Json::Object(ns), "languages"@);
                reveal_strlit("settings");
                reveal_strlit("languages");
                assert("settings"@.len() != "languages"@.len());
            }
        }
        if file is Null {
            assert(file.get("languages"@) is None);
        }
    } else {
        assert(has_settings_object(file));
    }
    let re = f1->Object_0;
    let langs0 = entries_get(re, "languages"@)->Some_0->Object_0;
    let langs1 = with_builtins(langs0, 4)->Some_0;
    let langs2 = completed_all(langs1, en)->Some_0;
    let f2 = Json::Object(entries_set(re, "languages"@, Json::Object(langs2)));
    lemma_set_then_get(re, "languages"@, Json::Object(langs2), "languages"@);
    lemma_set_then_get(re, "languages"@, Json::Object(langs2), "settings"@);
    reveal_strlit("settings");
    reveal_strlit("languages");
    assert("settings"@.len() != "languages"@.len());
    assert(has_settings_object(f2));
    if !entries_has(langs2, current_code_of(f2)) {
        lemma_with_current_keeps_shape(f2, "zh_TW"@);
    }
}

/// Merging keeps every text the user wrote: a text under a language and a
/// key of the file is the text under them after the merge.
pub proof fn lemma_merge_keeps_user_texts(file: Json, code: Seq<char>, key: Seq<char>, text: Seq<char>)
    requires
        merged(file) is Some,
        file.get("languages"@) matches Some(langs) && langs.get(code) matches Some(table) && table.get(key) == Some(
            Json::Str(text),
        ),
    ensures
        merged(file)->Some_0.get("languages"@)->Some_0.get(code)->Some_0.get(key) == Some(Json::Str(text)),
{
    lemma_merged_languages(file);
    lemma_catalog_lookup();
    let en = entries_get(builtin_catalog(), "en_US"@)->Some_0;
    let f1 = if current_entry(file) is None { with_current(file, "zh_TW"@) } else { file };
    let langs0 = entries_get(f1->Object_0, "languages"@)->Some_0->Object_0;
    let langs1 = with_builtins(langs0, 4)->Some_0;
    let langs2 = completed_all(langs1, en)->Some_0;
    lemma_with_builtins_facts(langs0, 4);
    assert(entries_get(langs1, code) == entries_get(langs0, code));
    lemma_completed_all_facts(langs1, en);
    assert forall|i: int| 0 <= i < langs1.len() implies (#[trigger] langs1[i]).0 == langs2[i].0 by {
        assert(Some(langs2[i]) == completed(langs1[i], en));
    }
    lemma_same_keys_get(langs1, langs2, code);
    let i = choose|i: int|
        0 <= i < langs1.len() && entries_get(langs1, code) == Some((#[trigger] langs1[i]).1) && entries_get(langs2, code)
            == Some(langs2[i].1);
    assert(Some(langs2[i]) == completed(langs1[i], en));
    let t = langs1[i].1->Object_0;
    let fb = fallback_of(langs1[i].0, en)->Object_0;
    lemma_filled_table_facts(t, fb);
}

/// After a merge every built-in language is there, every language holds
/// every key of its fallback (its own built-in table, else English), and
/// the current language is one the file holds.
pub proof fn lemma_merge_completes(file: Json)
    requires
        merged(file) is Some,
    ensures
        ({
            let m = merged(file)->Some_0;
            let langs = m.get("languages"@)->Some_0->Object_0;
            &&& m.get("languages"@) matches Some(Json::Object(_))
            &&& forall|k: int| 0 <= k < 4 ==> entries_has(langs, #[trigger] builtin_order()[k])
            &&& entries_has(langs, current_code_of(m))
            &&& forall|code: Seq<char>, key: Seq<char>|
                entries_has(langs, code) && #[trigger] entries_has(
                    fallback_of(code, entries_get(builtin_catalog(), "en_US"@)->Some_0)->Object_0,
                    key,
                ) ==> entries_get(langs, code)->Some_0 is Object && entries_has(
                    entries_get(langs, code)->Some_0->Object_0,
                    key,
                )
        }),
{
    lemma_merged_languages(file);
    lemma_catalog_lookup();
    let m = merged(file)->Some_0;
    let en = entries_get(builtin_catalog(), "en_US"@)->Some_0;
    let f1 = if current_entry(file) is None { with_current(file, "zh_TW"@) } else { file };
    let langs0 = entries_get(f1->Object_0, "languages"@)->Some_0->Object_0;
    let langs1 = with_builtins(langs0, 4)->Some_0;
    let langs2 = completed_all(langs1, en)->Some_0;
    lemma_with_builtins_facts(langs0, 4);
    lemma_completed_all_facts(langs1, en);
    assert forall|i: int| 0 <= i < langs1.len() implies (#[trigger] langs1[i]).0 == langs2[i].0 by {
        assert(Some(langs2[i]) == completed(langs1[i], en));
    }
    assert forall|k: int| 0 <= k < 4 implies entries_has(langs2, #[trigger] builtin_order()[k]) by {
        lemma_same_keys_get(langs1, langs2, builtin_order()[k]);
    }
    reveal_strlit("zh_TW");
    assert(builtin_order()[0] == "zh_TW"@);
    assert forall|code: Seq<char>, key: Seq<char>|
        entries_has(langs2, code) && #[trigger] entries_has(fallback_of(code, en)->Object_0, key) implies entries_get(
        langs2,
        code,
    )->Some_0 is Object && entries_has(entries_get(langs2, code)->Some_0->Object_0, key) by {
        lemma_same_keys_get(langs1, langs2, code);
        let i = choose|i: int|
            0 <= i < langs1.len() && entries_get(langs1, code) == Some((#[trigger] langs1[i]).1) && entries_get(
                langs2,
                code,
            ) == Some(langs2[i].1) && langs1[i].0 == code;
        assert(Some(langs2[i]) == completed(langs1[i], en));
        let t = langs1[i].1->Object_0;
        let fb = fallback_of(code, en)->Object_0;
        lemma_filled_table_facts(t, fb);
        lemma_get_found(fb, key);
    }
}

/// The program always runs with a usable file.
pub proof fn lemma_loaded_is_valid(parsed: Option<Json>)
    ensures
        is_valid(loaded(parsed)),
        depth(loaded(parsed)) <= MAX_NESTING,
{
    lemma_default_config_valid();
}


proof fn lemma_set_keeps_texts(e: Seq<(Seq<char>, Json)>, key: Seq<char>, value: Json)
    requires
        all_texts(e),
        value is Str,
    ensures
        all_texts(entries_set(e, key, value)),
{
    let p = entries_slot(e, key) as int;
    let n = entries_set(e, key, value);
    lemma_slot_bound(e, key);
    assert forall|j: int| 0 <= j < n.len() implies (#[trigger] n[j]).1 is Str by {
        if p < e.len() && e[p].0 == key {
            if j != p {
                assert(n[j] == e[j]);
            }
        } else if j < p {
            assert(n[j] == e[j]);
        } else if j > p {
            assert(n[j] == e[j - 1]);
        }
    }
}

proof fn lemma_filled_table_texts(t: Seq<(Seq<char>, Json)>, fb: Seq<(Seq<char>, Json)>)
    requires
        all_texts(t),
        all_texts(fb),
    ensures
        all_texts(filled_table(t, fb)),
    decreases fb.len(),
{
    if fb.len() > 0 {
        let d = fb.drop_last();
        assert(all_texts(d)) by {
            assert forall|j: int| 0 <= j < d.len() implies (#[trigger] d[j]).1 is Str by {
                assert(d[j] == fb[j]);
            }
        }
        lemma_filled_table_texts(t, d);
        let prev = filled_table(t, d);
        if !entries_has(prev, fb.last().0) {
            lemma_set_keeps_texts(prev, fb.last().0, fb.last().1);
        }
    }
}

proof fn lemma_filled_table_full(t: Seq<(Seq<char>, Json)>, fb: Seq<(Seq<char>, Json)>)
    requires
        forall|i: int| 0 <= i < fb.len() ==> entries_has(t, #[trigger] fb[i].0),
    ensures
        filled_table(t, fb) == t,
    decreases fb.len(),
{
    if fb.len() > 0 {
        let d = fb.drop_last();
        assert forall|i: int| 0 <= i < d.len() implies entries_has(t, #[trigger] d[i].0) by {
            assert(d[i] == fb[i]);
        }
        lemma_filled_table_full(t, d);
        assert(entries_has(t, fb[fb.len() - 1].0));
    }
}

proof fn lemma_with_builtins_full(langs: Seq<(Seq<char>, Json)>, n: nat)
    requires
        n <= 4,
        forall|k: int| 0 <= k < n ==> entries_has(langs, #[trigger] builtin_order()[k]),
    ensures
        with_builtins(langs, n) == Some(langs),
    decreases n,
{
    if n > 0 {
        lemma_with_builtins_full(langs, (n - 1) as nat);
        assert(entries_has(langs, builtin_order()[n - 1]));
    }
}

proof fn lemma_completed_all_fixed(langs: Seq<(Seq<char>, Json)>, en: Json)
    requires
        forall|i: int| 0 <= i < langs.len() ==> completed(#[trigger] langs[i], en) == Some(langs[i]),
    ensures
        completed_all(langs, en) == Some(langs),
    decreases langs.len(),
{
    if langs.len() > 0 {
        let d = langs.drop_last();
        assert forall|i: int| 0 <= i < d.len() implies completed(#[trigger] d[i], en) == Some(d[i]) by {
            assert(d[i] == langs[i]);
        }
        lemma_completed_all_fixed(d, en);
        assert(completed(langs.last(), en) == Some(langs[langs.len() - 1]));
        assert(d.push(langs.last()) =~= langs);
    }
}

/// A table a language inherits from is an object of texts.
proof fn lemma_fallback_texts(code: Seq<char>)
    ensures
        ({
            let en = entries_get(builtin_catalog(), "en_US"@)->Some_0;
            is_text_table(fallback_of(code, en))
        }),
{
    lemma_catalog_lookup();
    lemma_catalog_texts(code);
}

/// A language once completed is complete: completing it again changes
/// nothing.
proof fn lemma_completed_again(entry: (Seq<char>, Json), en: Json)
    requires
        en == entries_get(builtin_catalog(), "en_US"@)->Some_0,
        completed(entry, en) is Some,
    ensures
        completed(completed(entry, en)->Some_0, en) == completed(entry, en),
{
    lemma_fallback_texts(entry.0);
    let fb = fallback_of(entry.0, en)->Object_0;
    let t = entry.1->Object_0;
    let filled = filled_table(t, fb);
    lemma_filled_table_texts(t, fb);
    lemma_filled_table_facts(t, fb);
    lemma_filled_table_full(filled, fb);
}

/// Bringing a file up to date twice is bringing it up to date once: the file
/// the program writes back is left as it is at the next launch. (The file's
/// members are in key order, as `serde_json` keeps them.)
pub proof fn lemma_merge_idempotent(file: Json)
    requires
        merged(file) is Some,
        file matches Json::Object(e) ==> keys_sorted(e),
    ensures
        merged(merged(file)->Some_0) == merged(file),
{
    lemma_merged_languages(file);
    lemma_merge_completes(file);
    lemma_catalog_lookup();
    let m = merged(file)->Some_0;
    let en = entries_get(builtin_catalog(), "en_US"@)->Some_0;
    let f1 = if current_entry(file) is None { with_current(file, "zh_TW"@) } else { file };
    let re = f1->Object_0;
    let langs0 = entries_get(re, "languages"@)->Some_0->Object_0;
    let langs1 = with_builtins(langs0, 4)->Some_0;
    let langs2 = completed_all(langs1, en)->Some_0;
    let f2 = Json::Object(entries_set(re, "languages"@, Json::Object(langs2)));
    reveal_strlit("settings");
    reveal_strlit("languages");
    assert("settings"@ != "languages"@) by {
        assert("settings"@.len() != "languages"@.len());
    }
    // The file's members stay in key order through every store.
    let re0 = match file {
        Json::Object(e) => e,
        _ => Seq::empty(),
    };
    let se0 = match entries_get(re0, "settings"@) {
        Some(Json::Object(e)) => e,
        _ => Seq::empty(),
    };
    lemma_set_keeps_sorted(re0, "settings"@, Json::Object(entries_set(se0, "languages"@, Json::Str("zh_TW"@))));
    assert(keys_sorted(re));
    lemma_set_keeps_sorted(re, "languages"@, Json::Object(langs2));
    let re2 = f2->Object_0;
    let se2 = match entries_get(re2, "settings"@) {
        Some(Json::Object(e)) => e,
        _ => Seq::empty(),
    };
    lemma_set_keeps_sorted(re2, "settings"@, Json::Object(entries_set(se2, "languages"@, Json::Str("zh_TW"@))));
    let rm = m->Object_0;
    assert(keys_sorted(rm));
    // The current language is set, so the second merge starts from `m`.
    lemma_set_then_get(re, "languages"@, Json::Object(langs2), "settings"@);
    if current_entry(file) is None {
        lemma_with_current_keeps_shape(file, "zh_TW"@);
    }
    assert(current_entry(f2) == current_entry(f1));
    if m != f2 {
        lemma_with_current_keeps_shape(f2, "zh_TW"@);
    }
    assert(current_entry(m) is Some);
    // Its languages are all there and complete already.
    assert(entries_get(rm, "languages"@) == Some(Json::Object(langs2)));
    lemma_with_builtins_full(langs2, 4);
    lemma_completed_all_facts(langs1, en);
    assert forall|i: int| 0 <= i < langs2.len() implies completed(#[trigger] langs2[i], en) == Some(langs2[i]) by {
        assert(Some(langs2[i]) == completed(langs1[i], en));
        lemma_completed_again(langs1[i], en);
    }
    lemma_completed_all_fixed(langs2, en);
    lemma_set_existing(rm, "languages"@, Json::Object(langs2));
}


proof fn lemma_has_own_keys(t: Seq<(Seq<char>, Json)>)
    ensures
        forall|i: int| 0 <= i < t.len() ==> entries_has(t, #[trigger] t[i].0),
    decreases t.len(),
{
    if t.len() > 0 {
        lemma_has_own_keys(t.drop_first());
        assert forall|i: int| 0 <= i < t.len() implies entries_has(t, #[trigger] t[i].0) by {
            if i > 0 && t[0].0 != t[i].0 {
                assert(t.drop_first()[i - 1] == t[i]);
            }
        }
    }
}

proof fn lemma_catalog_entry_complete(entry: (Seq<char>, Json), en: Json)
    requires
        en == entries_get(builtin_catalog(), "en_US"@)->Some_0,
        entries_get(builtin_catalog(), entry.0) == Some(entry.1),
    ensures
        completed(entry, en) == Some(entry),
{
    lemma_catalog_texts(entry.0);
    let t = entry.1->Object_0;
    lemma_has_own_keys(t);
    lemma_filled_table_full(t, t);
}

/// The default file is up to date already: merging it gives it back.
pub proof fn lemma_default_is_merged()
    ensures
        merged(default_config()) == Some(default_config()),
{
    lemma_default_config_valid();
    lemma_catalog_lookup();
    reveal_strlit("settings");
    reveal_strlit("languages");
    reveal_strlit("zh_TW");
    reveal_strlit("zh_CN");
    reveal_strlit("ja_JP");
    reveal_strlit("en_US");
    let d = default_config();
    let re = d->Object_0;
    let cat = builtin_catalog();
    let en = entries_get(cat, "en_US"@)->Some_0;
    assert(current_entry(d) is Some);
    lemma_entries_get_at(re, "languages"@, 0);
    assert forall|k: int| 0 <= k < 4 implies entries_has(cat, #[trigger] builtin_order()[k]) by {}
    lemma_with_builtins_full(cat, 4);
    assert forall|i: int| 0 <= i < cat.len() implies completed(#[trigger] cat[i], en) == Some(cat[i]) by {
        lemma_catalog_entry_complete(cat[i], en);
    }
    lemma_completed_all_fixed(cat, en);
    assert(text_lt("languages"@, "settings"@));
    assert(keys_sorted(re));
    lemma_set_existing(re, "languages"@, Json::Object(cat));
}

/// Starting again from the file the program runs with gives that file back:
/// it is kept, and nothing in it changes. (The members of the file read are
/// in key order, as `serde_json` keeps them.)
pub proof fn lemma_reload_keeps_config(parsed: Option<Json>)
    requires
        parsed matches Some(Json::Object(e)) ==> keys_sorted(e),
    ensures
        accepted(Some(loaded(parsed))),
        loaded(Some(loaded(parsed))) == loaded(parsed),
{
    if accepted(parsed) {
        lemma_merge_idempotent(parsed->Some_0);
    } else {
        lemma_default_is_merged();
        lemma_default_config_valid();
    }
}

proof fn lemma_with_builtins_keeps_sorted(langs: Seq<(Seq<char>, Json)>, n: nat)
    requires
        keys_sorted(langs),
        with_builtins(langs, n) is Some,
    ensures
        keys_sorted(with_builtins(langs, n)->Some_0),
    decreases n,
{
    if n > 0 {
        lemma_with_builtins_keeps_sorted(langs, (n - 1) as nat);
        let prev = with_builtins(langs, (n - 1) as nat)->Some_0;
        let code = builtin_order()[n - 1];
        if !entries_has(prev, code) {
            lemma_set_keeps_sorted(prev, code, entries_get(builtin_catalog(), code)->Some_0);
        }
    }
}

/// Bringing a file up to date keeps it in the order `serde_json` keeps.
pub proof fn lemma_merge_keeps_order(file: Json)
    requires
        merged(file) is Some,
        ordered_file(file),
    ensures
        ordered_file(merged(file)->Some_0),
{
    lemma_merged_languages(file);
    let m = merged(file)->Some_0;
    let en = entries_get(builtin_catalog(), "en_US"@)->Some_0;
    let f1 = if current_entry(file) is None { with_current(file, "zh_TW"@) } else { file };
    let re = f1->Object_0;
    let langs0 = entries_get(re, "languages"@)->Some_0->Object_0;
    let langs1 = with_builtins(langs0, 4)->Some_0;
    let langs2 = completed_all(langs1, en)->Some_0;
    let f2 = Json::Object(entries_set(re, "languages"@, Json::Object(langs2)));
    reveal_strlit("settings");
    reveal_strlit("languages");
    assert("settings"@ != "languages"@) by {
        assert("settings"@.len() != "languages"@.len());
    }
    // The members of the file.
    let re0 = match file {
        Json::Object(e) => e,
        _ => Seq::empty(),
    };
    let se0 = match entries_get(re0, "settings"@) {
        Some(Json::Object(e)) => e,
        _ => Seq::empty(),
    };
    lemma_set_keeps_sorted(re0, "settings"@, Json::Object(entries_set(se0, "languages"@, Json::Str("zh_TW"@))));
    assert(keys_sorted(re));
    lemma_set_keeps_sorted(re, "languages"@, Json::Object(langs2));
    let re2 = f2->Object_0;
    let se2 = match entries_get(re2, "settings"@) {
        Some(Json::Object(e)) => e,
        _ => Seq::empty(),
    };
    lemma_set_keeps_sorted(re2, "settings"@, Json::Object(entries_set(se2, "languages"@, Json::Str("zh_TW"@))));
    assert(keys_sorted(m->Object_0));
    // The languages: the built-in ones are stored in order, and completing a
    // table keeps its code.
    assert(languages_of(file) == Some(langs0));
    lemma_with_builtins_keeps_sorted(langs0, 4);
    lemma_completed_all_facts(langs1, en);
    assert forall|a: int, b: int| 0 <= a < b < langs2.len() implies text_lt(#[trigger] langs2[a].0, #[trigger] langs2[b].0) by {
        assert(Some(langs2[a]) == completed(langs1[a], en));
        assert(Some(langs2[b]) == completed(langs1[b], en));
        assert(text_lt(langs1[a].0, langs1[b].0));
    }
    assert(languages_of(m) == Some(langs2));
}

/// The default file is in that order.
pub proof fn lemma_default_is_ordered()
    ensures
        ordered_file(default_config()),
{
    lemma_default_config_valid();
    reveal_strlit("settings");
    reveal_strlit("languages");
    reveal_strlit("zh_TW");
    reveal_strlit("zh_CN");
    reveal_strlit("ja_JP");
    reveal_strlit("en_US");
    let re = default_config()->Object_0;
    assert(text_lt("languages"@, "settings"@));
    lemma_entries_get_at(re, "languages"@, 0);
    let cat = builtin_catalog();
    assert(text_lt("en_US"@, "ja_JP"@));
    assert(text_lt("en_US"@, "zh_CN"@));
    assert(text_lt("en_US"@, "zh_TW"@));
    assert(text_lt("ja_JP"@, "zh_CN"@));
    assert(text_lt("ja_JP"@, "zh_TW"@));
    assert(text_lt("zh_CN"@, "zh_TW"@)) by {
        reveal_with_fuel(text_lt, 5);
    }
    assert(keys_sorted(cat));
}

/// Where a key is found once an entry is added at the end.
proof fn lemma_get_extended(e: Seq<(Seq<char>, Json)>, k: Seq<char>)
    requires
        e.len() > 0,
    ensures
        entries_get(e, k) == if entries_has(e.drop_last(), k) {
            entries_get(e.drop_last(), k)
        } else if e.last().0 == k {
            Some(e.last().1)
        } else {
            None
        },
    decreases e.len(),
{
    if e.len() == 1 {
        assert(e.drop_last().len() == 0);
        assert(e.drop_first().len() == 0);
    } else if e[0].0 != k {
        lemma_get_extended(e.drop_first(), k);
        assert(e.drop_first().drop_last() =~= e.drop_last().drop_first());
        assert(e.drop_last()[0] == e[0]);
    } else {
        assert(e.drop_last()[0] == e[0]);
    }
}

/// A key the table lacks is filled with the first text the fallback has for it.
proof fn lemma_filled_missing(t: Seq<(Seq<char>, Json)>, fb: Seq<(Seq<char>, Json)>, k: Seq<char>)
    requires
        !entries_has(t, k),
    ensures
        entries_get(filled_table(t, fb), k) == entries_get(fb, k),
    decreases fb.len(),
{
    if fb.len() == 0 {
    } else {
        let d = fb.drop_last();
        lemma_filled_missing(t, d, k);
        let prev = filled_table(t, d);
        let (k0, v0) = fb.last();
        lemma_get_extended(fb, k);
        if !entries_has(prev, k0) {
            lemma_set_then_get(prev, k0, v0, k);
            if k0 == k {
                assert(!entries_has(d, k));
            }
        }
    }
}

/// A language the user's file holds gains each key its table lacks with the
/// text of its fallback: the built-in table of the same language when it is
/// a built-in one, English otherwise. User texts are never overwritten (see
/// [`lemma_merge_keeps_user_texts`]).
pub proof fn lemma_merge_fills_from_fallback(file: Json, code: Seq<char>, key: Seq<char>)
    requires
        merged(file) is Some,
        file.get("languages"@) matches Some(langs) && langs.get(code) matches Some(Json::Object(t)) && !entries_has(
            t,
            key,
        ),
    ensures
        merged(file)->Some_0.get("languages"@)->Some_0.get(code)->Some_0.get(key) == match entries_get(
            builtin_catalog(),
            code,
        ) {
            Some(own) => own.get(key),
            None => entries_get(builtin_catalog(), "en_US"@)->Some_0.get(key),
        },
{
    lemma_merged_languages(file);
    lemma_catalog_lookup();
    let en = entries_get(builtin_catalog(), "en_US"@)->Some_0;
    let f1 = if current_entry(file) is None { with_current(file, "zh_TW"@) } else { file };
    let langs0 = entries_get(f1->Object_0, "languages"@)->Some_0->Object_0;
    let langs1 = with_builtins(langs0, 4)->Some_0;
    let langs2 = completed_all(langs1, en)->Some_0;
    lemma_with_builtins_facts(langs0, 4);
    assert(entries_get(langs1, code) == entries_get(langs0, code));
    lemma_completed_all_facts(langs1, en);
    assert forall|i: int| 0 <= i < langs1.len() implies (#[trigger] langs1[i]).0 == langs2[i].0 by {
        assert(Some(langs2[i]) == completed(langs1[i], en));
    }
    lemma_same_keys_get(langs1, langs2, code);
    let i = choose|i: int|
        0 <= i < langs1.len() && entries_get(langs1, code) == Some((#[trigger] langs1[i]).1) && entries_get(langs2, code)
            == Some(langs2[i].1) && langs1[i].0 == code;
    assert(Some(langs2[i]) == completed(langs1[i], en));
    let t = langs1[i].1->Object_0;
    let fb = fallback_of(langs1[i].0, en)->Object_0;
    lemma_filled_missing(t, fb, key);
}

} // verus!
