//! The built-in catalog of interface texts and the file written when there is
//! none.

use vstd::prelude::*;

use crate::json::{entries_get, lemma_entries_get_at, lemma_view_entries, view_entries, Json, JsonValue};
use crate::jsontext::{depth, depth_entries, lemma_depth_entries_bound};
use crate::settings::{has_settings_object, is_valid, valid_table};

verus! {

/// A language table of texts, keys in order.
pub open spec fn text_table(pairs: Seq<(Seq<char>, Seq<char>)>) -> Json {
    Json::Object(pairs.map_values(|p: (Seq<char>, Seq<char>)| (p.0, Json::Str(p.1))))
}

pub open spec fn en_us_texts() -> Seq<(Seq<char>, Seq<char>)> {
    seq![
        ("about"@, "About"@),
        ("btn_invite"@, "Invite"@),
        ("download_update"@, "Download update"@),
        ("exit"@, "Exit"@),
        ("language_name"@, "English"@),
        ("project_name"@, "Rayfish"@),
        ("settings"@, "Settings"@),
        ("tray_restore"@, "Restore window"@),
        ("update_available"@, "New version V{ver} available"@),
    ]
}

pub open spec fn ja_jp_texts() -> Seq<(Seq<char>, Seq<char>)> {
    seq![
        ("about"@, "バージョン情報"@),
        ("btn_invite"@, "招待"@),
        ("download_update"@, "更新をダウンロード"@),
        ("exit"@, "終了"@),
        ("language_name"@, "日本語"@),
        ("project_name"@, "Rayfish"@),
        ("settings"@, "設定"@),
        ("tray_restore"@, "ウィンドウを復元"@),
        ("update_available"@, "新しいバージョン V{ver} があります"@),
    ]
}

pub open spec fn zh_cn_texts() -> Seq<(Seq<char>, Seq<char>)> {
    seq![
        ("about"@, "关于"@),
        ("btn_invite"@, "邀请"@),
        ("download_update"@, "下载更新"@),
        ("exit"@, "退出"@),
        ("language_name"@, "简体中文"@),
        ("project_name"@, "Rayfish"@),
        ("settings"@, "设置"@),
        ("tray_restore"@, "还原窗口"@),
        ("update_available"@, "发现新版本 V{ver}"@),
    ]
}

pub open spec fn zh_tw_texts() -> Seq<(Seq<char>, Seq<char>)> {
    seq![
        ("about"@, "關於"@),
        ("btn_invite"@, "邀請"@),
        ("download_update"@, "下載更新"@),
        ("exit"@, "結束"@),
        ("language_name"@, "繁體中文"@),
        ("project_name"@, "Rayfish"@),
        ("settings"@, "設定"@),
        ("tray_restore"@, "還原視窗"@),
        ("update_available"@, "發現新版本 V{ver}"@),
    ]
}

/// The built-in catalog: one table per built-in language, codes in order.
pub open spec fn builtin_catalog() -> Seq<(Seq<char>, Json)> {
    seq![
        ("en_US"@, text_table(en_us_texts())),
        ("ja_JP"@, text_table(ja_jp_texts())),
        ("zh_CN"@, text_table(zh_cn_texts())),
        ("zh_TW"@, text_table(zh_tw_texts())),
    ]
}

/// The file written when there is no usable one: Traditional Chinese
/// selected, the built-in catalog as the languages.
pub open spec fn default_config() -> Json {
    Json::Object(
        seq![
            ("languages"@, Json::Object(builtin_catalog())),
            ("settings"@, Json::Object(seq![("languages"@, Json::Str("zh_TW"@))])),
        ],
    )
}

fn make_table(pairs: &[(&str, &str)]) -> (r: JsonValue)
    ensures
        r@ == text_table(pairs@.map_values(|p: (&str, &str)| (p.0@, p.1@))),
{
    let mut out: Vec<(String, JsonValue)> = Vec::new();
    let mut i: usize = 0;
    while i < pairs.len()
        invariant
            i <= pairs.len(),
            out.len() == i,
            forall|j: int| 0 <= j < i ==> #[trigger] out@[j].0@ == pairs@[j].0@,
            forall|j: int| 0 <= j < i ==> #[trigger] out@[j].1 == JsonValue::Str(out@[j].1->Str_0),
            forall|j: int| 0 <= j < i ==> (#[trigger] out@[j].1)->Str_0@ == pairs@[j].1@,
        decreases pairs.len() - i,
    {
        let (k, v) = pairs[i];
        out.push((k.to_owned(), JsonValue::Str(v.to_owned())));
        i = i + 1;
    }
    proof {
        lemma_view_entries(out@);
        assert(view_entries(out@) =~= pairs@.map_values(|p: (&str, &str)| (p.0@, p.1@)).map_values(
            |p: (Seq<char>, Seq<char>)| (p.0, Json::Str(p.1)),
        ));
    }
    JsonValue::Object(out)
}

/// The built-in catalog (see [`builtin_catalog`]).
pub fn default_languages() -> (r: JsonValue)
    ensures
        r@ == Json::Object(builtin_catalog()),
{
    let en = [
        ("about", "About"),
        ("btn_invite", "Invite"),
        ("download_update", "Download update"),
        ("exit", "Exit"),
        ("language_name", "English"),
        ("project_name", "Rayfish"),
        ("settings", "Settings"),
        ("tray_restore", "Restore window"),
        ("update_available", "New version V{ver} available"),
    ];
    let ja = [
        ("about", "バージョン情報"),
        ("btn_invite", "招待"),
        ("download_update", "更新をダウンロード"),
        ("exit", "終了"),
        ("language_name", "日本語"),
        ("project_name", "Rayfish"),
        ("settings", "設定"),
        ("tray_restore", "ウィンドウを復元"),
        ("update_available", "新しいバージョン V{ver} があります"),
    ];
    let cn = [
        ("about", "关于"),
        ("btn_invite", "邀请"),
        ("download_update", "下载更新"),
        ("exit", "退出"),
        ("language_name", "简体中文"),
        ("project_name", "Rayfish"),
        ("settings", "设置"),
        ("tray_restore", "还原窗口"),
        ("update_available", "发现新版本 V{ver}"),
    ];
    let tw = [
        ("about", "關於"),
        ("btn_invite", "邀請"),
        ("download_update", "下載更新"),
        ("exit", "結束"),
        ("language_name", "繁體中文"),
        ("project_name", "Rayfish"),
        ("settings", "設定"),
        ("tray_restore", "還原視窗"),
        ("update_available", "發現新版本 V{ver}"),
    ];
    let t_en = make_table(&en);
    let t_ja = make_table(&ja);
    let t_cn = make_table(&cn);
    let t_tw = make_table(&tw);
    assert(en@.map_values(|p: (&str, &str)| (p.0@, p.1@)) =~= en_us_texts());
    assert(ja@.map_values(|p: (&str, &str)| (p.0@, p.1@)) =~= ja_jp_texts());
    assert(cn@.map_values(|p: (&str, &str)| (p.0@, p.1@)) =~= zh_cn_texts());
    assert(tw@.map_values(|p: (&str, &str)| (p.0@, p.1@)) =~= zh_tw_texts());
    let mut out: Vec<(String, JsonValue)> = Vec::new();
    out.push(("en_US".to_owned(), t_en));
    out.push(("ja_JP".to_owned(), t_ja));
    out.push(("zh_CN".to_owned(), t_cn));
    out.push(("zh_TW".to_owned(), t_tw));
    proof {
        lemma_view_entries(out@);
        assert(view_entries(out@) =~= builtin_catalog());
    }
    JsonValue::Object(out)
}

/// The file written when there is no usable one (see [`default_config`]).
pub fn default_value() -> (r: JsonValue)
    ensures
        r@ == default_config(),
{
    let mut settings: Vec<(String, JsonValue)> = Vec::new();
    settings.push(("languages".to_owned(), JsonValue::Str("zh_TW".to_owned())));
    let mut out: Vec<(String, JsonValue)> = Vec::new();
    out.push(("languages".to_owned(), default_languages()));
    out.push(("settings".to_owned(), JsonValue::Object(settings)));
    proof {
        lemma_view_entries(settings@);
        lemma_view_entries(out@);
        assert(view_entries(settings@) =~= seq![("languages"@, Json::Str("zh_TW"@))]);
        assert(view_entries(out@) =~= default_config()->Object_0);
    }
    JsonValue::Object(out)
}


proof fn lemma_text_table_depth(pairs: Seq<(Seq<char>, Seq<char>)>)
    ensures
        depth(text_table(pairs)) == 1,
{
    let e = pairs.map_values(|p: (Seq<char>, Seq<char>)| (p.0, Json::Str(p.1)));
    assert forall|i: int| 0 <= i < e.len() implies depth(#[trigger] e[i].1) <= 0 by {}
    lemma_depth_entries_bound(e, 0);
}

proof fn lemma_table_names(pairs: Seq<(Seq<char>, Seq<char>)>)
    requires
        pairs.len() == 9,
        pairs[0].0 == "about"@,
        pairs[1].0 == "btn_invite"@,
        pairs[2].0 == "download_update"@,
        pairs[3].0 == "exit"@,
        pairs[4].0 == "language_name"@,
        pairs[4].1.len() > 0,
    ensures
        valid_table(text_table(pairs)),
{
    let e = pairs.map_values(|p: (Seq<char>, Seq<char>)| (p.0, Json::Str(p.1)));
    reveal_strlit("about");
    reveal_strlit("btn_invite");
    reveal_strlit("download_update");
    reveal_strlit("exit");
    reveal_strlit("language_name");
    assert("about"@.len() != "language_name"@.len());
    assert("btn_invite"@.len() != "language_name"@.len());
    assert("download_update"@.len() != "language_name"@.len());
    assert("exit"@.len() != "language_name"@.len());
    assert forall|j: int| 0 <= j < 4 implies e[j].0 != "language_name"@ by {
        assert(e[j].0 == pairs[j].0);
    }
    lemma_entries_get_at(e, "language_name"@, 4);
}

/// The file written when there is no usable one is itself usable, and is
/// shallow.
pub proof fn lemma_default_config_valid()
    ensures
        is_valid(default_config()),
        has_settings_object(default_config()),
        depth(default_config()) <= 3,
{
    reveal_strlit("languages");
    reveal_strlit("settings");
    reveal_strlit("zh_TW");
    reveal_strlit("zh_CN");
    reveal_strlit("ja_JP");
    reveal_strlit("en_US");
    reveal_strlit("English");
    reveal_strlit("日本語");
    reveal_strlit("简体中文");
    reveal_strlit("繁體中文");
    let root = default_config()->Object_0;
    assert("languages"@.len() != "settings"@.len());
    assert(root[0].0 != "settings"@);
    lemma_entries_get_at(root, "settings"@, 1);
    lemma_entries_get_at(root, "languages"@, 0);
    lemma_entries_get_at(seq![("languages"@, Json::Str("zh_TW"@))], "languages"@, 0);
    let cat = builtin_catalog();
    assert("en_US"@[0] != "zh_TW"@[0]);
    assert("ja_JP"@[0] != "zh_TW"@[0]);
    assert("zh_CN"@[3] != "zh_TW"@[3]);
    assert forall|j: int| 0 <= j < 3 implies cat[j].0 != "zh_TW"@ by {}
    lemma_entries_get_at(cat, "zh_TW"@, 3);
    lemma_table_names(en_us_texts());
    lemma_table_names(ja_jp_texts());
    lemma_table_names(zh_cn_texts());
    lemma_table_names(zh_tw_texts());
    assert forall|i: int| 0 <= i < cat.len() implies valid_table(#[trigger] cat[i].1) by {}
    lemma_text_table_depth(en_us_texts());
    lemma_text_table_depth(ja_jp_texts());
    lemma_text_table_depth(zh_cn_texts());
    lemma_text_table_depth(zh_tw_texts());
    assert forall|i: int| 0 <= i < cat.len() implies depth(#[trigger] cat[i].1) <= 1 by {}
    lemma_depth_entries_bound(cat, 1);
    let s = seq![("languages"@, Json::Str("zh_TW"@))];
    lemma_depth_entries_bound(s, 0);
    assert forall|i: int| 0 <= i < root.len() implies depth(#[trigger] root[i].1) <= 2 by {}
    lemma_depth_entries_bound(root, 2);
}


proof fn lemma_get_in_table_object(e: Seq<(Seq<char>, Json)>, k: Seq<char>)
    requires
        forall|i: int| 0 <= i < e.len() ==> (#[trigger] e[i]).1 is Object,
    ensures
        entries_get(e, k) matches Some(t) ==> t is Object,
    decreases e.len(),
{
    if e.len() > 0 && e[0].0 != k {
        assert forall|i: int| 0 <= i < e.drop_first().len() implies (#[trigger] e.drop_first()[i]).1 is Object by {
            assert(e.drop_first()[i] == e[i + 1]);
        }
        lemma_get_in_table_object(e.drop_first(), k);
    }
}

/// Each built-in language has its table in the catalog, and every table
/// there is an object.
pub proof fn lemma_catalog_lookup()
    ensures
        entries_get(builtin_catalog(), "en_US"@) == Some(text_table(en_us_texts())),
        entries_get(builtin_catalog(), "ja_JP"@) == Some(text_table(ja_jp_texts())),
        entries_get(builtin_catalog(), "zh_CN"@) == Some(text_table(zh_cn_texts())),
        entries_get(builtin_catalog(), "zh_TW"@) == Some(text_table(zh_tw_texts())),
        forall|c: Seq<char>| #[trigger] entries_get(builtin_catalog(), c) is Some ==> entries_get(builtin_catalog(), c)->Some_0 is Object,
{
    reveal_strlit("zh_TW");
    reveal_strlit("zh_CN");
    reveal_strlit("ja_JP");
    reveal_strlit("en_US");
    assert("en_US"@[0] != "zh_TW"@[0]);
    assert("ja_JP"@[0] != "zh_TW"@[0]);
    assert("zh_CN"@[3] != "zh_TW"@[3]);
    assert("en_US"@[0] != "zh_CN"@[0]);
    assert("ja_JP"@[0] != "zh_CN"@[0]);
    assert("en_US"@[0] != "ja_JP"@[0]);
    let cat = builtin_catalog();
    lemma_entries_get_at(cat, "en_US"@, 0);
    lemma_entries_get_at(cat, "ja_JP"@, 1);
    lemma_entries_get_at(cat, "zh_CN"@, 2);
    lemma_entries_get_at(cat, "zh_TW"@, 3);
    assert forall|c: Seq<char>| #[trigger] entries_get(builtin_catalog(), c) is Some implies entries_get(
        builtin_catalog(),
        c,
    )->Some_0 is Object by {
        lemma_get_in_table_object(cat, c);
    }
}


/// Whether every value of an object's entries is a text.
pub open spec fn all_texts(t: Seq<(Seq<char>, Json)>) -> bool {
    forall|j: int| 0 <= j < t.len() ==> (#[trigger] t[j]).1 is Str
}

/// Whether `t` is an object of texts.
pub open spec fn is_text_table(t: Json) -> bool {
    match t {
        Json::Object(e) => all_texts(e),
        _ => false,
    }
}

proof fn lemma_get_text_object(e: Seq<(Seq<char>, Json)>, k: Seq<char>)
    requires
        forall|i: int| 0 <= i < e.len() ==> is_text_table(#[trigger] e[i].1),
    ensures
        entries_get(e, k) matches Some(t) ==> is_text_table(t),
    decreases e.len(),
{
    if e.len() > 0 && e[0].0 != k {
        assert forall|i: int| 0 <= i < e.drop_first().len() implies is_text_table(#[trigger] e.drop_first()[i].1) by {
            assert(e.drop_first()[i] == e[i + 1]);
        }
        lemma_get_text_object(e.drop_first(), k);
    }
}

/// Every table of the catalog is an object of texts.
pub proof fn lemma_catalog_texts(code: Seq<char>)
    ensures
        entries_get(builtin_catalog(), code) matches Some(t) ==> is_text_table(t),
        entries_get(builtin_catalog(), "en_US"@) matches Some(t) && is_text_table(t),
{
    let cat = builtin_catalog();
    assert forall|i: int| 0 <= i < cat.len() implies is_text_table(#[trigger] cat[i].1) by {}
    lemma_get_text_object(cat, code);
    lemma_get_text_object(cat, "en_US"@);
    lemma_catalog_lookup();
}

} // verus!
