use rayfish_gui::catalog::{default_languages, default_value};
use rayfish_gui::json::JsonValue;
use rayfish_gui::merge::{merge_user_file, merge_would_fail_hard};
use rayfish_gui::settings::{cycle_codes, json_for_script, pretty_file, validate, GuiConfig};
use rayfish_gui::text::html_escape;
use serde_json::Value;

const REF_KEYS: &[&str] = &[
    "language_name",
    "project_name",
    "settings",
    "about",
    "exit",
    "tray_restore",
    "download_update",
    "update_available",
];

fn to_lib(v: &Value) -> JsonValue {
    match v {
        Value::Null => JsonValue::Null,
        Value::Bool(b) => JsonValue::Bool(*b),
        Value::Number(n) => JsonValue::Number(n.to_string()),
        Value::String(s) => JsonValue::Str(s.clone()),
        Value::Array(items) => JsonValue::Array(items.iter().map(to_lib).collect()),
        Value::Object(m) => JsonValue::Object(m.iter().map(|(k, v)| (k.clone(), to_lib(v))).collect()),
    }
}

fn from_lib(v: &JsonValue) -> Value {
    match v {
        JsonValue::Null => Value::Null,
        JsonValue::Bool(b) => Value::Bool(*b),
        JsonValue::Number(n) => serde_json::from_str(n).unwrap(),
        JsonValue::Str(s) => Value::String(s.clone()),
        JsonValue::Array(items) => Value::Array(items.iter().map(from_lib).collect()),
        JsonValue::Object(e) => Value::Object(e.iter().map(|(k, v)| (k.clone(), from_lib(v))).collect()),
    }
}

fn default_json() -> Value {
    from_lib(&default_value())
}

fn merged(v: &Value) -> Value {
    let lib = to_lib(v);
    assert!(!merge_would_fail_hard(&lib));
    from_lib(&merge_user_file(lib).unwrap())
}

fn config_of(v: &Value) -> GuiConfig {
    GuiConfig::from_value(to_lib(v)).unwrap()
}

fn codes_of(v: &Value) -> Vec<String> {
    cycle_codes(&to_lib(v))
}

#[test]
fn inject_dashboard_embeds_current_language() {
    let cfg = GuiConfig::defaults();
    let page = cfg.inject_dashboard(
        "<script>/*__I18N__*/</script> __LANG_NAME__ __TOKEN__",
        "tok",
        "function t(key) { return GUI_T[key] || key; }\n",
    );
    assert!(page.contains("const GUI_T"));
    assert!(page.contains("繁體中文"));
    assert!(page.contains("tok"));
    assert!(!page.contains("__TOKEN__"));
}

#[test]
fn languages_file_order_is_tw_cn_jp_us() {
    let text = pretty_file(&default_value()).expect("pretty");
    let block = text.split("\"languages\": {").nth(1).expect("languages");
    let tw = block.find("\"zh_TW\"").expect("zh_TW");
    let cn = block.find("\"zh_CN\"").expect("zh_CN");
    let jp = block.find("\"ja_JP\"").expect("ja_JP");
    let us = block.find("\"en_US\"").expect("en_US");
    assert!(tw < cn && cn < jp && jp < us, "{block}");
    let parsed: Value = serde_json::from_str(&text).unwrap();
    assert!(validate(&to_lib(&parsed)));
}

#[test]
fn extra_inner_key_is_kept() {
    let mut v = default_json();
    v["languages"]["zh_TW"]["nope"] = Value::String("x".into());
    assert!(validate(&to_lib(&v)));
}

#[test]
fn missing_inner_key_is_filled_from_english() {
    let mut v = default_json();
    v["languages"]["en_US"].as_object_mut().unwrap().remove("about");
    assert!(validate(&to_lib(&v)));
    let merged = merged(&v);
    assert_eq!(merged["languages"]["en_US"]["about"], "About");
}

#[test]
fn custom_language_inherits_english_gaps() {
    let mut v = default_json();
    let mut de = serde_json::Map::new();
    de.insert("language_name".to_string(), Value::String("Deutsch".into()));
    v["languages"]["de_DE"] = Value::Object(de);
    v["settings"]["languages"] = Value::String("de_DE".into());
    assert!(validate(&to_lib(&v)));
    let merged = merged(&v);
    assert_eq!(merged["languages"]["de_DE"]["language_name"], "Deutsch");
    assert_eq!(merged["languages"]["de_DE"]["btn_invite"], "Invite");
    let codes = codes_of(&merged);
    assert!(codes.contains(&"de_DE".to_string()));
}

#[test]
fn default_catalog_has_chrome_keys() {
    let def = default_json();
    let en = def["languages"]["en_US"].as_object().unwrap();
    for key in REF_KEYS {
        assert!(en.contains_key(*key), "missing {key}");
    }
}

#[test]
fn unknown_current_language_fails() {
    let mut v = default_json();
    v["settings"]["languages"] = Value::String("de_DE".into());
    assert!(!validate(&to_lib(&v)));
}

#[test]
fn custom_lang_with_same_keys_validates_and_cycles_last() {
    let mut v = default_json();
    v["languages"]["de_DE"] = v["languages"]["en_US"].clone();
    v["languages"]["de_DE"]["language_name"] = Value::String("Deutsch".into());
    assert!(validate(&to_lib(&v)));
    let codes = codes_of(&v);
    assert_eq!(codes, ["zh_TW", "zh_CN", "ja_JP", "en_US", "de_DE"]);
}

#[test]
fn corrupt_file_is_overwritten() {
    let (cfg, kept) = GuiConfig::load_text(Some("{not json")).unwrap();
    assert!(!kept);
    assert_eq!(cfg.current_code(), "zh_TW");
    let text = cfg.file_text().unwrap();
    let on_disk: Value = serde_json::from_str(&text).unwrap();
    assert!(validate(&to_lib(&on_disk)));
}

#[test]
fn js_locale_maps_builtin_codes() {
    let cfg = GuiConfig::defaults();
    assert_eq!(cfg.js_locale(), "zh-TW");
}

#[test]
fn js_locale_of_every_language() {
    let mut v = default_json();
    for (code, locale) in [("zh_CN", "zh-CN"), ("ja_JP", "ja"), ("en_US", "en")] {
        v["settings"]["languages"] = Value::String(code.into());
        assert_eq!(config_of(&v).js_locale(), locale);
    }
    let mut de = serde_json::Map::new();
    de.insert("language_name".to_string(), Value::String("Deutsch".into()));
    v["languages"]["de_AT_x"] = Value::Object(de);
    v["settings"]["languages"] = Value::String("de_AT_x".into());
    assert_eq!(config_of(&v).js_locale(), "de-AT-x");
}

#[test]
fn default_file_is_the_catalog_with_traditional_chinese() {
    let v = default_json();
    assert_eq!(v["settings"]["languages"], "zh_TW");
    assert_eq!(v["languages"], from_lib(&default_languages()));
    assert_eq!(v["languages"]["zh_TW"]["language_name"], "繁體中文");
    assert_eq!(v["languages"]["en_US"]["about"], "About");
    assert_eq!(v["languages"]["en_US"]["btn_invite"], "Invite");
    assert!(validate(&default_value()));
}

#[test]
fn cycle_walks_every_language_and_returns() {
    let mut cfg = GuiConfig::defaults();
    let mut seen = Vec::new();
    for _ in 0..4 {
        cfg.cycle();
        seen.push(cfg.current_code().to_string());
    }
    assert_eq!(seen, ["zh_CN", "ja_JP", "en_US", "zh_TW"]);
}

#[test]
fn cycle_reaches_custom_language_last() {
    let mut v = default_json();
    v["languages"]["de_DE"] = v["languages"]["en_US"].clone();
    v["languages"]["de_DE"]["language_name"] = Value::String("Deutsch".into());
    v["settings"]["languages"] = Value::String("en_US".into());
    let mut cfg = config_of(&v);
    cfg.cycle();
    assert_eq!(cfg.current_code(), "de_DE");
    assert_eq!(cfg.t("language_name"), "Deutsch");
    cfg.cycle();
    assert_eq!(cfg.current_code(), "zh_TW");
}

#[test]
fn translation_falls_back_to_chinese_then_english_then_key() {
    let mut v = default_json();
    v["languages"]["ja_JP"].as_object_mut().unwrap().remove("about");
    v["languages"]["zh_TW"].as_object_mut().unwrap().remove("exit");
    v["languages"]["ja_JP"].as_object_mut().unwrap().remove("exit");
    v["settings"]["languages"] = Value::String("ja_JP".into());
    let cfg = config_of(&v);
    assert_eq!(cfg.t("settings"), "設定");
    assert_eq!(cfg.t("about"), "關於");
    assert_eq!(cfg.t("exit"), "Exit");
    assert_eq!(cfg.t("no_such_key"), "no_such_key");
}

#[test]
fn window_title_names_project_and_version() {
    let cfg = GuiConfig::defaults();
    assert_eq!(cfg.window_title("1.2.3"), "[B.M] Rayfish V1.2.3 By. [B.M] 圓周率 3.14");
}

#[test]
fn dashboard_table_lays_current_language_over_english() {
    let mut v = default_json();
    v["languages"]["zh_TW"].as_object_mut().unwrap().remove("btn_invite");
    v["languages"]["en_US"]["only_en"] = Value::String("E".into());
    let table = from_lib(&config_of(&v).dashboard_table());
    assert_eq!(table["about"], "關於");
    assert_eq!(table["btn_invite"], "Invite");
    assert_eq!(table["only_en"], "E");
    assert_eq!(table["language_name"], "繁體中文");
}

#[test]
fn inject_dashboard_fills_every_marker() {
    let cfg = GuiConfig::defaults();
    let page = cfg.inject_dashboard("<script>/*__I18N__*/</script><b>__LANG_NAME__</b>?token=__TOKEN__", "abc", "RT");
    assert!(page.starts_with("<script>const GUI_LOCALE = \"zh-TW\";\nconst GUI_T = {"));
    assert!(page.ends_with("RT</script><b>繁體中文</b>?token=abc"));
    assert!(!page.contains("/*__I18N__*/"));
    assert!(!page.contains("__LANG_NAME__"));
}

#[test]
fn json_for_script_escapes_closing_tags_and_separators() {
    let v = JsonValue::Str("</script>\u{2028}\u{2029}\"".to_string());
    assert_eq!(json_for_script(&v), "\"\\u003c/script>\\u2028\\u2029\\\"\"");
}

#[test]
fn json_for_script_matches_serde_output() {
    let v = default_json();
    let expected = serde_json::to_string(&v).unwrap();
    assert_eq!(json_for_script(&to_lib(&v)), expected);
}

#[test]
fn html_escape_replaces_markup() {
    assert_eq!(html_escape("a&b<c>\"d\""), "a&amp;b&lt;c&gt;&quot;d&quot;");
    assert_eq!(html_escape("plain"), "plain");
    assert_eq!(html_escape("&amp;"), "&amp;amp;");
}

#[test]
fn pretty_file_matches_serde_pretty_per_block() {
    let text = pretty_file(&default_value()).unwrap();
    let v = default_json();
    let tw = serde_json::to_string_pretty(&v["languages"]["zh_TW"]).unwrap();
    let indented: Vec<String> = tw.lines().enumerate().map(|(i, l)| if i == 0 { l.to_string() } else { format!("    {l}") }).collect();
    assert!(text.contains(&format!("    \"zh_TW\": {}", indented.join("\n"))));
    assert!(text.starts_with("{\n  \"settings\": {\n    \"languages\": \"zh_TW\"\n  },\n  \"languages\": {\n"));
    assert!(text.ends_with("\n  }\n}\n"));
    let parsed: Value = serde_json::from_str(&text).unwrap();
    assert_eq!(parsed, v);
}

#[test]
fn pretty_file_keeps_extra_members_after_languages() {
    let mut v = default_json();
    v["zeta"] = Value::Array(vec![Value::from(1), Value::Bool(true)]);
    let text = pretty_file(&to_lib(&v)).unwrap();
    assert!(text.ends_with("  },\n  \"zeta\": [\n    1,\n    true\n  ]\n}\n"));
    let parsed: Value = serde_json::from_str(&text).unwrap();
    assert_eq!(parsed, v);
}

#[test]
fn pretty_file_refuses_a_file_without_languages() {
    let mut v = default_json();
    v.as_object_mut().unwrap().remove("languages");
    assert!(pretty_file(&to_lib(&v)).is_none());
}

#[test]
fn merge_sets_missing_current_language() {
    let mut v = default_json();
    v.as_object_mut().unwrap().remove("settings");
    let m = merged(&v);
    assert_eq!(m["settings"]["languages"], "zh_TW");
    let mut v = default_json();
    v["settings"]["languages"] = Value::String("xx_YY".into());
    let m = merged(&v);
    assert_eq!(m["settings"]["languages"], "zh_TW");
}

#[test]
fn merge_adds_missing_builtin_languages() {
    let mut v = default_json();
    v["languages"].as_object_mut().unwrap().remove("ja_JP");
    let m = merged(&v);
    assert_eq!(m["languages"]["ja_JP"], default_json()["languages"]["ja_JP"]);
}

#[test]
fn merge_keeps_user_texts() {
    let mut v = default_json();
    v["languages"]["en_US"]["about"] = Value::String("Info".into());
    let m = merged(&v);
    assert_eq!(m["languages"]["en_US"]["about"], "Info");
}

#[test]
fn merge_refuses_non_text_entries_and_non_object_languages() {
    let mut v = default_json();
    v["languages"]["en_US"]["about"] = Value::Bool(true);
    assert!(merge_user_file(to_lib(&v)).is_none());
    let mut v = default_json();
    v["languages"] = Value::String("none".into());
    assert!(merge_user_file(to_lib(&v)).is_none());
}

#[test]
fn merge_would_fail_where_settings_cannot_be_written() {
    let v: Value = serde_json::from_str(r#"{"settings": 3, "languages": {}}"#).unwrap();
    assert!(merge_would_fail_hard(&to_lib(&v)));
    let v: Value = serde_json::from_str(r#"{"languages": {}}"#).unwrap();
    assert!(!merge_would_fail_hard(&to_lib(&v)));
    assert!(!merge_would_fail_hard(&default_value()));
}

#[test]
fn load_keeps_a_valid_file() {
    let mut v = default_json();
    v["settings"]["languages"] = Value::String("ja_JP".into());
    let (cfg, kept) = GuiConfig::load_parsed(Some(to_lib(&v)));
    assert!(kept);
    assert_eq!(cfg.current_code(), "ja_JP");
}

#[test]
fn validate_refuses_broken_files() {
    let mut v = default_json();
    v["languages"]["en_US"]["language_name"] = Value::String(String::new());
    assert!(!validate(&to_lib(&v)));
    let mut v = default_json();
    v["settings"]["languages"] = Value::String(String::new());
    assert!(!validate(&to_lib(&v)));
    let v: Value = serde_json::from_str(r#"{"settings": {"languages": "a"}, "languages": {}}"#).unwrap();
    assert!(!validate(&to_lib(&v)));
    assert!(!validate(&JsonValue::Null));
}

#[test]
fn reload_gives_back_the_same_file() {
    let mut v = default_json();
    v["languages"]["zh_TW"].as_object_mut().unwrap().remove("about");
    let mut de = serde_json::Map::new();
    de.insert("language_name".to_string(), Value::String("Deutsch".into()));
    v["languages"]["de_DE"] = Value::Object(de);
    v["settings"]["languages"] = Value::String("de_DE".into());
    let (first, kept) = GuiConfig::load_parsed(Some(to_lib(&v)));
    assert!(kept);
    let text = first.file_text().unwrap();
    let reread: Value = serde_json::from_str(&text).unwrap();
    let (second, kept) = GuiConfig::load_parsed(Some(to_lib(&reread)));
    assert!(kept);
    assert_eq!(from_lib(second.value()), from_lib(first.value()));
    assert_eq!(second.file_text().unwrap(), text);
    assert_eq!(second.current_code(), "de_DE");
}

#[test]
fn merging_twice_is_merging_once() {
    let mut v = default_json();
    v.as_object_mut().unwrap().remove("settings");
    v["languages"].as_object_mut().unwrap().remove("ja_JP");
    v["languages"]["en_US"].as_object_mut().unwrap().remove("exit");
    let once = merged(&v);
    let twice = merged(&once);
    assert_eq!(twice, once);
    assert_eq!(merged(&default_json()), default_json());
}

#[test]
fn load_text_keeps_a_usable_file() {
    let mut v = default_json();
    v["settings"]["languages"] = Value::String("ja_JP".into());
    v["zeta"] = serde_json::from_str(r#"[1, 2.5, {"b": 1, "a": "x"}]"#).unwrap();
    let text = serde_json::to_string(&v).unwrap();
    let (cfg, kept) = GuiConfig::load_text(Some(&text)).unwrap();
    assert!(kept);
    assert_eq!(cfg.current_code(), "ja_JP");
    assert_eq!(from_lib(cfg.value()), v);
    let written = cfg.file_text().unwrap();
    let (again, kept) = GuiConfig::load_text(Some(&written)).unwrap();
    assert!(kept);
    assert_eq!(again.file_text().unwrap(), written);
}

#[test]
fn load_text_without_a_file_gives_the_default() {
    let (cfg, kept) = GuiConfig::load_text(None).unwrap();
    assert!(!kept);
    assert_eq!(from_lib(cfg.value()), default_json());
}

#[test]
fn load_text_stops_where_settings_cannot_be_written() {
    let err = GuiConfig::load_text(Some(r#"{"settings": 3, "languages": {}}"#)).err().unwrap();
    assert_eq!(err, "cannot access key \"languages\" in JSON number");
    let err = GuiConfig::load_text(Some("[1]")).err().unwrap();
    assert_eq!(err, "cannot access key \"settings\" in JSON array");
    assert!(GuiConfig::load_text(Some(r#"{"languages": {}}"#)).is_ok());
}

#[test]
fn custom_languages_cycle_in_code_order() {
    let mut v = default_json();
    for (code, name) in [("fr_FR", "Français"), ("de_DE", "Deutsch")] {
        let mut t = serde_json::Map::new();
        t.insert("language_name".to_string(), Value::String(name.into()));
        v["languages"][code] = Value::Object(t);
    }
    let text = r#"{"settings": {"languages": "fr_FR"}, "languages": "#.to_string()
        + &serde_json::to_string(&v["languages"]).unwrap()
        + "}";
    let (cfg, kept) = GuiConfig::load_text(Some(&text)).unwrap();
    assert!(kept);
    assert_eq!(cycle_codes(cfg.value()), ["zh_TW", "zh_CN", "ja_JP", "en_US", "de_DE", "fr_FR"]);
    let written = cfg.file_text().unwrap();
    let block = written.split("\"languages\": {").nth(1).unwrap();
    assert!(block.find("\"de_DE\"").unwrap() < block.find("\"fr_FR\"").unwrap());
}
