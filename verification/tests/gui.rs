use rayfish_gui::catalog::default_languages;
use rayfish_gui::command::{clamp_output, maybe_insert_gui, prepare_ray_args, run_response, run_status, ArgsError, MAX_OUTPUT};
use rayfish_gui::http::{
    assemble, cycle_reply, find_header_end, gui_token, parse_head_text, parse_request_head, query_has_token, refusal,
    respond_text, route, scan_head, success, token_text, HeadScan, HttpError, HttpRequest, Route, MAX_BODY,
};
use rayfish_gui::jsontext::{write_compact, write_pretty};
use rayfish_gui::settings::GuiConfig;
use rayfish_gui::json::JsonValue;
use serde_json::Value;

fn strings(v: &[&str]) -> Vec<String> {
    v.iter().map(|s| s.to_string()).collect()
}

/// The commands that render JSON, as far as these tests need them.
fn json_commands() -> Vec<String> {
    strings(&["status", "firewall"])
}

fn prepare(args: &[&str], json: bool) -> Result<Vec<String>, ArgsError> {
    prepare_ray_args(strings(args), json, &json_commands())
}

fn request(method: &str, path: &str, target: &str, headers: &[(&str, &str)]) -> HttpRequest {
    HttpRequest {
        method: method.to_string(),
        target: target.to_string(),
        path: path.to_string(),
        headers: headers.iter().map(|(k, v)| (k.to_string(), v.to_string())).collect(),
        body: Vec::new(),
    }
}

#[test]
fn prepare_args_strips_binary_name_and_appends_json() {
    let args = prepare(&["ray", "status"], true).unwrap();
    assert_eq!(args, ["status", "--json"]);
}

#[test]
fn prepare_args_appends_json_after_a_nested_action() {
    let args = prepare(&["firewall", "show"], true).unwrap();
    assert_eq!(args, ["firewall", "show", "--json"]);
}

#[test]
fn prepare_args_leaves_json_off_commands_that_do_not_take_it() {
    let args = prepare(&["up"], true).unwrap();
    assert_eq!(args, ["up"]);
}

#[test]
fn prepare_args_blocks_hidden_process_commands() {
    assert!(prepare(&["daemon"], false).is_err());
    assert!(prepare(&["--json", "gui"], false).is_err());
}

#[test]
fn prepare_args_drops_blanks_and_keeps_existing_json() {
    let args = prepare(&["  ", "status", "\t", "--json"], true).unwrap();
    assert_eq!(args, ["status", "--json"]);
    let args = prepare(&["status"], false).unwrap();
    assert_eq!(args, ["status"]);
}

#[test]
fn prepare_args_errors_say_why() {
    match prepare(&["ray", " "], true) {
        Err(e) => {
            assert!(matches!(e, ArgsError::Empty));
            assert_eq!(e.message(), "enter a ray command");
        }
        Ok(_) => panic!("empty command accepted"),
    }
    match prepare(&["--verbose", "gui"], true) {
        Err(e) => assert_eq!(e.message(), "the GUI cannot run `gui`"),
        Ok(_) => panic!("gui accepted"),
    }
}

#[test]
fn prepare_args_with_only_flags_passes_them_through() {
    let args = prepare(&["--version"], true).unwrap();
    assert_eq!(args, ["--version"]);
}

#[test]
fn gui_html_injects_i18n_catalog() {
    let mut catalog = String::new();
    write_pretty(&default_languages(), 0, &mut catalog);
    assert!(catalog.contains("\"zh_TW\""));
    assert!(catalog.contains("\"zh_CN\""));
    assert!(catalog.contains("\"ja_JP\""));
    assert!(catalog.contains("\"en_US\""));
    assert!(catalog.contains("\"btn_invite\""));
    // The page and its script are supplied by the application; what the
    // library owes is that both markers of a page are filled in.
    let page = GuiConfig::defaults().inject_dashboard("<html>/*__I18N__*/ __LANG_NAME__</html>", "t0", "");
    assert!(!page.contains("/*__I18N__*/"));
    assert!(!page.contains("__LANG_NAME__"));
    assert!(page.contains("const GUI_T = {"));
}

#[test]
fn explorer_double_click_inserts_gui() {
    let bare = vec![String::from("ray")];
    assert_eq!(maybe_insert_gui(bare.clone(), false, String::from("gui")), bare);
    let got = maybe_insert_gui(bare, true, String::from("gui"));
    assert_eq!(got.len(), 2);
    assert_eq!(got[1], "gui");
}

#[test]
fn explorer_default_does_not_override_real_args() {
    let args = vec![String::from("ray"), String::from("status")];
    assert_eq!(maybe_insert_gui(args.clone(), true, String::from("gui")), args);
}

#[test]
fn token_query_must_match() {
    assert!(query_has_token("/?token=abc", "abc"));
    assert!(!query_has_token("/?token=abcd", "abc"));
    assert!(!query_has_token("/", "abc"));
}

#[test]
fn token_may_stand_among_other_query_parts() {
    assert!(query_has_token("/?lang=x&token=abc&y", "abc"));
    assert!(!query_has_token("/?xtoken=abc", "abc"));
    assert!(!query_has_token("/?token=abc", ""));
    assert!(query_has_token("/?a?token=abc", "abc") == false);
}

#[test]
fn clamp_output_cuts_long_output() {
    let short = "x".repeat(10);
    assert_eq!(clamp_output(short.clone()), short);
    let exact = "y".repeat(MAX_OUTPUT);
    assert_eq!(clamp_output(exact.clone()), exact);
    let long = "z".repeat(MAX_OUTPUT + 5);
    let got = clamp_output(long);
    assert_eq!(got.len(), MAX_OUTPUT + "\n... output truncated ...\n".len());
    assert!(got.ends_with("z\n... output truncated ...\n"));
}

#[test]
fn run_status_falls_back_for_missing_codes() {
    assert_eq!(run_status(Some(3), true), 3);
    assert_eq!(run_status(None, true), 124);
    assert_eq!(run_status(None, false), 1);
}

#[test]
fn run_response_reports_the_outcome() {
    let r = run_response(strings(&["status"]), Some(0), false, b"out", b"err").unwrap();
    assert_eq!(r.command, ["status"]);
    assert_eq!(r.status, 0);
    assert!(r.success);
    assert_eq!(r.stdout, "out");
    assert_eq!(r.stderr, "err");
    assert!(!r.timed_out);
    let r = run_response(strings(&["up"]), None, true, b"", b"").unwrap();
    assert_eq!(r.status, 124);
    assert!(!r.success);
    assert!(r.timed_out);
}

#[test]
fn run_response_success_is_exit_code_zero_in_time() {
    let r = run_response(strings(&["up"]), Some(1), false, b"", b"").unwrap();
    assert_eq!(r.status, 1);
    assert!(!r.success);
    let r = run_response(strings(&["up"]), None, false, b"", b"").unwrap();
    assert_eq!(r.status, 1);
    assert!(!r.success);
    let r = run_response(strings(&["up"]), Some(0), true, b"", b"").unwrap();
    assert!(!r.success);
}

#[test]
fn run_response_decodes_output_lossily_and_cuts_it() {
    let r = run_response(strings(&["up"]), Some(0), false, b"ok\xff", b"\xe6\x97\xa5").unwrap();
    assert_eq!(r.stdout, "ok\u{fffd}");
    assert_eq!(r.stderr, "日");
    let long = vec![b'a'; MAX_OUTPUT + 3];
    let r = run_response(strings(&["up"]), Some(0), false, &long, b"").unwrap();
    assert_eq!(r.stdout, format!("{}\n... output truncated ...\n", "a".repeat(MAX_OUTPUT)));
    let mut split = vec![b'a'; MAX_OUTPUT - 1];
    split.extend_from_slice("日本".as_bytes());
    assert!(run_response(strings(&["up"]), Some(0), false, &split, b"").is_none());
    assert!(run_response(strings(&["up"]), Some(0), false, b"", &split).is_none());
}

#[test]
fn header_end_is_the_first_blank_line() {
    assert_eq!(find_header_end(b"GET / HTTP/1.1\r\nA: b\r\n\r\nbody\r\n\r\n"), Some(20));
    assert_eq!(find_header_end(b"GET / HTTP/1.1\r\n"), None);
    assert_eq!(find_header_end(b"\r\n\r"), None);
    assert_eq!(find_header_end(b"\r\n\r\n"), Some(0));
}

#[test]
fn scan_head_stops_at_the_limit() {
    assert!(matches!(scan_head(b"GET /\r\n\r\n"), HeadScan::Complete(5)));
    assert!(matches!(scan_head(b"GET /"), HeadScan::NeedMore));
    let big = vec![b'a'; MAX_BODY + 1];
    assert!(matches!(scan_head(&big), HeadScan::TooLarge));
}

#[test]
fn request_head_is_read() {
    let head = parse_head_text("POST /run?x=1 HTTP/1.1\r\nHost: 127.0.0.1\r\nX-Rayfish-Token:  abc \r\nContent-Length: 12\r\nbroken line").unwrap();
    assert_eq!(head.method, "POST");
    assert_eq!(head.target, "/run?x=1");
    assert_eq!(head.path, "/run");
    assert_eq!(head.headers.len(), 3);
    assert_eq!(head.headers[1], ("X-Rayfish-Token".to_string(), "abc".to_string()));
    assert_eq!(head.content_len, 12);
}

#[test]
fn request_head_errors() {
    assert!(matches!(parse_head_text(""), Err(HttpError::MissingRequestLine)));
    assert!(matches!(
        parse_head_text("POST /run HTTP/1.1\r\ncontent-length: 65537"),
        Err(HttpError::BodyTooLarge)
    ));
    assert_eq!(HttpError::BodyTooLarge.message(), "request body too large");
    assert_eq!(HttpError::Empty.message(), "empty request");
    assert_eq!(HttpError::HeadTooLarge.message(), "request headers too large");
    assert_eq!(HttpError::MissingRequestLine.message(), "missing request line");
}

#[test]
fn request_head_bad_length_counts_as_none() {
    let head = parse_head_text("GET / HTTP/1.1\r\nContent-Length: 12x").unwrap();
    assert_eq!(head.content_len, 0);
    let head = parse_head_text("GET").unwrap();
    assert_eq!(head.method, "GET");
    assert_eq!(head.target, "");
    assert_eq!(head.path, "");
}

#[test]
fn request_head_bytes_are_decoded_lossily() {
    let head = parse_request_head(b"GET /\xff HTTP/1.1\r\nA: \xe6\x97\xa5").unwrap();
    assert_eq!(head.target, "/\u{fffd}");
    assert_eq!(head.headers[0].1, "日");
}

#[test]
fn assemble_takes_the_announced_body() {
    let buf = b"POST /run HTTP/1.1\r\nContent-Length: 4\r\n\r\nabcdef";
    let end = find_header_end(buf).unwrap();
    let head = parse_request_head(&buf[..end]).unwrap();
    let req = assemble(head, buf, end);
    assert_eq!(req.body, b"abcd");
    let short = b"POST /run HTTP/1.1\r\nContent-Length: 9\r\n\r\nab";
    let end = find_header_end(short).unwrap();
    let head = parse_request_head(&short[..end]).unwrap();
    assert_eq!(assemble(head, short, end).body, b"ab");
}

#[test]
fn header_lookup_ignores_ascii_case() {
    let req = request("POST", "/run", "/run", &[("Host", "x"), ("X-RAYFISH-TOKEN", "t1"), ("x-rayfish-token", "t2")]);
    assert_eq!(req.header("x-rayfish-token"), Some("t1"));
    assert_eq!(req.header("host"), Some("x"));
    assert_eq!(req.header("missing"), None);
}

#[test]
fn routes_follow_method_path_and_token() {
    let page = request("GET", "/", "/?token=abc", &[]);
    assert!(matches!(route(&page, "abc"), Route::Page));
    assert!(matches!(route(&page, "abd"), Route::PageForbidden));
    let index = request("GET", "/index.html", "/index.html?token=abc", &[]);
    assert!(matches!(route(&index, "abc"), Route::Page));
    let cycle = request("POST", "/locale/cycle", "/locale/cycle", &[("X-Rayfish-Token", "abc")]);
    assert!(matches!(route(&cycle, "abc"), Route::CycleLocale));
    assert!(matches!(route(&cycle, "zzz"), Route::ApiForbidden));
    let run = request("POST", "/run", "/run", &[]);
    assert!(matches!(route(&run, "abc"), Route::ApiForbidden));
    let run = request("POST", "/run", "/run", &[("x-rayfish-token", "abc")]);
    assert!(matches!(route(&run, "abc"), Route::Run));
    let other = request("GET", "/favicon.ico", "/favicon.ico", &[]);
    assert!(matches!(route(&other, "abc"), Route::NotFound));
}

#[test]
fn responses_carry_length_and_reason() {
    assert_eq!(
        respond_text(200, "text/plain; charset=utf-8", "héllo"),
        "HTTP/1.1 200 OK\r\nContent-Type: text/plain; charset=utf-8\r\nContent-Length: 6\r\nCache-Control: no-store\r\nX-Content-Type-Options: nosniff\r\nConnection: close\r\n\r\nhéllo"
    );
    assert!(respond_text(403, "a", "").starts_with("HTTP/1.1 403 Forbidden\r\n"));
    assert!(respond_text(404, "a", "").starts_with("HTTP/1.1 404 Not Found\r\n"));
    assert!(respond_text(500, "a", "").starts_with("HTTP/1.1 500 Error\r\n"));
}

#[test]
fn cycle_reply_is_serde_json_compatible() {
    let text = cycle_reply("zh_TW", "繁體\"中文");
    assert_eq!(text, "{\"language_name\":\"繁體\\\"中文\",\"languages\":\"zh_TW\"}");
    let v: Value = serde_json::from_str(&text).unwrap();
    assert_eq!(v["languages"], "zh_TW");
}

#[test]
fn compact_json_matches_serde() {
    let src = r#"{"b":[1,2.5,-3e7,null,true,false],"a":{"x":"\u0001\n\t\"\\/é"},"c":[]}"#;
    let v: Value = serde_json::from_str(src).unwrap();
    let mut out = String::new();
    write_compact(&to_lib(&v), &mut out);
    assert_eq!(out, serde_json::to_string(&v).unwrap());
    let mut pretty = String::new();
    write_pretty(&to_lib(&v), 0, &mut pretty);
    assert_eq!(pretty, serde_json::to_string_pretty(&v).unwrap());
}

#[test]
fn gui_token_is_fresh_hex() {
    let a = gui_token();
    let b = gui_token();
    assert_eq!(a.len(), 32);
    assert!(a.chars().all(|c| c.is_ascii_hexdigit() && !c.is_ascii_uppercase()));
    assert_ne!(a, b);
}

fn to_lib(v: &Value) -> JsonValue {
    match v {
        Value::Null => JsonValue::Null,
        Value::Bool(b) => JsonValue::Bool(*b),
        Value::Number(n) => JsonValue::Number(n.to_string()),
        Value::String(s) => JsonValue::Str(s.clone()),
        Value::Array(items) => JsonValue::Array(items.iter().map(to_lib).collect()),
        Value::Object(m) => JsonValue::Object(m.iter().map(|(k, v)| (k.clone(), to_lib(v))).collect()),
    }
}

#[test]
fn refused_requests_get_fixed_answers() {
    let page = refusal(&Route::PageForbidden).unwrap();
    assert!(page.starts_with("HTTP/1.1 403 Forbidden\r\nContent-Type: text/plain; charset=utf-8\r\nContent-Length: 9\r\n"));
    assert!(page.ends_with("\r\n\r\nbad token"));
    let api = refusal(&Route::ApiForbidden).unwrap();
    assert!(api.starts_with("HTTP/1.1 403 Forbidden\r\nContent-Type: application/json\r\n"));
    assert!(api.ends_with("\r\n\r\n{\"error\":\"bad token\"}"));
    let missing = refusal(&Route::NotFound).unwrap();
    assert!(missing.starts_with("HTTP/1.1 404 Not Found\r\n"));
    assert!(missing.ends_with("not found"));
    assert!(refusal(&Route::Page).is_none());
    assert!(refusal(&Route::Run).is_none());
    assert!(refusal(&Route::CycleLocale).is_none());
}

#[test]
fn served_requests_are_html_or_json() {
    assert!(success(&Route::Page, "<p>").starts_with("HTTP/1.1 200 OK\r\nContent-Type: text/html; charset=utf-8\r\n"));
    assert!(success(&Route::Run, "{}").starts_with("HTTP/1.1 200 OK\r\nContent-Type: application/json\r\n"));
    assert!(success(&Route::CycleLocale, "{}").ends_with("\r\n\r\n{}"));
}

#[test]
fn token_text_is_lowercase_hex_high_nibble_first() {
    assert_eq!(token_text(&[0x00, 0x0f, 0xa5, 0xff]), "000fa5ff");
    assert_eq!(token_text(&[]), "");
}
