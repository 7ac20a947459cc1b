//! The dashboard's local HTTP endpoint: reading a request, checking the
//! session token, choosing what to do, and writing the answer.

use vstd::prelude::*;
use vstd::utf8::{decode_utf8, encode_utf8, valid_utf8};

use crate::json::{lemma_view_entries, view_entries, Json, JsonValue};
use crate::jsontext::{compact, hex_digit, write_compact};
use crate::scan::{
    after_first_word, eq_ignore_ascii_case, first_word, lines, lines_of, parse_usize, parsed_usize,
    same_ignoring_ascii_case, split_char, split_first_word, split_once_char, split_once_text, split_text, trim,
    trimmed,
};
use crate::text::{push_char, push_text, same_text};

verus! {

/// The most a request's head, or its body, may hold, in bytes.
pub const MAX_BODY: usize = 65536;

/// The head of a request as the endpoint reads it.
#[derive(Debug)]
pub struct RequestHead {
    pub method: String,
    pub target: String,
    pub path: String,
    pub headers: Vec<(String, String)>,
    pub content_len: usize,
}

/// A request as the endpoint reads it.
#[derive(Debug)]
pub struct HttpRequest {
    pub method: String,
    pub target: String,
    pub path: String,
    pub headers: Vec<(String, String)>,
    pub body: Vec<u8>,
}

/// Why a request is refused before it is handled.
#[derive(Debug)]
pub enum HttpError {
    /// The connection closed before any byte came.
    Empty,
    /// No end of the head within `MAX_BODY` bytes.
    HeadTooLarge,
    /// The head holds no line at all.
    MissingRequestLine,
    /// The announced body is longer than `MAX_BODY` bytes.
    BodyTooLarge,
}

impl HttpError {
    pub fn message(&self) -> (r: &'static str)
        ensures
            r@ == match self {
                HttpError::Empty => "empty request"@,
                HttpError::HeadTooLarge => "request headers too large"@,
                HttpError::MissingRequestLine => "missing request line"@,
                HttpError::BodyTooLarge => "request body too large"@,
            },
    {
        match self {
            HttpError::Empty => "empty request",
            HttpError::HeadTooLarge => "request headers too large",
            HttpError::MissingRequestLine => "missing request line",
            HttpError::BodyTooLarge => "request body too large",
        }
    }
}

/// The header lines that hold a `:`, as trimmed name and value.
pub open spec fn header_pairs(lines: Seq<Seq<char>>) -> Seq<(Seq<char>, Seq<char>)>
    decreases lines.len(),
{
    if lines.len() == 0 {
        Seq::empty()
    } else {
        let prev = header_pairs(lines.drop_last());
        match split_once_char(lines.last(), ':') {
            Some(kv) => prev.push((trimmed(kv.0), trimmed(kv.1))),
            None => prev,
        }
    }
}

/// The value of the first header whose name matches `name` up to ASCII case.
pub open spec fn header_value(headers: Seq<(Seq<char>, Seq<char>)>, name: Seq<char>) -> Option<Seq<char>>
    decreases headers.len(),
{
    if headers.len() == 0 {
        None
    } else if same_ignoring_ascii_case(headers[0].0, name) {
        Some(headers[0].1)
    } else {
        header_value(headers.drop_first(), name)
    }
}

/// The announced body length: the first `Content-Length` header when it
/// parses as a `usize`, else 0.
pub open spec fn content_length(headers: Seq<(Seq<char>, Seq<char>)>) -> nat {
    match header_value(headers, "content-length"@) {
        Some(v) => match parsed_usize(v) {
            Some(n) => n,
            None => 0,
        },
        None => 0,
    }
}

/// A request head read from text.
pub struct HeadView {
    pub method: Seq<char>,
    pub target: Seq<char>,
    pub path: Seq<char>,
    pub headers: Seq<(Seq<char>, Seq<char>)>,
    pub content_len: nat,
}

/// The head that `text` holds: method and target are the first two words of
/// the first line (empty when missing), the path is the target up to its
/// first `?`, the headers are the following lines that hold a `:`.
pub open spec fn head_of(text: Seq<char>) -> Result<HeadView, HttpError> {
    let ls = lines_of(text);
    if ls.len() == 0 {
        Err(HttpError::MissingRequestLine)
    } else {
        let target = first_word(after_first_word(ls[0]));
        let headers = header_pairs(ls.drop_first());
        let content_len = content_length(headers);
        if content_len > MAX_BODY {
            Err(HttpError::BodyTooLarge)
        } else {
            Ok(
                HeadView {
                    method: first_word(ls[0]),
                    target,
                    path: split_char(target, '?')[0],
                    headers,
                    content_len,
                },
            )
        }
    }
}

pub open spec fn pairs_view(v: Seq<(String, String)>) -> Seq<(Seq<char>, Seq<char>)> {
    v.map_values(|p: (String, String)| (p.0@, p.1@))
}

impl View for RequestHead {
    type V = HeadView;

    open spec fn view(&self) -> HeadView {
        HeadView {
            method: self.method@,
            target: self.target@,
            path: self.path@,
            headers: pairs_view(self.headers@),
            content_len: self.content_len as nat,
        }
    }
}

fn find_header(headers: &Vec<(String, String)>, name: &str) -> (r: Option<usize>)
    ensures
        r is None <==> header_value(pairs_view(headers@), name@) is None,
        r matches Some(i) ==> i < headers.len() && header_value(pairs_view(headers@), name@) == Some(
            headers@[i as int].1@,
        ),
{
    let ghost hv = pairs_view(headers@);
    let mut i: usize = 0;
    assert(hv.skip(0) =~= hv);
    while i < headers.len()
        invariant
            i <= headers.len(),
            hv == pairs_view(headers@),
            header_value(hv, name@) == header_value(hv.skip(i as int), name@),
        decreases headers.len() - i,
    {
        assert(hv.skip(i as int)[0] == (headers@[i as int].0@, headers@[i as int].1@));
        if eq_ignore_ascii_case(headers[i].0.as_str(), name) {
            return Some(i);
        }
        assert(hv.skip(i as int).drop_first() =~= hv.skip(i + 1));
        i = i + 1;
    }
    None
}

/// Reads a request head from its text (see [`head_of`]).
pub fn parse_head_text(text: &str) -> (r: Result<RequestHead, HttpError>)
    ensures
        match r {
            Ok(h) => head_of(text@) == Ok::<HeadView, HttpError>(h@),
            Err(e) => head_of(text@) == Err::<HeadView, HttpError>(e),
        },
{
    let ls = lines(text);
    let ghost lv = ls@.map_values(|t: String| t@);
    if ls.len() == 0 {
        return Err(HttpError::MissingRequestLine);
    }
    assert(lv[0] == ls@[0]@);
    let (method, rest) = split_first_word(ls[0].as_str());
    let (target, _) = split_first_word(rest.as_str());
    let pieces = split_text(target.as_str(), '?');
    proof {
        crate::scan::lemma_split_char_nonempty(target@, '?');
        assert(pieces@.map_values(|t: String| t@)[0] == pieces@[0]@);
    }
    let path = pieces[0].clone();
    let mut headers: Vec<(String, String)> = Vec::new();
    let mut i: usize = 1;
    let ghost rest_lines = lv.drop_first();
    while i < ls.len()
        invariant
            1 <= i <= ls.len(),
            lv == ls@.map_values(|t: String| t@),
            rest_lines == lv.drop_first(),
            pairs_view(headers@) == header_pairs(rest_lines.take(i - 1)),
        decreases ls.len() - i,
    {
        assert(rest_lines.take(i as int).drop_last() =~= rest_lines.take(i - 1));
        assert(rest_lines.take(i as int).last() == ls@[i as int]@);
        if let Some((k, v)) = split_once_text(ls[i].as_str(), ':') {
            let ghost before = headers@;
            headers.push((trim(k.as_str()), trim(v.as_str())));
            assert(pairs_view(headers@) =~= pairs_view(before).push((headers@.last().0@, headers@.last().1@)));
        }
        i = i + 1;
    }
    assert(rest_lines.take(ls.len() - 1) =~= rest_lines);
    let content_len = match find_header(&headers, "content-length") {
        Some(h) => match parse_usize(headers[h].1.as_str()) {
            Some(n) => n,
            None => 0,
        },
        None => 0,
    };
    if content_len > MAX_BODY {
        return Err(HttpError::BodyTooLarge);
    }
    Ok(RequestHead { method, target, path, headers, content_len })
}

/// What `String::from_utf8_lossy` makes of `bytes`.
pub uninterp spec fn utf8_lossy(bytes: Seq<u8>) -> Seq<char>;

/// `String::from_utf8_lossy`: the text of `bytes`, with each invalid
/// sequence replaced by U+FFFD. Claimed: the result is a function of the
/// bytes, and valid UTF-8 decodes unchanged; the replacement rule itself is
/// left to the name.
#[verifier::external_body]
pub(crate) fn decode_lossy(bytes: &[u8]) -> (r: String)
    ensures
        r@ == utf8_lossy(bytes@),
        valid_utf8(bytes@) ==> r@ == decode_utf8(bytes@),
{
    String::from_utf8_lossy(bytes).into_owned()
}

/// Reads a request head from the bytes before the blank line that ends it.
pub fn parse_request_head(head: &[u8]) -> (r: Result<RequestHead, HttpError>)
    ensures
        match r {
            Ok(h) => head_of(utf8_lossy(head@)) == Ok::<HeadView, HttpError>(h@),
            Err(e) => head_of(utf8_lossy(head@)) == Err::<HeadView, HttpError>(e),
        },
        valid_utf8(head@) ==> match r {
            Ok(h) => head_of(decode_utf8(head@)) == Ok::<HeadView, HttpError>(h@),
            Err(e) => head_of(decode_utf8(head@)) == Err::<HeadView, HttpError>(e),
        },
{
    let text = decode_lossy(head);
    parse_head_text(text.as_str())
}

/// Whether `\r\n\r\n` starts at index `i` of `buf`.
pub open spec fn blank_line_at(buf: Seq<u8>, i: int) -> bool {
    0 <= i && i + 4 <= buf.len() && buf[i] == 13 && buf[i + 1] == 10 && buf[i + 2] == 13 && buf[i + 3] == 10
}

/// Where the head of a request ends: the first `\r\n\r\n`, if any.
pub fn find_header_end(buf: &[u8]) -> (r: Option<usize>)
    ensures
        r is None <==> forall|j: int| !blank_line_at(buf@, j),
        r matches Some(i) ==> blank_line_at(buf@, i as int) && forall|j: int| 0 <= j < i ==> !blank_line_at(buf@, j),
{
    if buf.len() < 4 {
        return None;
    }
    let mut i: usize = 0;
    while i < buf.len() - 3
        invariant
            buf.len() >= 4,
            i <= buf.len() - 3,
            forall|j: int| 0 <= j < i ==> !blank_line_at(buf@, j),
        decreases buf.len() - i,
    {
        if buf[i] == 13 && buf[i + 1] == 10 && buf[i + 2] == 13 && buf[i + 3] == 10 {
            assert(blank_line_at(buf@, i as int));
            return Some(i);
        }
        i = i + 1;
    }
    None
}

/// What the reader does after a read: the head is complete, it has grown
/// too large, or more must be read.
#[derive(Debug)]
pub enum HeadScan {
    Complete(usize),
    TooLarge,
    NeedMore,
}

/// The decision after each read of the head.
pub fn scan_head(buf: &[u8]) -> (r: HeadScan)
    ensures
        match r {
            HeadScan::Complete(i) => blank_line_at(buf@, i as int) && forall|j: int| 0 <= j < i ==> !blank_line_at(buf@, j),
            HeadScan::TooLarge => (forall|j: int| !blank_line_at(buf@, j)) && buf.len() > MAX_BODY,
            HeadScan::NeedMore => (forall|j: int| !blank_line_at(buf@, j)) && buf.len() <= MAX_BODY,
        },
{
    match find_header_end(buf) {
        Some(i) => HeadScan::Complete(i),
        None => if buf.len() > MAX_BODY {
            HeadScan::TooLarge
        } else {
            HeadScan::NeedMore
        },
    }
}

/// The request once its body has been read: the bytes after the head, up to
/// the announced length (fewer when the connection closed early).
pub fn assemble(head: RequestHead, buf: &[u8], header_end: usize) -> (r: HttpRequest)
    requires
        header_end + 4 <= buf.len(),
        header_end + 4 + head.content_len <= usize::MAX,
    ensures
        r.method == head.method,
        r.target == head.target,
        r.path == head.path,
        r.headers == head.headers,
        r.body@ == buf@.subrange(
            header_end + 4,
            if buf.len() < header_end + 4 + head.content_len { buf.len() as int } else { header_end + 4 + head.content_len },
        ),
{
    let start = header_end + 4;
    let end = if buf.len() < start + head.content_len { buf.len() } else { start + head.content_len };
    let mut body: Vec<u8> = Vec::new();
    let mut i = start;
    while i < end
        invariant
            start <= i <= end,
            end <= buf.len(),
            body@ == buf@.subrange(start as int, i as int),
        decreases end - i,
    {
        body.push(buf[i]);
        assert(buf@.subrange(start as int, i + 1) =~= buf@.subrange(start as int, i as int).push(buf@[i as int]));
        i = i + 1;
    }
    HttpRequest { method: head.method, target: head.target, path: head.path, headers: head.headers, body }
}

impl HttpRequest {
    /// The value of the first header named `name`, up to ASCII case.
    pub fn header(&self, name: &str) -> (r: Option<&str>)
        ensures
            r is None <==> header_value(pairs_view(self.headers@), name@) is None,
            r matches Some(v) ==> header_value(pairs_view(self.headers@), name@) == Some(v@),
    {
        match find_header(&self.headers, name) {
            Some(i) => Some(self.headers[i].1.as_str()),
            None => None,
        }
    }
}

/// Whether the query of `target` (after its first `?`) has a `&`-separated
/// part that is exactly `token=` followed by `token`.
pub open spec fn has_token(target: Seq<char>, token: Seq<char>) -> bool {
    match split_once_char(target, '?') {
        Some(parts) => split_char(parts.1, '&').contains("token="@ + token),
        None => false,
    }
}

/// Whether the page request carries the session token (see [`has_token`]).
#[verifier::loop_isolation(false)]
pub fn query_has_token(target: &str, token: &str) -> (r: bool)
    ensures
        r == has_token(target@, token@),
{
    let query = match split_once_text(target, '?') {
        Some((_, q)) => q,
        None => return false,
    };
    let mut wanted = "token=".to_owned();
    push_text(&mut wanted, token);
    let parts = split_text(query.as_str(), '&');
    let ghost pv = parts@.map_values(|t: String| t@);
    let mut i: usize = 0;
    while i < parts.len()
        invariant
            i <= parts.len(),
            pv == parts@.map_values(|t: String| t@),
            wanted@ == "token="@ + token@,
            forall|k: int| 0 <= k < i ==> pv[k] != wanted@,
        decreases parts.len() - i,
    {
        if same_text(parts[i].as_str(), wanted.as_str()) {
            assert(pv[i as int] == wanted@);
            return true;
        }
        i = i + 1;
    }
    false
}

/// What the endpoint does with a request.
#[derive(Debug)]
pub enum Route {
    /// Serve the dashboard page.
    Page,
    /// The page was asked for without the session token.
    PageForbidden,
    /// Move to the next language.
    CycleLocale,
    /// Run a command.
    Run,
    /// An API call without the session token header.
    ApiForbidden,
    /// Anything else.
    NotFound,
}

/// The route of a request with method `method`, path `path`, target
/// `target` and `x-rayfish-token` header `header_token`, for a session whose
/// token is `token`.
pub open spec fn routed(
    method: Seq<char>,
    path: Seq<char>,
    target: Seq<char>,
    header_token: Option<Seq<char>>,
    token: Seq<char>,
) -> Route {
    if method == "GET"@ && (path == "/"@ || path == "/index.html"@) {
        if has_token(target, token) { Route::Page } else { Route::PageForbidden }
    } else if method == "POST"@ && path == "/locale/cycle"@ {
        if header_token == Some(token) { Route::CycleLocale } else { Route::ApiForbidden }
    } else if method == "POST"@ && path == "/run"@ {
        if header_token == Some(token) { Route::Run } else { Route::ApiForbidden }
    } else {
        Route::NotFound
    }
}

/// Nothing is served or run without the session token: the page only to a
/// `GET` whose query carries it, a language change or a command only to a
/// `POST` whose `x-rayfish-token` header is exactly it.
pub proof fn lemma_route_needs_token(
    method: Seq<char>,
    path: Seq<char>,
    target: Seq<char>,
    header_token: Option<Seq<char>>,
    token: Seq<char>,
)
    ensures
        routed(method, path, target, header_token, token) is Page ==> method == "GET"@ && has_token(target, token),
        routed(method, path, target, header_token, token) is CycleLocale ==> method == "POST"@ && path
            == "/locale/cycle"@ && header_token == Some(token),
        routed(method, path, target, header_token, token) is Run ==> method == "POST"@ && path == "/run"@
            && header_token == Some(token),
{
}

/// Chooses what to do with `req` (see [`routed`]).
pub fn route(req: &HttpRequest, token: &str) -> (r: Route)
    ensures
        r == routed(
            req.method@,
            req.path@,
            req.target@,
            header_value(pairs_view(req.headers@), "x-rayfish-token"@),
            token@,
        ),
{
    let m = req.method.as_str();
    let p = req.path.as_str();
    if same_text(m, "GET") && (same_text(p, "/") || same_text(p, "/index.html")) {
        if query_has_token(req.target.as_str(), token) {
            Route::Page
        } else {
            Route::PageForbidden
        }
    } else if same_text(m, "POST") && same_text(p, "/locale/cycle") {
        match req.header("x-rayfish-token") {
            Some(t) => if same_text(t, token) { Route::CycleLocale } else { Route::ApiForbidden },
            None => Route::ApiForbidden,
        }
    } else if same_text(m, "POST") && same_text(p, "/run") {
        match req.header("x-rayfish-token") {
            Some(t) => if same_text(t, token) { Route::Run } else { Route::ApiForbidden },
            None => Route::ApiForbidden,
        }
    } else {
        Route::NotFound
    }
}

pub open spec fn digit_char(d: int) -> char {
    seq!['0', '1', '2', '3', '4', '5', '6', '7', '8', '9'][d]
}

/// The decimal numeral of `n`.
pub open spec fn decimal(n: nat) -> Seq<char>
    decreases n,
{
    if n < 10 {
        seq![digit_char(n as int)]
    } else {
        decimal(n / 10).push(digit_char((n % 10) as int))
    }
}

fn push_decimal(out: &mut String, n: usize)
    ensures
        final(out)@ == old(out)@ + decimal(n as nat),
    decreases n,
{
    let ghost start = out@;
    if n >= 10 {
        push_decimal(out, n / 10);
    }
    let digits: [char; 10] = ['0', '1', '2', '3', '4', '5', '6', '7', '8', '9'];
    assert(digits@ =~= seq!['0', '1', '2', '3', '4', '5', '6', '7', '8', '9']);
    push_char(out, digits[n % 10]);
    assert(out@ =~= start + decimal(n as nat));
}

/// The reason phrase the endpoint sends with a status.
pub open spec fn reason_of(status: u16) -> Seq<char> {
    if status == 200 {
        "OK"@
    } else if status == 403 {
        "Forbidden"@
    } else if status == 404 {
        "Not Found"@
    } else {
        "Error"@
    }
}

/// The whole response: status line, the fixed headers with the body's
/// length in UTF-8 bytes, a blank line, the body.
pub open spec fn response_of(status: u16, content_type: Seq<char>, body: Seq<char>) -> Seq<char> {
    "HTTP/1.1 "@ + decimal(status as nat) + " "@ + reason_of(status) + "\r\nContent-Type: "@ + content_type
        + "\r\nContent-Length: "@ + decimal(encode_utf8(body).len()) + "\r\nCache-Control: no-store\r\nX-Content-Type-Options: nosniff\r\nConnection: close\r\n\r\n"@
        + body
}

/// The text of a response (see [`response_of`]).
pub fn respond_text(status: u16, content_type: &str, body: &str) -> (r: String)
    ensures
        r@ == response_of(status, content_type@, body@),
{
    let mut out = String::new();
    push_text(&mut out, "HTTP/1.1 ");
    push_decimal(&mut out, status as usize);
    push_text(&mut out, " ");
    let reason = if status == 200 {
        "OK"
    } else if status == 403 {
        "Forbidden"
    } else if status == 404 {
        "Not Found"
    } else {
        "Error"
    };
    push_text(&mut out, reason);
    push_text(&mut out, "\r\nContent-Type: ");
    push_text(&mut out, content_type);
    push_text(&mut out, "\r\nContent-Length: ");
    let length = body.as_bytes().len();
    push_decimal(&mut out, length);
    push_text(&mut out, "\r\nCache-Control: no-store\r\nX-Content-Type-Options: nosniff\r\nConnection: close\r\n\r\n");
    push_text(&mut out, body);
    out
}

/// The answer to a request that is refused or not found; nothing for a route
/// that does work.
pub open spec fn refusal_of(route: Route) -> Option<Seq<char>> {
    match route {
        Route::PageForbidden => Some(response_of(403, "text/plain; charset=utf-8"@, "bad token"@)),
        Route::ApiForbidden => Some(response_of(403, "application/json"@, "{\"error\":\"bad token\"}"@)),
        Route::NotFound => Some(response_of(404, "text/plain; charset=utf-8"@, "not found"@)),
        _ => None,
    }
}

/// The answer to a refused request (see [`refusal_of`]).
pub fn refusal(route: &Route) -> (r: Option<String>)
    ensures
        r is None <==> refusal_of(*route) is None,
        r matches Some(t) ==> refusal_of(*route) == Some(t@),
{
    match route {
        Route::PageForbidden => Some(respond_text(403, "text/plain; charset=utf-8", "bad token")),
        Route::ApiForbidden => Some(respond_text(403, "application/json", "{\"error\":\"bad token\"}")),
        Route::NotFound => Some(respond_text(404, "text/plain; charset=utf-8", "not found")),
        _ => None,
    }
}

/// The content type of the answer to a route that does work: the page is
/// HTML, the rest is JSON.
pub open spec fn content_type_of(route: Route) -> Seq<char> {
    match route {
        Route::Page => "text/html; charset=utf-8"@,
        _ => "application/json"@,
    }
}

/// The `200 OK` answer carrying `body` for a route that did its work.
pub fn success(route: &Route, body: &str) -> (r: String)
    ensures
        r@ == response_of(200, content_type_of(*route), body@),
{
    match route {
        Route::Page => respond_text(200, "text/html; charset=utf-8", body),
        _ => respond_text(200, "application/json", body),
    }
}

/// The answer to a language change: `{"language_name":…,"languages":…}`
/// (keys in order, as `serde_json` writes a map).
pub open spec fn cycle_reply_of(code: Seq<char>, name: Seq<char>) -> Seq<char> {
    compact(Json::Object(seq![("language_name"@, Json::Str(name)), ("languages"@, Json::Str(code))]))
}

/// The JSON answer to a language change (see [`cycle_reply_of`]).
pub fn cycle_reply(code: &str, name: &str) -> (r: String)
    ensures
        r@ == cycle_reply_of(code@, name@),
{
    let mut e: Vec<(String, JsonValue)> = Vec::new();
    e.push(("language_name".to_owned(), JsonValue::Str(name.to_owned())));
    e.push(("languages".to_owned(), JsonValue::Str(code.to_owned())));
    let v = JsonValue::Object(e);
    proof {
        lemma_view_entries(e@);
        assert(view_entries(e@) =~= seq![("language_name"@, Json::Str(name@)), ("languages"@, Json::Str(code@))]);
    }
    let mut out = String::new();
    write_compact(&v, &mut out);
    out
}


/// Bytes written as lowercase hexadecimal, two digits per byte.
pub open spec fn hex_of(bytes: Seq<u8>) -> Seq<char>
    decreases bytes.len(),
{
    if bytes.len() == 0 {
        Seq::empty()
    } else {
        hex_of(bytes.drop_last()) + seq![hex_digit(bytes.last() as int / 16), hex_digit(bytes.last() as int % 16)]
    }
}

pub proof fn lemma_hex_len(bytes: Seq<u8>)
    ensures
        hex_of(bytes).len() == 2 * bytes.len(),
    decreases bytes.len(),
{
    if bytes.len() > 0 {
        lemma_hex_len(bytes.drop_last());
    }
}

/// `hex::encode`: each byte as two lowercase hexadecimal digits, high nibble
/// first (the crate's `HEX_CHARS_LOWER` table).
#[verifier::external_body]
fn hex_encode(bytes: &[u8]) -> (r: String)
    ensures
        r@ == hex_of(bytes@),
{
    hex::encode(bytes)
}

/// `rand::random::<[u8; 16]>()`: sixteen bytes from the thread-local
/// generator. Nothing is claimed of their values; the call panics only when
/// the operating system's random source cannot seed that generator.
#[verifier::external_body]
fn random_bytes() -> (r: [u8; 16]) {
    rand::random::<[u8; 16]>()
}

/// The session token made of `bytes`: lowercase hexadecimal, two digits per
/// byte.
pub fn token_text(bytes: &[u8]) -> (r: String)
    ensures
        r@ == hex_of(bytes@),
        r@.len() == 2 * bytes@.len(),
{
    proof {
        lemma_hex_len(bytes@);
    }
    hex_encode(bytes)
}

/// A fresh session token: sixteen random bytes in lowercase hexadecimal (see
/// [`token_text`]).
pub fn gui_token() -> (r: String)
    ensures
        r@.len() == 32,
        exists|b: Seq<u8>| b.len() == 16 && r@ == #[trigger] hex_of(b),
{
    let bytes = random_bytes();
    token_text(&bytes)
}

} // verus!
