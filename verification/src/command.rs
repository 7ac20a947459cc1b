//! What the dashboard may run: the `ray` command line it hands to the
//! executable, and how the outcome is reported back.

use vstd::prelude::*;

use vstd::string::StringSliceAdditionalSpecFns;
use vstd::utf8::{encode_utf8, is_char_boundary};

use crate::http::{decode_lossy, utf8_lossy};
use crate::text::{chars_of, lemma_encode_concat, push_text, same_text};

verus! {

/// `char::is_whitespace`: the Unicode `White_Space` characters.
pub open spec fn is_white(c: char) -> bool {
    ||| c == '\t'
    ||| c == '\n'
    ||| c == '\u{b}'
    ||| c == '\u{c}'
    ||| c == '\r'
    ||| c == ' '
    ||| c == '\u{85}'
    ||| c == '\u{a0}'
    ||| c == '\u{1680}'
    ||| ('\u{2000}' as int <= c as int && c as int <= '\u{200a}' as int)
    ||| c == '\u{2028}'
    ||| c == '\u{2029}'
    ||| c == '\u{202f}'
    ||| c == '\u{205f}'
    ||| c == '\u{3000}'
}

/// Whether `c` is white space (see [`is_white`]).
pub fn white(c: char) -> (r: bool)
    ensures
        r == is_white(c),
{
    c == '\t' || c == '\n' || c == '\u{b}' || c == '\u{c}' || c == '\r' || c == ' ' || c == '\u{85}'
        || c == '\u{a0}' || c == '\u{1680}' || ('\u{2000}' <= c && c <= '\u{200a}') || c == '\u{2028}'
        || c == '\u{2029}' || c == '\u{202f}' || c == '\u{205f}' || c == '\u{3000}'
}

/// Whether `s.trim()` is empty: every character is white space.
pub open spec fn is_blank(s: Seq<char>) -> bool {
    forall|i: int| 0 <= i < s.len() ==> is_white(#[trigger] s[i])
}

pub fn blank(s: &str) -> (r: bool)
    ensures
        r == is_blank(s@),
{
    let cs = chars_of(s);
    let mut i: usize = 0;
    while i < cs.len()
        invariant
            i <= cs.len(),
            cs@ == s@,
            forall|k: int| 0 <= k < i ==> is_white(#[trigger] cs@[k]),
        decreases cs.len() - i,
    {
        if !white(cs[i]) {
            return false;
        }
        i = i + 1;
    }
    true
}

/// The arguments that are not blank, in order.
pub open spec fn non_blank(args: Seq<Seq<char>>) -> Seq<Seq<char>>
    decreases args.len(),
{
    if args.len() == 0 {
        Seq::empty()
    } else {
        let prev = non_blank(args.drop_last());
        if is_blank(args.last()) {
            prev
        } else {
            prev.push(args.last())
        }
    }
}

/// The first argument that does not start with `-`: the command.
pub open spec fn command_of(args: Seq<Seq<char>>) -> Option<Seq<char>>
    decreases args.len(),
{
    if args.len() == 0 {
        None
    } else if args[0].len() == 0 || args[0][0] != '-' {
        Some(args[0])
    } else {
        command_of(args.drop_first())
    }
}

/// Why the dashboard refuses a command line.
#[derive(Debug)]
pub enum ArgsError {
    /// Nothing but blanks (and perhaps the program's name) was given.
    Empty,
    /// The command would start another GUI or the daemon.
    Blocked(String),
}

impl ArgsError {
    /// The message the dashboard shows.
    pub fn message(&self) -> (r: String)
        ensures
            r@ == match self {
                ArgsError::Empty => "enter a ray command"@,
                ArgsError::Blocked(c) => "the GUI cannot run `"@ + c@ + "`"@,
            },
    {
        match self {
            ArgsError::Empty => "enter a ray command".to_owned(),
            ArgsError::Blocked(c) => {
                let mut s = "the GUI cannot run `".to_owned();
                crate::text::push_text(&mut s, c.as_str());
                crate::text::push_text(&mut s, "`");
                s
            },
        }
    }
}

/// The arguments once blanks are dropped and a leading `ray` is removed.
pub open spec fn trimmed_args(args: Seq<Seq<char>>) -> Seq<Seq<char>> {
    let a = non_blank(args);
    if a.len() > 0 && a[0] == "ray"@ {
        a.drop_first()
    } else {
        a
    }
}

/// The command line handed to the `ray` executable: blanks dropped, a
/// leading `ray` removed, `--json` appended when asked for and the command
/// takes it and it is not there yet. Refused when nothing is left or the
/// command is `gui` or `daemon`.
pub open spec fn prepared(args: Seq<Seq<char>>, json: bool, json_commands: Seq<Seq<char>>) -> Result<Seq<Seq<char>>, Option<Seq<char>>> {
    let a = trimmed_args(args);
    if a.len() == 0 {
        Err(None)
    } else {
        match command_of(a) {
            Some(c) => if c == "gui"@ || c == "daemon"@ {
                Err(Some(c))
            } else if json && json_commands.contains(c) && !a.contains("--json"@) {
                Ok(a.push("--json"@))
            } else {
                Ok(a)
            },
            None => Ok(a),
        }
    }
}

pub open spec fn texts(v: Seq<String>) -> Seq<Seq<char>> {
    v.map_values(|s: String| s@)
}

pub open spec fn error_view(e: ArgsError) -> Option<Seq<char>> {
    match e {
        ArgsError::Empty => None,
        ArgsError::Blocked(c) => Some(c@),
    }
}

fn contains_text(v: &Vec<String>, t: &str) -> (r: bool)
    ensures
        r == texts(v@).contains(t@),
{
    let mut i: usize = 0;
    while i < v.len()
        invariant
            i <= v.len(),
            forall|k: int| 0 <= k < i ==> v@[k]@ != t@,
        decreases v.len() - i,
    {
        if same_text(v[i].as_str(), t) {
            assert(texts(v@)[i as int] == t@);
            return true;
        }
        i = i + 1;
    }
    assert forall|k: int| 0 <= k < texts(v@).len() implies texts(v@)[k] != t@ by {}
    false
}

fn first_command(args: &Vec<String>) -> (r: Option<usize>)
    ensures
        r is None <==> command_of(texts(args@)) is None,
        r matches Some(i) ==> i < args.len() && command_of(texts(args@)) == Some(args@[i as int]@),
{
    let ghost a = texts(args@);
    let mut i: usize = 0;
    assert(a.skip(0) =~= a);
    while i < args.len()
        invariant
            i <= args.len(),
            a == texts(args@),
            command_of(a) == command_of(a.skip(i as int)),
        decreases args.len() - i,
    {
        let cs = chars_of(args[i].as_str());
        assert(a.skip(i as int)[0] == args@[i as int]@);
        if cs.len() == 0 || cs[0] != '-' {
            return Some(i);
        }
        assert(a.skip(i as int).drop_first() =~= a.skip(i + 1));
        i = i + 1;
    }
    None
}

/// The command line for the `ray` executable (see [`prepared`]);
/// `json_commands` are the commands that render JSON.
pub fn prepare_ray_args(args: Vec<String>, json: bool, json_commands: &Vec<String>) -> (r: Result<Vec<String>, ArgsError>)
    ensures
        match r {
            Ok(v) => prepared(texts(args@), json, texts(json_commands@)) == Ok::<Seq<Seq<char>>, Option<Seq<char>>>(texts(v@)),
            Err(e) => prepared(texts(args@), json, texts(json_commands@)) == Err::<Seq<Seq<char>>, Option<Seq<char>>>(error_view(e)),
        },
{
    let ghost orig = texts(args@);
    let mut kept: Vec<String> = Vec::new();
    let mut i: usize = 0;
    while i < args.len()
        invariant
            i <= args.len(),
            orig == texts(args@),
            texts(kept@) == non_blank(orig.take(i as int)),
        decreases args.len() - i,
    {
        assert(orig.take(i + 1).drop_last() =~= orig.take(i as int));
        if !blank(args[i].as_str()) {
            let ghost prev = kept@;
            kept.push(args[i].clone());
            assert(texts(kept@) =~= texts(prev).push(args@[i as int]@));
        }
        i = i + 1;
    }
    assert(orig.take(args.len() as int) =~= orig);
    if kept.len() > 0 && same_text(kept[0].as_str(), "ray") {
        let ghost prev = kept@;
        kept.remove(0);
        assert(texts(kept@) =~= texts(prev).drop_first());
    }
    if kept.len() == 0 {
        return Err(ArgsError::Empty);
    }
    match first_command(&kept) {
        Some(ci) => {
            let c = &kept[ci];
            if same_text(c.as_str(), "gui") || same_text(c.as_str(), "daemon") {
                return Err(ArgsError::Blocked(c.clone()));
            }
            if json && contains_text(json_commands, c.as_str()) && !contains_text(&kept, "--json") {
                let ghost prev = kept@;
                kept.push("--json".to_owned());
                assert(texts(kept@) =~= texts(prev).push("--json"@));
            }
            Ok(kept)
        },
        None => Ok(kept),
    }
}

/// Explorer starts the console program with nothing but its own path; a
/// double click then gets `gui` appended so that it opens the dashboard.
pub open spec fn with_gui<T>(args: Seq<T>, double_click: bool, gui: T) -> Seq<T> {
    if double_click && args.len() == 1 {
        args.push(gui)
    } else {
        args
    }
}

/// The arguments the command line parser gets (see [`with_gui`]).
pub fn maybe_insert_gui<T>(args: Vec<T>, double_click: bool, gui: T) -> (r: Vec<T>)
    ensures
        r@ == with_gui(args@, double_click, gui),
{
    let mut args = args;
    if double_click && args.len() == 1 {
        args.push(gui);
    }
    args
}


/// How much of a command's output the dashboard gets, in bytes.
pub const MAX_OUTPUT: usize = 262144;

/// What follows output that was cut short.
pub open spec fn truncation_note() -> Seq<char> {
    "\n... output truncated ...\n"@
}

/// The UTF-8 bytes of clamped output: the first `MAX_OUTPUT` bytes and the
/// note when there were more, else all of them.
pub open spec fn clamped(bytes: Seq<u8>) -> Seq<u8> {
    if bytes.len() > MAX_OUTPUT {
        bytes.take(MAX_OUTPUT as int) + encode_utf8(truncation_note())
    } else {
        bytes
    }
}

/// Output cut to `MAX_OUTPUT` bytes (see [`clamped`]). The cut must fall
/// between characters.
pub fn clamp_output(text: String) -> (r: String)
    requires
        encode_utf8(text@).len() > MAX_OUTPUT ==> is_char_boundary(encode_utf8(text@), MAX_OUTPUT as int),
    ensures
        encode_utf8(r@) == clamped(encode_utf8(text@)),
{
    let s = text.as_str();
    if s.as_bytes().len() > MAX_OUTPUT {
        let (head, _) = s.split_at(MAX_OUTPUT);
        let mut out = head.to_owned();
        push_text(&mut out, "\n... output truncated ...\n");
        proof {
            lemma_encode_concat(head@, truncation_note());
            assert(s@ == text@);
            assert(head.spec_bytes() == encode_utf8(head@));
            assert(encode_utf8(head@) =~= encode_utf8(text@).take(MAX_OUTPUT as int));
        }
        out
    } else {
        text
    }
}

/// The exit status the dashboard reports: the process's code, else 124 for
/// a command that ran out of time, else 1.
pub open spec fn reported_status(code: Option<i32>, timed_out: bool) -> i32 {
    match code {
        Some(c) => c,
        None => if timed_out { 124 } else { 1 },
    }
}

pub fn run_status(code: Option<i32>, timed_out: bool) -> (r: i32)
    ensures
        r == reported_status(code, timed_out),
{
    match code {
        Some(c) => c,
        None => if timed_out { 124 } else { 1 },
    }
}

/// The outcome of a command, as the dashboard gets it.
#[derive(Debug)]
pub struct RunResponse {
    pub command: Vec<String>,
    pub status: i32,
    pub success: bool,
    pub stdout: String,
    pub stderr: String,
    pub timed_out: bool,
}

/// Whether cutting the UTF-8 text `t` to `MAX_OUTPUT` bytes would fall
/// inside a character (where `String::truncate` panics).
pub open spec fn cut_inside(t: Seq<char>) -> bool {
    encode_utf8(t).len() > MAX_OUTPUT && !is_char_boundary(encode_utf8(t), MAX_OUTPUT as int)
}

/// A command's output as the dashboard gets it: the bytes decoded as
/// `String::from_utf8_lossy` does, then cut (see [`clamp_output`]); nothing
/// when the cut would fall inside a character.
fn output_of(bytes: &[u8]) -> (r: Option<String>)
    ensures
        r is None <==> cut_inside(utf8_lossy(bytes@)),
        r matches Some(t) ==> encode_utf8(t@) == clamped(encode_utf8(utf8_lossy(bytes@))),
{
    let text = decode_lossy(bytes);
    let s = text.as_str();
    if s.as_bytes().len() > MAX_OUTPUT && !s.is_char_boundary(MAX_OUTPUT) {
        return None;
    }
    Some(clamp_output(text))
}

/// The report of a command that ended with exit code `code` (none when a
/// signal ended it), or was stopped for `timed_out`, having written the bytes
/// `stdout` and `stderr`. It succeeded when it exited with code 0 in time.
/// Nothing when an output must be cut inside a character, where the program
/// stops.
pub fn run_response(
    command: Vec<String>,
    code: Option<i32>,
    timed_out: bool,
    stdout: &[u8],
    stderr: &[u8],
) -> (r: Option<RunResponse>)
    ensures
        r is None <==> cut_inside(utf8_lossy(stdout@)) || cut_inside(utf8_lossy(stderr@)),
        r matches Some(x) ==> {
            &&& x.command@ == command@
            &&& x.status == reported_status(code, timed_out)
            &&& x.success == (code == Some(0i32) && !timed_out)
            &&& encode_utf8(x.stdout@) == clamped(encode_utf8(utf8_lossy(stdout@)))
            &&& encode_utf8(x.stderr@) == clamped(encode_utf8(utf8_lossy(stderr@)))
            &&& x.timed_out == timed_out
        },
{
    let out = output_of(stdout)?;
    let err = output_of(stderr)?;
    let exited_zero = match code {
        Some(c) => c == 0,
        None => false,
    };
    Some(RunResponse {
        command,
        status: run_status(code, timed_out),
        success: exited_zero && !timed_out,
        stdout: out,
        stderr: err,
        timed_out,
    })
}


proof fn lemma_non_blank(args: Seq<Seq<char>>)
    ensures
        forall|i: int| 0 <= i < non_blank(args).len() ==> !is_blank(#[trigger] non_blank(args)[i]),
    decreases args.len(),
{
    if args.len() > 0 {
        lemma_non_blank(args.drop_last());
        let prev = non_blank(args.drop_last());
        assert forall|i: int| 0 <= i < non_blank(args).len() implies !is_blank(#[trigger] non_blank(args)[i]) by {
            if i < prev.len() {
                assert(non_blank(args)[i] == prev[i]);
            }
        }
    }
}

proof fn lemma_command_of_push(a: Seq<Seq<char>>, x: Seq<char>)
    requires
        command_of(a) is Some,
    ensures
        command_of(a.push(x)) == command_of(a),
    decreases a.len(),
{
    if !(a[0].len() == 0 || a[0][0] != '-') {
        lemma_command_of_push(a.drop_first(), x);
        assert(a.push(x).drop_first() =~= a.drop_first().push(x));
    }
}

/// A command line the dashboard accepts is never empty, holds no blank
/// argument, does not name `gui` or `daemon` as its command, and carries
/// `--json` when JSON was asked for and its command renders JSON.
pub proof fn lemma_prepared_args(args: Seq<Seq<char>>, json: bool, json_commands: Seq<Seq<char>>)
    requires
        prepared(args, json, json_commands) is Ok,
    ensures
        ({
            let v = prepared(args, json, json_commands)->Ok_0;
            &&& v.len() > 0
            &&& forall|i: int| 0 <= i < v.len() ==> !is_blank(#[trigger] v[i])
            &&& command_of(v) is Some ==> command_of(v)->Some_0 != "gui"@ && command_of(v)->Some_0 != "daemon"@
            &&& (json && command_of(v) is Some && json_commands.contains(command_of(v)->Some_0)) ==> v.contains("--json"@)
        }),
{
    let a = trimmed_args(args);
    lemma_non_blank(args);
    assert forall|i: int| 0 <= i < a.len() implies !is_blank(#[trigger] a[i]) by {
        if non_blank(args).len() > 0 && non_blank(args)[0] == "ray"@ {
            assert(a[i] == non_blank(args)[i + 1]);
        }
    }
    let v = prepared(args, json, json_commands)->Ok_0;
    if v != a {
        reveal_strlit("--json");
        lemma_command_of_push(a, "--json"@);
        assert(v[v.len() - 1] == "--json"@);
        assert forall|i: int| 0 <= i < v.len() implies !is_blank(#[trigger] v[i]) by {
            if i < a.len() {
                assert(v[i] == a[i]);
            } else {
                assert(v[i][0] == '-');
                assert(!is_white(v[i][0]));
            }
        }
    }
}

} // verus!
