//! The command boundary every binding drives: the session handle, the
//! recognised commands, and the JSON responses that carry no test results.

use vstd::prelude::*;
use crate::model;
use crate::model::Config;
use crate::text::{chars_le, chars_lt, concat, lemma_lt_order, str_equal, str_less};

verus! {

/// The crate version, surfaced through the `version` command.
pub const VERSION: &'static str = "0.1.0";

/// The characters of [`VERSION`].
pub open spec fn version_text() -> Seq<char> {
    seq!['0', '.', '1', '.', '0']
}

/// A stateless handle over the test runner. It holds only configuration;
/// tests and data are passed in with each command.
#[derive(Clone, Copy, Debug)]
pub struct Session {
    pub config: Config,
}

impl Session {
    /// A session with the default configuration.
    pub fn new() -> (s: Session)
        ensures
            s.config == (Config {}),
    {
        Session { config: Config {} }
    }

    /// The crate version.
    pub fn version() -> (v: &'static str)
        ensures
            v@ == version_text(),
    {
        proof { reveal_strlit("0.1.0"); }
        VERSION
    }
}

/// The commands a session answers.
#[derive(Clone, Copy, Debug, PartialEq, Eq, Structural)]
pub enum Request {
    RunTest,
    Bless,
    RunSuite,
    List,
    Version,
}

/// The command named `cmd`, if it is one of the five.
pub open spec fn request_named(cmd: Seq<char>) -> Option<Request> {
    if cmd == seq!['r', 'u', 'n', '_', 't', 'e', 's', 't'] {
        Some(Request::RunTest)
    } else if cmd == seq!['b', 'l', 'e', 's', 's'] {
        Some(Request::Bless)
    } else if cmd == seq!['r', 'u', 'n', '_', 's', 'u', 'i', 't', 'e'] {
        Some(Request::RunSuite)
    } else if cmd == seq!['l', 'i', 's', 't'] {
        Some(Request::List)
    } else if cmd == seq!['v', 'e', 'r', 's', 'i', 'o', 'n'] {
        Some(Request::Version)
    } else {
        None
    }
}

/// `missing cmd`
pub open spec fn missing_cmd_text() -> Seq<char> {
    seq!['m', 'i', 's', 's', 'i', 'n', 'g', ' ', 'c', 'm', 'd']
}

/// `unknown cmd: <cmd>`
pub open spec fn unknown_cmd_text(cmd: Seq<char>) -> Seq<char> {
    seq!['u', 'n', 'k', 'n', 'o', 'w', 'n', ' ', 'c', 'm', 'd', ':', ' '] + cmd
}

/// Reads the `cmd` of a command envelope (absent when the envelope has no
/// string `cmd`): one of the five commands, or [`model::Error::BadSpec`] `missing
/// cmd` / `unknown cmd: <cmd>`.
pub fn parse_request(cmd: Option<&str>) -> (r: Result<Request, model::Error>)
    ensures
        cmd is None ==> (r matches Err(model::Error::BadSpec(m)) && m@ == missing_cmd_text()),
        cmd is Some ==> match request_named(cmd->0@) {
            Some(q) => r == Ok::<Request, model::Error>(q),
            None => (r matches Err(model::Error::BadSpec(m)) && m@ == unknown_cmd_text(cmd->0@)),
        },
{
    proof {
        reveal_strlit("run_test");
        reveal_strlit("bless");
        reveal_strlit("run_suite");
        reveal_strlit("list");
        reveal_strlit("version");
        assert("run_test"@ =~= seq!['r', 'u', 'n', '_', 't', 'e', 's', 't']);
        assert("bless"@ =~= seq!['b', 'l', 'e', 's', 's']);
        assert("run_suite"@ =~= seq!['r', 'u', 'n', '_', 's', 'u', 'i', 't', 'e']);
        assert("list"@ =~= seq!['l', 'i', 's', 't']);
        assert("version"@ =~= seq!['v', 'e', 'r', 's', 'i', 'o', 'n']);
    }
    match cmd {
        None => {
            let m = "missing cmd".to_owned();
            proof {
                reveal_strlit("missing cmd");
                assert(m@ =~= missing_cmd_text());
            }
            Err(model::Error::BadSpec(m))
        },
        Some(c) => {
            if str_equal(c, "run_test") {
                Ok(Request::RunTest)
            } else if str_equal(c, "bless") {
                Ok(Request::Bless)
            } else if str_equal(c, "run_suite") {
                Ok(Request::RunSuite)
            } else if str_equal(c, "list") {
                Ok(Request::List)
            } else if str_equal(c, "version") {
                Ok(Request::Version)
            } else {
                let m = concat("unknown cmd: ", c);
                proof {
                    reveal_strlit("unknown cmd: ");
                    assert(m@ =~= unknown_cmd_text(c@));
                }
                Err(model::Error::BadSpec(m))
            }
        },
    }
}

/// The hexadecimal digit for `d < 16`, in lower case.
pub open spec fn hex_digit(d: int) -> char {
    if d < 10 {
        (('0' as int) + d) as char
    } else {
        (('a' as int) + d - 10) as char
    }
}

/// How a JSON string literal writes the character `c`: quote, backslash and
/// the control characters escaped, everything else as it is.
pub open spec fn json_escaped(c: char) -> Seq<char> {
    if c == '"' {
        seq!['\\', '"']
    } else if c == '\\' {
        seq!['\\', '\\']
    } else if c == '\x08' {
        seq!['\\', 'b']
    } else if c == '\t' {
        seq!['\\', 't']
    } else if c == '\n' {
        seq!['\\', 'n']
    } else if c == '\x0c' {
        seq!['\\', 'f']
    } else if c == '\r' {
        seq!['\\', 'r']
    } else if (c as int) < 0x20 {
        seq!['\\', 'u', '0', '0', hex_digit((c as int) / 16), hex_digit((c as int) % 16)]
    } else {
        seq![c]
    }
}

/// The characters of `s`, each escaped for a JSON string literal.
pub open spec fn json_escaped_all(s: Seq<char>) -> Seq<char>
    decreases s.len(),
{
    if s.len() == 0 {
        Seq::empty()
    } else {
        json_escaped_all(s.drop_last()) + json_escaped(s.last())
    }
}

/// The JSON string literal for `s`.
pub open spec fn json_quoted(s: Seq<char>) -> Seq<char> {
    seq!['"'] + json_escaped_all(s) + seq!['"']
}

/// `serde_json::to_string` on a string: the JSON string literal for it, with
/// `"`, `\` and the characters below U+0020 escaped (`\b`, `\t`, `\n`, `\f`,
/// `\r`, else `\u00xx` in lower-case hex) and every other character written as
/// it is. Serializing a string into memory does not fail, so no error is
/// handed back.
#[verifier::external_body]
fn json_string_literal(s: &str) -> (r: Option<String>)
    ensures
        r is Some,
        r->0@ == json_quoted(s@),
{
    serde_json::to_string(s).ok()
}

/// The JSON string literal for `s`.
pub fn quote_json(s: &str) -> (q: String)
    ensures
        q@ == json_quoted(s@),
{
    match json_string_literal(s) {
        Some(t) => t,
        None => String::new(),
    }
}

/// `{"error":<message>,"ok":false}`, the members in key order.
pub open spec fn error_json_text(message: Seq<char>) -> Seq<char> {
    seq!['{', '"', 'e', 'r', 'r', 'o', 'r', '"', ':'] + json_quoted(message)
        + seq![',', '"', 'o', 'k', '"', ':', 'f', 'a', 'l', 's', 'e', '}']
}

/// The response to a command that failed: an object with `ok` false and the
/// error's message, written as `serde_json` writes an object (keys in order).
pub fn error_json(message: &str) -> (s: String)
    ensures
        s@ == error_json_text(message@),
{
    let q = quote_json(message);
    let head = concat("{\"error\":", q.as_str());
    let s = concat(head.as_str(), ",\"ok\":false}");
    proof {
        reveal_strlit("{\"error\":");
        reveal_strlit(",\"ok\":false}");
        assert(s@ =~= error_json_text(message@));
    }
    s
}

/// `{"version":"0.1.0"}`
pub open spec fn version_json_text() -> Seq<char> {
    seq!['{', '"', 'v', 'e', 'r', 's', 'i', 'o', 'n', '"', ':'] + json_quoted(version_text()) + seq!['}']
}

/// The response to the `version` command.
pub fn version_json() -> (s: String)
    ensures
        s@ == version_json_text(),
{
    let q = quote_json(Session::version());
    let head = concat("{\"version\":", q.as_str());
    let s = concat(head.as_str(), "}");
    proof {
        reveal_strlit("{\"version\":");
        reveal_strlit("}");
        assert(s@ =~= version_json_text());
    }
    s
}

/// `out` holds the strings of `input` in ascending order: `order[k]` is the
/// input position of the `k`-th string, each position taken once.
pub open spec fn sorted_permutation(input: Seq<Seq<char>>, out: Seq<Seq<char>>, order: Seq<int>) -> bool {
    &&& order.len() == input.len()
    &&& out.len() == input.len()
    &&& forall|k: int| 0 <= k < order.len() ==> 0 <= #[trigger] order[k] < input.len()
    &&& forall|k: int| 0 <= k < order.len() ==> #[trigger] out[k] == input[order[k]]
    &&& forall|k: int, l: int| 0 <= k < l < order.len() ==> #[trigger] order[k] != #[trigger] order[l]
    &&& forall|k: int, l: int| 0 <= k < l < out.len() ==> chars_le(#[trigger] out[k], #[trigger] out[l])
}

/// The characters of each string.
pub open spec fn views(v: Seq<String>) -> Seq<Seq<char>> {
    v.map_values(|s: String| s@)
}

/// Sorts test ids ascending, in the order of `String`'s `Ord`.
pub fn sort_ids(ids: Vec<String>) -> (out: Vec<String>)
    ensures
        exists|order: Seq<int>| sorted_permutation(views(ids@), views(out@), order),
{
    let ghost input = views(ids@);
    let ghost mut order: Seq<int> = Seq::empty();
    let mut rest = ids;
    let n = rest.len();
    let mut out: Vec<String> = Vec::new();
    let mut i: usize = 0;
    proof { lemma_lt_order(); }
    while rest.len() > 0
        invariant
            i + rest@.len() == input.len(),
            input.len() == n,
            views(rest@) == input.skip(i as int),
            out@.len() == i,
            sorted_permutation(input.take(i as int), views(out@), order),
            forall|k: int| 0 <= k < order.len() ==> #[trigger] order[k] < i,
            forall|a: Seq<char>| !#[trigger] chars_lt(a, a),
            forall|a: Seq<char>, b: Seq<char>| #[trigger] chars_lt(a, b) ==> !chars_lt(b, a),
            forall|a: Seq<char>, b: Seq<char>, c: Seq<char>|
                #[trigger] chars_lt(a, b) && #[trigger] chars_lt(b, c) ==> chars_lt(a, c),
            forall|a: Seq<char>, b: Seq<char>| a != b ==> #[trigger] chars_lt(a, b) || #[trigger] chars_lt(b, a),
        decreases rest@.len(),
    {
        let ghost before = rest@;
        let x = rest.remove(0);
        assert(x@ == views(before)[0]);
        assert(views(rest@) =~= views(before).drop_first());
        assert(x@ == input[i as int]);
        assert(views(rest@) =~= input.skip(i + 1));
        let mut j: usize = 0;
        while j < out.len()
            invariant
                j <= out@.len(),
                forall|m: int| 0 <= m < j ==> !chars_lt(x@, #[trigger] out@[m]@),
            ensures
                j <= out@.len(),
                forall|m: int| 0 <= m < j ==> !chars_lt(x@, #[trigger] out@[m]@),
                j == out@.len() || chars_lt(x@, out@[j as int]@),
            decreases out@.len() - j,
        {
            if str_less(x.as_str(), out[j].as_str()) {
                break;
            }
            j = j + 1;
        }
        let ghost old_out = views(out@);
        let ghost old_order = order;
        let ghost xv = x@;
        out.insert(j, x);
        proof {
            let nv = views(out@);
            assert(nv =~= old_out.insert(j as int, xv));
            order = old_order.insert(j as int, i as int);
            let tin = input.take(i + 1);
            assert forall|k: int| 0 <= k < order.len() implies 0 <= #[trigger] order[k] < tin.len()
                && order[k] < i + 1 by {
                if k < j {
                    assert(order[k] == old_order[k]);
                } else if k > j {
                    assert(order[k] == old_order[k - 1]);
                }
            }
            assert forall|k: int| 0 <= k < order.len() implies #[trigger] nv[k] == tin[order[k]] by {
                if k < j {
                    assert(order[k] == old_order[k]);
                } else if k > j {
                    assert(order[k] == old_order[k - 1]);
                }
            }
            assert forall|k: int, l: int| 0 <= k < l < order.len() implies #[trigger] order[k] != #[trigger] order[l] by {
                if k != j && l != j {
                    let k0 = if k < j { k } else { k - 1 };
                    let l0 = if l < j { l } else { l - 1 };
                    assert(order[k] == old_order[k0]);
                    assert(order[l] == old_order[l0]);
                } else if k == j {
                    assert(order[l] == old_order[l - 1]);
                } else {
                    assert(order[k] == old_order[k]);
                }
            }
            assert forall|k: int, l: int| 0 <= k < l < nv.len() implies chars_le(#[trigger] nv[k], #[trigger] nv[l]) by {
                if k != j && l != j {
                    let k0 = if k < j { k } else { k - 1 };
                    let l0 = if l < j { l } else { l - 1 };
                    assert(chars_le(old_out[k0], old_out[l0]));
                } else if k == j {
                    assert(chars_lt(xv, old_out[j as int]));
                    if l - 1 > j {
                        assert(chars_le(old_out[j as int], old_out[l - 1]));
                    }
                } else {
                    assert(!chars_lt(xv, old_out[k]));
                }
            }
            assert(sorted_permutation(tin, nv, order));
        }
        i = i + 1;
    }
    proof {
        assert(input.take(i as int) =~= input);
    }
    out
}

/// The elements of a JSON array of strings, comma-separated.
pub open spec fn json_string_items(items: Seq<Seq<char>>) -> Seq<char>
    decreases items.len(),
{
    if items.len() == 0 {
        Seq::empty()
    } else if items.len() == 1 {
        json_quoted(items[0])
    } else {
        json_string_items(items.drop_last()) + seq![','] + json_quoted(items.last())
    }
}

/// `{"ids":[...]}`
pub open spec fn list_json_text(ids: Seq<Seq<char>>) -> Seq<char> {
    seq!['{', '"', 'i', 'd', 's', '"', ':', '['] + json_string_items(ids) + seq![']', '}']
}

/// The response to the `list` command: the test ids, sorted.
pub fn list_json(ids: Vec<String>) -> (s: String)
    ensures
        exists|sorted: Seq<Seq<char>>, order: Seq<int>|
            sorted_permutation(views(ids@), sorted, order) && s@ == list_json_text(sorted),
{
    let sorted = sort_ids(ids);
    let ghost sv = views(sorted@);
    let mut body = "{\"ids\":[".to_owned();
    proof {
        reveal_strlit("{\"ids\":[");
        assert(body@ =~= seq!['{', '"', 'i', 'd', 's', '"', ':', '['] + json_string_items(sv.take(0)));
    }
    let mut i: usize = 0;
    while i < sorted.len()
        invariant
            i <= sorted@.len(),
            sv == views(sorted@),
            body@ == seq!['{', '"', 'i', 'd', 's', '"', ':', '['] + json_string_items(sv.take(i as int)),
        decreases sorted@.len() - i,
    {
        let q = quote_json(sorted[i].as_str());
        if i > 0 {
            body = concat(body.as_str(), ",");
            proof { reveal_strlit(","); }
        }
        body = concat(body.as_str(), q.as_str());
        proof {
            let t = sv.take(i + 1);
            assert(t.drop_last() =~= sv.take(i as int));
            assert(t.last() == sorted@[i as int]@);
            if i == 0 {
                assert(json_string_items(t) == json_quoted(t[0]));
            }
            assert(body@ =~= seq!['{', '"', 'i', 'd', 's', '"', ':', '['] + json_string_items(t));
        }
        i = i + 1;
    }
    let s = concat(body.as_str(), "]}");
    proof {
        reveal_strlit("]}");
        assert(sv.take(i as int) =~= sv);
        assert(s@ =~= list_json_text(sv));
    }
    s
}

/// The view of a read `cmd`.
pub open spec fn cmd_view(cmd: Option<String>) -> Option<Seq<char>> {
    match cmd {
        Some(c) => Some(c@),
        None => None,
    }
}

/// The command a read `cmd` names, or the error that refuses it.
pub open spec fn request_of(cmd: Option<Seq<char>>) -> Result<Request, Seq<char>> {
    match cmd {
        None => Err(missing_cmd_text()),
        Some(c) => match request_named(c) {
            Some(q) => Ok(q),
            None => Err(unknown_cmd_text(c)),
        },
    }
}

/// What an envelope's text holds as its `cmd`: the command text when `cmd` is
/// a string member of the JSON object, nothing when there is no such string
/// member, or the parser's message when the text is not JSON.
pub uninterp spec fn envelope_cmd(text: Seq<char>) -> Result<Option<Seq<char>>, Seq<char>>;

/// Reads an envelope's `cmd` with `serde_json`: parses the text as a JSON value
/// and takes its `cmd` member when that is a string. A text that does not
/// parse is [`model::Error::Json`] with the parser's message. The contract
/// claims only that the outcome is a function of the text, named
/// [`envelope_cmd`].
#[verifier::external_body]
pub fn read_cmd(cmd_json: &str) -> (r: Result<Option<String>, model::Error>)
    ensures
        match r {
            Ok(c) => envelope_cmd(cmd_json@) == Ok::<Option<Seq<char>>, Seq<char>>(cmd_view(c)),
            Err(e) => e matches model::Error::Json(m) && envelope_cmd(cmd_json@) == Err::<Option<Seq<char>>, Seq<char>>(m@),
        },
{
    match serde_json::from_str::<serde_json::Value>(cmd_json) {
        Ok(v) => Ok(v.get("cmd").and_then(serde_json::Value::as_str).map(str::to_string)),
        Err(e) => Err(model::Error::Json(e.to_string())),
    }
}

/// The response `s` answers the envelope `cmd_json` whose `cmd` reads as
/// `cmd` (or whose text is not JSON, `Err` with the parser's message), where
/// `handle` answers the commands that need the envelope: every failure
/// becomes an error response with the failure's text.
pub open spec fn answered<H: Fn(Request, &str) -> Result<String, model::Error>>(
    cmd_json: &str,
    cmd: Result<Option<Seq<char>>, Seq<char>>,
    handle: H,
    s: Seq<char>,
) -> bool {
    match cmd {
        Err(m) => s == error_json_text(seq!['j', 's', 'o', 'n', ' ', 'e', 'r', 'r', 'o', 'r', ':', ' '] + m),
        Ok(c) => match request_of(c) {
            Err(reason) => s == error_json_text(seq!['b', 'a', 'd', ' ', 's', 'p', 'e', 'c', ':', ' '] + reason),
            Ok(Request::Version) => s == version_json_text(),
            Ok(q) => exists|h: Result<String, model::Error>| {
                &&& call_ensures(handle, (q, cmd_json), h)
                &&& match h {
                    Ok(t) => s == t@,
                    Err(e) => s == error_json_text(model::error_text(e)),
                }
            },
        },
    }
}

impl Session {
    /// Answers one command envelope (`{"cmd":"...", ...}`) with a JSON
    /// response. The envelope's `cmd` is read with [`read_cmd`]; `handle`
    /// answers the commands that need the envelope's contents (`run_test`,
    /// `bless`, `run_suite`, `list`). Every failure comes back in the response
    /// as `{"error":...,"ok":false}` rather than as an `Err`, so every binding
    /// reads responses the same way.
    pub fn command_json<H: Fn(Request, &str) -> Result<String, model::Error>>(
        &mut self,
        cmd_json: &str,
        handle: &H,
    ) -> (r: Result<String, model::Error>)
        requires
            forall|q: Request, j: &str| handle.requires((q, j)),
        ensures
            *final(self) == *old(self),
            r is Ok,
            answered(cmd_json, envelope_cmd(cmd_json@), *handle, r->Ok_0@),
    {
        let read = read_cmd(cmd_json);
        let ghost c = envelope_cmd(cmd_json@);
        let response = match read {
            Err(e) => {
                let s = error_json(e.message().as_str());
                assert(answered(cmd_json, c, *handle, s@));
                s
            },
            Ok(cmd) => {
                let request = match &cmd {
                    Some(name) => parse_request(Some(name.as_str())),
                    None => parse_request(None),
                };
                assert(match request {
                    Ok(q) => request_of(cmd_view(cmd)) == Ok::<Request, Seq<char>>(q),
                    Err(model::Error::BadSpec(m)) => request_of(cmd_view(cmd)) == Err::<Request, Seq<char>>(m@),
                    Err(_) => false,
                });
                match request {
                    Err(e) => {
                        let m = e.message();
                        let s = error_json(m.as_str());
                        assert(answered(cmd_json, c, *handle, s@));
                        s
                    },
                    Ok(Request::Version) => {
                        let s = version_json();
                        assert(answered(cmd_json, c, *handle, s@));
                        s
                    },
                    Ok(q) => {
                        let h = handle(q, cmd_json);
                        let ghost hg = h;
                        let s = match h {
                            Ok(t) => t,
                            Err(e) => error_json(e.message().as_str()),
                        };
                        assert(call_ensures(*handle, (q, cmd_json), hg));
                        assert(answered(cmd_json, c, *handle, s@));
                        s
                    },
                }
            },
        };
        Ok(response)
    }
}

/// `handle` answers each request on the envelope `cmd_json` one way only.
pub open spec fn answers_one_way<H: Fn(Request, &str) -> Result<String, model::Error>>(handle: H, cmd_json: &str) -> bool {
    forall|q: Request, x: Result<String, model::Error>, y: Result<String, model::Error>|
        #[trigger] call_ensures(handle, (q, cmd_json), x) && #[trigger] call_ensures(handle, (q, cmd_json), y) ==> x == y
}

/// Two sessions answer a command alike: a session holds no tests or data, so
/// what [`Session::command_json`] answers depends on the envelope alone. The
/// envelope's `cmd` is read the same way every time, so any two answers to the
/// same envelope are the same text wherever handling its request gives one
/// outcome; an envelope that is not JSON, names no known command or asks for
/// the version is answered alike with no condition at all.
pub proof fn lemma_sessions_answer_alike<H: Fn(Request, &str) -> Result<String, model::Error>>(
    cmd_json: &str,
    handle: H,
    first: Seq<char>,
    second: Seq<char>,
)
    requires
        answered(cmd_json, envelope_cmd(cmd_json@), handle, first),
        answered(cmd_json, envelope_cmd(cmd_json@), handle, second),
        (envelope_cmd(cmd_json@) matches Ok(c) && request_of(c) matches Ok(q) && q != Request::Version)
            ==> answers_one_way(handle, cmd_json),
    ensures
        first == second,
{
    match envelope_cmd(cmd_json@) {
        Err(_) => {},
        Ok(c) => match request_of(c) {
            Err(_) => {},
            Ok(Request::Version) => {},
            Ok(q) => {
                let h1 = choose|h: Result<String, model::Error>| {
                    &&& call_ensures(handle, (q, cmd_json), h)
                    &&& match h {
                        Ok(t) => first == t@,
                        Err(e) => first == error_json_text(model::error_text(e)),
                    }
                };
                let h2 = choose|h: Result<String, model::Error>| {
                    &&& call_ensures(handle, (q, cmd_json), h)
                    &&& match h {
                        Ok(t) => second == t@,
                        Err(e) => second == error_json_text(model::error_text(e)),
                    }
                };
                assert(h1 == h2);
            },
        },
    }
}

/// `b` is the result `a` with its report hash kept when the caller asked for
/// it and dropped when it did not; everything else is `a`'s.
pub open spec fn hash_as_asked(a: model::TestResult, b: model::TestResult, wanted: bool) -> bool {
    &&& b.id == a.id
    &&& b.passed == a.passed
    &&& b.diff == a.diff
    &&& b.property_results == a.property_results
    &&& b.fuzz_failures == a.fuzz_failures
    &&& b.error == a.error
    &&& b.report_hash == if wanted {
        a.report_hash
    } else {
        None
    }
}

/// A response carries a result's report hash only when the request asked for
/// it (`report_hash: true`), so the default response is the same whatever the
/// build.
pub fn keep_report_hash(result: model::TestResult, wanted: bool) -> (r: model::TestResult)
    ensures
        hash_as_asked(result, r, wanted),
{
    let mut r = result;
    if !wanted {
        r.report_hash = None;
    }
    r
}

/// [`keep_report_hash`] on every result of a suite; the order and the counts
/// are kept.
pub fn keep_report_hashes(suite: model::SuiteResult, wanted: bool) -> (r: model::SuiteResult)
    ensures
        r.passed == suite.passed,
        r.failed == suite.failed,
        r.results@.len() == suite.results@.len(),
        forall|i: int| 0 <= i < r.results@.len() ==> hash_as_asked(suite.results@[i], #[trigger] r.results@[i], wanted),
{
    let model::SuiteResult { results, passed, failed } = suite;
    let ghost all = results@;
    let mut rest = results;
    let mut out: Vec<model::TestResult> = Vec::new();
    while rest.len() > 0
        invariant
            out@.len() + rest@.len() == all.len(),
            rest@ == all.subrange(out@.len() as int, all.len() as int),
            forall|i: int| 0 <= i < out@.len() ==> hash_as_asked(all[i], #[trigger] out@[i], wanted),
        decreases rest@.len(),
    {
        let ghost k = out@.len();
        let first = rest.remove(0);
        assert(first == all[k as int]);
        let kept = keep_report_hash(first, wanted);
        out.push(kept);
        assert(rest@ =~= all.subrange(out@.len() as int, all.len() as int));
    }
    model::SuiteResult { results: out, passed, failed }
}

/// The code a C caller gets before any command runs: `-1` when the handle or
/// the command is absent (a null pointer), `-2` when the command is not UTF-8
/// text, and nothing when the command can be run.
pub fn refusal_code(handle_present: bool, cmd_present: bool, cmd_is_utf8: bool) -> (r: Option<i32>)
    ensures
        r == if !handle_present || !cmd_present {
            Some(-1i32)
        } else if !cmd_is_utf8 {
            Some(-2i32)
        } else {
            None::<i32>
        },
{
    if !handle_present || !cmd_present {
        Some(-1)
    } else if !cmd_is_utf8 {
        Some(-2)
    } else {
        None
    }
}

/// What a C caller gets for a response of `len` bytes and a buffer of `cap`
/// bytes: the response length (capped at `i32::MAX`), and whether the
/// response and its terminating NUL are written, which happens exactly when
/// there is a buffer and the length is below `cap`; otherwise the caller asks
/// again with a buffer of `len + 1` bytes.
pub fn reply_fit(len: usize, cap: usize, out_present: bool) -> (r: (i32, bool))
    ensures
        r.0 == if len <= i32::MAX { len as int } else { i32::MAX as int },
        r.1 == (out_present && len < cap),
{
    let code: i32 = if len <= 2147483647usize {
        len as i32
    } else {
        2147483647i32
    };
    (code, out_present && len < cap)
}

} // verus!
