//! The part of HTTP that the server speaks: request lines, headers, response heads and chunks.

use vstd::prelude::*;
use vstd::string::*;
use vstd::utf8::*;

use crate::find;
use crate::json;
use crate::text;

verus! {

// ---- requests -------------------------------------------------------------------------------

/// How many characters pass before white space.
pub open spec fn word_len(s: Seq<char>) -> nat
    decreases s.len(),
{
    if s.len() > 0 && !text::char_is_whitespace(s[0]) {
        1 + word_len(s.skip(1))
    } else {
        0
    }
}

/// The first word of a text and what follows it; none if the text is blank.
pub open spec fn word_of(s: Seq<char>) -> Option<(Seq<char>, Seq<char>)> {
    let t = text::trimmed_start(s);
    if t.len() == 0 {
        None
    } else {
        Some((t.take(word_len(t) as int), t.skip(word_len(t) as int)))
    }
}

/// The method and the path of a request line; without a path it is the root.
pub open spec fn request_of(line: Seq<char>) -> Option<(Seq<char>, Seq<char>)> {
    match word_of(line) {
        None => None,
        Some((method, rest)) => match word_of(rest) {
            Some((path, _)) => Some((method, path)),
            None => Some((method, "/"@)),
        },
    }
}

/// The first word from `from` on, as its bounds.
fn next_word(cs: &Vec<char>, from: usize) -> (r: Option<(usize, usize)>)
    requires
        from <= cs@.len(),
    ensures
        match r {
            Some((a, b)) => from <= a <= b <= cs@.len() && word_of(cs@.skip(from as int)) == Some(
                (cs@.subrange(a as int, b as int), cs@.skip(b as int)),
            ),
            None => word_of(cs@.skip(from as int)) is None,
        },
{
    let n: usize = cs.len();
    let mut a: usize = from;
    while a < n && cs[a].is_whitespace()
        invariant
            from <= a <= n,
            n == cs@.len(),
            text::trimmed_start(cs@.skip(from as int)) == text::trimmed_start(cs@.skip(a as int)),
        decreases n - a,
    {
        assert(cs@.skip(a as int).skip(1) =~= cs@.skip(a + 1));
        a += 1;
    }
    if a == n {
        return None;
    }
    let ghost t = cs@.skip(a as int);
    let mut b: usize = a;
    assert(t.skip(0) =~= t);
    while b < n && !cs[b].is_whitespace()
        invariant
            a <= b <= n,
            n == cs@.len(),
            t == cs@.skip(a as int),
            word_len(t) == b - a + word_len(t.skip(b - a)),
        decreases n - b,
    {
        assert(t.skip(b - a).skip(1) =~= t.skip(b + 1 - a));
        b += 1;
    }
    assert(t.take(b - a) =~= cs@.subrange(a as int, b as int));
    assert(t.skip(b - a) =~= cs@.skip(b as int));
    Some((a, b))
}

/// Reads a request line: its method and its path.
pub fn parse_request_line(line: &str) -> (r: Result<(String, String), String>)
    ensures
        match r {
            Ok(x) => request_of(line@) == Some((x.0@, x.1@)),
            Err(m) => request_of(line@) is None && m@ == "empty request line"@,
        },
{
    let cs: Vec<char> = text::chars_of(line);
    assert(cs@.skip(0) =~= line@);
    match next_word(&cs, 0) {
        None => Err("empty request line".to_owned()),
        Some((a, b)) => {
            let method: String = find::piece_text(&cs, a, b);
            let path: String = match next_word(&cs, b) {
                Some((c, d)) => find::piece_text(&cs, c, d),
                None => "/".to_owned(),
            };
            Ok((method, path))
        },
    }
}

/// A line that ends the headers.
pub fn ends_headers(line: &str) -> (r: bool)
    ensures
        r == (line@ == "\r\n"@ || line@ == "\n"@),
{
    text::same(line, "\r\n") || text::same(line, "\n")
}

// ---- headers --------------------------------------------------------------------------------

/// A line without the carriage return that may end it.
pub open spec fn without_return(s: Seq<char>) -> Seq<char> {
    if s.len() > 0 && s.last() == '\r' {
        s.drop_last()
    } else {
        s
    }
}

/// The value of a header line under a name.
pub open spec fn header_in(line: Seq<char>, name: Seq<char>) -> Option<Seq<char>> {
    match find::find(line, ":"@) {
        Some(i) => if text::same_but_case(text::trimmed(line.take(i)), name) {
            Some(text::trimmed(line.skip(i + 1)))
        } else {
            None
        },
        None => None,
    }
}

/// The value of the first header under a name.
pub open spec fn header_of(s: Seq<char>, name: Seq<char>) -> Option<Seq<char>>
    decreases s.len(),
{
    match find::find(s, "\n"@) {
        Some(i) => match header_in(without_return(s.take(i)), name) {
            Some(v) => Some(v),
            None => if 0 <= i < s.len() {
                header_of(s.skip(i + 1), name)
            } else {
                None
            },
        },
        None => header_in(s, name),
    }
}

fn header_value(line: &Vec<char>, name: &str) -> (r: Option<String>)
    ensures
        match r {
            Some(v) => header_in(line@, name@) == Some(v@),
            None => header_in(line@, name@) is None,
        },
{
    proof {
        reveal_strlit(":");
    }
    let n: usize = line.len();
    match find::find_in(line, ":", 0) {
        None => None,
        Some(i) => {
            let key: String = find::piece_text(line, 0, i);
            assert(line@.subrange(0, i as int) =~= line@.take(i as int));
            let key: String = text::trim(key.as_str());
            if !text::eq_ignore_ascii_case(key.as_str(), name) {
                return None;
            }
            let value: String = find::piece_text(line, i + 1, n);
            assert(line@.subrange(i + 1, line@.len() as int) =~= line@.skip(i + 1));
            Some(text::trim(value.as_str()))
        },
    }
}

/// Looks a header up by its name.
pub fn header(hdrs: &str, name: &str) -> (r: Option<String>)
    ensures
        match r {
            Some(v) => header_of(hdrs@, name@) == Some(v@),
            None => header_of(hdrs@, name@) is None,
        },
{
    proof {
        reveal_strlit("\n");
    }
    let mut rest: Vec<char> = text::chars_of(hdrs);
    loop
        invariant
            header_of(hdrs@, name@) == header_of(rest@, name@),
            "\n"@.len() == 1,
        decreases rest@.len(),
    {
        let n: usize = rest.len();
        match find::find_in(&rest, "\n", 0) {
            None => {
                return header_value(&rest, name);
            },
            Some(i) => {
                let end: usize = if i > 0 && rest[i - 1] == '\r' {
                    i - 1
                } else {
                    i
                };
                let line: Vec<char> = find::piece(&rest, 0, end);
                assert(line@ =~= without_return(rest@.take(i as int)));
                if let Some(v) = header_value(&line, name) {
                    return Some(v);
                }
                let next: Vec<char> = find::piece(&rest, i + 1, n);
                assert(next@ =~= rest@.skip(i + 1));
                rest = next;
            },
        }
    }
}

/// How long the body is; nothing if the headers do not say.
pub open spec fn length_of(hdrs: Seq<char>) -> nat {
    match header_of(hdrs, "content-length"@) {
        Some(v) => match text::number_of(v, usize::MAX as nat) {
            Some(n) => n,
            None => 0,
        },
        None => 0,
    }
}

/// How long the body is.
pub fn content_length(hdrs: &str) -> (r: usize)
    ensures
        r == length_of(hdrs@),
{
    match header(hdrs, "content-length") {
        Some(v) => match text::parse_uint(v.as_str(), usize::MAX as u64) {
            Some(n) => n as usize,
            None => 0,
        },
        None => 0,
    }
}

/// Whether the client waits for leave to send the body.
pub fn expects_continue(hdrs: &str) -> (r: bool)
    ensures
        r == (header_of(hdrs@, "expect"@) matches Some(v) && text::same_but_case(v, "100-continue"@)),
{
    match header(hdrs, "expect") {
        Some(v) => text::eq_ignore_ascii_case(v.as_str(), "100-continue"),
        None => false,
    }
}

/// What gives leave to send the body.
pub const CONTINUE: &'static str = "HTTP/1.1 100 Continue\r\n\r\n";

// ---- routes ---------------------------------------------------------------------------------

/// What a request asks for.
#[derive(Debug, Clone, Copy, PartialEq, Eq, Structural)]
pub enum Route {
    /// Which methods are allowed.
    Options,
    Health,
    Models,
    Chat,
    Completion,
    Unknown,
}

/// The path up to the query.
pub open spec fn path_of(p: Seq<char>) -> Seq<char> {
    match find::find(p, "?"@) {
        Some(i) => p.take(i),
        None => p,
    }
}

pub open spec fn route_of(method: Seq<char>, path: Seq<char>) -> Route {
    let p = path_of(path);
    if method == "OPTIONS"@ {
        Route::Options
    } else if method == "GET"@ && (p == "/health"@ || p == "/v1/health"@) {
        Route::Health
    } else if method == "GET"@ && p == "/v1/models"@ {
        Route::Models
    } else if method == "POST"@ && p == "/v1/chat/completions"@ {
        Route::Chat
    } else if method == "POST"@ && p == "/v1/completions"@ {
        Route::Completion
    } else {
        Route::Unknown
    }
}

/// Finds what a request asks for.
pub fn route(method: &str, path: &str) -> (r: Route)
    ensures
        r == route_of(method@, path@),
{
    let cs: Vec<char> = text::chars_of(path);
    let n: usize = cs.len();
    let end: usize = match find::find_in(&cs, "?", 0) {
        Some(i) => i,
        None => n,
    };
    let p: String = find::piece_text(&cs, 0, end);
    assert(p@ =~= path_of(path@));
    let p: &str = p.as_str();
    proof {
        reveal_strlit("GET");
        reveal_strlit("POST");
        assert("GET"@.len() != "POST"@.len());
    }
    if text::same(method, "OPTIONS") {
        Route::Options
    } else if text::same(method, "GET") {
        if text::same(p, "/health") || text::same(p, "/v1/health") {
            Route::Health
        } else if text::same(p, "/v1/models") {
            Route::Models
        } else {
            Route::Unknown
        }
    } else if text::same(method, "POST") {
        if text::same(p, "/v1/chat/completions") {
            Route::Chat
        } else if text::same(p, "/v1/completions") {
            Route::Completion
        } else {
            Route::Unknown
        }
    } else {
        Route::Unknown
    }
}

// ---- responses ------------------------------------------------------------------------------

/// The head of a response. Its body is chunked, or of a known length, or ends with the
/// connection.
pub open spec fn response_head(
    status: Seq<char>,
    ctype: Seq<char>,
    len: Option<nat>,
    chunked: bool,
) -> Seq<char> {
    "HTTP/1.1 "@ + status + "\r\nContent-Type: "@ + ctype
        + "\r\nAccess-Control-Allow-Origin: *\r\nAccess-Control-Allow-Headers: *\r\nAccess-Control-Allow-Methods: GET, POST, OPTIONS\r\n"@
        + (if chunked {
        "Transfer-Encoding: chunked\r\n"@
    } else {
        match len {
            Some(n) => "Content-Length: "@ + text::decimal(n) + "\r\n"@,
            None => "Connection: close\r\n"@,
        }
    }) + "\r\n"@
}

pub open spec fn len_view(len: Option<usize>) -> Option<nat> {
    match len {
        Some(n) => Some(n as nat),
        None => None,
    }
}

/// Writes the head of a response.
pub fn make_head(status: &str, ctype: &str, len: Option<usize>, chunked: bool) -> (r: String)
    ensures
        r@ == response_head(status@, ctype@, len_view(len), chunked),
{
    let mut h: String = "HTTP/1.1 ".to_owned();
    h.append(status);
    h.append("\r\nContent-Type: ");
    h.append(ctype);
    h.append(
        "\r\nAccess-Control-Allow-Origin: *\r\nAccess-Control-Allow-Headers: *\r\nAccess-Control-Allow-Methods: GET, POST, OPTIONS\r\n",
    );
    let ghost front = h@;
    let ghost last = if chunked {
        "Transfer-Encoding: chunked\r\n"@
    } else {
        match len_view(len) {
            Some(n) => "Content-Length: "@ + text::decimal(n) + "\r\n"@,
            None => "Connection: close\r\n"@,
        }
    };
    if chunked {
        h.append("Transfer-Encoding: chunked\r\n");
    } else {
        match len {
            Some(n) => {
                h.append("Content-Length: ");
                text::push_decimal(&mut h, n as u64);
                h.append("\r\n");
            },
            None => {
                h.append("Connection: close\r\n");
            },
        }
    }
    assert(h@ =~= front + last);
    h.append("\r\n");
    assert(h@ =~= response_head(status@, ctype@, len_view(len), chunked));
    h
}

/// A whole response with a JSON body.
pub open spec fn json_response(status: Seq<char>, body: Seq<char>) -> Seq<char> {
    response_head(status, "application/json"@, Some(find::bytes(body)), false) + body
}

/// Writes a whole response with a JSON body.
pub fn make_json_response(status: &str, body: &str) -> (r: String)
    ensures
        r@ == json_response(status@, body@),
{
    let n: usize = body.as_bytes().len();
    let mut h: String = make_head(status, "application/json", Some(n), false);
    h.append(body);
    h
}

/// The digits of a number in base 16.
pub open spec fn hex(n: nat) -> Seq<char>
    decreases n,
{
    if n < 16 {
        seq![json::hex_char(n)]
    } else {
        hex(n / 16).push(json::hex_char(n % 16))
    }
}

/// Appends a number in base 16.
pub fn push_hex(out: &mut String, n: u64)
    ensures
        final(out)@ == old(out)@ + hex(n as nat),
    decreases n,
{
    if n >= 16 {
        push_hex(out, n / 16);
    }
    let d: u8 = (n % 16) as u8;
    let c: char = if d < 10 {
        (48 + d) as char
    } else {
        (87 + d) as char
    };
    out.push(c);
    assert(c == json::hex_char((n % 16) as nat));
    assert(out@ =~= old(out)@ + hex(n as nat));
}

/// A chunk of a stream of events: the length of the event, and the event.
pub open spec fn event_chunk(data: Seq<char>) -> Seq<char> {
    let payload = "data: "@ + data + "\n\n"@;
    hex(find::bytes(payload)) + "\r\n"@ + payload + "\r\n"@
}

/// Writes a chunk of a stream of events.
pub fn make_chunk(data: &str) -> (r: String)
    ensures
        r@ == event_chunk(data@),
{
    let mut payload: String = "data: ".to_owned();
    payload.append(data);
    payload.append("\n\n");
    let mut out: String = String::new();
    let n: usize = payload.as_str().as_bytes().len();
    push_hex(&mut out, n as u64);
    out.append("\r\n");
    out.append(payload.as_str());
    out.append("\r\n");
    assert(out@ =~= event_chunk(data@));
    out
}

/// The chunk that ends a stream.
pub const LAST_CHUNK: &'static str = "0\r\n\r\n";

/// The body of a health check.
pub const HEALTHY: &'static str = "{\"status\":\"ok\"}";

/// The list of models, of which there is one.
pub open spec fn models_text(id: Seq<char>) -> Seq<char> {
    "{\"object\":\"list\",\"data\":[{\"id\":\""@ + json::escaped(id)
        + "\",\"object\":\"model\",\"created\":0,\"owned_by\":\"local\"}]}"@
}

/// Writes the list of models.
pub fn models_json(model_id: &str) -> (r: String)
    ensures
        r@ == models_text(model_id@),
{
    let mut out: String = "{\"object\":\"list\",\"data\":[{\"id\":\"".to_owned();
    let e: String = json::escape(model_id);
    out.append(e.as_str());
    out.append("\",\"object\":\"model\",\"created\":0,\"owned_by\":\"local\"}]}");
    out
}

} // verus!
