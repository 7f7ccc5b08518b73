//! What requests and replies say: how a request is read, and which members, lengths and counts a
//! reply carries.

use vstd::prelude::*;
use vstd::utf8::encode_utf8;

use crate::completion;
use crate::completion::{OutcomeV, ReplyV, StreamV};
use crate::engine;
use crate::engine::Finish;
use crate::find;
use crate::http;
use crate::http::Route;
use crate::json;
use crate::json::JV;
use crate::server;
use crate::text;
use crate::tokenizer;
use crate::tools;
use crate::tools::Call;

verus! {

/// A part stands somewhere in a text.
pub open spec fn says(s: Seq<char>, part: Seq<char>) -> bool {
    exists|i: int| #[trigger] find::stands(s, part, i)
}

proof fn lemma_says(a: Seq<char>, part: Seq<char>, b: Seq<char>)
    ensures
        says(a + part + b, part),
{
    let s = a + part + b;
    let i = a.len() as int;
    assert(s.subrange(i, i + part.len()) =~= part);
    assert(find::stands(s, part, i));
}

/// What a part of a text says, the text says.
proof fn lemma_says_through(s: Seq<char>, part: Seq<char>, piece: Seq<char>)
    requires
        says(s, part),
        says(part, piece),
    ensures
        says(s, piece),
{
    let i = choose|i: int| #[trigger] find::stands(s, part, i);
    let j = choose|j: int| #[trigger] find::stands(part, piece, j);
    assert(s.subrange(i + j, i + j + piece.len()) =~= part.subrange(j, j + piece.len()));
    assert(find::stands(s, piece, i + j));
}

proof fn lemma_same_middle(h: Seq<char>, x: Seq<char>, y: Seq<char>, t: Seq<char>)
    requires
        h + x + t == h + y + t,
    ensures
        x == y,
{
    let (p, q) = (h + x + t, h + y + t);
    assert(p.len() == q.len());
    let n = h.len() as int;
    assert(p.subrange(n, n + x.len()) =~= x);
    assert(q.subrange(n, n + y.len()) =~= y);
}

/// Texts that look alike when escaped are alike.
proof fn lemma_escaped_apart(a: Seq<char>, b: Seq<char>)
    requires
        json::escaped(a) == json::escaped(b),
    ensures
        a == b,
{
    json::law_escape_reads_back(a);
    json::law_escape_reads_back(b);
    assert(json::quoted(a) == json::quoted(b));
}

// ---- numbers ------------------------------------------------------------------------------------

/// The digits of a number read back as the number.
pub proof fn law_decimal_reads_back(n: nat, max: nat)
    requires
        n <= max,
    ensures
        text::number_of(text::decimal(n), max) == Some(n),
{
    lemma_decimal(n);
}

pub proof fn lemma_decimal(n: nat)
    ensures
        text::all_digits(text::decimal(n)),
        text::digits_value(text::decimal(n)) == n,
        text::unsigned(text::decimal(n)) == text::decimal(n),
    decreases n,
{
    let s = text::decimal(n);
    if n >= 10 {
        lemma_decimal(n / 10);
        let r = text::decimal(n / 10);
        assert(s.drop_last() =~= r);
        assert forall|i: int| 0 <= i < s.len() implies text::is_digit(#[trigger] s[i]) by {
            if i < r.len() {
                assert(s[i] == r[i]);
            }
        }
        assert(s[0] == r[0]);
    } else {
        assert(s.drop_last() =~= Seq::<char>::empty());
        assert(text::digits_value(s.drop_last()) == 0);
    }
    assert(text::is_digit(s[0]));
}

/// The digits of a number in base 16 read back as the number.
pub proof fn law_hex_reads_back(n: nat)
    ensures
        json::hex_value(http::hex(n)) == Some(n),
    decreases n,
{
    let s = http::hex(n);
    if n >= 16 {
        law_hex_reads_back(n / 16);
        assert(s.drop_last() =~= http::hex(n / 16));
    } else {
        assert(s.drop_last() =~= Seq::<char>::empty());
        assert(json::hex_value(s.drop_last()) == Some(0nat));
    }
}

// ---- requests -----------------------------------------------------------------------------------

/// A text without white space.
pub open spec fn is_word(s: Seq<char>) -> bool {
    &&& s.len() > 0
    &&& forall|i: int| 0 <= i < s.len() ==> !text::char_is_whitespace(#[trigger] s[i])
}

proof fn lemma_word_len(w: Seq<char>, rest: Seq<char>)
    requires
        forall|i: int| 0 <= i < w.len() ==> !text::char_is_whitespace(#[trigger] w[i]),
        rest.len() > 0 ==> text::char_is_whitespace(rest[0]),
    ensures
        http::word_len(w + rest) == w.len(),
    decreases w.len(),
{
    let s = w + rest;
    if w.len() > 0 {
        assert(s[0] == w[0]);
        assert(s.skip(1) =~= w.skip(1) + rest);
        assert forall|i: int| 0 <= i < w.skip(1).len() implies !text::char_is_whitespace(
            #[trigger] w.skip(1)[i],
        ) by {
            assert(w.skip(1)[i] == w[i + 1]);
        }
        lemma_word_len(w.skip(1), rest);
    } else {
        assert(s =~= rest);
    }
}

proof fn lemma_word(w: Seq<char>, rest: Seq<char>)
    requires
        is_word(w),
        rest.len() > 0 ==> text::char_is_whitespace(rest[0]),
    ensures
        http::word_of(w + rest) == Some((w, rest)),
        http::word_of(seq![' '] + (w + rest)) == Some((w, rest)),
{
    let s = w + rest;
    let blank = seq![' '] + s;
    assert(s[0] == w[0]);
    assert(text::trimmed_start(s) == s);
    assert(blank.skip(1) =~= s);
    assert(text::trimmed_start(blank) == s);
    lemma_word_len(w, rest);
    assert(s.take(w.len() as int) =~= w);
    assert(s.skip(w.len() as int) =~= rest);
}

/// A request line's first word is its method and its second its path, whatever follows.
pub proof fn law_request_line_is_read(method: Seq<char>, path: Seq<char>, rest: Seq<char>)
    requires
        is_word(method),
        is_word(path),
        rest.len() > 0 ==> text::char_is_whitespace(rest[0]),
    ensures
        http::request_of(method + (seq![' '] + (path + rest))) == Some((method, path)),
        http::request_of(method) == Some((method, "/"@)),
{
    lemma_word(method, seq![' '] + (path + rest));
    lemma_word(path, rest);
    let none = Seq::<char>::empty();
    lemma_word(method, none);
    assert(method + none =~= method);
    assert(text::trimmed_start(none) == none);
}

/// A character does not occur in a text.
pub open spec fn without(s: Seq<char>, c: char) -> bool {
    forall|i: int| 0 <= i < s.len() ==> #[trigger] s[i] != c
}

proof fn lemma_first(head: Seq<char>, c: char, tail: Seq<char>, pat: Seq<char>)
    requires
        without(head, c),
        pat == seq![c],
    ensures
        find::find(head + (seq![c] + tail), pat) == Some(head.len() as int),
        find::find(head, pat) is None,
{
    let s = head + (seq![c] + tail);
    let n = head.len() as int;
    assert(s.subrange(n, n + 1) =~= pat);
    assert forall|j: int| 0 <= j < n implies !#[trigger] find::stands(s, pat, j) by {
        if find::stands(s, pat, j) {
            assert(s.subrange(j, j + 1)[0] == head[j]);
            assert(pat[0] == c);
        }
    }
    find::lemma_found(s, pat, 0, n);
    assert forall|j: int| 0 <= j implies !#[trigger] find::stands(head, pat, j) by {
        if find::stands(head, pat, j) {
            assert(head.subrange(j, j + 1)[0] == head[j]);
            assert(pat[0] == c);
        }
    }
    find::lemma_not_found(head, pat, 0);
}

/// The first header line under a name, in capitals or not, gives the value behind its colon,
/// without white space around it. A line that is not under the name is passed over.
#[verifier::spinoff_prover]
#[verifier::rlimit(60)]
pub proof fn law_header_is_found(
    name: Seq<char>,
    asked: Seq<char>,
    value: Seq<char>,
    other: Seq<char>,
    rest: Seq<char>,
)
    requires
        without(name, ':'),
        without(name, '\n'),
        without(value, '\n'),
        without(value, '\r'),
        without(other, '\n'),
        text::trimmed(name) == name,
        text::same_but_case(name, asked),
        http::header_in(http::without_return(other), asked) is None,
    ensures
        http::header_of(name + (seq![':'] + value) + "\r\n"@ + rest, asked) == Some(
            text::trimmed(value),
        ),
        http::header_of(name + (seq![':'] + value), asked) == Some(text::trimmed(value)),
        http::header_of(other + "\n"@ + rest, asked) == http::header_of(rest, asked),
{
    reveal_strlit("\r\n");
    reveal_strlit("\n");
    reveal_strlit(":");
    assert("\n"@ =~= seq!['\n']);
    assert(":"@ =~= seq![':']);
    assert("\r\n"@ =~= seq!['\r', '\n']);
    let line = name + (seq![':'] + value);
    let back = line + seq!['\r'];
    assert forall|i: int| 0 <= i < line.len() implies #[trigger] line[i] != '\n' by {
        if i < name.len() {
            assert(line[i] == name[i]);
        } else if i > name.len() {
            assert(line[i] == value[i - name.len() - 1]);
        }
    }
    assert forall|i: int| 0 <= i < back.len() implies #[trigger] back[i] != '\n' by {
        if i < line.len() {
            assert(back[i] == line[i]);
        }
    }
    lemma_first(name, ':', value, ":"@);
    assert(line.take(name.len() as int) =~= name);
    assert(line.skip(name.len() as int + 1) =~= value);
    assert(http::header_in(line, asked) == Some(text::trimmed(value)));
    let s = line + "\r\n"@ + rest;
    lemma_first(back, '\n', rest, "\n"@);
    assert(s =~= back + (seq!['\n'] + rest));
    assert(s.take(back.len() as int) =~= back);
    assert(http::without_return(back) =~= line);
    lemma_first(line, '\n', rest, "\n"@);
    lemma_first(other, '\n', rest, "\n"@);
    let o = other + "\n"@ + rest;
    assert(o =~= other + (seq!['\n'] + rest));
    assert(o.take(other.len() as int) =~= other);
    assert(o.skip(other.len() as int + 1) =~= rest);
}

/// The length of a body is what its header says, in capitals or not.
pub proof fn law_length_is_read(name: Seq<char>, n: nat, rest: Seq<char>)
    requires
        without(name, ':'),
        without(name, '\n'),
        text::trimmed(name) == name,
        text::same_but_case(name, "content-length"@),
        n <= usize::MAX,
    ensures
        http::length_of(name + (seq![':'] + (seq![' '] + text::decimal(n))) + "\r\n"@ + rest) == n,
{
    let d = text::decimal(n);
    let value = seq![' '] + d;
    lemma_decimal(n);
    assert forall|i: int| 0 <= i < value.len() implies #[trigger] value[i] != '\n' && value[i]
        != '\r' by {
        if i > 0 {
            assert(value[i] == d[i - 1]);
            assert(text::is_digit(d[i - 1]));
        }
    }
    assert(text::trims_at(value, d, 1, value.len() as int)) by {
        assert(value.subrange(1, value.len() as int) =~= d);
        assert(text::is_digit(d[0]) && text::is_digit(d[d.len() - 1]));
    }
    assert(text::trims(value, d));
    text::law_trimmed(value);
    text::law_trims_unique(value, text::trimmed(value), d);
    let none = Seq::<char>::empty();
    reveal_strlit(":");
    assert(find::find(none, ":"@) is None) by {
        assert(":"@ =~= seq![':']);
        lemma_first(none, ':', none, ":"@);
    }
    law_header_is_found(name, "content-length"@, value, none, rest);
    law_decimal_reads_back(n, usize::MAX as nat);
}

/// The query of a path decides nothing.
pub proof fn law_query_decides_nothing(method: Seq<char>, path: Seq<char>, query: Seq<char>)
    requires
        without(path, '?'),
    ensures
        http::route_of(method, path + (seq!['?'] + query)) == http::route_of(method, path),
{
    reveal_strlit("?");
    assert("?"@ =~= seq!['?']);
    lemma_first(path, '?', query, "?"@);
    let s = path + (seq!['?'] + query);
    assert(s.take(path.len() as int) =~= path);
}

/// Each endpoint is reached by its own method and path alone.
pub proof fn law_endpoints_are_apart(method: Seq<char>, path: Seq<char>)
    requires
        without(path, '?'),
    ensures
        (http::route_of(method, path) == Route::Options) == (method == "OPTIONS"@),
        (http::route_of(method, path) == Route::Chat) == (method == "POST"@ && path
            == "/v1/chat/completions"@),
        (http::route_of(method, path) == Route::Completion) == (method == "POST"@ && path
            == "/v1/completions"@),
        (http::route_of(method, path) == Route::Models) == (method == "GET"@ && path
            == "/v1/models"@),
        (http::route_of(method, path) == Route::Health) == (method == "GET"@ && (path == "/health"@
            || path == "/v1/health"@)),
{
    reveal_strlit("?");
    reveal_strlit("OPTIONS");
    reveal_strlit("POST");
    reveal_strlit("GET");
    reveal_strlit("/v1/chat/completions");
    reveal_strlit("/v1/completions");
    reveal_strlit("/v1/models");
    reveal_strlit("/health");
    reveal_strlit("/v1/health");
    assert("?"@ =~= seq!['?']);
    lemma_first(path, '?', path, "?"@);
    assert("OPTIONS"@.len() == 7 && "POST"@.len() == 4 && "GET"@.len() == 3);
    assert("/v1/chat/completions"@.len() == 20 && "/v1/completions"@.len() == 15);
    assert("/v1/models"@.len() == 10 && "/health"@.len() == 7 && "/v1/health"@.len() == 10);
    assert("/v1/models"@[4] == 'm' && "/v1/health"@[4] == 'h');
}

// ---- responses ----------------------------------------------------------------------------------

/// A response says its status, its type and how long its body is in bytes; the body follows a
/// blank line.
#[verifier::spinoff_prover]
#[verifier::rlimit(60)]
pub proof fn law_response_frames_its_body(status: Seq<char>, body: Seq<char>) -> (head: Seq<char>)
    ensures
        http::json_response(status, body) == head + "\r\n\r\n"@ + body,
        says(head, "HTTP/1.1 "@ + status + "\r\n"@),
        says(head, "Content-Type: application/json\r\n"@),
        says(head, "Content-Length: "@ + text::decimal(encode_utf8(body).len())),
{
    reveal_strlit("\r\n\r\n");
    reveal_strlit("\r\n");
    reveal_strlit("\r\nContent-Type: ");
    reveal_strlit("Content-Type: application/json\r\n");
    reveal_strlit("application/json");
    reveal_strlit("\r\nAccess-Control-Allow-Origin: *\r\nAccess-Control-Allow-Headers: *\r\nAccess-Control-Allow-Methods: GET, POST, OPTIONS\r\n");
    let n = text::decimal(encode_utf8(body).len());
    let cors = "\r\nAccess-Control-Allow-Origin: *\r\nAccess-Control-Allow-Headers: *\r\nAccess-Control-Allow-Methods: GET, POST, OPTIONS\r\n"@;
    let first = "HTTP/1.1 "@ + status + "\r\n"@;
    let kind = "Content-Type: application/json\r\n"@;
    let more = cors.skip(2);
    let length = "Content-Length: "@ + n;
    let none = Seq::<char>::empty();
    let head = first + kind + more + length;
    assert(cors =~= "\r\n"@ + more);
    assert("\r\nContent-Type: "@ + "application/json"@ + "\r\n"@ =~= "\r\n"@ + kind);
    assert("\r\n"@ + "\r\n"@ =~= "\r\n\r\n"@);
    assert(http::json_response(status, body) =~= head + "\r\n\r\n"@ + body);
    lemma_says(none, first, kind + more + length);
    assert(none + first + (kind + more + length) =~= head);
    lemma_says(first, kind, more + length);
    assert(first + kind + (more + length) =~= head);
    lemma_says(first + kind + more, length, none);
    assert(first + kind + more + length + none =~= head);
    head
}

/// A chunk begins with the length of its event in bytes, in base 16; the event carries the data.
pub proof fn law_chunk_frames_its_event(data: Seq<char>) -> (r: (Seq<char>, Seq<char>))
    ensures
        http::event_chunk(data) == r.0 + "\r\n"@ + r.1 + "\r\n"@,
        json::hex_value(r.0) == Some(encode_utf8(r.1).len()),
        r.1 == "data: "@ + data + "\n\n"@,
{
    let payload = "data: "@ + data + "\n\n"@;
    law_hex_reads_back(find::bytes(payload));
    (http::hex(find::bytes(payload)), payload)
}

// ---- replies ------------------------------------------------------------------------------------

/// A member whose value is a text.
pub open spec fn has_text(s: Seq<char>, name: Seq<char>, value: Seq<char>) -> bool {
    says(s, "\""@ + name + "\":\""@ + json::escaped(value) + "\""@)
}

/// A member whose value is a whole number.
pub open spec fn has_number(s: Seq<char>, name: Seq<char>, n: nat) -> bool {
    says(s, "\""@ + name + "\":"@ + text::decimal(n))
}

#[verifier::spinoff_prover]
#[verifier::rlimit(60)]
proof fn lemma_head(r: ReplyV, object: Seq<char>, rest: Seq<char>)
    ensures
        says(completion::head(r, object) + rest, "\"id\":\""@ + r.id + "\""@),
        says(completion::head(r, object) + rest, "\"object\":\""@ + object + "\""@),
        has_number(completion::head(r, object) + rest, "created"@, r.created),
        has_text(completion::head(r, object) + rest, "model"@, r.model),
{
    reveal_strlit("{\"id\":\"");
    reveal_strlit("\"id\":\"");
    reveal_strlit("\"object\":\"");
    reveal_strlit("\"");
    reveal_strlit("\":\"");
    reveal_strlit("\":");
    reveal_strlit("\",\"object\":\"");
    reveal_strlit("\",\"created\":");
    reveal_strlit("created");
    reveal_strlit(",\"model\":\"");
    reveal_strlit("model");
    reveal_strlit("\",\"choices\":[{\"index\":0,");
    let s = completion::head(r, object) + rest;
    let d = text::decimal(r.created);
    let m = json::escaped(r.model);
    let id = "\"id\":\""@ + r.id + "\""@;
    let ob = "\"object\":\""@ + object + "\""@;
    let cr = "\""@ + "created"@ + "\":"@ + d;
    let mo = "\""@ + "model"@ + "\":\""@ + m + "\""@;
    let tail = "\",\"choices\":[{\"index\":0,"@.skip(1) + rest;
    assert("{\"id\":\""@ =~= seq!['{'] + "\"id\":\""@);
    assert("\",\"object\":\""@ =~= "\""@ + seq![','] + "\"object\":\""@);
    assert("\",\"created\":"@ =~= "\""@ + seq![','] + "\""@ + "created"@ + "\":"@);
    assert(",\"model\":\""@ =~= seq![','] + "\""@ + "model"@ + "\":\""@);
    assert("\",\"choices\":[{\"index\":0,"@ =~= "\""@ + "\",\"choices\":[{\"index\":0,"@.skip(1));
    let c = seq![','];
    assert(s =~= seq!['{'] + id + c + ob + c + cr + c + mo + tail);
    lemma_says(seq!['{'], id, c + ob + c + cr + c + mo + tail);
    assert(seq!['{'] + id + (c + ob + c + cr + c + mo + tail) =~= s);
    lemma_says(seq!['{'] + id + c, ob, c + cr + c + mo + tail);
    assert(seq!['{'] + id + c + ob + (c + cr + c + mo + tail) =~= s);
    lemma_says(seq!['{'] + id + c + ob + c, cr, c + mo + tail);
    assert(seq!['{'] + id + c + ob + c + cr + (c + mo + tail) =~= s);
    lemma_says(seq!['{'] + id + c + ob + c + cr + c, mo, tail);
}

/// A frame of content carries its text, in a chat and in a plain completion, under the reply's own
/// identity; different texts make different frames.
#[verifier::spinoff_prover]
#[verifier::rlimit(60)]
pub proof fn law_content_is_carried(r: ReplyV, t: Seq<char>, u: Seq<char>)
    ensures
        has_text(
            completion::content_frame(r, t),
            if r.chat {
                "content"@
            } else {
                "text"@
            },
            t,
        ),
        says(completion::content_frame(r, t), "\"id\":\""@ + r.id + "\""@),
        has_text(completion::content_frame(r, t), "model"@, r.model),
        has_number(completion::content_frame(r, t), "created"@, r.created),
        says(completion::content_frame(r, t), "\"finish_reason\":null"@),
        completion::content_frame(r, t) == completion::content_frame(r, u) ==> t == u,
{
    reveal_strlit("\"");
    reveal_strlit("\":\"");
    reveal_strlit("content");
    reveal_strlit("text");
    reveal_strlit("\"content\":\"");
    reveal_strlit("\"text\":\"");
    reveal_strlit("\"delta\":{");
    reveal_strlit("},\"finish_reason\":null}]}");
    reveal_strlit("\",\"finish_reason\":null}]}");
    reveal_strlit("\"finish_reason\":null");
    let (a, b) = (json::escaped(t), json::escaped(u));
    let f = completion::content_frame(r, t);
    let g = completion::content_frame(r, u);
    let nul = "\"finish_reason\":null"@;
    let end = "}]}"@;
    reveal_strlit("}]}");
    if r.chat {
        let h = completion::head(r, "chat.completion.chunk"@);
        let name = "\""@ + "content"@ + "\":\""@;
        assert("\"content\":\""@ =~= name);
        let part = name + a + "\""@;
        let before = h + "\"delta\":{"@;
        let after = "},\"finish_reason\":null}]}"@;
        lemma_says(before, part, after);
        assert(before + part + after =~= f);
        assert(after =~= "},"@ + nul + end) by {
            reveal_strlit("},");
        }
        lemma_says(before + part + "},"@, nul, end);
        assert(before + part + "},"@ + nul + end =~= f);
        lemma_head(r, "chat.completion.chunk"@, f.skip(h.len() as int));
        assert(h + f.skip(h.len() as int) =~= f);
        if f == g {
            assert(f =~= (before + name) + a + ("\""@ + after));
            assert(g =~= (before + name) + b + ("\""@ + after));
            lemma_same_middle(before + name, a, b, "\""@ + after);
            lemma_escaped_apart(t, u);
        }
    } else {
        let h = completion::head(r, "text_completion"@);
        let name = "\""@ + "text"@ + "\":\""@;
        assert("\"text\":\""@ =~= name);
        let part = name + a + "\""@;
        let after = "\",\"finish_reason\":null}]}"@;
        let rest = after.skip(1);
        assert(after =~= "\""@ + rest);
        lemma_says(h, part, rest);
        assert(h + part + rest =~= f);
        assert(rest =~= seq![','] + nul + end);
        lemma_says(h + part + seq![','], nul, end);
        assert(h + part + seq![','] + nul + end =~= f);
        lemma_head(r, "text_completion"@, f.skip(h.len() as int));
        assert(h + f.skip(h.len() as int) =~= f);
        if f == g {
            assert(f =~= (h + name) + a + after);
            assert(g =~= (h + name) + b + after);
            lemma_same_middle(h + name, a, b, after);
            lemma_escaped_apart(t, u);
        }
    }
}

/// A frame of reasoning carries its text, apart from the content; different texts make different
/// frames.
pub proof fn law_reasoning_is_carried(r: ReplyV, t: Seq<char>, u: Seq<char>)
    ensures
        has_text(completion::reasoning_frame(r, t), "reasoning_content"@, t),
        says(completion::reasoning_frame(r, t), "\"id\":\""@ + r.id + "\""@),
        completion::reasoning_frame(r, t) == completion::reasoning_frame(r, u) ==> t == u,
{
    reveal_strlit("\"");
    reveal_strlit("\":\"");
    reveal_strlit("reasoning_content");
    reveal_strlit("\"reasoning_content\":\"");
    let (a, b) = (json::escaped(t), json::escaped(u));
    let f = completion::reasoning_frame(r, t);
    let g = completion::reasoning_frame(r, u);
    let h = completion::head(r, "chat.completion.chunk"@);
    let name = "\""@ + "reasoning_content"@ + "\":\""@;
    assert("\"reasoning_content\":\""@ =~= name);
    let before = h + "\"delta\":{"@;
    let after = "},\"finish_reason\":null}]}"@;
    let part = name + a + "\""@;
    lemma_says(before, part, after);
    assert(before + part + after =~= f);
    lemma_head(r, "chat.completion.chunk"@, f.skip(h.len() as int));
    assert(h + f.skip(h.len() as int) =~= f);
    if f == g {
        assert(f =~= (before + name) + a + ("\""@ + after));
        assert(g =~= (before + name) + b + ("\""@ + after));
        lemma_same_middle(before + name, a, b, "\""@ + after);
        lemma_escaped_apart(t, u);
    }
}

/// A call as a reply shows it says its name, its arguments and its own number.
#[verifier::spinoff_prover]
#[verifier::rlimit(60)]
pub proof fn law_call_is_carried(c: Call, i: nat, indexed: bool)
    ensures
        has_text(completion::call_json(c, i, indexed), "name"@, c.0),
        has_text(completion::call_json(c, i, indexed), "arguments"@, c.1),
        says(completion::call_json(c, i, indexed), "\"id\":\"call_"@ + text::decimal(i) + "\""@),
        indexed ==> has_number(completion::call_json(c, i, indexed), "index"@, i),
{
    reveal_strlit("\"");
    reveal_strlit("\":\"");
    reveal_strlit("\":");
    reveal_strlit("name");
    reveal_strlit("arguments");
    reveal_strlit("index");
    reveal_strlit("{\"index\":");
    reveal_strlit("{");
    reveal_strlit("\"id\":\"call_");
    reveal_strlit("\",\"type\":\"function\",\"function\":{\"name\":\"");
    reveal_strlit("\",\"arguments\":\"");
    reveal_strlit("\"}}");
    let s = completion::call_json(c, i, indexed);
    let (n, g, d) = (json::escaped(c.0), json::escaped(c.1), text::decimal(i));
    let open = if indexed {
        "{\"index\":"@ + d + ","@
    } else {
        "{"@
    };
    let id = "\"id\":\"call_"@ + d + "\""@;
    let kind = "\",\"type\":\"function\",\"function\":{\"name\":\""@.subrange(1, 32);
    let name = "\""@ + "name"@ + "\":\""@ + n + "\""@;
    let args = "\""@ + "arguments"@ + "\":\""@ + g + "\""@;
    let c1 = seq![','];
    assert("\",\"type\":\"function\",\"function\":{\"name\":\""@ =~= "\""@ + kind + "\""@ + "name"@
        + "\":\""@);
    assert("\",\"arguments\":\""@ =~= "\""@ + c1 + "\""@ + "arguments"@ + "\":\""@);
    let end = "\"}}"@.skip(1);
    assert("\"}}"@ =~= "\""@ + end);
    assert(s =~= open + id + kind + name + c1 + args + end);
    lemma_says(open, id, kind + name + c1 + args + end);
    assert(open + id + (kind + name + c1 + args + end) =~= s);
    lemma_says(open + id + kind, name, c1 + args + end);
    assert(open + id + kind + name + (c1 + args + end) =~= s);
    lemma_says(open + id + kind + name + c1, args, end);
    if indexed {
        let number = "\""@ + "index"@ + "\":"@ + d;
        assert("{\"index\":"@ =~= "{"@ + "\""@ + "index"@ + "\":"@);
        let rest = ","@ + id + kind + name + c1 + args + end;
        lemma_says("{"@, number, rest);
        assert("{"@ + number + rest =~= s);
    }
}

proof fn lemma_call_among(calls: Seq<Call>, indexed: bool, k: int, i: int)
    requires
        0 <= i < k <= calls.len(),
    ensures
        says(completion::calls_json(calls, indexed, k), completion::call_json(calls[i], i as nat, indexed)),
    decreases k,
{
    let before = completion::calls_json(calls, indexed, k - 1);
    let comma = if k > 1 {
        ","@
    } else {
        Seq::<char>::empty()
    };
    let last = completion::call_json(calls[k - 1], (k - 1) as nat, indexed);
    let none = Seq::<char>::empty();
    let s = completion::calls_json(calls, indexed, k);
    if i == k - 1 {
        lemma_says(before + comma, last, none);
        assert(before + comma + last + none =~= s);
    } else {
        lemma_call_among(calls, indexed, k - 1, i);
        lemma_says(none, before, comma + last);
        assert(none + before + (comma + last) =~= s);
        lemma_says_through(s, before, completion::call_json(calls[i], i as nat, indexed));
    }
}

/// A frame of calls carries each of them, under its place among them.
pub proof fn law_calls_are_carried(r: ReplyV, calls: Seq<Call>, i: int)
    requires
        0 <= i < calls.len(),
    ensures
        has_text(completion::calls_frame(r, calls), "name"@, calls[i].0),
        has_text(completion::calls_frame(r, calls), "arguments"@, calls[i].1),
        says(
            completion::calls_frame(r, calls),
            "\"id\":\"call_"@ + text::decimal(i as nat) + "\""@,
        ),
{
    let f = completion::calls_frame(r, calls);
    let all = completion::calls_json(calls, true, calls.len() as int);
    let before = completion::head(r, "chat.completion.chunk"@) + "\"delta\":{"@
        + "\"tool_calls\":["@;
    let after = "]"@ + "},\"finish_reason\":null}]}"@;
    lemma_says(before, all, after);
    assert(before + all + after =~= f);
    lemma_shows_call(f, all, calls, true, i);
}

proof fn lemma_shows_call(f: Seq<char>, all: Seq<char>, calls: Seq<Call>, indexed: bool, i: int)
    requires
        0 <= i < calls.len(),
        all == completion::calls_json(calls, indexed, calls.len() as int),
        says(f, all),
    ensures
        has_text(f, "name"@, calls[i].0),
        has_text(f, "arguments"@, calls[i].1),
        says(f, "\"id\":\"call_"@ + text::decimal(i as nat) + "\""@),
{
    let one = completion::call_json(calls[i], i as nat, indexed);
    lemma_call_among(calls, indexed, calls.len() as int, i);
    lemma_says_through(f, all, one);
    law_call_is_carried(calls[i], i as nat, indexed);
    lemma_says_through(f, one, "\""@ + "name"@ + "\":\""@ + json::escaped(calls[i].0) + "\""@);
    lemma_says_through(f, one, "\""@ + "arguments"@ + "\":\""@ + json::escaped(calls[i].1) + "\""@);
    lemma_says_through(f, one, "\"id\":\"call_"@ + text::decimal(i as nat) + "\""@);
}

/// The usage counts the tokens of the prompt, those of the reply, and both together.
#[verifier::spinoff_prover]
#[verifier::rlimit(60)]
pub proof fn law_usage_adds_up(pt: nat, ct: nat)
    ensures
        has_number(completion::usage(pt, ct), "prompt_tokens"@, pt),
        has_number(completion::usage(pt, ct), "completion_tokens"@, ct),
        has_number(completion::usage(pt, ct), "total_tokens"@, pt + ct),
{
    reveal_strlit("\"");
    reveal_strlit("\":");
    reveal_strlit("prompt_tokens");
    reveal_strlit("completion_tokens");
    reveal_strlit("total_tokens");
    reveal_strlit("\"usage\":{\"prompt_tokens\":");
    reveal_strlit("\"usage\":{");
    reveal_strlit(",\"completion_tokens\":");
    reveal_strlit(",\"total_tokens\":");
    let s = completion::usage(pt, ct);
    let c = seq![','];
    let p = "\""@ + "prompt_tokens"@ + "\":"@ + text::decimal(pt);
    let q = "\""@ + "completion_tokens"@ + "\":"@ + text::decimal(ct);
    let t = "\""@ + "total_tokens"@ + "\":"@ + text::decimal(pt + ct);
    let open = "\"usage\":{"@;
    assert("\"usage\":{\"prompt_tokens\":"@ =~= open + "\""@ + "prompt_tokens"@ + "\":"@);
    assert(",\"completion_tokens\":"@ =~= c + "\""@ + "completion_tokens"@ + "\":"@);
    assert(",\"total_tokens\":"@ =~= c + "\""@ + "total_tokens"@ + "\":"@);
    assert(s =~= open + p + c + q + c + t + "}}"@);
    lemma_says(open, p, c + q + c + t + "}}"@);
    assert(open + p + (c + q + c + t + "}}"@) =~= s);
    lemma_says(open + p + c, q, c + t + "}}"@);
    assert(open + p + c + q + (c + t + "}}"@) =~= s);
    lemma_says(open + p + c + q + c, t, "}}"@);
}

/// A reply that is sent at once says what its text holds: the content, without its calls and white
/// space around it; in a chat also the reasoning, if any, and each call. It says why it ended and
/// counts the tokens.
#[verifier::spinoff_prover]
#[verifier::rlimit(60)]
pub proof fn law_reply_says_its_text(
    r: ReplyV,
    split_reasoning: bool,
    opened: bool,
    raw: Seq<char>,
    pt: nat,
    ct: nat,
    f: Finish,
)
    ensures
        ({
            let s = completion::body_of(r, split_reasoning, opened, raw, pt, ct, f);
            let (reason, rest) = completion::whole_split(raw, split_reasoning, opened);
            let (content, calls) = tools::calls_of(rest);
            &&& has_text(
                s,
                if r.chat {
                    "content"@
                } else {
                    "text"@
                },
                text::trimmed(content),
            )
            &&& r.chat && reason.len() > 0 ==> has_text(s, "reasoning_content"@, reason)
            &&& r.chat ==> forall|i: int|
                0 <= i < calls.len() ==> has_text(s, "name"@, (#[trigger] calls[i]).0) && has_text(
                    s,
                    "arguments"@,
                    calls[i].1,
                )
            &&& says(
                s,
                "\"finish_reason\":\""@ + (if calls.len() > 0 {
                    "tool_calls"@
                } else {
                    engine::finish_text(f)
                }) + "\""@,
            )
            &&& has_number(s, "prompt_tokens"@, pt)
            &&& has_number(s, "completion_tokens"@, ct)
            &&& has_number(s, "total_tokens"@, pt + ct)
            &&& says(s, "\"id\":\""@ + r.id + "\""@)
            &&& has_text(s, "model"@, r.model)
        }),
{
    let s = completion::body_of(r, split_reasoning, opened, raw, pt, ct, f);
    let (reason, rest) = completion::whole_split(raw, split_reasoning, opened);
    let (content, calls) = tools::calls_of(rest);
    let shown = text::trimmed(content);
    let word = completion::finish_word(calls, engine::finish_text(f));
    let none = Seq::<char>::empty();
    reveal_strlit("\"");
    reveal_strlit("\"}],");
    let use_text = completion::usage(pt, ct);
    let tail = "\"finish_reason\":\""@ + word + "\"}],"@ + use_text;
    let why = "\"finish_reason\":\""@ + word + "\""@;
    let first = if r.chat {
        completion::head(r, "chat.completion"@) + "\"message\":{\"role\":\"assistant\","@
            + completion::reasoning_member(reason) + "\"content\":\""@ + json::escaped(shown)
            + "\""@ + completion::calls_member(calls) + "},"@
    } else {
        completion::head(r, "text_completion"@) + "\"text\":\""@ + json::escaped(shown) + "\","@
    };
    assert(s =~= first + tail);
    let close = "\"}],"@.skip(1);
    assert("\"}],"@ =~= "\""@ + close);
    lemma_says(first, why, close + use_text);
    assert(first + why + (close + use_text) =~= s);
    let upto = first + "\"finish_reason\":\""@ + word + "\"}],"@;
    lemma_says(upto, use_text, none);
    assert(upto + use_text + none =~= s);
    law_usage_adds_up(pt, ct);
    lemma_says_through(s, use_text, "\""@ + "prompt_tokens"@ + "\":"@ + text::decimal(pt));
    lemma_says_through(s, use_text, "\""@ + "completion_tokens"@ + "\":"@ + text::decimal(ct));
    lemma_says_through(s, use_text, "\""@ + "total_tokens"@ + "\":"@ + text::decimal(pt + ct));
    if r.chat {
        lemma_chat_body(r, reason, shown, calls, tail);
    } else {
        lemma_plain_body(r, shown, tail);
    }
}

#[verifier::spinoff_prover]
#[verifier::rlimit(60)]
proof fn lemma_chat_body(
    r: ReplyV,
    reason: Seq<char>,
    shown: Seq<char>,
    calls: Seq<Call>,
    tail: Seq<char>,
)
    ensures
        ({
            let s = completion::head(r, "chat.completion"@)
                + "\"message\":{\"role\":\"assistant\","@ + completion::reasoning_member(reason)
                + "\"content\":\""@ + json::escaped(shown) + "\""@ + completion::calls_member(calls)
                + "},"@ + tail;
            &&& has_text(s, "content"@, shown)
            &&& reason.len() > 0 ==> has_text(s, "reasoning_content"@, reason)
            &&& forall|i: int|
                0 <= i < calls.len() ==> has_text(s, "name"@, (#[trigger] calls[i]).0) && has_text(
                    s,
                    "arguments"@,
                    calls[i].1,
                )
            &&& says(s, "\"id\":\""@ + r.id + "\""@)
            &&& has_text(s, "model"@, r.model)
        }),
{
    let h = completion::head(r, "chat.completion"@);
    let start = h + "\"message\":{\"role\":\"assistant\","@;
    let thought = completion::reasoning_member(reason);
    let said = "\""@ + "content"@ + "\":\""@ + json::escaped(shown) + "\""@;
    let called = completion::calls_member(calls);
    let s = start + thought + "\"content\":\""@ + json::escaped(shown) + "\""@ + called + "},"@
        + tail;
    lemma_head(r, "chat.completion"@, s.skip(h.len() as int));
    assert(h + s.skip(h.len() as int) =~= s);
    assert("\"content\":\""@ =~= "\""@ + "content"@ + "\":\""@) by {
        reveal_strlit("\"");
        reveal_strlit("\":\"");
        reveal_strlit("content");
        reveal_strlit("\"content\":\"");
    }
    let behind = called + "},"@ + tail;
    assert(s =~= start + thought + said + behind);
    lemma_says(start + thought, said, behind);
    if reason.len() > 0 {
        let part = "\""@ + "reasoning_content"@ + "\":\""@ + json::escaped(reason) + "\""@;
        assert(thought =~= part + seq![',']) by {
            reveal_strlit("\"");
            reveal_strlit("\":\"");
            reveal_strlit("\",");
            reveal_strlit("reasoning_content");
            reveal_strlit("\"reasoning_content\":\"");
            assert("\","@ =~= "\""@ + seq![',']);
            assert("\"reasoning_content\":\""@ =~= "\""@ + "reasoning_content"@ + "\":\""@);
        }
        lemma_says(start, part, seq![',']);
        let front = start + thought;
        assert(start + part + seq![','] =~= front);
        let none = Seq::<char>::empty();
        lemma_says(none, front, said + behind);
        assert(none + front + (said + behind) =~= s);
        lemma_says_through(s, front, part);
    }
    let before = start + thought + said;
    lemma_called(before, calls, "},"@ + tail);
    assert(before + called + ("},"@ + tail) =~= s);
}

proof fn lemma_called(before: Seq<char>, calls: Seq<Call>, behind: Seq<char>)
    ensures
        forall|i: int|
            0 <= i < calls.len() ==> has_text(
                before + completion::calls_member(calls) + behind,
                "name"@,
                (#[trigger] calls[i]).0,
            ) && has_text(
                before + completion::calls_member(calls) + behind,
                "arguments"@,
                calls[i].1,
            ),
{
    let s = before + completion::calls_member(calls) + behind;
    if calls.len() > 0 {
        let all = completion::calls_json(calls, false, calls.len() as int);
        let ahead = before + ",\"tool_calls\":["@;
        let after = "]"@ + behind;
        lemma_says(ahead, all, after);
        assert(ahead + all + after =~= s);
        assert forall|i: int| 0 <= i < calls.len() implies has_text(
            s,
            "name"@,
            (#[trigger] calls[i]).0,
        ) && has_text(s, "arguments"@, calls[i].1) by {
            lemma_shows_call(s, all, calls, false, i);
        }
    }
}

proof fn lemma_plain_body(r: ReplyV, shown: Seq<char>, tail: Seq<char>)
    ensures
        ({
            let s = completion::head(r, "text_completion"@) + "\"text\":\""@ + json::escaped(shown)
                + "\","@ + tail;
            &&& has_text(s, "text"@, shown)
            &&& says(s, "\"id\":\""@ + r.id + "\""@)
            &&& has_text(s, "model"@, r.model)
        }),
{
    reveal_strlit("\"");
    reveal_strlit("\":\"");
    reveal_strlit("\",");
    reveal_strlit("text");
    reveal_strlit("\"text\":\"");
    let h = completion::head(r, "text_completion"@);
    let s = h + "\"text\":\""@ + json::escaped(shown) + "\","@ + tail;
    lemma_head(r, "text_completion"@, s.skip(h.len() as int));
    assert(h + s.skip(h.len() as int) =~= s);
    let said = "\""@ + "text"@ + "\":\""@ + json::escaped(shown) + "\""@;
    assert("\"text\":\""@ =~= "\""@ + "text"@ + "\":\""@);
    assert("\","@ =~= "\""@ + seq![',']);
    lemma_says(h, said, seq![','] + tail);
    assert(h + said + (seq![','] + tail) =~= s);
}

/// The frame that ends a chat says why it ended and counts the tokens.
#[verifier::spinoff_prover]
#[verifier::rlimit(60)]
pub proof fn law_last_frame_says_why(r: ReplyV, finish: Seq<char>, pt: nat, ct: nat)
    ensures
        says(completion::last_frame(r, finish, pt, ct), "\"finish_reason\":\""@ + finish + "\""@),
        r.chat ==> has_number(completion::last_frame(r, finish, pt, ct), "prompt_tokens"@, pt)
            && has_number(completion::last_frame(r, finish, pt, ct), "completion_tokens"@, ct)
            && has_number(completion::last_frame(r, finish, pt, ct), "total_tokens"@, pt + ct),
{
    reveal_strlit("\"delta\":{},\"finish_reason\":\"");
    reveal_strlit("\"text\":\"\",\"finish_reason\":\"");
    reveal_strlit("\"finish_reason\":\"");
    reveal_strlit("\"");
    reveal_strlit("\"}],");
    reveal_strlit("\"}]}");
    let s = completion::last_frame(r, finish, pt, ct);
    let why = "\"finish_reason\":\""@ + finish + "\""@;
    let none = Seq::<char>::empty();
    if r.chat {
        let h = completion::head(r, "chat.completion.chunk"@);
        let open = "\"delta\":{},\"finish_reason\":\""@.take(11);
        assert("\"delta\":{},\"finish_reason\":\""@ =~= open + "\"finish_reason\":\""@);
        let close = "\"}],"@.skip(1);
        assert("\"}],"@ =~= "\""@ + close);
        let u = completion::usage(pt, ct);
        lemma_says(h + open, why, close + u);
        assert(h + open + why + (close + u) =~= s);
        lemma_says(h + open + why + close, u, none);
        assert(h + open + why + close + u + none =~= s);
        law_usage_adds_up(pt, ct);
        lemma_says_through(s, u, "\""@ + "prompt_tokens"@ + "\":"@ + text::decimal(pt));
        lemma_says_through(s, u, "\""@ + "completion_tokens"@ + "\":"@ + text::decimal(ct));
        lemma_says_through(s, u, "\""@ + "total_tokens"@ + "\":"@ + text::decimal(pt + ct));
    } else {
        let h = completion::head(r, "text_completion"@);
        let open = "\"text\":\"\",\"finish_reason\":\""@.take(10);
        assert("\"text\":\"\",\"finish_reason\":\""@ =~= open + "\"finish_reason\":\""@);
        let close = "\"}]}"@.skip(1);
        assert("\"}]}"@ =~= "\""@ + close);
        lemma_says(h + open, why, close);
        assert(h + open + why + close =~= s);
    }
}

/// Errors and models are named: the texts read back as objects with the message and the id.
#[verifier::spinoff_prover]
#[verifier::rlimit(60)]
pub proof fn law_errors_are_told(msg: Seq<char>)
    ensures
        json::parsed(completion::error_text(msg)) == Ok::<JV, Seq<char>>(
            JV::Obj(
                seq![
                    (
                        "error"@,
                        JV::Obj(
                            seq![
                                ("message"@, JV::Str(msg)),
                                ("type"@, JV::Str("invalid_request_error"@)),
                            ],
                        ),
                    ),
                ],
            ),
        ),
{
    reveal_strlit("error");
    reveal_strlit("message");
    reveal_strlit("type");
    reveal_strlit("invalid_request_error");
    reveal_strlit("{\"error\":{\"message\":\"");
    reveal_strlit("\",\"type\":\"invalid_request_error\"}}");
    let inner = seq![
        ("message"@, JV::Str(msg)),
        ("type"@, JV::Str("invalid_request_error"@)),
    ];
    let outer = seq![("error"@, JV::Obj(inner))];
    let v = JV::Obj(outer);
    lemma_plain("error"@);
    lemma_plain("message"@);
    lemma_plain("type"@);
    lemma_plain("invalid_request_error"@);
    assert forall|i: int| 0 <= i < inner.len() implies json::finite((#[trigger] inner[i]).1) by {}
    assert(json::finite(JV::Obj(inner)));
    assert forall|i: int| 0 <= i < outer.len() implies json::finite((#[trigger] outer[i]).1) by {}
    assert(json::finite(v));
    json::law_parse_undoes_to_json(v);
    let none = Seq::<char>::empty();
    let e = json::quoted(msg);
    assert(json::text_of(inner[0].1) == e);
    assert(json::text_of(inner[1].1) == json::quoted("invalid_request_error"@));
    assert(json::members_text(inner, 2) == none);
    assert(json::members_text(inner, 1) == seq![','] + json::quoted("type"@) + seq![':']
        + json::quoted("invalid_request_error"@) + none);
    assert(json::members_text(inner, 0) == none + json::quoted("message"@) + seq![':'] + e
        + json::members_text(inner, 1));
    assert(json::members_text(outer, 1) == none);
    let t = json::text_of(JV::Obj(inner));
    assert(t == seq!['{'] + json::members_text(inner, 0) + seq!['}']);
    assert(json::members_text(outer, 0) == none + json::quoted("error"@) + seq![':'] + t + none);
    assert(json::text_of(v) == seq!['{'] + json::members_text(outer, 0) + seq!['}']);
    let (q, c) = (seq!['"'], seq![':']);
    assert("{\"error\":{\"message\":\""@ =~= seq!['{'] + (q + "error"@ + q) + c + seq!['{'] + (q
        + "message"@ + q) + c + q);
    assert("\",\"type\":\"invalid_request_error\"}}"@ =~= q + seq![','] + (q + "type"@ + q) + c + (q
        + "invalid_request_error"@ + q) + seq!['}'] + seq!['}']);
    assert(json::text_of(v) =~= completion::error_text(msg));
}

/// Letters and underscores need no escape.
proof fn lemma_plain(s: Seq<char>)
    requires
        forall|i: int| 0 <= i < s.len() ==> 'a' <= (#[trigger] s[i]) <= 'z' || s[i] == '_',
    ensures
        json::escaped(s) == s,
    decreases s.len(),
{
    if s.len() > 0 {
        let r = s.drop_last();
        assert forall|i: int| 0 <= i < r.len() implies 'a' <= (#[trigger] r[i]) <= 'z' || r[i]
            == '_' by {
            assert(r[i] == s[i]);
        }
        lemma_plain(r);
        let q = s.skip(1);
        assert forall|i: int| 0 <= i < q.len() implies 'a' <= (#[trigger] q[i]) <= 'z' || q[i]
            == '_' by {
            assert(q[i] == s[i + 1]);
        }
        lemma_plain(q);
        assert(seq![s[0]] + q =~= s);
        assert(r.push(s.last()) =~= s);
    }
}

/// A token ends a reply if it is all there is of one of the marks, or the end of the sequence.
pub proof fn law_stop_tokens(v: tokenizer::VocabV, eos: Option<u64>, t: u32)
    ensures
        server::stop_of(v, eos).contains(t) <==> {
            ||| server::lone_token(v, "<|im_end|>"@) == seq![t]
            ||| server::lone_token(v, "<|resp_end|>"@) == seq![t]
            ||| server::lone_token(v, "<|endoftext|>"@) == seq![t]
            ||| eos matches Some(e) && e as u32 == t
        },
{
    let a = server::lone_token(v, "<|im_end|>"@);
    let b = server::lone_token(v, "<|resp_end|>"@);
    let c = server::lone_token(v, "<|endoftext|>"@);
    let d = match eos {
        Some(e) => seq![e as u32],
        None => Seq::empty(),
    };
    let s = server::stop_of(v, eos);
    assert(s == a + b + c + d);
    let (na, nb, nc) = (a.len() as int, (a.len() + b.len()) as int, (a.len() + b.len() + c.len()) as int);
    if s.contains(t) {
        let i = choose|i: int| 0 <= i < s.len() && s[i] == t;
        if i < na {
            assert(a =~= seq![t]);
        } else if i < nb {
            assert(b =~= seq![t]);
        } else if i < nc {
            assert(c =~= seq![t]);
        } else {
            assert(d[i - nc] == t);
        }
    }
    if a == seq![t] {
        assert(s[0] == t);
    }
    if b == seq![t] {
        assert(s[na] == b[0]);
    }
    if c == seq![t] {
        assert(s[nb] == c[0]);
    }
    if d == seq![t] {
        assert(s[nc] == d[0]);
    }
}

// ---- streams ------------------------------------------------------------------------------------

/// A frame is among those sent.
pub open spec fn sends(frames: Seq<Seq<char>>, f: Seq<char>) -> bool {
    exists|i: int| 0 <= i < frames.len() && #[trigger] frames[i] == f
}

/// A stream ends with what is still held: reasoning and calls in a chat, and text; then with a frame
/// that says why it ended and, in a chat, counts the tokens; and last with the mark of the end.
pub proof fn law_stream_ends(r: ReplyV, st: StreamV, o: OutcomeV)
    ensures
        ({
            let f = completion::end_frames(r, st, o);
            let n = f.len() as int;
            let word = if st.calls.len() > 0 {
                "tool_calls"@
            } else {
                match o {
                    Ok(x) => engine::finish_text(x.2),
                    Err(_) => "error"@,
                }
            };
            &&& n >= 2
            &&& f[n - 1] == "[DONE]"@
            &&& says(f[n - 2], "\"finish_reason\":\""@ + word + "\""@)
            &&& (o matches Ok(x) ==> r.chat ==> has_number(f[n - 2], "prompt_tokens"@, x.0)
                && has_number(f[n - 2], "completion_tokens"@, x.1) && has_number(
                f[n - 2],
                "total_tokens"@,
                x.0 + x.1,
            ))
            &&& r.chat && completion::rest_of(st).len() > 0 ==> sends(
                f,
                completion::reasoning_frame(r, completion::rest_of(st)),
            )
            &&& completion::tail_of(st).len() > 0 ==> sends(
                f,
                completion::content_frame(r, completion::tail_of(st)),
            )
            &&& r.chat && st.calls.len() > 0 ==> sends(f, completion::calls_frame(r, st.calls))
        }),
{
    let f = completion::end_frames(r, st, o);
    let (pt, ct, word) = match o {
        Ok(x) => (x.0, x.1, engine::finish_text(x.2)),
        Err(_) => (0, 0, "error"@),
    };
    let why = completion::finish_word(st.calls, word);
    let (rest, tail) = (completion::rest_of(st), completion::tail_of(st));
    let a = completion::frame_if(r.chat && rest.len() > 0, completion::reasoning_frame(r, rest));
    let b = completion::frame_if(tail.len() > 0, completion::content_frame(r, tail));
    let c = completion::frame_if(
        st.calls.len() > 0 && r.chat,
        completion::calls_frame(r, st.calls),
    );
    let last = completion::last_frame(r, why, pt, ct);
    let d = seq![last, "[DONE]"@];
    assert(f == a + b + c + d);
    let n = f.len() as int;
    assert(f[n - 1] == d[1] && f[n - 2] == d[0]);
    law_last_frame_says_why(r, why, pt, ct);
    if a.len() > 0 {
        assert(f[0] == a[0]);
    }
    if b.len() > 0 {
        assert(f[a.len() as int] == b[0]);
    }
    if c.len() > 0 {
        assert(f[(a.len() + b.len()) as int] == c[0]);
    }
}

} // verus!
