//! Requests: the messages, tools and options that a client's body asks for.

use vstd::prelude::*;
use vstd::string::*;
use vstd::utf8::*;

use crate::binary;
use crate::double;
use crate::gguf;
use crate::json;
use crate::json::{JV, J};
use crate::number;
use crate::prompt;
use crate::prompt::{Msg, MsgV};
use crate::sampler;
use crate::sampler::{SamplerConfig, SEED_FROM_CLOCK};
use crate::single;
use crate::text;
use crate::tools;
use crate::tools::Call;

verus! {

/// The pattern of the double one.
pub const ONE: u64 = 0x3FF0_0000_0000_0000;

/// The most tokens that a reply may have.
pub const MAX_TOKENS: usize = 8192;

/// How a reply is to be generated. Singles are held as their patterns.
#[derive(Debug, Clone, Copy, PartialEq, Eq, Structural)]
pub struct ChatOpts {
    pub max_tokens: usize,
    pub temp: u32,
    pub top_k: i32,
    pub top_p: u32,
    pub min_p: u32,
    /// The reply is sent piece by piece.
    pub stream: bool,
}

/// The text of a member, if it has one.
pub open spec fn str_member(v: JV, key: Seq<char>) -> Option<Seq<char>> {
    match v.get(key) {
        Some(x) => x.as_str(),
        None => None,
    }
}

/// The number of a member, as the pattern of a double.
pub open spec fn num_member(v: JV, key: Seq<char>) -> Option<u64> {
    match v.get(key) {
        Some(x) => x.as_num(),
        None => None,
    }
}

pub open spec fn arr_member(v: JV, key: Seq<char>) -> Option<Seq<JV>> {
    match v.get(key) {
        Some(x) => x.as_arr(),
        None => None,
    }
}

/// The pattern of a number member, or another.
pub open spec fn num_or(v: JV, key: Seq<char>, other: u64) -> u64 {
    match num_member(v, key) {
        Some(n) => n,
        None => other,
    }
}

/// How many tokens a request allows: a positive limit under either name, the older one first; 256
/// without one.
pub open spec fn token_limit(v: JV) -> int {
    let key = if v.get("max_tokens"@) is Some {
        "max_tokens"@
    } else {
        "max_completion_tokens"@
    };
    match num_member(v, key) {
        Some(n) => if number::truncated(n) > 0 {
            number::truncated(n)
        } else {
            256
        },
        None => 256,
    }
}

/// `r` are the options of a request.
pub open spec fn opts_of(v: JV, r: ChatOpts) -> bool {
    &&& r.max_tokens == if token_limit(v) < MAX_TOKENS {
        token_limit(v)
    } else {
        MAX_TOKENS as int
    }
    &&& number::narrows(num_or(v, "temperature"@, 0), r.temp)
    &&& r.top_k == match num_member(v, "top_k"@) {
        Some(n) => (number::truncated(n) as i64) as i32,
        None => 20i32,
    }
    &&& number::narrows(num_or(v, "top_p"@, ONE), r.top_p)
    &&& number::narrows(num_or(v, "min_p"@, 0), r.min_p)
    &&& r.stream == (v.get("stream"@) == Some(JV::Bool(true)))
}

fn get_num(j: &J, key: &str) -> (r: Option<u64>)
    ensures
        r == num_member(j@, key@),
{
    match j.get(key) {
        Some(x) => x.as_f64(),
        None => None,
    }
}

fn get_int(j: &J, key: &str) -> (r: Option<i64>)
    ensures
        match r {
            Some(i) => num_member(j@, key@) matches Some(n) && i == number::truncated(n),
            None => num_member(j@, key@) is None,
        },
{
    match j.get(key) {
        Some(x) => x.as_i64(),
        None => None,
    }
}

/// A number member rounded to a single.
fn get_single(j: &J, key: &str, other: u64) -> (r: u32)
    ensures
        number::narrows(num_or(j@, key@, other), r),
{
    match get_num(j, key) {
        Some(n) => number::narrow(n),
        None => number::narrow(other),
    }
}

impl ChatOpts {
    /// The options of a request.
    pub fn from(j: &J) -> (r: ChatOpts)
        ensures
            opts_of(j@, r),
    {
        let asked: Option<i64> = match j.get("max_tokens") {
            Some(x) => x.as_i64(),
            None => get_int(j, "max_completion_tokens"),
        };
        let max_tokens: usize = match asked {
            Some(n) => if n <= 0 {
                256
            } else if n < 8192 {
                n as usize
            } else {
                MAX_TOKENS
            },
            None => 256,
        };
        let top_k: i32 = match get_int(j, "top_k") {
            Some(n) => n as i32,
            None => 20,
        };
        let stream: bool = match j.get("stream") {
            Some(x) => match x.as_bool() {
                Some(b) => b,
                None => false,
            },
            None => false,
        };
        ChatOpts {
            max_tokens,
            temp: get_single(j, "temperature", 0),
            top_k,
            top_p: get_single(j, "top_p", ONE),
            min_p: get_single(j, "min_p", 0),
            stream,
        }
    }

    /// How to sample; the seed comes from the clock.
    pub open spec fn config(self) -> SamplerConfig {
        SamplerConfig {
            top_k: self.top_k,
            top_p: self.top_p,
            min_p: self.min_p,
            temp: self.temp,
            seed: SEED_FROM_CLOCK,
        }
    }

    /// How to sample; the seed comes from the clock.
    pub fn sampler_cfg(&self) -> (r: SamplerConfig)
        ensures
            r == self.config(),
    {
        SamplerConfig {
            top_k: self.top_k,
            top_p: self.top_p,
            min_p: self.min_p,
            temp: self.temp,
            seed: SEED_FROM_CLOCK,
        }
    }
}

// ---- messages -------------------------------------------------------------------------------

/// The texts of the first `k` parts of a message, joined; a part without one adds nothing.
pub open spec fn parts_text(parts: Seq<JV>, k: int) -> Seq<char>
    decreases k,
{
    if k <= 0 {
        Seq::empty()
    } else {
        parts_text(parts, k - 1) + match str_member(parts[k - 1], "text"@) {
            Some(s) => s,
            None => Seq::empty(),
        }
    }
}

/// The content of a message: a text, or a list of parts.
pub open spec fn content_of(m: JV) -> Seq<char> {
    match m.get("content"@) {
        Some(JV::Str(s)) => s,
        Some(JV::Arr(parts)) => parts_text(parts, parts.len() as int),
        _ => Seq::empty(),
    }
}

/// A tool call that a client hands back; one without a name counts for nothing.
pub open spec fn call_of(c: JV) -> Option<Call> {
    let f = match c.get("function"@) {
        Some(x) => x,
        None => c,
    };
    match str_member(f, "name"@) {
        Some(name) => if name.len() == 0 {
            None
        } else {
            Some(
                (
                    name,
                    match f.get("arguments"@) {
                        Some(JV::Str(s)) => s,
                        Some(other) => json::text_of(other),
                        None => "{}"@,
                    },
                ),
            )
        },
        None => None,
    }
}

/// The named calls among the first `k`.
pub open spec fn calls_in(items: Seq<JV>, k: int) -> Seq<Call>
    decreases k,
{
    if k <= 0 {
        Seq::empty()
    } else {
        match call_of(items[k - 1]) {
            Some(c) => calls_in(items, k - 1).push(c),
            None => calls_in(items, k - 1),
        }
    }
}

pub open spec fn msg_of(m: JV) -> MsgV {
    MsgV {
        role: match str_member(m, "role"@) {
            Some(s) => s,
            None => "user"@,
        },
        content: content_of(m),
        tool_calls: match arr_member(m, "tool_calls"@) {
            Some(items) => calls_in(items, items.len() as int),
            None => Seq::empty(),
        },
    }
}

/// The tools that a request offers, each as JSON; none if it forbids their use.
pub open spec fn tools_of(v: JV) -> Seq<Seq<char>> {
    if str_member(v, "tool_choice"@) == Some("none"@) {
        Seq::empty()
    } else {
        match arr_member(v, "tools"@) {
            Some(items) => Seq::new(items.len(), |i: int| json::text_of(items[i])),
            None => Seq::empty(),
        }
    }
}

/// What a chat request asks for.
pub struct ChatV {
    pub msgs: Seq<MsgV>,
    pub tools: Seq<Seq<char>>,
    /// The request, from which the options are read.
    pub request: JV,
}

/// What the body of a chat request asks for, or why it is refused.
pub open spec fn chat_of(body: Seq<u8>) -> Result<ChatV, Seq<char>> {
    if !valid_utf8(body) {
        Err("body is not UTF-8"@)
    } else {
        match json::parsed(decode_utf8(body)) {
            Err(e) => Err("bad JSON: "@ + e),
            Ok(v) => match arr_member(v, "messages"@) {
                None => Err("missing 'messages' array"@),
                Some(items) => Ok(
                    ChatV {
                        msgs: Seq::new(items.len(), |i: int| msg_of(items[i])),
                        tools: tools_of(v),
                        request: v,
                    },
                ),
            },
        }
    }
}

fn get_content(m: &J) -> (r: String)
    ensures
        r@ == content_of(m@),
{
    match m.get("content") {
        Some(J::Str(s)) => s.as_str().to_owned(),
        Some(J::Arr(parts)) => {
            proof {
                json::lemma_arr_view(*parts);
            }
            let ghost all = json::items_view(parts@);
            let mut out: String = String::new();
            let n: usize = parts.len();
            let mut i: usize = 0;
            while i < n
                invariant
                    i <= n,
                    n == parts@.len(),
                    all == json::items_view(parts@),
                    out@ == parts_text(all, i as int),
                decreases n - i,
            {
                assert(all[i as int] == parts@[i as int]@);
                if let Some(t) = parts[i].get("text") {
                    if let Some(s) = t.as_str() {
                        out.append(s);
                    }
                }
                i += 1;
                assert(out@ =~= parts_text(all, i as int));
            }
            out
        },
        _ => String::new(),
    }
}

fn get_call(c: &J) -> (r: Option<(String, String)>)
    ensures
        match r {
            Some(x) => call_of(c@) == Some(tools::call_view(x)),
            None => call_of(c@) is None,
        },
{
    let f: &J = match c.get("function") {
        Some(x) => x,
        None => c,
    };
    let name: String = match f.get("name") {
        Some(x) => match x.as_str() {
            Some(s) => s.to_owned(),
            None => return None,
        },
        None => return None,
    };
    let cs: Vec<char> = text::chars_of(name.as_str());
    if cs.len() == 0 {
        return None;
    }
    let args: String = match f.get("arguments") {
        Some(J::Str(s)) => s.as_str().to_owned(),
        Some(other) => json::to_json(other),
        None => "{}".to_owned(),
    };
    Some((name, args))
}

fn get_calls(m: &J) -> (r: Vec<(String, String)>)
    ensures
        tools::calls_view(r@) == msg_of(m@).tool_calls,
{
    let mut out: Vec<(String, String)> = Vec::new();
    assert(tools::calls_view(out@) =~= Seq::<Call>::empty());
    if let Some(x) = m.get("tool_calls") {
        if let Some(items) = x.as_arr() {
            let ghost all = json::items_view(items@);
            let n: usize = items.len();
            let mut i: usize = 0;
            while i < n
                invariant
                    i <= n,
                    n == items@.len(),
                    all == json::items_view(items@),
                    tools::calls_view(out@) == calls_in(all, i as int),
                decreases n - i,
            {
                assert(all[i as int] == items@[i as int]@);
                let ghost before = out@;
                if let Some(c) = get_call(&items[i]) {
                    out.push(c);
                    assert(tools::calls_view(out@) =~= tools::calls_view(before).push(
                        tools::call_view(c),
                    ));
                }
                i += 1;
            }
        }
    }
    out
}

fn get_msg(m: &J) -> (r: Msg)
    ensures
        r@ == msg_of(m@),
{
    let role: String = match m.get("role") {
        Some(x) => match x.as_str() {
            Some(s) => s.to_owned(),
            None => "user".to_owned(),
        },
        None => "user".to_owned(),
    };
    Msg { role, content: get_content(m), tool_calls: get_calls(m) }
}

fn get_msgs(items: &Vec<J>) -> (r: Vec<Msg>)
    ensures
        prompt::msgs_view(r@) == Seq::new(
            items@.len(),
            |i: int| msg_of(json::items_view(items@)[i]),
        ),
{
    let ghost all = json::items_view(items@);
    let mut out: Vec<Msg> = Vec::new();
    let n: usize = items.len();
    let mut i: usize = 0;
    while i < n
        invariant
            i <= n,
            n == items@.len(),
            all == json::items_view(items@),
            out@.len() == i,
            forall|k: int| 0 <= k < i ==> (#[trigger] out@[k])@ == msg_of(all[k]),
        decreases n - i,
    {
        assert(all[i as int] == items@[i as int]@);
        out.push(get_msg(&items[i]));
        i += 1;
    }
    assert(prompt::msgs_view(out@) =~= Seq::new(items@.len(), |i: int| msg_of(all[i])));
    out
}

fn get_tools(j: &J) -> (r: Vec<String>)
    ensures
        prompt::strings_view(r@) == tools_of(j@),
{
    let mut out: Vec<String> = Vec::new();
    assert(prompt::strings_view(out@) =~= Seq::<Seq<char>>::empty());
    if let Some(x) = j.get("tool_choice") {
        if let Some(s) = x.as_str() {
            if text::same(s, "none") {
                return out;
            }
        }
    }
    if let Some(x) = j.get("tools") {
        if let Some(items) = x.as_arr() {
            let ghost all = json::items_view(items@);
            let n: usize = items.len();
            let mut i: usize = 0;
            while i < n
                invariant
                    i <= n,
                    n == items@.len(),
                    all == json::items_view(items@),
                    out@.len() == i,
                    forall|k: int| 0 <= k < i ==> (#[trigger] out@[k])@ == json::text_of(all[k]),
                decreases n - i,
            {
                assert(all[i as int] == items@[i as int]@);
                out.push(json::to_json(&items[i]));
                i += 1;
            }
            assert(prompt::strings_view(out@) =~= tools_of(j@));
        }
    }
    out
}

/// Reads the body of a chat request: its messages, its tools and its options.
pub fn parse_chat(body: &Vec<u8>) -> (r: Result<(Vec<Msg>, Vec<String>, ChatOpts), String>)
    ensures
        match r {
            Ok(x) => chat_of(body@) matches Ok(c) && prompt::msgs_view(x.0@) == c.msgs
                && prompt::strings_view(x.1@) == c.tools && opts_of(c.request, x.2),
            Err(m) => chat_of(body@) == Err::<ChatV, Seq<char>>(m@),
        },
{
    let bytes: Vec<u8> = vstd::slice::slice_to_vec(body.as_slice());
    let txt: String = match gguf::from_utf8(bytes) {
        Ok(s) => s,
        Err(_) => return Err("body is not UTF-8".to_owned()),
    };
    let j: J = match J::parse(txt.as_str()) {
        Ok(j) => j,
        Err(e) => {
            return Err(text::concat("bad JSON: ", e.as_str()));
        },
    };
    let msgs: Vec<Msg> = match j.get("messages") {
        Some(x) => match x.as_arr() {
            Some(items) => get_msgs(items),
            None => return Err("missing 'messages' array".to_owned()),
        },
        None => return Err("missing 'messages' array".to_owned()),
    };
    let tools: Vec<String> = get_tools(&j);
    let opts: ChatOpts = ChatOpts::from(&j);
    Ok((msgs, tools, opts))
}

// ---- plain completions ----------------------------------------------------------------------

/// The body of a plain completion; what is no JSON counts as null.
pub open spec fn plain_request(body: Seq<u8>) -> JV {
    let t = if valid_utf8(body) {
        decode_utf8(body)
    } else {
        Seq::empty()
    };
    match json::parsed(t) {
        Ok(v) => v,
        Err(_) => JV::Null,
    }
}

/// The prompt of a plain completion: a text, or the first of a list.
pub open spec fn plain_prompt(v: JV) -> Seq<char> {
    match v.get("prompt"@) {
        Some(JV::Str(s)) => s,
        Some(JV::Arr(a)) => if a.len() > 0 && a[0].as_str() is Some {
            a[0].as_str()->0
        } else {
            Seq::empty()
        },
        _ => Seq::empty(),
    }
}

/// Reads the body of a plain completion: its prompt and its options.
pub fn parse_plain(body: &Vec<u8>) -> (r: (String, ChatOpts))
    ensures
        r.0@ == plain_prompt(plain_request(body@)),
        opts_of(plain_request(body@), r.1),
{
    let bytes: Vec<u8> = vstd::slice::slice_to_vec(body.as_slice());
    let txt: String = match gguf::from_utf8(bytes) {
        Ok(s) => s,
        Err(_) => String::new(),
    };
    let j: J = match J::parse(txt.as_str()) {
        Ok(j) => j,
        Err(_) => J::Null,
    };
    let asked: String = match j.get("prompt") {
        Some(J::Str(s)) => s.as_str().to_owned(),
        Some(J::Arr(a)) => {
            proof {
                json::lemma_arr_view(*a);
                if a@.len() > 0 {
                    assert(json::items_view(a@)[0] == a@[0]@);
                }
            }
            if a.len() > 0 {
                match a[0].as_str() {
                    Some(s) => s.to_owned(),
                    None => String::new(),
                }
            } else {
                String::new()
            }
        },
        _ => String::new(),
    };
    (asked, ChatOpts::from(&j))
}

// ---- what the members of a request do -------------------------------------------------------

/// A request with one member more, in front of the others.
pub open spec fn added(pairs: Seq<(Seq<char>, JV)>, key: Seq<char>, x: JV) -> JV {
    JV::Obj(seq![(key, x)] + pairs)
}

/// The members that options are read from.
pub open spec fn is_option(key: Seq<char>) -> bool {
    ||| key == "temperature"@
    ||| key == "top_k"@
    ||| key == "top_p"@
    ||| key == "min_p"@
    ||| key == "stream"@
    ||| key == "max_tokens"@
    ||| key == "max_completion_tokens"@
}

proof fn lemma_added(pairs: Seq<(Seq<char>, JV)>, key: Seq<char>, x: JV, other: Seq<char>)
    ensures
        added(pairs, key, x).get(other) == if other == key {
            Some(x)
        } else {
            JV::Obj(pairs).get(other)
        },
{
    let all = seq![(key, x)] + pairs;
    assert(all[0] == (key, x));
    assert(all.skip(1) =~= pairs);
}

/// The names of options are all different.
proof fn lemma_option_names()
    ensures
        "temperature"@ != "top_k"@ && "temperature"@ != "top_p"@ && "temperature"@ != "min_p"@,
        "temperature"@ != "stream"@ && "temperature"@ != "max_tokens"@,
        "temperature"@ != "max_completion_tokens"@ && "top_k"@ != "top_p"@,
        "top_k"@ != "min_p"@ && "top_k"@ != "stream"@ && "top_k"@ != "max_tokens"@,
        "top_k"@ != "max_completion_tokens"@ && "top_p"@ != "min_p"@ && "top_p"@ != "stream"@,
        "top_p"@ != "max_tokens"@ && "top_p"@ != "max_completion_tokens"@,
        "min_p"@ != "stream"@ && "min_p"@ != "max_tokens"@,
        "min_p"@ != "max_completion_tokens"@ && "stream"@ != "max_tokens"@,
        "stream"@ != "max_completion_tokens"@ && "max_tokens"@ != "max_completion_tokens"@,
{
    reveal_strlit("temperature");
    reveal_strlit("top_k");
    reveal_strlit("top_p");
    reveal_strlit("min_p");
    reveal_strlit("stream");
    reveal_strlit("max_tokens");
    reveal_strlit("max_completion_tokens");
    assert("temperature"@.len() == 11 && "top_k"@.len() == 5 && "top_p"@.len() == 5);
    assert("min_p"@.len() == 5 && "stream"@.len() == 6 && "max_tokens"@.len() == 10);
    assert("max_completion_tokens"@.len() == 21);
    assert("top_k"@[4] != "top_p"@[4]);
    assert("top_k"@[0] != "min_p"@[0]);
    assert("top_p"@[0] != "min_p"@[0]);
}

/// A double narrows to one single.
proof fn lemma_narrows_unique(b: u64, r: u32, q: u32)
    requires
        number::narrows(b, r),
        number::narrows(b, q),
    ensures
        r == q,
{
    let m = if b >= number::SIGN {
        (b - number::SIGN) as u64
    } else {
        b
    };
    if m < number::INFINITE {
        number::law_value_reads_back(m);
        binary::law_rounds_unique(
            number::value_n(m),
            number::value_d(m),
            24,
            -149,
            128,
            single::mag(r),
            single::mag(q),
        );
    }
}

proof fn lemma_numbers_stay(
    pairs: Seq<(Seq<char>, JV)>,
    key: Seq<char>,
    x: JV,
    before: ChatOpts,
    after: ChatOpts,
)
    requires
        opts_of(JV::Obj(pairs), before),
        opts_of(added(pairs, key, x), after),
    ensures
        key != "temperature"@ ==> after.temp == before.temp,
        key != "top_k"@ ==> after.top_k == before.top_k,
        key != "top_p"@ ==> after.top_p == before.top_p,
        key != "min_p"@ ==> after.min_p == before.min_p,
        key != "stream"@ ==> after.stream == before.stream,
        key != "max_tokens"@ && key != "max_completion_tokens"@ ==> after.max_tokens
            == before.max_tokens,
{
    let (v, w) = (JV::Obj(pairs), added(pairs, key, x));
    lemma_added(pairs, key, x, "temperature"@);
    lemma_added(pairs, key, x, "top_k"@);
    lemma_added(pairs, key, x, "top_p"@);
    lemma_added(pairs, key, x, "min_p"@);
    lemma_added(pairs, key, x, "stream"@);
    lemma_added(pairs, key, x, "max_tokens"@);
    lemma_added(pairs, key, x, "max_completion_tokens"@);
    if key != "temperature"@ {
        lemma_narrows_unique(num_or(v, "temperature"@, 0), after.temp, before.temp);
    }
    if key != "top_p"@ {
        lemma_narrows_unique(num_or(v, "top_p"@, ONE), after.top_p, before.top_p);
    }
    if key != "min_p"@ {
        lemma_narrows_unique(num_or(v, "min_p"@, 0), after.min_p, before.min_p);
    }
}

/// A number under `temperature` is the temperature, rounded to a single, and decides nothing else.
pub proof fn law_temperature_is_obeyed(
    pairs: Seq<(Seq<char>, JV)>,
    t: u64,
    before: ChatOpts,
    after: ChatOpts,
)
    requires
        opts_of(JV::Obj(pairs), before),
        opts_of(added(pairs, "temperature"@, JV::Num(t)), after),
    ensures
        number::narrows(t, after.temp),
        after == (ChatOpts { temp: after.temp, ..before }),
        after.config() == (SamplerConfig { temp: after.temp, ..before.config() }),
{
    lemma_option_names();
    lemma_added(pairs, "temperature"@, JV::Num(t), "temperature"@);
    lemma_numbers_stay(pairs, "temperature"@, JV::Num(t), before, after);
}

/// A request is greedy exactly if its temperature is not positive: one from the smallest single on
/// is sampled, one at or below zero is not.
pub proof fn law_positive_temperature_samples(
    pairs: Seq<(Seq<char>, JV)>,
    t: u64,
    o: ChatOpts,
)
    requires
        opts_of(added(pairs, "temperature"@, JV::Num(t)), o),
        double::mag(t) < double::INF,
    ensures
        double::signed_units(t) >= binary::two(925) ==> !o.config().greedy(),
        double::signed_units(t) <= 0 ==> o.config().greedy(),
{
    lemma_added(pairs, "temperature"@, JV::Num(t), "temperature"@);
    let one = 1u32;
    assert(single::signed_units(one) == 1);
    assert(1 * binary::two(925) == binary::two(925));
    double::law_narrowing_crosses_no_single(t, o.temp, one);
    assert(single::signed_units(0) == 0);
    assert(0 * binary::two(925) == 0);
    double::law_narrowing_crosses_no_single(t, o.temp, 0);
}

/// Two requests that differ in their temperature alone have different options, unless the
/// temperatures are the same single.
pub proof fn law_temperatures_make_a_difference(
    pairs: Seq<(Seq<char>, JV)>,
    t: u64,
    u: u64,
    a: ChatOpts,
    b: ChatOpts,
)
    requires
        opts_of(added(pairs, "temperature"@, JV::Num(t)), a),
        opts_of(added(pairs, "temperature"@, JV::Num(u)), b),
        forall|r: u32| !(number::narrows(t, r) && number::narrows(u, r)),
    ensures
        a.temp != b.temp,
        a.config() != b.config(),
{
    lemma_added(pairs, "temperature"@, JV::Num(t), "temperature"@);
    lemma_added(pairs, "temperature"@, JV::Num(u), "temperature"@);
    assert(number::narrows(t, a.temp));
    assert(number::narrows(u, b.temp));
}

/// A number under `top_p` is the share of probability that stays, and one under `min_p` the share
/// of the best probability that a candidate needs; each rounded to a single, and neither decides
/// anything else.
pub proof fn law_shares_are_obeyed(
    pairs: Seq<(Seq<char>, JV)>,
    n: u64,
    before: ChatOpts,
    p: ChatOpts,
    m: ChatOpts,
)
    requires
        opts_of(JV::Obj(pairs), before),
        opts_of(added(pairs, "top_p"@, JV::Num(n)), p),
        opts_of(added(pairs, "min_p"@, JV::Num(n)), m),
    ensures
        number::narrows(n, p.top_p),
        p == (ChatOpts { top_p: p.top_p, ..before }),
        p.config() == (SamplerConfig { top_p: p.top_p, ..before.config() }),
        number::narrows(n, m.min_p),
        m == (ChatOpts { min_p: m.min_p, ..before }),
        m.config() == (SamplerConfig { min_p: m.min_p, ..before.config() }),
{
    lemma_option_names();
    lemma_added(pairs, "top_p"@, JV::Num(n), "top_p"@);
    lemma_numbers_stay(pairs, "top_p"@, JV::Num(n), before, p);
    lemma_added(pairs, "min_p"@, JV::Num(n), "min_p"@);
    lemma_numbers_stay(pairs, "min_p"@, JV::Num(n), before, m);
}

/// A number under `top_k`, cut to an integer of 32 bits, is how many candidates stay, and decides
/// nothing else.
pub proof fn law_top_k_is_obeyed(
    pairs: Seq<(Seq<char>, JV)>,
    n: u64,
    before: ChatOpts,
    after: ChatOpts,
)
    requires
        opts_of(JV::Obj(pairs), before),
        opts_of(added(pairs, "top_k"@, JV::Num(n)), after),
        i32::MIN <= number::truncated(n) <= i32::MAX,
    ensures
        after.top_k == number::truncated(n),
        after == (ChatOpts { top_k: after.top_k, ..before }),
        after.config() == (SamplerConfig { top_k: after.top_k, ..before.config() }),
{
    lemma_option_names();
    lemma_added(pairs, "top_k"@, JV::Num(n), "top_k"@);
    lemma_numbers_stay(pairs, "top_k"@, JV::Num(n), before, after);
}

/// A reply is streamed exactly if `stream` is true, which decides nothing else.
pub proof fn law_stream_is_obeyed(
    pairs: Seq<(Seq<char>, JV)>,
    x: JV,
    before: ChatOpts,
    after: ChatOpts,
)
    requires
        opts_of(JV::Obj(pairs), before),
        opts_of(added(pairs, "stream"@, x), after),
    ensures
        after.stream == (x == JV::Bool(true)),
        after == (ChatOpts { stream: after.stream, ..before }),
{
    lemma_option_names();
    lemma_added(pairs, "stream"@, x, "stream"@);
    lemma_numbers_stay(pairs, "stream"@, x, before, after);
}

/// A limit of tokens is obeyed, up to the most that is allowed; one that is not positive counts as
/// none. The older name goes before the newer one, and neither decides anything else.
pub proof fn law_token_limit_is_obeyed(
    pairs: Seq<(Seq<char>, JV)>,
    key: Seq<char>,
    n: u64,
    before: ChatOpts,
    after: ChatOpts,
)
    requires
        opts_of(JV::Obj(pairs), before),
        opts_of(added(pairs, key, JV::Num(n)), after),
        key == "max_tokens"@ || key == "max_completion_tokens"@,
    ensures
        ({
            let i = number::truncated(n);
            let heard = key == "max_tokens"@ || JV::Obj(pairs).get("max_tokens"@) is None;
            &&& heard && 1 <= i <= 8192 ==> after.max_tokens == i
            &&& heard && i > 8192 ==> after.max_tokens == 8192
            &&& heard && i <= 0 ==> after.max_tokens == 256
            &&& !heard ==> after.max_tokens == before.max_tokens
        }),
        after == (ChatOpts { max_tokens: after.max_tokens, ..before }),
{
    lemma_option_names();
    lemma_added(pairs, key, JV::Num(n), "max_tokens"@);
    lemma_added(pairs, key, JV::Num(n), "max_completion_tokens"@);
    lemma_numbers_stay(pairs, key, JV::Num(n), before, after);
}

/// No other member of a request decides anything about how it is answered.
pub proof fn law_other_members_decide_nothing(
    pairs: Seq<(Seq<char>, JV)>,
    key: Seq<char>,
    x: JV,
    before: ChatOpts,
    after: ChatOpts,
)
    requires
        opts_of(JV::Obj(pairs), before),
        opts_of(added(pairs, key, x), after),
        !is_option(key),
    ensures
        after == before,
{
    lemma_numbers_stay(pairs, key, x, before, after);
}

/// What a request leaves open: at most 256 tokens, greedy, sent at once; 20 candidates, and all of
/// their probability.
pub proof fn law_defaults(o: ChatOpts)
    requires
        opts_of(JV::Obj(Seq::empty()), o),
    ensures
        o.max_tokens == 256,
        o.top_k == 20,
        o.config().greedy(),
        !o.stream,
        single::mag(o.min_p) == 0,
        o.top_p == single::ONE,
{
    double::law_narrowing_crosses_no_single(0, o.temp, 0);
    double::law_narrowing_crosses_no_single(0, o.min_p, 0);
    assert(double::units(0) == 0 && single::units(0) == 0);
    assert(0 * binary::two(925) == 0);
    let one = single::ONE;
    assert(double::mag(ONE) == 0x3FF0_0000_0000_0000);
    assert(single::mag(one) == 0x3F80_0000);
    binary::lemma_two_52();
    assert(binary::two(23) == 0x80_0000) by {
        reveal_with_fuel(binary::two, 24);
    }
    binary::lemma_two_adds(52, 1022);
    binary::lemma_two_adds(23, 126);
    binary::lemma_two_adds(149, 925);
    assert(double::signed_units(ONE) == binary::two(1074));
    assert(single::signed_units(one) == binary::two(149));
    double::law_narrowing_crosses_no_single(ONE, o.top_p, one);
}

// ---- what is said reads back ----------------------------------------------------------------

/// A call, as a client hands it back.
pub open spec fn call_json(c: Call) -> JV {
    JV::Obj(
        seq![
            (
                "function"@,
                JV::Obj(seq![("name"@, JV::Str(c.0)), ("arguments"@, JV::Str(c.1))]),
            ),
        ],
    )
}

/// A message, as a client writes it.
pub open spec fn message_json(m: MsgV) -> JV {
    JV::Obj(
        seq![
            ("role"@, JV::Str(m.role)),
            ("content"@, JV::Str(m.content)),
            (
                "tool_calls"@,
                JV::Arr(Seq::new(m.tool_calls.len(), |i: int| call_json(m.tool_calls[i]))),
            ),
        ],
    )
}

/// A conversation with tools and other members, as a client writes it.
pub open spec fn chat_json(
    msgs: Seq<MsgV>,
    tools: Seq<JV>,
    pairs: Seq<(Seq<char>, JV)>,
) -> JV {
    JV::Obj(
        seq![
            ("messages"@, JV::Arr(Seq::new(msgs.len(), |i: int| message_json(msgs[i])))),
            ("tools"@, JV::Arr(tools)),
        ] + pairs,
    )
}

proof fn lemma_call_reads_back(c: Call)
    requires
        c.0.len() > 0,
    ensures
        call_of(call_json(c)) == Some(c),
        json::finite(call_json(c)),
{
    reveal_strlit("function");
    reveal_strlit("name");
    reveal_strlit("arguments");
    let inner = seq![("name"@, JV::Str(c.0)), ("arguments"@, JV::Str(c.1))];
    let outer = seq![("function"@, JV::Obj(inner))];
    reveal_with_fuel(json::member, 3);
    assert("name"@.len() == 4 && "arguments"@.len() == 9);
    assert(inner[0].0 == "name"@);
    assert(inner.skip(1)[0] == inner[1]);
    assert(json::member(outer, "function"@) == Some(JV::Obj(inner)));
    assert(json::member(inner, "name"@) == Some(JV::Str(c.0)));
    assert(json::member(inner, "arguments"@) == Some(JV::Str(c.1)));
    assert forall|i: int| 0 <= i < inner.len() implies json::finite((#[trigger] inner[i]).1) by {}
    assert(json::finite(JV::Obj(inner)));
    assert forall|i: int| 0 <= i < outer.len() implies json::finite((#[trigger] outer[i]).1) by {}
}

proof fn lemma_calls_read_back(calls: Seq<Call>, items: Seq<JV>, k: int)
    requires
        0 <= k <= calls.len(),
        items == Seq::new(calls.len(), |i: int| call_json(calls[i])),
        forall|i: int| 0 <= i < calls.len() ==> (#[trigger] calls[i]).0.len() > 0,
    ensures
        calls_in(items, k) == calls.take(k),
        forall|i: int| 0 <= i < k ==> json::finite(#[trigger] items[i]),
    decreases k,
{
    if k > 0 {
        lemma_calls_read_back(calls, items, k - 1);
        assert(calls[k - 1].0.len() > 0);
        lemma_call_reads_back(calls[k - 1]);
        assert(items[k - 1] == call_json(calls[k - 1]));
        assert(calls.take(k - 1).push(calls[k - 1]) =~= calls.take(k));
        assert forall|i: int| 0 <= i < k implies json::finite(#[trigger] items[i]) by {
            if i == k - 1 {
                assert(json::finite(call_json(calls[k - 1])));
            }
        }
    } else {
        assert(calls.take(0) =~= Seq::<Call>::empty());
    }
}

/// A message reads back: who speaks, what is said, and what is called.
pub proof fn law_message_reads_back(m: MsgV)
    requires
        forall|i: int| 0 <= i < m.tool_calls.len() ==> (#[trigger] m.tool_calls[i]).0.len() > 0,
    ensures
        msg_of(message_json(m)) == m,
        json::finite(message_json(m)),
{
    reveal_strlit("role");
    reveal_strlit("content");
    reveal_strlit("tool_calls");
    let items = Seq::new(m.tool_calls.len(), |i: int| call_json(m.tool_calls[i]));
    let pairs = seq![
        ("role"@, JV::Str(m.role)),
        ("content"@, JV::Str(m.content)),
        ("tool_calls"@, JV::Arr(items)),
    ];
    assert("role"@.len() == 4 && "content"@.len() == 7 && "tool_calls"@.len() == 10);
    reveal_with_fuel(json::member, 4);
    let r1 = pairs.skip(1);
    let r2 = r1.skip(1);
    assert(r1[0] == pairs[1] && r2[0] == pairs[2]);
    assert(json::member(pairs, "role"@) == Some(JV::Str(m.role)));
    assert(json::member(pairs, "content"@) == Some(JV::Str(m.content)));
    assert(json::member(pairs, "tool_calls"@) == Some(JV::Arr(items)));
    lemma_calls_read_back(m.tool_calls, items, items.len() as int);
    assert(m.tool_calls.take(items.len() as int) =~= m.tool_calls);
    assert(json::finite(JV::Arr(items)));
    assert forall|i: int| 0 <= i < pairs.len() implies json::finite((#[trigger] pairs[i]).1) by {}
}

/// A conversation reads back from its body: every message, in order, and every tool, each as its
/// JSON; unless tools are forbidden, and then there are none.
pub proof fn law_conversation_reads_back(
    msgs: Seq<MsgV>,
    tools: Seq<JV>,
    pairs: Seq<(Seq<char>, JV)>,
)
    requires
        forall|k: int, i: int|
            0 <= k < msgs.len() && 0 <= i < msgs[k].tool_calls.len() ==> (
            #[trigger] msgs[k].tool_calls[i]).0.len() > 0,
    ensures
        ({
            let v = chat_json(msgs, tools, pairs);
            let c = chat_of(encode_utf8(json::text_of(v)));
            &&& c matches Ok(c)
            &&& c.msgs == msgs
            &&& c.request == json::kept(v)
            &&& JV::Obj(pairs).get("tool_choice"@) == Some(JV::Str("none"@)) ==> c.tools.len() == 0
            &&& JV::Obj(pairs).get("tool_choice"@) is None ==> c.tools == Seq::new(
                tools.len(),
                |i: int| json::text_of(tools[i]),
            )
        }),
{
    reveal_strlit("messages");
    reveal_strlit("tools");
    reveal_strlit("tool_choice");
    let v = chat_json(msgs, tools, pairs);
    let t = json::text_of(v);
    encode_utf8_valid_utf8(t);
    encode_utf8_decode_utf8(t);
    json::law_parse_undoes_to_json(v);
    let k = json::kept(v);
    let all = seq![
        ("messages"@, JV::Arr(Seq::new(msgs.len(), |i: int| message_json(msgs[i])))),
        ("tools"@, JV::Arr(tools)),
    ] + pairs;
    let kp = k->Obj_0;
    assert(v == JV::Obj(all));
    assert("messages"@.len() == 8 && "tools"@.len() == 5 && "tool_choice"@.len() == 11);
    let items = all[0].1->Arr_0;
    assert forall|i: int| 0 <= i < items.len() implies json::kept(#[trigger] items[i])
        == message_json(msgs[i]) by {
        let m = msgs[i];
        assert forall|j: int| 0 <= j < m.tool_calls.len() implies (
        #[trigger] m.tool_calls[j]).0.len() > 0 by {
            assert(msgs[i].tool_calls[j].0.len() > 0);
        }
        law_message_reads_back(m);
        json::lemma_kept(message_json(m));
    }
    assert(kp[0].0 == "messages"@ && kp[0].1 == json::kept(JV::Arr(items)));
    let ki = kp[0].1->Arr_0;
    assert(json::member(kp, "messages"@) == Some(kp[0].1));
    let got = Seq::new(ki.len(), |i: int| msg_of(ki[i]));
    assert forall|i: int| 0 <= i < msgs.len() implies got[i] == msgs[i] by {
        let m = msgs[i];
        assert forall|j: int| 0 <= j < m.tool_calls.len() implies (
        #[trigger] m.tool_calls[j]).0.len() > 0 by {
            assert(msgs[i].tool_calls[j].0.len() > 0);
        }
        law_message_reads_back(m);
        assert(ki[i] == json::kept(items[i]));
    }
    assert(got =~= msgs);
    lemma_kept_member(all, kp, "tool_choice"@);
    assert(all.skip(1)[0] == all[1]);
    assert(all.skip(1).skip(1) =~= pairs);
    reveal_with_fuel(json::member, 3);
    assert(json::member(all, "tool_choice"@) == json::member(pairs, "tool_choice"@));
    assert(kp.skip(1)[0] == kp[1]);
    assert(kp[1] == ("tools"@, json::kept(JV::Arr(tools))));
    assert(json::member(kp, "tools"@) == Some(kp[1].1));
    let kt = kp[1].1->Arr_0;
    assert forall|i: int| 0 <= i < tools.len() implies json::text_of(#[trigger] kt[i])
        == json::text_of(tools[i]) by {
        json::lemma_kept(tools[i]);
    }
    assert(Seq::new(kt.len(), |i: int| json::text_of(kt[i])) =~= Seq::new(
        tools.len(),
        |i: int| json::text_of(tools[i]),
    ));
}

proof fn lemma_kept_member(
    pairs: Seq<(Seq<char>, JV)>,
    kp: Seq<(Seq<char>, JV)>,
    key: Seq<char>,
)
    requires
        kp.len() == pairs.len(),
        forall|i: int|
            0 <= i < pairs.len() ==> #[trigger] kp[i] == (pairs[i].0, json::kept(pairs[i].1)),
    ensures
        json::member(kp, key) == match json::member(pairs, key) {
            Some(x) => Some(json::kept(x)),
            None => None,
        },
    decreases pairs.len(),
{
    if pairs.len() > 0 {
        assert(kp[0] == (pairs[0].0, json::kept(pairs[0].1)));
        let (a, b) = (pairs.skip(1), kp.skip(1));
        assert forall|i: int| 0 <= i < a.len() implies #[trigger] b[i] == (
            a[i].0,
            json::kept(a[i].1),
        ) by {
            assert(kp[i + 1] == (pairs[i + 1].0, json::kept(pairs[i + 1].1)));
        }
        lemma_kept_member(a, b, key);
    }
}

/// The texts of a message's parts are joined, in order; parts without a text add nothing.
pub proof fn law_parts_are_joined(parts: Seq<JV>, p: JV)
    ensures
        content_of(JV::Obj(seq![("content"@, JV::Arr(Seq::empty()))])).len() == 0,
        content_of(JV::Obj(seq![("content"@, JV::Arr(parts.push(p)))])) == content_of(
            JV::Obj(seq![("content"@, JV::Arr(parts))]),
        ) + match p.get("text"@) {
            Some(JV::Str(s)) => s,
            _ => Seq::empty(),
        },
{
    let (a, b) = (JV::Arr(parts), JV::Arr(parts.push(p)));
    let key = "content"@;
    assert(seq![(key, a)][0].0 == key && seq![(key, b)][0].0 == key);
    assert(seq![(key, JV::Arr(Seq::empty()))][0].0 == key);
    lemma_parts(parts, parts.push(p), parts.len() as int);
}

proof fn lemma_parts(a: Seq<JV>, b: Seq<JV>, k: int)
    requires
        0 <= k <= a.len() <= b.len(),
        forall|i: int| 0 <= i < k ==> a[i] == b[i],
    ensures
        parts_text(a, k) == parts_text(b, k),
    decreases k,
{
    if k > 0 {
        lemma_parts(a, b, k - 1);
    }
}

/// The prompt of a plain completion reads back from its body, whether it is a text or the first of
/// a list.
pub proof fn law_prompt_reads_back(
    p: Seq<char>,
    more: Seq<JV>,
    pairs: Seq<(Seq<char>, JV)>,
)
    ensures
        plain_prompt(
            plain_request(encode_utf8(json::text_of(added(pairs, "prompt"@, JV::Str(p))))),
        ) == p,
        plain_prompt(
            plain_request(
                encode_utf8(
                    json::text_of(added(pairs, "prompt"@, JV::Arr(seq![JV::Str(p)] + more))),
                ),
            ),
        ) == p,
{
    lemma_prompt_request(pairs, JV::Str(p));
    lemma_prompt_request(pairs, JV::Arr(seq![JV::Str(p)] + more));
    let a = json::kept(JV::Arr(seq![JV::Str(p)] + more))->Arr_0;
    assert(a[0] == json::kept((seq![JV::Str(p)] + more)[0]));
}

proof fn lemma_prompt_request(pairs: Seq<(Seq<char>, JV)>, x: JV)
    ensures
        plain_request(encode_utf8(json::text_of(added(pairs, "prompt"@, x)))).get("prompt"@) == Some(
            json::kept(x),
        ),
{
    let v = added(pairs, "prompt"@, x);
    let t = json::text_of(v);
    encode_utf8_valid_utf8(t);
    encode_utf8_decode_utf8(t);
    json::law_parse_undoes_to_json(v);
    let kp = json::kept(v)->Obj_0;
    let all = seq![("prompt"@, x)] + pairs;
    assert(kp[0] == (all[0].0, json::kept(all[0].1)));
}

} // verus!
