//! The chat template: a conversation rendered as the model's prompt.

use vstd::prelude::*;
use vstd::string::*;

use crate::find;
use crate::json;
use crate::json::{J, JV};
use crate::reasoning;
use crate::text;
use crate::tools;
use crate::tools::Call;

verus! {

/// The tool preamble of the model's chat template.
pub const TOOL_INSTRUCTIONS: &'static str = "If you choose to call a function ONLY reply in the following format with NO suffix:\n\n<tool_call>\n<function=example_function_name>\n<parameter=example_parameter_1>\nvalue_1\n</parameter>\n<parameter=example_parameter_2>\nThis is the value for the second parameter\nthat can span\nmultiple lines\n</parameter>\n</function>\n</tool_call>\n\n<IMPORTANT>\nReminder:\n- Function calls MUST follow the specified format: an inner <function=...></function> block must be nested within <tool_call></tool_call> XML tags\n- Required parameters MUST be specified\n- You may provide optional reasoning for your function call in natural language BEFORE the function call, but NOT after\n- If there is no function call available, answer the question like normal with your current knowledge and do not tell the user about function calls\n</IMPORTANT>";

/// One chat message as the template consumes it.
#[derive(Debug)]
pub struct Msg {
    pub role: String,
    pub content: String,
    /// An assistant's tool calls: the function's name, and its arguments as a JSON object.
    pub tool_calls: Vec<(String, String)>,
}

/// The content of a [`Msg`].
pub struct MsgV {
    pub role: Seq<char>,
    pub content: Seq<char>,
    pub tool_calls: Seq<Call>,
}

impl Msg {
    pub open spec fn view(&self) -> MsgV {
        MsgV {
            role: self.role@,
            content: self.content@,
            tool_calls: tools::calls_view(self.tool_calls@),
        }
    }
}

pub open spec fn msgs_view(s: Seq<Msg>) -> Seq<MsgV> {
    Seq::new(s.len(), |i: int| s[i]@)
}

pub open spec fn strings_view(s: Seq<String>) -> Seq<Seq<char>> {
    Seq::new(s.len(), |i: int| s[i]@)
}

/// The system text: that of a first message with the system role, unless it is blank.
pub open spec fn system_of(msgs: Seq<MsgV>) -> Option<Seq<char>> {
    if msgs.len() > 0 && msgs[0].role == "system"@ && text::trimmed(msgs[0].content).len() > 0 {
        Some(text::trimmed(msgs[0].content))
    } else {
        None
    }
}

/// The first `k` tools, one to a line.
pub open spec fn tools_text(tools: Seq<Seq<char>>, k: int) -> Seq<char>
    decreases k,
{
    if k <= 0 {
        Seq::empty()
    } else {
        tools_text(tools, k - 1) + seq!['\n'] + tools[k - 1]
    }
}

/// The system turn, with the tools if there are any.
pub open spec fn preamble(system: Option<Seq<char>>, tools: Seq<Seq<char>>) -> Seq<char> {
    if tools.len() > 0 {
        "<|im_start|>system\n"@
            + "# Tools\n\nYou have access to the following functions:\n\n<tools>"@ + tools_text(
            tools,
            tools.len() as int,
        ) + "\n</tools>\n\n"@ + TOOL_INSTRUCTIONS@ + (match system {
            Some(c) => "\n\n"@ + c,
            None => Seq::empty(),
        }) + "<|im_end|>\n"@
    } else {
        match system {
            Some(c) => "<|im_start|>system\n"@ + c + "<|im_end|>\n"@,
            None => Seq::empty(),
        }
    }
}

/// A parameter: text stands raw, anything else as JSON.
pub open spec fn param_text(key: Seq<char>, v: JV) -> Seq<char> {
    "<parameter="@ + key + ">\n"@ + (match v {
        JV::Str(x) => x,
        other => json::text_of(other),
    }) + "\n</parameter>\n"@
}

/// The first `k` parameters.
pub open spec fn params_text(pairs: Seq<(Seq<char>, JV)>, k: int) -> Seq<char>
    decreases k,
{
    if k <= 0 {
        Seq::empty()
    } else {
        params_text(pairs, k - 1) + param_text(pairs[k - 1].0, pairs[k - 1].1)
    }
}

/// How call `i` is set off from what comes before it.
pub open spec fn call_lead(i: int, blank: bool) -> Seq<char> {
    if i == 0 {
        if blank {
            "<tool_call>\n"@
        } else {
            "\n\n<tool_call>\n"@
        }
    } else {
        "\n<tool_call>\n"@
    }
}

/// A call: its name, and the parameters if its arguments are a JSON object.
pub open spec fn call_text(c: Call) -> Seq<char> {
    "<function="@ + c.0 + ">\n"@ + (match json::parsed(c.1) {
        Ok(JV::Obj(pairs)) => params_text(pairs, pairs.len() as int),
        _ => Seq::empty(),
    }) + "</function>\n</tool_call>"@
}

/// The first `k` calls of a message.
pub open spec fn calls_text(calls: Seq<Call>, blank: bool, k: int) -> Seq<char>
    decreases k,
{
    if k <= 0 {
        Seq::empty()
    } else {
        calls_text(calls, blank, k - 1) + call_lead(k - 1, blank) + call_text(calls[k - 1])
    }
}

/// An assistant's turn: its reasoning, when the model thinks, its answer and its calls.
pub open spec fn assistant_text(think: bool, m: MsgV) -> Seq<char> {
    let (reason, content) = reasoning::split_of(m.content);
    "<|im_start|>assistant\n"@ + (if think && reason.len() > 0 {
        "<think>\n"@ + reason + "\n</think>\n\n"@
    } else {
        Seq::empty()
    }) + content + calls_text(
        m.tool_calls,
        text::trimmed(content).len() == 0,
        m.tool_calls.len() as int,
    ) + "<|im_end|>\n"@
}

/// One message. System messages went into the preamble.
pub open spec fn msg_text(think: bool, m: MsgV) -> Seq<char> {
    if m.role == "system"@ {
        Seq::empty()
    } else if m.role == "user"@ {
        "<|im_start|>user\n"@ + text::trimmed(m.content) + "<|im_end|>\n"@
    } else if m.role == "assistant"@ {
        assistant_text(think, m)
    } else if m.role == "tool"@ {
        "<|im_start|>user\n<tool_response>\n"@ + text::trimmed(m.content)
            + "\n</tool_response><|im_end|>\n"@
    } else {
        "<|im_start|>user\n"@ + m.content + "<|im_end|>\n"@
    }
}

/// The first `k` messages.
pub open spec fn turns(think: bool, msgs: Seq<MsgV>, k: int) -> Seq<char>
    decreases k,
{
    if k <= 0 {
        Seq::empty()
    } else {
        turns(think, msgs, k - 1) + msg_text(think, msgs[k - 1])
    }
}

/// The prompt of a conversation; a model that does not think gets an empty reasoning block.
pub open spec fn prompt_of(think: bool, msgs: Seq<MsgV>, tools: Seq<Seq<char>>) -> Seq<char> {
    preamble(system_of(msgs), tools) + turns(think, msgs, msgs.len() as int)
        + "<|im_start|>assistant\n"@ + (if think {
        "<think>\n"@
    } else {
        "<think>\n\n</think>\n\n"@
    })
}

fn push_preamble(out: &mut String, system: &Option<String>, tools: &Vec<String>)
    ensures
        final(out)@ == old(out)@ + preamble(
            match system {
                Some(c) => Some(c@),
                None => None,
            },
            strings_view(tools@),
        ),
{
    let ghost ts = strings_view(tools@);
    let ghost sys = match system {
        Some(c) => Some(c@),
        None => None,
    };
    let n: usize = tools.len();
    if n > 0 {
        out.append("<|im_start|>system\n");
        out.append("# Tools\n\nYou have access to the following functions:\n\n<tools>");
        let ghost head = out@;
        let mut i: usize = 0;
        assert(head + Seq::<char>::empty() =~= head);
        while i < n
            invariant
                i <= n,
                n == tools@.len(),
                ts == strings_view(tools@),
                out@ == head + tools_text(ts, i as int),
            decreases n - i,
        {
            out.push('\n');
            out.append(tools[i].as_str());
            assert(out@ =~= head + (tools_text(ts, i as int) + seq!['\n'] + ts[i as int]));
            i += 1;
        }
        out.append("\n</tools>\n\n");
        out.append(TOOL_INSTRUCTIONS);
        if let Some(c) = system {
            out.append("\n\n");
            out.append(c.as_str());
        }
        out.append("<|im_end|>\n");
    } else if let Some(c) = system {
        out.append("<|im_start|>system\n");
        out.append(c.as_str());
        out.append("<|im_end|>\n");
    }
    assert(out@ =~= old(out)@ + preamble(sys, ts));
}

fn push_params(out: &mut String, pairs: &Vec<(String, J)>)
    ensures
        final(out)@ == old(out)@ + params_text(
            json::pairs_view(pairs@),
            json::pairs_view(pairs@).len() as int,
        ),
{
    let ghost ps = json::pairs_view(pairs@);
    let n: usize = pairs.len();
    let mut i: usize = 0;
    assert(out@ + Seq::<char>::empty() =~= out@);
    while i < n
        invariant
            i <= n,
            n == pairs@.len(),
            ps == json::pairs_view(pairs@),
            out@ == old(out)@ + params_text(ps, i as int),
        decreases n - i,
    {
        out.append("<parameter=");
        out.append(pairs[i].0.as_str());
        out.append(">\n");
        let ghost v = pairs@[i as int].1@;
        match &pairs[i].1 {
            J::Str(x) => {
                out.append(x.as_str());
            },
            other => {
                let t: String = json::to_json(other);
                out.append(t.as_str());
            },
        }
        out.append("\n</parameter>\n");
        assert(ps[i as int] == (pairs@[i as int].0@, v));
        assert(out@ =~= old(out)@ + (params_text(ps, i as int) + param_text(
            ps[i as int].0,
            ps[i as int].1,
        )));
        i += 1;
    }
}

fn push_call(out: &mut String, name: &str, args: &str)
    ensures
        final(out)@ == old(out)@ + call_text((name@, args@)),
{
    out.append("<function=");
    out.append(name);
    out.append(">\n");
    if let Ok(J::Obj(pairs)) = J::parse(args) {
        proof {
            json::lemma_obj_view(pairs);
        }
        push_params(out, &pairs);
    }
    out.append("</function>\n</tool_call>");
    assert(out@ =~= old(out)@ + call_text((name@, args@)));
}

fn push_calls(out: &mut String, calls: &Vec<(String, String)>, blank: bool)
    ensures
        final(out)@ == old(out)@ + calls_text(
            tools::calls_view(calls@),
            blank,
            tools::calls_view(calls@).len() as int,
        ),
{
    let ghost cs = tools::calls_view(calls@);
    let n: usize = calls.len();
    let mut i: usize = 0;
    assert(out@ + Seq::<char>::empty() =~= out@);
    while i < n
        invariant
            i <= n,
            n == calls@.len(),
            cs == tools::calls_view(calls@),
            out@ == old(out)@ + calls_text(cs, blank, i as int),
        decreases n - i,
    {
        if i == 0 {
            if blank {
                out.append("<tool_call>\n");
            } else {
                out.append("\n\n<tool_call>\n");
            }
        } else {
            out.append("\n<tool_call>\n");
        }
        push_call(out, calls[i].0.as_str(), calls[i].1.as_str());
        assert(out@ =~= old(out)@ + (calls_text(cs, blank, i as int) + call_lead(i as int, blank)
            + call_text(cs[i as int])));
        i += 1;
    }
}

fn push_assistant(out: &mut String, think: bool, m: &Msg)
    ensures
        final(out)@ == old(out)@ + assistant_text(think, m@),
{
    let (reason, content): (String, String) = reasoning::split_think(m.content.as_str());
    out.append("<|im_start|>assistant\n");
    if think && text::chars_of(reason.as_str()).len() > 0 {
        out.append("<think>\n");
        out.append(reason.as_str());
        out.append("\n</think>\n\n");
    }
    out.append(content.as_str());
    let blank: bool = text::chars_of(text::trim(content.as_str()).as_str()).len() == 0;
    push_calls(out, &m.tool_calls, blank);
    out.append("<|im_end|>\n");
    assert(out@ =~= old(out)@ + assistant_text(think, m@));
}

fn push_msg(out: &mut String, think: bool, m: &Msg)
    ensures
        final(out)@ == old(out)@ + msg_text(think, m@),
{
    let role: &str = m.role.as_str();
    if text::same(role, "system") {
    } else if text::same(role, "user") {
        out.append("<|im_start|>user\n");
        out.append(text::trim(m.content.as_str()).as_str());
        out.append("<|im_end|>\n");
    } else if text::same(role, "assistant") {
        push_assistant(out, think, m);
    } else if text::same(role, "tool") {
        out.append("<|im_start|>user\n<tool_response>\n");
        out.append(text::trim(m.content.as_str()).as_str());
        out.append("\n</tool_response><|im_end|>\n");
    } else {
        out.append("<|im_start|>user\n");
        out.append(m.content.as_str());
        out.append("<|im_end|>\n");
    }
    assert(out@ =~= old(out)@ + msg_text(think, m@));
}

/// Renders a conversation with the model's own chat template, with the tool definitions and the
/// assistant's tool calls.
pub fn build_prompt(think: bool, msgs: &Vec<Msg>, tools: &Vec<String>) -> (r: String)
    ensures
        r@ == prompt_of(think, msgs_view(msgs@), strings_view(tools@)),
{
    let ghost ms = msgs_view(msgs@);
    let n: usize = msgs.len();
    let mut system: Option<String> = None;
    if n > 0 && text::same(msgs[0].role.as_str(), "system") {
        let c: String = text::trim(msgs[0].content.as_str());
        if text::chars_of(c.as_str()).len() > 0 {
            system = Some(c);
        }
    }
    let mut out: String = String::new();
    push_preamble(&mut out, &system, tools);
    let ghost head = out@;
    assert(head =~= preamble(system_of(ms), strings_view(tools@)));
    let mut i: usize = 0;
    assert(head + Seq::<char>::empty() =~= head);
    while i < n
        invariant
            i <= n,
            n == msgs@.len(),
            ms == msgs_view(msgs@),
            out@ == head + turns(think, ms, i as int),
        decreases n - i,
    {
        push_msg(&mut out, think, &msgs[i]);
        assert(out@ =~= head + (turns(think, ms, i as int) + msg_text(think, ms[i as int])));
        i += 1;
    }
    out.append("<|im_start|>assistant\n");
    if think {
        out.append("<think>\n");
    } else {
        out.append("<think>\n\n</think>\n\n");
    }
    out
}

// ---- a rendered call parses back ----------------------------------------------------------------

/// What stands for a parameter's value: text raw, anything else as JSON.
pub open spec fn value_text(v: JV) -> Seq<char> {
    match v {
        JV::Str(x) => x,
        other => json::text_of(other),
    }
}

/// A name that can stand in a tag: no angle brackets, and no white space around it.
pub open spec fn tag_name(s: Seq<char>) -> bool {
    &&& forall|i: int| 0 <= i < s.len() ==> #[trigger] s[i] != '<' && s[i] != '>'
    &&& text::trimmed(s) == s
}

/// A value that can stand in a parameter: no closing tag in its text, and text that is neither
/// taken for JSON nor has newlines around it.
pub open spec fn param_fits(v: JV) -> bool {
    let t = value_text(v);
    &&& find::find(t, "</parameter>"@) is None
    &&& find::find(t, "</function>"@) is None
    &&& find::find(t, "</tool_call>"@) is None
    &&& v matches JV::Str(x) ==> json::parsed(x) is Err && (x.len() > 0 ==> x[0] != '\n'
        && x.last() != '\n')
}

/// A value that can stand in a parameter and reads back as it is.
spec fn fits(v: JV) -> bool {
    json::finite(v) && param_fits(v)
}

/// The parameters from the `k`-th on.
spec fn params_tail(pairs: Seq<(Seq<char>, JV)>, k: int) -> Seq<char>
    decreases pairs.len() - k,
{
    if k < 0 || k >= pairs.len() {
        Seq::empty()
    } else {
        param_text(pairs[k].0, pairs[k].1) + params_tail(pairs, k + 1)
    }
}

proof fn lemma_params_tail(pairs: Seq<(Seq<char>, JV)>, k: int)
    requires
        0 <= k <= pairs.len(),
    ensures
        params_text(pairs, k) + params_tail(pairs, k) == params_text(pairs, pairs.len() as int),
    decreases pairs.len() - k,
{
    if k < pairs.len() {
        lemma_params_tail(pairs, k + 1);
        let (a, b, c) = (
            params_text(pairs, k),
            param_text(pairs[k].0, pairs[k].1),
            params_tail(pairs, k + 1),
        );
        assert((a + b) + c =~= a + (b + c));
    } else {
        assert(params_text(pairs, k) + Seq::<char>::empty() =~= params_text(pairs, k));
    }
}

/// A pattern that is one line.
spec fn in_line(tag: Seq<char>) -> bool {
    tag.len() > 0 && forall|i: int| 0 <= i < tag.len() ==> #[trigger] tag[i] != '\n'
}

/// Behind whole lines without it, a pattern of one line is found where it is found in the rest.
proof fn lemma_behind_lines(head: Seq<char>, tail: Seq<char>, tag: Seq<char>)
    requires
        in_line(tag),
        head.len() > 0 ==> head.last() == '\n',
        find::find(head, tag) is None,
    ensures
        find::find(head + tail, tag) == find::behind(head, find::find(tail, tag)),
{
    let s = head + tail;
    find::lemma_find_from(head, tag, 0);
    assert forall|i: int| 0 <= i < head.len() implies !#[trigger] find::stands(s, tag, i) by {
        if find::stands(s, tag, i) {
            let w = s.subrange(i, i + tag.len());
            let e = head.len() - 1;
            if i + tag.len() <= head.len() {
                assert(head.subrange(i, i + tag.len()) =~= w);
                assert(find::stands(head, tag, i));
            } else {
                assert(w[e - i] == s[e]);
                assert(tag[e - i] == '\n');
            }
        }
    }
    find::lemma_find_behind(head, tail, tag);
}

/// A closing tag: its first character is its only angle bracket that opens.
spec fn closing(tag: Seq<char>) -> bool {
    &&& in_line(tag)
    &&& tag.len() > 2
    &&& tag[0] == '<'
    &&& tag[1] == '/'
}

/// A line with one opening tag has no closing tag.
proof fn lemma_opening_line(pre: Seq<char>, name: Seq<char>, tag: Seq<char>)
    requires
        closing(tag),
        pre.len() > 1,
        pre[1] != '/',
        forall|i: int| 1 <= i < pre.len() ==> #[trigger] pre[i] != '<',
        forall|i: int| 0 <= i < name.len() ==> #[trigger] name[i] != '<',
    ensures
        find::find(pre + name + ">\n"@, tag) is None,
{
    reveal_strlit(">\n");
    let s = pre + name + ">\n"@;
    assert forall|j: int| 0 <= j implies !#[trigger] find::stands(s, tag, j) by {
        if find::stands(s, tag, j) {
            let w = s.subrange(j, j + tag.len());
            assert(w[0] == s[j]);
            assert(w[1] == s[j + 1]);
            if j < pre.len() {
                assert(s[j] == pre[j]);
                assert(j == 0);
                assert(s[1] == pre[1]);
            } else if j < pre.len() + name.len() {
                assert(s[j] == name[j - pre.len()]);
            } else {
                assert(s[j] == ">\n"@[j - pre.len() - name.len()]);
            }
        }
    }
    find::lemma_not_found(s, tag, 0);
}

/// A newline behind a text brings no pattern of one line.
proof fn lemma_value_line(t: Seq<char>, tag: Seq<char>)
    requires
        in_line(tag),
        find::find(t, tag) is None,
    ensures
        find::find(t + seq!['\n'], tag) is None,
{
    let s = t + seq!['\n'];
    find::lemma_find_from(t, tag, 0);
    assert forall|j: int| 0 <= j implies !#[trigger] find::stands(s, tag, j) by {
        if find::stands(s, tag, j) {
            let w = s.subrange(j, j + tag.len());
            if j + tag.len() <= t.len() {
                assert(t.subrange(j, j + tag.len()) =~= w);
                assert(find::stands(t, tag, j));
            } else {
                let e = t.len() as int;
                assert(w[e - j] == s[e]);
                assert(tag[e - j] == '\n');
            }
        }
    }
    find::lemma_not_found(s, tag, 0);
}

/// The line of another closing tag does not hold this one.
proof fn lemma_other_closing(line: Seq<char>, tag: Seq<char>)
    requires
        closing(tag),
        line.len() > 2,
        line[2] != tag[2],
        forall|i: int| 1 <= i < line.len() ==> #[trigger] line[i] != '<',
    ensures
        find::find(line, tag) is None,
{
    assert forall|j: int| 0 <= j implies !#[trigger] find::stands(line, tag, j) by {
        if find::stands(line, tag, j) {
            let w = line.subrange(j, j + tag.len());
            assert(w[0] == line[j]);
            assert(w[2] == line[j + 2]);
            assert(j == 0);
        }
    }
    find::lemma_not_found(line, tag, 0);
}

/// Lines without a pattern of one line, one behind the other, do not hold it.
proof fn lemma_lines(a: Seq<char>, b: Seq<char>, tag: Seq<char>)
    requires
        in_line(tag),
        a.len() > 0 ==> a.last() == '\n',
        b.len() > 0 ==> b.last() == '\n',
        find::find(a, tag) is None,
        find::find(b, tag) is None,
    ensures
        find::find(a + b, tag) is None,
        (a + b).len() > 0 ==> (a + b).last() == '\n',
{
    lemma_behind_lines(a, b, tag);
    if b.len() == 0 {
        assert(a + b =~= a);
    }
}

/// A parameter as its three lines.
proof fn lemma_param_lines(key: Seq<char>, v: JV)
    ensures
        param_text(key, v) == ("<parameter="@ + key + ">\n"@) + ((value_text(v) + seq!['\n'])
            + "</parameter>\n"@),
{
    reveal_strlit("\n</parameter>\n");
    reveal_strlit("</parameter>\n");
    assert("\n</parameter>\n"@ =~= seq!['\n'] + "</parameter>\n"@);
    assert(param_text(key, v) =~= ("<parameter="@ + key + ">\n"@) + ((value_text(v) + seq!['\n'])
        + "</parameter>\n"@));
}

/// Rendered parameters hold no closing tag but their own.
proof fn lemma_params_hold_none(pairs: Seq<(Seq<char>, JV)>, k: int, tag: Seq<char>)
    requires
        0 <= k <= pairs.len(),
        closing(tag),
        tag[2] != 'p',
        forall|i: int|
            0 <= i < pairs.len() ==> tag_name((#[trigger] pairs[i]).0) && fits(pairs[i].1)
                && find::find(value_text(pairs[i].1), tag) is None,
    ensures
        find::find(params_tail(pairs, k), tag) is None,
        params_tail(pairs, k).len() > 0 ==> params_tail(pairs, k).last() == '\n',
    decreases pairs.len() - k,
{
    if k < pairs.len() {
        reveal_strlit("<parameter=");
        reveal_strlit(">\n");
        reveal_strlit("</parameter>\n");
        let (key, v) = pairs[k];
        assert(tag_name(pairs[k].0) && fits(pairs[k].1));
        lemma_params_hold_none(pairs, k + 1, tag);
        lemma_param_lines(key, v);
        let (a, b, c) = (
            "<parameter="@ + key + ">\n"@,
            value_text(v) + seq!['\n'],
            "</parameter>\n"@,
        );
        lemma_opening_line("<parameter="@, key, tag);
        lemma_value_line(value_text(v), tag);
        lemma_other_closing(c, tag);
        lemma_lines(b, c, tag);
        lemma_lines(a, b + c, tag);
        lemma_lines(a + (b + c), params_tail(pairs, k + 1), tag);
    } else {
        find::lemma_find_from(Seq::<char>::empty(), tag, 0);
    }
}

proof fn lemma_edges(t: Seq<char>)
    requires
        t.len() > 0 ==> t[0] != '\n' && t.last() != '\n',
    ensures
        find::without_last_newlines(find::without_newlines(seq!['\n'] + t + seq!['\n'])) == t,
{
    reveal_with_fuel(find::without_newlines, 3);
    reveal_with_fuel(find::without_last_newlines, 2);
    let s = seq!['\n'] + t + seq!['\n'];
    let u = t + seq!['\n'];
    assert(s.skip(1) =~= u);
    if t.len() == 0 {
        assert(u[0] == '\n');
        assert(u.skip(1) =~= t);
    } else {
        assert(u[0] == t[0]);
        assert(u.last() == '\n');
        assert(u.drop_last() =~= t);
    }
}

/// A parameter's value is read back.
proof fn lemma_value_reads_back(v: JV)
    requires
        fits(v),
    ensures
        tools::param_value(value_text(v)) == v,
        value_text(v).len() > 0 ==> value_text(v)[0] != '\n' && value_text(v).last() != '\n',
{
    match v {
        JV::Str(x) => {},
        _ => {
            json::law_parse_undoes_to_json(v);
            json::lemma_value_edges(v);
        },
    }
}

/// The parameters from the `k`-th on, behind a newline, read back.
#[verifier::spinoff_prover]
#[verifier::rlimit(60)]
proof fn lemma_params_read_back(pairs: Seq<(Seq<char>, JV)>, k: int)
    requires
        0 <= k <= pairs.len(),
        forall|i: int|
            0 <= i < pairs.len() ==> tag_name((#[trigger] pairs[i]).0) && fits(pairs[i].1),
    ensures
        tools::params_of(seq!['\n'] + params_tail(pairs, k)) == pairs.skip(k),
    decreases pairs.len() - k,
{
    reveal_strlit("<parameter=");
    reveal_strlit(">");
    reveal_strlit(">\n");
    reveal_strlit("</parameter>");
    reveal_strlit("</parameter>\n");
    let r = seq!['\n'] + params_tail(pairs, k);
    let open = "<parameter="@;
    if k < pairs.len() {
        let (key, v) = pairs[k];
        assert(tag_name(pairs[k].0) && fits(pairs[k].1));
        let t = value_text(v);
        let close = "</parameter>"@;
        let rest = seq!['\n'] + params_tail(pairs, k + 1);
        lemma_param_lines(key, v);
        assert("</parameter>\n"@ =~= close + seq!['\n']);
        assert(r =~= seq!['\n'] + open + key + ">"@ + seq!['\n'] + t + seq!['\n'] + close + rest);
        let p0 = 12int;
        let gt = p0 + key.len();
        let e = gt + 2 + t.len() + 1;
        assert(r.subrange(1, 12) =~= open);
        assert(!find::stands(r, open, 0)) by {
            if find::stands(r, open, 0) {
                assert(r.subrange(0, 11)[0] == r[0]);
            }
        }
        find::lemma_found(r, open, 0, 1);
        assert(r.subrange(gt, gt + 1) =~= ">"@);
        assert forall|j: int| p0 <= j < gt implies !#[trigger] find::stands(r, ">"@, j) by {
            if find::stands(r, ">"@, j) {
                assert(r.subrange(j, j + 1)[0] == r[j]);
                assert(r[j] == key[j - p0]);
            }
        }
        find::lemma_found(r, ">"@, p0, gt);
        assert(r.subrange(e, e + 12) =~= close);
        find::lemma_find_from(t, close, 0);
        assert forall|j: int| gt + 1 <= j < e implies !#[trigger] find::stands(r, close, j) by {
            if find::stands(r, close, j) {
                let w = r.subrange(j, j + 12);
                assert(w[0] == r[j]);
                assert(j >= gt + 2);
                if j + 12 <= e - 1 {
                    assert(t.subrange(j - gt - 2, j - gt - 2 + 12) =~= w);
                    assert(find::stands(t, close, j - gt - 2));
                } else {
                    assert(w[e - 1 - j] == r[e - 1]);
                    assert(r[e - 1] == '\n');
                    assert(close[e - 1 - j] == '\n');
                }
            }
        }
        find::lemma_found(r, close, gt + 1, e);
        lemma_value_reads_back(v);
        lemma_edges(t);
        assert(r.subrange(gt + 1, e) =~= seq!['\n'] + t + seq!['\n']);
        assert(r.subrange(p0, gt) =~= key);
        assert(r.skip(e + 12) =~= rest);
        lemma_params_read_back(pairs, k + 1);
        assert(pairs.skip(k) =~= seq![(key, v)] + pairs.skip(k + 1));
    } else {
        assert(r =~= seq!['\n']);
        assert forall|j: int| 0 <= j implies !#[trigger] find::stands(r, open, j) by {}
        find::lemma_not_found(r, open, 0);
        assert(pairs.skip(k) =~= Seq::<(Seq<char>, JV)>::empty());
    }
}

/// The inside of a rendered block.
spec fn block_text(name: Seq<char>, pairs: Seq<(Seq<char>, JV)>) -> Seq<char> {
    seq!['\n'] + ("<function="@ + name + ">\n"@) + params_tail(pairs, 0) + "</function>\n"@
}

#[verifier::spinoff_prover]
#[verifier::rlimit(60)]
proof fn lemma_block_reads_back(name: Seq<char>, pairs: Seq<(Seq<char>, JV)>)
    requires
        tag_name(name),
        forall|i: int|
            0 <= i < pairs.len() ==> tag_name((#[trigger] pairs[i]).0) && fits(pairs[i].1),
    ensures
        tools::block_of(block_text(name, pairs)) == Some((name, json::text_of(JV::Obj(pairs)))),
        find::find(block_text(name, pairs), "</tool_call>"@) is None,
        block_text(name, pairs).last() == '\n',
{
    reveal_strlit("<function=");
    reveal_strlit(">");
    reveal_strlit(">\n");
    reveal_strlit("</function>");
    reveal_strlit("</function>\n");
    reveal_strlit("</tool_call>");
    let b = block_text(name, pairs);
    let open = "<function="@;
    let close = "</function>"@;
    let done = "</tool_call>"@;
    let nl = seq!['\n'];
    let line = open + name + ">\n"@;
    let params = params_tail(pairs, 0);
    let fs = 11int;
    let fe = fs + name.len();
    assert(b.subrange(1, 11) =~= open);
    assert(!find::stands(b, open, 0)) by {
        if find::stands(b, open, 0) {
            assert(b.subrange(0, 10)[0] == b[0]);
        }
    }
    find::lemma_found(b, open, 0, 1);
    assert(b[fe] == '>');
    assert(b.subrange(fe, fe + 1) =~= ">"@);
    assert forall|j: int| fs <= j < fe implies !#[trigger] find::stands(b, ">"@, j) by {
        if find::stands(b, ">"@, j) {
            assert(b.subrange(j, j + 1)[0] == b[j]);
            assert(b[j] == name[j - fs]);
        }
    }
    find::lemma_found(b, ">"@, fs, fe);
    assert(b.subrange(fs, fe) =~= name);
    // The closing tags.
    lemma_opening_line(open, name, close);
    lemma_opening_line(open, name, done);
    lemma_params_hold_none(pairs, 0, close);
    lemma_params_hold_none(pairs, 0, done);
    assert(find::find(nl, close) is None && find::find(nl, done) is None) by {
        find::lemma_find_from(nl, close, 0);
        find::lemma_find_from(nl, done, 0);
    }
    lemma_lines(nl, line, close);
    lemma_lines(nl, line, done);
    lemma_lines(nl + line, params, close);
    lemma_lines(nl + line, params, done);
    let head = nl + line + params;
    let last = "</function>\n"@;
    lemma_other_closing(last, done);
    lemma_lines(head, last, done);
    lemma_behind_lines(head, last, close);
    assert(last.subrange(0, 11) =~= close);
    find::lemma_found(last, close, 0, 0);
    let end = head.len() as int;
    assert(find::find(b, close) == Some(end));
    assert(fe + 1 <= end);
    assert(b.subrange(fe + 1, end) =~= nl + params);
    lemma_params_read_back(pairs, 0);
    assert(pairs.skip(0) =~= pairs);
}

/// A rendered call is a block between its tags.
#[verifier::spinoff_prover]
#[verifier::rlimit(60)]
proof fn lemma_call_is_a_block(name: Seq<char>, args: Seq<char>, pairs: Seq<(Seq<char>, JV)>)
    requires
        json::parsed(args) == Ok::<JV, Seq<char>>(JV::Obj(pairs)),
    ensures
        call_lead(0, true) + call_text((name, args)) == "<tool_call>"@ + (block_text(name, pairs)
            + "</tool_call>"@),
{
    reveal_strlit("<tool_call>");
    reveal_strlit("</tool_call>");
    reveal_strlit("<tool_call>\n");
    reveal_strlit("</function>\n");
    reveal_strlit("</function>\n</tool_call>");
    let (open, close) = ("<tool_call>"@, "</tool_call>"@);
    let last = "</function>\n"@;
    lemma_params_tail(pairs, 0);
    let params = params_tail(pairs, 0);
    assert(params_text(pairs, 0) + params =~= params);
    assert("</function>\n</tool_call>"@ =~= last + close);
    assert("<tool_call>\n"@ =~= open + seq!['\n']);
    let line = "<function="@ + name + ">\n"@;
    assert(call_text((name, args)) == line + params + (last + close));
    assert((open + seq!['\n']) + (line + params + (last + close)) =~= open + (seq!['\n'] + line
        + params + last + close));
}

/// Parameters whose names and texts agree are rendered alike.
proof fn lemma_same_params(a: Seq<(Seq<char>, JV)>, b: Seq<(Seq<char>, JV)>, k: int)
    requires
        a.len() == b.len(),
        forall|i: int|
            0 <= i < a.len() ==> (#[trigger] a[i]).0 == b[i].0 && value_text(a[i].1) == value_text(
                b[i].1,
            ),
    ensures
        params_tail(a, k) == params_tail(b, k),
    decreases a.len() - k,
{
    if 0 <= k < a.len() {
        assert(a[k].0 == b[k].0 && value_text(a[k].1) == value_text(b[k].1));
        lemma_param_lines(a[k].0, a[k].1);
        lemma_param_lines(b[k].0, b[k].1);
        lemma_same_params(a, b, k + 1);
    }
}

/// A rendered call parses back: the text that a call is shown to the model with, read as a reply,
/// is that call and nothing else, its arguments in compact form. The arguments are an object; no
/// name holds an angle bracket or has white space around it, no value holds a closing tag, and no
/// text among the values is taken for JSON or has newlines around it.
pub proof fn law_rendered_call_parses_back(
    name: Seq<char>,
    args: Seq<char>,
    pairs: Seq<(Seq<char>, JV)>,
)
    requires
        json::parsed(args) == Ok::<JV, Seq<char>>(JV::Obj(pairs)),
        tag_name(name),
        forall|i: int|
            0 <= i < pairs.len() ==> tag_name((#[trigger] pairs[i]).0) && param_fits(pairs[i].1),
    ensures
        tools::calls_of(call_lead(0, true) + call_text((name, args))) == (
            Seq::<char>::empty(),
            seq![(name, json::text_of(JV::Obj(pairs)))],
        ),
{
    let call = (name, json::text_of(JV::Obj(pairs)));
    let k = json::kept(JV::Obj(pairs))->Obj_0;
    json::lemma_kept(JV::Obj(pairs));
    assert forall|i: int| 0 <= i < k.len() implies tag_name((#[trigger] k[i]).0) && fits(k[i].1)
        && k[i].0 == pairs[i].0 && value_text(k[i].1) == value_text(pairs[i].1) by {
        json::lemma_kept(pairs[i].1);
        assert(tag_name(pairs[i].0) && param_fits(pairs[i].1));
        assert(k[i] == (pairs[i].0, json::kept(pairs[i].1)));
        assert(value_text(k[i].1) == value_text(pairs[i].1));
    }
    let b = block_text(name, k);
    lemma_same_params(k, pairs, 0);
    assert(b == block_text(name, pairs));
    lemma_call_is_a_block(name, args, pairs);
    lemma_block_reads_back(name, k);
    lemma_calls_of_block(b, call);
}

/// A call whose arguments are in compact form, as those of a reply are, parses back as it is.
pub proof fn law_rendered_call_is_kept(name: Seq<char>, pairs: Seq<(Seq<char>, JV)>)
    requires
        tag_name(name),
        forall|i: int|
            0 <= i < pairs.len() ==> tag_name((#[trigger] pairs[i]).0) && param_fits(pairs[i].1),
    ensures
        ({
            let call = (name, json::text_of(JV::Obj(pairs)));
            tools::calls_of(call_lead(0, true) + call_text(call)) == (
                Seq::<char>::empty(),
                seq![call],
            )
        }),
{
    let args = json::text_of(JV::Obj(pairs));
    let k = json::kept(JV::Obj(pairs))->Obj_0;
    json::law_parse_undoes_to_json(JV::Obj(pairs));
    json::lemma_kept(JV::Obj(pairs));
    assert forall|i: int| 0 <= i < k.len() implies tag_name((#[trigger] k[i]).0) && param_fits(
        k[i].1,
    ) by {
        json::lemma_kept(pairs[i].1);
        assert(tag_name(pairs[i].0) && param_fits(pairs[i].1));
        assert(k[i] == (pairs[i].0, json::kept(pairs[i].1)));
        assert(value_text(k[i].1) == value_text(pairs[i].1));
    }
    law_rendered_call_parses_back(name, args, k);
}

/// A reply that is one block is the call of that block.
proof fn lemma_calls_of_block(b: Seq<char>, call: Call)
    requires
        tools::block_of(b) == Some(call),
        find::find(b, "</tool_call>"@) is None,
        b.len() > 0 ==> b.last() == '\n',
    ensures
        tools::calls_of("<tool_call>"@ + (b + "</tool_call>"@)) == (
            Seq::<char>::empty(),
            seq![call],
        ),
{
    reveal_strlit("<tool_call>");
    reveal_strlit("</tool_call>");
    let open = "<tool_call>"@;
    let close = "</tool_call>"@;
    let none = Seq::<char>::empty();
    let s = open + (b + close);
    assert(s.subrange(0, 11) =~= open);
    find::lemma_found(s, open, 0, 0);
    let after = s.skip(11);
    assert(after =~= b + close);
    lemma_behind_lines(b, close, close);
    assert(close.subrange(0, 12) =~= close);
    find::lemma_found(close, close, 0, 0);
    let j = b.len() as int;
    assert(after.take(j) =~= b);
    let next = after.skip(j + 12);
    assert(next =~= none);
    find::lemma_find_from(none, open, 0);
    assert(tools::calls_of(none) == (none, Seq::<Call>::empty()));
    assert(s.take(0) =~= none);
    assert(none + none =~= none);
    assert(seq![call] + Seq::<Call>::empty() =~= seq![call]);
}

// ---- what a prompt holds ----------------------------------------------------------------------

/// How a prompt ends: the reply is opened, and so is its reasoning, if the model thinks.
pub open spec fn reply_opening(think: bool) -> Seq<char> {
    "<|im_start|>assistant\n"@ + if think {
        "<think>\n"@
    } else {
        "<think>\n\n</think>\n\n"@
    }
}

/// `t` shows calls, one behind the other: each set off from what comes before, by a blank line if
/// that is an answer.
pub open spec fn shows_calls(calls: Seq<Call>, blank: bool, t: Seq<char>) -> bool
    decreases calls.len(),
{
    if calls.len() == 0 {
        t.len() == 0
    } else {
        let (c, lead) = (
            calls.last(),
            if calls.len() > 1 {
                "\n<tool_call>\n"@
            } else if blank {
                "<tool_call>\n"@
            } else {
                "\n\n<tool_call>\n"@
            },
        );
        let front = t.len() - (lead + call_text(c)).len();
        front >= 0 && t.skip(front) == lead + call_text(c) && shows_calls(
            calls.drop_last(),
            blank,
            t.take(front),
        )
    }
}

/// `t` is the turn of an assistant: its reasoning, where the model thinks and there is any, its
/// answer, and its calls.
pub open spec fn assistant_turn(
    think: bool,
    m: MsgV,
    t: Seq<char>,
    reason: Seq<char>,
    answer: Seq<char>,
    calls: Seq<char>,
) -> bool {
    let blank = forall|i: int|
        0 <= i < answer.len() ==> text::char_is_whitespace(#[trigger] answer[i]);
    &&& reasoning::says(m.content, reason, answer)
    &&& shows_calls(m.tool_calls, blank, calls)
    &&& t == "<|im_start|>assistant\n"@ + (if think && reason.len() > 0 {
        "<think>\n"@ + reason + "\n</think>\n\n"@
    } else {
        Seq::empty()
    }) + answer + calls + "<|im_end|>\n"@
}

/// `t` is the turn of a message that holds `said`.
pub open spec fn plain_turn(m: MsgV, t: Seq<char>, said: Seq<char>) -> bool {
    if m.role == "user"@ {
        text::trims(m.content, said) && t == "<|im_start|>user\n"@ + said + "<|im_end|>\n"@
    } else if m.role == "tool"@ {
        text::trims(m.content, said) && t == "<|im_start|>user\n<tool_response>\n"@ + said
            + "\n</tool_response><|im_end|>\n"@
    } else {
        said == m.content && t == "<|im_start|>user\n"@ + said + "<|im_end|>\n"@
    }
}

/// `t` is the turn of a message. A system message behind the first has none.
pub open spec fn is_turn(think: bool, m: MsgV, t: Seq<char>) -> bool {
    if m.role == "system"@ {
        t.len() == 0
    } else if m.role == "assistant"@ {
        exists|reason: Seq<char>, answer: Seq<char>, calls: Seq<char>| #[trigger]
            assistant_turn(think, m, t, reason, answer, calls)
    } else {
        exists|said: Seq<char>| #[trigger] plain_turn(m, t, said)
    }
}

proof fn lemma_shows_calls(calls: Seq<Call>, blank: bool, k: int)
    requires
        0 <= k <= calls.len(),
    ensures
        shows_calls(calls.take(k), blank, calls_text(calls, blank, k)),
    decreases k,
{
    if k > 0 {
        lemma_shows_calls(calls, blank, k - 1);
        assert(calls.take(k).drop_last() =~= calls.take(k - 1));
        assert(calls.take(k).last() == calls[k - 1]);
        let front = calls_text(calls, blank, k - 1);
        let back = call_lead(k - 1, blank) + call_text(calls[k - 1]);
        let t = calls_text(calls, blank, k);
        assert(t =~= front + back);
        assert(t.take(front.len() as int) =~= front);
        assert(t.skip(front.len() as int) =~= back);
    }
}

proof fn lemma_is_turn(think: bool, m: MsgV)
    ensures
        is_turn(think, m, msg_text(think, m)),
{
    let t = msg_text(think, m);
    reveal_strlit("system");
    reveal_strlit("user");
    reveal_strlit("assistant");
    reveal_strlit("tool");
    assert("system"@.len() == 6 && "user"@.len() == 4);
    assert("assistant"@.len() == 9 && "tool"@.len() == 4);
    assert("user"@[0] != "tool"@[0]);
    text::law_trimmed(m.content);
    if m.role == "system"@ {
    } else if m.role == "assistant"@ {
        let (reason, answer) = reasoning::split_of(m.content);
        reasoning::law_message_is_split(m.content);
        text::law_trimmed(answer);
        let blank = text::trimmed(answer).len() == 0;
        let n = m.tool_calls.len() as int;
        lemma_shows_calls(m.tool_calls, blank, n);
        assert(m.tool_calls.take(n) =~= m.tool_calls);
        let calls = calls_text(m.tool_calls, blank, n);
        assert(assistant_turn(think, m, t, reason, answer, calls));
    } else if m.role == "user"@ || m.role == "tool"@ {
        assert(plain_turn(m, t, text::trimmed(m.content)));
    } else {
        assert(plain_turn(m, t, m.content));
    }
}

proof fn lemma_turns_same(think: bool, a: Seq<MsgV>, b: Seq<MsgV>, k: int)
    requires
        0 <= k <= a.len(),
        k <= b.len(),
        forall|i: int| 0 <= i < k ==> a[i] == b[i],
    ensures
        turns(think, a, k) == turns(think, b, k),
    decreases k,
{
    if k > 0 {
        lemma_turns_same(think, a, b, k - 1);
    }
}

/// A message more, and a prompt has its turn more, right before the reply is opened: what comes
/// before stays as it was. Returns what comes before, and the turn.
pub proof fn law_prompt_takes_turns(
    think: bool,
    msgs: Seq<MsgV>,
    m: MsgV,
    tools: Seq<Seq<char>>,
) -> (r: (Seq<char>, Seq<char>))
    requires
        msgs.len() > 0 || m.role != "system"@,
    ensures
        prompt_of(think, msgs, tools) == r.0 + reply_opening(think),
        prompt_of(think, msgs.push(m), tools) == r.0 + r.1 + reply_opening(think),
        is_turn(think, m, r.1),
{
    let all = msgs.push(m);
    let n = msgs.len() as int;
    lemma_turns_same(think, msgs, all, n);
    lemma_is_turn(think, m);
    assert(all[n] == m);
    if n > 0 {
        assert(all[0] == msgs[0]);
    }
    assert(system_of(all) == system_of(msgs));
    let p = preamble(system_of(msgs), tools) + turns(think, msgs, n);
    let t = msg_text(think, m);
    assert(prompt_of(think, msgs, tools) =~= p + reply_opening(think));
    assert(prompt_of(think, all, tools) =~= p + t + reply_opening(think));
    (p, t)
}

/// A conversation that has not begun is a reply that is opened; a system message in front comes
/// first, unless it is blank.
pub proof fn law_prompt_begins(think: bool, m: MsgV, said: Seq<char>)
    requires
        m.role == "system"@,
        text::trims(m.content, said),
    ensures
        prompt_of(think, Seq::empty(), Seq::empty()) == reply_opening(think),
        prompt_of(think, seq![m], Seq::empty()) == (if said.len() > 0 {
            "<|im_start|>system\n"@ + said + "<|im_end|>\n"@
        } else {
            Seq::empty()
        }) + reply_opening(think),
{
    text::law_trimmed(m.content);
    text::law_trims_unique(m.content, said, text::trimmed(m.content));
    let none = Seq::<char>::empty();
    assert(prompt_of(think, Seq::empty(), Seq::empty()) =~= reply_opening(think));
    assert(turns(think, seq![m], 0) == none);
    assert(turns(think, seq![m], 1) =~= none);
    let p = preamble(system_of(seq![m]), Seq::empty());
    assert(prompt_of(think, seq![m], Seq::empty()) =~= p + reply_opening(think));
}

/// The turns of a conversation are the same with tools and without: `rest` is what they and the
/// opened reply make up. In front of it, the tools are explained in a system turn, which holds the
/// system text too, if there is any.
pub proof fn law_tools_are_explained(
    think: bool,
    msgs: Seq<MsgV>,
    tools: Seq<Seq<char>>,
) -> (r: (Seq<char>, Seq<char>))
    requires
        tools.len() > 0,
    ensures
        ({
            let (list, rest) = r;
            &&& exists|said: Seq<char>| #[trigger]
                system_said(msgs, said) && prompt_of(think, msgs, tools) == "<|im_start|>system\n"@
                    + "# Tools\n\nYou have access to the following functions:\n\n<tools>"@ + list
                    + "\n</tools>\n\n"@ + TOOL_INSTRUCTIONS@ + (if said.len() > 0 {
                    "\n\n"@ + said
                } else {
                    Seq::empty()
                }) + "<|im_end|>\n"@ + rest && prompt_of(think, msgs, Seq::empty()) == (
                if said.len() > 0 {
                    "<|im_start|>system\n"@ + said + "<|im_end|>\n"@
                } else {
                    Seq::empty()
                }) + rest
            &&& lists_tools(tools, list)
        }),
{
    let none = Seq::<char>::empty();
    let list = tools_text(tools, tools.len() as int);
    let rest = turns(think, msgs, msgs.len() as int) + reply_opening(think);
    let sys = system_of(msgs);
    let said = match sys {
        Some(c) => c,
        None => none,
    };
    if msgs.len() > 0 {
        text::law_trimmed(msgs[0].content);
        if text::trimmed(msgs[0].content).len() == 0 {
            assert(text::trimmed(msgs[0].content) =~= none);
        }
    }
    assert(system_said(msgs, said));
    lemma_lists_tools(tools, tools.len() as int);
    assert(tools.take(tools.len() as int) =~= tools);
    let tail = if said.len() > 0 {
        "\n\n"@ + said
    } else {
        none
    };
    assert(prompt_of(think, msgs, tools) =~= "<|im_start|>system\n"@
        + "# Tools\n\nYou have access to the following functions:\n\n<tools>"@ + list
        + "\n</tools>\n\n"@ + TOOL_INSTRUCTIONS@ + tail + "<|im_end|>\n"@ + rest);
    let front = if said.len() > 0 {
        "<|im_start|>system\n"@ + said + "<|im_end|>\n"@
    } else {
        none
    };
    assert(prompt_of(think, msgs, Seq::empty()) =~= front + rest);
    (list, rest)
}

/// What the system says: the first message, if it is of that role, without white space around it.
pub open spec fn system_said(msgs: Seq<MsgV>, said: Seq<char>) -> bool {
    if msgs.len() > 0 && msgs[0].role == "system"@ {
        text::trims(msgs[0].content, said)
    } else {
        said.len() == 0
    }
}

/// `list` holds the tools, each on a line of its own.
pub open spec fn lists_tools(tools: Seq<Seq<char>>, list: Seq<char>) -> bool
    decreases tools.len(),
{
    if tools.len() == 0 {
        list.len() == 0
    } else {
        let front = list.len() - (1 + tools.last().len());
        front >= 0 && list.skip(front) == seq!['\n'] + tools.last() && lists_tools(
            tools.drop_last(),
            list.take(front),
        )
    }
}

proof fn lemma_lists_tools(tools: Seq<Seq<char>>, k: int)
    requires
        0 <= k <= tools.len(),
    ensures
        lists_tools(tools.take(k), tools_text(tools, k)),
    decreases k,
{
    if k > 0 {
        lemma_lists_tools(tools, k - 1);
        assert(tools.take(k).drop_last() =~= tools.take(k - 1));
        assert(tools.take(k).last() == tools[k - 1]);
        let front = tools_text(tools, k - 1);
        let list = tools_text(tools, k);
        assert(list.take(front.len() as int) =~= front);
        assert(list.skip(front.len() as int) =~= seq!['\n'] + tools[k - 1]);
    }
}

/// A call whose arguments are no object is shown by its name alone.
pub proof fn law_call_without_object(name: Seq<char>, args: Seq<char>)
    requires
        !(json::parsed(args) matches Ok(JV::Obj(_))),
    ensures
        call_text((name, args)) == "<function="@ + name + ">\n"@ + "</function>\n</tool_call>"@,
{
    assert(call_text((name, args)) =~= "<function="@ + name + ">\n"@
        + "</function>\n</tool_call>"@);
}

proof fn lemma_turns_around(think: bool, a: Seq<MsgV>, m: MsgV, b: Seq<MsgV>, k: int)
    requires
        0 <= k <= b.len(),
    ensures
        turns(think, a + seq![m] + b, a.len() + 1 + k) == turns(think, a, a.len() as int)
            + msg_text(think, m) + turns(think, b, k),
    decreases k,
{
    let all = a + seq![m] + b;
    let n = a.len() as int;
    if k > 0 {
        lemma_turns_around(think, a, m, b, k - 1);
        assert(all[n + k] == b[k - 1]);
        let (x, y, z, w) = (
            turns(think, a, n),
            msg_text(think, m),
            turns(think, b, k - 1),
            msg_text(think, b[k - 1]),
        );
        assert((x + y + z) + w =~= x + y + (z + w));
    } else {
        lemma_turns_same(think, a, all, n);
        assert(all[n] == m);
        assert(turns(think, b, 0) == Seq::<char>::empty());
        let (x, y) = (turns(think, a, n), msg_text(think, m));
        assert(x + y + Seq::<char>::empty() =~= x + y);
    }
}

/// A prompt around one of its messages: what comes before and what follows depend on the other
/// messages alone, unless it is a system message in front.
proof fn lemma_prompt_around(
    think: bool,
    a: Seq<MsgV>,
    m: MsgV,
    b: Seq<MsgV>,
    tools: Seq<Seq<char>>,
)
    requires
        a.len() > 0 || m.role != "system"@,
    ensures
        prompt_of(think, a + seq![m] + b, tools) == (preamble(system_of(a), tools) + turns(
            think,
            a,
            a.len() as int,
        )) + msg_text(think, m) + (turns(think, b, b.len() as int) + reply_opening(think)),
{
    let all = a + seq![m] + b;
    lemma_turns_around(think, a, m, b, b.len() as int);
    if a.len() > 0 {
        assert(all[0] == a[0]);
    } else {
        assert(all[0] == m);
    }
    assert(system_of(all) == system_of(a));
    assert(prompt_of(think, all, tools) =~= (preamble(system_of(a), tools) + turns(
        think,
        a,
        a.len() as int,
    )) + msg_text(think, m) + (turns(think, b, b.len() as int) + reply_opening(think)));
}

/// Calls are shown in one of two ways, which differ in a blank line in front.
proof fn lemma_calls_lead(calls: Seq<Call>, k: int)
    requires
        1 <= k <= calls.len(),
    ensures
        calls_text(calls, false, k) == seq!['\n', '\n'] + calls_text(calls, true, k),
    decreases k,
{
    let (x, y) = (calls_text(calls, true, k - 1), calls_text(calls, false, k - 1));
    let body = call_text(calls[k - 1]);
    let two = seq!['\n', '\n'];
    if k == 1 {
        reveal_strlit("<tool_call>\n");
        reveal_strlit("\n\n<tool_call>\n");
        let none = Seq::<char>::empty();
        assert(x == none && y == none);
        assert("\n\n<tool_call>\n"@ =~= two + "<tool_call>\n"@);
        assert(none + (two + "<tool_call>\n"@) + body =~= two + (none + "<tool_call>\n"@ + body));
    } else {
        lemma_calls_lead(calls, k - 1);
        let lead = "\n<tool_call>\n"@;
        assert((two + x) + lead + body =~= two + (x + lead + body));
    }
}

/// Answers with the same calls behind them can be told apart.
proof fn lemma_answers_apart(c: Seq<char>, d: Seq<char>, calls: Seq<Call>)
    requires
        c + calls_text(calls, text::trimmed(c).len() == 0, calls.len() as int) == d + calls_text(
            calls,
            text::trimmed(d).len() == 0,
            calls.len() as int,
        ),
    ensures
        c == d,
{
    let n = calls.len() as int;
    let (x, y) = (text::trimmed(c).len() == 0, text::trimmed(d).len() == 0);
    let (s, t) = (calls_text(calls, x, n), calls_text(calls, y, n));
    let two = seq!['\n', '\n'];
    text::law_trimmed(c);
    text::law_trimmed(d);
    if n == 0 || x == y {
        assert(s == t);
        assert((c + s).take(c.len() as int) =~= c);
        assert((d + t).take(d.len() as int) =~= d);
    } else {
        lemma_calls_lead(calls, n);
        let u = calls_text(calls, true, n);
        if x {
            // A blank answer that goes on with a blank line is one with that line.
            assert(d + (two + u) =~= (d + two) + u);
            assert((c + u).take(c.len() as int) =~= c);
            assert(((d + two) + u).take(c.len() as int) =~= d + two);
            assert forall|i: int| 0 <= i < d.len() implies text::char_is_whitespace(
                #[trigger] d[i],
            ) by {
                assert(c[i] == d[i]);
            }
        } else {
            assert(c + (two + u) =~= (c + two) + u);
            assert((d + u).take(d.len() as int) =~= d);
            assert(((c + two) + u).take(d.len() as int) =~= c + two);
            assert forall|i: int| 0 <= i < c.len() implies text::char_is_whitespace(
                #[trigger] c[i],
            ) by {
                assert(d[i] == c[i]);
            }
        }
    }
}

proof fn lemma_same_middle(h: Seq<char>, x: Seq<char>, y: Seq<char>, t: Seq<char>)
    requires
        h + x + t == h + y + t,
    ensures
        x == y,
{
    let (p, q) = (h + x + t, h + y + t);
    assert(p.len() == q.len());
    let n = h.len() as int;
    assert(p.subrange(n, n + x.len()) =~= x);
    assert(q.subrange(n, n + y.len()) =~= y);
}

/// What an assistant answered makes a difference: two conversations that differ in one answer have
/// different prompts. The reasoning before it is the same, or not shown.
pub proof fn law_answers_make_a_difference(
    think: bool,
    a: Seq<MsgV>,
    m: MsgV,
    w: MsgV,
    b: Seq<MsgV>,
    tools: Seq<Seq<char>>,
)
    requires
        m.role == "assistant"@,
        w.role == "assistant"@,
        m.tool_calls == w.tool_calls,
        reasoning::split_of(m.content).1 != reasoning::split_of(w.content).1,
        think ==> reasoning::split_of(m.content).0 == reasoning::split_of(w.content).0,
    ensures
        prompt_of(think, a + seq![m] + b, tools) != prompt_of(think, a + seq![w] + b, tools),
{
    reveal_strlit("system");
    reveal_strlit("user");
    reveal_strlit("assistant");
    assert("system"@.len() == 6 && "user"@.len() == 4 && "assistant"@.len() == 9);
    lemma_prompt_around(think, a, m, b, tools);
    lemma_prompt_around(think, a, w, b, tools);
    let head = preamble(system_of(a), tools) + turns(think, a, a.len() as int);
    let tail = turns(think, b, b.len() as int) + reply_opening(think);
    let (x, y) = (msg_text(think, m), msg_text(think, w));
    if head + x + tail == head + y + tail {
        lemma_same_middle(head, x, y, tail);
        lemma_assistant_answers(think, m, w);
    }
}

proof fn lemma_assistant_answers(think: bool, m: MsgV, w: MsgV)
    requires
        m.tool_calls == w.tool_calls,
        think ==> reasoning::split_of(m.content).0 == reasoning::split_of(w.content).0,
        assistant_text(think, m) == assistant_text(think, w),
    ensures
        reasoning::split_of(m.content).1 == reasoning::split_of(w.content).1,
{
    let (r, c) = reasoning::split_of(m.content);
    let d = reasoning::split_of(w.content).1;
    let n = m.tool_calls.len() as int;
    let front = "<|im_start|>assistant\n"@ + (if think && r.len() > 0 {
        "<think>\n"@ + r + "\n</think>\n\n"@
    } else {
        Seq::empty()
    });
    let last = "<|im_end|>\n"@;
    let s = c + calls_text(m.tool_calls, text::trimmed(c).len() == 0, n);
    let t = d + calls_text(m.tool_calls, text::trimmed(d).len() == 0, n);
    assert(assistant_text(think, m) =~= front + s + last);
    assert(assistant_text(think, w) =~= front + t + last);
    lemma_same_middle(front, s, t, last);
    lemma_answers_apart(c, d, m.tool_calls);
}

/// What a user or a tool said makes a difference, apart from white space around it: two
/// conversations that differ in it have different prompts.
pub proof fn law_words_make_a_difference(
    think: bool,
    a: Seq<MsgV>,
    m: MsgV,
    w: MsgV,
    b: Seq<MsgV>,
    tools: Seq<Seq<char>>,
    s: Seq<char>,
    t: Seq<char>,
)
    requires
        m.role == "user"@ || m.role == "tool"@,
        w.role == m.role,
        text::trims(m.content, s),
        text::trims(w.content, t),
        s != t,
    ensures
        prompt_of(think, a + seq![m] + b, tools) != prompt_of(think, a + seq![w] + b, tools),
{
    reveal_strlit("system");
    reveal_strlit("user");
    reveal_strlit("tool");
    assert("system"@.len() == 6 && "user"@.len() == 4 && "tool"@.len() == 4);
    text::law_trimmed(m.content);
    text::law_trimmed(w.content);
    text::law_trims_unique(m.content, s, text::trimmed(m.content));
    text::law_trims_unique(w.content, t, text::trimmed(w.content));
    lemma_prompt_around(think, a, m, b, tools);
    lemma_prompt_around(think, a, w, b, tools);
    let head = preamble(system_of(a), tools) + turns(think, a, a.len() as int);
    let tail = turns(think, b, b.len() as int) + reply_opening(think);
    let (x, y) = (msg_text(think, m), msg_text(think, w));
    if head + x + tail == head + y + tail {
        lemma_same_middle(head, x, y, tail);
        if m.role == "user"@ {
            lemma_same_middle("<|im_start|>user\n"@, s, t, "<|im_end|>\n"@);
        } else {
            reveal_strlit("assistant");
            assert("user"@[0] != "tool"@[0] && "assistant"@.len() == 9);
            lemma_same_middle(
                "<|im_start|>user\n<tool_response>\n"@,
                s,
                t,
                "\n</tool_response><|im_end|>\n"@,
            );
        }
    }
}

} // verus!
