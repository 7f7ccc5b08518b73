//! Replies: what is sent to the client, in one body or frame by frame.

use vstd::prelude::*;
use vstd::string::*;
use vstd::utf8::*;

use crate::engine;
use crate::engine::Finish;
use crate::find;
use crate::json;
use crate::reasoning;
use crate::reasoning::{Phase, SplitV, ThinkSplitter};
use crate::text;
use crate::tools;
use crate::tools::{Call, ToolFilter};
use crate::utf8;
use crate::utf8::Utf8Buffer;

verus! {

/// What every part of a reply repeats.
#[derive(Debug)]
pub struct Reply {
    pub id: String,
    pub created: u64,
    pub model: String,
    /// A chat, and not a plain completion.
    pub chat: bool,
}

pub struct ReplyV {
    pub id: Seq<char>,
    pub created: nat,
    pub model: Seq<char>,
    pub chat: bool,
}

impl Reply {
    pub open spec fn view(&self) -> ReplyV {
        ReplyV {
            id: self.id@,
            created: self.created as nat,
            model: self.model@,
            chat: self.chat,
        }
    }

    /// A reply whose id is made of a time stamp.
    pub fn new(stamp: u64, created: u64, model: String, chat: bool) -> (r: Reply)
        ensures
            r@ == (ReplyV {
                id: "chatcmpl-"@ + text::decimal(stamp as nat),
                created: created as nat,
                model: model@,
                chat,
            }),
    {
        let mut id: String = "chatcmpl-".to_owned();
        text::push_decimal(&mut id, stamp);
        Reply { id, created, model, chat }
    }
}

// ---- bodies and frames ----------------------------------------------------------------------

/// The start of each object up to its only choice.
pub open spec fn head(r: ReplyV, object: Seq<char>) -> Seq<char> {
    "{\"id\":\""@ + r.id + "\",\"object\":\""@ + object + "\",\"created\":"@ + text::decimal(
        r.created,
    ) + ",\"model\":\""@ + json::escaped(r.model) + "\",\"choices\":[{\"index\":0,"@
}

/// A frame that carries a part of a chat.
pub open spec fn delta_frame(r: ReplyV, delta: Seq<char>) -> Seq<char> {
    head(r, "chat.completion.chunk"@) + "\"delta\":{"@ + delta + "},\"finish_reason\":null}]}"@
}

/// A frame that carries reasoning.
pub open spec fn reasoning_frame(r: ReplyV, t: Seq<char>) -> Seq<char> {
    delta_frame(r, "\"reasoning_content\":\""@ + json::escaped(t) + "\""@)
}

/// A frame that carries content.
pub open spec fn content_frame(r: ReplyV, t: Seq<char>) -> Seq<char> {
    if r.chat {
        delta_frame(r, "\"content\":\""@ + json::escaped(t) + "\""@)
    } else {
        head(r, "text_completion"@) + "\"text\":\""@ + json::escaped(t)
            + "\",\"finish_reason\":null}]}"@
    }
}

/// A call; in a stream it carries its index.
pub open spec fn call_json(c: Call, i: nat, indexed: bool) -> Seq<char> {
    (if indexed {
        "{\"index\":"@ + text::decimal(i) + ","@
    } else {
        "{"@
    }) + "\"id\":\"call_"@ + text::decimal(i)
        + "\",\"type\":\"function\",\"function\":{\"name\":\""@ + json::escaped(c.0)
        + "\",\"arguments\":\""@ + json::escaped(c.1) + "\"}}"@
}

/// The first `k` calls, separated by commas.
pub open spec fn calls_json(calls: Seq<Call>, indexed: bool, k: int) -> Seq<char>
    decreases k,
{
    if k <= 0 {
        Seq::empty()
    } else {
        calls_json(calls, indexed, k - 1) + (if k > 1 {
            ","@
        } else {
            Seq::empty()
        }) + call_json(calls[k - 1], (k - 1) as nat, indexed)
    }
}

/// A frame that carries the calls.
pub open spec fn calls_frame(r: ReplyV, calls: Seq<Call>) -> Seq<char> {
    delta_frame(r, "\"tool_calls\":["@ + calls_json(calls, true, calls.len() as int) + "]"@)
}

/// How many tokens were used, and the end of the object.
pub open spec fn usage(pt: nat, ct: nat) -> Seq<char> {
    "\"usage\":{\"prompt_tokens\":"@ + text::decimal(pt) + ",\"completion_tokens\":"@
        + text::decimal(ct) + ",\"total_tokens\":"@ + text::decimal(pt + ct) + "}}"@
}

/// The frame that ends a stream.
pub open spec fn last_frame(r: ReplyV, finish: Seq<char>, pt: nat, ct: nat) -> Seq<char> {
    if r.chat {
        head(r, "chat.completion.chunk"@) + "\"delta\":{},\"finish_reason\":\""@ + finish
            + "\"}],"@ + usage(pt, ct)
    } else {
        head(r, "text_completion"@) + "\"text\":\"\",\"finish_reason\":\""@ + finish + "\"}]}"@
    }
}

/// How a generation ended: the tokens of the prompt and of the reply, and why, or the error.
pub type Outcome = Result<(usize, usize, Finish), String>;

pub type OutcomeV = Result<(nat, nat, Finish), Seq<char>>;

pub open spec fn outcome_view(o: Outcome) -> OutcomeV {
    match o {
        Ok(x) => Ok((x.0 as nat, x.1 as nat, x.2)),
        Err(e) => Err(e@),
    }
}

/// The tokens can be counted together.
pub open spec fn countable(o: Outcome) -> bool {
    o matches Ok(x) ==> x.0 + x.1 <= u64::MAX
}

/// Why a reply ended, as clients are told: calls come first.
pub open spec fn finish_word(calls: Seq<Call>, word: Seq<char>) -> Seq<char> {
    if calls.len() > 0 {
        "tool_calls"@
    } else {
        word
    }
}

// ---- writing --------------------------------------------------------------------------------

fn push_head(out: &mut String, r: &Reply, object: &str)
    ensures
        final(out)@ == old(out)@ + head(r@, object@),
{
    out.append("{\"id\":\"");
    out.append(r.id.as_str());
    out.append("\",\"object\":\"");
    out.append(object);
    out.append("\",\"created\":");
    text::push_decimal(out, r.created);
    out.append(",\"model\":\"");
    let m: String = json::escape(r.model.as_str());
    out.append(m.as_str());
    out.append("\",\"choices\":[{\"index\":0,");
    assert(out@ =~= old(out)@ + head(r@, object@));
}

fn make_delta(r: &Reply, delta: &str) -> (f: String)
    ensures
        f@ == delta_frame(r@, delta@),
{
    let mut out: String = String::new();
    push_head(&mut out, r, "chat.completion.chunk");
    out.append("\"delta\":{");
    out.append(delta);
    out.append("},\"finish_reason\":null}]}");
    assert(out@ =~= delta_frame(r@, delta@));
    out
}

/// A member whose value is a text.
fn text_member(name: &str, value: &str) -> (f: String)
    ensures
        f@ == name@ + json::escaped(value@) + "\""@,
{
    let mut out: String = name.to_owned();
    let e: String = json::escape(value);
    out.append(e.as_str());
    out.append("\"");
    out
}

fn make_reasoning(r: &Reply, t: &str) -> (f: String)
    ensures
        f@ == reasoning_frame(r@, t@),
{
    let d: String = text_member("\"reasoning_content\":\"", t);
    make_delta(r, d.as_str())
}

fn make_content(r: &Reply, t: &str) -> (f: String)
    ensures
        f@ == content_frame(r@, t@),
{
    if r.chat {
        let d: String = text_member("\"content\":\"", t);
        make_delta(r, d.as_str())
    } else {
        let mut out: String = String::new();
        push_head(&mut out, r, "text_completion");
        out.append("\"text\":\"");
        let e: String = json::escape(t);
        out.append(e.as_str());
        out.append("\",\"finish_reason\":null}]}");
        assert(out@ =~= content_frame(r@, t@));
        out
    }
}

fn push_call(out: &mut String, c: &(String, String), i: usize, indexed: bool)
    ensures
        final(out)@ == old(out)@ + call_json(tools::call_view(*c), i as nat, indexed),
{
    if indexed {
        out.append("{\"index\":");
        text::push_decimal(out, i as u64);
        out.append(",");
    } else {
        out.append("{");
    }
    out.append("\"id\":\"call_");
    text::push_decimal(out, i as u64);
    out.append("\",\"type\":\"function\",\"function\":{\"name\":\"");
    let n: String = json::escape(c.0.as_str());
    out.append(n.as_str());
    out.append("\",\"arguments\":\"");
    let a: String = json::escape(c.1.as_str());
    out.append(a.as_str());
    out.append("\"}}");
    assert(out@ =~= old(out)@ + call_json(tools::call_view(*c), i as nat, indexed));
}

fn push_calls(out: &mut String, calls: &Vec<(String, String)>, indexed: bool)
    ensures
        final(out)@ == old(out)@ + calls_json(
            tools::calls_view(calls@),
            indexed,
            calls@.len() as int,
        ),
{
    let ghost all = tools::calls_view(calls@);
    let n: usize = calls.len();
    let mut i: usize = 0;
    assert(out@ =~= old(out)@ + calls_json(all, indexed, 0));
    while i < n
        invariant
            i <= n,
            n == calls@.len(),
            all == tools::calls_view(calls@),
            out@ == old(out)@ + calls_json(all, indexed, i as int),
        decreases n - i,
    {
        if i > 0 {
            out.append(",");
        }
        push_call(out, &calls[i], i, indexed);
        i += 1;
        assert(all[i - 1] == tools::call_view(calls@[i - 1]));
        assert(out@ =~= old(out)@ + calls_json(all, indexed, i as int));
    }
}

fn make_calls(r: &Reply, calls: &Vec<(String, String)>) -> (f: String)
    ensures
        f@ == calls_frame(r@, tools::calls_view(calls@)),
{
    let mut d: String = "\"tool_calls\":[".to_owned();
    push_calls(&mut d, calls, true);
    d.append("]");
    make_delta(r, d.as_str())
}

fn push_usage(out: &mut String, pt: usize, ct: usize)
    requires
        pt + ct <= u64::MAX,
    ensures
        final(out)@ == old(out)@ + usage(pt as nat, ct as nat),
{
    out.append("\"usage\":{\"prompt_tokens\":");
    text::push_decimal(out, pt as u64);
    out.append(",\"completion_tokens\":");
    text::push_decimal(out, ct as u64);
    out.append(",\"total_tokens\":");
    text::push_decimal(out, pt as u64 + ct as u64);
    out.append("}}");
    assert(out@ =~= old(out)@ + usage(pt as nat, ct as nat));
}

fn make_last(r: &Reply, finish: &str, pt: usize, ct: usize) -> (f: String)
    requires
        pt + ct <= u64::MAX,
    ensures
        f@ == last_frame(r@, finish@, pt as nat, ct as nat),
{
    let mut out: String = String::new();
    if r.chat {
        push_head(&mut out, r, "chat.completion.chunk");
        out.append("\"delta\":{},\"finish_reason\":\"");
        out.append(finish);
        out.append("\"}],");
        push_usage(&mut out, pt, ct);
    } else {
        push_head(&mut out, r, "text_completion");
        out.append("\"text\":\"\",\"finish_reason\":\"");
        out.append(finish);
        out.append("\"}]}");
    }
    assert(out@ =~= last_frame(r@, finish@, pt as nat, ct as nat));
    out
}

// ---- streaming ------------------------------------------------------------------------------

/// Where a streamed reply stands.
pub struct StreamV {
    /// Bytes that wait for the rest of their character.
    pub bytes: Seq<u8>,
    pub split: SplitV,
    /// Text that the tool filter holds back.
    pub held: Seq<char>,
    pub calls: Seq<Call>,
}

/// A frame, if there is something to carry.
pub open spec fn frame_if(some: bool, f: Seq<char>) -> Seq<Seq<char>> {
    if some {
        seq![f]
    } else {
        Seq::empty()
    }
}

/// What text does to a stream: its reasoning and its content leave in a frame each.
pub open spec fn text_step(r: ReplyV, st: StreamV, t: Seq<char>) -> (StreamV, Seq<Seq<char>>) {
    let (split, reason, content) = reasoning::feed_step(st.split, t);
    let passed = tools::filter_step(st.held + content);
    (
        StreamV {
            bytes: st.bytes,
            split,
            held: passed.buf,
            calls: st.calls + passed.calls,
        },
        frame_if(r.chat && reason.len() > 0, reasoning_frame(r, reason)) + frame_if(
            passed.out.len() > 0,
            content_frame(r, passed.out),
        ),
    )
}

/// What a token's bytes do to a stream: the characters that are complete are its text.
pub open spec fn piece_step(r: ReplyV, st: StreamV, piece: Seq<u8>) -> (StreamV, Seq<Seq<char>>) {
    let all = st.bytes + piece;
    let n = utf8::valid_len_of(all);
    let next = StreamV { bytes: all.skip(n), ..st };
    if n == 0 {
        (next, Seq::empty())
    } else {
        text_step(r, next, decode_utf8(all.take(n)))
    }
}

/// What the splitter and the filter still show, apart from reasoning.
pub open spec fn tail_of(st: StreamV) -> Seq<char> {
    (if !st.split.keep && st.split.phase == Phase::Reasoning {
        Seq::empty()
    } else {
        st.split.buf
    }) + tools::shown(st.held)
}

/// The reasoning that the splitter still holds.
pub open spec fn rest_of(st: StreamV) -> Seq<char> {
    if !st.split.keep && st.split.phase == Phase::Reasoning {
        st.split.buf
    } else {
        Seq::empty()
    }
}

/// The frames that end a stream.
pub open spec fn end_frames(r: ReplyV, st: StreamV, o: OutcomeV) -> Seq<Seq<char>> {
    let (pt, ct, word) = match o {
        Ok(x) => (x.0, x.1, engine::finish_text(x.2)),
        Err(_) => (0, 0, "error"@),
    };
    frame_if(r.chat && rest_of(st).len() > 0, reasoning_frame(r, rest_of(st))) + frame_if(
        tail_of(st).len() > 0,
        content_frame(r, tail_of(st)),
    ) + frame_if(st.calls.len() > 0 && r.chat, calls_frame(r, st.calls)) + seq![last_frame(r, finish_word(st.calls, word), pt, ct), "[DONE]"@]
}

pub open spec fn frames_view(s: Seq<String>) -> Seq<Seq<char>> {
    Seq::new(s.len(), |i: int| s[i]@)
}

/// The start of a splitter, with reasoning apart or not; `opened` says that the prompt has opened
/// the reasoning, so that the reply begins inside of it.
pub open spec fn split_start(split_reasoning: bool, opened: bool) -> SplitV {
    if split_reasoning {
        reasoning::start(opened)
    } else {
        SplitV { buf: Seq::empty(), phase: Phase::Content, keep: true }
    }
}

/// The start of a stream, with reasoning apart or not.
pub open spec fn stream_start(split_reasoning: bool, opened: bool) -> StreamV {
    StreamV {
        bytes: Seq::empty(),
        split: split_start(split_reasoning, opened),
        held: Seq::empty(),
        calls: Seq::empty(),
    }
}

fn splitter(split_reasoning: bool, opened: bool) -> (r: ThinkSplitter)
    ensures
        r@ == split_start(split_reasoning, opened),
{
    if split_reasoning && opened {
        ThinkSplitter::inside()
    } else {
        ThinkSplitter::new(!split_reasoning)
    }
}

/// A reply that is sent frame by frame.
#[derive(Debug)]
pub struct Stream {
    pub bytes: Utf8Buffer,
    pub split: ThinkSplitter,
    pub tools: ToolFilter,
}

fn is_empty(s: &str) -> (r: bool)
    ensures
        r == (s@.len() == 0),
{
    text::chars_of(s).len() == 0
}

fn push_frame(frames: &mut Vec<String>, f: String)
    ensures
        frames_view(final(frames)@) == frames_view(old(frames)@) + frame_if(true, f@),
{
    frames.push(f);
    assert(frames_view(frames@) =~= frames_view(old(frames)@) + seq![f@]);
}

impl Stream {
    pub open spec fn view(&self) -> StreamV {
        StreamV {
            bytes: self.bytes.buf@,
            split: self.split@,
            held: self.tools.buf@,
            calls: tools::calls_view(self.tools.calls@),
        }
    }

    /// The start of a stream, with reasoning apart or not, and opened by the prompt or not.
    pub fn new(split_reasoning: bool, opened: bool) -> (s: Stream)
        ensures
            s@ == stream_start(split_reasoning, opened),
    {
        let s = Stream {
            bytes: Utf8Buffer::new(),
            split: splitter(split_reasoning, opened),
            tools: ToolFilter::new(),
        };
        assert(s.bytes.buf@ =~= Seq::<u8>::empty());
        assert(s.tools.buf@ =~= Seq::<char>::empty());
        assert(tools::calls_view(s.tools.calls@) =~= Seq::<Call>::empty());
        s
    }

    fn feed(&mut self, r: &Reply, t: &str) -> (frames: Vec<String>)
        ensures
            (final(self)@, frames_view(frames@)) == text_step(r@, old(self)@, t@),
    {
        let mut frames: Vec<String> = Vec::new();
        let (reason, content) = self.split.feed(t);
        let passed: String = self.tools.feed(content.as_str());
        assert(frames_view(frames@) =~= Seq::<Seq<char>>::empty());
        let a: bool = r.chat && !is_empty(reason.as_str());
        if a {
            push_frame(&mut frames, make_reasoning(r, reason.as_str()));
        }
        assert(frames_view(frames@) =~= frame_if(a, reasoning_frame(r@, reason@)));
        let b: bool = !is_empty(passed.as_str());
        if b {
            push_frame(&mut frames, make_content(r, passed.as_str()));
        }
        assert(frames_view(frames@) =~= frame_if(a, reasoning_frame(r@, reason@)) + frame_if(
            b,
            content_frame(r@, passed@),
        ));
        frames
    }

    /// Takes the bytes of a token; returns the frames to send.
    pub fn on_piece(&mut self, r: &Reply, piece: &Vec<u8>) -> (frames: Vec<String>)
        ensures
            (final(self)@, frames_view(frames@)) == piece_step(r@, old(self)@, piece@),
    {
        let ghost all = self.bytes.buf@ + piece@;
        let ghost n = utf8::valid_len_of(all);
        let t: String = self.bytes.push(piece);
        proof {
            if n == 0 {
                assert(all.take(0) =~= Seq::<u8>::empty());
            } else {
                utf8::lemma_text_nonempty(all.take(n));
            }
        }
        if is_empty(t.as_str()) {
            let frames: Vec<String> = Vec::new();
            assert(frames_view(frames@) =~= Seq::<Seq<char>>::empty());
            return frames;
        }
        self.feed(r, t.as_str())
    }

    /// Ends a stream; returns the frames to send.
    pub fn finish(&mut self, r: &Reply, o: &Outcome) -> (frames: Vec<String>)
        requires
            countable(*o),
        ensures
            frames_view(frames@) == end_frames(r@, old(self)@, outcome_view(*o)),
    {
        let ghost st = self@;
        let mut frames: Vec<String> = Vec::new();
        assert(frames_view(frames@) =~= Seq::<Seq<char>>::empty());
        let (rest, content): (String, String) = self.split.flush();
        let mut tail: String = content;
        let held: String = self.tools.flush();
        tail.append(held.as_str());
        assert(rest@ =~= rest_of(st));
        assert(tail@ =~= tail_of(st));
        let z: bool = r.chat && !is_empty(rest.as_str());
        if z {
            push_frame(&mut frames, make_reasoning(r, rest.as_str()));
        }
        let ghost zero = frame_if(z, reasoning_frame(r@, rest@));
        assert(frames_view(frames@) =~= zero);
        let a: bool = !is_empty(tail.as_str());
        if a {
            push_frame(&mut frames, make_content(r, tail.as_str()));
        }
        let ghost one = zero + frame_if(a, content_frame(r@, tail@));
        assert(frames_view(frames@) =~= one);
        let any: bool = self.tools.calls.len() > 0;
        if any && r.chat {
            push_frame(&mut frames, make_calls(r, &self.tools.calls));
        }
        let ghost two = frame_if(any && r.chat, calls_frame(r@, st.calls));
        assert(frames_view(frames@) =~= one + two);
        let (pt, ct, word): (usize, usize, &str) = match o {
            Ok(x) => (x.0, x.1, x.2.name()),
            Err(_) => (0, 0, "error"),
        };
        let word: &str = if any {
            "tool_calls"
        } else {
            word
        };
        let ghost three = last_frame(r@, word@, pt as nat, ct as nat);
        push_frame(&mut frames, make_last(r, word, pt, ct));
        push_frame(&mut frames, "[DONE]".to_owned());
        assert(frames_view(frames@) =~= one + two + seq![three, "[DONE]"@]);
        frames
    }
}

/// The reasoning and the content that a token's bytes let pass, which [`piece_step`] puts in
/// frames.
pub open spec fn piece_parts(st: StreamV, piece: Seq<u8>) -> (Seq<char>, Seq<char>) {
    let all = st.bytes + piece;
    let n = utf8::valid_len_of(all);
    if n == 0 {
        (Seq::empty(), Seq::empty())
    } else {
        let (_, reason, content) = reasoning::feed_step(st.split, decode_utf8(all.take(n)));
        (reason, tools::filter_step(st.held + content).out)
    }
}

/// The state after pieces, and the reasoning and the content that they let pass.
pub open spec fn stream_run(r: ReplyV, st: StreamV, pieces: Seq<Seq<u8>>) -> (
    StreamV,
    Seq<char>,
    Seq<char>,
)
    decreases pieces.len(),
{
    if pieces.len() == 0 {
        (st, Seq::empty(), Seq::empty())
    } else {
        let (before, reasoned, sent) = stream_run(r, st, pieces.drop_last());
        let (reason, content) = piece_parts(before, pieces.last());
        (piece_step(r, before, pieces.last()).0, reasoned + reason, sent + content)
    }
}

/// The bytes of pieces, one behind the other.
pub open spec fn joined(pieces: Seq<Seq<u8>>) -> Seq<u8>
    decreases pieces.len(),
{
    if pieces.len() == 0 {
        Seq::empty()
    } else {
        joined(pieces.drop_last()) + pieces.last()
    }
}

/// The characters that bytes begin with.
pub open spec fn text_in(b: Seq<u8>) -> Seq<char> {
    decode_utf8(b.take(utf8::valid_len_of(b)))
}

/// No cut between pieces parts a newline from the tag of the reasoning that it follows.
pub open spec fn clean_pieces(opened: bool, pieces: Seq<Seq<u8>>) -> bool
    decreases pieces.len(),
{
    pieces.len() > 0 ==> {
        let before = text_in(joined(pieces.drop_last()));
        &&& clean_pieces(opened, pieces.drop_last())
        &&& reasoning::clean_cut(
            opened,
            before,
            text_in(joined(pieces)).skip(before.len() as int),
        )
    }
}

/// One piece more is as one along with those before.
proof fn lemma_split_more(split_reasoning: bool, opened: bool, a: Seq<char>, b: Seq<char>)
    requires
        split_reasoning ==> reasoning::clean_cut(opened, a, b),
    ensures
        ({
            let st = split_start(split_reasoning, opened);
            let first = reasoning::feed_step(st, a);
            reasoning::then_step(first, reasoning::feed_step(first.0, b)) == reasoning::feed_step(
                st,
                a + b,
            )
        }),
{
    if split_reasoning {
        reasoning::lemma_one_more(opened, a, b);
    } else {
        assert(Seq::<char>::empty() + Seq::<char>::empty() =~= Seq::<char>::empty());
    }
}

#[verifier::spinoff_prover]
#[verifier::rlimit(60)]
proof fn lemma_stream_run(r: ReplyV, split_reasoning: bool, opened: bool, pieces: Seq<Seq<u8>>)
    requires
        split_reasoning ==> clean_pieces(opened, pieces),
    ensures
        ({
            let (st, reasoned, sent) = stream_run(r, stream_start(split_reasoning, opened), pieces);
            let all = joined(pieces);
            let n = utf8::valid_len_of(all);
            let (split, reason, content) = reasoning::feed_step(
                split_start(split_reasoning, opened),
                decode_utf8(all.take(n)),
            );
            let step = tools::filter_step(content);
            &&& utf8::is_valid_len(all, n)
            &&& st.bytes == all.skip(n)
            &&& st.split == split
            &&& st.held == step.buf
            &&& st.calls == step.calls
            &&& reasoned == reason
            &&& sent == step.out
        }),
    decreases pieces.len(),
{
    let all = joined(pieces);
    let none = Seq::<char>::empty();
    utf8::lemma_has_valid_len(all);
    if pieces.len() == 0 {
        assert(all.take(0) =~= Seq::<u8>::empty());
        assert(all.skip(0) =~= Seq::<u8>::empty());
        assert(decode_utf8(all.take(0)) =~= none);
        reveal_strlit("<tool_call>");
        reasoning::lemma_no_text(opened);
        assert(none + none =~= none);
        find::lemma_find_from(none, "<tool_call>"@, 0);
        find::lemma_cut_bounds(none, 10);
        assert(tools::filter_step(none).buf =~= none);
        assert(tools::filter_step(none).out =~= none);
    } else {
        let head = pieces.drop_last();
        let piece = pieces.last();
        let a = joined(head);
        let n = utf8::valid_len_of(a);
        utf8::lemma_has_valid_len(a);
        let ta = decode_utf8(a.take(n));
        let rest = a.skip(n) + piece;
        let m = utf8::valid_len_of(rest);
        utf8::lemma_has_valid_len(rest);
        utf8::law_pieces_do_not_matter(a, piece);
        let tb = decode_utf8(rest.take(m));
        assert((ta + tb).skip(ta.len() as int) =~= tb);
        lemma_split_more(split_reasoning, opened, ta, tb);
        lemma_stream_run(r, split_reasoning, opened, head);
        let first = reasoning::feed_step(split_start(split_reasoning, opened), ta);
        let second = reasoning::feed_step(first.0, tb);
        let shown = tools::filter_step(first.2);
        if m == 0 {
            assert(rest.take(0) =~= Seq::<u8>::empty());
            assert(tb =~= none);
            assert(ta + tb =~= ta);
            assert(first.1 + none =~= first.1);
            assert(shown.out + none =~= shown.out);
        } else {
            tools::law_pieces_do_not_matter(first.2, second.2);
        }
    }
}

/// Text that may still become the opening tag of the reasoning holds no call.
proof fn lemma_undecided(t: Seq<char>)
    requires
        text::trimmed_start(t).len() < 7,
        text::starts_with("<think>"@, text::trimmed_start(t)),
    ensures
        find::find(t, "<tool_call>"@) is None,
{
    reveal_strlit("<tool_call>");
    let tag = "<tool_call>"@;
    reasoning::lemma_trimmed_start(t);
    let n = t.len() - text::trimmed_start(t).len();
    assert forall|k: int| 0 <= k implies !#[trigger] find::stands(t, tag, k) by {
        if find::stands(t, tag, k) {
            assert(t.subrange(k, k + 11)[0] == t[k]);
            assert(t[k] == '<');
            assert(k >= n);
        }
    }
    find::lemma_not_found(t, tag, 0);
}

/// A stream sends what the whole reply holds, with reasoning apart or not, however its bytes are
/// cut: the same reasoning, the same calls, and the same text, once what is held back at the end
/// is sent. Where reasoning is set apart, no cut may part a newline from the tag that it follows:
/// such a newline is dropped only if it arrives with the tag.
pub proof fn law_stream_sends_the_reply(
    r: ReplyV,
    split_reasoning: bool,
    opened: bool,
    pieces: Seq<Seq<u8>>,
)
    requires
        valid_utf8(joined(pieces)),
        split_reasoning ==> clean_pieces(opened, pieces),
    ensures
        ({
            let (st, reasoned, sent) = stream_run(r, stream_start(split_reasoning, opened), pieces);
            let (reason, rest) = whole_parts(
                decode_utf8(joined(pieces)),
                split_reasoning,
                opened,
            );
            let (content, calls) = tools::calls_of(rest);
            &&& st.bytes.len() == 0
            &&& reasoned + rest_of(st) == reason
            &&& sent + tail_of(st) == content
            &&& st.calls == calls
        }),
{
    let all = joined(pieces);
    let n = utf8::valid_len_of(all);
    let none = Seq::<char>::empty();
    utf8::lemma_has_valid_len(all);
    assert(all.take(all.len() as int) =~= all);
    assert(n == all.len());
    lemma_stream_run(r, split_reasoning, opened, pieces);
    let t = decode_utf8(all);
    let (split, reason, content) = reasoning::feed_step(split_start(split_reasoning, opened), t);
    let (st, reasoned, sent) = stream_run(r, stream_start(split_reasoning, opened), pieces);
    assert(none + t =~= t);
    tools::law_stream_agrees(content);
    if !split.keep && split.phase == Phase::Reasoning {
        assert(tail_of(st) =~= tools::shown(st.held));
    } else if split.phase == Phase::Undecided {
        lemma_undecided(t);
        reveal_strlit("<tool_call>");
        find::lemma_find_from(none, "<tool_call>"@, 0);
        find::lemma_cut_bounds(none, 10);
        assert(sent =~= none);
        assert(st.held =~= none);
        assert(tail_of(st) =~= t);
        assert(sent + t =~= t);
        assert(content + split.buf =~= t);
        assert(reasoned + none =~= reason);
    } else {
        assert(content + split.buf =~= content);
        assert(tail_of(st) =~= tools::shown(st.held));
        assert(reasoned + none =~= reason);
    }
}

/// Whether a piece counts as sent, from what became of its frames: as the last one, if any.
pub fn delivered(sent: &Vec<bool>) -> (r: bool)
    ensures
        r == (sent@.len() == 0 || sent@.last()),
{
    let n: usize = sent.len();
    n == 0 || sent[n - 1]
}

// ---- one body -------------------------------------------------------------------------------

/// The reasoning and the rest of a whole reply, as they are.
pub open spec fn whole_parts(raw: Seq<char>, split_reasoning: bool, opened: bool) -> (
    Seq<char>,
    Seq<char>,
) {
    let (st, reason, content) = reasoning::feed_step(split_start(split_reasoning, opened), raw);
    if !st.keep && st.phase == Phase::Reasoning {
        (reason + st.buf, content)
    } else {
        (reason, content + st.buf)
    }
}

/// The reasoning, without white space around it, and the rest of a whole reply.
pub open spec fn whole_split(raw: Seq<char>, split_reasoning: bool, opened: bool) -> (
    Seq<char>,
    Seq<char>,
) {
    let (reason, rest) = whole_parts(raw, split_reasoning, opened);
    (text::trimmed(reason), rest)
}

/// The reasoning member of a message, if there is reasoning.
pub open spec fn reasoning_member(t: Seq<char>) -> Seq<char> {
    if t.len() > 0 {
        "\"reasoning_content\":\""@ + json::escaped(t) + "\","@
    } else {
        Seq::empty()
    }
}

/// The calls member of a message, if there are calls.
pub open spec fn calls_member(calls: Seq<Call>) -> Seq<char> {
    if calls.len() > 0 {
        ",\"tool_calls\":["@ + calls_json(calls, false, calls.len() as int) + "]"@
    } else {
        Seq::empty()
    }
}

/// The body of a reply whose text is `raw`; `opened` says that the prompt has opened its reasoning.
pub open spec fn body_of(
    r: ReplyV,
    split_reasoning: bool,
    opened: bool,
    raw: Seq<char>,
    pt: nat,
    ct: nat,
    f: Finish,
) -> Seq<char> {
    let (reason, rest) = whole_split(raw, split_reasoning, opened);
    let (content, calls) = tools::calls_of(rest);
    let content = text::trimmed(content);
    let word = finish_word(calls, engine::finish_text(f));
    (if r.chat {
        head(r, "chat.completion"@) + "\"message\":{\"role\":\"assistant\","@ + reasoning_member(
            reason,
        ) + "\"content\":\""@ + json::escaped(content) + "\""@ + calls_member(calls) + "},"@
    } else {
        head(r, "text_completion"@) + "\"text\":\""@ + json::escaped(content) + "\","@
    }) + "\"finish_reason\":\""@ + word + "\"}],"@ + usage(pt, ct)
}

/// The object that reports an error.
pub open spec fn error_text(msg: Seq<char>) -> Seq<char> {
    "{\"error\":{\"message\":\""@ + json::escaped(msg)
        + "\",\"type\":\"invalid_request_error\"}}"@
}

/// The object that reports an error.
pub fn err_json(msg: &str) -> (r: String)
    ensures
        r@ == error_text(msg@),
{
    let mut out: String = "{\"error\":{\"message\":\"".to_owned();
    let e: String = json::escape(msg);
    out.append(e.as_str());
    out.append("\",\"type\":\"invalid_request_error\"}}");
    out
}

fn split_whole(raw: &str, split_reasoning: bool, opened: bool) -> (r: (String, String))
    ensures
        (r.0@, r.1@) == whole_split(raw@, split_reasoning, opened),
{
    let mut sp = splitter(split_reasoning, opened);
    let (mut reason, mut content) = sp.feed(raw);
    let ghost st = sp@;
    let ghost a = reason@;
    let ghost b = content@;
    let (more_reason, more_content) = sp.flush();
    reason.append(more_reason.as_str());
    content.append(more_content.as_str());
    proof {
        if !st.keep && st.phase == Phase::Reasoning {
            assert(content@ =~= b);
        } else {
            assert(reason@ =~= a);
        }
    }
    (text::trim(reason.as_str()), content)
}

#[verifier::spinoff_prover]
#[verifier::rlimit(60)]
fn push_message(
    out: &mut String,
    r: &Reply,
    reason: &str,
    content: &str,
    calls: &Vec<(String, String)>,
)
    ensures
        final(out)@ == old(out)@ + (head(r@, "chat.completion"@)
            + "\"message\":{\"role\":\"assistant\","@ + reasoning_member(reason@)
            + "\"content\":\""@ + json::escaped(content@) + "\""@ + calls_member(
            tools::calls_view(calls@),
        ) + "},"@),
{
    push_head(out, r, "chat.completion");
    out.append("\"message\":{\"role\":\"assistant\",");
    let ghost before = out@;
    if !is_empty(reason) {
        out.append("\"reasoning_content\":\"");
        let e: String = json::escape(reason);
        out.append(e.as_str());
        out.append("\",");
    }
    assert(out@ =~= before + reasoning_member(reason@));
    out.append("\"content\":\"");
    let e: String = json::escape(content);
    out.append(e.as_str());
    out.append("\"");
    let ghost before = out@;
    if calls.len() > 0 {
        out.append(",\"tool_calls\":[");
        push_calls(out, calls, false);
        out.append("]");
    }
    assert(out@ =~= before + calls_member(tools::calls_view(calls@)));
    out.append("},");
    assert(out@ =~= old(out)@ + (head(r@, "chat.completion"@)
        + "\"message\":{\"role\":\"assistant\","@ + reasoning_member(reason@) + "\"content\":\""@
        + json::escaped(content@) + "\""@ + calls_member(tools::calls_view(calls@)) + "},"@));
}

/// The body of a reply whose text is given; `opened` says that the prompt has opened its reasoning.
pub fn make_body(
    r: &Reply,
    split_reasoning: bool,
    opened: bool,
    raw: &str,
    pt: usize,
    ct: usize,
    f: Finish,
) -> (b: String)
    requires
        pt + ct <= u64::MAX,
    ensures
        b@ == body_of(r@, split_reasoning, opened, raw@, pt as nat, ct as nat, f),
{
    let (reason, rest) = split_whole(raw, split_reasoning, opened);
    let (content, calls) = tools::parse_tool_calls(rest.as_str());
    let mut out: String = String::new();
    if r.chat {
        push_message(&mut out, r, reason.as_str(), content.as_str(), &calls);
    } else {
        push_head(&mut out, r, "text_completion");
        out.append("\"text\":\"");
        let e: String = json::escape(content.as_str());
        out.append(e.as_str());
        out.append("\",");
    }
    let ghost front = out@;
    out.append("\"finish_reason\":\"");
    if calls.len() > 0 {
        out.append("tool_calls");
    } else {
        out.append(f.name());
    }
    out.append("\"}],");
    push_usage(&mut out, pt, ct);
    assert(out@ =~= front + "\"finish_reason\":\""@ + finish_word(
        tools::calls_view(calls@),
        engine::finish_text(f),
    ) + "\"}],"@ + usage(pt as nat, ct as nat));
    assert(out@ =~= body_of(r@, split_reasoning, opened, raw@, pt as nat, ct as nat, f));
    out
}

/// The body of a reply that is sent at once, from its bytes: what is not text in them is
/// replaced; an error is reported in place of a reply.
pub fn whole_body(
    r: &Reply,
    split_reasoning: bool,
    opened: bool,
    bytes: &Vec<u8>,
    o: &Outcome,
) -> (b: String)
    requires
        countable(*o),
    ensures
        b@ == match outcome_view(*o) {
            Ok(x) => body_of(r@, split_reasoning, opened, utf8::lossy_text(bytes@), x.0, x.1, x.2),
            Err(e) => error_text(e),
        },
        valid_utf8(bytes@) ==> (outcome_view(*o) matches Ok(x) ==> b@ == body_of(
            r@,
            split_reasoning,
            opened,
            decode_utf8(bytes@),
            x.0,
            x.1,
            x.2,
        )),
{
    match o {
        Ok(x) => {
            let raw: String = utf8::from_utf8_lossy(bytes);
            make_body(r, split_reasoning, opened, raw.as_str(), x.0, x.1, x.2)
        },
        Err(e) => err_json(e.as_str()),
    }
}

} // verus!
