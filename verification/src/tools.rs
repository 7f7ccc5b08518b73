//! Tool calls in a reply: `<tool_call>` blocks are taken out of the text, at once or as it
//! streams in.

use vstd::prelude::*;
use vstd::string::*;

use crate::find;
use crate::json;
use crate::json::{J, JV};
use crate::text;

verus! {

/// A call: the function's name, and its arguments as a JSON object.
pub type Call = (Seq<char>, Seq<char>);

/// The value of a parameter: JSON where it parses, else the text itself.
pub open spec fn param_value(t: Seq<char>) -> JV {
    match json::parsed(t) {
        Ok(v) => v,
        Err(_) => JV::Str(t),
    }
}

/// The parameters of a function's body, up to the first that is incomplete.
pub open spec fn params_of(r: Seq<char>) -> Seq<(Seq<char>, JV)>
    decreases r.len(),
{
    match find::find(r, "<parameter="@) {
        None => Seq::empty(),
        Some(i) => {
            let p0 = i + "<parameter="@.len();
            match find::find_from(r, ">"@, p0) {
                None => Seq::empty(),
                Some(gt) => match find::find_from(r, "</parameter>"@, gt + 1) {
                    None => Seq::empty(),
                    Some(e) => {
                        let value = find::without_last_newlines(
                            find::without_newlines(r.subrange(gt + 1, e)),
                        );
                        let pair = (text::trimmed(r.subrange(p0, gt)), param_value(value));
                        let next = e + "</parameter>"@.len();
                        if 0 < next <= r.len() {
                            seq![pair] + params_of(r.skip(next))
                        } else {
                            seq![pair]
                        }
                    },
                },
            }
        },
    }
}

/// The call that the inside of a block makes; none without a function.
pub open spec fn block_of(b: Seq<char>) -> Option<Call> {
    match find::find(b, "<function="@) {
        None => None,
        Some(i) => {
            let fs = i + "<function="@.len();
            match find::find_from(b, ">"@, fs) {
                None => None,
                Some(fe) => {
                    let end = match find::find(b, "</function>"@) {
                        Some(e) => e,
                        None => b.len() as int,
                    };
                    let body = if fe + 1 <= end {
                        b.subrange(fe + 1, end)
                    } else {
                        Seq::empty()
                    };
                    Some(
                        (
                            text::trimmed(b.subrange(fs, fe)),
                            json::text_of(JV::Obj(params_of(body))),
                        ),
                    )
                },
            }
        },
    }
}

/// The call of a block as a list.
pub open spec fn block_calls(b: Seq<char>) -> Seq<Call> {
    match block_of(b) {
        Some(c) => seq![c],
        None => Seq::empty(),
    }
}

/// A reply's text and calls: each closed block becomes its call; a block that stays open is
/// dropped with all that follows.
pub open spec fn calls_of(rest: Seq<char>) -> (Seq<char>, Seq<Call>)
    decreases rest.len(),
{
    match find::find(rest, "<tool_call>"@) {
        None => (rest, Seq::empty()),
        Some(i) => {
            let after = rest.skip(i + "<tool_call>"@.len());
            match find::find(after, "</tool_call>"@) {
                None => (rest.take(i), Seq::empty()),
                Some(j) => {
                    let next = after.skip(j + "</tool_call>"@.len());
                    if next.len() < rest.len() {
                        let (content, calls) = calls_of(next);
                        (rest.take(i) + content, block_calls(after.take(j)) + calls)
                    } else {
                        (rest.take(i), Seq::empty())
                    }
                },
            }
        },
    }
}

pub open spec fn call_view(c: (String, String)) -> Call {
    (c.0@, c.1@)
}

pub open spec fn calls_view(s: Seq<(String, String)>) -> Seq<Call> {
    Seq::new(s.len(), |i: int| call_view(s[i]))
}

fn parse_params(body: Vec<char>) -> (r: Vec<(String, J)>)
    ensures
        json::pairs_view(r@) == params_of(body@),
{
    let mut pairs: Vec<(String, J)> = Vec::new();
    let mut r: Vec<char> = body;
    let ghost all = params_of(r@);
    proof {
        reveal_strlit("<parameter=");
        reveal_strlit(">");
        reveal_strlit("</parameter>");
        assert(json::pairs_view(pairs@) + all =~= all);
    }
    loop
        invariant
            json::pairs_view(pairs@) + params_of(r@) == all,
            "<parameter="@.len() == 11,
            ">"@.len() == 1,
            "</parameter>"@.len() == 12,
        ensures
            json::pairs_view(pairs@) == all,
        decreases r@.len(),
    {
        let ghost before = json::pairs_view(pairs@);
        let ghost none = Seq::<(Seq<char>, JV)>::empty();
        assert(before + none =~= before);
        let n: usize = r.len();
        let i: usize = match find::find_in(&r, "<parameter=", 0) {
            Some(i) => i,
            None => {
                break;
            },
        };
        let p0: usize = i + 11;
        let gt: usize = match find::find_in(&r, ">", p0) {
            Some(g) => g,
            None => {
                break;
            },
        };
        let e: usize = match find::find_in(&r, "</parameter>", gt + 1) {
            Some(e) => e,
            None => {
                break;
            },
        };
        let name: String = text::trim(find::piece_text(&r, p0, gt).as_str());
        let value: String = find::trim_newlines(&r, gt + 1, e);
        let v: J = match J::parse(value.as_str()) {
            Ok(v) => v,
            Err(_) => J::Str(value),
        };
        let rest: Vec<char> = find::piece(&r, e + 12, n);
        let ghost pair = (name@, v@);
        pairs.push((name, v));
        proof {
            assert(rest@ =~= r@.skip(e + 12));
            assert(json::pairs_view(pairs@) =~= before.push(pair));
            assert(before + (seq![pair] + params_of(rest@)) =~= before.push(pair) + params_of(
                rest@,
            ));
        }
        r = rest;
    }
    pairs
}

/// Parses the inside of a block into a call.
pub fn parse_tool_block(block: &Vec<char>) -> (r: Option<(String, String)>)
    ensures
        match r {
            Some(c) => block_of(block@) == Some(call_view(c)),
            None => block_of(block@) is None,
        },
{
    proof {
        reveal_strlit("<function=");
        reveal_strlit(">");
        reveal_strlit("</function>");
    }
    let n: usize = block.len();
    let fs: usize = match find::find_in(block, "<function=", 0) {
        Some(i) => i + 10,
        None => {
            return None;
        },
    };
    let fe: usize = match find::find_in(block, ">", fs) {
        Some(i) => i,
        None => {
            return None;
        },
    };
    let name: String = text::trim(find::piece_text(block, fs, fe).as_str());
    let end: usize = match find::find_in(block, "</function>", 0) {
        Some(e) => e,
        None => n,
    };
    let body: Vec<char> = if fe < end {
        find::piece(block, fe + 1, end)
    } else {
        Vec::new()
    };
    assert(fe >= end ==> body@ =~= Seq::<char>::empty());
    let pairs: Vec<(String, J)> = parse_params(body);
    proof {
        json::lemma_obj_view(pairs);
    }
    let args: String = json::to_json(&J::Obj(pairs));
    Some((name, args))
}

fn push_call(calls: &mut Vec<(String, String)>, block: &Vec<char>)
    ensures
        calls_view(final(calls)@) == calls_view(old(calls)@) + block_calls(block@),
{
    let ghost before = calls_view(calls@);
    match parse_tool_block(block) {
        Some(c) => {
            calls.push(c);
            assert(calls_view(calls@) =~= before + seq![call_view(c)]);
        },
        None => {
            assert(before + Seq::<Call>::empty() =~= before);
        },
    }
}

/// Takes the tool calls out of a reply: its text without the blocks, trimmed, and the calls.
pub fn parse_tool_calls(reply: &str) -> (r: (String, Vec<(String, String)>))
    ensures
        r.0@ == text::trimmed(calls_of(reply@).0),
        calls_view(r.1@) == calls_of(reply@).1,
{
    let mut rest: Vec<char> = text::chars_of(reply);
    let mut content: Vec<char> = Vec::new();
    let mut calls: Vec<(String, String)> = Vec::new();
    let ghost whole = calls_of(reply@);
    proof {
        reveal_strlit("<tool_call>");
        reveal_strlit("</tool_call>");
        assert(content@ + whole.0 =~= whole.0);
        assert(calls_view(calls@) + whole.1 =~= whole.1);
    }
    loop
        invariant
            "<tool_call>"@.len() == 11,
            "</tool_call>"@.len() == 12,
            content@ + calls_of(rest@).0 == whole.0,
            calls_view(calls@) + calls_of(rest@).1 == whole.1,
        ensures
            content@ + rest@ == whole.0,
            calls_view(calls@) == whole.1,
        decreases rest@.len(),
    {
        let ghost c0 = content@;
        let ghost k0 = calls_view(calls@);
        assert(k0 + Seq::<Call>::empty() =~= k0);
        let n: usize = rest.len();
        let i: usize = match find::find_in(&rest, "<tool_call>", 0) {
            Some(i) => i,
            None => {
                break;
            },
        };
        let head: Vec<char> = find::piece(&rest, 0, i);
        let after: Vec<char> = find::piece(&rest, i + 11, n);
        find::extend(&mut content, &head);
        assert(head@ =~= rest@.take(i as int));
        assert(after@ =~= rest@.skip(i + 11));
        match find::find_in(&after, "</tool_call>", 0) {
            Some(j) => {
                let block: Vec<char> = find::piece(&after, 0, j);
                push_call(&mut calls, &block);
                let m: usize = after.len();
                let next: Vec<char> = find::piece(&after, j + 12, m);
                proof {
                    assert(block@ =~= after@.take(j as int));
                    assert(next@ =~= after@.skip(j + 12));
                    let (c, k) = calls_of(next@);
                    assert(c0 + (head@ + c) =~= content@ + c);
                    assert(k0 + (block_calls(block@) + k) =~= calls_view(calls@) + k);
                }
                rest = next;
            },
            None => {
                rest = Vec::new();
                assert(content@ + rest@ =~= content@);
                break;
            },
        }
    }
    find::extend(&mut content, &rest);
    let all: String = text::string_of(content.as_slice());
    (text::trim(all.as_str()), calls)
}

// ---- streaming --------------------------------------------------------------------------------

/// What a filter does with its buffer: the text that passes, the calls of closed blocks, and
/// what is held back: an open block, or an end that might be part of an opening tag.
pub struct FilterStep {
    pub out: Seq<char>,
    pub calls: Seq<Call>,
    pub buf: Seq<char>,
}

pub open spec fn filter_step(buf: Seq<char>) -> FilterStep
    decreases buf.len(),
{
    match find::find(buf, "<tool_call>"@) {
        None => {
            let cut = find::cut_at(buf, 10);
            FilterStep { out: buf.take(cut), calls: Seq::empty(), buf: buf.skip(cut) }
        },
        Some(i) => match find::find(buf.skip(i), "</tool_call>"@) {
            None => FilterStep { out: buf.take(i), calls: Seq::empty(), buf: buf.skip(i) },
            Some(j) => {
                let next = buf.skip(i + j + "</tool_call>"@.len());
                if next.len() < buf.len() {
                    let rest = filter_step(next);
                    FilterStep {
                        out: buf.take(i) + rest.out,
                        calls: block_calls(buf.subrange(i + "<tool_call>"@.len(), i + j))
                            + rest.calls,
                        buf: rest.buf,
                    }
                } else {
                    FilterStep { out: buf.take(i), calls: Seq::empty(), buf: buf.skip(i) }
                }
            },
        },
    }
}

/// What is shown of text that was held back: all in front of a block.
pub open spec fn shown(buf: Seq<char>) -> Seq<char> {
    match find::find(buf, "<tool_call>"@) {
        Some(i) => buf.take(i),
        None => buf,
    }
}

/// Holds tool-call blocks back from streamed text, so that they never leak into it.
#[derive(Debug)]
pub struct ToolFilter {
    pub buf: Vec<char>,
    pub calls: Vec<(String, String)>,
}

/// No closing tag starts within an opening tag.
proof fn lemma_close_behind_open(s: Seq<char>)
    requires
        find::stands(s, "<tool_call>"@, 0),
    ensures
        forall|p: int| 0 <= p < 11 ==> !#[trigger] find::stands(s, "</tool_call>"@, p),
        find::find(s, "</tool_call>"@) == find::behind(
            s.take(11),
            find::find(s.skip(11), "</tool_call>"@),
        ),
{
    let open = "<tool_call>"@;
    let close = "</tool_call>"@;
    reveal_strlit("<tool_call>");
    reveal_strlit("</tool_call>");
    assert forall|p: int| 0 <= p < 11 implies !#[trigger] find::stands(s, close, p) by {
        if find::stands(s, close, p) {
            let w = s.subrange(p, p + 12);
            assert(w[0] == s[p] && w[1] == s[p + 1]);
            let o = s.subrange(0, open.len() as int);
            assert(o[p] == s[p]);
            if p < 10 {
                assert(o[p + 1] == s[p + 1]);
            }
        }
    }
    let head = s.take(11);
    let tail = s.skip(11);
    assert(head + tail =~= s);
    find::lemma_find_behind(head, tail, close);
}

impl ToolFilter {
    pub fn new() -> (r: ToolFilter)
        ensures
            r.buf@.len() == 0,
            r.calls@.len() == 0,
    {
        ToolFilter { buf: Vec::new(), calls: Vec::new() }
    }

    /// Feeds text; returns what passes.
    pub fn feed(&mut self, more: &str) -> (r: String)
        ensures
            ({
                let step = filter_step(old(self).buf@ + more@);
                &&& r@ == step.out
                &&& final(self).buf@ == step.buf
                &&& calls_view(final(self).calls@) == calls_view(old(self).calls@) + step.calls
            }),
    {
        let cs: Vec<char> = text::chars_of(more);
        find::extend(&mut self.buf, &cs);
        let mut out: Vec<char> = Vec::new();
        let ghost whole = filter_step(self.buf@);
        let ghost first = calls_view(self.calls@);
        proof {
            reveal_strlit("<tool_call>");
            reveal_strlit("</tool_call>");
            assert(out@ + whole.out =~= whole.out);
        }
        loop
            invariant
                "<tool_call>"@.len() == 11,
                "</tool_call>"@.len() == 12,
                out@ + filter_step(self.buf@).out == whole.out,
                calls_view(self.calls@) + filter_step(self.buf@).calls == first + whole.calls,
                filter_step(self.buf@).buf == whole.buf,
                first == calls_view(old(self).calls@),
                whole == filter_step(old(self).buf@ + more@),
            decreases self.buf@.len(),
        {
            let n: usize = self.buf.len();
            let ghost b = self.buf@;
            let ghost o0 = out@;
            let ghost k0 = calls_view(self.calls@);
            assert(k0 + Seq::<Call>::empty() =~= k0);
            match find::find_in(&self.buf, "<tool_call>", 0) {
                Some(i) => {
                    let tail: Vec<char> = find::piece(&self.buf, i, n);
                    let head: Vec<char> = find::piece(&self.buf, 0, i);
                    assert(tail@ =~= b.skip(i as int));
                    assert(head@ =~= b.take(i as int));
                    find::extend(&mut out, &head);
                    match find::find_in(&tail, "</tool_call>", 0) {
                        Some(j) => {
                            proof {
                                find::lemma_find_from(b, "<tool_call>"@, 0);
                                assert(tail@.subrange(0, 11) =~= b.subrange(i as int, i + 11));
                                lemma_close_behind_open(tail@);
                                find::lemma_find_from(tail@, "</tool_call>"@, 0);
                            }
                            let block: Vec<char> = find::piece(&self.buf, i + 11, i + j);
                            let m: usize = tail.len();
                            let next: Vec<char> = find::piece(&tail, j + 12, m);
                            push_call(&mut self.calls, &block);
                            proof {
                                assert(next@ =~= b.skip(i + j + 12));
                                let rest = filter_step(next@);
                                assert(o0 + (head@ + rest.out) =~= out@ + rest.out);
                                assert(k0 + (block_calls(block@) + rest.calls) =~= calls_view(
                                    self.calls@,
                                ) + rest.calls);
                            }
                            self.buf = next;
                        },
                        None => {
                            self.buf = tail;
                            return text::string_of(out.as_slice());
                        },
                    }
                },
                None => {
                    let cut: usize = find::cut(&self.buf, 10);
                    let head: Vec<char> = find::piece(&self.buf, 0, cut);
                    let tail: Vec<char> = find::piece(&self.buf, cut, n);
                    assert(tail@ =~= b.skip(cut as int));
                    assert(head@ =~= b.take(cut as int));
                    find::extend(&mut out, &head);
                    self.buf = tail;
                    return text::string_of(out.as_slice());
                },
            }
        }
    }

    /// What is held back at the end, without a block that was never closed.
    pub fn flush(&mut self) -> (r: String)
        ensures
            r@ == shown(old(self).buf@),
            final(self).buf@.len() == 0,
            final(self).calls == old(self).calls,
    {
        let n: usize = self.buf.len();
        let end: usize = match find::find_in(&self.buf, "<tool_call>", 0) {
            Some(i) => i,
            None => n,
        };
        let s: String = find::piece_text(&self.buf, 0, end);
        assert(self.buf@.subrange(0, end as int) =~= shown(self.buf@));
        self.buf = Vec::new();
        s
    }
}

/// It does not matter in which pieces text arrives: feeding `a` and then `b` passes the same
/// text, makes the same calls and holds the same back as feeding them together.
pub proof fn law_pieces_do_not_matter(a: Seq<char>, b: Seq<char>)
    ensures
        ({
            let first = filter_step(a);
            let second = filter_step(first.buf + b);
            filter_step(a + b) == (FilterStep {
                out: first.out + second.out,
                calls: first.calls + second.calls,
                buf: second.buf,
            })
        }),
    decreases a.len(),
{
    let open = "<tool_call>"@;
    let close = "</tool_call>"@;
    reveal_strlit("<tool_call>");
    reveal_strlit("</tool_call>");
    let all = a + b;
    let first = filter_step(a);
    let later = first.buf + b;
    let second = filter_step(later);
    let none = Seq::<Call>::empty();
    assert(none + second.calls =~= second.calls);
    find::lemma_find_from(a, open, 0);
    match find::find(a, open) {
        Some(i) => {
            find::lemma_find_stays(a, b, open);
            let t = a.skip(i);
            assert(all.skip(i) =~= t + b);
            assert(all.take(i) =~= a.take(i));
            find::lemma_find_from(t, close, 0);
            match find::find(t, close) {
                Some(j) => {
                    find::lemma_find_stays(t, b, close);
                    let next = a.skip(i + j + 12);
                    assert(all.skip(i + j + 12) =~= next + b);
                    assert(t.subrange(0, 11) =~= a.subrange(i, i + 11));
                    assert(find::stands(t, open, 0));
                    lemma_close_behind_open(t);
                    assert(all.subrange(i + 11, i + j) =~= a.subrange(i + 11, i + j));
                    law_pieces_do_not_matter(next, b);
                    let rest = filter_step(next);
                    let block = block_calls(a.subrange(i + 11, i + j));
                    assert(a.take(i) + (rest.out + second.out) =~= a.take(i) + rest.out
                        + second.out);
                    assert(block + (rest.calls + second.calls) =~= block + rest.calls
                        + second.calls);
                },
                None => {
                    lemma_pieces_open(a, b, i);
                },
            }
        },
        None => {
            lemma_pieces_none(a, b);
        },
    }
}

/// Two steps, one after the other.
spec fn joined(first: FilterStep, second: FilterStep) -> FilterStep {
    FilterStep {
        out: first.out + second.out,
        calls: first.calls + second.calls,
        buf: second.buf,
    }
}

/// The pieces do not matter while a block is open.
proof fn lemma_pieces_open(a: Seq<char>, b: Seq<char>, i: int)
    requires
        find::find(a, "<tool_call>"@) == Some(i),
        find::find(a.skip(i), "</tool_call>"@) is None,
    ensures
        filter_step(a + b) == joined(filter_step(a), filter_step(filter_step(a).buf + b)),
{
    reveal_strlit("<tool_call>");
    let open = "<tool_call>"@;
    let all = a + b;
    let t = a.skip(i);
    let later = t + b;
    find::lemma_find_from(a, open, 0);
    find::lemma_find_stays(a, b, open);
    assert(later =~= all.skip(i));
    assert(all.take(i) =~= a.take(i));
    assert(later.subrange(0, 11) =~= a.subrange(i, i + 11));
    find::lemma_found(later, open, 0, 0);
    lemma_filter_shift(all, i);
    let second = filter_step(later);
    assert(Seq::<Call>::empty() + second.calls =~= second.calls);
}

/// The pieces do not matter while no tag has come.
proof fn lemma_pieces_none(a: Seq<char>, b: Seq<char>)
    requires
        find::find(a, "<tool_call>"@) is None,
    ensures
        filter_step(a + b) == joined(filter_step(a), filter_step(filter_step(a).buf + b)),
{
    reveal_strlit("<tool_call>");
    let open = "<tool_call>"@;
    let all = a + b;
    let c = find::cut_at(a, 10);
    find::lemma_no_split_tag(a, b, open, 10);
    let head = a.take(c);
    let later = a.skip(c) + b;
    assert(head + later =~= all);
    assert(later =~= all.skip(c));
    assert(head =~= all.take(c));
    find::lemma_find_behind(head, later, open);
    find::lemma_cut_behind(a, b, 10);
    find::lemma_find_from(later, open, 0);
    let second = filter_step(later);
    assert(Seq::<Call>::empty() + second.calls =~= second.calls);
    match find::find(later, open) {
        Some(k) => {
            lemma_filter_split(all, c, later);
        },
        None => {
            find::lemma_cut_bounds(later, 10);
            let d = find::cut_at(later, 10);
            assert(all.take(c + d) =~= head + later.take(d));
            assert(all.skip(c + d) =~= later.skip(d));
        },
    }
}

/// A step over text in front of an opening tag, and the step from the tag on.
proof fn lemma_filter_shift(all: Seq<char>, i: int)
    requires
        find::find(all, "<tool_call>"@) == Some(i),
        find::find(all.skip(i), "<tool_call>"@) == Some(0int),
    ensures
        ({
            let rest = filter_step(all.skip(i));
            filter_step(all) == (FilterStep {
                out: all.take(i) + rest.out,
                calls: rest.calls,
                buf: rest.buf,
            })
        }),
{
    reveal_strlit("<tool_call>");
    reveal_strlit("</tool_call>");
    let open = "<tool_call>"@;
    let close = "</tool_call>"@;
    find::lemma_find_from(all, open, 0);
    let t = all.skip(i);
    assert(t.skip(0) =~= t);
    assert(t.take(0) =~= Seq::<char>::empty());
    let none = Seq::<char>::empty();
    assert(all.take(i) + none =~= all.take(i));
    find::lemma_find_from(t, close, 0);
    match find::find(t, close) {
        Some(j) => {
            assert(t.skip(0 + j + 12) =~= all.skip(i + j + 12));
            find::lemma_find_from(t, open, 0);
            lemma_close_behind_open(t);
            assert(t.subrange(11, j) =~= all.subrange(i + 11, i + j));
            let rest = filter_step(all.skip(i + j + 12));
            assert(none + rest.out =~= rest.out);
        },
        None => {},
    }
}

/// A step whose first opening tag is behind place `c` splits there.
proof fn lemma_filter_split(all: Seq<char>, c: int, later: Seq<char>)
    requires
        0 <= c <= all.len(),
        later == all.skip(c),
        find::find(later, "<tool_call>"@) is Some,
        find::find(all, "<tool_call>"@) == Some(c + find::find(later, "<tool_call>"@)->0),
    ensures
        ({
            let rest = filter_step(later);
            filter_step(all) == (FilterStep {
                out: all.take(c) + rest.out,
                calls: rest.calls,
                buf: rest.buf,
            })
        }),
{
    reveal_strlit("<tool_call>");
    reveal_strlit("</tool_call>");
    let open = "<tool_call>"@;
    let close = "</tool_call>"@;
    let k = find::find(later, open)->0;
    find::lemma_find_from(later, open, 0);
    let t = later.skip(k);
    assert(t =~= all.skip(c + k));
    assert(all.take(c + k) =~= all.take(c) + later.take(k));
    find::lemma_find_from(t, close, 0);
    match find::find(t, close) {
        Some(j) => {
            assert(later.skip(k + j + 12) =~= all.skip(c + k + j + 12));
            assert(t.subrange(0, 11) =~= later.subrange(k, k + 11));
            assert(find::stands(t, open, 0));
            lemma_close_behind_open(t);
            assert(later.subrange(k + 11, k + j) =~= all.subrange(c + k + 11, c + k + j));
            let rest = filter_step(later.skip(k + j + 12));
            assert(all.take(c) + (later.take(k) + rest.out) =~= all.take(c) + later.take(k)
                + rest.out);
        },
        None => {},
    }
}

/// Text without an opening tag has none behind any place.
proof fn lemma_no_open_behind(s: Seq<char>, c: int)
    requires
        find::find(s, "<tool_call>"@) is None,
        0 <= c <= s.len(),
    ensures
        find::find(s.skip(c), "<tool_call>"@) is None,
{
    reveal_strlit("<tool_call>");
    let open = "<tool_call>"@;
    let t = s.skip(c);
    find::lemma_find_from(s, open, 0);
    find::lemma_find_from(t, open, 0);
    if let Some(k) = find::find(t, open) {
        assert(s.subrange(c + k, c + k + 11) =~= t.subrange(k, k + 11));
        assert(find::stands(s, open, c + k));
    }
}

/// Streaming finds the same calls and the same text as parsing the whole reply: what passes,
/// and what is shown at the end of what is held back.
pub proof fn law_stream_agrees(reply: Seq<char>)
    ensures
        filter_step(reply).calls == calls_of(reply).1,
        filter_step(reply).out + shown(filter_step(reply).buf) == calls_of(reply).0,
    decreases reply.len(),
{
    reveal_strlit("<tool_call>");
    reveal_strlit("</tool_call>");
    let open = "<tool_call>"@;
    let close = "</tool_call>"@;
    find::lemma_find_from(reply, open, 0);
    match find::find(reply, open) {
        None => {
            find::lemma_cut_bounds(reply, 10);
            let c = find::cut_at(reply, 10);
            assert(reply.take(c) + reply.skip(c) =~= reply);
            lemma_no_open_behind(reply, c);
        },
        Some(i) => {
            let t = reply.skip(i);
            let after = reply.skip(i + 11);
            assert(t.subrange(0, 11) =~= reply.subrange(i, i + 11));
            assert(find::stands(t, open, 0));
            lemma_close_behind_open(t);
            assert(t.skip(11) =~= after);
            find::lemma_find_from(after, close, 0);
            match find::find(after, close) {
                Some(j) => {
                    let next = after.skip(j + 12);
                    assert(reply.skip(i + (11 + j) + 12) =~= next);
                    assert(reply.subrange(i + 11, i + (11 + j)) =~= after.take(j));
                    law_stream_agrees(next);
                    let rest = filter_step(next);
                    assert(reply.take(i) + rest.out + shown(rest.buf) =~= reply.take(i) + (rest.out
                        + shown(rest.buf)));
                },
                None => {
                    find::lemma_found(t, open, 0, 0);
                    assert(t.take(0) =~= Seq::<char>::empty());
                    assert(reply.take(i) + t.take(0) =~= reply.take(i));
                },
            }
        },
    }
}

} // verus!
