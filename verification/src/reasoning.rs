//! Telling a reply's reasoning block from its answer, at once and as it streams in.

use vstd::prelude::*;
use vstd::string::*;

use crate::find;
use crate::text;

verus! {

/// What follows the last place of the pattern, or the whole text if it stands nowhere.
pub open spec fn after_last(s: Seq<char>, pat: Seq<char>) -> Seq<char>
    decreases s.len(),
{
    match find::find(s, pat) {
        Some(i) => if pat.len() > 0 && 0 <= i && i + pat.len() <= s.len() {
            after_last(s.skip(i + pat.len()), pat)
        } else {
            s
        },
        None => s,
    }
}

/// An assistant message as its reasoning and its answer.
pub open spec fn split_of(s: Seq<char>) -> (Seq<char>, Seq<char>) {
    match find::find(s, "</think>"@) {
        Some(i) => (
            text::trimmed(after_last(s.take(i), "<think>"@)),
            find::without_newlines(s.skip(i + "</think>"@.len())),
        ),
        None => (Seq::empty(), s),
    }
}

fn last_part(cs: Vec<char>) -> (r: Vec<char>)
    ensures
        r@ == after_last(cs@, "<think>"@),
    decreases cs@.len(),
{
    match find::find_in(&cs, "<think>", 0) {
        Some(i) => {
            proof {
                reveal_strlit("<think>");
            }
            let n: usize = cs.len();
            let rest: Vec<char> = find::piece(&cs, i + 7, n);
            assert(rest@ =~= cs@.skip(i + 7));
            last_part(rest)
        },
        None => cs,
    }
}

/// Splits an assistant message into its reasoning and its answer.
pub fn split_think(content: &str) -> (r: (String, String))
    ensures
        (r.0@, r.1@) == split_of(content@),
{
    let cs: Vec<char> = text::chars_of(content);
    let n: usize = cs.len();
    match find::find_in(&cs, "</think>", 0) {
        Some(i) => {
            proof {
                reveal_strlit("</think>");
            }
            let before: Vec<char> = last_part(find::piece(&cs, 0, i));
            let m: usize = before.len();
            let reason: String = text::trim(find::piece_text(&before, 0, m).as_str());
            let a: usize = find::skip_newlines(&cs, i + 8);
            let answer: String = find::piece_text(&cs, a, n);
            assert(cs@.subrange(0, i as int) =~= cs@.take(i as int));
            assert(before@.subrange(0, m as int) =~= before@);
            assert(cs@.subrange(a as int, n as int) =~= cs@.skip(a as int));
            (reason, answer)
        },
        None => {
            proof {
                reveal_strlit("");
                assert(""@ =~= Seq::<char>::empty());
            }
            ("".to_owned(), text::string_of(cs.as_slice()))
        },
    }
}

/// Where a streamed reply stands.
#[derive(Debug, Clone, Copy, PartialEq, Eq, Structural)]
pub enum Phase {
    /// Not enough text to tell.
    Undecided,
    /// Inside the reasoning block.
    Reasoning,
    /// In the answer.
    Content,
}

/// The state of a splitter.
pub struct SplitV {
    pub buf: Seq<char>,
    pub phase: Phase,
    pub keep: bool,
}

/// What a splitter does with text: the new state, reasoning and content.
pub type SplitStep = (SplitV, Seq<char>, Seq<char>);

/// In the answer everything passes.
pub open spec fn content_step(buf: Seq<char>) -> SplitStep {
    (
        SplitV { buf: Seq::empty(), phase: Phase::Content, keep: false },
        Seq::empty(),
        buf,
    )
}

/// In the reasoning block text passes up to the closing tag; an end that might be part of the
/// tag is held back.
pub open spec fn reasoning_step(buf: Seq<char>) -> SplitStep {
    match find::find(buf, "</think>"@) {
        Some(i) => {
            let (st, _, content) = content_step(
                find::without_newlines(buf.skip(i + "</think>"@.len())),
            );
            (st, buf.take(i), content)
        },
        None => {
            let cut = find::cut_at(buf, 7);
            (
                SplitV { buf: buf.skip(cut), phase: Phase::Reasoning, keep: false },
                buf.take(cut),
                Seq::empty(),
            )
        },
    }
}

/// At the start a reply that opens with the tag is reasoning, any other is content; text that
/// may still become the tag waits.
pub open spec fn undecided_step(buf: Seq<char>) -> SplitStep {
    let t = text::trimmed_start(buf);
    if t.len() < 7 && text::starts_with("<think>"@, t) {
        (SplitV { buf, phase: Phase::Undecided, keep: false }, Seq::empty(), Seq::empty())
    } else if text::starts_with(t, "<think"@) {
        reasoning_step(find::without_newlines(t.skip(7)))
    } else {
        content_step(buf)
    }
}

/// What feeding text to a splitter does.
pub open spec fn feed_step(st: SplitV, more: Seq<char>) -> SplitStep {
    if st.keep {
        (st, Seq::empty(), more)
    } else {
        let buf = st.buf + more;
        match st.phase {
            Phase::Undecided => undecided_step(buf),
            Phase::Reasoning => reasoning_step(buf),
            Phase::Content => content_step(buf),
        }
    }
}

/// Splits a streamed reply into reasoning and content at the closing tag. With `keep` nothing is
/// split, and everything is content.
#[derive(Debug)]
pub struct ThinkSplitter {
    pub buf: Vec<char>,
    pub phase: Phase,
    pub keep: bool,
}

fn empty() -> (r: String)
    ensures
        r@ == Seq::<char>::empty(),
{
    String::new()
}

impl ThinkSplitter {
    pub open spec fn view(&self) -> SplitV {
        SplitV { buf: self.buf@, phase: self.phase, keep: self.keep }
    }

    pub fn new(keep: bool) -> (r: ThinkSplitter)
        ensures
            r@ == (SplitV {
                buf: Seq::empty(),
                phase: if keep {
                    Phase::Content
                } else {
                    Phase::Undecided
                },
                keep,
            }),
    {
        let phase: Phase = if keep {
            Phase::Content
        } else {
            Phase::Undecided
        };
        let r = ThinkSplitter { buf: Vec::new(), phase, keep };
        assert(r.buf@ =~= Seq::<char>::empty());
        r
    }

    /// A splitter of a reply whose reasoning the prompt has opened: it starts inside of it.
    pub fn inside() -> (r: ThinkSplitter)
        ensures
            r@ == start(true),
    {
        let r = ThinkSplitter { buf: Vec::new(), phase: Phase::Reasoning, keep: false };
        assert(r.buf@ =~= Seq::<char>::empty());
        r
    }

    fn pass(&mut self) -> (r: (String, String))
        requires
            !old(self).keep,
        ensures
            (final(self)@, r.0@, r.1@) == content_step(old(self).buf@),
    {
        let content: String = text::string_of(self.buf.as_slice());
        self.buf = Vec::new();
        self.phase = Phase::Content;
        assert(self.buf@ =~= Seq::<char>::empty());
        (empty(), content)
    }

    fn reason(&mut self) -> (r: (String, String))
        requires
            !old(self).keep,
        ensures
            (final(self)@, r.0@, r.1@) == reasoning_step(old(self).buf@),
    {
        let n: usize = self.buf.len();
        match find::find_in(&self.buf, "</think>", 0) {
            Some(i) => {
                proof {
                    reveal_strlit("</think>");
                }
                let reason: String = find::piece_text(&self.buf, 0, i);
                let a: usize = find::skip_newlines(&self.buf, i + 8);
                let rest: Vec<char> = find::piece(&self.buf, a, n);
                assert(self.buf@.subrange(0, i as int) =~= self.buf@.take(i as int));
                assert(rest@ =~= self.buf@.skip(a as int));
                self.buf = rest;
                let (_, content) = self.pass();
                (reason, content)
            },
            None => {
                let cut: usize = find::cut(&self.buf, 7);
                let reason: String = find::piece_text(&self.buf, 0, cut);
                let rest: Vec<char> = find::piece(&self.buf, cut, n);
                assert(self.buf@.subrange(0, cut as int) =~= self.buf@.take(cut as int));
                assert(rest@ =~= self.buf@.skip(cut as int));
                self.buf = rest;
                self.phase = Phase::Reasoning;
                (reason, empty())
            },
        }
    }

    fn decide(&mut self) -> (r: (String, String))
        requires
            !old(self).keep,
        ensures
            (final(self)@, r.0@, r.1@) == undecided_step(old(self).buf@),
    {
        let n: usize = self.buf.len();
        let a: usize = find::skip_space(&self.buf);
        let ghost t = self.buf@.skip(a as int);
        let tag: Vec<char> = text::chars_of("<think>");
        proof {
            reveal_strlit("<think>");
            reveal_strlit("<think");
            assert("<think>"@.take(6) =~= "<think"@);
        }
        let mut k: usize = 0;
        while k < 6 && k < n - a && self.buf[a + k] == tag[k]
            invariant
                a <= n,
                n == self.buf@.len(),
                k <= 6,
                k <= n - a,
                tag@ == "<think>"@,
                tag@.len() == 7,
                t == self.buf@.skip(a as int),
                forall|j: int| 0 <= j < k ==> t[j] == tag@[j],
            decreases 6 - k,
        {
            k += 1;
        }
        let whole: bool = n - a >= 7;
        proof {
            assert(t.len() == n - a);
            if k == t.len() {
                assert("<think>"@.take(t.len() as int) =~= t);
            } else if k < 6 {
                if text::starts_with("<think>"@, t) {
                    assert("<think>"@.take(t.len() as int)[k as int] == t[k as int]);
                }
                if text::starts_with(t, "<think"@) {
                    assert(t.take(6)[k as int] == t[k as int]);
                }
            } else {
                assert(t.take(6) =~= "<think"@);
            }
        }
        if k == n - a && !whole {
            self.phase = Phase::Undecided;
            return (empty(), empty());
        }
        if k == 6 {
            let b: usize = find::skip_newlines(&self.buf, a + 7);
            let rest: Vec<char> = find::piece(&self.buf, b, n);
            assert(self.buf@.skip(a + 7) =~= t.skip(7));
            assert(rest@ =~= self.buf@.skip(b as int));
            self.buf = rest;
            self.reason()
        } else {
            self.pass()
        }
    }

    /// Feeds text; returns the reasoning and the content that it settles.
    pub fn feed(&mut self, more: &str) -> (r: (String, String))
        ensures
            (final(self)@, r.0@, r.1@) == feed_step(old(self)@, more@),
    {
        let cs: Vec<char> = text::chars_of(more);
        if self.keep {
            return (empty(), text::string_of(cs.as_slice()));
        }
        find::extend(&mut self.buf, &cs);
        match self.phase {
            Phase::Undecided => self.decide(),
            Phase::Reasoning => self.reason(),
            Phase::Content => self.pass(),
        }
    }

    /// What is left at the end; an unterminated reasoning block stays reasoning.
    pub fn flush(&mut self) -> (r: (String, String))
        ensures
            final(self)@ == (SplitV { buf: Seq::empty(), ..old(self)@ }),
            if !old(self).keep && old(self).phase == Phase::Reasoning {
                r.0@ == old(self).buf@ && r.1@ == Seq::<char>::empty()
            } else {
                r.0@ == Seq::<char>::empty() && r.1@ == old(self).buf@
            },
    {
        let s: String = text::string_of(self.buf.as_slice());
        self.buf = Vec::new();
        assert(self.buf@ =~= Seq::<char>::empty());
        if self.keep {
            return (empty(), s);
        }
        match self.phase {
            Phase::Reasoning => (s, empty()),
            _ => (empty(), s),
        }
    }
}

/// Two steps, one after the other: the last state and the texts joined.
pub open spec fn then_step(a: SplitStep, b: SplitStep) -> SplitStep {
    (b.0, a.1 + b.1, a.2 + b.2)
}

/// It does not matter in which pieces a reply arrives: as long as the first piece does not move
/// the splitter on to another phase, feeding two pieces settles the same reasoning and content,
/// and leaves the same state, as feeding them together.
pub proof fn law_pieces_do_not_matter(st: SplitV, a: Seq<char>, b: Seq<char>)
    requires
        feed_step(st, a).0.phase == st.phase,
    ensures
        then_step(feed_step(st, a), feed_step(feed_step(st, a).0, b)) == feed_step(st, a + b),
{
    let none = Seq::<char>::empty();
    let all = st.buf + a;
    assert(st.buf + (a + b) =~= all + b);
    assert(none + none =~= none);
    if st.keep {
    } else {
        match st.phase {
            Phase::Undecided => {
                let second = undecided_step(all + b);
                assert(none + second.1 =~= second.1);
                assert(none + second.2 =~= second.2);
            },
            Phase::Content => {
                assert(none + b =~= b);
            },
            Phase::Reasoning => {
                let tag = "</think>"@;
                reveal_strlit("</think>");
                assert(find::find(all, tag) is None);
                let c = find::cut_at(all, 7);
                find::lemma_no_split_tag(all, b, tag, 7);
                let head = all.take(c);
                let tail = all.skip(c) + b;
                assert(head + tail =~= all + b);
                find::lemma_find_behind(head, tail, tag);
                find::lemma_cut_behind(all, b, 7);
                find::lemma_find_from(tail, tag, 0);
                find::lemma_cut_bounds(tail, 7);
                match find::find(tail, tag) {
                    Some(i) => {
                        assert((all + b).take(c + i) =~= head + tail.take(i));
                        assert((all + b).skip(c + i + tag.len()) =~= tail.skip(i + tag.len()));
                        let rest = find::without_newlines(tail.skip(i + tag.len()));
                        assert(none + rest =~= rest);
                    },
                    None => {
                        let d = find::cut_at(tail, 7);
                        assert((all + b).take(c + d) =~= head + tail.take(d));
                        assert((all + b).skip(c + d) =~= tail.skip(d));
                    },
                }
            },
        }
    }
}

// ---- any cuts -----------------------------------------------------------------------------------

/// The start of a splitter that sets reasoning apart: inside of it, if the prompt has opened it.
pub open spec fn start(opened: bool) -> SplitV {
    SplitV {
        buf: Seq::empty(),
        phase: if opened {
            Phase::Reasoning
        } else {
            Phase::Undecided
        },
        keep: false,
    }
}

/// What a splitter does with pieces, one after the other.
pub open spec fn fed(st: SplitV, pieces: Seq<Seq<char>>) -> SplitStep
    decreases pieces.len(),
{
    if pieces.len() == 0 {
        (st, Seq::empty(), Seq::empty())
    } else {
        let before = fed(st, pieces.drop_last());
        then_step(before, feed_step(before.0, pieces.last()))
    }
}

/// Pieces, one behind the other.
pub open spec fn joined(pieces: Seq<Seq<char>>) -> Seq<char>
    decreases pieces.len(),
{
    if pieces.len() == 0 {
        Seq::empty()
    } else {
        joined(pieces.drop_last()) + pieces.last()
    }
}

pub open spec fn opens_line(s: Seq<char>) -> bool {
    s.len() > 0 && s[0] == '\n'
}

/// The text ends right behind the closing tag, or behind newlines that follow it.
pub open spec fn behind_close(w: Seq<char>) -> bool {
    match find::find(w, "</think>"@) {
        Some(i) => find::without_newlines(w.skip(i + "</think>"@.len())).len() == 0,
        None => false,
    }
}

/// The text ends right behind a tag of its reasoning, or behind newlines that follow one. What the
/// prompt has opened has a closing tag alone.
pub open spec fn behind_tag(opened: bool, p: Seq<char>) -> bool {
    if opened {
        behind_close(p)
    } else {
        let t = text::trimmed_start(p);
        t.len() >= 7 && text::starts_with(t, "<think"@) && {
            let w = find::without_newlines(t.skip(7));
            w.len() == 0 || behind_close(w)
        }
    }
}

/// A cut between `p` and `x` parts no newline from the tag that it follows.
pub open spec fn clean_cut(opened: bool, p: Seq<char>, x: Seq<char>) -> bool {
    behind_tag(opened, p) ==> !opens_line(x)
}

/// No cut between pieces parts a newline from the tag that it follows.
pub open spec fn clean_cuts(opened: bool, pieces: Seq<Seq<char>>) -> bool
    decreases pieces.len(),
{
    pieces.len() > 0 ==> clean_cuts(opened, pieces.drop_last()) && clean_cut(
        opened,
        joined(pieces.drop_last()),
        pieces.last(),
    )
}

proof fn lemma_trimmed_start_more(p: Seq<char>, x: Seq<char>)
    ensures
        text::trimmed_start(p).len() > 0 ==> text::trimmed_start(p + x) == text::trimmed_start(p)
            + x,
        text::trimmed_start(p).len() <= p.len(),
    decreases p.len(),
{
    if p.len() > 0 && text::char_is_whitespace(p[0]) {
        lemma_trimmed_start_more(p.skip(1), x);
        assert((p + x).skip(1) =~= p.skip(1) + x);
    }
}

proof fn lemma_newlines_more(q: Seq<char>, x: Seq<char>)
    requires
        find::without_newlines(q).len() > 0 || !opens_line(x),
    ensures
        find::without_newlines(q + x) == find::without_newlines(q) + x,
    decreases q.len(),
{
    if opens_line(q) {
        lemma_newlines_more(q.skip(1), x);
        assert((q + x).skip(1) =~= q.skip(1) + x);
    } else if q.len() == 0 {
        assert(q + x =~= x);
        assert(find::without_newlines(q) + x =~= x);
    }
}

/// White space comes off the start only.
pub proof fn lemma_trimmed_start(s: Seq<char>)
    ensures
        ({
            let t = text::trimmed_start(s);
            let n = s.len() - t.len();
            &&& 0 <= n
            &&& t == s.skip(n)
            &&& forall|i: int| 0 <= i < n ==> text::char_is_whitespace(#[trigger] s[i])
        }),
    decreases s.len(),
{
    if s.len() > 0 && text::char_is_whitespace(s[0]) {
        let r = s.skip(1);
        lemma_trimmed_start(r);
        let n = s.len() - text::trimmed_start(s).len();
        assert(r.skip(n - 1) =~= s.skip(n));
        assert forall|i: int| 0 <= i < n implies text::char_is_whitespace(#[trigger] s[i]) by {
            if i > 0 {
                assert(r[i - 1] == s[i]);
            }
        }
    } else {
        assert(s.skip(0) =~= s);
    }
}

/// What comes first decides how a reply goes on.
proof fn lemma_start_kept(t: Seq<char>, x: Seq<char>)
    requires
        t.len() > 0,
        !(t.len() < 7 && text::starts_with("<think>"@, t)),
    ensures
        text::starts_with(t + x, "<think"@) == text::starts_with(t, "<think"@),
        !((t + x).len() < 7 && text::starts_with("<think>"@, t + x)),
{
    reveal_strlit("<think>");
    reveal_strlit("<think");
    let all = t + x;
    if t.len() >= 6 {
        assert(all.take(6) =~= t.take(6));
    } else if text::starts_with(all, "<think"@) {
        assert("<think>"@.take(t.len() as int) =~= t) by {
            assert forall|i: int| 0 <= i < t.len() implies "<think>"@[i] == t[i] by {
                assert(all.take(6)[i] == t[i]);
            }
        }
    }
    if all.len() < 7 && text::starts_with("<think>"@, all) {
        assert("<think>"@.take(t.len() as int) =~= t) by {
            assert forall|i: int| 0 <= i < t.len() implies "<think>"@[i] == t[i] by {
                assert("<think>"@.take(all.len() as int)[i] == all[i]);
            }
        }
    }
}

/// Inside the reasoning, one piece more is as one along with those before.
proof fn lemma_reasoning_more(w: Seq<char>, x: Seq<char>)
    requires
        behind_close(w) ==> !opens_line(x),
    ensures
        then_step(reasoning_step(w), feed_step(reasoning_step(w).0, x)) == reasoning_step(w + x),
{
    reveal_strlit("</think>");
    let none = Seq::<char>::empty();
    let tag = "</think>"@;
    let st = start(true);
    assert(none + w =~= w);
    assert(none + (w + x) =~= w + x);
    find::lemma_find_from(w, tag, 0);
    match find::find(w, tag) {
        None => {
            law_pieces_do_not_matter(st, w, x);
        },
        Some(i) => {
            find::lemma_find_stays(w, x, tag);
            let e = w.skip(i + 8);
            assert((w + x).skip(i + 8) =~= e + x);
            assert((w + x).take(i) =~= w.take(i));
            lemma_newlines_more(e, x);
            assert(none + x =~= x);
            assert(w.take(i) + none =~= w.take(i));
        },
    }
}

/// Feeding one piece more is feeding it along with those before.
#[verifier::spinoff_prover]
#[verifier::rlimit(60)]
pub proof fn lemma_one_more(opened: bool, p: Seq<char>, x: Seq<char>)
    requires
        clean_cut(opened, p, x),
    ensures
        then_step(
            feed_step(start(opened), p),
            feed_step(feed_step(start(opened), p).0, x),
        ) == feed_step(start(opened), p + x),
{
    reveal_strlit("<think>");
    reveal_strlit("<think");
    let none = Seq::<char>::empty();
    let all = p + x;
    let tp = text::trimmed_start(p);
    let t = text::trimmed_start(all);
    lemma_trimmed_start_more(p, x);
    assert(none + p =~= p);
    assert(none + all =~= all);
    assert(none + x =~= x);
    if opened {
        lemma_reasoning_more(p, x);
    } else if tp.len() < 7 && text::starts_with("<think>"@, tp) {
        law_pieces_do_not_matter(start(false), p, x);
    } else {
        assert(tp.len() > 0) by {
            if tp.len() == 0 {
                assert("<think>"@.take(0) =~= tp);
            }
        }
        assert(t == tp + x);
        lemma_start_kept(tp, x);
        if text::starts_with(tp, "<think"@) {
            assert(tp.len() >= 7) by {
                if tp.len() == 6 {
                    assert("<think>"@.take(6) =~= "<think"@);
                    assert(tp.take(6) =~= tp);
                }
            }
            let q = tp.skip(7);
            let w = find::without_newlines(q);
            assert(t.skip(7) =~= q + x);
            lemma_newlines_more(q, x);
            lemma_reasoning_more(w, x);
        } else {
            assert(none + none =~= none);
        }
    }
}

/// A splitter makes nothing of no text.
pub proof fn lemma_no_text(opened: bool)
    ensures
        feed_step(start(opened), Seq::empty()) == (
            start(opened),
            Seq::<char>::empty(),
            Seq::<char>::empty(),
        ),
{
    let none = Seq::<char>::empty();
    reveal_strlit("<think>");
    reveal_strlit("</think>");
    assert("<think>"@.take(0) =~= none);
    assert(none + none =~= none);
    find::lemma_find_from(none, "</think>"@, 0);
    find::lemma_cut_bounds(none, 7);
    assert(none.skip(0) =~= none);
    assert(none.take(0) =~= none);
}

/// It does not matter how a reply is cut: as long as no cut parts a newline from the tag that it
/// follows, feeding the pieces settles the same reasoning and content, and leaves the same state,
/// as feeding the whole. A newline behind a tag is dropped only if it arrives with the tag.
pub proof fn law_cuts_do_not_matter(opened: bool, pieces: Seq<Seq<char>>)
    requires
        clean_cuts(opened, pieces),
    ensures
        fed(start(opened), pieces) == feed_step(start(opened), joined(pieces)),
    decreases pieces.len(),
{
    if pieces.len() == 0 {
        lemma_no_text(opened);
    } else {
        let head = pieces.drop_last();
        lemma_one_more(opened, joined(head), pieces.last());
        law_cuts_do_not_matter(opened, head);
    }
}

/// In a reply of reasoning between its tags and an answer, the closing tag is found where it was
/// put.
proof fn lemma_closing(r: Seq<char>, c: Seq<char>)
    requires
        find::find(r, "</think>"@) is None,
    ensures
        find::find(r + "</think>"@ + c, "</think>"@) == Some(r.len() as int),
{
    reveal_strlit("</think>");
    let tag = "</think>"@;
    let s = r + tag + c;
    let n = r.len() as int;
    assert(s.subrange(n, n + 8) =~= tag);
    assert forall|k: int| 0 <= k < n implies !#[trigger] find::stands(s, tag, k) by {
        if find::stands(s, tag, k) {
            if k + 8 <= n {
                assert(r.subrange(k, k + 8) =~= s.subrange(k, k + 8));
                find::lemma_find_from(r, tag, 0);
                assert(find::stands(r, tag, k));
            } else {
                assert(s.subrange(k, k + 8)[n - k] == s[n]);
                assert(s[n] == '<');
                assert(tag[n - k] == '<');
            }
        }
    }
    find::lemma_found(s, tag, 0, n);
}

/// A newline at `n` in reasoning `r` and what follows, `c`, if it is closed, does not come behind
/// the closing tag, unless one opens what follows.
proof fn lemma_newline_not_behind(all: Seq<char>, n: int, r: Seq<char>, c: Option<Seq<char>>)
    requires
        0 <= n < all.len(),
        all[n] == '\n',
        all == r + match c {
            Some(c) => "</think>"@ + c,
            None => Seq::empty(),
        },
        find::find(r, "</think>"@) is None,
        c matches Some(c) ==> !opens_line(c),
    ensures
        !behind_close(all.take(n)),
{
    reveal_strlit("</think>");
    let tag = "</think>"@;
    let p = all.take(n);
    if behind_close(p) {
        find::lemma_find_from(p, tag, 0);
        let i = find::find(p, tag)->0;
        let e = p.skip(i + 8);
        match c {
            None => {
                assert(all =~= r);
                assert(r.subrange(i, i + 8) =~= p.subrange(i, i + 8));
                find::lemma_find_from(r, tag, 0);
                assert(find::stands(r, tag, i));
            },
            Some(c) => {
                assert(all =~= r + tag + c);
                lemma_closing(r, c);
                find::lemma_find_stays(p, all.skip(n), tag);
                assert(p + all.skip(n) =~= all);
                assert(i == r.len());
                if e.len() > 0 {
                    assert(e[0] == c[0]);
                    assert(find::without_newlines(e) == e);
                } else {
                    assert(all[n] == c[0]);
                }
            },
        }
    }
}

/// Where no newline follows a tag, no cut parts one from it. `all` is the whole reply, of which
/// the pieces are the first part; its reasoning is `r`, and `c` is what follows, if it is closed.
proof fn lemma_clean(pieces: Seq<Seq<char>>, all: Seq<char>, r: Seq<char>, c: Option<Seq<char>>)
    requires
        joined(pieces).len() <= all.len(),
        joined(pieces) == all.take(joined(pieces).len() as int),
        all == "<think>"@ + r + match c {
            Some(c) => "</think>"@ + c,
            None => Seq::empty(),
        },
        find::find(r, "</think>"@) is None,
        !opens_line(r),
        c matches Some(c) ==> !opens_line(c),
    ensures
        clean_cuts(false, pieces),
    decreases pieces.len(),
{
    if pieces.len() > 0 {
        reveal_strlit("<think>");
        reveal_strlit("<think");
        reveal_strlit("</think>");
        let tag = "</think>"@;
        let head = pieces.drop_last();
        let (p, x) = (joined(head), pieces.last());
        let n = p.len() as int;
        assert(p =~= all.take(n)) by {
            assert(joined(pieces).take(n) =~= p);
            assert(all.take(joined(pieces).len() as int).take(n) =~= all.take(n));
        }
        lemma_clean(head, all, r, c);
        if behind_tag(false, p) && opens_line(x) {
            assert(joined(pieces)[n] == x[0]);
            assert(all[n] == '\n');
            let t = text::trimmed_start(p);
            assert(p[0] == all[0]);
            assert(all[0] == '<');
            assert(t == p);
            let q = p.skip(7);
            let rest = all.skip(7);
            assert(rest =~= r + match c {
                Some(c) => tag + c,
                None => Seq::empty(),
            });
            assert(q =~= rest.take(n - 7));
            assert(rest[n - 7] == all[n]);
            assert(!opens_line(rest)) by {
                if r.len() > 0 {
                    assert(rest[0] == r[0]);
                }
            }
            if q.len() > 0 {
                assert(q[0] == rest[0]);
            }
            assert(find::without_newlines(q) == q);
            assert(q.len() > 0);
            lemma_newline_not_behind(rest, n - 7, r, c);
        }
    }
}

/// A reply of reasoning between its tags and an answer is told apart however it is cut: the
/// reasoning comes out as reasoning, the answer as content, and nothing is held back.
pub proof fn law_splits_reasoning(pieces: Seq<Seq<char>>, r: Seq<char>, c: Seq<char>)
    requires
        joined(pieces) == "<think>"@ + r + "</think>"@ + c,
        find::find(r, "</think>"@) is None,
        !opens_line(r),
        !opens_line(c),
    ensures
        fed(start(false), pieces) == (
            SplitV { buf: Seq::empty(), phase: Phase::Content, keep: false },
            r,
            c,
        ),
{
    reveal_strlit("<think>");
    reveal_strlit("<think");
    reveal_strlit("</think>");
    let s = joined(pieces);
    let none = Seq::<char>::empty();
    assert(none + s =~= s);
    assert(s[0] == '<');
    assert(text::trimmed_start(s) == s);
    assert(s.take(6) =~= "<think"@);
    let q = s.skip(7);
    assert(q =~= r + "</think>"@ + c);
    lemma_closing(r, c);
    let n = r.len() as int;
    assert(q.take(n) =~= r);
    assert(q.skip(n + 8) =~= c);
    assert(!opens_line(q)) by {
        if r.len() > 0 {
            assert(q[0] == r[0]);
        } else {
            assert(q[0] == '<');
        }
    }
    assert(s =~= "<think>"@ + r + ("</think>"@ + c));
    assert(s.take(s.len() as int) =~= s);
    lemma_clean(pieces, s, r, Some(c));
    law_cuts_do_not_matter(false, pieces);
}

/// A reply that breaks off in its reasoning gives reasoning and no content, however it is cut:
/// what comes out and what is still held back make up the text behind the tag.
pub proof fn law_unclosed_reasoning(pieces: Seq<Seq<char>>, r: Seq<char>)
    requires
        joined(pieces) == "<think>"@ + r,
        find::find(r, "</think>"@) is None,
        !opens_line(r),
    ensures
        ({
            let (st, reason, content) = fed(start(false), pieces);
            &&& st.phase == Phase::Reasoning && !st.keep
            &&& reason + st.buf == r
            &&& content.len() == 0
        }),
{
    reveal_strlit("<think>");
    reveal_strlit("<think");
    let s = joined(pieces);
    let none = Seq::<char>::empty();
    assert(none + s =~= s);
    assert(s[0] == '<');
    assert(text::trimmed_start(s) == s);
    assert(s.take(6) =~= "<think"@);
    let q = s.skip(7);
    assert(q =~= r);
    assert(s =~= "<think>"@ + r + Seq::<char>::empty());
    assert(s.take(s.len() as int) =~= s);
    lemma_clean(pieces, s, r, None);
    law_cuts_do_not_matter(false, pieces);
    find::lemma_cut_bounds(q, 7);
    let cut = find::cut_at(q, 7);
    assert(q.take(cut) + q.skip(cut) =~= r);
}

/// Where the prompt has opened the reasoning and no newline follows the closing tag, no cut parts
/// one from it. `all` is the whole reply, of which the pieces are the first part; its reasoning is
/// `r`, and `c` is what follows, if it is closed.
proof fn lemma_clean_inside(
    pieces: Seq<Seq<char>>,
    all: Seq<char>,
    r: Seq<char>,
    c: Option<Seq<char>>,
)
    requires
        joined(pieces).len() <= all.len(),
        joined(pieces) == all.take(joined(pieces).len() as int),
        all == r + match c {
            Some(c) => "</think>"@ + c,
            None => Seq::empty(),
        },
        find::find(r, "</think>"@) is None,
        c matches Some(c) ==> !opens_line(c),
    ensures
        clean_cuts(true, pieces),
    decreases pieces.len(),
{
    if pieces.len() > 0 {
        let head = pieces.drop_last();
        let (p, x) = (joined(head), pieces.last());
        let n = p.len() as int;
        assert(p =~= all.take(n)) by {
            assert(joined(pieces).take(n) =~= p);
            assert(all.take(joined(pieces).len() as int).take(n) =~= all.take(n));
        }
        lemma_clean_inside(head, all, r, c);
        if behind_tag(true, p) && opens_line(x) {
            assert(joined(pieces)[n] == x[0]);
            assert(all[n] == '\n');
            lemma_newline_not_behind(all, n, r, c);
        }
    }
}

/// A reply whose reasoning the prompt has opened is told apart at the closing tag, however it is
/// cut: what comes before it is reasoning, what follows is content, and nothing is held back.
pub proof fn law_splits_opened_reasoning(pieces: Seq<Seq<char>>, r: Seq<char>, c: Seq<char>)
    requires
        joined(pieces) == r + "</think>"@ + c,
        find::find(r, "</think>"@) is None,
        !opens_line(c),
    ensures
        fed(start(true), pieces) == (
            SplitV { buf: Seq::empty(), phase: Phase::Content, keep: false },
            r,
            c,
        ),
{
    reveal_strlit("</think>");
    let s = joined(pieces);
    let none = Seq::<char>::empty();
    assert(none + s =~= s);
    lemma_closing(r, c);
    let n = r.len() as int;
    assert(s.take(n) =~= r);
    assert(s.skip(n + 8) =~= c);
    assert(s =~= r + ("</think>"@ + c));
    assert(s.take(s.len() as int) =~= s);
    lemma_clean_inside(pieces, s, r, Some(c));
    law_cuts_do_not_matter(true, pieces);
}

/// A reply that breaks off in the reasoning that the prompt has opened gives reasoning and no
/// content, however it is cut: what comes out and what is still held back make up the text.
pub proof fn law_unclosed_opened_reasoning(pieces: Seq<Seq<char>>)
    requires
        find::find(joined(pieces), "</think>"@) is None,
    ensures
        ({
            let (st, reason, content) = fed(start(true), pieces);
            &&& st.phase == Phase::Reasoning && !st.keep
            &&& reason + st.buf == joined(pieces)
            &&& content.len() == 0
        }),
{
    let s = joined(pieces);
    let none = Seq::<char>::empty();
    assert(none + s =~= s);
    assert(s =~= s + none);
    assert(s.take(s.len() as int) =~= s);
    lemma_clean_inside(pieces, s, s, None);
    law_cuts_do_not_matter(true, pieces);
    find::lemma_cut_bounds(s, 7);
    let cut = find::cut_at(s, 7);
    assert(s.take(cut) + s.skip(cut) =~= s);
}

// ---- what a message says ------------------------------------------------------------------------

/// From `h` on, `lead` is behind its last opening tag; it is all of it if there is none.
pub open spec fn behind_opening(lead: Seq<char>, h: int) -> bool {
    &&& 0 <= h <= lead.len()
    &&& h == 0 || find::stands(lead, "<think>"@, h - 7)
    &&& forall|j: int| h <= j ==> !#[trigger] find::stands(lead, "<think>"@, j)
}

/// The first closing tag of `s` stands at `i`. The answer is what follows it, without the newlines
/// up to `k`; the reasoning is what comes before it, from `h` on, without white space around it.
pub open spec fn closes_at(
    s: Seq<char>,
    reason: Seq<char>,
    answer: Seq<char>,
    h: int,
    i: int,
    k: int,
) -> bool {
    &&& find::stands(s, "</think>"@, i)
    &&& forall|j: int| 0 <= j < i ==> !#[trigger] find::stands(s, "</think>"@, j)
    &&& i + 8 <= k <= s.len()
    &&& forall|j: int| i + 8 <= j < k ==> #[trigger] s[j] == '\n'
    &&& answer == s.skip(k)
    &&& !opens_line(answer)
    &&& behind_opening(s.take(i), h)
    &&& text::trims(s.subrange(h, i), reason)
}

/// `s` says `answer`, after `reason`. Without a closing tag all of it is the answer.
pub open spec fn says(s: Seq<char>, reason: Seq<char>, answer: Seq<char>) -> bool {
    if forall|j: int| 0 <= j ==> !#[trigger] find::stands(s, "</think>"@, j) {
        reason.len() == 0 && answer == s
    } else {
        exists|h: int, i: int, k: int| #[trigger] closes_at(s, reason, answer, h, i, k)
    }
}

proof fn lemma_after_last(s: Seq<char>) -> (h: int)
    ensures
        behind_opening(s, h),
        after_last(s, "<think>"@) == s.skip(h),
    decreases s.len(),
{
    reveal_strlit("<think>");
    let tag = "<think>"@;
    find::lemma_find_from(s, tag, 0);
    match find::find(s, tag) {
        None => {
            assert(s.skip(0) =~= s);
            0
        },
        Some(i) => {
            let r = s.skip(i + 7);
            let g = lemma_after_last(r);
            let h = i + 7 + g;
            assert(r.skip(g) =~= s.skip(h));
            assert forall|j: int| h <= j implies !#[trigger] find::stands(s, tag, j) by {
                if find::stands(s, tag, j) {
                    assert(r.subrange(j - i - 7, j - i) =~= s.subrange(j, j + 7));
                    assert(find::stands(r, tag, j - i - 7));
                }
            }
            if g > 0 {
                assert(find::stands(r, tag, g - 7));
                assert(r.subrange(g - 7, g) =~= s.subrange(h - 7, h));
            }
            h
        },
    }
}

proof fn lemma_newlines_off(s: Seq<char>) -> (k: int)
    ensures
        0 <= k <= s.len(),
        find::without_newlines(s) == s.skip(k),
        forall|j: int| 0 <= j < k ==> #[trigger] s[j] == '\n',
        !opens_line(s.skip(k)),
    decreases s.len(),
{
    if s.len() > 0 && s[0] == '\n' {
        let r = s.skip(1);
        let k = lemma_newlines_off(r);
        assert(r.skip(k) =~= s.skip(k + 1));
        assert forall|j: int| 0 <= j < k + 1 implies #[trigger] s[j] == '\n' by {
            if j > 0 {
                assert(r[j - 1] == s[j]);
            }
        }
        k + 1
    } else {
        assert(s.skip(0) =~= s);
        0
    }
}

/// A message is split at its first closing tag: what follows, without newlines in front, is the
/// answer, and what comes before, behind the last opening tag and without white space around it,
/// the reasoning. Without a closing tag all of it is the answer.
pub proof fn law_message_is_split(s: Seq<char>)
    ensures
        says(s, split_of(s).0, split_of(s).1),
{
    reveal_strlit("</think>");
    let tag = "</think>"@;
    find::lemma_find_from(s, tag, 0);
    if let Some(i) = find::find(s, tag) {
        let h = lemma_after_last(s.take(i));
        let lead = s.take(i).skip(h);
        assert(lead =~= s.subrange(h, i));
        text::law_trimmed(lead);
        let rest = s.skip(i + 8);
        let k = lemma_newlines_off(rest);
        assert(rest.skip(k) =~= s.skip(i + 8 + k));
        assert forall|j: int| i + 8 <= j < i + 8 + k implies #[trigger] s[j] == '\n' by {
            assert(rest[j - i - 8] == s[j]);
        }
        assert(closes_at(s, split_of(s).0, split_of(s).1, h, i, i + 8 + k));
        assert(find::stands(s, tag, i));
    }
}

} // verus!
