//! The generation loop: what to do after each token, with or without speculation.
//!
//! The loop itself runs outside, which forwards tokens, samples and sends pieces; each outcome
//! comes back as an event, and the next action is decided here.

use vstd::prelude::*;
use vstd::string::*;

use crate::prompt;
use crate::prompt::Msg;
use crate::speculative;
use crate::tokenizer;
use crate::tokenizer::{TokenizeOptions, Vocab};

verus! {

/// What the server knows of the model besides its weights.
#[derive(Debug)]
pub struct Engine {
    pub vocab: Vocab,
    /// Tokens that end a reply.
    pub stop: Vec<u32>,
    pub model_id: String,
    /// The model reasons before it answers.
    pub think: bool,
    /// Reasoning is reported apart from the answer.
    pub split_reasoning: bool,
}

/// Token ids as the decoder takes them.
pub open spec fn as_tokens(ids: Seq<i32>) -> Seq<u32> {
    Seq::new(ids.len(), |i: int| ids[i] as u32)
}

impl Engine {
    /// Renders a conversation for this model.
    pub fn build_prompt(&self, msgs: &Vec<Msg>, tools: &Vec<String>) -> (r: String)
        ensures
            r@ == prompt::prompt_of(
                self.think,
                prompt::msgs_view(msgs@),
                prompt::strings_view(tools@),
            ),
    {
        prompt::build_prompt(self.think, msgs, tools)
    }

    /// Whether the prompt of a reply has opened its reasoning: that of a chat has, if the model
    /// thinks.
    pub fn opens_reasoning(&self, chat: bool) -> (r: bool)
        ensures
            r == (chat && self.think),
    {
        chat && self.think
    }

    /// The tokens of a prompt, control tokens recognised. A prompt without tokens is refused.
    pub fn prompt_tokens(&self, prompt: &str) -> (r: Result<Vec<u32>, String>)
        requires
            self.vocab.wf(),
        ensures
            ({
                let ids = tokenizer::encoding(self.vocab@, prompt@, true);
                match r {
                    Ok(t) => ids.len() > 0 && t@ == as_tokens(ids),
                    Err(m) => ids.len() == 0 && m@ == "tokenize produced no tokens"@,
                }
            }),
    {
        let opts = TokenizeOptions { add_special: false, parse_special: true };
        let ids: Vec<i32> = tokenizer::encode(prompt, &self.vocab, &opts);
        let n: usize = ids.len();
        if n == 0 {
            return Err("tokenize produced no tokens".to_owned());
        }
        let mut out: Vec<u32> = Vec::new();
        let mut i: usize = 0;
        while i < n
            invariant
                i <= n,
                n == ids@.len(),
                out@ == as_tokens(ids@).take(i as int),
            decreases n - i,
        {
            out.push(ids[i] as u32);
            i += 1;
            assert(out@ =~= as_tokens(ids@).take(i as int));
        }
        assert(out@ =~= as_tokens(ids@));
        Ok(out)
    }
}

/// Why a reply ended.
#[derive(Debug, Clone, Copy, PartialEq, Eq, Structural)]
pub enum Finish {
    Stop,
    Length,
}

pub open spec fn finish_text(f: Finish) -> Seq<char> {
    match f {
        Finish::Stop => "stop"@,
        Finish::Length => "length"@,
    }
}

impl Finish {
    pub fn name(&self) -> (r: &'static str)
        ensures
            r@ == finish_text(*self),
    {
        match self {
            Finish::Stop => "stop",
            Finish::Length => "length",
        }
    }
}

/// What happened.
#[derive(Debug)]
pub enum Event {
    /// The token to go on with was sampled.
    Token(u32),
    /// The piece was sent, or the client is gone.
    Sent(bool),
    /// A speculative round ended: what it emitted, the last of which is pending.
    Round(Vec<u32>),
}

/// What to do next.
#[derive(Debug, Clone, Copy, PartialEq, Eq, Structural)]
pub enum Action {
    /// Send the piece of a token.
    Send(u32),
    /// Forward a token at a position, and sample.
    Forward { token: u32, pos: usize },
    /// Run a speculative round from a pending token.
    Draft { pending: u32, pos: usize },
    Finish(Finish),
}

/// The state of a generation.
#[derive(Debug)]
pub struct Generation {
    pub speculate: bool,
    pub max_tokens: usize,
    pub stop: Vec<u32>,
    /// Tokens sent.
    pub n_out: usize,
    /// Tokens that the decoder holds.
    pub n_past: usize,
    /// The token that was last offered.
    pub cur: u32,
    /// It is an accepted draft, not a pending token.
    pub inner: bool,
    /// What the last round emitted and is not offered yet.
    pub queue: Vec<u32>,
}

/// The content of a [`Generation`].
pub struct GenV {
    pub speculate: bool,
    pub max_tokens: int,
    pub stop: Seq<u32>,
    pub n_out: int,
    pub n_past: int,
    pub cur: u32,
    pub inner: bool,
    pub queue: Seq<u32>,
}

/// What happened, in mathematical terms.
pub enum EventV {
    Token(u32),
    Sent(bool),
    Round(Seq<u32>),
}

/// Offers a token: a stop token ends the reply, any other is sent.
pub open spec fn offer(st: GenV, id: u32, inner: bool) -> (GenV, Action) {
    if st.stop.contains(id) {
        (st, Action::Finish(Finish::Stop))
    } else {
        (GenV { cur: id, inner, ..st }, Action::Send(id))
    }
}

/// Offers the next token of a round: drafts first, the pending token last.
pub open spec fn offer_next(st: GenV) -> (GenV, Action) {
    offer(
        GenV { queue: st.queue.skip(1), ..st },
        st.queue[0],
        st.queue.len() > 1,
    )
}

/// The action after an event. Reaching the limit in the middle of a round counts as a stop.
pub open spec fn gen_step(st: GenV, e: EventV) -> (GenV, Action) {
    match e {
        EventV::Token(id) => offer(st, id, false),
        EventV::Sent(ok) => if !ok {
            (st, Action::Finish(Finish::Stop))
        } else {
            let st = GenV { n_out: st.n_out + 1, ..st };
            if st.n_out >= st.max_tokens {
                (
                    st,
                    Action::Finish(
                        if st.inner {
                            Finish::Stop
                        } else {
                            Finish::Length
                        },
                    ),
                )
            } else if st.inner {
                offer_next(st)
            } else if st.speculate {
                (st, Action::Draft { pending: st.cur, pos: st.n_past as usize })
            } else {
                (
                    GenV { n_past: st.n_past + 1, ..st },
                    Action::Forward { token: st.cur, pos: st.n_past as usize },
                )
            }
        },
        EventV::Round(emitted) => offer_next(
            GenV { n_past: st.n_past + emitted.len(), queue: emitted, ..st },
        ),
    }
}

impl Event {
    pub open spec fn view(&self) -> EventV {
        match self {
            Event::Token(id) => EventV::Token(*id),
            Event::Sent(ok) => EventV::Sent(*ok),
            Event::Round(e) => EventV::Round(e@),
        }
    }
}

impl Generation {
    pub open spec fn view(&self) -> GenV {
        GenV {
            speculate: self.speculate,
            max_tokens: self.max_tokens as int,
            stop: self.stop@,
            n_out: self.n_out as int,
            n_past: self.n_past as int,
            cur: self.cur,
            inner: self.inner,
            queue: self.queue@,
        }
    }

    /// The event can come in this state: an accepted draft has something behind it, and a round
    /// emits something; counters stay within the machine's words.
    pub open spec fn accepts(&self, e: EventV) -> bool {
        match e {
            EventV::Token(_) => true,
            EventV::Sent(_) => {
                &&& self.inner ==> self.queue@.len() > 0
                &&& self.n_out < usize::MAX
                &&& self.n_past < usize::MAX
            },
            EventV::Round(emitted) => emitted.len() > 0 && self.n_past + emitted.len()
                <= usize::MAX,
        }
    }

    /// A generation behind a prompt of `n_prompt` tokens.
    pub fn new(n_prompt: usize, max_tokens: usize, stop: Vec<u32>, speculate: bool) -> (r:
        Generation)
        ensures
            r@ == (GenV {
                speculate,
                max_tokens: max_tokens as int,
                stop: stop@,
                n_out: 0,
                n_past: n_prompt as int,
                cur: 0,
                inner: false,
                queue: Seq::empty(),
            }),
    {
        let queue: Vec<u32> = Vec::new();
        assert(queue@ =~= Seq::<u32>::empty());
        Generation {
            speculate,
            max_tokens,
            stop,
            n_out: 0,
            n_past: n_prompt,
            cur: 0,
            inner: false,
            queue,
        }
    }

    fn stops_at(&self, id: u32) -> (r: bool)
        ensures
            r == self.stop@.contains(id),
    {
        let n: usize = self.stop.len();
        let mut i: usize = 0;
        while i < n
            invariant
                i <= n,
                n == self.stop@.len(),
                forall|k: int| 0 <= k < i ==> self.stop@[k] != id,
            decreases n - i,
        {
            if self.stop[i] == id {
                return true;
            }
            i += 1;
        }
        false
    }

    fn offer(&mut self, id: u32, inner: bool) -> (r: Action)
        ensures
            (final(self)@, r) == offer(old(self)@, id, inner),
            final(self).max_tokens == old(self).max_tokens,
    {
        if self.stops_at(id) {
            return Action::Finish(Finish::Stop);
        }
        self.cur = id;
        self.inner = inner;
        Action::Send(id)
    }

    fn offer_next(&mut self) -> (r: Action)
        requires
            old(self).queue@.len() > 0,
        ensures
            (final(self)@, r) == offer_next(old(self)@),
            final(self).max_tokens == old(self).max_tokens,
    {
        let many: bool = self.queue.len() > 1;
        let id: u32 = self.queue.remove(0);
        assert(self.queue@ =~= old(self).queue@.skip(1));
        self.offer(id, many)
    }

    /// Decides what to do after an event.
    pub fn step(&mut self, e: Event) -> (r: Action)
        requires
            old(self).accepts(e@),
        ensures
            (final(self)@, r) == gen_step(old(self)@, e@),
    {
        match e {
            Event::Token(id) => self.offer(id, false),
            Event::Sent(ok) => {
                if !ok {
                    return Action::Finish(Finish::Stop);
                }
                self.n_out = self.n_out + 1;
                if self.n_out >= self.max_tokens {
                    return Action::Finish(
                        if self.inner {
                            Finish::Stop
                        } else {
                            Finish::Length
                        },
                    );
                }
                if self.inner {
                    self.offer_next()
                } else if self.speculate {
                    Action::Draft { pending: self.cur, pos: self.n_past }
                } else {
                    let pos: usize = self.n_past;
                    self.n_past = pos + 1;
                    Action::Forward { token: self.cur, pos }
                }
            },
            Event::Round(emitted) => {
                self.n_past = self.n_past + emitted.len();
                self.queue = emitted;
                self.offer_next()
            },
        }
    }
}

// ---- what is sent -----------------------------------------------------------------------------

/// The greedy reply behind the history `h`: the target's own tokens up to a stop token or the
/// limit, where `n` tokens were sent before.
pub open spec fn greedy_reply(
    g: spec_fn(Seq<u32>) -> u32,
    h: Seq<u32>,
    stop: Seq<u32>,
    max: int,
    n: int,
) -> Seq<u32>
    decreases max - n,
{
    let t = g(h);
    if stop.contains(t) {
        Seq::empty()
    } else if n + 1 >= max {
        seq![t]
    } else {
        seq![t] + greedy_reply(g, h.push(t), stop, max, n + 1)
    }
}

/// The order in which actions lead to one another without a token being sent.
pub open spec fn rank(a: Action) -> int {
    match a {
        Action::Forward { .. } => 1,
        Action::Draft { .. } => 1,
        _ => 0,
    }
}

/// What is sent from an action on, to a client that stays: `g` is the target's own next token
/// behind a history, `d` drafts, and `h` is what the decoder holds.
pub open spec fn sent_from(
    g: spec_fn(Seq<u32>) -> u32,
    d: spec_fn(Seq<u32>) -> Seq<u32>,
    h: Seq<u32>,
    st: GenV,
    a: Action,
) -> Seq<u32>
    decreases st.max_tokens - st.n_out, rank(a),
{
    match a {
        Action::Finish(_) => Seq::empty(),
        Action::Send(id) => {
            let (next, b) = gen_step(st, EventV::Sent(true));
            if next.n_out == st.n_out + 1 && st.n_out < next.max_tokens && next.max_tokens
                == st.max_tokens {
                seq![id] + sent_from(g, d, h, next, b)
            } else {
                seq![id]
            }
        },
        Action::Forward { token, .. } => {
            let now = h.push(token);
            let (next, b) = gen_step(st, EventV::Token(g(now)));
            if rank(b) == 0 && next.n_out == st.n_out && next.max_tokens == st.max_tokens {
                sent_from(g, d, now, next, b)
            } else {
                Seq::empty()
            }
        },
        Action::Draft { pending, .. } => {
            let now = h.push(pending);
            let e = speculative::round_tokens(g, now, d(now));
            let (next, b) = gen_step(st, EventV::Round(e));
            if rank(b) == 0 && next.n_out == st.n_out && next.max_tokens == st.max_tokens {
                sent_from(g, d, now + e.drop_last(), next, b)
            } else {
                Seq::empty()
            }
        },
    }
}

/// The state agrees with the decoder: plainly, or inside a round, where what is left of it
/// continues greedily.
spec fn in_step(
    g: spec_fn(Seq<u32>) -> u32,
    h: Seq<u32>,
    st: GenV,
    past: Seq<u32>,
) -> bool {
    if st.inner {
        &&& st.queue.len() > 0
        &&& h == past.push(st.cur) + st.queue.drop_last()
        &&& forall|i: int|
            0 <= i < st.queue.len() ==> #[trigger] st.queue[i] == g(
                past.push(st.cur) + st.queue.take(i),
            )
    } else {
        h == past
    }
}

/// From the offer of the next token on, exactly the greedy reply is sent.
proof fn lemma_sends_greedy(
    g: spec_fn(Seq<u32>) -> u32,
    d: spec_fn(Seq<u32>) -> Seq<u32>,
    h: Seq<u32>,
    st: GenV,
    past: Seq<u32>,
)
    requires
        in_step(g, h, st, past),
        st.cur == g(past),
        !st.stop.contains(st.cur),
        st.n_out < st.max_tokens || st.n_out == 0,
        st.n_out >= 0,
    ensures
        sent_from(g, d, h, st, Action::Send(st.cur)) == greedy_reply(
            g,
            past,
            st.stop,
            st.max_tokens,
            st.n_out,
        ),
    decreases st.max_tokens - st.n_out,
{
    reveal_with_fuel(sent_from, 3);
    reveal_with_fuel(greedy_reply, 2);
    let id = st.cur;
    let now = past.push(id);
    let (next, b) = gen_step(st, EventV::Sent(true));
    if st.n_out + 1 >= st.max_tokens {
        assert(seq![id] + Seq::<u32>::empty() =~= seq![id]);
    } else if st.inner {
        let q = st.queue;
        let t = q[0];
        assert(now + q.take(0) =~= now);
        assert(t == g(now));
        if !st.stop.contains(t) {
            let after = now.push(t);
            if q.len() > 1 {
                assert(after + q.skip(1).drop_last() =~= now + q.drop_last());
                assert forall|i: int| 0 <= i < q.skip(1).len() implies #[trigger] q.skip(1)[i]
                    == g(after + q.skip(1).take(i)) by {
                    assert(after + q.skip(1).take(i) =~= now + q.take(i + 1));
                    assert(q[i + 1] == g(now + q.take(i + 1)));
                }
            } else {
                assert(now + q.drop_last() =~= now);
            }
            lemma_sends_greedy(g, d, h, next, now);
        }
    } else if st.speculate {
        let e = speculative::round_tokens(g, now, d(now));
        speculative::law_round_is_greedy(g, now, d(now));
        let (st2, c) = gen_step(next, EventV::Round(e));
        assert(now + e.take(0) =~= now);
        let t = e[0];
        assert(t == g(now));
        if !st.stop.contains(t) {
            let after = now.push(t);
            let h2 = now + e.drop_last();
            if e.len() > 1 {
                assert(after + e.skip(1).drop_last() =~= h2);
                assert forall|i: int| 0 <= i < e.skip(1).len() implies #[trigger] e.skip(1)[i]
                    == g(after + e.skip(1).take(i)) by {
                    assert(after + e.skip(1).take(i) =~= now + e.take(i + 1));
                    assert(e[i + 1] == g(now + e.take(i + 1)));
                }
            } else {
                assert(h2 =~= now);
            }
            lemma_sends_greedy(g, d, h2, st2, now);
        }
    } else {
        let (st2, c) = gen_step(next, EventV::Token(g(now)));
        if !st.stop.contains(g(now)) {
            lemma_sends_greedy(g, d, now, st2, now);
        }
    }
}

/// Speculation does not change what is generated: with a greedy target, and whatever is drafted,
/// the tokens sent are those of the greedy reply, as they are without speculation.
pub proof fn law_speculation_changes_nothing(
    g: spec_fn(Seq<u32>) -> u32,
    d: spec_fn(Seq<u32>) -> Seq<u32>,
    prompt: Seq<u32>,
    st: GenV,
)
    requires
        st.n_out == 0,
        !st.inner,
    ensures
        ({
            let (first, a) = gen_step(st, EventV::Token(g(prompt)));
            sent_from(g, d, prompt, first, a) == greedy_reply(
                g,
                prompt,
                st.stop,
                st.max_tokens,
                0,
            )
        }),
{
    let (first, a) = gen_step(st, EventV::Token(g(prompt)));
    if !st.stop.contains(g(prompt)) {
        lemma_sends_greedy(g, d, prompt, first, prompt);
    }
}

} // verus!
