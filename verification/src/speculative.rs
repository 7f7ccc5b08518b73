//! Speculative decoding: a drafter proposes tokens, the target model verifies them.
//!
//! A round forwards the pending token, drafts a block, and checks the drafts one at a time:
//! a draft is accepted, and forwarded, only where it is the target's own next token. So the
//! tokens that come out are those of plain greedy decoding, whatever the drafts.

use vstd::prelude::*;
use vstd::string::*;

use crate::sampler;
use crate::text;

verus! {

/// The best token of row `i` of a block's scores.
pub open spec fn best_token(logits: Seq<u32>, n_vocab: int, i: int) -> u32 {
    sampler::argmax_of(logits.subrange(i * n_vocab, i * n_vocab + n_vocab)) as u32
}

/// The drafts from the `t`-th on: the best token of each position, up to the first whose
/// confidence is below the bound.
pub open spec fn drafts_from(
    conf: Seq<u32>,
    logits: Seq<u32>,
    n_vocab: int,
    first: int,
    n_draft: int,
    p_min: u32,
    t: int,
) -> Seq<u32>
    decreases n_draft - t,
{
    if t >= n_draft || first + t >= conf.len() || sampler::less(conf[first + t], p_min) {
        Seq::empty()
    } else {
        seq![best_token(logits, n_vocab, first + t)] + drafts_from(
            conf,
            logits,
            n_vocab,
            first,
            n_draft,
            p_min,
            t + 1,
        )
    }
}

/// There are no more drafts than were asked for.
pub proof fn law_drafts_are_bounded(
    conf: Seq<u32>,
    logits: Seq<u32>,
    n_vocab: int,
    first: int,
    n_draft: int,
    p_min: u32,
    t: int,
)
    requires
        t <= n_draft,
    ensures
        drafts_from(conf, logits, n_vocab, first, n_draft, p_min, t).len() <= n_draft - t,
    decreases n_draft - t,
{
    if t < n_draft {
        law_drafts_are_bounded(conf, logits, n_vocab, first, n_draft, p_min, t + 1);
    }
}

/// Refuses a number of drafts that the block does not hold.
pub fn check_n_draft(n_draft: usize, block_size: usize) -> (r: Result<(), String>)
    ensures
        match r {
            Ok(_) => 1 <= n_draft <= block_size,
            Err(m) => !(1 <= n_draft <= block_size) && m@ == "drafter propose: n_draft "@
                + text::decimal(n_draft as nat) + " out of 1..="@ + text::decimal(
                block_size as nat,
            ),
        },
{
    if n_draft == 0 || n_draft > block_size {
        let mut m = "drafter propose: n_draft ".to_owned();
        text::push_decimal(&mut m, n_draft as u64);
        m.append(" out of 1..=");
        text::push_decimal(&mut m, block_size as u64);
        return Err(m);
    }
    Ok(())
}

/// The positions that a drafter's cache needs: no more than the drafter was trained for.
pub fn draft_positions(n_ctx: usize, context_length: usize) -> (r: usize)
    ensures
        r == if n_ctx < context_length {
            n_ctx
        } else {
            context_length
        },
{
    if n_ctx < context_length {
        n_ctx
    } else {
        context_length
    }
}

/// The tapped states from the `i`-th on, one behind the other.
pub open spec fn joined(taps: Seq<Vec<u32>>, n: int) -> Seq<u32>
    decreases n,
{
    if n <= 0 {
        Seq::empty()
    } else {
        joined(taps, n - 1) + taps[n - 1]@
    }
}

pub open spec fn tap_error(len: int, n_embd: int) -> Seq<char> {
    "drafter observe: tap width "@ + text::decimal(len as nat) + " != "@ + text::decimal(
        n_embd as nat,
    )
}

/// Joins the tapped states of one position into the drafter's features; the first that has not
/// the width of a state is refused.
pub fn observe(taps: &Vec<Vec<u32>>, n_embd: usize) -> (r: Result<Vec<u32>, String>)
    ensures
        match r {
            Ok(f) => {
                &&& forall|i: int|
                    0 <= i < taps@.len() ==> (#[trigger] taps@[i])@.len() == n_embd
                &&& f@ == joined(taps@, taps@.len() as int)
            },
            Err(m) => exists|i: int|
                0 <= i < taps@.len() && (#[trigger] taps@[i])@.len() != n_embd && m@ == tap_error(
                    taps@[i]@.len() as int,
                    n_embd as int,
                ) && forall|j: int| 0 <= j < i ==> (#[trigger] taps@[j])@.len() == n_embd,
        },
{
    let mut out: Vec<u32> = Vec::new();
    let mut i: usize = 0;
    while i < taps.len()
        invariant
            i <= taps@.len(),
            forall|j: int| 0 <= j < i ==> (#[trigger] taps@[j])@.len() == n_embd,
            out@ == joined(taps@, i as int),
        decreases taps@.len() - i,
    {
        let t: &Vec<u32> = &taps[i];
        let len: usize = t.len();
        if len != n_embd {
            let mut m = "drafter observe: tap width ".to_owned();
            text::push_decimal(&mut m, len as u64);
            m.append(" != ");
            text::push_decimal(&mut m, n_embd as u64);
            assert(taps@[i as int]@.len() != n_embd);
            return Err(m);
        }
        let mut k: usize = 0;
        let ghost had = out@;
        assert(t@.take(0) =~= Seq::<u32>::empty());
        assert(had + t@.take(0) =~= had);
        while k < len
            invariant
                k <= len,
                len == t@.len(),
                out@ == had + t@.take(k as int),
            decreases len - k,
        {
            out.push(t[k]);
            k += 1;
            assert(out@ =~= had + t@.take(k as int));
        }
        assert(t@.take(len as int) =~= t@);
        i += 1;
    }
    Ok(out)
}

/// Picks the drafts out of a block's confidences and scores, from position `first` on.
pub fn propose(
    conf: &[u32],
    logits: &[u32],
    n_vocab: usize,
    first: usize,
    n_draft: usize,
    p_min: u32,
) -> (r: Vec<u32>)
    requires
        conf@.len() * n_vocab <= logits@.len(),
        n_vocab <= u32::MAX,
        first + n_draft <= usize::MAX,
    ensures
        r@ == drafts_from(
            conf@,
            logits@,
            n_vocab as int,
            first as int,
            n_draft as int,
            p_min,
            0,
        ),
        r@.len() <= n_draft,
{
    let size: usize = logits.len();
    let mut out: Vec<u32> = Vec::new();
    let mut t: usize = 0;
    let ghost nv = n_vocab as int;
    let ghost all = drafts_from(conf@, logits@, nv, first as int, n_draft as int, p_min, 0);
    assert(out@ + all =~= all);
    while t < n_draft && first + t < conf.len() && !sampler::single_less(conf[first + t], p_min)
        invariant
            t <= n_draft,
            first + n_draft <= usize::MAX,
            conf@.len() * n_vocab <= logits@.len(),
            size == logits@.len(),
            nv == n_vocab,
            n_vocab <= u32::MAX,
            out@ + drafts_from(
                conf@,
                logits@,
                nv,
                first as int,
                n_draft as int,
                p_min,
                t as int,
            ) == all,
        decreases n_draft - t,
    {
        let idx: usize = first + t;
        assert(idx * n_vocab + n_vocab <= conf@.len() * n_vocab) by (nonlinear_arith)
            requires
                idx + 1 <= conf@.len(),
        ;
        let a: usize = idx * n_vocab;
        let row: &[u32] = vstd::slice::slice_subrange(logits, a, a + n_vocab);
        let best: usize = sampler::argmax(row);
        let ghost before = out@;
        let ghost rest = drafts_from(
            conf@,
            logits@,
            nv,
            first as int,
            n_draft as int,
            p_min,
            t + 1,
        );
        out.push(best as u32);
        assert(before + (seq![best as u32] + rest) =~= out@ + rest);
        t += 1;
    }
    assert(out@ + Seq::<u32>::empty() =~= out@);
    proof {
        law_drafts_are_bounded(conf@, logits@, nv, first as int, n_draft as int, p_min, 0);
    }
    out
}

/// What a round settled.
#[derive(Debug)]
pub struct RoundOut {
    /// The accepted drafts, then the target's own token.
    pub emitted: Vec<u32>,
    /// The drafts before verification.
    pub drafts: Vec<u32>,
    pub accepted: usize,
    /// The target's own token: the next pending one.
    pub pending: u32,
    /// The logits that the pending token was taken from.
    pub logits: Vec<u32>,
    /// Passes of the target in this round.
    pub target_forwards: usize,
}

/// A round under way. The pending token has been forwarded at `n_past`, and the block drafted.
#[derive(Debug)]
pub struct Round {
    pub n_past: usize,
    pub drafts: Vec<u32>,
    pub accepted: usize,
}

/// The target's own token where it gives these logits.
pub open spec fn target_of(logits: Seq<u32>) -> u32 {
    sampler::argmax_of(logits) as u32
}

/// Where draft `i` stands, if the pending token stands at `n_past`.
pub open spec fn draft_position(n_past: int, i: int) -> int {
    n_past + 1 + i
}

/// The round goes on: the next draft is the best token of the logits.
pub open spec fn goes_on(drafts: Seq<u32>, accepted: int, logits: Seq<u32>) -> bool {
    accepted < drafts.len() && drafts[accepted] as int == sampler::argmax_of(logits)
}

/// What a round over `drafts` emits that ends, with so many accepted, at these logits.
pub open spec fn settled(drafts: Seq<u32>, accepted: int, logits: Seq<u32>) -> Seq<u32> {
    drafts.take(accepted).push(target_of(logits))
}

impl Round {
    pub open spec fn wf(&self) -> bool {
        &&& self.accepted <= self.drafts@.len()
        &&& self.n_past + self.drafts@.len() < usize::MAX
    }

    /// A round over a drafted block.
    pub fn new(n_past: usize, drafts: Vec<u32>) -> (r: Round)
        requires
            n_past + drafts@.len() < usize::MAX,
        ensures
            r.wf(),
            r.n_past == n_past,
            r.drafts == drafts,
            r.accepted == 0,
    {
        Round { n_past, drafts, accepted: 0 }
    }

    /// Checks the next draft against the target's logits. An accepted draft is to be forwarded
    /// at the returned position; none means that the round is over.
    pub fn verify(&mut self, logits: &[u32]) -> (r: Option<(u32, usize)>)
        requires
            old(self).wf(),
        ensures
            final(self).wf(),
            final(self).n_past == old(self).n_past,
            final(self).drafts == old(self).drafts,
            ({
                let a = old(self).accepted;
                if goes_on(old(self).drafts@, a as int, logits@) {
                    final(self).accepted == a + 1 && r == Some(
                        (
                            old(self).drafts@[a as int],
                            draft_position(old(self).n_past as int, a as int) as usize,
                        ),
                    )
                } else {
                    final(self).accepted == a && r is None
                }
            }),
    {
        let a: usize = self.accepted;
        let n: usize = self.drafts.len();
        if a < n {
            let d: u32 = self.drafts[a];
            let best: usize = sampler::argmax(logits);
            if best as u64 == d as u64 {
                self.accepted = a + 1;
                return Some((d, self.n_past + 1 + a));
            }
        }
        None
    }

    /// Ends the round with the target's own token.
    pub fn finish(self, logits: Vec<u32>) -> (r: RoundOut)
        requires
            self.wf(),
        ensures
            r.emitted@ == settled(self.drafts@, self.accepted as int, logits@),
            r.drafts == self.drafts,
            r.accepted == self.accepted,
            r.accepted <= r.drafts@.len(),
            r.pending == target_of(logits@),
            r.logits == logits,
            r.target_forwards == self.accepted + 1,
    {
        let a: usize = self.accepted;
        let n: usize = self.drafts.len();
        let best: usize = sampler::argmax(logits.as_slice());
        let pending: u32 = #[verifier::truncate] (best as u32);
        let mut emitted: Vec<u32> = Vec::new();
        let mut i: usize = 0;
        while i < a
            invariant
                i <= a,
                a == self.accepted,
                a <= self.drafts@.len(),
                emitted@ == self.drafts@.take(i as int),
            decreases a - i,
        {
            emitted.push(self.drafts[i]);
            i += 1;
            assert(emitted@ =~= self.drafts@.take(i as int));
        }
        emitted.push(pending);
        RoundOut {
            emitted,
            drafts: self.drafts,
            accepted: a,
            pending,
            logits,
            target_forwards: a + 1,
        }
    }
}

// ---- what comes out ---------------------------------------------------------------------------

/// How many drafts are accepted from the `k`-th on, where `g` gives the target's own next token
/// behind a history, and `h` is the history up to the pending token.
pub open spec fn accepted_from(
    g: spec_fn(Seq<u32>) -> u32,
    h: Seq<u32>,
    drafts: Seq<u32>,
    k: int,
) -> int
    decreases drafts.len() - k,
{
    if 0 <= k < drafts.len() && drafts[k] == g(h + drafts.take(k)) {
        accepted_from(g, h, drafts, k + 1)
    } else {
        k
    }
}

/// The tokens that a round emits.
pub open spec fn round_tokens(
    g: spec_fn(Seq<u32>) -> u32,
    h: Seq<u32>,
    drafts: Seq<u32>,
) -> Seq<u32> {
    let a = accepted_from(g, h, drafts, 0);
    drafts.take(a).push(g(h + drafts.take(a)))
}

proof fn lemma_accepted(g: spec_fn(Seq<u32>) -> u32, h: Seq<u32>, drafts: Seq<u32>, k: int)
    requires
        0 <= k <= drafts.len(),
    ensures
        k <= accepted_from(g, h, drafts, k) <= drafts.len(),
        forall|i: int|
            k <= i < accepted_from(g, h, drafts, k) ==> #[trigger] drafts[i] == g(
                h + drafts.take(i),
            ),
    decreases drafts.len() - k,
{
    if k < drafts.len() && drafts[k] == g(h + drafts.take(k)) {
        lemma_accepted(g, h, drafts, k + 1);
    }
}

/// Whatever is drafted, a round emits the tokens of greedy decoding: each is the target's own
/// next token behind those before it.
pub proof fn law_round_is_greedy(g: spec_fn(Seq<u32>) -> u32, h: Seq<u32>, drafts: Seq<u32>)
    ensures
        ({
            let e = round_tokens(g, h, drafts);
            &&& e.len() >= 1
            &&& forall|i: int| 0 <= i < e.len() ==> #[trigger] e[i] == g(h + e.take(i))
        }),
{
    lemma_accepted(g, h, drafts, 0);
    let a = accepted_from(g, h, drafts, 0);
    let e = round_tokens(g, h, drafts);
    assert forall|i: int| 0 <= i < e.len() implies #[trigger] e[i] == g(h + e.take(i)) by {
        if i < a {
            assert(e.take(i) =~= drafts.take(i));
            assert(drafts[i] == g(h + drafts.take(i)));
        } else {
            assert(e.take(a) =~= drafts.take(a));
        }
    }
}

/// What became of a round.
pub struct Played {
    pub emitted: Seq<u32>,
    pub accepted: int,
    /// The logits that the round ended at.
    pub logits: Seq<u32>,
    /// What the target was passed: tokens with their positions.
    pub passed: Seq<(u32, int)>,
}

/// A round played to its end, from the `accepted`-th draft on: as long as the round goes on, the
/// accepted draft is forwarded and the target's next logits are taken; then the round is settled.
/// `l` gives the target's logits behind a history, `h` is the history up to the pending token,
/// and `passed` is what the target was passed so far.
pub open spec fn played(
    l: spec_fn(Seq<u32>) -> Seq<u32>,
    h: Seq<u32>,
    n_past: int,
    drafts: Seq<u32>,
    accepted: int,
    passed: Seq<(u32, int)>,
) -> Played
    decreases drafts.len() - accepted,
{
    let logits = l(h + drafts.take(accepted));
    if 0 <= accepted && goes_on(drafts, accepted, logits) {
        played(
            l,
            h,
            n_past,
            drafts,
            accepted + 1,
            passed.push((drafts[accepted], draft_position(n_past, accepted))),
        )
    } else {
        Played { emitted: settled(drafts, accepted, logits), accepted, logits, passed }
    }
}

/// A round played from its start: the pending token, the last of the history, is forwarded first.
pub open spec fn played_round(
    l: spec_fn(Seq<u32>) -> Seq<u32>,
    h: Seq<u32>,
    n_past: int,
    drafts: Seq<u32>,
) -> Played {
    played(l, h, n_past, drafts, 0, seq![(h.last(), n_past)])
}

/// What the target was passed of a history and `k` drafts behind it, from `n_past` on.
pub open spec fn passed_of(h: Seq<u32>, n_past: int, drafts: Seq<u32>, k: int) -> Seq<(u32, int)> {
    Seq::new(
        (k + 1) as nat,
        |i: int|
            if i == 0 {
                (h.last(), n_past)
            } else {
                (drafts[i - 1], n_past + i)
            },
    )
}

proof fn lemma_played(
    l: spec_fn(Seq<u32>) -> Seq<u32>,
    h: Seq<u32>,
    n_past: int,
    drafts: Seq<u32>,
    k: int,
)
    requires
        0 <= k <= drafts.len(),
        forall|s: Seq<u32>| 0 <= #[trigger] sampler::argmax_of(l(s)) <= u32::MAX,
    ensures
        ({
            let g = |s: Seq<u32>| target_of(l(s));
            let a = accepted_from(g, h, drafts, k);
            played(l, h, n_past, drafts, k, passed_of(h, n_past, drafts, k)) == (Played {
                emitted: drafts.take(a).push(g(h + drafts.take(a))),
                accepted: a,
                logits: l(h + drafts.take(a)),
                passed: passed_of(h, n_past, drafts, a),
            })
        }),
    decreases drafts.len() - k,
{
    let g = |s: Seq<u32>| target_of(l(s));
    let s = h + drafts.take(k);
    assert(0 <= sampler::argmax_of(l(s)) <= u32::MAX);
    assert(g(s) == target_of(l(s)));
    if k < drafts.len() && drafts[k] == g(s) {
        lemma_played(l, h, n_past, drafts, k + 1);
        assert(passed_of(h, n_past, drafts, k).push((drafts[k], draft_position(n_past, k)))
            =~= passed_of(h, n_past, drafts, k + 1));
    }
}

/// A round, played to its end over whatever is drafted, emits the tokens of greedy decoding: the
/// accepted drafts, no more than there are, and then the best token of the logits that the round
/// ended at; each is the best token of the target's logits behind those before it. The best tokens
/// are ids of 32 bits.
///
/// The target passes once more than drafts were accepted: the pending token, at `n_past`, and the
/// accepted drafts, one position after the other. So caches that held the positions before
/// `n_past` hold those before `n_past + accepted + 1` in the end, and what they hold is what was
/// emitted, up to the new pending token.
pub proof fn law_played_round_is_greedy(
    l: spec_fn(Seq<u32>) -> Seq<u32>,
    h: Seq<u32>,
    n_past: int,
    drafts: Seq<u32>,
)
    requires
        h.len() > 0,
        forall|s: Seq<u32>| 0 <= #[trigger] sampler::argmax_of(l(s)) <= u32::MAX,
    ensures
        ({
            let r = played_round(l, h, n_past, drafts);
            let e = r.emitted;
            &&& e == round_tokens(|s: Seq<u32>| target_of(l(s)), h, drafts)
            &&& 0 <= r.accepted <= drafts.len()
            &&& e == drafts.take(r.accepted).push(target_of(r.logits))
            &&& r.logits == l(h + drafts.take(r.accepted))
            &&& forall|i: int|
                0 <= i < e.len() ==> #[trigger] e[i] == target_of(l(h + e.take(i)))
            &&& r.passed.len() == r.accepted + 1
            &&& r.passed[0] == (h.last(), n_past)
            &&& forall|i: int|
                1 <= i <= r.accepted ==> #[trigger] r.passed[i] == (e[i - 1], n_past + i)
        }),
{
    let g = |s: Seq<u32>| target_of(l(s));
    assert(seq![(h.last(), n_past)] =~= passed_of(h, n_past, drafts, 0));
    lemma_played(l, h, n_past, drafts, 0);
    lemma_accepted(g, h, drafts, 0);
    law_round_is_greedy(g, h, drafts);
    let r = played_round(l, h, n_past, drafts);
    let (e, a) = (r.emitted, r.accepted);
    assert(e.take(a) =~= drafts.take(a));
    assert forall|i: int| 0 <= i < e.len() implies #[trigger] e[i] == target_of(
        l(h + e.take(i)),
    ) by {
        assert(e[i] == g(h + e.take(i)));
    }
    assert forall|i: int| 1 <= i <= a implies #[trigger] r.passed[i] == (e[i - 1], n_past + i) by {
        assert(e[i - 1] == drafts[i - 1]);
    }
}

} // verus!
