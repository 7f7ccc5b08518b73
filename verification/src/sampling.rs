//! Sampling a token from a row of scores.
//!
//! The scores that can be drawn are first brought to the temperature and below zero; the caller
//! raises e to each of them; the draw goes over those powers. Singles and doubles are held as
//! their patterns.

use vstd::prelude::*;

use crate::double;
use crate::sampler;
use crate::sampler::{Sampler, SamplerConfig, NEG_INFINITY, ONE};
use crate::single;

verus! {

/// What is known of a sample before powers are taken.
#[derive(Debug)]
pub enum Prepared {
    /// The token is settled.
    Token(i32),
    /// These places can be drawn. Each has an exponent, the score over the temperature less the
    /// largest one.
    Weigh { order: Vec<usize>, exponents: Vec<u32> },
}

/// The places that can be drawn: the best `top_k`, or all in order.
pub open spec fn drawable(v: Seq<u32>, top_k: i32, order: Seq<usize>) -> bool {
    if 0 < top_k < v.len() {
        sampler::best_first(v, order, top_k as int)
    } else {
        order == Seq::new(v.len(), |i: int| i as usize)
    }
}

/// The score at a place over the temperature.
pub open spec fn scaled(v: Seq<u32>, temp: u32, x: usize) -> u32 {
    single::product_of(v[x as int], single::quotient_of(ONE, temp))
}

/// The largest of the first `n` numbers and `start`; what is not a number does not count.
pub open spec fn largest(s: Seq<u32>, start: u32, n: int) -> u32
    decreases n,
{
    if n <= 0 {
        start
    } else {
        let m = largest(s, start, n - 1);
        if sampler::less(m, s[n - 1]) {
            s[n - 1]
        } else {
            m
        }
    }
}

/// The scores of the places that can be drawn, over the temperature.
pub open spec fn scaled_all(v: Seq<u32>, temp: u32, order: Seq<usize>) -> Seq<u32> {
    Seq::new(order.len(), |i: int| scaled(v, temp, order[i]))
}

/// `p` prepares a sample.
pub open spec fn prepares(v: Seq<u32>, cfg: SamplerConfig, p: Prepared) -> bool {
    if v.len() == 0 {
        p matches Prepared::Token(t) && t == 0
    } else if cfg.greedy() {
        p matches Prepared::Token(t) && t == sampler::argmax_of(v)
    } else {
        p matches Prepared::Weigh { order, exponents } && drawable(v, cfg.top_k, order@)
            && exponents@ == Seq::new(
            order@.len(),
            |i: int|
                single::difference_of(
                    scaled_all(v, cfg.temp, order@)[i],
                    largest(
                        scaled_all(v, cfg.temp, order@),
                        NEG_INFINITY,
                        order@.len() as int,
                    ),
                ),
        )
    }
}

fn largest_of(s: &Vec<u32>, start: u32) -> (r: u32)
    ensures
        r == largest(s@, start, s@.len() as int),
{
    let mut m: u32 = start;
    let mut i: usize = 0;
    while i < s.len()
        invariant
            i <= s@.len(),
            m == largest(s@, start, i as int),
        decreases s@.len() - i,
    {
        if sampler::single_less(m, s[i]) {
            m = s[i];
        }
        i += 1;
    }
    m
}

fn drawable_places(v: &[u32], top_k: i32) -> (r: Vec<usize>)
    ensures
        drawable(v@, top_k, r@),
        forall|i: int| 0 <= i < r@.len() ==> #[trigger] r@[i] < v@.len(),
        v@.len() > 0 ==> r@.len() > 0,
{
    let n: usize = v.len();
    if top_k > 0 && (top_k as u64) < n as u64 {
        return sampler::top_candidates(v, top_k);
    }
    let mut all: Vec<usize> = Vec::new();
    let mut i: usize = 0;
    while i < n
        invariant
            i <= n,
            n == v@.len(),
            all@ == Seq::new(i as nat, |k: int| k as usize),
        decreases n - i,
    {
        all.push(i);
        i += 1;
        assert(all@ =~= Seq::new(i as nat, |k: int| k as usize));
    }
    all
}

/// Prepares a sample: nothing is drawn from no scores, nor at temperature zero or below.
pub fn prepare(logits: &[u32], cfg: &SamplerConfig) -> (r: Prepared)
    requires
        logits@.len() <= 0x7FFF_FFFF,
    ensures
        prepares(logits@, *cfg, r),
        r matches Prepared::Weigh { order, exponents } ==> {
            &&& order@.len() > 0
            &&& exponents@.len() == order@.len()
            &&& forall|i: int| 0 <= i < order@.len() ==> #[trigger] order@[i] < logits@.len()
        },
{
    if logits.len() == 0 {
        return Prepared::Token(0);
    }
    if cfg.is_greedy() {
        return Prepared::Token(sampler::argmax(logits) as i32);
    }
    let order: Vec<usize> = drawable_places(logits, cfg.top_k);
    let inv: u32 = single::quotient(ONE, cfg.temp);
    let mut scores: Vec<u32> = Vec::new();
    let mut i: usize = 0;
    while i < order.len()
        invariant
            i <= order@.len(),
            inv == single::quotient_of(ONE, cfg.temp),
            forall|k: int| 0 <= k < order@.len() ==> #[trigger] order@[k] < logits@.len(),
            scores@.len() == i,
            forall|k: int|
                0 <= k < i ==> #[trigger] scores@[k] == scaled(logits@, cfg.temp, order@[k]),
        decreases order@.len() - i,
    {
        scores.push(single::product(logits[order[i]], inv));
        i += 1;
    }
    let ghost all = scaled_all(logits@, cfg.temp, order@);
    assert(scores@ =~= all);
    let top: u32 = largest_of(&scores, NEG_INFINITY);
    let mut exponents: Vec<u32> = Vec::new();
    i = 0;
    while i < scores.len()
        invariant
            i <= scores@.len(),
            scores@ == all,
            exponents@.len() == i,
            forall|k: int|
                0 <= k < i ==> #[trigger] exponents@[k] == single::difference_of(all[k], top),
        decreases scores@.len() - i,
    {
        exponents.push(single::difference(scores[i], top));
        i += 1;
    }
    assert(exponents@ =~= Seq::new(order@.len(), |k: int| single::difference_of(all[k], top)));
    Prepared::Weigh { order, exponents }
}

// ---- probabilities ----------------------------------------------------------------------------

/// The sum of the first `n` powers, as doubles.
pub open spec fn total_of(e: Seq<u32>, n: int) -> u64
    decreases n,
{
    if n <= 0 {
        0
    } else {
        double::sum_of(total_of(e, n - 1), double::wide(e[n - 1]))
    }
}

/// The probability of candidate `i`: its power over the sum.
pub open spec fn probability(e: Seq<u32>, i: int) -> u32 {
    double::narrowed(
        double::product_of(
            double::wide(e[i]),
            double::quotient_of(double::ONE, total_of(e, e.len() as int)),
        ),
    )
}

pub open spec fn probabilities(e: Seq<u32>) -> Seq<u32> {
    Seq::new(e.len(), |i: int| probability(e, i))
}

fn to_probabilities(e: &[u32]) -> (r: Vec<u32>)
    ensures
        r@ == probabilities(e@),
{
    let n: usize = e.len();
    let mut total: u64 = 0;
    let mut i: usize = 0;
    while i < n
        invariant
            i <= n,
            n == e@.len(),
            total == total_of(e@, i as int),
        decreases n - i,
    {
        total = double::sum(total, double::widen(e[i]));
        i += 1;
    }
    let inv: u64 = double::quotient(double::ONE, total);
    let mut out: Vec<u32> = Vec::new();
    i = 0;
    while i < n
        invariant
            i <= n,
            n == e@.len(),
            inv == double::quotient_of(double::ONE, total_of(e@, n as int)),
            out@.len() == i,
            forall|k: int| 0 <= k < i ==> #[trigger] out@[k] == probability(e@, k),
        decreases n - i,
    {
        out.push(double::narrow(double::product(double::widen(e[i]), inv)));
        i += 1;
    }
    assert(out@ =~= probabilities(e@));
    out
}

/// The candidates that stay: those far below the best go where the configuration says so.
pub open spec fn likely(p: Seq<u32>, cfg: SamplerConfig) -> Seq<usize> {
    if cfg.cuts_low() {
        sampler::kept_from(
            p,
            single::product_of(cfg.min_p, largest(p, 0, p.len() as int)),
            0,
        )
    } else {
        Seq::new(p.len(), |i: int| i as usize)
    }
}

fn keep_likely(p: &Vec<u32>, cfg: &SamplerConfig) -> (r: Vec<usize>)
    ensures
        r@ == likely(p@, *cfg),
{
    if cfg.drops_unlikely() {
        let top: u32 = largest_of(p, 0);
        return sampler::keep_at_least(p.as_slice(), single::product(cfg.min_p, top));
    }
    let n: usize = p.len();
    let mut all: Vec<usize> = Vec::new();
    let mut i: usize = 0;
    while i < n
        invariant
            i <= n,
            n == p@.len(),
            all@ == Seq::new(i as nat, |k: int| k as usize),
        decreases n - i,
    {
        all.push(i);
        i += 1;
        assert(all@ =~= Seq::new(i as nat, |k: int| k as usize));
    }
    all
}

// ---- order of probability ---------------------------------------------------------------------

/// Puts `x` behind everything that is not less likely.
pub open spec fn inserted(p: Seq<u32>, s: Seq<usize>, x: usize) -> Seq<usize>
    decreases s.len(),
{
    if s.len() > 0 && sampler::less(p[s.last() as int], p[x as int]) {
        inserted(p, s.drop_last(), x).push(s.last())
    } else {
        s.push(x)
    }
}

/// The first `n` of the candidates, the likeliest in front; equally likely ones stay in order.
pub open spec fn likeliest_first(p: Seq<u32>, s: Seq<usize>, n: int) -> Seq<usize>
    decreases n,
{
    if n <= 0 {
        Seq::empty()
    } else {
        inserted(p, likeliest_first(p, s, n - 1), s[n - 1])
    }
}

proof fn lemma_inserted(p: Seq<u32>, s: Seq<usize>, k: int, x: usize)
    requires
        0 <= k <= s.len(),
        forall|i: int|
            k <= i < s.len() ==> sampler::less(p[#[trigger] s[i] as int], p[x as int]),
        k > 0 ==> !sampler::less(p[s[k - 1] as int], p[x as int]),
    ensures
        inserted(p, s, x) == s.insert(k, x),
    decreases s.len(),
{
    if k < s.len() {
        let t = s.drop_last();
        assert(s[s.len() - 1] == s.last());
        assert forall|i: int| k <= i < t.len() implies sampler::less(
            p[#[trigger] t[i] as int],
            p[x as int],
        ) by {
            assert(t[i] == s[i]);
        }
        lemma_inserted(p, t, k, x);
        assert(t.insert(k, x).push(s.last()) =~= s.insert(k, x));
    } else {
        if s.len() > 0 {
            assert(s.last() == s[k - 1]);
        }
        assert(s.push(x) =~= s.insert(k, x));
    }
}

fn sort_likely(p: &Vec<u32>, s: &Vec<usize>) -> (r: Vec<usize>)
    requires
        forall|i: int| 0 <= i < s@.len() ==> #[trigger] s@[i] < p@.len(),
    ensures
        r@ == likeliest_first(p@, s@, s@.len() as int),
        r@.len() == s@.len(),
        forall|i: int| 0 <= i < r@.len() ==> #[trigger] r@[i] < p@.len(),
{
    let n: usize = s.len();
    let mut out: Vec<usize> = Vec::new();
    let mut i: usize = 0;
    while i < n
        invariant
            i <= n,
            n == s@.len(),
            forall|k: int| 0 <= k < n ==> #[trigger] s@[k] < p@.len(),
            out@.len() == i,
            out@ == likeliest_first(p@, s@, i as int),
            forall|k: int| 0 <= k < i ==> #[trigger] out@[k] < p@.len(),
        decreases n - i,
    {
        let x: usize = s[i];
        let ghost before = out@;
        let mut k: usize = i;
        while k > 0 && sampler::single_less(p[out[k - 1]], p[x])
            invariant
                k <= i,
                out@ == before,
                before.len() == i,
                x < p@.len(),
                forall|j: int| 0 <= j < i ==> #[trigger] before[j] < p@.len(),
                forall|j: int|
                    k <= j < i ==> sampler::less(p@[#[trigger] before[j] as int], p@[x as int]),
            decreases k,
        {
            k -= 1;
        }
        proof {
            lemma_inserted(p@, before, k as int, x);
        }
        out.insert(k, x);
        proof {
            assert forall|j: int| 0 <= j < i + 1 implies #[trigger] out@[j] < p@.len() by {
                if j < k {
                    assert(out@[j] == before[j]);
                } else if j > k {
                    assert(out@[j] == before[j - 1]);
                }
            }
        }
        i += 1;
    }
    out
}

/// A place that is listed before another, where the second is no less likely, is as likely.
pub proof fn law_likeliest_first(p: Seq<u32>, s: Seq<usize>, n: int, i: int, j: int)
    requires
        0 <= n <= s.len(),
        0 <= i < j < n,
        forall|k: int| 0 <= k < n ==> sampler::place(p[#[trigger] s[k] as int]) is Some,
    ensures
        likeliest_first(p, s, n).len() == n,
        !sampler::less(
            p[likeliest_first(p, s, n)[i] as int],
            p[likeliest_first(p, s, n)[j] as int],
        ),
{
    lemma_sorted(p, s, n);
    let t = likeliest_first(p, s, n);
    assert(in_order(p, t));
    assert(!sampler::less(p[t[i] as int], p[t[j] as int]));
}

/// No place is followed by a likelier one, and all have a probability.
spec fn in_order(p: Seq<u32>, t: Seq<usize>) -> bool {
    &&& forall|i: int, j: int|
        0 <= i < j < t.len() ==> !sampler::less(p[#[trigger] t[i] as int], p[#[trigger] t[j] as int])
    &&& forall|k: int| 0 <= k < t.len() ==> sampler::place(p[#[trigger] t[k] as int]) is Some
}

proof fn lemma_sorted(p: Seq<u32>, s: Seq<usize>, n: int)
    requires
        0 <= n <= s.len(),
        forall|k: int| 0 <= k < n ==> sampler::place(p[#[trigger] s[k] as int]) is Some,
    ensures
        likeliest_first(p, s, n).len() == n,
        in_order(p, likeliest_first(p, s, n)),
    decreases n,
{
    if n > 0 {
        lemma_sorted(p, s, n - 1);
        lemma_insert_keeps(p, likeliest_first(p, s, n - 1), s[n - 1]);
    }
}

proof fn lemma_insert_keeps(p: Seq<u32>, t: Seq<usize>, x: usize)
    requires
        in_order(p, t),
        sampler::place(p[x as int]) is Some,
    ensures
        inserted(p, t, x).len() == t.len() + 1,
        in_order(p, inserted(p, t, x)),
        forall|k: int|
            0 <= k < t.len() + 1 ==> {
                ||| #[trigger] inserted(p, t, x)[k] == x
                ||| t.contains(inserted(p, t, x)[k])
            },
    decreases t.len(),
{
    let r = inserted(p, t, x);
    if t.len() > 0 && sampler::less(p[t.last() as int], p[x as int]) {
        let u = t.drop_last();
        let w = inserted(p, u, x);
        assert(in_order(p, u)) by {
            assert forall|i: int, j: int| 0 <= i < j < u.len() implies !sampler::less(
                p[#[trigger] u[i] as int],
                p[#[trigger] u[j] as int],
            ) by {
                assert(u[i] == t[i] && u[j] == t[j]);
            }
            assert forall|k: int| 0 <= k < u.len() implies sampler::place(
                p[#[trigger] u[k] as int],
            ) is Some by {
                assert(u[k] == t[k]);
            }
        }
        lemma_insert_keeps(p, u, x);
        let last = t.len() - 1;
        assert(t[last] == t.last());
        assert forall|i: int, j: int| 0 <= i < j < r.len() implies !sampler::less(
            p[#[trigger] r[i] as int],
            p[#[trigger] r[j] as int],
        ) by {
            if j < w.len() {
                assert(r[i] == w[i] && r[j] == w[j]);
            } else {
                assert(r[i] == w[i] && r[j] == t.last());
                if w[i] != x {
                    assert(u.contains(w[i]));
                    let k = choose|k: int| 0 <= k < u.len() && u[k] == w[i];
                    assert(t[k] == w[i]);
                    assert(!sampler::less(p[t[k] as int], p[t[last] as int]));
                }
            }
        }
        assert forall|k: int| 0 <= k < r.len() implies sampler::place(
            p[#[trigger] r[k] as int],
        ) is Some by {
            if k < w.len() {
                assert(r[k] == w[k]);
            }
        }
        assert forall|k: int| 0 <= k < t.len() + 1 implies (#[trigger] r[k] == x || t.contains(
            r[k],
        )) by {
            if k < w.len() {
                assert(r[k] == w[k]);
                if w[k] != x {
                    assert(u.contains(w[k]));
                    let l = choose|l: int| 0 <= l < u.len() && u[l] == w[k];
                    assert(t[l] == r[k]);
                }
            } else {
                assert(t[last] == r[k]);
            }
        }
    } else {
        assert(r == t.push(x));
        assert forall|i: int, j: int| 0 <= i < j < r.len() implies !sampler::less(
            p[#[trigger] r[i] as int],
            p[#[trigger] r[j] as int],
        ) by {
            if j < t.len() {
                assert(r[i] == t[i] && r[j] == t[j]);
            } else if i < t.len() - 1 {
                assert(!sampler::less(p[t[i] as int], p[t[t.len() - 1] as int]));
            }
        }
        assert forall|k: int| 0 <= k < t.len() + 1 implies (#[trigger] r[k] == x || t.contains(
            r[k],
        )) by {
            if k < t.len() {
                assert(t[k] == r[k]);
            }
        }
    }
}

// ---- the draw -----------------------------------------------------------------------------------

/// The running sum of probabilities up to candidate `i`.
pub open spec fn running(p: Seq<u32>, s: Seq<usize>, start: u32, n: int) -> u32
    decreases n,
{
    if n <= 0 {
        start
    } else {
        single::sum_of(running(p, s, start, n - 1), p[s[n - 1] as int])
    }
}

/// The running sums of probabilities.
pub open spec fn running_all(p: Seq<u32>, s: Seq<usize>) -> Seq<u32> {
    Seq::new(s.len(), |i: int| running(p, s, 0, i + 1))
}

/// The candidates of the nucleus.
pub open spec fn nucleus_of(p: Seq<u32>, s: Seq<usize>, top_p: u32) -> Seq<usize> {
    s.take(sampler::nucleus(running_all(p, s), top_p, 0))
}

fn cut_to_nucleus(p: &Vec<u32>, s: &mut Vec<usize>, top_p: u32)
    requires
        forall|i: int| 0 <= i < old(s)@.len() ==> #[trigger] old(s)@[i] < p@.len(),
    ensures
        final(s)@ == nucleus_of(p@, old(s)@, top_p),
        0 < old(s)@.len() ==> 0 < final(s)@.len(),
        forall|i: int| 0 <= i < final(s)@.len() ==> #[trigger] final(s)@[i] < p@.len(),
{
    let n: usize = s.len();
    let mut sums: Vec<u32> = Vec::new();
    let mut acc: u32 = 0;
    let mut i: usize = 0;
    while i < n
        invariant
            i <= n,
            n == s@.len(),
            s@ == old(s)@,
            forall|k: int| 0 <= k < n ==> #[trigger] s@[k] < p@.len(),
            acc == running(p@, s@, 0, i as int),
            sums@.len() == i,
            forall|k: int| 0 <= k < i ==> #[trigger] sums@[k] == running(p@, s@, 0, k + 1),
        decreases n - i,
    {
        acc = single::sum(acc, p[s[i]]);
        sums.push(acc);
        i += 1;
    }
    assert(sums@ =~= running_all(p@, s@));
    let k: usize = sampler::nucleus_len(sums.as_slice(), top_p);
    proof {
        lemma_nucleus(sums@, top_p, 0);
    }
    s.truncate(k);
}

proof fn lemma_nucleus(sums: Seq<u32>, top_p: u32, i: int)
    requires
        0 <= i <= sums.len(),
    ensures
        i <= sampler::nucleus(sums, top_p, i) <= sums.len(),
        i < sums.len() ==> i < sampler::nucleus(sums, top_p, i),
    decreases sums.len() - i,
{
    if i < sums.len() && sampler::less(top_p, ONE) && !sampler::at_most(top_p, sums[i]) {
        lemma_nucleus(sums, top_p, i + 1);
    }
}

/// The sum of the first `n` candidates' probabilities, as doubles.
pub open spec fn mass(p: Seq<u32>, s: Seq<usize>, n: int) -> u64
    decreases n,
{
    if n <= 0 {
        0
    } else {
        double::sum_of(mass(p, s, n - 1), double::wide(p[s[n - 1] as int]))
    }
}

/// The first candidate from `i` on whose running sum reaches the draw, else the last.
pub open spec fn falls_on(p: Seq<u32>, s: Seq<usize>, r: u64, i: int) -> int
    decreases s.len() - i,
{
    if i >= s.len() {
        s.len() - 1
    } else if double::at_most(r, mass(p, s, i + 1)) {
        i
    } else {
        falls_on(p, s, r, i + 1)
    }
}

/// The draw that a number between zero and one stands for.
pub open spec fn draw_point(p: Seq<u32>, s: Seq<usize>, u: u64) -> u64 {
    double::product_of(u, double::wide(running(p, s, 0, s.len() as int)))
}

/// The token that a number between zero and one draws from the powers.
pub open spec fn token_drawn(order: Seq<usize>, e: Seq<u32>, cfg: SamplerConfig, u: u64) -> int {
    let p = probabilities(e);
    let kept = likely(p, cfg);
    if kept.len() == 0 {
        order[0] as int
    } else {
        let s = nucleus_of(p, likeliest_first(p, kept, kept.len() as int), cfg.top_p);
        order[s[falls_on(p, s, draw_point(p, s, u), 0)] as int] as int
    }
}

/// A draw uses the generator unless nothing is likely.
pub open spec fn draws(e: Seq<u32>, cfg: SamplerConfig) -> bool {
    likely(probabilities(e), cfg).len() > 0
}

proof fn lemma_kept_range(p: Seq<u32>, cutoff: u32, i: int)
    requires
        0 <= i <= p.len(),
        p.len() <= usize::MAX,
    ensures
        forall|k: int|
            0 <= k < sampler::kept_from(p, cutoff, i).len() ==> (#[trigger] sampler::kept_from(
                p,
                cutoff,
                i,
            )[k]) < p.len(),
    decreases p.len() - i,
{
    if i < p.len() {
        lemma_kept_range(p, cutoff, i + 1);
        let rest = sampler::kept_from(p, cutoff, i + 1);
        let all = sampler::kept_from(p, cutoff, i);
        assert forall|k: int| 0 <= k < all.len() implies #[trigger] all[k] < p.len() by {
            if sampler::at_most(cutoff, p[i]) {
                if k > 0 {
                    assert(all[k] == rest[k - 1]);
                }
            } else {
                assert(all == rest);
            }
        }
    }
}

proof fn lemma_falls(p: Seq<u32>, s: Seq<usize>, r: u64, i: int)
    requires
        0 <= i <= s.len(),
        s.len() > 0,
    ensures
        0 <= falls_on(p, s, r, i) < s.len(),
    decreases s.len() - i,
{
    if i < s.len() && !double::at_most(r, mass(p, s, i + 1)) {
        lemma_falls(p, s, r, i + 1);
    }
}

impl Sampler {
    /// Draws a token: the powers become probabilities, unlikely candidates go, the likeliest are
    /// taken up to the share, and the next random number falls on one of them.
    pub fn sample(&mut self, order: &Vec<usize>, powers: &[u32], cfg: &SamplerConfig) -> (r: i32)
        requires
            order@.len() == powers@.len(),
            order@.len() > 0,
            forall|i: int| 0 <= i < order@.len() ==> #[trigger] order@[i] <= 0x7FFF_FFFF,
        ensures
            draws(powers@, *cfg) ==> exists|u: u64|
                #[trigger] random_unit(old(self).rng.0, u) && r == token_drawn(
                    order@,
                    powers@,
                    *cfg,
                    u,
                ) && final(self).rng.0 == crate::kvquant::splitmix_state(old(self).rng.0),
            !draws(powers@, *cfg) ==> r == order@[0] && *final(self) == *old(self),
            exists|i: int| 0 <= i < order@.len() && r == #[trigger] order@[i],
    {
        let p: Vec<u32> = to_probabilities(powers);
        let kept: Vec<usize> = keep_likely(&p, cfg);
        if kept.len() == 0 {
            return order[0] as i32;
        }
        let size: usize = p.len();
        proof {
            if cfg.cuts_low() {
                lemma_kept_range(
                    p@,
                    single::product_of(cfg.min_p, largest(p@, 0, p@.len() as int)),
                    0,
                );
            }
        }
        let mut s: Vec<usize> = sort_likely(&p, &kept);
        cut_to_nucleus(&p, &mut s, cfg.top_p);
        let n: usize = s.len();
        let mut total: u32 = 0;
        let mut i: usize = 0;
        while i < n
            invariant
                i <= n,
                n == s@.len(),
                forall|k: int| 0 <= k < n ==> #[trigger] s@[k] < p@.len(),
                total == running(p@, s@, 0, i as int),
            decreases n - i,
        {
            total = single::sum(total, p[s[i]]);
            i += 1;
        }
        let u: u64 = self.rng.next_f64();
        assert(random_unit(old(self).rng.0, u));
        let point: u64 = double::product(u, double::widen(total));
        let mut acc: u64 = 0;
        i = 0;
        proof {
            lemma_falls(p@, s@, point, 0);
        }
        while i < n
            invariant
                i <= n,
                n == s@.len(),
                n > 0,
                size == p@.len(),
                order@.len() == size,
                forall|k: int| 0 <= k < n ==> #[trigger] s@[k] < p@.len(),
                forall|k: int| 0 <= k < order@.len() ==> #[trigger] order@[k] <= 0x7FFF_FFFF,
                acc == mass(p@, s@, i as int),
                falls_on(p@, s@, point, 0) == falls_on(p@, s@, point, i as int),
                random_unit(old(self).rng.0, u),
                self.rng.0 == crate::kvquant::splitmix_state(old(self).rng.0),
                p@ == probabilities(powers@),
                kept@ == likely(p@, *cfg),
                kept@.len() > 0,
                s@ == nucleus_of(
                    p@,
                    likeliest_first(p@, kept@, kept@.len() as int),
                    cfg.top_p,
                ),
                point == draw_point(p@, s@, u),
            decreases n - i,
        {
            acc = double::sum(acc, double::widen(p[s[i]]));
            if double::double_at_most(point, acc) {
                return order[s[i]] as i32;
            }
            i += 1;
        }
        order[s[n - 1]] as i32
    }
}

/// `u` is the number between zero and one that follows the generator's state.
pub open spec fn random_unit(state: u64, u: u64) -> bool {
    crate::binary::rounds(
        (crate::kvquant::splitmix_output(crate::kvquant::splitmix_state(state)) / 2048) as nat,
        0x20_0000_0000_0000,
        53,
        -1074,
        1024,
        u as int,
    )
}

/// Two samplers in one state draw the same token.
pub proof fn law_state_settles_draw(state: u64, u: u64, w: u64)
    requires
        random_unit(state, u),
        random_unit(state, w),
    ensures
        u == w,
{
    crate::binary::law_rounds_unique(
        (crate::kvquant::splitmix_output(crate::kvquant::splitmix_state(state)) / 2048) as nat,
        0x20_0000_0000_0000,
        53,
        -1074,
        1024,
        u as int,
        w as int,
    );
}

} // verus!
