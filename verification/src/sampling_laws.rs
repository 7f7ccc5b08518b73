//! What a sample comes to, wherever its arithmetic is exact: on whole numbers over powers of two
//! that stay within the bits of a single.

use vstd::prelude::*;

use crate::binary;
use crate::double;
use crate::exact;
use crate::kvquant;
use crate::layer_laws;
use crate::sampler;
use crate::sampler::SamplerConfig;
use crate::sampling;
use crate::sampling::Prepared;
use crate::single;

verus! {

// ---- which places can be drawn ------------------------------------------------------------------

/// Zero is zero, in any unit.
proof fn lemma_zero(t: nat)
    requires
        t <= 149,
    ensures
        exact::fixed(0, 0, t),
{
    assert(single::units(0) == 0);
    assert(0 * binary::two((149 - t) as nat) == 0);
}

proof fn lemma_first_best(v: Seq<u32>, vi: Seq<int>, t: nat, n: int) -> (r: int)
    requires
        0 < n <= v.len(),
        v.len() == vi.len(),
        exact::all_fixed(v, vi, t),
    ensures
        0 <= r < n,
        forall|i: int| 0 <= i < n ==> #[trigger] vi[i] <= vi[r],
        forall|i: int| 0 <= i < r ==> #[trigger] vi[i] < vi[r],
    decreases n,
{
    if n == 1 {
        0
    } else {
        let r = lemma_first_best(v, vi, t, n - 1);
        if vi[r] < vi[n - 1] {
            n - 1
        } else {
            r
        }
    }
}

/// At a temperature of zero or less the largest score wins; of equal ones the first.
pub proof fn law_largest_score_wins(
    v: Seq<u32>,
    vi: Seq<int>,
    t: nat,
    cfg: SamplerConfig,
    temp: int,
    g: nat,
    p: Prepared,
)
    requires
        0 < v.len() <= 0x7FFF_FFFF,
        v.len() == vi.len(),
        exact::all_fixed(v, vi, t),
        exact::fixed(cfg.temp, temp, g),
        temp <= 0,
        sampling::prepares(v, cfg, p),
    ensures
        p matches Prepared::Token(r) && 0 <= r < v.len() && (forall|i: int|
            0 <= i < v.len() ==> #[trigger] vi[i] <= vi[r as int]) && (forall|i: int|
            0 <= i < r ==> #[trigger] vi[i] < vi[r as int]),
{
    lemma_zero(g);
    layer_laws::law_order_is_that_of_values(cfg.temp, 0, temp, 0, g);
    let r = lemma_first_best(v, vi, t, v.len() as int);
    assert forall|i: int, j: int| 0 <= i < v.len() && 0 <= j < v.len() implies sampler::less(
        #[trigger] v[i],
        #[trigger] v[j],
    ) == (vi[i] < vi[j]) by {
        assert(exact::fixed(v[i], vi[i], t) && exact::fixed(v[j], vi[j], t));
        layer_laws::law_order_is_that_of_values(v[i], v[j], vi[i], vi[j], t);
    }
    assert(exact::fixed(v[r], vi[r], t));
    assert(sampler::less(sampler::NEG_INFINITY, v[r]));
    assert(sampler::is_argmax(v, r)) by {
        assert forall|i: int| 0 <= i < v.len() implies !sampler::less(v[r], #[trigger] v[i]) by {
            assert(vi[i] <= vi[r]);
        }
        assert forall|i: int| 0 <= i < r implies sampler::less(#[trigger] v[i], v[r]) by {
            assert(vi[i] < vi[r]);
        }
    }
    sampler::lemma_argmax(v, r);
}

/// With a count, that many places can be drawn, and no other has a larger score than any of them,
/// nor the same score and an earlier place. Without one every place can be drawn.
pub proof fn law_best_are_drawn(v: Seq<u32>, vi: Seq<int>, t: nat, top_k: i32, order: Seq<usize>)
    requires
        v.len() <= usize::MAX,
        v.len() == vi.len(),
        exact::all_fixed(v, vi, t),
        sampling::drawable(v, top_k, order),
    ensures
        order.len() == if 0 < top_k < v.len() {
            top_k as int
        } else {
            v.len() as int
        },
        forall|i: int| 0 <= i < order.len() ==> #[trigger] order[i] < v.len(),
        order.no_duplicates(),
        forall|i: int, x: int|
            #![trigger order[i], vi[x]]
            0 <= i < order.len() && 0 <= x < v.len() && !order.contains(x as usize) ==> vi[order[i] as int]
                > vi[x] || vi[order[i] as int] == vi[x] && order[i] < x,
{
    assert forall|i: int, j: int| 0 <= i < v.len() && 0 <= j < v.len() implies (sampler::place(
        #[trigger] v[i],
    ) is Some && (sampler::place(v[i])->0 < sampler::place(#[trigger] v[j])->0) == (vi[i] < vi[j]))
        by {
        assert(exact::fixed(v[i], vi[i], t) && exact::fixed(v[j], vi[j], t));
        layer_laws::law_order_is_that_of_values(v[i], v[j], vi[i], vi[j], t);
    }
    if 0 < top_k < v.len() {
        assert forall|i: int, j: int|
            0 <= i < order.len() && 0 <= j < order.len() && i != j implies order[i] != order[j] by {
            if i < j {
                assert(sampler::ranks_before(v, order[i] as int, order[j] as int));
            } else {
                assert(sampler::ranks_before(v, order[j] as int, order[i] as int));
            }
        }
        assert forall|i: int, x: int|
            #![trigger order[i], vi[x]]
            0 <= i < order.len() && 0 <= x < v.len() && !order.contains(x as usize) implies vi[order[i] as int]
            > vi[x] || vi[order[i] as int] == vi[x] && order[i] < x by {
            if sampler::listed(order, x) {
                let k = choose|k: int| 0 <= k < order.len() && #[trigger] order[k] == x;
                assert(order[k] == x as usize);
                assert(order.contains(x as usize));
            }
            assert(sampler::outranked(v, order, x));
            assert(sampler::ranks_before(v, order[i] as int, x));
            assert(v[order[i] as int] == v[order[i] as int] && v[x] == v[x]);
        }
    } else {
        assert forall|i: int, x: int|
            #![trigger order[i], vi[x]]
            0 <= i < order.len() && 0 <= x < v.len() && !order.contains(x as usize) implies vi[order[i] as int]
            > vi[x] || vi[order[i] as int] == vi[x] && order[i] < x by {
            assert(order[x] == x as usize);
        }
    }
}

/// At a temperature above zero each place that can be drawn has an exponent. Times the
/// temperature it is the place's score less the largest one; `n` are the exponents, and the
/// largest score has place `k`.
pub proof fn law_exponents_times_temperature(
    v: Seq<u32>,
    vi: Seq<int>,
    t: nat,
    cfg: SamplerConfig,
    temp: int,
    g: nat,
    q: int,
    e: nat,
    p: Prepared,
) -> (r: (Seq<int>, int))
    requires
        0 < v.len() <= 0x7FFF_FFFF,
        v.len() == vi.len(),
        exact::all_fixed(v, vi, t),
        exact::fixed(cfg.temp, temp, g),
        temp > 0,
        q * temp == binary::two(g + e),
        exact::within(q),
        t + e <= 149,
        forall|i: int| 0 <= i < v.len() ==> exact::within(#[trigger] vi[i] * q),
        forall|i: int, j: int|
            0 <= i < v.len() && 0 <= j < v.len() ==> exact::within(
                #[trigger] vi[i] * q - #[trigger] vi[j] * q,
            ),
        sampling::prepares(v, cfg, p),
    ensures
        p is Weigh,
        sampling::drawable(v, cfg.top_k, p->order@),
        p->exponents@.len() == p->order@.len() == r.0.len(),
        0 <= r.1 < p->order@.len(),
        exact::all_fixed(p->exponents@, r.0, t + e),
        forall|i: int|
            #![trigger r.0[i]]
            0 <= i < r.0.len() ==> r.0[i] <= 0 && r.0[i] * temp == (vi[p->order@[i] as int]
                - vi[p->order@[r.1] as int]) * binary::two(g + e),
        r.0[r.1] == 0,
{
    lemma_zero(g);
    layer_laws::law_order_is_that_of_values(cfg.temp, 0, temp, 0, g);
    let order = p->order@;
    law_best_are_drawn(v, vi, t, cfg.top_k, order);
    exact::law_one_is_exact();
    let z = binary::two(g + e);
    assert(1 * z == (q * temp) * binary::two(0)) by {
        assert(binary::two(0) == 1);
        assert((q * temp) * 1 == q * temp);
    }
    exact::law_quotient_is_exact(sampler::ONE, cfg.temp, 1, temp, q, 0, g, e);
    let s = sampling::scaled_all(v, cfg.temp, order);
    let si = Seq::new(order.len(), |i: int| vi[order[i] as int] * q);
    assert forall|i: int| 0 <= i < s.len() implies exact::fixed(#[trigger] s[i], si[i], t + e) by {
        let x = order[i] as int;
        assert(x < v.len());
        assert(exact::fixed(v[x], vi[x], t));
        assert(exact::within(vi[x] * q));
        exact::law_product_is_exact(
            v[x],
            single::quotient_of(sampler::ONE, cfg.temp),
            vi[x],
            q,
            t,
            e,
        );
    }
    let k = layer_laws::lemma_largest(s, si, t + e, s.len() as int);
    let n = Seq::new(order.len(), |i: int| si[i] - si[k]);
    let ex = p->exponents@;
    assert forall|i: int| 0 <= i < ex.len() implies exact::fixed(#[trigger] ex[i], n[i], t + e) by {
        assert(exact::fixed(s[i], si[i], t + e) && exact::fixed(s[k], si[k], t + e));
        assert(order[i] < v.len() && order[k] < v.len());
        assert(exact::within(vi[order[i] as int] * q - vi[order[k] as int] * q));
        exact::law_difference_is_exact(s[i], s[k], si[i], si[k], t + e);
    }
    assert forall|i: int|
        #![trigger n[i]]
        0 <= i < n.len() implies n[i] <= 0 && n[i] * temp == (vi[order[i] as int]
        - vi[order[k] as int]) * binary::two(g + e) by {
        assert(si[i] <= si[k]);
        let (a, b) = (vi[order[i] as int], vi[order[k] as int]);
        assert((a * q - b * q) * temp == (a - b) * (q * temp)) by (nonlinear_arith);
    }
    (n, k)
}

// ---- probabilities ------------------------------------------------------------------------------

/// Probabilities are powers over their sum, and make up one: with the sum at two to the power `p`,
/// in the units of the powers, each is its power over that.
pub proof fn law_probabilities_make_one(e: Seq<u32>, ei: Seq<int>, t: nat, p: nat) -> (n: Seq<int>)
    requires
        e.len() == ei.len(),
        exact::all_fixed(e, ei, t),
        t + p <= 149,
        forall|i: int|
            0 <= i < e.len() ==> exact::within(#[trigger] ei[i]) && exact::within(
                ei[i] * binary::two(t),
            ),
        forall|i: int|
            0 <= i <= e.len() ==> exact::within_double(#[trigger] layer_laws::sum(ei, i)),
        layer_laws::sum(ei, e.len() as int) == binary::two(p),
        exact::within(binary::two(t) as int),
    ensures
        n.len() == e.len(),
        exact::all_fixed(sampling::probabilities(e), n, t + p),
        forall|i: int| 0 <= i < e.len() ==> #[trigger] n[i] == ei[i] * binary::two(t),
        layer_laws::sum(n, e.len() as int) == binary::two(t + p),
{
    let len = e.len() as int;
    let (zt, zp) = (binary::two(t) as int, binary::two(p) as int);
    binary::lemma_two_adds(t, p);
    binary::lemma_two_adds(p, 0);
    layer_laws::lemma_total(e, ei, t, len);
    let total = sampling::total_of(e, len);
    exact::law_double_one_is_exact();
    let v = zt * zp;
    assert(1 * binary::two(t + p) == v * binary::two(0)) by {
        assert(binary::two(0) == 1);
        assert(v * 1 == v);
    }
    exact::law_double_quotient_is_exact(double::ONE, total, 1, zp, zt, 0, t, p);
    let inv = double::quotient_of(double::ONE, total);
    let n = Seq::new(e.len(), |i: int| ei[i] * zt);
    let s = sampling::probabilities(e);
    assert forall|i: int| 0 <= i < s.len() implies exact::fixed(#[trigger] s[i], n[i], t + p) by {
        assert(exact::within(ei[i]) && exact::fixed(e[i], ei[i], t));
        exact::law_widening_is_exact(e[i], ei[i], t);
        exact::law_double_product_is_exact(double::wide(e[i]), inv, ei[i], zt, t, p);
        exact::law_narrowing_is_exact(
            double::product_of(double::wide(e[i]), inv),
            ei[i] * zt,
            t + p,
        );
    }
    layer_laws::lemma_sum_times(n, ei, zt, len);
    assert(zp * zt == zt * zp) by (nonlinear_arith);
    n
}

proof fn lemma_top(p: Seq<u32>, pi: Seq<int>, t: nat, n: int) -> (m: int)
    requires
        0 <= n <= p.len(),
        p.len() == pi.len(),
        t <= 149,
        exact::all_fixed(p, pi, t),
    ensures
        exact::fixed(sampling::largest(p, 0, n), m, t),
        forall|i: int| 0 <= i < n ==> #[trigger] pi[i] <= m,
        m == 0 || exists|i: int| 0 <= i < n && #[trigger] pi[i] == m,
        m >= 0,
    decreases n,
{
    if n == 0 {
        lemma_zero(t);
        0
    } else {
        let m = lemma_top(p, pi, t, n - 1);
        assert(exact::fixed(p[n - 1], pi[n - 1], t));
        layer_laws::law_order_is_that_of_values(
            sampling::largest(p, 0, n - 1),
            p[n - 1],
            m,
            pi[n - 1],
            t,
        );
        if m < pi[n - 1] {
            pi[n - 1]
        } else {
            m
        }
    }
}

proof fn lemma_kept(p: Seq<u32>, cutoff: u32, from: int)
    requires
        0 <= from <= p.len() <= usize::MAX,
    ensures
        forall|k: int|
            0 <= k < sampler::kept_from(p, cutoff, from).len() ==> from <= (
            #[trigger] sampler::kept_from(p, cutoff, from)[k]) < p.len(),
        forall|i: int, j: int|
            0 <= i < j < sampler::kept_from(p, cutoff, from).len() ==> (
            #[trigger] sampler::kept_from(p, cutoff, from)[i]) < (#[trigger] sampler::kept_from(
                p,
                cutoff,
                from,
            )[j]),
        forall|x: usize| #[trigger]
            sampler::kept_from(p, cutoff, from).contains(x) <==> from <= x < p.len()
                && sampler::at_most(cutoff, p[x as int]),
    decreases p.len() - from,
{
    let all = sampler::kept_from(p, cutoff, from);
    if from < p.len() {
        lemma_kept(p, cutoff, from + 1);
        let rest = sampler::kept_from(p, cutoff, from + 1);
        if sampler::at_most(cutoff, p[from]) {
            assert(all == seq![from as usize] + rest);
            assert forall|k: int| 0 <= k < all.len() implies from <= #[trigger] all[k] < p.len() by {
                if k > 0 {
                    assert(all[k] == rest[k - 1]);
                }
            }
            assert forall|i: int, j: int| 0 <= i < j < all.len() implies #[trigger] all[i]
                < #[trigger] all[j] by {
                assert(all[j] == rest[j - 1]);
                if i > 0 {
                    assert(all[i] == rest[i - 1]);
                }
            }
            assert forall|x: usize| #[trigger] all.contains(x) <==> from <= x < p.len()
                && sampler::at_most(cutoff, p[x as int]) by {
                if all.contains(x) {
                    let k = choose|k: int| 0 <= k < all.len() && all[k] == x;
                    if k > 0 {
                        assert(rest[k - 1] == x);
                        assert(rest.contains(x));
                    }
                } else if x == from {
                    assert(all[0] == x);
                } else if rest.contains(x) {
                    let k = choose|k: int| 0 <= k < rest.len() && rest[k] == x;
                    assert(all[k + 1] == x);
                }
            }
        } else {
            assert(all == rest);
            assert forall|x: usize| #[trigger] all.contains(x) <==> from <= x < p.len()
                && sampler::at_most(cutoff, p[x as int]) by {
                assert(all.contains(x) == rest.contains(x));
            }
        }
    } else {
        assert(all == Seq::<usize>::empty());
    }
}

/// A share `mi` over two to the power `g` of the best probability, if it is between zero and one,
/// is what a candidate needs to stay. The candidates that stay do so in order.
pub proof fn law_likely_stay(
    p: Seq<u32>,
    pi: Seq<int>,
    t: nat,
    cfg: SamplerConfig,
    mi: int,
    g: nat,
    best: int,
)
    requires
        p.len() <= usize::MAX,
        p.len() == pi.len(),
        exact::all_fixed(p, pi, t),
        exact::fixed(cfg.min_p, mi, g),
        t + g <= 149,
        0 <= best < p.len(),
        pi[best] >= 0,
        forall|i: int| 0 <= i < p.len() ==> #[trigger] pi[i] <= pi[best],
        exact::within(mi * pi[best]),
    ensures
        forall|x: usize| #[trigger]
            sampling::likely(p, cfg).contains(x) <==> x < p.len() && (0 < mi < binary::two(g)
                ==> mi * pi[best] <= pi[x as int] * binary::two(g)),
        forall|i: int, j: int|
            0 <= i < j < sampling::likely(p, cfg).len() ==> (#[trigger] sampling::likely(
                p,
                cfg,
            )[i]) < (#[trigger] sampling::likely(p, cfg)[j]),
{
    let zg = binary::two(g) as int;
    lemma_zero(g);
    layer_laws::law_order_is_that_of_values(0, cfg.min_p, 0, mi, g);
    exact::law_one_is_exact();
    exact::law_finer(sampler::ONE, 1, 0, g);
    assert(1 * zg == zg);
    layer_laws::law_order_is_that_of_values(cfg.min_p, sampler::ONE, mi, zg, g);
    let kept = sampling::likely(p, cfg);
    if cfg.cuts_low() {
        assert(exact::fixed(p[best], pi[best], t));
        let m = lemma_top(p, pi, t, p.len() as int);
        assert(m == pi[best]);
        let top = sampling::largest(p, 0, p.len() as int);
        exact::law_product_is_exact(cfg.min_p, top, mi, m, g, t);
        let cutoff = single::product_of(cfg.min_p, top);
        lemma_kept(p, cutoff, 0);
        assert forall|x: usize| #[trigger] kept.contains(x) <==> x < p.len() && (0 < mi < zg ==> mi
            * pi[best] <= pi[x as int] * zg) by {
            if x < p.len() {
                assert(exact::fixed(p[x as int], pi[x as int], t));
                exact::law_finer(p[x as int], pi[x as int], t, g);
                layer_laws::law_order_is_that_of_values(
                    cutoff,
                    p[x as int],
                    mi * m,
                    pi[x as int] * zg,
                    t + g,
                );
            }
        }
    } else {
        assert forall|x: usize| #[trigger] kept.contains(x) <==> x < p.len() by {
            if x < p.len() {
                assert(kept[x as int] == x);
            }
        }
    }
}

// ---- the nucleus and the draw -----------------------------------------------------------------

/// The probabilities of the candidates in a list.
pub open spec fn of_list(pi: Seq<int>, s: Seq<usize>) -> Seq<int> {
    Seq::new(s.len(), |i: int| pi[s[i] as int])
}

proof fn lemma_running(p: Seq<u32>, pi: Seq<int>, t: nat, s: Seq<usize>, n: int)
    requires
        0 <= n <= s.len(),
        p.len() == pi.len(),
        t <= 149,
        exact::all_fixed(p, pi, t),
        forall|i: int| 0 <= i < s.len() ==> #[trigger] s[i] < p.len(),
        forall|i: int| 0 <= i < p.len() ==> exact::within(#[trigger] pi[i]),
        forall|i: int|
            0 <= i <= s.len() ==> exact::within(#[trigger] layer_laws::sum(of_list(pi, s), i)),
    ensures
        exact::fixed(sampling::running(p, s, 0, n), layer_laws::sum(of_list(pi, s), n), t),
        exact::fixed_double(sampling::mass(p, s, n), layer_laws::sum(of_list(pi, s), n), t),
    decreases n,
{
    if n == 0 {
        lemma_zero(t);
        assert(0 * binary::two((1074 - t) as nat) == 0);
        assert(double::units(0) == 0);
    } else {
        lemma_running(p, pi, t, s, n - 1);
        let x = s[n - 1] as int;
        let l = of_list(pi, s);
        assert(s[n - 1] < p.len());
        assert(exact::fixed(p[x], pi[x], t) && exact::within(pi[x]));
        assert(exact::within(layer_laws::sum(l, n)));
        exact::law_sum_is_exact(
            sampling::running(p, s, 0, n - 1),
            p[x],
            layer_laws::sum(l, n - 1),
            pi[x],
            t,
        );
        exact::law_widening_is_exact(p[x], pi[x], t);
        exact::law_double_sum_is_exact(
            sampling::mass(p, s, n - 1),
            double::wide(p[x]),
            layer_laws::sum(l, n - 1),
            pi[x],
            t,
        );
    }
}

proof fn lemma_nucleus_at(sums: Seq<u32>, top_p: u32, i: int)
    requires
        0 <= i <= sums.len(),
    ensures
        i <= sampler::nucleus(sums, top_p, i) <= sums.len(),
        i < sums.len() ==> i < sampler::nucleus(sums, top_p, i),
        sampler::less(top_p, sampler::ONE) ==> forall|j: int|
            i <= j < sampler::nucleus(sums, top_p, i) - 1 ==> !sampler::at_most(
                top_p,
                #[trigger] sums[j],
            ),
        sampler::less(top_p, sampler::ONE) && i < sampler::nucleus(sums, top_p, i) < sums.len()
            ==> sampler::at_most(top_p, sums[sampler::nucleus(sums, top_p, i) - 1]),
        !sampler::less(top_p, sampler::ONE) ==> sampler::nucleus(sums, top_p, i) == sums.len(),
    decreases sums.len() - i,
{
    if i < sums.len() && sampler::less(top_p, sampler::ONE) && !sampler::at_most(top_p, sums[i]) {
        lemma_nucleus_at(sums, top_p, i + 1);
    }
}

/// The nucleus is the shortest front of the list whose probabilities reach the share; the whole
/// list where the share is one or more, or is not reached.
pub proof fn law_nucleus_reaches_the_share(
    p: Seq<u32>,
    pi: Seq<int>,
    t: nat,
    s: Seq<usize>,
    top_p: u32,
    share: int,
) -> (k: int)
    requires
        s.len() > 0,
        p.len() == pi.len(),
        exact::all_fixed(p, pi, t),
        exact::fixed(top_p, share, t),
        forall|i: int| 0 <= i < s.len() ==> #[trigger] s[i] < p.len(),
        forall|i: int| 0 <= i < p.len() ==> exact::within(#[trigger] pi[i]),
        forall|i: int|
            0 <= i <= s.len() ==> exact::within(#[trigger] layer_laws::sum(of_list(pi, s), i)),
    ensures
        0 < k <= s.len(),
        sampling::nucleus_of(p, s, top_p) == s.take(k),
        share < binary::two(t) ==> forall|j: int|
            0 < j < k ==> #[trigger] layer_laws::sum(of_list(pi, s), j) < share,
        k < s.len() ==> share <= layer_laws::sum(of_list(pi, s), k),
        share >= binary::two(t) ==> k == s.len(),
{
    let zt = binary::two(t) as int;
    exact::law_one_is_exact();
    exact::law_finer(sampler::ONE, 1, 0, t);
    assert(1 * zt == zt);
    layer_laws::law_order_is_that_of_values(top_p, sampler::ONE, share, zt, t);
    let sums = sampling::running_all(p, s);
    let l = of_list(pi, s);
    lemma_nucleus_at(sums, top_p, 0);
    let k = sampler::nucleus(sums, top_p, 0);
    assert forall|j: int| 0 < j <= s.len() implies sampler::at_most(
        top_p,
        #[trigger] sums[j - 1],
    ) == (share <= layer_laws::sum(l, j)) by {
        lemma_running(p, pi, t, s, j);
        layer_laws::law_order_is_that_of_values(
            top_p,
            sums[j - 1],
            share,
            layer_laws::sum(l, j),
            t,
        );
    }
    if share < zt {
        assert forall|j: int| 0 < j < k implies #[trigger] layer_laws::sum(l, j) < share by {
            assert(!sampler::at_most(top_p, sums[j - 1]));
        }
    }
    k
}

proof fn lemma_falls_at(p: Seq<u32>, s: Seq<usize>, r: u64, i: int)
    requires
        0 <= i <= s.len(),
        s.len() > 0,
    ensures
        0 <= sampling::falls_on(p, s, r, i) < s.len(),
        i < s.len() ==> i <= sampling::falls_on(p, s, r, i),
        forall|j: int|
            i <= j < sampling::falls_on(p, s, r, i) ==> !double::at_most(
                r,
                #[trigger] sampling::mass(p, s, j + 1),
            ),
        i <= sampling::falls_on(p, s, r, i) < s.len() - 1 ==> double::at_most(
            r,
            sampling::mass(p, s, sampling::falls_on(p, s, r, i) + 1),
        ),
    decreases s.len() - i,
{
    if i < s.len() && !double::at_most(r, sampling::mass(p, s, i + 1)) {
        lemma_falls_at(p, s, r, i + 1);
    }
}

/// A number `ui` over two to the power `h` falls on the first candidate of the list at which the
/// running probability reaches that part of the whole.
pub proof fn law_draw_reaches_its_part(
    p: Seq<u32>,
    pi: Seq<int>,
    t: nat,
    s: Seq<usize>,
    u: u64,
    ui: int,
    h: nat,
) -> (f: int)
    requires
        s.len() > 0,
        p.len() == pi.len(),
        exact::all_fixed(p, pi, t),
        exact::fixed_double(u, ui, h),
        h + t <= 1074,
        t <= 149,
        forall|i: int| 0 <= i < s.len() ==> #[trigger] s[i] < p.len(),
        forall|i: int| 0 <= i < p.len() ==> exact::within(#[trigger] pi[i]),
        forall|i: int|
            0 <= i <= s.len() ==> exact::within(#[trigger] layer_laws::sum(of_list(pi, s), i)),
        exact::within_double(ui * layer_laws::sum(of_list(pi, s), s.len() as int)),
    ensures
        0 <= f < s.len(),
        sampling::falls_on(p, s, sampling::draw_point(p, s, u), 0) == f,
        forall|j: int|
            0 < j <= f ==> #[trigger] layer_laws::sum(of_list(pi, s), j) * binary::two(h) < ui
                * layer_laws::sum(of_list(pi, s), s.len() as int),
        f < s.len() - 1 ==> ui * layer_laws::sum(of_list(pi, s), s.len() as int)
            <= layer_laws::sum(of_list(pi, s), f + 1) * binary::two(h),
{
    let l = of_list(pi, s);
    let len = s.len() as int;
    let whole = layer_laws::sum(l, len);
    assert(exact::within(layer_laws::sum(l, len)));
    lemma_running(p, pi, t, s, len);
    let total = sampling::running(p, s, 0, len);
    exact::law_widening_is_exact(total, whole, t);
    exact::law_double_product_is_exact(u, double::wide(total), ui, whole, h, t);
    let r = sampling::draw_point(p, s, u);
    lemma_falls_at(p, s, r, 0);
    assert forall|j: int| 0 <= j <= len implies double::at_most(
        r,
        #[trigger] sampling::mass(p, s, j),
    ) == (ui * whole <= layer_laws::sum(l, j) * binary::two(h)) by {
        lemma_running(p, pi, t, s, j);
        exact::law_double_finer(sampling::mass(p, s, j), layer_laws::sum(l, j), t, h);
        exact::law_doubles_are_ordered(
            r,
            sampling::mass(p, s, j),
            ui * whole,
            layer_laws::sum(l, j) * binary::two(h),
            t + h,
        );
    }
    let f = sampling::falls_on(p, s, r, 0);
    assert forall|j: int| 0 < j <= f implies #[trigger] layer_laws::sum(l, j) * binary::two(h) < ui
        * whole by {
        assert(!double::at_most(r, sampling::mass(p, s, (j - 1) + 1)));
    }
    f
}

// ---- the token ----------------------------------------------------------------------------------

proof fn lemma_inserted_members(p: Seq<u32>, s: Seq<usize>, x: usize)
    ensures
        sampling::inserted(p, s, x).to_multiset() == s.to_multiset().insert(x),
    decreases s.len(),
{
    broadcast use vstd::seq_lib::group_to_multiset_ensures;

    if s.len() > 0 && sampler::less(p[s.last() as int], p[x as int]) {
        lemma_inserted_members(p, s.drop_last(), x);
        let rest = sampling::inserted(p, s.drop_last(), x);
        assert(rest.push(s.last()).to_multiset() =~= rest.to_multiset().insert(s.last()));
        assert(s =~= s.drop_last().push(s.last()));
        assert(s.to_multiset() =~= s.drop_last().to_multiset().insert(s.last()));
        assert(rest.to_multiset().insert(s.last()) =~= s.to_multiset().insert(x));
    } else {
        assert(s.push(x).to_multiset() =~= s.to_multiset().insert(x));
    }
}

proof fn lemma_same_members(p: Seq<u32>, s: Seq<usize>, n: int)
    requires
        0 <= n <= s.len(),
    ensures
        sampling::likeliest_first(p, s, n).to_multiset() == s.take(n).to_multiset(),
    decreases n,
{
    broadcast use vstd::seq_lib::group_to_multiset_ensures;

    if n > 0 {
        lemma_same_members(p, s, n - 1);
        lemma_inserted_members(p, sampling::likeliest_first(p, s, n - 1), s[n - 1]);
        assert(s.take(n) =~= s.take(n - 1).push(s[n - 1]));
    } else {
        assert(s.take(0) =~= Seq::<usize>::empty());
    }
}

/// The list of candidates that stay holds each of them once, none before a likelier one.
pub proof fn law_list_is_ordered(p: Seq<u32>, pi: Seq<int>, t: nat, kept: Seq<usize>)
    requires
        p.len() == pi.len(),
        exact::all_fixed(p, pi, t),
        forall|i: int| 0 <= i < kept.len() ==> #[trigger] kept[i] < p.len(),
    ensures
        sampling::likeliest_first(p, kept, kept.len() as int).to_multiset() == kept.to_multiset(),
        sampling::likeliest_first(p, kept, kept.len() as int).len() == kept.len(),
        forall|i: int, j: int|
            0 <= i < j < kept.len() ==> pi[#[trigger] sampling::likeliest_first(
                p,
                kept,
                kept.len() as int,
            )[i] as int] >= pi[#[trigger] sampling::likeliest_first(
                p,
                kept,
                kept.len() as int,
            )[j] as int],
        forall|i: int|
            0 <= i < kept.len() ==> (#[trigger] sampling::likeliest_first(
                p,
                kept,
                kept.len() as int,
            )[i]) < p.len(),
{
    broadcast use vstd::seq_lib::group_to_multiset_ensures;

    let n = kept.len() as int;
    lemma_same_members(p, kept, n);
    assert(kept.take(n) =~= kept);
    let s = sampling::likeliest_first(p, kept, n);
    assert(s.len() == s.to_multiset().len());
    assert(kept.len() == kept.to_multiset().len());
    assert forall|i: int| 0 <= i < n implies #[trigger] s[i] < p.len() by {
        assert(s.contains(s[i]));
        assert(s.to_multiset().contains(s[i]));
        assert(kept.to_multiset().contains(s[i]));
        assert(kept.contains(s[i]));
        let k = choose|k: int| 0 <= k < kept.len() && kept[k] == s[i];
        assert(kept[k] < p.len());
    }
    assert forall|k: int| 0 <= k < n implies sampler::place(p[#[trigger] kept[k] as int]) is Some by {
        let x = kept[k] as int;
        assert(exact::fixed(p[x], pi[x], t));
        layer_laws::law_order_is_that_of_values(p[x], p[x], pi[x], pi[x], t);
    }
    assert forall|i: int, j: int| 0 <= i < j < n implies pi[#[trigger] s[i] as int]
        >= pi[#[trigger] s[j] as int] by {
        sampling::law_likeliest_first(p, kept, n, i, j);
        let (x, y) = (s[i] as int, s[j] as int);
        assert(exact::fixed(p[x], pi[x], t) && exact::fixed(p[y], pi[y], t));
        layer_laws::law_order_is_that_of_values(p[x], p[y], pi[x], pi[y], t);
    }
}

/// A draw goes: of the probabilities those that are likely stay, in the order of `list`; the first
/// `k` of these make up the share; the number falls on candidate `f` of them, whose place in
/// `order` is the token.
pub proof fn law_token_is_drawn(
    order: Seq<usize>,
    e: Seq<u32>,
    pi: Seq<int>,
    t: nat,
    cfg: SamplerConfig,
    share: int,
    u: u64,
    ui: int,
    h: nat,
) -> (r: (Seq<usize>, int, int))
    requires
        order.len() == e.len(),
        e.len() == pi.len(),
        e.len() <= usize::MAX,
        exact::all_fixed(sampling::probabilities(e), pi, t),
        exact::fixed(cfg.top_p, share, t),
        exact::fixed_double(u, ui, h),
        h + t <= 1074,
        sampling::draws(e, cfg),
        forall|i: int| 0 <= i < e.len() ==> exact::within(#[trigger] pi[i]),
        forall|s: Seq<usize>, i: int|
            0 <= i <= s.len() <= e.len() && (forall|j: int|
                0 <= j < s.len() ==> #[trigger] s[j] < e.len()) ==> exact::within(
                #[trigger] layer_laws::sum(of_list(pi, s), i),
            ) && exact::within_double(ui * layer_laws::sum(of_list(pi, s), i)),
    ensures
        r.0.to_multiset() == sampling::likely(sampling::probabilities(e), cfg).to_multiset(),
        forall|i: int| 0 <= i < r.0.len() ==> #[trigger] r.0[i] < e.len(),
        forall|i: int, j: int|
            0 <= i < j < r.0.len() ==> pi[#[trigger] r.0[i] as int] >= pi[#[trigger] r.0[j] as int],
        0 <= r.2 < r.1 <= r.0.len(),
        sampling::token_drawn(order, e, cfg, u) == order[r.0[r.2] as int],
        share < binary::two(t) ==> forall|j: int|
            0 < j < r.1 ==> #[trigger] layer_laws::sum(of_list(pi, r.0), j) < share,
        r.1 < r.0.len() ==> share <= layer_laws::sum(of_list(pi, r.0), r.1),
        share >= binary::two(t) ==> r.1 == r.0.len(),
        forall|j: int|
            0 < j <= r.2 ==> #[trigger] layer_laws::sum(of_list(pi, r.0.take(r.1)), j)
                * binary::two(h) < ui * layer_laws::sum(of_list(pi, r.0.take(r.1)), r.1),
        r.2 < r.1 - 1 ==> ui * layer_laws::sum(of_list(pi, r.0.take(r.1)), r.1) <= layer_laws::sum(
            of_list(pi, r.0.take(r.1)),
            r.2 + 1,
        ) * binary::two(h),
{
    let p = sampling::probabilities(e);
    let kept = sampling::likely(p, cfg);
    if cfg.cuts_low() {
        lemma_kept(
            p,
            single::product_of(cfg.min_p, sampling::largest(p, 0, p.len() as int)),
            0,
        );
        lemma_kept_fits(
            p,
            single::product_of(cfg.min_p, sampling::largest(p, 0, p.len() as int)),
            0,
        );
    }
    assert forall|i: int| 0 <= i < kept.len() implies #[trigger] kept[i] < p.len() by {}
    law_list_is_ordered(p, pi, t, kept);
    let list = sampling::likeliest_first(p, kept, kept.len() as int);
    let k = law_nucleus_reaches_the_share(p, pi, t, list, cfg.top_p, share);
    let s = list.take(k);
    assert forall|i: int| 0 <= i < s.len() implies #[trigger] s[i] < p.len() by {
        assert(s[i] == list[i]);
    }
    let f = law_draw_reaches_its_part(p, pi, t, s, u, ui, h);
    assert(s[f] == list[f]);
    (list, k, f)
}

proof fn lemma_kept_fits(p: Seq<u32>, cutoff: u32, from: int)
    requires
        0 <= from <= p.len(),
    ensures
        sampler::kept_from(p, cutoff, from).len() <= p.len() - from,
    decreases p.len() - from,
{
    if from < p.len() {
        lemma_kept_fits(p, cutoff, from + 1);
    }
}

/// The number that is drawn with is the upper 53 bits of the generator's output, over two to the
/// power 53; unmixed, the output is the state and one increment.
pub proof fn law_number_follows_state(state: u64, u: u64) -> (out: u64)
    requires
        sampling::random_unit(state, u),
    ensures
        kvquant::unmixed(out) as int == (state + 0x9E37_79B9_7F4A_7C15) % 0x1_0000_0000_0000_0000,
        exact::fixed_double(u, out as int / 2048, 53),
        0 <= out as int / 2048 < 0x20_0000_0000_0000,
{
    let out = kvquant::splitmix_output(kvquant::splitmix_state(state));
    kvquant::law_mixing_is_reversible(kvquant::splitmix_state(state));
    kvquant::law_states_step_evenly(state, 1);
    reveal_with_fuel(kvquant::splitmix_after, 2);
    binary::lemma_two_52();
    binary::lemma_two_adds(52, 1);
    assert(binary::two(1) == 2) by {
        reveal_with_fuel(binary::two, 2);
    }
    exact::law_fraction_is_exact((out / 2048) as nat, 53, u);
    out
}

} // verus!
