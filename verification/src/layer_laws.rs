//! What the parts of a layer compute, wherever their arithmetic is exact: on whole numbers over
//! powers of two that stay within the bits of a single.

use vstd::prelude::*;

use crate::attn_layer;
use crate::binary;
use crate::config::Qwen35;
use crate::dots;
use crate::double;
use crate::exact;
use crate::forward;
use crate::layers;
use crate::norms;
use crate::root;
use crate::rope;
use crate::sampler;
use crate::sampling;
use crate::sheets;
use crate::single;

verus! {

// ---- order ------------------------------------------------------------------------------------

/// Singles are ordered as their values are.
pub proof fn law_order_is_that_of_values(a: u32, b: u32, x: int, y: int, t: nat)
    requires
        exact::fixed(a, x, t),
        exact::fixed(b, y, t),
    ensures
        sampler::place(a) is Some,
        sampler::place(b) is Some,
        sampler::less(a, b) == (x < y),
        sampler::at_most(a, b) == (x <= y),
{
    let z = binary::two((149 - t) as nat) as int;
    binary::lemma_two_adds((149 - t) as nat, 0);
    assert((x * z < y * z) == (x < y) && (x * z == y * z) == (x == y)) by (nonlinear_arith)
        requires
            z > 0,
    ;
    let (m, n) = (single::mag(a), single::mag(b));
    if m < n {
        root::lemma_units_monotone(m + 1, n);
        root::lemma_units_grow(m);
    } else if n < m {
        root::lemma_units_monotone(n + 1, m);
        root::lemma_units_grow(n);
    }
    root::lemma_units_monotone(0, m);
    root::lemma_units_monotone(0, n);
    if m > 0 {
        root::lemma_units_monotone(1, m);
    }
    if n > 0 {
        root::lemma_units_monotone(1, n);
    }
}

// ---- rotations --------------------------------------------------------------------------------

/// A turned pair has the angle's cosine along the pair, and its sine across it, both times the
/// square of the pair's length. So a turn by an angle of length one keeps the length.
pub proof fn law_pair_is_turned(
    x0: u32,
    x1: u32,
    cos: u32,
    sin: u32,
    a: int,
    b: int,
    c: int,
    s: int,
    t: nat,
    g: nat,
) -> (r: (int, int))
    requires
        exact::fixed(x0, a, t),
        exact::fixed(x1, b, t),
        exact::fixed(cos, c, g),
        exact::fixed(sin, s, g),
        t + g <= 149,
        exact::within(a * c) && exact::within(b * s) && exact::within(a * c - b * s),
        exact::within(a * s) && exact::within(b * c) && exact::within(a * s + b * c),
    ensures
        exact::fixed(rope::turned_first(x0, x1, cos, sin), r.0, t + g),
        exact::fixed(rope::turned_second(x0, x1, cos, sin), r.1, t + g),
        r.0 * a + r.1 * b == c * (a * a + b * b),
        r.1 * a - r.0 * b == s * (a * a + b * b),
        r.0 * r.0 + r.1 * r.1 == (c * c + s * s) * (a * a + b * b),
{
    exact::law_product_is_exact(x0, cos, a, c, t, g);
    exact::law_product_is_exact(x1, sin, b, s, t, g);
    exact::law_product_is_exact(x0, sin, a, s, t, g);
    exact::law_product_is_exact(x1, cos, b, c, t, g);
    exact::law_difference_is_exact(
        single::product_of(x0, cos),
        single::product_of(x1, sin),
        a * c,
        b * s,
        t + g,
    );
    exact::law_sum_is_exact(
        single::product_of(x0, sin),
        single::product_of(x1, cos),
        a * s,
        b * c,
        t + g,
    );
    let (p, q) = (a * c - b * s, a * s + b * c);
    assert(p * a + q * b == c * (a * a + b * b) && q * a - p * b == s * (a * a + b * b)) by (
    nonlinear_arith)
        requires
            p == a * c - b * s,
            q == a * s + b * c,
    ;
    let (w, x, y, z) = (a * c, b * s, a * s, b * c);
    assert(p * p == w * w - 2 * (w * x) + x * x) by (nonlinear_arith)
        requires
            p == w - x,
    ;
    assert(q * q == y * y + 2 * (y * z) + z * z) by (nonlinear_arith)
        requires
            q == y + z,
    ;
    assert(w * x == y * z) by (nonlinear_arith)
        requires
            w == a * c,
            x == b * s,
            y == a * s,
            z == b * c,
    ;
    let (aa, bb, cc, ss) = (a * a, b * b, c * c, s * s);
    assert(w * w == aa * cc && x * x == bb * ss) by (nonlinear_arith)
        requires
            w == a * c,
            x == b * s,
            aa == a * a,
            bb == b * b,
            cc == c * c,
            ss == s * s,
    ;
    assert(y * y == aa * ss && z * z == bb * cc) by (nonlinear_arith)
        requires
            y == a * s,
            z == b * c,
            aa == a * a,
            bb == b * b,
            cc == c * c,
            ss == s * s,
    ;
    assert((cc + ss) * (aa + bb) == aa * cc + bb * ss + aa * ss + bb * cc) by (nonlinear_arith);
    (p, q)
}

/// Angles shrink by the same factor from pair to pair: pair `i + j` has the angle of pair `j` for
/// what pair `i` has.
pub proof fn law_angles_shrink_evenly(p: u32, scale: u32, i: int, j: int)
    requires
        0 <= i,
        0 <= j,
    ensures
        rope::angle(p, scale, i + j) == rope::angle(rope::angle(p, scale, i), scale, j),
        rope::angle(p, scale, 0) == p,
        rope::angle(p, scale, 1) == single::product_of(p, scale),
    decreases j,
{
    reveal_with_fuel(rope::angle, 3);
    if j > 0 {
        law_angles_shrink_evenly(p, scale, i, j - 1);
    }
}

// ---- norms ------------------------------------------------------------------------------------

proof fn lemma_squares_are_dots(x: Seq<u32>, n: int)
    ensures
        norms::squares(x, n) == dots::dense_dot(x, x, n),
    decreases n,
{
    if n > 0 {
        lemma_squares_are_dots(x, n - 1);
    }
}

/// A vector's length is the root of the sum of its squares.
pub proof fn law_length_is_exact(x: Seq<u32>, xi: Seq<int>, t: nat, r: int)
    requires
        exact::all_fixed(x, xi, t),
        2 * t <= 149,
        exact::dot_within(xi, xi, x.len() as int),
        0 < r,
        exact::within(r),
        exact::dot(xi, xi, x.len() as int) == r * r,
    ensures
        exact::fixed(norms::length_of(x), r, t),
{
    let n = x.len() as int;
    lemma_squares_are_dots(x, n);
    exact::law_dot_is_exact(x, x, xi, xi, t, t, n);
    exact::law_root_is_exact(norms::squares(x, n), r, t);
}

/// A row is normed by the root of its mean square and the small number: with that at two to the
/// power `p`, in the units of the row, each value is over it, and times its weight.
pub proof fn law_row_is_normed(
    x: Seq<u32>,
    w: Seq<u32>,
    eps: u32,
    xi: Seq<int>,
    wi: Seq<int>,
    e: int,
    t: nat,
    g: nat,
    p: nat,
    i: int,
)
    requires
        0 <= i < x.len() <= w.len(),
        x.len() < 0x100_0000,
        exact::all_fixed(x, xi, t),
        exact::all_fixed(w, wi, g),
        exact::fixed(eps, e, 2 * t),
        2 * t <= 149,
        t + p + g <= 149,
        exact::dot_within(xi, xi, x.len() as int),
        exact::dot(xi, xi, x.len() as int) + x.len() * e == x.len() * (binary::two(p)
            * binary::two(p)),
        exact::within(binary::two(p) * binary::two(p) - e),
        exact::within((binary::two(p) * binary::two(p)) as int),
        exact::within(binary::two(p) as int),
        exact::within(binary::two(t) as int),
        exact::within(xi[i] * binary::two(t)),
        exact::within((xi[i] * binary::two(t)) * wi[i]),
    ensures
        norms::rms_normed(x, w, eps).len() == x.len(),
        exact::fixed(
            norms::rms_normed(x, w, eps)[i],
            (xi[i] * binary::two(t)) * wi[i],
            t + p + g,
        ),
{
    let n = x.len() as int;
    let (r, zt) = (binary::two(p) as int, binary::two(t) as int);
    binary::lemma_two_adds(p, 0);
    binary::lemma_two_adds(t, p);
    let ss = norms::squares(x, n);
    let d = exact::dot(xi, xi, n);
    lemma_squares_are_dots(x, n);
    exact::law_dot_is_exact(x, x, xi, xi, t, t, n);
    exact::law_whole_is_exact(x.len());
    let q = r * r - e;
    let z2 = binary::two(2 * t) as int;
    assert(d == q * n) by (nonlinear_arith)
        requires
            d + n * e == n * (r * r),
            q == r * r - e,
    ;
    let whole = single::single_of(x.len());
    assert(0 + 2 * t == 2 * t);
    exact::law_quotient_is_exact(ss, whole, d, n, q, 2 * t, 0, 2 * t);
    let mean = single::quotient_of(ss, whole);
    exact::law_sum_is_exact(mean, eps, q, e, 2 * t);
    let sum = single::sum_of(mean, eps);
    exact::law_root_is_exact(sum, r, t);
    exact::law_one_is_exact();
    assert(1 * binary::two(t + p) == (zt * r) * binary::two(0)) by {
        assert(binary::two(0) == 1);
        let v = zt * r;
        assert(v * 1 == v);
    }
    exact::law_quotient_is_exact(single::ONE, root::root_of(sum), 1, r, zt, 0, t, p);
    let scale = norms::rms_scale(x, eps);
    assert(exact::fixed(x[i], xi[i], t) && exact::fixed(w[i], wi[i], g));
    exact::law_product_is_exact(x[i], scale, xi[i], zt, t, p);
    exact::law_product_is_exact(
        single::product_of(x[i], scale),
        w[i],
        xi[i] * zt,
        wi[i],
        t + p,
        g,
    );
}

// ---- shares -----------------------------------------------------------------------------------

/// The sum of the first `n` numbers.
pub open spec fn sum(x: Seq<int>, n: int) -> int
    decreases n,
{
    if n <= 0 {
        0
    } else {
        sum(x, n - 1) + x[n - 1]
    }
}

pub proof fn lemma_total(e: Seq<u32>, ei: Seq<int>, t: nat, n: int)
    requires
        0 <= n <= e.len(),
        t <= 149,
        exact::all_fixed(e, ei, t),
        forall|i: int| 0 <= i < e.len() ==> exact::within(#[trigger] ei[i]),
        forall|i: int| 0 <= i <= n ==> exact::within_double(#[trigger] sum(ei, i)),
    ensures
        exact::fixed_double(sampling::total_of(e, n), sum(ei, n), t),
    decreases n,
{
    if n > 0 {
        lemma_total(e, ei, t, n - 1);
        assert(exact::within(ei[n - 1]) && exact::fixed(e[n - 1], ei[n - 1], t));
        assert(exact::within_double(sum(ei, n)));
        exact::law_widening_is_exact(e[n - 1], ei[n - 1], t);
        exact::law_double_sum_is_exact(
            sampling::total_of(e, n - 1),
            double::wide(e[n - 1]),
            sum(ei, n - 1),
            ei[n - 1],
            t,
        );
    } else {
        assert(0 * binary::two((1074 - t) as nat) == 0);
        assert(double::units(0) == 0);
    }
}

/// Shares are powers over their sum, and make up one: with the sum at two to the power `p`, in the
/// units of the powers, each share is its power over that.
pub proof fn law_shares_make_one(e: Seq<u32>, ei: Seq<int>, t: nat, p: nat) -> (n: Seq<int>)
    requires
        exact::all_fixed(e, ei, t),
        t + p <= 149,
        forall|i: int|
            0 <= i < e.len() ==> exact::within(#[trigger] ei[i]) && exact::within(
                ei[i] * binary::two(t),
            ),
        forall|i: int| 0 <= i <= e.len() ==> exact::within_double(#[trigger] sum(ei, i)),
        sum(ei, e.len() as int) == binary::two(p),
        exact::within(binary::two(p) as int),
        exact::within(binary::two(t) as int),
    ensures
        exact::all_fixed(norms::shares(e), n, t + p),
        forall|i: int| 0 <= i < e.len() ==> #[trigger] n[i] == ei[i] * binary::two(t),
        sum(n, e.len() as int) == binary::two(t + p),
{
    let len = e.len() as int;
    let (zt, zp) = (binary::two(t) as int, binary::two(p) as int);
    binary::lemma_two_adds(t, p);
    binary::lemma_two_adds(p, 0);
    lemma_total(e, ei, t, len);
    let total = sampling::total_of(e, len);
    exact::law_narrowing_is_exact(total, zp, t);
    exact::law_one_is_exact();
    let v = zt * zp;
    assert(1 * binary::two(t + p) == v * binary::two(0)) by {
        assert(binary::two(0) == 1);
        assert(v * 1 == v);
    }
    let small = double::narrowed(total);
    exact::law_quotient_is_exact(single::ONE, small, 1, zp, zt, 0, t, p);
    let n = Seq::new(e.len(), |i: int| ei[i] * zt);
    let s = norms::shares(e);
    assert forall|i: int| 0 <= i < s.len() implies exact::fixed(#[trigger] s[i], n[i], t + p) by {
        assert(exact::within(ei[i]) && exact::fixed(e[i], ei[i], t));
        exact::law_product_is_exact(
            e[i],
            single::quotient_of(single::ONE, small),
            ei[i],
            zt,
            t,
            p,
        );
    }
    lemma_sum_times(n, ei, zt, len);
    assert(zp * zt == zt * zp) by (nonlinear_arith);
    n
}

pub proof fn lemma_sum_times(n: Seq<int>, x: Seq<int>, z: int, k: int)
    requires
        forall|i: int| 0 <= i < k ==> #[trigger] n[i] == x[i] * z,
    ensures
        sum(n, k) == sum(x, k) * z,
    decreases k,
{
    if k > 0 {
        lemma_sum_times(n, x, z, k - 1);
        let (a, b) = (sum(x, k - 1), x[k - 1]);
        assert(n[k - 1] == b * z);
        assert((a + b) * z == a * z + b * z) by (nonlinear_arith);
    } else {
        assert(0 * z == 0);
    }
}

/// The largest of numbers is one of them, and no other is above it.
pub proof fn lemma_largest(x: Seq<u32>, xi: Seq<int>, t: nat, n: int) -> (k: int)
    requires
        0 < n <= x.len(),
        exact::all_fixed(x, xi, t),
    ensures
        0 <= k < n,
        sampling::largest(x, sampler::NEG_INFINITY, n) == x[k],
        forall|i: int| 0 <= i < n ==> #[trigger] xi[i] <= xi[k],
    decreases n,
{
    assert(exact::fixed(x[n - 1], xi[n - 1], t));
    law_order_is_that_of_values(x[n - 1], x[n - 1], xi[n - 1], xi[n - 1], t);
    if n == 1 {
        assert(sampling::largest(x, sampler::NEG_INFINITY, 0) == sampler::NEG_INFINITY);
        0
    } else {
        let k = lemma_largest(x, xi, t, n - 1);
        assert(exact::fixed(x[k], xi[k], t));
        law_order_is_that_of_values(x[k], x[n - 1], xi[k], xi[n - 1], t);
        if xi[k] < xi[n - 1] {
            assert forall|i: int| 0 <= i < n implies #[trigger] xi[i] <= xi[n - 1] by {
                if i < n - 1 {
                    assert(xi[i] <= xi[k]);
                }
            }
            n - 1
        } else {
            assert forall|i: int| 0 <= i < n implies #[trigger] xi[i] <= xi[k] by {}
            k
        }
    }
}

/// A row less its largest value keeps the distances between its values; none is above zero, and
/// the largest is zero.
pub proof fn law_row_is_lowered(x: Seq<u32>, xi: Seq<int>, t: nat) -> (r: (Seq<int>, int))
    requires
        x.len() > 0,
        exact::all_fixed(x, xi, t),
        forall|i: int, j: int|
            0 <= i < x.len() && 0 <= j < x.len() ==> exact::within(
                #[trigger] xi[i] - #[trigger] xi[j],
            ),
    ensures
        exact::all_fixed(norms::below_largest(x), r.0, t),
        forall|i: int, j: int|
            0 <= i < x.len() && 0 <= j < x.len() ==> #[trigger] r.0[i] - #[trigger] r.0[j] == xi[i]
                - xi[j],
        forall|i: int| 0 <= i < x.len() ==> #[trigger] r.0[i] <= 0,
        0 <= r.1 < x.len(),
        r.0[r.1] == 0,
{
    let k = lemma_largest(x, xi, t, x.len() as int);
    let n = Seq::new(x.len(), |i: int| xi[i] - xi[k]);
    let low = norms::below_largest(x);
    assert forall|i: int| 0 <= i < low.len() implies exact::fixed(#[trigger] low[i], n[i], t) by {
        assert(exact::fixed(x[i], xi[i], t) && exact::fixed(x[k], xi[k], t));
        assert(exact::within(xi[i] - xi[k]));
        exact::law_difference_is_exact(x[i], x[k], xi[i], xi[k], t);
    }
    assert forall|i: int| 0 <= i < x.len() implies #[trigger] n[i] <= 0 by {
        assert(xi[i] <= xi[k]);
    }
    (n, k)
}

// ---- activations ------------------------------------------------------------------------------

/// A sigmoid times one plus its power is one, and an activated value times that is the value.
/// `q` over two to the power `e` is the sigmoid, and `v` over two to the power `h` the value.
pub proof fn law_activations(
    x: u32,
    power: u32,
    xi: int,
    pi: int,
    t: nat,
    g: nat,
    q: int,
    e: nat,
    v: int,
    h: nat,
)
    requires
        exact::fixed(x, xi, t),
        exact::fixed(power, pi, g),
        exact::within(binary::two(g) + pi),
        binary::two(g) + pi != 0,
        e <= 149 && h <= 149,
        exact::within(q) && exact::within(v),
        q * (binary::two(g) + pi) == binary::two(g + e),
        (v * (binary::two(g) + pi)) * binary::two(t) == xi * binary::two(g + h),
    ensures
        exact::fixed(norms::sigmoid_of(power), q, e),
        exact::fixed(norms::silu_of(x, power), v, h),
{
    let z = binary::two(g) as int;
    exact::law_one_is_exact();
    exact::law_finer(single::ONE, 1, 0, g);
    exact::law_sum_is_exact(single::ONE, power, 1 * z, pi, g);
    let s = single::sum_of(single::ONE, power);
    let y = z + pi;
    assert(1 * binary::two(g + e) == (q * y) * binary::two(0)) by {
        assert(binary::two(0) == 1);
        let w = q * y;
        assert(w * 1 == w);
    }
    exact::law_quotient_is_exact(single::ONE, s, 1, y, q, 0, g, e);
    exact::law_quotient_is_exact(x, s, xi, y, v, t, g, h);
}

/// The inner values of a feed-forward layer are the activated gates times the up projection, place
/// by place; the activated values and the weights of corrections are those of each place.
pub proof fn law_places_are_activated(
    gate: Seq<u32>,
    powers: Seq<u32>,
    up: Seq<u32>,
    i: int,
)
    requires
        0 <= i < gate.len(),
        gate.len() <= powers.len(),
        gate.len() <= up.len(),
    ensures
        layers::ffn_values(gate, powers, up).len() == gate.len(),
        layers::ffn_values(gate, powers, up)[i] == single::product_of(
            norms::silu_of(gate[i], powers[i]),
            up[i],
        ),
        layers::activated(gate, powers)[i] == norms::silu_of(gate[i], powers[i]),
        layers::sigmoids(powers)[i] == norms::sigmoid_of(powers[i]),
{
}

/// The softplus is the logarithm up to twenty, and the argument itself above.
pub proof fn law_softplus_goes_over(x: u32, log: u32, xi: int, t: nat)
    requires
        exact::fixed(x, xi, t),
        t <= 20,
    ensures
        norms::softplus_of(x, log) == if xi > 20 * binary::two(t) {
            x
        } else {
            log
        },
{
    let w = norms::TWENTY;
    assert(single::mag(w) == 0x41A0_0000);
    assert(binary::two(23) == 0x80_0000) by {
        reveal_with_fuel(binary::two, 24);
    }
    assert(0x41A0_0000int / 0x80_0000 == 131 && 0x41A0_0000int % 0x80_0000 == 0x20_0000);
    let u = single::unit_count() as int;
    let y = binary::two(130) as int;
    binary::lemma_two_adds(130, 19);
    assert(binary::two(19) == 0x8_0000) by {
        reveal_with_fuel(binary::two, 20);
    }
    assert(single::units(single::mag(w)) == 0xA0_0000 * y);
    assert(0xA0_0000 * y == 20 * (y * 0x8_0000)) by (nonlinear_arith);
    assert(exact::fixed(w, 20, 0));
    exact::law_finer(w, 20, 0, t);
    law_order_is_that_of_values(w, x, (20 * binary::two(t)) as int, xi, t);
}

// ---- attention --------------------------------------------------------------------------------

/// The score of a query against a token is the product of the query with the token's key, times
/// the scale.
pub proof fn law_score_is_exact(
    q: Seq<u32>,
    s: Seq<u32>,
    j: int,
    kv: int,
    e: int,
    hd: int,
    scale: u32,
    qi: Seq<int>,
    ki: Seq<int>,
    si: int,
    a: nat,
    b: nat,
    c: nat,
)
    requires
        q.len() == hd,
        exact::all_fixed(q, qi, a),
        ki.len() == hd,
        forall|d: int|
            0 <= d < hd ==> exact::fixed(s[j * e + kv * hd + d], #[trigger] ki[d], b),
        exact::fixed(scale, si, c),
        a + b + c <= 149,
        exact::dot_within(qi, ki, hd),
        exact::within(exact::dot(qi, ki, hd) * si),
    ensures
        exact::fixed(
            forward::score(q, s, j, kv, e, hd, scale),
            exact::dot(qi, ki, hd) * si,
            a + b + c,
        ),
{
    let row = forward::head_row(s, j, kv, e, hd);
    assert forall|d: int| 0 <= d < row.len() implies exact::fixed(#[trigger] row[d], ki[d], b) by {
        assert(exact::fixed(s[j * e + kv * hd + d], ki[d], b));
    }
    exact::law_dot_is_exact(q, row, qi, ki, a, b, hd);
    exact::law_product_is_exact(
        dots::dense_dot(q, row, hd),
        scale,
        exact::dot(qi, ki, hd),
        si,
        a + b,
        c,
    );
}

/// What a head takes in is the sum of the tokens' values, each times its share.
pub proof fn law_mixture_is_exact(
    probs: Seq<u32>,
    s: Seq<u32>,
    n: int,
    kv: int,
    e: int,
    hd: int,
    d: int,
    pi: Seq<int>,
    vi: Seq<int>,
    a: nat,
    b: nat,
)
    requires
        0 <= n <= probs.len(),
        exact::all_fixed(probs, pi, a),
        n <= vi.len(),
        forall|j: int|
            0 <= j < n ==> exact::fixed(s[j * e + kv * hd + d], #[trigger] vi[j], b),
        a + b <= 149,
        exact::dot_within(pi, vi, n),
    ensures
        exact::fixed(forward::mixed(probs, s, n, kv, e, hd, d), exact::dot(pi, vi, n), a + b),
    decreases n,
{
    if n > 0 {
        let j = n - 1;
        law_mixture_is_exact(probs, s, j, kv, e, hd, d, pi, vi, a, b);
        assert(exact::fixed(probs[j], pi[j], a));
        assert(exact::fixed(s[j * e + kv * hd + d], vi[j], b));
        assert(exact::within(pi[j] * vi[j]) && exact::within(exact::dot(pi, vi, j + 1)));
        if single::mag(probs[j]) == 0 {
            let z = binary::two((149 - a) as nat) as int;
            binary::lemma_two_adds((149 - a) as nat, 0);
            let x = pi[j];
            assert(single::units(0) == 0);
            assert(x == 0) by (nonlinear_arith)
                requires
                    x * z == 0,
                    z > 0,
            ;
            assert(0 * vi[j] == 0);
        } else {
            let v = s[j * e + kv * hd + d];
            exact::law_product_is_exact(probs[j], v, pi[j], vi[j], a, b);
            exact::law_sum_is_exact(
                forward::mixed(probs, s, j, kv, e, hd, d),
                single::product_of(probs[j], v),
                exact::dot(pi, vi, j),
                pi[j] * vi[j],
                a + b,
            );
        }
    } else {
        assert(0 * binary::two((149 - a - b) as nat) == 0);
        assert(single::units(0) == 0);
    }
}

/// Query heads share heads of keys in groups of neighbours: the `i`-th of group `kv` goes to
/// head `kv`.
pub proof fn law_groups_share_a_head(cfg: Qwen35, kv: int, i: int)
    requires
        0 < cfg.n_head_kv <= cfg.n_head,
        0 <= kv < cfg.n_head_kv,
        0 <= i < cfg.n_head as int / cfg.n_head_kv as int,
    ensures
        forward::kv_head_of(cfg, kv * (cfg.n_head as int / cfg.n_head_kv as int) + i) == kv,
{
    let g = cfg.n_head as int / cfg.n_head_kv as int;
    vstd::arithmetic::div_mod::lemma_fundamental_div_mod_converse(kv * g + i, g, kv, i);
}

/// A projection of queries and gates holds, for each head, its query and behind it its gate.
pub proof fn law_queries_and_gates(x: Seq<u32>, n: int, hd: int, h: int, d: int)
    requires
        0 <= h < n,
        0 <= d < hd,
    ensures
        attn_layer::query_part(x, n, hd)[h * hd + d] == x[h * (2 * hd) + d],
        attn_layer::gate_part(x, n, hd)[h * hd + d] == x[h * (2 * hd) + hd + d],
{
    dots::lemma_row_end(h, n, hd);
    vstd::arithmetic::div_mod::lemma_fundamental_div_mod_converse(h * hd + d, hd, h, d);
}

/// The scale of scores, squared, times the number of values is one: for two to the power `2 * p`
/// values it is one over two to the power `p`.
#[verifier::spinoff_prover]
#[verifier::rlimit(60)]
pub proof fn law_score_scale(p: nat)
    requires
        p <= 11,
    ensures
        exact::fixed(forward::score_scale_of(binary::two(2 * p)), 1, p),
{
    let r = binary::two(p) as int;
    binary::lemma_two_adds(p, p);
    binary::lemma_two_adds(p, 0);
    binary::lemma_two_monotone(2 * p, 22);
    binary::lemma_two_monotone(p, 22);
    assert(binary::two(22) == 0x40_0000) by {
        reveal_with_fuel(binary::two, 23);
    }
    assert(p + p == 2 * p);
    let n = binary::two(2 * p);
    exact::law_whole_is_exact(n);
    exact::law_root_is_exact(single::single_of(n), r, 0);
    exact::law_one_is_exact();
    assert(1 * binary::two(0 + p) == (1 * r) * binary::two(0)) by {
        assert(binary::two(0) == 1);
        assert((1 * r) * 1 == r);
    }
    exact::law_quotient_is_exact(
        single::ONE,
        root::root_of(single::single_of(n)),
        1,
        r,
        1,
        0,
        0,
        p,
    );
}

// ---- the rest of a layer ----------------------------------------------------------------------

/// What a layer adds is added, and what gates it multiplies it, place by place.
pub proof fn law_places_are_combined(
    a: Seq<u32>,
    b: Seq<u32>,
    x: Seq<int>,
    y: Seq<int>,
    t: nat,
    g: nat,
    i: int,
)
    requires
        0 <= i < a.len() <= b.len(),
        exact::all_fixed(a, x, t),
        exact::all_fixed(b, y, g),
        t + g <= 149,
        exact::within(x[i] * y[i]),
        t == g ==> exact::within(x[i] + y[i]),
    ensures
        exact::fixed(forward::times(a, b)[i], x[i] * y[i], t + g),
        t == g ==> exact::fixed(forward::plus(a, b)[i], x[i] + y[i], t),
{
    assert(exact::fixed(a[i], x[i], t) && exact::fixed(b[i], y[i], g));
    exact::law_product_is_exact(a[i], b[i], x[i], y[i], t, g);
    if t == g {
        exact::law_sum_is_exact(a[i], b[i], x[i], y[i], t);
    }
}

/// A channel is convolved with its last inputs: the oldest has the first weight, the current one
/// the last.
pub proof fn law_convolution_is_exact(
    conv: Seq<u32>,
    c: int,
    prev: int,
    now: u32,
    w: Seq<u32>,
    inputs: Seq<int>,
    weights: Seq<int>,
    t: nat,
    g: nat,
    n: int,
)
    requires
        0 <= n <= prev + 1,
        inputs.len() == prev + 1,
        weights.len() == prev + 1,
        forall|j: int|
            0 <= j < prev ==> exact::fixed(conv[c * prev + j], #[trigger] inputs[j], t),
        exact::fixed(now, inputs[prev], t),
        forall|j: int|
            0 <= j <= prev ==> exact::fixed(w[c * (prev + 1) + j], #[trigger] weights[j], g),
        t + g <= 149,
        exact::dot_within(weights, inputs, n),
    ensures
        exact::fixed(
            forward::convolved(conv, c, prev, now, w, n),
            exact::dot(weights, inputs, n),
            g + t,
        ),
    decreases n,
{
    if n > 0 {
        let j = n - 1;
        law_convolution_is_exact(conv, c, prev, now, w, inputs, weights, t, g, j);
        let x = forward::window(conv, c, prev, now, j);
        assert(exact::fixed(x, inputs[j], t));
        assert(exact::fixed(w[c * (prev + 1) + j], weights[j], g));
        assert(c * (prev + 1) + n - 1 == c * (prev + 1) + j);
        assert(exact::within(weights[j] * inputs[j]));
        assert(exact::within(exact::dot(weights, inputs, j + 1)));
        exact::law_product_is_exact(
            w[c * (prev + 1) + j],
            x,
            weights[j],
            inputs[j],
            g,
            t,
        );
        exact::law_sum_is_exact(
            forward::convolved(conv, c, prev, now, w, j),
            single::product_of(w[c * (prev + 1) + j], x),
            exact::dot(weights, inputs, j),
            weights[j] * inputs[j],
            g + t,
        );
    } else {
        assert(0 * binary::two((149 - g - t) as nat) == 0);
        assert(single::units(0) == 0);
    }
}

/// Layers come in groups: the last of each has full attention, and the others are recurrent.
pub proof fn law_last_of_a_group_has_full_attention(cfg: Qwen35, group: int, i: int)
    requires
        cfg.interval >= 1,
        0 <= group,
        0 <= i < cfg.interval,
    ensures
        cfg.full(group * cfg.interval + i) == (i == cfg.interval - 1),
{
    let n = cfg.interval as int;
    let il = group * n + i;
    if i == n - 1 {
        assert(il + 1 == (group + 1) * n + 0) by (nonlinear_arith)
            requires
                il == group * n + i,
                i == n - 1,
        ;
        vstd::arithmetic::div_mod::lemma_fundamental_div_mod_converse(il + 1, n, group + 1, 0);
    } else {
        vstd::arithmetic::div_mod::lemma_fundamental_div_mod_converse(il + 1, n, group, i + 1);
    }
}

/// Each layer has its attention and then its feed-forward part, layer by layer: the attention of
/// layer `il` comes before its feed-forward part, and both before those of the next.
pub proof fn law_layers_come_in_order(cfg: Qwen35, k: int, il: int)
    requires
        0 <= il < k <= usize::MAX,
    ensures
        forward::steps_of(cfg, Seq::empty(), k).len() == 2 * k,
        forward::steps_of(cfg, Seq::empty(), k)[2 * il] == if cfg.full(il) {
            forward::Step::Attention { il: il as usize }
        } else {
            forward::Step::Recurrent { il: il as usize }
        },
        forward::steps_of(cfg, Seq::empty(), k)[2 * il + 1] == (forward::Step::Ffn {
            il: il as usize,
        }),
    decreases k,
{
    let none = Seq::<u32>::empty();
    assert(forward::taps_from(none, k - 1, 0) =~= Seq::<forward::Step>::empty());
    if k == 1 {
        assert(forward::steps_of(cfg, none, 0) =~= Seq::<forward::Step>::empty());
    } else if il < k - 1 {
        law_layers_come_in_order(cfg, k - 1, il);
    } else {
        law_layers_come_in_order(cfg, k - 1, 0);
    }
}

// ---- rows of length one ---------------------------------------------------------------------------

proof fn lemma_wide_squares(x: Seq<u32>, xi: Seq<int>, t: nat, n: int)
    requires
        0 <= n <= x.len(),
        exact::all_fixed(x, xi, t),
        2 * t <= 149,
        forall|i: int| 0 <= i < x.len() ==> exact::within(#[trigger] xi[i]),
        exact::dot_within(xi, xi, x.len() as int),
    ensures
        exact::fixed_double(norms::wide_squares(x, n), exact::dot(xi, xi, n), 2 * t),
    decreases n,
{
    if n > 0 {
        lemma_wide_squares(x, xi, t, n - 1);
        let (a, v) = (x[n - 1], xi[n - 1]);
        assert(exact::fixed(a, v, t) && exact::within(v));
        exact::law_widening_is_exact(a, v, t);
        assert(-0x20_0000_0000_0000 < v * v < 0x20_0000_0000_0000) by (nonlinear_arith)
            requires
                -0x100_0000 < v < 0x100_0000,
        ;
        exact::law_double_product_is_exact(double::wide(a), double::wide(a), v, v, t, t);
        assert(exact::within(exact::dot(xi, xi, n)));
        exact::law_double_sum_is_exact(
            norms::wide_squares(x, n - 1),
            double::product_of(double::wide(a), double::wide(a)),
            exact::dot(xi, xi, n - 1),
            v * v,
            2 * t,
        );
    } else {
        assert(0 * binary::two((1074 - 2 * t) as nat) == 0);
        assert(double::units(0) == 0);
    }
}

proof fn lemma_dot_times(u: Seq<int>, x: Seq<int>, q: int, n: int)
    requires
        forall|i: int| 0 <= i < n ==> #[trigger] u[i] == x[i] * q,
    ensures
        exact::dot(u, u, n) == exact::dot(x, x, n) * (q * q),
    decreases n,
{
    if n > 0 {
        lemma_dot_times(u, x, q, n - 1);
        let (a, d) = (x[n - 1], exact::dot(x, x, n - 1));
        assert(u[n - 1] == a * q);
        assert((a * q) * (a * q) == (a * a) * (q * q)) by (nonlinear_arith);
        let (aa, qq) = (a * a, q * q);
        assert((d + aa) * qq == d * qq + aa * qq) by (nonlinear_arith);
    } else {
        assert(0 * (q * q) == 0);
    }
}

/// A unit row has length one: it is the row over its length, where that is not below the bound.
pub proof fn law_unit_row_has_length_one(
    x: Seq<u32>,
    xi: Seq<int>,
    t: nat,
    r: int,
    eps: u32,
    ei: int,
    q: int,
    e: nat,
) -> (u: Seq<int>)
    requires
        exact::all_fixed(x, xi, t),
        2 * t <= 149,
        t + e <= 149,
        forall|i: int|
            0 <= i < x.len() ==> exact::within(#[trigger] xi[i]) && exact::within(xi[i] * q),
        exact::dot_within(xi, xi, x.len() as int),
        0 < r,
        exact::within(r),
        exact::dot(xi, xi, x.len() as int) == r * r,
        exact::fixed(eps, ei, t),
        ei <= r,
        q * r == binary::two(t + e),
        exact::within(q),
    ensures
        exact::all_fixed(norms::unit_row(x, eps), u, t + e),
        forall|i: int| 0 <= i < x.len() ==> #[trigger] u[i] * r == xi[i] * binary::two(t + e),
        exact::dot(u, u, x.len() as int) == binary::two(t + e) * binary::two(t + e),
{
    let n = x.len() as int;
    lemma_wide_squares(x, xi, t, n);
    assert(exact::within(exact::dot(xi, xi, n)));
    let sq = double::narrowed(norms::wide_squares(x, n));
    exact::law_narrowing_is_exact(norms::wide_squares(x, n), r * r, 2 * t);
    exact::law_root_is_exact(sq, r, t);
    let len = root::root_of(sq);
    law_order_is_that_of_values(len, eps, r, ei, t);
    assert(norms::larger(len, eps) == len);
    exact::law_one_is_exact();
    let z = binary::two(t + e) as int;
    assert(1 * z == (q * r) * binary::two(0)) by {
        assert(binary::two(0) == 1);
        assert((q * r) * 1 == q * r);
    }
    exact::law_quotient_is_exact(single::ONE, len, 1, r, q, 0, t, e);
    let u = Seq::new(x.len(), |i: int| xi[i] * q);
    let row = norms::unit_row(x, eps);
    assert forall|i: int| 0 <= i < row.len() implies exact::fixed(#[trigger] row[i], u[i], t + e) by {
        assert(exact::fixed(x[i], xi[i], t) && exact::within(xi[i]));
        exact::law_product_is_exact(x[i], norms::unit_scale(x, eps), xi[i], q, t, e);
    }
    assert forall|i: int| 0 <= i < x.len() implies #[trigger] u[i] * r == xi[i] * binary::two(
        t + e,
    ) by {
        let a = xi[i];
        assert((a * q) * r == a * (q * r)) by (nonlinear_arith);
    }
    lemma_dot_times(u, xi, q, n);
    assert((r * r) * (q * q) == (q * r) * (q * r)) by (nonlinear_arith);
    u
}

/// A row of length one that is scaled by the bound, where its length is below that, stays shorter.
pub proof fn law_short_row_is_scaled_by_the_bound(
    x: Seq<u32>,
    xi: Seq<int>,
    t: nat,
    r: int,
    eps: u32,
    ei: int,
)
    requires
        exact::all_fixed(x, xi, t),
        2 * t <= 149,
        forall|i: int| 0 <= i < x.len() ==> exact::within(#[trigger] xi[i]),
        exact::dot_within(xi, xi, x.len() as int),
        0 < r,
        exact::within(r),
        exact::dot(xi, xi, x.len() as int) == r * r,
        exact::fixed(eps, ei, t),
        r < ei,
    ensures
        norms::unit_scale(x, eps) == single::quotient_of(single::ONE, eps),
{
    let n = x.len() as int;
    lemma_wide_squares(x, xi, t, n);
    assert(exact::within(exact::dot(xi, xi, n)));
    let sq = double::narrowed(norms::wide_squares(x, n));
    exact::law_narrowing_is_exact(norms::wide_squares(x, n), r * r, 2 * t);
    exact::law_root_is_exact(sq, r, t);
    law_order_is_that_of_values(root::root_of(sq), eps, r, ei, t);
}

// ---- rows and heads -------------------------------------------------------------------------------

/// What is done row by row is done to each row by itself.
pub proof fn law_rows_are_apart(
    x: Seq<u32>,
    width: int,
    n: int,
    f: spec_fn(Seq<u32>) -> Seq<u32>,
    t: int,
)
    requires
        0 < width,
        0 <= t < n,
        x.len() == n * width,
        f(x.subrange(t * width, (t + 1) * width)).len() == width,
    ensures
        layers::mapped(x, width, f).len() == x.len(),
        layers::mapped(x, width, f).subrange(t * width, (t + 1) * width) == f(
            x.subrange(t * width, (t + 1) * width),
        ),
{
    let m = layers::mapped(x, width, f);
    assert((t + 1) * width == t * width + width && (t + 1) * width <= n * width && 0 <= t * width)
        by (nonlinear_arith)
        requires
            0 <= t < n,
            0 < width,
    ;
    let row = m.subrange(t * width, (t + 1) * width);
    let want = f(x.subrange(t * width, (t + 1) * width));
    assert forall|d: int| 0 <= d < width implies #[trigger] row[d] == want[d] by {
        let i = t * width + d;
        assert(t * width == width * t) by (nonlinear_arith);
        vstd::arithmetic::div_mod::lemma_fundamental_div_mod_converse(i, width, t, d);
    }
    assert(row =~= want);
}

/// The channels of a recurrent layer are the queries' first, the keys' second and the values' last;
/// queries and keys are brought to length one head by head. Head `h` of the state learns the value
/// of its own head under the key of head `h` modulo the heads of keys.
pub proof fn law_heads_learn_from_their_channels(r: layers::Recurrence, state: Seq<u32>, h: int)
    requires
        r.wf(),
        0 <= h < r.keep.len(),
    ensures
        ({
            let (k, s) = (h % r.n_key, r.s);
            let first = r.n_key * s + k * s;
            let value = 2 * (r.n_key * s) + h * s;
            r.after(state, h) == crate::gdn::next_state(
                state.subrange(h * (s * s), (h + 1) * (s * s)),
                r.keep[h],
                norms::unit_row(r.active.subrange(first, first + s), r.eps),
                r.active.subrange(value, value + s),
                r.beta[h],
                s,
            )
        }),
{
    let (n, s) = (r.n_key, r.s);
    let k = h % n;
    vstd::arithmetic::div_mod::lemma_mod_bound(h, n);
    let dk = n * s;
    let all = r.active.len() as int;
    let heads = r.keep.len() as int;
    assert((k + 1) * s == k * s + s && (k + 1) * s <= n * s && 0 <= k * s) by (nonlinear_arith)
        requires
            0 <= k < n,
            0 < s,
    ;
    assert((h + 1) * s == h * s + s && (h + 1) * s <= heads * s && 0 <= h * s) by (nonlinear_arith)
        requires
            0 <= h < heads,
            0 < s,
    ;
    let keys = r.active.subrange(dk, 2 * dk);
    let eps = r.eps;
    let f = |x: Seq<u32>| norms::unit_row(x, eps);
    assert(keys.len() == n * s);
    assert(keys.subrange(k * s, (k + 1) * s) =~= r.active.subrange(dk + k * s, dk + k * s + s));
    law_rows_are_apart(keys, s, n, f, k);
    assert(r.values().subrange(h * s, (h + 1) * s) =~= r.active.subrange(
        2 * dk + h * s,
        2 * dk + h * s + s,
    ));
}

// ---- bands ----------------------------------------------------------------------------------------

/// The bands of a rotation take turns, one pair each, as long as their sections last, and start
/// over behind the pairs that the sections cover.
pub proof fn law_bands_take_turns(s: [i32; 4], j: int, n: int)
    requires
        0 <= j,
        0 <= n,
        3 * j + 2 < rope::covered(s),
    ensures
        j < s@[0] ==> rope::band_of(s, n * rope::covered(s) + 3 * j) == rope::Band::Time,
        j < s@[1] ==> rope::band_of(s, n * rope::covered(s) + 3 * j + 1) == rope::Band::Height,
        j < s@[2] ==> rope::band_of(s, n * rope::covered(s) + 3 * j + 2) == rope::Band::Width,
        j >= s@[0] ==> rope::band_of(s, n * rope::covered(s) + 3 * j) == rope::Band::Extra,
        j >= s@[1] ==> rope::band_of(s, n * rope::covered(s) + 3 * j + 1) == rope::Band::Extra,
        j >= s@[2] ==> rope::band_of(s, n * rope::covered(s) + 3 * j + 2) == rope::Band::Extra,
{
    let c = rope::covered(s);
    assert(n * c == c * n) by (nonlinear_arith);
    vstd::arithmetic::div_mod::lemma_fundamental_div_mod_converse(n * c + 3 * j, c, n, 3 * j);
    vstd::arithmetic::div_mod::lemma_fundamental_div_mod_converse(
        n * c + 3 * j + 1,
        c,
        n,
        3 * j + 1,
    );
    vstd::arithmetic::div_mod::lemma_fundamental_div_mod_converse(
        n * c + 3 * j + 2,
        c,
        n,
        3 * j + 2,
    );
}

// ---- drafts ---------------------------------------------------------------------------------------

/// A confidence is its bias and the products of its features with their weights.
pub proof fn law_confidence_is_exact(
    b: u32,
    bi: int,
    feat: Seq<u32>,
    fi: Seq<int>,
    w: Seq<u32>,
    wi: Seq<int>,
    t: nat,
    g: nat,
    n: int,
)
    requires
        0 <= n <= feat.len(),
        n <= w.len(),
        t + g <= 149,
        exact::fixed(b, bi, t + g),
        exact::all_fixed(feat, fi, t),
        exact::all_fixed(w, wi, g),
        forall|i: int| 0 <= i < n ==> exact::within(#[trigger] fi[i] * wi[i]),
        forall|i: int| 0 <= i <= n ==> exact::within(bi + #[trigger] exact::dot(fi, wi, i)),
    ensures
        exact::fixed(
            crate::draft::confidence_sum(b, feat, w, n),
            bi + exact::dot(fi, wi, n),
            t + g,
        ),
    decreases n,
{
    if n > 0 {
        law_confidence_is_exact(b, bi, feat, fi, w, wi, t, g, n - 1);
        let i = n - 1;
        assert(exact::fixed(feat[i], fi[i], t) && exact::fixed(w[i], wi[i], g));
        assert(exact::within(fi[i] * wi[i]));
        assert(exact::within(bi + exact::dot(fi, wi, n)));
        exact::law_product_is_exact(feat[i], w[i], fi[i], wi[i], t, g);
        exact::law_sum_is_exact(
            crate::draft::confidence_sum(b, feat, w, i),
            single::product_of(feat[i], w[i]),
            bi + exact::dot(fi, wi, i),
            fi[i] * wi[i],
            t + g,
        );
    }
}

/// A bias is added place by place, unless it is left out.
pub proof fn law_bias_is_added(
    base: Seq<u32>,
    xi: Seq<int>,
    bias: Seq<u32>,
    bi: Seq<int>,
    t: nat,
    i: int,
)
    requires
        0 <= i < base.len(),
        bias.len() == base.len(),
        exact::all_fixed(base, xi, t),
        exact::all_fixed(bias, bi, t),
        exact::within(xi[i]),
        exact::within(xi[i] + bi[i]),
    ensures
        exact::fixed(crate::draft::biased(base, bias, false)[i], xi[i] + bi[i], t),
        exact::fixed(crate::draft::biased(base, bias, true)[i], xi[i], t),
{
    assert(exact::fixed(base[i], xi[i], t) && exact::fixed(bias[i], bi[i], t));
    exact::law_sum_is_exact(base[i], bias[i], xi[i], bi[i], t);
    assert(single::units(0) == 0);
    assert(0 * binary::two((149 - t) as nat) == 0);
    exact::law_sum_is_exact(base[i], 0, xi[i], 0, t);
}

// ---- turned heads -------------------------------------------------------------------------------

/// In each head the first value of the first half turns with the first of the second half, and so
/// on, each pair by its own angle; what lies behind the pairs stays.
pub proof fn law_halves_turn_together(
    x: Seq<u32>,
    n: int,
    hd: int,
    cos: Seq<u32>,
    sin: Seq<u32>,
    h: int,
    j: int,
)
    requires
        x.len() == n * hd,
        0 <= h < n,
        cos.len() == sin.len(),
        2 * cos.len() <= hd,
        0 <= j,
    ensures
        j < cos.len() ==> {
            let (a, b) = (h * hd + j, h * hd + cos.len() + j);
            &&& layers::turned_heads(x, hd, cos, sin)[a] == rope::turned_first(
                x[a],
                x[b],
                cos[j],
                sin[j],
            )
            &&& layers::turned_heads(x, hd, cos, sin)[b] == rope::turned_second(
                x[a],
                x[b],
                cos[j],
                sin[j],
            )
        },
        2 * cos.len() <= j < hd ==> layers::turned_heads(x, hd, cos, sin)[h * hd + j] == x[h * hd
            + j],
{
    let half = cos.len() as int;
    assert(h * hd + hd <= n * hd && 0 <= h * hd && h * hd == hd * h) by (nonlinear_arith)
        requires
            0 <= h < n,
            0 <= hd,
    ;
    if j < hd {
        vstd::arithmetic::div_mod::lemma_fundamental_div_mod_converse(h * hd + j, hd, h, j);
    }
    if j < half {
        vstd::arithmetic::div_mod::lemma_fundamental_div_mod_converse(
            h * hd + half + j,
            hd,
            h,
            half + j,
        );
    }
}

// ---- the drafter's attention ----------------------------------------------------------------------

proof fn lemma_added(e: Seq<u32>, ei: Seq<int>, t: nat, n: int)
    requires
        0 <= n <= e.len(),
        t <= 149,
        exact::all_fixed(e, ei, t),
        forall|i: int| 0 <= i <= n ==> exact::within(#[trigger] sum(ei, i)),
    ensures
        exact::fixed(sheets::added(e, n), sum(ei, n), t),
    decreases n,
{
    if n > 0 {
        lemma_added(e, ei, t, n - 1);
        assert(exact::fixed(e[n - 1], ei[n - 1], t));
        assert(exact::within(sum(ei, n)));
        exact::law_sum_is_exact(sheets::added(e, n - 1), e[n - 1], sum(ei, n - 1), ei[n - 1], t);
    } else {
        assert(single::units(0) == 0);
        assert(0 * binary::two((149 - t) as nat) == 0);
    }
}

/// What a head of the drafter attends to is the mean of the values, weighed by their powers: times
/// the sum of the powers it is the sum of the values, each times its power.
pub proof fn law_attended_is_a_mean(
    powers: Seq<u32>,
    ei: Seq<int>,
    t: nat,
    s: Seq<u32>,
    v: Seq<int>,
    g: nat,
    kv: int,
    e: int,
    hd: int,
    d: int,
    q: int,
)
    requires
        exact::all_fixed(powers, ei, t),
        v.len() == powers.len(),
        forall|j: int|
            0 <= j < powers.len() ==> exact::fixed(s[j * e + kv * hd + d], #[trigger] v[j], g),
        t + g <= 149,
        0 <= d < hd,
        forall|i: int| 0 <= i <= powers.len() ==> exact::within(#[trigger] sum(ei, i)),
        forall|i: int| 0 <= i < powers.len() ==> exact::within(#[trigger] ei[i] * v[i]),
        forall|i: int| 0 <= i <= powers.len() ==> exact::within(#[trigger] exact::dot(ei, v, i)),
        sum(ei, powers.len() as int) != 0,
        q * sum(ei, powers.len() as int) == exact::dot(ei, v, powers.len() as int),
        exact::within(q),
    ensures
        exact::fixed(sheets::attended(powers, s, kv, e, hd)[d], q, g),
{
    let n = powers.len() as int;
    lemma_added(powers, ei, t, n);
    lemma_weighed(powers, ei, t, s, v, g, kv, e, hd, d, n);
    let (x, y) = (exact::dot(ei, v, n), sum(ei, n));
    exact::law_quotient_is_exact(
        sheets::weighed(powers, s, n, kv, e, hd, d),
        sheets::added(powers, n),
        x,
        y,
        q,
        t + g,
        t,
        g,
    );
}

proof fn lemma_weighed(
    powers: Seq<u32>,
    ei: Seq<int>,
    t: nat,
    s: Seq<u32>,
    v: Seq<int>,
    g: nat,
    kv: int,
    e: int,
    hd: int,
    d: int,
    n: int,
)
    requires
        0 <= n <= powers.len(),
        exact::all_fixed(powers, ei, t),
        v.len() == powers.len(),
        forall|j: int|
            0 <= j < powers.len() ==> exact::fixed(s[j * e + kv * hd + d], #[trigger] v[j], g),
        t + g <= 149,
        forall|i: int| 0 <= i < powers.len() ==> exact::within(#[trigger] ei[i] * v[i]),
        forall|i: int| 0 <= i <= powers.len() ==> exact::within(#[trigger] exact::dot(ei, v, i)),
    ensures
        exact::fixed(sheets::weighed(powers, s, n, kv, e, hd, d), exact::dot(ei, v, n), t + g),
    decreases n,
{
    if n > 0 {
        lemma_weighed(powers, ei, t, s, v, g, kv, e, hd, d, n - 1);
        let j = n - 1;
        assert(exact::fixed(powers[j], ei[j], t));
        let c = forward::cached(s, j, kv, e, hd, d);
        assert(exact::fixed(c, v[j], g));
        assert(exact::within(ei[j] * v[j]));
        assert(exact::within(exact::dot(ei, v, n)));
        exact::law_product_is_exact(powers[j], c, ei[j], v[j], t, g);
        exact::law_sum_is_exact(
            sheets::weighed(powers, s, j, kv, e, hd, d),
            single::product_of(powers[j], c),
            exact::dot(ei, v, j),
            ei[j] * v[j],
            t + g,
        );
    } else {
        assert(single::units(0) == 0);
        assert(0 * binary::two((149 - t - g) as nat) == 0);
    }
}

/// A log-SNR has its place between the smallest and the largest, in thousandths: times the
/// distance between these it is a thousand times its own distance from the smallest.
pub proof fn law_snr_place_is_exact(
    snr: u32,
    x: int,
    low: u32,
    a: int,
    high: u32,
    b: int,
    t: nat,
    q: int,
    e: nat,
)
    requires
        exact::fixed(snr, x, t),
        exact::fixed(low, a, t),
        exact::fixed(high, b, t),
        a < b,
        exact::within(x - a),
        exact::within(b - a),
        q * (b - a) == (x - a) * binary::two(e),
        e <= 149,
        exact::within(q),
        exact::within(q * 1000),
    ensures
        exact::fixed(sheets::snr_place(snr, low, high), q * 1000, e),
        x == a ==> q == 0,
        x == b ==> q == binary::two(e),
{
    exact::law_difference_is_exact(snr, low, x, a, t);
    exact::law_difference_is_exact(high, low, b, a, t);
    let (n, d) = (x - a, b - a);
    binary::lemma_two_adds(t, e);
    let (zt, ze) = (binary::two(t) as int, binary::two(e) as int);
    assert(n * (zt * ze) == (q * d) * zt) by (nonlinear_arith)
        requires
            q * d == n * ze,
    ;
    exact::law_quotient_is_exact(
        single::difference_of(snr, low),
        single::difference_of(high, low),
        n,
        d,
        q,
        t,
        t,
        e,
    );
    lemma_thousand();
    exact::law_product_is_exact(
        single::quotient_of(single::difference_of(snr, low), single::difference_of(high, low)),
        sheets::THOUSAND,
        q,
        1000,
        e,
        0,
    );
    if x == a {
        assert(q == 0) by (nonlinear_arith)
            requires
                q * d == 0 * ze,
                d > 0,
        ;
    }
    if x == b {
        assert(q == ze) by (nonlinear_arith)
            requires
                q * d == d * ze,
                d > 0,
        ;
    }
}

proof fn lemma_thousand()
    ensures
        exact::fixed(sheets::THOUSAND, 1000, 0),
{
    let m = sheets::THOUSAND as int;
    assert(single::mag(sheets::THOUSAND) == m);
    assert(m / 0x80_0000 == 136 && m % 0x80_0000 == 0x7A_0000);
    binary::lemma_two_adds(14, 135);
    assert(binary::two(14) == 16384) by {
        reveal_with_fuel(binary::two, 15);
    }
    let z = binary::two(135) as int;
    assert(0xFA_0000 * z == 1000 * (16384 * z)) by (nonlinear_arith);
}

} // verus!
