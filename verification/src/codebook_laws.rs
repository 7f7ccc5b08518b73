//! How levels and rotations are laid out, wherever the arithmetic is exact: on whole numbers over
//! powers of two that stay within the bits of a double.

use vstd::prelude::*;

use crate::binary;
use crate::codebook;
use crate::codebook::Powers;
use crate::double;
use crate::exact;
use crate::kvquant;
use crate::single;

verus! {

proof fn lemma_units(b: u64, f: nat, e: nat)
    requires
        1 <= e < 2047,
        f < 0x10_0000_0000_0000,
        b == e * 0x10_0000_0000_0000 + f,
    ensures
        double::mag(b) < double::INF,
        double::signed_units(b) == (f + 0x10_0000_0000_0000) * binary::two((e - 1) as nat),
{
    assert(double::mag(b) == b);
    assert(b / 0x10_0000_0000_0000 == e && b % 0x10_0000_0000_0000 == f);
}

proof fn lemma_constants()
    ensures
        exact::fixed_double(codebook::TWO, 2, 0),
        exact::fixed_double(codebook::HALF, 1, 1),
        exact::fixed_double(codebook::REACH, 7, 1),
        exact::fixed_double(codebook::OUTER, 12, 0),
{
    binary::lemma_two_52();
    binary::lemma_two_adds(50, 2);
    binary::lemma_two_adds(51, 1);
    assert(binary::two(1) == 2 && binary::two(2) == 4) by {
        reveal_with_fuel(binary::two, 3);
    }
    assert(binary::two(50) == 0x4_0000_0000_0000 && binary::two(51) == 0x8_0000_0000_0000);
    lemma_units(codebook::TWO, 0, 1024);
    binary::lemma_two_adds(52, 1023);
    binary::lemma_two_adds(1074, 1);
    lemma_units(codebook::HALF, 0, 1022);
    binary::lemma_two_adds(52, 1021);
    assert(1 * binary::two(1073) == binary::two(1073));
    lemma_units(codebook::REACH, 0xC_0000_0000_0000, 1024);
    binary::lemma_two_adds(50, 1023);
    let z = binary::two(1023) as int;
    assert(0x1C_0000_0000_0000 * z == 7 * (0x4_0000_0000_0000 * z)) by (nonlinear_arith);
    lemma_units(codebook::OUTER, 0x8_0000_0000_0000, 1026);
    binary::lemma_two_adds(51, 1025);
    binary::lemma_two_adds(1074, 2);
    let y = binary::two(1025) as int;
    assert(0x18_0000_0000_0000 * y == 3 * (0x8_0000_0000_0000 * y)) by (nonlinear_arith);
}

proof fn lemma_negated(b: u64, x: int, t: nat)
    requires
        exact::fixed_double(b, x, t),
    ensures
        exact::fixed_double(codebook::negated(b), -x, t),
{
    let z = binary::two((1074 - t) as nat);
    assert((-x) * z == -(x * z)) by (nonlinear_arith);
}

/// An edge lies halfway between the levels beside it; the outermost lie twelve deviations out.
pub proof fn law_edges_lie_halfway(
    sigma: u64,
    s: int,
    c: Seq<u64>,
    x: Seq<int>,
    t: nat,
    i: int,
)
    requires
        c.len() == x.len(),
        t + 1 <= 1074,
        exact::fixed_double(sigma, s, t),
        forall|k: int| 0 <= k < c.len() ==> exact::fixed_double(#[trigger] c[k], x[k], t),
        exact::within_double(12 * s),
        0 <= i <= c.len(),
        0 < i < c.len() ==> exact::within_double(x[i - 1] + x[i]),
    ensures
        0 < i < c.len() ==> exact::fixed_double(
            codebook::edge(sigma, c, i),
            x[i - 1] + x[i],
            t + 1,
        ),
        i == 0 ==> exact::fixed_double(codebook::edge(sigma, c, i), -(12 * s), t),
        0 < i && i == c.len() ==> exact::fixed_double(codebook::edge(sigma, c, i), 12 * s, t),
{
    lemma_constants();
    exact::law_double_product_is_exact(codebook::OUTER, sigma, 12, s, 0, t);
    lemma_negated(double::product_of(codebook::OUTER, sigma), 12 * s, t);
    if 0 < i < c.len() {
        assert(exact::fixed_double(c[i - 1], x[i - 1], t) && exact::fixed_double(c[i], x[i], t));
        let v = x[i - 1] + x[i];
        exact::law_double_sum_is_exact(c[i - 1], c[i], x[i - 1], x[i], t);
        binary::lemma_two_adds(t, 1);
        assert(binary::two(1) == 2) by {
            reveal_with_fuel(binary::two, 2);
        }
        let z = binary::two(t) as int;
        assert(v * (z * 2) == (v * 2) * z) by (nonlinear_arith);
        exact::law_double_quotient_is_exact(
            double::sum_of(c[i - 1], c[i]),
            codebook::TWO,
            v,
            2,
            v,
            t,
            0,
            t + 1,
        );
    }
}

/// A level moves to the mean of its interval: times the mass there it is the first moment.
pub proof fn law_level_is_a_mean(
    sigma: u64,
    c: Seq<u64>,
    i: int,
    p: Powers,
    m: int,
    t: nat,
    n: int,
    g: nat,
    q: int,
    e: nat,
)
    requires
        exact::fixed_double(codebook::mass_between(sigma, c, i, p), m, t),
        exact::fixed_double(codebook::moment_between(sigma, i, p), n, g),
        codebook::below(codebook::LEAST_MASS, codebook::mass_between(sigma, c, i, p)),
        m != 0,
        exact::within_double(q),
        e <= 1074,
        n * binary::two(t + e) == (q * m) * binary::two(g),
    ensures
        exact::fixed_double(codebook::next_level(sigma, c, i, p), q, e),
{
    exact::law_double_quotient_is_exact(
        codebook::moment_between(sigma, i, p),
        codebook::mass_between(sigma, c, i, p),
        n,
        m,
        q,
        g,
        t,
        e,
    );
}

proof fn lemma_count(n: nat)
    requires
        n < 0x100_0000,
    ensures
        exact::fixed_double(codebook::real_of(n), n as int, 0),
{
    exact::law_whole_is_exact(n);
    exact::law_widening_is_exact(single::single_of(n), n as int, 0);
}

/// The first levels lie evenly, three and a half deviations to either side: neighbours lie seven
/// deviations over the number of levels apart, and the outermost half of that from the ends.
pub proof fn law_first_levels_are_even(sigma: u64, s: int, t: nat, b: nat, i: int)
    requires
        exact::fixed_double(sigma, s, t),
        b <= 8,
        0 <= i < binary::two(b),
        -0x100_0000 < s < 0x100_0000,
        t + b + 2 <= 1074,
    ensures
        exact::fixed_double(
            codebook::first_level(sigma, binary::two(b), i),
            14 * s * (2 * i + 1 - binary::two(b)),
            t + b + 2,
        ),
{
    let n = binary::two(b);
    binary::lemma_two_monotone(b, 8);
    assert(binary::two(8) == 256) by {
        reveal_with_fuel(binary::two, 9);
    }
    assert(binary::two(1) == 2) by {
        reveal_with_fuel(binary::two, 2);
    }
    lemma_constants();
    lemma_negated(codebook::REACH, 7, 1);
    let lo = double::product_of(codebook::negated(codebook::REACH), sigma);
    let hi = double::product_of(codebook::REACH, sigma);
    assert((-7) * s == -(7 * s));
    exact::law_double_product_is_exact(codebook::negated(codebook::REACH), sigma, -7, s, 1, t);
    exact::law_double_product_is_exact(codebook::REACH, sigma, 7, s, 1, t);
    lemma_negated(lo, -(7 * s), t + 1);
    exact::law_double_sum_is_exact(hi, codebook::negated(lo), 7 * s, 7 * s, t + 1);
    let span = codebook::minus(hi, lo);
    lemma_count(i as nat);
    lemma_count(n);
    let ci = codebook::real_of(i as nat);
    exact::law_double_finer(ci, i, 0, 1);
    exact::law_double_sum_is_exact(ci, codebook::HALF, i * 2, 1, 1);
    let at = double::sum_of(ci, codebook::HALF);
    let k = 2 * i + 1;
    let x = (14 * s) * k;
    assert(-0x20_0000_0000_0000 < x < 0x20_0000_0000_0000) by (nonlinear_arith)
        requires
            x == (14 * s) * k,
            -0x100_0000 < s < 0x100_0000,
            1 <= k < 512,
    ;
    exact::law_double_product_is_exact(span, at, 14 * s, k, t + 1, 1);
    let up = double::product_of(span, at);
    let e = t + b + 2;
    binary::lemma_two_adds(t + 2, b);
    let (z, ni) = (binary::two(t + 2) as int, n as int);
    assert(x * (z * ni) == (x * ni) * z) by (nonlinear_arith);
    exact::law_double_quotient_is_exact(up, codebook::real_of(n), x, ni, x, t + 2, 0, e);
    exact::law_double_finer(lo, -(7 * s), t + 1, b + 1);
    binary::lemma_two_adds(b, 1);
    assert((-(7 * s)) * (ni * 2) == -((14 * s) * ni)) by (nonlinear_arith);
    let y = (14 * s) * ni;
    assert((14 * s) * (k - ni) == x - y) by (nonlinear_arith)
        requires
            x == (14 * s) * k,
            y == (14 * s) * ni,
    ;
    let d = k - ni;
    let v = 14 * s * d;
    assert(-0x20_0000_0000_0000 < v < 0x20_0000_0000_0000) by (nonlinear_arith)
        requires
            v == 14 * s * d,
            -0x100_0000 < s < 0x100_0000,
            -512 < d < 512,
    ;
    exact::law_double_sum_is_exact(
        lo,
        double::quotient_of(up, codebook::real_of(n)),
        -y,
        x,
        e,
    );
}

/// The angles of the rotations are drawn one after the other from a fixed seed: pair `i` from the
/// state `i` increments behind it.
pub proof fn law_angles_are_drawn_in_turn(i: nat)
    ensures
        codebook::givens_state(i as int) as int == (42 + i * 0x9E37_79B9_7F4A_7C15)
            % 0x1_0000_0000_0000_0000,
{
    lemma_givens(i);
    kvquant::law_states_step_evenly(42, i);
}

proof fn lemma_givens(i: nat)
    ensures
        codebook::givens_state(i as int) == kvquant::splitmix_after(42, i),
    decreases i,
{
    if i > 0 {
        lemma_givens((i - 1) as nat);
    }
}

} // verus!
