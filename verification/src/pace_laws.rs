//! How work is paced: pauses and threads for a share of the machine, wherever the arithmetic is
//! exact.

use vstd::prelude::*;

use crate::binary;
use crate::double;
use crate::exact;
use crate::kernels;
use crate::layer_laws;
use crate::number;
use crate::sampler;
use crate::single;

verus! {

/// Equal fractions have the same integer part.
proof fn lemma_same_part(n: nat, d: nat, v: nat, u: nat)
    requires
        d > 0,
        u > 0,
        n * u == v * d,
    ensures
        n / d == v / u,
{
    let (q, r) = ((v / u) as int, (v % u) as int);
    vstd::arithmetic::div_mod::lemma_fundamental_div_mod(v as int, u as int);
    vstd::arithmetic::div_mod::lemma_mod_bound(v as int, u as int);
    let (ni, di, vi, ui) = (n as int, d as int, v as int, u as int);
    let e = ni - q * di;
    assert(e * ui == r * di) by (nonlinear_arith)
        requires
            e == ni - q * di,
            ni * ui == vi * di,
            vi == ui * q + r,
    ;
    assert(0 <= e < di) by (nonlinear_arith)
        requires
            e * ui == r * di,
            0 <= r < ui,
            di > 0,
            ui > 0,
    ;
    assert(q * di == di * q) by (nonlinear_arith);
    vstd::arithmetic::div_mod::lemma_fundamental_div_mod_converse(ni, di, q, e);
}

/// A double that is not negative is cut to its integer part.
pub proof fn law_truncation_drops_the_fraction(b: u64, x: int, t: nat)
    requires
        exact::fixed_double(b, x, t),
        0 <= x,
        x / (binary::two(t) as int) <= i64::MAX,
    ensures
        number::truncated(b) == x / (binary::two(t) as int),
{
    let m = double::mag(b) as u64;
    let k = (1074 - t) as nat;
    binary::lemma_two_adds(t, k);
    binary::lemma_two_adds(t, 0);
    binary::lemma_two_adds(k, 0);
    let (zt, zk) = (binary::two(t), binary::two(k));
    let un = double::units(m as int);
    assert(x * zk >= 0) by (nonlinear_arith)
        requires
            x >= 0,
            zk > 0,
    ;
    assert(un == x * zk);
    double::lemma_value_units(m);
    binary::lemma_two_adds(1074, 0);
    let (n, d) = (number::value_n(m), number::value_d(m));
    if number::exponent(m) < 0 {
        binary::lemma_two_adds((-number::exponent(m)) as nat, 0);
    }
    lemma_same_part(n, d, un, double::unit_count());
    let xn = x as nat;
    assert(un * zt == xn * (zt * zk)) by (nonlinear_arith)
        requires
            un == xn * zk,
    ;
    lemma_same_part(un, double::unit_count(), xn, zt);
    assert(n / d == xn / zt);
    if b >= double::SIGN {
        assert(x * zk <= 0);
        assert(x == 0) by (nonlinear_arith)
            requires
                x * zk <= 0,
                x >= 0,
                zk > 0,
        ;
        assert(0int / (zt as int) == 0) by {
            vstd::arithmetic::div_mod::lemma_div_basics(zt as int);
        }
    }
}

/// A single that is not negative is rounded to the nearest integer, halves upwards.
pub proof fn law_rounding_is_to_the_nearest(b: u32, x: int, t: nat, max: nat)
    requires
        exact::fixed(b, x, t),
        0 < x,
        (2 * x + binary::two(t)) / (2 * binary::two(t) as int) <= max,
    ensures
        single::rounded(b, max) == (2 * x + binary::two(t)) / (2 * binary::two(t) as int),
{
    let k = (149 - t) as nat;
    binary::lemma_two_adds(t, k);
    binary::lemma_two_adds(t, 0);
    binary::lemma_two_adds(k, 0);
    let (zt, zk) = (binary::two(t), binary::two(k));
    assert(x * zk > 0) by (nonlinear_arith)
        requires
            x > 0,
            zk > 0,
    ;
    binary::lemma_two_adds(149, 0);
    let un = single::units(single::mag(b));
    assert(un == x * zk);
    let xn = x as nat;
    let (n, d) = (2 * un + single::unit_count(), 2 * single::unit_count());
    let (v, u) = (2 * xn + zt, 2 * zt);
    assert(n * u == v * d) by (nonlinear_arith)
        requires
            n == 2 * (xn * zk) + zt * zk,
            d == 2 * (zt * zk),
            v == 2 * xn + zt,
            u == 2 * zt,
    ;
    lemma_same_part(n, d, v, u);
}

proof fn lemma_constants()
    ensures
        exact::fixed_double(kernels::THOUSAND, 1000, 0),
        exact::fixed_double(kernels::HALF, 1, 1),
{
    let m = kernels::THOUSAND as int;
    assert(double::mag(kernels::THOUSAND) == m);
    assert(m / 0x10_0000_0000_0000 == 1032 && m % 0x10_0000_0000_0000 == 0xF_4000_0000_0000);
    binary::lemma_two_52();
    binary::lemma_two_adds(43, 9);
    assert(binary::two(9) == 512) by {
        reveal_with_fuel(binary::two, 10);
    }
    assert(binary::two(43) == 0x800_0000_0000);
    binary::lemma_two_adds(43, 1031);
    let z = binary::two(1031) as int;
    assert(0x1F_4000_0000_0000 * z == 1000 * (0x800_0000_0000 * z)) by (nonlinear_arith);
    let h = kernels::HALF as int;
    assert(double::mag(kernels::HALF) == h);
    assert(h / 0x10_0000_0000_0000 == 1022 && h % 0x10_0000_0000_0000 == 0);
    binary::lemma_two_adds(52, 1021);
    assert(1 * binary::two(1073) == binary::two(1073));
}

/// A pause fills the time up to the baseline over the share, to the nearest millisecond; nothing is
/// paused where the whole machine may be used, or where that time is over.
pub proof fn law_pause_fills_up(
    elapsed: u32,
    a: int,
    baseline: u32,
    b: int,
    fraction: u32,
    f: int,
    t: nat,
    g: nat,
    target: int,
)
    requires
        exact::fixed(elapsed, a, t),
        exact::fixed(baseline, b, t),
        exact::fixed(fraction, f, g),
        0 < t <= 52,
        0 < b,
        0 < f,
        target * f == b * binary::two(g),
        exact::within(target),
        exact::within(target - a),
    ensures
        f >= binary::two(g) || a >= target ==> kernels::pause_of(elapsed, baseline, fraction) == 0,
        f < binary::two(g) && a < target ==> {
            let p = kernels::pause_of(elapsed, baseline, fraction);
            let one = binary::two(t) as int;
            -one < 2 * (p * one) - 2000 * (target - a) <= one
        },
{
    let (zt, zg) = (binary::two(t) as int, binary::two(g) as int);
    binary::lemma_two_adds(t, 0);
    binary::lemma_two_adds(g, 0);
    exact::law_one_is_exact();
    exact::law_finer(single::ONE, 1, 0, g);
    assert(1 * zg == zg);
    layer_laws::law_order_is_that_of_values(single::ONE, fraction, zg, f, g);
    assert(exact::fixed(0, 0, t)) by {
        assert(single::units(0) == 0);
        assert(0 * binary::two((149 - t) as nat) == 0);
    }
    layer_laws::law_order_is_that_of_values(baseline, 0, b, 0, t);
    binary::lemma_two_adds(g, t);
    assert(b * (zg * zt) == (target * f) * zt) by (nonlinear_arith)
        requires
            target * f == b * zg,
    ;
    exact::law_quotient_is_exact(baseline, fraction, b, f, target, t, g, t);
    let goal = single::quotient_of(baseline, fraction);
    layer_laws::law_order_is_that_of_values(elapsed, goal, a, target, t);
    if f < zg && a < target {
        let r = target - a;
        exact::law_difference_is_exact(goal, elapsed, target, a, t);
        let rest = single::difference_of(goal, elapsed);
        exact::law_widening_is_exact(rest, r, t);
        lemma_constants();
        exact::law_double_product_is_exact(double::wide(rest), kernels::THOUSAND, r, 1000, t, 0);
        let ms = double::product_of(double::wide(rest), kernels::THOUSAND);
        let k = (t - 1) as nat;
        exact::law_double_finer(kernels::HALF, 1, 1, k);
        binary::lemma_two_adds(k, 1);
        assert(binary::two(1) == 2) by {
            reveal_with_fuel(binary::two, 2);
        }
        let zk = binary::two(k) as int;
        assert(1 * zk == zk && zt == 2 * zk);
        binary::lemma_two_monotone(k, 51);
        binary::lemma_two_adds(51, 1);
        binary::lemma_two_52();
        exact::law_double_sum_is_exact(ms, kernels::HALF, r * 1000, zk, t);
        let v = r * 1000 + zk;
        vstd::arithmetic::div_mod::lemma_fundamental_div_mod(v, zt);
        vstd::arithmetic::div_mod::lemma_mod_bound(v, zt);
        let p = v / zt;
        assert(p <= v) by (nonlinear_arith)
            requires
                v == zt * p + v % zt,
                0 <= v % zt,
                zt >= 1,
                v >= 0,
        ;
        law_truncation_drops_the_fraction(double::sum_of(ms, kernels::HALF), v, t);
        assert(zt * p == p * zt) by (nonlinear_arith);
    }
}

/// The share of the threads is to the nearest, at least one and no more than there are.
pub proof fn law_threads_are_shared(avail: nat, fraction: u32, f: int, g: nat)
    requires
        0 < avail < 0x100_0000,
        exact::fixed(fraction, f, g),
        0 < f,
        exact::within(avail * f),
        (2 * (avail * f) + binary::two(g)) / (2 * binary::two(g) as int) <= usize::MAX,
    ensures
        ({
            let n = (2 * (avail * f) + binary::two(g)) / (2 * binary::two(g) as int);
            kernels::threads_of(avail, fraction) == if n < 1 {
                1
            } else if n > avail {
                avail as int
            } else {
                n
            }
        }),
{
    exact::law_whole_is_exact(avail);
    exact::law_product_is_exact(single::single_of(avail), fraction, avail as int, f, 0, g);
    let x = avail * f;
    assert(x > 0) by (nonlinear_arith)
        requires
            x == avail * f,
            avail > 0,
            f > 0,
    ;
    law_rounding_is_to_the_nearest(
        single::product_of(single::single_of(avail), fraction),
        x,
        g,
        usize::MAX as nat,
    );
}

/// A percentage stays between one and a hundred.
pub proof fn law_percentage_is_held(v: u32, x: int, t: nat)
    requires
        exact::fixed(v, x, t),
    ensures
        x < binary::two(t) ==> kernels::clamped(Some(v)) == single::ONE,
        kernels::clamped(None) == kernels::HUNDRED,
        sampler::less(kernels::HUNDRED, v) ==> kernels::clamped(Some(v)) == kernels::HUNDRED,
        x >= binary::two(t) && !sampler::less(kernels::HUNDRED, v) ==> kernels::clamped(Some(v))
            == v,
{
    let z = binary::two(t) as int;
    exact::law_one_is_exact();
    exact::law_finer(single::ONE, 1, 0, t);
    assert(1 * z == z);
    layer_laws::law_order_is_that_of_values(v, single::ONE, x, z, t);
}

} // verus!
