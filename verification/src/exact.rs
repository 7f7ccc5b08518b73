//! Numbers on which arithmetic is exact: as long as sums and products of whole numbers over a
//! power of two stay within the bits of a single, nothing is rounded.

use vstd::prelude::*;

use crate::binary;
use crate::dots;
use crate::double;
use crate::number;
use crate::root;
use crate::single;

verus! {

/// The single `b` is `x` over two to the power `t`.
pub open spec fn fixed(b: u32, x: int, t: nat) -> bool {
    &&& t <= 149
    &&& single::mag(b) < single::INF
    &&& single::signed_units(b) == x * binary::two((149 - t) as nat)
}

/// A whole number within the bits of a single.
pub open spec fn within(x: int) -> bool {
    -0x100_0000 < x < 0x100_0000
}

/// The sum of the products of the first `n` numbers.
pub open spec fn dot(x: Seq<int>, y: Seq<int>, n: int) -> int
    decreases n,
{
    if n <= 0 {
        0
    } else {
        dot(x, y, n - 1) + x[n - 1] * y[n - 1]
    }
}

/// The pattern of `n` units times two to the power `k`.
spec fn pattern(n: nat, k: nat) -> int
    decreases k,
{
    if n >= 0x80_0000 || k == 0 {
        (k * 0x80_0000 + n) as int
    } else {
        pattern(2 * n, (k - 1) as nat)
    }
}

proof fn lemma_pattern(n: nat, k: nat)
    requires
        n < 0x100_0000,
        k <= 149,
    ensures
        0 <= pattern(n, k) < single::INF,
        single::units(pattern(n, k)) == n * binary::two(k),
    decreases k,
{
    let m = pattern(n, k);
    if n >= 0x80_0000 {
        assert(m / 0x80_0000 == k + 1 && m % 0x80_0000 == n - 0x80_0000);
    } else if k == 0 {
        assert(n * 1 == n);
    } else {
        lemma_pattern(2 * n, (k - 1) as nat);
        let t = binary::two((k - 1) as nat);
        assert((2 * n) * t == n * (2 * t)) by (nonlinear_arith);
    }
}

/// A number within the bits of a single is a single.
proof fn lemma_is_single(x: int, t: nat) -> (b: u32)
    requires
        within(x),
        t <= 149,
    ensures
        fixed(b, x, t),
        single::neg(b) == (x < 0),
        x == 0 ==> b == 0,
        single::mag(b) < single::INF,
{
    let n = if x < 0 {
        -x
    } else {
        x
    } as nat;
    let k = (149 - t) as nat;
    lemma_pattern(n, k);
    let m = pattern(n, k);
    let z = binary::two(k);
    binary::lemma_two_adds(k, 0);
    assert((-x) * z == -(x * z)) by (nonlinear_arith);
    let b = single::signed(m as u32, x < 0);
    assert(single::mag(b) == m);
    if x == 0 {
        lemma_units_zero(m);
        assert(0 * z == 0);
    }
    b
}

proof fn lemma_units_zero(m: int)
    requires
        0 <= m < single::INF,
    ensures
        (single::units(m) == 0) == (m == 0),
{
    if m >= 0x80_0000 {
        let k = (m / 0x80_0000 - 1) as nat;
        binary::lemma_two_adds(k, 0);
        let s = m % 0x80_0000 + 0x80_0000;
        let t = binary::two(k);
        assert(s * t > 0) by (nonlinear_arith)
            requires
                s > 0,
                t > 0,
        ;
    }
}

/// A number has one value at a scale.
pub proof fn law_value_is_unique(b: u32, x: int, y: int, t: nat)
    requires
        fixed(b, x, t),
        fixed(b, y, t),
    ensures
        x == y,
{
    let z = binary::two((149 - t) as nat);
    binary::lemma_two_adds((149 - t) as nat, 0);
    assert(x == y) by (nonlinear_arith)
        requires
            x * z == y * z,
            z > 0,
    ;
}

/// The same number over a larger power of two.
pub proof fn law_finer(b: u32, x: int, t: nat, g: nat)
    requires
        fixed(b, x, t),
        t + g <= 149,
    ensures
        fixed(b, x * binary::two(g), t + g),
{
    let k = (149 - t - g) as nat;
    binary::lemma_two_adds(k, g);
    assert(k + g == (149 - t) as nat);
    let (y, z) = (binary::two(k), binary::two(g));
    assert(x * (y * z) == (x * z) * y) by (nonlinear_arith);
}

/// Sums are exact.
pub proof fn law_sum_is_exact(a: u32, b: u32, x: int, y: int, t: nat)
    requires
        fixed(a, x, t),
        fixed(b, y, t),
        within(x + y),
    ensures
        fixed(single::sum_of(a, b), x + y, t),
{
    let r = lemma_is_single(x + y, t);
    let z = binary::two((149 - t) as nat);
    binary::lemma_two_adds((149 - t) as nat, 0);
    let v = x + y;
    assert(v * z == x * z + y * z) by (nonlinear_arith)
        requires
            v == x + y,
    ;
    assert((v * z == 0) == (v == 0) && (v * z < 0) == (v < 0)) by (nonlinear_arith)
        requires
            z > 0,
    ;
    if v == 0 {
        let q = if single::neg(a) && single::neg(b) {
            single::SIGN
        } else {
            0
        };
        assert(single::sums(a, b, q));
        single::law_results_are_unique(a, b, q);
        assert(single::units(0) == 0);
        assert(0 * z == 0);
    } else {
        single::law_value_reads_back(single::mag(r));
        assert(single::sums(a, b, r));
        single::law_results_are_unique(a, b, r);
    }
}

/// Differences are exact.
pub proof fn law_difference_is_exact(a: u32, b: u32, x: int, y: int, t: nat)
    requires
        fixed(a, x, t),
        fixed(b, y, t),
        within(x - y),
    ensures
        fixed(single::difference_of(a, b), x - y, t),
{
    let z = binary::two((149 - t) as nat);
    assert((-y) * z == -(y * z)) by (nonlinear_arith);
    assert(fixed(single::flipped(b), -y, t));
    law_sum_is_exact(a, single::flipped(b), x, -y, t);
}

/// Products are exact.
pub proof fn law_product_is_exact(a: u32, b: u32, x: int, y: int, t: nat, g: nat)
    requires
        fixed(a, x, t),
        fixed(b, y, g),
        t + g <= 149,
        within(x * y),
    ensures
        fixed(single::product_of(a, b), x * y, t + g),
{
    let v = x * y;
    let w = lemma_is_single(v, t + g);
    let m = single::mag(w);
    let (ka, kb, kv) = ((149 - t) as nat, (149 - g) as nat, (149 - t - g) as nat);
    binary::lemma_two_adds(ka, 0);
    binary::lemma_two_adds(kb, 0);
    binary::lemma_two_adds(kv, 0);
    binary::lemma_two_adds(149, 0);
    binary::lemma_two_adds(ka, kb);
    binary::lemma_two_adds(kv, 149);
    assert(ka + kb == kv + 149);
    let (za, zb, zv, u) = (
        binary::two(ka),
        binary::two(kb),
        binary::two(kv),
        single::unit_count(),
    );
    let (ua, ub, um) = (
        single::units(single::mag(a)),
        single::units(single::mag(b)),
        single::units(m),
    );
    let (sa, sb) = (single::signed_units(a), single::signed_units(b));
    assert(za * zb == zv * u);
    assert(sa * sb == (v * zv) * u) by (nonlinear_arith)
        requires
            sa == x * za,
            sb == y * zb,
            za * zb == zv * u,
            v == x * y,
    ;
    let negative = single::neg(a) != single::neg(b);
    assert(ua * ub == um * u) by {
        assert(ua * ub == sa * sb || ua * ub == -(sa * sb)) by (nonlinear_arith)
            requires
                sa == ua || sa == -ua,
                sb == ub || sb == -ub,
        ;
        let s = single::signed_units(w);
        assert(s == v * zv);
        assert(um * u == s * u || um * u == -(s * u)) by (nonlinear_arith)
            requires
                s == um || s == -um,
        ;
        assert(ua * ub >= 0 && um * u >= 0) by (nonlinear_arith);
    }
    // The sign of the result, but for a zero, is that of the product.
    let r = single::signed(m as u32, negative);
    assert(single::mag(r) == m && single::neg(r) == negative);
    single::law_value_reads_back(m);
    assert(u * u > 0) by (nonlinear_arith)
        requires
            u > 0,
    ;
    assert((ua * ub) * u == um * (u * u)) by (nonlinear_arith)
        requires
            ua * ub == um * u,
    ;
    binary::law_rounds_fraction(um, u, (ua * ub) as nat, (u * u) as nat, 24, -149, 128, m);
    assert(single::multiplies(a, b, r));
    single::law_results_are_unique(a, b, r);
    if v == 0 {
        assert(m == 0);
        assert(0 * zv == 0);
        assert(single::units(0) == 0);
    } else {
        assert(v * zv != 0) by (nonlinear_arith)
            requires
                v != 0,
                zv > 0,
        ;
        assert(negative == (v < 0)) by {
            assert((x < 0) == single::neg(a) && (y < 0) == single::neg(b)) by {
                assert(x != 0 && y != 0) by (nonlinear_arith)
                    requires
                        v == x * y,
                        v != 0,
                ;
                assert((sa < 0) == (x < 0) && sa != 0) by (nonlinear_arith)
                    requires
                        sa == x * za,
                        za > 0,
                        x != 0,
                ;
                assert((sb < 0) == (y < 0) && sb != 0) by (nonlinear_arith)
                    requires
                        sb == y * zb,
                        zb > 0,
                        y != 0,
                ;
            }
            assert((v < 0) == ((x < 0) != (y < 0))) by (nonlinear_arith)
                requires
                    v == x * y,
                    v != 0,
            ;
        }
        assert(r == w);
    }
}

/// Numbers read off singles, all over one power of two.
pub open spec fn all_fixed(b: Seq<u32>, x: Seq<int>, t: nat) -> bool {
    &&& b.len() == x.len()
    &&& forall|i: int| 0 <= i < b.len() ==> fixed(#[trigger] b[i], x[i], t)
}

/// No product and no sum on the way to the first `n` leaves the bits of a single.
pub open spec fn dot_within(x: Seq<int>, y: Seq<int>, n: int) -> bool {
    forall|i: int| 0 <= i < n ==> within(#[trigger] x[i] * y[i]) && within(dot(x, y, i + 1))
}

/// A sum of products, taken in order, is exact.
pub proof fn law_dot_is_exact(
    a: Seq<u32>,
    b: Seq<u32>,
    x: Seq<int>,
    y: Seq<int>,
    t: nat,
    g: nat,
    n: int,
)
    requires
        0 <= n <= a.len(),
        n <= b.len(),
        all_fixed(a, x, t),
        all_fixed(b, y, g),
        t + g <= 149,
        dot_within(x, y, n),
    ensures
        fixed(dots::dense_dot(a, b, n), dot(x, y, n), t + g),
    decreases n,
{
    if n > 0 {
        law_dot_is_exact(a, b, x, y, t, g, n - 1);
        assert(within(x[n - 1] * y[n - 1]) && within(dot(x, y, n - 1 + 1)));
        assert(fixed(a[n - 1], x[n - 1], t) && fixed(b[n - 1], y[n - 1], g));
        law_product_is_exact(a[n - 1], b[n - 1], x[n - 1], y[n - 1], t, g);
        law_sum_is_exact(
            dots::dense_dot(a, b, n - 1),
            single::product_of(a[n - 1], b[n - 1]),
            dot(x, y, n - 1),
            x[n - 1] * y[n - 1],
            t + g,
        );
    } else {
        assert(0 * binary::two((149 - t - g) as nat) == 0);
        assert(single::units(0) == 0);
    }
}

/// Sums of products are linear: where each number is `c` times one plus `d` times another, so is
/// the sum.
pub proof fn law_dot_is_linear(
    x: Seq<int>,
    u: Seq<int>,
    v: Seq<int>,
    c: int,
    d: int,
    y: Seq<int>,
    n: int,
)
    requires
        forall|i: int| 0 <= i < n ==> #[trigger] x[i] == c * u[i] + d * v[i],
    ensures
        dot(x, y, n) == c * dot(u, y, n) + d * dot(v, y, n),
    decreases n,
{
    if n > 0 {
        law_dot_is_linear(x, u, v, c, d, y, n - 1);
        let i = n - 1;
        let (p, q) = (dot(u, y, i), dot(v, y, i));
        let (a, b, e) = (u[i], v[i], y[i]);
        assert(x[i] == c * a + d * b);
        assert((c * a + d * b) * e == c * (a * e) + d * (b * e)) by {
            vstd::arithmetic::mul::lemma_mul_is_distributive_add_other_way(e, c * a, d * b);
            vstd::arithmetic::mul::lemma_mul_is_associative(c, a, e);
            vstd::arithmetic::mul::lemma_mul_is_associative(d, b, e);
        }
        vstd::arithmetic::mul::lemma_mul_is_distributive_add(c, p, a * e);
        vstd::arithmetic::mul::lemma_mul_is_distributive_add(d, q, b * e);
    } else {
        assert(c * 0 + d * 0 == 0) by (nonlinear_arith);
    }
}

/// A whole number is a single.
pub proof fn law_whole_is_exact(n: nat)
    requires
        n < 0x100_0000,
    ensures
        fixed(single::single_of(n), n as int, 0),
{
    let w = lemma_is_single(n as int, 0);
    let m = single::mag(w);
    let u = single::unit_count();
    binary::lemma_two_adds(149, 0);
    single::law_value_reads_back(m);
    assert(single::units(m) == n * u);
    assert((n * u) * 1 == n * u) by (nonlinear_arith);
    binary::law_rounds_fraction(single::units(m), u, n, 1, 24, -149, 128, m);
    assert(single::nearest(n, 1, false, w));
    let q = single::single_of(n);
    assert(single::nearest(n, 1, false, q));
    binary::law_rounds_unique(n, 1, 24, -149, 128, m, single::mag(q));
    assert(w == q);
}

/// One is one.
pub proof fn law_one_is_exact()
    ensures
        fixed(single::ONE, 1, 0),
{
    assert(single::mag(single::ONE) == 0x3F80_0000);
    assert(binary::two(23) == 0x80_0000) by {
        reveal_with_fuel(binary::two, 24);
    }
    binary::lemma_two_adds(23, 126);
    assert(single::units(single::mag(single::ONE)) == single::unit_count());
    let u = single::unit_count() as int;
    assert(1 * u == u);
}

proof fn lemma_absolute_units(b: u32, x: int, t: nat) -> (n: nat)
    requires
        fixed(b, x, t),
    ensures
        n == if x < 0 {
            -x
        } else {
            x
        },
        single::units(single::mag(b)) == n * binary::two((149 - t) as nat),
        x != 0 ==> single::neg(b) == (x < 0),
{
    let n = if x < 0 {
        -x
    } else {
        x
    } as nat;
    let z = binary::two((149 - t) as nat);
    binary::lemma_two_adds((149 - t) as nat, 0);
    assert((-x) * z == -(x * z)) by (nonlinear_arith);
    assert((x * z < 0) == (x < 0) && (x * z == 0) == (x == 0)) by (nonlinear_arith)
        requires
            z > 0,
    ;
    n
}

/// Quotients are exact where they come out even: `q` over two to the power `e`.
pub proof fn law_quotient_is_exact(
    a: u32,
    b: u32,
    x: int,
    y: int,
    q: int,
    t: nat,
    g: nat,
    e: nat,
)
    requires
        fixed(a, x, t),
        fixed(b, y, g),
        y != 0,
        within(q),
        e <= 149,
        x * binary::two(g + e) == (q * y) * binary::two(t),
    ensures
        fixed(single::quotient_of(a, b), q, e),
{
    let w = lemma_is_single(q, e);
    let m = single::mag(w);
    let nx = lemma_absolute_units(a, x, t);
    let ny = lemma_absolute_units(b, y, g);
    let nq = lemma_absolute_units(w, q, e);
    let (kx, ky, kq) = ((149 - t) as nat, (149 - g) as nat, (149 - e) as nat);
    let (zx, zy, zq, zt, zge, u) = (
        binary::two(kx) as int,
        binary::two(ky) as int,
        binary::two(kq) as int,
        binary::two(t) as int,
        binary::two(g + e) as int,
        single::unit_count() as int,
    );
    binary::lemma_two_adds(kx, t);
    binary::lemma_two_adds(t, 0);
    binary::lemma_two_adds(ky, kq);
    binary::lemma_two_adds(ky + kq, g + e);
    binary::lemma_two_adds(149, 149);
    binary::lemma_two_adds(149, 0);
    binary::lemma_two_adds(ky, 0);
    binary::lemma_two_adds(g + e, 0);
    assert(kx + t == 149 && ky + kq + (g + e) == 298);
    let (ax, ay, aq) = (nx as int, ny as int, nq as int);
    assert(ax * zge == (aq * ay) * zt) by {
        let v = q * y;
        assert(ax * zge == x * zge || ax * zge == -(x * zge)) by (nonlinear_arith)
            requires
                ax == x || ax == -x,
        ;
        assert(aq * ay == v || aq * ay == -v) by (nonlinear_arith)
            requires
                v == q * y,
                aq == q || aq == -q,
                ay == y || ay == -y,
        ;
        let p = aq * ay;
        assert(p >= 0 && ax >= 0) by (nonlinear_arith)
            requires
                p == aq * ay,
                aq >= 0,
                ay >= 0,
                ax >= 0,
        ;
        assert(p * zt == v * zt || p * zt == -(v * zt)) by (nonlinear_arith)
            requires
                p == v || p == -v,
        ;
        assert(ax * zge >= 0 && p * zt >= 0) by (nonlinear_arith)
            requires
                ax >= 0,
                p >= 0,
                zge >= 0,
                zt >= 0,
        ;
    }
    let (ua, ub, um) = (ax * zx, ay * zy, aq * zq);
    assert(um * ub == ua * u) by {
        let zyq = zy * zq;
        assert(um * ub == (aq * ay) * zyq) by (nonlinear_arith)
            requires
                um == aq * zq,
                ub == ay * zy,
                zyq == zy * zq,
        ;
        let (l, r) = (um * ub, ua * u);
        assert(l * zt == r * zt) by {
            let p = aq * ay;
            assert(l * zt == ax * (zyq * zge)) by (nonlinear_arith)
                requires
                    l == p * zyq,
                    ax * zge == p * zt,
            ;
            assert(r * zt == ax * (u * u)) by (nonlinear_arith)
                requires
                    r == ua * u,
                    ua == ax * zx,
                    zx * zt == u,
            ;
            assert(zyq * zge == u * u);
        }
        assert(l == r) by (nonlinear_arith)
            requires
                l * zt == r * zt,
                zt > 0,
        ;
    }
    assert(ub > 0) by (nonlinear_arith)
        requires
            ub == ay * zy,
            ay > 0,
            zy > 0,
    ;
    lemma_units_zero(single::mag(b));
    let negative = single::neg(a) != single::neg(b);
    let r = single::signed(m as u32, negative);
    assert(single::mag(r) == m && single::neg(r) == negative);
    single::law_value_reads_back(m);
    assert(ua * u == um * ub);
    binary::law_rounds_fraction(um as nat, u as nat, ua as nat, ub as nat, 24, -149, 128, m);
    assert(single::divides(a, b, r));
    single::law_results_are_unique(a, b, r);
    if q == 0 {
        assert(m == 0);
        assert(0 * zq == 0);
        assert(single::units(0) == 0);
    } else {
        assert(x != 0 && (x < 0) == ((q < 0) != (y < 0))) by {
            let v = q * y;
            assert(v != 0 && (v < 0) == ((q < 0) != (y < 0))) by (nonlinear_arith)
                requires
                    v == q * y,
                    q != 0,
                    y != 0,
            ;
            assert((x < 0) == (v < 0) && x != 0) by (nonlinear_arith)
                requires
                    x * zge == v * zt,
                    zge > 0,
                    zt > 0,
                    v != 0,
            ;
        }
        assert(r == w);
    }
}

/// Square roots are exact where they come out even.
pub proof fn law_root_is_exact(a: u32, x: int, t: nat)
    requires
        0 < x,
        within(x),
        2 * t <= 149,
        fixed(a, x * x, 2 * t),
    ensures
        fixed(root::root_of(a), x, t),
{
    let w = lemma_is_single(x, t);
    let m = single::mag(w);
    let k = (149 - 2 * t) as nat;
    let (z, y, u) = (
        binary::two((149 - t) as nat) as int,
        binary::two(k) as int,
        single::unit_count() as int,
    );
    binary::lemma_two_adds((149 - t) as nat, (149 - t) as nat);
    binary::lemma_two_adds(k, 149);
    binary::lemma_two_adds(k, 0);
    binary::lemma_two_adds((149 - t) as nat, 0);
    assert((149 - t) as nat + (149 - t) as nat == k + 149);
    assert(z * z == y * u);
    assert(x * x > 0) by (nonlinear_arith)
        requires
            x > 0,
    ;
    let n = lemma_absolute_units(a, x * x, 2 * t);
    let ua = single::units(single::mag(a)) as int;
    let um = single::units(m) as int;
    assert(um == x * z);
    assert(um * um == ua * u) by (nonlinear_arith)
        requires
            um == x * z,
            ua == (x * x) * y,
            z * z == y * u,
    ;
    assert(um > 0) by (nonlinear_arith)
        requires
            um == x * z,
            x > 0,
            z > 0,
    ;
    lemma_units_zero(m);
    lemma_units_zero(single::mag(a));
    assert(ua > 0) by (nonlinear_arith)
        requires
            ua == (x * x) * y,
            x * x > 0,
            y > 0,
    ;
    root::lemma_root_is_even(single::mag(a), m);
    assert(root::roots(a, w));
    let q = root::root_of(a);
    assert(root::roots(a, q));
    root::law_root_unique(a, w, q);
}

// ---- doubles ------------------------------------------------------------------------------------

/// The double `b` is `x` over two to the power `t`.
pub open spec fn fixed_double(b: u64, x: int, t: nat) -> bool {
    &&& t <= 1074
    &&& double::mag(b) < double::INF
    &&& double::signed_units(b) == x * binary::two((1074 - t) as nat)
}

/// A whole number within the bits of a double.
pub open spec fn within_double(x: int) -> bool {
    -0x20_0000_0000_0000 < x < 0x20_0000_0000_0000
}

spec fn wide_pattern(n: nat, k: nat) -> int
    decreases k,
{
    if n >= 0x10_0000_0000_0000 || k == 0 {
        (k * 0x10_0000_0000_0000 + n) as int
    } else {
        wide_pattern(2 * n, (k - 1) as nat)
    }
}

proof fn lemma_wide_pattern(n: nat, k: nat)
    requires
        n < 0x20_0000_0000_0000,
        k <= 1074,
    ensures
        0 <= wide_pattern(n, k) < double::INF,
        double::units(wide_pattern(n, k)) == n * binary::two(k),
    decreases k,
{
    let m = wide_pattern(n, k);
    if n >= 0x10_0000_0000_0000 {
        assert(m / 0x10_0000_0000_0000 == k + 1 && m % 0x10_0000_0000_0000 == n
            - 0x10_0000_0000_0000);
    } else if k == 0 {
        assert(n * 1 == n);
    } else {
        lemma_wide_pattern(2 * n, (k - 1) as nat);
        let t = binary::two((k - 1) as nat);
        assert((2 * n) * t == n * (2 * t)) by (nonlinear_arith);
    }
}

proof fn lemma_is_double(x: int, t: nat) -> (b: u64)
    requires
        within_double(x),
        t <= 1074,
    ensures
        fixed_double(b, x, t),
        double::neg(b) == (x < 0),
        x == 0 ==> b == 0,
{
    let n = if x < 0 {
        -x
    } else {
        x
    } as nat;
    let k = (1074 - t) as nat;
    lemma_wide_pattern(n, k);
    let m = wide_pattern(n, k);
    let z = binary::two(k);
    binary::lemma_two_adds(k, 0);
    assert((-x) * z == -(x * z)) by (nonlinear_arith);
    let b = double::signed(m as u64, x < 0);
    assert(double::mag(b) == m);
    if x == 0 {
        assert(0 * z == 0);
        number::law_value_reads_back(m as u64);
        double::lemma_value_units(m as u64);
        let (p, u) = (number::value_n(m as u64), double::unit_count());
        binary::lemma_two_adds(1074, 0);
        assert(0 * number::value_d(m as u64) == 0);
        assert(p == 0) by (nonlinear_arith)
            requires
                p * u == 0,
                u > 0,
        ;
    }
    b
}

/// The value of a finite double rounds to it.
proof fn lemma_double_reads_back(m: u64)
    requires
        m < double::INF,
    ensures
        binary::rounds(double::units(m as int), double::unit_count(), 53, -1074, 1024, m as int),
{
    number::law_value_reads_back(m);
    double::lemma_value_units(m);
    binary::lemma_two_adds(1074, 0);
    binary::law_rounds_fraction(
        number::value_n(m),
        number::value_d(m),
        double::units(m as int),
        double::unit_count(),
        53,
        -1074,
        1024,
        m as int,
    );
}

/// Sums of doubles are exact.
pub proof fn law_double_sum_is_exact(a: u64, b: u64, x: int, y: int, t: nat)
    requires
        fixed_double(a, x, t),
        fixed_double(b, y, t),
        within_double(x + y),
    ensures
        fixed_double(double::sum_of(a, b), x + y, t),
{
    let r = lemma_is_double(x + y, t);
    let z = binary::two((1074 - t) as nat);
    binary::lemma_two_adds((1074 - t) as nat, 0);
    let v = x + y;
    assert(v * z == x * z + y * z) by (nonlinear_arith)
        requires
            v == x + y,
    ;
    assert((v * z == 0) == (v == 0) && (v * z < 0) == (v < 0)) by (nonlinear_arith)
        requires
            z > 0,
    ;
    if v == 0 {
        let q = if double::neg(a) && double::neg(b) {
            double::SIGN
        } else {
            0
        };
        assert(double::sums(a, b, q));
        double::law_results_are_unique(a, b, q);
        assert(double::units(0) == 0);
        assert(0 * z == 0);
    } else {
        lemma_double_reads_back(double::mag(r) as u64);
        assert(double::sums(a, b, r));
        double::law_results_are_unique(a, b, r);
    }
}

/// Widening changes no value.
pub proof fn law_widening_is_exact(b: u32, x: int, t: nat)
    requires
        fixed(b, x, t),
        within(x),
    ensures
        fixed_double(double::wide(b), x, t),
{
    let w = lemma_is_double(x, t);
    let m = double::mag(w);
    let n = lemma_absolute_units(b, x, t);
    let (ks, kd) = ((149 - t) as nat, (1074 - t) as nat);
    let (zs, zd, u, v) = (
        binary::two(ks) as int,
        binary::two(kd) as int,
        single::unit_count() as int,
        double::unit_count() as int,
    );
    binary::lemma_two_adds(ks, 1074);
    binary::lemma_two_adds(kd, 149);
    binary::lemma_two_adds(149, 0);
    binary::lemma_two_adds(1074, 0);
    binary::lemma_two_adds(kd, 0);
    assert(ks + 1074 == kd + 149);
    assert(zs * v == zd * u);
    let (us, ud) = (single::units(single::mag(b)) as int, double::units(m) as int);
    let an = n as int;
    assert((-x) * zd == -(x * zd)) by (nonlinear_arith);
    assert(ud == an * zd);
    assert(ud * u == us * v) by (nonlinear_arith)
        requires
            ud == an * zd,
            us == an * zs,
            zs * v == zd * u,
    ;
    let r = double::signed(m as u64, single::neg(b));
    assert(double::mag(r) == m && double::neg(r) == single::neg(b));
    lemma_double_reads_back(m as u64);
    binary::law_rounds_fraction(
        ud as nat,
        v as nat,
        us as nat,
        u as nat,
        53,
        -1074,
        1024,
        m,
    );
    assert(double::widens(b, r));
    let q = double::wide(b);
    assert(double::widens(b, q));
    binary::law_rounds_unique(us as nat, u as nat, 53, -1074, 1024, m, double::mag(q));
    assert(r == q);
    if x == 0 {
        assert(0 * zd == 0);
        assert(double::units(0) == 0);
        assert(m == 0);
    } else {
        assert(r == w);
    }
}

/// Narrowing is exact where the value is a single.
pub proof fn law_narrowing_is_exact(b: u64, x: int, t: nat)
    requires
        fixed_double(b, x, t),
        within(x),
        t <= 149,
    ensures
        fixed(double::narrowed(b), x, t),
{
    let w = lemma_is_single(x, t);
    let k = single::mag(w);
    let m = double::mag(b) as u64;
    let (ks, kd) = ((149 - t) as nat, (1074 - t) as nat);
    let (zs, zd, u, v) = (
        binary::two(ks) as int,
        binary::two(kd) as int,
        single::unit_count() as int,
        double::unit_count() as int,
    );
    binary::lemma_two_adds(ks, 1074);
    binary::lemma_two_adds(kd, 149);
    binary::lemma_two_adds(149, 0);
    binary::lemma_two_adds(1074, 0);
    binary::lemma_two_adds(kd, 0);
    assert(ks + 1074 == kd + 149);
    assert(zs * v == zd * u);
    let an = lemma_absolute_units(w, x, t) as int;
    assert((-x) * zd == -(x * zd)) by (nonlinear_arith);
    assert((x * zd < 0) == (x < 0) && (x * zd == 0) == (x == 0)) by (nonlinear_arith)
        requires
            zd > 0,
    ;
    let (us, ud) = (single::units(k) as int, double::units(m as int) as int);
    assert(ud == an * zd);
    assert(ud * u == us * v) by (nonlinear_arith)
        requires
            ud == an * zd,
            us == an * zs,
            zs * v == zd * u,
    ;
    number::law_value_reads_back(m);
    double::lemma_value_units(m);
    let (n, d) = (number::value_n(m) as int, number::value_d(m) as int);
    assert(us * d == n * u) by {
        let (l, r) = (us * d, n * u);
        assert(l * v == r * v) by (nonlinear_arith)
            requires
                l == us * d,
                r == n * u,
                ud * u == us * v,
                n * v == ud * d,
        ;
        assert(l == r) by (nonlinear_arith)
            requires
                l * v == r * v,
                v > 0,
        ;
    }
    single::law_value_reads_back(k);
    binary::law_rounds_fraction(us as nat, u as nat, n as nat, d as nat, 24, -149, 128, k);
    let r = single::signed(k as u32, double::neg(b));
    assert(single::mag(r) == k && single::neg(r) == double::neg(b));
    assert(number::narrows(b, r));
    let q = double::narrowed(b);
    assert(number::narrows(b, q));
    binary::law_rounds_unique(n as nat, d as nat, 24, -149, 128, k, single::mag(q));
    assert(r == q);
    if x == 0 {
        assert(0 * zs == 0);
        assert(single::units(0) == 0);
        assert(k == 0);
    } else {
        assert(r == w);
    }
}

proof fn lemma_double_zero(m: int)
    requires
        0 <= m < double::INF,
    ensures
        (double::units(m) == 0) == (m == 0),
{
    if m >= 0x10_0000_0000_0000 {
        let k = (m / 0x10_0000_0000_0000 - 1) as nat;
        binary::lemma_two_adds(k, 0);
        let s = m % 0x10_0000_0000_0000 + 0x10_0000_0000_0000;
        let t = binary::two(k);
        assert(s * t > 0) by (nonlinear_arith)
            requires
                s > 0,
                t > 0,
        ;
    }
}

proof fn lemma_absolute_double(b: u64, x: int, t: nat) -> (n: nat)
    requires
        fixed_double(b, x, t),
    ensures
        n == if x < 0 {
            -x
        } else {
            x
        },
        double::units(double::mag(b)) == n * binary::two((1074 - t) as nat),
        x != 0 ==> double::neg(b) == (x < 0),
{
    let n = if x < 0 {
        -x
    } else {
        x
    } as nat;
    let z = binary::two((1074 - t) as nat);
    binary::lemma_two_adds((1074 - t) as nat, 0);
    assert((-x) * z == -(x * z)) by (nonlinear_arith);
    assert((x * z < 0) == (x < 0) && (x * z == 0) == (x == 0)) by (nonlinear_arith)
        requires
            z > 0,
    ;
    n
}

/// Products of doubles are exact.
pub proof fn law_double_product_is_exact(a: u64, b: u64, x: int, y: int, t: nat, g: nat)
    requires
        fixed_double(a, x, t),
        fixed_double(b, y, g),
        t + g <= 1074,
        within_double(x * y),
    ensures
        fixed_double(double::product_of(a, b), x * y, t + g),
{
    let v = x * y;
    let w = lemma_is_double(v, t + g);
    let m = double::mag(w);
    let (ka, kb, kv) = ((1074 - t) as nat, (1074 - g) as nat, (1074 - t - g) as nat);
    binary::lemma_two_adds(ka, 0);
    binary::lemma_two_adds(kb, 0);
    binary::lemma_two_adds(kv, 0);
    binary::lemma_two_adds(1074, 0);
    binary::lemma_two_adds(ka, kb);
    binary::lemma_two_adds(kv, 1074);
    assert(ka + kb == kv + 1074);
    let (za, zb, zv, u) = (
        binary::two(ka),
        binary::two(kb),
        binary::two(kv),
        double::unit_count(),
    );
    let (ua, ub, um) = (
        double::units(double::mag(a)),
        double::units(double::mag(b)),
        double::units(m),
    );
    let (sa, sb) = (double::signed_units(a), double::signed_units(b));
    assert(za * zb == zv * u);
    assert(sa * sb == (v * zv) * u) by (nonlinear_arith)
        requires
            sa == x * za,
            sb == y * zb,
            za * zb == zv * u,
            v == x * y,
    ;
    let negative = double::neg(a) != double::neg(b);
    assert(ua * ub == um * u) by {
        assert(ua * ub == sa * sb || ua * ub == -(sa * sb)) by (nonlinear_arith)
            requires
                sa == ua || sa == -ua,
                sb == ub || sb == -ub,
        ;
        let s = double::signed_units(w);
        assert(s == v * zv);
        assert(um * u == s * u || um * u == -(s * u)) by (nonlinear_arith)
            requires
                s == um || s == -um,
        ;
        assert(ua * ub >= 0 && um * u >= 0) by (nonlinear_arith);
    }
    // The sign of the result, but for a zero, is that of the product.
    let r = double::signed(m as u64, negative);
    assert(double::mag(r) == m && double::neg(r) == negative);
    lemma_double_reads_back(m as u64);
    assert(u * u > 0) by (nonlinear_arith)
        requires
            u > 0,
    ;
    assert((ua * ub) * u == um * (u * u)) by (nonlinear_arith)
        requires
            ua * ub == um * u,
    ;
    binary::law_rounds_fraction(um, u, (ua * ub) as nat, (u * u) as nat, 53, -1074, 1024, m);
    assert(double::multiplies(a, b, r));
    double::law_results_are_unique(a, b, r);
    if v == 0 {
        assert(m == 0);
        assert(0 * zv == 0);
        assert(double::units(0) == 0);
    } else {
        assert(v * zv != 0) by (nonlinear_arith)
            requires
                v != 0,
                zv > 0,
        ;
        assert(negative == (v < 0)) by {
            assert((x < 0) == double::neg(a) && (y < 0) == double::neg(b)) by {
                assert(x != 0 && y != 0) by (nonlinear_arith)
                    requires
                        v == x * y,
                        v != 0,
                ;
                assert((sa < 0) == (x < 0) && sa != 0) by (nonlinear_arith)
                    requires
                        sa == x * za,
                        za > 0,
                        x != 0,
                ;
                assert((sb < 0) == (y < 0) && sb != 0) by (nonlinear_arith)
                    requires
                        sb == y * zb,
                        zb > 0,
                        y != 0,
                ;
            }
            assert((v < 0) == ((x < 0) != (y < 0))) by (nonlinear_arith)
                requires
                    v == x * y,
                    v != 0,
            ;
        }
        assert(r == w);
    }
}

/// Quotients of doubles are exact where they come out even.
pub proof fn law_double_quotient_is_exact(
    a: u64,
    b: u64,
    x: int,
    y: int,
    q: int,
    t: nat,
    g: nat,
    e: nat,
)
    requires
        fixed_double(a, x, t),
        fixed_double(b, y, g),
        y != 0,
        within_double(q),
        e <= 1074,
        x * binary::two(g + e) == (q * y) * binary::two(t),
    ensures
        fixed_double(double::quotient_of(a, b), q, e),
{
    let w = lemma_is_double(q, e);
    let m = double::mag(w);
    let nx = lemma_absolute_double(a, x, t);
    let ny = lemma_absolute_double(b, y, g);
    let nq = lemma_absolute_double(w, q, e);
    let (kx, ky, kq) = ((1074 - t) as nat, (1074 - g) as nat, (1074 - e) as nat);
    let (zx, zy, zq, zt, zge, u) = (
        binary::two(kx) as int,
        binary::two(ky) as int,
        binary::two(kq) as int,
        binary::two(t) as int,
        binary::two(g + e) as int,
        double::unit_count() as int,
    );
    binary::lemma_two_adds(kx, t);
    binary::lemma_two_adds(t, 0);
    binary::lemma_two_adds(ky, kq);
    binary::lemma_two_adds(ky + kq, g + e);
    binary::lemma_two_adds(1074, 1074);
    binary::lemma_two_adds(1074, 0);
    binary::lemma_two_adds(ky, 0);
    binary::lemma_two_adds(g + e, 0);
    assert(kx + t == 1074 && ky + kq + (g + e) == 2148);
    let (ax, ay, aq) = (nx as int, ny as int, nq as int);
    assert(ax * zge == (aq * ay) * zt) by {
        let v = q * y;
        assert(ax * zge == x * zge || ax * zge == -(x * zge)) by (nonlinear_arith)
            requires
                ax == x || ax == -x,
        ;
        assert(aq * ay == v || aq * ay == -v) by (nonlinear_arith)
            requires
                v == q * y,
                aq == q || aq == -q,
                ay == y || ay == -y,
        ;
        let p = aq * ay;
        assert(p >= 0 && ax >= 0) by (nonlinear_arith)
            requires
                p == aq * ay,
                aq >= 0,
                ay >= 0,
                ax >= 0,
        ;
        assert(p * zt == v * zt || p * zt == -(v * zt)) by (nonlinear_arith)
            requires
                p == v || p == -v,
        ;
        assert(ax * zge >= 0 && p * zt >= 0) by (nonlinear_arith)
            requires
                ax >= 0,
                p >= 0,
                zge >= 0,
                zt >= 0,
        ;
    }
    let (ua, ub, um) = (ax * zx, ay * zy, aq * zq);
    assert(um * ub == ua * u) by {
        let zyq = zy * zq;
        assert(um * ub == (aq * ay) * zyq) by (nonlinear_arith)
            requires
                um == aq * zq,
                ub == ay * zy,
                zyq == zy * zq,
        ;
        let (l, r) = (um * ub, ua * u);
        assert(l * zt == r * zt) by {
            let p = aq * ay;
            assert(l * zt == ax * (zyq * zge)) by (nonlinear_arith)
                requires
                    l == p * zyq,
                    ax * zge == p * zt,
            ;
            assert(r * zt == ax * (u * u)) by (nonlinear_arith)
                requires
                    r == ua * u,
                    ua == ax * zx,
                    zx * zt == u,
            ;
            assert(zyq * zge == u * u);
        }
        assert(l == r) by (nonlinear_arith)
            requires
                l * zt == r * zt,
                zt > 0,
        ;
    }
    assert(ub > 0) by (nonlinear_arith)
        requires
            ub == ay * zy,
            ay > 0,
            zy > 0,
    ;
    lemma_double_zero(double::mag(b));
    let negative = double::neg(a) != double::neg(b);
    let r = double::signed(m as u64, negative);
    assert(double::mag(r) == m && double::neg(r) == negative);
    lemma_double_reads_back(m as u64);
    assert(ua * u == um * ub);
    binary::law_rounds_fraction(um as nat, u as nat, ua as nat, ub as nat, 53, -1074, 1024, m);
    assert(double::divides(a, b, r));
    double::law_results_are_unique(a, b, r);
    if q == 0 {
        assert(m == 0);
        assert(0 * zq == 0);
        assert(double::units(0) == 0);
    } else {
        assert(x != 0 && (x < 0) == ((q < 0) != (y < 0))) by {
            let v = q * y;
            assert(v != 0 && (v < 0) == ((q < 0) != (y < 0))) by (nonlinear_arith)
                requires
                    v == q * y,
                    q != 0,
                    y != 0,
            ;
            assert((x < 0) == (v < 0) && x != 0) by (nonlinear_arith)
                requires
                    x * zge == v * zt,
                    zge > 0,
                    zt > 0,
                    v != 0,
            ;
        }
        assert(r == w);
    }
}

/// One is one.
pub proof fn law_double_one_is_exact()
    ensures
        fixed_double(double::ONE, 1, 0),
{
    assert(double::mag(double::ONE) == 0x3FF0_0000_0000_0000);
    binary::lemma_two_52();
    binary::lemma_two_adds(52, 1022);
    assert(double::units(double::mag(double::ONE)) == double::unit_count());
    let u = double::unit_count() as int;
    assert(1 * u == u);
}

proof fn lemma_double_grow(m: int)
    requires
        0 <= m < double::INF,
    ensures
        double::units(m) < double::units(m + 1),
{
    if m >= 0x10_0000_0000_0000 {
        let k = (m / 0x10_0000_0000_0000 - 1) as nat;
        let s = m % 0x10_0000_0000_0000 + 0x10_0000_0000_0000;
        let t = binary::two(k) as int;
        binary::lemma_two_adds(k, 0);
        assert((s + 1) * t == s * t + t) by (nonlinear_arith);
        if m % 0x10_0000_0000_0000 == 0xF_FFFF_FFFF_FFFF {
            assert((m + 1) / 0x10_0000_0000_0000 == k + 2 && (m + 1) % 0x10_0000_0000_0000 == 0);
            assert(binary::two((k + 1) as nat) == 2 * t);
            assert(0x10_0000_0000_0000 * (2 * t) == (s + 1) * t) by (nonlinear_arith)
                requires
                    s == 0x1F_FFFF_FFFF_FFFF,
            ;
        } else {
            assert((m + 1) / 0x10_0000_0000_0000 == m / 0x10_0000_0000_0000);
        }
    } else if m + 1 == 0x10_0000_0000_0000 {
        assert(binary::two(0) == 1);
        assert(0x10_0000_0000_0000 * 1 == 0x10_0000_0000_0000);
    }
}

proof fn lemma_double_monotone(a: int, b: int)
    requires
        0 <= a <= b <= double::INF,
    ensures
        double::units(a) <= double::units(b),
    decreases b - a,
{
    if a < b {
        lemma_double_monotone(a, b - 1);
        lemma_double_grow(b - 1);
    }
}

/// Doubles are ordered as their values are.
pub proof fn law_doubles_are_ordered(a: u64, b: u64, x: int, y: int, t: nat)
    requires
        fixed_double(a, x, t),
        fixed_double(b, y, t),
    ensures
        double::place(a) is Some,
        double::place(b) is Some,
        double::at_most(a, b) == (x <= y),
{
    let z = binary::two((1074 - t) as nat) as int;
    binary::lemma_two_adds((1074 - t) as nat, 0);
    assert((x * z < y * z) == (x < y) && (x * z == y * z) == (x == y)) by (nonlinear_arith)
        requires
            z > 0,
    ;
    let (m, n) = (double::mag(a), double::mag(b));
    if m < n {
        lemma_double_monotone(m + 1, n);
        lemma_double_grow(m);
    } else if n < m {
        lemma_double_monotone(n + 1, m);
        lemma_double_grow(n);
    }
    lemma_double_monotone(0, m);
    lemma_double_monotone(0, n);
    if m > 0 {
        lemma_double_monotone(1, m);
    }
    if n > 0 {
        lemma_double_monotone(1, n);
    }
}

/// A double in smaller units.
pub proof fn law_double_finer(b: u64, x: int, t: nat, g: nat)
    requires
        fixed_double(b, x, t),
        t + g <= 1074,
    ensures
        fixed_double(b, x * binary::two(g), t + g),
{
    let k = (1074 - t - g) as nat;
    binary::lemma_two_adds(k, g);
    assert(k + g == (1074 - t) as nat);
    let (y, z) = (binary::two(k), binary::two(g));
    assert(x * (y * z) == (x * z) * y) by (nonlinear_arith);
}

/// A whole number within the bits of a double, over a power of two, rounds to itself.
pub proof fn law_fraction_is_exact(n: nat, t: nat, r: u64)
    requires
        within_double(n as int),
        t <= 1074,
        binary::rounds(n, binary::two(t), 53, -1074, 1024, r as int),
    ensures
        fixed_double(r, n as int, t),
{
    let b = lemma_is_double(n as int, t);
    assert(double::mag(b) == b);
    lemma_double_reads_back(b);
    let k = (1074 - t) as nat;
    binary::lemma_two_adds(k, t);
    binary::lemma_two_adds(t, 0);
    binary::lemma_two_adds(1074, 0);
    let (zk, zt) = (binary::two(k), binary::two(t));
    assert((n * zk) * zt == n * (zk * zt)) by (nonlinear_arith);
    binary::law_rounds_fraction(
        double::units(b as int),
        double::unit_count(),
        n,
        zt,
        53,
        -1074,
        1024,
        b as int,
    );
    binary::law_rounds_unique(n, zt, 53, -1074, 1024, b as int, r as int);
}

} // verus!
