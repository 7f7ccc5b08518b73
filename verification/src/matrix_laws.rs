//! What rows of matrices stand for, and what multiplying by them comes to, wherever the arithmetic
//! is exact: on whole numbers over powers of two that stay within the bits of a single.

use vstd::prelude::*;

use crate::binary;
use crate::dots;
use crate::dspark;
use crate::exact;
use crate::gguf;
use crate::kernels;
use crate::layer_laws;
use crate::sampler;
use crate::single;

verus! {

// ---- weights ------------------------------------------------------------------------------------

/// Two bits of a byte, the pair `m` from below.
pub open spec fn bit_pair(byte: u8, m: int) -> int {
    byte as int / binary::two((2 * m) as nat) as int % 4
}

/// The weight in column `j` of a ternary row at `at`: in each block of 128 columns, which begins
/// with its scale, four columns share a byte; a pair of bits less one counts scales.
pub open spec fn ternary_weight(b: Seq<u8>, at: int, scales: Seq<int>, j: int) -> int {
    scales[j / 128] * (bit_pair(b[at + j / 128 * 34 + 2 + j % 128 / 4], j % 4) - 1)
}

/// The nibble in column `i` of a block of 32 at `base`: the low halves of its bytes are the first
/// 16 columns, the high halves the others.
pub open spec fn nibble(b: Seq<u8>, base: int, i: int) -> int {
    if i < 16 {
        b[base + 4 + i] as int % 16
    } else {
        b[base + 4 + i - 16] as int / 16
    }
}

/// The weight in column `j` of a row of nibbles at `at`: so many scales over the minimum of its
/// block.
pub open spec fn nibble_weight(
    b: Seq<u8>,
    at: int,
    scales: Seq<int>,
    minima: Seq<int>,
    j: int,
) -> int {
    scales[j / 32] * nibble(b, at + j / 32 * 20, j % 32) + minima[j / 32]
}

proof fn lemma_code(b: Seq<u8>, base: int, j: int)
    requires
        0 <= j,
    ensures
        gguf::pq2_code(b, base, j) == bit_pair(b[base + 2 + j / 4], j % 4),
        0 <= gguf::pq2_code(b, base, j) < 4,
{
    reveal_with_fuel(binary::two, 7);
    assert(binary::two(0) == 1 && binary::two(2) == 4 && binary::two(4) == 16 && binary::two(6)
        == 64);
    let m = j % 4;
    if m == 0 {
        assert(binary::two((2 * m) as nat) == 1);
    } else if m == 1 {
        assert(binary::two((2 * m) as nat) == 4);
    } else if m == 2 {
        assert(binary::two((2 * m) as nat) == 16);
    } else {
        assert(binary::two((2 * m) as nat) == 64);
    }
}

/// Four codes that make up a byte, the first in its lowest bits, are those of its four columns.
pub proof fn law_four_codes_share_a_byte(
    b: Seq<u8>,
    base: int,
    i: int,
    c: int,
    d: int,
    e: int,
    f: int,
)
    requires
        0 <= i < 32,
        0 <= c < 4,
        0 <= d < 4,
        0 <= e < 4,
        0 <= f < 4,
        b[base + 2 + i] as int == c + 4 * d + 16 * e + 64 * f,
    ensures
        gguf::pq2_code(b, base, 4 * i) == c,
        gguf::pq2_code(b, base, 4 * i + 1) == d,
        gguf::pq2_code(b, base, 4 * i + 2) == e,
        gguf::pq2_code(b, base, 4 * i + 3) == f,
{
}

proof fn lemma_power(b: u32, e: nat)
    requires
        1 <= e < 255,
        b == e * 0x80_0000,
    ensures
        single::mag(b) < single::INF,
        single::signed_units(b) == binary::two(e + 22),
{
    assert(single::mag(b) == b);
    assert(b / 0x80_0000 == e && b % 0x80_0000 == 0);
    binary::lemma_two_adds(23, (e - 1) as nat);
    assert(binary::two(23) == 0x80_0000) by {
        reveal_with_fuel(binary::two, 24);
    }
}

/// The other sign.
proof fn lemma_flip(b: u32, x: int, t: nat)
    requires
        exact::fixed(b, x, t),
    ensures
        exact::fixed(single::flipped(b), -x, t),
{
    let z = binary::two((149 - t) as nat);
    assert((-x) * z == -(x * z)) by (nonlinear_arith);
}

proof fn lemma_factors(code: int)
    requires
        0 <= code < 4,
    ensures
        exact::fixed(dots::code_single(code), code - 1, 0),
        exact::fixed(single::HALF, 1, 1),
        exact::fixed(dspark::MINUS_HALF, -1, 1),
{
    exact::law_one_is_exact();
    lemma_flip(single::ONE, 1, 0);
    assert(single::flipped(single::ONE) == single::MINUS_ONE);
    lemma_power(single::TWO, 128);
    binary::lemma_two_adds(149, 1);
    assert(binary::two(1) == 2) by {
        reveal_with_fuel(binary::two, 2);
    }
    assert(exact::fixed(single::TWO, 2, 0));
    lemma_power(single::HALF, 126);
    assert(1 * binary::two(148) == binary::two(148));
    lemma_flip(single::HALF, 1, 1);
    assert(single::flipped(single::HALF) == dspark::MINUS_HALF);
    assert(single::units(0) == 0);
    assert(0 * binary::two(149) == 0);
}

/// A decoded value of a ternary row or of a row of nibbles is its weight.
pub proof fn law_values_are_weights(b: Seq<u8>, at: int, s: nat, h: Seq<int>, m: Seq<int>, j: int)
    requires
        0 <= j,
        s <= 149,
    ensures
        exact::fixed(single::wide(dots::half_at(b, at + j / 128 * 34)), h[j / 128], s)
            && exact::within(ternary_weight(b, at, h, j)) ==> exact::fixed(
            dspark::elem(gguf::TYPE_PQ2_0, b, at, j),
            ternary_weight(b, at, h, j),
            s,
        ),
        exact::fixed(single::wide(dots::half_at(b, at + j / 32 * 20)), h[j / 32], s)
            && exact::fixed(single::wide(dots::half_at(b, at + j / 32 * 20 + 2)), m[j / 32], s)
            && exact::within(nibble_weight(b, at, h, m, j)) && exact::within(
            nibble_weight(b, at, h, m, j) - m[j / 32],
        ) ==> exact::fixed(
            dspark::elem(gguf::TYPE_Q4_1, b, at, j),
            nibble_weight(b, at, h, m, j),
            s,
        ),
{
    let base = at + j / 128 * 34;
    let code = gguf::pq2_code(b, base, j % 128);
    lemma_code(b, base, j % 128);
    assert(j % 128 % 4 == j % 4);
    lemma_factors(code);
    let d = single::wide(dots::half_at(b, base));
    if exact::fixed(d, h[j / 128], s) && exact::within(ternary_weight(b, at, h, j)) {
        let (x, y) = (code - 1, h[j / 128]);
        assert(x * y == y * x) by (nonlinear_arith);
        exact::law_product_is_exact(dots::code_single(code), d, x, y, 0, s);
    }
    let at2 = at + j / 32 * 20;
    let q = nibble(b, at2, j % 32);
    exact::law_whole_is_exact(q as nat);
    let d2 = single::wide(dots::half_at(b, at2));
    let m2 = single::wide(dots::half_at(b, at2 + 2));
    let v = h[j / 32] * q;
    if exact::fixed(d2, h[j / 32], s) && exact::fixed(m2, m[j / 32], s) && exact::within(
        v + m[j / 32],
    ) && exact::within(v) {
        exact::law_product_is_exact(d2, single::single_of(q as nat), h[j / 32], q, s, 0);
        exact::law_sum_is_exact(
            single::product_of(d2, single::single_of(q as nat)),
            m2,
            v,
            m[j / 32],
            s,
        );
    }
}

// ---- products with ternary rows -----------------------------------------------------------------

/// The first `n` columns of a ternary block, each times its code less one.
spec fn block_int(b: Seq<u8>, base: int, xi: Seq<int>, off: int, n: int) -> int
    decreases n,
{
    if n <= 0 {
        0
    } else {
        block_int(b, base, xi, off, n - 1) + xi[off + n - 1] * (gguf::pq2_code(b, base, n - 1) - 1)
    }
}

/// No number is larger than `m` in magnitude.
pub open spec fn bounded(x: Seq<int>, m: int) -> bool {
    forall|i: int| 0 <= i < x.len() ==> -m <= #[trigger] x[i] <= m
}

proof fn lemma_block(
    b: Seq<u8>,
    base: int,
    x: Seq<u32>,
    xi: Seq<int>,
    t: nat,
    off: int,
    n: int,
    m: int,
)
    requires
        0 <= off,
        0 <= n,
        off + n <= x.len(),
        exact::all_fixed(x, xi, t),
        t <= 149,
        bounded(xi, m),
        0 <= m,
        2 * m * n < 0x100_0000,
    ensures
        exact::fixed(dots::pq2_block(b, base, x, off, n), block_int(b, base, xi, off, n), t),
        -(2 * m * n) <= block_int(b, base, xi, off, n) <= 2 * m * n,
    decreases n,
{
    if n == 0 {
        assert(single::units(0) == 0);
        assert(0 * binary::two((149 - t) as nat) == 0);
        assert(2 * m * 0 == 0);
    } else {
        assert(2 * m * (n - 1) <= 2 * m * n && 2 * m * n == 2 * m * (n - 1) + 2 * m && 2 * m <= 2
            * m * n) by (nonlinear_arith)
            requires
                m >= 0,
                n >= 1,
        ;
        lemma_block(b, base, x, xi, t, off, n - 1, m);
        let p = off + n - 1;
        assert(exact::fixed(x[p], xi[p], t));
        assert(-m <= xi[p] <= m);
        let code = gguf::pq2_code(b, base, n - 1);
        lemma_code(b, base, n - 1);
        lemma_factors(code);
        let (a, c) = (xi[p], code - 1);
        assert(-(2 * m) <= a * c <= 2 * m) by (nonlinear_arith)
            requires
                -m <= a <= m,
                -1 <= c <= 2,
        ;
        exact::law_product_is_exact(x[p], dots::code_single(code), a, c, t, 0);
        exact::law_sum_is_exact(
            dots::pq2_block(b, base, x, off, n - 1),
            single::product_of(x[p], dots::code_single(code)),
            block_int(b, base, xi, off, n - 1),
            a * c,
            t,
        );
    }
}

/// The weights of a ternary row.
pub open spec fn ternary_weights(b: Seq<u8>, at: int, scales: Seq<int>, n: int) -> Seq<int> {
    Seq::new(n as nat, |j: int| ternary_weight(b, at, scales, j))
}

proof fn lemma_block_adds(
    b: Seq<u8>,
    at: int,
    h: Seq<int>,
    xi: Seq<int>,
    ne0: int,
    k: int,
    n: int,
)
    requires
        0 <= k,
        0 <= n <= 128,
        128 * k + n <= ne0,
    ensures
        exact::dot(xi, ternary_weights(b, at, h, ne0), 128 * k + n) == exact::dot(
            xi,
            ternary_weights(b, at, h, ne0),
            128 * k,
        ) + h[k] * block_int(b, at + k * 34, xi, 128 * k, n),
    decreases n,
{
    let w = ternary_weights(b, at, h, ne0);
    if n == 0 {
        assert(h[k] * 0 == 0);
    } else {
        lemma_block_adds(b, at, h, xi, ne0, k, n - 1);
        let j = 128 * k + n - 1;
        assert(j / 128 == k && j % 128 == n - 1);
        assert(j % 4 == (n - 1) % 4);
        lemma_code(b, at + k * 34, n - 1);
        let c = gguf::pq2_code(b, at + k * 34, n - 1) - 1;
        assert(w[j] == h[k] * c);
        let (a, s, z) = (xi[j], h[k], block_int(b, at + k * 34, xi, 128 * k, n - 1));
        assert(s * (z + a * c) == s * z + a * (s * c)) by (nonlinear_arith);
    }
}

proof fn lemma_small_dot(x: Seq<int>, w: Seq<int>, m: int, n: int, k: int)
    requires
        0 <= k <= x.len(),
        k <= w.len(),
        bounded(x, m),
        bounded(w, n),
        0 <= m,
        0 <= n,
    ensures
        -(m * n * k) <= exact::dot(x, w, k) <= m * n * k,
    decreases k,
{
    if k > 0 {
        lemma_small_dot(x, w, m, n, k - 1);
        let (a, c) = (x[k - 1], w[k - 1]);
        assert(-m <= a <= m && -n <= c <= n);
        assert(-(m * n) <= a * c <= m * n) by (nonlinear_arith)
            requires
                -m <= a <= m,
                -n <= c <= n,
        ;
        assert(m * n * k == m * n * (k - 1) + m * n) by (nonlinear_arith);
    } else {
        assert(m * n * 0 == 0);
    }
}

proof fn lemma_ternary(
    b: Seq<u8>,
    at: int,
    ne0: int,
    x: Seq<u32>,
    xi: Seq<int>,
    t: nat,
    h: Seq<int>,
    s: nat,
    m: int,
    n: int,
    k: int,
)
    requires
        x.len() == ne0,
        exact::all_fixed(x, xi, t),
        t + s <= 149,
        bounded(xi, m),
        bounded(h, n),
        1 <= m,
        1 <= n,
        2 * m * n * ne0 < 0x100_0000,
        h.len() == kernels::blocks(ne0, 128),
        forall|i: int|
            0 <= i < h.len() ==> exact::fixed(
                single::wide(dots::half_at(b, at + i * 34)),
                #[trigger] h[i],
                s,
            ),
        0 <= k <= h.len(),
    ensures
        exact::fixed(
            dots::pq2_dot(b, at, ne0, x, k),
            exact::dot(
                xi,
                ternary_weights(b, at, h, ne0),
                if 128 * k <= ne0 {
                    128 * k
                } else {
                    ne0
                },
            ),
            t + s,
        ),
    decreases k,
{
    let w = ternary_weights(b, at, h, ne0);
    if k == 0 {
        assert(single::units(0) == 0);
        assert(0 * binary::two((149 - t - s) as nat) == 0);
    } else {
        lemma_ternary(b, at, ne0, x, xi, t, h, s, m, n, k - 1);
        let i = k - 1;
        let off = 128 * i;
        assert(off < ne0);
        let q = dots::width(ne0, i, 128);
        let end = if 128 * k <= ne0 {
            128 * k
        } else {
            ne0
        };
        assert(0 <= q <= 128 && off + q == end);
        let base = at + i * 34;
        let d = single::wide(dots::half_at(b, base));
        assert(exact::fixed(d, h[i], s) && -n <= h[i] <= n);
        assert(2 * m * q <= 2 * m * n * ne0) by (nonlinear_arith)
            requires
                1 <= m,
                1 <= n,
                0 <= q <= ne0,
        ;
        lemma_block(b, base, x, xi, t, off, q, m);
        let z = block_int(b, base, xi, off, q);
        let hi = h[i];
        assert(-(2 * m * n * ne0) <= hi * z <= 2 * m * n * ne0) by {
            assert(-(n * (2 * m * q)) <= hi * z <= n * (2 * m * q)) by (nonlinear_arith)
                requires
                    -n <= hi <= n,
                    -(2 * m * q) <= z <= 2 * m * q,
            ;
            assert(n * (2 * m * q) <= 2 * m * n * ne0) by (nonlinear_arith)
                requires
                    1 <= m,
                    1 <= n,
                    0 <= q <= ne0,
            ;
        }
        exact::law_product_is_exact(d, dots::pq2_block(b, base, x, off, q), hi, z, s, t);
        lemma_block_adds(b, at, h, xi, ne0, i, q);
        assert(bounded(w, 2 * n)) by {
            assert forall|j: int| 0 <= j < w.len() implies -(2 * n) <= #[trigger] w[j] <= 2 * n by {
                assert(0 <= j / 128 < h.len());
                let hj = h[j / 128];
                assert(-n <= hj <= n);
                let c = bit_pair(b[at + j / 128 * 34 + 2 + j % 128 / 4], j % 4) - 1;
                assert(-(2 * n) <= hj * c <= 2 * n) by (nonlinear_arith)
                    requires
                        -n <= hj <= n,
                        -1 <= c <= 2,
                ;
            }
        }
        lemma_small_dot(xi, w, m, 2 * n, end);
        assert(m * (2 * n) * end <= 2 * m * n * ne0) by (nonlinear_arith)
            requires
                1 <= m,
                1 <= n,
                0 <= end <= ne0,
        ;
        exact::law_sum_is_exact(
            dots::pq2_dot(b, at, ne0, x, i),
            single::product_of(d, dots::pq2_block(b, base, x, off, q)),
            exact::dot(xi, w, off),
            hi * z,
            t + s,
        );
    }
}

/// The product with a ternary row is the sum of the products with its weights.
pub proof fn law_ternary_product_is_exact(
    b: Seq<u8>,
    row: int,
    ne0: int,
    x: Seq<u32>,
    xi: Seq<int>,
    t: nat,
    h: Seq<int>,
    s: nat,
    m: int,
    n: int,
)
    requires
        x.len() == ne0,
        exact::all_fixed(x, xi, t),
        t + s <= 149,
        bounded(xi, m),
        bounded(h, n),
        1 <= m,
        1 <= n,
        2 * m * n * ne0 < 0x100_0000,
        h.len() == kernels::blocks(ne0, 128),
        forall|i: int|
            0 <= i < h.len() ==> exact::fixed(
                single::wide(dots::half_at(b, row * ((ne0 + 127) / 128 * 34) + i * 34)),
                #[trigger] h[i],
                s,
            ),
    ensures
        exact::fixed(
            dots::pq2_row(b, ne0, row, x),
            exact::dot(xi, ternary_weights(b, row * ((ne0 + 127) / 128 * 34), h, ne0), ne0),
            t + s,
        ),
{
    lemma_ternary(
        b,
        row * kernels::pq2_stride(ne0),
        ne0,
        x,
        xi,
        t,
        h,
        s,
        m,
        n,
        h.len() as int,
    );
}

// ---- quantizing ---------------------------------------------------------------------------------

/// A value is held as the nearest of minus the scale, nothing and the scale.
pub proof fn law_code_is_nearest(v: u32, x: int, scale: u32, m: int, q: int, t: nat, e: nat)
    requires
        exact::fixed(v, x, t),
        exact::fixed(scale, m, t),
        m > 0,
        scale < 0x8000_0000,
        q * m == binary::two(t + e),
        exact::within(q),
        exact::within(x * q),
        t + e + 1 <= 149,
    ensures
        ({
            let c = dspark::block_code(scale as int, v);
            &&& 0 <= c <= 2
            &&& c == 2 <==> 2 * x >= m
            &&& c == 0 <==> 2 * x <= -m
        }),
{
    exact::law_one_is_exact();
    lemma_factors(1);
    let z = binary::two(t + e) as int;
    binary::lemma_two_adds(t + e, 0);
    assert(1 * z == (q * m) * binary::two(0)) by {
        assert((q * m) * 1 == q * m);
        assert(binary::two(0) == 1);
    }
    exact::law_quotient_is_exact(single::ONE, scale, 1, m, q, 0, t, e);
    let inv = single::quotient_of(single::ONE, scale);
    exact::law_product_is_exact(v, inv, x, q, t, e);
    let p = single::product_of(v, inv);
    exact::law_finer(p, x * q, t + e, 1);
    exact::law_finer(single::HALF, 1, 1, t + e);
    exact::law_finer(dspark::MINUS_HALF, -1, 1, t + e);
    assert(binary::two(1) == 2) by {
        reveal_with_fuel(binary::two, 2);
    }
    assert(1 * z == z && (-1) * z == -z);
    layer_laws::law_order_is_that_of_values(single::HALF, p, z, x * q * 2, t + e + 1);
    layer_laws::law_order_is_that_of_values(p, dspark::MINUS_HALF, x * q * 2, -z, t + e + 1);
    assert(q > 0) by (nonlinear_arith)
        requires
            q * m == z,
            z > 0,
            m > 0,
    ;
    assert((z <= x * q * 2) == (m <= 2 * x) && (x * q * 2 <= -z) == (2 * x <= -m))
        by (nonlinear_arith)
        requires
            q * m == z,
            q > 0,
    ;
    assert(scale != 0) by {
        if scale == 0 {
            assert(single::units(0) == 0);
            let u = binary::two((149 - t) as nat);
            binary::lemma_two_adds((149 - t) as nat, 0);
            assert(m * u > 0) by (nonlinear_arith)
                requires
                    m > 0,
                    u > 0,
            ;
        }
    }
}

/// The scale of a block is the largest magnitude in it.
pub proof fn law_scale_is_largest(x: Seq<u32>, off: int, n: int)
    requires
        0 <= off,
        0 <= n,
        off + n <= x.len(),
        forall|i: int| 0 <= i < x.len() ==> single::mag(#[trigger] x[i]) < single::INF,
    ensures
        forall|i: int|
            off <= i < off + n ==> single::mag(#[trigger] x[i]) <= dspark::largest(x, off, n),
        n > 0 ==> exists|i: int|
            off <= i < off + n && single::mag(#[trigger] x[i]) == dspark::largest(x, off, n),
    decreases n,
{
    if n > 0 {
        law_scale_is_largest(x, off, n - 1);
        assert(single::mag(x[off + n - 1]) < single::INF);
        if n == 1 {
            reveal_with_fuel(dspark::largest, 2);
            assert(single::mag(x[off]) == dspark::largest(x, off, 1));
        }
    }
}

// ---- products with rows of nibbles --------------------------------------------------------------

/// Columns `a` to `c` of a block of nibbles, each times its nibble.
spec fn nibbles_int(b: Seq<u8>, base: int, xi: Seq<int>, off: int, a: int, c: int) -> int
    decreases c - a,
{
    if c <= a {
        0
    } else {
        nibbles_int(b, base, xi, off, a, c - 1) + xi[off + c - 1] * nibble(b, base, c - 1)
    }
}

proof fn lemma_nibbles_join(b: Seq<u8>, base: int, xi: Seq<int>, off: int, a: int, c: int, e: int)
    requires
        a <= c <= e,
    ensures
        nibbles_int(b, base, xi, off, a, e) == nibbles_int(b, base, xi, off, a, c) + nibbles_int(
            b,
            base,
            xi,
            off,
            c,
            e,
        ),
    decreases e - c,
{
    if e > c {
        lemma_nibbles_join(b, base, xi, off, a, c, e - 1);
    }
}

proof fn lemma_nibbles_small(
    b: Seq<u8>,
    base: int,
    xi: Seq<int>,
    off: int,
    a: int,
    c: int,
    m: int,
)
    requires
        0 <= off,
        0 <= a <= c <= 32,
        off + c <= xi.len(),
        bounded(xi, m),
        0 <= m,
    ensures
        -(15 * m * (c - a)) <= nibbles_int(b, base, xi, off, a, c) <= 15 * m * (c - a),
    decreases c - a,
{
    if c > a {
        lemma_nibbles_small(b, base, xi, off, a, c - 1, m);
        let (x, y) = (xi[off + c - 1], nibble(b, base, c - 1));
        assert(-m <= x <= m);
        assert(-(15 * m) <= x * y <= 15 * m) by (nonlinear_arith)
            requires
                -m <= x <= m,
                0 <= y <= 15,
        ;
        assert(15 * m * (c - a) == 15 * m * (c - 1 - a) + 15 * m) by (nonlinear_arith);
    } else {
        assert(15 * m * 0 == 0);
    }
}

spec fn least(a: int, b: int) -> int {
    if a <= b {
        a
    } else {
        b
    }
}

proof fn lemma_nibble_block(
    b: Seq<u8>,
    base: int,
    x: Seq<u32>,
    xi: Seq<int>,
    t: nat,
    off: int,
    n: int,
    j: int,
    m: int,
)
    requires
        0 <= off,
        0 <= n <= 32,
        0 <= j <= 16,
        off + n <= x.len(),
        exact::all_fixed(x, xi, t),
        t <= 149,
        bounded(xi, m),
        0 <= m,
        15 * m * n < 0x100_0000,
    ensures
        exact::fixed(
            dots::q4_1_block(b, base, x, off, n, j),
            nibbles_int(b, base, xi, off, 0, least(j, n)) + if n > 16 {
                nibbles_int(b, base, xi, off, 16, least(16 + j, n))
            } else {
                0
            },
            t,
        ),
    decreases j,
{
    if j == 0 {
        assert(single::units(0) == 0);
        assert(0 * binary::two((149 - t) as nat) == 0);
    } else {
        lemma_nibble_block(b, base, x, xi, t, off, n, j - 1, m);
        let byte = b[base + 4 + j - 1] as int;
        let p = dots::q4_1_block(b, base, x, off, n, j - 1);
        let lo = nibbles_int(b, base, xi, off, 0, least(j - 1, n));
        let hi = if n > 16 {
            nibbles_int(b, base, xi, off, 16, least(16 + j - 1, n))
        } else {
            0
        };
        let lo2 = nibbles_int(b, base, xi, off, 0, least(j, n));
        let hi2 = if n > 16 {
            nibbles_int(b, base, xi, off, 16, least(16 + j, n))
        } else {
            0
        };
        let (l1, l2) = (least(j - 1, n), least(j, n));
        lemma_nibbles_small(b, base, xi, off, 0, l1, m);
        lemma_nibbles_small(b, base, xi, off, 0, l2, m);
        if n > 16 {
            lemma_nibbles_small(b, base, xi, off, 16, least(16 + j - 1, n), m);
            lemma_nibbles_small(b, base, xi, off, 16, least(16 + j, n), m);
            let (c, e) = (least(16 + j - 1, n) - 16, least(16 + j, n) - 16);
            assert(15 * m * l2 + 15 * m * c <= 15 * m * n && 15 * m * l2 + 15 * m * e <= 15 * m * n)
                by (nonlinear_arith)
                requires
                    0 <= m,
                    l2 + c <= n,
                    l2 + e <= n,
            ;
        } else {
            assert(15 * m * l2 <= 15 * m * n) by (nonlinear_arith)
                requires
                    0 <= m,
                    0 <= l2 <= n,
            ;
        }
        let a = if j - 1 < n {
            single::sum_of(
                p,
                single::product_of(x[off + j - 1], single::single_of((byte % 16) as nat)),
            )
        } else {
            p
        };
        if j - 1 < n {
            let q = byte % 16;
            let v = xi[off + j - 1];
            assert(exact::fixed(x[off + j - 1], v, t) && -m <= v <= m);
            exact::law_whole_is_exact(q as nat);
            lemma_term(v, q, m, n);
            exact::law_product_is_exact(
                x[off + j - 1],
                single::single_of(q as nat),
                v,
                q,
                t,
                0,
            );
            assert(nibble(b, base, j - 1) == q);
            exact::law_sum_is_exact(
                p,
                single::product_of(x[off + j - 1], single::single_of(q as nat)),
                lo + hi,
                v * q,
                t,
            );
            assert(lo2 == lo + v * q);
        }
        assert(exact::fixed(a, lo2 + hi, t));
        if 16 + j - 1 < n {
            let q = byte / 16;
            let v = xi[off + 16 + j - 1];
            assert(exact::fixed(x[off + 16 + j - 1], v, t) && -m <= v <= m);
            exact::law_whole_is_exact(q as nat);
            lemma_term(v, q, m, n);
            exact::law_product_is_exact(
                x[off + 16 + j - 1],
                single::single_of(q as nat),
                v,
                q,
                t,
                0,
            );
            assert(nibble(b, base, 16 + j - 1) == q);
            exact::law_sum_is_exact(
                a,
                single::product_of(x[off + 16 + j - 1], single::single_of(q as nat)),
                lo2 + hi,
                v * q,
                t,
            );
            assert(hi2 == hi + v * q);
        }
    }
}

proof fn lemma_term(v: int, q: int, m: int, n: int)
    requires
        -m <= v <= m,
        0 <= q <= 15,
        1 <= n,
        15 * m * n < 0x100_0000,
    ensures
        exact::within(v * q),
{
    assert(-(15 * m) <= v * q <= 15 * m && 15 * m <= 15 * m * n) by (nonlinear_arith)
        requires
            -m <= v <= m,
            0 <= q <= 15,
            1 <= n,
    ;
}

/// The sum of `n` numbers from `off` on.
spec fn sum_int(xi: Seq<int>, off: int, n: int) -> int
    decreases n,
{
    if n <= 0 {
        0
    } else {
        sum_int(xi, off, n - 1) + xi[off + n - 1]
    }
}

proof fn lemma_block_sum(x: Seq<u32>, xi: Seq<int>, t: nat, off: int, n: int, m: int)
    requires
        0 <= off,
        0 <= n,
        off + n <= x.len(),
        exact::all_fixed(x, xi, t),
        t <= 149,
        bounded(xi, m),
        0 <= m,
        m * n < 0x100_0000,
    ensures
        exact::fixed(dots::block_sum(x, off, n), sum_int(xi, off, n), t),
        -(m * n) <= sum_int(xi, off, n) <= m * n,
    decreases n,
{
    if n == 0 {
        assert(single::units(0) == 0);
        assert(0 * binary::two((149 - t) as nat) == 0);
        assert(m * 0 == 0);
    } else {
        assert(m * n == m * (n - 1) + m) by (nonlinear_arith);
        lemma_block_sum(x, xi, t, off, n - 1, m);
        let p = off + n - 1;
        assert(exact::fixed(x[p], xi[p], t) && -m <= xi[p] <= m);
        exact::law_sum_is_exact(
            dots::block_sum(x, off, n - 1),
            x[p],
            sum_int(xi, off, n - 1),
            xi[p],
            t,
        );
    }
}

/// The weights of a row of nibbles.
pub open spec fn nibble_weights(
    b: Seq<u8>,
    at: int,
    scales: Seq<int>,
    minima: Seq<int>,
    n: int,
) -> Seq<int> {
    Seq::new(n as nat, |j: int| nibble_weight(b, at, scales, minima, j))
}

proof fn lemma_nibbles_add(
    b: Seq<u8>,
    at: int,
    d: Seq<int>,
    mn: Seq<int>,
    xi: Seq<int>,
    ne0: int,
    k: int,
    n: int,
)
    requires
        0 <= k,
        0 <= n <= 32,
        32 * k + n <= ne0,
    ensures
        exact::dot(xi, nibble_weights(b, at, d, mn, ne0), 32 * k + n) == exact::dot(
            xi,
            nibble_weights(b, at, d, mn, ne0),
            32 * k,
        ) + (d[k] * nibbles_int(b, at + k * 20, xi, 32 * k, 0, n) + mn[k] * sum_int(xi, 32 * k, n)),
    decreases n,
{
    let w = nibble_weights(b, at, d, mn, ne0);
    if n == 0 {
        assert(d[k] * 0 == 0 && mn[k] * 0 == 0);
    } else {
        lemma_nibbles_add(b, at, d, mn, xi, ne0, k, n - 1);
        let j = 32 * k + n - 1;
        assert(j / 32 == k && j % 32 == n - 1);
        let q = nibble(b, at + k * 20, n - 1);
        assert(w[j] == d[k] * q + mn[k]);
        let (a, s, u) = (xi[j], d[k], mn[k]);
        let (z, y) = (
            nibbles_int(b, at + k * 20, xi, 32 * k, 0, n - 1),
            sum_int(xi, 32 * k, n - 1),
        );
        assert(s * (z + a * q) + u * (y + a) == (s * z + u * y) + a * (s * q + u))
            by (nonlinear_arith);
    }
}

#[verifier::spinoff_prover]
#[verifier::rlimit(60)]
proof fn lemma_nibble_row(
    b: Seq<u8>,
    at: int,
    ne0: int,
    x: Seq<u32>,
    xi: Seq<int>,
    t: nat,
    d: Seq<int>,
    mn: Seq<int>,
    s: nat,
    m: int,
    n: int,
    k: int,
)
    requires
        x.len() == ne0,
        exact::all_fixed(x, xi, t),
        t + s <= 149,
        bounded(xi, m),
        bounded(d, n),
        bounded(mn, n),
        1 <= m,
        1 <= n,
        16 * m * n * ne0 < 0x100_0000,
        d.len() == kernels::blocks(ne0, 32),
        mn.len() == d.len(),
        forall|i: int|
            0 <= i < d.len() ==> exact::fixed(
                single::wide(dots::half_at(b, at + i * 20)),
                #[trigger] d[i],
                s,
            ),
        forall|i: int|
            0 <= i < d.len() ==> exact::fixed(
                single::wide(dots::half_at(b, at + i * 20 + 2)),
                #[trigger] mn[i],
                s,
            ),
        0 <= k <= d.len(),
    ensures
        exact::fixed(
            dots::q4_1_dot(b, at, ne0, x, k),
            exact::dot(
                xi,
                nibble_weights(b, at, d, mn, ne0),
                if 32 * k <= ne0 {
                    32 * k
                } else {
                    ne0
                },
            ),
            t + s,
        ),
    decreases k,
{
    let w = nibble_weights(b, at, d, mn, ne0);
    if k == 0 {
        assert(single::units(0) == 0);
        assert(0 * binary::two((149 - t - s) as nat) == 0);
    } else {
        lemma_nibble_row(b, at, ne0, x, xi, t, d, mn, s, m, n, k - 1);
        let i = k - 1;
        let off = 32 * i;
        assert(off < ne0);
        let q = dots::width(ne0, i, 32);
        let end = if 32 * k <= ne0 {
            32 * k
        } else {
            ne0
        };
        assert(0 <= q <= 32 && off + q == end);
        let base = at + i * 20;
        let (hd, hm) = (
            single::wide(dots::half_at(b, base)),
            single::wide(dots::half_at(b, base + 2)),
        );
        assert(exact::fixed(hd, d[i], s) && -n <= d[i] <= n);
        assert(exact::fixed(hm, mn[i], s) && -n <= mn[i] <= n);
        assert(15 * m * q <= 16 * m * n * ne0 && m * q <= 16 * m * n * ne0) by (nonlinear_arith)
            requires
                1 <= m,
                1 <= n,
                0 <= q <= ne0,
        ;
        lemma_nibble_block(b, base, x, xi, t, off, q, 16, m);
        lemma_block_sum(x, xi, t, off, q, m);
        lemma_nibbles_small(b, base, xi, off, 0, q, m);
        let z = nibbles_int(b, base, xi, off, 0, q);
        if q > 16 {
            lemma_nibbles_join(b, base, xi, off, 0, 16, q);
        }
        let y = sum_int(xi, off, q);
        let (di, mi) = (d[i], mn[i]);
        lemma_bounds(di, mi, z, y, m, n, q, ne0);
        exact::law_product_is_exact(hd, dots::q4_1_block(b, base, x, off, q, 16), di, z, s, t);
        exact::law_product_is_exact(hm, dots::block_sum(x, off, q), mi, y, s, t);
        exact::law_sum_is_exact(
            single::product_of(hd, dots::q4_1_block(b, base, x, off, q, 16)),
            single::product_of(hm, dots::block_sum(x, off, q)),
            di * z,
            mi * y,
            t + s,
        );
        lemma_nibbles_add(b, at, d, mn, xi, ne0, i, q);
        assert(bounded(w, 16 * n)) by {
            assert forall|j: int| 0 <= j < w.len() implies -(16 * n) <= #[trigger] w[j] <= 16 * n by {
                assert(0 <= j / 32 < d.len());
                let (dj, mj) = (d[j / 32], mn[j / 32]);
                assert(-n <= dj <= n && -n <= mj <= n);
                let c = nibble(b, at + j / 32 * 20, j % 32);
                assert(-(15 * n) <= dj * c <= 15 * n) by (nonlinear_arith)
                    requires
                        -n <= dj <= n,
                        0 <= c <= 15,
                ;
            }
        }
        lemma_small_dot(xi, w, m, 16 * n, end);
        assert(m * (16 * n) * end <= 16 * m * n * ne0) by (nonlinear_arith)
            requires
                1 <= m,
                1 <= n,
                0 <= end <= ne0,
        ;
        exact::law_sum_is_exact(
            dots::q4_1_dot(b, at, ne0, x, i),
            single::sum_of(
                single::product_of(hd, dots::q4_1_block(b, base, x, off, q, 16)),
                single::product_of(hm, dots::block_sum(x, off, q)),
            ),
            exact::dot(xi, w, off),
            di * z + mi * y,
            t + s,
        );
    }
}

proof fn lemma_bounds(d: int, mn: int, z: int, y: int, m: int, n: int, q: int, ne0: int)
    requires
        -n <= d <= n,
        -n <= mn <= n,
        -(15 * m * q) <= z <= 15 * m * q,
        -(m * q) <= y <= m * q,
        1 <= m,
        1 <= n,
        0 <= q <= ne0,
        16 * m * n * ne0 < 0x100_0000,
    ensures
        exact::within(d * z),
        exact::within(mn * y),
        exact::within(d * z + mn * y),
{
    let e = m * q;
    assert(15 * m * q == 15 * e) by (nonlinear_arith)
        requires
            e == m * q,
    ;
    assert(-(n * (15 * e)) <= d * z <= n * (15 * e)) by (nonlinear_arith)
        requires
            -n <= d <= n,
            -(15 * e) <= z <= 15 * e,
    ;
    assert(-(n * e) <= mn * y <= n * e) by (nonlinear_arith)
        requires
            -n <= mn <= n,
            -e <= y <= e,
    ;
    assert(n * (15 * e) + n * e == 16 * (n * e)) by (nonlinear_arith);
    assert(0 <= n * e && 16 * (n * e) <= 16 * m * n * ne0) by (nonlinear_arith)
        requires
            e == m * q,
            1 <= m,
            1 <= n,
            0 <= q <= ne0,
    ;
}

/// The product with a row of nibbles is the sum of the products with its weights.
pub proof fn law_nibble_product_is_exact(
    b: Seq<u8>,
    row: int,
    ne0: int,
    x: Seq<u32>,
    xi: Seq<int>,
    t: nat,
    d: Seq<int>,
    mn: Seq<int>,
    s: nat,
    m: int,
    n: int,
)
    requires
        x.len() == ne0,
        exact::all_fixed(x, xi, t),
        t + s <= 149,
        bounded(xi, m),
        bounded(d, n),
        bounded(mn, n),
        1 <= m,
        1 <= n,
        16 * m * n * ne0 < 0x100_0000,
        d.len() == kernels::blocks(ne0, 32),
        mn.len() == d.len(),
        forall|i: int|
            0 <= i < d.len() ==> exact::fixed(
                single::wide(dots::half_at(b, row * ((ne0 + 31) / 32 * 20) + i * 20)),
                #[trigger] d[i],
                s,
            ),
        forall|i: int|
            0 <= i < d.len() ==> exact::fixed(
                single::wide(dots::half_at(b, row * ((ne0 + 31) / 32 * 20) + i * 20 + 2)),
                #[trigger] mn[i],
                s,
            ),
    ensures
        exact::fixed(
            dots::q4_1_row(b, ne0, row, x),
            exact::dot(xi, nibble_weights(b, row * ((ne0 + 31) / 32 * 20), d, mn, ne0), ne0),
            t + s,
        ),
{
    lemma_nibble_row(
        b,
        row * kernels::q4_1_stride(ne0),
        ne0,
        x,
        xi,
        t,
        d,
        mn,
        s,
        m,
        n,
        d.len() as int,
    );
}

// ---- sizes --------------------------------------------------------------------------------------

/// A matrix occupies its rows, one behind the other.
pub proof fn law_rows_fill_a_matrix(ty: u32, columns: u64, rows: u64)
    requires
        dspark::supported(ty),
    ensures
        gguf::shape_bytes(ty, seq![columns, rows]) == rows * dspark::row_size(ty, columns as int),
        gguf::shape_bytes(ty, seq![columns]) == dspark::row_size(ty, columns as int),
{
    let dims = seq![columns, rows];
    reveal_with_fuel(gguf::product, 3);
    assert(dims.skip(1) =~= seq![rows]);
    let one = seq![columns];
    assert(one.skip(1) =~= Seq::<u64>::empty());
    assert(gguf::product(Seq::<u64>::empty()) == 1);
    assert(seq![rows].drop_last() =~= Seq::<u64>::empty());
    assert(seq![rows].skip(1) =~= Seq::<u64>::empty());
    let rows_only = seq![rows];
    assert(rows_only.last() == rows);
    assert(gguf::product(rows_only) == gguf::product(rows_only.drop_last()) * (rows as nat));
    assert(1 * (rows as nat) == rows);
    let n = gguf::nbytes(ty, columns as nat);
    assert(1 * n == n);
}

/// Blocks of a type take a fixed number of bytes: 34 for 128 ternary columns, 20 for 32 nibbles,
/// 54 for 256 columns of the packed ternary type; the others two or four bytes a column.
pub proof fn law_block_sizes(k: nat)
    ensures
        gguf::nbytes(gguf::TYPE_PQ2_0, 128 * k) == 34 * k,
        gguf::nbytes(gguf::TYPE_Q4_1, 32 * k) == 20 * k,
        gguf::nbytes(gguf::TYPE_TQ1_0, 256 * k) == 54 * k,
        gguf::nbytes(gguf::TYPE_F16, k) == 2 * k,
        gguf::nbytes(gguf::TYPE_BF16, k) == 2 * k,
        gguf::nbytes(gguf::TYPE_F32, k) == 4 * k,
{
}

} // verus!
