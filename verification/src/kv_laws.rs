//! What quantized keys and values stand for, wherever the arithmetic is exact, and how a mode is
//! named.

use vstd::prelude::*;

use crate::attention;
use crate::binary;
use crate::exact;
use crate::kvquant;
use crate::kvquant::{KvMode, PlanarQuant};
use crate::planar;
use crate::reply_laws;
use crate::single;
use crate::text;

verus! {

// ---- rotations ----------------------------------------------------------------------------------

/// A table of rotations: cosines and sines over two to the power `g`, none larger than `n`.
pub open spec fn turns(
    table: Seq<(u32, u32)>,
    c: Seq<int>,
    s: Seq<int>,
    g: nat,
    n: int,
    groups: int,
) -> bool {
    &&& table.len() >= groups
    &&& c.len() == groups
    &&& s.len() == groups
    &&& forall|i: int|
        0 <= i < groups ==> exact::fixed((#[trigger] table[i]).0, c[i], g) && exact::fixed(
            table[i].1,
            s[i],
            g,
        ) && -n <= c[i] <= n && -n <= s[i] <= n
}

/// Number `k` of a vector, zero behind its end.
pub open spec fn number_at(x: Seq<int>, k: int) -> int {
    if 0 <= k < x.len() {
        x[k]
    } else {
        0
    }
}

/// A vector turned: each pair by the angle of its group.
pub open spec fn turned(x: Seq<int>, c: Seq<int>, s: Seq<int>) -> Seq<int> {
    Seq::new(
        2 * c.len(),
        |k: int|
            if k % 2 == 0 {
                c[k / 2] * number_at(x, k) - s[k / 2] * number_at(x, k + 1)
            } else {
                s[k / 2] * number_at(x, k - 1) + c[k / 2] * number_at(x, k)
            },
    )
}

/// A vector turned by the opposite angles.
pub open spec fn turned_back(x: Seq<int>, c: Seq<int>, s: Seq<int>) -> Seq<int> {
    turned(x, c, Seq::new(s.len(), |i: int| -s[i]))
}

proof fn lemma_at(x: Seq<u32>, xi: Seq<int>, t: nat, m: int, k: int)
    requires
        exact::all_fixed(x, xi, t),
        t <= 149,
        0 <= k,
        0 <= m,
        forall|i: int| 0 <= i < xi.len() ==> -m <= #[trigger] xi[i] <= m,
    ensures
        exact::fixed(planar::at(x, k), number_at(xi, k), t),
        -m <= number_at(xi, k) <= m,
{
    if k < x.len() {
        assert(exact::fixed(x[k], xi[k], t));
        assert(-m <= xi[k] <= m);
    } else {
        assert(single::units(0) == 0);
        assert(0 * binary::two((149 - t) as nat) == 0);
    }
}

proof fn lemma_flip(b: u32, x: int, t: nat)
    requires
        exact::fixed(b, x, t),
    ensures
        exact::fixed(single::flipped(b), -x, t),
{
    let z = binary::two((149 - t) as nat);
    assert((-x) * z == -(x * z)) by (nonlinear_arith);
}

proof fn lemma_small(a: int, b: int, m: int, n: int)
    requires
        -m <= a <= m,
        -n <= b <= n,
    ensures
        -(n * m) <= b * a <= n * m,
{
    assert(-(n * m) <= b * a <= n * m) by (nonlinear_arith)
        requires
            -m <= a <= m,
            -n <= b <= n,
    ;
}

/// A rotated vector is the vector with each pair turned by the angle of its group.
pub proof fn law_rotation_turns_pairs(
    x: Seq<u32>,
    xi: Seq<int>,
    t: nat,
    m: int,
    table: Seq<(u32, u32)>,
    c: Seq<int>,
    s: Seq<int>,
    g: nat,
    n: int,
    groups: int,
)
    requires
        exact::all_fixed(x, xi, t),
        turns(table, c, s, g, n, groups),
        0 <= groups,
        0 <= m,
        0 <= n,
        t + g <= 149,
        2 * (n * m) < 0x100_0000,
        forall|i: int| 0 <= i < xi.len() ==> -m <= #[trigger] xi[i] <= m,
    ensures
        exact::all_fixed(planar::rotated(x, table, groups), turned(xi, c, s), t + g),
        exact::all_fixed(planar::unrotated(x, table, groups), turned_back(xi, c, s), t + g),
        forall|k: int|
            0 <= k < 2 * groups ==> -(2 * (n * m)) <= #[trigger] turned(xi, c, s)[k] <= 2 * (n * m),
{
    let r = planar::rotated(x, table, groups);
    let u = planar::unrotated(x, table, groups);
    let (ri, ui) = (turned(xi, c, s), turned_back(xi, c, s));
    let back = Seq::new(s.len(), |i: int| -s[i]);
    assert(n * m >= 0) by (nonlinear_arith)
        requires
            n >= 0,
            m >= 0,
    ;
    assert forall|k: int|
        #![trigger r[k]]
        #![trigger u[k]]
        #![trigger ri[k]]
        0 <= k < 2 * groups implies exact::fixed(r[k], ri[k], t + g) && exact::fixed(
        u[k],
        ui[k],
        t + g,
    ) && -(2 * (n * m)) <= ri[k] <= 2 * (n * m) by {
        let i = k / 2;
        let p = k - k % 2;
        assert(p / 2 == i && p % 2 == 0);
        let (cc, ss) = table[i];
        let (ci, si) = (c[i], s[i]);
        assert(exact::fixed(table[i].0, ci, g) && exact::fixed(table[i].1, si, g));
        lemma_at(x, xi, t, m, p);
        lemma_at(x, xi, t, m, p + 1);
        let (a, b) = (planar::at(x, p), planar::at(x, p + 1));
        let (ai, bi) = (number_at(xi, p), number_at(xi, p + 1));
        lemma_small(ai, ci, m, n);
        lemma_small(ai, si, m, n);
        lemma_small(bi, ci, m, n);
        lemma_small(bi, si, m, n);
        exact::law_product_is_exact(cc, a, ci, ai, g, t);
        exact::law_product_is_exact(ss, b, si, bi, g, t);
        exact::law_product_is_exact(ss, a, si, ai, g, t);
        exact::law_product_is_exact(cc, b, ci, bi, g, t);
        lemma_flip(ss, si, g);
        assert((-si) * ai == -(si * ai) && (-si) * bi == -(si * bi)) by (nonlinear_arith);
        exact::law_product_is_exact(single::flipped(ss), a, -si, ai, g, t);
        let ca = single::product_of(cc, a);
        let sb = single::product_of(ss, b);
        let sa = single::product_of(ss, a);
        let cb = single::product_of(cc, b);
        let na = single::product_of(single::flipped(ss), a);
        exact::law_difference_is_exact(ca, sb, ci * ai, si * bi, t + g);
        exact::law_sum_is_exact(sa, cb, si * ai, ci * bi, t + g);
        exact::law_sum_is_exact(ca, sb, ci * ai, si * bi, t + g);
        exact::law_sum_is_exact(na, cb, (-si) * ai, ci * bi, t + g);
        assert(back[i] == -si);
    }
}

/// Rotating back undoes a rotation, up to the square of the table's length.
pub proof fn law_rotating_back_undoes(
    x: Seq<int>,
    c: Seq<int>,
    s: Seq<int>,
    k: int,
)
    requires
        c.len() == s.len(),
        0 <= k < 2 * c.len(),
    ensures
        turned_back(turned(x, c, s), c, s)[k] == (c[k / 2] * c[k / 2] + s[k / 2] * s[k / 2])
            * number_at(x, k),
{
    let r = turned(x, c, s);
    let back = Seq::new(s.len(), |i: int| -s[i]);
    let i = k / 2;
    let p = k - k % 2;
    let (a, b) = (number_at(x, p), number_at(x, p + 1));
    let (ci, si) = (c[i], s[i]);
    assert(p / 2 == i && (p + 1) / 2 == i && p % 2 == 0 && (p + 1) % 2 == 1);
    assert(number_at(r, p) == ci * a - si * b);
    assert(number_at(r, p + 1) == si * a + ci * b);
    assert(back[i] == -si);
    assert(ci * (ci * a - si * b) - (-si) * (si * a + ci * b) == (ci * ci + si * si) * a)
        by (nonlinear_arith);
    assert((-si) * (ci * a - si * b) + ci * (si * a + ci * b) == (ci * ci + si * si) * b)
        by (nonlinear_arith);
}

/// A product with a rotated vector is a product with the other vector rotated back: pair by pair.
pub proof fn law_rotation_moves_over(
    x: Seq<int>,
    w: Seq<int>,
    c: Seq<int>,
    s: Seq<int>,
    groups: int,
)
    requires
        c.len() == s.len(),
        0 <= groups <= c.len(),
        x.len() >= 2 * groups,
        w.len() >= 2 * groups,
    ensures
        exact::dot(turned(x, c, s), w, 2 * groups) == exact::dot(
            x,
            turned_back(w, c, s),
            2 * groups,
        ),
    decreases groups,
{
    if groups > 0 {
        law_rotation_moves_over(x, w, c, s, groups - 1);
        let i = groups - 1;
        let p = 2 * i;
        let r = turned(x, c, s);
        let u = turned_back(w, c, s);
        let back = Seq::new(s.len(), |j: int| -s[j]);
        assert(back[i] == -s[i]);
        assert(p / 2 == i && (p + 1) / 2 == i && p % 2 == 0 && (p + 1) % 2 == 1);
        let (a, b, y, z) = (x[p], x[p + 1], w[p], w[p + 1]);
        let (ci, si) = (c[i], s[i]);
        assert(r[p] == ci * a - si * b && r[p + 1] == si * a + ci * b);
        assert(u[p] == ci * y - (-si) * z && u[p + 1] == (-si) * y + ci * z);
        let (ay, sy, az, bz) = ((ci * a) * y, (si * b) * y, (si * a) * z, (ci * b) * z);
        assert((ci * a - si * b) * y == ay - sy) by (nonlinear_arith)
            requires
                ay == (ci * a) * y,
                sy == (si * b) * y,
        ;
        assert((si * a + ci * b) * z == az + bz) by (nonlinear_arith)
            requires
                az == (si * a) * z,
                bz == (ci * b) * z,
        ;
        assert(a * (ci * y - (-si) * z) == ay + az) by (nonlinear_arith)
            requires
                ay == (ci * a) * y,
                az == (si * a) * z,
        ;
        assert(b * ((-si) * y + ci * z) == bz - sy) by (nonlinear_arith)
            requires
                sy == (si * b) * y,
                bz == (ci * b) * z,
        ;
        reveal_with_fuel(exact::dot, 3);
    }
}

/// The product of a rotated vector with levels is exact.
pub proof fn law_levels_product_is_exact(
    q: Seq<u32>,
    qi: Seq<int>,
    t: nat,
    w: Seq<u32>,
    wi: Seq<int>,
    g: nat,
    n: int,
)
    requires
        0 <= n <= q.len(),
        n <= w.len(),
        exact::all_fixed(q, qi, t),
        exact::all_fixed(w, wi, g),
        t + g <= 149,
        forall|i: int| 0 <= i < n ==> exact::within(#[trigger] qi[i] * wi[i]),
        forall|i: int| 0 <= i <= n ==> exact::within(#[trigger] exact::dot(qi, wi, i)),
    ensures
        exact::fixed(planar::levels_dot(q, w, n), exact::dot(qi, wi, n), t + g),
    decreases n,
{
    if n > 0 {
        law_levels_product_is_exact(q, qi, t, w, wi, g, n - 1);
        let i = n - 1;
        assert(exact::fixed(q[i], qi[i], t) && exact::fixed(w[i], wi[i], g));
        assert(exact::within(qi[i] * wi[i]));
        assert(exact::within(exact::dot(qi, wi, n)));
        exact::law_product_is_exact(q[i], w[i], qi[i], wi[i], t, g);
        exact::law_sum_is_exact(
            planar::levels_dot(q, w, i),
            single::product_of(q[i], w[i]),
            exact::dot(qi, wi, i),
            qi[i] * wi[i],
            t + g,
        );
    } else {
        assert(single::units(0) == 0);
        assert(0 * binary::two((149 - t - g) as nat) == 0);
    }
}

// ---- modes --------------------------------------------------------------------------------------

proof fn lemma_digit_text(b: nat)
    requires
        1 <= b <= 8,
    ensures
        text::decimal(b).len() == 1,
        '0' <= text::decimal(b)[0] <= '9',
{
}

/// A planar mode is named by its width; a `k` behind it leaves the values alone.
pub proof fn law_modes_are_named(b: u32)
    requires
        1 <= b <= 8,
    ensures
        kvquant::mode_of(Some("planar"@ + text::decimal(b as nat))) == (KvMode::Planar {
            bits: b,
            k_only: false,
        }),
        kvquant::mode_of(Some("planar"@ + text::decimal(b as nat) + "k"@)) == (KvMode::Planar {
            bits: b,
            k_only: true,
        }),
        kvquant::mode_of(Some("iso"@ + text::decimal(b as nat))) == (KvMode::Planar {
            bits: b,
            k_only: false,
        }),
        kvquant::mode_of(Some("iso"@ + text::decimal(b as nat) + "k"@)) == (KvMode::Planar {
            bits: b,
            k_only: true,
        }),
        kvquant::mode_of(Some("f16"@)) == KvMode::F16,
        kvquant::mode_of(None) == KvMode::F32,
{
    reveal_strlit("planar");
    reveal_strlit("iso");
    reveal_strlit("k");
    reveal_strlit("f16");
    let d = text::decimal(b as nat);
    lemma_digit_text(b as nat);
    reply_laws::law_decimal_reads_back(b as nat, u32::MAX as nat);
    let (p, i) = ("planar"@ + d, "iso"@ + d);
    let (pk, ik) = (p + "k"@, i + "k"@);
    assert(pk.drop_last() =~= p && ik.drop_last() =~= i);
    assert(pk.last() == 'k' && ik.last() == 'k');
    assert(p.last() == d[0] && i.last() == d[0]);
    assert(p.skip(6) =~= d && i.skip(3) =~= d);
    assert(p.len() == 7 && i.len() == 4 && pk.len() == 8 && ik.len() == 5 && "f16"@.len() == 3);
    assert(text::starts_with(p, "planar"@)) by {
        assert(p.take(6) =~= "planar"@);
        assert(p.subrange(0, 6) =~= "planar"@);
    }
    assert(text::starts_with(i, "iso"@)) by {
        assert(i.take(3) =~= "iso"@);
        assert(i.subrange(0, 3) =~= "iso"@);
    }
    assert(!text::starts_with(i, "planar"@));
    assert(kvquant::planar_bits(p) == Some(b));
    assert(kvquant::planar_bits(i) == Some(b));
}

// ---- attention over quantized rows --------------------------------------------------------------

/// The packed row of head `kv` of token `j`: whole bytes for each head of each token.
pub open spec fn packed_head(packed: Seq<u8>, j: int, kv: int, n_kv: int, p: PlanarQuant) -> Seq<u8> {
    let len = (p.hd_padded * p.bits + 7) / 8;
    packed.subrange((j * n_kv + kv) * len, (j * n_kv + kv) * len + len)
}

/// The score of a rotated query against a quantized key is their product times the key's norm and
/// the scale.
pub proof fn law_quantized_score_is_exact(
    p: PlanarQuant,
    q: Seq<u32>,
    qi: Seq<int>,
    t: nat,
    packed: Seq<u8>,
    norms: Seq<u32>,
    levels: Seq<u32>,
    w: Seq<int>,
    g: nat,
    j: int,
    kv: int,
    n_kv: int,
    norm: int,
    u: nat,
    scale: u32,
    si: int,
    v: nat,
)
    requires
        q.len() >= p.hd_padded,
        exact::all_fixed(q, qi, t),
        w.len() == p.hd_padded,
        forall|d: int|
            0 <= d < p.hd_padded ==> exact::fixed(
                levels[kvquant::packed_at(packed_head(packed, j, kv, n_kv, p), p.bits, d) as int],
                #[trigger] w[d],
                g,
            ),
        exact::fixed(norms[j * n_kv + kv], norm, u),
        exact::fixed(scale, si, v),
        t + g + u + v <= 149,
        forall|i: int| 0 <= i < p.hd_padded ==> exact::within(#[trigger] qi[i] * w[i]),
        forall|i: int| 0 <= i <= p.hd_padded ==> exact::within(#[trigger] exact::dot(qi, w, i)),
        exact::within(exact::dot(qi, w, p.hd_padded as int) * norm),
        exact::within(exact::dot(qi, w, p.hd_padded as int) * norm * si),
    ensures
        exact::fixed(
            attention::planar_score(p, q, packed, norms, levels, j, kv, n_kv, scale),
            exact::dot(qi, w, p.hd_padded as int) * norm * si,
            t + g + u + v,
        ),
{
    let row = attention::packed_row(packed, j, kv, n_kv, attention::row_len(p));
    let len = attention::row_len(p);
    assert(row =~= packed_head(packed, j, kv, n_kv, p));
    let l = planar::levels_at(p, row, levels);
    let n = p.hd_padded as int;
    assert forall|d: int| 0 <= d < l.len() implies exact::fixed(#[trigger] l[d], w[d], g) by {
        assert(exact::fixed(
            levels[kvquant::packed_at(packed_head(packed, j, kv, n_kv, p), p.bits, d) as int],
            w[d],
            g,
        ));
    }
    law_levels_product_is_exact(q, qi, t, l, w, g, n);
    let d = planar::levels_dot(q, l, n);
    let di = exact::dot(qi, w, n);
    exact::law_product_is_exact(d, norms[j * n_kv + kv], di, norm, t + g, u);
    exact::law_product_is_exact(
        single::product_of(d, norms[j * n_kv + kv]),
        scale,
        di * norm,
        si,
        t + g + u,
        v,
    );
}

/// The first `n` tokens' levels, each times its probability and its norm.
pub open spec fn weighed(pi: Seq<int>, ni: Seq<int>, w: Seq<int>, n: int) -> int
    decreases n,
{
    if n <= 0 {
        0
    } else {
        weighed(pi, ni, w, n - 1) + pi[n - 1] * ni[n - 1] * w[n - 1]
    }
}

/// A coordinate of quantized values, mixed by their probabilities, is the sum of their levels,
/// each times its probability and its norm.
pub proof fn law_quantized_mixture_is_exact(
    p: PlanarQuant,
    probs: Seq<u32>,
    pi: Seq<int>,
    t: nat,
    packed: Seq<u8>,
    norms: Seq<u32>,
    ni: Seq<int>,
    u: nat,
    levels: Seq<u32>,
    w: Seq<int>,
    g: nat,
    n: int,
    kv: int,
    n_kv: int,
    d: int,
)
    requires
        0 <= n <= probs.len(),
        ni.len() == probs.len(),
        w.len() == probs.len(),
        0 <= d < p.hd_padded,
        exact::all_fixed(probs, pi, t),
        t + u + g <= 149,
        forall|j: int|
            0 <= j < n ==> exact::fixed(norms[j * n_kv + kv], #[trigger] ni[j], u),
        forall|j: int|
            0 <= j < n ==> exact::fixed(
                levels[kvquant::packed_at(packed_head(packed, j, kv, n_kv, p), p.bits, d) as int],
                #[trigger] w[j],
                g,
            ),
        forall|j: int|
            0 <= j < n ==> exact::within(#[trigger] pi[j] * ni[j]) && exact::within(
                pi[j] * ni[j] * w[j],
            ),
        forall|j: int| 0 <= j <= n ==> exact::within(#[trigger] weighed(pi, ni, w, j)),
    ensures
        exact::fixed(
            attention::planar_sum(p, probs, packed, norms, levels, n, kv, n_kv, d),
            weighed(pi, ni, w, n),
            t + u + g,
        ),
    decreases n,
{
    if n == 0 {
        assert(single::units(0) == 0);
        assert(0 * binary::two((149 - t - u - g) as nat) == 0);
    } else {
        law_quantized_mixture_is_exact(
            p,
            probs,
            pi,
            t,
            packed,
            norms,
            ni,
            u,
            levels,
            w,
            g,
            n - 1,
            kv,
            n_kv,
            d,
        );
        let j = n - 1;
        assert(exact::fixed(probs[j], pi[j], t));
        assert(exact::fixed(norms[j * n_kv + kv], ni[j], u));
        let row = attention::packed_row(packed, j, kv, n_kv, attention::row_len(p));
        assert(row =~= packed_head(packed, j, kv, n_kv, p));
        let l = planar::levels_at(p, row, levels)[d];
        assert(exact::fixed(l, w[j], g));
        assert(exact::within(pi[j] * ni[j]) && exact::within(pi[j] * ni[j] * w[j]));
        assert(exact::within(weighed(pi, ni, w, n)));
        if single::mag(probs[j]) == 0 {
            assert(single::units(0) == 0);
            let z = binary::two((149 - t) as nat) as int;
            binary::lemma_two_adds((149 - t) as nat, 0);
            let a = pi[j];
            assert(a == 0) by (nonlinear_arith)
                requires
                    a * z == 0,
                    z > 0,
            ;
            let (b, c) = (ni[j], w[j]);
            assert(0 * b == 0 && 0 * c == 0);
        } else {
            let m = single::product_of(probs[j], norms[j * n_kv + kv]);
            exact::law_product_is_exact(probs[j], norms[j * n_kv + kv], pi[j], ni[j], t, u);
            exact::law_product_is_exact(m, l, pi[j] * ni[j], w[j], t + u, g);
            exact::law_sum_is_exact(
                attention::planar_sum(p, probs, packed, norms, levels, j, kv, n_kv, d),
                single::product_of(m, l),
                weighed(pi, ni, w, j),
                pi[j] * ni[j] * w[j],
                t + u + g,
            );
        }
    }
}

} // verus!
