//! Square roots of single-precision numbers.

use vstd::prelude::*;

use crate::bignat;
use crate::binary;
use crate::number::NAN_SINGLE;
use crate::single;
use crate::single::{INF, SIGN};

verus! {

/// Twice the number halfway between a magnitude and the next, in units of the smallest.
pub open spec fn halfway(m: int) -> nat {
    single::units(m) + single::units(m + 1)
}

/// Twice the square root of a finite magnitude, squared, in units of the smallest.
pub open spec fn double_root_squared(m: int) -> nat {
    4 * (single::units(m) * single::unit_count())
}

/// The square root of magnitude `a` lies between the halfway points around magnitude `m`.
pub open spec fn root_near(a: int, m: int) -> bool {
    &&& 0 < m < INF
    &&& halfway(m - 1) * halfway(m - 1) <= double_root_squared(a)
    &&& double_root_squared(a) < halfway(m) * halfway(m)
}

/// `r` is the square root of `a`, rounded to nearest. Numbers below zero have none.
pub open spec fn roots(a: u32, r: u32) -> bool {
    if single::is_nan(a) || single::neg(a) && single::mag(a) != 0 {
        r == NAN_SINGLE
    } else if single::mag(a) == 0 || single::is_inf(a) {
        r == a
    } else {
        !single::neg(r) && root_near(single::mag(a), single::mag(r))
    }
}

pub open spec fn root_of(a: u32) -> u32 {
    choose|r: u32| roots(a, r)
}

/// Each magnitude is above the one before it.
pub proof fn lemma_units_grow(m: int)
    requires
        0 <= m < INF,
    ensures
        single::units(m) < single::units(m + 1),
{
    if m >= 0x80_0000 {
        let k = (m / 0x80_0000 - 1) as nat;
        let s = m % 0x80_0000 + 0x80_0000;
        let t = binary::two(k) as int;
        binary::lemma_two_adds(k, 0);
        assert((s + 1) * t == s * t + t) by (nonlinear_arith);
        if m % 0x80_0000 == 0x7F_FFFF {
            assert((m + 1) / 0x80_0000 == k + 2 && (m + 1) % 0x80_0000 == 0);
            assert(binary::two((k + 1) as nat) == 2 * t);
            assert(0x80_0000 * (2 * t) == (s + 1) * t) by (nonlinear_arith)
                requires
                    s == 0xFF_FFFF,
            ;
        } else {
            assert((m + 1) / 0x80_0000 == m / 0x80_0000);
        }
    } else if m + 1 == 0x80_0000 {
        assert(binary::two(0) == 1);
        assert(0x80_0000 * 1 == 0x80_0000);
    }
}

pub proof fn lemma_units_monotone(a: int, b: int)
    requires
        0 <= a <= b <= INF,
    ensures
        single::units(a) <= single::units(b),
    decreases b - a,
{
    if a < b {
        lemma_units_monotone(a, b - 1);
        lemma_units_grow(b - 1);
    }
}

proof fn lemma_squares(x: int, y: int)
    requires
        0 <= x <= y,
    ensures
        x * x <= y * y,
{
    assert(x * x <= y * y) by (nonlinear_arith)
        requires
            0 <= x <= y,
    ;
}

proof fn lemma_halfway_monotone(a: int, b: int)
    requires
        0 <= a <= b < INF,
    ensures
        halfway(a) * halfway(a) <= halfway(b) * halfway(b),
{
    lemma_units_monotone(a, b);
    lemma_units_monotone(a + 1, b + 1);
    lemma_squares(halfway(a) as int, halfway(b) as int);
}

/// A magnitude whose square is another is the root of that.
pub proof fn lemma_root_is_even(a: int, m: int)
    requires
        0 < m < INF,
        single::units(m) * single::units(m) == single::units(a) * single::unit_count(),
    ensures
        root_near(a, m),
{
    lemma_units_grow(m - 1);
    lemma_units_grow(m);
    let (x, y, z) = (
        single::units(m - 1) as int,
        single::units(m) as int,
        single::units(m + 1) as int,
    );
    assert((x + y) * (x + y) <= 4 * (y * y) && 4 * (y * y) < (y + z) * (y + z)) by (
    nonlinear_arith)
        requires
            0 <= x < y < z,
    ;
}

/// A number has one square root.
pub proof fn law_root_unique(a: u32, r: u32, q: u32)
    requires
        roots(a, r),
        roots(a, q),
    ensures
        r == q,
{
    if !(single::is_nan(a) || single::neg(a) && single::mag(a) != 0) && single::mag(a) != 0
        && !single::is_inf(a) {
        let (m, n) = (single::mag(r), single::mag(q));
        if m < n {
            lemma_halfway_monotone(m, n - 1);
        } else if n < m {
            lemma_halfway_monotone(n, m - 1);
        }
    }
}

/// A smaller number has no larger root.
pub proof fn law_root_monotone(a: u32, b: u32, r: u32, q: u32)
    requires
        0 < a <= b < INF,
        roots(a, r),
        roots(b, q),
    ensures
        r <= q,
{
    lemma_units_monotone(a as int, b as int);
    let u = single::unit_count();
    let (x, y) = (single::units(a as int), single::units(b as int));
    assert(x * u <= y * u) by (nonlinear_arith)
        requires
            x <= y,
    ;
    let (m, n) = (single::mag(r), single::mag(q));
    if n < m {
        lemma_halfway_monotone(n, m - 1);
    }
}

/// The number halfway behind a magnitude, doubled: significant bits, and how far they are
/// shifted.
fn halfway_parts(m: u32) -> (r: (u64, u64))
    requires
        m + 1 < INF,
    ensures
        halfway(m as int) == r.0 as nat * binary::two(r.1 as nat),
        r.0 <= 0x400_0000,
        r.1 <= 253,
{
    let (s, k): (u64, u64) = single::split(m);
    let (t, l): (u64, u64) = single::split(m + 1);
    proof {
        let x = binary::two(k as nat) as int;
        let (si, ti) = (s as int, t as int);
        assert((si + ti) * x == si * x + ti * x) by (nonlinear_arith);
        assert((si + 2 * ti) * x == si * x + ti * (2 * x)) by (nonlinear_arith);
    }
    if k == l {
        (s + t, k)
    } else {
        proof {
            lemma_next_shift(m, k, l);
            assert(binary::two(l as nat) == 2 * binary::two(k as nat));
        }
        (s + 2 * t, k)
    }
}

proof fn lemma_next_shift(m: u32, k: u64, l: u64)
    requires
        m + 1 < INF,
        k == if m < 0x80_0000 {
            0
        } else {
            m as int / 0x80_0000 - 1
        },
        l == if m + 1 < 0x80_0000 {
            0
        } else {
            (m + 1) / 0x80_0000 - 1
        },
        k != l,
    ensures
        l == k + 1,
{
}

/// Whether the halfway point behind `m` is at most the root of `a`.
fn halfway_at_most(m: u32, x: &Vec<u32>, Ghost(a): Ghost<int>) -> (r: bool)
    requires
        m + 1 < INF,
        bignat::value(x@) == double_root_squared(a),
    ensures
        r == (halfway(m as int) * halfway(m as int) <= double_root_squared(a)),
{
    let (s, k): (u64, u64) = halfway_parts(m);
    assert(s * s <= 0x400_0000 * 0x400_0000) by (nonlinear_arith)
        requires
            s <= 0x400_0000,
    ;
    let y: Vec<u32> = single::shifted(s * s, 2 * k);
    proof {
        let t = binary::two(k as nat) as int;
        let si = s as int;
        binary::lemma_two_adds(k as nat, k as nat);
        assert((si * t) * (si * t) == (si * si) * (t * t)) by (nonlinear_arith);
    }
    bignat::at_least(x, &y)
}

/// Takes the square root of a number.
pub fn root(a: u32) -> (r: u32)
    ensures
        roots(a, r),
        r == root_of(a),
{
    let r: u32 = find_root(a);
    proof {
        assert(roots(a, root_of(a)));
        law_root_unique(a, r, root_of(a));
    }
    r
}

fn find_root(a: u32) -> (r: u32)
    ensures
        roots(a, r),
{
    let m: u32 = a % SIGN;
    if m > INF || a >= SIGN && m != 0 {
        return NAN_SINGLE;
    }
    if m == 0 || m == INF {
        return a;
    }
    let (s, k): (u64, u64) = single::split(m);
    let x: Vec<u32> = single::shifted(s, k + 151);
    let ghost g = single::mag(a);
    proof {
        let si = s as int;
        let t = binary::two(k as nat) as int;
        let u = single::unit_count() as int;
        binary::lemma_two_adds(k as nat, 151);
        binary::lemma_two_adds(149, 2);
        assert(binary::two(2) == 4) by {
            reveal_with_fuel(binary::two, 3);
        }
        assert(si * (t * (u * 4)) == 4 * ((si * t) * u)) by (nonlinear_arith);
        lemma_first(g);
        lemma_last(g);
    }
    let mut lo: u32 = 0;
    let mut hi: u32 = 0x7F7F_FFFE;
    while hi - lo > 1
        invariant
            lo < hi <= 0x7F7F_FFFE,
            bignat::value(x@) == double_root_squared(g),
            halfway(lo as int) * halfway(lo as int) <= double_root_squared(g),
            double_root_squared(g) < halfway(hi as int) * halfway(hi as int),
        decreases hi - lo,
    {
        let mid: u32 = lo + (hi - lo) / 2;
        if halfway_at_most(mid, &x, Ghost(g)) {
            lo = mid;
        } else {
            hi = mid;
        }
    }
    hi
}

/// The first halfway point is below every root.
proof fn lemma_first(a: int)
    requires
        0 < a < INF,
    ensures
        halfway(0) * halfway(0) <= double_root_squared(a),
{
    lemma_units_monotone(1, a);
    binary::lemma_two_adds(149, 0);
    let (x, u) = (single::units(a), single::unit_count());
    assert(1 <= x * u) by (nonlinear_arith)
        requires
            x >= 1,
            u >= 1,
    ;
    assert(halfway(0) == 1);
}

/// The last halfway point is above every root.
proof fn lemma_last(a: int)
    requires
        0 < a < INF,
    ensures
        double_root_squared(a) < halfway(0x7F7F_FFFE) * halfway(0x7F7F_FFFE),
{
    let m = 0x7F7F_FFFFint;
    lemma_units_monotone(a, m);
    let (x, u) = (single::units(a), single::unit_count());
    let y = single::units(m);
    let z = single::units(m - 1);
    assert(m / 0x80_0000 - 1 == 253 && m % 0x80_0000 == 0x7F_FFFF);
    assert((m - 1) / 0x80_0000 - 1 == 253 && (m - 1) % 0x80_0000 == 0x7F_FFFE);
    binary::lemma_two_adds(149, 104);
    binary::lemma_two_adds(253, 0);
    binary::lemma_two_monotone(2, 104);
    assert(binary::two(2) == 4) by {
        reveal_with_fuel(binary::two, 3);
    }
    let t = binary::two(253) as int;
    let w = binary::two(104) as int;
    let ui = u as int;
    assert(t == ui * w);
    assert(y == 0xFF_FFFF * t && z == 0xFF_FFFE * t);
    assert(t >= 4 * ui) by (nonlinear_arith)
        requires
            t == ui * w,
            w >= 4,
            ui >= 0,
    ;
    let h = halfway(0x7F7F_FFFE) as int;
    assert(h == y + z);
    let (xi, yi) = (x as int, y as int);
    assert(t >= 1);
    assert(yi == 16777215 * t && h == yi + 16777214 * t);
    assert(t < h && 0 < yi && yi < h) by (nonlinear_arith)
        requires
            t >= 1,
            yi == 16777215 * t,
            h == yi + 16777214 * t,
    ;
    assert(4 * (xi * ui) <= yi * t) by (nonlinear_arith)
        requires
            0 <= xi <= yi,
            0 <= 4 * ui <= t,
    ;
    assert(yi * t < h * h) by (nonlinear_arith)
        requires
            0 < t < h,
            0 < yi < h,
    ;
}

} // verus!
