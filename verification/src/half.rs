//! Conversions between IEEE half and single precision, on bit patterns.

use vstd::arithmetic::power2::*;
use vstd::prelude::*;

verus! {

pub open spec fn half_exp(h: u16) -> int {
    h as int / 0x400 % 0x20
}

pub open spec fn half_man(h: u16) -> int {
    h as int % 0x400
}

/// The magnitude that exponent field `exp` and mantissa field `man` of a half denote, in units
/// of two to the power -24.
pub open spec fn half_mag_of(exp: int, man: int) -> int {
    if exp == 0 {
        man
    } else {
        (0x400 + man) * pow2((exp - 1) as nat)
    }
}

/// The magnitude of the half whose low fifteen bits are `n`, in units of two to the power -24.
pub open spec fn half_mag(n: int) -> int {
    half_mag_of(n / 0x400, n % 0x400)
}

pub open spec fn f32_exp(b: u32) -> int {
    b as int / 0x80_0000 % 0x100
}

pub open spec fn f32_man(b: u32) -> int {
    b as int % 0x80_0000
}

/// The magnitude of a finite single, in units of two to the power -149.
pub open spec fn f32_mag(b: u32) -> int {
    if f32_exp(b) == 0 {
        f32_man(b)
    } else {
        (0x80_0000 + f32_man(b)) * pow2((f32_exp(b) - 1) as nat)
    }
}

/// How many units of a single make one unit of a half.
pub open spec fn half_unit() -> int {
    pow2(125) as int
}

proof fn lemma_shift_mag(a: int, i: nat, j: nat)
    ensures
        a * pow2(i) * pow2(j) == a * pow2(i + j),
{
    lemma_pow2_adds(i, j);
    vstd::arithmetic::mul::lemma_mul_is_associative(a, pow2(i) as int, pow2(j) as int);
}

/// `r` is the single of the same sign and value as the half `h`. Infinities stay infinities,
/// and the mantissa of a NaN moves to the top of the wider field.
pub open spec fn widens(h: u16, r: u32) -> bool {
    &&& r / 0x8000_0000 == h / 0x8000
    &&& half_exp(h) < 0x1f ==> f32_exp(r) < 0xff && f32_mag(r) == half_mag(h as int % 0x8000)
        * half_unit()
    &&& half_exp(h) == 0x1f ==> f32_exp(r) == 0xff && f32_man(r) == half_man(h) * 0x2000
}

/// Widens a half to the single of the same value.
pub fn half_to_f32(h: u16) -> (r: u32)
    ensures
        widens(h, r),
{
    let sign: u32 = (h / 0x8000) as u32;
    let exp: u32 = (h / 0x400 % 0x20) as u32;
    let man: u32 = (h % 0x400) as u32;
    proof {
        assert(h as int % 0x8000 / 0x400 == half_exp(h));
        assert(h as int % 0x8000 % 0x400 == half_man(h));
        lemma2_to64();
    }
    if exp == 0 {
        if man == 0 {
            let r: u32 = sign * 0x8000_0000;
            return r;
        }
        let mut e: u32 = 113;
        let mut m: u32 = man;
        let ghost mut k: nat = 0;
        while m < 0x400
            invariant
                0 < m < 0x800,
                man < 0x400,
                e == 113 - k,
                k <= 10,
                m == man * pow2(k),
                m >= pow2(k),
            decreases 0x800 - m,
        {
            proof {
                lemma2_to64();
                lemma_pow2_unfold(k + 1);
                assert(pow2(k + 1) == 2 * pow2(k));
                assert(2 * m == man * pow2(k + 1)) by (nonlinear_arith)
                    requires
                        m == man * pow2(k),
                        pow2(k + 1) == 2 * pow2(k),
                ;
                if k == 10 {
                    assert(pow2(10) == 1024);
                }
                k = k + 1;
            }
            m = 2 * m;
            e = e - 1;
        }
        let r: u32 = sign * 0x8000_0000 + e * 0x80_0000 + (m - 0x400) * 0x2000;
        proof {
            assert(f32_exp(r) == e);
            assert(f32_man(r) == (m - 0x400) * 0x2000);
            assert(0x80_0000 + f32_man(r) == m * 0x2000);
            let x: nat = (e - 1) as nat;
            lemma_pow2_adds(13, x);
            assert(pow2(13) == 0x2000);
            assert(m * 0x2000 * pow2(x) == m * (0x2000 * pow2(x))) by (nonlinear_arith);
            assert(f32_mag(r) == m * pow2(13 + x));
            lemma_pow2_adds(k, 13 + x);
            assert(man * pow2(k) * pow2(13 + x) == man * (pow2(k) * pow2(13 + x)))
                by (nonlinear_arith);
            assert(k + 13 + x == 125);
        }
        return r;
    }
    if exp == 0x1f {
        let r: u32 = sign * 0x8000_0000 + 0x7f80_0000 + man * 0x2000;
        return r;
    }
    let r: u32 = sign * 0x8000_0000 + (exp + 112) * 0x80_0000 + man * 0x2000;
    proof {
        assert(f32_exp(r) == exp + 112);
        assert(f32_man(r) == man * 0x2000);
        let a: int = 0x400 + man;
        assert(0x80_0000 + f32_man(r) == a * 0x2000);
        assert(pow2(13) == 0x2000);
        lemma_shift_mag(a, 13, (exp + 111) as nat);
        lemma_shift_mag(a, (exp - 1) as nat, 125);
    }
    r
}

/// A finite half other than zero widens to a normal single, with room for one doubling.
pub proof fn lemma_half_is_normal(h: u16, w: u32)
    requires
        widens(h, w),
        half_exp(h) < 0x1f,
        w % 0x8000_0000 != 0,
    ensures
        0 < f32_exp(w) < 0xfe,
{
    lemma2_to64();
    lemma_pow2_adds(23, 102);
    lemma_pow2_pos(102);
    assert(pow2(23) == 0x80_0000);
    let n = h as int % 0x8000;
    let u = half_unit();
    let a = half_mag(n);
    assert(a >= 0) by {
        if n > 0 {
            lemma_half_monotonic(0, n);
        }
    }
    if f32_exp(w) == 0 {
        assert(0x80_0000 * pow2(102) >= 0x80_0000) by (nonlinear_arith)
            requires
                pow2(102) >= 1,
        ;
        assert(f32_man(w) > 0);
        assert(a > 0 ==> a * u >= u) by (nonlinear_arith)
            requires
                u > 0,
        ;
        assert(a == 0 ==> a * u == 0) by (nonlinear_arith);
    } else if f32_exp(w) == 0xfe {
        lemma_half_monotonic(n, 0x7c00);
        lemma_pow2_adds(10, 30);
        lemma_pow2_adds(40, 125);
        lemma_pow2_pos(125);
        vstd::arithmetic::power2::lemma_pow2_strictly_increases(165, 253);
        assert(pow2(10) == 0x400);
        let c = half_mag(0x7c00);
        assert(a * u < c * u) by (nonlinear_arith)
            requires
                a < c,
                u > 0,
        ;
        let f = 0x80_0000 + f32_man(w);
        assert(f * pow2(253) >= pow2(253)) by (nonlinear_arith)
            requires
                f >= 1,
                pow2(253) >= 0,
        ;
    }
}

/// `n` is the half that the single magnitude `mag` rounds to: `mag` lies between the midpoints
/// on either side of `n`, and on a midpoint only if `n` is even. The value that follows the
/// largest finite half stands for infinity.
pub open spec fn rounds_to(mag: int, n: int) -> bool {
    &&& 0 <= n <= 0x7c00
    &&& n > 0 ==> {
        let low = (half_mag(n - 1) + half_mag(n)) * half_unit();
        low < 2 * mag || (low == 2 * mag && n % 2 == 0)
    }
    &&& n < 0x7c00 ==> {
        let high = (half_mag(n) + half_mag(n + 1)) * half_unit();
        2 * mag < high || (2 * mag == high && n % 2 == 0)
    }
}

/// Neighbouring halves differ by one unit in the last place.
proof fn lemma_half_step(n: int)
    requires
        0 <= n <= 0x7c00,
    ensures
        half_mag(n + 1) == half_mag(n) + (if n / 0x400 == 0 {
            1
        } else {
            pow2((n / 0x400 - 1) as nat) as int
        }),
{
    lemma2_to64();
    let e = n / 0x400;
    let m = n % 0x400;
    if m == 0x3ff {
        assert((n + 1) / 0x400 == e + 1 && (n + 1) % 0x400 == 0);
        if e > 0 {
            lemma_pow2_unfold(e as nat);
            let x = pow2((e - 1) as nat) as int;
            assert(0x400 * (2 * x) == (0x400 + 0x3ff) * x + x) by (nonlinear_arith);
        }
    } else {
        assert((n + 1) / 0x400 == e && (n + 1) % 0x400 == m + 1);
        if e > 0 {
            let x = pow2((e - 1) as nat) as int;
            assert((0x400 + m + 1) * x == (0x400 + m) * x + x) by (nonlinear_arith);
        }
    }
}

/// The magnitudes of halves grow with their bit patterns.
proof fn lemma_half_monotonic(i: int, j: int)
    requires
        0 <= i < j <= 0x7c01,
    ensures
        half_mag(i) < half_mag(j),
    decreases j - i,
{
    lemma_half_step(j - 1);
    if (j - 1) / 0x400 > 0 {
        lemma_pow2_pos(((j - 1) / 0x400 - 1) as nat);
    }
    if i < j - 1 {
        lemma_half_monotonic(i, j - 1);
    }
}

/// Rounding is to the nearest: no other half, nor infinity, is closer to `mag`, and one just
/// as close makes `n` even.
pub proof fn law_rounds_to_nearest(mag: int, n: int, k: int)
    requires
        rounds_to(mag, n),
        0 <= mag <= half_mag(0x7c00) * half_unit(),
        0 <= k <= 0x7c00,
        k != n,
    ensures
        ({
            let dn = half_mag(n) * half_unit() - mag;
            let dk = half_mag(k) * half_unit() - mag;
            let an = if dn < 0 { -dn } else { dn };
            let ak = if dk < 0 { -dk } else { dk };
            an < ak || (an == ak && n % 2 == 0)
        }),
{
    let u = half_unit();
    lemma_pow2_pos(125);
    let hn = half_mag(n);
    if k < n {
        lemma_half_monotonic(n - 1, n);
        if k < n - 1 {
            lemma_half_monotonic(k, n - 1);
        }
        let a = half_mag(n - 1);
        let hk = half_mag(k);
        assert((a + hn) * u == a * u + hn * u) by (nonlinear_arith);
        assert(hk * u <= a * u && a * u < hn * u) by (nonlinear_arith)
            requires
                hk <= a,
                a < hn,
                u > 0,
        ;
        assert(k < n - 1 ==> hk * u < a * u) by (nonlinear_arith)
            requires
                k < n - 1 ==> hk < a,
                u > 0,
        ;
        if n < 0x7c00 {
            lemma_half_monotonic(n, n + 1);
            let c = half_mag(n + 1);
            assert((hn + c) * u == hn * u + c * u) by (nonlinear_arith);
        }
    } else {
        lemma_half_monotonic(n, n + 1);
        if k > n + 1 {
            lemma_half_monotonic(n + 1, k);
        }
        let c = half_mag(n + 1);
        let hk = half_mag(k);
        assert((hn + c) * u == hn * u + c * u) by (nonlinear_arith);
        assert(hk * u >= c * u && c * u > hn * u) by (nonlinear_arith)
            requires
                hk >= c,
                c > hn,
                u > 0,
        ;
        assert(k > n + 1 ==> hk * u > c * u) by (nonlinear_arith)
            requires
                k > n + 1 ==> hk > c,
                u > 0,
        ;
    }
}

/// The rounding step: `mag` is `q` units in the last place and `rem` of `2^s` parts of one more.
proof fn lemma_round(mag: int, n0: int, rem: int, s: nat, x: nat)
    requires
        0 <= n0 < 0x7c00,
        1 <= s,
        0 <= rem < pow2(s),
        mag == half_mag(n0) * half_unit() + rem * pow2(x),
        half_mag(n0 + 1) * half_unit() == half_mag(n0) * half_unit() + pow2(s) * pow2(x),
    ensures
        ({
            let half = pow2((s - 1) as nat) as int;
            let up = rem > half || (rem == half && n0 % 2 == 1);
            rounds_to(mag, if up { n0 + 1 } else { n0 })
        }),
{
    let u = half_unit();
    let half = pow2((s - 1) as nat) as int;
    lemma_pow2_unfold(s);
    lemma_pow2_pos(x);
    lemma_pow2_pos(125);
    let px = pow2(x) as int;
    let a = half_mag(n0);
    let c = half_mag(n0 + 1);
    assert((a + c) * u == a * u + c * u) by (nonlinear_arith);
    assert(pow2(s) * px == 2 * (half * px)) by (nonlinear_arith)
        requires
            pow2(s) == 2 * half,
    ;
    assert(rem > half ==> rem * px > half * px) by (nonlinear_arith)
        requires
            px > 0,
    ;
    assert(rem < half ==> rem * px < half * px) by (nonlinear_arith)
        requires
            px > 0,
    ;
    assert(0 <= rem * px < pow2(s) * px) by (nonlinear_arith)
        requires
            0 <= rem < pow2(s),
            px > 0,
    ;
    let up = rem > half || (rem == half && n0 % 2 == 1);
    if up {
        let n = n0 + 1;
        if n < 0x7c00 {
            lemma_half_monotonic(n, n + 1);
            let d = half_mag(n + 1);
            assert((c + d) * u == c * u + d * u) by (nonlinear_arith);
            assert(d * u > c * u) by (nonlinear_arith)
                requires
                    d > c,
                    u > 0,
            ;
        }
    } else {
        if n0 > 0 {
            lemma_half_monotonic(n0 - 1, n0);
            let d = half_mag(n0 - 1);
            assert((d + a) * u == d * u + a * u) by (nonlinear_arith);
            assert(d * u < a * u) by (nonlinear_arith)
                requires
                    d < a,
                    u > 0,
            ;
        }
    }
}

/// `r` is the half nearest to the single `b`, with its sign. Magnitudes past the largest half
/// give infinity; a NaN gives the quiet NaN.
pub open spec fn narrows(b: u32, r: u16) -> bool {
    &&& r / 0x8000 == b / 0x8000_0000
    &&& f32_exp(b) < 0xff && f32_mag(b) <= half_mag(0x7c00) * half_unit() ==> rounds_to(
        f32_mag(b),
        r as int % 0x8000,
    )
    &&& f32_exp(b) < 0xff && f32_mag(b) > half_mag(0x7c00) * half_unit() ==> r % 0x8000 == 0x7c00
    &&& f32_exp(b) == 0xff ==> r % 0x8000 == if f32_man(b) == 0 {
        0x7c00
    } else {
        0x7e00int
    }
}

/// Rounds a single to the nearest half, ties to even.
pub fn f32_to_half(b: u32) -> (r: u16)
    ensures
        narrows(b, r),
{
    let sign: u16 = (b / 0x8000_0000) as u16 * 0x8000;
    let exp: u32 = b / 0x80_0000 % 0x100;
    let man: u32 = b % 0x80_0000;
    proof {
        lemma2_to64();
        lemma_pow2_pos(125);
    }
    if exp == 0xff {
        if man != 0 {
            return sign + 0x7e00;
        }
        return sign + 0x7c00;
    }
    if exp >= 143 {
        proof {
            lemma_large(b, exp as nat, man as int);
        }
        return sign + 0x7c00;
    }
    if exp < 102 {
        proof {
            lemma_tiny(b, exp as nat, man as int);
        }
        return sign;
    }
    let full: u32 = 0x80_0000 + man;
    if exp <= 112 {
        let s: u32 = 126 - exp;
        let mut scale: u32 = 1;
        let mut i: u32 = 0;
        while i < s
            invariant
                i <= s <= 24,
                scale == pow2(i as nat),
                scale <= 0x100_0000,
            decreases s - i,
        {
            proof {
                lemma2_to64();
                lemma_pow2_unfold((i + 1) as nat);
                vstd::arithmetic::power2::lemma_pow2_strictly_increases(i as nat, 24);
            }
            scale = 2 * scale;
            i += 1;
            proof {
                if i < 24 {
                    vstd::arithmetic::power2::lemma_pow2_strictly_increases(i as nat, 24);
                }
            }
        }
        let q: u32 = full / scale;
        let rem: u32 = full % scale;
        let half: u32 = scale / 2;
        proof {
            lemma_pow2_unfold(s as nat);
            lemma_subnormal(b, exp as int, man as int, s as nat, q as int, rem as int);
        }
        let up: bool = rem > half || (rem == half && q % 2 == 1);
        let n: u16 = if up {
            q as u16 + 1
        } else {
            q as u16
        };
        assert((sign + n) as int % 0x8000 == n);
        return sign + n;
    }
    let e: u32 = exp - 112;
    let q: u32 = man / 0x2000;
    let rem: u32 = man % 0x2000;
    let n0: u16 = e as u16 * 0x400 + q as u16;
    let up: bool = rem > 0x1000 || (rem == 0x1000 && n0 % 2 == 1);
    proof {
        lemma_normal(b, exp as int, man as int, e as int, q as int, rem as int);
    }
    let n: u16 = if up {
        n0 + 1
    } else {
        n0
    };
    assert((sign + n) as int % 0x8000 == n);
    sign + n
}

proof fn lemma_large(b: u32, exp: nat, man: int)
    requires
        exp == f32_exp(b),
        man == f32_man(b),
        143 <= exp < 0xff,
    ensures
        f32_mag(b) >= half_mag(0x7c00) * half_unit(),
        f32_mag(b) == half_mag(0x7c00) * half_unit() ==> rounds_to(f32_mag(b), 0x7c00),
{
    lemma2_to64();
    lemma_pow2_pos(142);
    let x = (exp - 1) as nat;
    if x > 142 {
        vstd::arithmetic::power2::lemma_pow2_strictly_increases(142, x);
    }
    let full = 0x80_0000 + man;
    assert(full * pow2(x) >= 0x80_0000 * pow2(142)) by (nonlinear_arith)
        requires
            full >= 0x80_0000,
            pow2(x) >= pow2(142),
            pow2(142) > 0,
    ;
    assert(pow2(10) == 0x400 && pow2(23) == 0x80_0000);
    lemma_pow2_adds(23, 142);
    lemma_pow2_adds(10, 30);
    lemma_pow2_adds(40, 125);
    assert(half_mag(0x7c00) == pow2(40));
    lemma_half_monotonic(0x7bff, 0x7c00);
    let a = half_mag(0x7bff);
    let c = half_mag(0x7c00);
    let u = half_unit();
    lemma_pow2_pos(125);
    assert((a + c) * u < 2 * (c * u)) by (nonlinear_arith)
        requires
            a < c,
            u > 0,
    ;
}

proof fn lemma_tiny(b: u32, exp: nat, man: int)
    requires
        exp == f32_exp(b),
        man == f32_man(b),
        exp < 102,
    ensures
        rounds_to(f32_mag(b), 0),
        f32_mag(b) <= half_mag(0x7c00) * half_unit(),
{
    lemma2_to64();
    lemma_pow2_adds(24, 100);
    lemma_pow2_unfold(125);
    assert(pow2(24) == 0x100_0000);
    lemma_pow2_pos(100);
    let p = pow2(100) as int;
    if exp == 0 {
        assert(man < 0x100_0000 * p) by (nonlinear_arith)
            requires
                man < 0x80_0000,
                p > 0,
        ;
    } else {
        let x = (exp - 1) as nat;
        if x < 100 {
            vstd::arithmetic::power2::lemma_pow2_strictly_increases(x, 100);
        }
        let px = pow2(x) as int;
        lemma_pow2_pos(x);
        assert((0x80_0000 + man) * px < 0x100_0000 * p) by (nonlinear_arith)
            requires
                0 <= man < 0x80_0000,
                0 < px <= p,
        ;
    }
    lemma_half_monotonic(0, 0x7c00);
    let c = half_mag(0x7c00);
    let u = half_unit();
    assert(half_mag(0) == 0 && half_mag(1) == 1);
    assert(c * u >= u) by (nonlinear_arith)
        requires
            c >= 1,
            u > 0,
    ;
}

proof fn lemma_below_infinity(b: u32)
    requires
        f32_exp(b) < 143,
    ensures
        f32_mag(b) <= half_mag(0x7c00) * half_unit(),
{
    lemma2_to64();
    assert(pow2(10) == 0x400 && pow2(24) == 0x100_0000);
    lemma_pow2_adds(24, 141);
    lemma_pow2_adds(10, 30);
    lemma_pow2_adds(40, 125);
    assert(half_mag(0x7c00) == pow2(40));
    lemma_pow2_pos(141);
    let p = pow2(141) as int;
    let man = f32_man(b);
    if f32_exp(b) == 0 {
        assert(man < 0x100_0000 * p) by (nonlinear_arith)
            requires
                man < 0x80_0000,
                p > 0,
        ;
    } else {
        let x = (f32_exp(b) - 1) as nat;
        if x < 141 {
            vstd::arithmetic::power2::lemma_pow2_strictly_increases(x, 141);
        }
        lemma_pow2_pos(x);
        let px = pow2(x) as int;
        assert((0x80_0000 + man) * px < 0x100_0000 * p) by (nonlinear_arith)
            requires
                0 <= man < 0x80_0000,
                0 < px <= p,
        ;
    }
}

proof fn lemma_normal(b: u32, exp: int, man: int, e: int, q: int, rem: int)
    requires
        exp == f32_exp(b),
        man == f32_man(b),
        113 <= exp < 143,
        e == exp - 112,
        q == man / 0x2000,
        rem == man % 0x2000,
    ensures
        f32_mag(b) <= half_mag(0x7c00) * half_unit(),
        ({
            let n0 = e * 0x400 + q;
            let up = rem > 0x1000 || (rem == 0x1000 && n0 % 2 == 1);
            rounds_to(f32_mag(b), if up { n0 + 1 } else { n0 })
        }),
{
    lemma2_to64();
    lemma_below_infinity(b);
    let n0 = e * 0x400 + q;
    assert(n0 / 0x400 == e && n0 % 0x400 == q);
    let x = (exp - 1) as nat;
    let px = pow2(x) as int;
    let a = 0x400 + q;
    lemma_shift_mag(a, (e - 1) as nat, 125);
    lemma_shift_mag(a, 13, x);
    assert(pow2(13) == 0x2000);
    assert((0x80_0000 + man) * px == a * 0x2000 * px + rem * px) by (nonlinear_arith)
        requires
            0x80_0000 + man == a * 0x2000 + rem,
    ;
    lemma_half_step(n0);
    let st = pow2((e - 1) as nat) as int;
    let hm = half_mag(n0);
    let u = half_unit();
    assert((hm + st) * u == hm * u + st * u) by (nonlinear_arith);
    lemma_pow2_adds((e - 1) as nat, 125);
    lemma_pow2_adds(13, x);
    lemma_round(f32_mag(b), n0, rem, 13, x);
}

proof fn lemma_subnormal(b: u32, exp: int, man: int, s: nat, q: int, rem: int)
    requires
        exp == f32_exp(b),
        man == f32_man(b),
        102 <= exp <= 112,
        s == 126 - exp,
        q == (0x80_0000 + man) / (pow2(s) as int),
        rem == (0x80_0000 + man) % (pow2(s) as int),
    ensures
        f32_mag(b) <= half_mag(0x7c00) * half_unit(),
        0 <= q < 0x400,
        ({
            let half = pow2((s - 1) as nat) as int;
            let up = rem > half || (rem == half && q % 2 == 1);
            rounds_to(f32_mag(b), if up { q + 1 } else { q })
        }),
{
    lemma2_to64();
    lemma_below_infinity(b);
    lemma_pow2_pos(s);
    let ps = pow2(s) as int;
    let full = 0x80_0000 + man;
    vstd::arithmetic::div_mod::lemma_fundamental_div_mod(full, ps);
    vstd::arithmetic::div_mod::lemma_mod_bound(full, ps);
    if s > 14 {
        vstd::arithmetic::power2::lemma_pow2_strictly_increases(14, s);
    }
    assert(pow2(14) == 0x4000);
    assert(0 <= q < 0x400) by (nonlinear_arith)
        requires
            full == ps * q + rem,
            0 <= rem < ps,
            0 <= full < 0x100_0000,
            ps >= 0x4000,
    ;
    assert(q / 0x400 == 0 && q % 0x400 == q);
    let x = (exp - 1) as nat;
    let px = pow2(x) as int;
    lemma_pow2_adds(s, x);
    assert(s + x == 125);
    assert(full * px == q * (ps * px) + rem * px) by (nonlinear_arith)
        requires
            full == ps * q + rem,
    ;
    lemma_half_step(q);
    let hm = half_mag(q);
    let u = half_unit();
    assert((hm + 1) * u == hm * u + u) by (nonlinear_arith);
    lemma_round(f32_mag(b), q, rem, s, x);
}

/// Widening a half that is not a NaN and rounding back gives the half.
pub proof fn law_half_round_trip(h: u16, w: u32, r: u16)
    requires
        half_exp(h) < 0x1f || half_man(h) == 0,
        widens(h, w),
        narrows(w, r),
    ensures
        r == h,
{
    let n = h as int % 0x8000;
    assert(n / 0x400 == half_exp(h) && n % 0x400 == half_man(h));
    if half_exp(h) < 0x1f {
        let u = half_unit();
        lemma_pow2_pos(125);
        lemma_half_monotonic(n, 0x7c00);
        let a = half_mag(n);
        let c = half_mag(0x7c00);
        assert(a * u <= c * u) by (nonlinear_arith)
            requires
                a < c,
                u > 0,
        ;
        let k = r as int % 0x8000;
        assert(a >= 0) by {
            if n > 0 {
                lemma_half_monotonic(0, n);
            }
        }
        assert(a * u >= 0) by (nonlinear_arith)
            requires
                a >= 0,
                u > 0,
        ;
        if k != n {
            law_rounds_to_nearest(a * u, k, n);
            if k < n {
                lemma_half_monotonic(k, n);
            } else {
                lemma_half_monotonic(n, k);
            }
            let d = half_mag(k);
            assert(d * u != a * u) by (nonlinear_arith)
                requires
                    d != a,
                    u > 0,
            ;
        }
    } else {
        assert(n == 0x7c00);
    }
    assert(h == h / 0x8000 * 0x8000 + n);
    assert(r == r / 0x8000 * 0x8000 + r as int % 0x8000);
}

} // verus!
