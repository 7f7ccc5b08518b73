//! Arithmetic on single-precision numbers, held as their patterns.
//!
//! Every operation is the exact one, rounded to nearest with ties to even. Results that are not
//! a number all have one pattern.

use vstd::prelude::*;

use crate::bignat;
use crate::bignat::value;
use crate::binary;
use crate::half;
use crate::number;
use crate::number::NAN_SINGLE;

verus! {

/// The pattern of infinity, and the sign bit.
pub const INF: u32 = 0x7F80_0000;

pub const SIGN: u32 = 0x8000_0000;

/// The patterns of one, of minus one and of a half.
pub const ONE: u32 = 0x3F80_0000;

pub const MINUS_ONE: u32 = 0xBF80_0000;

pub const TWO: u32 = 0x4000_0000;

pub const HALF: u32 = 0x3F00_0000;

/// A pattern without its sign.
pub open spec fn mag(b: u32) -> int {
    b as int % 0x8000_0000
}

pub open spec fn neg(b: u32) -> bool {
    b >= SIGN
}

pub open spec fn is_nan(b: u32) -> bool {
    mag(b) > INF
}

pub open spec fn is_inf(b: u32) -> bool {
    mag(b) == INF
}

/// The value of a finite magnitude, in units of the smallest.
pub open spec fn units(m: int) -> nat {
    if m < 0x80_0000 {
        m as nat
    } else {
        ((m % 0x80_0000 + 0x80_0000) as nat) * binary::two((m / 0x80_0000 - 1) as nat)
    }
}

/// How many units make one.
pub open spec fn unit_count() -> nat {
    binary::two(149)
}

/// The value of a finite number, in units of the smallest.
pub open spec fn signed_units(b: u32) -> int {
    if neg(b) {
        -units(mag(b))
    } else {
        units(mag(b)) as int
    }
}

/// `r` is `n / d` with a sign, rounded.
pub open spec fn nearest(n: nat, d: nat, negative: bool, r: u32) -> bool {
    binary::rounds(n, d, 24, -149, 128, mag(r)) && neg(r) == negative
}

/// `r` is a number with the given magnitude and sign.
pub open spec fn signed(m: u32, negative: bool) -> u32 {
    if negative {
        (m + SIGN) as u32
    } else {
        m
    }
}

// ---- sums -------------------------------------------------------------------------------------

/// `r` is the sum of `a` and `b`.
pub open spec fn sums(a: u32, b: u32, r: u32) -> bool {
    if is_nan(a) || is_nan(b) || is_inf(a) && is_inf(b) && neg(a) != neg(b) {
        r == NAN_SINGLE
    } else if is_inf(a) {
        r == a
    } else if is_inf(b) {
        r == b
    } else {
        let x = signed_units(a) + signed_units(b);
        if x == 0 {
            r == if neg(a) && neg(b) {
                SIGN
            } else {
                0
            }
        } else {
            nearest(
                if x < 0 {
                    -x
                } else {
                    x
                } as nat,
                unit_count(),
                x < 0,
                r,
            )
        }
    }
}

pub open spec fn sum_of(a: u32, b: u32) -> u32 {
    choose|r: u32| sums(a, b, r)
}

/// `r` is the product of `a` and `b`.
pub open spec fn multiplies(a: u32, b: u32, r: u32) -> bool {
    let negative = neg(a) != neg(b);
    if is_nan(a) || is_nan(b) || is_inf(a) && mag(b) == 0 || is_inf(b) && mag(a) == 0 {
        r == NAN_SINGLE
    } else if is_inf(a) || is_inf(b) {
        r == signed(INF, negative)
    } else {
        nearest(units(mag(a)) * units(mag(b)), unit_count() * unit_count(), negative, r)
    }
}

pub open spec fn product_of(a: u32, b: u32) -> u32 {
    choose|r: u32| multiplies(a, b, r)
}

/// `r` is the quotient of `a` and `b`.
pub open spec fn divides(a: u32, b: u32, r: u32) -> bool {
    let negative = neg(a) != neg(b);
    if is_nan(a) || is_nan(b) || is_inf(a) && is_inf(b) || mag(a) == 0 && mag(b) == 0 {
        r == NAN_SINGLE
    } else if is_inf(a) || mag(b) == 0 {
        r == signed(INF, negative)
    } else if is_inf(b) {
        r == signed(0, negative)
    } else {
        nearest(units(mag(a)), units(mag(b)), negative, r)
    }
}

pub open spec fn quotient_of(a: u32, b: u32) -> u32 {
    choose|r: u32| divides(a, b, r)
}

proof fn lemma_nearest_unique(n: nat, d: nat, negative: bool, r: u32, q: u32)
    requires
        d > 0,
        nearest(n, d, negative, r),
        nearest(n, d, negative, q),
    ensures
        r == q,
{
    binary::law_rounds_unique(n, d, 24, -149, 128, mag(r), mag(q));
}

proof fn lemma_units(m: int)
    requires
        0 <= m < INF,
    ensures
        (units(m) == 0) == (m == 0),
        unit_count() > 0,
        unit_count() * unit_count() > 0,
{
    binary::lemma_two_adds(149, 0);
    let u = unit_count();
    assert(u * u > 0) by (nonlinear_arith)
        requires
            u > 0,
    ;
    if m >= 0x80_0000 {
        let k = (m / 0x80_0000 - 1) as nat;
        binary::lemma_two_adds(k, 0);
        let s = m % 0x80_0000 + 0x80_0000;
        let t = binary::two(k);
        assert(s * t > 0) by (nonlinear_arith)
            requires
                s > 0,
                t > 0,
        ;
    }
}

/// A sum, a product and a quotient have one pattern each.
pub proof fn law_results_are_unique(a: u32, b: u32, r: u32)
    ensures
        sums(a, b, r) ==> r == sum_of(a, b),
        multiplies(a, b, r) ==> r == product_of(a, b),
        divides(a, b, r) ==> r == quotient_of(a, b),
{
    if mag(a) < INF {
        lemma_units(mag(a));
    }
    if mag(b) < INF {
        lemma_units(mag(b));
    }
    if sums(a, b, r) {
        let q = sum_of(a, b);
        assert(sums(a, b, q));
        if mag(a) < INF && mag(b) < INF {
            let x = signed_units(a) + signed_units(b);
            let n = if x < 0 {
                -x
            } else {
                x
            } as nat;
            if x != 0 {
                lemma_nearest_unique(n, unit_count(), x < 0, r, q);
            }
        }
    }
    let negative = neg(a) != neg(b);
    if multiplies(a, b, r) {
        let q = product_of(a, b);
        assert(multiplies(a, b, q));
        if mag(a) < INF && mag(b) < INF {
            lemma_nearest_unique(
                units(mag(a)) * units(mag(b)),
                unit_count() * unit_count(),
                negative,
                r,
                q,
            );
        }
    }
    if divides(a, b, r) {
        let q = quotient_of(a, b);
        assert(divides(a, b, q));
        if mag(a) < INF && 0 < mag(b) < INF {
            lemma_nearest_unique(units(mag(a)), units(mag(b)), negative, r, q);
        }
    }
}

/// The value of a finite magnitude rounds to the magnitude.
pub proof fn law_value_reads_back(m: int)
    requires
        0 <= m < INF,
    ensures
        binary::rounds(units(m), unit_count(), 24, -149, 128, m),
{
    lemma_units(m);
    binary::lemma_two_adds(149, 0);
    assert(binary::two(23) == 0x80_0000) by {
        reveal_with_fuel(binary::two, 24);
    }
    assert(binary::two(24) == 2 * binary::two(23));
    assert((24 - 1) as nat == 23);
    if m > 0 {
        let (s, e) = if m < 0x80_0000 {
            (m as nat, -149int)
        } else {
            ((m % 0x80_0000 + 0x80_0000) as nat, m / 0x80_0000 - 150)
        };
        let k = (e + 149) as nat;
        let n = units(m);
        let u = unit_count();
        assert(s * 1 == s) by (nonlinear_arith);
        assert(n == s * binary::two(k));
        let x = binary::over(n, e);
        let y = binary::under(u, e);
        binary::lemma_two_adds(k, 0);
        if e < 0 {
            let z = binary::two((-e) as nat);
            let t = binary::two(k);
            binary::lemma_two_adds(k, (-e) as nat);
            assert((s * t) * z == s * (t * z)) by (nonlinear_arith);
            assert(x == s * u && y == u);
        } else {
            binary::lemma_two_adds(149, e as nat);
            assert(k == 149 + e);
            if e == 0 {
                assert(x == s * u && y == u);
            }
            assert(x == s * y);
        }
        assert(y > 0) by {
            if e > 0 {
                binary::lemma_two_adds(e as nat, 0);
                let z = binary::two(e as nat);
                assert(u * z > 0) by (nonlinear_arith)
                    requires
                        u > 0,
                        z > 0,
                ;
            }
        }
        vstd::arithmetic::div_mod::lemma_fundamental_div_mod_converse(
            x as int,
            y as int,
            s as int,
            0,
        );
        assert(binary::fits(n, u, 24, -149, e));
        assert(binary::packed(n, u, 24, -149, e) == m);
        assert(x < y * binary::two(24)) by (nonlinear_arith)
            requires
                x == s * y,
                s < binary::two(24),
                y > 0,
        ;
        binary::lemma_below_max(n, u, 24, e, 128);
    }
}

proof fn lemma_pow2(k: nat)
    ensures
        vstd::arithmetic::power2::pow2(k) == binary::two(k),
    decreases k,
{
    vstd::arithmetic::power2::lemma2_to64();
    if k > 0 {
        lemma_pow2((k - 1) as nat);
        vstd::arithmetic::power2::lemma_pow2_unfold(k);
    }
}

/// The single of a half.
pub open spec fn wide(h: u16) -> u32 {
    choose|r: u32| half::widens(h, r)
}

/// A half widens to one single.
pub proof fn lemma_wide(h: u16, r: u32)
    requires
        half::widens(h, r),
    ensures
        r == wide(h),
{
    let q = wide(h);
    assert(half::widens(h, q));
    if half::half_exp(h) < 0x1f {
        lemma_mag(r);
        lemma_mag(q);
        law_value_reads_back(mag(r));
        law_value_reads_back(mag(q));
        binary::lemma_two_adds(149, 0);
        binary::law_rounds_unique(units(mag(r)), unit_count(), 24, -149, 128, mag(r), mag(q));
    }
}

proof fn lemma_mag(b: u32)
    requires
        half::f32_exp(b) < 0xff,
    ensures
        0 <= mag(b) < INF,
        half::f32_mag(b) == units(mag(b)),
{
    assert(mag(b) / 0x80_0000 == half::f32_exp(b));
    assert(mag(b) % 0x80_0000 == half::f32_man(b));
    if half::f32_exp(b) > 0 {
        lemma_pow2((half::f32_exp(b) - 1) as nat);
    }
}

/// Widens a half.
pub fn widen(h: u16) -> (r: u32)
    ensures
        half::widens(h, r),
        r == wide(h),
{
    let r: u32 = half::half_to_f32(h);
    proof {
        lemma_wide(h, r);
    }
    r
}

/// Sums and products do not depend on the order of the operands.
pub proof fn law_operands_commute(a: u32, b: u32, r: u32)
    ensures
        sums(a, b, r) == sums(b, a, r),
        multiplies(a, b, r) == multiplies(b, a, r),
{
    assert(units(mag(a)) * units(mag(b)) == units(mag(b)) * units(mag(a))) by (nonlinear_arith);
}

// ---- execution --------------------------------------------------------------------------------

/// The value of a finite magnitude: its significant bits, and how far they are shifted.
pub(crate) fn split(m: u32) -> (r: (u64, u64))
    requires
        m < INF,
    ensures
        units(m as int) == r.0 as nat * binary::two(r.1 as nat),
        r.0 < 0x100_0000,
        r.1 <= 253,
        r.1 > 0 ==> r.0 >= 0x80_0000,
        r.1 == if m < 0x80_0000 {
            0
        } else {
            m as int / 0x80_0000 - 1
        },
{
    if m < 0x80_0000 {
        assert(m as nat * 1 == m) by (nonlinear_arith);
        (m as u64, 0)
    } else {
        ((m % 0x80_0000 + 0x80_0000) as u64, (m / 0x80_0000 - 1) as u64)
    }
}

/// `s * 2^k`.
pub(crate) fn shifted(s: u64, k: u64) -> (r: Vec<u32>)
    ensures
        value(r@) == s as nat * binary::two(k as nat),
{
    let mut n: Vec<u32> = bignat::from_u64(s);
    number::times_two(&mut n, k);
    n
}

fn make(n: &Vec<u32>, d: &Vec<u32>, negative: bool) -> (r: u32)
    requires
        value(d@) > 0,
    ensures
        nearest(value(n@), value(d@), negative, r),
{
    let x: u64 = binary::round_ratio(n, d, 24, -149, 128);
    proof {
        binary::lemma_pattern_bound(value(n@), value(d@), 24, -149, 128, x as int);
        assert(binary::two(23) == 0x80_0000) by {
            reveal_with_fuel(binary::two, 24);
        }
        assert((24 - 1) as nat == 23);
    }
    if negative {
        x as u32 + SIGN
    } else {
        x as u32
    }
}

fn with_sign(m: u32, negative: bool) -> (r: u32)
    requires
        m < SIGN,
    ensures
        r == signed(m, negative),
{
    if negative {
        m + SIGN
    } else {
        m
    }
}

pub(crate) fn abs_units(m: u32) -> (r: Vec<u32>)
    requires
        m < INF,
    ensures
        value(r@) == units(m as int),
{
    let (s, k): (u64, u64) = split(m);
    shifted(s, k)
}

pub(crate) fn unit() -> (r: Vec<u32>)
    ensures
        value(r@) == unit_count(),
{
    assert(1 * unit_count() == unit_count()) by (nonlinear_arith);
    shifted(1, 149)
}

/// Adds two numbers.
pub fn sum(a: u32, b: u32) -> (r: u32)
    ensures
        sums(a, b, r),
        r == sum_of(a, b),
{
    let r: u32 = add_up(a, b);
    proof {
        law_results_are_unique(a, b, r);
    }
    r
}

fn add_up(a: u32, b: u32) -> (r: u32)
    ensures
        sums(a, b, r),
{
    let ma: u32 = a % SIGN;
    let mb: u32 = b % SIGN;
    let na: bool = a >= SIGN;
    let nb: bool = b >= SIGN;
    if ma > INF || mb > INF || ma == INF && mb == INF && na != nb {
        return NAN_SINGLE;
    }
    if ma == INF {
        return a;
    }
    if mb == INF {
        return b;
    }
    proof {
        lemma_units(ma as int);
        lemma_units(mb as int);
    }
    let mut x: Vec<u32> = abs_units(ma);
    let mut y: Vec<u32> = abs_units(mb);
    let d: Vec<u32> = unit();
    if na == nb {
        let s: Vec<u32> = bignat::plus(&x, &y);
        if ma == 0 && mb == 0 {
            return with_sign(0, na);
        }
        return make(&s, &d, na);
    }
    if bignat::at_least(&x, &y) {
        bignat::subtract(&mut x, &y);
        if bignat::at_least(&Vec::new(), &x) {
            return 0;
        }
        make(&x, &d, na)
    } else {
        bignat::subtract(&mut y, &x);
        make(&y, &d, nb)
    }
}

/// Multiplies two numbers.
pub fn product(a: u32, b: u32) -> (r: u32)
    ensures
        multiplies(a, b, r),
        r == product_of(a, b),
{
    let r: u32 = multiply(a, b);
    proof {
        law_results_are_unique(a, b, r);
    }
    r
}

fn multiply(a: u32, b: u32) -> (r: u32)
    ensures
        multiplies(a, b, r),
{
    let ma: u32 = a % SIGN;
    let mb: u32 = b % SIGN;
    let negative: bool = (a >= SIGN) != (b >= SIGN);
    if ma > INF || mb > INF || ma == INF && mb == 0 || mb == INF && ma == 0 {
        return NAN_SINGLE;
    }
    if ma == INF || mb == INF {
        return with_sign(INF, negative);
    }
    let (s, k): (u64, u64) = split(ma);
    let (t, l): (u64, u64) = split(mb);
    assert(s * t <= 0xFF_FFFF * 0xFF_FFFF) by (nonlinear_arith)
        requires
            s <= 0xFF_FFFF,
            t <= 0xFF_FFFF,
    ;
    let n: Vec<u32> = shifted(s * t, k + l);
    let d: Vec<u32> = shifted(1, 298);
    proof {
        lemma_units(ma as int);
        let (si, ti) = (s as int, t as int);
        let x = binary::two(k as nat) as int;
        let y = binary::two(l as nat) as int;
        binary::lemma_two_adds(k as nat, l as nat);
        assert((si * ti) * (x * y) == (si * x) * (ti * y)) by (nonlinear_arith);
        binary::lemma_two_adds(149, 149);
        let z = binary::two(298);
        assert(1 * z == z) by (nonlinear_arith);
    }
    make(&n, &d, negative)
}

/// Divides two numbers.
pub fn quotient(a: u32, b: u32) -> (r: u32)
    ensures
        divides(a, b, r),
        r == quotient_of(a, b),
{
    let r: u32 = divide(a, b);
    proof {
        law_results_are_unique(a, b, r);
    }
    r
}

fn divide(a: u32, b: u32) -> (r: u32)
    ensures
        divides(a, b, r),
{
    let ma: u32 = a % SIGN;
    let mb: u32 = b % SIGN;
    let negative: bool = (a >= SIGN) != (b >= SIGN);
    if ma > INF || mb > INF || ma == INF && mb == INF || ma == 0 && mb == 0 {
        return NAN_SINGLE;
    }
    if ma == INF || mb == 0 {
        return with_sign(INF, negative);
    }
    if mb == INF {
        return with_sign(0, negative);
    }
    proof {
        lemma_units(mb as int);
    }
    let n: Vec<u32> = abs_units(ma);
    let d: Vec<u32> = abs_units(mb);
    make(&n, &d, negative)
}

/// A number with the other sign.
pub open spec fn flipped(b: u32) -> u32 {
    if neg(b) {
        (b - SIGN) as u32
    } else {
        (b + SIGN) as u32
    }
}

/// The difference of `a` and `b`.
pub open spec fn difference_of(a: u32, b: u32) -> u32 {
    sum_of(a, flipped(b))
}

/// Subtracts two numbers.
pub fn difference(a: u32, b: u32) -> (r: u32)
    ensures
        r == difference_of(a, b),
{
    let c: u32 = if b >= SIGN {
        b - SIGN
    } else {
        b + SIGN
    };
    sum(a, c)
}

/// One is neutral: a number times one is the number.
pub proof fn law_times_one(a: u32)
    requires
        !is_nan(a),
    ensures
        product_of(a, ONE) == a,
{
    let u = unit_count();
    assert(mag(ONE) == 0x3F80_0000);
    assert(binary::two(23) == 0x80_0000) by {
        reveal_with_fuel(binary::two, 24);
    }
    binary::lemma_two_adds(23, 126);
    assert(units(mag(ONE)) == u);
    if mag(a) < INF {
        let n = units(mag(a));
        lemma_units(mag(a));
        law_value_reads_back(mag(a));
        assert(n * (u * u) == (n * u) * u) by (nonlinear_arith);
        binary::law_rounds_fraction(n, u, n * u, u * u, 24, -149, 128, mag(a));
    }
    assert(multiplies(a, ONE, a));
    law_results_are_unique(a, ONE, a);
}

/// Zero is neutral: a number other than zero plus zero is the number.
pub proof fn law_plus_zero(a: u32)
    requires
        !is_nan(a),
        mag(a) != 0,
    ensures
        sum_of(a, 0) == a,
{
    if mag(a) < INF {
        lemma_units(mag(a));
        law_value_reads_back(mag(a));
    }
    assert(sums(a, 0, a));
    law_results_are_unique(a, 0, a);
}

/// The single nearest to a natural number.
pub open spec fn single_of(n: nat) -> u32 {
    choose|r: u32| nearest(n, 1, false, r)
}

/// Rounds a natural number to a single.
pub fn from_uint(n: u64) -> (r: u32)
    ensures
        nearest(n as nat, 1, false, r),
        r == single_of(n as nat),
{
    let x: Vec<u32> = bignat::from_u64(n);
    let one: Vec<u32> = bignat::from_u64(1);
    let r: u32 = make(&x, &one, false);
    proof {
        let q = single_of(n as nat);
        assert(nearest(n as nat, 1, false, q));
        lemma_nearest_unique(n as nat, 1, false, r, q);
    }
    r
}

/// A positive number rounded to the nearest integer, a tie away from zero, and held within
/// `max`; zero for what is not a number or is negative.
pub open spec fn rounded(b: u32, max: nat) -> nat {
    if is_nan(b) || neg(b) {
        0
    } else if is_inf(b) {
        max
    } else {
        at_most((2 * units(mag(b)) + unit_count()) / (2 * unit_count()), max)
    }
}

proof fn lemma_whole(s: nat, k: nat)
    requires
        k >= 149,
    ensures
        (2 * (s * binary::two(k)) + unit_count()) / (2 * unit_count()) == s * binary::two(
            (k - 149) as nat,
        ),
{
    let u = unit_count();
    let y = binary::two((k - 149) as nat);
    binary::lemma_two_adds((k - 149) as nat, 149);
    binary::lemma_two_adds(149, 0);
    assert(2 * (s * (y * u)) + u == (s * y) * (2 * u) + u) by (nonlinear_arith);
    vstd::arithmetic::div_mod::lemma_fundamental_div_mod_converse(
        (2 * (s * binary::two(k)) + u) as int,
        (2 * u) as int,
        (s * y) as int,
        u as int,
    );
}

proof fn lemma_part(s: nat, k: nat)
    requires
        k < 149,
    ensures
        ({
            let y = binary::two((149 - k) as nat);
            (2 * (s * binary::two(k)) + unit_count()) / (2 * unit_count()) == (2 * s + y) / (2 * y)
        }),
{
    let u = unit_count();
    let z = binary::two(k);
    let t = (149 - k) as nat;
    let y = binary::two(t);
    binary::lemma_two_adds(t, k);
    binary::lemma_two_adds(k, 0);
    binary::lemma_two_adds(t, 0);
    binary::lemma_two_adds(149, 0);
    assert((2 * (s * z) + y * z) * (2 * y) == (2 * s + y) * (2 * (y * z))) by (nonlinear_arith);
    binary::lemma_same_fraction(2 * (s * z) + u, 2 * u, 2 * s + y, 2 * y);
}

pub open spec fn at_most(q: nat, max: nat) -> nat {
    if q > max {
        max
    } else {
        q
    }
}

/// `s * 2^t`, held within `max`.
fn round_whole(s: u64, t: u64, max: u64) -> (r: u64)
    requires
        s < 0x100_0000,
        s >= 0x80_0000,
    ensures
        r == at_most(s as nat * binary::two(t as nat), max as nat),
{
    let ghost y = binary::two(t as nat);
    let ghost si = s as nat;
    if t > 40 {
        proof {
            binary::lemma_two_monotone(41, t as nat);
            assert(binary::two(41) == 0x200_0000_0000) by {
                reveal_with_fuel(binary::two, 42);
            }
            assert(si * y >= 0x80_0000 * 0x200_0000_0000) by (nonlinear_arith)
                requires
                    si >= 0x80_0000,
                    y >= 0x200_0000_0000,
            ;
        }
        return max;
    }
    let p: u64 = binary::pow_two(t as u32);
    proof {
        binary::lemma_two_monotone(t as nat, 40);
        assert(binary::two(40) == 0x100_0000_0000) by {
            reveal_with_fuel(binary::two, 41);
        }
        assert(s * p <= 0xFF_FFFF * 0x100_0000_0000) by (nonlinear_arith)
            requires
                s <= 0xFF_FFFF,
                p <= 0x100_0000_0000,
        ;
    }
    let q: u64 = s * p;
    if q > max {
        max
    } else {
        q
    }
}

/// `s / 2^t`, rounded and held within `max`.
fn round_part(s: u64, t: u64, max: u64) -> (r: u64)
    requires
        s < 0x100_0000,
    ensures
        ({
            let y = binary::two(t as nat);
            r == at_most((2 * s as nat + y) / (2 * y), max as nat)
        }),
{
    let ghost y = binary::two(t as nat);
    proof {
        binary::lemma_two_adds(t as nat, 0);
        assert(binary::two(26) == 0x400_0000) by {
            reveal_with_fuel(binary::two, 27);
        }
    }
    if t >= 26 {
        proof {
            binary::lemma_two_monotone(26, t as nat);
            vstd::arithmetic::div_mod::lemma_fundamental_div_mod_converse(
                (2 * s + y) as int,
                (2 * y) as int,
                0,
                (2 * s + y) as int,
            );
        }
        return 0;
    }
    let p: u64 = binary::pow_two(t as u32);
    proof {
        binary::lemma_two_monotone(t as nat, 26);
    }
    let q: u64 = (2 * s + p) / (2 * p);
    if q > max {
        max
    } else {
        q
    }
}

/// Rounds a positive number to the nearest integer, held within `max`.
pub fn round(b: u32, max: u64) -> (r: u64)
    ensures
        r == rounded(b, max as nat),
{
    let m: u32 = b % SIGN;
    if m > INF || b >= SIGN {
        return 0;
    }
    if m == INF {
        return max;
    }
    let (s, k): (u64, u64) = split(m);
    if k >= 149 {
        proof {
            lemma_whole(s as nat, k as nat);
        }
        round_whole(s, k - 149, max)
    } else {
        proof {
            lemma_part(s as nat, k as nat);
        }
        round_part(s, 149 - k, max)
    }
}

} // verus!
