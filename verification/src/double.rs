//! Arithmetic on double-precision numbers, held as their patterns.
//!
//! Every operation is the exact one, rounded to nearest with ties to even. Results that are not
//! a number all have one pattern.

use vstd::prelude::*;

use crate::bignat;
use crate::bignat::value;
use crate::binary;
use crate::number;
use crate::sampler;
use crate::single;

verus! {

/// The pattern of infinity, and the sign bit.
pub const INF: u64 = 0x7FF0_0000_0000_0000;

pub const SIGN: u64 = 0x8000_0000_0000_0000;

/// The pattern of a result that is not a number.
pub const NAN: u64 = 0x7FF8_0000_0000_0000;

/// The pattern of one.
pub const ONE: u64 = 0x3FF0_0000_0000_0000;

/// A pattern without its sign.
pub open spec fn mag(b: u64) -> int {
    b as int % 0x8000_0000_0000_0000
}

pub open spec fn neg(b: u64) -> bool {
    b >= SIGN
}

pub open spec fn is_nan(b: u64) -> bool {
    mag(b) > INF
}

pub open spec fn is_inf(b: u64) -> bool {
    mag(b) == INF
}

/// The value of a finite magnitude, in units of the smallest.
pub open spec fn units(m: int) -> nat {
    if m < 0x10_0000_0000_0000 {
        m as nat
    } else {
        ((m % 0x10_0000_0000_0000 + 0x10_0000_0000_0000) as nat) * binary::two((m / 0x10_0000_0000_0000 - 1) as nat)
    }
}

/// How many units make one.
pub open spec fn unit_count() -> nat {
    binary::two(1074)
}

/// The value of a finite number, in units of the smallest.
pub open spec fn signed_units(b: u64) -> int {
    if neg(b) {
        -units(mag(b))
    } else {
        units(mag(b)) as int
    }
}

/// `r` is `n / d` with a sign, rounded.
pub open spec fn nearest(n: nat, d: nat, negative: bool, r: u64) -> bool {
    binary::rounds(n, d, 53, -1074, 1024, mag(r)) && neg(r) == negative
}

/// `r` is a number with the given magnitude and sign.
pub open spec fn signed(m: u64, negative: bool) -> u64 {
    if negative {
        (m + SIGN) as u64
    } else {
        m
    }
}

// ---- sums -------------------------------------------------------------------------------------

/// `r` is the sum of `a` and `b`.
pub open spec fn sums(a: u64, b: u64, r: u64) -> bool {
    if is_nan(a) || is_nan(b) || is_inf(a) && is_inf(b) && neg(a) != neg(b) {
        r == NAN
    } else if is_inf(a) {
        r == a
    } else if is_inf(b) {
        r == b
    } else {
        let x = signed_units(a) + signed_units(b);
        if x == 0 {
            r == if neg(a) && neg(b) {
                SIGN
            } else {
                0
            }
        } else {
            nearest(
                if x < 0 {
                    -x
                } else {
                    x
                } as nat,
                unit_count(),
                x < 0,
                r,
            )
        }
    }
}

pub open spec fn sum_of(a: u64, b: u64) -> u64 {
    choose|r: u64| sums(a, b, r)
}

/// `r` is the product of `a` and `b`.
pub open spec fn multiplies(a: u64, b: u64, r: u64) -> bool {
    let negative = neg(a) != neg(b);
    if is_nan(a) || is_nan(b) || is_inf(a) && mag(b) == 0 || is_inf(b) && mag(a) == 0 {
        r == NAN
    } else if is_inf(a) || is_inf(b) {
        r == signed(INF, negative)
    } else {
        nearest(units(mag(a)) * units(mag(b)), unit_count() * unit_count(), negative, r)
    }
}

pub open spec fn product_of(a: u64, b: u64) -> u64 {
    choose|r: u64| multiplies(a, b, r)
}

/// `r` is the quotient of `a` and `b`.
pub open spec fn divides(a: u64, b: u64, r: u64) -> bool {
    let negative = neg(a) != neg(b);
    if is_nan(a) || is_nan(b) || is_inf(a) && is_inf(b) || mag(a) == 0 && mag(b) == 0 {
        r == NAN
    } else if is_inf(a) || mag(b) == 0 {
        r == signed(INF, negative)
    } else if is_inf(b) {
        r == signed(0, negative)
    } else {
        nearest(units(mag(a)), units(mag(b)), negative, r)
    }
}

pub open spec fn quotient_of(a: u64, b: u64) -> u64 {
    choose|r: u64| divides(a, b, r)
}

proof fn lemma_nearest_unique(n: nat, d: nat, negative: bool, r: u64, q: u64)
    requires
        d > 0,
        nearest(n, d, negative, r),
        nearest(n, d, negative, q),
    ensures
        r == q,
{
    binary::law_rounds_unique(n, d, 53, -1074, 1024, mag(r), mag(q));
}

proof fn lemma_units(m: int)
    requires
        0 <= m < INF,
    ensures
        (units(m) == 0) == (m == 0),
        unit_count() > 0,
        unit_count() * unit_count() > 0,
{
    binary::lemma_two_adds(1074, 0);
    let u = unit_count();
    assert(u * u > 0) by (nonlinear_arith)
        requires
            u > 0,
    ;
    if m >= 0x10_0000_0000_0000 {
        let k = (m / 0x10_0000_0000_0000 - 1) as nat;
        binary::lemma_two_adds(k, 0);
        let s = m % 0x10_0000_0000_0000 + 0x10_0000_0000_0000;
        let t = binary::two(k);
        assert(s * t > 0) by (nonlinear_arith)
            requires
                s > 0,
                t > 0,
        ;
    }
}

/// A sum, a product and a quotient have one pattern each.
pub proof fn law_results_are_unique(a: u64, b: u64, r: u64)
    ensures
        sums(a, b, r) ==> r == sum_of(a, b),
        multiplies(a, b, r) ==> r == product_of(a, b),
        divides(a, b, r) ==> r == quotient_of(a, b),
{
    if mag(a) < INF {
        lemma_units(mag(a));
    }
    if mag(b) < INF {
        lemma_units(mag(b));
    }
    if sums(a, b, r) {
        let q = sum_of(a, b);
        assert(sums(a, b, q));
        if mag(a) < INF && mag(b) < INF {
            let x = signed_units(a) + signed_units(b);
            let n = if x < 0 {
                -x
            } else {
                x
            } as nat;
            if x != 0 {
                lemma_nearest_unique(n, unit_count(), x < 0, r, q);
            }
        }
    }
    let negative = neg(a) != neg(b);
    if multiplies(a, b, r) {
        let q = product_of(a, b);
        assert(multiplies(a, b, q));
        if mag(a) < INF && mag(b) < INF {
            lemma_nearest_unique(
                units(mag(a)) * units(mag(b)),
                unit_count() * unit_count(),
                negative,
                r,
                q,
            );
        }
    }
    if divides(a, b, r) {
        let q = quotient_of(a, b);
        assert(divides(a, b, q));
        if mag(a) < INF && 0 < mag(b) < INF {
            lemma_nearest_unique(units(mag(a)), units(mag(b)), negative, r, q);
        }
    }
}

// ---- execution --------------------------------------------------------------------------------

/// The value of a finite magnitude: its significant bits, and how far they are shifted.
fn split(m: u64) -> (r: (u64, u64))
    requires
        m < INF,
    ensures
        units(m as int) == r.0 as nat * binary::two(r.1 as nat),
        r.0 < 0x20_0000_0000_0000,
        r.1 <= 2045,
        r.1 > 0 ==> r.0 >= 0x10_0000_0000_0000,
{
    if m < 0x10_0000_0000_0000 {
        assert(m as nat * 1 == m) by (nonlinear_arith);
        (m, 0)
    } else {
        (m % 0x10_0000_0000_0000 + 0x10_0000_0000_0000, m / 0x10_0000_0000_0000 - 1)
    }
}

/// `s * 2^k`.
fn shifted(s: u64, k: u64) -> (r: Vec<u32>)
    ensures
        value(r@) == s as nat * binary::two(k as nat),
{
    let mut n: Vec<u32> = bignat::from_u64(s);
    number::times_two(&mut n, k);
    n
}

/// `x * t`.
fn times(x: &Vec<u32>, t: u64) -> (r: Vec<u32>)
    ensures
        value(r@) == value(x@) * t,
{
    let hi: u32 = (t / 0x1_0000_0000) as u32;
    let lo: u32 = (t % 0x1_0000_0000) as u32;
    let mut a: Vec<u32> = bignat::copied(x);
    bignat::mul_add(&mut a, hi, 0);
    bignat::mul_add(&mut a, 0x1_0000, 0);
    bignat::mul_add(&mut a, 0x1_0000, 0);
    let mut b: Vec<u32> = bignat::copied(x);
    bignat::mul_add(&mut b, lo, 0);
    proof {
        let v = value(x@) as int;
        let (h, l) = (hi as int, lo as int);
        assert(v * h * 0x1_0000 * 0x1_0000 + v * l == v * (h * 0x1_0000_0000 + l))
            by (nonlinear_arith);
    }
    bignat::plus(&a, &b)
}

fn make(n: &Vec<u32>, d: &Vec<u32>, negative: bool) -> (r: u64)
    requires
        value(d@) > 0,
    ensures
        nearest(value(n@), value(d@), negative, r),
{
    let x: u64 = binary::round_ratio(n, d, 53, -1074, 1024);
    proof {
        binary::lemma_pattern_bound(value(n@), value(d@), 53, -1074, 1024, x as int);
        binary::lemma_two_52();
        assert((53 - 1) as nat == 52);
    }
    if negative {
        x + SIGN
    } else {
        x
    }
}

fn with_sign(m: u64, negative: bool) -> (r: u64)
    requires
        m < SIGN,
    ensures
        r == signed(m, negative),
{
    if negative {
        m + SIGN
    } else {
        m
    }
}

fn abs_units(m: u64) -> (r: Vec<u32>)
    requires
        m < INF,
    ensures
        value(r@) == units(m as int),
{
    let (s, k): (u64, u64) = split(m);
    shifted(s, k)
}

fn unit() -> (r: Vec<u32>)
    ensures
        value(r@) == unit_count(),
{
    assert(1 * unit_count() == unit_count()) by (nonlinear_arith);
    shifted(1, 1074)
}

/// Adds two numbers.
pub fn sum(a: u64, b: u64) -> (r: u64)
    ensures
        sums(a, b, r),
        r == sum_of(a, b),
{
    let r: u64 = add_up(a, b);
    proof {
        law_results_are_unique(a, b, r);
    }
    r
}

fn add_up(a: u64, b: u64) -> (r: u64)
    ensures
        sums(a, b, r),
{
    let ma: u64 = a % SIGN;
    let mb: u64 = b % SIGN;
    let na: bool = a >= SIGN;
    let nb: bool = b >= SIGN;
    if ma > INF || mb > INF || ma == INF && mb == INF && na != nb {
        return NAN;
    }
    if ma == INF {
        return a;
    }
    if mb == INF {
        return b;
    }
    proof {
        lemma_units(ma as int);
        lemma_units(mb as int);
    }
    let mut x: Vec<u32> = abs_units(ma);
    let mut y: Vec<u32> = abs_units(mb);
    let d: Vec<u32> = unit();
    if na == nb {
        let s: Vec<u32> = bignat::plus(&x, &y);
        if ma == 0 && mb == 0 {
            return with_sign(0, na);
        }
        return make(&s, &d, na);
    }
    if bignat::at_least(&x, &y) {
        bignat::subtract(&mut x, &y);
        if bignat::at_least(&Vec::new(), &x) {
            return 0;
        }
        make(&x, &d, na)
    } else {
        bignat::subtract(&mut y, &x);
        make(&y, &d, nb)
    }
}

/// Multiplies two numbers.
pub fn product(a: u64, b: u64) -> (r: u64)
    ensures
        multiplies(a, b, r),
        r == product_of(a, b),
{
    let r: u64 = multiply(a, b);
    proof {
        law_results_are_unique(a, b, r);
    }
    r
}

fn multiply(a: u64, b: u64) -> (r: u64)
    ensures
        multiplies(a, b, r),
{
    let ma: u64 = a % SIGN;
    let mb: u64 = b % SIGN;
    let negative: bool = (a >= SIGN) != (b >= SIGN);
    if ma > INF || mb > INF || ma == INF && mb == 0 || mb == INF && ma == 0 {
        return NAN;
    }
    if ma == INF || mb == INF {
        return with_sign(INF, negative);
    }
    let (t, l): (u64, u64) = split(mb);
    let x: Vec<u32> = abs_units(ma);
    let mut n: Vec<u32> = times(&x, t);
    number::times_two(&mut n, l);
    let d: Vec<u32> = shifted(1, 2148);
    proof {
        lemma_units(ma as int);
        let xi = units(ma as int) as int;
        let ti = t as int;
        let y = binary::two(l as nat) as int;
        assert((xi * ti) * y == xi * (ti * y)) by (nonlinear_arith);
        binary::lemma_two_adds(1074, 1074);
        let z = binary::two(2148);
        assert(1 * z == z) by (nonlinear_arith);
    }
    make(&n, &d, negative)
}

/// Divides two numbers.
pub fn quotient(a: u64, b: u64) -> (r: u64)
    ensures
        divides(a, b, r),
        r == quotient_of(a, b),
{
    let r: u64 = divide(a, b);
    proof {
        law_results_are_unique(a, b, r);
    }
    r
}

fn divide(a: u64, b: u64) -> (r: u64)
    ensures
        divides(a, b, r),
{
    let ma: u64 = a % SIGN;
    let mb: u64 = b % SIGN;
    let negative: bool = (a >= SIGN) != (b >= SIGN);
    if ma > INF || mb > INF || ma == INF && mb == INF || ma == 0 && mb == 0 {
        return NAN;
    }
    if ma == INF || mb == 0 {
        return with_sign(INF, negative);
    }
    if mb == INF {
        return with_sign(0, negative);
    }
    proof {
        lemma_units(mb as int);
    }
    let n: Vec<u32> = abs_units(ma);
    let d: Vec<u32> = abs_units(mb);
    make(&n, &d, negative)
}


// ---- singles and order ------------------------------------------------------------------------

/// `r` is the double of the single `b`. The value stays; of what is not a number nothing does.
pub open spec fn widens(b: u32, r: u64) -> bool {
    if single::is_nan(b) {
        r == NAN
    } else if single::is_inf(b) {
        r == signed(INF, single::neg(b))
    } else {
        nearest(single::units(single::mag(b)), single::unit_count(), single::neg(b), r)
    }
}

pub open spec fn wide(b: u32) -> u64 {
    choose|r: u64| widens(b, r)
}

/// Widens a single.
pub fn widen(b: u32) -> (r: u64)
    ensures
        widens(b, r),
        r == wide(b),
{
    let m: u32 = b % 0x8000_0000;
    let negative: bool = b >= 0x8000_0000;
    proof {
        binary::lemma_two_adds(149, 0);
    }
    let r: u64 = if m > 0x7F80_0000 {
        NAN
    } else if m == 0x7F80_0000 {
        with_sign(INF, negative)
    } else {
        let n: Vec<u32> = single::abs_units(m);
        let d: Vec<u32> = single::unit();
        make(&n, &d, negative)
    };
    proof {
        assert(widens(b, r));
        let q = wide(b);
        assert(widens(b, q));
        if m < 0x7F80_0000 {
            lemma_nearest_unique(
                single::units(single::mag(b)),
                single::unit_count(),
                negative,
                r,
                q,
            );
        }
    }
    r
}

/// The single that a double rounds to.
pub open spec fn narrowed(b: u64) -> u32 {
    choose|r: u32| number::narrows(b, r)
}

/// Rounds a double to a single.
pub fn narrow(b: u64) -> (r: u32)
    ensures
        number::narrows(b, r),
        r == narrowed(b),
{
    let r: u32 = number::narrow(b);
    proof {
        let q = narrowed(b);
        assert(number::narrows(b, q));
        let m = (b % SIGN) as u64;
        if m < INF {
            number::law_value_reads_back(m);
            binary::law_rounds_unique(
                number::value_n(m),
                number::value_d(m),
                24,
                -149,
                128,
                single::mag(r),
                single::mag(q),
            );
        }
    }
    r
}

/// The place of a double on the number line; none if it is not a number. The two zeros share
/// theirs.
pub open spec fn place(b: u64) -> Option<int> {
    if is_nan(b) {
        None
    } else if neg(b) {
        Some(-mag(b))
    } else {
        Some(mag(b))
    }
}

/// `a <= b` as doubles.
pub open spec fn at_most(a: u64, b: u64) -> bool {
    match (place(a), place(b)) {
        (Some(x), Some(y)) => x <= y,
        _ => false,
    }
}

/// Whether `a <= b` as doubles.
pub fn double_at_most(a: u64, b: u64) -> (r: bool)
    ensures
        r == at_most(a, b),
{
    let ma: u64 = a % SIGN;
    let mb: u64 = b % SIGN;
    if ma > INF || mb > INF {
        return false;
    }
    if a >= SIGN {
        b < SIGN || ma >= mb
    } else if b >= SIGN {
        ma == 0 && mb == 0
    } else {
        ma <= mb
    }
}

// ---- narrowing and order ----------------------------------------------------------------------

/// The value of a finite single, in units of the smallest double.
pub open spec fn single_units(s: u32) -> int {
    single::signed_units(s) * binary::two(925)
}

/// The value of a magnitude as a fraction and in units is the same.
pub proof fn lemma_value_units(m: u64)
    requires
        m < INF,
    ensures
        number::value_n(m) * unit_count() == units(m as int) * number::value_d(m),
{
    let e = number::exponent(m);
    let g = number::significand(m);
    let k = (e + 1074) as nat;
    let (t, u) = (binary::two(k), unit_count());
    assert(g * 1 == g) by (nonlinear_arith);
    assert(units(m as int) == g * t);
    if e > 0 {
        binary::lemma_two_adds(e as nat, 1074);
        assert(e as nat + 1074 == k);
        let z = binary::two(e as nat);
        assert((g * z) * u == (g * (z * u)) * 1) by (nonlinear_arith);
    } else {
        binary::lemma_two_adds(k, (-e) as nat);
        assert(k + (-e) as nat == 1074);
        let z = binary::two((-e) as nat);
        assert(g * (t * z) == (g * t) * z) by (nonlinear_arith);
    }
}

/// The pattern that a finite magnitude narrows to is that of a number.
proof fn lemma_narrow_bound(m: u64, k: int)
    requires
        m < INF,
        binary::rounds(number::value_n(m), number::value_d(m), 24, -149, 128, k),
    ensures
        0 <= k <= 0x7F80_0000,
        m == 0 ==> k == 0,
{
    number::law_value_reads_back(m);
    binary::lemma_pattern_bound(number::value_n(m), number::value_d(m), 24, -149, 128, k);
    assert(binary::two(23) == 0x80_0000) by {
        reveal_with_fuel(binary::two, 24);
    }
    assert((24 - 1) as nat == 23);
}

proof fn lemma_magnitudes_narrow(m1: u64, m2: u64, k1: int, k2: int)
    requires
        m1 <= m2 < INF,
        binary::rounds(number::value_n(m1), number::value_d(m1), 24, -149, 128, k1),
        binary::rounds(number::value_n(m2), number::value_d(m2), 24, -149, 128, k2),
    ensures
        k1 <= k2,
{
    number::law_value_reads_back(m1);
    number::law_value_reads_back(m2);
    let (n1, d1) = (number::value_n(m1), number::value_d(m1));
    let (n2, d2) = (number::value_n(m2), number::value_d(m2));
    if n1 * d2 > n2 * d1 {
        binary::law_rounds_ordered(n2, d2, n1, d1, 53, -1074, 1024, m2 as int, m1 as int);
    }
    binary::law_rounds_ordered(n1, d1, n2, d2, 24, -149, 128, k1, k2);
}

/// Where the single of a number lies.
proof fn lemma_narrowed_place(a: u64, r: u32)
    requires
        !is_nan(a),
        number::narrows(a, r),
    ensures
        ({
            let (m, k) = (mag(a) as u64, single::mag(r));
            &&& 0 <= k <= 0x7F80_0000
            &&& m == 0 ==> k == 0
            &&& sampler::place(r) == Some(
                if neg(a) {
                    -k
                } else {
                    k
                },
            )
            &&& if m < INF {
                binary::rounds(number::value_n(m), number::value_d(m), 24, -149, 128, k)
            } else {
                k == 0x7F80_0000
            }
        }),
{
    let (m, k) = (mag(a) as u64, single::mag(r));
    if m < INF {
        lemma_narrow_bound(m, k);
    }
}

/// Narrowing keeps the order: the single of the smaller of two doubles is no larger.
pub proof fn law_narrowing_keeps_order(a: u64, b: u64, ra: u32, rb: u32)
    requires
        at_most(a, b),
        number::narrows(a, ra),
        number::narrows(b, rb),
    ensures
        sampler::at_most(ra, rb),
{
    let (ma, mb) = (mag(a) as u64, mag(b) as u64);
    let (ka, kb) = (single::mag(ra), single::mag(rb));
    lemma_narrowed_place(a, ra);
    lemma_narrowed_place(b, rb);
    if ma <= mb && mb < INF {
        lemma_magnitudes_narrow(ma, mb, ka, kb);
    }
    if mb <= ma && ma < INF {
        lemma_magnitudes_narrow(mb, ma, kb, ka);
    }
}

proof fn lemma_magnitude_against(m: u64, k: int, t: int)
    requires
        m < INF,
        0 <= t < single::INF,
        binary::rounds(number::value_n(m), number::value_d(m), 24, -149, 128, k),
    ensures
        units(m as int) <= single::units(t) * binary::two(925) ==> k <= t,
        units(m as int) >= single::units(t) * binary::two(925) ==> k >= t,
{
    number::law_value_reads_back(m);
    single::law_value_reads_back(t);
    lemma_value_units(m);
    binary::lemma_two_adds(149, 925);
    binary::lemma_two_adds(149, 0);
    binary::lemma_two_adds(925, 0);
    let (n, d, u) = (number::value_n(m), number::value_d(m), units(m as int));
    let (v, w, z) = (single::units(t), single::unit_count(), binary::two(925));
    assert(n * (w * z) == u * d);
    if u <= v * z {
        assert(n * w <= v * d) by (nonlinear_arith)
            requires
                n * (w * z) == u * d,
                u <= v * z,
                z > 0,
                d > 0,
        ;
        binary::law_rounds_ordered(n, d, v, w, 24, -149, 128, k, t);
    }
    if u >= v * z {
        assert(v * d <= n * w) by (nonlinear_arith)
            requires
                n * (w * z) == u * d,
                u >= v * z,
                z > 0,
                d > 0,
        ;
        binary::law_rounds_ordered(v, w, n, d, 24, -149, 128, t, k);
    }
}

/// Narrowing does not cross a single: a double that lies on one side of a single narrows to that
/// side, or to the single itself.
pub proof fn law_narrowing_crosses_no_single(a: u64, r: u32, s: u32)
    requires
        mag(a) < INF,
        single::mag(s) < single::INF,
        number::narrows(a, r),
    ensures
        signed_units(a) <= single_units(s) ==> sampler::at_most(r, s),
        signed_units(a) >= single_units(s) ==> sampler::at_most(s, r),
{
    let m = mag(a) as u64;
    let (k, t) = (single::mag(r), single::mag(s));
    let z = binary::two(925);
    let v = single::units(t);
    binary::lemma_two_adds(925, 0);
    lemma_narrow_bound(m, k);
    lemma_magnitude_against(m, k, t);
    single::law_value_reads_back(t);
    lemma_units(m as int);
    assert(v * z >= 0 && (v * z == 0 ==> v == 0) && (-v) * z == -(v * z)) by (nonlinear_arith)
        requires
            v >= 0,
            z > 0,
    ;
    assert(single::neg(s) ==> single_units(s) == -(v * z));
    assert(!single::neg(s) ==> single_units(s) == v * z);
}

} // verus!
