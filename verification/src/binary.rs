//! Rounding of rational numbers to binary floating-point patterns.
//!
//! A format has `p` significant bits, a smallest exponent `emin`, and overflows from two to the
//! power `emax` on: 53, -1074 and 1024 for doubles, 24, -149 and 128 for singles. Patterns here
//! are those of non-negative numbers.

use vstd::prelude::*;

use crate::bignat;
use crate::bignat::value;

verus! {

/// Two to the power `k`.
pub open spec fn two(k: nat) -> nat
    decreases k,
{
    if k == 0 {
        1
    } else {
        2 * two((k - 1) as nat)
    }
}

pub proof fn lemma_two_adds(a: nat, b: nat)
    ensures
        two(a + b) == two(a) * two(b),
        two(a) >= 1,
    decreases a,
{
    if a > 0 {
        lemma_two_adds((a - 1) as nat, b);
        let x = two((a - 1) as nat);
        let y = two(b);
        assert(2 * (x * y) == (2 * x) * y) by (nonlinear_arith);
        assert((a - 1) as nat + b == (a + b - 1) as nat);
    } else {
        assert(1 * two(b) == two(b)) by (nonlinear_arith);
    }
}

pub proof fn lemma_two_monotone(a: nat, b: nat)
    requires
        a <= b,
    ensures
        1 <= two(a) <= two(b),
{
    lemma_two_adds(a, (b - a) as nat);
    lemma_two_adds((b - a) as nat, 0);
    let x = two(a);
    let y = two((b - a) as nat);
    assert(x * y >= x) by (nonlinear_arith)
        requires
            y >= 1,
    ;
}

/// The numerator of `n / d` over the unit `2^e`.
pub open spec fn over(n: nat, e: int) -> nat {
    if e < 0 {
        n * two((-e) as nat)
    } else {
        n
    }
}

/// Its denominator.
pub open spec fn under(d: nat, e: int) -> nat {
    if e > 0 {
        d * two(e as nat)
    } else {
        d
    }
}

/// `2^e` is the unit in which `n / d` has `p` bits, or the smallest unit if it has fewer there.
pub open spec fn fits(n: nat, d: nat, p: nat, emin: int, e: int) -> bool {
    let q = over(n, e) / under(d, e);
    &&& e >= emin
    &&& q < two(p)
    &&& e == emin || q >= two((p - 1) as nat)
}

/// `x / y` rounded to the nearest integer, a tie to the even one.
pub open spec fn half_even(x: nat, y: nat) -> nat {
    let q = x / y;
    let r = x % y;
    if 2 * r > y || 2 * r == y && q % 2 == 1 {
        q + 1
    } else {
        q
    }
}

/// The pattern of `n / d` rounded to a multiple of `2^e`.
pub open spec fn packed(n: nat, d: nat, p: nat, emin: int, e: int) -> int {
    (e - emin) * two((p - 1) as nat) + half_even(over(n, e), under(d, e))
}

/// The pattern of infinity.
pub open spec fn infinity(p: nat, emin: int, emax: int) -> int {
    (emax - p - emin + 2) * two((p - 1) as nat)
}

/// `b` is the pattern of `n / d`, rounded to nearest, ties to even.
pub open spec fn rounds(n: nat, d: nat, p: nat, emin: int, emax: int, b: int) -> bool {
    if n == 0 {
        b == 0
    } else if n >= d * two(emax as nat) {
        b == infinity(p, emin, emax)
    } else {
        exists|e: int| #[trigger] fits(n, d, p, emin, e) && b == packed(n, d, p, emin, e)
    }
}

fn twice(a: &mut Vec<u32>)
    ensures
        value(final(a)@) == 2 * value(old(a)@),
{
    bignat::mul_add(a, 2, 0);
}

pub(crate) fn pow_two(k: u32) -> (r: u64)
    requires
        k <= 60,
    ensures
        r == two(k as nat),
        r <= 0x1000_0000_0000_0000,
{
    let mut r: u64 = 1;
    let mut i: u32 = 0;
    proof {
        lemma_two_60();
        lemma_two_monotone(k as nat, 60);
        assert(1 * two(k as nat) == two(k as nat)) by (nonlinear_arith);
    }
    while i < k
        invariant
            i <= k <= 60,
            r == two(i as nat),
            r * two((k - i) as nat) == two(k as nat),
            two(k as nat) <= 0x1000_0000_0000_0000,
        decreases k - i,
    {
        proof {
            let x = two((k - i - 1) as nat);
            lemma_two_adds((k - i - 1) as nat, 0);
            assert(two((k - i) as nat) == 2 * x);
            assert(2 * r <= r * (2 * x) && r * (2 * x) == (2 * r) * x) by (nonlinear_arith)
                requires
                    x >= 1,
            ;
        }
        r = r * 2;
        i += 1;
    }
    r
}

proof fn lemma_two_60()
    ensures
        two(60) == 0x1000_0000_0000_0000,
{
    reveal_with_fuel(two, 21);
    lemma_two_adds(20, 20);
    lemma_two_adds(40, 20);
}

/// The long division of `a` by `t / 2^(p-1)`, where `a < 2t`: the quotient, and how twice the
/// remainder compares with the divisor.
fn divide(a: Vec<u32>, t: &Vec<u32>, p: u32, Ghost(y): Ghost<nat>) -> (r: (u64, bool, bool))
    requires
        1 <= p <= 60,
        y > 0,
        value(t@) == y * two((p - 1) as nat),
        value(a@) < 2 * value(t@),
    ensures
        r.0 == value(a@) / y,
        r.0 < two(p as nat),
        r.1 == (2 * (value(a@) % y) > y),
        r.2 == (2 * (value(a@) % y) == y),
{
    let ghost av = value(a@);
    let ghost tv = value(t@);
    let mut rem: Vec<u32> = a;
    let mut q: u64 = 0;
    let mut k: u32 = 0;
    proof {
        lemma_two_60();
        lemma_two_monotone(p as nat, 60);
        assert(av * 1 == av && 0 * (2 * tv) == 0) by (nonlinear_arith);
    }
    while k < p
        invariant
            k <= p <= 60,
            tv == value(t@),
            value(rem@) < 2 * tv,
            q < two(k as nat),
            two(p as nat) <= 0x1000_0000_0000_0000,
            av * two(k as nat) == q * (2 * tv) + value(rem@),
        decreases p - k,
    {
        let ghost rv = value(rem@);
        let ghost z = two(k as nat);
        let ghost qi = q as nat;
        proof {
            lemma_two_monotone((k + 1) as nat, p as nat);
        }
        if bignat::at_least(&rem, t) {
            bignat::subtract(&mut rem, t);
            q = 2 * q + 1;
            proof {
                assert(av * (2 * z) == (2 * qi + 1) * (2 * tv) + 2 * (rv - tv)) by (nonlinear_arith)
                    requires
                        av * z == qi * (2 * tv) + rv,
                ;
            }
        } else {
            q = 2 * q;
            proof {
                assert(av * (2 * z) == (2 * qi) * (2 * tv) + 2 * rv) by (nonlinear_arith)
                    requires
                        av * z == qi * (2 * tv) + rv,
                ;
            }
        }
        twice(&mut rem);
        k += 1;
    }
    let above: bool = bignat::at_least(&rem, t);
    let below: bool = bignat::at_least(t, &rem);
    proof {
        let z = two(p as nat) as int;
        let rv = value(rem@) as int;
        let qi = q as int;
        let yi = y as int;
        let ai = av as int;
        let half = two((p - 1) as nat) as int;
        assert(z == 2 * half);
        lemma_two_adds((p - 1) as nat, 0);
        assert(2 * (yi * half) == yi * z) by (nonlinear_arith)
            requires
                z == 2 * half,
        ;
        let m = ai - qi * yi;
        assert(m * z == rv) by (nonlinear_arith)
            requires
                m == ai - qi * yi,
                ai * z == qi * (yi * z) + rv,
        ;
        assert(0 <= m < yi) by (nonlinear_arith)
            requires
                m * z == rv,
                0 <= rv < yi * z,
                z > 0,
        ;
        vstd::arithmetic::div_mod::lemma_fundamental_div_mod_converse(ai, yi, qi, m);
        let ti = tv as int;
        assert((rv > ti) == (2 * m > yi) && (rv == ti) == (2 * m == yi)) by (nonlinear_arith)
            requires
                m * z == rv,
                2 * ti == yi * z,
                z > 0,
        ;
    }
    (q, above && !below, above && below)
}

/// Rounds `n / d` to the format with `p` bits, exponents from `emin` on, below `2^emax`.
pub fn round_ratio(n: &Vec<u32>, d: &Vec<u32>, p: u32, emin: i64, emax: i64) -> (r: u64)
    requires
        value(d@) > 0,
        2 <= p <= 53,
        -1100 <= emin < 0,
        p <= emax <= 1024,
    ensures
        rounds(value(n@), value(d@), p as nat, emin as int, emax as int, r as int),
{
    let ghost nv = value(n@);
    let ghost dv = value(d@);
    let ghost h = two((p - 1) as nat);
    let ghost pn = p as nat;
    let ghost mn = emin as int;
    let zero: Vec<u32> = Vec::new();
    if bignat::at_least(&zero, n) {
        return 0;
    }
    proof {
        lemma_two_60();
        lemma_two_monotone((p - 1) as nat, 52);
        lemma_two_adds((p - 1) as nat, 0);
        reveal_with_fuel(two, 9);
        lemma_two_52();
    }
    let mut a: Vec<u32> = bignat::copied(n);
    let mut b: Vec<u32> = bignat::copied(d);
    let mut k: u32 = 0;
    assert(dv * 1 == dv) by (nonlinear_arith);
    while k < p - 1
        invariant
            k <= p - 1,
            2 <= p <= 53,
            value(b@) == dv * two(k as nat),
        decreases p - 1 - k,
    {
        let ghost z = two(k as nat);
        assert(2 * (dv * z) == dv * (2 * z)) by (nonlinear_arith);
        twice(&mut b);
        k += 1;
    }
    let unit: u64 = pow_two(p - 1);
    let mut e: i64 = 0;
    assert(nv * 1 == nv && h * 1 == h) by (nonlinear_arith);
    let ghost bv = value(b@);
    assert(bv == dv * h);
    if !bignat::at_least(&a, &b) {
        let mut low: bool = true;
        while low && e > emin
            invariant
                -1100 <= emin <= e <= 0,
                value(a@) == over(nv, e as int),
                value(b@) == bv,
                low == (value(a@) < bv),
                value(a@) < 2 * bv,
                e == 0 ==> low,
            decreases e - emin,
        {
            let ghost z = two((-e) as nat);
            assert(2 * (nv * z) == nv * (2 * z)) by (nonlinear_arith);
            assert(nv * 1 == nv) by (nonlinear_arith);
            assert(two((-(e - 1)) as nat) == 2 * z);
            twice(&mut a);
            e = e - 1;
            low = !bignat::at_least(&a, &b);
        }
        assert(e < 0);
        assert(under(dv, e as int) == dv);
    } else {
        let mut high: bool = true;
        let mut c: Vec<u32> = bignat::copied(&b);
        twice(&mut c);
        high = bignat::at_least(&a, &c);
        while high
            invariant
                0 <= e <= emax - p,
                2 <= p <= 53,
                p <= emax <= 1024,
                -1100 <= emin < 0,
                unit == two((p - 1) as nat),
                unit <= 0x10_0000_0000_0000,
                nv == value(n@),
                dv == value(d@),
                nv > 0,
                h == two((p - 1) as nat),
                pn == p,
                mn == emin,
                value(a@) == nv,
                value(b@) == under(dv, e as int) * h,
                value(c@) == 2 * value(b@),
                value(a@) >= value(b@),
                high == (value(a@) >= value(c@)),
            decreases emax - e,
        {
            if e == emax - p as i64 {
                proof {
                    let z = two(e as nat);
                    lemma_two_adds((p - 1) as nat, 1);
                    lemma_two_adds(e as nat, p as nat);
                    assert(two(1) == 2) by {
                        reveal_with_fuel(two, 2);
                    }
                    let t = two(p as nat);
                    assert(two(emax as nat) == z * t);
                    assert(t == h * 2);
                    let u = under(dv, e as int);
                    if e == 0 {
                        assert(dv * 1 == dv) by (nonlinear_arith);
                    }
                    assert(u == dv * z);
                    assert(2 * (u * h) == dv * (z * t)) by (nonlinear_arith)
                        requires
                            u == dv * z,
                            t == h * 2,
                    ;
                }
                return infinite(unit, p, emin, emax);
            }
            let ghost z = two(e as nat);
            proof {
                assert(dv * 1 == dv) by (nonlinear_arith);
                assert(two((e + 1) as nat) == 2 * z);
                assert(dv * (2 * z) * h == 2 * (dv * z * h)) by (nonlinear_arith);
                assert(2 * (2 * (dv * z * h)) == 2 * (dv * (2 * z) * h)) by (nonlinear_arith);
            }
            twice(&mut b);
            twice(&mut c);
            e = e + 1;
            high = bignat::at_least(&a, &c);
        }
        assert(over(nv, e as int) == nv);
    }
    let ghost x = over(nv, e as int);
    let ghost y = under(dv, e as int);
    assert(value(a@) == x && value(b@) == y * h);
    proof {
        if e > 0 {
            lemma_two_adds(e as nat, 0);
            assert(y > 0) by (nonlinear_arith)
                requires
                    y == dv * two(e as nat),
                    dv > 0,
                    two(e as nat) > 0,
            ;
        }
    }
    let (q, more, tie) = divide(a, &b, p, Ghost(y));
    proof {
        // the quotient has p bits unless the exponent is the smallest
        if e > emin {
            assert(x >= y * h);
            assert(x / y >= h) by (nonlinear_arith)
                requires
                    x >= y * h,
                    y > 0,
            ;
        }
        assert(fits(nv, dv, pn, mn, e as int));
        assert(2 * (y * h) == y * (2 * h)) by (nonlinear_arith);
        assert(two(p as nat) == 2 * h);
        lemma_below_max(nv, dv, p as nat, e as int, emax as int);
    }
    let m: u64 = if more || tie && q % 2 == 1 {
        q + 1
    } else {
        q
    };
    assert(m == half_even(x, y));
    let steps: u64 = (e - emin) as u64;
    assert(steps * unit <= 2200 * 0x10_0000_0000_0000) by (nonlinear_arith)
        requires
            steps <= 2200,
            unit <= 0x10_0000_0000_0000,
    ;
    assert(two(p as nat) == 2 * h);
    let r: u64 = steps * unit + m;
    assert(r == packed(nv, dv, pn, mn, e as int));
    r
}

pub proof fn lemma_two_52()
    ensures
        two(52) == 0x10_0000_0000_0000,
{
    reveal_with_fuel(two, 21);
    lemma_two_adds(20, 20);
    lemma_two_adds(40, 12);
}

fn infinite(unit: u64, p: u32, emin: i64, emax: i64) -> (r: u64)
    requires
        unit == two((p - 1) as nat),
        unit <= 0x10_0000_0000_0000,
        2 <= p <= 53,
        -1100 <= emin < 0,
        p <= emax <= 1024,
    ensures
        r == infinity(p as nat, emin as int, emax as int),
{
    let steps: u64 = (emax - p as i64 - emin + 2) as u64;
    assert(steps * unit <= 2200 * 0x10_0000_0000_0000) by (nonlinear_arith)
        requires
            steps <= 2200,
            unit <= 0x10_0000_0000_0000,
    ;
    steps * unit
}

/// A number with a unit that leaves room for its bits is below the format's bound.
pub proof fn lemma_below_max(n: nat, d: nat, p: nat, e: int, emax: int)
    requires
        d > 0,
        1 <= p <= emax,
        e <= emax - p,
        over(n, e) < under(d, e) * two(p),
    ensures
        n < d * two(emax as nat),
{
    if e > 0 {
        lemma_two_adds(e as nat, p);
        lemma_two_monotone(e as nat + p, emax as nat);
        let z = two(e as nat);
        let t = two(p);
        let m = two(emax as nat);
        assert(n < d * m) by (nonlinear_arith)
            requires
                n < d * z * t,
                z * t <= m,
        ;
    } else {
        let z = two((-e) as nat);
        lemma_two_adds((-e) as nat, 0);
        lemma_two_monotone(p, emax as nat);
        let t = two(p);
        let m = two(emax as nat);
        if e < 0 {
            assert(n < d * m) by (nonlinear_arith)
                requires
                    n * z < d * t,
                    z >= 1,
                    t <= m,
            ;
        } else {
            assert(n < d * m) by (nonlinear_arith)
                requires
                    n < d * t,
                    t <= m,
            ;
        }
    }
}

// ---- what rounding depends on ---------------------------------------------------------

/// Equal fractions have equal quotients, and their remainders compare alike with the divisors.
pub proof fn lemma_same_fraction(x1: nat, y1: nat, x2: nat, y2: nat)
    requires
        y1 > 0,
        y2 > 0,
        x1 * y2 == x2 * y1,
    ensures
        x1 / y1 == x2 / y2,
        (2 * (x1 % y1) > y1) == (2 * (x2 % y2) > y2),
        (2 * (x1 % y1) == y1) == (2 * (x2 % y2) == y2),
        half_even(x1, y1) == half_even(x2, y2),
{
    let q = (x1 / y1) as int;
    let r1 = (x1 % y1) as int;
    let a = x1 as int;
    let b = y1 as int;
    let c = x2 as int;
    let d = y2 as int;
    vstd::arithmetic::div_mod::lemma_fundamental_div_mod(a, b);
    let r2 = c - q * d;
    assert(b * r2 == r1 * d) by (nonlinear_arith)
        requires
            a == b * q + r1,
            a * d == c * b,
            r2 == c - q * d,
    ;
    assert(0 <= r2 < d) by (nonlinear_arith)
        requires
            b * r2 == r1 * d,
            0 <= r1 < b,
            d > 0,
            b > 0,
    ;
    vstd::arithmetic::div_mod::lemma_fundamental_div_mod_converse(c, d, q, r2);
    assert((2 * r1 > b) == (2 * r2 > d) && (2 * r1 == b) == (2 * r2 == d)) by (nonlinear_arith)
        requires
            b * r2 == r1 * d,
            b > 0,
            d > 0,
    ;
}

proof fn lemma_scaled(n1: nat, d1: nat, n2: nat, d2: nat, e: int)
    requires
        d1 > 0,
        d2 > 0,
        n1 * d2 == n2 * d1,
    ensures
        under(d1, e) > 0,
        under(d2, e) > 0,
        over(n1, e) * under(d2, e) == over(n2, e) * under(d1, e),
{
    if e < 0 {
        let z = two((-e) as nat);
        assert((n1 * z) * d2 == (n2 * z) * d1) by (nonlinear_arith)
            requires
                n1 * d2 == n2 * d1,
        ;
    } else if e > 0 {
        let z = two(e as nat);
        lemma_two_adds(e as nat, 0);
        assert(n1 * (d2 * z) == n2 * (d1 * z)) by (nonlinear_arith)
            requires
                n1 * d2 == n2 * d1,
        ;
        assert(d1 * z > 0 && d2 * z > 0) by (nonlinear_arith)
            requires
                d1 > 0,
                d2 > 0,
                z > 0,
        ;
    }
}

/// Rounding depends on the fraction alone.
pub proof fn law_rounds_fraction(
    n1: nat,
    d1: nat,
    n2: nat,
    d2: nat,
    p: nat,
    emin: int,
    emax: int,
    b: int,
)
    requires
        d1 > 0,
        d2 > 0,
        n1 * d2 == n2 * d1,
        rounds(n1, d1, p, emin, emax, b),
    ensures
        rounds(n2, d2, p, emin, emax, b),
{
    let m = two(emax as nat);
    assert((n1 == 0) == (n2 == 0)) by (nonlinear_arith)
        requires
            d1 > 0,
            d2 > 0,
            n1 * d2 == n2 * d1,
    ;
    assert((n1 >= d1 * m) == (n2 >= d2 * m)) by (nonlinear_arith)
        requires
            d1 > 0,
            d2 > 0,
            n1 * d2 == n2 * d1,
    ;
    if n1 != 0 && n1 < d1 * m {
        let e = choose|e: int|
            #[trigger] fits(n1, d1, p, emin, e) && b == packed(n1, d1, p, emin, e);
        lemma_scaled(n1, d1, n2, d2, e);
        lemma_same_fraction(over(n1, e), under(d1, e), over(n2, e), under(d2, e));
        assert(fits(n2, d2, p, emin, e));
    }
}

proof fn lemma_units(n: nat, d: nat, e1: int, e2: int)
    requires
        e1 <= e2,
    ensures
        over(n, e1) * under(d, e2) == over(n, e2) * under(d, e1) * two((e2 - e1) as nat),
{
    let k = (e2 - e1) as nat;
    let z = two(k);
    if e2 <= 0 {
        let b = two((-e2) as nat);
        lemma_two_adds((-e2) as nat, k);
        assert((-e2) as nat + k == (-e1) as nat);
        assert(n * 1 == n) by (nonlinear_arith);
        assert((n * (b * z)) * d == (n * b) * d * z) by (nonlinear_arith);
    } else if e1 <= 0 {
        let a = two((-e1) as nat);
        let c = two(e2 as nat);
        lemma_two_adds((-e1) as nat, e2 as nat);
        assert((-e1) as nat + e2 as nat == k);
        assert(n * 1 == n) by (nonlinear_arith);
        assert((n * a) * (d * c) == n * d * (a * c)) by (nonlinear_arith);
    } else {
        let a = two(e1 as nat);
        let c = two(e2 as nat);
        lemma_two_adds(e1 as nat, k);
        assert(n * (d * (a * z)) == n * (d * a) * z) by (nonlinear_arith);
    }
}

/// The unit of a number is unique.
proof fn lemma_unit_unique(n: nat, d: nat, p: nat, emin: int, e1: int, e2: int)
    requires
        d > 0,
        p >= 1,
        fits(n, d, p, emin, e1),
        fits(n, d, p, emin, e2),
    ensures
        e1 >= e2,
{
    if e1 < e2 {
        let x1 = over(n, e1);
        let y1 = under(d, e1);
        let x2 = over(n, e2);
        let y2 = under(d, e2);
        lemma_scaled(n, d, n, d, e1);
        lemma_scaled(n, d, n, d, e2);
        lemma_units(n, d, e1, e2);
        let k = (e2 - e1) as nat;
        let z = two(k);
        lemma_two_monotone(1, k);
        assert(two(1) == 2) by {
            reveal_with_fuel(two, 2);
        }
        let h = two((p - 1) as nat);
        assert(two(p) == 2 * h);
        let q2 = x2 / y2;
        vstd::arithmetic::div_mod::lemma_fundamental_div_mod(x2 as int, y2 as int);
        assert(x2 >= h * y2) by (nonlinear_arith)
            requires
                x2 >= y2 * q2,
                q2 >= h,
        ;
        assert(x1 >= (2 * h) * y1) by (nonlinear_arith)
            requires
                x1 * y2 == x2 * y1 * z,
                x2 >= h * y2,
                z >= 2,
                y2 > 0,
        ;
        let t = 2 * h;
        assert(x1 / y1 >= t) by (nonlinear_arith)
            requires
                x1 >= t * y1,
                y1 > 0,
        ;
    }
}

/// A fraction has one pattern.
pub proof fn law_rounds_unique(
    n: nat,
    d: nat,
    p: nat,
    emin: int,
    emax: int,
    b1: int,
    b2: int,
)
    requires
        d > 0,
        p >= 1,
        rounds(n, d, p, emin, emax, b1),
        rounds(n, d, p, emin, emax, b2),
    ensures
        b1 == b2,
{
    if n != 0 && n < d * two(emax as nat) {
        let e1 = choose|e: int| #[trigger] fits(n, d, p, emin, e) && b1 == packed(n, d, p, emin, e);
        let e2 = choose|e: int| #[trigger] fits(n, d, p, emin, e) && b2 == packed(n, d, p, emin, e);
        lemma_unit_unique(n, d, p, emin, e1, e2);
        lemma_unit_unique(n, d, p, emin, e2, e1);
    }
}

/// A pattern is at most that of infinity.
pub proof fn lemma_pattern_bound(n: nat, d: nat, p: nat, emin: int, emax: int, b: int)
    requires
        d > 0,
        1 <= p <= emax,
        emin <= 0,
        rounds(n, d, p, emin, emax, b),
    ensures
        0 <= b <= infinity(p, emin, emax),
{
    let h = two((p - 1) as nat) as int;
    lemma_two_adds((p - 1) as nat, 0);
    let steps = emax - p - emin + 2;
    assert(0 <= steps * h) by (nonlinear_arith)
        requires
            steps >= 0,
            h >= 1,
    ;
    if n != 0 && n < d * two(emax as nat) {
        let e = choose|e: int| #[trigger] fits(n, d, p, emin, e) && b == packed(n, d, p, emin, e);
        let x = over(n, e);
        let y = under(d, e);
        lemma_scaled(n, d, n, d, e);
        let q = x / y;
        assert(half_even(x, y) <= q + 1 <= two(p));
        assert(two(p) == 2 * h);
        let k = e - emin;
        assert(0 <= k * h) by (nonlinear_arith)
            requires
                k >= 0,
                h >= 1,
        ;
        if e > emax - p {
            // the number would reach the bound
            if e > emin {
                vstd::arithmetic::div_mod::lemma_fundamental_div_mod(x as int, y as int);
                assert(x >= y * h) by (nonlinear_arith)
                    requires
                        x >= y * q,
                        q >= h,
                ;
                lemma_reaches(n, d, p, e, emax);
            }
        }
        assert(k * h + 2 * h <= steps * h) by (nonlinear_arith)
            requires
                k + 2 <= steps,
                h >= 1,
        ;
    }
}

proof fn lemma_reaches(n: nat, d: nat, p: nat, e: int, emax: int)
    requires
        d > 0,
        1 <= p <= emax,
        e > emax - p,
        over(n, e) >= under(d, e) * two((p - 1) as nat),
    ensures
        n >= d * two(emax as nat),
{
    let h = two((p - 1) as nat);
    let m = two(emax as nat);
    let z = two(e as nat);
    lemma_two_adds(e as nat, (p - 1) as nat);
    lemma_two_monotone(emax as nat, (e as nat + (p - 1) as nat) as nat);
    assert(d * 1 == d) by (nonlinear_arith);
    assert(n >= d * m) by (nonlinear_arith)
        requires
            n >= d * z * h,
            z * h >= m,
    ;
}

// ---- order ------------------------------------------------------------------------------------

/// Rounding to an integer keeps the order.
proof fn lemma_half_even_ordered(x1: nat, y1: nat, x2: nat, y2: nat)
    requires
        y1 > 0,
        y2 > 0,
        x1 * y2 <= x2 * y1,
    ensures
        half_even(x1, y1) <= half_even(x2, y2),
{
    let (a, b, c, d) = (x1 as int, y1 as int, x2 as int, y2 as int);
    vstd::arithmetic::div_mod::lemma_fundamental_div_mod(a, b);
    vstd::arithmetic::div_mod::lemma_fundamental_div_mod(c, d);
    let (q1, r1) = (a / b, a % b);
    let (q2, r2) = (c / d, c % d);
    assert(q1 <= q2) by (nonlinear_arith)
        requires
            a == b * q1 + r1,
            c == d * q2 + r2,
            0 <= r1,
            r2 < d,
            b > 0,
            d > 0,
            a * d <= c * b,
    ;
    if q1 == q2 {
        assert(r1 * d <= r2 * b) by (nonlinear_arith)
            requires
                a == b * q1 + r1,
                c == d * q1 + r2,
                a * d <= c * b,
        ;
        assert(2 * r1 > b ==> 2 * r2 > d) by (nonlinear_arith)
            requires
                r1 * d <= r2 * b,
                b > 0,
                d > 0,
        ;
        assert(2 * r1 == b ==> 2 * r2 >= d) by (nonlinear_arith)
            requires
                r1 * d <= r2 * b,
                b > 0,
                d > 0,
        ;
    }
}

proof fn lemma_scaled_ordered(n1: nat, d1: nat, n2: nat, d2: nat, e: int)
    requires
        d1 > 0,
        d2 > 0,
        n1 * d2 <= n2 * d1,
    ensures
        under(d1, e) > 0,
        under(d2, e) > 0,
        over(n1, e) * under(d2, e) <= over(n2, e) * under(d1, e),
{
    if e < 0 {
        let z = two((-e) as nat);
        assert((n1 * z) * d2 <= (n2 * z) * d1) by (nonlinear_arith)
            requires
                n1 * d2 <= n2 * d1,
                z >= 0,
        ;
    } else if e > 0 {
        let z = two(e as nat);
        lemma_two_adds(e as nat, 0);
        assert(n1 * (d2 * z) <= n2 * (d1 * z)) by (nonlinear_arith)
            requires
                n1 * d2 <= n2 * d1,
                z >= 0,
        ;
        assert(d1 * z > 0 && d2 * z > 0) by (nonlinear_arith)
            requires
                d1 > 0,
                d2 > 0,
                z > 0,
        ;
    }
}

/// The smaller of two numbers has no larger unit.
proof fn lemma_unit_ordered(n1: nat, d1: nat, n2: nat, d2: nat, p: nat, emin: int, e1: int, e2: int)
    requires
        d1 > 0,
        d2 > 0,
        p >= 1,
        n1 * d2 <= n2 * d1,
        fits(n1, d1, p, emin, e1),
        fits(n2, d2, p, emin, e2),
    ensures
        e1 <= e2,
{
    if e1 > e2 {
        let (x1, y1) = (over(n1, e1), under(d1, e1));
        let (x2, y2) = (over(n2, e2), under(d2, e2));
        let (u2, v2) = (over(n2, e1), under(d2, e1));
        lemma_scaled_ordered(n1, d1, n2, d2, e1);
        lemma_scaled_ordered(n1, d1, n2, d2, e2);
        lemma_units(n2, d2, e2, e1);
        let k = (e1 - e2) as nat;
        let z = two(k);
        lemma_two_monotone(1, k);
        assert(two(1) == 2) by {
            reveal_with_fuel(two, 2);
        }
        let h = two((p - 1) as nat);
        assert(two(p) == 2 * h);
        let q1 = x1 / y1;
        vstd::arithmetic::div_mod::lemma_fundamental_div_mod(x1 as int, y1 as int);
        assert(x1 >= h * y1) by (nonlinear_arith)
            requires
                x1 >= y1 * q1,
                q1 >= h,
        ;
        assert(u2 >= h * v2) by (nonlinear_arith)
            requires
                x1 * v2 <= u2 * y1,
                x1 >= h * y1,
                y1 > 0,
        ;
        assert(x2 >= (2 * h) * y2) by (nonlinear_arith)
            requires
                x2 * v2 == u2 * y2 * z,
                u2 >= h * v2,
                z >= 2,
                v2 > 0,
        ;
        let t = 2 * h;
        assert(x2 / y2 >= t) by (nonlinear_arith)
            requires
                x2 >= t * y2,
                y2 > 0,
        ;
    }
}

/// Rounding keeps the order: the pattern of the smaller of two fractions is no larger.
pub proof fn law_rounds_ordered(
    n1: nat,
    d1: nat,
    n2: nat,
    d2: nat,
    p: nat,
    emin: int,
    emax: int,
    b1: int,
    b2: int,
)
    requires
        d1 > 0,
        d2 > 0,
        1 <= p <= emax,
        emin <= 0,
        n1 * d2 <= n2 * d1,
        rounds(n1, d1, p, emin, emax, b1),
        rounds(n2, d2, p, emin, emax, b2),
    ensures
        b1 <= b2,
{
    let m = two(emax as nat);
    lemma_pattern_bound(n1, d1, p, emin, emax, b1);
    lemma_pattern_bound(n2, d2, p, emin, emax, b2);
    lemma_two_adds(emax as nat, 0);
    assert(d2 * m > 0) by (nonlinear_arith)
        requires
            d2 > 0,
            m > 0,
    ;
    if n1 != 0 && n2 < d2 * m {
        assert(n1 < d1 * m && n2 != 0) by (nonlinear_arith)
            requires
                n1 * d2 <= n2 * d1,
                n2 < d2 * m,
                n1 > 0,
                d1 > 0,
                d2 > 0,
        ;
        let e1 = choose|e: int|
            #[trigger] fits(n1, d1, p, emin, e) && b1 == packed(n1, d1, p, emin, e);
        let e2 = choose|e: int|
            #[trigger] fits(n2, d2, p, emin, e) && b2 == packed(n2, d2, p, emin, e);
        lemma_unit_ordered(n1, d1, n2, d2, p, emin, e1, e2);
        let (x1, y1) = (over(n1, e1), under(d1, e1));
        let (x2, y2) = (over(n2, e2), under(d2, e2));
        if e1 == e2 {
            lemma_scaled_ordered(n1, d1, n2, d2, e1);
            lemma_half_even_ordered(x1, y1, x2, y2);
        } else {
            let h = two((p - 1) as nat) as int;
            lemma_two_adds((p - 1) as nat, 0);
            assert(two(p) == 2 * h);
            assert(half_even(x1, y1) <= 2 * h);
            assert(half_even(x2, y2) >= h);
            let (k1, k2) = (e1 - emin, e2 - emin);
            assert(k1 * h + 2 * h <= k2 * h + h) by (nonlinear_arith)
                requires
                    k1 + 1 <= k2,
                    h >= 1,
            ;
        }
    }
}

} // verus!
