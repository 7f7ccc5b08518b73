//! The shortest decimal text that reads back as a given double.

use vstd::prelude::*;
use vstd::string::*;

use crate::bignat;
use crate::bignat::value;
use crate::binary;
use crate::number;
use crate::number::{INFINITE, SIGN};
use crate::text;

verus! {

/// The numerator of `n / d` in units of `10^p`.
pub open spec fn over(n: nat, p: int) -> nat {
    if p < 0 {
        n * number::ten((-p) as nat)
    } else {
        n
    }
}

/// Its denominator.
pub open spec fn under(d: nat, p: int) -> nat {
    if p > 0 {
        d * number::ten(p as nat)
    } else {
        d
    }
}

/// The value of the pattern `b` in whole units of `10^p`, cut.
pub open spec fn cut(b: u64, p: int) -> nat {
    over(number::value_n(b), p) / under(number::value_d(b), p)
}

/// The rest behind the cut is half a unit or more.
pub open spec fn past_half(b: u64, p: int) -> bool {
    let y = under(number::value_d(b), p);
    2 * (over(number::value_n(b), p) % y) >= y
}

/// `d * 10^p` reads back as `b`.
pub open spec fn back(d: nat, p: int, b: u64) -> bool {
    number::near(d, p, 53, -1074, 1024, b as int)
}

/// A neighbour of `b` among the multiples of `10^p` reads back as `b`.
pub open spec fn found(b: u64, p: int) -> bool {
    back(cut(b, p), p, b) || back(cut(b, p) + 1, p, b)
}

/// The nearest of those neighbours.
pub open spec fn pick(b: u64, p: int) -> nat {
    if back(cut(b, p), p, b) && !(back(cut(b, p) + 1, p, b) && past_half(b, p)) {
        cut(b, p)
    } else {
        cut(b, p) + 1
    }
}

/// `10^t` is the smallest power of ten above `b`.
pub open spec fn tops(b: u64, t: int) -> bool {
    &&& over(number::value_n(b), t) < under(number::value_d(b), t)
    &&& over(number::value_n(b), t - 1) >= under(number::value_d(b), t - 1)
}

/// `d * 10^p` is the shortest decimal that reads back as `b`: of those with the fewest digits,
/// the nearest.
pub open spec fn shortest(b: u64, t: int, p: int, d: nat) -> bool {
    &&& tops(b, t)
    &&& p <= t
    &&& forall|q: int| p < q <= t ==> !#[trigger] found(b, q)
    &&& found(b, p)
    &&& d == pick(b, p)
}

proof fn lemma_positive(b: u64, p: int)
    requires
        b < INFINITE,
    ensures
        under(number::value_d(b), p) > 0,
{
    number::law_value_reads_back(b);
    if p > 0 {
        number::lemma_ten_adds(p as nat, 0);
        let d = number::value_d(b);
        let t = number::ten(p as nat);
        assert(d * t > 0) by (nonlinear_arith)
            requires
                d > 0,
                t > 0,
        ;
    }
}

/// Moving to the next smaller unit.
proof fn lemma_step(n: nat, d: nat, p: int)
    ensures
        p <= 0 ==> over(n, p - 1) == 10 * over(n, p) && under(d, p - 1) == under(d, p),
        p > 0 ==> over(n, p - 1) == over(n, p) && under(d, p) == 10 * under(d, p - 1),
{
    if p <= 0 {
        let t = number::ten((-p) as nat);
        assert(number::ten((-(p - 1)) as nat) == 10 * t);
        assert(n * (10 * t) == 10 * (n * t)) by (nonlinear_arith);
        assert(n * 1 == n) by (nonlinear_arith);
    } else {
        let t = number::ten((p - 1) as nat);
        assert(number::ten(p as nat) == 10 * t);
        assert(d * (10 * t) == 10 * (d * t)) by (nonlinear_arith);
        assert(d * 1 == d) by (nonlinear_arith);
    }
}

/// The top of a pattern is unique.
proof fn lemma_tops_order(b: u64, s: int, t: int)
    requires
        b < INFINITE,
        tops(b, s),
        tops(b, t),
    ensures
        s >= t,
{
    if s < t {
        lemma_above(b, s, t - 1);
    }
}

/// Above one power of ten, below all larger ones.
proof fn lemma_above(b: u64, s: int, t: int)
    requires
        b < INFINITE,
        s <= t,
        over(number::value_n(b), s) < under(number::value_d(b), s),
    ensures
        over(number::value_n(b), t) < under(number::value_d(b), t),
    decreases t - s,
{
    if s < t {
        lemma_above(b, s, t - 1);
        lemma_step(number::value_n(b), number::value_d(b), t);
    }
}

/// A double has one shortest decimal.
pub proof fn law_shortest_unique(b: u64, t1: int, p1: int, d1: nat, t2: int, p2: int, d2: nat)
    requires
        b < INFINITE,
        shortest(b, t1, p1, d1),
        shortest(b, t2, p2, d2),
    ensures
        t1 == t2,
        p1 == p2,
        d1 == d2,
{
    lemma_tops_order(b, t1, t2);
    lemma_tops_order(b, t2, t1);
    if p1 < p2 {
        assert(!found(b, p2));
    } else if p2 < p1 {
        assert(!found(b, p1));
    }
}

/// Multiples of ten are multiples of the next larger unit.
proof fn lemma_back_ten(d: nat, p: int, b: u64)
    requires
        back(10 * d, p, b),
    ensures
        back(d, p + 1, b),
{
    let n1 = number::numerator(10 * d, p);
    let d1 = number::denominator(p);
    let n2 = number::numerator(d, p + 1);
    let d2 = number::denominator(p + 1);
    number::lemma_ten_adds((-p) as nat, 0);
    number::lemma_ten_adds((-(p + 1)) as nat, 0);
    if p >= 0 {
        let t = number::ten(p as nat);
        assert(number::ten((p + 1) as nat) == 10 * t);
        assert((10 * d) * t == d * (10 * t)) by (nonlinear_arith);
        assert((10 * d) * 1 == 10 * d) by (nonlinear_arith);
        assert(n1 * 1 == n2 * 1);
    } else {
        let t = number::ten((-(p + 1)) as nat);
        assert(number::ten((-p) as nat) == 10 * t);
        assert((10 * d) * t == d * (10 * t)) by (nonlinear_arith);
        assert(d * 1 == d) by (nonlinear_arith);
        assert(n1 * d2 == n2 * d1);
    }
    binary::law_rounds_fraction(n1, d1, n2, d2, 53, -1074, 1024, b as int);
}

/// In units of `10^-1074` every double is whole, and so reads back.
proof fn lemma_found_at_last(b: u64)
    requires
        b < INFINITE,
    ensures
        found(b, -1074),
{
    let n = number::value_n(b);
    let d = number::value_d(b);
    number::law_value_reads_back(b);
    let e = number::exponent(b);
    let t = number::ten(1074);
    // the power of ten is a multiple of the denominator
    let k = if e < 0 {
        (-e) as nat
    } else {
        0
    };
    assert(d == binary::two(k));
    number::lemma_ten_split(1074);
    number::lemma_ten_adds(1074, 0);
    let f = number::five(1074);
    binary::lemma_two_adds(k, (1074 - k) as nat);
    let r = binary::two((1074 - k) as nat);
    assert(t == d * (r * f)) by (nonlinear_arith)
        requires
            t == binary::two(1074) * f,
            binary::two(1074) == d * r,
    ;
    let w = n * (r * f);
    assert(n * t == w * d) by (nonlinear_arith)
        requires
            t == d * (r * f),
            w == n * (r * f),
    ;
    vstd::arithmetic::div_mod::lemma_fundamental_div_mod_converse(
        (n * t) as int,
        d as int,
        w as int,
        0,
    );
    assert(cut(b, -1074) == w);
    binary::law_rounds_fraction(n, d, w, t, 53, -1074, 1024, b as int);
}

/// A decimal unit as exact numbers, to test whether a multiple reads back.
fn reads_back(d: &Vec<u32>, p: i64, b: u64) -> (r: bool)
    requires
        -1100 <= p <= 1100,
    ensures
        r == back(value(d@), p as int, b),
{
    let mut n: Vec<u32> = bignat::copied(d);
    let mut m: Vec<u32> = bignat::from_u64(1);
    let ghost dv = value(d@);
    if p > 0 {
        number::times_ten(&mut n, p as u128);
    } else {
        number::times_ten(&mut m, (-p) as u128);
        proof {
            let t = number::ten((-p) as nat);
            assert(1 * t == t) by (nonlinear_arith);
            number::lemma_ten_adds((-p) as nat, 0);
        }
    }
    let x: u64 = binary::round_ratio(&n, &m, 53, -1074, 1024);
    proof {
        if back(dv, p as int, b) {
            binary::law_rounds_unique(
                number::numerator(dv, p as int),
                number::denominator(p as int),
                53,
                -1074,
                1024,
                x as int,
                b as int,
            );
        }
    }
    x == b
}

/// The digits of the shortest decimal, without leading or trailing zeros, and the power of ten
/// of the last.
pub struct Short {
    pub digits: Vec<char>,
    pub exp: i64,
}

/// The state of the digit loop: `d0 / n0` is the value in units of `10^top`.
spec fn aligned(b: u64, n0: nat, d0: nat, p: int) -> bool {
    over(number::value_n(b), p) * d0 == n0 * under(number::value_d(b), p)
}

proof fn lemma_aligned_step(b: u64, n0: nat, d0: nat, p: int)
    requires
        aligned(b, n0, d0, p),
    ensures
        aligned(b, 10 * n0, d0, p - 1),
{
    let n = number::value_n(b);
    let d = number::value_d(b);
    lemma_step(n, d, p);
    let x = over(n, p);
    let y = under(d, p);
    let x2 = over(n, p - 1);
    let y2 = under(d, p - 1);
    if p <= 0 {
        assert(x2 * d0 == (10 * n0) * y2) by (nonlinear_arith)
            requires
                x2 == 10 * x,
                y2 == y,
                x * d0 == n0 * y,
        ;
    } else {
        assert(x2 * d0 == (10 * n0) * y2) by (nonlinear_arith)
            requires
                x2 == x,
                y == 10 * y2,
                x * d0 == n0 * y,
        ;
    }
}

/// Scales the value of `b` to `n0 / d0`, at least a tenth and below one, in units of `10^top`.
fn scale(b: u64) -> (r: (Vec<u32>, Vec<u32>, i64))
    requires
        0 < b < INFINITE,
    ensures
        aligned(b, value(r.0@), value(r.1@), r.2 as int),
        value(r.0@) < value(r.1@),
        tops(b, r.2 as int),
        -1074 < r.2 <= 1025,
{
    let ghost vn = number::value_n(b);
    let ghost vd = number::value_d(b);
    let (mut n, mut d): (Vec<u32>, Vec<u32>) = number::fraction(b);
    let mut t: i64 = 0;
    proof {
        number::law_value_reads_back(b);
        lemma_value_bounds(b);
    }
    if bignat::at_least(&n, &d) {
        let mut more: bool = true;
        while more
            invariant
                0 <= t <= 1024,
                0 < b < INFINITE,
                vn == number::value_n(b),
                vd == number::value_d(b),
                vd > 0,
                vn < number::ten(1024),
                value(n@) == vn,
                value(d@) == under(vd, t as int),
                more == (value(n@) >= value(d@)),
                t > 0 ==> vn >= under(vd, t - 1),
                t == 0 ==> more,
            decreases 1025 - t,
        {
            proof {
                lemma_step(vn, vd, t + 1);
                lemma_positive(b, t as int);
                if t == 1024 {
                    let q = number::ten(1024);
                    assert(vd * q >= q) by (nonlinear_arith)
                        requires
                            vd >= 1,
                    ;
                }
            }
            bignat::mul_add(&mut d, 10, 0);
            t = t + 1;
            more = bignat::at_least(&n, &d);
        }
        assert(aligned(b, value(n@), value(d@), t as int));
    } else {
        let mut ten_n: Vec<u32> = bignat::copied(&n);
        bignat::mul_add(&mut ten_n, 10, 0);
        let mut less: bool = !bignat::at_least(&ten_n, &d);
        assert(vn * 1 == vn) by (nonlinear_arith);
        while less
            invariant
                -1074 < t <= 0,
                0 < b < INFINITE,
                vn == number::value_n(b),
                vd == number::value_d(b),
                vn >= 1,
                vd <= number::ten(1074),
                value(n@) == over(vn, t as int),
                value(d@) == vd,
                value(ten_n@) == 10 * value(n@),
                value(n@) < value(d@),
                less == (value(ten_n@) < value(d@)),
            decreases 1074 + t,
        {
            proof {
                lemma_step(vn, vd, t as int);
                if t == -1073 {
                    let q = number::ten(1074);
                    assert(over(vn, -1074) == vn * q);
                    assert(vn * q >= q) by (nonlinear_arith)
                        requires
                            vn >= 1,
                    ;
                }
            }
            bignat::mul_add(&mut n, 10, 0);
            bignat::mul_add(&mut ten_n, 10, 0);
            t = t - 1;
            less = !bignat::at_least(&ten_n, &d);
        }
        proof {
            lemma_step(vn, vd, t as int);
        }
        assert(aligned(b, value(n@), value(d@), t as int));
    }
    (n, d, t)
}

proof fn lemma_value_bounds(b: u64)
    requires
        0 < b < INFINITE,
    ensures
        1 <= number::value_n(b) < number::ten(1024),
        1 <= number::value_d(b) <= number::ten(1074),
{
    number::law_value_reads_back(b);
    number::lemma_ten_two(1074);
    number::lemma_ten_two(1024);
    let e = number::exponent(b);
    let m = number::significand(b);
    binary::lemma_two_52();
    assert(binary::two(53) == 2 * binary::two(52));
    if e < 0 {
        binary::lemma_two_monotone((-e) as nat, 3 * 1074);
        binary::lemma_two_monotone(53, 3 * 1024);
    } else {
        number::lemma_ten_adds(1074, 0);
        binary::lemma_two_adds(53, e as nat);
        binary::lemma_two_monotone((53 + e) as nat, 3 * 1024);
        let z = binary::two(e as nat);
        binary::lemma_two_adds(e as nat, 0);
        assert(m * z < binary::two(53) * z) by (nonlinear_arith)
            requires
                m < binary::two(53),
                z > 0,
        ;
        if e == 0 {
            assert(m * 1 == m) by (nonlinear_arith);
        }
    }
}

/// The shortest decimal of a positive finite pattern: its digits as a number, and the power of
/// ten of the last.
pub open spec fn short_of(b: u64) -> (int, int, nat) {
    choose|x: (int, int, nat)| #[trigger] shortest(b, x.0, x.1, x.2)
}

proof fn lemma_short_of(b: u64, t: int, p: int, d: nat)
    requires
        b < INFINITE,
        shortest(b, t, p, d),
    ensures
        short_of(b) == (t, p, d),
{
    let w = (t, p, d);
    assert(shortest(b, w.0, w.1, w.2));
    let x = short_of(b);
    assert(shortest(b, x.0, x.1, x.2));
    law_shortest_unique(b, x.0, x.1, x.2, t, p, d);
}

/// What the digit loop knows of `m / d0`, the value in units of `10^p`, once cut to `lo`.
proof fn lemma_cut(b: u64, m: nat, d0: nat, p: int, lo: nat, rem: nat)
    requires
        b < INFINITE,
        aligned(b, m, d0, p),
        m == lo * d0 + rem,
        rem < d0,
    ensures
        cut(b, p) == lo,
        past_half(b, p) == (2 * rem >= d0),
{
    lemma_positive(b, p);
    vstd::arithmetic::div_mod::lemma_fundamental_div_mod_converse(
        m as int,
        d0 as int,
        lo as int,
        rem as int,
    );
    binary::lemma_same_fraction(
        over(number::value_n(b), p),
        under(number::value_d(b), p),
        m,
        d0,
    );
}

/// One decimal digit of a long division: `rem * 10 = r.0 * d0 + rem'`.
fn next_digit(rem: &mut Vec<u32>, d0: &Vec<u32>) -> (r: u32)
    requires
        value(old(rem)@) < value(d0@),
    ensures
        r <= 9,
        10 * value(old(rem)@) == r * value(d0@) + value(final(rem)@),
        value(final(rem)@) < value(d0@),
{
    let ghost r0 = value(rem@);
    let ghost dv = value(d0@);
    bignat::mul_add(rem, 10, 0);
    let mut g: u32 = 0;
    assert(0 * dv == 0) by (nonlinear_arith);
    while bignat::at_least(rem, d0)
        invariant
            g <= 9,
            dv == value(d0@),
            r0 < dv,
            10 * r0 == g * dv + value(rem@),
        decreases value(rem@),
    {
        proof {
            let gg = g as nat;
            assert((gg + 1) * dv == gg * dv + dv) by (nonlinear_arith);
            if g == 9 {
                assert(10 * dv == 9 * dv + dv);
            }
        }
        bignat::subtract(rem, d0);
        g += 1;
    }
    g
}

proof fn lemma_decimal_next(lo: nat, g: nat)
    requires
        g <= 9,
        lo > 0,
    ensures
        text::decimal(10 * lo + g) == text::decimal(lo).push(text::digit(g)),
{
    assert((10 * lo + g) / 10 == lo);
    assert((10 * lo + g) % 10 == g);
}

fn digit_char(g: u32) -> (r: char)
    requires
        g <= 9,
    ensures
        r == text::digit(g as nat),
{
    let d: u8 = 48 + g as u8;
    d as char
}

/// The shortest decimal of a positive finite pattern.
#[verifier::rlimit(40)]
fn short(b: u64) -> (r: Short)
    requires
        0 < b < INFINITE,
    ensures
        r.exp == short_of(b).1,
        -1074 <= r.exp <= 1025,
        r.digits@ == text::decimal(short_of(b).2),
        shortest(b, short_of(b).0, short_of(b).1, short_of(b).2),
{
    let (n0, d0, t): (Vec<u32>, Vec<u32>, i64) = scale(b);
    let ghost dv = value(d0@);
    let mut rem: Vec<u32> = n0;
    let mut lo: Vec<u32> = Vec::new();
    let mut digits: Vec<char> = Vec::new();
    let mut last: u32 = 0;
    let mut p: i64 = t;
    let ghost mut m = value(rem@);
    assert(0 * dv == 0) by (nonlinear_arith);
    loop
        invariant
            0 < b < INFINITE,
            -1074 <= p <= t <= 1025,
            dv == value(d0@),
            tops(b, t as int),
            aligned(b, m, dv, p as int),
            m == value(lo@) * dv + value(rem@),
            value(rem@) < dv,
            value(lo@) == 0 ==> digits@.len() == 0,
            value(lo@) > 0 ==> digits@ == text::decimal(value(lo@)),
            last <= 9,
            p == t ==> value(lo@) == 0 && last == 0,
            p < t ==> value(lo@) == 10 * cut(b, p + 1) + last,
            forall|q: int| p < q <= t ==> !#[trigger] found(b, q),
        decreases p + 1074,
    {
        let ghost lv = value(lo@);
        proof {
            lemma_cut(b, m, dv, p as int, lv, value(rem@));
        }
        let down: bool = reads_back(&lo, p, b);
        let mut next: Vec<u32> = bignat::copied(&lo);
        bignat::mul_add(&mut next, 1, 1);
        assert(lv * 1 == lv) by (nonlinear_arith);
        let up: bool = reads_back(&next, p, b);
        if down || up {
            let mut twice: Vec<u32> = bignat::copied(&rem);
            bignat::mul_add(&mut twice, 2, 0);
            let late: bool = bignat::at_least(&twice, &d0);
            assert(late == past_half(b, p as int));
            proof {
                assert(shortest(b, t as int, p as int, pick(b, p as int)));
                lemma_short_of(b, t as int, p as int, pick(b, p as int));
            }
            if down && !(up && late) {
                proof {
                    if lv == 0 {
                        assert(0 * number::ten(p as nat) == 0) by (nonlinear_arith);
                    }
                }
                return Short { digits, exp: p };
            }
            if digits.len() == 0 {
                assert(text::decimal(1) =~= seq![text::digit(1)]);
                let c: char = digit_char(1);
                digits.push(c);
                return Short { digits, exp: p };
            }
            proof {
                if last == 9 {
                    let k = cut(b, p + 1);
                    assert(lv + 1 == 10 * (k + 1));
                    lemma_back_ten(k + 1, p as int, b);
                    assert(found(b, p + 1));
                }
                assert((lv + 1) % 10 == last + 1 && (lv + 1) / 10 == lv / 10) by {
                    if p < t {
                        let k = cut(b, p + 1);
                        assert(lv == 10 * k + last);
                    }
                }
            }
            let at: usize = digits.len() - 1;
            let c: char = digit_char(last + 1);
            proof {
                if lv >= 10 {
                    assert(text::decimal(lv + 1) == text::decimal(lv / 10).push(
                        text::digit((last + 1) as nat),
                    ));
                    assert(text::decimal(lv) == text::decimal(lv / 10).push(
                        text::digit(lv % 10),
                    ));
                    assert(digits@.update(at as int, c) =~= text::decimal(lv + 1));
                } else {
                    assert(lv == last);
                    assert(text::decimal(lv) =~= seq![text::digit(lv)]);
                    assert(text::decimal(lv + 1) =~= seq![text::digit(lv + 1)]);
                    assert(digits@.update(at as int, c) =~= text::decimal(lv + 1));
                }
            }
            digits.set(at, c);
            return Short { digits, exp: p };
        }
        proof {
            if p == -1074 {
                lemma_found_at_last(b);
            }
        }
        let ghost r0 = value(rem@);
        let g: u32 = next_digit(&mut rem, &d0);
        bignat::mul_add(&mut lo, 10, g);
        if digits.len() > 0 || g > 0 {
            digits.push(digit_char(g));
        }
        proof {
            let r1 = value(rem@);
            let gg = g as nat;
            lemma_aligned_step(b, m, dv, p as int);
            assert(10 * m == (10 * lv + gg) * dv + r1) by (nonlinear_arith)
                requires
                    m == lv * dv + r0,
                    10 * r0 == gg * dv + r1,
            ;
            if lv > 0 {
                lemma_decimal_next(lv, gg);
            } else if g > 0 {
                assert(text::decimal(gg) =~= seq![text::digit(gg)]);
                assert(digits@ =~= seq![text::digit(gg)]);
            }
            m = 10 * m;
        }
        last = g;
        p = p - 1;
    }
}

// ---- the text -------------------------------------------------------------------------------

pub open spec fn zeros(n: nat) -> Seq<char> {
    Seq::new(n, |i: int| '0')
}

/// Digits with the point in its place: `t` times `10^p`, without an exponent.
pub open spec fn plain(t: Seq<char>, p: int) -> Seq<char> {
    if p >= 0 {
        t + zeros(p as nat)
    } else if t.len() > -p {
        t.take(t.len() + p) + seq!['.'] + t.skip(t.len() + p)
    } else {
        seq!['0', '.'] + zeros((-p - t.len()) as nat) + t
    }
}

/// The text of a double: the shortest that reads back, without an exponent; zero without its
/// sign, and `null` where the double is not finite.
pub open spec fn double_text(b: u64) -> Seq<char> {
    let neg = b >= SIGN;
    let m = if neg {
        (b - SIGN) as u64
    } else {
        b
    };
    if m >= INFINITE {
        "null"@
    } else if m == 0 {
        "0"@
    } else {
        let x = short_of(m);
        (if neg {
            seq!['-']
        } else {
            Seq::empty()
        }) + plain(text::decimal(x.2), x.1)
    }
}

fn push_zeros(out: &mut String, n: u64)
    ensures
        final(out)@ == old(out)@ + zeros(n as nat),
{
    let mut i: u64 = 0;
    assert(out@ + zeros(0) =~= out@);
    while i < n
        invariant
            i <= n,
            out@ == old(out)@ + zeros(i as nat),
        decreases n - i,
    {
        out.push('0');
        i += 1;
        assert(out@ =~= old(out)@ + zeros(i as nat));
    }
}

fn push_chars(out: &mut String, cs: &Vec<char>, from: usize, to: usize)
    requires
        from <= to <= cs@.len(),
    ensures
        final(out)@ == old(out)@ + cs@.subrange(from as int, to as int),
{
    let mut i: usize = from;
    assert(out@ + cs@.subrange(from as int, from as int) =~= out@);
    while i < to
        invariant
            from <= i <= to <= cs@.len(),
            out@ == old(out)@ + cs@.subrange(from as int, i as int),
        decreases to - i,
    {
        out.push(cs[i]);
        i += 1;
        assert(out@ =~= old(out)@ + cs@.subrange(from as int, i as int));
    }
}

/// Appends digits with the point in its place.
fn push_plain(out: &mut String, digits: &Vec<char>, p: i64)
    requires
        -1100 <= p <= 1100,
    ensures
        final(out)@ == old(out)@ + plain(digits@, p as int),
{
    let len: usize = digits.len();
    let ghost t = digits@;
    if p >= 0 {
        push_chars(out, digits, 0, len);
        push_zeros(out, p as u64);
        assert(t.subrange(0, len as int) =~= t);
    } else {
        let back: usize = (-p) as usize;
        if len > back {
            push_chars(out, digits, 0, len - back);
            out.push('.');
            push_chars(out, digits, len - back, len);
            assert(t.subrange(0, len - back) =~= t.take(t.len() + p));
            assert(t.subrange(len - back, len as int) =~= t.skip(t.len() + p));
        } else {
            out.push('0');
            out.push('.');
            push_zeros(out, (back - len) as u64);
            push_chars(out, digits, 0, len);
            assert(t.subrange(0, len as int) =~= t);
        }
    }
    assert(out@ =~= old(out)@ + plain(t, p as int));
}

/// Appends the text of a double.
pub fn push_double(out: &mut String, b: u64)
    ensures
        final(out)@ == old(out)@ + double_text(b),
{
    let neg: bool = b >= SIGN;
    let m: u64 = if neg {
        b - SIGN
    } else {
        b
    };
    if m >= INFINITE {
        out.append("null");
        return;
    }
    if m == 0 {
        out.append("0");
        return;
    }
    let s: Short = short(m);
    if neg {
        out.push('-');
    }
    let ghost sign = if neg {
        seq!['-']
    } else {
        Seq::<char>::empty()
    };
    assert(out@ =~= old(out)@ + sign);
    push_plain(out, &s.digits, s.exp);
    assert(out@ =~= old(out)@ + (sign + plain(s.digits@, s.exp as int)));
}

// ---- reading back ---------------------------------------------------------------------------

spec fn digits_only(s: Seq<char>) -> bool {
    forall|i: int| 0 <= i < s.len() ==> text::is_digit(#[trigger] s[i])
}

proof fn lemma_decimal_digits(n: nat)
    ensures
        digits_only(text::decimal(n)),
        text::decimal(n).len() >= 1,
        text::digits_value(text::decimal(n)) == n,
    decreases n,
{
    let t = text::decimal(n);
    if n < 10 {
        assert(t.drop_last() =~= Seq::<char>::empty());
        assert(text::digits_value(t.drop_last()) == 0);
    } else {
        lemma_decimal_digits(n / 10);
        assert(t.drop_last() =~= text::decimal(n / 10));
    }
}

/// A run of digits ends where something else follows.
proof fn lemma_run(t: Seq<char>, rest: Seq<char>)
    requires
        digits_only(t),
        rest.len() > 0 ==> !text::is_digit(rest[0]),
    ensures
        number::run(t + rest) == t.len(),
    decreases t.len(),
{
    let s = t + rest;
    if t.len() > 0 {
        assert(text::is_digit(t[0]));
        let u = t.skip(1);
        assert forall|i: int| 0 <= i < u.len() implies text::is_digit(#[trigger] u[i]) by {
            assert(u[i] == t[i + 1]);
        }
        lemma_run(u, rest);
        assert(s.skip(1) =~= u + rest);
    } else {
        assert(s =~= rest);
    }
}

proof fn lemma_value_zeros_behind(t: Seq<char>, k: nat)
    ensures
        text::digits_value(t + zeros(k)) == text::digits_value(t) * number::ten(k),
    decreases k,
{
    let v = text::digits_value(t);
    if k == 0 {
        assert(t + zeros(0) =~= t);
        assert(v * 1 == v) by (nonlinear_arith);
    } else {
        let s = t + zeros(k);
        assert(s.drop_last() =~= t + zeros((k - 1) as nat));
        assert(s.last() == '0');
        lemma_value_zeros_behind(t, (k - 1) as nat);
        let x = number::ten((k - 1) as nat);
        assert(10 * (v * x) == v * (10 * x)) by (nonlinear_arith);
    }
}

proof fn lemma_value_zeros_before(k: nat, t: Seq<char>)
    ensures
        text::digits_value(zeros(k) + t) == text::digits_value(t),
    decreases t.len(), k,
{
    let s = zeros(k) + t;
    if t.len() > 0 {
        assert(s.drop_last() =~= zeros(k) + t.drop_last());
        assert(s.last() == t.last());
        lemma_value_zeros_before(k, t.drop_last());
    } else if k > 0 {
        assert(s.drop_last() =~= zeros((k - 1) as nat) + t);
        assert(s.last() == '0');
        lemma_value_zeros_before((k - 1) as nat, t);
    } else {
        assert(s =~= t);
    }
}

spec fn sign_text(neg: bool) -> Seq<char> {
    if neg {
        seq!['-']
    } else {
        Seq::empty()
    }
}

/// What digits without a point denote.
proof fn lemma_whole_text(neg: bool, a: Seq<char>)
    requires
        digits_only(a),
        a.len() >= 1,
    ensures
        number::decimal_of(sign_text(neg) + a) == Some(
            number::DecimalV { neg, digits: a, exp: 0 },
        ),
{
    let s = sign_text(neg) + a;
    let none = Seq::<char>::empty();
    assert(text::is_digit(a[0]));
    if neg {
        assert(s.skip(1) =~= a);
    } else {
        assert(s =~= a);
    }
    assert(number::signed(s) == (neg, a));
    lemma_run(a, none);
    assert(a + none =~= a);
    assert(a.take(a.len() as int) =~= a);
    assert(a.skip(a.len() as int) =~= none);
}

/// What digits with a point denote.
proof fn lemma_point_text(neg: bool, a: Seq<char>, c: Seq<char>)
    requires
        digits_only(a),
        digits_only(c),
        a.len() >= 1,
    ensures
        number::decimal_of(sign_text(neg) + (a + seq!['.'] + c)) == Some(
            number::DecimalV { neg, digits: a + c, exp: -(c.len() as int) },
        ),
{
    let b = a + seq!['.'] + c;
    let s = sign_text(neg) + b;
    let none = Seq::<char>::empty();
    assert(text::is_digit(a[0]));
    assert(b[0] == a[0]);
    if neg {
        assert(s.skip(1) =~= b);
    } else {
        assert(s =~= b);
    }
    assert(number::signed(s) == (neg, b));
    let rest = seq!['.'] + c;
    assert(b =~= a + rest);
    lemma_run(a, rest);
    lemma_run(c, none);
    assert(c + none =~= c);
    let i = a.len() as int;
    let j = c.len() as int;
    assert(b.skip(i + 1) =~= c);
    assert(b.subrange(i + 1, i + 1 + j) =~= c);
    assert(b.take(i) =~= a);
    assert(b.skip(i + 1 + j) =~= none);
}

/// What digits with a point in its place denote.
proof fn lemma_plain(neg: bool, d: nat, p: int)
    ensures
        number::decimal_of(sign_text(neg) + plain(text::decimal(d), p)) matches Some(v) && v.neg
            == neg && if p >= 0 {
            v.exp == 0 && text::digits_value(v.digits) == d * number::ten(p as nat)
        } else {
            v.exp == p && text::digits_value(v.digits) == d
        },
{
    let t = text::decimal(d);
    lemma_decimal_digits(d);
    if p >= 0 {
        let z = t + zeros(p as nat);
        assert forall|i: int| 0 <= i < z.len() implies text::is_digit(#[trigger] z[i]) by {
            if i < t.len() {
                assert(text::is_digit(t[i]));
            }
        }
        lemma_whole_text(neg, z);
        lemma_value_zeros_behind(t, p as nat);
    } else if t.len() > -p {
        let a = t.take(t.len() + p);
        let c = t.skip(t.len() + p);
        assert forall|i: int| 0 <= i < a.len() implies text::is_digit(#[trigger] a[i]) by {
            assert(a[i] == t[i]);
        }
        assert forall|i: int| 0 <= i < c.len() implies text::is_digit(#[trigger] c[i]) by {
            assert(c[i] == t[t.len() + p + i]);
        }
        lemma_point_text(neg, a, c);
        assert(a + c =~= t);
    } else {
        let k = (-p - t.len()) as nat;
        let c = zeros(k) + t;
        let a = seq!['0'];
        assert forall|i: int| 0 <= i < c.len() implies text::is_digit(#[trigger] c[i]) by {
            if i >= k {
                assert(c[i] == t[i - k]);
            }
        }
        lemma_point_text(neg, a, c);
        assert(seq!['0', '.'] + zeros(k) + t =~= a + seq!['.'] + c);
        assert(a + c =~= zeros(k + 1) + t);
        lemma_value_zeros_before(k + 1, t);
    }
}

/// The text of a finite double reads back as that double; only negative zero loses its sign.
pub proof fn law_double_text_reads_back(b: u64)
    requires
        b < INFINITE || SIGN < b < SIGN + INFINITE,
    ensures
        number::decimal_of(double_text(b)) matches Some(v) && number::double_of(v) == b
            && number::reads(v, b),
{
    let neg = b >= SIGN;
    let m = if neg {
        (b - SIGN) as u64
    } else {
        b
    };
    if m == 0 {
        reveal_strlit("0");
        assert("0"@ =~= text::decimal(0) + zeros(0));
        lemma_plain(false, 0, 0);
        let t = text::decimal(0);
        assert(sign_text(false) + plain(t, 0) =~= "0"@);
        let v = number::decimal_of("0"@)->0;
        assert(0 * number::ten(0) == 0);
        assert(number::reads(v, b));
        number::lemma_double_of(v, b);
    } else {
        lemma_short_exists(m);
        let x = short_of(m);
        lemma_plain(neg, x.2, x.1);
        let v = number::decimal_of(double_text(b))->0;
        assert(back(x.2, x.1, m));
        assert(number::numerator(x.2, x.1) == if x.1 > 0 {
            x.2 * number::ten(x.1 as nat)
        } else {
            x.2
        });
        if x.1 == 0 {
            let d = x.2;
            assert(d * 1 == d) by (nonlinear_arith);
        }
        assert(number::near(text::digits_value(v.digits), v.exp, 53, -1074, 1024, m as int));
        assert(number::reads(v, b));
        number::lemma_double_of(v, b);
    }
}

proof fn lemma_top_exists(b: u64, k: nat)
    requires
        0 < b < INFINITE,
        over(number::value_n(b), k - 1074) < under(number::value_d(b), k - 1074),
    ensures
        exists|t: int| #[trigger] tops(b, t) && t >= -1074,
    decreases k,
{
    let n = number::value_n(b);
    let d = number::value_d(b);
    if k > 0 && over(n, k - 1075) < under(d, k - 1075) {
        lemma_top_exists(b, (k - 1) as nat);
    } else if k == 0 {
        lemma_value_bounds(b);
        let q = number::ten(1074);
        assert(n * q >= q) by (nonlinear_arith)
            requires
                n >= 1,
        ;
    } else {
        assert(tops(b, k - 1074));
    }
}

proof fn lemma_first_found(b: u64, t: int, k: nat)
    requires
        b < INFINITE,
        tops(b, t),
        t - k >= -1074,
        forall|q: int| t - k < q <= t ==> !#[trigger] found(b, q),
    ensures
        exists|x: (int, int, nat)| #[trigger] shortest(b, x.0, x.1, x.2),
    decreases t + 1074 - k,
{
    if found(b, t - k) {
        let w = (t, t - k, pick(b, t - k));
        assert(shortest(b, w.0, w.1, w.2));
    } else if t - k == -1074 {
        lemma_found_at_last(b);
    } else {
        lemma_first_found(b, t, k + 1);
    }
}

/// Every positive finite double has a shortest decimal.
proof fn lemma_short_exists(b: u64)
    requires
        0 < b < INFINITE,
    ensures
        ({
            let x = short_of(b);
            shortest(b, x.0, x.1, x.2)
        }),
{
    lemma_value_bounds(b);
    let n = number::value_n(b);
    let d = number::value_d(b);
    let q = number::ten(1024);
    assert(d * q >= q) by (nonlinear_arith)
        requires
            d >= 1,
    ;
    assert(over(n, 1024) < under(d, 1024));
    lemma_top_exists(b, (1024 + 1074) as nat);
    let t = choose|t: int| #[trigger] tops(b, t) && t >= -1074;
    lemma_first_found(b, t, 0);
}

/// The text of a finite double is made of digits, at most one point and at most one sign, which
/// comes first.
pub proof fn lemma_double_text_shape(b: u64)
    requires
        b < INFINITE || SIGN < b < SIGN + INFINITE,
    ensures
        double_text(b).len() > 0,
        double_text(b)[0] == '-' || text::is_digit(double_text(b)[0]),
        forall|i: int|
            0 <= i < double_text(b).len() ==> text::is_digit(#[trigger] double_text(b)[i])
                || double_text(b)[i] == '.' || double_text(b)[i] == '-',
{
    reveal_strlit("0");
    let neg = b >= SIGN;
    let m = if neg {
        (b - SIGN) as u64
    } else {
        b
    };
    if m != 0 {
        let x = short_of(m);
        let t = text::decimal(x.2);
        lemma_decimal_digits(x.2);
        assert(text::is_digit(t[0]));
        let s = plain(t, x.1);
        assert forall|i: int| 0 <= i < s.len() implies text::is_digit(#[trigger] s[i]) || s[i]
            == '.' by {
            if x.1 >= 0 {
                if i < t.len() {
                    assert(s[i] == t[i]);
                }
            } else if t.len() > -x.1 {
                let k = t.len() + x.1;
                if i < k {
                    assert(s[i] == t[i]);
                } else if i > k {
                    assert(s[i] == t[i - 1]);
                }
            } else {
                let k = 2 + (-x.1 - t.len());
                if i >= k {
                    assert(s[i] == t[i - k]);
                }
            }
        }
        let d = double_text(b);
        assert(d =~= sign_text(neg) + s);
        assert(text::is_digit(s[0]));
        assert forall|i: int| 0 <= i < d.len() implies text::is_digit(#[trigger] d[i]) || d[i]
            == '.' || d[i] == '-' by {
            if neg && i > 0 {
                assert(d[i] == s[i - 1]);
            } else if !neg {
                assert(d[i] == s[i]);
            }
        }
    }
}

} // verus!
