//! Decimal numbers and double-precision patterns: reading with correct rounding, and the
//! shortest text that reads back.

use vstd::prelude::*;
use vstd::slice::*;
use vstd::string::*;

use crate::bignat;
use crate::bignat::value;
use crate::binary;
use crate::text;

verus! {

/// Ten to the power `k`.
pub open spec fn ten(k: nat) -> nat
    decreases k,
{
    if k == 0 {
        1
    } else {
        10 * ten((k - 1) as nat)
    }
}

pub proof fn lemma_ten_adds(a: nat, b: nat)
    ensures
        ten(a + b) == ten(a) * ten(b),
        ten(a) >= 1,
    decreases a,
{
    if a > 0 {
        lemma_ten_adds((a - 1) as nat, b);
        let x = ten((a - 1) as nat);
        let y = ten(b);
        assert(10 * (x * y) == (10 * x) * y) by (nonlinear_arith);
        assert((a - 1) as nat + b == (a + b - 1) as nat);
    } else {
        assert(1 * ten(b) == ten(b)) by (nonlinear_arith);
    }
}

pub proof fn lemma_ten_monotone(a: nat, b: nat)
    requires
        a <= b,
    ensures
        1 <= ten(a) <= ten(b),
{
    lemma_ten_adds(a, (b - a) as nat);
    lemma_ten_adds((b - a) as nat, 0);
    let x = ten(a);
    let y = ten((b - a) as nat);
    assert(x * y >= x) by (nonlinear_arith)
        requires
            y >= 1,
    ;
}

/// Ten to a power is at least eight to it.
pub proof fn lemma_ten_two(k: nat)
    ensures
        ten(k) >= binary::two(3 * k),
    decreases k,
{
    if k > 0 {
        lemma_ten_two((k - 1) as nat);
        let j = (3 * (k - 1)) as nat;
        reveal_with_fuel(binary::two, 4);
        assert(binary::two(j + 3) == 8 * binary::two(j));
        assert(j + 3 == 3 * k);
    }
}

/// Five to the power `k`.
pub open spec fn five(k: nat) -> nat
    decreases k,
{
    if k == 0 {
        1
    } else {
        5 * five((k - 1) as nat)
    }
}

pub proof fn lemma_ten_split(k: nat)
    ensures
        ten(k) == binary::two(k) * five(k),
    decreases k,
{
    if k > 0 {
        lemma_ten_split((k - 1) as nat);
        let a = binary::two((k - 1) as nat);
        let b = five((k - 1) as nat);
        assert(10 * (a * b) == (2 * a) * (5 * b)) by (nonlinear_arith);
        assert(binary::two(k) == 2 * a && five(k) == 5 * b);
    } else {
        assert(binary::two(0) == 1 && five(0) == 1);
        assert(1nat * 1nat == 1nat) by (nonlinear_arith);
    }
}

/// A decimal number: a sign, digits, and the power of ten of the last digit.
pub struct DecimalV {
    pub neg: bool,
    pub digits: Seq<char>,
    pub exp: int,
}

/// The length of the run of digits at the front.
pub open spec fn run(s: Seq<char>) -> nat
    decreases s.len(),
{
    if s.len() > 0 && text::is_digit(s[0]) {
        1 + run(s.skip(1))
    } else {
        0
    }
}

/// The text behind an optional sign, and whether it is negative.
pub open spec fn signed(s: Seq<char>) -> (bool, Seq<char>) {
    if s.len() > 0 && s[0] == '-' {
        (true, s.skip(1))
    } else if s.len() > 0 && s[0] == '+' {
        (false, s.skip(1))
    } else {
        (false, s)
    }
}

/// The exponent behind the digits: none, or an `e`, an optional sign and digits.
pub open spec fn exponent_of(s: Seq<char>) -> Option<int> {
    if s.len() == 0 {
        Some(0)
    } else if s[0] != 'e' && s[0] != 'E' {
        None
    } else {
        let (neg, d) = signed(s.skip(1));
        if text::all_digits(d) {
            Some(
                if neg {
                    -(text::digits_value(d) as int)
                } else {
                    text::digits_value(d) as int
                },
            )
        } else {
            None
        }
    }
}

/// The number that a text denotes: an optional sign, digits with at most one point and at least
/// one digit, and an optional exponent.
pub open spec fn decimal_of(s: Seq<char>) -> Option<DecimalV> {
    let (neg, b) = signed(s);
    let i = run(b) as int;
    let point = i < b.len() && b[i] == '.';
    let f = if point {
        run(b.skip(i + 1)) as int
    } else {
        0
    };
    let end = if point {
        i + 1 + f
    } else {
        i
    };
    if i + f == 0 {
        None
    } else {
        match exponent_of(b.skip(end)) {
            Some(x) => Some(
                DecimalV {
                    neg,
                    digits: if point {
                        b.take(i) + b.subrange(i + 1, i + 1 + f)
                    } else {
                        b.take(i)
                    },
                    exp: x - f,
                },
            ),
            None => None,
        }
    }
}

/// The numerator of `n * 10^e`.
pub open spec fn numerator(n: nat, e: int) -> nat {
    if e > 0 {
        n * ten(e as nat)
    } else {
        n
    }
}

/// The denominator of a multiple of `10^e`.
pub open spec fn denominator(e: int) -> nat {
    if e < 0 {
        ten((-e) as nat)
    } else {
        1
    }
}

/// The magnitude pattern `m` of a format is `n * 10^e` rounded.
pub open spec fn near(n: nat, e: int, p: nat, emin: int, emax: int, m: int) -> bool {
    binary::rounds(numerator(n, e), denominator(e), p, emin, emax, m)
}

pub const SIGN: u64 = 0x8000_0000_0000_0000;

/// The pattern of an infinite double.
pub const INFINITE: u64 = 0x7FF0_0000_0000_0000;

/// `b` is the double that the decimal number rounds to.
pub open spec fn reads(v: DecimalV, b: u64) -> bool {
    &&& (b >= SIGN) == v.neg
    &&& near(
        text::digits_value(v.digits),
        v.exp,
        53,
        -1074,
        1024,
        if v.neg {
            b - SIGN
        } else {
            b as int
        },
    )
}

/// The double that a decimal number rounds to.
pub open spec fn double_of(v: DecimalV) -> u64 {
    choose|b: u64| reads(v, b)
}

proof fn lemma_reads_unique(v: DecimalV, a: u64, b: u64)
    requires
        reads(v, a),
        reads(v, b),
    ensures
        a == b,
{
    lemma_ten_adds((-v.exp) as nat, 0);
    let m1 = if v.neg {
        a - SIGN
    } else {
        a as int
    };
    let m2 = if v.neg {
        b - SIGN
    } else {
        b as int
    };
    let n = numerator(text::digits_value(v.digits), v.exp);
    binary::law_rounds_unique(n, denominator(v.exp), 53, -1074, 1024, m1, m2);
}

pub proof fn lemma_double_of(v: DecimalV, b: u64)
    requires
        reads(v, b),
    ensures
        double_of(v) == b,
{
    lemma_reads_unique(v, double_of(v), b);
}

// ---- digits of any length ---------------------------------------------------------------

fn run_of(cs: &[char], start: usize) -> (r: usize)
    requires
        start <= cs@.len(),
    ensures
        r == run(cs@.skip(start as int)),
        start + r <= cs@.len(),
        forall|i: int| start <= i < start + r ==> text::is_digit(#[trigger] cs@[i]),
{
    let n: usize = cs.len();
    let mut k: usize = start;
    while k < n && '0' <= cs[k] && cs[k] <= '9'
        invariant
            start <= k <= n,
            n == cs@.len(),
            run(cs@.skip(start as int)) == k - start + run(cs@.skip(k as int)),
            forall|i: int| start <= i < k ==> text::is_digit(#[trigger] cs@[i]),
        decreases n - k,
    {
        assert(cs@.skip(k as int).skip(1) =~= cs@.skip(k + 1));
        k += 1;
    }
    k - start
}

/// Adds the digits `cs[start..end]` behind those of `a`.
fn add_digits(a: &mut Vec<u32>, cs: &[char], start: usize, end: usize, Ghost(had): Ghost<Seq<char>>)
    requires
        start <= end <= cs@.len(),
        forall|i: int| start <= i < end ==> text::is_digit(#[trigger] cs@[i]),
        value(old(a)@) == text::digits_value(had),
    ensures
        value(final(a)@) == text::digits_value(had + cs@.subrange(start as int, end as int)),
{
    let mut k: usize = start;
    assert(had + cs@.subrange(start as int, start as int) =~= had);
    while k < end
        invariant
            start <= k <= end,
            end <= cs@.len(),
            forall|i: int| start <= i < end ==> text::is_digit(#[trigger] cs@[i]),
            value(a@) == text::digits_value(had + cs@.subrange(start as int, k as int)),
        decreases end - k,
    {
        assert(text::is_digit(cs@[k as int]));
        let d: u32 = cs[k] as u32 - 48;
        bignat::mul_add(a, 10, d);
        proof {
            let now = had + cs@.subrange(start as int, k + 1);
            assert(now.drop_last() =~= had + cs@.subrange(start as int, k as int));
            assert(now.last() == cs@[k as int]);
        }
        k += 1;
    }
}

/// The digits' number is below ten to their count, and at least ten to the count behind the
/// leading zeros.
proof fn lemma_digits_bound(s: Seq<char>, z: int)
    requires
        0 <= z <= s.len(),
        forall|i: int| 0 <= i < s.len() ==> text::is_digit(#[trigger] s[i]),
        forall|i: int| 0 <= i < z ==> s[i] == '0',
        z < s.len() ==> s[z] != '0',
    ensures
        text::digits_value(s) < ten((s.len() - z) as nat),
        z < s.len() ==> text::digits_value(s) >= ten((s.len() - z - 1) as nat),
    decreases s.len(),
{
    if s.len() > 0 {
        let d = s.drop_last();
        assert(text::is_digit(s[s.len() - 1]));
        if z == s.len() {
            lemma_digits_bound(d, z - 1);
            assert(s[s.len() - 1] == '0');
        } else {
            assert forall|i: int| 0 <= i < d.len() implies text::is_digit(#[trigger] d[i]) by {
                assert(d[i] == s[i]);
            }
            lemma_digits_bound(d, z);
        }
    }
}

/// Reads the digits of an exponent, up to a bound far beyond any that matters.
fn small_exponent(cs: &[char], start: usize) -> (r: i128)
    requires
        start <= cs@.len(),
        forall|i: int| start <= i < cs@.len() ==> text::is_digit(#[trigger] cs@[i]),
    ensures
        ({
            let v = text::digits_value(cs@.skip(start as int));
            r == v || r == 0x1_0000_0000_0000_0000_0000 && v >= r
        }),
        0 <= r <= 0x1_0000_0000_0000_0000_0000,
{
    let n: usize = cs.len();
    let mut v: i128 = 0;
    let mut k: usize = start;
    let ghost all = cs@.skip(start as int);
    assert(all.take(0) =~= Seq::<char>::empty());
    while k < n
        invariant
            start <= k <= n,
            n == cs@.len(),
            all == cs@.skip(start as int),
            forall|i: int| start <= i < cs@.len() ==> text::is_digit(#[trigger] cs@[i]),
            0 <= v <= 0x1_0000_0000_0000_0000_0000,
            v == text::digits_value(all.take(k - start)) || v == 0x1_0000_0000_0000_0000_0000
                && text::digits_value(all.take(k - start)) >= v,
        decreases n - k,
    {
        assert(text::is_digit(cs@[k as int]));
        let d: i128 = cs[k] as u32 as i128 - 48;
        let next: i128 = v * 10 + d;
        proof {
            let now = all.take(k - start + 1);
            assert(now.drop_last() =~= all.take(k - start));
            assert(now.last() == cs@[k as int]);
        }
        if next > 0x1_0000_0000_0000_0000_0000 {
            v = 0x1_0000_0000_0000_0000_0000;
        } else {
            v = next;
        }
        k += 1;
    }
    assert(all.take(k - start) =~= all);
    v
}

pub(crate) fn times_ten(a: &mut Vec<u32>, k: u128)
    ensures
        value(final(a)@) == value(old(a)@) * ten(k as nat),
{
    let mut i: u128 = 0;
    let ghost v = value(a@);
    assert(v * 1 == v) by (nonlinear_arith);
    while i < k
        invariant
            i <= k,
            value(a@) == v * ten(i as nat),
        decreases k - i,
    {
        let ghost t = ten(i as nat);
        assert(v * t * 10 == v * (10 * t)) by (nonlinear_arith);
        bignat::mul_add(a, 10, 0);
        i += 1;
    }
}

/// A number of at least `10^400` overflows every format.
proof fn lemma_huge(n: nat, e: int, len: int, emax: int)
    requires
        len >= 1,
        n >= ten((len - 1) as nat),
        len - 1 + e >= 400,
        0 <= emax <= 1024,
    ensures
        numerator(n, e) >= denominator(e) * binary::two(emax as nat),
        numerator(n, e) > 0,
{
    lemma_ten_two(400);
    binary::lemma_two_monotone(emax as nat, 1200);
    let m = binary::two(emax as nat);
    let a = ten((len - 1) as nat);
    lemma_ten_monotone(0, (len - 1) as nat);
    if e > 0 {
        lemma_ten_adds((len - 1) as nat, e as nat);
        lemma_ten_monotone(400, (len - 1 + e) as nat);
        assert((len - 1) as nat + e as nat == (len - 1 + e) as nat);
        let t = ten(e as nat);
        assert(n * t >= a * t) by (nonlinear_arith)
            requires
                n >= a,
        ;
        assert(1 * m == m) by (nonlinear_arith);
    } else {
        let k = (len - 1 + e) as nat;
        lemma_ten_adds(k, (-e) as nat);
        assert(k + (-e) as nat == (len - 1) as nat);
        lemma_ten_monotone(400, k);
        let d = ten((-e) as nat);
        let x = ten(k);
        assert(x * d >= d * m) by (nonlinear_arith)
            requires
                x >= m,
        ;
        if e == 0 {
            assert(1 * m == m) by (nonlinear_arith);
            assert(x * 1 == x) by (nonlinear_arith);
        }
    }
}

/// A number below `10^-400` rounds to zero in every format.
proof fn lemma_tiny(n: nat, e: int, len: int, p: nat, emin: int, emax: int)
    requires
        n < ten(len as nat),
        len >= 0,
        len + e <= -400,
        -1100 <= emin < 0,
        2 <= p,
        emax >= 0,
    ensures
        near(n, e, p, emin, emax, 0),
{
    if n > 0 {
        let k = (-(len + e)) as nat;
        lemma_ten_adds(len as nat, k);
        assert(len as nat + k == (-e) as nat);
        lemma_ten_two(400);
        lemma_ten_monotone(400, k);
        binary::lemma_two_monotone((-emin + 1) as nat, 1200);
        binary::lemma_two_monotone(0, (-emin) as nat);
        let l = ten(len as nat);
        let x = ten(k);
        let d = ten((-e) as nat);
        let z = binary::two((-emin) as nat);
        assert(binary::two((-emin + 1) as nat) == 2 * z);
        assert(2 * (n * z) < d) by (nonlinear_arith)
            requires
                n < l,
                d == l * x,
                x >= 2 * z,
                z >= 1,
        ;
        let q = (n * z) / d;
        assert(q == 0) by (nonlinear_arith)
            requires
                q == (n * z) / d,
                2 * (n * z) < d,
        ;
        assert((n * z) % d == n * z) by (nonlinear_arith)
            requires
                2 * (n * z) < d,
        ;
        binary::lemma_two_monotone(0, p);
        binary::lemma_two_monotone(0, (p - 1) as nat);
        assert(binary::fits(n, d, p, emin, emin));
        let h = binary::two((p - 1) as nat);
        assert(0 * h == 0) by (nonlinear_arith);
        assert(binary::packed(n, d, p, emin, emin) == 0);
        let m = binary::two(emax as nat);
        binary::lemma_two_monotone(0, emax as nat);
        assert(n < d * m) by (nonlinear_arith)
            requires
                2 * (n * z) < d,
                z >= 1,
                m >= 1,
        ;
    }
}

/// Digit `i` of `cs[a1..b1]` and `cs[a2..b2]` together.
fn nth(cs: &[char], a1: usize, b1: usize, a2: usize, b2: usize, i: usize) -> (r: char)
    requires
        a1 <= b1 <= a2 <= b2 <= cs@.len(),
        i < (b1 - a1) + (b2 - a2),
    ensures
        r == (cs@.subrange(a1 as int, b1 as int) + cs@.subrange(a2 as int, b2 as int))[i as int],
{
    if i < b1 - a1 {
        cs[a1 + i]
    } else {
        cs[a2 + (i - (b1 - a1))]
    }
}

/// The magnitude pattern of `digits * 10^exp` in a format, where the digits are those of
/// `cs[a1..b1]` and `cs[a2..b2]`.
fn round_decimal(
    cs: &[char],
    a1: usize,
    b1: usize,
    a2: usize,
    b2: usize,
    exp: i128,
    Ghost(true_exp): Ghost<int>,
    p: u32,
    emin: i64,
    emax: i64,
) -> (r: u64)
    requires
        a1 <= b1 <= a2 <= b2 <= cs@.len(),
        forall|i: int| a1 <= i < b1 ==> text::is_digit(#[trigger] cs@[i]),
        forall|i: int| a2 <= i < b2 ==> text::is_digit(#[trigger] cs@[i]),
        exp == true_exp || exp >= 0x8000_0000_0000_0000_0000 && true_exp >= exp || exp
            <= -0x8000_0000_0000_0000_0000 && true_exp <= exp,
        -0x2_0000_0000_0000_0000_0000 <= exp <= 0x2_0000_0000_0000_0000_0000,
        2 <= p <= 53,
        -1100 <= emin < 0,
        p <= emax <= 1024,
    ensures
        near(
            text::digits_value(
                cs@.subrange(a1 as int, b1 as int) + cs@.subrange(a2 as int, b2 as int),
            ),
            true_exp,
            p as nat,
            emin as int,
            emax as int,
            r as int,
        ),
{
    let ghost first = cs@.subrange(a1 as int, b1 as int);
    let ghost second = cs@.subrange(a2 as int, b2 as int);
    let ghost all = first + second;
    let ghost nv = text::digits_value(all);
    let total: usize = (b1 - a1) + (b2 - a2);
    let mut z: usize = 0;
    assert forall|i: int| 0 <= i < all.len() implies text::is_digit(#[trigger] all[i]) by {
        if i < first.len() {
            assert(all[i] == cs@[a1 + i]);
        } else {
            assert(all[i] == cs@[a2 + (i - first.len())]);
        }
    }
    while z < total && nth(cs, a1, b1, a2, b2, z) == '0'
        invariant
            z <= total,
            total == (b1 - a1) + (b2 - a2),
            a1 <= b1 <= a2 <= b2 <= cs@.len(),
            all == cs@.subrange(a1 as int, b1 as int) + cs@.subrange(a2 as int, b2 as int),
            forall|i: int| 0 <= i < z ==> all[i] == '0',
        decreases total - z,
    {
        z += 1;
    }
    assert(z < total ==> all[z as int] != '0');
    proof {
        lemma_digits_bound(all, z as int);
    }
    let mut n: Vec<u32> = Vec::new();
    if z == total {
        let one: Vec<u32> = bignat::from_u64(1);
        let r: u64 = binary::round_ratio(&n, &one, p, emin, emax);
        proof {
            assert(ten(0) == 1);
            assert(nv == 0);
            let t = ten(true_exp as nat);
            assert(0 * t == 0) by (nonlinear_arith);
        }
        return r;
    }
    let len: i128 = (total - z) as i128;
    if len + exp > 400 {
        let one: Vec<u32> = bignat::from_u64(1);
        let mut big: Vec<u32> = bignat::from_u64(1);
        times_ten(&mut big, 400);
        let r: u64 = binary::round_ratio(&big, &one, p, emin, emax);
        proof {
            assert(1 * ten(400) == ten(400)) by (nonlinear_arith);
            lemma_huge(ten(400), 0, 401, emax as int);
            lemma_huge(nv, true_exp, len as int, emax as int);
        }
        return r;
    }
    if len + exp < -400 {
        proof {
            lemma_tiny(nv, true_exp, len as int, p as nat, emin as int, emax as int);
        }
        return 0;
    }
    add_digits(&mut n, cs, a1, b1, Ghost(Seq::<char>::empty()));
    assert(Seq::<char>::empty() + first =~= first);
    add_digits(&mut n, cs, a2, b2, Ghost(first));
    let mut d: Vec<u32> = bignat::from_u64(1);
    if exp > 0 {
        times_ten(&mut n, exp as u128);
    } else {
        let k: u128 = (-exp) as u128;
        times_ten(&mut d, k);
        proof {
            let t = ten(k as nat);
            assert(1 * t == t) by (nonlinear_arith);
            lemma_ten_adds(k as nat, 0);
        }
    }
    binary::round_ratio(&n, &d, p, emin, emax)
}

/// The places of a number's parts in its text.
struct Parts {
    neg: bool,
    a1: usize,
    b1: usize,
    a2: usize,
    b2: usize,
    exp: i128,
}

/// Finds the parts of a number.
#[verifier::rlimit(40)]
fn parts_of(cs: &[char]) -> (r: Option<(Parts, Ghost<int>)>)
    ensures
        match r {
            Some((t, x)) => {
                &&& decimal_of(cs@) matches Some(v) && v.neg == t.neg && v.exp == x@ && v.digits
                    == cs@.subrange(t.a1 as int, t.b1 as int) + cs@.subrange(
                    t.a2 as int,
                    t.b2 as int,
                )
                &&& t.a1 <= t.b1 <= t.a2 <= t.b2 <= cs@.len()
                &&& forall|i: int| t.a1 <= i < t.b1 ==> text::is_digit(#[trigger] cs@[i])
                &&& forall|i: int| t.a2 <= i < t.b2 ==> text::is_digit(#[trigger] cs@[i])
                &&& t.exp == x@ || t.exp >= 0x8000_0000_0000_0000_0000 && x@ >= t.exp || t.exp
                    <= -0x8000_0000_0000_0000_0000 && x@ <= t.exp
                &&& -0x2_0000_0000_0000_0000_0000 <= t.exp <= 0x2_0000_0000_0000_0000_0000
            },
            None => decimal_of(cs@) is None,
        },
{
    let n: usize = cs.len();
    let mut a1: usize = 0;
    let mut neg: bool = false;
    if n > 0 && (cs[0] == '-' || cs[0] == '+') {
        neg = cs[0] == '-';
        a1 = 1;
    }
    let ghost b = signed(cs@).1;
    assert(b =~= cs@.skip(a1 as int));
    let i: usize = run_of(cs, a1);
    let b1: usize = a1 + i;
    let point: bool = b1 < n && cs[b1] == '.';
    let a2: usize = if point {
        b1 + 1
    } else {
        b1
    };
    let f: usize = if point {
        run_of(cs, a2)
    } else {
        0
    };
    assert(point ==> b.skip(i + 1) =~= cs@.skip(a2 as int));
    let b2: usize = a2 + f;
    if i == 0 && f == 0 {
        return None;
    }
    let ghost rest = cs@.skip(b2 as int);
    let ghost end = if point {
        i + 1 + f
    } else {
        i as int
    };
    assert(b.skip(end) =~= rest);
    assert(b.take(i as int) =~= cs@.subrange(a1 as int, b1 as int));
    assert(point ==> b.subrange(i + 1, i + 1 + f) =~= cs@.subrange(a2 as int, b2 as int));
    assert(!point ==> cs@.subrange(a1 as int, b1 as int) + cs@.subrange(a2 as int, b2 as int)
        =~= cs@.subrange(a1 as int, b1 as int));
    match exponent_at(cs, b2) {
        Some((v, x)) => {
            let exp: i128 = v - f as i128;
            let ghost true_exp = x@ - f;
            Some((Parts { neg, a1, b1, a2, b2, exp }, Ghost(true_exp)))
        },
        None => None,
    }
}

/// Reads the exponent from `at` on.
fn exponent_at(cs: &[char], at: usize) -> (r: Option<(i128, Ghost<int>)>)
    requires
        at <= cs@.len(),
    ensures
        match r {
            Some((v, x)) => {
                &&& exponent_of(cs@.skip(at as int)) == Some(x@)
                &&& v == x@ || v == 0x1_0000_0000_0000_0000_0000 && x@ >= v || v
                    == -0x1_0000_0000_0000_0000_0000 && x@ <= v
                &&& -0x1_0000_0000_0000_0000_0000 <= v <= 0x1_0000_0000_0000_0000_0000
            },
            None => exponent_of(cs@.skip(at as int)) is None,
        },
{
    let n: usize = cs.len();
    let ghost rest = cs@.skip(at as int);
    if at == n {
        return Some((0, Ghost(0)));
    }
    if cs[at] != 'e' && cs[at] != 'E' {
        return None;
    }
    let mut start: usize = at + 1;
    let mut minus: bool = false;
    if start < n && (cs[start] == '-' || cs[start] == '+') {
        minus = cs[start] == '-';
        start += 1;
    }
    let ghost d = signed(rest.skip(1)).1;
    assert(rest.skip(1) =~= cs@.skip(at + 1));
    assert(d =~= cs@.skip(start as int));
    let m: usize = run_of(cs, start);
    if start == n || m < n - start {
        proof {
            if text::all_digits(d) {
                lemma_run_all(d);
            }
        }
        return None;
    }
    assert forall|k: int| 0 <= k < d.len() implies text::is_digit(#[trigger] d[k]) by {
        assert(d[k] == cs@[start + k]);
    }
    let v: i128 = small_exponent(cs, start);
    let ghost true_v = text::digits_value(d) as int;
    if minus {
        Some((-v, Ghost(-true_v)))
    } else {
        Some((v, Ghost(true_v)))
    }
}

proof fn lemma_run_all(s: Seq<char>)
    requires
        forall|i: int| 0 <= i < s.len() ==> text::is_digit(#[trigger] s[i]),
    ensures
        run(s) == s.len(),
    decreases s.len(),
{
    if s.len() > 0 {
        assert(text::is_digit(s[0]));
        let t = s.skip(1);
        assert forall|i: int| 0 <= i < t.len() implies text::is_digit(#[trigger] t[i]) by {
            assert(t[i] == s[i + 1]);
        }
        lemma_run_all(t);
    }
}

/// Reads a decimal number as a double, rounded to nearest.
pub fn read_double(cs: &[char]) -> (r: Option<u64>)
    ensures
        match decimal_of(cs@) {
            Some(v) => r == Some(double_of(v)) && reads(v, double_of(v)),
            None => r is None,
        },
{
    let (t, x): (Parts, Ghost<int>) = match parts_of(cs) {
        Some(p) => p,
        None => {
            return None;
        },
    };
    let m: u64 = round_decimal(cs, t.a1, t.b1, t.a2, t.b2, t.exp, x, 53, -1074, 1024);
    let ghost v = decimal_of(cs@)->0;
    proof {
        lemma_ten_adds((-v.exp) as nat, 0);
        binary::lemma_pattern_bound(
            numerator(text::digits_value(v.digits), v.exp),
            denominator(v.exp),
            53,
            -1074,
            1024,
            m as int,
        );
        lemma_double_infinity();
    }
    let b: u64 = if t.neg {
        m + SIGN
    } else {
        m
    };
    proof {
        assert(reads(v, b));
        lemma_double_of(v, b);
    }
    Some(b)
}

proof fn lemma_double_infinity()
    ensures
        binary::infinity(53, -1074, 1024) == INFINITE,
        binary::infinity(24, -149, 128) == 0x7F80_0000,
{
    binary::lemma_two_52();
    assert((53 - 1) as nat == 52 && (24 - 1) as nat == 23);
    assert(binary::two(23) == 0x80_0000) by {
        reveal_with_fuel(binary::two, 24);
    }
}

// ---- the value of a pattern ---------------------------------------------------------------

/// The significand of a finite magnitude pattern.
pub open spec fn significand(b: u64) -> nat {
    if b < 0x10_0000_0000_0000 {
        b as nat
    } else {
        (b as nat) % 0x10_0000_0000_0000 + 0x10_0000_0000_0000
    }
}

/// The exponent of its last bit.
pub open spec fn exponent(b: u64) -> int {
    if b < 0x10_0000_0000_0000 {
        -1074
    } else {
        (b as int) / 0x10_0000_0000_0000 - 1075
    }
}

/// The numerator of the value of a finite magnitude pattern.
pub open spec fn value_n(b: u64) -> nat {
    if exponent(b) > 0 {
        significand(b) * binary::two(exponent(b) as nat)
    } else {
        significand(b)
    }
}

/// Its denominator.
pub open spec fn value_d(b: u64) -> nat {
    if exponent(b) < 0 {
        binary::two((-exponent(b)) as nat)
    } else {
        1
    }
}

/// The value of a pattern rounds to the pattern.
pub proof fn law_value_reads_back(b: u64)
    requires
        b < INFINITE,
    ensures
        binary::rounds(value_n(b), value_d(b), 53, -1074, 1024, b as int),
        value_d(b) > 0,
        (value_n(b) == 0) == (b == 0),
{
    let m = significand(b);
    let e = exponent(b);
    let n = value_n(b);
    let d = value_d(b);
    binary::lemma_two_52();
    assert((53 - 1) as nat == 52);
    assert(binary::two(53) == 2 * binary::two(52));
    binary::lemma_two_adds((-e) as nat, 0);
    binary::lemma_two_adds(e as nat, 0);
    if b == 0 {
    } else {
        let x = binary::over(n, e);
        let y = binary::under(d, e);
        if e < 0 {
            let z = binary::two((-e) as nat);
            assert(x == m * z && y == z);
            vstd::arithmetic::div_mod::lemma_fundamental_div_mod_converse(
                x as int,
                y as int,
                m as int,
                0,
            );
        } else {
            let z = binary::two(e as nat);
            assert(m * 1 == m && 1 * z == z) by (nonlinear_arith);
            assert(x == m * z && y == z);
            vstd::arithmetic::div_mod::lemma_fundamental_div_mod_converse(
                x as int,
                y as int,
                m as int,
                0,
            );
        }
        assert(x / y == m && x % y == 0);
        assert(binary::fits(n, d, 53, -1074, e));
        assert(binary::packed(n, d, 53, -1074, e) == b);
        assert(y > 0);
        assert(x < y * binary::two(53)) by (nonlinear_arith)
            requires
                x == m * y,
                m < binary::two(53),
                y > 0,
        ;
        binary::lemma_below_max(n, d, 53, e, 1024);
        if e > 0 {
            let z = binary::two(e as nat);
            assert(m * z > 0) by (nonlinear_arith)
                requires
                    m > 0,
                    z > 0,
            ;
        }
    }
}

/// The significand and exponent of a finite magnitude pattern.
fn split(b: u64) -> (r: (u64, i64))
    requires
        b < INFINITE,
    ensures
        r.0 == significand(b),
        r.1 == exponent(b),
        -1074 <= r.1 <= 971,
{
    if b < 0x10_0000_0000_0000 {
        (b, -1074)
    } else {
        (b % 0x10_0000_0000_0000 + 0x10_0000_0000_0000, (b / 0x10_0000_0000_0000) as i64 - 1075)
    }
}

pub(crate) fn times_two(a: &mut Vec<u32>, k: u64)
    ensures
        value(final(a)@) == value(old(a)@) * binary::two(k as nat),
{
    let mut i: u64 = 0;
    let ghost v = value(a@);
    assert(v * 1 == v) by (nonlinear_arith);
    while k - i >= 16
        invariant
            i <= k,
            value(a@) == v * binary::two(i as nat),
        decreases k - i,
    {
        let ghost t = binary::two(i as nat);
        proof {
            binary::lemma_two_adds(i as nat, 16);
            assert(binary::two(16) == 0x1_0000) by {
                reveal_with_fuel(binary::two, 17);
            }
            assert(v * t * 0x1_0000 == v * (t * 0x1_0000)) by (nonlinear_arith);
        }
        bignat::mul_add(a, 0x1_0000, 0);
        i += 16;
    }
    while i < k
        invariant
            i <= k,
            value(a@) == v * binary::two(i as nat),
        decreases k - i,
    {
        let ghost t = binary::two(i as nat);
        assert(v * t * 2 == v * (2 * t)) by (nonlinear_arith);
        bignat::mul_add(a, 2, 0);
        i += 1;
    }
}

/// The value of a finite magnitude pattern as a fraction.
pub(crate) fn fraction(b: u64) -> (r: (Vec<u32>, Vec<u32>))
    requires
        b < INFINITE,
    ensures
        value(r.0@) == value_n(b),
        value(r.1@) == value_d(b),
        value_d(b) > 0,
{
    let (m, e): (u64, i64) = split(b);
    let mut n: Vec<u32> = bignat::from_u64(m);
    let mut d: Vec<u32> = bignat::from_u64(1);
    if e > 0 {
        times_two(&mut n, e as u64);
    } else {
        let k: u64 = (-e) as u64;
        times_two(&mut d, k);
        proof {
            let t = binary::two(k as nat);
            assert(1 * t == t) by (nonlinear_arith);
            binary::lemma_two_adds(k as nat, 0);
        }
    }
    (n, d)
}

/// The pattern of a not-a-number single.
pub const NAN_SINGLE: u32 = 0x7FC0_0000;

/// `r` is the single that a decimal number rounds to.
pub open spec fn reads_single(v: DecimalV, r: u32) -> bool {
    &&& (r >= 0x8000_0000) == v.neg
    &&& near(
        text::digits_value(v.digits),
        v.exp,
        24,
        -149,
        128,
        if v.neg {
            r - 0x8000_0000
        } else {
            r as int
        },
    )
}

/// The magnitude that a word denotes, if it is one.
pub open spec fn word_of(b: Seq<char>) -> Option<u32> {
    if text::same_but_case(b, "inf"@) || text::same_but_case(b, "infinity"@) {
        Some(0x7F80_0000)
    } else if text::same_but_case(b, "nan"@) {
        Some(NAN_SINGLE)
    } else {
        None
    }
}

/// Text denotes the single `r`, or none: a decimal number, or a word with an optional sign.
pub open spec fn single_reads(s: Seq<char>, r: Option<u32>) -> bool {
    let (neg, b) = signed(s);
    match word_of(b) {
        Some(m) => r == Some(
            if neg {
                (m + 0x8000_0000) as u32
            } else {
                m
            },
        ),
        None => match decimal_of(s) {
            Some(v) => r matches Some(x) && reads_single(v, x),
            None => r is None,
        },
    }
}

/// The single that a text denotes, if it denotes one.
pub open spec fn single_in(s: Seq<char>) -> Option<u32> {
    choose|r: Option<u32>| single_reads(s, r)
}

/// A text denotes no more than one single.
pub proof fn law_single_unique(s: Seq<char>, a: Option<u32>, b: Option<u32>)
    requires
        single_reads(s, a),
        single_reads(s, b),
    ensures
        a == b,
        single_in(s) == a,
{
    lemma_single_same(s, a, b);
    lemma_single_same(s, single_in(s), a);
}

proof fn lemma_single_same(s: Seq<char>, a: Option<u32>, b: Option<u32>)
    requires
        single_reads(s, a),
        single_reads(s, b),
    ensures
        a == b,
{
    let (neg, rest) = signed(s);
    if word_of(rest) is None && decimal_of(s) is Some {
        let v = decimal_of(s)->0;
        lemma_ten_adds((-v.exp) as nat, 0);
        let m1 = if v.neg {
            a->0 - 0x8000_0000
        } else {
            a->0 as int
        };
        let m2 = if v.neg {
            b->0 - 0x8000_0000
        } else {
            b->0 as int
        };
        let n = numerator(text::digits_value(v.digits), v.exp);
        binary::law_rounds_unique(n, denominator(v.exp), 24, -149, 128, m1, m2);
    }
}

/// Reads a text as a single.
pub fn read_single(s: &str) -> (r: Option<u32>)
    ensures
        single_reads(s@, r),
{
    let cs: Vec<char> = text::chars_of(s);
    let n: usize = cs.len();
    let neg: bool = n > 0 && cs[0] == '-';
    let start: usize = if n > 0 && (cs[0] == '-' || cs[0] == '+') {
        1
    } else {
        0
    };
    let b: String = text::string_of(vstd::slice::slice_subrange(cs.as_slice(), start, n));
    assert(b@ =~= signed(s@).1);
    let w: &str = b.as_str();
    let sign: u32 = if neg {
        0x8000_0000
    } else {
        0
    };
    if text::eq_ignore_ascii_case(w, "inf") || text::eq_ignore_ascii_case(w, "infinity") {
        return Some(0x7F80_0000 + sign);
    }
    if text::eq_ignore_ascii_case(w, "nan") {
        return Some(NAN_SINGLE + sign);
    }
    let (t, x): (Parts, Ghost<int>) = match parts_of(cs.as_slice()) {
        Some(p) => p,
        None => {
            return None;
        },
    };
    let m: u64 = round_decimal(cs.as_slice(), t.a1, t.b1, t.a2, t.b2, t.exp, x, 24, -149, 128);
    let ghost v = decimal_of(cs@)->0;
    proof {
        lemma_ten_adds((-v.exp) as nat, 0);
        binary::lemma_pattern_bound(
            numerator(text::digits_value(v.digits), v.exp),
            denominator(v.exp),
            24,
            -149,
            128,
            m as int,
        );
        lemma_double_infinity();
    }
    let r: u32 = if t.neg {
        m as u32 + 0x8000_0000
    } else {
        m as u32
    };
    assert(reads_single(v, r));
    Some(r)
}

/// `r` is the double `b` rounded to a single; a double that is not a number keeps being none.
pub open spec fn narrows(b: u64, r: u32) -> bool {
    let neg = b >= SIGN;
    let m = if neg {
        (b - SIGN) as u64
    } else {
        b
    };
    &&& (r >= 0x8000_0000) == neg
    &&& ({
        let k = if neg {
            r - 0x8000_0000
        } else {
            r as int
        };
        if m > INFINITE {
            k == NAN_SINGLE
        } else if m == INFINITE {
            k == 0x7F80_0000
        } else {
            binary::rounds(value_n(m), value_d(m), 24, -149, 128, k)
        }
    })
}

/// Rounds a double to a single.
pub fn narrow(b: u64) -> (r: u32)
    ensures
        narrows(b, r),
{
    let neg: bool = b >= SIGN;
    let m: u64 = if neg {
        b - SIGN
    } else {
        b
    };
    let k: u32 = if m > INFINITE {
        NAN_SINGLE
    } else if m == INFINITE {
        0x7F80_0000
    } else {
        let (n, d) = fraction(m);
        let x: u64 = binary::round_ratio(&n, &d, 24, -149, 128);
        proof {
            binary::lemma_pattern_bound(value_n(m), value_d(m), 24, -149, 128, x as int);
            lemma_double_infinity();
        }
        x as u32
    };
    if neg {
        k + 0x8000_0000
    } else {
        k
    }
}

/// The double cut to an integer, and held within 64 bits; zero if it is not a number.
pub open spec fn truncated(b: u64) -> int {
    let neg = b >= SIGN;
    let m = if neg {
        (b - SIGN) as u64
    } else {
        b
    };
    if m > INFINITE {
        0
    } else if m == INFINITE {
        if neg {
            i64::MIN as int
        } else {
            i64::MAX as int
        }
    } else {
        let q = (value_n(m) / value_d(m)) as int;
        if neg {
            if q >= 0x8000_0000_0000_0000 {
                i64::MIN as int
            } else {
                -q
            }
        } else if q > i64::MAX {
            i64::MAX as int
        } else {
            q
        }
    }
}

/// The integer part of a finite magnitude pattern, at most `2^63`.
fn whole(m: u64) -> (r: u64)
    requires
        m < INFINITE,
    ensures
        r == if value_n(m) / value_d(m) >= 0x8000_0000_0000_0000 {
            0x8000_0000_0000_0000
        } else {
            value_n(m) / value_d(m)
        },
{
    let (g, e): (u64, i64) = split(m);
    let ghost gn = g as nat;
    if e >= 0 {
        if e >= 12 {
            proof {
                binary::lemma_two_monotone(12, e as nat);
                let z = binary::two(e as nat);
                assert(binary::two(12) == 4096) by {
                    reveal_with_fuel(binary::two, 13);
                }
                assert(gn >= 0x10_0000_0000_0000);
                assert(gn * z >= 0x8000_0000_0000_0000) by (nonlinear_arith)
                    requires
                        gn >= 0x10_0000_0000_0000,
                        z >= 4096,
                ;
                let v = value_n(m);
                assert(v / 1 == v) by (nonlinear_arith);
            }
            return 0x8000_0000_0000_0000;
        }
        let mut r: u64 = g;
        let mut i: i64 = 0;
        assert(gn * 1 == gn) by (nonlinear_arith);
        proof {
            assert(binary::two(11) == 2048) by {
                reveal_with_fuel(binary::two, 12);
            }
        }
        while i < e
            invariant
                0 <= i <= e < 12,
                gn < 0x20_0000_0000_0000,
                r == gn * binary::two(i as nat),
                binary::two(11) == 2048,
            decreases e - i,
        {
            let ghost t = binary::two(i as nat);
            proof {
                binary::lemma_two_monotone(i as nat, 10);
                assert(binary::two(11) == 2 * binary::two(10));
                assert(gn * t * 2 == gn * (2 * t)) by (nonlinear_arith);
                assert(gn * t < 0x20_0000_0000_0000 * 1024) by (nonlinear_arith)
                    requires
                        gn < 0x20_0000_0000_0000,
                        1 <= t <= 1024,
                ;
            }
            r = r * 2;
            i += 1;
        }
        proof {
            let v = value_n(m);
            assert(v / 1 == v) by (nonlinear_arith);
            let t = binary::two(e as nat);
            binary::lemma_two_monotone(e as nat, 11);
            assert(gn * t < 0x20_0000_0000_0000 * 2048) by (nonlinear_arith)
                requires
                    gn < 0x20_0000_0000_0000,
                    1 <= t <= 2048,
            ;
            if e == 0 {
                assert(binary::two(0) == 1);
            }
        }
        if r >= 0x8000_0000_0000_0000 {
            0x8000_0000_0000_0000
        } else {
            r
        }
    } else {
        let mut r: u64 = g;
        let mut i: i64 = 0;
        assert(gn / 1 == gn) by (nonlinear_arith);
        while i < -e
            invariant
                0 <= i <= -e <= 1074,
                r == gn / binary::two(i as nat),
            decreases -e - i,
        {
            let ghost t = binary::two(i as nat);
            proof {
                binary::lemma_two_adds(i as nat, 0);
                vstd::arithmetic::div_mod::lemma_div_denominator(gn as int, t as int, 2);
                assert(t * 2 == 2 * t) by (nonlinear_arith);
            }
            r = r / 2;
            i += 1;
        }
        proof {
            let t = binary::two((-e) as nat);
            binary::lemma_two_adds((-e) as nat, 0);
            assert(gn / t <= gn) by (nonlinear_arith)
                requires
                    t >= 1,
            ;
        }
        r
    }
}

/// Cuts a double to an integer, held within 64 bits.
pub fn truncate(b: u64) -> (r: i64)
    ensures
        r == truncated(b),
{
    let neg: bool = b >= SIGN;
    let m: u64 = if neg {
        b - SIGN
    } else {
        b
    };
    if m > INFINITE {
        return 0;
    }
    let q: u64 = if m == INFINITE {
        0x8000_0000_0000_0000
    } else {
        whole(m)
    };
    if q >= 0x8000_0000_0000_0000 {
        if neg {
            i64::MIN
        } else {
            i64::MAX
        }
    } else if neg {
        -(q as i64)
    } else {
        q as i64
    }
}

} // verus!
