//! Natural numbers of any size, as little-endian digits of 32 bits.

use vstd::prelude::*;

verus! {

pub open spec fn base() -> nat {
    0x1_0000_0000
}

/// The weight of digit `k`.
pub open spec fn weight(k: nat) -> nat
    decreases k,
{
    if k == 0 {
        1
    } else {
        weight((k - 1) as nat) * base()
    }
}

/// The number that digits stand for.
pub open spec fn value(s: Seq<u32>) -> nat
    decreases s.len(),
{
    if s.len() == 0 {
        0
    } else {
        value(s.drop_last()) + s.last() as nat * weight((s.len() - 1) as nat)
    }
}

proof fn lemma_take(s: Seq<u32>, i: int)
    requires
        0 <= i < s.len(),
    ensures
        value(s.take(i + 1)) == value(s.take(i)) + s[i] as nat * weight(i as nat),
        weight((i + 1) as nat) == weight(i as nat) * base(),
{
    assert(s.take(i + 1).drop_last() =~= s.take(i));
}

proof fn lemma_push(s: Seq<u32>, d: u32)
    ensures
        value(s.push(d)) == value(s) + d as nat * weight(s.len()),
{
    assert(s.push(d).drop_last() =~= s);
}

proof fn lemma_bound(s: Seq<u32>)
    ensures
        value(s) < weight(s.len()),
        weight(s.len()) >= 1,
    decreases s.len(),
{
    if s.len() > 0 {
        let w = weight((s.len() - 1) as nat);
        lemma_bound(s.drop_last());
        let d = s.last() as nat;
        assert(d * w + w <= w * base()) by (nonlinear_arith)
            requires
                d + 1 <= base(),
        ;
        assert(w * base() >= 1) by (nonlinear_arith)
            requires
                w >= 1,
                base() >= 1,
        ;
    }
}

/// Replaces `a` by `a * m + c`.
pub fn mul_add(a: &mut Vec<u32>, m: u32, c: u32)
    ensures
        value(final(a)@) == value(old(a)@) * m + c,
        final(a)@.len() <= old(a)@.len() + 1,
{
    let n: usize = a.len();
    let mut carry: u64 = c as u64;
    let mut i: usize = 0;
    assert(a@.take(0) =~= Seq::<u32>::empty());
    assert(0 * m == 0 && carry * 1 == carry) by (nonlinear_arith);
    assert(weight(0) == 1);
    while i < n
        invariant
            i <= n,
            n == a@.len(),
            n == old(a)@.len(),
            carry < 0x1_0000_0000,
            forall|k: int| i <= k < n ==> a@[k] == old(a)@[k],
            value(a@.take(i as int)) + carry as nat * weight(i as nat) == value(
                old(a)@.take(i as int),
            ) * m + c,
        decreases n - i,
    {
        let x: u64 = a[i] as u64;
        assert(x * m as u64 + carry <= 0xffff_ffff * 0xffff_ffff + 0xffff_ffff) by (nonlinear_arith)
            requires
                x <= 0xffff_ffff,
                m <= 0xffff_ffff,
                carry <= 0xffff_ffff,
        ;
        let t: u64 = x * m as u64 + carry;
        let low: u32 = (t % 0x1_0000_0000) as u32;
        let next: u64 = t / 0x1_0000_0000;
        assert(next < 0x1_0000_0000) by (nonlinear_arith)
            requires
                next == t / 0x1_0000_0000,
                t <= 0xffff_ffff * 0xffff_ffff + 0xffff_ffff,
        ;
        let ghost before = a@;
        a.set(i, low);
        proof {
            let w = weight(i as nat);
            let ov = value(old(a)@.take(i as int));
            let nv = value(before.take(i as int));
            lemma_take(old(a)@, i as int);
            lemma_take(a@, i as int);
            assert(a@.take(i as int) =~= before.take(i as int));
            assert(low + next * base() == x * m + carry);
            let lo = low as nat;
            let ne = next as nat;
            let xx = x as nat;
            let cc = carry as nat;
            let mm = m as nat;
            assert(nv + lo * w + ne * (w * base()) == (ov + xx * w) * mm + c) by (nonlinear_arith)
                requires
                    nv + cc * w == ov * mm + c,
                    lo + ne * base() == xx * mm + cc,
            ;
        }
        carry = next;
        i += 1;
    }
    assert(old(a)@.take(n as int) =~= old(a)@);
    assert(a@.take(n as int) =~= a@);
    if carry > 0 {
        proof {
            lemma_push(a@, carry as u32);
        }
        a.push(carry as u32);
    } else {
        let ghost w = weight(n as nat);
        assert(0 * w == 0) by (nonlinear_arith);
    }
}

/// Digit `i`, or zero behind the last.
fn digit(a: &Vec<u32>, i: usize) -> (r: u32)
    ensures
        r == digit_at(a@, i as int),
{
    if i < a.len() {
        a[i]
    } else {
        0
    }
}

spec fn digit_at(s: Seq<u32>, i: int) -> u32 {
    if 0 <= i < s.len() {
        s[i]
    } else {
        0
    }
}

/// The number that the first `i` digits stand for; behind the last they are zero.
spec fn low(s: Seq<u32>, i: nat) -> nat
    decreases i,
{
    if i == 0 {
        0
    } else {
        low(s, (i - 1) as nat) + digit_at(s, i - 1) as nat * weight((i - 1) as nat)
    }
}

proof fn lemma_low(s: Seq<u32>, i: nat)
    ensures
        i <= s.len() ==> low(s, i) == value(s.take(i as int)),
        i >= s.len() ==> low(s, i) == value(s),
        low(s, i) < weight(i),
    decreases i,
{
    if i > 0 {
        lemma_low(s, (i - 1) as nat);
        let w = weight((i - 1) as nat);
        let d = digit_at(s, i - 1) as nat;
        assert(d * w + w <= w * base()) by (nonlinear_arith)
            requires
                d + 1 <= base(),
        ;
        if i <= s.len() {
            lemma_take(s, i - 1);
            if i == s.len() {
                assert(s.take(i as int) =~= s);
            }
        } else {
            assert(d == 0);
            assert(0 * w == 0) by (nonlinear_arith);
        }
    } else {
        assert(s.take(0) =~= Seq::<u32>::empty());
        if s.len() == 0 {
            assert(s.take(0) =~= s);
        }
    }
}

/// Whether `a >= b`.
pub fn at_least(a: &Vec<u32>, b: &Vec<u32>) -> (r: bool)
    ensures
        r == (value(a@) >= value(b@)),
{
    let mut i: usize = if a.len() >= b.len() {
        a.len()
    } else {
        b.len()
    };
    proof {
        lemma_low(a@, i as nat);
        lemma_low(b@, i as nat);
    }
    while i > 0
        invariant
            (value(a@) >= value(b@)) == (low(a@, i as nat) >= low(b@, i as nat)),
        decreases i,
    {
        let x: u32 = digit(a, i - 1);
        let y: u32 = digit(b, i - 1);
        proof {
            lemma_low(a@, (i - 1) as nat);
            lemma_low(b@, (i - 1) as nat);
            let w = weight((i - 1) as nat);
            let xx = x as nat;
            let yy = y as nat;
            if x > y {
                assert(xx * w >= yy * w + w) by (nonlinear_arith)
                    requires
                        xx >= yy + 1,
                ;
            } else if x < y {
                assert(yy * w >= xx * w + w) by (nonlinear_arith)
                    requires
                        yy >= xx + 1,
                ;
            }
        }
        if x != y {
            return x > y;
        }
        i -= 1;
    }
    true
}

/// The sum of `a` and `b`.
pub fn plus(a: &Vec<u32>, b: &Vec<u32>) -> (r: Vec<u32>)
    ensures
        value(r@) == value(a@) + value(b@),
{
    let n: usize = if a.len() >= b.len() {
        a.len()
    } else {
        b.len()
    };
    let mut out: Vec<u32> = Vec::new();
    let mut carry: u64 = 0;
    let mut i: usize = 0;
    assert(0 * weight(0) == 0) by (nonlinear_arith);
    while i < n
        invariant
            i <= n,
            out@.len() == i,
            carry <= 1,
            value(out@) + carry * weight(i as nat) == low(a@, i as nat) + low(b@, i as nat),
        decreases n - i,
    {
        let x: u64 = digit(a, i) as u64;
        let y: u64 = digit(b, i) as u64;
        let t: u64 = x + y + carry;
        let d: u32 = (t % 0x1_0000_0000) as u32;
        let next: u64 = t / 0x1_0000_0000;
        proof {
            lemma_push(out@, d);
            let w = weight(i as nat) as int;
            let o = value(out@) as int;
            let la = low(a@, i as nat) as int;
            let lb = low(b@, i as nat) as int;
            let (xx, yy, dd, ne, ca) = (x as int, y as int, d as int, next as int, carry as int);
            let ba = base() as int;
            assert((o + dd * w) + ne * (w * ba) == (la + xx * w) + (lb + yy * w))
                by (nonlinear_arith)
                requires
                    o + ca * w == la + lb,
                    dd + ne * ba == xx + yy + ca,
            ;
        }
        out.push(d);
        carry = next;
        i += 1;
    }
    proof {
        lemma_low(a@, n as nat);
        lemma_low(b@, n as nat);
        lemma_push(out@, carry as u32);
    }
    out.push(carry as u32);
    out
}

/// Replaces `a` by `a - b`.
pub fn subtract(a: &mut Vec<u32>, b: &Vec<u32>)
    requires
        value(old(a)@) >= value(b@),
    ensures
        value(final(a)@) == value(old(a)@) - value(b@),
        final(a)@.len() == old(a)@.len(),
{
    let n: usize = a.len();
    let mut borrow: u64 = 0;
    let mut i: usize = 0;
    assert(a@.take(0) =~= Seq::<u32>::empty());
    while i < n
        invariant
            i <= n,
            n == a@.len(),
            n == old(a)@.len(),
            borrow <= 1,
            forall|k: int| i <= k < n ==> a@[k] == old(a)@[k],
            value(a@.take(i as int)) + low(b@, i as nat) == value(old(a)@.take(i as int)) + borrow
                * weight(i as nat),
        decreases n - i,
    {
        let x: u64 = a[i] as u64;
        let y: u64 = digit(b, i) as u64;
        let t: u64 = x + 0x1_0000_0000 - y - borrow;
        let d: u32 = (t % 0x1_0000_0000) as u32;
        let next: u64 = if t >= 0x1_0000_0000 {
            0
        } else {
            1
        };
        let ghost before = a@;
        a.set(i, d);
        proof {
            let w = weight(i as nat);
            lemma_take(old(a)@, i as int);
            lemma_take(a@, i as int);
            assert(a@.take(i as int) =~= before.take(i as int));
            assert(d + y + borrow == x + next * base());
            let nv = value(before.take(i as int)) as int;
            let ov = value(old(a)@.take(i as int)) as int;
            let lv = low(b@, i as nat) as int;
            let dd = d as int;
            let yy = y as int;
            let bo = borrow as int;
            let xx = x as int;
            let ne = next as int;
            let wi = w as int;
            let ba = base() as int;
            assert((nv + dd * wi) + (lv + yy * wi) == (ov + xx * wi) + ne * (wi * ba))
                by (nonlinear_arith)
                requires
                    nv + lv == ov + bo * wi,
                    dd + yy + bo == xx + ne * ba,
            ;
        }
        borrow = next;
        i += 1;
    }
    proof {
        assert(a@.take(n as int) =~= a@);
        assert(old(a)@.take(n as int) =~= old(a)@);
        lemma_bound(old(a)@);
        lemma_bound(a@);
        let w = weight(n as nat);
        lemma_low(b@, n as nat);
        lemma_low(b@, b@.len() as nat);
        if n < b@.len() {
            lemma_high_zero(b@, n as nat, b@.len() as nat, value(old(a)@));
        }
        if borrow == 1 {
            assert(1 * w == w) by (nonlinear_arith);
        } else {
            assert(0 * w == 0) by (nonlinear_arith);
        }
    }
}

/// Digits behind place `i` of a number below the weight of `i` are zero.
proof fn lemma_high_zero(s: Seq<u32>, i: nat, j: nat, v: nat)
    requires
        i <= j,
        low(s, j) <= v,
        v < weight(i),
    ensures
        low(s, j) == low(s, i),
    decreases j,
{
    if i < j {
        let w = weight((j - 1) as nat);
        let d = digit_at(s, j - 1) as nat;
        lemma_weight(i, (j - 1) as nat);
        if d > 0 {
            assert(d * w >= w) by (nonlinear_arith)
                requires
                    d >= 1,
            ;
        } else {
            assert(0 * w == 0) by (nonlinear_arith);
            lemma_high_zero(s, i, (j - 1) as nat, v);
        }
    }
}

proof fn lemma_weight(i: nat, j: nat)
    requires
        i <= j,
    ensures
        1 <= weight(i) <= weight(j),
    decreases j,
{
    if i < j {
        lemma_weight(i, (j - 1) as nat);
        let w = weight((j - 1) as nat);
        assert(w * base() >= w) by (nonlinear_arith)
            requires
                base() >= 1,
        ;
    } else if j > 0 {
        lemma_weight((j - 1) as nat, (j - 1) as nat);
        let w = weight((j - 1) as nat);
        assert(w * base() >= 1) by (nonlinear_arith)
            requires
                w >= 1,
                base() >= 1,
        ;
    }
}

/// The digits of a 64-bit number.
pub fn from_u64(v: u64) -> (r: Vec<u32>)
    ensures
        value(r@) == v,
{
    let lo: u32 = (v % 0x1_0000_0000) as u32;
    let hi: u32 = (v / 0x1_0000_0000) as u32;
    let r: Vec<u32> = vec![lo, hi];
    proof {
        reveal_with_fuel(value, 3);
        reveal_with_fuel(weight, 3);
        assert(r@.drop_last() =~= seq![lo]);
        assert(r@.drop_last().drop_last() =~= Seq::<u32>::empty());
        let l = lo as nat;
        let h = hi as nat;
        assert(l * 1 == l && h * (1 * base()) == h * 0x1_0000_0000) by (nonlinear_arith);
        assert(weight(0) == 1 && weight(1) == base());
    }
    r
}

/// An equal number.
pub fn copied(a: &Vec<u32>) -> (r: Vec<u32>)
    ensures
        r@ == a@,
{
    vstd::slice::slice_to_vec(a.as_slice())
}

} // verus!
