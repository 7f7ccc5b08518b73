//! Little-endian integers in byte sequences.

use vstd::prelude::*;

verus! {

/// The `n`-byte little-endian integer that starts at `b[p]`.
pub open spec fn le_nat(b: Seq<u8>, p: int, n: nat) -> nat
    decreases n,
{
    if n == 0 {
        0
    } else {
        b[p] as nat + 256 * le_nat(b, p + 1, (n - 1) as nat)
    }
}

/// The `n` low bytes of `v`, least significant first.
pub open spec fn le_bytes(v: nat, n: nat) -> Seq<u8>
    decreases n,
{
    if n == 0 {
        Seq::empty()
    } else {
        seq![(v % 256) as u8] + le_bytes(v / 256, (n - 1) as nat)
    }
}

/// `256` to the power `n`.
pub open spec fn pow256(n: nat) -> nat
    decreases n,
{
    if n == 0 {
        1
    } else {
        256 * pow256((n - 1) as nat)
    }
}

/// The powers of 256 that the integer widths need.
pub proof fn lemma_pow256()
    ensures
        pow256(0) == 1,
        pow256(1) == 0x100,
        pow256(2) == 0x1_0000,
        pow256(4) == 0x1_0000_0000,
        pow256(8) == 0x1_0000_0000_0000_0000,
{
    reveal_with_fuel(pow256, 9);
}

/// `n` bytes hold an integer below `256^n`.
pub proof fn lemma_le_nat_bound(b: Seq<u8>, p: int, n: nat)
    ensures
        le_nat(b, p, n) < pow256(n),
    decreases n,
{
    if n > 0 {
        lemma_le_nat_bound(b, p + 1, (n - 1) as nat);
    }
}

/// A longer width holds at least as large a power.
pub proof fn lemma_pow256_monotonic(m: nat, n: nat)
    requires
        m <= n,
    ensures
        pow256(m) <= pow256(n),
        pow256(m) >= 1,
    decreases n,
{
    if m < n {
        lemma_pow256_monotonic(m, (n - 1) as nat);
    } else if m > 0 {
        lemma_pow256_monotonic((m - 1) as nat, (m - 1) as nat);
    }
}

/// `le_bytes` has the width asked for.
pub proof fn lemma_le_bytes_len(v: nat, n: nat)
    ensures
        le_bytes(v, n).len() == n,
    decreases n,
{
    if n > 0 {
        lemma_le_bytes_len(v / 256, (n - 1) as nat);
    }
}

/// Only the `n` bytes at `p` matter to the integer there.
pub proof fn lemma_le_nat_local(a: Seq<u8>, p: int, b: Seq<u8>, q: int, n: nat)
    requires
        0 <= p,
        p + n <= a.len(),
        0 <= q,
        q + n <= b.len(),
        a.subrange(p, p + n) == b.subrange(q, q + n),
    ensures
        le_nat(a, p, n) == le_nat(b, q, n),
    decreases n,
{
    if n > 0 {
        let x = a.subrange(p, p + n);
        let y = b.subrange(q, q + n);
        assert(x[0] == a[p] && y[0] == b[q]);
        assert(a.subrange(p + 1, p + n) =~= x.subrange(1, n as int));
        assert(b.subrange(q + 1, q + n) =~= y.subrange(1, n as int));
        lemma_le_nat_local(a, p + 1, b, q + 1, (n - 1) as nat);
    }
}

/// Reading back the little-endian bytes of an integer gives the integer.
pub proof fn law_le_round_trip(v: nat, n: nat)
    requires
        v < pow256(n),
    ensures
        le_nat(le_bytes(v, n), 0, n) == v,
    decreases n,
{
    if n > 0 {
        let s = le_bytes(v, n);
        let rest = le_bytes(v / 256, (n - 1) as nat);
        lemma_le_bytes_len(v / 256, (n - 1) as nat);
        law_le_round_trip(v / 256, (n - 1) as nat);
        assert(s.subrange(1, n as int) =~= rest.subrange(0, n - 1));
        lemma_le_nat_local(s, 1, rest, 0, (n - 1) as nat);
    }
}

/// Reads the `n`-byte little-endian integer at `b[p]`.
pub fn read_le(b: &[u8], p: usize, n: usize) -> (r: u64)
    requires
        n <= 8,
        p + n <= b@.len(),
    ensures
        r as nat == le_nat(b@, p as int, n as nat),
        (r as nat) < pow256(n as nat),
{
    let end: usize = b.len();
    let mut acc: u64 = 0;
    let mut i: usize = n;
    while i > 0
        invariant
            i <= n <= 8,
            end == b@.len(),
            p + n <= end,
            acc as nat == le_nat(b@, p + i, (n - i) as nat),
        decreases i,
    {
        proof {
            lemma_le_nat_bound(b@, p + i - 1, (n - i + 1) as nat);
            lemma_pow256_monotonic((n - i + 1) as nat, 8);
            lemma_pow256();
            assert(le_nat(b@, p + i - 1, (n - i + 1) as nat) == b@[p + i - 1] as nat + 256
                * le_nat(b@, p + i, (n - i) as nat));
        }
        i -= 1;
        acc = b[p + i] as u64 + 256 * acc;
    }
    proof {
        lemma_le_nat_bound(b@, p as int, n as nat);
    }
    acc
}

/// Appends the `n` low bytes of `v`, least significant first.
pub fn push_le(out: &mut Vec<u8>, v: u64, n: usize)
    ensures
        final(out)@ == old(out)@ + le_bytes(v as nat, n as nat),
{
    let mut x: u64 = v;
    let mut i: usize = 0;
    while i < n
        invariant
            i <= n,
            old(out)@ + le_bytes(v as nat, n as nat) == out@ + le_bytes(x as nat, (n - i) as nat),
        decreases n - i,
    {
        let ghost before = out@;
        out.push((x % 256) as u8);
        proof {
            assert(le_bytes(x as nat, (n - i) as nat) == seq![(x % 256) as u8] + le_bytes(
                (x / 256) as nat,
                (n - i - 1) as nat,
            ));
            assert(before + (seq![(x % 256) as u8] + le_bytes((x / 256) as nat, (n - i - 1) as nat))
                =~= before.push((x % 256) as u8) + le_bytes((x / 256) as nat, (n - i - 1) as nat));
        }
        x = x / 256;
        i += 1;
    }
    assert(out@ + Seq::<u8>::empty() =~= out@);
}

} // verus!
