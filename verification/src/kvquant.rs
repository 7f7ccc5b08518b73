//! Bit packing and mode selection of the quantized key/value cache.

use vstd::prelude::*;
use vstd::string::*;

use crate::text;

verus! {

/// Head dimension that the default codebook is designed for.
pub const DEFAULT_HD: usize = 256;

/// The state after one step of the generator.
pub open spec fn splitmix_state(s: u64) -> u64 {
    s.wrapping_add(0x9E37_79B9_7F4A_7C15)
}

/// The output for a state.
pub open spec fn splitmix_output(s: u64) -> u64 {
    let z1 = (s ^ (s >> 30)).wrapping_mul(0xBF58_476D_1CE4_E5B9);
    let z2 = (z1 ^ (z1 >> 27)).wrapping_mul(0x94D0_49BB_1331_11EB);
    z2 ^ (z2 >> 31)
}

/// One step of the generator that the fixed rotation table is drawn from.
pub fn splitmix64(state: &mut u64) -> (r: u64)
    ensures
        *final(state) == splitmix_state(*old(state)),
        r == splitmix_output(*final(state)),
{
    *state = state.wrapping_add(0x9E37_79B9_7F4A_7C15);
    let mut z: u64 = *state;
    z = (z ^ (z >> 30)).wrapping_mul(0xBF58_476D_1CE4_E5B9);
    z = (z ^ (z >> 27)).wrapping_mul(0x94D0_49BB_1331_11EB);
    z ^ (z >> 31)
}

/// The state after `n` steps.
pub open spec fn splitmix_after(seed: u64, n: nat) -> u64
    decreases n,
{
    if n == 0 {
        seed
    } else {
        splitmix_state(splitmix_after(seed, (n - 1) as nat))
    }
}

/// Steps are even: after `n` of them the state is the seed plus `n` times the increment, modulo
/// two to the power 64.
pub proof fn law_states_step_evenly(seed: u64, n: nat)
    ensures
        splitmix_after(seed, n) as int == (seed + n * 0x9E37_79B9_7F4A_7C15)
            % 0x1_0000_0000_0000_0000,
    decreases n,
{
    let g = 0x9E37_79B9_7F4A_7C15int;
    let m = 0x1_0000_0000_0000_0000int;
    if n == 0 {
        vstd::arithmetic::div_mod::lemma_small_mod(seed as nat, m as nat);
    } else {
        let k = (n - 1) as nat;
        law_states_step_evenly(seed, k);
        let s = splitmix_after(seed, k);
        assert(splitmix_state(s) as int == (s + g) % m);
        vstd::arithmetic::div_mod::lemma_add_mod_noop_right(g, seed + k * g, m);
        assert(g + (seed + k * g) == seed + n * g) by (nonlinear_arith)
            requires
                n == k + 1,
        ;
    }
}

/// States do not come back: two to the power 64 draws in a row start from different ones.
pub proof fn law_states_do_not_repeat(seed: u64, a: nat, b: nat)
    requires
        a < b,
        b - a < 0x1_0000_0000_0000_0000,
    ensures
        splitmix_after(seed, a) != splitmix_after(seed, b),
{
    let g = 0x9E37_79B9_7F4A_7C15int;
    let m = 0x1_0000_0000_0000_0000int;
    law_states_step_evenly(seed, a);
    law_states_step_evenly(seed, b);
    if splitmix_after(seed, a) == splitmix_after(seed, b) {
        // The increment has an inverse.
        let inverse = 0xF1DE_83E1_9937_733Dint;
        let d = b - a;
        let (x, y) = (seed + a * g, seed + b * g);
        vstd::arithmetic::div_mod::lemma_fundamental_div_mod(x, m);
        vstd::arithmetic::div_mod::lemma_fundamental_div_mod(y, m);
        let q = y / m - x / m;
        assert(d * g == m * q) by (nonlinear_arith)
            requires
                d == b - a,
                x == seed + a * g,
                y == seed + b * g,
                x == m * (x / m) + x % m,
                y == m * (y / m) + y % m,
                x % m == y % m,
                q == y / m - x / m,
        ;
        let w = 10771413168148108919int;
        assert(g * inverse == m * w + 1);
        assert(d == m * (q * inverse - d * w)) by (nonlinear_arith)
            requires
                d * g == m * q,
                g * inverse == m * w + 1,
        ;
        let e = q * inverse - d * w;
        assert(false) by (nonlinear_arith)
            requires
                d == m * e,
                0 < d < m,
                m > 0,
        ;
    }
}

/// Seeds stay apart: different ones have different states after any number of steps.
pub proof fn law_seeds_stay_apart(s: u64, t: u64, n: nat)
    requires
        s != t,
    ensures
        splitmix_after(s, n) != splitmix_after(t, n),
    decreases n,
{
    if n > 0 {
        law_seeds_stay_apart(s, t, (n - 1) as nat);
    }
}

/// The state that an output comes from.
pub open spec fn unmixed(r: u64) -> u64 {
    let z2 = r ^ (r >> 31) ^ (r >> 62);
    let a = z2.wrapping_mul(0x3196_42B2_D24D_8EC3);
    let z1 = a ^ (a >> 27) ^ (a >> 54);
    let b = z1.wrapping_mul(0x96DE_1B17_3F11_9089);
    b ^ (b >> 30) ^ (b >> 60)
}

proof fn lemma_times_inverse(z: u64, c: u64, inverse: u64, w: int)
    requires
        c * inverse == 0x1_0000_0000_0000_0000 * w + 1,
    ensures
        z.wrapping_mul(c).wrapping_mul(inverse) == z,
{
    let m = 0x1_0000_0000_0000_0000int;
    let p = z as int * c as int;
    let (x, y, i) = (z as int, c as int, inverse as int);
    assert(z.wrapping_mul(c) as int == p % m);
    let r = p % m;
    vstd::arithmetic::div_mod::lemma_fundamental_div_mod(p, m);
    let q = p / m;
    let e = x * w - q * i;
    assert(r * i == m * e + x) by (nonlinear_arith)
        requires
            p == x * y,
            p == m * q + r,
            y * i == m * w + 1,
            e == x * w - q * i,
    ;
    vstd::arithmetic::div_mod::lemma_fundamental_div_mod_converse(r * i, m, e, x);
    assert(z.wrapping_mul(c).wrapping_mul(inverse) as int == (r * i) % m);
}

proof fn lemma_unshift_30(x: u64)
    by (bit_vector)
    ensures
        (x ^ (x >> 30)) ^ ((x ^ (x >> 30)) >> 30) ^ ((x ^ (x >> 30)) >> 60) == x,
{
}

proof fn lemma_unshift_27(x: u64)
    by (bit_vector)
    ensures
        (x ^ (x >> 27)) ^ ((x ^ (x >> 27)) >> 27) ^ ((x ^ (x >> 27)) >> 54) == x,
{
}

proof fn lemma_unshift_31(x: u64)
    by (bit_vector)
    ensures
        (x ^ (x >> 31)) ^ ((x ^ (x >> 31)) >> 31) ^ ((x ^ (x >> 31)) >> 62) == x,
{
}

/// Mixing loses nothing: the state can be told from the output, so that different states have
/// different outputs.
pub proof fn law_mixing_is_reversible(s: u64)
    ensures
        unmixed(splitmix_output(s)) == s,
{
    let y0 = s ^ (s >> 30);
    let z1 = y0.wrapping_mul(0xBF58_476D_1CE4_E5B9);
    let y1 = z1 ^ (z1 >> 27);
    let z2 = y1.wrapping_mul(0x94D0_49BB_1331_11EB);
    lemma_unshift_31(z2);
    lemma_times_inverse(y1, 0x94D0_49BB_1331_11EB, 0x3196_42B2_D24D_8EC3, 2077064247507883091);
    lemma_unshift_27(z1);
    lemma_times_inverse(y0, 0xBF58_476D_1CE4_E5B9, 0x96DE_1B17_3F11_9089, 8125545580553827436);
    lemma_unshift_30(s);
}

/// A seed's draws are all different, for two to the power 64 of them; and so are those of
/// different seeds at the same place.
pub proof fn law_draws_differ(s: u64, t: u64, a: nat, b: nat)
    requires
        s == t ==> a < b && b - a < 0x1_0000_0000_0000_0000,
        s != t ==> a == b,
    ensures
        splitmix_output(splitmix_after(s, a)) != splitmix_output(splitmix_after(t, b)),
{
    if s == t {
        law_states_do_not_repeat(s, a, b);
    } else {
        law_seeds_stay_apart(s, t, a);
    }
    law_mixing_is_reversible(splitmix_after(s, a));
    law_mixing_is_reversible(splitmix_after(t, b));
}

/// The byte at `k`, 0 behind the end.
pub open spec fn byte_at(p: Seq<u8>, k: int) -> u8 {
    if 0 <= k < p.len() {
        p[k]
    } else {
        0
    }
}

/// The `bits`-wide field at `off` of the two bytes `a` and `b`.
pub open spec fn field(a: u8, b: u8, off: u32, bits: u32) -> u8 {
    (((a as u32 | ((b as u32) << 8)) >> off) & ((1u32 << bits) - 1) as u32) as u8
}

/// The `i`-th field of a packed sequence, least significant bits first.
pub open spec fn packed_at(p: Seq<u8>, bits: u32, i: int) -> u8 {
    let at = i * bits;
    field(byte_at(p, at / 8), byte_at(p, at / 8 + 1), (at % 8) as u32, bits)
}

/// The low `bits` bits of an index.
pub open spec fn low_bits(v: u8, bits: u32) -> u8 {
    ((v as u32) & ((1u32 << bits) - 1) as u32) as u8
}

proof fn lemma_field_same_byte(a: u8, b: u8, v: u8, off: u32, j: u32, bits: u32)
    by (bit_vector)
    requires
        off < 8,
        bits < 32,
        j < 8,
        j + bits <= off,
    ensures
        ((((a | ((((v as u32) << off) & 0xff) as u8)) as u32 | (((b | (((v as u32) >> ((8
            - off) as u32)) as u8)) as u32) << 8)) >> j) & (((1u32 << bits) - 1) as u32)) == ((a as u32 | (
        (b as u32) << 8)) >> j) & (((1u32 << bits) - 1) as u32),
{
}

proof fn lemma_field_same_byte_low(a: u8, b: u8, v: u8, off: u32, j: u32, bits: u32)
    by (bit_vector)
    requires
        off < 8,
        bits < 32,
        j < 8,
        j + bits <= off,
    ensures
        ((((a | ((((v as u32) << off) & 0xff) as u8)) as u32 | ((b as u32) << 8)) >> j) & (((1u32
            << bits) - 1) as u32)) == ((a as u32 | ((b as u32) << 8)) >> j) & (((1u32 << bits) - 1) as u32),
{
}

proof fn lemma_field_next_byte(p: u8, a: u8, v: u8, off: u32, j: u32, bits: u32)
    by (bit_vector)
    requires
        off < 8,
        bits < 32,
        j < 8,
        j + bits <= off + 8,
    ensures
        ((p as u32 | (((a | ((((v as u32) << off) & 0xff) as u8)) as u32) << 8)) >> j) & (((1u32
            << bits) - 1) as u32) == ((p as u32 | ((a as u32) << 8)) >> j) & (((1u32 << bits) - 1) as u32),
{
}

/// The field just written reads back.
proof fn lemma_field_written(a: u8, v: u8, off: u32, bits: u32)
    by (bit_vector)
    requires
        off < 8,
        bits < 32,
        (a as u32) < (1u32 << off),
        (v as u32) <= ((1u32 << bits) - 1) as u32,
    ensures
        off + bits > 8 ==> (((a | ((((v as u32) << off) & 0xff) as u8)) as u32 | ((((v as u32) >> ((
        8 - off) as u32)) as u8) as u32) << 8) >> off) & (((1u32 << bits) - 1) as u32) == v as u32,
        off + bits <= 8 ==> (((a | ((((v as u32) << off) & 0xff) as u8)) as u32) >> off) & (((1u32
            << bits) - 1) as u32) == v as u32,
        off + bits < 8 ==> ((a | ((((v as u32) << off) & 0xff) as u8)) as u32) < (1u32 << ((off
            + bits) as u32)),
        8 < off + bits < 16 ==> ((((v as u32) >> ((8 - off) as u32)) as u8) as u32) < (1u32 << ((off
            + bits - 8) as u32)),
{
}

/// Fields from the `n`-th on are empty: the bits from there on are zero.
spec fn rest_empty(p: Seq<u8>, bits: u32, n: int) -> bool {
    let at = n * bits;
    &&& forall|k: int| at / 8 < k < p.len() ==> #[trigger] p[k] == 0
    &&& (byte_at(p, at / 8) as u32) < (1u32 << ((at % 8) as u32))
}

proof fn lemma_position(i: int, bits: u32, n: int)
    requires
        0 <= i < n,
    ensures
        0 <= i * bits,
        (i + 1) * bits == i * bits + bits,
        (i + 1) * bits <= n * bits,
{
    assert((i + 1) * bits == i * bits + bits) by (nonlinear_arith);
    assert(0 <= i * bits && (i + 1) * bits <= n * bits) by (nonlinear_arith)
        requires
            0 <= i < n,
            bits >= 0,
    ;
}

/// What writing the value `v` at field `i` does to the bytes.
spec fn with_field(p: Seq<u8>, bits: u32, i: int, v: u8) -> Seq<u8> {
    let at = i * bits;
    let byte = at / 8;
    let off = (at % 8) as u32;
    let q = p.update(byte, p[byte] | ((((v as u32) << off) & 0xff) as u8));
    if off + bits > 8 {
        q.update(byte + 1, q[byte + 1] | (((v as u32) >> ((8 - off) as u32)) as u8))
    } else {
        q
    }
}

/// Writing a field leaves those before it alone, reads back, and leaves the rest empty.
proof fn lemma_pack_step(p: Seq<u8>, idx: Seq<u8>, bits: u32, i: int, v: u8)
    requires
        1 <= bits < 32,
        0 <= i < idx.len(),
        idx.len() * bits <= p.len() * 8,
        v == low_bits(idx[i], bits),
        rest_empty(p, bits, i),
        forall|j: int| 0 <= j < i ==> #[trigger] packed_at(p, bits, j) == low_bits(idx[j], bits),
    ensures
        ({
            let q = with_field(p, bits, i, v);
            &&& q.len() == p.len()
            &&& rest_empty(q, bits, i + 1)
            &&& forall|j: int|
                0 <= j < i + 1 ==> #[trigger] packed_at(q, bits, j) == low_bits(idx[j], bits)
        }),
{
    let q = with_field(p, bits, i, v);
    lemma_position(i, bits, idx.len() as int);
    let at = i * bits;
    let byte = at / 8;
    let off = (at % 8) as u32;
    let w = idx[i];
    assert(((w as u32) & (((1u32 << bits) - 1) as u32)) as u8 as u32 <= ((1u32 << bits) - 1) as u32)
        by (bit_vector)
        requires
            bits < 32,
    ;
    let a = p[byte];
    lemma_field_written(a, v, off, bits);
    let next = (i + 1) * bits;
    let e = off + bits;
    let zero = byte_at(p, byte + 1);
    assert(zero == 0);
    let hi = ((v as u32) >> ((8 - off) as u32)) as u8;
    assert(0u8 | hi == hi) by (bit_vector);
    assert((0u32 << 8) == 0) by (bit_vector);
    let lo = (a | ((((v as u32) << off) & 0xff) as u8)) as u32;
    assert(lo | 0 == lo) by (bit_vector);
    assert(packed_at(q, bits, i) == v);
    if e < 8 {
        assert(next / 8 == byte && next % 8 == e);
    } else {
        if e < 16 {
            assert(next / 8 == byte + 1 && next % 8 == e - 8);
        } else {
            assert(next / 8 >= byte + 2);
        }
        let r = (next % 8) as u32;
        assert(0u32 < (1u32 << r)) by (bit_vector)
            requires
                r < 8,
        ;
    }
    assert forall|j: int| 0 <= j < i implies #[trigger] packed_at(q, bits, j) == low_bits(
        idx[j],
        bits,
    ) by {
        lemma_position(j, bits, i);
        let aj = j * bits;
        let bj = aj / 8;
        let oj = (aj % 8) as u32;
        if bj == byte {
            if e > 8 {
                lemma_field_same_byte(a, zero, v, off, oj, bits);
            } else {
                lemma_field_same_byte_low(a, zero, v, off, oj, bits);
            }
        } else if bj + 1 == byte {
            lemma_field_next_byte(p[bj], a, v, off, oj, bits);
        }
        assert(packed_at(q, bits, j) == packed_at(p, bits, j));
    }
}

/// `p` holds the indices, `bits` wide, least significant bits first, and zeros behind them.
pub open spec fn packs(idx: Seq<u8>, bits: u32, p: Seq<u8>) -> bool {
    let end = idx.len() * bits;
    &&& forall|i: int|
        0 <= i < idx.len() ==> #[trigger] packed_at(p, bits, i) == low_bits(idx[i], bits)
    &&& forall|k: int| end / 8 < k < p.len() ==> #[trigger] p[k] == 0
    &&& (byte_at(p, end / 8) as u32) < (1u32 << ((end % 8) as u32))
}

/// `after` is `before` with its first `n` places, as far as there are so many, taken from the
/// fields of `p`.
pub open spec fn unpacks(
    p: Seq<u8>,
    bits: u32,
    n: int,
    before: Seq<u8>,
    after: Seq<u8>,
) -> bool {
    &&& after.len() == before.len()
    &&& forall|i: int|
        0 <= i < after.len() ==> #[trigger] after[i] == if i < n {
            packed_at(p, bits, i)
        } else {
            before[i]
        }
}

/// Packs `bits`-wide indices into `out`, least significant bits first; what is left of `out`
/// becomes zero.
pub fn pack_bits(idx: &[u8], bits: u32, out: &mut [u8])
    requires
        1 <= bits < 32,
        idx@.len() * bits <= old(out)@.len() * 8,
        idx@.len() * bits <= usize::MAX,
    ensures
        final(out)@.len() == old(out)@.len(),
        packs(idx@, bits, final(out)@),
{
    let size: usize = out.len();
    let mut k: usize = 0;
    while k < size
        invariant
            k <= size,
            out@.len() == size,
            forall|j: int| 0 <= j < k ==> #[trigger] out@[j] == 0,
        decreases size - k,
    {
        out[k] = 0;
        k += 1;
    }
    let n: usize = idx.len();
    let mut bitpos: usize = 0;
    let mut i: usize = 0;
    proof {
        assert(0 * bits == 0) by (nonlinear_arith);
        assert(1u32 << 0u32 == 1) by (bit_vector);
    }
    while i < n
        invariant
            i <= n,
            n == idx@.len(),
            1 <= bits < 32,
            n * bits <= size * 8,
            n * bits <= usize::MAX,
            out@.len() == size,
            bitpos == i * bits,
            forall|j: int|
                0 <= j < i ==> #[trigger] packed_at(out@, bits, j) == low_bits(idx@[j], bits),
            rest_empty(out@, bits, i as int),
        decreases n - i,
    {
        proof {
            lemma_position(i as int, bits, n as int);
        }
        let ghost before = out@;
        let byte: usize = bitpos / 8;
        let off: u32 = (bitpos % 8) as u32;
        proof {
            assert((1u32 << bits) >= 1) by (bit_vector)
                requires
                    bits < 32,
            ;
        }
        let mask: u32 = (1u32 << bits) - 1;
        let v: u8 = ((idx[i] as u32) & mask) as u8;
        out[byte] = out[byte] | ((((v as u32) << off) & 0xff) as u8);
        if off + bits > 8 {
            out[byte + 1] = out[byte + 1] | (((v as u32) >> (8 - off)) as u8);
        }
        proof {
            lemma_pack_step(before, idx@, bits, i as int, v);
            assert(out@ =~= with_field(before, bits, i as int, v));
        }
        bitpos = bitpos + bits as usize;
        i += 1;
    }
}

proof fn lemma_field_read(a: u8, b: u8, off: u32, bits: u32)
    by (bit_vector)
    requires
        off < 8,
        bits < 32,
    ensures
        off + bits > 8 ==> (((a as u32) >> off) | ((b as u32) << ((8 - off) as u32))) & (((1u32
            << bits) - 1) as u32) == ((a as u32 | ((b as u32) << 8)) >> off) & (((1u32 << bits) - 1) as u32),
        off + bits <= 8 ==> ((a as u32) >> off) & (((1u32 << bits) - 1) as u32) == ((a as u32 | ((
        b as u32) << 8)) >> off) & (((1u32 << bits) - 1) as u32),
{
}

/// Unpacks the first `n` fields, as far as `out` has room; what is left of `out` stays.
pub fn unpack_bits(packed: &[u8], bits: u32, n: usize, out: &mut [u8])
    requires
        1 <= bits < 32,
        n <= old(out)@.len() ==> n * bits <= usize::MAX && n * bits <= packed@.len() * 8,
        n > old(out)@.len() ==> old(out)@.len() * bits <= usize::MAX && old(out)@.len() * bits
            <= packed@.len() * 8,
    ensures
        unpacks(packed@, bits, n as int, old(out)@, final(out)@),
{
    let size: usize = out.len();
    let end: usize = if n < size {
        n
    } else {
        size
    };
    let plen: usize = packed.len();
    proof {
        assert((1u32 << bits) >= 1) by (bit_vector)
            requires
                bits < 32,
        ;
        assert(0 * bits == 0) by (nonlinear_arith);
    }
    let mask: u32 = (1u32 << bits) - 1;
    let mut bitpos: usize = 0;
    let mut i: usize = 0;
    while i < end
        invariant
            i <= end <= n,
            end <= size,
            1 <= bits < 32,
            mask == ((1u32 << bits) - 1) as u32,
            out@.len() == size,
            plen == packed@.len(),
            end * bits <= plen * 8,
            end * bits <= usize::MAX,
            bitpos == i * bits,
            forall|k: int|
                0 <= k < size ==> #[trigger] out@[k] == if k < i {
                    packed_at(packed@, bits, k)
                } else {
                    old(out)@[k]
                },
        decreases end - i,
    {
        proof {
            lemma_position(i as int, bits, end as int);
        }
        let byte: usize = bitpos / 8;
        let off: u32 = (bitpos % 8) as u32;
        let mut v: u32 = (packed[byte] as u32) >> off;
        if off + bits > 8 {
            v = v | ((packed[byte + 1] as u32) << (8 - off));
        }
        proof {
            lemma_field_read(packed@[byte as int], byte_at(packed@, byte + 1), off, bits);
        }
        out[i] = (v & mask) as u8;
        bitpos = bitpos + bits as usize;
        i += 1;
    }
}

proof fn lemma_low_bits(v: u8, bits: u32)
    by (bit_vector)
    requires
        1 <= bits <= 8,
        (v as u32) < (1u32 << bits),
    ensures
        ((v as u32) & (((1u32 << bits) - 1) as u32)) as u8 == v,
{
}

/// Unpacking undoes packing: indices of at most `bits` bits come back as they were, and what is
/// left of the place they are unpacked to stays.
pub proof fn law_unpacking_undoes_packing(
    idx: Seq<u8>,
    bits: u32,
    p: Seq<u8>,
    before: Seq<u8>,
    after: Seq<u8>,
)
    requires
        1 <= bits <= 8,
        forall|i: int| 0 <= i < idx.len() ==> (#[trigger] idx[i] as u32) < (1u32 << bits),
        idx.len() <= before.len(),
        packs(idx, bits, p),
        unpacks(p, bits, idx.len() as int, before, after),
    ensures
        after.len() == before.len(),
        after.take(idx.len() as int) == idx,
        after.skip(idx.len() as int) == before.skip(idx.len() as int),
{
    let n = idx.len() as int;
    assert forall|i: int| 0 <= i < n implies after[i] == idx[i] by {
        assert((idx[i] as u32) < (1u32 << bits));
        lemma_low_bits(idx[i], bits);
        assert(packed_at(p, bits, i) == low_bits(idx[i], bits));
    }
    assert(after.take(n) =~= idx);
    assert(after.skip(n) =~= before.skip(n));
}

/// Unpacking what was packed gives the indices back, cut to the width.
pub proof fn law_unpack_undoes_pack(
    idx: Seq<u8>,
    bits: u32,
    packed: Seq<u8>,
    out: Seq<u8>,
)
    requires
        out.len() == idx.len(),
        forall|i: int|
            0 <= i < idx.len() ==> #[trigger] packed_at(packed, bits, i) == low_bits(idx[i], bits),
        forall|i: int| 0 <= i < out.len() ==> #[trigger] out[i] == packed_at(packed, bits, i),
    ensures
        out == idx.map_values(|v: u8| low_bits(v, bits)),
{
    assert(out =~= idx.map_values(|v: u8| low_bits(v, bits)));
}

/// An index that fits the width is not cut.
pub proof fn law_low_bits_identity(v: u8, bits: u32)
    requires
        bits < 32,
        v < (1u32 << bits),
    ensures
        low_bits(v, bits) == v,
{
    assert(((v as u32) & (((1u32 << bits) - 1) as u32)) as u8 == v) by (bit_vector)
        requires
            bits < 32,
            v < (1u32 << bits),
    ;
}

/// Bytes that `n` fields of `bits` bits need.
pub open spec fn packed_size(n: int, bits: int) -> int {
    (n * bits + 7) / 8
}

/// Bytes that `n` indices of `bits` bits each need when packed.
pub fn packed_bytes(n: usize, bits: u32) -> (r: usize)
    requires
        n * bits <= usize::MAX,
    ensures
        r == packed_size(n as int, bits as int),
{
    let total: usize = n * bits as usize;
    if total % 8 == 0 {
        total / 8
    } else {
        total / 8 + 1
    }
}

/// The quantizer of one vector length: coordinates are rotated in pairs and packed at `bits`
/// each.
#[derive(Debug, Clone, Copy, PartialEq, Eq, Structural)]
pub struct PlanarQuant {
    pub hd: usize,
    pub bits: u32,
    pub n_groups: usize,
    /// `hd` rounded up to whole pairs.
    pub hd_padded: usize,
}

/// The quantizer for vectors of length `hd`.
pub open spec fn planar(hd: usize, bits: u32) -> PlanarQuant {
    let groups = (hd as int + 1) / 2;
    PlanarQuant { hd, bits, n_groups: groups as usize, hd_padded: (2 * groups) as usize }
}

impl PlanarQuant {
    pub fn new(hd: usize, bits: u32) -> (r: PlanarQuant)
        requires
            1 <= bits <= 8,
            hd < usize::MAX,
        ensures
            r == planar(hd, bits),
    {
        let n_groups: usize = hd / 2 + hd % 2;
        PlanarQuant { hd, bits, n_groups, hd_padded: n_groups * 2 }
    }

    /// Number of bytes of one vector's packed indices.
    pub fn packed_len(&self) -> (r: usize)
        requires
            self.hd_padded * self.bits <= usize::MAX,
        ensures
            r == packed_size(self.hd_padded as int, self.bits as int),
    {
        packed_bytes(self.hd_padded, self.bits)
    }
}

/// How the key/value cache is held.
#[derive(Debug, Clone, Copy, PartialEq, Eq, Structural)]
pub enum KvMode {
    /// Single precision.
    F32,
    /// Half precision.
    F16,
    /// Rotated and quantized keys; values too, unless `k_only`.
    Planar { bits: u32, k_only: bool },
}

/// The width that a planar mode's name gives: its digits behind `planar` or `iso`.
pub open spec fn planar_bits(name: Seq<char>) -> Option<u32> {
    let digits = if text::starts_with(name, "planar"@) {
        name.skip("planar"@.len() as int)
    } else {
        name.skip("iso"@.len() as int)
    };
    if !text::starts_with(name, "planar"@) && !text::starts_with(name, "iso"@) {
        None
    } else {
        match text::number_of(digits, u32::MAX as nat) {
            Some(b) => if 1 <= b <= 8 {
                Some(b as u32)
            } else {
                None
            },
            None => None,
        }
    }
}

/// The mode that a setting asks for; a trailing `k` leaves the values alone, and anything
/// unknown means single precision.
pub open spec fn mode_of(setting: Option<Seq<char>>) -> KvMode {
    match setting {
        None => KvMode::F32,
        Some(v) => if v == "f16"@ {
            KvMode::F16
        } else {
            let k_only = v.len() > 0 && v.last() == 'k';
            let name = if k_only {
                v.drop_last()
            } else {
                v
            };
            match planar_bits(name) {
                Some(bits) => KvMode::Planar { bits, k_only },
                None => KvMode::F32,
            }
        },
    }
}

fn planar_width(name: &str) -> (r: Option<u32>)
    ensures
        r == planar_bits(name@),
{
    let digits: String = match text::strip_prefix(name, "planar") {
        Some(d) => d,
        None => match text::strip_prefix(name, "iso") {
            Some(d) => d,
            None => {
                return None;
            },
        },
    };
    match text::parse_uint(digits.as_str(), u32::MAX as u64) {
        Some(b) => {
            if 1 <= b && b <= 8 {
                Some(b as u32)
            } else {
                None
            }
        },
        None => None,
    }
}

/// The mode that a setting asks for.
pub fn mode_from_env(setting: Option<&str>) -> (r: KvMode)
    ensures
        r == mode_of(
            match setting {
                Some(v) => Some(v@),
                None => None,
            },
        ),
{
    let v: &str = match setting {
        Some(v) => v,
        None => {
            return KvMode::F32;
        },
    };
    if text::same(v, "f16") {
        return KvMode::F16;
    }
    let cs: Vec<char> = text::chars_of(v);
    let n: usize = cs.len();
    let k_only: bool = n > 0 && cs[n - 1] == 'k';
    let end: usize = if k_only {
        n - 1
    } else {
        n
    };
    let name: String = text::string_of(vstd::slice::slice_subrange(cs.as_slice(), 0, end));
    assert(k_only ==> name@ =~= v@.drop_last());
    assert(!k_only ==> name@ =~= v@);
    match planar_width(name.as_str()) {
        Some(bits) => KvMode::Planar { bits, k_only },
        None => KvMode::F32,
    }
}

/// The quantizers of keys and of values in a mode.
pub open spec fn quantizers(mode: KvMode, hd: usize) -> (Option<PlanarQuant>, Option<PlanarQuant>) {
    match mode {
        KvMode::Planar { bits, k_only } => (
            Some(planar(hd, bits)),
            if k_only {
                None
            } else {
                Some(planar(hd, bits))
            },
        ),
        _ => (None, None),
    }
}

/// The quantizers of keys and of values in a mode.
pub fn quantizers_for(mode: KvMode, hd: usize) -> (r: (Option<PlanarQuant>, Option<PlanarQuant>))
    requires
        hd < usize::MAX,
        mode matches KvMode::Planar { bits, .. } ==> 1 <= bits <= 8,
    ensures
        r == quantizers(mode, hd),
{
    match mode {
        KvMode::Planar { bits, k_only } => {
            let k = PlanarQuant::new(hd, bits);
            (
                Some(k),
                if k_only {
                    None
                } else {
                    Some(k)
                },
            )
        },
        _ => (None, None),
    }
}

/// The quantizers of keys and of values that a setting asks for.
pub fn from_env(hd: usize, setting: Option<&str>) -> (r: (Option<PlanarQuant>, Option<PlanarQuant>))
    requires
        hd < usize::MAX,
    ensures
        r == quantizers(
            mode_of(
                match setting {
                    Some(v) => Some(v@),
                    None => None,
                },
            ),
            hd,
        ),
{
    quantizers_for(mode_from_env(setting), hd)
}

} // verus!
