//! Quantizing key and value vectors: a vector over its norm is rotated in pairs, and each
//! coordinate is held as the place of the nearest level of a codebook.
//!
//! The codebook (ascending levels) and the rotation table (cosine and sine of each pair) are
//! given; all numbers are singles in their bit patterns.

use vstd::prelude::*;

use crate::kvquant;
use crate::kvquant::PlanarQuant;
use crate::norms;
use crate::sampler;
use crate::single;

verus! {

/// Norms no larger than this, ten to the power of minus twelve, count as zero.
pub const TINY: u32 = 0x2B8C_BCCC;

/// A quantizer whose coordinates can be counted in bits.
pub open spec fn usable(p: PlanarQuant) -> bool {
    &&& p.hd < usize::MAX
    &&& p == kvquant::planar(p.hd, p.bits)
    &&& 1 <= p.bits <= 8
    &&& p.hd_padded * p.bits <= usize::MAX
}

/// A number without its sign.
pub open spec fn absolute(b: u32) -> u32 {
    b % 0x8000_0000
}

/// How far a number lies from a level.
pub open spec fn distance(v: u32, level: u32) -> u32 {
    absolute(single::difference_of(v, level))
}

/// The place of the first of the first `n` levels that none of them is nearer than.
pub open spec fn nearest_of(v: u32, levels: Seq<u32>, n: int) -> int
    decreases n,
{
    if n <= 1 {
        0
    } else {
        let best = nearest_of(v, levels, n - 1);
        if sampler::less(distance(v, levels[n - 1]), distance(v, levels[best])) {
            n - 1
        } else {
            best
        }
    }
}

/// No level is nearer than the nearest one, and none in front of it is as near, where every
/// distance is a number.
pub proof fn law_nearest(v: u32, levels: Seq<u32>, n: int, k: int)
    requires
        0 <= k < n <= levels.len(),
        forall|i: int| 0 <= i < n ==> sampler::place(#[trigger] distance(v, levels[i])) is Some,
    ensures
        0 <= nearest_of(v, levels, n) < n,
        !sampler::less(distance(v, levels[k]), distance(v, levels[nearest_of(v, levels, n)])),
        k < nearest_of(v, levels, n) ==> sampler::less(
            distance(v, levels[nearest_of(v, levels, n)]),
            distance(v, levels[k]),
        ),
    decreases n,
{
    if n > 1 {
        if k < n - 1 {
            law_nearest(v, levels, n - 1, k);
        } else {
            law_nearest(v, levels, n - 1, 0);
        }
        let best = nearest_of(v, levels, n - 1);
        assert(sampler::place(distance(v, levels[best])) is Some);
        assert(sampler::place(distance(v, levels[n - 1])) is Some);
        assert(sampler::place(distance(v, levels[k])) is Some);
    }
}

proof fn lemma_nearest_range(v: u32, levels: Seq<u32>, n: int)
    requires
        n >= 1,
    ensures
        0 <= nearest_of(v, levels, n) < n,
    decreases n,
{
    if n > 1 {
        lemma_nearest_range(v, levels, n - 1);
    }
}

/// Element `k` of a vector, zero behind its end.
pub open spec fn at(x: Seq<u32>, k: int) -> u32 {
    if 0 <= k < x.len() {
        x[k]
    } else {
        0
    }
}

/// Coordinate `k` of a vector rotated by the table's angles.
pub open spec fn rotated_at(x: Seq<u32>, table: Seq<(u32, u32)>, k: int) -> u32 {
    let (c, s) = table[k / 2];
    let a = at(x, k - k % 2);
    let b = at(x, k - k % 2 + 1);
    if k % 2 == 0 {
        single::difference_of(single::product_of(c, a), single::product_of(s, b))
    } else {
        single::sum_of(single::product_of(s, a), single::product_of(c, b))
    }
}

/// Coordinate `k` of a vector rotated back.
pub open spec fn unrotated_at(x: Seq<u32>, table: Seq<(u32, u32)>, k: int) -> u32 {
    let (c, s) = table[k / 2];
    let a = at(x, k - k % 2);
    let b = at(x, k - k % 2 + 1);
    if k % 2 == 0 {
        single::sum_of(single::product_of(c, a), single::product_of(s, b))
    } else {
        single::sum_of(
            single::product_of(single::flipped(s), a),
            single::product_of(c, b),
        )
    }
}

/// A vector rotated in `groups` pairs.
pub open spec fn rotated(x: Seq<u32>, table: Seq<(u32, u32)>, groups: int) -> Seq<u32> {
    Seq::new((2 * groups) as nat, |k: int| rotated_at(x, table, k))
}

/// A vector rotated back in `groups` pairs.
pub open spec fn unrotated(x: Seq<u32>, table: Seq<(u32, u32)>, groups: int) -> Seq<u32> {
    Seq::new((2 * groups) as nat, |k: int| unrotated_at(x, table, k))
}

/// What a norm divides by: nothing is left of a vector of no length.
pub open spec fn inverse_of(norm: u32) -> u32 {
    if sampler::less(TINY, norm) {
        single::quotient_of(single::ONE, norm)
    } else {
        0
    }
}

/// A vector over its norm, with zeros to whole pairs.
pub open spec fn unit_of(x: Seq<u32>, norm: u32, hd: int, padded: int) -> Seq<u32> {
    Seq::new(
        padded as nat,
        |k: int|
            if k < hd {
                single::product_of(x[k], inverse_of(norm))
            } else {
                0
            },
    )
}

/// The places of the levels that a vector is held as.
pub open spec fn places_of(
    p: PlanarQuant,
    x: Seq<u32>,
    norm: u32,
    levels: Seq<u32>,
    table: Seq<(u32, u32)>,
) -> Seq<u8> {
    let r = rotated(unit_of(x, norm, p.hd as int, p.hd_padded as int), table, p.n_groups as int);
    Seq::new(
        p.hd_padded as nat,
        |k: int| nearest_of(r[k], levels, levels.len() as int) as u8,
    )
}

/// The levels at the places that packed bytes hold.
pub open spec fn levels_at(p: PlanarQuant, packed: Seq<u8>, levels: Seq<u32>) -> Seq<u32> {
    Seq::new(
        p.hd_padded as nat,
        |k: int| levels[kvquant::packed_at(packed, p.bits, k) as int],
    )
}

/// The vector that packed bytes and a norm stand for.
pub open spec fn restored(
    p: PlanarQuant,
    packed: Seq<u8>,
    norm: u32,
    levels: Seq<u32>,
    table: Seq<(u32, u32)>,
) -> Seq<u32> {
    let un = unrotated(levels_at(p, packed, levels), table, p.n_groups as int);
    Seq::new(p.hd as nat, |k: int| single::product_of(un[k], norm))
}

/// The sum of the products of a rotated vector with the levels of another.
pub open spec fn levels_dot(q: Seq<u32>, w: Seq<u32>, n: int) -> u32
    decreases n,
{
    if n <= 0 {
        0
    } else {
        single::sum_of(levels_dot(q, w, n - 1), single::product_of(q[n - 1], w[n - 1]))
    }
}

/// What was quantized is restored from the nearest levels: packing loses nothing of their
/// places.
pub proof fn law_packing_keeps_places(
    p: PlanarQuant,
    x: Seq<u32>,
    norm: u32,
    levels: Seq<u32>,
    table: Seq<(u32, u32)>,
    packed: Seq<u8>,
    k: int,
)
    requires
        usable(p),
        levels.len() == 1u32 << p.bits,
        0 <= k < p.hd_padded,
        kvquant::packed_at(packed, p.bits, k) == kvquant::low_bits(
            places_of(p, x, norm, levels, table)[k],
            p.bits,
        ),
    ensures
        ({
            let r = rotated(
                unit_of(x, norm, p.hd as int, p.hd_padded as int),
                table,
                p.n_groups as int,
            );
            levels_at(p, packed, levels)[k] == levels[nearest_of(
                r[k],
                levels,
                levels.len() as int,
            )]
        }),
{
    let r = rotated(unit_of(x, norm, p.hd as int, p.hd_padded as int), table, p.n_groups as int);
    lemma_level_count(p.bits);
    lemma_nearest_range(r[k], levels, levels.len() as int);
    kvquant::law_low_bits_identity(places_of(p, x, norm, levels, table)[k], p.bits);
}

proof fn lemma_level_count(bits: u32)
    requires
        1 <= bits <= 8,
    ensures
        2 <= 1u32 << bits <= 256,
{
    assert(2 <= 1u32 << bits && 1u32 << bits <= 256) by (bit_vector)
        requires
            1 <= bits <= 8,
    ;
}

proof fn lemma_packed_range(packed: Seq<u8>, bits: u32, k: int)
    requires
        1 <= bits <= 8,
    ensures
        (kvquant::packed_at(packed, bits, k) as u32) < (1u32 << bits),
{
    let at = k * bits;
    let a = kvquant::byte_at(packed, at / 8);
    let b = kvquant::byte_at(packed, at / 8 + 1);
    lemma_field_range(a, b, (at % 8) as u32, bits);
}

proof fn lemma_field_range(a: u8, b: u8, off: u32, bits: u32)
    by (bit_vector)
    requires
        1 <= bits <= 8,
        off < 8,
    ensures
        (kvquant::field(a, b, off, bits) as u32) < (1u32 << bits),
{
}

/// The place of the level that is nearest to a number; of equally near ones the first.
pub fn nearest(levels: &[u32], v: u32) -> (r: u8)
    requires
        1 <= levels@.len() <= 256,
    ensures
        r == nearest_of(v, levels@, levels@.len() as int),
        r < levels@.len(),
{
    let n: usize = levels.len();
    let mut best: usize = 0;
    let mut i: usize = 1;
    while i < n
        invariant
            1 <= i <= n,
            n == levels@.len(),
            best < i,
            best == nearest_of(v, levels@, i as int),
        decreases n - i,
    {
        let d: u32 = single::difference(v, levels[i]) % 0x8000_0000;
        let e: u32 = single::difference(v, levels[best]) % 0x8000_0000;
        if sampler::single_less(d, e) {
            best = i;
        }
        i += 1;
    }
    best as u8
}

fn value_at(x: &[u32], k: usize) -> (r: u32)
    ensures
        r == at(x@, k as int),
{
    if k < x.len() {
        x[k]
    } else {
        0
    }
}

/// Writes `v` over the front of `out`.
fn write_over(out: &mut [u32], v: &Vec<u32>)
    requires
        v@.len() <= old(out)@.len(),
    ensures
        final(out)@ == v@ + old(out)@.skip(v@.len() as int),
{
    let n: usize = v.len();
    let mut i: usize = 0;
    assert(out@ =~= v@.take(0) + old(out)@.skip(0));
    while i < n
        invariant
            i <= n,
            n == v@.len(),
            n <= out@.len(),
            out@.len() == old(out)@.len(),
            out@ == v@.take(i as int) + old(out)@.skip(i as int),
        decreases n - i,
    {
        out[i] = v[i];
        i += 1;
        assert(out@ =~= v@.take(i as int) + old(out)@.skip(i as int));
    }
    assert(v@.take(n as int) =~= v@);
}

impl PlanarQuant {
    fn turned(&self, x: &[u32], table: &[(u32, u32)]) -> (r: Vec<u32>)
        requires
            usable(*self),
            table@.len() >= self.n_groups,
        ensures
            r@ == rotated(x@, table@, self.n_groups as int),
    {
        let mut out: Vec<u32> = Vec::new();
        let mut i: usize = 0;
        while i < self.n_groups
            invariant
                usable(*self),
                i <= self.n_groups <= table@.len(),
                2 * self.n_groups == self.hd_padded,
                out@ == rotated(x@, table@, i as int),
            decreases self.n_groups - i,
        {
            let (c, s): (u32, u32) = table[i];
            let a: u32 = value_at(x, 2 * i);
            let b: u32 = value_at(x, 2 * i + 1);
            out.push(single::difference(single::product(c, a), single::product(s, b)));
            out.push(single::sum(single::product(s, a), single::product(c, b)));
            proof {
                assert(2 * i / 2 == i && (2 * i + 1) / 2 == i);
                assert(out@ =~= rotated(x@, table@, i + 1));
            }
            i += 1;
        }
        out
    }

    fn turned_back(&self, x: &[u32], table: &[(u32, u32)]) -> (r: Vec<u32>)
        requires
            usable(*self),
            table@.len() >= self.n_groups,
        ensures
            r@ == unrotated(x@, table@, self.n_groups as int),
    {
        let mut out: Vec<u32> = Vec::new();
        let mut i: usize = 0;
        while i < self.n_groups
            invariant
                usable(*self),
                i <= self.n_groups <= table@.len(),
                2 * self.n_groups == self.hd_padded,
                out@ == unrotated(x@, table@, i as int),
            decreases self.n_groups - i,
        {
            let (c, s): (u32, u32) = table[i];
            let a: u32 = value_at(x, 2 * i);
            let b: u32 = value_at(x, 2 * i + 1);
            let t: u32 = if s >= 0x8000_0000 {
                s - 0x8000_0000
            } else {
                s + 0x8000_0000
            };
            out.push(single::sum(single::product(c, a), single::product(s, b)));
            out.push(single::sum(single::product(t, a), single::product(c, b)));
            proof {
                assert(2 * i / 2 == i && (2 * i + 1) / 2 == i);
                assert(out@ =~= unrotated(x@, table@, i + 1));
            }
            i += 1;
        }
        out
    }

    /// Rotates a vector by the table's angles into the front of `out`.
    pub fn rotate(&self, x: &[u32], table: &[(u32, u32)], out: &mut [u32])
        requires
            usable(*self),
            table@.len() >= self.n_groups,
            old(out)@.len() >= self.hd_padded,
        ensures
            final(out)@ == rotated(x@, table@, self.n_groups as int) + old(out)@.skip(
                self.hd_padded as int,
            ),
    {
        let v: Vec<u32> = self.turned(x, table);
        write_over(out, &v);
    }

    /// Rotates a vector back into the front of `out`.
    pub fn rotate_inv(&self, x: &[u32], table: &[(u32, u32)], out: &mut [u32])
        requires
            usable(*self),
            table@.len() >= self.n_groups,
            old(out)@.len() >= self.hd_padded,
        ensures
            final(out)@ == unrotated(x@, table@, self.n_groups as int) + old(out)@.skip(
                self.hd_padded as int,
            ),
    {
        let v: Vec<u32> = self.turned_back(x, table);
        write_over(out, &v);
    }

    /// Rotates the front of a vector back in place.
    pub fn rotate_inv_inplace(&self, x: &mut [u32], table: &[(u32, u32)])
        requires
            usable(*self),
            table@.len() >= self.n_groups,
            old(x)@.len() >= self.hd_padded,
        ensures
            final(x)@ == unrotated(old(x)@, table@, self.n_groups as int) + old(x)@.skip(
                self.hd_padded as int,
            ),
    {
        let v: Vec<u32> = self.turned_back(x, table);
        write_over(x, &v);
    }

    /// Packs the places of the levels nearest to the rotated vector, and returns the norm that
    /// the vector was divided by.
    pub fn quantize(
        &self,
        x: &[u32],
        levels: &[u32],
        table: &[(u32, u32)],
        packed: &mut [u8],
    ) -> (norm: u32)
        requires
            usable(*self),
            x@.len() >= self.hd,
            levels@.len() == 1u32 << self.bits,
            table@.len() >= self.n_groups,
            self.hd_padded * self.bits <= old(packed)@.len() * 8,
        ensures
            norm == norms::length_of(x@),
            final(packed)@.len() == old(packed)@.len(),
            forall|k: int|
                0 <= k < self.hd_padded ==> #[trigger] kvquant::packed_at(
                    final(packed)@,
                    self.bits,
                    k,
                ) == kvquant::low_bits(places_of(*self, x@, norm, levels@, table@)[k], self.bits),
            forall|k: int|
                self.hd_padded * self.bits / 8 < k < final(packed)@.len()
                    ==> #[trigger] final(packed)@[k] == 0,
    {
        let norm: u32 = norms::length(x);
        let inv: u32 = if sampler::single_less(TINY, norm) {
            single::quotient(single::ONE, norm)
        } else {
            0
        };
        let padded: usize = self.hd_padded;
        let mut unit: Vec<u32> = Vec::new();
        let mut i: usize = 0;
        while i < padded
            invariant
                i <= padded,
                padded == self.hd_padded,
                self.hd <= x@.len(),
                inv == inverse_of(norm),
                unit@.len() == i,
                forall|k: int|
                    0 <= k < i ==> #[trigger] unit@[k] == unit_of(
                        x@,
                        norm,
                        self.hd as int,
                        padded as int,
                    )[k],
            decreases padded - i,
        {
            if i < self.hd {
                unit.push(single::product(x[i], inv));
            } else {
                unit.push(0);
            }
            i += 1;
        }
        assert(unit@ =~= unit_of(x@, norm, self.hd as int, padded as int));
        let rot: Vec<u32> = self.turned(unit.as_slice(), table);
        proof {
            lemma_level_count(self.bits);
        }
        let mut idx: Vec<u8> = Vec::new();
        i = 0;
        while i < padded
            invariant
                i <= padded,
                padded == self.hd_padded,
                padded == 2 * self.n_groups,
                rot@ == rotated(
                    unit_of(x@, norm, self.hd as int, padded as int),
                    table@,
                    self.n_groups as int,
                ),
                1 <= levels@.len() <= 256,
                idx@.len() == i,
                forall|k: int|
                    0 <= k < i ==> #[trigger] idx@[k] == places_of(
                        *self,
                        x@,
                        norm,
                        levels@,
                        table@,
                    )[k],
            decreases padded - i,
        {
            idx.push(nearest(levels, rot[i]));
            i += 1;
        }
        kvquant::pack_bits(idx.as_slice(), self.bits, packed);
        norm
    }

    fn held(&self, packed: &[u8], levels: &[u32]) -> (r: Vec<u32>)
        requires
            usable(*self),
            levels@.len() == 1u32 << self.bits,
            self.hd_padded * self.bits <= packed@.len() * 8,
        ensures
            r@ == levels_at(*self, packed@, levels@),
    {
        let padded: usize = self.hd_padded;
        let mut idx: Vec<u8> = Vec::new();
        let mut i: usize = 0;
        while i < padded
            invariant
                i <= padded,
                idx@.len() == i,
            decreases padded - i,
        {
            idx.push(0);
            i += 1;
        }
        kvquant::unpack_bits(packed, self.bits, padded, idx.as_mut_slice());
        let mut out: Vec<u32> = Vec::new();
        i = 0;
        while i < padded
            invariant
                usable(*self),
                i <= padded,
                padded == self.hd_padded,
                idx@.len() == padded,
                levels@.len() == 1u32 << self.bits,
                forall|k: int|
                    0 <= k < padded ==> #[trigger] idx@[k] == kvquant::packed_at(
                        packed@,
                        self.bits,
                        k,
                    ),
                out@.len() == i,
                forall|k: int|
                    0 <= k < i ==> #[trigger] out@[k] == levels_at(*self, packed@, levels@)[k],
            decreases padded - i,
        {
            proof {
                lemma_packed_range(packed@, self.bits, i as int);
            }
            out.push(levels[idx[i] as usize]);
            i += 1;
        }
        assert(out@ =~= levels_at(*self, packed@, levels@));
        out
    }

    /// Writes the levels at the places that packed bytes hold over the front of `out`.
    pub fn unpack_centroids_into(&self, packed: &[u8], levels: &[u32], out: &mut [u32])
        requires
            usable(*self),
            levels@.len() == 1u32 << self.bits,
            self.hd_padded * self.bits <= packed@.len() * 8,
            old(out)@.len() >= self.hd_padded,
        ensures
            final(out)@ == levels_at(*self, packed@, levels@) + old(out)@.skip(
                self.hd_padded as int,
            ),
    {
        let v: Vec<u32> = self.held(packed, levels);
        write_over(out, &v);
    }

    /// Writes the vector that packed bytes and a norm stand for over the front of `out`.
    pub fn dequantize(
        &self,
        packed: &[u8],
        norm: u32,
        levels: &[u32],
        table: &[(u32, u32)],
        out: &mut [u32],
    )
        requires
            usable(*self),
            levels@.len() == 1u32 << self.bits,
            table@.len() >= self.n_groups,
            self.hd_padded * self.bits <= packed@.len() * 8,
            old(out)@.len() >= self.hd,
        ensures
            final(out)@ == restored(*self, packed@, norm, levels@, table@) + old(out)@.skip(
                self.hd as int,
            ),
    {
        let held: Vec<u32> = self.held(packed, levels);
        let un: Vec<u32> = self.turned_back(held.as_slice(), table);
        let mut v: Vec<u32> = Vec::new();
        let mut i: usize = 0;
        while i < self.hd
            invariant
                i <= self.hd <= self.hd_padded,
                self.hd_padded == 2 * self.n_groups,
                un@ == unrotated(
                    levels_at(*self, packed@, levels@),
                    table@,
                    self.n_groups as int,
                ),
                v@.len() == i,
                forall|k: int|
                    0 <= k < i ==> #[trigger] v@[k] == restored(
                        *self,
                        packed@,
                        norm,
                        levels@,
                        table@,
                    )[k],
            decreases self.hd - i,
        {
            v.push(single::product(un[i], norm));
            i += 1;
        }
        assert(v@ =~= restored(*self, packed@, norm, levels@, table@));
        write_over(out, &v);
    }

    /// The product of a rotated vector with a quantized one, which is held rotated: over all the
    /// coordinates of the rotated space, the padding of an odd length included, so that it is the
    /// product of the vectors before rotation.
    pub fn dot_rotated(&self, q_rot: &[u32], packed: &[u8], norm: u32, levels: &[u32]) -> (r: u32)
        requires
            usable(*self),
            q_rot@.len() >= self.hd_padded,
            levels@.len() == 1u32 << self.bits,
            self.hd_padded * self.bits <= packed@.len() * 8,
        ensures
            r == single::product_of(
                levels_dot(q_rot@, levels_at(*self, packed@, levels@), self.hd_padded as int),
                norm,
            ),
    {
        let held: Vec<u32> = self.held(packed, levels);
        let mut acc: u32 = 0;
        let mut i: usize = 0;
        while i < self.hd_padded
            invariant
                i <= self.hd_padded <= q_rot@.len(),
                self.hd_padded <= held@.len(),
                acc == levels_dot(q_rot@, held@, i as int),
            decreases self.hd_padded - i,
        {
            acc = single::sum(acc, single::product(q_rot[i], held[i]));
            i += 1;
        }
        single::product(acc, norm)
    }
}

} // verus!
