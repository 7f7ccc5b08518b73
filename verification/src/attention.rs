//! Attention over quantized keys and values.
//!
//! Keys and values are held rotated: a query is rotated once and scored against the levels of
//! the keys, and the levels of the values are summed before the sum is rotated back once.

use vstd::prelude::*;

use crate::config::Qwen35;
use crate::dots;
use crate::forward;
use crate::forward::{AttnCache, HeadLoop};
use crate::kvquant;
use crate::kvquant::PlanarQuant;
use crate::norms;
use crate::planar;
use crate::single;

verus! {

/// Bytes of one vector's packed places.
pub open spec fn row_len(p: PlanarQuant) -> int {
    kvquant::packed_size(p.hd_padded as int, p.bits as int)
}

/// The packed places of head `kv` of token `j`.
pub open spec fn packed_row(packed: Seq<u8>, j: int, kv: int, n_kv: int, len: int) -> Seq<u8> {
    packed.subrange((j * n_kv + kv) * len, (j * n_kv + kv) * len + len)
}

/// A layer's packed rows and norms cover `n` tokens.
pub open spec fn covers(p: PlanarQuant, packed: Seq<u8>, norms: Seq<u32>, n: int, n_kv: int) -> bool {
    &&& n * n_kv <= norms.len()
    &&& (n * n_kv) * row_len(p) <= packed.len()
}

/// A codebook and a rotation table serve a quantizer.
pub open spec fn serves(p: PlanarQuant, levels: Seq<u32>, table: Seq<(u32, u32)>) -> bool {
    &&& planar::usable(p)
    &&& levels.len() == 1u32 << p.bits
    &&& table.len() >= p.n_groups
}

/// The score of a rotated query against head `kv` of token `j`.
pub open spec fn planar_score(
    p: PlanarQuant,
    q: Seq<u32>,
    packed: Seq<u8>,
    norms: Seq<u32>,
    levels: Seq<u32>,
    j: int,
    kv: int,
    n_kv: int,
    scale: u32,
) -> u32 {
    let row = packed_row(packed, j, kv, n_kv, row_len(p));
    single::product_of(
        single::product_of(
            planar::levels_dot(q, planar::levels_at(p, row, levels), p.hd_padded as int),
            norms[j * n_kv + kv],
        ),
        scale,
    )
}

/// The sum over the first `n` tokens of coordinate `d` of their levels, each times its
/// probability and norm; a token without a probability adds nothing.
pub open spec fn planar_sum(
    p: PlanarQuant,
    probs: Seq<u32>,
    packed: Seq<u8>,
    norms: Seq<u32>,
    levels: Seq<u32>,
    n: int,
    kv: int,
    n_kv: int,
    d: int,
) -> u32
    decreases n,
{
    if n <= 0 {
        0
    } else {
        let before = planar_sum(p, probs, packed, norms, levels, n - 1, kv, n_kv, d);
        if single::mag(probs[n - 1]) == 0 {
            before
        } else {
            let row = packed_row(packed, n - 1, kv, n_kv, row_len(p));
            single::sum_of(
                before,
                single::product_of(
                    single::product_of(probs[n - 1], norms[(n - 1) * n_kv + kv]),
                    planar::levels_at(p, row, levels)[d],
                ),
            )
        }
    }
}

/// The sums of all coordinates, with zeros to whole pairs.
pub open spec fn planar_sums(
    p: PlanarQuant,
    probs: Seq<u32>,
    packed: Seq<u8>,
    norms: Seq<u32>,
    levels: Seq<u32>,
    n: int,
    kv: int,
    n_kv: int,
) -> Seq<u32> {
    Seq::new(
        p.hd_padded as nat,
        |d: int|
            if d < p.hd {
                planar_sum(p, probs, packed, norms, levels, n, kv, n_kv, d)
            } else {
                0
            },
    )
}

/// A head's output: the sums, rotated back.
pub open spec fn planar_mixed(
    p: PlanarQuant,
    probs: Seq<u32>,
    packed: Seq<u8>,
    norms: Seq<u32>,
    levels: Seq<u32>,
    table: Seq<(u32, u32)>,
    kv: int,
    n_kv: int,
) -> Seq<u32> {
    planar::unrotated(
        planar_sums(p, probs, packed, norms, levels, probs.len() as int, kv, n_kv),
        table,
        p.n_groups as int,
    ).take(p.hd as int)
}

proof fn lemma_row(j: int, n: int, kv: int, n_kv: int, len: int)
    requires
        0 <= j < n,
        0 <= kv < n_kv,
        0 <= len,
    ensures
        0 <= j * n_kv,
        0 <= j * n_kv + kv < n * n_kv,
        0 <= (j * n_kv + kv) * len,
        (j * n_kv + kv) * len + len <= (n * n_kv) * len,
{
    assert(0 <= j * n_kv && j * n_kv + n_kv <= n * n_kv) by (nonlinear_arith)
        requires
            0 <= j < n,
            0 <= n_kv,
    ;
    dots::lemma_row_end(j * n_kv + kv, n * n_kv, len);
}

proof fn lemma_row_holds(p: PlanarQuant)
    requires
        planar::usable(p),
    ensures
        p.hd_padded * p.bits <= row_len(p) * 8,
        row_len(p) >= 0,
        p.hd <= p.hd_padded,
{
    let n = p.hd_padded * p.bits;
    assert(n >= 0) by (nonlinear_arith)
        requires
            n == p.hd_padded * p.bits,
    ;
}

fn row_of<'a>(
    p: &PlanarQuant,
    packed: &'a Vec<u8>,
    j: usize,
    kv: usize,
    n_kv: usize,
    Ghost(n): Ghost<int>,
) -> (r: &'a [u8])
    requires
        planar::usable(*p),
        j < n,
        kv < n_kv,
        n * n_kv <= usize::MAX,
        (n * n_kv) * row_len(*p) <= packed@.len(),
    ensures
        r@ == packed_row(packed@, j as int, kv as int, n_kv as int, row_len(*p)),
        r@.len() == row_len(*p),
{
    let size: usize = packed.len();
    let len: usize = p.packed_len();
    proof {
        lemma_row(j as int, n, kv as int, n_kv as int, len as int);
        lemma_row_holds(*p);
    }
    let at: usize = (j * n_kv + kv) * len;
    vstd::slice::slice_subrange(packed.as_slice(), at, at + len)
}

impl AttnCache {
    /// The layer's keys are quantized and cover `n` tokens.
    pub open spec fn keys_quantized(&self, p: PlanarQuant, il: int, n: int) -> bool {
        &&& self.wf()
        &&& self.pq == Some(p)
        &&& p.hd == self.hd
        &&& 0 <= il < self.k@.len()
        &&& covers(p, self.kq@[il]@, self.kn@[il]@, n, self.n_kv as int)
    }

    /// The layer's values are quantized and cover `n` tokens.
    pub open spec fn values_quantized(&self, p: PlanarQuant, il: int, n: int) -> bool {
        &&& self.wf()
        &&& self.pqv == Some(p)
        &&& p.hd == self.hd
        &&& 0 <= il < self.k@.len()
        &&& covers(p, self.vq@[il]@, self.vn@[il]@, n, self.n_kv as int)
    }

    /// Scores a head's query against the first `n` tokens of a layer's quantized keys.
    pub fn planar_scores(
        &self,
        p: &PlanarQuant,
        il: usize,
        q: &[u32],
        kv: usize,
        n: usize,
        scale: u32,
        levels: &[u32],
        table: &[(u32, u32)],
    ) -> (r: Vec<u32>)
        requires
            self.keys_quantized(*p, il as int, n as int),
            serves(*p, levels@, table@),
            q@.len() == self.hd,
            kv < self.n_kv,
        ensures
            r@ == Seq::new(
                n as nat,
                |j: int|
                    planar_score(
                        *p,
                        planar::rotated(q@, table@, p.n_groups as int),
                        self.kq@[il as int]@,
                        self.kn@[il as int]@,
                        levels@,
                        j,
                        kv as int,
                        self.n_kv as int,
                        scale,
                    ),
            ),
    {
        let n_kv: usize = self.n_kv;
        let packed: &Vec<u8> = &self.kq[il];
        let norms: &Vec<u32> = &self.kn[il];
        let size: usize = norms.len();
        let mut rot: Vec<u32> = Vec::new();
        let mut i: usize = 0;
        while i < p.hd_padded
            invariant
                i <= p.hd_padded,
                rot@.len() == i,
            decreases p.hd_padded - i,
        {
            rot.push(0);
            i += 1;
        }
        p.rotate(q, table, rot.as_mut_slice());
        let ghost turned = planar::rotated(q@, table@, p.n_groups as int);
        assert(rot@ =~= turned);
        let mut out: Vec<u32> = Vec::new();
        let mut j: usize = 0;
        while j < n
            invariant
                j <= n,
                serves(*p, levels@, table@),
                rot@ == turned,
                turned.len() == p.hd_padded,
                kv < n_kv,
                size == norms@.len(),
                n * n_kv <= size,
                (n * n_kv) * row_len(*p) <= packed@.len(),
                out@.len() == j,
                forall|i: int|
                    0 <= i < j ==> #[trigger] out@[i] == planar_score(
                        *p,
                        turned,
                        packed@,
                        norms@,
                        levels@,
                        i,
                        kv as int,
                        n_kv as int,
                        scale,
                    ),
            decreases n - j,
        {
            proof {
                lemma_row(j as int, n as int, kv as int, n_kv as int, row_len(*p));
                lemma_row_holds(*p);
            }
            let row: &[u8] = row_of(p, packed, j, kv, n_kv, Ghost(n as int));
            let dot: u32 = p.dot_rotated(rot.as_slice(), row, norms[j * n_kv + kv], levels);
            out.push(single::product(dot, scale));
            j += 1;
        }
        assert(out@ =~= Seq::new(
            n as nat,
            |j: int|
                planar_score(
                    *p,
                    turned,
                    packed@,
                    norms@,
                    levels@,
                    j,
                    kv as int,
                    n_kv as int,
                    scale,
                ),
        ));
        out
    }

    /// Mixes the quantized values of a layer's tokens by their probabilities.
    pub fn planar_mix(
        &self,
        p: &PlanarQuant,
        il: usize,
        probs: &[u32],
        kv: usize,
        levels: &[u32],
        table: &[(u32, u32)],
    ) -> (r: Vec<u32>)
        requires
            self.values_quantized(*p, il as int, probs@.len() as int),
            serves(*p, levels@, table@),
            kv < self.n_kv,
        ensures
            r@ == planar_mixed(
                *p,
                probs@,
                self.vq@[il as int]@,
                self.vn@[il as int]@,
                levels@,
                table@,
                kv as int,
                self.n_kv as int,
            ),
            r@.len() == self.hd,
    {
        let n: usize = probs.len();
        let n_kv: usize = self.n_kv;
        let packed: &Vec<u8> = &self.vq[il];
        let norms: &Vec<u32> = &self.vn[il];
        let size: usize = norms.len();
        let hd: usize = p.hd;
        let padded: usize = p.hd_padded;
        proof {
            lemma_row_holds(*p);
        }
        let mut acc: Vec<u32> = Vec::new();
        let mut i: usize = 0;
        while i < padded
            invariant
                i <= padded,
                acc@.len() == i,
                forall|d: int| 0 <= d < i ==> #[trigger] acc@[d] == 0,
            decreases padded - i,
        {
            acc.push(0);
            i += 1;
        }
        let mut held: Vec<u32> = Vec::new();
        i = 0;
        while i < padded
            invariant
                i <= padded,
                held@.len() == i,
            decreases padded - i,
        {
            held.push(0);
            i += 1;
        }
        let mut j: usize = 0;
        while j < n
            invariant
                j <= n,
                n == probs@.len(),
                serves(*p, levels@, table@),
                hd == p.hd,
                padded == p.hd_padded,
                hd <= padded,
                kv < n_kv,
                size == norms@.len(),
                n * n_kv <= size,
                (n * n_kv) * row_len(*p) <= packed@.len(),
                p.hd_padded * p.bits <= row_len(*p) * 8,
                held@.len() == padded,
                acc@.len() == padded,
                forall|d: int|
                    0 <= d < padded ==> #[trigger] acc@[d] == planar_sums(
                        *p,
                        probs@,
                        packed@,
                        norms@,
                        levels@,
                        j as int,
                        kv as int,
                        n_kv as int,
                    )[d],
            decreases n - j,
        {
            let pj: u32 = probs[j];
            if pj % single::SIGN != 0 {
                proof {
                    lemma_row(j as int, n as int, kv as int, n_kv as int, row_len(*p));
                }
                let row: &[u8] = row_of(p, packed, j, kv, n_kv, Ghost(n as int));
                p.unpack_centroids_into(row, levels, held.as_mut_slice());
                let ghost lv = planar::levels_at(*p, row@, levels@);
                assert(held@ =~= lv);
                let w: u32 = single::product(pj, norms[j * n_kv + kv]);
                let ghost before = acc@;
                let mut d: usize = 0;
                while d < hd
                    invariant
                        d <= hd <= padded,
                        held@ == lv,
                        lv.len() == padded,
                        acc@.len() == padded,
                        before.len() == padded,
                        forall|k: int|
                            0 <= k < d ==> #[trigger] acc@[k] == single::sum_of(
                                before[k],
                                single::product_of(w, lv[k]),
                            ),
                        forall|k: int| d <= k < padded ==> #[trigger] acc@[k] == before[k],
                    decreases hd - d,
                {
                    let s: u32 = single::sum(acc[d], single::product(w, held[d]));
                    acc.set(d, s);
                    d += 1;
                }
                assert forall|d: int| 0 <= d < padded implies #[trigger] acc@[d] == planar_sums(
                    *p,
                    probs@,
                    packed@,
                    norms@,
                    levels@,
                    j + 1,
                    kv as int,
                    n_kv as int,
                )[d] by {
                    assert(before[d] == planar_sums(
                        *p,
                        probs@,
                        packed@,
                        norms@,
                        levels@,
                        j as int,
                        kv as int,
                        n_kv as int,
                    )[d]);
                }
            }
            j += 1;
        }
        let ghost sums = planar_sums(
            *p,
            probs@,
            packed@,
            norms@,
            levels@,
            n as int,
            kv as int,
            n_kv as int,
        );
        assert(acc@ =~= sums);
        p.rotate_inv_inplace(acc.as_mut_slice(), table);
        assert(acc@ =~= planar::unrotated(sums, table@, p.n_groups as int));
        acc.truncate(hd);
        acc
    }
}

// ---- packing a token's heads --------------------------------------------------------------------

/// The packed places of the first `n` heads of a token, one behind the other, each over its norm.
pub open spec fn packs(
    p: PlanarQuant,
    row: Seq<u32>,
    norms: Seq<u32>,
    levels: Seq<u32>,
    table: Seq<(u32, u32)>,
    packed: Seq<u8>,
    n: int,
) -> bool {
    &&& packed.len() == n * row_len(p)
    &&& forall|h: int|
        0 <= h < n ==> head_packed(
            p,
            dots::column(row, h, p.hd as int),
            norms[h],
            levels,
            table,
            #[trigger] head_bytes(p, packed, h),
        )
}

/// The bytes of head `h`.
pub open spec fn head_bytes(p: PlanarQuant, packed: Seq<u8>, h: int) -> Seq<u8> {
    packed.subrange(h * row_len(p), h * row_len(p) + row_len(p))
}

/// `b` holds the places of a vector's levels.
pub open spec fn head_packed(
    p: PlanarQuant,
    x: Seq<u32>,
    norm: u32,
    levels: Seq<u32>,
    table: Seq<(u32, u32)>,
    b: Seq<u8>,
) -> bool {
    forall|k: int|
        0 <= k < p.hd_padded ==> #[trigger] kvquant::packed_at(b, p.bits, k) == kvquant::low_bits(
            planar::places_of(p, x, norm, levels, table)[k],
            p.bits,
        )
}

/// The norms of a token's heads.
pub open spec fn head_norms(row: Seq<u32>, n: int, hd: int) -> Seq<u32> {
    Seq::new(n as nat, |h: int| norms::length_of(dots::column(row, h, hd)))
}

/// Packs a token's heads, and returns their norms.
pub fn pack_heads(
    p: &PlanarQuant,
    row: &[u32],
    n: usize,
    levels: &[u32],
    table: &[(u32, u32)],
) -> (r: (Vec<u8>, Vec<u32>))
    requires
        serves(*p, levels@, table@),
        row@.len() == n * p.hd,
        n * row_len(*p) <= usize::MAX,
    ensures
        r.1@ == head_norms(row@, n as int, p.hd as int),
        packs(*p, row@, r.1@, levels@, table@, r.0@, n as int),
{
    let len: usize = p.packed_len();
    let hd: usize = p.hd;
    let size: usize = row.len();
    proof {
        lemma_row_holds(*p);
        assert(0 * row_len(*p) == 0) by (nonlinear_arith);
    }
    let mut out: Vec<u8> = Vec::new();
    let mut lens: Vec<u32> = Vec::new();
    let mut h: usize = 0;
    while h < n
        invariant
            h <= n,
            lens@ == head_norms(row@, h as int, hd as int),
            len == row_len(*p),
            hd == p.hd,
            size == row@.len(),
            size == n * hd,
            n * len <= usize::MAX,
            p.hd_padded * p.bits <= len * 8,
            serves(*p, levels@, table@),
            packs(*p, row@, lens@, levels@, table@, out@, h as int),
        decreases n - h,
    {
        proof {
            dots::lemma_row_end(h as int, n as int, hd as int);
            let (a, b, l) = (h as int, hd as int, len as int);
            assert((a + 1) * b == a * b + b && (a + 1) * l == a * l + l) by (nonlinear_arith);
            assert(0 <= a * l) by (nonlinear_arith)
                requires
                    a >= 0,
                    l >= 0,
            ;
        }
        let at: usize = h * hd;
        let x: &[u32] = vstd::slice::slice_subrange(row, at, at + hd);
        assert(x@ =~= dots::column(row@, h as int, hd as int));
        let mut b: Vec<u8> = Vec::new();
        let mut i: usize = 0;
        while i < len
            invariant
                i <= len,
                b@.len() == i,
            decreases len - i,
        {
            b.push(0);
            i += 1;
        }
        let norm: u32 = p.quantize(x, levels, table, b.as_mut_slice());
        let ghost before = lens@;
        lens.push(norm);
        assert(lens@ =~= head_norms(row@, h + 1, hd as int));
        let ghost had = out@;
        let ghost new = b@;
        out.append(&mut b);
        proof {
            assert(out@ == had + new);
            assert forall|g: int| 0 <= g < h + 1 implies head_packed(
                *p,
                dots::column(row@, g, p.hd as int),
                lens@[g],
                levels@,
                table@,
                #[trigger] head_bytes(*p, out@, g),
            ) by {
                let l = len as int;
                if g < h {
                    dots::lemma_row_end(g, h as int, l);
                    assert(lens@[g] == before[g]);
                    assert(head_bytes(*p, out@, g) =~= head_bytes(*p, had, g));
                } else {
                    assert(head_bytes(*p, out@, g) =~= new);
                }
            }
        }
        h += 1;
    }
    (out, lens)
}

impl AttnCache {
    /// Quantizes a token's keys and appends them to a layer: the packed places of every head, and
    /// its norm.
    pub fn append_k_quantized(
        &mut self,
        p: &PlanarQuant,
        il: usize,
        krow: &[u32],
        levels: &[u32],
        table: &[(u32, u32)],
    )
        requires
            old(self).wf(),
            old(self).pq == Some(*p),
            il < old(self).k@.len(),
            serves(*p, levels@, table@),
            krow@.len() == old(self).n_kv * p.hd,
            old(self).n_kv * row_len(*p) <= usize::MAX,
        ensures
            final(self).wf(),
            *final(self) == (AttnCache { kq: final(self).kq, kn: final(self).kn, ..*old(self) }),
            final(self).tokens(il as int) == old(self).tokens(il as int) + 1,
            ({
                let norms = head_norms(krow@, old(self).n_kv as int, p.hd as int);
                &&& forward::grown(old(self).kn@, final(self).kn@, il as int, norms)
                &&& exists|packed: Seq<u8>|
                    #[trigger] forward::grown(old(self).kq@, final(self).kq@, il as int, packed)
                        && packs(
                        *p,
                        krow@,
                        norms,
                        levels@,
                        table@,
                        packed,
                        old(self).n_kv as int,
                    )
            }),
    {
        let (packed, lens) = pack_heads(p, krow, self.n_kv, levels, table);
        self.append_k_packed(il, packed.as_slice(), lens.as_slice());
    }

    /// Quantizes a token's values and appends them to a layer.
    pub fn append_v_quantized(
        &mut self,
        p: &PlanarQuant,
        il: usize,
        vrow: &[u32],
        levels: &[u32],
        table: &[(u32, u32)],
    )
        requires
            old(self).wf(),
            old(self).pqv == Some(*p),
            il < old(self).k@.len(),
            serves(*p, levels@, table@),
            vrow@.len() == old(self).n_kv * p.hd,
            old(self).n_kv * row_len(*p) <= usize::MAX,
        ensures
            final(self).wf(),
            *final(self) == (AttnCache { vq: final(self).vq, vn: final(self).vn, ..*old(self) }),
            ({
                let norms = head_norms(vrow@, old(self).n_kv as int, p.hd as int);
                &&& forward::grown(old(self).vn@, final(self).vn@, il as int, norms)
                &&& exists|packed: Seq<u8>|
                    #[trigger] forward::grown(old(self).vq@, final(self).vq@, il as int, packed)
                        && packs(
                        *p,
                        vrow@,
                        norms,
                        levels@,
                        table@,
                        packed,
                        old(self).n_kv as int,
                    )
            }),
    {
        let (packed, lens) = pack_heads(p, vrow, self.n_kv, levels, table);
        self.append_v_packed(il, packed.as_slice(), lens.as_slice());
    }
}

// ---- the loop over heads -------------------------------------------------------------------------

impl HeadLoop {
    /// The scores of the head against quantized keys.
    pub fn planar_scores(
        &self,
        cfg: &Qwen35,
        c: &AttnCache,
        p: &PlanarQuant,
        q: &[u32],
        scale: u32,
        levels: &[u32],
        table: &[(u32, u32)],
    ) -> (r: Vec<u32>)
        requires
            self.seated(*cfg, *c),
            c.keys_quantized(*p, self.il as int, self.n_pos as int),
            serves(*p, levels@, table@),
            q@.len() == cfg.n_head * cfg.n_embd_head,
        ensures
            r@ == Seq::new(
                self.n_pos as nat,
                |j: int|
                    planar_score(
                        *p,
                        planar::rotated(
                            dots::column(q@, self.h as int, c.hd as int),
                            table@,
                            p.n_groups as int,
                        ),
                        c.kq@[self.il as int]@,
                        c.kn@[self.il as int]@,
                        levels@,
                        j,
                        self.group(*cfg),
                        c.n_kv as int,
                        scale,
                    ),
            ),
    {
        let hd: usize = c.hd;
        let size: usize = q.len();
        let kv: usize = forward::kv_head(cfg, self.h);
        proof {
            dots::lemma_row_end(self.h as int, cfg.n_head as int, hd as int);
            let (a, b) = (self.h as int, hd as int);
            assert((a + 1) * b == a * b + b) by (nonlinear_arith);
        }
        let from: usize = self.h * hd;
        let qh: &[u32] = vstd::slice::slice_subrange(q, from, from + hd);
        assert(qh@ =~= dots::column(q@, self.h as int, hd as int));
        c.planar_scores(p, self.il, qh, kv, self.n_pos, scale, levels, table)
    }

    /// Takes the head's probabilities, mixes its quantized values, and goes on to the next.
    pub fn planar_accept(
        &mut self,
        cfg: &Qwen35,
        c: &AttnCache,
        p: &PlanarQuant,
        probs: &[u32],
        levels: &[u32],
        table: &[(u32, u32)],
    )
        requires
            old(self).seated(*cfg, *c),
            c.values_quantized(*p, old(self).il as int, old(self).n_pos as int),
            serves(*p, levels@, table@),
            probs@.len() == old(self).n_pos,
        ensures
            final(self).il == old(self).il,
            final(self).n_pos == old(self).n_pos,
            final(self).h == old(self).h + 1,
            final(self).out@ == old(self).out@ + planar_mixed(
                *p,
                probs@,
                c.vq@[old(self).il as int]@,
                c.vn@[old(self).il as int]@,
                levels@,
                table@,
                old(self).group(*cfg),
                c.n_kv as int,
            ),
    {
        let kv: usize = forward::kv_head(cfg, self.h);
        let mut row: Vec<u32> = c.planar_mix(p, self.il, probs, kv, levels, table);
        self.out.append(&mut row);
        self.h = self.h + 1;
    }
}

} // verus!
