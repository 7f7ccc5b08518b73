//! A full-attention layer for one token, between its products with weights.
//!
//! Cosines, sines and powers of e come from outside, and so do the levels and rotations of
//! quantizers.

use vstd::prelude::*;
use vstd::string::*;

use crate::attention;
use crate::config::Qwen35;
use crate::dots;
use crate::forward;
use crate::forward::{AttnCache, HeadLoop, KvForm};
use crate::kvquant::PlanarQuant;
use crate::layers;
use crate::norms;

verus! {

/// The levels and rotations of a quantizer.
#[derive(Debug)]
pub struct Tables {
    pub levels: Vec<u32>,
    pub table: Vec<(u32, u32)>,
}

/// A quantizer, if there is one, has its tables, and a token's rows can be counted.
pub open spec fn served(p: Option<PlanarQuant>, t: Option<Tables>, hd: int, n_kv: int) -> bool {
    match p {
        Some(q) => {
            &&& t matches Some(x)
            &&& attention::serves(q, x.levels@, x.table@)
            &&& q.hd == hd
            &&& n_kv * attention::row_len(q) <= usize::MAX
        },
        None => true,
    }
}

/// `b` holds one more token in layer `il` than `a`, quantized.
pub open spec fn packed_grown(
    p: PlanarQuant,
    t: Tables,
    a: Seq<Vec<u8>>,
    a_norms: Seq<Vec<u32>>,
    b: Seq<Vec<u8>>,
    b_norms: Seq<Vec<u32>>,
    il: int,
    row: Seq<u32>,
    n_kv: int,
) -> bool {
    let norms = attention::head_norms(row, n_kv, p.hd as int);
    &&& forward::grown(a_norms, b_norms, il, norms)
    &&& exists|packed: Seq<u8>|
        #[trigger] forward::grown(a, b, il, packed) && attention::packs(
            p,
            row,
            norms,
            t.levels@,
            t.table@,
            packed,
            n_kv,
        )
}

impl AttnCache {
    /// The cache is one of this configuration, its tables are there, and the layer is one of it.
    pub open spec fn suits(
        &self,
        cfg: Qwen35,
        il: int,
        keys: Option<Tables>,
        values: Option<Tables>,
    ) -> bool {
        &&& self.wf()
        &&& 0 <= il < self.k@.len()
        &&& self.n_kv == cfg.n_head_kv
        &&& self.hd == cfg.n_embd_head
        &&& self.n_kv_elems == cfg.n_head_kv * cfg.n_embd_head
        &&& self.pqv is Some ==> self.pq is Some
        &&& self.pq is Some ==> !self.f16_kv
        &&& served(self.pq, keys, self.hd as int, self.n_kv as int)
        &&& served(self.pqv, values, self.hd as int, self.n_kv as int)
    }

    /// Layer `il` holds `n` tokens, in whatever form.
    pub open spec fn holds(&self, il: int, n: int) -> bool {
        match self.form() {
            KvForm::Singles => self.k@[il]@.len() == n * self.n_kv_elems && self.v@[il]@.len() == n
                * self.n_kv_elems,
            KvForm::Halves => self.k16@[il]@.len() == n * self.n_kv_elems && self.v16@[il]@.len()
                == n * self.n_kv_elems,
            KvForm::Planar { values } => {
                let p = self.pq->0;
                &&& self.kn@[il]@.len() == n * self.n_kv
                &&& self.kq@[il]@.len() == (n * self.n_kv) * attention::row_len(p)
                &&& if values {
                    let q = self.pqv->0;
                    &&& self.vn@[il]@.len() == n * self.n_kv
                    &&& self.vq@[il]@.len() == (n * self.n_kv) * attention::row_len(q)
                } else {
                    self.v@[il]@.len() == n * self.n_kv_elems
                }
            },
        }
    }

    /// `b` holds a token's keys and values behind those of layer `il`, and is otherwise the same.
    pub open spec fn stores(
        &self,
        b: AttnCache,
        il: int,
        k: Seq<u32>,
        v: Seq<u32>,
        keys: Option<Tables>,
        values: Option<Tables>,
    ) -> bool {
        match self.form() {
            KvForm::Singles => {
                &&& forward::grown(self.k@, b.k@, il, k)
                &&& forward::grown(self.v@, b.v@, il, v)
                &&& b == (AttnCache { k: b.k, v: b.v, ..*self })
            },
            KvForm::Halves => {
                &&& forward::grown_halves(self.k16@, b.k16@, il, k)
                &&& forward::grown_halves(self.v16@, b.v16@, il, v)
                &&& b == (AttnCache { k16: b.k16, v16: b.v16, ..*self })
            },
            KvForm::Planar { values: both } => {
                &&& packed_grown(
                    self.pq->0,
                    keys->0,
                    self.kq@,
                    self.kn@,
                    b.kq@,
                    b.kn@,
                    il,
                    k,
                    self.n_kv as int,
                )
                &&& if both {
                    &&& packed_grown(
                        self.pqv->0,
                        values->0,
                        self.vq@,
                    self.vn@,
                        b.vq@,
                    b.vn@,
                        il,
                        v,
                        self.n_kv as int,
                    )
                    &&& b == (AttnCache { kq: b.kq, kn: b.kn, vq: b.vq, vn: b.vn, ..*self })
                } else {
                    &&& forward::grown(self.v@, b.v@, il, v)
                    &&& b == (AttnCache { kq: b.kq, kn: b.kn, v: b.v, ..*self })
                }
            },
        }
    }

    /// Stores a token's keys and values in the form that the cache has.
    fn store(
        &mut self,
        il: usize,
        k: &[u32],
        v: &[u32],
        keys: &Option<Tables>,
        values: &Option<Tables>,
        Ghost(cfg): Ghost<Qwen35>,
    )
        requires
            old(self).suits(cfg, il as int, *keys, *values),
            k@.len() == old(self).n_kv_elems,
            v@.len() == old(self).n_kv_elems,
        ensures
            final(self).suits(cfg, il as int, *keys, *values),
            old(self).stores(*final(self), il as int, k@, v@, *keys, *values),
            final(self).form() == old(self).form(),
    {
        match self.kv_form() {
            KvForm::Singles => {
                self.append(il, k, v);
            },
            KvForm::Halves => {
                self.append_f16(il, k, v);
            },
            KvForm::Planar { .. } => {
                let ghost first = *self;
                match (self.pq, keys) {
                    (Some(p), Some(t)) => {
                        self.append_k_quantized(&p, il, k, t.levels.as_slice(), t.table.as_slice());
                    },
                    _ => {},
                }
                let ghost mid = *self;
                assert(packed_grown(
                    first.pq->0,
                    keys->0,
                    first.kq@,
                    first.kn@,
                    mid.kq@,
                    mid.kn@,
                    il as int,
                    k@,
                    first.n_kv as int,
                ));
                match (self.pqv, values) {
                    (Some(p), Some(t)) => {
                        self.append_v_quantized(&p, il, v, t.levels.as_slice(), t.table.as_slice());
                        assert(packed_grown(
                            first.pqv->0,
                            values->0,
                            first.vq@,
                    first.vn@,
                            self.vq@,
                    self.vn@,
                            il as int,
                            v@,
                            first.n_kv as int,
                        ));
                    },
                    _ => {
                        self.append_v(il, v);
                    },
                }
            },
        }
    }
}

/// A cache that is empty, as a new one and one that was reset are, holds no token in any layer.
pub proof fn law_empty_holds_none(c: AttnCache, il: int)
    requires
        c.wf(),
        c.empty(),
        0 <= il < c.k@.len(),
    ensures
        c.holds(il, 0),
{
    let e = c.n_kv_elems as int;
    let m = c.n_kv as int;
    assert(c.k@[il]@.len() == 0);
    assert(0 * e == 0 && 0 * m == 0) by (nonlinear_arith);
    if c.pq is Some {
        let r = attention::row_len(c.pq->0);
        assert((0 * m) * r == 0) by (nonlinear_arith);
    }
    if c.pqv is Some {
        let r = attention::row_len(c.pqv->0);
        assert((0 * m) * r == 0) by (nonlinear_arith);
    }
}

/// A layer that holds `n` tokens holds one more once a token is stored, in the same form.
pub proof fn law_token_is_one_more(
    a: AttnCache,
    b: AttnCache,
    il: int,
    n: int,
    k: Seq<u32>,
    v: Seq<u32>,
    keys: Option<Tables>,
    values: Option<Tables>,
    cfg: Qwen35,
)
    requires
        a.suits(cfg, il, keys, values),
        a.holds(il, n),
        n >= 0,
        k.len() == a.n_kv_elems,
        v.len() == a.n_kv_elems,
        a.stores(b, il, k, v, keys, values),
    ensures
        b.form() == a.form(),
        b.holds(il, n + 1),
{
    let e = a.n_kv_elems as int;
    let m = a.n_kv as int;
    assert((n + 1) * e == n * e + e) by (nonlinear_arith);
    assert((n + 1) * m == n * m + m) by (nonlinear_arith);
    if a.pq is Some {
        let r = attention::row_len(a.pq->0);
        assert(((n + 1) * m) * r == (n * m) * r + m * r) by (nonlinear_arith);
    }
    if a.pqv is Some {
        let r = attention::row_len(a.pqv->0);
        assert(((n + 1) * m) * r == (n * m) * r + m * r) by (nonlinear_arith);
    }
}

/// The queries in a projection that holds a query and a gate for each head.
pub open spec fn query_part(x: Seq<u32>, n: int, hd: int) -> Seq<u32> {
    Seq::new((n * hd) as nat, |i: int| x[(i / hd) * (2 * hd) + i % hd])
}

/// The gates in such a projection.
pub open spec fn gate_part(x: Seq<u32>, n: int, hd: int) -> Seq<u32> {
    Seq::new((n * hd) as nat, |i: int| x[(i / hd) * (2 * hd) + hd + i % hd])
}

/// Every place is in a head.
proof fn lemma_in_head(i: int, n: int, hd: int)
    requires
        hd > 0,
        0 <= i < n * hd,
    ensures
        0 <= i / hd < n,
        0 <= i % hd < hd,
        dots::place(i / hd, hd, i % hd) == i,
{
    let h = i / hd;
    let j = i % hd;
    vstd::arithmetic::div_mod::lemma_fundamental_div_mod(i, hd);
    vstd::arithmetic::div_mod::lemma_mod_bound(i, hd);
    vstd::arithmetic::div_mod::lemma_div_pos_is_pos(i, hd);
    assert(h < n) by (nonlinear_arith)
        requires
            i == hd * h + j,
            0 <= j,
            i < n * hd,
            hd > 0,
    ;
    assert(hd * h == h * hd) by (nonlinear_arith);
}

fn split(qfull: &[u32], n_head: usize, hd: usize) -> (r: (Vec<u32>, Vec<u32>))
    requires
        hd > 0,
        qfull@.len() == 2 * (n_head * hd),
    ensures
        r.0@ == query_part(qfull@, n_head as int, hd as int),
        r.1@ == gate_part(qfull@, n_head as int, hd as int),
{
    let r = forward::split_gate(qfull, n_head, hd);
    proof {
        let d = hd as int;
        let n = n_head as int;
        assert forall|i: int| 0 <= i < n * d implies #[trigger] r.0@[i] == query_part(
            qfull@,
            n,
            d,
        )[i] by {
            lemma_in_head(i, n, d);
        }
        assert forall|i: int| 0 <= i < n * d implies #[trigger] r.1@[i] == gate_part(
            qfull@,
            n,
            d,
        )[i] by {
            lemma_in_head(i, n, d);
        }
        assert(r.0@ =~= query_part(qfull@, n, d));
        assert(r.1@ =~= gate_part(qfull@, n, d));
    }
    r
}

/// A token in a full-attention layer: its heads attend one after the other.
#[derive(Debug)]
pub struct Attention {
    pub heads: HeadLoop,
    /// The queries, normalized and turned.
    pub q: Vec<u32>,
    pub gate: Vec<u32>,
}

/// Every head of queries has a head of keys.
proof fn lemma_group(cfg: Qwen35, h: int)
    requires
        cfg.sized(),
        0 <= h < cfg.n_head,
    ensures
        0 <= h / (cfg.n_head as int / cfg.n_head_kv as int) < cfg.n_head_kv,
        cfg.n_head_kv <= cfg.n_head,
{
    let n = cfg.n_head as int;
    let m = cfg.n_head_kv as int;
    let r = n / m;
    vstd::arithmetic::div_mod::lemma_fundamental_div_mod(n, m);
    assert(r > 0) by (nonlinear_arith)
        requires
            n == m * r,
            n > 0,
            m > 0,
    ;
    assert(m <= n) by (nonlinear_arith)
        requires
            n == m * r,
            r > 0,
            m > 0,
    ;
    let g = h / r;
    vstd::arithmetic::div_mod::lemma_fundamental_div_mod(h, r);
    vstd::arithmetic::div_mod::lemma_mod_bound(h, r);
    vstd::arithmetic::div_mod::lemma_div_pos_is_pos(h, r);
    assert(g < m) by (nonlinear_arith)
        requires
            h == r * g + h % r,
            0 <= h % r,
            h < n,
            n == m * r,
            r > 0,
    ;
}

/// Takes a token into a full-attention layer: queries and keys are normalized and turned, and
/// keys and values are stored. Projections of other sizes are refused.
pub fn full_attention_layer(
    cfg: &Qwen35,
    il: usize,
    pos: usize,
    qfull: &[u32],
    k: &[u32],
    v: &[u32],
    q_norm: &[u32],
    k_norm: &[u32],
    cos: &[u32],
    sin: &[u32],
    cache: &mut AttnCache,
    keys: &Option<Tables>,
    values: &Option<Tables>,
) -> (r: Result<Attention, String>)
    requires
        cfg.sized(),
        pos < usize::MAX,
        old(cache).suits(*cfg, il as int, *keys, *values),
        old(cache).holds(il as int, pos as int),
        q_norm@.len() == cfg.n_embd_head,
        k_norm@.len() == cfg.n_embd_head,
        cos@.len() == sin@.len(),
        2 * cos@.len() <= cfg.n_embd_head,
    ensures
        ({
            let hd = cfg.n_embd_head as int;
            let right = qfull@.len() == 2 * (cfg.n_head * hd) && k@.len() == cfg.n_head_kv * hd
                && v@.len() == cfg.n_head_kv * hd;
            match r {
                Ok(a) => {
                    &&& right
                    &&& a.heads.il == il
                    &&& a.heads.n_pos == pos + 1
                    &&& a.heads.h == 0
                    &&& a.heads.out@ == Seq::<u32>::empty()
                    &&& a.q@ == layers::readied(
                        query_part(qfull@, cfg.n_head as int, hd),
                        q_norm@,
                        cfg.eps,
                        cos@,
                        sin@,
                    )
                    &&& a.gate@ == gate_part(qfull@, cfg.n_head as int, hd)
                    &&& old(cache).stores(
                        *final(cache),
                        il as int,
                        layers::readied(k@, k_norm@, cfg.eps, cos@, sin@),
                        v@,
                        *keys,
                        *values,
                    )
                    &&& a.ready(*cfg, *final(cache), *keys, *values)
                },
                Err(m) => {
                    &&& !right
                    &&& m@ == forward::attn_rows_text(
                        il as nat,
                        qfull@.len(),
                        k@.len(),
                        v@.len(),
                    )
                    &&& *final(cache) == *old(cache)
                },
            }
        }),
{
    proof {
        lemma_group(*cfg, 0);
        let (a, b, d) = (cfg.n_head_kv as int, cfg.n_head as int, cfg.n_embd_head as int);
        assert(a * d <= b * d) by (nonlinear_arith)
            requires
                a <= b,
                d >= 0,
        ;
    }
    forward::check_attn_rows(cfg, il, qfull.len(), k.len(), v.len())?;
    let (q, gate) = split(qfull, cfg.n_head, cfg.n_embd_head);
    let q: Vec<u32> = layers::ready_heads(q.as_slice(), q_norm, cfg.n_head, cfg.eps, cos, sin);
    let k: Vec<u32> = layers::ready_heads(k, k_norm, cfg.n_head_kv, cfg.eps, cos, sin);
    let ghost first = *cache;
    cache.store(il, k.as_slice(), v, keys, values, Ghost(*cfg));
    proof {
        law_token_is_one_more(
            first,
            *cache,
            il as int,
            pos as int,
            k@,
            v@,
            *keys,
            *values,
            *cfg,
        );
        let d = cfg.n_embd_head as int;
        assert(0 * d == 0) by (nonlinear_arith);
    }
    let heads = HeadLoop::new(il, pos);
    assert(heads.out@ =~= Seq::<u32>::empty());
    Ok(Attention { heads, q, gate })
}

impl Attention {
    /// The queries are those of the configuration, the cache holds every position that is seen,
    /// and the heads before the next one have their outputs.
    pub open spec fn ready(
        &self,
        cfg: Qwen35,
        c: AttnCache,
        keys: Option<Tables>,
        values: Option<Tables>,
    ) -> bool {
        &&& cfg.sized()
        &&& c.suits(cfg, self.heads.il as int, keys, values)
        &&& c.holds(self.heads.il as int, self.heads.n_pos as int)
        &&& self.q@.len() == cfg.n_head * cfg.n_embd_head
        &&& self.gate@.len() == cfg.n_head * cfg.n_embd_head
        &&& self.heads.h <= cfg.n_head
        &&& self.heads.out@.len() == self.heads.h * cfg.n_embd_head
    }

    /// How the next head scores the positions that it sees.
    pub open spec fn scored(
        &self,
        cfg: Qwen35,
        c: AttnCache,
        scale: u32,
        keys: Option<Tables>,
    ) -> Seq<u32> {
        let q = dots::column(self.q@, self.heads.h as int, c.hd as int);
        let il = self.heads.il as int;
        match c.pq {
            Some(p) => Seq::new(
                self.heads.n_pos as nat,
                |j: int|
                    attention::planar_score(
                        p,
                        crate::planar::rotated(q, keys->0.table@, p.n_groups as int),
                        c.kq@[il]@,
                        c.kn@[il]@,
                        keys->0.levels@,
                        j,
                        self.heads.group(cfg),
                        c.n_kv as int,
                        scale,
                    ),
            ),
            None => Seq::new(
                self.heads.n_pos as nat,
                |j: int|
                    forward::score(
                        q,
                        c.keys(il),
                        j,
                        self.heads.group(cfg),
                        c.n_kv_elems as int,
                        c.hd as int,
                        scale,
                    ),
            ),
        }
    }

    /// The output of the next head for these probabilities.
    pub open spec fn mixture(
        &self,
        cfg: Qwen35,
        c: AttnCache,
        probs: Seq<u32>,
        values: Option<Tables>,
    ) -> Seq<u32> {
        let il = self.heads.il as int;
        match c.pqv {
            Some(p) => attention::planar_mixed(
                p,
                probs,
                c.vq@[il]@,
                c.vn@[il]@,
                values->0.levels@,
                values->0.table@,
                self.heads.group(cfg),
                c.n_kv as int,
            ),
            None => Seq::new(
                c.hd as nat,
                |d: int|
                    forward::mixed(
                        probs,
                        c.values(il),
                        probs.len() as int,
                        self.heads.group(cfg),
                        c.n_kv_elems as int,
                        c.hd as int,
                        d,
                    ),
            ),
        }
    }

    /// The exponents of the next head's softmax.
    pub fn exponents(
        &self,
        cfg: &Qwen35,
        c: &AttnCache,
        scale: u32,
        keys: &Option<Tables>,
        values: &Option<Tables>,
    ) -> (r: Vec<u32>)
        requires
            self.ready(*cfg, *c, *keys, *values),
            self.heads.h < cfg.n_head,
        ensures
            r@ == norms::below_largest(self.scored(*cfg, *c, scale, *keys)),
            r@.len() == self.heads.n_pos,
    {
        proof {
            lemma_group(*cfg, self.heads.h as int);
        }
        let s: Vec<u32> = match (&c.pq, keys) {
            (Some(p), Some(t)) => self.heads.planar_scores(
                cfg,
                c,
                p,
                self.q.as_slice(),
                scale,
                t.levels.as_slice(),
                t.table.as_slice(),
            ),
            _ => self.heads.scores(cfg, c, self.q.as_slice(), scale),
        };
        assert(s@ =~= self.scored(*cfg, *c, scale, *keys));
        norms::subtract_largest(s.as_slice())
    }

    /// Takes the powers of the next head's exponents: it attends.
    pub fn accept(
        &mut self,
        cfg: &Qwen35,
        c: &AttnCache,
        powers: &[u32],
        keys: &Option<Tables>,
        values: &Option<Tables>,
    )
        requires
            old(self).ready(*cfg, *c, *keys, *values),
            old(self).heads.h < cfg.n_head,
            powers@.len() == old(self).heads.n_pos,
        ensures
            final(self).ready(*cfg, *c, *keys, *values),
            final(self).q == old(self).q,
            final(self).gate == old(self).gate,
            final(self).heads.il == old(self).heads.il,
            final(self).heads.n_pos == old(self).heads.n_pos,
            final(self).heads.h == old(self).heads.h + 1,
            final(self).heads.out@ == old(self).heads.out@ + old(self).mixture(
                *cfg,
                *c,
                norms::shares(powers@),
                *values,
            ),
    {
        proof {
            lemma_group(*cfg, self.heads.h as int);
            let (h, d) = (self.heads.h as int, cfg.n_embd_head as int);
            assert((h + 1) * d == h * d + d) by (nonlinear_arith);
        }
        let probs: Vec<u32> = norms::share_out(powers);
        match (&c.pqv, values) {
            (Some(p), Some(t)) => {
                self.heads.planar_accept(
                    cfg,
                    c,
                    p,
                    probs.as_slice(),
                    t.levels.as_slice(),
                    t.table.as_slice(),
                );
            },
            _ => {
                self.heads.accept(cfg, c, probs.as_slice());
            },
        }
    }

    /// The layer's output before the last product: the heads' outputs, gated, given e raised to
    /// each negated gate value.
    pub fn finish(self, powers: &[u32]) -> (r: Vec<u32>)
        requires
            self.heads.out@.len() <= powers@.len(),
        ensures
            r@ == forward::times(self.heads.out@, layers::sigmoids(powers@)),
    {
        let open: Vec<u32> = layers::corrections(powers);
        forward::gated(self.heads.out.as_slice(), open.as_slice())
    }
}

} // verus!
