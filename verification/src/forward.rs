//! The decoder's caches and the exact part of its layers. Singles are held as their patterns.

use vstd::prelude::*;
use vstd::string::*;

use crate::config;
use crate::config::Qwen35;
use crate::dots;
use crate::gguf::TensorInfo;
use crate::half;
use crate::kvquant;
use crate::kvquant::{KvMode, PlanarQuant};
use crate::root;
use crate::single;
use crate::text;

verus! {

// ---- layers of growing rows -------------------------------------------------------------------

/// `b` is `a` with `more` behind layer `il`.
pub open spec fn grown<T>(a: Seq<Vec<T>>, b: Seq<Vec<T>>, il: int, more: Seq<T>) -> bool {
    &&& b.len() == a.len()
    &&& b[il]@ == a[il]@ + more
    &&& forall|l: int| 0 <= l < a.len() && l != il ==> (#[trigger] b[l])@ == a[l]@
}

/// `b` is `a` with `more`, rounded to halves, behind layer `il`.
pub open spec fn grown_halves(
    a: Seq<Vec<u16>>,
    b: Seq<Vec<u16>>,
    il: int,
    more: Seq<u32>,
) -> bool {
    &&& b.len() == a.len()
    &&& b[il]@.len() == a[il]@.len() + more.len()
    &&& b[il]@.take(a[il]@.len() as int) == a[il]@
    &&& forall|i: int|
        0 <= i < more.len() ==> half::narrows(more[i], #[trigger] b[il]@[a[il]@.len() + i])
    &&& forall|l: int| 0 <= l < a.len() && l != il ==> (#[trigger] b[l])@ == a[l]@
}

fn extend_layer<T: Copy>(s: &mut Vec<Vec<T>>, il: usize, row: &[T])
    requires
        il < old(s)@.len(),
    ensures
        grown(old(s)@, final(s)@, il as int, row@),
{
    let mut layer: Vec<T> = Vec::new();
    std::mem::swap(&mut layer, &mut s[il]);
    let ghost first = layer@;
    let mut i: usize = 0;
    assert(layer@ =~= first + row@.take(0));
    while i < row.len()
        invariant
            i <= row@.len(),
            layer@ == first + row@.take(i as int),
        decreases row@.len() - i,
    {
        layer.push(row[i]);
        i += 1;
        assert(layer@ =~= first + row@.take(i as int));
    }
    assert(row@.take(i as int) =~= row@);
    std::mem::swap(&mut layer, &mut s[il]);
}

fn extend_halves(s: &mut Vec<Vec<u16>>, il: usize, row: &[u32])
    requires
        il < old(s)@.len(),
    ensures
        grown_halves(old(s)@, final(s)@, il as int, row@),
{
    let mut layer: Vec<u16> = Vec::new();
    std::mem::swap(&mut layer, &mut s[il]);
    let ghost first = layer@;
    let mut i: usize = 0;
    assert(layer@.take(first.len() as int) =~= first);
    while i < row.len()
        invariant
            i <= row@.len(),
            layer@.len() == first.len() + i,
            layer@.take(first.len() as int) == first,
            forall|k: int|
                0 <= k < i ==> half::narrows(row@[k], #[trigger] layer@[first.len() + k]),
        decreases row@.len() - i,
    {
        let ghost before = layer@;
        layer.push(half::f32_to_half(row[i]));
        i += 1;
        assert(layer@.take(first.len() as int) =~= before.take(first.len() as int));
    }
    std::mem::swap(&mut layer, &mut s[il]);
}

fn empty_layers<T>(n: usize) -> (r: Vec<Vec<T>>)
    ensures
        r@.len() == n,
        forall|l: int| 0 <= l < n ==> (#[trigger] r@[l])@.len() == 0,
{
    let mut v: Vec<Vec<T>> = Vec::new();
    let mut i: usize = 0;
    while i < n
        invariant
            i <= n,
            v@.len() == i,
            forall|l: int| 0 <= l < i ==> (#[trigger] v@[l])@.len() == 0,
        decreases n - i,
    {
        v.push(Vec::new());
        i += 1;
    }
    v
}

// ---- the attention cache ----------------------------------------------------------------------

/// Keys and values of the full-attention layers. Token `t` of a layer has the block from
/// `t * n_kv_elems` on, one vector of `hd` values per head.
#[derive(Debug)]
pub struct AttnCache {
    pub n_kv_elems: usize,
    pub n_kv: usize,
    pub hd: usize,
    pub k: Vec<Vec<u32>>,
    pub v: Vec<Vec<u32>>,
    /// The quantizer of keys, if they are held rotated and quantized.
    pub pq: Option<PlanarQuant>,
    /// The quantizer of values, likewise.
    pub pqv: Option<PlanarQuant>,
    /// Packed indices of the keys, a row per token and head.
    pub kq: Vec<Vec<u8>>,
    /// Norms of the keys.
    pub kn: Vec<Vec<u32>>,
    pub vq: Vec<Vec<u8>>,
    pub vn: Vec<Vec<u32>>,
    /// Keys and values are held as halves.
    pub f16_kv: bool,
    pub k16: Vec<Vec<u16>>,
    pub v16: Vec<Vec<u16>>,
}

/// How a token's keys and values are held.
#[derive(Debug, Clone, Copy, PartialEq, Eq, Structural)]
pub enum KvForm {
    Singles,
    Halves,
    /// Quantized keys, and values too or not.
    Planar { values: bool },
}

impl AttnCache {
    /// Every part has the same layers, and a token has something to hold.
    pub open spec fn wf(&self) -> bool {
        &&& self.n_kv_elems > 0
        &&& self.n_kv > 0
        &&& self.v@.len() == self.k@.len()
        &&& self.kq@.len() == self.k@.len()
        &&& self.kn@.len() == self.k@.len()
        &&& self.vq@.len() == self.k@.len()
        &&& self.vn@.len() == self.k@.len()
        &&& self.k16@.len() == self.k@.len()
        &&& self.v16@.len() == self.k@.len()
    }

    /// The cached tokens of a layer.
    pub open spec fn tokens(&self, il: int) -> int {
        if self.pq is Some {
            self.kn@[il]@.len() as int / self.n_kv as int
        } else if self.f16_kv {
            self.k16@[il]@.len() as int / self.n_kv_elems as int
        } else {
            self.k@[il]@.len() as int / self.n_kv_elems as int
        }
    }

    /// An empty cache in the mode that a setting asks for.
    pub fn new(cfg: &Qwen35, setting: Option<&str>) -> (r: AttnCache)
        requires
            cfg.n_head_kv > 0,
            0 < cfg.n_embd_head < usize::MAX,
            cfg.n_head_kv * cfg.n_embd_head <= usize::MAX,
        ensures
            r.wf(),
            r.n_kv == cfg.n_head_kv,
            r.hd == cfg.n_embd_head,
            r.n_kv_elems == cfg.n_head_kv * cfg.n_embd_head,
            r.k@.len() == cfg.n_layer,
            ({
                let mode = kvquant::mode_of(
                    match setting {
                        Some(s) => Some(s@),
                        None => None,
                    },
                );
                &&& (r.pq, r.pqv) == kvquant::quantizers(mode, cfg.n_embd_head)
                &&& r.f16_kv == (mode == KvMode::F16)
            }),
            forall|il: int| 0 <= il < cfg.n_layer ==> #[trigger] r.tokens(il) == 0,
            r.empty(),
    {
        let mode: KvMode = kvquant::mode_from_env(setting);
        let (pq, pqv) = kvquant::quantizers_for(mode, cfg.n_embd_head);
        let f16_kv: bool = match mode {
            KvMode::F16 => true,
            _ => false,
        };
        let n: usize = cfg.n_layer;
        proof {
            let (a, b) = (cfg.n_head_kv as int, cfg.n_embd_head as int);
            assert(a * b > 0) by (nonlinear_arith)
                requires
                    a > 0,
                    b > 0,
            ;
        }
        let r = AttnCache {
            n_kv_elems: cfg.n_head_kv * cfg.n_embd_head,
            n_kv: cfg.n_head_kv,
            hd: cfg.n_embd_head,
            k: empty_layers(n),
            v: empty_layers(n),
            pq,
            pqv,
            kq: empty_layers(n),
            kn: empty_layers(n),
            vq: empty_layers(n),
            vn: empty_layers(n),
            f16_kv,
            k16: empty_layers(n),
            v16: empty_layers(n),
        };
        proof {
            r.lemma_empty();
        }
        r
    }

    /// No layer holds anything.
    pub open spec fn empty(&self) -> bool {
        forall|l: int|
            0 <= l < self.k@.len() ==> (#[trigger] self.k@[l])@.len() == 0 && self.v@[l]@.len() == 0
                && self.kq@[l]@.len() == 0 && self.kn@[l]@.len() == 0 && self.vq@[l]@.len() == 0
                && self.vn@[l]@.len() == 0 && self.k16@[l]@.len() == 0 && self.v16@[l]@.len() == 0
    }

    proof fn lemma_empty(&self)
        requires
            self.wf(),
            self.empty(),
        ensures
            forall|il: int| 0 <= il < self.k@.len() ==> #[trigger] self.tokens(il) == 0,
    {
        assert forall|il: int| 0 <= il < self.k@.len() implies #[trigger] self.tokens(il) == 0 by {
            assert(self.k@[il]@.len() == 0);
            vstd::arithmetic::div_mod::lemma_div_of0(self.n_kv as int);
            vstd::arithmetic::div_mod::lemma_div_of0(self.n_kv_elems as int);
        }
    }

    /// How many tokens a layer has cached.
    pub fn n_pos(&self, il: usize) -> (r: usize)
        requires
            self.wf(),
            il < self.k@.len(),
        ensures
            r == self.tokens(il as int),
    {
        if self.pq.is_some() {
            self.kn[il].len() / self.n_kv
        } else if self.f16_kv {
            self.k16[il].len() / self.n_kv_elems
        } else {
            self.k[il].len() / self.n_kv_elems
        }
    }

    pub open spec fn form(&self) -> KvForm {
        if self.pq is Some {
            KvForm::Planar { values: self.pqv is Some }
        } else if self.f16_kv {
            KvForm::Halves
        } else {
            KvForm::Singles
        }
    }

    /// How keys and values are held.
    pub fn kv_form(&self) -> (r: KvForm)
        ensures
            r == self.form(),
    {
        if self.pq.is_some() {
            KvForm::Planar { values: self.pqv.is_some() }
        } else if self.f16_kv {
            KvForm::Halves
        } else {
            KvForm::Singles
        }
    }

    /// Appends a token's keys and values to a layer, as singles.
    pub fn append(&mut self, il: usize, krow: &[u32], vrow: &[u32])
        requires
            old(self).wf(),
            il < old(self).k@.len(),
            krow@.len() == old(self).n_kv_elems,
            vrow@.len() == old(self).n_kv_elems,
        ensures
            final(self).wf(),
            grown(old(self).k@, final(self).k@, il as int, krow@),
            grown(old(self).v@, final(self).v@, il as int, vrow@),
            *final(self) == (AttnCache { k: final(self).k, v: final(self).v, ..*old(self) }),
            old(self).form() == KvForm::Singles ==> final(self).tokens(il as int) == old(
                self,
            ).tokens(il as int) + 1,
    {
        extend_layer(&mut self.k, il, krow);
        extend_layer(&mut self.v, il, vrow);
        proof {
            lemma_one_more(old(self).k@[il as int]@.len() as int, self.n_kv_elems as int);
        }
    }

    /// Appends a token's values to a layer, as singles.
    pub fn append_v(&mut self, il: usize, vrow: &[u32])
        requires
            old(self).wf(),
            il < old(self).k@.len(),
            vrow@.len() == old(self).n_kv_elems,
        ensures
            final(self).wf(),
            grown(old(self).v@, final(self).v@, il as int, vrow@),
            *final(self) == (AttnCache { v: final(self).v, ..*old(self) }),
    {
        extend_layer(&mut self.v, il, vrow);
    }

    /// Appends a token's keys and values to a layer, as halves.
    pub fn append_f16(&mut self, il: usize, krow: &[u32], vrow: &[u32])
        requires
            old(self).wf(),
            il < old(self).k@.len(),
            krow@.len() == old(self).n_kv_elems,
            vrow@.len() == old(self).n_kv_elems,
        ensures
            final(self).wf(),
            grown_halves(old(self).k16@, final(self).k16@, il as int, krow@),
            grown_halves(old(self).v16@, final(self).v16@, il as int, vrow@),
            *final(self) == (AttnCache { k16: final(self).k16, v16: final(self).v16, ..*old(self) }),
            old(self).form() == KvForm::Halves ==> final(self).tokens(il as int) == old(
                self,
            ).tokens(il as int) + 1,
    {
        extend_halves(&mut self.k16, il, krow);
        extend_halves(&mut self.v16, il, vrow);
        proof {
            lemma_one_more(old(self).k16@[il as int]@.len() as int, self.n_kv_elems as int);
        }
    }

    /// Appends a token's quantized keys: the packed indices of every head, and its norm.
    pub(crate) fn append_k_packed(&mut self, il: usize, packed: &[u8], norms: &[u32])
        requires
            old(self).wf(),
            il < old(self).k@.len(),
            norms@.len() == old(self).n_kv,
            old(self).pq matches Some(q) && packed@.len() == old(self).n_kv * kvquant::packed_size(
                q.hd_padded as int,
                q.bits as int,
            ),
        ensures
            final(self).wf(),
            grown(old(self).kq@, final(self).kq@, il as int, packed@),
            grown(old(self).kn@, final(self).kn@, il as int, norms@),
            *final(self) == (AttnCache { kq: final(self).kq, kn: final(self).kn, ..*old(self) }),
            final(self).tokens(il as int) == old(self).tokens(il as int) + 1,
    {
        extend_layer(&mut self.kq, il, packed);
        extend_layer(&mut self.kn, il, norms);
        proof {
            lemma_one_more(old(self).kn@[il as int]@.len() as int, self.n_kv as int);
        }
    }

    /// Appends a token's quantized values.
    pub(crate) fn append_v_packed(&mut self, il: usize, packed: &[u8], norms: &[u32])
        requires
            old(self).wf(),
            il < old(self).k@.len(),
            norms@.len() == old(self).n_kv,
            old(self).pqv matches Some(q) && packed@.len() == old(self).n_kv * kvquant::packed_size(
                q.hd_padded as int,
                q.bits as int,
            ),
        ensures
            final(self).wf(),
            grown(old(self).vq@, final(self).vq@, il as int, packed@),
            grown(old(self).vn@, final(self).vn@, il as int, norms@),
            *final(self) == (AttnCache { vq: final(self).vq, vn: final(self).vn, ..*old(self) }),
    {
        extend_layer(&mut self.vq, il, packed);
        extend_layer(&mut self.vn, il, norms);
    }

    /// Forgets everything.
    pub fn reset(&mut self)
        requires
            old(self).wf(),
        ensures
            final(self).wf(),
            final(self).empty(),
            final(self).k@.len() == old(self).k@.len(),
            final(self).form() == old(self).form(),
            final(self).n_kv_elems == old(self).n_kv_elems,
            final(self).n_kv == old(self).n_kv,
            final(self).hd == old(self).hd,
            final(self).pq == old(self).pq,
            final(self).pqv == old(self).pqv,
            final(self).f16_kv == old(self).f16_kv,
            forall|il: int| 0 <= il < final(self).k@.len() ==> #[trigger] final(self).tokens(il)
                == 0,
    {
        let n: usize = self.k.len();
        self.k = empty_layers(n);
        self.v = empty_layers(n);
        self.kq = empty_layers(n);
        self.kn = empty_layers(n);
        self.vq = empty_layers(n);
        self.vn = empty_layers(n);
        self.k16 = empty_layers(n);
        self.v16 = empty_layers(n);
        proof {
            self.lemma_empty();
        }
    }
}

proof fn lemma_one_more(n: int, e: int)
    requires
        e > 0,
    ensures
        (n + e) / e == n / e + 1,
{
    vstd::arithmetic::div_mod::lemma_div_plus_one(n, e);
}

/// Block `t` of a layer's rows.
pub open spec fn block<T>(s: Seq<T>, t: int, e: int) -> Seq<T> {
    s.subrange(t * e, (t + 1) * e)
}

/// An appended token is found in its own block, and the blocks before it stay as they are.
pub proof fn law_append_reads_back<T>(
    a: Seq<Vec<T>>,
    b: Seq<Vec<T>>,
    il: int,
    row: Seq<T>,
    n: int,
    t: int,
)
    requires
        0 <= il < a.len(),
        grown(a, b, il, row),
        a[il]@.len() == n * row.len(),
        0 <= t <= n,
    ensures
        t == n ==> block(b[il]@, t, row.len() as int) == row,
        t < n ==> block(b[il]@, t, row.len() as int) == block(a[il]@, t, row.len() as int),
{
    let e = row.len() as int;
    assert((t + 1) * e == t * e + e && 0 <= t * e) by (nonlinear_arith)
        requires
            0 <= t,
            0 <= e,
    ;
    if t < n {
        assert((t + 1) * e <= n * e) by (nonlinear_arith)
            requires
                t + 1 <= n,
                0 <= e,
        ;
        assert(block(b[il]@, t, e) =~= block(a[il]@, t, e));
    } else {
        assert(block(b[il]@, t, e) =~= row);
    }
}

// ---- full attention ---------------------------------------------------------------------------

/// What is reported of projections with other rows than the layer has.
pub open spec fn attn_rows_text(il: nat, q: nat, k: nat, v: nat) -> Seq<char> {
    "attention_layer("@ + text::decimal(il) + "): unexpected projection rows ("@ + text::decimal(q)
        + " / "@ + text::decimal(k) + " / "@ + text::decimal(v) + ")"@
}

/// Checks the rows of a full-attention layer's projections: query and gate of every head, then
/// keys and values.
pub fn check_attn_rows(cfg: &Qwen35, il: usize, q: usize, k: usize, v: usize) -> (r: Result<
    (),
    String,
>)
    requires
        2 * (cfg.n_head * cfg.n_embd_head) <= usize::MAX,
        cfg.n_head_kv * cfg.n_embd_head <= usize::MAX,
    ensures
        match r {
            Ok(_) => q == 2 * (cfg.n_head * cfg.n_embd_head) && k == cfg.n_head_kv
                * cfg.n_embd_head && v == k,
            Err(m) => (q != 2 * (cfg.n_head * cfg.n_embd_head) || k != cfg.n_head_kv
                * cfg.n_embd_head || v != cfg.n_head_kv * cfg.n_embd_head) && m@
                == attn_rows_text(il as nat, q as nat, k as nat, v as nat),
        },
{
    let nq: usize = cfg.n_head * cfg.n_embd_head;
    let nkv: usize = cfg.n_head_kv * cfg.n_embd_head;
    if q != 2 * nq || k != nkv || v != nkv {
        let mut m = "attention_layer(".to_owned();
        text::push_decimal(&mut m, il as u64);
        m.append("): unexpected projection rows (");
        text::push_decimal(&mut m, q as u64);
        m.append(" / ");
        text::push_decimal(&mut m, k as u64);
        m.append(" / ");
        text::push_decimal(&mut m, v as u64);
        m.append(")");
        return Err(m);
    }
    Ok(())
}

/// Splits the query projection: for each head its query, then its gate.
pub fn split_gate(qfull: &[u32], n_head: usize, hd: usize) -> (r: (Vec<u32>, Vec<u32>))
    requires
        qfull@.len() == 2 * (n_head * hd),
    ensures
        r.0@.len() == n_head * hd,
        r.1@.len() == n_head * hd,
        forall|h: int, i: int|
            0 <= h < n_head && 0 <= i < hd ==> r.0@[#[trigger] dots::place(h, hd as int, i)]
                == qfull@[h * (2 * hd) + i] && r.1@[dots::place(h, hd as int, i)] == qfull@[h * (2
                * hd) + hd + i],
{
    let size: usize = qfull.len();
    let mut q: Vec<u32> = Vec::new();
    let mut gate: Vec<u32> = Vec::new();
    let mut h: usize = 0;
    assert(0 * hd == 0) by (nonlinear_arith);
    while h < n_head
        invariant
            h <= n_head,
            size == qfull@.len(),
            size == 2 * (n_head * hd),
            q@.len() == h * hd,
            gate@.len() == h * hd,
            forall|g: int, i: int|
                0 <= g < h && 0 <= i < hd ==> q@[#[trigger] dots::place(g, hd as int, i)]
                    == qfull@[g * (2 * hd) + i] && gate@[dots::place(g, hd as int, i)] == qfull@[g
                    * (2 * hd) + hd + i],
        decreases n_head - h,
    {
        let ghost q0 = q@;
        let ghost g0 = gate@;
        proof {
            let (a, b, d) = (h as int, n_head as int, hd as int);
            assert(2 * (a * d) + 2 * d <= 2 * (b * d) && a * (2 * d) == 2 * (a * d) && (a + 1) * d
                == a * d + d) by (nonlinear_arith)
                requires
                    0 <= a < b,
                    0 <= d,
            ;
        }
        let base: usize = 2 * q.len();
        let mut i: usize = 0;
        while i < hd
            invariant
                i <= hd,
                h < n_head,
                size == qfull@.len(),
                base == h * (2 * hd),
                base + 2 * hd <= size,
                q0.len() == h * hd,
                g0.len() == h * hd,
                q@.len() == h * hd + i,
                gate@.len() == h * hd + i,
                forall|p: int| 0 <= p < q0.len() ==> #[trigger] q@[p] == q0[p],
                forall|p: int| 0 <= p < g0.len() ==> #[trigger] gate@[p] == g0[p],
                forall|k: int|
                    0 <= k < i ==> #[trigger] q@[h * hd + k] == qfull@[base + k],
                forall|k: int|
                    0 <= k < i ==> #[trigger] gate@[h * hd + k] == qfull@[base + hd + k],
            decreases hd - i,
        {
            q.push(qfull[base + i]);
            gate.push(qfull[base + hd + i]);
            i += 1;
        }
        proof {
            assert forall|g: int, i: int| 0 <= g < h + 1 && 0 <= i < hd implies q@[
                #[trigger] dots::place(g, hd as int, i)
            ] == qfull@[g * (2 * hd) + i] && gate@[dots::place(g, hd as int, i)] == qfull@[g * (2
                * hd) + hd + i] by {
                if g < h {
                    dots::lemma_place(g, h as int, hd as int, i);
                    assert(q@[dots::place(g, hd as int, i)] == q0[dots::place(g, hd as int, i)]);
                    assert(gate@[dots::place(g, hd as int, i)] == g0[dots::place(
                        g,
                        hd as int,
                        i,
                    )]);
                } else {
                    assert(q@[h * hd + i] == qfull@[base + i]);
                    assert(gate@[h * hd + i] == qfull@[base + hd + i]);
                }
            }
        }
        h += 1;
    }
    (q, gate)
}

/// The head of keys and values that query head `h` shares with its group.
pub open spec fn kv_head_of(cfg: Qwen35, h: int) -> int {
    h / (cfg.n_head as int / cfg.n_head_kv as int)
}

/// The head of keys and values that query head `h` shares with its group.
pub fn kv_head(cfg: &Qwen35, h: usize) -> (r: usize)
    requires
        0 < cfg.n_head_kv <= cfg.n_head,
    ensures
        r == kv_head_of(*cfg, h as int),
{
    proof {
        let (a, b) = (cfg.n_head as int, cfg.n_head_kv as int);
        vstd::arithmetic::div_mod::lemma_div_is_ordered(b, a, b);
        vstd::arithmetic::div_mod::lemma_div_by_self(b);
    }
    h / (cfg.n_head / cfg.n_head_kv)
}

/// Value `d` of head `kv` of token `j`.
pub open spec fn cached(s: Seq<u32>, j: int, kv: int, e: int, hd: int, d: int) -> u32 {
    s[j * e + kv * hd + d]
}

/// The values of head `kv` of token `j`.
pub open spec fn head_row(s: Seq<u32>, j: int, kv: int, e: int, hd: int) -> Seq<u32> {
    Seq::new(hd as nat, |d: int| cached(s, j, kv, e, hd, d))
}

pub open spec fn widened(s: Seq<u16>) -> Seq<u32> {
    Seq::new(s.len(), |i: int| single::wide(s[i]))
}

/// The score of a query against token `j`.
pub open spec fn score(
    q: Seq<u32>,
    s: Seq<u32>,
    j: int,
    kv: int,
    e: int,
    hd: int,
    scale: u32,
) -> u32 {
    single::product_of(dots::dense_dot(q, head_row(s, j, kv, e, hd), hd), scale)
}

/// The sum of the first `n` tokens' values, each times its probability; a token without one adds
/// nothing.
pub open spec fn mixed(
    probs: Seq<u32>,
    s: Seq<u32>,
    n: int,
    kv: int,
    e: int,
    hd: int,
    d: int,
) -> u32
    decreases n,
{
    if n <= 0 {
        0
    } else {
        let before = mixed(probs, s, n - 1, kv, e, hd, d);
        if single::mag(probs[n - 1]) == 0 {
            before
        } else {
            single::sum_of(
                before,
                single::product_of(probs[n - 1], cached(s, n - 1, kv, e, hd, d)),
            )
        }
    }
}

proof fn lemma_cached(j: int, n: int, kv: int, e: int, hd: int, d: int, len: int)
    requires
        0 <= j < n,
        0 <= kv,
        0 <= d < hd,
        kv * hd + hd <= e,
        n * e <= len,
    ensures
        0 <= j * e + kv * hd + d < len,
        0 <= j * e,
        0 <= kv * hd,
        j * e + e <= len,
{
    assert(0 <= j * e && j * e + e <= n * e && 0 <= kv * hd) by (nonlinear_arith)
        requires
            0 <= j < n,
            0 <= kv,
            0 < hd,
            0 <= e,
    ;
}

fn head_values(s: &Vec<u32>, j: usize, kv: usize, e: usize, hd: usize, Ghost(n): Ghost<int>) -> (r:
    Vec<u32>)
    requires
        j < n,
        kv * hd + hd <= e,
        n * e <= s@.len(),
    ensures
        r@ == head_row(s@, j as int, kv as int, e as int, hd as int),
{
    let size: usize = s.len();
    let mut out: Vec<u32> = Vec::new();
    let mut d: usize = 0;
    while d < hd
        invariant
            d <= hd,
            j < n,
            kv * hd + hd <= e,
            n * e <= size,
            size == s@.len(),
            out@ == head_row(s@, j as int, kv as int, e as int, hd as int).take(d as int),
        decreases hd - d,
    {
        proof {
            lemma_cached(j as int, n, kv as int, e as int, hd as int, d as int, size as int);
        }
        out.push(s[j * e + kv * hd + d]);
        d += 1;
        assert(out@ =~= head_row(s@, j as int, kv as int, e as int, hd as int).take(d as int));
    }
    assert(out@ =~= head_row(s@, j as int, kv as int, e as int, hd as int));
    out
}

/// Scores a query against the first `n` tokens of a layer's keys.
pub fn scores(
    q: &[u32],
    keys: &Vec<u32>,
    n: usize,
    kv: usize,
    e: usize,
    hd: usize,
    scale: u32,
) -> (r: Vec<u32>)
    requires
        q@.len() == hd,
        kv * hd + hd <= e,
        n * e <= keys@.len(),
    ensures
        r@ == Seq::new(
            n as nat,
            |j: int| score(q@, keys@, j, kv as int, e as int, hd as int, scale),
        ),
{
    let mut out: Vec<u32> = Vec::new();
    let mut j: usize = 0;
    while j < n
        invariant
            j <= n,
            q@.len() == hd,
            kv * hd + hd <= e,
            n * e <= keys@.len(),
            out@.len() == j,
            forall|i: int|
                0 <= i < j ==> #[trigger] out@[i] == score(
                    q@,
                    keys@,
                    i,
                    kv as int,
                    e as int,
                    hd as int,
                    scale,
                ),
        decreases n - j,
    {
        let row: Vec<u32> = head_values(keys, j, kv, e, hd, Ghost(n as int));
        out.push(single::product(dots::dot(q, &row), scale));
        j += 1;
    }
    assert(out@ =~= Seq::new(
        n as nat,
        |j: int| score(q@, keys@, j, kv as int, e as int, hd as int, scale),
    ));
    out
}

/// Mixes the values of as many tokens as have a probability.
pub fn mix(probs: &[u32], values: &Vec<u32>, kv: usize, e: usize, hd: usize) -> (r: Vec<u32>)
    requires
        kv * hd + hd <= e,
        probs@.len() * e <= values@.len(),
    ensures
        r@ == Seq::new(
            hd as nat,
            |d: int|
                mixed(probs@, values@, probs@.len() as int, kv as int, e as int, hd as int, d),
        ),
{
    let n: usize = probs.len();
    let size: usize = values.len();
    let mut out: Vec<u32> = Vec::new();
    let mut d: usize = 0;
    while d < hd
        invariant
            d <= hd,
            n == probs@.len(),
            size == values@.len(),
            kv * hd + hd <= e,
            n * e <= size,
            out@.len() == d,
            forall|i: int|
                0 <= i < d ==> #[trigger] out@[i] == mixed(
                    probs@,
                    values@,
                    n as int,
                    kv as int,
                    e as int,
                    hd as int,
                    i,
                ),
        decreases hd - d,
    {
        let mut acc: u32 = 0;
        let mut j: usize = 0;
        while j < n
            invariant
                j <= n,
                d < hd,
                n == probs@.len(),
                size == values@.len(),
                kv * hd + hd <= e,
                n * e <= size,
                acc == mixed(
                    probs@,
                    values@,
                    j as int,
                    kv as int,
                    e as int,
                    hd as int,
                    d as int,
                ),
            decreases n - j,
        {
            proof {
                lemma_cached(
                    j as int,
                    n as int,
                    kv as int,
                    e as int,
                    hd as int,
                    d as int,
                    size as int,
                );
            }
            let p: u32 = probs[j];
            if p % single::SIGN != 0 {
                acc = single::sum(acc, single::product(p, values[j * e + kv * hd + d]));
            }
            j += 1;
        }
        out.push(acc);
        d += 1;
    }
    assert(out@ =~= Seq::new(
        hd as nat,
        |d: int| mixed(probs@, values@, n as int, kv as int, e as int, hd as int, d),
    ));
    out
}

fn widen_all(s: &Vec<u16>) -> (r: Vec<u32>)
    ensures
        r@ == widened(s@),
{
    let mut out: Vec<u32> = Vec::new();
    let mut i: usize = 0;
    while i < s.len()
        invariant
            i <= s@.len(),
            out@ == widened(s@).take(i as int),
        decreases s@.len() - i,
    {
        out.push(single::widen(s[i]));
        i += 1;
        assert(out@ =~= widened(s@).take(i as int));
    }
    assert(out@ =~= widened(s@));
    out
}

impl AttnCache {
    /// A layer's keys as singles, where they are not quantized.
    pub open spec fn keys(&self, il: int) -> Seq<u32> {
        if self.f16_kv {
            widened(self.k16@[il]@)
        } else {
            self.k@[il]@
        }
    }

    /// A layer's values as singles, where they are not quantized.
    pub open spec fn values(&self, il: int) -> Seq<u32> {
        if self.f16_kv {
            widened(self.v16@[il]@)
        } else {
            self.v@[il]@
        }
    }

    /// Scores a head's query against the first `n` tokens of a layer.
    pub fn head_scores(&self, il: usize, q: &[u32], kv: usize, n: usize, scale: u32) -> (r: Vec<
        u32,
    >)
        requires
            self.wf(),
            self.pq is None,
            il < self.k@.len(),
            q@.len() == self.hd,
            kv * self.hd + self.hd <= self.n_kv_elems,
            n * self.n_kv_elems <= self.keys(il as int).len(),
        ensures
            r@ == Seq::new(
                n as nat,
                |j: int|
                    score(
                        q@,
                        self.keys(il as int),
                        j,
                        kv as int,
                        self.n_kv_elems as int,
                        self.hd as int,
                        scale,
                    ),
            ),
    {
        if self.f16_kv {
            let keys: Vec<u32> = widen_all(&self.k16[il]);
            scores(q, &keys, n, kv, self.n_kv_elems, self.hd, scale)
        } else {
            scores(q, &self.k[il], n, kv, self.n_kv_elems, self.hd, scale)
        }
    }

    /// Mixes the values of a layer's tokens by their probabilities.
    pub fn head_mix(&self, il: usize, probs: &[u32], kv: usize) -> (r: Vec<u32>)
        requires
            self.wf(),
            self.pqv is None,
            il < self.k@.len(),
            kv * self.hd + self.hd <= self.n_kv_elems,
            probs@.len() * self.n_kv_elems <= self.values(il as int).len(),
        ensures
            r@ == Seq::new(
                self.hd as nat,
                |d: int|
                    mixed(
                        probs@,
                        self.values(il as int),
                        probs@.len() as int,
                        kv as int,
                        self.n_kv_elems as int,
                        self.hd as int,
                        d,
                    ),
            ),
    {
        if self.f16_kv {
            let values: Vec<u32> = widen_all(&self.v16[il]);
            mix(probs, &values, kv, self.n_kv_elems, self.hd)
        } else {
            mix(probs, &self.v[il], kv, self.n_kv_elems, self.hd)
        }
    }
}

/// The products of two vectors, place by place.
pub open spec fn times(a: Seq<u32>, b: Seq<u32>) -> Seq<u32> {
    Seq::new(a.len(), |i: int| single::product_of(a[i], b[i]))
}

/// The sums of two vectors, place by place.
pub open spec fn plus(a: Seq<u32>, b: Seq<u32>) -> Seq<u32> {
    Seq::new(a.len(), |i: int| single::sum_of(a[i], b[i]))
}

/// Multiplies a layer's output by its gate.
pub fn gated(out: &[u32], gate: &[u32]) -> (r: Vec<u32>)
    requires
        out@.len() <= gate@.len(),
    ensures
        r@ == times(out@, gate@),
{
    let mut v: Vec<u32> = Vec::new();
    let mut i: usize = 0;
    while i < out.len()
        invariant
            i <= out@.len() <= gate@.len(),
            v@ == times(out@, gate@).take(i as int),
        decreases out@.len() - i,
    {
        v.push(single::product(out[i], gate[i]));
        i += 1;
        assert(v@ =~= times(out@, gate@).take(i as int));
    }
    assert(v@ =~= times(out@, gate@));
    v
}

/// Adds a layer's output to the residual stream.
pub fn add_residual(cur: &[u32], out: &[u32]) -> (r: Vec<u32>)
    requires
        cur@.len() <= out@.len(),
    ensures
        r@ == plus(cur@, out@),
{
    let mut v: Vec<u32> = Vec::new();
    let mut i: usize = 0;
    while i < cur.len()
        invariant
            i <= cur@.len() <= out@.len(),
            v@ == plus(cur@, out@).take(i as int),
        decreases cur@.len() - i,
    {
        v.push(single::sum(cur[i], out[i]));
        i += 1;
        assert(v@ =~= plus(cur@, out@).take(i as int));
    }
    assert(v@ =~= plus(cur@, out@));
    v
}

/// A full-attention layer on its way through the heads: each is scored, its scores become
/// probabilities outside, and its values are mixed.
#[derive(Debug)]
pub struct HeadLoop {
    pub il: usize,
    /// Positions that are seen: all up to the token's own.
    pub n_pos: usize,
    /// The head to be scored.
    pub h: usize,
    /// The outputs of the heads before it.
    pub out: Vec<u32>,
}

impl HeadLoop {
    /// The layer and the head are those of a configuration and a cache.
    pub open spec fn seated(&self, cfg: Qwen35, c: AttnCache) -> bool {
        &&& c.wf()
        &&& self.il < c.k@.len()
        &&& 0 < cfg.n_head_kv <= cfg.n_head
        &&& self.h < cfg.n_head
        &&& c.n_kv == cfg.n_head_kv
        &&& c.hd == cfg.n_embd_head
        &&& c.n_kv_elems == cfg.n_head_kv * cfg.n_embd_head
        &&& self.group(cfg) < cfg.n_head_kv
    }

    /// The positions that are seen have keys that are not quantized.
    pub open spec fn sees_keys(&self, c: AttnCache) -> bool {
        c.pq is None && self.n_pos * c.n_kv_elems <= c.keys(self.il as int).len()
    }

    /// The positions that are seen have values that are not quantized.
    pub open spec fn sees_values(&self, c: AttnCache) -> bool {
        c.pqv is None && self.n_pos * c.n_kv_elems <= c.values(self.il as int).len()
    }

    /// The head of keys and values that is seen.
    pub open spec fn group(&self, cfg: Qwen35) -> int {
        self.h as int / (cfg.n_head as int / cfg.n_head_kv as int)
    }

    /// The start of a layer for the token at `pos`.
    pub fn new(il: usize, pos: usize) -> (r: HeadLoop)
        requires
            pos < usize::MAX,
        ensures
            r.il == il,
            r.n_pos == pos + 1,
            r.h == 0,
            r.out@.len() == 0,
    {
        HeadLoop { il, n_pos: pos + 1, h: 0, out: Vec::new() }
    }

    /// The scores of the head, whose query is among those of all heads.
    pub fn scores(&self, cfg: &Qwen35, c: &AttnCache, q: &[u32], scale: u32) -> (r: Vec<u32>)
        requires
            self.seated(*cfg, *c),
            self.sees_keys(*c),
            q@.len() == cfg.n_head * cfg.n_embd_head,
        ensures
            r@ == Seq::new(
                self.n_pos as nat,
                |j: int|
                    score(
                        dots::column(q@, self.h as int, c.hd as int),
                        c.keys(self.il as int),
                        j,
                        self.group(*cfg),
                        c.n_kv_elems as int,
                        c.hd as int,
                        scale,
                    ),
            ),
    {
        let hd: usize = c.hd;
        let size: usize = q.len();
        let kv: usize = kv_head(cfg, self.h);
        proof {
            dots::lemma_row_end(self.h as int, cfg.n_head as int, hd as int);
            dots::lemma_row_end(kv as int, cfg.n_head_kv as int, hd as int);
            let (a, b) = (self.h as int, hd as int);
            assert((a + 1) * b == a * b + b) by (nonlinear_arith);
        }
        let from: usize = self.h * hd;
        let qh: &[u32] = vstd::slice::slice_subrange(q, from, from + hd);
        assert(qh@ =~= dots::column(q@, self.h as int, hd as int));
        c.head_scores(self.il, qh, kv, self.n_pos, scale)
    }

    /// Takes the head's probabilities, mixes its values, and goes on to the next.
    pub fn accept(&mut self, cfg: &Qwen35, c: &AttnCache, probs: &[u32])
        requires
            old(self).seated(*cfg, *c),
            old(self).sees_values(*c),
            probs@.len() == old(self).n_pos,
        ensures
            final(self).il == old(self).il,
            final(self).n_pos == old(self).n_pos,
            final(self).h == old(self).h + 1,
            final(self).out@ == old(self).out@ + Seq::new(
                c.hd as nat,
                |d: int|
                    mixed(
                        probs@,
                        c.values(old(self).il as int),
                        probs@.len() as int,
                        old(self).group(*cfg),
                        c.n_kv_elems as int,
                        c.hd as int,
                        d,
                    ),
            ),
    {
        let kv: usize = kv_head(cfg, self.h);
        proof {
            dots::lemma_row_end(kv as int, cfg.n_head_kv as int, c.hd as int);
        }
        let mut row: Vec<u32> = c.head_mix(self.il, probs, kv);
        self.out.append(&mut row);
        self.h = self.h + 1;
    }
}

// ---- recurrent layers -------------------------------------------------------------------------

/// What is reported of projections with other rows than a recurrent layer has.
pub open spec fn recurrent_rows_text(il: nat, qkv: nat, z: nat, beta: nat, alpha: nat) -> Seq<char> {
    "recurrent_layer("@ + text::decimal(il) + "): unexpected projection rows ("@ + text::decimal(
        qkv,
    ) + " / "@ + text::decimal(z) + " / "@ + text::decimal(beta) + " / "@ + text::decimal(alpha)
        + ")"@
}

/// Checks the rows of a recurrent layer's projections.
pub fn check_recurrent_rows(
    cfg: &Qwen35,
    il: usize,
    qkv: usize,
    z: usize,
    beta: usize,
    alpha: usize,
) -> (r: Result<(), String>)
    requires
        2 * (cfg.ssm_group_count * cfg.ssm_state) + cfg.ssm_inner <= usize::MAX,
    ensures
        ({
            let right = qkv == 2 * (cfg.ssm_group_count * cfg.ssm_state) + cfg.ssm_inner && z
                == cfg.ssm_inner && beta == cfg.ssm_dt_rank && alpha == cfg.ssm_dt_rank;
            match r {
                Ok(_) => right,
                Err(m) => !right && m@ == recurrent_rows_text(
                    il as nat,
                    qkv as nat,
                    z as nat,
                    beta as nat,
                    alpha as nat,
                ),
            }
        }),
{
    if qkv != cfg.ssm_conv_channels() || z != cfg.ssm_inner || beta != cfg.ssm_dt_rank || alpha
        != cfg.ssm_dt_rank {
        let mut m = "recurrent_layer(".to_owned();
        text::push_decimal(&mut m, il as u64);
        m.append("): unexpected projection rows (");
        text::push_decimal(&mut m, qkv as u64);
        m.append(" / ");
        text::push_decimal(&mut m, z as u64);
        m.append(" / ");
        text::push_decimal(&mut m, beta as u64);
        m.append(" / ");
        text::push_decimal(&mut m, alpha as u64);
        m.append(")");
        return Err(m);
    }
    Ok(())
}

/// What is said of a feed-forward layer's projections that have other rows.
pub open spec fn ffn_rows_text(il: nat, gate: nat, up: nat) -> Seq<char> {
    "ffn_layer("@ + text::decimal(il) + "): unexpected rows ("@ + text::decimal(gate) + " / "@
        + text::decimal(up) + ")"@
}

/// Checks the rows of a feed-forward layer's projections.
pub fn check_ffn_rows(cfg: &Qwen35, il: usize, gate: usize, up: usize) -> (r: Result<(), String>)
    ensures
        match r {
            Ok(_) => gate == cfg.n_ff && up == cfg.n_ff,
            Err(m) => (gate != cfg.n_ff || up != cfg.n_ff) && m@ == ffn_rows_text(
                il as nat,
                gate as nat,
                up as nat,
            ),
        },
{
    if gate != cfg.n_ff || up != cfg.n_ff {
        let mut m = "ffn_layer(".to_owned();
        text::push_decimal(&mut m, il as u64);
        m.append("): unexpected rows (");
        text::push_decimal(&mut m, gate as u64);
        m.append(" / ");
        text::push_decimal(&mut m, up as u64);
        m.append(")");
        return Err(m);
    }
    Ok(())
}

/// The last inputs of each recurrent layer's convolution, oldest first within a channel, and the
/// state of its recurrence.
#[derive(Debug)]
pub struct SsmCache {
    pub conv: Vec<Vec<u32>>,
    pub state: Vec<Vec<u32>>,
}

/// Values of a recurrent state: so many heads of a square matrix.
pub const STATE_LEN: usize = 786432;

fn zeros(n: usize) -> (r: Vec<u32>)
    ensures
        r@ == all_zero(n as int),
{
    let mut v: Vec<u32> = Vec::new();
    let mut i: usize = 0;
    while i < n
        invariant
            i <= n,
            v@ == all_zero(i as int),
        decreases n - i,
    {
        v.push(0);
        i += 1;
        assert(v@ =~= all_zero(i as int));
    }
    v
}

/// The state of a fresh recurrence.
pub fn zero_state() -> (r: Vec<u32>)
    ensures
        r@ == all_zero(STATE_LEN as int),
{
    zeros(STATE_LEN)
}

pub open spec fn all_zero(n: int) -> Seq<u32> {
    Seq::new(n as nat, |i: int| 0u32)
}

/// A recurrent layer has zeros, another one nothing.
pub open spec fn fresh_layer(cfg: Qwen35, l: int, conv: Seq<u32>, state: Seq<u32>) -> bool {
    let n = (cfg.ssm_conv_kernel - 1) * (2 * (cfg.ssm_group_count * cfg.ssm_state) + cfg.ssm_inner);
    if cfg.full(l) {
        conv.len() == 0 && state.len() == 0
    } else {
        conv == all_zero(n) && state == all_zero(STATE_LEN as int)
    }
}

/// The first `k` layers of a cache have seen nothing.
pub open spec fn fresh(cfg: Qwen35, conv: Seq<Vec<u32>>, state: Seq<Vec<u32>>, k: int) -> bool {
    forall|l: int| 0 <= l < k ==> fresh_layer(cfg, l, (#[trigger] conv[l])@, state[l]@)
}

impl SsmCache {
    /// A fresh cache.
    pub fn new(cfg: &Qwen35) -> (r: SsmCache)
        requires
            cfg.wf(),
            cfg.ssm_conv_kernel > 0,
            2 * (cfg.ssm_group_count * cfg.ssm_state) + cfg.ssm_inner <= usize::MAX,
            (cfg.ssm_conv_kernel - 1) * (2 * (cfg.ssm_group_count * cfg.ssm_state) + cfg.ssm_inner)
                <= usize::MAX,
        ensures
            r.conv@.len() == cfg.n_layer,
            r.state@.len() == cfg.n_layer,
            fresh(*cfg, r.conv@, r.state@, cfg.n_layer as int),
    {
        let ch: usize = cfg.ssm_conv_channels();
        let n: usize = (cfg.ssm_conv_kernel - 1) * ch;
        let mut conv: Vec<Vec<u32>> = Vec::new();
        let mut state: Vec<Vec<u32>> = Vec::new();
        let mut il: usize = 0;
        while il < cfg.n_layer
            invariant
                cfg.wf(),
                il <= cfg.n_layer,
                n == (cfg.ssm_conv_kernel - 1) * (2 * (cfg.ssm_group_count * cfg.ssm_state)
                    + cfg.ssm_inner),
                conv@.len() == il,
                state@.len() == il,
                fresh(*cfg, conv@, state@, il as int),
            decreases cfg.n_layer - il,
        {
            let ghost c0 = conv@;
            let ghost s0 = state@;
            if cfg.is_recurrent(il) {
                conv.push(zeros(n));
                state.push(zero_state());
            } else {
                conv.push(Vec::new());
                state.push(Vec::new());
            }
            proof {
                assert forall|l: int| 0 <= l < il + 1 implies fresh_layer(
                    *cfg,
                    l,
                    (#[trigger] conv@[l])@,
                    state@[l]@,
                ) by {
                    if l < il {
                        assert(c0[l] == conv@[l] && s0[l] == state@[l]);
                    }
                }
            }
            il += 1;
        }
        SsmCache { conv, state }
    }
}

/// Input `j` of a channel's window: the cached ones, then the current one.
pub open spec fn window(conv: Seq<u32>, c: int, prev: int, now: u32, j: int) -> u32 {
    if j < prev {
        conv[c * prev + j]
    } else {
        now
    }
}

/// The convolution of a channel, over the first `n` inputs of its window.
pub open spec fn convolved(
    conv: Seq<u32>,
    c: int,
    prev: int,
    now: u32,
    w: Seq<u32>,
    n: int,
) -> u32
    decreases n,
{
    if n <= 0 {
        0
    } else {
        single::sum_of(
            convolved(conv, c, prev, now, w, n - 1),
            single::product_of(w[c * (prev + 1) + n - 1], window(conv, c, prev, now, n - 1)),
        )
    }
}

/// `b` is `a` with each channel's oldest input dropped and the current one behind the others.
pub open spec fn rotated(a: Seq<u32>, b: Seq<u32>, prev: int, now: Seq<u32>) -> bool {
    &&& b.len() == a.len()
    &&& forall|c: int, j: int|
        0 <= c < now.len() && 0 <= j < prev ==> b[#[trigger] dots::place(c, prev, j)] == window(
            a,
            c,
            prev,
            now[c],
            j + 1,
        )
}

/// Convolves every channel with its cached inputs and the current one.
pub fn convolve(conv: &Vec<u32>, qkv: &[u32], w: &[u32], prev: usize) -> (r: Vec<u32>)
    requires
        prev < usize::MAX,
        conv@.len() == qkv@.len() * prev,
        w@.len() == qkv@.len() * (prev + 1),
    ensures
        r@ == Seq::new(
            qkv@.len(),
            |c: int| convolved(conv@, c, prev as int, qkv@[c], w@, prev + 1),
        ),
{
    let n: usize = qkv.len();
    let nc: usize = conv.len();
    let nw: usize = w.len();
    let mut out: Vec<u32> = Vec::new();
    let mut c: usize = 0;
    while c < n
        invariant
            c <= n,
            n == qkv@.len(),
            nc == conv@.len(),
            nw == w@.len(),
            prev < usize::MAX,
            nc == n * prev,
            nw == n * (prev + 1),
            out@.len() == c,
            forall|i: int|
                0 <= i < c ==> #[trigger] out@[i] == convolved(
                    conv@,
                    i,
                    prev as int,
                    qkv@[i],
                    w@,
                    prev + 1,
                ),
        decreases n - c,
    {
        proof {
            dots::lemma_row_end(c as int, n as int, prev as int);
            dots::lemma_row_end(c as int, n as int, prev + 1);
        }
        let base: usize = c * prev;
        let wbase: usize = c * (prev + 1);
        let mut acc: u32 = 0;
        let mut j: usize = 0;
        while j < prev + 1
            invariant
                j <= prev + 1,
                c < n,
                n == qkv@.len(),
                nc == conv@.len(),
                nw == w@.len(),
                prev < usize::MAX,
                base == c * prev,
                wbase == c * (prev + 1),
                base + prev <= nc,
                wbase + prev + 1 <= nw,
                acc == convolved(conv@, c as int, prev as int, qkv@[c as int], w@, j as int),
            decreases prev + 1 - j,
        {
            let x: u32 = if j < prev {
                conv[base + j]
            } else {
                qkv[c]
            };
            acc = single::sum(acc, single::product(w[wbase + j], x));
            j += 1;
        }
        out.push(acc);
        c += 1;
    }
    assert(out@ =~= Seq::new(
        qkv@.len(),
        |c: int| convolved(conv@, c, prev as int, qkv@[c], w@, prev + 1),
    ));
    out
}

/// Drops each channel's oldest input and puts the current one behind the others.
pub fn rotate_conv(conv: &mut Vec<u32>, qkv: &[u32], prev: usize)
    requires
        old(conv)@.len() == qkv@.len() * prev,
    ensures
        rotated(old(conv)@, final(conv)@, prev as int, qkv@),
{
    let n: usize = qkv.len();
    let size: usize = conv.len();
    let ghost first = conv@;
    let mut out: Vec<u32> = Vec::new();
    let mut c: usize = 0;
    assert(0 * prev == 0) by (nonlinear_arith);
    while c < n
        invariant
            c <= n,
            n == qkv@.len(),
            conv@ == first,
            size == first.len(),
            size == n * prev,
            out@.len() == c * prev,
            forall|i: int, j: int|
                0 <= i < c && 0 <= j < prev ==> out@[#[trigger] dots::place(i, prev as int, j)]
                    == window(first, i, prev as int, qkv@[i], j + 1),
        decreases n - c,
    {
        proof {
            dots::lemma_row_end(c as int, n as int, prev as int);
            let (a, b) = (c as int, prev as int);
            assert((a + 1) * b == a * b + b) by (nonlinear_arith);
        }
        let base: usize = c * prev;
        let ghost before = out@;
        let mut j: usize = 0;
        while j < prev
            invariant
                j <= prev,
                c < n,
                n == qkv@.len(),
                conv@ == first,
                size == first.len(),
                base == c * prev,
                base + prev <= size,
                before.len() == base,
                out@.len() == base + j,
                forall|p: int| 0 <= p < base ==> #[trigger] out@[p] == before[p],
                forall|k: int|
                    0 <= k < j ==> #[trigger] out@[base + k] == window(
                        first,
                        c as int,
                        prev as int,
                        qkv@[c as int],
                        k + 1,
                    ),
            decreases prev - j,
        {
            let x: u32 = if j + 1 < prev {
                conv[base + j + 1]
            } else {
                qkv[c]
            };
            out.push(x);
            j += 1;
        }
        proof {
            assert forall|i: int, j: int| 0 <= i < c + 1 && 0 <= j < prev implies out@[
                #[trigger] dots::place(i, prev as int, j)
            ] == window(first, i, prev as int, qkv@[i], j + 1) by {
                if i < c {
                    dots::lemma_place(i, c as int, prev as int, j);
                    assert(out@[dots::place(i, prev as int, j)] == before[dots::place(
                        i,
                        prev as int,
                        j,
                    )]);
                } else {
                    assert(out@[base + j] == window(
                        first,
                        c as int,
                        prev as int,
                        qkv@[c as int],
                        j + 1,
                    ));
                }
            }
        }
        c += 1;
    }
    *conv = out;
}

/// The next token's window is this one's, moved on by one: all inputs but the oldest.
pub proof fn law_window_moves_on(a: Seq<u32>, b: Seq<u32>, prev: int, now: Seq<u32>, c: int, j: int, next: u32)
    requires
        rotated(a, b, prev, now),
        0 <= c < now.len(),
        0 <= j < prev,
    ensures
        window(b, c, prev, next, j) == window(a, c, prev, now[c], j + 1),
        window(b, c, prev, next, prev) == next,
{
    assert(b[dots::place(c, prev, j)] == window(a, c, prev, now[c], j + 1));
}

// ---- the layer loop ---------------------------------------------------------------------------

/// A step of the forward pass on the residual stream.
#[derive(Debug, Clone, Copy, PartialEq, Eq, Structural)]
pub enum Step {
    /// The stream is handed out under a place among the wanted layers.
    Tap { place: usize },
    /// The attention of a layer is added, behind its norm.
    Recurrent { il: usize },
    Attention { il: usize },
    /// The feed-forward part of a layer is added, behind its norm.
    Ffn { il: usize },
    /// The output norm.
    Output,
}

/// The places from `k` on at which a layer is wanted.
pub open spec fn taps_from(want: Seq<u32>, il: int, k: int) -> Seq<Step>
    decreases want.len() - k,
{
    if k < 0 || k >= want.len() {
        Seq::empty()
    } else if want[k] == il {
        seq![Step::Tap { place: k as usize }] + taps_from(want, il, k + 1)
    } else {
        taps_from(want, il, k + 1)
    }
}

/// The attention of a layer.
pub open spec fn mixer_of(cfg: Qwen35, il: int) -> Step {
    if cfg.full(il) {
        Step::Attention { il: il as usize }
    } else {
        Step::Recurrent { il: il as usize }
    }
}

/// The steps of the first `k` layers.
pub open spec fn steps_of(cfg: Qwen35, want: Seq<u32>, k: int) -> Seq<Step>
    decreases k,
{
    if k <= 0 {
        Seq::empty()
    } else {
        steps_of(cfg, want, k - 1) + taps_from(want, k - 1, 0) + seq![
            mixer_of(cfg, k - 1),
            Step::Ffn { il: (k - 1) as usize },
        ]
    }
}

fn push_taps(out: &mut Vec<Step>, want: &[u32], il: usize)
    ensures
        final(out)@ == old(out)@ + taps_from(want@, il as int, 0),
{
    let n: usize = want.len();
    let mut k: usize = 0;
    while k < n
        invariant
            k <= n,
            n == want@.len(),
            old(out)@ + taps_from(want@, il as int, 0) == out@ + taps_from(
                want@,
                il as int,
                k as int,
            ),
        decreases n - k,
    {
        let ghost before = out@;
        let ghost rest = taps_from(want@, il as int, k + 1);
        if want[k] as usize == il {
            out.push(Step::Tap { place: k });
            assert(before + (seq![Step::Tap { place: k }] + rest) =~= out@ + rest);
        }
        k += 1;
    }
    assert(out@ + Seq::<Step>::empty() =~= out@);
}

/// Plans a token's way through the layers, handing out the inputs of wanted ones.
pub fn forward_hidden_taps(cfg: &Qwen35, want: &[u32], taps: usize) -> (r: Result<Vec<Step>, String>)
    requires
        cfg.wf(),
    ensures
        match r {
            Ok(s) => taps == want@.len() && s@ == steps_of(*cfg, want@, cfg.n_layer as int).push(
                Step::Output,
            ),
            Err(m) => taps != want@.len() && m@
                == "forward_hidden_taps: taps length != want length"@,
        },
{
    if taps != want.len() {
        return Err("forward_hidden_taps: taps length != want length".to_owned());
    }
    let mut out: Vec<Step> = Vec::new();
    let mut il: usize = 0;
    assert(out@ =~= steps_of(*cfg, want@, 0));
    while il < cfg.n_layer
        invariant
            cfg.wf(),
            il <= cfg.n_layer,
            out@ == steps_of(*cfg, want@, il as int),
        decreases cfg.n_layer - il,
    {
        push_taps(&mut out, want, il);
        if cfg.is_recurrent(il) {
            out.push(Step::Recurrent { il });
        } else {
            out.push(Step::Attention { il });
        }
        out.push(Step::Ffn { il });
        il += 1;
        assert(out@ =~= steps_of(*cfg, want@, il as int));
    }
    out.push(Step::Output);
    Ok(out)
}

/// Without wanted layers nothing is handed out.
pub proof fn law_no_taps_without_wants(cfg: Qwen35, k: int, i: int)
    requires
        0 <= i < steps_of(cfg, Seq::empty(), k).len(),
    ensures
        !(steps_of(cfg, Seq::empty(), k)[i] is Tap),
    decreases k,
{
    if k > 0 {
        let before = steps_of(cfg, Seq::empty(), k - 1);
        let none = taps_from(Seq::<u32>::empty(), k - 1, 0);
        assert(none.len() == 0);
        assert(before + none =~= before);
        if i < before.len() {
            law_no_taps_without_wants(cfg, k - 1, i);
            assert(steps_of(cfg, Seq::empty(), k)[i] == before[i]);
        }
    }
}

proof fn lemma_taps(want: Seq<u32>, il: int, k: int, place: int)
    requires
        0 <= k <= place < want.len() <= usize::MAX,
        want[place] == il,
    ensures
        taps_from(want, il, k).contains(Step::Tap { place: place as usize }),
    decreases want.len() - k,
{
    let all = taps_from(want, il, k);
    let t = Step::Tap { place: place as usize };
    if k == place {
        assert(all[0] == t);
    } else {
        lemma_taps(want, il, k + 1, place);
        let rest = taps_from(want, il, k + 1);
        let i = choose|i: int| 0 <= i < rest.len() && rest[i] == t;
        if want[k] == il {
            assert(all[i + 1] == t);
        } else {
            assert(all[i] == t);
        }
    }
}

/// The steps of more layers begin with those of fewer.
proof fn lemma_steps_prefix(cfg: Qwen35, want: Seq<u32>, k: int, n: int)
    requires
        0 <= k <= n,
    ensures
        steps_of(cfg, want, k).len() <= steps_of(cfg, want, n).len(),
        steps_of(cfg, want, n).take(steps_of(cfg, want, k).len() as int) == steps_of(cfg, want, k),
    decreases n - k,
{
    let a = steps_of(cfg, want, k);
    let b = steps_of(cfg, want, n);
    if k == n {
        assert(a.take(a.len() as int) =~= a);
    } else {
        lemma_steps_prefix(cfg, want, k, n - 1);
        let c = steps_of(cfg, want, n - 1);
        assert(b.take(a.len() as int) =~= c.take(a.len() as int));
    }
}

/// Each wanted layer's input is handed out under its place: behind the steps of the layers before
/// it, and in front of its own.
pub proof fn law_wants_are_tapped(cfg: Qwen35, want: Seq<u32>, place: int)
    requires
        0 <= place < want.len() <= usize::MAX,
        want[place] < cfg.n_layer,
    ensures
        ({
            let il = want[place] as int;
            let before = steps_of(cfg, want, il);
            let taps = taps_from(want, il, 0);
            let at = (before.len() + taps.len()) as int;
            let all = steps_of(cfg, want, cfg.n_layer as int);
            &&& taps.contains(Step::Tap { place: place as usize })
            &&& at < all.len()
            &&& all.take(at) == before + taps
            &&& all[at] == mixer_of(cfg, il)
        }),
{
    let il = want[place] as int;
    let before = steps_of(cfg, want, il);
    let taps = taps_from(want, il, 0);
    let at = (before.len() + taps.len()) as int;
    let all = steps_of(cfg, want, cfg.n_layer as int);
    let with = steps_of(cfg, want, il + 1);
    lemma_taps(want, il, 0, place);
    lemma_steps_prefix(cfg, want, il + 1, cfg.n_layer as int);
    assert(all.take(with.len() as int)[at] == all[at]);
    assert(all.take(at) =~= with.take(at)) by {
        assert(with == all.take(with.len() as int));
    }
    assert(with.take(at) =~= before + taps);
}

// ---- the tensors of a step ------------------------------------------------------------------

/// What a step does with a tensor.
#[derive(Debug, Clone, Copy, PartialEq, Eq, Structural)]
pub enum Role {
    /// The stream is normalized with it, for the step to work on.
    Norm,
    /// The normalized stream is multiplied by it.
    Input,
    /// The layer takes its values as they are.
    Values,
    /// What the layer gives is multiplied by it, and added to the stream.
    Output,
}

/// A tensor of a step.
#[derive(Debug)]
pub struct StepTensor {
    pub role: Role,
    pub name: String,
}

pub open spec fn parts_view(v: Seq<StepTensor>) -> Seq<(Role, Seq<char>)> {
    Seq::new(v.len(), |i: int| (v[i].role, v[i].name@))
}

/// The tensors that a step works with, in the order of their use.
pub open spec fn parts_of(step: Step) -> Seq<(Role, Seq<char>)> {
    match step {
        Step::Tap { .. } => Seq::empty(),
        Step::Attention { il } => seq![
            (Role::Norm, config::blk_text(il as int, "attn_norm.weight"@)),
            (Role::Input, config::blk_text(il as int, "attn_q.weight"@)),
            (Role::Input, config::blk_text(il as int, "attn_k.weight"@)),
            (Role::Input, config::blk_text(il as int, "attn_v.weight"@)),
            (Role::Values, config::blk_text(il as int, "attn_q_norm.weight"@)),
            (Role::Values, config::blk_text(il as int, "attn_k_norm.weight"@)),
            (Role::Output, config::blk_text(il as int, "attn_output.weight"@)),
        ],
        Step::Recurrent { il } => seq![
            (Role::Norm, config::blk_text(il as int, "attn_norm.weight"@)),
            (Role::Input, config::blk_text(il as int, "attn_qkv.weight"@)),
            (Role::Input, config::blk_text(il as int, "attn_gate.weight"@)),
            (Role::Input, config::blk_text(il as int, "ssm_beta.weight"@)),
            (Role::Input, config::blk_text(il as int, "ssm_alpha.weight"@)),
            (Role::Values, config::blk_text(il as int, "ssm_dt.bias"@)),
            (Role::Values, config::blk_text(il as int, "ssm_a"@)),
            (Role::Values, config::blk_text(il as int, "ssm_conv1d.weight"@)),
            (Role::Values, config::blk_text(il as int, "ssm_norm.weight"@)),
            (Role::Output, config::blk_text(il as int, "ssm_out.weight"@)),
        ],
        Step::Ffn { il } => seq![
            (Role::Norm, config::blk_text(il as int, "post_attention_norm.weight"@)),
            (Role::Input, config::blk_text(il as int, "ffn_gate.weight"@)),
            (Role::Input, config::blk_text(il as int, "ffn_up.weight"@)),
            (Role::Output, config::blk_text(il as int, "ffn_down.weight"@)),
        ],
        Step::Output => seq![(Role::Norm, "output_norm.weight"@)],
    }
}

fn add_part(out: &mut Vec<StepTensor>, cfg: &Qwen35, role: Role, il: usize, suffix: &str)
    ensures
        parts_view(final(out)@) == parts_view(old(out)@).push((role, config::blk_text(il as int, suffix@))),
{
    let ghost before = out@;
    out.push(StepTensor { role, name: cfg.blk_name(il, suffix) });
    assert(parts_view(out@) =~= parts_view(before).push((role, config::blk_text(il as int, suffix@))));
}

impl Step {
    /// The tensors that the step works with: the norm in front, then what the layer needs, then
    /// what its result is multiplied by.
    pub fn tensors(&self, cfg: &Qwen35) -> (r: Vec<StepTensor>)
        ensures
            parts_view(r@) == parts_of(*self),
    {
        let mut out: Vec<StepTensor> = Vec::new();
        assert(parts_view(out@) =~= Seq::<(Role, Seq<char>)>::empty());
        match self {
            Step::Tap { .. } => {},
            Step::Attention { il } => {
                add_part(&mut out, cfg, Role::Norm, *il, "attn_norm.weight");
                add_part(&mut out, cfg, Role::Input, *il, "attn_q.weight");
                add_part(&mut out, cfg, Role::Input, *il, "attn_k.weight");
                add_part(&mut out, cfg, Role::Input, *il, "attn_v.weight");
                add_part(&mut out, cfg, Role::Values, *il, "attn_q_norm.weight");
                add_part(&mut out, cfg, Role::Values, *il, "attn_k_norm.weight");
                add_part(&mut out, cfg, Role::Output, *il, "attn_output.weight");
            },
            Step::Recurrent { il } => {
                add_part(&mut out, cfg, Role::Norm, *il, "attn_norm.weight");
                add_part(&mut out, cfg, Role::Input, *il, "attn_qkv.weight");
                add_part(&mut out, cfg, Role::Input, *il, "attn_gate.weight");
                add_part(&mut out, cfg, Role::Input, *il, "ssm_beta.weight");
                add_part(&mut out, cfg, Role::Input, *il, "ssm_alpha.weight");
                add_part(&mut out, cfg, Role::Values, *il, "ssm_dt.bias");
                add_part(&mut out, cfg, Role::Values, *il, "ssm_a");
                add_part(&mut out, cfg, Role::Values, *il, "ssm_conv1d.weight");
                add_part(&mut out, cfg, Role::Values, *il, "ssm_norm.weight");
                add_part(&mut out, cfg, Role::Output, *il, "ssm_out.weight");
            },
            Step::Ffn { il } => {
                add_part(&mut out, cfg, Role::Norm, *il, "post_attention_norm.weight");
                add_part(&mut out, cfg, Role::Input, *il, "ffn_gate.weight");
                add_part(&mut out, cfg, Role::Input, *il, "ffn_up.weight");
                add_part(&mut out, cfg, Role::Output, *il, "ffn_down.weight");
            },
            Step::Output => {
                out.push(
                    StepTensor { role: Role::Norm, name: "output_norm.weight".to_owned() },
                );
            },
        }
        assert(parts_view(out@) =~= parts_of(*self));
        out
    }
}

// ---- the scale of scores ----------------------------------------------------------------------

/// One over the root of `n`: the scale of scores over vectors of `n` values.
pub open spec fn score_scale_of(n: nat) -> u32 {
    single::quotient_of(single::ONE, root::root_of(single::single_of(n)))
}

/// The scale of scores over vectors of `n` values.
pub fn score_scale(n: usize) -> (r: u32)
    ensures
        r == score_scale_of(n as nat),
{
    single::quotient(single::ONE, root::root(single::from_uint(n as u64)))
}

/// Checks the length of an embedding.
pub fn check_embedding(cfg: &Qwen35, len: usize) -> (r: Result<(), String>)
    ensures
        match r {
            Ok(_) => len == cfg.n_embd,
            Err(m) => len != cfg.n_embd && m@ == "decode_token: embedding len "@ + text::decimal(
                len as nat,
            ) + " != n_embd"@,
        },
{
    if len != cfg.n_embd {
        let mut m = "decode_token: embedding len ".to_owned();
        text::push_decimal(&mut m, len as u64);
        m.append(" != n_embd");
        return Err(m);
    }
    Ok(())
}

/// How many tokens the output has: its second dimension, if it has one.
pub fn vocab_size(head: Option<&TensorInfo>) -> (r: u64)
    ensures
        r == match head {
            Some(t) => if t.dims@.len() > 1 {
                t.dims@[1]
            } else {
                0
            },
            None => 0,
        },
{
    match head {
        Some(t) => if t.dims.len() > 1 {
            t.dims[1]
        } else {
            0
        },
        None => 0,
    }
}

} // verus!
