//! The speculator's own cache, and the plan of a draft: what is computed on what, position by
//! position, and which token each position is conditioned on.

use vstd::prelude::*;
use vstd::string::*;

use crate::dots;
use crate::dspark::DsparkCfg;
use crate::half;
use crate::sampler;
use crate::single;
use crate::text;

verus! {

// ---- the cache --------------------------------------------------------------------------------

/// Keys and values of each layer, as halves, and how many positions are filled.
#[derive(Debug)]
pub struct DraftCache {
    pub n_ctx: usize,
    pub n_kv_dim: usize,
    pub k16: Vec<Vec<u16>>,
    pub v16: Vec<Vec<u16>>,
    pub filled: usize,
}

/// Every layer has room for all positions.
pub open spec fn sized(s: Seq<Vec<u16>>, n: int) -> bool {
    forall|l: int| 0 <= l < s.len() ==> (#[trigger] s[l])@.len() == n
}

/// `b` is `a` but for row `pos` of layer `il`, which holds `row` rounded to halves.
pub open spec fn row_put(
    a: Seq<Vec<u16>>,
    b: Seq<Vec<u16>>,
    il: int,
    pos: int,
    dim: int,
    row: Seq<u32>,
) -> bool {
    &&& b.len() == a.len()
    &&& forall|l: int| 0 <= l < a.len() && l != il ==> (#[trigger] b[l])@ == a[l]@
    &&& b[il]@.len() == a[il]@.len()
    &&& forall|p: int|
        0 <= p < a[il]@.len() ==> if pos * dim <= p < (pos + 1) * dim {
            half::narrows(row[p - pos * dim], #[trigger] b[il]@[p])
        } else {
            b[il]@[p] == a[il]@[p]
        }
}

fn zeros(n: usize) -> (r: Vec<u16>)
    ensures
        r@.len() == n,
        forall|i: int| 0 <= i < n ==> r@[i] == 0,
{
    let mut v: Vec<u16> = Vec::new();
    let mut i: usize = 0;
    while i < n
        invariant
            i <= n,
            v@.len() == i,
            forall|k: int| 0 <= k < i ==> v@[k] == 0,
        decreases n - i,
    {
        v.push(0);
        i += 1;
    }
    v
}

fn layers(n_layer: usize, n: usize) -> (r: Vec<Vec<u16>>)
    ensures
        r@.len() == n_layer,
        sized(r@, n as int),
        forall|l: int, i: int| 0 <= l < n_layer && 0 <= i < n ==> #[trigger] r@[l]@[i] == 0,
{
    let mut v: Vec<Vec<u16>> = Vec::new();
    let mut l: usize = 0;
    while l < n_layer
        invariant
            l <= n_layer,
            v@.len() == l,
            sized(v@, n as int),
            forall|k: int, i: int| 0 <= k < l && 0 <= i < n ==> #[trigger] v@[k]@[i] == 0,
        decreases n_layer - l,
    {
        v.push(zeros(n));
        l += 1;
    }
    v
}

/// Puts a row into a layer, rounded to halves.
fn put_row(s: &mut Vec<Vec<u16>>, il: usize, dst: usize, dim: usize, row: &[u32], Ghost(pos): Ghost<
    int,
>)
    requires
        il < old(s)@.len(),
        dst == pos * dim,
        dst + dim <= old(s)@[il as int]@.len(),
        dim <= row@.len(),
    ensures
        row_put(old(s)@, final(s)@, il as int, pos, dim as int, row@),
{
    let mut layer: Vec<u16> = Vec::new();
    std::mem::swap(&mut layer, &mut s[il]);
    let ghost first = layer@;
    let n: usize = layer.len();
    let mut i: usize = 0;
    while i < dim
        invariant
            i <= dim <= row@.len(),
            dst + dim <= n,
            n == layer@.len(),
            layer@.len() == first.len(),
            forall|p: int|
                0 <= p < first.len() ==> if dst <= p < dst + i {
                    half::narrows(row@[p - dst], #[trigger] layer@[p])
                } else {
                    layer@[p] == first[p]
                },
        decreases dim - i,
    {
        layer.set(dst + i, half::f32_to_half(row[i]));
        i += 1;
    }
    std::mem::swap(&mut layer, &mut s[il]);
    proof {
        let d = dim as int;
        assert((pos + 1) * d == pos * d + d) by (nonlinear_arith);
    }
}

/// Widens the first `n` halves of a layer.
fn widen_row(s: &Vec<u16>, n: usize) -> (r: Vec<u32>)
    requires
        n <= s@.len(),
    ensures
        r@ == Seq::new(n as nat, |i: int| single::wide(s@[i])),
{
    let mut out: Vec<u32> = Vec::new();
    let mut i: usize = 0;
    while i < n
        invariant
            i <= n <= s@.len(),
            out@.len() == i,
            forall|k: int| 0 <= k < i ==> #[trigger] out@[k] == single::wide(s@[k]),
        decreases n - i,
    {
        out.push(single::widen(s[i]));
        i += 1;
    }
    assert(out@ =~= Seq::new(n as nat, |i: int| single::wide(s@[i])));
    out
}

impl DraftCache {
    pub open spec fn wf(&self) -> bool {
        &&& self.n_ctx * self.n_kv_dim <= usize::MAX
        &&& self.k16@.len() == self.v16@.len()
        &&& sized(self.k16@, self.n_ctx * self.n_kv_dim)
        &&& sized(self.v16@, self.n_ctx * self.n_kv_dim)
        &&& self.filled <= self.n_ctx
    }

    /// An empty cache.
    pub fn new(cfg: &DsparkCfg, n_ctx: usize) -> (r: DraftCache)
        requires
            cfg.n_head_kv * cfg.head_dim <= usize::MAX,
            n_ctx * (cfg.n_head_kv * cfg.head_dim) <= usize::MAX,
        ensures
            r.wf(),
            r.n_ctx == n_ctx,
            r.n_kv_dim == cfg.n_head_kv * cfg.head_dim,
            r.k16@.len() == cfg.n_layer,
            r.filled == 0,
            forall|l: int, i: int|
                0 <= l < cfg.n_layer && 0 <= i < n_ctx * r.n_kv_dim ==> #[trigger] r.k16@[l]@[i]
                    == 0,
            forall|l: int, i: int|
                0 <= l < cfg.n_layer && 0 <= i < n_ctx * r.n_kv_dim ==> #[trigger] r.v16@[l]@[i]
                    == 0,
    {
        let n_kv_dim: usize = cfg.n_head_kv * cfg.head_dim;
        let len: usize = n_ctx * n_kv_dim;
        DraftCache {
            n_ctx,
            n_kv_dim,
            k16: layers(cfg.n_layer, len),
            v16: layers(cfg.n_layer, len),
            filled: 0,
        }
    }

    /// Drops every position from `len` on.
    pub fn truncate(&mut self, len: usize)
        requires
            old(self).wf(),
        ensures
            final(self).wf(),
            final(self).filled == if old(self).filled <= len {
                old(self).filled
            } else {
                len
            },
            final(self).n_ctx == old(self).n_ctx,
            final(self).n_kv_dim == old(self).n_kv_dim,
            final(self).k16 == old(self).k16,
            final(self).v16 == old(self).v16,
    {
        if self.filled > len {
            self.filled = len;
        }
    }

    /// Counts positions up to `end` as filled.
    pub fn fill_to(&mut self, end: usize)
        requires
            old(self).wf(),
            end <= old(self).n_ctx,
        ensures
            final(self).wf(),
            final(self).filled == if old(self).filled >= end {
                old(self).filled
            } else {
                end
            },
            final(self).n_ctx == old(self).n_ctx,
            final(self).n_kv_dim == old(self).n_kv_dim,
            final(self).k16 == old(self).k16,
            final(self).v16 == old(self).v16,
    {
        if self.filled < end {
            self.filled = end;
        }
    }

    /// The keys and the values of a layer's filled positions.
    pub fn prefix_f32(&self, il: usize) -> (r: (Vec<u32>, Vec<u32>))
        requires
            self.wf(),
            il < self.k16@.len(),
        ensures
            r.0@ == Seq::new(
                (self.filled * self.n_kv_dim) as nat,
                |i: int| single::wide(self.k16@[il as int]@[i]),
            ),
            r.1@ == Seq::new(
                (self.filled * self.n_kv_dim) as nat,
                |i: int| single::wide(self.v16@[il as int]@[i]),
            ),
    {
        proof {
            let (f, c, d) = (self.filled as int, self.n_ctx as int, self.n_kv_dim as int);
            assert(0 <= f * d <= c * d) by (nonlinear_arith)
                requires
                    0 <= f <= c,
                    0 <= d,
            ;
            assert(self.k16@[il as int]@.len() == c * d);
            assert(self.v16@[il as int]@.len() == c * d);
        }
        let n: usize = self.filled * self.n_kv_dim;
        (widen_row(&self.k16[il], n), widen_row(&self.v16[il], n))
    }

    /// Sets one position of a layer.
    pub fn put(&mut self, il: usize, pos: usize, k: &[u32], v: &[u32])
        requires
            old(self).wf(),
            il < old(self).k16@.len(),
            pos < old(self).n_ctx,
            old(self).n_kv_dim <= k@.len(),
            old(self).n_kv_dim <= v@.len(),
        ensures
            final(self).wf(),
            final(self).n_ctx == old(self).n_ctx,
            final(self).n_kv_dim == old(self).n_kv_dim,
            final(self).filled == old(self).filled,
            row_put(
                old(self).k16@,
                final(self).k16@,
                il as int,
                pos as int,
                old(self).n_kv_dim as int,
                k@,
            ),
            row_put(
                old(self).v16@,
                final(self).v16@,
                il as int,
                pos as int,
                old(self).n_kv_dim as int,
                v@,
            ),
    {
        let ghost first = *self;
        let dim: usize = self.n_kv_dim;
        proof {
            let (p, c, d) = (pos as int, self.n_ctx as int, dim as int);
            assert(0 <= p * d && p * d + d <= c * d) by (nonlinear_arith)
                requires
                    0 <= p < c,
                    0 <= d,
            ;
            assert(self.k16@[il as int]@.len() == c * d);
            assert(self.v16@[il as int]@.len() == c * d);
        }
        let dst: usize = pos * dim;
        put_row(&mut self.k16, il, dst, dim, k, Ghost(pos as int));
        put_row(&mut self.v16, il, dst, dim, v, Ghost(pos as int));
        proof {
            let n = first.n_ctx * first.n_kv_dim;
            assert(sized(self.k16@, n)) by {
                assert forall|l: int| 0 <= l < self.k16@.len() implies (#[trigger] self.k16@[l])@.len()
                    == n by {
                    assert(first.k16@[l]@.len() == n);
                    if l != il {
                        assert(self.k16@[l]@ == first.k16@[l]@);
                    }
                }
            }
            assert(sized(self.v16@, n)) by {
                assert forall|l: int| 0 <= l < self.v16@.len() implies (#[trigger] self.v16@[l])@.len()
                    == n by {
                    assert(first.v16@[l]@.len() == n);
                    if l != il {
                        assert(self.v16@[l]@ == first.v16@[l]@);
                    }
                }
            }
        }
    }
}

// ---- the plan of a draft ----------------------------------------------------------------------

/// A weight of a layer, or of the output where the layer does not matter.
#[derive(Debug, Clone, Copy, PartialEq, Eq, Structural)]
pub enum Weight {
    AttnNorm,
    AttnQNorm,
    AttnKNorm,
    AttnQ,
    AttnK,
    AttnV,
    AttnOutput,
    FfnNorm,
    FfnGate,
    FfnUp,
    FfnDown,
    OutputNorm,
    Output,
}

/// The name of a layer's weight within the layer.
pub open spec fn short_name(w: Weight) -> Seq<char> {
    match w {
        Weight::AttnNorm => "attn_norm.weight"@,
        Weight::AttnQNorm => "attn_q_norm.weight"@,
        Weight::AttnKNorm => "attn_k_norm.weight"@,
        Weight::AttnQ => "attn_q.weight"@,
        Weight::AttnK => "attn_k.weight"@,
        Weight::AttnV => "attn_v.weight"@,
        Weight::AttnOutput => "attn_output.weight"@,
        Weight::FfnNorm => "ffn_norm.weight"@,
        Weight::FfnGate => "ffn_gate.weight"@,
        Weight::FfnUp => "ffn_up.weight"@,
        Weight::FfnDown => "ffn_down.weight"@,
        Weight::OutputNorm => "output_norm.weight"@,
        Weight::Output => "output.weight"@,
    }
}

/// The name of a weight's tensor.
pub open spec fn tensor_of(w: Weight, il: nat) -> Seq<char> {
    if w == Weight::OutputNorm || w == Weight::Output {
        short_name(w)
    } else {
        "blk."@ + text::decimal(il) + "."@ + short_name(w)
    }
}

impl Weight {
    fn short(&self) -> (r: &'static str)
        ensures
            r@ == short_name(*self),
    {
        match self {
            Weight::AttnNorm => "attn_norm.weight",
            Weight::AttnQNorm => "attn_q_norm.weight",
            Weight::AttnKNorm => "attn_k_norm.weight",
            Weight::AttnQ => "attn_q.weight",
            Weight::AttnK => "attn_k.weight",
            Weight::AttnV => "attn_v.weight",
            Weight::AttnOutput => "attn_output.weight",
            Weight::FfnNorm => "ffn_norm.weight",
            Weight::FfnGate => "ffn_gate.weight",
            Weight::FfnUp => "ffn_up.weight",
            Weight::FfnDown => "ffn_down.weight",
            Weight::OutputNorm => "output_norm.weight",
            Weight::Output => "output.weight",
        }
    }

    /// The name of the weight's tensor.
    pub fn tensor(&self, il: usize) -> (r: String)
        ensures
            r@ == tensor_of(*self, il as nat),
    {
        match self {
            Weight::OutputNorm | Weight::Output => self.short().to_owned(),
            _ => {
                let mut m = "blk.".to_owned();
                text::push_decimal(&mut m, il as u64);
                m.append(".");
                m.append(self.short());
                m
            },
        }
    }
}

/// A matrix with a row for each position of the block.
#[derive(Debug, Clone, Copy, PartialEq, Eq, Structural)]
pub enum Rows {
    /// Hidden states.
    X,
    /// Normed states.
    Xn,
    Q,
    K,
    V,
    Attn,
    O,
    /// States behind the attention.
    Y,
    Gate,
    Up,
    Down,
    /// The states that the heads see.
    Emb,
    /// Logits without the Markov bias.
    Base,
}

/// One step of a draft.
#[derive(Debug, Clone, Copy, PartialEq, Eq, Structural)]
pub enum DraftOp {
    /// Row `t` of the states is the embedding of a token.
    Embed { t: usize, token: u32 },
    /// Row `t` of the states gets the embedding of the log-SNR added: the largest at an anchor,
    /// else the smallest.
    Snr { t: usize, anchor: bool },
    /// Row `t` of `dst` is that of `src`, normed.
    Norm { weight: Weight, il: usize, src: Rows, dst: Rows, t: usize },
    /// `dst` is the product of a weight with every row of `src`.
    Matmul { weight: Weight, il: usize, src: Rows, dst: Rows },
    /// A head of row `t` is normed and turned to its position.
    Head { weight: Weight, il: usize, rows: Rows, t: usize, h: usize, pos: usize },
    /// Row `t` of the keys and values goes to a position of the cache.
    Put { il: usize, t: usize, pos: usize },
    /// Positions below `end` count as filled.
    Fill { end: usize },
    /// Head `h` of row `t` attends to the first `n_pos` positions of its group's head.
    Attend { il: usize, t: usize, h: usize, kv: usize, n_pos: usize },
    /// `dst` is the sum of two matrices.
    Sum { a: Rows, b: Rows, dst: Rows },
    /// Gate rows, activated, times the up projection.
    Gate,
}

/// The shape of a block.
pub struct Block {
    pub n_tok: int,
    pub n_past: int,
    pub n_head: int,
    pub n_head_kv: int,
    /// How many positions are filled once the block is put.
    pub filled: int,
    /// Every position sees all that is filled, and not only those up to its own.
    pub noncausal: bool,
}

/// The first `k` embeddings: the last token, then masks.
pub open spec fn embed_ops(last: u32, mask: u32, k: int) -> Seq<DraftOp>
    decreases k,
{
    if k <= 0 {
        Seq::empty()
    } else {
        embed_ops(last, mask, k - 1).push(
            DraftOp::Embed {
                t: (k - 1) as usize,
                token: if k == 1 {
                    last
                } else {
                    mask
                },
            },
        )
    }
}

/// The first `k` log-SNR embeddings: one anchor in each block of `size`.
pub open spec fn snr_ops(size: int, k: int) -> Seq<DraftOp>
    decreases k,
{
    if k <= 0 {
        Seq::empty()
    } else {
        snr_ops(size, k - 1).push(
            DraftOp::Snr { t: (k - 1) as usize, anchor: (k - 1) % size == 0 },
        )
    }
}

/// The first `k` rows normed.
pub open spec fn norm_ops(w: Weight, il: int, src: Rows, dst: Rows, k: int) -> Seq<DraftOp>
    decreases k,
{
    if k <= 0 {
        Seq::empty()
    } else {
        norm_ops(w, il, src, dst, k - 1).push(
            DraftOp::Norm { weight: w, il: il as usize, src, dst, t: (k - 1) as usize },
        )
    }
}

/// The first `k` heads of row `t`.
pub open spec fn head_ops(w: Weight, il: int, rows: Rows, t: int, pos: int, k: int) -> Seq<DraftOp>
    decreases k,
{
    if k <= 0 {
        Seq::empty()
    } else {
        head_ops(w, il, rows, t, pos, k - 1).push(
            DraftOp::Head {
                weight: w,
                il: il as usize,
                rows,
                t: t as usize,
                h: (k - 1) as usize,
                pos: pos as usize,
            },
        )
    }
}

/// The first `k` rows: their heads turned, their keys and values put into the cache.
pub open spec fn put_ops(b: Block, il: int, k: int) -> Seq<DraftOp>
    decreases k,
{
    if k <= 0 {
        Seq::empty()
    } else {
        let t = k - 1;
        let pos = b.n_past + t;
        put_ops(b, il, t) + head_ops(Weight::AttnQNorm, il, Rows::Q, t, pos, b.n_head) + head_ops(
            Weight::AttnKNorm,
            il,
            Rows::K,
            t,
            pos,
            b.n_head_kv,
        ) + seq![DraftOp::Put { il: il as usize, t: t as usize, pos: pos as usize }]
    }
}

/// How many positions row `t` sees.
pub open spec fn seen(b: Block, t: int) -> int {
    if b.noncausal {
        b.filled
    } else {
        b.n_past + t + 1
    }
}

/// The first `k` heads of row `t` attend.
pub open spec fn attend_row(b: Block, il: int, t: int, k: int) -> Seq<DraftOp>
    decreases k,
{
    if k <= 0 {
        Seq::empty()
    } else {
        attend_row(b, il, t, k - 1).push(
            DraftOp::Attend {
                il: il as usize,
                t: t as usize,
                h: (k - 1) as usize,
                kv: ((k - 1) / (b.n_head / b.n_head_kv)) as usize,
                n_pos: seen(b, t) as usize,
            },
        )
    }
}

/// The first `k` rows attend.
pub open spec fn attend_ops(b: Block, il: int, k: int) -> Seq<DraftOp>
    decreases k,
{
    if k <= 0 {
        Seq::empty()
    } else {
        attend_ops(b, il, k - 1) + attend_row(b, il, k - 1, b.n_head)
    }
}

pub open spec fn matmul(w: Weight, il: int, src: Rows, dst: Rows) -> DraftOp {
    DraftOp::Matmul { weight: w, il: il as usize, src, dst }
}

/// One layer.
pub open spec fn layer_ops(b: Block, il: int) -> Seq<DraftOp> {
    norm_ops(Weight::AttnNorm, il, Rows::X, Rows::Xn, b.n_tok) + seq![
        matmul(Weight::AttnQ, il, Rows::Xn, Rows::Q),
        matmul(Weight::AttnK, il, Rows::Xn, Rows::K),
        matmul(Weight::AttnV, il, Rows::Xn, Rows::V),
    ] + put_ops(b, il, b.n_tok) + seq![DraftOp::Fill { end: (b.n_past + b.n_tok) as usize }]
        + attend_ops(b, il, b.n_tok) + seq![
        matmul(Weight::AttnOutput, il, Rows::Attn, Rows::O),
        DraftOp::Sum { a: Rows::X, b: Rows::O, dst: Rows::Y },
    ] + norm_ops(Weight::FfnNorm, il, Rows::Y, Rows::Xn, b.n_tok) + seq![
        matmul(Weight::FfnGate, il, Rows::Xn, Rows::Gate),
        matmul(Weight::FfnUp, il, Rows::Xn, Rows::Up),
        DraftOp::Gate,
        matmul(Weight::FfnDown, il, Rows::Gate, Rows::Down),
        DraftOp::Sum { a: Rows::Y, b: Rows::Down, dst: Rows::X },
    ]
}

/// The first `k` layers.
pub open spec fn layers_ops(b: Block, k: int) -> Seq<DraftOp>
    decreases k,
{
    if k <= 0 {
        Seq::empty()
    } else {
        layers_ops(b, k - 1) + layer_ops(b, k - 1)
    }
}

/// The last norm and the head.
pub open spec fn output_ops(b: Block) -> Seq<DraftOp> {
    norm_ops(Weight::OutputNorm, 0, Rows::X, Rows::Emb, b.n_tok).push(
        matmul(Weight::Output, 0, Rows::Emb, Rows::Base),
    )
}

/// The shape of the block that follows `n_past` positions.
pub open spec fn block_of(
    c: DsparkCfg,
    filled: int,
    n_past: int,
    anchorless: bool,
    noncausal: bool,
) -> Block {
    let n_tok = c.block_size + if anchorless {
        1int
    } else {
        0
    };
    Block {
        n_tok,
        n_past,
        n_head: c.n_head as int,
        n_head_kv: c.n_head_kv as int,
        filled: if filled >= n_past + n_tok {
            filled
        } else {
            n_past + n_tok
        },
        noncausal,
    }
}

/// What is done before the room in the cache is looked at.
pub open spec fn start_ops(c: DsparkCfg, n_tok: int, last: u32) -> Seq<DraftOp> {
    embed_ops(last, c.mask_token_id, n_tok) + if c.log_snr is Some {
        snr_ops(c.block_size as int, n_tok)
    } else {
        Seq::empty()
    }
}

/// A draft: the steps, and the error that follows them, if any.
#[derive(Debug)]
pub struct Draft {
    pub ops: Vec<DraftOp>,
    pub error: Option<String>,
    pub n_tok: usize,
}

fn push_all(out: &mut Vec<DraftOp>, w: Weight, il: usize, src: Rows, dst: Rows, n: usize)
    ensures
        final(out)@ == old(out)@ + norm_ops(w, il as int, src, dst, n as int),
{
    let mut t: usize = 0;
    assert(out@ =~= old(out)@ + norm_ops(w, il as int, src, dst, 0));
    while t < n
        invariant
            t <= n,
            out@ == old(out)@ + norm_ops(w, il as int, src, dst, t as int),
        decreases n - t,
    {
        out.push(DraftOp::Norm { weight: w, il, src, dst, t });
        t += 1;
        assert(out@ =~= old(out)@ + norm_ops(w, il as int, src, dst, t as int));
    }
}

fn push_heads(out: &mut Vec<DraftOp>, w: Weight, il: usize, rows: Rows, t: usize, pos: usize, n: usize)
    ensures
        final(out)@ == old(out)@ + head_ops(w, il as int, rows, t as int, pos as int, n as int),
{
    let mut h: usize = 0;
    assert(out@ =~= old(out)@ + head_ops(w, il as int, rows, t as int, pos as int, 0));
    while h < n
        invariant
            h <= n,
            out@ == old(out)@ + head_ops(w, il as int, rows, t as int, pos as int, h as int),
        decreases n - h,
    {
        out.push(DraftOp::Head { weight: w, il, rows, t, h, pos });
        h += 1;
        assert(out@ =~= old(out)@ + head_ops(w, il as int, rows, t as int, pos as int, h as int));
    }
}

/// The shape of a block, as the plan carries it.
#[derive(Debug, Clone, Copy)]
struct Shape {
    n_tok: usize,
    n_past: usize,
    n_head: usize,
    n_head_kv: usize,
    filled: usize,
    noncausal: bool,
}

impl Shape {
    spec fn view(&self) -> Block {
        Block {
            n_tok: self.n_tok as int,
            n_past: self.n_past as int,
            n_head: self.n_head as int,
            n_head_kv: self.n_head_kv as int,
            filled: self.filled as int,
            noncausal: self.noncausal,
        }
    }

    spec fn ok(&self) -> bool {
        &&& self.n_past + self.n_tok <= usize::MAX
        &&& 0 < self.n_head_kv <= self.n_head
    }
}

fn push_puts(out: &mut Vec<DraftOp>, b: &Shape, il: usize)
    requires
        b.ok(),
    ensures
        final(out)@ == old(out)@ + put_ops(b@, il as int, b.n_tok as int),
{
    let mut t: usize = 0;
    assert(out@ =~= old(out)@ + put_ops(b@, il as int, 0));
    while t < b.n_tok
        invariant
            b.ok(),
            t <= b.n_tok,
            out@ == old(out)@ + put_ops(b@, il as int, t as int),
        decreases b.n_tok - t,
    {
        let pos: usize = b.n_past + t;
        push_heads(out, Weight::AttnQNorm, il, Rows::Q, t, pos, b.n_head);
        push_heads(out, Weight::AttnKNorm, il, Rows::K, t, pos, b.n_head_kv);
        out.push(DraftOp::Put { il, t, pos });
        t += 1;
        assert(out@ =~= old(out)@ + put_ops(b@, il as int, t as int));
    }
}

fn push_attends(out: &mut Vec<DraftOp>, b: &Shape, il: usize)
    requires
        b.ok(),
    ensures
        final(out)@ == old(out)@ + attend_ops(b@, il as int, b.n_tok as int),
{
    let group: usize = b.n_head / b.n_head_kv;
    proof {
        let (h, k) = (b.n_head as int, b.n_head_kv as int);
        vstd::arithmetic::div_mod::lemma_div_is_ordered(k, h, k);
        vstd::arithmetic::div_mod::lemma_div_by_self(k);
    }
    let mut t: usize = 0;
    assert(out@ =~= old(out)@ + attend_ops(b@, il as int, 0));
    while t < b.n_tok
        invariant
            b.ok(),
            t <= b.n_tok,
            group == b.n_head as int / b.n_head_kv as int,
            group >= 1,
            out@ == old(out)@ + attend_ops(b@, il as int, t as int),
        decreases b.n_tok - t,
    {
        let n_pos: usize = if b.noncausal {
            b.filled
        } else {
            b.n_past + t + 1
        };
        let ghost before = out@;
        let mut h: usize = 0;
        assert(out@ =~= before + attend_row(b@, il as int, t as int, 0));
        while h < b.n_head
            invariant
                b.ok(),
                h <= b.n_head,
                n_pos == seen(b@, t as int),
                group == b.n_head as int / b.n_head_kv as int,
                group >= 1,
                out@ == before + attend_row(b@, il as int, t as int, h as int),
            decreases b.n_head - h,
        {
            out.push(DraftOp::Attend { il, t, h, kv: h / group, n_pos });
            h += 1;
            assert(out@ =~= before + attend_row(b@, il as int, t as int, h as int));
        }
        t += 1;
        assert(out@ =~= old(out)@ + attend_ops(b@, il as int, t as int));
    }
}

fn push_layer(out: &mut Vec<DraftOp>, b: &Shape, il: usize)
    requires
        b.ok(),
    ensures
        final(out)@ == old(out)@ + layer_ops(b@, il as int),
{
    push_all(out, Weight::AttnNorm, il, Rows::X, Rows::Xn, b.n_tok);
    out.push(DraftOp::Matmul { weight: Weight::AttnQ, il, src: Rows::Xn, dst: Rows::Q });
    out.push(DraftOp::Matmul { weight: Weight::AttnK, il, src: Rows::Xn, dst: Rows::K });
    out.push(DraftOp::Matmul { weight: Weight::AttnV, il, src: Rows::Xn, dst: Rows::V });
    push_puts(out, b, il);
    out.push(DraftOp::Fill { end: b.n_past + b.n_tok });
    push_attends(out, b, il);
    out.push(DraftOp::Matmul { weight: Weight::AttnOutput, il, src: Rows::Attn, dst: Rows::O });
    out.push(DraftOp::Sum { a: Rows::X, b: Rows::O, dst: Rows::Y });
    push_all(out, Weight::FfnNorm, il, Rows::Y, Rows::Xn, b.n_tok);
    out.push(DraftOp::Matmul { weight: Weight::FfnGate, il, src: Rows::Xn, dst: Rows::Gate });
    out.push(DraftOp::Matmul { weight: Weight::FfnUp, il, src: Rows::Xn, dst: Rows::Up });
    out.push(DraftOp::Gate);
    out.push(DraftOp::Matmul { weight: Weight::FfnDown, il, src: Rows::Gate, dst: Rows::Down });
    out.push(DraftOp::Sum { a: Rows::Y, b: Rows::Down, dst: Rows::X });
    assert(out@ =~= old(out)@ + layer_ops(b@, il as int));
}

fn push_start(out: &mut Vec<DraftOp>, c: &DsparkCfg, n_tok: usize, last: u32)
    requires
        c.log_snr is Some ==> c.block_size > 0,
    ensures
        final(out)@ == old(out)@ + start_ops(*c, n_tok as int, last),
{
    let mut t: usize = 0;
    assert(out@ =~= old(out)@ + embed_ops(last, c.mask_token_id, 0));
    while t < n_tok
        invariant
            t <= n_tok,
            out@ == old(out)@ + embed_ops(last, c.mask_token_id, t as int),
        decreases n_tok - t,
    {
        let token: u32 = if t == 0 {
            last
        } else {
            c.mask_token_id
        };
        out.push(DraftOp::Embed { t, token });
        t += 1;
        assert(out@ =~= old(out)@ + embed_ops(last, c.mask_token_id, t as int));
    }
    let ghost before = out@;
    if c.log_snr.is_some() {
        let mut t: usize = 0;
        assert(out@ =~= before + snr_ops(c.block_size as int, 0));
        while t < n_tok
            invariant
                t <= n_tok,
                c.block_size > 0,
                out@ == before + snr_ops(c.block_size as int, t as int),
            decreases n_tok - t,
        {
            out.push(DraftOp::Snr { t, anchor: t % c.block_size == 0 });
            t += 1;
            assert(out@ =~= before + snr_ops(c.block_size as int, t as int));
        }
    }
    assert(out@ =~= old(out)@ + start_ops(*c, n_tok as int, last));
}

/// Plans the draft of a block: the last token and masks, behind `n_past` positions.
pub fn draft_block(
    c: &DsparkCfg,
    n_ctx: usize,
    filled: usize,
    last: u32,
    n_past: usize,
    anchorless: bool,
    noncausal: bool,
) -> (r: Draft)
    requires
        0 < c.n_head_kv <= c.n_head,
        c.log_snr is Some ==> c.block_size > 0,
        n_past + c.block_size + 1 <= usize::MAX,
    ensures
        ({
            let b = block_of(*c, filled as int, n_past as int, anchorless, noncausal);
            let end = n_past + b.n_tok;
            &&& r.n_tok == b.n_tok
            &&& if end > n_ctx {
                &&& r.ops@ == start_ops(*c, b.n_tok, last)
                &&& r.error matches Some(m) && m@ == "dspark: block end "@ + text::decimal(
                    end as nat,
                ) + " > ctx "@ + text::decimal(n_ctx as nat)
            } else {
                &&& r.ops@ == start_ops(*c, b.n_tok, last) + layers_ops(b, c.n_layer as int)
                    + output_ops(b)
                &&& r.error is None
            }
        }),
{
    let n_tok: usize = if anchorless {
        c.block_size + 1
    } else {
        c.block_size
    };
    let end: usize = n_past + n_tok;
    let mut ops: Vec<DraftOp> = Vec::new();
    push_start(&mut ops, c, n_tok, last);
    assert(ops@ =~= start_ops(*c, n_tok as int, last));
    if end > n_ctx {
        let mut m = "dspark: block end ".to_owned();
        text::push_decimal(&mut m, end as u64);
        m.append(" > ctx ");
        text::push_decimal(&mut m, n_ctx as u64);
        return Draft { ops, error: Some(m), n_tok };
    }
    let b = Shape {
        n_tok,
        n_past,
        n_head: c.n_head,
        n_head_kv: c.n_head_kv,
        filled: if filled >= end {
            filled
        } else {
            end
        },
        noncausal,
    };
    let ghost bv = block_of(*c, filled as int, n_past as int, anchorless, noncausal);
    assert(b@ == bv);
    let ghost before = ops@;
    let mut il: usize = 0;
    assert(ops@ =~= before + layers_ops(bv, 0));
    while il < c.n_layer
        invariant
            b.ok(),
            b@ == bv,
            il <= c.n_layer,
            ops@ == before + layers_ops(bv, il as int),
        decreases c.n_layer - il,
    {
        push_layer(&mut ops, &b, il);
        il += 1;
        assert(ops@ =~= before + layers_ops(bv, il as int));
    }
    push_all(&mut ops, Weight::OutputNorm, 0, Rows::X, Rows::Emb, n_tok);
    ops.push(
        DraftOp::Matmul { weight: Weight::Output, il: 0, src: Rows::Emb, dst: Rows::Base },
    );
    assert(ops@ =~= before + layers_ops(bv, c.n_layer as int) + output_ops(bv));
    Draft { ops, error: None, n_tok }
}

/// A causal draft sees its own past only, and all of it: row `t` sees the positions up to its
/// own, and no position that is not filled by then.
pub proof fn law_draft_is_causal(
    c: DsparkCfg,
    filled: int,
    n_past: int,
    anchorless: bool,
    t: int,
)
    requires
        0 <= t < block_of(c, filled, n_past, anchorless, false).n_tok,
    ensures
        seen(block_of(c, filled, n_past, anchorless, false), t) == n_past + t + 1,
        seen(block_of(c, filled, n_past, anchorless, false), t) <= block_of(
            c,
            filled,
            n_past,
            anchorless,
            false,
        ).filled,
{
}

// ---- injecting --------------------------------------------------------------------------------

/// The first `k` tokens of a layer: their keys and values are projected, turned and put.
pub open spec fn inject_row(il: int, n_head_kv: int, positions: Seq<usize>, k: int) -> Seq<DraftOp>
    decreases k,
{
    if k <= 0 {
        Seq::empty()
    } else {
        let t = k - 1;
        inject_row(il, n_head_kv, positions, t) + head_ops(
            Weight::AttnKNorm,
            il,
            Rows::K,
            t,
            positions[t] as int,
            n_head_kv,
        ) + seq![DraftOp::Put { il: il as usize, t: t as usize, pos: positions[t] }]
    }
}

/// The first `k` layers.
pub open spec fn inject_ops(n_head_kv: int, positions: Seq<usize>, k: int) -> Seq<DraftOp>
    decreases k,
{
    if k <= 0 {
        Seq::empty()
    } else {
        inject_ops(n_head_kv, positions, k - 1) + seq![
            matmul(Weight::AttnK, k - 1, Rows::X, Rows::K),
            matmul(Weight::AttnV, k - 1, Rows::X, Rows::V),
        ] + inject_row(k - 1, n_head_kv, positions, positions.len() as int)
    }
}

/// One past the largest of the first `k` positions.
pub open spec fn end_of(positions: Seq<usize>, k: int) -> int
    decreases k,
{
    if k <= 0 {
        0
    } else if positions[k - 1] + 1 > end_of(positions, k - 1) {
        positions[k - 1] + 1
    } else {
        end_of(positions, k - 1)
    }
}

/// The first position that the cache has no room for.
pub open spec fn first_outside(positions: Seq<usize>, n_ctx: int, k: int) -> Option<int>
    decreases positions.len() - k,
{
    if k < 0 || k >= positions.len() {
        None
    } else if positions[k] >= n_ctx {
        Some(k)
    } else {
        first_outside(positions, n_ctx, k + 1)
    }
}

fn find_outside(positions: &[usize], n_ctx: usize) -> (r: Option<usize>)
    ensures
        match r {
            Some(k) => k < positions@.len() && first_outside(positions@, n_ctx as int, 0) == Some(
                k as int,
            ),
            None => first_outside(positions@, n_ctx as int, 0) is None && forall|i: int|
                0 <= i < positions@.len() ==> #[trigger] positions@[i] < n_ctx,
        },
{
    let n: usize = positions.len();
    let mut k: usize = 0;
    while k < n
        invariant
            k <= n,
            n == positions@.len(),
            first_outside(positions@, n_ctx as int, 0) == first_outside(
                positions@,
                n_ctx as int,
                k as int,
            ),
            forall|i: int| 0 <= i < k ==> #[trigger] positions@[i] < n_ctx,
        decreases n - k,
    {
        if positions[k] >= n_ctx {
            return Some(k);
        }
        k += 1;
    }
    None
}

fn push_injects(out: &mut Vec<DraftOp>, il: usize, n_head_kv: usize, positions: &[usize], n: usize)
    requires
        n <= positions@.len(),
    ensures
        final(out)@ == old(out)@ + inject_row(
            il as int,
            n_head_kv as int,
            positions@,
            n as int,
        ),
{
    let mut t: usize = 0;
    assert(out@ =~= old(out)@ + inject_row(il as int, n_head_kv as int, positions@, 0));
    while t < n
        invariant
            t <= n <= positions@.len(),
            out@ == old(out)@ + inject_row(il as int, n_head_kv as int, positions@, t as int),
        decreases n - t,
    {
        push_heads(out, Weight::AttnKNorm, il, Rows::K, t, positions[t], n_head_kv);
        out.push(DraftOp::Put { il, t, pos: positions[t] });
        t += 1;
        assert(out@ =~= old(out)@ + inject_row(
            il as int,
            n_head_kv as int,
            positions@,
            t as int,
        ));
    }
}

/// Plans how committed features, `len` values in all, go into the cache at their positions.
pub fn inject(c: &DsparkCfg, n_ctx: usize, len: usize, positions: &[usize]) -> (r: Draft)
    requires
        positions@.len() * c.n_embd <= usize::MAX,
        forall|i: int| 0 <= i < positions@.len() ==> #[trigger] positions@[i] < usize::MAX,
    ensures
        r.n_tok == positions@.len(),
        ({
            let bad = first_outside(positions@, n_ctx as int, 0);
            if len != positions@.len() * c.n_embd {
                &&& r.ops@.len() == 0
                &&& r.error matches Some(m) && m@ == "dspark inject: inp_g width mismatch"@
            } else if bad is Some && c.n_layer > 0 {
                &&& r.ops@ == seq![
                    matmul(Weight::AttnK, 0, Rows::X, Rows::K),
                    matmul(Weight::AttnV, 0, Rows::X, Rows::V),
                ] + inject_row(0, c.n_head_kv as int, positions@, bad->0)
                &&& r.error matches Some(m) && m@ == "dspark inject: pos "@ + text::decimal(
                    positions@[bad->0] as nat,
                ) + " >= ctx "@ + text::decimal(n_ctx as nat)
            } else {
                &&& r.ops@ == inject_ops(c.n_head_kv as int, positions@, c.n_layer as int).push(
                    DraftOp::Fill { end: end_of(positions@, positions@.len() as int) as usize },
                )
                &&& r.error is None
            }
        }),
{
    let n: usize = positions.len();
    let mut ops: Vec<DraftOp> = Vec::new();
    if len != n * c.n_embd {
        return Draft {
            ops,
            error: Some("dspark inject: inp_g width mismatch".to_owned()),
            n_tok: n,
        };
    }
    if c.n_layer > 0 {
        if let Some(k) = find_outside(positions, n_ctx) {
            ops.push(
                DraftOp::Matmul { weight: Weight::AttnK, il: 0, src: Rows::X, dst: Rows::K },
            );
            ops.push(
                DraftOp::Matmul { weight: Weight::AttnV, il: 0, src: Rows::X, dst: Rows::V },
            );
            push_injects(&mut ops, 0, c.n_head_kv, positions, k);
            let mut m = "dspark inject: pos ".to_owned();
            text::push_decimal(&mut m, positions[k] as u64);
            m.append(" >= ctx ");
            text::push_decimal(&mut m, n_ctx as u64);
            return Draft { ops, error: Some(m), n_tok: n };
        }
    }
    let mut il: usize = 0;
    assert(ops@ =~= inject_ops(c.n_head_kv as int, positions@, 0));
    while il < c.n_layer
        invariant
            il <= c.n_layer,
            n == positions@.len(),
            ops@ == inject_ops(c.n_head_kv as int, positions@, il as int),
        decreases c.n_layer - il,
    {
        ops.push(DraftOp::Matmul { weight: Weight::AttnK, il, src: Rows::X, dst: Rows::K });
        ops.push(DraftOp::Matmul { weight: Weight::AttnV, il, src: Rows::X, dst: Rows::V });
        push_injects(&mut ops, il, c.n_head_kv, positions, n);
        il += 1;
        assert(ops@ =~= inject_ops(c.n_head_kv as int, positions@, il as int));
    }
    let mut end: usize = 0;
    let mut k: usize = 0;
    while k < n
        invariant
            k <= n,
            n == positions@.len(),
            end == end_of(positions@, k as int),
            forall|i: int| 0 <= i < positions@.len() ==> #[trigger] positions@[i] < usize::MAX,
        decreases n - k,
    {
        if positions[k] >= end {
            end = positions[k] + 1;
        }
        k += 1;
    }
    ops.push(DraftOp::Fill { end });
    Draft { ops, error: None, n_tok: n }
}

// ---- the Markov head --------------------------------------------------------------------------

/// The chain of a block's positions: each is conditioned on the best token of the one before.
#[derive(Debug, Clone, Copy, PartialEq, Eq, Structural)]
pub struct Markov {
    /// The position to be computed.
    pub t: usize,
    /// The token that it is conditioned on.
    pub prev: u32,
    /// Positions in all.
    pub n_tok: usize,
    /// The bias is left out.
    pub no_bias: bool,
}

/// Logits with a bias added, or with nothing.
pub open spec fn biased(base: Seq<u32>, bias: Seq<u32>, no_bias: bool) -> Seq<u32> {
    Seq::new(
        base.len(),
        |i: int|
            single::sum_of(
                base[i],
                if no_bias {
                    0
                } else {
                    bias[i]
                },
            ),
    )
}

/// The weighted sum of the features behind the confidence's own bias.
pub open spec fn confidence_sum(b: u32, feat: Seq<u32>, w: Seq<u32>, n: int) -> u32
    decreases n,
{
    if n <= 0 {
        b
    } else {
        single::sum_of(
            confidence_sum(b, feat, w, n - 1),
            single::product_of(feat[n - 1], w[n - 1]),
        )
    }
}

/// The weighted sum behind a position's confidence, over as many features as have a weight.
pub fn confidence(b: u32, feat: &[u32], w: &[u32]) -> (r: u32)
    ensures
        r == confidence_sum(
            b,
            feat@,
            w@,
            if feat@.len() <= w@.len() {
                feat@.len() as int
            } else {
                w@.len() as int
            },
        ),
{
    let n: usize = if feat.len() <= w.len() {
        feat.len()
    } else {
        w.len()
    };
    let mut acc: u32 = b;
    let mut i: usize = 0;
    while i < n
        invariant
            i <= n,
            n <= feat@.len(),
            n <= w@.len(),
            acc == confidence_sum(b, feat@, w@, i as int),
        decreases n - i,
    {
        acc = single::sum(acc, single::product(feat[i], w[i]));
        i += 1;
    }
    acc
}

impl Markov {
    /// The start of a chain: without an anchor the first position is left out.
    pub fn new(last: u32, n_tok: usize, anchorless: bool, no_bias: bool) -> (r: Markov)
        ensures
            r == (Markov {
                t: if anchorless {
                    1
                } else {
                    0
                },
                prev: last,
                n_tok,
                no_bias,
            }),
    {
        Markov {
            t: if anchorless {
                1
            } else {
                0
            },
            prev: last,
            n_tok,
            no_bias,
        }
    }

    /// Takes a position's logits and the bias of the token before it; returns the biased logits,
    /// whose best token the next position is conditioned on.
    pub fn step(&mut self, base: &[u32], bias: &[u32]) -> (r: Vec<u32>)
        requires
            old(self).t < old(self).n_tok,
            base@.len() == bias@.len(),
            0 < base@.len() <= u32::MAX,
        ensures
            r@ == biased(base@, bias@, old(self).no_bias),
            *final(self) == (Markov {
                t: (old(self).t + 1) as usize,
                prev: sampler::argmax_of(r@) as u32,
                ..*old(self)
            }),
            sampler::is_argmax(r@, final(self).prev as int),
    {
        let n: usize = base.len();
        let mut out: Vec<u32> = Vec::new();
        let mut i: usize = 0;
        while i < n
            invariant
                i <= n,
                n == base@.len(),
                base@.len() == bias@.len(),
                out@ == biased(base@, bias@, self.no_bias).take(i as int),
            decreases n - i,
        {
            let b: u32 = if self.no_bias {
                0
            } else {
                bias[i]
            };
            out.push(single::sum(base[i], b));
            i += 1;
            assert(out@ =~= biased(base@, bias@, self.no_bias).take(i as int));
        }
        assert(out@ =~= biased(base@, bias@, self.no_bias));
        let best: usize = sampler::argmax(out.as_slice());
        self.prev = best as u32;
        self.t = self.t + 1;
        out
    }
}

// ---- what a block gives -----------------------------------------------------------------------

/// The output of one drafted block.
#[derive(Debug)]
pub struct DraftBlock {
    /// The biased logits, one row of the vocabulary per position.
    pub logits: Vec<u32>,
    /// The confidence of each position.
    pub conf: Vec<u32>,
    /// The normalized hidden states that the confidences were taken from.
    pub emb: Vec<u32>,
}

impl DraftBlock {
    /// The block has `n_tok` positions over a vocabulary of `nv` tokens.
    pub open spec fn sized(&self, n_tok: int, nv: int) -> bool {
        self.conf@.len() == n_tok && self.logits@.len() == n_tok * nv
    }

    /// A block over these hidden states, whose positions have neither logits nor confidence yet.
    pub fn new(n_tok: usize, nv: usize, emb: Vec<u32>) -> (r: DraftBlock)
        requires
            n_tok * nv <= usize::MAX,
        ensures
            r.logits@ == Seq::new((n_tok * nv) as nat, |i: int| 0u32),
            r.conf@ == Seq::new(n_tok as nat, |i: int| 0u32),
            r.emb == emb,
    {
        let out = DraftBlock { logits: vec![0u32; n_tok * nv], conf: vec![0u32; n_tok], emb };
        assert(out.logits@ =~= Seq::new((n_tok * nv) as nat, |i: int| 0u32));
        assert(out.conf@ =~= Seq::new(n_tok as nat, |i: int| 0u32));
        out
    }

    /// Sets the logits and the confidence of position `t`.
    pub fn set(&mut self, t: usize, n_tok: usize, logits: &[u32], conf: u32)
        requires
            t < n_tok,
            old(self).sized(n_tok as int, logits@.len() as int),
        ensures
            final(self).sized(n_tok as int, logits@.len() as int),
            final(self).emb == old(self).emb,
            final(self).conf@ == old(self).conf@.update(t as int, conf),
            forall|i: int|
                0 <= i < old(self).logits@.len() ==> #[trigger] final(self).logits@[i] == ({
                    let at = t * logits@.len();
                    if at <= i < at + logits@.len() {
                        logits@[i - at]
                    } else {
                        old(self).logits@[i]
                    }
                }),
    {
        let nv: usize = logits.len();
        let size: usize = self.logits.len();
        proof {
            dots::lemma_row_end(t as int, n_tok as int, nv as int);
        }
        let at: usize = t * nv;
        let ghost before = self.logits@;
        self.conf.set(t, conf);
        let mut i: usize = 0;
        while i < nv
            invariant
                i <= nv,
                nv == logits@.len(),
                size == before.len(),
                self.logits@.len() == size,
                at + nv <= size,
                at == t * nv,
                self.emb == old(self).emb,
                self.conf@ == old(self).conf@.update(t as int, conf),
                forall|k: int|
                    0 <= k < size ==> #[trigger] self.logits@[k] == if at <= k < at + i {
                        logits@[k - at]
                    } else {
                        before[k]
                    },
            decreases nv - i,
        {
            self.logits.set(at + i, logits[i]);
            i += 1;
        }
    }
}

} // verus!
