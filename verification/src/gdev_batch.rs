//! Batched prefill on the device: all layers over a window of prompt positions at a time.
//!
//! Projections run over all columns of a window at once; what depends on earlier positions
//! (rotation, caches, attention, recurrence) runs position by position, with the same steps as
//! the pass of a single token.

use vstd::prelude::*;
use vstd::string::*;

use crate::gdev;
use crate::gdev::{
    GDev, LayerBufs, TensorW, GDN_CH, GDN_DI, GDN_HV, HEAD_D, KV_STRIDE, N_EMBD, N_FF,
    N_HEAD, N_KV, N_PARTIALS,
};
use crate::gpu;
use crate::gpu::{DevBuf, Gpu, Op};
use crate::text;

verus! {

/// The tiles of a prefill window, one row per position.
#[derive(Debug, Clone, Copy, PartialEq, Eq, Structural)]
pub struct BatchBufs {
    pub xb: DevBuf,
    pub xnorm: DevBuf,
    pub branch: DevBuf,
    pub qfull: DevBuf,
    pub kraw: DevBuf,
    pub vraw: DevBuf,
    pub gated: DevBuf,
    pub fg: DevBuf,
    pub fu: DevBuf,
    pub h1: DevBuf,
    pub gqkv: DevBuf,
    pub gz: DevBuf,
    pub gbeta: DevBuf,
    pub galpha: DevBuf,
    pub gh1: DevBuf,
    pub partials: DevBuf,
}

/// The sizes of the tiles for `w` columns, in the order of the fields.
pub open spec fn tile_sizes(w: int) -> Seq<int> {
    seq![
        w * (N_EMBD * 4),
        w * (N_EMBD * 4),
        w * (N_EMBD * 4),
        w * (2 * N_HEAD * HEAD_D * 4),
        w * (N_KV * HEAD_D * 4),
        w * (N_KV * HEAD_D * 4),
        w * (N_HEAD * HEAD_D * 4),
        w * (N_FF * 4),
        w * (N_FF * 4),
        w * (N_FF * 4),
        w * (GDN_CH * 4),
        w * (GDN_DI * 4),
        w * (GDN_HV * 4),
        w * (GDN_HV * 4),
        w * (GDN_DI * 4),
        w * (N_PARTIALS * 4),
    ]
}

/// The tiles in the order of the fields.
pub open spec fn tile_list(b: BatchBufs) -> Seq<DevBuf> {
    seq![
        b.xb,
        b.xnorm,
        b.branch,
        b.qfull,
        b.kraw,
        b.vraw,
        b.gated,
        b.fg,
        b.fu,
        b.h1,
        b.gqkv,
        b.gz,
        b.gbeta,
        b.galpha,
        b.gh1,
        b.partials,
    ]
}

/// The tiles that sixteen allocations from identity `next` on create.
pub open spec fn tiles(next: int, w: int) -> BatchBufs {
    let z = tile_sizes(w);
    BatchBufs {
        xb: gpu::next_buf(next, z[0]),
        xnorm: gpu::next_buf(next + 1, z[1]),
        branch: gpu::next_buf(next + 2, z[2]),
        qfull: gpu::next_buf(next + 3, z[3]),
        kraw: gpu::next_buf(next + 4, z[4]),
        vraw: gpu::next_buf(next + 5, z[5]),
        gated: gpu::next_buf(next + 6, z[6]),
        fg: gpu::next_buf(next + 7, z[7]),
        fu: gpu::next_buf(next + 8, z[8]),
        h1: gpu::next_buf(next + 9, z[9]),
        gqkv: gpu::next_buf(next + 10, z[10]),
        gz: gpu::next_buf(next + 11, z[11]),
        gbeta: gpu::next_buf(next + 12, z[12]),
        galpha: gpu::next_buf(next + 13, z[13]),
        gh1: gpu::next_buf(next + 14, z[14]),
        partials: gpu::next_buf(next + 15, z[15]),
    }
}

/// The steps of those allocations.
pub open spec fn tile_alloc_ops(g: Gpu, next: int, w: int) -> Seq<Op> {
    Seq::new(16, |i: int| gpu::alloc_op(g, next + i, tile_sizes(w)[i]))
}

/// The steps that release the tiles.
pub open spec fn tile_free_ops(b: BatchBufs) -> Seq<Op> {
    Seq::new(16, |i: int| Op::Destroy { buf: tile_list(b)[i] })
}

/// The bytes of `c` rows of `row` bytes.
pub(crate) fn tile_bytes(c: u64, row: u64) -> (r: u64)
    requires
        c <= 262_144,
        row <= 0x100_0000,
    ensures
        r == c * row,
        r <= 0x400_0000_0000,
        c >= 1 && row >= 1 ==> r >= 1,
{
    assert(c * row <= 262_144 * 0x100_0000 && (c >= 1 && row >= 1 ==> c * row >= 1)) by (nonlinear_arith)
        requires
            c <= 262_144,
            row <= 0x100_0000,
    ;
    c * row
}

/// Allocates the tiles of a window of up to `w` columns.
pub fn alloc_bb(g: &mut Gpu, w: usize) -> (r: BatchBufs)
    requires
        old(g).next + 16 <= u64::MAX,
        w <= 262_144,
    ensures
        r == tiles(old(g).next as int, w as int),
        final(g).next == old(g).next + 16,
        final(g).ops@ == old(g).ops@ + tile_alloc_ops(*old(g), old(g).next as int, w as int),
        final(g).discrete == old(g).discrete,
        final(g).force_local == old(g).force_local,
        final(g).blobs == old(g).blobs,
{
    let c: u64 = w as u64;
    let xb = g.alloc_bytes(tile_bytes(c, N_EMBD as u64 * 4));
    let xnorm = g.alloc_bytes(tile_bytes(c, N_EMBD as u64 * 4));
    let branch = g.alloc_bytes(tile_bytes(c, N_EMBD as u64 * 4));
    let qfull = g.alloc_bytes(tile_bytes(c, 2 * N_HEAD as u64 * HEAD_D as u64 * 4));
    let kraw = g.alloc_bytes(tile_bytes(c, N_KV as u64 * HEAD_D as u64 * 4));
    let vraw = g.alloc_bytes(tile_bytes(c, N_KV as u64 * HEAD_D as u64 * 4));
    let gated = g.alloc_bytes(tile_bytes(c, N_HEAD as u64 * HEAD_D as u64 * 4));
    let fg = g.alloc_bytes(tile_bytes(c, N_FF as u64 * 4));
    let fu = g.alloc_bytes(tile_bytes(c, N_FF as u64 * 4));
    let h1 = g.alloc_bytes(tile_bytes(c, N_FF as u64 * 4));
    let gqkv = g.alloc_bytes(tile_bytes(c, GDN_CH as u64 * 4));
    let gz = g.alloc_bytes(tile_bytes(c, GDN_DI as u64 * 4));
    let gbeta = g.alloc_bytes(tile_bytes(c, GDN_HV as u64 * 4));
    let galpha = g.alloc_bytes(tile_bytes(c, GDN_HV as u64 * 4));
    let gh1 = g.alloc_bytes(tile_bytes(c, GDN_DI as u64 * 4));
    let partials = g.alloc_bytes(tile_bytes(c, N_PARTIALS as u64 * 4));
    assert(g.ops@ =~= old(g).ops@ + tile_alloc_ops(*old(g), old(g).next as int, w as int));
    BatchBufs {
        xb,
        xnorm,
        branch,
        qfull,
        kraw,
        vraw,
        gated,
        fg,
        fu,
        h1,
        gqkv,
        gz,
        gbeta,
        galpha,
        gh1,
        partials,
    }
}

/// Releases the tiles.
pub fn destroy_bb(g: &mut Gpu, b: BatchBufs)
    ensures
        gpu::recorded(*old(g), *final(g), tile_free_ops(b)),
{
    g.rec(Op::Destroy { buf: b.xb });
    g.rec(Op::Destroy { buf: b.xnorm });
    g.rec(Op::Destroy { buf: b.branch });
    g.rec(Op::Destroy { buf: b.qfull });
    g.rec(Op::Destroy { buf: b.kraw });
    g.rec(Op::Destroy { buf: b.vraw });
    g.rec(Op::Destroy { buf: b.gated });
    g.rec(Op::Destroy { buf: b.fg });
    g.rec(Op::Destroy { buf: b.fu });
    g.rec(Op::Destroy { buf: b.h1 });
    g.rec(Op::Destroy { buf: b.gqkv });
    g.rec(Op::Destroy { buf: b.gz });
    g.rec(Op::Destroy { buf: b.gbeta });
    g.rec(Op::Destroy { buf: b.galpha });
    g.rec(Op::Destroy { buf: b.gh1 });
    g.rec(Op::Destroy { buf: b.partials });
    assert(g.ops@ =~= old(g).ops@ + tile_free_ops(b));
}

/// The first element of row `p`.
fn row_start(p: usize, row: usize) -> (r: usize)
    requires
        p <= 262_144,
        row <= 12_288,
    ensures
        r == p * row,
{
    assert(p * row <= 262_144 * 12_288) by (nonlinear_arith)
        requires
            p <= 262_144,
            row <= 12_288,
    ;
    p * row
}

impl GDev {
    /// The steps of attention at one position, from the projections to the gated output.
    pub open spec fn position_ops(&self, il: int, pos: int) -> Seq<Op> {
        let s = self.s;
        self.qk_ops(il, pos) + self.core_ops(il, pos) + seq![
            gdev::elem_op(s.gate, s.attn_h, s.qfull, N_HEAD * HEAD_D, 4),
        ]
    }

    /// Row `p` of a full-attention window whose first position is `base`.
    pub open spec fn attn_row_ops(&self, bb: BatchBufs, il: int, p: int, base: int) -> Seq<Op> {
        let s = self.s;
        seq![
            gdev::copy_op(
                bb.qfull,
                s.qfull,
                p * (2 * N_HEAD * HEAD_D),
                0,
                2 * N_HEAD * HEAD_D,
            ),
            gdev::copy_op(bb.kraw, s.kraw, p * (N_KV * HEAD_D), 0, N_KV * HEAD_D),
            gdev::copy_op(bb.vraw, s.vraw, p * (N_KV * HEAD_D), 0, N_KV * HEAD_D),
        ] + self.position_ops(il, base + p) + seq![
            gdev::copy_op(s.qfull, bb.gated, 0, p * (N_HEAD * HEAD_D), N_HEAD * HEAD_D),
        ]
    }

    /// The first `k` rows of a full-attention window.
    pub open spec fn attn_rows_ops(&self, bb: BatchBufs, il: int, k: int, base: int) -> Seq<Op>
        decreases k,
    {
        if k <= 0 {
            Seq::empty()
        } else {
            self.attn_rows_ops(bb, il, k - 1, base) + self.attn_row_ops(bb, il, k - 1, base)
        }
    }

    /// A full-attention layer over a window of `n` positions from `base` on.
    pub open spec fn battn_ops(&self, bb: BatchBufs, il: int, n: int, base: int) -> Seq<Op> {
        seq![
            gdev::norm_rows_op(
                bb.xb,
                self.lw(il, "attn_norm.weight"@).buf,
                bb.xnorm,
                n * N_EMBD,
                N_EMBD as int,
                0,
            ),
            gdev::mat_batch_op(bb.partials, self.lw(il, "attn_q.weight"@), bb.xnorm, bb.qfull, n),
            gdev::mat_batch_op(bb.partials, self.lw(il, "attn_k.weight"@), bb.xnorm, bb.kraw, n),
            gdev::mat_batch_op(bb.partials, self.lw(il, "attn_v.weight"@), bb.xnorm, bb.vraw, n),
        ] + self.attn_rows_ops(bb, il, n, base) + seq![
            gdev::mat_batch_op(
                bb.partials,
                self.lw(il, "attn_output.weight"@),
                bb.gated,
                bb.branch,
                n,
            ),
            gdev::add_op(bb.xb, bb.branch, n * N_EMBD),
        ]
    }

    /// In a window, each position runs through the same attention steps as in the pass of a
    /// single token.
    pub proof fn law_window_position_as_token(
        &self,
        bb: BatchBufs,
        il: int,
        p: int,
        base: int,
    )
        requires
            self.kv.bits is None,
            !self.kv.half,
        ensures
            ({
                let row = self.attn_row_ops(bb, il, p, base);
                let token = self.attn_ops(il, base + p);
                &&& row.subrange(3, row.len() - 1) == self.position_ops(il, base + p)
                &&& token.subrange(4, token.len() - 2) == self.position_ops(il, base + p)
            }),
    {
        let row = self.attn_row_ops(bb, il, p, base);
        let token = self.attn_ops(il, base + p);
        assert(row.subrange(3, row.len() - 1) =~= self.position_ops(il, base + p));
        assert(token.subrange(4, token.len() - 2) =~= self.position_ops(il, base + p));
    }

    fn rec_attn_row(
        &mut self,
        bb: BatchBufs,
        il: usize,
        p: usize,
        base: usize,
        wq: DevBuf,
        wk: DevBuf,
    )
        requires
            il < old(self).layers@.len(),
            p <= 262_144,
            base <= 262_144,
            old(self).layers@[il as int].kcache is Some,
            old(self).layers@[il as int].vcache is Some,
            wq == old(self).lw(il as int, "attn_q_norm.weight"@).buf,
            wk == old(self).lw(il as int, "attn_k_norm.weight"@).buf,
        ensures
            final(self).same_model(old(self)),
            gpu::recorded(
                old(self).gpu,
                final(self).gpu,
                old(self).attn_row_ops(bb, il as int, p as int, base as int),
            ),
    {
        let s = self.s;
        let l: LayerBufs = self.layers[il];
        let pos: usize = base + p;
        let q_row: usize = 2 * N_HEAD * HEAD_D;
        let kv_row: usize = N_KV * HEAD_D;
        let out_row: usize = N_HEAD * HEAD_D;
        gdev::rec_bcopy(&mut self.gpu, bb.qfull, s.qfull, row_start(p, q_row), 0, q_row);
        gdev::rec_bcopy(&mut self.gpu, bb.kraw, s.kraw, row_start(p, kv_row), 0, kv_row);
        gdev::rec_bcopy(&mut self.gpu, bb.vraw, s.vraw, row_start(p, kv_row), 0, kv_row);
        let ghost g1 = *self;
        self.rec_qk(il, pos, wq, wk);
        let ghost g2 = *self;
        self.rec_core(il, pos, l.kcache.unwrap(), l.vcache.unwrap());
        let ghost g3 = *self;
        gdev::rec_elem(&mut self.gpu, s.gate, s.attn_h, s.qfull, out_row, 4);
        gdev::rec_bcopy(&mut self.gpu, s.qfull, bb.gated, 0, row_start(p, out_row), out_row);
        proof {
            assert(g1.qk_ops(il as int, pos as int) == old(self).qk_ops(il as int, pos as int));
            assert(g2.core_ops(il as int, pos as int) == old(self).core_ops(il as int, pos as int));
            assert(g3.gpu.ops@ =~= g1.gpu.ops@ + (old(self).qk_ops(il as int, pos as int) + old(
                self,
            ).core_ops(il as int, pos as int)));
            assert(self.gpu.ops@ =~= old(self).gpu.ops@ + old(self).attn_row_ops(
                bb,
                il as int,
                p as int,
                base as int,
            ));
        }
    }

    /// Records a full-attention layer over a window of `n` positions from `base` on. Nothing is
    /// recorded where a tensor is missing.
    pub fn record_battn(&mut self, il: usize, n: usize, base: usize, bb: BatchBufs) -> (r: Result<
        (),
        String,
    >)
        requires
            old(self).wf(),
            il < old(self).cfg.n_layer,
            old(self).is_attn(il as int),
            old(self).kv.bits is None,
            !old(self).kv.half,
            base + n <= old(self).n_ctx,
        ensures
            final(self).same_model(old(self)),
            match r {
                Ok(_) => {
                    &&& old(self).first_missing(il as int, GDev::attn_names()) is None
                    &&& gpu::recorded(
                        old(self).gpu,
                        final(self).gpu,
                        old(self).battn_ops(bb, il as int, n as int, base as int),
                    )
                },
                Err(m) => {
                    &&& old(self).first_missing(il as int, GDev::attn_names()) matches Some(x) && m@
                        == gdev::missing_text(x)
                    &&& *final(self) == *old(self)
                },
            },
    {
        let w: Vec<TensorW> = match self.find_attn(il) {
            Ok(w) => w,
            Err(m) => {
                return Err(m);
            },
        };
        assert(self.layer_wf(il as int));
        let total: usize = row_start(n, N_EMBD);
        gdev::rec_norm_rows(&mut self.gpu, bb.xb, w[0].buf, bb.xnorm, total, N_EMBD, 0);
        gdev::rec_mat_batch(&mut self.gpu, bb.partials, w[1], bb.xnorm, bb.qfull, n);
        gdev::rec_mat_batch(&mut self.gpu, bb.partials, w[2], bb.xnorm, bb.kraw, n);
        gdev::rec_mat_batch(&mut self.gpu, bb.partials, w[3], bb.xnorm, bb.vraw, n);
        let ghost g1 = self.gpu;
        let mut p: usize = 0;
        assert(g1.ops@ + Seq::<Op>::empty() =~= g1.ops@);
        while p < n
            invariant
                p <= n,
                n + base <= 262_144,
                il < old(self).layers@.len(),
                old(self).layers@[il as int].kcache is Some,
                old(self).layers@[il as int].vcache is Some,
                w@.len() == 7,
                w@[4] == old(self).lw(il as int, "attn_q_norm.weight"@),
                w@[5] == old(self).lw(il as int, "attn_k_norm.weight"@),
                self.same_model(old(self)),
                gpu::recorded(
                    g1,
                    self.gpu,
                    old(self).attn_rows_ops(bb, il as int, p as int, base as int),
                ),
            decreases n - p,
        {
            let ghost before = *self;
            self.rec_attn_row(bb, il, p, base, w[4].buf, w[5].buf);
            proof {
                before.lemma_same_row(old(self), bb, il as int, p as int, base as int);
                gpu::lemma_recorded(
                    g1,
                    before.gpu,
                    self.gpu,
                    old(self).attn_rows_ops(bb, il as int, p as int, base as int),
                    old(self).attn_row_ops(bb, il as int, p as int, base as int),
                );
            }
            p += 1;
        }
        gdev::rec_mat_batch(&mut self.gpu, bb.partials, w[6], bb.gated, bb.branch, n);
        gdev::rec_add(&mut self.gpu, bb.xb, bb.branch, total);
        assert(self.gpu.ops@ =~= old(self).gpu.ops@ + old(self).battn_ops(
            bb,
            il as int,
            n as int,
            base as int,
        ));
        Ok(())
    }

    proof fn lemma_same_row(&self, other: &GDev, bb: BatchBufs, il: int, p: int, base: int)
        requires
            self.same_model(other),
        ensures
            self.attn_row_ops(bb, il, p, base) == other.attn_row_ops(bb, il, p, base),
            self.gdn_row_ops(bb, il, p) == other.gdn_row_ops(bb, il, p),
            self.norm_row_ops(bb, il, p) == other.norm_row_ops(bb, il, p),
    {
        assert(self.qk_ops(il, base + p) == other.qk_ops(il, base + p));
        assert(self.core_ops(il, base + p) == other.core_ops(il, base + p));
        assert(self.recur_ops(il) == other.recur_ops(il));
    }

    /// A feed-forward block over a window of `n` positions.
    pub open spec fn bffn_ops(&self, bb: BatchBufs, il: int, n: int) -> Seq<Op> {
        seq![
            gdev::norm_rows_op(
                bb.xb,
                self.lw(il, "post_attention_norm.weight"@).buf,
                bb.xnorm,
                n * N_EMBD,
                N_EMBD as int,
                0,
            ),
            gdev::mat_batch_op(bb.partials, self.lw(il, "ffn_gate.weight"@), bb.xnorm, bb.fg, n),
            gdev::mat_batch_op(bb.partials, self.lw(il, "ffn_up.weight"@), bb.xnorm, bb.fu, n),
            gdev::elem_op(bb.fg, bb.fu, bb.h1, n * N_FF, 3),
            gdev::mat_batch_op(bb.partials, self.lw(il, "ffn_down.weight"@), bb.h1, bb.branch, n),
            gdev::add_op(bb.xb, bb.branch, n * N_EMBD),
        ]
    }

    /// Records a feed-forward block over a window of `n` positions. Nothing is recorded where a
    /// tensor is missing.
    pub fn record_bffn(&mut self, il: usize, n: usize, bb: BatchBufs) -> (r: Result<(), String>)
        requires
            old(self).wf(),
            il < old(self).cfg.n_layer,
            n <= 262_144,
            n * N_FF <= usize::MAX,
        ensures
            final(self).same_model(old(self)),
            match r {
                Ok(_) => {
                    &&& old(self).first_missing(il as int, GDev::ffn_names()) is None
                    &&& gpu::recorded(
                        old(self).gpu,
                        final(self).gpu,
                        old(self).bffn_ops(bb, il as int, n as int),
                    )
                },
                Err(m) => {
                    &&& old(self).first_missing(il as int, GDev::ffn_names()) matches Some(x) && m@
                        == gdev::missing_text(x)
                    &&& *final(self) == *old(self)
                },
            },
    {
        let w: Vec<TensorW> = match self.find_ffn(il) {
            Ok(w) => w,
            Err(m) => {
                return Err(m);
            },
        };
        let total: usize = row_start(n, N_EMBD);
        gdev::rec_norm_rows(&mut self.gpu, bb.xb, w[0].buf, bb.xnorm, total, N_EMBD, 0);
        gdev::rec_mat_batch(&mut self.gpu, bb.partials, w[1], bb.xnorm, bb.fg, n);
        gdev::rec_mat_batch(&mut self.gpu, bb.partials, w[2], bb.xnorm, bb.fu, n);
        gdev::rec_elem(&mut self.gpu, bb.fg, bb.fu, bb.h1, n * N_FF, 3);
        gdev::rec_mat_batch(&mut self.gpu, bb.partials, w[3], bb.h1, bb.branch, n);
        gdev::rec_add(&mut self.gpu, bb.xb, bb.branch, total);
        assert(self.gpu.ops@ =~= old(self).gpu.ops@ + old(self).bffn_ops(bb, il as int, n as int));
        Ok(())
    }

    /// The norm of row `p` of a recurrent window.
    pub open spec fn norm_row_ops(&self, bb: BatchBufs, il: int, p: int) -> Seq<Op> {
        let s = self.s;
        seq![
            gdev::copy_op(bb.xb, s.cur, p * N_EMBD, 0, N_EMBD as int),
            gdev::rms_op(s.cur, self.lw(il, "attn_norm.weight"@).buf, s.xnorm, N_EMBD as int),
            gdev::copy_op(s.xnorm, bb.xnorm, 0, p * N_EMBD, N_EMBD as int),
        ]
    }

    pub open spec fn norm_rows_ops(&self, bb: BatchBufs, il: int, k: int) -> Seq<Op>
        decreases k,
    {
        if k <= 0 {
            Seq::empty()
        } else {
            self.norm_rows_ops(bb, il, k - 1) + self.norm_row_ops(bb, il, k - 1)
        }
    }

    /// The recurrence of row `p` of a recurrent window.
    pub open spec fn gdn_row_ops(&self, bb: BatchBufs, il: int, p: int) -> Seq<Op> {
        let s = self.s;
        let sm = self.layers@[il].smalls;
        seq![
            gdev::copy_op(bb.gqkv, s.qkv, p * GDN_CH, 0, GDN_CH as int),
            gdev::copy_op(bb.gz, s.z, p * GDN_DI, 0, GDN_DI as int),
            gdev::copy_op(bb.gbeta, sm, p * GDN_HV, 0, GDN_HV as int),
            gdev::copy_op(bb.galpha, sm, p * GDN_HV, GDN_HV as int, GDN_HV as int),
        ] + self.recur_ops(il) + seq![
            gdev::copy_op(s.h1, bb.gh1, 0, p * GDN_DI, GDN_DI as int),
        ]
    }

    pub open spec fn gdn_rows_ops(&self, bb: BatchBufs, il: int, k: int) -> Seq<Op>
        decreases k,
    {
        if k <= 0 {
            Seq::empty()
        } else {
            self.gdn_rows_ops(bb, il, k - 1) + self.gdn_row_ops(bb, il, k - 1)
        }
    }

    /// A recurrent layer over a window of `n` positions.
    pub open spec fn bgdn_ops(&self, bb: BatchBufs, il: int, n: int) -> Seq<Op> {
        self.norm_rows_ops(bb, il, n) + seq![
            gdev::mat_batch_op(bb.partials, self.lw(il, "attn_qkv.weight"@), bb.xnorm, bb.gqkv, n),
            gdev::mat_batch_op(bb.partials, self.lw(il, "attn_gate.weight"@), bb.xnorm, bb.gz, n),
            gdev::mat_batch_op(bb.partials, self.lw(il, "ssm_beta.weight"@), bb.xnorm, bb.gbeta, n),
            gdev::mat_batch_op(
                bb.partials,
                self.lw(il, "ssm_alpha.weight"@),
                bb.xnorm,
                bb.galpha,
                n,
            ),
        ] + self.gdn_rows_ops(bb, il, n) + seq![
            gdev::mat_batch_op(bb.partials, self.lw(il, "ssm_out.weight"@), bb.gh1, bb.branch, n),
            gdev::add_op(bb.xb, bb.branch, n * N_EMBD),
        ]
    }

    /// In a window, each position of a recurrent layer runs through the same convolution and
    /// recurrence steps as in the pass of a single token.
    pub proof fn law_window_recurrence_as_token(&self, bb: BatchBufs, il: int, p: int)
        ensures
            ({
                let row = self.gdn_row_ops(bb, il, p);
                let token = self.gdn_ops(il);
                &&& row.subrange(4, row.len() - 1) == self.recur_ops(il)
                &&& token.subrange(5, token.len() - 2) == self.recur_ops(il)
            }),
    {
        let row = self.gdn_row_ops(bb, il, p);
        let token = self.gdn_ops(il);
        assert(row.subrange(4, row.len() - 1) =~= self.recur_ops(il));
        assert(token.subrange(5, token.len() - 2) =~= self.recur_ops(il));
    }

    fn rec_norm_row(&mut self, bb: BatchBufs, il: usize, p: usize, wn: DevBuf)
        requires
            p <= 262_144,
            wn == old(self).lw(il as int, "attn_norm.weight"@).buf,
        ensures
            final(self).same_model(old(self)),
            gpu::recorded(
                old(self).gpu,
                final(self).gpu,
                old(self).norm_row_ops(bb, il as int, p as int),
            ),
    {
        let s = self.s;
        gdev::rec_bcopy(&mut self.gpu, bb.xb, s.cur, row_start(p, N_EMBD), 0, N_EMBD);
        gdev::rec_rms(&mut self.gpu, s.cur, wn, s.xnorm, N_EMBD);
        gdev::rec_bcopy(&mut self.gpu, s.xnorm, bb.xnorm, 0, row_start(p, N_EMBD), N_EMBD);
        assert(self.gpu.ops@ =~= old(self).gpu.ops@ + old(self).norm_row_ops(
            bb,
            il as int,
            p as int,
        ));
    }

    fn rec_gdn_row(&mut self, bb: BatchBufs, il: usize, p: usize, cw: DevBuf, wsn: DevBuf)
        requires
            p <= 262_144,
            il < old(self).layers@.len(),
            old(self).layers@[il as int].conv is Some,
            old(self).layers@[il as int].state is Some,
            cw == old(self).lw(il as int, "ssm_conv1d.weight"@).buf,
            wsn == old(self).lw(il as int, "ssm_norm.weight"@).buf,
        ensures
            final(self).same_model(old(self)),
            gpu::recorded(
                old(self).gpu,
                final(self).gpu,
                old(self).gdn_row_ops(bb, il as int, p as int),
            ),
    {
        let s = self.s;
        let sm: DevBuf = self.layers[il].smalls;
        gdev::rec_bcopy(&mut self.gpu, bb.gqkv, s.qkv, row_start(p, GDN_CH), 0, GDN_CH);
        gdev::rec_bcopy(&mut self.gpu, bb.gz, s.z, row_start(p, GDN_DI), 0, GDN_DI);
        gdev::rec_bcopy(&mut self.gpu, bb.gbeta, sm, row_start(p, GDN_HV), 0, GDN_HV);
        gdev::rec_bcopy(&mut self.gpu, bb.galpha, sm, row_start(p, GDN_HV), GDN_HV, GDN_HV);
        let ghost g1 = *self;
        self.rec_recur(il, cw, wsn);
        gdev::rec_bcopy(&mut self.gpu, s.h1, bb.gh1, 0, row_start(p, GDN_DI), GDN_DI);
        proof {
            assert(g1.recur_ops(il as int) == old(self).recur_ops(il as int));
            assert(self.gpu.ops@ =~= old(self).gpu.ops@ + old(self).gdn_row_ops(
                bb,
                il as int,
                p as int,
            ));
        }
    }

    /// Records a recurrent layer over a window of `n` positions. Nothing is recorded where a
    /// tensor is missing.
    pub fn record_bgdn(&mut self, il: usize, n: usize, bb: BatchBufs) -> (r: Result<(), String>)
        requires
            old(self).wf(),
            il < old(self).cfg.n_layer,
            !old(self).is_attn(il as int),
            n <= 262_144,
        ensures
            final(self).same_model(old(self)),
            match r {
                Ok(_) => {
                    &&& old(self).first_missing(il as int, GDev::gdn_names()) is None
                    &&& gpu::recorded(
                        old(self).gpu,
                        final(self).gpu,
                        old(self).bgdn_ops(bb, il as int, n as int),
                    )
                },
                Err(m) => {
                    &&& old(self).first_missing(il as int, GDev::gdn_names()) matches Some(x) && m@
                        == gdev::missing_text(x)
                    &&& *final(self) == *old(self)
                },
            },
    {
        let w: Vec<TensorW> = match self.find_gdn(il) {
            Ok(w) => w,
            Err(m) => {
                return Err(m);
            },
        };
        assert(self.layer_wf(il as int));
        let ghost g0 = self.gpu;
        let mut p: usize = 0;
        assert(g0.ops@ + Seq::<Op>::empty() =~= g0.ops@);
        while p < n
            invariant
                p <= n <= 262_144,
                w@.len() == 8,
                w@[0] == old(self).lw(il as int, "attn_norm.weight"@),
                self.same_model(old(self)),
                gpu::recorded(g0, self.gpu, old(self).norm_rows_ops(bb, il as int, p as int)),
            decreases n - p,
        {
            let ghost before = *self;
            self.rec_norm_row(bb, il, p, w[0].buf);
            proof {
                before.lemma_same_row(old(self), bb, il as int, p as int, 0);
                gpu::lemma_recorded(
                    g0,
                    before.gpu,
                    self.gpu,
                    old(self).norm_rows_ops(bb, il as int, p as int),
                    old(self).norm_row_ops(bb, il as int, p as int),
                );
            }
            p += 1;
        }
        gdev::rec_mat_batch(&mut self.gpu, bb.partials, w[1], bb.xnorm, bb.gqkv, n);
        gdev::rec_mat_batch(&mut self.gpu, bb.partials, w[2], bb.xnorm, bb.gz, n);
        gdev::rec_mat_batch(&mut self.gpu, bb.partials, w[3], bb.xnorm, bb.gbeta, n);
        gdev::rec_mat_batch(&mut self.gpu, bb.partials, w[4], bb.xnorm, bb.galpha, n);
        let ghost g1 = self.gpu;
        p = 0;
        assert(g1.ops@ + Seq::<Op>::empty() =~= g1.ops@);
        while p < n
            invariant
                p <= n <= 262_144,
                il < old(self).layers@.len(),
                old(self).layers@[il as int].conv is Some,
                old(self).layers@[il as int].state is Some,
                w@.len() == 8,
                w@[5] == old(self).lw(il as int, "ssm_conv1d.weight"@),
                w@[6] == old(self).lw(il as int, "ssm_norm.weight"@),
                self.same_model(old(self)),
                gpu::recorded(g1, self.gpu, old(self).gdn_rows_ops(bb, il as int, p as int)),
            decreases n - p,
        {
            let ghost before = *self;
            self.rec_gdn_row(bb, il, p, w[5].buf, w[6].buf);
            proof {
                before.lemma_same_row(old(self), bb, il as int, p as int, 0);
                gpu::lemma_recorded(
                    g1,
                    before.gpu,
                    self.gpu,
                    old(self).gdn_rows_ops(bb, il as int, p as int),
                    old(self).gdn_row_ops(bb, il as int, p as int),
                );
            }
            p += 1;
        }
        gdev::rec_mat_batch(&mut self.gpu, bb.partials, w[7], bb.gh1, bb.branch, n);
        gdev::rec_add(&mut self.gpu, bb.xb, bb.branch, row_start(n, N_EMBD));
        assert(self.gpu.ops@ =~= old(self).gpu.ops@ + old(self).bgdn_ops(bb, il as int, n as int));
        Ok(())
    }
}

// ---- windows ------------------------------------------------------------------

/// How many windows of width `w` hold `n` positions.
pub open spec fn window_count(n: int, w: int) -> int {
    (n + w - 1) / w
}

/// The first position of window `k`.
pub open spec fn window_start(w: int, k: int) -> int {
    k * w
}

/// How many positions window `k` holds: the last may hold fewer.
pub open spec fn window_len(n: int, w: int, k: int) -> int {
    if n - window_start(w, k) < w {
        n - window_start(w, k)
    } else {
        w
    }
}

/// The width of the windows: at least one position, at most the whole batch.
pub open spec fn window_width(n: int, window: int) -> int {
    if window < 1 {
        1
    } else if window > n {
        n
    } else {
        window
    }
}

/// The windows cover the positions of a batch in order, each exactly once: the first starts at
/// the front, each starts where the one before ends, the last ends at the end, and none is
/// empty or wider than the width.
pub proof fn law_windows_partition(n: int, w: int, k: int)
    requires
        1 <= w <= n,
        0 <= k < window_count(n, w),
    ensures
        window_start(w, 0) == 0,
        1 <= window_len(n, w, k) <= w,
        k + 1 < window_count(n, w) ==> window_start(w, k + 1) == window_start(w, k)
            + window_len(n, w, k),
        k + 1 == window_count(n, w) ==> window_start(w, k) + window_len(n, w, k) == n,
{
    let q = window_count(n, w);
    vstd::arithmetic::div_mod::lemma_fundamental_div_mod(n + w - 1, w);
    vstd::arithmetic::div_mod::lemma_mod_bound(n + w - 1, w);
    assert(w * q == q * w) by (nonlinear_arith);
    assert((k + 1) * w == k * w + w) by (nonlinear_arith);
    assert((k + 1) * w <= q * w) by (nonlinear_arith)
        requires
            k + 1 <= q,
            1 <= w,
    ;
    assert(0 * w == 0) by (nonlinear_arith);
    if k + 1 < q {
        assert((k + 2) * w == k * w + 2 * w) by (nonlinear_arith);
        assert((k + 2) * w <= q * w) by (nonlinear_arith)
            requires
                k + 2 <= q,
                1 <= w,
        ;
    }
}

impl GDev {
    /// The mixer of layer `il` over a window.
    pub open spec fn bmixer_ops(&self, bb: BatchBufs, il: int, n: int, base: int) -> Seq<Op> {
        if self.is_attn(il) {
            self.battn_ops(bb, il, n, base)
        } else {
            self.bgdn_ops(bb, il, n)
        }
    }

    /// Layer `il` over a window: one command buffer.
    pub open spec fn pre_layer_ops(&self, bb: BatchBufs, il: int, n: int, base: int) -> Seq<Op> {
        seq![Op::Begin] + self.bmixer_ops(bb, il, n, base) + self.bffn_ops(bb, il, n)
            + seq![Op::Submit]
    }

    /// The first `k` layers over a window.
    pub open spec fn pre_layers_ops(
        &self,
        bb: BatchBufs,
        n: int,
        base: int,
        k: int,
    ) -> Seq<Op>
        decreases k,
    {
        if k <= 0 {
            Seq::empty()
        } else {
            self.pre_layers_ops(bb, n, base, k - 1) + self.pre_layer_ops(bb, k - 1, n, base)
        }
    }

    /// All layers over the `n` embedding rows from `base` on.
    pub open spec fn run_batch_ops(&self, bb: BatchBufs, n: int, base: int) -> Seq<Op> {
        seq![
            Op::Embeddings { buf: bb.xb, first: base as usize, count: n as usize },
        ] + self.pre_layers_ops(bb, n, base, self.cfg.n_layer as int)
    }

    /// A window: all layers, then the norm of the output, which goes back to the host.
    pub open spec fn window_ops(&self, bb: BatchBufs, n: int, base: int) -> Seq<Op> {
        self.run_batch_ops(bb, n, base) + seq![
            Op::Begin,
            gdev::norm_rows_op(
                bb.xb,
                self.weight("output_norm.weight"@).buf,
                bb.xnorm,
                n * N_EMBD,
                N_EMBD as int,
                0,
            ),
            Op::Submit,
            Op::Read { buf: bb.xnorm, bytes: (n * N_EMBD * 4) as u64 },
        ]
    }

    /// The first `k` windows of a batch of `n` positions.
    pub open spec fn windows_ops(&self, bb: BatchBufs, n: int, w: int, k: int) -> Seq<Op>
        decreases k,
    {
        if k <= 0 {
            Seq::empty()
        } else {
            self.windows_ops(bb, n, w, k - 1) + self.window_ops(
                bb,
                window_len(n, w, k - 1),
                window_start(w, k - 1),
            )
        }
    }

    /// A batched prefill: clear caches, the tiles, the windows in order, and the tiles released.
    pub open spec fn batch_ops(&self, n: int, window: int) -> Seq<Op> {
        let w = window_width(n, window);
        let bb = tiles(self.gpu.next as int, w);
        self.reset_ops(self.cfg.n_layer as int) + tile_alloc_ops(self.gpu, self.gpu.next as int, w)
            + self.windows_ops(bb, n, w, window_count(n, w)) + tile_free_ops(bb)
    }

    proof fn lemma_same_blocks(&self, other: &GDev, bb: BatchBufs, il: int, n: int, base: int)
        requires
            self.same_model(other),
            other.wf(),
        ensures
            self.wf(),
            self.bmixer_ops(bb, il, n, base) == other.bmixer_ops(bb, il, n, base),
            self.bffn_ops(bb, il, n) == other.bffn_ops(bb, il, n),
            self.mixer_names(il) == other.mixer_names(il),
            forall|names: Seq<Seq<char>>| #[trigger]
                self.first_missing(il, names) == other.first_missing(il, names),
    {
        self.lemma_same_specs(other, il, base);
        self.lemma_same_rows(other, bb, il, n, base);
    }

    proof fn lemma_same_rows(&self, other: &GDev, bb: BatchBufs, il: int, n: int, base: int)
        requires
            self.same_model(other),
        ensures
            self.attn_rows_ops(bb, il, n, base) == other.attn_rows_ops(bb, il, n, base),
            self.norm_rows_ops(bb, il, n) == other.norm_rows_ops(bb, il, n),
            self.gdn_rows_ops(bb, il, n) == other.gdn_rows_ops(bb, il, n),
        decreases n,
    {
        if n > 0 {
            self.lemma_same_rows(other, bb, il, n - 1, base);
            self.lemma_same_row(other, bb, il, n - 1, base);
        }
    }

    proof fn lemma_same_window(&self, other: &GDev, bb: BatchBufs, n: int, base: int, k: int)
        requires
            self.same_model(other),
            other.wf(),
        ensures
            self.pre_layers_ops(bb, n, base, k) == other.pre_layers_ops(bb, n, base, k),
        decreases k,
    {
        if k > 0 {
            self.lemma_same_window(other, bb, n, base, k - 1);
            self.lemma_same_blocks(other, bb, k - 1, n, base);
        }
    }

    /// Looks up every tensor that a pass reads.
    pub fn check_tensors(&self) -> (r: Result<(), String>)
        requires
            self.wf(),
        ensures
            match r {
                Ok(_) => self.model_missing() is None,
                Err(m) => self.model_missing() matches Some(x) && m@ == gdev::missing_text(x),
            },
    {
        let n: usize = self.cfg.n_layer;
        let mut il: usize = 0;
        while il < n
            invariant
                il <= n,
                n == self.cfg.n_layer,
                self.wf(),
                self.layers_missing(il as int) is None,
            decreases n - il,
        {
            let mixer: Result<Vec<TensorW>, String> = if self.cfg.is_full_attention(il) {
                self.find_attn(il)
            } else {
                self.find_gdn(il)
            };
            if let Err(m) = mixer {
                proof {
                    self.lemma_layers_missing(il + 1, n as int);
                }
                return Err(m);
            }
            if let Err(m) = self.find_ffn(il) {
                proof {
                    self.lemma_layers_missing(il + 1, n as int);
                }
                return Err(m);
            }
            il += 1;
        }
        match self.tw("output_norm.weight") {
            Ok(_) => Ok(()),
            Err(m) => Err(m),
        }
    }

    /// The first tensor of layer `il` that is missing.
    pub open spec fn layer_missing(&self, il: int) -> Option<Seq<char>> {
        match self.first_missing(il, self.mixer_names(il)) {
            Some(x) => Some(x),
            None => self.first_missing(il, GDev::ffn_names()),
        }
    }

    /// Records one layer over a window of `n` positions from `base` on, as one command buffer.
    /// Nothing is recorded where a tensor is missing.
    pub fn pre_layer(&mut self, il: usize, n: usize, base: usize, bb: BatchBufs) -> (r: Result<
        (),
        String,
    >)
        requires
            old(self).wf(),
            il < old(self).cfg.n_layer,
            old(self).kv.bits is None,
            !old(self).kv.half,
            base + n <= old(self).n_ctx,
            n * N_FF <= usize::MAX,
        ensures
            final(self).same_model(old(self)),
            match r {
                Ok(_) => {
                    &&& old(self).layer_missing(il as int) is None
                    &&& gpu::recorded(
                        old(self).gpu,
                        final(self).gpu,
                        old(self).pre_layer_ops(bb, il as int, n as int, base as int),
                    )
                },
                Err(m) => {
                    &&& old(self).layer_missing(il as int) matches Some(x) && m@
                        == gdev::missing_text(x)
                    &&& gpu::recorded(old(self).gpu, final(self).gpu, Seq::empty())
                },
            },
    {
        let start: usize = self.gpu.ops.len();
        self.gpu.rec(Op::Begin);
        let ghost g1 = *self;
        proof {
            g1.lemma_same_blocks(old(self), bb, il as int, n as int, base as int);
        }
        let mixed: Result<(), String> = if self.cfg.is_full_attention(il) {
            self.record_battn(il, n, base, bb)
        } else {
            self.record_bgdn(il, n, bb)
        };
        if let Err(m) = mixed {
            proof {
                assert(self.gpu.ops@.take(start as int) =~= old(self).gpu.ops@);
            }
            self.forget(start, Ghost(*old(self)));
            return Err(m);
        }
        let ghost g2 = *self;
        proof {
            g2.lemma_same_blocks(old(self), bb, il as int, n as int, base as int);
        }
        if let Err(m) = self.record_bffn(il, n, bb) {
            proof {
                assert(self.gpu.ops@.take(start as int) =~= old(self).gpu.ops@);
            }
            self.forget(start, Ghost(*old(self)));
            return Err(m);
        }
        self.gpu.rec(Op::Submit);
        assert(self.gpu.ops@ =~= old(self).gpu.ops@ + old(self).pre_layer_ops(
            bb,
            il as int,
            n as int,
            base as int,
        ));
        Ok(())
    }

    /// Records all layers over the `n` embedding rows from `base` on. Nothing is recorded where
    /// a tensor is missing.
    pub fn run_batch_at(&mut self, n: usize, base: usize, bb: BatchBufs) -> (r: Result<
        (),
        String,
    >)
        requires
            old(self).wf(),
            old(self).kv.bits is None,
            !old(self).kv.half,
            base + n <= old(self).n_ctx,
            n * N_FF <= usize::MAX,
        ensures
            final(self).same_model(old(self)),
            ({
                let missing = old(self).layers_missing(old(self).cfg.n_layer as int);
                match r {
                    Ok(_) => {
                        &&& missing is None
                        &&& gpu::recorded(
                            old(self).gpu,
                            final(self).gpu,
                            old(self).run_batch_ops(bb, n as int, base as int),
                        )
                    },
                    Err(m) => {
                        &&& missing matches Some(x) && m@ == gdev::missing_text(x)
                        &&& gpu::recorded(old(self).gpu, final(self).gpu, Seq::empty())
                    },
                }
            }),
    {
        let start: usize = self.gpu.ops.len();
        self.gpu.rec(Op::Embeddings { buf: bb.xb, first: base, count: n });
        let ghost g1 = self.gpu;
        let layers: usize = self.cfg.n_layer;
        let mut il: usize = 0;
        assert(g1.ops@ + Seq::<Op>::empty() =~= g1.ops@);
        while il < layers
            invariant
                il <= layers,
                layers == old(self).cfg.n_layer,
                old(self).wf(),
                old(self).kv.bits is None,
                !old(self).kv.half,
                base + n <= old(self).n_ctx,
                n * N_FF <= usize::MAX,
                start == old(self).gpu.ops@.len(),
                gpu::recorded(
                    old(self).gpu,
                    g1,
                    seq![Op::Embeddings { buf: bb.xb, first: base, count: n }],
                ),
                self.same_model(old(self)),
                old(self).layers_missing(il as int) is None,
                gpu::recorded(
                    g1,
                    self.gpu,
                    old(self).pre_layers_ops(bb, n as int, base as int, il as int),
                ),
            decreases layers - il,
        {
            let ghost before = *self;
            proof {
                before.lemma_same_blocks(old(self), bb, il as int, n as int, base as int);
            }
            if let Err(m) = self.pre_layer(il, n, base, bb) {
                proof {
                    old(self).lemma_layers_missing(il + 1, layers as int);
                    assert(self.gpu.ops@.take(start as int) =~= old(self).gpu.ops@);
                }
                self.forget(start, Ghost(*old(self)));
                return Err(m);
            }
            proof {
                gpu::lemma_recorded(
                    g1,
                    before.gpu,
                    self.gpu,
                    old(self).pre_layers_ops(bb, n as int, base as int, il as int),
                    old(self).pre_layer_ops(bb, il as int, n as int, base as int),
                );
            }
            il += 1;
        }
        proof {
            gpu::lemma_recorded(
                old(self).gpu,
                g1,
                self.gpu,
                seq![Op::Embeddings { buf: bb.xb, first: base, count: n }],
                old(self).pre_layers_ops(bb, n as int, base as int, layers as int),
            );
        }
        Ok(())
    }

    /// Records one window. No tensor may be missing.
    fn rec_window(&mut self, n: usize, base: usize, bb: BatchBufs)
        requires
            old(self).wf(),
            old(self).kv.bits is None,
            !old(self).kv.half,
            base + n <= old(self).n_ctx,
            n * N_FF <= usize::MAX,
            old(self).model_missing() is None,
        ensures
            final(self).same_model(old(self)),
            gpu::recorded(
                old(self).gpu,
                final(self).gpu,
                old(self).window_ops(bb, n as int, base as int),
            ),
    {
        if let Err(_) = self.run_batch_at(n, base, bb) {
            return;
        }
        let ghost g1 = *self;
        proof {
            g1.lemma_same_specs(old(self), 0, 0);
        }
        let w: TensorW = match self.tw("output_norm.weight") {
            Ok(w) => w,
            Err(_) => {
                return;
            },
        };
        self.gpu.rec(Op::Begin);
        let total: usize = row_start(n, N_EMBD);
        gdev::rec_norm_rows(&mut self.gpu, bb.xb, w.buf, bb.xnorm, total, N_EMBD, 0);
        self.gpu.rec(Op::Submit);
        let bytes: u64 = total as u64 * 4;
        self.gpu.rec(Op::Read { buf: bb.xnorm, bytes });
        assert(self.gpu.ops@ =~= old(self).gpu.ops@ + old(self).window_ops(
            bb,
            n as int,
            base as int,
        ));
    }

    fn rec_windows(&mut self, n: usize, w: usize, bb: BatchBufs)
        requires
            old(self).wf(),
            old(self).kv.bits is None,
            !old(self).kv.half,
            1 <= w <= n <= old(self).n_ctx,
            old(self).n_ctx * N_FF <= usize::MAX,
            old(self).model_missing() is None,
        ensures
            final(self).same_model(old(self)),
            gpu::recorded(
                old(self).gpu,
                final(self).gpu,
                old(self).windows_ops(bb, n as int, w as int, window_count(n as int, w as int)),
            ),
    {
        let count: usize = if n % w == 0 {
            n / w
        } else {
            n / w + 1
        };
        proof {
            lemma_count(n as int, w as int);
        }
        let mut k: usize = 0;
        let mut base: usize = 0;
        assert(self.gpu.ops@ + Seq::<Op>::empty() =~= self.gpu.ops@);
        assert(0 * w == 0) by (nonlinear_arith);
        while k < count
            invariant
                k <= count,
                count == window_count(n as int, w as int),
                base <= n,
                k < count ==> base == window_start(w as int, k as int),
                old(self).wf(),
                old(self).kv.bits is None,
                !old(self).kv.half,
                1 <= w <= n <= old(self).n_ctx,
                old(self).n_ctx * N_FF <= usize::MAX,
                old(self).model_missing() is None,
                self.same_model(old(self)),
                gpu::recorded(
                    old(self).gpu,
                    self.gpu,
                    old(self).windows_ops(bb, n as int, w as int, k as int),
                ),
            decreases count - k,
        {
            proof {
                law_windows_partition(n as int, w as int, k as int);
            }
            let len: usize = if n - base < w {
                n - base
            } else {
                w
            };
            let ctx: usize = self.n_ctx;
            assert(len * N_FF <= ctx * N_FF) by (nonlinear_arith)
                requires
                    len <= ctx,
            ;
            let ghost before = *self;
            proof {
                before.lemma_same_specs(old(self), 0, 0);
                before.lemma_same_layers(old(self), 0, old(self).cfg.n_layer as int);
                before.lemma_same_window(
                    old(self),
                    bb,
                    len as int,
                    base as int,
                    old(self).cfg.n_layer as int,
                );
            }
            self.rec_window(len, base, bb);
            proof {
                gpu::lemma_recorded(
                    old(self).gpu,
                    before.gpu,
                    self.gpu,
                    old(self).windows_ops(bb, n as int, w as int, k as int),
                    old(self).window_ops(bb, len as int, base as int),
                );
            }
            base += len;
            k += 1;
        }
    }

    /// The first thing that a batched prefill refuses, if any.
    pub open spec fn batch_refusal(&self, count: int, n: int) -> Option<Seq<char>> {
        if self.kv.bits is Some || self.kv.half {
            Some(
                "prefill_batch_windowed: not available with BONSAI_KV (the batched path writes f32 KV caches); use the token loop"@,
            )
        } else if n < 1 {
            Some("prefill_batch_windowed: empty batch"@)
        } else if n > self.n_ctx {
            Some(
                "prefill_batch_windowed: batch "@ + text::decimal(n as nat) + " exceeds context "@
                    + text::decimal(self.n_ctx as nat) + "/"@ + text::decimal(self.n_ctx as nat)
                    + " (raise BONSAI_CTX)"@,
            )
        } else if count != n * N_EMBD {
            Some(
                "prefill_batch_windowed: expected "@ + text::decimal((n * N_EMBD) as nat)
                    + " embeddings, got "@ + text::decimal(count as nat),
            )
        } else {
            match self.model_missing() {
                Some(x) => Some(gdev::missing_text(x)),
                None => None,
            }
        }
    }

    /// Records the batched prefill of `n` positions in windows of at most `window` columns;
    /// `count` is the number of embedding values at hand. Refuses a quantized cache, an empty
    /// batch, one behind the context, a wrong number of embeddings and a missing tensor, in
    /// that order, and records nothing then.
    pub fn prefill_batch_windowed(&mut self, count: usize, n: usize, window: usize) -> (r: Result<
        (),
        String,
    >)
        requires
            old(self).wf(),
            old(self).n_ctx * N_FF <= usize::MAX,
            old(self).gpu.next + 16 <= u64::MAX,
        ensures
            final(self).same_model(old(self)),
            match r {
                Ok(_) => {
                    &&& old(self).batch_refusal(count as int, n as int) is None
                    &&& final(self).gpu.ops@ == old(self).gpu.ops@ + old(self).batch_ops(
                        n as int,
                        window as int,
                    )
                    &&& final(self).gpu.next == old(self).gpu.next + 16
                    &&& final(self).gpu.discrete == old(self).gpu.discrete
                    &&& final(self).gpu.force_local == old(self).gpu.force_local
                    &&& final(self).gpu.blobs == old(self).gpu.blobs
                },
                Err(m) => {
                    &&& old(self).batch_refusal(count as int, n as int) == Some(m@)
                    &&& *final(self) == *old(self)
                },
            },
    {
        if self.kv_quantized() {
            return Err(
                "prefill_batch_windowed: not available with BONSAI_KV (the batched path writes f32 KV caches); use the token loop".to_owned(),
            );
        }
        if n < 1 {
            return Err("prefill_batch_windowed: empty batch".to_owned());
        }
        if n > self.n_ctx {
            let mut m = "prefill_batch_windowed: batch ".to_owned();
            text::push_decimal(&mut m, n as u64);
            m.append(" exceeds context ");
            text::push_decimal(&mut m, self.n_ctx as u64);
            m.append("/");
            text::push_decimal(&mut m, self.n_ctx as u64);
            m.append(" (raise BONSAI_CTX)");
            return Err(m);
        }
        let need: usize = row_start(n, N_EMBD);
        if count != need {
            let mut m = "prefill_batch_windowed: expected ".to_owned();
            text::push_decimal(&mut m, need as u64);
            m.append(" embeddings, got ");
            text::push_decimal(&mut m, count as u64);
            return Err(m);
        }
        if let Err(m) = self.check_tensors() {
            return Err(m);
        }
        let w: usize = if window < 1 {
            1
        } else if window > n {
            n
        } else {
            window
        };
        self.reset_sequence();
        let ghost g1 = *self;
        let bb = alloc_bb(&mut self.gpu, w);
        let ghost g2 = *self;
        proof {
            g2.lemma_same_specs(old(self), 0, 0);
            g2.lemma_same_layers(old(self), 0, old(self).cfg.n_layer as int);
            g2.lemma_same_windows(
                old(self),
                bb,
                n as int,
                w as int,
                window_count(n as int, w as int),
            );
            assert(tile_alloc_ops(g1.gpu, g1.gpu.next as int, w as int) =~= tile_alloc_ops(
                old(self).gpu,
                old(self).gpu.next as int,
                w as int,
            ));
        }
        self.rec_windows(n, w, bb);
        destroy_bb(&mut self.gpu, bb);
        assert(self.gpu.ops@ =~= old(self).gpu.ops@ + old(self).batch_ops(n as int, window as int));
        Ok(())
    }

    proof fn lemma_same_windows(&self, other: &GDev, bb: BatchBufs, n: int, w: int, k: int)
        requires
            self.same_model(other),
            other.wf(),
        ensures
            self.windows_ops(bb, n, w, k) == other.windows_ops(bb, n, w, k),
        decreases k,
    {
        if k > 0 {
            self.lemma_same_windows(other, bb, n, w, k - 1);
            self.lemma_same_window(
                other,
                bb,
                window_len(n, w, k - 1),
                window_start(w, k - 1),
                self.cfg.n_layer as int,
            );
        }
    }

    /// Records the batched prefill of `n` positions in one window.
    pub fn prefill_batch(&mut self, count: usize, n: usize) -> (r: Result<(), String>)
        requires
            old(self).wf(),
            old(self).n_ctx * N_FF <= usize::MAX,
            old(self).gpu.next + 16 <= u64::MAX,
        ensures
            final(self).same_model(old(self)),
            match r {
                Ok(_) => {
                    &&& old(self).batch_refusal(count as int, n as int) is None
                    &&& final(self).gpu.ops@ == old(self).gpu.ops@ + old(self).batch_ops(
                        n as int,
                        n as int,
                    )
                    &&& final(self).gpu.next == old(self).gpu.next + 16
                    &&& final(self).gpu.discrete == old(self).gpu.discrete
                    &&& final(self).gpu.force_local == old(self).gpu.force_local
                    &&& final(self).gpu.blobs == old(self).gpu.blobs
                },
                Err(m) => {
                    &&& old(self).batch_refusal(count as int, n as int) == Some(m@)
                    &&& *final(self) == *old(self)
                },
            },
    {
        self.prefill_batch_windowed(count, n, n)
    }

    // ---- reading caches back ----------------------------------------------------------

    /// The bytes of a dump of `n_pos` positions out of a cache of `len` bytes.
    pub open spec fn dump_bytes(n_pos: int, len: int) -> int {
        if n_pos * KV_STRIDE < len / 4 {
            n_pos * KV_STRIDE * 4
        } else {
            len / 4 * 4
        }
    }

    /// Records the copy of layer `il`'s single-precision keys and values of the first `n_pos`
    /// positions to the host. Refused where the layer has no such keys.
    pub fn dump_kv(&mut self, il: usize, n_pos: usize) -> (r: Result<(), String>)
        requires
            old(self).wf(),
            n_pos * KV_STRIDE <= usize::MAX,
        ensures
            final(self).same_model(old(self)),
            match r {
                Ok(_) => {
                    &&& il < old(self).cfg.n_layer
                    &&& old(self).layers@[il as int].kcache matches Some(k)
                        && old(self).layers@[il as int].vcache matches Some(v) && gpu::recorded(
                        old(self).gpu,
                        final(self).gpu,
                        seq![
                            Op::Read {
                                buf: k,
                                bytes: GDev::dump_bytes(n_pos as int, k.len as int) as u64,
                            },
                            Op::Read {
                                buf: v,
                                bytes: GDev::dump_bytes(n_pos as int, k.len as int) as u64,
                            },
                        ],
                    )
                },
                Err(m) => {
                    &&& m@ == "no kv"@
                    &&& il < old(self).cfg.n_layer ==> old(self).layers@[il as int].kcache is None
                        || old(self).layers@[il as int].vcache is None
                    &&& *final(self) == *old(self)
                },
            },
    {
        if il >= self.layers.len() {
            return Err("no kv".to_owned());
        }
        let l: LayerBufs = self.layers[il];
        match (l.kcache, l.vcache) {
            (Some(k), Some(v)) => {
                let want: u64 = n_pos as u64 * KV_STRIDE as u64;
                let bytes: u64 = if want < k.len / 4 {
                    want * 4
                } else {
                    k.len / 4 * 4
                };
                self.gpu.rec(Op::Read { buf: k, bytes });
                self.gpu.rec(Op::Read { buf: v, bytes });
                assert(self.gpu.ops@ =~= old(self).gpu.ops@ + seq![
                    Op::Read { buf: k, bytes },
                    Op::Read { buf: v, bytes },
                ]);
                Ok(())
            },
            _ => Err("no kv".to_owned()),
        }
    }

    /// Records the copy of layer `il`'s recurrent state to the host; false where it has none.
    pub fn dump_state(&mut self, il: usize) -> (r: bool)
        requires
            old(self).wf(),
        ensures
            final(self).same_model(old(self)),
            r == (il < old(self).cfg.n_layer && old(self).layers@[il as int].state is Some),
            match old(self).layers@[il as int].state {
                Some(b) if r => gpu::recorded(
                    old(self).gpu,
                    final(self).gpu,
                    seq![Op::Read { buf: b, bytes: b.len }],
                ),
                _ => *final(self) == *old(self),
            },
    {
        if il >= self.layers.len() {
            return false;
        }
        match self.layers[il].state {
            Some(b) => {
                self.gpu.rec(Op::Read { buf: b, bytes: b.len });
                true
            },
            None => false,
        }
    }

    /// Records the copy of layer `il`'s convolution inputs to the host; false where it has none.
    pub fn dump_conv(&mut self, il: usize) -> (r: bool)
        requires
            old(self).wf(),
        ensures
            final(self).same_model(old(self)),
            r == (il < old(self).cfg.n_layer && old(self).layers@[il as int].conv is Some),
            match old(self).layers@[il as int].conv {
                Some(b) if r => gpu::recorded(
                    old(self).gpu,
                    final(self).gpu,
                    seq![Op::Read { buf: b, bytes: b.len }],
                ),
                _ => *final(self) == *old(self),
            },
    {
        if il >= self.layers.len() {
            return false;
        }
        match self.layers[il].conv {
            Some(b) => {
                self.gpu.rec(Op::Read { buf: b, bytes: b.len });
                true
            },
            None => false,
        }
    }
}

proof fn lemma_count(n: int, w: int)
    requires
        1 <= w <= n,
    ensures
        window_count(n, w) == if n % w == 0 {
            n / w
        } else {
            n / w + 1
        },
        window_count(n, w) <= n,
{
    let q = n / w;
    let r = n % w;
    vstd::arithmetic::div_mod::lemma_fundamental_div_mod(n, w);
    vstd::arithmetic::div_mod::lemma_mod_bound(n, w);
    assert(w * q == q * w) by (nonlinear_arith);
    if r == 0 {
        vstd::arithmetic::div_mod::lemma_fundamental_div_mod_converse(n + w - 1, w, q, w - 1);
    } else {
        assert((q + 1) * w == q * w + w) by (nonlinear_arith);
        vstd::arithmetic::div_mod::lemma_fundamental_div_mod_converse(
            n + w - 1,
            w,
            q + 1,
            r - 1,
        );
    }
    let c = window_count(n, w);
    assert(c <= n) by (nonlinear_arith)
        requires
            c * w <= n + w - 1,
            1 <= w <= n,
    {
        if c > n {
            assert((c - 1) * w >= n * w);
        }
    }
}

} // verus!
