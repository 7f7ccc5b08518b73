//! Device decode: records a token's forward pass, or a batched prefill, as device steps.
//!
//! The language-model head and sampling stay on the host: the result of a pass is the
//! output-normalized hidden vector of each position.

use vstd::prelude::*;
use vstd::string::*;

use crate::config;
use crate::config::Qwen35;
use crate::gpu;
use crate::gpu::{DevBuf, Gpu, Kernel, Op, Push};
use crate::lookup;
use crate::lookup::Table;
use crate::text;
use crate::tokenizer;

verus! {

pub const N_EMBD: usize = 5120;

pub const N_FF: usize = 17408;

pub const N_HEAD: usize = 24;

pub const N_KV: usize = 4;

pub const HEAD_D: usize = 256;

pub const N_ROT: usize = 64;

/// The rotary base 1e7, as bits of a single.
pub const FREQ_BASE: u32 = 0x4B18_9680;

pub const GDN_DK: usize = 2048;

pub const GDN_DI: usize = 6144;

pub const GDN_HV: usize = 48;

/// Channels of the recurrent convolution: twice the key width and the inner width.
pub const GDN_CH: usize = 10240;

pub const STATE_SIZE: usize = 128;

/// Elements of one layer's recurrent state.
pub const GDN_STATE_ELEMS: usize = 786432;

/// Elements of one position's keys or values.
pub const KV_STRIDE: usize = 1024;

pub const N_CTX_DEFAULT: usize = 2048;

/// The norm epsilon 1e-6, as bits of a single.
pub const EPS: u32 = 0x3586_37BD;

/// The attention scale, one over the square root of the head size, as bits of a single.
pub const ATTN_SCALE: u32 = 0x3D80_0000;

/// Partial sums of the widest matrix product.
pub const N_PARTIALS: usize = 696320;

/// Columns of a prefill window where none are asked for.
pub const DEFAULT_BATCH_WINDOW: usize = 64;

/// The context length that a setting asks for: between 16 and 262144, else the default.
pub open spec fn ctx_of(setting: Option<Seq<char>>) -> usize {
    match setting {
        Some(s) => match text::number_of(s, usize::MAX as nat) {
            Some(n) => if 16 <= n <= 262_144 {
                n as usize
            } else {
                N_CTX_DEFAULT
            },
            None => N_CTX_DEFAULT,
        },
        None => N_CTX_DEFAULT,
    }
}

pub open spec fn opt_view(s: Option<&str>) -> Option<Seq<char>> {
    match s {
        Some(v) => Some(v@),
        None => None,
    }
}

/// The context length that a setting asks for.
pub fn n_ctx_env(setting: Option<&str>) -> (r: usize)
    ensures
        r == ctx_of(opt_view(setting)),
        16 <= r <= 262_144,
{
    match setting {
        Some(s) => match text::parse_uint(s, usize::MAX as u64) {
            Some(n) => {
                if 16 <= n && n <= 262_144 {
                    n as usize
                } else {
                    N_CTX_DEFAULT
                }
            },
            None => N_CTX_DEFAULT,
        },
        None => N_CTX_DEFAULT,
    }
}

/// The batched-prefill configuration for a setting: enabled, and the window width.
pub open spec fn batch_of(setting: Option<Seq<char>>, discrete: bool) -> (bool, usize) {
    match setting {
        None => (discrete, DEFAULT_BATCH_WINDOW),
        Some(s) => {
            let v = text::trimmed(s);
            if v == "0"@ || v == "1"@ {
                (false, 0)
            } else if v == "auto"@ {
                (discrete, DEFAULT_BATCH_WINDOW)
            } else {
                match text::number_of(v, usize::MAX as nat) {
                    Some(n) => if n >= 2 {
                        (true, n as usize)
                    } else {
                        (false, 0)
                    },
                    None => (false, 0),
                }
            }
        },
    }
}

/// Resolves the batched-prefill configuration. Without a setting, or with `auto`, batching
/// follows the device: it pays only on one with memory of its own. `0` and `1` keep the token
/// loop; a number from 2 on is the window width; anything else keeps the token loop.
pub fn batch_cfg(setting: Option<&str>, discrete: bool) -> (r: (bool, usize))
    ensures
        r == batch_of(opt_view(setting), discrete),
{
    let v: String = match setting {
        None => {
            return (discrete, DEFAULT_BATCH_WINDOW);
        },
        Some(s) => text::trim(s)};
    if text::same(v.as_str(), "0") || text::same(v.as_str(), "1") {
        return (false, 0);
    }
    if text::same(v.as_str(), "auto") {
        return (discrete, DEFAULT_BATCH_WINDOW);
    }
    match text::parse_uint(v.as_str(), usize::MAX as u64) {
        Some(n) => {
            if n >= 2 {
                (true, n as usize)
            } else {
                (false, 0)
            }
        },
        None => (false, 0),
    }
}

/// Whether the batched path serves a prompt of `n` tokens: it is on, and there is more than one
/// position.
pub fn prefill_batch_usable(n: usize, enabled: bool, _window: usize) -> (r: bool)
    ensures
        r == (enabled && n >= 2),
{
    enabled && n >= 2
}

// ---- single steps -----------------------------------------------------------

pub open spec fn rms_op(src: DevBuf, w: DevBuf, dst: DevBuf, n: int) -> Op {
    Op::Dispatch {
        kernel: Kernel::RmsNorm,
        a: src,
        b: w,
        c: dst,
        push: Push::P1(n as u32),
        groups: 1,
    }
}

pub open spec fn norm_rows_op(
    src: DevBuf,
    w: DevBuf,
    dst: DevBuf,
    total: int,
    rowlen: int,
    mode: u32,
) -> Op {
    Op::Dispatch {
        kernel: Kernel::NormRows,
        a: src,
        b: w,
        c: dst,
        push: Push::P4(total as u32, rowlen as u32, mode, EPS),
        groups: (total / rowlen) as u32,
    }
}

pub open spec fn l2_op(buf: DevBuf, base: int, rows: int) -> Op {
    Op::Dispatch {
        kernel: Kernel::L2Inplace,
        a: buf,
        b: buf,
        c: buf,
        push: Push::P2(rows as u32, base as u32),
        groups: rows as u32,
    }
}

pub open spec fn mat_op(
    partials: DevBuf,
    w: TensorW,
    x: DevBuf,
    y: DevBuf,
    ybase: int,
) -> Op {
    Op::Matvec {
        w: w.buf,
        x,
        y,
        ybase: ybase as u32,
        partials,
        ne0: w.ne0 as u32,
        rows: w.rows as u32,
    }
}

pub open spec fn mat_batch_op(
    partials: DevBuf,
    w: TensorW,
    x: DevBuf,
    y: DevBuf,
    cols: int,
) -> Op {
    Op::MatvecBatch {
        w: w.buf,
        x,
        y,
        partials,
        ne0: w.ne0 as u32,
        rows: w.rows as u32,
        cols: cols as u32,
    }
}

pub open spec fn ceil_256(n: int) -> int {
    (n + 255) / 256
}

pub open spec fn add_op(cur: DevBuf, branch: DevBuf, n: int) -> Op {
    Op::Dispatch {
        kernel: Kernel::AddResidual,
        a: cur,
        b: branch,
        c: cur,
        push: Push::P1(n as u32),
        groups: ceil_256(n) as u32,
    }
}

/// The groups of 256 that cover `n` elements, and at least one.
pub open spec fn some_groups(n: int) -> int {
    if ceil_256(n) > 1 {
        ceil_256(n)
    } else {
        1
    }
}

pub open spec fn copy_op(src: DevBuf, dst: DevBuf, sbase: int, dbase: int, len: int) -> Op {
    Op::Dispatch {
        kernel: Kernel::TileCopy,
        a: src,
        b: src,
        c: dst,
        push: Push::P3(len as u32, sbase as u32, dbase as u32),
        groups: some_groups((len as u32) as int) as u32,
    }
}

pub open spec fn elem_op(a: DevBuf, b: DevBuf, out: DevBuf, n: int, mode: u32) -> Op {
    Op::Dispatch {
        kernel: Kernel::Elem,
        a,
        b,
        c: out,
        push: Push::P2(n as u32, mode),
        groups: ceil_256(n) as u32,
    }
}

pub open spec fn run_op(
    kernel: Kernel,
    a: DevBuf,
    b: DevBuf,
    c: DevBuf,
    push: Push,
    groups: int,
) -> Op {
    Op::Dispatch { kernel, a, b, c, push, groups: groups as u32 }
}

/// Records a norm of one row.
pub fn rec_rms(gpu: &mut Gpu, src: DevBuf, w: DevBuf, dst: DevBuf, n: usize)
    ensures
        gpu::recorded(*old(gpu), *final(gpu), seq![rms_op(src, w, dst, n as int)]),
{
    gpu.rec(
        Op::Dispatch {
            kernel: Kernel::RmsNorm,
            a: src,
            b: w,
            c: dst,
            push: Push::P1(n as u32),
            groups: 1,
        },
    );
}

/// Records a norm of each row.
pub fn rec_norm_rows(
    gpu: &mut Gpu,
    src: DevBuf,
    w: DevBuf,
    dst: DevBuf,
    total: usize,
    rowlen: usize,
    mode: u32,
)
    requires
        rowlen > 0,
    ensures
        gpu::recorded(
            *old(gpu),
            *final(gpu),
            seq![norm_rows_op(src, w, dst, total as int, rowlen as int, mode)],
        ),
{
    gpu.rec(
        Op::Dispatch {
            kernel: Kernel::NormRows,
            a: src,
            b: w,
            c: dst,
            push: Push::P4(total as u32, rowlen as u32, mode, EPS),
            groups: (total / rowlen) as u32,
        },
    );
}

/// Records an in-place normalization of `rows` rows to unit length.
pub fn rec_l2(gpu: &mut Gpu, buf: DevBuf, base: usize, rows: usize)
    ensures
        gpu::recorded(*old(gpu), *final(gpu), seq![l2_op(buf, base as int, rows as int)]),
{
    gpu.rec(
        Op::Dispatch {
            kernel: Kernel::L2Inplace,
            a: buf,
            b: buf,
            c: buf,
            push: Push::P2(rows as u32, base as u32),
            groups: rows as u32,
        },
    );
}

/// Records a matrix-vector product.
pub fn rec_mat(gpu: &mut Gpu, partials: DevBuf, w: TensorW, x: DevBuf, y: DevBuf, ybase: usize)
    ensures
        gpu::recorded(*old(gpu), *final(gpu), seq![mat_op(partials, w, x, y, ybase as int)]),
{
    gpu.rec(
        Op::Matvec {
            w: w.buf,
            x,
            y,
            ybase: ybase as u32,
            partials,
            ne0: w.ne0 as u32,
            rows: w.rows as u32,
        },
    );
}

/// Records a matrix product with `cols` vectors.
pub(crate) fn rec_mat_batch(gpu: &mut Gpu, partials: DevBuf, w: TensorW, x: DevBuf, y: DevBuf, cols: usize)
    ensures
        gpu::recorded(*old(gpu), *final(gpu), seq![mat_batch_op(partials, w, x, y, cols as int)]),
{
    gpu.rec(
        Op::MatvecBatch {
            w: w.buf,
            x,
            y,
            partials,
            ne0: w.ne0 as u32,
            rows: w.rows as u32,
            cols: cols as u32,
        },
    );
}

fn div_ceil_256(n: usize) -> (r: usize)
    ensures
        r == ceil_256(n as int),
{
    if n % 256 == 0 {
        n / 256
    } else {
        n / 256 + 1
    }
}

/// Records the residual sum of `n` elements.
pub fn rec_add(gpu: &mut Gpu, cur: DevBuf, branch: DevBuf, n: usize)
    ensures
        gpu::recorded(*old(gpu), *final(gpu), seq![add_op(cur, branch, n as int)]),
{
    let groups: usize = div_ceil_256(n);
    gpu.rec(
        Op::Dispatch {
            kernel: Kernel::AddResidual,
            a: cur,
            b: branch,
            c: cur,
            push: Push::P1(n as u32),
            groups: groups as u32,
        },
    );
}

/// Records a copy of `len` elements between device buffers.
pub fn rec_bcopy(gpu: &mut Gpu, src: DevBuf, dst: DevBuf, sbase: usize, dbase: usize, len: usize)
    ensures
        gpu::recorded(
            *old(gpu),
            *final(gpu),
            seq![copy_op(src, dst, sbase as int, dbase as int, len as int)],
        ),
{
    let n: u32 = #[verifier::truncate] (len as u32);
    let full: u32 = if n % 256 == 0 {
        n / 256
    } else {
        n / 256 + 1
    };
    let groups: u32 = if full > 1 {
        full
    } else {
        1
    };
    gpu.rec(
        Op::Dispatch {
            kernel: Kernel::TileCopy,
            a: src,
            b: src,
            c: dst,
            push: Push::P3(n, sbase as u32, dbase as u32),
            groups,
        },
    );
}

/// Records an elementwise operation.
pub fn rec_elem(gpu: &mut Gpu, a: DevBuf, b: DevBuf, out: DevBuf, n: usize, mode: u32)
    ensures
        gpu::recorded(*old(gpu), *final(gpu), seq![elem_op(a, b, out, n as int, mode)]),
{
    let groups: usize = div_ceil_256(n);
    gpu.rec(
        Op::Dispatch {
            kernel: Kernel::Elem,
            a,
            b,
            c: out,
            push: Push::P2(n as u32, mode),
            groups: groups as u32,
        },
    );
}

fn rec_run(
    gpu: &mut Gpu,
    kernel: Kernel,
    a: DevBuf,
    b: DevBuf,
    c: DevBuf,
    push: Push,
    groups: u32,
)
    ensures
        gpu::recorded(
            *old(gpu),
            *final(gpu),
            seq![run_op(kernel, a, b, c, push, groups as int)],
        ),
{
    gpu.rec(Op::Dispatch { kernel, a, b, c, push, groups });
}

// ---- the model on the device --------------------------------------------------

/// A weight matrix on the device.
#[derive(Debug, Clone, Copy, PartialEq, Eq, Structural)]
pub struct TensorW {
    pub buf: DevBuf,
    pub ne0: usize,
    pub rows: usize,
}

/// The model has the shape that the device path is built for.
pub open spec fn fits_device(c: &Qwen35) -> bool {
    &&& c.n_embd == N_EMBD
    &&& c.n_ff == N_FF
    &&& c.n_head == N_HEAD
    &&& c.n_head_kv == N_KV
    &&& c.n_embd_head == HEAD_D
    &&& c.ssm_dt_rank == GDN_HV
}

/// Buffers that every layer shares.
#[derive(Debug, Clone, Copy, PartialEq, Eq, Structural)]
pub struct Scratch {
    pub cur: DevBuf,
    pub xnorm: DevBuf,
    pub branch: DevBuf,
    pub hidden: DevBuf,
    pub partials: DevBuf,
    pub qkv: DevBuf,
    pub z: DevBuf,
    pub blob: DevBuf,
    pub attn_out: DevBuf,
    pub normed: DevBuf,
    pub qfull: DevBuf,
    pub q: DevBuf,
    pub qn: DevBuf,
    pub gate: DevBuf,
    pub kraw: DevBuf,
    pub kn: DevBuf,
    pub vraw: DevBuf,
    pub scores: DevBuf,
    pub attn_h: DevBuf,
    pub fg: DevBuf,
    pub fu: DevBuf,
    pub h1: DevBuf,
}

/// Buffers of one layer: the caches of its kind, and the recurrent gates.
#[derive(Debug, Clone, Copy, PartialEq, Eq, Structural)]
pub struct LayerBufs {
    pub kcache: Option<DevBuf>,
    pub vcache: Option<DevBuf>,
    pub kq: Option<DevBuf>,
    pub vq: Option<DevBuf>,
    pub k16: Option<DevBuf>,
    pub v16: Option<DevBuf>,
    pub conv: Option<DevBuf>,
    pub state: Option<DevBuf>,
    /// Four rows of one value per head: the two gates of the token, and two constants.
    pub smalls: DevBuf,
}

/// How the cache is held on the device.
#[derive(Debug, Clone, Copy, PartialEq, Eq, Structural)]
pub struct KvCfg {
    pub half: bool,
    /// Width of the quantized indices; none if the cache is not quantized.
    pub bits: Option<u32>,
    /// Words of one packed row.
    pub pwords: usize,
    /// Where the codebook starts in the parameters.
    pub cent_off: usize,
    pub v_quant: bool,
}

/// The device decode context.
#[derive(Debug)]
pub struct GDev {
    pub gpu: Gpu,
    pub cfg: Qwen35,
    pub n_ctx: usize,
    pub tens: Table,
    pub tws: Vec<TensorW>,
    pub s: Scratch,
    pub kv: KvCfg,
    pub layers: Vec<LayerBufs>,
}

/// What a missing tensor reports.
pub open spec fn missing_text(name: Seq<char>) -> Seq<char> {
    "gdev: tensor "@ + name + " missing"@
}

impl GDev {
    pub open spec fn has(&self, name: Seq<char>) -> bool {
        lookup::last_place(self.tens@, tokenizer::single(name)) is Some
    }

    /// The weights under a name that is there.
    pub open spec fn weight(&self, name: Seq<char>) -> TensorW {
        self.tws@[lookup::last_place(self.tens@, tokenizer::single(name))->0]
    }

    /// The weights of layer `il` under a suffix.
    pub open spec fn lw(&self, il: int, suffix: Seq<char>) -> TensorW {
        self.weight(config::blk_text(il, suffix))
    }

    pub open spec fn is_attn(&self, il: int) -> bool {
        self.cfg.full(il)
    }

    /// The caches of layer `il` are those of its kind.
    pub open spec fn layer_wf(&self, il: int) -> bool {
        let l = self.layers@[il];
        if self.is_attn(il) {
            if self.kv.half {
                l.k16 is Some && l.v16 is Some
            } else if self.kv.bits is Some {
                l.kq is Some && (l.vq is Some || l.vcache is Some)
            } else {
                l.kcache is Some && l.vcache is Some
            }
        } else {
            l.conv is Some && l.state is Some
        }
    }

    pub open spec fn wf(&self) -> bool {
        &&& self.cfg.wf()
        &&& self.tens.wf()
        &&& self.tens@.len() == self.tws@.len()
        &&& self.layers@.len() == self.cfg.n_layer
        &&& 16 <= self.n_ctx <= 262_144
        &&& forall|il: int| 0 <= il < self.cfg.n_layer ==> #[trigger] self.layer_wf(il)
    }

    /// Everything but the recorder is as in `other`.
    pub open spec fn same_model(&self, other: &GDev) -> bool {
        *self == (GDev { gpu: self.gpu, ..*other })
    }

    /// The weights under a name.
    pub fn tw(&self, name: &str) -> (r: Result<TensorW, String>)
        requires
            self.wf(),
        ensures
            match r {
                Ok(w) => self.has(name@) && w == self.weight(name@),
                Err(m) => !self.has(name@) && m@ == missing_text(name@),
            },
    {
        assert(""@ =~= Seq::<char>::empty()) by {
            reveal_strlit("");
        }
        proof {
            lookup::lemma_last_place(self.tens@, tokenizer::single(name@));
        }
        match self.tens.find(name, "") {
            Some(i) => Ok(self.tws[i]),
            None => {
                let mut m = "gdev: tensor ".to_owned();
                m.append(name);
                m.append(" missing");
                Err(m)
            },
        }
    }

    /// True when the device holds the cache otherwise than in single precision.
    pub fn kv_quantized(&self) -> (r: bool)
        ensures
            r == (self.kv.bits is Some || self.kv.half),
    {
        self.kv.bits.is_some() || self.kv.half
    }
}

// ---- full-attention layers -----------------------------------------------------

pub open spec fn rope_push(pos: int) -> Push {
    Push::P8(HEAD_D as u32, N_ROT as u32, pos as u32, FREQ_BASE, 11, 11, 10, 0)
}

pub open spec fn att_push(pos: int) -> Push {
    Push::P6(N_HEAD as u32, (pos + 1) as u32, HEAD_D as u32, KV_STRIDE as u32, ATTN_SCALE, 0)
}

impl GDev {
    /// Splitting, head norms and rotation of the queries and keys at `pos`.
    pub open spec fn qk_ops(&self, il: int, pos: int) -> Seq<Op> {
        let s = self.s;
        seq![
            run_op(
                Kernel::SplitQgate,
                s.qfull,
                s.q,
                s.gate,
                Push::P2(HEAD_D as u32, 0),
                N_HEAD * HEAD_D / 256,
            ),
            norm_rows_op(
                s.q,
                self.lw(il, "attn_q_norm.weight"@).buf,
                s.qn,
                N_HEAD * HEAD_D,
                HEAD_D as int,
                0,
            ),
            norm_rows_op(
                s.kraw,
                self.lw(il, "attn_k_norm.weight"@).buf,
                s.kn,
                N_KV * HEAD_D,
                HEAD_D as int,
                0,
            ),
            run_op(Kernel::RopeImrope, s.qn, s.qn, s.qn, rope_push(pos), N_HEAD as int),
            run_op(Kernel::RopeImrope, s.kn, s.kn, s.kn, rope_push(pos), N_KV as int),
        ]
    }

    pub open spec fn store_op(&self, src: DevBuf, cache: DevBuf, pos: int) -> Op {
        run_op(
            Kernel::KvStore,
            src,
            cache,
            cache,
            Push::P2(pos as u32, KV_STRIDE as u32),
            ceil_256(KV_STRIDE as int),
        )
    }

    pub open spec fn softmax_op(&self, pos: int) -> Op {
        let s = self.s;
        run_op(
            Kernel::SoftmaxInplace,
            s.scores,
            s.scores,
            s.scores,
            att_push(pos),
            N_HEAD as int,
        )
    }

    pub open spec fn out_op(&self, vcache: DevBuf, pos: int) -> Op {
        run_op(
            Kernel::AttnOut,
            self.s.scores,
            vcache,
            self.s.attn_h,
            att_push(pos),
            N_HEAD as int,
        )
    }

    /// Attention at `pos` with a single-precision cache.
    pub open spec fn core_ops(&self, il: int, pos: int) -> Seq<Op> {
        let s = self.s;
        let k = self.layers@[il].kcache->0;
        let v = self.layers@[il].vcache->0;
        seq![
            self.store_op(s.kn, k, pos),
            self.store_op(s.vraw, v, pos),
            run_op(Kernel::AttnScores, s.qn, k, s.scores, att_push(pos), N_HEAD as int),
            self.softmax_op(pos),
            self.out_op(v, pos),
        ]
    }

    /// Attention at `pos` with a half-precision cache.
    pub open spec fn core_half_ops(&self, il: int, pos: int) -> Seq<Op> {
        let s = self.s;
        let k = self.layers@[il].k16->0;
        let v = self.layers@[il].v16->0;
        let words = (HEAD_D / 2) as u32;
        let store = Push::P8(pos as u32, HEAD_D as u32, N_KV as u32, words, 0, 0, 0, 0);
        seq![
            run_op(Kernel::KvStoreF16, s.kn, k, k, store, N_KV as int),
            run_op(Kernel::KvStoreF16, s.vraw, v, v, store, N_KV as int),
            run_op(
                Kernel::AttnScoresF16,
                s.qn,
                k,
                s.scores,
                Push::P8(
                    N_HEAD as u32,
                    (pos + 1) as u32,
                    HEAD_D as u32,
                    N_KV as u32,
                    words,
                    ATTN_SCALE,
                    0,
                    0,
                ),
                N_HEAD as int,
            ),
            self.softmax_op(pos),
            run_op(
                Kernel::AttnOutF16,
                s.scores,
                v,
                s.attn_h,
                Push::P8(
                    N_HEAD as u32,
                    (pos + 1) as u32,
                    HEAD_D as u32,
                    N_KV as u32,
                    words,
                    0,
                    0,
                    0,
                ),
                N_HEAD as int,
            ),
        ]
    }

    /// Attention at `pos` with quantized keys, and values quantized or in single precision.
    pub open spec fn core_quant_ops(&self, il: int, pos: int) -> Seq<Op> {
        let s = self.s;
        let l = self.layers@[il];
        let k = l.kq->0;
        let bits = self.kv.bits->0;
        let pw = self.kv.pwords as u32;
        let co = self.kv.cent_off as u32;
        let store = Push::P8(pos as u32, HEAD_D as u32, N_KV as u32, bits, pw, co, 0, 0);
        seq![
            run_op(Kernel::KvStoreQ, s.kn, k, k, store, N_KV as int),
            match l.vq {
                Some(v) => run_op(Kernel::KvStoreQ, s.vraw, v, v, store, N_KV as int),
                None => self.store_op(s.vraw, l.vcache->0, pos),
            },
            run_op(
                Kernel::AttnScoresQ,
                s.qn,
                k,
                s.scores,
                Push::P8(
                    N_HEAD as u32,
                    (pos + 1) as u32,
                    HEAD_D as u32,
                    N_KV as u32,
                    bits,
                    pw,
                    co,
                    ATTN_SCALE,
                ),
                N_HEAD as int,
            ),
            self.softmax_op(pos),
            match l.vq {
                Some(v) => run_op(
                    Kernel::AttnOutQ,
                    s.scores,
                    v,
                    s.attn_h,
                    Push::P8(
                        N_HEAD as u32,
                        (pos + 1) as u32,
                        HEAD_D as u32,
                        N_KV as u32,
                        bits,
                        pw,
                        co,
                        0,
                    ),
                    N_HEAD as int,
                ),
                None => self.out_op(l.vcache->0, pos),
            },
        ]
    }

    /// Attention at `pos`, in the way the cache is held.
    pub open spec fn any_core_ops(&self, il: int, pos: int) -> Seq<Op> {
        if self.kv.half {
            self.core_half_ops(il, pos)
        } else if self.kv.bits is Some {
            self.core_quant_ops(il, pos)
        } else {
            self.core_ops(il, pos)
        }
    }

    /// A full-attention layer at `pos`.
    pub open spec fn attn_ops(&self, il: int, pos: int) -> Seq<Op> {
        let s = self.s;
        seq![
            rms_op(s.cur, self.lw(il, "attn_norm.weight"@).buf, s.xnorm, N_EMBD as int),
            mat_op(s.partials, self.lw(il, "attn_q.weight"@), s.xnorm, s.qfull, 0),
            mat_op(s.partials, self.lw(il, "attn_k.weight"@), s.xnorm, s.kraw, 0),
            mat_op(s.partials, self.lw(il, "attn_v.weight"@), s.xnorm, s.vraw, 0),
        ] + self.qk_ops(il, pos) + self.any_core_ops(il, pos) + seq![
            elem_op(s.gate, s.attn_h, s.qfull, N_HEAD * HEAD_D, 4),
            mat_op(s.partials, self.lw(il, "attn_output.weight"@), s.qfull, s.branch, 0),
            add_op(s.cur, s.branch, N_EMBD as int),
        ]
    }

    /// The tensors of a full-attention layer, in the order in which they are looked up.
    pub open spec fn attn_names() -> Seq<Seq<char>> {
        seq![
            "attn_norm.weight"@,
            "attn_q.weight"@,
            "attn_k.weight"@,
            "attn_v.weight"@,
            "attn_q_norm.weight"@,
            "attn_k_norm.weight"@,
            "attn_output.weight"@,
        ]
    }

    /// The first of the first `k` tensors of layer `il` that is missing.
    pub open spec fn missing(&self, il: int, names: Seq<Seq<char>>, k: int) -> Option<Seq<char>>
        decreases k,
    {
        if k <= 0 {
            None
        } else {
            match self.missing(il, names, k - 1) {
                Some(n) => Some(n),
                None => if self.has(config::blk_text(il, names[k - 1])) {
                    None
                } else {
                    Some(config::blk_text(il, names[k - 1]))
                },
            }
        }
    }

    pub open spec fn first_missing(&self, il: int, names: Seq<Seq<char>>) -> Option<Seq<char>> {
        self.missing(il, names, names.len() as int)
    }

    /// Looks tensors of a layer up, in order.
    fn find_all(&self, il: usize, names: &Vec<&str>) -> (r: Result<Vec<TensorW>, String>)
        requires
            self.wf(),
        ensures
            ({
                let ns = Seq::new(names@.len(), |i: int| names@[i]@);
                match r {
                    Ok(ws) => {
                        &&& self.first_missing(il as int, ns) is None
                        &&& ws@.len() == ns.len()
                        &&& forall|i: int|
                            0 <= i < ns.len() ==> #[trigger] ws@[i] == self.lw(il as int, ns[i])
                    },
                    Err(m) => self.first_missing(il as int, ns) matches Some(n) && m@
                        == missing_text(n),
                }
            }),
    {
        let ghost ns = Seq::new(names@.len(), |i: int| names@[i]@);
        let mut out: Vec<TensorW> = Vec::new();
        let mut i: usize = 0;
        while i < names.len()
            invariant
                i <= names@.len(),
                self.wf(),
                ns == Seq::new(names@.len(), |i: int| names@[i]@),
                self.missing(il as int, ns, i as int) is None,
                out@.len() == i,
                forall|k: int| 0 <= k < i ==> #[trigger] out@[k] == self.lw(il as int, ns[k]),
            decreases names@.len() - i,
        {
            let name: String = self.cfg.blk_name(il, names[i]);
            match self.tw(name.as_str()) {
                Ok(w) => {
                    out.push(w);
                },
                Err(m) => {
                    proof {
                        self.lemma_missing(il as int, ns, i + 1, ns.len() as int);
                    }
                    return Err(m);
                },
            }
            i += 1;
        }
        Ok(out)
    }

    /// A tensor missing early is missing later.
    proof fn lemma_missing(&self, il: int, names: Seq<Seq<char>>, j: int, k: int)
        requires
            0 <= j <= k,
            self.missing(il, names, j) is Some,
        ensures
            self.missing(il, names, k) == self.missing(il, names, j),
        decreases k - j,
    {
        if j < k {
            self.lemma_missing(il, names, j, k - 1);
        }
    }

    pub(crate) fn rec_qk(&mut self, il: usize, pos: usize, wq: DevBuf, wk: DevBuf)
        requires
            wq == old(self).lw(il as int, "attn_q_norm.weight"@).buf,
            wk == old(self).lw(il as int, "attn_k_norm.weight"@).buf,
        ensures
            final(self).same_model(old(self)),
            gpu::recorded(
                old(self).gpu,
                final(self).gpu,
                old(self).qk_ops(il as int, pos as int),
            ),
    {
        let s = self.s;
        rec_run(
            &mut self.gpu,
            Kernel::SplitQgate,
            s.qfull,
            s.q,
            s.gate,
            Push::P2(HEAD_D as u32, 0),
            (N_HEAD * HEAD_D / 256) as u32,
        );
        rec_norm_rows(&mut self.gpu, s.q, wq, s.qn, N_HEAD * HEAD_D, HEAD_D, 0);
        rec_norm_rows(&mut self.gpu, s.kraw, wk, s.kn, N_KV * HEAD_D, HEAD_D, 0);
        let rope = Push::P8(HEAD_D as u32, N_ROT as u32, pos as u32, FREQ_BASE, 11, 11, 10, 0);
        rec_run(&mut self.gpu, Kernel::RopeImrope, s.qn, s.qn, s.qn, rope, N_HEAD as u32);
        rec_run(&mut self.gpu, Kernel::RopeImrope, s.kn, s.kn, s.kn, rope, N_KV as u32);
        assert(self.gpu.ops@ =~= old(self).gpu.ops@ + old(self).qk_ops(il as int, pos as int));
    }

    pub(crate) fn find_attn(&self, il: usize) -> (r: Result<Vec<TensorW>, String>)
        requires
            self.wf(),
        ensures
            match r {
                Ok(ws) => {
                    &&& self.first_missing(il as int, GDev::attn_names()) is None
                    &&& ws@.len() == 7
                    &&& forall|i: int|
                        0 <= i < 7 ==> #[trigger] ws@[i] == self.lw(
                            il as int,
                            GDev::attn_names()[i],
                        )
                },
                Err(m) => self.first_missing(il as int, GDev::attn_names()) matches Some(n) && m@
                    == missing_text(n),
            },
    {
        let names: Vec<&str> = vec![
            "attn_norm.weight",
            "attn_q.weight",
            "attn_k.weight",
            "attn_v.weight",
            "attn_q_norm.weight",
            "attn_k_norm.weight",
            "attn_output.weight",
        ];
        assert(Seq::new(names@.len(), |i: int| names@[i]@) =~= GDev::attn_names());
        self.find_all(il, &names)
    }

    fn rec_store(&mut self, src: DevBuf, cache: DevBuf, pos: usize)
        ensures
            final(self).same_model(old(self)),
            gpu::recorded(
                old(self).gpu,
                final(self).gpu,
                seq![old(self).store_op(src, cache, pos as int)],
            ),
    {
        rec_run(
            &mut self.gpu,
            Kernel::KvStore,
            src,
            cache,
            cache,
            Push::P2(pos as u32, KV_STRIDE as u32),
            4,
        );
    }

    fn rec_softmax(&mut self, att: Push, pos: usize)
        requires
            att == att_push(pos as int),
        ensures
            final(self).same_model(old(self)),
            gpu::recorded(
                old(self).gpu,
                final(self).gpu,
                seq![old(self).softmax_op(pos as int)],
            ),
    {
        let s = self.s;
        rec_run(
            &mut self.gpu,
            Kernel::SoftmaxInplace,
            s.scores,
            s.scores,
            s.scores,
            att,
            N_HEAD as u32,
        );
    }

    pub(crate) fn rec_core(&mut self, il: usize, pos: usize, k: DevBuf, v: DevBuf)
        requires
            pos < usize::MAX,
            il < old(self).layers@.len(),
            old(self).layers@[il as int].kcache == Some(k),
            old(self).layers@[il as int].vcache == Some(v),
        ensures
            final(self).same_model(old(self)),
            gpu::recorded(
                old(self).gpu,
                final(self).gpu,
                old(self).core_ops(il as int, pos as int),
            ),
    {
        let s = self.s;
        let att = Push::P6(
            N_HEAD as u32,
            (pos + 1) as u32,
            HEAD_D as u32,
            KV_STRIDE as u32,
            ATTN_SCALE,
            0,
        );
        self.rec_store(s.kn, k, pos);
        self.rec_store(s.vraw, v, pos);
        rec_run(&mut self.gpu, Kernel::AttnScores, s.qn, k, s.scores, att, N_HEAD as u32);
        self.rec_softmax(att, pos);
        rec_run(&mut self.gpu, Kernel::AttnOut, s.scores, v, s.attn_h, att, N_HEAD as u32);
        assert(self.gpu.ops@ =~= old(self).gpu.ops@ + old(self).core_ops(il as int, pos as int));
    }

    fn rec_core_half(&mut self, il: usize, pos: usize, k: DevBuf, v: DevBuf)
        requires
            pos < usize::MAX,
            il < old(self).layers@.len(),
            old(self).layers@[il as int].k16 == Some(k),
            old(self).layers@[il as int].v16 == Some(v),
        ensures
            final(self).same_model(old(self)),
            gpu::recorded(
                old(self).gpu,
                final(self).gpu,
                old(self).core_half_ops(il as int, pos as int),
            ),
    {
        let s = self.s;
        let n_pos: u32 = (pos + 1) as u32;
        let att = Push::P6(
            N_HEAD as u32,
            n_pos,
            HEAD_D as u32,
            KV_STRIDE as u32,
            ATTN_SCALE,
            0,
        );
        let words: u32 = (HEAD_D / 2) as u32;
        let store = Push::P8(pos as u32, HEAD_D as u32, N_KV as u32, words, 0, 0, 0, 0);
        rec_run(&mut self.gpu, Kernel::KvStoreF16, s.kn, k, k, store, N_KV as u32);
        rec_run(&mut self.gpu, Kernel::KvStoreF16, s.vraw, v, v, store, N_KV as u32);
        let pa = Push::P8(
            N_HEAD as u32,
            n_pos,
            HEAD_D as u32,
            N_KV as u32,
            words,
            ATTN_SCALE,
            0,
            0,
        );
        rec_run(&mut self.gpu, Kernel::AttnScoresF16, s.qn, k, s.scores, pa, N_HEAD as u32);
        self.rec_softmax(att, pos);
        let po = Push::P8(N_HEAD as u32, n_pos, HEAD_D as u32, N_KV as u32, words, 0, 0, 0);
        rec_run(&mut self.gpu, Kernel::AttnOutF16, s.scores, v, s.attn_h, po, N_HEAD as u32);
        assert(self.gpu.ops@ =~= old(self).gpu.ops@ + old(self).core_half_ops(
            il as int,
            pos as int,
        ));
    }

    fn rec_core_quant(&mut self, il: usize, pos: usize, bits: u32, k: DevBuf)
        requires
            pos < usize::MAX,
            il < old(self).layers@.len(),
            old(self).kv.bits == Some(bits),
            old(self).layers@[il as int].kq == Some(k),
            old(self).layers@[il as int].vq is Some || old(self).layers@[il as int].vcache is Some,
        ensures
            final(self).same_model(old(self)),
            gpu::recorded(
                old(self).gpu,
                final(self).gpu,
                old(self).core_quant_ops(il as int, pos as int),
            ),
    {
        let s = self.s;
        let l: LayerBufs = self.layers[il];
        let n_pos: u32 = (pos + 1) as u32;
        let att = Push::P6(
            N_HEAD as u32,
            n_pos,
            HEAD_D as u32,
            KV_STRIDE as u32,
            ATTN_SCALE,
            0,
        );
        let pw: u32 = self.kv.pwords as u32;
        let co: u32 = self.kv.cent_off as u32;
        let store = Push::P8(pos as u32, HEAD_D as u32, N_KV as u32, bits, pw, co, 0, 0);
        rec_run(&mut self.gpu, Kernel::KvStoreQ, s.kn, k, k, store, N_KV as u32);
        match l.vq {
            Some(v) => {
                rec_run(&mut self.gpu, Kernel::KvStoreQ, s.vraw, v, v, store, N_KV as u32);
            },
            None => {
                self.rec_store(s.vraw, l.vcache.unwrap(), pos);
            },
        }
        let pa = Push::P8(
            N_HEAD as u32,
            n_pos,
            HEAD_D as u32,
            N_KV as u32,
            bits,
            pw,
            co,
            ATTN_SCALE,
        );
        rec_run(&mut self.gpu, Kernel::AttnScoresQ, s.qn, k, s.scores, pa, N_HEAD as u32);
        self.rec_softmax(att, pos);
        match l.vq {
            Some(v) => {
                let po = Push::P8(
                    N_HEAD as u32,
                    n_pos,
                    HEAD_D as u32,
                    N_KV as u32,
                    bits,
                    pw,
                    co,
                    0,
                );
                rec_run(&mut self.gpu, Kernel::AttnOutQ, s.scores, v, s.attn_h, po, N_HEAD as u32);
            },
            None => {
                let v: DevBuf = l.vcache.unwrap();
                rec_run(&mut self.gpu, Kernel::AttnOut, s.scores, v, s.attn_h, att, N_HEAD as u32);
            },
        }
        assert(self.gpu.ops@ =~= old(self).gpu.ops@ + old(self).core_quant_ops(
            il as int,
            pos as int,
        ));
    }

    /// Records a full-attention layer for the token at `pos`. Nothing is recorded where a
    /// tensor is missing.
    pub fn rec_attn_layer(&mut self, il: usize, pos: usize) -> (r: Result<(), String>)
        requires
            old(self).wf(),
            il < old(self).cfg.n_layer,
            old(self).is_attn(il as int),
            pos < old(self).n_ctx,
        ensures
            final(self).same_model(old(self)),
            match r {
                Ok(_) => {
                    &&& old(self).first_missing(il as int, GDev::attn_names()) is None
                    &&& gpu::recorded(
                        old(self).gpu,
                        final(self).gpu,
                        old(self).attn_ops(il as int, pos as int),
                    )
                },
                Err(m) => {
                    &&& old(self).first_missing(il as int, GDev::attn_names()) matches Some(n) && m@
                        == missing_text(n)
                    &&& *final(self) == *old(self)
                },
            },
    {
        let w: Vec<TensorW> = match self.find_attn(il) {
            Ok(w) => w,
            Err(m) => {
                return Err(m);
            }};
        assert(self.layer_wf(il as int));
        let s = self.s;
        let l: LayerBufs = self.layers[il];
        rec_rms(&mut self.gpu, s.cur, w[0].buf, s.xnorm, N_EMBD);
        rec_mat(&mut self.gpu, s.partials, w[1], s.xnorm, s.qfull, 0);
        rec_mat(&mut self.gpu, s.partials, w[2], s.xnorm, s.kraw, 0);
        rec_mat(&mut self.gpu, s.partials, w[3], s.xnorm, s.vraw, 0);
        let ghost g1 = self.gpu;
        self.rec_qk(il, pos, w[4].buf, w[5].buf);
        if self.kv.half {
            self.rec_core_half(il, pos, l.k16.unwrap(), l.v16.unwrap());
        } else if let Some(bits) = self.kv.bits {
            self.rec_core_quant(il, pos, bits, l.kq.unwrap());
        } else {
            self.rec_core(il, pos, l.kcache.unwrap(), l.vcache.unwrap());
        }
        let ghost g2 = self.gpu;
        rec_elem(&mut self.gpu, s.gate, s.attn_h, s.qfull, N_HEAD * HEAD_D, 4);
        rec_mat(&mut self.gpu, s.partials, w[6], s.qfull, s.branch, 0);
        rec_add(&mut self.gpu, s.cur, s.branch, N_EMBD);
        proof {
            assert(g2.ops@ =~= g1.ops@ + (old(self).qk_ops(il as int, pos as int) + old(
                self,
            ).any_core_ops(il as int, pos as int)));
            assert(self.gpu.ops@ =~= old(self).gpu.ops@ + old(self).attn_ops(
                il as int,
                pos as int,
            ));
        }
        Ok(())
    }
}

// ---- recurrent layers and the feed-forward block ---------------------------------

impl GDev {
    /// Convolution, recurrence and gated norm of one position of a recurrent layer, from its
    /// projections on.
    pub open spec fn recur_ops(&self, il: int) -> Seq<Op> {
        let s = self.s;
        let l = self.layers@[il];
        seq![
            run_op(
                Kernel::Conv1dSilu,
                s.qkv,
                l.conv->0,
                self.lw(il, "ssm_conv1d.weight"@).buf,
                Push::P2(GDN_CH as u32, 0),
                ceil_256(GDN_CH as int),
            ),
            l2_op(s.qkv, 0, (GDN_DK / STATE_SIZE) as int),
            l2_op(s.qkv, GDN_DK as int, (GDN_DK / STATE_SIZE) as int),
            run_op(
                Kernel::GdnPrep,
                s.qkv,
                l.smalls,
                s.blob,
                Push::P2(0, 0),
                ceil_256(GDN_CH as int),
            ),
            run_op(Kernel::GdnStep, s.blob, l.state->0, s.attn_out, Push::P0, GDN_HV as int),
            norm_rows_op(
                s.attn_out,
                self.lw(il, "ssm_norm.weight"@).buf,
                s.normed,
                GDN_DI as int,
                STATE_SIZE as int,
                0,
            ),
            elem_op(s.z, s.normed, s.h1, GDN_DI as int, 3),
        ]
    }

    /// A recurrent layer for one token.
    pub open spec fn gdn_ops(&self, il: int) -> Seq<Op> {
        let s = self.s;
        let l = self.layers@[il];
        seq![
            rms_op(s.cur, self.lw(il, "attn_norm.weight"@).buf, s.xnorm, N_EMBD as int),
            mat_op(s.partials, self.lw(il, "attn_qkv.weight"@), s.xnorm, s.qkv, 0),
            mat_op(s.partials, self.lw(il, "attn_gate.weight"@), s.xnorm, s.z, 0),
            mat_op(s.partials, self.lw(il, "ssm_beta.weight"@), s.xnorm, l.smalls, 0),
            mat_op(
                s.partials,
                self.lw(il, "ssm_alpha.weight"@),
                s.xnorm,
                l.smalls,
                GDN_HV as int,
            ),
        ] + self.recur_ops(il) + seq![
            mat_op(s.partials, self.lw(il, "ssm_out.weight"@), s.h1, s.branch, 0),
            add_op(s.cur, s.branch, N_EMBD as int),
        ]
    }

    /// The tensors of a recurrent layer, in the order in which they are looked up.
    pub open spec fn gdn_names() -> Seq<Seq<char>> {
        seq![
            "attn_norm.weight"@,
            "attn_qkv.weight"@,
            "attn_gate.weight"@,
            "ssm_beta.weight"@,
            "ssm_alpha.weight"@,
            "ssm_conv1d.weight"@,
            "ssm_norm.weight"@,
            "ssm_out.weight"@,
        ]
    }

    /// The feed-forward block of a layer for one token.
    pub open spec fn ffn_ops(&self, il: int) -> Seq<Op> {
        let s = self.s;
        seq![
            rms_op(s.cur, self.lw(il, "post_attention_norm.weight"@).buf, s.xnorm, N_EMBD as int),
            mat_op(s.partials, self.lw(il, "ffn_gate.weight"@), s.xnorm, s.fg, 0),
            mat_op(s.partials, self.lw(il, "ffn_up.weight"@), s.xnorm, s.fu, 0),
            elem_op(s.fg, s.fu, s.h1, N_FF as int, 3),
            mat_op(s.partials, self.lw(il, "ffn_down.weight"@), s.h1, s.branch, 0),
            add_op(s.cur, s.branch, N_EMBD as int),
        ]
    }

    /// The tensors of a feed-forward block, in the order in which they are looked up.
    pub open spec fn ffn_names() -> Seq<Seq<char>> {
        seq![
            "post_attention_norm.weight"@,
            "ffn_gate.weight"@,
            "ffn_up.weight"@,
            "ffn_down.weight"@,
        ]
    }

    pub(crate) fn find_gdn(&self, il: usize) -> (r: Result<Vec<TensorW>, String>)
        requires
            self.wf(),
        ensures
            match r {
                Ok(ws) => {
                    &&& self.first_missing(il as int, GDev::gdn_names()) is None
                    &&& ws@.len() == 8
                    &&& forall|i: int|
                        0 <= i < 8 ==> #[trigger] ws@[i] == self.lw(
                            il as int,
                            GDev::gdn_names()[i],
                        )
                },
                Err(m) => self.first_missing(il as int, GDev::gdn_names()) matches Some(n) && m@
                    == missing_text(n),
            },
    {
        let names: Vec<&str> = vec![
            "attn_norm.weight",
            "attn_qkv.weight",
            "attn_gate.weight",
            "ssm_beta.weight",
            "ssm_alpha.weight",
            "ssm_conv1d.weight",
            "ssm_norm.weight",
            "ssm_out.weight",
        ];
        assert(Seq::new(names@.len(), |i: int| names@[i]@) =~= GDev::gdn_names());
        self.find_all(il, &names)
    }

    pub(crate) fn find_ffn(&self, il: usize) -> (r: Result<Vec<TensorW>, String>)
        requires
            self.wf(),
        ensures
            match r {
                Ok(ws) => {
                    &&& self.first_missing(il as int, GDev::ffn_names()) is None
                    &&& ws@.len() == 4
                    &&& forall|i: int|
                        0 <= i < 4 ==> #[trigger] ws@[i] == self.lw(
                            il as int,
                            GDev::ffn_names()[i],
                        )
                },
                Err(m) => self.first_missing(il as int, GDev::ffn_names()) matches Some(n) && m@
                    == missing_text(n),
            },
    {
        let names: Vec<&str> = vec![
            "post_attention_norm.weight",
            "ffn_gate.weight",
            "ffn_up.weight",
            "ffn_down.weight",
        ];
        assert(Seq::new(names@.len(), |i: int| names@[i]@) =~= GDev::ffn_names());
        self.find_all(il, &names)
    }

    pub(crate) fn rec_recur(&mut self, il: usize, cw: DevBuf, wsn: DevBuf)
        requires
            il < old(self).layers@.len(),
            old(self).layers@[il as int].conv is Some,
            old(self).layers@[il as int].state is Some,
            cw == old(self).lw(il as int, "ssm_conv1d.weight"@).buf,
            wsn == old(self).lw(il as int, "ssm_norm.weight"@).buf,
        ensures
            final(self).same_model(old(self)),
            gpu::recorded(old(self).gpu, final(self).gpu, old(self).recur_ops(il as int)),
    {
        let s = self.s;
        let l: LayerBufs = self.layers[il];
        rec_run(
            &mut self.gpu,
            Kernel::Conv1dSilu,
            s.qkv,
            l.conv.unwrap(),
            cw,
            Push::P2(GDN_CH as u32, 0),
            40,
        );
        rec_l2(&mut self.gpu, s.qkv, 0, GDN_DK / STATE_SIZE);
        rec_l2(&mut self.gpu, s.qkv, GDN_DK, GDN_DK / STATE_SIZE);
        rec_run(&mut self.gpu, Kernel::GdnPrep, s.qkv, l.smalls, s.blob, Push::P2(0, 0), 40);
        rec_run(
            &mut self.gpu,
            Kernel::GdnStep,
            s.blob,
            l.state.unwrap(),
            s.attn_out,
            Push::P0,
            GDN_HV as u32,
        );
        rec_norm_rows(&mut self.gpu, s.attn_out, wsn, s.normed, GDN_DI, STATE_SIZE, 0);
        rec_elem(&mut self.gpu, s.z, s.normed, s.h1, GDN_DI, 3);
        assert(self.gpu.ops@ =~= old(self).gpu.ops@ + old(self).recur_ops(il as int));
    }

    /// Records a recurrent layer for one token. Nothing is recorded where a tensor is missing.
    pub fn rec_gdn_layer(&mut self, il: usize) -> (r: Result<(), String>)
        requires
            old(self).wf(),
            il < old(self).cfg.n_layer,
            !old(self).is_attn(il as int),
        ensures
            final(self).same_model(old(self)),
            match r {
                Ok(_) => {
                    &&& old(self).first_missing(il as int, GDev::gdn_names()) is None
                    &&& gpu::recorded(old(self).gpu, final(self).gpu, old(self).gdn_ops(il as int))
                },
                Err(m) => {
                    &&& old(self).first_missing(il as int, GDev::gdn_names()) matches Some(n) && m@
                        == missing_text(n)
                    &&& *final(self) == *old(self)
                },
            },
    {
        let w: Vec<TensorW> = match self.find_gdn(il) {
            Ok(w) => w,
            Err(m) => {
                return Err(m);
            }};
        assert(self.layer_wf(il as int));
        let s = self.s;
        let l: LayerBufs = self.layers[il];
        rec_rms(&mut self.gpu, s.cur, w[0].buf, s.xnorm, N_EMBD);
        rec_mat(&mut self.gpu, s.partials, w[1], s.xnorm, s.qkv, 0);
        rec_mat(&mut self.gpu, s.partials, w[2], s.xnorm, s.z, 0);
        rec_mat(&mut self.gpu, s.partials, w[3], s.xnorm, l.smalls, 0);
        rec_mat(&mut self.gpu, s.partials, w[4], s.xnorm, l.smalls, GDN_HV);
        self.rec_recur(il, w[5].buf, w[6].buf);
        rec_mat(&mut self.gpu, s.partials, w[7], s.h1, s.branch, 0);
        rec_add(&mut self.gpu, s.cur, s.branch, N_EMBD);
        assert(self.gpu.ops@ =~= old(self).gpu.ops@ + old(self).gdn_ops(il as int));
        Ok(())
    }

    /// Records a feed-forward block for one token. Nothing is recorded where a tensor is missing.
    pub fn rec_ffn(&mut self, il: usize) -> (r: Result<(), String>)
        requires
            old(self).wf(),
            il < old(self).cfg.n_layer,
        ensures
            final(self).same_model(old(self)),
            match r {
                Ok(_) => {
                    &&& old(self).first_missing(il as int, GDev::ffn_names()) is None
                    &&& gpu::recorded(old(self).gpu, final(self).gpu, old(self).ffn_ops(il as int))
                },
                Err(m) => {
                    &&& old(self).first_missing(il as int, GDev::ffn_names()) matches Some(n) && m@
                        == missing_text(n)
                    &&& *final(self) == *old(self)
                },
            },
    {
        let w: Vec<TensorW> = match self.find_ffn(il) {
            Ok(w) => w,
            Err(m) => {
                return Err(m);
            }};
        let s = self.s;
        rec_rms(&mut self.gpu, s.cur, w[0].buf, s.xnorm, N_EMBD);
        rec_mat(&mut self.gpu, s.partials, w[1], s.xnorm, s.fg, 0);
        rec_mat(&mut self.gpu, s.partials, w[2], s.xnorm, s.fu, 0);
        rec_elem(&mut self.gpu, s.fg, s.fu, s.h1, N_FF, 3);
        rec_mat(&mut self.gpu, s.partials, w[3], s.h1, s.branch, 0);
        rec_add(&mut self.gpu, s.cur, s.branch, N_EMBD);
        assert(self.gpu.ops@ =~= old(self).gpu.ops@ + old(self).ffn_ops(il as int));
        Ok(())
    }

    // ---- one token ----------------------------------------------------------------

    pub open spec fn zero_op(buf: Option<DevBuf>, bytes: int) -> Seq<Op> {
        match buf {
            Some(b) => seq![Op::Zero { buf: b, bytes: bytes as u64 }],
            None => Seq::empty(),
        }
    }

    /// Clearing the caches of the first `k` layers.
    pub open spec fn reset_ops(&self, k: int) -> Seq<Op>
        decreases k,
    {
        if k <= 0 {
            Seq::empty()
        } else {
            self.reset_ops(k - 1) + self.reset_layer_ops(k - 1)
        }
    }

    /// Clearing the caches of layer `il`.
    pub open spec fn reset_layer_ops(&self, il: int) -> Seq<Op> {
        let l = self.layers@[il];
        let kv = self.n_ctx * KV_STRIDE * 4;
        GDev::zero_op(l.kcache, kv) + GDev::zero_op(l.vcache, kv) + GDev::zero_op(
            l.conv,
            3 * GDN_CH * 4,
        ) + GDev::zero_op(l.state, GDN_STATE_ELEMS * 4)
    }

    fn rec_zero(&mut self, buf: Option<DevBuf>, bytes: u64)
        ensures
            final(self).same_model(old(self)),
            gpu::recorded(old(self).gpu, final(self).gpu, GDev::zero_op(buf, bytes as int)),
    {
        if let Some(b) = buf {
            self.gpu.rec(Op::Zero { buf: b, bytes });
        } else {
            assert(self.gpu.ops@ + Seq::<Op>::empty() =~= self.gpu.ops@);
        }
    }

    fn reset_layer(&mut self, il: usize)
        requires
            il < old(self).layers@.len(),
            old(self).n_ctx <= 262_144,
        ensures
            final(self).same_model(old(self)),
            gpu::recorded(old(self).gpu, final(self).gpu, old(self).reset_layer_ops(il as int)),
    {
        let kv: u64 = self.n_ctx as u64 * KV_STRIDE as u64 * 4;
        let l: LayerBufs = self.layers[il];
        let ghost a = GDev::zero_op(l.kcache, kv as int);
        let ghost b = GDev::zero_op(l.vcache, kv as int);
        let ghost c = GDev::zero_op(l.conv, 3 * GDN_CH * 4);
        let ghost d = GDev::zero_op(l.state, GDN_STATE_ELEMS * 4);
        let ghost g0 = self.gpu;
        self.rec_zero(l.kcache, kv);
        let ghost g1 = self.gpu;
        self.rec_zero(l.vcache, kv);
        let ghost g2 = self.gpu;
        self.rec_zero(l.conv, 3 * GDN_CH as u64 * 4);
        let ghost g3 = self.gpu;
        self.rec_zero(l.state, GDN_STATE_ELEMS as u64 * 4);
        proof {
            gpu::lemma_recorded(g0, g1, g2, a, b);
            gpu::lemma_recorded(g0, g2, g3, a + b, c);
            gpu::lemma_recorded(g0, g3, self.gpu, a + b + c, d);
        }
    }

    /// Records the clearing of every cache: a fresh sequence.
    pub fn reset_sequence(&mut self)
        requires
            old(self).wf(),
        ensures
            final(self).same_model(old(self)),
            gpu::recorded(
                old(self).gpu,
                final(self).gpu,
                old(self).reset_ops(old(self).cfg.n_layer as int),
            ),
    {
        let n: usize = self.cfg.n_layer;
        let mut il: usize = 0;
        assert(self.gpu.ops@ + Seq::<Op>::empty() =~= self.gpu.ops@);
        while il < n
            invariant
                il <= n,
                n == old(self).cfg.n_layer,
                old(self).wf(),
                self.same_model(old(self)),
                gpu::recorded(old(self).gpu, self.gpu, old(self).reset_ops(il as int)),
            decreases n - il,
        {
            let ghost before = self.gpu;
            self.reset_layer(il);
            proof {
                gpu::lemma_recorded(
                    old(self).gpu,
                    before,
                    self.gpu,
                    old(self).reset_ops(il as int),
                    old(self).reset_layer_ops(il as int),
                );
            }
            il += 1;
        }
    }

    /// The mixer of a layer for the token at `pos`.
    pub open spec fn mixer_ops(&self, il: int, pos: int) -> Seq<Op> {
        if self.is_attn(il) {
            self.attn_ops(il, pos)
        } else {
            self.gdn_ops(il)
        }
    }

    pub open spec fn mixer_names(&self, il: int) -> Seq<Seq<char>> {
        if self.is_attn(il) {
            GDev::attn_names()
        } else {
            GDev::gdn_names()
        }
    }

    /// The first `k` layers for the token at `pos`.
    pub open spec fn layers_ops(&self, pos: int, k: int) -> Seq<Op>
        decreases k,
    {
        if k <= 0 {
            Seq::empty()
        } else {
            self.layers_ops(pos, k - 1) + self.mixer_ops(k - 1, pos) + self.ffn_ops(k - 1)
        }
    }

    /// The first tensor of the first `k` layers that is missing.
    pub open spec fn layers_missing(&self, k: int) -> Option<Seq<char>>
        decreases k,
    {
        if k <= 0 {
            None
        } else {
            match self.layers_missing(k - 1) {
                Some(n) => Some(n),
                None => match self.first_missing(k - 1, self.mixer_names(k - 1)) {
                    Some(n) => Some(n),
                    None => self.first_missing(k - 1, GDev::ffn_names()),
                },
            }
        }
    }

    /// The first tensor that a pass misses.
    pub open spec fn model_missing(&self) -> Option<Seq<char>> {
        match self.layers_missing(self.cfg.n_layer as int) {
            Some(n) => Some(n),
            None => if self.has("output_norm.weight"@) {
                None
            } else {
                Some("output_norm.weight"@)
            },
        }
    }

    pub(crate) proof fn lemma_layers_missing(&self, j: int, k: int)
        requires
            0 <= j <= k,
            self.layers_missing(j) is Some,
        ensures
            self.layers_missing(k) == self.layers_missing(j),
        decreases k - j,
    {
        if j < k {
            self.lemma_layers_missing(j, k - 1);
        }
    }

    /// A whole pass for the token at `pos`: a fresh sequence begins with clear caches.
    pub open spec fn token_ops(&self, pos: int) -> Seq<Op> {
        let n = self.cfg.n_layer as int;
        let s = self.s;
        (if pos == 0 {
            self.reset_ops(n)
        } else {
            Seq::empty()
        }) + seq![Op::Embeddings { buf: s.cur, first: 0, count: 1 }, Op::Begin] + self.layers_ops(
            pos,
            n,
        ) + seq![
            rms_op(s.cur, self.weight("output_norm.weight"@).buf, s.hidden, N_EMBD as int),
            Op::Submit,
            Op::Read { buf: s.hidden, bytes: (N_EMBD * 4) as u64 },
        ]
    }

    /// Records one token's mixer.
    fn rec_mixer(&mut self, il: usize, pos: usize) -> (r: Result<(), String>)
        requires
            old(self).wf(),
            il < old(self).cfg.n_layer,
            pos < old(self).n_ctx,
        ensures
            final(self).same_model(old(self)),
            match r {
                Ok(_) => {
                    &&& old(self).first_missing(
                        il as int,
                        old(self).mixer_names(il as int),
                    ) is None
                    &&& gpu::recorded(
                        old(self).gpu,
                        final(self).gpu,
                        old(self).mixer_ops(il as int, pos as int),
                    )
                },
                Err(m) => {
                    &&& old(self).first_missing(
                        il as int,
                        old(self).mixer_names(il as int),
                    ) matches Some(n) && m@ == missing_text(n)
                    &&& *final(self) == *old(self)
                },
            },
    {
        if self.cfg.is_full_attention(il) {
            self.rec_attn_layer(il, pos)
        } else {
            self.rec_gdn_layer(il)
        }
    }

    /// Records all layers for the token at `pos`.
    fn rec_layers(&mut self, pos: usize) -> (r: Result<(), String>)
        requires
            old(self).wf(),
            pos < old(self).n_ctx,
        ensures
            final(self).same_model(old(self)),
            ({
                let n = old(self).cfg.n_layer as int;
                match r {
                    Ok(_) => {
                        &&& old(self).layers_missing(n) is None
                        &&& gpu::recorded(
                            old(self).gpu,
                            final(self).gpu,
                            old(self).layers_ops(pos as int, n),
                        )
                    },
                    Err(m) => {
                        &&& old(self).layers_missing(n) matches Some(x) && m@ == missing_text(x)
                        &&& gpu::extends(old(self).gpu, final(self).gpu)
                    },
                }
            }),
    {
        let n: usize = self.cfg.n_layer;
        let mut il: usize = 0;
        assert(self.gpu.ops@ + Seq::<Op>::empty() =~= self.gpu.ops@);
        while il < n
            invariant
                il <= n,
                n == old(self).cfg.n_layer,
                old(self).wf(),
                pos < old(self).n_ctx,
                self.same_model(old(self)),
                old(self).layers_missing(il as int) is None,
                gpu::recorded(old(self).gpu, self.gpu, old(self).layers_ops(pos as int, il as int)),
            decreases n - il,
        {
            let ghost before = self.gpu;
            proof {
                self.lemma_same_specs(old(self), il as int, pos as int);
            }
            match self.rec_mixer(il, pos) {
                Ok(_) => {},
                Err(m) => {
                    proof {
                        old(self).lemma_layers_missing(il + 1, n as int);
                        assert(self.gpu.ops@.take(self.gpu.ops@.len() as int) =~= self.gpu.ops@);
                        gpu::lemma_extends(
                            old(self).gpu,
                            self.gpu,
                            self.gpu,
                            old(self).layers_ops(pos as int, il as int),
                        );
                    }
                    return Err(m);
                },
            }
            let ghost mid = *self;
            proof {
                mid.lemma_same_specs(old(self), il as int, pos as int);
            }
            match self.rec_ffn(il) {
                Ok(_) => {},
                Err(m) => {
                    proof {
                        old(self).lemma_layers_missing(il + 1, n as int);
                        assert(self.gpu.ops@.take(self.gpu.ops@.len() as int) =~= self.gpu.ops@);
                        gpu::lemma_recorded(
                            old(self).gpu,
                            before,
                            self.gpu,
                            old(self).layers_ops(pos as int, il as int),
                            old(self).mixer_ops(il as int, pos as int),
                        );
                        gpu::lemma_extends(
                            old(self).gpu,
                            self.gpu,
                            self.gpu,
                            old(self).layers_ops(pos as int, il as int) + old(self).mixer_ops(
                                il as int,
                                pos as int,
                            ),
                        );
                    }
                    return Err(m);
                },
            }
            il += 1;
            assert(self.gpu.ops@ =~= old(self).gpu.ops@ + old(self).layers_ops(
                pos as int,
                il as int,
            ));
        }
        Ok(())
    }

    /// What a layer records and looks up depends on the model alone.
    pub(crate) proof fn lemma_same_specs(&self, other: &GDev, il: int, pos: int)
        requires
            self.same_model(other),
            other.wf(),
        ensures
            self.wf(),
            self.mixer_ops(il, pos) == other.mixer_ops(il, pos),
            self.ffn_ops(il) == other.ffn_ops(il),
            self.mixer_names(il) == other.mixer_names(il),
            forall|names: Seq<Seq<char>>| #[trigger]
                self.first_missing(il, names) == other.first_missing(il, names),
    {
        assert forall|i: int| 0 <= i < self.cfg.n_layer implies #[trigger] self.layer_wf(i) by {
            assert(other.layer_wf(i));
        }
        assert forall|names: Seq<Seq<char>>| #[trigger]
            self.first_missing(il, names) == other.first_missing(il, names) by {
            self.lemma_same_missing(other, il, names, names.len() as int);
        }
        assert(self.qk_ops(il, pos) == other.qk_ops(il, pos));
        assert(self.any_core_ops(il, pos) == other.any_core_ops(il, pos));
        assert(self.recur_ops(il) == other.recur_ops(il));
    }

    proof fn lemma_same_missing(&self, other: &GDev, il: int, names: Seq<Seq<char>>, k: int)
        requires
            self.same_model(other),
        ensures
            self.missing(il, names, k) == other.missing(il, names, k),
        decreases k,
    {
        if k > 0 {
            self.lemma_same_missing(other, il, names, k - 1);
        }
    }

    /// Records the pass of one token. Refuses a position behind the context; records nothing
    /// where it refuses or a tensor is missing.
    pub fn forward_token(&mut self, pos: usize) -> (r: Result<(), String>)
        requires
            old(self).wf(),
        ensures
            final(self).same_model(old(self)),
            match r {
                Ok(_) => {
                    &&& pos < old(self).n_ctx
                    &&& old(self).model_missing() is None
                    &&& gpu::recorded(
                        old(self).gpu,
                        final(self).gpu,
                        old(self).token_ops(pos as int),
                    )
                },
                Err(m) => {
                    &&& gpu::recorded(old(self).gpu, final(self).gpu, Seq::empty())
                    &&& if pos >= old(self).n_ctx {
                        m@ == "gdev: position "@ + text::decimal(pos as nat) + " exceeds context "@
                            + text::decimal(old(self).n_ctx as nat) + "/"@ + text::decimal(
                            old(self).n_ctx as nat,
                        ) + " (raise BONSAI_CTX)"@
                    } else {
                        old(self).model_missing() matches Some(n) && m@ == missing_text(n)
                    }
                },
            },
    {
        assert(self.gpu.ops@ + Seq::<Op>::empty() =~= self.gpu.ops@);
        if pos >= self.n_ctx {
            let mut m = "gdev: position ".to_owned();
            text::push_decimal(&mut m, pos as u64);
            m.append(" exceeds context ");
            text::push_decimal(&mut m, self.n_ctx as u64);
            m.append("/");
            text::push_decimal(&mut m, self.n_ctx as u64);
            m.append(" (raise BONSAI_CTX)");
            return Err(m);
        }
        let start: usize = self.gpu.ops.len();
        let s = self.s;
        if pos == 0 {
            self.reset_sequence();
        }
        self.gpu.rec(Op::Embeddings { buf: s.cur, first: 0, count: 1 });
        self.gpu.rec(Op::Begin);
        let ghost mid = *self;
        proof {
            mid.lemma_same_specs(old(self), 0, 0);
            mid.lemma_same_layers(old(self), pos as int, self.cfg.n_layer as int);
        }
        let ghost head = (if pos == 0 {
            old(self).reset_ops(old(self).cfg.n_layer as int)
        } else {
            Seq::empty()
        }) + seq![Op::Embeddings { buf: s.cur, first: 0, count: 1 }, Op::Begin];
        assert(mid.gpu.ops@ =~= old(self).gpu.ops@ + head);
        match self.rec_layers(pos) {
            Ok(_) => {},
            Err(m) => {
                proof {
                    gpu::lemma_extends(old(self).gpu, mid.gpu, self.gpu, head);
                }
                self.forget(start, Ghost(*old(self)));
                return Err(m);
            },
        }
        proof {
            self.lemma_same_specs(old(self), 0, 0);
        }
        let w: TensorW = match self.tw("output_norm.weight") {
            Ok(w) => w,
            Err(m) => {
                proof {
                    assert(self.gpu.ops@.take(start as int) =~= old(self).gpu.ops@);
                }
                self.forget(start, Ghost(*old(self)));
                return Err(m);
            }};
        rec_rms(&mut self.gpu, s.cur, w.buf, s.hidden, N_EMBD);
        self.gpu.rec(Op::Submit);
        self.gpu.rec(Op::Read { buf: s.hidden, bytes: N_EMBD as u64 * 4 });
        assert(self.gpu.ops@ =~= old(self).gpu.ops@ + old(self).token_ops(pos as int));
        Ok(())
    }

    pub(crate) proof fn lemma_same_layers(&self, other: &GDev, pos: int, k: int)
        requires
            self.same_model(other),
            other.wf(),
        ensures
            self.layers_ops(pos, k) == other.layers_ops(pos, k),
            self.layers_missing(k) == other.layers_missing(k),
        decreases k,
    {
        if k > 0 {
            self.lemma_same_layers(other, pos, k - 1);
            self.lemma_same_specs(other, k - 1, pos);
        }
    }

    /// Drops what was recorded since `start`.
    pub(crate) fn forget(&mut self, start: usize, Ghost(before): Ghost<GDev>)
        requires
            old(self).same_model(&before),
            before.gpu.ops@.len() == start,
            gpu::extends(before.gpu, old(self).gpu),
        ensures
            final(self).same_model(&before),
            gpu::recorded(before.gpu, final(self).gpu, Seq::empty()),
    {
        self.gpu.ops.truncate(start);
        assert(self.gpu.ops@ =~= before.gpu.ops@ + Seq::<Op>::empty());
    }
}

} // verus!
