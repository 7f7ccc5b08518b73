//! The device command log: what the host asks the device to do, in order.

use vstd::prelude::*;

verus! {

/// A device buffer.
#[derive(Debug, Clone, Copy, PartialEq, Eq, Structural)]
pub struct DevBuf {
    pub id: u64,
    /// Size in bytes.
    pub len: u64,
}

/// The compute kernels.
#[derive(Debug, Clone, Copy, PartialEq, Eq, Structural)]
pub enum Kernel {
    RmsNorm,
    NormRows,
    L2Inplace,
    AddResidual,
    TileCopy,
    Elem,
    SplitQgate,
    RopeImrope,
    KvStore,
    KvStoreF16,
    KvStoreQ,
    AttnScores,
    AttnScoresF16,
    AttnScoresQ,
    SoftmaxInplace,
    AttnOut,
    AttnOutF16,
    AttnOutQ,
    Conv1dSilu,
    GdnPrep,
    GdnStep,
}

/// The name of a kernel.
pub open spec fn kernel_name(k: Kernel) -> Seq<char> {
    match k {
        Kernel::RmsNorm => "rms_norm"@,
        Kernel::NormRows => "norm_rows"@,
        Kernel::L2Inplace => "l2_inplace"@,
        Kernel::AddResidual => "add_residual"@,
        Kernel::TileCopy => "tile_copy"@,
        Kernel::Elem => "elem"@,
        Kernel::SplitQgate => "split_qgate"@,
        Kernel::RopeImrope => "rope_imrope"@,
        Kernel::KvStore => "kv_store"@,
        Kernel::KvStoreF16 => "kv_store_f16"@,
        Kernel::KvStoreQ => "kv_store_q"@,
        Kernel::AttnScores => "attn_scores"@,
        Kernel::AttnScoresF16 => "attn_scores_f16"@,
        Kernel::AttnScoresQ => "attn_scores_q"@,
        Kernel::SoftmaxInplace => "softmax_inplace"@,
        Kernel::AttnOut => "attn_out"@,
        Kernel::AttnOutF16 => "attn_out_f16"@,
        Kernel::AttnOutQ => "attn_out_q"@,
        Kernel::Conv1dSilu => "conv1d_silu"@,
        Kernel::GdnPrep => "gdn_prep"@,
        Kernel::GdnStep => "gdn_step"@,
    }
}

impl Kernel {
    /// The name under which the kernel is built.
    pub fn name(&self) -> (r: &'static str)
        ensures
            r@ == kernel_name(*self),
    {
        match self {
            Kernel::RmsNorm => "rms_norm",
            Kernel::NormRows => "norm_rows",
            Kernel::L2Inplace => "l2_inplace",
            Kernel::AddResidual => "add_residual",
            Kernel::TileCopy => "tile_copy",
            Kernel::Elem => "elem",
            Kernel::SplitQgate => "split_qgate",
            Kernel::RopeImrope => "rope_imrope",
            Kernel::KvStore => "kv_store",
            Kernel::KvStoreF16 => "kv_store_f16",
            Kernel::KvStoreQ => "kv_store_q",
            Kernel::AttnScores => "attn_scores",
            Kernel::AttnScoresF16 => "attn_scores_f16",
            Kernel::AttnScoresQ => "attn_scores_q",
            Kernel::SoftmaxInplace => "softmax_inplace",
            Kernel::AttnOut => "attn_out",
            Kernel::AttnOutF16 => "attn_out_f16",
            Kernel::AttnOutQ => "attn_out_q",
            Kernel::Conv1dSilu => "conv1d_silu",
            Kernel::GdnPrep => "gdn_prep",
            Kernel::GdnStep => "gdn_step",
        }
    }
}

/// A dispatch's push constants: up to eight words.
#[derive(Debug, Clone, Copy, PartialEq, Eq, Structural)]
pub enum Push {
    P0,
    P1(u32),
    P2(u32, u32),
    P3(u32, u32, u32),
    P4(u32, u32, u32, u32),
    P6(u32, u32, u32, u32, u32, u32),
    P8(u32, u32, u32, u32, u32, u32, u32, u32),
}

/// The words of push constants.
pub open spec fn push_words(p: Push) -> Seq<u32> {
    match p {
        Push::P0 => Seq::empty(),
        Push::P1(a) => seq![a],
        Push::P2(a, b) => seq![a, b],
        Push::P3(a, b, c) => seq![a, b, c],
        Push::P4(a, b, c, d) => seq![a, b, c, d],
        Push::P6(a, b, c, d, e, f) => seq![a, b, c, d, e, f],
        Push::P8(a, b, c, d, e, f, g, h) => seq![a, b, c, d, e, f, g, h],
    }
}

impl Push {
    /// The words, in order.
    pub fn words(&self) -> (r: Vec<u32>)
        ensures
            r@ == push_words(*self),
    {
        match *self {
            Push::P0 => vec![],
            Push::P1(a) => vec![a],
            Push::P2(a, b) => vec![a, b],
            Push::P3(a, b, c) => vec![a, b, c],
            Push::P4(a, b, c, d) => vec![a, b, c, d],
            Push::P6(a, b, c, d, e, f) => vec![a, b, c, d, e, f],
            Push::P8(a, b, c, d, e, f, g, h) => vec![a, b, c, d, e, f, g, h],
        }
    }
}

/// One step for the device.
#[derive(Debug, Clone, Copy, PartialEq, Eq, Structural)]
pub enum Op {
    /// Create a buffer, in device-local memory or in memory that the host can see.
    Alloc { buf: DevBuf, local: bool },
    /// Fill the start of a buffer with zeros.
    Zero { buf: DevBuf, bytes: u64 },
    /// Copy the payload of a tensor of the model file into a buffer.
    Weights { buf: DevBuf, tensor: usize },
    /// Copy host words into a buffer.
    Words { buf: DevBuf, blob: usize },
    /// Install the rotation table and the codebook of a quantized cache.
    KvParams { hd: usize, bits: u32 },
    /// Copy host embedding rows into a buffer.
    Embeddings { buf: DevBuf, first: usize, count: usize },
    /// Begin a command buffer.
    Begin,
    /// Run a kernel over three buffers.
    Dispatch { kernel: Kernel, a: DevBuf, b: DevBuf, c: DevBuf, push: Push, groups: u32 },
    /// Multiply a ternary matrix with a vector.
    Matvec { w: DevBuf, x: DevBuf, y: DevBuf, ybase: u32, partials: DevBuf, ne0: u32, rows: u32 },
    /// Multiply a ternary matrix with `cols` vectors.
    MatvecBatch {
        w: DevBuf,
        x: DevBuf,
        y: DevBuf,
        partials: DevBuf,
        ne0: u32,
        rows: u32,
        cols: u32,
    },
    /// End the command buffer, run it and wait.
    Submit,
    /// Copy the start of a buffer to the host.
    Read { buf: DevBuf, bytes: u64 },
    /// Release a buffer.
    Destroy { buf: DevBuf },
}

/// The recorder: the steps so far, and the identity of the next buffer.
#[derive(Debug)]
pub struct Gpu {
    /// The device has memory of its own.
    pub discrete: bool,
    /// Use device-local memory even where it is shared.
    pub force_local: bool,
    pub next: u64,
    pub ops: Vec<Op>,
    pub blobs: Vec<Vec<u32>>,
}

/// `b` is `a` with `ops` recorded behind.
pub open spec fn recorded(a: Gpu, b: Gpu, ops: Seq<Op>) -> bool {
    &&& b.ops@ == a.ops@ + ops
    &&& b.discrete == a.discrete
    &&& b.force_local == a.force_local
    &&& b.next == a.next
    &&& b.blobs == a.blobs
}

/// Recordings follow one another.
pub proof fn lemma_recorded(a: Gpu, b: Gpu, c: Gpu, x: Seq<Op>, y: Seq<Op>)
    requires
        recorded(a, b, x),
        recorded(b, c, y),
    ensures
        recorded(a, c, x + y),
{
    assert(a.ops@ + x + y =~= a.ops@ + (x + y));
}

/// `b` is `a` with some steps recorded behind.
pub open spec fn extends(a: Gpu, b: Gpu) -> bool {
    &&& a.ops@.len() <= b.ops@.len()
    &&& b.ops@.take(a.ops@.len() as int) == a.ops@
    &&& b.discrete == a.discrete
    &&& b.force_local == a.force_local
    &&& b.next == a.next
    &&& b.blobs == a.blobs
}

pub proof fn lemma_extends(a: Gpu, b: Gpu, c: Gpu, ops: Seq<Op>)
    requires
        recorded(a, b, ops),
        extends(b, c),
    ensures
        extends(a, b),
        extends(a, c),
{
    assert(b.ops@.take(a.ops@.len() as int) =~= a.ops@);
    assert(c.ops@.take(a.ops@.len() as int) =~= c.ops@.take(b.ops@.len() as int).take(
        a.ops@.len() as int,
    ));
}

/// The buffer that the next allocation of `bytes` bytes creates.
pub open spec fn next_buf(next: int, bytes: int) -> DevBuf {
    DevBuf { id: next as u64, len: bytes as u64 }
}

/// The step of that allocation.
pub open spec fn buf_op(local: bool, next: int, bytes: int) -> Op {
    Op::Alloc { buf: next_buf(next, bytes), local }
}

/// The step of that allocation on the device of `g`.
pub open spec fn alloc_op(g: Gpu, next: int, bytes: int) -> Op {
    buf_op(g.force_local || g.discrete, next, bytes)
}

impl Gpu {
    pub fn new(discrete: bool, force_local: bool) -> (r: Gpu)
        ensures
            r.discrete == discrete,
            r.force_local == force_local,
            r.next == 0,
            r.ops@ == Seq::<Op>::empty(),
            r.blobs@ == Seq::<Vec<u32>>::empty(),
    {
        Gpu { discrete, force_local, next: 0, ops: Vec::new(), blobs: Vec::new() }
    }

    /// Records one step.
    pub fn rec(&mut self, op: Op)
        ensures
            recorded(*old(self), *final(self), seq![op]),
    {
        self.ops.push(op);
        assert(self.ops@ =~= old(self).ops@ + seq![op]);
    }

    /// Takes the steps recorded so far.
    pub fn take_ops(&mut self) -> (r: Vec<Op>)
        ensures
            r@ == old(self).ops@,
            final(self).ops@ == Seq::<Op>::empty(),
            final(self).next == old(self).next,
            final(self).blobs == old(self).blobs,
            final(self).discrete == old(self).discrete,
            final(self).force_local == old(self).force_local,
    {
        let mut out: Vec<Op> = Vec::new();
        std::mem::swap(&mut out, &mut self.ops);
        out
    }

    /// Allocates a buffer: in device-local memory on a device that has its own, or where forced;
    /// else in memory that the host can see.
    pub fn alloc_bytes(&mut self, bytes: u64) -> (r: DevBuf)
        requires
            old(self).next < u64::MAX,
        ensures
            r == next_buf(old(self).next as int, bytes as int),
            final(self).next == old(self).next + 1,
            final(self).ops@ == old(self).ops@.push(
                alloc_op(*old(self), old(self).next as int, bytes as int),
            ),
            final(self).discrete == old(self).discrete,
            final(self).force_local == old(self).force_local,
            final(self).blobs == old(self).blobs,
    {
        let buf = DevBuf { id: self.next, len: bytes };
        self.next = self.next + 1;
        let local: bool = self.force_local || self.discrete;
        self.ops.push(Op::Alloc { buf, local });
        buf
    }
}

} // verus!
