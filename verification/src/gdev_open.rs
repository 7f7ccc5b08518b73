//! Opening a model on the device: which tensors go there, the buffers, and the caches.

use vstd::prelude::*;
use vstd::string::*;

use crate::config;
use crate::config::Qwen35;
use crate::gdev;
use crate::gdev::{
    GDev, KvCfg, LayerBufs, Scratch, TensorW, GDN_CH, GDN_DI, GDN_DK, GDN_HV, GDN_STATE_ELEMS,
    HEAD_D, KV_STRIDE, N_EMBD, N_FF, N_HEAD, N_KV, N_PARTIALS,
};
use crate::gdev_batch::tile_bytes;
use crate::gguf;
use crate::gguf::{TensorInfo, TensorV, GGUF};
use crate::gpu;
use crate::gpu::{DevBuf, Gpu, Op};
use crate::kvquant;
use crate::kvquant::KvMode;
use crate::lookup::Table;
use crate::text;
use crate::tokenizer;

verus! {

// ---- weights --------------------------------------------------------------------

/// Tensor `a` comes before tensor `b`: by name, and under one name by index.
pub open spec fn name_lt(ts: Seq<TensorV>, a: int, b: int) -> bool {
    text::str_lt(ts[a].name, ts[b].name) || ts[a].name == ts[b].name && a < b
}

/// `order` lists the tensors by name, those of one name in index order.
pub open spec fn by_name(ts: Seq<TensorV>, order: Seq<int>) -> bool {
    &&& order.len() == ts.len()
    &&& forall|i: int| 0 <= i < order.len() ==> 0 <= #[trigger] order[i] < ts.len()
    &&& forall|i: int, j: int|
        0 <= i < j < order.len() ==> name_lt(ts, #[trigger] order[i], #[trigger] order[j])
}

/// The indices as mathematical integers.
pub open spec fn as_ints(s: Seq<usize>) -> Seq<int> {
    Seq::new(s.len(), |i: int| s[i] as int)
}

/// Sorts the tensors by name, those of one name in index order.
pub fn order_by_name(ts: &Vec<TensorInfo>) -> (r: Vec<usize>)
    ensures
        by_name(gguf::tensors_view(ts@), as_ints(r@)),
{
    let ghost v = gguf::tensors_view(ts@);
    let n: usize = ts.len();
    let mut order: Vec<usize> = Vec::new();
    let mut k: usize = 0;
    while k < n
        invariant
            k <= n,
            n == ts@.len(),
            v == gguf::tensors_view(ts@),
            order@.len() == k,
            forall|i: int| 0 <= i < k ==> #[trigger] order@[i] < k,
            forall|i: int, j: int|
                0 <= i < j < k ==> name_lt(
                    v,
                    #[trigger] order@[i] as int,
                    #[trigger] order@[j] as int,
                ),
        decreases n - k,
    {
        let mut p: usize = k;
        while p > 0 && text::before(ts[k].name.as_str(), ts[order[p - 1]].name.as_str())
            invariant
                p <= k,
                k < n,
                n == ts@.len(),
                v == gguf::tensors_view(ts@),
                order@.len() == k,
                forall|i: int| 0 <= i < k ==> #[trigger] order@[i] < k,
                forall|i: int| p <= i < k ==> name_lt(v, k as int, #[trigger] order@[i] as int),
            decreases p,
        {
            p -= 1;
        }
        proof {
            if p > 0 {
                text::lemma_str_order(
                    v[order@[p - 1] as int].name,
                    v[k as int].name,
                    v[k as int].name,
                );
                assert(name_lt(v, order@[p - 1] as int, k as int));
                assert forall|i: int| 0 <= i < p implies name_lt(
                    v,
                    #[trigger] order@[i] as int,
                    k as int,
                ) by {
                    if i < p - 1 {
                        assert(name_lt(v, order@[i] as int, order@[p - 1] as int));
                        text::lemma_str_order(
                            v[order@[i] as int].name,
                            v[order@[p - 1] as int].name,
                            v[k as int].name,
                        );
                    }
                }
            }
        }
        let ghost before = order@;
        order.insert(p, k);
        assert(order@ == before.insert(p as int, k));
        assert forall|i: int| 0 <= i < k + 1 implies #[trigger] order@[i] < k + 1 by {
            if i < p {
                assert(order@[i] == before[i]);
            } else if i > p {
                assert(order@[i] == before[i - 1]);
            }
        }
        assert forall|i: int, j: int| 0 <= i < j < k + 1 implies name_lt(
            v,
            #[trigger] order@[i] as int,
            #[trigger] order@[j] as int,
        ) by {
            if j < p {
                assert(order@[i] == before[i] && order@[j] == before[j]);
            } else if j == p {
                assert(order@[i] == before[i]);
            } else if i == p {
                assert(order@[j] == before[j - 1]);
            } else if i < p {
                assert(order@[i] == before[i] && order@[j] == before[j - 1]);
            } else {
                assert(order@[i] == before[i - 1] && order@[j] == before[j - 1]);
            }
        }
        k += 1;
    }
    assert forall|i: int| 0 <= i < n implies 0 <= #[trigger] as_ints(order@)[i] < v.len() by {
        assert(order@[i] < n);
    }
    assert forall|i: int, j: int| 0 <= i < j < n implies name_lt(
        v,
        #[trigger] as_ints(order@)[i],
        #[trigger] as_ints(order@)[j],
    ) by {
        assert(name_lt(v, order@[i] as int, order@[j] as int));
    }
    order
}

/// The tensor goes to the device: it has a type that the kernels read, and is neither the
/// language-model head nor the embedding table, which stay with the host.
pub open spec fn wanted(t: TensorV) -> bool {
    &&& t.ty == gguf::TYPE_PQ2_0 || t.ty == gguf::TYPE_F32 || t.ty == gguf::TYPE_F16
    &&& t.name != "output.weight"@
    &&& t.name != "token_embd.weight"@
}

/// The wanted tensors among the first `k` of the order.
pub open spec fn uploads(ts: Seq<TensorV>, order: Seq<int>, k: int) -> Seq<int>
    decreases k,
{
    if k <= 0 {
        Seq::empty()
    } else if wanted(ts[order[k - 1]]) {
        uploads(ts, order, k - 1).push(order[k - 1])
    } else {
        uploads(ts, order, k - 1)
    }
}

/// The first wanted tensor among the first `k` whose payload is not in the file reports this.
pub open spec fn unreadable(
    ts: Seq<TensorV>,
    data_start: int,
    size: nat,
    order: Seq<int>,
    k: int,
) -> Option<Seq<char>>
    decreases k,
{
    if k <= 0 {
        None
    } else {
        let t = ts[order[k - 1]];
        match unreadable(ts, data_start, size, order, k - 1) {
            Some(m) => Some(m),
            None => if wanted(t) && data_start + t.offset + t.nbytes() > size {
                Some(gguf::slice_error((data_start + t.offset) as nat, t.nbytes(), size))
            } else {
                None
            },
        }
    }
}

proof fn lemma_unreadable(
    ts: Seq<TensorV>,
    data_start: int,
    size: nat,
    order: Seq<int>,
    j: int,
    k: int,
)
    requires
        0 <= j <= k,
        unreadable(ts, data_start, size, order, j) is Some,
    ensures
        unreadable(ts, data_start, size, order, k) == unreadable(ts, data_start, size, order, j),
    decreases k - j,
{
    if j < k {
        lemma_unreadable(ts, data_start, size, order, j, k - 1);
    }
}

/// The length of the first dimension.
pub open spec fn first_dim(t: TensorV) -> int {
    if t.dims.len() == 0 {
        0
    } else {
        t.dims[0] as usize as int
    }
}

/// A tensor as a matrix in the buffer `id`: rows of the first dimension's length, at least one.
pub open spec fn matrix(id: int, t: TensorV) -> TensorW {
    let ne0 = first_dim(t);
    let per = if ne0 < 1 {
        1
    } else {
        ne0
    };
    let rows = gguf::product(t.dims) as int / per;
    TensorW {
        buf: gpu::next_buf(id, t.nbytes() as int),
        ne0: ne0 as usize,
        rows: if rows < 1 {
            1
        } else {
            rows as usize
        },
    }
}

/// The steps that bring the tensors `ups` into buffers from 0 on.
pub open spec fn weight_ops(local: bool, ts: Seq<TensorV>, ups: Seq<int>) -> Seq<Op>
    decreases ups.len(),
{
    if ups.len() == 0 {
        Seq::empty()
    } else {
        let i = ups.len() - 1;
        let n = ts[ups[i]].nbytes() as int;
        weight_ops(local, ts, ups.drop_last()) + seq![
            gpu::buf_op(local, i, n),
            Op::Weights { buf: gpu::next_buf(i, n), tensor: ups[i] as usize },
        ]
    }
}

/// The tensors' sizes and places are representable.
pub open spec fn sizes_fit(ts: Seq<TensorV>, data_start: int) -> bool {
    forall|i: int|
        0 <= i < ts.len() ==> gguf::product_fits((#[trigger] ts[i]).dims) && gguf::product(
            ts[i].dims,
        ) <= usize::MAX && data_start + ts[i].offset + ts[i].nbytes() <= u64::MAX
            && ts[i].nbytes() <= usize::MAX
}

fn matrix_of(t: &TensorInfo, buf: DevBuf) -> (r: TensorW)
    requires
        gguf::product_fits(t.dims@),
        gguf::product(t.dims@) <= usize::MAX,
        buf.len == t@.nbytes(),
    ensures
        r == (TensorW { buf, ..matrix(buf.id as int, t@) }),
{
    let ne0: usize = if t.dims.len() == 0 {
        0
    } else {
        t.dims[0] as usize
    };
    let n: usize = t.n_elem() as usize;
    let per: usize = if ne0 < 1 {
        1
    } else {
        ne0
    };
    let rows: usize = n / per;
    TensorW {
        buf,
        ne0,
        rows: if rows < 1 {
            1
        } else {
            rows
        },
    }
}

fn is_wanted(t: &TensorInfo) -> (r: bool)
    ensures
        r == wanted(t@),
{
    (t.ty == gguf::TYPE_PQ2_0 || t.ty == gguf::TYPE_F32 || t.ty == gguf::TYPE_F16) && !text::same(
        t.name.as_str(),
        "output.weight",
    ) && !text::same(t.name.as_str(), "token_embd.weight")
}

/// What the weights leave on the device.
pub open spec fn weights_on(
    g: Gpu,
    tens: Table,
    tws: Seq<TensorW>,
    ts: Seq<TensorV>,
    ups: Seq<int>,
) -> bool {
    &&& g.next == ups.len()
    &&& g.ops@ == weight_ops(g.force_local || g.discrete, ts, ups)
    &&& tens.wf()
    &&& tens@ == Seq::new(ups.len(), |i: int| tokenizer::single(ts[ups[i]].name))
    &&& tws == Seq::new(ups.len(), |i: int| matrix(i, ts[ups[i]]))
}

/// Records the upload of the wanted tensors, in the order of their names.
fn rec_weights(gg: &GGUF, order: &Vec<usize>, g: &mut Gpu) -> (r: Result<
    (Table, Vec<TensorW>),
    String,
>)
    requires
        ({
            let ts = gguf::tensors_view(gg.tensors@);
            &&& by_name(ts, as_ints(order@))
            &&& sizes_fit(ts, gg.data_start as int)
        }),
        old(g).next == 0,
        old(g).ops@.len() == 0,
    ensures
        ({
            let ts = gguf::tensors_view(gg.tensors@);
            let o = as_ints(order@);
            let n = o.len() as int;
            let bad = unreadable(ts, gg.data_start as int, gg.file().len(), o, n);
            match r {
                Ok((tens, tws)) => {
                    &&& bad is None
                    &&& weights_on(*final(g), tens, tws@, ts, uploads(ts, o, n))
                    &&& uploads(ts, o, n).len() <= ts.len()
                    &&& final(g).discrete == old(g).discrete
                    &&& final(g).force_local == old(g).force_local
                    &&& final(g).blobs == old(g).blobs
                },
                Err(m) => bad == Some(m@),
            }
        }),
{
    let ghost ts = gguf::tensors_view(gg.tensors@);
    let ghost o = as_ints(order@);
    let ghost ds = gg.data_start as int;
    let ghost size = gg.file().len();
    let n: usize = order.len();
    let mut tens = Table::new();
    let mut tws: Vec<TensorW> = Vec::new();
    let mut k: usize = 0;
    assert(tens@ =~= Seq::new(0, |i: int| tokenizer::single(ts[uploads(ts, o, 0)[i]].name)));
    assert(tws@ =~= Seq::new(0, |i: int| matrix(i, ts[uploads(ts, o, 0)[i]])));
    assert(g.ops@ =~= Seq::empty());
    while k < n
        invariant
            k <= n,
            n == order@.len(),
            ts == gguf::tensors_view(gg.tensors@),
            o == as_ints(order@),
            ds == gg.data_start,
            size == gg.file().len(),
            by_name(ts, o),
            sizes_fit(ts, ds),
            unreadable(ts, ds, size, o, k as int) is None,
            uploads(ts, o, k as int).len() <= k,
            weights_on(*g, tens, tws@, ts, uploads(ts, o, k as int)),
            g.discrete == old(g).discrete,
            g.force_local == old(g).force_local,
            g.blobs == old(g).blobs,
        decreases n - k,
    {
        assert(0 <= o[k as int] < ts.len());
        let ti: usize = order[k];
        let t: &TensorInfo = &gg.tensors[ti];
        assert(ts[ti as int] == t@);
        let ghost ups = uploads(ts, o, k as int);
        if is_wanted(t) {
            let nbytes: u64 = gg.tensor_nbytes(t);
            assert(k < usize::MAX);
            let buf = g.alloc_bytes(nbytes);
            if let Err(m) = gg.payload_slice(t) {
                proof {
                    lemma_unreadable(ts, ds, size, o, k + 1, n as int);
                }
                return Err(m);
            }
            g.rec(Op::Weights { buf, tensor: ti });
            tws.push(matrix_of(t, buf));
            tens.add(t.name.clone(), "".to_owned());
            proof {
                reveal_strlit("");
                assert(""@ =~= Seq::<char>::empty());
                let new = ups.push(ti as int);
                assert(uploads(ts, o, k + 1) == new);
                assert(new.drop_last() =~= ups);
                assert(g.ops@ =~= weight_ops(g.force_local || g.discrete, ts, new));
                assert(tens@ =~= Seq::new(
                    new.len(),
                    |i: int| tokenizer::single(ts[new[i]].name),
                ));
                assert(tws@ =~= Seq::new(new.len(), |i: int| matrix(i, ts[new[i]])));
            }
        }
        k += 1;
    }
    Ok((tens, tws))
}

// ---- scratch ----------------------------------------------------------------------

/// The sizes of the scratch buffers in elements, in the order of their allocation.
pub open spec fn scratch_sizes(n_ctx: int) -> Seq<int> {
    seq![
        N_EMBD as int,
        N_EMBD as int,
        N_EMBD as int,
        N_EMBD as int,
        N_PARTIALS as int,
        GDN_CH as int,
        GDN_DI as int,
        2 * GDN_DK + GDN_DI + 2 * GDN_HV,
        GDN_DI as int,
        GDN_DI as int,
        2 * N_HEAD * HEAD_D,
        N_HEAD * HEAD_D,
        N_HEAD * HEAD_D,
        N_HEAD * HEAD_D,
        N_KV * HEAD_D,
        N_KV * HEAD_D,
        N_KV * HEAD_D,
        N_HEAD * n_ctx,
        N_HEAD * HEAD_D,
        N_FF as int,
        N_FF as int,
        N_FF as int,
    ]
}

/// Scratch buffer `i`, where the first one has the identity `next`.
pub open spec fn scratch_buf(next: int, n_ctx: int, i: int) -> DevBuf {
    gpu::next_buf(next + i, scratch_sizes(n_ctx)[i] * 4)
}

/// The scratch buffers from identity `next` on.
pub open spec fn scratch(next: int, n_ctx: int) -> Scratch {
    Scratch {
        cur: scratch_buf(next, n_ctx, 0),
        xnorm: scratch_buf(next, n_ctx, 1),
        branch: scratch_buf(next, n_ctx, 2),
        hidden: scratch_buf(next, n_ctx, 3),
        partials: scratch_buf(next, n_ctx, 4),
        qkv: scratch_buf(next, n_ctx, 5),
        z: scratch_buf(next, n_ctx, 6),
        blob: scratch_buf(next, n_ctx, 7),
        attn_out: scratch_buf(next, n_ctx, 8),
        normed: scratch_buf(next, n_ctx, 9),
        qfull: scratch_buf(next, n_ctx, 10),
        q: scratch_buf(next, n_ctx, 11),
        qn: scratch_buf(next, n_ctx, 12),
        gate: scratch_buf(next, n_ctx, 13),
        kraw: scratch_buf(next, n_ctx, 14),
        kn: scratch_buf(next, n_ctx, 15),
        vraw: scratch_buf(next, n_ctx, 16),
        scores: scratch_buf(next, n_ctx, 17),
        attn_h: scratch_buf(next, n_ctx, 18),
        fg: scratch_buf(next, n_ctx, 19),
        fu: scratch_buf(next, n_ctx, 20),
        h1: scratch_buf(next, n_ctx, 21),
    }
}

/// The steps of their allocation.
pub open spec fn scratch_ops(local: bool, next: int, n_ctx: int) -> Seq<Op> {
    Seq::new(22, |i: int| gpu::buf_op(local, next + i, scratch_sizes(n_ctx)[i] * 4))
}

/// `b` is `a` with `ops` behind and `count` buffers more.
pub open spec fn grown(a: Gpu, b: Gpu, ops: Seq<Op>, count: int) -> bool {
    &&& b.ops@ == a.ops@ + ops
    &&& b.next == a.next + count
    &&& b.discrete == a.discrete
    &&& b.force_local == a.force_local
    &&& b.blobs == a.blobs
}

/// Allocates a buffer of `n` elements of four bytes, at least one.
pub fn make(g: &mut Gpu, n: u64) -> (r: DevBuf)
    requires
        n <= 0x1_0000_0000_0000,
        old(g).next < u64::MAX,
    ensures
        ({
            let bytes = if n < 1 {
                4
            } else {
                n * 4
            };
            &&& r == gpu::next_buf(old(g).next as int, bytes)
            &&& final(g).ops@ == old(g).ops@.push(
                gpu::alloc_op(*old(g), old(g).next as int, bytes),
            )
        }),
        final(g).next == old(g).next + 1,
        final(g).discrete == old(g).discrete,
        final(g).force_local == old(g).force_local,
        final(g).blobs == old(g).blobs,
{
    let bytes: u64 = if n < 1 {
        4
    } else {
        n * 4
    };
    g.alloc_bytes(bytes)
}

fn rec_scratch(g: &mut Gpu, n_ctx: usize) -> (r: Scratch)
    requires
        1 <= n_ctx <= 262_144,
        old(g).next + 22 <= u64::MAX,
    ensures
        r == scratch(old(g).next as int, n_ctx as int),
        grown(
            *old(g),
            *final(g),
            scratch_ops(old(g).force_local || old(g).discrete, old(g).next as int, n_ctx as int),
            22,
        ),
{
    let cur = make(g, N_EMBD as u64);
    let xnorm = make(g, N_EMBD as u64);
    let branch = make(g, N_EMBD as u64);
    let hidden = make(g, N_EMBD as u64);
    let partials = make(g, N_PARTIALS as u64);
    let qkv = make(g, GDN_CH as u64);
    let z = make(g, GDN_DI as u64);
    let blob = make(g, 2 * GDN_DK as u64 + GDN_DI as u64 + 2 * GDN_HV as u64);
    let attn_out = make(g, GDN_DI as u64);
    let normed = make(g, GDN_DI as u64);
    let qfull = make(g, 2 * N_HEAD as u64 * HEAD_D as u64);
    let q = make(g, N_HEAD as u64 * HEAD_D as u64);
    let qn = make(g, N_HEAD as u64 * HEAD_D as u64);
    let gate = make(g, N_HEAD as u64 * HEAD_D as u64);
    let kraw = make(g, N_KV as u64 * HEAD_D as u64);
    let kn = make(g, N_KV as u64 * HEAD_D as u64);
    let vraw = make(g, N_KV as u64 * HEAD_D as u64);
    let scores = make(g, N_HEAD as u64 * n_ctx as u64);
    let attn_h = make(g, N_HEAD as u64 * HEAD_D as u64);
    let fg = make(g, N_FF as u64);
    let fu = make(g, N_FF as u64);
    let h1 = make(g, N_FF as u64);
    assert(g.ops@ =~= old(g).ops@ + scratch_ops(
        old(g).force_local || old(g).discrete,
        old(g).next as int,
        n_ctx as int,
    ));
    Scratch {
        cur,
        xnorm,
        branch,
        hidden,
        partials,
        qkv,
        z,
        blob,
        attn_out,
        normed,
        qfull,
        q,
        qn,
        gate,
        kraw,
        kn,
        vraw,
        scores,
        attn_h,
        fg,
        fu,
        h1,
    }
}

// ---- caches -----------------------------------------------------------------------

/// How a mode holds the cache on the device.
pub open spec fn kv_cfg(mode: KvMode) -> KvCfg {
    match mode {
        KvMode::F32 => KvCfg { half: false, bits: None, pwords: 0, cent_off: 0, v_quant: false },
        KvMode::F16 => KvCfg { half: true, bits: None, pwords: 0, cent_off: 0, v_quant: false },
        KvMode::Planar { bits, k_only } => KvCfg {
            half: false,
            bits: Some(bits),
            pwords: (kvquant::packed_size(HEAD_D as int, bits as int) / 4) as usize,
            cent_off: HEAD_D,
            v_quant: !k_only,
        },
    }
}

/// The step that installs the quantizer's parameters.
pub open spec fn kv_ops(kv: KvCfg) -> Seq<Op> {
    match kv.bits {
        Some(bits) => seq![Op::KvParams { hd: HEAD_D, bits }],
        None => Seq::empty(),
    }
}

/// Resolves how a mode holds the cache on the device. A packed row always fills whole words.
fn kv_setup(mode: KvMode, g: &mut Gpu) -> (r: KvCfg)
    requires
        mode matches KvMode::Planar { bits, .. } ==> 1 <= bits <= 8,
    ensures
        r == kv_cfg(mode),
        r.pwords <= 64,
        grown(*old(g), *final(g), kv_ops(r), 0),
{
    let f16_mode: bool = match mode {
        KvMode::F16 => true,
        _ => false,
    };
    let (k, v) = kvquant::quantizers_for(mode, HEAD_D);
    match k {
        Some(q) => {
            let bits: u32 = q.bits;
            assert(q.hd_padded * bits <= 2048) by (nonlinear_arith)
                requires
                    q.hd_padded == 256,
                    bits <= 8,
            ;
            let pbytes: usize = q.packed_len();
            assert(pbytes == 32 * bits) by (nonlinear_arith)
                requires
                    pbytes == (256 * bits + 7) / 8,
            ;
            g.rec(Op::KvParams { hd: HEAD_D, bits });
            KvCfg {
                half: f16_mode,
                bits: Some(bits),
                pwords: pbytes / 4,
                cent_off: HEAD_D,
                v_quant: v.is_some(),
            }
        },
        None => {
            assert(g.ops@ + Seq::<Op>::empty() =~= g.ops@);
            KvCfg { half: f16_mode, bits: None, pwords: 0, cent_off: 0, v_quant: false }
        },
    }
}

/// The two caches of a layer, in elements, and whether each starts out cleared.
pub open spec fn cache_sizes(full: bool, kv: KvCfg, n_ctx: int) -> ((int, bool), (int, bool)) {
    if !full {
        ((3 * GDN_CH, true), (GDN_STATE_ELEMS as int, true))
    } else if kv.half {
        ((n_ctx * (N_KV * (HEAD_D / 2)), false), (n_ctx * (N_KV * (HEAD_D / 2)), false))
    } else if kv.bits is Some {
        let packed = n_ctx * (N_KV * (kv.pwords + 1));
        (
            (packed, false),
            if kv.v_quant {
                (packed, false)
            } else {
                (n_ctx * KV_STRIDE, true)
            },
        )
    } else {
        ((n_ctx * KV_STRIDE, true), (n_ctx * KV_STRIDE, true))
    }
}

/// The first cache of a layer, where the caches of all layers start at identity `next`.
pub open spec fn first_cache(full: bool, kv: KvCfg, n_ctx: int, next: int) -> DevBuf {
    gpu::next_buf(next, cache_sizes(full, kv, n_ctx).0.0 * 4)
}

pub open spec fn second_cache(full: bool, kv: KvCfg, n_ctx: int, next: int) -> DevBuf {
    gpu::next_buf(next + 1, cache_sizes(full, kv, n_ctx).1.0 * 4)
}

pub open spec fn clear_ops(buf: DevBuf, clear: bool) -> Seq<Op> {
    if clear {
        seq![Op::Zero { buf, bytes: buf.len }]
    } else {
        Seq::empty()
    }
}

/// The steps of a layer's caches.
pub open spec fn cache_ops(
    local: bool,
    full: bool,
    kv: KvCfg,
    n_ctx: int,
    next: int,
) -> Seq<Op> {
    let z = cache_sizes(full, kv, n_ctx);
    seq![gpu::buf_op(local, next, z.0.0 * 4), gpu::buf_op(local, next + 1, z.1.0 * 4)] + clear_ops(
        first_cache(full, kv, n_ctx, next),
        z.0.1,
    ) + clear_ops(second_cache(full, kv, n_ctx, next), z.1.1)
}

/// A layer's buffers: its caches by kind, and the gates.
pub open spec fn layer_bufs(
    full: bool,
    kv: KvCfg,
    n_ctx: int,
    next: int,
    smalls: DevBuf,
) -> LayerBufs {
    let a = Some(first_cache(full, kv, n_ctx, next));
    let b = Some(second_cache(full, kv, n_ctx, next));
    let none = LayerBufs {
        kcache: None,
        vcache: None,
        kq: None,
        vq: None,
        k16: None,
        v16: None,
        conv: None,
        state: None,
        smalls,
    };
    if !full {
        LayerBufs { conv: a, state: b, ..none }
    } else if kv.half {
        LayerBufs { k16: a, v16: b, ..none }
    } else if kv.bits is Some {
        if kv.v_quant {
            LayerBufs { kq: a, vq: b, ..none }
        } else {
            LayerBufs { kq: a, vcache: b, ..none }
        }
    } else {
        LayerBufs { kcache: a, vcache: b, ..none }
    }
}

/// The steps of the caches of the first `k` layers.
pub open spec fn caches_ops(
    local: bool,
    cfg: Qwen35,
    kv: KvCfg,
    n_ctx: int,
    next: int,
    k: int,
) -> Seq<Op>
    decreases k,
{
    if k <= 0 {
        Seq::empty()
    } else {
        caches_ops(local, cfg, kv, n_ctx, next, k - 1) + cache_ops(
            local,
            cfg.full(k - 1),
            kv,
            n_ctx,
            next + 2 * (k - 1),
        )
    }
}

fn rec_clear(g: &mut Gpu, buf: DevBuf, clear: bool)
    ensures
        grown(*old(g), *final(g), clear_ops(buf, clear), 0),
{
    if clear {
        g.rec(Op::Zero { buf, bytes: buf.len });
    } else {
        assert(g.ops@ + Seq::<Op>::empty() =~= g.ops@);
    }
}

/// Records the caches of one layer; the gates' buffer is filled in later.
fn rec_cache(g: &mut Gpu, full: bool, kv: KvCfg, n_ctx: usize, smalls: DevBuf) -> (r: LayerBufs)
    requires
        1 <= n_ctx <= 262_144,
        kv.pwords <= 64,
        old(g).next + 2 <= u64::MAX,
    ensures
        r == layer_bufs(full, kv, n_ctx as int, old(g).next as int, smalls),
        grown(
            *old(g),
            *final(g),
            cache_ops(
                old(g).force_local || old(g).discrete,
                full,
                kv,
                n_ctx as int,
                old(g).next as int,
            ),
            2,
        ),
{
    let c: u64 = n_ctx as u64;
    let quant: bool = kv.bits.is_some();
    let (a, ca, b, cb): (u64, bool, u64, bool) = if !full {
        (3 * GDN_CH as u64, true, GDN_STATE_ELEMS as u64, true)
    } else if kv.half {
        let words: u64 = tile_bytes(c, N_KV as u64 * (HEAD_D as u64 / 2));
        (words, false, words, false)
    } else if quant {
        let row: u64 = N_KV as u64 * (kv.pwords as u64 + 1);
        let words: u64 = tile_bytes(c, row);
        if kv.v_quant {
            (words, false, words, false)
        } else {
            (words, false, tile_bytes(c, KV_STRIDE as u64), true)
        }
    } else {
        (tile_bytes(c, KV_STRIDE as u64), true, tile_bytes(c, KV_STRIDE as u64), true)
    };
    let ghost z = cache_sizes(full, kv, n_ctx as int);
    assert(a == z.0.0 && ca == z.0.1 && b == z.1.0 && cb == z.1.1);
    let x = make(g, a);
    let y = make(g, b);
    rec_clear(g, x, ca);
    rec_clear(g, y, cb);
    assert(g.ops@ =~= old(g).ops@ + cache_ops(
        old(g).force_local || old(g).discrete,
        full,
        kv,
        n_ctx as int,
        old(g).next as int,
    ));
    let none = LayerBufs {
        kcache: None,
        vcache: None,
        kq: None,
        vq: None,
        k16: None,
        v16: None,
        conv: None,
        state: None,
        smalls,
    };
    if !full {
        LayerBufs { conv: Some(x), state: Some(y), ..none }
    } else if kv.half {
        LayerBufs { k16: Some(x), v16: Some(y), ..none }
    } else if quant {
        if kv.v_quant {
            LayerBufs { kq: Some(x), vq: Some(y), ..none }
        } else {
            LayerBufs { kq: Some(x), vcache: Some(y), ..none }
        }
    } else {
        LayerBufs { kcache: Some(x), vcache: Some(y), ..none }
    }
}

fn rec_caches(g: &mut Gpu, cfg: &Qwen35, kv: KvCfg, n_ctx: usize, dummy: DevBuf) -> (r: Vec<
    LayerBufs,
>)
    requires
        cfg.wf(),
        1 <= n_ctx <= 262_144,
        kv.pwords <= 64,
        old(g).next + 2 * cfg.n_layer <= u64::MAX,
    ensures
        r@.len() == cfg.n_layer,
        forall|il: int|
            0 <= il < cfg.n_layer ==> #[trigger] r@[il] == layer_bufs(
                cfg.full(il),
                kv,
                n_ctx as int,
                old(g).next + 2 * il,
                dummy,
            ),
        grown(
            *old(g),
            *final(g),
            caches_ops(
                old(g).force_local || old(g).discrete,
                *cfg,
                kv,
                n_ctx as int,
                old(g).next as int,
                cfg.n_layer as int,
            ),
            2 * cfg.n_layer,
        ),
{
    let ghost local = g.force_local || g.discrete;
    let ghost next = g.next as int;
    let mut layers: Vec<LayerBufs> = Vec::new();
    let mut il: usize = 0;
    assert(g.ops@ + Seq::<Op>::empty() =~= g.ops@);
    while il < cfg.n_layer
        invariant
            il <= cfg.n_layer,
            cfg.wf(),
            1 <= n_ctx <= 262_144,
            kv.pwords <= 64,
            next == old(g).next,
            next + 2 * cfg.n_layer <= u64::MAX,
            local == (old(g).force_local || old(g).discrete),
            layers@.len() == il,
            forall|j: int|
                0 <= j < il ==> #[trigger] layers@[j] == layer_bufs(
                    cfg.full(j),
                    kv,
                    n_ctx as int,
                    next + 2 * j,
                    dummy,
                ),
            grown(
                *old(g),
                *g,
                caches_ops(local, *cfg, kv, n_ctx as int, next, il as int),
                2 * il,
            ),
        decreases cfg.n_layer - il,
    {
        let l = rec_cache(g, cfg.is_full_attention(il), kv, n_ctx, dummy);
        layers.push(l);
        assert(g.ops@ =~= old(g).ops@ + caches_ops(
            local,
            *cfg,
            kv,
            n_ctx as int,
            next,
            il + 1,
        ));
        il += 1;
    }
    layers
}

// ---- the gates of recurrent layers ---------------------------------------------------

/// The first tensor under a name.
pub open spec fn first_named(ts: Seq<TensorV>, name: Seq<char>, k: int) -> Option<int>
    decreases ts.len() - k,
{
    if k < 0 || k >= ts.len() {
        None
    } else if ts[k].name == name {
        Some(k)
    } else {
        first_named(ts, name, k + 1)
    }
}

pub(crate) fn find_tensor(gg: &GGUF, name: &str) -> (r: Option<usize>)
    ensures
        match r {
            Some(i) => i < gg.tensors@.len() && first_named(
                gguf::tensors_view(gg.tensors@),
                name@,
                0,
            ) == Some(i as int),
            None => first_named(gguf::tensors_view(gg.tensors@), name@, 0) is None,
        },
{
    let n: usize = gg.tensors.len();
    let mut k: usize = 0;
    while k < n
        invariant
            k <= n,
            n == gg.tensors@.len(),
            first_named(gguf::tensors_view(gg.tensors@), name@, 0) == first_named(
                gguf::tensors_view(gg.tensors@),
                name@,
                k as int,
            ),
        decreases n - k,
    {
        if text::same(gg.tensors[k].name.as_str(), name) {
            return Some(k);
        }
        k += 1;
    }
    None
}

/// The constants of a head row: the first values of the tensor, and zero behind them; all zero
/// where there is no such tensor.
pub open spec fn head_row(
    file: Seq<u8>,
    data_start: int,
    ts: Seq<TensorV>,
    name: Seq<char>,
    words: Seq<u32>,
    at: int,
) -> bool {
    match first_named(ts, name, 0) {
        Some(i) => {
            let t = ts[i];
            forall|h: int|
                0 <= h < GDN_HV ==> if h < gguf::product(t.dims) {
                    gguf::elem_at(file, data_start + t.offset, t, h, #[trigger] words[at + h])
                } else {
                    words[at + h] == 0
                }
        },
        None => forall|h: int| 0 <= h < GDN_HV ==> #[trigger] words[at + h] == 0,
    }
}

/// The initial gates of recurrent layer `il`: two rows of zeros, then its two constant rows.
pub open spec fn gate_words(
    file: Seq<u8>,
    data_start: int,
    ts: Seq<TensorV>,
    il: int,
    words: Seq<u32>,
) -> bool {
    &&& words.len() == 4 * GDN_HV
    &&& forall|i: int| 0 <= i < 2 * GDN_HV ==> words[i] == 0
    &&& head_row(
        file,
        data_start,
        ts,
        config::blk_text(il, "ssm_a"@),
        words,
        2 * GDN_HV,
    )
    &&& head_row(
        file,
        data_start,
        ts,
        config::blk_text(il, "ssm_dt.bias"@),
        words,
        3 * GDN_HV,
    )
}

/// Why the tensor under a name, if there is one, cannot be decoded.
pub open spec fn named_error(
    file: Seq<u8>,
    data_start: int,
    ts: Seq<TensorV>,
    name: Seq<char>,
) -> Option<Seq<char>> {
    match first_named(ts, name, 0) {
        Some(i) => gguf::read_error(file, data_start + ts[i].offset, ts[i]),
        None => None,
    }
}

/// Why the gates of the first `k` layers cannot be set up.
pub open spec fn gates_error(
    file: Seq<u8>,
    data_start: int,
    ts: Seq<TensorV>,
    cfg: Qwen35,
    k: int,
) -> Option<Seq<char>>
    decreases k,
{
    if k <= 0 {
        None
    } else {
        match gates_error(file, data_start, ts, cfg, k - 1) {
            Some(m) => Some(m),
            None => if cfg.full(k - 1) {
                None
            } else {
                match named_error(file, data_start, ts, config::blk_text(k - 1, "ssm_a"@)) {
                    Some(m) => Some(m),
                    None => named_error(
                        file,
                        data_start,
                        ts,
                        config::blk_text(k - 1, "ssm_dt.bias"@),
                    ),
                }
            },
        }
    }
}

proof fn lemma_gates_error(
    file: Seq<u8>,
    data_start: int,
    ts: Seq<TensorV>,
    cfg: Qwen35,
    j: int,
    k: int,
)
    requires
        0 <= j <= k,
        gates_error(file, data_start, ts, cfg, j) is Some,
    ensures
        gates_error(file, data_start, ts, cfg, k) == gates_error(file, data_start, ts, cfg, j),
    decreases k - j,
{
    if j < k {
        lemma_gates_error(file, data_start, ts, cfg, j, k - 1);
    }
}

/// Copies the first values of the tensor under a name into a head row of zeros.
fn fill_row(gg: &GGUF, name: &str, words: &mut Vec<u32>, at: usize) -> (r: Result<(), String>)
    requires
        sizes_fit(gguf::tensors_view(gg.tensors@), gg.data_start as int),
        at + GDN_HV <= old(words)@.len() <= 1000,
        forall|i: int| at <= i < at + GDN_HV ==> old(words)@[i] == 0,
    ensures
        ({
            let ts = gguf::tensors_view(gg.tensors@);
            let err = named_error(gg.file(), gg.data_start as int, ts, name@);
            match r {
                Ok(_) => {
                    &&& err is None
                    &&& final(words)@.len() == old(words)@.len()
                    &&& forall|i: int|
                        0 <= i < old(words)@.len() && !(at <= i < at + GDN_HV) ==> #[trigger] final(words)@[i] == old(words)@[i]
                    &&& head_row(
                        gg.file(),
                        gg.data_start as int,
                        ts,
                        name@,
                        final(words)@,
                        at as int,
                    )
                },
                Err(m) => err == Some(m@),
            }
        }),
{
    let ghost ts = gguf::tensors_view(gg.tensors@);
    let i: usize = match find_tensor(gg, name) {
        Some(i) => i,
        None => {
            return Ok(());
        },
    };
    assert(ts[i as int] == gg.tensors@[i as int]@);
    let x: Vec<u32> = match gg.read_tensor(&gg.tensors[i]) {
        Ok(x) => x,
        Err(m) => {
            return Err(m);
        },
    };
    let ghost t = ts[i as int];
    let ghost base = gg.data_start + t.offset;
    let mut h: usize = 0;
    while h < x.len() && h < GDN_HV
        invariant
            h <= x@.len(),
            h <= GDN_HV,
            at + GDN_HV <= words@.len(),
            words@.len() == old(words)@.len() <= 1000,
            x@.len() == gguf::product(t.dims),
            forall|k: int|
                0 <= k < x@.len() ==> gguf::elem_at(gg.file(), base, t, k, #[trigger] x@[k]),
            forall|k: int| 0 <= k < h ==> #[trigger] words@[at + k] == x@[k],
            forall|k: int| at + h <= k < at + GDN_HV ==> words@[k] == 0,
            forall|k: int|
                0 <= k < words@.len() && !(at <= k < at + GDN_HV) ==> #[trigger] words@[k] == old(words)@[k],
        decreases GDN_HV - h,
    {
        words.set(at + h, x[h]);
        h += 1;
    }
    assert forall|k: int| 0 <= k < GDN_HV implies if k < gguf::product(t.dims) {
        gguf::elem_at(gg.file(), base, t, k, #[trigger] words@[at + k])
    } else {
        words@[at + k] == 0
    } by {
        if k < x@.len() {
            assert(words@[at + k] == x@[k]);
        }
    }
    Ok(())
}

/// The gates' initial words of recurrent layer `il`.
fn gates_of(gg: &GGUF, cfg: &Qwen35, il: usize) -> (r: Result<Vec<u32>, String>)
    requires
        sizes_fit(gguf::tensors_view(gg.tensors@), gg.data_start as int),
    ensures
        ({
            let ts = gguf::tensors_view(gg.tensors@);
            let ds = gg.data_start as int;
            let e1 = named_error(gg.file(), ds, ts, config::blk_text(il as int, "ssm_a"@));
            let e2 = named_error(gg.file(), ds, ts, config::blk_text(il as int, "ssm_dt.bias"@));
            match r {
                Ok(w) => e1 is None && e2 is None && gate_words(gg.file(), ds, ts, il as int, w@),
                Err(m) => e1 == Some(m@) || e1 is None && e2 == Some(m@),
            }
        }),
{
    let mut v: Vec<u32> = Vec::new();
    while v.len() < 4 * GDN_HV
        invariant
            v@.len() <= 4 * GDN_HV,
            forall|i: int| 0 <= i < v@.len() ==> v@[i] == 0,
        decreases 4 * GDN_HV - v@.len(),
    {
        v.push(0);
    }
    let key: String = cfg.blk_name(il, "ssm_a");
    if let Err(m) = fill_row(gg, key.as_str(), &mut v, 2 * GDN_HV) {
        return Err(m);
    }
    let ghost mid = v@;
    let key2: String = cfg.blk_name(il, "ssm_dt.bias");
    if let Err(m) = fill_row(gg, key2.as_str(), &mut v, 3 * GDN_HV) {
        return Err(m);
    }
    assert forall|h: int| 0 <= h < GDN_HV implies #[trigger] v@[2 * GDN_HV + h] == mid[2 * GDN_HV
        + h] by {}
    Ok(v)
}

/// How many of the first `k` layers are recurrent.
pub open spec fn recurrent_count(cfg: Qwen35, k: int) -> int
    decreases k,
{
    if k <= 0 {
        0
    } else {
        recurrent_count(cfg, k - 1) + if cfg.full(k - 1) {
            0int
        } else {
            1int
        }
    }
}

/// The gates' buffer of layer `il`.
pub open spec fn gates_buf(next: int, il: int) -> DevBuf {
    gpu::next_buf(next + il, 4 * GDN_HV * 4)
}

/// The steps of the gates of the first `k` layers, whose words are the blobs from 0 on.
pub open spec fn gates_ops(local: bool, cfg: Qwen35, next: int, k: int) -> Seq<Op>
    decreases k,
{
    if k <= 0 {
        Seq::empty()
    } else {
        let il = k - 1;
        let buf = gates_buf(next, il);
        gates_ops(local, cfg, next, il) + seq![
            gpu::buf_op(local, next + il, 4 * GDN_HV * 4),
            Op::Zero { buf, bytes: buf.len },
        ] + if cfg.full(il) {
            Seq::empty()
        } else {
            seq![Op::Words { buf, blob: recurrent_count(cfg, il) as usize }]
        }
    }
}

/// The words of the gates of the first `k` layers.
pub open spec fn gates_set(
    file: Seq<u8>,
    data_start: int,
    ts: Seq<TensorV>,
    cfg: Qwen35,
    blobs: Seq<Vec<u32>>,
    k: int,
) -> bool {
    &&& blobs.len() == recurrent_count(cfg, k)
    &&& forall|il: int|
        0 <= il < k && !#[trigger] cfg.full(il) ==> gate_words(
            file,
            data_start,
            ts,
            il,
            blobs[recurrent_count(cfg, il)]@,
        )
}

proof fn lemma_recurrent_count(cfg: Qwen35, j: int, k: int)
    requires
        0 <= j <= k,
    ensures
        0 <= recurrent_count(cfg, j) <= recurrent_count(cfg, k) <= k,
        j < k && !cfg.full(j) ==> recurrent_count(cfg, j) < recurrent_count(cfg, k),
    decreases k,
{
    if j < k {
        lemma_recurrent_count(cfg, j, k - 1);
    } else if k > 0 {
        lemma_recurrent_count(cfg, k - 1, k - 1);
    }
}

/// Records the gates of every layer and fills their buffers in.
#[verifier::spinoff_prover]
#[verifier::rlimit(60)]
fn rec_gates(g: &mut Gpu, gg: &GGUF, cfg: &Qwen35, layers: &mut Vec<LayerBufs>) -> (r: Result<
    (),
    String,
>)
    requires
        cfg.wf(),
        sizes_fit(gguf::tensors_view(gg.tensors@), gg.data_start as int),
        old(layers)@.len() == cfg.n_layer,
        old(g).next + cfg.n_layer <= u64::MAX,
        old(g).blobs@.len() == 0,
    ensures
        ({
            let ts = gguf::tensors_view(gg.tensors@);
            let ds = gg.data_start as int;
            let n = cfg.n_layer as int;
            let next = old(g).next as int;
            match r {
                Ok(_) => {
                    &&& gates_error(gg.file(), ds, ts, *cfg, n) is None
                    &&& final(layers)@.len() == n
                    &&& forall|il: int|
                        0 <= il < n ==> #[trigger] final(layers)@[il] == (LayerBufs {
                            smalls: gates_buf(next, il),
                            ..old(layers)@[il]
                        })
                    &&& final(g).ops@ == old(g).ops@ + gates_ops(
                        old(g).force_local || old(g).discrete,
                        *cfg,
                        next,
                        n,
                    )
                    &&& final(g).next == next + n
                    &&& final(g).discrete == old(g).discrete
                    &&& final(g).force_local == old(g).force_local
                    &&& gates_set(gg.file(), ds, ts, *cfg, final(g).blobs@, n)
                },
                Err(m) => gates_error(gg.file(), ds, ts, *cfg, n) == Some(m@),
            }
        }),
{
    let ghost ts = gguf::tensors_view(gg.tensors@);
    let ghost ds = gg.data_start as int;
    let ghost local = g.force_local || g.discrete;
    let ghost next = g.next as int;
    let n: usize = cfg.n_layer;
    let mut il: usize = 0;
    assert(g.ops@ + Seq::<Op>::empty() =~= g.ops@);
    while il < n
        invariant
            il <= n,
            n == cfg.n_layer,
            cfg.wf(),
            ts == gguf::tensors_view(gg.tensors@),
            ds == gg.data_start,
            sizes_fit(ts, ds),
            next == old(g).next,
            next + n <= u64::MAX,
            local == (old(g).force_local || old(g).discrete),
            g.next == next + il,
            g.discrete == old(g).discrete,
            g.force_local == old(g).force_local,
            g.ops@ == old(g).ops@ + gates_ops(local, *cfg, next, il as int),
            gates_error(gg.file(), ds, ts, *cfg, il as int) is None,
            gates_set(gg.file(), ds, ts, *cfg, g.blobs@, il as int),
            layers@.len() == n,
            old(layers)@.len() == n,
            forall|j: int|
                0 <= j < il ==> #[trigger] layers@[j] == (LayerBufs {
                    smalls: gates_buf(next, j),
                    ..old(layers)@[j]
                }),
            forall|j: int| il <= j < n ==> #[trigger] layers@[j] == old(layers)@[j],
        decreases n - il,
    {
        let ghost blobs0 = g.blobs@;
        let sm = make(g, 4 * GDN_HV as u64);
        g.rec(Op::Zero { buf: sm, bytes: sm.len });
        proof {
            lemma_recurrent_count(*cfg, il as int, il as int);
        }
        if cfg.is_recurrent(il) {
            let words: Vec<u32> = match gates_of(gg, cfg, il) {
                Ok(w) => w,
                Err(m) => {
                    proof {
                        lemma_gates_error(gg.file(), ds, ts, *cfg, il + 1, n as int);
                    }
                    return Err(m);
                },
            };
            let blob: usize = g.blobs.len();
            g.blobs.push(words);
            g.rec(Op::Words { buf: sm, blob });
        }
        proof {
            assert(g.ops@ =~= old(g).ops@ + gates_ops(local, *cfg, next, il + 1));
            assert forall|j: int|
                0 <= j < il + 1 && !#[trigger] cfg.full(j) implies gate_words(
                gg.file(),
                ds,
                ts,
                j,
                g.blobs@[recurrent_count(*cfg, j)]@,
            ) by {
                if j < il {
                    lemma_recurrent_count(*cfg, j, il as int);
                    assert(g.blobs@[recurrent_count(*cfg, j)] == blobs0[recurrent_count(*cfg, j)]);
                }
            }
        }
        let mut l: LayerBufs = layers[il];
        l.smalls = sm;
        layers.set(il, l);
        il += 1;
    }
    Ok(())
}

// ---- opening ----------------------------------------------------------------------

/// The device context that opening yields, given the order of the tensors' names.
pub open spec fn opened(
    gg: GGUF,
    cfg: Qwen35,
    local: bool,
    mode: KvMode,
    n_ctx: int,
    order: Seq<int>,
    d: GDev,
) -> bool {
    let ts = gguf::tensors_view(gg.tensors@);
    let n = cfg.n_layer as int;
    let ups = uploads(ts, order, order.len() as int);
    let kv = kv_cfg(mode);
    let at_scratch = ups.len() as int;
    let at_caches = at_scratch + 22;
    let at_gates = at_caches + 2 * n;
    &&& d.wf()
    &&& d.cfg == cfg
    &&& d.n_ctx == n_ctx
    &&& d.tens@ == Seq::new(ups.len(), |i: int| tokenizer::single(ts[ups[i]].name))
    &&& d.tws@ == Seq::new(ups.len(), |i: int| matrix(i, ts[ups[i]]))
    &&& d.s == scratch(at_scratch, n_ctx)
    &&& d.kv == kv
    &&& forall|il: int|
        0 <= il < n ==> #[trigger] d.layers@[il] == layer_bufs(
            cfg.full(il),
            kv,
            n_ctx,
            at_caches + 2 * il,
            gates_buf(at_gates, il),
        )
    &&& d.gpu.next == at_gates + n
    &&& d.gpu.ops@ == weight_ops(local, ts, ups) + scratch_ops(local, at_scratch, n_ctx) + kv_ops(
        kv,
    ) + caches_ops(local, cfg, kv, n_ctx, at_caches, n) + gates_ops(local, cfg, at_gates, n)
    &&& gates_set(gg.file(), gg.data_start as int, ts, cfg, d.gpu.blobs@, n)
}

/// What opening a model does, given the order of the tensors' names: it refuses a model of
/// another shape, then a tensor behind the end of the file, then constants that cannot be
/// decoded.
pub open spec fn opens(
    gg: GGUF,
    cfg: Qwen35,
    local: bool,
    mode: KvMode,
    n_ctx: int,
    order: Seq<int>,
    r: Result<GDev, String>,
) -> bool {
    let ts = gguf::tensors_view(gg.tensors@);
    let ds = gg.data_start as int;
    let bad = unreadable(ts, ds, gg.file().len(), order, order.len() as int);
    let gates = gates_error(gg.file(), ds, ts, cfg, cfg.n_layer as int);
    match r {
        Ok(d) => {
            &&& gdev::fits_device(&cfg)
            &&& bad is None
            &&& gates is None
            &&& opened(gg, cfg, local, mode, n_ctx, order, d)
        },
        Err(m) => if !gdev::fits_device(&cfg) {
            m@ == "gdev: model hyperparameters do not match gdev constants"@
        } else if bad is Some {
            bad == Some(m@)
        } else {
            gates == Some(m@)
        },
    }
}

impl GDev {
    /// Records the opening of a model: its weights, the scratch buffers, and the caches that
    /// the settings ask for.
    pub fn open(
        gg: &GGUF,
        cfg: Qwen35,
        discrete: bool,
        force_local: bool,
        kv_setting: Option<&str>,
        ctx_setting: Option<&str>,
    ) -> (r: Result<GDev, String>)
        requires
            cfg.wf(),
            sizes_fit(gguf::tensors_view(gg.tensors@), gg.data_start as int),
            gg.tensors@.len() + 22 + 3 * cfg.n_layer <= u64::MAX,
        ensures
            exists|order: Seq<int>|
                #[trigger] by_name(gguf::tensors_view(gg.tensors@), order) && opens(
                    *gg,
                    cfg,
                    force_local || discrete,
                    kvquant::mode_of(gdev::opt_view(kv_setting)),
                    gdev::ctx_of(gdev::opt_view(ctx_setting)) as int,
                    order,
                    r,
                ),
            r matches Ok(d) ==> d.gpu.discrete == discrete && d.gpu.force_local == force_local,
    {
        let ghost ts = gguf::tensors_view(gg.tensors@);
        let order: Vec<usize> = order_by_name(&gg.tensors);
        let ghost o = as_ints(order@);
        let ghost local = force_local || discrete;
        let mode: KvMode = kvquant::mode_from_env(kv_setting);
        let n_ctx: usize = gdev::n_ctx_env(ctx_setting);
        if cfg.n_embd != N_EMBD || cfg.n_ff != N_FF || cfg.n_head != N_HEAD || cfg.n_head_kv != N_KV
            || cfg.n_embd_head != HEAD_D || cfg.ssm_dt_rank != GDN_HV {
            let r: Result<GDev, String> = Err(
                "gdev: model hyperparameters do not match gdev constants".to_owned(),
            );
            assert(opens(*gg, cfg, local, mode, n_ctx as int, o, r));
            return r;
        }
        let mut g = Gpu::new(discrete, force_local);
        let (tens, tws): (Table, Vec<TensorW>) = match rec_weights(gg, &order, &mut g) {
            Ok(x) => x,
            Err(m) => {
                let r: Result<GDev, String> = Err(m);
                assert(opens(*gg, cfg, local, mode, n_ctx as int, o, r));
                return r;
            },
        };
        let s: Scratch = rec_scratch(&mut g, n_ctx);
        let kv: KvCfg = kv_setup(mode, &mut g);
        let mut layers: Vec<LayerBufs> = rec_caches(&mut g, &cfg, kv, n_ctx, s.cur);
        if let Err(m) = rec_gates(&mut g, gg, &cfg, &mut layers) {
            let r: Result<GDev, String> = Err(m);
            assert(opens(*gg, cfg, local, mode, n_ctx as int, o, r));
            return r;
        }
        let d = GDev { gpu: g, cfg, n_ctx, tens, tws, s, kv, layers };
        proof {
            assert forall|il: int| 0 <= il < cfg.n_layer implies #[trigger] d.layer_wf(il) by {
                assert(d.layers@[il].smalls == d.layers@[il].smalls);
            }
            let ups = uploads(ts, o, o.len() as int);
            let at = ups.len() as int;
            let n = cfg.n_layer as int;
            assert(d.gpu.ops@ =~= weight_ops(local, ts, ups) + scratch_ops(local, at, n_ctx as int)
                + kv_ops(kv) + caches_ops(local, cfg, kv, n_ctx as int, at + 22, n) + gates_ops(
                local,
                cfg,
                at + 22 + 2 * n,
                n,
            ));
            assert(opened(*gg, cfg, local, mode, n_ctx as int, o, d));
        }
        let r: Result<GDev, String> = Ok(d);
        assert(opens(*gg, cfg, local, mode, n_ctx as int, o, r));
        r
    }
}

} // verus!
