//! The speculator's sidecar: its configuration, its tensors and the kernels that they need.

use vstd::prelude::*;
use vstd::string::*;

use crate::dots;
use crate::gdev_open;
use crate::gguf;
use crate::gguf::{
    Entry,
    TensorInfo,
    TensorV,
    Value,
    ValueV,
    GGUF,
    TYPE_BF16,
    TYPE_F32,
    TYPE_PQ2_0,
    TYPE_Q4_1,
};
use crate::half;
use crate::kernels;
use crate::sampler;
use crate::single;
use crate::text;

verus! {

// ---- configuration ----------------------------------------------------------------------------

/// The numbers that the sidecar's graph needs. Singles are held as their patterns.
#[derive(Debug)]
pub struct DsparkCfg {
    pub n_layer: usize,
    pub n_embd: usize,
    pub n_ff: usize,
    pub n_head: usize,
    pub n_head_kv: usize,
    pub head_dim: usize,
    pub n_vocab: usize,
    pub eps: u32,
    pub rope_freq_base: u32,
    pub block_size: usize,
    pub context_length: usize,
    pub mask_token_id: u32,
    /// The layers of the target whose hidden states are tapped.
    pub target_layers: Vec<u32>,
    pub markov_rank: usize,
    pub confidence_head: bool,
    /// The smallest and the largest log-SNR, if the graph is conditioned on it.
    pub log_snr: Option<(u32, u32)>,
}

/// An integer of the metadata, cut to 32 bits.
pub open spec fn meta_u32(m: Seq<Entry>, key: Seq<char>) -> Option<u32> {
    match gguf::lookup(m, key) {
        Some(v) => match v.as_u64() {
            Some(x) => Some(x as u32),
            None => None,
        },
        None => None,
    }
}

/// A single of the metadata.
pub open spec fn meta_f32(m: Seq<Entry>, key: Seq<char>) -> Option<u32> {
    match gguf::lookup(m, key) {
        Some(v) => v.as_f32(),
        None => None,
    }
}

/// A switch of the metadata, off where it is missing.
pub open spec fn meta_flag(m: Seq<Entry>, key: Seq<char>) -> bool {
    gguf::lookup(m, key) == Some(ValueV::Bool(true))
}

/// The architecture that the metadata names.
pub open spec fn meta_arch(m: Seq<Entry>) -> Seq<char> {
    match gguf::lookup(m, "general.architecture"@) {
        Some(ValueV::Str(s)) => s,
        _ => Seq::empty(),
    }
}

/// The first `k` of a list of integers, cut to 32 bits; none if one of them is no integer.
pub open spec fn layers_of(items: Seq<ValueV>, k: int) -> Option<Seq<u32>>
    decreases k,
{
    if k <= 0 {
        Some(Seq::empty())
    } else {
        match (layers_of(items, k - 1), items[k - 1].as_u64()) {
            (Some(s), Some(x)) => Some(s.push(x as u32)),
            _ => None,
        }
    }
}

pub open spec fn invalid(key: Seq<char>) -> Option<Seq<char>> {
    Some("dspark cfg: missing/invalid '"@ + key + "'"@)
}

/// The first key among those of integers and singles, in the order in which they are read, that
/// is missing or has another type.
pub open spec fn first_invalid(m: Seq<Entry>) -> Option<Seq<char>> {
    if meta_u32(m, "dspark.block_count"@) is None {
        invalid("dspark.block_count"@)
    } else if meta_u32(m, "dspark.embedding_length"@) is None {
        invalid("dspark.embedding_length"@)
    } else if meta_u32(m, "dspark.feed_forward_length"@) is None {
        invalid("dspark.feed_forward_length"@)
    } else if meta_u32(m, "dspark.attention.head_count"@) is None {
        invalid("dspark.attention.head_count"@)
    } else if meta_u32(m, "dspark.attention.head_count_kv"@) is None {
        invalid("dspark.attention.head_count_kv"@)
    } else if meta_u32(m, "dspark.attention.key_length"@) is None {
        invalid("dspark.attention.key_length"@)
    } else if meta_u32(m, "dspark.vocab_size"@) is None {
        invalid("dspark.vocab_size"@)
    } else if meta_f32(m, "dspark.attention.layer_norm_rms_epsilon"@) is None {
        invalid("dspark.attention.layer_norm_rms_epsilon"@)
    } else if meta_f32(m, "dspark.rope.freq_base"@) is None {
        invalid("dspark.rope.freq_base"@)
    } else if meta_u32(m, "dspark.dspark.block_size"@) is None {
        invalid("dspark.dspark.block_size"@)
    } else if meta_u32(m, "dspark.context_length"@) is None {
        invalid("dspark.context_length"@)
    } else if meta_u32(m, "dspark.dspark.mask_token_id"@) is None {
        invalid("dspark.dspark.mask_token_id"@)
    } else if meta_u32(m, "dspark.dspark.markov_rank"@) is None {
        invalid("dspark.dspark.markov_rank"@)
    } else {
        None
    }
}

/// Why the bounds of the log-SNR cannot be read; nothing if they can or are not needed.
pub open spec fn snr_invalid(m: Seq<Entry>) -> Option<Seq<char>> {
    if !meta_flag(m, "dspark.dspark.log_snr_conditioning"@) {
        None
    } else if meta_f32(m, "dspark.dspark.min_log_snr"@) is None {
        invalid("dspark.dspark.min_log_snr"@)
    } else if meta_f32(m, "dspark.dspark.max_log_snr"@) is None {
        invalid("dspark.dspark.max_log_snr"@)
    } else {
        None
    }
}

/// Why the tapped layers cannot be read; nothing if they can.
pub open spec fn layers_invalid(m: Seq<Entry>) -> Option<Seq<char>> {
    match gguf::lookup(m, "dspark.dspark.target_layers"@) {
        Some(ValueV::Array { items, .. }) => if layers_of(items, items.len() as int) is None {
            Some("dspark cfg: target_layers must be integers"@)
        } else {
            None
        },
        _ => Some("dspark cfg: missing 'dspark.dspark.target_layers'"@),
    }
}

/// Why metadata is refused; nothing if it is not.
pub open spec fn cfg_error(m: Seq<Entry>) -> Option<Seq<char>> {
    if meta_arch(m) != "dspark"@ {
        Some("dspark cfg: architecture is '"@ + meta_arch(m) + "', expected 'dspark'"@)
    } else if snr_invalid(m) is Some {
        snr_invalid(m)
    } else if layers_invalid(m) is Some {
        layers_invalid(m)
    } else {
        first_invalid(m)
    }
}

/// The configuration holds what the metadata says.
pub open spec fn cfg_reads(m: Seq<Entry>, c: DsparkCfg) -> bool {
    &&& c.n_layer == meta_u32(m, "dspark.block_count"@)->0
    &&& c.n_embd == meta_u32(m, "dspark.embedding_length"@)->0
    &&& c.n_ff == meta_u32(m, "dspark.feed_forward_length"@)->0
    &&& c.n_head == meta_u32(m, "dspark.attention.head_count"@)->0
    &&& c.n_head_kv == meta_u32(m, "dspark.attention.head_count_kv"@)->0
    &&& c.head_dim == meta_u32(m, "dspark.attention.key_length"@)->0
    &&& c.n_vocab == meta_u32(m, "dspark.vocab_size"@)->0
    &&& c.eps == meta_f32(m, "dspark.attention.layer_norm_rms_epsilon"@)->0
    &&& c.rope_freq_base == meta_f32(m, "dspark.rope.freq_base"@)->0
    &&& c.block_size == meta_u32(m, "dspark.dspark.block_size"@)->0
    &&& c.context_length == meta_u32(m, "dspark.context_length"@)->0
    &&& c.mask_token_id == meta_u32(m, "dspark.dspark.mask_token_id"@)->0
    &&& gguf::lookup(m, "dspark.dspark.target_layers"@) matches Some(ValueV::Array { items, .. })
        && layers_of(items, items.len() as int) == Some(c.target_layers@)
    &&& c.markov_rank == meta_u32(m, "dspark.dspark.markov_rank"@)->0
    &&& c.confidence_head == meta_flag(m, "dspark.dspark.confidence_head"@)
    &&& c.log_snr == if meta_flag(m, "dspark.dspark.log_snr_conditioning"@) {
        Some(
            (
                meta_f32(m, "dspark.dspark.min_log_snr"@)->0,
                meta_f32(m, "dspark.dspark.max_log_snr"@)->0,
            ),
        )
    } else {
        None
    }
}

fn no_key<T>(key: &str) -> (r: Result<T, String>)
    ensures
        r matches Err(m) && Some(m@) == invalid(key@),
{
    let mut m = "dspark cfg: missing/invalid '".to_owned();
    m.append(key);
    m.append("'");
    Err(m)
}

fn need_u32(g: &GGUF, key: &str) -> (r: Result<u32, String>)
    ensures
        match r {
            Ok(v) => meta_u32(gguf::entries_view(g.meta@), key@) == Some(v),
            Err(m) => meta_u32(gguf::entries_view(g.meta@), key@) is None && Some(m@) == invalid(
                key@,
            ),
        },
{
    match g.get(key) {
        Some(v) => match v.as_u64() {
            Some(x) => Ok(x as u32),
            None => no_key(key),
        },
        None => no_key(key),
    }
}

fn need_f32(g: &GGUF, key: &str) -> (r: Result<u32, String>)
    ensures
        match r {
            Ok(v) => meta_f32(gguf::entries_view(g.meta@), key@) == Some(v),
            Err(m) => meta_f32(gguf::entries_view(g.meta@), key@) is None && Some(m@) == invalid(
                key@,
            ),
        },
{
    match g.get(key) {
        Some(v) => match v.as_f32() {
            Some(x) => Ok(x),
            None => no_key(key),
        },
        None => no_key(key),
    }
}

fn flag(g: &GGUF, key: &str) -> (r: bool)
    ensures
        r == meta_flag(gguf::entries_view(g.meta@), key@),
{
    match g.get(key) {
        Some(v) => match v.as_bool() {
            Some(b) => b,
            None => false,
        },
        None => false,
    }
}

fn read_layers(items: &Vec<Value>) -> (r: Option<Vec<u32>>)
    ensures
        match r {
            Some(v) => layers_of(gguf::values_view(items@), items@.len() as int) == Some(v@),
            None => layers_of(gguf::values_view(items@), items@.len() as int) is None,
        },
{
    let ghost all = gguf::values_view(items@);
    let n: usize = items.len();
    let mut out: Vec<u32> = Vec::new();
    let mut k: usize = 0;
    let mut good: bool = true;
    while k < n
        invariant
            k <= n,
            n == items@.len(),
            all == gguf::values_view(items@),
            good ==> layers_of(all, k as int) == Some(out@),
            !good ==> layers_of(all, k as int) is None,
        decreases n - k,
    {
        assert(all[k as int] == items@[k as int]@);
        match items[k].as_u64() {
            Some(x) => {
                out.push(x as u32);
            },
            None => {
                good = false;
            },
        }
        k += 1;
    }
    if good {
        Some(out)
    } else {
        None
    }
}

fn target_layers(g: &GGUF) -> (r: Result<Vec<u32>, String>)
    ensures
        ({
            let m = gguf::entries_view(g.meta@);
            match r {
                Ok(v) => layers_invalid(m) is None && (gguf::lookup(
                    m,
                    "dspark.dspark.target_layers"@,
                ) matches Some(ValueV::Array { items, .. }) && layers_of(items, items.len() as int)
                    == Some(v@)),
                Err(e) => layers_invalid(m) == Some(e@),
            }
        }),
{
    match g.get("dspark.dspark.target_layers") {
        Some(Value::Array { elem_type, items }) => {
            proof {
                gguf::lemma_array_view(*elem_type, *items);
            }
            match read_layers(items) {
                Some(v) => Ok(v),
                None => Err("dspark cfg: target_layers must be integers".to_owned()),
            }
        },
        _ => Err("dspark cfg: missing 'dspark.dspark.target_layers'".to_owned()),
    }
}

impl DsparkCfg {
    /// Reads the configuration from a sidecar's metadata.
    pub fn from_gguf(g: &GGUF) -> (r: Result<DsparkCfg, String>)
        ensures
            match r {
                Ok(c) => cfg_error(gguf::entries_view(g.meta@)) is None && cfg_reads(
                    gguf::entries_view(g.meta@),
                    c,
                ),
                Err(m) => cfg_error(gguf::entries_view(g.meta@)) == Some(m@),
            },
    {
        let arch: &str = match g.get("general.architecture") {
            Some(Value::Str(s)) => s.as_str(),
            _ => "",
        };
        proof {
            reveal_strlit("");
            assert(arch@ =~= meta_arch(gguf::entries_view(g.meta@)));
        }
        if !text::same(arch, "dspark") {
            let mut m = "dspark cfg: architecture is '".to_owned();
            m.append(arch);
            m.append("', expected 'dspark'");
            return Err(m);
        }
        let confidence_head: bool = flag(g, "dspark.dspark.confidence_head");
        let log_snr: Option<(u32, u32)> = if flag(g, "dspark.dspark.log_snr_conditioning") {
            let low: u32 = match need_f32(g, "dspark.dspark.min_log_snr") {
                Ok(v) => v,
                Err(m) => return Err(m),
            };
            let high: u32 = match need_f32(g, "dspark.dspark.max_log_snr") {
                Ok(v) => v,
                Err(m) => return Err(m),
            };
            Some((low, high))
        } else {
            None
        };
        let layers: Vec<u32> = match target_layers(g) {
            Ok(v) => v,
            Err(m) => return Err(m),
        };
        let n_layer: u32 = match need_u32(g, "dspark.block_count") {
            Ok(v) => v,
            Err(m) => return Err(m),
        };
        let n_embd: u32 = match need_u32(g, "dspark.embedding_length") {
            Ok(v) => v,
            Err(m) => return Err(m),
        };
        let n_ff: u32 = match need_u32(g, "dspark.feed_forward_length") {
            Ok(v) => v,
            Err(m) => return Err(m),
        };
        let n_head: u32 = match need_u32(g, "dspark.attention.head_count") {
            Ok(v) => v,
            Err(m) => return Err(m),
        };
        let n_head_kv: u32 = match need_u32(g, "dspark.attention.head_count_kv") {
            Ok(v) => v,
            Err(m) => return Err(m),
        };
        let head_dim: u32 = match need_u32(g, "dspark.attention.key_length") {
            Ok(v) => v,
            Err(m) => return Err(m),
        };
        let n_vocab: u32 = match need_u32(g, "dspark.vocab_size") {
            Ok(v) => v,
            Err(m) => return Err(m),
        };
        let eps: u32 = match need_f32(g, "dspark.attention.layer_norm_rms_epsilon") {
            Ok(v) => v,
            Err(m) => return Err(m),
        };
        let rope_freq_base: u32 = match need_f32(g, "dspark.rope.freq_base") {
            Ok(v) => v,
            Err(m) => return Err(m),
        };
        let block_size: u32 = match need_u32(g, "dspark.dspark.block_size") {
            Ok(v) => v,
            Err(m) => return Err(m),
        };
        let context_length: u32 = match need_u32(g, "dspark.context_length") {
            Ok(v) => v,
            Err(m) => return Err(m),
        };
        let mask_token_id: u32 = match need_u32(g, "dspark.dspark.mask_token_id") {
            Ok(v) => v,
            Err(m) => return Err(m),
        };
        let markov_rank: u32 = match need_u32(g, "dspark.dspark.markov_rank") {
            Ok(v) => v,
            Err(m) => return Err(m),
        };
        Ok(
            DsparkCfg {
                n_layer: n_layer as usize,
                n_embd: n_embd as usize,
                n_ff: n_ff as usize,
                n_head: n_head as usize,
                n_head_kv: n_head_kv as usize,
                head_dim: head_dim as usize,
                n_vocab: n_vocab as usize,
                eps,
                rope_freq_base,
                block_size: block_size as usize,
                context_length: context_length as usize,
                mask_token_id,
                target_layers: layers,
                markov_rank: markov_rank as usize,
                confidence_head,
                log_snr,
            },
        )
    }

    /// The width of the encoder's input: the tapped layers side by side.
    pub fn n_embd_enc(&self) -> (r: usize)
        requires
            self.target_layers@.len() * self.n_embd <= usize::MAX,
        ensures
            r == self.target_layers@.len() * self.n_embd,
    {
        self.target_layers.len() * self.n_embd
    }
}

// ---- rows -------------------------------------------------------------------------------------

/// Bytes of a row of `ne0` columns; an unknown type counts four per column.
pub open spec fn row_size(ty: u32, ne0: int) -> int {
    if ty == TYPE_BF16 {
        2 * ne0
    } else if ty == TYPE_Q4_1 {
        kernels::q4_1_stride(ne0)
    } else if ty == TYPE_PQ2_0 {
        kernels::pq2_stride(ne0)
    } else {
        4 * ne0
    }
}

/// Bytes of a row of `ne0` columns.
pub fn row_bytes(ty: u32, ne0: usize) -> (r: usize)
    requires
        row_size(ty, ne0 as int) <= usize::MAX,
    ensures
        r == row_size(ty, ne0 as int),
{
    if ty == TYPE_BF16 {
        ne0 * 2
    } else if ty == TYPE_Q4_1 {
        kernels::q4_1_row_bytes(ne0)
    } else if ty == TYPE_PQ2_0 {
        kernels::pq2_row_bytes(ne0)
    } else {
        ne0 * 4
    }
}

pub open spec fn supported(ty: u32) -> bool {
    ty == TYPE_F32 || ty == TYPE_BF16 || ty == TYPE_Q4_1 || ty == TYPE_PQ2_0
}

/// Whether tensors of a type can be used.
pub fn type_supported(ty: u32) -> (r: bool)
    ensures
        r == supported(ty),
{
    ty == TYPE_F32 || ty == TYPE_BF16 || ty == TYPE_Q4_1 || ty == TYPE_PQ2_0
}

/// The pattern at a place, little-endian.
pub open spec fn word_at(b: Seq<u8>, p: int) -> u32 {
    (b[p] + 256 * b[p + 1] + 0x1_0000 * b[p + 2] + 0x100_0000 * b[p + 3]) as u32
}

/// Column `j` of the row at `at`.
pub open spec fn elem(ty: u32, b: Seq<u8>, at: int, j: int) -> u32 {
    if ty == TYPE_BF16 {
        (dots::half_at(b, at + 2 * j) * 0x1_0000) as u32
    } else if ty == TYPE_Q4_1 {
        let base = at + j / 32 * 20;
        let i = j % 32;
        let q = if i < 16 {
            b[base + 4 + i] as int % 16
        } else {
            b[base + 4 + i - 16] as int / 16
        };
        single::sum_of(
            single::product_of(
                single::wide(dots::half_at(b, base)),
                single::single_of(q as nat),
            ),
            single::wide(dots::half_at(b, base + 2)),
        )
    } else if ty == TYPE_PQ2_0 {
        let base = at + j / 128 * 34;
        single::product_of(
            dots::code_single(gguf::pq2_code(b, base, j % 128)),
            single::wide(dots::half_at(b, base)),
        )
    } else {
        word_at(b, at + 4 * j)
    }
}

fn read_elem(ty: u32, b: &[u8], at: usize, ne0: usize, j: usize) -> (r: u32)
    requires
        j < ne0,
        at + row_size(ty, ne0 as int) <= b@.len(),
    ensures
        r == elem(ty, b@, at as int, j as int),
{
    let size: usize = b.len();
    assert(at + row_size(ty, ne0 as int) <= size);
    if ty == TYPE_BF16 {
        kernels::bf16_to_f32(dots::read_half(b, at + 2 * j))
    } else if ty == TYPE_Q4_1 {
        assert(j / 32 + 1 <= kernels::blocks(ne0 as int, 32));
        let base: usize = at + j / 32 * 20;
        let i: usize = j % 32;
        let q: u8 = if i < 16 {
            b[base + 4 + i] % 16
        } else {
            b[base + 4 + (i - 16)] / 16
        };
        let d: u32 = single::widen(dots::read_half(b, base));
        let m: u32 = single::widen(dots::read_half(b, base + 2));
        single::sum(single::product(d, single::from_uint(q as u64)), m)
    } else if ty == TYPE_PQ2_0 {
        assert(j / 128 + 1 <= kernels::blocks(ne0 as int, 128));
        let base: usize = at + j / 128 * 34;
        let c: u8 = dots::code_at(b, base, j % 128);
        single::product(dots::factor(c), single::widen(dots::read_half(b, base)))
    } else {
        let p: usize = at + 4 * j;
        b[p] as u32 + 256 * b[p + 1] as u32 + 0x1_0000 * b[p + 2] as u32 + 0x100_0000 * b[p
            + 3] as u32
    }
}

/// The columns of the row at `at`.
pub open spec fn row_of(ty: u32, b: Seq<u8>, at: int, ne0: int) -> Seq<u32> {
    Seq::new(ne0 as nat, |j: int| elem(ty, b, at, j))
}

/// Decodes the row at `at`.
pub fn decode_row(ty: u32, b: &[u8], at: usize, ne0: usize) -> (r: Vec<u32>)
    requires
        at + row_size(ty, ne0 as int) <= b@.len(),
    ensures
        r@ == row_of(ty, b@, at as int, ne0 as int),
{
    let mut out: Vec<u32> = Vec::new();
    let mut j: usize = 0;
    while j < ne0
        invariant
            j <= ne0,
            at + row_size(ty, ne0 as int) <= b@.len(),
            out@.len() == j,
            forall|k: int| 0 <= k < j ==> #[trigger] out@[k] == elem(ty, b@, at as int, k),
        decreases ne0 - j,
    {
        out.push(read_elem(ty, b, at, ne0, j));
        j += 1;
    }
    assert(out@ =~= row_of(ty, b@, at as int, ne0 as int));
    out
}

/// How many of `ne0` columns `size` bytes decode to: nibbles come by whole blocks, as far as there
/// are any; the other types have all their columns.
pub open spec fn covered(ty: u32, size: int, ne0: int) -> int {
    if ty == TYPE_Q4_1 && size / 20 < kernels::blocks(ne0, 32) {
        size / 20 * 32
    } else {
        ne0
    }
}

/// Decodes a row into the front of `out`; a type that cannot be used leaves it as it is.
pub fn dequant_row(ty: u32, raw: &[u8], ne0: usize, out: &mut Vec<u32>)
    requires
        supported(ty) && ty != TYPE_Q4_1 ==> row_size(ty, ne0 as int) <= raw@.len(),
        supported(ty) ==> covered(ty, raw@.len() as int, ne0 as int) <= old(out)@.len(),
    ensures
        if supported(ty) {
            dots::filled(
                old(out)@,
                final(out)@,
                covered(ty, raw@.len() as int, ne0 as int),
                |j: int| elem(ty, raw@, 0, j),
            )
        } else {
            final(out)@ == old(out)@
        },
{
    if !type_supported(ty) {
        return;
    }
    let size: usize = raw.len();
    let n: usize = if ty == TYPE_Q4_1 && size / 20 < kernels::div_ceil(ne0, 32) {
        size / 20 * 32
    } else {
        ne0
    };
    let ghost f = |j: int| elem(ty, raw@, 0, j);
    let mut j: usize = 0;
    while j < n
        invariant
            j <= n <= out@.len(),
            row_size(ty, n as int) <= raw@.len(),
            f == (|j: int| elem(ty, raw@, 0, j)),
            dots::filled(old(out)@, out@, j as int, f),
        decreases n - j,
    {
        let v: u32 = read_elem(ty, raw, 0, n, j);
        assert(v == f(j as int));
        out.set(j, v);
        j += 1;
    }
}

fn unsupported<T>(ty: u32) -> (r: Result<T, String>)
    ensures
        r matches Err(m) && m@ == "dspark matvec: unsupported tensor type "@ + text::decimal(
            ty as nat,
        ),
{
    let mut m = "dspark matvec: unsupported tensor type ".to_owned();
    text::push_decimal(&mut m, ty as u64);
    Err(m)
}

fn wrong_length<T>(got: usize, want: usize) -> (r: Result<T, String>)
    ensures
        r matches Err(m) && m@ == "dspark matvec: x len "@ + text::decimal(got as nat) + " != ne0 "@
            + text::decimal(want as nat),
{
    let mut m = "dspark matvec: x len ".to_owned();
    text::push_decimal(&mut m, got as u64);
    m.append(" != ne0 ");
    text::push_decimal(&mut m, want as u64);
    Err(m)
}

/// The product of row `row` with `x`, value by value.
pub open spec fn row_product(ty: u32, b: Seq<u8>, ne0: int, row: int, x: Seq<u32>) -> u32 {
    dots::dense_dot(x, row_of(ty, b, row * row_size(ty, ne0), ne0), ne0)
}

/// The column that comes at step `i` of a row of nibbles: in each block the low and the high
/// nibble of one byte after the other.
pub open spec fn nibble_column(i: int) -> int {
    i / 32 * 32 + i % 32 / 2 + i % 2 * 16
}

/// The sum of the products of `x` with the columns of a row of nibbles, in the order of their
/// bytes, after `n` steps; steps past the last column do not count.
pub open spec fn nibble_dot(x: Seq<u32>, w: Seq<u32>, n: int) -> u32
    decreases n,
{
    if n <= 0 {
        0
    } else {
        let acc = nibble_dot(x, w, n - 1);
        let c = nibble_column(n - 1);
        if c < w.len() {
            single::sum_of(acc, single::product_of(x[c], w[c]))
        } else {
            acc
        }
    }
}

/// The product of the row at `at` with `x`, summed as its type is stored: dense values one after
/// the other, nibbles byte by byte, ternary codes block by block with the scale taken once. Other
/// types give zero.
pub open spec fn row_sum(ty: u32, b: Seq<u8>, at: int, ne0: int, x: Seq<u32>) -> u32 {
    if ty == TYPE_F32 || ty == TYPE_BF16 {
        dots::dense_dot(x, row_of(ty, b, at, ne0), ne0)
    } else if ty == TYPE_Q4_1 {
        nibble_dot(x, row_of(ty, b, at, ne0), kernels::blocks(ne0, 32) * 32)
    } else if ty == TYPE_PQ2_0 {
        dots::pq2_dot(b, at, ne0, x, kernels::blocks(ne0, 128))
    } else {
        0
    }
}

fn nibble_row_dot(x: &[u32], w: &Vec<u32>) -> (r: u32)
    requires
        x@.len() == w@.len(),
    ensures
        r == nibble_dot(x@, w@, kernels::blocks(x@.len() as int, 32) * 32),
{
    let size: usize = x.len();
    let n: usize = kernels::div_ceil(size, 32);
    let mut acc: u32 = 0;
    let mut k: usize = 0;
    while k < n
        invariant
            k <= n,
            n == kernels::blocks(size as int, 32),
            size == x@.len(),
            x@.len() == w@.len(),
            acc == nibble_dot(x@, w@, k * 32),
        decreases n - k,
    {
        let base: usize = k * 32;
        let mut j: usize = 0;
        while j < 16
            invariant
                j <= 16,
                k < n,
                base == k * 32,
                base < size,
                size == x@.len(),
                x@.len() == w@.len(),
                acc == nibble_dot(x@, w@, base + 2 * j),
            decreases 16 - j,
        {
            let ghost i = base + 2 * j;
            assert(nibble_column(i) == base + j);
            assert(nibble_column(i + 1) == base + j + 16);
            if j < size - base {
                acc = single::sum(acc, single::product(x[base + j], w[base + j]));
            }
            assert(acc == nibble_dot(x@, w@, i + 1));
            if j + 16 < size - base {
                acc = single::sum(acc, single::product(x[base + j + 16], w[base + j + 16]));
            }
            j += 1;
        }
        k += 1;
    }
    acc
}

/// The product of the row at `at` with a vector.
pub fn row_dot(ty: u32, raw: &[u8], at: usize, ne0: usize, x: &[u32]) -> (r: u32)
    requires
        supported(ty) ==> at + row_size(ty, ne0 as int) <= raw@.len(),
        supported(ty) ==> x@.len() == ne0,
    ensures
        r == row_sum(ty, raw@, at as int, ne0 as int, x@),
{
    if ty == TYPE_PQ2_0 {
        dots::row_dot_scalar(raw, at, ne0, x)
    } else if ty == TYPE_Q4_1 {
        let w: Vec<u32> = decode_row(ty, raw, at, ne0);
        nibble_row_dot(x, &w)
    } else if ty == TYPE_F32 || ty == TYPE_BF16 {
        let w: Vec<u32> = decode_row(ty, raw, at, ne0);
        dots::dot(x, &w)
    } else {
        0
    }
}

/// Why a matrix cannot be multiplied by a vector; nothing if it can.
pub open spec fn matvec_error(ty: u32, payload: int, ne0: int, x_len: int, rows: int) -> Option<
    Seq<char>,
> {
    if !supported(ty) {
        Some("dspark matvec: unsupported tensor type "@ + text::decimal(ty as nat))
    } else if x_len != ne0 {
        Some(
            "dspark matvec: x len "@ + text::decimal(x_len as nat) + " != ne0 "@ + text::decimal(
                ne0 as nat,
            ),
        )
    } else if payload < rows * row_size(ty, ne0) {
        Some(
            "dspark matvec: payload "@ + text::decimal(payload as nat) + " < "@ + text::decimal(
                rows as nat,
            ) + " rows * "@ + text::decimal(row_size(ty, ne0) as nat),
        )
    } else {
        None
    }
}

/// Sets the first places of `y` to the products of rows with `x`.
fn fill_products(
    ty: u32,
    payload: &[u8],
    ne0: usize,
    base: usize,
    n: usize,
    x: &[u32],
    y: &mut Vec<u32>,
)
    requires
        n <= old(y)@.len(),
        x@.len() == ne0,
        base + n <= usize::MAX,
        (base + n) * row_size(ty, ne0 as int) <= payload@.len(),
        row_size(ty, ne0 as int) <= usize::MAX,
    ensures
        dots::filled(
            old(y)@,
            final(y)@,
            n as int,
            |k: int| row_product(ty, payload@, ne0 as int, base + k, x@),
        ),
{
    let size: usize = payload.len();
    let stride: usize = row_bytes(ty, ne0);
    let ghost f = |k: int| row_product(ty, payload@, ne0 as int, base + k, x@);
    let mut k: usize = 0;
    while k < n
        invariant
            k <= n <= y@.len(),
            y@.len() == old(y)@.len(),
            stride == row_size(ty, ne0 as int),
            base + n <= usize::MAX,
            (base + n) * stride <= size,
            size == payload@.len(),
            x@.len() == ne0,
            f == (|k: int| row_product(ty, payload@, ne0 as int, base + k, x@)),
            dots::filled(old(y)@, y@, k as int, f),
        decreases n - k,
    {
        proof {
            dots::lemma_row_end(base + k, base + n, stride as int);
        }
        let at: usize = (base + k) * stride;
        let v: u32 = if ty == TYPE_F32 || ty == TYPE_BF16 {
            row_dot(ty, payload, at, ne0, x)
        } else {
            let w: Vec<u32> = decode_row(ty, payload, at, ne0);
            dots::dot(x, &w)
        };
        assert(v == f(k as int));
        y.set(k, v);
        k += 1;
    }
}

/// Multiplies a matrix by a vector: as many rows as `y` has places.
pub fn matvec_scalar(ty: u32, payload: &[u8], ne0: usize, x: &[u32], y: &mut Vec<u32>) -> (r:
    Result<(), String>)
    requires
        row_size(ty, ne0 as int) <= usize::MAX,
        old(y)@.len() * row_size(ty, ne0 as int) <= usize::MAX,
    ensures
        kernels::says(
            r,
            matvec_error(
                ty,
                payload@.len() as int,
                ne0 as int,
                x@.len() as int,
                old(y)@.len() as int,
            ),
        ),
        r is Err ==> final(y)@ == old(y)@,
        r is Ok ==> dots::filled(
            old(y)@,
            final(y)@,
            old(y)@.len() as int,
            |k: int| row_product(ty, payload@, ne0 as int, k, x@),
        ),
{
    if !type_supported(ty) {
        return unsupported(ty);
    }
    if x.len() != ne0 {
        return wrong_length(x.len(), ne0);
    }
    let rb: usize = row_bytes(ty, ne0);
    let rows: usize = y.len();
    if payload.len() < rows * rb {
        let mut m = "dspark matvec: payload ".to_owned();
        text::push_decimal(&mut m, payload.len() as u64);
        m.append(" < ");
        text::push_decimal(&mut m, rows as u64);
        m.append(" rows * ");
        text::push_decimal(&mut m, rb as u64);
        return Err(m);
    }
    fill_products(ty, payload, ne0, 0, rows, x, y);
    proof {
        let f = |k: int| row_product(ty, payload@, ne0 as int, 0 + k, x@);
        let g = |k: int| row_product(ty, payload@, ne0 as int, k, x@);
        assert(f =~= g);
    }
    Ok(())
}

/// Why rows of a matrix cannot be multiplied by a vector; nothing if they can.
pub open spec fn range_error(
    ty: u32,
    payload: int,
    ne0: int,
    base: int,
    n: int,
    x_len: int,
    y_len: int,
) -> Option<Seq<char>> {
    if ty == TYPE_PQ2_0 {
        kernels::pq2_range_error(payload, ne0, base, n, x_len, y_len)
    } else if ty == TYPE_Q4_1 {
        kernels::q4_1_range_error(payload, ne0, base, n, x_len, y_len)
    } else if !supported(ty) {
        Some("dspark matvec: unsupported tensor type "@ + text::decimal(ty as nat))
    } else if x_len != ne0 {
        Some(
            "dspark matvec: x len "@ + text::decimal(x_len as nat) + " != ne0 "@ + text::decimal(
                ne0 as nat,
            ),
        )
    } else if payload < (base + n) * row_size(ty, ne0) {
        Some("dspark matvec: payload too small"@)
    } else {
        None
    }
}

/// The product of row `row` with `x`, as its type's kernel rounds it.
pub open spec fn kernel_product(ty: u32, b: Seq<u8>, ne0: int, row: int, x: Seq<u32>) -> u32 {
    if ty == TYPE_PQ2_0 {
        dots::pq2_row(b, ne0, row, x)
    } else if ty == TYPE_Q4_1 {
        dots::q4_1_row(b, ne0, row, x)
    } else {
        row_product(ty, b, ne0, row, x)
    }
}

/// Multiplies rows of a matrix by a vector.
pub fn matvec_par(
    ty: u32,
    payload: &[u8],
    ne0: usize,
    base_row: usize,
    n_rows: usize,
    x: &[u32],
    y: &mut Vec<u32>,
) -> (r: Result<(), String>)
    requires
        n_rows <= old(y)@.len(),
        base_row + n_rows <= usize::MAX,
        row_size(ty, ne0 as int) <= usize::MAX,
        (base_row + n_rows) * row_size(ty, ne0 as int) <= usize::MAX,
    ensures
        kernels::says(
            r,
            range_error(
                ty,
                payload@.len() as int,
                ne0 as int,
                base_row as int,
                n_rows as int,
                x@.len() as int,
                old(y)@.len() as int,
            ),
        ),
        r is Err ==> final(y)@ == old(y)@,
        r is Ok ==> dots::filled(
            old(y)@,
            final(y)@,
            n_rows as int,
            |k: int| kernel_product(ty, payload@, ne0 as int, base_row + k, x@),
        ),
{
    let ghost g = |k: int| kernel_product(ty, payload@, ne0 as int, base_row + k, x@);
    if ty == TYPE_PQ2_0 {
        proof {
            let f = |k: int| dots::pq2_row(payload@, ne0 as int, base_row + k, x@);
            assert(f =~= g);
        }
        return dots::pq2_matvec_range(payload, ne0, base_row, n_rows, x, y);
    }
    if ty == TYPE_Q4_1 {
        proof {
            let f = |k: int| dots::q4_1_row(payload@, ne0 as int, base_row + k, x@);
            assert(f =~= g);
        }
        return dots::q4_1_matvec_range(payload, ne0, base_row, n_rows, x, y);
    }
    if !type_supported(ty) {
        return unsupported(ty);
    }
    if x.len() != ne0 {
        return wrong_length(x.len(), ne0);
    }
    let rb: usize = row_bytes(ty, ne0);
    if payload.len() < (base_row + n_rows) * rb {
        return Err("dspark matvec: payload too small".to_owned());
    }
    fill_products(ty, payload, ne0, base_row, n_rows, x, y);
    proof {
        let f = |k: int| row_product(ty, payload@, ne0 as int, base_row + k, x@);
        assert(f =~= g);
    }
    Ok(())
}

// ---- quantizing -------------------------------------------------------------------------------

/// The largest magnitude among `n` values from `off` on, as a pattern; what is not a number does
/// not count.
pub open spec fn largest(x: Seq<u32>, off: int, n: int) -> int
    decreases n,
{
    if n <= 0 {
        0
    } else {
        let m = largest(x, off, n - 1);
        let v = single::mag(x[off + n - 1]);
        if v > single::INF || v <= m {
            m
        } else {
            v
        }
    }
}

/// The ternary code of a value, given one over the scale: 0, 1 or 2 for minus the scale, nothing
/// or the scale, whichever is nearest.
pub open spec fn ternary_code(v: u32, inv: u32) -> int {
    let p = single::product_of(v, inv);
    if sampler::at_most(single::HALF, p) {
        2
    } else if sampler::at_most(p, MINUS_HALF) {
        0
    } else {
        1
    }
}

/// The pattern of minus a half.
pub const MINUS_HALF: u32 = 0xBF00_0000;

/// The code of value `j` of a block whose largest magnitude is `m`.
pub open spec fn block_code(m: int, v: u32) -> int {
    if m == 0 {
        1
    } else {
        ternary_code(v, single::quotient_of(single::ONE, m as u32))
    }
}

/// The block at `base` holds 128 values from `off` on: the largest magnitude as its scale, and
/// the code of each value.
pub open spec fn block_holds(b: Seq<u8>, base: int, x: Seq<u32>, off: int) -> bool {
    let m = largest(x, off, 128);
    &&& half::narrows(m as u32, dots::half_at(b, base))
    &&& forall|j: int|
        0 <= j < 128 ==> #[trigger] gguf::pq2_code(b, base, j) == block_code(m, x[off + j])
}

fn largest_of(x: &[u32], off: usize) -> (r: u32)
    requires
        off + 128 <= x@.len(),
    ensures
        r == largest(x@, off as int, 128),
        r <= single::INF,
{
    let size: usize = x.len();
    let mut m: u32 = 0;
    let mut j: usize = 0;
    while j < 128
        invariant
            j <= 128,
            off + 128 <= size,
            size == x@.len(),
            m == largest(x@, off as int, j as int),
            m <= single::INF,
        decreases 128 - j,
    {
        let v: u32 = x[off + j] % single::SIGN;
        if v <= single::INF && v > m {
            m = v;
        }
        j += 1;
    }
    m
}

fn code_for(v: u32, inv: u32) -> (r: u8)
    ensures
        r == ternary_code(v, inv),
        r < 3,
{
    let p: u32 = single::product(v, inv);
    if sampler::single_at_most(single::HALF, p) {
        2
    } else if sampler::single_at_most(p, MINUS_HALF) {
        0
    } else {
        1
    }
}

/// Appends the block of 128 values from `off` on.
fn push_block(x: &[u32], off: usize, out: &mut Vec<u8>)
    requires
        off + 128 <= x@.len(),
    ensures
        final(out)@.len() == old(out)@.len() + 34,
        final(out)@.take(old(out)@.len() as int) == old(out)@,
        block_holds(final(out)@, old(out)@.len() as int, x@, off as int),
{
    let size: usize = x.len();
    let ghost base = out@.len() as int;
    let ghost first = out@;
    let m: u32 = largest_of(x, off);
    let h: u16 = half::f32_to_half(m);
    out.push((h % 256) as u8);
    out.push((h / 256) as u8);
    let inv: u32 = if m == 0 {
        0
    } else {
        single::quotient(single::ONE, m)
    };
    let mut i: usize = 0;
    while i < 32
        invariant
            i <= 32,
            off + 128 <= size,
            size == x@.len(),
            m == largest(x@, off as int, 128),
            m != 0 ==> inv == single::quotient_of(single::ONE, m),
            base == first.len(),
            out@.len() == base + 2 + i,
            forall|k: int| 0 <= k < base ==> #[trigger] out@[k] == first[k],
            dots::half_at(out@, base) == h,
            forall|j: int|
                0 <= j < 4 * i ==> #[trigger] gguf::pq2_code(out@, base, j) == block_code(
                    m as int,
                    x@[off + j],
                ),
        decreases 32 - i,
    {
        let j: usize = off + 4 * i;
        let (a, b, c, d): (u8, u8, u8, u8) = if m == 0 {
            (1, 1, 1, 1)
        } else {
            (
                code_for(x[j], inv),
                code_for(x[j + 1], inv),
                code_for(x[j + 2], inv),
                code_for(x[j + 3], inv),
            )
        };
        let byte: u8 = a + 4 * b + 16 * c + 64 * d;
        let ghost before = out@;
        out.push(byte);
        proof {
            assert forall|k: int| 0 <= k < 4 * (i + 1) implies #[trigger] gguf::pq2_code(
                out@,
                base,
                k,
            ) == block_code(m as int, x@[off + k]) by {
                if k < 4 * i {
                    assert(gguf::pq2_code(before, base, k) == block_code(m as int, x@[off + k]));
                    assert(out@[base + 2 + k / 4] == before[base + 2 + k / 4]);
                } else {
                    assert(k / 4 == i);
                    assert(out@[base + 2 + k / 4] == byte);
                    assert(byte as int % 4 == a && byte as int / 4 % 4 == b && byte as int / 16 % 4
                        == c && byte as int / 64 == d);
                }
            }
        }
        i += 1;
    }
    assert(out@.take(base) =~= first);
}

/// Blocks from `base` on hold a row, up to block `k`.
pub open spec fn row_holds(b: Seq<u8>, base: int, x: Seq<u32>, k: int) -> bool {
    forall|i: int| 0 <= i < k ==> #[trigger] block_holds(b, base + 34 * i, x, 128 * i)
}

/// Appends a row as ternary blocks: a scale and 32 bytes of codes for 128 values each.
pub fn quantize_pq2_0_row(x: &[u32], out: &mut Vec<u8>)
    requires
        x@.len() % 128 == 0,
    ensures
        final(out)@.len() == old(out)@.len() + x@.len() / 128 * 34,
        final(out)@.take(old(out)@.len() as int) == old(out)@,
        row_holds(final(out)@, old(out)@.len() as int, x@, x@.len() as int / 128),
{
    let size: usize = x.len();
    let n: usize = size / 128;
    let ghost base = out@.len() as int;
    let ghost first = out@;
    let mut k: usize = 0;
    assert(out@.take(base) =~= first);
    while k < n
        invariant
            k <= n,
            n == size / 128,
            size == x@.len(),
            base == first.len(),
            out@.len() == base + 34 * k,
            out@.take(base) == first,
            row_holds(out@, base, x@, k as int),
        decreases n - k,
    {
        let ghost before = out@;
        push_block(x, 128 * k, out);
        proof {
            assert(out@.take(base) =~= out@.take(before.len() as int).take(base));
            assert forall|i: int| 0 <= i < k + 1 implies #[trigger] block_holds(
                out@,
                base + 34 * i,
                x@,
                128 * i,
            ) by {
                if i < k {
                    assert(block_holds(before, base + 34 * i, x@, 128 * i));
                    lemma_block_kept(before, out@, base + 34 * i, x@, 128 * i);
                }
            }
        }
        k += 1;
    }
}

/// What follows a block does not change it.
pub proof fn lemma_block_kept(a: Seq<u8>, b: Seq<u8>, base: int, x: Seq<u32>, off: int)
    requires
        0 <= base,
        base + 34 <= a.len() <= b.len(),
        b.take(a.len() as int) == a,
        block_holds(a, base, x, off),
    ensures
        block_holds(b, base, x, off),
{
    assert forall|i: int| 0 <= i < a.len() implies a[i] == b[i] by {
        assert(b.take(a.len() as int)[i] == b[i]);
    }
    let m = largest(x, off, 128);
    assert forall|j: int| 0 <= j < 128 implies #[trigger] gguf::pq2_code(b, base, j) == block_code(
        m,
        x[off + j],
    ) by {
        assert(gguf::pq2_code(a, base, j) == block_code(m, x[off + j]));
    }
}

/// A quantized value decodes to the scale, to nothing or to minus the scale: no code of a
/// quantized row is the fourth one.
pub proof fn law_quantized_is_ternary(b: Seq<u8>, base: int, x: Seq<u32>, off: int, j: int)
    requires
        block_holds(b, base, x, off),
        0 <= j < 128,
    ensures
        0 <= gguf::pq2_code(b, base, j) <= 2,
{
    assert(gguf::pq2_code(b, base, j) == block_code(largest(x, off, 128), x[off + j]));
}

// ---- the sidecar ------------------------------------------------------------------------------

/// A sidecar, and the target model for the tensors that the sidecar shares with it.
pub struct Dspark<'a> {
    pub cfg: DsparkCfg,
    pub gguf: GGUF<'a>,
    pub shared: Option<(GGUF<'a>, Vec<String>)>,
}

/// The texts among the first `k` items.
pub open spec fn names_in(items: Seq<ValueV>, k: int) -> Seq<Seq<char>>
    decreases k,
{
    if k <= 0 {
        Seq::empty()
    } else {
        match items[k - 1] {
            ValueV::Str(s) => names_in(items, k - 1).push(s),
            _ => names_in(items, k - 1),
        }
    }
}

/// The tensors that a sidecar leaves to the target.
pub open spec fn shared_names(m: Seq<Entry>) -> Seq<Seq<char>> {
    match gguf::lookup(m, "dspark.shared_tensors"@) {
        Some(ValueV::Array { items, .. }) => names_in(items, items.len() as int),
        _ => Seq::empty(),
    }
}

pub open spec fn names_view(s: Seq<String>) -> Seq<Seq<char>> {
    Seq::new(s.len(), |i: int| s[i]@)
}

fn read_names(items: &Vec<Value>) -> (r: Vec<String>)
    ensures
        names_view(r@) == names_in(gguf::values_view(items@), items@.len() as int),
{
    let ghost all = gguf::values_view(items@);
    let n: usize = items.len();
    let mut out: Vec<String> = Vec::new();
    let mut k: usize = 0;
    assert(names_view(out@) =~= Seq::<Seq<char>>::empty());
    while k < n
        invariant
            k <= n,
            n == items@.len(),
            all == gguf::values_view(items@),
            names_view(out@) == names_in(all, k as int),
        decreases n - k,
    {
        assert(all[k as int] == items@[k as int]@);
        let ghost before = out@;
        if let Value::Str(s) = &items[k] {
            let c: String = s.as_str().to_owned();
            out.push(c);
            assert(names_view(out@) =~= names_view(before).push(c@));
        }
        k += 1;
    }
    out
}

/// Opening a sidecar gives `r`.
pub open spec fn opens(
    path: Seq<char>,
    map: Seq<u8>,
    target: Option<Seq<u8>>,
    r: Result<Dspark, String>,
) -> bool {
    match gguf::header_of(map) {
        Err(e) => r matches Err(m) && m@ == e,
        Ok(h) => match cfg_error(h.meta) {
            Some(e) => r matches Err(m) && m@ == e,
            None => {
                let names = shared_names(h.meta);
                if names.len() == 0 {
                    r matches Ok(d) && cfg_reads(h.meta, d.cfg) && opened(d.gguf, map, h)
                        && d.shared is None
                } else {
                    match target {
                        None => r matches Err(m) && m@ == path
                            + ": needs the target model to resolve "@ + text::decimal(
                            names.len(),
                        ) + " shared tensor(s); pass --model <target.gguf>"@,
                        Some(t) => match gguf::header_of(t) {
                            Err(e) => r matches Err(m) && m@ == e,
                            Ok(th) => r matches Ok(d) && cfg_reads(h.meta, d.cfg) && opened(
                                d.gguf,
                                map,
                                h,
                            ) && (d.shared matches Some(s) && opened(s.0, t, th) && names_view(
                                s.1@,
                            ) == names),
                        },
                    }
                }
            },
        },
    }
}

/// A container that was read from a file with the given header.
pub open spec fn opened(g: GGUF, map: Seq<u8>, h: gguf::HeaderV) -> bool {
    &&& g.header(h.end) == h
    &&& g.data_start == gguf::aligned(h.end, 32)
    &&& g.file() == map
}

/// The sizes of a container's tensors are representable, and so is where each ends.
pub open spec fn measured(g: GGUF) -> bool {
    forall|i: int|
        0 <= i < g.tensors@.len() ==> (#[trigger] g.tensors@[i])@.fits() && g.data_start
            + g.tensors@[i].offset + g.tensors@[i]@.nbytes() <= usize::MAX
}

/// Where a tensor is found: its place in the sidecar, or in the target where it is shared.
pub open spec fn found(d: Dspark, name: Seq<char>) -> Option<(bool, int)> {
    match gdev_open::first_named(gguf::tensors_view(d.gguf.tensors@), name, 0) {
        Some(i) => Some((false, i)),
        None => match d.shared {
            Some(s) => if names_view(s.1@).contains(name) {
                match gdev_open::first_named(gguf::tensors_view(s.0.tensors@), name, 0) {
                    Some(i) => Some((true, i)),
                    None => None,
                }
            } else {
                None
            },
            None => None,
        },
    }
}

pub open spec fn missing(name: Seq<char>) -> Seq<char> {
    "dspark: tensor '"@ + name + "' missing"@
}

fn is_listed(names: &Vec<String>, name: &str) -> (r: bool)
    ensures
        r == names_view(names@).contains(name@),
{
    let mut i: usize = 0;
    while i < names.len()
        invariant
            i <= names@.len(),
            forall|k: int| 0 <= k < i ==> names_view(names@)[k] != name@,
        decreases names@.len() - i,
    {
        if text::same(names[i].as_str(), name) {
            assert(names_view(names@)[i as int] == name@);
            return true;
        }
        i += 1;
    }
    false
}

impl<'a> Dspark<'a> {
    /// Opens a sidecar; the target is needed where tensors are shared with it.
    pub fn open_with_target(path: &str, map: &'a [u8], target: Option<&'a [u8]>) -> (r: Result<
        Dspark<'a>,
        String,
    >)
        requires
            map@.len() <= isize::MAX,
            target matches Some(t) ==> t@.len() <= isize::MAX,
        ensures
            opens(
                path@,
                map@,
                match target {
                    Some(t) => Some(t@),
                    None => None,
                },
                r,
            ),
    {
        let g: GGUF<'a> = match GGUF::open(map) {
            Ok(g) => g,
            Err(m) => return Err(m),
        };
        let cfg: DsparkCfg = match DsparkCfg::from_gguf(&g) {
            Ok(c) => c,
            Err(m) => return Err(m),
        };
        let names: Vec<String> = match g.get("dspark.shared_tensors") {
            Some(Value::Array { elem_type, items }) => {
                proof {
                    gguf::lemma_array_view(*elem_type, *items);
                }
                read_names(items)
            },
            _ => Vec::new(),
        };
        assert(names_view(names@) =~= shared_names(gguf::entries_view(g.meta@)));
        if names.len() == 0 {
            return Ok(Dspark { cfg, gguf: g, shared: None });
        }
        let t: &'a [u8] = match target {
            Some(t) => t,
            None => {
                let mut m = path.to_owned();
                m.append(": needs the target model to resolve ");
                text::push_decimal(&mut m, names.len() as u64);
                m.append(" shared tensor(s); pass --model <target.gguf>");
                return Err(m);
            },
        };
        let tg: GGUF<'a> = match GGUF::open(t) {
            Ok(g) => g,
            Err(m) => return Err(m),
        };
        Ok(Dspark { cfg, gguf: g, shared: Some((tg, names)) })
    }

    /// Both containers have representable sizes.
    pub open spec fn wf(&self) -> bool {
        measured(self.gguf) && (self.shared matches Some(s) ==> measured(s.0))
    }

    /// The container that holds a tensor.
    pub open spec fn owner(&self, target: bool) -> GGUF<'a> {
        if target {
            (self.shared->0).0
        } else {
            self.gguf
        }
    }

    /// The record of a tensor that was found.
    pub open spec fn record(&self, at: (bool, int)) -> TensorV {
        self.owner(at.0).tensors@[at.1]@
    }

    /// Finds a tensor: in the sidecar first, then in the target where it is shared.
    pub fn resolve(&self, name: &str) -> (r: Result<(&GGUF<'a>, &TensorInfo), String>)
        ensures
            match r {
                Ok(x) => found(*self, name@) matches Some(at) && *x.0 == self.owner(at.0) && 0
                    <= at.1 < x.0.tensors@.len() && *x.1 == x.0.tensors@[at.1],
                Err(m) => found(*self, name@) is None && m@ == missing(name@),
            },
    {
        if let Some(i) = gdev_open::find_tensor(&self.gguf, name) {
            return Ok((&self.gguf, &self.gguf.tensors[i]));
        }
        if let Some(s) = &self.shared {
            if is_listed(&s.1, name) {
                if let Some(i) = gdev_open::find_tensor(&s.0, name) {
                    return Ok((&s.0, &s.0.tensors[i]));
                }
            }
        }
        let mut m = "dspark: tensor '".to_owned();
        m.append(name);
        m.append("' missing");
        Err(m)
    }

    /// The record of a tensor.
    pub fn tensor(&self, name: &str) -> (r: Result<TensorInfo, String>)
        ensures
            match r {
                Ok(t) => found(*self, name@) matches Some(at) && t@ == self.record(at),
                Err(m) => found(*self, name@) is None && m@ == missing(name@),
            },
    {
        match self.resolve(name) {
            Ok((_, t)) => Ok(t.copied()),
            Err(m) => Err(m),
        }
    }
}

/// Where a tensor's data begins in its file.
pub open spec fn data_at(g: GGUF, t: TensorV) -> int {
    g.data_start + t.offset
}

/// The bytes of a tensor.
pub open spec fn bytes_of(g: GGUF, t: TensorV) -> Seq<u8> {
    g.file().subrange(data_at(g, t), data_at(g, t) + t.nbytes())
}

/// Why a tensor's bytes cannot be had; nothing if they can.
pub open spec fn payload_error(d: Dspark, name: Seq<char>) -> Option<Seq<char>> {
    match found(d, name) {
        None => Some(missing(name)),
        Some(at) => {
            let g = d.owner(at.0);
            let t = d.record(at);
            if data_at(g, t) + t.nbytes() > g.file().len() {
                Some(
                    gguf::slice_error(data_at(g, t) as nat, t.nbytes(), g.file().len()),
                )
            } else {
                None
            }
        },
    }
}

/// A tensor's columns.
pub open spec fn columns(t: TensorV) -> int {
    if t.dims.len() > 0 {
        t.dims[0] as int
    } else {
        0
    }
}

/// A tensor's rows.
pub open spec fn rows(t: TensorV) -> int {
    gguf::product(t.dims) as int / if columns(t) > 1 {
        columns(t)
    } else {
        1
    }
}

pub(crate) fn columns_of(t: &TensorInfo) -> (r: u64)
    ensures
        r == columns(t@),
{
    if t.dims.len() > 0 {
        t.dims[0]
    } else {
        0
    }
}

pub(crate) fn rows_of(t: &TensorInfo) -> (r: u64)
    requires
        t@.fits(),
    ensures
        r == rows(t@),
{
    let n: u64 = columns_of(t);
    let e: u64 = t.n_elem();
    assert(rows(t@) == e as int / if n > 1 {
        n as int
    } else {
        1
    });
    if n > 1 {
        e / n
    } else {
        e
    }
}

/// A tensor's bytes are whole rows.
pub open spec fn in_rows(t: TensorV) -> bool {
    &&& columns(t) <= usize::MAX
    &&& rows(t) <= usize::MAX
    &&& row_size(t.ty, columns(t)) <= usize::MAX
    &&& rows(t) * row_size(t.ty, columns(t)) <= t.nbytes()
}

fn unsupported_tensor<T>(name: &str, ty: u32) -> (r: Result<T, String>)
    ensures
        r matches Err(m) && m@ == "dspark "@ + name@ + ": unsupported type "@ + text::decimal(
            ty as nat,
        ),
{
    let mut m = "dspark ".to_owned();
    m.append(name);
    m.append(": unsupported type ");
    text::push_decimal(&mut m, ty as u64);
    Err(m)
}

impl<'a> Dspark<'a> {
    /// The bytes of a tensor, and its record.
    pub fn payload(&self, name: &str) -> (r: Result<(&'a [u8], &TensorInfo), String>)
        requires
            self.wf(),
        ensures
            match r {
                Ok(x) => payload_error(*self, name@) is None && (found(*self, name@) matches Some(
                    at,
                ) && x.1@ == self.record(at) && x.0@ == bytes_of(
                    self.owner(at.0),
                    self.record(at),
                )) && x.1@.fits(),
                Err(m) => payload_error(*self, name@) == Some(m@),
            },
    {
        let (g, t) = match self.resolve(name) {
            Ok(x) => x,
            Err(m) => return Err(m),
        };
        proof {
            let at = found(*self, name@)->0;
            assert(g.tensors@[at.1]@.fits());
            assert(gguf::product_fits(t.dims@)) by {
                assert(t@.fits());
            }
        }
        match g.payload_slice(t) {
            Ok(p) => Ok((p, t)),
            Err(m) => Err(m),
        }
    }

    /// One row of a tensor.
    pub fn row_f32(&self, name: &str, row: u64) -> (r: Result<Vec<u32>, String>)
        requires
            self.wf(),
            found(*self, name@) matches Some(at) ==> in_rows(self.record(at)) && (row + 1)
                * row_size(self.record(at).ty, columns(self.record(at))) <= usize::MAX,
        ensures
            match payload_error(*self, name@) {
                Some(e) => r matches Err(m) && m@ == e,
                None => {
                    let at = found(*self, name@)->0;
                    let t = self.record(at);
                    let b = bytes_of(self.owner(at.0), t);
                    let w = row_size(t.ty, columns(t));
                    if !supported(t.ty) {
                        r matches Err(m) && m@ == "dspark "@ + name@ + ": unsupported type "@
                            + text::decimal(t.ty as nat)
                    } else if row * w + w > b.len() {
                        r matches Err(m) && m@ == "dspark "@ + name@ + ": row "@ + text::decimal(
                            row as nat,
                        ) + " out of range"@
                    } else {
                        r matches Ok(v) && v@ == row_of(t.ty, b, row * w, columns(t))
                    }
                },
            },
    {
        let (p, t) = match self.payload(name) {
            Ok(x) => x,
            Err(m) => return Err(m),
        };
        if !type_supported(t.ty) {
            return unsupported_tensor(name, t.ty);
        }
        let ne0: usize = columns_of(t) as usize;
        let ghost w = row_size(t.ty, ne0 as int);
        proof {
            let r = row as int;
            lemma_row_size(t.ty, ne0 as int);
            assert((r + 1) * w == r * w + w && 0 <= r * w) by (nonlinear_arith)
                requires
                    r >= 0,
                    w >= 0,
            ;
            assert(w > 0 ==> r <= r * w) by (nonlinear_arith)
                requires
                    r >= 0,
                    w >= 0,
            ;
            assert(w == 0 ==> r * w == 0) by (nonlinear_arith);
        }
        let rb: usize = row_bytes(t.ty, ne0);
        if rb == 0 {
            return Ok(Vec::new());
        }
        let start: usize = row as usize * rb;
        if start + rb > p.len() {
            let mut m = "dspark ".to_owned();
            m.append(name);
            m.append(": row ");
            text::push_decimal(&mut m, row);
            m.append(" out of range");
            return Err(m);
        }
        Ok(decode_row(t.ty, p, start, ne0))
    }
}

/// All rows of a tensor, one behind the other.
pub open spec fn all_rows(ty: u32, b: Seq<u8>, ne0: int, k: int) -> Seq<u32>
    decreases k,
{
    if k <= 0 {
        Seq::empty()
    } else {
        all_rows(ty, b, ne0, k - 1) + row_of(ty, b, (k - 1) * row_size(ty, ne0), ne0)
    }
}

/// A name's matrix, as products are taken with it.
pub open spec fn product_error(
    d: Dspark,
    name: Seq<char>,
    base: int,
    n: int,
    x_len: int,
    y_len: int,
) -> Option<Seq<char>> {
    match payload_error(d, name) {
        Some(e) => Some(e),
        None => {
            let t = d.record(found(d, name)->0);
            range_error(t.ty, t.nbytes() as int, columns(t), base, n, x_len, y_len)
        },
    }
}

impl<'a> Dspark<'a> {
    /// A whole tensor.
    pub fn read_f32(&self, name: &str) -> (r: Result<Vec<u32>, String>)
        requires
            self.wf(),
            found(*self, name@) matches Some(at) ==> in_rows(self.record(at)),
        ensures
            match payload_error(*self, name@) {
                Some(e) => r matches Err(m) && m@ == e,
                None => {
                    let at = found(*self, name@)->0;
                    let t = self.record(at);
                    let b = bytes_of(self.owner(at.0), t);
                    if !supported(t.ty) {
                        r matches Err(m) && m@ == "dspark "@ + name@ + ": unsupported type "@
                            + text::decimal(t.ty as nat)
                    } else {
                        r matches Ok(v) && v@ == all_rows(t.ty, b, columns(t), rows(t))
                    }
                },
            },
    {
        let (p, t) = match self.payload(name) {
            Ok(x) => x,
            Err(m) => return Err(m),
        };
        if !type_supported(t.ty) {
            return unsupported_tensor(name, t.ty);
        }
        let ne0: usize = columns_of(t) as usize;
        let n: usize = rows_of(t) as usize;
        let rb: usize = row_bytes(t.ty, ne0);
        let size: usize = p.len();
        let mut out: Vec<u32> = Vec::new();
        let mut k: usize = 0;
        while k < n
            invariant
                k <= n,
                rb == row_size(t.ty, ne0 as int),
                n * rb <= size,
                size == p@.len(),
                out@ == all_rows(t.ty, p@, ne0 as int, k as int),
            decreases n - k,
        {
            proof {
                dots::lemma_row_end(k as int, n as int, rb as int);
            }
            let mut row: Vec<u32> = decode_row(t.ty, p, k * rb, ne0);
            out.append(&mut row);
            k += 1;
        }
        Ok(out)
    }

    /// Multiplies rows of a named matrix by a vector.
    pub fn matvec_range(
        &self,
        name: &str,
        base_row: usize,
        n_rows: usize,
        x: &[u32],
        y: &mut Vec<u32>,
    ) -> (r: Result<(), String>)
        requires
            self.wf(),
            n_rows <= old(y)@.len(),
            base_row + n_rows <= usize::MAX,
            found(*self, name@) matches Some(at) ==> in_rows(self.record(at)) && (base_row + n_rows)
                * row_size(self.record(at).ty, columns(self.record(at))) <= usize::MAX,
        ensures
            kernels::says(
                r,
                product_error(
                    *self,
                    name@,
                    base_row as int,
                    n_rows as int,
                    x@.len() as int,
                    old(y)@.len() as int,
                ),
            ),
            r is Err ==> final(y)@ == old(y)@,
            r is Ok ==> ({
                let at = found(*self, name@)->0;
                let t = self.record(at);
                dots::filled(
                    old(y)@,
                    final(y)@,
                    n_rows as int,
                    |k: int|
                        kernel_product(
                            t.ty,
                            bytes_of(self.owner(at.0), t),
                            columns(t),
                            base_row + k,
                            x@,
                        ),
                )
            }),
    {
        let (p, t) = match self.payload(name) {
            Ok(x) => x,
            Err(m) => return Err(m),
        };
        let ne0: usize = columns_of(t) as usize;
        matvec_par(t.ty, p, ne0, base_row, n_rows, x, y)
    }

    /// Multiplies a whole named matrix by a vector, row by row in the plain way.
    pub fn matvec(&self, name: &str, x: &[u32]) -> (r: Result<Vec<u32>, String>)
        requires
            self.wf(),
            found(*self, name@) matches Some(at) ==> in_rows(self.record(at)),
        ensures
            match payload_error(*self, name@) {
                Some(e) => r matches Err(m) && m@ == e,
                None => {
                    let at = found(*self, name@)->0;
                    let t = self.record(at);
                    let n = rows(t);
                    let b = bytes_of(self.owner(at.0), t);
                    match matvec_error(t.ty, b.len() as int, columns(t), x@.len() as int, n) {
                        Some(e) => r matches Err(m) && m@ == e,
                        None => r matches Ok(y) && y@ == Seq::new(
                            n as nat,
                            |k: int| row_product(t.ty, b, columns(t), k, x@),
                        ),
                    }
                },
            },
    {
        let (b, _) = match self.payload(name) {
            Ok(x) => x,
            Err(m) => return Err(m),
        };
        let (_, t) = match self.resolve(name) {
            Ok(x) => x,
            Err(m) => return Err(m),
        };
        let ghost at = found(*self, name@)->0;
        proof {
            assert(self.owner(at.0).tensors@[at.1]@.fits());
            assert(t@.nbytes() <= usize::MAX);
        }
        let n: usize = rows_of(t) as usize;
        let ne0: usize = columns_of(t) as usize;
        let mut y: Vec<u32> = zeros(n);
        match matvec_scalar(t.ty, b, ne0, x, &mut y) {
            Ok(_) => {
                assert(y@ =~= Seq::new(
                    n as nat,
                    |k: int| row_product(t.ty, b@, columns(t@), k, x@),
                ));
                Ok(y)
            },
            Err(m) => Err(m),
        }
    }

    /// Multiplies a whole named matrix by a vector.
    pub fn matvec2(&self, name: &str, x: &[u32]) -> (r: Result<Vec<u32>, String>)
        requires
            self.wf(),
            found(*self, name@) matches Some(at) ==> in_rows(self.record(at)),
        ensures
            match found(*self, name@) {
                None => r matches Err(m) && m@ == missing(name@),
                Some(at) => {
                    let t = self.record(at);
                    let n = rows(t);
                    match product_error(*self, name@, 0, n, x@.len() as int, n) {
                        Some(e) => r matches Err(m) && m@ == e,
                        None => r matches Ok(y) && y@ == Seq::new(
                            n as nat,
                            |k: int|
                                kernel_product(
                                    t.ty,
                                    bytes_of(self.owner(at.0), t),
                                    columns(t),
                                    k,
                                    x@,
                                ),
                        ),
                    }
                },
            },
    {
        let (g, t) = match self.resolve(name) {
            Ok(x) => x,
            Err(m) => return Err(m),
        };
        let ghost at = found(*self, name@)->0;
        proof {
            assert(self.owner(at.0).tensors@[at.1]@.fits());
        }
        let n: usize = rows_of(t) as usize;
        let mut y: Vec<u32> = zeros(n);
        proof {
            let w = row_size(t.ty, columns(t@));
            assert(t@.nbytes() <= usize::MAX);
            assert((0 + n) * w == n * w) by (nonlinear_arith);
        }
        match self.matvec_range(name, 0, n, x, &mut y) {
            Ok(_) => {
                assert(y@ =~= Seq::new(
                    n as nat,
                    |k: int|
                        kernel_product(
                            t.ty,
                            bytes_of(self.owner(at.0), t@),
                            columns(t@),
                            k,
                            x@,
                        ),
                ));
                Ok(y)
            },
            Err(m) => Err(m),
        }
    }

    /// Checks that features are so many for each token.
    pub fn check_features(&self, len: usize, n_tok: usize) -> (r: Result<(), String>)
        requires
            self.cfg.target_layers@.len() * self.cfg.n_embd <= usize::MAX,
        ensures
            ({
                let n = self.cfg.target_layers@.len() * self.cfg.n_embd;
                kernels::says(
                    r,
                    if len != n_tok * n {
                        Some(
                            "dspark encode: features len "@ + text::decimal(len as nat) + " != "@
                                + text::decimal(n_tok as nat) + " * "@ + text::decimal(n as nat),
                        )
                    } else {
                        None
                    },
                )
            }),
    {
        let n: usize = self.cfg.n_embd_enc();
        let right: bool = match n_tok.checked_mul(n) {
            Some(v) => v == len,
            None => false,
        };
        if !right {
            let mut m = "dspark encode: features len ".to_owned();
            text::push_decimal(&mut m, len as u64);
            m.append(" != ");
            text::push_decimal(&mut m, n_tok as u64);
            m.append(" * ");
            text::push_decimal(&mut m, n as u64);
            return Err(m);
        }
        Ok(())
    }
}

/// Why a named matrix cannot be multiplied by several columns; nothing if it can.
pub open spec fn multi_error(
    d: Dspark,
    name: Seq<char>,
    n_tok: int,
    x_len: int,
    y_len: int,
) -> Option<Seq<char>> {
    match payload_error(d, name) {
        Some(e) => Some(e),
        None => {
            let t = d.record(found(d, name)->0);
            let ne0 = columns(t);
            let n = rows(t);
            let size = t.nbytes() as int;
            if x_len != n_tok * ne0 || y_len < n_tok * n {
                Some("matvec_multi "@ + name + ": shape mismatch"@)
            } else if t.ty == TYPE_PQ2_0 {
                kernels::matmul_error(size, ne0, 0, n, n_tok, x_len, y_len)
            } else if n_tok == 0 {
                None
            } else {
                range_error(t.ty, size, ne0, 0, n, ne0, n)
            }
        },
    }
}

fn zeros(n: usize) -> (r: Vec<u32>)
    ensures
        r@.len() == n,
{
    let mut v: Vec<u32> = Vec::new();
    let mut i: usize = 0;
    while i < n
        invariant
            i <= n,
            v@.len() == i,
        decreases n - i,
    {
        v.push(0);
        i += 1;
    }
    v
}

/// Puts the products of one column into its place in `y`.
fn put_column(y: &mut Vec<u32>, t: usize, row: &Vec<u32>, Ghost(n_tok): Ghost<int>)
    requires
        0 <= t < n_tok,
        n_tok * row@.len() <= old(y)@.len(),
    ensures
        final(y)@.len() == old(y)@.len(),
        forall|k: int|
            0 <= k < row@.len() ==> final(y)@[#[trigger] dots::place(
                t as int,
                row@.len() as int,
                k,
            )] == row@[k],
        forall|p: int|
            0 <= p < final(y)@.len() && !(t * row@.len() <= p < t * row@.len() + row@.len())
                ==> #[trigger] final(y)@[p] == old(y)@[p],
{
    let n: usize = row.len();
    let size: usize = y.len();
    proof {
        dots::lemma_row_end(t as int, n_tok, n as int);
    }
    let at: usize = t * n;
    let mut k: usize = 0;
    while k < n
        invariant
            k <= n,
            n == row@.len(),
            at == t * n,
            at + n <= size,
            size == y@.len(),
            y@.len() == old(y)@.len(),
            forall|i: int| 0 <= i < k ==> y@[at + i] == #[trigger] row@[i],
            forall|p: int|
                0 <= p < y@.len() && !(at <= p < at + k) ==> #[trigger] y@[p] == old(y)@[p],
        decreases n - k,
    {
        y.set(at + k, row[k]);
        k += 1;
    }
    assert forall|k: int| 0 <= k < n implies y@[#[trigger] dots::place(t as int, n as int, k)]
        == row@[k] by {
        assert(y@[at + k] == row@[k]);
    }
}

impl<'a> Dspark<'a> {
    /// Multiplies a whole named matrix by several columns.
    pub fn matvec_multi(&self, name: &str, xmat: &[u32], n_tok: usize, y: &mut Vec<u32>) -> (r:
        Result<(), String>)
        requires
            self.wf(),
            found(*self, name@) matches Some(at) ==> in_rows(self.record(at)),
        ensures
            kernels::says(
                r,
                multi_error(
                    *self,
                    name@,
                    n_tok as int,
                    xmat@.len() as int,
                    old(y)@.len() as int,
                ),
            ),
            r is Err ==> final(y)@ == old(y)@,
            r is Ok ==> ({
                let at = found(*self, name@)->0;
                let t = self.record(at);
                dots::multiplied(
                    old(y)@,
                    final(y)@,
                    n_tok as int,
                    rows(t),
                    |i: int, k: int|
                        kernel_product(
                            t.ty,
                            bytes_of(self.owner(at.0), t),
                            columns(t),
                            k,
                            dots::column(xmat@, i, columns(t)),
                        ),
                )
            }),
    {
        let (p, t) = match self.payload(name) {
            Ok(x) => x,
            Err(m) => return Err(m),
        };
        let ne0: usize = columns_of(t) as usize;
        let n: usize = rows_of(t) as usize;
        let x_len: usize = xmat.len();
        let y_len: usize = y.len();
        let wide: bool = match n_tok.checked_mul(ne0) {
            Some(v) => v == x_len,
            None => false,
        };
        let deep: bool = match n_tok.checked_mul(n) {
            Some(v) => v <= y_len,
            None => false,
        };
        if !wide || !deep {
            let mut m = "matvec_multi ".to_owned();
            m.append(name);
            m.append(": shape mismatch");
            return Err(m);
        }
        let p_len: usize = p.len();
        let ghost e = multi_error(
            *self,
            name@,
            n_tok as int,
            xmat@.len() as int,
            old(y)@.len() as int,
        );
        let ghost f = |i: int, k: int|
            kernel_product(t.ty, p@, ne0 as int, k, dots::column(xmat@, i, ne0 as int));
        if t.ty == TYPE_PQ2_0 {
            proof {
                let g = |i: int, k: int|
                    dots::pq2_row(p@, ne0 as int, 0 + k, dots::column(xmat@, i, ne0 as int));
                assert(f =~= g);
            }
            return dots::pq2_matmul_n(p, ne0, 0, n, xmat, n_tok, y);
        }
        let mut i: usize = 0;
        while i < n_tok
            invariant
                i <= n_tok,
                t@.fits(),
                t.ty != TYPE_PQ2_0,
                ne0 == columns(t@),
                n == rows(t@),
                in_rows(t@),
                p_len == p@.len(),
                p_len == t@.nbytes(),
                e == multi_error(
                    *self,
                    name@,
                    n_tok as int,
                    xmat@.len() as int,
                    old(y)@.len() as int,
                ),
                n_tok > 0 ==> e == range_error(
                    t.ty,
                    p_len as int,
                    ne0 as int,
                    0,
                    n as int,
                    ne0 as int,
                    n as int,
                ),
                x_len == xmat@.len(),
                x_len == n_tok * ne0,
                y_len == y@.len(),
                n_tok * n <= y_len,
                y@.len() == old(y)@.len(),
                i == 0 ==> y@ == old(y)@,
                i > 0 ==> range_error(
                    t.ty,
                    p@.len() as int,
                    ne0 as int,
                    0,
                    n as int,
                    ne0 as int,
                    n as int,
                ) is None,
                f == (|i: int, k: int|
                    kernel_product(t.ty, p@, ne0 as int, k, dots::column(xmat@, i, ne0 as int))),
                forall|s: int, k: int|
                    0 <= s < i && 0 <= k < n ==> y@[#[trigger] dots::place(s, n as int, k)] == f(
                        s,
                        k,
                    ),
                forall|q: int| n_tok * n <= q < y@.len() ==> #[trigger] y@[q] == old(y)@[q],
            decreases n_tok - i,
        {
            proof {
                dots::lemma_row_end(i as int, n_tok as int, ne0 as int);
                dots::lemma_row_end(i as int, n_tok as int, n as int);
                let (ii, nn) = (i as int, ne0 as int);
                assert((ii + 1) * nn == ii * nn + nn) by (nonlinear_arith);
                let w = row_size(t.ty, ne0 as int);
                assert((0 + n) * w == n * w) by (nonlinear_arith);
            }
            let from: usize = i * ne0;
            let xs: &[u32] = vstd::slice::slice_subrange(xmat, from, from + ne0);
            assert(xs@ =~= dots::column(xmat@, i as int, ne0 as int));
            let mut row: Vec<u32> = zeros(n);
            match matvec_par(t.ty, p, ne0, 0, n, xs, &mut row) {
                Ok(_) => {},
                Err(m) => return Err(m),
            }
            let ghost before = y@;
            put_column(y, i, &row, Ghost(n_tok as int));
            proof {
                assert forall|s: int, k: int| 0 <= s < i + 1 && 0 <= k < n implies y@[
                    #[trigger] dots::place(s, n as int, k)
                ] == f(s, k) by {
                    dots::lemma_place(s, n_tok as int, n as int, k);
                    if s < i {
                        dots::lemma_place(s, i as int, n as int, k);
                        assert(y@[dots::place(s, n as int, k)] == before[dots::place(
                            s,
                            n as int,
                            k,
                        )]);
                    } else {
                        assert(row@[k] == kernel_product(t.ty, p@, ne0 as int, 0 + k, xs@));
                    }
                }
            }
            i += 1;
        }
        Ok(())
    }
}

proof fn lemma_row_size(ty: u32, ne0: int)
    requires
        ne0 >= 0,
    ensures
        row_size(ty, ne0) >= 0,
        row_size(ty, ne0) == 0 ==> ne0 == 0,
{
}

} // verus!
