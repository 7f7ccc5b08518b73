//! The hyperparameters of the hybrid model.

use vstd::prelude::*;
use vstd::string::*;

use crate::dspark;
use crate::gguf;
use crate::gguf::{GGUF, Value, ValueV};
use crate::rope;
use crate::text;

verus! {

/// The hyperparameters. Real numbers are held as the bits of a single.
#[derive(Debug, Clone, Copy)]
pub struct Qwen35 {
    pub n_layer: usize,
    pub n_embd: usize,
    pub n_ff: usize,
    pub n_head: usize,
    pub n_head_kv: usize,
    pub n_embd_head: usize,
    pub n_ctx_train: usize,
    pub eps: u32,
    /// Every so many layers, one has full attention.
    pub interval: usize,
    pub n_rot: usize,
    pub sections: [i32; 4],
    pub freq_base: u32,
    pub ssm_conv_kernel: usize,
    pub ssm_state: usize,
    pub ssm_group_count: usize,
    pub ssm_dt_rank: usize,
    pub ssm_inner: usize,
}

/// The name of a tensor of layer `il`.
pub open spec fn blk_text(il: int, suffix: Seq<char>) -> Seq<char> {
    "blk."@ + text::decimal(il as nat) + "."@ + suffix
}

impl Qwen35 {
    /// There is a layer of each kind to count in.
    pub open spec fn wf(&self) -> bool {
        &&& self.interval >= 1
        &&& self.n_layer < usize::MAX
    }

    /// Layer `il` has full attention: it is the last of its group.
    pub open spec fn full(&self, il: int) -> bool {
        (il + 1) % (self.interval as int) == 0
    }

    pub fn is_full_attention(&self, il: usize) -> (r: bool)
        requires
            self.interval >= 1,
            il < usize::MAX,
        ensures
            r == self.full(il as int),
    {
        (il + 1) % self.interval == 0
    }

    pub fn is_recurrent(&self, il: usize) -> (r: bool)
        requires
            self.interval >= 1,
            il < usize::MAX,
        ensures
            r == !self.full(il as int),
    {
        !self.is_full_attention(il)
    }

    /// The name of a tensor of layer `il`.
    pub fn blk_name(&self, il: usize, suffix: &str) -> (r: String)
        ensures
            r@ == blk_text(il as int, suffix@),
    {
        let mut m = "blk.".to_owned();
        text::push_decimal(&mut m, il as u64);
        m.append(".");
        m.append(suffix);
        m
    }

    /// The width of the recurrent queries, and of the keys.
    pub fn ssm_key_dim(&self) -> (r: usize)
        requires
            self.ssm_group_count * self.ssm_state <= usize::MAX,
        ensures
            r == self.ssm_group_count * self.ssm_state,
    {
        self.ssm_group_count * self.ssm_state
    }

    /// The channels of the recurrent convolution: queries, keys and inner values.
    pub fn ssm_conv_channels(&self) -> (r: usize)
        requires
            2 * (self.ssm_group_count * self.ssm_state) + self.ssm_inner <= usize::MAX,
        ensures
            r == 2 * (self.ssm_group_count * self.ssm_state) + self.ssm_inner,
    {
        2 * self.ssm_key_dim() + self.ssm_inner
    }
}

// ---- a model's metadata -----------------------------------------------------------------------

/// Entries of metadata.
pub type Entries = Seq<(Seq<char>, ValueV)>;

/// The count under a key, if it fits the machine's word.
pub open spec fn count_at(m: Entries, key: Seq<char>) -> Option<int> {
    match gguf::lookup(m, key) {
        Some(v) => match v.as_u64() {
            Some(n) => if n <= usize::MAX {
                Some(n as int)
            } else {
                None
            },
            None => None,
        },
        None => None,
    }
}

fn count(g: &GGUF, key: &str) -> (r: Option<usize>)
    ensures
        match r {
            Some(n) => count_at(gguf::entries_view(g.meta@), key@) == Some(n as int),
            None => count_at(gguf::entries_view(g.meta@), key@) is None,
        },
{
    match g.get(key) {
        Some(v) => match v.as_u64() {
            Some(n) => if n <= usize::MAX as u64 {
                Some(n as usize)
            } else {
                None
            },
            None => None,
        },
        None => None,
    }
}

fn single_at(g: &GGUF, key: &str) -> (r: Option<u32>)
    ensures
        r == dspark::meta_f32(gguf::entries_view(g.meta@), key@),
{
    match g.get(key) {
        Some(v) => v.as_f32(),
        None => None,
    }
}

/// The sections of the rotation: four whole numbers.
pub open spec fn sections_at(m: Entries, key: Seq<char>) -> Option<[i32; 4]> {
    match gguf::lookup(m, key) {
        Some(ValueV::Array { items, .. }) => if items.len() == 4 && items[0] is I32 && items[1]
            is I32 && items[2] is I32 && items[3] is I32 {
            Some([items[0]->I32_0, items[1]->I32_0, items[2]->I32_0, items[3]->I32_0])
        } else {
            None
        },
        _ => None,
    }
}

fn whole(v: &Value) -> (r: Option<i32>)
    ensures
        match r {
            Some(n) => v@ == ValueV::I32(n),
            None => !(v@ is I32),
        },
{
    match v {
        Value::I32(n) => Some(*n),
        _ => None,
    }
}

fn sections(g: &GGUF, key: &str) -> (r: Option<[i32; 4]>)
    ensures
        r == sections_at(gguf::entries_view(g.meta@), key@),
{
    match g.get(key) {
        Some(Value::Array { elem_type, items }) => {
            proof {
                gguf::lemma_array_view(*elem_type, *items);
            }
            if items.len() != 4 {
                return None;
            }
            let ghost all = gguf::values_view(items@);
            assert(all[0] == items@[0]@ && all[1] == items@[1]@);
            assert(all[2] == items@[2]@ && all[3] == items@[3]@);
            match (whole(&items[0]), whole(&items[1]), whole(&items[2]), whole(&items[3])) {
                (Some(a), Some(b), Some(c), Some(d)) => {
                    let r: [i32; 4] = [a, b, c, d];
                    assert(r =~= [
                        all[0]->I32_0,
                        all[1]->I32_0,
                        all[2]->I32_0,
                        all[3]->I32_0,
                    ]);
                    Some(r)
                },
                _ => None,
            }
        },
        _ => None,
    }
}

/// What a configuration says is what the metadata says.
pub open spec fn cfg_reads(m: Entries, c: Qwen35) -> bool {
    &&& count_at(m, "qwen35.block_count"@) == Some(c.n_layer as int)
    &&& count_at(m, "qwen35.embedding_length"@) == Some(c.n_embd as int)
    &&& count_at(m, "qwen35.feed_forward_length"@) == Some(c.n_ff as int)
    &&& count_at(m, "qwen35.attention.head_count"@) == Some(c.n_head as int)
    &&& count_at(m, "qwen35.attention.head_count_kv"@) == Some(c.n_head_kv as int)
    &&& count_at(m, "qwen35.attention.key_length"@) == Some(c.n_embd_head as int)
    &&& count_at(m, "qwen35.context_length"@) == Some(c.n_ctx_train as int)
    &&& count_at(m, "qwen35.full_attention_interval"@) == Some(c.interval as int)
    &&& count_at(m, "qwen35.rope.dimension_count"@) == Some(c.n_rot as int)
    &&& count_at(m, "qwen35.ssm.conv_kernel"@) == Some(c.ssm_conv_kernel as int)
    &&& count_at(m, "qwen35.ssm.state_size"@) == Some(c.ssm_state as int)
    &&& count_at(m, "qwen35.ssm.group_count"@) == Some(c.ssm_group_count as int)
    &&& count_at(m, "qwen35.ssm.time_step_rank"@) == Some(c.ssm_dt_rank as int)
    &&& count_at(m, "qwen35.ssm.inner_size"@) == Some(c.ssm_inner as int)
    &&& dspark::meta_f32(m, "qwen35.attention.layer_norm_rms_epsilon"@) == Some(c.eps)
    &&& dspark::meta_f32(m, "qwen35.rope.freq_base"@) == Some(c.freq_base)
    &&& sections_at(m, "qwen35.rope.dimension_sections"@) == Some(c.sections)
}

/// A key that the configuration needs is missing, or its value is of no use.
pub open spec fn lacks(m: Entries) -> bool {
    ||| count_at(m, "qwen35.block_count"@) is None
    ||| count_at(m, "qwen35.embedding_length"@) is None
    ||| count_at(m, "qwen35.feed_forward_length"@) is None
    ||| count_at(m, "qwen35.attention.head_count"@) is None
    ||| count_at(m, "qwen35.attention.head_count_kv"@) is None
    ||| count_at(m, "qwen35.attention.key_length"@) is None
    ||| count_at(m, "qwen35.context_length"@) is None
    ||| count_at(m, "qwen35.full_attention_interval"@) is None
    ||| count_at(m, "qwen35.rope.dimension_count"@) is None
    ||| count_at(m, "qwen35.ssm.conv_kernel"@) is None
    ||| count_at(m, "qwen35.ssm.state_size"@) is None
    ||| count_at(m, "qwen35.ssm.group_count"@) is None
    ||| count_at(m, "qwen35.ssm.time_step_rank"@) is None
    ||| count_at(m, "qwen35.ssm.inner_size"@) is None
    ||| dspark::meta_f32(m, "qwen35.attention.layer_norm_rms_epsilon"@) is None
    ||| dspark::meta_f32(m, "qwen35.rope.freq_base"@) is None
    ||| sections_at(m, "qwen35.rope.dimension_sections"@) is None
}

impl Qwen35 {
    /// Reads the configuration from a model's metadata.
    pub fn from_gguf(g: &GGUF) -> (r: Option<Qwen35>)
        ensures
            match r {
                Some(c) => cfg_reads(gguf::entries_view(g.meta@), c),
                None => lacks(gguf::entries_view(g.meta@)),
            },
    {
        let n_layer: usize = match count(g, "qwen35.block_count") {
            Some(v) => v,
            None => return None,
        };
        let n_embd: usize = match count(g, "qwen35.embedding_length") {
            Some(v) => v,
            None => return None,
        };
        let n_ff: usize = match count(g, "qwen35.feed_forward_length") {
            Some(v) => v,
            None => return None,
        };
        let n_head: usize = match count(g, "qwen35.attention.head_count") {
            Some(v) => v,
            None => return None,
        };
        let n_head_kv: usize = match count(g, "qwen35.attention.head_count_kv") {
            Some(v) => v,
            None => return None,
        };
        let n_embd_head: usize = match count(g, "qwen35.attention.key_length") {
            Some(v) => v,
            None => return None,
        };
        let n_ctx_train: usize = match count(g, "qwen35.context_length") {
            Some(v) => v,
            None => return None,
        };
        let interval: usize = match count(g, "qwen35.full_attention_interval") {
            Some(v) => v,
            None => return None,
        };
        let n_rot: usize = match count(g, "qwen35.rope.dimension_count") {
            Some(v) => v,
            None => return None,
        };
        let ssm_conv_kernel: usize = match count(g, "qwen35.ssm.conv_kernel") {
            Some(v) => v,
            None => return None,
        };
        let ssm_state: usize = match count(g, "qwen35.ssm.state_size") {
            Some(v) => v,
            None => return None,
        };
        let ssm_group_count: usize = match count(g, "qwen35.ssm.group_count") {
            Some(v) => v,
            None => return None,
        };
        let ssm_dt_rank: usize = match count(g, "qwen35.ssm.time_step_rank") {
            Some(v) => v,
            None => return None,
        };
        let ssm_inner: usize = match count(g, "qwen35.ssm.inner_size") {
            Some(v) => v,
            None => return None,
        };
        let eps: u32 = match single_at(g, "qwen35.attention.layer_norm_rms_epsilon") {
            Some(v) => v,
            None => return None,
        };
        let freq_base: u32 = match single_at(g, "qwen35.rope.freq_base") {
            Some(v) => v,
            None => return None,
        };
        let sections: [i32; 4] = match sections(g, "qwen35.rope.dimension_sections") {
            Some(v) => v,
            None => return None,
        };
        Some(
            Qwen35 {
                n_layer,
                n_embd,
                n_ff,
                n_head,
                n_head_kv,
                n_embd_head,
                n_ctx_train,
                eps,
                interval,
                n_rot,
                sections,
                freq_base,
                ssm_conv_kernel,
                ssm_state,
                ssm_group_count,
                ssm_dt_rank,
                ssm_inner,
            },
        )
    }

    /// The channels of the recurrent convolution.
    pub open spec fn channels(&self) -> int {
        2 * (self.ssm_group_count * self.ssm_state) + self.ssm_inner
    }

    /// The heads share out evenly, the rotation fits a head, and every size fits the machine's
    /// word.
    pub open spec fn sized(&self) -> bool {
        &&& self.wf()
        &&& self.n_head_kv > 0
        &&& self.n_head > 0
        &&& self.n_head as int % self.n_head_kv as int == 0
        &&& self.n_embd_head > 0
        &&& 2 * (self.n_head * self.n_embd_head) <= usize::MAX
        &&& self.n_rot <= self.n_embd_head
        &&& 0 < rope::covered(self.sections) <= 0x7FFF_FFFF
        &&& self.ssm_conv_kernel > 0
        &&& self.ssm_state > 0
        &&& self.ssm_group_count > 0
        &&& self.ssm_state * self.ssm_state <= usize::MAX
        &&& self.ssm_dt_rank * (self.ssm_state * self.ssm_state) <= usize::MAX
        &&& self.ssm_inner == self.ssm_dt_rank * self.ssm_state
        &&& self.channels() <= usize::MAX
        &&& self.ssm_conv_kernel * self.channels() <= usize::MAX
    }

    /// Whether the sizes can be worked with.
    pub fn is_sized(&self) -> (r: bool)
        ensures
            r == self.sized(),
    {
        let heads: usize = match self.n_head.checked_mul(self.n_embd_head) {
            Some(v) => v,
            None => return false,
        };
        let side: usize = match self.ssm_state.checked_mul(self.ssm_state) {
            Some(v) => v,
            None => return false,
        };
        let keys: usize = match self.ssm_group_count.checked_mul(self.ssm_state) {
            Some(v) => v,
            None => return false,
        };
        let inner: usize = match self.ssm_dt_rank.checked_mul(self.ssm_state) {
            Some(v) => v,
            None => return false,
        };
        if heads > usize::MAX / 2 || keys > usize::MAX / 2 {
            return false;
        }
        let channels: usize = match (2 * keys).checked_add(self.ssm_inner) {
            Some(v) => v,
            None => return false,
        };
        if self.ssm_conv_kernel.checked_mul(channels).is_none() {
            return false;
        }
        if self.ssm_dt_rank.checked_mul(side).is_none() {
            return false;
        }
        let bands: i64 = self.sections[0] as i64 + self.sections[1] as i64
            + self.sections[2] as i64 + self.sections[3] as i64;
        0 < bands && bands <= 0x7FFF_FFFF && self.interval >= 1 && self.n_layer < usize::MAX
            && self.n_head_kv > 0 && self.n_head > 0 && self.n_head % self.n_head_kv == 0
            && self.n_embd_head > 0 && self.n_rot <= self.n_embd_head && self.ssm_conv_kernel > 0
            && self.ssm_state > 0 && self.ssm_group_count > 0 && self.ssm_inner == inner
    }
}

} // verus!
