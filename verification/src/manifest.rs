//! The tensors that a drafter needs, and whether a sidecar has them.

use vstd::prelude::*;
use vstd::string::*;

use crate::dspark;
use crate::dspark::{Dspark, DsparkCfg};
use crate::gguf::TensorInfo;
use crate::text;

verus! {

/// A tensor that is needed.
#[derive(Debug)]
pub struct Expect {
    pub name: String,
    pub dims: Vec<u64>,
}

pub struct ExpectV {
    pub name: Seq<char>,
    pub dims: Seq<u64>,
}

impl View for Expect {
    type V = ExpectV;

    open spec fn view(&self) -> ExpectV {
        ExpectV { name: self.name@, dims: self.dims@ }
    }
}

pub open spec fn expects_view(s: Seq<Expect>) -> Seq<ExpectV> {
    Seq::new(s.len(), |i: int| s[i]@)
}

pub open spec fn vector(name: Seq<char>, n: int) -> ExpectV {
    ExpectV { name, dims: seq![n as u64] }
}

pub open spec fn matrix(name: Seq<char>, columns: int, rows: int) -> ExpectV {
    ExpectV { name, dims: seq![columns as u64, rows as u64] }
}

/// The sizes of the tensors can be counted.
pub open spec fn countable(c: DsparkCfg) -> bool {
    &&& c.target_layers@.len() * c.n_embd <= usize::MAX
    &&& c.n_head * c.head_dim <= usize::MAX
    &&& c.n_head_kv * c.head_dim <= usize::MAX
    &&& c.n_embd + c.markov_rank <= usize::MAX
}

/// The tensors outside the layers.
pub open spec fn common(c: DsparkCfg) -> Seq<ExpectV> {
    let ne = c.n_embd as int;
    let nv = c.n_vocab as int;
    let rank = c.markov_rank as int;
    seq![
        matrix("dspark.fc.weight"@, c.target_layers@.len() * c.n_embd, ne),
        vector("dspark.hidden_norm.weight"@, ne),
        matrix("token_embd.weight"@, ne, nv),
        matrix("output.weight"@, ne, nv),
        vector("output_norm.weight"@, ne),
        matrix("dspark.markov_head_a.weight"@, rank, nv),
        matrix("dspark.markov_head_b.weight"@, rank, nv),
        matrix("dspark.confidence_head.weight"@, ne + rank, 1),
        vector("dspark.confidence_head.bias"@, 1),
        matrix("dspark.log_snr_fc1.weight"@, 128, ne),
        vector("dspark.log_snr_fc1.bias"@, ne),
        matrix("dspark.log_snr_fc2.weight"@, ne, ne),
        vector("dspark.log_snr_fc2.bias"@, ne),
    ]
}

/// The name of a tensor of a layer.
pub open spec fn layer_name(il: int, suffix: Seq<char>) -> Seq<char> {
    "blk."@ + text::decimal(il as nat) + "."@ + suffix
}

/// The tensors of layer `il`.
pub open spec fn of_layer(c: DsparkCfg, il: int) -> Seq<ExpectV> {
    let ne = c.n_embd as int;
    let ff = c.n_ff as int;
    let q = c.n_head * c.head_dim;
    let kv = c.n_head_kv * c.head_dim;
    seq![
        vector(layer_name(il, "attn_norm.weight"@), ne),
        matrix(layer_name(il, "attn_q.weight"@), ne, q),
        matrix(layer_name(il, "attn_k.weight"@), ne, kv),
        matrix(layer_name(il, "attn_v.weight"@), ne, kv),
        matrix(layer_name(il, "attn_output.weight"@), q, ne),
        vector(layer_name(il, "attn_q_norm.weight"@), c.head_dim as int),
        vector(layer_name(il, "attn_k_norm.weight"@), c.head_dim as int),
        vector(layer_name(il, "ffn_norm.weight"@), ne),
        matrix(layer_name(il, "ffn_gate.weight"@), ne, ff),
        matrix(layer_name(il, "ffn_up.weight"@), ne, ff),
        matrix(layer_name(il, "ffn_down.weight"@), ff, ne),
    ]
}

/// The tensors outside the layers, and those of the first `n` layers.
pub open spec fn needed(c: DsparkCfg, n: int) -> Seq<ExpectV>
    decreases n,
{
    if n <= 0 {
        common(c)
    } else {
        needed(c, n - 1) + of_layer(c, n - 1)
    }
}

fn push_vector(out: &mut Vec<Expect>, name: String, n: usize)
    ensures
        expects_view(final(out)@) == expects_view(old(out)@).push(vector(name@, n as int)),
{
    let mut dims: Vec<u64> = Vec::new();
    dims.push(n as u64);
    assert(dims@ =~= seq![n as u64]);
    out.push(Expect { name, dims });
    assert(expects_view(out@) =~= expects_view(old(out)@).push(vector(name@, n as int)));
}

fn push_matrix(out: &mut Vec<Expect>, name: String, columns: usize, rows: usize)
    ensures
        expects_view(final(out)@) == expects_view(old(out)@).push(
            matrix(name@, columns as int, rows as int),
        ),
{
    let mut dims: Vec<u64> = Vec::new();
    dims.push(columns as u64);
    dims.push(rows as u64);
    assert(dims@ =~= seq![columns as u64, rows as u64]);
    out.push(Expect { name, dims });
    assert(expects_view(out@) =~= expects_view(old(out)@).push(
        matrix(name@, columns as int, rows as int),
    ));
}

fn name_in(il: usize, suffix: &str) -> (r: String)
    ensures
        r@ == layer_name(il as int, suffix@),
{
    let mut m = "blk.".to_owned();
    text::push_decimal(&mut m, il as u64);
    m.append(".");
    m.append(suffix);
    m
}

fn push_common(c: &DsparkCfg, out: &mut Vec<Expect>)
    requires
        countable(*c),
    ensures
        expects_view(final(out)@) == expects_view(old(out)@) + common(*c),
{
    let ne: usize = c.n_embd;
    let nv: usize = c.n_vocab;
    let rank: usize = c.markov_rank;
    push_matrix(out, "dspark.fc.weight".to_owned(), c.n_embd_enc(), ne);
    push_vector(out, "dspark.hidden_norm.weight".to_owned(), ne);
    push_matrix(out, "token_embd.weight".to_owned(), ne, nv);
    push_matrix(out, "output.weight".to_owned(), ne, nv);
    push_vector(out, "output_norm.weight".to_owned(), ne);
    push_matrix(out, "dspark.markov_head_a.weight".to_owned(), rank, nv);
    push_matrix(out, "dspark.markov_head_b.weight".to_owned(), rank, nv);
    push_matrix(out, "dspark.confidence_head.weight".to_owned(), ne + rank, 1);
    push_vector(out, "dspark.confidence_head.bias".to_owned(), 1);
    push_matrix(out, "dspark.log_snr_fc1.weight".to_owned(), 128, ne);
    push_vector(out, "dspark.log_snr_fc1.bias".to_owned(), ne);
    push_matrix(out, "dspark.log_snr_fc2.weight".to_owned(), ne, ne);
    push_vector(out, "dspark.log_snr_fc2.bias".to_owned(), ne);
    assert(expects_view(out@) =~= expects_view(old(out)@) + common(*c));
}

fn push_layer(c: &DsparkCfg, il: usize, out: &mut Vec<Expect>)
    requires
        countable(*c),
    ensures
        expects_view(final(out)@) == expects_view(old(out)@) + of_layer(*c, il as int),
{
    let ne: usize = c.n_embd;
    let ff: usize = c.n_ff;
    let q: usize = c.n_head * c.head_dim;
    let kv: usize = c.n_head_kv * c.head_dim;
    push_vector(out, name_in(il, "attn_norm.weight"), ne);
    push_matrix(out, name_in(il, "attn_q.weight"), ne, q);
    push_matrix(out, name_in(il, "attn_k.weight"), ne, kv);
    push_matrix(out, name_in(il, "attn_v.weight"), ne, kv);
    push_matrix(out, name_in(il, "attn_output.weight"), q, ne);
    push_vector(out, name_in(il, "attn_q_norm.weight"), c.head_dim);
    push_vector(out, name_in(il, "attn_k_norm.weight"), c.head_dim);
    push_vector(out, name_in(il, "ffn_norm.weight"), ne);
    push_matrix(out, name_in(il, "ffn_gate.weight"), ne, ff);
    push_matrix(out, name_in(il, "ffn_up.weight"), ne, ff);
    push_matrix(out, name_in(il, "ffn_down.weight"), ff, ne);
    assert(expects_view(out@) =~= expects_view(old(out)@) + of_layer(*c, il as int));
}

/// The tensors that a drafter of this configuration needs.
pub fn expected(c: &DsparkCfg) -> (r: Vec<Expect>)
    requires
        countable(*c),
    ensures
        expects_view(r@) == needed(*c, c.n_layer as int),
{
    let mut out: Vec<Expect> = Vec::new();
    push_common(c, &mut out);
    assert(expects_view(out@) =~= needed(*c, 0));
    let mut il: usize = 0;
    while il < c.n_layer
        invariant
            il <= c.n_layer,
            countable(*c),
            expects_view(out@) == needed(*c, il as int),
        decreases c.n_layer - il,
    {
        push_layer(c, il, &mut out);
        il += 1;
    }
    out
}

/// What is wrong with a tensor.
#[derive(Debug)]
pub enum Problem {
    /// It is not there.
    Missing(String),
    /// Its shape is not the one that is needed.
    Dims(Vec<u64>),
    /// Its type cannot be worked with.
    Type(u32),
}

pub enum ProblemV {
    Missing(Seq<char>),
    Dims(Seq<u64>),
    Type(u32),
}

impl View for Problem {
    type V = ProblemV;

    open spec fn view(&self) -> ProblemV {
        match self {
            Problem::Missing(m) => ProblemV::Missing(m@),
            Problem::Dims(d) => ProblemV::Dims(d@),
            Problem::Type(t) => ProblemV::Type(*t),
        }
    }
}

/// What is wrong with a tensor that is needed.
pub open spec fn problem_of(d: Dspark, e: ExpectV) -> Option<ProblemV> {
    match dspark::found(d, e.name) {
        None => Some(ProblemV::Missing(dspark::missing(e.name))),
        Some(at) => {
            let t = d.record(at);
            if t.dims != e.dims {
                Some(ProblemV::Dims(t.dims))
            } else if !dspark::supported(t.ty) {
                Some(ProblemV::Type(t.ty))
            } else {
                None
            }
        },
    }
}

fn same_dims(a: &Vec<u64>, b: &Vec<u64>) -> (r: bool)
    ensures
        r == (a@ == b@),
{
    let n: usize = a.len();
    if n != b.len() {
        return false;
    }
    let mut i: usize = 0;
    while i < n
        invariant
            i <= n,
            n == a@.len(),
            n == b@.len(),
            forall|k: int| 0 <= k < i ==> a@[k] == b@[k],
        decreases n - i,
    {
        if a[i] != b[i] {
            return false;
        }
        i += 1;
    }
    assert(a@ =~= b@);
    true
}

/// Tells what is wrong with a tensor that is needed, if anything is.
pub fn problem(d: &Dspark, e: &Expect) -> (r: Option<Problem>)
    ensures
        match r {
            Some(p) => problem_of(*d, e@) == Some(p@),
            None => problem_of(*d, e@) is None,
        },
{
    let t: TensorInfo = match d.tensor(e.name.as_str()) {
        Ok(t) => t,
        Err(m) => return Some(Problem::Missing(m)),
    };
    if !same_dims(&t.dims, &e.dims) {
        Some(Problem::Dims(t.dims))
    } else if !dspark::type_supported(t.ty) {
        Some(Problem::Type(t.ty))
    } else {
        None
    }
}

/// A sidecar without problems has every tensor of every layer, in its shape and in a type that
/// can be worked with.
pub proof fn law_layers_are_complete(d: Dspark, il: int)
    requires
        forall|i: int|
            0 <= i < needed(d.cfg, d.cfg.n_layer as int).len() ==> problem_of(
                d,
                #[trigger] needed(d.cfg, d.cfg.n_layer as int)[i],
            ) is None,
        0 <= il < d.cfg.n_layer,
    ensures
        forall|k: int|
            0 <= k < 11 ==> {
                let e = #[trigger] of_layer(d.cfg, il)[k];
                &&& dspark::found(d, e.name) matches Some(at)
                &&& d.record(at).dims == e.dims
                &&& dspark::supported(d.record(at).ty)
            },
{
    lemma_layer_is_needed(d.cfg, d.cfg.n_layer as int, il);
    let all = needed(d.cfg, d.cfg.n_layer as int);
    assert forall|k: int| 0 <= k < 11 implies {
        let e = #[trigger] of_layer(d.cfg, il)[k];
        &&& dspark::found(d, e.name) matches Some(at)
        &&& d.record(at).dims == e.dims
        &&& dspark::supported(d.record(at).ty)
    } by {
        assert(all[13 + 11 * il + k] == of_layer(d.cfg, il)[k]);
        assert(problem_of(d, all[13 + 11 * il + k]) is None);
    }
}

proof fn lemma_layer_is_needed(c: DsparkCfg, n: int, il: int)
    requires
        0 <= il < n,
    ensures
        needed(c, n).len() == 13 + 11 * n,
        forall|k: int|
            0 <= k < 11 ==> #[trigger] needed(c, n)[13 + 11 * il + k] == of_layer(c, il)[k],
    decreases n,
{
    lemma_needed_len(c, n - 1);
    if il < n - 1 {
        lemma_layer_is_needed(c, n - 1, il);
        assert forall|k: int| 0 <= k < 11 implies #[trigger] needed(c, n)[13 + 11 * il + k]
            == of_layer(c, il)[k] by {
            assert(needed(c, n)[13 + 11 * il + k] == needed(c, n - 1)[13 + 11 * il + k]);
        }
    }
}

proof fn lemma_needed_len(c: DsparkCfg, n: int)
    requires
        n >= 0,
    ensures
        needed(c, n).len() == 13 + 11 * n,
    decreases n,
{
    if n > 0 {
        lemma_needed_len(c, n - 1);
    }
}

} // verus!
