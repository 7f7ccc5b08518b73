//! The layers of a decoder, between the products with weights: what is normalized, turned,
//! convolved, kept and activated, and in which order.
//!
//! Powers of e, logarithms, cosines and sines come from outside; all numbers are singles in
//! their bit patterns.

use vstd::prelude::*;

use crate::config::Qwen35;
use crate::dots;
use crate::forward;
use crate::gdn;
use crate::norms;
use crate::rope;
use crate::sampler;
use crate::single;

verus! {

// ---- row by row -------------------------------------------------------------------------------

/// `f` of each row of `width` values, one behind the other.
pub open spec fn mapped(x: Seq<u32>, width: int, f: spec_fn(Seq<u32>) -> Seq<u32>) -> Seq<u32> {
    Seq::new(x.len(), |i: int| f(norms::row_at(x, i / width, width))[i % width])
}

/// What holds row by row holds of the whole.
proof fn lemma_mapped(
    x: Seq<u32>,
    out: Seq<u32>,
    width: int,
    n: int,
    f: spec_fn(Seq<u32>) -> Seq<u32>,
)
    requires
        width > 0,
        n >= 0,
        x.len() == n * width,
        norms::by_rows(x, out, width, n, f),
    ensures
        out == mapped(x, width, f),
{
    assert forall|i: int| 0 <= i < out.len() implies #[trigger] out[i] == mapped(x, width, f)[i] by {
        let t = i / width;
        vstd::arithmetic::div_mod::lemma_fundamental_div_mod(i, width);
        vstd::arithmetic::div_mod::lemma_mod_bound(i, width);
        assert(t < n) by (nonlinear_arith)
            requires
                i == width * t + i % width,
                0 <= i % width,
                i < n * width,
                width > 0,
        ;
        assert(t >= 0) by {
            vstd::arithmetic::div_mod::lemma_div_pos_is_pos(i, width);
        }
        dots::lemma_row_end(t, n, width);
        assert((t + 1) * width == t * width + width) by (nonlinear_arith);
        assert(width * t == t * width) by (nonlinear_arith);
        assert(norms::row_at(out, t, width)[i % width] == out[i]);
    }
    assert(out =~= mapped(x, width, f));
}

fn unit_rows(x: &[u32], width: usize, eps: u32) -> (r: Vec<u32>)
    requires
        width > 0,
        x@.len() % width as nat == 0,
    ensures
        r@ == mapped(x@, width as int, |s: Seq<u32>| norms::unit_row(s, eps)),
{
    let ghost n = x@.len() as int / width as int;
    proof {
        vstd::arithmetic::div_mod::lemma_fundamental_div_mod(x@.len() as int, width as int);
        vstd::arithmetic::mul::lemma_mul_is_commutative(width as int, n);
        vstd::arithmetic::div_mod::lemma_div_pos_is_pos(x@.len() as int, width as int);
    }
    match norms::l2_norm_rows(x, width, eps) {
        Ok(v) => {
            proof {
                lemma_mapped(
                    x@,
                    v@,
                    width as int,
                    n,
                    |s: Seq<u32>| norms::unit_row(s, eps),
                );
            }
            v
        },
        Err(_) => Vec::new(),
    }
}

fn normed_rows(x: &[u32], w: &[u32], eps: u32) -> (r: Vec<u32>)
    requires
        w@.len() > 0,
        x@.len() % w@.len() == 0,
    ensures
        r@ == mapped(x@, w@.len() as int, |s: Seq<u32>| norms::rms_normed(s, w@, eps)),
        r@.len() == x@.len(),
{
    let width: usize = w.len();
    let ghost n = x@.len() as int / width as int;
    proof {
        vstd::arithmetic::div_mod::lemma_fundamental_div_mod(x@.len() as int, width as int);
        vstd::arithmetic::mul::lemma_mul_is_commutative(width as int, n);
        vstd::arithmetic::div_mod::lemma_div_pos_is_pos(x@.len() as int, width as int);
    }
    match norms::rms_norm_rows(x, w, width, eps) {
        Ok(v) => {
            proof {
                lemma_mapped(
                    x@,
                    v@,
                    width as int,
                    n,
                    |s: Seq<u32>| norms::rms_normed(s, w@, eps),
                );
            }
            v
        },
        Err(_) => Vec::new(),
    }
}

// ---- heads of attention -----------------------------------------------------------------------

/// `b` holds the first `n` heads of `a`, each turned.
pub open spec fn heads_turned(
    a: Seq<u32>,
    b: Seq<u32>,
    n: int,
    hd: int,
    cos: Seq<u32>,
    sin: Seq<u32>,
) -> bool {
    &&& b.len() == n * hd
    &&& forall|h: int|
        0 <= h < n ==> rope::turned(
            dots::column(a, h, hd),
            #[trigger] dots::column(b, h, hd),
            cos.len() as int,
            cos,
            sin,
        )
}

/// Every head of `hd` values, turned.
pub open spec fn turned_heads(x: Seq<u32>, hd: int, cos: Seq<u32>, sin: Seq<u32>) -> Seq<u32> {
    let half = cos.len() as int;
    Seq::new(
        x.len(),
        |i: int|
            {
                let j = i % hd;
                if j < half {
                    rope::turned_first(x[i], x[i + half], cos[j], sin[j])
                } else if j < 2 * half {
                    rope::turned_second(x[i - half], x[i], cos[j - half], sin[j - half])
                } else {
                    x[i]
                }
            },
    )
}

/// What holds head by head holds of the whole.
proof fn lemma_turned_heads(a: Seq<u32>, b: Seq<u32>, n: int, hd: int, cos: Seq<u32>, sin: Seq<u32>)
    requires
        hd > 0,
        n >= 0,
        a.len() == n * hd,
        2 * cos.len() <= hd,
        heads_turned(a, b, n, hd, cos, sin),
    ensures
        b == turned_heads(a, hd, cos, sin),
{
    let half = cos.len() as int;
    assert forall|i: int| 0 <= i < b.len() implies #[trigger] b[i] == turned_heads(
        a,
        hd,
        cos,
        sin,
    )[i] by {
        let h = i / hd;
        let j = i % hd;
        vstd::arithmetic::div_mod::lemma_fundamental_div_mod(i, hd);
        vstd::arithmetic::div_mod::lemma_mod_bound(i, hd);
        vstd::arithmetic::div_mod::lemma_div_pos_is_pos(i, hd);
        assert(h < n) by (nonlinear_arith)
            requires
                i == hd * h + j,
                0 <= j,
                i < n * hd,
                hd > 0,
        ;
        dots::lemma_row_end(h, n, hd);
        assert((h + 1) * hd == h * hd + hd) by (nonlinear_arith);
        assert(hd * h == h * hd) by (nonlinear_arith);
        let x = dots::column(a, h, hd);
        let y = dots::column(b, h, hd);
        assert(y[j] == b[i]);
        assert(x[j] == a[i]);
        if j < half {
            assert(x[j + half] == a[i + half]);
        } else if j < 2 * half {
            assert(x[j - half] == a[i - half]);
        }
    }
    assert(b =~= turned_heads(a, hd, cos, sin));
}

/// Turns every head.
pub fn turn_heads(x: &[u32], n: usize, hd: usize, cos: &[u32], sin: &[u32]) -> (r: Vec<u32>)
    requires
        x@.len() == n * hd,
        cos@.len() == sin@.len(),
        2 * cos@.len() <= hd,
    ensures
        heads_turned(x@, r@, n as int, hd as int, cos@, sin@),
        hd > 0 ==> r@ == turned_heads(x@, hd as int, cos@, sin@),
{
    let size: usize = x.len();
    let mut out: Vec<u32> = Vec::new();
    let mut h: usize = 0;
    proof {
        let d = hd as int;
        assert(0 * d == 0) by (nonlinear_arith);
    }
    while h < n
        invariant
            h <= n,
            size == x@.len(),
            size == n * hd,
            cos@.len() == sin@.len(),
            2 * cos@.len() <= hd,
            heads_turned(x@, out@, h as int, hd as int, cos@, sin@),
        decreases n - h,
    {
        proof {
            dots::lemma_row_end(h as int, n as int, hd as int);
            let (a, b) = (h as int, hd as int);
            assert((a + 1) * b == a * b + b) by (nonlinear_arith);
        }
        let at: usize = h * hd;
        let mut head: Vec<u32> = vstd::slice::slice_to_vec(
            vstd::slice::slice_subrange(x, at, at + hd),
        );
        let ghost plain = head@;
        assert(plain =~= dots::column(x@, h as int, hd as int));
        rope::turn(&mut head, cos, sin);
        let ghost new = head@;
        let ghost had = out@;
        out.append(&mut head);
        proof {
            assert(out@ == had + new);
            assert forall|g: int| 0 <= g < h + 1 implies rope::turned(
                dots::column(x@, g, hd as int),
                #[trigger] dots::column(out@, g, hd as int),
                cos@.len() as int,
                cos@,
                sin@,
            ) by {
                let d = hd as int;
                assert((g + 1) * d == g * d + d) by (nonlinear_arith);
                if g < h {
                    dots::lemma_row_end(g, h as int, d);
                    assert(dots::column(out@, g, d) =~= dots::column(had, g, d));
                } else {
                    assert(dots::column(out@, g, d) =~= new);
                }
            }
        }
        h += 1;
    }
    proof {
        if hd > 0 {
            lemma_turned_heads(x@, out@, n as int, hd as int, cos@, sin@);
        }
    }
    out
}

/// Every head, normalized and turned.
pub open spec fn readied(
    x: Seq<u32>,
    w: Seq<u32>,
    eps: u32,
    cos: Seq<u32>,
    sin: Seq<u32>,
) -> Seq<u32> {
    turned_heads(
        mapped(x, w.len() as int, |s: Seq<u32>| norms::rms_normed(s, w, eps)),
        w.len() as int,
        cos,
        sin,
    )
}

/// Normalizes every head, then turns it: what becomes of the queries and of the keys.
pub fn ready_heads(
    x: &[u32],
    w: &[u32],
    n: usize,
    eps: u32,
    cos: &[u32],
    sin: &[u32],
) -> (r: Vec<u32>)
    requires
        w@.len() > 0,
        x@.len() == n * w@.len(),
        cos@.len() == sin@.len(),
        2 * cos@.len() <= w@.len(),
    ensures
        r@ == readied(x@, w@, eps, cos@, sin@),
        r@.len() == x@.len(),
{
    proof {
        let (a, b) = (n as int, w@.len() as int);
        assert(a * b == b * a) by (nonlinear_arith);
        vstd::arithmetic::div_mod::lemma_mod_multiples_basic(a, b);
    }
    let v: Vec<u32> = normed_rows(x, w, eps);
    turn_heads(v.as_slice(), n, w.len(), cos, sin)
}

// ---- the feed-forward layer -------------------------------------------------------------------

/// Gate values, activated, times the up projection.
pub open spec fn ffn_values(gate: Seq<u32>, powers: Seq<u32>, up: Seq<u32>) -> Seq<u32> {
    Seq::new(
        gate.len(),
        |i: int|
            single::product_of(norms::silu_of(gate[i], powers[i]), up[i]),
    )
}

/// The inner values of a feed-forward layer, given e raised to each negated gate.
pub fn ffn_inner(gate: &[u32], powers: &[u32], up: &[u32]) -> (r: Vec<u32>)
    requires
        gate@.len() <= powers@.len(),
        gate@.len() <= up@.len(),
    ensures
        r@ == ffn_values(gate@, powers@, up@),
{
    let n: usize = gate.len();
    let mut out: Vec<u32> = Vec::new();
    let mut i: usize = 0;
    while i < n
        invariant
            i <= n,
            n == gate@.len(),
            n <= powers@.len(),
            n <= up@.len(),
            out@ == ffn_values(gate@, powers@, up@).take(i as int),
        decreases n - i,
    {
        out.push(single::product(norms::silu(gate[i], powers[i]), up[i]));
        i += 1;
        assert(out@ =~= ffn_values(gate@, powers@, up@).take(i as int));
    }
    assert(out@ =~= ffn_values(gate@, powers@, up@));
    out
}

/// The feed-forward layer between its products, given e raised to each negated gate value.
/// Projections of other sizes are refused.
pub fn ffn_layer(cfg: &Qwen35, il: usize, gate: &[u32], powers: &[u32], up: &[u32]) -> (r: Result<
    Vec<u32>,
    String,
>)
    requires
        gate@.len() <= powers@.len(),
    ensures
        match r {
            Ok(v) => gate@.len() == cfg.n_ff && up@.len() == cfg.n_ff && v@ == ffn_values(
                gate@,
                powers@,
                up@,
            ),
            Err(m) => (gate@.len() != cfg.n_ff || up@.len() != cfg.n_ff) && m@
                == forward::ffn_rows_text(il as nat, gate@.len(), up@.len()),
        },
{
    forward::check_ffn_rows(cfg, il, gate.len(), up.len())?;
    Ok(ffn_inner(gate, powers, up))
}

// ---- the recurrent layer -----------------------------------------------------------------------

/// Values, activated: each over one plus e raised to its negation.
pub open spec fn activated(x: Seq<u32>, powers: Seq<u32>) -> Seq<u32> {
    Seq::new(
        x.len(),
        |i: int| norms::silu_of(x[i], powers[i]),
    )
}

/// Activates values, given e raised to each negated one.
pub fn activate(x: &[u32], powers: &[u32]) -> (r: Vec<u32>)
    requires
        x@.len() <= powers@.len(),
    ensures
        r@ == activated(x@, powers@),
{
    let n: usize = x.len();
    let mut out: Vec<u32> = Vec::new();
    let mut i: usize = 0;
    while i < n
        invariant
            i <= n,
            n == x@.len(),
            n <= powers@.len(),
            out@ == activated(x@, powers@).take(i as int),
        decreases n - i,
    {
        out.push(norms::silu(x[i], powers[i]));
        i += 1;
        assert(out@ =~= activated(x@, powers@).take(i as int));
    }
    assert(out@ =~= activated(x@, powers@));
    out
}

/// Sigmoids, given e raised to each negated argument.
pub open spec fn sigmoids(powers: Seq<u32>) -> Seq<u32> {
    Seq::new(
        powers.len(),
        |i: int| norms::sigmoid_of(powers[i]),
    )
}

/// The weights of the corrections, given e raised to each negated projection.
pub fn corrections(powers: &[u32]) -> (r: Vec<u32>)
    ensures
        r@ == sigmoids(powers@),
{
    let mut out: Vec<u32> = Vec::new();
    let mut i: usize = 0;
    while i < powers.len()
        invariant
            i <= powers@.len(),
            out@ == sigmoids(powers@).take(i as int),
        decreases powers@.len() - i,
    {
        out.push(norms::sigmoid(powers[i]));
        i += 1;
        assert(out@ =~= sigmoids(powers@).take(i as int));
    }
    assert(out@ =~= sigmoids(powers@));
    out
}

/// The logarithms of what the heads keep: the softplus of each sum, times the head's rate.
pub open spec fn log_keeps(sums: Seq<u32>, logs: Seq<u32>, rates: Seq<u32>) -> Seq<u32> {
    Seq::new(
        sums.len(),
        |i: int|
            single::product_of(norms::softplus_of(sums[i], logs[i]), rates[i]),
    )
}

/// The logarithms of what the heads keep. The sums are those of the projections and their
/// biases; each logarithm is that of one plus e raised to the sum.
pub fn keep_exponents(sums: &[u32], logs: &[u32], rates: &[u32]) -> (r: Vec<u32>)
    requires
        sums@.len() <= logs@.len(),
        sums@.len() <= rates@.len(),
    ensures
        r@ == log_keeps(sums@, logs@, rates@),
{
    let n: usize = sums.len();
    let mut out: Vec<u32> = Vec::new();
    let mut i: usize = 0;
    while i < n
        invariant
            i <= n,
            n == sums@.len(),
            n <= logs@.len(),
            n <= rates@.len(),
            out@ == log_keeps(sums@, logs@, rates@).take(i as int),
        decreases n - i,
    {
        out.push(single::product(norms::softplus(sums[i], logs[i]), rates[i]));
        i += 1;
        assert(out@ =~= log_keeps(sums@, logs@, rates@).take(i as int));
    }
    assert(out@ =~= log_keeps(sums@, logs@, rates@));
    out
}

/// Convolves the projections with the inputs before them, and takes them into the window.
pub fn take_in(conv: &mut Vec<u32>, qkv: &[u32], w: &[u32], prev: usize) -> (r: Vec<u32>)
    requires
        prev < usize::MAX,
        old(conv)@.len() == qkv@.len() * prev,
        w@.len() == qkv@.len() * (prev + 1),
    ensures
        r@ == Seq::new(
            qkv@.len(),
            |c: int| forward::convolved(old(conv)@, c, prev as int, qkv@[c], w@, prev + 1),
        ),
        forward::rotated(old(conv)@, final(conv)@, prev as int, qkv@),
{
    let out: Vec<u32> = forward::convolve(conv, qkv, w, prev);
    forward::rotate_conv(conv, qkv, prev);
    out
}

/// What a recurrent layer works on once its inputs are activated.
pub struct Recurrence {
    /// The activated channels: queries, keys, values.
    pub active: Seq<u32>,
    /// What each head keeps of its state.
    pub keep: Seq<u32>,
    /// How much each head is corrected.
    pub beta: Seq<u32>,
    /// Heads of keys.
    pub n_key: int,
    /// The side of a state.
    pub s: int,
    pub eps: u32,
    pub scale: u32,
}

impl Recurrence {
    /// The channels of the queries, and those of the keys.
    pub open spec fn dk(self) -> int {
        self.n_key * self.s
    }

    /// The channels fit the heads.
    pub open spec fn wf(self) -> bool {
        &&& self.s > 0
        &&& self.n_key > 0
        &&& self.beta.len() == self.keep.len()
        &&& self.active.len() == 2 * self.dk() + self.keep.len() * self.s
    }

    /// The queries, each head's of length one.
    pub open spec fn queries(self) -> Seq<u32> {
        let eps = self.eps;
        mapped(
            self.active.subrange(0, self.dk()),
            self.s,
            |r: Seq<u32>| norms::unit_row(r, eps),
        )
    }

    /// The keys, each head's of length one.
    pub open spec fn keys(self) -> Seq<u32> {
        let eps = self.eps;
        mapped(
            self.active.subrange(self.dk(), 2 * self.dk()),
            self.s,
            |r: Seq<u32>| norms::unit_row(r, eps),
        )
    }

    pub open spec fn values(self) -> Seq<u32> {
        self.active.subrange(2 * self.dk(), self.active.len() as int)
    }

    /// The state of head `h` behind the token.
    pub open spec fn after(self, state: Seq<u32>, h: int) -> Seq<u32> {
        gdn::next_state(
            dots::column(state, h, self.s * self.s),
            self.keep[h],
            dots::column(self.keys(), h % self.n_key, self.s),
            dots::column(self.values(), h, self.s),
            self.beta[h],
            self.s,
        )
    }

    /// The answers of the first `n` heads.
    pub open spec fn answers(self, state: Seq<u32>, n: int) -> Seq<u32>
        decreases n,
    {
        if n <= 0 {
            Seq::empty()
        } else {
            self.answers(state, n - 1) + gdn::answer(
                self.after(state, n - 1),
                dots::column(self.queries(), (n - 1) % self.n_key, self.s),
                self.scale,
                self.s,
            )
        }
    }

    /// The output: the answers, normalized head by head, times the activated gate.
    pub open spec fn output(self, state: Seq<u32>, w: Seq<u32>, gate: Seq<u32>) -> Seq<u32> {
        let eps = self.eps;
        forward::times(
            mapped(
                self.answers(state, self.keep.len() as int),
                self.s,
                |r: Seq<u32>| norms::rms_normed(r, w, eps),
            ),
            gate,
        )
    }

    /// `b` holds the states behind the token.
    pub open spec fn moves(self, a: Seq<u32>, b: Seq<u32>) -> bool {
        &&& b.len() == a.len()
        &&& forall|h: int|
            0 <= h < self.keep.len() ==> #[trigger] dots::column(b, h, self.s * self.s)
                == self.after(a, h)
    }
}

fn split_states(flat: &Vec<u32>, n: usize, size: usize) -> (r: Vec<Vec<u32>>)
    requires
        flat@.len() == n * size,
    ensures
        r@.len() == n,
        forall|h: int|
            0 <= h < n ==> (#[trigger] r@[h])@ == dots::column(flat@, h, size as int)
                && r@[h]@.len() == size,
{
    let len: usize = flat.len();
    let mut out: Vec<Vec<u32>> = Vec::new();
    let mut h: usize = 0;
    while h < n
        invariant
            h <= n,
            len == flat@.len(),
            len == n * size,
            out@.len() == h,
            forall|g: int|
                0 <= g < h ==> (#[trigger] out@[g])@ == dots::column(flat@, g, size as int)
                    && out@[g]@.len() == size,
        decreases n - h,
    {
        proof {
            dots::lemma_row_end(h as int, n as int, size as int);
            let (a, b) = (h as int, size as int);
            assert((a + 1) * b == a * b + b) by (nonlinear_arith);
        }
        let at: usize = h * size;
        out.push(
            vstd::slice::slice_to_vec(
                vstd::slice::slice_subrange(flat.as_slice(), at, at + size),
            ),
        );
        assert(out@[h as int]@ =~= dots::column(flat@, h as int, size as int));
        h += 1;
    }
    out
}

fn join_states(parts: Vec<Vec<u32>>, size: usize) -> (r: Vec<u32>)
    requires
        forall|h: int| 0 <= h < parts@.len() ==> (#[trigger] parts@[h])@.len() == size,
    ensures
        r@.len() == parts@.len() * size,
        forall|h: int|
            0 <= h < parts@.len() ==> #[trigger] dots::column(r@, h, size as int) == parts@[h]@,
{
    let n: usize = parts.len();
    let mut out: Vec<u32> = Vec::new();
    let mut h: usize = 0;
    proof {
        let b = size as int;
        assert(0 * b == 0) by (nonlinear_arith);
    }
    while h < n
        invariant
            h <= n,
            n == parts@.len(),
            forall|g: int| 0 <= g < parts@.len() ==> (#[trigger] parts@[g])@.len() == size,
            out@.len() == h * size,
            forall|g: int|
                0 <= g < h ==> #[trigger] dots::column(out@, g, size as int) == parts@[g]@,
        decreases n - h,
    {
        let mut p: Vec<u32> = vstd::slice::slice_to_vec(parts[h].as_slice());
        let ghost had = out@;
        let ghost new = p@;
        out.append(&mut p);
        proof {
            let b = size as int;
            assert((h + 1) * b == h * b + b) by (nonlinear_arith);
            assert forall|g: int| 0 <= g < h + 1 implies #[trigger] dots::column(out@, g, b)
                == parts@[g]@ by {
                assert((g + 1) * b == g * b + b) by (nonlinear_arith);
                if g < h {
                    dots::lemma_row_end(g, h as int, b);
                    assert(dots::column(out@, g, b) =~= dots::column(had, g, b));
                } else {
                    assert(dots::column(out@, g, b) =~= new);
                }
            }
        }
        h += 1;
    }
    out
}

proof fn lemma_same_answers(
    r: Recurrence,
    state: Seq<u32>,
    states: Seq<Vec<u32>>,
    q: Seq<u32>,
    n: int,
)
    requires
        0 <= n <= states.len(),
        q == r.queries(),
        forall|h: int| 0 <= h < n ==> (#[trigger] states[h])@ == r.after(state, h),
    ensures
        gdn::answers(states, q, r.scale, r.n_key, r.s, n) == r.answers(state, n),
        gdn::answers(states, q, r.scale, r.n_key, r.s, n).len() == n * r.s || r.s < 0,
    decreases n,
{
    let s = r.s;
    if n > 0 {
        lemma_same_answers(r, state, states, q, n - 1);
        assert(n * s == (n - 1) * s + s) by (nonlinear_arith);
    } else {
        assert(n * s == 0) by (nonlinear_arith)
            requires
                n == 0,
        ;
    }
}

/// Takes a token into the states of a recurrent layer and answers it: queries and keys are
/// brought to length one, every head's state decays, is corrected and is asked, and the answers
/// are normalized and gated.
pub fn recur(
    state: &mut Vec<u32>,
    active: &[u32],
    keep: &[u32],
    beta: &[u32],
    n_key: usize,
    w: &[u32],
    gate: &[u32],
    eps: u32,
    scale: u32,
) -> (r: Vec<u32>)
    requires
        w@.len() > 0,
        w@.len() * w@.len() <= usize::MAX,
        2 * (n_key * w@.len()) <= usize::MAX,
        n_key > 0,
        beta@.len() == keep@.len(),
        active@.len() == 2 * (n_key * w@.len()) + keep@.len() * w@.len(),
        old(state)@.len() == keep@.len() * (w@.len() * w@.len()),
        gate@.len() == keep@.len() * w@.len(),
    ensures
        ({
            let rec = Recurrence {
                active: active@,
                keep: keep@,
                beta: beta@,
                n_key: n_key as int,
                s: w@.len() as int,
                eps,
                scale,
            };
            &&& rec.moves(old(state)@, final(state)@)
            &&& r@ == rec.output(old(state)@, w@, gate@)
        }),
{
    let s: usize = w.len();
    let n: usize = keep.len();
    let size: usize = active.len();
    let ghost rec = Recurrence {
        active: active@,
        keep: keep@,
        beta: beta@,
        n_key: n_key as int,
        s: s as int,
        eps,
        scale,
    };
    proof {
        let (a, b) = (n_key as int, s as int);
        assert(a * b >= 0 && a * b == b * a) by (nonlinear_arith)
            requires
                a >= 0,
                b >= 0,
        ;
        vstd::arithmetic::div_mod::lemma_mod_multiples_basic(a, b);
        let m = n as int;
        assert(m * b >= 0) by (nonlinear_arith)
            requires
                m >= 0,
                b >= 0,
        ;
    }
    let dk: usize = n_key * s;
    let q: Vec<u32> = unit_rows(vstd::slice::slice_subrange(active, 0, dk), s, eps);
    let k: Vec<u32> = unit_rows(vstd::slice::slice_subrange(active, dk, 2 * dk), s, eps);
    let v: &[u32] = vstd::slice::slice_subrange(active, 2 * dk, size);
    assert(q@ =~= rec.queries());
    assert(k@ =~= rec.keys());
    assert(v@ =~= rec.values());
    let ghost first = state@;
    let mut states: Vec<Vec<u32>> = split_states(state, n, s * s);
    let ghost before = states@;
    let out: Vec<u32> = gdn::gdn_step(
        q.as_slice(),
        k.as_slice(),
        v,
        keep,
        beta,
        &mut states,
        n_key,
        s,
        scale,
    );
    proof {
        assert forall|h: int| 0 <= h < n implies (#[trigger] states@[h])@ == rec.after(first, h)
            && states@[h]@.len() == s * s by {
            assert(before[h]@ == dots::column(first, h, (s * s) as int));
        }
        lemma_same_answers(rec, first, states@, q@, n as int);
        let (m, b) = (n as int, s as int);
        assert(m * b == b * m) by (nonlinear_arith);
        vstd::arithmetic::div_mod::lemma_mod_multiples_basic(m, b);
    }
    let normed: Vec<u32> = normed_rows(out.as_slice(), w, eps);
    let ghost after = states@;
    *state = join_states(states, s * s);
    proof {
        assert forall|h: int| 0 <= h < rec.keep.len() implies #[trigger] dots::column(
            state@,
            h,
            rec.s * rec.s,
        ) == rec.after(first, h) by {
            assert(after[h]@ == rec.after(first, h));
        }
    }
    forward::gated(normed.as_slice(), gate)
}

/// A token in a recurrent layer, before its functions of real numbers are known.
#[derive(Debug)]
pub struct Recurrent {
    /// The channels, convolved.
    pub mixed: Vec<u32>,
    /// The output gates.
    pub z: Vec<u32>,
    /// The weights of the corrections, before the sigmoid.
    pub beta: Vec<u32>,
    /// What the heads decay by, before the softplus.
    pub sums: Vec<u32>,
}

/// Takes a token into a recurrent layer: the decay gets its bias, and the channels are convolved
/// with the inputs before them and taken into the window. Projections of other sizes are
/// refused.
pub fn recurrent_layer(
    cfg: &Qwen35,
    il: usize,
    qkv: &[u32],
    z: Vec<u32>,
    beta: Vec<u32>,
    alpha: &[u32],
    bias: &[u32],
    conv_w: &[u32],
    conv: &mut Vec<u32>,
) -> (r: Result<Recurrent, String>)
    requires
        cfg.sized(),
        cfg.ssm_dt_rank <= bias@.len(),
        conv_w@.len() == cfg.channels() * cfg.ssm_conv_kernel,
        old(conv)@.len() == cfg.channels() * (cfg.ssm_conv_kernel - 1),
    ensures
        ({
            let right = qkv@.len() == cfg.channels() && z@.len() == cfg.ssm_inner && beta@.len()
                == cfg.ssm_dt_rank && alpha@.len() == cfg.ssm_dt_rank;
            let prev = cfg.ssm_conv_kernel - 1;
            match r {
                Ok(t) => {
                    &&& right
                    &&& t.mixed@ == Seq::new(
                        qkv@.len(),
                        |c: int|
                            forward::convolved(
                                old(conv)@,
                                c,
                                prev,
                                qkv@[c],
                                conv_w@,
                                prev + 1,
                            ),
                    )
                    &&& t.z == z
                    &&& t.beta == beta
                    &&& t.sums@ == forward::plus(alpha@, bias@)
                    &&& forward::rotated(old(conv)@, final(conv)@, prev, qkv@)
                    &&& t.taken(*cfg)
                },
                Err(m) => {
                    &&& !right
                    &&& m@ == forward::recurrent_rows_text(
                        il as nat,
                        qkv@.len(),
                        z@.len(),
                        beta@.len(),
                        alpha@.len(),
                    )
                    &&& final(conv)@ == old(conv)@
                },
            }
        }),
{
    forward::check_recurrent_rows(cfg, il, qkv.len(), z.len(), beta.len(), alpha.len())?;
    let sums: Vec<u32> = forward::add_residual(alpha, bias);
    let mixed: Vec<u32> = take_in(conv, qkv, conv_w, cfg.ssm_conv_kernel - 1);
    Ok(Recurrent { mixed, z, beta, sums })
}

impl Recurrent {
    /// The projections have the sizes of the configuration.
    pub open spec fn taken(&self, cfg: Qwen35) -> bool {
        &&& cfg.sized()
        &&& self.mixed@.len() == cfg.channels()
        &&& self.z@.len() == cfg.ssm_inner
        &&& self.beta@.len() == cfg.ssm_dt_rank
        &&& self.sums@.len() == cfg.ssm_dt_rank
    }

    /// The logarithms of what the heads keep. Each given logarithm is that of one plus e raised
    /// to a sum.
    pub fn decay(&self, logs: &[u32], rates: &[u32]) -> (r: Vec<u32>)
        requires
            self.sums@.len() <= logs@.len(),
            self.sums@.len() <= rates@.len(),
        ensures
            r@ == log_keeps(self.sums@, logs@, rates@),
    {
        keep_exponents(self.sums.as_slice(), logs, rates)
    }

    /// Brings the states behind the token, and returns the layer's output before the last
    /// product. `keep` is what each head keeps; the powers are those of e raised to the negated
    /// corrections, gates and channels.
    pub fn finish(
        self,
        cfg: &Qwen35,
        state: &mut Vec<u32>,
        keep: &[u32],
        beta_powers: &[u32],
        z_powers: &[u32],
        mixed_powers: &[u32],
        norm_w: &[u32],
        scale: u32,
    ) -> (r: Vec<u32>)
        requires
            self.taken(*cfg),
            keep@.len() == cfg.ssm_dt_rank,
            beta_powers@.len() == cfg.ssm_dt_rank,
            z_powers@.len() == cfg.ssm_inner,
            mixed_powers@.len() == cfg.channels(),
            norm_w@.len() == cfg.ssm_state,
            old(state)@.len() == cfg.ssm_dt_rank * (cfg.ssm_state * cfg.ssm_state),
        ensures
            ({
                let rec = Recurrence {
                    active: activated(self.mixed@, mixed_powers@),
                    keep: keep@,
                    beta: sigmoids(beta_powers@),
                    n_key: cfg.ssm_group_count as int,
                    s: cfg.ssm_state as int,
                    eps: cfg.eps,
                    scale,
                };
                &&& rec.moves(old(state)@, final(state)@)
                &&& r@ == rec.output(old(state)@, norm_w@, activated(self.z@, z_powers@))
            }),
    {
        let beta: Vec<u32> = corrections(beta_powers);
        let active: Vec<u32> = activate(self.mixed.as_slice(), mixed_powers);
        let gate: Vec<u32> = activate(self.z.as_slice(), z_powers);
        recur(
            state,
            active.as_slice(),
            keep,
            beta.as_slice(),
            cfg.ssm_group_count,
            norm_w,
            gate.as_slice(),
            cfg.eps,
            scale,
        )
    }
}

} // verus!
