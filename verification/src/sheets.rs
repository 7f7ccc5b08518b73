//! The matrices of a draft, and what each step of its plan does to them.
//!
//! Powers of e, cosines and sines come from outside; all numbers are singles in their bit
//! patterns.

use vstd::prelude::*;

use crate::dots;
use crate::draft;
use crate::draft::{DraftCache, Rows, Weight};
use crate::dspark;
use crate::dspark::{Dspark, DsparkCfg};
use crate::forward;
use crate::kernels;
use crate::layers;
use crate::norms;
use crate::rope;
use crate::single;

verus! {

/// The matrices, with a row for each position of the block.
#[derive(Debug)]
pub struct Sheets {
    pub n_tok: usize,
    pub n_embd: usize,
    pub n_head: usize,
    pub n_head_kv: usize,
    pub hd: usize,
    pub n_ff: usize,
    pub n_vocab: usize,
    pub m: Vec<Vec<u32>>,
}

/// Where a matrix is kept.
pub open spec fn place_of(r: Rows) -> int {
    match r {
        Rows::X => 0,
        Rows::Xn => 1,
        Rows::Q => 2,
        Rows::K => 3,
        Rows::V => 4,
        Rows::Attn => 5,
        Rows::O => 6,
        Rows::Y => 7,
        Rows::Gate => 8,
        Rows::Up => 9,
        Rows::Down => 10,
        Rows::Emb => 11,
        Rows::Base => 12,
    }
}

fn place(r: Rows) -> (p: usize)
    ensures
        p == place_of(r),
{
    match r {
        Rows::X => 0,
        Rows::Xn => 1,
        Rows::Q => 2,
        Rows::K => 3,
        Rows::V => 4,
        Rows::Attn => 5,
        Rows::O => 6,
        Rows::Y => 7,
        Rows::Gate => 8,
        Rows::Up => 9,
        Rows::Down => 10,
        Rows::Emb => 11,
        Rows::Base => 12,
    }
}

/// `s` with other values from `at` on.
pub open spec fn patched(s: Seq<u32>, at: int, part: Seq<u32>) -> Seq<u32> {
    Seq::new(
        s.len(),
        |i: int|
            if at <= i < at + part.len() {
                part[i - at]
            } else {
                s[i]
            },
    )
}

fn patch(s: &Vec<u32>, at: usize, part: &[u32]) -> (r: Vec<u32>)
    requires
        at + part@.len() <= s@.len(),
    ensures
        r@ == patched(s@, at as int, part@),
{
    let n: usize = s.len();
    let len: usize = part.len();
    let mut out: Vec<u32> = Vec::new();
    let mut i: usize = 0;
    while i < n
        invariant
            i <= n,
            n == s@.len(),
            len == part@.len(),
            at + len <= n,
            out@ == patched(s@, at as int, part@).take(i as int),
        decreases n - i,
    {
        if at <= i && i - at < len {
            out.push(part[i - at]);
        } else {
            out.push(s[i]);
        }
        i += 1;
        assert(out@ =~= patched(s@, at as int, part@).take(i as int));
    }
    assert(out@ =~= patched(s@, at as int, part@));
    out
}

fn zeros(n: usize) -> (r: Vec<u32>)
    ensures
        r@ == Seq::new(n as nat, |i: int| 0u32),
{
    let mut out: Vec<u32> = Vec::new();
    let mut i: usize = 0;
    while i < n
        invariant
            i <= n,
            out@ == Seq::new(i as nat, |j: int| 0u32),
        decreases n - i,
    {
        out.push(0);
        i += 1;
        assert(out@ =~= Seq::new(i as nat, |j: int| 0u32));
    }
    out
}

/// The sum of the first `n` tokens' values, each times its power.
pub open spec fn weighed(
    powers: Seq<u32>,
    s: Seq<u32>,
    n: int,
    kv: int,
    e: int,
    hd: int,
    d: int,
) -> u32
    decreases n,
{
    if n <= 0 {
        0
    } else {
        single::sum_of(
            weighed(powers, s, n - 1, kv, e, hd, d),
            single::product_of(powers[n - 1], forward::cached(s, n - 1, kv, e, hd, d)),
        )
    }
}

/// The sum of the first `n` powers.
pub open spec fn added(powers: Seq<u32>, n: int) -> u32
    decreases n,
{
    if n <= 0 {
        0
    } else {
        single::sum_of(added(powers, n - 1), powers[n - 1])
    }
}

/// The mean of the tokens' values, each weighed by its power.
pub open spec fn attended(powers: Seq<u32>, s: Seq<u32>, kv: int, e: int, hd: int) -> Seq<u32> {
    Seq::new(
        hd as nat,
        |d: int|
            single::quotient_of(
                weighed(powers, s, powers.len() as int, kv, e, hd, d),
                added(powers, powers.len() as int),
            ),
    )
}

fn attended_at(powers: &[u32], values: &Vec<u32>, kv: usize, e: usize, hd: usize, d: usize) -> (r:
    u32)
    requires
        d < hd,
        kv * hd + hd <= e,
        powers@.len() * e <= values@.len(),
    ensures
        r == weighed(
            powers@,
            values@,
            powers@.len() as int,
            kv as int,
            e as int,
            hd as int,
            d as int,
        ),
{
    let n: usize = powers.len();
    let size: usize = values.len();
    let mut acc: u32 = 0;
    let mut j: usize = 0;
    proof {
        let (a, b) = (kv as int, hd as int);
        assert(a * b >= 0) by (nonlinear_arith)
            requires
                a >= 0,
                b >= 0,
        ;
    }
    let first: usize = kv * hd + d;
    while j < n
        invariant
            j <= n,
            n == powers@.len(),
            size == values@.len(),
            n * e <= size,
            d < hd,
            kv * hd + hd <= e,
            first == kv * hd + d,
            acc == weighed(
                powers@,
                values@,
                j as int,
                kv as int,
                e as int,
                hd as int,
                d as int,
            ),
        decreases n - j,
    {
        proof {
            dots::lemma_row_end(j as int, n as int, e as int);
        }
        let at: usize = j * e + first;
        acc = single::sum(acc, single::product(powers[j], values[at]));
        j += 1;
    }
    acc
}

fn add_up(powers: &[u32]) -> (r: u32)
    ensures
        r == added(powers@, powers@.len() as int),
{
    let mut acc: u32 = 0;
    let mut j: usize = 0;
    while j < powers.len()
        invariant
            j <= powers@.len(),
            acc == added(powers@, j as int),
        decreases powers@.len() - j,
    {
        acc = single::sum(acc, powers[j]);
        j += 1;
    }
    acc
}

/// How many frequencies the log-SNR is embedded with.
pub const SNR_FREQS: usize = 64;

/// A thousand.
pub const THOUSAND: u32 = 0x447A_0000;

/// Where a log-SNR lies between the smallest and the largest, in thousandths.
pub open spec fn snr_place(snr: u32, low: u32, high: u32) -> u32 {
    single::product_of(
        single::quotient_of(
            single::difference_of(snr, low),
            single::difference_of(high, low),
        ),
        THOUSAND,
    )
}

/// Where a log-SNR lies between the smallest and the largest, in thousandths.
pub fn snr_time(snr: u32, low: u32, high: u32) -> (r: u32)
    ensures
        r == snr_place(snr, low, high),
{
    single::product(
        single::quotient(single::difference(snr, low), single::difference(high, low)),
        THOUSAND,
    )
}

/// The exponent of frequency `i`: `log` is the negated logarithm of the last one.
pub open spec fn snr_exponent(log: u32, i: int) -> u32 {
    single::quotient_of(
        single::product_of(log, single::single_of(i as nat)),
        single::single_of(SNR_FREQS as nat),
    )
}

/// The exponents of the frequencies.
pub fn snr_exponents(log: u32) -> (r: Vec<u32>)
    ensures
        r@ == Seq::new(SNR_FREQS as nat, |i: int| snr_exponent(log, i)),
{
    let ghost want = Seq::new(SNR_FREQS as nat, |i: int| snr_exponent(log, i));
    let mut out: Vec<u32> = Vec::new();
    let mut i: usize = 0;
    while i < SNR_FREQS
        invariant
            i <= SNR_FREQS,
            want == Seq::new(SNR_FREQS as nat, |i: int| snr_exponent(log, i)),
            out@ == want.take(i as int),
        decreases SNR_FREQS - i,
    {
        out.push(
            single::quotient(
                single::product(log, single::from_uint(i as u64)),
                single::from_uint(SNR_FREQS as u64),
            ),
        );
        i += 1;
        assert(out@ =~= want.take(i as int));
    }
    assert(out@ =~= want);
    out
}

/// The angles of a place, one for each frequency.
pub fn snr_angles(time: u32, freqs: &[u32]) -> (r: Vec<u32>)
    ensures
        r@ == Seq::new(freqs@.len(), |i: int| single::product_of(time, freqs@[i])),
{
    let ghost want = Seq::new(freqs@.len(), |i: int| single::product_of(time, freqs@[i]));
    let mut out: Vec<u32> = Vec::new();
    let mut i: usize = 0;
    while i < freqs.len()
        invariant
            i <= freqs@.len(),
            want == Seq::new(freqs@.len(), |i: int| single::product_of(time, freqs@[i])),
            out@ == want.take(i as int),
        decreases freqs@.len() - i,
    {
        out.push(single::product(time, freqs[i]));
        i += 1;
        assert(out@ =~= want.take(i as int));
    }
    assert(out@ =~= want);
    out
}

impl Sheets {
    /// How wide the rows of a matrix are.
    pub open spec fn width(&self, r: Rows) -> int {
        match r {
            Rows::Q => self.n_head * self.hd,
            Rows::Attn => self.n_head * self.hd,
            Rows::K => self.n_head_kv * self.hd,
            Rows::V => self.n_head_kv * self.hd,
            Rows::Gate => self.n_ff as int,
            Rows::Up => self.n_ff as int,
            Rows::Base => self.n_vocab as int,
            _ => self.n_embd as int,
        }
    }

    /// A matrix, row behind row.
    pub open spec fn at(&self, r: Rows) -> Seq<u32> {
        self.m@[place_of(r)]@
    }

    /// Every matrix has all its rows.
    pub open spec fn wf(&self) -> bool {
        &&& self.m@.len() == 13
        &&& self.n_head * self.hd <= usize::MAX
        &&& self.n_head_kv * self.hd <= usize::MAX
        &&& forall|r: Rows| (#[trigger] self.at(r)).len() == self.n_tok * self.width(r)
    }

    /// `b` has the same shape.
    pub open spec fn like(&self, b: Sheets) -> bool {
        &&& b.n_tok == self.n_tok
        &&& b.n_embd == self.n_embd
        &&& b.n_head == self.n_head
        &&& b.n_head_kv == self.n_head_kv
        &&& b.hd == self.hd
        &&& b.n_ff == self.n_ff
        &&& b.n_vocab == self.n_vocab
    }

    /// `b` differs in one matrix only, which is `s` there.
    pub open spec fn changed(&self, b: Sheets, r: Rows, s: Seq<u32>) -> bool {
        &&& self.like(b)
        &&& b.at(r) == s
        &&& forall|q: Rows| q != r ==> #[trigger] b.at(q) == self.at(q)
    }

    /// Room for a block.
    pub open spec fn room(c: DsparkCfg, n_tok: int) -> bool {
        &&& n_tok * c.n_embd <= usize::MAX
        &&& c.n_head * c.head_dim <= usize::MAX
        &&& n_tok * (c.n_head * c.head_dim) <= usize::MAX
        &&& c.n_head_kv * c.head_dim <= usize::MAX
        &&& n_tok * (c.n_head_kv * c.head_dim) <= usize::MAX
        &&& n_tok * c.n_ff <= usize::MAX
        &&& n_tok * c.n_vocab <= usize::MAX
    }

    /// Matrices of zeros for a block of `n_tok` positions.
    pub fn new(c: &DsparkCfg, n_tok: usize) -> (r: Sheets)
        requires
            Self::room(*c, n_tok as int),
        ensures
            r.wf(),
            r.n_tok == n_tok,
            r.n_embd == c.n_embd,
            r.n_head == c.n_head,
            r.n_head_kv == c.n_head_kv,
            r.hd == c.head_dim,
            r.n_ff == c.n_ff,
            r.n_vocab == c.n_vocab,
            forall|q: Rows|
                #[trigger] r.at(q) == Seq::new((n_tok * r.width(q)) as nat, |i: int| 0u32),
    {
        let wide: usize = n_tok * c.n_embd;
        let heads: usize = n_tok * (c.n_head * c.head_dim);
        let kv: usize = n_tok * (c.n_head_kv * c.head_dim);
        let inner: usize = n_tok * c.n_ff;
        let vocab: usize = n_tok * c.n_vocab;
        let mut m: Vec<Vec<u32>> = Vec::new();
        m.push(zeros(wide));
        m.push(zeros(wide));
        m.push(zeros(heads));
        m.push(zeros(kv));
        m.push(zeros(kv));
        m.push(zeros(heads));
        m.push(zeros(wide));
        m.push(zeros(wide));
        m.push(zeros(inner));
        m.push(zeros(inner));
        m.push(zeros(wide));
        m.push(zeros(wide));
        m.push(zeros(vocab));
        Sheets {
            n_tok,
            n_embd: c.n_embd,
            n_head: c.n_head,
            n_head_kv: c.n_head_kv,
            hd: c.head_dim,
            n_ff: c.n_ff,
            n_vocab: c.n_vocab,
            m,
        }
    }

    /// A matrix.
    pub fn sheet(&self, r: Rows) -> (s: &Vec<u32>)
        requires
            self.wf(),
        ensures
            s@ == self.at(r),
    {
        &self.m[place(r)]
    }

    fn width_of(&self, r: Rows) -> (w: usize)
        requires
            self.wf(),
        ensures
            w == self.width(r),
    {
        match r {
            Rows::Q => self.n_head * self.hd,
            Rows::Attn => self.n_head * self.hd,
            Rows::K => self.n_head_kv * self.hd,
            Rows::V => self.n_head_kv * self.hd,
            Rows::Gate => self.n_ff,
            Rows::Up => self.n_ff,
            Rows::Base => self.n_vocab,
            _ => self.n_embd,
        }
    }

    fn put_sheet(&mut self, r: Rows, v: Vec<u32>)
        requires
            old(self).wf(),
            v@.len() == old(self).at(r).len(),
        ensures
            final(self).wf(),
            old(self).changed(*final(self), r, v@),
    {
        let p: usize = place(r);
        self.m.set(p, v);
        proof {
            assert forall|q: Rows| q != r implies #[trigger] self.at(q) == old(self).at(q) by {
                assert(place_of(q) != place_of(r));
            }
            assert forall|q: Rows| (#[trigger] self.at(q)).len() == self.n_tok * self.width(q) by {
                assert(old(self).at(q).len() == old(self).n_tok * old(self).width(q));
                assert(self.width(q) == old(self).width(q));
            }
        }
    }

    /// Row `t` of a matrix.
    pub fn row(&self, r: Rows, t: usize) -> (s: &[u32])
        requires
            self.wf(),
            t < self.n_tok,
        ensures
            s@ == dots::column(self.at(r), t as int, self.width(r)),
            s@.len() == self.width(r),
    {
        let w: usize = self.width_of(r);
        let size: usize = self.sheet(r).len();
        proof {
            dots::lemma_row_end(t as int, self.n_tok as int, w as int);
            let (a, b) = (t as int, w as int);
            assert((a + 1) * b == a * b + b) by (nonlinear_arith);
            assert(self.at(r).len() == self.n_tok * self.width(r));
        }
        let at: usize = t * w;
        vstd::slice::slice_subrange(self.sheet(r).as_slice(), at, at + w)
    }

    /// Puts a row into a matrix.
    fn put_row(&mut self, r: Rows, t: usize, row: &[u32])
        requires
            old(self).wf(),
            t < old(self).n_tok,
            row@.len() == old(self).width(r),
        ensures
            final(self).wf(),
            old(self).changed(
                *final(self),
                r,
                patched(old(self).at(r), t * old(self).width(r), row@),
            ),
    {
        let w: usize = self.width_of(r);
        let size: usize = self.sheet(r).len();
        proof {
            dots::lemma_row_end(t as int, self.n_tok as int, w as int);
            assert(self.at(r).len() == self.n_tok * self.width(r));
        }
        let v: Vec<u32> = patch(self.sheet(r), t * w, row);
        self.put_sheet(r, v);
    }

    /// Row `t` of the states becomes the embedding of a token.
    pub fn embed(&mut self, t: usize, row: &[u32])
        requires
            old(self).wf(),
            t < old(self).n_tok,
            row@.len() == old(self).n_embd,
        ensures
            final(self).wf(),
            old(self).changed(
                *final(self),
                Rows::X,
                patched(old(self).at(Rows::X), t * old(self).n_embd, row@),
            ),
    {
        self.put_row(Rows::X, t, row);
    }

    /// Row `t` of the states gets a row added.
    pub fn add_row(&mut self, t: usize, row: &[u32])
        requires
            old(self).wf(),
            t < old(self).n_tok,
            row@.len() == old(self).n_embd,
        ensures
            final(self).wf(),
            old(self).changed(
                *final(self),
                Rows::X,
                patched(
                    old(self).at(Rows::X),
                    t * old(self).n_embd,
                    forward::plus(
                        dots::column(old(self).at(Rows::X), t as int, old(self).n_embd as int),
                        row@,
                    ),
                ),
            ),
    {
        let v: Vec<u32> = forward::add_residual(self.row(Rows::X, t), row);
        self.put_row(Rows::X, t, v.as_slice());
    }

    /// Row `t` of `dst` becomes that of `src`, normed.
    pub fn norm(&mut self, src: Rows, dst: Rows, t: usize, w: &[u32], eps: u32)
        requires
            old(self).wf(),
            t < old(self).n_tok,
            old(self).width(src) == old(self).width(dst),
            old(self).width(src) <= w@.len(),
        ensures
            final(self).wf(),
            old(self).changed(
                *final(self),
                dst,
                patched(
                    old(self).at(dst),
                    t * old(self).width(dst),
                    norms::rms_normed(
                        dots::column(old(self).at(src), t as int, old(self).width(src)),
                        w@,
                        eps,
                    ),
                ),
            ),
    {
        let v: Vec<u32> = norms::rms_norm(self.row(src, t), w, eps);
        self.put_row(dst, t, v.as_slice());
    }

    /// `dst` becomes the product of a weight with every row of `src`.
    pub fn matmul(&mut self, ds: &Dspark, weight: Weight, il: usize, src: Rows, dst: Rows) -> (r:
        Result<(), String>)
        requires
            old(self).wf(),
            ds.wf(),
            dspark::found(*ds, draft::tensor_of(weight, il as nat)) matches Some(at)
                ==> dspark::in_rows(ds.record(at)),
        ensures
            final(self).wf(),
            kernels::says(
                r,
                dspark::multi_error(
                    *ds,
                    draft::tensor_of(weight, il as nat),
                    old(self).n_tok as int,
                    old(self).at(src).len() as int,
                    old(self).at(dst).len() as int,
                ),
            ),
            r is Err ==> *final(self) == *old(self),
            r is Ok ==> ({
                let at = dspark::found(*ds, draft::tensor_of(weight, il as nat))->0;
                let t = ds.record(at);
                &&& old(self).changed(*final(self), dst, final(self).at(dst))
                &&& dots::multiplied(
                    old(self).at(dst),
                    final(self).at(dst),
                    old(self).n_tok as int,
                    dspark::rows(t),
                    |i: int, k: int|
                        dspark::kernel_product(
                            t.ty,
                            dspark::bytes_of(ds.owner(at.0), t),
                            dspark::columns(t),
                            k,
                            dots::column(old(self).at(src), i, dspark::columns(t)),
                        ),
                )
            }),
    {
        let name: String = weight.tensor(il);
        let mut y: Vec<u32> = vstd::slice::slice_to_vec(self.sheet(dst).as_slice());
        match ds.matvec_multi(name.as_str(), self.sheet(src).as_slice(), self.n_tok, &mut y) {
            Ok(_) => {
                self.put_sheet(dst, y);
                Ok(())
            },
            Err(m) => Err(m),
        }
    }

    /// Where head `h` of row `t` begins.
    pub open spec fn head_start(&self, r: Rows, t: int, h: int) -> int {
        t * self.width(r) + h * self.hd
    }

    /// The matrix holds heads, and this is one of them.
    pub open spec fn holds_head(&self, r: Rows, t: int, h: int) -> bool {
        &&& 0 <= t < self.n_tok
        &&& 0 <= h
        &&& match r {
            Rows::Q => h < self.n_head,
            Rows::Attn => h < self.n_head,
            Rows::K => h < self.n_head_kv,
            Rows::V => h < self.n_head_kv,
            _ => false,
        }
    }

    /// Head `h` of row `t`.
    pub open spec fn head_at(&self, r: Rows, t: int, h: int) -> Seq<u32> {
        self.at(r).subrange(self.head_start(r, t, h), self.head_start(r, t, h) + self.hd)
    }

    fn start_of(&self, r: Rows, t: usize, h: usize) -> (p: usize)
        requires
            self.wf(),
            self.holds_head(r, t as int, h as int),
        ensures
            p == self.head_start(r, t as int, h as int),
            p + self.hd <= self.at(r).len(),
            p + self.hd <= usize::MAX,
    {
        let w: usize = self.width_of(r);
        let size: usize = self.sheet(r).len();
        proof {
            dots::lemma_row_end(t as int, self.n_tok as int, w as int);
            assert(self.at(r).len() == self.n_tok * self.width(r));
            let n = if r == Rows::Q || r == Rows::Attn {
                self.n_head as int
            } else {
                self.n_head_kv as int
            };
            dots::lemma_row_end(h as int, n, self.hd as int);
        }
        t * w + h * self.hd
    }

    fn head_of(&self, r: Rows, t: usize, h: usize) -> (s: &[u32])
        requires
            self.wf(),
            self.holds_head(r, t as int, h as int),
        ensures
            s@ == self.head_at(r, t as int, h as int),
            s@.len() == self.hd,
    {
        let p: usize = self.start_of(r, t, h);
        vstd::slice::slice_subrange(self.sheet(r).as_slice(), p, p + self.hd)
    }

    /// A head of row `t` is normed and turned to its position.
    pub fn head(
        &mut self,
        r: Rows,
        t: usize,
        h: usize,
        w: &[u32],
        eps: u32,
        cos: &[u32],
        sin: &[u32],
    )
        requires
            old(self).wf(),
            old(self).holds_head(r, t as int, h as int),
            old(self).hd <= w@.len(),
            cos@.len() == sin@.len(),
            2 * cos@.len() <= old(self).hd,
        ensures
            final(self).wf(),
            old(self).changed(
                *final(self),
                r,
                patched(
                    old(self).at(r),
                    old(self).head_start(r, t as int, h as int),
                    final(self).head_at(r, t as int, h as int),
                ),
            ),
            rope::turned(
                norms::rms_normed(old(self).head_at(r, t as int, h as int), w@, eps),
                final(self).head_at(r, t as int, h as int),
                cos@.len() as int,
                cos@,
                sin@,
            ),
    {
        let p: usize = self.start_of(r, t, h);
        let mut v: Vec<u32> = norms::rms_norm(self.head_of(r, t, h), w, eps);
        rope::turn(&mut v, cos, sin);
        let ghost new = v@;
        let s: Vec<u32> = patch(self.sheet(r), p, v.as_slice());
        self.put_sheet(r, s);
        assert(self.head_at(r, t as int, h as int) =~= new);
    }

    /// Row `t` of the keys and values goes to a position of the cache.
    pub fn put(&self, cache: &mut DraftCache, il: usize, t: usize, pos: usize)
        requires
            self.wf(),
            old(cache).wf(),
            t < self.n_tok,
            il < old(cache).k16@.len(),
            pos < old(cache).n_ctx,
            old(cache).n_kv_dim == self.n_head_kv * self.hd,
        ensures
            final(cache).wf(),
            final(cache).n_ctx == old(cache).n_ctx,
            final(cache).n_kv_dim == old(cache).n_kv_dim,
            final(cache).filled == old(cache).filled,
            draft::row_put(
                old(cache).k16@,
                final(cache).k16@,
                il as int,
                pos as int,
                old(cache).n_kv_dim as int,
                dots::column(self.at(Rows::K), t as int, self.width(Rows::K)),
            ),
            draft::row_put(
                old(cache).v16@,
                final(cache).v16@,
                il as int,
                pos as int,
                old(cache).n_kv_dim as int,
                dots::column(self.at(Rows::V), t as int, self.width(Rows::V)),
            ),
    {
        cache.put(il, pos, self.row(Rows::K, t), self.row(Rows::V, t));
    }

    /// How head `h` of row `t` scores the first `n` positions, less the best: the exponents of
    /// their powers.
    pub fn exponents(
        &self,
        keys: &Vec<u32>,
        t: usize,
        h: usize,
        kv: usize,
        n: usize,
        scale: u32,
    ) -> (r: Vec<u32>)
        requires
            self.wf(),
            self.holds_head(Rows::Q, t as int, h as int),
            kv < self.n_head_kv,
            n * (self.n_head_kv * self.hd) <= keys@.len(),
        ensures
            r@ == norms::below_largest(
                Seq::new(
                    n as nat,
                    |j: int|
                        forward::score(
                            self.head_at(Rows::Q, t as int, h as int),
                            keys@,
                            j,
                            kv as int,
                            self.n_head_kv * self.hd,
                            self.hd as int,
                            scale,
                        ),
                ),
            ),
    {
        proof {
            dots::lemma_row_end(kv as int, self.n_head_kv as int, self.hd as int);
        }
        let e: usize = self.n_head_kv * self.hd;
        let s: Vec<u32> = forward::scores(
            self.head_of(Rows::Q, t, h),
            keys,
            n,
            kv,
            e,
            self.hd,
            scale,
        );
        norms::subtract_largest(s.as_slice())
    }

    /// Head `h` of row `t` attends: it becomes the mean of the values, weighed by the powers.
    pub fn attend(&mut self, values: &Vec<u32>, t: usize, h: usize, kv: usize, powers: &[u32])
        requires
            old(self).wf(),
            old(self).holds_head(Rows::Attn, t as int, h as int),
            kv < old(self).n_head_kv,
            powers@.len() * (old(self).n_head_kv * old(self).hd) <= values@.len(),
        ensures
            final(self).wf(),
            old(self).changed(
                *final(self),
                Rows::Attn,
                patched(
                    old(self).at(Rows::Attn),
                    old(self).head_start(Rows::Attn, t as int, h as int),
                    attended(
                        powers@,
                        values@,
                        kv as int,
                        old(self).n_head_kv * old(self).hd,
                        old(self).hd as int,
                    ),
                ),
            ),
    {
        proof {
            dots::lemma_row_end(kv as int, self.n_head_kv as int, self.hd as int);
        }
        let hd: usize = self.hd;
        let e: usize = self.n_head_kv * hd;
        let p: usize = self.start_of(Rows::Attn, t, h);
        let total: u32 = add_up(powers);
        let ghost want = attended(powers@, values@, kv as int, e as int, hd as int);
        let mut out: Vec<u32> = Vec::new();
        let mut d: usize = 0;
        while d < hd
            invariant
                d <= hd,
                kv * hd + hd <= e,
                powers@.len() * e <= values@.len(),
                total == added(powers@, powers@.len() as int),
                want == attended(powers@, values@, kv as int, e as int, hd as int),
                out@ == want.take(d as int),
            decreases hd - d,
        {
            out.push(single::quotient(attended_at(powers, values, kv, e, hd, d), total));
            d += 1;
            assert(out@ =~= want.take(d as int));
        }
        assert(out@ =~= want);
        let s: Vec<u32> = patch(self.sheet(Rows::Attn), p, out.as_slice());
        self.put_sheet(Rows::Attn, s);
    }

    /// `dst` becomes the sum of two matrices.
    pub fn sum(&mut self, a: Rows, b: Rows, dst: Rows)
        requires
            old(self).wf(),
            old(self).width(a) == old(self).width(dst),
            old(self).width(b) == old(self).width(dst),
        ensures
            final(self).wf(),
            old(self).changed(
                *final(self),
                dst,
                forward::plus(old(self).at(a), old(self).at(b)),
            ),
    {
        proof {
            assert(self.at(a).len() == self.n_tok * self.width(a));
            assert(self.at(b).len() == self.n_tok * self.width(b));
            assert(self.at(dst).len() == self.n_tok * self.width(dst));
        }
        let v: Vec<u32> = forward::add_residual(
            self.sheet(a).as_slice(),
            self.sheet(b).as_slice(),
        );
        self.put_sheet(dst, v);
    }

    /// The gates are activated and multiplied by the up projection, given e raised to each
    /// negated gate.
    pub fn gate(&mut self, powers: &[u32])
        requires
            old(self).wf(),
            powers@.len() == old(self).at(Rows::Gate).len(),
        ensures
            final(self).wf(),
            old(self).changed(
                *final(self),
                Rows::Gate,
                layers::ffn_values(old(self).at(Rows::Gate), powers@, old(self).at(Rows::Up)),
            ),
    {
        proof {
            assert(self.at(Rows::Gate).len() == self.n_tok * self.width(Rows::Gate));
            assert(self.at(Rows::Up).len() == self.n_tok * self.width(Rows::Up));
        }
        let v: Vec<u32> = layers::ffn_inner(
            self.sheet(Rows::Gate).as_slice(),
            powers,
            self.sheet(Rows::Up).as_slice(),
        );
        self.put_sheet(Rows::Gate, v);
    }
}

} // verus!
