//! The drafter's encoder: the features of the target's layers, brought to the drafter's width.

use vstd::prelude::*;
use vstd::string::*;

use crate::dots;
use crate::dspark;
use crate::dspark::Dspark;
use crate::kernels;
use crate::norms;
use crate::text;

verus! {

/// The projection of the features.
pub const PROJECTION: &'static str = "dspark.fc.weight";

/// The weights of the norm behind it.
pub const HIDDEN_NORM: &'static str = "dspark.hidden_norm.weight";

/// The features of a token.
pub open spec fn width(d: Dspark) -> int {
    d.cfg.target_layers@.len() * d.cfg.n_embd
}

/// Why features are refused; nothing if they are not.
pub open spec fn features_error(d: Dspark, len: int, n_tok: int) -> Option<Seq<char>> {
    if len != n_tok * width(d) {
        Some(
            "dspark encode: features len "@ + text::decimal(len as nat) + " != "@ + text::decimal(
                n_tok as nat,
            ) + " * "@ + text::decimal(width(d) as nat),
        )
    } else {
        None
    }
}

/// Why a tensor cannot be read whole; nothing if it can.
pub open spec fn read_error(d: Dspark, name: Seq<char>) -> Option<Seq<char>> {
    match dspark::payload_error(d, name) {
        Some(e) => Some(e),
        None => {
            let t = d.record(dspark::found(d, name)->0);
            if dspark::supported(t.ty) {
                None
            } else {
                Some("dspark "@ + name + ": unsupported type "@ + text::decimal(t.ty as nat))
            }
        },
    }
}

/// A tensor read whole.
pub open spec fn values_of(d: Dspark, name: Seq<char>) -> Seq<u32> {
    let at = dspark::found(d, name)->0;
    let t = d.record(at);
    dspark::all_rows(
        t.ty,
        dspark::bytes_of(d.owner(at.0), t),
        dspark::columns(t),
        dspark::rows(t),
    )
}

/// Why features cannot be encoded; nothing if they can.
pub open spec fn encode_error(d: Dspark, len: int, n_tok: int) -> Option<Seq<char>> {
    match features_error(d, len, n_tok) {
        Some(e) => Some(e),
        None => match read_error(d, HIDDEN_NORM@) {
            Some(e) => Some(e),
            None => if n_tok == 0 {
                None
            } else {
                dspark::product_error(
                    d,
                    PROJECTION@,
                    0,
                    d.cfg.n_embd as int,
                    width(d),
                    d.cfg.n_embd as int,
                )
            },
        },
    }
}

/// The features of a token, projected.
pub open spec fn projected(d: Dspark, x: Seq<u32>) -> Seq<u32> {
    let at = dspark::found(d, PROJECTION@)->0;
    let t = d.record(at);
    let b = dspark::bytes_of(d.owner(at.0), t);
    Seq::new(
        d.cfg.n_embd as nat,
        |k: int| dspark::kernel_product(t.ty, b, dspark::columns(t), k, x),
    )
}

/// The features of a token, projected and normalized.
pub open spec fn encoded(d: Dspark, x: Seq<u32>) -> Seq<u32> {
    norms::rms_normed(projected(d, x), values_of(d, HIDDEN_NORM@), d.cfg.eps)
}

/// `out` holds the encoded features of the first `n` tokens.
pub open spec fn encodes(d: Dspark, features: Seq<u32>, out: Seq<u32>, n: int) -> bool {
    &&& out.len() == n * d.cfg.n_embd
    &&& forall|t: int|
        0 <= t < n ==> #[trigger] norms::row_at(out, t, d.cfg.n_embd as int) == encoded(
            d,
            dots::column(features, t, width(d)),
        )
}

proof fn lemma_all_rows_len(ty: u32, b: Seq<u8>, ne0: int, k: int)
    requires
        0 <= k,
        0 <= ne0,
    ensures
        dspark::all_rows(ty, b, ne0, k).len() == k * ne0,
    decreases k,
{
    if k > 0 {
        lemma_all_rows_len(ty, b, ne0, k - 1);
        assert(k * ne0 == (k - 1) * ne0 + ne0) by (nonlinear_arith);
    } else {
        assert(k * ne0 == 0) by (nonlinear_arith)
            requires
                k == 0,
        ;
    }
}

proof fn lemma_row_added(
    d: Dspark,
    features: Seq<u32>,
    had: Seq<u32>,
    new: Seq<u32>,
    n: int,
)
    requires
        encodes(d, features, had, n),
        n >= 0,
        new == encoded(d, dots::column(features, n, width(d))),
    ensures
        encodes(d, features, had + new, n + 1),
{
    let w = d.cfg.n_embd as int;
    let out = had + new;
    assert((n + 1) * w == n * w + w) by (nonlinear_arith);
    assert(0 <= n * w) by (nonlinear_arith)
        requires
            n >= 0,
            w >= 0,
    ;
    assert forall|t: int| 0 <= t < n + 1 implies #[trigger] norms::row_at(out, t, w) == encoded(
        d,
        dots::column(features, t, width(d)),
    ) by {
        assert((t + 1) * w == t * w + w) by (nonlinear_arith);
        if t < n {
            dots::lemma_row_end(t, n, w);
            assert(norms::row_at(out, t, w) =~= norms::row_at(had, t, w));
        } else {
            assert(norms::row_at(out, t, w) =~= new);
        }
    }
}

fn zeros(n: usize) -> (r: Vec<u32>)
    ensures
        r@.len() == n,
{
    let mut v: Vec<u32> = Vec::new();
    let mut i: usize = 0;
    while i < n
        invariant
            i <= n,
            v@.len() == i,
        decreases n - i,
    {
        v.push(0);
        i += 1;
    }
    v
}

impl<'a> Dspark<'a> {
    /// The tensors of the encoder are whole rows, and the norm has a weight for every value.
    pub open spec fn encodable(&self) -> bool {
        &&& self.wf()
        &&& self.cfg.target_layers@.len() * self.cfg.n_embd <= usize::MAX
        &&& dspark::found(*self, PROJECTION@) matches Some(at) ==> dspark::in_rows(self.record(at))
            && self.cfg.n_embd * dspark::row_size(
            self.record(at).ty,
            dspark::columns(self.record(at)),
        ) <= usize::MAX
        &&& dspark::found(*self, HIDDEN_NORM@) matches Some(at) ==> dspark::in_rows(self.record(at))
            && self.cfg.n_embd <= dspark::rows(self.record(at)) * dspark::columns(self.record(at))
    }

    /// Encodes the features of `n_tok` tokens, one row each.
    pub fn encode(&self, features: &[u32], n_tok: usize) -> (r: Result<Vec<u32>, String>)
        requires
            self.encodable(),
        ensures
            match encode_error(*self, features@.len() as int, n_tok as int) {
                Some(e) => r matches Err(m) && m@ == e,
                None => r matches Ok(out) && encodes(*self, features@, out@, n_tok as int),
            },
    {
        self.check_features(features.len(), n_tok)?;
        let weights: Vec<u32> = match self.read_f32(HIDDEN_NORM) {
            Ok(w) => w,
            Err(m) => return Err(m)};
        let n: usize = self.cfg.n_embd;
        let n_enc: usize = self.cfg.n_embd_enc();
        let size: usize = features.len();
        proof {
            let at = dspark::found(*self, HIDDEN_NORM@)->0;
            let t = self.record(at);
            let c = dspark::columns(t);
            assert(dspark::rows(t) >= 0) by {
                let p = crate::gguf::product(t.dims) as int;
                let k = if c > 1 {
                    c
                } else {
                    1
                };
                vstd::arithmetic::div_mod::lemma_div_pos_is_pos(p, k);
            }
            lemma_all_rows_len(
                t.ty,
                dspark::bytes_of(self.owner(at.0), t),
                c,
                dspark::rows(t),
            );
            let w = n as int;
            assert(0 * w == 0) by (nonlinear_arith);
        }
        let mut out: Vec<u32> = Vec::new();
        let mut t: usize = 0;
        while t < n_tok
            invariant
                t <= n_tok,
                self.encodable(),
                n == self.cfg.n_embd,
                n_enc == width(*self),
                size == features@.len(),
                size == n_tok * n_enc,
                read_error(*self, HIDDEN_NORM@) is None,
                weights@ == values_of(*self, HIDDEN_NORM@),
                n <= weights@.len(),
                t > 0 ==> dspark::product_error(
                    *self,
                    PROJECTION@,
                    0,
                    n as int,
                    n_enc as int,
                    n as int,
                ) is None,
                encodes(*self, features@, out@, t as int),
            decreases n_tok - t,
        {
            proof {
                dots::lemma_row_end(t as int, n_tok as int, n_enc as int);
                let (a, b) = (t as int, n_enc as int);
                assert((a + 1) * b == a * b + b) by (nonlinear_arith);
            }
            let at: usize = t * n_enc;
            let x: &[u32] = vstd::slice::slice_subrange(features, at, at + n_enc);
            assert(x@ =~= dots::column(features@, t as int, n_enc as int));
            let mut y: Vec<u32> = zeros(n);
            match self.matvec_range(PROJECTION, 0, n, x, &mut y) {
                Ok(_) => {},
                Err(m) => return Err(m),
            }
            assert(y@ =~= projected(*self, x@));
            let mut row: Vec<u32> = norms::rms_norm(y.as_slice(), weights.as_slice(), self.cfg.eps);
            proof {
                lemma_row_added(*self, features@, out@, row@, t as int);
            }
            out.append(&mut row);
            t += 1;
        }
        Ok(out)
    }
}

} // verus!
