//! Activation tiles for a batch of prompt tokens.

use vstd::prelude::*;
use vstd::string::*;

use crate::gdev;
use crate::text;

verus! {

/// The tensor with the token embeddings.
pub const EMBED_TENSOR: &'static str = "token_embd.weight";

/// The batch width that a setting asks for: a number from 2 on, else none.
pub open spec fn width_of(setting: Option<Seq<char>>) -> usize {
    match setting {
        Some(s) => match text::number_of(text::trimmed(s), usize::MAX as nat) {
            Some(n) => if n >= 2 {
                n as usize
            } else {
                0
            },
            None => 0,
        },
        None => 0,
    }
}

/// The batch width that a setting asks for; 0 means token by token.
pub fn batch_width(setting: Option<&str>) -> (r: usize)
    ensures
        r == width_of(gdev::opt_view(setting)),
{
    match setting {
        Some(s) => match text::parse_uint(text::trim(s).as_str(), usize::MAX as u64) {
            Some(n) => {
                if n >= 2 {
                    n as usize
                } else {
                    0
                }
            },
            None => 0,
        },
        None => 0,
    }
}

/// Whether a setting asks for batches.
pub fn batch_enabled(setting: Option<&str>) -> (r: bool)
    ensures
        r == (width_of(gdev::opt_view(setting)) > 1),
{
    batch_width(setting) > 1
}

/// A tile of activations: a row of singles, held as patterns, for each token.
#[derive(Debug)]
pub struct Tile {
    n_tokens: usize,
    n_feat: usize,
    data: Vec<u32>,
}

/// The content of a [`Tile`]: its rows.
pub struct TileV {
    pub n_feat: nat,
    pub rows: Seq<Seq<u32>>,
}

/// What a token out of range reports.
pub open spec fn range_text(t: nat, rows: nat) -> Seq<char> {
    "prefill::Tile: token "@ + text::decimal(t) + " out of range ("@ + text::decimal(rows)
        + " rows)"@
}

/// What a row of another width reports.
pub open spec fn width_text(t: nat, got: nat, want: nat) -> Seq<char> {
    "prefill::Tile: row "@ + text::decimal(t) + " width "@ + text::decimal(got)
        + " != tile width "@ + text::decimal(want)
}

pub open spec fn rows_view(s: Seq<Vec<u32>>) -> Seq<Seq<u32>> {
    Seq::new(s.len(), |i: int| s[i]@)
}

/// The first row, among those from `k` on, that has another width.
pub open spec fn first_bad(rows: Seq<Seq<u32>>, n_feat: nat, k: int) -> Option<int>
    decreases rows.len() - k,
{
    if k < 0 || k >= rows.len() {
        None
    } else if rows[k].len() != n_feat {
        Some(k)
    } else {
        first_bad(rows, n_feat, k + 1)
    }
}

impl Tile {
    /// The data is the rows, one after the other.
    pub closed spec fn wf(&self) -> bool {
        self.data@.len() == self.n_tokens * self.n_feat
    }

    pub closed spec fn view(&self) -> TileV {
        TileV {
            n_feat: self.n_feat as nat,
            rows: Seq::new(
                self.n_tokens as nat,
                |t: int| self.data@.subrange(t * self.n_feat, t * self.n_feat + self.n_feat),
            ),
        }
    }

    /// The data in order of tokens, then features.
    pub closed spec fn flat(&self) -> Seq<u32> {
        self.data@
    }

    /// A tile of zeros.
    pub fn new(n_tokens: usize, n_feat: usize) -> (r: Tile)
        requires
            n_tokens * n_feat <= usize::MAX,
        ensures
            r.wf(),
            r@.n_feat == n_feat,
            r@.rows == Seq::new(n_tokens as nat, |t: int| Seq::new(n_feat as nat, |f: int| 0u32)),
            r.flat() == Seq::new((n_tokens * n_feat) as nat, |i: int| 0u32),
    {
        let total: usize = n_tokens * n_feat;
        let mut data: Vec<u32> = Vec::new();
        while data.len() < total
            invariant
                data@.len() <= total,
                forall|i: int| 0 <= i < data@.len() ==> data@[i] == 0,
            decreases total - data@.len(),
        {
            data.push(0);
        }
        let r = Tile { n_tokens, n_feat, data };
        proof {
            let want = Seq::new(n_tokens as nat, |t: int| Seq::new(n_feat as nat, |f: int| 0u32));
            assert forall|t: int| 0 <= t < n_tokens implies #[trigger] r@.rows[t] == want[t] by {
                lemma_row_bounds(n_tokens as int, n_feat as int, t);
                assert(r@.rows[t] =~= want[t]);
            }
            assert(r@.rows =~= want);
            assert(r.flat() =~= Seq::new((n_tokens * n_feat) as nat, |i: int| 0u32));
        }
        r
    }

    pub fn n_tokens(&self) -> (r: usize)
        ensures
            r == self@.rows.len(),
    {
        self.n_tokens
    }

    pub fn n_feat(&self) -> (r: usize)
        ensures
            r == self@.n_feat,
    {
        self.n_feat
    }

    pub fn len(&self) -> (r: usize)
        ensures
            r == self.flat().len(),
    {
        self.data.len()
    }

    pub fn is_empty(&self) -> (r: bool)
        ensures
            r == (self.flat().len() == 0),
    {
        self.data.len() == 0
    }

    /// The data in order of tokens, then features.
    pub fn as_slice(&self) -> (r: &[u32])
        ensures
            r@ == self.flat(),
    {
        self.data.as_slice()
    }

    /// The data as little-endian bytes.
    pub fn bytes(&self) -> (r: Vec<u8>)
        ensures
            r@ == words_bytes(self.flat()),
    {
        let n: usize = self.data.len();
        let mut out: Vec<u8> = Vec::new();
        let mut i: usize = 0;
        assert(self.data@.take(0) =~= Seq::<u32>::empty());
        while i < n
            invariant
                i <= n,
                n == self.data@.len(),
                out@ == words_bytes(self.data@.take(i as int)),
            decreases n - i,
        {
            crate::le::push_le(&mut out, self.data[i] as u64, 4);
            proof {
                let now = self.data@.take(i + 1);
                assert(now.drop_last() =~= self.data@.take(i as int));
            }
            i += 1;
        }
        assert(self.data@.take(i as int) =~= self.data@);
        out
    }

    /// The row of a token.
    pub fn row(&self, t: usize) -> (r: Result<&[u32], String>)
        requires
            self.wf(),
        ensures
            match r {
                Ok(row) => t < self@.rows.len() && row@ == self@.rows[t as int],
                Err(m) => t >= self@.rows.len() && m@ == range_text(t as nat, self@.rows.len()),
            },
    {
        if t >= self.n_tokens {
            return Err(range_message(t, self.n_tokens));
        }
        proof {
            lemma_row_bounds(self.n_tokens as int, self.n_feat as int, t as int);
        }
        let total: usize = self.data.len();
        let a: usize = t * self.n_feat;
        Ok(vstd::slice::slice_subrange(self.data.as_slice(), a, a + self.n_feat))
    }

    /// Overwrites the row of a token.
    pub fn set_row(&mut self, t: usize, row: &[u32]) -> (r: Result<(), String>)
        requires
            old(self).wf(),
        ensures
            final(self).wf(),
            match r {
                Ok(_) => {
                    &&& t < old(self)@.rows.len()
                    &&& row@.len() == old(self)@.n_feat
                    &&& final(self)@.n_feat == old(self)@.n_feat
                    &&& final(self)@.rows == old(self)@.rows.update(t as int, row@)
                },
                Err(m) => {
                    &&& *final(self) == *old(self)
                    &&& if t >= old(self)@.rows.len() {
                        m@ == range_text(t as nat, old(self)@.rows.len())
                    } else {
                        row@.len() != old(self)@.n_feat && m@ == width_text(
                            t as nat,
                            row@.len(),
                            old(self)@.n_feat,
                        )
                    }
                },
            },
    {
        if t >= self.n_tokens {
            return Err(range_message(t, self.n_tokens));
        }
        if row.len() != self.n_feat {
            let mut m = "prefill::Tile: row ".to_owned();
            text::push_decimal(&mut m, t as u64);
            m.append(" width ");
            text::push_decimal(&mut m, row.len() as u64);
            m.append(" != tile width ");
            text::push_decimal(&mut m, self.n_feat as u64);
            return Err(m);
        }
        let n: usize = self.n_feat;
        let rows: usize = self.n_tokens;
        let total: usize = self.data.len();
        proof {
            lemma_row_bounds(rows as int, n as int, t as int);
        }
        let a: usize = t * n;
        let ghost d0 = self.data@;
        let mut f: usize = 0;
        while f < n
            invariant
                f <= n,
                n == row@.len(),
                a + n <= total,
                total == d0.len(),
                self.data@.len() == d0.len(),
                self.n_feat == n,
                self.n_tokens == rows,
                forall|i: int|
                    0 <= i < d0.len() ==> #[trigger] self.data@[i] == if a <= i < a + f {
                        row@[i - a]
                    } else {
                        d0[i]
                    },
            decreases n - f,
        {
            self.data.set(a + f, row[f]);
            f += 1;
        }
        proof {
            let want = old(self)@.rows.update(t as int, row@);
            assert forall|k: int| 0 <= k < rows implies #[trigger] self@.rows[k] == want[k] by {
                lemma_row_bounds(rows as int, n as int, k);
                lemma_rows_apart(n as int, t as int, k);
                assert(self@.rows[k] =~= want[k]);
            }
            assert(self@.rows =~= want);
        }
        Ok(())
    }

    /// A tile of given rows. Refuses the first row of another width.
    pub fn from_rows(n_feat: usize, rows: &Vec<Vec<u32>>) -> (r: Result<Tile, String>)
        requires
            rows@.len() * n_feat <= usize::MAX,
        ensures
            match r {
                Ok(t) => {
                    &&& first_bad(rows_view(rows@), n_feat as nat, 0) is None
                    &&& t.wf()
                    &&& t@.n_feat == n_feat
                    &&& t@.rows == rows_view(rows@)
                },
                Err(m) => first_bad(rows_view(rows@), n_feat as nat, 0) matches Some(k) && m@
                    == width_text(k as nat, rows@[k]@.len(), n_feat as nat),
            },
    {
        let n: usize = rows.len();
        let ghost all = rows_view(rows@);
        let mut t = Tile::new(n, n_feat);
        let mut k: usize = 0;
        while k < n
            invariant
                k <= n,
                n == rows@.len(),
                all == rows_view(rows@),
                t.wf(),
                t@.n_feat == n_feat,
                t@.rows.len() == n,
                first_bad(all, n_feat as nat, 0) == first_bad(all, n_feat as nat, k as int),
                forall|i: int| 0 <= i < k ==> #[trigger] t@.rows[i] == all[i],
            decreases n - k,
        {
            if let Err(m) = t.set_row(k, rows[k].as_slice()) {
                return Err(m);
            }
            k += 1;
        }
        assert(t@.rows =~= all);
        Ok(t)
    }
}

fn range_message(t: usize, rows: usize) -> (r: String)
    ensures
        r@ == range_text(t as nat, rows as nat),
{
    let mut m = "prefill::Tile: token ".to_owned();
    text::push_decimal(&mut m, t as u64);
    m.append(" out of range (");
    text::push_decimal(&mut m, rows as u64);
    m.append(" rows)");
    m
}

/// Words as little-endian bytes.
pub open spec fn words_bytes(s: Seq<u32>) -> Seq<u8>
    decreases s.len(),
{
    if s.len() == 0 {
        Seq::empty()
    } else {
        words_bytes(s.drop_last()) + crate::le::le_bytes(s.last() as nat, 4)
    }
}

proof fn lemma_row_bounds(rows: int, n: int, t: int)
    requires
        0 <= t < rows,
        n >= 0,
    ensures
        0 <= t * n,
        t * n + n <= rows * n,
{
    assert(0 <= t * n && t * n + n <= rows * n) by (nonlinear_arith)
        requires
            0 <= t < rows,
            n >= 0,
    ;
}

proof fn lemma_rows_apart(n: int, t: int, k: int)
    requires
        n >= 0,
    ensures
        k < t ==> k * n + n <= t * n,
        k > t ==> t * n + n <= k * n,
{
    if k < t {
        assert(k * n + n <= t * n) by (nonlinear_arith)
            requires
                k < t,
                n >= 0,
        ;
    } else if k > t {
        assert(t * n + n <= k * n) by (nonlinear_arith)
            requires
                t < k,
                n >= 0,
        ;
    }
}

/// The embedding rows of a prompt's tokens as a tile; no tokens make an empty one. Refuses the
/// first row of another width.
pub fn batch_embed(rows: &Vec<Vec<u32>>, n_embd: usize) -> (r: Result<Tile, String>)
    requires
        rows@.len() * n_embd <= usize::MAX,
    ensures
        match r {
            Ok(t) => {
                &&& t.wf()
                &&& t@.rows == rows_view(rows@)
                &&& t@.n_feat == if rows@.len() == 0 {
                    0
                } else {
                    n_embd as nat
                }
                &&& first_bad(rows_view(rows@), n_embd as nat, 0) is None
            },
            Err(m) => first_bad(rows_view(rows@), n_embd as nat, 0) matches Some(k) && m@
                == width_text(k as nat, rows@[k]@.len(), n_embd as nat),
        },
{
    if rows.len() == 0 {
        let t = Tile::new(0, 0);
        assert(t@.rows =~= rows_view(rows@));
        return Ok(t);
    }
    Tile::from_rows(n_embd, rows)
}

} // verus!
