//! Products of quantized rows with vectors of singles, rounded step by step in a fixed order.

use vstd::prelude::*;
use vstd::string::*;

use crate::gguf;
use crate::kernels;
use crate::kernels::{Q4_1_BLOCK, Q4_1_QK};
use crate::single;
use crate::text;

verus! {

/// The half at a place, little-endian.
pub open spec fn half_at(b: Seq<u8>, p: int) -> u16 {
    (b[p] + 256 * b[p + 1]) as u16
}

pub(crate) fn read_half(b: &[u8], p: usize) -> (r: u16)
    requires
        p + 2 <= b@.len(),
    ensures
        r == half_at(b@, p as int),
{
    b[p] as u16 + 256 * b[p + 1] as u16
}

/// How many of `ne0` columns stand in block `k` of `q` columns.
pub open spec fn width(ne0: int, k: int, q: int) -> int {
    if (k + 1) * q <= ne0 {
        q
    } else {
        ne0 - k * q
    }
}

// ---- ternary rows -----------------------------------------------------------------------------

/// The factor of a ternary code: the code less one.
pub open spec fn code_single(code: int) -> u32 {
    if code == 0 {
        single::MINUS_ONE
    } else if code == 1 {
        0
    } else if code == 2 {
        single::ONE
    } else {
        single::TWO
    }
}

/// The sum of the first `n` columns of the block at `base`, each times its factor.
pub open spec fn pq2_block(raw: Seq<u8>, base: int, x: Seq<u32>, off: int, n: int) -> u32
    decreases n,
{
    if n <= 0 {
        0
    } else {
        single::sum_of(
            pq2_block(raw, base, x, off, n - 1),
            single::product_of(x[off + n - 1], code_single(gguf::pq2_code(raw, base, n - 1))),
        )
    }
}

/// The product of a ternary row at `at` with `x`, up to block `k`: each block's sum times its
/// scale.
pub open spec fn pq2_dot(raw: Seq<u8>, at: int, ne0: int, x: Seq<u32>, k: int) -> u32
    decreases k,
{
    if k <= 0 {
        0
    } else {
        let base = at + (k - 1) * 34;
        single::sum_of(
            pq2_dot(raw, at, ne0, x, k - 1),
            single::product_of(
                single::wide(half_at(raw, base)),
                pq2_block(raw, base, x, (k - 1) * 128, width(ne0, k - 1, 128)),
            ),
        )
    }
}

/// The product of row `row` of a ternary matrix with `x`.
pub open spec fn pq2_row(raw: Seq<u8>, ne0: int, row: int, x: Seq<u32>) -> u32 {
    pq2_dot(raw, row * kernels::pq2_stride(ne0), ne0, x, kernels::blocks(ne0, 128))
}

pub(crate) fn factor(code: u8) -> (r: u32)
    requires
        code < 4,
    ensures
        r == code_single(code as int),
{
    if code == 0 {
        single::MINUS_ONE
    } else if code == 1 {
        0
    } else if code == 2 {
        single::ONE
    } else {
        single::TWO
    }
}

pub(crate) fn code_at(raw: &[u8], base: usize, j: usize) -> (r: u8)
    requires
        j < 128,
        base + 34 <= raw@.len(),
    ensures
        r == gguf::pq2_code(raw@, base as int, j as int),
        r < 4,
{
    let size: usize = raw.len();
    assert(base + 34 <= size);
    let byte: u8 = raw[base + 2 + j / 4];
    if j % 4 == 0 {
        byte % 4
    } else if j % 4 == 1 {
        byte / 4 % 4
    } else if j % 4 == 2 {
        byte / 16 % 4
    } else {
        byte / 64
    }
}

/// The product of the ternary row at `at` with `x`.
pub fn row_dot_scalar(raw: &[u8], at: usize, ne0: usize, x: &[u32]) -> (r: u32)
    requires
        at + kernels::pq2_stride(ne0 as int) <= raw@.len(),
        x@.len() == ne0,
    ensures
        r == pq2_dot(raw@, at as int, ne0 as int, x@, kernels::blocks(ne0 as int, 128)),
{
    let size: usize = raw.len();
    let n: usize = kernels::div_ceil(ne0, 128);
    let mut acc: u32 = 0;
    let mut k: usize = 0;
    while k < n
        invariant
            k <= n,
            n == kernels::blocks(ne0 as int, 128),
            at + n * 34 <= size,
            size == raw@.len(),
            x@.len() == ne0,
            acc == pq2_dot(raw@, at as int, ne0 as int, x@, k as int),
        decreases n - k,
    {
        let base: usize = at + k * 34;
        let off: usize = k * 128;
        let w: usize = if ne0 - off >= 128 {
            128
        } else {
            ne0 - off
        };
        assert(w == width(ne0 as int, k as int, 128));
        let mut sum: u32 = 0;
        let mut j: usize = 0;
        while j < w
            invariant
                j <= w <= 128,
                off + w <= ne0,
                x@.len() == ne0,
                base + 34 <= size,
                size == raw@.len(),
                sum == pq2_block(raw@, base as int, x@, off as int, j as int),
            decreases w - j,
        {
            let c: u8 = code_at(raw, base, j);
            sum = single::sum(sum, single::product(x[off + j], factor(c)));
            j += 1;
        }
        acc = single::sum(acc, single::product(single::widen(read_half(raw, base)), sum));
        k += 1;
    }
    acc
}

/// `after` is `before` with its first `n` places set by `f`.
pub open spec fn filled(before: Seq<u32>, after: Seq<u32>, n: int, f: spec_fn(int) -> u32) -> bool {
    &&& after.len() == before.len()
    &&& forall|k: int| 0 <= k < n ==> #[trigger] after[k] == f(k)
    &&& forall|k: int| n <= k < after.len() ==> #[trigger] after[k] == before[k]
}

pub proof fn lemma_row_end(row: int, last: int, stride: int)
    requires
        0 <= row < last,
        0 <= stride,
    ensures
        row * stride + stride <= last * stride,
        0 <= row * stride,
{
    assert(row * stride + stride <= last * stride && 0 <= row * stride) by (nonlinear_arith)
        requires
            0 <= row < last,
            0 <= stride,
    ;
}

/// Multiplies rows of a ternary matrix by a vector.
pub fn pq2_matvec_range(
    payload: &[u8],
    ne0: usize,
    base_row: usize,
    n_rows: usize,
    x: &[u32],
    y: &mut Vec<u32>,
) -> (r: Result<(), String>)
    requires
        base_row + n_rows <= usize::MAX,
        kernels::pq2_stride(ne0 as int) <= usize::MAX,
    ensures
        kernels::says(
            r,
            kernels::pq2_range_error(
                payload@.len() as int,
                ne0 as int,
                base_row as int,
                n_rows as int,
                x@.len() as int,
                old(y)@.len() as int,
            ),
        ),
        r is Err ==> final(y)@ == old(y)@,
        r is Ok ==> filled(
            old(y)@,
            final(y)@,
            n_rows as int,
            |k: int| pq2_row(payload@, ne0 as int, base_row + k, x@),
        ),
{
    let size: usize = payload.len();
    let n_x: usize = x.len();
    match kernels::check_pq2_range(payload.len(), ne0, base_row, n_rows, x.len(), y.len()) {
        Ok(_) => {},
        Err(m) => {
            return Err(m);
        },
    }
    let stride: usize = kernels::pq2_row_bytes(ne0);
    let ghost f = |k: int| pq2_row(payload@, ne0 as int, base_row + k, x@);
    let mut k: usize = 0;
    while k < n_rows
        invariant
            k <= n_rows <= y@.len(),
            y@.len() == old(y)@.len(),
            stride == kernels::pq2_stride(ne0 as int),
            (base_row + n_rows) * stride <= size,
            size == payload@.len(),
            base_row + n_rows <= usize::MAX,
            x@.len() == ne0,
            f == (|k: int| pq2_row(payload@, ne0 as int, base_row + k, x@)),
            filled(old(y)@, y@, k as int, f),
        decreases n_rows - k,
    {
        proof {
            lemma_row_end(base_row + k, base_row + n_rows, stride as int);
        }
        let v: u32 = row_dot_scalar(payload, (base_row + k) * stride, ne0, x);
        assert(v == f(k as int));
        y.set(k, v);
        k += 1;
    }
    Ok(())
}

/// Column `t` of a matrix of `n` rows of `w`.
pub open spec fn column(x: Seq<u32>, t: int, w: int) -> Seq<u32> {
    x.subrange(t * w, (t + 1) * w)
}

/// `y` holds, for each of `n_tok` columns of `x`, the products with all rows.
pub open spec fn multiplied(
    before: Seq<u32>,
    after: Seq<u32>,
    n_tok: int,
    n: int,
    f: spec_fn(int, int) -> u32,
) -> bool {
    &&& after.len() == before.len()
    &&& forall|t: int, k: int|
        0 <= t < n_tok && 0 <= k < n ==> after[#[trigger] place(t, n, k)] == f(t, k)
    &&& forall|p: int| n_tok * n <= p < after.len() ==> #[trigger] after[p] == before[p]
}

/// Where column `t` has the product with row `k`.
pub open spec fn place(t: int, n: int, k: int) -> int {
    t * n + k
}

pub proof fn lemma_place(t: int, n_tok: int, n: int, k: int)
    requires
        0 <= t < n_tok,
        0 <= k < n,
    ensures
        0 <= place(t, n, k) < n_tok * n,
{
    assert(0 <= t * n + k < n_tok * n) by (nonlinear_arith)
        requires
            0 <= t < n_tok,
            0 <= k < n,
    ;
}

proof fn lemma_place_unique(t: int, k: int, t2: int, k2: int, n: int)
    requires
        0 <= k < n,
        0 <= k2 < n,
        place(t, n, k) == place(t2, n, k2),
    ensures
        t == t2,
        k == k2,
{
    assert(t == t2) by (nonlinear_arith)
        requires
            0 <= k < n,
            0 <= k2 < n,
            t * n + k == t2 * n + k2,
    ;
}

/// What is said of a range of ternary rows that one thread cannot multiply.
pub open spec fn single_error(
    payload: int,
    ne0: int,
    base: int,
    n: int,
    x_len: int,
    y_len: int,
) -> Option<Seq<char>> {
    let need = (base + n) * kernels::pq2_stride(ne0);
    if x_len != ne0 {
        Some("pq2_matvec_range_single: x length mismatch"@)
    } else if y_len < n {
        Some("pq2_matvec_range_single: y too small"@)
    } else if need > usize::MAX {
        Some("pq2_matvec_range_single: overflow"@)
    } else if need > payload {
        Some("pq2_matvec_range_single: row range exceeds payload"@)
    } else {
        None
    }
}

/// Multiplies a range of ternary rows by a vector, on one thread.
pub fn pq2_matvec_range_single(
    payload: &[u8],
    ne0: usize,
    base_row: usize,
    n_rows: usize,
    x: &[u32],
    y: &mut Vec<u32>,
) -> (r: Result<(), String>)
    requires
        base_row + n_rows <= usize::MAX,
        kernels::pq2_stride(ne0 as int) <= usize::MAX,
    ensures
        kernels::says(
            r,
            single_error(
                payload@.len() as int,
                ne0 as int,
                base_row as int,
                n_rows as int,
                x@.len() as int,
                old(y)@.len() as int,
            ),
        ),
        r is Err ==> final(y)@ == old(y)@,
        r is Ok ==> filled(
            old(y)@,
            final(y)@,
            n_rows as int,
            |k: int| pq2_row(payload@, ne0 as int, base_row + k, x@),
        ),
{
    if x.len() != ne0 {
        return Err("pq2_matvec_range_single: x length mismatch".to_owned());
    }
    if y.len() < n_rows {
        return Err("pq2_matvec_range_single: y too small".to_owned());
    }
    let need: usize = match (base_row + n_rows).checked_mul(kernels::pq2_row_bytes(ne0)) {
        Some(v) => v,
        None => return Err("pq2_matvec_range_single: overflow".to_owned()),
    };
    if need > payload.len() {
        return Err("pq2_matvec_range_single: row range exceeds payload".to_owned());
    }
    pq2_matvec_range(payload, ne0, base_row, n_rows, x, y)
}

/// Multiplies rows of a ternary matrix by several columns; each row is taken once for all of
/// them.
pub fn pq2_matmul_n(
    payload: &[u8],
    ne0: usize,
    base_row: usize,
    n_rows: usize,
    x: &[u32],
    n_tok: usize,
    y: &mut Vec<u32>,
) -> (r: Result<(), String>)
    requires
        base_row + n_rows <= usize::MAX,
        kernels::pq2_stride(ne0 as int) <= usize::MAX,
    ensures
        kernels::says(
            r,
            kernels::matmul_error(
                payload@.len() as int,
                ne0 as int,
                base_row as int,
                n_rows as int,
                n_tok as int,
                x@.len() as int,
                old(y)@.len() as int,
            ),
        ),
        r is Err ==> final(y)@ == old(y)@,
        r is Ok ==> multiplied(
            old(y)@,
            final(y)@,
            n_tok as int,
            n_rows as int,
            |t: int, k: int|
                pq2_row(payload@, ne0 as int, base_row + k, column(x@, t, ne0 as int)),
        ),
{
    let size: usize = payload.len();
    let n_x: usize = x.len();
    let n_y: usize = y.len();
    match kernels::check_pq2_matmul(
        payload.len(),
        ne0,
        base_row,
        n_rows,
        n_tok,
        x.len(),
        y.len(),
    ) {
        Ok(_) => {},
        Err(m) => {
            return Err(m);
        },
    }
    let stride: usize = kernels::pq2_row_bytes(ne0);
    let ghost f = |t: int, k: int|
        pq2_row(payload@, ne0 as int, base_row + k, column(x@, t, ne0 as int));
    let mut k: usize = 0;
    while k < n_rows
        invariant
            k <= n_rows,
            n_tok * n_rows <= n_y,
            n_y == y@.len(),
            y@.len() == old(y)@.len(),
            stride == kernels::pq2_stride(ne0 as int),
            (base_row + n_rows) * stride <= size,
            size == payload@.len(),
            base_row + n_rows <= usize::MAX,
            n_x == n_tok * ne0,
                n_x == x@.len(),
            f == (|t: int, k: int|
                pq2_row(payload@, ne0 as int, base_row + k, column(x@, t, ne0 as int))),
            forall|t: int, i: int|
                0 <= t < n_tok && 0 <= i < k ==> y@[#[trigger] place(t, n_rows as int, i)] == f(
                    t,
                    i,
                ),
            forall|p: int| n_tok * n_rows <= p < y@.len() ==> #[trigger] y@[p] == old(y)@[p],
        decreases n_rows - k,
    {
        let mut t: usize = 0;
        while t < n_tok
            invariant
                t <= n_tok,
                k < n_rows,
                n_tok * n_rows <= n_y,
                n_y == y@.len(),
                y@.len() == old(y)@.len(),
                stride == kernels::pq2_stride(ne0 as int),
                (base_row + n_rows) * stride <= size,
            size == payload@.len(),
            base_row + n_rows <= usize::MAX,
                n_x == n_tok * ne0,
                n_x == x@.len(),
                f == (|t: int, k: int|
                    pq2_row(payload@, ne0 as int, base_row + k, column(x@, t, ne0 as int))),
                forall|s: int, i: int|
                    0 <= s < n_tok && 0 <= i < n_rows && (i < k || i == k && s < t)
                        ==> y@[#[trigger] place(s, n_rows as int, i)] == f(s, i),
                forall|p: int| n_tok * n_rows <= p < y@.len() ==> #[trigger] y@[p] == old(y)@[p],
            decreases n_tok - t,
        {
            proof {
                lemma_row_end(base_row + k, base_row + n_rows, stride as int);
                lemma_row_end(t as int, n_tok as int, ne0 as int);
                lemma_place(t as int, n_tok as int, n_rows as int, k as int);
                let (ti, ni) = (t as int, ne0 as int);
                assert((ti + 1) * ni == ti * ni + ni) by (nonlinear_arith);
                let (ri, ki) = (n_rows as int, k as int);
                assert(0 <= ti * ri) by (nonlinear_arith)
                    requires
                        ti >= 0,
                        ri >= 0,
                ;
            }
            let from: usize = t * ne0;
            let xs: &[u32] = vstd::slice::slice_subrange(x, from, from + ne0);
            assert(xs@ =~= column(x@, t as int, ne0 as int));
            let v: u32 = row_dot_scalar(payload, (base_row + k) * stride, ne0, xs);
            let p: usize = t * n_rows + k;
            let ghost before = y@;
            y.set(p, v);
            proof {
                assert(p == place(t as int, n_rows as int, k as int));
                assert(v == f(t as int, k as int));
                assert forall|s: int, i: int|
                    0 <= s < n_tok && 0 <= i < n_rows && (i < k || i == k && s < t
                        + 1) implies y@[#[trigger] place(s, n_rows as int, i)] == f(s, i) by {
                    lemma_place(s, n_tok as int, n_rows as int, i);
                    if place(s, n_rows as int, i) == p {
                        lemma_place_unique(s, i, t as int, k as int, n_rows as int);
                    } else {
                        assert(y@[place(s, n_rows as int, i)] == before[place(
                            s,
                            n_rows as int,
                            i,
                        )]);
                    }
                }
            }
            t += 1;
        }
        k += 1;
    }
    Ok(())
}

/// Multiplying by one column is multiplying by a vector.
pub proof fn law_one_column_is_a_vector(
    raw: Seq<u8>,
    ne0: int,
    row: int,
    x: Seq<u32>,
)
    requires
        x.len() == ne0,
    ensures
        pq2_row(raw, ne0, row, column(x, 0, ne0)) == pq2_row(raw, ne0, row, x),
{
    assert(0 * ne0 == 0 && (0 + 1) * ne0 == ne0) by (nonlinear_arith);
    assert(column(x, 0, ne0) =~= x);
}

// ---- 4-bit rows -------------------------------------------------------------------------------

/// The sum of `n` values from `off` on.
pub open spec fn block_sum(x: Seq<u32>, off: int, n: int) -> u32
    decreases n,
{
    if n <= 0 {
        0
    } else {
        single::sum_of(block_sum(x, off, n - 1), x[off + n - 1])
    }
}

/// The sum over the first `j` nibble pairs of the block at `base`, of which `n` columns count.
pub open spec fn q4_1_block(raw: Seq<u8>, base: int, x: Seq<u32>, off: int, n: int, j: int) -> u32
    decreases j,
{
    if j <= 0 {
        0
    } else {
        let byte = raw[base + 4 + j - 1] as int;
        let p = q4_1_block(raw, base, x, off, n, j - 1);
        let a = if j - 1 < n {
            single::sum_of(
                p,
                single::product_of(x[off + j - 1], single::single_of((byte % 16) as nat)),
            )
        } else {
            p
        };
        if 16 + j - 1 < n {
            single::sum_of(
                a,
                single::product_of(x[off + 16 + j - 1], single::single_of((byte / 16) as nat)),
            )
        } else {
            a
        }
    }
}

/// The product of a 4-bit row at `at` with `x`, up to block `k`.
pub open spec fn q4_1_dot(raw: Seq<u8>, at: int, ne0: int, x: Seq<u32>, k: int) -> u32
    decreases k,
{
    if k <= 0 {
        0
    } else {
        let base = at + (k - 1) * 20;
        let w = width(ne0, k - 1, 32);
        single::sum_of(
            q4_1_dot(raw, at, ne0, x, k - 1),
            single::sum_of(
                single::product_of(
                    single::wide(half_at(raw, base)),
                    q4_1_block(raw, base, x, (k - 1) * 32, w, 16),
                ),
                single::product_of(
                    single::wide(half_at(raw, base + 2)),
                    block_sum(x, (k - 1) * 32, w),
                ),
            ),
        )
    }
}

/// The product of row `row` of a 4-bit matrix with `x`.
pub open spec fn q4_1_row(raw: Seq<u8>, ne0: int, row: int, x: Seq<u32>) -> u32 {
    q4_1_dot(raw, row * kernels::q4_1_stride(ne0), ne0, x, kernels::blocks(ne0, 32))
}

/// The sums of a vector's blocks.
pub fn block_sums(x: &[u32]) -> (r: Vec<u32>)
    ensures
        r@.len() == kernels::blocks(x@.len() as int, 32),
        forall|k: int|
            0 <= k < r@.len() ==> #[trigger] r@[k] == block_sum(
                x@,
                k * 32,
                width(x@.len() as int, k, 32),
            ),
{
    let len: usize = x.len();
    let n: usize = kernels::div_ceil(len, Q4_1_QK);
    let mut out: Vec<u32> = Vec::new();
    let mut k: usize = 0;
    while k < n
        invariant
            k <= n,
            len == x@.len(),
            n == kernels::blocks(len as int, 32),
            out@.len() == k,
            forall|i: int|
                0 <= i < k ==> #[trigger] out@[i] == block_sum(
                    x@,
                    i * 32,
                    width(len as int, i, 32),
                ),
        decreases n - k,
    {
        let off: usize = k * 32;
        let w: usize = if len - off >= 32 {
            32
        } else {
            len - off
        };
        let mut sum: u32 = 0;
        let mut j: usize = 0;
        while j < w
            invariant
                j <= w,
                off + w <= len,
                len == x@.len(),
                sum == block_sum(x@, off as int, j as int),
            decreases w - j,
        {
            sum = single::sum(sum, x[off + j]);
            j += 1;
        }
        out.push(sum);
        k += 1;
    }
    out
}

/// The product of the 4-bit row at `at` with `x`, whose block sums are given.
pub fn q4_1_row_dot_scalar(raw: &[u8], at: usize, ne0: usize, x: &[u32], xbs: &Vec<u32>) -> (r: u32)
    requires
        at + kernels::q4_1_stride(ne0 as int) <= raw@.len(),
        x@.len() == ne0,
        xbs@.len() == kernels::blocks(ne0 as int, 32),
        forall|k: int|
            0 <= k < xbs@.len() ==> #[trigger] xbs@[k] == block_sum(
                x@,
                k * 32,
                width(ne0 as int, k, 32),
            ),
    ensures
        r == q4_1_dot(raw@, at as int, ne0 as int, x@, kernels::blocks(ne0 as int, 32)),
{
    let size: usize = raw.len();
    let n: usize = kernels::div_ceil(ne0, Q4_1_QK);
    let mut acc: u32 = 0;
    let mut k: usize = 0;
    while k < n
        invariant
            k <= n,
            n == kernels::blocks(ne0 as int, 32),
            at + n * 20 <= size,
            size == raw@.len(),
            x@.len() == ne0,
            xbs@.len() == n,
            forall|k: int|
                0 <= k < xbs@.len() ==> #[trigger] xbs@[k] == block_sum(
                    x@,
                    k * 32,
                    width(ne0 as int, k, 32),
                ),
            acc == q4_1_dot(raw@, at as int, ne0 as int, x@, k as int),
        decreases n - k,
    {
        let base: usize = at + k * Q4_1_BLOCK;
        let off: usize = k * 32;
        let w: usize = if ne0 - off >= 32 {
            32
        } else {
            ne0 - off
        };
        let mut sum: u32 = 0;
        let mut j: usize = 0;
        while j < 16
            invariant
                j <= 16,
                w <= 32,
                off + w <= ne0,
                x@.len() == ne0,
                base + 20 <= size,
                size == raw@.len(),
                sum == q4_1_block(raw@, base as int, x@, off as int, w as int, j as int),
            decreases 16 - j,
        {
            let byte: u8 = raw[base + 4 + j];
            if j < w {
                let q: u32 = single::from_uint((byte % 16) as u64);
                sum = single::sum(sum, single::product(x[off + j], q));
            }
            if 16 + j < w {
                let q: u32 = single::from_uint((byte / 16) as u64);
                sum = single::sum(sum, single::product(x[off + 16 + j], q));
            }
            j += 1;
        }
        let d: u32 = single::widen(read_half(raw, base));
        let m: u32 = single::widen(read_half(raw, base + 2));
        acc = single::sum(
            acc,
            single::sum(single::product(d, sum), single::product(m, xbs[k])),
        );
        k += 1;
    }
    acc
}

/// Multiplies rows of a 4-bit matrix by a vector.
pub fn q4_1_matvec_range(
    payload: &[u8],
    ne0: usize,
    base_row: usize,
    n_rows: usize,
    x: &[u32],
    y: &mut Vec<u32>,
) -> (r: Result<(), String>)
    requires
        base_row + n_rows <= usize::MAX,
        kernels::q4_1_stride(ne0 as int) <= usize::MAX,
    ensures
        kernels::says(
            r,
            kernels::q4_1_range_error(
                payload@.len() as int,
                ne0 as int,
                base_row as int,
                n_rows as int,
                x@.len() as int,
                old(y)@.len() as int,
            ),
        ),
        r is Err ==> final(y)@ == old(y)@,
        r is Ok ==> filled(
            old(y)@,
            final(y)@,
            n_rows as int,
            |k: int| q4_1_row(payload@, ne0 as int, base_row + k, x@),
        ),
{
    let size: usize = payload.len();
    let n_x: usize = x.len();
    match kernels::check_q4_1_range(payload.len(), ne0, base_row, n_rows, x.len(), y.len()) {
        Ok(_) => {},
        Err(m) => {
            return Err(m);
        },
    }
    let stride: usize = kernels::q4_1_row_bytes(ne0);
    let xbs: Vec<u32> = block_sums(x);
    let ghost f = |k: int| q4_1_row(payload@, ne0 as int, base_row + k, x@);
    let mut k: usize = 0;
    while k < n_rows
        invariant
            k <= n_rows <= y@.len(),
            y@.len() == old(y)@.len(),
            stride == kernels::q4_1_stride(ne0 as int),
            (base_row + n_rows) * stride <= size,
            size == payload@.len(),
            base_row + n_rows <= usize::MAX,
            x@.len() == ne0,
            xbs@.len() == kernels::blocks(ne0 as int, 32),
            forall|k: int|
                0 <= k < xbs@.len() ==> #[trigger] xbs@[k] == block_sum(
                    x@,
                    k * 32,
                    width(ne0 as int, k, 32),
                ),
            f == (|k: int| q4_1_row(payload@, ne0 as int, base_row + k, x@)),
            filled(old(y)@, y@, k as int, f),
        decreases n_rows - k,
    {
        proof {
            lemma_row_end(base_row + k, base_row + n_rows, stride as int);
        }
        let v: u32 = q4_1_row_dot_scalar(payload, (base_row + k) * stride, ne0, x, &xbs);
        assert(v == f(k as int));
        y.set(k, v);
        k += 1;
    }
    Ok(())
}

// ---- one row ----------------------------------------------------------------------------------

/// The sum of the products of `x` with decoded values, in order.
pub open spec fn dense_dot(x: Seq<u32>, w: Seq<u32>, n: int) -> u32
    decreases n,
{
    if n <= 0 {
        0
    } else {
        single::sum_of(dense_dot(x, w, n - 1), single::product_of(x[n - 1], w[n - 1]))
    }
}

/// The product of a vector with decoded values.
pub fn dot(x: &[u32], w: &Vec<u32>) -> (r: u32)
    requires
        x@.len() == w@.len(),
    ensures
        r == dense_dot(x@, w@, x@.len() as int),
{
    let mut acc: u32 = 0;
    let mut i: usize = 0;
    while i < x.len()
        invariant
            i <= x@.len(),
            x@.len() == w@.len(),
            acc == dense_dot(x@, w@, i as int),
        decreases x@.len() - i,
    {
        acc = single::sum(acc, single::product(x[i], w[i]));
        i += 1;
    }
    acc
}

/// Why a row of a ternary matrix cannot be multiplied; nothing if it can.
pub open spec fn row_error(payload: int, ne0: int, row: int, x_len: int) -> Option<Seq<char>> {
    let stride = kernels::pq2_stride(ne0);
    if x_len != ne0 {
        Some(
            "dot_pq2_0_row: x length "@ + text::decimal(x_len as nat) + " != ne0 "@
                + text::decimal(ne0 as nat),
        )
    } else if row * stride + stride > payload {
        Some(
            "dot_pq2_0_row: row "@ + text::decimal(row as nat) + " needs bytes "@ + text::decimal(
                (row * stride) as nat,
            ) + ".."@ + text::decimal((row * stride + stride) as nat) + ", payload is "@
                + text::decimal(payload as nat),
        )
    } else {
        None
    }
}

/// Multiplies a row of a ternary matrix by a vector, value by value: `r` is the sum over decoded
/// values `w`.
pub fn dot_pq2_0_row(payload: &[u8], ne0: usize, row: usize, x: &[u32]) -> (r: Result<u32, String>)
    requires
        (row + 1) * kernels::pq2_stride(ne0 as int) <= usize::MAX,
    ensures
        ({
            let e = row_error(
                payload@.len() as int,
                ne0 as int,
                row as int,
                x@.len() as int,
            );
            match r {
                Err(m) => e == Some(m@),
                Ok(v) => e is None && exists|w: Seq<u32>|
                    w.len() == ne0 && (forall|j: int|
                        0 <= j < ne0 ==> gguf::pq2_elem(
                            payload@,
                            row * kernels::pq2_stride(ne0 as int),
                            j,
                            #[trigger] w[j],
                        )) && v == #[trigger] dense_dot(x@, w, ne0 as int),
            }
        }),
{
    if x.len() != ne0 {
        let mut m = "dot_pq2_0_row: x length ".to_owned();
        text::push_decimal(&mut m, x.len() as u64);
        m.append(" != ne0 ");
        text::push_decimal(&mut m, ne0 as u64);
        return Err(m);
    }
    let ghost s = kernels::pq2_stride(ne0 as int);
    proof {
        let ri = row as int;
        assert(kernels::blocks(ne0 as int, 128) >= 0);
        assert((ri + 1) * s == ri * s + s && s <= ri * s + s && 0 <= ri * s) by (nonlinear_arith)
            requires
                ri >= 0,
                s >= 0,
        ;
    }
    let stride: usize = kernels::pq2_row_bytes(ne0);
    let start: usize = row * stride;
    let end: usize = start + stride;
    if end > payload.len() {
        let mut m = "dot_pq2_0_row: row ".to_owned();
        text::push_decimal(&mut m, row as u64);
        m.append(" needs bytes ");
        text::push_decimal(&mut m, start as u64);
        m.append("..");
        text::push_decimal(&mut m, end as u64);
        m.append(", payload is ");
        text::push_decimal(&mut m, payload.len() as u64);
        return Err(m);
    }
    let raw: &[u8] = vstd::slice::slice_subrange(payload, start, end);
    let w: Vec<u32> = kernels::decode_pq2_0_row(raw, ne0);
    proof {
        assert forall|j: int| 0 <= j < ne0 implies gguf::pq2_elem(
            payload@,
            start as int,
            j,
            #[trigger] w@[j],
        ) by {
            assert(gguf::pq2_elem(raw@, 0, j, w@[j]));
            lemma_elem_shift(payload@, start as int, end as int, ne0 as int, j, w@[j]);
        }
    }
    Ok(dot(x, &w))
}

/// An element of a row is that element of the matrix.
proof fn lemma_elem_shift(b: Seq<u8>, start: int, end: int, ne0: int, j: int, r: u32)
    requires
        0 <= start <= end <= b.len(),
        end - start == kernels::pq2_stride(ne0),
        0 <= j < ne0,
        gguf::pq2_elem(b.subrange(start, end), 0, j, r),
    ensures
        gguf::pq2_elem(b, start, j, r),
{
    let raw = b.subrange(start, end);
    let at = j / 128 * 34;
    assert(at + 34 <= kernels::pq2_stride(ne0));
    reveal_with_fuel(crate::le::le_nat, 3);
    assert(crate::le::le_nat(raw, at, 2) == crate::le::le_nat(b, start + at, 2));
    let i = j % 128;
    assert(raw[at + 2 + i / 4] == b[start + at + 2 + i / 4]);
}

} // verus!
