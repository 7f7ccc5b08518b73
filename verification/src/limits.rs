//! Whether the sizes that a container declares can be computed with.

use vstd::prelude::*;

use crate::dspark;
use crate::gdev_open;
use crate::gguf;
use crate::gguf::{TensorInfo, GGUF};
use crate::gguf_write;

verus! {

/// The product of dimensions, if no partial product leaves 64 bits.
fn product_checked(dims: &Vec<u64>) -> (r: Option<u64>)
    ensures
        match r {
            Some(n) => gguf::product_fits(dims@) && n == gguf::product(dims@),
            None => !gguf::product_fits(dims@),
        },
{
    let mut acc: u64 = 1;
    let mut i: usize = 0;
    assert(dims@.take(0) =~= Seq::<u64>::empty());
    while i < dims.len()
        invariant
            i <= dims@.len(),
            acc == gguf::product(dims@.take(i as int)),
            forall|k: int| 0 <= k <= i ==> #[trigger] gguf::product(dims@.take(k)) <= u64::MAX,
        decreases dims@.len() - i,
    {
        proof {
            let next = dims@.take(i + 1);
            assert(next.drop_last() =~= dims@.take(i as int));
            assert(next.last() == dims@[i as int]);
        }
        match acc.checked_mul(dims[i]) {
            Some(v) => {
                acc = v;
            },
            None => {
                assert(gguf::product(dims@.take(i + 1)) > u64::MAX);
                return None;
            },
        }
        i += 1;
    }
    assert(dims@.take(i as int) =~= dims@);
    Some(acc)
}

/// The bytes of a tensor, if its size can be represented.
pub fn tensor_size(t: &TensorInfo) -> (r: Option<u64>)
    ensures
        match r {
            Some(n) => t@.fits() && n == t@.nbytes(),
            None => !t@.fits(),
        },
{
    let n: u64 = match product_checked(&t.dims) {
        Some(n) => n,
        None => {
            return None;
        },
    };
    let wide: u128 = shape_wide(t.ty, &t.dims, n);
    if wide + 32 > u64::MAX as u128 {
        return None;
    }
    Some(wide as u64)
}

/// The bytes of `n` elements in rows, wide enough for any shape.
fn shape_wide(ty: u32, dims: &Vec<u64>, n: u64) -> (r: u128)
    requires
        n == gguf::product(dims@),
    ensures
        r == gguf::shape_bytes(ty, dims@),
        r + 32 <= u128::MAX,
{
    if dims.len() == 0 {
        return size_wide(ty, 1);
    }
    let c: u64 = dims[0];
    let ghost m = gguf::product(dims@.skip(1));
    if c == 0 {
        assert(m * 0 == 0) by (nonlinear_arith);
        return 0;
    }
    let rows: u64 = n / c;
    proof {
        gguf::lemma_product_first(dims@);
        assert(n == m * c + 0) by (nonlinear_arith)
            requires
                n == c * m,
        ;
        vstd::arithmetic::div_mod::lemma_fundamental_div_mod_converse(
            n as int,
            c as int,
            m as int,
            0,
        );
        assert(rows == m);
    }
    let row: u128 = size_wide(ty, c);
    assert(rows * row <= 58 * n) by (nonlinear_arith)
        requires
            row <= 58 * c,
            n == c * rows,
            rows >= 0,
    ;
    rows as u128 * row
}

fn size_wide(ty: u32, n: u64) -> (r: u128)
    ensures
        r == gguf::nbytes(ty, n as nat),
{
    let m: u128 = n as u128;
    if ty == gguf::TYPE_F16 || ty == gguf::TYPE_BF16 {
        2 * m
    } else if ty == gguf::TYPE_Q4_1 {
        (m + 31) / 32 * 20
    } else if ty == gguf::TYPE_PQ2_0 {
        (m + 127) / 128 * 34
    } else if ty == gguf::TYPE_TQ1_0 {
        (m + 255) / 256 * 54
    } else {
        4 * m
    }
}

/// Whether every size in a container's index can be represented, and where each payload ends.
pub fn sizes_fit(g: &GGUF) -> (r: bool)
    ensures
        r == gguf_write::sizes_fit(gguf::tensors_view(g.tensors@), g.data_start as int),
        r ==> dspark::measured(*g),
{
    let ghost ts = gguf::tensors_view(g.tensors@);
    let n: usize = g.tensors.len();
    let mut sum: u64 = 0;
    let mut i: usize = 0;
    while i < n
        invariant
            i <= n,
            n == g.tensors@.len(),
            ts == gguf::tensors_view(g.tensors@),
            sum == gguf::running(ts, i as int),
            forall|k: int|
                0 <= k < i ==> (#[trigger] ts[k]).fits() && g.data_start + ts[k].offset
                    + ts[k].nbytes() <= usize::MAX,
        decreases n - i,
    {
        let t: &TensorInfo = &g.tensors[i];
        assert(ts[i as int] == t@);
        let size: u64 = match tensor_size(t) {
            Some(s) => s,
            None => {
                return false;
            },
        };
        let end: u128 = g.data_start as u128 + t.offset as u128 + size as u128;
        if end > usize::MAX as u128 {
            return false;
        }
        let next: u128 = sum as u128 + (size as u128 + 31) / 32 * 32;
        proof {
            assert(next == gguf::running(ts, i + 1));
        }
        if next > u64::MAX as u128 {
            proof {
                gguf_write::lemma_running_monotonic(ts, i + 1, n as int);
            }
            return false;
        }
        sum = next as u64;
        i += 1;
    }
    proof {
        assert forall|k: int| 0 <= k < g.tensors@.len() implies (#[trigger] g.tensors@[k])@.fits()
            && g.data_start + g.tensors@[k].offset + g.tensors@[k]@.nbytes() <= usize::MAX by {
            assert(ts[k] == g.tensors@[k]@);
        }
    }
    true
}

/// The elements, rows and columns of every tensor can be counted.
pub open spec fn counted(g: GGUF) -> bool {
    forall|i: int|
        0 <= i < g.tensors@.len() ==> {
            let t = (#[trigger] g.tensors@[i])@;
            &&& gguf::product_fits(t.dims)
            &&& gguf::product(t.dims) <= usize::MAX
            &&& dspark::columns(t) <= usize::MAX
        }
}

/// A container whose sizes fit and whose elements are counted can be put on a device, and its
/// rows are counted.
pub proof fn law_counted(g: GGUF, i: int)
    requires
        counted(g),
        gguf_write::sizes_fit(gguf::tensors_view(g.tensors@), g.data_start as int),
        0 <= i < g.tensors@.len(),
    ensures
        gdev_open::sizes_fit(gguf::tensors_view(g.tensors@), g.data_start as int),
        dspark::rows(g.tensors@[i]@) <= usize::MAX,
{
    let ts = gguf::tensors_view(g.tensors@);
    assert forall|k: int| 0 <= k < ts.len() implies gguf::product_fits((#[trigger] ts[k]).dims)
        && gguf::product(ts[k].dims) <= usize::MAX && g.data_start + ts[k].offset
        + ts[k].nbytes() <= u64::MAX && ts[k].nbytes() <= usize::MAX by {
        assert(ts[k] == g.tensors@[k]@);
    }
    let t = g.tensors@[i]@;
    let c = if dspark::columns(t) > 1 {
        dspark::columns(t)
    } else {
        1
    };
    let n = gguf::product(t.dims) as int;
    assert(n / c <= n) by (nonlinear_arith)
        requires
            c >= 1,
            n >= 0,
    ;
}

/// Whether the elements, rows and columns of every tensor can be counted.
pub fn all_counted(g: &GGUF) -> (r: bool)
    ensures
        r == counted(*g),
{
    let n: usize = g.tensors.len();
    let mut i: usize = 0;
    while i < n
        invariant
            i <= n,
            n == g.tensors@.len(),
            forall|k: int|
                0 <= k < i ==> {
                    let t = (#[trigger] g.tensors@[k])@;
                    &&& gguf::product_fits(t.dims)
                    &&& gguf::product(t.dims) <= usize::MAX
                    &&& dspark::columns(t) <= usize::MAX
                },
        decreases n - i,
    {
        let t: &TensorInfo = &g.tensors[i];
        match product_checked(&t.dims) {
            Some(p) => {
                if p > usize::MAX as u64 || t.dims.len() > 0 && t.dims[0] > usize::MAX as u64 {
                    assert(g.tensors@[i as int]@ == t@);
                    return false;
                }
            },
            None => {
                assert(g.tensors@[i as int]@ == t@);
                return false;
            },
        }
        i += 1;
    }
    true
}

/// Whether a tensor's bytes are whole rows, which it takes to multiply by it.
pub fn whole_rows(t: &TensorInfo) -> (r: bool)
    requires
        t@.fits(),
    ensures
        r == dspark::in_rows(t@),
{
    let c: u64 = dspark::columns_of(t);
    let n: u64 = dspark::rows_of(t);
    let size: u64 = gguf::shape_nbytes(t.ty, &t.dims);
    if c > usize::MAX as u64 || n > usize::MAX as u64 {
        return false;
    }
    let row: u128 = row_wide(t.ty, c);
    if row > usize::MAX as u128 {
        return false;
    }
    assert(n * row <= u64::MAX * u64::MAX) by (nonlinear_arith)
        requires
            n <= u64::MAX,
            row <= u64::MAX,
    ;
    n as u128 * row <= size as u128
}

fn row_wide(ty: u32, ne0: u64) -> (r: u128)
    ensures
        r == dspark::row_size(ty, ne0 as int),
{
    let m: u128 = ne0 as u128;
    if ty == gguf::TYPE_BF16 {
        2 * m
    } else if ty == gguf::TYPE_Q4_1 {
        (m + 31) / 32 * 20
    } else if ty == gguf::TYPE_PQ2_0 {
        (m + 127) / 128 * 34
    } else {
        4 * m
    }
}

} // verus!
