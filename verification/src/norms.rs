//! Normalizing rows and activating values. Powers of e and logarithms come from outside; all
//! numbers are singles in their bit patterns.

use vstd::prelude::*;
use vstd::string::*;

use crate::dots;
use crate::double;
use crate::kernels;
use crate::root;
use crate::sampler;
use crate::sampling;
use crate::single;

verus! {

/// The sum of the squares of the first `n` values.
pub open spec fn squares(x: Seq<u32>, n: int) -> u32
    decreases n,
{
    if n <= 0 {
        0
    } else {
        single::sum_of(squares(x, n - 1), single::product_of(x[n - 1], x[n - 1]))
    }
}

/// The length of a vector.
pub open spec fn length_of(x: Seq<u32>) -> u32 {
    root::root_of(squares(x, x.len() as int))
}

/// Measures a vector.
pub fn length(x: &[u32]) -> (r: u32)
    ensures
        r == length_of(x@),
{
    root::root(sum_squares(x))
}

fn sum_squares(x: &[u32]) -> (r: u32)
    ensures
        r == squares(x@, x@.len() as int),
{
    let n: usize = x.len();
    let mut ss: u32 = 0;
    let mut i: usize = 0;
    while i < n
        invariant
            i <= n,
            n == x@.len(),
            ss == squares(x@, i as int),
        decreases n - i,
    {
        ss = single::sum(ss, single::product(x[i], x[i]));
        i += 1;
    }
    ss
}

/// What a row is scaled by: one over the root of its mean square and a small number.
pub open spec fn rms_scale(x: Seq<u32>, eps: u32) -> u32 {
    single::quotient_of(
        single::ONE,
        root::root_of(
            single::sum_of(
                single::quotient_of(squares(x, x.len() as int), single::single_of(x.len())),
                eps,
            ),
        ),
    )
}

/// A row scaled by its mean square, and weighted.
pub open spec fn rms_normed(x: Seq<u32>, w: Seq<u32>, eps: u32) -> Seq<u32> {
    Seq::new(
        x.len(),
        |i: int| single::product_of(single::product_of(x[i], rms_scale(x, eps)), w[i]),
    )
}

/// Row `t` of values in rows of `width`.
pub open spec fn row_at(x: Seq<u32>, t: int, width: int) -> Seq<u32> {
    dots::column(x, t, width)
}

/// Normalizes one row.
pub fn rms_norm(x: &[u32], w: &[u32], eps: u32) -> (r: Vec<u32>)
    requires
        x@.len() <= w@.len(),
    ensures
        r@ == rms_normed(x@, w@, eps),
{
    let n: usize = x.len();
    let ss: u32 = sum_squares(x);
    let mut i: usize = 0;
    let mean: u32 = single::quotient(ss, single::from_uint(n as u64));
    let scale: u32 = single::quotient(single::ONE, root::root(single::sum(mean, eps)));
    let mut out: Vec<u32> = Vec::new();
    while i < n
        invariant
            i <= n,
            n == x@.len(),
            n <= w@.len(),
            scale == rms_scale(x@, eps),
            out@ == rms_normed(x@, w@, eps).take(i as int),
        decreases n - i,
    {
        out.push(single::product(single::product(x[i], scale), w[i]));
        i += 1;
        assert(out@ =~= rms_normed(x@, w@, eps).take(i as int));
    }
    assert(out@ =~= rms_normed(x@, w@, eps));
    out
}

/// `out` holds `f` of each of the first `n` rows.
pub open spec fn by_rows(
    x: Seq<u32>,
    out: Seq<u32>,
    width: int,
    n: int,
    f: spec_fn(Seq<u32>) -> Seq<u32>,
) -> bool {
    &&& out.len() == n * width
    &&& forall|t: int| 0 <= t < n ==> #[trigger] row_at(out, t, width) == f(row_at(x, t, width))
}

proof fn lemma_row_added(
    x: Seq<u32>,
    had: Seq<u32>,
    new: Seq<u32>,
    width: int,
    n: int,
    f: spec_fn(Seq<u32>) -> Seq<u32>,
)
    requires
        by_rows(x, had, width, n, f),
        n >= 0,
        width >= 0,
        new.len() == width,
        new == f(row_at(x, n, width)),
    ensures
        by_rows(x, had + new, width, n + 1, f),
{
    let out = had + new;
    assert((n + 1) * width == n * width + width) by (nonlinear_arith);
    assert forall|t: int| 0 <= t < n + 1 implies #[trigger] row_at(out, t, width) == f(
        row_at(x, t, width),
    ) by {
        assert((t + 1) * width == t * width + width) by (nonlinear_arith);
        if t < n {
            dots::lemma_row_end(t, n, width);
            assert(row_at(out, t, width) =~= row_at(had, t, width));
        } else {
            assert(0 <= n * width) by (nonlinear_arith)
                requires
                    n >= 0,
                    width >= 0,
            ;
            assert(row_at(out, t, width) =~= new);
        }
    }
}

proof fn lemma_whole_rows(len: int, width: int)
    requires
        width > 0,
        len >= 0,
        len % width == 0,
    ensures
        len / width * width == len,
        len / width >= 0,
{
    vstd::arithmetic::div_mod::lemma_fundamental_div_mod(len, width);
    vstd::arithmetic::mul::lemma_mul_is_commutative(width, len / width);
    vstd::arithmetic::div_mod::lemma_div_pos_is_pos(len, width);
}

fn row_slice<'a>(x: &'a [u32], t: usize, width: usize, Ghost(n): Ghost<int>) -> (r: &'a [u32])
    requires
        t < n,
        n * width == x@.len(),
    ensures
        r@ == row_at(x@, t as int, width as int),
        r@.len() == width,
{
    let size: usize = x.len();
    proof {
        dots::lemma_row_end(t as int, n, width as int);
        let (a, b) = (t as int, width as int);
        assert((a + 1) * b == a * b + b) by (nonlinear_arith);
    }
    let at: usize = t * width;
    vstd::slice::slice_subrange(x, at, at + width)
}

/// Normalizes rows that share their weights.
pub fn rms_norm_rows(x: &[u32], w: &[u32], row_len: usize, eps: u32) -> (r: Result<
    Vec<u32>,
    String,
>)
    requires
        w@.len() == row_len ==> row_len > 0,
    ensures
        match r {
            Ok(out) => {
                &&& w@.len() == row_len
                &&& x@.len() % row_len as nat == 0
                &&& out@.len() == x@.len()
                &&& by_rows(
                    x@,
                    out@,
                    row_len as int,
                    x@.len() as int / row_len as int,
                    |s: Seq<u32>| rms_normed(s, w@, eps),
                )
            },
            Err(m) => if w@.len() != row_len {
                kernels::weight_error(w@.len() as int, row_len as int) == Some(m@)
            } else {
                kernels::rows_error("rms_norm_rows"@, x@.len() as int, row_len as int) == Some(m@)
            },
        },
{
    kernels::check_weight(w.len(), row_len)?;
    kernels::check_rows("rms_norm_rows", x.len(), row_len)?;
    let n: usize = x.len() / row_len;
    let ghost f = |s: Seq<u32>| rms_normed(s, w@, eps);
    proof {
        lemma_whole_rows(x@.len() as int, row_len as int);
        let l = row_len as int;
        assert(0 * l == 0) by (nonlinear_arith);
    }
    let mut out: Vec<u32> = Vec::new();
    let mut t: usize = 0;
    while t < n
        invariant
            t <= n,
            n * row_len == x@.len(),
            w@.len() == row_len,
            f == (|s: Seq<u32>| rms_normed(s, w@, eps)),
            by_rows(x@, out@, row_len as int, t as int, f),
        decreases n - t,
    {
        let src: &[u32] = row_slice(x, t, row_len, Ghost(n as int));
        let mut dst: Vec<u32> = rms_norm(src, w, eps);
        proof {
            lemma_row_added(x@, out@, dst@, row_len as int, t as int, f);
        }
        out.append(&mut dst);
        t += 1;
    }
    Ok(out)
}

// ---- unit rows ---------------------------------------------------------------------------------

/// The sum of the squares of the first `n` values, as doubles.
pub open spec fn wide_squares(x: Seq<u32>, n: int) -> u64
    decreases n,
{
    if n <= 0 {
        0
    } else {
        double::sum_of(
            wide_squares(x, n - 1),
            double::product_of(double::wide(x[n - 1]), double::wide(x[n - 1])),
        )
    }
}

/// The larger of two numbers; what is not a number does not count.
pub open spec fn larger(a: u32, b: u32) -> u32 {
    if sampler::place(a) is None || sampler::less(a, b) {
        b
    } else {
        a
    }
}

/// What a row is scaled by: one over its length, or over a small number if that is larger.
pub open spec fn unit_scale(x: Seq<u32>, eps: u32) -> u32 {
    single::quotient_of(
        single::ONE,
        larger(root::root_of(double::narrowed(wide_squares(x, x.len() as int))), eps),
    )
}

/// A row scaled to length one.
pub open spec fn unit_row(x: Seq<u32>, eps: u32) -> Seq<u32> {
    Seq::new(x.len(), |i: int| single::product_of(x[i], unit_scale(x, eps)))
}

fn larger_of(a: u32, b: u32) -> (r: u32)
    ensures
        r == larger(a, b),
{
    if !sampler::single_at_most(a, a) || sampler::single_less(a, b) {
        b
    } else {
        a
    }
}

fn scale_to_unit(x: &[u32], eps: u32) -> (r: Vec<u32>)
    ensures
        r@ == unit_row(x@, eps),
{
    let n: usize = x.len();
    let mut ss: u64 = 0;
    let mut i: usize = 0;
    while i < n
        invariant
            i <= n,
            n == x@.len(),
            ss == wide_squares(x@, i as int),
        decreases n - i,
    {
        let v: u64 = double::widen(x[i]);
        ss = double::sum(ss, double::product(v, v));
        i += 1;
    }
    let len: u32 = root::root(double::narrow(ss));
    let scale: u32 = single::quotient(single::ONE, larger_of(len, eps));
    let mut out: Vec<u32> = Vec::new();
    i = 0;
    while i < n
        invariant
            i <= n,
            n == x@.len(),
            scale == unit_scale(x@, eps),
            out@ == unit_row(x@, eps).take(i as int),
        decreases n - i,
    {
        out.push(single::product(x[i], scale));
        i += 1;
        assert(out@ =~= unit_row(x@, eps).take(i as int));
    }
    assert(out@ =~= unit_row(x@, eps));
    out
}

/// Scales rows to length one.
pub fn l2_norm_rows(x: &[u32], row_len: usize, eps: u32) -> (r: Result<Vec<u32>, String>)
    requires
        row_len > 0,
    ensures
        match r {
            Ok(out) => {
                &&& x@.len() % row_len as nat == 0
                &&& out@.len() == x@.len()
                &&& by_rows(
                    x@,
                    out@,
                    row_len as int,
                    x@.len() as int / row_len as int,
                    |s: Seq<u32>| unit_row(s, eps),
                )
            },
            Err(m) => kernels::rows_error("l2_norm_rows"@, x@.len() as int, row_len as int) == Some(
                m@,
            ),
        },
{
    kernels::check_rows("l2_norm_rows", x.len(), row_len)?;
    let n: usize = x.len() / row_len;
    let ghost f = |s: Seq<u32>| unit_row(s, eps);
    proof {
        lemma_whole_rows(x@.len() as int, row_len as int);
        let l = row_len as int;
        assert(0 * l == 0) by (nonlinear_arith);
    }
    let mut out: Vec<u32> = Vec::new();
    let mut t: usize = 0;
    while t < n
        invariant
            t <= n,
            n * row_len == x@.len(),
            f == (|s: Seq<u32>| unit_row(s, eps)),
            by_rows(x@, out@, row_len as int, t as int, f),
        decreases n - t,
    {
        let src: &[u32] = row_slice(x, t, row_len, Ghost(n as int));
        let mut dst: Vec<u32> = scale_to_unit(src, eps);
        proof {
            lemma_row_added(x@, out@, dst@, row_len as int, t as int, f);
        }
        out.append(&mut dst);
        t += 1;
    }
    Ok(out)
}

// ---- shares ---------------------------------------------------------------------------------------

/// A row less its largest value.
pub open spec fn below_largest(x: Seq<u32>) -> Seq<u32> {
    Seq::new(
        x.len(),
        |i: int|
            single::difference_of(
                x[i],
                sampling::largest(x, sampler::NEG_INFINITY, x.len() as int),
            ),
    )
}

/// Powers over their sum.
pub open spec fn shares(e: Seq<u32>) -> Seq<u32> {
    Seq::new(
        e.len(),
        |i: int|
            single::product_of(
                e[i],
                single::quotient_of(
                    single::ONE,
                    double::narrowed(sampling::total_of(e, e.len() as int)),
                ),
            ),
    )
}

pub(crate) fn subtract_largest(x: &[u32]) -> (r: Vec<u32>)
    ensures
        r@ == below_largest(x@),
{
    let n: usize = x.len();
    let mut top: u32 = sampler::NEG_INFINITY;
    let mut i: usize = 0;
    while i < n
        invariant
            i <= n,
            n == x@.len(),
            top == sampling::largest(x@, sampler::NEG_INFINITY, i as int),
        decreases n - i,
    {
        if sampler::single_less(top, x[i]) {
            top = x[i];
        }
        i += 1;
    }
    let mut out: Vec<u32> = Vec::new();
    i = 0;
    while i < n
        invariant
            i <= n,
            n == x@.len(),
            top == sampling::largest(x@, sampler::NEG_INFINITY, n as int),
            out@ == below_largest(x@).take(i as int),
        decreases n - i,
    {
        out.push(single::difference(x[i], top));
        i += 1;
        assert(out@ =~= below_largest(x@).take(i as int));
    }
    assert(out@ =~= below_largest(x@));
    out
}

pub(crate) fn share_out(e: &[u32]) -> (r: Vec<u32>)
    ensures
        r@ == shares(e@),
{
    let n: usize = e.len();
    let mut total: u64 = 0;
    let mut i: usize = 0;
    while i < n
        invariant
            i <= n,
            n == e@.len(),
            total == sampling::total_of(e@, i as int),
        decreases n - i,
    {
        total = double::sum(total, double::widen(e[i]));
        i += 1;
    }
    let inv: u32 = single::quotient(single::ONE, double::narrow(total));
    let mut out: Vec<u32> = Vec::new();
    i = 0;
    while i < n
        invariant
            i <= n,
            n == e@.len(),
            inv == single::quotient_of(
                single::ONE,
                double::narrowed(sampling::total_of(e@, n as int)),
            ),
            out@ == shares(e@).take(i as int),
        decreases n - i,
    {
        out.push(single::product(e[i], inv));
        i += 1;
        assert(out@ =~= shares(e@).take(i as int));
    }
    assert(out@ =~= shares(e@));
    out
}

/// The exponents of a softmax over rows. The caller raises e to each of them.
pub fn softmax_exponents(x: &[u32], row_len: usize) -> (r: Result<Vec<u32>, String>)
    requires
        row_len > 0,
    ensures
        match r {
            Ok(out) => {
                &&& x@.len() % row_len as nat == 0
                &&& out@.len() == x@.len()
                &&& by_rows(
                    x@,
                    out@,
                    row_len as int,
                    x@.len() as int / row_len as int,
                    |s: Seq<u32>| below_largest(s),
                )
            },
            Err(m) => kernels::rows_error("softmax_rows"@, x@.len() as int, row_len as int) == Some(
                m@,
            ),
        },
{
    kernels::check_rows("softmax_rows", x.len(), row_len)?;
    let n: usize = x.len() / row_len;
    let ghost f = |s: Seq<u32>| below_largest(s);
    proof {
        lemma_whole_rows(x@.len() as int, row_len as int);
        let l = row_len as int;
        assert(0 * l == 0) by (nonlinear_arith);
    }
    let mut out: Vec<u32> = Vec::new();
    let mut t: usize = 0;
    while t < n
        invariant
            t <= n,
            n * row_len == x@.len(),
            f == (|s: Seq<u32>| below_largest(s)),
            by_rows(x@, out@, row_len as int, t as int, f),
        decreases n - t,
    {
        let src: &[u32] = row_slice(x, t, row_len, Ghost(n as int));
        let mut dst: Vec<u32> = subtract_largest(src);
        proof {
            lemma_row_added(x@, out@, dst@, row_len as int, t as int, f);
        }
        out.append(&mut dst);
        t += 1;
    }
    Ok(out)
}

/// A softmax over rows, from the powers: each over the sum of its row.
pub fn softmax_rows(powers: &[u32], row_len: usize) -> (r: Result<Vec<u32>, String>)
    requires
        row_len > 0,
    ensures
        match r {
            Ok(out) => {
                &&& powers@.len() % row_len as nat == 0
                &&& out@.len() == powers@.len()
                &&& by_rows(
                    powers@,
                    out@,
                    row_len as int,
                    powers@.len() as int / row_len as int,
                    |s: Seq<u32>| shares(s),
                )
            },
            Err(m) => kernels::rows_error(
                "softmax_rows"@,
                powers@.len() as int,
                row_len as int,
            ) == Some(m@),
        },
{
    kernels::check_rows("softmax_rows", powers.len(), row_len)?;
    let n: usize = powers.len() / row_len;
    let ghost f = |s: Seq<u32>| shares(s);
    proof {
        lemma_whole_rows(powers@.len() as int, row_len as int);
        let l = row_len as int;
        assert(0 * l == 0) by (nonlinear_arith);
    }
    let mut out: Vec<u32> = Vec::new();
    let mut t: usize = 0;
    while t < n
        invariant
            t <= n,
            n * row_len == powers@.len(),
            f == (|s: Seq<u32>| shares(s)),
            by_rows(powers@, out@, row_len as int, t as int, f),
        decreases n - t,
    {
        let src: &[u32] = row_slice(powers, t, row_len, Ghost(n as int));
        let mut dst: Vec<u32> = share_out(src);
        proof {
            lemma_row_added(powers@, out@, dst@, row_len as int, t as int, f);
        }
        out.append(&mut dst);
        t += 1;
    }
    Ok(out)
}

// ---- activations ------------------------------------------------------------------------------------

/// The pattern of twenty.
pub const TWENTY: u32 = 0x41A0_0000;

/// The sigmoid, given e raised to the negated argument.
pub open spec fn sigmoid_of(power: u32) -> u32 {
    single::quotient_of(single::ONE, single::sum_of(single::ONE, power))
}

/// A number times its sigmoid, given e raised to the negated number.
pub open spec fn silu_of(x: u32, power: u32) -> u32 {
    single::quotient_of(x, single::sum_of(single::ONE, power))
}

/// The softplus, given the logarithm of one plus e raised to the argument.
pub open spec fn softplus_of(x: u32, log: u32) -> u32 {
    if sampler::less(TWENTY, x) {
        x
    } else {
        log
    }
}

/// The sigmoid, given e raised to the negated argument.
pub fn sigmoid(power: u32) -> (r: u32)
    ensures
        r == sigmoid_of(power),
{
    single::quotient(single::ONE, single::sum(single::ONE, power))
}

/// A number times its sigmoid, given e raised to the negated number.
pub fn silu(x: u32, power: u32) -> (r: u32)
    ensures
        r == silu_of(x, power),
{
    single::quotient(x, single::sum(single::ONE, power))
}

/// The softplus, given the logarithm of one plus e raised to the argument: above twenty the
/// argument itself.
pub fn softplus(x: u32, log: u32) -> (r: u32)
    ensures
        r == softplus_of(x, log),
{
    if sampler::single_less(TWENTY, x) {
        x
    } else {
        log
    }
}

} // verus!
