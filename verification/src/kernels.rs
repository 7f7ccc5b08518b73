//! The shapes that the matrix kernels work on: row strides, checks, and how rows are shared out.

use vstd::prelude::*;
use vstd::string::*;

use crate::double;
use crate::gguf;
use crate::gguf::TensorInfo;
use crate::le;
use crate::number;
use crate::sampler;
use crate::single;
use crate::text;

verus! {

/// Columns of a ternary block.
pub const PQ2_QK: usize = 128;

/// Bytes of a ternary block.
pub const PQ2_BLOCK: usize = 34;

/// Columns of a 4-bit block.
pub const Q4_1_QK: usize = 32;

/// Bytes of a 4-bit block: scale, minimum and the nibbles.
pub const Q4_1_BLOCK: usize = 20;

/// How many blocks of `q` columns `n` columns take.
pub open spec fn blocks(n: int, q: int) -> int {
    (n + q - 1) / q
}

/// How many blocks of `q` columns `n` columns take.
pub fn div_ceil(n: usize, q: usize) -> (r: usize)
    requires
        q > 0,
    ensures
        r == blocks(n as int, q as int),
{
    let d: usize = n / q;
    let m: usize = n % q;
    proof {
        let (x, y, k, l) = (n as int, q as int, d as int, m as int);
        vstd::arithmetic::div_mod::lemma_fundamental_div_mod(x, y);
        assert(y * k == k * y) by (nonlinear_arith);
        if l == 0 {
            vstd::arithmetic::div_mod::lemma_fundamental_div_mod_converse(x + y - 1, y, k, y - 1);
        } else {
            assert((k + 1) * y == k * y + y) by (nonlinear_arith);
            vstd::arithmetic::div_mod::lemma_fundamental_div_mod_converse(
                x + y - 1,
                y,
                k + 1,
                l - 1,
            );
            assert(k + 1 <= x) by (nonlinear_arith)
                requires
                    x == k * y + l,
                    l >= 1,
                    y >= 1,
                    k >= 0,
            ;
        }
    }
    if m == 0 {
        d
    } else {
        d + 1
    }
}

/// Bytes of a ternary row.
pub open spec fn pq2_stride(ne0: int) -> int {
    blocks(ne0, 128) * 34
}

/// Bytes of a 4-bit row.
pub open spec fn q4_1_stride(ne0: int) -> int {
    blocks(ne0, 32) * 20
}

/// Bytes of a ternary row of `ne0` columns.
pub fn pq2_row_bytes(ne0: usize) -> (r: usize)
    requires
        pq2_stride(ne0 as int) <= usize::MAX,
    ensures
        r == pq2_stride(ne0 as int),
{
    div_ceil(ne0, PQ2_QK) * PQ2_BLOCK
}

/// Bytes of a 4-bit row of `ne0` columns.
pub fn q4_1_row_bytes(ne0: usize) -> (r: usize)
    requires
        q4_1_stride(ne0 as int) <= usize::MAX,
    ensures
        r == q4_1_stride(ne0 as int),
{
    div_ceil(ne0, Q4_1_QK) * Q4_1_BLOCK
}

/// How many rows a tensor has.
pub open spec fn rows_of(dims: Seq<u64>) -> nat {
    if dims.len() == 0 {
        0
    } else {
        gguf::product(dims.skip(1))
    }
}

/// How many rows a tensor has: the product of all dimensions but the first.
pub fn n_rows(info: &TensorInfo) -> (r: u64)
    requires
        info.dims@.len() > 0 ==> gguf::product_fits(info.dims@.skip(1)),
    ensures
        r == rows_of(info.dims@),
{
    let n: usize = info.dims.len();
    if n == 0 {
        return 0;
    }
    let mut rest: Vec<u64> = Vec::new();
    let mut i: usize = 1;
    while i < n
        invariant
            1 <= i <= n,
            n == info.dims@.len(),
            rest@ == info.dims@.subrange(1, i as int),
        decreases n - i,
    {
        rest.push(info.dims[i]);
        i += 1;
        assert(rest@ =~= info.dims@.subrange(1, i as int));
    }
    assert(rest@ =~= info.dims@.skip(1));
    gguf::product_of(&rest)
}

// ---- sharing rows out -------------------------------------------------------------------------

/// Rows from `start` on, up to `end`.
#[derive(Debug, Clone, Copy, PartialEq, Eq, Structural)]
pub struct Rows {
    pub start: usize,
    pub end: usize,
}

/// Where worker `w` starts when each takes `chunk` of `n` rows.
pub open spec fn share_start(n: int, chunk: int, w: int) -> int {
    if w * chunk < n {
        w * chunk
    } else {
        n
    }
}

/// Shares `n` rows out among workers, in equal runs but for the last. A worker for which nothing
/// is left gets an empty run.
pub fn shares(n: usize, workers: usize) -> (r: Vec<Rows>)
    requires
        0 < workers,
    ensures
        r@.len() == workers,
        forall|w: int|
            0 <= w < workers ==> (#[trigger] r@[w]).start == share_start(
                n as int,
                blocks(n as int, workers as int),
                w,
            ) && r@[w].end == share_start(n as int, blocks(n as int, workers as int), w + 1),
{
    let chunk: usize = div_ceil(n, workers);
    let ghost c = blocks(n as int, workers as int);
    let mut out: Vec<Rows> = Vec::new();
    let mut at: usize = 0;
    let mut w: usize = 0;
    assert(0 * c == 0) by (nonlinear_arith);
    while w < workers
        invariant
            w <= workers,
            chunk == c,
            c >= 0,
            at == share_start(n as int, c, w as int),
            at <= n,
            out@.len() == w,
            forall|k: int|
                0 <= k < w ==> (#[trigger] out@[k]).start == share_start(n as int, c, k)
                    && out@[k].end == share_start(n as int, c, k + 1),
        decreases workers - w,
    {
        let next: usize = if n - at <= chunk {
            n
        } else {
            at + chunk
        };
        proof {
            let wi = w as int;
            assert((wi + 1) * c == wi * c + c) by (nonlinear_arith);
        }
        out.push(Rows { start: at, end: next });
        at = next;
        w += 1;
    }
    out
}

/// Every row goes to exactly one worker: the runs start at the first row, each ends where the
/// next begins, and the last ends behind the last row.
pub proof fn law_shares_cover(n: int, workers: int)
    requires
        n >= 0,
        workers > 0,
    ensures
        share_start(n, blocks(n, workers), 0) == 0,
        share_start(n, blocks(n, workers), workers) == n,
        forall|w: int|
            #![trigger share_start(n, blocks(n, workers), w)]
            0 <= w ==> share_start(n, blocks(n, workers), w) <= share_start(
                n,
                blocks(n, workers),
                w + 1,
            ),
{
    let c = blocks(n, workers);
    vstd::arithmetic::div_mod::lemma_fundamental_div_mod(n + workers - 1, workers);
    vstd::arithmetic::div_mod::lemma_mod_bound(n + workers - 1, workers);
    vstd::arithmetic::div_mod::lemma_div_pos_is_pos(n + workers - 1, workers);
    assert(workers * c >= n);
    assert(0 * c == 0) by (nonlinear_arith);
    assert forall|w: int|
        #![trigger share_start(n, c, w)]
        0 <= w implies share_start(n, c, w) <= share_start(n, c, w + 1) by {
        assert((w + 1) * c == w * c + c) by (nonlinear_arith);
    }
}

/// How many workers share `n` rows: one where there are few, and never more than rows.
pub open spec fn worker_count(n: int, threads: int, least: int) -> int {
    if n < least || threads <= 1 {
        1
    } else if threads < n {
        threads
    } else {
        n
    }
}

/// How many workers share `n` rows.
pub fn workers(n: usize, threads: usize, least: usize) -> (r: usize)
    ensures
        r == worker_count(n as int, threads as int, least as int),
{
    if n < least || threads <= 1 {
        1
    } else if threads < n {
        threads
    } else {
        n
    }
}

/// The patterns of one hundred.
pub const HUNDRED: u32 = 0x42C8_0000;

/// The share of the machine that a setting allows: so many percent, held between one and a
/// hundred; all of it without a setting that is a number.
pub open spec fn fraction_of(setting: Option<Seq<char>>) -> u32 {
    let v = match setting {
        Some(s) => number::single_in(s),
        None => None,
    };
    single::quotient_of(clamped(v), HUNDRED)
}

/// A percentage held between one and a hundred; what is not a number stays.
pub open spec fn clamped(v: Option<u32>) -> u32 {
    match v {
        None => HUNDRED,
        Some(x) => if sampler::less(x, single::ONE) {
            single::ONE
        } else if sampler::less(HUNDRED, x) {
            HUNDRED
        } else {
            x
        },
    }
}

/// The share of the machine that a setting allows.
pub fn bw_fraction(setting: Option<&str>) -> (r: u32)
    ensures
        r == fraction_of(
            match setting {
                Some(s) => Some(s@),
                None => None,
            },
        ),
{
    let v: Option<u32> = match setting {
        Some(s) => {
            let f: Option<u32> = number::read_single(s);
            proof {
                number::law_single_unique(s@, f, f);
            }
            f
        },
        None => None,
    };
    let c: u32 = match v {
        None => HUNDRED,
        Some(x) => if sampler::single_less(x, single::ONE) {
            single::ONE
        } else if sampler::single_less(HUNDRED, x) {
            HUNDRED
        } else {
            x
        },
    };
    single::quotient(c, HUNDRED)
}

/// One thousand, as a double.
pub const THOUSAND: u64 = 0x408f_4000_0000_0000;

/// One half, as a double.
pub const HALF: u64 = 0x3fe0_0000_0000_0000;

/// How many milliseconds, to the nearest, to pause behind a token that took `elapsed` where one
/// takes `baseline` without pauses, so that only a share of the machine is used: the token is
/// stretched to `baseline` divided by the share.
pub open spec fn pause_of(elapsed: u32, baseline: u32, fraction: u32) -> int {
    if sampler::at_most(single::ONE, fraction) || sampler::at_most(baseline, 0) {
        0
    } else {
        let target = single::quotient_of(baseline, fraction);
        if sampler::less(elapsed, target) {
            let rest = double::wide(single::difference_of(target, elapsed));
            number::truncated(double::sum_of(double::product_of(rest, THOUSAND), HALF))
        } else {
            0
        }
    }
}

/// How many milliseconds to pause behind a token. The times given are in seconds.
pub fn pause_millis(elapsed: u32, baseline: u32, fraction: u32) -> (r: i64)
    ensures
        r == pause_of(elapsed, baseline, fraction),
{
    if sampler::single_at_most(single::ONE, fraction) || sampler::single_at_most(baseline, 0) {
        return 0;
    }
    let target: u32 = single::quotient(baseline, fraction);
    if sampler::single_less(elapsed, target) {
        let rest: u64 = double::widen(single::difference(target, elapsed));
        number::truncate(double::sum(double::product(rest, THOUSAND), HALF))
    } else {
        0
    }
}

/// The threads that a share of the machine is: at least one, and no more than there are.
pub open spec fn threads_of(avail: nat, fraction: u32) -> nat {
    let n = single::rounded(
        single::product_of(single::single_of(avail), fraction),
        usize::MAX as nat,
    );
    if n < 1 || avail < 1 {
        1
    } else if n > avail {
        avail
    } else {
        n
    }
}

/// Caps the threads at a share of those that there are; at least one stays.
pub fn scaled_threads(avail: usize, fraction: u32) -> (r: usize)
    ensures
        r == threads_of(avail as nat, fraction),
{
    let a: u32 = single::from_uint(avail as u64);
    let n: usize = single::round(single::product(a, fraction), usize::MAX as u64) as usize;
    if n < 1 || avail < 1 {
        1
    } else if n > avail {
        avail
    } else {
        n
    }
}

// ---- checks -----------------------------------------------------------------------------------

/// Why rows `base` to `base + n` of `stride` bytes cannot be multiplied; nothing if they can.
pub open spec fn pq2_range_error(
    payload: int,
    ne0: int,
    base: int,
    n: int,
    x_len: int,
    y_len: int,
) -> Option<Seq<char>> {
    let need = (base + n) * pq2_stride(ne0);
    if x_len != ne0 {
        Some(
            "pq2_matvec_range: x length "@ + text::decimal(x_len as nat) + " != ne0 "@
                + text::decimal(ne0 as nat),
        )
    } else if y_len < n {
        Some("pq2_matvec_range: y too small"@)
    } else if need > usize::MAX {
        Some("pq2_matvec_range: row range byte length overflows"@)
    } else if need > payload {
        Some(
            "pq2_matvec_range: rows "@ + text::decimal(base as nat) + ".."@ + text::decimal(
                (base + n) as nat,
            ) + " need "@ + text::decimal(need as nat) + " bytes, payload is "@ + text::decimal(
                payload as nat,
            ),
        )
    } else {
        None
    }
}

/// What a check says.
pub open spec fn says(r: Result<(), String>, e: Option<Seq<char>>) -> bool {
    match r {
        Ok(_) => e is None,
        Err(m) => e == Some(m@),
    }
}

/// The product of two sizes, if it can be addressed.
fn times(a: usize, b: usize) -> (r: Option<usize>)
    ensures
        match r {
            Some(v) => v == a * b,
            None => a * b > usize::MAX,
        },
{
    a.checked_mul(b)
}

/// Checks the arguments of a ternary matrix-vector product over rows.
pub fn check_pq2_range(
    payload: usize,
    ne0: usize,
    base: usize,
    n: usize,
    x_len: usize,
    y_len: usize,
) -> (r: Result<(), String>)
    requires
        base + n <= usize::MAX,
        pq2_stride(ne0 as int) <= usize::MAX,
    ensures
        says(
            r,
            pq2_range_error(
                payload as int,
                ne0 as int,
                base as int,
                n as int,
                x_len as int,
                y_len as int,
            ),
        ),
{
    if x_len != ne0 {
        let mut m = "pq2_matvec_range: x length ".to_owned();
        text::push_decimal(&mut m, x_len as u64);
        m.append(" != ne0 ");
        text::push_decimal(&mut m, ne0 as u64);
        return Err(m);
    }
    if y_len < n {
        return Err("pq2_matvec_range: y too small".to_owned());
    }
    let need: usize = match times(base + n, pq2_row_bytes(ne0)) {
        Some(v) => v,
        None => return Err("pq2_matvec_range: row range byte length overflows".to_owned()),
    };
    if need > payload {
        let mut m = "pq2_matvec_range: rows ".to_owned();
        text::push_decimal(&mut m, base as u64);
        m.append("..");
        text::push_decimal(&mut m, (base + n) as u64);
        m.append(" need ");
        text::push_decimal(&mut m, need as u64);
        m.append(" bytes, payload is ");
        text::push_decimal(&mut m, payload as u64);
        return Err(m);
    }
    Ok(())
}

/// Why a ternary matrix cannot be multiplied by several columns; nothing if it can.
pub open spec fn matmul_error(
    payload: int,
    ne0: int,
    base: int,
    n: int,
    n_tok: int,
    x_len: int,
    y_len: int,
) -> Option<Seq<char>> {
    let need = (base + n) * pq2_stride(ne0);
    if x_len != n_tok * ne0 {
        Some(
            "pq2_matmul_n: x length "@ + text::decimal(x_len as nat) + " != n_tok "@
                + text::decimal(n_tok as nat) + " * ne0 "@ + text::decimal(ne0 as nat),
        )
    } else if y_len < n_tok * n {
        Some("pq2_matmul_n: y too small"@)
    } else if need > usize::MAX {
        Some("pq2_matmul_n: overflow"@)
    } else if need > payload {
        Some("pq2_matmul_n: row range exceeds payload"@)
    } else {
        None
    }
}

/// Checks the arguments of a ternary matrix product over rows and columns.
pub fn check_pq2_matmul(
    payload: usize,
    ne0: usize,
    base: usize,
    n: usize,
    n_tok: usize,
    x_len: usize,
    y_len: usize,
) -> (r: Result<(), String>)
    requires
        base + n <= usize::MAX,
        pq2_stride(ne0 as int) <= usize::MAX,
    ensures
        says(
            r,
            matmul_error(
                payload as int,
                ne0 as int,
                base as int,
                n as int,
                n_tok as int,
                x_len as int,
                y_len as int,
            ),
        ),
{
    let fits: bool = match times(n_tok, ne0) {
        Some(v) => v == x_len,
        None => false,
    };
    if !fits {
        let mut m = "pq2_matmul_n: x length ".to_owned();
        text::push_decimal(&mut m, x_len as u64);
        m.append(" != n_tok ");
        text::push_decimal(&mut m, n_tok as u64);
        m.append(" * ne0 ");
        text::push_decimal(&mut m, ne0 as u64);
        return Err(m);
    }
    let room: bool = match times(n_tok, n) {
        Some(v) => v <= y_len,
        None => false,
    };
    if !room {
        return Err("pq2_matmul_n: y too small".to_owned());
    }
    match times(base + n, pq2_row_bytes(ne0)) {
        Some(need) => {
            if need > payload {
                return Err("pq2_matmul_n: row range exceeds payload".to_owned());
            }
        },
        None => return Err("pq2_matmul_n: overflow".to_owned()),
    }
    Ok(())
}

/// Why rows of a 4-bit matrix cannot be multiplied; nothing if they can.
pub open spec fn q4_1_range_error(
    payload: int,
    ne0: int,
    base: int,
    n: int,
    x_len: int,
    y_len: int,
) -> Option<Seq<char>> {
    let need = (base + n) * q4_1_stride(ne0);
    if x_len != ne0 {
        Some("q4_1_matvec_range: x length mismatch"@)
    } else if y_len < n {
        Some("q4_1_matvec_range: y too small"@)
    } else if need > usize::MAX {
        Some("q4_1_matvec_range: overflow"@)
    } else if need > payload {
        Some("q4_1_matvec_range: row range exceeds payload"@)
    } else {
        None
    }
}

/// Checks the arguments of a 4-bit matrix-vector product over rows.
pub fn check_q4_1_range(
    payload: usize,
    ne0: usize,
    base: usize,
    n: usize,
    x_len: usize,
    y_len: usize,
) -> (r: Result<(), String>)
    requires
        base + n <= usize::MAX,
        q4_1_stride(ne0 as int) <= usize::MAX,
    ensures
        says(
            r,
            q4_1_range_error(
                payload as int,
                ne0 as int,
                base as int,
                n as int,
                x_len as int,
                y_len as int,
            ),
        ),
{
    if x_len != ne0 {
        return Err("q4_1_matvec_range: x length mismatch".to_owned());
    }
    if y_len < n {
        return Err("q4_1_matvec_range: y too small".to_owned());
    }
    match times(base + n, q4_1_row_bytes(ne0)) {
        Some(need) => {
            if need > payload {
                return Err("q4_1_matvec_range: row range exceeds payload".to_owned());
            }
        },
        None => return Err("q4_1_matvec_range: overflow".to_owned()),
    }
    Ok(())
}

/// Why values cannot be taken row by row; nothing if they can.
pub open spec fn rows_error(what: Seq<char>, len: int, row_len: int) -> Option<Seq<char>> {
    if len % row_len != 0 {
        Some(
            what + ": x len "@ + text::decimal(len as nat) + " not divisible by row_len "@
                + text::decimal(row_len as nat),
        )
    } else {
        None
    }
}

/// Checks that values divide into rows.
pub fn check_rows(what: &str, len: usize, row_len: usize) -> (r: Result<(), String>)
    requires
        row_len > 0,
    ensures
        says(r, rows_error(what@, len as int, row_len as int)),
{
    if len % row_len != 0 {
        let mut m = what.to_owned();
        m.append(": x len ");
        text::push_decimal(&mut m, len as u64);
        m.append(" not divisible by row_len ");
        text::push_decimal(&mut m, row_len as u64);
        return Err(m);
    }
    Ok(())
}

/// Why weights do not fit rows; nothing if they do.
pub open spec fn weight_error(len: int, row_len: int) -> Option<Seq<char>> {
    if len != row_len {
        Some(
            "rms_norm_rows: weight len "@ + text::decimal(len as nat) + " != row_len "@
                + text::decimal(row_len as nat),
        )
    } else {
        None
    }
}

/// Checks that a norm has one weight per column.
pub fn check_weight(len: usize, row_len: usize) -> (r: Result<(), String>)
    ensures
        says(r, weight_error(len as int, row_len as int)),
{
    if len != row_len {
        let mut m = "rms_norm_rows: weight len ".to_owned();
        text::push_decimal(&mut m, len as u64);
        m.append(" != row_len ");
        text::push_decimal(&mut m, row_len as u64);
        return Err(m);
    }
    Ok(())
}

// ---- decoding ---------------------------------------------------------------------------------

/// Decodes a ternary row to singles.
pub fn decode_pq2_0_row(raw: &[u8], ne0: usize) -> (r: Vec<u32>)
    requires
        raw@.len() >= pq2_stride(ne0 as int),
    ensures
        r@.len() == ne0,
        forall|j: int| 0 <= j < ne0 ==> gguf::pq2_elem(raw@, 0, j, #[trigger] r@[j]),
{
    let mut out: Vec<u32> = Vec::new();
    let mut j: usize = 0;
    while j < ne0
        invariant
            j <= ne0,
            raw@.len() >= pq2_stride(ne0 as int),
            out@.len() == j,
            forall|k: int| 0 <= k < j ==> gguf::pq2_elem(raw@, 0, k, #[trigger] out@[k]),
        decreases ne0 - j,
    {
        let blk: usize = j / 128;
        let i: usize = j % 128;
        proof {
            assert(blk < blocks(ne0 as int, 128));
        }
        let base: usize = blk * 34;
        let h: u16 = raw[base] as u16 + 256 * raw[base + 1] as u16;
        let byte: u8 = raw[base + 2 + i / 4];
        let code: u8 = if i % 4 == 0 {
            byte % 4
        } else if i % 4 == 1 {
            byte / 4 % 4
        } else if i % 4 == 2 {
            byte / 16 % 4
        } else {
            byte / 64
        };
        proof {
            reveal_with_fuel(le::le_nat, 3);
            assert(le::le_nat(raw@, base as int, 2) == h);
        }
        out.push(gguf::pq2_value(code, h));
        j += 1;
    }
    out
}

/// Widens a brain-float to a single.
pub fn bf16_to_f32(b: u16) -> (r: u32)
    ensures
        r == b as int * 0x1_0000,
{
    b as u32 * 0x1_0000
}

} // verus!
