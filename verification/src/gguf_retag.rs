//! Retagging of group-128 ternary containers that carry the legacy type id.

use vstd::prelude::*;
use vstd::slice::*;
use vstd::string::*;

use crate::gguf;
use crate::gguf::{Entry, HeaderV, TensorV, ValueV};
use crate::gguf_write;
use crate::le;
use crate::text;

verus! {

/// Reads the 4-byte integer at `off`.
pub fn read_le_u32_at(buf: &[u8], off: u64) -> (r: Result<u32, String>)
    ensures
        match r {
            Ok(v) => off + 4 <= buf@.len() && v as nat == le::le_nat(buf@, off as int, 4),
            Err(m) => off + 4 > buf@.len() && m@ == "read_le_u32_at: out of bounds"@,
        },
{
    let n: usize = buf.len();
    if n < 4 || off > (n - 4) as u64 {
        return Err("read_le_u32_at: out of bounds".to_owned());
    }
    proof {
        le::lemma_pow256();
    }
    Ok(le::read_le(buf, off as usize, 4) as u32)
}

/// Reads the 8-byte integer at `off`.
pub fn read_le_u64_at(buf: &[u8], off: u64) -> (r: Result<u64, String>)
    ensures
        match r {
            Ok(v) => off + 8 <= buf@.len() && v as nat == le::le_nat(buf@, off as int, 8),
            Err(m) => off + 8 > buf@.len() && m@ == "read_le_u64_at: out of bounds"@,
        },
{
    let n: usize = buf.len();
    if n < 8 || off > (n - 8) as u64 {
        return Err("read_le_u64_at: out of bounds".to_owned());
    }
    Ok(le::read_le(buf, off as usize, 8))
}

/// `buf` with the bytes `s` in place of those at `p`.
pub open spec fn written(buf: Seq<u8>, p: int, s: Seq<u8>) -> Seq<u8> {
    buf.subrange(0, p) + s + buf.subrange(p + s.len(), buf.len() as int)
}

fn write_le_at(buf: &mut Vec<u8>, off: usize, v: u64, n: usize)
    requires
        n <= 8,
        off + n <= old(buf)@.len(),
    ensures
        final(buf)@ == written(old(buf)@, off as int, le::le_bytes(v as nat, n as nat)),
{
    let mut bytes: Vec<u8> = Vec::new();
    le::push_le(&mut bytes, v, n);
    let ghost all = le::le_bytes(v as nat, n as nat);
    proof {
        le::lemma_le_bytes_len(v as nat, n as nat);
        assert(bytes@ =~= all);
    }
    let size: usize = buf.len();
    let mut i: usize = 0;
    while i < n
        invariant
            i <= n,
            bytes@ == all,
            all.len() == n,
            off + n <= size,
            size == old(buf)@.len(),
            buf@.len() == size,
            buf@ == written(old(buf)@, off as int, all.take(i as int)),
        decreases n - i,
    {
        let x: u8 = bytes[i];
        buf.set(off + i, x);
        i += 1;
        assert(buf@ =~= written(old(buf)@, off as int, all.take(i as int)));
    }
    assert(all.take(n as int) =~= all);
}

/// Replaces the 4-byte integer at `off`.
pub fn write_le_u32_at(buf: &mut Vec<u8>, off: u64, v: u32) -> (r: Result<(), String>)
    ensures
        match r {
            Ok(_) => off + 4 <= old(buf)@.len() && final(buf)@ == written(
                old(buf)@,
                off as int,
                le::le_bytes(v as nat, 4),
            ),
            Err(m) => off + 4 > old(buf)@.len() && final(buf)@ == old(buf)@ && m@
                == "write_le_u32_at: out of bounds"@,
        },
{
    let n: usize = buf.len();
    if n < 4 || off > (n - 4) as u64 {
        return Err("write_le_u32_at: out of bounds".to_owned());
    }
    write_le_at(buf, off as usize, v as u64, 4);
    Ok(())
}

/// Replaces the 8-byte integer at `off`.
pub fn write_le_u64_at(buf: &mut Vec<u8>, off: u64, v: u64) -> (r: Result<(), String>)
    ensures
        match r {
            Ok(_) => off + 8 <= old(buf)@.len() && final(buf)@ == written(
                old(buf)@,
                off as int,
                le::le_bytes(v as nat, 8),
            ),
            Err(m) => off + 8 > old(buf)@.len() && final(buf)@ == old(buf)@ && m@
                == "write_le_u64_at: out of bounds"@,
        },
{
    let n: usize = buf.len();
    if n < 8 || off > (n - 8) as u64 {
        return Err("write_le_u64_at: out of bounds".to_owned());
    }
    write_le_at(buf, off as usize, v, 8);
    Ok(())
}

/// The position `n` bytes further on.
pub open spec fn advance(b: Seq<u8>, p: int, n: int) -> Result<int, Seq<char>> {
    if p + n > b.len() {
        Err(gguf::eof_text())
    } else {
        Ok(p + n)
    }
}

/// The position behind the value of type id `t` at `p`.
pub open spec fn skip_at(b: Seq<u8>, p: int, t: u32) -> Result<int, Seq<char>>
    decreases b.len() - p, 0nat, 0nat,
{
    if t == 0 || t == 1 || t == 7 {
        advance(b, p, 1)
    } else if t == 2 || t == 3 {
        advance(b, p, 2)
    } else if t == 4 || t == 5 || t == 6 {
        advance(b, p, 4)
    } else if t == 8 {
        match gguf::str_at(b, p) {
            Err(e) => Err(e),
            Ok((s, q)) => Ok(q),
        }
    } else if t == 9 {
        match gguf::uint_at(b, p, 4) {
            Err(e) => Err(e),
            Ok((elem, q)) => match gguf::uint_at(b, q, 8) {
                Err(e) => Err(e),
                Ok((n, q2)) => skip_items(b, p + 12, elem as u32, n),
            },
        }
    } else if t == 10 || t == 11 || t == 12 {
        advance(b, p, 8)
    } else {
        Err("skip_value: unknown type "@ + text::decimal(t as nat))
    }
}

/// The position behind the `n` values of type id `t` at `p`.
pub open spec fn skip_items(b: Seq<u8>, p: int, t: u32, n: nat) -> Result<int, Seq<char>>
    decreases b.len() - p, 1nat, n,
{
    if n == 0 {
        Ok(p)
    } else {
        match skip_at(b, p, t) {
            Err(e) => Err(e),
            Ok(q) => if p <= q <= b.len() {
                skip_items(b, q, t, (n - 1) as nat)
            } else {
                Err(gguf::eof_text())
            },
        }
    }
}

pub open spec fn position(r: Result<usize, String>) -> Result<int, Seq<char>> {
    match r {
        Ok(q) => Ok(q as int),
        Err(m) => Err(m@),
    }
}

/// Skips the value of type id `t` at `p`.
pub fn skip_value(b: &[u8], p: usize, t: u32) -> (r: Result<usize, String>)
    requires
        p <= b@.len(),
    ensures
        position(r) == skip_at(b@, p as int, t),
        r matches Ok(q) ==> p < q <= b@.len(),
    decreases b@.len() - p,
{
    let width: usize = match t {
        0 | 1 | 7 => 1,
        2 | 3 => 2,
        4 | 5 | 6 => 4,
        10 | 11 | 12 => 8,
        _ => 0};
    if width > 0 {
        if b.len() - p < width {
            return gguf::eof();
        }
        return Ok(p + width);
    }
    if t == 8 {
        return match gguf::read_str(b, p) {
            Ok((_s, q)) => Ok(q),
            Err(m) => Err(m)};
    }
    if t != 9 {
        let mut m = "skip_value: unknown type ".to_owned();
        text::push_decimal(&mut m, t as u64);
        return Err(m);
    }
    proof {
        le::lemma_pow256();
    }
    let (elem, q) = match gguf::read_uint(b, p, 4) {
        Ok(x) => x,
        Err(m) => {
            return Err(m);
        }};
    let (n, q2) = match gguf::read_uint(b, q, 8) {
        Ok(x) => x,
        Err(m) => {
            return Err(m);
        }};
    let elem_type: u32 = elem as u32;
    let mut at: usize = q2;
    let mut left: u64 = n;
    while left > 0
        invariant
            t == 9,
            p + 12 == q2,
            gguf::uint_at(b@, p as int, 4) == Ok::<(nat, int), Seq<char>>((elem as nat, q as int)),
            gguf::uint_at(b@, q as int, 8) == Ok::<(nat, int), Seq<char>>((n as nat, q2 as int)),
            elem_type == elem,
            q2 <= at <= b@.len(),
            skip_items(b@, q2 as int, elem_type, n as nat) == skip_items(
                b@,
                at as int,
                elem_type,
                left as nat,
            ),
        decreases left,
    {
        match skip_value(b, at, elem_type) {
            Ok(next) => {
                at = next;
            },
            Err(m) => {
                return Err(m);
            },
        }
        left -= 1;
    }
    Ok(at)
}

/// Bytes taken over from a header, how many fields changed in them, and where they end.
pub type Retagged = Result<(Seq<u8>, nat, int), Seq<char>>;

/// The 4- or 8-byte integer of value `from` at `b[at]`, replaced by `to` in the bytes from `p`
/// to `q`.
pub open spec fn replace_int(
    b: Seq<u8>,
    p: int,
    q: int,
    at: int,
    width: nat,
    from: nat,
    to: nat,
) -> Retagged {
    let raw = b.subrange(p, q);
    if le::le_nat(b, at, width) == from {
        Ok((written(raw, at - p, le::le_bytes(to, width)), 1, q))
    } else {
        Ok((raw, 0, q))
    }
}

/// The metadata entry at `p`, with an integer `general.file_type` of 28 turned into 128.
pub open spec fn retag_entry(b: Seq<u8>, p: int) -> Retagged {
    match gguf::str_at(b, p) {
        Err(e) => Err(e),
        Ok((key, q)) => match gguf::uint_at(b, q, 4) {
            Err(e) => Err(e),
            Ok((t, q2)) => match skip_at(b, q2, t as u32) {
                Err(e) => Err(e),
                Ok(q3) => if key == "general.file_type"@ && (t == 4 || t == 5) {
                    replace_int(b, p, q3, q2, 4, 28, 128)
                } else if key == "general.file_type"@ && (t == 10 || t == 11) {
                    replace_int(b, p, q3, q2, 8, 28, 128)
                } else {
                    Ok((b.subrange(p, q3), 0, q3))
                },
            },
        },
    }
}

/// The tensor record at `p`, with the legacy type id turned into the current one.
pub open spec fn retag_tensor(b: Seq<u8>, p: int) -> Retagged {
    match gguf::tensor_at(b, p) {
        Err(e) => Err(e),
        Ok((t, q)) => replace_int(
            b,
            p,
            q,
            q - 12,
            4,
            gguf::TYPE_Q2_0_LEGACY as nat,
            gguf::TYPE_PQ2_0 as nat,
        ),
    }
}

/// `r` behind bytes and a count that came before.
pub open spec fn join(head: Seq<u8>, count: nat, r: Retagged) -> Retagged {
    match r {
        Err(e) => Err(e),
        Ok((s, c, q)) => Ok((head + s, count + c, q)),
    }
}

/// `n` metadata entries or tensor records from `p` on.
pub open spec fn retag_all(b: Seq<u8>, p: int, n: nat, tensors: bool) -> Retagged
    decreases n,
{
    if n == 0 {
        Ok((Seq::empty(), 0, p))
    } else {
        match if tensors {
            retag_tensor(b, p)
        } else {
            retag_entry(b, p)
        } {
            Err(e) => Err(e),
            Ok((s, c, q)) => join(s, c, retag_all(b, q, (n - 1) as nat, tensors)),
        }
    }
}

/// The retagged header of a container: its bytes, how many type ids and how many file types
/// changed.
pub open spec fn retag_of(b: Seq<u8>) -> Result<(Seq<u8>, nat, nat), Seq<char>> {
    if b.len() < 4 {
        Err(gguf::eof_text())
    } else if b.subrange(0, 4) != seq![71u8, 71u8, 85u8, 70u8] {
        Err("not a GGUF file"@)
    } else {
        match gguf::uint_at(b, 4, 4) {
            Err(e) => Err(e),
            Ok((version, q)) => match gguf::uint_at(b, q, 8) {
                Err(e) => Err(e),
                Ok((nt, q2)) => match gguf::uint_at(b, q2, 8) {
                    Err(e) => Err(e),
                    Ok((nk, q3)) => match retag_all(b, q3, nk, false) {
                        Err(e) => Err(e),
                        Ok((meta, n_ft, q4)) => match retag_all(b, q4, nt, true) {
                            Err(e) => Err(e),
                            Ok((tensors, n_ty, q5)) => Ok(
                                (b.subrange(0, 24) + meta + tensors, n_ty, n_ft),
                            ),
                        },
                    },
                },
            },
        }
    }
}

/// A retagged container: a header to put in place of the old one, which is as long.
#[derive(Debug)]
pub struct Retag {
    pub header: Vec<u8>,
    /// Type ids that changed.
    pub n_ty: u64,
    /// File types that changed.
    pub n_ft: u64,
}

proof fn lemma_join(h: Seq<u8>, c: nat, s: Seq<u8>, d: nat, r: Retagged)
    ensures
        join(h, c, join(s, d, r)) == join(h + s, c + d, r),
{
    if let Ok((x, e, q)) = r {
        assert(h + (s + x) =~= (h + s) + x);
    }
}

/// Copies `b[p..q]` to the end of `out`, where `b[p]` belongs.
fn copy_range(out: &mut Vec<u8>, b: &[u8], p: usize, q: usize)
    requires
        p <= q <= b@.len(),
    ensures
        final(out)@ == old(out)@ + b@.subrange(p as int, q as int),
{
    gguf_write::push_bytes(out, slice_subrange(b, p, q));
}

/// Replaces `from` by `to` in the integer of 4 or 8 bytes at `at` of the bytes copied last.
fn patch_int(
    out: &mut Vec<u8>,
    b: &[u8],
    p: usize,
    q: usize,
    at: usize,
    wide: bool,
    from: u32,
    to: u32,
) -> (r: bool)
    requires
        old(out)@.len() == p,
        p <= at,
        at + (if wide { 8int } else { 4int }) <= q,
        q <= b@.len(),
    ensures
        final(out)@.len() == q,
        ({
            let w = if wide {
                8nat
            } else {
                4nat
            };
            replace_int(b@, p as int, q as int, at as int, w, from as nat, to as nat) == Ok::<
                (Seq<u8>, nat, int),
                Seq<char>,
            >(
                (
                    final(out)@.skip(p as int),
                    if r {
                        1
                    } else {
                        0
                    },
                    q as int,
                ),
            ) && final(out)@.take(p as int) == old(out)@
        }),
{
    let ghost before = out@;
    copy_range(out, b, p, q);
    let ghost raw = b@.subrange(p as int, q as int);
    let ghost w = if wide {
        8nat
    } else {
        4nat
    };
    proof {
        le::lemma_le_bytes_len(to as nat, w);
        assert(out@.subrange(at as int, at + w) =~= b@.subrange(at as int, at + w));
        le::lemma_le_nat_local(out@, at as int, b@, at as int, w);
        assert(out@.skip(p as int) =~= raw);
        assert(out@.take(p as int) =~= before);
    }
    if wide {
        if let Ok(v) = read_le_u64_at(out.as_slice(), at as u64) {
            if v == from as u64 {
                let _ = write_le_u64_at(out, at as u64, to as u64);
                proof {
                    assert(out@.skip(p as int) =~= written(raw, at - p, le::le_bytes(to as nat, w)));
                    assert(out@.take(p as int) =~= before);
                }
                return true;
            }
        }
    } else {
        if let Ok(v) = read_le_u32_at(out.as_slice(), at as u64) {
            if v == from {
                let _ = write_le_u32_at(out, at as u64, to);
                proof {
                    assert(out@.skip(p as int) =~= written(raw, at - p, le::le_bytes(to as nat, w)));
                    assert(out@.take(p as int) =~= before);
                }
                return true;
            }
        }
    }
    false
}

/// Takes over the metadata entry at `p`.
fn copy_entry(out: &mut Vec<u8>, b: &[u8], p: usize) -> (r: Result<(bool, usize), String>)
    requires
        old(out)@.len() == p,
        p <= b@.len(),
    ensures
        match r {
            Ok((hit, q)) => {
                &&& p <= q <= b@.len()
                &&& final(out)@.len() == q
                &&& final(out)@.take(p as int) == old(out)@
                &&& retag_entry(b@, p as int) == Ok::<(Seq<u8>, nat, int), Seq<char>>(
                    (
                        final(out)@.skip(p as int),
                        if hit {
                            1
                        } else {
                            0
                        },
                        q as int,
                    ),
                )
            },
            Err(m) => retag_entry(b@, p as int) == Err::<(Seq<u8>, nat, int), Seq<char>>(m@),
        },
{
    proof {
        le::lemma_pow256();
    }
    let (key, q) = match gguf::read_str(b, p) {
        Ok(x) => x,
        Err(m) => {
            return Err(m);
        }};
    let (t, q2) = match gguf::read_uint(b, q, 4) {
        Ok(x) => x,
        Err(m) => {
            return Err(m);
        }};
    let q3: usize = match skip_value(b, q2, t as u32) {
        Ok(x) => x,
        Err(m) => {
            return Err(m);
        }};
    proof {
        le::lemma_le_bytes_len(128, 4);
        le::lemma_le_bytes_len(128, 8);
    }
    let hit: bool = if text::same(key.as_str(), "general.file_type") && (t == 4 || t == 5) {
        patch_int(out, b, p, q3, q2, false, 28, 128)
    } else if text::same(key.as_str(), "general.file_type") && (t == 10 || t == 11) {
        patch_int(out, b, p, q3, q2, true, 28, 128)
    } else {
        let ghost before = out@;
        copy_range(out, b, p, q3);
        assert(out@.skip(p as int) =~= b@.subrange(p as int, q3 as int));
        assert(out@.take(p as int) =~= before);
        false
    };
    Ok((hit, q3))
}

/// Takes over the tensor record at `p`.
fn copy_tensor(out: &mut Vec<u8>, b: &[u8], p: usize) -> (r: Result<(bool, usize), String>)
    requires
        old(out)@.len() == p,
        p <= b@.len(),
    ensures
        match r {
            Ok((hit, q)) => {
                &&& p <= q <= b@.len()
                &&& final(out)@.len() == q
                &&& final(out)@.take(p as int) == old(out)@
                &&& retag_tensor(b@, p as int) == Ok::<(Seq<u8>, nat, int), Seq<char>>(
                    (
                        final(out)@.skip(p as int),
                        if hit {
                            1
                        } else {
                            0
                        },
                        q as int,
                    ),
                )
            },
            Err(m) => retag_tensor(b@, p as int) == Err::<(Seq<u8>, nat, int), Seq<char>>(m@),
        },
{
    let (_info, q) = match gguf::read_tensor_info(b, p) {
        Ok(x) => x,
        Err(m) => {
            return Err(m);
        }};
    proof {
        le::lemma_le_bytes_len(gguf::TYPE_PQ2_0 as nat, 4);
    }
    let hit: bool = patch_int(
        out,
        b,
        p,
        q,
        q - 12,
        false,
        gguf::TYPE_Q2_0_LEGACY,
        gguf::TYPE_PQ2_0,
    );
    Ok((hit, q))
}

/// Takes over `n` metadata entries or tensor records.
fn copy_all(out: &mut Vec<u8>, b: &[u8], p: usize, n: u64, tensors: bool) -> (r: Result<
    (u64, usize),
    String,
>)
    requires
        old(out)@.len() == p,
        p <= b@.len(),
    ensures
        match r {
            Ok((count, q)) => {
                &&& p <= q <= b@.len()
                &&& final(out)@.len() == q
                &&& final(out)@.take(p as int) == old(out)@
                &&& retag_all(b@, p as int, n as nat, tensors) == Ok::<
                    (Seq<u8>, nat, int),
                    Seq<char>,
                >((final(out)@.skip(p as int), count as nat, q as int))
            },
            Err(m) => retag_all(b@, p as int, n as nat, tensors) == Err::<
                (Seq<u8>, nat, int),
                Seq<char>,
            >(m@),
        },
{
    let ghost head = out@;
    let mut at: usize = p;
    let mut left: u64 = n;
    let mut count: u64 = 0;
    proof {
        assert(out@.skip(p as int) =~= Seq::<u8>::empty());
        assert(out@.take(p as int) =~= head);
        if let Ok((s, c, q)) = retag_all(b@, p as int, n as nat, tensors) {
            assert(Seq::<u8>::empty() + s =~= s);
        }
    }
    while left > 0
        invariant
            left <= n,
            p <= at <= b@.len(),
            out@.len() == at,
            head.len() == p,
            out@.take(p as int) == head,
            count <= n - left,
            retag_all(b@, p as int, n as nat, tensors) == join(
                out@.skip(p as int),
                count as nat,
                retag_all(b@, at as int, left as nat, tensors),
            ),
        decreases left,
    {
        let ghost before = out@;
        let step = if tensors {
            copy_tensor(out, b, at)
        } else {
            copy_entry(out, b, at)
        };
        match step {
            Ok((hit, next)) => {
                proof {
                    let piece = out@.skip(at as int);
                    let c = if hit {
                        1nat
                    } else {
                        0nat
                    };
                    let rest = retag_all(b@, next as int, (left - 1) as nat, tensors);
                    lemma_join(before.skip(p as int), count as nat, piece, c, rest);
                    assert(out@ =~= out@.take(at as int) + piece);
                    assert(before.skip(p as int) + piece =~= out@.skip(p as int));
                    assert(out@.take(p as int) =~= head);
                }
                if hit {
                    count += 1;
                }
                at = next;
            },
            Err(m) => {
                return Err(m);
            },
        }
        left -= 1;
    }
    assert(out@.skip(p as int) + Seq::<u8>::empty() =~= out@.skip(p as int));
    Ok((count, at))
}

/// Rewrites the tensor type id of group-128 ternary tensors from its legacy to its current value,
/// in the header alone; an integer file type follows.
pub fn retag_legacy_ternary(map: &[u8]) -> (r: Result<Retag, String>)
    ensures
        match r {
            Ok(t) => retag_of(map@) == Ok::<(Seq<u8>, nat, nat), Seq<char>>(
                (t.header@, t.n_ty as nat, t.n_ft as nat),
            ) && t.header@.len() <= map@.len(),
            Err(m) => retag_of(map@) == Err::<(Seq<u8>, nat, nat), Seq<char>>(m@),
        },
{
    if map.len() < 4 {
        return gguf::eof();
    }
    let ghost magic = seq![71u8, 71u8, 85u8, 70u8];
    if map[0] != 71 || map[1] != 71 || map[2] != 85 || map[3] != 70 {
        proof {
            let head = map@.subrange(0, 4);
            assert(head[0] == map@[0] && head[1] == map@[1] && head[2] == map@[2] && head[3]
                == map@[3]);
            assert(magic[0] == 71 && magic[1] == 71 && magic[2] == 85 && magic[3] == 70);
        }
        return Err("not a GGUF file".to_owned());
    }
    assert(map@.subrange(0, 4) =~= magic);
    let (_version, q) = match gguf::read_uint(map, 4, 4) {
        Ok(x) => x,
        Err(m) => {
            return Err(m);
        }};
    let (n_tensors, q2) = match gguf::read_uint(map, q, 8) {
        Ok(x) => x,
        Err(m) => {
            return Err(m);
        }};
    let (n_kv, q3) = match gguf::read_uint(map, q2, 8) {
        Ok(x) => x,
        Err(m) => {
            return Err(m);
        }};
    let mut header: Vec<u8> = Vec::new();
    copy_range(&mut header, map, 0, q3);
    let ghost head = header@;
    assert(head =~= map@.subrange(0, 24));
    let (n_ft, q4) = match copy_all(&mut header, map, q3, n_kv, false) {
        Ok(x) => x,
        Err(m) => {
            return Err(m);
        }};
    let ghost meta = header@.skip(q3 as int);
    assert(header@ =~= head + meta);
    let (n_ty, q5) = match copy_all(&mut header, map, q4, n_tensors, true) {
        Ok(x) => x,
        Err(m) => {
            return Err(m);
        }};
    assert(header@ =~= head + meta + header@.skip(q4 as int));
    Ok(Retag { header, n_ty, n_ft })
}

/// Two containers hold the same bytes from `p` to `q`.
spec fn agree(a: Seq<u8>, b: Seq<u8>, p: int, q: int) -> bool {
    0 <= p <= q <= a.len() && q <= b.len() && a.subrange(p, q) == b.subrange(p, q)
}

proof fn lemma_agree_within(a: Seq<u8>, b: Seq<u8>, p: int, q: int, i: int, j: int)
    requires
        agree(a, b, p, q),
        p <= i <= j <= q,
    ensures
        agree(a, b, i, j),
{
    let x = a.subrange(p, q);
    let y = b.subrange(p, q);
    assert(a.subrange(i, j) =~= x.subrange(i - p, j - p));
    assert(b.subrange(i, j) =~= y.subrange(i - p, j - p));
}

proof fn lemma_uint_local(a: Seq<u8>, b: Seq<u8>, p: int, n: nat)
    requires
        agree(a, b, p, p + n),
    ensures
        gguf::uint_at(a, p, n) == gguf::uint_at(b, p, n),
{
    le::lemma_le_nat_local(a, p, b, p, n);
}

proof fn lemma_str_local(a: Seq<u8>, b: Seq<u8>, p: int)
    requires
        gguf::str_at(a, p) matches Ok((s, q)) && agree(a, b, p, q),
    ensures
        gguf::str_at(b, p) == gguf::str_at(a, p),
{
    let (s, q) = gguf::str_at(a, p)->Ok_0;
    lemma_agree_within(a, b, p, q, p, p + 8);
    lemma_uint_local(a, b, p, 8);
    lemma_agree_within(a, b, p, q, p + 8, q);
}

proof fn lemma_scalar_local(a: Seq<u8>, b: Seq<u8>, p: int, n: nat)
    requires
        gguf::uint_at(a, p, n) is Ok,
        agree(a, b, p, p + n),
    ensures
        gguf::uint_at(b, p, n) == gguf::uint_at(a, p, n),
{
    lemma_uint_local(a, b, p, n);
}

/// A value ends behind where it starts, within the container.
proof fn lemma_value_extent(b: Seq<u8>, p: int, t: u32)
    requires
        0 <= p,
    ensures
        gguf::value_at(b, p, t) matches Ok((v, q)) ==> p < q <= b.len(),
    decreases b.len() - p, 0nat, 0nat,
{
    if t == 9 {
        if let Ok((elem, q)) = gguf::uint_at(b, p, 4) {
            if let Ok((n, q2)) = gguf::uint_at(b, q, 8) {
                lemma_items_extent(b, p + 12, elem as u32, n);
            }
        }
    }
}

proof fn lemma_items_extent(b: Seq<u8>, p: int, t: u32, n: nat)
    requires
        0 <= p <= b.len(),
    ensures
        gguf::items_at(b, p, t, n) matches Ok((v, q)) ==> p <= q <= b.len(),
    decreases b.len() - p, 1nat, n,
{
    if n > 0 {
        lemma_value_extent(b, p, t);
        if let Ok((v, q)) = gguf::value_at(b, p, t) {
            lemma_items_extent(b, q, t, (n - 1) as nat);
        }
    }
}

proof fn lemma_value_local(a: Seq<u8>, b: Seq<u8>, p: int, t: u32)
    requires
        gguf::value_at(a, p, t) matches Ok((v, q)) && agree(a, b, p, q),
    ensures
        gguf::value_at(b, p, t) == gguf::value_at(a, p, t),
    decreases a.len() - p, 0nat, 0nat,
{
    let (v, q) = gguf::value_at(a, p, t)->Ok_0;
    if t == 0 || t == 1 || t == 7 {
        lemma_scalar_local(a, b, p, 1);
    } else if t == 2 || t == 3 {
        lemma_scalar_local(a, b, p, 2);
    } else if t == 4 || t == 5 || t == 6 {
        lemma_scalar_local(a, b, p, 4);
    } else if t == 8 {
        lemma_str_local(a, b, p);
    } else if t == 9 {
        let (elem, q1) = gguf::uint_at(a, p, 4)->Ok_0;
        let (n, q2) = gguf::uint_at(a, q1, 8)->Ok_0;
        lemma_items_extent(a, p + 12, elem as u32, n);
        lemma_agree_within(a, b, p, q, p, p + 4);
        lemma_agree_within(a, b, p, q, p + 4, p + 12);
        lemma_agree_within(a, b, p, q, p + 12, q);
        lemma_scalar_local(a, b, p, 4);
        lemma_scalar_local(a, b, p + 4, 8);
        lemma_items_local(a, b, p + 12, elem as u32, n);
    } else {
        lemma_scalar_local(a, b, p, 8);
    }
}

proof fn lemma_items_local(a: Seq<u8>, b: Seq<u8>, p: int, t: u32, n: nat)
    requires
        gguf::items_at(a, p, t, n) matches Ok((v, q)) && agree(a, b, p, q),
    ensures
        gguf::items_at(b, p, t, n) == gguf::items_at(a, p, t, n),
    decreases a.len() - p, 1nat, n,
{
    if n > 0 {
        let (all, end) = gguf::items_at(a, p, t, n)->Ok_0;
        let (v, q) = gguf::value_at(a, p, t)->Ok_0;
        lemma_value_extent(a, p, t);
        lemma_items_extent(a, q, t, (n - 1) as nat);
        lemma_agree_within(a, b, p, end, p, q);
        lemma_agree_within(a, b, p, end, q, end);
        lemma_value_local(a, b, p, t);
        lemma_items_local(a, b, q, t, (n - 1) as nat);
    }
}

proof fn lemma_dims_local(a: Seq<u8>, b: Seq<u8>, p: int, n: nat)
    requires
        gguf::dims_at(a, p, n) matches Ok((d, q)) && agree(a, b, p, q),
    ensures
        gguf::dims_at(b, p, n) == gguf::dims_at(a, p, n),
    decreases n,
{
    if n > 0 {
        let (all, end) = gguf::dims_at(a, p, n)->Ok_0;
        lemma_dims_extent(a, p, n);
        lemma_dims_extent(a, p + 8, (n - 1) as nat);
        lemma_agree_within(a, b, p, end, p, p + 8);
        lemma_agree_within(a, b, p, end, p + 8, end);
        lemma_scalar_local(a, b, p, 8);
        lemma_dims_local(a, b, p + 8, (n - 1) as nat);
    }
}

proof fn lemma_dims_extent(b: Seq<u8>, p: int, n: nat)
    ensures
        gguf::dims_at(b, p, n) matches Ok((d, q)) ==> q == p + 8 * n && (n > 0 ==> q <= b.len()),
    decreases n,
{
    if n > 0 {
        lemma_dims_extent(b, p + 8, (n - 1) as nat);
    }
}

/// Skipping and reading agree on where a value ends.
proof fn lemma_skip_is_read(b: Seq<u8>, p: int, t: u32)
    requires
        0 <= p,
    ensures
        match (skip_at(b, p, t), gguf::value_at(b, p, t)) {
            (Ok(q), Ok((v, q2))) => q == q2,
            (Err(_), Err(_)) => true,
            _ => false,
        },
    decreases b.len() - p, 0nat, 0nat,
{
    if t == 9 {
        if let Ok((elem, q)) = gguf::uint_at(b, p, 4) {
            if let Ok((n, q2)) = gguf::uint_at(b, q, 8) {
                lemma_skip_items_is_read(b, p + 12, elem as u32, n);
            }
        }
    }
}

proof fn lemma_skip_items_is_read(b: Seq<u8>, p: int, t: u32, n: nat)
    requires
        0 <= p <= b.len(),
    ensures
        match (skip_items(b, p, t, n), gguf::items_at(b, p, t, n)) {
            (Ok(q), Ok((v, q2))) => q == q2,
            (Err(_), Err(_)) => true,
            _ => false,
        },
    decreases b.len() - p, 1nat, n,
{
    if n > 0 {
        lemma_skip_is_read(b, p, t);
        lemma_value_extent(b, p, t);
        if let Ok((v, q)) = gguf::value_at(b, p, t) {
            lemma_skip_items_is_read(b, q, t, (n - 1) as nat);
        }
    }
}

/// An entry after retagging: an integer file type of 28 has become 128.
pub open spec fn retagged_entry(e: Entry) -> Entry {
    if e.0 != "general.file_type"@ {
        e
    } else {
        match e.1 {
            ValueV::U32(28) => (e.0, ValueV::U32(128)),
            ValueV::I32(28) => (e.0, ValueV::I32(128)),
            ValueV::U64(28) => (e.0, ValueV::U64(128)),
            ValueV::I64(28) => (e.0, ValueV::I64(128)),
            _ => e,
        }
    }
}

/// A tensor record after retagging: the legacy type id has become the current one.
pub open spec fn retagged_tensor(t: TensorV) -> TensorV {
    TensorV {
        ty: if t.ty == gguf::TYPE_Q2_0_LEGACY {
            gguf::TYPE_PQ2_0
        } else {
            t.ty
        },
        ..t
    }
}

proof fn lemma_small_ints(x: u32, y: u64)
    ensures
        (x as i32 == 28) == (x == 28),
        (y as i64 == 28) == (y == 28),
        128u32 as i32 == 128,
        128u64 as i64 == 128,
{
    assert((x as i32 == 28) == (x == 28)) by (bit_vector);
    assert((y as i64 == 28) == (y == 28)) by (bit_vector);
    assert(128u32 as i32 == 128) by (bit_vector);
    assert(128u64 as i64 == 128) by (bit_vector);
}

/// A piece of `b` with an integer replaced, standing in `c`, agrees with `b` around the integer.
proof fn lemma_replaced(b: Seq<u8>, c: Seq<u8>, p: int, q: int, at: int, w: nat, to: nat)
    requires
        0 <= p <= at,
        at + w <= q <= b.len(),
        to < le::pow256(w),
        gguf_write::stands(c, p, written(b.subrange(p, q), at - p, le::le_bytes(to, w))),
    ensures
        agree(b, c, p, at),
        agree(b, c, at + w, q),
        gguf::uint_at(c, at, w) == Ok::<(nat, int), Seq<char>>((to, at + w)),
{
    let raw = b.subrange(p, q);
    let v = le::le_bytes(to, w);
    le::lemma_le_bytes_len(to, w);
    le::law_le_round_trip(to, w);
    let s = written(raw, at - p, v);
    assert(s.len() == q - p);
    let d = c.subrange(p, q);
    assert(d == s);
    assert(c.subrange(p, at) =~= s.subrange(0, at - p));
    assert(b.subrange(p, at) =~= s.subrange(0, at - p));
    assert(c.subrange(at + w, q) =~= s.subrange(at - p + w, q - p));
    assert(b.subrange(at + w, q) =~= s.subrange(at - p + w, q - p));
    assert(c.subrange(at, at + w) =~= s.subrange(at - p, at - p + w));
    assert(v.subrange(0, w as int) =~= s.subrange(at - p, at - p + w));
    le::lemma_le_nat_local(c, at, v, 0, w);
}

proof fn lemma_entry_retags(b: Seq<u8>, c: Seq<u8>, p: int)
    requires
        0 <= p,
        retag_entry(b, p) matches Ok((s, n, q)) && gguf_write::stands(c, p, s),
    ensures
        retag_entry(b, p) matches Ok((s, n, q)) && gguf::entry_at(b, p) matches Ok((e, q2)) && q
            == q2 && p < q <= b.len() && s.len() == q - p && gguf::entry_at(c, p) == Ok::<
            (Entry, int),
            Seq<char>,
        >((retagged_entry(e), q)) && retag_entry(c, p) == Ok::<(Seq<u8>, nat, int), Seq<char>>(
            (s, 0, q),
        ),
{
    le::lemma_pow256();
    let (s, n, q) = retag_entry(b, p)->Ok_0;
    let (key, q1) = gguf::str_at(b, p)->Ok_0;
    let (t, q2) = gguf::uint_at(b, q1, 4)->Ok_0;
    le::lemma_le_nat_bound(b, q1, 4);
    let ty = t as u32;
    lemma_skip_is_read(b, q2, ty);
    lemma_value_extent(b, q2, ty);
    let (v, q3) = gguf::value_at(b, q2, ty)->Ok_0;
    let wide = t == 10 || t == 11;
    let w = if wide {
        8nat
    } else {
        4nat
    };
    let hit = key == "general.file_type"@ && (t == 4 || t == 5 || wide) && le::le_nat(b, q2, w)
        == 28;
    lemma_small_ints(le::le_nat(b, q2, 4) as u32, le::le_nat(b, q2, 8) as u64);
    le::lemma_le_nat_bound(b, q2, w);
    if hit {
        lemma_replaced(b, c, p, q, q2, w, 128);
        lemma_agree_within(b, c, p, q2, p, q1);
        lemma_agree_within(b, c, p, q2, q1, q2);
        lemma_str_local(b, c, p);
        lemma_uint_local(b, c, q1, 4);
        le::lemma_le_bytes_len(128, w);
        assert(c.subrange(p, q) =~= s);
    } else {
        assert(s == b.subrange(p, q));
        assert(agree(b, c, p, q));
        lemma_agree_within(b, c, p, q, p, q1);
        lemma_agree_within(b, c, p, q, q1, q2);
        lemma_agree_within(b, c, p, q, q2, q);
        lemma_str_local(b, c, p);
        lemma_uint_local(b, c, q1, 4);
        lemma_value_local(b, c, q2, ty);
        lemma_skip_is_read(c, q2, ty);
        if t == 4 || t == 5 || wide {
            le::lemma_le_nat_local(b, q2, c, q2, w);
        }
        assert(c.subrange(p, q) =~= s);
    }
}

proof fn lemma_tensor_retags(b: Seq<u8>, c: Seq<u8>, p: int)
    requires
        0 <= p,
        retag_tensor(b, p) matches Ok((s, n, q)) && gguf_write::stands(c, p, s),
    ensures
        retag_tensor(b, p) matches Ok((s, n, q)) && gguf::tensor_at(b, p) matches Ok((t, q2)) && q
            == q2 && p < q <= b.len() && s.len() == q - p && gguf::tensor_at(c, p) == Ok::<
            (TensorV, int),
            Seq<char>,
        >((retagged_tensor(t), q)) && retag_tensor(c, p) == Ok::<(Seq<u8>, nat, int), Seq<char>>(
            (s, 0, q),
        ),
{
    le::lemma_pow256();
    let (s, n, q) = retag_tensor(b, p)->Ok_0;
    let (name, q1) = gguf::str_at(b, p)->Ok_0;
    let (nd, q2) = gguf::uint_at(b, q1, 4)->Ok_0;
    let (dims, q3) = gguf::dims_at(b, q2, nd)->Ok_0;
    let (ty, q4) = gguf::uint_at(b, q3, 4)->Ok_0;
    lemma_dims_extent(b, q2, nd);
    le::lemma_le_nat_bound(b, q3, 4);
    assert(q3 == q - 12);
    le::lemma_le_bytes_len(gguf::TYPE_PQ2_0 as nat, 4);
    if ty == gguf::TYPE_Q2_0_LEGACY as nat {
        lemma_replaced(b, c, p, q, q3, 4, gguf::TYPE_PQ2_0 as nat);
        lemma_agree_within(b, c, p, q3, p, q3);
    } else {
        assert(s == b.subrange(p, q));
        assert(agree(b, c, p, q));
        lemma_agree_within(b, c, p, q, p, q3);
        lemma_agree_within(b, c, p, q, q3, q4);
        lemma_agree_within(b, c, p, q, q4, q);
        lemma_uint_local(b, c, q3, 4);
    }
    lemma_agree_within(b, c, p, q3, p, q1);
    lemma_agree_within(b, c, p, q3, q1, q2);
    lemma_agree_within(b, c, p, q3, q2, q3);
    lemma_str_local(b, c, p);
    lemma_uint_local(b, c, q1, 4);
    lemma_dims_local(b, c, q2, nd);
    lemma_uint_local(b, c, q4, 8);
    assert(c.subrange(p, q) =~= s);
}

proof fn lemma_entries_retag(b: Seq<u8>, c: Seq<u8>, p: int, n: nat)
    requires
        0 <= p,
        retag_all(b, p, n, false) matches Ok((s, k, q)) && gguf_write::stands(c, p, s),
    ensures
        retag_all(b, p, n, false) matches Ok((s, k, q)) && gguf::entries_at(b, p, n) matches Ok(
            (es, q2),
        ) && q == q2 && s.len() == q - p && gguf::entries_at(c, p, n) == Ok::<
            (Seq<Entry>, int),
            Seq<char>,
        >((es.map_values(|e: Entry| retagged_entry(e)), q)) && retag_all(c, p, n, false) == Ok::<
            (Seq<u8>, nat, int),
            Seq<char>,
        >((s, 0, q)),
    decreases n,
{
    let f = |e: Entry| retagged_entry(e);
    if n > 0 {
        let (s1, k1, q1) = retag_entry(b, p)->Ok_0;
        let rest = retag_all(b, q1, (n - 1) as nat, false);
        let (s2, k2, q2) = rest->Ok_0;
        gguf_write::lemma_stands_split(c, p, s1, s2);
        lemma_entry_retags(b, c, p);
        lemma_entries_retag(b, c, q1, (n - 1) as nat);
        let (e, x) = gguf::entry_at(b, p)->Ok_0;
        let (es, y) = gguf::entries_at(b, q1, (n - 1) as nat)->Ok_0;
        assert((seq![e] + es).map_values(f) =~= seq![f(e)] + es.map_values(f));
    } else {
        assert(Seq::<Entry>::empty().map_values(f) =~= Seq::<Entry>::empty());
    }
}

proof fn lemma_tensors_retag(b: Seq<u8>, c: Seq<u8>, p: int, n: nat)
    requires
        0 <= p,
        retag_all(b, p, n, true) matches Ok((s, k, q)) && gguf_write::stands(c, p, s),
    ensures
        retag_all(b, p, n, true) matches Ok((s, k, q)) && gguf::tensors_at(b, p, n) matches Ok(
            (ts, q2),
        ) && q == q2 && s.len() == q - p && gguf::tensors_at(c, p, n) == Ok::<
            (Seq<TensorV>, int),
            Seq<char>,
        >((ts.map_values(|t: TensorV| retagged_tensor(t)), q)) && retag_all(c, p, n, true) == Ok::<
            (Seq<u8>, nat, int),
            Seq<char>,
        >((s, 0, q)),
    decreases n,
{
    let f = |t: TensorV| retagged_tensor(t);
    if n > 0 {
        let (s1, k1, q1) = retag_tensor(b, p)->Ok_0;
        let rest = retag_all(b, q1, (n - 1) as nat, true);
        let (s2, k2, q2) = rest->Ok_0;
        gguf_write::lemma_stands_split(c, p, s1, s2);
        lemma_tensor_retags(b, c, p);
        lemma_tensors_retag(b, c, q1, (n - 1) as nat);
        let (t, x) = gguf::tensor_at(b, p)->Ok_0;
        let (ts, y) = gguf::tensors_at(b, q1, (n - 1) as nat)->Ok_0;
        assert((seq![t] + ts).map_values(f) =~= seq![f(t)] + ts.map_values(f));
    } else {
        assert(Seq::<TensorV>::empty().map_values(f) =~= Seq::<TensorV>::empty());
    }
}

/// Retagging changes nothing but the tags: with the new header in place of the old one, which is
/// as long, the container reads as before except for the type ids and the file type. Retagging it
/// again finds nothing to change.
pub proof fn law_retag_changes_tags_only(b: Seq<u8>)
    requires
        retag_of(b) is Ok,
    ensures
        retag_of(b) matches Ok((head, n_ty, n_ft)) && gguf::header_of(b) matches Ok(h) && head.len()
            == h.end && gguf::header_of(head + b.skip(h.end)) == Ok::<HeaderV, Seq<char>>(
            HeaderV {
                meta: h.meta.map_values(|e: Entry| retagged_entry(e)),
                tensors: h.tensors.map_values(|t: TensorV| retagged_tensor(t)),
                ..h
            },
        ) && retag_of(head + b.skip(h.end)) == Ok::<(Seq<u8>, nat, nat), Seq<char>>((head, 0, 0)),
{
    let (head, n_ty, n_ft) = retag_of(b)->Ok_0;
    let (nt, x2) = gguf::uint_at(b, 8, 8)->Ok_0;
    let (nk, x3) = gguf::uint_at(b, 16, 8)->Ok_0;
    let (meta, c1, q4) = retag_all(b, 24, nk, false)->Ok_0;
    let (tensors, c2, q5) = retag_all(b, q4, nt, true)->Ok_0;
    let top = b.subrange(0, 24);
    // `end` is where the new header ends; that it is where the old one does follows below.
    let end = head.len() as int;
    let c = head + b.skip(end);
    assert(c.subrange(0, end) =~= head);
    assert(head == top + meta + tensors);
    gguf_write::lemma_stands_split(c, 0, top + meta, tensors);
    gguf_write::lemma_stands_split(c, 0, top, meta);
    lemma_entries_retag(b, c, 24, nk);
    lemma_tensors_retag(b, c, q4, nt);
    assert(agree(b, c, 0, 24));
    lemma_agree_within(b, c, 0, 24, 0, 4);
    lemma_agree_within(b, c, 0, 24, 4, 8);
    lemma_agree_within(b, c, 0, 24, 8, 16);
    lemma_agree_within(b, c, 0, 24, 16, 24);
    lemma_uint_local(b, c, 4, 4);
    lemma_uint_local(b, c, 8, 8);
    lemma_uint_local(b, c, 16, 8);
}

// ---- the bytes that change ----------------------------------------------------------------------

/// Where the integer of a record from `p` to `q` stands that retagging looks at, and how wide it
/// is: a tensor's type id, or the value of a metadata entry.
pub open spec fn tag_field(b: Seq<u8>, p: int, q: int, tensors: bool) -> (int, nat) {
    if tensors {
        (q - 12, 4)
    } else {
        match gguf::str_at(b, p) {
            Ok((key, q1)) => (q1 + 4, (q - (q1 + 4)) as nat),
            Err(_) => (q, 0),
        }
    }
}

/// The integers that retagging changes in `n` metadata entries or tensor records from `p` on.
pub open spec fn changes_at(b: Seq<u8>, p: int, n: nat, tensors: bool) -> Seq<(int, nat)>
    decreases n,
{
    if n == 0 {
        Seq::empty()
    } else {
        match if tensors {
            retag_tensor(b, p)
        } else {
            retag_entry(b, p)
        } {
            Err(e) => Seq::empty(),
            Ok((s, c, q)) => (if c > 0 {
                seq![tag_field(b, p, q, tensors)]
            } else {
                Seq::empty()
            }) + changes_at(b, q, (n - 1) as nat, tensors),
        }
    }
}

/// The file types that retagging a container changes.
pub open spec fn file_type_changes(b: Seq<u8>) -> Seq<(int, nat)> {
    changes_at(b, 24, le::le_nat(b, 16, 8), false)
}

/// The type ids that retagging a container changes.
pub open spec fn type_changes(b: Seq<u8>) -> Seq<(int, nat)> {
    match retag_all(b, 24, le::le_nat(b, 16, 8), false) {
        Ok((s, n, q)) => changes_at(b, q, le::le_nat(b, 8, 8), true),
        Err(_) => Seq::empty(),
    }
}

/// The byte at `i` belongs to one of the integers.
pub open spec fn covered(fields: Seq<(int, nat)>, i: int) -> bool {
    exists|j: int| 0 <= j < fields.len() && holds_byte(#[trigger] fields[j], i)
}

pub open spec fn holds_byte(f: (int, nat), i: int) -> bool {
    f.0 <= i < f.0 + f.1
}

/// Each of the integers is `from` in `b`, and `to` in `d`, whose bytes begin at `at`.
pub open spec fn all_changed(
    b: Seq<u8>,
    d: Seq<u8>,
    at: int,
    fields: Seq<(int, nat)>,
    from: nat,
    to: nat,
) -> bool {
    forall|j: int|
        0 <= j < fields.len() ==> {
            let (i, w) = #[trigger] fields[j];
            &&& at <= i && i + w <= at + d.len()
            &&& le::le_nat(b, i, w) == from
            &&& le::le_nat(d, i - at, w) == to
        }
}

/// The bytes of `d`, which stand for those of `b` from `at` on, differ only in the integers.
pub open spec fn same_but(b: Seq<u8>, d: Seq<u8>, at: int, fields: Seq<(int, nat)>) -> bool {
    forall|i: int|
        at <= i < at + d.len() && !covered(fields, i) ==> #[trigger] d[i - at] == b[i]
}

pub open spec fn tag_from(tensors: bool) -> nat {
    if tensors {
        gguf::TYPE_Q2_0_LEGACY as nat
    } else {
        28
    }
}

pub open spec fn tag_to(tensors: bool) -> nat {
    if tensors {
        gguf::TYPE_PQ2_0 as nat
    } else {
        128
    }
}

/// One record is taken over as it is, or with its tag changed.
proof fn lemma_record(b: Seq<u8>, p: int, tensors: bool)
    requires
        0 <= p,
        (if tensors {
            retag_tensor(b, p)
        } else {
            retag_entry(b, p)
        }) is Ok,
    ensures
        (if tensors {
            retag_tensor(b, p)
        } else {
            retag_entry(b, p)
        }) matches Ok((s, c, q)) && p < q <= b.len() && s.len() == q - p && c <= 1 && ({
            let f = tag_field(b, p, q, tensors);
            if c == 0 {
                s == b.subrange(p, q)
            } else {
                all_changed(b, s, p, seq![f], tag_from(tensors), tag_to(tensors)) && same_but(
                    b,
                    s,
                    p,
                    seq![f],
                )
            }
        }),
{
    le::lemma_pow256();
    let (s, c, q) = (if tensors {
        retag_tensor(b, p)
    } else {
        retag_entry(b, p)
    })->Ok_0;
    if tensors {
        let (name, q1) = gguf::str_at(b, p)->Ok_0;
        let (nd, q2) = gguf::uint_at(b, q1, 4)->Ok_0;
        lemma_dims_extent(b, q2, nd);
    } else {
        let (key, q1) = gguf::str_at(b, p)->Ok_0;
        let (t, q2) = gguf::uint_at(b, q1, 4)->Ok_0;
        le::lemma_le_nat_bound(b, q1, 4);
        lemma_skip_is_read(b, q2, t as u32);
        lemma_value_extent(b, q2, t as u32);
    }
    if c > 0 {
        let (at, w) = tag_field(b, p, q, tensors);
        let to = tag_to(tensors);
        let v = le::le_bytes(to, w);
        le::lemma_le_bytes_len(to, w);
        le::law_le_round_trip(to, w);
        let raw = b.subrange(p, q);
        assert(s == written(raw, at - p, v));
        assert(v.subrange(0, w as int) =~= s.subrange(at - p, at - p + w));
        le::lemma_le_nat_local(s, at - p, v, 0, w);
        let fs = seq![(at, w)];
        assert forall|i: int| p <= i < p + s.len() && !covered(fs, i) implies #[trigger] s[i - p]
            == b[i] by {
            if holds_byte((at, w), i) {
                assert(holds_byte(fs[0], i));
            }
        }
    }
}

proof fn lemma_covered_part(a: Seq<(int, nat)>, c: Seq<(int, nat)>, i: int)
    ensures
        covered(a, i) || covered(c, i) ==> covered(a + c, i),
{
    let all = a + c;
    if covered(a, i) {
        let j = choose|j: int| 0 <= j < a.len() && holds_byte(#[trigger] a[j], i);
        assert(all[j] == a[j]);
        assert(holds_byte(all[j], i));
    } else if covered(c, i) {
        let j = choose|j: int| 0 <= j < c.len() && holds_byte(#[trigger] c[j], i);
        assert(all[a.len() + j] == c[j]);
        assert(holds_byte(all[a.len() + j], i));
    }
}

/// What holds of two parts, one behind the other, holds of the whole.
proof fn lemma_parts_changed(
    b: Seq<u8>,
    d: Seq<u8>,
    e: Seq<u8>,
    p: int,
    fs: Seq<(int, nat)>,
    gs: Seq<(int, nat)>,
    from: nat,
    to: nat,
)
    requires
        all_changed(b, d, p, fs, from, to),
        all_changed(b, e, p + d.len(), gs, from, to),
        same_but(b, d, p, fs),
        same_but(b, e, p + d.len(), gs),
    ensures
        all_changed(b, d + e, p, fs + gs, from, to),
        same_but(b, d + e, p, fs + gs),
{
    let all = d + e;
    let hs = fs + gs;
    assert forall|j: int| 0 <= j < hs.len() implies ({
        let (i, w) = #[trigger] hs[j];
        &&& p <= i && i + w <= p + all.len()
        &&& le::le_nat(b, i, w) == from
        &&& le::le_nat(all, i - p, w) == to
    }) by {
        let (i, w) = hs[j];
        if j < fs.len() {
            assert(fs[j] == (i, w));
            assert(all.subrange(i - p, i - p + w) =~= d.subrange(i - p, i - p + w));
            le::lemma_le_nat_local(all, i - p, d, i - p, w);
        } else {
            assert(gs[j - fs.len()] == (i, w));
            let k = i - p - d.len();
            assert(all.subrange(i - p, i - p + w) =~= e.subrange(k, k + w));
            le::lemma_le_nat_local(all, i - p, e, k, w);
        }
    }
    assert forall|i: int| p <= i < p + all.len() && !covered(hs, i) implies #[trigger] all[i - p]
        == b[i] by {
        lemma_covered_part(fs, gs, i);
        if i < p + d.len() {
            assert(d[i - p] == b[i]);
        } else {
            assert(e[i - (p + d.len())] == b[i]);
        }
    }
}

/// Bytes that are the same differ in no integer.
proof fn lemma_same(b: Seq<u8>, d: Seq<u8>, p: int, from: nat, to: nat)
    requires
        0 <= p,
        p + d.len() <= b.len(),
        d == b.subrange(p, p + d.len()),
    ensures
        all_changed(b, d, p, Seq::empty(), from, to),
        same_but(b, d, p, Seq::empty()),
{
    assert forall|i: int|
        p <= i < p + d.len() && !covered(Seq::empty(), i) implies #[trigger] d[i - p] == b[i] by {
        assert(b.subrange(p, p + d.len())[i - p] == b[i]);
    }
}

/// Records are taken over with their tags changed where they are to be.
proof fn lemma_records(b: Seq<u8>, p: int, n: nat, tensors: bool)
    requires
        0 <= p <= b.len(),
        retag_all(b, p, n, tensors) is Ok,
    ensures
        retag_all(b, p, n, tensors) matches Ok((s, k, q)) && ({
            let fs = changes_at(b, p, n, tensors);
            &&& p <= q <= b.len()
            &&& s.len() == q - p
            &&& fs.len() == k
            &&& all_changed(b, s, p, fs, tag_from(tensors), tag_to(tensors))
            &&& same_but(b, s, p, fs)
        }),
    decreases n,
{
    if n > 0 {
        lemma_record(b, p, tensors);
        let (s1, k1, q1) = (if tensors {
            retag_tensor(b, p)
        } else {
            retag_entry(b, p)
        })->Ok_0;
        lemma_records(b, q1, (n - 1) as nat, tensors);
        let (s2, k2, q2) = retag_all(b, q1, (n - 1) as nat, tensors)->Ok_0;
        let fs = if k1 > 0 {
            seq![tag_field(b, p, q1, tensors)]
        } else {
            Seq::<(int, nat)>::empty()
        };
        if k1 == 0 {
            lemma_same(b, s1, p, tag_from(tensors), tag_to(tensors));
        }
        lemma_parts_changed(
            b,
            s1,
            s2,
            p,
            fs,
            changes_at(b, q1, (n - 1) as nat, tensors),
            tag_from(tensors),
            tag_to(tensors),
        );
    }
}

/// A retagged container is as long as before, and its bytes differ only in the integers that are
/// counted: type ids that were the legacy one and are the current one now, and file types that
/// were 28 and are 128 now. What follows the header is the same, and no legacy type id is left.
pub proof fn law_retag_changes_few_bytes(b: Seq<u8>)
    requires
        retag_of(b) is Ok,
    ensures
        retag_of(b) matches Ok((head, n_ty, n_ft)) && ({
            let end = head.len() as int;
            let d = head + b.skip(end);
            &&& end <= b.len()
            &&& d.len() == b.len()
            &&& d.skip(end) == b.skip(end)
            &&& type_changes(b).len() == n_ty
            &&& file_type_changes(b).len() == n_ft
            &&& all_changed(
                b,
                d,
                0,
                type_changes(b),
                gguf::TYPE_Q2_0_LEGACY as nat,
                gguf::TYPE_PQ2_0 as nat,
            )
            &&& all_changed(b, d, 0, file_type_changes(b), 28, 128)
            &&& same_but(b, d, 0, type_changes(b) + file_type_changes(b))
            &&& gguf::header_of(d) matches Ok(h) && forall|i: int|
                0 <= i < h.tensors.len() ==> (#[trigger] h.tensors[i]).ty
                    != gguf::TYPE_Q2_0_LEGACY
        }),
{
    let (head, n_ty, n_ft) = retag_of(b)->Ok_0;
    let (nt, x2) = gguf::uint_at(b, 8, 8)->Ok_0;
    let (nk, x3) = gguf::uint_at(b, 16, 8)->Ok_0;
    let (meta, c1, q4) = retag_all(b, 24, nk, false)->Ok_0;
    lemma_records(b, 24, nk, false);
    let (tensors, c2, q5) = retag_all(b, q4, nt, true)->Ok_0;
    lemma_records(b, q4, nt, true);
    law_retag_changes_tags_only(b);
    let end = head.len() as int;
    let d = head + b.skip(end);
    let top = b.subrange(0, 24);
    let rest = b.skip(end);
    let (fs, ts) = (file_type_changes(b), type_changes(b));
    assert(head == top + meta + tensors);
    assert(d.skip(end) =~= rest);
    assert(rest =~= b.subrange(end, b.len() as int));
    assert(d =~= top + meta + tensors + rest);
    assert forall|j: int| 0 <= j < ts.len() implies ({
        let (i, w) = #[trigger] ts[j];
        &&& 0 <= i && i + w <= d.len()
        &&& le::le_nat(b, i, w) == gguf::TYPE_Q2_0_LEGACY as nat
        &&& le::le_nat(d, i - 0, w) == gguf::TYPE_PQ2_0 as nat
    }) by {
        let (i, w) = ts[j];
        let k = i - q4;
        assert(d.subrange(i, i + w) =~= tensors.subrange(k, k + w));
        le::lemma_le_nat_local(d, i, tensors, k, w);
    }
    assert forall|j: int| 0 <= j < fs.len() implies ({
        let (i, w) = #[trigger] fs[j];
        &&& 0 <= i && i + w <= d.len()
        &&& le::le_nat(b, i, w) == 28
        &&& le::le_nat(d, i - 0, w) == 128
    }) by {
        let (i, w) = fs[j];
        let k = i - 24;
        assert(d.subrange(i, i + w) =~= meta.subrange(k, k + w));
        le::lemma_le_nat_local(d, i, meta, k, w);
    }
    assert forall|i: int| 0 <= i < d.len() && !covered(ts + fs, i) implies #[trigger] d[i - 0]
        == b[i] by {
        lemma_covered_part(ts, fs, i);
        if i < 24 {
            assert(d[i] == top[i]);
        } else if i < q4 {
            assert(meta[i - 24] == b[i]);
        } else if i < end {
            assert(tensors[i - q4] == b[i]);
        } else {
            assert(d[i] == rest[i - end]);
        }
    }
}

} // verus!
