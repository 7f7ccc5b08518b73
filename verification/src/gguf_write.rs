//! Writing GGUF headers, and the rewrites of existing containers.

use vstd::prelude::*;
use vstd::slice::*;
use vstd::string::*;
use vstd::utf8::*;

use crate::gguf;
use crate::gguf::{Entry, HeaderV, TensorInfo, TensorV, Value, ValueV, GGUF};
use crate::le;
use crate::text;

verus! {

/// A string as the format stores it: its byte length, then its UTF-8 bytes.
pub open spec fn str_bytes(s: Seq<char>) -> Seq<u8> {
    le::le_bytes(encode_utf8(s).len(), 8) + encode_utf8(s)
}

/// The type id of a value.
pub open spec fn value_type(v: ValueV) -> u32 {
    match v {
        ValueV::U8(_) => 0,
        ValueV::I8(_) => 1,
        ValueV::U16(_) => 2,
        ValueV::I16(_) => 3,
        ValueV::U32(_) => 4,
        ValueV::I32(_) => 5,
        ValueV::F32(_) => 6,
        ValueV::Bool(_) => 7,
        ValueV::Str(_) => 8,
        ValueV::Array { .. } => 9,
        ValueV::U64(_) => 10,
        ValueV::I64(_) => 11,
        ValueV::F64(_) => 12,
    }
}

/// A value as the format stores it.
pub open spec fn value_bytes(v: ValueV) -> Seq<u8>
    decreases v,
{
    match v {
        ValueV::U8(x) => le::le_bytes(x as nat, 1),
        ValueV::I8(x) => le::le_bytes(x as u8 as nat, 1),
        ValueV::U16(x) => le::le_bytes(x as nat, 2),
        ValueV::I16(x) => le::le_bytes(x as u16 as nat, 2),
        ValueV::U32(x) => le::le_bytes(x as nat, 4),
        ValueV::I32(x) => le::le_bytes(x as u32 as nat, 4),
        ValueV::F32(x) => le::le_bytes(x as nat, 4),
        ValueV::Bool(x) => le::le_bytes(if x { 1 } else { 0 }, 1),
        ValueV::Str(s) => str_bytes(s),
        ValueV::U64(x) => le::le_bytes(x as nat, 8),
        ValueV::I64(x) => le::le_bytes(x as u64 as nat, 8),
        ValueV::F64(x) => le::le_bytes(x as nat, 8),
        ValueV::Array { elem_type, items } => le::le_bytes(elem_type as nat, 4) + le::le_bytes(
            items.len(),
            8,
        ) + items_bytes(items),
    }
}

/// Consecutive values as the format stores them.
pub open spec fn items_bytes(items: Seq<ValueV>) -> Seq<u8>
    decreases items,
{
    if items.len() == 0 {
        Seq::empty()
    } else {
        value_bytes(items[0]) + items_bytes(items.subrange(1, items.len() as int))
    }
}

/// A metadata entry as the format stores it.
pub open spec fn entry_bytes(e: Entry) -> Seq<u8> {
    str_bytes(e.0) + le::le_bytes(value_type(e.1) as nat, 4) + value_bytes(e.1)
}

pub open spec fn entries_bytes(es: Seq<Entry>) -> Seq<u8>
    decreases es.len(),
{
    if es.len() == 0 {
        Seq::empty()
    } else {
        entry_bytes(es[0]) + entries_bytes(es.skip(1))
    }
}

pub open spec fn dims_bytes(dims: Seq<u64>) -> Seq<u8>
    decreases dims.len(),
{
    if dims.len() == 0 {
        Seq::empty()
    } else {
        le::le_bytes(dims[0] as nat, 8) + dims_bytes(dims.skip(1))
    }
}

/// A tensor record as the format stores it.
pub open spec fn tensor_bytes(t: TensorV) -> Seq<u8> {
    str_bytes(t.name) + le::le_bytes(t.dims.len(), 4) + dims_bytes(t.dims) + le::le_bytes(
        t.ty as nat,
        4,
    ) + le::le_bytes(t.offset as nat, 8)
}

pub open spec fn tensors_bytes(ts: Seq<TensorV>) -> Seq<u8>
    decreases ts.len(),
{
    if ts.len() == 0 {
        Seq::empty()
    } else {
        tensor_bytes(ts[0]) + tensors_bytes(ts.skip(1))
    }
}

/// The part of a header in front of the tensor records.
pub open spec fn meta_bytes(version: u32, meta: Seq<Entry>, n_tensors: nat) -> Seq<u8> {
    seq![71u8, 71u8, 85u8, 70u8] + le::le_bytes(version as nat, 4) + le::le_bytes(n_tensors, 8)
        + le::le_bytes(meta.len(), 8) + entries_bytes(meta)
}

/// A whole header.
pub open spec fn header_bytes(version: u32, meta: Seq<Entry>, ts: Seq<TensorV>) -> Seq<u8> {
    meta_bytes(version, meta, ts.len()) + tensors_bytes(ts)
}

/// The type id of a value.
pub fn gguf_value_type(v: &Value) -> (r: u32)
    ensures
        r == value_type(v@),
{
    match v {
        Value::U8(_) => 0,
        Value::I8(_) => 1,
        Value::U16(_) => 2,
        Value::I16(_) => 3,
        Value::U32(_) => 4,
        Value::I32(_) => 5,
        Value::F32(_) => 6,
        Value::Bool(_) => 7,
        Value::Str(_) => 8,
        Value::Array { .. } => 9,
        Value::U64(_) => 10,
        Value::I64(_) => 11,
        Value::F64(_) => 12,
    }
}

/// Appends bytes.
pub(crate) fn push_bytes(out: &mut Vec<u8>, b: &[u8])
    ensures
        final(out)@ == old(out)@ + b@,
{
    let mut i: usize = 0;
    while i < b.len()
        invariant
            i <= b@.len(),
            out@ == old(out)@ + b@.take(i as int),
        decreases b@.len() - i,
    {
        out.push(b[i]);
        i += 1;
        assert(b@.take(i as int) =~= b@.take(i - 1).push(b@[i - 1]));
        assert(out@ =~= old(out)@ + b@.take(i as int));
    }
    assert(b@.take(i as int) =~= b@);
}

/// Appends a string.
pub fn put_str(out: &mut Vec<u8>, s: &str)
    ensures
        final(out)@ == old(out)@ + str_bytes(s@),
{
    let b: &[u8] = s.as_bytes();
    le::push_le(out, b.len() as u64, 8);
    push_bytes(out, b);
    assert(out@ =~= old(out)@ + str_bytes(s@));
}

/// Appends a value.
pub fn put_value(out: &mut Vec<u8>, v: &Value)
    ensures
        final(out)@ == old(out)@ + value_bytes(v@),
    decreases v,
{
    match v {
        Value::U8(x) => le::push_le(out, *x as u64, 1),
        Value::I8(x) => le::push_le(out, *x as u8 as u64, 1),
        Value::U16(x) => le::push_le(out, *x as u64, 2),
        Value::I16(x) => le::push_le(out, *x as u16 as u64, 2),
        Value::U32(x) => le::push_le(out, *x as u64, 4),
        Value::I32(x) => le::push_le(out, *x as u32 as u64, 4),
        Value::F32(x) => le::push_le(out, *x as u64, 4),
        Value::Bool(x) => {
            let bit: u64 = if *x {
                1
            } else {
                0
            };
            le::push_le(out, bit, 1)
        },
        Value::Str(s) => put_str(out, s.as_str()),
        Value::U64(x) => le::push_le(out, *x, 8),
        Value::I64(x) => le::push_le(out, *x as u64, 8),
        Value::F64(x) => le::push_le(out, *x, 8),
        Value::Array { elem_type, items } => {
            le::push_le(out, *elem_type as u64, 4);
            le::push_le(out, items.len() as u64, 8);
            let ghost all = gguf::values_view(items@);
            let ghost head = out@;
            let mut i: usize = 0;
            assert(all.skip(0) =~= all);
            while i < items.len()
                invariant
                    i <= items@.len(),
                    v matches Value::Array { items: x, .. } && items == x,
                    all == gguf::values_view(items@),
                    head + items_bytes(all) == out@ + items_bytes(all.skip(i as int)),
                decreases items@.len() - i,
            {
                let ghost before = out@;
                put_value(out, &items[i]);
                proof {
                    let rest = all.skip(i as int);
                    assert(rest[0] == items@[i as int]@);
                    assert(rest.subrange(1, rest.len() as int) =~= all.skip(i + 1));
                    assert(before + (value_bytes(rest[0]) + items_bytes(all.skip(i + 1))) =~= before
                        + value_bytes(rest[0]) + items_bytes(all.skip(i + 1)));
                }
                i += 1;
            }
            proof {
                assert(all.skip(i as int).len() == 0);
                assert(out@ + Seq::<u8>::empty() =~= out@);
                assert(v@->items =~= all);
                assert(out@ =~= old(out)@ + value_bytes(v@));
            }
        },
    }
}

/// Appends metadata entries.
fn put_entries(out: &mut Vec<u8>, meta: &Vec<(String, Value)>)
    ensures
        final(out)@ == old(out)@ + entries_bytes(gguf::entries_view(meta@)),
{
    let ghost all = gguf::entries_view(meta@);
    let mut i: usize = 0;
    assert(all.skip(0) =~= all);
    while i < meta.len()
        invariant
            i <= meta@.len(),
            all == gguf::entries_view(meta@),
            old(out)@ + entries_bytes(all) == out@ + entries_bytes(all.skip(i as int)),
        decreases meta@.len() - i,
    {
        let ghost before = out@;
        put_str(out, meta[i].0.as_str());
        le::push_le(out, gguf_value_type(&meta[i].1) as u64, 4);
        put_value(out, &meta[i].1);
        proof {
            let rest = all.skip(i as int);
            assert(rest[0] == gguf::entry_view(meta@[i as int]));
            assert(rest.skip(1) =~= all.skip(i + 1));
            assert(out@ =~= before + entry_bytes(rest[0]));
            assert(before + (entry_bytes(rest[0]) + entries_bytes(all.skip(i + 1))) =~= before
                + entry_bytes(rest[0]) + entries_bytes(all.skip(i + 1)));
        }
        i += 1;
    }
    assert(all.skip(i as int).len() == 0);
    assert(out@ + Seq::<u8>::empty() =~= out@);
}

/// Appends dimensions.
fn put_dims(out: &mut Vec<u8>, dims: &Vec<u64>)
    ensures
        final(out)@ == old(out)@ + dims_bytes(dims@),
{
    let mut i: usize = 0;
    assert(dims@.skip(0) =~= dims@);
    while i < dims.len()
        invariant
            i <= dims@.len(),
            old(out)@ + dims_bytes(dims@) == out@ + dims_bytes(dims@.skip(i as int)),
        decreases dims@.len() - i,
    {
        let ghost before = out@;
        le::push_le(out, dims[i], 8);
        proof {
            let rest = dims@.skip(i as int);
            assert(rest.skip(1) =~= dims@.skip(i + 1));
            assert(before + (le::le_bytes(rest[0] as nat, 8) + dims_bytes(dims@.skip(i + 1)))
                =~= before + le::le_bytes(rest[0] as nat, 8) + dims_bytes(dims@.skip(i + 1)));
        }
        i += 1;
    }
    assert(dims@.skip(i as int).len() == 0);
    assert(out@ + Seq::<u8>::empty() =~= out@);
}

/// Appends tensor records.
pub(crate) fn put_tensors(out: &mut Vec<u8>, ts: &Vec<TensorInfo>)
    requires
        forall|i: int| 0 <= i < ts@.len() ==> (#[trigger] ts@[i]).dims@.len() <= u32::MAX,
    ensures
        final(out)@ == old(out)@ + tensors_bytes(gguf::tensors_view(ts@)),
{
    let ghost all = gguf::tensors_view(ts@);
    let mut i: usize = 0;
    assert(all.skip(0) =~= all);
    while i < ts.len()
        invariant
            i <= ts@.len(),
            all == gguf::tensors_view(ts@),
            forall|i: int| 0 <= i < ts@.len() ==> (#[trigger] ts@[i]).dims@.len() <= u32::MAX,
            old(out)@ + tensors_bytes(all) == out@ + tensors_bytes(all.skip(i as int)),
        decreases ts@.len() - i,
    {
        let ghost before = out@;
        let t = &ts[i];
        put_str(out, t.name.as_str());
        le::push_le(out, t.dims.len() as u64, 4);
        put_dims(out, &t.dims);
        le::push_le(out, t.ty as u64, 4);
        le::push_le(out, t.offset, 8);
        proof {
            let rest = all.skip(i as int);
            assert(rest[0] == t@);
            assert(rest.skip(1) =~= all.skip(i + 1));
            assert(out@ =~= before + tensor_bytes(rest[0]));
            assert(before + (tensor_bytes(rest[0]) + tensors_bytes(all.skip(i + 1))) =~= before
                + tensor_bytes(rest[0]) + tensors_bytes(all.skip(i + 1)));
        }
        i += 1;
    }
    assert(all.skip(i as int).len() == 0);
    assert(out@ + Seq::<u8>::empty() =~= out@);
}

/// The bytes `s` stand at `p` in `b`.
pub open spec fn stands(b: Seq<u8>, p: int, s: Seq<u8>) -> bool {
    0 <= p && p + s.len() <= b.len() && b.subrange(p, p + s.len()) == s
}

pub proof fn lemma_stands_split(b: Seq<u8>, p: int, s: Seq<u8>, t: Seq<u8>)
    requires
        stands(b, p, s + t),
    ensures
        stands(b, p, s),
        stands(b, p + s.len(), t),
{
    let x = b.subrange(p, p + s.len() + t.len());
    assert(b.subrange(p, p + s.len()) =~= x.subrange(0, s.len() as int));
    assert((s + t).subrange(0, s.len() as int) =~= s);
    assert(b.subrange(p + s.len(), p + s.len() + t.len()) =~= x.subrange(
        s.len() as int,
        (s.len() + t.len()) as int,
    ));
    assert((s + t).subrange(s.len() as int, (s.len() + t.len()) as int) =~= t);
}

proof fn lemma_read_uint(b: Seq<u8>, p: int, v: nat, n: nat)
    requires
        stands(b, p, le::le_bytes(v, n)),
        v < le::pow256(n),
    ensures
        gguf::uint_at(b, p, n) == Ok::<(nat, int), Seq<char>>((v, p + n)),
{
    le::lemma_le_bytes_len(v, n);
    le::law_le_round_trip(v, n);
    let s = le::le_bytes(v, n);
    assert(s.subrange(0, n as int) =~= s);
    le::lemma_le_nat_local(s, 0, b, p, n);
}

proof fn lemma_read_str(b: Seq<u8>, p: int, s: Seq<char>)
    requires
        stands(b, p, str_bytes(s)),
        encode_utf8(s).len() <= u64::MAX,
    ensures
        gguf::str_at(b, p) == Ok::<(Seq<char>, int), Seq<char>>((s, p + str_bytes(s).len())),
{
    let u = encode_utf8(s);
    le::lemma_pow256();
    le::lemma_le_bytes_len(u.len(), 8);
    lemma_stands_split(b, p, le::le_bytes(u.len(), 8), u);
    lemma_read_uint(b, p, u.len(), 8);
    encode_utf8_valid_utf8(s);
    encode_utf8_decode_utf8(s);
}

/// A value that reads back as itself: lengths are representable, and the items of an array have
/// the array's element type.
pub open spec fn readable(v: ValueV) -> bool
    decreases v,
{
    match v {
        ValueV::Str(s) => encode_utf8(s).len() <= u64::MAX,
        ValueV::Array { elem_type, items } => {
            &&& items.len() <= u64::MAX
            &&& forall|i: int|
                0 <= i < items.len() ==> value_type(#[trigger] items[i]) == elem_type && readable(
                    items[i],
                )
        },
        _ => true,
    }
}

proof fn lemma_value_len(v: ValueV)
    ensures
        value_bytes(v).len() >= 1,
{
    match v {
        ValueV::U8(x) => le::lemma_le_bytes_len(x as nat, 1),
        ValueV::I8(x) => le::lemma_le_bytes_len(x as u8 as nat, 1),
        ValueV::U16(x) => le::lemma_le_bytes_len(x as nat, 2),
        ValueV::I16(x) => le::lemma_le_bytes_len(x as u16 as nat, 2),
        ValueV::U32(x) => le::lemma_le_bytes_len(x as nat, 4),
        ValueV::I32(x) => le::lemma_le_bytes_len(x as u32 as nat, 4),
        ValueV::F32(x) => le::lemma_le_bytes_len(x as nat, 4),
        ValueV::Bool(x) => le::lemma_le_bytes_len(if x { 1 } else { 0 }, 1),
        ValueV::Str(s) => le::lemma_le_bytes_len(encode_utf8(s).len(), 8),
        ValueV::U64(x) => le::lemma_le_bytes_len(x as nat, 8),
        ValueV::I64(x) => le::lemma_le_bytes_len(x as u64 as nat, 8),
        ValueV::F64(x) => le::lemma_le_bytes_len(x as nat, 8),
        ValueV::Array { elem_type, items } => le::lemma_le_bytes_len(elem_type as nat, 4),
    }
}

/// A value that stands in the bytes reads back as itself.
pub proof fn law_value_reads_back(b: Seq<u8>, p: int, v: ValueV)
    requires
        readable(v),
        stands(b, p, value_bytes(v)),
    ensures
        gguf::value_at(b, p, value_type(v)) == Ok::<(ValueV, int), Seq<char>>(
            (v, p + value_bytes(v).len()),
        ),
    decreases v,
{
    le::lemma_pow256();
    match v {
        ValueV::U8(x) => {
            le::lemma_le_bytes_len(x as nat, 1);
            lemma_read_uint(b, p, x as nat, 1);
        },
        ValueV::I8(x) => {
            le::lemma_le_bytes_len(x as u8 as nat, 1);
            lemma_read_uint(b, p, x as u8 as nat, 1);
            assert((x as u8) as i8 == x) by (bit_vector);
        },
        ValueV::U16(x) => {
            le::lemma_le_bytes_len(x as nat, 2);
            lemma_read_uint(b, p, x as nat, 2);
        },
        ValueV::I16(x) => {
            le::lemma_le_bytes_len(x as u16 as nat, 2);
            lemma_read_uint(b, p, x as u16 as nat, 2);
            assert((x as u16) as i16 == x) by (bit_vector);
        },
        ValueV::U32(x) => {
            le::lemma_le_bytes_len(x as nat, 4);
            lemma_read_uint(b, p, x as nat, 4);
        },
        ValueV::I32(x) => {
            le::lemma_le_bytes_len(x as u32 as nat, 4);
            lemma_read_uint(b, p, x as u32 as nat, 4);
            assert((x as u32) as i32 == x) by (bit_vector);
        },
        ValueV::F32(x) => {
            le::lemma_le_bytes_len(x as nat, 4);
            lemma_read_uint(b, p, x as nat, 4);
        },
        ValueV::Bool(x) => {
            le::lemma_le_bytes_len(if x { 1 } else { 0 }, 1);
            lemma_read_uint(b, p, if x { 1 } else { 0 }, 1);
        },
        ValueV::Str(s) => {
            lemma_read_str(b, p, s);
        },
        ValueV::U64(x) => {
            le::lemma_le_bytes_len(x as nat, 8);
            lemma_read_uint(b, p, x as nat, 8);
        },
        ValueV::I64(x) => {
            le::lemma_le_bytes_len(x as u64 as nat, 8);
            lemma_read_uint(b, p, x as u64 as nat, 8);
            assert((x as u64) as i64 == x) by (bit_vector);
        },
        ValueV::F64(x) => {
            le::lemma_le_bytes_len(x as nat, 8);
            lemma_read_uint(b, p, x as nat, 8);
        },
        ValueV::Array { elem_type, items } => {
            let h1 = le::le_bytes(elem_type as nat, 4);
            let h2 = le::le_bytes(items.len(), 8);
            le::lemma_le_bytes_len(elem_type as nat, 4);
            le::lemma_le_bytes_len(items.len(), 8);
            lemma_stands_split(b, p, h1 + h2, items_bytes(items));
            lemma_stands_split(b, p, h1, h2);
            lemma_read_uint(b, p, elem_type as nat, 4);
            lemma_read_uint(b, p + 4, items.len(), 8);
            lemma_items_read_back(b, p + 12, elem_type, items);
        },
    }
}

proof fn lemma_items_read_back(b: Seq<u8>, p: int, t: u32, items: Seq<ValueV>)
    requires
        forall|i: int|
            0 <= i < items.len() ==> value_type(#[trigger] items[i]) == t && readable(items[i]),
        stands(b, p, items_bytes(items)),
    ensures
        gguf::items_at(b, p, t, items.len()) == Ok::<(Seq<ValueV>, int), Seq<char>>(
            (items, p + items_bytes(items).len()),
        ),
    decreases items,
{
    if items.len() > 0 {
        let rest = items.subrange(1, items.len() as int);
        lemma_stands_split(b, p, value_bytes(items[0]), items_bytes(rest));
        law_value_reads_back(b, p, items[0]);
        lemma_value_len(items[0]);
        lemma_items_read_back(b, p + value_bytes(items[0]).len(), t, rest);
        assert(seq![items[0]] + rest =~= items);
    } else {
        assert(items =~= Seq::<ValueV>::empty());
    }
}

proof fn lemma_entries_read_back(b: Seq<u8>, p: int, es: Seq<Entry>)
    requires
        forall|i: int| 0 <= i < es.len() ==> readable_entry(#[trigger] es[i]),
        stands(b, p, entries_bytes(es)),
    ensures
        gguf::entries_at(b, p, es.len()) == Ok::<(Seq<Entry>, int), Seq<char>>(
            (es, p + entries_bytes(es).len()),
        ),
    decreases es.len(),
{
    if es.len() > 0 {
        let e = es[0];
        let rest = es.skip(1);
        le::lemma_pow256();
        le::lemma_le_bytes_len(value_type(e.1) as nat, 4);
        lemma_stands_split(b, p, entry_bytes(e), entries_bytes(rest));
        let ty = le::le_bytes(value_type(e.1) as nat, 4);
        lemma_stands_split(b, p, str_bytes(e.0) + ty, value_bytes(e.1));
        lemma_stands_split(b, p, str_bytes(e.0), ty);
        lemma_read_str(b, p, e.0);
        let q = p + str_bytes(e.0).len();
        lemma_read_uint(b, q, value_type(e.1) as nat, 4);
        law_value_reads_back(b, q + 4, e.1);
        lemma_entries_read_back(b, p + entry_bytes(e).len(), rest);
        assert(seq![e] + rest =~= es);
    } else {
        assert(es =~= Seq::<Entry>::empty());
    }
}

proof fn lemma_dims_read_back(b: Seq<u8>, p: int, dims: Seq<u64>)
    requires
        stands(b, p, dims_bytes(dims)),
    ensures
        gguf::dims_at(b, p, dims.len()) == Ok::<(Seq<u64>, int), Seq<char>>(
            (dims, p + dims_bytes(dims).len()),
        ),
    decreases dims.len(),
{
    if dims.len() > 0 {
        let rest = dims.skip(1);
        le::lemma_pow256();
        le::lemma_le_bytes_len(dims[0] as nat, 8);
        lemma_stands_split(b, p, le::le_bytes(dims[0] as nat, 8), dims_bytes(rest));
        lemma_read_uint(b, p, dims[0] as nat, 8);
        lemma_dims_read_back(b, p + 8, rest);
        assert(seq![dims[0]] + rest =~= dims);
    } else {
        assert(dims =~= Seq::<u64>::empty());
    }
}

proof fn lemma_tensor_reads_back(b: Seq<u8>, p: int, t: TensorV)
    requires
        readable_tensor(t),
        stands(b, p, tensor_bytes(t)),
    ensures
        gguf::tensor_at(b, p) == Ok::<(TensorV, int), Seq<char>>((t, p + tensor_bytes(t).len())),
{
    le::lemma_pow256();
    let n = str_bytes(t.name);
    let r = le::le_bytes(t.dims.len(), 4);
    let d = dims_bytes(t.dims);
    let y = le::le_bytes(t.ty as nat, 4);
    let o = le::le_bytes(t.offset as nat, 8);
    le::lemma_le_bytes_len(t.dims.len(), 4);
    le::lemma_le_bytes_len(t.ty as nat, 4);
    le::lemma_le_bytes_len(t.offset as nat, 8);
    lemma_stands_split(b, p, n + r + d + y, o);
    lemma_stands_split(b, p, n + r + d, y);
    lemma_stands_split(b, p, n + r, d);
    lemma_stands_split(b, p, n, r);
    lemma_read_str(b, p, t.name);
    lemma_read_uint(b, p + n.len(), t.dims.len(), 4);
    lemma_dims_read_back(b, p + n.len() + 4, t.dims);
    lemma_read_uint(b, p + n.len() + 4 + d.len(), t.ty as nat, 4);
    lemma_read_uint(b, p + n.len() + 8 + d.len(), t.offset as nat, 8);
}

proof fn lemma_tensors_read_back(b: Seq<u8>, p: int, ts: Seq<TensorV>)
    requires
        forall|i: int| 0 <= i < ts.len() ==> readable_tensor(#[trigger] ts[i]),
        stands(b, p, tensors_bytes(ts)),
    ensures
        gguf::tensors_at(b, p, ts.len()) == Ok::<(Seq<TensorV>, int), Seq<char>>(
            (ts, p + tensors_bytes(ts).len()),
        ),
    decreases ts.len(),
{
    if ts.len() > 0 {
        let rest = ts.skip(1);
        lemma_stands_split(b, p, tensor_bytes(ts[0]), tensors_bytes(rest));
        lemma_tensor_reads_back(b, p, ts[0]);
        lemma_tensors_read_back(b, p + tensor_bytes(ts[0]).len(), rest);
        assert(seq![ts[0]] + rest =~= ts);
    } else {
        assert(ts =~= Seq::<TensorV>::empty());
    }
}

/// A metadata entry that reads back as itself.
pub open spec fn readable_entry(e: Entry) -> bool {
    encode_utf8(e.0).len() <= u64::MAX && readable(e.1)
}

/// A tensor record that reads back as itself.
pub open spec fn readable_tensor(t: TensorV) -> bool {
    encode_utf8(t.name).len() <= u64::MAX && t.dims.len() <= u32::MAX
}

/// A written header, whatever follows it, reads back as what was written.
#[verifier::spinoff_prover]
#[verifier::rlimit(60)]
pub proof fn law_header_reads_back(
    version: u32,
    meta: Seq<Entry>,
    ts: Seq<TensorV>,
    tail: Seq<u8>,
)
    requires
        meta.len() <= u64::MAX,
        ts.len() <= u64::MAX,
        forall|i: int| 0 <= i < meta.len() ==> readable_entry(#[trigger] meta[i]),
        forall|i: int| 0 <= i < ts.len() ==> readable_tensor(#[trigger] ts[i]),
    ensures
        gguf::header_of(header_bytes(version, meta, ts) + tail) == Ok::<HeaderV, Seq<char>>(
            HeaderV {
                version,
                n_tensors: ts.len() as u64,
                meta,
                tensors: ts,
                end: header_bytes(version, meta, ts).len() as int,
            },
        ),
{
    le::lemma_pow256();
    let magic = seq![71u8, 71u8, 85u8, 70u8];
    let v = le::le_bytes(version as nat, 4);
    let nt = le::le_bytes(ts.len(), 8);
    let nk = le::le_bytes(meta.len(), 8);
    le::lemma_le_bytes_len(version as nat, 4);
    le::lemma_le_bytes_len(ts.len(), 8);
    le::lemma_le_bytes_len(meta.len(), 8);
    let all = header_bytes(version, meta, ts);
    let b = all + tail;
    assert(b.subrange(0, all.len() as int) =~= all);
    let es = entries_bytes(meta);
    lemma_stands_split(b, 0, magic + v + nt + nk + es, tensors_bytes(ts));
    lemma_stands_split(b, 0, magic + v + nt + nk, es);
    lemma_stands_split(b, 0, magic + v + nt, nk);
    lemma_stands_split(b, 0, magic + v, nt);
    lemma_stands_split(b, 0, magic, v);
    lemma_read_uint(b, 4, version as nat, 4);
    lemma_read_uint(b, 8, ts.len(), 8);
    lemma_read_uint(b, 16, meta.len(), 8);
    lemma_entries_read_back(b, 24, meta);
    lemma_tensors_read_back(b, 24 + es.len() as int, ts);
}

/// A tensor to be written: name, dimensions, type id.
pub type NewTensor = (String, Vec<u64>, u32);

/// The records of tensors to be written, before they have a place.
pub open spec fn unplaced(s: Seq<NewTensor>) -> Seq<TensorV> {
    Seq::new(
        s.len(),
        |k: int| TensorV { name: s[k].0@, dims: s[k].1@, ty: s[k].2, offset: 0 },
    )
}

/// The records with each tensor behind the padded sizes of those before it.
pub open spec fn placed(ts: Seq<TensorV>) -> Seq<TensorV> {
    Seq::new(
        ts.len(),
        |k: int|
            TensorV {
                name: ts[k].name,
                dims: ts[k].dims,
                ty: ts[k].ty,
                offset: gguf::running(ts, k) as u64,
            },
    )
}

/// `b` padded with zeros to a length of `n`.
pub open spec fn padded(b: Seq<u8>, n: int) -> Seq<u8> {
    b + Seq::new((n - b.len()) as nat, |i: int| 0u8)
}

/// Where a container's parts go: the header, and each tensor's payload.
#[derive(Debug)]
pub struct Layout {
    /// The header, padded to the start of the data section.
    pub header: Vec<u8>,
    /// Offset of each payload in the data section.
    pub offsets: Vec<u64>,
    /// Size of each payload.
    pub sizes: Vec<u64>,
    pub data_start: u64,
    /// Size of the data section, with the padding behind the last payload.
    pub data_size: u64,
}

/// Places do not change what sums up to them.
pub proof fn lemma_running_placed(ts: Seq<TensorV>, k: int)
    requires
        0 <= k <= ts.len(),
    ensures
        gguf::running(placed(ts), k) == gguf::running(ts, k),
    decreases k,
{
    if k > 0 {
        lemma_running_placed(ts, k - 1);
    }
}

/// The chain grows along the tensors.
pub proof fn lemma_running_monotonic(ts: Seq<TensorV>, j: int, k: int)
    requires
        0 <= j <= k <= ts.len(),
    ensures
        gguf::running(ts, j) <= gguf::running(ts, k),
    decreases k - j,
{
    if j < k {
        lemma_running_monotonic(ts, j, k - 1);
    }
}

/// Placed tensors form the contiguous chain that the layout check asks for.
pub proof fn law_placed_is_chained(ts: Seq<TensorV>)
    requires
        gguf::running(ts, ts.len() as int) <= u64::MAX,
    ensures
        gguf::chained(placed(ts), ts.len() as int),
{
    assert forall|j: int| 0 <= j < ts.len() implies (#[trigger] placed(ts)[j]).offset
        == gguf::running(placed(ts), j) by {
        lemma_running_placed(ts, j);
        lemma_running_monotonic(ts, j, ts.len() as int);
    }
}

/// Pads with zeros.
pub(crate) fn pad_to(out: &mut Vec<u8>, n: usize)
    requires
        old(out)@.len() <= n,
    ensures
        final(out)@ == padded(old(out)@, n as int),
{
    while out.len() < n
        invariant
            old(out)@.len() <= out@.len() <= n,
            out@ == padded(old(out)@, out@.len() as int),
        decreases n - out@.len(),
    {
        out.push(0);
        assert(out@ =~= padded(old(out)@, out@.len() as int));
    }
}

/// Appends the part of a header in front of the tensor records.
pub(crate) fn put_meta(out: &mut Vec<u8>, version: u32, meta: &Vec<(String, Value)>, n_tensors: u64)
    ensures
        final(out)@ == old(out)@ + meta_bytes(
            version,
            gguf::entries_view(meta@),
            n_tensors as nat,
        ),
{
    out.push(71);
    out.push(71);
    out.push(85);
    out.push(70);
    le::push_le(out, version as u64, 4);
    le::push_le(out, n_tensors, 8);
    le::push_le(out, meta.len() as u64, 8);
    put_entries(out, meta);
    assert(out@ =~= old(out)@ + meta_bytes(version, gguf::entries_view(meta@), n_tensors as nat));
}

/// Lays a container out: tensors contiguously in the given order, each padded to the alignment.
pub fn write_gguf(version: u32, meta: &Vec<(String, Value)>, tensors: &Vec<NewTensor>) -> (r:
    Layout)
    requires
        ({
            let ts = unplaced(tensors@);
            &&& forall|k: int| 0 <= k < ts.len() ==> (#[trigger] ts[k]).fits() && ts[k].dims.len()
                <= u32::MAX
            &&& gguf::running(ts, ts.len() as int) <= u64::MAX
            &&& header_bytes(version, gguf::entries_view(meta@), placed(ts)).len() + 32
                <= usize::MAX
        }),
    ensures
        ({
            let ts = unplaced(tensors@);
            let n = ts.len() as int;
            let header = header_bytes(version, gguf::entries_view(meta@), placed(ts));
            &&& r.data_start == gguf::aligned(header.len() as int, 32)
            &&& r.header@ == padded(header, r.data_start as int)
            &&& r.offsets@.len() == n
            &&& forall|k: int| 0 <= k < n ==> #[trigger] r.offsets@[k] == gguf::running(ts, k)
            &&& r.sizes@.len() == n
            &&& forall|k: int| 0 <= k < n ==> #[trigger] r.sizes@[k] == ts[k].nbytes()
            &&& r.data_size == gguf::running(ts, n)
        }),
{
    let ghost ts = unplaced(tensors@);
    let ghost n = ts.len() as int;
    let mut header: Vec<u8> = Vec::new();
    put_meta(&mut header, version, meta, tensors.len() as u64);
    let mut records: Vec<TensorInfo> = Vec::new();
    let mut offsets: Vec<u64> = Vec::new();
    let mut sizes: Vec<u64> = Vec::new();
    let mut cursor: u64 = 0;
    let mut i: usize = 0;
    while i < tensors.len()
        invariant
            i <= tensors@.len(),
            ts == unplaced(tensors@),
            n == ts.len(),
            forall|k: int|
                0 <= k < ts.len() ==> (#[trigger] ts[k]).fits() && ts[k].dims.len() <= u32::MAX,
            gguf::running(ts, n) <= u64::MAX,
            cursor == gguf::running(ts, i as int),
            gguf::tensors_view(records@) == placed(ts).take(i as int),
            forall|k: int| 0 <= k < records@.len() ==> (#[trigger] records@[k]).dims@.len() <= u32::MAX,
            offsets@.len() == i,
            forall|k: int| 0 <= k < i ==> #[trigger] offsets@[k] == gguf::running(ts, k),
            sizes@.len() == i,
            forall|k: int| 0 <= k < i ==> #[trigger] sizes@[k] == ts[k].nbytes(),
        decreases tensors@.len() - i,
    {
        let ghost before = records@;
        proof {
            lemma_running_monotonic(ts, i + 1, n);
            assert(ts[i as int].fits());
        }
        let t = TensorInfo {
            name: tensors[i].0.clone(),
            dims: copy_dims(&tensors[i].1),
            ty: tensors[i].2,
            offset: cursor,
        };
        let size: u64 = gguf::shape_nbytes(t.ty, &t.dims);
        offsets.push(cursor);
        sizes.push(size);
        records.push(t);
        cursor = cursor + gguf::align_up(size, 32);
        i += 1;
        proof {
            assert(placed(ts).take(i as int) =~= placed(ts).take(i - 1).push(placed(ts)[i - 1]));
            assert(gguf::tensors_view(records@) =~= gguf::tensors_view(before).push(t@));
        }
    }
    assert(placed(ts).take(n) =~= placed(ts));
    put_tensors(&mut header, &records);
    let data_start: u64 = gguf::align_up(header.len() as u64, 32);
    pad_to(&mut header, data_start as usize);
    Layout { header, offsets, sizes, data_start, data_size: cursor }
}

/// An equal list of dimensions.
pub(crate) fn copy_dims(dims: &Vec<u64>) -> (r: Vec<u64>)
    ensures
        r@ == dims@,
{
    let mut out: Vec<u64> = Vec::new();
    let mut i: usize = 0;
    while i < dims.len()
        invariant
            i <= dims@.len(),
            out@ == dims@.take(i as int),
        decreases dims@.len() - i,
    {
        out.push(dims[i]);
        i += 1;
        assert(dims@.take(i as int) =~= dims@.take(i - 1).push(dims@[i - 1]));
    }
    assert(dims@.take(i as int) =~= dims@);
    out
}

/// Checks that a payload has the size its tensor's record promises.
pub fn check_payload(name: &str, got: u64, want: u64) -> (r: Result<(), String>)
    ensures
        match r {
            Ok(_) => got == want,
            Err(m) => got != want && m@ == "write_gguf: tensor '"@ + name@ + "' payload "@
                + text::decimal(got as nat) + " != expected "@ + text::decimal(want as nat),
        },
{
    if got != want {
        let mut m = "write_gguf: tensor '".to_owned();
        m.append(name);
        m.append("' payload ");
        text::push_decimal(&mut m, got);
        m.append(" != expected ");
        text::push_decimal(&mut m, want);
        return Err(m);
    }
    Ok(())
}

/// The name under which the flash loader expects a sidecar's metadata key; `None` drops it.
pub open spec fn flash_key(key: Seq<char>) -> Option<Seq<char>> {
    if text::starts_with(key, "dspark.dspark."@) {
        let rest = key.skip("dspark.dspark."@.len() as int);
        if rest == "mask_token_id"@ {
            Some("tokenizer.ggml.mask_token_id"@)
        } else if rest == "markov_rank"@ || rest == "confidence_head_with_markov"@ {
            None
        } else {
            Some("dflash."@ + rest)
        }
    } else if text::starts_with(key, "dspark."@) {
        Some("dflash."@ + key.skip("dspark."@.len() as int))
    } else {
        Some(key)
    }
}

/// Maps a sidecar's metadata key to the name that the flash loader expects. `None` drops the
/// key: the loader derives it from tensor shapes, or another key implies it.
pub fn dflash_kv_key(key: &str) -> (r: Option<String>)
    ensures
        match r {
            Some(k) => flash_key(key@) == Some(k@),
            None => flash_key(key@) is None,
        },
{
    if let Some(rest) = text::strip_prefix(key, "dspark.dspark.") {
        if text::same(rest.as_str(), "mask_token_id") {
            return Some("tokenizer.ggml.mask_token_id".to_owned());
        }
        if text::same(rest.as_str(), "markov_rank") || text::same(
            rest.as_str(),
            "confidence_head_with_markov",
        ) {
            return None;
        }
        return Some(text::concat("dflash.", rest.as_str()));
    }
    if let Some(rest) = text::strip_prefix(key, "dspark.") {
        return Some(text::concat("dflash.", rest.as_str()));
    }
    Some(key.to_owned())
}

/// The name under which the flash loader expects a sidecar's tensor.
pub open spec fn flash_name(name: Seq<char>) -> Seq<char> {
    if name == "dspark.markov_head_a.weight"@ {
        "markov_w1.weight"@
    } else if name == "dspark.markov_head_b.weight"@ {
        "markov_w2.weight"@
    } else if name == "dspark.confidence_head.weight"@ {
        "conf_proj.weight"@
    } else if name == "dspark.confidence_head.bias"@ {
        "conf_proj.bias"@
    } else if name == "dspark.hidden_norm.weight"@ {
        "enc.output_norm.weight"@
    } else if name == "dspark.fc.weight"@ {
        "fc.weight"@
    } else if text::starts_with(name, "dspark.log_snr_"@) {
        "log_snr_"@ + name.skip("dspark.log_snr_"@.len() as int)
    } else {
        name
    }
}

/// Maps a sidecar's tensor name to the name that the flash loader expects.
pub fn dflash_tensor_name(name: &str) -> (r: String)
    ensures
        r@ == flash_name(name@),
{
    if text::same(name, "dspark.markov_head_a.weight") {
        return "markov_w1.weight".to_owned();
    }
    if text::same(name, "dspark.markov_head_b.weight") {
        return "markov_w2.weight".to_owned();
    }
    if text::same(name, "dspark.confidence_head.weight") {
        return "conf_proj.weight".to_owned();
    }
    if text::same(name, "dspark.confidence_head.bias") {
        return "conf_proj.bias".to_owned();
    }
    if text::same(name, "dspark.hidden_norm.weight") {
        return "enc.output_norm.weight".to_owned();
    }
    if text::same(name, "dspark.fc.weight") {
        return "fc.weight".to_owned();
    }
    match text::strip_prefix(name, "dspark.log_snr_") {
        Some(rest) => text::concat("log_snr_", rest.as_str()),
        None => name.to_owned(),
    }
}

/// `keys` are the metadata's keys, each once, in sorted order.
pub open spec fn sorted_keys(meta: Seq<Entry>, keys: Seq<Seq<char>>) -> bool {
    &&& forall|i: int, j: int|
        0 <= i < j < keys.len() ==> text::str_lt(#[trigger] keys[i], #[trigger] keys[j])
    &&& forall|k: Seq<char>| #[trigger] keys.contains(k) <==> gguf::lookup(meta, k) is Some
}

/// The metadata under the flash loader's names, in the order of `keys`.
pub open spec fn flash_meta(meta: Seq<Entry>, keys: Seq<Seq<char>>) -> Seq<Entry>
    decreases keys.len(),
{
    if keys.len() == 0 {
        Seq::empty()
    } else {
        let k = keys.last();
        let done = flash_meta(meta, keys.drop_last());
        match flash_key(k) {
            None => done,
            Some(k2) => done.push(
                (
                    k2,
                    if k == "general.architecture"@ {
                        ValueV::Str("dflash"@)
                    } else {
                        gguf::lookup(meta, k)->0
                    },
                ),
            ),
        }
    }
}

/// The entry under this key is written with another key or another value.
pub open spec fn rewritten(k: Seq<char>) -> bool {
    flash_key(k) matches Some(k2) && (k2 != k || k == "general.architecture"@)
}

/// How many of the entries under these keys are written with another key or another value.
pub open spec fn rewritten_count(keys: Seq<Seq<char>>) -> nat
    decreases keys.len(),
{
    if keys.len() == 0 {
        0
    } else {
        rewritten_count(keys.drop_last()) + if rewritten(keys.last()) {
            1nat
        } else {
            0nat
        }
    }
}

/// `order` lists the tensors by data offset, those at one offset in index order.
pub open spec fn by_offset(ts: Seq<TensorV>, order: Seq<int>) -> bool {
    &&& order.len() == ts.len()
    &&& forall|i: int| 0 <= i < order.len() ==> 0 <= #[trigger] order[i] < ts.len()
    &&& forall|i: int, j: int|
        0 <= i < j < order.len() ==> offset_lt(ts, #[trigger] order[i], #[trigger] order[j])
}

pub open spec fn offset_lt(ts: Seq<TensorV>, a: int, b: int) -> bool {
    ts[a].offset < ts[b].offset || (ts[a].offset == ts[b].offset && a < b)
}

/// The tensors in the given order, under the flash loader's names.
pub open spec fn flash_tensors(ts: Seq<TensorV>, order: Seq<int>) -> Seq<TensorV> {
    Seq::new(
        order.len(),
        |i: int|
            TensorV {
                name: flash_name(ts[order[i]].name),
                dims: ts[order[i]].dims,
                ty: ts[order[i]].ty,
                offset: 0,
            },
    )
}

/// How many of the tensors get another name.
pub open spec fn renamed_count(ts: Seq<TensorV>, order: Seq<int>) -> nat
    decreases order.len(),
{
    if order.len() == 0 {
        0
    } else {
        renamed_count(ts, order.drop_last()) + if flash_name(ts[order.last()].name)
            != ts[order.last()].name {
            1nat
        } else {
            0nat
        }
    }
}

/// A range of the source file and where it goes in the new one.
#[derive(Debug, Clone, Copy, PartialEq, Eq, Structural)]
pub struct Part {
    pub at: u64,
    pub begin: usize,
    pub end: usize,
}

/// A rewritten container: a new header, and the parts of the source that follow it.
#[derive(Debug)]
pub struct Rewrite {
    pub header: Vec<u8>,
    pub parts: Vec<Part>,
    /// Length of the new file.
    pub end: u64,
    /// Metadata entries that got another key or another value.
    pub n_kv: usize,
    /// Tensors that got another name.
    pub n_ty: usize,
}

/// Where the data section of a container with header `h` begins.
pub open spec fn data_start_of(h: HeaderV) -> int {
    gguf::aligned(h.end, 32)
}

/// The rewrite of header `h` under the flash loader's names, given the key and tensor orders.
pub open spec fn is_flash_rewrite(
    h: HeaderV,
    size: int,
    keys: Seq<Seq<char>>,
    order: Seq<int>,
    r: Rewrite,
) -> bool {
    let meta = flash_meta(h.meta, keys);
    let ts = flash_tensors(h.tensors, order);
    let header = header_bytes(h.version, meta, placed(ts));
    let start = gguf::aligned(header.len() as int, 32);
    &&& r.header@ == padded(header, start)
    &&& r.n_kv == rewritten_count(keys)
    &&& r.n_ty == renamed_count(h.tensors, order)
    &&& r.end == start + gguf::running(ts, ts.len() as int)
    &&& r.parts@.len() == order.len()
    &&& forall|i: int|
        0 <= i < order.len() ==> {
            let t = h.tensors[order[i]];
            &&& (#[trigger] r.parts@[i]).at == start + gguf::running(ts, i)
            &&& r.parts@[i].begin == data_start_of(h) + t.offset
            &&& r.parts@[i].end == data_start_of(h) + t.offset + t.nbytes()
            &&& r.parts@[i].end <= size
        }
}

/// The sum of the padded sizes of the tensors that `taken` marks.
pub open spec fn taken_sum(ts: Seq<TensorV>, taken: Seq<bool>) -> nat
    decreases taken.len(),
{
    if taken.len() == 0 {
        0
    } else {
        taken_sum(ts, taken.drop_last()) + if taken.last() {
            gguf::aligned(ts[taken.len() - 1].nbytes() as int, 32) as nat
        } else {
            0
        }
    }
}

/// How many places `taken` marks.
pub open spec fn taken_count(taken: Seq<bool>) -> nat
    decreases taken.len(),
{
    if taken.len() == 0 {
        0
    } else {
        taken_count(taken.drop_last()) + if taken.last() {
            1nat
        } else {
            0nat
        }
    }
}

proof fn lemma_take_one(ts: Seq<TensorV>, taken: Seq<bool>, m: int)
    requires
        0 <= m < taken.len(),
        !taken[m],
    ensures
        taken_sum(ts, taken.update(m, true)) == taken_sum(ts, taken) + gguf::aligned(
            ts[m].nbytes() as int,
            32,
        ) as nat,
        taken_count(taken.update(m, true)) == taken_count(taken) + 1,
    decreases taken.len(),
{
    let u = taken.update(m, true);
    if m == taken.len() - 1 {
        assert(u.drop_last() =~= taken.drop_last());
    } else {
        assert(u.drop_last() =~= taken.drop_last().update(m, true));
        lemma_take_one(ts, taken.drop_last(), m);
    }
}

proof fn lemma_taken_bounds(ts: Seq<TensorV>, taken: Seq<bool>)
    requires
        taken.len() <= ts.len(),
    ensures
        taken_sum(ts, taken) <= gguf::running(ts, taken.len() as int),
        taken_count(taken) <= taken.len(),
        (forall|i: int| 0 <= i < taken.len() ==> taken[i]) ==> taken_count(taken) == taken.len(),
        (forall|i: int| 0 <= i < taken.len() ==> !taken[i]) ==> taken_count(taken) == 0
            && taken_sum(ts, taken) == 0,
    decreases taken.len(),
{
    if taken.len() > 0 {
        lemma_taken_bounds(ts, taken.drop_last());
    }
}

/// Lists the tensors by data offset.
pub(crate) fn order_by_offset(tensors: &Vec<TensorInfo>) -> (r: Vec<usize>)
    ensures
        by_offset(gguf::tensors_view(tensors@), r@.map_values(|i: usize| i as int)),
{
    let ghost ts = gguf::tensors_view(tensors@);
    let n: usize = tensors.len();
    let mut taken: Vec<bool> = Vec::new();
    let mut k: usize = 0;
    while k < n
        invariant
            k <= n,
            taken@.len() == k,
            forall|i: int| 0 <= i < k ==> !taken@[i],
        decreases n - k,
    {
        taken.push(false);
        k += 1;
    }
    proof {
        lemma_taken_bounds(ts, taken@);
    }
    let mut order: Vec<usize> = Vec::new();
    while order.len() < n
        invariant
            n == tensors@.len(),
            ts == gguf::tensors_view(tensors@),
            taken@.len() == n,
            order@.len() <= n,
            order@.len() == taken_count(taken@),
            forall|i: int| 0 <= i < order@.len() ==> 0 <= #[trigger] order@[i] < n,
            forall|i: int, j: int|
                0 <= i < j < order@.len() ==> offset_lt(
                    ts,
                    #[trigger] order@[i] as int,
                    #[trigger] order@[j] as int,
                ),
            forall|i: int, m: int|
                0 <= i < order@.len() && 0 <= m < n && !#[trigger] taken@[m] ==> offset_lt(
                    ts,
                    #[trigger] order@[i] as int,
                    m,
                ),
        decreases n - order@.len(),
    {
        let mut best: usize = n;
        let mut i: usize = 0;
        while i < n
            invariant
                i <= n,
                n == tensors@.len(),
                ts == gguf::tensors_view(tensors@),
                taken@.len() == n,
                best <= n,
                best < n ==> !taken@[best as int] && best < i,
                best == n ==> forall|m: int| 0 <= m < i ==> taken@[m],
                best < n ==> forall|m: int|
                    0 <= m < i && !#[trigger] taken@[m] ==> m == best || offset_lt(
                        ts,
                        best as int,
                        m,
                    ),
            decreases n - i,
        {
            assert(ts[i as int] == tensors@[i as int]@);
            if !taken[i] {
                if best == n || tensors[i].offset < tensors[best].offset {
                    best = i;
                }
            }
            i += 1;
        }
        proof {
            lemma_taken_bounds(ts, taken@);
            lemma_take_one(ts, taken@, best as int);
        }
        let ghost before = order@;
        let ghost old_taken = taken@;
        taken.set(best, true);
        order.push(best);
        proof {
            assert forall|i: int, m: int|
                0 <= i < order@.len() && 0 <= m < n && !#[trigger] taken@[m] implies offset_lt(
                ts,
                #[trigger] order@[i] as int,
                m,
            ) by {
                assert(m != best);
                assert(!old_taken[m]);
                if i == before.len() {
                    assert(order@[i] == best);
                } else {
                    assert(order@[i] == before[i]);
                }
            }
        }
    }
    order
}

/// How many entries have a key behind `k`.
spec fn behind(meta: Seq<Entry>, k: Option<Seq<char>>) -> nat
    decreases meta.len(),
{
    if meta.len() == 0 {
        0
    } else {
        behind(meta.drop_last(), k) + if is_behind(meta.last().0, k) {
            1nat
        } else {
            0nat
        }
    }
}

spec fn is_behind(key: Seq<char>, k: Option<Seq<char>>) -> bool {
    k matches Some(x) ==> text::str_lt(x, key)
}

/// Moving on to a key that was behind leaves fewer behind.
proof fn lemma_behind_shrinks(meta: Seq<Entry>, k: Option<Seq<char>>, m: int)
    requires
        0 <= m < meta.len(),
        is_behind(meta[m].0, k),
    ensures
        behind(meta, Some(meta[m].0)) < behind(meta, k),
    decreases meta.len(),
{
    let key = meta[m].0;
    lemma_behind_fewer(meta.drop_last(), k, key);
    text::lemma_str_order(key, key, key);
    let l = meta.last().0;
    if let Some(x) = k {
        text::lemma_str_order(x, key, l);
    }
    if m < meta.len() - 1 {
        lemma_behind_shrinks(meta.drop_last(), k, m);
    }
}

proof fn lemma_behind_fewer(meta: Seq<Entry>, k: Option<Seq<char>>, key: Seq<char>)
    requires
        is_behind(key, k),
    ensures
        behind(meta, Some(key)) <= behind(meta, k),
    decreases meta.len(),
{
    if meta.len() > 0 {
        lemma_behind_fewer(meta.drop_last(), k, key);
        if let Some(x) = k {
            text::lemma_str_order(x, key, meta.last().0);
        }
    }
}

/// A key is found exactly when some entry has it.
proof fn lemma_lookup_some(meta: Seq<Entry>, key: Seq<char>)
    ensures
        gguf::lookup(meta, key) is Some <==> exists|i: int|
            0 <= i < meta.len() && (#[trigger] meta[i]).0 == key,
    decreases meta.len(),
{
    if meta.len() > 0 {
        let d = meta.drop_last();
        lemma_lookup_some(d, key);
        if gguf::lookup(meta, key) is Some {
            if meta.last().0 == key {
                assert(meta[meta.len() - 1].0 == key);
            } else {
                let i = choose|i: int| 0 <= i < d.len() && (#[trigger] d[i]).0 == key;
                assert(meta[i].0 == key);
            }
        }
        if exists|i: int| 0 <= i < meta.len() && (#[trigger] meta[i]).0 == key {
            let i = choose|i: int| 0 <= i < meta.len() && (#[trigger] meta[i]).0 == key;
            if i < meta.len() - 1 {
                assert(d[i].0 == key);
            }
        }
    }
}

/// The index of the first entry whose key comes next behind the key of entry `last`.
fn next_key(meta: &Vec<(String, Value)>, last: Option<usize>) -> (r: Option<usize>)
    requires
        last matches Some(l) ==> l < meta@.len(),
    ensures
        ({
            let es = gguf::entries_view(meta@);
            let k = match last {
                Some(l) => Some(es[l as int].0),
                None => None,
            };
            match r {
                Some(m) => {
                    &&& m < es.len()
                    &&& is_behind(es[m as int].0, k)
                    &&& forall|i: int|
                        0 <= i < es.len() && is_behind((#[trigger] es[i]).0, k) ==> es[i].0
                            == es[m as int].0 || text::str_lt(es[m as int].0, es[i].0)
                },
                None => forall|i: int| 0 <= i < es.len() ==> !is_behind((#[trigger] es[i]).0, k),
            }
        }),
{
    let ghost es = gguf::entries_view(meta@);
    let ghost k = match last {
        Some(l) => Some(es[l as int].0),
        None => None,
    };
    let n: usize = meta.len();
    let mut best: usize = n;
    let mut i: usize = 0;
    while i < n
        invariant
            i <= n,
            n == meta@.len(),
            es == gguf::entries_view(meta@),
            last matches Some(l) ==> l < n,
            k == (match last {
                Some(l) => Some(es[l as int].0),
                None => None,
            }),
            best <= n,
            best < n ==> is_behind(es[best as int].0, k),
            best == n ==> forall|m: int| 0 <= m < i ==> !is_behind((#[trigger] es[m]).0, k),
            best < n ==> forall|m: int|
                0 <= m < i && is_behind((#[trigger] es[m]).0, k) ==> es[m].0 == es[best as int].0
                    || text::str_lt(es[best as int].0, es[m].0),
        decreases n - i,
    {
        assert(es[i as int].0 == meta@[i as int].0@);
        let ok: bool = match last {
            Some(l) => text::before(meta[l].0.as_str(), meta[i].0.as_str()),
            None => true,
        };
        if ok {
            if best == n {
                best = i;
            } else {
                let ghost old_best = best;
                if text::before(meta[i].0.as_str(), meta[best].0.as_str()) {
                    best = i;
                }
                proof {
                    let a = es[i as int].0;
                    let b = es[old_best as int].0;
                    text::lemma_str_order(a, b, b);
                    assert forall|m: int|
                        0 <= m < i && is_behind((#[trigger] es[m]).0, k) implies es[m].0
                        == es[best as int].0 || text::str_lt(es[best as int].0, es[m].0) by {
                        text::lemma_str_order(a, b, es[m].0);
                    }
                }
            }
        }
        i += 1;
    }
    if best == n {
        None
    } else {
        Some(best)
    }
}

/// The metadata of keys, in their order.
pub open spec fn keyed(meta: Seq<Entry>, keys: Seq<Seq<char>>) -> Seq<Entry> {
    Seq::new(keys.len(), |i: int| (keys[i], gguf::lookup(meta, keys[i])->0))
}

/// The metadata sorted by key, each key once.
pub(crate) fn sorted_meta(g: &GGUF) -> (r: Vec<(String, Value)>)
    ensures
        exists|keys: Seq<Seq<char>>|
            sorted_keys(gguf::entries_view(g.meta@), keys) && #[trigger] keyed(
                gguf::entries_view(g.meta@),
                keys,
            ) == gguf::entries_view(r@),
{
    let ghost es = gguf::entries_view(g.meta@);
    let mut out: Vec<(String, Value)> = Vec::new();
    let mut last: Option<usize> = None;
    let ghost mut keys: Seq<Seq<char>> = Seq::empty();
    let mut more: bool = true;
    assert(gguf::entries_view(out@) =~= keyed(es, keys));
    while more
        invariant
            es == gguf::entries_view(g.meta@),
            last matches Some(l) ==> l < es.len() && keys.len() > 0 && keys.last() == es[l as int].0,
            last is None ==> keys.len() == 0,
            forall|i: int, j: int|
                0 <= i < j < keys.len() ==> text::str_lt(#[trigger] keys[i], #[trigger] keys[j]),
            forall|i: int|
                0 <= i < es.len() ==> keys.contains((#[trigger] es[i]).0) || is_behind(
                    es[i].0,
                    match last {
                        Some(l) => Some(es[l as int].0),
                        None => None,
                    },
                ),
            forall|k: Seq<char>| #[trigger] keys.contains(k) ==> gguf::lookup(es, k) is Some,
            gguf::entries_view(out@) == keyed(es, keys),
            !more ==> forall|i: int|
                0 <= i < es.len() ==> !is_behind(
                    (#[trigger] es[i]).0,
                    match last {
                        Some(l) => Some(es[l as int].0),
                        None => None,
                    },
                ),
        decreases
                behind(
                    es,
                    match last {
                        Some(l) => Some(es[l as int].0),
                        None => None,
                    },
                ),
                if more {
                    1nat
                } else {
                    0nat
                },
    {
        let ghost k = match last {
            Some(l) => Some(es[l as int].0),
            None => None,
        };
        match next_key(&g.meta, last) {
            None => {
                more = false;
            },
            Some(m) => {
                let ghost before = keys;
                let ghost key = es[m as int].0;
                let ghost out_before = out@;
                proof {
                    lemma_behind_shrinks(es, k, m as int);
                    lemma_lookup_some(es, key);
                    keys = keys.push(key);
                    assert(keys.drop_last() =~= before);
                    assert(keys.last() == key);
                    assert forall|i: int, j: int| 0 <= i < j < keys.len() implies text::str_lt(
                        #[trigger] keys[i],
                        #[trigger] keys[j],
                    ) by {
                        if j == before.len() {
                            if i < before.len() - 1 {
                                text::lemma_str_order(before[i], before.last(), key);
                            }
                        }
                    }
                    assert forall|i: int| 0 <= i < es.len() implies keys.contains(
                        (#[trigger] es[i]).0,
                    ) || is_behind(es[i].0, Some(key)) by {
                        if before.contains(es[i].0) {
                            let w = choose|w: int|
                                0 <= w < before.len() && before[w] == es[i].0;
                            assert(keys[w] == es[i].0);
                        } else if es[i].0 == key {
                            assert(keys[before.len() as int] == key);
                        }
                    }
                    assert forall|x: Seq<char>| #[trigger] keys.contains(x) implies gguf::lookup(
                        es,
                        x,
                    ) is Some by {
                        let w = choose|w: int| 0 <= w < keys.len() && keys[w] == x;
                        if w < before.len() {
                            assert(before[w] == x);
                            assert(before.contains(x));
                        }
                    }
                }
                last = Some(m);
                let name: &str = g.meta[m].0.as_str();
                let v: Value = match g.get(name) {
                    Some(v) => v.copied(),
                    None => {
                        proof {
                            assert(false);
                        }
                        Value::Bool(false)
                    },
                };
                out.push((name.to_owned(), v));
                proof {
                    assert(gguf::entries_view(out@) =~= gguf::entries_view(out_before).push(
                        (key, v@),
                    ));
                    assert(keyed(es, keys) =~= keyed(es, before).push((key, v@)));
                }
            },
        }
    }
    proof {
        assert forall|k: Seq<char>| #[trigger] keys.contains(k) <==> gguf::lookup(
            es,
            k,
        ) is Some by {
            lemma_lookup_some(es, k);
        }
        assert(sorted_keys(es, keys));
        assert(keyed(es, keys) == gguf::entries_view(out@));
    }
    out
}

/// The metadata under the flash loader's names, sorted by the old key, and how many entries are
/// not as they were.
fn rename_meta(g: &GGUF) -> (r: (Vec<(String, Value)>, usize))
    ensures
        exists|keys: Seq<Seq<char>>|
            sorted_keys(gguf::entries_view(g.meta@), keys) && #[trigger] flash_meta(
                gguf::entries_view(g.meta@),
                keys,
            ) == gguf::entries_view(r.0@) && r.1 == rewritten_count(keys),
{
    let ghost es = gguf::entries_view(g.meta@);
    let list: Vec<(String, Value)> = sorted_meta(g);
    let ghost keys = choose|keys: Seq<Seq<char>>|
        sorted_keys(es, keys) && #[trigger] keyed(es, keys) == gguf::entries_view(list@);
    let mut out: Vec<(String, Value)> = Vec::new();
    let n: usize = list.len();
    let mut changed: usize = 0;
    let mut i: usize = 0;
    assert(gguf::entries_view(out@) =~= Seq::<Entry>::empty());
    assert(keys.len() == keyed(es, keys).len());
    while i < n
        invariant
            i <= n,
            n == list@.len(),
            n == keys.len(),
            keyed(es, keys) == gguf::entries_view(list@),
            gguf::entries_view(out@) == flash_meta(es, keys.take(i as int)),
            changed == rewritten_count(keys.take(i as int)),
            changed <= i,
        decreases n - i,
    {
        let ghost before = out@;
        let ghost k = keys.take(i + 1);
        proof {
            assert(k.drop_last() =~= keys.take(i as int));
            assert(k.last() == keys[i as int]);
            assert(gguf::entries_view(list@)[i as int] == keyed(es, keys)[i as int]);
        }
        let name: &str = list[i].0.as_str();
        if let Some(new_key) = dflash_kv_key(name) {
            let v: Value = if text::same(name, "general.architecture") {
                Value::Str("dflash".to_owned())
            } else {
                list[i].1.copied()
            };
            if !text::same(new_key.as_str(), name) || text::same(name, "general.architecture") {
                changed += 1;
            }
            out.push((new_key, v));
            assert(gguf::entries_view(out@) =~= gguf::entries_view(before).push((new_key@, v@)));
        }
        i += 1;
    }
    assert(keys.take(n as int) =~= keys);
    assert(flash_meta(es, keys) == gguf::entries_view(out@));
    (out, changed)
}

/// The sizes in a container's index are representable, and so is where each payload ends.
pub open spec fn sizes_fit(ts: Seq<TensorV>, data_start: int) -> bool {
    &&& forall|i: int|
        0 <= i < ts.len() ==> (#[trigger] ts[i]).fits() && data_start + ts[i].offset
            + ts[i].nbytes() <= usize::MAX
    &&& gguf::running(ts, ts.len() as int) <= u64::MAX
}

/// The flash rewrite does not fit in memory or in 64-bit offsets.
pub open spec fn flash_too_large(h: HeaderV, keys: Seq<Seq<char>>, order: Seq<int>) -> bool {
    let ts = flash_tensors(h.tensors, order);
    let header = header_bytes(h.version, flash_meta(h.meta, keys), placed(ts));
    header.len() + 32 + gguf::running(ts, ts.len() as int) > u64::MAX || header.len() + 32
        > usize::MAX
}

/// What converting a sidecar named `src` with contents `map` gives.
pub open spec fn converts(src: Seq<char>, map: Seq<u8>, r: Result<Rewrite, String>) -> bool {
    match gguf::header_of(map) {
        Err(e) => r matches Err(m) && m@ == e,
        Ok(h) => match gguf::lookup(h.meta, "general.architecture"@) {
            Some(ValueV::Str(a)) => if a == "dspark"@ {
                rewrites(src, h, map.len() as int, r)
            } else {
                r matches Err(m) && m@ == src + ": expected dspark architecture, found '"@ + a
                    + "'"@
            },
            _ => r matches Err(m) && m@ == src + ": missing general.architecture"@,
        },
    }
}

/// `r` is the flash rewrite of a container with header `h`, or says why there is none.
pub open spec fn rewrites(
    src: Seq<char>,
    h: HeaderV,
    size: int,
    r: Result<Rewrite, String>,
) -> bool {
    exists|keys: Seq<Seq<char>>, order: Seq<int>|
        {
            &&& #[trigger] sorted_keys(h.meta, keys)
            &&& #[trigger] by_offset(h.tensors, order)
            &&& rewrites_in_order(src, h, size, keys, order, r)
        }
}

/// `r` is the flash rewrite for the given key and tensor orders, or says why there is none.
pub open spec fn rewrites_in_order(
    src: Seq<char>,
    h: HeaderV,
    size: int,
    keys: Seq<Seq<char>>,
    order: Seq<int>,
    r: Result<Rewrite, String>,
) -> bool {
    match r {
        Ok(w) => is_flash_rewrite(h, size, keys, order, w),
        Err(m) => {
            ||| flash_too_large(h, keys, order) && m@
                == "internal: header exceeded computed data start"@
            ||| exists|i: int|
                payload_end(h, #[trigger] order[i]) > size && past_end(src, h, size, order, i, m@)
        },
    }
}

/// The `i`-th tensor in data order is the first whose payload runs past the end of the file, and
/// `m` says so.
pub open spec fn past_end(
    src: Seq<char>,
    h: HeaderV,
    size: int,
    order: Seq<int>,
    i: int,
    m: Seq<char>,
) -> bool {
    &&& 0 <= i < order.len()
    &&& payload_end(h, order[i]) > size
    &&& forall|k: int| 0 <= k < i ==> payload_end(h, #[trigger] order[k]) <= size
    &&& m == src + ": tensor '"@ + flash_name(h.tensors[order[i]].name) + "' data "@
        + text::decimal(payload_begin(h, order[i]) as nat) + ".."@ + text::decimal(
        payload_end(h, order[i]) as nat,
    ) + " past end of file "@ + text::decimal(size as nat)
}

/// Where the payload of tensor `j` begins in the file.
pub open spec fn payload_begin(h: HeaderV, j: int) -> int {
    data_start_of(h) + h.tensors[j].offset
}

/// Where the payload of tensor `j` ends in the file.
pub open spec fn payload_end(h: HeaderV, j: int) -> int {
    payload_begin(h, j) + h.tensors[j].nbytes()
}

/// Rewrites a speculator sidecar into the flash loader's naming: architecture, metadata keys and
/// tensor names. Payload bytes are taken over as they are, in data order.
pub fn convert_dspark_sidecar(src: &str, map: &[u8]) -> (r: Result<Rewrite, String>)
    requires
        map@.len() <= isize::MAX,
        gguf::header_of(map@) matches Ok(h) ==> sizes_fit(h.tensors, data_start_of(h)),
    ensures
        converts(src@, map@, r),
{
    let g = match GGUF::open(map) {
        Ok(g) => g,
        Err(m) => {
            return Err(m);
        },
    };
    let ghost h = gguf::header_of(map@)->Ok_0;
    match g.get("general.architecture") {
        Some(Value::Str(a)) => {
            if !text::same(a.as_str(), "dspark") {
                let mut m = src.to_owned();
                m.append(": expected dspark architecture, found '");
                m.append(a.as_str());
                m.append("'");
                return Err(m);
            }
        },
        _ => {
            let mut m = src.to_owned();
            m.append(": missing general.architecture");
            return Err(m);
        },
    }
    proof {
        assert forall|i: int| 0 <= i < g.tensors@.len() implies (#[trigger] g.tensors@[i]).dims@.len()
            <= u32::MAX by {
            lemma_rank_bound(&g.tensors, map@, h, i);
        }
    }
    flash_rewrite(src, &g, Ghost(h))
}

proof fn lemma_past_end(
    src: Seq<char>,
    h: HeaderV,
    size: int,
    keys: Seq<Seq<char>>,
    order: Seq<int>,
    i: int,
    m: String,
)
    requires
        past_end(src, h, size, order, i, m@),
    ensures
        rewrites_in_order(src, h, size, keys, order, Err(m)),
{
}

/// Builds the flash rewrite of an opened sidecar.
fn flash_rewrite(src: &str, g: &GGUF, Ghost(h): Ghost<HeaderV>) -> (r: Result<Rewrite, String>)
    requires
        g.header(h.end) == h,
        g.data_start == data_start_of(h),
        sizes_fit(h.tensors, data_start_of(h)),
        forall|i: int| 0 <= i < g.tensors@.len() ==> (#[trigger] g.tensors@[i]).dims@.len() <= u32::MAX,
    ensures
        rewrites(src@, h, g.file().len() as int, r),
{
    let ghost size = g.file().len() as int;
    let ghost ts = h.tensors;
    let (meta, n_kv) = rename_meta(g);
    let ghost keys = choose|keys: Seq<Seq<char>>|
        sorted_keys(h.meta, keys) && #[trigger] flash_meta(h.meta, keys) == gguf::entries_view(
            meta@,
        ) && n_kv == rewritten_count(keys);
    let order: Vec<usize> = order_by_offset(&g.tensors);
    let ghost ord = order@.map_values(|i: usize| i as int);
    let ghost fts = flash_tensors(ts, ord);
    let plan = plan_tensors(g, &order);
    let mut header: Vec<u8> = Vec::new();
    put_meta(&mut header, g.version, &meta, g.tensors.len() as u64);
    put_tensors(&mut header, &plan.records);
    let ghost full = header_bytes(h.version, flash_meta(h.meta, keys), placed(fts));
    assert(header@ =~= full);
    if header.len() > usize::MAX - 32 || plan.size > u64::MAX - 32 || header.len() as u64
        > u64::MAX - 32 - plan.size {
        assert(flash_too_large(h, keys, ord));
        return Err("internal: header exceeded computed data start".to_owned());
    }
    let start: u64 = gguf::align_up(header.len() as u64, 32);
    pad_to(&mut header, start as usize);
    if plan.bad < order.len() {
        let mut m = src.to_owned();
        m.append(": tensor '");
        m.append(plan.records[plan.bad].name.as_str());
        m.append("' data ");
        text::push_decimal(&mut m, plan.parts[plan.bad].begin as u64);
        m.append("..");
        text::push_decimal(&mut m, plan.parts[plan.bad].end as u64);
        m.append(" past end of file ");
        text::push_decimal(&mut m, g.map.len() as u64);
        proof {
            let bad = plan.bad as int;
            assert(placed(fts)[bad] == plan.records@[bad]@);
            assert forall|k: int| 0 <= k < bad implies payload_end(h, #[trigger] ord[k])
                <= size by {
                assert(plan.parts@[k].end <= size);
            }
            assert(past_end(src@, h, size, ord, bad, m@));
            lemma_past_end(src@, h, size, keys, ord, bad, m);
        }
        return Err(m);
    }
    let moved = shift_parts(&plan.parts, start, Ghost(fts));
    let out = Rewrite {
        header,
        parts: moved,
        end: start + plan.size,
        n_kv,
        n_ty: plan.n_ty,
    };
    proof {
        assert forall|j: int| 0 <= j < ord.len() implies {
            let t = h.tensors[ord[j]];
            &&& (#[trigger] out.parts@[j]).at == start + gguf::running(fts, j)
            &&& out.parts@[j].begin == data_start_of(h) + t.offset
            &&& out.parts@[j].end == data_start_of(h) + t.offset + t.nbytes()
            &&& out.parts@[j].end <= size
        } by {
            assert(plan.parts@[j].end <= size);
        }
        assert(flash_meta(h.meta, keys).len() == meta@.len());
        assert(is_flash_rewrite(h, size, keys, ord, out));
    }
    Ok(out)
}

/// Where the tensors of a rewritten container come from and go to, before the header's size is
/// known: the parts count from the start of the data section.
struct TensorPlan {
    records: Vec<TensorInfo>,
    parts: Vec<Part>,
    n_ty: usize,
    size: u64,
    /// The first tensor whose payload runs past the end of the file; none if out of range.
    bad: usize,
}

fn plan_tensors(g: &GGUF, order: &Vec<usize>) -> (r: TensorPlan)
    requires
        by_offset(gguf::tensors_view(g.tensors@), order@.map_values(|i: usize| i as int)),
        sizes_fit(gguf::tensors_view(g.tensors@), g.data_start as int),
        forall|i: int| 0 <= i < g.tensors@.len() ==> (#[trigger] g.tensors@[i]).dims@.len() <= u32::MAX,
    ensures
        ({
            let ts = gguf::tensors_view(g.tensors@);
            let ord = order@.map_values(|i: usize| i as int);
            let fts = flash_tensors(ts, ord);
            let n = ord.len() as int;
            &&& gguf::tensors_view(r.records@) == placed(fts)
            &&& forall|k: int|
                0 <= k < r.records@.len() ==> (#[trigger] r.records@[k]).dims@.len() <= u32::MAX
            &&& r.n_ty == renamed_count(ts, ord)
            &&& r.size == gguf::running(fts, n)
            &&& r.parts@.len() == n
            &&& forall|k: int|
                0 <= k < n ==> {
                    let t = ts[ord[k]];
                    &&& (#[trigger] r.parts@[k]).at == gguf::running(fts, k)
                    &&& r.parts@[k].begin == g.data_start + t.offset
                    &&& r.parts@[k].end == g.data_start + t.offset + t.nbytes()
                }
            &&& r.bad <= n
            &&& r.bad < n ==> r.parts@[r.bad as int].end > g.file().len()
            &&& forall|k: int|
                0 <= k < r.bad ==> (#[trigger] r.parts@[k]).end <= g.file().len()
        }),
{
    let ghost ts = gguf::tensors_view(g.tensors@);
    let ghost ord = order@.map_values(|i: usize| i as int);
    let ghost fts = flash_tensors(ts, ord);
    let file_len: usize = g.map.len();
    let n: usize = order.len();
    let mut records: Vec<TensorInfo> = Vec::new();
    let mut parts: Vec<Part> = Vec::new();
    let mut n_ty: usize = 0;
    let mut cursor: u64 = 0;
    let mut bad: usize = n;
    let ghost mut taken: Seq<bool> = Seq::new(ts.len(), |i: int| false);
    proof {
        lemma_taken_bounds(ts, taken);
        assert(ord.take(0) =~= Seq::<int>::empty());
        assert(placed(fts).take(0) =~= gguf::tensors_view(records@));
    }
    let mut i: usize = 0;
    while i < n
        invariant
            i <= n,
            n == order@.len(),
            n == ts.len(),
            file_len == g.file().len(),
            ts == gguf::tensors_view(g.tensors@),
            ord == order@.map_values(|i: usize| i as int),
            by_offset(ts, ord),
            fts == flash_tensors(ts, ord),
            sizes_fit(ts, g.data_start as int),
            forall|i: int|
                0 <= i < g.tensors@.len() ==> (#[trigger] g.tensors@[i]).dims@.len() <= u32::MAX,
            taken.len() == n,
            forall|m: int|
                0 <= m < n && #[trigger] taken[m] ==> exists|k: int|
                    0 <= k < i && #[trigger] ord[k] == m,
            cursor == gguf::running(fts, i as int),
            cursor == taken_sum(ts, taken),
            n_ty == renamed_count(ts, ord.take(i as int)),
            n_ty <= i,
            gguf::tensors_view(records@) == placed(fts).take(i as int),
            forall|k: int|
                0 <= k < records@.len() ==> (#[trigger] records@[k]).dims@.len() <= u32::MAX,
            parts@.len() == i,
            forall|k: int|
                0 <= k < i ==> {
                    let t = ts[ord[k]];
                    &&& (#[trigger] parts@[k]).at == gguf::running(fts, k)
                    &&& parts@[k].begin == g.data_start + t.offset
                    &&& parts@[k].end == g.data_start + t.offset + t.nbytes()
                },
            bad <= n,
            bad < n ==> bad < i && parts@[bad as int].end > file_len,
            forall|k: int| 0 <= k < i && k < bad ==> (#[trigger] parts@[k]).end <= file_len,
        decreases n - i,
    {
        let ghost old_records = records@;
        let at: usize = order[i];
        assert(ord[i as int] == at);
        let t = &g.tensors[at];
        proof {
            assert(ts[at as int] == t@);
            assert(ts[at as int].fits());
            if taken[at as int] {
                let k = choose|k: int| 0 <= k < i && #[trigger] ord[k] == at;
                assert(offset_lt(ts, ord[k], ord[i as int]));
            }
            lemma_take_one(ts, taken, at as int);
            let next = taken.update(at as int, true);
            lemma_taken_bounds(ts, next);
            assert(fts[i as int].nbytes() == ts[at as int].nbytes());
            assert(ord.take(i + 1).drop_last() =~= ord.take(i as int));
            assert forall|m: int| 0 <= m < n && #[trigger] next[m] implies exists|k: int|
                0 <= k < i + 1 && #[trigger] ord[k] == m by {
                if m == at {
                    assert(ord[i as int] == m);
                } else {
                    assert(taken[m]);
                    let k = choose|k: int| 0 <= k < i && #[trigger] ord[k] == m;
                    assert(ord[k] == m);
                }
            }
            taken = next;
        }
        let nb: u64 = g.tensor_nbytes(t);
        let name: String = dflash_tensor_name(t.name.as_str());
        if !text::same(name.as_str(), t.name.as_str()) {
            n_ty += 1;
        }
        let begin: usize = (g.data_start + t.offset) as usize;
        let end: usize = begin + nb as usize;
        if bad == n && end > file_len {
            bad = i;
        }
        let rec = TensorInfo { name, dims: copy_dims(&t.dims), ty: t.ty, offset: cursor };
        records.push(rec);
        parts.push(Part { at: cursor, begin, end });
        proof {
            assert(rec@ == placed(fts)[i as int]);
            assert(placed(fts).take(i + 1) =~= placed(fts).take(i as int).push(
                placed(fts)[i as int],
            ));
            assert(gguf::tensors_view(records@) =~= gguf::tensors_view(old_records).push(rec@));
        }
        cursor = cursor + gguf::align_up(nb, 32);
        i += 1;
    }
    proof {
        assert(placed(fts).take(i as int) =~= placed(fts));
        assert(ord.take(i as int) =~= ord);
    }
    TensorPlan { records, parts, n_ty, size: cursor, bad }
}

/// Moves the parts behind a header of `start` bytes.
fn shift_parts(parts: &Vec<Part>, start: u64, Ghost(fts): Ghost<Seq<TensorV>>) -> (r: Vec<Part>)
    requires
        parts@.len() == fts.len(),
        start + gguf::running(fts, fts.len() as int) <= u64::MAX,
        forall|j: int| 0 <= j < parts@.len() ==> (#[trigger] parts@[j]).at == gguf::running(fts, j),
    ensures
        r@.len() == parts@.len(),
        forall|j: int|
            0 <= j < r@.len() ==> (#[trigger] r@[j]).at == start + parts@[j].at && r@[j].begin
                == parts@[j].begin && r@[j].end == parts@[j].end,
{
    let mut moved: Vec<Part> = Vec::new();
    let mut k: usize = 0;
    while k < parts.len()
        invariant
            k <= parts@.len(),
            parts@.len() == fts.len(),
            start + gguf::running(fts, fts.len() as int) <= u64::MAX,
            forall|j: int|
                0 <= j < parts@.len() ==> (#[trigger] parts@[j]).at == gguf::running(fts, j),
            moved@.len() == k,
            forall|j: int|
                0 <= j < k ==> (#[trigger] moved@[j]).at == start + parts@[j].at && moved@[j].begin
                    == parts@[j].begin && moved@[j].end == parts@[j].end,
        decreases parts@.len() - k,
    {
        let p = parts[k];
        proof {
            lemma_running_monotonic(fts, k as int, fts.len() as int);
        }
        moved.push(Part { at: start + p.at, begin: p.begin, end: p.end });
        k += 1;
    }
    moved
}

/// A rewritten sidecar opens under the flash loader's names, with its tensors chained.
#[verifier::spinoff_prover]
#[verifier::rlimit(60)]
pub proof fn law_flash_rewrite_reads_back(
    h: HeaderV,
    size: int,
    keys: Seq<Seq<char>>,
    order: Seq<int>,
    r: Rewrite,
    tail: Seq<u8>,
)
    requires
        is_flash_rewrite(h, size, keys, order, r),
        flash_meta(h.meta, keys).len() <= u64::MAX,
        order.len() <= u64::MAX,
        gguf::running(flash_tensors(h.tensors, order), order.len() as int) <= u64::MAX,
        forall|i: int|
            0 <= i < flash_meta(h.meta, keys).len() ==> readable_entry(
                #[trigger] flash_meta(h.meta, keys)[i],
            ),
        forall|i: int|
            0 <= i < order.len() ==> readable_tensor(
                #[trigger] flash_tensors(h.tensors, order)[i],
            ),
    ensures
        ({
            let ts = placed(flash_tensors(h.tensors, order));
            &&& gguf::header_of(r.header@ + tail) == Ok::<HeaderV, Seq<char>>(
                HeaderV {
                    version: h.version,
                    n_tensors: order.len() as u64,
                    meta: flash_meta(h.meta, keys),
                    tensors: ts,
                    end: header_bytes(h.version, flash_meta(h.meta, keys), ts).len() as int,
                },
            )
            &&& gguf::chained(ts, order.len() as int)
        }),
{
    let meta = flash_meta(h.meta, keys);
    let fts = flash_tensors(h.tensors, order);
    let ts = placed(fts);
    let full = header_bytes(h.version, meta, ts);
    let zeros = Seq::new((gguf::aligned(full.len() as int, 32) - full.len()) as nat, |i: int| 0u8);
    assert(r.header@ + tail =~= full + (zeros + tail));
    assert forall|i: int| 0 <= i < ts.len() implies readable_tensor(#[trigger] ts[i]) by {
        assert(readable_tensor(fts[i]));
    }
    law_header_reads_back(h.version, meta, ts, zeros + tail);
    law_placed_is_chained(fts);
}

/// A parsed tensor record has at most as many dimensions as its rank field can say.
pub(crate) proof fn lemma_rank_bound(tensors: &Vec<TensorInfo>, b: Seq<u8>, h: HeaderV, i: int)
    requires
        gguf::header_of(b) == Ok::<HeaderV, Seq<char>>(h),
        gguf::tensors_view(tensors@) == h.tensors,
        0 <= i < tensors@.len(),
    ensures
        tensors@[i].dims@.len() <= u32::MAX,
{
    le::lemma_pow256();
    let q = gguf::uint_at(b, 8, 8)->Ok_0;
    let nk = gguf::uint_at(b, 16, 8)->Ok_0.0;
    let p = gguf::entries_at(b, 24, nk)->Ok_0.1;
    lemma_ranks(b, p, q.0);
    assert(h.tensors[i] == tensors@[i]@);
}

proof fn lemma_ranks(b: Seq<u8>, p: int, n: nat)
    ensures
        gguf::tensors_at(b, p, n) matches Ok((ts, q)) ==> ts.len() == n && forall|i: int|
            0 <= i < ts.len() ==> (#[trigger] ts[i]).dims.len() <= u32::MAX,
    decreases n,
{
    if n > 0 {
        if let Ok((t, q)) = gguf::tensor_at(b, p) {
            let (name, q1) = gguf::str_at(b, p)->Ok_0;
            let (nd, q2) = gguf::uint_at(b, q1, 4)->Ok_0;
            le::lemma_le_nat_bound(b, q1, 4);
            le::lemma_pow256();
            lemma_dims_len(b, q2, nd);
            lemma_ranks(b, q, (n - 1) as nat);
        }
    }
}

proof fn lemma_dims_len(b: Seq<u8>, p: int, n: nat)
    ensures
        gguf::dims_at(b, p, n) matches Ok((d, q)) ==> d.len() == n,
    decreases n,
{
    if n > 0 {
        if let Ok((d, q)) = gguf::uint_at(b, p, 8) {
            lemma_dims_len(b, q, (n - 1) as nat);
        }
    }
}

} // verus!
