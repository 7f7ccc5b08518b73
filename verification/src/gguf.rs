//! GGUF containers: the header grammar, the tensor index and payload access.
//!
//! Everything is little-endian. Floating-point values are held as their IEEE bit patterns.

use vstd::prelude::*;
use vstd::slice::*;
use vstd::string::*;
use vstd::utf8::*;

use crate::half;
use crate::le;
use crate::text;

verus! {

pub const TYPE_F32: u32 = 0;

pub const TYPE_F16: u32 = 1;

pub const TYPE_Q4_1: u32 = 3;

pub const TYPE_BF16: u32 = 30;

pub const TYPE_TQ1_0: u32 = 34;

/// Group-128 ternary under its old type id.
pub const TYPE_Q2_0_LEGACY: u32 = 42;

/// Group-128 ternary under its current type id.
pub const TYPE_PQ2_0: u32 = 142;

/// A metadata value. `F32` and `F64` hold bit patterns.
#[derive(Debug)]
pub enum Value {
    U8(u8),
    I8(i8),
    U16(u16),
    I16(i16),
    U32(u32),
    I32(i32),
    F32(u32),
    Bool(bool),
    Str(String),
    U64(u64),
    I64(i64),
    F64(u64),
    Array { elem_type: u32, items: Vec<Value> },
}

/// The mathematical content of a [`Value`].
pub enum ValueV {
    U8(u8),
    I8(i8),
    U16(u16),
    I16(i16),
    U32(u32),
    I32(i32),
    F32(u32),
    Bool(bool),
    Str(Seq<char>),
    U64(u64),
    I64(i64),
    F64(u64),
    Array { elem_type: u32, items: Seq<ValueV> },
}

impl Value {
    pub open spec fn view(&self) -> ValueV
        decreases self,
    {
        match self {
            Value::U8(x) => ValueV::U8(*x),
            Value::I8(x) => ValueV::I8(*x),
            Value::U16(x) => ValueV::U16(*x),
            Value::I16(x) => ValueV::I16(*x),
            Value::U32(x) => ValueV::U32(*x),
            Value::I32(x) => ValueV::I32(*x),
            Value::F32(x) => ValueV::F32(*x),
            Value::Bool(x) => ValueV::Bool(*x),
            Value::Str(s) => ValueV::Str(s@),
            Value::U64(x) => ValueV::U64(*x),
            Value::I64(x) => ValueV::I64(*x),
            Value::F64(x) => ValueV::F64(*x),
            Value::Array { elem_type, items } => ValueV::Array {
                elem_type: *elem_type,
                items: Seq::new(
                    items@.len(),
                    |i: int|
                        if 0 <= i < items@.len() {
                            items@[i].view()
                        } else {
                            arbitrary()
                        },
                ),
            },
        }
    }
}

/// What `String::from_utf8` says of bytes that are not UTF-8.
pub uninterp spec fn utf8_error_text(b: Seq<u8>) -> Seq<char>;

/// `String::from_utf8`: valid UTF-8 gives the string it encodes; any other input gives an error,
/// whose rendering is a function of the bytes.
#[verifier::external_body]
pub(crate) fn from_utf8(b: Vec<u8>) -> (r: Result<String, String>)
    ensures
        (match r {
            Ok(s) => valid_utf8(b@) && s@ == decode_utf8(b@),
            Err(e) => !valid_utf8(b@) && e@ == utf8_error_text(b@),
        }),
{
    String::from_utf8(b).map_err(|e| e.to_string())
}

/// What a read past the end of the container reports.
pub open spec fn eof_text() -> Seq<char> {
    "failed to fill whole buffer"@
}

/// Outcome of reading one item at a position: the item and the position behind it, or an error.
pub type Parsed<T> = Result<(T, int), Seq<char>>;

/// The `n`-byte integer at `p`.
pub open spec fn uint_at(b: Seq<u8>, p: int, n: nat) -> Parsed<nat> {
    if p + n > b.len() {
        Err(eof_text())
    } else {
        Ok((le::le_nat(b, p, n), p + n))
    }
}

/// The length-prefixed UTF-8 string at `p`.
pub open spec fn str_at(b: Seq<u8>, p: int) -> Parsed<Seq<char>> {
    match uint_at(b, p, 8) {
        Err(e) => Err(e),
        Ok((n, q)) => if q + n > b.len() {
            Err(eof_text())
        } else {
            let s = b.subrange(q, q + n);
            if valid_utf8(s) {
                Ok((decode_utf8(s), q + n))
            } else {
                Err("non-utf8 key/string: "@ + utf8_error_text(s))
            }
        },
    }
}

/// `r` with the items `head` in front.
pub open spec fn prepend<T>(head: Seq<T>, r: Parsed<Seq<T>>) -> Parsed<Seq<T>> {
    match r {
        Err(e) => Err(e),
        Ok((s, q)) => Ok((head + s, q)),
    }
}

/// A scalar of `n` bytes at `p`, made into a value by `f`.
pub open spec fn scalar_at(b: Seq<u8>, p: int, n: nat, f: spec_fn(nat) -> ValueV) -> Parsed<
    ValueV,
> {
    match uint_at(b, p, n) {
        Err(e) => Err(e),
        Ok((v, q)) => Ok((f(v), q)),
    }
}

/// The value of type id `t` at `p`.
pub open spec fn value_at(b: Seq<u8>, p: int, t: u32) -> Parsed<ValueV>
    decreases b.len() - p, 0nat, 0nat,
{
    if t == 0 {
        scalar_at(b, p, 1, |v: nat| ValueV::U8(v as u8))
    } else if t == 1 {
        scalar_at(b, p, 1, |v: nat| ValueV::I8(v as u8 as i8))
    } else if t == 2 {
        scalar_at(b, p, 2, |v: nat| ValueV::U16(v as u16))
    } else if t == 3 {
        scalar_at(b, p, 2, |v: nat| ValueV::I16(v as u16 as i16))
    } else if t == 4 {
        scalar_at(b, p, 4, |v: nat| ValueV::U32(v as u32))
    } else if t == 5 {
        scalar_at(b, p, 4, |v: nat| ValueV::I32(v as u32 as i32))
    } else if t == 6 {
        scalar_at(b, p, 4, |v: nat| ValueV::F32(v as u32))
    } else if t == 7 {
        scalar_at(b, p, 1, |v: nat| ValueV::Bool(v != 0))
    } else if t == 8 {
        match str_at(b, p) {
            Err(e) => Err(e),
            Ok((s, q)) => Ok((ValueV::Str(s), q)),
        }
    } else if t == 9 {
        match uint_at(b, p, 4) {
            Err(e) => Err(e),
            Ok((elem, q)) => match uint_at(b, q, 8) {
                Err(e) => Err(e),
                Ok((n, q2)) => match items_at(b, p + 12, elem as u32, n) {
                    Err(e) => Err(e),
                    Ok((items, q3)) => Ok((ValueV::Array { elem_type: elem as u32, items }, q3)),
                },
            },
        }
    } else if t == 10 {
        scalar_at(b, p, 8, |v: nat| ValueV::U64(v as u64))
    } else if t == 11 {
        scalar_at(b, p, 8, |v: nat| ValueV::I64(v as u64 as i64))
    } else if t == 12 {
        scalar_at(b, p, 8, |v: nat| ValueV::F64(v as u64))
    } else {
        Err("unknown GGUF value type "@ + text::decimal(t as nat))
    }
}

/// The `n` consecutive values of type id `t` at `p`.
pub open spec fn items_at(b: Seq<u8>, p: int, t: u32, n: nat) -> Parsed<Seq<ValueV>>
    decreases b.len() - p, 1nat, n,
{
    if n == 0 {
        Ok((Seq::empty(), p))
    } else {
        match value_at(b, p, t) {
            Err(e) => Err(e),
            Ok((v, q)) => if p <= q <= b.len() {
                prepend(seq![v], items_at(b, q, t, (n - 1) as nat))
            } else {
                Err(eof_text())
            },
        }
    }
}

/// What an executable reader's result says, as a parse outcome.
pub open spec fn outcome<T, V>(r: Result<(T, usize), String>, view: spec_fn(T) -> V) -> Parsed<V> {
    match r {
        Ok((v, q)) => Ok((view(v), q as int)),
        Err(m) => Err(m@),
    }
}

pub(crate) fn eof<T>() -> (r: Result<T, String>)
    ensures
        r matches Err(m) && m@ == eof_text(),
{
    Err("failed to fill whole buffer".to_owned())
}

/// Reads the `n`-byte integer at `p`.
pub(crate) fn read_uint(b: &[u8], p: usize, n: usize) -> (r: Result<(u64, usize), String>)
    requires
        n <= 8,
        p <= b@.len(),
    ensures
        outcome(r, |v: u64| v as nat) == uint_at(b@, p as int, n as nat),
        r matches Ok((v, q)) ==> q == p + n && q <= b@.len() && v < le::pow256(n as nat),
{
    if b.len() - p < n {
        return eof();
    }
    Ok((le::read_le(b, p, n), p + n))
}

/// Reads the length-prefixed string at `p`.
pub(crate) fn read_str(b: &[u8], p: usize) -> (r: Result<(String, usize), String>)
    requires
        p <= b@.len(),
    ensures
        outcome(r, |s: String| s@) == str_at(b@, p as int),
        r matches Ok((s, q)) ==> p + 8 <= q <= b@.len(),
{
    let (n, q) = match read_uint(b, p, 8) {
        Ok(x) => x,
        Err(m) => {
            return Err(m);
        },
    };
    if ((b.len() - q) as u64) < n {
        return eof();
    }
    let end: usize = q + n as usize;
    let raw: Vec<u8> = slice_to_vec(slice_subrange(b, q, end));
    match from_utf8(raw) {
        Ok(s) => Ok((s, end)),
        Err(e) => {
            let mut m = "non-utf8 key/string: ".to_owned();
            m.append(e.as_str());
            Err(m)
        },
    }
}

/// Reads the value of type id `t` at `p`.
pub fn read_value(b: &[u8], p: usize, t: u32) -> (r: Result<(Value, usize), String>)
    requires
        p <= b@.len(),
    ensures
        outcome(r, |v: Value| v@) == value_at(b@, p as int, t),
        r matches Ok((v, q)) ==> p < q <= b@.len(),
    decreases b@.len() - p,
{
    proof {
        le::lemma_pow256();
    }
    let width: usize = match t {
        0 | 1 | 7 => 1,
        2 | 3 => 2,
        4 | 5 | 6 => 4,
        10 | 11 | 12 => 8,
        _ => 0,
    };
    if width > 0 {
        let (x, q) = match read_uint(b, p, width) {
            Ok(x) => x,
            Err(m) => {
                return Err(m);
            },
        };
        let v = match t {
            0 => Value::U8(x as u8),
            1 => Value::I8(x as u8 as i8),
            2 => Value::U16(x as u16),
            3 => Value::I16(x as u16 as i16),
            4 => Value::U32(x as u32),
            5 => Value::I32(x as u32 as i32),
            6 => Value::F32(x as u32),
            7 => Value::Bool(x != 0),
            10 => Value::U64(x),
            11 => Value::I64(x as i64),
            _ => Value::F64(x),
        };
        return Ok((v, q));
    }
    if t == 8 {
        return match read_str(b, p) {
            Ok((s, q)) => Ok((Value::Str(s), q)),
            Err(m) => Err(m),
        };
    }
    if t != 9 {
        let mut m = "unknown GGUF value type ".to_owned();
        text::push_decimal(&mut m, t as u64);
        return Err(m);
    }
    let (elem, q) = match read_uint(b, p, 4) {
        Ok(x) => x,
        Err(m) => {
            return Err(m);
        },
    };
    let (n, q2) = match read_uint(b, q, 8) {
        Ok(x) => x,
        Err(m) => {
            return Err(m);
        },
    };
    let elem_type: u32 = elem as u32;
    let mut items: Vec<Value> = Vec::new();
    let mut at: usize = q2;
    let mut left: u64 = n;
    while left > 0
        invariant
            t == 9,
            p + 12 == q2,
            uint_at(b@, p as int, 4) == Ok::<(nat, int), Seq<char>>((elem as nat, q as int)),
            uint_at(b@, q as int, 8) == Ok::<(nat, int), Seq<char>>((n as nat, q2 as int)),
            elem_type == elem,
            q2 <= at <= b@.len(),
            items_at(b@, q2 as int, elem_type, n as nat) == prepend(
                values_view(items@),
                items_at(b@, at as int, elem_type, left as nat),
            ),
        decreases left,
    {
        let ghost before = items@;
        match read_value(b, at, elem_type) {
            Ok((v, next)) => {
                items.push(v);
                proof {
                    let rest = items_at(b@, next as int, elem_type, (left - 1) as nat);
                    assert(items_at(b@, at as int, elem_type, left as nat) == prepend(
                        seq![v@],
                        rest,
                    ));
                    lemma_prepend(values_view(before), v@, rest);
                    assert(values_view(items@) =~= values_view(before).push(v@));
                }
                at = next;
            },
            Err(m) => {
                return Err(m);
            },
        }
        left -= 1;
    }
    proof {
        assert(values_view(items@) + Seq::<ValueV>::empty() =~= values_view(items@));
    }
    let r = Value::Array { elem_type, items };
    assert(r@->items =~= values_view(items@));
    Ok((r, at))
}

/// The contents of a list of values.
pub open spec fn values_view(s: Seq<Value>) -> Seq<ValueV> {
    Seq::new(s.len(), |i: int| s[i]@)
}

/// The content of an array is the list of its items' contents.
pub proof fn lemma_array_view(elem_type: u32, items: Vec<Value>)
    ensures
        (Value::Array { elem_type, items })@ == (ValueV::Array {
            elem_type,
            items: values_view(items@),
        }),
{
    assert((Value::Array { elem_type, items })@->items =~= values_view(items@));
}

proof fn lemma_prepend<T>(head: Seq<T>, x: T, r: Parsed<Seq<T>>)
    ensures
        prepend(head, prepend(seq![x], r)) == prepend(head.push(x), r),
{
    if let Ok((s, q)) = r {
        assert(head + (seq![x] + s) =~= head.push(x) + s);
    }
}

/// One metadata entry: a key and its value.
pub type Entry = (Seq<char>, ValueV);

/// The metadata entry at `p`: key, type id, value.
pub open spec fn entry_at(b: Seq<u8>, p: int) -> Parsed<Entry> {
    match str_at(b, p) {
        Err(e) => Err(e),
        Ok((key, q)) => match uint_at(b, q, 4) {
            Err(e) => Err(e),
            Ok((t, q2)) => match value_at(b, q2, t as u32) {
                Err(e) => Err(e),
                Ok((v, q3)) => Ok(((key, v), q3)),
            },
        },
    }
}

/// The `n` consecutive metadata entries at `p`.
pub open spec fn entries_at(b: Seq<u8>, p: int, n: nat) -> Parsed<Seq<Entry>>
    decreases n,
{
    if n == 0 {
        Ok((Seq::empty(), p))
    } else {
        match entry_at(b, p) {
            Err(e) => Err(e),
            Ok((x, q)) => prepend(seq![x], entries_at(b, q, (n - 1) as nat)),
        }
    }
}

/// A tensor's record in the index.
#[derive(Debug)]
pub struct TensorInfo {
    pub name: String,
    pub dims: Vec<u64>,
    pub ty: u32,
    /// Offset of the payload behind the start of the data section.
    pub offset: u64,
}

/// The mathematical content of a [`TensorInfo`].
pub struct TensorV {
    pub name: Seq<char>,
    pub dims: Seq<u64>,
    pub ty: u32,
    pub offset: u64,
}

impl View for TensorInfo {
    type V = TensorV;

    open spec fn view(&self) -> TensorV {
        TensorV { name: self.name@, dims: self.dims@, ty: self.ty, offset: self.offset }
    }
}

/// The `n` consecutive 8-byte dimensions at `p`.
pub open spec fn dims_at(b: Seq<u8>, p: int, n: nat) -> Parsed<Seq<u64>>
    decreases n,
{
    if n == 0 {
        Ok((Seq::empty(), p))
    } else {
        match uint_at(b, p, 8) {
            Err(e) => Err(e),
            Ok((d, q)) => prepend(seq![d as u64], dims_at(b, q, (n - 1) as nat)),
        }
    }
}

/// The tensor record at `p`: name, rank, dimensions, type id, offset.
pub open spec fn tensor_at(b: Seq<u8>, p: int) -> Parsed<TensorV> {
    match str_at(b, p) {
        Err(e) => Err(e),
        Ok((name, q)) => match uint_at(b, q, 4) {
            Err(e) => Err(e),
            Ok((nd, q2)) => match dims_at(b, q2, nd) {
                Err(e) => Err(e),
                Ok((dims, q3)) => match uint_at(b, q3, 4) {
                    Err(e) => Err(e),
                    Ok((ty, q4)) => match uint_at(b, q4, 8) {
                        Err(e) => Err(e),
                        Ok((offset, q5)) => Ok(
                            (TensorV { name, dims, ty: ty as u32, offset: offset as u64 }, q5),
                        ),
                    },
                },
            },
        },
    }
}

/// The `n` consecutive tensor records at `p`.
pub open spec fn tensors_at(b: Seq<u8>, p: int, n: nat) -> Parsed<Seq<TensorV>>
    decreases n,
{
    if n == 0 {
        Ok((Seq::empty(), p))
    } else {
        match tensor_at(b, p) {
            Err(e) => Err(e),
            Ok((x, q)) => prepend(seq![x], tensors_at(b, q, (n - 1) as nat)),
        }
    }
}

/// `v` rounded up to a multiple of `a`.
pub open spec fn aligned(v: int, a: int) -> int {
    (v + a - 1) / a * a
}

/// Rounds `v` up to a multiple of `a`.
pub fn align_up(v: u64, a: u64) -> (r: u64)
    requires
        a > 0,
        v + a <= u64::MAX,
    ensures
        r == aligned(v as int, a as int),
        v <= r < v + a,
        r % a == 0,
{
    let k: u64 = (v + a - 1) / a;
    proof {
        let s: int = v + a - 1;
        vstd::arithmetic::div_mod::lemma_fundamental_div_mod(s, a as int);
        vstd::arithmetic::div_mod::lemma_mod_bound(s, a as int);
        vstd::arithmetic::mul::lemma_mul_is_commutative(a as int, s / (a as int));
        vstd::arithmetic::div_mod::lemma_mod_multiples_basic(s / (a as int), a as int);
    }
    k * a
}

/// The value that a key has: the last entry under that key counts.
pub open spec fn lookup(entries: Seq<Entry>, key: Seq<char>) -> Option<ValueV>
    decreases entries.len(),
{
    if entries.len() == 0 {
        None
    } else if entries.last().0 == key {
        Some(entries.last().1)
    } else {
        lookup(entries.drop_last(), key)
    }
}

/// The content of a container's header.
pub struct HeaderV {
    pub version: u32,
    pub n_tensors: u64,
    /// The metadata entries in file order.
    pub meta: Seq<Entry>,
    pub tensors: Seq<TensorV>,
    /// Where the header's last byte is followed.
    pub end: int,
}

/// The header at the start of a container.
pub open spec fn header_of(b: Seq<u8>) -> Result<HeaderV, Seq<char>> {
    if b.len() < 4 {
        Err("read magic: "@ + eof_text())
    } else if b.subrange(0, 4) != seq![71u8, 71u8, 85u8, 70u8] {
        Err("not a GGUF file"@)
    } else {
        match uint_at(b, 4, 4) {
            Err(e) => Err(e),
            Ok((version, q)) => match uint_at(b, q, 8) {
                Err(e) => Err(e),
                Ok((nt, q2)) => match uint_at(b, q2, 8) {
                    Err(e) => Err(e),
                    Ok((nk, q3)) => match entries_at(b, q3, nk) {
                        Err(e) => Err(e),
                        Ok((meta, q4)) => match tensors_at(b, q4, nt) {
                            Err(e) => Err(e),
                            Ok((tensors, q5)) => Ok(
                                HeaderV {
                                    version: version as u32,
                                    n_tensors: nt as u64,
                                    meta,
                                    tensors,
                                    end: q5,
                                },
                            ),
                        },
                    },
                },
            },
        }
    }
}

/// An opened container: its header and the bytes of the whole file.
#[derive(Debug)]
pub struct GGUF<'a> {
    pub version: u32,
    pub n_tensors: u64,
    /// The metadata entries in file order; the last one under a key counts.
    pub meta: Vec<(String, Value)>,
    pub tensors: Vec<TensorInfo>,
    /// Offset in the file where tensor data begins (aligned).
    pub data_start: u64,
    /// The bytes of the whole file.
    pub map: &'a [u8],
}

pub open spec fn entry_view(e: (String, Value)) -> Entry {
    (e.0@, e.1@)
}

pub open spec fn entries_view(s: Seq<(String, Value)>) -> Seq<Entry> {
    Seq::new(s.len(), |i: int| entry_view(s[i]))
}

pub open spec fn tensors_view(s: Seq<TensorInfo>) -> Seq<TensorV> {
    Seq::new(s.len(), |i: int| s[i]@)
}

fn read_entry(b: &[u8], p: usize) -> (r: Result<((String, Value), usize), String>)
    requires
        p <= b@.len(),
    ensures
        outcome(r, |e: (String, Value)| entry_view(e)) == entry_at(b@, p as int),
        r matches Ok((e, q)) ==> p < q <= b@.len(),
{
    let (key, q) = match read_str(b, p) {
        Ok(x) => x,
        Err(m) => {
            return Err(m);
        },
    };
    let (t, q2) = match read_uint(b, q, 4) {
        Ok(x) => x,
        Err(m) => {
            return Err(m);
        },
    };
    proof {
        le::lemma_pow256();
    }
    match read_value(b, q2, t as u32) {
        Ok((v, q3)) => Ok(((key, v), q3)),
        Err(m) => Err(m),
    }
}

fn read_entries(b: &[u8], p: usize, n: u64) -> (r: Result<(Vec<(String, Value)>, usize), String>)
    requires
        p <= b@.len(),
    ensures
        outcome(r, |e: Vec<(String, Value)>| entries_view(e@)) == entries_at(
            b@,
            p as int,
            n as nat,
        ),
        r matches Ok((e, q)) ==> p <= q <= b@.len(),
{
    let mut out: Vec<(String, Value)> = Vec::new();
    let mut at: usize = p;
    let mut left: u64 = n;
    assert(prepend(entries_view(out@), entries_at(b@, p as int, n as nat)) == entries_at(
        b@,
        p as int,
        n as nat,
    )) by {
        if let Ok((s, q)) = entries_at(b@, p as int, n as nat) {
            assert(entries_view(out@) + s =~= s);
        }
    }
    while left > 0
        invariant
            p <= at <= b@.len(),
            entries_at(b@, p as int, n as nat) == prepend(
                entries_view(out@),
                entries_at(b@, at as int, left as nat),
            ),
        decreases left,
    {
        let ghost before = out@;
        match read_entry(b, at) {
            Ok((e, next)) => {
                out.push(e);
                proof {
                    lemma_prepend(
                        entries_view(before),
                        entry_view(e),
                        entries_at(b@, next as int, (left - 1) as nat),
                    );
                    assert(entries_view(out@) =~= entries_view(before).push(entry_view(e)));
                }
                at = next;
            },
            Err(m) => {
                return Err(m);
            },
        }
        left -= 1;
    }
    assert(entries_view(out@) + Seq::<Entry>::empty() =~= entries_view(out@));
    Ok((out, at))
}

fn read_dims(b: &[u8], p: usize, n: u64) -> (r: Result<(Vec<u64>, usize), String>)
    requires
        p <= b@.len(),
    ensures
        outcome(r, |e: Vec<u64>| e@) == dims_at(b@, p as int, n as nat),
        r matches Ok((e, q)) ==> p <= q <= b@.len() && e@.len() == n,
{
    let mut out: Vec<u64> = Vec::new();
    let mut at: usize = p;
    let mut left: u64 = n;
    assert(prepend(out@, dims_at(b@, p as int, n as nat)) == dims_at(b@, p as int, n as nat)) by {
        if let Ok((s, q)) = dims_at(b@, p as int, n as nat) {
            assert(out@ + s =~= s);
        }
    }
    while left > 0
        invariant
            p <= at <= b@.len(),
            left + out@.len() == n,
            dims_at(b@, p as int, n as nat) == prepend(out@, dims_at(b@, at as int, left as nat)),
        decreases left,
    {
        match read_uint(b, at, 8) {
            Ok((d, next)) => {
                proof {
                    lemma_prepend(out@, d, dims_at(b@, next as int, (left - 1) as nat));
                }
                out.push(d);
                at = next;
            },
            Err(m) => {
                return Err(m);
            },
        }
        left -= 1;
    }
    assert(out@ + Seq::<u64>::empty() =~= out@);
    Ok((out, at))
}

pub(crate) fn read_tensor_info(b: &[u8], p: usize) -> (r: Result<(TensorInfo, usize), String>)
    requires
        p <= b@.len(),
    ensures
        outcome(r, |t: TensorInfo| t@) == tensor_at(b@, p as int),
        r matches Ok((e, q)) ==> p + 24 <= q <= b@.len(),
{
    proof {
        le::lemma_pow256();
    }
    let (name, q) = match read_str(b, p) {
        Ok(x) => x,
        Err(m) => {
            return Err(m);
        },
    };
    let (nd, q2) = match read_uint(b, q, 4) {
        Ok(x) => x,
        Err(m) => {
            return Err(m);
        },
    };
    let (dims, q3) = match read_dims(b, q2, nd) {
        Ok(x) => x,
        Err(m) => {
            return Err(m);
        },
    };
    let (ty, q4) = match read_uint(b, q3, 4) {
        Ok(x) => x,
        Err(m) => {
            return Err(m);
        },
    };
    let (offset, q5) = match read_uint(b, q4, 8) {
        Ok(x) => x,
        Err(m) => {
            return Err(m);
        },
    };
    Ok((TensorInfo { name, dims, ty: ty as u32, offset }, q5))
}

fn read_tensor_infos(b: &[u8], p: usize, n: u64) -> (r: Result<(Vec<TensorInfo>, usize), String>)
    requires
        p <= b@.len(),
    ensures
        outcome(r, |e: Vec<TensorInfo>| tensors_view(e@)) == tensors_at(b@, p as int, n as nat),
        r matches Ok((e, q)) ==> p <= q <= b@.len(),
{
    let mut out: Vec<TensorInfo> = Vec::new();
    let mut at: usize = p;
    let mut left: u64 = n;
    assert(prepend(tensors_view(out@), tensors_at(b@, p as int, n as nat)) == tensors_at(
        b@,
        p as int,
        n as nat,
    )) by {
        if let Ok((s, q)) = tensors_at(b@, p as int, n as nat) {
            assert(tensors_view(out@) + s =~= s);
        }
    }
    while left > 0
        invariant
            p <= at <= b@.len(),
            tensors_at(b@, p as int, n as nat) == prepend(
                tensors_view(out@),
                tensors_at(b@, at as int, left as nat),
            ),
        decreases left,
    {
        let ghost before = out@;
        match read_tensor_info(b, at) {
            Ok((t, next)) => {
                out.push(t);
                proof {
                    lemma_prepend(
                        tensors_view(before),
                        t@,
                        tensors_at(b@, next as int, (left - 1) as nat),
                    );
                    assert(tensors_view(out@) =~= tensors_view(before).push(t@));
                }
                at = next;
            },
            Err(m) => {
                return Err(m);
            },
        }
        left -= 1;
    }
    assert(tensors_view(out@) + Seq::<TensorV>::empty() =~= tensors_view(out@));
    Ok((out, at))
}

impl<'a> GGUF<'a> {
    /// The header that the fields hold, ending at `end`.
    pub open spec fn header(&self, end: int) -> HeaderV {
        HeaderV {
            version: self.version,
            n_tensors: self.n_tensors,
            meta: entries_view(self.meta@),
            tensors: tensors_view(self.tensors@),
            end,
        }
    }

    /// The bytes of the whole file.
    pub open spec fn file(&self) -> Seq<u8> {
        self.map@
    }

    /// Opens the container held in `map`.
    pub fn open(map: &'a [u8]) -> (r: Result<GGUF<'a>, String>)
        requires
            map@.len() <= isize::MAX,
        ensures
            match (r, header_of(map@)) {
                (Ok(g), Ok(h)) => {
                    &&& g.header(h.end) == h
                    &&& g.data_start == aligned(h.end, 32)
                    &&& g.file() == map@
                },
                (Err(m), Err(e)) => m@ == e,
                _ => false,
            },
    {
        if map.len() < 4 {
            let mut m = "read magic: ".to_owned();
            m.append("failed to fill whole buffer");
            return Err(m);
        }
        let ghost magic = seq![71u8, 71u8, 85u8, 70u8];
        if map[0] != 71 || map[1] != 71 || map[2] != 85 || map[3] != 70 {
            proof {
                let head = map@.subrange(0, 4);
                assert(head[0] == map@[0] && head[1] == map@[1] && head[2] == map@[2] && head[3]
                    == map@[3]);
                assert(magic[0] == 71 && magic[1] == 71 && magic[2] == 85 && magic[3] == 70);
            }
            return Err("not a GGUF file".to_owned());
        }
        assert(map@.subrange(0, 4) =~= magic);
        proof {
            le::lemma_pow256();
        }
        let (version, q) = match read_uint(map, 4, 4) {
            Ok(x) => x,
            Err(m) => {
                return Err(m);
            },
        };
        let (n_tensors, q2) = match read_uint(map, q, 8) {
            Ok(x) => x,
            Err(m) => {
                return Err(m);
            },
        };
        let (n_kv, q3) = match read_uint(map, q2, 8) {
            Ok(x) => x,
            Err(m) => {
                return Err(m);
            },
        };
        let (meta, q4) = match read_entries(map, q3, n_kv) {
            Ok(x) => x,
            Err(m) => {
                return Err(m);
            },
        };
        let (tensors, q5) = match read_tensor_infos(map, q4, n_tensors) {
            Ok(x) => x,
            Err(m) => {
                return Err(m);
            },
        };
        let data_start: u64 = align_up(q5 as u64, 32);
        Ok(GGUF { version: version as u32, n_tensors, meta, tensors, data_start, map })
    }

    /// The value of a metadata key.
    pub fn get(&self, key: &str) -> (r: Option<&Value>)
        ensures
            match r {
                Some(v) => lookup(entries_view(self.meta@), key@) == Some(v@),
                None => lookup(entries_view(self.meta@), key@) is None,
            },
    {
        let mut i: usize = self.meta.len();
        assert(entries_view(self.meta@).take(i as int) =~= entries_view(self.meta@));
        while i > 0
            invariant
                i <= self.meta@.len(),
                lookup(entries_view(self.meta@), key@) == lookup(
                    entries_view(self.meta@).take(i as int),
                    key@,
                ),
            decreases i,
        {
            let ghost e = entries_view(self.meta@);
            assert(e.take(i as int).drop_last() =~= e.take(i - 1));
            i -= 1;
            if text::same(self.meta[i].0.as_str(), key) {
                return Some(&self.meta[i].1);
            }
        }
        None
    }

    /// The whole file.
    pub fn file_bytes(&self) -> (r: &'a [u8])
        ensures
            r@ == self.file(),
    {
        self.map
    }
}

/// The product of a tensor's dimensions.
pub open spec fn product(dims: Seq<u64>) -> nat
    decreases dims.len(),
{
    if dims.len() == 0 {
        1
    } else {
        product(dims.drop_last()) * dims.last() as nat
    }
}

/// No partial product of the dimensions leaves 64 bits.
pub open spec fn product_fits(dims: Seq<u64>) -> bool {
    forall|k: int| 0 <= k <= dims.len() ==> #[trigger] product(dims.take(k)) <= u64::MAX
}

/// The bytes that `n` elements of type `ty` occupy: whole blocks of the type's block length
/// and block size. Unknown types count as four-byte elements.
pub open spec fn nbytes(ty: u32, n: nat) -> nat {
    if ty == TYPE_F16 || ty == TYPE_BF16 {
        2 * n
    } else if ty == TYPE_Q4_1 {
        (n + 31) / 32 * 20
    } else if ty == TYPE_PQ2_0 {
        (n + 127) / 128 * 34
    } else if ty == TYPE_TQ1_0 {
        (n + 255) / 256 * 54
    } else {
        4 * n
    }
}

/// The bytes that a tensor of these dimensions occupies: its rows, each padded to whole blocks.
/// A tensor without dimensions is a single element.
pub open spec fn shape_bytes(ty: u32, dims: Seq<u64>) -> nat {
    if dims.len() == 0 {
        nbytes(ty, 1)
    } else {
        product(dims.skip(1)) * nbytes(ty, dims[0] as nat)
    }
}

/// All dimensions are the first times the rest.
pub proof fn lemma_product_first(dims: Seq<u64>)
    requires
        dims.len() > 0,
    ensures
        product(dims) == dims[0] as nat * product(dims.skip(1)),
    decreases dims.len(),
{
    let d = dims.drop_last();
    if dims.len() == 1 {
        assert(d =~= Seq::<u64>::empty());
        assert(dims.skip(1) =~= Seq::<u64>::empty());
        let x = dims[0] as nat;
        assert(1nat * x == x * 1nat) by (nonlinear_arith);
    } else {
        lemma_product_first(d);
        assert(dims.skip(1).drop_last() =~= d.skip(1));
        let (a, b, c) = (dims[0] as nat, product(d.skip(1)), dims.last() as nat);
        assert((a * b) * c == a * (b * c)) by (nonlinear_arith);
    }
}

/// Rows of `c` elements in blocks of `q` take as many blocks as their elements laid end to end,
/// and more only where a row leaves its last block unfilled.
proof fn lemma_row_blocks(r: nat, c: nat, q: nat)
    requires
        q > 0,
    ensures
        (c * r + (q - 1)) / q as int <= r * ((c + (q - 1)) / q as int),
        c % q == 0 ==> (c * r + (q - 1)) / q as int == r * ((c + (q - 1)) / q as int),
{
    let (ri, ci, qi) = (r as int, c as int, q as int);
    let b = (ci + (qi - 1)) / qi;
    vstd::arithmetic::div_mod::lemma_fundamental_div_mod(ci + (qi - 1), qi);
    vstd::arithmetic::div_mod::lemma_mod_bound(ci + (qi - 1), qi);
    let k = qi * b - ci;
    assert(0 <= k < qi);
    assert(ci * ri + (qi - 1) == (ri * b) * qi + (qi - 1) - k * ri) by (nonlinear_arith)
        requires
            k == qi * b - ci,
    ;
    assert(0 <= k * ri) by (nonlinear_arith)
        requires
            0 <= k,
            0 <= ri,
    ;
    vstd::arithmetic::div_mod::lemma_div_is_ordered(
        ci * ri + (qi - 1),
        (ri * b) * qi + (qi - 1),
        qi,
    );
    vstd::arithmetic::div_mod::lemma_fundamental_div_mod_converse(
        (ri * b) * qi + (qi - 1),
        qi,
        ri * b,
        qi - 1,
    );
    if ci % qi == 0 {
        vstd::arithmetic::div_mod::lemma_fundamental_div_mod(ci, qi);
        let d = ci / qi;
        vstd::arithmetic::div_mod::lemma_fundamental_div_mod_converse(
            ci + (qi - 1),
            qi,
            d,
            qi - 1,
        );
        assert(k == 0);
        assert(k * ri == 0) by (nonlinear_arith)
            requires
                k == 0,
        ;
    }
}

/// A tensor takes at least the bytes of its elements laid end to end, and just those where a row
/// is whole blocks, as it always is of a type whose blocks are single elements.
pub proof fn lemma_shape_bytes(ty: u32, dims: Seq<u64>)
    ensures
        nbytes(ty, product(dims)) <= shape_bytes(ty, dims),
        ty != TYPE_Q4_1 && ty != TYPE_PQ2_0 && ty != TYPE_TQ1_0 ==> nbytes(ty, product(dims))
            == shape_bytes(ty, dims),
        dims.len() > 0 && dims[0] % 256 == 0 ==> nbytes(ty, product(dims)) == shape_bytes(
            ty,
            dims,
        ),
        dims.len() > 0 && dims[0] % 128 == 0 && ty != TYPE_TQ1_0 ==> nbytes(ty, product(dims))
            == shape_bytes(ty, dims),
{
    if dims.len() > 0 {
        lemma_product_first(dims);
        let (c, r) = (dims[0] as nat, product(dims.skip(1)));
        lemma_row_blocks(r, c, 32);
        lemma_row_blocks(r, c, 128);
        lemma_row_blocks(r, c, 256);
        assert(r * (2 * c) == 2 * (c * r)) by (nonlinear_arith);
        assert(r * (4 * c) == 4 * (c * r)) by (nonlinear_arith);
        let (x, y, z) = ((c + 31) / 32, (c + 127) / 128, (c + 255) / 256);
        assert(r * (x * 20) == (r * x) * 20) by (nonlinear_arith);
        assert(r * (y * 34) == (r * y) * 34) by (nonlinear_arith);
        assert(r * (z * 54) == (r * z) * 54) by (nonlinear_arith);
    }
}

impl TensorV {
    pub open spec fn nbytes(self) -> nat {
        shape_bytes(self.ty, self.dims)
    }

    /// The tensor's size, in elements and in bytes rounded up to the alignment, is representable.
    pub open spec fn fits(self) -> bool {
        product_fits(self.dims) && self.nbytes() + 32 <= u64::MAX
    }
}

/// Multiplies the dimensions together.
pub(crate) fn product_of(dims: &Vec<u64>) -> (r: u64)
    requires
        product_fits(dims@),
    ensures
        r == product(dims@),
{
    let mut acc: u64 = 1;
    let mut i: usize = 0;
    while i < dims.len()
        invariant
            i <= dims@.len(),
            product_fits(dims@),
            acc == product(dims@.take(i as int)),
        decreases dims@.len() - i,
    {
        proof {
            let next = dims@.take(i + 1);
            assert(next.drop_last() =~= dims@.take(i as int));
            assert(next.last() == dims@[i as int]);
            assert(product(next) <= u64::MAX);
        }
        acc = acc * dims[i];
        i += 1;
    }
    assert(dims@.take(i as int) =~= dims@);
    acc
}

impl TensorInfo {
    /// The number of elements.
    pub fn n_elem(&self) -> (r: u64)
        requires
            product_fits(self.dims@),
        ensures
            r == product(self.dims@),
    {
        product_of(&self.dims)
    }

    /// An equal record.
    pub fn copied(&self) -> (r: TensorInfo)
        ensures
            r@ == self@,
    {
        let mut dims: Vec<u64> = Vec::new();
        let mut i: usize = 0;
        while i < self.dims.len()
            invariant
                i <= self.dims@.len(),
                dims@ == self.dims@.take(i as int),
            decreases self.dims@.len() - i,
        {
            dims.push(self.dims[i]);
            i += 1;
            assert(self.dims@.take(i as int) =~= self.dims@.take(i - 1).push(self.dims@[i - 1]));
        }
        assert(self.dims@.take(i as int) =~= self.dims@);
        TensorInfo { name: self.name.clone(), dims, ty: self.ty, offset: self.offset }
    }
}

/// Bytes that one tensor occupies for its type: rows of whole blocks.
pub fn tensor_nbytes_for(ty: u32, n_elem: u64) -> (r: u64)
    requires
        nbytes(ty, n_elem as nat) <= u64::MAX,
    ensures
        r == nbytes(ty, n_elem as nat),
{
    let (blk, size): (u64, u64) = match ty {
        TYPE_F32 => (1, 4),
        TYPE_F16 => (1, 2),
        TYPE_BF16 => (1, 2),
        TYPE_Q4_1 => (32, 20),
        TYPE_PQ2_0 => (128, 34),
        TYPE_TQ1_0 => (256, 54),
        _ => (1, 4),
    };
    let blocks: u64 = if n_elem % blk == 0 {
        n_elem / blk
    } else {
        n_elem / blk + 1
    };
    proof {
        assert(blk == 32 ==> blocks == (n_elem + 31) / 32);
        assert(blk == 128 ==> blocks == (n_elem + 127) / 128);
        assert(blk == 256 ==> blocks == (n_elem + 255) / 256);
        assert(blk == 1 ==> blocks == n_elem);
        assert(blocks * size == nbytes(ty, n_elem as nat)) by (nonlinear_arith)
            requires
                nbytes(ty, n_elem as nat) == blocks * 2 && size == 2 || nbytes(ty, n_elem as nat)
                    == blocks * 4 && size == 4 || nbytes(ty, n_elem as nat) == blocks * 20 && size
                    == 20 || nbytes(ty, n_elem as nat) == blocks * 34 && size == 34 || nbytes(
                    ty,
                    n_elem as nat,
                ) == blocks * 54 && size == 54,
        ;
    }
    blocks * size
}

/// Bytes that a tensor of these dimensions occupies: its rows times the padded size of a row.
pub(crate) fn shape_nbytes(ty: u32, dims: &Vec<u64>) -> (r: u64)
    requires
        product_fits(dims@),
        shape_bytes(ty, dims@) <= u64::MAX,
    ensures
        r == shape_bytes(ty, dims@),
{
    if dims.len() == 0 {
        return tensor_nbytes_for(ty, 1);
    }
    let c: u64 = dims[0];
    if c == 0 {
        proof {
            let m = product(dims@.skip(1));
            assert(m * 0 == 0) by (nonlinear_arith);
        }
        return 0;
    }
    let n: u64 = product_of(dims);
    let rows: u64 = n / c;
    let ghost m = product(dims@.skip(1));
    proof {
        lemma_product_first(dims@);
        assert(n == m * c + 0) by (nonlinear_arith)
            requires
                n == c * m,
        ;
        vstd::arithmetic::div_mod::lemma_fundamental_div_mod_converse(
            n as int,
            c as int,
            m as int,
            0,
        );
        assert(rows == m);
    }
    if rows == 0 {
        let ghost k = nbytes(ty, c as nat);
        assert(0 * k == 0) by (nonlinear_arith);
        return 0;
    }
    assert(nbytes(ty, c as nat) <= m * nbytes(ty, c as nat)) by (nonlinear_arith)
        requires
            m >= 1,
    ;
    rows * tensor_nbytes_for(ty, c)
}

impl<'a> GGUF<'a> {
    /// Bytes that a tensor occupies in the data section: its rows, each padded to whole blocks.
    pub fn tensor_nbytes(&self, info: &TensorInfo) -> (r: u64)
        requires
            product_fits(info.dims@),
            info@.nbytes() <= u64::MAX,
        ensures
            r == info@.nbytes(),
    {
        shape_nbytes(info.ty, &info.dims)
    }

    /// Offset in the file of a tensor's data.
    pub fn tensor_data_offset(&self, info: &TensorInfo) -> (r: u64)
        requires
            self.data_start + info.offset <= u64::MAX,
        ensures
            r == self.data_start + info.offset,
    {
        self.data_start + info.offset
    }

    /// Borrows `len` bytes at an offset in the file.
    pub fn slice_at(&self, offset: u64, len: usize) -> (r: Result<&'a [u8], String>)
        ensures
            match r {
                Ok(s) => offset + len <= self.file().len() && s@ == self.file().subrange(
                    offset as int,
                    offset + len,
                ),
                Err(m) => offset + len > self.file().len() && m@ == slice_error(
                    offset as nat,
                    len as nat,
                    self.file().len(),
                ),
            },
    {
        let size: usize = self.map.len();
        if offset > usize::MAX as u64 {
            let mut m = "slice_at: offset ".to_owned();
            text::push_decimal(&mut m, offset);
            m.append(" does not fit usize");
            return Err(m);
        }
        let start: usize = offset as usize;
        if len > usize::MAX - start {
            let mut m = "slice_at: ".to_owned();
            text::push_decimal(&mut m, offset);
            m.append("+");
            text::push_decimal(&mut m, len as u64);
            m.append(" overflows");
            return Err(m);
        }
        let end: usize = start + len;
        if end > size {
            let mut m = "slice_at: ".to_owned();
            text::push_decimal(&mut m, offset);
            m.append("..");
            text::push_decimal(&mut m, end as u64);
            m.append(" past mmap end ");
            text::push_decimal(&mut m, size as u64);
            return Err(m);
        }
        Ok(slice_subrange(self.map, start, end))
    }

    /// Borrows the whole payload of a tensor.
    pub fn payload_slice(&self, info: &TensorInfo) -> (r: Result<&'a [u8], String>)
        requires
            product_fits(info.dims@),
            info@.nbytes() <= usize::MAX,
            self.data_start + info.offset <= u64::MAX,
        ensures
            match r {
                Ok(s) => {
                    let at = self.data_start + info.offset;
                    at + info@.nbytes() <= self.file().len() && s@ == self.file().subrange(
                        at,
                        at + info@.nbytes(),
                    )
                },
                Err(m) => self.data_start + info.offset + info@.nbytes() > self.file().len() && m@
                    == slice_error(
                    (self.data_start + info.offset) as nat,
                    info@.nbytes(),
                    self.file().len(),
                ),
            },
    {
        self.slice_at(self.tensor_data_offset(info), self.tensor_nbytes(info) as usize)
    }

    /// Reads bytes at an offset in the file into the whole of `buf`.
    pub fn read_bytes(&self, offset: u64, buf: &mut Vec<u8>) -> (r: Result<(), String>)
        ensures
            match r {
                Ok(_) => offset + old(buf)@.len() <= self.file().len() && final(buf)@
                    == self.file().subrange(offset as int, offset + old(buf)@.len()),
                Err(m) => offset + old(buf)@.len() > self.file().len() && final(buf)@ == old(buf)@
                    && m@ == slice_error(offset as nat, old(buf)@.len(), self.file().len()),
            },
    {
        let s: &[u8] = match self.slice_at(offset, buf.len()) {
            Ok(s) => s,
            Err(m) => {
                return Err(m);
            },
        };
        *buf = slice_to_vec(s);
        Ok(())
    }
}

/// What a failed slice of `len` bytes at `offset` of a file of `size` bytes reports.
pub open spec fn slice_error(offset: nat, len: nat, size: nat) -> Seq<char> {
    if offset > usize::MAX {
        "slice_at: offset "@ + text::decimal(offset) + " does not fit usize"@
    } else if offset + len > usize::MAX {
        "slice_at: "@ + text::decimal(offset) + "+"@ + text::decimal(len) + " overflows"@
    } else {
        "slice_at: "@ + text::decimal(offset) + ".."@ + text::decimal(offset + len)
            + " past mmap end "@ + text::decimal(size)
    }
}

/// Where the `k`-th tensor belongs in a contiguous data section: behind the padded sizes of
/// those before it.
pub open spec fn running(tensors: Seq<TensorV>, k: int) -> nat
    decreases k,
{
    if k <= 0 {
        0
    } else {
        running(tensors, k - 1) + aligned(tensors[k - 1].nbytes() as int, 32) as nat
    }
}

/// The first `k` tensors stand where a contiguous data section puts them.
pub open spec fn chained(tensors: Seq<TensorV>, k: int) -> bool {
    forall|j: int| 0 <= j < k ==> (#[trigger] tensors[j]).offset == running(tensors, j)
}

/// Every size that a walk along the chain meets is representable.
pub open spec fn chain_fits(tensors: Seq<TensorV>) -> bool {
    forall|k: int|
        0 <= k < tensors.len() && chained(tensors, k + 1) ==> (#[trigger] tensors[k]).fits()
            && running(tensors, k + 1) <= u64::MAX
}

impl<'a> GGUF<'a> {
    /// Verifies that the tensor offsets form a contiguous, aligned chain and that the data
    /// section fits in the file. Returns the size of the data section and that of the file.
    pub fn check_layout(&self) -> (r: Result<(u64, u64), String>)
        requires
            chain_fits(tensors_view(self.tensors@)),
            self.data_start + 32 <= u64::MAX,
        ensures
            ({
                let ts = tensors_view(self.tensors@);
                let n = ts.len() as int;
                let start = aligned(self.data_start as int, 32);
                let size = self.file().len();
                match r {
                    Ok((total, file_len)) => {
                        &&& chained(ts, n)
                        &&& total == running(ts, n)
                        &&& file_len == size
                        &&& start + total <= size
                    },
                    Err(m) => {
                        ||| exists|k: int|
                            0 <= k < n && #[trigger] chained(ts, k) && ts[k].offset != running(ts, k)
                                && m@ == "tensor '"@ + ts[k].name + "' offset "@ + text::decimal(
                                ts[k].offset as nat,
                            ) + " != expected "@ + text::decimal(running(ts, k))
                        ||| chained(ts, n) && start + running(ts, n) > u64::MAX && m@ == "overflow"@
                        ||| chained(ts, n) && size < start + running(ts, n) <= u64::MAX && m@
                            == "data section ends at "@ + text::decimal(
                            (start + running(ts, n)) as nat,
                        ) + ", file is only "@ + text::decimal(size) + " bytes"@
                    },
                }
            }),
    {
        let file_len: u64 = self.map.len() as u64;
        let ghost ts = tensors_view(self.tensors@);
        let mut expected: u64 = 0;
        let mut i: usize = 0;
        while i < self.tensors.len()
            invariant
                i <= self.tensors@.len(),
                ts == tensors_view(self.tensors@),
                chain_fits(ts),
                chained(ts, i as int),
                expected == running(ts, i as int),
            decreases self.tensors@.len() - i,
        {
            let t = &self.tensors[i];
            assert(ts[i as int] == t@);
            if t.offset != expected {
                let mut m = "tensor '".to_owned();
                m.append(t.name.as_str());
                m.append("' offset ");
                text::push_decimal(&mut m, t.offset);
                m.append(" != expected ");
                text::push_decimal(&mut m, expected);
                return Err(m);
            }
            assert(chained(ts, i + 1));
            assert(ts[i as int].fits());
            let size: u64 = self.tensor_nbytes(t);
            expected = expected + align_up(size, 32);
            i += 1;
        }
        let start: u64 = align_up(self.data_start, 32);
        if expected > u64::MAX - start {
            return Err("overflow".to_owned());
        }
        let data_end: u64 = start + expected;
        if data_end > file_len {
            let mut m = "data section ends at ".to_owned();
            text::push_decimal(&mut m, data_end);
            m.append(", file is only ");
            text::push_decimal(&mut m, file_len);
            m.append(" bytes");
            return Err(m);
        }
        Ok((expected, file_len))
    }
}

impl Value {
    pub fn as_str(&self) -> (r: Option<&str>)
        ensures
            match r {
                Some(s) => self@ == ValueV::Str(s@),
                None => !(self is Str),
            },
    {
        match self {
            Value::Str(s) => Some(s.as_str()),
            _ => None,
        }
    }

    pub fn as_u32(&self) -> (r: Option<u32>)
        ensures
            r == self@.as_u32(),
    {
        match self {
            Value::U32(v) => Some(*v),
            Value::I32(v) => Some(*v as u32),
            _ => None,
        }
    }

    /// The bit pattern of a single-precision value.
    pub fn as_f32(&self) -> (r: Option<u32>)
        ensures
            r == self@.as_f32(),
    {
        match self {
            Value::F32(v) => Some(*v),
            _ => None,
        }
    }

    pub fn as_bool(&self) -> (r: Option<bool>)
        ensures
            r == self@.as_bool(),
    {
        match self {
            Value::Bool(v) => Some(*v),
            _ => None,
        }
    }

    pub fn as_u64(&self) -> (r: Option<u64>)
        ensures
            r == self@.as_u64(),
    {
        match self {
            Value::U64(v) => Some(*v),
            Value::I64(v) => Some(*v as u64),
            Value::U32(v) => Some(*v as u64),
            Value::I32(v) => Some(*v as u64),
            Value::U16(v) => Some(*v as u64),
            Value::I16(v) => Some(*v as u64),
            Value::U8(v) => Some(*v as u64),
            Value::I8(v) => Some(*v as u64),
            _ => None,
        }
    }

    pub fn as_array(&self) -> (r: Option<&Vec<Value>>)
        ensures
            match r {
                Some(items) => self matches Value::Array { items: x, .. } && *items == x,
                None => !(self is Array),
            },
    {
        match self {
            Value::Array { items, .. } => Some(items),
            _ => None,
        }
    }

    /// An equal value.
    pub fn copied(&self) -> (r: Value)
        ensures
            r@ == self@,
        decreases self,
    {
        match self {
            Value::U8(x) => Value::U8(*x),
            Value::I8(x) => Value::I8(*x),
            Value::U16(x) => Value::U16(*x),
            Value::I16(x) => Value::I16(*x),
            Value::U32(x) => Value::U32(*x),
            Value::I32(x) => Value::I32(*x),
            Value::F32(x) => Value::F32(*x),
            Value::Bool(x) => Value::Bool(*x),
            Value::Str(x) => Value::Str(x.clone()),
            Value::U64(x) => Value::U64(*x),
            Value::I64(x) => Value::I64(*x),
            Value::F64(x) => Value::F64(*x),
            Value::Array { elem_type, items } => {
                let mut out: Vec<Value> = Vec::new();
                let mut i: usize = 0;
                while i < items.len()
                    invariant
                        i <= items@.len(),
                        self matches Value::Array { items: x, .. } && items == x,
                        values_view(out@) == values_view(items@).take(i as int),
                    decreases items@.len() - i,
                {
                    let v = items[i].copied();
                    let ghost before = out@;
                    out.push(v);
                    i += 1;
                    proof {
                        let all = values_view(items@);
                        assert(all.take(i as int) =~= all.take(i - 1).push(all[i - 1]));
                        assert(values_view(out@) =~= values_view(before).push(v@));
                    }
                }
                let r = Value::Array { elem_type: *elem_type, items: out };
                proof {
                    assert(values_view(items@).take(i as int) =~= values_view(items@));
                    assert(r@->items =~= values_view(out@));
                    assert(self@->items =~= values_view(items@));
                }
                r
            },
        }
    }
}

impl ValueV {
    pub open spec fn as_u32(self) -> Option<u32> {
        match self {
            ValueV::U32(v) => Some(v),
            ValueV::I32(v) => Some(v as u32),
            _ => None,
        }
    }

    pub open spec fn as_f32(self) -> Option<u32> {
        match self {
            ValueV::F32(v) => Some(v),
            _ => None,
        }
    }

    pub open spec fn as_bool(self) -> Option<bool> {
        match self {
            ValueV::Bool(v) => Some(v),
            _ => None,
        }
    }

    /// The integer, sign-extended to 64 bits where the type is signed.
    pub open spec fn as_u64(self) -> Option<u64> {
        match self {
            ValueV::U64(v) => Some(v),
            ValueV::I64(v) => Some(v as u64),
            ValueV::U32(v) => Some(v as u64),
            ValueV::I32(v) => Some(v as u64),
            ValueV::U16(v) => Some(v as u64),
            ValueV::I16(v) => Some(v as u64),
            ValueV::U8(v) => Some(v as u64),
            ValueV::I8(v) => Some(v as u64),
            _ => None,
        }
    }
}

/// The single `r` is `code - 1` times the half `h`, as IEEE multiplication has it. The product
/// is exact; of a NaN only that it is one is said.
pub open spec fn times_half(code: int, h: u16, r: u32) -> bool {
    let k = if code == 0 {
        1
    } else {
        code - 1
    };
    let sign = (h as int / 0x8000 + if code == 0 {
        1int
    } else {
        0int
    }) % 2;
    let nan = half::half_exp(h) == 0x1f && (half::half_man(h) != 0 || code == 1);
    &&& !nan ==> r as int / 0x8000_0000 == sign
    &&& half::half_exp(h) < 0x1f ==> half::f32_exp(r) < 0xff && half::f32_mag(r) == k
        * half::half_mag(h as int % 0x8000) * half::half_unit()
    &&& half::half_exp(h) == 0x1f ==> half::f32_exp(r) == 0xff && (half::f32_man(r) != 0) == nan
}

/// Multiplies a ternary code, less one, by a half-precision scale.
#[verifier::spinoff_prover]
pub fn pq2_value(code: u8, h: u16) -> (r: u32)
    requires
        code < 4,
    ensures
        times_half(code as int, h, r),
{
    let w: u32 = half::half_to_f32(h);
    let sign: u32 = w / 0x8000_0000;
    let body: u32 = w % 0x8000_0000;
    proof {
        let m = half::half_mag(h as int % 0x8000);
        let u = half::half_unit();
        assert(1 * m * u == m * u && 0 * m * u == 0) by (nonlinear_arith);
        assert(2 * m * u == 2 * (m * u)) by (nonlinear_arith);
        assert(h as int % 0x8000 / 0x400 == half::half_exp(h));
        assert(h as int % 0x8000 % 0x400 == half::half_man(h));
    }
    if body >= 0x7f80_0000 {
        if body > 0x7f80_0000 || code == 1 {
            return 0x7fc0_0000;
        }
        if code == 0 {
            return (1 - sign) * 0x8000_0000 + body;
        }
        return w;
    }
    if code == 0 {
        return (1 - sign) * 0x8000_0000 + body;
    }
    if code == 1 {
        return sign * 0x8000_0000;
    }
    if code == 2 || body == 0 {
        return w;
    }
    proof {
        half::lemma_half_is_normal(h, w);
        let e = half::f32_exp(w);
        let f = 0x80_0000 + half::f32_man(w);
        vstd::arithmetic::power2::lemma_pow2_unfold(e as nat);
        let x = vstd::arithmetic::power2::pow2((e - 1) as nat) as int;
        assert(f * (2 * x) == 2 * (f * x)) by (nonlinear_arith);
        let r = (w + 0x80_0000) as u32;
        assert(half::f32_exp(r) == e + 1 && half::f32_man(r) == half::f32_man(w));
        assert(half::f32_mag(w) == f * x);
        assert(half::f32_mag(r) == f * (2 * x));
    }
    w + 0x80_0000
}

/// The 2-bit code of element `j` of the block that starts at `b[base]`.
pub open spec fn pq2_code(b: Seq<u8>, base: int, j: int) -> int {
    let byte = b[base + 2 + j / 4] as int;
    if j % 4 == 0 {
        byte % 4
    } else if j % 4 == 1 {
        byte / 4 % 4
    } else if j % 4 == 2 {
        byte / 16 % 4
    } else {
        byte / 64
    }
}

/// `r` is element `elem` of the ternary tensor whose blocks start at `b[base]`: blocks of 128
/// elements, a half-precision scale and 32 bytes of codes each.
pub open spec fn pq2_elem(b: Seq<u8>, base: int, elem: int, r: u32) -> bool {
    let at = base + elem / 128 * 34;
    times_half(pq2_code(b, at, elem % 128), le::le_nat(b, at, 2) as u16, r)
}

/// The columns of a tensor; one without dimensions is a single element.
pub open spec fn columns(dims: Seq<u64>) -> int {
    if dims.len() == 0 {
        1
    } else {
        dims[0] as int
    }
}

/// The blocks of a ternary row of `c` columns.
pub open spec fn row_blocks(c: int) -> int {
    (c + 127) / 128
}

/// The block that holds element `e` of a ternary tensor of `c` columns, whose rows are each whole
/// blocks.
pub open spec fn block_at(c: int, e: int) -> int {
    e / c * row_blocks(c) + e % c / 128
}

/// `r` is element `e` of the ternary tensor of `c` columns at `base`: the element of its row.
pub open spec fn pq2_at(b: Seq<u8>, base: int, c: int, e: int, r: u32) -> bool {
    pq2_elem(b, base + e / c * row_blocks(c) * 34, e % c, r)
}

/// Elements that follow one another stand in blocks that do, and all stand in the tensor's rows.
proof fn lemma_block_at(c: int, rows: int, e: int, f: int)
    requires
        c > 0,
        0 <= e <= f < c * rows,
    ensures
        0 <= block_at(c, e) <= block_at(c, f),
        block_at(c, f) + 1 <= rows * row_blocks(c),
{
    let b = row_blocks(c);
    vstd::arithmetic::div_mod::lemma_fundamental_div_mod(e, c);
    vstd::arithmetic::div_mod::lemma_fundamental_div_mod(f, c);
    vstd::arithmetic::div_mod::lemma_mod_bound(e, c);
    vstd::arithmetic::div_mod::lemma_mod_bound(f, c);
    vstd::arithmetic::div_mod::lemma_div_is_ordered(e, f, c);
    let (x, i) = (e / c, e % c);
    let (y, j) = (f / c, f % c);
    assert(x >= 0) by (nonlinear_arith)
        requires
            e == c * x + i,
            0 <= e,
            0 <= i < c,
            c > 0,
    ;
    assert(y < rows) by (nonlinear_arith)
        requires
            f == c * y + j,
            f < c * rows,
            0 <= j,
            c > 0,
    ;
    assert(i / 128 + 1 <= b && j / 128 + 1 <= b);
    assert(0 <= x * b) by (nonlinear_arith)
        requires
            0 <= x,
            0 <= b,
    ;
    assert((y + 1) * b <= rows * b) by (nonlinear_arith)
        requires
            y + 1 <= rows,
            0 <= b,
    ;
    assert((y + 1) * b == y * b + b) by (nonlinear_arith);
    if x < y {
        assert((x + 1) * b <= y * b) by (nonlinear_arith)
            requires
                x + 1 <= y,
                0 <= b,
        ;
        assert((x + 1) * b == x * b + b) by (nonlinear_arith);
    } else {
        assert(x == y);
    }
}

/// The blocks of all elements of a ternary tensor are all its bytes.
proof fn lemma_all_blocks(dims: Seq<u64>)
    requires
        product(dims) > 0,
    ensures
        block_at(columns(dims), 0) == 0,
        (block_at(columns(dims), product(dims) - 1) + 1) * 34 == shape_bytes(TYPE_PQ2_0, dims),
{
    let c = columns(dims);
    let n = product(dims) as int;
    let rows = if dims.len() == 0 {
        1
    } else {
        product(dims.skip(1)) as int
    };
    if dims.len() > 0 {
        lemma_product_first(dims);
    }
    assert(n == c * rows);
    assert(c > 0 && rows > 0) by (nonlinear_arith)
        requires
            c * rows > 0,
            c >= 0,
            rows >= 0,
    ;
    vstd::arithmetic::div_mod::lemma_div_of0(c);
    vstd::arithmetic::div_mod::lemma_small_mod(0, c as nat);
    assert(n - 1 == (rows - 1) * c + (c - 1)) by (nonlinear_arith)
        requires
            n == c * rows,
    ;
    vstd::arithmetic::div_mod::lemma_fundamental_div_mod_converse(n - 1, c, rows - 1, c - 1);
    let b = row_blocks(c);
    assert((c - 1) / 128 + 1 == b);
    assert((rows - 1) * b + b == rows * b) by (nonlinear_arith);
    assert(0 * b == 0) by (nonlinear_arith);
    assert(rows * (b * 34) == (rows * b) * 34) by (nonlinear_arith);
}

/// What decoding a window of a ternary tensor of `c` columns does.
pub open spec fn pq2_window(
    file: Seq<u8>,
    base: int,
    c: int,
    ne: nat,
    start: int,
    count: int,
    r: Result<Vec<u32>, String>,
) -> bool {
    let first = block_at(c, start);
    let last = block_at(c, start + count - 1);
    match r {
        Ok(out) => {
            &&& start + count <= ne
            &&& base + (last + 1) * 34 <= file.len()
            &&& out@.len() == count
            &&& forall|i: int| 0 <= i < count ==> pq2_at(file, base, c, start + i, #[trigger] out@[i])
        },
        Err(m) => if start + count > ne {
            m@ == "decode_pq2_0: range out of bounds ("@ + text::decimal(start as nat) + "+"@
                + text::decimal(count as nat) + " > "@ + text::decimal(ne) + ")"@
        } else {
            &&& base + (last + 1) * 34 > file.len()
            &&& m@ == slice_error(
                (base + first * 34) as nat,
                ((last + 1 - first) * 34) as nat,
                file.len(),
            )
        },
    }
}

/// Why the tensor `t`, whose data starts at `base`, cannot be decoded.
pub open spec fn read_error(file: Seq<u8>, base: int, t: TensorV) -> Option<Seq<char>> {
    if product(t.dims) == 0 {
        None
    } else if t.ty == TYPE_F32 || t.ty == TYPE_F16 || t.ty == TYPE_PQ2_0 {
        if base + t.nbytes() <= file.len() {
            None
        } else {
            Some(slice_error(base as nat, t.nbytes(), file.len()))
        }
    } else {
        Some("read_tensor: unsupported type "@ + text::decimal(t.ty as nat))
    }
}

/// `r` is element `i` of the tensor `t`, whose data starts at `base`.
pub open spec fn elem_at(file: Seq<u8>, base: int, t: TensorV, i: int, r: u32) -> bool {
    if t.ty == TYPE_F32 {
        r as nat == le::le_nat(file, base + 4 * i, 4)
    } else if t.ty == TYPE_F16 {
        half::widens(le::le_nat(file, base + 2 * i, 2) as u16, r)
    } else {
        pq2_at(file, base, columns(t.dims), i, r)
    }
}

/// What decoding a whole tensor does.
pub open spec fn reads(
    file: Seq<u8>,
    base: int,
    t: TensorV,
    r: Result<Vec<u32>, String>,
) -> bool {
    match r {
        Ok(out) => {
            &&& read_error(file, base, t) is None
            &&& out@.len() == product(t.dims)
            &&& forall|i: int|
                0 <= i < product(t.dims) ==> elem_at(file, base, t, i, #[trigger] out@[i])
        },
        Err(m) => read_error(file, base, t) == Some(m@),
    }
}

impl<'a> GGUF<'a> {
    /// Decodes `count` elements of a ternary tensor from element `elem_start` on.
    fn decode_pq2_0(&self, info: &TensorInfo, elem_start: usize, count: usize) -> (r: Result<
        Vec<u32>,
        String,
    >)
        requires
            product_fits(info.dims@),
            product(info.dims@) <= usize::MAX,
            elem_start + count <= usize::MAX,
            count > 0,
            self.data_start + info.offset + info@.nbytes() <= u64::MAX,
            info@.nbytes() <= usize::MAX,
        ensures
            if info.ty != TYPE_PQ2_0 {
                r matches Err(m) && m@ == "decode_pq2_0: not PQ2_0"@
            } else {
                pq2_window(
                    self.file(),
                    self.data_start + info.offset,
                    columns(info.dims@),
                    product(info.dims@),
                    elem_start as int,
                    count as int,
                    r,
                )
            },
    {
        if info.ty != TYPE_PQ2_0 {
            return Err("decode_pq2_0: not PQ2_0".to_owned());
        }
        let ne: usize = info.n_elem() as usize;
        if elem_start + count > ne {
            let mut m = "decode_pq2_0: range out of bounds (".to_owned();
            text::push_decimal(&mut m, elem_start as u64);
            m.append("+");
            text::push_decimal(&mut m, count as u64);
            m.append(" > ");
            text::push_decimal(&mut m, ne as u64);
            m.append(")");
            return Err(m);
        }
        let c: usize = if info.dims.len() == 0 {
            1
        } else {
            info.dims[0] as usize
        };
        let ghost rows = if info.dims@.len() == 0 {
            1
        } else {
            product(info.dims@.skip(1)) as int
        };
        proof {
            if info.dims@.len() > 0 {
                lemma_product_first(info.dims@);
                let (x, m) = (info.dims@[0] as int, rows);
                assert(x > 0 && m > 0 && x <= x * m) by (nonlinear_arith)
                    requires
                        x * m > 0,
                        x >= 0,
                        m >= 0,
                ;
            } else {
                assert(ne == 1);
            }
            assert(c == columns(info.dims@) && c > 0);
            assert(ne == c * rows);
        }
        let per: usize = if c % 128 == 0 {
            c / 128
        } else {
            c / 128 + 1
        };
        let end: usize = elem_start + count - 1;
        proof {
            assert(per == row_blocks(c as int));
            lemma_block_at(c as int, rows, elem_start as int, end as int);
            assert(info@.nbytes() == (rows * per) * 34) by {
                let (r, p) = (rows, per as int);
                assert(r * (p * 34) == (r * p) * 34) by (nonlinear_arith);
            }
            let (x, y) = (elem_start as int / c as int, end as int / c as int);
            vstd::arithmetic::div_mod::lemma_div_pos_is_pos(elem_start as int, c as int);
            vstd::arithmetic::div_mod::lemma_div_pos_is_pos(end as int, c as int);
            assert(0 <= x * per && 0 <= y * per) by (nonlinear_arith)
                requires
                    0 <= x,
                    0 <= y,
                    0 <= per,
            ;
        }
        let first: usize = elem_start / c * per + elem_start % c / 128;
        let last: usize = end / c * per + end % c / 128;
        let blocks: usize = last - first + 1;
        proof {
            assert(first == block_at(c as int, elem_start as int));
            assert(last == block_at(c as int, end as int));
            assert((first + blocks) * 34 <= info@.nbytes());
        }
        let base: u64 = self.tensor_data_offset(info);
        let buf: &[u8] = match self.slice_at(base + first as u64 * 34, blocks * 34) {
            Ok(s) => s,
            Err(m) => {
                return Err(m);
            },
        };
        let ghost file = self.file();
        let mut out: Vec<u32> = Vec::new();
        let mut i: usize = 0;
        while i < count
            invariant
                i <= count,
                elem_start + count <= usize::MAX,
                c > 0,
                per == row_blocks(c as int),
                elem_start + count <= c * rows,
                first == block_at(c as int, elem_start as int),
                last == block_at(c as int, elem_start + count - 1),
                first <= last,
                blocks == last - first + 1,
                (last + 1) * 34 <= usize::MAX,
                file == self.file(),
                base == self.data_start + info.offset,
                base + (last + 1) * 34 <= file.len(),
                buf@ == file.subrange(base + first * 34, base + (last + 1) * 34),
                out@.len() == i,
                forall|k: int|
                    0 <= k < i ==> pq2_at(
                        file,
                        base as int,
                        c as int,
                        elem_start + k,
                        #[trigger] out@[k],
                    ),
            decreases count - i,
        {
            let elem: usize = elem_start + i;
            proof {
                let e = elem_start + count - 1;
                lemma_block_at(c as int, rows, elem_start as int, elem as int);
                lemma_block_at(c as int, rows, elem as int, e);
                let x = elem as int / c as int;
                vstd::arithmetic::div_mod::lemma_div_pos_is_pos(elem as int, c as int);
                assert(0 <= x * per) by (nonlinear_arith)
                    requires
                        0 <= x,
                        0 <= per,
                ;
            }
            let row: usize = elem / c * per;
            let col: usize = elem % c;
            let b: usize = row + col / 128 - first;
            let j: usize = col % 128;
            let at: usize = b * 34;
            assert(b < blocks);
            assert(at + 34 <= buf@.len());
            proof {
                let g = base + row * 34 + col / 128 * 34;
                assert(g == base + first * 34 + at);
                assert(buf@.subrange(at as int, at + 2) =~= file.subrange(g, g + 2));
                le::lemma_le_nat_local(buf@, at as int, file, g, 2);
                le::lemma_pow256();
            }
            let scale: u16 = le::read_le(buf, at, 2) as u16;
            let byte: u8 = buf[at + 2 + j / 4];
            let code: u8 = if j % 4 == 0 {
                byte % 4
            } else if j % 4 == 1 {
                byte / 4 % 4
            } else if j % 4 == 2 {
                byte / 16 % 4
            } else {
                byte / 64
            };
            let v: u32 = pq2_value(code, scale);
            out.push(v);
            assert(pq2_elem(file, base + row * 34, col as int, v));
            assert(pq2_at(file, base as int, c as int, elem as int, v));
            i += 1;
        }
        Ok(out)
    }

    /// Decodes `count` elements of a ternary tensor from element `elem_start` on, touching only
    /// the blocks that hold them.
    pub fn read_pq2_0_range(&self, info: &TensorInfo, elem_start: usize, count: usize) -> (r:
        Result<Vec<u32>, String>)
        requires
            product_fits(info.dims@),
            product(info.dims@) <= usize::MAX,
            elem_start + count <= usize::MAX,
            self.data_start + info.offset + info@.nbytes() <= u64::MAX,
            info@.nbytes() <= usize::MAX,
        ensures
            if count == 0 {
                r matches Ok(out) && out@.len() == 0
            } else if info.ty != TYPE_PQ2_0 {
                r matches Err(m) && m@ == "decode_pq2_0: not PQ2_0"@
            } else {
                pq2_window(
                    self.file(),
                    self.data_start + info.offset,
                    columns(info.dims@),
                    product(info.dims@),
                    elem_start as int,
                    count as int,
                    r,
                )
            },
    {
        if count == 0 {
            return Ok(Vec::new());
        }
        self.decode_pq2_0(info, elem_start, count)
    }

    /// Decodes the whole tensor into singles.
    pub fn read_tensor(&self, info: &TensorInfo) -> (r: Result<Vec<u32>, String>)
        requires
            product_fits(info.dims@),
            product(info.dims@) <= usize::MAX,
            self.data_start + info.offset + info@.nbytes() <= u64::MAX,
            info@.nbytes() <= usize::MAX,
        ensures
            reads(self.file(), self.data_start + info.offset, info@, r),
    {
        let n: usize = info.n_elem() as usize;
        if n == 0 {
            return Ok(Vec::new());
        }
        if info.ty == TYPE_PQ2_0 {
            proof {
                lemma_all_blocks(info.dims@);
            }
            return self.decode_pq2_0(info, 0, n);
        }
        if info.ty != TYPE_F32 && info.ty != TYPE_F16 {
            let mut m = "read_tensor: unsupported type ".to_owned();
            text::push_decimal(&mut m, info.ty as u64);
            return Err(m);
        }
        proof {
            lemma_shape_bytes(info.ty, info.dims@);
        }
        let buf: &[u8] = match self.payload_slice(info) {
            Ok(s) => s,
            Err(m) => {
                return Err(m);
            },
        };
        let w: usize = if info.ty == TYPE_F32 {
            4
        } else {
            2
        };
        let ghost base = self.data_start + info.offset;
        let ghost file = self.file();
        proof {
            if w == 4 {
                assert(info@.nbytes() == n * 4);
            } else {
                assert(info@.nbytes() == n * 2);
            }
        }
        let mut out: Vec<u32> = Vec::new();
        let mut i: usize = 0;
        while i < n
            invariant
                i <= n,
                w == 4 || w == 2,
                (w == 4) == (info.ty == TYPE_F32),
                buf@.len() == n * w,
                n * w <= usize::MAX,
                file == self.file(),
                base == self.data_start + info.offset,
                base + buf@.len() <= file.len(),
                buf@ == file.subrange(base, base + buf@.len()),
                out@.len() == i,
                forall|k: int|
                    0 <= k < i ==> if w == 4 {
                        (#[trigger] out@[k]) as nat == le::le_nat(file, base + 4 * k, 4)
                    } else {
                        half::widens(le::le_nat(file, base + 2 * k, 2) as u16, out@[k])
                    },
            decreases n - i,
        {
            assert(i * w + w <= n * w) by (nonlinear_arith)
                requires
                    i + 1 <= n,
            ;
            let at: usize = i * w;
            proof {
                assert(w == 4 ==> at == 4 * i) by (nonlinear_arith)
                    requires
                        at == i * w,
                ;
                assert(w == 2 ==> at == 2 * i) by (nonlinear_arith)
                    requires
                        at == i * w,
                ;
                let g = base + at;
                assert(buf@.subrange(at as int, at + w) =~= file.subrange(g, g + w));
                le::lemma_le_nat_local(buf@, at as int, file, g, w as nat);
                le::lemma_pow256();
            }
            let x: u64 = le::read_le(buf, at, w);
            if w == 4 {
                out.push(x as u32);
            } else {
                out.push(half::half_to_f32(x as u16));
            }
            i += 1;
        }
        Ok(out)
    }
}

} // verus!
