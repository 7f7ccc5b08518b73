//! Repacking a sidecar: its wide matrices become ternary, and tensors that the target model has
//! byte for byte are left to it.

use vstd::prelude::*;
use vstd::string::*;

use crate::dspark;
use crate::gdev_open;
use crate::gguf;
use crate::gguf::{
    Entry,
    HeaderV,
    TensorInfo,
    TensorV,
    Value,
    ValueV,
    GGUF,
    TYPE_BF16,
    TYPE_PQ2_0,
    TYPE_Q4_1,
};
use crate::gguf_write;
use crate::kernels;
use crate::text;

verus! {

// ---- what is kept -----------------------------------------------------------------------------

/// A container: its header and its bytes.
pub struct FileV {
    pub h: HeaderV,
    pub bytes: Seq<u8>,
}

pub open spec fn begin_of(f: FileV, i: int) -> int {
    gguf_write::payload_begin(f.h, i)
}

pub open spec fn end_of(f: FileV, i: int) -> int {
    gguf_write::payload_end(f.h, i)
}

/// Why a tensor's bytes cannot be had.
pub open spec fn out_of_file(f: FileV, i: int) -> Seq<char> {
    gguf::slice_error(begin_of(f, i) as nat, f.h.tensors[i].nbytes(), f.bytes.len())
}

/// Whether tensor `i` is byte for byte that of the reference under its name.
pub open spec fn same_in(f: FileV, reference: Option<FileV>, i: int) -> Result<bool, Seq<char>> {
    let t = f.h.tensors[i];
    match reference {
        None => Ok(false),
        Some(r) => match gdev_open::first_named(r.h.tensors, t.name, 0) {
            None => Ok(false),
            Some(j) => if r.h.tensors[j].ty != t.ty || r.h.tensors[j].dims != t.dims {
                Ok(false)
            } else if end_of(f, i) > f.bytes.len() {
                Err(out_of_file(f, i))
            } else if end_of(r, j) > r.bytes.len() {
                Err(out_of_file(r, j))
            } else {
                Ok(
                    f.bytes.subrange(begin_of(f, i), end_of(f, i)) == r.bytes.subrange(
                        begin_of(r, j),
                        end_of(r, j),
                    ),
                )
            },
        },
    }
}

/// Of the first `k` tensors in data order, those that are kept, and the names of the others.
pub open spec fn sorted_out(f: FileV, reference: Option<FileV>, order: Seq<int>, k: int) -> Result<
    (Seq<int>, Seq<Seq<char>>),
    Seq<char>,
>
    decreases k,
{
    if k <= 0 {
        Ok((Seq::empty(), Seq::empty()))
    } else {
        let i = order[k - 1];
        match sorted_out(f, reference, order, k - 1) {
            Err(e) => Err(e),
            Ok((kept, shared)) => match same_in(f, reference, i) {
                Err(e) => Err(e),
                Ok(true) => Ok((kept, shared.push(f.h.tensors[i].name))),
                Ok(false) => Ok((kept.push(i), shared)),
            },
        }
    }
}

/// A tensor becomes ternary: a 4-bit or brain-float matrix whose rows are whole blocks.
pub open spec fn convertible(t: TensorV) -> bool {
    let ne0 = dspark::columns(t);
    &&& t.ty == TYPE_Q4_1 || t.ty == TYPE_BF16
    &&& ne0 > 0
    &&& ne0 % 128 == 0
    &&& gguf::product(t.dims) % 128 == 0
}

pub open spec fn new_type(t: TensorV) -> u32 {
    if convertible(t) {
        TYPE_PQ2_0
    } else {
        t.ty
    }
}

/// The records of the tensors that are kept.
pub open spec fn new_tensors(ts: Seq<TensorV>, kept: Seq<int>) -> Seq<TensorV> {
    Seq::new(
        kept.len(),
        |k: int|
            TensorV {
                name: ts[kept[k]].name,
                dims: ts[kept[k]].dims,
                ty: new_type(ts[kept[k]]),
                offset: 0,
            },
    )
}

/// How many of the first `k` kept tensors are converted.
pub open spec fn count_converted(ts: Seq<TensorV>, kept: Seq<int>, k: int) -> nat
    decreases k,
{
    if k <= 0 {
        0
    } else {
        count_converted(ts, kept, k - 1) + if convertible(ts[kept[k - 1]]) {
            1nat
        } else {
            0nat
        }
    }
}

/// The bytes of the first `k` tensors.
pub open spec fn sum_bytes(ts: Seq<TensorV>, k: int) -> nat
    decreases k,
{
    if k <= 0 {
        0
    } else {
        sum_bytes(ts, k - 1) + ts[k - 1].nbytes()
    }
}

// ---- metadata ---------------------------------------------------------------------------------

/// A sorted list with an entry put behind all that do not come after it.
pub open spec fn inserted(es: Seq<Entry>, e: Entry) -> Seq<Entry>
    decreases es.len(),
{
    if es.len() > 0 && text::str_lt(e.0, es.last().0) {
        inserted(es.drop_last(), e).push(es.last())
    } else {
        es.push(e)
    }
}

/// The list of shared tensors, as metadata.
pub open spec fn shared_entry(names: Seq<Seq<char>>) -> Entry {
    (
        "dspark.shared_tensors"@,
        ValueV::Array {
            elem_type: 8,
            items: Seq::new(names.len(), |i: int| ValueV::Str(names[i])),
        },
    )
}

/// The new metadata: the old one sorted, with the list of shared tensors where there are any.
pub open spec fn new_meta(
    meta: Seq<Entry>,
    keys: Seq<Seq<char>>,
    shared: Seq<Seq<char>>,
) -> Seq<Entry> {
    let sorted = gguf_write::keyed(meta, keys);
    if shared.len() > 0 {
        inserted(sorted, shared_entry(shared))
    } else {
        sorted
    }
}

// ---- the result -------------------------------------------------------------------------------

/// A payload of the new file: where it goes, and which bytes of the old one it is made of.
#[derive(Debug, Clone, Copy, PartialEq, Eq, Structural)]
pub struct NewPart {
    pub at: u64,
    pub begin: usize,
    pub end: usize,
    /// The type of the old bytes.
    pub ty: u32,
    /// The rows become ternary.
    pub ternary: bool,
    pub ne0: usize,
    pub rows: usize,
}

/// A repacked container.
#[derive(Debug)]
pub struct Repack {
    pub header: Vec<u8>,
    pub parts: Vec<NewPart>,
    /// Length of the new file.
    pub end: u64,
    pub converted: usize,
    pub shared: usize,
    pub bytes_in: u64,
    pub bytes_out: u64,
}

/// The part that holds tensor `i`.
pub open spec fn part_of(f: FileV, i: int, at: int, p: NewPart) -> bool {
    let t = f.h.tensors[i];
    &&& p.at == at
    &&& p.begin == begin_of(f, i)
    &&& p.end == end_of(f, i)
    &&& p.end <= f.bytes.len()
    &&& p.ty == t.ty
    &&& p.ternary == convertible(t)
    &&& p.ne0 == dspark::columns(t)
    &&& p.rows == dspark::rows(t)
}

/// `r` is the repacked container for the given orders.
pub open spec fn is_repack(
    f: FileV,
    keys: Seq<Seq<char>>,
    kept: Seq<int>,
    shared: Seq<Seq<char>>,
    r: Repack,
) -> bool {
    let meta = new_meta(f.h.meta, keys, shared);
    let ts = new_tensors(f.h.tensors, kept);
    let n = kept.len() as int;
    let header = gguf_write::header_bytes(f.h.version, meta, gguf_write::placed(ts));
    let start = gguf::aligned(header.len() as int, 32);
    &&& r.header@ == gguf_write::padded(header, start)
    &&& r.end == start + gguf::running(ts, n)
    &&& r.converted == count_converted(f.h.tensors, kept, n)
    &&& r.shared == shared.len()
    &&& r.bytes_in == sum_bytes(f.h.tensors, f.h.tensors.len() as int)
    &&& r.bytes_out == sum_bytes(ts, n)
    &&& r.parts@.len() == n
    &&& forall|k: int|
        0 <= k < n ==> part_of(f, kept[k], start + gguf::running(ts, k), #[trigger] r.parts@[k])
}

/// The new container does not fit in memory or in 64-bit offsets.
pub open spec fn too_large(
    f: FileV,
    keys: Seq<Seq<char>>,
    kept: Seq<int>,
    shared: Seq<Seq<char>>,
) -> bool {
    let ts = new_tensors(f.h.tensors, kept);
    let header = gguf_write::header_bytes(
        f.h.version,
        new_meta(f.h.meta, keys, shared),
        gguf_write::placed(ts),
    );
    header.len() + 32 + gguf::running(ts, ts.len() as int) > u64::MAX || header.len() + 32
        > usize::MAX
}

/// The `k`-th kept tensor is the first whose bytes are not all there, and `m` says so.
pub open spec fn first_cut(f: FileV, kept: Seq<int>, k: int, m: Seq<char>) -> bool {
    &&& 0 <= k < kept.len()
    &&& end_of(f, kept[k]) > f.bytes.len()
    &&& forall|i: int| 0 <= i < k ==> end_of(f, #[trigger] kept[i]) <= f.bytes.len()
    &&& m == f.h.tensors[kept[k]].name + ": source data out of range"@
}

/// The bytes of a kept tensor are not all there, and `m` names the first.
pub open spec fn cut_short(f: FileV, kept: Seq<int>, m: Seq<char>) -> bool {
    exists|k: int| #[trigger] first_cut(f, kept, k, m)
}

/// What repacking gives for the given orders.
pub open spec fn repacks_in_order(
    f: FileV,
    reference: Option<FileV>,
    keys: Seq<Seq<char>>,
    order: Seq<int>,
    r: Result<Repack, String>,
) -> bool {
    match sorted_out(f, reference, order, order.len() as int) {
        Err(e) => r matches Err(m) && m@ == e,
        Ok((kept, shared)) => match r {
            Ok(x) => is_repack(f, keys, kept, shared, x),
            Err(m) => {
                ||| too_large(f, keys, kept, shared) && m@
                    == "internal: header exceeded computed data start"@
                ||| cut_short(f, kept, m@)
            },
        },
    }
}

/// What repacking a container gives.
pub open spec fn repacks(f: FileV, reference: Option<FileV>, r: Result<Repack, String>) -> bool {
    exists|keys: Seq<Seq<char>>, order: Seq<int>|
        {
            &&& #[trigger] gguf_write::sorted_keys(f.h.meta, keys)
            &&& #[trigger] gguf_write::by_offset(f.h.tensors, order)
            &&& repacks_in_order(f, reference, keys, order, r)
        }
}

/// What repacking the bytes of a container gives.
pub open spec fn repacks_bytes(
    map: Seq<u8>,
    reference: Option<Seq<u8>>,
    r: Result<Repack, String>,
) -> bool {
    match gguf::header_of(map) {
        Err(e) => r matches Err(m) && m@ == e,
        Ok(h) => match reference {
            None => repacks(FileV { h, bytes: map }, None, r),
            Some(b) => match gguf::header_of(b) {
                Err(e) => r matches Err(m) && m@ == e,
                Ok(rh) => repacks(
                    FileV { h, bytes: map },
                    Some(FileV { h: rh, bytes: b }),
                    r,
                ),
            },
        },
    }
}

// ---- execution --------------------------------------------------------------------------------

/// A container that was opened, as its file.
pub open spec fn stands_for(g: GGUF, f: FileV) -> bool {
    &&& dspark::opened(g, f.bytes, f.h)
    &&& gguf_write::sizes_fit(f.h.tensors, gguf_write::data_start_of(f.h))
    &&& forall|i: int|
        0 <= i < g.tensors@.len() ==> (#[trigger] g.tensors@[i]).dims@.len() <= u32::MAX
}

pub open spec fn reference_stands(g: Option<GGUF>, f: Option<FileV>) -> bool {
    match (g, f) {
        (None, None) => true,
        (Some(g), Some(f)) => stands_for(g, f),
        _ => false,
    }
}

fn same_dims(a: &Vec<u64>, b: &Vec<u64>) -> (r: bool)
    ensures
        r == (a@ == b@),
{
    if a.len() != b.len() {
        return false;
    }
    let mut i: usize = 0;
    while i < a.len()
        invariant
            i <= a@.len(),
            a@.len() == b@.len(),
            forall|k: int| 0 <= k < i ==> a@[k] == b@[k],
        decreases a@.len() - i,
    {
        if a[i] != b[i] {
            return false;
        }
        i += 1;
    }
    assert(a@ =~= b@);
    true
}

fn same_bytes(a: &[u8], b: &[u8]) -> (r: bool)
    ensures
        r == (a@ == b@),
{
    if a.len() != b.len() {
        return false;
    }
    let mut i: usize = 0;
    while i < a.len()
        invariant
            i <= a@.len(),
            a@.len() == b@.len(),
            forall|k: int| 0 <= k < i ==> a@[k] == b@[k],
        decreases a@.len() - i,
    {
        if a[i] != b[i] {
            return false;
        }
        i += 1;
    }
    assert(a@ =~= b@);
    true
}

fn is_same(
    g: &GGUF,
    i: usize,
    reference: &Option<GGUF>,
    Ghost(f): Ghost<FileV>,
    Ghost(rf): Ghost<Option<FileV>>,
) -> (r: Result<bool, String>)
    requires
        stands_for(*g, f),
        reference_stands(*reference, rf),
        i < g.tensors@.len(),
    ensures
        match r {
            Ok(b) => same_in(f, rf, i as int) == Ok::<bool, Seq<char>>(b),
            Err(m) => same_in(f, rf, i as int) == Err::<bool, Seq<char>>(m@),
        },
{
    let t = &g.tensors[i];
    assert(f.h.tensors[i as int] == t@);
    let rg: &GGUF = match reference {
        None => return Ok(false),
        Some(rg) => rg,
    };
    let j: usize = match gdev_open::find_tensor(rg, t.name.as_str()) {
        Some(j) => j,
        None => return Ok(false),
    };
    let rt = &rg.tensors[j];
    let ghost rv = rf->0;
    assert(rv.h.tensors[j as int] == rt@);
    if rt.ty != t.ty || !same_dims(&rt.dims, &t.dims) {
        return Ok(false);
    }
    assert(t@.fits() && rt@.fits());
    let a: &[u8] = match g.payload_slice(t) {
        Ok(a) => a,
        Err(m) => return Err(m),
    };
    let b: &[u8] = match rg.payload_slice(rt) {
        Ok(b) => b,
        Err(m) => return Err(m),
    };
    Ok(same_bytes(a, b))
}

/// The kept tensors and the names of the others.
struct Sorted {
    kept: Vec<usize>,
    shared: Vec<String>,
}

pub open spec fn as_ints(s: Seq<usize>) -> Seq<int> {
    s.map_values(|i: usize| i as int)
}

fn sort_out(
    g: &GGUF,
    order: &Vec<usize>,
    reference: &Option<GGUF>,
    Ghost(f): Ghost<FileV>,
    Ghost(rf): Ghost<Option<FileV>>,
) -> (r: Result<Sorted, String>)
    requires
        stands_for(*g, f),
        reference_stands(*reference, rf),
        gguf_write::by_offset(f.h.tensors, as_ints(order@)),
    ensures
        ({
            let s = sorted_out(f, rf, as_ints(order@), order@.len() as int);
            match r {
                Ok(x) => s == Ok::<(Seq<int>, Seq<Seq<char>>), Seq<char>>(
                    (as_ints(x.kept@), dspark::names_view(x.shared@)),
                ) && forall|k: int|
                    0 <= k < x.kept@.len() ==> #[trigger] x.kept@[k] < g.tensors@.len(),
                Err(m) => s == Err::<(Seq<int>, Seq<Seq<char>>), Seq<char>>(m@),
            }
        }),
{
    let ghost ord = as_ints(order@);
    let n: usize = order.len();
    let mut kept: Vec<usize> = Vec::new();
    let mut shared: Vec<String> = Vec::new();
    let mut k: usize = 0;
    assert(as_ints(kept@) =~= Seq::<int>::empty());
    assert(dspark::names_view(shared@) =~= Seq::<Seq<char>>::empty());
    while k < n
        invariant
            k <= n,
            n == order@.len(),
            stands_for(*g, f),
            reference_stands(*reference, rf),
            ord == as_ints(order@),
            gguf_write::by_offset(f.h.tensors, ord),
            sorted_out(f, rf, ord, k as int) == Ok::<(Seq<int>, Seq<Seq<char>>), Seq<char>>(
                (as_ints(kept@), dspark::names_view(shared@)),
            ),
            forall|i: int| 0 <= i < kept@.len() ==> #[trigger] kept@[i] < g.tensors@.len(),
        decreases n - k,
    {
        let i: usize = order[k];
        assert(ord[k as int] == i);
        assert(0 <= ord[k as int] < f.h.tensors.len());
        match is_same(g, i, reference, Ghost(f), Ghost(rf)) {
            Err(m) => {
                proof {
                    lemma_error_stays(f, rf, ord, k + 1, n as int, m@);
                }
                return Err(m);
            },
            Ok(same) => {
                if same {
                    let ghost before = shared@;
                    let name: String = g.tensors[i].name.as_str().to_owned();
                    shared.push(name);
                    assert(dspark::names_view(shared@) =~= dspark::names_view(before).push(name@));
                } else {
                    let ghost before = kept@;
                    kept.push(i);
                    assert(as_ints(kept@) =~= as_ints(before).push(i as int));
                }
            },
        }
        k += 1;
    }
    Ok(Sorted { kept, shared })
}

proof fn lemma_error_stays(
    f: FileV,
    rf: Option<FileV>,
    order: Seq<int>,
    k: int,
    n: int,
    e: Seq<char>,
)
    requires
        0 <= k <= n,
        sorted_out(f, rf, order, k) == Err::<(Seq<int>, Seq<Seq<char>>), Seq<char>>(e),
    ensures
        sorted_out(f, rf, order, n) == Err::<(Seq<int>, Seq<Seq<char>>), Seq<char>>(e),
    decreases n - k,
{
    if k < n {
        lemma_error_stays(f, rf, order, k + 1, n, e);
    }
}

fn is_convertible(t: &TensorInfo) -> (r: bool)
    requires
        t@.fits(),
    ensures
        r == convertible(t@),
{
    let ne0: u64 = dspark::columns_of(t);
    (t.ty == TYPE_Q4_1 || t.ty == TYPE_BF16) && ne0 > 0 && ne0 % 128 == 0 && t.n_elem() % 128 == 0
}

/// A converted tensor takes no more bytes than before.
proof fn lemma_new_size(t: TensorV)
    requires
        t.fits(),
    ensures
        gguf::shape_bytes(new_type(t), t.dims) <= t.nbytes(),
{
    let n = gguf::product(t.dims) as int;
    gguf::lemma_shape_bytes(t.ty, t.dims);
    gguf::lemma_shape_bytes(new_type(t), t.dims);
    if convertible(t) {
        assert(n % 128 == 0);
        assert((n + 127) / 128 * 34 <= (n + 31) / 32 * 20);
    }
}

fn shared_value(names: &Vec<String>) -> (r: Value)
    ensures
        r@ == shared_entry(dspark::names_view(names@)).1,
{
    let mut items: Vec<Value> = Vec::new();
    let n: usize = names.len();
    let mut i: usize = 0;
    while i < n
        invariant
            i <= n,
            n == names@.len(),
            items@.len() == i,
            forall|k: int| 0 <= k < i ==> (#[trigger] items@[k])@ == ValueV::Str(names@[k]@),
        decreases n - i,
    {
        items.push(Value::Str(names[i].as_str().to_owned()));
        i += 1;
    }
    proof {
        gguf::lemma_array_view(8, items);
        let all = dspark::names_view(names@);
        assert(gguf::values_view(items@) =~= Seq::new(all.len(), |i: int| ValueV::Str(all[i])));
    }
    Value::Array { elem_type: 8, items }
}

/// Puts an entry behind all that do not come after it.
fn insert(list: &mut Vec<(String, Value)>, e: (String, Value))
    ensures
        gguf::entries_view(final(list)@) == inserted(
            gguf::entries_view(old(list)@),
            gguf::entry_view(e),
        ),
    decreases old(list)@.len(),
{
    let ghost first = list@;
    let ghost es = gguf::entries_view(first);
    let ghost ev = gguf::entry_view(e);
    let n: usize = list.len();
    if n > 0 && text::before(e.0.as_str(), list[n - 1].0.as_str()) {
        match list.pop() {
            Some(last) => {
                proof {
                    assert(gguf::entries_view(list@) =~= es.drop_last());
                    assert(es.last() == gguf::entry_view(last));
                }
                insert(list, e);
                let ghost before = list@;
                list.push(last);
                assert(gguf::entries_view(list@) =~= gguf::entries_view(before).push(
                    gguf::entry_view(last),
                ));
            },
            None => {},
        }
    } else {
        list.push(e);
        assert(gguf::entries_view(list@) =~= es.push(ev));
    }
}

/// The kept tensors' records and parts, before the header's size is known.
struct KeptPlan {
    records: Vec<TensorInfo>,
    parts: Vec<NewPart>,
    converted: usize,
    bytes_out: u64,
    size: u64,
    /// The first whose bytes are not all there; none if out of range.
    bad: usize,
    /// The sizes leave 64 bits.
    over: bool,
}

/// What the parts of a plan hold, where they count from the start of the data section.
spec fn planned(f: FileV, kept: Seq<int>, p: KeptPlan, k: int) -> bool {
    let ts = new_tensors(f.h.tensors, kept);
    &&& gguf::tensors_view(p.records@) == gguf_write::placed(ts).take(k)
    &&& forall|i: int|
        0 <= i < p.records@.len() ==> (#[trigger] p.records@[i]).dims@.len() <= u32::MAX
    &&& p.converted == count_converted(f.h.tensors, kept, k)
    &&& p.converted <= k
    &&& p.bytes_out == sum_bytes(ts, k)
    &&& p.size == gguf::running(ts, k)
    &&& p.bytes_out <= p.size
    &&& p.parts@.len() == k
    &&& forall|i: int|
        0 <= i < k ==> {
            let t = f.h.tensors[kept[i]];
            &&& (#[trigger] p.parts@[i]).at == gguf::running(ts, i)
            &&& p.parts@[i].begin == begin_of(f, kept[i])
            &&& p.parts@[i].end == end_of(f, kept[i])
            &&& p.parts@[i].ty == t.ty
            &&& p.parts@[i].ternary == convertible(t)
            &&& p.parts@[i].ne0 == dspark::columns(t)
            &&& p.parts@[i].rows == dspark::rows(t)
        }
    &&& p.bad <= kept.len()
    &&& p.bad < kept.len() ==> p.bad < k && end_of(f, kept[p.bad as int]) > f.bytes.len()
    &&& forall|i: int|
        0 <= i < k && i < p.bad ==> end_of(f, #[trigger] kept[i]) <= f.bytes.len()
}

/// Rows and columns of every tensor can be counted.
pub open spec fn countable(h: HeaderV) -> bool {
    forall|i: int|
        0 <= i < h.tensors.len() ==> dspark::columns(#[trigger] h.tensors[i]) <= usize::MAX
            && dspark::rows(h.tensors[i]) <= usize::MAX
}

fn plan_kept(g: &GGUF, kept: &Vec<usize>, Ghost(f): Ghost<FileV>) -> (r: KeptPlan)
    requires
        stands_for(*g, f),
        countable(f.h),
        forall|k: int| 0 <= k < kept@.len() ==> #[trigger] kept@[k] < g.tensors@.len(),
    ensures
        !r.over ==> planned(f, as_ints(kept@), r, kept@.len() as int),
        r.over ==> gguf::running(
            new_tensors(f.h.tensors, as_ints(kept@)),
            kept@.len() as int,
        ) > u64::MAX,
{
    let ghost ks = as_ints(kept@);
    let ghost ts = new_tensors(f.h.tensors, ks);
    let n: usize = kept.len();
    let size: usize = g.map.len();
    let mut p = KeptPlan {
        records: Vec::new(),
        parts: Vec::new(),
        converted: 0,
        bytes_out: 0,
        size: 0,
        bad: n,
        over: false,
    };
    assert(gguf::tensors_view(p.records@) =~= gguf_write::placed(ts).take(0));
    let mut k: usize = 0;
    while k < n
        invariant
            k <= n,
            n == kept@.len(),
            size == f.bytes.len(),
            ks == as_ints(kept@),
            ts == new_tensors(f.h.tensors, ks),
            stands_for(*g, f),
            countable(f.h),
            forall|k: int| 0 <= k < kept@.len() ==> #[trigger] kept@[k] < g.tensors@.len(),
            !p.over,
            planned(f, ks, p, k as int),
        decreases n - k,
    {
        let i: usize = kept[k];
        let t = &g.tensors[i];
        proof {
            assert(ks[k as int] == i);
            assert(f.h.tensors[i as int] == t@);
            assert(t@.fits());
            assert(dspark::columns(f.h.tensors[i as int]) <= usize::MAX);
            lemma_new_size(t@);
            assert(ts[k as int].nbytes() == gguf::shape_bytes(new_type(t@), t.dims@));
        }
        let ternary: bool = is_convertible(t);
        let ty: u32 = if ternary {
            TYPE_PQ2_0
        } else {
            t.ty
        };
        let bytes: u64 = gguf::shape_nbytes(ty, &t.dims);
        let room: u64 = gguf::align_up(bytes, 32);
        let begin: usize = g.tensor_data_offset(t) as usize;
        let end: usize = begin + g.tensor_nbytes(t) as usize;
        if room > u64::MAX - p.size {
            proof {
                gguf_write::lemma_running_monotonic(ts, k + 1, n as int);
            }
            p.over = true;
            return p;
        }
        let ghost records = p.records@;
        let record = TensorInfo {
            name: t.name.clone(),
            dims: gguf_write::copy_dims(&t.dims),
            ty,
            offset: p.size,
        };
        p.records.push(record);
        p.parts.push(
            NewPart {
                at: p.size,
                begin,
                end,
                ty: t.ty,
                ternary,
                ne0: dspark::columns_of(t) as usize,
                rows: dspark::rows_of(t) as usize,
            },
        );
        if ternary {
            p.converted = p.converted + 1;
        }
        if end > size && p.bad == n {
            p.bad = k;
        }
        p.size = p.size + room;
        p.bytes_out = p.bytes_out + bytes;
        k += 1;
        proof {
            let all = gguf_write::placed(ts);
            assert(all.take(k as int) =~= all.take(k - 1).push(all[k - 1]));
            assert(gguf::tensors_view(p.records@) =~= gguf::tensors_view(records).push(record@));
        }
    }
    p
}

/// Moves a plan's parts behind the header.
fn shift(parts: &Vec<NewPart>, start: u64, size: u64) -> (r: Vec<NewPart>)
    requires
        start + size <= u64::MAX,
        forall|k: int| 0 <= k < parts@.len() ==> (#[trigger] parts@[k]).at <= size,
    ensures
        r@.len() == parts@.len(),
        forall|k: int|
            0 <= k < r@.len() ==> #[trigger] r@[k] == (NewPart {
                at: (start + parts@[k].at) as u64,
                ..parts@[k]
            }),
{
    let mut out: Vec<NewPart> = Vec::new();
    let mut k: usize = 0;
    while k < parts.len()
        invariant
            k <= parts@.len(),
            start + size <= u64::MAX,
            forall|k: int| 0 <= k < parts@.len() ==> (#[trigger] parts@[k]).at <= size,
            out@.len() == k,
            forall|i: int|
                0 <= i < k ==> #[trigger] out@[i] == (NewPart {
                    at: (start + parts@[i].at) as u64,
                    ..parts@[i]
                }),
        decreases parts@.len() - k,
    {
        let p: NewPart = parts[k];
        assert(parts@[k as int].at <= size);
        out.push(
            NewPart {
                at: start + p.at,
                begin: p.begin,
                end: p.end,
                ty: p.ty,
                ternary: p.ternary,
                ne0: p.ne0,
                rows: p.rows,
            },
        );
        k += 1;
    }
    out
}

fn total_bytes(g: &GGUF, Ghost(f): Ghost<FileV>) -> (r: u64)
    requires
        stands_for(*g, f),
    ensures
        r == sum_bytes(f.h.tensors, f.h.tensors.len() as int),
{
    let ghost ts = f.h.tensors;
    let n: usize = g.tensors.len();
    let mut sum: u64 = 0;
    let mut k: usize = 0;
    while k < n
        invariant
            k <= n,
            n == g.tensors@.len(),
            stands_for(*g, f),
            ts == f.h.tensors,
            sum == sum_bytes(ts, k as int),
            sum <= gguf::running(ts, k as int),
        decreases n - k,
    {
        let t = &g.tensors[k];
        proof {
            assert(ts[k as int] == t@);
            assert(t@.fits());
            gguf_write::lemma_running_monotonic(ts, k + 1, n as int);
        }
        sum = sum + g.tensor_nbytes(t);
        k += 1;
    }
    sum
}

fn repack(
    g: &GGUF,
    reference: &Option<GGUF>,
    Ghost(f): Ghost<FileV>,
    Ghost(rf): Ghost<Option<FileV>>,
) -> (r: Result<Repack, String>)
    requires
        stands_for(*g, f),
        reference_stands(*reference, rf),
        countable(f.h),
    ensures
        repacks(f, rf, r),
{
    let bytes_in: u64 = total_bytes(g, Ghost(f));
    let order: Vec<usize> = gguf_write::order_by_offset(&g.tensors);
    let ghost ord = as_ints(order@);
    let mut meta: Vec<(String, Value)> = gguf_write::sorted_meta(g);
    let ghost es = f.h.meta;
    let ghost keys = choose|keys: Seq<Seq<char>>|
        gguf_write::sorted_keys(es, keys) && #[trigger] gguf_write::keyed(es, keys)
            == gguf::entries_view(meta@);
    assert(gguf_write::sorted_keys(es, keys));
    assert(gguf_write::by_offset(f.h.tensors, ord));
    let s: Sorted = match sort_out(g, &order, reference, Ghost(f), Ghost(rf)) {
        Ok(s) => s,
        Err(m) => {
            let out: Result<Repack, String> = Err(m);
            assert(repacks_in_order(f, rf, keys, ord, out));
            return out;
        },
    };
    let ghost kept = as_ints(s.kept@);
    let ghost shared = dspark::names_view(s.shared@);
    let n_shared: usize = s.shared.len();
    if n_shared > 0 {
        let v: Value = shared_value(&s.shared);
        insert(&mut meta, ("dspark.shared_tensors".to_owned(), v));
    }
    assert(gguf::entries_view(meta@) == new_meta(es, keys, shared));
    let plan: KeptPlan = plan_kept(g, &s.kept, Ghost(f));
    let ghost ts = new_tensors(f.h.tensors, kept);
    let ghost n = kept.len() as int;
    if plan.over {
        let out: Result<Repack, String> = Err(
            "internal: header exceeded computed data start".to_owned(),
        );
        assert(too_large(f, keys, kept, shared));
        assert(repacks_in_order(f, rf, keys, ord, out));
        return out;
    }
    let mut header: Vec<u8> = Vec::new();
    gguf_write::put_meta(&mut header, g.version, &meta, s.kept.len() as u64);
    gguf_write::put_tensors(&mut header, &plan.records);
    let ghost full = gguf_write::header_bytes(
        f.h.version,
        new_meta(es, keys, shared),
        gguf_write::placed(ts),
    );
    assert(gguf_write::placed(ts).take(n) =~= gguf_write::placed(ts));
    assert(header@ =~= full);
    if header.len() > usize::MAX - 32 || plan.size > u64::MAX - 32 || header.len() as u64
        > u64::MAX - 32 - plan.size {
        let out: Result<Repack, String> = Err(
            "internal: header exceeded computed data start".to_owned(),
        );
        assert(too_large(f, keys, kept, shared));
        assert(repacks_in_order(f, rf, keys, ord, out));
        return out;
    }
    let start: u64 = gguf::align_up(header.len() as u64, 32);
    gguf_write::pad_to(&mut header, start as usize);
    if plan.bad < s.kept.len() {
        let i: usize = s.kept[plan.bad];
        let mut m = g.tensors[i].name.as_str().to_owned();
        m.append(": source data out of range");
        let out: Result<Repack, String> = Err(m);
        proof {
            assert(kept[plan.bad as int] == i);
            assert(f.h.tensors[i as int] == g.tensors@[i as int]@);
            assert(first_cut(f, kept, plan.bad as int, m@));
            assert(cut_short(f, kept, m@));
            assert(repacks_in_order(f, rf, keys, ord, out));
        }
        return out;
    }
    proof {
        assert forall|k: int| 0 <= k < plan.parts@.len() implies (#[trigger] plan.parts@[k]).at
            <= plan.size by {
            gguf_write::lemma_running_monotonic(ts, k, n);
        }
    }
    let parts: Vec<NewPart> = shift(&plan.parts, start, plan.size);
    let x = Repack {
        header,
        parts,
        end: start + plan.size,
        converted: plan.converted,
        shared: n_shared,
        bytes_in,
        bytes_out: plan.bytes_out,
    };
    proof {
        assert forall|k: int| 0 <= k < n implies part_of(
            f,
            kept[k],
            start + gguf::running(ts, k),
            #[trigger] x.parts@[k],
        ) by {
            assert(plan.parts@[k].at == gguf::running(ts, k));
            gguf_write::lemma_running_monotonic(ts, k, n);
            assert(end_of(f, kept[k]) <= f.bytes.len());
        }
        assert(is_repack(f, keys, kept, shared, x));
    }
    let out: Result<Repack, String> = Ok(x);
    assert(repacks_in_order(f, rf, keys, ord, out));
    out
}

/// Repacks a sidecar: 4-bit and brain-float matrices become ternary, and tensors that are byte
/// for byte those of the reference are left out and listed.
pub fn repack_ternary(map: &[u8], reference: Option<&[u8]>) -> (r: Result<Repack, String>)
    requires
        map@.len() <= isize::MAX,
        gguf::header_of(map@) matches Ok(h) ==> gguf_write::sizes_fit(
            h.tensors,
            gguf_write::data_start_of(h),
        ) && countable(h),
        reference matches Some(b) ==> b@.len() <= isize::MAX && (gguf::header_of(b@) matches Ok(h)
            ==> gguf_write::sizes_fit(h.tensors, gguf_write::data_start_of(h))),
    ensures
        repacks_bytes(
            map@,
            match reference {
                Some(b) => Some(b@),
                None => None,
            },
            r,
        ),
{
    let g: GGUF = match GGUF::open(map) {
        Ok(g) => g,
        Err(m) => return Err(m),
    };
    let ghost h = gguf::header_of(map@)->Ok_0;
    let ghost f = FileV { h, bytes: map@ };
    proof {
        assert forall|i: int| 0 <= i < g.tensors@.len() implies (#[trigger] g.tensors@[i]).dims@.len()
            <= u32::MAX by {
            gguf_write::lemma_rank_bound(&g.tensors, map@, h, i);
        }
    }
    match reference {
        None => repack(&g, &None, Ghost(f), Ghost(None)),
        Some(b) => {
            let rg: GGUF = match GGUF::open(b) {
                Ok(g) => g,
                Err(m) => return Err(m),
            };
            let ghost rh = gguf::header_of(b@)->Ok_0;
            let ghost rf = FileV { h: rh, bytes: b@ };
            proof {
                assert forall|i: int|
                    0 <= i < rg.tensors@.len() implies (#[trigger] rg.tensors@[i]).dims@.len()
                    <= u32::MAX by {
                    gguf_write::lemma_rank_bound(&rg.tensors, b@, rh, i);
                }
            }
            repack(&g, &Some(rg), Ghost(f), Ghost(Some(rf)))
        },
    }
}

// ---- payloads ---------------------------------------------------------------------------------

/// Rows of ternary blocks hold the old rows, up to row `k`.
pub open spec fn rows_hold(b: Seq<u8>, map: Seq<u8>, p: NewPart, k: int) -> bool {
    forall|row: int|
        0 <= row < k ==> #[trigger] dspark::row_holds(
            b,
            row * kernels::pq2_stride(p.ne0 as int),
            dspark::row_of(
                p.ty,
                map,
                p.begin + row * dspark::row_size(p.ty, p.ne0 as int),
                p.ne0 as int,
            ),
            p.ne0 as int / 128,
        )
}

/// A part can be made of a file.
pub open spec fn part_fits(map: Seq<u8>, p: NewPart) -> bool {
    &&& p.begin <= p.end <= map.len()
    &&& p.ternary ==> p.ne0 > 0 && p.ne0 % 128 == 0 && p.begin + p.rows * dspark::row_size(
        p.ty,
        p.ne0 as int,
    ) <= map.len()
}

proof fn lemma_rows_kept(a: Seq<u8>, b: Seq<u8>, base: int, x: Seq<u32>, n: int)
    requires
        0 <= base,
        base + 34 * n <= a.len() <= b.len(),
        b.take(a.len() as int) == a,
        dspark::row_holds(a, base, x, n),
    ensures
        dspark::row_holds(b, base, x, n),
{
    assert forall|i: int| 0 <= i < n implies #[trigger] dspark::block_holds(
        b,
        base + 34 * i,
        x,
        128 * i,
    ) by {
        assert(dspark::block_holds(a, base + 34 * i, x, 128 * i));
        dspark::lemma_block_kept(a, b, base + 34 * i, x, 128 * i);
    }
}

/// The bytes of a part: the old ones as they are, or each row quantized anew.
pub fn part_bytes(map: &[u8], p: &NewPart) -> (r: Vec<u8>)
    requires
        part_fits(map@, *p),
    ensures
        !p.ternary ==> r@ == map@.subrange(p.begin as int, p.end as int),
        p.ternary ==> r@.len() == p.rows * kernels::pq2_stride(p.ne0 as int) && rows_hold(
            r@,
            map@,
            *p,
            p.rows as int,
        ),
{
    if !p.ternary {
        return vstd::slice::slice_to_vec(vstd::slice::slice_subrange(map, p.begin, p.end));
    }
    let size: usize = map.len();
    let ghost w = dspark::row_size(p.ty, p.ne0 as int);
    let ghost stride = kernels::pq2_stride(p.ne0 as int);
    let ghost blocks = p.ne0 as int / 128;
    assert(stride == blocks * 34);
    let mut out: Vec<u8> = Vec::new();
    let mut at: usize = p.begin;
    let mut k: usize = 0;
    assert(0 * w == 0 && 0 * stride == 0) by (nonlinear_arith);
    proof {
        let (rows, ne0) = (p.rows as int, p.ne0 as int);
        assert(w >= 0);
    }
    while k < p.rows
        invariant
            k <= p.rows,
            part_fits(map@, *p),
            p.ternary,
            size == map@.len(),
            w == dspark::row_size(p.ty, p.ne0 as int),
            w >= 0,
            blocks == p.ne0 as int / 128,
            stride == kernels::pq2_stride(p.ne0 as int),
            stride == blocks * 34,
            at == p.begin + k * w,
            out@.len() == k * stride,
            rows_hold(out@, map@, *p, k as int),
        decreases p.rows - k,
    {
        let ghost before = out@;
        proof {
            let (ki, ri) = (k as int, p.rows as int);
            crate::dots::lemma_row_end(ki, ri, w);
            assert((ki + 1) * w == ki * w + w && (ki + 1) * stride == ki * stride + stride)
                by (nonlinear_arith);
        }
        let row: Vec<u32> = dspark::decode_row(p.ty, map, at, p.ne0);
        dspark::quantize_pq2_0_row(row.as_slice(), &mut out);
        proof {
            assert(out@.len() == (k + 1) * stride);
            assert forall|i: int| 0 <= i < k + 1 implies #[trigger] dspark::row_holds(
                out@,
                i * stride,
                dspark::row_of(p.ty, map@, p.begin + i * w, p.ne0 as int),
                blocks,
            ) by {
                if i < k {
                    crate::dots::lemma_row_end(i, k as int, stride);
                    lemma_rows_kept(
                        before,
                        out@,
                        i * stride,
                        dspark::row_of(p.ty, map@, p.begin + i * w, p.ne0 as int),
                        blocks,
                    );
                }
            }
        }
        k += 1;
        at = at + dspark::row_bytes(p.ty, p.ne0);
    }
    out
}

/// A repacked tensor has the size that its record promises: its old bytes are its rows, and the
/// ternary rows fill the new record exactly.
pub proof fn law_converted_size(t: TensorV)
    requires
        convertible(t),
    ensures
        dspark::rows(t) * dspark::row_size(t.ty, dspark::columns(t)) == t.nbytes(),
        dspark::rows(t) * kernels::pq2_stride(dspark::columns(t)) == gguf::shape_bytes(
            new_type(t),
            t.dims,
        ),
{
    gguf::lemma_shape_bytes(t.ty, t.dims);
    gguf::lemma_shape_bytes(new_type(t), t.dims);
    gguf::lemma_product_first(t.dims);
    let ne0 = dspark::columns(t);
    let n = gguf::product(t.dims) as int;
    let rest = gguf::product(t.dims.skip(1)) as int;
    assert(ne0 * rest == rest * ne0) by (nonlinear_arith);
    vstd::arithmetic::div_mod::lemma_fundamental_div_mod_converse(n, ne0, rest, 0);
    assert(ne0 > 1);
    assert(dspark::rows(t) == rest);
    let b = ne0 / 128;
    assert(ne0 == 128 * b);
    assert(n == 128 * (rest * b)) by (nonlinear_arith)
        requires
            n == ne0 * rest,
            ne0 == 128 * b,
    ;
    assert(kernels::blocks(ne0, 128) == b && kernels::blocks(ne0, 32) == 4 * b);
    assert(rest * (b * 34) == (rest * b) * 34 && rest * (4 * b * 20) == (rest * b) * 80 && rest * (2
        * (128 * b)) == (rest * b) * 256) by (nonlinear_arith);
    let q = rest * b;
    assert((n + 127) / 128 == q && (n + 31) / 32 == 4 * q);
}

/// The parts of a repacked container can be made of the file that it was made for.
pub proof fn law_parts_fit(f: FileV, i: int, at: int, p: NewPart)
    requires
        part_of(f, i, at, p),
        0 <= i < f.h.tensors.len(),
        0 <= begin_of(f, i),
    ensures
        part_fits(f.bytes, p),
{
    if p.ternary {
        law_converted_size(f.h.tensors[i]);
    }
}

} // verus!
