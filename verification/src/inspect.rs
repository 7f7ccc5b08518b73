//! What the file tools report: names of tensor types, how many tensors have each, ranges of
//! elements and lists of tokens.

use vstd::prelude::*;
use vstd::string::*;

use crate::gguf::TensorInfo;
use crate::text;

verus! {

/// The name of a tensor type.
pub open spec fn type_text(t: int) -> Seq<char> {
    if t == 0 {
        "f32"@
    } else if t == 1 {
        "f16"@
    } else if t == 2 {
        "q4_0"@
    } else if t == 3 {
        "q4_1"@
    } else if t == 6 {
        "q5_0"@
    } else if t == 7 {
        "q5_1"@
    } else if t == 8 {
        "q8_0"@
    } else if t == 10 {
        "q2_k"@
    } else if t == 11 {
        "q3_k"@
    } else if t == 12 {
        "q4_k"@
    } else if t == 13 {
        "q5_k"@
    } else if t == 14 {
        "q6_k"@
    } else if t == 15 {
        "q8_k"@
    } else if t == 16 {
        "iq2_xxs"@
    } else if t == 17 {
        "iq2_xs"@
    } else if t == 18 {
        "iq3_xxs"@
    } else if t == 19 {
        "iq1_s"@
    } else if t == 20 {
        "iq4_nl"@
    } else if t == 21 {
        "iq3_s"@
    } else if t == 22 {
        "iq2_s"@
    } else if t == 23 {
        "iq4_xs"@
    } else if t == 24 {
        "i8"@
    } else if t == 25 {
        "iq1_m"@
    } else if t == 26 {
        "bf16"@
    } else if t == 30 || t == 41 {
        "q1_0"@
    } else if t == 34 {
        "tq1_0"@
    } else if t == 42 {
        "q2_0(legacy-g128)"@
    } else if t == 142 {
        "pq2_0"@
    } else if t == 143 {
        "ptq1_0"@
    } else {
        "unknown"@
    }
}

/// The name of a tensor type.
pub fn name_of_type(t: u32) -> (r: &'static str)
    ensures
        r@ == type_text(t as int),
{
    match t {
        0 => "f32",
        1 => "f16",
        2 => "q4_0",
        3 => "q4_1",
        6 => "q5_0",
        7 => "q5_1",
        8 => "q8_0",
        10 => "q2_k",
        11 => "q3_k",
        12 => "q4_k",
        13 => "q5_k",
        14 => "q6_k",
        15 => "q8_k",
        16 => "iq2_xxs",
        17 => "iq2_xs",
        18 => "iq3_xxs",
        19 => "iq1_s",
        20 => "iq4_nl",
        21 => "iq3_s",
        22 => "iq2_s",
        23 => "iq4_xs",
        24 => "i8",
        25 => "iq1_m",
        26 => "bf16",
        30 => "q1_0",
        34 => "tq1_0",
        41 => "q1_0",
        42 => "q2_0(legacy-g128)",
        142 => "pq2_0",
        143 => "ptq1_0",
        _ => "unknown",
    }
}

// ---- counting types -----------------------------------------------------------------------------

/// How many of the first `n` tensors have a type.
pub open spec fn count_of(ts: Seq<TensorInfo>, ty: u32, n: int) -> nat
    decreases n,
{
    if n <= 0 {
        0
    } else {
        count_of(ts, ty, n - 1) + if ts[n - 1].ty == ty {
            1nat
        } else {
            0nat
        }
    }
}

/// A type has an entry.
pub open spec fn has_entry(counts: Seq<(u32, usize)>, ty: u32) -> bool {
    exists|i: int| 0 <= i < counts.len() && #[trigger] counts[i].0 == ty
}

/// `counts` has an entry for each type of the first `n` tensors, in ascending order.
pub open spec fn counts_types(ts: Seq<TensorInfo>, counts: Seq<(u32, usize)>, n: int) -> bool {
    &&& forall|i: int, j: int|
        0 <= i < j < counts.len() ==> (#[trigger] counts[i]).0 < (#[trigger] counts[j]).0
    &&& forall|i: int|
        0 <= i < counts.len() ==> (#[trigger] counts[i]).1 == count_of(ts, counts[i].0, n)
            && counts[i].1 > 0
    &&& forall|ty: u32| #[trigger] has_entry(counts, ty) || count_of(ts, ty, n) == 0
}

proof fn lemma_count(ts: Seq<TensorInfo>, ty: u32, n: int)
    requires
        0 <= n,
    ensures
        count_of(ts, ty, n) <= n,
    decreases n,
{
    if n > 0 {
        lemma_count(ts, ty, n - 1);
    }
}

/// Counts the tensors of each type, in the order of the types.
pub fn type_counts(ts: &Vec<TensorInfo>) -> (r: Vec<(u32, usize)>)
    ensures
        counts_types(ts@, r@, ts@.len() as int),
{
    let n: usize = ts.len();
    let mut out: Vec<(u32, usize)> = Vec::new();
    let mut i: usize = 0;
    while i < n
        invariant
            i <= n,
            n == ts@.len(),
            counts_types(ts@, out@, i as int),
        decreases n - i,
    {
        let ty: u32 = ts[i].ty;
        let len: usize = out.len();
        let ghost before = out@;
        let mut k: usize = 0;
        while k < len && out[k].0 < ty
            invariant
                k <= len,
                len == out@.len(),
                out@ == before,
                forall|j: int| 0 <= j < k ==> (#[trigger] before[j]).0 < ty,
            decreases len - k,
        {
            k += 1;
        }
        if k < len && out[k].0 == ty {
            let c: usize = out[k].1;
            proof {
                lemma_count(ts@, ty, i as int);
            }
            out.set(k, (ty, c + 1));
            proof {
                assert forall|t: u32| #[trigger] has_entry(out@, t) || count_of(ts@, t, i + 1)
                    == 0 by {
                    if t == ty {
                        assert(out@[k as int].0 == t);
                    } else if has_entry(before, t) {
                        let j = choose|j: int| 0 <= j < before.len() && #[trigger] before[j].0 == t;
                        assert(out@[j].0 == t);
                    }
                }
            }
        } else {
            proof {
                assert(!has_entry(before, ty)) by {
                    if has_entry(before, ty) {
                        let j = choose|j: int|
                            0 <= j < before.len() && #[trigger] before[j].0 == ty;
                        if j < k {
                            assert(before[j].0 < ty);
                        } else if j > k {
                            assert(before[k as int].0 < before[j].0);
                        }
                    }
                }
            }
            out.insert(k, (ty, 1));
            proof {
                assert forall|a: int, b: int| 0 <= a < b < out@.len() implies (#[trigger] out@[a]).0
                    < (#[trigger] out@[b]).0 by {
                    if b < k {
                        assert(out@[a] == before[a] && out@[b] == before[b]);
                    } else if b == k {
                        assert(out@[a] == before[a]);
                    } else {
                        assert(out@[b] == before[b - 1]);
                        if a < k {
                            assert(out@[a] == before[a]);
                        } else if a == k {
                            assert(before[k as int].0 > ty);
                            if b - 1 > k {
                                assert(before[k as int].0 < before[b - 1].0);
                            }
                        } else {
                            assert(out@[a] == before[a - 1]);
                        }
                    }
                }
                assert forall|a: int| 0 <= a < out@.len() implies (#[trigger] out@[a]).1
                    == count_of(ts@, out@[a].0, i + 1) && out@[a].1 > 0 by {
                    if a < k {
                        assert(out@[a] == before[a]);
                    } else if a > k {
                        assert(out@[a] == before[a - 1]);
                        if a - 1 > k {
                            assert(before[k as int].0 < before[a - 1].0);
                        }
                    }
                }
                assert forall|t: u32| #[trigger] has_entry(out@, t) || count_of(ts@, t, i + 1)
                    == 0 by {
                    if t == ty {
                        assert(out@[k as int].0 == t);
                    } else if has_entry(before, t) {
                        let j = choose|j: int| 0 <= j < before.len() && #[trigger] before[j].0 == t;
                        if j < k {
                            assert(out@[j].0 == t);
                        } else {
                            assert(out@[j + 1].0 == t);
                        }
                    }
                }
            }
        }
        i += 1;
    }
    out
}

/// Whether a tensor of `n_elem` elements has `count` of them from `start` on.
pub fn check_range(start: usize, count: usize, n_elem: u64) -> (r: Result<(), String>)
    ensures
        match r {
            Ok(_) => start + count <= n_elem,
            Err(m) => start + count > n_elem && m@ == "range out of bounds (start+count > n_elem)"@,
        },
{
    let a: u64 = start as u64;
    let b: u64 = count as u64;
    if a > n_elem || b > n_elem - a {
        return Err("range out of bounds (start+count > n_elem)".to_owned());
    }
    Ok(())
}

// ---- token lists ----------------------------------------------------------------------------

/// The texts between commas.
pub open spec fn split_commas(s: Seq<char>) -> Seq<Seq<char>>
    decreases s.len(),
{
    if s.len() == 0 {
        seq![Seq::empty()]
    } else {
        let rest = split_commas(s.drop_last());
        if s.last() == ',' {
            rest.push(Seq::empty())
        } else {
            rest.drop_last().push(rest.last().push(s.last()))
        }
    }
}

/// The token that a text names, the white space around it aside.
pub open spec fn token_in(s: Seq<char>) -> Option<nat> {
    text::number_of(text::trimmed(s), u32::MAX as nat)
}

/// `r` is the list of tokens in a text, none if a part of it is no token.
pub open spec fn tokens_in(s: Seq<char>, r: Option<Seq<u32>>) -> bool {
    let parts = split_commas(s);
    match r {
        Some(ts) => {
            &&& ts.len() == parts.len()
            &&& forall|i: int|
                0 <= i < ts.len() ==> token_in(parts[i]) == Some(#[trigger] ts[i] as nat)
        },
        None => exists|i: int| 0 <= i < parts.len() && token_in(#[trigger] parts[i]) is None,
    }
}

fn parts_of(s: &str) -> (r: Vec<String>)
    ensures
        r@.len() == split_commas(s@).len(),
        forall|i: int| 0 <= i < r@.len() ==> (#[trigger] r@[i])@ == split_commas(s@)[i],
{
    let cs: Vec<char> = text::chars_of(s);
    let n: usize = cs.len();
    let mut out: Vec<String> = Vec::new();
    let mut last = String::new();
    let mut i: usize = 0;
    assert(s@.take(0) =~= Seq::<char>::empty());
    while i < n
        invariant
            i <= n,
            n == cs@.len(),
            cs@ == s@,
            split_commas(s@.take(i as int)).len() == out@.len() + 1,
            forall|k: int|
                0 <= k < out@.len() ==> (#[trigger] out@[k])@ == split_commas(s@.take(i as int))[k],
            last@ == split_commas(s@.take(i as int)).last(),
        decreases n - i,
    {
        let c: char = cs[i];
        let ghost a = split_commas(s@.take(i as int));
        let ghost b = split_commas(s@.take(i + 1));
        proof {
            assert(s@.take(i + 1).drop_last() =~= s@.take(i as int));
            assert(s@.take(i + 1).last() == c);
        }
        if c == ',' {
            out.push(last);
            last = String::new();
            assert(b == a.push(Seq::empty()));
        } else {
            last.push(c);
            assert(b == a.drop_last().push(a.last().push(c)));
        }
        i += 1;
    }
    assert(s@.take(n as int) =~= s@);
    out.push(last);
    out
}

/// Reads tokens separated by commas.
pub fn parse_tokens(s: &str) -> (r: Option<Vec<u32>>)
    ensures
        tokens_in(
            s@,
            match r {
                Some(v) => Some(v@),
                None => None,
            },
        ),
{
    let parts: Vec<String> = parts_of(s);
    let ghost ps = split_commas(s@);
    let mut out: Vec<u32> = Vec::new();
    let mut i: usize = 0;
    while i < parts.len()
        invariant
            i <= parts@.len(),
            parts@.len() == ps.len(),
            ps == split_commas(s@),
            forall|k: int| 0 <= k < parts@.len() ==> (#[trigger] parts@[k])@ == ps[k],
            out@.len() == i,
            forall|k: int| 0 <= k < i ==> token_in(ps[k]) == Some(#[trigger] out@[k] as nat),
        decreases parts@.len() - i,
    {
        let t: String = text::trim(parts[i].as_str());
        match text::parse_uint(t.as_str(), u32::MAX as u64) {
            Some(v) => out.push(v as u32),
            None => {
                assert(token_in(ps[i as int]) is None);
                return None;
            },
        }
        i += 1;
    }
    Some(out)
}

} // verus!
