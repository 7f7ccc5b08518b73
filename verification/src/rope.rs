//! Rotary positions: which position turns which pair, by what angle, and the turn itself. The
//! cosines and sines come from outside.

use vstd::prelude::*;

use crate::single;

verus! {

/// The position that turns a pair: of time, height or width, or an extra one.
#[derive(Debug, Clone, Copy, PartialEq, Eq, Structural)]
pub enum Band {
    Time,
    Height,
    Width,
    Extra,
}

/// How many pairs the sections cover.
pub open spec fn covered(s: [i32; 4]) -> int {
    s@[0] + s@[1] + s@[2] + s@[3]
}

/// The band of pair `i`: the sections are interleaved, and start over behind the last.
pub open spec fn band_of(s: [i32; 4], i: int) -> Band {
    let k = i % covered(s);
    if k % 3 == 1 && k < 3 * s@[1] {
        Band::Height
    } else if k % 3 == 2 && k < 3 * s@[2] {
        Band::Width
    } else if k % 3 == 0 && k < 3 * s@[0] {
        Band::Time
    } else {
        Band::Extra
    }
}

/// The band of pair `i`.
pub fn band(s: &[i32; 4], i: usize) -> (r: Band)
    requires
        0 < covered(*s),
        i <= i64::MAX,
    ensures
        r == band_of(*s, i as int),
{
    let n: i64 = s[0] as i64 + s[1] as i64 + s[2] as i64 + s[3] as i64;
    let k: i64 = i as i64 % n;
    if k % 3 == 1 && k < 3 * s[1] as i64 {
        Band::Height
    } else if k % 3 == 2 && k < 3 * s[2] as i64 {
        Band::Width
    } else if k % 3 == 0 && k < 3 * s[0] as i64 {
        Band::Time
    } else {
        Band::Extra
    }
}

/// The angle of pair `i` for a position: it shrinks by the same factor from pair to pair.
pub open spec fn angle(p: u32, scale: u32, i: int) -> u32
    decreases i,
{
    if i <= 0 {
        p
    } else {
        single::product_of(angle(p, scale, i - 1), scale)
    }
}

/// A position in each band, as singles.
#[derive(Debug, Clone, Copy, PartialEq, Eq, Structural)]
pub struct Positions {
    pub time: u32,
    pub height: u32,
    pub width: u32,
    pub extra: u32,
}

pub open spec fn position_in(p: Positions, b: Band) -> u32 {
    match b {
        Band::Time => p.time,
        Band::Height => p.height,
        Band::Width => p.width,
        Band::Extra => p.extra,
    }
}

/// The angles of interleaved pairs.
pub fn imrope_angles(p: Positions, n_pairs: usize, s: &[i32; 4], scale: u32) -> (r: Vec<u32>)
    requires
        0 < covered(*s),
        n_pairs <= i64::MAX,
    ensures
        r@ == Seq::new(
            n_pairs as nat,
            |i: int| angle(position_in(p, band_of(*s, i)), scale, i),
        ),
{
    let mut out: Vec<u32> = Vec::new();
    let mut cur = p;
    let mut i: usize = 0;
    while i < n_pairs
        invariant
            i <= n_pairs <= i64::MAX,
            0 < covered(*s),
            cur.time == angle(p.time, scale, i as int),
            cur.height == angle(p.height, scale, i as int),
            cur.width == angle(p.width, scale, i as int),
            cur.extra == angle(p.extra, scale, i as int),
            out@.len() == i,
            forall|k: int|
                0 <= k < i ==> #[trigger] out@[k] == angle(
                    position_in(p, band_of(*s, k)),
                    scale,
                    k,
                ),
        decreases n_pairs - i,
    {
        let t: u32 = match band(s, i) {
            Band::Time => cur.time,
            Band::Height => cur.height,
            Band::Width => cur.width,
            Band::Extra => cur.extra,
        };
        out.push(t);
        cur = Positions {
            time: single::product(cur.time, scale),
            height: single::product(cur.height, scale),
            width: single::product(cur.width, scale),
            extra: single::product(cur.extra, scale),
        };
        i += 1;
    }
    assert(out@ =~= Seq::new(
        n_pairs as nat,
        |i: int| angle(position_in(p, band_of(*s, i)), scale, i),
    ));
    out
}

/// The angles of plain pairs, for one position.
pub fn neox_angles(pos: u32, n_pairs: usize, scale: u32) -> (r: Vec<u32>)
    ensures
        r@ == Seq::new(n_pairs as nat, |i: int| angle(pos, scale, i)),
{
    let mut out: Vec<u32> = Vec::new();
    let mut cur: u32 = pos;
    let mut i: usize = 0;
    while i < n_pairs
        invariant
            i <= n_pairs,
            cur == angle(pos, scale, i as int),
            out@.len() == i,
            forall|k: int| 0 <= k < i ==> #[trigger] out@[k] == angle(pos, scale, k),
        decreases n_pairs - i,
    {
        out.push(cur);
        cur = single::product(cur, scale);
        i += 1;
    }
    assert(out@ =~= Seq::new(n_pairs as nat, |i: int| angle(pos, scale, i)));
    out
}

/// For text all bands have the same position, and the interleaved angles are the plain ones.
pub proof fn law_text_positions_are_plain(pos: u32, s: [i32; 4], scale: u32, i: int)
    ensures
        angle(
            position_in(
                Positions { time: pos, height: pos, width: pos, extra: pos },
                band_of(s, i),
            ),
            scale,
            i,
        ) == angle(pos, scale, i),
{
}

/// The first of a turned pair.
pub open spec fn turned_first(x0: u32, x1: u32, cos: u32, sin: u32) -> u32 {
    single::difference_of(single::product_of(x0, cos), single::product_of(x1, sin))
}

/// The second of a turned pair.
pub open spec fn turned_second(x0: u32, x1: u32, cos: u32, sin: u32) -> u32 {
    single::sum_of(single::product_of(x0, sin), single::product_of(x1, cos))
}

/// `b` is `a` with the first `2 * half` values turned in pairs `half` apart.
pub open spec fn turned(a: Seq<u32>, b: Seq<u32>, half: int, cos: Seq<u32>, sin: Seq<u32>) -> bool {
    &&& b.len() == a.len()
    &&& forall|j: int|
        0 <= j < half ==> #[trigger] b[j] == turned_first(a[j], a[j + half], cos[j], sin[j])
    &&& forall|j: int|
        half <= j < 2 * half ==> #[trigger] b[j] == turned_second(
            a[j - half],
            a[j],
            cos[j - half],
            sin[j - half],
        )
    &&& forall|j: int| 2 * half <= j < a.len() ==> #[trigger] b[j] == a[j]
}

/// Turns the pairs of a head.
pub fn turn(head: &mut Vec<u32>, cos: &[u32], sin: &[u32])
    requires
        cos@.len() == sin@.len(),
        2 * cos@.len() <= old(head)@.len(),
    ensures
        turned(old(head)@, final(head)@, cos@.len() as int, cos@, sin@),
{
    let half: usize = cos.len();
    let n: usize = head.len();
    let ghost first = head@;
    let mut j: usize = 0;
    while j < half
        invariant
            j <= half,
            half == cos@.len(),
            half == sin@.len(),
            2 * half <= n,
            n == head@.len(),
            head@.len() == first.len(),
            forall|k: int|
                0 <= k < j ==> #[trigger] head@[k] == turned_first(
                    first[k],
                    first[k + half],
                    cos@[k],
                    sin@[k],
                ),
            forall|k: int|
                half <= k < half + j ==> #[trigger] head@[k] == turned_second(
                    first[k - half],
                    first[k],
                    cos@[k - half],
                    sin@[k - half],
                ),
            forall|k: int|
                j <= k < half || half + j <= k < n ==> #[trigger] head@[k] == first[k],
        decreases half - j,
    {
        let x0: u32 = head[j];
        let x1: u32 = head[j + half];
        let a: u32 = single::difference(
            single::product(x0, cos[j]),
            single::product(x1, sin[j]),
        );
        let b: u32 = single::sum(single::product(x0, sin[j]), single::product(x1, cos[j]));
        head.set(j, a);
        head.set(j + half, b);
        j += 1;
    }
}

} // verus!
