//! Searching and cutting of texts held as characters.

use vstd::prelude::*;
use vstd::string::*;
use vstd::utf8::*;

use crate::text;

verus! {

/// The pattern stands in `s` at `i`.
pub open spec fn stands(s: Seq<char>, pat: Seq<char>, i: int) -> bool {
    0 <= i && i + pat.len() <= s.len() && s.subrange(i, i + pat.len()) == pat
}

/// The first place from `i` on where the pattern stands.
pub open spec fn find_from(s: Seq<char>, pat: Seq<char>, i: int) -> Option<int>
    decreases s.len() + 1 - i,
{
    if i < 0 || i + pat.len() > s.len() {
        None
    } else if stands(s, pat, i) {
        Some(i)
    } else {
        find_from(s, pat, i + 1)
    }
}

/// The first place where the pattern stands.
pub open spec fn find(s: Seq<char>, pat: Seq<char>) -> Option<int> {
    find_from(s, pat, 0)
}

/// A search finds the first place, or there is none.
pub proof fn lemma_find_from(s: Seq<char>, pat: Seq<char>, i: int)
    requires
        0 <= i,
    ensures
        match find_from(s, pat, i) {
            Some(k) => i <= k && stands(s, pat, k) && forall|j: int|
                i <= j < k ==> !#[trigger] stands(s, pat, j),
            None => forall|j: int| i <= j ==> !#[trigger] stands(s, pat, j),
        },
    decreases s.len() + 1 - i,
{
    if i + pat.len() <= s.len() && !stands(s, pat, i) {
        lemma_find_from(s, pat, i + 1);
    }
}

/// A first place is what a search finds.
pub proof fn lemma_found(s: Seq<char>, pat: Seq<char>, i: int, k: int)
    requires
        0 <= i <= k,
        stands(s, pat, k),
        forall|j: int| i <= j < k ==> !#[trigger] stands(s, pat, j),
    ensures
        find_from(s, pat, i) == Some(k),
{
    lemma_find_from(s, pat, i);
}

/// A pattern that stands nowhere is not found.
pub proof fn lemma_not_found(s: Seq<char>, pat: Seq<char>, i: int)
    requires
        0 <= i,
        forall|j: int| i <= j ==> !#[trigger] stands(s, pat, j),
    ensures
        find_from(s, pat, i) is None,
{
    lemma_find_from(s, pat, i);
}

fn stands_at(cs: &Vec<char>, pat: &Vec<char>, i: usize) -> (r: bool)
    requires
        i + pat@.len() <= cs@.len(),
    ensures
        r == stands(cs@, pat@, i as int),
{
    let n: usize = cs.len();
    let m: usize = pat.len();
    let mut k: usize = 0;
    while k < m
        invariant
            k <= m,
            m == pat@.len(),
            n == cs@.len(),
            i + m <= n,
            forall|j: int| 0 <= j < k ==> cs@[i + j] == #[trigger] pat@[j],
        decreases m - k,
    {
        if cs[i + k] != pat[k] {
            assert(cs@.subrange(i as int, i + m)[k as int] == cs@[i + k]);
            return false;
        }
        k += 1;
    }
    assert(cs@.subrange(i as int, i + m) =~= pat@);
    true
}

/// Searches for a pattern from `start` on.
pub fn find_in(cs: &Vec<char>, pat: &str, start: usize) -> (r: Option<usize>)
    requires
        start <= cs@.len(),
    ensures
        match r {
            Some(i) => find_from(cs@, pat@, start as int) == Some(i as int) && start <= i && i
                + pat@.len() <= cs@.len(),
            None => find_from(cs@, pat@, start as int) is None,
        },
{
    let p: Vec<char> = text::chars_of(pat);
    let n: usize = cs.len();
    let m: usize = p.len();
    let mut i: usize = start;
    while m <= n - i
        invariant
            start <= i <= n,
            n == cs@.len(),
            m == p@.len(),
            p@ == pat@,
            find_from(cs@, pat@, start as int) == find_from(cs@, pat@, i as int),
        decreases n - i,
    {
        if stands_at(cs, &p, i) {
            return Some(i);
        }
        proof {
            if m == 0 {
                assert(cs@.subrange(i as int, i as int) =~= pat@);
            }
        }
        i += 1;
    }
    None
}

/// The characters `cs[from..to]`.
pub fn piece(cs: &Vec<char>, from: usize, to: usize) -> (r: Vec<char>)
    requires
        from <= to <= cs@.len(),
    ensures
        r@ == cs@.subrange(from as int, to as int),
{
    vstd::slice::slice_to_vec(vstd::slice::slice_subrange(cs.as_slice(), from, to))
}

/// The characters `cs[from..to]` as a string.
pub fn piece_text(cs: &Vec<char>, from: usize, to: usize) -> (r: String)
    requires
        from <= to <= cs@.len(),
    ensures
        r@ == cs@.subrange(from as int, to as int),
{
    text::string_of(vstd::slice::slice_subrange(cs.as_slice(), from, to))
}

/// Appends characters to others.
pub fn extend(a: &mut Vec<char>, b: &Vec<char>)
    ensures
        final(a)@ == old(a)@ + b@,
{
    let mut i: usize = 0;
    assert(a@ + b@.take(0) =~= a@);
    while i < b.len()
        invariant
            i <= b@.len(),
            a@ == old(a)@ + b@.take(i as int),
        decreases b@.len() - i,
    {
        a.push(b[i]);
        i += 1;
        assert(b@.take(i as int) =~= b@.take(i - 1).push(b@[i - 1]));
        assert(a@ =~= old(a)@ + b@.take(i as int));
    }
    assert(b@.take(i as int) =~= b@);
}

// ---- newlines and white space ---------------------------------------------------------------

/// `s` without the newlines at its start.
pub open spec fn without_newlines(s: Seq<char>) -> Seq<char>
    decreases s.len(),
{
    if s.len() > 0 && s[0] == '\n' {
        without_newlines(s.skip(1))
    } else {
        s
    }
}

/// `s` without the newlines at its end.
pub open spec fn without_last_newlines(s: Seq<char>) -> Seq<char>
    decreases s.len(),
{
    if s.len() > 0 && s.last() == '\n' {
        without_last_newlines(s.drop_last())
    } else {
        s
    }
}

/// The first place from `from` on that is no newline.
pub fn skip_newlines(cs: &Vec<char>, from: usize) -> (r: usize)
    requires
        from <= cs@.len(),
    ensures
        from <= r <= cs@.len(),
        cs@.skip(r as int) == without_newlines(cs@.skip(from as int)),
{
    let n: usize = cs.len();
    let mut i: usize = from;
    while i < n && cs[i] == '\n'
        invariant
            from <= i <= n,
            n == cs@.len(),
            without_newlines(cs@.skip(from as int)) == without_newlines(cs@.skip(i as int)),
        decreases n - i,
    {
        assert(cs@.skip(i as int).skip(1) =~= cs@.skip(i + 1));
        i += 1;
    }
    i
}

/// The characters `cs[from..to]` without the newlines at either end.
pub fn trim_newlines(cs: &Vec<char>, from: usize, to: usize) -> (r: String)
    requires
        from <= to <= cs@.len(),
    ensures
        r@ == without_last_newlines(without_newlines(cs@.subrange(from as int, to as int))),
{
    let part: Vec<char> = piece(cs, from, to);
    let n: usize = part.len();
    assert(part@.skip(0) =~= part@);
    let a: usize = skip_newlines(&part, 0);
    let mut b: usize = n;
    assert(part@.skip(a as int) =~= part@.subrange(a as int, n as int));
    while a < b && part[b - 1] == '\n'
        invariant
            a <= b <= n,
            n == part@.len(),
            without_last_newlines(part@.subrange(a as int, n as int)) == without_last_newlines(
                part@.subrange(a as int, b as int),
            ),
        decreases b,
    {
        assert(part@.subrange(a as int, b as int).drop_last() =~= part@.subrange(a as int, b - 1));
        b -= 1;
    }
    piece_text(&part, a, b)
}

/// The first place that is no white space.
pub fn skip_space(cs: &Vec<char>) -> (r: usize)
    ensures
        r <= cs@.len(),
        cs@.skip(r as int) == text::trimmed_start(cs@),
{
    let n: usize = cs.len();
    let mut i: usize = 0;
    assert(cs@.skip(0) =~= cs@);
    while i < n && cs[i].is_whitespace()
        invariant
            i <= n,
            n == cs@.len(),
            text::trimmed_start(cs@) == text::trimmed_start(cs@.skip(i as int)),
        decreases n - i,
    {
        assert(cs@.skip(i as int).skip(1) =~= cs@.skip(i + 1));
        i += 1;
    }
    i
}

// ---- cutting by bytes -----------------------------------------------------------------------

/// The number of bytes of a text.
pub open spec fn bytes(s: Seq<char>) -> nat {
    encode_utf8(s).len()
}

/// Where to cut so that the shortest end with at least `keep` bytes stays; at the front if there
/// is none.
pub open spec fn cut_at(s: Seq<char>, keep: nat) -> int
    decreases s.len(),
{
    if s.len() > 0 && bytes(s.skip(1)) >= keep {
        1 + cut_at(s.skip(1), keep)
    } else {
        0
    }
}

/// The number of bytes of a character.
pub fn width(c: char) -> (r: usize)
    ensures
        r == encode_scalar(c as u32).len(),
        1 <= r <= 4,
{
    let x: u32 = c as u32;
    if x <= 0x7f {
        1
    } else if x <= 0x7ff {
        2
    } else if x <= 0xffff {
        3
    } else {
        4
    }
}

pub proof fn lemma_bytes_next(s: Seq<char>, i: int)
    requires
        0 <= i < s.len(),
    ensures
        bytes(s.skip(i)) == encode_scalar(s[i] as u32).len() + bytes(s.skip(i + 1)),
        bytes(s.skip(i)) > bytes(s.skip(i + 1)),
{
    assert(s.skip(i).drop_first() =~= s.skip(i + 1));
}

pub proof fn lemma_bytes_shrink(s: Seq<char>, i: int, j: int)
    requires
        0 <= i <= j <= s.len(),
    ensures
        bytes(s.skip(j)) <= bytes(s.skip(i)),
    decreases j - i,
{
    if i < j {
        lemma_bytes_next(s, i);
        lemma_bytes_shrink(s, i + 1, j);
    }
}

/// The cut is the last place with enough bytes behind it.
pub proof fn lemma_cut(s: Seq<char>, keep: nat, i: int)
    requires
        0 <= i <= s.len(),
        i == 0 || bytes(s.skip(i)) >= keep,
        i == s.len() || bytes(s.skip(i + 1)) < keep,
    ensures
        cut_at(s, keep) == i,
    decreases s.len(),
{
    if i > 0 {
        assert(s.skip(i) =~= s.skip(1).skip(i - 1));
        if i < s.len() {
            assert(s.skip(i + 1) =~= s.skip(1).skip(i));
        }
        lemma_bytes_shrink(s, 1, i);
        lemma_cut(s.skip(1), keep, i - 1);
    }
}

/// Where to cut so that the shortest end with at least `keep` bytes stays.
pub fn cut(cs: &Vec<char>, keep: usize) -> (r: usize)
    requires
        0 < keep <= 100,
    ensures
        r == cut_at(cs@, keep as nat),
        r <= cs@.len(),
{
    let n: usize = cs.len();
    let mut i: usize = n;
    let mut got: usize = 0;
    assert(cs@.skip(n as int) =~= Seq::<char>::empty());
    while i > 0 && got < keep
        invariant
            i <= n,
            n == cs@.len(),
            0 < keep <= 100,
            got == bytes(cs@.skip(i as int)),
            got < keep + 4,
            i < n ==> bytes(cs@.skip(i + 1)) < keep,
        decreases i,
    {
        proof {
            lemma_bytes_next(cs@, i - 1);
        }
        got = got + width(cs[i - 1]);
        i -= 1;
    }
    proof {
        lemma_cut(cs@, keep as nat, i as int);
    }
    i
}

// ---- text that arrives in pieces ------------------------------------------------------------

/// The place behind `head` where a search of `tail` ends up.
pub open spec fn behind(head: Seq<char>, r: Option<int>) -> Option<int> {
    match r {
        Some(i) => Some(head.len() + i),
        None => None,
    }
}

/// A pattern that starts nowhere in `head` is found where it is found behind it.
pub proof fn lemma_find_behind(head: Seq<char>, tail: Seq<char>, pat: Seq<char>)
    requires
        forall|i: int| 0 <= i < head.len() ==> !#[trigger] stands(head + tail, pat, i),
    ensures
        find(head + tail, pat) == behind(head, find(tail, pat)),
{
    let s = head + tail;
    let h = head.len() as int;
    assert forall|j: int| h <= j implies #[trigger] stands(s, pat, j) == stands(
        tail,
        pat,
        j - h,
    ) by {
        if j + pat.len() <= s.len() {
            assert(s.subrange(j, j + pat.len()) =~= tail.subrange(j - h, j - h + pat.len()));
        }
    }
    lemma_find_from(tail, pat, 0);
    match find(tail, pat) {
        Some(i) => {
            assert(stands(s, pat, h + i));
            assert forall|j: int| 0 <= j < h + i implies !#[trigger] stands(s, pat, j) by {
                if j >= h {
                    assert(!stands(tail, pat, j - h));
                }
            }
            lemma_found(s, pat, 0, h + i);
        },
        None => {
            assert forall|j: int| 0 <= j implies !#[trigger] stands(s, pat, j) by {
                if j >= h {
                    assert(!stands(tail, pat, j - h));
                }
            }
            lemma_not_found(s, pat, 0);
        },
    }
}

/// Characters of one byte only.
pub open spec fn narrow(s: Seq<char>) -> bool {
    forall|i: int| 0 <= i < s.len() ==> (#[trigger] s[i] as u32) < 0x80
}

proof fn lemma_narrow_bytes(s: Seq<char>, i: int)
    requires
        0 <= i <= s.len(),
        forall|j: int| i <= j < s.len() ==> (#[trigger] s[j] as u32) < 0x80,
    ensures
        bytes(s.skip(i)) == s.len() - i,
    decreases s.len() - i,
{
    if i < s.len() {
        lemma_bytes_next(s, i);
        lemma_narrow_bytes(s, i + 1);
    } else {
        assert(s.skip(i) =~= Seq::<char>::empty());
    }
}

/// Text in front of the cut is no part of a tag that is completed later.
pub proof fn lemma_no_split_tag(s: Seq<char>, more: Seq<char>, tag: Seq<char>, keep: nat)
    requires
        narrow(tag),
        tag.len() == keep + 1,
        find(s, tag) is None,
    ensures
        0 <= cut_at(s, keep) <= s.len(),
        forall|i: int| 0 <= i < cut_at(s, keep) ==> !#[trigger] stands(s + more, tag, i),
{
    let cut = cut_at(s, keep);
    lemma_cut_bounds(s, keep);
    let all = s + more;
    lemma_find_from(s, tag, 0);
    assert forall|i: int| 0 <= i < cut implies !#[trigger] stands(all, tag, i) by {
        if stands(all, tag, i) {
            if i + tag.len() <= s.len() {
                assert(s.subrange(i, i + tag.len()) =~= all.subrange(i, i + tag.len()));
                assert(stands(s, tag, i));
            } else {
                assert forall|j: int| i <= j < s.len() implies (#[trigger] s[j] as u32) < 0x80 by {
                    assert(all.subrange(i, i + tag.len())[j - i] == all[j]);
                    assert(all[j] == s[j]);
                    assert(tag[j - i] == s[j]);
                }
                lemma_narrow_bytes(s, i);
                lemma_bytes_shrink(s, i + 1, cut);
                lemma_bytes_next(s, i);
            }
        }
    }
}

/// Enough bytes stay behind a cut that is not at the front.
pub proof fn lemma_cut_bounds(s: Seq<char>, keep: nat)
    ensures
        0 <= cut_at(s, keep) <= s.len(),
        cut_at(s, keep) > 0 ==> bytes(s.skip(cut_at(s, keep))) >= keep,
        cut_at(s, keep) < s.len() ==> bytes(s.skip(cut_at(s, keep) + 1)) < keep,
    decreases s.len(),
{
    if s.len() > 0 && bytes(s.skip(1)) >= keep {
        let t = s.skip(1);
        let c = cut_at(t, keep);
        lemma_cut_bounds(t, keep);
        assert(s.skip(1 + c) =~= t.skip(c));
        if c < t.len() {
            assert(s.skip(1 + c + 1) =~= t.skip(c + 1));
        }
        if c == 0 {
            assert(t.skip(0) =~= t);
        }
    }
}

/// The cut of longer text is where the cut of what stayed, with the rest behind it, is.
pub proof fn lemma_cut_behind(s: Seq<char>, more: Seq<char>, keep: nat)
    ensures
        ({
            let c = cut_at(s, keep);
            cut_at(s + more, keep) == c + cut_at(s.skip(c) + more, keep)
        }),
{
    let c = cut_at(s, keep);
    let all = s + more;
    let rest = s.skip(c) + more;
    lemma_cut_bounds(s, keep);
    lemma_cut_bounds(rest, keep);
    let d = cut_at(rest, keep);
    assert(all.skip(c + d) =~= rest.skip(d));
    if d < rest.len() {
        assert(all.skip(c + d + 1) =~= rest.skip(d + 1));
    }
    if c > 0 && d == 0 {
        assert(rest.skip(0) =~= rest);
        lemma_bytes_concat(s.skip(c), more);
    }
    lemma_cut(all, keep, c + d);
}

pub proof fn lemma_bytes_concat(a: Seq<char>, b: Seq<char>)
    ensures
        bytes(a + b) == bytes(a) + bytes(b),
    decreases a.len(),
{
    if a.len() == 0 {
        assert(a + b =~= b);
    } else {
        assert((a + b).drop_first() =~= a.drop_first() + b);
        lemma_bytes_concat(a.drop_first(), b);
    }
}

/// What a search finds stays where it is when text follows.
pub proof fn lemma_find_stays(s: Seq<char>, more: Seq<char>, pat: Seq<char>)
    requires
        find(s, pat) is Some,
    ensures
        find(s + more, pat) == find(s, pat),
{
    let all = s + more;
    let k = find(s, pat)->0;
    lemma_find_from(s, pat, 0);
    assert forall|j: int| 0 <= j <= k implies #[trigger] stands(all, pat, j) == stands(
        s,
        pat,
        j,
    ) by {
        assert(all.subrange(j, j + pat.len()) =~= s.subrange(j, j + pat.len()));
    }
    lemma_found(all, pat, 0, k);
}

} // verus!
