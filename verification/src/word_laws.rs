//! How text is taken apart: into the words that are tokenized, and into content and tool calls.

use vstd::prelude::*;

use crate::find;
use crate::scan;
use crate::scan::Flags;
use crate::tools;

verus! {

// ---- words --------------------------------------------------------------------------------------

/// A letter, or a mark on one.
pub open spec fn lettered(f: Flags) -> bool {
    f.letter || f.mark
}

/// White space and nothing else.
pub open spec fn blank(f: Flags) -> bool {
    f.whitespace && !f.letter && !f.mark && !f.number && !f.punct && !f.symbol
}

/// A letter and no number.
pub open spec fn plain_letter(f: Flags) -> bool {
    f.letter && !f.number && !f.whitespace
}

proof fn lemma_letters(fl: Seq<Flags>, p: int, q: int)
    requires
        0 <= p <= q <= fl.len(),
        forall|i: int| p <= i < q ==> lettered(#[trigger] fl[i]),
        q < fl.len() ==> !lettered(fl[q]),
    ensures
        scan::letters_end(fl, p) == q,
    decreases q - p,
{
    if p < q {
        assert(lettered(fl[p]));
        lemma_letters(fl, p + 1, q);
    }
}

/// Letters that follow one another make one word, with a single space in front of them or not.
pub proof fn law_letters_make_a_word(
    cs: Seq<u32>,
    fl: Seq<Flags>,
    low: Seq<u32>,
    pos: int,
    end: int,
)
    requires
        cs.len() == fl.len() == low.len(),
        0 <= pos < end <= cs.len(),
        forall|i: int| pos < i < end ==> lettered(#[trigger] fl[i]),
        end < fl.len() ==> !lettered(fl[end]),
        (plain_letter(fl[pos]) && !scan::is_newline(cs[pos]) && cs[pos] != 0x27) || (cs[pos] == 0x20
            && blank(fl[pos]) && pos + 1 < end),
    ensures
        scan::word_end(cs, fl, low, pos) == end,
{
    lemma_letters(fl, pos + 1, end);
    if pos + 1 < end {
        assert(lettered(fl[pos + 1]));
    }
}

/// Each number stands alone.
pub proof fn law_numbers_stand_alone(cs: Seq<u32>, fl: Seq<Flags>, low: Seq<u32>, pos: int)
    requires
        cs.len() == fl.len() == low.len(),
        0 <= pos < cs.len(),
        fl[pos].number,
        cs[pos] != 0x27,
    ensures
        scan::word_end(cs, fl, low, pos) == pos + 1,
{
}

/// An apostrophe takes the ending of a contraction with it, in capitals or not.
pub proof fn law_contractions_stand_alone(cs: Seq<u32>, fl: Seq<Flags>, low: Seq<u32>, pos: int)
    requires
        cs.len() == fl.len() == low.len(),
        0 <= pos < cs.len(),
        cs[pos] == 0x27,
    ensures
        pos + 1 < cs.len() && (low[pos + 1] as char == 's' || low[pos + 1] as char == 't'
            || low[pos + 1] as char == 'm' || low[pos + 1] as char == 'd') && low[pos + 1] < 0x80
            ==> scan::word_end(cs, fl, low, pos) == pos + 2,
        pos + 2 < cs.len() && low[pos + 1] < 0x80 && low[pos + 2] < 0x80 && (low[pos + 1] as char
            == 'r' && low[pos + 2] as char == 'e' || low[pos + 1] as char == 'v' && low[pos
            + 2] as char == 'e' || low[pos + 1] as char == 'l' && low[pos + 2] as char == 'l')
            ==> scan::word_end(cs, fl, low, pos) == pos + 3,
{
}

proof fn lemma_spaces(fl: Seq<Flags>, p: int, q: int)
    requires
        0 <= p <= q <= fl.len(),
        forall|i: int| p <= i < q ==> blank(#[trigger] fl[i]),
        q < fl.len() ==> !fl[q].whitespace,
    ensures
        scan::space_end(fl, p) == q,
    decreases q - p,
{
    if p < q {
        assert(blank(fl[p]));
        lemma_spaces(fl, p + 1, q);
    }
}

proof fn lemma_no_newline(cs: Seq<u32>, p: int, q: int)
    requires
        0 <= p <= q <= cs.len(),
        forall|i: int| p <= i < q ==> !scan::is_newline(#[trigger] cs[i]),
    ensures
        scan::last_newline(cs, p, q) == 0,
    decreases q - p,
{
    if p < q {
        assert(!scan::is_newline(cs[q - 1]));
        lemma_no_newline(cs, p, q - 1);
    }
}

/// Of two or more spaces before other text all but the last make a word: the last goes with what
/// follows. At the end of a text they all do.
pub proof fn law_spaces_leave_one(
    cs: Seq<u32>,
    fl: Seq<Flags>,
    low: Seq<u32>,
    pos: int,
    end: int,
)
    requires
        cs.len() == fl.len() == low.len(),
        0 <= pos,
        pos + 2 <= end <= cs.len(),
        forall|i: int| pos <= i < end ==> blank(#[trigger] fl[i]),
        forall|i: int| pos <= i < end ==> !scan::is_newline(#[trigger] cs[i]) && cs[i] != 0x27,
        end < cs.len() ==> !fl[end].whitespace && cs[end] != 0xFFFF_FFFF,
    ensures
        scan::word_end(cs, fl, low, pos) == if end < cs.len() {
            end - 1
        } else {
            end
        },
{
    assert(blank(fl[pos]) && blank(fl[pos + 1]));
    assert(!scan::is_newline(cs[pos]) && cs[pos] != 0x27);
    lemma_spaces(fl, pos, end);
    lemma_no_newline(cs, pos, end);
}

proof fn lemma_last_newline_at(cs: Seq<u32>, p: int, k: int, q: int)
    requires
        0 <= p <= k < q <= cs.len(),
        scan::is_newline(cs[k]),
        forall|i: int| k < i < q ==> !scan::is_newline(#[trigger] cs[i]),
    ensures
        scan::last_newline(cs, p, q) == k + 1,
    decreases q - p,
{
    if k < q - 1 {
        assert(!scan::is_newline(cs[q - 1]));
        lemma_last_newline_at(cs, p, k, q - 1);
    }
}

/// White space that holds a newline makes a word up to its last newline.
pub proof fn law_lines_end_words(
    cs: Seq<u32>,
    fl: Seq<Flags>,
    low: Seq<u32>,
    pos: int,
    k: int,
    end: int,
)
    requires
        cs.len() == fl.len() == low.len(),
        0 <= pos <= k < end <= cs.len(),
        forall|i: int| pos <= i < end ==> blank(#[trigger] fl[i]),
        end < cs.len() ==> !fl[end].whitespace,
        cs[pos] != 0x27,
        scan::is_newline(cs[k]),
        forall|i: int| k < i < end ==> !scan::is_newline(#[trigger] cs[i]),
        pos < k,
    ensures
        scan::word_end(cs, fl, low, pos) == k + 1,
{
    assert(blank(fl[pos]) && blank(fl[pos + 1]));
    lemma_spaces(fl, pos, end);
    lemma_last_newline_at(cs, pos, k, end);
}

proof fn lemma_others(fl: Seq<Flags>, p: int, q: int)
    requires
        0 <= p <= q <= fl.len(),
        forall|i: int| p <= i < q ==> (#[trigger] fl[i]).is_other(),
        q < fl.len() ==> !fl[q].is_other(),
    ensures
        scan::others_end(fl, p) == q,
    decreases q - p,
{
    if p < q {
        assert(fl[p].is_other());
        lemma_others(fl, p + 1, q);
    }
}

proof fn lemma_newlines(cs: Seq<u32>, p: int, q: int)
    requires
        0 <= p <= q <= cs.len(),
        forall|i: int| p <= i < q ==> scan::is_newline(#[trigger] cs[i]),
        q < cs.len() ==> !scan::is_newline(cs[q]),
    ensures
        scan::newlines_end(cs, p) == q,
    decreases q - p,
{
    if p < q {
        assert(scan::is_newline(cs[p]));
        lemma_newlines(cs, p + 1, q);
    }
}

/// A mark of punctuation or a symbol, and nothing else.
pub open spec fn punctuation(f: Flags) -> bool {
    (f.punct || f.symbol) && !f.letter && !f.mark && !f.number && !f.whitespace
}

/// Punctuation that is not followed by a letter makes one word with the newlines behind it.
pub proof fn law_punctuation_takes_newlines(
    cs: Seq<u32>,
    fl: Seq<Flags>,
    low: Seq<u32>,
    pos: int,
    mid: int,
    end: int,
)
    requires
        cs.len() == fl.len() == low.len(),
        0 <= pos < mid <= end <= cs.len(),
        forall|i: int| pos <= i < mid ==> punctuation(#[trigger] fl[i]),
        mid < fl.len() ==> fl[mid].whitespace && blank(fl[mid]),
        forall|i: int| mid <= i < end ==> scan::is_newline(#[trigger] cs[i]),
        end < cs.len() ==> !scan::is_newline(cs[end]),
        cs[pos] != 0x27,
        cs[pos] != 0x20,
        !scan::is_newline(cs[pos]),
    ensures
        scan::word_end(cs, fl, low, pos) == end,
{
    assert(punctuation(fl[pos]));
    if pos + 1 < mid {
        assert(punctuation(fl[pos + 1]));
    }
    assert forall|i: int| pos <= i < mid implies (#[trigger] fl[i]).is_other() by {
        assert(punctuation(fl[i]));
    }
    lemma_others(fl, pos, mid);
    lemma_newlines(cs, mid, end);
}

// ---- calls --------------------------------------------------------------------------------------

proof fn lemma_opens_at(t: Seq<char>, tail: Seq<char>)
    requires
        forall|i: int| 0 <= i < t.len() ==> #[trigger] t[i] != '<',
    ensures
        find::find(t + ("<tool_call>"@ + tail), "<tool_call>"@) == Some(t.len() as int),
        find::find(t, "<tool_call>"@) is None,
{
    reveal_strlit("<tool_call>");
    let open = "<tool_call>"@;
    let s = t + (open + tail);
    let n = t.len() as int;
    assert(s.subrange(n, n + open.len()) =~= open);
    assert forall|j: int| 0 <= j < n implies !#[trigger] find::stands(s, open, j) by {
        if find::stands(s, open, j) {
            assert(s.subrange(j, j + open.len())[0] == t[j]);
            assert(open[0] == '<');
        }
    }
    find::lemma_found(s, open, 0, n);
    assert forall|j: int| 0 <= j implies !#[trigger] find::stands(t, open, j) by {
        if find::stands(t, open, j) {
            assert(t.subrange(j, j + open.len())[0] == t[j]);
            assert(open[0] == '<');
        }
    }
    find::lemma_not_found(t, open, 0);
}

/// A reply is taken apart block by block: the text before a block is content, the block is its
/// call, and what follows is taken apart in the same way. A block that stays open is dropped.
pub proof fn law_reply_is_taken_apart(t: Seq<char>, b: Seq<char>, rest: Seq<char>)
    requires
        forall|i: int| 0 <= i < t.len() ==> #[trigger] t[i] != '<',
        forall|i: int|
            0 <= i < b.len() ==> !#[trigger] find::stands(
                b + ("</tool_call>"@ + rest),
                "</tool_call>"@,
                i,
            ),
        find::find(b, "</tool_call>"@) is None,
    ensures
        tools::calls_of(t) == (t, Seq::<tools::Call>::empty()),
        tools::calls_of(t + ("<tool_call>"@ + b)) == (t, Seq::<tools::Call>::empty()),
        tools::calls_of(t + ("<tool_call>"@ + (b + ("</tool_call>"@ + rest)))) == (
            t + tools::calls_of(rest).0,
            (match tools::block_of(b) {
                Some(c) => seq![c],
                None => Seq::empty(),
            }) + tools::calls_of(rest).1,
        ),
{
    reveal_strlit("<tool_call>");
    reveal_strlit("</tool_call>");
    let (open, close) = ("<tool_call>"@, "</tool_call>"@);
    let n = t.len() as int;
    lemma_opens_at(t, b);
    let u = t + (open + b);
    assert(u.skip(n + open.len()) =~= b);
    assert(u.take(n) =~= t);
    let tail = b + (close + rest);
    lemma_opens_at(t, tail);
    let s = t + (open + tail);
    let after = s.skip(n + open.len());
    assert(after =~= tail);
    assert(s.take(n) =~= t);
    let k = b.len() as int;
    assert(tail.subrange(k, k + close.len()) =~= close);
    find::lemma_found(tail, close, 0, k);
    assert(tail.take(k) =~= b);
    assert(tail.skip(k + close.len()) =~= rest);
}

} // verus!
