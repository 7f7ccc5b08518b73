//! The word scanner: splits a text into the words that the merge pass works on.

use vstd::prelude::*;
use vstd::string::*;
use vstd::utf8::*;

use crate::text;

verus! {

/// The classes of a code point that the scanner distinguishes.
#[derive(Debug, Clone, Copy, PartialEq, Eq, Structural)]
pub struct Flags {
    pub whitespace: bool,
    pub letter: bool,
    pub mark: bool,
    pub number: bool,
    pub punct: bool,
    pub symbol: bool,
}

/// A code point of no class.
pub open spec fn no_flags() -> Flags {
    Flags {
        whitespace: false,
        letter: false,
        mark: false,
        number: false,
        punct: false,
        symbol: false,
    }
}

impl Default for Flags {
    fn default() -> (r: Flags)
        ensures
            r == no_flags(),
    {
        Flags {
            whitespace: false,
            letter: false,
            mark: false,
            number: false,
            punct: false,
            symbol: false,
        }
    }
}

impl Flags {
    pub open spec fn has_any(self) -> bool {
        self.whitespace || self.letter || self.mark || self.number || self.punct || self.symbol
    }

    pub open spec fn has_main(self) -> bool {
        self.whitespace || self.letter || self.mark || self.number
    }

    /// Neither space, letter, mark nor number, but of some class.
    pub open spec fn is_other(self) -> bool {
        !self.has_main() && self.has_any()
    }

    pub fn any(&self) -> (r: bool)
        ensures
            r == self.has_any(),
    {
        self.whitespace || self.letter || self.mark || self.number || self.punct || self.symbol
    }

    pub fn any_of_main(&self) -> (r: bool)
        ensures
            r == self.has_main(),
    {
        self.whitespace || self.letter || self.mark || self.number
    }
}

/// The alphabetic property of a character.
pub uninterp spec fn char_is_alphabetic(c: char) -> bool;

/// Whether a character has one of the number categories.
pub uninterp spec fn char_is_numeric(c: char) -> bool;

/// The lower-case mapping of a character.
pub uninterp spec fn char_lowercase(c: char) -> Seq<char>;

/// The two-letter abbreviation of a character's general category.
pub uninterp spec fn general_category(c: char) -> Seq<char>;

/// `char::is_alphabetic` is a property of the character alone.
pub assume_specification[ char::is_alphabetic ](c: char) -> (r: bool)
    ensures
        r == char_is_alphabetic(c),
;

/// `char::is_numeric` is a property of the character alone.
pub assume_specification[ char::is_numeric ](c: char) -> (r: bool)
    ensures
        r == char_is_numeric(c),
;

/// `char::to_lowercase` maps a character to one or more characters, by the character alone.
#[verifier::external_body]
fn lowercase(c: char) -> (r: String)
    ensures
        r@ == char_lowercase(c),
{
    c.to_lowercase().to_string()
}

/// `unicode_general_category::get_general_category` looks a character's category up in a table;
/// its two-letter abbreviation is a function of the character.
#[verifier::external_body]
fn category(c: char) -> (r: &'static str)
    ensures
        r@ == general_category(c),
{
    unicode_general_category::get_general_category(c).abbreviation()
}

/// The classes of a code point; none if it is no scalar value.
pub open spec fn classes(c: u32) -> Flags {
    if is_scalar(c) {
        let ch = c as char;
        let gc = general_category(ch);
        Flags {
            whitespace: text::char_is_whitespace(ch),
            letter: char_is_alphabetic(ch),
            mark: gc == "Mn"@ || gc == "Mc"@ || gc == "Me"@,
            number: char_is_numeric(ch),
            punct: gc == "Pc"@ || gc == "Pd"@ || gc == "Pe"@ || gc == "Pf"@ || gc == "Pi"@ || gc
                == "Po"@ || gc == "Ps"@,
            symbol: gc == "Sm"@ || gc == "Sc"@ || gc == "Sk"@ || gc == "So"@,
        }
    } else {
        no_flags()
    }
}

/// The classes of a code point.
pub fn flags_of(c: u32) -> (r: Flags)
    ensures
        r == classes(c),
{
    let ch: char = match char::from_u32(c) {
        Some(ch) => ch,
        None => {
            return Flags::default();
        },
    };
    proof {
        char_is_scalar(ch);
        assert(ch as u32 == c);
        assert(c as char == ch);
    }
    let gc: &str = category(ch);
    Flags {
        whitespace: ch.is_whitespace(),
        letter: ch.is_alphabetic(),
        mark: text::same(gc, "Mn") || text::same(gc, "Mc") || text::same(gc, "Me"),
        number: ch.is_numeric(),
        punct: text::same(gc, "Pc") || text::same(gc, "Pd") || text::same(gc, "Pe") || text::same(
            gc,
            "Pf",
        ) || text::same(gc, "Pi") || text::same(gc, "Po") || text::same(gc, "Ps"),
        symbol: text::same(gc, "Sm") || text::same(gc, "Sc") || text::same(gc, "Sk") || text::same(
            gc,
            "So",
        ),
    }
}

/// The first code point of the lower-case mapping; a number that is no scalar value maps to
/// itself.
pub open spec fn lowered(c: u32) -> u32 {
    if is_scalar(c) && char_lowercase(c as char).len() > 0 {
        char_lowercase(c as char)[0] as u32
    } else {
        c
    }
}

/// The first code point of the lower-case mapping.
pub fn to_lower(c: u32) -> (r: u32)
    ensures
        r == lowered(c),
{
    match char::from_u32(c) {
        Some(ch) => {
            proof {
                char_is_scalar(ch);
                assert(ch as u32 == c);
                assert(c as char == ch);
            }
            let low: Vec<char> = text::chars_of(lowercase(ch).as_str());
            if low.len() > 0 {
                low[0] as u32
            } else {
                c
            }
        },
        None => c,
    }
}

/// The code point at `p`, or a number that is none behind the end.
pub open spec fn point_at(cs: Seq<u32>, p: int) -> u32 {
    if 0 <= p < cs.len() {
        cs[p]
    } else {
        0xFFFF_FFFF
    }
}

/// The classes at `p`, none behind the end.
pub open spec fn flags_at(fl: Seq<Flags>, p: int) -> Flags {
    if 0 <= p < fl.len() {
        fl[p]
    } else {
        no_flags()
    }
}

pub open spec fn is_newline(c: u32) -> bool {
    c == 0x0D || c == 0x0A
}

/// The end of the run of letters and marks from `p` on.
pub open spec fn letters_end(fl: Seq<Flags>, p: int) -> int
    decreases fl.len() - p,
{
    if 0 <= p < fl.len() && (fl[p].letter || fl[p].mark) {
        letters_end(fl, p + 1)
    } else {
        p
    }
}

/// The end of the run of other classified characters from `p` on.
pub open spec fn others_end(fl: Seq<Flags>, p: int) -> int
    decreases fl.len() - p,
{
    if 0 <= p < fl.len() && fl[p].is_other() {
        others_end(fl, p + 1)
    } else {
        p
    }
}

/// The end of the run of newline characters from `p` on.
pub open spec fn newlines_end(cs: Seq<u32>, p: int) -> int
    decreases cs.len() - p,
{
    if 0 <= p < cs.len() && is_newline(cs[p]) {
        newlines_end(cs, p + 1)
    } else {
        p
    }
}

/// The end of the run of white space from `p` on.
pub open spec fn space_end(fl: Seq<Flags>, p: int) -> int
    decreases fl.len() - p,
{
    if 0 <= p < fl.len() && fl[p].whitespace {
        space_end(fl, p + 1)
    } else {
        p
    }
}

/// The position behind the last newline character between `p` and `q`; 0 if there is none.
pub open spec fn last_newline(cs: Seq<u32>, p: int, q: int) -> int
    decreases q - p,
{
    if q <= p {
        0
    } else if is_newline(point_at(cs, q - 1)) {
        q
    } else {
        last_newline(cs, p, q - 1)
    }
}

/// The length of the contraction that the apostrophe at `pos` begins; 0 if it begins none.
pub open spec fn contraction(cs: Seq<u32>, low: Seq<u32>, pos: int) -> int {
    let n1 = low[pos + 1];
    let n2 = low[pos + 2];
    if cs[pos] != 0x27 || pos + 1 >= cs.len() {
        0
    } else if n1 == 0x73 || n1 == 0x74 || n1 == 0x6D || n1 == 0x64 {
        2
    } else if pos + 2 < cs.len() && ((n1 == 0x72 && n2 == 0x65) || (n1 == 0x76 && n2 == 0x65) || (
    n1 == 0x6C && n2 == 0x6C)) {
        3
    } else {
        0
    }
}

/// Where the word that begins at `pos` ends. In the order of the alternatives: a contraction; an
/// optional character that is neither newline, letter nor number, with letters and marks; one
/// number; an optional space with other characters and newlines; white space up to its last
/// newline; white space but for its last character where text follows; white space; any one
/// character.
pub open spec fn word_end(cs: Seq<u32>, fl: Seq<Flags>, low: Seq<u32>, pos: int) -> int {
    let c = cs[pos];
    let f = fl[pos];
    let next = flags_at(fl, pos + 1);
    let lead = if c == 0x20 {
        1int
    } else {
        0int
    };
    let f2 = if c == 0x20 {
        next
    } else {
        f
    };
    let ws = space_end(fl, pos);
    let nl = last_newline(cs, pos, ws);
    if contraction(cs, low, pos) > 0 {
        pos + contraction(cs, low, pos)
    } else if !is_newline(c) && !f.number && (f.letter || f.mark || next.mark || next.letter) {
        letters_end(fl, pos + 1)
    } else if f.number {
        pos + 1
    } else if !f2.has_main() && f.has_any() {
        newlines_end(cs, others_end(fl, pos + lead))
    } else if nl > 0 {
        nl
    } else if ws - pos > 1 && point_at(cs, ws) != 0xFFFF_FFFF {
        ws - 1
    } else if ws > pos {
        ws
    } else {
        pos + 1
    }
}

/// The lengths of the words from `pos` on.
pub open spec fn word_lengths(cs: Seq<u32>, fl: Seq<Flags>, low: Seq<u32>, pos: int) -> Seq<int>
    decreases cs.len() - pos,
{
    let e = word_end(cs, fl, low, pos);
    if 0 <= pos < e <= cs.len() {
        seq![e - pos] + word_lengths(cs, fl, low, e)
    } else {
        Seq::empty()
    }
}

proof fn lemma_runs(cs: Seq<u32>, fl: Seq<Flags>, p: int)
    requires
        0 <= p <= cs.len(),
        cs.len() == fl.len(),
    ensures
        p <= letters_end(fl, p) <= fl.len(),
        p <= others_end(fl, p) <= fl.len(),
        p <= newlines_end(cs, p) <= cs.len(),
        p <= space_end(fl, p) <= fl.len(),
    decreases cs.len() - p,
{
    if p < cs.len() {
        lemma_runs(cs, fl, p + 1);
    }
}

proof fn lemma_last_newline(cs: Seq<u32>, p: int, q: int)
    requires
        0 <= p <= q,
    ensures
        last_newline(cs, p, q) == 0 || p < last_newline(cs, p, q) <= q,
    decreases q - p,
{
    if p < q {
        lemma_last_newline(cs, p, q - 1);
    }
}

/// A word is not empty and stays within the text.
pub proof fn lemma_word_end(cs: Seq<u32>, fl: Seq<Flags>, low: Seq<u32>, pos: int)
    requires
        0 <= pos < cs.len(),
        fl.len() == cs.len(),
        low.len() == cs.len(),
    ensures
        pos < word_end(cs, fl, low, pos) <= cs.len(),
{
    lemma_runs(cs, fl, pos);
    lemma_runs(cs, fl, pos + 1);
    lemma_runs(cs, fl, others_end(fl, pos));
    lemma_runs(cs, fl, others_end(fl, pos + 1));
    lemma_last_newline(cs, pos, space_end(fl, pos));
}

/// The sum of lengths.
pub open spec fn total(s: Seq<int>) -> int
    decreases s.len(),
{
    if s.len() == 0 {
        0
    } else {
        s[0] + total(s.skip(1))
    }
}

/// The words partition the text: none is empty, and together they are as long as it is.
pub proof fn law_words_partition(cs: Seq<u32>, fl: Seq<Flags>, low: Seq<u32>, pos: int)
    requires
        0 <= pos <= cs.len(),
        fl.len() == cs.len(),
        low.len() == cs.len(),
    ensures
        total(word_lengths(cs, fl, low, pos)) == cs.len() - pos,
        forall|i: int|
            0 <= i < word_lengths(cs, fl, low, pos).len() ==> #[trigger] word_lengths(
                cs,
                fl,
                low,
                pos,
            )[i] > 0,
    decreases cs.len() - pos,
{
    if pos < cs.len() {
        lemma_word_end(cs, fl, low, pos);
        let e = word_end(cs, fl, low, pos);
        law_words_partition(cs, fl, low, e);
        let rest = word_lengths(cs, fl, low, e);
        let all = word_lengths(cs, fl, low, pos);
        assert(all.skip(1) =~= rest);
        assert forall|i: int| 0 <= i < all.len() implies #[trigger] all[i] > 0 by {
            if i > 0 {
                assert(all[i] == rest[i - 1]);
            }
        }
    }
}

fn get_flags(fl: &Vec<Flags>, p: usize) -> (r: Flags)
    ensures
        r == flags_at(fl@, p as int),
{
    if p < fl.len() {
        fl[p]
    } else {
        Flags::default()
    }
}

fn get_cpt(cs: &[u32], p: usize) -> (r: u32)
    ensures
        r == point_at(cs@, p as int),
{
    if p < cs.len() {
        cs[p]
    } else {
        0xFFFF_FFFF
    }
}

/// Where the word that begins at `pos` ends.
fn find_end(cs: &[u32], fl: &Vec<Flags>, low: &Vec<u32>, pos: usize) -> (r: usize)
    requires
        pos < cs@.len(),
        fl@.len() == cs@.len(),
        low@.len() == cs@.len(),
    ensures
        r == word_end(cs@, fl@, low@, pos as int),
        pos < r <= cs@.len(),
{
    proof {
        lemma_word_end(cs@, fl@, low@, pos as int);
    }
    let len: usize = cs.len();
    let c: u32 = cs[pos];
    let f: Flags = fl[pos];
    if c == 0x27 && len - pos > 1 {
        let n1: u32 = low[pos + 1];
        if n1 == 0x73 || n1 == 0x74 || n1 == 0x6D || n1 == 0x64 {
            return pos + 2;
        }
        if len - pos > 2 {
            let n2: u32 = low[pos + 2];
            if (n1 == 0x72 && n2 == 0x65) || (n1 == 0x76 && n2 == 0x65) || (n1 == 0x6C && n2
                == 0x6C) {
                return pos + 3;
            }
        }
    }
    assert(contraction(cs@, low@, pos as int) == 0);
    let nf: Flags = get_flags(fl, pos + 1);
    if !(c == 0x0D || c == 0x0A || f.number) {
        if f.letter || f.mark || nf.mark || nf.letter {
            let mut p: usize = pos + 1;
            while p < len && (fl[p].letter || fl[p].mark)
                invariant
                    len == fl@.len(),
                    pos < p <= len,
                    letters_end(fl@, pos + 1) == letters_end(fl@, p as int),
                decreases len - p,
            {
                p += 1;
            }
            return p;
        }
    }
    if f.number {
        return pos + 1;
    }
    let f2: Flags = if c == 0x20 {
        nf
    } else {
        f
    };
    if !f2.any_of_main() && f.any() {
        let start: usize = if c == 0x20 {
            pos + 1
        } else {
            pos
        };
        let mut p: usize = start;
        while p < len && !fl[p].any_of_main() && fl[p].any()
            invariant
                len == fl@.len(),
                start <= p <= len,
                others_end(fl@, start as int) == others_end(fl@, p as int),
            decreases len - p,
        {
            p += 1;
        }
        let mid: usize = p;
        while p < len && (cs[p] == 0x0D || cs[p] == 0x0A)
            invariant
                len == cs@.len(),
                mid <= p <= len,
                newlines_end(cs@, mid as int) == newlines_end(cs@, p as int),
            decreases len - p,
        {
            p += 1;
        }
        return p;
    }
    let mut q: usize = pos;
    let mut last_nl: usize = 0;
    while q < len && fl[q].whitespace
        invariant
            len == fl@.len(),
            len == cs@.len(),
            pos <= q <= len,
            space_end(fl@, pos as int) == space_end(fl@, q as int),
            last_nl == last_newline(cs@, pos as int, q as int),
        decreases len - q,
    {
        if cs[q] == 0x0D || cs[q] == 0x0A {
            last_nl = q + 1;
        }
        q += 1;
    }
    if last_nl > 0 {
        return last_nl;
    }
    if q - pos > 1 && get_cpt(cs, q) != 0xFFFF_FFFF {
        return q - 1;
    }
    if q > pos {
        return q;
    }
    pos + 1
}

/// The lengths of the words of a text whose code points have the given classes and lower-case
/// mappings.
pub fn scan_flags(cs: &[u32], fl: &Vec<Flags>, low: &Vec<u32>) -> (r: Vec<usize>)
    requires
        fl@.len() == cs@.len(),
        low@.len() == cs@.len(),
    ensures
        r@.map_values(|x: usize| x as int) == word_lengths(cs@, fl@, low@, 0),
{
    let ghost f = |x: usize| x as int;
    let mut words: Vec<usize> = Vec::new();
    let mut pos: usize = 0;
    assert(words@.map_values(f) + word_lengths(cs@, fl@, low@, 0) =~= word_lengths(
        cs@,
        fl@,
        low@,
        0,
    ));
    while pos < cs.len()
        invariant
            pos <= cs@.len(),
            fl@.len() == cs@.len(),
            low@.len() == cs@.len(),
            f == (|x: usize| x as int),
            words@.map_values(f) + word_lengths(cs@, fl@, low@, pos as int) == word_lengths(
                cs@,
                fl@,
                low@,
                0,
            ),
        decreases cs@.len() - pos,
    {
        let e: usize = find_end(cs, fl, low, pos);
        let ghost before = words@;
        words.push(e - pos);
        proof {
            assert(words@.map_values(f) =~= before.map_values(f).push(e - pos));
            let rest = word_lengths(cs@, fl@, low@, e as int);
            assert(before.map_values(f) + (seq![e - pos] + rest) =~= before.map_values(f).push(
                e - pos,
            ) + rest);
        }
        pos = e;
    }
    assert(words@.map_values(f) + Seq::<int>::empty() =~= words@.map_values(f));
    words
}

/// The lengths of the words of a text.
pub open spec fn words_of(cs: Seq<u32>) -> Seq<int> {
    word_lengths(
        cs,
        cs.map_values(|c: u32| classes(c)),
        cs.map_values(|c: u32| lowered(c)),
        0,
    )
}

/// Splits a text, given by its code points, into words. Returns the word lengths, which
/// partition the text.
pub fn scan_qwen35(cpts: &[u32]) -> (r: Vec<usize>)
    ensures
        r@.map_values(|x: usize| x as int) == words_of(cpts@),
        total(r@.map_values(|x: usize| x as int)) == cpts@.len(),
        forall|i: int| 0 <= i < r@.len() ==> #[trigger] r@[i] > 0,
{
    let mut fl: Vec<Flags> = Vec::new();
    let mut low: Vec<u32> = Vec::new();
    let ghost cf = |c: u32| classes(c);
    let ghost lf = |c: u32| lowered(c);
    let mut i: usize = 0;
    while i < cpts.len()
        invariant
            i <= cpts@.len(),
            cf == (|c: u32| classes(c)),
            lf == (|c: u32| lowered(c)),
            fl@ == cpts@.take(i as int).map_values(cf),
            low@ == cpts@.take(i as int).map_values(lf),
        decreases cpts@.len() - i,
    {
        fl.push(flags_of(cpts[i]));
        low.push(to_lower(cpts[i]));
        i += 1;
        assert(fl@ =~= cpts@.take(i as int).map_values(cf));
        assert(low@ =~= cpts@.take(i as int).map_values(lf));
    }
    assert(cpts@.take(i as int) =~= cpts@);
    let r = scan_flags(cpts, &fl, &low);
    proof {
        law_words_partition(cpts@, fl@, low@, 0);
        let m = r@.map_values(|x: usize| x as int);
        assert forall|i: int| 0 <= i < r@.len() implies #[trigger] r@[i] > 0 by {
            assert(m[i] > 0);
        }
    }
    r
}

} // verus!
