//! Byte-level pair-merge tokenizer: special tokens, words, merges, token ids.

use vstd::prelude::*;
use vstd::slice::*;
use vstd::string::*;
use vstd::utf8::*;

use crate::byte_level;
use crate::find;
use crate::gguf;
use crate::gguf::{Value, ValueV, GGUF};
use crate::lookup;
use crate::lookup::Table;
use crate::scan;
use crate::text;

verus! {

/// The content of a vocabulary.
pub struct VocabV {
    pub tokens: Seq<Seq<char>>,
    /// Per id: 3 control, 4 user-defined, others ordinary.
    pub types: Seq<i32>,
    /// The merges; an earlier one ranks before a later one.
    pub merges: Seq<(Seq<char>, Seq<char>)>,
}

/// A string as a key of a table of single strings.
pub open spec fn single(s: Seq<char>) -> (Seq<char>, Seq<char>) {
    (s, Seq::empty())
}

impl VocabV {
    /// The tokens as keys of a table.
    pub open spec fn keys(self) -> Seq<(Seq<char>, Seq<char>)> {
        self.tokens.map_values(|s: Seq<char>| single(s))
    }

    /// The id of a token text: of equal texts the last.
    pub open spec fn id_of(self, s: Seq<char>) -> Option<i32> {
        match lookup::last_place(self.keys(), single(s)) {
            Some(i) => Some(i as i32),
            None => None,
        }
    }

    /// The id of the token that is one byte long and holds `b`.
    pub open spec fn byte_id(self, b: u8) -> Option<i32> {
        if b < 128 {
            self.id_of(seq![b as char])
        } else {
            None
        }
    }

    pub open spec fn type_of(self, id: int) -> i32 {
        type_at(self.types, id)
    }

    /// The rank of a merge.
    pub open spec fn rank(self, a: Seq<char>, b: Seq<char>) -> Option<int> {
        lookup::last_place(self.merges, (a, b))
    }

    /// The ids of control and user-defined tokens below `n`, in order.
    pub open spec fn specials(self, n: int) -> Seq<i32>
        decreases n,
    {
        if n <= 0 {
            Seq::empty()
        } else {
            let done = self.specials(n - 1);
            let t = self.type_of(n - 1);
            if t == 3 || t == 4 {
                done.push((n - 1) as i32)
            } else {
                done
            }
        }
    }
}

/// The type of token `id`, 0 where none is recorded.
pub open spec fn type_at(types: Seq<i32>, id: int) -> i32 {
    if 0 <= id < types.len() {
        types[id]
    } else {
        0
    }
}

/// A vocabulary.
#[derive(Debug)]
pub struct Vocab {
    pub tokens: Vec<String>,
    pub text_to_id: Table,
    pub token_types: Vec<i32>,
    pub merges: Table,
    pub special_ids: Vec<i32>,
}

/// The contents of a list of strings.
pub open spec fn strings(s: Seq<String>) -> Seq<Seq<char>> {
    Seq::new(s.len(), |i: int| s[i]@)
}

impl Vocab {
    pub open spec fn view(&self) -> VocabV {
        VocabV { tokens: strings(self.tokens@), types: self.token_types@, merges: self.merges@ }
    }

    /// The tables agree with the token list.
    pub open spec fn wf(&self) -> bool {
        &&& self.text_to_id.wf()
        &&& self.merges.wf()
        &&& self.text_to_id@ == self@.keys()
        &&& self.special_ids@ == self@.specials(self.tokens@.len() as int)
        &&& self.tokens@.len() <= i32::MAX
    }

    /// The id of a token text.
    pub fn token(&self, s: &str) -> (r: Option<i32>)
        requires
            self.wf(),
        ensures
            r == self@.id_of(s@),
    {
        assert(""@ =~= Seq::<char>::empty()) by {
            reveal_strlit("");
        }
        proof {
            lookup::lemma_last_place(self@.keys(), single(s@));
        }
        match self.text_to_id.find(s, "") {
            Some(i) => Some(i as i32),
            None => None,
        }
    }

    /// The rank of a merge.
    pub fn find_bpe_rank(&self, left: &str, right: &str) -> (r: Option<usize>)
        requires
            self.wf(),
        ensures
            match r {
                Some(k) => self@.rank(left@, right@) == Some(k as int),
                None => self@.rank(left@, right@) is None,
            },
    {
        self.merges.find(left, right)
    }

    /// The bytes that a token renders to. Control tokens, and ids outside the vocabulary, render
    /// empty.
    pub fn piece_bytes(&self, id: i32) -> (r: Vec<u8>)
        ensures
            r@ == self@.piece(id as int),
    {
        if id < 0 || id as usize >= self.tokens.len() {
            return Vec::new();
        }
        let tt: i32 = if (id as usize) < self.token_types.len() {
            self.token_types[id as usize]
        } else {
            0
        };
        if tt == 3 {
            return Vec::new();
        }
        byte_level::decode_bytes(self.tokens[id as usize].as_str())
    }
}

impl VocabV {
    /// The bytes that token `id` renders to.
    pub open spec fn piece(self, id: int) -> Seq<u8> {
        if 0 <= id < self.tokens.len() && self.type_of(id) != 3 {
            byte_level::decoded(self.tokens[id])
        } else {
            Seq::empty()
        }
    }
}

/// The merge with the lowest rank among the first `k` neighbouring pairs, the leftmost of equals.
pub open spec fn best_pair(v: VocabV, syms: Seq<Seq<char>>, k: int) -> Option<int>
    decreases k,
{
    if k <= 0 {
        None
    } else {
        let before = best_pair(v, syms, k - 1);
        match v.rank(syms[k - 1], syms[k]) {
            None => before,
            Some(r) => match before {
                None => Some(k - 1),
                Some(b) => if r < v.rank(syms[b], syms[b + 1])->0 {
                    Some(k - 1)
                } else {
                    before
                },
            },
        }
    }
}

/// The symbols with the `i`-th pair merged into one.
pub open spec fn merged(syms: Seq<Seq<char>>, i: int) -> Seq<Seq<char>> {
    syms.take(i).push(syms[i] + syms[i + 1]) + syms.skip(i + 2)
}

/// The symbols after all merges: always the pair of lowest rank, the leftmost of equals.
pub open spec fn merge_all(v: VocabV, syms: Seq<Seq<char>>) -> Seq<Seq<char>>
    decreases syms.len(),
{
    match best_pair(v, syms, syms.len() - 1) {
        None => syms,
        Some(i) => if 0 <= i < syms.len() - 1 {
            merge_all(v, merged(syms, i))
        } else {
            syms
        },
    }
}

/// One symbol per character.
pub open spec fn letters(word: Seq<char>) -> Seq<Seq<char>> {
    word.map_values(|c: char| seq![c])
}

/// The ids of the one-byte tokens of `b`; bytes without one are left out.
pub open spec fn byte_ids(v: VocabV, b: Seq<u8>) -> Seq<i32>
    decreases b.len(),
{
    if b.len() == 0 {
        Seq::empty()
    } else {
        let done = byte_ids(v, b.drop_last());
        match v.byte_id(b.last()) {
            Some(id) => done.push(id),
            None => done,
        }
    }
}

/// The ids of one symbol: its token, else those of its bytes.
pub open spec fn symbol_ids(v: VocabV, s: Seq<char>) -> Seq<i32> {
    match v.id_of(s) {
        Some(id) => seq![id],
        None => byte_ids(v, encode_utf8(s)),
    }
}

pub open spec fn symbols_ids(v: VocabV, syms: Seq<Seq<char>>) -> Seq<i32>
    decreases syms.len(),
{
    if syms.len() == 0 {
        Seq::empty()
    } else {
        symbols_ids(v, syms.drop_last()) + symbol_ids(v, syms.last())
    }
}

/// The ids of one word in the byte-level alphabet.
pub open spec fn word_ids(v: VocabV, word: Seq<char>) -> Seq<i32> {
    symbols_ids(v, merge_all(v, letters(word)))
}

/// What a cached rank says.
pub open spec fn rank_view(r: Option<usize>) -> Option<int> {
    match r {
        Some(k) => Some(k as int),
        None => None,
    }
}

/// Runs the merges on a word's symbols.
fn merge_word(word: &str, vocab: &Vocab) -> (r: Vec<String>)
    requires
        vocab.wf(),
    ensures
        strings(r@) == merge_all(vocab@, letters(word@)),
{
    let cs: Vec<char> = text::chars_of(word);
    let n: usize = cs.len();
    let mut syms: Vec<String> = Vec::new();
    let mut i: usize = 0;
    while i < n
        invariant
            i <= n,
            n == cs@.len(),
            strings(syms@) == letters(cs@).take(i as int),
        decreases n - i,
    {
        let mut s = String::new();
        s.push(cs[i]);
        let ghost before = syms@;
        syms.push(s);
        i += 1;
        proof {
            assert(s@ =~= seq![cs@[i - 1]]);
            assert(strings(syms@) =~= strings(before).push(s@));
            assert(letters(cs@).take(i as int) =~= letters(cs@).take(i - 1).push(
                letters(cs@)[i - 1],
            ));
        }
    }
    assert(letters(cs@).take(i as int) =~= letters(cs@));
    if n == 0 {
        assert(best_pair(vocab@, letters(word@), -1) is None);
        return syms;
    }
    let mut ranks: Vec<Option<usize>> = Vec::new();
    i = 0;
    while i + 1 < n
        invariant
            i < n,
            n == syms@.len(),
            vocab.wf(),
            ranks@.len() == i,
            forall|j: int|
                0 <= j < i ==> rank_view(#[trigger] ranks@[j]) == vocab@.rank(
                    strings(syms@)[j],
                    strings(syms@)[j + 1],
                ),
        decreases n - i,
    {
        ranks.push(vocab.find_bpe_rank(syms[i].as_str(), syms[i + 1].as_str()));
        i += 1;
    }
    let mut more: bool = true;
    while more
        invariant
            vocab.wf(),
            syms@.len() == ranks@.len() + 1,
            forall|j: int|
                0 <= j < ranks@.len() ==> rank_view(#[trigger] ranks@[j]) == vocab@.rank(
                    strings(syms@)[j],
                    strings(syms@)[j + 1],
                ),
            merge_all(vocab@, letters(word@)) == merge_all(vocab@, strings(syms@)),
            !more ==> best_pair(vocab@, strings(syms@), syms@.len() - 1) is None,
        decreases syms@.len(), if more { 1nat } else { 0nat },
    {
        let ghost cur = strings(syms@);
        let m: usize = ranks.len();
        let mut best: Option<usize> = None;
        let mut k: usize = 0;
        while k < m
            invariant
                k <= m,
                m == ranks@.len(),
                cur == strings(syms@),
                syms@.len() == m + 1,
                forall|j: int|
                    0 <= j < ranks@.len() ==> rank_view(#[trigger] ranks@[j]) == vocab@.rank(
                        cur[j],
                        cur[j + 1],
                    ),
                rank_view(best) == best_pair(vocab@, cur, k as int),
                best matches Some(b) ==> b < k && ranks@[b as int] is Some,
            decreases m - k,
        {
            if let Some(r) = ranks[k] {
                assert(vocab@.rank(cur[k as int], cur[k + 1]) == Some(r as int));
                match best {
                    None => {
                        best = Some(k);
                    },
                    Some(b) => {
                        if let Some(rb) = ranks[b] {
                            assert(vocab@.rank(cur[b as int], cur[b + 1]) == Some(rb as int));
                            if r < rb {
                                best = Some(k);
                            }
                        }
                    },
                }
            } else {
                assert(vocab@.rank(cur[k as int], cur[k + 1]) is None);
            }
            k += 1;
        }
        match best {
            None => {
                more = false;
            },
            Some(b) => {
                let joined: String = text::concat(syms[b].as_str(), syms[b + 1].as_str());
                let ghost old_ranks = ranks@;
                syms.remove(b + 1);
                syms.set(b, joined);
                ranks.remove(b);
                let ghost next = strings(syms@);
                proof {
                    assert(next =~= merged(cur, b as int));
                    assert(merge_all(vocab@, cur) == merge_all(vocab@, next));
                    assert forall|j: int|
                        0 <= j < ranks@.len() && j != b && j != b - 1 implies rank_view(
                        #[trigger] ranks@[j],
                    ) == vocab@.rank(next[j], next[j + 1]) by {
                        if j < b {
                            assert(ranks@[j] == old_ranks[j]);
                            assert(next[j] == cur[j] && next[j + 1] == cur[j + 1]);
                        } else {
                            assert(ranks@[j] == old_ranks[j + 1]);
                            assert(next[j] == cur[j + 1] && next[j + 1] == cur[j + 2]);
                        }
                    }
                }
                if b < ranks.len() {
                    let r = vocab.find_bpe_rank(syms[b].as_str(), syms[b + 1].as_str());
                    ranks.set(b, r);
                }
                if b > 0 {
                    let r = vocab.find_bpe_rank(syms[b - 1].as_str(), syms[b].as_str());
                    ranks.set(b - 1, r);
                }
            },
        }
    }
    syms
}

/// Appends the ids of a word in the byte-level alphabet.
pub fn encode_word(word: &str, vocab: &Vocab, out: &mut Vec<i32>)
    requires
        vocab.wf(),
    ensures
        final(out)@ == old(out)@ + word_ids(vocab@, word@),
{
    let syms: Vec<String> = merge_word(word, vocab);
    let ghost all = strings(syms@);
    let mut i: usize = 0;
    assert(all.take(0) =~= Seq::<Seq<char>>::empty());
    assert(out@ + Seq::<i32>::empty() =~= out@);
    while i < syms.len()
        invariant
            i <= syms@.len(),
            vocab.wf(),
            all == strings(syms@),
            out@ == old(out)@ + symbols_ids(vocab@, all.take(i as int)),
        decreases syms@.len() - i,
    {
        let ghost before = out@;
        let s: &str = syms[i].as_str();
        proof {
            assert(all.take(i + 1).drop_last() =~= all.take(i as int));
            assert(all.take(i + 1).last() == s@);
        }
        match vocab.token(s) {
            Some(id) => {
                out.push(id);
                assert(out@ =~= before + seq![id]);
            },
            None => {
                let b: &[u8] = s.as_bytes();
                let mut j: usize = 0;
                assert(b@.take(0) =~= Seq::<u8>::empty());
                assert(before + Seq::<i32>::empty() =~= before);
                while j < b.len()
                    invariant
                        j <= b@.len(),
                        vocab.wf(),
                        out@ == before + byte_ids(vocab@, b@.take(j as int)),
                    decreases b@.len() - j,
                {
                    proof {
                        assert(b@.take(j + 1).drop_last() =~= b@.take(j as int));
                    }
                    let x: u8 = b[j];
                    if x < 128 {
                        let mut one = String::new();
                        one.push(x as char);
                        assert(one@ =~= seq![x as char]);
                        if let Some(id) = vocab.token(one.as_str()) {
                            out.push(id);
                            assert(out@ =~= before + byte_ids(vocab@, b@.take(j + 1)));
                        }
                    }
                    j += 1;
                }
                assert(b@.take(j as int) =~= b@);
            },
        }
        i += 1;
        assert(out@ =~= old(out)@ + symbols_ids(vocab@, all.take(i as int)));
    }
    assert(all.take(i as int) =~= all);
}

/// A piece of a text: a range of its bytes, or a special token.
#[derive(Debug, Clone, Copy, PartialEq, Eq, Structural)]
pub enum Frag {
    Raw { start: usize, len: usize },
    Tok(i32),
}

/// The first place from `i` on where `needle` stands in `raw`, ending no later than `end`.
pub open spec fn first_match(raw: Seq<u8>, needle: Seq<u8>, i: int, end: int) -> Option<int>
    decreases end - i,
{
    if needle.len() == 0 || i < 0 || i + needle.len() > end {
        None
    } else if raw.subrange(i, i + needle.len()) == needle {
        Some(i)
    } else {
        first_match(raw, needle, i + 1, end)
    }
}

/// The range from `start` to `end` cut at each occurrence of `needle`, which becomes a token of
/// id 0. Empty ranges are left out.
pub open spec fn cut(raw: Seq<u8>, needle: Seq<u8>, start: int, end: int) -> Seq<Frag>
    decreases end - start,
{
    if start >= end {
        Seq::empty()
    } else {
        match first_match(raw, needle, start, end) {
            None => seq![Frag::Raw { start: start as usize, len: (end - start) as usize }],
            Some(m) => if start <= m && m + needle.len() <= end && needle.len() > 0 {
                let left: Seq<Frag> = if m > start {
                    seq![Frag::Raw { start: start as usize, len: (m - start) as usize }]
                } else {
                    Seq::empty()
                };
                left.push(Frag::Tok(0)) + cut(raw, needle, m + needle.len(), end)
            } else {
                Seq::empty()
            },
        }
    }
}

proof fn lemma_first_match(raw: Seq<u8>, needle: Seq<u8>, i: int, end: int)
    requires
        0 <= i,
    ensures
        match first_match(raw, needle, i, end) {
            Some(m) => i <= m && m + needle.len() <= end && needle.len() > 0 && raw.subrange(
                m,
                m + needle.len(),
            ) == needle && (forall|j: int|
                i <= j < m ==> #[trigger] raw.subrange(j, j + needle.len()) != needle),
            None => true,
        },
    decreases end - i,
{
    if needle.len() > 0 && i + needle.len() <= end && raw.subrange(i, i + needle.len()) != needle {
        lemma_first_match(raw, needle, i + 1, end);
    }
}

/// A range that ends before the first occurrence has none.
proof fn lemma_no_match(raw: Seq<u8>, needle: Seq<u8>, i: int, m: int)
    requires
        0 <= i <= m,
        forall|j: int| i <= j < m ==> #[trigger] raw.subrange(j, j + needle.len()) != needle,
    ensures
        first_match(raw, needle, i, m) is None,
    decreases m - i,
{
    if needle.len() > 0 && i + needle.len() <= m {
        assert(raw.subrange(i, i + needle.len()) != needle);
        lemma_no_match(raw, needle, i + 1, m);
    }
}

/// The first occurrence of `needle` from `start` on.
fn find_first(raw: &[u8], needle: &[u8], start: usize, end: usize) -> (r: Option<usize>)
    requires
        start <= end <= raw@.len(),
    ensures
        match r {
            Some(m) => first_match(raw@, needle@, start as int, end as int) == Some(m as int),
            None => first_match(raw@, needle@, start as int, end as int) is None,
        },
{
    let n: usize = needle.len();
    if n == 0 {
        return None;
    }
    let mut i: usize = start;
    while n <= end - i
        invariant
            n == needle@.len(),
            n > 0,
            start <= i <= end <= raw@.len(),
            first_match(raw@, needle@, start as int, end as int) == first_match(
                raw@,
                needle@,
                i as int,
                end as int,
            ),
        decreases end - i,
    {
        let mut k: usize = 0;
        while k < n && raw[i + k] == needle[k]
            invariant
                k <= n,
                n == needle@.len(),
                i + n <= end <= raw@.len(),
                end <= usize::MAX,
                forall|j: int| 0 <= j < k ==> raw@[i + j] == #[trigger] needle@[j],
            decreases n - k,
        {
            k += 1;
        }
        let ghost w = raw@.subrange(i as int, i + n);
        if k == n {
            assert(w =~= needle@) by {
                assert forall|j: int| 0 <= j < n implies w[j] == needle@[j] by {
                    assert(raw@[i + j] == needle@[j]);
                }
            }
            return Some(i);
        }
        assert(w[k as int] != needle@[k as int]);
        i += 1;
    }
    None
}

/// Appends the pieces of the range at `start` of `len` bytes, cut at each occurrence of `needle`.
pub fn split_fragment(raw: &[u8], needle: &[u8], start: usize, len: usize, out: &mut Vec<Frag>)
    requires
        start + len <= raw@.len(),
    ensures
        final(out)@ == old(out)@ + cut(raw@, needle@, start as int, start + len),
    decreases len,
{
    if len == 0 {
        assert(out@ + Seq::<Frag>::empty() =~= out@);
        return;
    }
    let size: usize = raw.len();
    let end: usize = start + len;
    let m: usize = match find_first(raw, needle, start, end) {
        Some(m) => m,
        None => {
            let ghost before = out@;
            out.push(Frag::Raw { start, len });
            assert(out@ =~= before + seq![Frag::Raw { start, len }]);
            return;
        },
    };
    proof {
        lemma_first_match(raw@, needle@, start as int, end as int);
        lemma_no_match(raw@, needle@, start as int, m as int);
    }
    let ghost before = out@;
    split_fragment(raw, needle, start, m - start, out);
    out.push(Frag::Tok(0));
    let right: usize = m + needle.len();
    split_fragment(raw, needle, right, end - right, out);
    assert(out@ =~= before + cut(raw@, needle@, start as int, end as int));
}

/// The pieces with the placeholder id replaced.
pub open spec fn with_id(frags: Seq<Frag>, id: i32) -> Seq<Frag> {
    frags.map_values(
        |f: Frag|
            match f {
                Frag::Tok(_) => Frag::Tok(id),
                Frag::Raw { start, len } => f,
            },
    )
}

pub open spec fn has_token(frags: Seq<Frag>) -> bool {
    exists|i: int| 0 <= i < frags.len() && (#[trigger] frags[i]) is Tok
}

/// One piece, cut at each occurrence of a special token.
pub open spec fn cut_piece(raw: Seq<u8>, f: Frag, id: i32, needle: Seq<u8>) -> Seq<Frag> {
    match f {
        Frag::Tok(_) => seq![f],
        Frag::Raw { start, len } => {
            let pieces = cut(raw, needle, start as int, start + len);
            if has_token(pieces) {
                with_id(pieces, id)
            } else {
                seq![f]
            }
        },
    }
}

pub open spec fn cut_all(raw: Seq<u8>, frags: Seq<Frag>, id: i32, needle: Seq<u8>) -> Seq<Frag>
    decreases frags.len(),
{
    if frags.len() == 0 {
        Seq::empty()
    } else {
        cut_all(raw, frags.drop_last(), id, needle) + cut_piece(raw, frags.last(), id, needle)
    }
}

/// A special token takes part: control tokens, and those of no type, only where asked for.
pub open spec fn takes_part(types: Seq<i32>, id: i32, parse_special: bool) -> bool {
    let t = type_at(types, id as int);
    parse_special || !(t == 3 || t == 0)
}

/// A text cut at its special tokens, one special token after the other.
pub open spec fn pieces_of(
    raw: Seq<u8>,
    specials: Seq<(i32, Seq<u8>)>,
    parse_special: bool,
    types: Seq<i32>,
) -> Seq<Frag>
    decreases specials.len(),
{
    if specials.len() == 0 {
        seq![Frag::Raw { start: 0, len: raw.len() as usize }]
    } else {
        let done = pieces_of(raw, specials.drop_last(), parse_special, types);
        let (id, needle) = specials.last();
        if takes_part(types, id, parse_special) {
            cut_all(raw, done, id, needle)
        } else {
            done
        }
    }
}

/// A piece lies within the text.
pub open spec fn in_bounds(f: Frag, n: int) -> bool {
    match f {
        Frag::Raw { start, len } => start + len <= n,
        Frag::Tok(_) => true,
    }
}

pub open spec fn all_in_bounds(frags: Seq<Frag>, n: int) -> bool {
    forall|i: int| 0 <= i < frags.len() ==> in_bounds(#[trigger] frags[i], n)
}

proof fn lemma_cut_bounds(raw: Seq<u8>, needle: Seq<u8>, start: int, end: int)
    requires
        0 <= start,
        end <= raw.len(),
        raw.len() <= usize::MAX,
    ensures
        all_in_bounds(cut(raw, needle, start, end), raw.len() as int),
    decreases end - start,
{
    if start < end {
        lemma_first_match(raw, needle, start, end);
        if let Some(m) = first_match(raw, needle, start, end) {
            lemma_cut_bounds(raw, needle, m + needle.len(), end);
        }
    }
}

pub open spec fn specials_view(s: Seq<(i32, Vec<u8>)>) -> Seq<(i32, Seq<u8>)> {
    Seq::new(s.len(), |i: int| (s[i].0, s[i].1@))
}

/// Cuts a text at its special tokens.
pub fn partition(
    raw: &[u8],
    specials: &Vec<(i32, Vec<u8>)>,
    parse_special: bool,
    types: &Vec<i32>,
) -> (r: Vec<Frag>)
    ensures
        r@ == pieces_of(raw@, specials_view(specials@), parse_special, types@),
        all_in_bounds(r@, raw@.len() as int),
{
    let ghost all = specials_view(specials@);
    let size: usize = raw.len();
    let mut frags: Vec<Frag> = Vec::new();
    frags.push(Frag::Raw { start: 0, len: size });
    let mut i: usize = 0;
    assert(frags@ =~= pieces_of(raw@, all.take(0), parse_special, types@));
    while i < specials.len()
        invariant
            i <= specials@.len(),
            size == raw@.len(),
            all == specials_view(specials@),
            frags@ == pieces_of(raw@, all.take(i as int), parse_special, types@),
            all_in_bounds(frags@, raw@.len() as int),
        decreases specials@.len() - i,
    {
        let id: i32 = specials[i].0;
        let needle: &[u8] = specials[i].1.as_slice();
        proof {
            assert(all.take(i + 1).drop_last() =~= all.take(i as int));
            assert(all.take(i + 1).last() == (id, needle@));
        }
        let tt: i32 = if 0 <= id && (id as usize) < types.len() {
            types[id as usize]
        } else {
            0
        };
        if parse_special || !(tt == 3 || tt == 0) {
            let mut next: Vec<Frag> = Vec::new();
            let mut k: usize = 0;
            assert(frags@.take(0) =~= Seq::<Frag>::empty());
            while k < frags.len()
                invariant
                    k <= frags@.len(),
                    size == raw@.len(),
                    all_in_bounds(frags@, raw@.len() as int),
                    next@ == cut_all(raw@, frags@.take(k as int), id, needle@),
                    all_in_bounds(next@, raw@.len() as int),
                decreases frags@.len() - k,
            {
                let f: Frag = frags[k];
                assert(in_bounds(frags@[k as int], raw@.len() as int));
                let ghost before = next@;
                assert(frags@.take(k + 1).drop_last() =~= frags@.take(k as int));
                match f {
                    Frag::Tok(_) => {
                        next.push(f);
                        assert(next@ =~= before + seq![f]);
                    },
                    Frag::Raw { start, len } => {
                        let mut tmp: Vec<Frag> = Vec::new();
                        split_fragment(raw, needle, start, len, &mut tmp);
                        let ghost pieces = cut(raw@, needle@, start as int, start + len);
                        assert(tmp@ =~= pieces);
                        proof {
                            lemma_cut_bounds(raw@, needle@, start as int, start + len);
                        }
                        if any_token(&tmp) {
                            let mut j: usize = 0;
                            while j < tmp.len()
                                invariant
                                    j <= tmp@.len(),
                                    all_in_bounds(tmp@, raw@.len() as int),
                                    all_in_bounds(next@, raw@.len() as int),
                                    next@ == before + with_id(tmp@, id).take(j as int),
                                decreases tmp@.len() - j,
                            {
                                assert(in_bounds(tmp@[j as int], raw@.len() as int));
                                match tmp[j] {
                                    Frag::Tok(_) => next.push(Frag::Tok(id)),
                                    Frag::Raw { start, len } => next.push(Frag::Raw { start, len }),
                                }
                                j += 1;
                                assert(next@ =~= before + with_id(tmp@, id).take(j as int));
                            }
                            assert(with_id(tmp@, id).take(j as int) =~= with_id(tmp@, id));
                        } else {
                            next.push(Frag::Raw { start, len });
                            assert(next@ =~= before + seq![f]);
                        }
                    },
                }
                k += 1;
            }
            assert(frags@.take(k as int) =~= frags@);
            frags = next;
        }
        i += 1;
    }
    assert(all.take(i as int) =~= all);
    frags
}

fn any_token(frags: &Vec<Frag>) -> (r: bool)
    ensures
        r == has_token(frags@),
{
    let mut i: usize = 0;
    while i < frags.len()
        invariant
            i <= frags@.len(),
            forall|j: int| 0 <= j < i ==> !((#[trigger] frags@[j]) is Tok),
        decreases frags@.len() - i,
    {
        if let Frag::Tok(_) = frags[i] {
            assert(frags@[i as int] is Tok);
            return true;
        }
        i += 1;
    }
    false
}

/// What follows a valid prefix of valid UTF-8 is valid.
proof fn lemma_utf8_rest(a: Seq<u8>, b: Seq<u8>)
    requires
        valid_utf8(a),
        valid_utf8(a + b),
    ensures
        valid_utf8(b),
    decreases a.len(),
{
    if a.len() == 0 {
        assert(a + b =~= b);
    } else {
        assert(pop_first_scalar(a + b) =~= pop_first_scalar(a) + b);
        lemma_utf8_rest(pop_first_scalar(a), b);
    }
}

/// Cutting valid UTF-8 around an occurrence of valid UTF-8 leaves valid UTF-8 on both sides.
proof fn lemma_utf8_around(w: Seq<u8>, k: int, needle: Seq<u8>)
    requires
        valid_utf8(w),
        valid_utf8(needle),
        needle.len() > 0,
        0 <= k,
        k + needle.len() <= w.len(),
        w.subrange(k, k + needle.len()) == needle,
    ensures
        valid_utf8(w.subrange(0, k)),
        valid_utf8(w.subrange(k + needle.len(), w.len() as int)),
{
    assert(w[k] == w.subrange(k, k + needle.len())[0]);
    assert(!is_continuation_byte(needle[0]));
    is_char_boundary_iff_not_is_continuation_byte(w, k);
    valid_utf8_split(w, k);
    let tail = w.subrange(k, w.len() as int);
    let rest = w.subrange(k + needle.len(), w.len() as int);
    assert(tail =~= needle + rest);
    lemma_utf8_rest(needle, rest);
}

/// The bytes of a piece of the text are valid UTF-8.
pub open spec fn piece_valid(raw: Seq<u8>, f: Frag) -> bool {
    match f {
        Frag::Raw { start, len } => valid_utf8(raw.subrange(start as int, start + len)),
        Frag::Tok(_) => true,
    }
}

pub open spec fn pieces_valid(raw: Seq<u8>, frags: Seq<Frag>) -> bool {
    forall|i: int| 0 <= i < frags.len() ==> piece_valid(raw, #[trigger] frags[i])
}

proof fn lemma_cut_valid(raw: Seq<u8>, needle: Seq<u8>, start: int, end: int)
    requires
        0 <= start,
        end <= raw.len(),
        raw.len() <= usize::MAX,
        start < end ==> valid_utf8(raw.subrange(start, end)),
        valid_utf8(needle),
    ensures
        pieces_valid(raw, cut(raw, needle, start, end)),
    decreases end - start,
{
    if start < end {
        lemma_first_match(raw, needle, start, end);
        let w = raw.subrange(start, end);
        if let Some(m) = first_match(raw, needle, start, end) {
            let k = m - start;
            assert(w.subrange(k, k + needle.len()) =~= raw.subrange(m, m + needle.len()));
            lemma_utf8_around(w, k, needle);
            assert(w.subrange(0, k) =~= raw.subrange(start, m));
            assert(w.subrange(k + needle.len(), w.len() as int) =~= raw.subrange(
                m + needle.len(),
                end,
            ));
            lemma_cut_valid(raw, needle, m + needle.len(), end);
        }
    }
}

proof fn lemma_cut_all_valid(raw: Seq<u8>, frags: Seq<Frag>, id: i32, needle: Seq<u8>)
    requires
        raw.len() <= usize::MAX,
        pieces_valid(raw, frags),
        all_in_bounds(frags, raw.len() as int),
        valid_utf8(needle),
    ensures
        pieces_valid(raw, cut_all(raw, frags, id, needle)),
        all_in_bounds(cut_all(raw, frags, id, needle), raw.len() as int),
    decreases frags.len(),
{
    if frags.len() > 0 {
        let f = frags.last();
        assert(piece_valid(raw, frags[frags.len() - 1]));
        assert(in_bounds(frags[frags.len() - 1], raw.len() as int));
        lemma_cut_all_valid(raw, frags.drop_last(), id, needle);
        if let Frag::Raw { start, len } = f {
            let pieces = cut(raw, needle, start as int, start + len);
            lemma_cut_valid(raw, needle, start as int, start + len);
            lemma_cut_bounds(raw, needle, start as int, start + len);
            let named = with_id(pieces, id);
            assert forall|i: int| 0 <= i < named.len() implies piece_valid(raw, #[trigger] named[i])
                && in_bounds(named[i], raw.len() as int) by {
                assert(piece_valid(raw, pieces[i]) && in_bounds(pieces[i], raw.len() as int));
            }
        }
    }
}

/// The pieces of a valid text are valid.
proof fn lemma_pieces_valid(
    raw: Seq<u8>,
    specials: Seq<(i32, Seq<u8>)>,
    parse_special: bool,
    types: Seq<i32>,
)
    requires
        raw.len() <= usize::MAX,
        valid_utf8(raw),
        forall|i: int| 0 <= i < specials.len() ==> valid_utf8((#[trigger] specials[i]).1),
    ensures
        pieces_valid(raw, pieces_of(raw, specials, parse_special, types)),
        all_in_bounds(pieces_of(raw, specials, parse_special, types), raw.len() as int),
    decreases specials.len(),
{
    if specials.len() == 0 {
        assert(raw.subrange(0, raw.len() as int) =~= raw);
    } else {
        lemma_pieces_valid(raw, specials.drop_last(), parse_special, types);
        let (id, needle) = specials[specials.len() - 1];
        assert(valid_utf8(needle));
        if takes_part(types, id, parse_special) {
            lemma_cut_all_valid(
                raw,
                pieces_of(raw, specials.drop_last(), parse_special, types),
                id,
                needle,
            );
        }
    }
}

/// The bytes that a piece stands for: the text's own, or those of the token's text.
pub open spec fn piece_source(raw: Seq<u8>, v: VocabV, f: Frag) -> Seq<u8> {
    match f {
        Frag::Raw { start, len } => raw.subrange(start as int, start + len),
        Frag::Tok(id) => encode_utf8(v.tokens[id as int]),
    }
}

pub open spec fn source(raw: Seq<u8>, v: VocabV, frags: Seq<Frag>) -> Seq<u8>
    decreases frags.len(),
{
    if frags.len() == 0 {
        Seq::empty()
    } else {
        source(raw, v, frags.drop_last()) + piece_source(raw, v, frags.last())
    }
}

proof fn lemma_source_concat(raw: Seq<u8>, v: VocabV, a: Seq<Frag>, b: Seq<Frag>)
    ensures
        source(raw, v, a + b) == source(raw, v, a) + source(raw, v, b),
    decreases b.len(),
{
    if b.len() == 0 {
        assert(a + b =~= a);
        assert(source(raw, v, a) + Seq::<u8>::empty() =~= source(raw, v, a));
    } else {
        lemma_source_concat(raw, v, a, b.drop_last());
        assert((a + b).drop_last() =~= a + b.drop_last());
        let x = source(raw, v, a);
        let y = source(raw, v, b.drop_last());
        let z = piece_source(raw, v, b.last());
        assert(x + y + z =~= x + (y + z));
    }
}

proof fn lemma_source_one(raw: Seq<u8>, v: VocabV, f: Frag)
    ensures
        source(raw, v, seq![f]) == piece_source(raw, v, f),
{
    reveal_with_fuel(source, 2);
    assert(seq![f].drop_last() =~= Seq::<Frag>::empty());
    assert(source(raw, v, seq![f]) =~= piece_source(raw, v, f));
}

proof fn lemma_cut_source(
    raw: Seq<u8>,
    v: VocabV,
    id: i32,
    needle: Seq<u8>,
    start: int,
    end: int,
)
    requires
        0 <= start <= end <= raw.len(),
        raw.len() <= usize::MAX,
        encode_utf8(v.tokens[id as int]) == needle,
    ensures
        source(raw, v, with_id(cut(raw, needle, start, end), id)) == raw.subrange(start, end),
    decreases end - start,
{
    let pieces = cut(raw, needle, start, end);
    if start >= end {
        assert(with_id(pieces, id) =~= Seq::<Frag>::empty());
        assert(raw.subrange(start, end) =~= Seq::<u8>::empty());
    } else {
        lemma_first_match(raw, needle, start, end);
        match first_match(raw, needle, start, end) {
            None => {
                let f = Frag::Raw { start: start as usize, len: (end - start) as usize };
                assert(with_id(pieces, id) =~= seq![f]);
                lemma_source_one(raw, v, f);
            },
            Some(m) => {
                let e = m + needle.len();
                let rest = with_id(cut(raw, needle, e, end), id);
                lemma_cut_source(raw, v, id, needle, e, end);
                let t = Frag::Tok(id);
                lemma_source_one(raw, v, t);
                if m > start {
                    let f = Frag::Raw { start: start as usize, len: (m - start) as usize };
                    lemma_source_one(raw, v, f);
                    lemma_source_concat(raw, v, seq![f], seq![t]);
                    let head = seq![f] + seq![t];
                    assert(with_id(pieces, id) =~= head + rest);
                    lemma_source_concat(raw, v, head, rest);
                } else {
                    assert(with_id(pieces, id) =~= seq![t] + rest);
                    lemma_source_concat(raw, v, seq![t], rest);
                    assert(raw.subrange(start, m) =~= Seq::<u8>::empty());
                }
                assert(raw.subrange(start, end) =~= raw.subrange(start, m) + needle + raw.subrange(
                    e,
                    end,
                ));
            },
        }
    }
}

proof fn lemma_cut_all_source(
    raw: Seq<u8>,
    v: VocabV,
    frags: Seq<Frag>,
    id: i32,
    needle: Seq<u8>,
)
    requires
        raw.len() <= usize::MAX,
        all_in_bounds(frags, raw.len() as int),
        encode_utf8(v.tokens[id as int]) == needle,
    ensures
        source(raw, v, cut_all(raw, frags, id, needle)) == source(raw, v, frags),
        all_in_bounds(cut_all(raw, frags, id, needle), raw.len() as int),
    decreases frags.len(),
{
    if frags.len() > 0 {
        let f = frags.last();
        assert(in_bounds(frags[frags.len() - 1], raw.len() as int));
        lemma_cut_all_source(raw, v, frags.drop_last(), id, needle);
        let head = cut_all(raw, frags.drop_last(), id, needle);
        let tail = cut_piece(raw, f, id, needle);
        lemma_source_concat(raw, v, head, tail);
        lemma_source_one(raw, v, f);
        if let Frag::Raw { start, len } = f {
            let pieces = cut(raw, needle, start as int, start + len);
            lemma_cut_source(raw, v, id, needle, start as int, start + len);
            lemma_cut_bounds(raw, needle, start as int, start + len);
            let named = with_id(pieces, id);
            assert forall|i: int| 0 <= i < named.len() implies in_bounds(
                #[trigger] named[i],
                raw.len() as int,
            ) by {
                assert(in_bounds(pieces[i], raw.len() as int));
            }
        }
    }
}

/// The pieces of a text cover it: put together, with each special token's text in its place,
/// they give the text back.
pub proof fn law_pieces_cover_text(
    raw: Seq<u8>,
    v: VocabV,
    specials: Seq<(i32, Seq<u8>)>,
    parse_special: bool,
)
    requires
        raw.len() <= usize::MAX,
        forall|i: int|
            0 <= i < specials.len() ==> encode_utf8(v.tokens[(#[trigger] specials[i]).0 as int])
                == specials[i].1,
    ensures
        source(raw, v, pieces_of(raw, specials, parse_special, v.types)) == raw,
        all_in_bounds(pieces_of(raw, specials, parse_special, v.types), raw.len() as int),
    decreases specials.len(),
{
    if specials.len() == 0 {
        let f = Frag::Raw { start: 0, len: raw.len() as usize };
        lemma_source_one(raw, v, f);
        assert(raw.subrange(0, raw.len() as int) =~= raw);
    } else {
        law_pieces_cover_text(raw, v, specials.drop_last(), parse_special);
        let (id, needle) = specials[specials.len() - 1];
        let done = pieces_of(raw, specials.drop_last(), parse_special, v.types);
        if takes_part(v.types, id, parse_special) {
            lemma_cut_all_source(raw, v, done, id, needle);
        }
    }
}

/// The code points of a text.
pub open spec fn points(s: Seq<char>) -> Seq<u32> {
    s.map_values(|c: char| c as u32)
}

/// The ids of the words of `s` from `start` on, whose lengths are `lens`.
pub open spec fn words_ids(v: VocabV, s: Seq<char>, lens: Seq<int>, start: int) -> Seq<i32>
    decreases lens.len(),
{
    if lens.len() == 0 {
        Seq::empty()
    } else {
        let end = start + lens[0];
        word_ids(v, byte_level::encoded(encode_utf8(s.subrange(start, end)))) + words_ids(
            v,
            s,
            lens.skip(1),
            end,
        )
    }
}

/// The ids of a text without special tokens.
pub open spec fn text_ids(v: VocabV, s: Seq<char>) -> Seq<i32> {
    words_ids(v, s, scan::words_of(points(s)), 0)
}

/// The ids of one piece of a text.
pub open spec fn piece_ids(v: VocabV, raw: Seq<u8>, f: Frag) -> Seq<i32> {
    match f {
        Frag::Tok(id) => seq![id],
        Frag::Raw { start, len } => text_ids(
            v,
            decode_utf8(raw.subrange(start as int, start + len)),
        ),
    }
}

pub open spec fn pieces_ids(v: VocabV, raw: Seq<u8>, frags: Seq<Frag>) -> Seq<i32>
    decreases frags.len(),
{
    if frags.len() == 0 {
        Seq::empty()
    } else {
        pieces_ids(v, raw, frags.drop_last()) + piece_ids(v, raw, frags.last())
    }
}

/// The special tokens of a vocabulary, with the bytes of their texts.
pub open spec fn special_tokens(v: VocabV) -> Seq<(i32, Seq<u8>)> {
    v.specials(v.tokens.len() as int).map_values(
        |id: i32| (id, encode_utf8(v.tokens[id as int])),
    )
}

/// The ids of a text.
pub open spec fn encoding(v: VocabV, s: Seq<char>, parse_special: bool) -> Seq<i32> {
    let raw = encode_utf8(s);
    pieces_ids(v, raw, pieces_of(raw, special_tokens(v), parse_special, v.types))
}

/// Appends the ids of a text without special tokens.
pub fn encode_fragment(text: &str, vocab: &Vocab, out: &mut Vec<i32>)
    requires
        vocab.wf(),
    ensures
        final(out)@ == old(out)@ + text_ids(vocab@, text@),
{
    let cs: Vec<char> = text::chars_of(text);
    let mut cpts: Vec<u32> = Vec::new();
    let mut i: usize = 0;
    while i < cs.len()
        invariant
            i <= cs@.len(),
            cpts@ == points(cs@).take(i as int),
        decreases cs@.len() - i,
    {
        cpts.push(cs[i] as u32);
        i += 1;
        assert(cpts@ =~= points(cs@).take(i as int));
    }
    assert(cpts@ =~= points(cs@));
    let lens: Vec<usize> = scan::scan_qwen35(cpts.as_slice());
    let ghost ls = lens@.map_values(|x: usize| x as int);
    let n: usize = cs.len();
    let mut start: usize = 0;
    let mut k: usize = 0;
    proof {
        assert(ls.skip(0) =~= ls);
    }
    while k < lens.len()
        invariant
            k <= lens@.len(),
            n == cs@.len(),
            cs@ == text@,
            vocab.wf(),
            ls == lens@.map_values(|x: usize| x as int),
            start <= n,
            scan::total(ls.skip(k as int)) == n - start,
            forall|i: int| 0 <= i < lens@.len() ==> #[trigger] lens@[i] > 0,
            old(out)@ + words_ids(vocab@, cs@, ls, 0) == out@ + words_ids(
                vocab@,
                cs@,
                ls.skip(k as int),
                start as int,
            ),
        decreases lens@.len() - k,
    {
        let ghost rest = ls.skip(k as int);
        let ghost before = out@;
        proof {
            assert(rest.skip(1) =~= ls.skip(k + 1));
            assert(rest[0] == lens@[k as int]);
            lemma_total_nonneg(ls.skip(k + 1));
        }
        let end: usize = start + lens[k];
        let word: String = text::string_of(slice_subrange(cs.as_slice(), start, end));
        let spelled: String = byte_level::byte_encode_word(word.as_str());
        encode_word(spelled.as_str(), vocab, out);
        proof {
            let w = word_ids(vocab@, spelled@);
            let r = words_ids(vocab@, cs@, ls.skip(k + 1), end as int);
            assert(before + (w + r) =~= before + w + r);
        }
        start = end;
        k += 1;
    }
    assert(ls.skip(k as int).len() == 0);
    assert(out@ + Seq::<i32>::empty() =~= out@);
}

proof fn lemma_total_nonneg(s: Seq<int>)
    requires
        forall|i: int| 0 <= i < s.len() ==> #[trigger] s[i] > 0,
    ensures
        scan::total(s) >= 0,
    decreases s.len(),
{
    if s.len() > 0 {
        assert forall|i: int| 0 <= i < s.skip(1).len() implies #[trigger] s.skip(1)[i] > 0 by {
            assert(s[i + 1] > 0);
        }
        lemma_total_nonneg(s.skip(1));
    }
}

/// What to do with special tokens.
#[derive(Debug, Clone, Copy, PartialEq, Eq, Structural)]
pub struct TokenizeOptions {
    /// Add the tokens that the model puts around a text; it has none.
    pub add_special: bool,
    /// Recognise control tokens in the text.
    pub parse_special: bool,
}

proof fn lemma_special_range(v: VocabV, n: int)
    requires
        n <= i32::MAX,
    ensures
        forall|i: int| 0 <= i < v.specials(n).len() ==> 0 <= #[trigger] v.specials(n)[i] < n,
    decreases n,
{
    if n > 0 {
        lemma_special_range(v, n - 1);
        let done = v.specials(n - 1);
        assert forall|i: int| 0 <= i < v.specials(n).len() implies 0 <= #[trigger] v.specials(n)[i]
            < n by {
            if i < done.len() {
                assert(v.specials(n)[i] == done[i]);
            }
        }
    }
}

/// The ids of a text.
pub fn encode(text: &str, vocab: &Vocab, opts: &TokenizeOptions) -> (r: Vec<i32>)
    requires
        vocab.wf(),
    ensures
        r@ == encoding(vocab@, text@, opts.parse_special),
{
    let ghost v = vocab@;
    let mut specials: Vec<(i32, Vec<u8>)> = Vec::new();
    let mut i: usize = 0;
    proof {
        lemma_special_range(v, v.tokens.len() as int);
    }
    while i < vocab.special_ids.len()
        invariant
            i <= vocab.special_ids@.len(),
            vocab.wf(),
            v == vocab@,
            forall|k: int|
                0 <= k < vocab.special_ids@.len() ==> 0 <= #[trigger] vocab.special_ids@[k]
                    < v.tokens.len(),
            specials_view(specials@) == special_tokens(v).take(i as int),
        decreases vocab.special_ids@.len() - i,
    {
        let id: i32 = vocab.special_ids[i];
        let b: Vec<u8> = slice_to_vec(vocab.tokens[id as usize].as_str().as_bytes());
        let ghost before = specials@;
        specials.push((id, b));
        i += 1;
        proof {
            assert(specials_view(specials@) =~= specials_view(before).push((id, b@)));
            assert(special_tokens(v).take(i as int) =~= special_tokens(v).take(i - 1).push(
                special_tokens(v)[i - 1],
            ));
        }
    }
    assert(special_tokens(v).take(i as int) =~= special_tokens(v));
    let raw: &[u8] = text.as_bytes();
    let size: usize = raw.len();
    let frags: Vec<Frag> = partition(raw, &specials, opts.parse_special, &vocab.token_types);
    proof {
        encode_utf8_valid_utf8(text@);
        assert forall|k: int| 0 <= k < special_tokens(v).len() implies valid_utf8(
            (#[trigger] special_tokens(v)[k]).1,
        ) by {
            encode_utf8_valid_utf8(v.tokens[v.specials(v.tokens.len() as int)[k] as int]);
        }
        lemma_pieces_valid(raw@, special_tokens(v), opts.parse_special, v.types);
    }
    let mut out: Vec<i32> = Vec::new();
    let mut k: usize = 0;
    assert(frags@.take(0) =~= Seq::<Frag>::empty());
    while k < frags.len()
        invariant
            k <= frags@.len(),
            vocab.wf(),
            v == vocab@,
            size == raw@.len(),
            pieces_valid(raw@, frags@),
            all_in_bounds(frags@, raw@.len() as int),
            out@ == pieces_ids(v, raw@, frags@.take(k as int)),
        decreases frags@.len() - k,
    {
        let ghost before = out@;
        proof {
            assert(frags@.take(k + 1).drop_last() =~= frags@.take(k as int));
            assert(piece_valid(raw@, frags@[k as int]));
            assert(in_bounds(frags@[k as int], raw@.len() as int));
        }
        match frags[k] {
            Frag::Tok(id) => {
                out.push(id);
                assert(out@ =~= before + seq![id]);
            },
            Frag::Raw { start, len } => {
                let part: Vec<u8> = slice_to_vec(slice_subrange(raw, start, start + len));
                if let Ok(s) = gguf::from_utf8(part) {
                    encode_fragment(s.as_str(), vocab, &mut out);
                }
            },
        }
        k += 1;
    }
    assert(frags@.take(k as int) =~= frags@);
    out
}

/// The texts of a list of string values.
pub open spec fn string_items(items: Seq<ValueV>) -> Result<Seq<Seq<char>>, Seq<char>>
    decreases items.len(),
{
    if items.len() == 0 {
        Ok(Seq::empty())
    } else {
        match string_items(items.drop_last()) {
            Err(e) => Err(e),
            Ok(done) => match items.last() {
                ValueV::Str(s) => Ok(done.push(s)),
                _ => Err("tokens array not strings"@),
            },
        }
    }
}

/// The numbers of a list of token types.
pub open spec fn type_items(items: Seq<ValueV>) -> Result<Seq<i32>, Seq<char>>
    decreases items.len(),
{
    if items.len() == 0 {
        Ok(Seq::empty())
    } else {
        match type_items(items.drop_last()) {
            Err(e) => Err(e),
            Ok(done) => match items.last() {
                ValueV::I32(x) => Ok(done.push(x)),
                ValueV::U32(x) => Ok(done.push(x as i32)),
                _ => Err("token_type array not i32"@),
            },
        }
    }
}

/// The first space from the character at `k` on.
pub open spec fn space_from(s: Seq<char>, k: int) -> Option<int>
    decreases s.len() - k,
{
    if k < 0 || k >= s.len() {
        None
    } else if s[k] == ' ' {
        Some(k)
    } else {
        space_from(s, k + 1)
    }
}

/// The merges of a list of merge lines: each is cut at its first space behind its first
/// character.
pub open spec fn merge_items(items: Seq<ValueV>) -> Result<
    Seq<(Seq<char>, Seq<char>)>,
    Seq<char>,
>
    decreases items.len(),
{
    if items.len() == 0 {
        Ok(Seq::empty())
    } else {
        match merge_items(items.drop_last()) {
            Err(e) => Err(e),
            Ok(done) => match items.last() {
                ValueV::Str(s) => match space_from(s, 1) {
                    Some(k) => Ok(done.push((s.take(k), s.skip(k + 1)))),
                    None => Err("merge without separator"@),
                },
                _ => Err("merges array not strings"@),
            },
        }
    }
}

/// The vocabulary in a container's metadata.
pub open spec fn vocab_of(meta: Seq<gguf::Entry>) -> Result<VocabV, Seq<char>> {
    match gguf::lookup(meta, "tokenizer.ggml.tokens"@) {
        Some(ValueV::Array { elem_type, items }) => match string_items(items) {
            Err(e) => Err(e),
            Ok(tokens) => {
                let found = match gguf::lookup(meta, "tokenizer.ggml.token_type"@) {
                    Some(ValueV::Array { elem_type, items }) => type_items(items),
                    _ => Ok(Seq::empty()),
                };
                match found {
                    Err(e) => Err(e),
                    Ok(types) => match gguf::lookup(meta, "tokenizer.ggml.merges"@) {
                        Some(ValueV::Array { elem_type, items }) => match merge_items(items) {
                            Err(e) => Err(e),
                            Ok(merges) => Ok(VocabV { tokens, types, merges }),
                        },
                        _ => Err("missing tokenizer.ggml.merges"@),
                    },
                }
            },
        },
        _ => Err("missing tokenizer.ggml.tokens"@),
    }
}

fn read_strings(items: &Vec<Value>) -> (r: Result<Vec<String>, String>)
    ensures
        match r {
            Ok(v) => string_items(gguf::values_view(items@)) == Ok::<Seq<Seq<char>>, Seq<char>>(
                strings(v@),
            ),
            Err(m) => string_items(gguf::values_view(items@)) == Err::<Seq<Seq<char>>, Seq<char>>(
                m@,
            ),
        },
{
    let ghost all = gguf::values_view(items@);
    let mut out: Vec<String> = Vec::new();
    let mut bad: bool = false;
    let mut i: usize = 0;
    assert(all.take(0) =~= Seq::<ValueV>::empty());
    assert(strings(out@) =~= Seq::<Seq<char>>::empty());
    while i < items.len()
        invariant
            i <= items@.len(),
            all == gguf::values_view(items@),
            if bad {
                string_items(all.take(i as int)) == Err::<Seq<Seq<char>>, Seq<char>>(
                    "tokens array not strings"@,
                )
            } else {
                string_items(all.take(i as int)) == Ok::<Seq<Seq<char>>, Seq<char>>(strings(out@))
            },
        decreases items@.len() - i,
    {
        let ghost before = out@;
        assert(all.take(i + 1).drop_last() =~= all.take(i as int));
        match &items[i] {
            Value::Str(s) => {
                if !bad {
                    out.push(s.clone());
                    assert(strings(out@) =~= strings(before).push(s@));
                }
            },
            _ => {
                bad = true;
            },
        }
        i += 1;
    }
    assert(all.take(i as int) =~= all);
    if bad {
        return Err("tokens array not strings".to_owned());
    }
    Ok(out)
}

fn read_types(items: &Vec<Value>) -> (r: Result<Vec<i32>, String>)
    ensures
        match r {
            Ok(v) => type_items(gguf::values_view(items@)) == Ok::<Seq<i32>, Seq<char>>(v@),
            Err(m) => type_items(gguf::values_view(items@)) == Err::<Seq<i32>, Seq<char>>(m@),
        },
{
    let ghost all = gguf::values_view(items@);
    let mut out: Vec<i32> = Vec::new();
    let mut bad: bool = false;
    let mut i: usize = 0;
    assert(all.take(0) =~= Seq::<ValueV>::empty());
    while i < items.len()
        invariant
            i <= items@.len(),
            all == gguf::values_view(items@),
            if bad {
                type_items(all.take(i as int)) == Err::<Seq<i32>, Seq<char>>(
                    "token_type array not i32"@,
                )
            } else {
                type_items(all.take(i as int)) == Ok::<Seq<i32>, Seq<char>>(out@)
            },
        decreases items@.len() - i,
    {
        assert(all.take(i + 1).drop_last() =~= all.take(i as int));
        match &items[i] {
            Value::I32(x) => {
                if !bad {
                    out.push(*x);
                }
            },
            Value::U32(x) => {
                if !bad {
                    out.push(*x as i32);
                }
            },
            _ => {
                bad = true;
            },
        }
        i += 1;
    }
    assert(all.take(i as int) =~= all);
    if bad {
        return Err("token_type array not i32".to_owned());
    }
    Ok(out)
}

fn find_space(cs: &Vec<char>) -> (r: Option<usize>)
    ensures
        match r {
            Some(k) => space_from(cs@, 1) == Some(k as int) && k < cs@.len(),
            None => space_from(cs@, 1) is None,
        },
{
    let mut k: usize = 1;
    while k < cs.len()
        invariant
            1 <= k,
            space_from(cs@, 1) == space_from(cs@, k as int),
        decreases cs@.len() - k,
    {
        if cs[k] == ' ' {
            return Some(k);
        }
        k += 1;
    }
    None
}

fn read_merges(items: &Vec<Value>) -> (r: Result<Table, String>)
    ensures
        match r {
            Ok(t) => t.wf() && merge_items(gguf::values_view(items@)) == Ok::<
                Seq<(Seq<char>, Seq<char>)>,
                Seq<char>,
            >(t@),
            Err(m) => merge_items(gguf::values_view(items@)) == Err::<
                Seq<(Seq<char>, Seq<char>)>,
                Seq<char>,
            >(m@),
        },
{
    let ghost all = gguf::values_view(items@);
    let mut out: Table = Table::new();
    let mut bad: Option<String> = None;
    let mut i: usize = 0;
    assert(all.take(0) =~= Seq::<ValueV>::empty());
    while i < items.len()
        invariant
            i <= items@.len(),
            all == gguf::values_view(items@),
            out.wf(),
            match bad {
                Some(m) => merge_items(all.take(i as int)) == Err::<
                    Seq<(Seq<char>, Seq<char>)>,
                    Seq<char>,
                >(m@),
                None => merge_items(all.take(i as int)) == Ok::<
                    Seq<(Seq<char>, Seq<char>)>,
                    Seq<char>,
                >(out@),
            },
        decreases items@.len() - i,
    {
        assert(all.take(i + 1).drop_last() =~= all.take(i as int));
        if bad.is_none() {
            match &items[i] {
                Value::Str(s) => {
                    let cs: Vec<char> = text::chars_of(s.as_str());
                    match find_space(&cs) {
                        Some(k) => {
                            let n: usize = cs.len();
                            let first: String = text::string_of(
                                slice_subrange(cs.as_slice(), 0, k),
                            );
                            let second: String = text::string_of(
                                slice_subrange(cs.as_slice(), k + 1, n),
                            );
                            assert(first@ =~= s@.take(k as int));
                            assert(second@ =~= s@.skip(k + 1));
                            out.add(first, second);
                        },
                        None => {
                            bad = Some("merge without separator".to_owned());
                        },
                    }
                },
                _ => {
                    bad = Some("merges array not strings".to_owned());
                },
            }
        }
        i += 1;
    }
    assert(all.take(i as int) =~= all);
    match bad {
        Some(m) => Err(m),
        None => Ok(out),
    }
}

impl Vocab {
    /// Reads the vocabulary from a container's metadata.
    pub fn from_gguf(g: &GGUF) -> (r: Result<Vocab, String>)
        ensures
            match r {
                Ok(v) => {
                    &&& vocab_of(gguf::entries_view(g.meta@)) == Ok::<VocabV, Seq<char>>(v@)
                    &&& v.tokens@.len() <= i32::MAX ==> v.wf()
                },
                Err(m) => vocab_of(gguf::entries_view(g.meta@)) == Err::<VocabV, Seq<char>>(m@),
            },
    {
        let tokens: Vec<String> = match g.get("tokenizer.ggml.tokens") {
            Some(Value::Array { elem_type, items }) => {
                proof {
                    gguf::lemma_array_view(*elem_type, *items);
                }
                match read_strings(items) {
                    Ok(v) => v,
                    Err(m) => {
                        return Err(m);
                    },
                }
            },
            _ => {
                return Err("missing tokenizer.ggml.tokens".to_owned());
            },
        };
        let token_types: Vec<i32> = match g.get("tokenizer.ggml.token_type") {
            Some(Value::Array { elem_type, items }) => {
                proof {
                    gguf::lemma_array_view(*elem_type, *items);
                }
                match read_types(items) {
                    Ok(v) => v,
                    Err(m) => {
                        return Err(m);
                    },
                }
            },
            _ => Vec::new(),
        };
        let merges: Table = match g.get("tokenizer.ggml.merges") {
            Some(Value::Array { elem_type, items }) => {
                proof {
                    gguf::lemma_array_view(*elem_type, *items);
                }
                match read_merges(items) {
                    Ok(t) => t,
                    Err(m) => {
                        return Err(m);
                    },
                }
            },
            _ => {
                return Err("missing tokenizer.ggml.merges".to_owned());
            },
        };
        let ghost v = VocabV { tokens: strings(tokens@), types: token_types@, merges: merges@ };
        let mut text_to_id: Table = Table::new();
        let mut special_ids: Vec<i32> = Vec::new();
        let mut i: usize = 0;
        while i < tokens.len()
            invariant
                i <= tokens@.len(),
                v.tokens == strings(tokens@),
                v.types == token_types@,
                text_to_id.wf(),
                text_to_id@ == v.keys().take(i as int),
                special_ids@ == v.specials(i as int),
            decreases tokens@.len() - i,
        {
            assert(""@ =~= Seq::<char>::empty()) by {
                reveal_strlit("");
            }
            text_to_id.add(tokens[i].clone(), "".to_owned());
            let tt: i32 = if i < token_types.len() {
                token_types[i]
            } else {
                0
            };
            if tt == 3 || tt == 4 {
                special_ids.push(i as i32);
            }
            i += 1;
            assert(v.keys().take(i as int) =~= v.keys().take(i - 1).push(v.keys()[i - 1]));
        }
        assert(v.keys().take(i as int) =~= v.keys());
        Ok(Vocab { tokens, text_to_id, token_types, merges, special_ids })
    }
}

/// The bytes that a list of ids renders to.
pub open spec fn rendered(v: VocabV, ids: Seq<i32>) -> Seq<u8>
    decreases ids.len(),
{
    if ids.len() == 0 {
        Seq::empty()
    } else {
        rendered(v, ids.drop_last()) + v.piece(ids.last() as int)
    }
}

/// A text that is a token and not a control token.
pub open spec fn ordinary(v: VocabV, s: Seq<char>) -> bool {
    v.id_of(s) matches Some(id) && v.type_of(id as int) != 3
}

/// A vocabulary that has a token for every character of the byte-level alphabet and for every
/// merge's result.
pub open spec fn closed_vocab(v: VocabV) -> bool {
    &&& v.tokens.len() <= i32::MAX
    &&& forall|b: u8| ordinary(v, seq![#[trigger] byte_level::byte_char(b)])
    &&& forall|i: int|
        0 <= i < v.merges.len() ==> ordinary(v, (#[trigger] v.merges[i]).0 + v.merges[i].1)
}

proof fn lemma_rendered_concat(v: VocabV, a: Seq<i32>, b: Seq<i32>)
    ensures
        rendered(v, a + b) == rendered(v, a) + rendered(v, b),
    decreases b.len(),
{
    if b.len() == 0 {
        assert(a + b =~= a);
        assert(rendered(v, a) + Seq::<u8>::empty() =~= rendered(v, a));
    } else {
        lemma_rendered_concat(v, a, b.drop_last());
        assert((a + b).drop_last() =~= a + b.drop_last());
        let x = rendered(v, a);
        let y = rendered(v, b.drop_last());
        let z = v.piece(b.last() as int);
        assert(x + y + z =~= x + (y + z));
    }
}

/// Symbols, one behind the other.
pub open spec fn joined(syms: Seq<Seq<char>>) -> Seq<char>
    decreases syms.len(),
{
    if syms.len() == 0 {
        Seq::empty()
    } else {
        joined(syms.drop_last()) + syms.last()
    }
}

proof fn lemma_joined_concat(a: Seq<Seq<char>>, b: Seq<Seq<char>>)
    ensures
        joined(a + b) == joined(a) + joined(b),
    decreases b.len(),
{
    if b.len() == 0 {
        assert(a + b =~= a);
        assert(joined(a) + Seq::<char>::empty() =~= joined(a));
    } else {
        lemma_joined_concat(a, b.drop_last());
        assert((a + b).drop_last() =~= a + b.drop_last());
        assert(joined(a) + joined(b.drop_last()) + b.last() =~= joined(a) + (joined(b.drop_last())
            + b.last()));
    }
}

proof fn lemma_joined_one(s: Seq<char>)
    ensures
        joined(seq![s]) == s,
{
    reveal_with_fuel(joined, 2);
    assert(seq![s].drop_last() =~= Seq::<Seq<char>>::empty());
    assert(joined(seq![s]) =~= s);
}

proof fn lemma_joined_merged(syms: Seq<Seq<char>>, i: int)
    requires
        0 <= i < syms.len() - 1,
    ensures
        joined(merged(syms, i)) == joined(syms),
{
    let head = syms.take(i);
    let a = syms[i];
    let b = syms[i + 1];
    let tail = syms.skip(i + 2);
    assert(merged(syms, i) =~= head + seq![a + b] + tail);
    assert(syms =~= head + (seq![a] + seq![b]) + tail);
    lemma_joined_concat(head + seq![a + b], tail);
    lemma_joined_concat(head, seq![a + b]);
    lemma_joined_concat(head + (seq![a] + seq![b]), tail);
    lemma_joined_concat(head, seq![a] + seq![b]);
    lemma_joined_concat(seq![a], seq![b]);
    lemma_joined_one(a);
    lemma_joined_one(b);
    lemma_joined_one(a + b);
}

proof fn lemma_joined_letters(word: Seq<char>)
    ensures
        joined(letters(word)) == word,
    decreases word.len(),
{
    if word.len() == 0 {
        assert(letters(word) =~= Seq::<Seq<char>>::empty());
        assert(word =~= Seq::<char>::empty());
    } else {
        lemma_joined_letters(word.drop_last());
        assert(letters(word).drop_last() =~= letters(word.drop_last()));
        assert(word =~= word.drop_last() + seq![word.last()]);
    }
}

/// The best pair is a pair with a rank.
proof fn lemma_best_pair(v: VocabV, syms: Seq<Seq<char>>, k: int)
    requires
        k < syms.len(),
    ensures
        best_pair(v, syms, k) matches Some(i) ==> 0 <= i < k && v.rank(
            syms[i],
            syms[i + 1],
        ) is Some,
    decreases k,
{
    if k > 0 {
        lemma_best_pair(v, syms, k - 1);
    }
}

pub open spec fn all_ordinary(v: VocabV, syms: Seq<Seq<char>>) -> bool {
    forall|i: int| 0 <= i < syms.len() ==> ordinary(v, #[trigger] syms[i])
}

/// Merging keeps the text, and in a closed vocabulary it keeps to the vocabulary.
proof fn lemma_merge_all(v: VocabV, syms: Seq<Seq<char>>)
    requires
        closed_vocab(v),
        all_ordinary(v, syms),
    ensures
        joined(merge_all(v, syms)) == joined(syms),
        all_ordinary(v, merge_all(v, syms)),
    decreases syms.len(),
{
    lemma_best_pair(v, syms, syms.len() - 1);
    if let Some(i) = best_pair(v, syms, syms.len() - 1) {
        let next = merged(syms, i);
        lemma_joined_merged(syms, i);
        lookup::lemma_last_place(v.merges, (syms[i], syms[i + 1]));
        let m = v.rank(syms[i], syms[i + 1])->0;
        assert(ordinary(v, v.merges[m].0 + v.merges[m].1));
        assert forall|j: int| 0 <= j < next.len() implies ordinary(v, #[trigger] next[j]) by {
            if j < i {
                assert(next[j] == syms[j]);
            } else if j > i {
                assert(next[j] == syms[j + 1]);
            }
        }
        lemma_merge_all(v, next);
    }
}

proof fn lemma_symbols_render(v: VocabV, syms: Seq<Seq<char>>)
    requires
        v.tokens.len() <= i32::MAX,
        all_ordinary(v, syms),
    ensures
        rendered(v, symbols_ids(v, syms)) == byte_level::decoded(joined(syms)),
    decreases syms.len(),
{
    if syms.len() > 0 {
        let d = syms.drop_last();
        let s = syms.last();
        assert(ordinary(v, syms[syms.len() - 1]));
        assert forall|i: int| 0 <= i < d.len() implies ordinary(v, #[trigger] d[i]) by {
            assert(ordinary(v, syms[i]));
        }
        lemma_symbols_render(v, d);
        lemma_rendered_concat(v, symbols_ids(v, d), symbol_ids(v, s));
        byte_level::lemma_decoded_concat(joined(d), s);
        lookup::lemma_last_place(v.keys(), single(s));
        let id = v.id_of(s)->0;
        assert(v.keys()[id as int] == single(s));
        assert(v.tokens[id as int] == s);
        reveal_with_fuel(rendered, 2);
        assert(seq![id].drop_last() =~= Seq::<i32>::empty());
        assert(rendered(v, seq![id]) =~= byte_level::decoded(s));
    }
}

/// In a closed vocabulary the ids of a word render to the word's bytes.
pub proof fn law_word_renders(v: VocabV, b: Seq<u8>)
    requires
        closed_vocab(v),
    ensures
        rendered(v, word_ids(v, byte_level::encoded(b))) == b,
{
    let word = byte_level::encoded(b);
    let syms = letters(word);
    assert forall|i: int| 0 <= i < syms.len() implies ordinary(v, #[trigger] syms[i]) by {
        assert(syms[i] == seq![byte_level::byte_char(b[i])]);
    }
    lemma_merge_all(v, syms);
    lemma_joined_letters(word);
    lemma_symbols_render(v, merge_all(v, syms));
    byte_level::law_decode_undoes_encode(b);
}

proof fn lemma_words_render(v: VocabV, s: Seq<char>, lens: Seq<int>, start: int)
    requires
        closed_vocab(v),
        0 <= start <= s.len(),
        forall|i: int| 0 <= i < lens.len() ==> #[trigger] lens[i] > 0,
        scan::total(lens) == s.len() - start,
    ensures
        rendered(v, words_ids(v, s, lens, start)) == encode_utf8(s.skip(start)),
    decreases lens.len(),
{
    if lens.len() == 0 {
        assert(s.skip(start) =~= Seq::<char>::empty());
    } else {
        let rest = lens.skip(1);
        assert forall|i: int| 0 <= i < rest.len() implies #[trigger] rest[i] > 0 by {
            assert(lens[i + 1] > 0);
        }
        lemma_total_nonneg(rest);
        let end = start + lens[0];
        let w = s.subrange(start, end);
        let ids = word_ids(v, byte_level::encoded(encode_utf8(w)));
        lemma_words_render(v, s, rest, end);
        lemma_rendered_concat(v, ids, words_ids(v, s, rest, end));
        law_word_renders(v, encode_utf8(w));
        lemma_encode_concat(w, s.skip(end));
        assert(s.skip(start) =~= w + s.skip(end));
    }
}

/// UTF-8 goes piece by piece.
pub proof fn lemma_encode_concat(a: Seq<char>, b: Seq<char>)
    ensures
        encode_utf8(a + b) == encode_utf8(a) + encode_utf8(b),
    decreases a.len(),
{
    if a.len() == 0 {
        assert(a + b =~= b);
        assert(Seq::<u8>::empty() + encode_utf8(b) =~= encode_utf8(b));
    } else {
        lemma_encode_concat(a.drop_first(), b);
        assert((a + b).drop_first() =~= a.drop_first() + b);
        let x = encode_scalar(a[0] as u32);
        assert(x + (encode_utf8(a.drop_first()) + encode_utf8(b)) =~= x + encode_utf8(
            a.drop_first(),
        ) + encode_utf8(b));
    }
}

/// Tokenizing loses nothing: in a closed vocabulary the ids of any text without special tokens
/// render to the text's UTF-8 bytes.
pub proof fn law_tokens_render_text(v: VocabV, s: Seq<char>)
    requires
        closed_vocab(v),
    ensures
        rendered(v, text_ids(v, s)) == encode_utf8(s),
{
    let cs = points(s);
    let fl = cs.map_values(|c: u32| scan::classes(c));
    let low = cs.map_values(|c: u32| scan::lowered(c));
    scan::law_words_partition(cs, fl, low, 0);
    lemma_words_render(v, s, scan::words_of(cs), 0);
    assert(s.skip(0) =~= s);
}

// ---- a special token in a text ------------------------------------------------------------------

/// The needle, which is not empty, stands nowhere in the bytes.
spec fn nowhere(raw: Seq<u8>, needle: Seq<u8>) -> bool {
    forall|j: int|
        0 <= j && j + needle.len() <= raw.len() && needle.len() > 0 ==> #[trigger] raw.subrange(
            j,
            j + needle.len(),
        ) != needle
}

/// Where the bytes of one text stand in those of another, its characters stand too.
proof fn lemma_bytes_stand(s: Seq<char>, t: Seq<char>, j: int)
    requires
        encode_utf8(t).len() > 0,
        0 <= j,
        j + encode_utf8(t).len() <= encode_utf8(s).len(),
        encode_utf8(s).subrange(j, j + encode_utf8(t).len()) == encode_utf8(t),
    ensures
        exists|k: int|
            #[trigger] find::stands(s, t, k) && encode_utf8(s.take(k)).len() == j,
{
    let raw = encode_utf8(s);
    let n = encode_utf8(t);
    encode_utf8_valid_utf8(s);
    encode_utf8_valid_utf8(t);
    lemma_utf8_around(raw, j, n);
    let b1 = raw.subrange(0, j);
    let b2 = raw.subrange(j + n.len(), raw.len() as int);
    let d1 = decode_utf8(b1);
    let d2 = decode_utf8(b2);
    decode_utf8_encode_utf8(b1);
    decode_utf8_encode_utf8(b2);
    let all = d1 + t + d2;
    lemma_encode_concat(d1, t);
    lemma_encode_concat(d1 + t, d2);
    assert(b1 + n + b2 =~= raw);
    encode_utf8_decode_utf8(s);
    encode_utf8_decode_utf8(all);
    assert(s == all);
    let k = d1.len() as int;
    assert(s.subrange(k, k + t.len()) =~= t);
    assert(s.take(k) =~= d1);
    assert(find::stands(s, t, k));
}

proof fn lemma_nowhere_first(raw: Seq<u8>, needle: Seq<u8>, i: int, end: int)
    requires
        nowhere(raw, needle),
        end <= raw.len(),
    ensures
        first_match(raw, needle, i, end) is None,
    decreases end - i,
{
    if needle.len() > 0 && 0 <= i && i + needle.len() <= end {
        assert(raw.subrange(i, i + needle.len()) != needle);
        lemma_nowhere_first(raw, needle, i + 1, end);
    }
}

proof fn lemma_nowhere_piece(raw: Seq<u8>, f: Frag, id: i32, needle: Seq<u8>)
    requires
        nowhere(raw, needle),
        in_bounds(f, raw.len() as int),
    ensures
        cut_piece(raw, f, id, needle) == seq![f],
{
    if let Frag::Raw { start, len } = f {
        lemma_nowhere_first(raw, needle, start as int, start + len);
        let pieces = cut(raw, needle, start as int, start + len);
        assert(forall|i: int| 0 <= i < pieces.len() ==> !((#[trigger] pieces[i]) is Tok));
    }
}

/// A token that stands nowhere cuts nothing.
proof fn lemma_nowhere_all(raw: Seq<u8>, frags: Seq<Frag>, id: i32, needle: Seq<u8>)
    requires
        nowhere(raw, needle),
        all_in_bounds(frags, raw.len() as int),
    ensures
        cut_all(raw, frags, id, needle) == frags,
    decreases frags.len(),
{
    if frags.len() > 0 {
        let head = frags.drop_last();
        assert forall|i: int| 0 <= i < head.len() implies in_bounds(
            #[trigger] head[i],
            raw.len() as int,
        ) by {
            assert(head[i] == frags[i]);
        }
        lemma_nowhere_all(raw, head, id, needle);
        assert(in_bounds(frags[frags.len() - 1], raw.len() as int));
        lemma_nowhere_piece(raw, frags.last(), id, needle);
        assert(head + seq![frags.last()] =~= frags);
    }
}

/// The special tokens below `n`, with the bytes of their texts.
spec fn specials_below(v: VocabV, n: int) -> Seq<(i32, Seq<u8>)> {
    v.specials(n).map_values(|id: i32| (id, encode_utf8(v.tokens[id as int])))
}

proof fn lemma_specials_below(v: VocabV, n: int)
    requires
        0 < n <= i32::MAX,
    ensures
        specials_below(v, n) == if v.type_of(n - 1) == 3 || v.type_of(n - 1) == 4 {
            specials_below(v, n - 1).push(((n - 1) as i32, encode_utf8(v.tokens[n - 1])))
        } else {
            specials_below(v, n - 1)
        },
{
    let done = v.specials(n - 1);
    let f = |id: i32| (id, encode_utf8(v.tokens[id as int]));
    let id = (n - 1) as i32;
    assert(id as int == n - 1);
    assert(done.push(id).map_values(f) =~= done.map_values(f).push(f(id)));
}

/// A text in which no special token stands is one piece.
proof fn lemma_one_piece(v: VocabV, raw: Seq<u8>, n: int)
    requires
        0 <= n <= v.tokens.len() <= i32::MAX,
        raw.len() <= usize::MAX,
        forall|k: int|
            0 <= k < n && (v.type_of(k) == 3 || v.type_of(k) == 4) ==> nowhere(
                raw,
                encode_utf8(#[trigger] v.tokens[k]),
            ),
    ensures
        pieces_of(raw, specials_below(v, n), true, v.types) == seq![
            Frag::Raw { start: 0, len: raw.len() as usize },
        ],
    decreases n,
{
    if n > 0 {
        lemma_one_piece(v, raw, n - 1);
        lemma_specials_below(v, n);
        let f = Frag::Raw { start: 0, len: raw.len() as usize };
        if v.type_of(n - 1) == 3 || v.type_of(n - 1) == 4 {
            let m = specials_below(v, n);
            assert(m.drop_last() =~= specials_below(v, n - 1));
            let needle = encode_utf8(v.tokens[n - 1]);
            assert(nowhere(raw, needle));
            assert(in_bounds(f, raw.len() as int));
            lemma_nowhere_all(raw, seq![f], (n - 1) as i32, needle);
        }
    } else {
        assert(specials_below(v, 0) =~= Seq::<(i32, Seq<u8>)>::empty());
    }
}

/// A range of the text as a piece, left out if it is empty.
spec fn some_piece(start: int, len: int) -> Seq<Frag> {
    if len > 0 {
        seq![Frag::Raw { start: start as usize, len: len as usize }]
    } else {
        Seq::empty()
    }
}

/// A token that stands at one place cuts the text there.
proof fn lemma_cut_once(x: Seq<u8>, needle: Seq<u8>, y: Seq<u8>, id: i32)
    requires
        needle.len() > 0,
        (x + needle + y).len() <= usize::MAX,
        forall|j: int|
            0 <= j && j + needle.len() <= (x + needle + y).len() && #[trigger] (x + needle
                + y).subrange(j, j + needle.len()) == needle ==> j == x.len(),
    ensures
        ({
            let raw = x + needle + y;
            let at = x.len() as int;
            let end = at + needle.len();
            cut_all(raw, seq![Frag::Raw { start: 0, len: raw.len() as usize }], id, needle)
                == some_piece(0, at).push(Frag::Tok(id)) + some_piece(end, y.len() as int)
        }),
{
    let raw = x + needle + y;
    let n = raw.len() as int;
    let at = x.len() as int;
    let end = at + needle.len();
    let f = Frag::Raw { start: 0, len: n as usize };
    assert(raw.subrange(at, end) =~= needle);
    lemma_match_at(raw, needle, 0, at);
    lemma_match_none(raw, needle, end, at);
    let right = cut(raw, needle, end, n);
    assert(right =~= some_piece(end, y.len() as int));
    let pieces = cut(raw, needle, 0, n);
    assert(pieces =~= some_piece(0, at).push(Frag::Tok(0)) + right);
    let k = some_piece(0, at).len() as int;
    assert(pieces[k] is Tok);
    let want = some_piece(0, at).push(Frag::Tok(id)) + some_piece(end, y.len() as int);
    assert(with_id(pieces, id) =~= want);
    let one = seq![f];
    assert(one.drop_last() =~= Seq::<Frag>::empty());
    assert(cut_all(raw, one.drop_last(), id, needle) =~= Seq::<Frag>::empty());
    assert(Seq::<Frag>::empty() + want =~= want);
}

/// The one place where a token stands is the first.
proof fn lemma_match_at(raw: Seq<u8>, needle: Seq<u8>, i: int, at: int)
    requires
        needle.len() > 0,
        0 <= i <= at,
        at + needle.len() <= raw.len(),
        raw.subrange(at, at + needle.len()) == needle,
        forall|j: int|
            0 <= j && j + needle.len() <= raw.len() && #[trigger] raw.subrange(
                j,
                j + needle.len(),
            ) == needle ==> j == at,
    ensures
        first_match(raw, needle, i, raw.len() as int) == Some(at),
    decreases at - i,
{
    if i < at {
        lemma_match_at(raw, needle, i + 1, at);
    }
}

/// Behind the one place where a token stands there is none.
proof fn lemma_match_none(raw: Seq<u8>, needle: Seq<u8>, i: int, at: int)
    requires
        needle.len() > 0,
        0 <= at < i,
        forall|j: int|
            0 <= j && j + needle.len() <= raw.len() && #[trigger] raw.subrange(
                j,
                j + needle.len(),
            ) == needle ==> j == at,
    ensures
        first_match(raw, needle, i, raw.len() as int) is None,
    decreases raw.len() - i,
{
    if i + needle.len() <= raw.len() {
        lemma_match_none(raw, needle, i + 1, at);
    }
}

/// A text in which one special token stands, at one place, and no other, is cut there.
proof fn lemma_three_pieces(
    v: VocabV,
    x: Seq<u8>,
    y: Seq<u8>,
    id: int,
    n: int,
)
    requires
        0 <= n <= v.tokens.len() <= i32::MAX,
        0 <= id < v.tokens.len(),
        v.type_of(id) == 3 || v.type_of(id) == 4,
        encode_utf8(v.tokens[id]).len() > 0,
        (x + encode_utf8(v.tokens[id]) + y).len() <= usize::MAX,
        forall|k: int|
            0 <= k < n && k != id && (v.type_of(k) == 3 || v.type_of(k) == 4) ==> nowhere(
                x + encode_utf8(v.tokens[id]) + y,
                encode_utf8(#[trigger] v.tokens[k]),
            ),
        forall|j: int|
            0 <= j && j + encode_utf8(v.tokens[id]).len() <= (x + encode_utf8(v.tokens[id])
                + y).len() && #[trigger] (x + encode_utf8(v.tokens[id]) + y).subrange(
                j,
                j + encode_utf8(v.tokens[id]).len(),
            ) == encode_utf8(v.tokens[id]) ==> j == x.len(),
    ensures
        ({
            let needle = encode_utf8(v.tokens[id]);
            let raw = x + needle + y;
            let at = x.len() as int;
            pieces_of(raw, specials_below(v, n), true, v.types) == if n <= id {
                seq![Frag::Raw { start: 0, len: raw.len() as usize }]
            } else {
                some_piece(0, at).push(Frag::Tok(id as i32)) + some_piece(
                    at + needle.len(),
                    y.len() as int,
                )
            }
        }),
    decreases n,
{
    let needle = encode_utf8(v.tokens[id]);
    let raw = x + needle + y;
    let at = x.len() as int;
    if n > 0 {
        lemma_three_pieces(v, x, y, id, n - 1);
        lemma_specials_below(v, n);
        if v.type_of(n - 1) == 3 || v.type_of(n - 1) == 4 {
            let m = specials_below(v, n);
            assert(m.drop_last() =~= specials_below(v, n - 1));
            if n - 1 == id {
                lemma_cut_once(x, needle, y, id as i32);
            } else {
                let done = pieces_of(raw, specials_below(v, n - 1), true, v.types);
                let other = encode_utf8(v.tokens[n - 1]);
                assert(nowhere(raw, other));
                assert(all_in_bounds(done, raw.len() as int));
                lemma_nowhere_all(raw, done, (n - 1) as i32, other);
            }
        }
    } else {
        assert(specials_below(v, 0) =~= Seq::<(i32, Seq<u8>)>::empty());
    }
}

/// A range without bytes has no ids.
proof fn lemma_no_ids(v: VocabV)
    ensures
        text_ids(v, decode_utf8(Seq::<u8>::empty())) == Seq::<i32>::empty(),
{
    let none = decode_utf8(Seq::<u8>::empty());
    assert(none =~= Seq::<char>::empty());
    assert(points(none) =~= Seq::<u32>::empty());
}

/// A special token in a text is its id: where the text of a control or user-defined token stands
/// at one place of a text, and that of no other such token stands in it, the ids are those of the
/// text in front of it, its own id, and those of the text behind it.
pub proof fn law_special_token_is_its_id(v: VocabV, a: Seq<char>, id: int, b: Seq<char>)
    requires
        v.tokens.len() <= i32::MAX,
        0 <= id < v.tokens.len(),
        v.type_of(id) == 3 || v.type_of(id) == 4,
        v.tokens[id].len() > 0,
        encode_utf8(a + v.tokens[id] + b).len() <= usize::MAX,
        forall|k: int|
            #[trigger] find::stands(a + v.tokens[id] + b, v.tokens[id], k) ==> k == a.len(),
        forall|m: int, k: int|
            0 <= m < v.tokens.len() && m != id && (v.type_of(m) == 3 || v.type_of(m) == 4)
                && v.tokens[m].len() > 0 ==> !#[trigger] find::stands(
                a + v.tokens[id] + b,
                v.tokens[m],
                k,
            ),
    ensures
        encoding(v, a + v.tokens[id] + b, true) == encoding(v, a, true) + seq![id as i32]
            + encoding(v, b, true),
{
    let tok = v.tokens[id];
    let s = a + tok + b;
    let (x, needle, y) = (encode_utf8(a), encode_utf8(tok), encode_utf8(b));
    let raw = encode_utf8(s);
    let n = v.tokens.len() as int;
    lemma_encode_concat(a, tok);
    lemma_encode_concat(a + tok, b);
    lemma_encode_some(tok);
    assert(raw == x + needle + y);
    assert forall|j: int|
        0 <= j && j + needle.len() <= raw.len() && #[trigger] raw.subrange(j, j + needle.len())
            == needle implies j == x.len() by {
        lemma_bytes_stand(s, tok, j);
        let k = choose|k: int|
            #[trigger] find::stands(s, tok, k) && encode_utf8(s.take(k)).len() == j;
        assert(k == a.len());
        assert(s.take(k) =~= a);
    }
    assert forall|k: int|
        0 <= k < n && k != id && (v.type_of(k) == 3 || v.type_of(k) == 4) implies nowhere(
        raw,
        encode_utf8(#[trigger] v.tokens[k]),
    ) by {
        let other = encode_utf8(v.tokens[k]);
        assert forall|j: int|
            0 <= j && j + other.len() <= raw.len() && other.len() > 0 implies #[trigger] raw.subrange(
            j,
            j + other.len(),
        ) != other by {
            if raw.subrange(j, j + other.len()) == other {
                lemma_bytes_stand(s, v.tokens[k], j);
                let i = choose|i: int|
                    #[trigger] find::stands(s, v.tokens[k], i) && encode_utf8(s.take(i)).len() == j;
                assert(v.tokens[k].len() > 0) by {
                    if v.tokens[k].len() == 0 {
                        assert(v.tokens[k] =~= Seq::<char>::empty());
                    }
                }
                assert(!find::stands(s, v.tokens[k], i));
            }
        }
    }
    lemma_three_pieces(v, x, y, id, n);
    assert forall|k: int| 0 <= k < n && (v.type_of(k) == 3 || v.type_of(k) == 4) implies nowhere(
        x,
        encode_utf8(#[trigger] v.tokens[k]),
    ) && nowhere(y, encode_utf8(v.tokens[k])) by {
        let other = encode_utf8(v.tokens[k]);
        let m = other.len() as int;
        assert forall|j: int| 0 <= j && j + m <= x.len() && m > 0 implies #[trigger] x.subrange(
            j,
            j + m,
        ) != other by {
            assert(raw.subrange(j, j + m) =~= x.subrange(j, j + m));
            if k != id {
                assert(nowhere(raw, other));
            }
        }
        assert forall|j: int| 0 <= j && j + m <= y.len() && m > 0 implies #[trigger] y.subrange(
            j,
            j + m,
        ) != other by {
            let i = x.len() + needle.len() + j;
            assert(raw.subrange(i, i + m) =~= y.subrange(j, j + m));
            if k != id {
                assert(nowhere(raw, other));
            }
        }
    }
    lemma_one_piece(v, x, n);
    lemma_one_piece(v, y, n);
    assert(specials_below(v, n) =~= special_tokens(v));
    lemma_no_ids(v);
    let none = Seq::<i32>::empty();
    let at = x.len() as int;
    let end = at + needle.len();
    let fx = Frag::Raw { start: 0, len: x.len() as usize };
    let fy = Frag::Raw { start: 0, len: y.len() as usize };
    lemma_ids_of_one(v, x, fx);
    lemma_ids_of_one(v, y, fy);
    assert(x.subrange(0, at) =~= x);
    assert(y.subrange(0, y.len() as int) =~= y);
    assert(raw.subrange(0, at) =~= x);
    assert(raw.subrange(end, end + y.len()) =~= y);
    let left = some_piece(0, at);
    let right = some_piece(end, y.len() as int);
    let mid = left.push(Frag::Tok(id as i32));
    lemma_ids_concat(v, raw, mid, right);
    assert(mid.drop_last() =~= left);
    if at > 0 {
        lemma_ids_of_one(v, raw, left[0]);
        assert(left =~= seq![left[0]]);
    } else {
        assert(x =~= Seq::<u8>::empty());
    }
    if y.len() > 0 {
        lemma_ids_of_one(v, raw, right[0]);
        assert(right =~= seq![right[0]]);
    } else {
        assert(y =~= Seq::<u8>::empty());
    }
    let (p, q) = (encoding(v, a, true), encoding(v, b, true));
    assert(pieces_ids(v, raw, left) == p);
    assert(pieces_ids(v, raw, right) == q);
    assert(pieces_ids(v, raw, mid) == p + seq![id as i32]);
}

proof fn lemma_encode_some(s: Seq<char>)
    requires
        s.len() > 0,
    ensures
        encode_utf8(s).len() > 0,
{
    encode_utf8_first_scalar(s);
    encode_utf8_decode_utf8(s);
    if encode_utf8(s).len() == 0 {
        assert(encode_utf8(s) =~= encode_utf8(Seq::<char>::empty()));
        encode_utf8_decode_utf8(Seq::<char>::empty());
    }
}

proof fn lemma_ids_of_one(v: VocabV, raw: Seq<u8>, f: Frag)
    ensures
        pieces_ids(v, raw, seq![f]) == piece_ids(v, raw, f),
{
    let one = seq![f];
    let none = one.drop_last();
    assert(none.len() == 0);
    assert(pieces_ids(v, raw, none) == Seq::<i32>::empty());
    assert(one.last() == f);
    assert(pieces_ids(v, raw, one) == pieces_ids(v, raw, none) + piece_ids(v, raw, f));
    assert(Seq::<i32>::empty() + piece_ids(v, raw, f) =~= piece_ids(v, raw, f));
}

proof fn lemma_ids_concat(v: VocabV, raw: Seq<u8>, a: Seq<Frag>, b: Seq<Frag>)
    ensures
        pieces_ids(v, raw, a + b) == pieces_ids(v, raw, a) + pieces_ids(v, raw, b),
    decreases b.len(),
{
    if b.len() == 0 {
        assert(a + b =~= a);
        assert(pieces_ids(v, raw, a) + Seq::<i32>::empty() =~= pieces_ids(v, raw, a));
    } else {
        assert((a + b).drop_last() =~= a + b.drop_last());
        lemma_ids_concat(v, raw, a, b.drop_last());
        let (p, q, r) = (
            pieces_ids(v, raw, a),
            pieces_ids(v, raw, b.drop_last()),
            piece_ids(v, raw, b.last()),
        );
        assert((p + q) + r =~= p + (q + r));
    }
}

// ---- how words are merged ---------------------------------------------------------------------

/// A pair is merge `r` of the list: it stands there, and nowhere behind.
pub open spec fn is_merge(merges: Seq<(Seq<char>, Seq<char>)>, a: Seq<char>, b: Seq<char>, r: int) -> bool {
    &&& 0 <= r < merges.len()
    &&& merges[r] == (a, b)
    &&& forall|q: int| r < q < merges.len() ==> #[trigger] merges[q] != (a, b)
}

/// The symbols `after` are those `before` with one neighbouring pair joined, by merge `r` at place
/// `i`. No neighbouring pair has a merge that stands earlier in the list, and none further left has
/// the same.
pub open spec fn merge_step(
    merges: Seq<(Seq<char>, Seq<char>)>,
    before: Seq<Seq<char>>,
    after: Seq<Seq<char>>,
    i: int,
    r: int,
) -> bool {
    &&& 0 <= i < before.len() - 1
    &&& is_merge(merges, before[i], before[i + 1], r)
    &&& forall|j: int, q: int|
        0 <= j < before.len() - 1 && #[trigger] is_merge(merges, before[j], before[j + 1], q)
            ==> r <= q && (j < i ==> r < q)
    &&& after.len() == before.len() - 1
    &&& forall|j: int|
        0 <= j < after.len() ==> #[trigger] after[j] == if j < i {
            before[j]
        } else if j == i {
            before[i] + before[i + 1]
        } else {
            before[j + 1]
        }
}

/// One step of a run: some pair is joined.
pub open spec fn steps(
    merges: Seq<(Seq<char>, Seq<char>)>,
    before: Seq<Seq<char>>,
    after: Seq<Seq<char>>,
) -> bool {
    exists|i: int, r: int| #[trigger] merge_step(merges, before, after, i, r)
}

/// No neighbouring pair is a merge.
pub open spec fn unmergeable(merges: Seq<(Seq<char>, Seq<char>)>, syms: Seq<Seq<char>>) -> bool {
    forall|j: int, q: int|
        0 <= j < syms.len() - 1 ==> !#[trigger] is_merge(merges, syms[j], syms[j + 1], q)
}

/// A run of merges: each step joins a pair, until none is left to join.
pub open spec fn is_run(merges: Seq<(Seq<char>, Seq<char>)>, run: Seq<Seq<Seq<char>>>) -> bool {
    &&& run.len() > 0
    &&& forall|k: int| 0 <= k < run.len() - 1 ==> steps(merges, #[trigger] run[k], run[k + 1])
    &&& unmergeable(merges, run.last())
}

proof fn lemma_rank(v: VocabV, a: Seq<char>, b: Seq<char>)
    ensures
        v.rank(a, b) matches Some(r) ==> is_merge(v.merges, a, b, r),
        forall|q: int| #[trigger] is_merge(v.merges, a, b, q) ==> v.rank(a, b) == Some(q),
{
    lookup::lemma_last_place(v.merges, (a, b));
    assert forall|q: int| #[trigger] is_merge(v.merges, a, b, q) implies v.rank(a, b) == Some(
        q,
    ) by {
        let r = v.rank(a, b)->0;
        if r < q {
            assert(v.merges[q] != (a, b));
        } else if q < r {
            assert(v.merges[r] != (a, b));
        }
    }
}

/// Among the first `k` neighbouring pairs, the one that is picked has the earliest merge, and is
/// the first that has it.
proof fn lemma_best_is_earliest(v: VocabV, syms: Seq<Seq<char>>, k: int)
    requires
        k < syms.len(),
    ensures
        match best_pair(v, syms, k) {
            Some(i) => 0 <= i < k && (v.rank(syms[i], syms[i + 1]) matches Some(r) && forall|j: int|
                0 <= j < k ==> (v.rank(#[trigger] syms[j], syms[j + 1]) matches Some(q) ==> r <= q
                    && (j < i ==> r < q))),
            None => forall|j: int| 0 <= j < k ==> v.rank(#[trigger] syms[j], syms[j + 1]) is None,
        },
    decreases k,
{
    if k > 0 {
        lemma_best_is_earliest(v, syms, k - 1);
    }
}

proof fn lemma_run(v: VocabV, syms: Seq<Seq<char>>) -> (run: Seq<Seq<Seq<char>>>)
    ensures
        is_run(v.merges, run),
        run[0] == syms,
        run.last() == merge_all(v, syms),
    decreases syms.len(),
{
    lemma_best_is_earliest(v, syms, syms.len() - 1);
    match best_pair(v, syms, syms.len() - 1) {
        None => {
            let run = seq![syms];
            assert forall|j: int, q: int| 0 <= j < syms.len() - 1 implies !#[trigger] is_merge(
                v.merges,
                syms[j],
                syms[j + 1],
                q,
            ) by {
                lemma_rank(v, syms[j], syms[j + 1]);
            }
            run
        },
        Some(i) => {
            let next = merged(syms, i);
            let rest = lemma_run(v, next);
            let run = seq![syms] + rest;
            let r = v.rank(syms[i], syms[i + 1])->0;
            lemma_rank(v, syms[i], syms[i + 1]);
            assert(merge_step(v.merges, syms, next, i, r)) by {
                assert forall|j: int, q: int|
                    0 <= j < syms.len() - 1 && #[trigger] is_merge(
                        v.merges,
                        syms[j],
                        syms[j + 1],
                        q,
                    ) implies r <= q && (j < i ==> r < q) by {
                    lemma_rank(v, syms[j], syms[j + 1]);
                }
            }
            assert forall|k: int| 0 <= k < run.len() - 1 implies steps(
                v.merges,
                #[trigger] run[k],
                run[k + 1],
            ) by {
                if k == 0 {
                    assert(run[1] == rest[0]);
                } else {
                    assert(run[k] == rest[k - 1] && run[k + 1] == rest[k]);
                }
            }
            assert(run.last() == rest.last());
            run
        },
    }
}

/// The ids name the symbols: each is that of the last token with its symbol's text.
pub open spec fn names(v: VocabV, ids: Seq<i32>, syms: Seq<Seq<char>>) -> bool {
    &&& ids.len() == syms.len()
    &&& forall|k: int| 0 <= k < syms.len() ==> is_token(v, #[trigger] ids[k], syms[k])
}

/// `id` is the last token whose text is `s`.
pub open spec fn is_token(v: VocabV, id: i32, s: Seq<char>) -> bool {
    &&& 0 <= id < v.tokens.len()
    &&& v.tokens[id as int] == s
    &&& forall|q: int| id < q < v.tokens.len() ==> #[trigger] v.tokens[q] != s
}

proof fn lemma_is_token(v: VocabV, s: Seq<char>)
    requires
        v.tokens.len() <= i32::MAX,
        v.tokens.contains(s),
    ensures
        v.id_of(s) matches Some(id) && is_token(v, id, s),
{
    lookup::lemma_last_place(v.keys(), single(s));
    let i = choose|i: int| 0 <= i < v.tokens.len() && v.tokens[i] == s;
    assert(v.keys()[i] == single(s));
    let p = lookup::last_place(v.keys(), single(s))->0;
    assert(v.keys()[p] == single(s));
    assert forall|q: int| p < q < v.tokens.len() implies #[trigger] v.tokens[q] != s by {
        assert(v.keys()[q] != single(s));
    }
}

proof fn lemma_names(v: VocabV, syms: Seq<Seq<char>>)
    requires
        v.tokens.len() <= i32::MAX,
        forall|k: int| 0 <= k < syms.len() ==> v.tokens.contains(#[trigger] syms[k]),
    ensures
        names(v, symbols_ids(v, syms), syms),
    decreases syms.len(),
{
    if syms.len() > 0 {
        let d = syms.drop_last();
        assert forall|k: int| 0 <= k < d.len() implies v.tokens.contains(#[trigger] d[k]) by {
            assert(d[k] == syms[k]);
        }
        lemma_names(v, d);
        assert(v.tokens.contains(syms[syms.len() - 1]));
        lemma_is_token(v, syms.last());
        let ids = symbols_ids(v, syms);
        assert forall|k: int| 0 <= k < syms.len() implies is_token(v, #[trigger] ids[k], syms[k]) by {
            if k < d.len() {
                assert(ids[k] == symbols_ids(v, d)[k]);
                assert(d[k] == syms[k]);
            }
        }
    }
}

/// A word is merged in the order of the merge list. It starts as its letters; each step joins the
/// neighbouring pair whose merge stands earliest in the list, the leftmost of such, until no pair
/// is a merge. Its ids name what is then left, if all of it are tokens.
pub proof fn law_word_is_merged_in_order(v: VocabV, word: Seq<char>) -> (run: Seq<Seq<Seq<char>>>)
    requires
        v.tokens.len() <= i32::MAX,
    ensures
        is_run(v.merges, run),
        run[0].len() == word.len(),
        forall|i: int| 0 <= i < word.len() ==> #[trigger] run[0][i] == seq![word[i]],
        (forall|k: int| 0 <= k < run.last().len() ==> v.tokens.contains(#[trigger] run.last()[k]))
            ==> names(v, word_ids(v, word), run.last()),
{
    let run = lemma_run(v, letters(word));
    if forall|k: int| 0 <= k < run.last().len() ==> v.tokens.contains(#[trigger] run.last()[k]) {
        lemma_names(v, run.last());
    }
    run
}

/// Two runs of merges that start from the same symbols are the same: the order leaves no choice.
pub proof fn law_runs_are_unique(
    merges: Seq<(Seq<char>, Seq<char>)>,
    a: Seq<Seq<Seq<char>>>,
    b: Seq<Seq<Seq<char>>>,
)
    requires
        is_run(merges, a),
        is_run(merges, b),
        a[0] == b[0],
    ensures
        a == b,
    decreases a.len(),
{
    if a.len() == 1 || b.len() == 1 {
        if a.len() > 1 {
            assert(steps(merges, a[0], a[1]));
            let (i, r) = choose|i: int, r: int| #[trigger] merge_step(merges, a[0], a[1], i, r);
            assert(is_merge(merges, b[0][i], b[0][i + 1], r));
        }
        if b.len() > 1 {
            assert(steps(merges, b[0], b[1]));
            let (i, r) = choose|i: int, r: int| #[trigger] merge_step(merges, b[0], b[1], i, r);
            assert(is_merge(merges, a[0][i], a[0][i + 1], r));
        }
        assert(a =~= b);
    } else {
        let syms = a[0];
        assert(steps(merges, a[0], a[1]));
        assert(steps(merges, b[0], b[1]));
        let (i, r) = choose|i: int, r: int| #[trigger] merge_step(merges, a[0], a[1], i, r);
        let (j, q) = choose|i: int, r: int| #[trigger] merge_step(merges, b[0], b[1], i, r);
        assert(is_merge(merges, syms[i], syms[i + 1], r));
        assert(is_merge(merges, syms[j], syms[j + 1], q));
        assert(i == j);
        assert(a[1] =~= b[1]);
        let (x, y) = (a.skip(1), b.skip(1));
        assert forall|k: int| 0 <= k < x.len() - 1 implies steps(
            merges,
            #[trigger] x[k],
            x[k + 1],
        ) by {
            assert(steps(merges, a[k + 1], a[k + 1 + 1]));
        }
        assert forall|k: int| 0 <= k < y.len() - 1 implies steps(
            merges,
            #[trigger] y[k],
            y[k + 1],
        ) by {
            assert(steps(merges, b[k + 1], b[k + 1 + 1]));
        }
        law_runs_are_unique(merges, x, y);
        assert forall|k: int| 0 <= k < a.len() implies a[k] == b[k] by {
            if k > 0 {
                assert(a[k] == x[k - 1] && b[k] == y[k - 1]);
            }
        }
        assert(a.len() == x.len() + 1 && b.len() == y.len() + 1);
        assert(a =~= b);
    }
}

/// A symbol that is no token falls back to its characters: where they are ASCII and tokens, its
/// ids name them one by one; a character without a token has no id.
pub proof fn law_unknown_symbol_is_spelled(v: VocabV, s: Seq<char>)
    requires
        v.tokens.len() <= i32::MAX,
        !v.tokens.contains(s),
        is_ascii_chars(s),
    ensures
        (forall|i: int| 0 <= i < s.len() ==> v.tokens.contains(seq![#[trigger] s[i]])) ==> names(
            v,
            symbol_ids(v, s),
            letters(s),
        ),
        (forall|i: int| 0 <= i < s.len() ==> !v.tokens.contains(seq![#[trigger] s[i]]))
            ==> symbol_ids(v, s).len() == 0,
{
    lookup::lemma_last_place(v.keys(), single(s));
    if let Some(p) = lookup::last_place(v.keys(), single(s)) {
        assert(v.keys()[p] == single(s));
        assert(v.tokens[p] == s);
    }
    lemma_spelled(v, s);
}

proof fn lemma_spelled(v: VocabV, s: Seq<char>)
    requires
        v.tokens.len() <= i32::MAX,
        is_ascii_chars(s),
    ensures
        (forall|i: int| 0 <= i < s.len() ==> v.tokens.contains(seq![#[trigger] s[i]])) ==> names(
            v,
            byte_ids(v, encode_utf8(s)),
            letters(s),
        ),
        (forall|i: int| 0 <= i < s.len() ==> !v.tokens.contains(seq![#[trigger] s[i]]))
            ==> byte_ids(v, encode_utf8(s)).len() == 0,
    decreases s.len(),
{
    is_ascii_chars_encode_utf8(s);
    let e = encode_utf8(s);
    if s.len() > 0 {
        let d = s.drop_last();
        let c = s.last();
        assert(is_ascii_chars(d));
        is_ascii_chars_encode_utf8(d);
        lemma_spelled(v, d);
        assert(e.drop_last() =~= encode_utf8(d)) by {
            assert forall|i: int| 0 <= i < d.len() implies e[i] == encode_utf8(d)[i] by {
                assert(s[i] as u8 == e[i]);
                assert(d[i] as u8 == encode_utf8(d)[i]);
            }
        }
        assert('\0' <= s[s.len() - 1] <= '\u{7f}');
        assert(e.last() == c as u8);
        assert(0 <= c as int && (c as int) < 128);
        assert((c as u8) as int == c as int);
        assert((c as u8) as char == c);
        let one = seq![c];
        lookup::lemma_last_place(v.keys(), single(one));
        if v.tokens.contains(one) {
            lemma_is_token(v, one);
        } else if let Some(p) = lookup::last_place(v.keys(), single(one)) {
            assert(v.keys()[p] == single(one));
            assert(v.tokens[p] == one);
        }
        let ids = byte_ids(v, e);
        if forall|i: int| 0 <= i < s.len() ==> v.tokens.contains(seq![#[trigger] s[i]]) {
            assert(v.tokens.contains(seq![s[s.len() - 1]]));
            assert forall|i: int| 0 <= i < d.len() implies v.tokens.contains(
                seq![#[trigger] d[i]],
            ) by {
                assert(d[i] == s[i]);
            }
            let syms = letters(s);
            assert forall|k: int| 0 <= k < syms.len() implies is_token(
                v,
                #[trigger] ids[k],
                syms[k],
            ) by {
                if k < d.len() {
                    assert(ids[k] == byte_ids(v, e.drop_last())[k]);
                    assert(letters(d)[k] == syms[k]);
                }
            }
        }
        if forall|i: int| 0 <= i < s.len() ==> !v.tokens.contains(seq![#[trigger] s[i]]) {
            assert(!v.tokens.contains(seq![s[s.len() - 1]]));
            assert forall|i: int| 0 <= i < d.len() implies !v.tokens.contains(
                seq![#[trigger] d[i]],
            ) by {
                assert(d[i] == s[i]);
            }
        }
    } else {
        assert(e =~= Seq::<u8>::empty());
    }
}

} // verus!
