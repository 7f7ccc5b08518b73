//! Text that arrives as bytes, in pieces that may end inside a character.

use vstd::prelude::*;
use vstd::string::*;
use vstd::utf8::*;

use crate::gguf;

verus! {

/// The first `r` bytes are text, and no longer front of the bytes is.
pub open spec fn is_valid_len(b: Seq<u8>, r: int) -> bool {
    &&& 0 <= r <= b.len()
    &&& valid_utf8(b.take(r))
    &&& forall|j: int| r < j <= b.len() ==> !valid_utf8(#[trigger] b.take(j))
}

/// The length of the longest front that is text.
pub open spec fn valid_len_of(b: Seq<u8>) -> int {
    choose|r: int| is_valid_len(b, r)
}

proof fn lemma_valid_len(b: Seq<u8>, r: int)
    requires
        is_valid_len(b, r),
    ensures
        valid_len_of(b) == r,
{
    let q = valid_len_of(b);
    assert(is_valid_len(b, q));
    if q < r {
        assert(!valid_utf8(b.take(r)));
    } else if r < q {
        assert(!valid_utf8(b.take(q)));
    }
}

/// The length of the character at `i`; zero if there is no complete one.
fn scalar_len(b: &Vec<u8>, i: usize) -> (r: usize)
    requires
        i < b@.len(),
    ensures
        ({
            let s = b@.skip(i as int);
            if valid_first_scalar(s) {
                r == length_of_first_scalar(s) && 1 <= r && i + r <= b@.len()
            } else {
                r == 0
            }
        }),
{
    let ghost s = b@.skip(i as int);
    let n: usize = b.len() - i;
    let b1: u8 = b[i];
    assert(s[0] == b1);
    if b1 <= 0x7f {
        assert((b1 & 0x7F) == b1) by (bit_vector)
            requires
                b1 <= 0x7f,
        ;
        return 1;
    }
    if b1 < 0xc0 || b1 > 0xf7 || n < 2 {
        return 0;
    }
    let b2: u8 = b[i + 1];
    assert(s[1] == b2);
    if b2 < 0x80 || b2 > 0xbf {
        return 0;
    }
    if b1 <= 0xdf {
        let c: u32 = (((b1 & 0x1F) as u32) << 6) | ((b2 & 0x3f) as u32);
        assert(c < 0x800) by (bit_vector)
            requires
                c == (((b1 & 0x1F) as u32) << 6) | ((b2 & 0x3f) as u32),
        ;
        if c < 0x80 {
            return 0;
        }
        return 2;
    }
    if n < 3 {
        return 0;
    }
    let b3: u8 = b[i + 2];
    assert(s[2] == b3);
    if b3 < 0x80 || b3 > 0xbf {
        return 0;
    }
    if b1 <= 0xef {
        let c: u32 = (((b1 & 0x0F) as u32) << 12) | (((b2 & 0x3f) as u32) << 6) | ((b3
            & 0x3f) as u32);
        if c < 0x800 || 0xD800 <= c && c <= 0xDFFF {
            return 0;
        }
        return 3;
    }
    if n < 4 {
        return 0;
    }
    let b4: u8 = b[i + 3];
    assert(s[3] == b4);
    if b4 < 0x80 || b4 > 0xbf {
        return 0;
    }
    let c: u32 = (((b1 & 0x07) as u32) << 18) | (((b2 & 0x3f) as u32) << 12) | (((b3
        & 0x3f) as u32) << 6) | ((b4 & 0x3f) as u32);
    if c < 0x10000 || c > 0x10ffff {
        return 0;
    }
    4
}

/// The first character of a text is that of all that begin with it.
proof fn lemma_first_scalar(s: Seq<u8>, t: Seq<u8>)
    requires
        s.len() <= t.len(),
        t.take(s.len() as int) == s,
        valid_first_scalar(s),
    ensures
        valid_first_scalar(t),
        length_of_first_scalar(t) == length_of_first_scalar(s),
        1 <= length_of_first_scalar(s) <= s.len(),
{
    assert forall|i: int| 0 <= i < s.len() implies s[i] == t[i] by {
        assert(t.take(s.len() as int)[i] == t[i]);
    }
}

/// What is left of a text behind a text in front of it is text.
proof fn lemma_valid_rest(s: Seq<u8>, i: int)
    requires
        0 <= i <= s.len(),
        valid_utf8(s.take(i)),
        valid_utf8(s),
    ensures
        valid_utf8(s.skip(i)),
    decreases i,
{
    if i == 0 {
        assert(s.skip(0) =~= s);
    } else {
        let h = s.take(i);
        lemma_first_scalar(h, s);
        let l = length_of_first_scalar(h);
        let u = pop_first_scalar(s);
        assert(u =~= s.skip(l));
        assert(pop_first_scalar(h) =~= u.take(i - l));
        lemma_valid_rest(u, i - l);
        assert(u.skip(i - l) =~= s.skip(i));
    }
}

/// A text behind a text is text.
proof fn lemma_valid_more(b: Seq<u8>, i: int, l: int)
    requires
        0 <= i <= b.len(),
        valid_utf8(b.take(i)),
        valid_first_scalar(b.skip(i)),
        l == length_of_first_scalar(b.skip(i)),
        i + l <= b.len(),
        l >= 1,
    ensures
        valid_utf8(b.take(i + l)),
{
    let c = b.subrange(i, i + l);
    assert(valid_utf8(c)) by {
        reveal_with_fuel(valid_utf8, 2);
        let s = b.skip(i);
        assert(c =~= s.take(l));
        assert forall|k: int| 0 <= k < l implies c[k] == s[k] by {}
        assert(valid_first_scalar(c));
        assert(pop_first_scalar(c) =~= Seq::<u8>::empty());
    }
    assert(b.take(i + l) =~= b.take(i) + c);
    valid_utf8_concat(b.take(i), c);
}

/// Bytes that are text, and some, are some text.
pub proof fn lemma_text_nonempty(b: Seq<u8>)
    requires
        valid_utf8(b),
        b.len() > 0,
    ensures
        decode_utf8(b).len() > 0,
{
}

/// The length of the longest front that is text.
pub fn valid_len(b: &Vec<u8>) -> (r: usize)
    ensures
        is_valid_len(b@, r as int),
        r == valid_len_of(b@),
{
    let n: usize = b.len();
    let mut i: usize = 0;
    assert(b@.take(0) =~= Seq::<u8>::empty());
    while i < n
        invariant
            i <= n,
            n == b@.len(),
            valid_utf8(b@.take(i as int)),
        decreases n - i,
    {
        let l: usize = scalar_len(b, i);
        if l == 0 {
            proof {
                assert forall|j: int| i < j <= n implies !valid_utf8(#[trigger] b@.take(j)) by {
                    let t = b@.take(j);
                    if valid_utf8(t) {
                        assert(t.take(i as int) =~= b@.take(i as int));
                        lemma_valid_rest(t, i as int);
                        let c = t.skip(i as int);
                        let s = b@.skip(i as int);
                        assert(s.take(c.len() as int) =~= c);
                        lemma_first_scalar(c, s);
                    }
                }
                lemma_valid_len(b@, i as int);
            }
            return i;
        }
        proof {
            lemma_valid_more(b@, i as int, l as int);
        }
        i += l;
    }
    proof {
        lemma_valid_len(b@, i as int);
    }
    i
}

/// Bytes that wait for the rest of their character.
#[derive(Debug)]
pub struct Utf8Buffer {
    pub buf: Vec<u8>,
}

impl Utf8Buffer {
    pub fn new() -> (r: Utf8Buffer)
        ensures
            r.buf@.len() == 0,
    {
        Utf8Buffer { buf: Vec::new() }
    }

    /// Adds a piece; returns the text that is complete, and keeps the bytes behind it. Nothing is
    /// lost: the bytes of the text and those kept are those that came.
    pub fn push(&mut self, piece: &Vec<u8>) -> (r: String)
        ensures
            ({
                let all = old(self).buf@ + piece@;
                let n = valid_len_of(all);
                &&& is_valid_len(all, n)
                &&& r@ == decode_utf8(all.take(n))
                &&& final(self).buf@ == all.skip(n)
                &&& encode_utf8(r@) + final(self).buf@ == all
            }),
    {
        let ghost all = self.buf@ + piece@;
        let mut i: usize = 0;
        assert(self.buf@ + piece@.take(0) =~= self.buf@);
        while i < piece.len()
            invariant
                i <= piece@.len(),
                self.buf@ == old(self).buf@ + piece@.take(i as int),
            decreases piece@.len() - i,
        {
            self.buf.push(piece[i]);
            i += 1;
            assert(piece@.take(i as int) =~= piece@.take(i - 1).push(piece@[i - 1]));
            assert(self.buf@ =~= old(self).buf@ + piece@.take(i as int));
        }
        assert(piece@.take(i as int) =~= piece@);
        let n: usize = valid_len(&self.buf);
        let total: usize = self.buf.len();
        let head: Vec<u8> = vstd::slice::slice_to_vec(
            vstd::slice::slice_subrange(self.buf.as_slice(), 0, n),
        );
        let tail: Vec<u8> = vstd::slice::slice_to_vec(
            vstd::slice::slice_subrange(self.buf.as_slice(), n, total),
        );
        assert(head@ =~= all.take(n as int));
        assert(tail@ =~= all.skip(n as int));
        proof {
            decode_utf8_encode_utf8(head@);
            assert(head@ + tail@ =~= all);
        }
        self.buf = tail;
        match gguf::from_utf8(head) {
            Ok(s) => s,
            Err(s) => s,
        }
    }
}

/// The text of bytes behind bytes is the text behind the text.
proof fn lemma_decode_concat(a: Seq<u8>, b: Seq<u8>)
    requires
        valid_utf8(a),
        valid_utf8(b),
    ensures
        valid_utf8(a + b),
        decode_utf8(a + b) == decode_utf8(a) + decode_utf8(b),
    decreases a.len(),
{
    valid_utf8_concat(a, b);
    let all = a + b;
    if a.len() == 0 {
        assert(all =~= b);
    } else {
        assert(all.take(a.len() as int) =~= a);
        lemma_first_scalar(a, all);
        assert(pop_first_scalar(all) =~= pop_first_scalar(a) + b);
        lemma_decode_concat(pop_first_scalar(a), b);
        assert forall|i: int| 0 <= i < a.len() implies a[i] == all[i] by {}
        assert(decode_first_scalar(a) == decode_first_scalar(all));
        assert(decode_utf8(all) =~= decode_utf8(a) + decode_utf8(b));
    }
}

/// It does not matter in which pieces bytes arrive: the text that is complete after `a`, with
/// what `b` then completes, is the text that is complete in both, and the same bytes stay behind.
pub proof fn law_pieces_do_not_matter(a: Seq<u8>, b: Seq<u8>)
    ensures
        ({
            let n = valid_len_of(a);
            let rest = a.skip(n) + b;
            let m = valid_len_of(rest);
            let all = a + b;
            &&& valid_len_of(all) == n + m
            &&& decode_utf8(all.take(n + m)) == decode_utf8(a.take(n)) + decode_utf8(rest.take(m))
            &&& all.skip(n + m) == rest.skip(m)
        }),
{
    let n = valid_len_of(a);
    let rest = a.skip(n) + b;
    let m = valid_len_of(rest);
    let all = a + b;
    lemma_has_valid_len(a);
    lemma_has_valid_len(rest);
    assert(all.skip(n) =~= rest);
    assert(all.take(n + m) =~= a.take(n) + rest.take(m));
    lemma_decode_concat(a.take(n), rest.take(m));
    assert forall|j: int| n + m < j <= all.len() implies !valid_utf8(#[trigger] all.take(j)) by {
        let t = all.take(j);
        if valid_utf8(t) {
            assert(t.take(n) =~= a.take(n));
            lemma_valid_rest(t, n);
            assert(t.skip(n) =~= rest.take(j - n));
        }
    }
    lemma_valid_len(all, n + m);
    assert(all.skip(n + m) =~= rest.skip(m));
}

/// The length of the longest front that is text exists.
pub proof fn lemma_has_valid_len(b: Seq<u8>)
    ensures
        is_valid_len(b, valid_len_of(b)),
{
    assert(b.take(0) =~= Seq::<u8>::empty());
    lemma_valid_len_from(b, 0);
}

proof fn lemma_valid_len_from(b: Seq<u8>, i: int)
    requires
        0 <= i <= b.len(),
        valid_utf8(b.take(i)),
    ensures
        exists|r: int| is_valid_len(b, r),
    decreases b.len() - i,
{
    if is_valid_len(b, i) {
    } else {
        let j = choose|j: int| i < j <= b.len() && valid_utf8(#[trigger] b.take(j));
        lemma_valid_len_from(b, j);
    }
}

/// What `String::from_utf8_lossy` makes of bytes.
pub uninterp spec fn lossy_text(b: Seq<u8>) -> Seq<char>;

/// `String::from_utf8_lossy`: valid UTF-8 gives the text that it encodes; of any other bytes the
/// result, in which replacement characters stand for what is not text, is a function.
#[verifier::external_body]
pub(crate) fn from_utf8_lossy(b: &Vec<u8>) -> (r: String)
    ensures
        r@ == lossy_text(b@),
        valid_utf8(b@) ==> r@ == decode_utf8(b@),
{
    String::from_utf8_lossy(b).into_owned()
}

} // verus!
