//! The byte-level alphabet: every byte stands for one printable character.

use vstd::prelude::*;
use vstd::string::*;
use vstd::utf8::*;

use crate::text;

verus! {

/// The bytes that stand for themselves.
pub open spec fn exempt(b: int) -> bool {
    0x21 <= b <= 0x7E || 0xA1 <= b <= 0xAC || 0xAE <= b <= 0xFF
}

/// Whether a byte stands for itself.
pub fn byte_exempt(b: u32) -> (r: bool)
    ensures
        r == exempt(b as int),
{
    (0x21 <= b && b <= 0x7E) || (0xA1 <= b && b <= 0xAC) || (0xAE <= b && b <= 0xFF)
}

/// How many bytes below `b` do not stand for themselves.
pub open spec fn moved_below(b: int) -> int
    decreases b,
{
    if b <= 0 {
        0
    } else {
        moved_below(b - 1) + if exempt(b - 1) {
            0int
        } else {
            1int
        }
    }
}

/// The code point of the character that byte `b` stands for: its own, or the next one from 256
/// on.
pub open spec fn char_code(b: int) -> int {
    if exempt(b) {
        b
    } else {
        256 + moved_below(b)
    }
}

/// The bytes that do not stand for themselves lie in three runs.
proof fn lemma_moved_below(b: int)
    requires
        0 <= b <= 256,
    ensures
        b <= 0x21 ==> moved_below(b) == b,
        0x21 <= b <= 0x7F ==> moved_below(b) == 0x21,
        0x7F <= b <= 0xA1 ==> moved_below(b) == 0x21 + (b - 0x7F),
        0xA1 <= b <= 0xAD ==> moved_below(b) == 0x43,
        0xAE <= b ==> moved_below(b) == 0x44,
    decreases b,
{
    if b > 0 {
        lemma_moved_below(b - 1);
    }
}

/// The character that a byte stands for.
pub open spec fn byte_char(b: u8) -> char {
    char_code(b as int) as u32 as char
}

pub proof fn lemma_byte_char(b: u8)
    ensures
        byte_char(b) as u32 == char_code(b as int),
        0 <= char_code(b as int) < 0x144,
{
    lemma_moved_below(b as int);
}

/// `char::from_u32`: the scalar value of that number, if it is one.
pub assume_specification[ char::from_u32 ](i: u32) -> (r: Option<char>)
    ensures
        (match r {
            Some(c) => c as int == i,
            None => !is_scalar(i),
        }),
;

/// The character that a byte stands for.
pub fn byte_to_char(b: u8) -> (r: char)
    ensures
        r == byte_char(b),
{
    proof {
        lemma_byte_char(b);
    }
    let code: u32 = if byte_exempt(b as u32) {
        b as u32
    } else {
        let mut n: u32 = 0;
        let mut x: u32 = 0;
        while x < b as u32
            invariant
                x <= b,
                n == moved_below(x as int),
                n <= x,
            decreases b - x,
        {
            if !byte_exempt(x) {
                n += 1;
            }
            x += 1;
        }
        256 + n
    };
    assert(code == char_code(b as int));
    assert(is_scalar(code));
    match char::from_u32(code) {
        Some(c) => c,
        None => '\0',
    }
}

/// The characters that bytes stand for.
pub open spec fn encoded(b: Seq<u8>) -> Seq<char> {
    b.map_values(|x: u8| byte_char(x))
}

/// Spells a word's UTF-8 bytes in the byte-level alphabet.
pub fn byte_encode_word(word: &str) -> (r: String)
    ensures
        r@ == encoded(encode_utf8(word@)),
{
    let b: &[u8] = word.as_bytes();
    let mut out = String::new();
    let mut i: usize = 0;
    while i < b.len()
        invariant
            i <= b@.len(),
            out@ == encoded(b@).take(i as int),
        decreases b@.len() - i,
    {
        out.push(byte_to_char(b[i]));
        i += 1;
        assert(out@ =~= encoded(b@).take(i as int));
    }
    assert(encoded(b@).take(i as int) =~= encoded(b@));
    out
}

/// The byte that a code point of the alphabet stands for.
pub open spec fn code_byte(c: int) -> Option<u8> {
    if exempt(c) {
        Some(c as u8)
    } else if 256 <= c < 256 + 0x21 {
        Some((c - 256) as u8)
    } else if 256 + 0x21 <= c < 256 + 0x43 {
        Some((c - 256 - 0x21 + 0x7F) as u8)
    } else if c == 256 + 0x43 {
        Some(0xAD)
    } else {
        None
    }
}

/// The alphabet is in one-to-one correspondence with the bytes.
pub proof fn law_alphabet_is_bijective(c: char, b: u8)
    ensures
        code_byte(c as int) == Some(b) <==> c == byte_char(b),
{
    lemma_moved_below(b as int);
    lemma_byte_char(b);
    assert(c == byte_char(b) <==> c as u32 == byte_char(b) as u32);
}

/// The byte that a character of the alphabet stands for.
pub fn byte_of_char(c: char) -> (r: Option<u8>)
    ensures
        r == code_byte(c as int),
        forall|b: u8| r == Some(b) <==> c == #[trigger] byte_char(b),
{
    proof {
        assert forall|b: u8| code_byte(c as int) == Some(b) <==> c == #[trigger] byte_char(b) by {
            law_alphabet_is_bijective(c, b);
        }
    }
    let x: u32 = c as u32;
    if byte_exempt(x) {
        Some(x as u8)
    } else if 256 <= x && x < 256 + 0x21 {
        Some((x - 256) as u8)
    } else if 256 + 0x21 <= x && x < 256 + 0x43 {
        Some((x - 256 - 0x21 + 0x7F) as u8)
    } else if x == 256 + 0x43 {
        Some(0xAD)
    } else {
        None
    }
}

/// The bytes of one character: the byte it stands for, else its own UTF-8 bytes.
pub open spec fn char_bytes(c: char) -> Seq<u8> {
    match code_byte(c as int) {
        Some(b) => seq![b],
        None => encode_utf8(seq![c]),
    }
}

/// The bytes of a text in the byte-level alphabet.
pub open spec fn decoded(s: Seq<char>) -> Seq<u8>
    decreases s.len(),
{
    if s.len() == 0 {
        Seq::empty()
    } else {
        decoded(s.drop_last()) + char_bytes(s.last())
    }
}

/// Decodes a text in the byte-level alphabet into raw bytes; characters outside the alphabet are
/// kept as UTF-8.
pub fn decode_bytes(text: &str) -> (r: Vec<u8>)
    ensures
        r@ == decoded(text@),
{
    let cs: Vec<char> = text::chars_of(text);
    let mut out: Vec<u8> = Vec::new();
    let mut i: usize = 0;
    assert(cs@.take(0) =~= Seq::<char>::empty());
    while i < cs.len()
        invariant
            i <= cs@.len(),
            out@ == decoded(cs@.take(i as int)),
        decreases cs@.len() - i,
    {
        let c: char = cs[i];
        let ghost before = out@;
        assert(cs@.take(i + 1).drop_last() =~= cs@.take(i as int));
        match byte_of_char(c) {
            Some(b) => {
                out.push(b);
                assert(out@ =~= before + seq![b]);
            },
            None => {
                let mut one = String::new();
                one.push(c);
                assert(one@ =~= seq![c]);
                crate::gguf_write::push_bytes(&mut out, one.as_str().as_bytes());
            },
        }
        i += 1;
    }
    assert(cs@.take(i as int) =~= cs@);
    out
}

/// Decoding goes piece by piece.
pub proof fn lemma_decoded_concat(a: Seq<char>, b: Seq<char>)
    ensures
        decoded(a + b) == decoded(a) + decoded(b),
    decreases b.len(),
{
    if b.len() == 0 {
        assert(a + b =~= a);
        assert(decoded(a) + Seq::<u8>::empty() =~= decoded(a));
    } else {
        lemma_decoded_concat(a, b.drop_last());
        assert((a + b).drop_last() =~= a + b.drop_last());
        assert(decoded(a) + (decoded(b.drop_last()) + char_bytes(b.last())) =~= decoded(a)
            + decoded(b.drop_last()) + char_bytes(b.last()));
    }
}

/// Decoding what bytes were encoded into gives the bytes.
pub proof fn law_decode_undoes_encode(b: Seq<u8>)
    ensures
        decoded(encoded(b)) == b,
    decreases b.len(),
{
    if b.len() > 0 {
        law_decode_undoes_encode(b.drop_last());
        assert(encoded(b).drop_last() =~= encoded(b.drop_last()));
        law_alphabet_is_bijective(byte_char(b.last()), b.last());
        assert(b =~= b.drop_last() + seq![b.last()]);
    } else {
        assert(encoded(b) =~= Seq::<char>::empty());
    }
}

} // verus!
