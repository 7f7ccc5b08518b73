//! Minimal JSON: just enough to parse request bodies and to emit responses.

use vstd::prelude::*;
use vstd::slice::*;
use vstd::string::*;
use vstd::utf8::*;

use crate::number;
use crate::shortest;
use crate::text;

verus! {

/// A JSON value. Numbers are doubles, held as their patterns; members keep their order.
#[derive(Debug)]
pub enum J {
    Null,
    Bool(bool),
    Num(u64),
    Str(String),
    Arr(Vec<J>),
    Obj(Vec<(String, J)>),
}

/// The mathematical content of a [`J`].
pub enum JV {
    Null,
    Bool(bool),
    Num(u64),
    Str(Seq<char>),
    Arr(Seq<JV>),
    Obj(Seq<(Seq<char>, JV)>),
}

impl J {
    pub open spec fn view(&self) -> JV
        decreases self,
    {
        match self {
            J::Null => JV::Null,
            J::Bool(b) => JV::Bool(*b),
            J::Num(n) => JV::Num(*n),
            J::Str(s) => JV::Str(s@),
            J::Arr(items) => JV::Arr(
                Seq::new(
                    items@.len(),
                    |i: int|
                        if 0 <= i < items@.len() {
                            items@[i].view()
                        } else {
                            arbitrary()
                        },
                ),
            ),
            J::Obj(pairs) => JV::Obj(
                Seq::new(
                    pairs@.len(),
                    |i: int|
                        if 0 <= i < pairs@.len() {
                            (pairs@[i].0@, pairs@[i].1.view())
                        } else {
                            arbitrary()
                        },
                ),
            ),
        }
    }
}

/// The contents of a list of values.
pub open spec fn items_view(s: Seq<J>) -> Seq<JV> {
    Seq::new(s.len(), |i: int| s[i]@)
}

/// The contents of a list of members.
pub open spec fn pairs_view(s: Seq<(String, J)>) -> Seq<(Seq<char>, JV)> {
    Seq::new(s.len(), |i: int| (s[i].0@, s[i].1@))
}

pub proof fn lemma_arr_view(items: Vec<J>)
    ensures
        J::Arr(items)@ == JV::Arr(items_view(items@)),
{
    assert(J::Arr(items)@->Arr_0 =~= items_view(items@));
}

pub proof fn lemma_obj_view(pairs: Vec<(String, J)>)
    ensures
        J::Obj(pairs)@ == JV::Obj(pairs_view(pairs@)),
{
    assert(J::Obj(pairs)@->Obj_0 =~= pairs_view(pairs@));
}

// ---- the grammar ------------------------------------------------------------------------

/// Why a text is not JSON: a message, or a message and the text left where it arose.
pub enum Fault {
    Plain(Seq<char>),
    At(Seq<char>, Seq<char>),
}

/// A parsed item and the text behind it, or a fault.
pub type Parsed<T> = Result<(T, Seq<char>), Fault>;

pub open spec fn is_space(c: char) -> bool {
    c == ' ' || c == '\t' || c == '\n' || c == '\r'
}

/// The text behind leading white space.
pub open spec fn ws(s: Seq<char>) -> Seq<char>
    decreases s.len(),
{
    if s.len() > 0 && is_space(s[0]) {
        ws(s.skip(1))
    } else {
        s
    }
}

/// The value of a hexadecimal digit.
pub open spec fn hex_digit(c: char) -> Option<nat> {
    if '0' <= c <= '9' {
        Some((c as int - 48) as nat)
    } else if 'a' <= c <= 'f' {
        Some((c as int - 87) as nat)
    } else if 'A' <= c <= 'F' {
        Some((c as int - 55) as nat)
    } else {
        None
    }
}

/// The number that hexadecimal digits denote.
pub open spec fn hex_value(s: Seq<char>) -> Option<nat>
    decreases s.len(),
{
    if s.len() == 0 {
        Some(0)
    } else {
        match (hex_value(s.drop_last()), hex_digit(s.last())) {
            (Some(a), Some(b)) => Some(16 * a + b),
            _ => None,
        }
    }
}

/// The four-digit number at the front; a plus sign may stand for the first digit.
pub open spec fn hex4_of(s: Seq<char>) -> Parsed<nat> {
    if encode_utf8(s).len() < 4 {
        Err(Fault::Plain("truncated \\u"@))
    } else if s.len() < 4 {
        Err(Fault::Plain("bad \\u"@))
    } else {
        let d = if s[0] == '+' {
            s.subrange(1, 4)
        } else {
            s.take(4)
        };
        match hex_value(d) {
            Some(v) => Ok((v, s.skip(4))),
            None => Err(Fault::Plain("bad \\u"@)),
        }
    }
}

/// The character of a code, or the replacement character.
pub open spec fn char_of(code: nat) -> char {
    if code < 0xD800 || 0xE000 <= code <= 0x10FFFF {
        code as char
    } else {
        '\u{fffd}'
    }
}

/// The character of a Unicode escape behind its `u`: a high surrogate joins with the escape that
/// follows it.
pub open spec fn unicode_of(s: Seq<char>) -> Parsed<char> {
    match hex4_of(s) {
        Err(e) => Err(e),
        Ok((cp, r)) => if 0xD800 <= cp < 0xDC00 && r.len() >= 2 && r[0] == '\\' && r[1] == 'u' {
            match hex4_of(r.skip(2)) {
                Err(e) => Err(e),
                Ok((lo, t)) => Ok((char_of((0x2400 + (cp - 0xD800) * 1024 + lo) as nat), t)),
            }
        } else {
            Ok((char_of(cp), r))
        },
    }
}

/// What a one-letter escape stands for.
pub open spec fn simple_escape(c: char) -> Option<char> {
    if c == '"' || c == '\\' || c == '/' {
        Some(c)
    } else if c == 'b' {
        Some('\u{8}')
    } else if c == 'f' {
        Some('\u{c}')
    } else if c == 'n' {
        Some('\n')
    } else if c == 'r' {
        Some('\r')
    } else if c == 't' {
        Some('\t')
    } else {
        None
    }
}

/// `r` with `head` in front of its item.
pub open spec fn front<T>(head: Seq<T>, r: Parsed<Seq<T>>) -> Parsed<Seq<T>> {
    match r {
        Err(e) => Err(e),
        Ok((s, t)) => Ok((head + s, t)),
    }
}

/// The rest of a string behind its opening quote.
pub open spec fn body_of(s: Seq<char>) -> Parsed<Seq<char>>
    decreases s.len(),
{
    if s.len() == 0 {
        Err(Fault::Plain("unterminated string"@))
    } else if s[0] == '"' {
        Ok((Seq::empty(), s.skip(1)))
    } else if s[0] == '\\' {
        if s.len() == 1 {
            Err(Fault::Plain("truncated escape"@))
        } else if s[1] == 'u' {
            match unicode_of(s.skip(2)) {
                Err(e) => Err(e),
                Ok((c, t)) => if t.len() < s.len() {
                    front(seq![c], body_of(t))
                } else {
                    Err(Fault::Plain("unterminated string"@))
                },
            }
        } else {
            match simple_escape(s[1]) {
                Some(c) => front(seq![c], body_of(s.skip(2))),
                None => Err(Fault::Plain("bad escape"@)),
            }
        }
    } else {
        front(seq![s[0]], body_of(s.skip(1)))
    }
}

pub open spec fn string_of(s: Seq<char>) -> Parsed<Seq<char>> {
    if s.len() == 0 || s[0] != '"' {
        Err(Fault::Plain("expected string"@))
    } else {
        body_of(s.skip(1))
    }
}

pub open spec fn is_number_char(c: char) -> bool {
    c == '-' || c == '+' || c == '.' || c == 'e' || c == 'E' || '0' <= c <= '9'
}

/// The length of the number at the front.
pub open spec fn number_len(s: Seq<char>) -> nat
    decreases s.len(),
{
    if s.len() > 0 && is_number_char(s[0]) {
        1 + number_len(s.skip(1))
    } else {
        0
    }
}

pub open spec fn number_of(s: Seq<char>) -> Parsed<JV> {
    let n = number_len(s) as int;
    match number::decimal_of(s.take(n)) {
        Some(v) => Ok((JV::Num(number::double_of(v)), s.skip(n))),
        None => Err(Fault::At("bad number at byte "@, s)),
    }
}

pub open spec fn literal_of(s: Seq<char>, word: Seq<char>, v: JV) -> Parsed<JV> {
    if text::starts_with(s, word) {
        Ok((v, s.skip(word.len() as int)))
    } else {
        Err(Fault::At("bad literal at byte "@, s))
    }
}

/// A value, behind white space.
pub open spec fn value_of(s: Seq<char>) -> Parsed<JV>
    decreases s.len(), 1int,
{
    let t = ws(s);
    if t.len() == 0 || t.len() > s.len() {
        Err(Fault::Plain("unexpected end of input"@))
    } else if t[0] == '{' {
        let u = ws(t.skip(1));
        if u.len() > 0 && u[0] == '}' {
            Ok((JV::Obj(Seq::empty()), u.skip(1)))
        } else if u.len() < s.len() {
            match members_of(u) {
                Err(e) => Err(e),
                Ok((m, r)) => Ok((JV::Obj(m), r)),
            }
        } else {
            Err(Fault::Plain("unexpected end of input"@))
        }
    } else if t[0] == '[' {
        let u = ws(t.skip(1));
        if u.len() > 0 && u[0] == ']' {
            Ok((JV::Arr(Seq::empty()), u.skip(1)))
        } else if u.len() < s.len() {
            match items_of(u) {
                Err(e) => Err(e),
                Ok((m, r)) => Ok((JV::Arr(m), r)),
            }
        } else {
            Err(Fault::Plain("unexpected end of input"@))
        }
    } else if t[0] == '"' {
        match string_of(t) {
            Err(e) => Err(e),
            Ok((x, r)) => Ok((JV::Str(x), r)),
        }
    } else if t[0] == 't' {
        literal_of(t, "true"@, JV::Bool(true))
    } else if t[0] == 'f' {
        literal_of(t, "false"@, JV::Bool(false))
    } else if t[0] == 'n' {
        literal_of(t, "null"@, JV::Null)
    } else {
        number_of(t)
    }
}

/// The items of an array up to its closing bracket; there is at least one.
pub open spec fn items_of(s: Seq<char>) -> Parsed<Seq<JV>>
    decreases s.len(), 2int,
{
    match value_of(s) {
        Err(e) => Err(e),
        Ok((v, r)) => {
            let t = ws(r);
            if t.len() > 0 && t[0] == ',' && t.len() <= s.len() {
                front(seq![v], items_of(t.skip(1)))
            } else if t.len() > 0 && t[0] == ']' {
                Ok((seq![v], t.skip(1)))
            } else {
                Err(Fault::Plain("expected , or ] in array"@))
            }
        },
    }
}

/// The members of an object up to its closing brace; there is at least one.
pub open spec fn members_of(s: Seq<char>) -> Parsed<Seq<(Seq<char>, JV)>>
    decreases s.len(), 2int,
{
    match string_of(ws(s)) {
        Err(e) => Err(e),
        Ok((k, r1)) => {
            let r2 = ws(r1);
            if r2.len() == 0 || r2[0] != ':' || r2.len() > s.len() {
                Err(Fault::Plain("expected : in object"@))
            } else {
                match value_of(r2.skip(1)) {
                    Err(e) => Err(e),
                    Ok((v, r)) => {
                        let t = ws(r);
                        if t.len() > 0 && t[0] == ',' && t.len() <= s.len() {
                            front(seq![(k, v)], members_of(t.skip(1)))
                        } else if t.len() > 0 && t[0] == '}' {
                            Ok((seq![(k, v)], t.skip(1)))
                        } else {
                            Err(Fault::Plain("expected , or } in object"@))
                        }
                    },
                }
            }
        },
    }
}

/// The bytes in front of the text `rest` that ends `all`.
pub open spec fn offset_of(all: Seq<char>, rest: Seq<char>) -> nat {
    encode_utf8(all.take(all.len() - rest.len())).len()
}

/// The message of a fault in `all`.
pub open spec fn fault_text(e: Fault, all: Seq<char>) -> Seq<char> {
    match e {
        Fault::Plain(m) => m,
        Fault::At(m, rest) => m + text::decimal(offset_of(all, rest)),
    }
}

/// The value that a whole text denotes, or the message of its fault.
pub open spec fn parsed(s: Seq<char>) -> Result<JV, Seq<char>> {
    match value_of(s) {
        Err(e) => Err(fault_text(e, s)),
        Ok((v, r)) => {
            let t = ws(r);
            if t.len() > 0 {
                Err(fault_text(Fault::At("trailing data at byte "@, t), s))
            } else {
                Ok(v)
            }
        },
    }
}

// ---- the parser -------------------------------------------------------------------------

/// A fault: a message, and the place whose byte offset completes it.
enum Bad {
    Plain(String),
    At(String, usize),
}

impl Bad {
    spec fn of(self, cs: Seq<char>) -> Fault {
        match self {
            Bad::Plain(m) => Fault::Plain(m@),
            Bad::At(m, p) => Fault::At(m@, cs.skip(p as int)),
        }
    }

    spec fn within(self, cs: Seq<char>) -> bool {
        self matches Bad::At(_, p) ==> p <= cs.len()
    }
}

/// What a parsing function returned, as an outcome of the grammar.
spec fn outcome<T, V>(r: Result<(T, usize), Bad>, cs: Seq<char>, view: spec_fn(T) -> V) -> Parsed<
    V,
> {
    match r {
        Ok((v, q)) => Ok((view(v), cs.skip(q as int))),
        Err(e) => Err(e.of(cs)),
    }
}

spec fn in_text<T>(r: Result<(T, usize), Bad>, cs: Seq<char>, p: int) -> bool {
    match r {
        Ok((_, q)) => p < q <= cs.len(),
        Err(e) => e.within(cs),
    }
}

fn plain<T>(m: &str) -> (r: Result<T, Bad>)
    ensures
        r matches Err(Bad::Plain(x)) && x@ == m@,
{
    Err(Bad::Plain(m.to_owned()))
}

fn skip_ws(cs: &Vec<char>, p: usize) -> (r: usize)
    requires
        p <= cs@.len(),
    ensures
        p <= r <= cs@.len(),
        ws(cs@.skip(p as int)) == cs@.skip(r as int),
{
    let n: usize = cs.len();
    let mut i: usize = p;
    while i < n && (cs[i] == ' ' || cs[i] == '\t' || cs[i] == '\n' || cs[i] == '\r')
        invariant
            p <= i <= n,
            n == cs@.len(),
            ws(cs@.skip(p as int)) == ws(cs@.skip(i as int)),
        decreases n - i,
    {
        assert(cs@.skip(i as int).skip(1) =~= cs@.skip(i + 1));
        i += 1;
    }
    i
}

fn hex_digit_of(c: char) -> (r: Option<u32>)
    ensures
        match r {
            Some(d) => d < 16 && hex_digit(c) == Some(d as nat),
            None => hex_digit(c) is None,
        },
{
    let x: u32 = c as u32;
    if '0' <= c && c <= '9' {
        Some(x - 48)
    } else if 'a' <= c && c <= 'f' {
        Some(x - 87)
    } else if 'A' <= c && c <= 'F' {
        Some(x - 55)
    } else {
        None
    }
}

/// Text has at least as many bytes as characters.
pub proof fn lemma_bytes(s: Seq<char>)
    ensures
        encode_utf8(s).len() >= s.len(),
    decreases s.len(),
{
    if s.len() > 0 {
        lemma_bytes(s.drop_first());
    }
}

fn hex4(cs: &Vec<char>, p: usize) -> (r: Result<(u32, usize), Bad>)
    requires
        p <= cs@.len(),
    ensures
        outcome(r, cs@, |v: u32| v as nat) == hex4_of(cs@.skip(p as int)),
        in_text(r, cs@, p as int),
        r matches Ok((v, q)) ==> v <= 0xFFFF,
{
    let n: usize = cs.len();
    let ghost s = cs@.skip(p as int);
    if n - p < 4 {
        let rest: String = text::string_of(slice_subrange(cs.as_slice(), p, n));
        assert(cs@.subrange(p as int, n as int) =~= s);
        if rest.as_str().as_bytes().len() < 4 {
            return plain("truncated \\u");
        }
        return plain("bad \\u");
    }
    proof {
        lemma_bytes(s);
    }
    let start: usize = if cs[p] == '+' {
        p + 1
    } else {
        p
    };
    let end: usize = p + 4;
    let mut v: u32 = 0;
    let mut i: usize = start;
    let ghost d = cs@.subrange(start as int, p + 4);
    assert(s[0] == '+' ==> s.subrange(1, 4) =~= d);
    assert(s[0] != '+' ==> s.take(4) =~= d);
    assert(d.take(0) =~= Seq::<char>::empty());
    while i < end
        invariant
            start <= i <= end,
            end == p + 4,
            p <= start <= p + 1,
            end <= cs@.len(),
            s == cs@.skip(p as int),
            hex4_of(s) == (match hex_value(d) {
                Some(v) => Ok((v, s.skip(4))),
                None => Err(Fault::Plain("bad \\u"@)),
            }),
            d == cs@.subrange(start as int, p + 4),
            hex_value(d.take(i - start)) == Some(v as nat),
            v < 1 || i > start,
            i == start ==> v == 0,
            i == start + 1 ==> v < 16,
            i == start + 2 ==> v < 256,
            i == start + 3 ==> v < 4096,
            i == start + 4 ==> v < 65536,
        decreases end - i,
    {
        proof {
            let now = d.take(i - start + 1);
            assert(now.drop_last() =~= d.take(i - start));
            assert(now.last() == cs@[i as int]);
        }
        match hex_digit_of(cs[i]) {
            Some(x) => {
                v = v * 16 + x;
            },
            None => {
                proof {
                    lemma_hex_none(d, i - start + 1);
                }
                return plain("bad \\u");
            },
        }
        i += 1;
    }
    assert(d.take(i - start) =~= d);
    assert(s.skip(4) =~= cs@.skip(p + 4));
    Ok((v, p + 4))
}

proof fn lemma_hex_none(d: Seq<char>, k: int)
    requires
        0 <= k <= d.len(),
        hex_value(d.take(k)) is None,
    ensures
        hex_value(d) is None,
    decreases d.len() - k,
{
    if k < d.len() {
        assert(d.take(k + 1).drop_last() =~= d.take(k));
        lemma_hex_none(d, k + 1);
    } else {
        assert(d.take(k) =~= d);
    }
}

fn char_at(code: u32) -> (r: char)
    ensures
        r == char_of(code as nat),
{
    match char::from_u32(code) {
        Some(c) => {
            proof {
                char_is_scalar(c);
            }
            c
        },
        None => '\u{fffd}',
    }
}

fn unicode(cs: &Vec<char>, p: usize) -> (r: Result<(char, usize), Bad>)
    requires
        p <= cs@.len(),
    ensures
        outcome(r, cs@, |c: char| c) == unicode_of(cs@.skip(p as int)),
        in_text(r, cs@, p as int),
{
    let n: usize = cs.len();
    let (cp, q): (u32, usize) = match hex4(cs, p) {
        Ok(x) => x,
        Err(e) => {
            return Err(e);
        },
    };
    let ghost rest = cs@.skip(q as int);
    if 0xD800 <= cp && cp < 0xDC00 && n - q >= 2 && cs[q] == '\\' && cs[q + 1] == 'u' {
        assert(rest.skip(2) =~= cs@.skip(q + 2));
        match hex4(cs, q + 2) {
            Ok((lo, t)) => Ok((char_at(0x2400 + (cp - 0xD800) * 1024 + lo), t)),
            Err(e) => Err(e),
        }
    } else {
        Ok((char_at(cp), q))
    }
}

fn simple(c: char) -> (r: Option<char>)
    ensures
        r == simple_escape(c),
{
    if c == '"' || c == '\\' || c == '/' {
        Some(c)
    } else if c == 'b' {
        Some('\u{8}')
    } else if c == 'f' {
        Some('\u{c}')
    } else if c == 'n' {
        Some('\n')
    } else if c == 'r' {
        Some('\r')
    } else if c == 't' {
        Some('\t')
    } else {
        None
    }
}

proof fn lemma_front<T>(head: Seq<T>, x: T, r: Parsed<Seq<T>>)
    ensures
        front(head, front(seq![x], r)) == front(head.push(x), r),
{
    if let Ok((s, t)) = r {
        assert(head + (seq![x] + s) =~= head.push(x) + s);
    }
}

fn parse_str(cs: &Vec<char>, p: usize) -> (r: Result<(String, usize), Bad>)
    requires
        p <= cs@.len(),
    ensures
        outcome(r, cs@, |s: String| s@) == string_of(cs@.skip(p as int)),
        in_text(r, cs@, p as int),
{
    let n: usize = cs.len();
    if p >= n || cs[p] != '"' {
        return plain("expected string");
    }
    let mut i: usize = p + 1;
    let mut out: String = "".to_owned();
    let ghost whole = body_of(cs@.skip(p + 1));
    assert(cs@.skip(p as int).skip(1) =~= cs@.skip(p + 1));
    proof {
        reveal_strlit("");
        assert(out@ =~= Seq::<char>::empty());
        if let Ok((s, t)) = whole {
            assert(out@ + s =~= s);
        }
        assert(front(out@, whole) == whole);
    }
    while i < n
        invariant
            p < i <= n,
            n == cs@.len(),
            p < n,
            cs@[p as int] == '"',
            string_of(cs@.skip(p as int)) == whole,
            front(out@, body_of(cs@.skip(i as int))) == whole,
        decreases n - i,
    {
        let c: char = cs[i];
        let ghost s = cs@.skip(i as int);
        let ghost before = out@;
        assert(s.skip(1) =~= cs@.skip(i + 1));
        if c == '"' {
            assert(out@ + Seq::<char>::empty() =~= out@);
            return Ok((out, i + 1));
        }
        if c == '\\' {
            if i + 1 >= n {
                return plain("truncated escape");
            }
            let e: char = cs[i + 1];
            assert(s.skip(2) =~= cs@.skip(i + 2));
            if e == 'u' {
                match unicode(cs, i + 2) {
                    Ok((x, q)) => {
                        out.push(x);
                        proof {
                            lemma_front(before, x, body_of(cs@.skip(q as int)));
                        }
                        i = q;
                    },
                    Err(b) => {
                        return Err(b);
                    },
                }
            } else {
                match simple(e) {
                    Some(x) => {
                        out.push(x);
                        proof {
                            lemma_front(before, x, body_of(cs@.skip(i + 2)));
                        }
                        i = i + 2;
                    },
                    None => {
                        return plain("bad escape");
                    },
                }
            }
        } else {
            out.push(c);
            proof {
                lemma_front(before, c, body_of(cs@.skip(i + 1)));
            }
            i = i + 1;
        }
    }
    plain("unterminated string")
}

fn parse_num(cs: &Vec<char>, p: usize) -> (r: Result<(J, usize), Bad>)
    requires
        p <= cs@.len(),
    ensures
        outcome(r, cs@, |v: J| v@) == number_of(cs@.skip(p as int)),
        in_text(r, cs@, p as int),
{
    let n: usize = cs.len();
    let mut i: usize = p;
    let ghost s = cs@.skip(p as int);
    while i < n && (cs[i] == '-' || cs[i] == '+' || cs[i] == '.' || cs[i] == 'e' || cs[i] == 'E'
        || '0' <= cs[i] && cs[i] <= '9')
        invariant
            p <= i <= n,
            n == cs@.len(),
            number_len(cs@.skip(p as int)) == i - p + number_len(cs@.skip(i as int)),
        decreases n - i,
    {
        assert(cs@.skip(i as int).skip(1) =~= cs@.skip(i + 1));
        i += 1;
    }
    assert(s.take(i - p) =~= cs@.subrange(p as int, i as int));
    assert(s.skip(i - p) =~= cs@.skip(i as int));
    match number::read_double(slice_subrange(cs.as_slice(), p, i)) {
        Some(v) => {
            assert(i > p) by {
                if i == p {
                    assert(s.take(0) =~= Seq::<char>::empty());
                }
            }
            Ok((J::Num(v), i))
        },
        None => Err(Bad::At("bad number at byte ".to_owned(), p)),
    }
}

fn lit(cs: &Vec<char>, p: usize, word: &str, v: J) -> (r: Result<(J, usize), Bad>)
    requires
        p <= cs@.len(),
        word@.len() > 0,
    ensures
        outcome(r, cs@, |v: J| v@) == literal_of(cs@.skip(p as int), word@, v@),
        in_text(r, cs@, p as int),
{
    let w: Vec<char> = text::chars_of(word);
    let ghost s = cs@.skip(p as int);
    let mut k: usize = 0;
    let n: usize = cs.len();
    while k < w.len()
        invariant
            k <= w@.len(),
            w@ == word@,
            n == cs@.len(),
            p + k <= n,
            s == cs@.skip(p as int),
            forall|j: int| 0 <= j < k ==> s[j] == w@[j],
        decreases w@.len() - k,
    {
        if p + k >= n || cs[p + k] != w[k] {
            proof {
                if text::starts_with(s, word@) {
                    assert(s.take(word@.len() as int)[k as int] == word@[k as int]);
                }
            }
            return Err(Bad::At("bad literal at byte ".to_owned(), p));
        }
        k += 1;
    }
    assert(s.take(word@.len() as int) =~= word@);
    assert(s.skip(word@.len() as int) =~= cs@.skip(p + k));
    Ok((v, p + k))
}

fn parse_value(cs: &Vec<char>, p: usize) -> (r: Result<(J, usize), Bad>)
    requires
        p <= cs@.len(),
    ensures
        outcome(r, cs@, |v: J| v@) == value_of(cs@.skip(p as int)),
        in_text(r, cs@, p as int),
    decreases cs@.len() - p, 1int,
{
    let n: usize = cs.len();
    let i: usize = skip_ws(cs, p);
    let ghost t = cs@.skip(i as int);
    if i >= n {
        return plain("unexpected end of input");
    }
    let c: char = cs[i];
    assert(t.skip(1) =~= cs@.skip(i + 1));
    if c == '{' {
        parse_obj(cs, i, Ghost(p as int))
    } else if c == '[' {
        parse_arr(cs, i, Ghost(p as int))
    } else if c == '"' {
        match parse_str(cs, i) {
            Ok((s, q)) => Ok((J::Str(s), q)),
            Err(e) => Err(e),
        }
    } else if c == 't' {
        proof {
            reveal_strlit("true");
        }
        lit(cs, i, "true", J::Bool(true))
    } else if c == 'f' {
        proof {
            reveal_strlit("false");
        }
        lit(cs, i, "false", J::Bool(false))
    } else if c == 'n' {
        proof {
            reveal_strlit("null");
        }
        lit(cs, i, "null", J::Null)
    } else {
        parse_num(cs, i)
    }
}

fn parse_arr(cs: &Vec<char>, p: usize, Ghost(from): Ghost<int>) -> (r: Result<(J, usize), Bad>)
    requires
        0 <= from <= p < cs@.len(),
        cs@[p as int] == '[',
        ws(cs@.skip(from)) == cs@.skip(p as int),
    ensures
        outcome(r, cs@, |v: J| v@) == value_of(cs@.skip(from)),
        in_text(r, cs@, p as int),
    decreases cs@.len() - from, 0int,
{
    let n: usize = cs.len();
    let ghost whole = value_of(cs@.skip(from));
    assert(cs@.skip(p as int).skip(1) =~= cs@.skip(p + 1));
    let start: usize = skip_ws(cs, p + 1);
    let mut items: Vec<J> = Vec::new();
    if start < n && cs[start] == ']' {
        proof {
            lemma_arr_view(items);
            assert(items_view(items@) =~= Seq::<JV>::empty());
            assert(cs@.skip(start as int).skip(1) =~= cs@.skip(start + 1));
        }
        return Ok((J::Arr(items), start + 1));
    }
    let ghost all = items_of(cs@.skip(start as int));
    let mut i: usize = start;
    proof {
        assert(items_view(items@) =~= Seq::<JV>::empty());
        if let Ok((s, t)) = all {
            assert(items_view(items@) + s =~= s);
        }
    }
    loop
        invariant
            0 <= from <= p < start <= i <= n,
            n == cs@.len(),
            whole == value_of(cs@.skip(from)),
            whole == (match all {
                Err(e) => Err(e),
                Ok((m, r)) => Ok((JV::Arr(m), r)),
            }),
            front(items_view(items@), items_of(cs@.skip(i as int))) == all,
        decreases n - i,
    {
        let ghost before = items_view(items@);
        let (v, q): (J, usize) = match parse_value(cs, i) {
            Ok(x) => x,
            Err(e) => {
                return Err(e);
            },
        };
        let j: usize = skip_ws(cs, q);
        items.push(v);
        proof {
            assert(items_view(items@) =~= before.push(v@));
        }
        if j < n && cs[j] == ',' {
            proof {
                assert(cs@.skip(j as int).skip(1) =~= cs@.skip(j + 1));
                lemma_front(before, v@, items_of(cs@.skip(j + 1)));
            }
            i = j + 1;
        } else if j < n && cs[j] == ']' {
            proof {
                assert(cs@.skip(j as int).skip(1) =~= cs@.skip(j + 1));
                assert(before + seq![v@] =~= before.push(v@));
                lemma_arr_view(items);
            }
            return Ok((J::Arr(items), j + 1));
        } else {
            return plain("expected , or ] in array");
        }
    }
}

fn parse_obj(cs: &Vec<char>, p: usize, Ghost(from): Ghost<int>) -> (r: Result<(J, usize), Bad>)
    requires
        0 <= from <= p < cs@.len(),
        cs@[p as int] == '{',
        ws(cs@.skip(from)) == cs@.skip(p as int),
    ensures
        outcome(r, cs@, |v: J| v@) == value_of(cs@.skip(from)),
        in_text(r, cs@, p as int),
    decreases cs@.len() - from, 0int,
{
    let n: usize = cs.len();
    let ghost whole = value_of(cs@.skip(from));
    assert(cs@.skip(p as int).skip(1) =~= cs@.skip(p + 1));
    let start: usize = skip_ws(cs, p + 1);
    let mut pairs: Vec<(String, J)> = Vec::new();
    if start < n && cs[start] == '}' {
        proof {
            lemma_obj_view(pairs);
            assert(pairs_view(pairs@) =~= Seq::<(Seq<char>, JV)>::empty());
            assert(cs@.skip(start as int).skip(1) =~= cs@.skip(start + 1));
        }
        return Ok((J::Obj(pairs), start + 1));
    }
    let ghost all = members_of(cs@.skip(start as int));
    let mut i: usize = start;
    proof {
        assert(pairs_view(pairs@) =~= Seq::<(Seq<char>, JV)>::empty());
        if let Ok((s, t)) = all {
            assert(pairs_view(pairs@) + s =~= s);
        }
    }
    loop
        invariant
            0 <= from <= p < start <= i <= n,
            n == cs@.len(),
            whole == value_of(cs@.skip(from)),
            whole == (match all {
                Err(e) => Err(e),
                Ok((m, r)) => Ok((JV::Obj(m), r)),
            }),
            front(pairs_view(pairs@), members_of(cs@.skip(i as int))) == all,
        decreases n - i,
    {
        let ghost before = pairs_view(pairs@);
        let a: usize = skip_ws(cs, i);
        let (k, q1): (String, usize) = match parse_str(cs, a) {
            Ok(x) => x,
            Err(e) => {
                return Err(e);
            },
        };
        let q2: usize = skip_ws(cs, q1);
        if q2 >= n || cs[q2] != ':' {
            return plain("expected : in object");
        }
        assert(cs@.skip(q2 as int).skip(1) =~= cs@.skip(q2 + 1));
        let (v, q): (J, usize) = match parse_value(cs, q2 + 1) {
            Ok(x) => x,
            Err(e) => {
                return Err(e);
            },
        };
        let ghost pair = (k@, v@);
        let j: usize = skip_ws(cs, q);
        pairs.push((k, v));
        proof {
            assert(pairs_view(pairs@) =~= before.push(pair));
        }
        if j < n && cs[j] == ',' {
            proof {
                assert(cs@.skip(j as int).skip(1) =~= cs@.skip(j + 1));
                lemma_front(before, pair, members_of(cs@.skip(j + 1)));
            }
            i = j + 1;
        } else if j < n && cs[j] == '}' {
            proof {
                assert(cs@.skip(j as int).skip(1) =~= cs@.skip(j + 1));
                assert(before + seq![pair] =~= before.push(pair));
                lemma_obj_view(pairs);
            }
            return Ok((J::Obj(pairs), j + 1));
        } else {
            return plain("expected , or } in object");
        }
    }
}

fn fault(e: Bad, cs: &Vec<char>) -> (r: String)
    requires
        e.within(cs@),
    ensures
        r@ == fault_text(e.of(cs@), cs@),
{
    match e {
        Bad::Plain(m) => m,
        Bad::At(m, p) => {
            let head: String = text::string_of(slice_subrange(cs.as_slice(), 0, p));
            let at: usize = head.as_str().as_bytes().len();
            assert(cs@.subrange(0, p as int) =~= cs@.take(cs@.len() - cs@.skip(p as int).len()));
            let mut out: String = m;
            text::push_decimal(&mut out, at as u64);
            out
        },
    }
}

impl J {
    /// Parses a whole text.
    pub fn parse(s: &str) -> (r: Result<J, String>)
        ensures
            match r {
                Ok(v) => parsed(s@) == Ok::<JV, Seq<char>>(v@),
                Err(m) => parsed(s@) == Err::<JV, Seq<char>>(m@),
            },
    {
        let cs: Vec<char> = text::chars_of(s);
        assert(cs@.skip(0) =~= s@);
        match parse_value(&cs, 0) {
            Ok((v, q)) => {
                let i: usize = skip_ws(&cs, q);
                if i != cs.len() {
                    return Err(fault(Bad::At("trailing data at byte ".to_owned(), i), &cs));
                }
                Ok(v)
            },
            Err(e) => Err(fault(e, &cs)),
        }
    }
}

// ---- access -------------------------------------------------------------------------------

/// The first member under a key.
pub open spec fn member(pairs: Seq<(Seq<char>, JV)>, key: Seq<char>) -> Option<JV>
    decreases pairs.len(),
{
    if pairs.len() == 0 {
        None
    } else if pairs[0].0 == key {
        Some(pairs[0].1)
    } else {
        member(pairs.skip(1), key)
    }
}

/// The member that is found is the first under its key, and none is found only if none is there.
pub proof fn law_first_member_is_found(pairs: Seq<(Seq<char>, JV)>, key: Seq<char>)
    ensures
        match member(pairs, key) {
            Some(x) => exists|i: int|
                0 <= i < pairs.len() && #[trigger] pairs[i] == (key, x) && forall|j: int|
                    0 <= j < i ==> (#[trigger] pairs[j]).0 != key,
            None => forall|j: int| 0 <= j < pairs.len() ==> (#[trigger] pairs[j]).0 != key,
        },
    decreases pairs.len(),
{
    if pairs.len() > 0 {
        if pairs[0].0 == key {
            assert(pairs[0] == (key, pairs[0].1));
        } else {
            let r = pairs.skip(1);
            law_first_member_is_found(r, key);
            match member(r, key) {
                Some(x) => {
                    let i = choose|i: int|
                        0 <= i < r.len() && #[trigger] r[i] == (key, x) && forall|j: int|
                            0 <= j < i ==> (#[trigger] r[j]).0 != key;
                    assert(pairs[i + 1] == (key, x));
                    assert forall|j: int| 0 <= j < i + 1 implies (#[trigger] pairs[j]).0 != key by {
                        if j > 0 {
                            assert(r[j - 1] == pairs[j]);
                        }
                    }
                },
                None => {
                    assert forall|j: int| 0 <= j < pairs.len() implies (
                    #[trigger] pairs[j]).0 != key by {
                        if j > 0 {
                            assert(r[j - 1] == pairs[j]);
                        }
                    }
                },
            }
        }
    }
}

impl JV {
    /// The first member under a key, of an object.
    pub open spec fn get(self, key: Seq<char>) -> Option<JV> {
        match self {
            JV::Obj(pairs) => member(pairs, key),
            _ => None,
        }
    }

    pub open spec fn as_str(self) -> Option<Seq<char>> {
        match self {
            JV::Str(s) => Some(s),
            _ => None,
        }
    }

    pub open spec fn as_num(self) -> Option<u64> {
        match self {
            JV::Num(n) => Some(n),
            _ => None,
        }
    }

    pub open spec fn as_arr(self) -> Option<Seq<JV>> {
        match self {
            JV::Arr(a) => Some(a),
            _ => None,
        }
    }
}

impl J {
    /// The first member under a key, if this is an object that has one.
    pub fn get(&self, key: &str) -> (r: Option<&J>)
        ensures
            match r {
                Some(v) => self@.get(key@) == Some(v@),
                None => self@.get(key@) is None,
            },
    {
        match self {
            J::Obj(pairs) => {
                proof {
                    lemma_obj_view(*pairs);
                }
                let ghost all = pairs_view(pairs@);
                let n: usize = pairs.len();
                let mut i: usize = 0;
                assert(all.skip(0) =~= all);
                while i < n
                    invariant
                        i <= n,
                        n == pairs@.len(),
                        all == pairs_view(pairs@),
                        self@ == JV::Obj(all),
                        member(all, key@) == member(all.skip(i as int), key@),
                    decreases n - i,
                {
                    assert(all.skip(i as int).skip(1) =~= all.skip(i + 1));
                    if text::same(pairs[i].0.as_str(), key) {
                        return Some(&pairs[i].1);
                    }
                    i += 1;
                }
                None
            },
            _ => None,
        }
    }

    pub fn as_str(&self) -> (r: Option<&str>)
        ensures
            match r {
                Some(s) => self@.as_str() == Some(s@),
                None => self@.as_str() is None,
            },
    {
        match self {
            J::Str(s) => Some(s.as_str()),
            _ => None,
        }
    }

    /// The pattern of the number.
    pub fn as_f64(&self) -> (r: Option<u64>)
        ensures
            r == self@.as_num(),
    {
        match self {
            J::Num(n) => Some(*n),
            _ => None,
        }
    }

    /// The number cut to an integer.
    pub fn as_i64(&self) -> (r: Option<i64>)
        ensures
            match r {
                Some(i) => self@.as_num() matches Some(n) && i == number::truncated(n),
                None => self@.as_num() is None,
            },
    {
        match self {
            J::Num(n) => Some(number::truncate(*n)),
            _ => None,
        }
    }

    pub fn as_bool(&self) -> (r: Option<bool>)
        ensures
            match r {
                Some(b) => self@ == JV::Bool(b),
                None => !(self@ is Bool),
            },
    {
        match self {
            J::Bool(b) => Some(*b),
            _ => None,
        }
    }

    pub fn as_arr(&self) -> (r: Option<&Vec<J>>)
        ensures
            match r {
                Some(a) => self@.as_arr() == Some(items_view(a@)),
                None => self@.as_arr() is None,
            },
    {
        match self {
            J::Arr(a) => {
                proof {
                    lemma_arr_view(*a);
                }
                Some(a)
            },
            _ => None,
        }
    }
}

// ---- writing --------------------------------------------------------------------------------

/// The lower-case hexadecimal digit of `d`.
pub open spec fn hex_char(d: nat) -> char {
    if d < 10 {
        (48 + d) as u8 as char
    } else {
        (87 + d) as u8 as char
    }
}

/// A character as it stands inside quotes.
pub open spec fn escaped_char(c: char) -> Seq<char> {
    if c == '"' {
        seq!['\\', '"']
    } else if c == '\\' {
        seq!['\\', '\\']
    } else if c == '\n' {
        seq!['\\', 'n']
    } else if c == '\r' {
        seq!['\\', 'r']
    } else if c == '\t' {
        seq!['\\', 't']
    } else if c == '\u{8}' {
        seq!['\\', 'b']
    } else if c == '\u{c}' {
        seq!['\\', 'f']
    } else if (c as int) < 0x20 {
        seq![
            '\\',
            'u',
            '0',
            '0',
            hex_char((c as int / 16) as nat),
            hex_char((c as int % 16) as nat),
        ]
    } else {
        seq![c]
    }
}

/// A text as it stands inside quotes.
pub open spec fn escaped(s: Seq<char>) -> Seq<char>
    decreases s.len(),
{
    if s.len() == 0 {
        Seq::empty()
    } else {
        escaped_char(s[0]) + escaped(s.skip(1))
    }
}

fn hex_char_of(d: u32) -> (r: char)
    requires
        d < 16,
    ensures
        r == hex_char(d as nat),
{
    let x: u8 = if d < 10 {
        48 + d as u8
    } else {
        87 + d as u8
    };
    x as char
}

fn push_escaped(out: &mut String, c: char)
    ensures
        final(out)@ == old(out)@ + escaped_char(c),
{
    if c == '"' || c == '\\' {
        out.push('\\');
        out.push(c);
    } else if c == '\n' {
        out.push('\\');
        out.push('n');
    } else if c == '\r' {
        out.push('\\');
        out.push('r');
    } else if c == '\t' {
        out.push('\\');
        out.push('t');
    } else if c == '\u{8}' {
        out.push('\\');
        out.push('b');
    } else if c == '\u{c}' {
        out.push('\\');
        out.push('f');
    } else if (c as u32) < 0x20 {
        let x: u32 = c as u32;
        out.push('\\');
        out.push('u');
        out.push('0');
        out.push('0');
        out.push(hex_char_of(x / 16));
        out.push(hex_char_of(x % 16));
    } else {
        out.push(c);
    }
    assert(out@ =~= old(out)@ + escaped_char(c));
}

/// A text as it stands inside quotes.
pub fn escape(s: &str) -> (r: String)
    ensures
        r@ == escaped(s@),
{
    let cs: Vec<char> = text::chars_of(s);
    let n: usize = cs.len();
    let mut out: String = "".to_owned();
    let mut i: usize = 0;
    proof {
        reveal_strlit("");
        assert(cs@.skip(0) =~= s@);
        assert(out@ + escaped(s@) =~= escaped(s@));
    }
    while i < n
        invariant
            i <= n,
            n == cs@.len(),
            out@ + escaped(cs@.skip(i as int)) == escaped(s@),
        decreases n - i,
    {
        let ghost before = out@;
        let ghost rest = cs@.skip(i as int);
        push_escaped(&mut out, cs[i]);
        proof {
            assert(rest.skip(1) =~= cs@.skip(i + 1));
            assert(before + (escaped_char(rest[0]) + escaped(rest.skip(1))) =~= out@ + escaped(
                cs@.skip(i + 1),
            ));
        }
        i += 1;
    }
    assert(cs@.skip(i as int) =~= Seq::<char>::empty());
    assert(out@ + Seq::<char>::empty() =~= out@);
    out
}

pub open spec fn quoted(s: Seq<char>) -> Seq<char> {
    seq!['"'] + escaped(s) + seq!['"']
}

pub open spec fn comma(k: int) -> Seq<char> {
    if k > 0 {
        seq![',']
    } else {
        Seq::empty()
    }
}

/// The compact text of a value; members and items keep their order.
pub open spec fn text_of(v: JV) -> Seq<char>
    decreases v, 0int,
{
    match v {
        JV::Null => "null"@,
        JV::Bool(b) => if b {
            "true"@
        } else {
            "false"@
        },
        JV::Num(n) => shortest::double_text(n),
        JV::Str(s) => quoted(s),
        JV::Arr(items) => seq!['['] + items_text(items, 0) + seq![']'],
        JV::Obj(pairs) => seq!['{'] + members_text(pairs, 0) + seq!['}'],
    }
}

/// The items from the `k`-th on, behind a comma unless they are the first.
pub open spec fn items_text(s: Seq<JV>, k: int) -> Seq<char>
    decreases s, s.len() - k,
{
    if k < 0 || k >= s.len() {
        Seq::empty()
    } else {
        comma(k) + text_of(s[k]) + items_text(s, k + 1)
    }
}

/// The members from the `k`-th on, behind a comma unless they are the first.
pub open spec fn members_text(s: Seq<(Seq<char>, JV)>, k: int) -> Seq<char>
    decreases s, s.len() - k,
{
    if k < 0 || k >= s.len() {
        Seq::empty()
    } else {
        comma(k) + quoted(s[k].0) + seq![':'] + text_of(s[k].1) + members_text(s, k + 1)
    }
}

fn push_quoted(out: &mut String, s: &str)
    ensures
        final(out)@ == old(out)@ + quoted(s@),
{
    out.push('"');
    let e: String = escape(s);
    out.append(e.as_str());
    out.push('"');
    assert(out@ =~= old(out)@ + quoted(s@));
}

/// Appends the compact text of a value.
fn write_json(v: &J, out: &mut String)
    ensures
        final(out)@ == old(out)@ + text_of(v@),
    decreases v,
{
    let ghost start = out@;
    match v {
        J::Null => {
            out.append("null");
        },
        J::Bool(b) => {
            if *b {
                out.append("true");
            } else {
                out.append("false");
            }
        },
        J::Num(n) => {
            shortest::push_double(out, *n);
        },
        J::Str(s) => {
            push_quoted(out, s.as_str());
        },
        J::Arr(items) => {
            proof {
                lemma_arr_view(*items);
            }
            let ghost all = items_view(items@);
            out.push('[');
            let n: usize = items.len();
            let mut i: usize = 0;
            assert(start + seq!['['] =~= out@);
            while i < n
                invariant
                    i <= n,
                    n == items@.len(),
                    all == items_view(items@),
                    v matches J::Arr(x) && items == x,
                    out@ + items_text(all, i as int) == start + seq!['['] + items_text(all, 0),
                decreases n - i,
            {
                let ghost before = out@;
                if i > 0 {
                    out.push(',');
                }
                assert(out@ =~= before + comma(i as int));
                write_json(&items[i], out);
                proof {
                    assert(all[i as int] == items@[i as int]@);
                    assert(before + (comma(i as int) + text_of(all[i as int]) + items_text(
                        all,
                        i + 1,
                    )) =~= out@ + items_text(all, i + 1));
                }
                i += 1;
            }
            assert(out@ + items_text(all, i as int) =~= out@);
            out.push(']');
            assert(out@ =~= start + (seq!['['] + items_text(all, 0) + seq![']']));
        },
        J::Obj(pairs) => {
            proof {
                lemma_obj_view(*pairs);
            }
            let ghost all = pairs_view(pairs@);
            out.push('{');
            let n: usize = pairs.len();
            let mut i: usize = 0;
            assert(start + seq!['{'] =~= out@);
            while i < n
                invariant
                    i <= n,
                    n == pairs@.len(),
                    all == pairs_view(pairs@),
                    v matches J::Obj(x) && pairs == x,
                    out@ + members_text(all, i as int) == start + seq!['{'] + members_text(all, 0),
                decreases n - i,
            {
                let ghost before = out@;
                if i > 0 {
                    out.push(',');
                }
                assert(out@ =~= before + comma(i as int));
                push_quoted(out, pairs[i].0.as_str());
                out.push(':');
                write_json(&pairs[i].1, out);
                proof {
                    assert(all[i as int] == (pairs@[i as int].0@, pairs@[i as int].1@));
                    assert(before + (comma(i as int) + quoted(all[i as int].0) + seq![':']
                        + text_of(all[i as int].1) + members_text(all, i + 1)) =~= out@
                        + members_text(all, i + 1));
                }
                i += 1;
            }
            assert(out@ + members_text(all, i as int) =~= out@);
            out.push('}');
            assert(out@ =~= start + (seq!['{'] + members_text(all, 0) + seq!['}']));
        },
    }
}

/// The compact text of a value.
pub fn to_json(v: &J) -> (r: String)
    ensures
        r@ == text_of(v@),
{
    let mut out: String = "".to_owned();
    write_json(v, &mut out);
    proof {
        reveal_strlit("");
        assert(""@ + text_of(v@) =~= text_of(v@));
    }
    out
}

// ---- reading back ---------------------------------------------------------------------------

/// Every number in the value is finite, and none is negative zero.
pub open spec fn finite(v: JV) -> bool
    decreases v,
{
    match v {
        JV::Num(n) => n < number::INFINITE || number::SIGN < n < number::SIGN + number::INFINITE,
        JV::Arr(items) => forall|i: int| 0 <= i < items.len() ==> finite(#[trigger] items[i]),
        JV::Obj(pairs) => forall|i: int| 0 <= i < pairs.len() ==> finite((#[trigger] pairs[i]).1),
        _ => true,
    }
}

proof fn lemma_hex_char(d: nat)
    requires
        d < 16,
    ensures
        hex_digit(hex_char(d)) == Some(d),
{
}

/// An escaped text in quotes reads back.
proof fn lemma_body(s: Seq<char>, rest: Seq<char>)
    ensures
        body_of(escaped(s) + seq!['"'] + rest) == Ok::<(Seq<char>, Seq<char>), Fault>((s, rest)),
    decreases s.len(),
{
    let all = escaped(s) + seq!['"'] + rest;
    if s.len() == 0 {
        assert(all.skip(1) =~= rest);
        assert(s =~= Seq::<char>::empty());
    } else {
        let c = s[0];
        let u = s.skip(1);
        let tail = escaped(u) + seq!['"'] + rest;
        lemma_body(u, rest);
        let e = escaped_char(c);
        assert(all =~= e + tail);
        assert(seq![c] + u =~= s);
        if e.len() == 1 {
            assert(all.skip(1) =~= tail);
        } else if e.len() == 2 {
            assert(all[0] == '\\');
            assert(all[1] == e[1]);
            assert(all.skip(2) =~= tail);
            assert(simple_escape(all[1]) == Some(c));
        } else {
            let t = all.skip(2);
            assert(t =~= control_digits(c) + tail);
            lemma_control(c, tail);
        }
    }
}

spec fn control_digits(c: char) -> Seq<char> {
    seq!['0', '0', hex_char((c as int / 16) as nat), hex_char((c as int % 16) as nat)]
}

/// The escape of a control character reads back.
proof fn lemma_control(c: char, tail: Seq<char>)
    requires
        (c as int) < 0x20,
    ensures
        unicode_of(control_digits(c) + tail) == Ok::<(char, Seq<char>), Fault>((c, tail)),
{
    let code = c as int;
    let hi = (code / 16) as nat;
    let lo = (code % 16) as nat;
    assert(0 <= code);
    let t = control_digits(c) + tail;
    lemma_bytes(t);
    let d = t.take(4);
    assert(d =~= control_digits(c));
    lemma_hex_char(hi);
    lemma_hex_char(lo);
    let d3 = d.drop_last();
    let d2 = d3.drop_last();
    let d1 = d2.drop_last();
    assert(d1.drop_last() =~= Seq::<char>::empty());
    assert(hex_value(d1.drop_last()) == Some(0nat));
    assert(hex_value(d1) == Some(0nat));
    assert(hex_value(d2) == Some(0nat));
    assert(hex_value(d3) == Some(hi));
    assert(hex_value(d) == Some((16 * hi + lo) as nat));
    assert(16 * hi + lo == code);
    assert(t.skip(4) =~= tail);
}

proof fn lemma_number_len(t: Seq<char>, rest: Seq<char>)
    requires
        forall|i: int| 0 <= i < t.len() ==> is_number_char(#[trigger] t[i]),
        rest.len() > 0 ==> !is_number_char(rest[0]),
    ensures
        number_len(t + rest) == t.len(),
    decreases t.len(),
{
    let s = t + rest;
    if t.len() > 0 {
        assert(is_number_char(t[0]));
        let u = t.skip(1);
        assert forall|i: int| 0 <= i < u.len() implies is_number_char(#[trigger] u[i]) by {
            assert(u[i] == t[i + 1]);
        }
        lemma_number_len(u, rest);
        assert(s.skip(1) =~= u + rest);
    } else {
        assert(s =~= rest);
    }
}

/// The text of a finite value reads back as that value, whatever follows it that is no part of
/// a number.
proof fn lemma_value(v: JV, rest: Seq<char>)
    requires
        finite(v),
        rest.len() > 0 ==> !is_number_char(rest[0]),
    ensures
        value_of(text_of(v) + rest) == Ok::<(JV, Seq<char>), Fault>((v, rest)),
        text_of(v).len() > 0,
        !is_space(text_of(v)[0]),
        text_of(v)[0] != ']',
    decreases v, 0int, 0int,
{
    let s = text_of(v) + rest;
    match v {
        JV::Null => {
            reveal_strlit("null");
            assert(s.take(4) =~= "null"@);
            assert(s.skip(4) =~= rest);
        },
        JV::Bool(b) => {
            if b {
                reveal_strlit("true");
                assert(s.take(4) =~= "true"@);
                assert(s.skip(4) =~= rest);
            } else {
                reveal_strlit("false");
                assert(s.take(5) =~= "false"@);
                assert(s.skip(5) =~= rest);
            }
        },
        JV::Num(n) => {
            lemma_num(n, rest);
            lemma_value_front(v);
        },
        JV::Str(x) => {
            lemma_body(x, rest);
            assert(s[0] == '"');
            assert(s.skip(1) =~= escaped(x) + seq!['"'] + rest);
        },
        JV::Arr(items) => {
            lemma_arr(items, rest);
        },
        JV::Obj(pairs) => {
            lemma_obj(pairs, rest);
        },
    }
}

proof fn lemma_arr(items: Seq<JV>, rest: Seq<char>)
    requires
        forall|i: int| 0 <= i < items.len() ==> finite(#[trigger] items[i]),
    ensures
        value_of(text_of(JV::Arr(items)) + rest) == Ok::<(JV, Seq<char>), Fault>(
            (JV::Arr(items), rest),
        ),
    decreases items, items.len(), 2int,
{
    let s = text_of(JV::Arr(items)) + rest;
    let u = s.skip(1);
    assert(s[0] == '[');
    assert(u =~= items_text(items, 0) + seq![']'] + rest);
    if items.len() == 0 {
        assert(items =~= Seq::<JV>::empty());
        assert(u[0] == ']');
        assert(u.skip(1) =~= rest);
    } else {
        lemma_items(items, 0, rest);
        assert(comma(0) + text_of(items[0]) + items_text(items, 1) =~= text_of(items[0])
            + items_text(items, 1));
        assert(items.skip(0) =~= items);
        assert(finite(items[0]));
        lemma_value_front(items[0]);
        assert(u[0] == text_of(items[0])[0]);
        assert(ws(u) == u);
    }
}

proof fn lemma_obj(pairs: Seq<(Seq<char>, JV)>, rest: Seq<char>)
    requires
        forall|i: int| 0 <= i < pairs.len() ==> finite((#[trigger] pairs[i]).1),
    ensures
        value_of(text_of(JV::Obj(pairs)) + rest) == Ok::<(JV, Seq<char>), Fault>(
            (JV::Obj(pairs), rest),
        ),
    decreases pairs, pairs.len(), 2int,
{
    let s = text_of(JV::Obj(pairs)) + rest;
    let u = s.skip(1);
    assert(s[0] == '{');
    assert(u =~= members_text(pairs, 0) + seq!['}'] + rest);
    if pairs.len() == 0 {
        assert(pairs =~= Seq::<(Seq<char>, JV)>::empty());
        assert(u[0] == '}');
        assert(u.skip(1) =~= rest);
    } else {
        lemma_members(pairs, 0, rest);
        assert(pairs.skip(0) =~= pairs);
        let w = quoted(pairs[0].0) + seq![':'] + text_of(pairs[0].1) + members_text(pairs, 1);
        assert(members_text(pairs, 0) =~= w);
        assert(w[0] == '"');
        assert(u[0] == '"');
        assert(ws(u) == u);
    }
}

/// A number's text reads back.
proof fn lemma_num(n: u64, rest: Seq<char>)
    requires
        finite(JV::Num(n)),
        rest.len() > 0 ==> !is_number_char(rest[0]),
    ensures
        value_of(text_of(JV::Num(n)) + rest) == Ok::<(JV, Seq<char>), Fault>((JV::Num(n), rest)),
{
    let t = shortest::double_text(n);
    let s = t + rest;
    shortest::law_double_text_reads_back(n);
    shortest::lemma_double_text_shape(n);
    assert forall|i: int| 0 <= i < t.len() implies is_number_char(#[trigger] t[i]) by {}
    lemma_number_len(t, rest);
    assert(s.take(t.len() as int) =~= t);
    assert(s.skip(t.len() as int) =~= rest);
    assert(s[0] == t[0]);
    assert(ws(s) == s);
}

/// How a value's text begins.
proof fn lemma_value_front(v: JV)
    requires
        finite(v),
    ensures
        text_of(v).len() > 0,
        !is_space(text_of(v)[0]),
        text_of(v)[0] != ']',
{
    match v {
        JV::Null => {
            reveal_strlit("null");
        },
        JV::Bool(b) => {
            reveal_strlit("true");
            reveal_strlit("false");
        },
        JV::Num(n) => {
            shortest::lemma_double_text_shape(n);
        },
        _ => {},
    }
}

/// The items from the `k`-th on read back.
proof fn lemma_items(s: Seq<JV>, k: int, rest: Seq<char>)
    requires
        0 <= k < s.len(),
        forall|i: int| 0 <= i < s.len() ==> finite(#[trigger] s[i]),
    ensures
        items_of(text_of(s[k]) + items_text(s, k + 1) + seq![']'] + rest) == Ok::<
            (Seq<JV>, Seq<char>),
            Fault,
        >((s.skip(k), rest)),
    decreases s, s.len() - k, 1int,
{
    let end = seq![']'] + rest;
    let after = items_text(s, k + 1) + end;
    let all = text_of(s[k]) + items_text(s, k + 1) + seq![']'] + rest;
    assert(all =~= text_of(s[k]) + after);
    assert(finite(s[k]));
    if k + 1 < s.len() {
        let next = text_of(s[k + 1]) + items_text(s, k + 2) + seq![']'] + rest;
        assert(after =~= seq![','] + next);
        lemma_value(s[k], after);
        lemma_items(s, k + 1, rest);
        assert(after.skip(1) =~= next);
        assert(ws(after) == after);
        assert(seq![s[k]] + s.skip(k + 1) =~= s.skip(k));
    } else {
        assert(after =~= end);
        lemma_value(s[k], after);
        assert(ws(after) == after);
        assert(after.skip(1) =~= rest);
        assert(s.skip(k) =~= seq![s[k]]);
    }
}

/// A key and its colon read back.
proof fn lemma_key(key: Seq<char>, tail: Seq<char>)
    ensures
        ({
            let colon = seq![':'] + tail;
            let all = quoted(key) + colon;
            &&& string_of(ws(all)) == Ok::<(Seq<char>, Seq<char>), Fault>((key, colon))
            &&& ws(colon) == colon
            &&& colon.skip(1) == tail
            &&& colon.len() < all.len()
        }),
{
    let colon = seq![':'] + tail;
    let all = quoted(key) + colon;
    assert(all[0] == '"');
    assert(ws(all) == all);
    assert(all.skip(1) =~= escaped(key) + seq!['"'] + colon);
    lemma_body(key, colon);
    assert(ws(colon) == colon);
    assert(colon.skip(1) =~= tail);
}

/// The members from the `k`-th on read back.
#[verifier::rlimit(40)]
proof fn lemma_members(s: Seq<(Seq<char>, JV)>, k: int, rest: Seq<char>)
    requires
        0 <= k < s.len(),
        forall|i: int| 0 <= i < s.len() ==> finite((#[trigger] s[i]).1),
    ensures
        members_of(
            quoted(s[k].0) + seq![':'] + text_of(s[k].1) + members_text(s, k + 1) + seq!['}']
                + rest,
        ) == Ok::<(Seq<(Seq<char>, JV)>, Seq<char>), Fault>((s.skip(k), rest)),
    decreases s, s.len() - k, 1int,
{
    let key = s[k].0;
    let v = s[k].1;
    let end = seq!['}'] + rest;
    let after = members_text(s, k + 1) + end;
    let tail = text_of(v) + after;
    let colon = seq![':'] + tail;
    let all = quoted(key) + seq![':'] + text_of(v) + members_text(s, k + 1) + seq!['}'] + rest;
    assert(all =~= quoted(key) + colon);
    lemma_key(key, tail);
    assert(finite(s[k].1));
    if k + 1 < s.len() {
        let next = quoted(s[k + 1].0) + seq![':'] + text_of(s[k + 1].1) + members_text(s, k + 2)
            + seq!['}'] + rest;
        assert(after =~= seq![','] + next);
        lemma_value(v, after);
        lemma_members(s, k + 1, rest);
        assert(after.skip(1) =~= next);
        assert(ws(after) == after);
        assert(seq![(key, v)] + s.skip(k + 1) =~= s.skip(k));
    } else {
        assert(after =~= end);
        lemma_value(v, after);
        assert(ws(after) == after);
        assert(after.skip(1) =~= rest);
        assert(s.skip(k) =~= seq![(key, v)]);
    }
}

/// What the text of a value keeps of it: a number that is not finite becomes null, and negative
/// zero becomes zero; everything else stays.
pub open spec fn kept(v: JV) -> JV
    decreases v,
{
    match v {
        JV::Num(n) => {
            let m = if n >= number::SIGN {
                n - number::SIGN
            } else {
                n as int
            };
            if m >= number::INFINITE {
                JV::Null
            } else if m == 0 {
                JV::Num(0)
            } else {
                v
            }
        },
        JV::Arr(items) => JV::Arr(
            Seq::new(
                items.len(),
                |i: int|
                    if 0 <= i < items.len() {
                        kept(items[i])
                    } else {
                        arbitrary()
                    },
            ),
        ),
        JV::Obj(pairs) => JV::Obj(
            Seq::new(
                pairs.len(),
                |i: int|
                    if 0 <= i < pairs.len() {
                        (pairs[i].0, kept(pairs[i].1))
                    } else {
                        arbitrary()
                    },
            ),
        ),
        _ => v,
    }
}

proof fn lemma_same_items(a: Seq<JV>, b: Seq<JV>, k: int)
    requires
        a.len() == b.len(),
        forall|i: int| 0 <= i < a.len() ==> text_of(#[trigger] a[i]) == text_of(b[i]),
    ensures
        items_text(a, k) == items_text(b, k),
    decreases a.len() - k,
{
    if 0 <= k < a.len() {
        assert(text_of(a[k]) == text_of(b[k]));
        lemma_same_items(a, b, k + 1);
    }
}

proof fn lemma_same_members(a: Seq<(Seq<char>, JV)>, b: Seq<(Seq<char>, JV)>, k: int)
    requires
        a.len() == b.len(),
        forall|i: int|
            0 <= i < a.len() ==> (#[trigger] a[i]).0 == b[i].0 && text_of(a[i].1) == text_of(b[i].1),
    ensures
        members_text(a, k) == members_text(b, k),
    decreases a.len() - k,
{
    if 0 <= k < a.len() {
        assert(a[k].0 == b[k].0 && text_of(a[k].1) == text_of(b[k].1));
        lemma_same_members(a, b, k + 1);
    }
}

/// What the text of a value keeps has that text, and is finite.
pub proof fn lemma_kept(v: JV)
    ensures
        finite(kept(v)),
        text_of(kept(v)) == text_of(v),
        finite(v) ==> kept(v) == v,
    decreases v,
{
    match v {
        JV::Num(n) => {},
        JV::Arr(items) => {
            let k = kept(v)->Arr_0;
            assert forall|i: int| 0 <= i < items.len() implies finite(#[trigger] k[i]) && text_of(
                k[i],
            ) == text_of(items[i]) && (finite(items[i]) ==> k[i] == items[i]) by {
                lemma_kept(items[i]);
            }
            lemma_same_items(k, items, 0);
            if finite(v) {
                assert(k =~= items);
            }
        },
        JV::Obj(pairs) => {
            let k = kept(v)->Obj_0;
            assert forall|i: int| 0 <= i < pairs.len() implies finite((#[trigger] k[i]).1)
                && k[i].0 == pairs[i].0 && text_of(k[i].1) == text_of(pairs[i].1) && (finite(
                pairs[i].1,
            ) ==> k[i] == pairs[i]) by {
                lemma_kept(pairs[i].1);
            }
            lemma_same_members(k, pairs, 0);
            if finite(v) {
                assert(k =~= pairs);
            }
        },
        _ => {},
    }
}

/// Parsing undoes serializing: the compact text of a value reads back as what it keeps of the
/// value. That is the value itself, as long as its numbers are finite and none is negative zero;
/// negative zero reads back as zero, and a number that is not finite as null.
pub proof fn law_parse_undoes_to_json(v: JV)
    ensures
        parsed(text_of(v)) == Ok::<JV, Seq<char>>(kept(v)),
        finite(v) ==> kept(v) == v,
{
    let none = Seq::<char>::empty();
    let k = kept(v);
    lemma_kept(v);
    lemma_value(k, none);
    assert(text_of(k) + none =~= text_of(k));
    assert(ws(none) == none);
}

/// A value's text neither begins nor ends with a newline.
pub proof fn lemma_value_edges(v: JV)
    requires
        finite(v),
    ensures
        text_of(v).len() > 0,
        text_of(v)[0] != '\n',
        text_of(v).last() != '\n',
{
    let t = text_of(v);
    lemma_value_front(v);
    match v {
        JV::Null => {
            reveal_strlit("null");
        },
        JV::Bool(b) => {
            reveal_strlit("true");
            reveal_strlit("false");
        },
        JV::Num(n) => {
            shortest::lemma_double_text_shape(n);
            let i = t.len() - 1;
            assert(text::is_digit(t[i]) || t[i] == '.' || t[i] == '-');
        },
        _ => {},
    }
}

/// An escaped text, put in quotes, parses back as the text.
pub proof fn law_escape_reads_back(s: Seq<char>)
    ensures
        parsed(quoted(s)) == Ok::<JV, Seq<char>>(JV::Str(s)),
{
    law_parse_undoes_to_json(JV::Str(s));
}

} // verus!
