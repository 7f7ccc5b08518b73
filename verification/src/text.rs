//! Small text helpers: equality, concatenation and decimal rendering.

use vstd::prelude::*;
use vstd::string::*;
use vstd::utf8::*;

verus! {

/// `String::push` appends one character at the end.
pub assume_specification[ String::push ](s: &mut String, c: char)
    ensures
        final(s)@ == old(s)@.push(c),
;

/// The decimal digit character of `d`.
pub open spec fn digit(d: nat) -> char {
    (48 + d) as u8 as char
}

/// The decimal rendering of `n`, without leading zeros.
pub open spec fn decimal(n: nat) -> Seq<char>
    decreases n,
{
    if n < 10 {
        seq![digit(n)]
    } else {
        decimal(n / 10).push(digit(n % 10))
    }
}

/// Appends the decimal rendering of `n` to `out`.
pub fn push_decimal(out: &mut String, n: u64)
    ensures
        final(out)@ == old(out)@ + decimal(n as nat),
    decreases n,
{
    if n >= 10 {
        push_decimal(out, n / 10);
    }
    let d: u8 = 48 + (n % 10) as u8;
    out.push(d as char);
    proof {
        assert(d as char == digit((n % 10) as nat));
        if n >= 10 {
            assert(decimal(n as nat) == decimal((n / 10) as nat).push(digit((n % 10) as nat)));
        }
    }
}

/// Two strings are equal exactly when their characters are.
pub fn same(a: &str, b: &str) -> (r: bool)
    ensures
        r == (a@ == b@),
{
    let x: &[u8] = a.as_bytes();
    let y: &[u8] = b.as_bytes();
    proof {
        encode_utf8_decode_utf8(a@);
        encode_utf8_decode_utf8(b@);
    }
    if x.len() != y.len() {
        return false;
    }
    let mut i: usize = 0;
    while i < x.len()
        invariant
            x.len() == y.len(),
            i <= x.len(),
            x@ == a.spec_bytes(),
            y@ == b.spec_bytes(),
            forall|j: int| 0 <= j < i ==> x@[j] == y@[j],
        decreases x.len() - i,
    {
        if x[i] != y[i] {
            return false;
        }
        i += 1;
    }
    assert(x@ =~= y@);
    true
}

/// The characters of a string as a vector.
pub fn chars_of(s: &str) -> (r: Vec<char>)
    ensures
        r@ == s@,
{
    let mut out: Vec<char> = Vec::new();
    for c in it: s.chars()
        invariant
            out@ == s@.take(it.index()),
            it.seq() == s@,
    {
        out.push(c);
        assert(s@.take(it.index() + 1) == s@.take(it.index()).push(s@[it.index()]));
    }
    assert(s@.take(s@.len() as int) == s@);
    out
}

/// The string made of the given characters.
pub fn string_of(cs: &[char]) -> (r: String)
    ensures
        r@ == cs@,
{
    let mut out = String::new();
    let mut i: usize = 0;
    while i < cs.len()
        invariant
            i <= cs.len(),
            out@ == cs@.take(i as int),
        decreases cs.len() - i,
    {
        out.push(cs[i]);
        i += 1;
        assert(cs@.take(i as int) == cs@.take(i - 1).push(cs@[i - 1]));
    }
    assert(cs@.take(cs@.len() as int) == cs@);
    out
}

/// `s` begins with `prefix`.
pub open spec fn starts_with(s: Seq<char>, prefix: Seq<char>) -> bool {
    prefix.len() <= s.len() && s.take(prefix.len() as int) == prefix
}

/// What follows `prefix` at the start of `s`.
pub fn strip_prefix(s: &str, prefix: &str) -> (r: Option<String>)
    ensures
        match r {
            Some(rest) => starts_with(s@, prefix@) && rest@ == s@.skip(prefix@.len() as int),
            None => !starts_with(s@, prefix@),
        },
{
    let a: Vec<char> = chars_of(s);
    let b: Vec<char> = chars_of(prefix);
    if b.len() > a.len() {
        return None;
    }
    let mut i: usize = 0;
    while i < b.len()
        invariant
            i <= b@.len() <= a@.len(),
            a@ == s@,
            b@ == prefix@,
            a@.take(i as int) == b@.take(i as int),
        decreases b@.len() - i,
    {
        if a[i] != b[i] {
            proof {
                assert(a@.take(b@.len() as int)[i as int] == a@[i as int]);
            }
            return None;
        }
        i += 1;
        assert(a@.take(i as int) =~= a@.take(i - 1).push(a@[i - 1]));
        assert(b@.take(i as int) =~= b@.take(i - 1).push(b@[i - 1]));
    }
    assert(b@.take(i as int) =~= b@);
    let mut rest = String::new();
    while i < a.len()
        invariant
            b@.len() <= i <= a@.len(),
            rest@ == a@.subrange(b@.len() as int, i as int),
        decreases a@.len() - i,
    {
        rest.push(a[i]);
        i += 1;
        assert(rest@ =~= a@.subrange(b@.len() as int, i as int));
    }
    assert(rest@ =~= s@.skip(prefix@.len() as int));
    Some(rest)
}

/// Two strings, one behind the other.
pub fn concat(a: &str, b: &str) -> (r: String)
    ensures
        r@ == a@ + b@,
{
    let mut out = a.to_owned();
    out.append(b);
    out
}

/// Byte-wise lexicographic order.
pub open spec fn lex_lt(a: Seq<u8>, b: Seq<u8>) -> bool
    decreases a.len(),
{
    if b.len() == 0 {
        false
    } else if a.len() == 0 {
        true
    } else if a[0] != b[0] {
        a[0] < b[0]
    } else {
        lex_lt(a.skip(1), b.skip(1))
    }
}

/// The order in which strings sort.
pub open spec fn str_lt(a: Seq<char>, b: Seq<char>) -> bool {
    lex_lt(encode_utf8(a), encode_utf8(b))
}

pub proof fn lemma_lex_transitive(a: Seq<u8>, b: Seq<u8>, c: Seq<u8>)
    requires
        lex_lt(a, b),
        lex_lt(b, c),
    ensures
        lex_lt(a, c),
    decreases a.len(),
{
    if a.len() > 0 && a[0] == b[0] && b[0] == c[0] {
        lemma_lex_transitive(a.skip(1), b.skip(1), c.skip(1));
    }
}

pub proof fn lemma_lex_irreflexive(a: Seq<u8>)
    ensures
        !lex_lt(a, a),
    decreases a.len(),
{
    if a.len() > 0 {
        lemma_lex_irreflexive(a.skip(1));
    }
}

pub proof fn lemma_lex_total(a: Seq<u8>, b: Seq<u8>)
    ensures
        lex_lt(a, b) || lex_lt(b, a) || a == b,
    decreases a.len(),
{
    if a.len() > 0 && b.len() > 0 && a[0] == b[0] {
        lemma_lex_total(a.skip(1), b.skip(1));
        if a.skip(1) == b.skip(1) {
            assert(a =~= seq![a[0]] + a.skip(1));
            assert(b =~= seq![b[0]] + b.skip(1));
        }
    } else if a.len() == 0 && b.len() == 0 {
        assert(a =~= b);
    }
}

/// The order of strings is a strict total order.
pub proof fn lemma_str_order(a: Seq<char>, b: Seq<char>, c: Seq<char>)
    ensures
        !str_lt(a, a),
        str_lt(a, b) || str_lt(b, a) || a == b,
        str_lt(a, b) && str_lt(b, c) ==> str_lt(a, c),
{
    lemma_lex_irreflexive(encode_utf8(a));
    lemma_lex_total(encode_utf8(a), encode_utf8(b));
    encode_utf8_decode_utf8(a);
    encode_utf8_decode_utf8(b);
    if str_lt(a, b) && str_lt(b, c) {
        lemma_lex_transitive(encode_utf8(a), encode_utf8(b), encode_utf8(c));
    }
}

/// Whether `a` sorts before `b`.
pub fn before(a: &str, b: &str) -> (r: bool)
    ensures
        r == str_lt(a@, b@),
{
    let x: &[u8] = a.as_bytes();
    let y: &[u8] = b.as_bytes();
    let mut i: usize = 0;
    assert(x@.skip(0) =~= x@);
    assert(y@.skip(0) =~= y@);
    while i < x.len() && i < y.len()
        invariant
            i <= x@.len(),
            i <= y@.len(),
            x@ == encode_utf8(a@),
            y@ == encode_utf8(b@),
            lex_lt(x@, y@) == lex_lt(x@.skip(i as int), y@.skip(i as int)),
        decreases x@.len() - i,
    {
        assert(x@.skip(i as int).skip(1) =~= x@.skip(i + 1));
        assert(y@.skip(i as int).skip(1) =~= y@.skip(i + 1));
        if x[i] != y[i] {
            return x[i] < y[i];
        }
        i += 1;
    }
    i < y.len()
}

/// The character has Unicode's property `White_Space`.
pub open spec fn char_is_whitespace(c: char) -> bool {
    let u = c as u32;
    ||| 0x9 <= u <= 0xd
    ||| u == 0x20
    ||| u == 0x85
    ||| u == 0xa0
    ||| u == 0x1680
    ||| 0x2000 <= u <= 0x200a
    ||| u == 0x2028
    ||| u == 0x2029
    ||| u == 0x202f
    ||| u == 0x205f
    ||| u == 0x3000
}

/// `char::is_whitespace` tells the characters with the property `White_Space` of Unicode's
/// character database, which are those listed.
pub assume_specification[ char::is_whitespace ](c: char) -> (r: bool)
    ensures
        r == char_is_whitespace(c),
;

/// `s` without the white space at its start.
pub open spec fn trimmed_start(s: Seq<char>) -> Seq<char>
    decreases s.len(),
{
    if s.len() > 0 && char_is_whitespace(s[0]) {
        trimmed_start(s.skip(1))
    } else {
        s
    }
}

/// `s` without the white space at its end.
pub open spec fn trimmed_end(s: Seq<char>) -> Seq<char>
    decreases s.len(),
{
    if s.len() > 0 && char_is_whitespace(s.last()) {
        trimmed_end(s.drop_last())
    } else {
        s
    }
}

/// `s` without the white space at either end.
pub open spec fn trimmed(s: Seq<char>) -> Seq<char> {
    trimmed_end(trimmed_start(s))
}

/// `t` is what stands in `s` from `a` to `b`; around it there is nothing but white space, and it
/// neither begins nor ends with any.
pub open spec fn trims_at(s: Seq<char>, t: Seq<char>, a: int, b: int) -> bool {
    &&& 0 <= a <= b <= s.len()
    &&& t == s.subrange(a, b)
    &&& forall|i: int| 0 <= i < a ==> char_is_whitespace(#[trigger] s[i])
    &&& forall|i: int| b <= i < s.len() ==> char_is_whitespace(#[trigger] s[i])
    &&& t.len() > 0 ==> !char_is_whitespace(t[0]) && !char_is_whitespace(t.last())
}

/// `t` is `s` without the white space around it.
pub open spec fn trims(s: Seq<char>, t: Seq<char>) -> bool {
    exists|a: int, b: int| #[trigger] trims_at(s, t, a, b)
}

proof fn lemma_trimmed_start(s: Seq<char>) -> (a: int)
    ensures
        0 <= a <= s.len(),
        trimmed_start(s) == s.skip(a),
        forall|i: int| 0 <= i < a ==> char_is_whitespace(#[trigger] s[i]),
        a < s.len() ==> !char_is_whitespace(s[a]),
    decreases s.len(),
{
    if s.len() > 0 && char_is_whitespace(s[0]) {
        let r = s.skip(1);
        let a = lemma_trimmed_start(r);
        assert(r.skip(a) =~= s.skip(a + 1));
        assert forall|i: int| 0 <= i < a + 1 implies char_is_whitespace(#[trigger] s[i]) by {
            if i > 0 {
                assert(r[i - 1] == s[i]);
            }
        }
        if a < r.len() {
            assert(r[a] == s[a + 1]);
        }
        a + 1
    } else {
        assert(s.skip(0) =~= s);
        0
    }
}

proof fn lemma_trimmed_end(s: Seq<char>) -> (b: int)
    ensures
        0 <= b <= s.len(),
        trimmed_end(s) == s.take(b),
        forall|i: int| b <= i < s.len() ==> char_is_whitespace(#[trigger] s[i]),
        b > 0 ==> !char_is_whitespace(s[b - 1]),
    decreases s.len(),
{
    if s.len() > 0 && char_is_whitespace(s.last()) {
        let r = s.drop_last();
        let b = lemma_trimmed_end(r);
        assert(r.take(b) =~= s.take(b));
        assert forall|i: int| b <= i < s.len() implies char_is_whitespace(#[trigger] s[i]) by {
            if i < r.len() {
                assert(r[i] == s[i]);
            }
        }
        b
    } else {
        assert(s.take(s.len() as int) =~= s);
        s.len() as int
    }
}

/// Trimming takes off the white space on either end, all of it and nothing else.
pub proof fn law_trimmed(s: Seq<char>)
    ensures
        trims(s, trimmed(s)),
        (trimmed(s).len() == 0) == (forall|i: int|
            0 <= i < s.len() ==> char_is_whitespace(#[trigger] s[i])),
{
    let a = lemma_trimmed_start(s);
    let r = s.skip(a);
    let b = lemma_trimmed_end(r);
    let t = trimmed(s);
    assert(t =~= s.subrange(a, a + b));
    assert forall|i: int| a + b <= i < s.len() implies char_is_whitespace(#[trigger] s[i]) by {
        assert(r[i - a] == s[i]);
    }
    if t.len() > 0 {
        assert(t[0] == s[a]);
        assert(t.last() == r[b - 1]);
        assert(!char_is_whitespace(s[a]));
    }
    assert(trims_at(s, t, a, a + b));
}

/// There is one way to trim a text.
pub proof fn law_trims_unique(s: Seq<char>, t: Seq<char>, u: Seq<char>)
    requires
        trims(s, t),
        trims(s, u),
    ensures
        t == u,
{
    let (a, b) = choose|a: int, b: int| #[trigger] trims_at(s, t, a, b);
    let (c, d) = choose|a: int, b: int| #[trigger] trims_at(s, u, a, b);
    if t.len() > 0 {
        assert(t[0] == s[a] && t.last() == s[b - 1]);
        assert(c <= a && b <= d);
    }
    if u.len() > 0 {
        assert(u[0] == s[c] && u.last() == s[d - 1]);
        assert(a <= c && d <= b);
    }
    if t.len() > 0 && u.len() == 0 {
        assert(!char_is_whitespace(s[a]));
    }
    if u.len() > 0 && t.len() == 0 {
        assert(!char_is_whitespace(s[c]));
    }
    assert(t =~= u);
}

/// Takes the white space off either end.
pub fn trim(s: &str) -> (r: String)
    ensures
        r@ == trimmed(s@),
{
    let cs: Vec<char> = chars_of(s);
    let n: usize = cs.len();
    let mut a: usize = 0;
    assert(cs@.skip(0) =~= cs@);
    while a < n && cs[a].is_whitespace()
        invariant
            a <= n,
            n == cs@.len(),
            trimmed_start(cs@) == trimmed_start(cs@.skip(a as int)),
        decreases n - a,
    {
        assert(cs@.skip(a as int).skip(1) =~= cs@.skip(a + 1));
        a += 1;
    }
    let mut b: usize = n;
    assert(cs@.skip(a as int) =~= cs@.subrange(a as int, n as int));
    while a < b && cs[b - 1].is_whitespace()
        invariant
            a <= b <= n,
            n == cs@.len(),
            trimmed_end(cs@.subrange(a as int, n as int)) == trimmed_end(
                cs@.subrange(a as int, b as int),
            ),
        decreases b,
    {
        assert(cs@.subrange(a as int, b as int).drop_last() =~= cs@.subrange(a as int, b - 1));
        b -= 1;
    }
    string_of(vstd::slice::slice_subrange(cs.as_slice(), a, b))
}

pub open spec fn is_digit(c: char) -> bool {
    '0' <= c <= '9'
}

/// The number that decimal digits denote.
pub open spec fn digits_value(s: Seq<char>) -> nat
    decreases s.len(),
{
    if s.len() == 0 {
        0
    } else {
        10 * digits_value(s.drop_last()) + (s.last() as int - 48) as nat
    }
}

/// Digits only, and at least one.
pub open spec fn all_digits(s: Seq<char>) -> bool {
    s.len() > 0 && forall|i: int| 0 <= i < s.len() ==> is_digit(#[trigger] s[i])
}

/// The digits of a number that a plus sign may precede.
pub open spec fn unsigned(s: Seq<char>) -> Seq<char> {
    if s.len() > 0 && s[0] == '+' {
        s.skip(1)
    } else {
        s
    }
}

/// The unsigned number that a text denotes, if it is one and not above `max`.
pub open spec fn number_of(s: Seq<char>, max: nat) -> Option<nat> {
    let d = unsigned(s);
    if all_digits(d) && digits_value(d) <= max {
        Some(digits_value(d))
    } else {
        None
    }
}

proof fn lemma_digits_grow(s: Seq<char>, k: int)
    requires
        0 <= k <= s.len(),
        forall|i: int| 0 <= i < s.len() ==> is_digit(#[trigger] s[i]),
    ensures
        digits_value(s.take(k)) <= digits_value(s),
    decreases s.len(),
{
    if k == s.len() {
        assert(s.take(k) =~= s);
    } else {
        assert(is_digit(s[s.len() - 1]));
        assert(s.drop_last().take(k) =~= s.take(k));
        lemma_digits_grow(s.drop_last(), k);
    }
}

/// Reads an unsigned decimal number no larger than `max`.
pub fn parse_uint(s: &str, max: u64) -> (r: Option<u64>)
    ensures
        match r {
            Some(v) => number_of(s@, max as nat) == Some(v as nat),
            None => number_of(s@, max as nat) is None,
        },
{
    let cs: Vec<char> = chars_of(s);
    let n: usize = cs.len();
    let start: usize = if n > 0 && cs[0] == '+' {
        1
    } else {
        0
    };
    let ghost d = unsigned(s@);
    assert(d =~= cs@.skip(start as int));
    if start == n {
        return None;
    }
    let mut v: u64 = 0;
    let mut i: usize = start;
    assert(d.take(0) =~= Seq::<char>::empty());
    while i < n
        invariant
            start <= i <= n,
            n == cs@.len(),
            d == cs@.skip(start as int),
            d == unsigned(s@),
            v == digits_value(d.take(i - start)),
            v <= max,
            forall|k: int| 0 <= k < i - start ==> is_digit(#[trigger] d[k]),
        decreases n - i,
    {
        let c: char = cs[i];
        assert(d[i - start] == c);
        if !('0' <= c && c <= '9') {
            return None;
        }
        let x: u64 = c as u64 - 48;
        proof {
            assert(d.take(i - start + 1).drop_last() =~= d.take(i - start));
            assert(d.take(i - start + 1).last() == c);
            if all_digits(d) {
                lemma_digits_grow(d, i - start + 1);
            }
        }
        if v > max / 10 || x > max - 10 * v {
            proof {
                assert(10 * v + x > max);
            }
            return None;
        }
        v = 10 * v + x;
        i += 1;
    }
    assert(d.take(n - start) =~= d);
    Some(v)
}

/// The number that a text denotes, with an optional sign, if it is one and lies in `lo..=hi`.
pub open spec fn integer_of(s: Seq<char>, lo: int, hi: nat) -> Option<int> {
    if s.len() > 0 && s[0] == '-' {
        let d = s.skip(1);
        if all_digits(d) && -digits_value(d) >= lo {
            Some(-digits_value(d))
        } else {
            None
        }
    } else {
        match number_of(s, hi) {
            Some(n) => Some(n as int),
            None => None,
        }
    }
}

/// Reads a decimal number that fits an `i32`.
pub fn parse_i32(s: &str) -> (r: Option<i32>)
    ensures
        match r {
            Some(v) => integer_of(s@, i32::MIN as int, i32::MAX as nat) == Some(v as int),
            None => integer_of(s@, i32::MIN as int, i32::MAX as nat) is None,
        },
{
    let cs: Vec<char> = chars_of(s);
    let n: usize = cs.len();
    if n > 0 && cs[0] == '-' {
        if n > 1 && cs[1] == '+' {
            proof {
                assert(s@.skip(1)[0] == '+');
            }
            return None;
        }
        let rest: String = string_of(vstd::slice::slice_subrange(cs.as_slice(), 1, n));
        assert(rest@ =~= s@.skip(1));
        assert(unsigned(rest@) == rest@);
        return match parse_uint(rest.as_str(), 0x8000_0000) {
            Some(v) => Some((-(v as i64)) as i32),
            None => None,
        };
    }
    match parse_uint(s, 0x7FFF_FFFF) {
        Some(v) => Some(v as i32),
        None => None,
    }
}

/// The decimal rendering of a number that may be below zero.
pub open spec fn integer_text(n: int) -> Seq<char> {
    if n < 0 {
        seq!['-'] + decimal((-n) as nat)
    } else {
        decimal(n as nat)
    }
}

/// Appends the decimal rendering of `n` to `out`.
pub fn push_integer(out: &mut String, n: i32)
    ensures
        final(out)@ == old(out)@ + integer_text(n as int),
{
    if n < 0 {
        out.push('-');
        push_decimal(out, (-(n as i64)) as u64);
        assert(out@ =~= old(out)@ + integer_text(n as int));
    } else {
        push_decimal(out, n as u64);
    }
}

// ---- comparing without case -------------------------------------------------------------------

/// A letter of ASCII in lower case; any other character as it is.
pub open spec fn lower(c: char) -> char {
    if 'A' <= c && c <= 'Z' {
        ((c as u32 + 32) as u32) as char
    } else {
        c
    }
}

/// Two texts are the same but for the case of ASCII letters.
pub open spec fn same_but_case(a: Seq<char>, b: Seq<char>) -> bool {
    a.len() == b.len() && forall|i: int| 0 <= i < a.len() ==> lower(#[trigger] a[i]) == lower(b[i])
}

fn to_lower(c: char) -> (r: char)
    ensures
        r == lower(c),
{
    if 'A' <= c && c <= 'Z' {
        ((c as u8) + 32) as char
    } else {
        c
    }
}

/// Compares two texts but for the case of ASCII letters.
pub fn eq_ignore_ascii_case(a: &str, b: &str) -> (r: bool)
    ensures
        r == same_but_case(a@, b@),
{
    let x: Vec<char> = chars_of(a);
    let y: Vec<char> = chars_of(b);
    if x.len() != y.len() {
        return false;
    }
    let mut i: usize = 0;
    while i < x.len()
        invariant
            i <= x@.len(),
            x@ == a@,
            y@ == b@,
            x@.len() == y@.len(),
            forall|k: int| 0 <= k < i ==> lower(#[trigger] a@[k]) == lower(b@[k]),
        decreases x@.len() - i,
    {
        if to_lower(x[i]) != to_lower(y[i]) {
            assert(lower(a@[i as int]) != lower(b@[i as int]));
            return false;
        }
        i += 1;
    }
    true
}

} // verus!
