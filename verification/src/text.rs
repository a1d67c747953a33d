//! ASCII classes, decimal numbers and the bridge between bytes and strings.

use vstd::prelude::*;
use vstd::utf8::*;

verus! {

/// The space.
pub const SPACE: u8 = 32;

/// The horizontal tab.
pub const TAB: u8 = 9;

/// The line feed.
pub const LF: u8 = 10;

/// The form feed.
pub const FF: u8 = 12;

/// The carriage return.
pub const CR: u8 = 13;

/// The sign `+`.
pub const PLUS: u8 = 43;

/// The sign `-`.
pub const HYPHEN: u8 = 45;

/// The sign `:`.
pub const COLON: u8 = 58;

/// The digit `0`.
pub const ZERO: u8 = 48;

/// The digit `9`.
pub const NINE: u8 = 57;

/// The end of a line: carriage return, line feed.
pub open spec fn crlf() -> Seq<u8> {
    seq![CR, LF]
}

/// ASCII whitespace: space, tab, line feed, form feed, carriage return.
pub open spec fn is_space(c: u8) -> bool {
    c == SPACE || c == TAB || c == LF || c == FF || c == CR
}

/// An ASCII decimal digit.
pub open spec fn is_digit(c: u8) -> bool {
    ZERO <= c <= NINE
}

/// An ASCII letter.
pub open spec fn is_letter(c: u8) -> bool {
    (65 <= c <= 90) || (97 <= c <= 122)
}

/// A character that may occur in a name: a digit, a letter, or one of `-+/;.$_()`.
pub open spec fn is_name_char(c: u8) -> bool {
    is_digit(c) || is_letter(c) || c == HYPHEN || c == PLUS || c == 47 || c == 59 || c == 46
        || c == 36
        || c == 95 || c == 40 || c == 41
}

/// Every byte of the sequence is a decimal digit.
pub open spec fn all_digits(d: Seq<u8>) -> bool {
    forall|i: int| 0 <= i < d.len() ==> is_digit(#[trigger] d[i])
}

/// Every byte of the sequence may occur in a name.
pub open spec fn all_name_chars(d: Seq<u8>) -> bool {
    forall|i: int| 0 <= i < d.len() ==> is_name_char(#[trigger] d[i])
}

/// Every byte of the sequence is below 128.
pub open spec fn all_ascii(d: Seq<u8>) -> bool {
    forall|i: int| 0 <= i < d.len() ==> #[trigger] d[i] < 128
}

/// The characters that a sequence of ASCII bytes spells.
pub open spec fn ascii(d: Seq<u8>) -> Seq<char> {
    Seq::new(d.len(), |i: int| d[i] as char)
}

/// The number that a sequence of decimal digits denotes, most significant digit first.
pub open spec fn digits_value(d: Seq<u8>) -> nat
    decreases d.len(),
{
    if d.len() == 0 {
        0
    } else {
        digits_value(d.drop_last()) * 10 + (d.last() - ZERO) as nat
    }
}

/// The decimal digits of a number, without leading zeros.
pub open spec fn decimal(n: nat) -> Seq<u8>
    decreases n,
{
    if n < 10 {
        seq![(ZERO + n) as u8]
    } else {
        decimal(n / 10).push((ZERO + n % 10) as u8)
    }
}

/// The digits of a number are digits, there is at least one, and they denote the number.
pub proof fn lemma_decimal(n: nat)
    ensures
        decimal(n).len() >= 1,
        all_digits(decimal(n)),
        digits_value(decimal(n)) == n,
    decreases n,
{
    if n < 10 {
        let d = decimal(n);
        assert(d.drop_last() =~= Seq::<u8>::empty());
        assert(digits_value(d.drop_last()) == 0);
    } else {
        lemma_decimal(n / 10);
        let d = decimal(n);
        assert(d.drop_last() =~= decimal(n / 10));
    }
}

/// A longer run of digits denotes at least as much as each of its prefixes.
pub proof fn lemma_digits_prefix(d: Seq<u8>, k: int)
    requires
        0 <= k <= d.len(),
        all_digits(d),
    ensures
        digits_value(d.take(k)) <= digits_value(d),
    decreases d.len() - k,
{
    if k == d.len() {
        assert(d.take(k) =~= d);
    } else {
        lemma_digits_prefix(d, k + 1);
        assert(d.take(k + 1).drop_last() =~= d.take(k));
    }
}

/// ASCII bytes are valid UTF-8, and decode to the characters they spell.
pub proof fn lemma_ascii_utf8(d: Seq<u8>)
    requires
        all_ascii(d),
    ensures
        valid_utf8(d),
        decode_utf8(d) == ascii(d),
        encode_utf8(ascii(d)) == d,
        is_ascii_chars(ascii(d)),
{
    let chars = ascii(d);
    assert forall|i: int| 0 <= i < chars.len() implies '\0' <= #[trigger] chars[i]
        <= '\u{7f}' && chars[i] as u8 == d[i] by {
        let b = d[i];
        assert(b < 128);
        assert(b as char as u8 == b);
    }
    is_ascii_chars_encode_utf8(chars);
    assert(encode_utf8(chars) =~= d);
    encode_utf8_valid_utf8(chars);
    encode_utf8_decode_utf8(chars);
}

/// Two strings with the same UTF-8 bytes are the same string.
pub proof fn lemma_utf8_injective(a: Seq<char>, b: Seq<char>)
    requires
        encode_utf8(a) == encode_utf8(b),
    ensures
        a == b,
{
    encode_utf8_decode_utf8(a);
    encode_utf8_decode_utf8(b);
}

/// Appends the decimal digits of `n`.
pub fn push_decimal(n: u64, out: &mut Vec<u8>)
    ensures
        final(out)@ == old(out)@ + decimal(n as nat),
    decreases n,
{
    if n >= 10 {
        push_decimal(n / 10, out);
    }
    let digit: u8 = (n % 10) as u8;
    out.push(ZERO + digit);
    proof {
        if n >= 10 {
            assert(final(out)@ =~= old(out)@ + decimal(n as nat));
        } else {
            assert(final(out)@ =~= old(out)@ + decimal(n as nat));
        }
    }
}

/// The number that a non-empty run of decimal digits denotes, if it fits in 32 bits.
pub fn parse_digits(d: &[u8]) -> (out: Option<u32>)
    ensures
        match out {
            Some(n) => d@.len() > 0 && all_digits(d@) && digits_value(d@) == n,
            None => !(d@.len() > 0 && all_digits(d@) && digits_value(d@) <= u32::MAX),
        },
{
    if d.len() == 0 {
        return None;
    }
    let mut acc: u64 = 0;
    let mut i: usize = 0;
    while i < d.len()
        invariant
            0 <= i <= d@.len(),
            all_digits(d@.take(i as int)),
            acc == digits_value(d@.take(i as int)),
            acc <= u32::MAX,
        decreases d@.len() - i,
    {
        let c: u8 = d[i];
        if c < ZERO || c > NINE {
            return None;
        }
        proof {
            assert(d@.take(i + 1).drop_last() =~= d@.take(i as int));
            assert forall|j: int| 0 <= j < i + 1 implies is_digit(#[trigger] d@.take(i + 1)[j]) by {
                if j < i {
                    assert(d@.take(i + 1)[j] == d@.take(i as int)[j]);
                }
            }
        }
        acc = acc * 10 + (c - ZERO) as u64;
        if acc > 0xffff_ffff {
            proof {
                if all_digits(d@) {
                    lemma_digits_prefix(d@, i + 1);
                }
            }
            return None;
        }
        i += 1;
    }
    proof {
        assert(d@.take(i as int) =~= d@);
    }
    Some(acc as u32)
}

/// `String::from_utf8`: the string that the bytes encode, or nothing where they
/// are not UTF-8.
#[verifier::external_body]
pub(crate) fn utf8_to_string(bytes: Vec<u8>) -> (out: Option<String>)
    ensures
        out is Some <==> valid_utf8(bytes@),
        out is Some ==> out->0@ == decode_utf8(bytes@),
{
    String::from_utf8(bytes).ok()
}

/// Whether two strings hold the same characters.
pub fn str_eq(a: &str, b: &str) -> (out: bool)
    ensures
        out == (a@ == b@),
{
    let x = a.as_bytes();
    let y = b.as_bytes();
    if x.len() != y.len() {
        return false;
    }
    let mut i: usize = 0;
    while i < x.len()
        invariant
            0 <= i <= x@.len(),
            x@.len() == y@.len(),
            x@ == encode_utf8(a@),
            y@ == encode_utf8(b@),
            forall|j: int| 0 <= j < i ==> x@[j] == y@[j],
        decreases x@.len() - i,
    {
        if x[i] != y[i] {
            return false;
        }
        i += 1;
    }
    proof {
        assert(x@ =~= y@);
        lemma_utf8_injective(a@, b@);
    }
    true
}

/// Whether `a` does not come after `b` from the place `i` on, byte by byte.
pub open spec fn lex_le_from(a: Seq<u8>, b: Seq<u8>, i: int) -> bool
    decreases a.len() - i,
{
    if i < 0 || i >= a.len() {
        true
    } else if i >= b.len() {
        false
    } else if a[i] != b[i] {
        a[i] < b[i]
    } else {
        lex_le_from(a, b, i + 1)
    }
}

/// The order of names: that of their UTF-8 bytes, the shorter of two first where one
/// starts the other.
pub open spec fn name_le(a: Seq<char>, b: Seq<char>) -> bool {
    lex_le_from(encode_utf8(a), encode_utf8(b), 0)
}

/// Of two byte strings that agree up to `i`, one does not come after the other; if
/// each does not come after the other, they are the same from `i` on; and the order
/// passes on through a third.
pub proof fn lemma_lex_order(a: Seq<u8>, b: Seq<u8>, c: Seq<u8>, i: int)
    requires
        0 <= i <= a.len(),
        i <= b.len(),
    ensures
        lex_le_from(a, b, i) || lex_le_from(b, a, i),
        lex_le_from(a, b, i) && lex_le_from(b, a, i) ==> a.len() == b.len() && forall|j: int|
            i <= j < a.len() ==> a[j] == b[j],
        lex_le_from(a, b, i) && lex_le_from(b, c, i) ==> lex_le_from(a, c, i),
    decreases a.len() - i, b.len() - i,
{
    if i < a.len() && i < b.len() {
        lemma_lex_order(a, b, c, i + 1);
    }
}

/// The order of names is total, and two names are the same where neither comes after
/// the other.
pub proof fn lemma_name_order(a: Seq<char>, b: Seq<char>, c: Seq<char>)
    ensures
        name_le(a, b) || name_le(b, a),
        name_le(a, b) && name_le(b, a) ==> a == b,
        name_le(a, b) && name_le(b, c) ==> name_le(a, c),
        name_le(a, a),
{
    lemma_lex_order(encode_utf8(a), encode_utf8(b), encode_utf8(c), 0);
    lemma_lex_order(encode_utf8(a), encode_utf8(a), encode_utf8(a), 0);
    if name_le(a, b) && name_le(b, a) {
        assert(encode_utf8(a) =~= encode_utf8(b));
        lemma_utf8_injective(a, b);
    }
}

/// Whether the name `a` does not come after the name `b`.
pub fn name_not_after(a: &str, b: &str) -> (out: bool)
    ensures
        out == name_le(a@, b@),
{
    let x = a.as_bytes();
    let y = b.as_bytes();
    let mut i: usize = 0;
    while i < x.len()
        invariant
            0 <= i <= x@.len(),
            x@ == encode_utf8(a@),
            y@ == encode_utf8(b@),
            lex_le_from(x@, y@, 0) == lex_le_from(x@, y@, i as int),
        decreases x@.len() - i,
    {
        if i >= y.len() {
            return false;
        }
        if x[i] != y[i] {
            return x[i] < y[i];
        }
        i += 1;
    }
    true
}

/// An ASCII capital letter.
pub open spec fn is_capital(c: char) -> bool {
    'A' <= c <= 'Z'
}

/// The small letter of an ASCII capital letter.
pub open spec fn small(c: char) -> char {
    ((c as u8 + 32) as u8) as char
}

/// The first `n` characters of a name with every capital letter replaced by a hyphen
/// and its small letter.
pub open spec fn hyphened(ident: Seq<char>, n: int) -> Seq<char>
    decreases n,
{
    if n <= 0 {
        Seq::empty()
    } else if is_capital(ident[n - 1]) {
        hyphened(ident, n - 1).push('-').push(small(ident[n - 1]))
    } else {
        hyphened(ident, n - 1).push(ident[n - 1])
    }
}

/// The verb that a name in capitalised words stands for: the words in small letters,
/// joined by hyphens. The first character of what [`hyphened`] gives is dropped: the
/// hyphen before the first word.
pub open spec fn verb_of(ident: Seq<char>) -> Seq<char> {
    let h = hyphened(ident, ident.len() as int);
    if h.len() > 0 {
        h.skip(1)
    } else {
        h
    }
}

/// `String::push`: appends one character.
#[verifier::external_body]
pub(crate) fn push_char(s: &mut String, c: char)
    ensures
        final(s)@ == old(s)@.push(c),
{
    s.push(c)
}

/// The verb that a name in capitalised words stands for.
pub fn camel_case(ident: &str) -> (out: String)
    ensures
        out@ == verb_of(ident@),
{
    let n = ident.unicode_len();
    let mut out = String::new();
    let mut i: usize = 0;
    while i < n
        invariant
            0 <= i <= n,
            n == ident@.len(),
            out@ == verb_of(ident@.take(i as int)),
        decreases n - i,
    {
        let c = ident.get_char(i);
        let ghost before = hyphened(ident@.take(i as int), i as int);
        proof {
            lemma_hyphened_take(ident@, i as int, i as int);
            lemma_hyphened_take(ident@, i + 1, i as int);
            lemma_hyphened_take(ident@, i + 1, i + 1);
            assert(ident@.take(i + 1)[i as int] == c);
            assert(ident@.take(i as int).len() == i);
            assert(ident@.take(i + 1).len() == i + 1);
        }
        if c >= 'A' && c <= 'Z' {
            if i > 0 {
                proof {
                    lemma_hyphened_len(ident@, i as int);
                }
                push_char(&mut out, '-');
            }
            let low: u8 = c as u8 + 32;
            push_char(&mut out, low as char);
            proof {
                lemma_hyphened_len(ident@, i as int);
                assert(out@ =~= verb_of(ident@.take(i + 1)));
            }
        } else {
            if i > 0 {
                push_char(&mut out, c);
            }
            proof {
                lemma_hyphened_len(ident@, i as int);
                assert(out@ =~= verb_of(ident@.take(i + 1)));
            }
        }
        i += 1;
    }
    proof {
        assert(ident@.take(i as int) =~= ident@);
    }
    out
}

/// What is made of the first `n` characters of a name is made of them alone.
proof fn lemma_hyphened_take(ident: Seq<char>, m: int, n: int)
    requires
        0 <= n <= m <= ident.len(),
    ensures
        hyphened(ident.take(m), n) == hyphened(ident, n),
    decreases n,
{
    if n > 0 {
        lemma_hyphened_take(ident, m, n - 1);
    }
}

/// What is made of a name's first `n` characters is empty only where `n` is 0.
proof fn lemma_hyphened_len(ident: Seq<char>, n: int)
    requires
        0 <= n <= ident.len(),
    ensures
        hyphened(ident, n).len() >= n,
    decreases n,
{
    if n > 0 {
        lemma_hyphened_len(ident, n - 1);
    }
}

} // verus!
