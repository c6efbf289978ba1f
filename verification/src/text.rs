//! Small operations on text and bytes that the rest of the library is built on:
//! comparison, searching, trimming, decimal numbers, and the passage between
//! characters and UTF-8.

use vstd::prelude::*;
use vstd::utf8::*;

verus! {

// ---------------------------------------------------------------------------
// Strings of the standard library
// ---------------------------------------------------------------------------

/// `String::push` appends one character and changes nothing else.
pub assume_specification[ String::push ](s: &mut String, c: char)
    ensures
        final(s)@ == old(s)@.push(c),
;

/// `String::push_str` appends the characters of `t` in order and changes nothing else.
pub assume_specification[ String::push_str ](s: &mut String, t: &str)
    ensures
        final(s)@ == old(s)@ + t@,
;

/// `String::into_bytes` hands out the UTF-8 encoding of the string.
pub assume_specification[ String::into_bytes ](s: String) -> (bytes: Vec<u8>)
    ensures
        bytes@ == encode_utf8(s@),
;

/// The text of the error that `std::str::from_utf8` reports for bytes that are not UTF-8.
pub uninterp spec fn utf8_error_text(bytes: Seq<u8>) -> Seq<char>;

/// `std::str::from_utf8`: the text that the bytes encode, exactly when they are valid
/// UTF-8. Otherwise the displayed text of the error, which is a function of the bytes
/// alone; its wording is not stated.
#[verifier::external_body]
pub(crate) fn from_utf8(bytes: &[u8]) -> (res: Result<&str, String>)
    ensures
        res is Ok <==> valid_utf8(bytes@),
        res matches Ok(text) ==> text@ == decode_utf8(bytes@),
        res matches Err(cause) ==> cause@ == utf8_error_text(bytes@),
{
    std::str::from_utf8(bytes).map_err(|e| e.to_string())
}

/// The text that `String::from_utf8_lossy` makes of bytes that are not UTF-8.
pub uninterp spec fn lossy_text(bytes: Seq<u8>) -> Seq<char>;

/// The text that bytes are shown as: what they encode, where they encode something.
pub open spec fn shown_text(bytes: Seq<u8>) -> Seq<char> {
    if valid_utf8(bytes) {
        decode_utf8(bytes)
    } else {
        lossy_text(bytes)
    }
}

/// `String::from_utf8_lossy`: valid UTF-8 comes back as the text it encodes. For other
/// bytes the result is named: where the replacement characters fall is not stated.
#[verifier::external_body]
pub(crate) fn from_utf8_lossy(bytes: &[u8]) -> (text: String)
    ensures
        valid_utf8(bytes@) ==> text@ == decode_utf8(bytes@),
        !valid_utf8(bytes@) ==> text@ == lossy_text(bytes@),
{
    String::from_utf8_lossy(bytes).into_owned()
}

// ---------------------------------------------------------------------------
// UTF-8
// ---------------------------------------------------------------------------

/// UTF-8 encodes a concatenation piece by piece.
pub proof fn lemma_encode_concat(a: Seq<char>, b: Seq<char>)
    ensures
        encode_utf8(a + b) == encode_utf8(a) + encode_utf8(b),
    decreases a.len(),
{
    if a.len() == 0 {
        assert(a + b == b);
        assert(encode_utf8(a) == Seq::<u8>::empty());
        assert(Seq::<u8>::empty() + encode_utf8(b) == encode_utf8(b));
    } else {
        assert((a + b).drop_first() == a.drop_first() + b);
        lemma_encode_concat(a.drop_first(), b);
        assert(encode_utf8(a + b) == encode_utf8(a) + encode_utf8(b));
    }
}

/// Two texts are the same exactly when their encodings are.
pub proof fn lemma_encode_injective(a: Seq<char>, b: Seq<char>)
    ensures
        encode_utf8(a) == encode_utf8(b) <==> a == b,
{
    encode_utf8_decode_utf8(a);
    encode_utf8_decode_utf8(b);
}

// ---------------------------------------------------------------------------
// Comparison and searching
// ---------------------------------------------------------------------------

/// Whether `needle` stands in `hay` at position `i`.
pub open spec fn occurs_at(hay: Seq<u8>, needle: Seq<u8>, i: int) -> bool {
    0 <= i && i + needle.len() <= hay.len() && hay.subrange(i, i + needle.len()) == needle
}

/// Whether two byte strings are equal.
pub fn bytes_eq(a: &[u8], b: &[u8]) -> (res: bool)
    ensures
        res == (a@ == b@),
{
    if a.len() != b.len() {
        return false;
    }
    let mut i: usize = 0;
    while i < a.len()
        invariant
            a@.len() == b@.len(),
            i <= a@.len(),
            forall|k: int| 0 <= k < i ==> a@[k] == b@[k],
        decreases a@.len() - i,
    {
        if a[i] != b[i] {
            return false;
        }
        i += 1;
    }
    assert(a@ == b@);
    true
}

/// Whether two texts are equal.
pub fn str_eq(a: &str, b: &str) -> (res: bool)
    ensures
        res == (a@ == b@),
{
    proof {
        lemma_encode_injective(a@, b@);
    }
    bytes_eq(a.as_bytes(), b.as_bytes())
}

/// Whether `needle` stands in `hay` at position `at`.
pub fn bytes_at(hay: &[u8], at: usize, needle: &[u8]) -> (res: bool)
    requires
        at <= hay@.len(),
    ensures
        res == occurs_at(hay@, needle@, at as int),
{
    if hay.len() - at < needle.len() {
        return false;
    }
    let mut i: usize = 0;
    while i < needle.len()
        invariant
            at + needle@.len() <= hay.len(),
            i <= needle@.len(),
            forall|k: int| 0 <= k < i ==> hay@[at + k] == needle@[k],
        decreases needle@.len() - i,
    {
        if hay[at + i] != needle[i] {
            assert(hay@.subrange(at as int, at + needle@.len())[i as int] != needle@[i as int]);
            return false;
        }
        i += 1;
    }
    assert(hay@.subrange(at as int, at + needle@.len()) == needle@);
    true
}

/// One byte in lower case, as far as ASCII goes.
pub open spec fn lower_byte(b: u8) -> u8 {
    if 0x41 <= b <= 0x5a {
        (b + 0x20) as u8
    } else {
        b
    }
}

/// A byte string in lower case, as far as ASCII goes.
pub open spec fn lower(s: Seq<u8>) -> Seq<u8> {
    s.map_values(|b: u8| lower_byte(b))
}

/// Whether two byte strings are equal up to the case of ASCII letters.
pub open spec fn eq_ignore_case(a: Seq<u8>, b: Seq<u8>) -> bool {
    lower(a) == lower(b)
}

/// One byte in lower case, as far as ASCII goes.
pub fn to_lower(b: u8) -> (res: u8)
    ensures
        res == lower_byte(b),
{
    if 0x41 <= b && b <= 0x5a {
        b + 0x20
    } else {
        b
    }
}

/// Whether `needle` stands in `hay` at position `at`, up to the case of ASCII letters.
pub fn bytes_at_ignore_case(hay: &[u8], at: usize, needle: &[u8]) -> (res: bool)
    requires
        at + needle@.len() <= hay@.len(),
    ensures
        res == eq_ignore_case(hay@.subrange(at as int, at + needle@.len()), needle@),
{
    let ghost window = hay@.subrange(at as int, at + needle@.len());
    let mut i: usize = 0;
    while i < needle.len()
        invariant
            at + needle@.len() <= hay.len(),
            window == hay@.subrange(at as int, at + needle@.len()),
            i <= needle@.len(),
            forall|k: int| 0 <= k < i ==> lower_byte(window[k]) == lower_byte(needle@[k]),
        decreases needle@.len() - i,
    {
        if to_lower(hay[at + i]) != to_lower(needle[i]) {
            assert(lower(window)[i as int] != lower(needle@)[i as int]);
            return false;
        }
        i += 1;
    }
    assert(lower(window) == lower(needle@));
    true
}

/// Whether two texts are equal up to the case of ASCII letters.
pub fn str_eq_ignore_case(a: &str, b: &str) -> (res: bool)
    ensures
        res == eq_ignore_case(encode_utf8(a@), encode_utf8(b@)),
{
    let a_bytes = a.as_bytes();
    let b_bytes = b.as_bytes();
    if a_bytes.len() != b_bytes.len() {
        assert(lower(a_bytes@).len() != lower(b_bytes@).len());
        return false;
    }
    assert(a_bytes@.subrange(0, b_bytes@.len() as int) == a_bytes@);
    bytes_at_ignore_case(a_bytes, 0, b_bytes)
}

// ---------------------------------------------------------------------------
// White space
// ---------------------------------------------------------------------------

/// The characters that Unicode gives the property `White_Space`.
pub open spec fn is_white_space(c: char) -> bool {
    ||| '\u{9}' <= c <= '\u{d}'
    ||| c == '\u{20}'
    ||| c == '\u{85}'
    ||| c == '\u{a0}'
    ||| c == '\u{1680}'
    ||| '\u{2000}' <= c <= '\u{200a}'
    ||| c == '\u{2028}'
    ||| c == '\u{2029}'
    ||| c == '\u{202f}'
    ||| c == '\u{205f}'
    ||| c == '\u{3000}'
}

/// Whether Unicode gives the character the property `White_Space`.
pub fn white_space(c: char) -> (res: bool)
    ensures
        res == is_white_space(c),
{
    ('\u{9}' <= c && c <= '\u{d}') || c == '\u{20}' || c == '\u{85}' || c == '\u{a0}' || c
        == '\u{1680}' || ('\u{2000}' <= c && c <= '\u{200a}') || c == '\u{2028}' || c == '\u{2029}'
        || c == '\u{202f}' || c == '\u{205f}' || c == '\u{3000}'
}

/// A text without the white space at its two ends.
pub open spec fn trimmed(s: Seq<char>) -> Seq<char>
    decreases s.len(),
{
    if s.len() == 0 {
        s
    } else if is_white_space(s.first()) {
        trimmed(s.drop_first())
    } else if is_white_space(s.last()) {
        trimmed(s.drop_last())
    } else {
        s
    }
}

/// What is left when only white space stands on either side of `from..to`.
proof fn lemma_trimmed(s: Seq<char>, from: int, to: int)
    requires
        0 <= from <= to <= s.len(),
        forall|k: int| 0 <= k < from ==> is_white_space(#[trigger] s[k]),
        forall|k: int| to <= k < s.len() ==> is_white_space(#[trigger] s[k]),
        from < to ==> !is_white_space(s[from]) && !is_white_space(s[to - 1]),
    ensures
        trimmed(s) == s.subrange(from, to),
    decreases s.len(),
{
    if s.len() == 0 {
        assert(s == s.subrange(from, to));
    } else if from > 0 {
        let rest = s.drop_first();
        lemma_trimmed(rest, from - 1, to - 1);
        assert(rest.subrange(from - 1, to - 1) == s.subrange(from, to));
    } else if is_white_space(s.first()) {
        // Nothing but white space.
        assert(from == to);
        let rest = s.drop_first();
        let at = if to > 0 { to - 1 } else { 0 };
        assert forall|k: int| 0 <= k < rest.len() implies is_white_space(#[trigger] rest[k]) by {
            assert(rest[k] == s[k + 1]);
        }
        lemma_trimmed(rest, at, at);
        assert(rest.subrange(at, at) == s.subrange(from, to));
    } else if to < s.len() {
        assert(is_white_space(s[s.len() - 1]));
        let rest = s.drop_last();
        assert(to > 0) by {
            if to == 0 {
                assert(is_white_space(s[0]));
            }
        }
        lemma_trimmed(rest, from, to);
        assert(rest.subrange(from, to) == s.subrange(from, to));
    } else {
        assert(s == s.subrange(from, to));
    }
}

/// The text without the white space at its two ends.
pub fn trim(s: &str) -> (res: &str)
    ensures
        res@ == trimmed(s@),
{
    let mut n: usize = 0;
    let mut from: usize = 0;
    let mut to: usize = 0;
    let total = s.unicode_len();
    for c in it: s.chars()
        invariant
            it.seq() == s@,
            total == s@.len(),
            n == it.index(),
            from <= to <= n,
            forall|k: int| 0 <= k < from ==> is_white_space(#[trigger] s@[k]),
            forall|k: int| to <= k < n ==> is_white_space(#[trigger] s@[k]),
            from < to ==> !is_white_space(s@[from as int]) && !is_white_space(s@[to - 1]),
            from == to ==> from == 0,
    {
        if !white_space(c) {
            if from == to {
                from = n;
            }
            to = n + 1;
        }
        n = n + 1;
    }
    proof {
        lemma_trimmed(s@, from as int, to as int);
    }
    s.substring_char(from, to)
}

// ---------------------------------------------------------------------------
// Numbers
// ---------------------------------------------------------------------------

/// The decimal digit of a number below ten.
pub open spec fn digit(d: nat) -> char {
    (0x30 + d) as char
}

/// A number in decimal, without leading zeros.
pub open spec fn decimal(n: nat) -> Seq<char>
    decreases n,
{
    if n < 10 {
        seq![digit(n)]
    } else {
        decimal(n / 10).push(digit(n % 10))
    }
}

/// Append a number in decimal.
pub fn push_decimal(out: &mut String, n: u64)
    ensures
        final(out)@ == old(out)@ + decimal(n as nat),
    decreases n,
{
    if n >= 10 {
        push_decimal(out, n / 10);
    }
    let d: u8 = (n % 10) as u8;
    out.push((0x30 + d) as char);
    assert(out@ == old(out)@ + decimal(n as nat));
}

/// The lower-case hexadecimal digit of a number below sixteen.
pub open spec fn hex_digit(d: nat) -> char {
    if d < 10 {
        (0x30 + d) as char
    } else {
        (0x61 + (d - 10)) as char
    }
}

/// The lower-case hexadecimal digit of a number below sixteen.
pub fn hex_char(d: u8) -> (res: char)
    requires
        d < 16,
    ensures
        res == hex_digit(d as nat),
{
    if d < 10 {
        (0x30 + d) as char
    } else {
        (0x61 + (d - 10)) as char
    }
}

/// Whether a byte is an ASCII decimal digit.
pub open spec fn is_digit(b: u8) -> bool {
    0x30 <= b <= 0x39
}

/// The number that a string of decimal digits stands for.
pub open spec fn digits_value(s: Seq<u8>) -> nat
    decreases s.len(),
{
    if s.len() == 0 {
        0
    } else {
        10 * digits_value(s.drop_last()) + (s.last() - 0x30) as nat
    }
}

/// Whether a byte string holds nothing but decimal digits.
pub open spec fn all_digits(s: Seq<u8>) -> bool {
    forall|i: int| 0 <= i < s.len() ==> is_digit(#[trigger] s[i])
}

/// A text without one leading plus sign.
pub open spec fn without_plus(s: Seq<u8>) -> Seq<u8> {
    if s.len() > 0 && s[0] == 0x2b {
        s.skip(1)
    } else {
        s
    }
}

/// The number that a text stands for: decimal digits, at least one, with an optional
/// plus sign before them, and no more than sixteen bits of value.
pub open spec fn u16_value(s: Seq<u8>) -> Option<u16> {
    let digits = without_plus(s);
    if digits.len() > 0 && all_digits(digits) && digits_value(digits) <= 0xffff {
        Some(digits_value(digits) as u16)
    } else {
        None
    }
}

/// A longer string of digits stands for no smaller a number.
proof fn lemma_digits_value_monotonic(s: Seq<u8>, n: int)
    requires
        0 <= n <= s.len(),
        all_digits(s),
    ensures
        digits_value(s.take(n)) <= digits_value(s),
    decreases s.len(),
{
    if n == s.len() {
        assert(s.take(n) == s);
    } else {
        let front = s.drop_last();
        lemma_digits_value_monotonic(front, n);
        assert(front.take(n) == s.take(n));
        assert(is_digit(s[s.len() - 1]));
    }
}

/// Read a port-sized number.
pub fn parse_u16(text: &str) -> (res: Option<u16>)
    ensures
        res == u16_value(encode_utf8(text@)),
{
    let bytes = text.as_bytes();
    let start: usize = if bytes.len() > 0 && bytes[0] == 0x2b {
        1
    } else {
        0
    };
    let ghost digits = bytes@.skip(start as int);
    assert(digits == without_plus(bytes@));
    if start == bytes.len() {
        return None;
    }
    let mut value: u32 = 0;
    let mut i: usize = start;
    while i < bytes.len()
        invariant
            start <= i <= bytes@.len(),
            start < bytes@.len(),
            digits == bytes@.skip(start as int),
            bytes@ == encode_utf8(text@),
            digits == without_plus(bytes@),
            value <= 0xffff,
            value == digits_value(digits.take(i - start)),
            forall|k: int| 0 <= k < i - start ==> is_digit(#[trigger] digits[k]),
        decreases bytes@.len() - i,
    {
        let b = bytes[i];
        assert(digits[i - start] == b);
        if b < 0x30 || b > 0x39 {
            return None;
        }
        proof {
            assert(digits.take(i - start + 1).drop_last() == digits.take(i - start));
            assert(digits.take(i - start + 1).last() == b);
        }
        value = value * 10 + (b - 0x30) as u32;
        i += 1;
        if value > 0xffff {
            proof {
                if all_digits(digits) {
                    lemma_digits_value_monotonic(digits, i - start);
                }
            }
            return None;
        }
    }
    assert(digits.take(i - start) == digits);
    Some(value as u16)
}

// ---------------------------------------------------------------------------
// What holds of texts and numbers
// ---------------------------------------------------------------------------

/// Trimming takes the white space off both ends, all of it, and nothing else.
pub proof fn law_trimming_keeps_the_core(before: Seq<char>, core: Seq<char>, behind: Seq<char>)
    requires
        forall|i: int| 0 <= i < before.len() ==> is_white_space(#[trigger] before[i]),
        forall|i: int| 0 <= i < behind.len() ==> is_white_space(#[trigger] behind[i]),
        core.len() > 0 ==> !is_white_space(core.first()) && !is_white_space(core.last()),
    ensures
        trimmed(before + core + behind) == core,
{
    let s = before + core + behind;
    let from = before.len() as int;
    let to = from + core.len();
    assert forall|k: int| 0 <= k < from implies is_white_space(#[trigger] s[k]) by {
        assert(s[k] == before[k]);
    }
    assert forall|k: int| to <= k < s.len() implies is_white_space(#[trigger] s[k]) by {
        assert(s[k] == behind[k - to]);
    }
    if from < to {
        assert(s[from] == core.first());
        assert(s[to - 1] == core.last());
    }
    lemma_trimmed(s, from, to);
    assert(s.subrange(from, to) =~= core);
}

/// The white space that is trimmed: in ASCII the space and the five controls from tab to
/// carriage return, and no letter, digit or mark.
pub proof fn law_ascii_white_space(c: char)
    requires
        (c as u32) < 0x80,
    ensures
        is_white_space(c) == (c == ' ' || 0x09 <= (c as u32) <= 0x0d),
{
}

/// Two byte strings are equal up to case exactly where each byte is the same, or is the
/// other case of the same letter.
pub proof fn law_case_is_all_that_is_ignored(a: Seq<u8>, b: Seq<u8>)
    ensures
        eq_ignore_case(a, b) == (a.len() == b.len() && forall|i: int|
            #![trigger a[i]]
            0 <= i < a.len() ==> (a[i] == b[i] || (0x41 <= a[i] <= 0x5a && b[i] == a[i] + 0x20) || (
            0x41 <= b[i] <= 0x5a && a[i] == b[i] + 0x20))),
{
    let same = a.len() == b.len() && forall|i: int|
        #![trigger a[i]]
        0 <= i < a.len() ==> (a[i] == b[i] || (0x41 <= a[i] <= 0x5a && b[i] == a[i] + 0x20) || (0x41
            <= b[i] <= 0x5a && a[i] == b[i] + 0x20));
    assert(lower(a).len() == a.len() && lower(b).len() == b.len());
    if eq_ignore_case(a, b) {
        assert forall|i: int|
            #![trigger a[i]]
            0 <= i < a.len() implies (a[i] == b[i] || (0x41 <= a[i] <= 0x5a && b[i] == a[i] + 0x20)
            || (0x41 <= b[i] <= 0x5a && a[i] == b[i] + 0x20)) by {
            assert(lower(a)[i] == lower(b)[i]);
        }
    }
    if same {
        assert forall|i: int| 0 <= i < a.len() implies lower(a)[i] == lower(b)[i] by {
            assert(a[i] == a[i]);
        }
        assert(lower(a) =~= lower(b));
    }
}

/// One digit more behind a string of digits: ten times the number, and the digit.
pub proof fn law_digits_count_in_tens(front: Seq<u8>, b: u8)
    requires
        0x30 <= b <= 0x39,
    ensures
        digits_value(front.push(b)) == 10 * digits_value(front) + (b - 0x30),
        digits_value(Seq::empty()) == 0,
{
    assert(front.push(b).drop_last() =~= front);
}

/// A number in decimal reads back as the number; it has digits and nothing else, and no
/// leading zero.
pub proof fn law_decimals_read_back(n: nat)
    ensures
        digits_value(encode_utf8(decimal(n))) == n,
        decimal(n).len() > 0,
        encode_utf8(decimal(n)).len() == decimal(n).len(),
        forall|i: int|
            0 <= i < encode_utf8(decimal(n)).len() ==> 0x30 <= #[trigger] encode_utf8(
                decimal(n),
            )[i] <= 0x39,
        decimal(n)[0] == '0' ==> n == 0 && decimal(n).len() == 1,
    decreases n,
{
    let d = decimal(n);
    lemma_decimal_chars(n);
    assert(is_ascii_chars(d));
    is_ascii_chars_encode_utf8(d);
    let e = encode_utf8(d);
    if n >= 10 {
        law_decimals_read_back(n / 10);
        let front = decimal(n / 10);
        lemma_decimal_chars(n / 10);
        is_ascii_chars_encode_utf8(front);
        assert(e.drop_last() =~= encode_utf8(front));
        assert(d[0] == front[0]);
    } else {
        assert(e.drop_last() =~= Seq::empty());
        assert(digits_value(e.drop_last()) == 0);
    }
}

/// A number in decimal has digits and nothing else.
proof fn lemma_decimal_chars(n: nat)
    ensures
        forall|i: int| 0 <= i < decimal(n).len() ==> '0' <= #[trigger] decimal(n)[i] <= '9',
        is_ascii_chars(decimal(n)),
    decreases n,
{
    if n >= 10 {
        lemma_decimal_chars(n / 10);
        assert forall|i: int| 0 <= i < decimal(n).len() implies '0' <= #[trigger] decimal(n)[i]
            <= '9' by {
            if i < decimal(n / 10).len() {
                assert(decimal(n)[i] == decimal(n / 10)[i]);
            }
        }
    }
}

/// A hexadecimal digit is the character at its place among the sixteen.
pub proof fn law_hex_digits_stand_in_order(d: nat)
    requires
        d < 16,
    ensures
        hex_digit(d) == "0123456789abcdef"@[d as int],
{
    reveal_strlit("0123456789abcdef");
}

/// What is read as a port-sized number: one or more digits, with or without a plus before
/// them, that do not come to more than 65535; and nothing else.
pub proof fn law_small_numbers_are_read(s: Seq<u8>)
    ensures
        s.len() > 0 && (forall|i: int| 0 <= i < s.len() ==> 0x30 <= #[trigger] s[i] <= 0x39) ==> {
            &&& u16_value(s) == (if digits_value(s) <= 65535 {
                Some(digits_value(s) as u16)
            } else {
                None
            })
            &&& u16_value(seq![0x2bu8] + s) == u16_value(s)
        },
        u16_value(s) is Some ==> s.len() > 0 && (s[0] == 0x2b ==> s.len() > 1) && (forall|i: int|
            0 < i < s.len() ==> 0x30 <= #[trigger] s[i] <= 0x39) && (s[0] == 0x2b || 0x30 <= s[0]
            <= 0x39),
{
    if s.len() > 0 && (forall|i: int| 0 <= i < s.len() ==> 0x30 <= #[trigger] s[i] <= 0x39) {
        assert(s[0] != 0x2b);
        assert(without_plus(s) == s);
        assert((seq![0x2bu8] + s).skip(1) =~= s);
        assert(all_digits(s));
    }
    if u16_value(s) is Some {
        let digits = without_plus(s);
        let off = s.len() - digits.len();
        assert forall|i: int| 0 < i < s.len() implies 0x30 <= #[trigger] s[i] <= 0x39 by {
            assert(s[i] == digits[i - off]);
        }
        assert(is_digit(digits[0]));
    }
}

/// A decimal number of sixteen bits is read as itself, and a larger one is not read.
pub proof fn law_written_numbers_are_read(n: nat)
    ensures
        u16_value(encode_utf8(decimal(n))) == (if n <= 65535 {
            Some(n as u16)
        } else {
            None
        }),
{
    law_decimals_read_back(n);
    law_small_numbers_are_read(encode_utf8(decimal(n)));
}

/// A needle stands at a place exactly where each of its bytes does.
pub proof fn law_needles_stand_byte_by_byte(hay: Seq<u8>, needle: Seq<u8>, i: int)
    ensures
        occurs_at(hay, needle, i) == (0 <= i && i + needle.len() <= hay.len() && forall|k: int|
            0 <= k < needle.len() ==> hay[i + k] == #[trigger] needle[k]),
{
    if 0 <= i && i + needle.len() <= hay.len() {
        let part = hay.subrange(i, i + needle.len());
        if part == needle {
            assert forall|k: int| 0 <= k < needle.len() implies hay[i + k] == #[trigger] needle[k] by {
                assert(part[k] == hay[i + k]);
            }
        }
        if forall|k: int| 0 <= k < needle.len() ==> hay[i + k] == #[trigger] needle[k] {
            assert forall|k: int| 0 <= k < part.len() implies part[k] == needle[k] by {
                assert(hay[i + k] == needle[k]);
            }
            assert(part =~= needle);
        }
    }
}

} // verus!
