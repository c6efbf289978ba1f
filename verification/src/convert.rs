//! Reading single values off a wire payload without parsing it, and writing JSON
//! strings back out. Nothing here rewrites relayed content: the relay only peeks at a
//! member or two along the way, or composes a small envelope of its own.

use vstd::prelude::*;
use vstd::utf8::*;

use crate::text;

verus! {

/// Nesting deeper than this is suspicious enough that the byte scanner gives up
/// rather than recurse further.
pub const MAX_DEPTH: usize = 64;

pub const QUOTE: u8 = 0x22;

pub const BACKSLASH: u8 = 0x5c;

pub const COMMA: u8 = 0x2c;

pub const COLON: u8 = 0x3a;

pub const OPEN_BRACE: u8 = 0x7b;

pub const CLOSE_BRACE: u8 = 0x7d;

pub const OPEN_BRACKET: u8 = 0x5b;

pub const CLOSE_BRACKET: u8 = 0x5d;

// ---------------------------------------------------------------------------
// The grammar that the scanner reads
// ---------------------------------------------------------------------------

/// The white space of JSON.
pub open spec fn is_ws(b: u8) -> bool {
    b == 0x20 || b == 0x09 || b == 0x0a || b == 0x0d
}

/// The first position from `i` on that holds no white space.
pub open spec fn skip_ws(s: Seq<u8>, i: int) -> int
    decreases s.len() - i,
{
    if 0 <= i < s.len() && is_ws(s[i]) {
        skip_ws(s, i + 1)
    } else {
        i
    }
}

/// The position past the closing quote of a string literal whose contents start at
/// `i`. A backslash takes the byte after it along, whatever that is.
pub open spec fn string_end(s: Seq<u8>, i: int) -> Option<int>
    decreases s.len() - i,
{
    if i < 0 || i >= s.len() {
        None
    } else if s[i] == QUOTE {
        Some(i + 1)
    } else if s[i] == BACKSLASH {
        if i + 1 < s.len() {
            string_end(s, i + 2)
        } else {
            None
        }
    } else {
        string_end(s, i + 1)
    }
}

/// The position past the string literal that starts at `i`, quotes and all.
pub open spec fn literal_end(s: Seq<u8>, i: int) -> Option<int> {
    if 0 <= i < s.len() && s[i] == QUOTE {
        string_end(s, i + 1)
    } else {
        None
    }
}

/// The bytes that a number is made of.
pub open spec fn is_number_byte(b: u8) -> bool {
    text::is_digit(b) || b == 0x2d || b == 0x2b || b == 0x2e || b == 0x65 || b == 0x45
}

/// The end of the run of number bytes that starts at `i`.
pub open spec fn number_end(s: Seq<u8>, i: int) -> int
    decreases s.len() - i,
{
    if 0 <= i < s.len() && is_number_byte(s[i]) {
        number_end(s, i + 1)
    } else {
        i
    }
}

/// The end of the run of digits that starts at `i`.
pub open spec fn digits_end(s: Seq<u8>, i: int) -> int
    decreases s.len() - i,
{
    if 0 <= i < s.len() && text::is_digit(s[i]) {
        digits_end(s, i + 1)
    } else {
        i
    }
}

/// Whether a byte opens the exponent of a number.
pub open spec fn is_exponent_mark(b: u8) -> bool {
    b == 0x65 || b == 0x45
}

/// Where the digits of an exponent start whose mark stands at `i`: behind the sign, if
/// there is one.
pub open spec fn exponent_start(s: Seq<u8>, i: int) -> int {
    if i + 1 < s.len() && (s[i + 1] == 0x2b || s[i + 1] == 0x2d) {
        i + 2
    } else {
        i + 1
    }
}

/// Whether a text is a JSON number: a minus or none, an integer without a leading zero,
/// a fraction or none, and an exponent or none. A fraction and an exponent have digits.
pub open spec fn is_number(s: Seq<u8>) -> bool {
    let int_start: int = if s.len() > 0 && s[0] == 0x2d {
        1
    } else {
        0
    };
    let int_end = digits_end(s, int_start);
    let has_fraction = int_end < s.len() && s[int_end] == 0x2e;
    let fraction_end = if has_fraction {
        digits_end(s, int_end + 1)
    } else {
        int_end
    };
    let has_exponent = fraction_end < s.len() && is_exponent_mark(s[fraction_end]);
    let end = if has_exponent {
        digits_end(s, exponent_start(s, fraction_end))
    } else {
        fraction_end
    };
    &&& int_start < int_end
    &&& s[int_start] == 0x30 ==> int_end == int_start + 1
    &&& has_fraction ==> int_end + 1 < fraction_end
    &&& has_exponent ==> exponent_start(s, fraction_end) < end
    &&& end == s.len()
}

/// The bracket that closes what `open` opens.
pub open spec fn closer(open: u8) -> u8 {
    if open == OPEN_BRACE {
        CLOSE_BRACE
    } else {
        CLOSE_BRACKET
    }
}

/// The position past the bracket `close` of an object or array whose contents start at
/// `i`, at nesting depth `depth`. The contents are string literals, nested compounds no
/// deeper than `MAX_DEPTH`, and any other bytes.
pub open spec fn compound_end(s: Seq<u8>, i: int, close: u8, depth: nat) -> Option<int>
    decreases s.len() - i,
{
    if i < 0 || i >= s.len() {
        None
    } else if s[i] == QUOTE {
        match string_end(s, i + 1) {
            Some(j) => if i < j <= s.len() {
                compound_end(s, j, close, depth)
            } else {
                None
            },
            None => None,
        }
    } else if s[i] == OPEN_BRACE || s[i] == OPEN_BRACKET {
        if depth >= MAX_DEPTH {
            None
        } else {
            match compound_end(s, i + 1, closer(s[i]), depth + 1) {
                Some(j) => if i < j <= s.len() {
                    compound_end(s, j, close, depth)
                } else {
                    None
                },
                None => None,
            }
        }
    } else if s[i] == close {
        Some(i + 1)
    } else {
        compound_end(s, i + 1, close, depth)
    }
}

/// The position past the JSON value that starts at `i`. A run of number bytes is a value
/// where it is a number as a whole.
pub open spec fn value_end(s: Seq<u8>, i: int) -> Option<int> {
    if i < 0 || i >= s.len() {
        None
    } else if s[i] == QUOTE {
        string_end(s, i + 1)
    } else if s[i] == OPEN_BRACE || s[i] == OPEN_BRACKET {
        compound_end(s, i + 1, closer(s[i]), 1)
    } else if text::occurs_at(s, encode_utf8("true"@), i) {
        Some(i + 4)
    } else if text::occurs_at(s, encode_utf8("false"@), i) {
        Some(i + 5)
    } else if text::occurs_at(s, encode_utf8("null"@), i) {
        Some(i + 4)
    } else if is_number(s.subrange(i, number_end(s, i))) {
        Some(number_end(s, i))
    } else {
        None
    }
}

/// One member of an object: the bytes between the quotes of its key, and the span of
/// its value.
pub struct Member {
    pub key: Seq<u8>,
    pub start: int,
    pub end: int,
    pub is_string: bool,
}

/// The member whose key starts at `i`: a string literal, a colon and a value, with
/// white space around the colon.
pub open spec fn member_at(s: Seq<u8>, i: int) -> Option<Member> {
    if i < 0 || i >= s.len() || s[i] != QUOTE {
        None
    } else {
        match string_end(s, i + 1) {
            None => None,
            Some(j) => {
                let colon = skip_ws(s, j);
                let start = skip_ws(s, colon + 1);
                if colon < s.len() && s[colon] == COLON {
                    match value_end(s, start) {
                        Some(end) => Some(
                            Member {
                                key: s.subrange(i + 1, j - 1),
                                start,
                                end,
                                is_string: s[start] == QUOTE,
                            },
                        ),
                        None => None,
                    }
                } else {
                    None
                }
            },
        }
    }
}

/// The first member with the given key among those that stand from `i` on, up to the
/// closing brace.
pub open spec fn find_from(s: Seq<u8>, i: int, key: Seq<u8>) -> Option<Member>
    decreases s.len() - i,
{
    proof {
        lemma_skip_ws(s, i);
    }
    let at = skip_ws(s, i);
    if i < 0 || at >= s.len() || s[at] == CLOSE_BRACE {
        None
    } else if s[at] == COMMA {
        find_from(s, at + 1, key)
    } else {
        match member_at(s, at) {
            None => None,
            Some(m) => if m.key == key {
                Some(m)
            } else if i < m.end <= s.len() {
                find_from(s, m.end, key)
            } else {
                None
            },
        }
    }
}

/// The first member with the given key of the object at the start of `s`.
pub open spec fn member(s: Seq<u8>, key: Seq<u8>) -> Option<Member> {
    let at = skip_ws(s, 0);
    if at < s.len() && s[at] == OPEN_BRACE {
        find_from(s, at + 1, key)
    } else {
        None
    }
}

/// The text of a top-level string member that needs no unescaping.
pub open spec fn top_level_text(s: Seq<u8>, key: Seq<u8>) -> Option<Seq<char>> {
    match member(s, key) {
        None => None,
        Some(m) => {
            let body = s.subrange(m.start + 1, m.end - 1);
            if m.is_string && !body.contains(BACKSLASH) && valid_utf8(body) {
                Some(decode_utf8(body))
            } else {
                None
            }
        },
    }
}

/// Whether `s` holds an `outer` member whose value holds a string member `inner`.
pub open spec fn nested_string(s: Seq<u8>, outer: Seq<u8>, inner: Seq<u8>) -> bool {
    match member(s, outer) {
        None => false,
        Some(m) => match member(s.subrange(m.start, m.end), inner) {
            None => false,
            Some(n) => n.is_string,
        },
    }
}

// ---------------------------------------------------------------------------
// Bounds
// ---------------------------------------------------------------------------

/// Skipping white space never goes back, and stops at the end at the latest.
pub proof fn lemma_skip_ws(s: Seq<u8>, i: int)
    ensures
        skip_ws(s, i) >= i,
        0 <= i <= s.len() ==> skip_ws(s, i) <= s.len(),
        0 <= skip_ws(s, i) < s.len() ==> !is_ws(s[skip_ws(s, i)]),
        skip_ws(s, skip_ws(s, i)) == skip_ws(s, i),
    decreases s.len() - i,
{
    if 0 <= i < s.len() && is_ws(s[i]) {
        lemma_skip_ws(s, i + 1);
    }
}

/// A string literal ends inside the text, on a quote.
pub proof fn lemma_string_end(s: Seq<u8>, i: int)
    ensures
        string_end(s, i) matches Some(j) ==> 0 <= i < j <= s.len() && s[j - 1] == QUOTE,
    decreases s.len() - i,
{
    if 0 <= i < s.len() && s[i] != QUOTE {
        if s[i] == BACKSLASH {
            if i + 1 < s.len() {
                lemma_string_end(s, i + 2);
            }
        } else {
            lemma_string_end(s, i + 1);
        }
    }
}

/// A compound ends inside the text.
pub proof fn lemma_compound_end(s: Seq<u8>, i: int, close: u8, depth: nat)
    ensures
        compound_end(s, i, close, depth) matches Some(j) ==> 0 <= i < j <= s.len() && s[j - 1]
            == close,
    decreases s.len() - i,
{
    if 0 <= i < s.len() {
        if s[i] == QUOTE {
            lemma_string_end(s, i + 1);
            match string_end(s, i + 1) {
                Some(j) => {
                    lemma_compound_end(s, j, close, depth);
                },
                None => {},
            }
        } else if s[i] == OPEN_BRACE || s[i] == OPEN_BRACKET {
            if depth < MAX_DEPTH {
                lemma_compound_end(s, i + 1, closer(s[i]), depth + 1);
                match compound_end(s, i + 1, closer(s[i]), depth + 1) {
                    Some(j) => {
                        lemma_compound_end(s, j, close, depth);
                    },
                    None => {},
                }
            }
        } else if s[i] != close {
            lemma_compound_end(s, i + 1, close, depth);
        }
    }
}

/// A run of number bytes ends inside the text.
pub proof fn lemma_number_end(s: Seq<u8>, i: int)
    requires
        0 <= i <= s.len(),
    ensures
        i <= number_end(s, i) <= s.len(),
        i < s.len() && is_number_byte(s[i]) ==> i < number_end(s, i),
    decreases s.len() - i,
{
    if i < s.len() && is_number_byte(s[i]) {
        lemma_number_end(s, i + 1);
    }
}

/// A run of digits ends inside the text.
pub proof fn lemma_digits_end(s: Seq<u8>, i: int)
    requires
        0 <= i <= s.len(),
    ensures
        i <= digits_end(s, i) <= s.len(),
        i < s.len() && text::is_digit(s[i]) ==> i < digits_end(s, i),
    decreases s.len() - i,
{
    if i < s.len() && text::is_digit(s[i]) {
        lemma_digits_end(s, i + 1);
    }
}

/// A number starts with a digit or a minus.
proof fn lemma_number_first_byte(s: Seq<u8>)
    requires
        is_number(s),
    ensures
        s.len() > 0,
        text::is_digit(s[0]) || s[0] == 0x2d,
{
    lemma_digits_end(s, 0);
}

/// The three literals, byte by byte.
pub proof fn lemma_literals()
    ensures
        encode_utf8("true"@) == seq![0x74u8, 0x72, 0x75, 0x65],
        encode_utf8("false"@) == seq![0x66u8, 0x61, 0x6c, 0x73, 0x65],
        encode_utf8("null"@) == seq![0x6eu8, 0x75, 0x6c, 0x6c],
{
    reveal_strlit("true");
    reveal_strlit("false");
    reveal_strlit("null");
    is_ascii_chars_encode_utf8("true"@);
    is_ascii_chars_encode_utf8("false"@);
    is_ascii_chars_encode_utf8("null"@);
    assert(encode_utf8("true"@) =~= seq![0x74u8, 0x72, 0x75, 0x65]);
    assert(encode_utf8("false"@) =~= seq![0x66u8, 0x61, 0x6c, 0x73, 0x65]);
    assert(encode_utf8("null"@) =~= seq![0x6eu8, 0x75, 0x6c, 0x6c]);
}

/// A literal stands at `i` only where its first byte does.
proof fn lemma_literal_first_byte(s: Seq<u8>, i: int)
    requires
        0 <= i < s.len(),
    ensures
        text::occurs_at(s, encode_utf8("true"@), i) ==> s[i] == 0x74,
        text::occurs_at(s, encode_utf8("false"@), i) ==> s[i] == 0x66,
        text::occurs_at(s, encode_utf8("null"@), i) ==> s[i] == 0x6e,
{
    lemma_literals();
    if text::occurs_at(s, encode_utf8("true"@), i) {
        assert(s.subrange(i, i + 4)[0] == 0x74);
    }
    if text::occurs_at(s, encode_utf8("false"@), i) {
        assert(s.subrange(i, i + 5)[0] == 0x66);
    }
    if text::occurs_at(s, encode_utf8("null"@), i) {
        assert(s.subrange(i, i + 4)[0] == 0x6e);
    }
}

/// A value is not empty, and ends inside the text.
pub proof fn lemma_value_end(s: Seq<u8>, i: int)
    ensures
        value_end(s, i) matches Some(j) ==> 0 <= i < j <= s.len(),
        value_end(s, i) matches Some(j) ==> s[i] == QUOTE ==> i + 2 <= j,
{
    if 0 <= i < s.len() {
        lemma_string_end(s, i + 1);
        lemma_compound_end(s, i + 1, closer(s[i]), 1);
        lemma_number_end(s, i);
        lemma_literals();
        let run = s.subrange(i, number_end(s, i));
        if is_number(run) {
            lemma_number_first_byte(run);
        }
    }
}

/// A member that is found lies inside the text.
pub proof fn lemma_member_at(s: Seq<u8>, i: int)
    ensures
        member_at(s, i) matches Some(m) ==> 0 <= i < m.start < m.end <= s.len(),
        member_at(s, i) matches Some(m) ==> m.is_string == (s[m.start] == QUOTE),
        member_at(s, i) matches Some(m) ==> value_end(s, m.start) == Some(m.end),
{
    lemma_string_end(s, i + 1);
    match string_end(s, i + 1) {
        None => {},
        Some(j) => {
            lemma_skip_ws(s, j);
            let colon = skip_ws(s, j);
            lemma_skip_ws(s, colon + 1);
            lemma_value_end(s, skip_ws(s, colon + 1));
        },
    }
}

/// What `find_from` finds lies inside the text.
pub proof fn lemma_find_from(s: Seq<u8>, i: int, key: Seq<u8>)
    ensures
        find_from(s, i, key) matches Some(m) ==> 0 <= i < m.start < m.end <= s.len(),
        find_from(s, i, key) matches Some(m) ==> m.key == key,
        find_from(s, i, key) matches Some(m) ==> m.is_string == (s[m.start] == QUOTE),
        find_from(s, i, key) matches Some(m) ==> value_end(s, m.start) == Some(m.end),
    decreases s.len() - i,
{
    lemma_skip_ws(s, i);
    let at = skip_ws(s, i);
    if i >= 0 && at < s.len() && s[at] != CLOSE_BRACE {
        if s[at] == COMMA {
            lemma_find_from(s, at + 1, key);
        } else {
            lemma_member_at(s, at);
            match member_at(s, at) {
                None => {},
                Some(m) => {
                    if m.key != key {
                        lemma_find_from(s, m.end, key);
                    }
                },
            }
        }
    }
}

/// A member that is found lies inside the text, and its value is one JSON value.
pub proof fn lemma_member(s: Seq<u8>, key: Seq<u8>)
    ensures
        member(s, key) matches Some(m) ==> 0 < m.start < m.end <= s.len(),
        member(s, key) matches Some(m) ==> m.key == key,
        member(s, key) matches Some(m) ==> m.is_string == (s[m.start] == QUOTE),
        member(s, key) matches Some(m) ==> value_end(s, m.start) == Some(m.end),
        member(s, key) matches Some(m) ==> m.is_string ==> m.start + 2 <= m.end,
{
    let at = skip_ws(s, 0);
    lemma_skip_ws(s, 0);
    lemma_find_from(s, at + 1, key);
    match member(s, key) {
        Some(m) => {
            lemma_value_end(s, m.start);
        },
        None => {},
    }
}

// ---------------------------------------------------------------------------
// Numbers
// ---------------------------------------------------------------------------

/// The end of the run of digits that starts at `from`.
fn skip_digits(s: &[u8], from: usize) -> (end: usize)
    requires
        from <= s@.len(),
    ensures
        end == digits_end(s@, from as int),
        from <= end <= s.len(),
{
    let mut end = from;
    while end < s.len() && 0x30 <= s[end] && s[end] <= 0x39
        invariant
            from <= end <= s.len(),
            digits_end(s@, end as int) == digits_end(s@, from as int),
        decreases s.len() - end,
    {
        end += 1;
    }
    end
}

/// Whether a text is a JSON number.
fn number(s: &[u8]) -> (res: bool)
    ensures
        res == is_number(s@),
{
    let start: usize = if s.len() > 0 && s[0] == 0x2d {
        1
    } else {
        0
    };
    let mut end = skip_digits(s, start);
    if end == start || (s[start] == 0x30 && end > start + 1) {
        return false;
    }
    if end < s.len() && s[end] == 0x2e {
        let fraction = end + 1;
        end = skip_digits(s, fraction);
        if end == fraction {
            return false;
        }
    }
    if end < s.len() && (s[end] == 0x65 || s[end] == 0x45) {
        let mut exponent = end + 1;
        if exponent < s.len() && (s[exponent] == 0x2b || s[exponent] == 0x2d) {
            exponent += 1;
        }
        end = skip_digits(s, exponent);
        if end == exponent {
            return false;
        }
    }
    end == s.len()
}

// ---------------------------------------------------------------------------
// The scanner
// ---------------------------------------------------------------------------

/// A cursor over the payload bytes. Positions are absolute offsets into `input`, so a
/// span can be borrowed back out verbatim.
struct Scanner<'a> {
    input: &'a [u8],
    i: usize,
    depth: usize,
}

impl<'a> Scanner<'a> {
    /// The cursor stands inside the text or at its end.
    spec fn wf(self) -> bool {
        self.i <= self.input.len() && self.depth <= MAX_DEPTH
    }

    fn new(input: &'a [u8]) -> (s: Self)
        ensures
            s.wf(),
            s.input == input,
            s.i == 0,
            s.depth == 0,
    {
        Scanner { input, i: 0, depth: 0 }
    }

    fn peek(&self) -> (b: Option<u8>)
        ensures
            b == (if self.i < self.input@.len() {
                Some(self.input@[self.i as int])
            } else {
                None
            }),
    {
        if self.i < self.input.len() {
            Some(self.input[self.i])
        } else {
            None
        }
    }

    fn skip_ws(&mut self)
        requires
            old(self).wf(),
        ensures
            final(self).wf(),
            final(self).input == old(self).input,
            final(self).depth == old(self).depth,
            final(self).i == skip_ws(old(self).input@, old(self).i as int),
    {
        while self.i < self.input.len() && (self.input[self.i] == 0x20 || self.input[self.i] == 0x09
            || self.input[self.i] == 0x0a || self.input[self.i] == 0x0d)
            invariant
                self.wf(),
                self.input == old(self).input,
                self.depth == old(self).depth,
                skip_ws(self.input@, self.i as int) == skip_ws(
                    old(self).input@,
                    old(self).i as int,
                ),
            decreases self.input@.len() - self.i,
        {
            self.i += 1;
        }
    }

    /// Read a string literal at the cursor, returning its span including the quotes.
    /// `None` where none starts, which leaves the cursor where it is, or where it is not
    /// terminated.
    fn read_string(&mut self) -> (res: Option<&'a [u8]>)
        requires
            old(self).wf(),
        ensures
            final(self).wf(),
            final(self).input == old(self).input,
            final(self).depth == old(self).depth,
            ({
                let s = old(self).input@;
                let i = old(self).i as int;
                match literal_end(s, i) {
                    Some(j) => res matches Some(span) && span@ == s.subrange(i, j) && final(self).i
                        == j,
                    None => res is None && final(self).i == (if i < s.len() && s[i] == QUOTE {
                        s.len() as int
                    } else {
                        i
                    }),
                }
            }),
            final(self).i >= old(self).i,
    {
        if self.peek() != Some(QUOTE) {
            return None;
        }
        let start = self.i;
        self.i += 1;
        while self.i < self.input.len()
            invariant
                self.wf(),
                self.input == old(self).input,
                self.depth == old(self).depth,
                start == old(self).i,
                start < self.i,
                self.input@[start as int] == QUOTE,
                string_end(self.input@, self.i as int) == string_end(self.input@, start + 1),
            decreases self.input@.len() - self.i,
        {
            let b = self.input[self.i];
            if b == QUOTE {
                self.i += 1;
                return Some(&self.input[start..self.i]);
            }
            if b == BACKSLASH {
                self.i += 1;
                if self.i >= self.input.len() {
                    return None;
                }
            }
            self.i += 1;
        }
        None
    }

    fn skip_literal(&mut self, literal: &[u8]) -> (ok: bool)
        requires
            old(self).wf(),
        ensures
            final(self).wf(),
            final(self).input == old(self).input,
            final(self).depth == old(self).depth,
            ok == text::occurs_at(old(self).input@, literal@, old(self).i as int),
            final(self).i == (if ok {
                old(self).i + literal@.len()
            } else {
                old(self).i as int
            }),
    {
        if text::bytes_at(self.input, self.i, literal) {
            assert(self.i + literal.len() <= self.input.len());
            self.i += literal.len();
            true
        } else {
            false
        }
    }

    /// Advance past a run of number bytes. `false` where it is not a number.
    fn skip_number(&mut self) -> (ok: bool)
        requires
            old(self).wf(),
        ensures
            final(self).wf(),
            final(self).input == old(self).input,
            final(self).depth == old(self).depth,
            final(self).i == number_end(old(self).input@, old(self).i as int),
            ok == is_number(old(self).input@.subrange(old(self).i as int, final(self).i as int)),
            final(self).i >= old(self).i,
    {
        let start = self.i;
        while self.i < self.input.len() && ((0x30 <= self.input[self.i] && self.input[self.i]
            <= 0x39) || self.input[self.i] == 0x2d || self.input[self.i] == 0x2b
            || self.input[self.i] == 0x2e || self.input[self.i] == 0x65 || self.input[self.i]
            == 0x45)
            invariant
                self.wf(),
                self.input == old(self).input,
                self.depth == old(self).depth,
                start == old(self).i,
                start <= self.i,
                number_end(self.input@, self.i as int) == number_end(
                    old(self).input@,
                    old(self).i as int,
                ),
            decreases self.input@.len() - self.i,
        {
            self.i += 1;
        }
        number(&self.input[start..self.i])
    }

    /// Advance past a `{...}` or `[...]` compound whose opening bracket is at the
    /// cursor. `false` where it does not end, or nests too deep.
    fn skip_compound(&mut self, close: u8) -> (ok: bool)
        requires
            old(self).wf(),
            old(self).i < old(self).input@.len(),
        ensures
            final(self).wf(),
            final(self).input == old(self).input,
            ({
                let end = if old(self).depth >= MAX_DEPTH {
                    None
                } else {
                    compound_end(
                        old(self).input@,
                        old(self).i + 1,
                        close,
                        (old(self).depth + 1) as nat,
                    )
                };
                match end {
                    Some(j) => ok && final(self).i == j && final(self).depth == old(self).depth
                        && old(self).i + 2 <= j && old(self).input@[j - 1] == close,
                    None => !ok,
                }
            }),
            final(self).i >= old(self).i,
            final(self).depth >= old(self).depth,
            old(self).depth >= MAX_DEPTH ==> final(self).i == old(self).i && final(self).depth
                == old(self).depth,
        decreases old(self).input@.len() - old(self).i,
    {
        if self.depth >= MAX_DEPTH {
            return false;
        }
        self.depth += 1;
        self.i += 1;
        let ghost s = self.input@;
        let ghost depth = self.depth as nat;
        loop
            invariant
                self.wf(),
                self.input == old(self).input,
                s == self.input@,
                self.depth == old(self).depth + 1,
                depth == self.depth,
                old(self).i < self.i,
                compound_end(s, self.i as int, close, depth) == compound_end(
                    s,
                    old(self).i + 1,
                    close,
                    depth,
                ),
            decreases self.input@.len() - self.i,
        {
            match self.peek() {
                None => {
                    return false;
                },
                Some(b) => {
                    let ghost at = self.i as int;
                    if b == QUOTE {
                        if self.read_string().is_none() {
                            return false;
                        }
                        proof {
                            lemma_string_end(s, at + 1);
                        }
                    } else if b == OPEN_BRACE || b == OPEN_BRACKET {
                        proof {
                            if depth < MAX_DEPTH {
                                lemma_compound_end(s, at + 1, closer(b), depth + 1);
                            }
                        }
                        let nested: u8 = if b == OPEN_BRACE {
                            CLOSE_BRACE
                        } else {
                            CLOSE_BRACKET
                        };
                        if !self.skip_compound(nested) {
                            return false;
                        }
                    } else if b == close {
                        self.i += 1;
                        self.depth -= 1;
                        return true;
                    } else {
                        self.i += 1;
                    }
                },
            }
        }
    }

    /// Advance past one JSON value. `false` on malformed input or runaway nesting.
    fn skip_value(&mut self) -> (ok: bool)
        requires
            old(self).wf(),
            old(self).depth == 0,
        ensures
            final(self).wf(),
            final(self).input == old(self).input,
            match value_end(old(self).input@, skip_ws(old(self).input@, old(self).i as int)) {
                Some(j) => ok && final(self).i == j && final(self).depth == 0,
                None => !ok,
            },
            final(self).i >= old(self).i,
    {
        proof {
            lemma_skip_ws(self.input@, self.i as int);
        }
        self.skip_ws();
        match self.peek() {
            None => false,
            Some(b) => {
                proof {
                    lemma_literal_first_byte(self.input@, self.i as int);
                    lemma_literals();
                    lemma_number_end(self.input@, self.i as int);
                }
                if b == QUOTE {
                    self.read_string().is_some()
                } else if b == OPEN_BRACE {
                    self.skip_compound(CLOSE_BRACE)
                } else if b == OPEN_BRACKET {
                    self.skip_compound(CLOSE_BRACKET)
                } else if b == 0x74 {
                    self.skip_literal("true".as_bytes())
                } else if b == 0x66 {
                    self.skip_literal("false".as_bytes())
                } else if b == 0x6e {
                    self.skip_literal("null".as_bytes())
                } else if (0x30 <= b && b <= 0x39) || b == 0x2d {
                    self.skip_number()
                } else {
                    false
                }
            },
        }
    }
}

/// Locate a member of the JSON object at the start of `raw`: the span of its value, and
/// whether that value is a string literal.
fn find_member(raw: &[u8], key: &[u8]) -> (res: Option<(usize, usize, bool)>)
    ensures
        match member(raw@, key@) {
            Some(m) => res matches Some((start, end, is_string)) && start == m.start && end == m.end
                && is_string == m.is_string,
            None => res is None,
        },
{
    let mut s = Scanner::new(raw);
    s.skip_ws();
    if s.peek() != Some(OPEN_BRACE) {
        return None;
    }
    s.i += 1;
    loop
        invariant
            s.wf(),
            s.input == raw,
            s.depth == 0,
            member(raw@, key@) == find_from(raw@, s.i as int, key@),
        decreases raw@.len() - s.i,
    {
        proof {
            lemma_skip_ws(raw@, s.i as int);
        }
        s.skip_ws();
        let ghost at = s.i as int;
        match s.peek() {
            None => {
                return None;
            },
            Some(b) => {
                if b == CLOSE_BRACE {
                    return None;
                }
                if b == COMMA {
                    s.i += 1;
                    continue ;
                }
            },
        }
        proof {
            lemma_string_end(raw@, at + 1);
            lemma_member_at(raw@, at);
        }
        let found = match s.read_string() {
            Some(found) => found,
            None => {
                return None;
            },
        };
        let ghost past = s.i as int;
        let inner = &found[1..found.len() - 1];
        assert(inner@ == raw@.subrange(at + 1, past - 1));
        let matches = text::bytes_eq(inner, key);
        proof {
            lemma_skip_ws(raw@, past);
        }
        s.skip_ws();
        if s.peek() != Some(COLON) {
            return None;
        }
        s.i += 1;
        proof {
            lemma_skip_ws(raw@, s.i as int);
            lemma_value_end(raw@, skip_ws(raw@, s.i as int));
        }
        s.skip_ws();
        let is_string = s.peek() == Some(QUOTE);
        let start = s.i;
        if !s.skip_value() {
            return None;
        }
        if matches {
            return Some((start, s.i, is_string));
        }
    }
}

/// The value of a **top-level** string member, borrowed from the payload.
///
/// Scoped to the top level on purpose: a plain substring search for `"id"` would match
/// one nested in `choices[].delta.tool_calls[]` and hand back a tool-call id as if it
/// were the completion's. `None` when the payload is not an object, the key is absent,
/// or its value is not a plain unescaped string.
pub fn top_level_str<'a>(raw: &'a [u8], key: &[u8]) -> (res: Option<&'a str>)
    ensures
        match top_level_text(raw@, key@) {
            Some(value) => res matches Some(found) && found@ == value,
            None => res is None,
        },
{
    proof {
        lemma_member(raw@, key@);
    }
    match find_member(raw, key) {
        None => None,
        Some((start, end, is_string)) => {
            if !is_string {
                return None;
            }
            let body = &raw[start + 1..end - 1];
            let mut i: usize = 0;
            while i < body.len()
                invariant
                    i <= body@.len(),
                    forall|k: int| 0 <= k < i ==> body@[k] != BACKSLASH,
                    body@ == raw@.subrange(start + 1, end - 1),
                    member(raw@, key@) matches Some(m) && m.is_string && m.start == start && m.end
                        == end,
                decreases body@.len() - i,
            {
                // An escaped value would need unescaping to be usable as it stands.
                if body[i] == BACKSLASH {
                    assert(body@.contains(BACKSLASH));
                    return None;
                }
                i += 1;
            }
            match text::from_utf8(body) {
                Ok(value) => Some(value),
                Err(_) => None,
            }
        },
    }
}

/// Whether `raw` holds an `outer_key` object that itself holds a string `inner_key`:
/// the shape that marks a body as already speaking the OpenAI error envelope.
pub fn has_nested_string(raw: &[u8], outer_key: &[u8], inner_key: &[u8]) -> (res: bool)
    ensures
        res == nested_string(raw@, outer_key@, inner_key@),
{
    proof {
        lemma_member(raw@, outer_key@);
    }
    match find_member(raw, outer_key) {
        None => false,
        Some((start, end, _)) => match find_member(&raw[start..end], inner_key) {
            Some((_, _, is_string)) => is_string,
            None => false,
        },
    }
}

// ---------------------------------------------------------------------------
// Writing
// ---------------------------------------------------------------------------

/// One character as it stands between the quotes of a JSON string. Escaped is what
/// RFC 8259 requires: the quote, the backslash and every control character below 0x20.
pub open spec fn escaped_char(c: char) -> Seq<char> {
    if c == '"' {
        seq!['\\', '"']
    } else if c == '\\' {
        seq!['\\', '\\']
    } else if c == '\n' {
        seq!['\\', 'n']
    } else if c == '\r' {
        seq!['\\', 'r']
    } else if c == '\t' {
        seq!['\\', 't']
    } else if c == '\u{8}' {
        seq!['\\', 'b']
    } else if c == '\u{c}' {
        seq!['\\', 'f']
    } else if (c as u32) < 0x20 {
        seq![
            '\\',
            'u',
            '0',
            '0',
            text::hex_digit(((c as u32) / 16) as nat),
            text::hex_digit(((c as u32) % 16) as nat),
        ]
    } else {
        seq![c]
    }
}

/// A text as it stands between the quotes of a JSON string.
pub open spec fn escaped(s: Seq<char>) -> Seq<char>
    decreases s.len(),
{
    if s.len() == 0 {
        seq![]
    } else {
        escaped(s.drop_last()) + escaped_char(s.last())
    }
}

/// A text as a JSON string.
pub open spec fn json_string(s: Seq<char>) -> Seq<char> {
    seq!['"'] + escaped(s) + seq!['"']
}

/// Append `text` to `out` as a quoted JSON string.
///
/// The relay composes envelopes around arbitrary upstream error text, so this cannot
/// assume the input is safe to drop between quotes unexamined.
pub fn write_json_string(out: &mut String, text: &str)
    ensures
        final(out)@ == old(out)@ + json_string(text@),
{
    out.push('"');
    for c in it: text.chars()
        invariant
            it.seq() == text@,
            out@ == old(out)@ + (seq!['"'] + escaped(text@.take(it.index()))),
    {
        let ghost before = out@;
        let ghost so_far = text@.take(it.index());
        match c {
            '"' => {
                proof {
                    reveal_strlit("\\\"");
                }
                out.push_str("\\\"");
            },
            '\\' => {
                proof {
                    reveal_strlit("\\\\");
                }
                out.push_str("\\\\");
            },
            '\n' => {
                proof {
                    reveal_strlit("\\n");
                }
                out.push_str("\\n");
            },
            '\r' => {
                proof {
                    reveal_strlit("\\r");
                }
                out.push_str("\\r");
            },
            '\t' => {
                proof {
                    reveal_strlit("\\t");
                }
                out.push_str("\\t");
            },
            '\u{8}' => {
                proof {
                    reveal_strlit("\\b");
                }
                out.push_str("\\b");
            },
            '\u{c}' => {
                proof {
                    reveal_strlit("\\f");
                }
                out.push_str("\\f");
            },
            _ => {
                let n = c as u32;
                if n < 0x20 {
                    proof {
                        reveal_strlit("\\u00");
                    }
                    out.push_str("\\u00");
                    out.push(text::hex_char((n / 16) as u8));
                    out.push(text::hex_char((n % 16) as u8));
                } else {
                    out.push(c);
                }
            },
        }
        proof {
            assert(out@ == before + escaped_char(c));
            assert(text@.take(it.index() + 1).drop_last() == so_far);
            assert(text@.take(it.index() + 1).last() == c);
        }
    }
    assert(text@.take(text@.len() as int) == text@);
    out.push('"');
    assert(out@ == old(out)@ + json_string(text@));
}

// ---------------------------------------------------------------------------
// The depth guard
// ---------------------------------------------------------------------------

/// Whether `n` brackets are opened in a row from `i` on.
pub open spec fn opens(s: Seq<u8>, i: int, n: int) -> bool {
    0 <= i && i + n <= s.len() && forall|k: int|
        i <= k < i + n ==> #[trigger] s[k] == OPEN_BRACE || s[k] == OPEN_BRACKET
}

/// One level more than there may be is not read, whatever comes behind it.
proof fn lemma_too_deep(s: Seq<u8>, i: int, close: u8, depth: nat)
    requires
        depth <= MAX_DEPTH,
        opens(s, i, MAX_DEPTH - depth + 1),
    ensures
        compound_end(s, i, close, depth) is None,
    decreases MAX_DEPTH - depth,
{
    if depth < MAX_DEPTH {
        lemma_too_deep(s, i + 1, closer(s[i]), depth + 1);
    }
}

/// A value that is nested deeper than the scanner follows, which is sixty-four levels, is
/// declined, whatever is in it: the scanner does not recurse without bound.
pub proof fn law_deep_nesting_is_declined(s: Seq<u8>, i: int)
    requires
        opens(s, i, MAX_DEPTH + 1),
    ensures
        value_end(s, i) is None,
        MAX_DEPTH == 64,
{
    lemma_too_deep(s, i + 1, closer(s[i]), 1);
}

// ---------------------------------------------------------------------------
// What stands behind a found string
// ---------------------------------------------------------------------------

/// Whether two texts are the same up to `n`.
spec fn same_up_to(s: Seq<u8>, t: Seq<u8>, n: int) -> bool {
    0 <= n <= s.len() && n <= t.len() && forall|k: int| 0 <= k < n ==> #[trigger] s[k] == t[k]
}

/// White space that ends before `n` ends there in either text.
proof fn lemma_same_ws(s: Seq<u8>, t: Seq<u8>, n: int, i: int)
    requires
        same_up_to(s, t, n),
        0 <= i,
        skip_ws(s, i) < n,
    ensures
        skip_ws(t, i) == skip_ws(s, i),
    decreases s.len() - i,
{
    lemma_skip_ws(s, i);
    assert(s[i] == t[i]);
    if is_ws(s[i]) {
        lemma_same_ws(s, t, n, i + 1);
    }
}

/// A string literal that ends by `n` ends there in either text.
proof fn lemma_same_string(s: Seq<u8>, t: Seq<u8>, n: int, i: int)
    requires
        same_up_to(s, t, n),
        string_end(s, i) matches Some(j) && j <= n,
    ensures
        string_end(t, i) == string_end(s, i),
    decreases s.len() - i,
{
    lemma_string_end(s, i);
    assert(s[i] == t[i]);
    if s[i] == BACKSLASH {
        lemma_string_end(s, i + 2);
        lemma_same_string(s, t, n, i + 2);
    } else if s[i] != QUOTE {
        lemma_same_string(s, t, n, i + 1);
    }
}

/// A compound that ends by `n` ends there in either text.
proof fn lemma_same_compound(s: Seq<u8>, t: Seq<u8>, n: int, i: int, close: u8, depth: nat)
    requires
        same_up_to(s, t, n),
        compound_end(s, i, close, depth) matches Some(j) && j <= n,
    ensures
        compound_end(t, i, close, depth) == compound_end(s, i, close, depth),
    decreases s.len() - i,
{
    lemma_compound_end(s, i, close, depth);
    assert(s[i] == t[i]);
    if s[i] == QUOTE {
        let j = string_end(s, i + 1)->0;
        lemma_compound_end(s, j, close, depth);
        lemma_same_string(s, t, n, i + 1);
        lemma_same_compound(s, t, n, j, close, depth);
    } else if s[i] == OPEN_BRACE || s[i] == OPEN_BRACKET {
        let j = compound_end(s, i + 1, closer(s[i]), depth + 1)->0;
        lemma_compound_end(s, j, close, depth);
        lemma_same_compound(s, t, n, i + 1, closer(s[i]), depth + 1);
        lemma_same_compound(s, t, n, j, close, depth);
    } else if s[i] != close {
        lemma_same_compound(s, t, n, i + 1, close, depth);
    }
}

/// A run of number bytes that ends before `n` ends there in either text.
proof fn lemma_same_number(s: Seq<u8>, t: Seq<u8>, n: int, i: int)
    requires
        same_up_to(s, t, n),
        0 <= i,
        number_end(s, i) < n,
        i < s.len(),
    ensures
        number_end(t, i) == number_end(s, i),
    decreases s.len() - i,
{
    lemma_number_end(s, i);
    assert(s[i] == t[i]);
    if is_number_byte(s[i]) && i + 1 < s.len() {
        lemma_same_number(s, t, n, i + 1);
    }
}

/// A literal that ends by `n` stands in both texts or in neither.
proof fn lemma_same_literal(s: Seq<u8>, t: Seq<u8>, n: int, i: int, literal: Seq<u8>)
    requires
        same_up_to(s, t, n),
        0 <= i,
        i + literal.len() <= n,
    ensures
        text::occurs_at(t, literal, i) == text::occurs_at(s, literal, i),
{
    assert(s.subrange(i, i + literal.len()) =~= t.subrange(i, i + literal.len()));
}

/// A value that ends before `n`, or a string that ends by `n`, ends there in either text.
proof fn lemma_same_value(s: Seq<u8>, t: Seq<u8>, n: int, i: int)
    requires
        same_up_to(s, t, n),
        value_end(s, i) matches Some(j) && (j < n || (j == n && s[i] == QUOTE)),
    ensures
        value_end(t, i) == value_end(s, i),
{
    lemma_value_end(s, i);
    lemma_literals();
    lemma_literal_first_byte(s, i);
    lemma_literal_first_byte(t, i);
    assert(s[i] == t[i]);
    if s[i] == QUOTE {
        lemma_same_string(s, t, n, i + 1);
    } else if s[i] == OPEN_BRACE || s[i] == OPEN_BRACKET {
        lemma_same_compound(s, t, n, i + 1, closer(s[i]), 1);
    } else if text::occurs_at(s, encode_utf8("true"@), i) {
        lemma_same_literal(s, t, n, i, encode_utf8("true"@));
    } else if text::occurs_at(s, encode_utf8("false"@), i) {
        lemma_same_literal(s, t, n, i, encode_utf8("false"@));
    } else if text::occurs_at(s, encode_utf8("null"@), i) {
        lemma_same_literal(s, t, n, i, encode_utf8("null"@));
    } else {
        let end = number_end(s, i);
        lemma_number_end(s, i);
        lemma_same_number(s, t, n, i);
        lemma_number_first_byte(s.subrange(i, end));
        assert(s.subrange(i, end)[0] == s[i]);
        assert(s.subrange(i, end) =~= t.subrange(i, end));
    }
}

/// A member that ends before `n`, or a string member that ends by `n`, is the same in
/// either text.
proof fn lemma_same_member(s: Seq<u8>, t: Seq<u8>, n: int, i: int)
    requires
        same_up_to(s, t, n),
        member_at(s, i) matches Some(m) && (m.end < n || (m.end == n && m.is_string)),
    ensures
        member_at(t, i) == member_at(s, i),
{
    lemma_member_at(s, i);
    lemma_string_end(s, i + 1);
    let j = string_end(s, i + 1)->0;
    let colon = skip_ws(s, j);
    let start = skip_ws(s, colon + 1);
    lemma_skip_ws(s, j);
    lemma_skip_ws(s, colon + 1);
    assert(s[i] == t[i]);
    assert(s[colon] == t[colon]);
    assert(s[start] == t[start]);
    lemma_same_string(s, t, n, i + 1);
    lemma_same_ws(s, t, n, j);
    lemma_same_ws(s, t, n, colon + 1);
    lemma_same_value(s, t, n, start);
    assert(s.subrange(i + 1, j - 1) =~= t.subrange(i + 1, j - 1));
}

/// A string member that is found, and ends by `n`, is found in either text.
proof fn lemma_same_find(s: Seq<u8>, t: Seq<u8>, n: int, i: int, key: Seq<u8>)
    requires
        same_up_to(s, t, n),
        find_from(s, i, key) matches Some(m) && m.is_string && m.end <= n,
    ensures
        find_from(t, i, key) == find_from(s, i, key),
    decreases s.len() - i,
{
    lemma_find_from(s, i, key);
    lemma_skip_ws(s, i);
    let at = skip_ws(s, i);
    if s[at] == COMMA {
        lemma_find_from(s, at + 1, key);
        lemma_same_ws(s, t, n, i);
        assert(s[at] == t[at]);
        lemma_same_find(s, t, n, at + 1, key);
    } else {
        lemma_member_at(s, at);
        let m = member_at(s, at)->0;
        if m.key != key {
            lemma_find_from(s, m.end, key);
        }
        lemma_same_ws(s, t, n, i);
        assert(s[at] == t[at]);
        lemma_same_member(s, t, n, at);
        if m.key != key {
            lemma_same_find(s, t, n, m.end, key);
        }
    }
}

/// A string member that is found is a literal with its two quotes, and bytes behind it,
/// later members with the same key among them, never change the answer.
pub proof fn law_bytes_behind_a_found_string_do_not_matter(
    s: Seq<u8>,
    key: Seq<u8>,
    tail: Seq<u8>,
)
    requires
        member(s, key) is Some,
        member(s, key)->0.is_string,
    ensures
        ({
            let m = member(s, key)->0;
            &&& m.start + 2 <= m.end <= s.len()
            &&& s[m.start] == QUOTE
            &&& s[m.end - 1] == QUOTE
            &&& member(s.take(m.end) + tail, key) == Some(m)
        }),
{
    let m = member(s, key)->0;
    lemma_member(s, key);
    lemma_string_end(s, m.start + 1);
    let t = s.take(m.end) + tail;
    let at = skip_ws(s, 0);
    lemma_skip_ws(s, 0);
    lemma_find_from(s, at + 1, key);
    assert(same_up_to(s, t, m.end));
    lemma_same_ws(s, t, m.end, 0);
    assert(s[at] == t[at]);
    lemma_same_find(s, t, m.end, at + 1, key);
}

// ---------------------------------------------------------------------------
// What the grammar takes
// ---------------------------------------------------------------------------

/// How many backslashes stand in a row right before `k`, not counting any before `i`.
pub open spec fn backslashes_before(s: Seq<u8>, i: int, k: int) -> nat
    decreases k - i,
{
    if k <= i || k > s.len() || s[k - 1] != 0x5c {
        0
    } else {
        1 + backslashes_before(s, i, k - 1)
    }
}

/// From a place that no backslash escapes, a string runs to the first quote that none
/// escapes either.
proof fn lemma_string_from(s: Seq<u8>, i: int, p: int)
    requires
        0 <= i <= p,
        backslashes_before(s, i, p) % 2 == 0,
    ensures
        match string_end(s, p) {
            Some(j) => p < j <= s.len() && s[j - 1] == 0x22 && backslashes_before(s, i, j - 1) % 2
                == 0 && forall|k: int|
                p <= k < j - 1 && #[trigger] s[k] == 0x22 ==> backslashes_before(s, i, k) % 2 == 1,
            None => forall|k: int|
                p <= k < s.len() && #[trigger] s[k] == 0x22 ==> backslashes_before(s, i, k) % 2
                    == 1,
        },
    decreases s.len() - p,
{
    if p < s.len() && s[p] != 0x22 {
        if s[p] == 0x5c {
            assert(backslashes_before(s, i, p + 1) == 1 + backslashes_before(s, i, p));
            if p + 1 < s.len() {
                assert(s[p + 1] == 0x5c ==> backslashes_before(s, i, p + 2) == 2
                    + backslashes_before(s, i, p));
                lemma_string_from(s, i, p + 2);
            }
        } else {
            assert(backslashes_before(s, i, p + 1) == 0);
            lemma_string_from(s, i, p + 1);
        }
    }
}

/// A string literal whose contents start at `i` ends past its first bare quote, and a bare
/// quote is one with an even number of backslashes right before it; without one it does
/// not end.
pub proof fn law_strings_end_at_the_first_bare_quote(s: Seq<u8>, i: int)
    requires
        0 <= i,
    ensures
        match string_end(s, i) {
            Some(j) => i < j <= s.len() && s[j - 1] == 0x22 && backslashes_before(s, i, j - 1) % 2
                == 0 && forall|k: int|
                i <= k < j - 1 && #[trigger] s[k] == 0x22 ==> backslashes_before(s, i, k) % 2 == 1,
            None => forall|k: int|
                i <= k < s.len() && #[trigger] s[k] == 0x22 ==> backslashes_before(s, i, k) % 2
                    == 1,
        },
        literal_end(s, i) == (if i < s.len() && s[i] == 0x22 {
            string_end(s, i + 1)
        } else {
            None
        }),
{
    lemma_string_from(s, i, i);
}

/// The white space of JSON is the space, the tab, the newline and the carriage return, and
/// a run of it is skipped as a whole.
pub proof fn law_white_space_is_skipped(s: Seq<u8>, i: int, j: int)
    requires
        0 <= i <= j <= s.len(),
        forall|k: int|
            i <= k < j ==> #[trigger] s[k] == 0x20 || s[k] == 0x09 || s[k] == 0x0a || s[k] == 0x0d,
        j < s.len() ==> s[j] != 0x20 && s[j] != 0x09 && s[j] != 0x0a && s[j] != 0x0d,
    ensures
        skip_ws(s, i) == j,
    decreases j - i,
{
    if i < j {
        law_white_space_is_skipped(s, i + 1, j);
    }
}

/// A run of digits that ends at `j`.
proof fn lemma_digits_run(s: Seq<u8>, i: int, j: int)
    requires
        0 <= i <= j <= s.len(),
        forall|k: int| i <= k < j ==> 0x30 <= #[trigger] s[k] <= 0x39,
        j < s.len() ==> !(0x30 <= s[j] <= 0x39),
    ensures
        digits_end(s, i) == j,
    decreases j - i,
{
    if i < j {
        lemma_digits_run(s, i + 1, j);
    }
}

/// What lies in a run of digits is digits.
proof fn lemma_in_digits(s: Seq<u8>, i: int)
    requires
        0 <= i <= s.len(),
    ensures
        i <= digits_end(s, i) <= s.len(),
        forall|k: int| i <= k < digits_end(s, i) ==> 0x30 <= #[trigger] s[k] <= 0x39,
    decreases s.len() - i,
{
    if i < s.len() && text::is_digit(s[i]) {
        lemma_in_digits(s, i + 1);
    }
}

/// Whether a byte string is one or more digits.
pub open spec fn some_digits(s: Seq<u8>) -> bool {
    s.len() > 0 && forall|k: int| 0 <= k < s.len() ==> 0x30 <= #[trigger] s[k] <= 0x39
}

/// Whether four byte strings are the parts of a JSON number: a minus or nothing; an
/// integer without a leading zero; a point and digits, or nothing; a mark, a sign or
/// none, and digits, or nothing.
pub open spec fn number_parts(sign: Seq<u8>, whole: Seq<u8>, frac: Seq<u8>, exp: Seq<u8>) -> bool {
    &&& sign == Seq::<u8>::empty() || sign == seq![0x2du8]
    &&& some_digits(whole)
    &&& whole[0] == 0x30 ==> whole.len() == 1
    &&& frac.len() == 0 || (frac[0] == 0x2e && some_digits(frac.skip(1)))
    &&& exp.len() == 0 || ((exp[0] == 0x65 || exp[0] == 0x45) && (some_digits(exp.skip(1)) || (
    exp.len() > 1 && (exp[1] == 0x2b || exp[1] == 0x2d) && some_digits(exp.skip(2)))))
}

/// Put together, the parts of a number are a number.
pub proof fn law_parts_make_a_number(sign: Seq<u8>, whole: Seq<u8>, frac: Seq<u8>, exp: Seq<u8>)
    requires
        number_parts(sign, whole, frac, exp),
    ensures
        is_number(sign + whole + frac + exp),
{
    let s = sign + whole + frac + exp;
    let a = sign.len() as int;
    let b = a + whole.len();
    let c = b + frac.len();
    let d = c + exp.len();
    assert forall|k: int| a <= k < b implies 0x30 <= #[trigger] s[k] <= 0x39 by {
        assert(s[k] == whole[k - a]);
    }
    assert(s[a] == whole[0]);
    if frac.len() > 0 {
        assert(s[b] == frac[0]);
        assert forall|k: int| b + 1 <= k < c implies 0x30 <= #[trigger] s[k] <= 0x39 by {
            assert(s[k] == frac.skip(1)[k - b - 1]);
        }
    }
    if exp.len() > 0 {
        assert(s[c] == exp[0]);
        let from = if exp.len() > 1 && (exp[1] == 0x2b || exp[1] == 0x2d) {
            2int
        } else {
            1int
        };
        if exp.len() > 1 {
            assert(s[c + 1] == exp[1]);
            assert(exp.skip(1)[0] == exp[1]);
        }
        assert(some_digits(exp.skip(from)));
        assert forall|k: int| c + from <= k < d implies 0x30 <= #[trigger] s[k] <= 0x39 by {
            assert(s[k] == exp.skip(from)[k - c - from]);
        }
        assert(exponent_start(s, c) == c + from);
        lemma_digits_run(s, c + from, d);
        assert(exp.skip(from).len() > 0);
    }
    lemma_digits_run(s, a, b);
    if frac.len() > 0 {
        lemma_digits_run(s, b + 1, c);
    }
}

/// A number is made of the parts of a number, and of nothing else.
pub proof fn law_numbers_have_their_parts(s: Seq<u8>) -> (parts: (
    Seq<u8>,
    Seq<u8>,
    Seq<u8>,
    Seq<u8>,
))
    requires
        is_number(s),
    ensures
        number_parts(parts.0, parts.1, parts.2, parts.3),
        s == parts.0 + parts.1 + parts.2 + parts.3,
{
    let a: int = if s.len() > 0 && s[0] == 0x2d {
        1
    } else {
        0
    };
    lemma_in_digits(s, a);
    let b = digits_end(s, a);
    if b < s.len() && s[b] == 0x2e {
        lemma_in_digits(s, b + 1);
    }
    let c = if b < s.len() && s[b] == 0x2e {
        digits_end(s, b + 1)
    } else {
        b
    };
    if c < s.len() && is_exponent_mark(s[c]) {
        lemma_in_digits(s, exponent_start(s, c));
    }
    let sign = s.subrange(0, a);
    let whole = s.subrange(a, b);
    let frac = s.subrange(b, c);
    let exp = s.subrange(c, s.len() as int);
    assert(s =~= sign + whole + frac + exp);
    assert(sign =~= Seq::<u8>::empty() || sign =~= seq![0x2du8]);
    assert(some_digits(whole)) by {
        assert forall|k: int| 0 <= k < whole.len() implies 0x30 <= #[trigger] whole[k] <= 0x39 by {
            assert(whole[k] == s[a + k]);
        }
    }
    if frac.len() > 0 {
        let digits = frac.skip(1);
        assert forall|k: int| 0 <= k < digits.len() implies 0x30 <= #[trigger] digits[k]
            <= 0x39 by {
            assert(digits[k] == s[b + 1 + k]);
        }
    }
    if exp.len() > 0 {
        let from = exponent_start(s, c) - c;
        let digits = exp.skip(from);
        assert forall|k: int| 0 <= k < digits.len() implies 0x30 <= #[trigger] digits[k]
            <= 0x39 by {
            assert(digits[k] == s[c + from + k]);
        }
        assert(some_digits(digits));
    }
    (sign, whole, frac, exp)
}

/// A number holds number bytes and nothing else.
pub proof fn lemma_number_bytes(s: Seq<u8>)
    requires
        is_number(s),
    ensures
        s.len() > 0,
        text::is_digit(s[0]) || s[0] == 0x2d,
        forall|k: int| 0 <= k < s.len() ==> is_number_byte(#[trigger] s[k]),
{
    lemma_number_first_byte(s);
    let (sign, whole, frac, exp) = law_numbers_have_their_parts(s);
    let a = sign.len() as int;
    let b = a + whole.len();
    let c = b + frac.len();
    assert forall|k: int| 0 <= k < s.len() implies is_number_byte(#[trigger] s[k]) by {
        if k < a {
            assert(s[k] == sign[k]);
        } else if k < b {
            assert(s[k] == whole[k - a]);
        } else if k < c {
            assert(s[k] == frac[k - b]);
            if k > b {
                assert(s[k] == frac.skip(1)[k - b - 1]);
            }
        } else {
            assert(s[k] == exp[k - c]);
            if k > c {
                if some_digits(exp.skip(1)) {
                    assert(s[k] == exp.skip(1)[k - c - 1]);
                } else if k > c + 1 {
                    assert(s[k] == exp.skip(2)[k - c - 2]);
                }
            }
        }
    }
}

/// Only what must be escaped is: a quote, a backslash and the control characters. Every
/// other character is written as it is, and a text is written character by character
/// between two quotes.
pub proof fn law_only_what_must_be_is_escaped(c: char, front: Seq<char>)
    ensures
        c != '"' && c != '\\' && (c as u32) >= 0x20 ==> escaped_char(c) == seq![c],
        escaped_char('"') == seq!['\\', '"'],
        escaped_char('\\') == seq!['\\', '\\'],
        escaped_char('\n') == seq!['\\', 'n'],
        escaped_char('\r') == seq!['\\', 'r'],
        escaped_char('\t') == seq!['\\', 't'],
        escaped_char('\u{8}') == seq!['\\', 'b'],
        escaped_char('\u{c}') == seq!['\\', 'f'],
        (c as u32) < 0x20 && c != '\n' && c != '\r' && c != '\t' && c != '\u{8}' && c != '\u{c}'
            ==> escaped_char(c) == seq![
            '\\',
            'u',
            '0',
            '0',
            "0123456789abcdef"@[(c as u32) as int / 16],
            "0123456789abcdef"@[(c as u32) as int % 16],
        ],
        escaped(seq![]).len() == 0,
        escaped(front.push(c)) == escaped(front) + escaped_char(c),
        json_string(front) == seq!['"'] + escaped(front) + seq!['"'],
{
    assert(front.push(c).drop_last() =~= front);
    if (c as u32) < 0x20 {
        text::law_hex_digits_stand_in_order(((c as u32) / 16) as nat);
        text::law_hex_digits_stand_in_order(((c as u32) % 16) as nat);
    }
}

/// A value starts with a quote, a bracket, a letter of its word, a minus or a digit; and
/// a word is there as a whole.
pub proof fn law_nothing_else_is_a_value(s: Seq<u8>, i: int)
    requires
        0 <= i < s.len(),
    ensures
        value_end(s, i) is Some ==> s[i] == 0x22 || s[i] == 0x7b || s[i] == 0x5b || s[i] == 0x74
            || s[i] == 0x66 || s[i] == 0x6e || s[i] == 0x2d || 0x30 <= s[i] <= 0x39,
        s[i] == 0x74 && value_end(s, i) is Some ==> i + 4 <= s.len() && s.subrange(i, i + 4)
            == encode_utf8("true"@) && value_end(s, i) == Some(i + 4),
        s[i] == 0x66 && value_end(s, i) is Some ==> i + 5 <= s.len() && s.subrange(i, i + 5)
            == encode_utf8("false"@) && value_end(s, i) == Some(i + 5),
        s[i] == 0x6e && value_end(s, i) is Some ==> i + 4 <= s.len() && s.subrange(i, i + 4)
            == encode_utf8("null"@) && value_end(s, i) == Some(i + 4),
        (s[i] == 0x2d || 0x30 <= s[i] <= 0x39) && value_end(s, i) is Some ==> is_number(
            s.subrange(i, value_end(s, i)->0),
        ),
        s[i] == 0x22 ==> value_end(s, i) == string_end(s, i + 1),
{
    lemma_literals();
    lemma_literal_first_byte(s, i);
    let run = s.subrange(i, number_end(s, i));
    lemma_number_end(s, i);
    if is_number(run) {
        lemma_number_first_byte(run);
        assert(run[0] == s[i]);
    }
}

} // verus!
