//! JSON text that the relay composes, and what is read back of it: a written string says
//! what was put in, a written object has the members it was given and no others, and
//! text from outside cannot get out of its quotes.

use vstd::prelude::*;
use vstd::utf8::*;

use crate::convert;
use crate::convert::Member;
use crate::convert::{
    BACKSLASH, CLOSE_BRACE, CLOSE_BRACKET, COLON, COMMA, MAX_DEPTH, OPEN_BRACE, OPEN_BRACKET, QUOTE,
};
use crate::text;

verus! {

// ---------------------------------------------------------------------------
// Strings, as characters
// ---------------------------------------------------------------------------

/// The value of a hexadecimal digit.
pub open spec fn hex_value(c: char) -> Option<nat> {
    if '0' <= c <= '9' {
        Some((c as u32 - 0x30) as nat)
    } else if 'a' <= c <= 'f' {
        Some((c as u32 - 0x61 + 10) as nat)
    } else if 'A' <= c <= 'F' {
        Some((c as u32 - 0x41 + 10) as nat)
    } else {
        None
    }
}

/// The character that four hexadecimal digits stand for; none for half a surrogate pair.
pub open spec fn code_unit(a: char, b: char, c: char, d: char) -> Option<char> {
    match (hex_value(a), hex_value(b), hex_value(c), hex_value(d)) {
        (Some(w), Some(x), Some(y), Some(z)) => {
            let n = w * 0x1000 + x * 0x100 + y * 0x10 + z;
            if 0xd800 <= n <= 0xdfff {
                None
            } else {
                Some(n as char)
            }
        },
        _ => None,
    }
}

/// The character that a two-character escape stands for.
pub open spec fn short_escape(c: char) -> Option<char> {
    if c == '"' {
        Some('"')
    } else if c == '\\' {
        Some('\\')
    } else if c == '/' {
        Some('/')
    } else if c == 'b' {
        Some('\u{8}')
    } else if c == 'f' {
        Some('\u{c}')
    } else if c == 'n' {
        Some('\n')
    } else if c == 'r' {
        Some('\r')
    } else if c == 't' {
        Some('\t')
    } else {
        None
    }
}

/// The first character of what stands between the quotes of a JSON string, and how many
/// characters it takes up there; none where RFC 8259 allows no character to start so.
/// Surrogate pairs are left out.
pub open spec fn first_char(s: Seq<char>) -> Option<(char, int)> {
    if s.len() == 0 || s[0] == '"' || (s[0] as u32) < 0x20 {
        None
    } else if s[0] != '\\' {
        Some((s[0], 1))
    } else if s.len() >= 6 && s[1] == 'u' {
        match code_unit(s[2], s[3], s[4], s[5]) {
            Some(c) => Some((c, 6)),
            None => None,
        }
    } else if s.len() >= 2 {
        match short_escape(s[1]) {
            Some(c) => Some((c, 2)),
            None => None,
        }
    } else {
        None
    }
}

/// The text that stands between the quotes of a JSON string.
pub open spec fn unescaped(s: Seq<char>) -> Option<Seq<char>>
    decreases s.len(),
{
    if s.len() == 0 {
        Some(seq![])
    } else {
        match first_char(s) {
            None => None,
            Some((c, n)) => if 0 < n <= s.len() {
                match unescaped(s.skip(n)) {
                    Some(rest) => Some(seq![c] + rest),
                    None => None,
                }
            } else {
                None
            },
        }
    }
}

/// A text is escaped character by character, from the front as from the back.
pub proof fn lemma_escaped_front(t: Seq<char>)
    requires
        t.len() > 0,
    ensures
        convert::escaped(t) == convert::escaped_char(t[0]) + convert::escaped(t.drop_first()),
    decreases t.len(),
{
    if t.len() == 1 {
        assert(t.drop_last() =~= Seq::<char>::empty());
        assert(t.drop_first() =~= Seq::<char>::empty());
        assert(convert::escaped(t) =~= convert::escaped_char(t[0]) + convert::escaped(
            t.drop_first(),
        ));
    } else {
        let front = t.drop_last();
        lemma_escaped_front(front);
        assert(front.drop_first() == t.drop_first().drop_last());
        assert(convert::escaped(t) =~= convert::escaped_char(t[0]) + convert::escaped(
            t.drop_first(),
        ));
    }
}

/// An escaped character reads back as that character.
proof fn lemma_first_char(c: char, rest: Seq<char>)
    ensures
        first_char(convert::escaped_char(c) + rest) == Some(
            (c, convert::escaped_char(c).len() as int),
        ),
{
    let s = convert::escaped_char(c) + rest;
    if c != '"' && c != '\\' && c != '\n' && c != '\r' && c != '\t' && c != '\u{8}' && c
        != '\u{c}' && (c as u32) < 0x20 {
        let n = c as u32;
        let hi = text::hex_digit((n / 16) as nat);
        let lo = text::hex_digit((n % 16) as nat);
        assert(s[1] == 'u' && s[2] == '0' && s[3] == '0' && s[4] == hi && s[5] == lo);
        assert(hex_value(hi) == Some((n / 16) as nat));
        assert(hex_value(lo) == Some((n % 16) as nat));
        assert(code_unit('0', '0', hi, lo) == Some(c));
    } else {
        assert(s[0] == convert::escaped_char(c)[0]);
        if convert::escaped_char(c).len() == 2 {
            assert(s[1] == convert::escaped_char(c)[1]);
        }
    }
}

/// A JSON reader gets back of a written string exactly the text that was written.
pub proof fn law_strings_read_back(t: Seq<char>)
    ensures
        unescaped(convert::escaped(t)) == Some(t),
    decreases t.len(),
{
    if t.len() > 0 {
        let head = convert::escaped_char(t[0]);
        let tail = convert::escaped(t.drop_first());
        lemma_escaped_front(t);
        lemma_first_char(t[0], tail);
        law_strings_read_back(t.drop_first());
        assert((head + tail).skip(head.len() as int) =~= tail);
        assert(seq![t[0]] + t.drop_first() =~= t);
    }
}

// ---------------------------------------------------------------------------
// Strings, as bytes
// ---------------------------------------------------------------------------

/// Beyond ASCII, every byte of an encoding has its high bit set.
proof fn lemma_scalar_bytes(c: char)
    ensures
        (c as u32) >= 0x80 ==> forall|i: int|
            0 <= i < encode_scalar(c as u32).len() ==> #[trigger] encode_scalar(c as u32)[i] >= 0x80,
        (c as u32) < 0x80 ==> encode_scalar(c as u32) == seq![c as u8],
{
    let n = c as u32;
    char_is_scalar(c);
    assert(0xC0u8 | ((n >> 6) & 0x1F) as u8 >= 0x80) by (bit_vector);
    assert(0xE0u8 | ((n >> 12) & 0x0F) as u8 >= 0x80) by (bit_vector);
    assert(0xF0u8 | ((n >> 18) & 0x7) as u8 >= 0x80) by (bit_vector);
    assert(0x80u8 | (n & 0x3F) as u8 >= 0x80) by (bit_vector);
    assert(0x80u8 | ((n >> 6) & 0x3F) as u8 >= 0x80) by (bit_vector);
    assert(0x80u8 | ((n >> 12) & 0x3F) as u8 >= 0x80) by (bit_vector);
    if n < 0x80 {
        assert((n & 0x7F) as u8 == n as u8) by (bit_vector)
            requires
                n < 0x80,
        ;
        assert(encode_scalar(n) =~= seq![c as u8]);
    }
}

/// One character, encoded.
proof fn lemma_encode_one(c: char)
    ensures
        encode_utf8(seq![c]) == encode_scalar(c as u32),
{
    assert(seq![c].drop_first() =~= Seq::<char>::empty());
    assert(encode_utf8(Seq::<char>::empty()) =~= Seq::<u8>::empty());
    assert(encode_utf8(seq![c]) =~= encode_scalar(c as u32));
}

/// Bytes that are neither quote nor backslash are passed over inside a string.
pub proof fn lemma_string_run(s: Seq<u8>, i: int, j: int)
    requires
        0 <= i <= j <= s.len(),
        forall|k: int| i <= k < j ==> #[trigger] s[k] != QUOTE && s[k] != BACKSLASH,
    ensures
        convert::string_end(s, i) == convert::string_end(s, j),
    decreases j - i,
{
    if i < j {
        lemma_string_run(s, i + 1, j);
    }
}

/// The bytes of an escaped character are passed over inside a string, and none of them
/// is a control byte.
proof fn lemma_escaped_char_bytes(c: char, p: Seq<u8>, q: Seq<u8>)
    ensures
        ({
            let e = encode_utf8(convert::escaped_char(c));
            &&& convert::string_end(p + e + q, p.len() as int) == convert::string_end(
                p + e + q,
                (p.len() + e.len()) as int,
            )
            &&& forall|k: int| 0 <= k < e.len() ==> #[trigger] e[k] >= 0x20
        }),
{
    let chars = convert::escaped_char(c);
    let e = encode_utf8(chars);
    let s = p + e + q;
    let i = p.len() as int;
    if chars.len() == 1 {
        assert(chars =~= seq![c]);
        lemma_encode_one(c);
        lemma_scalar_bytes(c);
        assert forall|k: int| i <= k < i + e.len() implies #[trigger] s[k] != QUOTE && s[k]
            != BACKSLASH by {
            assert(s[k] == e[k - i]);
        }
        lemma_string_run(s, i, i + e.len());
    } else {
        assert(is_ascii_chars(chars));
        is_ascii_chars_encode_utf8(chars);
        assert(s[i] == e[0]);
        assert(s[i] == BACKSLASH);
        assert forall|k: int| i + 2 <= k < i + e.len() implies #[trigger] s[k] != QUOTE && s[k]
            != BACKSLASH by {
            assert(s[k] == e[k - i]);
            assert(e[k - i] == chars[k - i] as u8);
        }
        lemma_string_run(s, i + 2, i + e.len());
        assert forall|k: int| 0 <= k < e.len() implies #[trigger] e[k] >= 0x20 by {
            assert(e[k] == chars[k] as u8);
        }
    }
}

/// An escaped text is passed over inside a string, and none of its bytes is a control
/// byte.
pub proof fn lemma_escaped_bytes(t: Seq<char>, p: Seq<u8>, q: Seq<u8>)
    ensures
        ({
            let e = encode_utf8(convert::escaped(t));
            &&& convert::string_end(p + e + q, p.len() as int) == convert::string_end(
                p + e + q,
                (p.len() + e.len()) as int,
            )
            &&& forall|k: int| 0 <= k < e.len() ==> #[trigger] e[k] >= 0x20
        }),
    decreases t.len(),
{
    let e = encode_utf8(convert::escaped(t));
    if t.len() == 0 {
        assert(e =~= Seq::<u8>::empty());
        assert(p.len() + e.len() == p.len());
    } else {
        let front = encode_utf8(convert::escaped(t.drop_last()));
        let last = encode_utf8(convert::escaped_char(t.last()));
        text::lemma_encode_concat(
            convert::escaped(t.drop_last()),
            convert::escaped_char(t.last()),
        );
        assert(e == front + last);
        lemma_escaped_bytes(t.drop_last(), p, last + q);
        lemma_escaped_char_bytes(t.last(), p + front, q);
        assert(p + front + (last + q) =~= p + e + q);
        assert(p + front + last + q =~= p + e + q);
        assert forall|k: int| 0 <= k < e.len() implies #[trigger] e[k] >= 0x20 by {
            if k < front.len() {
                assert(e[k] == front[k]);
            } else {
                assert(e[k] == last[k - front.len()]);
            }
        }
    }
}

/// The bytes of a written JSON string.
pub open spec fn string_bytes(t: Seq<char>) -> Seq<u8> {
    encode_utf8(convert::json_string(t))
}

/// The bytes of a written JSON string: a quote, the escaped text, a quote.
pub proof fn lemma_string_bytes(t: Seq<char>)
    ensures
        string_bytes(t) == seq![QUOTE] + encode_utf8(convert::escaped(t)) + seq![QUOTE],
{
    text::lemma_encode_concat(seq!['"'] + convert::escaped(t), seq!['"']);
    text::lemma_encode_concat(seq!['"'], convert::escaped(t));
    lemma_encode_one('"');
    lemma_scalar_bytes('"');
}

/// Whatever the text: a written string ends at its own closing quote and nowhere before,
/// wherever it stands, and holds no control byte.
pub proof fn law_strings_stay_closed(t: Seq<char>, p: Seq<u8>, q: Seq<u8>)
    ensures
        convert::string_end(p + string_bytes(t) + q, (p.len() + 1) as int) == Some(
            (p.len() + string_bytes(t).len()) as int,
        ),
        forall|k: int| 0 <= k < string_bytes(t).len() ==> #[trigger] string_bytes(t)[k] >= 0x20,
        string_bytes(t)[0] == QUOTE,
        string_bytes(t).len() >= 2,
{
    let e = encode_utf8(convert::escaped(t));
    lemma_string_bytes(t);
    lemma_escaped_bytes(t, p + seq![QUOTE], seq![QUOTE] + q);
    let s = p + string_bytes(t) + q;
    assert(p + seq![QUOTE] + e + (seq![QUOTE] + q) =~= s);
    assert(s[(p.len() + 1 + e.len()) as int] == QUOTE);
    assert forall|k: int| 0 <= k < string_bytes(t).len() implies #[trigger] string_bytes(t)[k]
        >= 0x20 by {
        if 0 < k < e.len() + 1 {
            assert(string_bytes(t)[k] == e[k - 1]);
        }
    }
}

/// A written string is one whole string literal: read from its first byte it ends with
/// its last, and a JSON reader gets back the text that was written.
pub proof fn law_written_strings_read_whole(t: Seq<char>)
    ensures
        convert::literal_end(string_bytes(t), 0) == Some(string_bytes(t).len() as int),
        unescaped(convert::json_string(t).subrange(1, convert::json_string(t).len() - 1)) == Some(
            t,
        ),
{
    let none = Seq::<u8>::empty();
    law_strings_stay_closed(t, none, none);
    assert(none + string_bytes(t) + none =~= string_bytes(t));
    let written = convert::json_string(t);
    assert(written.subrange(1, written.len() - 1) =~= convert::escaped(t));
    law_strings_read_back(t);
}

// ---------------------------------------------------------------------------
// Values
// ---------------------------------------------------------------------------

/// Whether a byte closes a compound.
pub open spec fn is_close(b: u8) -> bool {
    b == CLOSE_BRACE || b == CLOSE_BRACKET
}

/// Whether a byte may follow a value inside a compound.
pub open spec fn follows_value(b: u8) -> bool {
    b == COMMA || is_close(b) || convert::is_ws(b)
}

/// Inside any compound, `v` is passed over as a whole, as long as there is room for `h`
/// more levels of nesting.
#[verifier::opaque]
pub open spec fn passed_over(v: Seq<u8>, h: nat) -> bool {
    forall|p: Seq<u8>, q: Seq<u8>, close: u8, depth: nat|
        is_close(close) && depth + h <= MAX_DEPTH ==> #[trigger] convert::compound_end(
            p + v + q,
            p.len() as int,
            close,
            depth,
        ) == convert::compound_end(p + v + q, (p.len() + v.len()) as int, close, depth)
}

/// Wherever `v` stands before the next member or a closing bracket, it reads as one
/// value.
#[verifier::opaque]
pub open spec fn reads_whole(v: Seq<u8>) -> bool {
    forall|p: Seq<u8>, q: Seq<u8>|
        q.len() > 0 && follows_value(q[0]) ==> #[trigger] convert::value_end(
            p + v + q,
            p.len() as int,
        ) == Some((p.len() + v.len()) as int)
}

/// The bytes of one JSON value of at most `h` levels of nesting.
pub open spec fn is_value(v: Seq<u8>, h: nat) -> bool {
    &&& v.len() > 0
    &&& !convert::is_ws(v[0])
    &&& passed_over(v, h)
    &&& reads_whole(v)
}

/// Inside a compound, bytes that open, close and quote nothing are passed over.
proof fn lemma_run(s: Seq<u8>, i: int, j: int, close: u8, depth: nat)
    requires
        0 <= i <= j <= s.len(),
        forall|k: int|
            i <= k < j ==> #[trigger] s[k] != QUOTE && s[k] != OPEN_BRACE && s[k] != OPEN_BRACKET
                && s[k] != close,
    ensures
        convert::compound_end(s, i, close, depth) == convert::compound_end(s, j, close, depth),
    decreases j - i,
{
    if i < j {
        lemma_run(s, i + 1, j, close, depth);
    }
}

/// Bytes that open, close and quote nothing are passed over wherever they stand.
pub proof fn lemma_plain_passed_over(v: Seq<u8>)
    requires
        forall|k: int|
            0 <= k < v.len() ==> #[trigger] v[k] != QUOTE && v[k] != OPEN_BRACE && v[k]
                != OPEN_BRACKET && v[k] != CLOSE_BRACE && v[k] != CLOSE_BRACKET,
    ensures
        passed_over(v, 0),
{
    reveal(passed_over);
    assert forall|p: Seq<u8>, q: Seq<u8>, close: u8, depth: nat|
        is_close(close) && depth + 0 <= MAX_DEPTH implies #[trigger] convert::compound_end(
        p + v + q,
        p.len() as int,
        close,
        depth,
    ) == convert::compound_end(p + v + q, (p.len() + v.len()) as int, close, depth) by {
        let s = p + v + q;
        assert forall|k: int| p.len() <= k < p.len() + v.len() implies #[trigger] s[k] != QUOTE
            && s[k] != OPEN_BRACE && s[k] != OPEN_BRACKET && s[k] != close by {
            assert(s[k] == v[k - p.len()]);
        }
        lemma_run(s, p.len() as int, (p.len() + v.len()) as int, close, depth);
    }
}

/// What is passed over at some room for nesting is passed over at more.
pub proof fn lemma_passed_over_more(v: Seq<u8>, h: nat, more: nat)
    requires
        passed_over(v, h),
        h <= more,
    ensures
        passed_over(v, more),
{
    reveal(passed_over);
}

/// Two pieces that are passed over are passed over together.
pub proof fn lemma_passed_over_concat(a: Seq<u8>, b: Seq<u8>, h: nat)
    requires
        passed_over(a, h),
        passed_over(b, h),
    ensures
        passed_over(a + b, h),
{
    reveal(passed_over);
    assert forall|p: Seq<u8>, q: Seq<u8>, close: u8, depth: nat|
        is_close(close) && depth + h <= MAX_DEPTH implies #[trigger] convert::compound_end(
        p + (a + b) + q,
        p.len() as int,
        close,
        depth,
    ) == convert::compound_end(
        p + (a + b) + q,
        (p.len() + (a + b).len()) as int,
        close,
        depth,
    ) by {
        let s = p + (a + b) + q;
        assert(s =~= p + a + (b + q));
        assert(s =~= (p + a) + b + q);
        assert(convert::compound_end(p + a + (b + q), p.len() as int, close, depth)
            == convert::compound_end(p + a + (b + q), (p.len() + a.len()) as int, close, depth));
        assert(convert::compound_end((p + a) + b + q, (p + a).len() as int, close, depth)
            == convert::compound_end(
            (p + a) + b + q,
            ((p + a).len() + b.len()) as int,
            close,
            depth,
        ));
    }
}

/// A value of some depth counts as one of more.
pub proof fn lemma_value_of_more(v: Seq<u8>, h: nat, more: nat)
    requires
        is_value(v, h),
        h <= more,
    ensures
        is_value(v, more),
{
    lemma_passed_over_more(v, h, more);
}

/// A written string is a value.
pub proof fn lemma_string_is_value(t: Seq<char>)
    ensures
        is_value(string_bytes(t), 0),
        string_bytes(t)[0] == QUOTE,
{
    let v = string_bytes(t);
    reveal(passed_over);
    reveal(reads_whole);
    law_strings_stay_closed(t, seq![], seq![]);
    assert forall|p: Seq<u8>, q: Seq<u8>, close: u8, depth: nat|
        is_close(close) && depth + 0 <= MAX_DEPTH implies #[trigger] convert::compound_end(
        p + v + q,
        p.len() as int,
        close,
        depth,
    ) == convert::compound_end(p + v + q, (p.len() + v.len()) as int, close, depth) by {
        law_strings_stay_closed(t, p, q);
        assert((p + v + q)[p.len() as int] == v[0]);
    }
    assert forall|p: Seq<u8>, q: Seq<u8>|
        q.len() > 0 && follows_value(q[0]) implies #[trigger] convert::value_end(
        p + v + q,
        p.len() as int,
    ) == Some((p.len() + v.len()) as int) by {
        law_strings_stay_closed(t, p, q);
        assert((p + v + q)[p.len() as int] == v[0]);
    }
}

/// `null` is a value.
pub proof fn lemma_null_is_value()
    ensures
        is_value(encode_utf8("null"@), 0),
        encode_utf8("null"@)[0] != QUOTE,
{
    let v = encode_utf8("null"@);
    convert::lemma_literals();
    lemma_plain_passed_over(v);
    reveal(reads_whole);
    assert forall|p: Seq<u8>, q: Seq<u8>|
        q.len() > 0 && follows_value(q[0]) implies #[trigger] convert::value_end(
        p + v + q,
        p.len() as int,
    ) == Some((p.len() + v.len()) as int) by {
        let s = p + v + q;
        let i = p.len() as int;
        assert(s[i] == v[0]);
        assert(s.subrange(i, i + 4) =~= v);
        if text::occurs_at(s, encode_utf8("true"@), i) {
            assert(s.subrange(i, i + 4)[0] == 0x74);
        }
        if text::occurs_at(s, encode_utf8("false"@), i) {
            assert(s.subrange(i, i + 5)[0] == 0x66);
        }
    }
}

/// `0` is a value.
pub proof fn lemma_zero_is_value()
    ensures
        is_value(encode_utf8("0"@), 0),
        encode_utf8("0"@)[0] != QUOTE,
{
    let v = encode_utf8("0"@);
    reveal_strlit("0");
    is_ascii_chars_encode_utf8("0"@);
    convert::lemma_literals();
    lemma_plain_passed_over(v);
    reveal(reads_whole);
    assert forall|p: Seq<u8>, q: Seq<u8>|
        q.len() > 0 && follows_value(q[0]) implies #[trigger] convert::value_end(
        p + v + q,
        p.len() as int,
    ) == Some((p.len() + v.len()) as int) by {
        let s = p + v + q;
        let i = p.len() as int;
        assert(s[i] == 0x30);
        assert(s[i + 1] == q[0]);
        if text::occurs_at(s, encode_utf8("true"@), i) {
            assert(s.subrange(i, i + 4)[0] == 0x74);
        }
        if text::occurs_at(s, encode_utf8("false"@), i) {
            assert(s.subrange(i, i + 5)[0] == 0x66);
        }
        if text::occurs_at(s, encode_utf8("null"@), i) {
            assert(s.subrange(i, i + 4)[0] == 0x6e);
        }
        assert(convert::number_end(s, i + 1) == i + 1);
        let run = s.subrange(i, i + 1);
        assert(run[0] == 0x30);
        assert(convert::digits_end(run, 1) == 1);
        assert(convert::digits_end(run, 0) == 1);
    }
}

// ---------------------------------------------------------------------------
// Objects
// ---------------------------------------------------------------------------

/// The bytes of a member.
pub open spec fn member_bytes(m: (Seq<char>, Seq<u8>)) -> Seq<u8> {
    string_bytes(m.0) + seq![COLON] + m.1
}

/// The bytes of members, with commas between them.
pub open spec fn members_bytes(ms: Seq<(Seq<char>, Seq<u8>)>) -> Seq<u8>
    decreases ms.len(),
{
    if ms.len() == 0 {
        seq![]
    } else if ms.len() == 1 {
        member_bytes(ms[0])
    } else {
        member_bytes(ms[0]) + seq![COMMA] + members_bytes(ms.drop_first())
    }
}

/// The bytes of an object, written without white space.
pub open spec fn object_bytes(ms: Seq<(Seq<char>, Seq<u8>)>) -> Seq<u8> {
    seq![OPEN_BRACE] + members_bytes(ms) + seq![CLOSE_BRACE]
}

/// The bytes of an array of one value.
pub open spec fn single_bytes(v: Seq<u8>) -> Seq<u8> {
    seq![OPEN_BRACKET] + v + seq![CLOSE_BRACKET]
}

/// Whether all members have values of at most `h` levels of nesting.
pub open spec fn are_members(ms: Seq<(Seq<char>, Seq<u8>)>, h: nat) -> bool {
    forall|i: int| 0 <= i < ms.len() ==> is_value((#[trigger] ms[i]).1, h)
}

/// The value of the first member with the given key, as a key is written.
pub open spec fn named(ms: Seq<(Seq<char>, Seq<u8>)>, key: Seq<u8>) -> Option<Seq<u8>>
    decreases ms.len(),
{
    if ms.len() == 0 {
        None
    } else if encode_utf8(convert::escaped(ms[0].0)) == key {
        Some(ms[0].1)
    } else {
        named(ms.drop_first(), key)
    }
}

/// Members are passed over.
proof fn lemma_members_passed_over(ms: Seq<(Seq<char>, Seq<u8>)>, h: nat)
    requires
        are_members(ms, h),
    ensures
        passed_over(members_bytes(ms), h),
    decreases ms.len(),
{
    if ms.len() == 0 {
        lemma_plain_passed_over(seq![]);
        lemma_passed_over_more(seq![], 0, h);
    } else {
        assert(is_value(ms[0].1, h));
        lemma_string_is_value(ms[0].0);
        lemma_passed_over_more(string_bytes(ms[0].0), 0, h);
        lemma_plain_passed_over(seq![COLON]);
        lemma_passed_over_more(seq![COLON], 0, h);
        lemma_passed_over_concat(string_bytes(ms[0].0), seq![COLON], h);
        lemma_passed_over_concat(string_bytes(ms[0].0) + seq![COLON], ms[0].1, h);
        if ms.len() > 1 {
            let rest = ms.drop_first();
            assert(are_members(rest, h)) by {
                assert forall|i: int| 0 <= i < rest.len() implies is_value(
                    (#[trigger] rest[i]).1,
                    h,
                ) by {
                    assert(rest[i] == ms[i + 1]);
                }
            }
            lemma_members_passed_over(rest, h);
            lemma_plain_passed_over(seq![COMMA]);
            lemma_passed_over_more(seq![COMMA], 0, h);
            lemma_passed_over_concat(member_bytes(ms[0]), seq![COMMA], h);
            lemma_passed_over_concat(member_bytes(ms[0]) + seq![COMMA], members_bytes(rest), h);
        }
    }
}

/// What is passed over makes a value when brackets are put around it.
pub proof fn lemma_bracketed(open: u8, v: Seq<u8>, h: nat)
    requires
        open == OPEN_BRACE || open == OPEN_BRACKET,
        passed_over(v, h),
        h < MAX_DEPTH,
    ensures
        is_value(seq![open] + v + seq![convert::closer(open)], h + 1),
{
    let close = convert::closer(open);
    let w = seq![open] + v + seq![close];
    reveal(passed_over);
    reveal(reads_whole);
    // From inside, the bracket that closes comes right after the contents.
    assert forall|p: Seq<u8>, q: Seq<u8>, depth: nat| depth + h <= MAX_DEPTH implies (
    #[trigger] convert::compound_end(p + w + q, (p.len() + 1) as int, close, depth)) == Some(
        (p.len() + w.len()) as int,
    ) by {
        let s = p + w + q;
        let front = p + seq![open];
        let back = seq![close] + q;
        assert(s =~= front + v + back);
        assert(convert::compound_end(front + v + back, front.len() as int, close, depth)
            == convert::compound_end(
            front + v + back,
            (front.len() + v.len()) as int,
            close,
            depth,
        ));
        assert(s[(front.len() + v.len()) as int] == close);
    }
    assert forall|p: Seq<u8>, q: Seq<u8>, outer: u8, depth: nat|
        is_close(outer) && depth + (h + 1) <= MAX_DEPTH implies #[trigger] convert::compound_end(
        p + w + q,
        p.len() as int,
        outer,
        depth,
    ) == convert::compound_end(p + w + q, (p.len() + w.len()) as int, outer, depth) by {
        let s = p + w + q;
        assert(s[p.len() as int] == open);
        assert(convert::compound_end(s, (p.len() + 1) as int, close, depth + 1) == Some(
            (p.len() + w.len()) as int,
        ));
    }
    assert forall|p: Seq<u8>, q: Seq<u8>|
        q.len() > 0 && follows_value(q[0]) implies #[trigger] convert::value_end(
        p + w + q,
        p.len() as int,
    ) == Some((p.len() + w.len()) as int) by {
        let s = p + w + q;
        assert(s[p.len() as int] == open);
        assert(convert::compound_end(s, (p.len() + 1) as int, close, 1) == Some(
            (p.len() + w.len()) as int,
        ));
    }
}

/// A written object is a value.
pub proof fn lemma_object_is_value(ms: Seq<(Seq<char>, Seq<u8>)>, h: nat)
    requires
        are_members(ms, h),
        h < MAX_DEPTH,
    ensures
        is_value(object_bytes(ms), h + 1),
        object_bytes(ms)[0] != QUOTE,
{
    lemma_members_passed_over(ms, h);
    lemma_bracketed(OPEN_BRACE, members_bytes(ms), h);
}

/// An array of one value is a value.
pub proof fn lemma_single_is_value(v: Seq<u8>, h: nat)
    requires
        is_value(v, h),
        h < MAX_DEPTH,
    ensures
        is_value(single_bytes(v), h + 1),
        single_bytes(v)[0] != QUOTE,
{
    lemma_bracketed(OPEN_BRACKET, v, h);
}

/// A written member reads back as its key and its value.
proof fn lemma_member_reads(m: (Seq<char>, Seq<u8>), h: nat, p: Seq<u8>, back: Seq<u8>)
    requires
        is_value(m.1, h),
        back.len() > 0,
        follows_value(back[0]),
    ensures
        ({
            let s = p + member_bytes(m) + back;
            let start = p.len() + string_bytes(m.0).len() + 1;
            let end = p.len() + member_bytes(m).len();
            &&& convert::member_at(s, p.len() as int) == Some(
                Member {
                    key: encode_utf8(convert::escaped(m.0)),
                    start: start as int,
                    end: end as int,
                    is_string: m.1[0] == QUOTE,
                },
            )
            &&& s.subrange(start as int, end as int) == m.1
        }),
{
    let s = p + member_bytes(m) + back;
    let i = p.len() as int;
    let k = string_bytes(m.0);
    let v = m.1;
    let j = i + k.len();
    let end = j + 1 + v.len();
    assert(convert::string_end(s, i + 1) == Some(j)) by {
        law_strings_stay_closed(m.0, p, seq![COLON] + v + back);
        assert(s =~= p + k + (seq![COLON] + v + back));
    }
    let written = encode_utf8(convert::escaped(m.0));
    assert(s[i] == QUOTE && s.subrange(i + 1, j - 1) == written) by {
        lemma_string_bytes(m.0);
        assert(s.subrange(i + 1, j - 1) =~= written);
    }
    assert(s[j] == COLON);
    assert(s[j + 1] == v[0]);
    assert(convert::value_end(s, j + 1) == Some(end)) by {
        reveal(reads_whole);
        let front = p + k + seq![COLON];
        assert(s =~= front + v + back);
        assert(convert::value_end(front + v + back, front.len() as int) == Some(
            (front.len() + v.len()) as int,
        ));
    }
    assert(convert::skip_ws(s, j) == j);
    assert(convert::skip_ws(s, j + 1) == j + 1);
    assert(s.subrange(j + 1, end) =~= v);
}

/// Where written members stand before a closing brace, the one that is looked for is
/// found, and no other.
proof fn lemma_find_in_members(
    ms: Seq<(Seq<char>, Seq<u8>)>,
    h: nat,
    p: Seq<u8>,
    q: Seq<u8>,
    key: Seq<u8>,
)
    requires
        are_members(ms, h),
        q.len() > 0,
        q[0] == CLOSE_BRACE,
    ensures
        ({
            let s = p + members_bytes(ms) + q;
            match named(ms, key) {
                Some(v) => convert::find_from(s, p.len() as int, key) matches Some(m)
                    && s.subrange(m.start, m.end) == v && m.is_string == (v[0] == QUOTE),
                None => convert::find_from(s, p.len() as int, key) is None,
            }
        }),
    decreases ms.len(),
{
    let s = p + members_bytes(ms) + q;
    let i = p.len() as int;
    if ms.len() == 0 {
        assert(s[i] == CLOSE_BRACE);
    } else {
        let rest = ms.drop_first();
        let one = member_bytes(ms[0]);
        let end = i + one.len();
        // What follows the first member.
        let back = if ms.len() == 1 {
            q
        } else {
            seq![COMMA] + members_bytes(rest) + q
        };
        assert(s =~= p + one + back);
        assert(is_value(ms[0].1, h));
        lemma_member_reads(ms[0], h, p, back);
        lemma_string_bytes(ms[0].0);
        assert(s[i] == QUOTE);
        assert(convert::skip_ws(s, i) == i);
        if encode_utf8(convert::escaped(ms[0].0)) != key {
            assert(are_members(rest, h)) by {
                assert forall|n: int| 0 <= n < rest.len() implies is_value(
                    (#[trigger] rest[n]).1,
                    h,
                ) by {
                    assert(rest[n] == ms[n + 1]);
                }
            }
            assert(convert::find_from(s, i, key) == convert::find_from(s, end, key));
            assert(s[end] == back[0]);
            assert(convert::skip_ws(s, end) == end);
            if ms.len() > 1 {
                let next = p + one + seq![COMMA];
                assert(s =~= next + members_bytes(rest) + q);
                lemma_find_in_members(rest, h, next, q, key);
                assert(convert::find_from(s, end, key) == convert::find_from(s, end + 1, key));
            } else {
                assert(named(rest, key) is None);
            }
        }
    }
}

/// Looking up a key in a written object finds the first member that was written under it,
/// value for value, and nothing where none was.
pub proof fn law_objects_read_back(ms: Seq<(Seq<char>, Seq<u8>)>, h: nat, key: Seq<u8>)
    requires
        are_members(ms, h),
    ensures
        match named(ms, key) {
            Some(v) => convert::member(object_bytes(ms), key) matches Some(m)
                && object_bytes(ms).subrange(m.start, m.end) == v && m.is_string == (v[0]
                == QUOTE),
            None => convert::member(object_bytes(ms), key) is None,
        },
{
    let s = object_bytes(ms);
    let p = seq![OPEN_BRACE];
    let q = seq![CLOSE_BRACE];
    assert(s[0] == OPEN_BRACE);
    lemma_find_in_members(ms, h, p, q, key);
}

// ---------------------------------------------------------------------------
// Objects, as characters
// ---------------------------------------------------------------------------

/// Whether a text needs no escaping.
pub open spec fn is_plain(t: Seq<char>) -> bool {
    forall|i: int|
        0 <= i < t.len() ==> #[trigger] t[i] != '"' && t[i] != '\\' && (t[i] as u32) >= 0x20
}

/// A text that needs no escaping is written as it is.
pub proof fn lemma_plain(t: Seq<char>)
    requires
        is_plain(t),
    ensures
        convert::escaped(t) == t,
        convert::json_string(t) == seq!['"'] + t + seq!['"'],
    decreases t.len(),
{
    if t.len() > 0 {
        lemma_plain(t.drop_last());
        assert(t[t.len() - 1] == t.last());
        assert(convert::escaped(t) =~= t);
    } else {
        assert(convert::escaped(t) =~= t);
    }
}

/// A member, as text.
pub open spec fn member_text(m: (Seq<char>, Seq<char>)) -> Seq<char> {
    convert::json_string(m.0) + seq![':'] + m.1
}

/// Members, as text.
pub open spec fn members_text(ms: Seq<(Seq<char>, Seq<char>)>) -> Seq<char>
    decreases ms.len(),
{
    if ms.len() == 0 {
        seq![]
    } else if ms.len() == 1 {
        member_text(ms[0])
    } else {
        member_text(ms[0]) + seq![','] + members_text(ms.drop_first())
    }
}

/// An object, as text.
pub open spec fn object_text(ms: Seq<(Seq<char>, Seq<char>)>) -> Seq<char> {
    seq!['{'] + members_text(ms) + seq!['}']
}

/// Members with their values encoded.
pub open spec fn encoded(ms: Seq<(Seq<char>, Seq<char>)>) -> Seq<(Seq<char>, Seq<u8>)> {
    ms.map_values(|m: (Seq<char>, Seq<char>)| (m.0, encode_utf8(m.1)))
}

/// One ASCII character, encoded.
proof fn lemma_encode_ascii(c: char, b: u8)
    requires
        (c as u32) < 0x80,
        c as u8 == b,
    ensures
        encode_utf8(seq![c]) == seq![b],
{
    lemma_encode_one(c);
    lemma_scalar_bytes(c);
}

/// Members encode to their bytes.
proof fn lemma_encode_members(ms: Seq<(Seq<char>, Seq<char>)>)
    ensures
        encode_utf8(members_text(ms)) == members_bytes(encoded(ms)),
    decreases ms.len(),
{
    if ms.len() == 0 {
        assert(members_text(ms) =~= Seq::<char>::empty());
        assert(encode_utf8(Seq::<char>::empty()) =~= Seq::<u8>::empty());
    } else {
        let m = ms[0];
        let key = convert::json_string(m.0);
        lemma_encode_ascii(':', COLON);
        text::lemma_encode_concat(key, seq![':']);
        text::lemma_encode_concat(key + seq![':'], m.1);
        assert(encode_utf8(member_text(m)) == member_bytes(encoded(ms)[0]));
        if ms.len() > 1 {
            let rest = ms.drop_first();
            lemma_encode_members(rest);
            assert(encoded(ms).drop_first() =~= encoded(rest));
            lemma_encode_ascii(',', COMMA);
            text::lemma_encode_concat(member_text(m), seq![',']);
            text::lemma_encode_concat(member_text(m) + seq![','], members_text(rest));
        }
    }
}

/// An object encodes to its bytes.
pub proof fn lemma_encode_object(ms: Seq<(Seq<char>, Seq<char>)>)
    ensures
        encode_utf8(object_text(ms)) == object_bytes(encoded(ms)),
{
    lemma_encode_members(ms);
    lemma_encode_ascii('{', OPEN_BRACE);
    lemma_encode_ascii('}', CLOSE_BRACE);
    text::lemma_encode_concat(seq!['{'], members_text(ms));
    text::lemma_encode_concat(seq!['{'] + members_text(ms), seq!['}']);
}

/// An array of one value encodes to its bytes.
pub proof fn lemma_encode_single(t: Seq<char>)
    ensures
        encode_utf8(seq!['['] + t + seq![']']) == single_bytes(encode_utf8(t)),
{
    lemma_encode_ascii('[', OPEN_BRACKET);
    lemma_encode_ascii(']', CLOSE_BRACKET);
    text::lemma_encode_concat(seq!['['], t);
    text::lemma_encode_concat(seq!['['] + t, seq![']']);
}

/// Two members, written out.
pub proof fn lemma_two_members(a: (Seq<char>, Seq<char>), b: (Seq<char>, Seq<char>))
    ensures
        members_text(seq![a, b]) == member_text(a) + seq![','] + member_text(b),
{
    assert(seq![a, b].drop_first() =~= seq![b]);
    assert(members_text(seq![b]) == member_text(b));
}

/// The first of several members, and the others.
pub proof fn lemma_first_member(ms: Seq<(Seq<char>, Seq<char>)>)
    requires
        ms.len() > 1,
    ensures
        members_text(ms) == member_text(ms[0]) + seq![','] + members_text(ms.drop_first()),
{
}

/// Five members behind what comes before, one after the other.
pub proof fn lemma_five_members(ms: Seq<(Seq<char>, Seq<char>)>, p: Seq<char>)
    requires
        ms.len() == 5,
    ensures
        p + members_text(ms) == p + member_text(ms[0]) + seq![',']
            + member_text(ms[1]) + seq![','] + member_text(ms[2]) + seq![',']
            + member_text(ms[3]) + seq![','] + member_text(ms[4]),
{
    lemma_first_member(ms);
    lemma_first_member(ms.drop_first());
    lemma_first_member(ms.drop_first().drop_first());
    assert(ms.drop_first().drop_first().drop_first() =~= seq![ms[3], ms[4]]);
    lemma_two_members(ms[3], ms[4]);
    let a = member_text(ms[0]);
    let b = member_text(ms[1]);
    let c = member_text(ms[2]);
    let d = member_text(ms[3]);
    let e = member_text(ms[4]);
    let comma = seq![','];
    assert(p + (a + comma + (b + comma + (c + comma + (d + comma + e)))) =~= p + a + comma + b
        + comma + c + comma + d + comma + e);
}

// ---------------------------------------------------------------------------
// Reading a written member
// ---------------------------------------------------------------------------

/// No other character than the backslash has a backslash in its encoding.
proof fn lemma_no_backslash(c: char)
    requires
        c != '\\',
    ensures
        forall|k: int|
            0 <= k < encode_utf8(seq![c]).len() ==> #[trigger] encode_utf8(seq![c])[k] != BACKSLASH,
{
    lemma_encode_one(c);
    lemma_scalar_bytes(c);
}

/// A text that needs no escaping encodes without a backslash.
proof fn lemma_plain_bytes(t: Seq<char>)
    requires
        is_plain(t),
    ensures
        forall|k: int| 0 <= k < encode_utf8(t).len() ==> #[trigger] encode_utf8(t)[k] != BACKSLASH,
    decreases t.len(),
{
    let e = encode_utf8(t);
    if t.len() > 0 {
        let front = t.drop_last();
        let c = t[t.len() - 1];
        lemma_plain_bytes(front);
        lemma_no_backslash(c);
        text::lemma_encode_concat(front, seq![c]);
        assert(t =~= front + seq![c]);
        let n = encode_utf8(front).len() as int;
        assert forall|k: int| 0 <= k < e.len() implies #[trigger] e[k] != BACKSLASH by {
            if k < n {
                assert(e[k] == encode_utf8(front)[k]);
            } else {
                assert(e[k] == encode_utf8(seq![c])[k - n]);
            }
        }
    }
}

/// A text that needs no escaping, written as a member of an object, is read back as it is
/// by the scanner that looks for single members.
pub proof fn law_plain_members_read_back(
    ms: Seq<(Seq<char>, Seq<u8>)>,
    h: nat,
    key: Seq<u8>,
    t: Seq<char>,
)
    requires
        are_members(ms, h),
        named(ms, key) == Some(string_bytes(t)),
        is_plain(t),
    ensures
        convert::top_level_text(object_bytes(ms), key) == Some(t),
{
    let s = object_bytes(ms);
    law_objects_read_back(ms, h, key);
    lemma_string_bytes(t);
    lemma_plain(t);
    lemma_plain_bytes(t);
    let m = convert::member(s, key)->0;
    let value = s.subrange(m.start, m.end);
    let body = s.subrange(m.start + 1, m.end - 1);
    convert::lemma_member(s, key);
    assert(value[0] == QUOTE);
    assert(body =~= value.subrange(1, value.len() - 1));
    assert(body =~= encode_utf8(t));
    encode_utf8_valid_utf8(t);
    encode_utf8_decode_utf8(t);
}

/// An object whose first value is nested deeper than the scanner follows gives up no
/// member, whichever is looked for and whatever stands behind that value.
pub proof fn law_deep_objects_are_declined(name: Seq<char>, rest: Seq<u8>, key: Seq<u8>)
    requires
        convert::opens(rest, 0, MAX_DEPTH + 1),
    ensures
        convert::member(seq![OPEN_BRACE] + string_bytes(name) + seq![COLON] + rest, key) is None,
{
    let p = seq![OPEN_BRACE];
    let k = string_bytes(name);
    let s = p + k + seq![COLON] + rest;
    let j = (1 + k.len()) as int;
    assert(s =~= p + k + (seq![COLON] + rest));
    law_strings_stay_closed(name, p, seq![COLON] + rest);
    assert(s[0] == OPEN_BRACE);
    assert(s[1] == k[0]);
    assert(s[j] == COLON);
    assert(s[j + 1] == rest[0]);
    assert forall|i: int| j + 1 <= i < j + 1 + (MAX_DEPTH + 1) implies #[trigger] s[i] == OPEN_BRACE
        || s[i] == OPEN_BRACKET by {
        assert(s[i] == rest[i - j - 1]);
    }
    convert::law_deep_nesting_is_declined(s, j + 1);
    assert(convert::skip_ws(s, 0) == 0);
    assert(convert::skip_ws(s, 1) == 1);
    assert(convert::skip_ws(s, j) == j);
    assert(convert::skip_ws(s, j + 1) == j + 1);
    assert(convert::member_at(s, 1) is None);
}

} // verus!
