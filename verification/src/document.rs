//! JSON as others write it: with white space between its tokens, members in any order,
//! and values of every shape. What is read of such a text is what stands in it.

use vstd::prelude::*;
use vstd::utf8::*;

use crate::convert;
use crate::convert::Member;
use crate::convert::{
    BACKSLASH, CLOSE_BRACE, CLOSE_BRACKET, COLON, COMMA, MAX_DEPTH, OPEN_BRACE, OPEN_BRACKET, QUOTE,
};
use crate::object;
use crate::text;

verus! {

// ---------------------------------------------------------------------------
// Values
// ---------------------------------------------------------------------------

/// Whether a byte string is white space of JSON and nothing else.
pub open spec fn is_space(w: Seq<u8>) -> bool {
    forall|k: int|
        0 <= k < w.len() ==> #[trigger] w[k] == 0x20 || w[k] == 0x09 || w[k] == 0x0a || w[k] == 0x0d
}

/// White space is passed over.
proof fn lemma_space_passed_over(w: Seq<u8>, h: nat)
    requires
        is_space(w),
    ensures
        object::passed_over(w, h),
{
    object::lemma_plain_passed_over(w);
    object::lemma_passed_over_more(w, 0, h);
}

/// A string literal is the same string behind anything and before anything.
proof fn lemma_string_shift(p: Seq<u8>, r: Seq<u8>, q: Seq<u8>, i: int)
    requires
        0 <= i,
        convert::string_end(r, i) is Some,
    ensures
        convert::string_end(p + r + q, p.len() + i) == Some(
            p.len() + convert::string_end(r, i)->0,
        ),
    decreases r.len() - i,
{
    let s = p + r + q;
    assert(s[p.len() + i] == r[i]);
    if r[i] == BACKSLASH {
        lemma_string_shift(p, r, q, i + 2);
    } else if r[i] != QUOTE {
        lemma_string_shift(p, r, q, i + 1);
    }
}

/// The bytes of a string literal with these contents, as they stand.
pub open spec fn quoted(raw: Seq<u8>) -> Seq<u8> {
    seq![QUOTE] + raw + seq![QUOTE]
}

/// Whether raw contents stay inside their quotes: the first bare quote is the closing one.
pub open spec fn stays_quoted(raw: Seq<u8>) -> bool {
    convert::string_end(raw + seq![QUOTE], 0) == Some((raw.len() + 1) as int)
}

/// A string literal is a value.
pub proof fn law_quoted_strings_are_values(raw: Seq<u8>)
    requires
        stays_quoted(raw),
    ensures
        object::is_value(quoted(raw), 0),
        quoted(raw)[0] == QUOTE,
{
    let v = quoted(raw);
    let r = raw + seq![QUOTE];
    reveal(object::passed_over);
    reveal(object::reads_whole);
    assert forall|p: Seq<u8>, q: Seq<u8>, close: u8, depth: nat|
        object::is_close(close) && depth + 0 <= MAX_DEPTH implies #[trigger] convert::compound_end(
        p + v + q,
        p.len() as int,
        close,
        depth,
    ) == convert::compound_end(p + v + q, (p.len() + v.len()) as int, close, depth) by {
        let front = p + seq![QUOTE];
        lemma_string_shift(front, r, q, 0);
        assert(p + v + q =~= front + r + q);
        assert((p + v + q)[p.len() as int] == v[0]);
    }
    assert forall|p: Seq<u8>, q: Seq<u8>|
        q.len() > 0 && object::follows_value(q[0]) implies #[trigger] convert::value_end(
        p + v + q,
        p.len() as int,
    ) == Some((p.len() + v.len()) as int) by {
        let front = p + seq![QUOTE];
        lemma_string_shift(front, r, q, 0);
        assert(p + v + q =~= front + r + q);
        assert((p + v + q)[p.len() as int] == v[0]);
    }
}

/// Contents without a quote and a backslash stay inside their quotes.
pub proof fn law_bare_text_stays_quoted(raw: Seq<u8>)
    requires
        forall|k: int| 0 <= k < raw.len() ==> #[trigger] raw[k] != QUOTE && raw[k] != BACKSLASH,
    ensures
        stays_quoted(raw),
{
    let r = raw + seq![QUOTE];
    assert forall|k: int| 0 <= k < raw.len() implies #[trigger] r[k] != QUOTE && r[k]
        != BACKSLASH by {
        assert(r[k] == raw[k]);
    }
    object::lemma_string_run(r, 0, raw.len() as int);
}

/// A run of number bytes that ends at `j`.
proof fn lemma_number_run(s: Seq<u8>, i: int, j: int)
    requires
        0 <= i <= j < s.len(),
        forall|k: int| i <= k < j ==> convert::is_number_byte(#[trigger] s[k]),
        !convert::is_number_byte(s[j]),
    ensures
        convert::number_end(s, i) == j,
    decreases j - i,
{
    if i < j {
        lemma_number_run(s, i + 1, j);
    }
}

/// A number is a value.
pub proof fn law_numbers_are_values(v: Seq<u8>)
    requires
        convert::is_number(v),
    ensures
        object::is_value(v, 0),
        v[0] != QUOTE,
{
    convert::lemma_number_bytes(v);
    convert::lemma_literals();
    assert forall|k: int| 0 <= k < v.len() implies #[trigger] v[k] != QUOTE && v[k] != OPEN_BRACE
        && v[k] != OPEN_BRACKET && v[k] != CLOSE_BRACE && v[k] != CLOSE_BRACKET by {
        assert(convert::is_number_byte(v[k]));
    }
    object::lemma_plain_passed_over(v);
    reveal(object::reads_whole);
    assert forall|p: Seq<u8>, q: Seq<u8>|
        q.len() > 0 && object::follows_value(q[0]) implies #[trigger] convert::value_end(
        p + v + q,
        p.len() as int,
    ) == Some((p.len() + v.len()) as int) by {
        let s = p + v + q;
        let i = p.len() as int;
        let j = i + v.len();
        assert(s[i] == v[0]);
        assert(s[j] == q[0]);
        assert forall|k: int| i <= k < j implies convert::is_number_byte(#[trigger] s[k]) by {
            assert(s[k] == v[k - i]);
        }
        lemma_number_run(s, i, j);
        assert(s.subrange(i, j) =~= v);
        if text::occurs_at(s, encode_utf8("true"@), i) {
            assert(s.subrange(i, i + 4)[0] == 0x74);
        }
        if text::occurs_at(s, encode_utf8("false"@), i) {
            assert(s.subrange(i, i + 5)[0] == 0x66);
        }
        if text::occurs_at(s, encode_utf8("null"@), i) {
            assert(s.subrange(i, i + 4)[0] == 0x6e);
        }
    }
}

/// `true`, `false` and `null` are values.
pub proof fn law_flags_are_values()
    ensures
        object::is_value(encode_utf8("true"@), 0),
        encode_utf8("true"@)[0] != QUOTE,
        object::is_value(encode_utf8("false"@), 0),
        encode_utf8("false"@)[0] != QUOTE,
        object::is_value(encode_utf8("null"@), 0),
        encode_utf8("null"@)[0] != QUOTE,
{
    object::lemma_null_is_value();
    let v = encode_utf8("true"@);
    let w = encode_utf8("false"@);
    convert::lemma_literals();
    object::lemma_plain_passed_over(v);
    object::lemma_plain_passed_over(w);
    reveal(object::reads_whole);
    assert forall|p: Seq<u8>, q: Seq<u8>|
        q.len() > 0 && object::follows_value(q[0]) implies #[trigger] convert::value_end(
        p + v + q,
        p.len() as int,
    ) == Some((p.len() + v.len()) as int) by {
        let s = p + v + q;
        let i = p.len() as int;
        assert(s[i] == v[0]);
        assert(s.subrange(i, i + 4) =~= v);
    }
    assert forall|p: Seq<u8>, q: Seq<u8>|
        q.len() > 0 && object::follows_value(q[0]) implies #[trigger] convert::value_end(
        p + w + q,
        p.len() as int,
    ) == Some((p.len() + w.len()) as int) by {
        let s = p + w + q;
        let i = p.len() as int;
        assert(s[i] == w[0]);
        assert(s.subrange(i, i + 5) =~= w);
        if text::occurs_at(s, encode_utf8("true"@), i) {
            assert(s.subrange(i, i + 4)[0] == 0x74);
        }
    }
}

/// An element of an array: white space, a value, white space.
pub struct Element {
    pub before: Seq<u8>,
    pub value: Seq<u8>,
    pub behind: Seq<u8>,
}

/// The bytes of elements, with commas between them.
pub open spec fn elements_bytes(es: Seq<Element>) -> Seq<u8>
    decreases es.len(),
{
    if es.len() == 0 {
        seq![]
    } else {
        let one = es[0].before + es[0].value + es[0].behind;
        if es.len() == 1 {
            one
        } else {
            one + seq![COMMA] + elements_bytes(es.drop_first())
        }
    }
}

/// Whether elements hold white space and values of at most `h` levels of nesting.
pub open spec fn are_elements(es: Seq<Element>, h: nat) -> bool {
    forall|i: int|
        0 <= i < es.len() ==> is_space((#[trigger] es[i]).before) && is_space(es[i].behind)
            && object::is_value(es[i].value, h)
}

/// Elements are passed over.
proof fn lemma_elements_passed_over(es: Seq<Element>, h: nat)
    requires
        are_elements(es, h),
    ensures
        object::passed_over(elements_bytes(es), h),
    decreases es.len(),
{
    if es.len() == 0 {
        lemma_space_passed_over(seq![], h);
    } else {
        let e = es[0];
        lemma_space_passed_over(e.before, h);
        lemma_space_passed_over(e.behind, h);
        object::lemma_passed_over_concat(e.before, e.value, h);
        object::lemma_passed_over_concat(e.before + e.value, e.behind, h);
        if es.len() > 1 {
            let rest = es.drop_first();
            assert forall|i: int| 0 <= i < rest.len() implies is_space((#[trigger] rest[i]).before)
                && is_space(rest[i].behind) && object::is_value(rest[i].value, h) by {
                assert(rest[i] == es[i + 1]);
            }
            lemma_elements_passed_over(rest, h);
            object::lemma_plain_passed_over(seq![COMMA]);
            object::lemma_passed_over_more(seq![COMMA], 0, h);
            let one = e.before + e.value + e.behind;
            object::lemma_passed_over_concat(one, seq![COMMA], h);
            object::lemma_passed_over_concat(one + seq![COMMA], elements_bytes(rest), h);
        }
    }
}

/// The bytes of an array; the gap is for one without elements.
pub open spec fn array_bytes(gap: Seq<u8>, es: Seq<Element>) -> Seq<u8> {
    seq![OPEN_BRACKET] + (gap + elements_bytes(es)) + seq![CLOSE_BRACKET]
}

/// An array is a value.
pub proof fn law_arrays_are_values(gap: Seq<u8>, es: Seq<Element>, h: nat)
    requires
        is_space(gap),
        are_elements(es, h),
        h < MAX_DEPTH,
    ensures
        object::is_value(array_bytes(gap, es), h + 1),
        array_bytes(gap, es)[0] != QUOTE,
{
    lemma_space_passed_over(gap, h);
    lemma_elements_passed_over(es, h);
    object::lemma_passed_over_concat(gap, elements_bytes(es), h);
    object::lemma_bracketed(OPEN_BRACKET, gap + elements_bytes(es), h);
}

// ---------------------------------------------------------------------------
// Objects
// ---------------------------------------------------------------------------

/// A member of an object, with the white space around its tokens. The key is given as it
/// stands between its quotes.
pub struct Field {
    pub before: Seq<u8>,
    pub key: Seq<u8>,
    pub mid: Seq<u8>,
    pub after: Seq<u8>,
    pub value: Seq<u8>,
    pub behind: Seq<u8>,
}

/// The bytes of a member.
pub open spec fn field_bytes(f: Field) -> Seq<u8> {
    f.before + quoted(f.key) + f.mid + seq![COLON] + f.after + f.value + f.behind
}

/// The bytes of members, with commas between them.
pub open spec fn fields_bytes(fs: Seq<Field>) -> Seq<u8>
    decreases fs.len(),
{
    if fs.len() == 0 {
        seq![]
    } else if fs.len() == 1 {
        field_bytes(fs[0])
    } else {
        field_bytes(fs[0]) + seq![COMMA] + fields_bytes(fs.drop_first())
    }
}

/// Whether a member is well written, with a value of at most `h` levels of nesting.
pub open spec fn is_field(f: Field, h: nat) -> bool {
    &&& is_space(f.before)
    &&& stays_quoted(f.key)
    &&& is_space(f.mid)
    &&& is_space(f.after)
    &&& object::is_value(f.value, h)
    &&& is_space(f.behind)
}

/// Whether members are well written.
pub open spec fn are_fields(fs: Seq<Field>, h: nat) -> bool {
    forall|i: int| 0 <= i < fs.len() ==> is_field(#[trigger] fs[i], h)
}

/// The bytes of an object; the gap is for one without members.
pub open spec fn document_bytes(fs: Seq<Field>, gap: Seq<u8>) -> Seq<u8> {
    seq![OPEN_BRACE] + (fields_bytes(fs) + gap) + seq![CLOSE_BRACE]
}

/// The members behind the first are members.
proof fn lemma_rest_of_fields(fs: Seq<Field>, h: nat)
    requires
        are_fields(fs, h),
        fs.len() > 0,
    ensures
        are_fields(fs.drop_first(), h),
        is_field(fs[0], h),
{
    let rest = fs.drop_first();
    assert forall|i: int| 0 <= i < rest.len() implies is_field(#[trigger] rest[i], h) by {
        assert(rest[i] == fs[i + 1]);
    }
}

/// A member is passed over.
proof fn lemma_field_passed_over(f: Field, h: nat)
    requires
        is_field(f, h),
    ensures
        object::passed_over(field_bytes(f), h),
{
    lemma_space_passed_over(f.before, h);
    lemma_space_passed_over(f.mid, h);
    lemma_space_passed_over(f.after, h);
    lemma_space_passed_over(f.behind, h);
    law_quoted_strings_are_values(f.key);
    object::lemma_passed_over_more(quoted(f.key), 0, h);
    object::lemma_plain_passed_over(seq![COLON]);
    object::lemma_passed_over_more(seq![COLON], 0, h);
    let a = f.before + quoted(f.key);
    let b = a + f.mid;
    let c = b + seq![COLON];
    let d = c + f.after;
    let e = d + f.value;
    object::lemma_passed_over_concat(f.before, quoted(f.key), h);
    object::lemma_passed_over_concat(a, f.mid, h);
    object::lemma_passed_over_concat(b, seq![COLON], h);
    object::lemma_passed_over_concat(c, f.after, h);
    object::lemma_passed_over_concat(d, f.value, h);
    object::lemma_passed_over_concat(e, f.behind, h);
}

/// Members are passed over.
proof fn lemma_fields_passed_over(fs: Seq<Field>, h: nat)
    requires
        are_fields(fs, h),
    ensures
        object::passed_over(fields_bytes(fs), h),
    decreases fs.len(),
{
    if fs.len() == 0 {
        lemma_space_passed_over(seq![], h);
    } else {
        lemma_rest_of_fields(fs, h);
        lemma_field_passed_over(fs[0], h);
        if fs.len() > 1 {
            lemma_fields_passed_over(fs.drop_first(), h);
            object::lemma_plain_passed_over(seq![COMMA]);
            object::lemma_passed_over_more(seq![COMMA], 0, h);
            object::lemma_passed_over_concat(field_bytes(fs[0]), seq![COMMA], h);
            object::lemma_passed_over_concat(
                field_bytes(fs[0]) + seq![COMMA],
                fields_bytes(fs.drop_first()),
                h,
            );
        }
    }
}

/// An object is a value.
pub proof fn law_documents_are_values(fs: Seq<Field>, gap: Seq<u8>, h: nat)
    requires
        are_fields(fs, h),
        is_space(gap),
        h < MAX_DEPTH,
    ensures
        object::is_value(document_bytes(fs, gap), h + 1),
        document_bytes(fs, gap)[0] == OPEN_BRACE,
{
    lemma_fields_passed_over(fs, h);
    lemma_space_passed_over(gap, h);
    object::lemma_passed_over_concat(fields_bytes(fs), gap, h);
    object::lemma_bracketed(OPEN_BRACE, fields_bytes(fs) + gap, h);
}

/// A member reads as its key and its value.
proof fn lemma_field_reads(f: Field, h: nat, p: Seq<u8>, back: Seq<u8>)
    requires
        is_field(f, h),
        back.len() > 0,
        object::follows_value(back[0]),
    ensures
        ({
            let s = p + field_bytes(f) + back;
            let at = p.len() + f.before.len();
            let start = at + quoted(f.key).len() + f.mid.len() + 1 + f.after.len();
            let end = start + f.value.len();
            &&& convert::skip_ws(s, p.len() as int) == at
            &&& s[at as int] == QUOTE
            &&& convert::member_at(s, at as int) == Some(
                Member {
                    key: f.key,
                    start: start as int,
                    end: end as int,
                    is_string: f.value[0] == QUOTE,
                },
            )
            &&& s.subrange(start as int, end as int) == f.value
            &&& end + f.behind.len() == p.len() + field_bytes(f).len()
        }),
{
    let s = p + field_bytes(f) + back;
    let q = quoted(f.key);
    let i = p.len() as int;
    let at = i + f.before.len();
    let j = at + q.len();
    let colon = j + f.mid.len();
    let start = colon + 1 + f.after.len();
    let end = start + f.value.len();
    let v = f.value;
    let tail = f.behind + back;
    assert forall|k: int| i <= k < at implies #[trigger] s[k] == 0x20 || s[k] == 0x09 || s[k] == 0x0a
        || s[k] == 0x0d by {
        assert(s[k] == f.before[k - i]);
    }
    assert(s[at] == QUOTE);
    convert::law_white_space_is_skipped(s, i, at);
    assert(convert::string_end(s, at + 1) == Some(j)) by {
        let front = p + f.before + seq![QUOTE];
        let rest = f.mid + seq![COLON] + f.after + v + tail;
        lemma_string_shift(front, f.key + seq![QUOTE], rest, 0);
        assert(s =~= front + (f.key + seq![QUOTE]) + rest);
    }
    assert(s.subrange(at + 1, j - 1) =~= f.key);
    assert forall|k: int| j <= k < colon implies #[trigger] s[k] == 0x20 || s[k] == 0x09 || s[k]
        == 0x0a || s[k] == 0x0d by {
        assert(s[k] == f.mid[k - j]);
    }
    assert(s[colon] == COLON);
    convert::law_white_space_is_skipped(s, j, colon);
    assert forall|k: int| colon + 1 <= k < start implies #[trigger] s[k] == 0x20 || s[k] == 0x09
        || s[k] == 0x0a || s[k] == 0x0d by {
        assert(s[k] == f.after[k - colon - 1]);
    }
    assert(s[start] == v[0]);
    convert::law_white_space_is_skipped(s, colon + 1, start);
    assert(convert::value_end(s, start) == Some(end)) by {
        reveal(object::reads_whole);
        let front = p + f.before + q + f.mid + seq![COLON] + f.after;
        assert(s =~= front + v + tail);
        assert(tail[0] == if f.behind.len() > 0 {
            f.behind[0]
        } else {
            back[0]
        });
        assert(object::follows_value(tail[0]));
        assert(convert::value_end(front + v + tail, front.len() as int) == Some(
            (front.len() + v.len()) as int,
        ));
    }
    assert(s.subrange(start, end) =~= v);
}

/// The value of the first member with the given key.
pub open spec fn field_named(fs: Seq<Field>, key: Seq<u8>) -> Option<Seq<u8>>
    decreases fs.len(),
{
    if fs.len() == 0 {
        None
    } else if fs[0].key == key {
        Some(fs[0].value)
    } else {
        field_named(fs.drop_first(), key)
    }
}

/// Among members before a closing brace, the one that is looked for is found, and no
/// other.
proof fn lemma_find_in_fields(
    fs: Seq<Field>,
    h: nat,
    p: Seq<u8>,
    gap: Seq<u8>,
    rest: Seq<u8>,
    key: Seq<u8>,
)
    requires
        are_fields(fs, h),
        is_space(gap),
    ensures
        ({
            let s = p + fields_bytes(fs) + (gap + seq![CLOSE_BRACE] + rest);
            match field_named(fs, key) {
                Some(v) => convert::find_from(s, p.len() as int, key) matches Some(m)
                    && s.subrange(m.start, m.end) == v && m.is_string == (v[0] == QUOTE),
                None => convert::find_from(s, p.len() as int, key) is None,
            }
        }),
    decreases fs.len(),
{
    let q = gap + seq![CLOSE_BRACE] + rest;
    let s = p + fields_bytes(fs) + q;
    let i = p.len() as int;
    if fs.len() == 0 {
        let at = i + gap.len();
        assert forall|k: int| i <= k < at implies #[trigger] s[k] == 0x20 || s[k] == 0x09 || s[k]
            == 0x0a || s[k] == 0x0d by {
            assert(s[k] == gap[k - i]);
        }
        assert(s[at] == CLOSE_BRACE);
        convert::law_white_space_is_skipped(s, i, at);
    } else {
        let f = fs[0];
        let others = fs.drop_first();
        let one = field_bytes(f);
        let back = if fs.len() == 1 {
            q
        } else {
            seq![COMMA] + fields_bytes(others) + q
        };
        assert(s =~= p + one + back);
        assert(back[0] == if fs.len() > 1 {
            COMMA
        } else if gap.len() > 0 {
            gap[0]
        } else {
            CLOSE_BRACE
        });
        lemma_rest_of_fields(fs, h);
        lemma_field_reads(f, h, p, back);
        let at = i + f.before.len();
        let m = convert::member_at(s, at)->0;
        let end = m.end;
        if f.key != key {
            assert(convert::find_from(s, i, key) == convert::find_from(s, end, key)) by {
                convert::lemma_member_at(s, at);
            }
            let stop = i + one.len();
            assert forall|k: int| end <= k < stop implies #[trigger] s[k] == 0x20 || s[k] == 0x09
                || s[k] == 0x0a || s[k] == 0x0d by {
                assert(s[k] == f.behind[k - end]);
            }
            if fs.len() > 1 {
                assert(s[stop] == COMMA);
                convert::law_white_space_is_skipped(s, end, stop);
                let next = p + one + seq![COMMA];
                assert(s =~= next + fields_bytes(others) + q);
                lemma_find_in_fields(others, h, next, gap, rest, key);
                assert(convert::find_from(s, end, key) == convert::find_from(s, stop + 1, key));
            } else {
                let brace = stop + gap.len();
                assert forall|k: int| stop <= k < brace implies #[trigger] s[k] == 0x20 || s[k]
                    == 0x09 || s[k] == 0x0a || s[k] == 0x0d by {
                    assert(s[k] == gap[k - stop]);
                }
                assert(s[brace] == CLOSE_BRACE);
                convert::law_white_space_is_skipped(s, end, brace);
                assert(field_named(others, key) is None);
            }
        }
    }
}

/// Looking up a key in an object finds the first member that stands there under it, value
/// for value, and nothing where none does. It makes no difference in which order the
/// members stand, what white space is between the tokens, what the other values are, and
/// what follows the object.
pub proof fn law_documents_are_read(
    lead: Seq<u8>,
    fs: Seq<Field>,
    h: nat,
    gap: Seq<u8>,
    rest: Seq<u8>,
    key: Seq<u8>,
)
    requires
        is_space(lead),
        are_fields(fs, h),
        is_space(gap),
    ensures
        ({
            let s = lead + document_bytes(fs, gap) + rest;
            match field_named(fs, key) {
                Some(v) => convert::member(s, key) matches Some(m) && s.subrange(m.start, m.end)
                    == v && m.is_string == (v[0] == 0x22),
                None => convert::member(s, key) is None,
            }
        }),
{
    let s = lead + document_bytes(fs, gap) + rest;
    let at = lead.len() as int;
    assert forall|k: int| 0 <= k < at implies #[trigger] s[k] == 0x20 || s[k] == 0x09 || s[k] == 0x0a
        || s[k] == 0x0d by {
        assert(s[k] == lead[k]);
    }
    assert(s[at] == OPEN_BRACE);
    convert::law_white_space_is_skipped(s, 0, at);
    let p = lead + seq![OPEN_BRACE];
    lemma_find_in_fields(fs, h, p, gap, rest, key);
    assert(s =~= p + fields_bytes(fs) + (gap + seq![CLOSE_BRACE] + rest));
}

/// What is not an object has no members: after white space, its first byte is no brace.
pub proof fn law_only_objects_have_members(lead: Seq<u8>, s: Seq<u8>, key: Seq<u8>)
    requires
        is_space(lead),
        s.len() > 0 ==> s[0] != 0x7b && !convert::is_ws(s[0]),
    ensures
        convert::member(lead + s, key) is None,
        convert::top_level_text(lead + s, key) is None,
{
    let t = lead + s;
    let at = lead.len() as int;
    assert forall|k: int| 0 <= k < at implies #[trigger] t[k] == 0x20 || t[k] == 0x09 || t[k] == 0x0a
        || t[k] == 0x0d by {
        assert(t[k] == lead[k]);
    }
    if s.len() > 0 {
        assert(t[at] == s[0]);
    }
    convert::law_white_space_is_skipped(t, 0, at);
}

/// A value that starts with a quote ends with one.
proof fn lemma_string_value_ends(v: Seq<u8>, h: nat)
    requires
        object::is_value(v, h),
        v[0] == QUOTE,
    ensures
        v.len() >= 2,
        v.last() == QUOTE,
{
    reveal(object::reads_whole);
    let p = Seq::<u8>::empty();
    let q = seq![COMMA];
    let s = p + v + q;
    assert(s[0] == v[0]);
    assert(convert::value_end(s, p.len() as int) == Some((p.len() + v.len()) as int));
    convert::lemma_string_end(s, 1);
    assert(s[v.len() - 1] == v.last());
}

/// The text of a top-level string is what stands between its quotes, exactly where that is
/// UTF-8 without a backslash. A value that is no string, and a member that is not there,
/// have no text.
pub proof fn law_top_level_texts_are_read(
    lead: Seq<u8>,
    fs: Seq<Field>,
    h: nat,
    gap: Seq<u8>,
    rest: Seq<u8>,
    key: Seq<u8>,
)
    requires
        is_space(lead),
        are_fields(fs, h),
        is_space(gap),
    ensures
        ({
            let found = convert::top_level_text(lead + document_bytes(fs, gap) + rest, key);
            match field_named(fs, key) {
                Some(v) => {
                    let inside = v.subrange(1, v.len() - 1);
                    if v[0] == 0x22 && !inside.contains(0x5c) && valid_utf8(inside) {
                        found == Some(decode_utf8(inside))
                    } else {
                        found is None
                    }
                },
                None => found is None,
            }
        }),
{
    let s = lead + document_bytes(fs, gap) + rest;
    law_documents_are_read(lead, fs, h, gap, rest, key);
    match field_named(fs, key) {
        Some(v) => {
            lemma_named_is_value(fs, h, key);
            if v[0] == QUOTE {
                lemma_string_value_ends(v, h);
                convert::lemma_member(s, key);
                let m = convert::member(s, key)->0;
                let value = s.subrange(m.start, m.end);
                assert(s.subrange(m.start + 1, m.end - 1) =~= value.subrange(1, value.len() - 1));
            }
        },
        None => {},
    }
}

/// A member that is found has a value.
proof fn lemma_named_is_value(fs: Seq<Field>, h: nat, key: Seq<u8>)
    requires
        are_fields(fs, h),
    ensures
        field_named(fs, key) matches Some(v) ==> object::is_value(v, h),
    decreases fs.len(),
{
    if fs.len() > 0 {
        lemma_rest_of_fields(fs, h);
        lemma_named_is_value(fs.drop_first(), h, key);
    }
}

/// A string member inside a member: where the outer member is an object, it is found
/// exactly where that object has the inner member and it is a string, in whatever order
/// the members of either stand.
pub proof fn law_nested_strings_are_found(
    lead: Seq<u8>,
    fs: Seq<Field>,
    h: nat,
    gap: Seq<u8>,
    rest: Seq<u8>,
    outer: Seq<u8>,
    inner: Seq<u8>,
    gs: Seq<Field>,
    k: nat,
    space: Seq<u8>,
)
    requires
        is_space(lead),
        are_fields(fs, h),
        is_space(gap),
        field_named(fs, outer) == Some(document_bytes(gs, space)),
        are_fields(gs, k),
        is_space(space),
    ensures
        convert::nested_string(lead + document_bytes(fs, gap) + rest, outer, inner) == (
        field_named(gs, inner) matches Some(w) && w[0] == 0x22),
{
    let none = Seq::<u8>::empty();
    let v = document_bytes(gs, space);
    law_documents_are_read(lead, fs, h, gap, rest, outer);
    law_documents_are_read(none, gs, k, space, none, inner);
    assert(none + v + none =~= v);
}

/// No string is found inside a member that is not there, or is not an object.
pub proof fn law_nothing_is_nested_elsewhere(
    lead: Seq<u8>,
    fs: Seq<Field>,
    h: nat,
    gap: Seq<u8>,
    rest: Seq<u8>,
    outer: Seq<u8>,
    inner: Seq<u8>,
)
    requires
        is_space(lead),
        are_fields(fs, h),
        is_space(gap),
        field_named(fs, outer) matches Some(v) ==> v[0] != 0x7b,
    ensures
        !convert::nested_string(lead + document_bytes(fs, gap) + rest, outer, inner),
{
    law_documents_are_read(lead, fs, h, gap, rest, outer);
    match field_named(fs, outer) {
        Some(v) => {
            let none = Seq::<u8>::empty();
            lemma_named_is_value(fs, h, outer);
            law_only_objects_have_members(none, v, inner);
            assert(none + v =~= v);
        },
        None => {},
    }
}

/// A search that starts in white space goes on behind it.
proof fn lemma_search_skips_space(s: Seq<u8>, i: int, j: int, key: Seq<u8>)
    requires
        0 <= i <= j <= s.len(),
        is_space(s.subrange(i, j)),
    ensures
        convert::find_from(s, i, key) == convert::find_from(s, j, key),
{
    lemma_space_to(s, i, j);
    let at = convert::skip_ws(s, i);
    convert::lemma_skip_ws(s, i);
    convert::lemma_skip_ws(s, j);
    convert::lemma_member_at(s, at);
}

/// White space is skipped from its start as from its end.
proof fn lemma_space_to(s: Seq<u8>, i: int, j: int)
    requires
        0 <= i <= j <= s.len(),
        is_space(s.subrange(i, j)),
    ensures
        convert::skip_ws(s, i) == convert::skip_ws(s, j),
    decreases j - i,
{
    if i < j {
        assert(s.subrange(i, j)[0] == s[i]);
        assert forall|k: int| 0 <= k < s.subrange(i + 1, j).len() implies #[trigger] s.subrange(
            i + 1,
            j,
        )[k] == 0x20 || s.subrange(i + 1, j)[k] == 0x09 || s.subrange(i + 1, j)[k] == 0x0a
            || s.subrange(i + 1, j)[k] == 0x0d by {
            assert(s.subrange(i + 1, j)[k] == s.subrange(i, j)[k + 1]);
        }
        lemma_space_to(s, i + 1, j);
    }
}

/// Behind a member that is not the one, the search goes on, whatever stands there.
proof fn lemma_search_passes(f: Field, h: nat, p: Seq<u8>, back: Seq<u8>, key: Seq<u8>)
    requires
        is_field(f, h),
        back.len() > 0,
        object::follows_value(back[0]),
        f.key != key,
    ensures
        convert::find_from(p + field_bytes(f) + back, p.len() as int, key) == convert::find_from(
            p + field_bytes(f) + back,
            (p.len() + field_bytes(f).len()) as int,
            key,
        ),
{
    let s = p + field_bytes(f) + back;
    let i = p.len() as int;
    let stop = i + field_bytes(f).len();
    lemma_field_reads(f, h, p, back);
    let at = i + f.before.len();
    let m = convert::member_at(s, at)->0;
    convert::lemma_member_at(s, at);
    assert(convert::find_from(s, i, key) == convert::find_from(s, m.end, key));
    assert(s.subrange(m.end, stop) =~= f.behind);
    lemma_search_skips_space(s, m.end, stop, key);
}

/// Behind members that are not the one, the search goes on, whatever stands there.
proof fn lemma_search_goes_on(fs: Seq<Field>, h: nat, p: Seq<u8>, back: Seq<u8>, key: Seq<u8>)
    requires
        are_fields(fs, h),
        back.len() > 0,
        object::follows_value(back[0]),
        field_named(fs, key) is None,
    ensures
        convert::find_from(p + fields_bytes(fs) + back, p.len() as int, key) == convert::find_from(
            p + fields_bytes(fs) + back,
            (p.len() + fields_bytes(fs).len()) as int,
            key,
        ),
    decreases fs.len(),
{
    let s = p + fields_bytes(fs) + back;
    if fs.len() > 0 {
        let f = fs[0];
        let one = field_bytes(f);
        lemma_rest_of_fields(fs, h);
        if fs.len() == 1 {
            lemma_search_passes(f, h, p, back, key);
        } else {
            let others = fs.drop_first();
            let behind = seq![COMMA] + fields_bytes(others) + back;
            let next = p + one + seq![COMMA];
            let stop = (p.len() + one.len()) as int;
            assert(s =~= p + one + behind);
            assert(s =~= next + fields_bytes(others) + back);
            assert(behind[0] == COMMA);
            lemma_search_passes(f, h, p, behind, key);
            lemma_search_goes_on(others, h, next, back, key);
            assert(s[stop] == COMMA);
            lemma_search_passes_comma(s, stop, key);
        }
    }
}

/// Behind a comma the search goes on.
proof fn lemma_search_passes_comma(s: Seq<u8>, i: int, key: Seq<u8>)
    requires
        0 <= i < s.len(),
        s[i] == COMMA,
    ensures
        convert::find_from(s, i, key) == convert::find_from(s, i + 1, key),
{
    assert(convert::skip_ws(s, i) == i);
}

/// The members of an object are looked for behind its brace.
proof fn lemma_search_starts(lead: Seq<u8>, rest: Seq<u8>, key: Seq<u8>)
    requires
        is_space(lead),
    ensures
        convert::member(lead + seq![OPEN_BRACE] + rest, key) == convert::find_from(
            lead + seq![OPEN_BRACE] + rest,
            (lead.len() + 1) as int,
            key,
        ),
{
    let s = lead + seq![OPEN_BRACE] + rest;
    let at = lead.len() as int;
    assert forall|k: int| 0 <= k < at implies #[trigger] s[k] == 0x20 || s[k] == 0x09 || s[k] == 0x0a
        || s[k] == 0x0d by {
        assert(s[k] == lead[k]);
    }
    assert(s[at] == OPEN_BRACE);
    convert::law_white_space_is_skipped(s, 0, at);
}

/// Where something stands between members that is neither white space, a comma nor a key,
/// the search is over: what comes behind it is not found.
pub proof fn law_garbage_stops_the_search(
    lead: Seq<u8>,
    fs: Seq<Field>,
    h: nat,
    gap: Seq<u8>,
    garbage: u8,
    rest: Seq<u8>,
    key: Seq<u8>,
)
    requires
        is_space(lead),
        are_fields(fs, h),
        is_space(gap),
        gap.len() > 0,
        garbage != 0x2c && garbage != 0x22 && !convert::is_ws(garbage),
        field_named(fs, key) is None,
    ensures
        convert::member(
            lead + seq![OPEN_BRACE] + (fields_bytes(fs) + gap + seq![garbage] + rest),
            key,
        ) is None,
{
    let s = lead + seq![OPEN_BRACE] + (fields_bytes(fs) + gap + seq![garbage] + rest);
    let p = lead + seq![OPEN_BRACE];
    let back = gap + seq![garbage] + rest;
    lemma_search_starts(lead, fields_bytes(fs) + gap + seq![garbage] + rest, key);
    assert(s =~= p + fields_bytes(fs) + back);
    assert(back[0] == gap[0]);
    lemma_search_goes_on(fs, h, p, back, key);
    let i = (p.len() + fields_bytes(fs).len()) as int;
    let j = i + gap.len();
    assert(s.subrange(i, j) =~= gap);
    lemma_search_skips_space(s, i, j, key);
    assert(s[j] == garbage);
    assert(convert::skip_ws(s, j) == j);
}

/// A member without a value is not found, and nothing behind it is.
proof fn lemma_bad_member(front: Seq<u8>, name: Seq<u8>, bad: Seq<u8>, key: Seq<u8>)
    requires
        stays_quoted(name),
        bad.len() > 0 ==> !convert::is_ws(bad[0]),
        convert::value_end(
            front + quoted(name) + seq![COLON] + bad,
            (front.len() + quoted(name).len() + 1) as int,
        ) is None,
    ensures
        convert::find_from(
            front + quoted(name) + seq![COLON] + bad,
            front.len() as int,
            key,
        ) is None,
{
    let s = front + quoted(name) + seq![COLON] + bad;
    let quote = front.len() as int;
    let j = quote + quoted(name).len();
    assert(s[quote] == QUOTE);
    assert(convert::skip_ws(s, quote) == quote);
    assert(convert::string_end(s, quote + 1) == Some(j)) by {
        let before = front + seq![QUOTE];
        let rest = seq![COLON] + bad;
        lemma_string_shift(before, name + seq![QUOTE], rest, 0);
        assert(s =~= before + (name + seq![QUOTE]) + rest);
    }
    assert(s[j] == COLON);
    assert(convert::skip_ws(s, j) == j);
    if bad.len() > 0 {
        assert(s[j + 1] == bad[0]);
    }
    assert(convert::skip_ws(s, j + 1) == j + 1);
}

/// A member whose value is malformed is not found, and nothing behind it is.
pub proof fn law_malformed_values_stop_the_search(
    lead: Seq<u8>,
    fs: Seq<Field>,
    h: nat,
    name: Seq<u8>,
    bad: Seq<u8>,
    key: Seq<u8>,
)
    requires
        is_space(lead),
        are_fields(fs, h),
        stays_quoted(name),
        bad.len() > 0 ==> !convert::is_ws(bad[0]),
        ({
            let front = lead + seq![OPEN_BRACE] + fields_bytes(fs) + seq![COMMA] + quoted(name)
                + seq![COLON];
            convert::value_end(front + bad, front.len() as int) is None
        }),
        field_named(fs, key) is None,
    ensures
        convert::member(
            lead + seq![OPEN_BRACE] + fields_bytes(fs) + seq![COMMA] + quoted(name) + seq![COLON]
                + bad,
            key,
        ) is None,
{
    let p = lead + seq![OPEN_BRACE];
    let front = p + fields_bytes(fs) + seq![COMMA];
    let s = front + quoted(name) + seq![COLON] + bad;
    let back = seq![COMMA] + quoted(name) + seq![COLON] + bad;
    lemma_bad_member(front, name, bad, key);
    assert(s =~= p + fields_bytes(fs) + back);
    assert(s =~= lead + seq![OPEN_BRACE] + (fields_bytes(fs) + back));
    lemma_search_starts(lead, fields_bytes(fs) + back, key);
    lemma_search_goes_on(fs, h, p, back, key);
    let comma = (p.len() + fields_bytes(fs).len()) as int;
    assert(s[comma] == COMMA);
    lemma_search_passes_comma(s, comma, key);
}

} // verus!
