use llm_relay::text::{
    bytes_at, bytes_at_ignore_case, bytes_eq, hex_char, parse_u16, push_decimal, str_eq,
    str_eq_ignore_case, to_lower, trim, white_space,
};

#[test]
fn white_space_is_what_unicode_says() {
    for c in (0u32..=0x10_FFFF).filter_map(char::from_u32) {
        assert_eq!(white_space(c), c.is_whitespace(), "{c:?}");
    }
}

#[test]
fn texts_are_trimmed_at_both_ends() {
    for text in ["", " ", "a", " a b\u{2003}", "\u{a0}\u{e9} \u{1f600}\t", "\u{200b}x"] {
        assert_eq!(trim(text), text.trim(), "{text:?}");
    }
}

#[test]
fn numbers_are_written_in_decimal() {
    for n in [0u64, 9, 10, 12345, u64::MAX] {
        let mut out = String::from("n=");
        push_decimal(&mut out, n);
        assert_eq!(out, format!("n={n}"));
    }
}

#[test]
fn ports_are_read_as_the_standard_library_reads_them() {
    for text in [
        "", "0", "007", "65535", "65536", "99999999999999999999", "+1", "++1", "+", "-0", " 1", "1a", "\u{661}",
    ] {
        assert_eq!(parse_u16(text), text.parse::<u16>().ok(), "{text:?}");
    }
}

#[test]
fn bytes_are_told_apart() {
    assert!(bytes_eq(b"", b"") && bytes_eq(b"ab", b"ab"));
    assert!(!bytes_eq(b"ab", b"aB") && !bytes_eq(b"ab", b"abc"));
    assert!(str_eq("h\u{e9}", "h\u{e9}") && !str_eq("h\u{e9}", "he"));
    assert!(bytes_at(b"abcd", 1, b"bc") && !bytes_at(b"abcd", 1, b"bd") && !bytes_at(b"abcd", 3, b"de"));
    assert!(bytes_at_ignore_case(b"xABy", 1, b"aB") && !bytes_at_ignore_case(b"xABy", 2, b"ab"));
    assert!(str_eq_ignore_case("Accept", "aCCEPT") && !str_eq_ignore_case("Accept", "accepts"));
    for b in 0..=255u8 {
        assert_eq!(to_lower(b), b.to_ascii_lowercase());
    }
}

#[test]
fn hexadecimal_digits_are_small_letters() {
    let all: String = (0u8..16).map(hex_char).collect();
    assert_eq!(all, "0123456789abcdef");
}
