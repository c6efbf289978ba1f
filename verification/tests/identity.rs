use llm_relay::identity::{
    contains_ignore_ascii_case, mint_id, next_ordered, ordered_id, splitmix64, upstream_headers,
    IdClock, DEFAULT_ACCEPT, DEFAULT_CLIENT, DEFAULT_PROJECT, DEFAULT_UA, H_CLIENT, H_PROJECT,
    H_REQUEST, H_SESSION, NEEDLE,
};

#[test]
fn a_minted_id_has_the_shape_the_real_client_sends() {
    let mut clock = IdClock::new();
    let id = mint_id(&mut clock, "msg", false, 1_700_000_000_123);
    let rest = id.strip_prefix("msg_").expect("prefix");
    assert_eq!(rest.len(), 26, "{id}");
    assert!(rest[..12].bytes().all(|b| b.is_ascii_hexdigit()), "{id}");
    // The random half is base62.
    assert!(rest[12..]
        .bytes()
        .all(|b| b.is_ascii_alphanumeric()), "{id}");
}

#[test]
fn descending_inverts_the_ordered_half() {
    // A captured `ses_ff90a0333ffe` inverts to `006f5fccc001` — the same
    // relationship the real client's IDs show.
    assert_eq!(
        ordered_id(0x006f_5fcc_c001, true),
        0xff90_a033_3ffe
    );
}

#[test]
fn ids_inside_the_same_millisecond_still_differ() {
    let mut clock = IdClock::new();
    let a = mint_id(&mut clock, "msg", false, 42);
    let b = mint_id(&mut clock, "msg", false, 42);
    assert_ne!(a, b);
}

#[test]
fn headers_whitelist_keeps_matching_caller_values() {
    let mut clock = IdClock::new();
    let caller_ua = format!("{NEEDLE}/1.0 custom");
    let incoming = vec![
        ("User-Agent".to_string(), caller_ua.clone()),
        (H_SESSION.to_string(), "ses_client".to_string()),
    ];
    let out = upstream_headers(&mut clock, Some(&incoming), "ses_fallback", 1);
    assert_eq!(
        out.iter().find(|(k, _)| k == "user-agent").unwrap().1,
        caller_ua
    );
    assert_eq!(
        out.iter().find(|(k, _)| k == H_SESSION).unwrap().1,
        "ses_client"
    );
    // A caller UA that does not match the needle is replaced, not relayed.
    let unmatched = vec![("User-Agent".to_string(), "curl/8".to_string())];
    let out = upstream_headers(&mut clock, Some(&unmatched), "ses_fallback", 1);
    assert_eq!(
        out.iter().find(|(k, _)| k == "user-agent").unwrap().1,
        DEFAULT_UA
    );
    // Credentials and framing never appear: exactly six headers.
    assert_eq!(out.len(), 6);
}

/// A text that is kept with every byte XORed.
fn revealed(hidden: &[u8]) -> String {
    hidden.iter().map(|b| (b ^ 0x5A) as char).collect()
}

#[test]
fn the_vendor_strings_are_the_ones_the_real_client_uses() {
    assert_eq!(NEEDLE, revealed(&[0x35, 0x2a, 0x3f, 0x34, 0x39, 0x35, 0x3e, 0x3f]));
    assert_eq!(
        H_CLIENT,
        revealed(&[
            0x22, 0x77, 0x35, 0x2a, 0x3f, 0x34, 0x39, 0x35, 0x3e, 0x3f, 0x77, 0x39, 0x36, 0x33, 0x3f,
            0x34, 0x2e
        ])
    );
    assert_eq!(
        H_PROJECT,
        revealed(&[
            0x22, 0x77, 0x35, 0x2a, 0x3f, 0x34, 0x39, 0x35, 0x3e, 0x3f, 0x77, 0x2a, 0x28, 0x35, 0x30,
            0x3f, 0x39, 0x2e
        ])
    );
    assert_eq!(
        H_REQUEST,
        revealed(&[
            0x22, 0x77, 0x35, 0x2a, 0x3f, 0x34, 0x39, 0x35, 0x3e, 0x3f, 0x77, 0x28, 0x3f, 0x2b, 0x2f,
            0x3f, 0x29, 0x2e
        ])
    );
    assert_eq!(
        H_SESSION,
        revealed(&[
            0x22, 0x77, 0x35, 0x2a, 0x3f, 0x34, 0x39, 0x35, 0x3e, 0x3f, 0x77, 0x29, 0x3f, 0x29, 0x29,
            0x33, 0x35, 0x34
        ])
    );
    assert_eq!(
        DEFAULT_UA,
        revealed(&[
            0x35, 0x2a, 0x3f, 0x34, 0x39, 0x35, 0x3e, 0x3f, 0x75, 0x6b, 0x74, 0x6b, 0x6d, 0x74, 0x6b,
            0x6f, 0x7a, 0x3b, 0x33, 0x77, 0x29, 0x3e, 0x31, 0x75, 0x2a, 0x28, 0x35, 0x2c, 0x33, 0x3e,
            0x3f, 0x28, 0x77, 0x2f, 0x2e, 0x33, 0x36, 0x29, 0x75, 0x6e, 0x74, 0x6a, 0x74, 0x68, 0x69,
            0x7a, 0x28, 0x2f, 0x34, 0x2e, 0x33, 0x37, 0x3f, 0x75, 0x38, 0x2f, 0x34, 0x75, 0x6b, 0x74,
            0x69, 0x74, 0x6b, 0x6e
        ])
    );
    assert_eq!((DEFAULT_CLIENT, DEFAULT_PROJECT, DEFAULT_ACCEPT), ("cli", "global", "*/*"));
}

#[test]
fn splitmix_yields_its_known_values() {
    assert_eq!(splitmix64(0), 0xE220_A839_7B1D_CDAF);
    assert_eq!(splitmix64(1), 0x910A_2DEC_8902_5CC1);
    assert_eq!(splitmix64(u64::MAX), 0xE4D9_7177_1B65_2C20);
}

#[test]
fn ids_are_minted_exactly() {
    let mut clock = IdClock::new();
    assert_eq!(mint_id(&mut clock, "msg", false, 42), "msg_00000002a00154b9AUjZRipULd");
    assert_eq!(mint_id(&mut clock, "msg", false, 42), "msg_00000002a002txJtIJobTjrPch");
    assert_eq!(clock.last, 0x2a002);
    let mut fresh = IdClock::new();
    assert_eq!(mint_id(&mut fresh, "ses", true, 1_700_000_000_123), "ses_4301a9784ffelGANFfYCaZvWY7");
}

#[test]
fn the_ordered_half_ascends_also_when_the_clock_goes_backwards() {
    let mut clock = IdClock::new();
    let mut last: u64 = 0;
    for now in [5u64, 5, 5, 4, 0, 6, 1, 1_700_000_000_000, 3] {
        let next = next_ordered(&mut clock, now);
        assert!(next > last, "{now}");
        last = next;
    }
    assert_eq!(next_ordered(&mut IdClock { last: 0x5001 }, 6), 0x6001);
    assert_eq!(next_ordered(&mut IdClock { last: 0x5fff }, 5), 0x6000);
}

#[test]
fn ids_sort_by_age_and_descending_ones_the_other_way() {
    let mut clock = IdClock::new();
    let old = mint_id(&mut clock, "ses", true, 10);
    let new = mint_id(&mut clock, "ses", true, 11);
    assert!(new < old);
    let mut clock = IdClock::new();
    let old = mint_id(&mut clock, "msg", false, 10);
    let new = mint_id(&mut clock, "msg", false, 11);
    assert!(old < new);
}

#[test]
fn the_inversion_is_its_own_inverse() {
    for n in [0u64, 1, 0x1234_5678_9abc, 0xFFFF_FFFF_FFFF] {
        assert_eq!(ordered_id(ordered_id(n, true), true), n);
    }
    // Only the low 48 bits count.
    assert_eq!(ordered_id(0xABCD_0000_0000_0007, false), 7);
    assert_eq!(ordered_id(0xABCD_0000_0000_0007, true), 0xFFFF_FFFF_FFF8);
}

#[test]
fn the_needle_is_found_whatever_its_case() {
    assert!(contains_ignore_ascii_case("an OpenCode/1", "opencode"));
    assert!(contains_ignore_ascii_case("opencode", "OPENCODE"));
    assert!(!contains_ignore_ascii_case("opencod", "opencode"));
    assert!(!contains_ignore_ascii_case("", "x"));
    assert!(contains_ignore_ascii_case("", ""));
    assert!(contains_ignore_ascii_case("abc", ""));
    assert!(contains_ignore_ascii_case("h\u{e9}LLO", "\u{e9}ll"));
    assert!(!contains_ignore_ascii_case("H\u{c9}LLO", "\u{e9}ll"));
}

#[test]
fn a_caller_without_headers_gets_the_defaults() {
    let mut clock = IdClock::new();
    let out = upstream_headers(&mut clock, None, "ses_fallback", 42);
    let names: Vec<&str> = out.iter().map(|(k, _)| k.as_str()).collect();
    assert_eq!(names, ["user-agent", "accept", H_CLIENT, H_PROJECT, H_SESSION, H_REQUEST]);
    let values: Vec<&str> = out.iter().map(|(_, v)| v.as_str()).collect();
    assert_eq!(
        values,
        [
            DEFAULT_UA,
            "*/*",
            "cli",
            "global",
            "ses_fallback",
            "msg_00000002a00154b9AUjZRipULd"
        ]
    );
}

#[test]
fn a_genuine_client_passes_untouched() {
    let mut clock = IdClock { last: 7 };
    let sent: Vec<(String, String)> = [
        ("USER-AGENT", "x OpenCode y"),
        ("Accept", "text/html"),
        ("X-OpenCode-Client", "desktop"),
        ("x-opencode-project", "p1"),
        ("x-opencode-session", "s1"),
        ("x-opencode-request", "r1"),
        ("x-opencode-request", "r2"),
        ("authorization", "Bearer mine"),
    ]
    .iter()
    .map(|(k, v)| (k.to_string(), v.to_string()))
    .collect();
    let out = upstream_headers(&mut clock, Some(&sent), "ses_fallback", 42);
    let values: Vec<&str> = out.iter().map(|(_, v)| v.as_str()).collect();
    assert_eq!(values, ["x OpenCode y", "text/html", "desktop", "p1", "s1", "r1"]);
    // Nothing was minted.
    assert_eq!(clock.last, 7);
}

#[test]
fn a_count_that_is_used_up_mints_nothing_more() {
    assert!(IdClock::new().can_mint(0));
    assert!(!IdClock { last: u64::MAX }.can_mint(5));
    assert!(IdClock { last: u64::MAX }.can_mint(u64::MAX));
}
