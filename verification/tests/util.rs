use mfsutils::util::{
    crc16, decode_macroman, eq_ci, fourcc, glob_chars, glob_match_ci, mac_date_long,
    mac_date_short, sanitize_unix_name, starts_with_ci,
};

#[test]
fn crc16_xmodem_vector() {
    assert_eq!(crc16(b"123456789", 0), 0x31C3);
}

#[test]
fn macroman_decode() {
    assert_eq!(decode_macroman(b"caf\x8e"), "café");
}

#[test]
fn date_formatting() {
    // 1984-05-17 11:16:45 relative to Mac epoch.
    // Known from `file` output for the test image: 2536485405.
    assert_eq!(mac_date_long(2536485405), "Thu May 17 11:16:45 1984");
}

#[test]
fn globbing() {
    assert!(glob_match_ci("*.txt", "Hello.TXT"));
    assert!(glob_match_ci("sys?em", "System"));
    assert!(glob_match_ci("*", "anything"));
    assert!(!glob_match_ci("a*b", "acd"));
}

#[test]
fn crc16_empty_and_init() {
    assert_eq!(crc16(b"", 0), 0);
    assert_eq!(crc16(b"", 0x1234), 0x1234);
    assert_eq!(crc16(b"A", 0), 0x58E5);
}

#[test]
fn macroman_high_table_ends() {
    assert_eq!(decode_macroman(&[0x80, 0xFF, 0x41]), "\u{C4}\u{2C7}A");
    assert_eq!(decode_macroman(&[0xCA, 0xF0]), "\u{A0}\u{F8FF}");
    assert_eq!(decode_macroman(b""), "");
}

#[test]
fn fourcc_shows_control_bytes_as_spaces() {
    assert_eq!(fourcc(b"TEXT"), "TEXT");
    assert_eq!(fourcc(&[0, 0x1F, 0x7F, 0xA5]), "   \u{2022}");
}

#[test]
fn date_formats_edges() {
    assert_eq!(mac_date_long(0), "(never)");
    assert_eq!(mac_date_short(0), "                 ");
    // 1904-01-01 00:00:01 was a Friday.
    assert_eq!(mac_date_long(1), "Fri Jan  1 00:00:01 1904");
    assert_eq!(mac_date_short(2536485405), "May 17 1984 11:16");
    // Last second representable: 2040-02-06 06:28:15.
    assert_eq!(mac_date_long(u32::MAX), "Mon Feb  6 06:28:15 2040");
    // Leap day 2000-02-29 12:00:00 = 3034670400.
    assert_eq!(mac_date_long(3034670400), "Tue Feb 29 12:00:00 2000");
    // Unix epoch.
    assert_eq!(mac_date_long(2082844800), "Thu Jan  1 00:00:00 1970");
}

#[test]
fn glob_edge_cases() {
    assert!(glob_match_ci("", ""));
    assert!(!glob_match_ci("", "a"));
    assert!(glob_match_ci("**", ""));
    assert!(glob_match_ci("a*b*c", "aXXbYYc"));
    assert!(!glob_match_ci("a*b*c", "aXXbYY"));
    assert!(glob_match_ci("*a", "banana"));
    assert!(!glob_match_ci("?", ""));
    assert!(glob_chars(&['a', '*'], &['a', 'b']));
    assert!(!glob_chars(&['?', '?'], &['a']));
}

#[test]
fn glob_star_matches_stars_in_name() {
    assert!(glob_match_ci("*", "*x"));
    assert!(glob_chars(&['*'], &['*', '*']));
    assert!(glob_chars(&['*'], &['a', '*']));
    assert!(glob_chars(&['*', '?'], &['*']));
    assert!(glob_chars(&['a', '*', 'b'], &['a', '*', 'x', 'b']));
    assert!(!glob_chars(&['a', '*', 'b'], &['a', '*', 'x']));
}

#[test]
fn case_insensitive_helpers() {
    assert!(eq_ci("System", "SYSTEM"));
    assert!(!eq_ci("System", "Systems"));
    assert!(eq_ci("Caf\u{E9}", "CAF\u{C9}"));
    assert!(starts_with_ci("Folder:File", "folder:"));
    assert!(!starts_with_ci("Fold", "folder"));
    assert!(starts_with_ci("x", ""));
}

#[test]
fn sanitize_escapes() {
    assert_eq!(sanitize_unix_name("a/b"), "a%2fb");
    assert_eq!(sanitize_unix_name("100%"), "100%25");
    assert_eq!(sanitize_unix_name("tab\there\u{7f}"), "tab%09here%7f");
    assert_eq!(sanitize_unix_name("caf\u{E9} ok"), "caf\u{E9} ok");
}

#[test]
fn macroman_bytes_decode_to_distinct_chars() {
    let all: Vec<u8> = (0..=255u8).collect();
    let text: Vec<char> = decode_macroman(&all).chars().collect();
    assert_eq!(text.len(), 256);
    for i in 0..256 {
        for j in 0..i {
            assert_ne!(text[i], text[j]);
        }
    }
    assert_eq!(text[0x41], 'A');
    assert_eq!(text[0xFF], '\u{02C7}');
}

fn percent_decode(t: &str) -> String {
    let cs: Vec<char> = t.chars().collect();
    let mut out = String::new();
    let mut i = 0;
    while i < cs.len() {
        if cs[i] == '%' && i + 2 < cs.len() {
            let v = cs[i + 1].to_digit(16).unwrap() * 16 + cs[i + 2].to_digit(16).unwrap();
            out.push(char::from_u32(v).unwrap());
            i += 3;
        } else {
            out.push(cs[i]);
            i += 1;
        }
    }
    out
}

#[test]
fn sanitized_names_decode_back() {
    for name in ["a/b", "100%", "tab\there\u{7f}", "caf\u{E9} ok", "%2f", "/%/", ""] {
        let s = sanitize_unix_name(name);
        assert!(!s.contains('/'));
        assert_eq!(percent_decode(&s), name);
    }
    assert_eq!(sanitize_unix_name("Plain Name"), "Plain Name");
}

#[test]
fn crc16_appended_crc_leaves_zero() {
    for (data, init) in [(&b"123456789"[..], 0u16), (&b""[..], 0), (&b"MacBinary"[..], 0x1D0F)] {
        let c = crc16(data, init);
        let mut all = data.to_vec();
        all.extend_from_slice(&c.to_be_bytes());
        assert_eq!(crc16(&all, init), 0);
    }
}
