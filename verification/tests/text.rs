use hive::text::{begins_with, parse_octal, same, split_words, trim};

#[test]
fn white_space_is_what_unicode_says() {
    for n in 0..=0x10ffffu32 {
        if let Some(c) = char::from_u32(n) {
            let white = matches!(n, 0x09..=0x0d | 0x20 | 0x85 | 0xa0 | 0x1680 | 0x2000..=0x200a
                | 0x2028 | 0x2029 | 0x202f | 0x205f | 0x3000);
            assert_eq!(trim(&c.to_string()).is_empty(), white, "{n:x}");
        }
    }
}

#[test]
fn trimming_keeps_what_is_inside() {
    assert_eq!(trim(" \t a b\u{3000}\n"), "a b");
    assert_eq!(trim(""), "");
    assert_eq!(trim(" \n "), "");
    assert_eq!(trim("\u{feff}x"), "\u{feff}x");
}

#[test]
fn words_are_split_at_white_space() {
    assert_eq!(split_words("  run --acp\t\u{a0}x "), vec!["run", "--acp", "x"]);
    assert_eq!(split_words("one"), vec!["one"]);
    assert!(split_words(" \n").is_empty());
    assert!(split_words("").is_empty());
}

#[test]
fn texts_are_compared_whole() {
    assert!(same("\u{e9}t\u{e9}", "\u{e9}t\u{e9}"));
    assert!(!same("a", "ab"));
    assert!(!same("ab", "ac"));
    assert!(begins_with("BUZZ_X", "BUZZ_"));
    assert!(begins_with("BUZZ_", "BUZZ_"));
    assert!(!begins_with("BUZZ", "BUZZ_"));
    assert!(!begins_with("XBUZZ_", "BUZZ_"));
}

#[test]
fn octal_numbers_are_read_as_the_standard_library_reads_them() {
    for s in [
        "0600", "600", "0o600", "0o0o644", "+7", "0o+7", "+0o7", "", "+", "-1", "0o", "8", "6 0",
        " 600", "37777777777", "40000000000", "0000000000000000000000001", "77777777777777777777",
        "\u{661}", "6_0", "0O600", "++7", "00o7",
    ] {
        assert_eq!(
            parse_octal(s),
            u32::from_str_radix(s.trim_start_matches("0o"), 8).ok(),
            "{s}"
        );
    }
    assert_eq!(parse_octal("0o640"), Some(0o640));
    assert_eq!(parse_octal("37777777777"), Some(u32::MAX));
    assert_eq!(parse_octal("40000000000"), None);
}
