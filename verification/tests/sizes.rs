use fcount::file_size::{format_size, parse_size};
use fcount::glob::glob_matches;
use fcount::paths::process_paths;
use fcount::text::{str_le, u64_to_dec_chars};

#[test]
fn format_plain_bytes() {
    assert_eq!(format_size(0), "0 bytes");
    assert_eq!(format_size(500), "500 bytes");
    assert_eq!(format_size(1023), "1023 bytes");
}

#[test]
fn format_kb_mb_gb() {
    assert_eq!(format_size(1024), "1.00 KB");
    assert_eq!(format_size(1536), "1.50 KB");
    assert_eq!(format_size(2000), "1.95 KB");
    assert_eq!(format_size(1048576), "1.00 MB");
    assert_eq!(format_size(5242880), "5.00 MB");
    assert_eq!(format_size(1073741824), "1.00 GB");
}

#[test]
fn format_rounds_ties_to_even() {
    // 1152 bytes is exactly 1.125 KB; the hundredths tie resolves to 1.12
    assert_eq!(format_size(1152), "1.12 KB");
    // 1176 bytes is about 1.148 KB, rounded up to 1.15
    assert_eq!(format_size(1176), "1.15 KB");
}

#[test]
fn parse_plain_and_units() {
    assert_eq!(parse_size("10"), Ok(10));
    assert_eq!(parse_size("10B"), Ok(10));
    assert_eq!(parse_size("1KB"), Ok(1024));
    assert_eq!(parse_size("500KB"), Ok(512000));
    assert_eq!(parse_size("1MB"), Ok(1048576));
    assert_eq!(parse_size("2GiB"), Ok(2147483648));
    assert_eq!(parse_size("3m"), Ok(3145728));
}

#[test]
fn parse_is_case_insensitive_and_trims() {
    assert_eq!(parse_size("  1kb  "), Ok(1024));
    assert_eq!(parse_size("1Kb"), Ok(1024));
    assert_eq!(parse_size("7 BYTES"), Ok(7));
}

#[test]
fn parse_fractions_round_down() {
    assert_eq!(parse_size("1.5kb"), Ok(1536));
    assert_eq!(parse_size("0.5"), Ok(0));
    assert_eq!(parse_size("2.25mb"), Ok(2359296));
    assert_eq!(parse_size("0.1kb"), Ok(102));
}

#[test]
fn parse_invalid_numeric() {
    let e = parse_size("abc").unwrap_err();
    assert_eq!(e, "Invalid numeric value in size: abc");
    let e = parse_size("1.2.3kb").unwrap_err();
    assert_eq!(e, "Invalid numeric value in size: 1.2.3kb");
    let e = parse_size(".").unwrap_err();
    assert_eq!(e, "Invalid numeric value in size: .");
}

#[test]
fn parse_errors_ignore_case_and_padding() {
    // failing inputs equal up to case and surrounding whitespace fail alike
    let a = parse_size("KB").unwrap_err();
    let b = parse_size("kb").unwrap_err();
    assert_eq!(a, b);
    assert_eq!(a, "Invalid numeric value in size: kb");
    let c = parse_size(" ABC ").unwrap_err();
    assert_eq!(c, "Invalid numeric value in size: abc");
}

#[test]
fn parse_skips_unicode_whitespace() {
    assert_eq!(parse_size("1\u{A0}kb"), Ok(1024));
    assert_eq!(parse_size("\u{2003}2mb\u{2003}"), Ok(2097152));
}

#[test]
fn parse_unknown_unit() {
    let e = parse_size("12qb").unwrap_err();
    assert_eq!(e, "Unknown size unit: qb");
    let e = parse_size("5 kilometers").unwrap_err();
    assert_eq!(e, "Unknown size unit: kilometers");
}

#[test]
fn parse_of_formatted_exact_multiples() {
    // exact multiples of the displayed unit survive the round trip
    for n in [
        0u64,
        512,
        1023,
        1024,
        1024 * 37,
        1024 * 1023,
        1048576,
        1048576 * 999,
        1073741824,
        1073741824 * 2048,
    ] {
        assert_eq!(parse_size(&format_size(n)), Ok(n));
    }
}

#[test]
fn glob_patterns() {
    assert!(glob_matches("*.txt", "a.txt"));
    assert!(glob_matches("?at", "cat"));
    assert!(!glob_matches("?at", "at"));
    assert!(glob_matches("a*c", "abbbc"));
    assert!(!glob_matches("x", "abc"));
    // the match is unanchored, as the pattern is tested within the name
    assert!(glob_matches("log", "catalog.txt"));
    assert!(glob_matches(".txt", "a.txt"));
}

#[test]
fn string_order_is_lexicographic() {
    assert!(str_le("a", "b"));
    assert!(str_le("a", "a"));
    assert!(str_le("a", "ab"));
    assert!(!str_le("b", "ab"));
    assert!(str_le("A", "a"));
}

#[test]
fn decimal_digits() {
    let v = u64_to_dec_chars(907);
    let s: String = v.iter().collect();
    assert_eq!(s, "907");
}

#[test]
fn paths_split_directory_and_pattern() {
    let r = process_paths(&vec!["src/*.rs".to_string()]);
    assert_eq!(r.0, "src");
    assert_eq!(r.1, "*.rs");

    let r = process_paths(&vec!["*.txt".to_string()]);
    assert_eq!(r.0, ".");
    assert_eq!(r.1, "*.txt");

    let r = process_paths(&vec!["mydir".to_string()]);
    assert_eq!(r.0, "mydir");
    assert_eq!(r.1, "");

    let r = process_paths(&vec![]);
    assert_eq!(r.0, ".");
    assert_eq!(r.1, "");

    let r = process_paths(&vec!["./*.rs".to_string()]);
    assert_eq!(r.0, ".");
    assert_eq!(r.1, "*.rs");

    let r = process_paths(&vec!["dir".to_string(), "a/b/*.c".to_string()]);
    assert_eq!(r.0, "a/b");
    assert_eq!(r.1, "*.c");
}
