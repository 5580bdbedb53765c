use shortlink::codes::u64_to_dec;
use shortlink::store::instant_to_remove;
use shortlink::store::RETENTION_SECS;
use shortlink::text::char_count;
use shortlink::text::contains_scheme;
use shortlink::text::normalize;

#[test]
fn decimal_rendering_exact_values() {
    assert_eq!(u64_to_dec(0), "0");
    assert_eq!(u64_to_dec(7), "7");
    assert_eq!(u64_to_dec(42), "42");
    assert_eq!(u64_to_dec(999_999), "999999");
    assert_eq!(u64_to_dec(1_000_000), "1000000");
    assert_eq!(u64_to_dec(u64::MAX), "18446744073709551615");
}

#[test]
fn retention_window_is_three_hours() {
    assert_eq!(RETENTION_SECS, 3 * 60 * 60);
    assert_eq!(instant_to_remove(5), 5 + 10_800);
}

#[test]
fn normalization_prefixes_a_missing_scheme() {
    assert_eq!(normalize(String::from("op.gg")), "http://op.gg");
    assert_eq!(normalize(String::from("https://op.gg")), "https://op.gg");
    assert_eq!(normalize(String::from("ftp://x.y")), "ftp://x.y");
    assert_eq!(normalize(String::from("a://b")), "a://b");
}

#[test]
fn scheme_detection() {
    assert!(contains_scheme("x://"));
    assert!(contains_scheme("://"));
    assert!(!contains_scheme(":/"));
    assert!(!contains_scheme("x:/y/z"));
    assert!(!contains_scheme(""));
}

#[test]
fn characters_are_counted_not_bytes() {
    assert_eq!(char_count(""), 0);
    assert_eq!(char_count("abcde"), 5);
    assert_eq!(char_count("h\u{e9}llo"), 5);
}
