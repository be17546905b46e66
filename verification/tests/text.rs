use wifi_presence::text::{format_decimal, format_span, mac_prefix, sanitize_string};

#[test]
fn sanitize_replaces_each_quote_mark_by_a_space() {
    assert_eq!(sanitize_string("Bob's `home` \"net\""), "Bob s  home   net ");
}

#[test]
fn sanitize_keeps_other_text() {
    assert_eq!(sanitize_string(""), "");
    assert_eq!(sanitize_string("plain-text_01 ok"), "plain-text_01 ok");
    assert_eq!(sanitize_string("caf\u{e9} \u{1F4F6}"), "caf\u{e9} \u{1F4F6}");
}

#[test]
fn sanitize_keeps_the_length_in_characters() {
    let input = "'`\"'`\"x";
    let cleaned = sanitize_string(input);
    assert_eq!(cleaned, "      x");
    assert_eq!(cleaned.chars().count(), input.chars().count());
}

#[test]
fn sanitize_agrees_with_three_replacements() {
    for input in ["a'b", "``", "say \"hi\"", "no marks", "'", "\u{2019}curly\u{2019}"] {
        let expected = input.replace('\'', " ").replace('`', " ").replace('"', " ");
        assert_eq!(sanitize_string(input), expected);
    }
}

#[test]
fn mac_prefix_takes_three_fields() {
    assert_eq!(mac_prefix("aa:bb:cc:dd:ee:ff"), "aabbcc");
    assert_eq!(mac_prefix("AA:BB:CC"), "AABBCC");
}

#[test]
fn mac_prefix_of_short_and_odd_addresses() {
    assert_eq!(mac_prefix(""), "");
    assert_eq!(mac_prefix("abc"), "abc");
    assert_eq!(mac_prefix("a:b"), "ab");
    assert_eq!(mac_prefix("a::b:c"), "ab");
    assert_eq!(mac_prefix(":::x"), "");
    assert_eq!(mac_prefix("a:b:c:"), "abc");
    assert_eq!(mac_prefix("aa-bb-cc-dd"), "aa-bb-cc-dd");
}

#[test]
fn mac_prefix_agrees_with_split_and_take() {
    for input in ["00:11:22:33:44:55", "x", "::", "1:2:3:4", "long field:b:c:d", ":a:b:c"] {
        let expected: String = input.split(':').take(3).collect();
        assert_eq!(mac_prefix(input), expected);
    }
}

#[test]
fn decimal_numerals() {
    assert_eq!(format_decimal(0), "0");
    assert_eq!(format_decimal(7), "7");
    assert_eq!(format_decimal(9), "9");
    assert_eq!(format_decimal(10), "10");
    assert_eq!(format_decimal(120), "120");
    assert_eq!(format_decimal(1234567890), "1234567890");
    assert_eq!(format_decimal(u64::MAX), "18446744073709551615");
}

#[test]
fn decimal_agrees_with_display() {
    for n in [0u64, 1, 19, 100, 101, 999, 1000, 65535, 4294967296, u64::MAX - 1] {
        assert_eq!(format_decimal(n), format!("{}", n));
    }
}

#[test]
fn span_is_written_smaller_time_first() {
    assert_eq!(format_span(0, 2), "0-2");
    assert_eq!(format_span(10, 11), "10-11");
    assert_eq!(format_span(11, 10), "10-11");
    assert_eq!(format_span(5, 5), "5-5");
}
