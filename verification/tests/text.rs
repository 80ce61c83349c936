use oracle_bot::text::{
    i64_to_text, is_whitespace_char, parse_i64, parse_usize, sorted_distinct, str_eq,
    text_after_last, text_less_than, trim, trim_end_matching,
};

#[test]
fn decimal_text_of_integers() {
    assert_eq!(i64_to_text(0), "0");
    assert_eq!(i64_to_text(1777738500), "1777738500");
    assert_eq!(i64_to_text(-42), "-42");
    assert_eq!(i64_to_text(i64::MIN), i64::MIN.to_string());
    assert_eq!(i64_to_text(i64::MAX), i64::MAX.to_string());
}

#[test]
fn integer_parsing_matches_std() {
    for text in [
        "0", "+0", "-0", "12", "+12", "-12", "", "+", "-", "1a", " 1", "007",
        "9223372036854775807", "9223372036854775808", "-9223372036854775808",
        "-9223372036854775809", "99999999999999999999999", "１",
    ] {
        assert_eq!(parse_i64(text), text.parse::<i64>().ok(), "i64 {:?}", text);
        assert_eq!(parse_usize(text), text.parse::<usize>().ok(), "usize {:?}", text);
    }
}

#[test]
fn trimming_matches_std() {
    for text in ["", "  ", " a b ", "\t\nx\u{3000}", "\u{85}y\u{a0}", "z"] {
        assert_eq!(trim(text), text.trim());
    }
    for c in ['\t', ' ', 'a', '\u{2028}', '\u{200b}', '\u{1680}'] {
        assert_eq!(is_whitespace_char(c), c.is_whitespace());
    }
    assert_eq!(trim_end_matching("a//", '/'), "a");
    assert_eq!(trim_end_matching("//", '/'), "");
}

#[test]
fn text_after_last_separator() {
    assert_eq!(text_after_last("a-b-c", '-'), "c");
    assert_eq!(text_after_last("abc", '-'), "abc");
    assert_eq!(text_after_last("abc-", '-'), "");
    assert!(str_eq("é", "é"));
    assert!(!str_eq("a", "ab"));
}

#[test]
fn text_order_matches_string_ord() {
    let texts = ["", "a", "ab", "b", "B", "é", "z", "aé", "ä", "日本", "日", "\u{10000}", "\u{ffff}"];
    for a in texts {
        for b in texts {
            assert_eq!(text_less_than(a, b), a < b, "{:?} < {:?}", a, b);
        }
    }
    let input: Vec<String> = ["b", "a", "é", "b", "", "ab"].iter().map(|s| s.to_string()).collect();
    let mut expected: Vec<String> = input.clone();
    expected.sort();
    expected.dedup();
    assert_eq!(sorted_distinct(&input), expected);
}
