use storage_search::text::{last_segment_of, parse_i64, segment_end, str_lt};

#[test]
fn parse_i64_accepts_decimal_integers() {
    assert_eq!(parse_i64("0"), Some(0));
    assert_eq!(parse_i64("1700000000000000"), Some(1_700_000_000_000_000));
    assert_eq!(parse_i64("-42"), Some(-42));
    assert_eq!(parse_i64("+7"), Some(7));
    assert_eq!(parse_i64("9223372036854775807"), Some(i64::MAX));
    assert_eq!(parse_i64("-9223372036854775808"), Some(i64::MIN));
}

#[test]
fn parse_i64_rejects_other_text() {
    assert_eq!(parse_i64(""), None);
    assert_eq!(parse_i64("-"), None);
    assert_eq!(parse_i64("+"), None);
    assert_eq!(parse_i64("12a"), None);
    assert_eq!(parse_i64(" 1"), None);
    assert_eq!(parse_i64("9223372036854775808"), None);
    assert_eq!(parse_i64("-9223372036854775809"), None);
    assert_eq!(parse_i64("99999999999999999999999"), None);
}

#[test]
fn parse_i64_agrees_with_std() {
    for s in ["12", "-0", "+0", "007", "1e3", "--1", "+-1", "18446744073709551615"] {
        assert_eq!(parse_i64(s), s.parse::<i64>().ok(), "{s}");
    }
}

#[test]
fn last_segment_after_separator() {
    assert_eq!(last_segment_of("a/b/c", '/'), "c");
    assert_eq!(last_segment_of("abc", '/'), "abc");
    assert_eq!(last_segment_of("a/b/", '/'), "");
    assert_eq!(last_segment_of("id:node:123", ':'), "123");
}

#[test]
fn segment_end_finds_next_slash() {
    assert_eq!(segment_end("ab/cd", 0), 2);
    assert_eq!(segment_end("ab/cd", 3), 5);
    assert_eq!(segment_end("", 0), 0);
}

#[test]
fn str_lt_orders_like_std() {
    let words = ["", "a", "ab", "b", "B", "é", "z/1", "z/10", "z/2"];
    for a in words {
        for b in words {
            assert_eq!(str_lt(a, b), a < b, "{a} {b}");
        }
    }
}
