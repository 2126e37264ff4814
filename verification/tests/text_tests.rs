use rustlessons::text::{
    count_words_in, eq_ignore_ascii_case, i32_to_string, is_whitespace, parse_u64, split_on,
    split_whitespace, starts_with, str_eq, trim, u64_to_string,
};

#[test]
fn parse_u64_accepts_plain_and_plus_signed_numerals() {
    assert_eq!(parse_u64("42"), Some(42));
    assert_eq!(parse_u64("+7"), Some(7));
    assert_eq!(parse_u64("007"), Some(7));
    assert_eq!(parse_u64("18446744073709551615"), Some(u64::MAX));
}

#[test]
fn parse_u64_refuses_what_str_parse_refuses() {
    for bad in ["", "+", "-1", "-", "1a", " 1", "18446744073709551616", "99999999999999999999"] {
        assert_eq!(parse_u64(bad), None, "{bad:?}");
        assert!(bad.parse::<u64>().is_err());
    }
}

#[test]
fn numerals_read_back() {
    for n in [0u64, 9, 10, 123456789, u64::MAX] {
        let s = u64_to_string(n);
        assert_eq!(s, n.to_string());
        assert_eq!(parse_u64(&s), Some(n));
    }
    assert_eq!(i32_to_string(-42), "-42");
    assert_eq!(i32_to_string(i32::MIN), "-2147483648");
    assert_eq!(i32_to_string(0), "0");
}

#[test]
fn whitespace_matches_std() {
    for c in (0u32..=0x10ffff).filter_map(char::from_u32) {
        assert_eq!(is_whitespace(c), c.is_whitespace(), "{c:?}");
    }
}

#[test]
fn trim_removes_outer_whitespace_once_and_for_all() {
    assert_eq!(trim("  5 + 3 \n"), "5 + 3");
    assert_eq!(trim(" \t "), "");
    assert_eq!(trim(""), "");
    let once = trim("\u{3000} привет  ");
    assert_eq!(once, "привет");
    assert_eq!(trim(once), once);
}

#[test]
fn words_are_split_at_whitespace() {
    assert_eq!(split_whitespace("  a  bc\td "), vec!["a", "bc", "d"]);
    assert!(split_whitespace("   ").is_empty());
    assert_eq!(count_words_in("  a  bc\td "), 3);
    assert_eq!(count_words_in(""), 0);
}

#[test]
fn split_on_keeps_empty_pieces() {
    assert_eq!(split_on("a,,b", ','), vec!["a", "", "b"]);
    assert_eq!(split_on("rs", ','), vec!["rs"]);
    assert_eq!(split_on("a,", ','), vec!["a", ""]);
}

#[test]
fn comparisons() {
    assert!(str_eq("выход", "выход"));
    assert!(!str_eq("exit", "exit "));
    assert!(starts_with("--min-size=10", "--min-size="));
    assert!(!starts_with("--min", "--min-size="));
    assert!(eq_ignore_ascii_case("TXT", "txt"));
    assert!(!eq_ignore_ascii_case("ТXT", "тxt"));
    assert!(!eq_ignore_ascii_case("txt", "tx"));
}


#[test]
fn trimming_keeps_the_words() {
    for s in ["  a b  ", "\tx", "", "   ", "one", " при вет \u{3000}"] {
        assert_eq!(split_whitespace(trim(s)), split_whitespace(s), "{s:?}");
        assert_eq!(count_words_in(trim(s)), count_words_in(s));
    }
}
