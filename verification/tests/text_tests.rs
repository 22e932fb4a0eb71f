use referral_list::text::{
    chars_of, contains_str, decimal_string, find_from, join_strings, parse_u64, replace, str_eq,
    str_less,
};

#[test]
fn replace_every_occurrence() {
    assert_eq!(replace("aXbXc", "X", "--"), "a--b--c");
    assert_eq!(replace("aaa", "aa", "b"), "ba");
    assert_eq!(replace("none here", "xyz", "!"), "none here");
    assert_eq!(replace("", "a", "b"), "");
}

#[test]
fn strings_compare_by_characters() {
    assert!(str_less("abc", "abd"));
    assert!(str_less("ab", "abc"));
    assert!(!str_less("abc", "abc"));
    assert!(str_less("Zone", "area"));
    assert!(!str_less("b", "a"));
    assert!(str_eq("same", "same"));
    assert!(!str_eq("same", "sane"));
}

#[test]
fn substrings_are_found() {
    assert!(contains_str("Mission Total", "Total"));
    assert!(!contains_str("Zone", "Total"));
    let s = chars_of("abcabc");
    let p = chars_of("bc");
    assert_eq!(find_from(&s, &p, 0), Some(1));
    assert_eq!(find_from(&s, &p, 2), Some(4));
    assert_eq!(find_from(&s, &p, 5), None);
}

#[test]
fn numbers_are_written_in_decimal() {
    assert_eq!(decimal_string(0), "0");
    assert_eq!(decimal_string(7), "7");
    assert_eq!(decimal_string(1234), "1234");
    assert_eq!(decimal_string(u64::MAX), u64::MAX.to_string());
}

#[test]
fn strings_are_joined() {
    let parts = vec!["a".to_string(), "b".to_string(), "c".to_string()];
    assert_eq!(join_strings(&parts, " & "), "a & b & c");
    assert_eq!(join_strings(&vec!["only".to_string()], " & "), "only");
    assert_eq!(join_strings(&Vec::new(), " & "), "");
}

#[test]
fn numbers_are_read_like_std() {
    for text in ["0", "42", "+7", "007", "", "+", "-1", "1 ", " 1", "4x", "18446744073709551615", "18446744073709551616", "99999999999999999999"] {
        assert_eq!(parse_u64(text), text.parse::<u64>().ok(), "{text}");
    }
}
