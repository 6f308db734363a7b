use kiho_puncher::text::{
    all_alpha, contains_substr, find_delim, str_eq, str_eq_upper, str_lt_exec, to_upper_char,
    trim_str, usize_to_string,
};

#[test]
fn trim_removes_surrounding_whitespace() {
    assert_eq!(trim_str("  a b\t"), "a b");
    assert_eq!(trim_str("\r\n x \u{a0}"), "x");
    assert_eq!(trim_str("nothing"), "nothing");
    assert_eq!(trim_str("   "), "");
    assert_eq!(trim_str(""), "");
}

#[test]
fn upper_casing_is_ascii_only() {
    assert_eq!(to_upper_char('a'), 'A');
    assert_eq!(to_upper_char('z'), 'Z');
    assert_eq!(to_upper_char('A'), 'A');
    assert_eq!(to_upper_char('7'), '7');
    assert_eq!(to_upper_char('\u{e4}'), '\u{e4}');
}

#[test]
fn string_comparisons() {
    assert!(str_eq("abc", "abc"));
    assert!(!str_eq("abc", "abd"));
    assert!(!str_eq("abc", "ab"));
    assert!(str_eq_upper("AB", "ab"));
    assert!(str_eq_upper("AB", "aB"));
    assert!(!str_eq_upper("ab", "ab"));
    assert!(str_lt_exec("A", "B"));
    assert!(str_lt_exec("A", "AB"));
    assert!(!str_lt_exec("B", "B"));
    assert!(!str_lt_exec("B", "A10"));
    assert!(str_lt_exec("", "A"));
}

#[test]
fn classification_of_inputs() {
    assert!(all_alpha("abcXYZ"));
    assert!(!all_alpha("ab1"));
    assert!(!all_alpha("\u{e4}"));
}

#[test]
fn substring_search() {
    assert!(contains_substr("project ISO27001", "ISO27"));
    assert!(contains_substr("ISO27", "ISO27"));
    assert!(!contains_substr("ISO2", "ISO27"));
    assert!(contains_substr("anything", ""));
    assert!(!contains_substr("", "x"));
}

#[test]
fn delimiter_search_finds_first() {
    assert_eq!(find_delim("a | b | c"), Some(2));
    assert_eq!(find_delim("|x"), Some(0));
    assert_eq!(find_delim("none here"), None);
}

#[test]
fn decimal_rendering() {
    assert_eq!(usize_to_string(0), "0");
    assert_eq!(usize_to_string(7), "7");
    assert_eq!(usize_to_string(10), "10");
    assert_eq!(usize_to_string(12345), "12345");
    assert_eq!(usize_to_string(1000000), "1000000");
}
