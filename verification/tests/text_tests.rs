use surf_fed::{str_contains, str_lex_le, trim, trim_end_matches, trim_start_matches};

#[test]
fn substring_search() {
    assert!(str_contains("https://www.instagram.com/p/x", "instagram.com"));
    assert!(!str_contains("https://example.com", "instagram.com"));
    assert!(str_contains("abc", ""));
    assert!(!str_contains("", "a"));
    assert!(str_contains("aaab", "aab"));
}

#[test]
fn trimming_white_space() {
    assert_eq!(trim("  \t https://x \n"), "https://x");
    assert_eq!(trim("\u{3000}a b\u{2028}"), "a b");
    assert_eq!(trim("   "), "");
    assert_eq!(trim(""), "");
}

#[test]
fn trimming_patterns() {
    assert_eq!(trim_start_matches("||||a||", "||"), "a||");
    assert_eq!(trim_start_matches("***", "*"), "");
    assert_eq!(trim_end_matches("a^b^^", '^'), "a^b");
    assert_eq!(trim_end_matches("", '^'), "");
}

#[test]
fn empty_pattern_trims_nothing() {
    assert_eq!(trim_start_matches("abc", ""), "abc");
    assert_eq!(trim_start_matches("", ""), "");
}

#[test]
fn lexicographic_order_of_strings() {
    assert!(str_lex_le("abc", "abd"));
    assert!(str_lex_le("ab", "abc"));
    assert!(str_lex_le("", ""));
    assert!(!str_lex_le("b", "abc"));
    assert!(!str_lex_le("abc", "ab"));
}
