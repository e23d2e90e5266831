use tree_print::glob::{glob_matches, is_glob};
use tree_print::text::{chars_of, contains_text, find_from, fold, same_text};

#[test]
fn wildcards_are_recognised() {
    assert!(is_glob("*.rs"));
    assert!(is_glob("a?c"));
    assert!(!is_glob("main.rs"));
    assert!(!is_glob(""));
}

#[test]
fn star_takes_any_chars() {
    assert!(glob_matches("*", ""));
    assert!(glob_matches("*", "anything"));
    assert!(glob_matches("*.rs", "main.rs"));
    assert!(glob_matches("*.rs", ".rs"));
    assert!(!glob_matches("*.rs", "main.rs.bak"));
    assert!(glob_matches("a*b*c", "aXXbYYc"));
    assert!(glob_matches("a*b*c", "abbbc"));
    assert!(!glob_matches("a*b*c", "acb"));
    assert!(glob_matches("**", "x"));
    assert!(glob_matches("*aab", "aaaab"));
}

#[test]
fn question_mark_takes_one_char() {
    assert!(glob_matches("?", "x"));
    assert!(!glob_matches("?", ""));
    assert!(!glob_matches("?", "xy"));
    assert!(glob_matches("?", "é"));
    assert!(glob_matches("a?c", "abc"));
    assert!(glob_matches("*.?", "x.c"));
}

#[test]
fn star_in_the_text_is_an_ordinary_char() {
    assert!(glob_matches("*a", "**a"));
    assert!(glob_matches("*", "*"));
    assert!(glob_matches("a*", "a*b"));
}

#[test]
fn pattern_without_wildcards_matches_itself() {
    assert!(glob_matches("main.rs", "main.rs"));
    assert!(!glob_matches("main.rs", "main.r"));
    assert!(!glob_matches("main", "main.rs"));
    assert!(glob_matches("", ""));
    assert!(!glob_matches("", "a"));
}

#[test]
fn stars_around_a_text_are_contains() {
    for name in ["xabcx", "abc", "ab", "aabc", ""] {
        assert_eq!(glob_matches("*abc*", name), contains_text(name, "abc"));
    }
}

#[test]
fn substrings_are_found() {
    assert!(contains_text("hello", "ell"));
    assert!(contains_text("hello", ""));
    assert!(contains_text("", ""));
    assert!(!contains_text("hello", "elo"));
    assert!(!contains_text("he", "hello"));
    assert_eq!(find_from(&chars_of("abcabc"), &chars_of("abc"), 1), Some(3));
    assert_eq!(find_from(&chars_of("abcabc"), &chars_of("abc"), 4), None);
    assert_eq!(find_from(&chars_of("ab"), &chars_of("b"), 9), None);
}

#[test]
fn folding_lowers_the_case() {
    assert_eq!(fold("README.Md", false), "readme.md");
    assert_eq!(fold("README.Md", true), "README.Md");
    assert_eq!(fold("ÄÖ", false), "äö");
}

#[test]
fn texts_are_compared() {
    assert!(same_text("target", "target"));
    assert!(!same_text("target", "targe"));
    assert!(!same_text("target", "tarset"));
}
