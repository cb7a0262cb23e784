use editorconfig_core::glob;
use editorconfig_core::glob::{check_pattern, matches_path, InvalidPattern, Opener};

#[test]
fn star_matches_within_one_component() {
    assert!(glob::matches("*.txt", "a.txt"));
    assert!(glob::matches("*.txt", ".txt"));
    assert!(glob::matches("*", ""));
    assert!(glob::matches("a*c", "abbbc"));
}

#[test]
fn star_does_not_cross_a_separator() {
    assert!(!glob::matches("*.txt", "a/b.txt"));
    assert!(!glob::matches("*", "a/b"));
    assert!(!glob::matches("a*c", "a/c"));
}

#[test]
fn double_star_crosses_separators() {
    assert!(glob::matches("**/*.txt", "a/b.txt"));
    assert!(glob::matches("**/*.txt", "a/b/c.txt"));
    assert!(glob::matches("**", "a/b/c"));
    assert!(glob::matches("**", ""));
    assert!(glob::matches("a/**/z", "a/b/c/z"));
    assert!(!glob::matches("**/*.txt", "b.txt"));
}

#[test]
fn three_stars_are_a_double_star_and_a_star() {
    assert!(glob::matches("***", "a/b"));
    assert!(glob::matches("a***z", "a/x/yz"));
}

#[test]
fn braces_choose_one_alternative() {
    assert!(glob::matches("*.{js,ts}", "x.js"));
    assert!(glob::matches("*.{js,ts}", "x.ts"));
    assert!(!glob::matches("*.{js,ts}", "x.go"));
    assert!(!glob::matches("*.{js,ts}", "x.jsts"));
}

#[test]
fn braces_nest_and_hold_patterns() {
    assert!(glob::matches("{a,b{c,d}}e", "ae"));
    assert!(glob::matches("{a,b{c,d}}e", "bce"));
    assert!(glob::matches("{a,b{c,d}}e", "bde"));
    assert!(!glob::matches("{a,b{c,d}}e", "be"));
    assert!(glob::matches("{*.rs,lib/**}", "main.rs"));
    assert!(glob::matches("{*.rs,lib/**}", "lib/a/b"));
    assert!(!glob::matches("{*.rs,lib/**}", "src/main.rs"));
}

#[test]
fn braces_may_hold_an_empty_or_a_single_alternative() {
    assert!(glob::matches("a{,b}", "a"));
    assert!(glob::matches("a{,b}", "ab"));
    assert!(glob::matches("{x}", "x"));
    assert!(glob::matches("{}", ""));
    assert!(!glob::matches("{x}", "{x}"));
}

#[test]
fn question_mark_is_one_character_but_no_separator() {
    assert!(glob::matches("a?c", "abc"));
    assert!(!glob::matches("a?c", "ac"));
    assert!(!glob::matches("a?c", "abbc"));
    assert!(!glob::matches("a?c", "a/c"));
    assert!(glob::matches("?", "\u{e9}"));
}

#[test]
fn classes_list_characters_and_ranges() {
    assert!(glob::matches("[abc].txt", "a.txt"));
    assert!(!glob::matches("[abc].txt", "d.txt"));
    assert!(glob::matches("[a-c]", "b"));
    assert!(!glob::matches("[a-c]", "d"));
    assert!(glob::matches("[a-cx-z]", "y"));
    assert!(glob::matches("[a-]", "-"));
    assert!(glob::matches("[-a]", "-"));
    assert!(!glob::matches("[a-c]", ""));
    assert!(!glob::matches("[a-c]", "ab"));
}

#[test]
fn negated_classes_take_every_other_character() {
    assert!(glob::matches("[!abc]", "d"));
    assert!(!glob::matches("[!abc]", "a"));
    assert!(glob::matches("[!a-c]", "z"));
    assert!(!glob::matches("[!a-c]", "b"));
    assert!(glob::matches("[!]", "q"));
    assert!(!glob::matches("[]", "q"));
}

#[test]
fn class_members_are_plain_characters() {
    assert!(glob::matches("[*?{]", "*"));
    assert!(glob::matches("[*?{]", "{"));
    assert!(!glob::matches("[*?{]", "a"));
    assert!(glob::matches("{[,],x}", ","));
    assert!(glob::matches("{[,],x}", "x"));
}

#[test]
fn other_characters_match_themselves() {
    assert!(glob::matches("Makefile", "Makefile"));
    assert!(!glob::matches("Makefile", "makefile"));
    assert!(glob::matches("a,b}]", "a,b}]"));
    assert!(glob::matches("a\\b", "a\\b"));
    assert!(glob::matches("", ""));
    assert!(!glob::matches("", "a"));
}

#[test]
fn a_match_covers_the_whole_text() {
    assert!(!glob::matches("b", "abc"));
    assert!(!glob::matches("ab", "abc"));
    assert!(!glob::matches("bc", "abc"));
    assert!(!glob::matches("*.txt", "a.txt.bak"));
}

#[test]
fn a_malformed_pattern_matches_nothing() {
    assert!(!glob::matches("[abc", "a"));
    assert!(!glob::matches("{a,b", "a"));
    assert!(!glob::matches("a{b,[c}", "ab"));
    assert!(!glob::matches("x[", "x["));
    assert!(!matches_path("{a,b", "a"));
}

#[test]
fn check_pattern_names_the_first_unclosed_opener() {
    assert_eq!(check_pattern("*.{js,ts}"), Ok(()));
    assert_eq!(check_pattern("[a-z]?"), Ok(()));
    assert_eq!(check_pattern(""), Ok(()));
    assert_eq!(check_pattern("a}b]"), Ok(()));
    assert_eq!(
        check_pattern("ab[cd"),
        Err(InvalidPattern { opener: Opener::Class, position: 2 })
    );
    assert_eq!(
        check_pattern("{a,{b}"),
        Err(InvalidPattern { opener: Opener::Group, position: 0 })
    );
    assert_eq!(
        check_pattern("{a}{b"),
        Err(InvalidPattern { opener: Opener::Group, position: 3 })
    );
    assert_eq!(
        check_pattern("{[}"),
        Err(InvalidPattern { opener: Opener::Group, position: 0 })
    );
}

#[test]
fn a_pattern_without_separator_is_held_against_the_final_component() {
    assert!(matches_path("*.py", "a.py"));
    assert!(matches_path("*.py", "sub/a.py"));
    assert!(matches_path("Makefile", "deep/er/Makefile"));
    assert!(!matches_path("*.py", "a.py/readme"));
    assert!(matches_path("*", "sub/anything"));
}

#[test]
fn a_pattern_with_separator_is_held_against_the_relative_path() {
    assert!(matches_path("sub/*.py", "sub/a.py"));
    assert!(!matches_path("sub/*.py", "a.py"));
    assert!(!matches_path("sub/*.py", "other/sub/a.py"));
    assert!(matches_path("**/*.py", "x/y/a.py"));
    assert!(matches_path("lib/**", "lib/a/b.c"));
    assert!(!matches_path("/a.py", "a.py"));
}

#[test]
fn a_star_that_ends_an_alternative_stays_a_single_star() {
    assert!(glob::matches("{a*,b}*c", "axxc"));
    assert!(glob::matches("{a*,b}*c", "bc"));
    assert!(!glob::matches("{a*,b}*c", "a/x/c"));
    assert!(!glob::matches("{*}*", "a/b"));
    assert!(glob::matches("{*}*", "ab"));
    assert!(glob::matches("{**}*", "a/b"));
    assert!(glob::matches("*{*/,x}*", "a/b"));
    assert!(!glob::matches("*{*/,x}*", "a/b/c"));
}

#[test]
fn an_alternative_may_match_any_start_of_the_text() {
    assert!(glob::matches("{a,ab}b", "ab"));
    assert!(glob::matches("{a,ab}b", "abb"));
    assert!(glob::matches("{ab,a}bc", "abc"));
    assert!(glob::matches("{*,x}.rs", "main.rs"));
    assert!(glob::matches("x{?,??}y{1,2}", "xaby2"));
    assert!(!glob::matches("x{?,??}y{1,2}", "xabcy2"));
}
