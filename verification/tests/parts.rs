use glob::chars::{chars_eq, is_sep, to_ascii_lower};
use glob::class::CharSpecifier::{CharRange, SingleChar};
use glob::class::{in_char_specifiers, parse_char_specifiers};
use glob::order::{comes_before, sort_descending};
use glob::segments::{copy_range, file_name_of, join_path};
use glob::text::{push_decimal, to_chars, to_text};
use glob::{MatchOptions, MatchResult, Pattern};

fn chars(s: &str) -> Vec<char> {
    s.chars().collect()
}

#[test]
fn text_goes_to_characters_and_back() {
    for s in ["", "a", "héllo/wörld", "日本語", "a*b"] {
        assert_eq!(to_chars(s), chars(s));
        assert_eq!(to_text(&chars(s)), s);
    }
}

#[test]
fn numbers_are_written_in_decimal() {
    for (n, text) in [(0usize, "0"), (7, "7"), (10, "10"), (99, "99"), (100, "100"), (12345, "12345")] {
        let mut out = chars("at ");
        push_decimal(&mut out, n);
        assert_eq!(to_text(&out), format!("at {}", text));
    }
    let mut out = Vec::new();
    push_decimal(&mut out, usize::MAX);
    assert_eq!(to_text(&out), usize::MAX.to_string());
}

#[test]
fn only_ascii_capitals_are_folded() {
    assert_eq!(to_ascii_lower('A'), 'a');
    assert_eq!(to_ascii_lower('Z'), 'z');
    assert_eq!(to_ascii_lower('m'), 'm');
    assert_eq!(to_ascii_lower('@'), '@');
    assert_eq!(to_ascii_lower('['), '[');
    assert_eq!(to_ascii_lower('É'), 'É');
    assert!(chars_eq('a', 'A', false));
    assert!(!chars_eq('a', 'A', true));
    assert!(chars_eq('é', 'é', false));
    assert!(!chars_eq('é', 'É', false));
    assert!(!chars_eq('a', 'b', false));
    assert!(is_sep('/'));
    assert!(!is_sep('\\'));
}

#[test]
fn class_bodies_are_read_left_to_right() {
    let read = |s: &str| parse_char_specifiers(&chars(s), 0, s.chars().count());
    assert_eq!(read(""), vec![]);
    assert_eq!(read("abc"), vec![SingleChar('a'), SingleChar('b'), SingleChar('c')]);
    assert_eq!(read("a-c"), vec![CharRange('a', 'c')]);
    assert_eq!(read("a-cx"), vec![CharRange('a', 'c'), SingleChar('x')]);
    assert_eq!(read("abc-"), vec![SingleChar('a'), SingleChar('b'), SingleChar('c'), SingleChar('-')]);
    assert_eq!(read("-abc"), vec![SingleChar('-'), SingleChar('a'), SingleChar('b'), SingleChar('c')]);
    assert_eq!(read("a-c-"), vec![CharRange('a', 'c'), SingleChar('-')]);
    assert_eq!(read("a-c-e"), vec![CharRange('a', 'c'), SingleChar('-'), SingleChar('e')]);
    assert_eq!(read("a-c--e"), vec![CharRange('a', 'c'), CharRange('-', 'e')]);
    assert_eq!(read("---"), vec![CharRange('-', '-')]);
    assert_eq!(read("a-"), vec![SingleChar('a'), SingleChar('-')]);
    // a part of a longer text
    assert_eq!(parse_char_specifiers(&chars("[!0-9]"), 2, 5), vec![CharRange('0', '9')]);
}

#[test]
fn a_class_holds_what_one_of_its_members_holds() {
    let class = vec![SingleChar('x'), CharRange('b', 'd')];
    let with_case = MatchOptions::new();
    let without = MatchOptions { case_sensitive: false, ..MatchOptions::new() };
    assert!(in_char_specifiers(&class, 'x', &with_case));
    assert!(in_char_specifiers(&class, 'c', &with_case));
    assert!(!in_char_specifiers(&class, 'C', &with_case));
    assert!(!in_char_specifiers(&class, 'X', &with_case));
    assert!(in_char_specifiers(&class, 'C', &without));
    assert!(in_char_specifiers(&class, 'X', &without));
    assert!(!in_char_specifiers(&class, 'e', &without));
    assert!(!in_char_specifiers(&vec![], 'a', &without));
}

#[test]
fn names_are_joined_onto_directories() {
    let join = |base: &str, name: &str| to_text(&join_path(&chars(base), &chars(name)));
    assert_eq!(join("a", "b"), "a/b");
    assert_eq!(join("a/", "b"), "a/b");
    assert_eq!(join("/", "b"), "/b");
    assert_eq!(join(".", "b"), "b");
    assert_eq!(join(".", "."), ".");
    assert_eq!(join(".", ".."), "..");
    assert_eq!(join("..", "b"), "../b");
    assert_eq!(join("a", ".."), "a/..");
    assert_eq!(join("a/..", "b"), "a/../b");
    assert_eq!(join("a", ""), "a");
    assert_eq!(join("/", ""), "/");
    assert_eq!(join("", "b"), "b");
    assert_eq!(join("./a", "b"), "./a/b");
}

#[test]
fn the_file_name_is_what_follows_the_last_separator() {
    let name = |path: &str| to_text(&file_name_of(&chars(path)));
    assert_eq!(name("a/b/c.txt"), "c.txt");
    assert_eq!(name("c.txt"), "c.txt");
    assert_eq!(name("/c"), "c");
    assert_eq!(name("a/"), "");
    assert_eq!(name("/"), "");
    assert_eq!(name(""), "");
    assert_eq!(name("a/.."), "..");
    assert_eq!(to_text(&copy_range(&chars("abcdef"), 2, 4)), "cd");
    assert_eq!(to_text(&copy_range(&chars("abcdef"), 3, 3)), "");
}

#[test]
fn names_are_ordered_by_code_point() {
    let before = |a: &str, b: &str| comes_before(&chars(a), &chars(b));
    assert!(before("a", "b"));
    assert!(!before("b", "a"));
    assert!(!before("a", "a"));
    assert!(before("", "a"));
    assert!(!before("a", ""));
    assert!(!before("", ""));
    assert!(before("a", "ab"));
    assert!(before("ab", "b"));
    assert!(before("B", "a"));
    assert!(before("a.md", "another"));
    assert!(before("z", "é"));
}

#[test]
fn names_are_sorted_in_descending_order() {
    let sort = |names: &[&str]| -> Vec<String> {
        let names: Vec<String> = names.iter().map(|s| s.to_string()).collect();
        sort_descending(&names).iter().map(to_text).collect()
    };
    assert_eq!(sort(&[]), Vec::<String>::new());
    assert_eq!(sort(&["a"]), vec!["a"]);
    assert_eq!(sort(&["a", "c", "b"]), vec!["c", "b", "a"]);
    assert_eq!(sort(&["c", "b", "a"]), vec!["c", "b", "a"]);
    assert_eq!(sort(&["a", "b", "c"]), vec!["c", "b", "a"]);
    assert_eq!(sort(&["b", "a", "b", "ab", ""]), vec!["b", "b", "ab", "a", ""]);
    assert_eq!(sort(&["one", "another", "a.md", "Two"]), vec!["one", "another", "a.md", "Two"]);
}

#[test]
fn literal_text_of_a_pattern() {
    assert_eq!(Pattern::new("abc").unwrap().pattern_as_str(), Some(chars("abc")));
    assert_eq!(Pattern::new("").unwrap().pattern_as_str(), Some(vec![]));
    assert_eq!(Pattern::new("..").unwrap().pattern_as_str(), Some(chars("..")));
    assert_eq!(Pattern::new("a!-b").unwrap().pattern_as_str(), Some(chars("a!-b")));
    assert_eq!(Pattern::new("a*c").unwrap().pattern_as_str(), None);
    assert_eq!(Pattern::new("a[b]c").unwrap().pattern_as_str(), None);
    assert_eq!(Pattern::new("**").unwrap().pattern_as_str(), None);
    assert_eq!(Pattern::new("ab?").unwrap().pattern_as_str(), None);
    assert!(Pattern::new(".*").unwrap().has_leading_dot());
    assert!(Pattern::new(".").unwrap().has_leading_dot());
    assert!(!Pattern::new("*.").unwrap().has_leading_dot());
    assert!(!Pattern::new("[.]").unwrap().has_leading_dot());
    assert!(!Pattern::new("").unwrap().has_leading_dot());
}

#[test]
fn patterns_compile_from_characters() {
    let p = Pattern::compile_chars(&chars("a/**/b")).unwrap();
    assert_eq!(p.as_str(), "a/**/b");
    assert!(p.is_recursive());
    assert!(p.matches_chars(&chars("a/x/y/b"), &MatchOptions::new()));
    assert!(!p.matches_chars(&chars("a/x/y/c"), &MatchOptions::new()));
    assert_eq!(Pattern::compile_chars(&chars("a/***")).unwrap_err().pos, 4);
    assert_eq!(p, Pattern::new("a/**/b").unwrap());
    assert_eq!(p.clone(), p);
}

#[test]
fn the_search_tells_failing_here_from_failing_for_good() {
    let o = MatchOptions::new();
    let from = |p: &str, text: &str, start: usize, i: usize| {
        Pattern::new(p).unwrap().matches_from(&chars(text), start, i, &o)
    };
    assert_eq!(from("abc", "abc", 0, 0), MatchResult::Match);
    assert_eq!(from("abc", "abc", 1, 1), MatchResult::Match);
    assert_eq!(from("abc", "abc", 3, 3), MatchResult::Match);
    // a character that does not fit fails this attempt only
    assert_eq!(from("abc", "abd", 0, 0), MatchResult::SubPatternDoesntMatch);
    // so do characters left over at the end
    assert_eq!(from("abc", "abcd", 0, 0), MatchResult::SubPatternDoesntMatch);
    assert_eq!(from("", "a", 0, 0), MatchResult::SubPatternDoesntMatch);
    // a text that is too short fails for good
    assert_eq!(from("abc", "ab", 0, 0), MatchResult::EntirePatternDoesntMatch);
    assert_eq!(from("a", "", 0, 0), MatchResult::EntirePatternDoesntMatch);
    assert_eq!(from("?", "", 0, 0), MatchResult::EntirePatternDoesntMatch);
    // a wildcard that runs out of text fails for good
    assert_eq!(from("a*b", "accc", 0, 0), MatchResult::EntirePatternDoesntMatch);
    assert_eq!(from("*b", "ccc", 1, 0), MatchResult::EntirePatternDoesntMatch);
    assert_eq!(from("a*b", "acccb", 0, 0), MatchResult::Match);
    assert_eq!(from("*", "", 0, 0), MatchResult::Match);
    assert_eq!(from("*", "abc", 0, 0), MatchResult::Match);
    assert_eq!(from("a*", "b", 0, 0), MatchResult::SubPatternDoesntMatch);
    // a wildcard stops at a character that it may not take
    let literal = MatchOptions { require_literal_separator: true, ..MatchOptions::new() };
    let p = Pattern::new("a*b").unwrap();
    assert_eq!(p.matches_from(&chars("ac/b"), 0, 0, &literal), MatchResult::SubPatternDoesntMatch);
    assert_eq!(p.matches_from(&chars("ac/b"), 0, 0, &o), MatchResult::Match);
    let p = Pattern::new("a/**/b").unwrap();
    assert_eq!(p.matches_from(&chars("a/c/d/b"), 0, 0, &literal), MatchResult::Match);
    assert_eq!(p.matches_from(&chars("a/c/d/"), 0, 0, &literal), MatchResult::EntirePatternDoesntMatch);
}
