use glob::{MatchOptions, Pattern};
use std::path::Path;

#[test]
fn test_wildcard_errors() {
    assert!(Pattern::new("a/**b").unwrap_err().pos == 4);
    assert!(Pattern::new("a/bc**").unwrap_err().pos == 3);
    assert!(Pattern::new("a/*****").unwrap_err().pos == 4);
    assert!(Pattern::new("a/b**c**d").unwrap_err().pos == 2);
    assert!(Pattern::new("a**b").unwrap_err().pos == 0);
}

#[test]
fn test_unclosed_bracket_errors() {
    assert!(Pattern::new("abc[def").unwrap_err().pos == 3);
    assert!(Pattern::new("abc[!def").unwrap_err().pos == 3);
    assert!(Pattern::new("abc[").unwrap_err().pos == 3);
    assert!(Pattern::new("abc[!").unwrap_err().pos == 3);
    assert!(Pattern::new("abc[d").unwrap_err().pos == 3);
    assert!(Pattern::new("abc[!d").unwrap_err().pos == 3);
    assert!(Pattern::new("abc[]").unwrap_err().pos == 3);
    assert!(Pattern::new("abc[!]").unwrap_err().pos == 3);
}

#[test]
fn test_wildcards() {
    assert!(Pattern::new("a*b").unwrap().matches("a_b"));
    assert!(Pattern::new("a*b*c").unwrap().matches("abc"));
    assert!(!Pattern::new("a*b*c").unwrap().matches("abcd"));
    assert!(Pattern::new("a*b*c").unwrap().matches("a_b_c"));
    assert!(Pattern::new("a*b*c").unwrap().matches("a___b___c"));
    assert!(Pattern::new("abc*abc*abc").unwrap().matches("abcabcabcabcabcabcabc"));
    assert!(!Pattern::new("abc*abc*abc").unwrap().matches("abcabcabcabcabcabcabca"));
    assert!(Pattern::new("a*a*a*a*a*a*a*a*a").unwrap().matches("aaaaaaaaaaaaaaaaaaaaaaaaaaaaaaa"));
    assert!(Pattern::new("a*b[xyz]c*d").unwrap().matches("abxcdbxcddd"));
}

#[test]
fn test_recursive_wildcards() {
    let pat = Pattern::new("some/**/needle.txt").unwrap();
    assert!(pat.matches("some/needle.txt"));
    assert!(pat.matches("some/one/needle.txt"));
    assert!(pat.matches("some/one/two/needle.txt"));
    assert!(pat.matches("some/other/needle.txt"));
    assert!(!pat.matches("some/other/notthis.txt"));

    // a single ** should be valid, for globs
    assert!(Pattern::new("**").unwrap().is_recursive());

    // collapse consecutive wildcards
    let pat = Pattern::new("some/**/**/needle.txt").unwrap();
    assert!(pat.matches("some/needle.txt"));
    assert!(pat.matches("some/one/needle.txt"));
    assert!(pat.matches("some/one/two/needle.txt"));
    assert!(pat.matches("some/other/needle.txt"));
    assert!(!pat.matches("some/other/notthis.txt"));

    // ** can begin the pattern
    let pat = Pattern::new("**/test").unwrap();
    assert!(pat.matches("one/two/test"));
    assert!(pat.matches("one/test"));
    assert!(pat.matches("test"));

    // /** can begin the pattern
    let pat = Pattern::new("/**/test").unwrap();
    assert!(pat.matches("/one/two/test"));
    assert!(pat.matches("/one/test"));
    assert!(pat.matches("/test"));
    assert!(!pat.matches("/one/notthis"));
    assert!(!pat.matches("/notthis"));
}

#[test]
fn test_range_pattern() {
    let pat = Pattern::new("a[0-9]b").unwrap();
    for i in 0..10 {
        assert!(pat.matches(&format!("a{}b", i)));
    }
    assert!(!pat.matches("a_b"));

    let pat = Pattern::new("a[!0-9]b").unwrap();
    for i in 0..10 {
        assert!(!pat.matches(&format!("a{}b", i)));
    }
    assert!(pat.matches("a_b"));

    let pats = ["[a-z123]", "[1a-z23]", "[123a-z]"];
    for &p in pats.iter() {
        let pat = Pattern::new(p).unwrap();
        for c in "abcdefghijklmnopqrstuvwxyz".chars() {
            assert!(pat.matches(&c.to_string()));
        }
        for c in "ABCDEFGHIJKLMNOPQRSTUVWXYZ".chars() {
            let options = MatchOptions { case_sensitive: false, ..MatchOptions::new() };
            assert!(pat.matches_with(&c.to_string(), &options));
        }
        assert!(pat.matches("1"));
        assert!(pat.matches("2"));
        assert!(pat.matches("3"));
    }

    let pats = ["[abc-]", "[-abc]", "[a-c-]"];
    for &p in pats.iter() {
        let pat = Pattern::new(p).unwrap();
        assert!(pat.matches("a"));
        assert!(pat.matches("b"));
        assert!(pat.matches("c"));
        assert!(pat.matches("-"));
        assert!(!pat.matches("d"));
    }

    let pat = Pattern::new("[2-1]").unwrap();
    assert!(!pat.matches("1"));
    assert!(!pat.matches("2"));

    assert!(Pattern::new("[-]").unwrap().matches("-"));
    assert!(!Pattern::new("[!-]").unwrap().matches("-"));
}

#[test]
fn test_pattern_matches() {
    let txt_pat = Pattern::new("*hello.txt").unwrap();
    assert!(txt_pat.matches("hello.txt"));
    assert!(txt_pat.matches("gareth_says_hello.txt"));
    assert!(txt_pat.matches("some/path/to/hello.txt"));
    assert!(txt_pat.matches("some\\path\\to\\hello.txt"));
    assert!(txt_pat.matches("/an/absolute/path/to/hello.txt"));
    assert!(!txt_pat.matches("hello.txt-and-then-some"));
    assert!(!txt_pat.matches("goodbye.txt"));

    let dir_pat = Pattern::new("*some/path/to/hello.txt").unwrap();
    assert!(dir_pat.matches("some/path/to/hello.txt"));
    assert!(dir_pat.matches("a/bigger/some/path/to/hello.txt"));
    assert!(!dir_pat.matches("some/path/to/hello.txt-and-then-some"));
    assert!(!dir_pat.matches("some/other/path/to/hello.txt"));
}

#[test]
fn test_pattern_matches_case_insensitive() {
    let pat = Pattern::new("aBcDeFg").unwrap();
    let options = MatchOptions {
        case_sensitive: false,
        require_literal_separator: false,
        require_literal_leading_dot: false,
    };

    assert!(pat.matches_with("aBcDeFg", &options));
    assert!(pat.matches_with("abcdefg", &options));
    assert!(pat.matches_with("ABCDEFG", &options));
    assert!(pat.matches_with("AbCdEfG", &options));
}

#[test]
fn test_pattern_matches_case_insensitive_range() {
    let pat_within = Pattern::new("[a]").unwrap();
    let pat_except = Pattern::new("[!a]").unwrap();

    let options_case_insensitive = MatchOptions {
        case_sensitive: false,
        require_literal_separator: false,
        require_literal_leading_dot: false,
    };
    let options_case_sensitive = MatchOptions {
        case_sensitive: true,
        require_literal_separator: false,
        require_literal_leading_dot: false,
    };

    assert!(pat_within.matches_with("a", &options_case_insensitive));
    assert!(pat_within.matches_with("A", &options_case_insensitive));
    assert!(!pat_within.matches_with("A", &options_case_sensitive));

    assert!(!pat_except.matches_with("a", &options_case_insensitive));
    assert!(!pat_except.matches_with("A", &options_case_insensitive));
    assert!(pat_except.matches_with("A", &options_case_sensitive));
}

#[test]
fn test_pattern_matches_require_literal_separator() {
    let options_require_literal = MatchOptions {
        case_sensitive: true,
        require_literal_separator: true,
        require_literal_leading_dot: false,
    };
    let options_not_require_literal = MatchOptions {
        case_sensitive: true,
        require_literal_separator: false,
        require_literal_leading_dot: false,
    };

    assert!(Pattern::new("abc/def").unwrap().matches_with("abc/def", &options_require_literal));
    assert!(!Pattern::new("abc?def").unwrap().matches_with("abc/def", &options_require_literal));
    assert!(!Pattern::new("abc*def").unwrap().matches_with("abc/def", &options_require_literal));
    assert!(!Pattern::new("abc[/]def").unwrap().matches_with("abc/def", &options_require_literal));

    assert!(Pattern::new("abc/def").unwrap().matches_with("abc/def", &options_not_require_literal));
    assert!(Pattern::new("abc?def").unwrap().matches_with("abc/def", &options_not_require_literal));
    assert!(Pattern::new("abc*def").unwrap().matches_with("abc/def", &options_not_require_literal));
    assert!(Pattern::new("abc[/]def").unwrap().matches_with("abc/def", &options_not_require_literal));
}

#[test]
fn test_pattern_matches_require_literal_leading_dot() {
    let options_require_literal_leading_dot = MatchOptions {
        case_sensitive: true,
        require_literal_separator: false,
        require_literal_leading_dot: true,
    };
    let options_not_require_literal_leading_dot = MatchOptions {
        case_sensitive: true,
        require_literal_separator: false,
        require_literal_leading_dot: false,
    };

    let f = |options| Pattern::new("*.txt").unwrap().matches_with(".hello.txt", options);
    assert!(f(&options_not_require_literal_leading_dot));
    assert!(!f(&options_require_literal_leading_dot));

    let f = |options| Pattern::new(".*.*").unwrap().matches_with(".hello.txt", options);
    assert!(f(&options_not_require_literal_leading_dot));
    assert!(f(&options_require_literal_leading_dot));

    let f = |options| Pattern::new("aaa/bbb/*").unwrap().matches_with("aaa/bbb/.ccc", options);
    assert!(f(&options_not_require_literal_leading_dot));
    assert!(!f(&options_require_literal_leading_dot));

    let f = |options| Pattern::new("aaa/bbb/*").unwrap().matches_with("aaa/bbb/c.c.c.", options);
    assert!(f(&options_not_require_literal_leading_dot));
    assert!(f(&options_require_literal_leading_dot));

    let f = |options| Pattern::new("aaa/bbb/.*").unwrap().matches_with("aaa/bbb/.ccc", options);
    assert!(f(&options_not_require_literal_leading_dot));
    assert!(f(&options_require_literal_leading_dot));

    let f = |options| Pattern::new("aaa/?bbb").unwrap().matches_with("aaa/.bbb", options);
    assert!(f(&options_not_require_literal_leading_dot));
    assert!(!f(&options_require_literal_leading_dot));

    let f = |options| Pattern::new("aaa/[.]bbb").unwrap().matches_with("aaa/.bbb", options);
    assert!(f(&options_not_require_literal_leading_dot));
    assert!(!f(&options_require_literal_leading_dot));
}

#[test]
fn test_matches_path() {
    // `/` is the separator of a path as it is that of a pattern
    assert!(Pattern::new("a/b").unwrap().matches_path(&Path::new("a/b")));
}

#[test]
fn test_pattern_escape() {
    let s = "_[_]_?_*_!_";
    assert_eq!(Pattern::escape(s), "_[[]_[]]_[?]_[*]_!_".to_string());
    assert!(Pattern::new(&Pattern::escape(s)).unwrap().matches(s));
}

#[test]
fn escaped_text_matches_itself_and_nothing_else() {
    let options = [
        MatchOptions::new(),
        MatchOptions { require_literal_separator: true, ..MatchOptions::new() },
        MatchOptions { require_literal_leading_dot: true, ..MatchOptions::new() },
        MatchOptions { case_sensitive: false, ..MatchOptions::new() },
    ];
    for s in ["", "plain", "a*b", "[x]", "]]][[[", "?", ".hidden/*.txt", "**", "a/**/b", "[!a-z]", "é*", "-"] {
        let pattern = Pattern::new(&Pattern::escape(s)).unwrap();
        for o in options.iter() {
            assert!(pattern.matches_with(s, o));
        }
        assert!(!pattern.matches(&format!("{}x", s)));
        assert!(!pattern.matches(&format!("x{}", s)));
        assert!(!pattern.is_recursive());
    }
    assert!(!Pattern::new(&Pattern::escape("a*b")).unwrap().matches("aXb"));
    assert!(!Pattern::new(&Pattern::escape("a?b")).unwrap().matches("aXb"));
    assert_eq!(Pattern::escape("!"), "!");
    assert_eq!(Pattern::escape(""), "");
}

#[test]
fn recursive_wildcards_that_compile() {
    for p in ["**", "**/x", "/**/x", "a/**", "a/**/b", "**/**", "a/**/**/b"] {
        assert!(Pattern::new(p).unwrap().is_recursive());
    }
    for p in ["", "*", "a/*/b", "[*][*]", "a?"] {
        assert!(!Pattern::new(p).unwrap().is_recursive());
    }
}

#[test]
fn each_error_has_its_message() {
    let e = Pattern::new("a/*****").unwrap_err();
    assert_eq!(e.msg, "wildcards are either regular `*` or recursive `**`");
    let e = Pattern::new("a/**b").unwrap_err();
    assert_eq!(e.msg, "recursive wildcards must form a single path component");
    let e = Pattern::new("a**b").unwrap_err();
    assert_eq!(e.msg, "recursive wildcards must form a single path component");
    let e = Pattern::new("abc[def").unwrap_err();
    assert_eq!(e.msg, "invalid range pattern");
    assert_eq!(Pattern::new("[").unwrap_err().pos, 0);
    assert_eq!(Pattern::new("[!").unwrap_err().pos, 0);
    assert_eq!(Pattern::new("***").unwrap_err().pos, 2);
    assert_eq!(Pattern::new("**a").unwrap_err().pos, 2);
}

#[test]
fn errors_are_shown_with_their_position() {
    assert_eq!(
        Pattern::new("abc[def").unwrap_err().to_string(),
        "Pattern syntax error near position 3: invalid range pattern"
    );
    assert_eq!(
        Pattern::new("0123456789/**b").unwrap_err().to_string(),
        "Pattern syntax error near position 13: recursive wildcards must form a single path component"
    );
    assert_eq!(
        Pattern::new("***").unwrap_err().to_string(),
        "Pattern syntax error near position 2: wildcards are either regular `*` or recursive `**`"
    );
    assert_eq!(Pattern::new("[").unwrap_err().to_string(), "Pattern syntax error near position 0: invalid range pattern");
}

#[test]
fn a_pattern_keeps_its_text() {
    for p in ["", "a/**/b", "[!a-z]*", "é?"] {
        assert_eq!(Pattern::new(p).unwrap().as_str(), p);
        assert_eq!(Pattern::new(p).unwrap().to_string(), p);
    }
    assert_eq!(Pattern::default().as_str(), "");
    assert!(Pattern::default().matches(""));
    assert!(!Pattern::default().matches("a"));
}

#[test]
fn bracket_classes_with_brackets() {
    let pat = Pattern::new("[]]").unwrap();
    assert!(pat.matches("]"));
    assert!(!pat.matches("["));
    assert!(!pat.matches(""));
    let pat = Pattern::new("[!]]").unwrap();
    assert!(!pat.matches("]"));
    assert!(pat.matches("["));
    assert!(pat.matches("a"));
    assert!(!pat.matches(""));
    assert!(!pat.matches("ab"));
    let pat = Pattern::new("[]-a]").unwrap();
    assert!(pat.matches("]"));
    assert!(pat.matches("^"));
    assert!(pat.matches("a"));
    assert!(!pat.matches("b"));
}

#[test]
fn a_digit_range_takes_the_digits_and_nothing_else() {
    let pat = Pattern::new("a[0-9]b").unwrap();
    for c in ['/', ':', 'a', ' ', '٣'] {
        assert!(!pat.matches(&format!("a{}b", c)));
    }
    assert!(!pat.matches("a55b"));
    assert!(!pat.matches("ab"));
    assert!(!pat.matches("a5"));
    let not = Pattern::new("[!0-9]").unwrap();
    let is = Pattern::new("[0-9]").unwrap();
    for c in ['0', '5', '9', '/', ':', 'a', '.', 'é'] {
        assert_eq!(not.matches(&c.to_string()), !is.matches(&c.to_string()));
    }
}

#[test]
fn ranges_ignore_case_only_between_letters_of_one_case() {
    let insensitive = MatchOptions { case_sensitive: false, ..MatchOptions::new() };
    let lower = Pattern::new("[a-f]").unwrap();
    assert!(lower.matches_with("c", &insensitive));
    assert!(lower.matches_with("C", &insensitive));
    assert!(!lower.matches_with("g", &insensitive));
    assert!(!lower.matches_with("G", &insensitive));
    assert!(!lower.matches("C"));
    let upper = Pattern::new("[A-F]").unwrap();
    assert!(upper.matches_with("c", &insensitive));
    assert!(upper.matches_with("C", &insensitive));
    assert!(!upper.matches_with("g", &insensitive));
    assert!(!upper.matches("c"));
    // `Z` to `a` holds `[ \ ] ^ _` and a backquote, but no letter between
    let mixed = Pattern::new("[Z-a]").unwrap();
    assert!(mixed.matches_with("Z", &insensitive));
    assert!(mixed.matches_with("a", &insensitive));
    assert!(mixed.matches_with("_", &insensitive));
    assert!(!mixed.matches_with("z", &insensitive));
    assert!(!mixed.matches_with("A", &insensitive));
    // a range over all of `A` to `z` stays as it is written
    let wide = Pattern::new("[A-z]").unwrap();
    assert!(wide.matches_with("m", &insensitive));
    assert!(wide.matches_with("M", &insensitive));
    assert!(!wide.matches_with("1", &insensitive));
    // `0` to `a` holds the capital letters, and of the small ones only `a`
    let digits = Pattern::new("[0-a]").unwrap();
    assert!(digits.matches_with("a", &insensitive));
    assert!(digits.matches_with("B", &insensitive));
    assert!(!digits.matches_with("b", &insensitive));
}

#[test]
fn case_is_ignored_for_ascii_letters_only() {
    let insensitive = MatchOptions { case_sensitive: false, ..MatchOptions::new() };
    assert!(Pattern::new("straße").unwrap().matches_with("STRAßE", &insensitive));
    assert!(!Pattern::new("é").unwrap().matches_with("É", &insensitive));
    assert!(Pattern::new("[k]").unwrap().matches_with("K", &insensitive));
    assert!(!Pattern::new("[k]").unwrap().matches_with("K", &MatchOptions::new()));
}

#[test]
fn default_options_switch_everything_off() {
    let o = MatchOptions::default();
    assert!(!o.case_sensitive);
    assert!(!o.require_literal_separator);
    assert!(!o.require_literal_leading_dot);
    let n = MatchOptions::new();
    assert!(n.case_sensitive);
    assert!(!n.require_literal_separator);
    assert!(!n.require_literal_leading_dot);
}

#[test]
fn only_a_recursive_wildcard_or_a_literal_crosses_a_separator() {
    let o = MatchOptions { require_literal_separator: true, ..MatchOptions::new() };
    assert!(Pattern::new("**/b").unwrap().matches_with("x/y/b", &o));
    assert!(Pattern::new("a/**").unwrap().matches_with("a/x/y", &o));
    assert!(!Pattern::new("a/*").unwrap().matches_with("a/x/y", &o));
    assert!(!Pattern::new("*").unwrap().matches_with("/", &o));
    assert!(!Pattern::new("[!a]").unwrap().matches_with("/", &o));
    assert!(Pattern::new("[!a]").unwrap().matches("/"));
}

#[test]
fn a_dot_after_a_separator_is_a_leading_dot() {
    let o = MatchOptions { require_literal_leading_dot: true, ..MatchOptions::new() };
    assert!(Pattern::new("*.txt").unwrap().matches_with(".txt", &o));
    assert!(!Pattern::new("*").unwrap().matches_with(".txt", &o));
    assert!(!Pattern::new("a/*").unwrap().matches_with("a/.txt", &o));
    assert!(Pattern::new("a*").unwrap().matches_with("a.txt", &o));
    assert!(Pattern::new("**").unwrap().matches_with(".a/.b", &o));
    assert!(!Pattern::new("[!a]x").unwrap().matches_with(".x", &o));
}

#[test]
fn matching_a_path_goes_by_its_text() {
    let pat = Pattern::new("*.rs").unwrap();
    assert!(pat.matches_path(Path::new("lib.rs")));
    assert!(!pat.matches_path(Path::new("lib.rb")));
    let o = MatchOptions { require_literal_separator: true, ..MatchOptions::new() };
    assert!(pat.matches_path_with(Path::new("lib.rs"), &o));
    assert!(!pat.matches_path_with(Path::new("src/lib.rs"), &o));
    assert!(pat.matches_path_with(Path::new("src/lib.rs"), &MatchOptions::new()));
}
