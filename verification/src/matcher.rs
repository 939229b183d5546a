//! Matching a compiled pattern against a candidate string.

use vstd::prelude::*;
use std::path::Path;
use crate::chars::{chars_eq, chars_match, is_sep, is_separator, lemma_seq_chars_are_scalars};
use crate::class::{class_contains, in_char_specifiers, CharSpecifier};
use crate::options::MatchOptions;
use crate::pattern::{tokens_of, Pattern, PatternToken, Token};
use crate::text::to_chars;

verus! {

broadcast use lemma_seq_chars_are_scalars;

/// Whether the character at offset `k` of `text` can only be matched by a
/// literal: a separator where the options ask for literal separators, or a
/// `.` at the start of a path component where they ask for literal leading
/// dots.
pub open spec fn must_be_literal(text: Seq<char>, k: int, options: MatchOptions) -> bool {
    ||| options.require_literal_separator && is_separator(text[k])
    ||| options.require_literal_leading_dot && text[k] == '.' && (k == 0 || is_separator(
        text[k - 1],
    ))
}

/// Whether the token is one of the two wildcards, which take any number of
/// characters.
pub open spec fn is_wildcard(token: Token) -> bool {
    token is AnySequence || token is AnyRecursiveSequence
}

/// Whether `token` can take the character at offset `k` of `text`.
pub open spec fn token_accepts(token: Token, text: Seq<char>, k: int, options: MatchOptions) -> bool {
    match token {
        Token::Char(c) => chars_match(text[k], c, options.case_sensitive),
        Token::AnyChar => !must_be_literal(text, k, options),
        Token::AnySequence => !must_be_literal(text, k, options),
        Token::AnyRecursiveSequence => true,
        Token::AnyWithin(class) => !must_be_literal(text, k, options) && class_contains(
            class,
            text[k],
            options.case_sensitive,
        ),
        Token::AnyExcept(class) => !must_be_literal(text, k, options) && !class_contains(
            class,
            text[k],
            options.case_sensitive,
        ),
    }
}

/// Whether the tokens from index `i` on match `text` from offset `k` to its
/// end. A wildcard either takes nothing, or takes one character and goes on;
/// every other token takes exactly one character.
pub open spec fn matches_at(
    tokens: Seq<Token>,
    i: int,
    text: Seq<char>,
    k: int,
    options: MatchOptions,
) -> bool
    decreases tokens.len() - i, text.len() - k,
{
    if i < 0 || k < 0 {
        false
    } else if i >= tokens.len() {
        k == text.len()
    } else if is_wildcard(tokens[i]) {
        ||| matches_at(tokens, i + 1, text, k, options)
        ||| (k < text.len() && token_accepts(tokens[i], text, k, options) && matches_at(
            tokens,
            i,
            text,
            k + 1,
            options,
        ))
    } else {
        k < text.len() && token_accepts(tokens[i], text, k, options) && matches_at(
            tokens,
            i + 1,
            text,
            k + 1,
            options,
        )
    }
}

/// Whether the tokens match the whole of `text`.
pub open spec fn matches_text(tokens: Seq<Token>, text: Seq<char>, options: MatchOptions) -> bool {
    matches_at(tokens, 0, text, 0, options)
}

/// What a path holds as text, if it is valid Unicode.
pub uninterp spec fn path_text(path: &Path) -> Option<Seq<char>>;

/// `std::path::Path`, of which nothing is known here but what
/// [`path_text`] names.
#[verifier::external_type_specification]
#[verifier::external_body]
pub struct ExPath(Path);

/// `Path::to_str` yields the path as a string slice if it is valid Unicode,
/// and nothing otherwise.
pub assume_specification<'a>[ Path::to_str ](path: &'a Path) -> (text: Option<&'a str>)
    ensures
        path_text(path) == match text {
            Some(s) => Some(s@),
            None => None,
        },
;

/// The outcome of one matching attempt. It steers the search rather than
/// reporting an error.
#[derive(Clone, Copy, PartialEq, Eq, Structural, Debug)]
pub enum MatchResult {
    /// The tokens match.
    Match,
    /// This attempt failed; a wildcard before it may still take more.
    SubPatternDoesntMatch,
    /// No attempt further along the candidate can succeed.
    EntirePatternDoesntMatch,
}

/// Nothing matches from beyond the end of the text.
pub proof fn lemma_no_match_past_end(
    tokens: Seq<Token>,
    i: int,
    text: Seq<char>,
    k: int,
    options: MatchOptions,
)
    requires
        k > text.len(),
    ensures
        !matches_at(tokens, i, text, k, options),
    decreases tokens.len() - i,
{
    if 0 <= i < tokens.len() && is_wildcard(tokens[i]) {
        lemma_no_match_past_end(tokens, i + 1, text, k, options);
    }
}

/// A wildcard can only match where the tokens after it match somewhere
/// further along.
pub proof fn lemma_wildcard_needs_rest(
    tokens: Seq<Token>,
    i: int,
    text: Seq<char>,
    k: int,
    options: MatchOptions,
)
    requires
        0 <= i < tokens.len(),
        is_wildcard(tokens[i]),
        forall|x: int|
            k <= x <= text.len() ==> !#[trigger] matches_at(tokens, i + 1, text, x, options),
    ensures
        !matches_at(tokens, i, text, k, options),
    decreases text.len() - k,
{
    if k > text.len() {
        lemma_no_match_past_end(tokens, i, text, k, options);
    } else if 0 <= k {
        if k < text.len() {
            lemma_wildcard_needs_rest(tokens, i, text, k + 1, options);
        }
        assert(!matches_at(tokens, i + 1, text, k, options));
    }
}

/// A negated class takes exactly the characters that the class itself does
/// not take, among those that need no literal.
pub proof fn lemma_negated_class_is_complement(
    class: Seq<CharSpecifier>,
    c: char,
    options: MatchOptions,
)
    requires
        !must_be_literal(seq![c], 0, options),
    ensures
        matches_text(seq![Token::AnyExcept(class)], seq![c], options) == !matches_text(
            seq![Token::AnyWithin(class)],
            seq![c],
            options,
        ),
{
    let text = seq![c];
    let within = seq![Token::AnyWithin(class)];
    let except = seq![Token::AnyExcept(class)];
    assert(matches_at(within, 1, text, 1, options));
    assert(matches_at(except, 1, text, 1, options));
}

/// Two recursive wildcards in a row match what one of them matches: taking
/// out the second changes nothing from any token and any offset on.
proof fn lemma_repeated_recursive_wildcard_at(
    tokens: Seq<Token>,
    at: int,
    i: int,
    text: Seq<char>,
    k: int,
    options: MatchOptions,
)
    requires
        0 <= at,
        at + 1 < tokens.len(),
        tokens[at] is AnyRecursiveSequence,
        tokens[at + 1] is AnyRecursiveSequence,
        0 <= i <= tokens.len(),
    ensures
        matches_at(tokens, i, text, k, options) == matches_at(
            tokens.remove(at + 1),
            if i <= at {
                i
            } else {
                i - 1
            },
            text,
            k,
            options,
        ),
    decreases tokens.len() - i, text.len() - k,
{
    let fewer = tokens.remove(at + 1);
    if k < 0 {
    } else if i == tokens.len() {
    } else if i > at + 1 {
        assert(fewer[i - 1] == tokens[i]);
        lemma_repeated_recursive_wildcard_at(tokens, at, i + 1, text, k, options);
        if k < text.len() {
            lemma_repeated_recursive_wildcard_at(tokens, at, i + 1, text, k + 1, options);
            lemma_repeated_recursive_wildcard_at(tokens, at, i, text, k + 1, options);
        }
    } else if i == at + 1 {
        // the wildcard that is taken out: the one before it does its work
        assert(fewer[at] == tokens[at]);
        lemma_repeated_recursive_wildcard_at(tokens, at, i + 1, text, k, options);
        if k < text.len() {
            lemma_repeated_recursive_wildcard_at(tokens, at, i, text, k + 1, options);
        }
    } else {
        assert(fewer[i] == tokens[i]);
        lemma_repeated_recursive_wildcard_at(tokens, at, i + 1, text, k, options);
        if k < text.len() {
            lemma_repeated_recursive_wildcard_at(tokens, at, i + 1, text, k + 1, options);
            lemma_repeated_recursive_wildcard_at(tokens, at, i, text, k + 1, options);
        }
    }
}

/// Two recursive wildcards in a row match exactly what one of them
/// matches.
pub proof fn lemma_repeated_recursive_wildcard(
    tokens: Seq<Token>,
    at: int,
    text: Seq<char>,
    options: MatchOptions,
)
    requires
        0 <= at,
        at + 1 < tokens.len(),
        tokens[at] is AnyRecursiveSequence,
        tokens[at + 1] is AnyRecursiveSequence,
    ensures
        matches_text(tokens, text, options) == matches_text(tokens.remove(at + 1), text, options),
{
    lemma_repeated_recursive_wildcard_at(tokens, at, 0, text, 0, options);
}

/// Whether a token can take a separator where separators must be literal.
pub open spec fn crosses_separators(token: Token) -> bool {
    token is AnyRecursiveSequence || token == Token::Char('/')
}

/// Whether a token can take a leading dot where leading dots must be
/// literal.
pub open spec fn takes_leading_dot(token: Token) -> bool {
    token is AnyRecursiveSequence || token == Token::Char('.')
}

/// Where separators must be literal, tokens of which none crosses a
/// separator match no text with a separator in what they take.
proof fn lemma_separator_needs_literal_at(
    tokens: Seq<Token>,
    i: int,
    text: Seq<char>,
    k: int,
    options: MatchOptions,
    sep: int,
)
    requires
        options.require_literal_separator,
        forall|j: int| 0 <= j < tokens.len() ==> !crosses_separators(#[trigger] tokens[j]),
        0 <= i,
        0 <= k <= sep < text.len(),
        is_separator(text[sep]),
    ensures
        !matches_at(tokens, i, text, k, options),
    decreases tokens.len() - i, text.len() - k,
{
    if i < tokens.len() {
        assert(!crosses_separators(tokens[i]));
        if k < sep {
            lemma_separator_needs_literal_at(tokens, i + 1, text, k + 1, options, sep);
            lemma_separator_needs_literal_at(tokens, i, text, k + 1, options, sep);
        }
        lemma_separator_needs_literal_at(tokens, i + 1, text, k, options, sep);
    }
}

/// Where separators must be literal, a pattern without a literal `/` and
/// without a recursive wildcard matches no text that has a separator in it.
pub proof fn lemma_separator_needs_literal(
    tokens: Seq<Token>,
    text: Seq<char>,
    options: MatchOptions,
    sep: int,
)
    requires
        options.require_literal_separator,
        forall|j: int| 0 <= j < tokens.len() ==> !crosses_separators(#[trigger] tokens[j]),
        0 <= sep < text.len(),
        is_separator(text[sep]),
    ensures
        !matches_text(tokens, text, options),
{
    lemma_separator_needs_literal_at(tokens, 0, text, 0, options, sep);
}

/// Where leading dots must be literal, tokens of which none takes a leading
/// dot match no text with a leading dot in what they take.
proof fn lemma_leading_dot_needs_literal_at(
    tokens: Seq<Token>,
    i: int,
    text: Seq<char>,
    k: int,
    options: MatchOptions,
    dot: int,
)
    requires
        options.require_literal_leading_dot,
        forall|j: int| 0 <= j < tokens.len() ==> !takes_leading_dot(#[trigger] tokens[j]),
        0 <= i,
        0 <= k <= dot < text.len(),
        text[dot] == '.',
        dot == 0 || is_separator(text[dot - 1]),
    ensures
        !matches_at(tokens, i, text, k, options),
    decreases tokens.len() - i, text.len() - k,
{
    if i < tokens.len() {
        assert(!takes_leading_dot(tokens[i]));
        if k < dot {
            lemma_leading_dot_needs_literal_at(tokens, i + 1, text, k + 1, options, dot);
            lemma_leading_dot_needs_literal_at(tokens, i, text, k + 1, options, dot);
        }
        lemma_leading_dot_needs_literal_at(tokens, i + 1, text, k, options, dot);
    }
}

/// Where leading dots must be literal, a pattern without a literal `.` and
/// without a recursive wildcard matches no text in which a path component
/// starts with a dot.
pub proof fn lemma_leading_dot_needs_literal(
    tokens: Seq<Token>,
    text: Seq<char>,
    options: MatchOptions,
    dot: int,
)
    requires
        options.require_literal_leading_dot,
        forall|j: int| 0 <= j < tokens.len() ==> !takes_leading_dot(#[trigger] tokens[j]),
        0 <= dot < text.len(),
        text[dot] == '.',
        dot == 0 || is_separator(text[dot - 1]),
    ensures
        !matches_text(tokens, text, options),
{
    lemma_leading_dot_needs_literal_at(tokens, 0, text, 0, options, dot);
}

/// How the search for a match from the token `i` and the offset `k` on
/// ends. A token that takes one character fails for good where no
/// character is left, and for this attempt where it does not take the
/// character that is there. A wildcard first takes nothing and lets the
/// tokens after it try; only if they fail for this attempt does it take one
/// character more, as long as there is one that it may take.
pub open spec fn outcome(
    tokens: Seq<Token>,
    i: int,
    text: Seq<char>,
    k: int,
    options: MatchOptions,
) -> MatchResult
    decreases tokens.len() - i, text.len() - k,
{
    if i < 0 || k < 0 {
        MatchResult::SubPatternDoesntMatch
    } else if i >= tokens.len() {
        if k == text.len() {
            MatchResult::Match
        } else {
            MatchResult::SubPatternDoesntMatch
        }
    } else if is_wildcard(tokens[i]) {
        let rest = outcome(tokens, i + 1, text, k, options);
        if rest != MatchResult::SubPatternDoesntMatch {
            rest
        } else if k >= text.len() {
            MatchResult::EntirePatternDoesntMatch
        } else if !token_accepts(tokens[i], text, k, options) {
            MatchResult::SubPatternDoesntMatch
        } else {
            outcome(tokens, i, text, k + 1, options)
        }
    } else if k >= text.len() {
        MatchResult::EntirePatternDoesntMatch
    } else if !token_accepts(tokens[i], text, k, options) {
        MatchResult::SubPatternDoesntMatch
    } else {
        outcome(tokens, i + 1, text, k + 1, options)
    }
}

/// The search is right. It ends in a match exactly where the tokens match
/// the text, and it gives up for good only where the tokens match from no
/// offset further along either.
pub proof fn lemma_outcome(
    tokens: Seq<Token>,
    i: int,
    text: Seq<char>,
    k: int,
    options: MatchOptions,
)
    requires
        0 <= i,
        0 <= k <= text.len(),
    ensures
        outcome(tokens, i, text, k, options) is Match <==> matches_at(tokens, i, text, k, options),
        outcome(tokens, i, text, k, options) is EntirePatternDoesntMatch ==> forall|j: int|
            k <= j <= text.len() ==> !#[trigger] matches_at(tokens, i, text, j, options),
    decreases tokens.len() - i, text.len() - k,
{
    if i >= tokens.len() {
    } else if is_wildcard(tokens[i]) {
        lemma_outcome(tokens, i + 1, text, k, options);
        let rest = outcome(tokens, i + 1, text, k, options);
        if rest is EntirePatternDoesntMatch {
            assert forall|j: int| k <= j <= text.len() implies !#[trigger] matches_at(
                tokens,
                i,
                text,
                j,
                options,
            ) by {
                lemma_wildcard_needs_rest(tokens, i, text, j, options);
            }
        } else if rest is SubPatternDoesntMatch && k < text.len() && token_accepts(
            tokens[i],
            text,
            k,
            options,
        ) {
            lemma_outcome(tokens, i, text, k + 1, options);
        }
    } else if k < text.len() && token_accepts(tokens[i], text, k, options) {
        lemma_outcome(tokens, i + 1, text, k + 1, options);
        if outcome(tokens, i + 1, text, k + 1, options) is EntirePatternDoesntMatch {
            assert forall|j: int| k <= j <= text.len() implies !#[trigger] matches_at(
                tokens,
                i,
                text,
                j,
                options,
            ) by {
                if j < text.len() {
                    assert(!matches_at(tokens, i + 1, text, j + 1, options));
                }
            }
        }
    }
}

/// Tests [`must_be_literal`].
fn require_literal(text: &Vec<char>, k: usize, options: &MatchOptions) -> (r: bool)
    requires
        k < text.len(),
    ensures
        r == must_be_literal(text@, k as int, *options),
{
    let c = text[k];
    (options.require_literal_separator && is_sep(c)) || (options.require_literal_leading_dot && c
        == '.' && (k == 0 || is_sep(text[k - 1])))
}

impl Pattern {
    /// Return if the given `str` matches this `Pattern` using the default
    /// match options (i.e. `MatchOptions::new()`).
    pub fn matches(&self, str: &str) -> (r: bool)
        ensures
            r == matches_text(self@.tokens, str@, MatchOptions::standard()),
    {
        self.matches_with(str, &MatchOptions::new())
    }

    /// Return if the given `Path`, when converted to a `str`, matches this
    /// `Pattern` using the default match options (i.e. `MatchOptions::new()`).
    pub fn matches_path(&self, path: &Path) -> (r: bool)
        ensures
            r == match path_text(path) {
                Some(text) => matches_text(self@.tokens, text, MatchOptions::standard()),
                None => false,
            },
    {
        match path.to_str() {
            Some(s) => self.matches(s),
            None => false,
        }
    }

    /// Return if the given `str` matches this `Pattern` using the specified
    /// match options.
    pub fn matches_with(&self, str: &str, options: &MatchOptions) -> (r: bool)
        ensures
            r == matches_text(self@.tokens, str@, *options),
    {
        let text = to_chars(str);
        self.matches_chars(&text, options)
    }

    /// Return if the given `Path`, when converted to a `str`, matches this
    /// `Pattern` using the specified match options.
    pub fn matches_path_with(&self, path: &Path, options: &MatchOptions) -> (r: bool)
        ensures
            r == match path_text(path) {
                Some(text) => matches_text(self@.tokens, text, *options),
                None => false,
            },
    {
        match path.to_str() {
            Some(s) => self.matches_with(s, options),
            None => false,
        }
    }

    /// Return if the given characters match this `Pattern` using the
    /// specified match options.
    pub fn matches_chars(&self, text: &Vec<char>, options: &MatchOptions) -> (r: bool)
        ensures
            r == matches_text(self@.tokens, text@, *options),
    {
        proof {
            lemma_outcome(self@.tokens, 0, text@, 0, *options);
        }
        match self.matches_from(text, 0, 0, options) {
            MatchResult::Match => true,
            _ => false,
        }
    }

    /// Matches the tokens from index `i` on against `text` from offset
    /// `start`. The search backtracks over what each wildcard takes, shortest
    /// first, and gives up on the whole candidate as soon as the tokens
    /// cannot match anywhere further along.
    pub fn matches_from(&self, text: &Vec<char>, start: usize, i: usize, options: &MatchOptions) -> (r:
        MatchResult)
        requires
            start <= text.len(),
            i <= self@.tokens.len(),
        ensures
            r == outcome(self@.tokens, i as int, text@, start as int, *options),
        decreases self@.tokens.len() - i,
    {
        let stored = self.stored_tokens();
        let ghost tokens = self@.tokens;
        assert(tokens.len() == stored@.len());
        let mut pos = start;
        let mut ti = i;
        // up to the first wildcard every token takes exactly one character
        while ti < stored.len() && !is_wildcard_token(&stored[ti])
            invariant
                tokens == self@.tokens,
                tokens == tokens_of(stored@),
                i <= ti <= stored.len(),
                start <= pos <= text.len(),
                outcome(tokens, i as int, text@, start as int, *options) == outcome(
                    tokens,
                    ti as int,
                    text@,
                    pos as int,
                    *options,
                ),
            decreases stored.len() - ti,
        {
            assert(tokens[ti as int] == stored@[ti as int]@);
            if pos == text.len() {
                return MatchResult::EntirePatternDoesntMatch;
            }
            let c = text[pos];
            let accepted = match &stored[ti] {
                PatternToken::AnyChar => !require_literal(text, pos, options),
                PatternToken::AnyWithin(specifiers) => !require_literal(text, pos, options)
                    && in_char_specifiers(specifiers, c, options),
                PatternToken::AnyExcept(specifiers) => !require_literal(text, pos, options)
                    && !in_char_specifiers(specifiers, c, options),
                PatternToken::Char(c2) => chars_eq(c, *c2, options.case_sensitive),
                PatternToken::AnySequence | PatternToken::AnyRecursiveSequence => false,
            };
            if !accepted {
                return MatchResult::SubPatternDoesntMatch;
            }
            pos += 1;
            ti += 1;
        }
        if ti == stored.len() {
            return if pos == text.len() {
                MatchResult::Match
            } else {
                MatchResult::SubPatternDoesntMatch
            };
        }
        // a wildcard: try the tokens after it at every offset from here on,
        // nearest first
        assert(tokens[ti as int] == stored@[ti as int]@);
        let recursive = matches!(stored[ti], PatternToken::AnyRecursiveSequence);
        let mut result = MatchResult::SubPatternDoesntMatch;
        loop
            invariant_except_break
                tokens == self@.tokens,
                tokens.len() == stored.len(),
                i <= ti < stored.len(),
                is_wildcard(tokens[ti as int]),
                recursive == (tokens[ti as int] is AnyRecursiveSequence),
                start <= pos <= text.len(),
                outcome(tokens, i as int, text@, start as int, *options) == outcome(
                    tokens,
                    ti as int,
                    text@,
                    pos as int,
                    *options,
                ),
            ensures
                result == outcome(tokens, i as int, text@, start as int, *options),
            decreases text.len() - pos,
        {
            let rest = self.matches_from(text, pos, ti + 1, options);
            if rest != MatchResult::SubPatternDoesntMatch {
                result = rest;
                break ;
            }
            if pos == text.len() {
                result = MatchResult::EntirePatternDoesntMatch;
                break ;
            }
            if !recursive && require_literal(text, pos, options) {
                result = MatchResult::SubPatternDoesntMatch;
                break ;
            }
            pos += 1;
        }
        result
    }
}

/// Whether a stored token is one of the two wildcards.
fn is_wildcard_token(token: &PatternToken) -> (r: bool)
    ensures
        r == is_wildcard(token@),
{
    matches!(token, PatternToken::AnySequence | PatternToken::AnyRecursiveSequence)
}

} // verus!
