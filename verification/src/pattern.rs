//! Patterns and how they are compiled from text.

use vstd::prelude::*;
use crate::chars::{is_separator, lemma_seq_chars_are_scalars};
use crate::class::{class_members, lemma_shift_head, parse_char_specifiers, CharSpecifier};
use crate::text::{decimal, push_decimal, to_chars, to_text};

verus! {

broadcast use lemma_seq_chars_are_scalars;

/// One element of a compiled pattern.
pub enum Token {
    /// A literal character.
    Char(char),
    /// `?`: exactly one character, whatever it is.
    AnyChar,
    /// `*`: any number of characters, including none.
    AnySequence,
    /// `**`: any number of whole path components, including none.
    AnyRecursiveSequence,
    /// `[...]`: exactly one character that belongs to the class.
    AnyWithin(Seq<CharSpecifier>),
    /// `[!...]`: exactly one character that does not belong to the class.
    AnyExcept(Seq<CharSpecifier>),
}

/// A token as it is stored in a [`Pattern`].
#[derive(Clone, PartialEq, Eq, PartialOrd, Ord, Hash, Debug)]
pub enum PatternToken {
    Char(char),
    AnyChar,
    AnySequence,
    AnyRecursiveSequence,
    AnyWithin(Vec<CharSpecifier>),
    AnyExcept(Vec<CharSpecifier>),
}

impl View for PatternToken {
    type V = Token;

    open spec fn view(&self) -> Token {
        match self {
            PatternToken::Char(c) => Token::Char(*c),
            PatternToken::AnyChar => Token::AnyChar,
            PatternToken::AnySequence => Token::AnySequence,
            PatternToken::AnyRecursiveSequence => Token::AnyRecursiveSequence,
            PatternToken::AnyWithin(class) => Token::AnyWithin(class@),
            PatternToken::AnyExcept(class) => Token::AnyExcept(class@),
        }
    }
}

/// The tokens that a vector of stored tokens stands for.
pub open spec fn tokens_of(stored: Seq<PatternToken>) -> Seq<Token> {
    stored.map_values(|t: PatternToken| t@)
}

/// Why a pattern does not compile.
pub enum SyntaxErrorKind {
    /// More than two `*` in a row.
    MalformedWildcardRun,
    /// `**` that is not a path component of its own.
    MisplacedRecursiveWildcard,
    /// `[` without a closing `]`.
    UnterminatedCharacterClass,
}

/// A syntax error, as the compiler's specification reports it.
pub struct SyntaxError {
    /// Offset into the pattern, in characters.
    pub position: int,
    pub kind: SyntaxErrorKind,
}

/// The message for more than two `*` in a row.
pub const ERROR_WILDCARDS: &'static str = "wildcards are either regular `*` or recursive `**`";

/// The message for a `**` that is not a path component of its own.
pub const ERROR_RECURSIVE_WILDCARDS: &'static str =
    "recursive wildcards must form a single path component";

/// The message for a `[` that is never closed.
pub const ERROR_INVALID_RANGE: &'static str = "invalid range pattern";

impl SyntaxErrorKind {
    /// The diagnostic that goes with each kind of error.
    pub open spec fn message(self) -> &'static str {
        match self {
            SyntaxErrorKind::MalformedWildcardRun => ERROR_WILDCARDS,
            SyntaxErrorKind::MisplacedRecursiveWildcard => ERROR_RECURSIVE_WILDCARDS,
            SyntaxErrorKind::UnterminatedCharacterClass => ERROR_INVALID_RANGE,
        }
    }
}

/// A pattern parsing error.
#[derive(Clone, Copy, Debug)]
pub struct Error {
    /// The approximate character index of where the error occurred.
    pub pos: usize,
    /// A message describing the error.
    pub msg: &'static str,
}

impl Error {
    /// The error as it is shown to a reader.
    pub open spec fn shown(self) -> Seq<char> {
        "Pattern syntax error near position "@ + decimal(self.pos as nat) + ": "@ + self.msg@
    }

    /// Says where the error is and what it is.
    pub fn to_string(&self) -> (text: String)
        ensures
            text@ == self.shown(),
    {
        let mut position: Vec<char> = Vec::new();
        push_decimal(&mut position, self.pos);
        assert(position@ =~= decimal(self.pos as nat));
        let mut text = String::from_str("Pattern syntax error near position ");
        text.append(to_text(&position).as_str());
        text.append(": ");
        text.append(self.msg);
        text
    }

    /// Whether this error reports `e`.
    pub open spec fn reports(self, e: SyntaxError) -> bool {
        self.pos == e.position && self.msg@ == e.kind.message()@
    }
}

/// One token read from a pattern, and where the next one starts.
pub struct Lexeme {
    pub token: Token,
    pub end: int,
}

/// Whether `p` has a `*` at offset `i`.
pub open spec fn is_star(p: Seq<char>, i: int) -> bool {
    0 <= i < p.len() && p[i] == '*'
}

/// Offset of the first `]` at or after `from`, or the length of `p` where
/// none follows.
pub open spec fn first_close(p: Seq<char>, from: int) -> int
    decreases p.len() - from,
{
    if from < 0 || from >= p.len() {
        p.len() as int
    } else if p[from] == ']' {
        from
    } else {
        first_close(p, from + 1)
    }
}

/// What a run of `*` that starts at `i` denotes. One `*` is a wildcard. Two
/// are a recursive wildcard, which must stand between separators or the
/// ends of the pattern, and which takes the separator after it along. More
/// than two are an error.
pub open spec fn lex_wildcard(p: Seq<char>, i: int) -> Result<Lexeme, SyntaxError> {
    if is_star(p, i + 1) && is_star(p, i + 2) {
        Err(SyntaxError { position: i + 2, kind: SyntaxErrorKind::MalformedWildcardRun })
    } else if is_star(p, i + 1) {
        if i != 0 && !is_separator(p[i - 1]) {
            Err(SyntaxError { position: i - 1, kind: SyntaxErrorKind::MisplacedRecursiveWildcard })
        } else if i + 2 == p.len() {
            Ok(Lexeme { token: Token::AnyRecursiveSequence, end: i + 2 })
        } else if is_separator(p[i + 2]) {
            Ok(Lexeme { token: Token::AnyRecursiveSequence, end: i + 3 })
        } else {
            Err(SyntaxError { position: i + 2, kind: SyntaxErrorKind::MisplacedRecursiveWildcard })
        }
    } else {
        Ok(Lexeme { token: Token::AnySequence, end: i + 1 })
    }
}

/// What a `[` at `i` denotes. A `!` right after it negates the class. The
/// body runs up to the first `]` that is not its first character: in that
/// place `]` is a member like any other.
pub open spec fn lex_class(p: Seq<char>, i: int) -> Result<Lexeme, SyntaxError> {
    let negated = i + 1 < p.len() && p[i + 1] == '!';
    let body_start = if negated {
        i + 2
    } else {
        i + 1
    };
    let close = first_close(p, body_start + 1);
    if close < p.len() {
        let members = class_members(p.subrange(body_start, close));
        Ok(
            Lexeme {
                token: if negated {
                    Token::AnyExcept(members)
                } else {
                    Token::AnyWithin(members)
                },
                end: close + 1,
            },
        )
    } else {
        Err(SyntaxError { position: i, kind: SyntaxErrorKind::UnterminatedCharacterClass })
    }
}

/// The token that starts at offset `i` of `p`.
pub open spec fn lex_at(p: Seq<char>, i: int) -> Result<Lexeme, SyntaxError> {
    if p[i] == '?' {
        Ok(Lexeme { token: Token::AnyChar, end: i + 1 })
    } else if p[i] == '*' {
        lex_wildcard(p, i)
    } else if p[i] == '[' {
        lex_class(p, i)
    } else {
        Ok(Lexeme { token: Token::Char(p[i]), end: i + 1 })
    }
}

/// The first `]` at or after `from` is not before `from`, nor past the end.
pub proof fn lemma_first_close_bounds(p: Seq<char>, from: int)
    requires
        0 <= from,
    ensures
        from <= first_close(p, from) || first_close(p, from) == p.len(),
        first_close(p, from) <= p.len(),
        first_close(p, from) < p.len() ==> p[first_close(p, from)] == ']',
        forall|k: int| from <= k < first_close(p, from) ==> p[k] != ']',
    decreases p.len() - from,
{
    if from < p.len() && p[from] != ']' {
        lemma_first_close_bounds(p, from + 1);
    }
}

/// Every token takes at least one character and ends inside the pattern.
pub proof fn lemma_lexeme_advances(p: Seq<char>, i: int)
    requires
        0 <= i < p.len(),
    ensures
        lex_at(p, i) matches Ok(lexeme) ==> i < lexeme.end <= p.len(),
{
    let negated = i + 1 < p.len() && p[i + 1] == '!';
    let body_start = if negated {
        i + 2
    } else {
        i + 1
    };
    lemma_first_close_bounds(p, body_start + 1);
}

/// The tokens of `p` from offset `i` on. A recursive wildcard that follows
/// another one directly adds nothing: `after_recursive` says whether the
/// token before `i` was one.
pub open spec fn compile_from(p: Seq<char>, i: int, after_recursive: bool) -> Result<
    Seq<Token>,
    SyntaxError,
>
    decreases p.len() - i,
{
    if i < 0 || i >= p.len() {
        Ok(Seq::empty())
    } else {
        match lex_at(p, i) {
            Err(e) => Err(e),
            Ok(lexeme) => {
                proof {
                    lemma_lexeme_advances(p, i);
                }
                match compile_from(p, lexeme.end, lexeme.token is AnyRecursiveSequence) {
                    Err(e) => Err(e),
                    Ok(rest) => if after_recursive && lexeme.token is AnyRecursiveSequence {
                        Ok(rest)
                    } else {
                        Ok(seq![lexeme.token] + rest)
                    },
                }
            },
        }
    }
}

/// An error is reported at an offset inside the pattern.
pub proof fn lemma_error_position_bounds(p: Seq<char>, i: int, after_recursive: bool)
    requires
        0 <= i,
    ensures
        compile_from(p, i, after_recursive) matches Err(e) ==> 0 <= e.position < p.len(),
    decreases p.len() - i,
{
    if i < p.len() {
        lemma_lexeme_advances(p, i);
        match lex_at(p, i) {
            Ok(lexeme) => {
                lemma_error_position_bounds(p, lexeme.end, lexeme.token is AnyRecursiveSequence);
            },
            Err(_) => {},
        }
    }
}

/// The tokens that the pattern text `p` compiles to, or the first error in
/// it.
pub open spec fn compile(p: Seq<char>) -> Result<Seq<Token>, SyntaxError> {
    compile_from(p, 0, false)
}

/// Whether some token is a recursive wildcard.
pub open spec fn has_recursive(tokens: Seq<Token>) -> bool {
    exists|i: int| 0 <= i < tokens.len() && #[trigger] tokens[i] is AnyRecursiveSequence
}

/// Whether the last token is a recursive wildcard.
pub open spec fn ends_recursive(tokens: Seq<Token>) -> bool {
    tokens.len() > 0 && tokens.last() is AnyRecursiveSequence
}

/// `head` followed by what `tail` holds, or the error in `tail`.
pub open spec fn prepend(head: Seq<Token>, tail: Result<Seq<Token>, SyntaxError>) -> Result<
    Seq<Token>,
    SyntaxError,
> {
    match tail {
        Ok(rest) => Ok(head + rest),
        Err(e) => Err(e),
    }
}

/// Whether the tokens `i` and `i + 1` are both recursive wildcards.
pub open spec fn repeats_recursive(tokens: Seq<Token>, i: int) -> bool {
    tokens[i] is AnyRecursiveSequence && tokens[i + 1] is AnyRecursiveSequence
}

/// Whether no recursive wildcard follows another one directly.
pub open spec fn never_repeats_recursive(tokens: Seq<Token>) -> bool {
    forall|i: int| 0 <= i < tokens.len() - 1 ==> !#[trigger] repeats_recursive(tokens, i)
}

/// Compiling from any offset on yields no two recursive wildcards in a
/// row, and none at the front where one stands right before that offset.
pub proof fn lemma_compile_from_collapses(p: Seq<char>, i: int, after_recursive: bool)
    requires
        0 <= i,
    ensures
        compile_from(p, i, after_recursive) matches Ok(tokens) ==> {
            &&& never_repeats_recursive(tokens)
            &&& (after_recursive && tokens.len() > 0 ==> !(tokens[0] is AnyRecursiveSequence))
        },
    decreases p.len() - i,
{
    if i < p.len() {
        lemma_lexeme_advances(p, i);
        match lex_at(p, i) {
            Ok(lexeme) => {
                let recursive = lexeme.token is AnyRecursiveSequence;
                lemma_compile_from_collapses(p, lexeme.end, recursive);
                match compile_from(p, lexeme.end, recursive) {
                    Ok(rest) => {
                        if !(after_recursive && recursive) {
                            let tokens = seq![lexeme.token] + rest;
                            assert forall|k: int| 0 <= k < tokens.len() - 1 implies !#[trigger] repeats_recursive(
                                tokens,
                                k,
                            ) by {
                                if k > 0 {
                                    assert(tokens[k] == rest[k - 1]);
                                    assert(tokens[k + 1] == rest[k]);
                                    assert(!repeats_recursive(rest, k - 1));
                                } else {
                                    assert(tokens[1] == rest[0]);
                                }
                            }
                        }
                    },
                    Err(_) => {},
                }
            },
            Err(_) => {},
        }
    }
}

/// Consecutive recursive wildcards collapse into one: a compiled pattern
/// never holds two of them in a row.
pub proof fn lemma_compile_collapses(p: Seq<char>)
    ensures
        compile(p) matches Ok(tokens) ==> never_repeats_recursive(tokens),
{
    lemma_compile_from_collapses(p, 0, false);
}

/// Whether every token is a literal character.
pub open spec fn is_literal(tokens: Seq<Token>) -> bool {
    forall|i: int| 0 <= i < tokens.len() ==> #[trigger] tokens[i] is Char
}

/// The text that the tokens spell, where every one of them is a literal
/// character.
pub open spec fn literal_text(tokens: Seq<Token>) -> Option<Seq<char>> {
    if is_literal(tokens) {
        Some(Seq::new(tokens.len(), |i: int| tokens[i]->Char_0))
    } else {
        None
    }
}

/// Whether the first token is a literal `.`.
pub open spec fn starts_with_dot(tokens: Seq<Token>) -> bool {
    tokens.len() > 0 && tokens[0] == Token::Char('.')
}

/// What a pattern is: its text, its tokens, and whether one of them is a
/// recursive wildcard.
pub struct PatternView {
    pub source: Seq<char>,
    pub tokens: Seq<Token>,
    pub is_recursive: bool,
}

impl PatternView {
    /// The tokens are those that the text compiles to, and the flag says
    /// whether a recursive wildcard is among them.
    pub open spec fn wf(self) -> bool {
        &&& compile(self.source) == Ok::<Seq<Token>, SyntaxError>(self.tokens)
        &&& self.is_recursive == has_recursive(self.tokens)
    }
}

/// A compiled Unix shell style pattern.
///
/// `?` matches any single character.
///
/// `*` matches any (possibly empty) sequence of characters.
///
/// `**` matches the current directory and arbitrary subdirectories. This
/// sequence **must** form a single path component, so both `**a` and `b**`
/// are invalid and will result in an error. A sequence of more than two
/// consecutive `*` characters is also invalid.
///
/// `[...]` matches any character inside the brackets. Character sequences
/// can also specify ranges of characters, as ordered by Unicode, so e.g.
/// `[0-9]` specifies any character between 0 and 9 inclusive. An unclosed
/// bracket is invalid.
///
/// `[!...]` is the negation of `[...]`, i.e. it matches any characters
/// **not** in the brackets.
///
/// The metacharacters `?`, `*`, `[`, `]` can be matched by using brackets
/// (e.g. `[?]`). When a `]` occurs immediately following `[` or `[!` then it
/// is interpreted as being part of, rather then ending, the character set, so
/// `]` and NOT `]` can be matched by `[]]` and `[!]]` respectively. The `-`
/// character can be specified inside a character sequence pattern by placing
/// it at the start or the end, e.g. `[abc-]`.
#[derive(Clone, PartialEq, Eq, PartialOrd, Ord, Hash, Debug)]
pub struct Pattern {
    original: String,
    tokens: Vec<PatternToken>,
    is_recursive: bool,
}

impl View for Pattern {
    type V = PatternView;

    closed spec fn view(&self) -> PatternView {
        PatternView {
            source: self.original@,
            tokens: tokens_of(self.tokens@),
            is_recursive: self.is_recursive,
        }
    }
}

/// Reading one more token extends the tokens read so far.
proof fn lemma_compile_step(p: Seq<char>, i: int, read: Seq<Token>)
    requires
        0 <= i < p.len(),
        lex_at(p, i) is Ok,
    ensures
        ({
            let lexeme = lex_at(p, i)->Ok_0;
            let recursive = lexeme.token is AnyRecursiveSequence;
            let extended = if recursive && ends_recursive(read) {
                read
            } else {
                read.push(lexeme.token)
            };
            &&& ends_recursive(extended) == recursive
            &&& prepend(read, compile_from(p, i, ends_recursive(read))) == prepend(
                extended,
                compile_from(p, lexeme.end, recursive),
            )
        }),
{
    let lexeme = lex_at(p, i)->Ok_0;
    let recursive = lexeme.token is AnyRecursiveSequence;
    match compile_from(p, lexeme.end, recursive) {
        Ok(rest) => {
            lemma_shift_head(read, lexeme.token, rest);
        },
        Err(_) => {},
    }
}

/// Storing one more token adds its view to the tokens stored so far.
proof fn lemma_tokens_of_push(stored: Seq<PatternToken>, t: PatternToken)
    ensures
        tokens_of(stored.push(t)) == tokens_of(stored).push(t@),
{
    assert(tokens_of(stored.push(t)) =~= tokens_of(stored).push(t@));
}

/// A recursive wildcard stays among the tokens when more are added, and a
/// token of another kind adds none.
proof fn lemma_has_recursive_push(tokens: Seq<Token>, t: Token)
    ensures
        has_recursive(tokens.push(t)) == (has_recursive(tokens) || t is AnyRecursiveSequence),
{
    let extended = tokens.push(t);
    if has_recursive(tokens) {
        let i = choose|i: int| 0 <= i < tokens.len() && #[trigger] tokens[i] is AnyRecursiveSequence;
        assert(extended[i] is AnyRecursiveSequence);
    }
    if t is AnyRecursiveSequence {
        assert(extended[tokens.len() as int] is AnyRecursiveSequence);
    }
    if has_recursive(extended) {
        let i = choose|i: int|
            0 <= i < extended.len() && #[trigger] extended[i] is AnyRecursiveSequence;
        if i < tokens.len() {
            assert(tokens[i] is AnyRecursiveSequence);
        }
    }
}

impl Default for Pattern {
    /// The pattern compiled from the empty text, which matches the empty
    /// string only.
    fn default() -> (empty: Pattern)
        ensures
            empty@.source == Seq::<char>::empty(),
            empty@.tokens == Seq::<Token>::empty(),
            empty@.wf(),
    {
        let tokens: Vec<PatternToken> = Vec::new();
        assert(tokens_of(tokens@) =~= Seq::<Token>::empty());
        Pattern { original: String::new(), tokens, is_recursive: false }
    }
}

impl Pattern {
    /// This function compiles Unix shell style patterns.
    ///
    /// An invalid glob pattern will yield an error.
    pub fn new(pattern: &str) -> (result: Result<Pattern, Error>)
        ensures
            match result {
                Ok(compiled) => {
                    &&& compiled@.source == pattern@
                    &&& compiled@.wf()
                },
                Err(e) => compile(pattern@) matches Err(se) && e.reports(se),
            },
    {
        let chars = to_chars(pattern);
        Pattern::compile_chars(&chars)
    }

    /// Compiles the pattern that the characters spell.
    pub fn compile_chars(chars: &Vec<char>) -> (result: Result<Pattern, Error>)
        ensures
            match result {
                Ok(compiled) => {
                    &&& compiled@.source == chars@
                    &&& compiled@.wf()
                },
                Err(e) => compile(chars@) matches Err(se) && e.reports(se),
            },
    {
        let mut tokens: Vec<PatternToken> = Vec::new();
        let mut is_recursive = false;
        let mut i: usize = 0;
        assert(tokens_of(tokens@) =~= Seq::<Token>::empty());
        assert(Seq::<Token>::empty() + compile(chars@)->Ok_0 =~= compile(chars@)->Ok_0);

        while i < chars.len()
            invariant
                i <= chars.len(),
                is_recursive == has_recursive(tokens_of(tokens@)),
                compile(chars@) == prepend(
                    tokens_of(tokens@),
                    compile_from(chars@, i as int, ends_recursive(tokens_of(tokens@))),
                ),
            decreases chars.len() - i,
        {
            let ghost read = tokens_of(tokens@);
            let ghost stored = tokens@;
            let ghost start = i as int;
            proof {
                lemma_lexeme_advances(chars@, start);
                if lex_at(chars@, start) is Ok {
                    lemma_compile_step(chars@, start, read);
                }
            }
            let c = chars[i];
            if c == '?' {
                tokens.push(PatternToken::AnyChar);
                proof {
                    lemma_tokens_of_push(stored, PatternToken::AnyChar);
                    lemma_has_recursive_push(read, Token::AnyChar);
                }
                i += 1;
            } else if c == '*' {
                let old = i;
                while i < chars.len() && chars[i] == '*'
                    invariant
                        old <= i <= chars.len(),
                        forall|k: int| old <= k < i ==> chars@[k] == '*',
                    decreases chars.len() - i,
                {
                    i += 1;
                }
                let count = i - old;
                if count > 2 {
                    return Err(Error { pos: old + 2, msg: ERROR_WILDCARDS });
                } else if count == 2 {
                    // `**` can only be an entire path component:
                    // `a/**/b` is valid, but `a**/b` or `a/**b` is not
                    if old == 0 || chars[old - 1] == '/' {
                        if i < chars.len() && chars[i] == '/' {
                            i += 1;
                        } else if i == chars.len() {
                        } else {
                            return Err(Error { pos: i, msg: ERROR_RECURSIVE_WILDCARDS });
                        }
                    } else {
                        return Err(Error { pos: old - 1, msg: ERROR_RECURSIVE_WILDCARDS });
                    }
                    // collapse consecutive recursive wildcards into one
                    let n = tokens.len();
                    let collapse = n > 0 && matches!(tokens[n - 1], PatternToken::AnyRecursiveSequence);
                    proof {
                        assert(collapse == ends_recursive(read));
                    }
                    if !collapse {
                        is_recursive = true;
                        tokens.push(PatternToken::AnyRecursiveSequence);
                        proof {
                            lemma_tokens_of_push(stored, PatternToken::AnyRecursiveSequence);
                            lemma_has_recursive_push(read, Token::AnyRecursiveSequence);
                        }
                    } else {
                        proof {
                            assert(read[n - 1] is AnyRecursiveSequence);
                        }
                    }
                } else {
                    tokens.push(PatternToken::AnySequence);
                    proof {
                        lemma_tokens_of_push(stored, PatternToken::AnySequence);
                        lemma_has_recursive_push(read, Token::AnySequence);
                    }
                }
            } else if c == '[' {
                let negated = chars.len() - i > 1 && chars[i + 1] == '!';
                let body_start = if negated {
                    i + 2
                } else {
                    i + 1
                };
                if body_start >= chars.len() {
                    return Err(Error { pos: i, msg: ERROR_INVALID_RANGE });
                }
                // the first character of the body never closes the class
                let mut close = body_start + 1;
                while close < chars.len() && chars[close] != ']'
                    invariant
                        body_start < close <= chars.len(),
                        first_close(chars@, body_start + 1) == first_close(chars@, close as int),
                    decreases chars.len() - close,
                {
                    close += 1;
                }
                if close >= chars.len() {
                    return Err(Error { pos: i, msg: ERROR_INVALID_RANGE });
                }
                let class = parse_char_specifiers(chars, body_start, close);
                let token = if negated {
                    PatternToken::AnyExcept(class)
                } else {
                    PatternToken::AnyWithin(class)
                };
                proof {
                    lemma_tokens_of_push(stored, token);
                    lemma_has_recursive_push(read, token@);
                }
                tokens.push(token);
                i = close + 1;
            } else {
                tokens.push(PatternToken::Char(c));
                proof {
                    lemma_tokens_of_push(stored, PatternToken::Char(c));
                    lemma_has_recursive_push(read, Token::Char(c));
                }
                i += 1;
            }
        }
        proof {
            let read = tokens_of(tokens@);
            assert(read + Seq::<Token>::empty() =~= read);
        }
        Ok(Pattern { original: to_text(chars), tokens, is_recursive })
    }

    /// The stored tokens.
    pub(crate) fn stored_tokens(&self) -> (stored: &Vec<PatternToken>)
        ensures
            tokens_of(stored@) == self@.tokens,
    {
        &self.tokens
    }

    /// The text of a pattern that is just many literal characters.
    pub fn pattern_as_str(&self) -> (text: Option<Vec<char>>)
        ensures
            match text {
                Some(s) => literal_text(self@.tokens) == Some(s@),
                None => literal_text(self@.tokens) is None,
            },
    {
        let mut s: Vec<char> = Vec::new();
        let mut i: usize = 0;
        let ghost tokens = tokens_of(self.tokens@);
        while i < self.tokens.len()
            invariant
                i <= self.tokens.len(),
                tokens == tokens_of(self.tokens@),
                s@.len() == i,
                forall|j: int|
                    0 <= j < i ==> (#[trigger] tokens[j]) is Char && tokens[j]->Char_0 == s@[j],
            decreases self.tokens.len() - i,
        {
            assert(tokens[i as int] == self.tokens@[i as int]@);
            match &self.tokens[i] {
                PatternToken::Char(c) => s.push(*c),
                _ => {
                    return None;
                },
            }
            i += 1;
        }
        assert(is_literal(tokens));
        assert(s@ =~= literal_text(tokens)->Some_0);
        Some(s)
    }

    /// Whether the pattern starts with a literal `.`.
    pub fn has_leading_dot(&self) -> (r: bool)
        ensures
            r == starts_with_dot(self@.tokens),
    {
        let ghost tokens = tokens_of(self.tokens@);
        if self.tokens.len() == 0 {
            return false;
        }
        assert(tokens[0] == self.tokens@[0]@);
        match &self.tokens[0] {
            PatternToken::Char(c) => *c == '.',
            _ => false,
        }
    }

    /// The text that the pattern was compiled from, as a string of its own.
    pub fn to_string(&self) -> (text: String)
        ensures
            text@ == self@.source,
    {
        self.original.clone()
    }

    /// The text that the pattern was compiled from.
    pub fn as_str<'a>(&'a self) -> (s: &'a str)
        ensures
            s@ == self@.source,
    {
        self.original.as_str()
    }

    /// Whether the pattern was compiled with a recursive wildcard in it.
    pub fn is_recursive(&self) -> (r: bool)
        ensures
            r == self@.is_recursive,
    {
        self.is_recursive
    }
}

} // verus!
