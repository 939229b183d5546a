//! Escaping: the pattern that matches a given string and nothing else.

use vstd::prelude::*;
use crate::chars::lemma_seq_chars_are_scalars;
use crate::class::{class_members, specifier_accepts, CharSpecifier};
use crate::matcher::{matches_at, matches_text, token_accepts};
use crate::options::MatchOptions;
use crate::pattern::{
    compile, compile_from, first_close, lex_at, Lexeme, Pattern, SyntaxError, Token,
};

verus! {

broadcast use lemma_seq_chars_are_scalars;

/// The characters that mean something else than themselves in a pattern.
/// `!` is not among them: it is special only inside brackets.
pub open spec fn is_meta(c: char) -> bool {
    c == '?' || c == '*' || c == '[' || c == ']'
}

/// How one character is written so that a pattern takes it literally: a
/// metacharacter goes into a bracket class of its own.
pub open spec fn escape_char(c: char) -> Seq<char> {
    if is_meta(c) {
        seq!['[', c, ']']
    } else {
        seq![c]
    }
}

/// The text in which every character of `s` is escaped.
pub open spec fn escaped(s: Seq<char>) -> Seq<char>
    decreases s.len(),
{
    if s.len() == 0 {
        Seq::empty()
    } else {
        escape_char(s[0]) + escaped(s.skip(1))
    }
}

/// The token that matches the character `c` and no other.
pub open spec fn literal_token(c: char) -> Token {
    if is_meta(c) {
        Token::AnyWithin(seq![CharSpecifier::SingleChar(c)])
    } else {
        Token::Char(c)
    }
}

/// One literal token for each character of `s`.
pub open spec fn literal_tokens(s: Seq<char>) -> Seq<Token> {
    Seq::new(s.len(), |i: int| literal_token(s[i]))
}

/// Escaping a string that is one character longer adds that character's
/// escape at the end.
pub proof fn lemma_escaped_push(s: Seq<char>, c: char)
    ensures
        escaped(s.push(c)) == escaped(s) + escape_char(c),
    decreases s.len(),
{
    let longer = s.push(c);
    if s.len() == 0 {
        assert(longer.skip(1) =~= Seq::<char>::empty());
        assert(escaped(longer.skip(1)) =~= Seq::<char>::empty());
        assert(escaped(longer) =~= escape_char(c) + Seq::<char>::empty());
        assert(escaped(s) + escape_char(c) =~= escape_char(c));
    } else {
        assert(longer.skip(1) =~= s.skip(1).push(c));
        lemma_escaped_push(s.skip(1), c);
        assert(escape_char(s[0]) + (escaped(s.skip(1)) + escape_char(c)) =~= (escape_char(s[0])
            + escaped(s.skip(1))) + escape_char(c));
    }
}

/// After any text `before`, the escaped form of `s` compiles to the literal
/// tokens of `s`.
proof fn lemma_escaped_compiles_after(before: Seq<char>, s: Seq<char>)
    ensures
        compile_from(before + escaped(s), before.len() as int, false) == Ok::<
            Seq<Token>,
            SyntaxError,
        >(literal_tokens(s)),
    decreases s.len(),
{
    let p = before + escaped(s);
    let i = before.len() as int;
    if s.len() == 0 {
        assert(p =~= before);
        assert(literal_tokens(s) =~= Seq::<Token>::empty());
    } else {
        let c = s[0];
        let head = escape_char(c);
        let rest = s.skip(1);
        assert(p =~= (before + head) + escaped(rest));
        lemma_escaped_compiles_after(before + head, rest);
        assert(literal_tokens(s) =~= seq![literal_token(c)] + literal_tokens(rest));
        assert(p[i] == head[0]);
        if is_meta(c) {
            assert(p[i + 1] == head[1]);
            assert(p[i + 2] == head[2]);
            assert(first_close(p, i + 2) == i + 2);
            let body = p.subrange(i + 1, i + 2);
            assert(body =~= seq![c]);
            assert(body.skip(1) =~= Seq::<char>::empty());
            assert(class_members(body.skip(1)) =~= Seq::<CharSpecifier>::empty());
            assert(class_members(body) =~= seq![CharSpecifier::SingleChar(c)]);
            assert(lex_at(p, i) == Ok::<Lexeme, SyntaxError>(
                Lexeme { token: literal_token(c), end: i + 3 },
            ));
        } else {
            assert(lex_at(p, i) == Ok::<Lexeme, SyntaxError>(
                Lexeme { token: literal_token(c), end: i + 1 },
            ));
        }
    }
}

/// The literal tokens of `s` match `s` from any offset on, whatever the
/// options.
proof fn lemma_literal_tokens_match_from(s: Seq<char>, k: int, options: MatchOptions)
    requires
        0 <= k <= s.len(),
    ensures
        matches_at(literal_tokens(s), k, s, k, options),
    decreases s.len() - k,
{
    if k < s.len() {
        lemma_literal_tokens_match_from(s, k + 1, options);
        let c = s[k];
        if is_meta(c) {
            let class = seq![CharSpecifier::SingleChar(c)];
            assert(specifier_accepts(class[0], c, options.case_sensitive));
        }
        assert(token_accepts(literal_tokens(s)[k], s, k, options));
    }
}

/// Where case matters, what the literal tokens of `s` match from offset `k`
/// on agrees with `s` from there on.
proof fn lemma_literal_tokens_match_only_from(
    s: Seq<char>,
    text: Seq<char>,
    k: int,
    options: MatchOptions,
)
    requires
        options.case_sensitive,
        0 <= k <= s.len(),
        matches_at(literal_tokens(s), k, text, k, options),
    ensures
        text.len() == s.len(),
        forall|j: int| k <= j < s.len() ==> text[j] == s[j],
    decreases s.len() - k,
{
    if k < s.len() {
        lemma_literal_tokens_match_only_from(s, text, k + 1, options);
        let c = s[k];
        if is_meta(c) {
            let class = seq![CharSpecifier::SingleChar(c)];
            let i = choose|i: int|
                0 <= i < class.len() && specifier_accepts(
                    #[trigger] class[i],
                    text[k],
                    options.case_sensitive,
                );
            assert(class[i] == CharSpecifier::SingleChar(c));
        }
    }
}

/// The escaped form of any string compiles, to one literal token for each
/// character of the string.
pub proof fn lemma_escaped_compiles(s: Seq<char>)
    ensures
        compile(escaped(s)) == Ok::<Seq<Token>, SyntaxError>(literal_tokens(s)),
{
    lemma_escaped_compiles_after(Seq::empty(), s);
    assert(Seq::<char>::empty() + escaped(s) =~= escaped(s));
}

/// Round trip: the pattern compiled from the escaped form of a string
/// matches that string, under every choice of options.
pub proof fn lemma_escape_round_trip(s: Seq<char>, options: MatchOptions)
    ensures
        compile(escaped(s)) matches Ok(tokens) && matches_text(tokens, s, options),
{
    lemma_escaped_compiles(s);
    lemma_literal_tokens_match_from(s, 0, options);
}

/// Where case matters, the pattern compiled from the escaped form of a
/// string matches nothing but that string.
pub proof fn lemma_escape_matches_nothing_else(
    s: Seq<char>,
    text: Seq<char>,
    options: MatchOptions,
)
    requires
        options.case_sensitive,
    ensures
        compile(escaped(s)) matches Ok(tokens) && (matches_text(tokens, text, options) <==> text == s),
{
    lemma_escaped_compiles(s);
    lemma_literal_tokens_match_from(s, 0, options);
    if matches_text(literal_tokens(s), text, options) {
        lemma_literal_tokens_match_only_from(s, text, 0, options);
        assert(text =~= s);
    }
}

impl Pattern {
    /// Escape metacharacters within the given string by surrounding them in
    /// brackets. The resulting string will, when compiled into a `Pattern`,
    /// match the input string and nothing else.
    pub fn escape(s: &str) -> (escaped_text: String)
        ensures
            escaped_text@ == escaped(s@),
    {
        let mut out = String::new();
        assert(s@.take(0) =~= Seq::<char>::empty());
        for c in it: s.chars()
            invariant
                it.seq() == s@,
                out@ == escaped(it.seq().take(it.index() as int)),
        {
            let ghost read = s@.take(it.index() as int);
            proof {
                lemma_escaped_push(read, c);
                assert(s@.take(it.index() + 1) =~= read.push(c));
            }
            match c {
                // `!` needs no escaping because it is only special inside brackets
                '?' | '*' | '[' | ']' => {
                    out.push('[');
                    out.push(c);
                    out.push(']');
                    assert(out@ =~= escaped(read) + escape_char(c));
                },
                c => {
                    out.push(c);
                    assert(out@ =~= escaped(read) + escape_char(c));
                },
            }
        }
        assert(s@.take(s@.len() as int) =~= s@);
        out
    }
}

} // verus!
