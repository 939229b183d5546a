//! A pattern and its components: where every component compiles, the
//! pattern as a whole compiles too.

use vstd::prelude::*;
use crate::chars::{is_separator, lemma_seq_chars_are_scalars};
use crate::pattern::{
    compile, compile_from, first_close, is_star, lemma_first_close_bounds, lemma_lexeme_advances,
    lex_at, Lexeme, SyntaxError, Token,
};
use crate::segments::{first_separator, lemma_first_separator_bounds};
use crate::walk::{compile_components, root_len};

verus! {

broadcast use lemma_seq_chars_are_scalars;

/// Whether a pattern compiles from an offset on does not depend on what
/// stands before that offset.
pub proof fn lemma_compiles_whatever_before(p: Seq<char>, i: int, a: bool, b: bool)
    requires
        0 <= i,
    ensures
        compile_from(p, i, a) is Ok <==> compile_from(p, i, b) is Ok,
    decreases p.len() - i,
{
    if i < p.len() {
        lemma_lexeme_advances(p, i);
        match lex_at(p, i) {
            Ok(lexeme) => {
                let recursive = lexeme.token is AnyRecursiveSequence;
                lemma_compiles_whatever_before(p, lexeme.end, recursive, recursive);
            },
            Err(_) => {},
        }
    }
}

/// Inside a piece of a text, the first `]` is found where it is found in the
/// piece taken alone.
proof fn lemma_first_close_in_piece(p: Seq<char>, from: int, end: int, k: int)
    requires
        0 <= from <= end <= p.len(),
        0 <= k,
        first_close(p.subrange(from, end), k) < end - from,
    ensures
        first_close(p, from + k) == from + first_close(p.subrange(from, end), k),
    decreases end - from - k,
{
    let piece = p.subrange(from, end);
    if k < piece.len() {
        assert(piece[k] == p[from + k]);
        if piece[k] != ']' {
            lemma_first_close_in_piece(p, from, end, k + 1);
        }
    }
}

/// The end of the component that starts at `from`, with the separator
/// behind it where there is one.
pub open spec fn component_end(p: Seq<char>, from: int) -> int {
    let end = first_separator(p, from);
    if end < p.len() {
        end + 1
    } else {
        end
    }
}

/// Where a component compiles taken alone, the pattern compiles from any
/// token of that component on exactly if it compiles from the end of the
/// component on.
proof fn lemma_component_compiles_in_place(p: Seq<char>, from: int, j: int)
    requires
        0 <= from <= p.len(),
        from == 0 || is_separator(p[from - 1]),
        0 <= j <= first_separator(p, from) - from,
        compile_from(p.subrange(from, first_separator(p, from)), j, false) is Ok,
    ensures
        compile_from(p, from + j, false) is Ok <==> compile_from(
            p,
            component_end(p, from),
            false,
        ) is Ok,
    decreases p.len() - from - j,
{
    lemma_first_separator_bounds(p, from);
    let end = first_separator(p, from);
    let piece = p.subrange(from, end);
    let i = from + j;
    if j == piece.len() {
        if end < p.len() {
            // the separator is a literal character of the pattern
            assert(lex_at(p, end) == Ok::<Lexeme, SyntaxError>(
                Lexeme { token: Token::Char(p[end]), end: end + 1 },
            ));
            lemma_compiles_whatever_before(p, end + 1, false, false);
        }
    } else {
        assert(piece[j] == p[i]);
        assert(!is_separator(p[i]));
        lemma_lexeme_advances(piece, j);
        let inner = lex_at(piece, j)->Ok_0;
        assert(is_star(piece, j + 1) == is_star(p, i + 1)) by {
            if j + 1 < piece.len() {
                assert(piece[j + 1] == p[i + 1]);
            }
        }
        assert(is_star(p, i + 1) ==> is_star(piece, j + 2) == is_star(p, i + 2)) by {
            if j + 2 < piece.len() {
                assert(piece[j + 2] == p[i + 2]);
            }
        }
        if p[i] == '*' && is_star(p, i + 1) {
            // a recursive wildcard is the whole of its component
            if j > 0 {
                assert(piece[j - 1] == p[i - 1]);
                assert(!is_separator(p[i - 1]));
            }
            if j + 2 < piece.len() {
                assert(piece[j + 2] == p[i + 2]);
                assert(!is_separator(p[i + 2]));
            }
            assert(j == 0 && piece.len() == 2);
            let outer = lex_at(p, i)->Ok_0;
            assert(outer.end == component_end(p, from));
            lemma_compiles_whatever_before(p, outer.end, true, false);
        } else {
            if p[i] == '[' {
                let negated = j + 1 < piece.len() && piece[j + 1] == '!';
                let body_start = if negated {
                    j + 2
                } else {
                    j + 1
                };
                if j + 1 < piece.len() {
                    assert(piece[j + 1] == p[i + 1]);
                }
                lemma_first_close_bounds(piece, body_start + 1);
                lemma_first_close_in_piece(p, from, end, body_start + 1);
                let close = first_close(piece, body_start + 1);
                assert(piece.subrange(body_start, close) =~= p.subrange(
                    from + body_start,
                    from + close,
                ));
            }
            let outer = lex_at(p, i)->Ok_0;
            assert(outer.token == inner.token);
            assert(outer.end == from + inner.end);
            let recursive = inner.token is AnyRecursiveSequence;
            lemma_compiles_whatever_before(piece, inner.end, recursive, false);
            lemma_compiles_whatever_before(p, outer.end, recursive, false);
            lemma_component_compiles_in_place(p, from, inner.end);
        }
    }
}

/// Where every component from `from` on compiles, the pattern compiles from
/// `from` on.
pub proof fn lemma_components_make_the_whole(p: Seq<char>, from: int)
    requires
        0 <= from <= p.len(),
        from == 0 || is_separator(p[from - 1]),
        compile_components(p, from) is Ok,
    ensures
        compile_from(p, from, false) is Ok,
    decreases p.len() - from,
{
    if from < p.len() {
        lemma_first_separator_bounds(p, from);
        let end = first_separator(p, from);
        lemma_component_compiles_in_place(p, from, 0);
        if end < p.len() {
            lemma_components_make_the_whole(p, end + 1);
        }
    }
}

/// A pattern of which every component compiles, compiles as a whole.
pub proof fn lemma_components_compile_the_pattern(p: Seq<char>)
    requires
        compile_components(p, root_len(p)) is Ok,
    ensures
        compile(p) is Ok,
{
    if root_len(p) == 1 {
        assert(lex_at(p, 0) == Ok::<Lexeme, SyntaxError>(
            Lexeme { token: Token::Char(p[0]), end: 1 },
        ));
        lemma_components_make_the_whole(p, 1);
    } else {
        lemma_components_make_the_whole(p, 0);
    }
}

} // verus!
