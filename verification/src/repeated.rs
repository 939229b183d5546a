//! `**/**` in a pattern means what `**` means: the traversal for a pattern
//! in which a recursive wildcard component is written twice in a row starts
//! at the same point as the traversal for the pattern in which it is
//! written once, and goes through the same steps.

use vstd::prelude::*;
use crate::chars::{is_separator, lemma_seq_chars_are_scalars};
use crate::collapse::{
    lemma_recursive_component_compiles, lemma_repeated_component_same_steps,
    lemma_repeated_component_start, merged_machine, recursive_component, repeats_at, sound,
};
use crate::options::MatchOptions;
use crate::pattern::{compile, SyntaxError, Token};
use crate::segments::{first_separator, lemma_first_separator_bounds};
use crate::walk::{
    compile_components, prepend_components, root_len, scope, traversal, Machine, ReplyView,
};
use crate::whole::lemma_components_compile_the_pattern;

verus! {

broadcast use lemma_seq_chars_are_scalars;

/// The text `**/**`.
pub open spec fn twice() -> Seq<char> {
    seq!['*', '*', '/', '*', '*']
}

/// The text `**`.
pub open spec fn once() -> Seq<char> {
    seq!['*', '*']
}

/// The tokens of each component of `p` that starts at or after `from` and
/// before `n`, or the first error in one of them.
pub open spec fn components_upto(p: Seq<char>, from: int, n: int) -> Result<
    Seq<Seq<Token>>,
    SyntaxError,
>
    decreases p.len() + 1 - from,
{
    if from < 0 || from >= p.len() || from >= n {
        Ok(Seq::empty())
    } else {
        let end = first_separator(p, from);
        proof {
            lemma_first_separator_bounds(p, from);
        }
        match compile(p.subrange(from, end)) {
            Err(e) => Err(SyntaxError { position: from + e.position, kind: e.kind }),
            Ok(tokens) => match components_upto(p, end + 1, n) {
                Err(e) => Err(e),
                Ok(rest) => Ok(seq![tokens] + rest),
            },
        }
    }
}

/// The components of a pattern are those before a separator, followed by
/// those after it.
proof fn lemma_components_split(p: Seq<char>, from: int, n: int)
    requires
        0 <= from <= n <= p.len(),
        from == n || is_separator(p[n - 1]),
    ensures
        compile_components(p, from) == match components_upto(p, from, n) {
            Err(e) => Err(e),
            Ok(head) => prepend_components(head, compile_components(p, n)),
        },
    decreases p.len() - from,
{
    if from == n {
        match compile_components(p, n) {
            Ok(rest) => {
                assert(Seq::<Seq<Token>>::empty() + rest =~= rest);
            },
            Err(_) => {},
        }
    } else {
        lemma_first_separator_bounds(p, from);
        let end = first_separator(p, from);
        assert(end < n) by {
            if end >= n {
                assert(!is_separator(p[n - 1]));
            }
        }
        lemma_components_split(p, end + 1, n);
        match (compile(p.subrange(from, end)), components_upto(p, end + 1, n)) {
            (Ok(tokens), Ok(head)) => {
                match compile_components(p, n) {
                    Ok(rest) => {
                        assert(seq![tokens] + (head + rest) =~= (seq![tokens] + head) + rest);
                    },
                    Err(_) => {},
                }
            },
            _ => {},
        }
    }
}

/// Two texts that agree up to a separator have the same first separator
/// before it.
proof fn lemma_first_separator_of_prefix(p: Seq<char>, q: Seq<char>, from: int, n: int)
    requires
        0 <= from < n <= p.len(),
        n <= q.len(),
        p.take(n) == q.take(n),
        is_separator(p[n - 1]),
    ensures
        first_separator(p, from) == first_separator(q, from),
        first_separator(p, from) < n,
    decreases n - from,
{
    assert(p[from] == p.take(n)[from]);
    assert(q[from] == q.take(n)[from]);
    if !is_separator(p[from]) {
        lemma_first_separator_of_prefix(p, q, from + 1, n);
    }
}

/// Two texts that agree up to a separator have the same components before
/// it.
proof fn lemma_components_of_prefix(p: Seq<char>, q: Seq<char>, from: int, n: int)
    requires
        0 <= from <= n <= p.len(),
        n <= q.len(),
        p.take(n) == q.take(n),
        from == n || is_separator(p[n - 1]),
    ensures
        components_upto(p, from, n) == components_upto(q, from, n),
    decreases p.len() - from,
{
    if from < n {
        lemma_first_separator_of_prefix(p, q, from, n);
        let end = first_separator(p, from);
        lemma_first_separator_bounds(p, from);
        assert(p.subrange(from, end) =~= q.subrange(from, end)) by {
            assert forall|k: int| from <= k < end implies p[k] == q[k] by {
                assert(p[k] == p.take(n)[k]);
                assert(q[k] == q.take(n)[k]);
            }
        }
        lemma_components_of_prefix(p, q, end + 1, n);
    }
}

/// Two texts with the same end have their first separator at the same
/// distance from that end.
proof fn lemma_first_separator_of_suffix(p: Seq<char>, a: int, q: Seq<char>, b: int)
    requires
        0 <= a <= p.len(),
        0 <= b <= q.len(),
        p.skip(a) == q.skip(b),
    ensures
        first_separator(p, a) - a == first_separator(q, b) - b,
    decreases p.len() - a,
{
    assert(p.skip(a).len() == p.len() - a);
    assert(q.skip(b).len() == q.len() - b);
    if a < p.len() {
        assert(p[a] == p.skip(a)[0]);
        assert(q[b] == q.skip(b)[0]);
        if !is_separator(p[a]) {
            assert(p.skip(a + 1) =~= p.skip(a).skip(1));
            assert(q.skip(b + 1) =~= q.skip(b).skip(1));
            lemma_first_separator_of_suffix(p, a + 1, q, b + 1);
        }
    }
}

/// Two texts with the same end have the same components in it: they
/// compile to the same tokens, or fail both.
proof fn lemma_components_of_suffix(p: Seq<char>, a: int, q: Seq<char>, b: int)
    requires
        0 <= a <= p.len(),
        0 <= b <= q.len(),
        p.skip(a) == q.skip(b),
    ensures
        compile_components(p, a) is Ok <==> compile_components(q, b) is Ok,
        compile_components(p, a) is Ok ==> compile_components(p, a) == compile_components(q, b),
    decreases p.len() - a,
{
    assert(p.skip(a).len() == p.len() - a);
    assert(q.skip(b).len() == q.len() - b);
    if a < p.len() {
        lemma_first_separator_of_suffix(p, a, q, b);
        lemma_first_separator_bounds(p, a);
        lemma_first_separator_bounds(q, b);
        let end = first_separator(p, a);
        let other = first_separator(q, b);
        assert(p.subrange(a, end) == q.subrange(b, other)) by {
            assert(p.subrange(a, end) =~= p.skip(a).take(end - a));
            assert(q.subrange(b, other) =~= q.skip(b).take(other - b));
        }
        if end < p.len() {
            assert(p.skip(end + 1) =~= p.skip(a).skip(end + 1 - a));
            assert(q.skip(other + 1) =~= q.skip(b).skip(other + 1 - b));
            lemma_components_of_suffix(p, end + 1, q, other + 1);
        }
    }
}

/// A pattern has no more components than characters.
proof fn lemma_components_are_few(p: Seq<char>, from: int)
    requires
        0 <= from <= p.len(),
    ensures
        compile_components(p, from) matches Ok(patterns) ==> patterns.len() <= p.len() - from,
    decreases p.len() - from,
{
    if from < p.len() {
        lemma_first_separator_bounds(p, from);
        let end = first_separator(p, from);
        if end < p.len() {
            lemma_components_are_few(p, end + 1);
        }
    }
}

/// A traversal starts in a state that can come up, like every state after
/// it.
pub proof fn lemma_traversal_starts_sound(p: Seq<char>, options: MatchOptions)
    requires
        p.len() <= usize::MAX,
    ensures
        traversal(p, options) matches Ok(m) ==> sound(m),
{
    lemma_components_are_few(p, root_len(p));
}

/// A component `**` at offset `n` adds a recursive wildcard to the
/// components behind it.
proof fn lemma_wildcard_component(p: Seq<char>, n: int)
    requires
        0 <= n,
        n + 2 <= p.len(),
        p[n] == '*',
        p[n + 1] == '*',
        n + 2 == p.len() || is_separator(p[n + 2]),
    ensures
        compile_components(p, n) == match compile_components(p, n + 3) {
            Err(e) => Err(e),
            Ok(rest) => Ok(seq![recursive_component()] + rest),
        },
{
    lemma_recursive_component_compiles();
    assert(first_separator(p, n) == n + 2) by {
        assert(first_separator(p, n + 2) == n + 2);
        assert(first_separator(p, n + 1) == n + 2);
    }
    assert(p.subrange(n, n + 2) =~= once());
}

/// The two patterns start and end alike, and the wildcards stand at the
/// start of a component.
proof fn lemma_patterns_alike(before: Seq<char>, after: Seq<char>)
    requires
        before.len() == 0 || is_separator(before.last()),
        after.len() == 0 || is_separator(after[0]),
    ensures
        ({
            let p = before + twice() + after;
            let q = before + once() + after;
            let n = before.len() as int;
            &&& root_len(q) == root_len(p)
            &&& scope(q) == scope(p)
            &&& is_separator(p.last()) == is_separator(q.last())
            &&& root_len(p) <= n
            &&& (root_len(p) == n || is_separator(p[n - 1]))
            &&& p.take(n) == q.take(n)
        }),
{
    let p = before + twice() + after;
    let q = before + once() + after;
    let n = before.len() as int;
    if n > 0 {
        assert(p[0] == before[0] && q[0] == before[0]);
        assert(p[n - 1] == before.last());
    } else {
        assert(p[0] == twice()[0] && q[0] == once()[0]);
    }
    if after.len() > 0 {
        assert(p.last() == after.last() && q.last() == after.last());
    } else {
        assert(p.last() == twice()[4] && q.last() == once()[1]);
    }
    assert(p.take(n) =~= before && q.take(n) =~= before);
}

/// Behind the wildcards, the longer pattern has the components of the
/// shorter one and one recursive wildcard more.
proof fn lemma_components_behind(before: Seq<char>, after: Seq<char>)
    requires
        after.len() == 0 || is_separator(after[0]),
        compile_components(before + twice() + after, before.len() as int) is Ok,
    ensures
        ({
            let p = before + twice() + after;
            let q = before + once() + after;
            let n = before.len() as int;
            &&& compile_components(q, n) matches Ok(short)
            &&& short.len() > 0
            &&& short[0] == recursive_component()
            &&& compile_components(p, n) == Ok::<Seq<Seq<Token>>, SyntaxError>(
                seq![recursive_component()] + short,
            )
        }),
{
    let p = before + twice() + after;
    let q = before + once() + after;
    let n = before.len() as int;
    assert(p[n] == twice()[0] && p[n + 1] == twice()[1] && p[n + 2] == twice()[2] && p[n + 3]
        == twice()[3] && p[n + 4] == twice()[4]);
    assert(q[n] == once()[0] && q[n + 1] == once()[1]);
    if after.len() > 0 {
        assert(p[n + 5] == after[0] && q[n + 2] == after[0]);
        assert(p.skip(n + 6) =~= after.skip(1));
        assert(q.skip(n + 3) =~= after.skip(1));
    }
    lemma_wildcard_component(p, n);
    lemma_wildcard_component(p, n + 3);
    lemma_wildcard_component(q, n);
    if after.len() > 0 {
        lemma_components_of_suffix(p, n + 6, q, n + 3);
    }
}

/// `**/**` in a pattern means what `**` means. Take a pattern in which a
/// recursive wildcard component is written twice in a row, between
/// separators or the ends of the pattern, and the pattern in which it is
/// written once in that place. Where there is a traversal for the first,
/// there is one for the second, and it starts at the same point: its state
/// is that of the first with two components merged. The number of the first
/// of the two components is returned.
pub proof fn lemma_repeated_wildcard_in_pattern(
    before: Seq<char>,
    after: Seq<char>,
    options: MatchOptions,
) -> (d: int)
    requires
        before.len() == 0 || is_separator(before.last()),
        after.len() == 0 || is_separator(after[0]),
        (before + twice() + after).len() <= usize::MAX,
        traversal(before + twice() + after, options) is Ok,
    ensures
        repeats_at(traversal(before + twice() + after, options)->Ok_0.patterns, d),
        sound(traversal(before + twice() + after, options)->Ok_0),
        traversal(before + once() + after, options) == Ok::<Machine, SyntaxError>(
            merged_machine(d, traversal(before + twice() + after, options)->Ok_0),
        ),
{
    let p = before + twice() + after;
    let q = before + once() + after;
    let n = before.len() as int;
    let r = root_len(p);
    lemma_traversal_starts_sound(p, options);
    lemma_patterns_alike(before, after);
    lemma_components_split(p, r, n);
    lemma_components_split(q, r, n);
    lemma_components_of_prefix(p, q, r, n);
    lemma_components_behind(before, after);
    let head = components_upto(p, r, n)->Ok_0;
    let short_rest = compile_components(q, n)->Ok_0;
    let long = head + (seq![recursive_component()] + short_rest);
    let short = head + short_rest;
    let d = head.len() as int;
    assert(compile_components(p, r) == Ok::<Seq<Seq<Token>>, SyntaxError>(long));
    assert(compile_components(q, r) == Ok::<Seq<Seq<Token>>, SyntaxError>(short));
    assert(long[d] == recursive_component() && long[d + 1] == short_rest[0]);
    assert(short =~= long.remove(d + 1));
    lemma_components_compile_the_pattern(q);
    lemma_components_are_few(p, r);
    lemma_repeated_component_start(
        long,
        d,
        p.len() > 0 && is_separator(p.last()),
        MatchOptions { require_literal_separator: true, ..options },
        scope(p),
    );
    d
}

/// Whatever the filesystem answers, the traversal for a pattern with
/// `**/**` in it and the traversal for the pattern with `**` in that place
/// go through the same steps: they find the same paths in the same order,
/// and ask the same questions on the way.
pub proof fn lemma_repeated_wildcard_same_steps(
    before: Seq<char>,
    after: Seq<char>,
    options: MatchOptions,
    replies: Seq<ReplyView>,
)
    requires
        before.len() == 0 || is_separator(before.last()),
        after.len() == 0 || is_separator(after[0]),
        (before + twice() + after).len() <= usize::MAX,
        traversal(before + twice() + after, options) is Ok,
    ensures
        traversal(before + once() + after, options) is Ok,
        traversal(before + once() + after, options)->Ok_0.steps(replies) == traversal(
            before + twice() + after,
            options,
        )->Ok_0.steps(replies),
{
    let d = lemma_repeated_wildcard_in_pattern(before, after, options);
    lemma_repeated_component_same_steps(
        traversal(before + twice() + after, options)->Ok_0,
        d,
        replies,
    );
}

} // verus!
