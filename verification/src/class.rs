//! Bracket classes: the members written between `[` and `]`.

use vstd::prelude::*;
use crate::chars::{lemma_seq_chars_are_scalars, ascii_lower, chars_eq, chars_match, is_ascii_lower, is_ascii_upper, to_ascii_lower};
use crate::options::MatchOptions;

verus! {

broadcast use lemma_seq_chars_are_scalars;

/// One member of a bracket class.
#[derive(Clone, Copy, PartialEq, Eq, PartialOrd, Ord, Hash, Debug)]
pub enum CharSpecifier {
    /// A single character.
    SingleChar(char),
    /// An inclusive range of characters, compared by code point.
    CharRange(char, char),
}

/// A range folds case only when both ends are ASCII letters of one case.
pub open spec fn range_folds_case(low: char, high: char) -> bool {
    (is_ascii_lower(low) && is_ascii_lower(high)) || (is_ascii_upper(low) && is_ascii_upper(
        high,
    ))
}

/// Whether `c` lies between `low` and `high`, both included.
pub open spec fn in_range(c: char, low: char, high: char) -> bool {
    low <= c <= high
}

/// Whether one class member admits `c`.
pub open spec fn specifier_accepts(s: CharSpecifier, c: char, case_sensitive: bool) -> bool {
    match s {
        CharSpecifier::SingleChar(sc) => chars_match(c, sc, case_sensitive),
        CharSpecifier::CharRange(low, high) => {
            ||| in_range(c, low, high)
            ||| (!case_sensitive && range_folds_case(low, high) && in_range(
                ascii_lower(c),
                ascii_lower(low),
                ascii_lower(high),
            ))
        },
    }
}

/// Whether some member of the class admits `c`.
pub open spec fn class_contains(class: Seq<CharSpecifier>, c: char, case_sensitive: bool) -> bool {
    exists|i: int| 0 <= i < class.len() && specifier_accepts(#[trigger] class[i], c, case_sensitive)
}

/// The members that the text of a class body denotes, read left to right:
/// three characters with `-` in the middle form a range, any other character
/// stands for itself.
pub open spec fn class_members(body: Seq<char>) -> Seq<CharSpecifier>
    decreases body.len(),
{
    if body.len() == 0 {
        Seq::empty()
    } else if body.len() >= 3 && body[1] == '-' {
        seq![CharSpecifier::CharRange(body[0], body[2])] + class_members(body.skip(3))
    } else {
        seq![CharSpecifier::SingleChar(body[0])] + class_members(body.skip(1))
    }
}

/// Where case matters, a range takes the characters between its two ends
/// and no other.
pub proof fn lemma_range_with_case(low: char, high: char, c: char)
    ensures
        specifier_accepts(CharSpecifier::CharRange(low, high), c, true) == in_range(c, low, high),
{
}

/// Where case is ignored, a range between two ASCII letters of one case
/// goes by the folded character alone.
pub proof fn lemma_letter_range_ignores_case(low: char, high: char, c: char)
    requires
        range_folds_case(low, high),
    ensures
        specifier_accepts(CharSpecifier::CharRange(low, high), c, false) == in_range(
            ascii_lower(c),
            ascii_lower(low),
            ascii_lower(high),
        ),
{
}

/// Where case is ignored, a range between two ASCII letters of one case
/// takes a letter in both cases or in neither.
pub proof fn lemma_letter_range_takes_both_cases(low: char, high: char, a: char, b: char)
    requires
        range_folds_case(low, high),
        ascii_lower(a) == ascii_lower(b),
    ensures
        specifier_accepts(CharSpecifier::CharRange(low, high), a, false) == specifier_accepts(
            CharSpecifier::CharRange(low, high),
            b,
            false,
        ),
{
    lemma_letter_range_ignores_case(low, high, a);
    lemma_letter_range_ignores_case(low, high, b);
}

/// A range with an end that is no ASCII letter, or with ends of different
/// case, takes the same characters whether case is ignored or not.
pub proof fn lemma_other_range_keeps_case(low: char, high: char, c: char)
    requires
        !range_folds_case(low, high),
    ensures
        specifier_accepts(CharSpecifier::CharRange(low, high), c, false) == in_range(c, low, high),
{
}

/// Reading a longer body continues where the members read so far end.
proof fn lemma_class_members_step(s: Seq<char>, from: int, i: int, to: int)
    requires
        0 <= from <= i < to <= s.len(),
    ensures
        i + 3 <= to && s[i + 1] == '-' ==> class_members(s.subrange(i, to)) == seq![
            CharSpecifier::CharRange(s[i], s[i + 2]),
        ] + class_members(s.subrange(i + 3, to)),
        !(i + 3 <= to && s[i + 1] == '-') ==> class_members(s.subrange(i, to)) == seq![
            CharSpecifier::SingleChar(s[i]),
        ] + class_members(s.subrange(i + 1, to)),
{
    let body = s.subrange(i, to);
    if i + 3 <= to && s[i + 1] == '-' {
        assert(body.skip(3) =~= s.subrange(i + 3, to));
    } else {
        assert(body.skip(1) =~= s.subrange(i + 1, to));
    }
}

/// Moving one element from the front of a tail to the end of a head.
pub proof fn lemma_shift_head<T>(head: Seq<T>, x: T, tail: Seq<T>)
    ensures
        head + (seq![x] + tail) == head.push(x) + tail,
{
    assert(head + (seq![x] + tail) =~= head.push(x) + tail);
}

/// Parses the class body `s[from..to]`.
pub fn parse_char_specifiers(s: &Vec<char>, from: usize, to: usize) -> (cs: Vec<CharSpecifier>)
    requires
        from <= to <= s.len(),
    ensures
        cs@ == class_members(s@.subrange(from as int, to as int)),
{
    let mut cs: Vec<CharSpecifier> = Vec::new();
    let mut i: usize = from;
    while i < to
        invariant
            from <= i <= to <= s.len(),
            class_members(s@.subrange(from as int, to as int)) == cs@ + class_members(
                s@.subrange(i as int, to as int),
            ),
        decreases to - i,
    {
        proof {
            lemma_class_members_step(s@, from as int, i as int, to as int);
        }
        let ghost before = cs@;
        if to - i >= 3 && s[i + 1] == '-' {
            cs.push(CharSpecifier::CharRange(s[i], s[i + 2]));
            proof {
                lemma_shift_head(
                    before,
                    CharSpecifier::CharRange(s@[i as int], s@[i + 2]),
                    class_members(s@.subrange(i + 3, to as int)),
                );
            }
            i += 3;
        } else {
            cs.push(CharSpecifier::SingleChar(s[i]));
            proof {
                lemma_shift_head(
                    before,
                    CharSpecifier::SingleChar(s@[i as int]),
                    class_members(s@.subrange(i + 1, to as int)),
                );
            }
            i += 1;
        }
    }
    assert(s@.subrange(to as int, to as int) =~= Seq::<char>::empty());
    cs
}

/// Tests `c` against one inclusive range.
fn range_accepts(low: char, high: char, c: char, case_sensitive: bool) -> (r: bool)
    ensures
        r == specifier_accepts(CharSpecifier::CharRange(low, high), c, case_sensitive),
{
    if low <= c && c <= high {
        return true;
    }
    if case_sensitive {
        return false;
    }
    let both_lower = 'a' <= low && low <= 'z' && 'a' <= high && high <= 'z';
    let both_upper = 'A' <= low && low <= 'Z' && 'A' <= high && high <= 'Z';
    if both_lower || both_upper {
        let folded = to_ascii_lower(c);
        to_ascii_lower(low) <= folded && folded <= to_ascii_lower(high)
    } else {
        false
    }
}

/// Tests `c` against every member of a class.
pub fn in_char_specifiers(specifiers: &Vec<CharSpecifier>, c: char, options: &MatchOptions) -> (r:
    bool)
    ensures
        r == class_contains(specifiers@, c, options.case_sensitive),
{
    let case_sensitive = options.case_sensitive;
    let mut i: usize = 0;
    while i < specifiers.len()
        invariant
            i <= specifiers.len(),
            case_sensitive == options.case_sensitive,
            forall|j: int|
                0 <= j < i ==> !specifier_accepts(#[trigger] specifiers@[j], c, case_sensitive),
        decreases specifiers.len() - i,
    {
        let accepted = match specifiers[i] {
            CharSpecifier::SingleChar(sc) => chars_eq(c, sc, case_sensitive),
            CharSpecifier::CharRange(low, high) => range_accepts(low, high, c, case_sensitive),
        };
        if accepted {
            return true;
        }
        i += 1;
    }
    false
}

} // verus!
