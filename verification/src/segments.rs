//! Paths as text: splitting a pattern into components, joining a name onto a
//! directory, and finding the last component of a path.

use vstd::prelude::*;
use crate::chars::{is_sep, is_separator, lemma_seq_chars_are_scalars};

verus! {

broadcast use lemma_seq_chars_are_scalars;

/// Offset of the first separator at or after `from`, or the length of `s`
/// where none follows.
pub open spec fn first_separator(s: Seq<char>, from: int) -> int
    decreases s.len() - from,
{
    if from < 0 || from >= s.len() {
        s.len() as int
    } else if is_separator(s[from]) {
        from
    } else {
        first_separator(s, from + 1)
    }
}

/// The components of `s` from offset `from` on: the pieces between
/// separators. A separator at the very end closes the last component and
/// opens no further one, so the empty text has no component at all.
pub open spec fn components_from(s: Seq<char>, from: int) -> Seq<Seq<char>>
    decreases s.len() + 1 - from,
{
    if from < 0 || from >= s.len() {
        Seq::empty()
    } else {
        let end = first_separator(s, from);
        proof {
            lemma_first_separator_bounds(s, from);
        }
        seq![s.subrange(from, end)] + components_from(s, end + 1)
    }
}

/// The first separator at or after `from` is not before `from`, nor past the
/// end, and no separator stands before it.
pub proof fn lemma_first_separator_bounds(s: Seq<char>, from: int)
    requires
        0 <= from <= s.len(),
    ensures
        from <= first_separator(s, from) <= s.len(),
        first_separator(s, from) < s.len() ==> is_separator(s[first_separator(s, from)]),
        forall|k: int| from <= k < first_separator(s, from) ==> !is_separator(s[k]),
    decreases s.len() - from,
{
    if from < s.len() && !is_separator(s[from]) {
        lemma_first_separator_bounds(s, from + 1);
    }
}

/// The directory a traversal that has no root starts from.
pub open spec fn current_dir() -> Seq<char> {
    seq!['.']
}

/// The path of the entry `name` in the directory `base`. The current
/// directory adds nothing to the names in it, and an empty name is the
/// directory itself. Nothing else is done to the text: `..` stays as it is
/// written.
pub open spec fn join(base: Seq<char>, name: Seq<char>) -> Seq<char> {
    if name.len() == 0 {
        base
    } else if base == current_dir() || base.len() == 0 {
        name
    } else if is_separator(base.last()) {
        base + name
    } else {
        base + seq!['/'] + name
    }
}

/// Offset at which the last component of `path` starts: after the last
/// separator, or at 0 where there is none.
pub open spec fn name_start(path: Seq<char>) -> int
    decreases path.len(),
{
    if path.len() == 0 {
        0
    } else if is_separator(path.last()) {
        path.len() as int
    } else {
        name_start(path.drop_last())
    }
}

/// The last component of `path`: what follows its last separator.
pub open spec fn file_name(path: Seq<char>) -> Seq<char> {
    path.subrange(name_start(path), path.len() as int)
}

/// The last component starts inside the path, right after a separator if
/// not at 0, and holds no separator.
pub proof fn lemma_name_start_bounds(path: Seq<char>)
    ensures
        0 <= name_start(path) <= path.len(),
        name_start(path) > 0 ==> is_separator(path[name_start(path) - 1]),
        forall|k: int| name_start(path) <= k < path.len() ==> !is_separator(path[k]),
    decreases path.len(),
{
    if path.len() > 0 && !is_separator(path.last()) {
        let shorter = path.drop_last();
        lemma_name_start_bounds(shorter);
        assert forall|k: int| name_start(path) <= k < path.len() implies !is_separator(
            path[k],
        ) by {
            if k < shorter.len() {
                assert(path[k] == shorter[k]);
            }
        }
    }
}

/// The last component of a path is found by looking back from its end to the
/// nearest separator.
proof fn lemma_name_start_from_suffix(path: Seq<char>, k: int)
    requires
        0 <= k <= path.len(),
        forall|j: int| k <= j < path.len() ==> !is_separator(path[j]),
    ensures
        name_start(path) == name_start(path.take(k)),
    decreases path.len() - k,
{
    if k < path.len() {
        lemma_name_start_from_suffix(path.drop_last(), k);
        assert(path.drop_last().take(k) =~= path.take(k));
    } else {
        assert(path.take(k) =~= path);
    }
}

/// Copies `source[from..to]`.
pub fn copy_range(source: &Vec<char>, from: usize, to: usize) -> (piece: Vec<char>)
    requires
        from <= to <= source.len(),
    ensures
        piece@ == source@.subrange(from as int, to as int),
{
    let mut piece: Vec<char> = Vec::new();
    let mut i: usize = from;
    while i < to
        invariant
            from <= i <= to <= source.len(),
            piece@ == source@.subrange(from as int, i as int),
        decreases to - i,
    {
        piece.push(source[i]);
        assert(piece@ =~= source@.subrange(from as int, i + 1));
        i += 1;
    }
    assert(source@.subrange(from as int, from as int) =~= Seq::<char>::empty());
    piece
}

/// Appends the characters of `tail` to `head`.
fn append_chars(head: &mut Vec<char>, tail: &Vec<char>)
    ensures
        final(head)@ == old(head)@ + tail@,
{
    let mut i: usize = 0;
    assert(head@ =~= old(head)@ + tail@.take(0));
    while i < tail.len()
        invariant
            i <= tail.len(),
            head@ == old(head)@ + tail@.take(i as int),
        decreases tail.len() - i,
    {
        head.push(tail[i]);
        assert(head@ =~= old(head)@ + tail@.take(i + 1));
        i += 1;
    }
    assert(tail@.take(tail@.len() as int) =~= tail@);
}

/// Computes [`join`].
pub fn join_path(base: &Vec<char>, name: &Vec<char>) -> (path: Vec<char>)
    ensures
        path@ == join(base@, name@),
{
    if name.len() == 0 {
        return copy_range(base, 0, base.len());
    }
    let is_current = base.len() == 1 && base[0] == '.';
    assert(is_current == (base@ == current_dir())) by {
        if is_current {
            assert(base@ =~= current_dir());
        }
    }
    if is_current || base.len() == 0 {
        return copy_range(name, 0, name.len());
    }
    let mut path = copy_range(base, 0, base.len());
    if !is_sep(base[base.len() - 1]) {
        path.push('/');
    }
    append_chars(&mut path, name);
    assert(base@.push('/') =~= base@ + seq!['/']);
    path
}

/// Computes [`file_name`].
pub fn file_name_of(path: &Vec<char>) -> (name: Vec<char>)
    ensures
        name@ == file_name(path@),
{
    let mut start: usize = path.len();
    while start > 0 && !is_sep(path[start - 1])
        invariant
            start <= path.len(),
            forall|j: int| start <= j < path.len() ==> !is_separator(path@[j]),
        decreases start,
    {
        start -= 1;
    }
    proof {
        lemma_name_start_from_suffix(path@, start as int);
        let head = path@.take(start as int);
        if start > 0 {
            assert(head.last() == path@[start - 1]);
        }
    }
    copy_range(path, start, path.len())
}

} // verus!
