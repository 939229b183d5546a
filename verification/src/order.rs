//! The order in which the entries of a directory are visited.

use vstd::prelude::*;
use crate::chars::lemma_seq_chars_are_scalars;
use crate::text::to_chars;

verus! {

broadcast use lemma_seq_chars_are_scalars;

/// Whether `a` comes before `b` in dictionary order, character by character
/// and by code point. A proper prefix comes before what it is a prefix of.
pub open spec fn lex_less(a: Seq<char>, b: Seq<char>) -> bool
    decreases a.len(),
{
    if b.len() == 0 {
        false
    } else if a.len() == 0 {
        true
    } else if a[0] != b[0] {
        a[0] < b[0]
    } else {
        lex_less(a.skip(1), b.skip(1))
    }
}

/// `sorted` with `name` put in behind the last entry that does not come
/// before it.
pub open spec fn insert_descending(sorted: Seq<Seq<char>>, name: Seq<char>) -> Seq<Seq<char>>
    decreases sorted.len(),
{
    if sorted.len() > 0 && lex_less(sorted.last(), name) {
        insert_descending(sorted.drop_last(), name).push(sorted.last())
    } else {
        sorted.push(name)
    }
}

/// The names in descending dictionary order.
pub open spec fn sorted_descending(names: Seq<Seq<char>>) -> Seq<Seq<char>>
    decreases names.len(),
{
    if names.len() == 0 {
        Seq::empty()
    } else {
        insert_descending(sorted_descending(names.drop_last()), names.last())
    }
}

/// Whether no entry comes before an earlier one.
pub open spec fn is_descending(names: Seq<Seq<char>>) -> bool {
    forall|i: int, j: int| 0 <= i < j < names.len() ==> !lex_less(names[i], names[j])
}

/// What each string of a vector holds.
pub open spec fn texts_of(names: Seq<String>) -> Seq<Seq<char>> {
    names.map_values(|s: String| s@)
}

/// What each character vector of a vector holds.
pub open spec fn chars_of(names: Seq<Vec<char>>) -> Seq<Seq<char>> {
    names.map_values(|v: Vec<char>| v@)
}

/// Nothing comes before itself.
pub proof fn lemma_lex_less_irreflexive(a: Seq<char>)
    ensures
        !lex_less(a, a),
    decreases a.len(),
{
    if a.len() > 0 {
        lemma_lex_less_irreflexive(a.skip(1));
    }
}

/// Of two different texts one comes before the other.
pub proof fn lemma_lex_less_total(a: Seq<char>, b: Seq<char>)
    ensures
        lex_less(a, b) || lex_less(b, a) || a == b,
    decreases a.len(),
{
    if a.len() > 0 && b.len() > 0 && a[0] == b[0] {
        lemma_lex_less_total(a.skip(1), b.skip(1));
        if a.skip(1) == b.skip(1) {
            assert(a =~= seq![a[0]] + a.skip(1));
            assert(b =~= seq![b[0]] + b.skip(1));
        }
    } else if a.len() == 0 && b.len() == 0 {
        assert(a =~= b);
    }
}

/// Dictionary order is transitive.
pub proof fn lemma_lex_less_transitive(a: Seq<char>, b: Seq<char>, c: Seq<char>)
    requires
        lex_less(a, b),
        lex_less(b, c),
    ensures
        lex_less(a, c),
    decreases a.len(),
{
    if a.len() > 0 && a[0] == b[0] && b[0] == c[0] {
        lemma_lex_less_transitive(a.skip(1), b.skip(1), c.skip(1));
    }
}

/// No two texts come before each other.
pub proof fn lemma_lex_less_asymmetric(a: Seq<char>, b: Seq<char>)
    requires
        lex_less(a, b),
    ensures
        !lex_less(b, a),
{
    if lex_less(b, a) {
        lemma_lex_less_transitive(a, b, a);
        lemma_lex_less_irreflexive(a);
    }
}

/// Where the new name goes: behind the entries from `at` on, which all come
/// before it, and after the entry before `at`, which does not.
pub proof fn lemma_insert_descending_at(sorted: Seq<Seq<char>>, name: Seq<char>, at: int)
    requires
        0 <= at <= sorted.len(),
        forall|k: int| at <= k < sorted.len() ==> lex_less(#[trigger] sorted[k], name),
        at > 0 ==> !lex_less(sorted[at - 1], name),
    ensures
        insert_descending(sorted, name) == sorted.insert(at, name),
    decreases sorted.len() - at,
{
    if at < sorted.len() {
        let shorter = sorted.drop_last();
        assert(lex_less(sorted[sorted.len() - 1], name));
        assert forall|k: int| at <= k < shorter.len() implies lex_less(
            #[trigger] shorter[k],
            name,
        ) by {
            assert(shorter[k] == sorted[k]);
        }
        lemma_insert_descending_at(shorter, name, at);
        assert(shorter.insert(at, name).push(sorted.last()) =~= sorted.insert(at, name));
    } else {
        assert(sorted.push(name) =~= sorted.insert(at, name));
    }
}

/// Putting a name into a descending sequence leaves it descending, and adds
/// that name and nothing else.
pub proof fn lemma_insert_descending_sorts(sorted: Seq<Seq<char>>, name: Seq<char>)
    requires
        is_descending(sorted),
    ensures
        is_descending(insert_descending(sorted, name)),
        insert_descending(sorted, name).to_multiset() == sorted.to_multiset().insert(name),
    decreases sorted.len(),
{
    broadcast use vstd::seq_lib::group_to_multiset_ensures;

    let result = insert_descending(sorted, name);
    if sorted.len() > 0 && lex_less(sorted.last(), name) {
        let shorter = sorted.drop_last();
        let last = sorted.last();
        assert forall|i: int, j: int| 0 <= i < j < shorter.len() implies !lex_less(
            shorter[i],
            shorter[j],
        ) by {
            assert(shorter[i] == sorted[i] && shorter[j] == sorted[j]);
        }
        lemma_insert_descending_sorts(shorter, name);
        let inner = insert_descending(shorter, name);
        assert(result == inner.push(last));
        assert forall|i: int, j: int| 0 <= i < j < result.len() implies !lex_less(
            result[i],
            result[j],
        ) by {
            if j < inner.len() {
                assert(result[i] == inner[i] && result[j] == inner[j]);
            } else {
                // every entry of `inner` is `name` or an entry of `shorter`
                assert(inner.to_multiset().count(inner[i]) > 0);
                if inner[i] == name {
                    lemma_lex_less_asymmetric(last, name);
                } else {
                    assert(shorter.to_multiset().count(inner[i]) > 0);
                    let k = choose|k: int| 0 <= k < shorter.len() && shorter[k] == inner[i];
                    assert(sorted[k] == inner[i]);
                    assert(!lex_less(sorted[k], sorted[sorted.len() - 1]));
                }
            }
        }
        assert(sorted =~= shorter.push(last));
    } else {
        assert forall|i: int, j: int| 0 <= i < j < result.len() implies !lex_less(
            result[i],
            result[j],
        ) by {
            if j < sorted.len() {
                assert(result[i] == sorted[i] && result[j] == sorted[j]);
            } else if sorted.len() > 0 {
                // sorted[i] >= sorted.last() >= name
                let last = sorted.last();
                if lex_less(sorted[i], name) {
                    lemma_lex_less_total(last, name);
                    if last == name {
                        assert(!lex_less(sorted[i], sorted[sorted.len() - 1]));
                    } else {
                        lemma_lex_less_transitive(sorted[i], name, last);
                        assert(!lex_less(sorted[i], sorted[sorted.len() - 1]));
                        if i == sorted.len() - 1 {
                            lemma_lex_less_irreflexive(last);
                        }
                    }
                }
            }
        }
    }
}

/// The sorted names are in descending order and are the given names, each
/// as often as it was given.
pub proof fn lemma_sorted_descending_sorts(names: Seq<Seq<char>>)
    ensures
        is_descending(sorted_descending(names)),
        sorted_descending(names).to_multiset() == names.to_multiset(),
        sorted_descending(names).len() == names.len(),
    decreases names.len(),
{
    broadcast use vstd::seq_lib::group_to_multiset_ensures;

    if names.len() > 0 {
        let shorter = names.drop_last();
        lemma_sorted_descending_sorts(shorter);
        lemma_insert_descending_sorts(sorted_descending(shorter), names.last());
        assert(names =~= shorter.push(names.last()));
    }
    sorted_descending(names).to_multiset_ensures();
    names.to_multiset_ensures();
}

/// Tests [`lex_less`].
pub fn comes_before(a: &Vec<char>, b: &Vec<char>) -> (r: bool)
    ensures
        r == lex_less(a@, b@),
{
    let mut i: usize = 0;
    assert(a@.skip(0) =~= a@ && b@.skip(0) =~= b@);
    while i < a.len() && i < b.len()
        invariant
            i <= a.len(),
            i <= b.len(),
            lex_less(a@, b@) == lex_less(a@.skip(i as int), b@.skip(i as int)),
        decreases a.len() - i,
    {
        assert(a@.skip(i as int)[0] == a@[i as int]);
        assert(b@.skip(i as int)[0] == b@[i as int]);
        if a[i] != b[i] {
            return a[i] < b[i];
        }
        assert(a@.skip(i as int).skip(1) =~= a@.skip(i + 1));
        assert(b@.skip(i as int).skip(1) =~= b@.skip(i + 1));
        i += 1;
    }
    i < b.len()
}

/// The names as character vectors, in descending dictionary order.
pub fn sort_descending(names: &Vec<String>) -> (sorted: Vec<Vec<char>>)
    ensures
        chars_of(sorted@) == sorted_descending(texts_of(names@)),
{
    let mut sorted: Vec<Vec<char>> = Vec::new();
    let mut i: usize = 0;
    assert(texts_of(names@).take(0) =~= Seq::<Seq<char>>::empty());
    assert(chars_of(sorted@) =~= Seq::<Seq<char>>::empty());
    while i < names.len()
        invariant
            i <= names.len(),
            chars_of(sorted@) == sorted_descending(texts_of(names@).take(i as int)),
        decreases names.len() - i,
    {
        let name = to_chars(names[i].as_str());
        let ghost before = chars_of(sorted@);
        let ghost stored = sorted@;
        let mut at: usize = sorted.len();
        while at > 0 && comes_before(&sorted[at - 1], &name)
            invariant
                at <= sorted.len(),
                before == chars_of(sorted@),
                forall|k: int| at <= k < before.len() ==> lex_less(#[trigger] before[k], name@),
            decreases at,
        {
            at -= 1;
        }
        proof {
            lemma_insert_descending_at(before, name@, at as int);
            let read = texts_of(names@).take(i + 1);
            assert(read.drop_last() =~= texts_of(names@).take(i as int));
            assert(read.last() == names@[i as int]@);
            assert(chars_of(stored.insert(at as int, name)) =~= before.insert(at as int, name@));
        }
        sorted.insert(at, name);
        i += 1;
    }
    assert(texts_of(names@).take(names@.len() as int) =~= texts_of(names@));
    sorted
}

} // verus!
