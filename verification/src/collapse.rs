//! A recursive wildcard component that is written twice in a row counts
//! once: the traversal for the longer pattern and the traversal for the
//! pattern without the repetition go through the same steps.

use vstd::prelude::*;
use crate::chars::lemma_seq_chars_are_scalars;
use crate::matcher::matches_text;
use crate::options::MatchOptions;
use crate::order::sorted_descending;
use crate::pattern::{
    compile, compile_from, has_recursive, lex_at, literal_text, starts_with_dot, Lexeme,
    SyntaxError, Token,
};
use crate::segments::{file_name, join};
use crate::walk::{next_plain, Entry, Machine, Pending, ReplyView, Stage, Task};

verus! {

broadcast use lemma_seq_chars_are_scalars;

/// The tokens of a component that is a recursive wildcard.
pub open spec fn recursive_component() -> Seq<Token> {
    seq![Token::AnyRecursiveSequence]
}

/// The component `**` compiles to a recursive wildcard and nothing else.
pub proof fn lemma_recursive_component_compiles()
    ensures
        compile(seq!['*', '*']) == Ok::<Seq<Token>, SyntaxError>(recursive_component()),
{
    let p = seq!['*', '*'];
    let lexeme = Lexeme { token: Token::AnyRecursiveSequence, end: 2 };
    assert(lex_at(p, 0) == Ok::<Lexeme, SyntaxError>(lexeme));
    assert(compile_from(p, 2, true) == Ok::<Seq<Token>, SyntaxError>(Seq::empty()));
    assert(seq![lexeme.token] + Seq::<Token>::empty() =~= recursive_component());
}

/// Whether the components `d` and `d + 1` are both a recursive wildcard.
pub open spec fn repeats_at(patterns: Seq<Seq<Token>>, d: int) -> bool {
    &&& 0 <= d
    &&& d + 1 < patterns.len()
    &&& patterns[d] == recursive_component()
    &&& patterns[d + 1] == recursive_component()
}

/// The index that the component `i` has once the component `d + 1` is
/// taken out. The component `d + 1` itself goes where its twin `d` is.
pub open spec fn merged(d: int, i: int) -> int {
    if i <= d {
        i
    } else {
        i - 1
    }
}

/// [`merged`] on the indices that a state holds.
pub open spec fn merged_index(d: int, i: usize) -> usize {
    merged(d, i as int) as usize
}

pub open spec fn merged_stage(d: int, stage: Stage) -> Stage {
    match stage {
        Stage::Check(i) => Stage::Check(merged_index(d, i)),
        Stage::Verified => Stage::Verified,
    }
}

pub open spec fn merged_entry(d: int, entry: Entry<Seq<char>>) -> Entry<Seq<char>> {
    Entry { path: entry.path, stage: merged_stage(d, entry.stage) }
}

pub open spec fn merged_task(d: int, task: Task<Seq<char>>) -> Task<Seq<char>> {
    match task {
        Task::Expand { index, base } => Task::Expand { index: merged_index(d, index), base },
        Task::Emit { path } => Task::Emit { path },
    }
}

pub open spec fn merged_pending(d: int, pending: Pending<Seq<char>>) -> Pending<Seq<char>> {
    match pending {
        Pending::Idle => Pending::Idle,
        Pending::Candidate { path } => Pending::Candidate { path },
        Pending::Literal { index, path } => Pending::Literal {
            index: merged_index(d, index),
            path,
        },
        Pending::Listing { index, base } => Pending::Listing {
            index: merged_index(d, index),
            base,
        },
    }
}

/// The state that stands for `m` in the traversal of the pattern without
/// the component `d + 1`.
pub open spec fn merged_machine(d: int, m: Machine) -> Machine {
    Machine {
        patterns: m.patterns.remove(d + 1),
        require_dir: m.require_dir,
        options: m.options,
        todo: m.todo.map_values(|e: Entry<Seq<char>>| merged_entry(d, e)),
        agenda: m.agenda.map_values(|t: Task<Seq<char>>| merged_task(d, t)),
        pending: merged_pending(d, m.pending),
    }
}

/// Whether the state `m` can come up in a traversal: every index is that of
/// a component, and an entry is looked up by name only for a component of
/// literal characters.
pub open spec fn sound(m: Machine) -> bool {
    &&& m.wf()
    &&& (m.pending matches Pending::Literal { index, .. } ==> literal_text(
        m.patterns[index as int],
    ) is Some)
}

/// A component keeps its tokens when the repeated one is taken out.
pub proof fn lemma_merged_component(patterns: Seq<Seq<Token>>, d: int, i: int)
    requires
        repeats_at(patterns, d),
        0 <= i < patterns.len(),
    ensures
        0 <= merged(d, i) < patterns.remove(d + 1).len(),
        patterns.remove(d + 1)[merged(d, i)] == patterns[i],
{
}

/// A recursive wildcard has no text of its own, starts with no dot and is
/// recursive.
pub proof fn lemma_recursive_component()
    ensures
        literal_text(recursive_component()) is None,
        !starts_with_dot(recursive_component()),
        has_recursive(recursive_component()),
{
    let tokens = recursive_component();
    assert(tokens[0] is AnyRecursiveSequence);
}

/// Behind the repeated component, the next component that is not recursive
/// is the same one in both patterns.
pub proof fn lemma_next_plain_behind(patterns: Seq<Seq<Token>>, d: int, from: int)
    requires
        repeats_at(patterns, d),
        d + 2 <= from <= patterns.len(),
    ensures
        next_plain(patterns.remove(d + 1), from - 1) == next_plain(patterns, from) - 1,
        from <= next_plain(patterns, from) <= patterns.len(),
        next_plain(patterns, from) < patterns.len() ==> !has_recursive(
            patterns[next_plain(patterns, from)],
        ),
    decreases patterns.len() - from,
{
    if from < patterns.len() {
        lemma_merged_component(patterns, d, from);
        if has_recursive(patterns[from]) {
            lemma_next_plain_behind(patterns, d, from + 1);
        }
    }
}

/// From anywhere, the next component that is not recursive is the same one
/// in both patterns.
pub proof fn lemma_next_plain_merged(patterns: Seq<Seq<Token>>, d: int, from: int)
    requires
        repeats_at(patterns, d),
        0 <= from <= patterns.len(),
    ensures
        next_plain(patterns.remove(d + 1), merged(d, from)) == merged(
            d,
            next_plain(patterns, from),
        ),
        from <= next_plain(patterns, from) <= patterns.len(),
        next_plain(patterns, from) != d,
        next_plain(patterns, from) != d + 1,
        next_plain(patterns, from) < patterns.len() ==> !has_recursive(
            patterns[next_plain(patterns, from)],
        ),
    decreases patterns.len() - from,
{
    lemma_recursive_component();
    if from >= d + 2 {
        lemma_next_plain_behind(patterns, d, from);
    } else if from == d + 1 {
        lemma_next_plain_behind(patterns, d, d + 2);
        lemma_merged_component(patterns, d, d);
    } else {
        lemma_merged_component(patterns, d, from);
        lemma_next_plain_merged(patterns, d, from + 1);
    }
}

/// Putting a path on the work stack is the same in both traversals.
proof fn lemma_with_entry_merged(m: Machine, d: int, path: Seq<char>, stage: Stage)
    requires
        sound(m),
        stage matches Stage::Check(k) ==> k < m.patterns.len(),
    ensures
        merged_machine(d, m.with_entry(path, stage)) == merged_machine(d, m).with_entry(
            path,
            merged_stage(d, stage),
        ),
        sound(m.with_entry(path, stage)),
{
    let longer = m.with_entry(path, stage);
    assert(merged_machine(d, longer).todo =~= merged_machine(d, m).with_entry(
        path,
        merged_stage(d, stage),
    ).todo);
    assert forall|i: int| 0 <= i < longer.todo.len() implies ((#[trigger] longer.todo[i]).stage matches Stage::Check(
        k,
    ) ==> k < longer.patterns.len()) by {
        if i < m.todo.len() {
            assert(longer.todo[i] == m.todo[i]);
        }
    }
}

/// Putting off a task is the same in both traversals.
proof fn lemma_with_task_merged(m: Machine, d: int, task: Task<Seq<char>>)
    requires
        sound(m),
        task matches Task::Expand { index, .. } ==> index < m.patterns.len(),
    ensures
        merged_machine(d, m.with_task(task)) == merged_machine(d, m).with_task(
            merged_task(d, task),
        ),
        sound(m.with_task(task)),
{
    let longer = m.with_task(task);
    assert(merged_machine(d, longer).agenda =~= merged_machine(d, m).with_task(
        merged_task(d, task),
    ).agenda);
    assert forall|i: int| 0 <= i < longer.agenda.len() implies ((#[trigger] longer.agenda[i]) matches Task::Expand {
        index,
        ..
    } ==> index < longer.patterns.len()) by {
        if i < m.agenda.len() {
            assert(longer.agenda[i] == m.agenda[i]);
        }
    }
}

/// Starting on a directory is the same in both traversals.
proof fn lemma_expand_merged(m: Machine, d: int, index: usize, base: Seq<char>)
    requires
        repeats_at(m.patterns, d),
        sound(m),
        index < m.patterns.len(),
    ensures
        merged_machine(d, m).expand(merged(d, index as int), base) == (
            merged_machine(d, m.expand(index as int, base).0),
            m.expand(index as int, base).1,
        ),
        sound(m.expand(index as int, base).0),
        m.expand(index as int, base).0.patterns == m.patterns,
{
    lemma_merged_component(m.patterns, d, index as int);
}

/// Going on from an accepted path is the same in both traversals, for
/// every component but the repeated one.
proof fn lemma_accept_merged(m: Machine, d: int, index: usize, path: Seq<char>)
    requires
        repeats_at(m.patterns, d),
        sound(m),
        index < m.patterns.len(),
        index != d,
        index != d + 1,
    ensures
        merged_machine(d, m).accept(merged(d, index as int), path) == merged_machine(
            d,
            m.accept(index as int, path),
        ),
        sound(m.accept(index as int, path)),
        m.accept(index as int, path).patterns == m.patterns,
        m.accept(index as int, path).pending == m.pending,
{
    if index + 1 == m.patterns.len() {
        lemma_with_entry_merged(m, d, path, Stage::Verified);
    } else {
        lemma_with_task_merged(m, d, Task::Expand { index: (index + 1) as usize, base: path });
    }
}

/// Taking a listing is the same in both traversals.
proof fn lemma_list_merged(
    m: Machine,
    d: int,
    index: usize,
    base: Seq<char>,
    names: Seq<Seq<char>>,
)
    requires
        repeats_at(m.patterns, d),
        sound(m),
        index < m.patterns.len(),
    ensures
        merged_machine(d, m).list(merged(d, index as int), base, names) == merged_machine(
            d,
            m.list(index as int, base, names),
        ),
        sound(m.list(index as int, base, names)),
        m.list(index as int, base, names).patterns == m.patterns,
        m.list(index as int, base, names).pending == m.pending,
{
    lemma_recursive_component();
    lemma_merged_component(m.patterns, d, index as int);
    let short = merged_machine(d, m);
    let children = sorted_descending(names).map_values(
        |name: Seq<char>| Entry { path: join(base, name), stage: Stage::Check(index) },
    );
    let short_children = sorted_descending(names).map_values(
        |name: Seq<char>|
            Entry { path: join(base, name), stage: Stage::Check(merged(d, index as int) as usize) },
    );
    let listed = Machine { todo: m.todo + children, ..m };
    let short_listed = Machine { todo: short.todo + short_children, ..short };
    assert(merged_machine(d, listed).todo =~= short_listed.todo);
    assert(merged_machine(d, listed) == short_listed);
    assert forall|i: int| 0 <= i < listed.todo.len() implies ((#[trigger] listed.todo[i]).stage matches Stage::Check(
        k,
    ) ==> k < listed.patterns.len()) by {
        if i < m.todo.len() {
            assert(listed.todo[i] == m.todo[i]);
        } else {
            assert(listed.todo[i] == children[i - m.todo.len()]);
        }
    }
    assert(sound(listed));
    if index != d && index != d + 1 {
        let dot = seq!['.'];
        let dotdot = seq!['.', '.'];
        let tokens = m.patterns[index as int];
        let takes_dot = starts_with_dot(tokens) && matches_text(tokens, dot, m.options);
        let takes_dotdot = starts_with_dot(tokens) && matches_text(tokens, dotdot, m.options);
        if index + 1 == m.patterns.len() {
            let first = if takes_dot {
                lemma_accept_merged(listed, d, index, join(base, dot));
                listed.accept(index as int, join(base, dot))
            } else {
                listed
            };
            if takes_dotdot {
                lemma_accept_merged(first, d, index, join(base, dotdot));
            }
        } else {
            let first = if takes_dotdot {
                lemma_accept_merged(listed, d, index, join(base, dotdot));
                listed.accept(index as int, join(base, dotdot))
            } else {
                listed
            };
            if takes_dot {
                lemma_accept_merged(first, d, index, join(base, dot));
            }
        }
    }
}

/// Looking at a path is the same in both traversals.
proof fn lemma_visit_merged(m: Machine, d: int, path: Seq<char>, index: usize)
    requires
        repeats_at(m.patterns, d),
        sound(m),
        index < m.patterns.len(),
    ensures
        merged_machine(d, m).visit(path, merged(d, index as int)) == merged_machine(
            d,
            m.visit(path, index as int),
        ),
        sound(m.visit(path, index as int)),
        m.visit(path, index as int).patterns == m.patterns,
        m.visit(path, index as int).pending == m.pending,
        m.visit(path, index as int).todo == m.todo,
{
    lemma_recursive_component();
    lemma_merged_component(m.patterns, d, index as int);
    let n = m.patterns.len() as int;
    let short = merged_machine(d, m);
    let name = file_name(path);
    if has_recursive(m.patterns[index as int]) {
        lemma_next_plain_merged(m.patterns, d, index + 1);
        let next = next_plain(m.patterns, index + 1);
        if index == d {
            // in the shorter pattern the search starts one component later
            lemma_merged_component(m.patterns, d, d + 1);
            assert(next_plain(short.patterns, d) == next_plain(short.patterns, d + 1));
        }
        assert(next_plain(short.patterns, merged(d, index as int) + 1) == merged(d, next));
        if next == n {
            let emit = Task::Emit { path };
            lemma_with_task_merged(m, d, emit);
            lemma_with_task_merged(
                m.with_task(emit),
                d,
                Task::Expand { index: (n - 1) as usize, base: path },
            );
        } else {
            lemma_merged_component(m.patterns, d, next);
            if matches_text(m.patterns[next], name, m.options) {
                if next == n - 1 {
                    lemma_with_task_merged(m, d, Task::Emit { path });
                } else {
                    lemma_with_task_merged(
                        m,
                        d,
                        Task::Expand { index: (next + 1) as usize, base: path },
                    );
                }
            } else {
                lemma_with_task_merged(
                    m,
                    d,
                    Task::Expand { index: (next - 1) as usize, base: path },
                );
            }
        }
    } else if matches_text(m.patterns[index as int], name, m.options) {
        if index == n - 1 {
            lemma_with_task_merged(m, d, Task::Emit { path });
        } else {
            lemma_with_task_merged(m, d, Task::Expand { index: (index + 1) as usize, base: path });
        }
    }
}

/// Taking an answer is the same in both traversals.
proof fn lemma_deliver_merged(m: Machine, d: int, reply: ReplyView)
    requires
        repeats_at(m.patterns, d),
        sound(m),
    ensures
        merged_machine(d, m).deliver(reply) == (
            merged_machine(d, m.deliver(reply).0),
            m.deliver(reply).1,
        ),
        sound(m.deliver(reply).0),
        m.deliver(reply).0.patterns == m.patterns,
        m.deliver(reply).0.pending is Idle,
{
    lemma_recursive_component();
    let idle = Machine { pending: Pending::Idle, ..m };
    assert(merged_machine(d, idle) == (Machine { pending: Pending::Idle, ..merged_machine(d, m) }));
    assert(sound(idle));
    match m.pending {
        Pending::Literal { index, path } => {
            if reply == ReplyView::Flag(true) {
                lemma_accept_merged(idle, d, index, path);
            }
        },
        Pending::Listing { index, base } => {
            match reply {
                ReplyView::Children(names) => {
                    lemma_list_merged(idle, d, index, base, names);
                },
                _ => {},
            }
        },
        _ => {},
    }
}

/// Working on is the same in both traversals.
proof fn lemma_settle_merged(m: Machine, d: int)
    requires
        repeats_at(m.patterns, d),
        sound(m),
        m.pending is Idle,
    ensures
        merged_machine(d, m).settle() == (merged_machine(d, m.settle().0), m.settle().1),
        sound(m.settle().0),
        m.settle().0.patterns == m.patterns,
    decreases m.todo.len(), m.agenda.len(),
{
    let short = merged_machine(d, m);
    if m.agenda.len() > 0 {
        let rest = Machine { agenda: m.agenda.drop_last(), ..m };
        let short_rest = Machine { agenda: short.agenda.drop_last(), ..short };
        assert(merged_machine(d, rest).agenda =~= short_rest.agenda);
        assert(merged_machine(d, rest) == short_rest);
        assert(short.agenda.last() == merged_task(d, m.agenda.last()));
        assert forall|i: int| 0 <= i < rest.agenda.len() implies ((#[trigger] rest.agenda[i]) matches Task::Expand {
            index,
            ..
        } ==> index < rest.patterns.len()) by {
            assert(rest.agenda[i] == m.agenda[i]);
        }
        assert(sound(rest));
        match m.agenda.last() {
            Task::Emit { path } => {},
            Task::Expand { index, base } => {
                assert(m.agenda[m.agenda.len() - 1] == m.agenda.last());
                lemma_expand_merged(rest, d, index, base);
            },
        }
    } else if m.todo.len() > 0 {
        let entry = m.todo.last();
        let rest = Machine { todo: m.todo.drop_last(), ..m };
        let short_rest = Machine { todo: short.todo.drop_last(), ..short };
        assert(merged_machine(d, rest).todo =~= short_rest.todo);
        assert(merged_machine(d, rest).agenda =~= short_rest.agenda);
        assert(merged_machine(d, rest) == short_rest);
        assert(short.todo.last() == merged_entry(d, entry));
        assert forall|i: int| 0 <= i < rest.todo.len() implies ((#[trigger] rest.todo[i]).stage matches Stage::Check(
            k,
        ) ==> k < rest.patterns.len()) by {
            assert(rest.todo[i] == m.todo[i]);
        }
        assert(sound(rest));
        match entry.stage {
            Stage::Verified => {},
            Stage::Check(index) => {
                assert(m.todo[m.todo.len() - 1] == entry);
                lemma_visit_merged(rest, d, entry.path, index);
                lemma_settle_merged(rest.visit(entry.path, index as int), d);
            },
        }
    } else {
        assert(short.agenda.len() == 0 && short.todo.len() == 0);
    }
}

/// A recursive wildcard component written twice in a row counts once. Take
/// two traversals that stand at the same point, one for a pattern in which
/// the components `d` and `d + 1` are both `**`, the other for that pattern
/// without the component `d + 1`. Given the same reply, both find the same
/// path or ask the same question, and stand at the same point again.
pub proof fn lemma_repeated_component_counts_once(m: Machine, d: int, reply: ReplyView)
    requires
        repeats_at(m.patterns, d),
        sound(m),
    ensures
        merged_machine(d, m).advance(reply) == (
            merged_machine(d, m.advance(reply).0),
            m.advance(reply).1,
        ),
        sound(m.advance(reply).0),
        repeats_at(m.advance(reply).0.patterns, d),
{
    lemma_deliver_merged(m, d, reply);
    let (next, step) = m.deliver(reply);
    if step is None {
        lemma_settle_merged(next, d);
    }
}

/// The two traversals start at the same point.
pub proof fn lemma_repeated_component_start(
    patterns: Seq<Seq<Token>>,
    d: int,
    require_dir: bool,
    options: MatchOptions,
    base: Seq<char>,
)
    requires
        repeats_at(patterns, d),
        patterns.len() <= usize::MAX,
    ensures
        merged_machine(d, Machine::start(patterns, require_dir, options, base)) == Machine::start(
            patterns.remove(d + 1),
            require_dir,
            options,
            base,
        ),
        sound(Machine::start(patterns, require_dir, options, base)),
{
    let long = Machine::start(patterns, require_dir, options, base);
    let short = Machine::start(patterns.remove(d + 1), require_dir, options, base);
    assert(merged_machine(d, long).agenda =~= short.agenda);
    assert(merged_machine(d, long).todo =~= short.todo);
}

/// Whatever the filesystem answers, the traversal for a pattern with a
/// repeated recursive wildcard component and the traversal for the pattern
/// without the repetition go through the same steps: they find the same
/// paths in the same order, and ask the same questions on the way.
pub proof fn lemma_repeated_component_same_steps(m: Machine, d: int, replies: Seq<ReplyView>)
    requires
        repeats_at(m.patterns, d),
        sound(m),
    ensures
        merged_machine(d, m).steps(replies) == m.steps(replies),
    decreases replies.len(),
{
    if replies.len() > 0 {
        lemma_repeated_component_counts_once(m, d, replies[0]);
        lemma_repeated_component_same_steps(m.advance(replies[0]).0, d, replies.skip(1));
    }
}

} // verus!
