//! Lazy, depth-first traversal of a directory tree.
//!
//! The traversal holds its work in explicit stacks and never reads a
//! directory itself. Each call of [`Paths::advance`] runs until a path is
//! found, the work is done, or something must be known of the filesystem; in
//! that case it says what, and the next call takes the answer.

use vstd::prelude::*;
use crate::chars::{is_sep, is_separator, lemma_seq_chars_are_scalars};
use crate::matcher::matches_text;
use crate::options::MatchOptions;
use crate::order::{chars_of, sort_descending, sorted_descending, texts_of};
use crate::pattern::{
    compile, has_recursive, lemma_error_position_bounds, literal_text, starts_with_dot, Error,
    Pattern, SyntaxError, Token,
};
use crate::segments::{
    copy_range, current_dir, file_name, file_name_of, first_separator, join, join_path,
    lemma_first_separator_bounds,
};
use crate::text::{to_chars, to_text};

verus! {

broadcast use lemma_seq_chars_are_scalars;

/// What is still to be done with a path on the work stack.
#[derive(Clone, Copy, PartialEq, Eq, Debug)]
pub enum Stage {
    /// The last component of the path is to be tested against the pattern
    /// component with this index.
    Check(usize),
    /// The path has been tested already and only waits to be handed out.
    Verified,
}

/// A path on the work stack.
pub struct Entry<P> {
    pub path: P,
    pub stage: Stage,
}

/// Work that was put off until the filesystem has been asked.
pub enum Task<P> {
    /// Find the entries of the directory `base` that the pattern component
    /// `index` may match.
    Expand { index: usize, base: P },
    /// Hand out `path`.
    Emit { path: P },
}

/// The question that was asked last and still waits for its answer, with
/// what then remains to be done.
pub enum Pending<P> {
    /// Nothing was asked.
    Idle,
    /// Asked whether `path` is a directory. If so, it is handed out.
    Candidate { path: P },
    /// Asked whether `path` is there, for the literal pattern component
    /// `index`. If so, the traversal goes on from it.
    Literal { index: usize, path: P },
    /// Asked for the entries of the directory `base`, for the pattern
    /// component `index`.
    Listing { index: usize, base: P },
}

/// What the traversal needs to know of the filesystem.
pub enum Query<P> {
    /// Is this path a directory?
    IsDirectory(P),
    /// Does this path exist?
    Exists(P),
    /// Which entries does this directory hold? Their names are wanted, in
    /// any order.
    ListChildren(P),
}

/// How one call of [`Paths::advance`] ends.
pub enum Step<P> {
    /// The next path that matches.
    Found(P),
    /// The filesystem has to be asked; the answer goes to the next call.
    Ask(Query<P>),
    /// There are no more paths.
    Done,
}

/// What the caller reports of the filesystem.
pub enum Reply {
    /// Nothing: no question was open, or the filesystem gave no answer (a
    /// directory that cannot be read).
    Nothing,
    /// The answer to [`Query::IsDirectory`] or [`Query::Exists`].
    Flag(bool),
    /// The answer to [`Query::ListChildren`]: the names of the entries.
    Children(Vec<String>),
}

/// What a [`Reply`] holds.
pub enum ReplyView {
    Nothing,
    Flag(bool),
    Children(Seq<Seq<char>>),
}

impl View for Entry<Vec<char>> {
    type V = Entry<Seq<char>>;

    open spec fn view(&self) -> Entry<Seq<char>> {
        Entry { path: self.path@, stage: self.stage }
    }
}

impl View for Task<Vec<char>> {
    type V = Task<Seq<char>>;

    open spec fn view(&self) -> Task<Seq<char>> {
        match self {
            Task::Expand { index, base } => Task::Expand { index: *index, base: base@ },
            Task::Emit { path } => Task::Emit { path: path@ },
        }
    }
}

impl View for Pending<Vec<char>> {
    type V = Pending<Seq<char>>;

    open spec fn view(&self) -> Pending<Seq<char>> {
        match self {
            Pending::Idle => Pending::Idle,
            Pending::Candidate { path } => Pending::Candidate { path: path@ },
            Pending::Literal { index, path } => Pending::Literal { index: *index, path: path@ },
            Pending::Listing { index, base } => Pending::Listing { index: *index, base: base@ },
        }
    }
}

impl View for Query<String> {
    type V = Query<Seq<char>>;

    open spec fn view(&self) -> Query<Seq<char>> {
        match self {
            Query::IsDirectory(path) => Query::IsDirectory(path@),
            Query::Exists(path) => Query::Exists(path@),
            Query::ListChildren(path) => Query::ListChildren(path@),
        }
    }
}

impl View for Step<String> {
    type V = Step<Seq<char>>;

    open spec fn view(&self) -> Step<Seq<char>> {
        match self {
            Step::Found(path) => Step::Found(path@),
            Step::Ask(query) => Step::Ask(query@),
            Step::Done => Step::Done,
        }
    }
}

impl View for Reply {
    type V = ReplyView;

    open spec fn view(&self) -> ReplyView {
        match self {
            Reply::Nothing => ReplyView::Nothing,
            Reply::Flag(b) => ReplyView::Flag(*b),
            Reply::Children(names) => ReplyView::Children(texts_of(names@)),
        }
    }
}

/// The state of a traversal.
pub struct Machine {
    /// The tokens of each component of the pattern.
    pub patterns: Seq<Seq<Token>>,
    /// Whether only directories are wanted.
    pub require_dir: bool,
    pub options: MatchOptions,
    /// The work stack: paths still to be looked at, next one last.
    pub todo: Seq<Entry<Seq<char>>>,
    /// Work that was put off, next one last.
    pub agenda: Seq<Task<Seq<char>>>,
    pub pending: Pending<Seq<char>>,
}

/// Whether `name` is `.` or `..`.
pub open spec fn is_special(name: Seq<char>) -> bool {
    name == seq!['.'] || name == seq!['.', '.']
}

/// Index of the first component at or after `from` that is not a recursive
/// wildcard, or the number of components where none follows.
pub open spec fn next_plain(patterns: Seq<Seq<Token>>, from: int) -> int
    decreases patterns.len() - from,
{
    if from < 0 || from >= patterns.len() {
        patterns.len() as int
    } else if !has_recursive(patterns[from]) {
        from
    } else {
        next_plain(patterns, from + 1)
    }
}

impl Machine {
    /// Every index that the state holds is that of a component.
    pub open spec fn wf(self) -> bool {
        &&& self.patterns.len() <= usize::MAX
        &&& forall|i: int|
            0 <= i < self.todo.len() ==> ((#[trigger] self.todo[i]).stage matches Stage::Check(k)
                ==> k < self.patterns.len())
        &&& forall|i: int|
            0 <= i < self.agenda.len() ==> ((#[trigger] self.agenda[i]) matches Task::Expand {
                index,
                ..
            } ==> index < self.patterns.len())
        &&& (self.pending matches Pending::Literal { index, .. } ==> index < self.patterns.len())
        &&& (self.pending matches Pending::Listing { index, .. } ==> index < self.patterns.len())
    }

    /// The state in which a traversal starts: nothing is found yet, and
    /// the first component is to be looked for in the directory `base`. For a
    /// pattern without components there is nothing to do.
    pub open spec fn start(
        patterns: Seq<Seq<Token>>,
        require_dir: bool,
        options: MatchOptions,
        base: Seq<char>,
    ) -> Machine {
        Machine {
            patterns,
            require_dir,
            options,
            todo: Seq::empty(),
            agenda: if patterns.len() > 0 {
                seq![Task::Expand { index: 0, base }]
            } else {
                Seq::empty()
            },
            pending: Pending::Idle,
        }
    }

    /// The steps that the traversal goes through when it is given these
    /// replies, one after the other.
    pub open spec fn steps(self, replies: Seq<ReplyView>) -> Seq<Step<Seq<char>>>
        decreases replies.len(),
    {
        if replies.len() == 0 {
            Seq::empty()
        } else {
            let (next, step) = self.advance(replies[0]);
            seq![step] + next.steps(replies.skip(1))
        }
    }

    /// The state with one more path on the work stack.
    pub open spec fn with_entry(self, path: Seq<char>, stage: Stage) -> Machine {
        Machine { todo: self.todo.push(Entry { path, stage }), ..self }
    }

    /// The state with one more task put off.
    pub open spec fn with_task(self, task: Task<Seq<char>>) -> Machine {
        Machine { agenda: self.agenda.push(task), ..self }
    }

    /// Hands out `path`, after asking whether it is a directory where only
    /// directories are wanted.
    pub open spec fn offer(self, path: Seq<char>) -> (Machine, Step<Seq<char>>) {
        if self.require_dir {
            (
                Machine { pending: Pending::Candidate { path }, ..self },
                Step::Ask(Query::IsDirectory(path)),
            )
        } else {
            (self, Step::Found(path))
        }
    }

    /// Starts on the entries of `base` for the component `index`. A
    /// component of literal characters names its one entry, and only that
    /// entry is asked for: `.` and `..` are there where `base` is a
    /// directory, any other where the joined path exists. For any other
    /// component the directory has to be listed.
    pub open spec fn expand(self, index: int, base: Seq<char>) -> (Machine, Step<Seq<char>>) {
        match literal_text(self.patterns[index]) {
            Some(name) => {
                let path = join(base, name);
                (
                    Machine {
                        pending: Pending::Literal { index: index as usize, path },
                        ..self
                    },
                    Step::Ask(
                        if is_special(name) {
                            Query::IsDirectory(base)
                        } else {
                            Query::Exists(path)
                        },
                    ),
                )
            },
            None => (
                Machine { pending: Pending::Listing { index: index as usize, base }, ..self },
                Step::Ask(Query::ListChildren(base)),
            ),
        }
    }

    /// Goes on from `path`, which the component `index` has accepted: it is
    /// a result where that component is the last one, and the directory to
    /// look into for the next component otherwise.
    pub open spec fn accept(self, index: int, path: Seq<char>) -> Machine {
        if index + 1 == self.patterns.len() {
            self.with_entry(path, Stage::Verified)
        } else {
            self.with_task(Task::Expand { index: (index + 1) as usize, base: path })
        }
    }

    /// Takes the listing of `base` for the component `index`: every entry
    /// goes on the work stack, in descending order so that they leave it in
    /// ascending order. A listing never holds `.` and `..`; they are added
    /// where the component starts with a literal `.` and matches them.
    pub open spec fn list(self, index: int, base: Seq<char>, names: Seq<Seq<char>>) -> Machine {
        let children = sorted_descending(names).map_values(
            |name: Seq<char>| Entry { path: join(base, name), stage: Stage::Check(index as usize) },
        );
        let listed = Machine { todo: self.todo + children, ..self };
        let dot = seq!['.'];
        let dotdot = seq!['.', '.'];
        let tokens = self.patterns[index];
        let takes_dot = starts_with_dot(tokens) && matches_text(tokens, dot, self.options);
        let takes_dotdot = starts_with_dot(tokens) && matches_text(tokens, dotdot, self.options);
        if index + 1 == self.patterns.len() {
            let first = if takes_dot {
                listed.accept(index, join(base, dot))
            } else {
                listed
            };
            if takes_dotdot {
                first.accept(index, join(base, dotdot))
            } else {
                first
            }
        } else {
            // what is put off last is taken up first
            let first = if takes_dotdot {
                listed.accept(index, join(base, dotdot))
            } else {
                listed
            };
            if takes_dot {
                first.accept(index, join(base, dot))
            } else {
                first
            }
        }
    }

    /// Looks at `path`, whose last component is to be tested against the
    /// component `index`.
    ///
    /// A recursive wildcard stands for any number of directories. The path
    /// is tested against the first component after it that is not recursive
    /// too. If it matches, the traversal goes on behind that component; if
    /// not, it goes down into `path` and stays on the recursive wildcard.
    /// Where only recursive wildcards are left, `path` is a result and the
    /// traversal goes down into it.
    ///
    /// Any other component has to match the last component of `path`.
    pub open spec fn visit(self, path: Seq<char>, index: int) -> Machine {
        let n = self.patterns.len() as int;
        let name = file_name(path);
        if has_recursive(self.patterns[index]) {
            let next = next_plain(self.patterns, index + 1);
            if next == n {
                self.with_task(Task::Emit { path }).with_task(
                    Task::Expand { index: (n - 1) as usize, base: path },
                )
            } else if matches_text(self.patterns[next], name, self.options) {
                if next == n - 1 {
                    self.with_task(Task::Emit { path })
                } else {
                    self.with_task(Task::Expand { index: (next + 1) as usize, base: path })
                }
            } else {
                self.with_task(Task::Expand { index: (next - 1) as usize, base: path })
            }
        } else if matches_text(self.patterns[index], name, self.options) {
            if index == n - 1 {
                self.with_task(Task::Emit { path })
            } else {
                self.with_task(Task::Expand { index: (index + 1) as usize, base: path })
            }
        } else {
            self
        }
    }

    /// Takes the answer to the question that was open. It is a result on
    /// its own where a path waited to be known as a directory, and is one.
    /// An answer that does not fit the question counts as a refusal.
    pub open spec fn deliver(self, reply: ReplyView) -> (Machine, Option<Step<Seq<char>>>) {
        let idle = Machine { pending: Pending::Idle, ..self };
        match self.pending {
            Pending::Idle => (idle, None),
            Pending::Candidate { path } => if reply == ReplyView::Flag(true) {
                (idle, Some(Step::Found(path)))
            } else {
                (idle, None)
            },
            Pending::Literal { index, path } => if reply == ReplyView::Flag(true) {
                (idle.accept(index as int, path), None)
            } else {
                (idle, None)
            },
            Pending::Listing { index, base } => match reply {
                ReplyView::Children(names) => (idle.list(index as int, base, names), None),
                _ => (idle, None),
            },
        }
    }

    /// Works until a path is found, a question has to be asked, or nothing
    /// is left. Work that was put off comes first; after it the paths on the
    /// work stack, last one first.
    pub open spec fn settle(self) -> (Machine, Step<Seq<char>>)
        decreases self.todo.len(), self.agenda.len(),
    {
        if self.agenda.len() > 0 {
            let rest = Machine { agenda: self.agenda.drop_last(), ..self };
            match self.agenda.last() {
                Task::Emit { path } => rest.offer(path),
                Task::Expand { index, base } => rest.expand(index as int, base),
            }
        } else if self.todo.len() == 0 {
            (self, Step::Done)
        } else {
            let entry = self.todo.last();
            let rest = Machine { todo: self.todo.drop_last(), ..self };
            match entry.stage {
                Stage::Verified => rest.offer(entry.path),
                Stage::Check(index) => rest.visit(entry.path, index as int).settle(),
            }
        }
    }

    /// One step of the traversal: the answer is taken, then the work goes
    /// on.
    pub open spec fn advance(self, reply: ReplyView) -> (Machine, Step<Seq<char>>) {
        let (next, step) = self.deliver(reply);
        match step {
            Some(step) => (next, step),
            None => next.settle(),
        }
    }
}

/// Whether the question `step` asks, if it asks one, is the one that the
/// state `next` waits on, and is asked for the right kind of component: a
/// directory is listed only for a component that is not made of literal
/// characters alone, and a component that is, is looked up by name.
pub open spec fn question_fits(next: Machine, step: Step<Seq<char>>) -> bool {
    match step {
        Step::Found(_) => next.pending is Idle,
        Step::Done => next.pending is Idle,
        Step::Ask(Query::ListChildren(base)) => {
            &&& next.pending matches Pending::Listing { index, base: listed }
            &&& listed == base
            &&& literal_text(next.patterns[index as int]) is None
        },
        Step::Ask(Query::Exists(path)) => {
            &&& next.pending matches Pending::Literal { index, path: wanted }
            &&& wanted == path
            &&& literal_text(next.patterns[index as int]) matches Some(name)
            &&& !is_special(name)
        },
        Step::Ask(Query::IsDirectory(path)) => {
            ||| next.pending == (Pending::Candidate { path })
            ||| {
                &&& next.pending matches Pending::Literal { index, path: wanted }
                &&& literal_text(next.patterns[index as int]) matches Some(name)
                &&& is_special(name)
                &&& wanted == join(path, name)
            }
        },
    }
}

/// Working on never changes the pattern, and asks only questions that fit.
pub proof fn lemma_settle_asks_what_fits(m: Machine)
    requires
        m.pending is Idle,
    ensures
        m.settle().0.patterns == m.patterns,
        question_fits(m.settle().0, m.settle().1),
    decreases m.todo.len(), m.agenda.len(),
{
    if m.agenda.len() == 0 && m.todo.len() > 0 {
        let entry = m.todo.last();
        let rest = Machine { todo: m.todo.drop_last(), ..m };
        match entry.stage {
            Stage::Verified => {},
            Stage::Check(index) => {
                lemma_settle_asks_what_fits(rest.visit(entry.path, index as int));
            },
        }
    }
}

/// Literal fast path: whatever the state and the reply, a step never
/// changes the pattern and asks only questions that fit. So a component
/// without metacharacters never has its directory listed: the traversal asks
/// for the one entry that it names.
pub proof fn lemma_advance_asks_what_fits(m: Machine, reply: ReplyView)
    ensures
        m.advance(reply).0.patterns == m.patterns,
        question_fits(m.advance(reply).0, m.advance(reply).1),
{
    let (next, step) = m.deliver(reply);
    if step is None {
        lemma_settle_asks_what_fits(next);
    }
}

/// The paths on a work stack.
pub open spec fn entries_of(todo: Seq<Entry<Vec<char>>>) -> Seq<Entry<Seq<char>>> {
    todo.map_values(|e: Entry<Vec<char>>| e@)
}

/// The tasks of an agenda.
pub open spec fn tasks_of(agenda: Seq<Task<Vec<char>>>) -> Seq<Task<Seq<char>>> {
    agenda.map_values(|t: Task<Vec<char>>| t@)
}

/// The tokens of each pattern.
pub open spec fn tokens_of_each(patterns: Seq<Pattern>) -> Seq<Seq<Token>> {
    patterns.map_values(|p: Pattern| p@.tokens)
}

/// A traversal: the paths that match a pattern, found one step at a time.
/// See [`glob`] for more details.
pub struct Paths {
    dir_patterns: Vec<Pattern>,
    require_dir: bool,
    options: MatchOptions,
    todo: Vec<Entry<Vec<char>>>,
    agenda: Vec<Task<Vec<char>>>,
    pending: Pending<Vec<char>>,
}

impl View for Paths {
    type V = Machine;

    closed spec fn view(&self) -> Machine {
        Machine {
            patterns: tokens_of_each(self.dir_patterns@),
            require_dir: self.require_dir,
            options: self.options,
            todo: entries_of(self.todo@),
            agenda: tasks_of(self.agenda@),
            pending: self.pending@,
        }
    }
}

impl Paths {
    /// The state is well formed, and so is every pattern in it.
    pub closed spec fn wf(&self) -> bool {
        &&& self@.wf()
        &&& forall|i: int|
            0 <= i < self.dir_patterns.len() ==> (#[trigger] self.dir_patterns@[i])@.wf()
    }

    /// Puts a path on the work stack.
    fn push_entry(&mut self, path: Vec<char>, stage: Stage)
        requires
            old(self).wf(),
            stage matches Stage::Check(k) ==> k < old(self)@.patterns.len(),
        ensures
            final(self).wf(),
            final(self)@ == old(self)@.with_entry(path@, stage),
    {
        let ghost todo = self.todo@;
        let entry = Entry { path, stage };
        self.todo.push(entry);
        assert(entries_of(todo.push(entry)) =~= entries_of(todo).push(entry@));
    }

    /// Puts off a task.
    fn push_task(&mut self, task: Task<Vec<char>>)
        requires
            old(self).wf(),
            task matches Task::Expand { index, .. } ==> index < old(self)@.patterns.len(),
        ensures
            final(self).wf(),
            final(self)@ == old(self)@.with_task(task@),
    {
        let ghost agenda = self.agenda@;
        self.agenda.push(task);
        assert(tasks_of(agenda.push(task)) =~= tasks_of(agenda).push(task@));
    }

    /// Computes [`Machine::offer`].
    fn offer(&mut self, path: Vec<char>) -> (step: Step<String>)
        requires
            old(self).wf(),
            old(self)@.pending is Idle,
        ensures
            final(self).wf(),
            final(self)@ == old(self)@.offer(path@).0,
            step@ == old(self)@.offer(path@).1,
    {
        if self.require_dir {
            let asked = to_text(&path);
            self.pending = Pending::Candidate { path };
            Step::Ask(Query::IsDirectory(asked))
        } else {
            Step::Found(to_text(&path))
        }
    }

    /// Computes [`Machine::expand`].
    fn expand(&mut self, index: usize, base: Vec<char>) -> (step: Step<String>)
        requires
            old(self).wf(),
            old(self)@.pending is Idle,
            index < old(self)@.patterns.len(),
        ensures
            final(self).wf(),
            final(self)@ == old(self)@.expand(index as int, base@).0,
            step@ == old(self)@.expand(index as int, base@).1,
    {
        match self.dir_patterns[index].pattern_as_str() {
            Some(name) => {
                // This component has no metacharacters, so the directory
                // need not be read: it is enough to ask for that one entry.
                let special = is_dot(&name) || is_dotdot(&name);
                let path = join_path(&base, &name);
                let query = if special {
                    Query::IsDirectory(to_text(&base))
                } else {
                    Query::Exists(to_text(&path))
                };
                self.pending = Pending::Literal { index, path };
                Step::Ask(query)
            },
            None => {
                let query = Query::ListChildren(to_text(&base));
                self.pending = Pending::Listing { index, base };
                Step::Ask(query)
            },
        }
    }

    /// Computes [`Machine::accept`].
    fn accept(&mut self, index: usize, path: Vec<char>)
        requires
            old(self).wf(),
            index < old(self)@.patterns.len(),
        ensures
            final(self).wf(),
            final(self)@ == old(self)@.accept(index as int, path@),
    {
        assert(self@.patterns.len() == self.dir_patterns.len());
        if index + 1 == self.dir_patterns.len() {
            // It is known to be good, so it is not matched against the
            // pattern again. In particular `.` and `..` could not be: they
            // never show up as the last component of a listed path.
            self.push_entry(path, Stage::Verified);
        } else {
            self.push_task(Task::Expand { index: index + 1, base: path });
        }
    }

    /// Computes [`Machine::list`].
    fn list(&mut self, index: usize, base: Vec<char>, names: &Vec<String>)
        requires
            old(self).wf(),
            index < old(self)@.patterns.len(),
        ensures
            final(self).wf(),
            final(self)@ == old(self)@.list(index as int, base@, texts_of(names@)),
    {
        let children = sort_descending(names);
        let ghost start = self@;
        assert(self@.patterns.len() == self.dir_patterns.len());
        let ghost sorted = sorted_descending(texts_of(names@));
        let ghost entries = sorted.map_values(
            |name: Seq<char>| Entry { path: join(base@, name), stage: Stage::Check(index) },
        );
        let mut i: usize = 0;
        assert(self@.todo =~= start.todo + entries.take(0));
        while i < children.len()
            invariant
                i <= children.len(),
                chars_of(children@) == sorted,
                self.wf(),
                index < start.patterns.len(),
                index < self.dir_patterns.len(),
                entries == sorted.map_values(
                    |name: Seq<char>| Entry { path: join(base@, name), stage: Stage::Check(index) },
                ),
                self@ == (Machine { todo: start.todo + entries.take(i as int), ..start }),
            decreases children.len() - i,
        {
            let path = join_path(&base, &children[i]);
            let ghost before = self@.todo;
            assert(sorted[i as int] == children@[i as int]@);
            self.push_entry(path, Stage::Check(index));
            assert(before.push(entries[i as int]) =~= start.todo + entries.take(i + 1));
            i += 1;
        }
        assert(entries.take(entries.len() as int) =~= entries);
        // `.` and `..` stand for the directory itself and the one above
        // it. They are matched only by a pattern with a leading dot, whether
        // or not the options ask for literal leading dots.
        if self.dir_patterns[index].has_leading_dot() {
            let mut dot: Vec<char> = Vec::new();
            dot.push('.');
            let mut dotdot: Vec<char> = Vec::new();
            dotdot.push('.');
            dotdot.push('.');
            assert(dot@ =~= seq!['.']);
            assert(dotdot@ =~= seq!['.', '.']);
            let takes_dot = self.dir_patterns[index].matches_chars(&dot, &self.options);
            let takes_dotdot = self.dir_patterns[index].matches_chars(&dotdot, &self.options);
            if index + 1 == self.dir_patterns.len() {
                if takes_dot {
                    self.accept(index, join_path(&base, &dot));
                }
                if takes_dotdot {
                    self.accept(index, join_path(&base, &dotdot));
                }
            } else {
                if takes_dotdot {
                    self.accept(index, join_path(&base, &dotdot));
                }
                if takes_dot {
                    self.accept(index, join_path(&base, &dot));
                }
            }
        }
    }

    /// Computes [`Machine::visit`].
    fn visit(&mut self, path: Vec<char>, index: usize)
        requires
            old(self).wf(),
            index < old(self)@.patterns.len(),
        ensures
            final(self).wf(),
            final(self)@ == old(self)@.visit(path@, index as int),
    {
        let n = self.dir_patterns.len();
        let name = file_name_of(&path);
        let ghost patterns = self@.patterns;
        if self.dir_patterns[index].is_recursive() {
            // the next component that is not recursive: a run of recursive
            // wildcards counts as one
            let mut next = index + 1;
            while next < n && self.dir_patterns[next].is_recursive()
                invariant
                    index < next <= n,
                    n == self.dir_patterns.len(),
                    self.wf(),
                    patterns == self@.patterns,
                    next_plain(patterns, index + 1) == next_plain(patterns, next as int),
                decreases n - next,
            {
                next += 1;
            }
            if next == n {
                // only recursive wildcards are left: everything below
                // matches
                let again = copy_range(&path, 0, path.len());
                assert(again@ =~= path@);
                self.push_task(Task::Emit { path });
                self.push_task(Task::Expand { index: n - 1, base: again });
            } else if self.dir_patterns[next].matches_chars(&name, &self.options) {
                if next == n - 1 {
                    self.push_task(Task::Emit { path });
                } else {
                    self.push_task(Task::Expand { index: next + 1, base: path });
                }
            } else {
                // not matched yet, so stay on the recursive wildcard
                self.push_task(Task::Expand { index: next - 1, base: path });
            }
        } else if self.dir_patterns[index].matches_chars(&name, &self.options) {
            if index == n - 1 {
                self.push_task(Task::Emit { path });
            } else {
                self.push_task(Task::Expand { index: index + 1, base: path });
            }
        }
    }

    /// Takes the answer to the last question and goes on until the next
    /// path is found, the next question has to be asked, or no path is left.
    ///
    /// The first call takes any reply, as does every call after a path was
    /// found: nothing was asked then. After [`Step::Ask`] the reply is the
    /// answer to that question; [`Reply::Nothing`] reports a directory that
    /// could not be read, and anything that is no answer to the question
    /// counts as one.
    pub fn advance(&mut self, reply: Reply) -> (step: Step<String>)
        requires
            old(self).wf(),
        ensures
            final(self).wf(),
            final(self)@ == old(self)@.advance(reply@).0,
            step@ == old(self)@.advance(reply@).1,
    {
        let mut pending = Pending::Idle;
        std::mem::swap(&mut self.pending, &mut pending);
        match pending {
            Pending::Idle => {},
            Pending::Candidate { path } => {
                if let Reply::Flag(true) = reply {
                    return Step::Found(to_text(&path));
                }
            },
            Pending::Literal { index, path } => {
                if let Reply::Flag(true) = reply {
                    self.accept(index, path);
                }
            },
            Pending::Listing { index, base } => {
                if let Reply::Children(names) = reply {
                    self.list(index, base, &names);
                }
            },
        }
        let ghost delivered = self@;
        let mut step = Step::Done;
        loop
            invariant_except_break
                self.wf(),
                self@.pending is Idle,
                self@.settle() == delivered.settle(),
            ensures
                self.wf(),
                self@ == delivered.settle().0,
                step@ == delivered.settle().1,
            decreases self.todo.len(), self.agenda.len(),
        {
            let ghost before = self@;
            match self.agenda.pop() {
                Some(Task::Emit { path }) => {
                    assert(before.agenda.last() == Task::Emit::<Seq<char>> { path: path@ });
                    assert(self@.agenda =~= before.agenda.drop_last());
                    step = self.offer(path);
                    break ;
                },
                Some(Task::Expand { index, base }) => {
                    assert(before.agenda.last() == Task::Expand::<Seq<char>> { index, base: base@ });
                    assert(self@.agenda =~= before.agenda.drop_last());
                    step = self.expand(index, base);
                    break ;
                },
                None => {},
            }
            match self.todo.pop() {
                None => {
                    step = Step::Done;
                    break ;
                },
                Some(entry) => {
                    assert(before.todo.last() == entry@);
                    assert(self@.todo =~= before.todo.drop_last());
                    match entry.stage {
                        Stage::Verified => {
                            step = self.offer(entry.path);
                            break ;
                        },
                        Stage::Check(index) => {
                            self.visit(entry.path, index);
                        },
                    }
                },
            }
        }
        step
    }
}

/// How many characters the root at the start of a pattern takes: one where
/// the pattern starts with a separator, none otherwise.
pub open spec fn root_len(p: Seq<char>) -> int {
    if p.len() > 0 && is_separator(p[0]) {
        1
    } else {
        0
    }
}

/// The directory that a traversal starts from: the root for a pattern that
/// starts with a separator, the current directory for any other.
pub open spec fn scope(p: Seq<char>) -> Seq<char> {
    if root_len(p) == 1 {
        seq!['/']
    } else {
        current_dir()
    }
}

/// The tokens of each component of `p` from offset `from` on, or the first
/// error in one of them, at its offset in `p`.
pub open spec fn compile_components(p: Seq<char>, from: int) -> Result<
    Seq<Seq<Token>>,
    SyntaxError,
>
    decreases p.len() + 1 - from,
{
    if from < 0 || from >= p.len() {
        Ok(Seq::empty())
    } else {
        let end = first_separator(p, from);
        proof {
            lemma_first_separator_bounds(p, from);
        }
        match compile(p.subrange(from, end)) {
            Err(e) => Err(SyntaxError { position: from + e.position, kind: e.kind }),
            Ok(tokens) => match compile_components(p, end + 1) {
                Err(e) => Err(e),
                Ok(rest) => Ok(seq![tokens] + rest),
            },
        }
    }
}

/// The state in which the traversal for the pattern `p` starts, or why there
/// is none: the error in the pattern as a whole or, where it has none, the
/// first error in one of its components.
///
/// Separators are always matched literally, whatever the options say. A
/// pattern that ends with a separator asks for directories only.
pub open spec fn traversal(p: Seq<char>, options: MatchOptions) -> Result<Machine, SyntaxError> {
    match compile(p) {
        Err(e) => Err(e),
        Ok(_) => match compile_components(p, root_len(p)) {
            Err(e) => Err(e),
            Ok(patterns) => Ok(
                Machine::start(
                    patterns,
                    p.len() > 0 && is_separator(p.last()),
                    MatchOptions { require_literal_separator: true, ..options },
                    scope(p),
                ),
            ),
        },
    }
}

/// `done` followed by what `rest` holds, or the error in `rest`.
pub open spec fn prepend_components(
    done: Seq<Seq<Token>>,
    rest: Result<Seq<Seq<Token>>, SyntaxError>,
) -> Result<Seq<Seq<Token>>, SyntaxError> {
    match rest {
        Ok(more) => Ok(done + more),
        Err(e) => Err(e),
    }
}

/// Return a traversal that produces all the paths that match the given
/// pattern, which may be absolute or relative to the current working
/// directory.
///
/// This may return an error if the pattern is invalid.
///
/// This function uses the default match options and is equivalent to calling
/// `glob_with(pattern, &MatchOptions::new())`. Use `glob_with` directly if
/// you want to use non-default match options.
pub fn glob(pattern: &str) -> (result: Result<Paths, Error>)
    ensures
        match result {
            Ok(paths) => paths.wf() && traversal(pattern@, MatchOptions::standard()) == Ok::<
                Machine,
                SyntaxError,
            >(paths@),
            Err(e) => traversal(pattern@, MatchOptions::standard()) matches Err(se) && e.reports(
                se,
            ),
        },
{
    glob_with(pattern, &MatchOptions::new())
}

/// Return a traversal that produces all the paths that match the given
/// pattern, which may be absolute or relative to the current working
/// directory.
///
/// This may return an error if the pattern is invalid.
///
/// This function accepts Unix shell style patterns as described by
/// `Pattern::new(..)`. The options given are passed through unchanged to
/// `Pattern::matches_with(..)` with the exception that
/// `require_literal_separator` is always set to `true` regardless of the
/// value passed to this function.
///
/// Paths are yielded in alphabetical order.
pub fn glob_with(pattern: &str, options: &MatchOptions) -> (result: Result<Paths, Error>)
    ensures
        match result {
            Ok(paths) => paths.wf() && traversal(pattern@, *options) == Ok::<Machine, SyntaxError>(
                paths@,
            ),
            Err(e) => traversal(pattern@, *options) matches Err(se) && e.reports(se),
        },
{
    let chars = to_chars(pattern);
    // make sure that the pattern is valid first, else early return with error
    match Pattern::compile_chars(&chars) {
        Err(e) => {
            return Err(e);
        },
        Ok(_) => {},
    }
    let n = chars.len();
    let rooted = n > 0 && is_sep(chars[0]);
    let start: usize = if rooted {
        1
    } else {
        0
    };
    let mut from = start;
    let mut dir_patterns: Vec<Pattern> = Vec::new();
    assert(tokens_of_each(dir_patterns@) =~= Seq::<Seq<Token>>::empty());
    assert(Seq::<Seq<Token>>::empty() + compile_components(chars@, start as int)->Ok_0
        =~= compile_components(chars@, start as int)->Ok_0);
    while from < n
        invariant
            from <= n,
            n == chars.len(),
            chars@ == pattern@,
            compile(chars@) is Ok,
            start == root_len(chars@),
            forall|i: int| 0 <= i < dir_patterns.len() ==> (#[trigger] dir_patterns@[i])@.wf(),
            compile_components(chars@, start as int) == prepend_components(
                tokens_of_each(dir_patterns@),
                compile_components(chars@, from as int),
            ),
        decreases n - from,
    {
        let mut end = from;
        while end < n && !is_sep(chars[end])
            invariant
                from <= end <= n,
                n == chars.len(),
                first_separator(chars@, from as int) == first_separator(chars@, end as int),
            decreases n - end,
        {
            end += 1;
        }
        let piece = copy_range(&chars, from, end);
        let ghost done = tokens_of_each(dir_patterns@);
        let ghost stored = dir_patterns@;
        match Pattern::compile_chars(&piece) {
            Err(e) => {
                proof {
                    lemma_error_position_bounds(piece@, 0, false);
                }
                return Err(Error { pos: from + e.pos, msg: e.msg });
            },
            Ok(compiled) => {
                proof {
                    let rest = compile_components(chars@, end + 1);
                    if rest is Ok {
                        assert(done + (seq![compiled@.tokens] + rest->Ok_0) =~= done.push(
                            compiled@.tokens,
                        ) + rest->Ok_0);
                    }
                    assert(tokens_of_each(stored.push(compiled)) =~= done.push(compiled@.tokens));
                }
                dir_patterns.push(compiled);
            },
        }
        from = if end == n {
            n
        } else {
            end + 1
        };
    }
    proof {
        let done = tokens_of_each(dir_patterns@);
        assert(done + Seq::<Seq<Token>>::empty() =~= done);
    }
    let require_dir = n > 0 && is_sep(chars[n - 1]);
    let mut scope_dir: Vec<char> = Vec::new();
    scope_dir.push(if rooted {
        '/'
    } else {
        '.'
    });
    assert(scope_dir@ =~= scope(chars@));
    let mut agenda: Vec<Task<Vec<char>>> = Vec::new();
    if dir_patterns.len() > 0 {
        agenda.push(Task::Expand { index: 0, base: scope_dir });
    }
    let todo: Vec<Entry<Vec<char>>> = Vec::new();
    let paths = Paths {
        dir_patterns,
        require_dir,
        options: MatchOptions {
            case_sensitive: options.case_sensitive,
            require_literal_separator: true,
            require_literal_leading_dot: options.require_literal_leading_dot,
        },
        todo,
        agenda,
        pending: Pending::Idle,
    };
    proof {
        let m = traversal(pattern@, *options)->Ok_0;
        assert(paths@.todo =~= m.todo);
        assert(paths@.agenda =~= m.agenda);
    }
    Ok(paths)
}

/// Whether the characters are `.`.
fn is_dot(name: &Vec<char>) -> (r: bool)
    ensures
        r == (name@ == seq!['.']),
{
    let r = name.len() == 1 && name[0] == '.';
    if r {
        assert(name@ =~= seq!['.']);
    }
    r
}

/// Whether the characters are `..`.
fn is_dotdot(name: &Vec<char>) -> (r: bool)
    ensures
        r == (name@ == seq!['.', '.']),
{
    let r = name.len() == 2 && name[0] == '.' && name[1] == '.';
    if r {
        assert(name@ =~= seq!['.', '.']);
    }
    r
}

} // verus!
