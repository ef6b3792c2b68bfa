//! An editable `git rebase -i` instruction list.
//!
//! The list isn't composed here. It comes from git, in one of two ways:
//!
//! - captured: a rebase is about to be started, so git is asked for the todo it
//!   would have opened in an editor and, once edited, the rebase is run for real
//!   with the result. Both halves use `GIT_SEQUENCE_EDITOR`: capturing copies the
//!   todo out and fails, which makes git abort without touching anything;
//!   applying copies the edited list in.
//! - editing: git started the rebase and runs this *as* its sequence editor,
//!   handing over the file to edit in place.

use crate::text;
use vstd::prelude::*;

verus! {

/// Sequence editors, parameterised by environment (rather than by quoting a
/// path into the command string, which git runs through a shell). `$1` is the
/// todo path git appends.
pub const CAPTURE_EDITOR: &'static str =
    "sh -c 'cat -- \"$1\" > \"$GITU_REBASE_TODO\"; exit 1' --";

pub const APPLY_EDITOR: &'static str = "sh -c 'cat -- \"$GITU_REBASE_TODO\" > \"$1\"' --";

pub const TODO_VAR: &'static str = "GITU_REBASE_TODO";

pub const EDITOR_VAR: &'static str = "GIT_SEQUENCE_EDITOR";

pub const TODO_FILE: &'static str = "gitu-rebase-todo";

#[derive(Debug, Clone, Copy, PartialEq, Eq, Structural)]
pub enum TodoAction {
    Pick,
    Reword,
    Edit,
    Squash,
    Fixup,
    Drop,
}

/// The word an instruction starts with.
pub open spec fn keyword_of(action: TodoAction) -> Seq<char> {
    match action {
        TodoAction::Pick => "pick"@,
        TodoAction::Reword => "reword"@,
        TodoAction::Edit => "edit"@,
        TodoAction::Squash => "squash"@,
        TodoAction::Fixup => "fixup"@,
        TodoAction::Drop => "drop"@,
    }
}

/// The action a word stands for, in full or by its first letter.
pub open spec fn action_of(word: Seq<char>) -> Option<TodoAction> {
    if word == "p"@ || word == "pick"@ {
        Some(TodoAction::Pick)
    } else if word == "r"@ || word == "reword"@ {
        Some(TodoAction::Reword)
    } else if word == "e"@ || word == "edit"@ {
        Some(TodoAction::Edit)
    } else if word == "s"@ || word == "squash"@ {
        Some(TodoAction::Squash)
    } else if word == "f"@ || word == "fixup"@ {
        Some(TodoAction::Fixup)
    } else if word == "d"@ || word == "drop"@ {
        Some(TodoAction::Drop)
    } else {
        None
    }
}

impl TodoAction {
    pub fn keyword(&self) -> (word: &'static str)
        ensures
            word@ == keyword_of(*self),
    {
        match self {
            TodoAction::Pick => "pick",
            TodoAction::Reword => "reword",
            TodoAction::Edit => "edit",
            TodoAction::Squash => "squash",
            TodoAction::Fixup => "fixup",
            TodoAction::Drop => "drop",
        }
    }

    pub fn parse(word: &str) -> (action: Option<TodoAction>)
        ensures
            action == action_of(word@),
    {
        if text::same_text(word, "p") || text::same_text(word, "pick") {
            Some(TodoAction::Pick)
        } else if text::same_text(word, "r") || text::same_text(word, "reword") {
            Some(TodoAction::Reword)
        } else if text::same_text(word, "e") || text::same_text(word, "edit") {
            Some(TodoAction::Edit)
        } else if text::same_text(word, "s") || text::same_text(word, "squash") {
            Some(TodoAction::Squash)
        } else if text::same_text(word, "f") || text::same_text(word, "fixup") {
            Some(TodoAction::Fixup)
        } else if text::same_text(word, "d") || text::same_text(word, "drop") {
            Some(TodoAction::Drop)
        } else {
            None
        }
    }
}

/// A keyword reads back as the action it is of.
pub proof fn keyword_reads_back(action: TodoAction)
    ensures
        action_of(keyword_of(action)) == Some(action),
{
    reveal_strlit("p");
    reveal_strlit("r");
    reveal_strlit("e");
    reveal_strlit("s");
    reveal_strlit("f");
    reveal_strlit("d");
    reveal_strlit("pick");
    reveal_strlit("reword");
    reveal_strlit("edit");
    reveal_strlit("squash");
    reveal_strlit("fixup");
    reveal_strlit("drop");
    let word = keyword_of(action);
    assert("pick"@[0] == 'p' && "reword"@[0] == 'r' && "edit"@[0] == 'e' && "squash"@[0] == 's'
        && "fixup"@[0] == 'f' && "drop"@[0] == 'd');
}

#[derive(Debug, PartialEq, Eq)]
pub enum TodoEntry {
    /// An entry acting on a commit, whose oid is resolved in full so the log
    /// renderer's rows can be matched to it.
    Commit { action: TodoAction, oid: String },
    /// Anything else git put in the list (`exec`, `break`, `label`, …), kept
    /// verbatim: it can be reordered or dropped but not re-marked.
    Other(String),
}

/// An entry of the list.
#[verifier::ext_equal]
pub enum Entry {
    Commit { action: TodoAction, oid: Seq<char> },
    Other(Seq<char>),
}

impl View for TodoEntry {
    type V = Entry;

    open spec fn view(&self) -> Entry {
        match *self {
            TodoEntry::Commit { action, oid } => Entry::Commit { action, oid: oid@ },
            TodoEntry::Other(line) => Entry::Other(line@),
        }
    }
}

/// What some entries are.
pub open spec fn entry_views(entries: Seq<TodoEntry>) -> Seq<Entry> {
    entries.map_values(|entry: TodoEntry| entry@)
}

/// Where the list came from, and so what starting it does.
#[derive(Debug)]
pub enum Source {
    /// The list was captured, and the rebase is yet to be run.
    Captured {
        /// The rev being rebased onto, as given to `git rebase -i`.
        base: String,
        /// The rebase menu's arguments, replayed when the list is applied.
        args: Vec<String>,
        todo_file: String,
        workdir: String,
    },
    /// git is mid-rebase and gave its file to edit in place.
    Editing(String),
}

#[derive(Debug)]
pub struct RebaseTodo {
    /// Newest first, as the log view lists commits. git's instruction list runs
    /// the other way, so it is reversed on the way in and out.
    pub entries: Vec<TodoEntry>,
    pub source: Source,
}

// ---------------------------------------------------------------------------
// Reading
// ---------------------------------------------------------------------------

/// An instruction as it stands in git's list: the line, what it says to do, and
/// the rev it says to do it to.
#[derive(Debug)]
pub struct Instruction {
    pub line: String,
    pub action: Option<TodoAction>,
    pub rev: Option<String>,
}

/// Whether a line of git's list is an instruction.
pub open spec fn is_instruction(line: Seq<char>) -> bool {
    text::trimmed(line).len() > 0 && text::trimmed(line)[0] != '#'
}

/// Whether an instruction is what a line says.
pub open spec fn says(instruction: Instruction, line: Seq<char>) -> bool {
    let trimmed = text::trimmed(line);
    &&& instruction.line@ == trimmed
    &&& instruction.action == (match text::first_word(trimmed) {
        Some(word) => action_of(word),
        None => None,
    })
    &&& match instruction.rev {
        Some(rev) => text::first_word(text::after_first_word(trimmed)) == Some(rev@),
        None => text::first_word(text::after_first_word(trimmed)) is None,
    }
}

/// The lines of git's list that are instructions.
pub open spec fn instruction_lines(lines: Seq<Seq<char>>) -> Seq<Seq<char>>
    decreases lines.len(),
{
    if lines.len() == 0 {
        seq![]
    } else if is_instruction(lines.last()) {
        instruction_lines(lines.drop_last()).push(lines.last())
    } else {
        instruction_lines(lines.drop_last())
    }
}

/// Read git's instruction list. Comments and empty lines are dropped.
pub fn parse(list: &str) -> (instructions: Vec<Instruction>)
    ensures
        instructions@.len() == instruction_lines(text::lines(list@)).len(),
        forall|i: int|
            0 <= i < instructions@.len() ==> says(
                #[trigger] instructions@[i],
                instruction_lines(text::lines(list@))[i],
            ),
{
    let lines = text::split_lines(list);
    let ghost all = text::lines(list@);
    let mut instructions: Vec<Instruction> = Vec::new();
    let mut i: usize = 0;
    proof {
        assert(all.take(0) =~= Seq::<Seq<char>>::empty());
        assert(lines@.len() == text::views(lines@).len());
    }
    while i < lines.len()
        invariant
            i <= lines@.len(),
            all == text::lines(list@),
            text::views(lines@) == all,
            lines@.len() == all.len(),
            instructions@.len() == instruction_lines(all.take(i as int)).len(),
            forall|k: int|
                0 <= k < instructions@.len() ==> says(
                    #[trigger] instructions@[k],
                    instruction_lines(all.take(i as int))[k],
                ),
        decreases lines@.len() - i,
    {
        proof {
            assert(all[i as int] == lines@[i as int]@);
            assert(all.take(i + 1).drop_last() =~= all.take(i as int));
            assert(all.take(i + 1).last() == all[i as int]);
        }
        let line = text::trim(lines[i]);
        if !text::is_empty(line.as_str()) && line.as_str().get_char(0) != '#' {
            let (word, rev) = text::two_words(line.as_str());
            let action = match &word {
                Some(word) => TodoAction::parse(word.as_str()),
                None => None,
            };
            instructions.push(Instruction { line, action, rev });
        }
        i += 1;
    }
    proof {
        assert(all.take(i as int) =~= all);
    }
    instructions
}

/// What an instruction is, given what its rev resolves to.
pub open spec fn entry_of(instruction: Instruction, oid: Option<String>) -> Entry {
    match (instruction.action, oid) {
        (Some(action), Some(oid)) => Entry::Commit { action, oid: oid@ },
        _ => Entry::Other(instruction.line@),
    }
}

/// Put git's instructions into display order, given the full oid each one's
/// abbreviated rev resolves to, so that they can be matched against rendered log
/// rows and written back unambiguously.
pub fn read_entries(instructions: &Vec<Instruction>, oids: &Vec<Option<String>>) -> (entries: Vec<
    TodoEntry,
>)
    requires
        instructions@.len() == oids@.len(),
    ensures
        entry_views(entries@) == Seq::new(
            instructions@.len(),
            |i: int|
                entry_of(
                    instructions@[instructions@.len() - 1 - i],
                    oids@[instructions@.len() - 1 - i],
                ),
        ),
{
    let mut entries: Vec<TodoEntry> = Vec::new();
    let n = instructions.len();
    let mut i: usize = 0;
    while i < n
        invariant
            i <= n,
            n == instructions@.len(),
            n == oids@.len(),
            entries@.len() == i,
            forall|k: int|
                0 <= k < i ==> (#[trigger] entries@[k])@ == entry_of(
                    instructions@[n - 1 - k],
                    oids@[n - 1 - k],
                ),
        decreases n - i,
    {
        let instruction = &instructions[n - 1 - i];
        let entry = match (instruction.action, &oids[n - 1 - i]) {
            (Some(action), Some(oid)) => TodoEntry::Commit { action, oid: oid.clone() },
            _ => TodoEntry::Other(instruction.line.clone()),
        };
        entries.push(entry);
        i += 1;
    }
    proof {
        assert(entry_views(entries@) =~= Seq::new(
            instructions@.len(),
            |i: int|
                entry_of(
                    instructions@[instructions@.len() - 1 - i],
                    oids@[instructions@.len() - 1 - i],
                ),
        ));
    }
    entries
}

// ---------------------------------------------------------------------------
// Writing
// ---------------------------------------------------------------------------

/// An entry as git's list has it.
pub open spec fn entry_line(entry: Entry) -> Seq<char> {
    match entry {
        Entry::Commit { action, oid } => (keyword_of(action).push(' ') + oid).push('\n'),
        Entry::Other(line) => line.push('\n'),
    }
}

/// git's list for some entries: the last of them first.
pub open spec fn list_text(entries: Seq<Entry>) -> Seq<char>
    decreases entries.len(),
{
    if entries.len() == 0 {
        seq![]
    } else {
        entry_line(entries.last()) + list_text(entries.drop_last())
    }
}

fn push_line(out: &mut String, entry: &TodoEntry)
    ensures
        final(out)@ == old(out)@ + entry_line(entry@),
{
    match entry {
        TodoEntry::Commit { action, oid } => {
            out.push_str(action.keyword());
            out.push(' ');
            out.push_str(oid.as_str());
        },
        TodoEntry::Other(line) => {
            out.push_str(line.as_str());
        },
    }
    out.push('\n');
    proof {
        assert(out@ =~= old(out)@ + entry_line(entry@));
    }
}

/// Some oids of a list, in the order held.
pub open spec fn oids_of(entries: Seq<Entry>) -> Seq<Seq<char>>
    decreases entries.len(),
{
    if entries.len() == 0 {
        seq![]
    } else {
        let front = oids_of(entries.drop_last());
        match entries.last() {
            Entry::Commit { oid, .. } => front.push(oid),
            Entry::Other(_) => front,
        }
    }
}

/// A git command to run: its arguments, the variables set for it, and where.
#[derive(Debug)]
pub struct GitInvocation {
    pub args: Vec<String>,
    pub env: Vec<(String, String)>,
    pub dir: String,
}

/// What starting a rebase takes: the file the list is written to, its text, and
/// the command to run then, if it isn't git that is waiting for the file.
#[derive(Debug)]
pub struct Start {
    pub path: String,
    pub text: String,
    pub command: Option<GitInvocation>,
}

/// What some variables are.
pub open spec fn env_views(env: Seq<(String, String)>) -> Seq<(Seq<char>, Seq<char>)> {
    env.map_values(|var: (String, String)| (var.0@, var.1@))
}

/// The arguments of an interactive rebase.
pub open spec fn rebase_args(args: Seq<Seq<char>>, base: Seq<char>) -> Seq<Seq<char>> {
    seq!["rebase"@, "-i"@] + args.push(base)
}

/// The command for an interactive rebase with a sequence editor of our own.
pub fn rebase_command(
    base: &str,
    args: &Vec<String>,
    editor: &str,
    todo_file: &str,
    workdir: &str,
) -> (command: GitInvocation)
    ensures
        text::string_views(command.args@) == rebase_args(text::string_views(args@), base@),
        env_views(command.env@) == seq![(EDITOR_VAR@, editor@), (TODO_VAR@, todo_file@)],
        command.dir@ == workdir@,
{
    let mut all: Vec<String> = Vec::new();
    all.push("rebase".to_owned());
    all.push("-i".to_owned());
    let mut i: usize = 0;
    proof {
        assert(text::string_views(all@) =~= seq!["rebase"@, "-i"@]);
        assert(text::string_views(args@).take(0) =~= Seq::<Seq<char>>::empty());
    }
    while i < args.len()
        invariant
            i <= args@.len(),
            text::string_views(all@) =~= seq!["rebase"@, "-i"@] + text::string_views(args@).take(i as int),
        decreases args@.len() - i,
    {
        let ghost before = all@;
        all.push(args[i].clone());
        proof {
            assert(text::string_views(all@) =~= text::string_views(before).push(args@[i as int]@));
            assert(text::string_views(args@).take(i + 1) =~= text::string_views(args@).take(i as int).push(
                args@[i as int]@,
            ));
        }
        i += 1;
    }
    let ghost before = all@;
    all.push(base.to_owned());
    let mut env: Vec<(String, String)> = Vec::new();
    env.push((EDITOR_VAR.to_owned(), editor.to_owned()));
    env.push((TODO_VAR.to_owned(), todo_file.to_owned()));
    proof {
        assert(text::string_views(all@) =~= text::string_views(before).push(base@));
        assert(text::string_views(args@).take(i as int) =~= text::string_views(args@));
        assert(text::string_views(all@) =~= rebase_args(text::string_views(args@), base@));
        assert(env_views(env@) =~= seq![(EDITOR_VAR@, editor@), (TODO_VAR@, todo_file@)]);
    }
    GitInvocation { args: all, env, dir: workdir.to_owned() }
}

/// Entries with the one at `from` moved to `to`.
pub open spec fn moved<A>(entries: Seq<A>, from: int, to: int) -> Seq<A> {
    entries.remove(from).insert(to, entries[from])
}

/// Entries with the one at `index` marked, if it acts on a commit.
pub open spec fn marked(entries: Seq<Entry>, index: int, action: TodoAction) -> Seq<Entry> {
    if 0 <= index < entries.len() {
        match entries[index] {
            Entry::Commit { oid, .. } => entries.update(index, Entry::Commit { action, oid }),
            Entry::Other(_) => entries,
        }
    } else {
        entries
    }
}

/// Where moving an entry would take it.
pub open spec fn destination(index: int, offset: int) -> int {
    if index + offset < 0 {
        0
    } else {
        index + offset
    }
}

fn add_signed(index: usize, offset: isize) -> (to: usize)
    ensures
        to == (if destination(index as int, offset as int) > usize::MAX {
            usize::MAX as int
        } else {
            destination(index as int, offset as int)
        }),
{
    if offset >= 0 {
        index.saturating_add(offset as usize)
    } else {
        let back: usize = (-((offset + 1) as i128)) as usize;
        index.saturating_sub(back).saturating_sub(1)
    }
}

impl RebaseTodo {
    /// The revs naming this list's commits, for rendering them: exactly the
    /// entries', in the order held, whatever the rebase is doing to them.
    pub fn revs(&self) -> (revs: Vec<String>)
        ensures
            text::string_views(revs@) == (if oids_of(entry_views(self.entries@)).len() == 0 {
                seq![]
            } else {
                seq!["--no-walk=unsorted"@] + oids_of(entry_views(self.entries@))
            }),
    {
        let ghost all = entry_views(self.entries@);
        let mut oids: Vec<String> = Vec::new();
        let mut i: usize = 0;
        proof {
            assert(all.take(0) =~= Seq::<Entry>::empty());
            assert(text::string_views(oids@) =~= Seq::<Seq<char>>::empty());
        }
        while i < self.entries.len()
            invariant
                i <= self.entries@.len(),
                all == entry_views(self.entries@),
                text::string_views(oids@) == oids_of(all.take(i as int)),
            decreases self.entries@.len() - i,
        {
            let ghost before = oids@;
            proof {
                assert(all.take(i + 1).drop_last() =~= all.take(i as int));
                assert(all.take(i + 1).last() == self.entries@[i as int]@);
            }
            if let TodoEntry::Commit { oid, .. } = &self.entries[i] {
                oids.push(oid.clone());
                proof {
                    assert(text::string_views(oids@) =~= text::string_views(before).push(oid@));
                }
            }
            i += 1;
        }
        proof {
            assert(all.take(i as int) =~= all);
            assert(text::string_views(oids@).len() == oids@.len());
        }
        if oids.len() > 0 {
            let ghost before = oids@;
            oids.insert(0, "--no-walk=unsorted".to_owned());
            proof {
                assert(text::string_views(oids@) =~= seq!["--no-walk=unsorted"@] + text::string_views(before));
            }
        }
        oids
    }

    /// The list as git reads it: one instruction per entry, oldest first.
    pub fn text(&self) -> (text: String)
        ensures
            text@ == list_text(entry_views(self.entries@)),
    {
        let ghost all = entry_views(self.entries@);
        let mut out = String::new();
        let mut i: usize = self.entries.len();
        proof {
            assert(all.take(i as int) =~= all);
            assert(out@ + list_text(all) =~= list_text(all));
        }
        while i > 0
            invariant
                i <= self.entries@.len(),
                all == entry_views(self.entries@),
                out@ + list_text(all.take(i as int)) == list_text(all),
            decreases i,
        {
            let ghost before = out@;
            proof {
                assert(all.take(i as int).drop_last() =~= all.take(i - 1));
                assert(all.take(i as int).last() == self.entries@[i - 1]@);
            }
            push_line(&mut out, &self.entries[i - 1]);
            i -= 1;
            proof {
                assert(out@ + list_text(all.take(i as int)) =~= before + list_text(
                    all.take(i + 1),
                ));
            }
        }
        proof {
            assert(out@ + list_text(all.take(0)) =~= out@);
        }
        out
    }

    /// Hand the edited list back to git. One that was captured is run with a
    /// command; when editing git's own file there is nothing to run, as writing it
    /// is the whole job.
    pub fn start(&self) -> (start: Start)
        ensures
            start.text@ == list_text(entry_views(self.entries@)),
            match self.source {
                Source::Captured { base, args, todo_file, workdir } => {
                    &&& start.path@ == todo_file@
                    &&& start.command matches Some(command)
                    &&& text::string_views(command.args@) == rebase_args(text::string_views(args@), base@)
                    &&& env_views(command.env@) == seq![
                        (EDITOR_VAR@, APPLY_EDITOR@),
                        (TODO_VAR@, todo_file@),
                    ]
                    &&& command.dir@ == workdir@
                },
                Source::Editing(path) => start.path@ == path@ && start.command is None,
            },
    {
        let text = self.text();
        match &self.source {
            Source::Captured { base, args, todo_file, workdir } => Start {
                path: todo_file.clone(),
                text,
                command: Some(
                    rebase_command(
                        base.as_str(),
                        args,
                        APPLY_EDITOR,
                        todo_file.as_str(),
                        workdir.as_str(),
                    ),
                ),
            },
            Source::Editing(path) => Start { path: path.clone(), text, command: None },
        }
    }

    /// Move the entry at `index` by `offset` places, returning where it landed.
    pub fn move_entry(&mut self, index: usize, offset: isize) -> (landed: usize)
        ensures
            final(self).source == old(self).source,
            ({
                let n = old(self).entries@.len();
                let to = destination(index as int, offset as int);
                if index < n && to < n {
                    landed == to && final(self).entries@ == moved(
                        old(self).entries@,
                        index as int,
                        to,
                    )
                } else {
                    landed == index && final(self).entries@ == old(self).entries@
                }
            }),
    {
        let to = add_signed(index, offset);
        let count = self.entries.len();
        if index >= count || to >= count {
            return index;
        }
        let entry = self.entries.remove(index);
        self.entries.insert(to, entry);
        to
    }

    /// Mark an entry. Only those acting on a commit can be.
    pub fn set_action(&mut self, index: usize, action: TodoAction)
        ensures
            final(self).source == old(self).source,
            entry_views(final(self).entries@) == marked(
                entry_views(old(self).entries@),
                index as int,
                action,
            ),
    {
        let ghost all = entry_views(self.entries@);
        if index < self.entries.len() {
            let marked = match &self.entries[index] {
                TodoEntry::Commit { oid, .. } => Some(oid.clone()),
                TodoEntry::Other(_) => None,
            };
            if let Some(oid) = marked {
                let entry = TodoEntry::Commit { action, oid };
                let ghost new = entry@;
                self.entries.set(index, entry);
                proof {
                    assert(entry_views(self.entries@) =~= all.update(index as int, new));
                }
            }
        }
    }
}

/// Moving an entry back undoes moving it.
pub proof fn moving_back_undoes<A>(entries: Seq<A>, from: int, to: int)
    requires
        0 <= from < entries.len(),
        0 <= to < entries.len(),
    ensures
        moved(moved(entries, from, to), to, from) == entries,
{
    let there = moved(entries, from, to);
    assert(there.len() == entries.len());
    assert(there[to] == entries[from]);
    assert(there.remove(to) =~= entries.remove(from));
    assert(moved(there, to, from) =~= entries);
}

/// Moving an entry loses none and adds none.
pub proof fn moving_keeps_entries<A>(entries: Seq<A>, from: int, to: int)
    requires
        0 <= from < entries.len(),
        0 <= to < entries.len(),
    ensures
        moved(entries, from, to).to_multiset() == entries.to_multiset(),
{
    let rest = entries.remove(from);
    vstd::seq_lib::to_multiset_remove(entries, from);
    vstd::seq_lib::to_multiset_insert(rest, to, entries[from]);
    assert(entries.to_multiset().contains(entries[from])) by {
        entries.to_multiset_ensures();
        assert(entries.contains(entries[from]));
    }
    assert(moved(entries, from, to).to_multiset() =~= entries.to_multiset());
}

// ---------------------------------------------------------------------------
// Reading what was written
// ---------------------------------------------------------------------------

/// Whether there is no white space in a text.
pub open spec fn solid(s: Seq<char>) -> bool {
    forall|i: int| 0 <= i < s.len() ==> !text::white(#[trigger] s[i])
}

/// Whether an entry can be told from its line: a commit has an id without white
/// space in it, and anything else is one line, as an instruction is read.
pub open spec fn tellable(entry: Entry) -> bool {
    match entry {
        Entry::Commit { oid, .. } => oid.len() > 0 && solid(oid),
        Entry::Other(line) => {
            &&& text::trimmed(line) == line
            &&& line.len() > 0
            &&& line[0] != '#'
            &&& !line.contains('\n')
        },
    }
}

proof fn lemma_keyword_solid(action: TodoAction)
    ensures
        keyword_of(action).len() > 0,
        solid(keyword_of(action)),
        keyword_of(action)[0] != '#',
{
    reveal_strlit("pick");
    reveal_strlit("reword");
    reveal_strlit("edit");
    reveal_strlit("squash");
    reveal_strlit("fixup");
    reveal_strlit("drop");
}

/// What an entry is, without the newline that ends its line.
spec fn entry_text(entry: Entry) -> Seq<char> {
    entry_line(entry).drop_last()
}

proof fn lemma_entry_line(entry: Entry)
    requires
        tellable(entry),
    ensures
        text::trimmed(entry_line(entry)) == entry_text(entry),
        entry_text(entry).len() > 0,
        entry_text(entry)[0] != '#',
        forall|k: int| 0 <= k < entry_text(entry).len() ==> entry_text(entry)[k] != '\n',
{
    let line = entry_line(entry);
    let body = entry_text(entry);
    match entry {
        Entry::Commit { action, oid } => {
            lemma_keyword_solid(action);
            let word = keyword_of(action);
            assert(body =~= word.push(' ') + oid);
            assert(body[0] == word[0]);
            assert(body.last() == oid.last());
            assert(!text::white(oid[oid.len() - 1]));
            assert forall|k: int| 0 <= k < body.len() implies body[k] != '\n' by {
                if k < word.len() {
                    assert(body[k] == word[k]);
                } else if k > word.len() {
                    assert(body[k] == oid[k - word.len() - 1]);
                }
            }
        },
        Entry::Other(other) => {
            assert(body =~= other);
            lemma_trimmed_ends(other);
            assert forall|k: int| 0 <= k < body.len() implies body[k] != '\n' by {
                assert(other[k] == body[k]);
            }
        },
    }
    text::lemma_white_run_is(line, 0);
    assert(text::trimmed_start(line) =~= line);
    assert(line.last() == '\n');
    assert(text::trimmed_end(line) == text::trimmed_end(body));
    assert(text::trimmed_end(body) == body);
}

/// A trimmed text neither starts nor ends with white space.
proof fn lemma_trimmed_ends(s: Seq<char>)
    requires
        text::trimmed(s) == s,
        s.len() > 0,
    ensures
        !text::white(s[0]),
        !text::white(s.last()),
{
    text::lemma_runs(s);
    lemma_trimmed_end_len(text::trimmed_start(s));
    lemma_trimmed_end_len(s);
    assert(text::white_run(s) == 0);
    assert(text::trimmed_start(s) =~= s);
}

proof fn lemma_trimmed_end_len(s: Seq<char>)
    ensures
        text::trimmed_end(s).len() <= s.len(),
        s.len() > 0 && text::white(s.last()) ==> text::trimmed_end(s).len() < s.len(),
    decreases s.len(),
{
    if s.len() > 0 {
        lemma_trimmed_end_len(s.drop_last());
    }
}

proof fn lemma_instruction_lines_front(first: Seq<char>, rest: Seq<Seq<char>>)
    requires
        is_instruction(first),
    ensures
        instruction_lines(seq![first] + rest) == seq![first] + instruction_lines(rest),
    decreases rest.len(),
{
    let whole = seq![first] + rest;
    reveal_with_fuel(instruction_lines, 2);
    if rest.len() == 0 {
        assert(whole.drop_last() =~= Seq::<Seq<char>>::empty());
        assert(whole.last() == first);
        assert(instruction_lines(whole) =~= seq![first] + instruction_lines(rest));
    } else {
        assert(whole.drop_last() =~= seq![first] + rest.drop_last());
        assert(whole.last() == rest.last());
        lemma_instruction_lines_front(first, rest.drop_last());
        assert(instruction_lines(whole) =~= seq![first] + instruction_lines(rest));
    }
}

/// git's list has a line for each entry, the last entry's first.
pub proof fn list_has_a_line_each(entries: Seq<Entry>)
    requires
        forall|i: int| 0 <= i < entries.len() ==> tellable(#[trigger] entries[i]),
    ensures
        instruction_lines(text::lines(list_text(entries))) == Seq::new(
            entries.len(),
            |i: int| entry_line(entries[entries.len() - 1 - i]),
        ),
    decreases entries.len(),
{
    let list = list_text(entries);
    let wanted = Seq::new(entries.len(), |i: int| entry_line(entries[entries.len() - 1 - i]));
    if entries.len() == 0 {
        assert(text::lines(list) =~= Seq::<Seq<char>>::empty());
        assert(instruction_lines(text::lines(list)) =~= wanted);
    } else {
        let front = entries.drop_last();
        let line = entry_line(entries.last());
        let rest = list_text(front);
        assert forall|i: int| 0 <= i < front.len() implies tellable(#[trigger] front[i]) by {
            assert(front[i] == entries[i]);
        }
        list_has_a_line_each(front);
        lemma_entry_line(entries.last());
        let body = entry_text(entries.last());
        assert(list == line + rest);
        assert(line =~= body.push('\n'));
        assert forall|k: int| 0 <= k < body.len() implies list[k] != '\n' by {
            assert(list[k] == body[k]);
        }
        text::lemma_line_len_is(list, body.len() as int);
        assert(list.take(line.len() as int) =~= line);
        assert(list.skip(line.len() as int) =~= rest);
        assert(text::lines(list) == seq![line] + text::lines(rest));
        lemma_instruction_lines_front(line, text::lines(rest));
        assert(instruction_lines(text::lines(list)) =~= wanted);
    }
}

/// A commit's line names its action and its id.
proof fn lemma_commit_line(action: TodoAction, oid: Seq<char>)
    requires
        oid.len() > 0,
        solid(oid),
    ensures
        ({
            let body = keyword_of(action).push(' ') + oid;
            &&& text::first_word(body) == Some(keyword_of(action))
            &&& text::first_word(text::after_first_word(body)) == Some(oid)
        }),
{
    lemma_keyword_solid(action);
    let word = keyword_of(action);
    let body = word.push(' ') + oid;
    assert(!text::white(word[0]));
    text::lemma_white_run_is(body, 0);
    assert(text::trimmed_start(body) =~= body);
    assert forall|k: int| 0 <= k < word.len() implies !text::white(#[trigger] body[k]) by {
        assert(body[k] == word[k]);
    }
    text::lemma_word_run_is(body, word.len() as int);
    assert(body.take(word.len() as int) =~= word);
    let after = text::after_first_word(body);
    assert(after =~= seq![' '] + oid);
    assert(after[1] == oid[0]);
    text::lemma_white_run_is(after, 1);
    assert(text::trimmed_start(after) =~= oid);
    text::lemma_word_run_is(oid, oid.len() as int);
    assert(oid.take(oid.len() as int) =~= oid);
}

/// A list that is written and read again is the same list: git's list runs the
/// other way, and it is reversed on the way out as on the way in. Of the entries
/// it takes that they can be told from their lines, and of the revs that each
/// resolves to the commit it names.
pub proof fn list_reads_back(
    entries: Seq<Entry>,
    instructions: Seq<Instruction>,
    oids: Seq<Option<String>>,
)
    requires
        forall|i: int| 0 <= i < entries.len() ==> tellable(#[trigger] entries[i]),
        ({
            let lines = instruction_lines(text::lines(list_text(entries)));
            &&& instructions.len() == lines.len()
            &&& forall|i: int|
                0 <= i < instructions.len() ==> says(#[trigger] instructions[i], lines[i])
        }),
        oids.len() == instructions.len(),
        forall|i: int|
            0 <= i < entries.len() ==> match #[trigger] entries[i] {
                Entry::Commit { oid, .. } => oids[entries.len() - 1 - i] matches Some(found)
                    && found@ == oid,
                Entry::Other(_) => instructions[entries.len() - 1 - i].action is None
                    || oids[entries.len() - 1 - i] is None,
            },
    ensures
        Seq::new(
            instructions.len(),
            |i: int|
                entry_of(
                    instructions[instructions.len() - 1 - i],
                    oids[instructions.len() - 1 - i],
                ),
        ) == entries,
{
    list_has_a_line_each(entries);
    let n = entries.len() as int;
    assert forall|i: int| 0 <= i < n implies entry_of(
        instructions[n - 1 - i],
        oids[n - 1 - i],
    ) == #[trigger] entries[i] by {
        let instruction = instructions[n - 1 - i];
        assert(says(instruction, entry_line(entries[i])));
        lemma_entry_line(entries[i]);
        match entries[i] {
            Entry::Commit { action, oid } => {
                lemma_commit_line(action, oid);
                keyword_reads_back(action);
                assert(entry_text(entries[i]) =~= keyword_of(action).push(' ') + oid);
            },
            Entry::Other(line) => {
                assert(entry_text(entries[i]) =~= line);
            },
        }
    }
    assert(Seq::new(
        instructions.len(),
        |i: int|
            entry_of(instructions[instructions.len() - 1 - i], oids[instructions.len() - 1 - i]),
    ) =~= entries);
}

} // verus!
