//! A prompt: a line being edited, with what was killed to put back and what was
//! answered before to go back to.

use crate::laws::typing;
use crate::text;
use crate::text_input::{Key, KeyCode, KeyKind, Line, TextInput};
use vstd::prelude::*;

verus! {

#[derive(Debug)]
pub struct PromptData {
    pub prompt_text: String,
}

#[derive(Debug, Clone, Copy, PartialEq, Eq, Structural)]
pub enum HistoryKind {
    GitCommand,
    FilePatterns,
}

/// What was answered before, oldest first, and which of it is on the line: the one
/// at `position`, or the draft that was begun with.
#[derive(Debug)]
pub struct ActiveHistory {
    pub kind: HistoryKind,
    pub entries: Vec<String>,
    pub position: usize,
    pub draft: String,
}

#[derive(Debug)]
pub struct Prompt {
    pub data: Option<PromptData>,
    pub state: TextInput,
    /// What the last kill took, for `ctrl+y` to put back.
    pub killed: String,
    /// Where answers are kept, if they are.
    pub history_dir: Option<String>,
    pub active_history: Option<ActiveHistory>,
}

// ---------------------------------------------------------------------------
// Words
// ---------------------------------------------------------------------------

/// What a motion steps over.
#[derive(Debug, Clone, Copy, PartialEq, Eq, Structural)]
pub enum Run {
    /// Letters and digits.
    Word,
    /// Anything else.
    Gap,
    White,
    Solid,
}

impl Run {
    pub open spec fn has(self, c: char) -> bool {
        match self {
            Run::Word => text::alphanumeric(c),
            Run::Gap => !text::alphanumeric(c),
            Run::White => text::white(c),
            Run::Solid => !text::white(c),
        }
    }

    fn holds(self, c: char) -> (is: bool)
        ensures
            is == self.has(c),
    {
        match self {
            Run::Word => c.is_alphanumeric(),
            Run::Gap => !c.is_alphanumeric(),
            Run::White => text::is_white(c),
            Run::Solid => !text::is_white(c),
        }
    }
}

/// Where the run before a place begins.
pub open spec fn run_start(chars: Seq<char>, from: int, run: Run) -> int
    decreases from,
{
    if 0 < from <= chars.len() && run.has(chars[from - 1]) {
        run_start(chars, from - 1, run)
    } else {
        from
    }
}

/// Where the run after a place ends.
pub open spec fn run_end(chars: Seq<char>, from: int, run: Run) -> int
    decreases chars.len() - from,
{
    if 0 <= from < chars.len() && run.has(chars[from]) {
        run_end(chars, from + 1, run)
    } else {
        from
    }
}

/// Where the run of letters and digits before a place begins.
pub open spec fn word_start(chars: Seq<char>, from: int) -> int {
    run_start(chars, run_start(chars, from, Run::Gap), Run::Word)
}

/// Where the run of letters and digits after a place ends.
pub open spec fn word_end(chars: Seq<char>, from: int) -> int {
    run_end(chars, run_end(chars, from, Run::Gap), Run::Word)
}

/// Where the whitespace-delimited token before a place begins.
pub open spec fn token_start(chars: Seq<char>, from: int) -> int {
    run_start(chars, run_start(chars, from, Run::White), Run::Solid)
}

fn skipping_back(chars: &Vec<char>, from: usize, run: Run) -> (start: usize)
    requires
        from <= chars@.len(),
    ensures
        start == run_start(chars@, from as int, run),
        start <= from,
{
    let mut i: usize = from;
    while i > 0 && run.holds(chars[i - 1])
        invariant
            i <= from <= chars@.len(),
            run_start(chars@, i as int, run) == run_start(chars@, from as int, run),
        decreases i,
    {
        i -= 1;
    }
    i
}

fn skipping_on(chars: &Vec<char>, from: usize, run: Run) -> (end: usize)
    requires
        from <= chars@.len(),
    ensures
        end == run_end(chars@, from as int, run),
        from <= end <= chars@.len(),
{
    let mut i: usize = from;
    while i < chars.len() && run.holds(chars[i])
        invariant
            from <= i <= chars@.len(),
            run_end(chars@, i as int, run) == run_end(chars@, from as int, run),
        decreases chars@.len() - i,
    {
        i += 1;
    }
    i
}

// ---------------------------------------------------------------------------
// Editing
// ---------------------------------------------------------------------------

/// A line being edited, and what the last kill took.
#[verifier::ext_equal]
pub struct Editing {
    pub line: Line,
    pub killed: Seq<char>,
}

impl Editing {
    /// Take part of the line out, keeping it to put back. A kill of nothing is not
    /// a kill: it leaves what was killed before to be put back.
    pub open spec fn kill(self, from: int, to: int) -> Editing {
        if from < to {
            Editing {
                line: self.line.without(from, to),
                killed: self.line.value.subrange(from, to),
            }
        } else {
            self
        }
    }

    /// Put back what the last kill took.
    pub open spec fn yank(self) -> Editing {
        Editing { line: self.line.with(self.killed), killed: self.killed }
    }

    pub open spec fn moved(self, place: int) -> Editing {
        Editing { line: self.line.at(place), killed: self.killed }
    }

    /// Swap the two characters the cursor sits between, and step over them. At the
    /// end of the line there is nothing to the right to swap with, so the last two
    /// change places instead; at its start, the first two.
    pub open spec fn transpose(self) -> Editing {
        let value = self.line.value;
        let at = if self.line.cursor >= value.len() {
            value.len() - 1
        } else if self.line.cursor < 1 {
            1
        } else {
            self.line.cursor
        };
        if value.len() < 2 {
            self
        } else {
            Editing {
                line: Line {
                    value: value.update(at - 1, value[at]).update(at, value[at - 1]),
                    cursor: at + 1,
                },
                killed: self.killed,
            }
        }
    }
}

/// What a key that was pressed does to the line, where it edits.
///
/// Words come in the two kinds readline has, and the distinction earns its keep on
/// the commands that are typed here: `alt+b`/`alt+f`/`alt+d` step over runs of
/// letters and digits, so they move within a path, while `ctrl+w` takes back a
/// whole whitespace-delimited token, which is what a pathspec is.
pub open spec fn edited(editing: Editing, key: Key) -> Editing {
    let value = editing.line.value;
    let cursor = editing.line.cursor;
    let alt = key.modifiers.only_alt();
    let ctrl = key.modifiers.only_ctrl();
    if (key.code == KeyCode::Char('b') && alt) || (key.code == KeyCode::Left && (alt || ctrl)) {
        editing.moved(word_start(value, cursor))
    } else if (key.code == KeyCode::Char('f') && alt) || (key.code == KeyCode::Right && (alt
        || ctrl)) {
        editing.moved(word_end(value, cursor))
    } else if key.code == KeyCode::Char('w') && ctrl {
        editing.kill(token_start(value, cursor), cursor)
    } else if key.code == KeyCode::Backspace && alt {
        editing.kill(word_start(value, cursor), cursor)
    } else if key.code == KeyCode::Char('d') && alt {
        editing.kill(cursor, word_end(value, cursor))
    } else if key.code == KeyCode::Char('k') && ctrl {
        editing.kill(cursor, value.len() as int)
    } else if key.code == KeyCode::Char('u') && ctrl {
        editing.kill(0, value.len() as int)
    } else if key.code == KeyCode::Char('y') && ctrl {
        editing.yank()
    } else if key.code == KeyCode::Char('t') && ctrl {
        editing.transpose()
    } else {
        Editing { line: crate::text_input::keyed(editing.line, key), killed: editing.killed }
    }
}

/// What a kill took, putting it back undoes: the line is what it was, with the
/// cursor behind what was put back.
pub proof fn yank_undoes_kill(editing: Editing, from: int, to: int)
    requires
        0 <= from < to <= editing.line.value.len(),
    ensures
        editing.kill(from, to).yank().line == (Line { value: editing.line.value, cursor: to }),
{
    let value = editing.line.value;
    let cut = value.take(from) + value.skip(to);
    assert(cut.take(from) =~= value.take(from));
    assert(cut.skip(from) =~= value.skip(to));
    assert(value.take(from) + value.subrange(from, to) + value.skip(to) =~= value);
}

/// Every key leaves the cursor on the line.
pub proof fn cursor_stays_on_line(editing: Editing, key: Key)
    requires
        0 <= editing.line.cursor <= editing.line.value.len(),
    ensures
        0 <= edited(editing, key).line.cursor <= edited(editing, key).line.value.len(),
{
    let value = editing.line.value;
    let cursor = editing.line.cursor;
    lemma_run_start(value, cursor, Run::Gap);
    lemma_run_start(value, run_start(value, cursor, Run::Gap), Run::Word);
    lemma_run_start(value, cursor, Run::White);
    lemma_run_start(value, run_start(value, cursor, Run::White), Run::Solid);
    lemma_run_end(value, cursor, Run::Gap);
    lemma_run_end(value, run_end(value, cursor, Run::Gap), Run::Word);
}

proof fn lemma_run_start(chars: Seq<char>, from: int, run: Run)
    requires
        0 <= from <= chars.len(),
    ensures
        0 <= run_start(chars, from, run) <= from,
    decreases from,
{
    if from > 0 && run.has(chars[from - 1]) {
        lemma_run_start(chars, from - 1, run);
    }
}

proof fn lemma_run_end(chars: Seq<char>, from: int, run: Run)
    requires
        0 <= from <= chars.len(),
    ensures
        from <= run_end(chars, from, run) <= chars.len(),
    decreases chars.len() - from,
{
    if from < chars.len() && run.has(chars[from]) {
        lemma_run_end(chars, from + 1, run);
    }
}

// ---------------------------------------------------------------------------
// History
// ---------------------------------------------------------------------------

/// What was answered before, and which of it is on the line.
#[verifier::ext_equal]
pub struct History {
    pub kind: HistoryKind,
    pub entries: Seq<Seq<char>>,
    pub position: int,
    pub draft: Seq<char>,
}

impl History {
    /// Whether what is on the line is one of the answers, or the draft.
    pub open spec fn wf(self) -> bool {
        0 <= self.position <= self.entries.len()
    }

    /// With the line as it was edited.
    pub open spec fn saved(self, value: Seq<char>) -> History {
        if 0 <= self.position < self.entries.len() {
            History { entries: self.entries.update(self.position, value), ..self }
        } else {
            History { draft: value, ..self }
        }
    }

    /// What is on the line.
    pub open spec fn shown(self) -> Seq<char> {
        if 0 <= self.position < self.entries.len() {
            self.entries[self.position]
        } else {
            self.draft
        }
    }

    pub open spec fn previous(self, value: Seq<char>) -> History {
        let saved = self.saved(value);
        if saved.position > 0 {
            History { position: saved.position - 1, ..saved }
        } else {
            saved
        }
    }

    pub open spec fn next(self, value: Seq<char>) -> History {
        let saved = self.saved(value);
        if saved.position < saved.entries.len() {
            History { position: saved.position + 1, ..saved }
        } else {
            saved
        }
    }
}

/// Going back and on again is where one was, with the line as it was edited.
pub proof fn next_undoes_previous(history: History, value: Seq<char>)
    requires
        history.wf(),
        history.position > 0,
    ensures
        ({
            let back = history.previous(value);
            let again = back.next(back.shown());
            &&& again == history.saved(value)
            &&& again.shown() == value
        }),
{
    let back = history.previous(value);
    let again = back.next(back.shown());
    assert(again.entries =~= history.saved(value).entries);
}

/// Going on and back again is where one was, with the line as it was edited.
pub proof fn previous_undoes_next(history: History, value: Seq<char>)
    requires
        history.wf(),
        history.position < history.entries.len(),
    ensures
        ({
            let on = history.next(value);
            let again = on.previous(on.shown());
            &&& again == history.saved(value)
            &&& again.shown() == value
        }),
{
    let on = history.next(value);
    let again = on.previous(on.shown());
    assert(again.entries =~= history.saved(value).entries);
}

impl View for ActiveHistory {
    type V = History;

    open spec fn view(&self) -> History {
        History {
            kind: self.kind,
            entries: text::string_views(self.entries@),
            position: self.position as int,
            draft: self.draft@,
        }
    }
}

impl ActiveHistory {
    fn save(&mut self, value: &str)
        ensures
            final(self)@ == old(self)@.saved(value@),
    {
        if self.position < self.entries.len() {
            self.entries.set(self.position, value.to_owned());
        } else {
            self.draft = value.to_owned();
        }
        proof {
            assert(self@.entries =~= old(self)@.saved(value@).entries);
        }
    }

    fn step(&mut self, value: &str, back: bool)
        requires
            old(self)@.wf(),
        ensures
            final(self)@ == (if back {
                old(self)@.previous(value@)
            } else {
                old(self)@.next(value@)
            }),
            final(self)@.wf(),
    {
        self.save(value);
        let count = self.entries.len();
        proof {
            assert(text::string_views(self.entries@).len() == self.entries@.len());
        }
        if back {
            if self.position > 0 {
                self.position -= 1;
            }
        } else if self.position < count {
            self.position += 1;
        }
    }

    fn showing(&self) -> (value: String)
        ensures
            value@ == self@.shown(),
    {
        if self.position < self.entries.len() {
            self.entries[self.position].clone()
        } else {
            self.draft.clone()
        }
    }
}

/// The answers that are gone back to: all but those that are on the line already.
pub open spec fn others(answers: Seq<Seq<char>>, draft: Seq<char>) -> Seq<Seq<char>>
    decreases answers.len(),
{
    if answers.len() == 0 {
        seq![]
    } else if answers.last() == draft {
        others(answers.drop_last(), draft)
    } else {
        others(answers.drop_last(), draft).push(answers.last())
    }
}

/// Where answers of a kind are kept.
pub open spec fn history_file(kind: HistoryKind) -> Seq<char> {
    match kind {
        HistoryKind::GitCommand => "git-command-history"@,
        HistoryKind::FilePatterns => "file-pattern-history"@,
    }
}

/// The name of the file answers of a kind are kept in.
pub fn history_file_name(kind: HistoryKind) -> (name: &'static str)
    ensures
        name@ == history_file(kind),
{
    match kind {
        HistoryKind::GitCommand => "git-command-history",
        HistoryKind::FilePatterns => "file-pattern-history",
    }
}

/// What is kept of an answer: a line to append to a file.
#[derive(Debug)]
pub struct Kept {
    pub dir: String,
    pub file: String,
    pub line: String,
}

pub open spec fn history_view(history: Option<ActiveHistory>) -> Option<History> {
    match history {
        Some(history) => Some(history@),
        None => None,
    }
}

impl Prompt {
    pub open spec fn editing(&self) -> Editing {
        Editing { line: self.state@, killed: self.killed@ }
    }

    /// Whether what is on the line is one of the answers gone back to, or the draft.
    pub open spec fn wf(&self) -> bool {
        self.active_history matches Some(history) ==> history@.wf()
    }

    pub fn new() -> (prompt: Prompt)
        ensures
            prompt.wf(),
            prompt.data is None,
            prompt.editing() == (Editing {
                line: Line { value: seq![], cursor: 0 },
                killed: seq![],
            }),
            prompt.state.wf(),
            !prompt.state.focused,
            prompt.history_dir is None,
            prompt.active_history is None,
    {
        let prompt = Prompt {
            data: None,
            state: TextInput::new(),
            killed: String::new(),
            history_dir: None,
            active_history: None,
        };
        proof {
            assert(prompt.killed@ =~= seq![]);
        }
        prompt
    }

    pub fn with_history(history_dir: String) -> (prompt: Prompt)
        ensures
            prompt.wf(),
            prompt.data is None,
            prompt.editing() == (Editing {
                line: Line { value: seq![], cursor: 0 },
                killed: seq![],
            }),
            !prompt.state.focused,
            prompt.state.wf(),
            prompt.history_dir == Some(history_dir),
            prompt.active_history is None,
    {
        let mut prompt = Prompt::new();
        prompt.history_dir = Some(history_dir);
        prompt
    }

    pub fn set(&mut self, data: PromptData)
        ensures
            final(self).data == Some(data),
            final(self).state.focused,
            final(self).editing() == old(self).editing(),
            final(self).history_dir == old(self).history_dir,
            final(self).active_history == old(self).active_history,
    {
        self.data = Some(data);
        self.state.focused = true;
    }

    /// Put the prompt away. What was killed on it can still be put back on the next.
    pub fn reset(&mut self)
        ensures
            final(self).wf(),
            final(self).data is None,
            !final(self).state.focused,
            final(self).state.wf(),
            final(self).editing() == (Editing {
                line: Line { value: seq![], cursor: 0 },
                killed: old(self).killed@,
            }),
            final(self).history_dir == old(self).history_dir,
            final(self).active_history is None,
    {
        self.data = None;
        self.state = TextInput::new();
        self.active_history = None;
    }

    /// Start going back over what was answered before, `answers` as they were kept.
    /// What is on the line already is not gone back to.
    pub fn start_history(&mut self, kind: Option<HistoryKind>, answers: &str)
        requires
            old(self).wf(),
        ensures
            final(self).wf(),
            final(self).data == old(self).data,
            final(self).state == old(self).state,
            final(self).killed == old(self).killed,
            final(self).history_dir == old(self).history_dir,
            match kind {
                Some(kind) => if old(self).history_dir is Some {
                    let entries = others(text::plain_lines(answers@), old(self).state.value@);
                    history_view(final(self).active_history) == Some(
                        History {
                            kind,
                            entries,
                            position: entries.len() as int,
                            draft: old(self).state.value@,
                        },
                    )
                } else {
                    final(self).active_history == old(self).active_history
                },
                None => final(self).active_history == old(self).active_history,
            },
    {
        if self.history_dir.is_none() {
            return;
        }
        let kind = match kind {
            Some(kind) => kind,
            None => {
                return;
            },
        };
        let draft = self.state.value.clone();
        let lines = text::line_texts(answers);
        let ghost all = text::plain_lines(answers@);
        let mut entries: Vec<String> = Vec::new();
        let mut i: usize = 0;
        proof {
            assert(all.take(0) =~= Seq::<Seq<char>>::empty());
            assert(text::string_views(entries@) =~= seq![]);
        }
        while i < lines.len()
            invariant
                i <= lines@.len(),
                all == text::string_views(lines@),
                text::string_views(entries@) == others(all.take(i as int), draft@),
            decreases lines@.len() - i,
        {
            let ghost before = entries@;
            proof {
                assert(all.take(i + 1).drop_last() =~= all.take(i as int));
                assert(all.take(i + 1).last() == lines@[i as int]@);
            }
            if !text::same_text(lines[i].as_str(), draft.as_str()) {
                entries.push(lines[i].clone());
                proof {
                    assert(text::string_views(entries@) =~= text::string_views(before).push(
                        lines@[i as int]@,
                    ));
                }
            }
            i += 1;
        }
        proof {
            assert(all.take(i as int) =~= all);
            assert(text::string_views(entries@).len() == entries@.len());
        }
        let position = entries.len();
        self.active_history = Some(ActiveHistory { kind, entries, position, draft });
    }

    /// What to keep of an answer: nothing, where answers aren't gone back to, or the
    /// answer is empty.
    pub fn remember(&self, value: &str) -> (kept: Option<Kept>)
        ensures
            match kept {
                Some(kept) => {
                    &&& value@.len() > 0
                    &&& self.history_dir matches Some(dir)
                    &&& dir@ == kept.dir@
                    &&& self.active_history matches Some(history)
                    &&& kept.file@ == history_file(history.kind)
                    &&& kept.line@ == value@.push('\n')
                },
                None => self.active_history is None || self.history_dir is None || value@.len()
                    == 0,
            },
    {
        match (&self.active_history, &self.history_dir) {
            (Some(history), Some(dir)) => {
                if text::is_empty(value) {
                    return None;
                }
                let mut line = value.to_owned();
                line.push('\n');
                Some(
                    Kept {
                        dir: dir.clone(),
                        file: history_file_name(history.kind).to_owned(),
                        line,
                    },
                )
            },
            _ => None,
        }
    }

    fn step_history(&mut self, back: bool)
        requires
            old(self).wf(),
        ensures
            final(self).wf(),
            final(self).data == old(self).data,
            final(self).killed == old(self).killed,
            final(self).history_dir == old(self).history_dir,
            final(self).state.focused == old(self).state.focused,
            match history_view(old(self).active_history) {
                Some(history) => {
                    let stepped = if back {
                        history.previous(old(self).state.value@)
                    } else {
                        history.next(old(self).state.value@)
                    };
                    &&& history_view(final(self).active_history) == Some(stepped)
                    &&& final(self).state@ == (Line {
                        value: stepped.shown(),
                        cursor: stepped.shown().len() as int,
                    })
                },
                None => final(self).active_history is None && final(self).state
                    == old(self).state,
            },
    {
        let mut taken: Option<ActiveHistory> = None;
        std::mem::swap(&mut taken, &mut self.active_history);
        if let Some(history) = taken {
            let mut history = history;
            history.step(self.state.value.as_str(), back);
            let value = history.showing();
            self.state.value = value;
            let len = self.state.len();
            self.state.move_to(len);
            self.active_history = Some(history);
        }
    }

    /// Take part of the line out, keeping it for [`Self::yank`].
    fn kill(&mut self, from: usize, to: usize)
        requires
            to <= old(self).state.value@.len(),
        ensures
            final(self).editing() == old(self).editing().kill(from as int, to as int),
            final(self).data == old(self).data,
            final(self).history_dir == old(self).history_dir,
            final(self).active_history == old(self).active_history,
            final(self).state.focused == old(self).state.focused,
    {
        if from >= to {
            return;
        }
        let chars = text::to_chars(self.state.value.as_str());
        self.killed = text::from_chars(chars.as_slice(), from, to);
        self.state.remove(from, to);
    }

    fn yank(&mut self)
        ensures
            final(self).editing() == old(self).editing().yank(),
            final(self).data == old(self).data,
            final(self).history_dir == old(self).history_dir,
            final(self).active_history == old(self).active_history,
            final(self).state.focused == old(self).state.focused,
    {
        self.state.insert(self.killed.as_str());
    }

    fn transpose(&mut self)
        ensures
            final(self).editing() == old(self).editing().transpose(),
            final(self).data == old(self).data,
            final(self).history_dir == old(self).history_dir,
            final(self).active_history == old(self).active_history,
            final(self).state.focused == old(self).state.focused,
    {
        let mut chars = text::to_chars(self.state.value.as_str());
        let count = chars.len();
        if count < 2 {
            return;
        }
        let cursor = self.state.cursor();
        let at: usize = if cursor >= count {
            count - 1
        } else if cursor < 1 {
            1
        } else {
            cursor
        };
        let (left, right) = (chars[at - 1], chars[at]);
        chars.set(at - 1, right);
        chars.set(at, left);
        let value = text::from_chars(chars.as_slice(), 0, count);
        proof {
            assert(value@ =~= old(self).editing().transpose().line.value);
        }
        self.state.value = value;
        self.state.move_to(at + 1);
        proof {
            assert(self.state@ =~= old(self).editing().transpose().line);
        }
    }

    /// A line being edited is a line to edit as any other: the readline keys, over
    /// and above the single-character motions and deletions [`TextInput`] binds; and
    /// up and down, which go over what was answered before.
    pub fn handle_key(&mut self, key: Key)
        requires
            old(self).wf(),
        ensures
            final(self).wf(),
            final(self).data == old(self).data,
            final(self).history_dir == old(self).history_dir,
            final(self).state.focused == old(self).state.focused,
            if key.kind == KeyKind::Release {
                final(self).editing() == old(self).editing() && final(self).active_history == old(self).active_history
            } else if (key.code == KeyCode::Up || key.code == KeyCode::Down)
                && key.modifiers.plain() {
                &&& final(self).killed == old(self).killed
                &&& match history_view(old(self).active_history) {
                    Some(history) => {
                        let stepped = if key.code == KeyCode::Up {
                            history.previous(old(self).state.value@)
                        } else {
                            history.next(old(self).state.value@)
                        };
                        &&& history_view(final(self).active_history) == Some(stepped)
                        &&& final(self).state@ == (Line {
                            value: stepped.shown(),
                            cursor: stepped.shown().len() as int,
                        })
                    },
                    None => final(self).active_history is None && final(self).state == old(self).state,
                }
            } else {
                final(self).editing() == edited(old(self).editing(), key) && final(self).active_history == old(self).active_history
            },
            key.kind != KeyKind::Release && (key.code == KeyCode::Up || key.code == KeyCode::Down)
                && key.modifiers.plain() && old(self).active_history is Some ==> {
                &&& final(self).active_history is Some
                &&& typing::answer_shown(
                    old(self).active_history->0@,
                    old(self).state.value@,
                    final(self).active_history->0@,
                    final(self).state@,
                    key.code == KeyCode::Up,
                )
            },
    {
        if key.kind == KeyKind::Release {
            return;
        }
        proof {
            if self.active_history is Some {
                typing::history_steps_by_one(self.active_history->0@, self.state.value@);
            }
        }
        let alt = key.modifiers.is_alt();
        let ctrl = key.modifiers.is_ctrl();
        let cursor = self.state.cursor();
        let chars = text::to_chars(self.state.value.as_str());
        if key.code == KeyCode::Up && key.modifiers.is_none() {
            self.step_history(true);
        } else if key.code == KeyCode::Down && key.modifiers.is_none() {
            self.step_history(false);
        } else if (key.code == KeyCode::Char('b') && alt) || (key.code == KeyCode::Left && (alt
            || ctrl)) {
            let gap = skipping_back(&chars, cursor, Run::Gap);
            self.state.move_to(skipping_back(&chars, gap, Run::Word));
        } else if (key.code == KeyCode::Char('f') && alt) || (key.code == KeyCode::Right && (alt
            || ctrl)) {
            let gap = skipping_on(&chars, cursor, Run::Gap);
            self.state.move_to(skipping_on(&chars, gap, Run::Word));
        } else if key.code == KeyCode::Char('w') && ctrl {
            let white = skipping_back(&chars, cursor, Run::White);
            self.kill(skipping_back(&chars, white, Run::Solid), cursor);
        } else if key.code == KeyCode::Backspace && alt {
            let gap = skipping_back(&chars, cursor, Run::Gap);
            self.kill(skipping_back(&chars, gap, Run::Word), cursor);
        } else if key.code == KeyCode::Char('d') && alt {
            let gap = skipping_on(&chars, cursor, Run::Gap);
            self.kill(cursor, skipping_on(&chars, gap, Run::Word));
        } else if key.code == KeyCode::Char('k') && ctrl {
            self.kill(cursor, chars.len());
        } else if key.code == KeyCode::Char('u') && ctrl {
            self.kill(0, chars.len());
        } else if key.code == KeyCode::Char('y') && ctrl {
            self.yank();
        } else if key.code == KeyCode::Char('t') && ctrl {
            self.transpose();
        } else {
            self.state.handle_key_event(key);
        }
    }
}

} // verus!
