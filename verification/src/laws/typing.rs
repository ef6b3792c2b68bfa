//! A line that is typed on: what each key takes from it, adds to it, or leaves.

use crate::prompt;
use crate::prompt::{Editing, History};
use crate::text;
use crate::text_input;
use crate::text_input::{Key, KeyCode, KeyKind, Line, Modifiers};
use vstd::prelude::*;

verus! {

/// Whether a cursor is somewhere on a line.
pub open spec fn on_line(line: Line) -> bool {
    0 <= line.cursor <= line.value.len()
}

pub open spec fn alone() -> Modifiers {
    Modifiers { shift: false, ctrl: false, alt: false, other: false }
}

pub open spec fn with_ctrl() -> Modifiers {
    Modifiers { shift: false, ctrl: true, alt: false, other: false }
}

pub open spec fn with_alt() -> Modifiers {
    Modifiers { shift: false, ctrl: false, alt: true, other: false }
}

/// A key that is pressed.
pub open spec fn pressed(code: KeyCode, modifiers: Modifiers) -> Key {
    Key { code, modifiers, kind: KeyKind::Press }
}

/// Whether some of a text is first letters and digits and then none: a word and what
/// follows it, and nothing of another.
pub open spec fn word_then_gap(value: Seq<char>, from: int, to: int) -> bool {
    exists|m: int|
        #![trigger value.subrange(from, m)]
        {
            &&& from <= m <= to
            &&& forall|i: int| from <= i < m ==> text::alphanumeric(#[trigger] value[i])
            &&& forall|i: int| m <= i < to ==> !text::alphanumeric(#[trigger] value[i])
            &&& from < m || from == 0
        }
}

/// Whether some of a text is first no letters or digits and then nothing else: what
/// stands before a word, and the word.
pub open spec fn gap_then_word(value: Seq<char>, from: int, to: int) -> bool {
    exists|m: int|
        #![trigger value.subrange(from, m)]
        {
            &&& from <= m <= to
            &&& forall|i: int| from <= i < m ==> !text::alphanumeric(#[trigger] value[i])
            &&& forall|i: int| m <= i < to ==> text::alphanumeric(#[trigger] value[i])
            &&& m < to || to == value.len()
        }
}

/// Whether some of a text is first solid and then white: a token and what follows it.
pub open spec fn token_then_white(value: Seq<char>, from: int, to: int) -> bool {
    exists|m: int|
        #![trigger value.subrange(from, m)]
        {
            &&& from <= m <= to
            &&& forall|i: int| from <= i < m ==> !text::white(#[trigger] value[i])
            &&& forall|i: int| m <= i < to ==> text::white(#[trigger] value[i])
            &&& from < m || from == 0
        }
}

/// Whether a line is another with a part of it gone, the cursor where that was, and the
/// part kept to be put back. A kill of nothing leaves everything as it was.
pub open spec fn took(before: Editing, after: Editing, from: int, to: int) -> bool {
    &&& 0 <= from <= to <= before.line.value.len()
    &&& after.line.value.take(from) == before.line.value.take(from)
    &&& after.line.value.skip(from) == before.line.value.skip(to)
    &&& after.line.cursor == from
    &&& from < to ==> after.killed == before.line.value.subrange(from, to)
    &&& from == to ==> after.killed == before.killed
}

proof fn lemma_run_start(chars: Seq<char>, from: int, run: prompt::Run)
    requires
        0 <= from <= chars.len(),
    ensures
        0 <= prompt::run_start(chars, from, run) <= from,
        forall|i: int| prompt::run_start(chars, from, run) <= i < from ==> run.has(#[trigger] chars[i]),
        prompt::run_start(chars, from, run) > 0 ==> !run.has(
            chars[prompt::run_start(chars, from, run) - 1],
        ),
    decreases from,
{
    if from > 0 && run.has(chars[from - 1]) {
        lemma_run_start(chars, from - 1, run);
    }
}

proof fn lemma_run_end(chars: Seq<char>, from: int, run: prompt::Run)
    requires
        0 <= from <= chars.len(),
    ensures
        from <= prompt::run_end(chars, from, run) <= chars.len(),
        forall|i: int| from <= i < prompt::run_end(chars, from, run) ==> run.has(#[trigger] chars[i]),
        prompt::run_end(chars, from, run) < chars.len() ==> !run.has(
            chars[prompt::run_end(chars, from, run)],
        ),
    decreases chars.len() - from,
{
    if from < chars.len() && run.has(chars[from]) {
        lemma_run_end(chars, from + 1, run);
    }
}

proof fn lemma_word_start(value: Seq<char>, cursor: int)
    requires
        0 <= cursor <= value.len(),
    ensures
        0 <= prompt::word_start(value, cursor) <= cursor,
        word_then_gap(value, prompt::word_start(value, cursor), cursor),
        prompt::word_start(value, cursor) > 0 ==> !text::alphanumeric(
            value[prompt::word_start(value, cursor) - 1],
        ),
{
    let m = prompt::run_start(value, cursor, prompt::Run::Gap);
    lemma_run_start(value, cursor, prompt::Run::Gap);
    lemma_run_start(value, m, prompt::Run::Word);
    let from = prompt::word_start(value, cursor);
    assert forall|i: int| from <= i < m implies text::alphanumeric(#[trigger] value[i]) by {
        assert(prompt::Run::Word.has(value[i]));
    }
    assert forall|i: int| m <= i < cursor implies !text::alphanumeric(#[trigger] value[i]) by {
        assert(prompt::Run::Gap.has(value[i]));
    }
    let part = value.subrange(from, m);
}

proof fn lemma_word_end(value: Seq<char>, cursor: int)
    requires
        0 <= cursor <= value.len(),
    ensures
        cursor <= prompt::word_end(value, cursor) <= value.len(),
        gap_then_word(value, cursor, prompt::word_end(value, cursor)),
        prompt::word_end(value, cursor) < value.len() ==> !text::alphanumeric(
            value[prompt::word_end(value, cursor)],
        ),
{
    let m = prompt::run_end(value, cursor, prompt::Run::Gap);
    lemma_run_end(value, cursor, prompt::Run::Gap);
    lemma_run_end(value, m, prompt::Run::Word);
    let to = prompt::word_end(value, cursor);
    assert forall|i: int| m <= i < to implies text::alphanumeric(#[trigger] value[i]) by {
        assert(prompt::Run::Word.has(value[i]));
    }
    assert forall|i: int| cursor <= i < m implies !text::alphanumeric(#[trigger] value[i]) by {
        assert(prompt::Run::Gap.has(value[i]));
    }
    let part = value.subrange(cursor, m);
}

proof fn lemma_token_start(value: Seq<char>, cursor: int)
    requires
        0 <= cursor <= value.len(),
    ensures
        0 <= prompt::token_start(value, cursor) <= cursor,
        token_then_white(value, prompt::token_start(value, cursor), cursor),
        prompt::token_start(value, cursor) > 0 ==> text::white(
            value[prompt::token_start(value, cursor) - 1],
        ),
{
    let m = prompt::run_start(value, cursor, prompt::Run::White);
    lemma_run_start(value, cursor, prompt::Run::White);
    lemma_run_start(value, m, prompt::Run::Solid);
    let from = prompt::token_start(value, cursor);
    assert forall|i: int| from <= i < m implies !text::white(#[trigger] value[i]) by {
        assert(prompt::Run::Solid.has(value[i]));
    }
    assert forall|i: int| m <= i < cursor implies text::white(#[trigger] value[i]) by {
        assert(prompt::Run::White.has(value[i]));
    }
    let part = value.subrange(from, m);
}

proof fn lemma_took(editing: Editing, from: int, to: int)
    requires
        0 <= from <= to <= editing.line.value.len(),
        from == to ==> editing.line.cursor == from,
    ensures
        took(editing, editing.kill(from, to), from, to),
{
    let value = editing.line.value;
    let after = editing.kill(from, to).line.value;
    if from < to {
        assert(after.take(from) =~= value.take(from));
        assert(after.skip(from) =~= value.skip(to));
    } else {
        assert(after.skip(from) =~= value.skip(to));
    }
}

/// A key that kills backwards leaves what is behind the cursor as it was, and takes no
/// more than the word before it: `alt+backspace` letters and digits, and what stands
/// between them and the cursor.
pub proof fn alt_backspace_takes_the_word_before(before: Editing)
    requires
        on_line(before.line),
    ensures
        ({
            let after = prompt::edited(before, pressed(KeyCode::Backspace, with_alt()));
            let from = after.line.cursor;
            let cursor = before.line.cursor;
            &&& took(before, after, from, cursor)
            &&& after.line.value.skip(after.line.cursor) == before.line.value.skip(cursor)
            &&& word_then_gap(before.line.value, from, cursor)
            &&& from > 0 ==> !text::alphanumeric(before.line.value[from - 1])
        }),
{
    let from = prompt::word_start(before.line.value, before.line.cursor);
    lemma_word_start(before.line.value, before.line.cursor);
    lemma_took(before, from, before.line.cursor);
}

/// `ctrl+w` takes back the token before the cursor, whatever it is made of but white,
/// and leaves what is behind the cursor as it was.
pub proof fn ctrl_w_takes_the_token_before(before: Editing)
    requires
        on_line(before.line),
    ensures
        ({
            let after = prompt::edited(before, pressed(KeyCode::Char('w'), with_ctrl()));
            let from = after.line.cursor;
            let cursor = before.line.cursor;
            &&& took(before, after, from, cursor)
            &&& after.line.value.skip(after.line.cursor) == before.line.value.skip(cursor)
            &&& token_then_white(before.line.value, from, cursor)
            &&& from > 0 ==> text::white(before.line.value[from - 1])
        }),
{
    let from = prompt::token_start(before.line.value, before.line.cursor);
    lemma_token_start(before.line.value, before.line.cursor);
    lemma_took(before, from, before.line.cursor);
}

/// `alt+d` takes the word behind the cursor, with what stands before it, and leaves what
/// is before the cursor as it was.
pub proof fn alt_d_takes_the_word_behind(before: Editing)
    requires
        on_line(before.line),
    ensures
        ({
            let after = prompt::edited(before, pressed(KeyCode::Char('d'), with_alt()));
            let cursor = before.line.cursor;
            let to = before.line.value.len() - (after.line.value.len() - cursor);
            &&& after.line.value.take(cursor) == before.line.value.take(cursor)
            &&& took(before, after, cursor, to)
            &&& gap_then_word(before.line.value, cursor, to)
            &&& to < before.line.value.len() ==> !text::alphanumeric(before.line.value[to])
        }),
{
    let to = prompt::word_end(before.line.value, before.line.cursor);
    lemma_word_end(before.line.value, before.line.cursor);
    lemma_took(before, before.line.cursor, to);
}

/// `ctrl+k` takes everything behind the cursor, and `ctrl+u` everything.
pub proof fn whole_kills(before: Editing)
    requires
        on_line(before.line),
    ensures
        ({
            let behind = prompt::edited(before, pressed(KeyCode::Char('k'), with_ctrl()));
            &&& took(before, behind, before.line.cursor, before.line.value.len() as int)
            &&& behind.line.value == before.line.value.take(before.line.cursor)
        }),
        ({
            let nothing = prompt::edited(before, pressed(KeyCode::Char('u'), with_ctrl()));
            &&& nothing.line.value.len() == 0
            &&& nothing.line.cursor == 0
            &&& before.line.value.len() > 0 ==> nothing.killed == before.line.value
            &&& before.line.value.len() == 0 ==> nothing.killed == before.killed
        }),
{
    let value = before.line.value;
    let n = value.len() as int;
    lemma_took(before, before.line.cursor, n);
    let behind = prompt::edited(before, pressed(KeyCode::Char('k'), with_ctrl()));
    assert(behind.line.value =~= value.take(before.line.cursor));
    assert(value.subrange(0, n) =~= value);
    assert(value.skip(n).len() == 0);
}

/// The keys that move by words change nothing but where the cursor is: to the start of
/// the word before it, or to the end of the one behind.
pub proof fn word_motions(before: Editing, key: Key)
    requires
        on_line(before.line),
        key.kind != KeyKind::Release,
    ensures
        (key.code == KeyCode::Char('b') && key.modifiers == with_alt()) || (key.code
            == KeyCode::Left && (key.modifiers == with_alt() || key.modifiers == with_ctrl())) ==> {
            let after = prompt::edited(before, key);
            let to = after.line.cursor;
            &&& after.line.value == before.line.value
            &&& after.killed == before.killed
            &&& 0 <= to <= before.line.cursor
            &&& word_then_gap(before.line.value, to, before.line.cursor)
            &&& to > 0 ==> !text::alphanumeric(before.line.value[to - 1])
        },
        (key.code == KeyCode::Char('f') && key.modifiers == with_alt()) || (key.code
            == KeyCode::Right && (key.modifiers == with_alt() || key.modifiers == with_ctrl())) ==> {
            let after = prompt::edited(before, key);
            let to = after.line.cursor;
            &&& after.line.value == before.line.value
            &&& after.killed == before.killed
            &&& before.line.cursor <= to <= before.line.value.len()
            &&& gap_then_word(before.line.value, before.line.cursor, to)
            &&& to < before.line.value.len() ==> !text::alphanumeric(before.line.value[to])
        },
{
    lemma_word_start(before.line.value, before.line.cursor);
    lemma_word_end(before.line.value, before.line.cursor);
}

/// `ctrl+y` puts back what was killed where the cursor is, as often as it is pressed.
pub proof fn yank_puts_back(before: Editing)
    requires
        on_line(before.line),
    ensures
        ({
            let after = prompt::edited(before, pressed(KeyCode::Char('y'), with_ctrl()));
            let cursor = before.line.cursor;
            let n = before.killed.len() as int;
            &&& after.killed == before.killed
            &&& after.line.cursor == cursor + n
            &&& after.line.value.len() == before.line.value.len() + n
            &&& after.line.value.take(cursor) == before.line.value.take(cursor)
            &&& after.line.value.subrange(cursor, cursor + n) == before.killed
            &&& after.line.value.skip(cursor + n) == before.line.value.skip(cursor)
        }),
{
    let after = prompt::edited(before, pressed(KeyCode::Char('y'), with_ctrl()));
    let cursor = before.line.cursor;
    let n = before.killed.len() as int;
    assert(after.line.value.take(cursor) =~= before.line.value.take(cursor));
    assert(after.line.value.subrange(cursor, cursor + n) =~= before.killed);
    assert(after.line.value.skip(cursor + n) =~= before.line.value.skip(cursor));
}

/// `ctrl+t` swaps two characters side by side and steps over them: those the cursor sits
/// between, or the last two or the first two where it sits between none. Nothing else on
/// the line changes.
pub proof fn transpose_swaps_two(before: Editing)
    requires
        on_line(before.line),
    ensures
        ({
            let after = prompt::edited(before, pressed(KeyCode::Char('t'), with_ctrl()));
            let (value, cursor) = (before.line.value, before.line.cursor);
            let n = value.len();
            let at = after.line.cursor;
            &&& after.killed == before.killed
            &&& n < 2 ==> after.line == before.line
            &&& n >= 2 ==> {
                &&& after.line.value.len() == n
                &&& 2 <= at <= n
                &&& after.line.value[at - 1] == value[at - 2]
                &&& after.line.value[at - 2] == value[at - 1]
                &&& forall|i: int|
                    0 <= i < n && i != at - 1 && i != at - 2 ==> #[trigger] after.line.value[i]
                        == value[i]
                &&& 0 < cursor < n ==> at == cursor + 1
                &&& cursor == 0 ==> at == 2
                &&& cursor == n ==> at == n
            }
        }),
{
}

/// Any other key does to the line what it does on any line, and is no kill.
pub proof fn other_keys_kill_nothing(before: Editing, key: Key)
    requires
        key.code != KeyCode::Backspace && key.code != KeyCode::Left && key.code != KeyCode::Right,
        match key.code {
            KeyCode::Char(c) => key.modifiers != with_alt() && (key.modifiers == with_ctrl() ==> c
                != 'w' && c != 'k' && c != 'u' && c != 'y' && c != 't'),
            _ => true,
        },
    ensures
        prompt::edited(before, key).killed == before.killed,
        prompt::edited(before, key).line == text_input::keyed(before.line, key),
{
}

/// The keys that take back or move by one do so unless they are held with what makes them
/// take or move by a word.
pub proof fn single_steps_kill_nothing(before: Editing, key: Key)
    requires
        (key.code == KeyCode::Backspace && key.modifiers != with_alt()) || ((key.code
            == KeyCode::Left || key.code == KeyCode::Right) && key.modifiers != with_alt()
            && key.modifiers != with_ctrl()),
    ensures
        prompt::edited(before, key).killed == before.killed,
        prompt::edited(before, key).line == text_input::keyed(before.line, key),
{
}

/// A key that is let go does nothing to a line.
pub proof fn releases_do_nothing(line: Line, key: Key)
    requires
        key.kind == KeyKind::Release,
    ensures
        text_input::keyed(line, key) == line,
{
}

/// A character that is typed stands before the cursor, and everything else where it was.
pub proof fn typing_inserts(line: Line, c: char, key: Key)
    requires
        on_line(line),
        key.kind != KeyKind::Release,
        key.code == KeyCode::Char(c),
        key.modifiers == alone() || key.modifiers == (Modifiers { shift: true, ..alone() }),
    ensures
        ({
            let after = text_input::keyed(line, key);
            &&& after.value == line.value.insert(line.cursor, c)
            &&& after.cursor == line.cursor + 1
        }),
{
    let after = text_input::keyed(line, key);
    assert(after.value =~= line.value.insert(line.cursor, c));
}

/// Backspace takes the character before the cursor and delete the one behind it, where
/// there is one; `ctrl+h` and `ctrl+d` are the same keys.
pub proof fn deleting_takes_one(line: Line, key: Key)
    requires
        on_line(line),
        key.kind != KeyKind::Release,
    ensures
        key.code == KeyCode::Backspace || (key.code == KeyCode::Char('h') && key.modifiers
            == with_ctrl()) ==> {
            let after = text_input::keyed(line, key);
            if line.cursor > 0 {
                &&& after.value == line.value.remove(line.cursor - 1)
                &&& after.cursor == line.cursor - 1
            } else {
                after == line
            }
        },
        key.code == KeyCode::Delete || (key.code == KeyCode::Char('d') && key.modifiers
            == with_ctrl()) ==> {
            let after = text_input::keyed(line, key);
            if line.cursor < line.value.len() {
                &&& after.value == line.value.remove(line.cursor)
                &&& after.cursor == line.cursor
            } else {
                after == line
            }
        },
{
    let after = text_input::keyed(line, key);
    if line.cursor > 0 {
        assert(line.value.take(line.cursor - 1) + line.value.skip(line.cursor)
            =~= line.value.remove(line.cursor - 1));
    }
    if line.cursor < line.value.len() {
        assert(line.value.take(line.cursor) + line.value.skip(line.cursor + 1)
            =~= line.value.remove(line.cursor));
    }
}

/// The keys that move by a character, or to an end of the line, change nothing else.
pub proof fn motions_only_move(line: Line, key: Key)
    requires
        on_line(line),
        key.kind != KeyKind::Release,
    ensures
        ({
            let after = text_input::keyed(line, key);
            let (n, cursor) = (line.value.len() as int, line.cursor);
            let ctrl = key.modifiers == with_ctrl();
            &&& key.code == KeyCode::Left || (key.code == KeyCode::Char('b') && ctrl)
                ==> after.value == line.value && after.cursor == (if cursor > 0 {
                cursor - 1
            } else {
                0
            })
            &&& key.code == KeyCode::Right || (key.code == KeyCode::Char('f') && ctrl)
                ==> after.value == line.value && after.cursor == (if cursor < n {
                cursor + 1
            } else {
                n
            })
            &&& key.code == KeyCode::Home || (key.code == KeyCode::Char('a') && ctrl)
                ==> after.value == line.value && after.cursor == 0
            &&& key.code == KeyCode::End || (key.code == KeyCode::Char('e') && ctrl)
                ==> after.value == line.value && after.cursor == n
        }),
{
}

/// A key that is none of these is no key of the line: characters held down with `alt`,
/// with several keys or with any other, and keys a line doesn't know.
pub proof fn unknown_keys_do_nothing(line: Line, key: Key)
    requires
        match key.code {
            KeyCode::Up | KeyCode::Down | KeyCode::Other => true,
            KeyCode::Char(c) => {
                ||| key.modifiers.alt || key.modifiers.other
                ||| key.modifiers.ctrl && key.modifiers.shift
                ||| key.modifiers.ctrl && c != 'b' && c != 'f' && c != 'a' && c != 'e' && c != 'h'
                    && c != 'd'
            },
            _ => false,
        },
    ensures
        text_input::keyed(line, key) == line,
{
}

/// Whether nothing was changed of what was answered but the answer on the line.
pub open spec fn kept_otherwise(history: History, stepped: History, value: Seq<char>) -> bool {
    let n = history.entries.len();
    &&& stepped.kind == history.kind
    &&& stepped.wf()
    &&& stepped.entries.len() == n
    &&& forall|i: int|
        0 <= i < n ==> #[trigger] stepped.entries[i] == (if i == history.position {
            value
        } else {
            history.entries[i]
        })
    &&& stepped.draft == (if history.position == n {
        value
    } else {
        history.draft
    })
}

/// Going back over what was answered shows the answer before, as it was left; at the
/// oldest it stays. Going on shows the one after, and behind the newest what was begun
/// with. What is on the line is kept where it came from, and no other answer changes.
pub proof fn history_steps_by_one(history: History, value: Seq<char>)
    requires
        history.wf(),
    ensures
        ({
            let back = history.previous(value);
            &&& history.position > 0 ==> back.position == history.position - 1 && back.shown()
                == history.entries[history.position - 1]
            &&& history.position == 0 ==> back.position == 0 && back.shown() == value
        }),
        ({
            let on = history.next(value);
            let n = history.entries.len();
            &&& history.position < n ==> on.position == history.position + 1
            &&& history.position + 1 < n ==> on.shown() == history.entries[history.position + 1]
            &&& history.position + 1 == n ==> on.shown() == history.draft
            &&& history.position == n ==> on.position == n && on.shown() == value
        }),
        kept_otherwise(history, history.previous(value), value),
        kept_otherwise(history, history.next(value), value),
{
}

/// Whether an answer was gone back to, or gone on to: the one before or after the one
/// that was on the line, which is kept as it was left, is on the line, with the cursor at
/// its end.
pub open spec fn answer_shown(
    before: History,
    value: Seq<char>,
    after: History,
    line: Line,
    back: bool,
) -> bool {
    let n = before.entries.len() as int;
    &&& kept_otherwise(before, after, value)
    &&& back && before.position > 0 ==> after.position == before.position - 1
    &&& back && before.position == 0 ==> after.position == 0
    &&& !back && before.position < n ==> after.position == before.position + 1
    &&& !back && before.position == n ==> after.position == n
    &&& line.value == (if after.position < n {
        after.entries[after.position]
    } else {
        after.draft
    })
    &&& line.cursor == line.value.len()
}

/// Going back and on again shows what was on the line.
pub proof fn going_back_and_on_returns(
    first: History,
    value: Seq<char>,
    second: History,
    between: Line,
    third: History,
    line: Line,
)
    requires
        first.wf(),
        first.position > 0,
        answer_shown(first, value, second, between, true),
        answer_shown(second, between.value, third, line, false),
    ensures
        line.value == value,
        third.position == first.position,
{
}

/// The answers that are gone back to are those there are, in their order, but for what
/// is on the line already.
pub proof fn answers_are_kept_in_order(answers: Seq<Seq<char>>, draft: Seq<char>)
    ensures
        prompt::others(answers, draft) == answers.filter(|answer: Seq<char>| answer != draft),
    decreases answers.len(),
{
    reveal(Seq::filter);
    if answers.len() > 0 {
        answers_are_kept_in_order(answers.drop_last(), draft);
    }
}

/// Answers of different kinds are kept apart.
pub proof fn histories_are_kept_apart()
    ensures
        prompt::history_file(prompt::HistoryKind::GitCommand) == "git-command-history"@,
        prompt::history_file(prompt::HistoryKind::FilePatterns) == "file-pattern-history"@,
        prompt::history_file(prompt::HistoryKind::GitCommand) != prompt::history_file(
            prompt::HistoryKind::FilePatterns,
        ),
{
    reveal_strlit("git-command-history");
    reveal_strlit("file-pattern-history");
    assert("git-command-history"@.len() != "file-pattern-history"@.len());
}

} // verus!
