use gitu::calling_process::{hiding, EditError, GitCommand};
use gitu::diff::{Change, Diff, DiffType, FileDiff, FileHeader, Hunk, HunkContent, HunkHeader};
use gitu::diff_items::create_diff_items;
use gitu::diff_renderer::strip_ansi;
use gitu::frame::NavMode;
use gitu::item::Item;
use gitu::item_data::ItemData;
use gitu::log_items::CommitRecord;
use gitu::ops::editor::{context_answer, context_flag, take_edit, Motion};
use gitu::pager::{
    answer, asked_rows, commit_named_by, diff_page, preamble, rows, text_page, Printed, Source,
};
use gitu::prompt::{HistoryKind, Prompt};
use gitu::screen::{ItemLayout, Measure, Screen, SearchDirection};
use gitu::style::DIM;
use gitu::text_input::{Key, KeyCode, KeyKind, Modifiers};
use gitu::ui::{display_text, layout_prompt, layout_typed_line, CARET};

const PATCH: &str = "diff --git a/f.rs b/f.rs\n\
                     index 1..2 100644\n\
                     --- a/f.rs\n\
                     +++ b/f.rs\n\
                     @@ -1,3 +1,3 @@\n\
                     \x20keep\n\
                     -gone\n\
                     +added\n";

fn strings(words: &[&str]) -> Vec<String> {
    words.iter().map(|word| (*word).to_owned()).collect()
}

/// The files, hunks and changes of a patch.
fn parse_diff(text: &str) -> Vec<FileDiff> {
    let mut files: Vec<FileDiff> = Vec::new();
    let mut offset = 0;
    for line in text.split_inclusive('\n') {
        let end = offset + line.len();
        if line.starts_with("diff --git ") {
            files.push(FileDiff {
                header: FileHeader {
                    range: offset..end,
                    old_file: String::new(),
                    new_file: String::new(),
                },
                hunks: Vec::new(),
            });
        } else if let Some(file) = files.last_mut() {
            if file.hunks.is_empty() && !line.starts_with("@@ ") {
                file.header.range.end = end;
                if let Some(name) = line.strip_prefix("--- a/") {
                    file.header.old_file = name.trim_end().to_string();
                }
                if let Some(name) = line.strip_prefix("+++ b/") {
                    file.header.new_file = name.trim_end().to_string();
                }
            } else if line.starts_with("@@ ") {
                let number = |mark: char| {
                    let from = line.find(mark).unwrap() + 1;
                    let digits: String = line[from..]
                        .chars()
                        .take_while(|c| c.is_ascii_digit())
                        .collect();
                    digits.parse().unwrap()
                };
                file.hunks.push(Hunk {
                    header: HunkHeader {
                        range: offset..end,
                        old_line_start: number('-'),
                        new_line_start: number('+'),
                    },
                    content: HunkContent {
                        range: end..end,
                        changes: Vec::new(),
                    },
                });
            } else {
                let content = &mut file.hunks.last_mut().unwrap().content;
                content.range.end = end;
                match line.as_bytes()[0] {
                    b'-' => match content.changes.last_mut() {
                        Some(change) if change.new.is_empty() && change.old.end == offset => {
                            change.old.end = end;
                            change.new = end..end;
                        }
                        _ => content.changes.push(Change {
                            old: offset..end,
                            new: end..end,
                        }),
                    },
                    b'+' => match content.changes.last_mut() {
                        Some(change) if change.new.end == offset => change.new.end = end,
                        _ => content.changes.push(Change {
                            old: offset..offset,
                            new: offset..end,
                        }),
                    },
                    _ => (),
                }
            }
        }
        offset = end;
    }
    files
}

/// The commits there are: one, by its full id.
fn commit(oid: &str) -> CommitRecord {
    CommitRecord {
        id: 77,
        oid: oid.to_string(),
        short_id: oid[..7].to_string(),
        message: "add firstfile\n".into(),
        summary: "add firstfile".into(),
        author: "Author Name".into(),
        seconds: 0,
    }
}

const OID: &str = "0123456789abcdef0123456789abcdef01234567";

/// The commit each run of rows is of, where it is the one there is.
fn resolve(printed: &Printed) -> Vec<Option<CommitRecord>> {
    printed
        .blocks
        .iter()
        .flatten()
        .map(|block| match &block.oid {
            Some(oid) if OID.starts_with(oid.as_str()) => Some(commit(OID)),
            _ => None,
        })
        .collect()
}

fn text_items(asked: Vec<Item>, text: &str) -> Vec<Item> {
    let printed = Printed::read(text);
    let commits = resolve(&printed);
    text_page(asked, &printed, &commits, &vec![], 0)
}

/// The page for a text with or without a diff in it.
fn page(asked: Vec<Item>, text: &str) -> (Diff, Vec<Item>) {
    page_stopping(asked, text, None, false)
}

/// The page for a text, as it was rendered, the cursor visiting context lines or not.
fn page_stopping(
    asked: Vec<Item>,
    text: &str,
    rendered: Option<&str>,
    visit_context: bool,
) -> (Diff, Vec<Item>) {
    let diff = Diff {
        text: text.to_string(),
        file_diffs: parse_diff(text),
    };
    let items = if diff.file_diffs.is_empty() {
        text_items(asked, text)
    } else {
        let opening = preamble(text);
        diff_page(asked, opening.as_deref(), &diff, 1, rendered, visit_context)
    };
    (diff, items)
}

/// The page for what was piped in with no command behind it.
fn piped(patch: &str) -> (Diff, Vec<Item>) {
    let plain = strip_ansi(patch);
    match Source::of(patch.to_string(), None, &vec![], parse_diff(&plain)) {
        Source::Patch(diff) => page(vec![], &diff.text),
        Source::Unstructured(text) => (
            Diff {
                text: String::new(),
                file_diffs: vec![],
            },
            text_items(vec![], &text),
        ),
        Source::Live { .. } => unreachable!(),
    }
}

fn items_of(patch: &str) -> Vec<ItemData> {
    piped(patch).1.into_iter().map(|item| item.data).collect()
}

/// What a row says.
fn row_text(diff: &Diff, item: &Item) -> String {
    if let Some(row) = &item.rendered {
        return row.iter().map(|(text, _)| display_text(text)).collect();
    }
    match &item.data {
        ItemData::HunkLine {
            file_i,
            hunk_i,
            line_range,
            ..
        } => diff.hunk_content(*file_i, *hunk_i)[line_range.clone()].to_string(),
        ItemData::Delta { file_i, .. } => diff.file_diffs[*file_i].header.new_file.clone(),
        ItemData::Hunk { file_i, hunk_i, .. } => {
            let range = &diff.file_diffs[*file_i].hunks[*hunk_i].header.range;
            diff.text[range.clone()].trim_end().to_string()
        }
        ItemData::Raw(text) => text.clone(),
        other => format!("{other:?}"),
    }
}

fn layouts(diff: &Diff, items: &[Item]) -> Vec<ItemLayout> {
    items
        .iter()
        .map(|item| {
            let measure = || Measure {
                height: 1,
                runs: vec![row_text(diff, item)],
            };
            ItemLayout {
                open: measure(),
                shut: measure(),
            }
        })
        .collect()
}

fn screen_of(diff: &Diff, items: Vec<Item>) -> Screen {
    let measured = if items.is_empty() {
        layouts(diff, &[Item::plain()])
    } else {
        layouts(diff, &items)
    };
    Screen::new((80, 20), &vec![], items, measured)
}

fn row_texts(diff: &Diff, screen: &Screen) -> Vec<String> {
    screen
        .items
        .iter()
        .map(|item| row_text(diff, item))
        .collect()
}

fn shown(diff: &Diff, screen: &Screen) -> Vec<String> {
    screen
        .item_views()
        .iter()
        .map(|view| row_text(diff, &screen.items[view.item_index]))
        .collect()
}

fn shows(diff: &Diff, screen: &Screen, text: &str) -> bool {
    shown(diff, screen).iter().any(|row| row.contains(text))
}

#[test]
fn a_piped_patch_becomes_a_file_a_hunk_and_its_lines() {
    let items = items_of(PATCH);

    assert!(
        matches!(items.first(), Some(ItemData::Delta { .. })),
        "got {items:?}"
    );
    assert!(items.iter().any(|d| matches!(d, ItemData::Hunk { .. })));
    assert_eq!(
        items
            .iter()
            .filter(|d| matches!(d, ItemData::HunkLine { .. }))
            .count(),
        3
    );
}

/// git colours what it writes to its pager, and the parser reads none of it
/// through the escapes, so they have to come off first.
#[test]
fn a_coloured_patch_parses_the_same_as_a_plain_one() {
    let coloured = "\x1b[1mdiff --git a/f.rs b/f.rs\x1b[m\n\
         \x1b[1mindex 1..2 100644\x1b[m\n\
         \x1b[1m--- a/f.rs\x1b[m\n\
         \x1b[1m+++ b/f.rs\x1b[m\n\
         \x1b[36m@@ -1,3 +1,3 @@\x1b[m\n\
         \x20keep\n\
         \x1b[31m-gone\x1b[m\n\
         \x1b[32m+added\x1b[m\n";

    assert_eq!(items_of(coloured).len(), items_of(PATCH).len());
}

/// A patch from `git show` opens with the commit it is the diff of. That is
/// not part of any file's diff, and dropping it loses who wrote the change
/// and why.
#[test]
fn a_commit_patch_keeps_its_message_above_the_diff() {
    let patch = format!(
        "commit 0123456789abcdef\n\
                         Author: Author Name <author@email.com>\n\
                         \n\
                         \x20   add initial-file\n\
                         \n\
                         {PATCH}"
    );

    let (diff, items) = piped(&patch);
    let screen = screen_of(&diff, items);

    let rows = row_texts(&diff, &screen);
    assert!(
        rows.starts_with(&[
            "commit 0123456789abcdef".to_string(),
            "Author: Author Name <author@email.com>".to_string(),
            String::new(),
            "    add initial-file".to_string(),
            String::new(),
        ]),
        "got {rows:?}"
    );
    assert!(
        items_of(&patch)
            .iter()
            .any(|data| matches!(data, ItemData::HunkLine { .. })),
        "the diff below it is still a diff"
    );
    assert_eq!(commit_named_by(&patch).as_deref(), Some("0123456789abcdef"));
}

#[test]
fn a_patch_is_of_the_commit_its_first_line_names() {
    assert_eq!(commit_named_by("commit abc123 (HEAD -> main)\n").as_deref(), Some("abc123"));
    assert_eq!(commit_named_by("commit abc123\r\nrest").as_deref(), Some("abc123"));
    assert_eq!(commit_named_by("commit message\n"), None);
    assert_eq!(commit_named_by("commit \nabc"), None);
    assert_eq!(commit_named_by("diff --git a b\ncommit abc\n"), None);
    assert_eq!(commit_named_by(""), None);
}

/// A patch that opens with a file's diff has nothing above it, and every
/// file it touches is shown once.
#[test]
fn a_patch_of_several_files_shows_each_of_them_once() {
    let patch = format!("{PATCH}{}", PATCH.replace("f.rs", "g.rs"));

    let items = items_of(&patch);

    assert!(
        matches!(items.first(), Some(ItemData::Delta { .. })),
        "got {items:?}"
    );
    assert_eq!(
        items
            .iter()
            .filter(|d| matches!(d, ItemData::Delta { .. }))
            .count(),
        2
    );
    assert_eq!(
        items
            .iter()
            .filter(|d| matches!(d, ItemData::HunkLine { .. }))
            .count(),
        6
    );
    assert_eq!(preamble(&patch), None);
    assert_eq!(preamble("no diff at all\n"), None);
    assert_eq!(preamble("up to\ndiff --git a b\n").as_deref(), Some("up to\n"));
}

/// Unstructured rows are rows like any other: each one takes the cursor.
#[test]
fn the_cursor_moves_between_unstructured_rows() {
    let (diff, items) = piped("one\ntwo\nthree\n");
    let mut screen = screen_of(&diff, items);
    assert_eq!(row_texts(&diff, &screen).len(), 3);

    screen.select_next(NavMode::IncludeSubLines);

    assert_eq!(row_text(&diff, screen.get_selected_item()), "two");
}

/// Input that is not a git patch offers no structure rather than failing.
#[test]
fn output_that_is_not_a_patch_yields_no_files() {
    assert!(!items_of("this is not a diff\nnor is this\n")
        .iter()
        .any(|data| matches!(
            data,
            ItemData::Delta { .. } | ItemData::Hunk { .. } | ItemData::HunkLine { .. }
        )));
    assert!(items_of("").is_empty());
}

/// ... and is shown as it arrived, rather than as an empty screen.
#[test]
fn output_that_is_not_a_patch_is_still_readable() {
    let grep = "m.rs:2:    let alpha = 1;\nm.rs:3:    let gamma = 42;\n";
    let (diff, items) = piped(grep);
    let screen = screen_of(&diff, items);

    assert_eq!(
        row_texts(&diff, &screen),
        ["m.rs:2:    let alpha = 1;", "m.rs:3:    let gamma = 42;"]
    );
}

/// A view of a command's answer.
struct View {
    git: GitCommand,
    found: String,
    context: Option<String>,
}

impl View {
    fn of(argv: &[&str], hide: &[&str]) -> View {
        match Source::of(String::new(), Some(strings(argv)), &strings(hide), vec![]) {
            Source::Live { git, found } => View {
                git,
                found,
                context: None,
            },
            other => panic!("{other:?}"),
        }
    }

    fn line(&self) -> String {
        self.git.line(self.context.as_deref())
    }

    /// The page for what git answers.
    fn page(&self, answer: &str) -> (Diff, Vec<Item>) {
        page(asked_rows(&self.line(), &self.found), answer)
    }

    fn asks_context(&mut self, answer: &str) {
        self.context = context_flag(answer).unwrap();
    }
}

/// A change to the tenth of twenty lines, with so many lines of context around it.
fn answered(context: usize) -> String {
    let (first, last) = (10 - context, 10 + context);
    let mut text = format!(
        "diff --git a/firstfile b/firstfile\nindex 1..2 100644\n--- a/firstfile\n+++ b/firstfile\n\
         @@ -{first},{count} +{first},{count} @@\n",
        count = last - first + 1
    );
    for i in first..=last {
        if i == 10 {
            text += "-line 10\n+changed\n";
        } else {
            text += &format!(" line {i} \n");
        }
    }
    text
}

/// What git is asked for around each change, of a command as it is put.
fn context_of(command: &[String]) -> usize {
    command
        .iter()
        .find_map(|arg| arg.strip_prefix("-U"))
        .map_or(3, |lines| lines.parse().unwrap())
}

/// A diff that can be asked for again can be asked for differently: the context
/// around a change is a property of the question, not of the answer.
#[test]
fn widening_the_context_asks_git_for_more_of_the_file() {
    let mut view = View::of(&["git", "diff"], &[]);
    let asked = context_of(&view.git.command(view.context.as_deref()));
    let (diff, items) = view.page(&answered(asked));
    assert!(!shows(&diff, &screen_of(&diff, items), "line 2 "));

    view.asks_context("8");
    let asked = context_of(&view.git.command(view.context.as_deref()));
    let (diff, items) = view.page(&answered(asked));
    assert!(shows(&diff, &screen_of(&diff, items), "line 2 "));
}

/// A commit's patch says which commit it is, so git can be asked for it again —
/// and differently.
#[test]
fn widening_the_context_of_a_piped_commit() {
    let mut view = View::of(&["git", "show", "HEAD"], &[]);
    view.asks_context("8");
    let command = view.git.command(view.context.as_deref());
    assert_eq!(
        command,
        ["git", "show", "--no-ext-diff", "--no-color", "-U8", "HEAD"]
    );
    let (diff, items) = view.page(&answered(context_of(&command)));
    assert!(shows(&diff, &screen_of(&diff, items), "line 2 "));
}

/// A diff against another rev is as live as any other.
#[test]
fn the_context_of_a_diff_against_a_rev_can_be_widened() {
    let view = View::of(&["git", "diff", "main"], &[]);
    let lines = |context: Option<&str>| {
        let asked = context_of(&view.git.command(context));
        let (_, items) = view.page(&answered(asked));
        items
            .iter()
            .filter(|item| matches!(item.data, ItemData::HunkLine { .. }))
            .count()
    };
    assert!(lines(Some("-U5")) > lines(None));
}

/// The key already said what is being set, so the prompt says nothing at all:
/// a line to type on, and no words explaining it every time.
#[test]
fn the_context_prompt_says_nothing() {
    let answer = context_answer(None);
    let spans = layout_prompt(
        ("?".into(), gitu::style::Style::new()),
        "",
        gitu::style::Style::new(),
        &answer,
        answer.len(),
    );
    let line: String = spans.iter().map(|(text, _)| text.as_str()).collect();
    assert!(!line.contains('\u{203a}'), "{line}");
    assert!(!line.contains("Context"), "{line}");
    assert!(!line.contains("default"), "{line}");
    assert_eq!(line, format!("3{CARET}"));
}

/// The whole function is the other thing worth asking for, and is a letter
/// rather than a number.
#[test]
fn the_whole_function_is_asked_for_by_letter() {
    let mut view = View::of(&["git", "diff"], &[]);

    view.asks_context("W");

    assert_eq!(view.context.as_deref(), Some("-W"));
    assert_eq!(context_flag("w"), Some(Some("-W".to_string())));
    assert_eq!(context_flag("3"), Some(None));
    assert_eq!(context_flag("12"), Some(Some("-U12".to_string())));
    assert_eq!(context_flag("many"), None);
    assert_eq!(context_flag(""), None);
    assert_eq!(context_answer(Some("-W")), "W");
    assert_eq!(context_answer(Some("-U12")), "12");
}

/// Every property of a view is in the command it is the output of, so the
/// command itself is what is offered for editing — prefilled, and with nothing
/// said about it.
#[test]
fn the_command_is_offered_for_editing_as_it_is_being_asked() {
    let mut view = View::of(&["git", "-c", "color.diff=always", "diff"], &[]);
    view.asks_context("8");
    assert_eq!(view.line(), "git -c color.diff=always diff -U8");
}

/// The edit is a different question, so the answer is a different view: what
/// the patch is a diff of has changed.
#[test]
fn editing_the_command_asks_the_new_question() {
    let mut view = View::of(&["git", "diff"], &[]);
    assert_eq!(view.git.diff_type(), DiffType::WorkdirToIndex);

    let line = format!("{} --cached", view.line());
    take_edit(&mut view.git, &mut view.context, &line).unwrap();

    assert_eq!(view.git.diff_type(), DiffType::IndexToTree);
    assert_eq!(view.line(), "git diff --cached");
}

/// The line handed over says what context it is asking for, so accepting it
/// keeps that: the command is the whole of what the view is, and the session's
/// own context override is spent.
#[test]
fn an_edit_takes_over_the_context_asked_for() {
    let mut view = View::of(&["git", "diff"], &[]);
    view.asks_context("8");
    let line = view.line();
    take_edit(&mut view.git, &mut view.context, &line).unwrap();

    assert_eq!(view.context, None);
    assert_eq!(context_of(&view.git.command(None)), 8);
}

#[test]
fn a_refused_edit_changes_nothing() {
    let mut view = View::of(&["git", "diff"], &[]);
    view.asks_context("8");
    assert_eq!(
        take_edit(&mut view.git, &mut view.context, "git push"),
        Err(EditError::Writes("push".into()))
    );
    assert_eq!(view.context.as_deref(), Some("-U8"));
    assert_eq!(view.git.argv, ["git", "diff"]);
}

/// Output with no diff in it is still a question that is held, so editing it
/// into one that has a diff turns rows into files and hunks.
#[test]
fn an_edit_that_asks_for_a_diff_gets_one() {
    let mut view = View::of(&["git", "log"], &[]);
    let has_lines = |items: &[Item]| {
        items
            .iter()
            .any(|item| matches!(item.data, ItemData::HunkLine { .. }))
    };
    let log = "commit 0123456789abcdef\n\n    add f.rs\n\n";
    assert!(!has_lines(&view.page(log).1), "a log has no diff in it");

    take_edit(&mut view.git, &mut view.context, "git log -p").unwrap();

    let patches = format!("{log}{PATCH}");
    assert!(has_lines(&view.page(&patches).1), "a log with patches does");
}

/// A command the user can edit is one the user can get wrong. git says what it
/// thought of it, and the view stays.
#[test]
fn a_command_git_refuses_says_so_and_changes_nothing() {
    let mut view = View::of(&["git", "diff"], &[]);
    let (diff, items) = view.page(PATCH);
    let mut screen = screen_of(&diff, items);

    let line = format!("{} --nonsense", view.line());
    take_edit(&mut view.git, &mut view.context, &line).unwrap();
    assert_eq!(view.line(), "git diff --nonsense");
    let answered = answer(false, b"", b"error: invalid option: --nonsense\nusage: git diff\n");
    if let Ok(text) = &answered {
        let (diff, items) = view.page(text);
        let measured = layouts(&diff, &items);
        screen.refresh(items, measured);
    }
    assert_eq!(answered, Err("error: invalid option: --nonsense".to_string()));
    assert!(shows(&diff, &screen, "+added"));

    // A command that answered at all is taken to have worked.
    assert_eq!(
        answer(false, PATCH.as_bytes(), b"warning\n"),
        Ok(PATCH.to_string())
    );
    assert_eq!(answer(true, b"", b""), Ok(String::new()));
    assert_eq!(answer(false, b"", b""), Err(String::new()));
}

const NONE: Modifiers = Modifiers {
    shift: false,
    ctrl: false,
    alt: false,
    other: false,
};
const CTRL: Modifiers = Modifiers {
    shift: false,
    ctrl: true,
    alt: false,
    other: false,
};
const ALT: Modifiers = Modifiers {
    shift: false,
    ctrl: false,
    alt: true,
    other: false,
};

/// A prompt for the command of a view, with keys pressed on it.
fn command_prompt(view: &View, keys: &[(Modifiers, KeyCode)]) -> Prompt {
    let mut prompt = Prompt::new();
    prompt.state.value = view.line();
    prompt.state.move_to(usize::MAX);
    for (modifiers, code) in keys {
        prompt.handle_key(Key {
            code: *code,
            modifiers: *modifiers,
            kind: KeyKind::Press,
        });
    }
    prompt
}

/// What the prompt is drawn as, with the cursor written as `|`.
fn prompt_line(prompt: &Prompt) -> String {
    let spans = layout_typed_line(&prompt.state.value, prompt.state.cursor());
    let mut line = String::new();
    for (n, (text, _)) in spans.iter().enumerate() {
        if n == 1 {
            line.push('|');
        }
        if text != CARET {
            line.push_str(text);
        }
    }
    line
}

/// The editing keys reach the line being edited: `ctrl+w` takes back a word.
#[test]
fn a_command_can_be_edited_with_the_readline_keys() {
    let view = View::of(&["git", "diff", "--cached"], &[]);
    let prompt = command_prompt(&view, &[(CTRL, KeyCode::Char('w'))]);
    assert_eq!(prompt.state.value, "git diff ");
}

/// The cursor is drawn where the next character will land. A line that shows
/// it at the end while typing inserts in the middle is unusable.
#[test]
fn the_cursor_is_drawn_at_the_insertion_point() {
    let view = View::of(&["git", "diff"], &[]);
    let start = (CTRL, KeyCode::Char('a'));
    let word = (ALT, KeyCode::Char('f'));

    assert_eq!(prompt_line(&command_prompt(&view, &[])), "git diff|");
    assert_eq!(prompt_line(&command_prompt(&view, &[start])), "|git diff");
    assert_eq!(
        prompt_line(&command_prompt(&view, &[start, word])),
        "git| diff"
    );
    assert_eq!(
        prompt_line(&command_prompt(
            &view,
            &[start, word, (NONE, KeyCode::Char('X'))]
        )),
        "gitX| diff"
    );
}

/// A patch with no command behind it has no question to edit.
#[test]
fn a_patch_with_no_command_cannot_be_edited() {
    let source = Source::of(PATCH.to_string(), None, &vec![], parse_diff(PATCH));
    assert!(source.git_command().is_none());
    let unknown = Source::of(
        "status\n".to_string(),
        Some(strings(&["git", "status"])),
        &vec![],
        vec![],
    );
    assert!(unknown.git_command().is_none());
    let live = Source::of(String::new(), Some(strings(&["git", "diff"])), &vec![], vec![]);
    assert!(live.git_command().is_some());
}

/// A hidden file is absent from the question, as if the patch never had it.
#[test]
fn hiding_the_file_under_the_cursor_drops_it_from_the_view() {
    let view = View::of(&["git", "diff"], &[]);
    let hidden = view
        .git
        .asking_for(&hiding(view.git.file_patterns(), &strings(&["a.rs"])));
    assert_eq!(
        hidden.command(None),
        [
            "git",
            "diff",
            "--no-ext-diff",
            "--no-color",
            "--",
            ":(top,exclude)a.rs"
        ]
    );
    assert_eq!(hidden.diff_type(), DiffType::WorkdirToIndex);
}

/// The paths are the user's to say, in git's own language less the magic: a
/// bare pattern limits the view, `!` drops what it matches.
#[test]
fn the_files_to_show_can_be_said_by_pattern() {
    let view = View::of(&["git", "diff"], &[]);
    let limited = view.git.asking_for(&strings(&["!*_test.rs"]));
    assert_eq!(limited.line(None), "git diff -- ':(top,exclude)*_test.rs'");
    let bare = view.git.asking_for(&strings(&["src"]));
    assert_eq!(bare.line(None), "git diff -- src");
}

/// Hiding a file is an edit of the command like any other, so it is there to
/// be read back, undone, or added to.
#[test]
fn the_files_asked_for_come_back_for_editing() {
    let view = View::of(&["git", "diff"], &["a.rs"]);
    assert_eq!(view.git.file_patterns(), ["!a.rs"]);
    assert_eq!(view.line(), "git diff -- ':(top,exclude)a.rs'");
}

/// Generated files and fixtures are noise in every patch, so saying so once
/// drops them before the question is first asked.
#[test]
fn the_files_config_hides_are_gone_from_the_first_ask() {
    let view = View::of(&["git", "diff", "--cached"], &["*.pb.rs"]);
    assert_eq!(
        view.git.command(None),
        [
            "git",
            "diff",
            "--no-ext-diff",
            "--no-color",
            "--cached",
            "--",
            ":(top,exclude)*.pb.rs"
        ]
    );
}

/// Commands and file patterns are two different kinds of question, and what
/// was answered before remains available.
#[test]
fn command_and_file_histories_persist_separately() {
    let up = (NONE, KeyCode::Up);
    let down = (NONE, KeyCode::Down);
    let mut files = vec![
        ("git-command-history", String::new()),
        ("file-pattern-history", String::new()),
    ];
    let mut ask = |kind: HistoryKind, draft: &str, keys: &[(Modifiers, KeyCode)], answer: &str| {
        let mut prompt = Prompt::with_history("/state".into());
        prompt.state.value = draft.to_string();
        prompt.state.move_to(usize::MAX);
        let name = gitu::prompt::history_file_name(kind);
        let kept = files.iter_mut().find(|(file, _)| *file == name).unwrap();
        prompt.start_history(Some(kind), &kept.1);
        for (modifiers, code) in keys {
            prompt.handle_key(Key {
                code: *code,
                modifiers: *modifiers,
                kind: KeyKind::Press,
            });
        }
        if let Some(remembered) = prompt.remember(answer) {
            assert_eq!(remembered.file, name);
            kept.1.push_str(&remembered.line);
        }
        prompt_line(&prompt)
    };

    ask(HistoryKind::FilePatterns, "", &[], "!a_test.rs");
    ask(HistoryKind::FilePatterns, "", &[], "!a.rs");
    ask(HistoryKind::GitCommand, "git diff", &[], "git diff HEAD");
    ask(HistoryKind::GitCommand, "git diff", &[], "git diff --cached");

    assert_eq!(
        ask(HistoryKind::GitCommand, "git diff", &[up], ""),
        "git diff --cached|"
    );
    assert_eq!(ask(HistoryKind::FilePatterns, "", &[up], ""), "!a.rs|");
    assert_eq!(
        ask(HistoryKind::GitCommand, "git diff", &[up, up, down], ""),
        "git diff --cached|"
    );
}

/// A view with files hidden from it must not pass for the whole patch, so a
/// question that is no longer git's own says so — in one line, and only then.
#[test]
fn a_view_that_is_not_what_git_asked_for_says_what_it_is() {
    let own = View::of(&["git", "diff", "--", "src"], &[]);
    assert!(asked_rows(&own.line(), &own.found).is_empty());

    let view = View::of(&["git", "diff"], &["a.rs"]);
    let (_, items) = view.page(PATCH);
    let row = items[0].rendered.as_ref().unwrap();
    assert_eq!(row[0].0, "git diff -- ':(top,exclude)a.rs'");
    assert_eq!(row[0].1.add_modifier.bits, DIM);
    assert!(items[0].unselectable);
    assert!(matches!(items[1].data, ItemData::Delta { .. }));
}

/// Folding everything leaves one folded thing, not a stack of them: opening a
/// file shows the diff inside it, rather than another thing to open.
#[test]
fn opening_a_folded_file_shows_its_diff() {
    let (diff, items) = View::of(&["git", "diff"], &[]).page(PATCH);
    let mut screen = screen_of(&diff, items);

    screen.toggle_all_sections();
    assert!(!shows(&diff, &screen, "added"));
    screen.toggle_section();

    assert!(shows(&diff, &screen, "added"));
}

/// A patch no command was found for is not something git can be asked for again,
/// so it stays exactly as it arrived.
#[test]
fn a_patch_with_no_command_stays_as_it_arrived() {
    let patch = format!("commit {OID}\n\n    add firstfile\n\n{PATCH}");
    let (diff, items) = piped(&patch);
    assert_eq!(diff.text, patch);
    let screen = screen_of(&diff, items);
    assert!(shows(&diff, &screen, "add firstfile"));
    assert!(shows(&diff, &screen, "+added"));
}

/// A log rendered by something that states where each commit begins is a log,
/// not a wall of text: its commits are targets.
#[test]
fn a_piped_log_with_commit_records_is_navigable() {
    let (diff, items) = piped(&format!(
        "\x1b]1717;1\x1b\\\x1b]1717;1;C;;;{OID}\x1b\\commit {OID}\n\
         Author: Author Name <author@email.com>\n\
         \n\
         \x20   add firstfile\n"
    ));
    let screen = screen_of(&diff, items);
    let item = screen.get_selected_item();
    assert!(
        matches!(&item.data, ItemData::Commit { oid, .. } if oid == OID),
        "got {:?}",
        item.data
    );
}

/// A renderer names the commit as git printed it, and most log formats print it
/// abbreviated.
#[test]
fn a_log_naming_its_commits_by_abbreviation_is_navigable() {
    let short = &OID[..7];
    let (diff, items) = piped(&format!(
        "\x1b]1717;1;C;;;{short}\x1b\\▸ {short} Author Name\n\
         \n\
         \x20   add firstfile\n"
    ));
    let screen = screen_of(&diff, items);
    let item = screen.get_selected_item();
    assert!(
        matches!(&item.data, ItemData::Commit { oid, .. } if oid == OID),
        "got {:?}",
        item.data
    );
}

/// A view is legitimately empty: `git diff --cached` with nothing staged is no
/// bytes at all. A screen with no rows must still answer what is selected, or
/// the next keypress indexes into nothing.
#[test]
fn a_key_press_on_an_empty_view_does_nothing() {
    let (diff, items) = piped("");
    let mut screen = screen_of(&diff, items);

    screen.go(Motion::Down);

    assert_eq!(screen.cursor, 0);
    assert!(screen.get_selected_item().unselectable);
}

/// The same view, reached the other way: everything it showed has been staged.
#[test]
fn a_key_press_after_staging_everything_does_nothing() {
    let view = View::of(&["git", "diff"], &[]);
    let (diff, items) = view.page(PATCH);
    let mut screen = screen_of(&diff, items);
    screen.go(Motion::Down);

    let (empty, items) = view.page("");
    let measured = layouts(&empty, &[Item::plain()]);
    screen.refresh(items, measured);
    screen.go(Motion::Down);

    assert_eq!(screen.cursor, 0);
}

/// A patch recognised as the working tree is the working tree, so staging from
/// it leaves the view showing what is still unstaged.
#[test]
fn a_staged_hunk_leaves_the_view_it_was_staged_from() {
    let view = View::of(&["git", "diff"], &[]);
    assert_eq!(view.git.diff_type(), DiffType::WorkdirToIndex);
    let (diff, items) = view.page(&answered(3));
    let mut screen = screen_of(&diff, items);
    assert!(shows(&diff, &screen, "changed"));

    let (empty, items) = view.page("");
    let measured = layouts(&empty, &[Item::plain()]);
    screen.refresh(items, measured);
    assert!(!shows(&empty, &screen, "changed"));
}

/// Output no structure is found in is still the renderer's to draw.
#[test]
fn output_with_no_structure_is_still_rendered() {
    let printed = Printed::read("rendered plain output\n");
    let items = rows(&printed, &vec![], &vec![], 0);
    assert_eq!(items[0].rendered.as_ref().unwrap()[0].0, "rendered plain output");
    assert!(!items[0].unselectable);
}

fn selected_rendered_row(diff: &Diff, screen: &Screen) -> String {
    row_text(diff, screen.get_selected_item())
}

/// `/` finds rendered text, and `n`/`N` repeat in either direction. Repeating
/// past an end wraps, as it does in a pager.
#[test]
fn rendered_text_can_be_searched() {
    let (diff, items) = piped("start\nmatch one\nmiddle\nmatch two\n");
    let mut screen = screen_of(&diff, items);

    screen.search("match", SearchDirection::Forward).unwrap();
    assert_eq!(selected_rendered_row(&diff, &screen), "match one");

    screen.search_repeat(false).unwrap();
    assert_eq!(selected_rendered_row(&diff, &screen), "match two");

    screen.search_repeat(false).unwrap();
    assert_eq!(selected_rendered_row(&diff, &screen), "match one");

    screen.search_repeat(true).unwrap();
    assert_eq!(selected_rendered_row(&diff, &screen), "match two");
}

/// Search patterns are regular expressions over the renderer's visible text,
/// not over its ANSI control sequences.
#[test]
fn search_is_a_regex_over_rendered_text() {
    let (diff, items) =
        piped("\x1b[31mfirst needle\x1b[0m\nsecond needle\nnot this\n");
    let mut screen = screen_of(&diff, items);

    screen
        .search(r"^second .*le$", SearchDirection::Forward)
        .unwrap();

    assert_eq!(selected_rendered_row(&diff, &screen), "second needle");
}

/// Folding changes presentation, not what the buffer contains: searching for
/// a hidden row opens its containing sections and lands on it.
#[test]
fn search_reveals_a_match_inside_a_fold() {
    let (diff, items) = View::of(&["git", "diff"], &[]).page(PATCH);
    let mut screen = screen_of(&diff, items);

    screen.toggle_all_sections();
    screen.search("added", SearchDirection::Forward).unwrap();

    assert!(
        matches!(screen.get_selected_item().data, ItemData::HunkLine { .. }),
        "search did not land on the changed line"
    );
    assert!(shows(&diff, &screen, "+added"));
}

/// And rendering it is what makes a log a log: git hands its pager an unmarked
/// wall of text, and the renderer is what says where each commit begins.
#[test]
fn a_raw_log_becomes_a_log_view_when_the_renderer_marks_commits() {
    let raw = format!("commit {OID}\nAuthor: Author Name\n\n    add firstfile\n");
    let (diff, items) = piped(&raw);
    assert!(matches!(
        screen_of(&diff, items).get_selected_item().data,
        ItemData::Raw(_)
    ));

    let marked = raw.replace("commit ", &format!("\x1b]1717;1;C;;;{OID}\x1b\\commit "));
    let (diff, items) = piped(&marked);
    assert!(matches!(
        &screen_of(&diff, items).get_selected_item().data,
        ItemData::Commit { oid, .. } if oid == OID
    ));
}

/// A commit whose message is taller than the screen leaves a run of rows with
/// nothing to select on it that is longer than a page. Paging into that run
/// must not be pulled back onto the commit above it: holding space reaches the
/// end of the stream.
#[test]
fn paging_past_a_commit_taller_than_the_screen_reaches_the_end() {
    let body: String = (1..=30).map(|i| format!("    body line {i}\n")).collect();
    let (diff, items) = piped(&format!(
        "\x1b]1717;1;C;;;{OID}\x1b\\commit {OID}\n\n    a tall commit\n\n{body}\
         \x1b]1717;1;C;;;ffffff\x1b\\commit ffffff\n\n    add initial-file\n"
    ));
    let mut screen = screen_of(&diff, items);
    for _ in 0..10 {
        screen.full_page_down();
    }

    assert!(
        shows(&diff, &screen, "add initial-file"),
        "paging stalled before the end"
    );
}

fn selected_hunk_line(screen: &Screen) -> Option<usize> {
    match screen.get_selected_item().data {
        ItemData::HunkLine { line_i, .. } => Some(line_i),
        _ => None,
    }
}

const CONTEXT_PATCH: &str = "diff --git a/firstfile b/firstfile\n\
                             index 1..2 100644\n\
                             --- a/firstfile\n\
                             +++ b/firstfile\n\
                             @@ -1,3 +1,3 @@\n\
                             \x20one\n\
                             -two\n\
                             +CHANGED\n\
                             \x20three\n";

/// A context line carries no change, so by default the cursor passes over it:
/// every line-level operation needs something to act on.
#[test]
fn context_lines_are_not_visited_by_default() {
    let (diff, items) = View::of(&["git", "diff"], &[]).page(CONTEXT_PATCH);
    let mut screen = screen_of(&diff, items);
    screen.select_matching(|data| matches!(data, ItemData::Hunk { .. }));
    screen.go(Motion::DownLine);

    assert_eq!(selected_hunk_line(&screen), Some(1));
}

/// Reading a patch is line-by-line, and skipping the unchanged lines makes the
/// cursor jump. It can be made to stop on all of them.
#[test]
fn context_lines_are_visited_when_configured() {
    let (diff, items) = page_stopping(vec![], CONTEXT_PATCH, None, true);
    let mut screen = screen_of(&diff, items);
    screen.select_matching(|data| matches!(data, ItemData::Hunk { .. }));

    for line_i in 0..4 {
        screen.go(Motion::DownLine);
        assert_eq!(selected_hunk_line(&screen), Some(line_i));
    }
}

/// A renderer's rows for the patch, each saying which line it is.
const RENDERED: &str = "\x1b]1717;1\x1b\\\n\
                        \x1b]1717;1;c;1;;firstfile\x1b\\ one\n\
                        \x1b]1717;1;d;2;2;firstfile\x1b\\-two\n\
                        \x1b]1717;1;a;2;;firstfile\x1b\\+CHANGED\n\
                        \x1b]1717;1;c;3;;firstfile\x1b\\ three\n";

/// And the renderer's rows are the same lines, so the cursor stops on the same
/// ones.
#[test]
fn rendered_context_lines_are_visited_when_configured() {
    let (_, items) = page_stopping(vec![], CONTEXT_PATCH, Some(RENDERED), false);
    assert!(items.iter().any(|item| item.rendered.is_some()));
    assert!(items.iter().any(|item| matches!(item.data, ItemData::HunkLine { .. })
        && item.unselectable));
    let (diff, items) = page_stopping(vec![], CONTEXT_PATCH, Some(RENDERED), true);
    assert!(items.iter().any(|item| item.rendered.is_some()));
    let mut screen = screen_of(&diff, items);
    screen.select_matching(|data| matches!(data, ItemData::Hunk { .. }));

    for line_i in 0..4 {
        screen.go(Motion::DownLine);
        assert_eq!(selected_hunk_line(&screen), Some(line_i));
    }
}

/// A re-render can lay the same text out in fewer rows. The viewport has to come
/// back up to the content it is now taller than, rather than stay where it was with
/// blank rows below it.
#[test]
fn a_shorter_rendering_still_fills_the_screen() {
    let lines = |step: usize| -> String {
        (1..=100)
            .step_by(step)
            .map(|i| format!("line {i}\n"))
            .collect()
    };
    let (diff, items) = piped(&lines(1));
    let mut screen = screen_of(&diff, items);
    screen.go(Motion::Bottom);
    // The two rows that are kept below the end of the content, and no more.
    assert!(screen.item_views().len() >= 18, "before the re-render");

    let (diff, items) = piped(&lines(2));
    let measured = layouts(&diff, &items);
    screen.refresh_keeping_position(items, measured);
    assert!(screen.item_views().len() >= 18);
}

/// The selected lines of a hunk are staged as one patch.
#[test]
fn stage_selected_lines() {
    let (diff, items) = View::of(&["git", "diff"], &[]).page(CONTEXT_PATCH);
    let mut screen = screen_of(&diff, items);
    screen.select_matching(|data| matches!(data, ItemData::HunkLine { line_i: 1, .. }));
    screen.extend_selection(true);
    match screen.selected_target() {
        ItemData::HunkLine { line_indices, .. } => assert_eq!(line_indices, [1, 2]),
        other => panic!("{other:?}"),
    }
}

/// The lines the selection covers are marked, so it is plain what is taken.
#[test]
fn selected_lines_are_marked() {
    let (diff, items) = View::of(&["git", "diff"], &[]).page(CONTEXT_PATCH);
    let mut screen = screen_of(&diff, items);
    screen.select_matching(|data| matches!(data, ItemData::HunkLine { line_i: 1, .. }));
    screen.extend_selection(true);
    let marked: Vec<String> = screen
        .item_views()
        .iter()
        .filter(|view| view.selected)
        .map(|view| row_text(&diff, &screen.items[view.item_index]))
        .collect();
    assert_eq!(marked, ["-two", "+CHANGED"]);
}

/// Moving away drops the selection, leaving just the cursor line.
#[test]
fn moving_on_drops_the_selection() {
    let (diff, items) = View::of(&["git", "diff"], &[]).page(CONTEXT_PATCH);
    let mut screen = screen_of(&diff, items);
    screen.select_matching(|data| matches!(data, ItemData::HunkLine { line_i: 1, .. }));
    screen.extend_selection(true);
    screen.go(Motion::UpLine);
    match screen.selected_target() {
        ItemData::HunkLine { line_indices, .. } => assert_eq!(line_indices, [1]),
        other => panic!("{other:?}"),
    }
}

/// The line under the cursor is what is staged.
#[test]
fn stage_removed_line() {
    let (diff, items) = View::of(&["git", "diff"], &[]).page(CONTEXT_PATCH);
    let mut screen = screen_of(&diff, items);
    screen.select_matching(|data| matches!(data, ItemData::Hunk { .. }));
    screen.go(Motion::DownLine);
    assert_eq!(row_text(&diff, screen.get_selected_item()), "-two");
    assert!(matches!(
        screen.selected_target(),
        ItemData::HunkLine { line_indices, .. } if line_indices == [1]
    ));
}

#[test]
fn stage_added_line() {
    let (diff, items) = View::of(&["git", "diff"], &[]).page(CONTEXT_PATCH);
    let mut screen = screen_of(&diff, items);
    screen.select_matching(|data| matches!(data, ItemData::Hunk { .. }));
    screen.go(Motion::DownLine);
    screen.go(Motion::DownLine);
    assert_eq!(row_text(&diff, screen.get_selected_item()), "+CHANGED");
    assert!(matches!(
        screen.selected_target(),
        ItemData::HunkLine { line_indices, .. } if line_indices == [2]
    ));
}

/// What ends a line isn't drawn as part of it.
#[test]
fn stage_changes_crlf() {
    let patch = "diff --git a/testfile b/testfile\n\
                 index 1..2 100644\n\
                 --- a/testfile\n\
                 +++ b/testfile\n\
                 @@ -1,2 +1,2 @@\n\
                 -testing\r\n\
                 +test\r\n\
                 \x20testtest\r\n";
    let (diff, items) = View::of(&["git", "diff"], &[]).page(patch);
    let texts: Vec<String> = items
        .iter()
        .filter(|item| matches!(item.data, ItemData::HunkLine { .. }))
        .map(|item| row_text(&diff, item))
        .collect();
    assert_eq!(texts, ["-testing", "+test", " testtest"]);
}

/// A diff has the same files and hunks however it is drawn.
#[test]
fn a_rendered_diff_has_the_same_headings() {
    let diff = Diff {
        text: CONTEXT_PATCH.to_string(),
        file_diffs: parse_diff(CONTEXT_PATCH),
    };
    let headings = |rendered: Option<&str>| -> Vec<(u64, usize, String)> {
        create_diff_items(&diff, 1, 3, false, &None, rendered)
            .iter()
            .filter(|item| matches!(item.data, ItemData::Delta { .. } | ItemData::Hunk { .. }))
            .map(|item| (item.id, item.depth, format!("{:?}", item.data)))
            .collect()
    };
    assert_eq!(headings(None).len(), 2);
    assert_eq!(headings(Some(RENDERED)), headings(None));
}

/// What a patch is a diff of decides which of its changes can be staged.
#[test]
fn a_working_tree_patch_admits_stage_and_not_unstage() {
    // git colours what it writes to its pager; the command survives that.
    let view = View::of(&["git", "-c", "color.diff=always", "diff"], &[]);
    assert_eq!(view.git.diff_type(), DiffType::WorkdirToIndex);
}

#[test]
fn an_index_patch_admits_unstage_and_not_stage() {
    let view = View::of(&["git", "diff", "--cached"], &[]);
    assert_eq!(view.git.diff_type(), DiffType::IndexToTree);
}

#[test]
fn a_commit_patch_admits_neither() {
    let view = View::of(&["git", "show", "HEAD"], &[]);
    assert_eq!(view.git.diff_type(), DiffType::TreeToTree);
}

/// What was answered in one checkout is kept with it, and not with another.
#[test]
fn command_history_is_scoped_to_the_worktree() {
    let kept = |dir: &str| {
        let mut prompt = Prompt::with_history(dir.to_string());
        prompt.start_history(Some(HistoryKind::GitCommand), "");
        prompt.remember("git diff HEAD").unwrap().dir
    };
    assert_eq!(kept("/main/.git"), "/main/.git");
    assert_ne!(kept("/main/.git"), kept("/main/.git/worktrees/other"));

    let mut prompt = Prompt::with_history("/main/.git/worktrees/other".to_string());
    prompt.state.value = "git diff".to_string();
    prompt.state.move_to(usize::MAX);
    prompt.start_history(Some(HistoryKind::GitCommand), "");
    prompt.handle_key(Key {
        code: KeyCode::Up,
        modifiers: NONE,
        kind: KeyKind::Press,
    });
    assert_eq!(prompt_line(&prompt), "git diff|");
}

/// The lines of a selection are taken back as one patch too.
#[test]
fn unstage_selected_lines() {
    let patch = "diff --git a/firstfile b/firstfile\n\
                 index 1..2 100644\n\
                 --- a/firstfile\n\
                 +++ b/firstfile\n\
                 @@ -1,2 +1,2 @@\n\
                 -testing\n\
                 -testtest\n\
                 +weehooo\n\
                 +blrergh\n";
    let (diff, items) = View::of(&["git", "diff", "--cached"], &[]).page(patch);
    let mut screen = screen_of(&diff, items);
    screen.select_matching(|data| matches!(data, ItemData::HunkLine { line_i: 0, .. }));
    screen.extend_selection(true);
    assert!(matches!(
        screen.selected_target(),
        ItemData::HunkLine { line_indices, .. } if line_indices == [0, 1]
    ));
}
