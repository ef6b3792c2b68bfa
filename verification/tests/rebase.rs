use gitu::item::Item;
use gitu::item_data::ItemData;
use gitu::log_items::CommitRecord;
use gitu::ops::editor::{quit, Quit};
use gitu::ops::rebase::{is_entry, move_entry, set_action, Follow, TodoOp};
use gitu::rebase_todo::{RebaseTodo, Source, TodoAction, TodoEntry};
use gitu::rendered_log::{
    action_prefixed, rebase_todo_items, rendered_commit_rows, rendered_commits, CommitRows,
    EntryRecord, TodoStyles,
};
use gitu::screen::{ItemLayout, Measure, Screen};
use gitu::style::{Color, Style, CROSSED_OUT};

const SUMMARIES: [&str; 3] = ["add third-file", "add second-file", "add first-file"];

fn oid(n: usize) -> String {
    format!("{n}{}", "a".repeat(39))
}

/// The interactive rebase of three commits, newest first.
fn todo() -> RebaseTodo {
    RebaseTodo {
        entries: (0..3)
            .map(|n| TodoEntry::Commit {
                action: TodoAction::Pick,
                oid: oid(n),
            })
            .collect(),
        source: Source::Captured {
            base: "main".into(),
            args: vec![],
            todo_file: "/tmp/list".into(),
            workdir: "/repo".into(),
        },
    }
}

fn record(oid: &str) -> EntryRecord {
    let n: usize = oid[..1].parse().unwrap();
    EntryRecord {
        id: 10 + n as u64,
        commit: Some(CommitRecord {
            id: 10 + n as u64,
            oid: oid.to_string(),
            short_id: oid[..7].to_string(),
            message: SUMMARIES[n].to_string(),
            summary: SUMMARIES[n].to_string(),
            author: "Author Name".into(),
            seconds: 0,
        }),
    }
}

fn records(todo: &RebaseTodo) -> Vec<EntryRecord> {
    todo.entries
        .iter()
        .map(|entry| match entry {
            TodoEntry::Commit { oid, .. } => record(oid),
            TodoEntry::Other(_) => EntryRecord {
                id: 99,
                commit: None,
            },
        })
        .collect()
}

fn styles() -> TodoStyles {
    TodoStyles {
        action: Style {
            fg: Some(Color::Yellow),
            ..Style::new()
        },
        hash: Style {
            fg: Some(Color::Blue),
            ..Style::new()
        },
    }
}

fn items(todo: &RebaseTodo, rows: &Vec<CommitRows>) -> Vec<Item> {
    rebase_todo_items(todo, &records(todo), rows, styles())
}

fn row_text(item: &Item) -> String {
    item.rendered
        .iter()
        .flatten()
        .map(|(text, _)| text.as_str())
        .collect()
}

fn texts(todo: &RebaseTodo) -> Vec<String> {
    items(todo, &vec![]).iter().map(row_text).collect()
}

fn layouts(items: &[Item]) -> Vec<ItemLayout> {
    items
        .iter()
        .map(|item| {
            let measure = || Measure {
                height: 1,
                runs: vec![row_text(item)],
            };
            ItemLayout {
                open: measure(),
                shut: measure(),
            }
        })
        .collect()
}

fn screen_of(todo: &RebaseTodo) -> Screen {
    let rows = items(todo, &vec![]);
    let measured = layouts(&rows);
    Screen::new((80, 20), &vec![], rows, measured)
}

/// Do what an operation did to the list on the screen.
fn follow(screen: &mut Screen, todo: &RebaseTodo, follow: Follow) {
    let rows = items(todo, &vec![]);
    let measured = layouts(&rows);
    screen.refresh(rows, measured);
    let select = follow.select;
    if !screen.select_matching_in_view(|data| is_entry(data, select)) {
        if let Some(otherwise) = follow.otherwise {
            screen.select_matching_in_view(|data| is_entry(data, otherwise));
        }
    }
}

fn selected(screen: &Screen) -> usize {
    TodoOp::Start
        .target(&screen.get_selected_item().data)
        .unwrap()
}

#[test]
fn rebase_todo() {
    assert_eq!(
        texts(&todo()),
        [
            "pick   0aaaaaa add third-file",
            "pick   1aaaaaa add second-file",
            "pick   2aaaaaa add first-file",
        ]
    );
    assert_eq!(selected(&screen_of(&todo())), 0);
}

#[test]
fn rebase_todo_move_down() {
    let mut todo = todo();
    let mut screen = screen_of(&todo);
    let to = move_entry(&mut todo, selected(&screen), 1);
    follow(&mut screen, &todo, to);
    assert_eq!(
        texts(&todo),
        [
            "pick   1aaaaaa add second-file",
            "pick   0aaaaaa add third-file",
            "pick   2aaaaaa add first-file",
        ]
    );
    assert_eq!(selected(&screen), 1);
}

#[test]
fn rebase_todo_move_up() {
    let mut todo = todo();
    let mut screen = screen_of(&todo);
    screen.select_matching(|data| is_entry(data, 1));
    let to = move_entry(&mut todo, selected(&screen), -1);
    follow(&mut screen, &todo, to);
    assert_eq!(selected(&screen), 0);
    assert!(texts(&todo)[0].contains("add second-file"));
}

#[test]
fn rebase_todo_move_down_stops_at_the_end() {
    let mut todo = todo();
    let mut screen = screen_of(&todo);
    screen.select_matching(|data| is_entry(data, 2));
    for _ in 0..2 {
        let to = move_entry(&mut todo, selected(&screen), 1);
        follow(&mut screen, &todo, to);
    }
    assert_eq!(selected(&screen), 2);
    assert!(texts(&todo)[2].contains("add first-file"));
}

#[test]
fn rebase_todo_mark_squash() {
    let mut todo = todo();
    let mut screen = screen_of(&todo);
    screen.select_matching(|data| is_entry(data, 1));
    let to = set_action(&mut todo, selected(&screen), TodoAction::Squash);
    follow(&mut screen, &todo, to);
    assert_eq!(texts(&todo)[1], "squash 1aaaaaa add second-file");
    // Marking works down the list.
    assert_eq!(selected(&screen), 2);
    let to = set_action(&mut todo, selected(&screen), TodoAction::Fixup);
    follow(&mut screen, &todo, to);
    assert_eq!(selected(&screen), 2);
}

#[test]
fn rebase_todo_quit_runs_nothing() {
    let mut todo = todo();
    set_action(&mut todo, 1, TodoAction::Drop);
    // The list lies over the screen it was opened from, and quitting closes it: that
    // neither asks anything nor starts the rebase.
    assert_eq!(quit(true, 2, true), Quit::CloseScreen);
    assert_eq!(quit(true, 2, false), Quit::CloseScreen);
    // What git would be given is only made by starting.
    assert_eq!(todo.start().text.lines().nth(1), Some(format!("drop {}", oid(1)).as_str()));
    assert_eq!(todo.entries.len(), 3);
}

#[test]
fn rebase_todo_drop_and_start() {
    let mut todo = todo();
    set_action(&mut todo, 1, TodoAction::Drop);
    let rows = items(&todo, &vec![]);
    let (text, style) = &rows[1].rendered.as_ref().unwrap()[0];
    assert_eq!(text, "drop   ");
    assert_eq!(style.add_modifier.bits, CROSSED_OUT);
    assert_eq!(style.fg, Some(Color::Yellow));
    assert_eq!(
        todo.start().text,
        format!("pick {}\ndrop {}\npick {}\n", oid(2), oid(1), oid(0))
    );
}

#[test]
fn rebase_todo_reorder_and_start() {
    let mut todo = todo();
    move_entry(&mut todo, 0, 1);
    let start = todo.start();
    assert_eq!(
        start.text,
        format!("pick {}\npick {}\npick {}\n", oid(2), oid(0), oid(1))
    );
    assert_eq!(start.command.unwrap().args, ["rebase", "-i", "main"]);
}

#[test]
fn rebase_todo_shows_the_log_renderer_rows() {
    // The commits look as they do in the log view, with the instruction in front.
    let output: String = (0..3)
        .map(|n| {
            format!(
                "\x1b]1717;1;C;;;{}\x1b\\\n\u{25b8} {} Author Name\n    {}\n",
                oid(n),
                &oid(n)[..7],
                SUMMARIES[n]
            )
        })
        .collect();
    let rows = rendered_commit_rows(rendered_commits(&output));
    assert_eq!(rows.len(), 3);

    let mut todo = todo();
    todo.entries
        .push(TodoEntry::Other("exec make test".into()));
    set_action(&mut todo, 1, TodoAction::Squash);
    let drawn: Vec<(String, usize, bool)> = items(&todo, &rows)
        .iter()
        .map(|item| (row_text(item), item.depth, item.unselectable))
        .collect();
    assert_eq!(drawn[3], (String::new(), 1, true));
    assert_eq!(
        drawn[4],
        ("squash \u{25b8} 1aaaaaa Author Name".to_string(), 1, false)
    );
    assert_eq!(drawn[5], ("    add second-file".to_string(), 2, true));
    assert_eq!(drawn[9], ("exec make test".to_string(), 1, false));
    assert!(rendered_commit_rows(None).is_empty());
}

#[test]
fn the_last_rows_given_for_a_commit_are_its_rows() {
    let rows = vec![
        CommitRows {
            oid: oid(0),
            rows: vec![vec![("first".to_string(), Style::new())]],
        },
        CommitRows {
            oid: oid(0),
            rows: vec![vec![("last".to_string(), Style::new())]],
        },
    ];
    let drawn = items(&todo(), &rows);
    assert_eq!(row_text(&drawn[0]), "pick   last");
    assert_eq!(row_text(&drawn[1]), "pick   1aaaaaa add second-file");
}

#[test]
fn a_commit_that_cannot_be_found_shows_its_id() {
    let mut held = records(&todo());
    held[0].commit = None;
    let drawn = rebase_todo_items(&todo(), &held, &vec![], styles());
    assert_eq!(row_text(&drawn[0]), format!("pick   {}", oid(0)));
    assert!(matches!(
        drawn[0].data,
        ItemData::RebaseTodo { index: 0 }
    ));
}

#[test]
fn an_action_stands_in_front_of_a_row() {
    let row = vec![("row".to_string(), Style::new())];
    let prefixed = action_prefixed(Some(TodoAction::Reword), &row, Style::new());
    assert_eq!(prefixed[0].0, "reword ");
    assert_eq!(prefixed[1], row[0]);
    assert_eq!(action_prefixed(None, &row, Style::new()), row);
}

#[test]
fn commands_on_the_list_say_what_they_do() {
    assert_eq!(TodoOp::MoveEntry(-1).display(), "Move up");
    assert_eq!(TodoOp::MoveEntry(1).display(), "Move down");
    assert_eq!(TodoOp::SetAction(TodoAction::Drop).display(), "drop");
    assert_eq!(TodoOp::Start.display(), "Start rebase");
    assert_eq!(TodoOp::Start.target(&ItemData::Raw("x".into())), None);
}

/// Every entry that says anything can be selected, in the order of the list, even one
/// that is nothing but a rule.
#[test]
fn every_entry_can_be_reached() {
    let mut todo = todo();
    todo.entries.insert(1, TodoEntry::Other("\u{2500}".into()));
    todo.entries.insert(3, TodoEntry::Other("  ".into()));
    let rows = rendered_commit_rows(rendered_commits(&format!(
        "\x1b]1717;1;C;;;{}\x1b\\\n\u{2500}\n  stat\n",
        oid(2)
    )));
    let items = items(&todo, &rows);
    let reached: Vec<(usize, usize)> = items
        .iter()
        .filter(|item| !item.unselectable)
        .map(|item| match item.data {
            ItemData::RebaseTodo { index } => (index, item.depth),
            ref other => panic!("{other:?}"),
        })
        .collect();
    assert_eq!(reached, [(0, 1), (1, 1), (2, 1), (4, 1)]);
    let said = |index: usize| -> String {
        items
            .iter()
            .find(|item| is_entry(&item.data, index))
            .and_then(|item| item.rendered.as_ref())
            .unwrap()
            .iter()
            .map(|(text, _)| text.as_str())
            .collect()
    };
    assert_eq!(said(1), "\u{2500}");
    assert_eq!(said(4), "pick     stat");
}
