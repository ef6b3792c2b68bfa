use gitu::frame::NavMode;
use gitu::item::Item;
use gitu::item_data::{ItemData, Ref};
use gitu::log_items::{
    commit_refs, is_wanted, log, log_wanted, short_age, stash_list, wanted_entries, CommitRecord,
    CommitRef, LogEntry, ReferenceRecord, StashRecord,
};
use gitu::ops::editor::{set_arg_value, toggle_arg, Arg, ArgValue, Motion, Toggle};
use gitu::render_command::output_of;
use gitu::rendered_log::{
    log_command, rendered_commits, rendered_log_args, rendered_log_items, RenderedCommit,
};
use gitu::screen::{ItemLayout, Measure, Screen};
use gitu::screen_search::matcher;

const NOW: i64 = 1_700_000_000;

fn record(n: u64, summary: &str) -> CommitRecord {
    let oid = format!("{n}{}", "0".repeat(39));
    CommitRecord {
        id: n,
        short_id: oid[..7].to_string(),
        oid,
        message: format!("{summary}\n"),
        summary: summary.to_string(),
        author: "Author Name".to_string(),
        seconds: NOW - 3600 * n as i64,
    }
}

/// The commits of a branch, newest first.
fn commits() -> Vec<CommitRecord> {
    vec![
        record(4, "first commit"),
        record(3, "second commit"),
        record(2, "third commit"),
        record(1, "add initial-file"),
    ]
}

fn entries() -> Vec<LogEntry> {
    commits().into_iter().map(LogEntry::Commit).collect()
}

fn summaries(items: &[Item]) -> Vec<String> {
    items
        .iter()
        .map(|item| match &item.data {
            ItemData::Commit { summary, .. } => summary.clone(),
            ItemData::Raw(text) => format!("raw: {text}"),
            ItemData::Error(text) => format!("error: {text}"),
            other => panic!("{other:?}"),
        })
        .collect()
}

/// The arguments of the log menu.
fn log_menu() -> Vec<Arg> {
    vec![
        Arg {
            name: "-n".into(),
            display: "Limit number of commits".into(),
            value: ArgValue::Value {
                value: None,
                default: Some("256".into()),
            },
        },
        Arg {
            name: "--grep".into(),
            display: "Search messages".into(),
            value: ArgValue::Value {
                value: None,
                default: None,
            },
        },
        Arg {
            name: "--graph".into(),
            display: "Graph".into(),
            value: ArgValue::Flag { active: false },
        },
    ]
}

fn value_of(args: &[Arg], name: &str) -> Option<String> {
    args.iter()
        .find(|arg| arg.name == name)
        .and_then(|arg| match &arg.value {
            ArgValue::Value { value, .. } => value.clone(),
            ArgValue::Flag { active } => active.then_some(String::new()),
        })
}

#[test]
fn limit_prompt() {
    let mut args = log_menu();
    match toggle_arg(&mut args, "-n") {
        Toggle::Ask { prompt, default } => {
            assert_eq!(prompt, "Limit number of commits");
            assert_eq!(default.as_deref(), Some("256"));
        }
        Toggle::Done => panic!("a value has to be asked for"),
    }
    assert_eq!(value_of(&args, "-n"), None);
}

/// Give an argument a value that needs no reading.
fn given(args: &mut Vec<Arg>, name: &str, value: &str) {
    let read: Result<String, String> = Ok(value.to_string());
    assert_eq!(set_arg_value(args, name, read), Ok(()));
}

/// A limit that is no number is refused, and none is set.
#[test]
fn limit_invalid() {
    let mut args = log_menu();
    toggle_arg(&mut args, "-n");
    assert!(matches!(
        toggle_arg(&mut args, "-n"),
        Toggle::Ask { .. }
    ));
    let read = "fff".parse::<u32>().map(|limit| limit.to_string());
    assert!(set_arg_value(&mut args, "-n", read.clone()).is_err());
    assert_eq!(value_of(&args, "-n"), None);
    assert_eq!(set_arg_value(&mut args, "--missing", read), Ok(()));
}

#[test]
fn limit_set_10() {
    let mut args = log_menu();
    toggle_arg(&mut args, "-n");
    given(&mut args, "-n", "10");
    assert_eq!(value_of(&args, "-n").as_deref(), Some("10"));

    // Toggling it again takes it back.
    assert!(matches!(toggle_arg(&mut args, "-n"), Toggle::Done));
    assert_eq!(value_of(&args, "-n"), None);
}

/// The limit the log menu is given.
fn limit_given(value: &str) -> usize {
    let mut args = log_menu();
    assert!(matches!(toggle_arg(&mut args, "-n"), Toggle::Ask { .. }));
    given(&mut args, "-n", value);
    value_of(&args, "-n").unwrap().parse().unwrap()
}

#[test]
fn limit_2_commits() {
    let items = log(&entries(), &vec![], limit_given("2"), None, NOW);
    assert_eq!(summaries(&items), ["first commit", "second commit"]);
}

#[test]
fn limit_2_commits_other() {
    let items = log(&entries(), &vec![], limit_given("2"), None, NOW);
    assert_eq!(summaries(&items), ["first commit", "second commit"]);
    // No more of the history is needed than that.
    let read: Vec<LogEntry> = entries().into_iter().take(2).collect();
    assert!(read.iter().all(|entry| is_wanted(entry, None)));
    let items = log(&read, &vec![], limit_given("2"), None, NOW);
    assert_eq!(summaries(&items), ["first commit", "second commit"]);
}

#[test]
fn grep_prompt() {
    let mut args = log_menu();
    assert!(matches!(
        toggle_arg(&mut args, "--grep"),
        Toggle::Ask { default: None, .. }
    ));
}

#[test]
fn grep_set_example() {
    let mut args = log_menu();
    toggle_arg(&mut args, "--grep");
    given(&mut args, "--grep", "example");
    assert_eq!(value_of(&args, "--grep").as_deref(), Some("example"));
}

#[test]
fn a_flag_is_toggled_without_asking() {
    let mut args = log_menu();
    assert!(matches!(toggle_arg(&mut args, "--graph"), Toggle::Done));
    assert_eq!(value_of(&args, "--graph").as_deref(), Some(""));
    assert!(matches!(toggle_arg(&mut args, "--graph"), Toggle::Done));
    assert_eq!(value_of(&args, "--graph"), None);
    assert!(matches!(toggle_arg(&mut args, "--missing"), Toggle::Done));
}

#[test]
fn grep_second() {
    let regex = matcher("second").unwrap();
    let items = log(&entries(), &vec![], 256, Some(&regex), NOW);
    assert_eq!(summaries(&items), ["second commit"]);
}

#[test]
fn grep_no_match() {
    let regex = matcher("doesntexist").unwrap();
    let items = log(&entries(), &vec![], 256, Some(&regex), NOW);
    assert_eq!(summaries(&items), ["raw: No commits found"]);
}

#[test]
fn grep_second_other() {
    let regex = matcher("second").unwrap();
    let from_main = entries();
    let items = log(&from_main, &vec![], 256, Some(&regex), NOW);
    assert_eq!(summaries(&items), ["second commit"]);
    assert_eq!(
        rendered_log_args(256, Some(&regex), &Some("main".into())),
        ["-n256", "--extended-regexp", "--grep=second", "main"]
    );
}

#[test]
fn what_went_wrong_in_between_is_listed() {
    let mut read = entries();
    read.insert(
        1,
        LogEntry::Failed {
            id: 9,
            error: "bad object".into(),
        },
    );
    let regex = matcher("first").unwrap();
    let items = log(&read, &vec![], 256, Some(&regex), NOW);
    assert_eq!(summaries(&items), ["first commit", "error: bad object"]);
    assert_eq!(items[0].depth, 1);
    assert_eq!(items[1].depth, 0);
}

#[test]
fn ages_are_told_in_their_largest_unit() {
    let age = |seconds: i64| short_age(NOW, NOW - seconds);
    assert_eq!(age(0), "0m");
    assert_eq!(age(-100), "0m");
    assert_eq!(age(3599), "59m");
    assert_eq!(age(3600), "1h");
    assert_eq!(age(2 * 86400), "2d");
    assert_eq!(age(8 * 86400), "1w");
    assert_eq!(age(31 * 86400), "1M");
    assert_eq!(age(800 * 86400), "2y");
}

#[test]
fn commits_are_annotated_with_what_leads_to_them() {
    let reference = |target: Option<&str>, name: &str, is_remote, is_tag| ReferenceRecord {
        target: target.map(String::from),
        shorthand: Some(name.into()),
        is_remote,
        is_tag,
    };
    let oid = record(4, "").oid;
    let refs: Vec<CommitRef> = commit_refs(&vec![
        reference(Some(&oid), "main", false, false),
        reference(Some(&oid), "v1", false, true),
        reference(Some(&oid), "origin/main", true, false),
        reference(Some(&oid), "origin/HEAD", true, false),
        reference(None, "gone", false, false),
    ]);
    let items = log(&entries(), &refs, 1, None, NOW);
    match &items[0].data {
        ItemData::Commit {
            associated_references,
            short_id,
            age,
            author,
            ..
        } => {
            assert_eq!(
                associated_references,
                &[
                    Ref::Head("main".into()),
                    Ref::Tag("v1".into()),
                    Ref::Remote("origin/main".into()),
                ]
            );
            assert_eq!(short_id, "4000000");
            assert_eq!(age, "4h");
            assert_eq!(author, "Author Name");
        }
        other => panic!("{other:?}"),
    }
}

#[test]
fn stashes_are_listed_up_to_a_limit() {
    let stash = |id, message: Option<&str>| StashRecord {
        id,
        message: message.map(String::from),
    };
    let stashes = vec![
        stash(7, Some("WIP on main")),
        stash(8, None),
        stash(9, Some("older")),
    ];
    let items = stash_list(&stashes, 2);
    assert_eq!(items.len(), 2);
    match &items[0].data {
        ItemData::Stash {
            message, stash_ref, ..
        } => {
            assert_eq!(message, "WIP on main");
            assert_eq!(stash_ref, "stash@{0}");
        }
        other => panic!("{other:?}"),
    }
    assert_eq!(items[0].depth, 1);
}

/// What a log command prints for the commits, with a record before each.
fn printed(format: fn(&CommitRecord) -> String) -> String {
    commits()
        .iter()
        .map(|commit| format!("\x1b]1717;1;C;;;{}\x1b\\{}", commit.oid, format(commit)))
        .collect()
}

/// Each commit over several rows.
fn multi_row(commit: &CommitRecord) -> String {
    format!(
        "\n\u{25b8} {} {}\n    {}\n",
        commit.short_id, commit.author, commit.summary
    )
}

fn resolve(blocks: &[RenderedCommit]) -> Vec<Option<CommitRecord>> {
    blocks
        .iter()
        .map(|block| {
            block.oid.as_ref().and_then(|oid| {
                commits()
                    .into_iter()
                    .find(|commit| commit.oid.starts_with(oid.as_str()))
            })
        })
        .collect()
}

fn rendered_items(output: &str) -> Vec<Item> {
    let blocks = rendered_commits(output).unwrap();
    let found = resolve(&blocks);
    rendered_log_items(&blocks, &found, &vec![], NOW)
}

fn row_text(item: &Item) -> String {
    item.rendered
        .iter()
        .flatten()
        .map(|(text, _)| text.as_str())
        .collect()
}

fn screen_of(items: Vec<Item>) -> Screen {
    let layouts = items
        .iter()
        .map(|item| {
            let measure = || Measure {
                height: 1,
                runs: vec![row_text(item)],
            };
            ItemLayout {
                open: measure(),
                shut: measure(),
            }
        })
        .collect();
    Screen::new((80, 20), &vec![], items, layouts)
}

fn selected_oid(screen: &Screen) -> String {
    match &screen.get_selected_item().data {
        ItemData::Commit { oid, .. } => oid.clone(),
        other => panic!("{other:?}"),
    }
}

#[test]
fn rendered_log() {
    let items = rendered_items(&printed(multi_row));
    let rows: Vec<String> = items.iter().map(row_text).collect();
    assert_eq!(
        rows[..4],
        [
            "",
            "\u{25b8} 4000000 Author Name",
            "    first commit",
            ""
        ]
    );
    assert_eq!(items.len(), 12);
    assert!(items[0].unselectable);
    assert!(!items[1].unselectable);
    assert_eq!((items[0].depth, items[1].depth, items[2].depth), (1, 1, 2));
    let screen = screen_of(items);
    assert_eq!(selected_oid(&screen), record(4, "").oid);
}

#[test]
fn rendered_log_move_down_steps_a_whole_commit() {
    let mut screen = screen_of(rendered_items(&printed(multi_row)));
    screen.select_next(NavMode::Normal);
    screen.select_next(NavMode::Normal);
    assert_eq!(selected_oid(&screen), record(2, "").oid);
}

#[test]
fn rendered_log_move_next_section_steps_a_whole_commit() {
    let mut screen = screen_of(rendered_items(&printed(multi_row)));
    screen.go(Motion::NextSection);
    screen.go(Motion::NextSection);
    assert_eq!(selected_oid(&screen), record(2, "").oid);
}

#[test]
fn rendered_log_move_prev_section_steps_a_whole_commit() {
    let mut screen = screen_of(rendered_items(&printed(multi_row)));
    screen.go(Motion::Down);
    screen.go(Motion::Down);
    screen.go(Motion::PrevSection);
    assert_eq!(selected_oid(&screen), record(3, "").oid);
}

#[test]
fn rendered_log_fold_hides_the_commit_rows() {
    let mut screen = screen_of(rendered_items(&printed(multi_row)));
    screen.toggle_section();
    assert_eq!(screen.visible_items()[..4], [0, 1, 3, 4]);
}

#[test]
fn rendered_log_show_acts_on_the_selected_commit() {
    let mut screen = screen_of(rendered_items(&printed(multi_row)));
    screen.go(Motion::Down);
    match screen.selected_target() {
        ItemData::Commit { summary, .. } => assert_eq!(summary, "second commit"),
        other => panic!("{other:?}"),
    }
}

#[test]
fn rendered_log_copy_hash_of_the_selected_commit() {
    let mut screen = screen_of(rendered_items(&printed(multi_row)));
    screen.go(Motion::Down);
    assert_eq!(selected_oid(&screen), record(3, "").oid);
}

#[test]
fn rendered_log_with_stat() {
    // Extra rows a commit prints after its message stay part of that commit.
    let mut screen = screen_of(rendered_items(&printed(|commit| {
        format!(
            "\n\u{25b8} {} {}\n\n file | 0\n 1 file changed\n",
            commit.short_id, commit.summary
        )
    })));
    screen.go(Motion::Down);
    assert_eq!(selected_oid(&screen), record(3, "").oid);
    assert_eq!(screen.cursor, 6);
}

#[test]
fn rendered_log_limit() {
    assert_eq!(rendered_log_args(2, None, &None), ["-n2", "HEAD"]);
    // More than git takes for a limit is none.
    assert_eq!(rendered_log_args(u32::MAX as usize, None, &None), ["HEAD"]);
    assert_eq!(
        rendered_log_args(i32::MAX as usize, None, &None),
        ["-n2147483647", "HEAD"]
    );
}

#[test]
fn rendered_log_grep() {
    let regex = matcher("second").unwrap();
    assert_eq!(
        rendered_log_args(256, Some(&regex), &None),
        ["-n256", "--extended-regexp", "--grep=second", "HEAD"]
    );
}

#[test]
fn rendered_log_other_rev() {
    let command = vec![
        "git".to_string(),
        "log".to_string(),
        "--format={commit}%n%s {commit}".to_string(),
    ];
    let args = rendered_log_args(256, None, &Some("main~1".into()));
    assert_eq!(
        log_command(&command, &args),
        [
            "git",
            "log",
            "--format=%x1b]1717;1;C;;;%H%x1b\\%n%s %x1b]1717;1;C;;;%H%x1b\\",
            "-n256",
            "main~1"
        ]
    );
}

#[test]
fn rendered_log_without_commit_marker_falls_back() {
    assert!(rendered_commits("4000000 first commit\n3000000 second commit\n").is_none());
}

#[test]
fn rendered_log_empty_branch_falls_back() {
    // The log command exits non-zero where nothing has been committed yet, and
    // whatever it printed is no log.
    let printed = printed(multi_row);
    assert!(output_of(false, printed.as_bytes()).is_none());
    assert!(output_of(true, printed.as_bytes())
        .and_then(|output| rendered_commits(&output))
        .is_some());
    // One that printed nothing listed no commits.
    assert!(output_of(true, b"")
        .and_then(|output| rendered_commits(&output))
        .is_none());
    assert_eq!(
        summaries(&log(&vec![], &vec![], 256, None, NOW)),
        ["raw: No commits found"]
    );
}

#[test]
fn rendered_log_divider_is_not_the_cursor_line() {
    // A renderer that draws a rule above each commit.
    let items = rendered_items(&printed(|commit| {
        format!(
            "\n\u{2500}\u{2500}\u{2500}\u{2500}\u{2500}\n\u{25b8} {} {}\n",
            commit.short_id, commit.summary
        )
    }));
    assert_eq!(row_text(&items[1]), "\u{2500}\u{2500}\u{2500}\u{2500}\u{2500}");
    assert!(items[1].unselectable);
    assert_eq!((items[1].depth, items[2].depth), (1, 1));
    let mut screen = screen_of(items);
    screen.go(Motion::Down);
    assert_eq!(row_text(screen.get_selected_item()), "\u{25b8} 3000000 second commit");
}

/// A commit that was drawn as nothing but rules can still be selected, on the first of
/// them; one drawn as blank rows only can't.
#[test]
fn a_commit_of_rules_only_is_selected_on_the_first() {
    let items = rendered_items(&printed(|_| "\n\u{2500}\u{2500}\n\u{2500}\n".to_string()));
    let selectable: Vec<(String, usize)> = items
        .iter()
        .filter(|item| !item.unselectable)
        .map(|item| (row_text(item), item.depth))
        .collect();
    assert_eq!(selectable.len(), commits().len());
    assert!(selectable
        .iter()
        .all(|(text, depth)| text == "\u{2500}\u{2500}" && *depth == 1));
    assert_eq!(items[0].depth, 1);
    assert_eq!((row_text(&items[2]).as_str(), items[2].depth), ("\u{2500}", 2));
    assert!(items[2].unselectable);

    let items = rendered_items(&printed(|_| "\n  \n".to_string()));
    assert!(items.iter().all(|item| item.unselectable));
}

#[test]
fn rendered_log_keeps_the_first_commit_when_the_renderer_greets_on_its_line() {
    // A renderer emits its handshake as its first output, which shares a line with
    // the marker a format puts at the very start. The newest commit must still be a
    // commit: selectable, cursor on it.
    let output = format!(
        "\x1b]1717;1\x1b\\{}",
        printed(|commit| format!("\n───\n▸ {} {}\n", commit.short_id, commit.summary))
    );
    let screen = screen_of(rendered_items(&output));
    assert_eq!(selected_oid(&screen), record(4, "").oid);
}

#[test]
fn rows_of_no_commit_are_only_rows() {
    let output = format!("greeting\n{}", printed(multi_row));
    let items = rendered_items(&output);
    assert_eq!(row_text(&items[0]), "greeting");
    assert!(items[0].unselectable);
    assert_eq!((items[0].id, items[0].depth), (0, 1));

    // Nor are those of a commit that can't be found.
    let unknown = rendered_items("\x1b]1717;1;C;;;ffff\x1b\\rows\n");
    assert!(unknown[0].unselectable);
}

#[test]
fn tabs_are_drawn_as_blanks() {
    let items = rendered_items(&printed(|commit| format!("\t{}\n", commit.summary)));
    assert_eq!(row_text(&items[0]), "    first commit");
}

/// What is shown follows from which entries are wanted, whatever decided that.
#[test]
fn a_log_shows_what_is_wanted_up_to_its_limit() {
    let read = entries();
    let wanted: Vec<bool> = (0..read.len()).map(|i| i != 1).collect();
    let all = summaries(&log(&read, &vec![], 100, None, NOW));
    let mut expected = all.clone();
    expected.remove(1);
    assert_eq!(
        summaries(&log_wanted(&read, &wanted, &vec![], 100, NOW)),
        expected
    );
    assert_eq!(
        summaries(&log_wanted(&read, &wanted, &vec![], 1, NOW)),
        expected[..1]
    );
    let none = vec![false; read.len()];
    assert_eq!(
        summaries(&log_wanted(&read, &none, &vec![], 100, NOW)),
        ["raw: No commits found"]
    );
    assert_eq!(wanted_entries(&read, None), vec![true; read.len()]);
}

/// A log with no items at all is a screen that can be walked over.
#[test]
fn log_empty_branch() {
    let measure = || Measure {
        height: 1,
        runs: vec![String::new()],
    };
    let layout = ItemLayout {
        open: measure(),
        shut: measure(),
    };
    let mut screen = Screen::new((80, 20), &vec![], vec![], vec![layout]);
    assert!(screen.get_selected_item().unselectable);
    screen.go(Motion::Down);
    assert_eq!(screen.cursor, 0);
}
