use gitu::cli::{check_input, git_dir, Args, InputError, Startup};
use gitu::item::Item;
use gitu::item_data::{ItemData, SectionHeader};
use gitu::log_items::{log, CommitRecord, LogEntry};
use gitu::ops::commit::{
    commit_cmd, commit_fixup_cmd, commit_picker_items, init_args, parent, picker_cursor,
    rebase_autosquash_cmd, selected_commit_oid, CommitKind, COMMIT_PICKER_LIMIT,
};
use gitu::ops::editor::{
    confirmed, feature_choices, picked_commit, quit as quit_step, toggled, Motion, Quit,
    CONFIRM_QUIT,
};
use gitu::ops::status::goto_status_screen;
use gitu::render_command::offered_features;
use gitu::screen::{ItemLayout, Measure, Screen};
use gitu::text_input::{Key, KeyCode, KeyKind, Modifiers};
use gitu::tide;

fn strings(words: &[&str]) -> Vec<String> {
    words.iter().map(|word| (*word).to_owned()).collect()
}

/// Quitting, with the keys that are pressed on the way: `h` opens a menu, and `y`
/// answers what is asked.
fn quits(keys: &str, confirm: bool) -> bool {
    let mut on_base_menu = true;
    let mut asked = false;
    for key in keys.chars() {
        match key {
            'h' => on_base_menu = false,
            'q' => match quit_step(on_base_menu, 1, confirm) {
                Quit::Quit => return true,
                Quit::Confirm => asked = true,
                Quit::Nothing | Quit::CloseScreen => on_base_menu = true,
            },
            answer if asked => return confirmed(answer) == Quit::Quit,
            _ => unreachable!(),
        }
    }
    false
}

#[test]
fn quit() {
    assert!(quits("q", false));
}

#[test]
fn quit_from_menu() {
    assert!(!quits("hq", false));
}

#[test]
fn confirm_quit_prompt() {
    assert!(!quits("q", true));
    assert_eq!(CONFIRM_QUIT, "Really quit? (y or n)");
}

#[test]
fn confirm_quit() {
    assert!(quits("qy", true));
    assert!(!quits("qn", true));
}

#[test]
fn quitting_closes_all_screens_but_the_last() {
    assert_eq!(quit_step(true, 2, true), Quit::CloseScreen);
    assert_eq!(quit_step(false, 2, true), Quit::Nothing);
    assert_eq!(quit_step(true, 1, false), Quit::Quit);
}

fn text_of(item: &Item) -> String {
    match &item.data {
        ItemData::Raw(text) => text.clone(),
        ItemData::Header(header) => format!("{header:?}"),
        other => format!("{other:?}"),
    }
}

/// Unstaged changes to three files, of twenty lines each.
fn changed_files() -> Screen {
    let mut items = vec![Item {
        id: 1,
        data: ItemData::Header(SectionHeader::UnstagedChanges),
        ..Item::plain()
    }];
    for file in 1..=3 {
        items.push(Item {
            id: 10 * file,
            depth: 1,
            data: ItemData::Delta {
                diff: 1,
                file_i: file as usize,
                commit: None,
            },
            ..Item::plain()
        });
        for line in 1..=20 {
            items.push(Item {
                id: 1000 * file + line,
                depth: 2,
                data: ItemData::Raw(format!("line {line} (file-{file})")),
                ..Item::plain()
            });
        }
    }
    let layouts = items
        .iter()
        .map(|item| {
            let measure = || Measure {
                height: 1,
                runs: vec![text_of(item)],
            };
            ItemLayout {
                open: measure(),
                shut: measure(),
            }
        })
        .collect();
    Screen::new((80, 20), &vec![], items, layouts)
}

/// What is drawn, row by row.
fn buffer(screen: &Screen) -> Vec<(String, bool, bool)> {
    screen
        .item_views()
        .iter()
        .map(|view| {
            (
                text_of(&screen.items[view.item_index]),
                view.highlighted,
                view.selected,
            )
        })
        .collect()
}

fn shows(screen: &Screen, text: &str) -> bool {
    buffer(screen).iter().any(|(row, _, _)| row.contains(text))
}

/// One key folds the whole view down to its headings, and opens it again.
#[test]
fn folding_everything_and_opening_it_again() {
    let mut screen = changed_files();

    screen.toggle_all_sections();
    assert!(!shows(&screen, "file-1"));
    assert!(shows(&screen, "UnstagedChanges"));
    screen.toggle_all_sections();
    assert!(shows(&screen, "line 1 (file-1)"));
}

/// A page is a whole viewport, which is two half pages.
#[test]
fn a_page_is_a_whole_viewport() {
    let mut halves = changed_files();
    halves.go(Motion::HalfPageDown);
    halves.go(Motion::HalfPageDown);

    let mut page = changed_files();
    page.go(Motion::FullPageDown);

    assert_eq!(buffer(&page), buffer(&halves));
}

#[test]
fn a_page_down_and_a_page_up_come_back() {
    let mut screen = changed_files();
    let before = buffer(&screen);

    screen.go(Motion::FullPageDown);
    let paged = buffer(&screen);
    screen.go(Motion::FullPageUp);

    assert_ne!(paged, before, "page down did not scroll");
    assert_eq!(buffer(&screen), before, "page up did not come back");
}

/// Paging on and back again is where it was, however it is asked for.
#[test]
fn space_turns_the_page() {
    let mut by_key = changed_files();
    for motion in [Motion::FullPageDown, Motion::FullPageDown, Motion::FullPageUp] {
        by_key.go(motion);
    }
    let mut once = changed_files();
    once.go(Motion::FullPageDown);
    assert_eq!(buffer(&by_key), buffer(&once));
}

#[test]
fn sections_are_moved_between() {
    let mut screen = changed_files();
    screen.go(Motion::Down);
    screen.go(Motion::NextSection);
    assert_eq!(screen.cursor, 22);
    screen.go(Motion::PrevSection);
    assert_eq!(screen.cursor, 1);
    screen.go(Motion::ParentSection);
    assert_eq!(screen.cursor, 0);
    screen.go(Motion::Bottom);
    assert_eq!(screen.cursor, 63);
    screen.go(Motion::Top);
    assert_eq!(screen.cursor, 0);
    screen.go(Motion::ToScreenLine(4));
    assert_eq!(screen.cursor, 4);
    screen.go(Motion::ScrollViewDown);
    assert_eq!(screen.scroll.item_anchor, 1);
    screen.go(Motion::ScrollViewUp);
    assert_eq!(screen.scroll.item_anchor, 0);
    screen.go(Motion::DownLine);
    screen.go(Motion::UpLine);
    screen.go(Motion::Up);
    assert_eq!(screen.cursor, 3);
    screen.go(Motion::HalfPageUp);
    assert_eq!(screen.cursor, 0);
}

#[test]
fn motions_and_toggles_say_what_they_do() {
    assert_eq!(Motion::HalfPageDown.display(), "Scroll half page down");
    assert_eq!(Motion::ToScreenLine(3).display(), "Move to line");
    let mut screen = changed_files();
    assert_eq!(screen.toggle_section_label(), "Fold");
    screen.toggle_section();
    assert_eq!(screen.toggle_section_label(), "Unfold");
    assert_eq!(screen.toggle_menu_label(), "Show keys");
    screen.toggle_menu();
    assert!(screen.show_menu);
    assert_eq!(screen.toggle_menu_label(), "Hide keys");
}

#[test]
fn renderer_features_offers_the_configured_ones() {
    let offered = offered_features(&strings(&["side-by-side", "line-numbers"]), &vec![]);
    let choices = feature_choices(&offered, &vec![]);
    let shown: Vec<&str> = choices.iter().map(|c| c.display.as_str()).collect();
    assert_eq!(shown, ["  side-by-side", "  line-numbers"]);
}

/// The features the user defined for themselves are theirs to choose from too,
/// without their having to name them twice.
#[test]
fn renderer_features_offers_those_defined_in_git_config() {
    let offered = offered_features(
        &strings(&["side-by-side"]),
        &strings(&["delta.my-theme.syntax-theme"]),
    );
    let choices = feature_choices(&offered, &vec![]);
    let features = toggled(&vec![], &choices[1].feature);
    assert_eq!(features, ["my-theme"]);
}

#[test]
fn choosing_a_renderer_feature_marks_it() {
    // Picking `side-by-side` turns it on; re-opening shows it marked, and
    // picking it again turns it back off.
    let offered = strings(&["side-by-side"]);
    let features = toggled(&vec![], "side-by-side");
    assert_eq!(features, ["side-by-side"]);
    assert_eq!(
        feature_choices(&offered, &features)[0].display,
        "● side-by-side"
    );

    assert!(
        toggled(&features, "side-by-side").is_empty(),
        "picking it again turns it off"
    );
    assert_eq!(toggled(&strings(&["a", "b"]), "a"), ["b"]);
    assert_eq!(toggled(&strings(&["a"]), "b"), ["a", "b"]);
}

/// A patch that is being paged is the screen the program was started on, so status
/// goes on top of it and quitting comes back to the patch.
#[test]
fn status_from_a_paged_patch() {
    let mut screens = vec!["git show HEAD"];
    if goto_status_screen(&mut screens, false) {
        screens.push("status");
    }
    assert_eq!(screens, ["git show HEAD", "status"]);

    assert_eq!(quit_step(true, screens.len(), false), Quit::CloseScreen);
    screens.pop();
    assert_eq!(screens, ["git show HEAD"]);
}

#[test]
fn status_from_the_log_view() {
    let mut screens = vec!["status", "log", "show"];
    assert!(!goto_status_screen(&mut screens, true));
    assert_eq!(screens, ["status"]);
}

fn commit(n: u64, summary: &str) -> CommitRecord {
    CommitRecord {
        id: n,
        oid: format!("{n}bcdef0123"),
        short_id: format!("{n}bcdef0"),
        message: summary.into(),
        summary: summary.into(),
        author: "Author Name".into(),
        seconds: 0,
    }
}

#[test]
fn commit_fixup_picker() {
    let items = log(
        &vec![
            LogEntry::Commit(commit(2, "add beta.txt")),
            LogEntry::Failed {
                id: 9,
                error: "bad object".into(),
            },
            LogEntry::Commit(commit(1, "add alpha.txt")),
        ],
        &vec![],
        COMMIT_PICKER_LIMIT,
        None,
        0,
    );
    let choices = commit_picker_items(&items);
    let shown: Vec<(&str, &str)> = choices
        .iter()
        .map(|c| (c.display.as_str(), c.oid.as_str()))
        .collect();
    assert_eq!(
        shown,
        [
            ("2bcdef0 add beta.txt", "2bcdef0123"),
            ("1bcdef0 add alpha.txt", "1bcdef0123"),
        ]
    );
    assert_eq!(choices[1].item_index, 2);

    // The cursor starts on the commit that is selected, if one is.
    let oid = selected_commit_oid(&items[2]).unwrap();
    assert_eq!(picker_cursor(&choices, &oid), Some(1));
    assert_eq!(picker_cursor(&choices, "nowhere"), None);
    assert_eq!(selected_commit_oid(&items[1]), None);
    assert_eq!(picked_commit(&items[0].data).as_deref(), Some("2bcdef0123"));
    assert_eq!(picked_commit(&items[1].data), None);
}

#[test]
fn commit_menu() {
    let args: Vec<String> = init_args().into_iter().map(|flag| flag.arg).collect();
    assert_eq!(
        args,
        [
            "--all",
            "--allow-empty",
            "--verbose",
            "--no-verify",
            "--reset-author",
            "--signoff"
        ]
    );
}

#[test]
fn commit_extend() {
    let args = strings(&["--signoff"]);
    assert_eq!(commit_cmd(CommitKind::Commit, &args), ["commit", "--signoff"]);
    assert_eq!(
        commit_cmd(CommitKind::Amend, &args),
        ["commit", "--amend", "--signoff"]
    );
    assert_eq!(
        commit_cmd(CommitKind::Extend, &args),
        ["commit", "--amend", "--no-edit", "--signoff"]
    );
}

#[test]
fn commit_instant_fixup() {
    assert_eq!(
        commit_fixup_cmd(&strings(&["--no-verify"]), "abc"),
        ["commit", "--fixup", "abc", "--no-verify"]
    );
    let (words, (name, value)) = rebase_autosquash_cmd("abc");
    assert_eq!(
        words,
        [
            "rebase",
            "-i",
            "-q",
            "--autostash",
            "--keep-empty",
            "--autosquash",
            "abc^"
        ]
    );
    assert_eq!((name.as_str(), value.as_str()), ("GIT_SEQUENCE_EDITOR", ":"));
    assert_eq!(parent("HEAD"), "HEAD^");
}

fn steps(args: &Args) -> Vec<Startup> {
    let mut steps = vec![args.begin()];
    while *steps.last().unwrap() != Startup::Exit {
        steps.push(args.after(*steps.last().unwrap()));
    }
    steps
}

#[test]
fn starting_up_reads_its_input_after_looking_for_the_command() {
    assert_eq!(
        steps(&Args::default()),
        [
            Startup::OpenRepository,
            Startup::CreateApp,
            Startup::Draw,
            Startup::Run,
            Startup::Exit
        ]
    );
    let pager = Args {
        pager: true,
        print: true,
        keys: Some("ll".into()),
        ..Args::default()
    };
    assert_eq!(
        steps(&pager),
        [
            Startup::FindCommand,
            Startup::OpenRepository,
            Startup::ReadInput,
            Startup::CreateApp,
            Startup::SendKeys,
            Startup::Draw,
            Startup::Exit
        ]
    );
    assert_eq!(check_input(true), Err(InputError::PagerWithoutInput));
    assert_eq!(check_input(false), Ok(()));
    assert_eq!(git_dir("/repo \n"), "/repo");
}

#[test]
fn views_are_switched_only_under_tide() {
    let key = |c, alt, kind| Key {
        code: KeyCode::Char(c),
        modifiers: Modifiers {
            shift: true,
            ctrl: false,
            alt,
            other: true,
        },
        kind,
    };
    let file = tide::state_file(Some("/tmp/state".into()));
    let press = KeyKind::Press;
    assert_eq!(tide::switch_view(&file, key('f', true, press)), Some("files"));
    assert_eq!(tide::switch_view(&file, key('j', true, press)), Some("search"));
    assert_eq!(tide::switch_view(&file, key('k', true, press)), Some("edit"));
    assert_eq!(tide::switch_view(&file, key('d', true, press)), None);
    assert_eq!(tide::switch_view(&file, key('f', false, press)), None);
    assert_eq!(
        tide::switch_view(&file, key('f', true, KeyKind::Release)),
        None
    );
    let nowhere = tide::state_file(Some(String::new()));
    assert_eq!(nowhere, None);
    assert_eq!(tide::switch_view(&nowhere, key('f', true, press)), None);
    assert_eq!(tide::state_file(None), None);
}

#[test]
fn scroll_down() {
    let mut screen = changed_files();
    screen.go(Motion::HalfPageDown);
    assert_eq!(screen.scroll.item_anchor, 10);
    assert_eq!(screen.cursor, 10);
}

/// Paging carries the cursor with the view, selecting whatever row it lands on.
#[test]
fn paging_carries_the_cursor_into_the_hunk() {
    let mut screen = changed_files();
    for _ in 0..3 {
        screen.go(Motion::HalfPageDown);
    }
    assert_eq!(screen.scroll.item_anchor, 30);
    assert_eq!(text_of(screen.get_selected_item()), "line 8 (file-2)");
}

#[test]
fn move_prev_sibling() {
    let mut screen = changed_files();
    screen.select_matching(|data| matches!(data, ItemData::Delta { file_i: 3, .. }));
    screen.go(Motion::PrevSection);
    screen.go(Motion::PrevSection);
    assert!(matches!(
        screen.get_selected_item().data,
        ItemData::Delta { file_i: 1, .. }
    ));
}

#[test]
fn move_next_sibling() {
    let mut screen = changed_files();
    screen.select_matching(|data| matches!(data, ItemData::Delta { file_i: 1, .. }));
    screen.go(Motion::NextSection);
    assert!(matches!(
        screen.get_selected_item().data,
        ItemData::Delta { file_i: 2, .. }
    ));
}

#[test]
fn move_next_then_parent_section() {
    let mut screen = changed_files();
    screen.select_matching(|data| matches!(data, ItemData::Delta { file_i: 1, .. }));
    screen.go(Motion::NextSection);
    screen.go(Motion::ParentSection);
    assert!(matches!(
        screen.get_selected_item().data,
        ItemData::Header(SectionHeader::UnstagedChanges)
    ));
}

/// What is picked is fixed up, and the commits from it on are rebased.
#[test]
fn commit_instant_fixup_picks_commit() {
    let items = log(
        &vec![
            LogEntry::Commit(commit(2, "add beta.txt")),
            LogEntry::Commit(commit(1, "add alpha.txt")),
        ],
        &vec![],
        COMMIT_PICKER_LIMIT,
        None,
        0,
    );
    let choices = commit_picker_items(&items);
    let picked = choices
        .iter()
        .find(|choice| choice.display.contains("alpha"))
        .unwrap();
    assert_eq!(
        commit_fixup_cmd(&vec![], &picked.oid),
        ["commit", "--fixup", "1bcdef0123"]
    );
    let (words, _) = rebase_autosquash_cmd(&picked.oid);
    assert_eq!(words.last().unwrap(), "1bcdef0123^");
}

#[test]
fn commit_instant_fixup_stashes_changes_and_keeps_empty() {
    let (words, _) = rebase_autosquash_cmd("abc");
    assert!(words.contains(&"--autostash".to_string()));
    assert!(words.contains(&"--keep-empty".to_string()));
}
