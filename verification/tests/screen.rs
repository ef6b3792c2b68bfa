use gitu::frame::NavMode;
use gitu::item::Item;
use gitu::item_data::{ItemData, SectionHeader};
use gitu::screen::{ItemLayout, Measure, Screen, SearchDirection};
use gitu::screen_search::{find_hit, has_uppercase, matcher, matcher_for, SearchError};
use gitu::style::Style;

/// What a row says.
fn text_of(item: &Item) -> String {
    match (&item.rendered, &item.data) {
        (Some(row), _) => row.iter().map(|(text, _)| text.as_str()).collect(),
        (None, ItemData::Raw(text)) => text.clone(),
        _ => String::new(),
    }
}

/// Rows that take one line each.
fn layouts(items: &[Item]) -> Vec<ItemLayout> {
    items
        .iter()
        .map(|item| {
            let measure = || Measure {
                height: 1,
                runs: vec![text_of(item)],
            };
            ItemLayout {
                open: measure(),
                shut: measure(),
            }
        })
        .collect()
}

fn screen_with(items: Vec<Item>, size: (u16, u16)) -> Screen {
    let measured = layouts(&items);
    Screen::new(size, &vec![], items, measured)
}

fn raw_items(item_count: usize) -> Vec<Item> {
    (0..item_count)
        .map(|i| Item {
            id: i as u64,
            data: ItemData::Raw(format!("item {i}")),
            ..Item::plain()
        })
        .collect()
}

fn screen_of(item_count: usize, size: (u16, u16)) -> Screen {
    screen_with(raw_items(item_count), size)
}

/// A screen of `(depth, is_section)` items, so that collapsing can be
/// exercised without building a whole diff.
fn tree_screen(spec: &[(usize, bool)], size: (u16, u16)) -> Screen {
    let items = spec
        .iter()
        .enumerate()
        .map(|(i, &(depth, is_section))| Item {
            id: i as u64,
            depth,
            data: if is_section {
                ItemData::Header(SectionHeader::Tags)
            } else {
                ItemData::Raw(format!("item {i}"))
            },
            ..Item::plain()
        })
        .collect();
    screen_with(items, size)
}

/// section 0
///   leaf 1
///   section 2
///     leaf 3
///     leaf 4
///   leaf 5
/// section 6
///   leaf 7
const TREE: &[(usize, bool)] = &[
    (0, true),
    (1, false),
    (1, true),
    (2, false),
    (2, false),
    (1, false),
    (0, true),
    (1, false),
];

fn visible(screen: &Screen) -> (Vec<usize>, Vec<usize>) {
    let down = screen.visible_items();
    let mut up = screen.visible_items_rev();
    up.reverse();
    (down, up)
}

/// Walking up has to reach the same items as walking down.
#[test]
fn walks_the_tree_both_ways() {
    let mut screen = tree_screen(TREE, (80, 20));
    assert_eq!(visible(&screen), ((0..8).collect(), (0..8).collect()));

    // An inner section shuts, and is stepped over from either side.
    screen.collapsed.insert(2);
    assert_eq!(
        visible(&screen),
        (vec![0, 1, 2, 5, 6, 7], vec![0, 1, 2, 5, 6, 7])
    );
    assert_eq!(Some(2), screen.prev_visible(5));
    assert_eq!(Some(5), screen.next_visible(2));
    assert!(!screen.is_visible(3));

    // Its outer section shuts over it: the outermost stands in for both.
    screen.collapsed.insert(0);
    assert_eq!(visible(&screen), (vec![0, 6, 7], vec![0, 6, 7]));
    assert_eq!(Some(0), screen.prev_visible(6));
    assert_eq!(Some(6), screen.next_visible(0));
    assert!(!screen.is_visible(2));
}

/// Scrolling down over a collapsed section and back up again lands where
/// it started.
#[test]
fn scrolls_back_over_a_collapsed_section() {
    let mut screen = tree_screen(TREE, (80, 4));
    screen.collapsed.insert(2);

    screen.scroll_view_down(3);
    assert_eq!(5, screen.scroll.item_anchor);

    screen.scroll_view_up(3);
    assert_eq!(0, screen.scroll.item_anchor);
    assert_eq!(0, screen.scroll.offset);
}

/// A screen of rows that take one line each, but for those that have not been laid out:
/// how tall they are is anyone's guess.
fn screen_laid_out(item_count: usize, size: (u16, u16), laid_out: std::ops::Range<usize>) -> Screen {
    let items = raw_items(item_count);
    let mut measured = layouts(&items);
    for (i, layout) in measured.iter_mut().enumerate() {
        if !laid_out.contains(&i) {
            layout.open.height = 7;
            layout.shut.height = 7;
        }
    }
    Screen::new(size, &vec![], items, measured)
}

/// Only what is reached has to be laid out, so a long list costs no more than a short
/// one until something actually scrolls down to it.
#[test]
fn only_lays_out_what_it_reaches() {
    let mut whole = screen_of(10_000, (80, 20));
    let screen = screen_laid_out(10_000, (80, 20), 0..49);
    assert_eq!((screen.cursor, screen.scroll), (whole.cursor, whole.scroll));

    let mut screen = screen_laid_out(10_000, (80, 20), 0..149);
    screen.scroll_view_down(100);
    whole.scroll_view_down(100);
    assert_eq!((screen.cursor, screen.scroll), (whole.cursor, whole.scroll));
    assert_eq!(100, screen.scroll.item_anchor);
}

/// The viewport is anchored to an item, so jumping to the bottom takes what it lands on
/// to be laid out rather than everything it skipped over.
#[test]
fn jumping_to_the_bottom_skips_the_middle() {
    let mut whole = screen_of(10_000, (80, 20));
    let mut screen = screen_laid_out(10_000, (80, 20), 9_951..10_000);

    screen.move_cursor_to_bottom();
    whole.move_cursor_to_bottom();

    assert_eq!(9_999, screen.cursor);
    assert_eq!((screen.cursor, screen.scroll), (whole.cursor, whole.scroll));
    screen.move_cursor_to_top();
    assert_eq!((0, 0), (screen.cursor, screen.scroll.item_anchor));
}

/// Scrolling is allowed a couple of lines past the content, so on a screen
/// the content doesn't fill, its center lands past the last line.
#[test]
fn recenter_cursor_on_a_screen_the_content_doesnt_fill() {
    let mut screen = screen_of(3, (80, 20));

    screen.scroll_view_down(2);
    let items = raw_items(3);
    let measured = layouts(&items);
    screen.refresh(items, measured);

    assert_eq!(2, screen.cursor);
}

/// Items for a diff: a file, a hunk, then each content line drawn over
/// `rows` rows (the extra ones nesting, as wrapped rows do).
fn diff_items(rows: usize, lines: usize) -> Vec<Item> {
    let mut items = vec![
        Item {
            depth: 0,
            data: ItemData::Delta {
                diff: 1,
                file_i: 0,
                commit: None,
            },
            ..Item::plain()
        },
        Item {
            depth: 1,
            data: ItemData::Hunk {
                diff: 1,
                file_i: 0,
                hunk_i: 0,
            },
            ..Item::plain()
        },
    ];

    for line_i in 0..lines {
        for row in 0..rows {
            items.push(Item {
                depth: if row == 0 { 2 } else { 3 },
                unselectable: row > 0,
                data: if row == 0 {
                    ItemData::HunkLine {
                        diff: 1,
                        file_i: 0,
                        hunk_i: 0,
                        line_i,
                        line_range: 0..0,
                        line_indices: vec![line_i],
                    }
                } else {
                    ItemData::empty()
                },
                rendered: Some(vec![(format!("line {line_i} row {row}"), Style::new())]),
                ..Item::plain()
            });
        }
    }
    items
}

fn selected_line(screen: &Screen) -> Option<usize> {
    match screen.get_selected_item().data {
        ItemData::HunkLine { line_i, .. } => Some(line_i),
        _ => None,
    }
}

/// The view stops once the last page is on screen, but the cursor does not:
/// it goes on to the end of the content, so holding the page key arrives at
/// the last line rather than at whichever one it was on when the view ran
/// out of room.
#[test]
fn paging_on_past_the_last_page_reaches_the_last_line() {
    let mut screen = screen_with(diff_items(1, 50), (80, 20));

    for _ in 0..10 {
        screen.full_page_down();
    }

    assert_eq!(selected_line(&screen), Some(49));
}

#[test]
fn a_rerender_keeps_the_cursor_on_the_same_diff_line() {
    let mut screen = screen_with(diff_items(1, 3), (80, 40));
    screen.select_matching(|data| matches!(data, ItemData::HunkLine { line_i: 2, .. }));
    assert_eq!(selected_line(&screen), Some(2));

    // Every row below the first now has a second row above where the cursor
    // was, so keeping its line number would land somewhere else entirely.
    let items = diff_items(2, 3);
    let measured = layouts(&items);
    screen.refresh_keeping_position(items, measured);

    assert_eq!(selected_line(&screen), Some(2));
}

#[test]
fn a_plain_refresh_keeps_only_the_place_in_the_list() {
    // The contrast: `refresh` is right for a changed diff, but it is the
    // place in the list that it holds on to, not the diff line.
    let mut screen = screen_with(diff_items(1, 3), (80, 40));
    screen.select_matching(|data| matches!(data, ItemData::HunkLine { line_i: 2, .. }));

    let items = diff_items(2, 3);
    let measured = layouts(&items);
    screen.refresh(items, measured);

    assert_ne!(selected_line(&screen), Some(2));
}

#[test]
fn moving_down_and_up_again_returns() {
    let mut screen = tree_screen(TREE, (80, 20));
    screen.collapsed.insert(2);
    for _ in 0..3 {
        screen.select_next(NavMode::Normal);
    }
    assert_eq!(screen.cursor, 5);
    for _ in 0..3 {
        screen.select_previous(NavMode::Normal);
    }
    assert_eq!(screen.cursor, 0);
    screen.select_next(NavMode::Siblings { depth: 0 });
    assert_eq!(screen.cursor, 6);
}

#[test]
fn the_cursor_goes_to_the_line_of_the_screen_it_is_told() {
    let mut screen = tree_screen(TREE, (80, 20));
    screen.move_cursor_to_screen_line(3);
    assert_eq!(screen.cursor, 3);
    assert!(screen.is_valid_screen_line(7));
    assert!(!screen.is_valid_screen_line(8));
    assert_eq!(screen.cursor_row(), Some(3));
    assert_eq!(screen.item_at_row(4), Some(4));
}

#[test]
fn folding_and_opening_a_section_returns_it() {
    let mut screen = tree_screen(TREE, (80, 20));
    screen.toggle_section();
    assert_eq!(screen.visible_items(), [0, 6, 7]);
    screen.toggle_section();
    assert_eq!(screen.visible_items().len(), 8);
}

#[test]
fn an_empty_screen_has_a_row_nothing_can_act_on() {
    let items = vec![];
    let filler = layouts(&[Item::plain()]);
    let mut screen = Screen::new((80, 20), &vec![], items, filler);
    assert_eq!(screen.items.len(), 1);
    assert!(screen.get_selected_item().unselectable);
    screen.select_next(NavMode::Normal);
    screen.full_page_down();
    assert_eq!(screen.cursor, 0);
}

#[test]
fn sections_that_start_collapsed_are_shut() {
    let items: Vec<Item> = (0..3)
        .map(|i| Item {
            id: i,
            depth: (i % 2) as usize,
            default_collapsed: i == 0,
            data: ItemData::Header(SectionHeader::Stashes),
            ..Item::plain()
        })
        .collect();
    let measured = layouts(&items);
    let screen = Screen::new((80, 20), &vec![2], items, measured);
    assert!(screen.collapsed.contains(&0));
    assert!(screen.collapsed.contains(&2));
    assert!(!screen.collapsed.contains(&1));
}

#[test]
fn a_resize_lays_the_rows_out_again() {
    let mut screen = screen_of(30, (80, 20));
    screen.move_cursor_to_bottom();
    let measured = layouts(&screen.items);
    screen.resize(40, 10, measured);
    assert_eq!(screen.size, (40, 10));
    assert!(screen.cursor_row().is_some());
}

#[test]
fn a_selection_takes_the_lines_it_reaches_over() {
    let mut screen = screen_with(diff_items(1, 4), (80, 20));
    screen.select_matching(|data| matches!(data, ItemData::HunkLine { line_i: 1, .. }));
    screen.extend_selection(true);
    screen.extend_selection(true);
    assert_eq!(screen.selection(), (3, 5));
    match screen.selected_target() {
        ItemData::HunkLine { line_indices, .. } => assert_eq!(line_indices, [1, 2, 3]),
        other => panic!("{other:?}"),
    }
    screen.extend_selection(false);
    match screen.selected_target() {
        ItemData::HunkLine { line_indices, .. } => assert_eq!(line_indices, [1, 2]),
        other => panic!("{other:?}"),
    }
    let selected = screen.item_views().iter().filter(|v| v.selected).count();
    assert_eq!(selected, 2);
}

#[test]
fn a_search_minds_case_only_where_it_is_typed() {
    assert!(has_uppercase("Foo"));
    assert!(!has_uppercase("foo"));
    assert!(!has_uppercase(r"\S"));
    assert!(matcher("foo").unwrap().is_match("a FOO"));
    assert!(!matcher("Foo").unwrap().is_match("a foo"));
    assert!(matches!(
        matcher("("),
        Err(SearchError::InvalidSearchRegex(complaint)) if complaint.contains("unclosed group")
    ));
    assert!(matches!(
        matcher_for("(", true, Some("why".into())),
        Err(SearchError::InvalidSearchRegex(complaint)) if complaint == "why"
    ));
}

#[test]
fn a_search_wraps_and_repeats_either_way() {
    let mut screen = screen_of(12, (80, 20));
    screen.search("item 1", SearchDirection::Forward).unwrap();
    assert_eq!(screen.cursor, 1);
    screen.search_repeat(false).unwrap();
    assert_eq!(screen.cursor, 10);
    screen.search_repeat(true).unwrap();
    assert_eq!(screen.cursor, 1);
    screen.search_repeat(true).unwrap();
    assert_eq!(screen.cursor, 11);
    assert!(screen.get_search_matcher().is_some());
    assert!(matches!(
        screen.search("nowhere", SearchDirection::Forward),
        Err(SearchError::NoSearchMatch(query)) if query == "nowhere"
    ));
    assert_eq!(screen.cursor, 11);
    screen.clear_search();
    assert!(screen.get_search_matcher().is_none());
    assert!(matches!(
        screen.search_repeat(false),
        Err(SearchError::NoPreviousSearch)
    ));
    assert!(matches!(
        screen.search("(", SearchDirection::Forward),
        Err(SearchError::InvalidSearchRegex(_))
    ));
}

#[test]
fn the_last_match_is_found_from_the_end() {
    let mut screen = tree_screen(TREE, (80, 20));
    assert!(screen.select_last_matching(|data| matches!(data, ItemData::Header(_))));
    assert_eq!(screen.cursor, 6);
    assert!(!screen.select_matching_in_view(|data| matches!(data, ItemData::Error(_))));
    assert_eq!(screen.cursor, 6);
}

/// Where a search lands follows from which rows match, wrapping around the ends.
#[test]
fn the_nearest_match_is_found_either_way() {
    let hits = vec![false, true, false, true, false];
    assert_eq!(find_hit(&hits, 1, SearchDirection::Forward), Some(3));
    assert_eq!(find_hit(&hits, 3, SearchDirection::Forward), Some(1));
    assert_eq!(find_hit(&hits, 1, SearchDirection::Backward), Some(3));
    assert_eq!(find_hit(&hits, 3, SearchDirection::Backward), Some(1));
    let one = vec![false, true];
    assert_eq!(find_hit(&one, 1, SearchDirection::Forward), Some(1));
    assert_eq!(
        find_hit(&vec![false], 0, SearchDirection::Backward),
        None
    );
}

/// Moving down and up again keeps the cursor's row on screen at every step.
#[test]
fn the_cursor_stays_on_screen() {
    let mut screen = screen_of(100, (80, 10));
    for _ in 0..60 {
        screen.select_next(NavMode::IncludeSubLines);
        assert!(screen.cursor_row().is_some());
    }
    for _ in 0..60 {
        screen.select_previous(NavMode::IncludeSubLines);
        assert!(screen.cursor_row().is_some());
    }
    assert_eq!(screen.cursor, 0);
}

/// Scrolling stops a little past the end of the content.
#[test]
fn the_view_stays_filled() {
    let mut screen = screen_of(100, (80, 10));
    screen.scroll_view_down(1000);
    assert_eq!(screen.item_views().len(), 8);
    assert_eq!(screen.scroll.item_anchor, 92);
    screen.scroll_view_up(92);
    assert_eq!(screen.scroll.item_anchor, 0);
}
