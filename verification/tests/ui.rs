use gitu::item::Item;
use gitu::item_data::{ItemData, SectionHeader};
use gitu::screen::{ItemLayout, ItemView, Measure, Screen};
use gitu::style::{Color, Modifier, Style, REVERSED};
use gitu::ui::{
    display_text, join_first, layout_line, layout_prompt, layout_typed_line, link_cells,
    linked_parts, osc8_hyperlink,
    osc8_parts, panels_height, render_width, repeat_chars, repeat_parts, screen_size, span_width, truncate_span,
    RowStyles, CARET, DASHES,
};

#[test]
fn hyperlink_span_is_independently_redrawable_cells() {
    let cells = link_cells("link", "https://example.com", 4);

    assert_eq!(cells.len(), 4);
    for (x, grapheme) in "link".chars().enumerate() {
        assert_eq!(
            cells[x],
            osc8_hyperlink(&grapheme.to_string(), "https://example.com")
        );
    }
}

#[test]
fn truncating_a_hyperlink_keeps_it_clickable() {
    let link = osc8_hyperlink("linked", "https://example.com");

    assert_eq!(
        truncate_span(&link, 4),
        osc8_hyperlink("link", "https://example.com")
    );
}

#[test]
fn a_link_is_told_from_other_text() {
    let link = osc8_hyperlink("text", "file:///a");
    assert_eq!(link, "\x1b]8;;file:///a\x1b\\text\x1b]8;;\x1b\\");
    assert_eq!(
        osc8_parts(&link),
        Some(("file:///a".to_string(), "text".to_string()))
    );
    assert_eq!(display_text(&link), "text");
    assert_eq!(span_width(&link), 4);

    assert_eq!(osc8_parts("plain"), None);
    assert_eq!(osc8_parts("\x1b]8;;file:///a"), None);
    assert_eq!(osc8_parts("\x1b]8;;file:///a\x1b\\text"), None);
    assert_eq!(display_text("plain"), "plain");
}

#[test]
fn text_is_cut_between_user_perceived_characters() {
    assert_eq!(truncate_span("e\u{301}a\u{301}o", 2), "e\u{301}a\u{301}");
    assert_eq!(truncate_span("abc", 9), "abc");
    assert_eq!(span_width("e\u{301}a"), 2);
    assert_eq!(link_cells("ab", "u", 1), [osc8_hyperlink("a", "u")]);
    assert_eq!(link_cells("ab", "u", 9).len(), 2);
}

#[test]
fn separators_are_as_wide_as_they_are_wanted() {
    assert_eq!(repeat_chars(5, "ab"), ["ab", "ab", "a"]);
    assert_eq!(repeat_chars(4, "ab"), ["ab", "ab"]);
    assert_eq!(repeat_chars(0, "ab"), Vec::<String>::new());
    let wide = repeat_chars(80, DASHES);
    assert_eq!(wide.len(), 2);
    assert_eq!(wide.concat().chars().count(), 80);
}

fn reversed() -> Style {
    let mut style = Style::new();
    style.add_modifier = Modifier { bits: REVERSED };
    style
}

#[test]
fn the_cursor_is_drawn_on_the_character_it_is_at() {
    assert_eq!(
        layout_typed_line("gît", 1),
        [
            ("g".to_string(), Style::new()),
            ("î".to_string(), reversed()),
            ("t".to_string(), Style::new()),
        ]
    );
    assert_eq!(
        layout_typed_line("git", 3),
        [
            ("git".to_string(), Style::new()),
            (CARET.to_string(), Style::new()),
        ]
    );
}

#[test]
fn a_prompt_that_says_nothing_is_only_its_line() {
    let symbol = || ("?".to_string(), Style::new());
    assert_eq!(
        layout_prompt(symbol(), "", Style::new(), "ab", 2),
        layout_typed_line("ab", 2)
    );
    let spans = layout_prompt(symbol(), "Files:", Style::new(), "!a.rs", 5);
    let text: String = spans.iter().map(|(text, _)| text.as_str()).collect();
    assert_eq!(text, format!("? Files: › !a.rs{CARET}"));
}

#[test]
fn spans_are_drawn_over_the_style_of_their_line() {
    let line = Style {
        fg: Some(Color::Red),
        bg: Some(Color::Blue),
        ..Style::new()
    };
    let span = Style {
        fg: Some(Color::Green),
        ..Style::new()
    };
    let out = layout_line(line, &vec![("a".to_string(), span)]);
    assert_eq!(out[0].1.fg, Some(Color::Green));
    assert_eq!(out[0].1.bg, Some(Color::Blue));
}

#[test]
fn a_screen_gets_what_the_panels_leave() {
    assert_eq!(panels_height(&vec![]), 0);
    assert_eq!(panels_height(&vec![(0, 1), (3, 2), (1, 1)]), 5);
    assert_eq!(screen_size((80, 20), 5), (80, 15));
    assert_eq!(screen_size((80, 20), 30), (80, 0));
    assert_eq!(render_width(80), 78);
    assert_eq!(render_width(1), 0);
}

fn measured(item: &Item) -> ItemLayout {
    let _ = item;
    let measure = || Measure {
        height: 1,
        runs: vec![],
    };
    ItemLayout {
        open: measure(),
        shut: measure(),
    }
}

#[test]
fn a_row_is_drawn_by_how_it_is_selected() {
    let items = vec![
        Item {
            id: 1,
            data: ItemData::Header(SectionHeader::Tags),
            ..Item::plain()
        },
        Item {
            id: 2,
            depth: 1,
            ..Item::plain()
        },
    ];
    let layouts = items.iter().map(measured).collect();
    let mut screen = Screen::new((80, 20), &vec![], items, layouts);
    let colored = |color| Style {
        fg: Some(color),
        ..Style::new()
    };
    let styles = RowStyles {
        cursor_symbol: '>',
        cursor: colored(Color::Red),
        bar_symbol: '|',
        bar: colored(Color::Green),
        selection_line: colored(Color::Blue),
        selection_area: Style {
            bg: Some(Color::Gray),
            ..Style::new()
        },
    };
    let view = |highlighted, selected| ItemView {
        item_index: 0,
        highlighted,
        selected,
    };

    let cursor = screen.layout_item(&styles, false, view(true, true));
    assert_eq!(cursor.gutter.0, '>');
    assert_eq!(cursor.gutter.1.fg, Some(Color::Red));
    assert_eq!(cursor.background.fg, Some(Color::Blue));
    assert_eq!(cursor.background.bg, Some(Color::Gray));
    assert!(!cursor.ellipsis);

    let area = screen.layout_item(&styles, false, view(true, false));
    assert_eq!(area.gutter.0, '|');
    assert_eq!(area.background.fg, None);

    let hidden = screen.layout_item(&styles, true, view(true, true));
    assert_eq!(hidden.gutter, (' ', Style::new()));
    let plain = screen.layout_item(&styles, false, view(false, false));
    assert_eq!(plain.gutter, (' ', Style::new()));
    assert_eq!(plain.background, Style::new());

    screen.collapsed.insert(1);
    screen.collapsed.insert(2);
    assert!(screen.layout_item(&styles, false, view(false, false)).ellipsis);
    let leaf = ItemView {
        item_index: 1,
        highlighted: false,
        selected: false,
    };
    assert!(!screen.layout_item(&styles, false, leaf).ellipsis);
}

fn pieces(parts: &[&str]) -> Vec<String> {
    parts.iter().map(|part| part.to_string()).collect()
}

/// What is drawn follows from the pieces the text is cut into, whatever they are.
#[test]
fn pieces_are_counted_and_put_together() {
    let parts = pieces(&["e\u{301}", "x", "yz"]);
    assert_eq!(join_first(&parts, 2), "e\u{301}x");
    assert_eq!(join_first(&parts, 9), "e\u{301}xyz");
    assert_eq!(join_first(&parts, 0), "");
    assert_eq!(
        linked_parts(&parts, "u", 2),
        [osc8_hyperlink("e\u{301}", "u"), osc8_hyperlink("x", "u")]
    );
    assert_eq!(
        repeat_parts(5, &parts),
        ["e\u{301}xyz", "e\u{301}x"]
    );
    assert!(repeat_parts(0, &parts).is_empty());
}

/// A character and what is put on it count as one.
#[test]
fn what_is_seen_as_one_character_is_cut_as_one() {
    assert_eq!(span_width("e\u{301}x"), 2);
    assert_eq!(truncate_span("e\u{301}xyz", 1), "e\u{301}");
    assert_eq!(repeat_chars(3, "e\u{301}x"), ["e\u{301}x", "e\u{301}"]);
    assert_eq!(link_cells("e\u{301}x", "u", 1).len(), 1);
}
