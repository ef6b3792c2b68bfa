use gitu::delta_highlight::{
    ansi_line_to_spans, build_highlights_from_text, color_line, compute_line_starts,
    delta_highlight_diff, find_substr, highlight_hunk_with_delta, map_lines, parse_color,
    styled_lines, DeltaDiffHighlights, RawSpan,
};
use gitu::diff::{Diff, FileDiff, FileHeader, Hunk, HunkContent, HunkHeader};
use gitu::style::{Color, Modifier, Style, BOLD};

#[test]
fn test_ansi_line_to_spans() {
    // \x1b[31m-old\x1b[0m => red "-old"
    let lines = styled_lines(b"\x1b[31m-old\x1b[0m").unwrap();
    let spans = ansi_line_to_spans(&lines[0], "-old");

    assert_eq!(spans.len(), 1);
    assert_eq!(spans[0].0, 0..4);
    assert_eq!(spans[0].1.fg, Some(Color::Red));
}

#[test]
fn test_ansi_line_multiple_spans() {
    // Red "ab" then green "cd"
    let lines = styled_lines(b"\x1b[31mab\x1b[32mcd\x1b[0m").unwrap();
    let spans = ansi_line_to_spans(&lines[0], "abcd");

    assert_eq!(spans.len(), 2);
    assert_eq!(spans[0].0, 0..2);
    assert_eq!(spans[0].1.fg, Some(Color::Red));
    assert_eq!(spans[1].0, 2..4);
    assert_eq!(spans[1].1.fg, Some(Color::Green));
}

#[test]
fn test_line_starts_computation() {
    let text = "line1\nline2\nline3\n";
    let starts = compute_line_starts(text);
    assert_eq!(starts, vec![0, 6, 12]);
    // Note: no start for trailing empty after final \n since i+1 == len
}

#[test]
fn test_line_starts_single_line() {
    let starts = compute_line_starts("hello");
    assert_eq!(starts, vec![0]);
}

#[test]
fn test_line_starts_empty() {
    let starts = compute_line_starts("");
    assert_eq!(starts, vec![0]);
}

#[test]
fn test_hunk_line_mapping() {
    // Simulate a diff with known structure:
    // "header\n" (line 0, bytes 0..7)
    // "+added\n" (line 1, bytes 7..14)
    // " ctx\n"   (line 2, bytes 14..19)
    let diff_text = "header\n+added\n ctx\n";
    let line_starts = compute_line_starts(diff_text);
    assert_eq!(line_starts, vec![0, 7, 14]);

    // If hunk content starts at byte 7 ("+added\n ctx\n"):
    let content_start = 7;
    let content_end = 19;

    let first_line = line_starts.partition_point(|&o| o < content_start);
    let end_line = line_starts.partition_point(|&o| o < content_end);

    assert_eq!(first_line, 1);
    assert_eq!(end_line, 3);
    // Lines 1..3 (indices 1 and 2) are the hunk content lines.
}

#[test]
fn a_colour_that_misses_its_text_covers_what_is_there() {
    let colored = vec![(
        "xyz".to_string(),
        Style {
            fg: Some(Color::Blue),
            ..Style::new()
        },
    )];
    let spans = ansi_line_to_spans(&colored, "ab");
    assert_eq!(spans.len(), 1);
    assert_eq!(spans[0].0, 0..2);

    // The end of a line isn't coloured.
    let whole = vec![(
        "ab\r\n".to_string(),
        Style {
            fg: Some(Color::Blue),
            ..Style::new()
        },
    )];
    assert_eq!(ansi_line_to_spans(&whole, "ab\r\n")[0].0, 0..2);
}

#[test]
fn text_is_found_from_an_offset_on() {
    assert_eq!(find_substr("abcabc", 0, "bc"), Some(1));
    assert_eq!(find_substr("abcabc", 2, "bc"), Some(4));
    assert_eq!(find_substr("abcabc", 5, "bc"), None);
    assert_eq!(find_substr("abc", 2, ""), Some(2));
    assert_eq!(find_substr("äbc", 2, "c"), Some(3));
}

#[test]
fn colours_are_told_by_their_names() {
    assert_eq!(parse_color("Red"), Some(Color::Red));
    assert_eq!(parse_color("LightCyan"), Some(Color::LightCyan));
    assert_eq!(parse_color("#FF8000"), Some(Color::Rgb(255, 128, 0)));
    assert_eq!(parse_color("42"), Some(Color::Indexed(42)));
    assert_eq!(parse_color("no colour"), None);
}

#[test]
fn a_diff_is_highlighted_line_by_line() {
    let diff = "header\n-old\n";
    let highlights =
        delta_highlight_diff(Some(b"header\n\x1b[31m-old\x1b[0m\n"), diff).unwrap();
    assert_eq!(highlights.line_starts, vec![0, 7]);
    assert!(highlights.lines[0].is_empty());
    assert_eq!(highlights.lines[1][0].0, 0..4);
    assert_eq!(highlights.lines[1][0].1.fg, Some(Color::Red));
}

#[test]
fn parsed_text_is_coloured_by_name() {
    let raw = vec![RawSpan {
        content: "x".into(),
        fg: Some("Green".into()),
        bg: Some("#0102FF".into()),
        add_modifier: BOLD,
        sub_modifier: 0,
    }];
    assert_eq!(
        color_line(&raw),
        [(
            "x".to_string(),
            Style {
                fg: Some(Color::Green),
                bg: Some(Color::Rgb(1, 2, 255)),
                add_modifier: Modifier { bits: BOLD },
                sub_modifier: Modifier::empty(),
            }
        )]
    );
}

#[test]
fn coloured_lines_are_put_on_the_plain_ones() {
    let red = Style {
        fg: Some(Color::Red),
        ..Style::new()
    };
    let lines = vec![vec![], vec![("-".to_string(), Style::new()), ("old".to_string(), red)]];
    let spans = map_lines(&lines, "header\n-old\n").unwrap();
    assert!(spans[0].is_empty());
    assert_eq!(spans[1], [(1..4, red)]);
}

#[test]
fn a_hunk_takes_the_lines_that_start_in_it() {
    let text = "header\n+added\n ctx\n";
    let diff = Diff {
        text: text.into(),
        file_diffs: vec![FileDiff {
            header: FileHeader {
                range: 0..0,
                old_file: "f".into(),
                new_file: "f".into(),
            },
            hunks: vec![Hunk {
                header: HunkHeader {
                    range: 0..7,
                    old_line_start: 1,
                    new_line_start: 1,
                },
                content: HunkContent {
                    range: 7..19,
                    changes: vec![],
                },
            }],
        }],
    };
    let output = b"\x1b[1mheader\x1b[0m\n\x1b[32m+added\x1b[0m\n ctx\n";
    let delta = delta_highlight_diff(Some(output), text).unwrap();
    let highlights = highlight_hunk_with_delta(&delta, &diff, 0, 0);
    assert_eq!(highlights.get_line_highlights(0)[0].0, 0..6);
    assert_eq!(
        highlights.get_line_highlights(0)[0].1.fg,
        Some(Color::Green)
    );
    assert!(highlights
        .get_line_highlights(1)
        .iter()
        .all(|(_, style)| style.fg != Some(Color::Green)));

    // delta may not be there.
    let plain = delta_highlight_diff(None, text).unwrap();
    assert!(highlight_hunk_with_delta(&plain, &diff, 0, 0)
        .get_line_highlights(0)
        .is_empty());
    assert_eq!(build_highlights_from_text(text).line_starts, [0, 7, 14]);
}

/// A hunk no line starts in has no highlights, however few lines delta printed.
#[test]
fn a_hunk_without_lines_takes_none() {
    let text = "header\n";
    let diff = Diff {
        text: text.into(),
        file_diffs: vec![FileDiff {
            header: FileHeader {
                range: 0..7,
                old_file: "f".into(),
                new_file: "f".into(),
            },
            hunks: vec![Hunk {
                header: HunkHeader {
                    range: 7..7,
                    old_line_start: 1,
                    new_line_start: 1,
                },
                content: HunkContent {
                    range: 7..7,
                    changes: vec![],
                },
            }],
        }],
    };
    let delta = DeltaDiffHighlights {
        lines: vec![],
        line_starts: vec![0],
    };
    assert!(highlight_hunk_with_delta(&delta, &diff, 0, 0)
        .line_index
        .is_empty());
}
