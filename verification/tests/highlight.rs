use gitu::diff::{Change, Diff, FileDiff, FileHeader, Hunk, HunkContent, HunkHeader};
use gitu::highlight::{
    colorize_hunk_from_output, highlight_blame_file, highlight_hunk, iter_diff_context_highlights,
    iter_diff_highlights, iter_syntax_highlights, line_range_iterator, replaced_words,
    syntax_highlight_tag_style, DiffHighlightConfig, HighlightConfig, SyntaxHighlightConfig,
    SyntaxTag, TokenHunk,
};
use gitu::style::{Color, Style};
use std::ops::Range;

const TEXT: &str = "diff --git a/x.rs b/x.rs\n\
                    index 0000000..1111111 100644\n\
                    --- a/x.rs\n\
                    +++ b/x.rs\n\
                    @@ -1,2 +1,2 @@\n\
                    -let x = 1;\n\
                    +let y = 2;\n";

/// The one hunk of the diff, which replaces a line.
fn diff() -> Diff {
    let start = TEXT.find("-let").unwrap();
    let middle = TEXT.find("+let").unwrap();
    Diff {
        text: TEXT.to_string(),
        file_diffs: vec![FileDiff {
            header: FileHeader {
                range: 0..TEXT.find("@@").unwrap(),
                old_file: "x.rs".into(),
                new_file: "x.rs".into(),
            },
            hunks: vec![Hunk {
                header: HunkHeader {
                    range: TEXT.find("@@").unwrap()..start,
                    old_line_start: 1,
                    new_line_start: 1,
                },
                content: HunkContent {
                    range: start..TEXT.len(),
                    changes: vec![Change {
                        old: start..middle,
                        new: middle..TEXT.len(),
                    }],
                },
            }],
        }],
    }
}

#[test]
fn maps_colorized_output_onto_content_lines() {
    let diff = diff();

    let colorized = "diff --git a/x.rs b/x.rs\n\
                     index 0000000..1111111 100644\n\
                     --- a/x.rs\n\
                     +++ b/x.rs\n\
                     @@ -1,2 +1,2 @@\n\
                     \x1b[31m-let x = 1;\x1b[0m\n\
                     \x1b[32m+let y = 2;\x1b[0m\n";

    let highlights = colorize_hunk_from_output(&diff, 0, 0, colorized)
        .expect("should map colorized output onto the hunk");

    // Every content line's runs must reconstruct the hunk line verbatim.
    let hunk_content = diff.hunk_content(0, 0);
    let line_ranges: Vec<_> = line_range_iterator(hunk_content)
        .into_iter()
        .map(|(r, _)| r)
        .collect();
    for (line_i, line_range) in line_ranges.iter().enumerate() {
        let line = &hunk_content[line_range.clone()];
        let reconstructed: String = highlights
            .get_line_highlights(line_i)
            .iter()
            .map(|(r, _)| &line[r.clone()])
            .collect();
        assert_eq!(&reconstructed, line);
    }

    let has_color = highlights
        .get_line_highlights(0)
        .iter()
        .any(|(_, style)| style.fg.is_some());
    assert!(
        has_color,
        "expected a colored run on the first content line"
    );
}

#[test]
fn output_that_is_not_the_diff_colorizes_nothing() {
    assert!(colorize_hunk_from_output(&diff(), 0, 0, "something else\n").is_none());
}

#[test]
fn lines_are_told_with_the_range_that_is_drawn() {
    let lines: Vec<(Range<usize>, &str)> = line_range_iterator("a\r\nbc\n\nd");
    assert_eq!(
        lines,
        [
            (0..1, "a\r\n"),
            (3..5, "bc\n"),
            (6..6, "\n"),
            (7..7, "d")
        ]
    );
    assert!(line_range_iterator("").is_empty());
}

fn colored(color: Color) -> Style {
    Style {
        fg: Some(color),
        ..Style::new()
    }
}

fn diff_config() -> DiffHighlightConfig {
    DiffHighlightConfig {
        tag_old: colored(Color::Red),
        tag_new: colored(Color::Green),
        unchanged_old: colored(Color::Gray),
        changed_old: colored(Color::LightRed),
        changed_new: colored(Color::LightGreen),
    }
}

fn syntax_config(enabled: bool) -> SyntaxHighlightConfig {
    let plain = Style::new();
    SyntaxHighlightConfig {
        enabled,
        attribute: plain,
        comment: colored(Color::DarkGray),
        constant: plain,
        constant_builtin: plain,
        constructor: plain,
        embedded: plain,
        function: plain,
        function_builtin: plain,
        keyword: colored(Color::Magenta),
        module: plain,
        number: colored(Color::Cyan),
        operator: plain,
        property: plain,
        punctuation_bracket: plain,
        punctuation_delimiter: plain,
        string: plain,
        string_special: plain,
        tag: plain,
        type_builtin: plain,
        type_regular: plain,
        variable_builtin: plain,
        variable_parameter: plain,
    }
}

fn tiles(spans: &[(Range<usize>, Style)], length: usize) -> bool {
    let mut next = 0;
    for (range, _) in spans {
        if range.start != next {
            return false;
        }
        next = range.end;
    }
    next == length
}

#[test]
fn only_the_words_that_changed_are_marked() {
    let diff = diff();
    let body = diff.hunk_content(0, 0).to_string();
    let hunk = &diff.file_diffs[0].hunks[0];
    let spans = iter_diff_highlights(&diff_config(), &body, hunk);

    assert!(tiles(&spans, body.len()));
    let marked: Vec<&str> = spans
        .iter()
        .filter(|(_, style)| *style == colored(Color::LightRed))
        .map(|(range, _)| &body[range.clone()])
        .collect();
    assert!(marked.contains(&"x"), "{marked:?}");
    assert!(!marked.iter().any(|word| word.contains("let")), "{marked:?}");
}

#[test]
fn removed_and_added_lines_are_told_by_their_marks() {
    let body = "-old\n+new\n same\n";
    let spans = iter_diff_context_highlights(&diff_config(), body);
    assert!(tiles(&spans, body.len()));
    assert_eq!(spans[0].1, colored(Color::Red));
    assert!(spans.iter().any(|(_, style)| *style == colored(Color::Green)));
}

#[test]
fn tags_are_drawn_in_their_styles_with_the_gaps_plain() {
    let tags = vec![(2..5, SyntaxTag::Keyword), (6..7, SyntaxTag::Number)];
    let spans = iter_syntax_highlights(&syntax_config(true), 8, &tags);
    assert_eq!(
        spans,
        [
            (0..2, Style::new()),
            (2..5, colored(Color::Magenta)),
            (5..6, Style::new()),
            (6..7, colored(Color::Cyan)),
            (7..8, Style::new()),
        ]
    );
}

#[test]
fn a_blamed_file_is_highlighted_line_by_line() {
    let content = "let a\n// b\n";
    let tags = vec![(0..3, SyntaxTag::Keyword), (6..10, SyntaxTag::Comment)];
    let highlights = highlight_blame_file(&syntax_config(true), content, &tags);
    assert_eq!(
        highlights.get_line_highlights(0),
        [(0..3, colored(Color::Magenta)), (3..5, Style::new())]
    );
    assert_eq!(
        highlights.get_line_highlights(1),
        [(0..4, colored(Color::DarkGray))]
    );
}

#[test]
fn a_hunk_is_coloured_by_the_colorizer_where_there_is_one() {
    let diff = diff();
    let mut config = HighlightConfig {
        diff_colorizer: true,
        diff: diff_config(),
        syntax: syntax_config(false),
    };
    let colorized = TEXT.replace("-let", "\x1b[31m-let");
    let by_colorizer = highlight_hunk(&config, &diff, 0, 0, Some(&colorized), &vec![], &vec![]);
    assert_eq!(
        by_colorizer.get_line_highlights(0)[0].1.fg,
        Some(Color::Indexed(1))
    );

    config.diff_colorizer = false;
    let by_diff = highlight_hunk(&config, &diff, 0, 0, Some(&colorized), &vec![], &vec![]);
    let body = diff.hunk_content(0, 0);
    let first = &line_range_iterator(body)[0].0;
    assert!(tiles(by_diff.get_line_highlights(0), first.len()));
    assert!(by_diff
        .get_line_highlights(0)
        .iter()
        .any(|(_, style)| style.fg == Some(Color::LightRed)));
}

/// Each stretch of words that differs is a span, old ones before new ones.
#[test]
fn replaced_words_are_spans_of_their_own() {
    let config = diff_config();
    let old = vec![(0, "let"), (3, " "), (4, "x"), (5, ";")];
    let new = vec![(0, "let"), (3, " "), (4, "yy"), (6, ";")];
    let hunks = vec![
        TokenHunk {
            before: 2..4,
            after: 2..3,
        },
        TokenHunk {
            before: 4..4,
            after: 3..4,
        },
    ];
    assert_eq!(
        replaced_words(&config, &old, 10, &new, 20, &hunks),
        [
            (14..16, config.changed_old),
            (24..26, config.changed_new),
            (26..27, config.changed_new),
        ]
    );
    assert!(replaced_words(&config, &old, 0, &new, 0, &vec![]).is_empty());
}

#[test]
fn code_is_drawn_as_what_it_is() {
    let config = syntax_config(true);
    assert_eq!(
        syntax_highlight_tag_style(&config, SyntaxTag::Keyword),
        colored(Color::Magenta)
    );
    assert_eq!(
        syntax_highlight_tag_style(&config, SyntaxTag::Comment),
        colored(Color::DarkGray)
    );
}

/// What is drawn as taken out lies where a change took something out, and what is drawn
/// as put in where it put something in.
#[test]
fn changed_words_lie_in_the_change() {
    let paint = |n: u8| Style {
        fg: Some(Color::Indexed(n)),
        ..Style::new()
    };
    let config = DiffHighlightConfig {
        changed_old: paint(1),
        changed_new: paint(2),
        unchanged_old: paint(3),
        ..diff_config()
    };
    let diff = diff();
    let hunk = &diff.file_diffs[0].hunks[0];
    let base = hunk.content.range.start;
    let change = &hunk.content.changes[0];
    let spans = iter_diff_highlights(&config, diff.hunk_content(0, 0), hunk);
    let inside = |range: &Range<usize>, outer: &Range<usize>| {
        outer.start <= range.start + base && range.end + base <= outer.end
    };
    assert!(spans.iter().any(|(_, style)| *style == paint(1)));
    assert!(spans.iter().any(|(_, style)| *style == paint(2)));
    for (range, style) in &spans {
        assert!(*style != paint(1) || inside(range, &change.old), "{range:?}");
        assert!(*style != paint(2) || inside(range, &change.new), "{range:?}");
    }
}
