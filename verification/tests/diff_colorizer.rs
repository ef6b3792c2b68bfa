use gitu::diff_colorizer::{parse_ansi_lines, LineKind, LineMetadata};
use gitu::render_command::{output_of, prepare_colorizer, prepare_delta};
use gitu::style::Color;

#[test]
fn diff_colorizer_parses_lines_tiling_text_with_colors() {
    // Red "fn", default " main"; then a plain line.
    let output = "\x1b[38;2;255;0;0mfn\x1b[0m main\nplain line\n";
    let lines = parse_ansi_lines(output).lines;

    assert_eq!(lines.len(), 2);
    assert_eq!(lines[0].text, "fn main");
    assert_eq!(lines[1].text, "plain line");

    // Runs must tile the whole line contiguously from 0.
    for line in &lines {
        let mut next = 0;
        for (range, _) in &line.runs {
            assert_eq!(range.start, next, "runs must be contiguous with no gaps");
            next = range.end;
        }
        assert_eq!(next, line.text.len(), "runs must cover the whole line");
    }

    let fg = lines[0]
        .runs
        .iter()
        .find(|(r, _)| lines[0].text[r.clone()] == *"fn")
        .map(|(_, s)| s.fg);
    assert_eq!(fg, Some(Some(Color::Rgb(255, 0, 0))));
}

#[test]
fn diff_colorizer_preserves_tabs_and_markers() {
    let lines = parse_ansi_lines("\x1b[32m+\tlet x = 1;\x1b[0m\n").lines;
    assert_eq!(lines.len(), 1);
    assert_eq!(lines[0].text, "+\tlet x = 1;");
}

#[test]
fn diff_colorizer_captures_osc1717_handshake_and_drops_its_line() {
    // Handshake record (version only) precedes the content, on its own line.
    let out = parse_ansi_lines("\x1b]1717;1\x1b\\\ncontent\n");
    assert_eq!(out.protocol_version, Some(1));
    // The empty handshake line is dropped; only real content remains.
    assert_eq!(out.lines.len(), 1);
    assert_eq!(out.lines[0].text, "content");
    assert_eq!(out.lines[0].metadata, None);
}

#[test]
fn diff_colorizer_attaches_per_line_records_to_following_line() {
    let out = parse_ansi_lines(
        "\x1b]1717;1\x1b\\\n\
         \x1b]1717;1;c;8;;src/foo.rs\x1b\\fn a() {}\n\
         \x1b]1717;1;d;10;11;src/foo.rs\x1b\\    let old = 1;\n\
         \x1b]1717;1;a;10;;src/foo.rs\x1b\\    let new = 1;\n",
    )
    .lines;

    assert_eq!(out.len(), 3);
    assert_eq!(out[0].text, "fn a() {}");
    assert_eq!(
        out[0].metadata,
        Some(LineMetadata {
            kind: LineKind::Context,
            new_line: 8,
            old_line: None,
            file: "src/foo.rs".into(),
        })
    );
    assert_eq!(
        out[1].metadata,
        Some(LineMetadata {
            kind: LineKind::Deleted,
            new_line: 10,
            old_line: Some(11),
            file: "src/foo.rs".into(),
        })
    );
    assert_eq!(out[2].metadata.as_ref().unwrap().kind, LineKind::Added);
}

#[test]
fn first_record_wins_for_side_by_side_row() {
    // A side-by-side row carries two records (left=old/deleted, right=new/added);
    // the row-granular identity is the first (left) one.
    let out = parse_ansi_lines(
        "\x1b]1717;1;d;10;10;f.rs\x1b\\ old \x1b]1717;1;a;10;;f.rs\x1b\\ new \n",
    )
    .lines;
    assert_eq!(out.len(), 1);
    assert_eq!(out[0].text, " old  new ");
    assert_eq!(out[0].metadata.as_ref().unwrap().kind, LineKind::Deleted);
    assert_eq!(out[0].metadata.as_ref().unwrap().old_line, Some(10));
}

#[test]
fn diff_colorizer_file_field_may_contain_semicolons() {
    let out = parse_ansi_lines("\x1b]1717;1;a;1;;weird;name.txt\x1b\\x\n").lines;
    assert_eq!(out[0].metadata.as_ref().unwrap().file, "weird;name.txt");
}

#[test]
fn a_colorizer_is_told_that_metadata_is_understood() {
    let command = vec!["delta".to_string(), "--color-only".to_string()];
    let prepared = prepare_colorizer(&command).unwrap();
    assert_eq!(prepared.program, "delta");
    assert_eq!(prepared.args, ["--color-only"]);
    assert_eq!(
        prepared.env,
        [("OSC1717_METADATA".to_string(), "V1".to_string())]
    );
    assert!(prepare_colorizer(&vec![]).is_none());
    assert_eq!(output_of(true, b"a\xff"), Some("a\u{fffd}".to_string()));
    assert_eq!(output_of(false, b"a"), None);
}

/// delta goes by what it is given, behind what it is always given.
#[test]
fn delta_is_told_to_only_add_colour() {
    let prepared = prepare_delta("/usr/bin/delta", &vec!["--dark".to_string()]);
    assert_eq!(prepared.program, "/usr/bin/delta");
    assert_eq!(
        prepared.args,
        ["--color-only", "--paging=never", "--no-gitconfig", "--dark"]
    );
    assert!(prepared.env.is_empty());
}

/// Nothing that controls a terminal is left in a line.
#[test]
fn coloured_lines_hold_nothing_but_text() {
    let parsed = parse_ansi_lines("a\r\n\tb\x07\x1b[1mc\x1b\x0b\n");
    let texts: Vec<&str> = parsed.lines.iter().map(|line| line.text.as_str()).collect();
    assert_eq!(texts, ["a", "\tbc"]);
}
