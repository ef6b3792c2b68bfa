use gitu::diff::{Change, Diff, FileDiff, FileHeader, Hunk, HunkContent, HunkHeader};
use gitu::diff_renderer::{
    commit_blocks, names_same_commit, parse_ansi_lines, resolve_hunk, resolve_line, strip_ansi,
    CommitBlock, Hyperlink, LineKind, LineMetadata,
};
use gitu::render_command::{feature_name, offered_features, prepare};
use gitu::style::Color;

fn strings(words: &[&str]) -> Vec<String> {
    words.iter().map(|word| (*word).to_owned()).collect()
}

/// What a renderer is handed the features in.
fn features_seen(features: &[&str]) -> Option<String> {
    let prepared = prepare(&strings(&["delta"]), 80, &strings(features)).unwrap();
    prepared
        .env
        .into_iter()
        .find(|(name, _)| name == "DELTA_FEATURES")
        .map(|(_, value)| value)
}

#[test]
fn selected_features_reach_the_renderer_as_an_overlay() {
    // The leading '+' is what makes it an overlay: delta adds these to the
    // features already in the user's git config rather than replacing them.
    assert_eq!(
        features_seen(&["side-by-side"]),
        Some("+side-by-side".to_string())
    );
    assert_eq!(features_seen(&["a", "b"]), Some("+a b".to_string()));
}

#[test]
fn selecting_no_features_leaves_the_variable_unset() {
    // Not "+": the user's configuration must apply entirely untouched.
    assert_eq!(features_seen(&[]), None);
}

#[test]
fn a_renderer_is_told_how_wide_to_draw() {
    let prepared = prepare(
        &strings(&["delta", "--width", "{width}", "{width}x{width}"]),
        78,
        &vec![],
    )
    .unwrap();
    assert_eq!(prepared.program, "delta");
    assert_eq!(prepared.args, ["--width", "78", "78x78"]);
    assert_eq!(
        prepared.env,
        [
            ("OSC1717_METADATA".to_string(), "V1".to_string()),
            ("COLUMNS".to_string(), "78".to_string()),
        ]
    );
    assert!(prepare(&vec![], 78, &vec![]).is_none());

    // The token stands for the width anywhere in the command.
    let prepared = prepare(&strings(&["draw-{width}", "-w{width}"]), 40, &vec![]).unwrap();
    assert_eq!((prepared.program.as_str(), prepared.args), ("draw-40", strings(&["-w40"])));
}

/// A feature the user defined as `[delta "name"]` is offered without their
/// having to name it in the program's config as well.
#[test]
fn features_defined_in_git_config_are_offered() {
    let entries = strings(&[
        "delta.navigate",
        "delta.my-theme.line-numbers",
        "delta.my-theme.syntax-theme",
        "delta.boxed.hunk-header-style",
        "user.name",
    ]);

    assert_eq!(
        offered_features(&strings(&["side-by-side"]), &entries),
        ["side-by-side", "boxed", "my-theme"]
    );
}

/// A feature named in both places is one feature, kept where it was put.
#[test]
fn a_feature_named_in_both_places_is_offered_once() {
    let entries = strings(&["delta.side-by-side.width"]);

    assert_eq!(
        offered_features(&strings(&["side-by-side", "line-numbers"]), &entries),
        ["side-by-side", "line-numbers"]
    );
}

#[test]
fn a_feature_may_have_dots_in_its_name() {
    assert_eq!(feature_name("delta.a.b.key"), Some("a.b".to_string()));
    assert_eq!(feature_name("delta.key"), None);
    assert_eq!(feature_name("core.a.key"), None);
    assert_eq!(
        offered_features(
            &vec![],
            &strings(&["delta.b.k", "delta.ab.k", "delta.a.k", "delta.b.l", "delta.é.k"])
        ),
        ["a", "ab", "b", "é"]
    );
}

#[test]
fn diff_renderer_parses_lines_tiling_text_with_colors() {
    // Red "fn", default " main"; then a plain line.
    let output = "\x1b[38;2;255;0;0mfn\x1b[0m main\nplain line\n";
    let lines = parse_ansi_lines(output).lines;

    assert_eq!(lines.len(), 2);
    assert_eq!(lines[0].text, "fn main");
    assert_eq!(lines[1].text, "plain line");

    // Runs must tile the whole line contiguously from 0.
    for line in &lines {
        let mut next = 0;
        for (range, _) in &line.runs {
            assert_eq!(range.start, next, "runs must be contiguous with no gaps");
            next = range.end;
        }
        assert_eq!(next, line.text.len(), "runs must cover the whole line");
    }

    let fg = lines[0]
        .runs
        .iter()
        .find(|(r, _)| lines[0].text[r.clone()] == *"fn")
        .map(|(_, s)| s.fg);
    assert_eq!(fg, Some(Some(Color::Rgb(255, 0, 0))));
}

#[test]
fn diff_renderer_preserves_tabs_and_markers() {
    let lines = parse_ansi_lines("\x1b[32m+\tlet x = 1;\x1b[0m\n").lines;
    assert_eq!(lines.len(), 1);
    assert_eq!(lines[0].text, "+\tlet x = 1;");
}

#[test]
fn parses_osc8_hyperlinks() {
    let line = &parse_ansi_lines(
        "plain \x1b]8;;file:///tmp/a.rs:12\x1b\\linked\x1b]8;;\x1b\\ plain\n",
    )
    .lines[0];

    assert_eq!(line.text, "plain linked plain");
    assert_eq!(
        line.hyperlinks,
        [Hyperlink {
            range: 6..12,
            uri: "file:///tmp/a.rs:12".into(),
        }]
    );
}

#[test]
fn diff_renderer_captures_osc1717_handshake_and_drops_its_line() {
    // Handshake record (version only) precedes the content, on its own line.
    let out = parse_ansi_lines("\x1b]1717;1\x1b\\\ncontent\n");
    assert_eq!(out.protocol_version, Some(1));
    // The empty handshake line is dropped; only real content remains.
    assert_eq!(out.lines.len(), 1);
    assert_eq!(out.lines[0].text, "content");
    assert_eq!(out.lines[0].records, vec![]);
}

#[test]
fn diff_renderer_attaches_per_line_records_to_following_line() {
    let out = parse_ansi_lines(
        "\x1b]1717;1\x1b\\\n\
         \x1b]1717;1;c;8;;src/foo.rs\x1b\\fn a() {}\n\
         \x1b]1717;1;d;10;11;src/foo.rs\x1b\\    let old = 1;\n\
         \x1b]1717;1;a;10;;src/foo.rs\x1b\\    let new = 1;\n",
    )
    .lines;

    assert_eq!(out.len(), 3);
    assert_eq!(out[0].text, "fn a() {}");
    assert_eq!(
        out[0].records,
        vec![LineMetadata {
            kind: LineKind::Context,
            new_line: 8,
            old_line: None,
            file: "src/foo.rs".into(),
        }]
    );
    assert_eq!(
        out[1].records,
        vec![LineMetadata {
            kind: LineKind::Deleted,
            new_line: 10,
            old_line: Some(11),
            file: "src/foo.rs".into(),
        }]
    );
    assert_eq!(out[2].records[0].kind, LineKind::Added);
}

#[test]
fn side_by_side_row_keeps_both_records_in_order() {
    // A side-by-side row that fuses a change carries two records (left =
    // deletion, right = addition); both are kept, first is the identity.
    let out = parse_ansi_lines(
        "\x1b]1717;1;d;10;10;f.rs\x1b\\ old \x1b]1717;1;a;10;;f.rs\x1b\\ new \n",
    )
    .lines;
    assert_eq!(out.len(), 1);
    assert_eq!(out[0].text, " old  new ");
    assert_eq!(out[0].records.len(), 2);
    assert_eq!(out[0].records[0].kind, LineKind::Deleted);
    assert_eq!(out[0].records[0].old_line, Some(10));
    assert_eq!(out[0].records[1].kind, LineKind::Added);
}

#[test]
fn diff_renderer_file_field_may_contain_semicolons() {
    let out = parse_ansi_lines("\x1b]1717;1;a;1;;weird;name.txt\x1b\\x\n").lines;
    assert_eq!(out[0].records[0].file, "weird;name.txt");
}

/// What `COMMIT_RECORD_FORMAT` expands to once git has run it.
fn commit_record(oid: &str) -> String {
    format!("\x1b]1717;1;C;;;{oid}\x1b\\")
}

#[test]
fn keeps_a_handshake_line_that_also_carries_a_record() {
    // delta emits the handshake as its first output, so a marker the log
    // format put at the very start shares that line; the commit it
    // identifies must survive.
    let out = parse_ansi_lines(&format!(
        "\x1b]1717;1\x1b\\{}\n──\n▸ abc1234 summary\n",
        commit_record("abc1234def")
    ));
    assert_eq!(out.protocol_version, Some(1));
    assert_eq!(commit_blocks(&out.lines)[0].commit, Some("abc1234def"));
}

#[test]
fn parses_commit_records() {
    let out = parse_ansi_lines(&format!(
        "{}▸ abc1234 summary\n",
        commit_record("abc1234def")
    ));
    assert_eq!(
        out.lines[0].records,
        vec![LineMetadata {
            kind: LineKind::Commit,
            new_line: 0,
            old_line: None,
            file: "abc1234def".into(),
        }]
    );
}

#[test]
fn commit_blocks_start_at_each_commit_record() {
    // A commit's rows run from its record up to the next one; here each
    // commit's format emits the record on its own (blank) leading row.
    let out = parse_ansi_lines(&format!(
        "preamble\n\
         {}\n▸ aaa summary\n    body\n\
         {}\n▸ bbb summary\n",
        commit_record("aaa"),
        commit_record("bbb"),
    ));
    let blocks = commit_blocks(&out.lines);

    assert_eq!(blocks.len(), 3);
    assert_eq!(blocks[0].commit, None);
    assert_eq!(rows(&blocks[0]), vec!["preamble"]);
    assert_eq!(blocks[1].commit, Some("aaa"));
    assert_eq!(rows(&blocks[1]), vec!["", "▸ aaa summary", "    body"]);
    assert_eq!(blocks[2].commit, Some("bbb"));
    assert_eq!(rows(&blocks[2]), vec!["", "▸ bbb summary"]);
}

/// The host names the commit of each row it asked git to mark, and the
/// renderer may name it again — abbreviated, as git prints it. Two names
/// for one commit are one commit, not two, or its rows are split between
/// them and whoever looks the commit up finds only part of it.
#[test]
fn a_commit_named_again_by_the_renderer_is_the_same_commit() {
    let out = parse_ansi_lines(&format!(
        "{}\n{}▸ aaa123 summary\n    body\n{}\n▸ bbb456 summary\n",
        commit_record("aaa123def"),
        commit_record("aaa123"),
        commit_record("bbb456789"),
    ));
    let blocks = commit_blocks(&out.lines);

    assert_eq!(blocks.len(), 2);
    assert_eq!(blocks[0].commit, Some("aaa123def"));
    assert_eq!(rows(&blocks[0]), vec!["", "▸ aaa123 summary", "    body"]);
    assert_eq!(blocks[1].commit, Some("bbb456789"));
}

#[test]
fn commit_blocks_of_unmarked_output_is_a_single_headless_block() {
    let out = parse_ansi_lines("no markers here\nat all\n");
    let blocks = commit_blocks(&out.lines);
    assert_eq!(blocks.len(), 1);
    assert_eq!(blocks[0].commit, None);
    assert_eq!(rows(&blocks[0]), vec!["no markers here", "at all"]);
}

fn rows<'a>(block: &'a CommitBlock) -> Vec<&'a str> {
    block.rows.iter().map(|row| row.text.as_str()).collect()
}

#[test]
fn one_id_names_a_commit_by_a_prefix_of_it() {
    assert!(names_same_commit("aaa123def", "aaa123"));
    assert!(names_same_commit("aaa123", "aaa123def"));
    assert!(!names_same_commit("aaa123", "bbb"));
    assert!(!names_same_commit("", "bbb"));
}

/// The files, hunks and changes of a patch.
fn parse_diff(text: &str) -> Vec<FileDiff> {
    let mut files: Vec<FileDiff> = Vec::new();
    let mut offset = 0;
    for line in text.split_inclusive('\n') {
        let end = offset + line.len();
        if line.starts_with("diff --git ") {
            files.push(FileDiff {
                header: FileHeader {
                    range: offset..end,
                    old_file: String::new(),
                    new_file: String::new(),
                },
                hunks: Vec::new(),
            });
        } else if let Some(file) = files.last_mut() {
            if file.hunks.is_empty() && !line.starts_with("@@ ") {
                file.header.range.end = end;
                if let Some(name) = line.strip_prefix("--- a/") {
                    file.header.old_file = name.trim_end().to_string();
                }
                if let Some(name) = line.strip_prefix("+++ b/") {
                    file.header.new_file = name.trim_end().to_string();
                }
            } else if line.starts_with("@@ ") {
                let number = |mark: char| {
                    let from = line.find(mark).unwrap() + 1;
                    let digits: String = line[from..]
                        .chars()
                        .take_while(|c| c.is_ascii_digit())
                        .collect();
                    digits.parse().unwrap()
                };
                file.hunks.push(Hunk {
                    header: HunkHeader {
                        range: offset..end,
                        old_line_start: number('-'),
                        new_line_start: number('+'),
                    },
                    content: HunkContent {
                        range: end..end,
                        changes: Vec::new(),
                    },
                });
            } else {
                let content = &mut file.hunks.last_mut().unwrap().content;
                content.range.end = end;
                match line.as_bytes()[0] {
                    b'-' => match content.changes.last_mut() {
                        Some(change) if change.new.is_empty() && change.old.end == offset => {
                            change.old.end = end;
                            change.new = end..end;
                        }
                        _ => content.changes.push(Change {
                            old: offset..end,
                            new: end..end,
                        }),
                    },
                    b'+' => match content.changes.last_mut() {
                        Some(change) if change.new.end == offset => change.new.end = end,
                        _ => content.changes.push(Change {
                            old: offset..offset,
                            new: offset..end,
                        }),
                    },
                    _ => (),
                }
            }
        }
        offset = end;
    }
    files
}

fn diff_from(text: &str) -> Diff {
    Diff {
        text: text.to_string(),
        file_diffs: parse_diff(text),
    }
}

#[test]
fn resolve_line_maps_identity_to_content_line() {
    let text = "diff --git a/src/foo.rs b/src/foo.rs\n\
                index 1a2b3c4..5d6e7f8 100644\n\
                --- a/src/foo.rs\n\
                +++ b/src/foo.rs\n\
                @@ -8,4 +8,4 @@ use std::io;\n\
                \x20fn a() {}\n\
                -    let old = 1;\n\
                -    let old2 = 2;\n\
                +    let new = 1;\n\
                \x20ctx();\n";
    let diff = diff_from(text);
    let m = |kind, new_line, old_line| LineMetadata {
        kind,
        new_line,
        old_line,
        file: "src/foo.rs".into(),
    };

    // Content lines, in order: 0=context fn a, 1=del old, 2=del old2, 3=add new, 4=context ctx.
    assert_eq!(
        resolve_line(&diff, &m(LineKind::Context, 8, None)),
        Some((0, 0, 0))
    );
    // Consecutive deletions share new-line 9; only old-line tells them apart.
    assert_eq!(
        resolve_line(&diff, &m(LineKind::Deleted, 9, Some(9))),
        Some((0, 0, 1))
    );
    assert_eq!(
        resolve_line(&diff, &m(LineKind::Deleted, 9, Some(10))),
        Some((0, 0, 2))
    );
    assert_eq!(
        resolve_line(&diff, &m(LineKind::Added, 9, None)),
        Some((0, 0, 3))
    );
    assert_eq!(
        resolve_line(&diff, &m(LineKind::Context, 10, None)),
        Some((0, 0, 4))
    );
    // Unknown file / missing line resolve to None.
    assert_eq!(resolve_line(&diff, &m(LineKind::Added, 999, None)), None);
}

#[test]
fn parses_hunk_and_file_header_records() {
    let out = parse_ansi_lines(
        "\x1b]1717;1;f;;;src/foo.rs\x1b\\file header\n\
         \x1b]1717;1;h;8;;src/foo.rs\x1b\\hunk header\n",
    )
    .lines;
    assert_eq!(out[0].records[0].kind, LineKind::FileHeader);
    assert_eq!(out[0].records[0].old_line, None);
    assert_eq!(out[1].records[0].kind, LineKind::HunkHeader);
    assert_eq!(out[1].records[0].new_line, 8);
}

#[test]
fn resolve_hunk_matches_on_new_line_start() {
    let text = "diff --git a/f.rs b/f.rs\n\
                index 1..2 100644\n\
                --- a/f.rs\n\
                +++ b/f.rs\n\
                @@ -8,2 +8,2 @@\n\
                -a\n\
                +b\n\
                @@ -40,2 +40,2 @@\n\
                -c\n\
                +d\n";
    let diff = diff_from(text);
    let h = |new_line| LineMetadata {
        kind: LineKind::HunkHeader,
        new_line,
        old_line: None,
        file: "f.rs".into(),
    };
    assert_eq!(resolve_hunk(&diff, &h(8)), Some((0, 0)));
    assert_eq!(resolve_hunk(&diff, &h(40)), Some((0, 1)));
    assert_eq!(resolve_hunk(&diff, &h(999)), None);
}

#[test]
fn escapes_come_off() {
    assert_eq!(
        strip_ansi("\x1b[1mdiff --git\x1b[m\n\x1b[32m+a\x1b[m\n"),
        "diff --git\n+a\n"
    );
}

/// Nothing that controls a terminal is left in a line: carriage returns, bells and
/// escapes go, tabs stay.
#[test]
fn lines_hold_nothing_but_text() {
    let parsed = parse_ansi_lines("a\r\n\tb\x07\x1b[1mc\x1b\x0b\n\x1b[3\u{e9}1m\u{1b}");
    for line in &parsed.lines {
        assert!(
            line.text.chars().all(|c| c == '\t' || c >= ' '),
            "{:?}",
            line.text
        );
    }
    assert_eq!(parsed.lines[0].text, "a");
    assert_eq!(parsed.lines[1].text, "\tbc");
    assert_eq!(strip_ansi("one\r\ntwo\r\n"), "one\ntwo\n");
}
