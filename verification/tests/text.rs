use gitu::diff::{
    pair_id, text_id, Change, Diff, FileDiff, FileHeader, Hunk, HunkContent, HunkHeader,
};
use gitu::item::{blank_line, fill_empty, Item};
use gitu::item_data::{diff_position, listed, same_hunk, ItemData};
use gitu::osc::{field_is, names_metadata, rejoin};
use gitu::text::{
    at_boundary, byte_length, find_chars, is_blank, line_texts, opening_line, replace, same_text,
    split_lines, str_slice, to_chars, to_decimal, trim, trim_end, two_words,
};
use std::collections::hash_map::DefaultHasher;
use std::hash::{Hash, Hasher};

#[test]
fn offsets_count_bytes() {
    assert_eq!(byte_length("aä€😀"), 10);
    let breaks: Vec<usize> = (0..12).filter(|at| at_boundary("aä€😀", *at)).collect();
    assert_eq!(breaks, [0, 1, 3, 6, 10]);
    assert_eq!(str_slice("aä€😀", 1, 6), "ä€");
}

#[test]
fn lines_keep_what_ends_them() {
    assert_eq!(split_lines("a\n\nb\r\nc"), ["a\n", "\n", "b\r\n", "c"]);
    assert!(split_lines("").is_empty());
    assert_eq!(split_lines("a\nb\n").concat(), "a\nb\n");
}

#[test]
fn lines_are_read_without_what_ends_them() {
    assert_eq!(line_texts("a\n\nb\r\nc"), ["a", "", "b", "c"]);
    assert_eq!(line_texts("a\r"), ["a\r"]);
    assert_eq!(opening_line("first\r\nsecond"), "first");
    assert_eq!(opening_line(""), "");
}

#[test]
fn white_space_is_trimmed() {
    assert_eq!(trim(" \t a b\u{a0}\n"), "a b");
    assert_eq!(trim_end(" a \n"), " a");
    assert!(is_blank(" \u{2003}\n"));
    assert!(!is_blank(" x"));
    assert_eq!(
        two_words("  pick  abc rest"),
        (Some("pick".to_string()), Some("abc".to_string()))
    );
    assert_eq!(two_words("noop "), (Some("noop".to_string()), None));
    assert_eq!(two_words("  "), (None, None));
}

#[test]
fn text_is_found_and_replaced() {
    assert_eq!(
        find_chars(&to_chars("abcabc"), &to_chars("bc"), 2),
        Some(4)
    );
    assert_eq!(find_chars(&to_chars("abc"), &to_chars("d"), 0), None);
    assert_eq!(replace("aaa", "aa", "b"), "ba");
    assert_eq!(
        replace("--width={width} {width}", "{width}", "80"),
        "--width=80 80"
    );
    assert!(same_text("ä", "ä"));
    assert!(!same_text("a", "ab"));
}

#[test]
fn numbers_are_written_in_decimal() {
    assert_eq!(to_decimal(0), "0");
    assert_eq!(to_decimal(1080), "1080");
    assert_eq!(to_decimal(u64::MAX), u64::MAX.to_string());
}

#[test]
fn fields_of_a_command_are_told_apart() {
    assert!(field_is(&b"C".to_vec(), b'C'));
    assert!(!field_is(&b"CC".to_vec(), b'C'));
    assert!(names_metadata(&b"1717".to_vec()));
    assert!(!names_metadata(&b"171".to_vec()));
    let fields = vec![b"x".to_vec(), b"a".to_vec(), b"b\xff".to_vec()];
    assert_eq!(rejoin(&fields, 1), "a;b\u{fffd}");
    assert_eq!(rejoin(&fields, 3), "");
}

fn line(file_i: usize, hunk_i: usize, line_i: usize) -> ItemData {
    ItemData::HunkLine {
        diff: 1,
        file_i,
        hunk_i,
        line_i,
        line_range: 0..1,
        line_indices: vec![line_i],
    }
}

#[test]
fn lines_are_of_the_same_hunk_or_not() {
    assert!(same_hunk(&line(0, 1, 2), &line(0, 1, 5)));
    assert!(!same_hunk(&line(0, 1, 2), &line(0, 2, 2)));
    assert!(!same_hunk(&line(0, 1, 2), &line(1, 1, 2)));
    assert!(!same_hunk(&line(0, 1, 2), &ItemData::Raw("x".into())));
    assert_eq!(
        diff_position(&line(3, 1, 2)),
        Some((3, Some(1), Some(2)))
    );
    assert_eq!(diff_position(&ItemData::Raw("x".into())), None);
    assert!(line(0, 0, 0).is_sub_line());
    assert!(line(0, 0, 0).is_hunk_line());
    assert!(!line(0, 0, 0).is_section());
    assert!(!line(0, 0, 0).is_hunk());
}

#[test]
fn a_screen_has_a_row_even_where_there_is_nothing_to_show() {
    let filled = fill_empty(vec![]);
    assert_eq!(filled.len(), 1);
    assert!(filled[0].unselectable);
    assert_eq!(fill_empty(vec![Item::plain(), blank_line()]).len(), 2);
    assert!(blank_line().unselectable);
}

#[test]
fn some_references_are_not_listed() {
    assert!(listed("main"));
    assert!(!listed("origin/HEAD"));
    assert!(!listed("prefetch/remotes/origin/main"));
}

fn diff_with(range: std::ops::Range<usize>, changes: Vec<Change>) -> Diff {
    Diff {
        text: "@@\n-ä\n+b\n".into(),
        file_diffs: vec![FileDiff {
            header: FileHeader {
                range: 0..0,
                old_file: "f".into(),
                new_file: "f".into(),
            },
            hunks: vec![Hunk {
                header: HunkHeader {
                    range: 0..3,
                    old_line_start: 1,
                    new_line_start: 1,
                },
                content: HunkContent { range, changes },
            }],
        }],
    }
}

#[test]
fn a_diff_is_of_its_text_or_not() {
    let change = |old: std::ops::Range<usize>, new: std::ops::Range<usize>| Change { old, new };
    assert!(diff_with(3..10, vec![]).holds());
    assert!(diff_with(3..10, vec![change(3..7, 7..10)]).holds());
    // Out of the text, in the middle of a character, or the wrong way round.
    assert!(!diff_with(3..11, vec![]).holds());
    assert!(!diff_with(5..10, vec![]).holds());
    assert!(!diff_with(3..10, vec![change(7..10, 3..7)]).holds());
    assert!(!diff_with(
        3..10,
        vec![change(3..7, 7..10), change(3..3, 10..10)]
    )
    .holds());
    assert!(!diff_with(7..10, vec![change(3..7, 7..10)]).holds());
    let mut counted = diff_with(3..10, vec![]);
    counted.file_diffs[0].hunks[0].header.old_line_start = u32::MAX - 1;
    assert!(!counted.holds());
}

/// What a file and a hunk go by is told by their text alone, and is what hashing it gives.
#[test]
fn files_and_hunks_go_by_their_text() {
    let hashed = |hash: &dyn Fn(&mut DefaultHasher)| {
        let mut hasher = DefaultHasher::new();
        hash(&mut hasher);
        hasher.finish()
    };
    let mut diff = diff_with(3..10, vec![]);
    diff.file_diffs[0].header.range = 0..2;
    assert_eq!(diff.file_diff_header(0), "@@");
    assert_eq!(diff.hunk(0, 0), "@@\n-ä\n+b\n");
    assert_eq!(diff.file_id(0), hashed(&|hasher| "@@".hash(hasher)));
    assert_eq!(diff.file_id(0), text_id("@@"));
    assert_eq!(diff.hunk_id(0, 0), pair_id("@@", "@@\n-ä\n+b\n"));
    assert_ne!(pair_id("a", "b"), pair_id("ab", ""));
    assert_ne!(pair_id("a", "b"), pair_id("b", "a"));
    assert_ne!(text_id("a"), text_id("b"));
    if counts_are_eight_bytes() {
        assert_eq!(pair_id("a", "b"), hashed(&|hasher| ["a", "b"].hash(hasher)));
    }
    // A header that is not of the text is no header.
    diff.file_diffs[0].header.range = 0..11;
    assert!(!diff.holds());
    diff.file_diffs[0].header.range = 0..5;
    assert!(!diff.holds());
    diff.file_diffs[0].header.range = 0..2;
    diff.file_diffs[0].hunks[0].header.range = 6..7;
    assert!(!diff.holds());
}

/// Whether counts are hashed as they are here: eight bytes, the lowest first.
fn counts_are_eight_bytes() -> bool {
    1usize.to_ne_bytes()[..] == 1u64.to_le_bytes()[..]
}
