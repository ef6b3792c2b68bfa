use gitu::capped_input::Capped;

const PATCH: &str = "diff --git a/f.rs b/f.rs\n\
                     --- a/f.rs\n\
                     +++ b/f.rs\n\
                     @@ -1 +1 @@\n\
                     -one\n\
                     +two\n";

fn read(text: &str, limit: u64) -> Capped {
    Capped::read(text.as_bytes(), limit)
}

#[test]
fn input_within_the_limit_arrives_whole() {
    let capped = read(PATCH, PATCH.len() as u64);
    assert_eq!(capped.text, PATCH);
    assert!(!capped.truncated);
}

#[test]
fn a_file_diff_with_no_whole_hunk_in_it_is_dropped() {
    let text = format!("{PATCH}diff --git a/g.rs b/g.rs\n--- a/g");
    let capped = read(&text, (text.len() - 1) as u64);
    assert_eq!(capped.text, PATCH);
    assert!(capped.truncated);
}

#[test]
fn a_hunk_cut_short_is_dropped_and_the_one_before_it_kept() {
    let text = format!("{PATCH}@@ -9 +9 @@\n-three\n+fo");
    assert_eq!(read(&text, (text.len() - 1) as u64).text, PATCH);
}

#[test]
fn text_with_no_diff_in_it_is_cut_at_a_line() {
    assert_eq!(read("one\ntwo\nthr", 10).text, "one\ntwo\n");
}

/// The cut is by byte and a character may span the limit, so what is read is
/// not necessarily valid UTF-8 even when the input is.
#[test]
fn a_character_split_by_the_limit_does_not_fail_the_read() {
    let text = "one\ntwö\n";
    let inside_the_character = (text.find('ö').unwrap() + 1) as u64;
    assert_eq!(read(text, inside_the_character).text, "one\n");
}

#[test]
fn a_coloured_patch_is_cut_at_the_same_place() {
    let coloured = |text: &str| {
        text.lines()
            .map(|line| format!("\x1b[1m{line}\x1b[m\n"))
            .collect::<String>()
    };
    let patch = coloured(PATCH);
    let text = format!(
        "{patch}{}",
        coloured("diff --git a/g.rs b/g.rs\n--- a/g.rs")
    );

    assert_eq!(read(&text, (text.len() - 1) as u64).text, patch);
}

#[test]
fn bytes_that_are_no_text_are_replaced() {
    let capped = Capped::read(b"a\xffb\n", 10);
    assert_eq!(capped.text, "a\u{fffd}b\n");
    assert!(!capped.truncated);
}

#[test]
fn an_escape_that_does_not_end_hides_nothing() {
    assert_eq!(read("one\n\x1b[1;@@ 2\nthree", 13).text, "one\n\x1b[1;@@ 2\n");
    assert_eq!(read("one\n\x1b[1m\x1b[31m@@ 2\nthree", 18).text, "one\n");
    assert_eq!(read("nothing whole", 4).text, "");
}

/// What is past the limit is dropped, down to the byte.
#[test]
fn no_more_than_the_limit_is_kept() {
    let capped = read("one\ntwo", 3);
    assert_eq!(capped.text, "");
    assert!(capped.truncated);
    assert_eq!(read("one\ntwo", 4).text, "one\n");
    assert_eq!(read("one\ntwo", 0).text, "");
    for limit in 0..20 {
        assert!(read("aä\n€\n😀\nb\n", limit).text.len() as u64 <= limit);
    }
    assert_eq!(read("one\n", u64::MAX).text, "one\n");
}
