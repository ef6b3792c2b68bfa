use gitu::calling_process::{
    hiding, paging_for, quoted, read_back, without_context, words_of, EditError, GitCommand,
    ProcessRecord,
};
use gitu::diff::DiffType;

fn strings(words: &[&str]) -> Vec<String> {
    words.iter().map(|word| (*word).to_owned()).collect()
}

fn git(args: &[&str]) -> GitCommand {
    GitCommand::of(strings(args)).unwrap()
}

fn rerun(args: &[&str], context: Option<&str>) -> Vec<String> {
    git(args).command(context)
}

#[test]
fn a_git_command_is_recognised_behind_its_own_options() {
    assert_eq!(
        git(&["/usr/bin/git", "-c", "color.diff=always", "diff"]).subcommand(),
        "diff"
    );
    assert_eq!(git(&["git.exe", "show", "HEAD"]).subcommand(), "show");
    assert_eq!(GitCommand::of(vec!["ls".to_owned()]), None);
    assert_eq!(GitCommand::of(vec!["git".to_owned()]), None);
    assert_eq!(
        GitCommand::of(["git", "status"].map(String::from).to_vec()),
        None
    );
}

#[test]
fn the_program_is_the_last_part_of_its_path() {
    assert_eq!(git(&["/opt/git/bin/GIT", "log"]).subcommand, 1);
    assert_eq!(git(&["./git/.", "log"]).subcommand, 1);
    assert_eq!(git(&["bin/git/", "log"]).subcommand, 1);
    assert_eq!(GitCommand::of(strings(&["git/..", "log"])), None);
    assert_eq!(GitCommand::of(strings(&["/", "log"])), None);
    assert_eq!(GitCommand::of(strings(&[".git", "log"])), None);
    assert_eq!(GitCommand::of(strings(&["git.exe.bak", "log"])), None);
    assert_eq!(GitCommand::of(strings(&[])), None);
}

/// Whether a patch is of the working tree, of the index, or of two trees is
/// what the command says it is.
#[test]
fn the_command_says_what_the_patch_is_a_diff_of() {
    assert_eq!(git(&["git", "diff"]).diff_type(), DiffType::WorkdirToIndex);
    assert_eq!(
        git(&["git", "diff", "-U8", "--", "src/lib.rs"]).diff_type(),
        DiffType::WorkdirToIndex
    );
    assert_eq!(
        git(&["git", "diff", "--cached"]).diff_type(),
        DiffType::IndexToTree
    );
    assert_eq!(
        git(&["git", "diff", "main"]).diff_type(),
        DiffType::TreeToTree
    );
    assert_eq!(
        git(&["git", "show", "HEAD"]).diff_type(),
        DiffType::TreeToTree
    );
    assert_eq!(
        git(&["git", "diff", "--staged", "main"]).diff_type(),
        DiffType::IndexToTree
    );
    assert_eq!(
        git(&["git", "diff", "-U", "8"]).diff_type(),
        DiffType::TreeToTree
    );
}

/// What the user is given to edit is the question as it is being put, less the
/// flags that are forced on every ask.
#[test]
fn the_line_offered_for_editing_is_the_effective_command() {
    assert_eq!(git(&["git", "diff", "main"]).line(None), "git diff main");
    assert_eq!(
        git(&["/usr/bin/git", "-c", "color.ui=always", "diff"]).line(None),
        "git -c color.ui=always diff"
    );
    assert_eq!(
        git(&["git", "diff", "-U10", "main"]).line(Some("-U2")),
        "git diff -U2 main"
    );
    assert_eq!(
        git(&["git", "log", "-p", "--", "a file"]).line(None),
        "git log -p -- 'a file'"
    );
}

#[test]
fn an_edit_may_ask_git_anything_that_only_reports() {
    let edited = |line: &str| {
        git(&["/usr/bin/git", "diff", "main"])
            .edited(line)
            .map(|git| git.line(None))
    };

    assert_eq!(edited("git show HEAD~2").unwrap(), "git show HEAD~2");
    assert_eq!(edited("git log -p -- src").unwrap(), "git log -p -- src");
    assert_eq!(
        edited("git diff main -- ':(top,exclude)*_test.go'").unwrap(),
        "git diff main -- ':(top,exclude)*_test.go'"
    );
}

/// The program that was found is the program that is run, whatever the edit says.
#[test]
fn an_edit_leaves_the_program_and_gits_own_options_alone() {
    let git = git(&["/usr/bin/git", "-c", "color.ui=always", "diff"]);
    let program = |line: &str| Ok::<_, EditError>(git.edited(line)?.argv[0].clone());

    assert_eq!(
        program("git -c color.ui=always show").unwrap(),
        "/usr/bin/git"
    );
    assert!(matches!(
        program("/usr/bin/git -c color.ui=always show"),
        Err(EditError::Fixed)
    ));
    assert!(matches!(program("git show"), Err(EditError::Fixed)));
    assert!(matches!(
        program("git -c color.ui=always --git-dir=/elsewhere show"),
        Err(EditError::Writes(_))
    ));
}

/// The held command is re-run on every rebuild, so nothing that writes may
/// be held.
#[test]
fn an_edit_that_would_change_the_repository_is_refused() {
    let git = git(&["git", "diff"]);

    assert!(matches!(
        git.edited("git commit --amend"),
        Err(EditError::Writes(subcommand)) if subcommand == "commit"
    ));
    assert!(matches!(
        git.edited("git reset --hard"),
        Err(EditError::Writes(_))
    ));
    assert!(matches!(git.edited("git"), Err(EditError::Fixed)));
    assert!(matches!(
        git.edited("git diff 'unbalanced"),
        Err(EditError::Quotes)
    ));
}

#[test]
fn asking_again_keeps_the_question_and_replaces_the_context() {
    assert_eq!(
        rerun(&["git", "-c", "color.ui=always", "diff", "main"], None),
        [
            "git",
            "-c",
            "color.ui=always",
            "diff",
            "--no-ext-diff",
            "--no-color",
            "main"
        ]
    );
    assert_eq!(
        rerun(&["git", "diff", "-U10", "main", "--", "src"], Some("-U2")),
        [
            "git",
            "diff",
            "--no-ext-diff",
            "--no-color",
            "-U2",
            "main",
            "--",
            "src"
        ]
    );
    assert_eq!(
        rerun(&["git", "diff", "--unified", "10"], Some("-W")),
        ["git", "diff", "--no-ext-diff", "--no-color", "-W"]
    );
    assert_eq!(
        rerun(&["git", "diff", "--function-context"], Some("-U3")),
        ["git", "diff", "--no-ext-diff", "--no-color", "-U3"]
    );
}

#[test]
fn context_is_dropped_in_every_form_it_is_said() {
    let args = strings(&[
        "-U", "4", "--unified=5", "-W", "--no-function-context", "main", "-U7", "--unified",
    ]);
    assert_eq!(without_context(&args, 0), ["main"]);
    assert_eq!(without_context(&args, 7), Vec::<String>::new());
}

/// Whatever a word holds, quoted it reads as that word and nothing else.
#[test]
fn a_quoted_word_reads_back_as_itself() {
    let words = [
        "", " ", "a b", "it's", "''", "'", "\"", "\\", "\\'", "#x", "a#", "$HOME", "`ls`", "*", "x^!",
        "HEAD~2", "k=v", "a\nb", "a\\\nb", "\t", ":(exclude)*.lock", "wörld", "\u{2003}",
    ];
    for word in words {
        assert_eq!(read_back(word), Some(vec![word.to_owned()]), "{word:?}");
        assert_eq!(words_of(&quoted(word)), Some(vec![word.to_owned()]), "{word:?}");
    }
    assert_eq!(words_of("git 'log"), None);
    assert_eq!(words_of(""), Some(vec![]));
    assert_eq!(words_of(" a  'b c' "), Some(strings(&["a", "b c"])));
}

#[test]
fn words_are_quoted_only_where_they_need_to_be() {
    assert_eq!(quoted("HEAD~2"), "HEAD~2");
    assert_eq!(quoted("x^!"), "x^!");
    assert_eq!(quoted("^!"), "^!");
    assert_eq!(quoted("!x"), "'!x'");
    assert_eq!(quoted("x!"), "'x!'");
    assert_eq!(quoted("x^!y"), "'x^!y'");
    assert_eq!(quoted("!"), "'!'");
    assert_eq!(quoted("k=v"), "k=v");
    assert_eq!(quoted(""), "''");
    assert_eq!(quoted("it's"), "'it'\\''s'");
    assert_eq!(quoted("wörld"), "wörld");
}

/// A line that was not changed asks for what it says, whatever is in its words.
#[test]
fn the_line_offered_reads_back() {
    let git = git(&[
        "/usr/bin/git",
        "-c",
        "a b",
        "log",
        "-U4",
        "it's",
        "",
        "--",
        "a\"b\\c",
        "# not a comment",
    ]);
    let again = git.edited(&git.line(None)).unwrap();
    assert_eq!(again, git);

    let wider = git.edited(&git.line(Some("-U9"))).unwrap();
    assert_eq!(
        wider.argv,
        [
            "/usr/bin/git",
            "-c",
            "a b",
            "log",
            "-U9",
            "it's",
            "",
            "--",
            "a\"b\\c",
            "# not a comment"
        ]
    );
}

#[test]
fn asking_for_files_replaces_those_asked_for() {
    let git = git(&["git", "diff", "main", "--", "src"]);
    assert_eq!(git.file_patterns(), ["src"]);

    let hidden = git.asking_for(&hiding(git.file_patterns(), &strings(&["*.pb.rs"])));
    assert_eq!(
        hidden.argv,
        ["git", "diff", "main", "--", "src", ":(top,exclude)*.pb.rs"]
    );
    assert_eq!(hidden.file_patterns(), ["src", "!*.pb.rs"]);
    assert_eq!(
        hidden.asking_for(&Vec::new()).argv,
        ["git", "diff", "main"]
    );
    assert_eq!(git.asking_for(&git.file_patterns()), git);
}

fn process(pid: u32, parent: Option<u32>, argv: &[&str]) -> ProcessRecord {
    ProcessRecord {
        pid,
        parent,
        argv: strings(argv),
    }
}

#[test]
fn the_paged_command_is_found_above_or_beside() {
    let above = vec![
        process(1, None, &["init"]),
        process(2, Some(1), &["git", "diff"]),
        process(3, Some(2), &["sh", "-c", "pager"]),
        process(4, Some(3), &["pager"]),
    ];
    assert_eq!(paging_for(&above, 4), Some(strings(&["git", "diff"])));

    let beside = vec![
        process(2, None, &["sh"]),
        process(3, Some(2), &["git", "show", "HEAD"]),
        process(4, Some(2), &["pager"]),
    ];
    assert_eq!(
        paging_for(&beside, 4),
        Some(strings(&["git", "show", "HEAD"]))
    );

    let two_beside = vec![
        process(2, None, &["sh"]),
        process(3, Some(2), &["git", "show", "HEAD"]),
        process(4, Some(2), &["pager"]),
        process(5, Some(2), &["git", "log"]),
    ];
    assert_eq!(paging_for(&two_beside, 4), None);

    let too_far = vec![
        process(1, None, &["git", "log"]),
        process(2, Some(1), &["sh"]),
        process(3, Some(2), &["sh"]),
        process(4, Some(3), &["sh"]),
        process(5, Some(4), &["pager"]),
    ];
    assert_eq!(paging_for(&too_far, 5), None);
    assert_eq!(paging_for(&Vec::new(), 5), None);
}

/// What an edit comes to follows from the words it is split into.
#[test]
fn the_words_of_an_edit_say_what_is_asked() {
    let git = git(&["/usr/bin/git", "-c", "k=v", "diff"]);
    let words = |words: &[&str]| -> Option<Vec<String>> {
        Some(words.iter().map(|word| word.to_string()).collect())
    };
    assert_eq!(
        git.asked_by(&words(&["git", "-c", "k=v", "show", "a b"]))
            .unwrap()
            .argv,
        ["/usr/bin/git", "-c", "k=v", "show", "a b"]
    );
    assert_eq!(git.asked_by(&None), Err(EditError::Quotes));
    assert_eq!(
        git.asked_by(&words(&["git", "-c", "k=w", "show"])),
        Err(EditError::Fixed)
    );
    assert_eq!(git.asked_by(&words(&[])), Err(EditError::Fixed));
    assert_eq!(
        git.asked_by(&words(&["git", "-c", "k=v", "push"])),
        Err(EditError::Writes("push".into()))
    );
}
