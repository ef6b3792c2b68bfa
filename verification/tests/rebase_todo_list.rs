use gitu::rebase_todo::{
    parse, read_entries, rebase_command, RebaseTodo, Source, TodoAction, TodoEntry, APPLY_EDITOR,
    CAPTURE_EDITOR,
};

fn todo(oids: &[&str]) -> RebaseTodo {
    RebaseTodo {
        source: Source::Editing(String::new()),
        entries: oids
            .iter()
            .map(|oid| TodoEntry::Commit {
                action: TodoAction::Pick,
                oid: oid.to_string(),
            })
            .collect(),
    }
}

fn oids(todo: &RebaseTodo) -> Vec<&str> {
    todo.entries
        .iter()
        .map(|entry| match entry {
            TodoEntry::Commit { oid, .. } => oid.as_str(),
            TodoEntry::Other(line) => line.as_str(),
        })
        .collect()
}

#[test]
fn move_entry_shifts_and_reports_where_it_landed() {
    let mut todo = todo(&["a", "b", "c"]);
    assert_eq!(todo.move_entry(0, 1), 1);
    assert_eq!(oids(&todo), ["b", "a", "c"]);
    assert_eq!(todo.move_entry(1, -1), 0);
    assert_eq!(oids(&todo), ["a", "b", "c"]);
}

#[test]
fn move_entry_stops_at_the_ends() {
    let mut todo = todo(&["a", "b"]);
    assert_eq!(todo.move_entry(0, -1), 0);
    assert_eq!(todo.move_entry(1, 1), 1);
    assert_eq!(oids(&todo), ["a", "b"]);
}

#[test]
fn moving_far_off_the_list_stops_or_stays() {
    let mut todo = todo(&["a", "b", "c"]);
    assert_eq!(todo.move_entry(2, isize::MIN), 0);
    assert_eq!(oids(&todo), ["c", "a", "b"]);
    assert_eq!(todo.move_entry(0, isize::MAX), 0);
    assert_eq!(todo.move_entry(7, 0), 7);
    assert_eq!(oids(&todo), ["c", "a", "b"]);
}

#[test]
fn text_is_one_instruction_per_entry_oldest_first() {
    // The entries are held newest first, as the log view shows them; git's
    // list runs the other way.
    let mut todo = todo(&["aaa", "bbb"]);
    todo.set_action(1, TodoAction::Fixup);
    todo.entries.push(TodoEntry::Other("exec make test".into()));

    assert_eq!(todo.text(), "exec make test\nfixup bbb\npick aaa\n");
}

#[test]
fn set_action_leaves_non_commit_entries_alone() {
    let mut todo = todo(&[]);
    todo.entries.push(TodoEntry::Other("break".into()));
    todo.set_action(0, TodoAction::Drop);
    assert_eq!(todo.text(), "break\n");
}

#[test]
fn instructions_are_read_with_comments_and_blank_lines_dropped() {
    let instructions = parse("p abc first\n\n# a comment\r\n  exec make test \nnoop\nd  def\r\n");
    let lines: Vec<_> = instructions.iter().map(|i| i.line.as_str()).collect();
    assert_eq!(lines, ["p abc first", "exec make test", "noop", "d  def"]);
    assert_eq!(instructions[0].action, Some(TodoAction::Pick));
    assert_eq!(instructions[0].rev.as_deref(), Some("abc"));
    assert_eq!(instructions[1].action, None);
    assert_eq!(instructions[1].rev.as_deref(), Some("make"));
    assert_eq!(instructions[2].rev, None);
    assert_eq!(instructions[3].action, Some(TodoAction::Drop));

    let oids = vec![Some("abcabc".to_string()), None, None, None];
    assert_eq!(
        read_entries(&instructions, &oids),
        vec![
            TodoEntry::Other("d  def".into()),
            TodoEntry::Other("noop".into()),
            TodoEntry::Other("exec make test".into()),
            TodoEntry::Commit {
                action: TodoAction::Pick,
                oid: "abcabc".into()
            },
        ]
    );
}

#[test]
fn every_action_reads_back_from_its_word_and_its_letter() {
    for action in [
        TodoAction::Pick,
        TodoAction::Reword,
        TodoAction::Edit,
        TodoAction::Squash,
        TodoAction::Fixup,
        TodoAction::Drop,
    ] {
        assert_eq!(TodoAction::parse(action.keyword()), Some(action));
        assert_eq!(TodoAction::parse(&action.keyword()[..1]), Some(action));
    }
    assert_eq!(TodoAction::parse("x"), None);
}

#[test]
fn a_list_that_is_written_and_read_again_is_the_same() {
    let mut todo = todo(&["aaa", "bbb", "ccc"]);
    todo.set_action(0, TodoAction::Reword);
    todo.set_action(2, TodoAction::Edit);
    todo.entries.insert(1, TodoEntry::Other("label onto".into()));

    let instructions = parse(&todo.text());
    let resolved: Vec<Option<String>> = instructions
        .iter()
        .map(|i| if i.action.is_some() { i.rev.clone() } else { None })
        .collect();
    assert_eq!(read_entries(&instructions, &resolved), todo.entries);
}

#[test]
fn only_the_commits_are_asked_for() {
    let mut todo = todo(&["aaa", "bbb"]);
    todo.entries.insert(0, TodoEntry::Other("break".into()));
    assert_eq!(todo.revs(), ["--no-walk=unsorted", "aaa", "bbb"]);
    todo.entries.truncate(1);
    assert_eq!(todo.revs(), Vec::<String>::new());
}

#[test]
fn a_captured_list_is_applied_with_a_command() {
    let mut held = todo(&["aaa"]);
    held.source = Source::Captured {
        base: "main".into(),
        args: vec!["--autosquash".into()],
        todo_file: "/tmp/list".into(),
        workdir: "/repo".into(),
    };
    let start = held.start();
    assert_eq!(start.path, "/tmp/list");
    assert_eq!(start.text, "pick aaa\n");
    let command = start.command.unwrap();
    assert_eq!(command.args, ["rebase", "-i", "--autosquash", "main"]);
    assert_eq!(command.dir, "/repo");
    assert_eq!(
        command.env,
        [
            ("GIT_SEQUENCE_EDITOR".to_string(), APPLY_EDITOR.to_string()),
            ("GITU_REBASE_TODO".to_string(), "/tmp/list".to_string()),
        ]
    );

    let capture = rebase_command("main", &vec![], CAPTURE_EDITOR, "/tmp/list", "/repo");
    assert_eq!(capture.args, ["rebase", "-i", "main"]);
    assert_eq!(capture.env[0].1, CAPTURE_EDITOR);

    let mut own = todo(&["aaa"]);
    own.source = Source::Editing("/repo/.git/rebase-merge/git-rebase-todo".into());
    let start = own.start();
    assert_eq!(start.path, "/repo/.git/rebase-merge/git-rebase-todo");
    assert!(start.command.is_none());
}
