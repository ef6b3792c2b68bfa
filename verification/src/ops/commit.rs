//! Committing, and fixing commits up.

use crate::item::Item;
use crate::item_data::{ItemData, Meaning};
use crate::rebase_todo;
use crate::text;
use vstd::prelude::*;

verus! {

/// How many commits are offered to be fixed up.
pub const COMMIT_PICKER_LIMIT: usize = 256;

/// A flag that can be given to git.
#[derive(Debug)]
pub struct Flag {
    pub arg: String,
    pub display: String,
    pub active: bool,
}

/// What flags can be given to git, and what they are shown as.
pub open spec fn flag_views(flags: Seq<Flag>) -> Seq<(Seq<char>, Seq<char>, bool)> {
    flags.map_values(|flag: Flag| (flag.arg@, flag.display@, flag.active))
}

/// The flags a commit can be made with, none of which is given at first.
pub open spec fn commit_flags() -> Seq<(Seq<char>, Seq<char>, bool)> {
    seq![
        ("--all"@, "Stage all modified and deleted files"@, false),
        ("--allow-empty"@, "Allow empty commit"@, false),
        ("--verbose"@, "Show diff of changes to be committed"@, false),
        ("--no-verify"@, "Disable hooks"@, false),
        ("--reset-author"@, "Claim authorship and reset author date"@, false),
        ("--signoff"@, "Add Signed-off-by line"@, false),
    ]
}

fn new_flag(arg: &str, display: &str) -> (flag: Flag)
    ensures
        flag.arg@ == arg@,
        flag.display@ == display@,
        !flag.active,
{
    Flag { arg: arg.to_owned(), display: display.to_owned(), active: false }
}

/// The flags a commit can be made with.
pub fn init_args() -> (flags: Vec<Flag>)
    ensures
        flag_views(flags@) == commit_flags(),
{
    let mut flags: Vec<Flag> = Vec::new();
    flags.push(new_flag("--all", "Stage all modified and deleted files"));
    flags.push(new_flag("--allow-empty", "Allow empty commit"));
    flags.push(new_flag("--verbose", "Show diff of changes to be committed"));
    flags.push(new_flag("--no-verify", "Disable hooks"));
    flags.push(new_flag("--reset-author", "Claim authorship and reset author date"));
    flags.push(new_flag("--signoff", "Add Signed-off-by line"));
    proof {
        assert(flag_views(flags@) =~= commit_flags());
    }
    flags
}

/// A way to commit.
#[derive(Debug, Clone, Copy, PartialEq, Eq, Structural)]
pub enum CommitKind {
    Commit,
    Amend,
    Extend,
}

/// What git is asked to commit with, before the menu's arguments.
pub open spec fn commit_words(kind: CommitKind) -> Seq<Seq<char>> {
    match kind {
        CommitKind::Commit => seq!["commit"@],
        CommitKind::Amend => seq!["commit"@, "--amend"@],
        CommitKind::Extend => seq!["commit"@, "--amend"@, "--no-edit"@],
    }
}

fn append_texts(words: &mut Vec<String>, args: &Vec<String>)
    ensures
        text::string_views(final(words)@) == text::string_views(old(words)@) + text::string_views(
            args@,
        ),
{
    let mut more = text::clone_strings(args);
    let ghost front = words@;
    let ghost back = more@;
    words.append(&mut more);
    proof {
        assert(text::string_views(words@) =~= text::string_views(front) + text::string_views(
            back,
        ));
    }
}

/// The arguments git commits with.
pub fn commit_cmd(kind: CommitKind, args: &Vec<String>) -> (words: Vec<String>)
    ensures
        text::string_views(words@) == commit_words(kind) + text::string_views(args@),
{
    let mut words: Vec<String> = Vec::new();
    words.push("commit".to_owned());
    if kind != CommitKind::Commit {
        words.push("--amend".to_owned());
    }
    if kind == CommitKind::Extend {
        words.push("--no-edit".to_owned());
    }
    proof {
        assert(text::string_views(words@) =~= commit_words(kind));
    }
    append_texts(&mut words, args);
    words
}

/// The arguments git commits a fixup of a commit with.
pub fn commit_fixup_cmd(args: &Vec<String>, rev: &str) -> (words: Vec<String>)
    ensures
        text::string_views(words@) == seq!["commit"@, "--fixup"@, rev@] + text::string_views(args@),
{
    let mut words: Vec<String> = Vec::new();
    words.push("commit".to_owned());
    words.push("--fixup".to_owned());
    words.push(rev.to_owned());
    proof {
        assert(text::string_views(words@) =~= seq!["commit"@, "--fixup"@, rev@]);
    }
    append_texts(&mut words, args);
    words
}

/// The commit before another.
pub fn parent(reference: &str) -> (parent: String)
    ensures
        parent@ == reference@.push('^'),
{
    let mut parent = reference.to_owned();
    parent.push('^');
    parent
}

/// What git is asked to fold fixups with.
pub open spec fn autosquash_words(rev: Seq<char>) -> Seq<Seq<char>> {
    seq![
        "rebase"@,
        "-i"@,
        "-q"@,
        "--autostash"@,
        "--keep-empty"@,
        "--autosquash"@,
        rev.push('^'),
    ]
}

/// The arguments git folds the fixups of a commit into it with, and the variable
/// that keeps it from opening an editor.
pub fn rebase_autosquash_cmd(rev: &str) -> (command: (Vec<String>, (String, String)))
    ensures
        text::string_views(command.0@) == autosquash_words(rev@),
        command.1.0@ == rebase_todo::EDITOR_VAR@,
        command.1.1@ == ":"@,
{
    let mut words: Vec<String> = Vec::new();
    words.push("rebase".to_owned());
    words.push("-i".to_owned());
    words.push("-q".to_owned());
    words.push("--autostash".to_owned());
    words.push("--keep-empty".to_owned());
    words.push("--autosquash".to_owned());
    words.push(parent(rev));
    proof {
        assert(text::string_views(words@) =~= autosquash_words(rev@));
    }
    (words, (rebase_todo::EDITOR_VAR.to_owned(), ":".to_owned()))
}

/// A commit to pick: what it reads as, its id, and the row it is drawn as.
#[derive(Debug)]
pub struct CommitChoice {
    pub display: String,
    pub oid: String,
    pub item_index: usize,
}

/// What the commits to pick are.
pub open spec fn choice_views(choices: Seq<CommitChoice>) -> Seq<(Seq<char>, Seq<char>, int)> {
    choices.map_values(
        |choice: CommitChoice| (choice.display@, choice.oid@, choice.item_index as int),
    )
}

/// The commits of a log that can be picked.
pub open spec fn pickable(log: Seq<Item>) -> Seq<(Seq<char>, Seq<char>, int)>
    decreases log.len(),
{
    if log.len() == 0 {
        seq![]
    } else {
        let front = pickable(log.drop_last());
        match log.last().data@ {
            Meaning::Commit { oid, short_id, summary, .. } => front.push(
                (short_id.push(' ') + summary, oid, log.len() - 1),
            ),
            _ => front,
        }
    }
}

/// The commits of a log that can be picked.
pub fn commit_picker_items(log: &Vec<Item>) -> (choices: Vec<CommitChoice>)
    ensures
        choice_views(choices@) == pickable(log@),
{
    let mut choices: Vec<CommitChoice> = Vec::new();
    let mut i: usize = 0;
    proof {
        assert(log@.take(0) =~= Seq::<Item>::empty());
        assert(choice_views(choices@) =~= seq![]);
    }
    while i < log.len()
        invariant
            i <= log@.len(),
            choice_views(choices@) == pickable(log@.take(i as int)),
        decreases log@.len() - i,
    {
        let ghost before = choices@;
        proof {
            assert(log@.take(i + 1).drop_last() =~= log@.take(i as int));
            assert(log@.take(i + 1).last() == log@[i as int]);
        }
        if let ItemData::Commit { oid, short_id, summary, .. } = &log[i].data {
            let mut display = short_id.clone();
            display.push(' ');
            display.push_str(summary.as_str());
            choices.push(CommitChoice { display, oid: oid.clone(), item_index: i });
            proof {
                assert(choice_views(choices@) =~= choice_views(before).push(
                    (short_id@.push(' ') + summary@, oid@, i as int),
                ));
            }
        }
        i += 1;
    }
    proof {
        assert(log@.take(i as int) =~= log@);
    }
    choices
}

/// The commit a row is of.
pub fn selected_commit_oid(item: &Item) -> (oid: Option<String>)
    ensures
        match oid {
            Some(oid) => item.data@ matches Meaning::Commit { oid: held, .. } && held == oid@,
            None => !(item.data@ is Commit),
        },
{
    match &item.data {
        ItemData::Commit { oid, .. } => Some(oid.clone()),
        _ => None,
    }
}

/// Where the cursor of the picker starts: on a commit, if it is among those to
/// pick.
pub fn picker_cursor(choices: &Vec<CommitChoice>, oid: &str) -> (cursor: Option<usize>)
    ensures
        match cursor {
            Some(at) => at < choices@.len() && choices@[at as int].oid@ == oid@ && forall|k: int|
                0 <= k < at ==> (#[trigger] choices@[k]).oid@ != oid@,
            None => forall|k: int|
                0 <= k < choices@.len() ==> (#[trigger] choices@[k]).oid@ != oid@,
        },
{
    let mut i: usize = 0;
    while i < choices.len()
        invariant
            i <= choices@.len(),
            forall|k: int| 0 <= k < i ==> (#[trigger] choices@[k]).oid@ != oid@,
        decreases choices@.len() - i,
    {
        if text::same_text(choices[i].oid.as_str(), oid) {
            return Some(i);
        }
        i += 1;
    }
    None
}

} // verus!
