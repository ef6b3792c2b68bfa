//! The page shown for what git piped in, or for the command that produced it.
//!
//! Set as git's pager, the program is handed the very bytes `git diff` / `git
//! show` produce, so the patch text is the source of truth exactly as it is
//! everywhere else — the difference is only where it came from. git colours what
//! it writes to a pager, so the text is stripped of escape sequences before it is
//! parsed; the colours in the view are the renderer's, applied afterwards.

use crate::ansi;
use crate::calling_process;
use crate::calling_process::GitCommand;
use crate::diff::{Diff, FileDiff};
use crate::diff_items;
use crate::diff_renderer;
use crate::diff_renderer::ParsedLine;
use crate::item;
use crate::item::{Item, ItemRow, RenderedRow};
use crate::item_data;
use crate::item_data::RefView;
use crate::log_items;
use crate::log_items::{CommitRecord, CommitRef};
use crate::rendered_log;
use crate::rendered_log::RenderedCommit;
use crate::style;
use crate::style::{Modifier, Style};
use crate::text;
use vstd::prelude::*;

verus! {

/// Where the rows come from each time the screen is rebuilt.
#[derive(Debug)]
pub enum Source {
    /// A question git can be put again, the command that produced the patch having
    /// been found. Asking again is what makes it a live view — staging a hunk
    /// changes what it shows — and the question itself can be edited, so what comes
    /// back is classified afresh on every ask.
    Live {
        git: GitCommand,
        /// The command as git put it, to say when what is being asked is no longer
        /// that.
        found: String,
    },
    /// A patch no command was found for: a saved patch file, another repository's,
    /// one piped in from a process already gone. It stays as it came, and is given
    /// a structure.
    Patch(Diff),
    /// Output with no diff in it: a log, a blame, a grep, a man page. There is no
    /// structure to impose, so the renderer draws it and what it says about the
    /// rows it drew decides what they are.
    Unstructured(String),
}

impl Source {
    /// The command that was found is what the patch is: it says what the patch is a
    /// diff of, and so which operations it admits, and it can be put again. Without
    /// one, the patch stays as it came and whatever of it is a diff is given a
    /// structure. `file_diffs` are the files there are in the patch's plain text.
    ///
    /// The files the user has said to `hide` are dropped from the question before it
    /// is first asked, so the command holds them like any other path.
    pub fn of(
        patch: String,
        git_argv: Option<Vec<String>>,
        hide: &Vec<String>,
        file_diffs: Vec<FileDiff>,
    ) -> (source: Source)
        ensures
            match (
                match git_argv {
                    Some(argv) => calling_process::subcommand_of(text::string_views(argv@)),
                    None => None,
                }
            ) {
                Some(at) => {
                    let argv = text::string_views(git_argv->0@);
                    &&& source matches Source::Live { git, found }
                    &&& git.wf()
                    &&& git.subcommand == at
                    &&& git@ == calling_process::asking_paths(
                        argv,
                        at + 1,
                        calling_process::patterns_of(argv, at + 1) + text::string_views(
                            hide@,
                        ).map_values(|glob: Seq<char>| seq!['!'] + glob),
                    )
                    &&& found@ == calling_process::line_of(argv, at, None)
                },
                None => if file_diffs@.len() == 0 {
                    source == Source::Unstructured(patch)
                } else {
                    &&& source matches Source::Patch(diff)
                    &&& diff.file_diffs == file_diffs
                    &&& diff.text@ == diff_renderer::plain_text(
                        diff_renderer::page_of(ansi::events_of(patch@)).finished().lines,
                    )
                },
            },
    {
        if let Some(argv) = git_argv {
            if let Some(git) = GitCommand::of(argv) {
                let found = git.line(None);
                let patterns = calling_process::hiding(git.file_patterns(), hide);
                let git = git.asking_for(&patterns);
                return Source::Live { git, found };
            }
        }
        if file_diffs.len() == 0 {
            return Source::Unstructured(patch);
        }
        let text = diff_renderer::strip_ansi(patch.as_str());
        Source::Patch(Diff { text, file_diffs })
    }

    /// The command being asked, where there is one to edit.
    pub fn git_command(&self) -> (git: Option<&GitCommand>)
        ensures
            match *self {
                Source::Live { git: held, .. } => git == Some(&held),
                _ => git is None,
            },
    {
        match self {
            Source::Live { git, .. } => Some(git),
            _ => None,
        }
    }
}

/// What git answered: what it printed, or what it complained about. A command the
/// user can edit is a command the user can get wrong, and an empty screen does not
/// say what git thought of it. (`git diff --exit-code` answers with a status too,
/// so a command that answered at all is taken to have worked.)
pub fn answer(success: bool, stdout: &[u8], stderr: &[u8]) -> (answer: Result<String, String>)
    ensures
        match answer {
            Ok(printed) => (success || stdout@.len() > 0) && printed@ == text::utf8_lossy(stdout@),
            Err(complaint) => !success && stdout@.len() == 0 && complaint@ == text::first_line(
                text::utf8_lossy(stderr@),
            ),
        },
{
    if !success && stdout.len() == 0 {
        let complaint = text::lossy(stderr);
        return Err(text::opening_line(complaint.as_str()));
    }
    Ok(text::lossy(stdout))
}

/// What the row that says what is being asked looks like.
pub open spec fn dim() -> Style {
    Style { add_modifier: Modifier { bits: style::DIM }, ..style::plain() }
}

/// The row that says what is being asked, where there is anything to say.
pub open spec fn asked_items(line: Seq<char>, found: Seq<char>) -> Seq<ItemRow> {
    if line == found {
        seq![]
    } else {
        seq![
            ItemRow {
                unselectable: true,
                rendered: Some(seq![(line, dim())]),
                ..item::plain_item()
            },
        ]
    }
}

/// One line saying what is being asked, and only when that is not what git was
/// asked: a view with files hidden from it must not pass for the whole patch. When
/// it is git's own question there is nothing to say.
pub fn asked_rows(line: &str, found: &str) -> (items: Vec<Item>)
    ensures
        item::item_views(items@) == asked_items(line@, found@),
{
    let mut items: Vec<Item> = Vec::new();
    if text::same_text(line, found) {
        proof {
            assert(item::item_views(items@) =~= seq![]);
        }
        return items;
    }
    let mut row: RenderedRow = Vec::new();
    let mut dimmed = Style::new();
    dimmed.add_modifier = Modifier { bits: style::DIM };
    row.push((line.to_owned(), dimmed));
    let ghost shown = row@;
    let item = Item { unselectable: true, rendered: Some(row), ..Item::plain() };
    proof {
        assert(item::row_view(shown) =~= seq![(line@, dim())]);
        assert(item@ =~= asked_items(line@, found@)[0]);
    }
    items.push(item);
    proof {
        assert(item::item_views(items@) =~= asked_items(line@, found@));
    }
    items
}

pub open spec fn is_hex(c: char) -> bool {
    '0' <= c <= '9' || 'a' <= c <= 'f' || 'A' <= c <= 'F'
}

/// What the first line of a patch that is of a commit starts with.
pub const COMMIT_MARK: &'static str = "commit ";

/// The commit a patch is of, named in its first line.
pub open spec fn commit_of(patch: Seq<char>) -> Option<Seq<char>> {
    let line = text::first_line(patch);
    if !COMMIT_MARK@.is_prefix_of(line) {
        None
    } else {
        match text::first_word(line.skip(COMMIT_MARK@.len() as int)) {
            Some(word) => if forall|i: int| 0 <= i < word.len() ==> is_hex(#[trigger] word[i]) {
                Some(word)
            } else {
                None
            },
            None => None,
        }
    }
}

/// The commit a patch from `git show` is of, named in its first line.
pub fn commit_named_by(patch: &str) -> (commit: Option<String>)
    ensures
        item_data::maybe_text(commit) == commit_of(patch@),
{
    let line = text::opening_line(patch);
    if !text::starts_with(line.as_str(), COMMIT_MARK) {
        return None;
    }
    let mark = text::to_chars(COMMIT_MARK);
    let chars = text::to_chars(line.as_str());
    let rest = text::from_chars(chars.as_slice(), mark.len(), chars.len());
    proof {
        assert(rest@ =~= line@.skip(COMMIT_MARK@.len() as int));
    }
    let (word, _) = text::two_words(rest.as_str());
    match word {
        Some(word) => {
            let letters = text::to_chars(word.as_str());
            let mut i: usize = 0;
            while i < letters.len()
                invariant
                    i <= letters@.len(),
                    letters@ == word@,
                    text::first_word(line@.skip(COMMIT_MARK@.len() as int)) == Some(word@),
                    line@ == text::first_line(patch@),
                    COMMIT_MARK@.is_prefix_of(line@),
                    forall|k: int| 0 <= k < i ==> is_hex(#[trigger] word@[k]),
                decreases letters@.len() - i,
            {
                let c = letters[i];
                if !(('0' <= c && c <= '9') || ('a' <= c && c <= 'f') || ('A' <= c && c <= 'F')) {
                    proof {
                        assert(!is_hex(word@[i as int]));
                    }
                    return None;
                }
                i += 1;
            }
            Some(word)
        },
        None => None,
    }
}

/// What the diff of a file starts with.
pub const DIFF_MARK: &'static str = "diff --git ";

/// What the diff of a file starts with, behind another line.
pub const NEXT_DIFF_MARK: &'static str = "\ndiff --git ";

/// How much of a patch comes before the first file's diff, where anything does.
pub open spec fn opens_with(patch: Seq<char>, len: int) -> bool {
    &&& !DIFF_MARK@.is_prefix_of(patch)
    &&& text::first_at(patch, NEXT_DIFF_MARK@, len - 1)
}

/// What a patch opens with: the commit it is of. It belongs to no file, so there is
/// no structure to give it. A patch whose first line already begins a file's diff
/// opens with nothing.
pub fn preamble(patch: &str) -> (opening: Option<String>)
    ensures
        match opening {
            Some(opening) => opening@.len() > 0 && opens_with(patch@, opening@.len() as int)
                && opening@ == patch@.take(opening@.len() as int),
            None => forall|len: int| !opens_with(patch@, len),
        },
{
    if text::starts_with(patch, DIFF_MARK) {
        return None;
    }
    let chars = text::to_chars(patch);
    let mark = text::to_chars(NEXT_DIFF_MARK);
    match text::find_chars(&chars, &mark, 0) {
        Some(at) => {
            proof {
                reveal_strlit("\ndiff --git ");
                assert(patch@.skip(at as int).len() >= mark@.len());
            }
            let count = chars.len();
            let opening = text::from_chars(chars.as_slice(), 0, at + 1);
            proof {
                assert(opening@ =~= patch@.take(at + 1));
            }
            Some(opening)
        },
        None => {
            proof {
                assert forall|len: int| !opens_with(patch@, len) by {
                    if text::first_at(patch@, NEXT_DIFF_MARK@, len - 1) {
                        assert(!text::stands_at(patch@, NEXT_DIFF_MARK@, len - 1));
                    }
                }
            }
            None
        },
    }
}

/// Text as the renderer drew it: its rows, and which of them are of which commit,
/// where the renderer says so.
#[derive(Debug)]
pub struct Printed {
    pub lines: Vec<ParsedLine>,
    pub blocks: Option<Vec<RenderedCommit>>,
}

impl Printed {
    /// Whether the rows can be drawn.
    pub open spec fn wf(&self) -> bool {
        forall|i: int| 0 <= i < self.lines@.len() ==> (#[trigger] self.lines@[i]).wf()
    }

    /// Whether there is a commit, or that there is none, for each of the runs of
    /// rows.
    pub open spec fn resolved(&self, commits: Seq<Option<CommitRecord>>) -> bool {
        self.blocks matches Some(blocks) ==> blocks@.len() == commits.len()
    }

    /// Read what the renderer drew.
    pub fn read(output: &str) -> (printed: Printed)
        ensures
            printed.wf(),
            diff_renderer::row_views(printed.lines@) == rendered_log::printed_rows(output@),
            printed.blocks is Some <==> rendered_log::names_commits(
                rendered_log::printed_rows(output@),
            ),
            printed.blocks matches Some(blocks) ==> rendered_log::block_views(blocks@)
                == rendered_log::blocks_of(rendered_log::printed_rows(output@)),
    {
        let parsed = diff_renderer::parse_ansi_lines(output);
        let blocks = rendered_log::group_rows(&parsed.lines);
        Printed { lines: parsed.lines, blocks }
    }
}

/// The rows of text that is not given a structure. A renderer that says which
/// commit a row belongs to has turned it into a log; one that says nothing has just
/// drawn it.
pub open spec fn text_rows(
    printed: Printed,
    commits: Seq<Option<CommitRecord>>,
    refs: Seq<(Seq<char>, RefView)>,
    now: int,
) -> Seq<ItemRow> {
    match printed.blocks {
        Some(blocks) => rendered_log::rendered_log_rows(
            rendered_log::block_views(blocks@),
            commits,
            refs,
            now,
        ),
        None => rendered_log::unstructured(diff_renderer::row_views(printed.lines@)),
    }
}

/// The rows of text that is not given a structure.
pub fn rows(
    printed: &Printed,
    commits: &Vec<Option<CommitRecord>>,
    refs: &Vec<CommitRef>,
    now: i64,
) -> (items: Vec<Item>)
    requires
        printed.wf(),
        printed.resolved(commits@),
        forall|i: int|
            0 <= i < commits@.len() ==> ((#[trigger] commits@[i]) matches Some(commit)
                ==> log_items::datable(now as int, commit.seconds as int)),
    ensures
        item::item_views(items@) == text_rows(
            *printed,
            commits@,
            log_items::commit_ref_views(refs@),
            now as int,
        ),
{
    match &printed.blocks {
        Some(blocks) => rendered_log::rendered_log_items(blocks, commits, refs, now),
        None => rendered_log::plain_rows(&printed.lines),
    }
}

fn joined(first: Vec<Item>, second: Vec<Item>) -> (items: Vec<Item>)
    ensures
        item::item_views(items@) == item::item_views(first@) + item::item_views(second@),
{
    let mut items = first;
    let mut more = second;
    items.append(&mut more);
    proof {
        assert(item::item_views(items@) =~= item::item_views(first@) + item::item_views(second@));
    }
    items
}

/// The page for an answer with no diff in it: what is being asked, where that needs
/// saying, and the answer's rows.
pub fn text_page(
    asked: Vec<Item>,
    printed: &Printed,
    commits: &Vec<Option<CommitRecord>>,
    refs: &Vec<CommitRef>,
    now: i64,
) -> (items: Vec<Item>)
    requires
        printed.wf(),
        printed.resolved(commits@),
        forall|i: int|
            0 <= i < commits@.len() ==> ((#[trigger] commits@[i]) matches Some(commit)
                ==> log_items::datable(now as int, commit.seconds as int)),
    ensures
        item::item_views(items@) == item::item_views(asked@) + text_rows(
            *printed,
            commits@,
            log_items::commit_ref_views(refs@),
            now as int,
        ),
{
    let shown = rows(printed, commits, refs, now);
    joined(asked, shown)
}

/// The rows of a diff as they are shown, with the cursor let onto every line of a hunk
/// if `visit_context` asks for it.
pub open spec fn stopping(rows: Seq<ItemRow>, visit_context: bool) -> Seq<ItemRow> {
    if visit_context {
        rows.map_values(|row: ItemRow| diff_items::visited(row))
    } else {
        rows
    }
}

/// The rows of the diff a page shows.
pub open spec fn page_diff(diff: Diff, diff_id: u64, rendered: Option<Seq<char>>) -> Seq<ItemRow> {
    if rendered is Some && diff_items::speaks_protocol(rendered->0) {
        diff_items::rendered_files(
            diff,
            diff_id,
            0,
            false,
            None,
            diff_items::rendered_rows(rendered->0),
            diff.file_diffs@.len(),
        )
    } else {
        diff_items::first_files(diff, diff_id, 0, false, None, diff.file_diffs@.len())
    }
}

/// The page for an answer with a diff in it: what is being asked, where that needs
/// saying; what the patch opens with, as the renderer drew it; and the diff. The
/// cursor passes over the context lines of a hunk unless it is to visit them.
pub fn diff_page(
    asked: Vec<Item>,
    opening: Option<&str>,
    diff: &Diff,
    diff_id: u64,
    rendered: Option<&str>,
    visit_context: bool,
) -> (items: Vec<Item>)
    requires
        diff.wf(),
    ensures
        item::item_views(items@) == item::item_views(asked@) + (match opening {
            Some(opening) => rendered_log::unstructured(rendered_log::printed_rows(opening@)),
            None => seq![],
        }) + stopping(page_diff(*diff, diff_id, text::maybe(rendered)), visit_context),
{
    let above = match opening {
        Some(opening) => {
            let parsed = diff_renderer::parse_ansi_lines(opening);
            let drawn = rendered_log::plain_rows(&parsed.lines);
            joined(asked, drawn)
        },
        None => {
            proof {
                assert(item::item_views(asked@) + seq![] =~= item::item_views(asked@));
            }
            asked
        },
    };
    let mut files = diff_items::create_diff_items(diff, diff_id, 0, false, &None, rendered);
    if visit_context {
        diff_items::visit_context_lines(&mut files);
    }
    joined(above, files)
}

} // verus!
