//! What a row of a screen stands for.

use crate::text;
use std::ops::Range;
use vstd::prelude::*;

verus! {

/// The headings rows are listed under.
#[derive(Debug, Clone, Copy, PartialEq, Eq, Structural)]
pub enum SectionHeader {
    Tags,
    Branches,
    UntrackedFiles,
    UnstagedChanges,
    StagedChanges,
    Stashes,
    RecentCommits,
}

/// A name that points at a commit.
#[derive(Debug, PartialEq, Eq)]
pub enum Ref {
    Tag(String),
    Head(String),
    Remote(String),
}

/// A name that points at a commit.
#[verifier::ext_equal]
pub enum RefView {
    Tag(Seq<char>),
    Head(Seq<char>),
    Remote(Seq<char>),
}

impl View for Ref {
    type V = RefView;

    open spec fn view(&self) -> RefView {
        match *self {
            Ref::Tag(name) => RefView::Tag(name@),
            Ref::Head(name) => RefView::Head(name@),
            Ref::Remote(name) => RefView::Remote(name@),
        }
    }
}

impl Clone for Ref {
    fn clone(&self) -> (copy: Ref)
        ensures
            copy == *self,
    {
        match self {
            Ref::Tag(name) => Ref::Tag(name.clone()),
            Ref::Head(name) => Ref::Head(name.clone()),
            Ref::Remote(name) => Ref::Remote(name.clone()),
        }
    }
}

/// What some names are.
pub open spec fn ref_views(refs: Seq<Ref>) -> Seq<RefView> {
    refs.map_values(|reference: Ref| reference@)
}

/// What a row of a screen stands for. A diff is told apart from others by the
/// number it goes by.
#[derive(Debug, PartialEq)]
pub enum ItemData {
    Raw(String),
    Header(SectionHeader),
    Delta { diff: u64, file_i: usize, commit: Option<String> },
    Hunk { diff: u64, file_i: usize, hunk_i: usize },
    HunkLine {
        diff: u64,
        file_i: usize,
        hunk_i: usize,
        line_i: usize,
        /// What is drawn of the line, in bytes of the hunk.
        line_range: Range<usize>,
        /// The lines of the hunk that acting on this row acts on.
        line_indices: Vec<usize>,
    },
    Stash { message: String, stash_ref: String, id: usize },
    Commit {
        oid: String,
        short_id: String,
        associated_references: Vec<Ref>,
        summary: String,
        author: String,
        age: String,
    },
    RebaseTodo { index: usize },
    BlameCodeLine { line: usize },
    Error(String),
}

/// What a row of a screen stands for.
#[verifier::ext_equal]
pub enum Meaning {
    Raw(Seq<char>),
    Header(SectionHeader),
    Delta { diff: u64, file_i: usize, commit: Option<Seq<char>> },
    Hunk { diff: u64, file_i: usize, hunk_i: usize },
    HunkLine {
        diff: u64,
        file_i: usize,
        hunk_i: usize,
        line_i: usize,
        line_range: Range<usize>,
        line_indices: Seq<usize>,
    },
    Stash { message: Seq<char>, stash_ref: Seq<char>, id: usize },
    Commit {
        oid: Seq<char>,
        short_id: Seq<char>,
        associated_references: Seq<RefView>,
        summary: Seq<char>,
        author: Seq<char>,
        age: Seq<char>,
    },
    RebaseTodo { index: usize },
    BlameCodeLine { line: usize },
    Error(Seq<char>),
}

/// What a text is, if there is one.
pub open spec fn maybe_text(text: Option<String>) -> Option<Seq<char>> {
    match text {
        Some(text) => Some(text@),
        None => None,
    }
}

impl View for ItemData {
    type V = Meaning;

    open spec fn view(&self) -> Meaning {
        match *self {
            ItemData::Raw(text) => Meaning::Raw(text@),
            ItemData::Header(header) => Meaning::Header(header),
            ItemData::Delta { diff, file_i, commit } => Meaning::Delta {
                diff,
                file_i,
                commit: maybe_text(commit),
            },
            ItemData::Hunk { diff, file_i, hunk_i } => Meaning::Hunk { diff, file_i, hunk_i },
            ItemData::HunkLine { diff, file_i, hunk_i, line_i, line_range, line_indices } =>
                Meaning::HunkLine {
                diff,
                file_i,
                hunk_i,
                line_i,
                line_range,
                line_indices: line_indices@,
            },
            ItemData::Stash { message, stash_ref, id } => Meaning::Stash {
                message: message@,
                stash_ref: stash_ref@,
                id,
            },
            ItemData::Commit { oid, short_id, associated_references, summary, author, age } =>
                Meaning::Commit {
                oid: oid@,
                short_id: short_id@,
                associated_references: ref_views(associated_references@),
                summary: summary@,
                author: author@,
                age: age@,
            },
            ItemData::RebaseTodo { index } => Meaning::RebaseTodo { index },
            ItemData::BlameCodeLine { line } => Meaning::BlameCodeLine { line },
            ItemData::Error(text) => Meaning::Error(text@),
        }
    }
}

impl Meaning {
    /// Whether rows nest under this one, so that it can be folded.
    pub open spec fn is_section(self) -> bool {
        ||| self is Header
        ||| self is Delta
        ||| self is Hunk
        ||| self is Commit
        ||| self is RebaseTodo
    }

    /// Whether this is a line within something that is selected as a whole.
    pub open spec fn is_sub_line(self) -> bool {
        self is HunkLine || self is BlameCodeLine
    }

    /// Where this sits in a patch: a file, a hunk within it, and the line within
    /// that.
    pub open spec fn position(self) -> Option<(usize, Option<usize>, Option<usize>)> {
        match self {
            Meaning::Delta { file_i, .. } => Some((file_i, None, None)),
            Meaning::Hunk { file_i, hunk_i, .. } => Some((file_i, Some(hunk_i), None)),
            Meaning::HunkLine { file_i, hunk_i, line_i, .. } => Some(
                (file_i, Some(hunk_i), Some(line_i)),
            ),
            _ => None,
        }
    }
}

/// Whether two rows are content lines of one hunk, and so can be selected
/// together: a patch reaches no further than that.
pub open spec fn in_same_hunk(a: Meaning, b: Meaning) -> bool {
    match (a, b) {
        (
            Meaning::HunkLine { diff, file_i, hunk_i, .. },
            Meaning::HunkLine { diff: b_diff, file_i: b_file_i, hunk_i: b_hunk_i, .. },
        ) => diff == b_diff && file_i == b_file_i && hunk_i == b_hunk_i,
        _ => false,
    }
}

/// A copy of some text, if there is any.
pub fn clone_maybe(text: &Option<String>) -> (copy: Option<String>)
    ensures
        maybe_text(copy) == maybe_text(*text),
{
    match text {
        Some(text) => Some(text.clone()),
        None => None,
    }
}

/// A copy of some names.
pub fn clone_refs(refs: &Vec<Ref>) -> (copy: Vec<Ref>)
    ensures
        ref_views(copy@) == ref_views(refs@),
{
    let mut copy: Vec<Ref> = Vec::new();
    let mut i: usize = 0;
    while i < refs.len()
        invariant
            i <= refs@.len(),
            copy@ =~= refs@.take(i as int),
        decreases refs@.len() - i,
    {
        copy.push(refs[i].clone());
        i += 1;
    }
    proof {
        assert(copy@ =~= refs@);
    }
    copy
}

/// A copy of some numbers.
pub fn clone_indices(indices: &Vec<usize>) -> (copy: Vec<usize>)
    ensures
        copy@ == indices@,
{
    let mut copy: Vec<usize> = Vec::new();
    let mut i: usize = 0;
    while i < indices.len()
        invariant
            i <= indices@.len(),
            copy@ =~= indices@.take(i as int),
        decreases indices@.len() - i,
    {
        copy.push(indices[i]);
        i += 1;
    }
    proof {
        assert(copy@ =~= indices@);
    }
    copy
}

impl ItemData {
    /// Nothing but an empty row.
    pub fn empty() -> (data: ItemData)
        ensures
            data@ == Meaning::Raw(seq![]),
    {
        let text = String::new();
        assert(text@ =~= Seq::<char>::empty());
        ItemData::Raw(text)
    }

    /// Whether rows nest under this one, so that it can be folded.
    pub fn is_section(&self) -> (is: bool)
        ensures
            is == self@.is_section(),
    {
        match self {
            ItemData::Header(_)
            | ItemData::Delta { .. }
            | ItemData::Hunk { .. }
            | ItemData::Commit { .. }
            | ItemData::RebaseTodo { .. } => true,
            _ => false,
        }
    }

    /// Whether this is a line within something that is selected as a whole.
    pub fn is_sub_line(&self) -> (is: bool)
        ensures
            is == self@.is_sub_line(),
    {
        match self {
            ItemData::HunkLine { .. } | ItemData::BlameCodeLine { .. } => true,
            _ => false,
        }
    }

    pub fn is_hunk_line(&self) -> (is: bool)
        ensures
            is == (self@ is HunkLine),
    {
        match self {
            ItemData::HunkLine { .. } => true,
            _ => false,
        }
    }

    pub fn is_hunk(&self) -> (is: bool)
        ensures
            is == (self@ is Hunk),
    {
        match self {
            ItemData::Hunk { .. } => true,
            _ => false,
        }
    }
}

impl Clone for ItemData {
    fn clone(&self) -> (copy: ItemData)
        ensures
            copy@ == self@,
    {
        match self {
            ItemData::Raw(text) => ItemData::Raw(text.clone()),
            ItemData::Header(header) => ItemData::Header(*header),
            ItemData::Delta { diff, file_i, commit } => ItemData::Delta {
                diff: *diff,
                file_i: *file_i,
                commit: clone_maybe(commit),
            },
            ItemData::Hunk { diff, file_i, hunk_i } => ItemData::Hunk {
                diff: *diff,
                file_i: *file_i,
                hunk_i: *hunk_i,
            },
            ItemData::HunkLine { diff, file_i, hunk_i, line_i, line_range, line_indices } =>
                ItemData::HunkLine {
                diff: *diff,
                file_i: *file_i,
                hunk_i: *hunk_i,
                line_i: *line_i,
                line_range: line_range.start..line_range.end,
                line_indices: clone_indices(line_indices),
            },
            ItemData::Stash { message, stash_ref, id } => ItemData::Stash {
                message: message.clone(),
                stash_ref: stash_ref.clone(),
                id: *id,
            },
            ItemData::Commit { oid, short_id, associated_references, summary, author, age } =>
                ItemData::Commit {
                oid: oid.clone(),
                short_id: short_id.clone(),
                associated_references: clone_refs(associated_references),
                summary: summary.clone(),
                author: author.clone(),
                age: age.clone(),
            },
            ItemData::RebaseTodo { index } => ItemData::RebaseTodo { index: *index },
            ItemData::BlameCodeLine { line } => ItemData::BlameCodeLine { line: *line },
            ItemData::Error(text) => ItemData::Error(text.clone()),
        }
    }
}

/// Whether two rows are content lines of one hunk, and so can be selected
/// together: a patch reaches no further than that.
pub fn same_hunk(a: &ItemData, b: &ItemData) -> (same: bool)
    ensures
        same == in_same_hunk(a@, b@),
{
    match (a, b) {
        (
            ItemData::HunkLine { diff, file_i, hunk_i, .. },
            ItemData::HunkLine { diff: b_diff, file_i: b_file_i, hunk_i: b_hunk_i, .. },
        ) => *diff == *b_diff && *file_i == *b_file_i && *hunk_i == *b_hunk_i,
        _ => false,
    }
}

/// Where a row sits in the patch, for the rows that sit anywhere in one: a
/// file, a hunk within it, and for a content row the line within that. Two rows
/// of one wrapped line share a position, which is right: they are one line.
pub fn diff_position(data: &ItemData) -> (position: Option<
    (usize, Option<usize>, Option<usize>),
>)
    ensures
        position == data@.position(),
{
    match data {
        ItemData::Delta { file_i, .. } => Some((*file_i, None, None)),
        ItemData::Hunk { file_i, hunk_i, .. } => Some((*file_i, Some(*hunk_i), None)),
        ItemData::HunkLine { file_i, hunk_i, line_i, .. } => Some(
            (*file_i, Some(*hunk_i), Some(*line_i)),
        ),
        _ => None,
    }
}

/// Whether a reference is one the log annotates commits with.
pub open spec fn is_listed(name: Seq<char>) -> bool {
    !"/HEAD"@.is_suffix_of(name) && !"prefetch/remotes/"@.is_prefix_of(name)
}

/// Whether a reference is one the log annotates commits with.
pub fn listed(name: &str) -> (is: bool)
    ensures
        is == is_listed(name@),
{
    !text::ends_with(name, "/HEAD") && !text::starts_with(name, "prefetch/remotes/")
}

} // verus!
