//! A parsed patch: the text of it, and where in that text its files, hunks and
//! changes are. All ranges count bytes of the whole text.

use crate::text;
use std::collections::hash_map::DefaultHasher;
use std::hash::Hasher;
use std::ops::Range;
use vstd::prelude::*;
use vstd::std_specs::hash::DefaultHasherAdditionalSpecFns;

verus! {

/// What a patch is a diff of, which is what decides whether staging or unstaging
/// part of it means anything.
#[derive(Debug, Clone, Copy, PartialEq, Eq, Structural)]
pub enum DiffType {
    WorkdirToIndex,
    IndexToTree,
    TreeToTree,
}

/// A replaced stretch of lines: the old lines, and the new ones right after them.
#[derive(Debug)]
pub struct Change {
    pub old: Range<usize>,
    pub new: Range<usize>,
}

#[derive(Debug)]
pub struct HunkHeader {
    pub range: Range<usize>,
    /// The first line of the hunk, as the old file numbers it.
    pub old_line_start: u32,
    /// The first line of the hunk, as the new file numbers it.
    pub new_line_start: u32,
}

#[derive(Debug)]
pub struct HunkContent {
    pub range: Range<usize>,
    pub changes: Vec<Change>,
}

#[derive(Debug)]
pub struct Hunk {
    pub header: HunkHeader,
    pub content: HunkContent,
}

#[derive(Debug)]
pub struct FileHeader {
    pub range: Range<usize>,
    pub old_file: String,
    pub new_file: String,
}

#[derive(Debug)]
pub struct FileDiff {
    pub header: FileHeader,
    pub hunks: Vec<Hunk>,
}

#[derive(Debug)]
pub struct Diff {
    pub text: String,
    pub file_diffs: Vec<FileDiff>,
}

/// What is hashed of a text: its bytes, and one that no text holds.
pub open spec fn text_written(text: Seq<char>) -> Seq<Seq<u8>> {
    seq![vstd::utf8::encode_utf8(text), seq![0xffu8]]
}

/// What is hashed of two texts: how many they are, and each of them.
pub open spec fn pair_written(first: Seq<char>, second: Seq<char>) -> Seq<Seq<u8>> {
    seq![vstd::bytes::spec_u64_to_le_bytes(2)] + text_written(first) + text_written(second)
}

fn write_text(hasher: &mut DefaultHasher, text: &str)
    ensures
        final(hasher)@ == old(hasher)@ + text_written(text@),
{
    let end: [u8; 1] = [0xff];
    hasher.write(text.as_bytes());
    hasher.write(end.as_slice());
    proof {
        assert(end@ =~= seq![0xffu8]);
        assert(hasher@ =~= old(hasher)@ + text_written(text@));
    }
}

/// What tells a row apart from every other one on a screen, by a text.
pub fn text_id(text: &str) -> (id: u64)
    ensures
        id == DefaultHasher::spec_finish(text_written(text@)),
{
    let mut hasher = DefaultHasher::new();
    write_text(&mut hasher, text);
    proof {
        assert(hasher@ =~= text_written(text@));
    }
    hasher.finish()
}

/// What tells a row apart from every other one on a screen, by two texts.
pub fn pair_id(first: &str, second: &str) -> (id: u64)
    ensures
        id == DefaultHasher::spec_finish(pair_written(first@, second@)),
{
    let count = vstd::bytes::u64_to_le_bytes(2);
    let mut hasher = DefaultHasher::new();
    hasher.write(count.as_slice());
    write_text(&mut hasher, first);
    write_text(&mut hasher, second);
    proof {
        assert(hasher@ =~= pair_written(first@, second@));
    }
    hasher.finish()
}

/// Whether a byte range lies in `text`, between characters.
pub open spec fn range_in(text: Seq<char>, range: Range<usize>) -> bool {
    &&& text::boundary(text, range.start as int)
    &&& text::boundary(text, range.end as int)
    &&& range.start <= range.end
}

/// Whether a byte range lies in `text`, between characters.
fn lies_in(text: &str, range: &Range<usize>) -> (lies: bool)
    ensures
        lies == range_in(text@, *range),
{
    range.start <= range.end && text::at_boundary(text, range.start) && text::at_boundary(
        text,
        range.end,
    )
}

/// Whether each change's new lines come after its old ones, and each change
/// after the one before it.
pub open spec fn changes_ordered(changes: Seq<Change>) -> bool {
    &&& forall|i: int|
        0 <= i < changes.len() ==> (#[trigger] changes[i]).old.end <= changes[i].new.start
    &&& forall|i: int, j: int|
        0 <= i < j < changes.len() ==> (#[trigger] changes[i]).new.end <= (
        #[trigger] changes[j]).old.start
}

/// Whether some changes follow one another through a range of the text.
pub open spec fn changes_in(text: Seq<char>, changes: Seq<Change>, range: Range<usize>) -> bool {
    &&& changes_ordered(changes)
    &&& forall|i: int|
        0 <= i < changes.len() ==> {
            &&& range_in(text, (#[trigger] changes[i]).old)
            &&& range_in(text, changes[i].new)
            &&& range.start <= changes[i].old.start
            &&& changes[i].new.end <= range.end
        }
}

/// Whether some changes follow one another through a range of the text.
fn follow_through(text: &str, changes: &Vec<Change>, range: &Range<usize>) -> (follow: bool)
    ensures
        follow == changes_in(text@, changes@, *range),
{
    let mut floor: usize = 0;
    let mut i: usize = 0;
    while i < changes.len()
        invariant
            i <= changes@.len(),
            i > 0 ==> floor == changes@[i - 1].new.end,
            changes_in(text@, changes@.take(i as int), *range),
            forall|k: int| 0 <= k < i ==> (#[trigger] changes@[k]).new.end <= floor,
        decreases changes@.len() - i,
    {
        let change = &changes[i];
        let ghost known = changes@.take(i as int);
        let ghost next = changes@.take(i + 1);
        proof {
            assert(next =~= known.push(*change));
        }
        if !(lies_in(text, &change.old) && lies_in(text, &change.new) && change.old.end
            <= change.new.start && range.start <= change.old.start && change.new.end
            <= range.end && (i == 0 || floor <= change.old.start)) {
            proof {
                assert(changes@[i as int] == *change);
                if i > 0 {
                    assert(changes@[i - 1].new.end == floor);
                }
            }
            return false;
        }
        proof {
            assert forall|a: int, b: int| 0 <= a < b < next.len() implies (#[trigger] next[a]).new.end
                <= (#[trigger] next[b]).old.start by {
                if b < i {
                    assert(known[a] == next[a] && known[b] == next[b]);
                } else {
                    assert(changes@[a].new.end <= floor);
                }
            }
            assert forall|a: int| 0 <= a < next.len() implies (#[trigger] next[a]).old.end
                <= next[a].new.start && range_in(text@, next[a].old) && range_in(
                text@,
                next[a].new,
            ) && range.start <= next[a].old.start && next[a].new.end <= range.end by {
                if a < i {
                    assert(known[a] == next[a]);
                }
            }
        }
        floor = change.new.end;
        i = i + 1;
    }
    proof {
        assert(changes@.take(changes@.len() as int) =~= changes@);
    }
    true
}

impl Hunk {
    /// Whether this hunk lies in a text.
    fn holds(&self, text: &str) -> (holds: bool)
        ensures
            holds == self.wf(text@),
    {
        let range = &self.content.range;
        let start = self.header.range.start;
        if !text::at_boundary(text, start) || start > range.start {
            return false;
        }
        if !lies_in(text, range) || !follow_through(text, &self.content.changes, range) {
            return false;
        }
        let lines = text::split_lines(text::str_slice(text, range.start, range.end));
        proof {
            assert(lines@.len() == text::views(lines@).len());
        }
        let old_room: u32 = u32::MAX - self.header.old_line_start;
        let new_room: u32 = u32::MAX - self.header.new_line_start;
        lines.len() <= old_room as usize && lines.len() <= new_room as usize
    }

    /// The lines of this hunk, markers included.
    pub open spec fn body(&self, text: Seq<char>) -> Seq<char> {
        text::slice(text, self.content.range.start as int, self.content.range.end as int)
    }

    pub open spec fn wf(&self, text: Seq<char>) -> bool {
        &&& text::boundary(text, self.header.range.start as int)
        &&& self.header.range.start <= self.content.range.start
        &&& range_in(text, self.content.range)
        &&& changes_in(text, self.content.changes@, self.content.range)
        &&& self.header.old_line_start + text::lines(self.body(text)).len() <= u32::MAX
        &&& self.header.new_line_start + text::lines(self.body(text)).len() <= u32::MAX
    }
}

impl FileDiff {
    /// Whether the header and the hunks of this file lie in a text.
    fn holds(&self, text: &str) -> (holds: bool)
        ensures
            holds == self.wf(text@),
    {
        if !lies_in(text, &self.header.range) {
            return false;
        }
        let mut h: usize = 0;
        while h < self.hunks.len()
            invariant
                h <= self.hunks@.len(),
                forall|k: int| 0 <= k < h ==> #[trigger] self.hunks@[k].wf(text@),
            decreases self.hunks@.len() - h,
        {
            if !self.hunks[h].holds(text) {
                return false;
            }
            h = h + 1;
        }
        true
    }

    pub open spec fn wf(&self, text: Seq<char>) -> bool {
        &&& range_in(text, self.header.range)
        &&& forall|h: int| 0 <= h < self.hunks@.len() ==> #[trigger] self.hunks@[h].wf(text)
    }

    /// Whether a path is this file's, under its new name or its old one.
    pub open spec fn is_named(&self, path: Seq<char>) -> bool {
        path == self.header.new_file@ || path == self.header.old_file@
    }
}

impl Diff {
    /// The ranges of a diff lie in its text, in order, and its line numbers can
    /// be counted up to the end of each hunk.
    pub open spec fn wf(&self) -> bool {
        forall|f: int|
            0 <= f < self.file_diffs@.len() ==> #[trigger] self.file_diffs@[f].wf(self.text@)
    }

    /// Whether the diff is of the text it comes with.
    pub fn holds(&self) -> (holds: bool)
        ensures
            holds == self.wf(),
    {
        let mut f: usize = 0;
        while f < self.file_diffs.len()
            invariant
                f <= self.file_diffs@.len(),
                forall|k: int| 0 <= k < f ==> #[trigger] self.file_diffs@[k].wf(self.text@),
            decreases self.file_diffs@.len() - f,
        {
            if !self.file_diffs[f].holds(self.text.as_str()) {
                return false;
            }
            f = f + 1;
        }
        true
    }

    /// Whether there is a hunk of that number in a file of that number.
    pub open spec fn has_hunk(&self, file_i: int, hunk_i: int) -> bool {
        &&& 0 <= file_i < self.file_diffs@.len()
        &&& 0 <= hunk_i < self.file_diffs@[file_i].hunks@.len()
    }

    /// The lines of a hunk, markers included.
    pub open spec fn hunk_text(&self, file_i: int, hunk_i: int) -> Seq<char> {
        self.file_diffs@[file_i].hunks@[hunk_i].body(self.text@)
    }

    /// What the diff of a file opens with.
    pub open spec fn header_text(&self, file_i: int) -> Seq<char> {
        let range = self.file_diffs@[file_i].header.range;
        text::slice(self.text@, range.start as int, range.end as int)
    }

    /// A hunk with its header.
    pub open spec fn whole_hunk(&self, file_i: int, hunk_i: int) -> Seq<char> {
        let hunk = self.file_diffs@[file_i].hunks@[hunk_i];
        text::slice(
            self.text@,
            hunk.header.range.start as int,
            hunk.content.range.end as int,
        )
    }

    /// What a file goes by: its header, so that it keeps its place on a screen for as
    /// long as it is the same change to the same file.
    pub open spec fn id_of_file(&self, file_i: int) -> u64 {
        DefaultHasher::spec_finish(text_written(self.header_text(file_i)))
    }

    /// What a hunk goes by: the header of its file, and the hunk.
    pub open spec fn id_of_hunk(&self, file_i: int, hunk_i: int) -> u64 {
        DefaultHasher::spec_finish(
            pair_written(self.header_text(file_i), self.whole_hunk(file_i, hunk_i)),
        )
    }

    /// What the diff of a file opens with.
    pub fn file_diff_header(&self, file_i: usize) -> (header: &str)
        requires
            self.wf(),
            file_i < self.file_diffs@.len(),
        ensures
            header@ == self.header_text(file_i as int),
    {
        let file_diff = &self.file_diffs[file_i];
        proof {
            assert(file_diff.wf(self.text@));
        }
        let range = &file_diff.header.range;
        text::str_slice(self.text.as_str(), range.start, range.end)
    }

    /// A hunk with its header.
    pub fn hunk(&self, file_i: usize, hunk_i: usize) -> (hunk: &str)
        requires
            self.wf(),
            self.has_hunk(file_i as int, hunk_i as int),
        ensures
            hunk@ == self.whole_hunk(file_i as int, hunk_i as int),
    {
        let file_diff = &self.file_diffs[file_i];
        proof {
            assert(file_diff.wf(self.text@));
            assert(file_diff.hunks@[hunk_i as int].wf(self.text@));
        }
        let hunk = &file_diff.hunks[hunk_i];
        text::str_slice(self.text.as_str(), hunk.header.range.start, hunk.content.range.end)
    }

    /// What a file goes by.
    pub fn file_id(&self, file_i: usize) -> (id: u64)
        requires
            self.wf(),
            file_i < self.file_diffs@.len(),
        ensures
            id == self.id_of_file(file_i as int),
    {
        text_id(self.file_diff_header(file_i))
    }

    /// What a hunk goes by.
    pub fn hunk_id(&self, file_i: usize, hunk_i: usize) -> (id: u64)
        requires
            self.wf(),
            self.has_hunk(file_i as int, hunk_i as int),
        ensures
            id == self.id_of_hunk(file_i as int, hunk_i as int),
    {
        pair_id(self.file_diff_header(file_i), self.hunk(file_i, hunk_i))
    }

    /// The lines of a hunk, markers included.
    pub fn hunk_content(&self, file_i: usize, hunk_i: usize) -> (content: &str)
        requires
            self.wf(),
            self.has_hunk(file_i as int, hunk_i as int),
        ensures
            content@ == self.hunk_text(file_i as int, hunk_i as int),
    {
        let file_diff = &self.file_diffs[file_i];
        proof {
            assert(file_diff.wf(self.text@));
            assert(file_diff.hunks@[hunk_i as int].wf(self.text@));
        }
        let range = &file_diff.hunks[hunk_i].content.range;
        text::str_slice(self.text.as_str(), range.start, range.end)
    }
}

} // verus!
