//! Which line of the patch a row a renderer drew stands for.

use crate::diff;
use crate::diff::Diff;
use crate::diff_renderer;
use crate::diff_renderer::{Identity, LineKind};
use crate::text;
use vstd::prelude::*;
use vstd::utf8::encode_utf8;

verus! {

/// The lines of a hunk that are lines of the old file: neither ones that were added, nor
/// notes about the line before.
pub open spec fn of_old_file(lines: Seq<Seq<char>>) -> Seq<Seq<char>> {
    lines.filter(|line: Seq<char>| line[0] != '+' && line[0] != '\\')
}

/// The lines of a hunk that are lines of the new file: neither ones that were removed,
/// nor notes about the line before.
pub open spec fn of_new_file(lines: Seq<Seq<char>>) -> Seq<Seq<char>> {
    lines.filter(|line: Seq<char>| line[0] != '-' && line[0] != '\\')
}

/// Lines are counted as lines of the file they are in, and of no other.
pub proof fn lines_count_where_they_are(lines: Seq<Seq<char>>)
    ensures
        diff_renderer::old_count(lines) == of_old_file(lines).len(),
        diff_renderer::new_count(lines) == of_new_file(lines).len(),
    decreases lines.len(),
{
    reveal(Seq::filter);
    if lines.len() > 0 {
        lines_count_where_they_are(lines.drop_last());
    }
}

proof fn lemma_counts_concat(a: Seq<Seq<char>>, b: Seq<Seq<char>>)
    ensures
        diff_renderer::old_count(a + b) == diff_renderer::old_count(a) + diff_renderer::old_count(b),
        diff_renderer::new_count(a + b) == diff_renderer::new_count(a) + diff_renderer::new_count(b),
    decreases b.len(),
{
    if b.len() == 0 {
        assert(a + b =~= a);
    } else {
        assert((a + b).drop_last() =~= a + b.drop_last());
        assert((a + b).last() == b.last());
        lemma_counts_concat(a, b.drop_last());
    }
}

/// A line put into a hunk moves what follows it in the files it is a line of: one that
/// was added only in the new file, one that was removed only in the old one, a note in
/// neither, and any other in both.
pub proof fn a_line_moves_its_own_files(lines: Seq<Seq<char>>, at: int, line: Seq<char>)
    requires
        0 <= at <= lines.len(),
    ensures
        diff_renderer::old_count(lines.insert(at, line)) - diff_renderer::old_count(lines) == (if line[0]
            == '+' || line[0] == '\\' {
            0int
        } else {
            1
        }),
        diff_renderer::new_count(lines.insert(at, line)) - diff_renderer::new_count(lines) == (if line[0]
            == '-' || line[0] == '\\' {
            0int
        } else {
            1
        }),
{
    let (before, behind) = (lines.take(at), lines.skip(at));
    let one = seq![line];
    assert(lines =~= before + behind);
    assert(lines.insert(at, line) =~= before + one + behind);
    lemma_counts_concat(before, behind);
    lemma_counts_concat(before + one, behind);
    lemma_counts_concat(before, one);
    assert(one.drop_last() =~= Seq::<Seq<char>>::empty());
    assert(one.last() == line);
    assert(diff_renderer::old_count(one.drop_last()) == 0);
    assert(diff_renderer::new_count(one.drop_last()) == 0);
}

/// A patch undone is the same patch with its sides exchanged: what is counted in one file
/// of it is what was counted in the other.
pub proof fn undoing_exchanges_the_counts(lines: Seq<Seq<char>>, undone: Seq<Seq<char>>)
    requires
        lines.len() == undone.len(),
        forall|i: int|
            0 <= i < lines.len() ==> undone[i][0] == (if (#[trigger] lines[i])[0] == '+' {
                '-'
            } else if lines[i][0] == '-' {
                '+'
            } else {
                lines[i][0]
            }),
    ensures
        diff_renderer::old_count(undone) == diff_renderer::new_count(lines),
        diff_renderer::new_count(undone) == diff_renderer::old_count(lines),
    decreases lines.len(),
{
    if lines.len() > 0 {
        let n = lines.len() - 1;
        assert(lines[n] == lines.last() && undone[n] == undone.last());
        assert forall|i: int| 0 <= i < n implies undone.drop_last()[i][0] == (if (
        #[trigger] lines.drop_last()[i])[0] == '+' {
            '-'
        } else if lines.drop_last()[i][0] == '-' {
            '+'
        } else {
            lines.drop_last()[i][0]
        }) by {
            assert(lines[i] == lines.drop_last()[i]);
        }
        undoing_exchanges_the_counts(lines.drop_last(), undone.drop_last());
    }
}

/// The lines of a hunk.
pub open spec fn hunk_lines(diff: Diff, f: int, h: int) -> Seq<Seq<char>> {
    text::lines(diff.hunk_text(f, h))
}

/// The number a line of a hunk has in the old file, if it is one of it.
pub open spec fn old_number(diff: Diff, f: int, h: int, l: int) -> int {
    diff.file_diffs@[f].hunks@[h].header.old_line_start + of_old_file(
        hunk_lines(diff, f, h).take(l),
    ).len()
}

/// The number a line of a hunk has in the new file, if it is one of it.
pub open spec fn new_number(diff: Diff, f: int, h: int, l: int) -> int {
    diff.file_diffs@[f].hunks@[h].header.new_line_start + of_new_file(
        hunk_lines(diff, f, h).take(l),
    ).len()
}

/// Whether a diff has such a line.
pub open spec fn has_line(diff: Diff, f: int, h: int, l: int) -> bool {
    &&& 0 <= f < diff.file_diffs@.len()
    &&& 0 <= h < diff.file_diffs@[f].hunks@.len()
    &&& 0 <= l < hunk_lines(diff, f, h).len()
}

/// Whether a record says of itself what a line is: what was added and what stays by its
/// number in the new file, what was removed by its number in the old one.
pub open spec fn describes(diff: Diff, meta: Identity, f: int, h: int, l: int) -> bool {
    &&& has_line(diff, f, h, l)
    &&& match meta.kind {
        LineKind::Added => hunk_lines(diff, f, h)[l][0] == '+' && meta.new_line == new_number(
            diff,
            f,
            h,
            l,
        ),
        LineKind::Context => hunk_lines(diff, f, h)[l][0] == ' ' && meta.new_line == new_number(
            diff,
            f,
            h,
            l,
        ),
        LineKind::Deleted => hunk_lines(diff, f, h)[l][0] == '-' && match meta.old_line {
            Some(n) => n == old_number(diff, f, h, l),
            None => false,
        },
        _ => false,
    }
}

/// Whether a file goes by a path, before the change or after it, and none before it does.
pub open spec fn first_of_path(diff: Diff, path: Seq<char>, f: int) -> bool {
    &&& 0 <= f < diff.file_diffs@.len()
    &&& path == diff.file_diffs@[f].header.new_file@ || path
        == diff.file_diffs@[f].header.old_file@
    &&& forall|g: int|
        0 <= g < f ==> path != (#[trigger] diff.file_diffs@[g]).header.new_file@ && path
            != diff.file_diffs@[g].header.old_file@
}

proof fn lemma_described(diff: Diff, meta: Identity, f: int, h: int, l: int)
    ensures
        describes(diff, meta, f, h, l) == diff_renderer::is_at(diff, meta, f, h, l),
{
    if has_line(diff, f, h, l) {
        lines_count_where_they_are(hunk_lines(diff, f, h).take(l));
    }
}

proof fn lemma_first_of_path(diff: Diff, path: Seq<char>, f: int)
    ensures
        first_of_path(diff, path, f) == diff_renderer::first_named(diff.file_diffs@, path, f),
{
    if diff_renderer::first_named(diff.file_diffs@, path, f) {
        assert forall|g: int| 0 <= g < f implies path != (
        #[trigger] diff.file_diffs@[g]).header.new_file@ && path
            != diff.file_diffs@[g].header.old_file@ by {
            assert(!diff.file_diffs@[g].is_named(path));
        }
    }
    if first_of_path(diff, path, f) {
        assert forall|g: int| 0 <= g < f implies !(#[trigger] diff.file_diffs@[g]).is_named(
            path,
        ) by {}
    }
}

/// A record leads to the line it describes: the first such line of the first file that
/// goes by its path. Where it leads nowhere, that file has no such line.
pub proof fn records_lead_to_what_they_describe(diff: Diff, meta: Identity)
    ensures
        match diff_renderer::place_of(diff, meta) {
            Some((f, h, l)) => {
                &&& first_of_path(diff, meta.file, f)
                &&& describes(diff, meta, f, h, l)
                &&& forall|h2: int, l2: int|
                    h2 < h || (h2 == h && l2 < l) ==> !#[trigger] describes(diff, meta, f, h2, l2)
            },
            None => forall|f: int, h: int, l: int|
                #![trigger describes(diff, meta, f, h, l)]
                first_of_path(diff, meta.file, f) ==> !describes(diff, meta, f, h, l),
        },
{
    match diff_renderer::place_of(diff, meta) {
        Some((f, h, l)) => {
            let place = (f, h, l);
            assert(exists|place: (int, int, int)| diff_renderer::is_place(diff, meta, place));
            assert(diff_renderer::is_place(diff, meta, place));
            lemma_first_of_path(diff, meta.file, f);
            lemma_described(diff, meta, f, h, l);
            assert forall|h2: int, l2: int|
                h2 < h || (h2 == h && l2 < l) implies !#[trigger] describes(
                diff,
                meta,
                f,
                h2,
                l2,
            ) by {
                lemma_described(diff, meta, f, h2, l2);
                assert(!diff_renderer::is_at(diff, meta, f, h2, l2));
            }
        },
        None => {
            assert forall|f: int, h: int, l: int|
                #![trigger describes(diff, meta, f, h, l)]
                first_of_path(diff, meta.file, f) implies !describes(diff, meta, f, h, l) by {
                if describes(diff, meta, f, h, l) {
                    lemma_first_of_path(diff, meta.file, f);
                    lemma_first_place(diff, meta, f, h, l, 0, 0);
                }
            }
        },
    }
}

/// Where a record is of some line, it leads somewhere.
proof fn lemma_first_place(diff: Diff, meta: Identity, f: int, h: int, l: int, h2: int, l2: int)
    requires
        diff_renderer::first_named(diff.file_diffs@, meta.file, f),
        describes(diff, meta, f, h, l),
        0 <= h2 <= h,
        0 <= l2,
        h2 == h ==> l2 <= l,
        l2 <= hunk_lines(diff, f, h2).len(),
        forall|a: int, b: int|
            a < h2 || (a == h2 && b < l2) ==> !#[trigger] describes(diff, meta, f, a, b),
    ensures
        exists|place: (int, int, int)| #[trigger] diff_renderer::is_place(diff, meta, place),
    decreases h - h2, hunk_lines(diff, f, h2).len() - l2,
{
    if describes(diff, meta, f, h2, l2) {
        lemma_described(diff, meta, f, h2, l2);
        assert forall|a: int, b: int| a < h2 || (a == h2 && b < l2) implies !#[trigger] diff_renderer::is_at(
            diff,
            meta,
            f,
            a,
            b,
        ) by {
            lemma_described(diff, meta, f, a, b);
            assert(!describes(diff, meta, f, a, b));
        }
        assert(diff_renderer::is_place(diff, meta, (f, h2, l2)));
    } else if l2 < hunk_lines(diff, f, h2).len() {
        lemma_first_place(diff, meta, f, h, l, h2, l2 + 1);
    } else {
        assert forall|a: int, b: int| a < h2 + 1 || (a == h2 + 1 && b < 0) implies !#[trigger] describes(
            diff,
            meta,
            f,
            a,
            b,
        ) by {}
        lemma_first_place(diff, meta, f, h, l, h2 + 1, 0);
    }
}

/// Every line of a file whose hunks follow one another is found by its number: one that
/// was removed by that in the old file, one that was added or stays by that in the new.
pub proof fn every_line_is_found_by_its_number(diff: Diff, meta: Identity, f: int, h: int, l: int)
    requires
        diff.wf(),
        first_of_path(diff, meta.file, f),
        diff_renderer::hunks_apart(diff, f),
        has_line(diff, f, h, l),
        ({
            let marker = hunk_lines(diff, f, h)[l][0];
            ||| meta.kind == LineKind::Added && marker == '+' && meta.new_line == new_number(diff, f, h, l)
            ||| meta.kind == LineKind::Context && marker == ' ' && meta.new_line == new_number(diff, f, h, l)
            ||| meta.kind == LineKind::Deleted && marker == '-' && match meta.old_line {
                Some(n) => n == old_number(diff, f, h, l),
                None => false,
            }
        }),
    ensures
        diff_renderer::place_of(diff, meta) == Some((f, h, l)),
{
    assert(describes(diff, meta, f, h, l));
    records_lead_to_what_they_describe(diff, meta);
    let (g, i, k) = diff_renderer::place_of(diff, meta)->0;
    if g < f {
        assert(diff.file_diffs@[g].header.new_file@ == meta.file || diff.file_diffs@[g].header.old_file@
            == meta.file);
    } else if f < g {
        assert(diff.file_diffs@[f].header.new_file@ == meta.file || diff.file_diffs@[f].header.old_file@
            == meta.file);
    }
    let hunks = diff.file_diffs@[f].hunks@;
    assert(!(h < i || (h == i && l < k)));
    if i < h || k < l {
        // An earlier line has a smaller number.
        let other = hunk_lines(diff, f, i);
        lines_count_where_they_are(hunk_lines(diff, f, h).take(l));
        lines_count_where_they_are(other.take(k));
        assert(other.take(other.len() as int) =~= other);
        if i < h {
            lemma_numbers_grow(other, k, other.len() as int);
            assert(hunks[i].header.new_line_start + diff_renderer::new_count(other)
                <= hunks[h].header.new_line_start);
        } else {
            lemma_numbers_grow(other, k, l);
        }
    }
}

/// A line's number is below that of every line of its file that follows.
proof fn lemma_numbers_grow(lines: Seq<Seq<char>>, a: int, b: int)
    requires
        0 <= a < b <= lines.len(),
    ensures
        lines[a][0] == '+' || lines[a][0] == ' ' ==> diff_renderer::new_count(lines.take(a))
            < diff_renderer::new_count(lines.take(b)),
        lines[a][0] == '-' ==> diff_renderer::old_count(lines.take(a)) < diff_renderer::old_count(
            lines.take(b),
        ),
        diff_renderer::new_count(lines.take(a)) <= diff_renderer::new_count(lines.take(b)),
        diff_renderer::old_count(lines.take(a)) <= diff_renderer::old_count(lines.take(b)),
    decreases b - a,
{
    assert(lines.take(b).drop_last() =~= lines.take(b - 1));
    assert(lines.take(b).last() == lines[b - 1]);
    if a < b - 1 {
        lemma_numbers_grow(lines, a, b - 1);
    }
}

/// A header record leads to the first hunk that starts at its line, of the first file
/// that goes by its path; and nowhere where no hunk of that file does.
pub proof fn header_records_lead_to_their_hunk(diff: Diff, meta: Identity)
    ensures
        match diff_renderer::header_place_of(diff, meta) {
            Some((f, h)) => {
                let hunks = diff.file_diffs@[f].hunks@;
                &&& first_of_path(diff, meta.file, f)
                &&& 0 <= h < hunks.len()
                &&& hunks[h].header.new_line_start == meta.new_line
                &&& forall|g: int|
                    0 <= g < h ==> (#[trigger] hunks[g]).header.new_line_start != meta.new_line
            },
            None => forall|f: int, h: int|
                #![trigger diff.file_diffs@[f].hunks@[h]]
                first_of_path(diff, meta.file, f) && 0 <= h < diff.file_diffs@[f].hunks@.len()
                    ==> diff.file_diffs@[f].hunks@[h].header.new_line_start != meta.new_line,
        },
{
    match diff_renderer::header_place_of(diff, meta) {
        Some((f, h)) => {
            let place = (f, h);
            assert(diff_renderer::is_header_place(diff, meta, place));
            lemma_first_of_path(diff, meta.file, f);
        },
        None => {
            assert forall|f: int, h: int|
                #![trigger diff.file_diffs@[f].hunks@[h]]
                first_of_path(diff, meta.file, f) && 0 <= h
                    < diff.file_diffs@[f].hunks@.len() implies diff.file_diffs@[f].hunks@[h].header.new_line_start
                != meta.new_line by {
                if diff.file_diffs@[f].hunks@[h].header.new_line_start == meta.new_line {
                    lemma_first_of_path(diff, meta.file, f);
                    lemma_first_header(diff, meta, f, h, 0);
                }
            }
        },
    }
}

proof fn lemma_first_header(diff: Diff, meta: Identity, f: int, h: int, g: int)
    requires
        diff_renderer::first_named(diff.file_diffs@, meta.file, f),
        0 <= g <= h < diff.file_diffs@[f].hunks@.len(),
        diff.file_diffs@[f].hunks@[h].header.new_line_start == meta.new_line,
        forall|k: int|
            0 <= k < g ==> (#[trigger] diff.file_diffs@[f].hunks@[k]).header.new_line_start
                != meta.new_line,
    ensures
        exists|place: (int, int)| #[trigger] diff_renderer::is_header_place(diff, meta, place),
    decreases h - g,
{
    if diff.file_diffs@[f].hunks@[g].header.new_line_start == meta.new_line {
        assert(diff_renderer::is_header_place(diff, meta, (f, g)));
    } else {
        lemma_first_header(diff, meta, f, h, g + 1);
    }
}

// ---------------------------------------------------------------------------
// What files and hunks go by
// ---------------------------------------------------------------------------

/// A hunk with its header is its header and its lines.
pub proof fn hunks_follow_their_header(diff: Diff, f: int, h: int)
    requires
        diff.wf(),
        diff.has_hunk(f, h),
    ensures
        diff.whole_hunk(f, h) == text::slice(
            diff.text@,
            diff.file_diffs@[f].hunks@[h].header.range.start as int,
            diff.file_diffs@[f].hunks@[h].content.range.start as int,
        ) + diff.hunk_text(f, h),
{
    assert(diff.file_diffs@[f].wf(diff.text@));
    let hunk = diff.file_diffs@[f].hunks@[h];
    assert(hunk.wf(diff.text@));
    let s = diff.text@;
    let (a, b, c) = (
        hunk.header.range.start as int,
        hunk.content.range.start as int,
        hunk.content.range.end as int,
    );
    text::lemma_boundary(s, a);
    text::lemma_boundary(s, b);
    text::lemma_boundary(s, c);
    lemma_order(s, a, b);
    lemma_order(s, b, c);
    assert(diff.whole_hunk(f, h) =~= text::slice(s, a, b) + text::slice(s, b, c));
}

proof fn lemma_order(s: Seq<char>, a: int, b: int)
    requires
        text::boundary(s, a),
        text::boundary(s, b),
        a <= b,
    ensures
        text::char_at(s, a) <= text::char_at(s, b),
{
    text::lemma_boundary(s, a);
    text::lemma_boundary(s, b);
    let (i, j) = (text::char_at(s, a), text::char_at(s, b));
    if j < i {
        text::lemma_byte_len_take(s, j, i);
        text::lemma_char_at(s, j);
        text::lemma_char_at(s, i);
    }
}

/// A hunk keeps its name for as long as it and the header of its file are what they are,
/// in whatever diff and wherever they stand; and so does a file.
pub proof fn names_go_by_what_is_named(one: Diff, f: int, h: int, other: Diff, g: int, i: int)
    ensures
        one.header_text(f) == other.header_text(g) ==> one.id_of_file(f) == other.id_of_file(g),
        one.header_text(f) == other.header_text(g) && one.whole_hunk(f, h) == other.whole_hunk(g, i)
            ==> one.id_of_hunk(f, h) == other.id_of_hunk(g, i),
        diff::text_written(one.header_text(f)) == diff::text_written(other.header_text(g))
            ==> encode_utf8(one.header_text(f)) == encode_utf8(other.header_text(g)),
        diff::pair_written(one.header_text(f), one.whole_hunk(f, h)) == diff::pair_written(
            other.header_text(g),
            other.whole_hunk(g, i),
        ) ==> encode_utf8(one.header_text(f)) == encode_utf8(other.header_text(g)) && encode_utf8(
            one.whole_hunk(f, h),
        ) == encode_utf8(other.whole_hunk(g, i)),
{
    let a = diff::text_written(one.header_text(f));
    let b = diff::text_written(other.header_text(g));
    if a == b {
        assert(a[0] == b[0]);
    }
    let c = diff::pair_written(one.header_text(f), one.whole_hunk(f, h));
    let d = diff::pair_written(other.header_text(g), other.whole_hunk(g, i));
    if c == d {
        assert(c[1] == d[1] && c[3] == d[3]);
    }
}

} // verus!
