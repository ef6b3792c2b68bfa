//! What the rows of a diff stand for.

use crate::diff::Diff;
use crate::diff_items;
use crate::diff_renderer;
use crate::diff_renderer::{Identity, LineKind, Row};
use crate::highlight;
use crate::item::ItemRow;
use crate::item_data::Meaning;
use crate::style::Style;
use crate::text;
use vstd::prelude::*;

verus! {

/// Whether a record leads to a line of a hunk.
pub open spec fn leads_into(diff: Diff, f: int, h: int) -> spec_fn(Identity) -> bool {
    |record: Identity|
        match diff_renderer::place_of(diff, record) {
            Some(place) => place.0 == f && place.1 == h,
            None => false,
        }
}

/// The line a record leads to.
pub open spec fn line_led_to(diff: Diff) -> spec_fn(Identity) -> usize {
    |record: Identity| diff_renderer::place_of(diff, record).unwrap().2 as usize
}

/// Whether a row shows a line of a hunk: it tells of a line, and the first it tells of
/// is one of that hunk.
pub open spec fn shows_line_of(diff: Diff, f: int, h: int) -> spec_fn(Row) -> bool {
    |row: Row|
        {
            &&& row.records.len() > 0
            &&& row.records[0].kind == LineKind::Context || row.records[0].kind == LineKind::Added
                || row.records[0].kind == LineKind::Deleted
            &&& leads_into(diff, f, h)(row.records[0])
        }
}

/// Whether a row shows a header of a hunk: it tells of a header first, isn't blank, and
/// the header is that hunk's.
pub open spec fn shows_header_of(diff: Diff, f: int, h: int) -> spec_fn(Row) -> bool {
    |row: Row|
        {
            &&& row.records.len() > 0
            &&& row.records[0].kind == LineKind::HunkHeader
            &&& exists|k: int|
                0 <= k < row.text.len() && !text::white(#[trigger] row.text[k])
            &&& match diff_renderer::header_place_of(diff, row.records[0]) {
                Some(place) => place.0 == f && place.1 == h,
                None => false,
            }
        }
}

/// Acting on a row acts on every line of its hunk that the row tells of, in the order in
/// which it tells of them, and on no other.
pub proof fn rows_stand_for_all_they_tell_of(diff: Diff, records: Seq<Identity>, f: int, h: int)
    ensures
        diff_items::lines_in(diff, records, f, h) == records.filter(leads_into(diff, f, h)).map_values(
            line_led_to(diff),
        ),
    decreases records.len(),
{
    reveal(Seq::filter);
    let told = records.filter(leads_into(diff, f, h));
    if records.len() == 0 {
        assert(told.map_values(line_led_to(diff)) =~= Seq::<usize>::empty());
    } else {
        let before = records.drop_last().filter(leads_into(diff, f, h));
        rows_stand_for_all_they_tell_of(diff, records.drop_last(), f, h);
        if leads_into(diff, f, h)(records.last()) {
            assert(told.map_values(line_led_to(diff)) =~= before.map_values(line_led_to(diff)).push(
                line_led_to(diff)(records.last()),
            ));
        } else {
            assert(told =~= before);
        }
        assert(diff_items::lines_in(diff, records, f, h) =~= told.map_values(line_led_to(diff)));
    }
}

/// A line of a hunk is acted on from a row exactly where a record of the row leads to it.
pub proof fn no_line_is_lost(diff: Diff, records: Seq<Identity>, f: int, h: int, l: usize)
    ensures
        diff_items::lines_in(diff, records, f, h).contains(l) <==> exists|r: int|
            0 <= r < records.len() && match diff_renderer::place_of(diff, #[trigger] records[r]) {
                Some(place) => place.0 == f && place.1 == h && place.2 as usize == l,
                None => false,
            },
    decreases records.len(),
{
    let lines = diff_items::lines_in(diff, records, f, h);
    if records.len() > 0 {
        let n = records.len() - 1;
        let before = records.drop_last();
        let front = diff_items::lines_in(diff, before, f, h);
        no_line_is_lost(diff, before, f, h, l);
        assert(records[n] == records.last());
        if front.contains(l) {
            let k = choose|k: int| 0 <= k < front.len() && front[k] == l;
            assert(lines[k] == l);
            let r = choose|r: int|
                0 <= r < before.len() && match diff_renderer::place_of(diff, #[trigger] before[r]) {
                    Some(place) => place.0 == f && place.1 == h && place.2 as usize == l,
                    None => false,
                };
            assert(records[r] == before[r]);
        }
        if lines.contains(l) && !front.contains(l) {
            let k = choose|k: int| 0 <= k < lines.len() && lines[k] == l;
            if k < front.len() {
                assert(front[k] == l);
            }
            assert(lines.len() == front.len() + 1 && lines.last() == l);
        }
        if leads_into(diff, f, h)(records[n]) && line_led_to(diff)(records[n]) == l {
            assert(lines.last() == l);
            assert(lines[lines.len() - 1] == l);
        }
        assert forall|r: int|
            0 <= r < records.len() && (match diff_renderer::place_of(diff, #[trigger] records[r]) {
                Some(place) => place.0 == f && place.1 == h && place.2 as usize == l,
                None => false,
            }) implies lines.contains(l) by {
            if r < n {
                assert(before[r] == records[r]);
                assert(front.contains(l));
            }
        }
    }
}

/// Whether a row of the screen is a row that was drawn for a line of a hunk: it nests
/// two below the file, can be acted on unless it is context, shows what was drawn, and
/// stands for every line of the hunk that what was drawn tells of.
pub open spec fn is_row_drawn(
    item: ItemRow,
    diff: Diff,
    diff_id: u64,
    depth: int,
    row: Row,
    f: int,
    h: int,
) -> bool {
    let line = diff_renderer::place_of(diff, row.records[0]).unwrap().2;
    &&& item.id == diff.id_of_hunk(f, h)
    &&& item.depth == (depth + 2) as usize
    &&& !item.default_collapsed
    &&& item.unselectable == (row.records[0].kind == LineKind::Context)
    &&& item.rendered == Some(diff_items::spans_of(row))
    &&& match item.data {
        Meaning::HunkLine { diff: d, file_i, hunk_i, line_i, line_range, line_indices } => {
            &&& d == diff_id
            &&& file_i == f as usize
            &&& hunk_i == h as usize
            &&& line_i == line as usize
            &&& line_range == highlight::visual_range(diff.hunk_text(f, h), line)
            &&& line_indices == row.records.filter(leads_into(diff, f, h)).map_values(
                line_led_to(diff),
            )
        },
        _ => false,
    }
}

/// The rows under a hunk are those that were drawn for its lines, in the order in which
/// they were drawn.
pub proof fn lines_are_listed_as_drawn(
    diff: Diff,
    diff_id: u64,
    depth: int,
    rows: Seq<Row>,
    f: int,
    h: int,
)
    ensures
        ({
            let listed = diff_items::content_rows(diff, diff_id, depth, rows, f, h);
            let drawn = rows.filter(shows_line_of(diff, f, h));
            &&& listed.len() == drawn.len()
            &&& forall|i: int|
                0 <= i < listed.len() ==> is_row_drawn(
                    #[trigger] listed[i],
                    diff,
                    diff_id,
                    depth,
                    drawn[i],
                    f,
                    h,
                )
        }),
    decreases rows.len(),
{
    reveal(Seq::filter);
    if rows.len() > 0 {
        lines_are_listed_as_drawn(diff, diff_id, depth, rows.drop_last(), f, h);
        let row = rows.last();
        assert(shows_line_of(diff, f, h)(row) == diff_items::is_content_row(diff, row, f, h));
        rows_stand_for_all_they_tell_of(diff, row.records, f, h);
    }
}

/// The headers drawn of a hunk are all kept, in the order in which they were drawn.
pub proof fn headers_are_listed_as_drawn(diff: Diff, rows: Seq<Row>, f: int, h: int)
    ensures
        diff_items::header_rows(diff, rows, f, h) == rows.filter(
            shows_header_of(diff, f, h),
        ).map_values(|row: Row| diff_items::spans_of(row)),
    decreases rows.len(),
{
    reveal(Seq::filter);
    let spans = |row: Row| diff_items::spans_of(row);
    let drawn = rows.filter(shows_header_of(diff, f, h));
    if rows.len() == 0 {
        assert(drawn.map_values(spans) =~= Seq::<Seq<(Seq<char>, Style)>>::empty());
    } else {
        let row = rows.last();
        let before = rows.drop_last().filter(shows_header_of(diff, f, h));
        headers_are_listed_as_drawn(diff, rows.drop_last(), f, h);
        assert(shows_header_of(diff, f, h)(row) == diff_items::is_header_row(diff, row, f, h));
        if shows_header_of(diff, f, h)(row) {
            assert(drawn.map_values(spans) =~= before.map_values(spans).push(spans(row)));
        } else {
            assert(drawn =~= before);
        }
    }
}

// ---------------------------------------------------------------------------
// Hunks and files
// ---------------------------------------------------------------------------

/// A hunk is headed by the first header that was drawn of it, the others lie under it
/// and can't be acted on, and under those lie its lines.
pub proof fn hunks_are_laid_out_as_drawn(
    diff: Diff,
    diff_id: u64,
    depth: int,
    rows: Seq<Row>,
    f: int,
    h: int,
)
    ensures
        ({
            let items = diff_items::rendered_hunk(diff, diff_id, depth, rows, f, h);
            let headers = rows.filter(shows_header_of(diff, f, h));
            let drawn = rows.filter(shows_line_of(diff, f, h));
            let extra = if headers.len() > 0 {
                headers.len() - 1
            } else {
                0
            };
            &&& items.len() == 1 + extra + drawn.len()
            &&& heads_hunk(items[0], diff, diff_id, depth + 1, f, h)
            &&& items[0].rendered == (if headers.len() > 0 {
                Some(diff_items::spans_of(headers[0]))
            } else {
                None
            })
            &&& forall|k: int|
                1 <= k <= extra ==> {
                    &&& (#[trigger] items[k]).unselectable
                    &&& items[k].rendered == Some(diff_items::spans_of(headers[k]))
                    &&& items[k].id == diff.id_of_hunk(f, h)
                    &&& items[k].depth == (depth + 2) as usize
                    &&& items[k].data == Meaning::Raw(seq![])
                }
            &&& forall|k: int|
                0 <= k < drawn.len() ==> is_row_drawn(
                    items[1 + extra + k],
                    diff,
                    diff_id,
                    depth,
                    #[trigger] drawn[k],
                    f,
                    h,
                )
        }),
{
    let items = diff_items::rendered_hunk(diff, diff_id, depth, rows, f, h);
    let listed = diff_items::content_rows(diff, diff_id, depth, rows, f, h);
    let headers = rows.filter(shows_header_of(diff, f, h));
    let drawn = rows.filter(shows_line_of(diff, f, h));
    headers_are_listed_as_drawn(diff, rows, f, h);
    lines_are_listed_as_drawn(diff, diff_id, depth, rows, f, h);
    let extra = if headers.len() > 0 {
        headers.len() - 1
    } else {
        0
    };
    assert forall|k: int| 0 <= k < drawn.len() implies is_row_drawn(
        items[1 + extra + k],
        diff,
        diff_id,
        depth,
        #[trigger] drawn[k],
        f,
        h,
    ) by {
        assert(items[1 + extra + k] == listed[k]);
    }
}

/// Whether a row heads a hunk.
pub open spec fn heads_hunk(
    item: ItemRow,
    diff: Diff,
    diff_id: u64,
    depth: int,
    f: int,
    h: int,
) -> bool {
    &&& item.id == diff.id_of_hunk(f, h)
    &&& item.depth == depth as usize
    &&& !item.unselectable
    &&& !item.default_collapsed
    &&& item.data == Meaning::Hunk { diff: diff_id, file_i: f as usize, hunk_i: h as usize }
}

/// Without a renderer, a hunk is its heading and each of its lines under it. Each line
/// stands for itself, and context can't be acted on.
pub proof fn hunks_are_laid_out_line_by_line(
    diff: Diff,
    diff_id: u64,
    depth: int,
    f: int,
    h: int,
    l: int,
)
    ensures
        ({
            let items = diff_items::hunk_items(diff, diff_id, depth, f, h);
            let lines = text::lines(diff.hunk_text(f, h));
            &&& items.len() == 1 + lines.len()
            &&& heads_hunk(items[0], diff, diff_id, depth, f, h)
            &&& items[0].rendered is None
            &&& 0 <= l < lines.len() ==> {
                &&& items[1 + l].id == diff.id_of_hunk(f, h)
                &&& items[1 + l].depth == (depth + 1) as usize
                &&& items[1 + l].unselectable == (lines[l][0] == ' ')
                &&& items[1 + l].rendered is None
                &&& items[1 + l].data == Meaning::HunkLine {
                    diff: diff_id,
                    file_i: f as usize,
                    hunk_i: h as usize,
                    line_i: l as usize,
                    line_range: highlight::visual_range(diff.hunk_text(f, h), l),
                    line_indices: seq![l as usize],
                }
            }
        }),
{
}

/// A file is headed by a row that is folded where that is asked for, and says which
/// commit it is of.
pub proof fn files_are_headed(
    diff: Diff,
    diff_id: u64,
    depth: int,
    default_collapsed: bool,
    commit: Option<Seq<char>>,
    f: int,
)
    ensures
        ({
            let item = diff_items::file_item(diff, diff_id, depth, default_collapsed, commit, f);
            &&& item.id == diff.id_of_file(f)
            &&& item.depth == depth as usize
            &&& !item.unselectable
            &&& item.default_collapsed == default_collapsed
            &&& item.rendered is None
            &&& item.data == Meaning::Delta { diff: diff_id, file_i: f as usize, commit }
        }),
{
}

/// The rows of the hunks of a file, hunk by hunk.
pub open spec fn hunk_by_hunk(
    diff: Diff,
    diff_id: u64,
    depth: int,
    rows: Seq<Row>,
    f: int,
    n: nat,
) -> Seq<Seq<ItemRow>> {
    Seq::new(n, |h: int| diff_items::rendered_hunk(diff, diff_id, depth, rows, f, h))
}

/// The rows of the files of a diff, file by file.
pub open spec fn file_by_file(
    diff: Diff,
    diff_id: u64,
    depth: int,
    default_collapsed: bool,
    commit: Option<Seq<char>>,
    rows: Seq<Row>,
    n: nat,
) -> Seq<Seq<ItemRow>> {
    Seq::new(
        n,
        |f: int|
            seq![diff_items::file_item(diff, diff_id, depth, default_collapsed, commit, f)]
                + hunk_by_hunk(
                diff,
                diff_id,
                depth,
                rows,
                f,
                diff.file_diffs@[f].hunks@.len(),
            ).flatten(),
    )
}

/// Every file is listed in its order, and under it every hunk of it in its order, with
/// what was drawn of it; and nothing else is.
pub proof fn files_are_listed_as_drawn(
    diff: Diff,
    diff_id: u64,
    depth: int,
    default_collapsed: bool,
    commit: Option<Seq<char>>,
    rows: Seq<Row>,
    n: nat,
)
    ensures
        diff_items::rendered_files(diff, diff_id, depth, default_collapsed, commit, rows, n)
            == file_by_file(
            diff,
            diff_id,
            depth,
            default_collapsed,
            commit,
            rows,
            n,
        ).flatten(),
    decreases n,
{
    let parts = file_by_file(diff, diff_id, depth, default_collapsed, commit, rows, n);
    if n == 0 {
        assert(parts =~= Seq::<Seq<ItemRow>>::empty());
    } else {
        let m = (n - 1) as nat;
        files_are_listed_as_drawn(diff, diff_id, depth, default_collapsed, commit, rows, m);
        let before = file_by_file(diff, diff_id, depth, default_collapsed, commit, rows, m);
        let hunks = diff.file_diffs@[n - 1].hunks@.len();
        let file = diff_items::file_item(diff, diff_id, depth, default_collapsed, commit, n - 1);
        lemma_hunks_flat(diff, diff_id, depth, rows, n - 1, hunks);
        assert(parts =~= before.push(parts[n - 1]));
        before.lemma_flatten_push(parts[n - 1]);
        let own = diff_items::rendered_hunks(diff, diff_id, depth, rows, n - 1, hunks);
        assert(before.flatten().push(file) + own =~= before.flatten() + (seq![file] + own));
    }
}

proof fn lemma_hunks_flat(
    diff: Diff,
    diff_id: u64,
    depth: int,
    rows: Seq<Row>,
    f: int,
    n: nat,
)
    ensures
        diff_items::rendered_hunks(diff, diff_id, depth, rows, f, n) == hunk_by_hunk(
            diff,
            diff_id,
            depth,
            rows,
            f,
            n,
        ).flatten(),
    decreases n,
{
    let parts = hunk_by_hunk(diff, diff_id, depth, rows, f, n);
    if n == 0 {
        assert(parts =~= Seq::<Seq<ItemRow>>::empty());
    } else {
        let m = (n - 1) as nat;
        lemma_hunks_flat(diff, diff_id, depth, rows, f, m);
        let before = hunk_by_hunk(diff, diff_id, depth, rows, f, m);
        assert(parts =~= before.push(parts[n - 1]));
        before.lemma_flatten_push(parts[n - 1]);
    }
}

/// The rows of the hunks of a file without a renderer, hunk by hunk.
pub open spec fn own_hunk_by_hunk(
    diff: Diff,
    diff_id: u64,
    depth: int,
    f: int,
    n: nat,
) -> Seq<Seq<ItemRow>> {
    Seq::new(n, |h: int| diff_items::hunk_items(diff, diff_id, depth, f, h))
}

/// The rows of the files of a diff without a renderer, file by file.
pub open spec fn own_file_by_file(
    diff: Diff,
    diff_id: u64,
    depth: int,
    default_collapsed: bool,
    commit: Option<Seq<char>>,
    n: nat,
) -> Seq<Seq<ItemRow>> {
    Seq::new(
        n,
        |f: int|
            seq![diff_items::file_item(diff, diff_id, depth, default_collapsed, commit, f)]
                + own_hunk_by_hunk(
                diff,
                diff_id,
                depth + 1,
                f,
                diff.file_diffs@[f].hunks@.len(),
            ).flatten(),
    )
}

/// Without a renderer, too, every file and every hunk is listed in its order.
pub proof fn files_are_listed_in_order(
    diff: Diff,
    diff_id: u64,
    depth: int,
    default_collapsed: bool,
    commit: Option<Seq<char>>,
    n: nat,
)
    ensures
        diff_items::first_files(diff, diff_id, depth, default_collapsed, commit, n)
            == own_file_by_file(
            diff,
            diff_id,
            depth,
            default_collapsed,
            commit,
            n,
        ).flatten(),
    decreases n,
{
    let parts = own_file_by_file(diff, diff_id, depth, default_collapsed, commit, n);
    if n == 0 {
        assert(parts =~= Seq::<Seq<ItemRow>>::empty());
    } else {
        let m = (n - 1) as nat;
        files_are_listed_in_order(diff, diff_id, depth, default_collapsed, commit, m);
        let before = own_file_by_file(diff, diff_id, depth, default_collapsed, commit, m);
        let hunks = diff.file_diffs@[n - 1].hunks@.len();
        let file = diff_items::file_item(diff, diff_id, depth, default_collapsed, commit, n - 1);
        lemma_own_hunks_flat(diff, diff_id, depth + 1, n - 1, hunks);
        assert(parts =~= before.push(parts[n - 1]));
        before.lemma_flatten_push(parts[n - 1]);
        let own = diff_items::first_hunks(diff, diff_id, depth + 1, n - 1, hunks);
        assert(before.flatten().push(file) + own =~= before.flatten() + (seq![file] + own));
    }
}

proof fn lemma_own_hunks_flat(diff: Diff, diff_id: u64, depth: int, f: int, n: nat)
    ensures
        diff_items::first_hunks(diff, diff_id, depth, f, n) == own_hunk_by_hunk(
            diff,
            diff_id,
            depth,
            f,
            n,
        ).flatten(),
    decreases n,
{
    let parts = own_hunk_by_hunk(diff, diff_id, depth, f, n);
    if n == 0 {
        assert(parts =~= Seq::<Seq<ItemRow>>::empty());
    } else {
        let m = (n - 1) as nat;
        lemma_own_hunks_flat(diff, diff_id, depth, f, m);
        let before = own_hunk_by_hunk(diff, diff_id, depth, f, m);
        assert(parts =~= before.push(parts[n - 1]));
        before.lemma_flatten_push(parts[n - 1]);
    }
}

/// A row shows its runs as they are, each in its style, but for its tabs.
pub proof fn rows_show_their_runs(row: Row, k: int)
    requires
        0 <= k < row.runs.len(),
    ensures
        diff_items::spans_of(row).len() == row.runs.len(),
        diff_items::spans_of(row)[k].1 == row.runs[k].1,
        diff_items::spans_of(row)[k].0 == text::replaced(
            text::slice(row.text, row.runs[k].0.start as int, row.runs[k].0.end as int),
            "\t"@,
            "    "@,
        ),
{
}

} // verus!
