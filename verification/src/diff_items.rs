//! The rows of a diff: files, their hunks, and the lines of those, drawn either
//! as they are or as a renderer drew them.

use crate::diff::Diff;
use crate::diff_renderer;
use crate::diff_renderer::{Identity, LineKind, LineMetadata, ParsedLine, Row};
use crate::highlight;
use crate::item;
use crate::item::{Item, ItemRow, RenderedRow};
use crate::item_data;
use crate::item_data::{ItemData, Meaning};
use crate::spans::Span;
use crate::style::Style;
use crate::text;
use vstd::prelude::*;

verus! {

// ---------------------------------------------------------------------------
// Rendered rows
// ---------------------------------------------------------------------------

/// The styled runs of a line, with tabs expanded.
pub open spec fn spans_of(row: Row) -> Seq<(Seq<char>, Style)> {
    row.runs.map_values(
        |run: Span|
            (
                text::replaced(
                    text::slice(row.text, run.0.start as int, run.0.end as int),
                    "\t"@,
                    "    "@,
                ),
                run.1,
            ),
    )
}

/// The renderer's styled runs for a line, as owned `(text, style)` spans with
/// tabs expanded.
pub fn rendered_spans(line: &ParsedLine) -> (row: RenderedRow)
    requires
        line.wf(),
    ensures
        item::row_view(row@) == spans_of(line@),
{
    let mut row: RenderedRow = Vec::new();
    let mut i: usize = 0;
    proof {
        reveal_strlit("\t");
    }
    while i < line.runs.len()
        invariant
            i <= line.runs@.len(),
            line.wf(),
            "\t"@.len() > 0,
            item::row_view(row@) =~= spans_of(line@).take(i as int),
        decreases line.runs@.len() - i,
    {
        let run = &line.runs[i];
        proof {
            assert(text::boundary(line.text@, run.0.start as int));
            assert(run.0.start < run.0.end);
        }
        let part = text::str_slice(line.text.as_str(), run.0.start, run.0.end);
        let ghost before = row@;
        row.push((text::replace(part, "\t", "    "), run.1));
        proof {
            assert(item::row_view(row@) =~= item::row_view(before).push(spans_of(line@)[i as int]));
        }
        i += 1;
    }
    proof {
        assert(spans_of(line@).take(i as int) =~= spans_of(line@));
    }
    row
}

/// Whether a row is the renderer's header for a hunk, with something on it.
pub open spec fn is_header_row(diff: Diff, row: Row, f: int, h: int) -> bool {
    &&& row.records.len() > 0
    &&& row.records[0].kind is HunkHeader
    &&& !text::blank(row.text)
    &&& diff_renderer::header_place_of(diff, row.records[0]) == Some((f, h))
}

/// Whether a row is a content line.
pub open spec fn is_content(kind: LineKind) -> bool {
    kind is Context || kind is Added || kind is Deleted
}

/// Whether a row is a content line of a hunk.
pub open spec fn is_content_row(diff: Diff, row: Row, f: int, h: int) -> bool {
    &&& row.records.len() > 0
    &&& is_content(row.records[0].kind)
    &&& diff_renderer::place_of(diff, row.records[0]) matches Some((g, i, _))
    &&& g == f && i == h
}

/// The lines of a hunk some records lead to.
pub open spec fn lines_in(diff: Diff, records: Seq<Identity>, f: int, h: int) -> Seq<usize>
    decreases records.len(),
{
    if records.len() == 0 {
        seq![]
    } else {
        let front = lines_in(diff, records.drop_last(), f, h);
        match diff_renderer::place_of(diff, records.last()) {
            Some((g, i, l)) => if g == f && i == h {
                front.push(l as usize)
            } else {
                front
            },
            None => front,
        }
    }
}

/// A content row as a row of the screen.
pub open spec fn content_item(
    diff: Diff,
    diff_id: u64,
    depth: int,
    row: Row,
    f: int,
    h: int,
) -> ItemRow {
    let line = (diff_renderer::place_of(diff, row.records[0])->0).2;
    ItemRow {
        id: diff.id_of_hunk(f, h),
        depth: (depth + 2) as usize,
        unselectable: row.records[0].kind is Context,
        data: Meaning::HunkLine {
            diff: diff_id,
            file_i: f as usize,
            hunk_i: h as usize,
            line_i: line as usize,
            line_range: highlight::visual_range(diff.hunk_text(f, h), line),
            line_indices: lines_in(diff, row.records, f, h),
        },
        rendered: Some(spans_of(row)),
        ..item::plain_item()
    }
}

/// The renderer's header rows for a hunk.
pub open spec fn header_rows(diff: Diff, rows: Seq<Row>, f: int, h: int) -> Seq<
    Seq<(Seq<char>, Style)>,
>
    decreases rows.len(),
{
    if rows.len() == 0 {
        seq![]
    } else if is_header_row(diff, rows.last(), f, h) {
        header_rows(diff, rows.drop_last(), f, h).push(spans_of(rows.last()))
    } else {
        header_rows(diff, rows.drop_last(), f, h)
    }
}

/// The renderer's content rows for a hunk.
pub open spec fn content_rows(
    diff: Diff,
    diff_id: u64,
    depth: int,
    rows: Seq<Row>,
    f: int,
    h: int,
) -> Seq<ItemRow>
    decreases rows.len(),
{
    if rows.len() == 0 {
        seq![]
    } else {
        let front = content_rows(diff, diff_id, depth, rows.drop_last(), f, h);
        if is_content_row(diff, rows.last(), f, h) {
            front.push(content_item(diff, diff_id, depth, rows.last(), f, h))
        } else {
            front
        }
    }
}

/// The row a file is headed by.
pub open spec fn file_item(
    diff: Diff,
    diff_id: u64,
    depth: int,
    default_collapsed: bool,
    commit: Option<Seq<char>>,
    f: int,
) -> ItemRow {
    ItemRow {
        id: diff.id_of_file(f),
        default_collapsed,
        depth: depth as usize,
        data: Meaning::Delta { diff: diff_id, file_i: f as usize, commit },
        ..item::plain_item()
    }
}

/// The row a hunk is headed by.
pub open spec fn hunk_item(
    diff: Diff,
    diff_id: u64,
    depth: int,
    f: int,
    h: int,
    rendered: Option<Seq<(Seq<char>, Style)>>,
) -> ItemRow {
    ItemRow {
        id: diff.id_of_hunk(f, h),
        depth: (depth + 1) as usize,
        data: Meaning::Hunk { diff: diff_id, file_i: f as usize, hunk_i: h as usize },
        rendered,
        ..item::plain_item()
    }
}

/// A header row of a hunk after the first.
pub open spec fn extra_header_item(
    diff: Diff,
    depth: int,
    f: int,
    h: int,
    row: Seq<(Seq<char>, Style)>,
) -> ItemRow {
    ItemRow {
        id: diff.id_of_hunk(f, h),
        depth: (depth + 2) as usize,
        unselectable: true,
        rendered: Some(row),
        ..item::plain_item()
    }
}

/// The rows of a hunk as it was rendered: the first row of the renderer's header
/// heads it, the others nest under it, and so do the content rows.
pub open spec fn rendered_hunk(
    diff: Diff,
    diff_id: u64,
    depth: int,
    rows: Seq<Row>,
    f: int,
    h: int,
) -> Seq<ItemRow> {
    let headers = header_rows(diff, rows, f, h);
    let first = if headers.len() > 0 {
        Some(headers[0])
    } else {
        None
    };
    seq![hunk_item(diff, diff_id, depth, f, h, first)] + Seq::new(
        (if headers.len() > 0 {
            headers.len() - 1
        } else {
            0
        }) as nat,
        |i: int| extra_header_item(diff, depth, f, h, headers[i + 1]),
    ) + content_rows(diff, diff_id, depth, rows, f, h)
}

/// The rows of the first `n` hunks of a file as they were rendered.
pub open spec fn rendered_hunks(
    diff: Diff,
    diff_id: u64,
    depth: int,
    rows: Seq<Row>,
    f: int,
    n: nat,
) -> Seq<ItemRow>
    decreases n,
{
    if n == 0 {
        seq![]
    } else {
        rendered_hunks(diff, diff_id, depth, rows, f, (n - 1) as nat) + rendered_hunk(
            diff,
            diff_id,
            depth,
            rows,
            f,
            n - 1,
        )
    }
}

/// The rows of the first `n` files of a diff as they were rendered.
pub open spec fn rendered_files(
    diff: Diff,
    diff_id: u64,
    depth: int,
    default_collapsed: bool,
    commit: Option<Seq<char>>,
    rows: Seq<Row>,
    n: nat,
) -> Seq<ItemRow>
    decreases n,
{
    if n == 0 {
        seq![]
    } else {
        rendered_files(
            diff,
            diff_id,
            depth,
            default_collapsed,
            commit,
            rows,
            (n - 1) as nat,
        ).push(file_item(diff, diff_id, depth, default_collapsed, commit, n - 1))
            + rendered_hunks(
            diff,
            diff_id,
            depth,
            rows,
            n - 1,
            diff.file_diffs@[n - 1].hunks@.len(),
        )
    }
}

/// The rows a renderer drew for one hunk.
struct HunkRows {
    headers: Vec<RenderedRow>,
    content: Vec<Item>,
}

/// The lines of a hunk some records lead to.
fn line_indices(diff: &Diff, records: &Vec<LineMetadata>, f: usize, h: usize) -> (lines: Vec<usize>)
    requires
        diff.wf(),
    ensures
        lines@ == lines_in(*diff, diff_renderer::record_views(records@), f as int, h as int),
{
    let ghost all = diff_renderer::record_views(records@);
    let mut lines: Vec<usize> = Vec::new();
    let mut i: usize = 0;
    proof {
        assert(all.take(0) =~= Seq::<Identity>::empty());
    }
    while i < records.len()
        invariant
            i <= records@.len(),
            diff.wf(),
            all == diff_renderer::record_views(records@),
            lines@ == lines_in(*diff, all.take(i as int), f as int, h as int),
        decreases records@.len() - i,
    {
        proof {
            assert(all.take(i + 1).drop_last() =~= all.take(i as int));
            assert(all.take(i + 1).last() == records@[i as int]@);
        }
        if let Some((g, j, line)) = diff_renderer::resolve_line(diff, &records[i]) {
            if g == f && j == h {
                lines.push(line);
            }
        }
        i += 1;
    }
    proof {
        assert(all.take(i as int) =~= all);
    }
    lines
}

/// Whether buckets hold, for every hunk, what was drawn of it.
spec fn sorted_out(
    diff: Diff,
    diff_id: u64,
    depth: int,
    rows: Seq<Row>,
    buckets: Seq<Vec<HunkRows>>,
) -> bool {
    &&& buckets.len() == diff.file_diffs@.len()
    &&& forall|f: int|
        0 <= f < buckets.len() ==> (#[trigger] buckets[f])@.len()
            == diff.file_diffs@[f].hunks@.len()
    &&& forall|f: int, h: int|
        0 <= f < buckets.len() && 0 <= h < buckets[f]@.len() ==> item::rows_view(
            (#[trigger] buckets[f]@[h]).headers@,
        ) == header_rows(diff, rows, f, h) && item::item_views(buckets[f]@[h].content@)
            == content_rows(diff, diff_id, depth, rows, f, h)
}

/// Room for what is drawn of every hunk.
fn empty_buckets(diff: &Diff, Ghost(diff_id): Ghost<u64>, Ghost(depth): Ghost<int>) -> (buckets:
    Vec<Vec<HunkRows>>)
    ensures
        sorted_out(*diff, diff_id, depth, seq![], buckets@),
{
    let mut buckets: Vec<Vec<HunkRows>> = Vec::new();
    let mut f: usize = 0;
    while f < diff.file_diffs.len()
        invariant
            f <= diff.file_diffs@.len(),
            buckets@.len() == f,
            forall|g: int|
                0 <= g < f ==> (#[trigger] buckets@[g])@.len() == diff.file_diffs@[g].hunks@.len(),
            forall|g: int, h: int|
                0 <= g < f && 0 <= h < buckets@[g]@.len() ==> (
                #[trigger] buckets@[g]@[h]).headers@.len() == 0 && buckets@[g]@[h].content@.len()
                    == 0,
        decreases diff.file_diffs@.len() - f,
    {
        let mut hunks: Vec<HunkRows> = Vec::new();
        let mut h: usize = 0;
        while h < diff.file_diffs[f].hunks.len()
            invariant
                f < diff.file_diffs@.len(),
                h <= diff.file_diffs@[f as int].hunks@.len(),
                hunks@.len() == h,
                forall|k: int|
                    0 <= k < h ==> (#[trigger] hunks@[k]).headers@.len() == 0
                        && hunks@[k].content@.len() == 0,
            decreases diff.file_diffs@[f as int].hunks@.len() - h,
        {
            hunks.push(HunkRows { headers: Vec::new(), content: Vec::new() });
            h += 1;
        }
        buckets.push(hunks);
        f += 1;
    }
    proof {
        assert forall|g: int, h: int|
            0 <= g < buckets@.len() && 0 <= h < buckets@[g]@.len() implies item::rows_view(
            (#[trigger] buckets@[g]@[h]).headers@,
        ) == header_rows(*diff, seq![], g, h) && item::item_views(buckets@[g]@[h].content@)
            == content_rows(*diff, diff_id, depth, seq![], g, h) by {
            assert(item::rows_view(buckets@[g]@[h].headers@) =~= Seq::<
                Seq<(Seq<char>, Style)>,
            >::empty());
            assert(item::item_views(buckets@[g]@[h].content@) =~= Seq::<ItemRow>::empty());
        }
    }
    buckets
}

/// What one more row adds to a hunk.
proof fn lemma_one_more(diff: Diff, diff_id: u64, depth: int, rows: Seq<Row>, row: Row, f: int, h: int)
    ensures
        header_rows(diff, rows.push(row), f, h) == (if is_header_row(diff, row, f, h) {
            header_rows(diff, rows, f, h).push(spans_of(row))
        } else {
            header_rows(diff, rows, f, h)
        }),
        content_rows(diff, diff_id, depth, rows.push(row), f, h) == (if is_content_row(
            diff,
            row,
            f,
            h,
        ) {
            content_rows(diff, diff_id, depth, rows, f, h).push(
                content_item(diff, diff_id, depth, row, f, h),
            )
        } else {
            content_rows(diff, diff_id, depth, rows, f, h)
        }),
{
    assert(rows.push(row).drop_last() =~= rows);
    assert(rows.push(row).last() == row);
}

/// A content row as a row of the screen.
fn make_content_item(
    diff: &Diff,
    diff_id: u64,
    depth: usize,
    line: &ParsedLine,
    place: (usize, usize, usize),
) -> (item: Item)
    requires
        diff.wf(),
        line.wf(),
        line.records@.len() > 0,
        depth + 2 <= usize::MAX,
        diff_renderer::place_of(*diff, line@.records[0]) == Some(
            (place.0 as int, place.1 as int, place.2 as int),
        ),
        diff.has_hunk(place.0 as int, place.1 as int),
        place.2 < text::lines(diff.hunk_text(place.0 as int, place.1 as int)).len(),
    ensures
        item@ == content_item(
            *diff,
            diff_id,
            depth as int,
            line@,
            place.0 as int,
            place.1 as int,
        ),
{
    let (file_i, hunk_i, line_i) = place;
    let first = &line.records[0];
    let line_indices = line_indices(diff, &line.records, file_i, hunk_i);
    let ranges = highlight::line_range_iterator(diff.hunk_content(file_i, hunk_i));
    let range = &ranges[line_i].0;
    let unselectable = match first.kind {
        LineKind::Context => true,
        _ => false,
    };
    let item = Item {
        id: diff.hunk_id(file_i, hunk_i),
        depth: depth + 2,
        unselectable,
        data: ItemData::HunkLine {
            diff: diff_id,
            file_i,
            hunk_i,
            line_i,
            line_range: range.start..range.end,
            line_indices,
        },
        rendered: Some(rendered_spans(line)),
        default_collapsed: false,
    };
    proof {
        assert(item@ =~= content_item(
            *diff,
            diff_id,
            depth as int,
            line@,
            place.0 as int,
            place.1 as int,
        ));
    }
    item
}

/// Put a row with the others of its hunk: the renderer's own hunk headers to
/// display in place of one's own, and content lines. File headers are dropped,
/// as are decoration and blank spacer rows.
fn sort_row(
    diff: &Diff,
    diff_id: u64,
    depth: usize,
    line: &ParsedLine,
    buckets: &mut Vec<Vec<HunkRows>>,
    Ghost(rows): Ghost<Seq<Row>>,
)
    requires
        diff.wf(),
        line.wf(),
        depth + 2 <= usize::MAX,
        sorted_out(*diff, diff_id, depth as int, rows, old(buckets)@),
    ensures
        sorted_out(*diff, diff_id, depth as int, rows.push(line@), final(buckets)@),
{
    let ghost row = line@;
    let ghost d = depth as int;
    proof {
        assert forall|f: int, h: int|
            #![trigger header_rows(*diff, rows.push(row), f, h)]
            #![trigger content_rows(*diff, diff_id, d, rows.push(row), f, h)]
            true implies header_rows(*diff, rows.push(row), f, h) == (if is_header_row(
            *diff,
            row,
            f,
            h,
        ) {
            header_rows(*diff, rows, f, h).push(spans_of(row))
        } else {
            header_rows(*diff, rows, f, h)
        }) && content_rows(*diff, diff_id, d, rows.push(row), f, h) == (if is_content_row(
            *diff,
            row,
            f,
            h,
        ) {
            content_rows(*diff, diff_id, d, rows, f, h).push(
                content_item(*diff, diff_id, d, row, f, h),
            )
        } else {
            content_rows(*diff, diff_id, d, rows, f, h)
        }) by {
            lemma_one_more(*diff, diff_id, d, rows, row, f, h);
        }
    }
    if line.records.len() == 0 {
        // Un-annotated decoration (dividers): dropped.
        return;
    }
    let first = &line.records[0];
    proof {
        assert(row.records[0] == first@);
    }
    match first.kind {
        LineKind::FileHeader | LineKind::Commit => {},
        LineKind::HunkHeader => {
            if text::is_blank(line.text.as_str()) {
                return;
            }
            if let Some((f, h)) = diff_renderer::resolve_hunk(diff, first) {
                let spans = rendered_spans(line);
                let ghost before = buckets@;
                let ghost had = buckets@[f as int]@[h as int].headers@;
                buckets[f][h].headers.push(spans);
                proof {
                    assert(item::rows_view(buckets@[f as int]@[h as int].headers@)
                        =~= item::rows_view(had).push(spans_of(row)));
                }
            }
        },
        LineKind::Context | LineKind::Added | LineKind::Deleted => {
            if let Some((f, h, l)) = diff_renderer::resolve_line(diff, first) {
                let item = make_content_item(diff, diff_id, depth, line, (f, h, l));
                let ghost before = buckets@;
                let ghost had = buckets@[f as int]@[h as int].content@;
                buckets[f][h].content.push(item);
                proof {
                    assert(item::item_views(buckets@[f as int]@[h as int].content@)
                        =~= item::item_views(had).push(item@));
                }
            }
        },
    }
}

/// Append the rows of a hunk as it was rendered.
fn push_hunk(
    items: &mut Vec<Item>,
    diff: &Diff,
    diff_id: u64,
    depth: usize,
    file_i: usize,
    hunk_i: usize,
    drawn: HunkRows,
    Ghost(rows): Ghost<Seq<Row>>,
)
    requires
        diff.wf(),
        diff.has_hunk(file_i as int, hunk_i as int),
        depth + 2 <= usize::MAX,
        item::rows_view(drawn.headers@) == header_rows(*diff, rows, file_i as int, hunk_i as int),
        item::item_views(drawn.content@) == content_rows(
            *diff,
            diff_id,
            depth as int,
            rows,
            file_i as int,
            hunk_i as int,
        ),
    ensures
        item::item_views(final(items)@) == item::item_views(old(items)@) + rendered_hunk(
            *diff,
            diff_id,
            depth as int,
            rows,
            file_i as int,
            hunk_i as int,
        ),
{
    let ghost (f, h, d) = (file_i as int, hunk_i as int, depth as int);
    let ghost before = item::item_views(items@);
    let HunkRows { headers, content } = drawn;
    let ghost all = item::rows_view(headers@);
    let ghost extra = (if all.len() > 0 {
        all.len() - 1
    } else {
        0
    }) as nat;
    let ghost extras = Seq::new(extra, |i: int| extra_header_item(*diff, d, f, h, all[i + 1]));
    let mut headers = headers;
    let mut content = content;
    let id = diff.hunk_id(file_i, hunk_i);
    let mut anchor: Option<RenderedRow> = None;
    let ghost kept = headers@;
    if headers.len() > 0 {
        let mut row: RenderedRow = Vec::new();
        std::mem::swap(&mut row, &mut headers[0]);
        anchor = Some(row);
    }
    let first = Item {
        id,
        depth: depth + 1,
        data: ItemData::Hunk { diff: diff_id, file_i, hunk_i },
        rendered: anchor,
        unselectable: false,
        default_collapsed: false,
    };
    let ghost head = hunk_item(
        *diff,
        diff_id,
        d,
        f,
        h,
        if all.len() > 0 {
            Some(all[0])
        } else {
            None
        },
    );
    proof {
        if kept.len() > 0 {
            assert(all[0] == item::row_view(kept[0]@));
        }
        assert(first@ =~= head);
    }
    let ghost start = items@;
    items.push(first);
    proof {
        assert(item::item_views(items@) =~= before.push(head));
    }
    let mut i: usize = 1;
    while i < headers.len()
        invariant
            1 <= i,
            i <= headers@.len() || (i == 1 && headers@.len() == 0),
            headers@.len() == kept.len(),
            kept.len() == all.len(),
            all == item::rows_view(kept),
            depth + 2 <= usize::MAX,
            d == depth,
            f == file_i,
            h == hunk_i,
            id == diff.id_of_hunk(f, h),
            extra == (if all.len() > 0 {
                all.len() - 1
            } else {
                0
            }) as nat,
            extras == Seq::new(extra, |i: int| extra_header_item(*diff, d, f, h, all[i + 1])),
            forall|k: int| i <= k < headers@.len() ==> headers@[k] == kept[k],
            item::item_views(items@) == before.push(head) + extras.take(i - 1),
        decreases headers@.len() - i,
    {
        let mut row: RenderedRow = Vec::new();
        std::mem::swap(&mut row, &mut headers[i]);
        proof {
            assert(all[i as int] == item::row_view(kept[i as int]@));
        }
        let item = Item {
            id,
            depth: depth + 2,
            unselectable: true,
            rendered: Some(row),
            default_collapsed: false,
            data: ItemData::empty(),
        };
        let ghost had = items@;
        items.push(item);
        proof {
            assert(item@ =~= extras[i - 1]);
            assert(item::item_views(items@) =~= item::item_views(had).push(item@));
            assert(item::item_views(items@) =~= before.push(head) + extras.take(i as int));
        }
        i += 1;
    }
    proof {
        assert(extras.take(i - 1) =~= extras);
    }
    let ghost had = items@;
    let ghost body = content@;
    items.append(&mut content);
    proof {
        assert(item::item_views(items@) =~= item::item_views(had) + item::item_views(body));
        assert(item::item_views(items@) =~= before + rendered_hunk(*diff, diff_id, d, rows, f, h));
    }
}

/// Take what was drawn of a hunk.
fn take_bucket(buckets: &mut Vec<Vec<HunkRows>>, f: usize, h: usize) -> (drawn: HunkRows)
    requires
        f < old(buckets)@.len(),
        h < old(buckets)@[f as int]@.len(),
    ensures
        drawn == old(buckets)@[f as int]@[h as int],
        final(buckets)@.len() == old(buckets)@.len(),
        final(buckets)@[f as int]@.len() == old(buckets)@[f as int]@.len(),
        forall|g: int| 0 <= g < old(buckets)@.len() && g != f ==> final(buckets)@[g] == old(
            buckets)@[g],
        forall|k: int| 0 <= k < old(buckets)@[f as int]@.len() && k != h ==> final(
            buckets)@[f as int]@[k] == old(buckets)@[f as int]@[k],
{
    let mut drawn = HunkRows { headers: Vec::new(), content: Vec::new() };
    std::mem::swap(&mut drawn, &mut buckets[f][h]);
    drawn
}

/// Lay a renderer's rows out under the file and hunk structure of a diff (so
/// collapse, navigation and file/hunk/line staging keep working). Each rendered
/// content row is mapped back to its content-line coordinates via its metadata;
/// decoration rows are dropped.
pub fn lay_out_rows(
    diff: &Diff,
    diff_id: u64,
    depth: usize,
    default_collapsed: bool,
    commit: &Option<String>,
    lines: &Vec<ParsedLine>,
) -> (items: Vec<Item>)
    requires
        diff.wf(),
        depth + 2 <= usize::MAX,
        forall|i: int| 0 <= i < lines@.len() ==> (#[trigger] lines@[i]).wf(),
    ensures
        item::item_views(items@) == rendered_files(
            *diff,
            diff_id,
            depth as int,
            default_collapsed,
            item_data::maybe_text(*commit),
            diff_renderer::row_views(lines@),
            diff.file_diffs@.len(),
        ),
{
    let ghost rows = diff_renderer::row_views(lines@);
    let ghost d = depth as int;
    let ghost named = item_data::maybe_text(*commit);
    let mut buckets = empty_buckets(diff, Ghost(diff_id), Ghost(d));
    let mut i: usize = 0;
    proof {
        assert(rows.take(0) =~= Seq::<Row>::empty());
    }
    while i < lines.len()
        invariant
            i <= lines@.len(),
            diff.wf(),
            depth + 2 <= usize::MAX,
            d == depth,
            rows == diff_renderer::row_views(lines@),
            forall|k: int| 0 <= k < lines@.len() ==> (#[trigger] lines@[k]).wf(),
            sorted_out(*diff, diff_id, d, rows.take(i as int), buckets@),
        decreases lines@.len() - i,
    {
        proof {
            assert(lines@[i as int].wf());
            assert(rows.take(i + 1) =~= rows.take(i as int).push(lines@[i as int]@));
        }
        sort_row(diff, diff_id, depth, &lines[i], &mut buckets, Ghost(rows.take(i as int)));
        i += 1;
    }
    proof {
        assert(rows.take(i as int) =~= rows);
    }
    let mut items: Vec<Item> = Vec::new();
    let mut f: usize = 0;
    proof {
        assert(item::item_views(items@) =~= Seq::<ItemRow>::empty());
    }
    while f < diff.file_diffs.len()
        invariant
            f <= diff.file_diffs@.len(),
            diff.wf(),
            depth + 2 <= usize::MAX,
            d == depth,
            named == item_data::maybe_text(*commit),
            buckets@.len() == diff.file_diffs@.len(),
            forall|g: int|
                f <= g < buckets@.len() ==> (#[trigger] buckets@[g])@.len()
                    == diff.file_diffs@[g].hunks@.len(),
            forall|g: int, h: int|
                f <= g < buckets@.len() && 0 <= h < buckets@[g]@.len() ==> item::rows_view(
                    (#[trigger] buckets@[g]@[h]).headers@,
                ) == header_rows(*diff, rows, g, h) && item::item_views(
                    buckets@[g]@[h].content@,
                ) == content_rows(*diff, diff_id, d, rows, g, h),
            item::item_views(items@) == rendered_files(
                *diff,
                diff_id,
                d,
                default_collapsed,
                named,
                rows,
                f as nat,
            ),
        decreases diff.file_diffs@.len() - f,
    {
        let heading = Item {
            id: diff.file_id(f),
            default_collapsed,
            depth,
            data: ItemData::Delta { diff: diff_id, file_i: f, commit: item_data::clone_maybe(commit) },
            unselectable: false,
            rendered: None,
        };
        let ghost before = items@;
        items.push(heading);
        let ghost start = item::item_views(items@);
        proof {
            assert(heading@ =~= file_item(*diff, diff_id, d, default_collapsed, named, f as int));
            assert(start =~= item::item_views(before).push(heading@));
            assert(start + rendered_hunks(*diff, diff_id, d, rows, f as int, 0) =~= start);
        }
        let mut h: usize = 0;
        while h < diff.file_diffs[f].hunks.len()
            invariant
                diff.wf(),
                f < diff.file_diffs@.len(),
                h <= diff.file_diffs@[f as int].hunks@.len(),
                depth + 2 <= usize::MAX,
                d == depth,
                buckets@.len() == diff.file_diffs@.len(),
                forall|g: int|
                    f <= g < buckets@.len() ==> (#[trigger] buckets@[g])@.len()
                        == diff.file_diffs@[g].hunks@.len(),
                forall|g: int, k: int|
                    f <= g < buckets@.len() && 0 <= k < buckets@[g]@.len() && (g > f || k >= h)
                        ==> item::rows_view((#[trigger] buckets@[g]@[k]).headers@) == header_rows(
                        *diff,
                        rows,
                        g,
                        k,
                    ) && item::item_views(buckets@[g]@[k].content@) == content_rows(
                        *diff,
                        diff_id,
                        d,
                        rows,
                        g,
                        k,
                    ),
                item::item_views(items@) == start + rendered_hunks(
                    *diff,
                    diff_id,
                    d,
                    rows,
                    f as int,
                    h as nat,
                ),
            decreases diff.file_diffs@[f as int].hunks@.len() - h,
        {
            let ghost held = buckets@;
            let drawn = take_bucket(&mut buckets, f, h);
            proof {
                assert(drawn == held[f as int]@[h as int]);
                assert forall|g: int, k: int|
                    f <= g < buckets@.len() && 0 <= k < buckets@[g]@.len() && (g > f || k >= h
                        + 1) implies item::rows_view((#[trigger] buckets@[g]@[k]).headers@)
                    == header_rows(*diff, rows, g, k) && item::item_views(
                    buckets@[g]@[k].content@,
                ) == content_rows(*diff, diff_id, d, rows, g, k) by {
                    assert(buckets@[g]@[k] == held[g]@[k]);
                }
            }
            let ghost had = item::item_views(items@);
            push_hunk(&mut items, diff, diff_id, depth, f, h, drawn, Ghost(rows));
            proof {
                assert(item::item_views(items@) =~= start + rendered_hunks(
                    *diff,
                    diff_id,
                    d,
                    rows,
                    f as int,
                    (h + 1) as nat,
                ));
            }
            h += 1;
        }
        f += 1;
    }
    items
}

/// The rows of renderer output.
pub open spec fn rendered_rows(output: Seq<char>) -> Seq<Row> {
    diff_renderer::page_of(crate::ansi::events_of(output)).finished().lines
}

/// Whether a renderer stated a protocol version.
pub open spec fn speaks_protocol(output: Seq<char>) -> bool {
    diff_renderer::page_of(crate::ansi::events_of(output)).finished().protocol_version is Some
}

/// The items of a diff as a renderer drew it, or `None` if it doesn't speak the
/// protocol.
pub fn create_rendered_diff_items(
    diff: &Diff,
    diff_id: u64,
    depth: usize,
    default_collapsed: bool,
    commit: &Option<String>,
    output: &str,
) -> (items: Option<Vec<Item>>)
    requires
        diff.wf(),
        depth + 2 <= usize::MAX,
    ensures
        items is Some <==> speaks_protocol(output@),
        items matches Some(items) ==> item::item_views(items@) == rendered_files(
            *diff,
            diff_id,
            depth as int,
            default_collapsed,
            item_data::maybe_text(*commit),
            rendered_rows(output@),
            diff.file_diffs@.len(),
        ),
{
    let parsed = diff_renderer::parse_ansi_lines(output);
    if parsed.protocol_version.is_none() {
        return None;
    }
    Some(lay_out_rows(diff, diff_id, depth, default_collapsed, commit, &parsed.lines))
}

// ---------------------------------------------------------------------------
// Rows of one's own
// ---------------------------------------------------------------------------

/// A line of a hunk. Context can't be selected.
pub open spec fn line_item(diff: Diff, diff_id: u64, depth: int, f: int, h: int, l: int) -> ItemRow {
    let body = diff.hunk_text(f, h);
    ItemRow {
        id: diff.id_of_hunk(f, h),
        depth: depth as usize,
        unselectable: text::lines(body)[l][0] == ' ',
        data: Meaning::HunkLine {
            diff: diff_id,
            file_i: f as usize,
            hunk_i: h as usize,
            line_i: l as usize,
            line_range: highlight::visual_range(body, l),
            line_indices: seq![l as usize],
        },
        ..item::plain_item()
    }
}

/// A hunk: its heading, and its lines nesting under it.
pub open spec fn hunk_items(diff: Diff, diff_id: u64, depth: int, f: int, h: int) -> Seq<ItemRow> {
    seq![hunk_item(diff, diff_id, depth - 1, f, h, None)] + Seq::new(
        text::lines(diff.hunk_text(f, h)).len(),
        |l: int| line_item(diff, diff_id, depth + 1, f, h, l),
    )
}

/// The first `n` hunks of a file.
pub open spec fn first_hunks(diff: Diff, diff_id: u64, depth: int, f: int, n: nat) -> Seq<ItemRow>
    decreases n,
{
    if n == 0 {
        seq![]
    } else {
        first_hunks(diff, diff_id, depth, f, (n - 1) as nat) + hunk_items(
            diff,
            diff_id,
            depth,
            f,
            n - 1,
        )
    }
}

/// The first `n` files of a diff.
pub open spec fn first_files(
    diff: Diff,
    diff_id: u64,
    depth: int,
    default_collapsed: bool,
    commit: Option<Seq<char>>,
    n: nat,
) -> Seq<ItemRow>
    decreases n,
{
    if n == 0 {
        seq![]
    } else {
        first_files(diff, diff_id, depth, default_collapsed, commit, (n - 1) as nat).push(
            file_item(diff, diff_id, depth, default_collapsed, commit, n - 1),
        ) + first_hunks(
            diff,
            diff_id,
            depth + 1,
            n - 1,
            diff.file_diffs@[n - 1].hunks@.len(),
        )
    }
}

/// Append the lines of a hunk.
fn format_diff_hunk_items(
    items: &mut Vec<Item>,
    diff: &Diff,
    diff_id: u64,
    file_i: usize,
    hunk_i: usize,
    depth: usize,
)
    requires
        diff.wf(),
        diff.has_hunk(file_i as int, hunk_i as int),
    ensures
        item::item_views(final(items)@) == item::item_views(old(items)@) + Seq::new(
            text::lines(diff.hunk_text(file_i as int, hunk_i as int)).len(),
            |l: int|
                line_item(*diff, diff_id, depth as int, file_i as int, hunk_i as int, l),
        ),
{
    let ghost (f, h, d) = (file_i as int, hunk_i as int, depth as int);
    let ghost before = item::item_views(items@);
    let hunk_content = diff.hunk_content(file_i, hunk_i);
    let ghost body = hunk_content@;
    let id = diff.hunk_id(file_i, hunk_i);
    let lines = highlight::line_range_iterator(hunk_content);
    let ghost wanted = Seq::new(
        text::lines(body).len(),
        |l: int| line_item(*diff, diff_id, d, f, h, l),
    );
    let mut l: usize = 0;
    proof {
        text::lemma_lines_concat(body);
        assert(before + wanted.take(0) =~= before);
    }
    while l < lines.len()
        invariant
            l <= lines@.len(),
            lines@.len() == text::lines(body).len(),
            body == diff.hunk_text(f, h),
            f == file_i,
            h == hunk_i,
            d == depth,
            id == diff.id_of_hunk(f, h),
            forall|k: int|
                0 <= k < lines@.len() ==> (#[trigger] lines@[k]).0 == highlight::visual_range(
                    body,
                    k,
                ) && lines@[k].1@ == text::lines(body)[k],
            forall|k: int|
                0 <= k < text::lines(body).len() ==> #[trigger] text::lines(body)[k].len() > 0,
            wanted == Seq::new(
                text::lines(body).len(),
                |l: int| line_item(*diff, diff_id, d, f, h, l),
            ),
            item::item_views(items@) == before + wanted.take(l as int),
        decreases lines@.len() - l,
    {
        let (range, line) = (&lines[l].0, lines[l].1);
        proof {
            assert(text::lines(body)[l as int].len() > 0);
        }
        let mut line_indices: Vec<usize> = Vec::new();
        line_indices.push(l);
        let item = Item {
            id,
            // Context is the lines that start with a space.
            unselectable: line.get_char(0) == ' ',
            depth,
            data: ItemData::HunkLine {
                diff: diff_id,
                file_i,
                hunk_i,
                line_i: l,
                line_range: range.start..range.end,
                line_indices,
            },
            rendered: None,
            default_collapsed: false,
        };
        let ghost had = items@;
        items.push(item);
        proof {
            assert(line_indices@ =~= seq![l]);
            assert(item@ =~= wanted[l as int]);
            assert(item::item_views(items@) =~= item::item_views(had).push(item@));
            assert(item::item_views(items@) =~= before + wanted.take(l + 1));
        }
        l += 1;
    }
    proof {
        assert(wanted.take(l as int) =~= wanted);
    }
}

/// Append a hunk: its heading, and its lines nesting under it.
fn create_hunk_items(
    items: &mut Vec<Item>,
    diff: &Diff,
    diff_id: u64,
    file_i: usize,
    hunk_i: usize,
    depth: usize,
)
    requires
        diff.wf(),
        diff.has_hunk(file_i as int, hunk_i as int),
        1 <= depth,
        depth + 1 <= usize::MAX,
    ensures
        item::item_views(final(items)@) == item::item_views(old(items)@) + hunk_items(
            *diff,
            diff_id,
            depth as int,
            file_i as int,
            hunk_i as int,
        ),
{
    let ghost (f, h, d) = (file_i as int, hunk_i as int, depth as int);
    let ghost before = items@;
    let heading = Item {
        id: diff.hunk_id(file_i, hunk_i),
        depth,
        data: ItemData::Hunk { diff: diff_id, file_i, hunk_i },
        rendered: None,
        unselectable: false,
        default_collapsed: false,
    };
    items.push(heading);
    proof {
        assert(heading@ =~= hunk_item(*diff, diff_id, d - 1, f, h, None));
        assert(item::item_views(items@) =~= item::item_views(before).push(heading@));
    }
    format_diff_hunk_items(items, diff, diff_id, file_i, hunk_i, depth + 1);
    proof {
        assert(item::item_views(items@) =~= item::item_views(before) + hunk_items(
            *diff,
            diff_id,
            d,
            f,
            h,
        ));
    }
}

/// The items of a diff: each file, its hunks, and their lines.
pub fn create_builtin_diff_items(
    diff: &Diff,
    diff_id: u64,
    depth: usize,
    default_collapsed: bool,
    commit: &Option<String>,
) -> (items: Vec<Item>)
    requires
        diff.wf(),
        depth + 2 <= usize::MAX,
    ensures
        item::item_views(items@) == first_files(
            *diff,
            diff_id,
            depth as int,
            default_collapsed,
            item_data::maybe_text(*commit),
            diff.file_diffs@.len(),
        ),
{
    let ghost d = depth as int;
    let ghost named = item_data::maybe_text(*commit);
    let mut items: Vec<Item> = Vec::new();
    let mut f: usize = 0;
    proof {
        assert(item::item_views(items@) =~= Seq::<ItemRow>::empty());
    }
    while f < diff.file_diffs.len()
        invariant
            f <= diff.file_diffs@.len(),
            diff.wf(),
            depth + 2 <= usize::MAX,
            d == depth,
            named == item_data::maybe_text(*commit),
            item::item_views(items@) == first_files(
                *diff,
                diff_id,
                d,
                default_collapsed,
                named,
                f as nat,
            ),
        decreases diff.file_diffs@.len() - f,
    {
        let heading = Item {
            id: diff.file_id(f),
            default_collapsed,
            depth,
            data: ItemData::Delta { diff: diff_id, file_i: f, commit: item_data::clone_maybe(commit) },
            unselectable: false,
            rendered: None,
        };
        let ghost before = items@;
        items.push(heading);
        let ghost start = item::item_views(items@);
        proof {
            assert(heading@ =~= file_item(*diff, diff_id, d, default_collapsed, named, f as int));
            assert(start =~= item::item_views(before).push(heading@));
            assert(start + first_hunks(*diff, diff_id, d + 1, f as int, 0) =~= start);
        }
        let mut h: usize = 0;
        while h < diff.file_diffs[f].hunks.len()
            invariant
                f < diff.file_diffs@.len(),
                h <= diff.file_diffs@[f as int].hunks@.len(),
                diff.wf(),
                depth + 2 <= usize::MAX,
                d == depth,
                item::item_views(items@) == start + first_hunks(
                    *diff,
                    diff_id,
                    d + 1,
                    f as int,
                    h as nat,
                ),
            decreases diff.file_diffs@[f as int].hunks@.len() - h,
        {
            create_hunk_items(&mut items, diff, diff_id, f, h, depth + 1);
            proof {
                assert(item::item_views(items@) =~= start + first_hunks(
                    *diff,
                    diff_id,
                    d + 1,
                    f as int,
                    (h + 1) as nat,
                ));
            }
            h += 1;
        }
        f += 1;
    }
    items
}

/// Build the items for a diff. When a renderer that speaks the OSC-1717 protocol
/// drew it, its styled rows drive the content lines; otherwise the rows are one's
/// own.
pub fn create_diff_items(
    diff: &Diff,
    diff_id: u64,
    depth: usize,
    default_collapsed: bool,
    commit: &Option<String>,
    rendered: Option<&str>,
) -> (items: Vec<Item>)
    requires
        diff.wf(),
        depth + 2 <= usize::MAX,
    ensures
        item::item_views(items@) == (if rendered is Some && speaks_protocol(rendered->0@) {
            rendered_files(
                *diff,
                diff_id,
                depth as int,
                default_collapsed,
                item_data::maybe_text(*commit),
                rendered_rows(rendered->0@),
                diff.file_diffs@.len(),
            )
        } else {
            first_files(
                *diff,
                diff_id,
                depth as int,
                default_collapsed,
                item_data::maybe_text(*commit),
                diff.file_diffs@.len(),
            )
        }),
{
    if let Some(output) = rendered {
        if let Some(items) = create_rendered_diff_items(
            diff,
            diff_id,
            depth,
            default_collapsed,
            commit,
            output,
        ) {
            return items;
        }
    }
    create_builtin_diff_items(diff, diff_id, depth, default_collapsed, commit)
}

/// Whether a row heads a file or a hunk.
pub open spec fn is_heading(row: ItemRow) -> bool {
    row.data is Delta || row.data is Hunk
}

/// The rows that head files and hunks, whatever they are drawn as.
pub open spec fn headings(rows: Seq<ItemRow>) -> Seq<ItemRow>
    decreases rows.len(),
{
    if rows.len() == 0 {
        seq![]
    } else if is_heading(rows.last()) {
        headings(rows.drop_last()).push(ItemRow { rendered: None, ..rows.last() })
    } else {
        headings(rows.drop_last())
    }
}

proof fn lemma_headings_concat(a: Seq<ItemRow>, b: Seq<ItemRow>)
    ensures
        headings(a + b) == headings(a) + headings(b),
    decreases b.len(),
{
    if b.len() == 0 {
        assert(a + b =~= a);
    } else {
        assert((a + b).drop_last() =~= a + b.drop_last());
        lemma_headings_concat(a, b.drop_last());
    }
}

proof fn lemma_no_headings(rows: Seq<ItemRow>)
    requires
        forall|i: int| 0 <= i < rows.len() ==> !is_heading(#[trigger] rows[i]),
    ensures
        headings(rows) == Seq::<ItemRow>::empty(),
    decreases rows.len(),
{
    if rows.len() > 0 {
        lemma_no_headings(rows.drop_last());
    }
}

proof fn lemma_one_heading(row: ItemRow)
    requires
        is_heading(row),
    ensures
        headings(seq![row]) == seq![ItemRow { rendered: None, ..row }],
{
    let one = seq![row];
    assert(one.drop_last() =~= Seq::<ItemRow>::empty());
    lemma_no_headings(one.drop_last());
    assert(one.last() == row);
}

proof fn lemma_content_no_headings(
    diff: Diff,
    diff_id: u64,
    depth: int,
    rows: Seq<Row>,
    f: int,
    h: int,
)
    ensures
        headings(content_rows(diff, diff_id, depth, rows, f, h)) == Seq::<ItemRow>::empty(),
    decreases rows.len(),
{
    if rows.len() > 0 {
        let front = content_rows(diff, diff_id, depth, rows.drop_last(), f, h);
        lemma_content_no_headings(diff, diff_id, depth, rows.drop_last(), f, h);
        let item = content_item(diff, diff_id, depth, rows.last(), f, h);
        assert(front.push(item).drop_last() =~= front);
    }
}

proof fn lemma_hunk_headings(
    diff: Diff,
    diff_id: u64,
    depth: int,
    rows: Seq<Row>,
    f: int,
    h: int,
)
    ensures
        headings(rendered_hunk(diff, diff_id, depth, rows, f, h)) == seq![
            hunk_item(diff, diff_id, depth, f, h, None),
        ],
        headings(hunk_items(diff, diff_id, depth + 1, f, h)) == seq![
            hunk_item(diff, diff_id, depth, f, h, None),
        ],
{
    let headers = header_rows(diff, rows, f, h);
    let first = if headers.len() > 0 {
        Some(headers[0])
    } else {
        None
    };
    let heading = seq![hunk_item(diff, diff_id, depth, f, h, first)];
    let extras = Seq::new(
        (if headers.len() > 0 {
            headers.len() - 1
        } else {
            0
        }) as nat,
        |i: int| extra_header_item(diff, depth, f, h, headers[i + 1]),
    );
    let content = content_rows(diff, diff_id, depth, rows, f, h);
    lemma_headings_concat(heading + extras, content);
    lemma_headings_concat(heading, extras);
    lemma_one_heading(heading[0]);
    lemma_no_headings(extras);
    lemma_content_no_headings(diff, diff_id, depth, rows, f, h);
    assert(headings(rendered_hunk(diff, diff_id, depth, rows, f, h)) =~= seq![
        hunk_item(diff, diff_id, depth, f, h, None),
    ]);
    let own = seq![hunk_item(diff, diff_id, depth, f, h, None)];
    let lines = Seq::new(
        text::lines(diff.hunk_text(f, h)).len(),
        |l: int| line_item(diff, diff_id, depth + 2, f, h, l),
    );
    lemma_headings_concat(own, lines);
    lemma_one_heading(own[0]);
    lemma_no_headings(lines);
    assert(hunk_items(diff, diff_id, depth + 1, f, h) =~= own + lines);
    assert(headings(own + lines) =~= own);
}

proof fn lemma_hunks_headings(
    diff: Diff,
    diff_id: u64,
    depth: int,
    rows: Seq<Row>,
    f: int,
    n: nat,
)
    ensures
        headings(rendered_hunks(diff, diff_id, depth, rows, f, n)) == headings(
            first_hunks(diff, diff_id, depth + 1, f, n),
        ),
    decreases n,
{
    if n > 0 {
        let m = (n - 1) as nat;
        lemma_hunks_headings(diff, diff_id, depth, rows, f, m);
        lemma_hunk_headings(diff, diff_id, depth, rows, f, n - 1);
        lemma_headings_concat(
            rendered_hunks(diff, diff_id, depth, rows, f, m),
            rendered_hunk(diff, diff_id, depth, rows, f, n - 1),
        );
        lemma_headings_concat(
            first_hunks(diff, diff_id, depth + 1, f, m),
            hunk_items(diff, diff_id, depth + 1, f, n - 1),
        );
    }
}

/// However freely a renderer restructures a diff, its rows are laid out under the
/// same files and hunks as one's own: the same headings in the same order, at the
/// same depths and under the same names.
pub proof fn rendering_keeps_headings(
    diff: Diff,
    diff_id: u64,
    depth: int,
    default_collapsed: bool,
    commit: Option<Seq<char>>,
    rows: Seq<Row>,
    n: nat,
)
    ensures
        headings(
            rendered_files(diff, diff_id, depth, default_collapsed, commit, rows, n),
        ) == headings(first_files(diff, diff_id, depth, default_collapsed, commit, n)),
    decreases n,
{
    if n > 0 {
        let m = (n - 1) as nat;
        let hunks = diff.file_diffs@[n - 1].hunks@.len();
        let rendered = rendered_files(diff, diff_id, depth, default_collapsed, commit, rows, m);
        let own = first_files(diff, diff_id, depth, default_collapsed, commit, m);
        let file = file_item(diff, diff_id, depth, default_collapsed, commit, n - 1);
        rendering_keeps_headings(diff, diff_id, depth, default_collapsed, commit, rows, m);
        lemma_hunks_headings(diff, diff_id, depth, rows, n - 1, hunks);
        assert(rendered.push(file).drop_last() =~= rendered);
        assert(own.push(file).drop_last() =~= own);
        lemma_headings_concat(
            rendered.push(file),
            rendered_hunks(diff, diff_id, depth, rows, n - 1, hunks),
        );
        lemma_headings_concat(
            own.push(file),
            first_hunks(diff, diff_id, depth + 1, n - 1, hunks),
        );
    }
}

/// A row that the cursor stops on, if it is a line of a hunk.
pub open spec fn visited(row: ItemRow) -> ItemRow {
    if row.data is HunkLine {
        ItemRow { unselectable: false, ..row }
    } else {
        row
    }
}

/// Let the cursor stop on every line of a hunk, context included. A context line
/// carries no change, so the cursor passes over it otherwise; but reading a patch
/// is line by line, and skipping the unchanged lines makes the cursor jump.
pub fn visit_context_lines(items: &mut Vec<Item>)
    ensures
        item::item_views(final(items)@) == item::item_views(old(items)@).map_values(
            |row: ItemRow| visited(row),
        ),
{
    let ghost before = item::item_views(items@);
    let mut i: usize = 0;
    while i < items.len()
        invariant
            i <= items@.len(),
            items@.len() == before.len(),
            forall|k: int| 0 <= k < i ==> (#[trigger] items@[k])@ == visited(before[k]),
            forall|k: int| i <= k < items@.len() ==> (#[trigger] items@[k])@ == before[k],
        decreases items@.len() - i,
    {
        if items[i].data.is_hunk_line() {
            items[i].unselectable = false;
        }
        i += 1;
    }
    proof {
        assert(item::item_views(items@) =~= before.map_values(|row: ItemRow| visited(row)));
    }
}

} // verus!
