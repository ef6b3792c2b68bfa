//! A log as a log command printed it, and the rebase list drawn with its rows.
//!
//! A log command prints the commits however it likes: several rows each,
//! `--stat`, `--graph`. Its `{commit}` token stands for git format directives
//! that emit a commit record, so each commit's rows are known. The first that says
//! anything becomes the selectable row and the rest nest under it, keeping a commit
//! one unit for navigation, folding and the operations that act on it.

use crate::ansi;
use crate::diff_items;
use crate::diff_renderer;
use crate::diff_renderer::{ParsedLine, Row};
use crate::item;
use crate::item::{Item, ItemId, ItemRow, RenderedRow};
use crate::item_data;
use crate::item_data::{ItemData, Meaning, RefView};
use crate::log_items;
use crate::log_items::{CommitRecord, CommitRef};
use crate::rebase_todo;
use crate::rebase_todo::{Entry, RebaseTodo, TodoAction, TodoEntry};
use crate::screen::Matcher;
use crate::style;
use crate::style::{Modifier, Style};
use crate::text;
use vstd::prelude::*;

verus! {

// ---------------------------------------------------------------------------
// Asking
// ---------------------------------------------------------------------------

/// The token of a log command that stands for a commit record.
pub const COMMIT_TOKEN: &'static str = "{commit}";

/// What a log command is asked for: how many commits, those whose message
/// matches, and from which on.
pub open spec fn log_args(
    limit: nat,
    pattern: Option<Seq<char>>,
    rev: Option<Seq<char>>,
) -> Seq<Seq<char>> {
    let limited = if limit <= i32::MAX {
        seq!["-n"@ + text::decimal(limit)]
    } else {
        seq![]
    };
    let matching = match pattern {
        Some(pattern) => seq!["--extended-regexp"@, "--grep="@ + pattern],
        None => seq![],
    };
    let from = match rev {
        Some(rev) => seq![rev],
        None => seq!["HEAD"@],
    };
    limited + matching + from
}

/// The arguments a log command is asked for a log with. "No limit" is larger than
/// git takes for an integer; leaving the option off is what an unrepresentable
/// limit means anyway.
pub fn rendered_log_args(limit: usize, msg_regex: Option<&Matcher>, rev: &Option<String>) -> (args:
    Vec<String>)
    ensures
        text::string_views(args@) == log_args(
            limit as nat,
            match msg_regex {
                Some(regex) => Some(regex.pattern@),
                None => None,
            },
            item_data::maybe_text(*rev),
        ),
{
    let mut args: Vec<String> = Vec::new();
    if limit <= 0x7fff_ffff {
        let mut arg = "-n".to_owned();
        arg.push_str(text::to_decimal(limit as u64).as_str());
        args.push(arg);
    }
    if let Some(regex) = msg_regex {
        args.push("--extended-regexp".to_owned());
        let mut arg = "--grep=".to_owned();
        arg.push_str(regex.pattern.as_str());
        args.push(arg);
    }
    match rev {
        Some(rev) => args.push(rev.clone()),
        None => args.push("HEAD".to_owned()),
    }
    proof {
        assert(text::string_views(args@) =~= log_args(
            limit as nat,
            match msg_regex {
                Some(regex) => Some(regex.pattern@),
                None => None,
            },
            item_data::maybe_text(*rev),
        ));
    }
    args
}

/// A log command with what it is asked for: its commit tokens replaced by the
/// directives that emit a commit record, and the arguments appended.
pub open spec fn asked(command: Seq<Seq<char>>, args: Seq<Seq<char>>) -> Seq<Seq<char>> {
    command.map_values(
        |arg: Seq<char>|
            text::replaced(arg, COMMIT_TOKEN@, diff_renderer::COMMIT_RECORD_FORMAT@),
    ) + args
}

/// The log command to run.
pub fn log_command(command: &Vec<String>, args: &Vec<String>) -> (full: Vec<String>)
    ensures
        text::string_views(full@) == asked(
            text::string_views(command@),
            text::string_views(args@),
        ),
{
    let ghost wanted = asked(
        text::string_views(command@),
        text::string_views(args@),
    );
    let mut full: Vec<String> = Vec::new();
    let mut i: usize = 0;
    proof {
        reveal_strlit("{commit}");
    }
    while i < command.len()
        invariant
            i <= command@.len(),
            COMMIT_TOKEN@.len() > 0,
            wanted == asked(
                text::string_views(command@),
                text::string_views(args@),
            ),
            text::string_views(full@) =~= wanted.take(i as int),
        decreases command@.len() - i,
    {
        let ghost before = full@;
        full.push(
            text::replace(command[i].as_str(), COMMIT_TOKEN, diff_renderer::COMMIT_RECORD_FORMAT),
        );
        proof {
            assert(text::string_views(full@) =~= text::string_views(before).push(
                full@.last()@,
            ));
        }
        i += 1;
    }
    let mut k: usize = 0;
    while k < args.len()
        invariant
            k <= args@.len(),
            wanted == asked(
                text::string_views(command@),
                text::string_views(args@),
            ),
            text::string_views(full@) =~= wanted.take(command@.len() + k),
        decreases args@.len() - k,
    {
        let ghost before = full@;
        full.push(args[k].clone());
        proof {
            assert(text::string_views(full@) =~= text::string_views(before).push(
                args@[k as int]@,
            ));
        }
        k += 1;
    }
    proof {
        assert(wanted.take(command@.len() + k) =~= wanted);
    }
    full
}

// ---------------------------------------------------------------------------
// Blocks
// ---------------------------------------------------------------------------

/// A run of rendered log rows belonging to one commit.
#[derive(Debug)]
pub struct RenderedCommit {
    /// `None` for rows preceding the first commit the command printed.
    pub oid: Option<String>,
    pub rows: Vec<RenderedRow>,
}

/// Some styled spans.
pub type SpanRow = Seq<(Seq<char>, Style)>;

/// A run of rows belonging to one commit.
#[verifier::ext_equal]
pub struct Block {
    pub oid: Option<Seq<char>>,
    pub rows: Seq<SpanRow>,
}

impl View for RenderedCommit {
    type V = Block;

    open spec fn view(&self) -> Block {
        Block { oid: item_data::maybe_text(self.oid), rows: item::rows_view(self.rows@) }
    }
}

/// What some runs of rows are.
pub open spec fn block_views(blocks: Seq<RenderedCommit>) -> Seq<Block> {
    blocks.map_values(|block: RenderedCommit| block@)
}

/// Rows as they are drawn.
pub open spec fn drawn_rows(rows: Seq<Row>) -> Seq<SpanRow> {
    rows.map_values(|row: Row| diff_items::spans_of(row))
}

/// A log's rows, grouped per commit.
pub open spec fn blocks_of(rows: Seq<Row>) -> Seq<Block> {
    Seq::new(
        diff_renderer::block_starts(rows).len(),
        |n: int|
            Block {
                oid: diff_renderer::block_starts(rows)[n].1,
                rows: drawn_rows(
                    rows.subrange(
                        diff_renderer::block_starts(rows)[n].0,
                        diff_renderer::block_end(rows, n),
                    ),
                ),
            },
    )
}

/// Whether any of a log's rows are known to be of a commit.
pub open spec fn names_commits(rows: Seq<Row>) -> bool {
    exists|n: int|
        0 <= n < diff_renderer::block_starts(rows).len() && (#[trigger] diff_renderer::block_starts(
            rows,
        )[n]).1 is Some
}

fn draw_rows(lines: &[ParsedLine]) -> (rows: Vec<RenderedRow>)
    requires
        forall|i: int| 0 <= i < lines@.len() ==> (#[trigger] lines@[i]).wf(),
    ensures
        item::rows_view(rows@) == drawn_rows(diff_renderer::row_views(lines@)),
{
    let mut rows: Vec<RenderedRow> = Vec::new();
    let mut i: usize = 0;
    while i < lines.len()
        invariant
            i <= lines@.len(),
            rows@.len() == i,
            forall|k: int| 0 <= k < lines@.len() ==> (#[trigger] lines@[k]).wf(),
            forall|k: int|
                0 <= k < i ==> item::row_view((#[trigger] rows@[k])@) == diff_items::spans_of(
                    lines@[k]@,
                ),
        decreases lines@.len() - i,
    {
        rows.push(diff_items::rendered_spans(&lines[i]));
        i += 1;
    }
    proof {
        assert(item::rows_view(rows@) =~= drawn_rows(diff_renderer::row_views(lines@)));
    }
    rows
}

/// Group the rows a log command printed per commit. `None` if it emitted no
/// commit records.
pub fn group_rows(lines: &Vec<ParsedLine>) -> (blocks: Option<Vec<RenderedCommit>>)
    requires
        forall|i: int| 0 <= i < lines@.len() ==> (#[trigger] lines@[i]).wf(),
    ensures
        blocks is Some <==> names_commits(diff_renderer::row_views(lines@)),
        blocks matches Some(blocks) ==> block_views(blocks@) == blocks_of(
            diff_renderer::row_views(lines@),
        ),
{
    let ghost all = diff_renderer::row_views(lines@);
    let ghost starts = diff_renderer::block_starts(all);
    let parts = diff_renderer::commit_blocks(lines);
    proof {
        diff_renderer::blocks_in_order(all);
    }
    let mut blocks: Vec<RenderedCommit> = Vec::new();
    let mut named = false;
    let mut n: usize = 0;
    while n < parts.len()
        invariant
            n <= parts@.len(),
            all == diff_renderer::row_views(lines@),
            starts == diff_renderer::block_starts(all),
            parts@.len() == starts.len(),
            blocks@.len() == n,
            forall|i: int| 0 <= i < lines@.len() ==> (#[trigger] lines@[i]).wf(),
            forall|k: int|
                0 <= k < starts.len() ==> 0 <= (#[trigger] starts[k]).0 < diff_renderer::block_end(
                    all,
                    k,
                ) <= all.len(),
            forall|k: int|
                0 <= k < parts@.len() ==> {
                    let (start, commit) = starts[k];
                    &&& diff_renderer::id_view((#[trigger] parts@[k]).commit) == commit
                    &&& parts@[k].rows@ == lines@.subrange(
                        start,
                        diff_renderer::block_end(all, k),
                    )
                },
            forall|k: int| 0 <= k < n ==> (#[trigger] blocks@[k])@ == blocks_of(all)[k],
            named <==> exists|k: int| 0 <= k < n && (#[trigger] starts[k]).1 is Some,
        decreases parts@.len() - n,
    {
        let part = &parts[n];
        proof {
            assert(0 <= starts[n as int].0);
            assert forall|i: int| 0 <= i < part.rows@.len() implies (
            #[trigger] part.rows@[i]).wf() by {
                assert(lines@[starts[n as int].0 + i].wf());
            }
        }
        let rows = draw_rows(part.rows);
        let oid = match part.commit {
            Some(commit) => Some(commit.to_owned()),
            None => None,
        };
        if oid.is_some() {
            named = true;
        }
        let block = RenderedCommit { oid, rows };
        proof {
            assert(diff_renderer::row_views(part.rows@) =~= all.subrange(
                starts[n as int].0,
                diff_renderer::block_end(all, n as int),
            ));
            assert(block@ =~= blocks_of(all)[n as int]);
            assert(diff_renderer::id_view(parts@[n as int].commit) == starts[n as int].1);
        }
        blocks.push(block);
        n += 1;
    }
    if !named {
        return None;
    }
    proof {
        assert(block_views(blocks@) =~= blocks_of(all));
    }
    Some(blocks)
}

/// The rows of some output.
pub open spec fn printed_rows(output: Seq<char>) -> Seq<Row> {
    diff_renderer::page_of(ansi::events_of(output)).finished().lines
}

/// Read what a log command printed, grouped per commit. `None` if it emitted no
/// commit records.
pub fn rendered_commits(output: &str) -> (blocks: Option<Vec<RenderedCommit>>)
    ensures
        blocks is Some <==> names_commits(printed_rows(output@)),
        blocks matches Some(blocks) ==> block_views(blocks@) == blocks_of(printed_rows(output@)),
{
    let parsed = diff_renderer::parse_ansi_lines(output);
    group_rows(&parsed.lines)
}

// ---------------------------------------------------------------------------
// Rows
// ---------------------------------------------------------------------------

/// Whether a character is one that rules and boxes are drawn with.
pub open spec fn draws_rule(c: char) -> bool {
    0x2500 <= c as u32 <= 0x257f
}

/// Whether a text is blank, or nothing but a rule drawn across it.
pub open spec fn only_rule(s: Seq<char>) -> bool {
    forall|i: int| 0 <= i < s.len() ==> text::white(#[trigger] s[i]) || draws_rule(s[i])
}

/// Whether a row only separates others: it is blank, or a rule drawn across it.
pub open spec fn separates(row: SpanRow) -> bool {
    forall|i: int| 0 <= i < row.len() ==> only_rule((#[trigger] row[i]).0)
}

fn is_rule(s: &str) -> (is: bool)
    ensures
        is == only_rule(s@),
{
    let chars = text::to_chars(s);
    let mut i: usize = 0;
    while i < chars.len()
        invariant
            i <= chars@.len(),
            chars@ == s@,
            forall|k: int| 0 <= k < i ==> text::white(#[trigger] s@[k]) || draws_rule(s@[k]),
        decreases chars@.len() - i,
    {
        let n: u32 = chars[i] as u32;
        if !text::is_white(chars[i]) && !(0x2500 <= n && n <= 0x257f) {
            proof {
                assert(!(text::white(s@[i as int]) || draws_rule(s@[i as int])));
            }
            return false;
        }
        i += 1;
    }
    true
}

/// Whether a row only separates others: it is blank, or a rule drawn across it, as
/// a renderer may draw above each commit.
pub fn is_separator(row: &RenderedRow) -> (is: bool)
    ensures
        is == separates(item::row_view(row@)),
{
    let mut i: usize = 0;
    while i < row.len()
        invariant
            i <= row@.len(),
            forall|k: int| 0 <= k < i ==> only_rule((#[trigger] item::row_view(row@)[k]).0),
        decreases row@.len() - i,
    {
        if !is_rule(row[i].0.as_str()) {
            proof {
                assert(!only_rule(item::row_view(row@)[i as int].0));
            }
            return false;
        }
        i += 1;
    }
    true
}

/// Whether there is nothing but white space in a row.
pub open spec fn row_blank(row: SpanRow) -> bool {
    forall|i: int| 0 <= i < row.len() ==> text::blank((#[trigger] row[i]).0)
}

/// Whether there is nothing but white space in a row.
pub fn is_blank_row(row: &RenderedRow) -> (is: bool)
    ensures
        is == row_blank(item::row_view(row@)),
{
    let mut i: usize = 0;
    while i < row.len()
        invariant
            i <= row@.len(),
            forall|k: int| 0 <= k < i ==> text::blank((#[trigger] item::row_view(row@)[k]).0),
        decreases row@.len() - i,
    {
        if !text::is_blank(row[i].0.as_str()) {
            proof {
                assert(!text::blank(item::row_view(row@)[i as int].0));
            }
            return false;
        }
        i += 1;
    }
    true
}

/// A blank row only separates others.
proof fn lemma_blank_separates(row: SpanRow)
    requires
        row_blank(row),
    ensures
        separates(row),
{
    assert forall|i: int| 0 <= i < row.len() implies only_rule((#[trigger] row[i]).0) by {
        assert(text::blank(row[i].0));
    }
}

/// A row as it was rendered, which nothing can act on.
pub open spec fn rendered_item(id: ItemId, depth: usize, row: SpanRow) -> ItemRow {
    ItemRow { id, depth, unselectable: true, rendered: Some(row), ..item::plain_item() }
}

/// A row as it was rendered, which nothing can act on.
pub fn row_item(id: ItemId, depth: usize, row: &RenderedRow) -> (item: Item)
    ensures
        item@ == rendered_item(id, depth, item::row_view(row@)),
{
    Item {
        id,
        depth,
        unselectable: true,
        rendered: Some(item::clone_row(row)),
        ..Item::plain()
    }
}

/// The first row that says anything, or how many there are if none does.
pub open spec fn first_shown(rows: Seq<SpanRow>) -> int
    decreases rows.len(),
{
    if rows.len() == 0 || !separates(rows[0]) {
        0
    } else {
        1 + first_shown(rows.drop_first())
    }
}

/// The first row that isn't blank, or how many there are if all are.
pub open spec fn first_unblank(rows: Seq<SpanRow>) -> int
    decreases rows.len(),
{
    if rows.len() == 0 || !row_blank(rows[0]) {
        0
    } else {
        1 + first_unblank(rows.drop_first())
    }
}

/// Which row of a block stands for it: the first that says anything, or where none
/// does, the first that isn't blank; or how many there are if all are.
pub open spec fn anchor_of(rows: Seq<SpanRow>) -> int {
    if first_shown(rows) < rows.len() {
        first_shown(rows)
    } else {
        first_unblank(rows)
    }
}

/// The row of a block that stands for it: the row as rendered, behind a prefix.
pub open spec fn anchor_item(id: ItemId, row: SpanRow, data: Meaning, prefix: SpanRow) -> ItemRow {
    ItemRow { data, unselectable: false, ..rendered_item(id, 1, prefix + row) }
}

/// A block of rows under a selectable one.
pub open spec fn laid_out(id: ItemId, rows: Seq<SpanRow>, data: Meaning, prefix: SpanRow) -> Seq<
    ItemRow,
> {
    Seq::new(
        rows.len(),
        |i: int|
            if i == anchor_of(rows) {
                anchor_item(id, rows[i], data, prefix)
            } else if i < anchor_of(rows) {
                rendered_item(id, 1, rows[i])
            } else {
                rendered_item(id, 2, rows[i])
            },
    )
}

proof fn lemma_first_shown(rows: Seq<SpanRow>)
    ensures
        0 <= first_shown(rows) <= rows.len(),
        forall|i: int| 0 <= i < first_shown(rows) ==> separates(#[trigger] rows[i]),
        first_shown(rows) < rows.len() ==> !separates(rows[first_shown(rows)]),
    decreases rows.len(),
{
    if rows.len() > 0 && separates(rows[0]) {
        let rest = rows.drop_first();
        lemma_first_shown(rest);
        assert forall|i: int| 0 <= i < first_shown(rows) implies separates(
            #[trigger] rows[i],
        ) by {
            if i > 0 {
                assert(separates(rest[i - 1]));
            }
        }
    }
}

proof fn lemma_first_unblank(rows: Seq<SpanRow>)
    ensures
        0 <= first_unblank(rows) <= rows.len(),
        forall|i: int| 0 <= i < first_unblank(rows) ==> row_blank(#[trigger] rows[i]),
        first_unblank(rows) < rows.len() ==> !row_blank(rows[first_unblank(rows)]),
    decreases rows.len(),
{
    if rows.len() > 0 && row_blank(rows[0]) {
        let rest = rows.drop_first();
        lemma_first_unblank(rest);
        assert forall|i: int| 0 <= i < first_unblank(rows) implies row_blank(
            #[trigger] rows[i],
        ) by {
            if i > 0 {
                assert(row_blank(rest[i - 1]));
            }
        }
    }
}

/// Whether a block has a row that isn't blank.
pub open spec fn shows_something(rows: Seq<SpanRow>) -> bool {
    exists|i: int| 0 <= i < rows.len() && !row_blank(#[trigger] rows[i])
}

/// A block is one unit: where it has a row that isn't blank, exactly one of its rows
/// can be selected. That is the first that says anything, a rule drawn across it
/// being passed over; and where there are only rules, the first of those. The rows
/// before it lie beside it and those after it under it.
pub proof fn block_has_one_anchor(id: ItemId, rows: Seq<SpanRow>, data: Meaning, prefix: SpanRow)
    ensures
        laid_out(id, rows, data, prefix).len() == rows.len(),
        0 <= anchor_of(rows) <= rows.len(),
        anchor_of(rows) < rows.len() <==> shows_something(rows),
        shows_something(rows) ==> {
            let anchor = rows[anchor_of(rows)];
            &&& !row_blank(anchor)
            &&& forall|k: int| 0 <= k < anchor_of(rows) ==> separates(#[trigger] rows[k])
            &&& separates(anchor) ==> forall|k: int|
                0 <= k < rows.len() ==> separates(#[trigger] rows[k])
            &&& separates(anchor) ==> forall|k: int|
                0 <= k < anchor_of(rows) ==> row_blank(#[trigger] rows[k])
        },
        forall|i: int|
            0 <= i < rows.len() ==> {
                let item = #[trigger] laid_out(id, rows, data, prefix)[i];
                &&& !item.unselectable <==> i == anchor_of(rows)
                &&& !item.unselectable ==> item == anchor_item(id, rows[i], data, prefix)
                &&& item.id == id
                &&& item.depth == (if i <= anchor_of(rows) {
                    1usize
                } else {
                    2usize
                })
            },
{
    lemma_first_shown(rows);
    lemma_first_unblank(rows);
    if first_shown(rows) < rows.len() {
        let first = rows[first_shown(rows)];
        if row_blank(first) {
            lemma_blank_separates(first);
        }
        assert(!row_blank(first));
    }
}

fn prefixed(prefix: &RenderedRow, row: &RenderedRow) -> (out: RenderedRow)
    ensures
        item::row_view(out@) == item::row_view(prefix@) + item::row_view(row@),
{
    let mut out = item::clone_row(prefix);
    let mut i: usize = 0;
    let ghost start = item::row_view(prefix@);
    while i < row.len()
        invariant
            i <= row@.len(),
            start == item::row_view(prefix@),
            item::row_view(out@) =~= start + item::row_view(row@).take(i as int),
        decreases row@.len() - i,
    {
        let ghost before = out@;
        out.push((row[i].0.clone(), row[i].1));
        proof {
            assert(item::row_view(out@) =~= item::row_view(before).push(
                item::row_view(row@)[i as int],
            ));
        }
        i += 1;
    }
    proof {
        assert(item::row_view(row@).take(i as int) =~= item::row_view(row@));
    }
    out
}

/// Which row of a block stands for it, or how many there are if none does.
fn find_anchor(rows: &Vec<RenderedRow>) -> (at: usize)
    ensures
        at == anchor_of(item::rows_view(rows@)),
        at <= rows@.len(),
{
    let ghost all = item::rows_view(rows@);
    proof {
        lemma_first_shown(all);
        lemma_first_unblank(all);
    }
    let mut i: usize = 0;
    while i < rows.len()
        invariant
            i <= rows@.len(),
            all == item::rows_view(rows@),
            first_shown(all) < all.len() ==> !separates(all[first_shown(all)]),
            forall|k: int| 0 <= k < first_shown(all) ==> separates(#[trigger] all[k]),
            i <= first_shown(all) <= all.len(),
        decreases rows@.len() - i,
    {
        proof {
            assert(all[i as int] == item::row_view(rows@[i as int]@));
        }
        if !is_separator(&rows[i]) {
            return i;
        }
        i += 1;
    }
    let mut j: usize = 0;
    while j < rows.len()
        invariant
            j <= rows@.len(),
            all == item::rows_view(rows@),
            first_shown(all) == all.len(),
            first_unblank(all) < all.len() ==> !row_blank(all[first_unblank(all)]),
            forall|k: int| 0 <= k < first_unblank(all) ==> row_blank(#[trigger] all[k]),
            j <= first_unblank(all) <= all.len(),
        decreases rows@.len() - j,
    {
        proof {
            assert(all[j as int] == item::row_view(rows@[j as int]@));
        }
        if !is_blank_row(&rows[j]) {
            return j;
        }
        j += 1;
    }
    j
}

/// Lay a block of rendered rows out under a selectable row, the first that says
/// anything: rows before it are separators at the same depth, rows after it nest one
/// deeper so folding it hides them. In a block of nothing but rules the first of
/// those is selectable, so that there is a way to reach it.
pub fn block_items(id: ItemId, rows: &Vec<RenderedRow>, data: &ItemData, prefix: &RenderedRow) -> (
    items: Vec<Item>)
    ensures
        item::item_views(items@) == laid_out(
            id,
            item::rows_view(rows@),
            data@,
            item::row_view(prefix@),
        ),
{
    let ghost all = item::rows_view(rows@);
    let anchor = find_anchor(rows);
    let mut items: Vec<Item> = Vec::new();
    let mut i: usize = 0;
    while i < rows.len()
        invariant
            i <= rows@.len(),
            all == item::rows_view(rows@),
            anchor == anchor_of(all),
            items@.len() == i,
            forall|k: int|
                0 <= k < i ==> (#[trigger] items@[k])@ == laid_out(
                    id,
                    all,
                    data@,
                    item::row_view(prefix@),
                )[k],
        decreases rows@.len() - i,
    {
        let row = &rows[i];
        proof {
            assert(all[i as int] == item::row_view(row@));
        }
        let item = if i > anchor {
            row_item(id, 2, row)
        } else if i < anchor {
            row_item(id, 1, row)
        } else {
            Item {
                id,
                default_collapsed: false,
                depth: 1,
                unselectable: false,
                data: data.clone(),
                rendered: Some(prefixed(prefix, row)),
            }
        };
        items.push(item);
        i += 1;
    }
    proof {
        assert(item::item_views(items@) =~= laid_out(id, all, data@, item::row_view(prefix@)));
    }
    items
}

// ---------------------------------------------------------------------------
// The log
// ---------------------------------------------------------------------------

/// The rows of a block of a log, given the commit it is of, where there is one.
pub open spec fn block_rows(
    block: Block,
    commit: Option<CommitRecord>,
    refs: Seq<(Seq<char>, RefView)>,
    now: int,
) -> Seq<ItemRow> {
    match commit {
        Some(commit) => laid_out(
            commit.id,
            block.rows,
            log_items::commit_meaning(commit, refs, now),
            seq![],
        ),
        None => block.rows.map_values(|row: SpanRow| rendered_item(0, 1, row)),
    }
}

/// The rows of a log, given the commit each of its blocks is of.
pub open spec fn rendered_log_rows(
    blocks: Seq<Block>,
    commits: Seq<Option<CommitRecord>>,
    refs: Seq<(Seq<char>, RefView)>,
    now: int,
) -> Seq<ItemRow>
    decreases blocks.len(),
{
    if blocks.len() == 0 {
        seq![]
    } else {
        rendered_log_rows(blocks.drop_last(), commits, refs, now) + block_rows(
            blocks.last(),
            commits[blocks.len() - 1],
            refs,
            now,
        )
    }
}

/// One commit's rendered rows as items: rows leading the block that say nothing stay
/// separators, the first that does is the commit itself, and the remaining rows nest
/// under it (so folding the commit hides them). A block that is of no commit that can
/// be found is only rows.
pub fn commit_block_items(
    block: &RenderedCommit,
    commit: &Option<CommitRecord>,
    refs: &Vec<CommitRef>,
    now: i64,
) -> (items: Vec<Item>)
    requires
        commit matches Some(commit) ==> log_items::datable(now as int, commit.seconds as int),
    ensures
        item::item_views(items@) == block_rows(
            block@,
            *commit,
            log_items::commit_ref_views(refs@),
            now as int,
        ),
{
    match commit {
        Some(commit) => {
            let data = log_items::commit_data(commit, refs, now);
            let prefix: RenderedRow = Vec::new();
            proof {
                assert(item::row_view(prefix@) =~= seq![]);
            }
            block_items(commit.id, &block.rows, &data, &prefix)
        },
        None => {
            let mut items: Vec<Item> = Vec::new();
            let mut i: usize = 0;
            while i < block.rows.len()
                invariant
                    i <= block.rows@.len(),
                    items@.len() == i,
                    forall|k: int|
                        0 <= k < i ==> (#[trigger] items@[k])@ == rendered_item(
                            0,
                            1,
                            block@.rows[k],
                        ),
                decreases block.rows@.len() - i,
            {
                items.push(row_item(0, 1, &block.rows[i]));
                i += 1;
            }
            proof {
                assert(item::item_views(items@) =~= block@.rows.map_values(
                    |row: SpanRow| rendered_item(0, 1, row),
                ));
            }
            items
        },
    }
}

/// Items with others after them.
fn append_items(items: &mut Vec<Item>, more: Vec<Item>)
    ensures
        item::item_views(final(items)@) == item::item_views(old(items)@) + item::item_views(more@),
{
    let mut more = more;
    let ghost front = items@;
    let ghost back = more@;
    items.append(&mut more);
    proof {
        assert(item::item_views(items@) =~= item::item_views(front) + item::item_views(back));
    }
}

/// The rows of a log, given the commit each of its blocks is of.
pub fn rendered_log_items(
    blocks: &Vec<RenderedCommit>,
    commits: &Vec<Option<CommitRecord>>,
    refs: &Vec<CommitRef>,
    now: i64,
) -> (items: Vec<Item>)
    requires
        blocks@.len() == commits@.len(),
        forall|i: int|
            0 <= i < commits@.len() ==> ((#[trigger] commits@[i]) matches Some(commit)
                ==> log_items::datable(now as int, commit.seconds as int)),
    ensures
        item::item_views(items@) == rendered_log_rows(
            block_views(blocks@),
            commits@,
            log_items::commit_ref_views(refs@),
            now as int,
        ),
{
    let ghost all = block_views(blocks@);
    let ghost names = log_items::commit_ref_views(refs@);
    let mut items: Vec<Item> = Vec::new();
    let mut i: usize = 0;
    proof {
        assert(all.take(0) =~= Seq::<Block>::empty());
        assert(item::item_views(items@) =~= Seq::<ItemRow>::empty());
    }
    while i < blocks.len()
        invariant
            i <= blocks@.len(),
            blocks@.len() == commits@.len(),
            all == block_views(blocks@),
            names == log_items::commit_ref_views(refs@),
            forall|k: int|
                0 <= k < commits@.len() ==> ((#[trigger] commits@[k]) matches Some(commit)
                    ==> log_items::datable(now as int, commit.seconds as int)),
            item::item_views(items@) == rendered_log_rows(
                all.take(i as int),
                commits@,
                names,
                now as int,
            ),
        decreases blocks@.len() - i,
    {
        proof {
            assert(all.take(i + 1).drop_last() =~= all.take(i as int));
            assert(all.take(i + 1).last() == blocks@[i as int]@);
        }
        let more = commit_block_items(&blocks[i], &commits[i], refs, now);
        append_items(&mut items, more);
        i += 1;
    }
    proof {
        assert(all.take(i as int) =~= all);
    }
    items
}

/// Rows nothing gives a structure to.
pub open spec fn unstructured(rows: Seq<Row>) -> Seq<ItemRow> {
    rows.map_values(
        |row: Row| ItemRow { rendered: Some(diff_items::spans_of(row)), ..item::plain_item() },
    )
}

/// Rows nothing gives a structure to. They are rows like any other: each one
/// takes the cursor.
pub fn plain_rows(lines: &Vec<ParsedLine>) -> (items: Vec<Item>)
    requires
        forall|i: int| 0 <= i < lines@.len() ==> (#[trigger] lines@[i]).wf(),
    ensures
        item::item_views(items@) == unstructured(diff_renderer::row_views(lines@)),
{
    let mut items: Vec<Item> = Vec::new();
    let mut i: usize = 0;
    while i < lines.len()
        invariant
            i <= lines@.len(),
            items@.len() == i,
            forall|k: int| 0 <= k < lines@.len() ==> (#[trigger] lines@[k]).wf(),
            forall|k: int|
                0 <= k < i ==> (#[trigger] items@[k])@ == unstructured(
                    diff_renderer::row_views(lines@),
                )[k],
        decreases lines@.len() - i,
    {
        let item = Item {
            rendered: Some(diff_items::rendered_spans(&lines[i])),
            ..Item::plain()
        };
        proof {
            assert(item@ =~= unstructured(diff_renderer::row_views(lines@))[i as int]);
        }
        items.push(item);
        i += 1;
    }
    proof {
        assert(item::item_views(items@) =~= unstructured(diff_renderer::row_views(lines@)));
    }
    items
}

// ---------------------------------------------------------------------------
// The rebase list
// ---------------------------------------------------------------------------

/// The rows a log command gave each of some commits.
#[derive(Debug)]
pub struct CommitRows {
    pub oid: String,
    pub rows: Vec<RenderedRow>,
}

/// What the rows of some commits are.
pub open spec fn commit_rows_views(rows: Seq<CommitRows>) -> Seq<(Seq<char>, Seq<SpanRow>)> {
    rows.map_values(|rows: CommitRows| (rows.oid@, item::rows_view(rows.rows@)))
}

/// The blocks that are of a commit, with that commit's id.
pub open spec fn by_commit(blocks: Seq<Block>) -> Seq<(Seq<char>, Seq<SpanRow>)>
    decreases blocks.len(),
{
    if blocks.len() == 0 {
        seq![]
    } else {
        let front = by_commit(blocks.drop_last());
        match blocks.last().oid {
            Some(oid) => front.push((oid, blocks.last().rows)),
            None => front,
        }
    }
}

/// The log command's rows for each commit, for views that lay the commits out
/// themselves (the interactive rebase list). Empty when no log command is in use
/// or it printed no commits.
pub fn rendered_commit_rows(blocks: Option<Vec<RenderedCommit>>) -> (rows: Vec<CommitRows>)
    ensures
        commit_rows_views(rows@) == (match blocks {
            Some(blocks) => by_commit(block_views(blocks@)),
            None => seq![],
        }),
{
    let mut rows: Vec<CommitRows> = Vec::new();
    proof {
        assert(commit_rows_views(rows@) =~= seq![]);
    }
    match blocks {
        None => rows,
        Some(blocks) => {
            let ghost all = block_views(blocks@);
            let mut blocks = blocks;
            let ghost held = blocks@;
            let mut i: usize = 0;
            proof {
                assert(all.take(0) =~= Seq::<Block>::empty());
            }
            let n = blocks.len();
            while i < n
                invariant
                    i <= n,
                    n == held.len(),
                    blocks@.len() == n,
                    all == block_views(held),
                    forall|k: int| i <= k < n ==> (#[trigger] blocks@[k]) == held[k],
                    commit_rows_views(rows@) == by_commit(all.take(i as int)),
                decreases n - i,
            {
                let mut block = RenderedCommit { oid: None, rows: Vec::new() };
                std::mem::swap(&mut block, &mut blocks[i]);
                let ghost before = rows@;
                proof {
                    assert(block == held[i as int]);
                    assert(all.take(i + 1).drop_last() =~= all.take(i as int));
                    assert(all.take(i + 1).last() == block@);
                }
                if let Some(oid) = block.oid {
                    rows.push(CommitRows { oid, rows: block.rows });
                    proof {
                        assert(commit_rows_views(rows@) =~= commit_rows_views(before).push(
                            (oid@, item::rows_view(block.rows@)),
                        ));
                    }
                }
                i += 1;
            }
            proof {
                assert(all.take(i as int) =~= all);
            }
            rows
        },
    }
}

/// The rows of a commit: the last ones given for it.
pub open spec fn rows_for(rows: Seq<(Seq<char>, Seq<SpanRow>)>, oid: Seq<char>) -> Option<
    Seq<SpanRow>,
>
    decreases rows.len(),
{
    if rows.len() == 0 {
        None
    } else if rows.last().0 == oid {
        Some(rows.last().1)
    } else {
        rows_for(rows.drop_last(), oid)
    }
}

fn find_rows<'a>(rows: &'a Vec<CommitRows>, oid: &str) -> (found: Option<&'a Vec<RenderedRow>>)
    ensures
        match found {
            Some(found) => rows_for(commit_rows_views(rows@), oid@) == Some(
                item::rows_view(found@),
            ),
            None => rows_for(commit_rows_views(rows@), oid@) is None,
        },
{
    let ghost all = commit_rows_views(rows@);
    let mut i: usize = rows.len();
    proof {
        assert(all.take(i as int) =~= all);
    }
    while i > 0
        invariant
            i <= rows@.len(),
            all == commit_rows_views(rows@),
            rows_for(all.take(i as int), oid@) == rows_for(all, oid@),
        decreases i,
    {
        proof {
            assert(all.take(i as int).drop_last() =~= all.take(i - 1));
            assert(all.take(i as int).last() == (
                rows@[i - 1].oid@,
                item::rows_view(rows@[i - 1].rows@),
            ));
        }
        if text::same_text(rows[i - 1].oid.as_str(), oid) {
            return Some(&rows[i - 1].rows);
        }
        i -= 1;
    }
    None
}

/// A commit as a log of its own would show it, for when no log command rendered
/// it; or only its id, when it can't be found.
pub open spec fn own_row(commit: Option<CommitRecord>, oid: Seq<char>, hash: Style) -> SpanRow {
    match commit {
        Some(commit) => seq![
            (commit.short_id@.push(' '), hash),
            (commit.summary@, style::plain()),
        ],
        None => seq![(oid, style::plain())],
    }
}

/// A commit as a log of its own would show it, for when no log command rendered
/// it.
pub fn commit_row(commit: &Option<CommitRecord>, oid: &str, hash: Style) -> (row: RenderedRow)
    ensures
        item::row_view(row@) == own_row(*commit, oid@, hash),
{
    let mut row: RenderedRow = Vec::new();
    match commit {
        Some(commit) => {
            let mut id = commit.short_id.clone();
            id.push(' ');
            row.push((id, hash));
            row.push((commit.summary.clone(), Style::new()));
        },
        None => {
            row.push((oid.to_owned(), Style::new()));
        },
    }
    proof {
        assert(item::row_view(row@) =~= own_row(*commit, oid@, hash));
    }
    row
}

/// How wide the actions of a list are drawn.
pub const ACTION_WIDTH: usize = 7;

/// A text with spaces after it, up to a width.
pub open spec fn padded(s: Seq<char>, width: nat) -> Seq<char> {
    if s.len() < width {
        s + Seq::new((width - s.len()) as nat, |i: int| ' ')
    } else {
        s
    }
}

fn pad(s: &str, width: usize) -> (out: String)
    ensures
        out@ == padded(s@, width as nat),
{
    let chars = text::to_chars(s);
    let mut out = s.to_owned();
    let mut n: usize = chars.len();
    while n < width
        invariant
            s@.len() <= n,
            n <= width || n == s@.len(),
            out@ =~= padded(s@, n as nat),
        decreases width - n,
    {
        out.push(' ');
        n += 1;
    }
    proof {
        assert(out@ =~= padded(s@, width as nat));
    }
    out
}

/// How an action is drawn. A commit that will be dropped is crossed out.
pub open spec fn action_style(action: TodoAction, base: Style) -> Style {
    if action == TodoAction::Drop {
        Style {
            add_modifier: style::union(base.add_modifier, Modifier { bits: style::CROSSED_OUT }),
            ..base
        }
    } else {
        base
    }
}

/// What stands before a commit's own line: the action git will take.
pub open spec fn action_prefix(action: Option<TodoAction>, style: Style) -> SpanRow {
    match action {
        Some(action) => seq![
            (
                padded(rebase_todo::keyword_of(action), ACTION_WIDTH as nat),
                action_style(action, style),
            ),
        ],
        None => seq![],
    }
}

fn action_span(action: Option<TodoAction>, base: Style) -> (prefix: RenderedRow)
    ensures
        item::row_view(prefix@) == action_prefix(action, base),
{
    let mut prefix: RenderedRow = Vec::new();
    if let Some(action) = action {
        let mut drawn = base;
        if action == TodoAction::Drop {
            drawn.add_modifier = base.add_modifier.union(Modifier { bits: style::CROSSED_OUT });
        }
        prefix.push((pad(action.keyword(), ACTION_WIDTH), drawn));
    }
    proof {
        assert(item::row_view(prefix@) =~= action_prefix(action, base));
    }
    prefix
}

/// A row with an entry's action in front of it, so the instruction reads as part
/// of the commit's own line.
pub fn action_prefixed(action: Option<TodoAction>, row: &RenderedRow, style: Style) -> (out:
    RenderedRow)
    ensures
        item::row_view(out@) == action_prefix(action, style) + item::row_view(row@),
{
    let prefix = action_span(action, style);
    prefixed(&prefix, row)
}

/// How the rebase list is drawn.
#[derive(Debug, Clone, Copy)]
pub struct TodoStyles {
    pub action: Style,
    pub hash: Style,
}

/// What is known of an entry of the list: what tells its rows apart from those of
/// the others, and its commit, where it is of one that can be found.
#[derive(Debug)]
pub struct EntryRecord {
    pub id: ItemId,
    pub commit: Option<CommitRecord>,
}

/// The rows of an entry.
pub open spec fn entry_rows(
    index: int,
    entry: Entry,
    record: EntryRecord,
    rows: Seq<(Seq<char>, Seq<SpanRow>)>,
    styles: TodoStyles,
) -> Seq<ItemRow> {
    let data = Meaning::RebaseTodo { index: index as usize };
    match entry {
        Entry::Commit { action, oid } => laid_out(
            record.id,
            match rows_for(rows, oid) {
                Some(rows) => rows,
                None => seq![own_row(record.commit, oid, styles.hash)],
            },
            data,
            action_prefix(Some(action), styles.action),
        ),
        Entry::Other(instruction) => laid_out(
            record.id,
            seq![seq![(instruction, style::plain())]],
            data,
            seq![],
        ),
    }
}

/// The rows of the first entries.
pub open spec fn todo_rows(
    entries: Seq<Entry>,
    records: Seq<EntryRecord>,
    rows: Seq<(Seq<char>, Seq<SpanRow>)>,
    styles: TodoStyles,
) -> Seq<ItemRow>
    decreases entries.len(),
{
    if entries.len() == 0 {
        seq![]
    } else {
        todo_rows(entries.drop_last(), records, rows, styles) + entry_rows(
            entries.len() - 1,
            entries.last(),
            records[entries.len() - 1],
            rows,
            styles,
        )
    }
}

/// The rows that make up an entry, before they are laid out, and what stands before
/// the one that stands for it.
pub open spec fn entry_block(
    entry: Entry,
    record: EntryRecord,
    rows: Seq<(Seq<char>, Seq<SpanRow>)>,
    styles: TodoStyles,
) -> (Seq<SpanRow>, SpanRow) {
    match entry {
        Entry::Commit { action, oid } => (
            match rows_for(rows, oid) {
                Some(rows) => rows,
                None => seq![own_row(record.commit, oid, styles.hash)],
            },
            action_prefix(Some(action), styles.action),
        ),
        Entry::Other(instruction) => (seq![seq![(instruction, style::plain())]], seq![]),
    }
}

/// The rows of the first entries that can be selected: one for each entry that has a
/// row that isn't blank, which says the entry's action before what the row says.
pub open spec fn todo_anchors(
    entries: Seq<Entry>,
    records: Seq<EntryRecord>,
    rows: Seq<(Seq<char>, Seq<SpanRow>)>,
    styles: TodoStyles,
) -> Seq<ItemRow>
    decreases entries.len(),
{
    if entries.len() == 0 {
        seq![]
    } else {
        let front = todo_anchors(entries.drop_last(), records, rows, styles);
        let record = records[entries.len() - 1];
        let (block, prefix) = entry_block(entries.last(), record, rows, styles);
        if shows_something(block) {
            front.push(
                anchor_item(
                    record.id,
                    block[anchor_of(block)],
                    Meaning::RebaseTodo { index: (entries.len() - 1) as usize },
                    prefix,
                ),
            )
        } else {
            front
        }
    }
}

/// The rows that can be selected.
pub open spec fn selectable(rows: Seq<ItemRow>) -> Seq<ItemRow>
    decreases rows.len(),
{
    if rows.len() == 0 {
        seq![]
    } else if rows.last().unselectable {
        selectable(rows.drop_last())
    } else {
        selectable(rows.drop_last()).push(rows.last())
    }
}

proof fn lemma_selectable_concat(a: Seq<ItemRow>, b: Seq<ItemRow>)
    ensures
        selectable(a + b) == selectable(a) + selectable(b),
    decreases b.len(),
{
    if b.len() == 0 {
        assert(a + b =~= a);
    } else {
        assert((a + b).drop_last() =~= a + b.drop_last());
        lemma_selectable_concat(a, b.drop_last());
    }
}

/// One row that can be selected among others that can't.
proof fn lemma_selectable_one(rows: Seq<ItemRow>, at: int)
    requires
        0 <= at <= rows.len(),
        forall|i: int|
            0 <= i < rows.len() ==> (!(#[trigger] rows[i]).unselectable <==> i == at),
    ensures
        selectable(rows) == (if at < rows.len() {
            seq![rows[at]]
        } else {
            seq![]
        }),
    decreases rows.len(),
{
    if rows.len() > 0 {
        let front = rows.drop_last();
        lemma_selectable_one(
            front,
            if at < front.len() {
                at
            } else {
                front.len() as int
            },
        );
        assert(selectable(rows) =~= if at < rows.len() {
            seq![rows[at]]
        } else {
            seq![]
        });
    }
}

/// The rows that can be selected of an instruction list are its entries, in order: each
/// stands for one entry, a later row for a later one, and none lies under another.
pub proof fn entries_keep_their_order(
    entries: Seq<Entry>,
    records: Seq<EntryRecord>,
    rows: Seq<(Seq<char>, Seq<SpanRow>)>,
    styles: TodoStyles,
)
    requires
        entries.len() <= usize::MAX,
    ensures
        todo_anchors(entries, records, rows, styles).len() <= entries.len(),
        forall|i: int|
            0 <= i < todo_anchors(entries, records, rows, styles).len() ==> ({
                let row = #[trigger] todo_anchors(entries, records, rows, styles)[i];
                &&& !row.unselectable
                &&& row.depth == 1
                &&& row.data matches Meaning::RebaseTodo { index }
                &&& index < entries.len()
            }),
        forall|i: int, j: int|
            0 <= i < j < todo_anchors(entries, records, rows, styles).len()
                ==> (#[trigger] todo_anchors(entries, records, rows, styles)[i]).data->RebaseTodo_index
                < (#[trigger] todo_anchors(
                entries,
                records,
                rows,
                styles,
            )[j]).data->RebaseTodo_index,
    decreases entries.len(),
{
    if entries.len() > 0 {
        entries_keep_their_order(entries.drop_last(), records, rows, styles);
    }
}

/// Every entry of the list can be reached, by one row: what can be selected is, for
/// each entry that has a row that isn't blank and in the order of the entries, the row
/// that stands for it.
pub proof fn entries_can_be_reached(
    entries: Seq<Entry>,
    records: Seq<EntryRecord>,
    rows: Seq<(Seq<char>, Seq<SpanRow>)>,
    styles: TodoStyles,
)
    ensures
        selectable(todo_rows(entries, records, rows, styles)) == todo_anchors(
            entries,
            records,
            rows,
            styles,
        ),
    decreases entries.len(),
{
    if entries.len() > 0 {
        let front = entries.drop_last();
        let n = entries.len() - 1;
        let (block, prefix) = entry_block(entries.last(), records[n], rows, styles);
        let data = Meaning::RebaseTodo { index: n as usize };
        let last = entry_rows(n, entries.last(), records[n], rows, styles);
        entries_can_be_reached(front, records, rows, styles);
        lemma_selectable_concat(todo_rows(front, records, rows, styles), last);
        assert(last == laid_out(records[n].id, block, data, prefix));
        block_has_one_anchor(records[n].id, block, data, prefix);
        lemma_selectable_one(last, anchor_of(block));
        assert(selectable(todo_rows(entries, records, rows, styles)) =~= todo_anchors(
            entries,
            records,
            rows,
            styles,
        ));
    }
}

fn entry_items(
    index: usize,
    entry: &TodoEntry,
    record: &EntryRecord,
    rows: &Vec<CommitRows>,
    styles: TodoStyles,
) -> (items: Vec<Item>)
    ensures
        item::item_views(items@) == entry_rows(
            index as int,
            entry@,
            *record,
            commit_rows_views(rows@),
            styles,
        ),
{
    let data = ItemData::RebaseTodo { index };
    match entry {
        TodoEntry::Commit { action, oid } => {
            let prefix = action_span(Some(*action), styles.action);
            match find_rows(rows, oid.as_str()) {
                Some(found) => block_items(record.id, found, &data, &prefix),
                None => {
                    let mut own: Vec<RenderedRow> = Vec::new();
                    own.push(commit_row(&record.commit, oid.as_str(), styles.hash));
                    proof {
                        assert(item::rows_view(own@) =~= seq![
                            own_row(record.commit, oid@, styles.hash),
                        ]);
                    }
                    block_items(record.id, &own, &data, &prefix)
                },
            }
        },
        TodoEntry::Other(instruction) => {
            let prefix: RenderedRow = Vec::new();
            let mut row: RenderedRow = Vec::new();
            row.push((instruction.clone(), Style::new()));
            let ghost shown = row@;
            let mut own: Vec<RenderedRow> = Vec::new();
            own.push(row);
            proof {
                assert(item::row_view(prefix@) =~= seq![]);
                assert(item::row_view(shown) =~= seq![(instruction@, style::plain())]);
                assert(item::rows_view(own@) =~= seq![item::row_view(shown)]);
            }
            block_items(record.id, &own, &data, &prefix)
        },
    }
}

/// Build the interactive rebase list: each entry's commit is drawn with the rows
/// the log command gave it (so it looks like the log view), prefixed with the
/// action git will take. Entries that aren't commits (`exec`, `break`, …) show
/// their instruction verbatim.
pub fn rebase_todo_items(
    todo: &RebaseTodo,
    records: &Vec<EntryRecord>,
    rows: &Vec<CommitRows>,
    styles: TodoStyles,
) -> (items: Vec<Item>)
    requires
        records@.len() == todo.entries@.len(),
    ensures
        item::item_views(items@) == todo_rows(
            rebase_todo::entry_views(todo.entries@),
            records@,
            commit_rows_views(rows@),
            styles,
        ),
{
    let ghost all = rebase_todo::entry_views(todo.entries@);
    let ghost given = commit_rows_views(rows@);
    let mut items: Vec<Item> = Vec::new();
    let mut i: usize = 0;
    proof {
        assert(all.take(0) =~= Seq::<Entry>::empty());
        assert(item::item_views(items@) =~= Seq::<ItemRow>::empty());
    }
    while i < todo.entries.len()
        invariant
            i <= todo.entries@.len(),
            records@.len() == todo.entries@.len(),
            all == rebase_todo::entry_views(todo.entries@),
            given == commit_rows_views(rows@),
            item::item_views(items@) == todo_rows(all.take(i as int), records@, given, styles),
        decreases todo.entries@.len() - i,
    {
        proof {
            assert(all.take(i + 1).drop_last() =~= all.take(i as int));
            assert(all.take(i + 1).last() == todo.entries@[i as int]@);
        }
        let more = entry_items(i, &todo.entries[i], &records[i], rows, styles);
        append_items(&mut items, more);
        i += 1;
    }
    proof {
        assert(all.take(i as int) =~= all);
    }
    items
}

} // verus!
