//! What is read of a renderer's output.

use crate::ansi;
use crate::ansi::{Drawn, Event};
use crate::diff_renderer;
use crate::diff_renderer::{Identity, Link, LineKind, Page, Row};
use crate::laws::terminal;
use crate::osc;
use crate::sgr;
use crate::spans;
use crate::text;
use std::ops::Range;
use vstd::prelude::*;

verus! {

// ---------------------------------------------------------------------------
// Text
// ---------------------------------------------------------------------------

/// Whether an event puts something on a line or ends it.
pub open spec fn writes() -> spec_fn(Event) -> bool {
    |event: Event|
        match event {
            Event::Print(_) => true,
            Event::Execute(byte) => byte == 9 || byte == 10,
            _ => false,
        }
}

/// What such an event writes.
pub open spec fn written() -> spec_fn(Event) -> char {
    |event: Event|
        match event {
            Event::Print(c) => c,
            Event::Execute(byte) => if byte == 9 {
                '\t'
            } else {
                '\n'
            },
            _ => ' ',
        }
}

/// Whether an event says which version of the protocol is spoken.
pub open spec fn greets(event: Event) -> bool {
    match event {
        Event::Osc(fields) => fields.len() == 2 && fields[0] == seq![0x31u8, 0x37, 0x31, 0x37],
        _ => false,
    }
}

/// The text of some rows, each with a newline after it.
pub open spec fn ended() -> spec_fn(Row) -> Seq<char> {
    |row: Row| row.text.push('\n')
}

/// Whatever it looks like, all text that was written is kept, in the order in which it
/// was written, and a line ends where a newline was.
pub proof fn text_is_kept(events: Seq<Event>)
    requires
        forall|i: int| 0 <= i < events.len() ==> !greets(#[trigger] events[i]),
    ensures
        ({
            let page = diff_renderer::page_of(events);
            page.lines.map_values(ended()).flatten() + page.pen.text == events.filter(
                writes(),
            ).map_values(written())
        }),
        !diff_renderer::page_of(events).handshake_line,
    decreases events.len(),
{
    reveal(Seq::filter);
    let page = diff_renderer::page_of(events);
    let text = events.filter(writes()).map_values(written());
    if events.len() == 0 {
        assert(page.lines.map_values(ended()) =~= Seq::<Seq<char>>::empty());
        assert(text =~= Seq::<char>::empty());
    } else {
        let front = events.drop_last();
        let before = diff_renderer::page_of(front);
        let event = events.last();
        assert(events[events.len() - 1] == event);
        assert forall|i: int| 0 <= i < front.len() implies !greets(#[trigger] front[i]) by {
            assert(front[i] == events[i]);
        }
        text_is_kept(front);
        let above = before.lines.map_values(ended());
        if writes()(event) {
            assert(text =~= front.filter(writes()).map_values(written()).push(written()(event)));
        } else {
            assert(text =~= front.filter(writes()).map_values(written()));
        }
        if event == Event::Execute(10) {
            let line = before.pen.text.push('\n');
            assert(page.lines.map_values(ended()) =~= above.push(line));
            above.lemma_flatten_push(line);
            assert(above.flatten() + line =~= (above.flatten() + before.pen.text).push('\n'));
            assert(page.pen.text =~= Seq::<char>::empty());
            assert(above.push(line).flatten() + page.pen.text =~= text);
        } else {
            assert(page.lines == before.lines);
            if writes()(event) {
                assert(above.flatten() + page.pen.text =~= text);
            }
        }
    }
}

/// Lines are never changed once they are ended.
pub proof fn ended_lines_stay(page: Page, event: Event)
    ensures
        page.lines.is_prefix_of(page.after(event).lines),
        event != Event::Execute(10) ==> page.after(event).lines == page.lines,
        page.lines.is_prefix_of(page.finished().lines),
{
}

/// A newline ends a line with all that was noted on it, and the next starts with nothing
/// on it, in the same style. A line with nothing but the greeting is none.
pub proof fn newlines_end_lines(page: Page)
    ensures
        ({
            let next = page.after(Event::Execute(10));
            let empty = page.pen.text.len() == 0 && page.records.len() == 0;
            &&& page.handshake_line && empty ==> next.lines == page.lines
            &&& !(page.handshake_line && empty) ==> {
                &&& next.lines.len() == page.lines.len() + 1
                &&& next.lines.last().text == page.pen.text
                &&& next.lines.last().records == page.records
                &&& page.hyperlinks.is_prefix_of(next.lines.last().hyperlinks)
            }
            &&& next.pen.text.len() == 0
            &&& next.pen.runs.len() == 0
            &&& next.pen.open is None
            &&& next.pen.style == page.pen.style
            &&& next.records.len() == 0
            &&& next.hyperlinks.len() == 0
            &&& !next.handshake_line
            &&& next.protocol_version == page.protocol_version
        }),
        page.finished() == (if page.pen.text.len() > 0 || page.pen.open is Some || page.records.len()
            > 0 {
            page.after(Event::Execute(10))
        } else {
            page
        }),
{
}

// ---------------------------------------------------------------------------
// Styles
// ---------------------------------------------------------------------------

/// A style is changed by asking for another and lasts until then, over lines and links.
pub proof fn styles_last(page: Page, event: Event)
    ensures
        page.after(event).pen.style == (match event {
            Event::Csi(params, action) => if action == 'm' as u8 {
                sgr::sgr(page.pen.style, params)
            } else {
                page.pen.style
            },
            _ => page.pen.style,
        }),
{
}

/// Whether what is drawn of a line is in order: its runs cover what was written before
/// the one that is open.
pub open spec fn in_order(drawn: Drawn) -> bool {
    &&& text::byte_len(drawn.text) <= usize::MAX
    &&& match drawn.open {
        Some((start, _)) => spans::tiles(drawn.runs, 0, start as int) && start < text::byte_len(
            drawn.text,
        ),
        None => spans::tiles(drawn.runs, 0, text::byte_len(drawn.text) as int),
    }
}

/// A character is drawn in the style that was asked for last, and what was drawn before
/// stays as it is.
pub proof fn characters_keep_their_style(drawn: Drawn, c: char)
    requires
        in_order(drawn),
        text::byte_len(drawn.text.push(c)) <= usize::MAX,
    ensures
        ({
            let next = drawn.printed(c).lifted();
            let before = drawn.lifted();
            let end = text::byte_len(drawn.text) as int;
            &&& in_order(drawn.printed(c))
            &&& next.text == drawn.text.push(c)
            &&& spans::tiles(next.runs, 0, text::byte_len(next.text) as int)
            &&& forall|k: int, p: int|
                0 <= k < next.runs.len() && #[trigger] spans::holds(next.runs[k], p) && end <= p
                    ==> next.runs[k].1 == drawn.style
            &&& forall|k: int, j: int, p: int|
                0 <= k < next.runs.len() && 0 <= j < before.runs.len() && p < end
                    && #[trigger] spans::holds(next.runs[k], p) && #[trigger] spans::holds(
                    before.runs[j],
                    p,
                ) ==> next.runs[k].1 == before.runs[j].1
        }),
{
    text::lemma_byte_len_push(drawn.text, c);
    text::lemma_width(c);
    let next = drawn.printed(c).lifted();
    let before = drawn.lifted();
    let end = text::byte_len(drawn.text) as int;
    let n = next.runs.len() - 1;
    lemma_extended(drawn.runs, drawn, c);
    assert forall|k: int, j: int, p: int|
        0 <= k < next.runs.len() && 0 <= j < before.runs.len() && p < end && #[trigger] spans::holds(
            next.runs[k],
            p,
        ) && #[trigger] spans::holds(before.runs[j], p) implies next.runs[k].1
        == before.runs[j].1 by {
        if k < drawn.runs.len() && j < drawn.runs.len() {
            assert(next.runs[k] == drawn.runs[k] && before.runs[j] == drawn.runs[j]);
            if k < j {
                assert(drawn.runs[k].0.end <= drawn.runs[j].0.start);
            } else if j < k {
                assert(drawn.runs[j].0.end <= drawn.runs[k].0.start);
            }
        } else if k < drawn.runs.len() {
            spans::lemma_tiles_within(drawn.runs, 0, drawn.open.unwrap().0 as int, k);
        } else if j < drawn.runs.len() {
            if drawn.open is Some {
                spans::lemma_tiles_within(drawn.runs, 0, drawn.open.unwrap().0 as int, j);
            } else {
                spans::lemma_tiles_within(drawn.runs, 0, end, j);
            }
        }
    }
    assert forall|k: int, p: int|
        0 <= k < next.runs.len() && #[trigger] spans::holds(next.runs[k], p) && end
            <= p implies next.runs[k].1 == drawn.style by {
        if k < drawn.runs.len() {
            assert(next.runs[k] == drawn.runs[k]);
            if drawn.open is Some {
                spans::lemma_tiles_within(drawn.runs, 0, drawn.open.unwrap().0 as int, k);
            } else {
                spans::lemma_tiles_within(drawn.runs, 0, end, k);
            }
        }
    }
}

proof fn lemma_extended(runs: Seq<spans::Span>, drawn: Drawn, c: char)
    requires
        runs == drawn.runs,
        in_order(drawn),
        text::byte_len(drawn.text.push(c)) <= usize::MAX,
    ensures
        in_order(drawn.printed(c)),
        spans::tiles(
            drawn.printed(c).lifted().runs,
            0,
            text::byte_len(drawn.text.push(c)) as int,
        ),
{
    text::lemma_byte_len_push(drawn.text, c);
    text::lemma_width(c);
    let end = text::byte_len(drawn.text) as int;
    let last = text::byte_len(drawn.text.push(c)) as int;
    match drawn.open {
        Some((start, style)) => {
            if style == drawn.style {
                lemma_tiles_push(runs, start as int, (Range { start, end: last as usize }, style));
            } else {
                let run = (Range { start, end: end as usize }, style);
                lemma_tiles_push(runs, start as int, run);
                lemma_tiles_push(
                    runs.push(run),
                    end,
                    (Range { start: end as usize, end: last as usize }, drawn.style),
                );
            }
        },
        None => {
            lemma_tiles_push(
                runs,
                end,
                (Range { start: end as usize, end: last as usize }, drawn.style),
            );
        },
    }
}

proof fn lemma_tiles_push(runs: Seq<spans::Span>, mid: int, run: spans::Span)
    requires
        spans::tiles(runs, 0, mid),
        run.0.start == mid,
        mid < run.0.end,
    ensures
        spans::tiles(runs.push(run), 0, run.0.end as int),
{
    let all = runs.push(run);
    assert forall|i: int, j: int| 0 <= i < j < all.len() implies (#[trigger] all[i]).0.end <= (
    #[trigger] all[j]).0.start by {
        spans::lemma_tiles_within(runs, 0, mid, i);
    }
}

// ---------------------------------------------------------------------------
// Records
// ---------------------------------------------------------------------------

/// The character a record tells the type of a line with.
pub open spec fn code_of(kind: LineKind) -> char {
    match kind {
        LineKind::Context => 'c',
        LineKind::Added => 'a',
        LineKind::Deleted => 'd',
        LineKind::HunkHeader => 'h',
        LineKind::FileHeader => 'f',
        LineKind::Commit => 'C',
    }
}

/// A record as a renderer writes it.
pub open spec fn record(id: Identity, version: u32, name: Seq<u8>) -> Event {
    Event::Osc(
        seq![
            seq![0x31u8, 0x37, 0x31, 0x37],
            terminal::spelled(version as nat),
            seq![code_of(id.kind) as u8],
            terminal::spelled(id.new_line as nat),
            match id.old_line {
                Some(n) => terminal::spelled(n as nat),
                None => seq![],
            },
            name,
        ],
    )
}

/// A record that a renderer writes about a row is read as what it says, and goes with
/// the row it is written on.
pub proof fn records_read_back(page: Page, id: Identity, version: u32, name: Seq<u8>)
    requires
        text::utf8_lossy(name) == id.file,
    ensures
        ({
            let next = page.after(record(id, version, name));
            &&& next.records == page.records.push(id)
            &&& next.protocol_version == (if page.protocol_version is Some {
                page.protocol_version
            } else {
                Some(version)
            })
            &&& next.lines == page.lines
            &&& next.pen == page.pen
            &&& next.hyperlink == page.hyperlink
            &&& next.hyperlinks == page.hyperlinks
            &&& next.handshake_line == page.handshake_line
        }),
{
    let fields = record(id, version, name)->Osc_0;
    terminal::numbers_read_back(version, seq![]);
    terminal::numbers_read_back(id.new_line, seq![]);
    if let Some(n) = id.old_line {
        terminal::numbers_read_back(n, seq![]);
    }
    assert(fields.skip(5) =~= seq![name]);
    assert(fields[0] == seq![0x31u8, 0x37, 0x31, 0x37]);
    assert(fields[0].len() == 4);
    assert(fields.len() == 6);
    assert(fields[2] == seq![code_of(id.kind) as u8]);
    assert(diff_renderer::kind_of(fields[2]) == Some(id.kind));
}

/// A greeting says which version is spoken and marks its line.
pub proof fn greetings_are_heard(page: Page, version: u32)
    ensures
        page.after(
            Event::Osc(
                seq![seq![0x31u8, 0x37, 0x31, 0x37], terminal::spelled(version as nat)],
            ),
        ) == (Page { protocol_version: Some(version), handshake_line: true, ..page }),
{
    let fields = seq![seq![0x31u8, 0x37, 0x31, 0x37], terminal::spelled(version as nat)];
    terminal::numbers_read_back(version, seq![]);
    assert(fields[0].len() == 4);
    assert(fields[0] == seq![0x31u8, 0x37, 0x31, 0x37]);
    assert(fields.len() == 2);
}

// ---------------------------------------------------------------------------
// Links
// ---------------------------------------------------------------------------

/// A link as it is written; one that leads nowhere ends the one before.
pub open spec fn link_to(params: Seq<u8>, target: Seq<u8>) -> Event {
    Event::Osc(seq![seq!['8' as u8], params, target])
}

/// A page with some text written.
pub open spec fn with_text(page: Page, s: Seq<char>) -> Page
    decreases s.len(),
{
    if s.len() == 0 {
        page
    } else {
        with_text(page, s.drop_last()).after(Event::Print(s.last()))
    }
}

proof fn lemma_with_text(page: Page, s: Seq<char>)
    ensures
        ({
            let next = with_text(page, s);
            &&& next.pen.text == page.pen.text + s
            &&& next.hyperlink == page.hyperlink
            &&& next.hyperlinks == page.hyperlinks
            &&& next.lines == page.lines
            &&& next.records == page.records
        }),
    decreases s.len(),
{
    if s.len() == 0 {
        assert(page.pen.text + s =~= page.pen.text);
    } else {
        lemma_with_text(page, s.drop_last());
        assert((page.pen.text + s.drop_last()).push(s.last()) =~= page.pen.text + s);
    }
}

/// Text between a link and the end of it leads where the link does: the link is noted
/// on exactly that text.
pub proof fn links_lie_on_their_text(
    page: Page,
    params: Seq<u8>,
    other: Seq<u8>,
    target: Seq<u8>,
    nowhere: Seq<u8>,
    s: Seq<char>,
)
    requires
        page.hyperlink is None,
        text::utf8_lossy(target).len() > 0,
        text::utf8_lossy(nowhere).len() == 0,
        s.len() > 0,
        text::byte_len(page.pen.text + s) <= usize::MAX,
    ensures
        ({
            let next = with_text(page.after(link_to(params, target)), s).after(
                link_to(other, nowhere),
            );
            &&& next.hyperlink is None
            &&& next.hyperlinks.len() == page.hyperlinks.len() + 1
            &&& page.hyperlinks.is_prefix_of(next.hyperlinks)
            &&& next.hyperlinks.last().range.start == text::byte_len(page.pen.text)
            &&& next.hyperlinks.last().range.end == text::byte_len(page.pen.text + s)
            &&& next.hyperlinks.last().uri == text::utf8_lossy(target)
            &&& next.pen.text == page.pen.text + s
            &&& next.lines == page.lines
        }),
{
    let first = link_to(params, target)->Osc_0;
    let second = link_to(other, nowhere)->Osc_0;
    assert(first.skip(2) =~= seq![target]);
    assert(second.skip(2) =~= seq![nowhere]);
    assert(first[0] == seq!['8' as u8] && second[0] == seq!['8' as u8]);
    let begun = page.after(link_to(params, target));
    lemma_with_text(begun, s);
    text::lemma_byte_len_concat(page.pen.text, s);
    text::lemma_byte_len_at_least(s);
}

/// A link that is open where a line ends is noted up to there, and goes on at the start
/// of the next line.
pub proof fn links_go_on(page: Page, start: usize, uri: Seq<char>)
    requires
        page.hyperlink == Some((start, uri)),
        page.pen.text.len() > 0,
        text::byte_len(page.pen.text) <= usize::MAX,
    ensures
        ({
            let next = page.after(Event::Execute(10));
            &&& next.hyperlink == Some((0usize, uri))
            &&& next.lines.last().hyperlinks == (if start < text::byte_len(page.pen.text) {
                page.hyperlinks.push(
                    Link {
                        range: Range { start, end: text::byte_len(page.pen.text) as usize },
                        uri,
                    },
                )
            } else {
                page.hyperlinks
            })
        }),
{
}

// ---------------------------------------------------------------------------
// Commits
// ---------------------------------------------------------------------------

/// Whether a row names a commit: it is in the first record of a commit on it.
#[verifier::opaque]
pub open spec fn names(records: Seq<Identity>, commit: Seq<char>) -> bool {
    exists|k: int|
        {
            &&& 0 <= k < records.len()
            &&& (#[trigger] records[k]).kind == LineKind::Commit
            &&& records[k].file == commit
            &&& forall|j: int| 0 <= j < k ==> (#[trigger] records[j]).kind != LineKind::Commit
        }
}

/// Whether a row names no commit.
#[verifier::opaque]
pub open spec fn names_none(records: Seq<Identity>) -> bool {
    forall|j: int| 0 <= j < records.len() ==> (#[trigger] records[j]).kind != LineKind::Commit
}

proof fn lemma_named(records: Seq<Identity>)
    ensures
        match diff_renderer::commit_named(records) {
            Some(commit) => names(records, commit) && !names_none(records),
            None => names_none(records),
        },
    decreases records.len(),
{
    reveal(names);
    reveal(names_none);
    if records.len() > 0 && records[0].kind == LineKind::Commit {
        assert(names(records, records[0].file));
    }
    if records.len() > 0 && records[0].kind != LineKind::Commit {
        let rest = records.drop_first();
        lemma_named(rest);
        match diff_renderer::commit_named(records) {
            Some(commit) => {
                let k = choose|k: int|
                    {
                        &&& 0 <= k < rest.len()
                        &&& (#[trigger] rest[k]).kind == LineKind::Commit
                        &&& rest[k].file == commit
                        &&& forall|j: int|
                            0 <= j < k ==> (#[trigger] rest[j]).kind != LineKind::Commit
                    };
                assert(records[k + 1] == rest[k]);
                assert forall|j: int| 0 <= j < k + 1 implies (#[trigger] records[j]).kind
                    != LineKind::Commit by {
                    if j > 0 {
                        assert(records[j] == rest[j - 1]);
                    }
                }
            },
            None => {
                assert forall|j: int| 0 <= j < records.len() implies (#[trigger] records[j]).kind
                    != LineKind::Commit by {
                    if j > 0 {
                        assert(records[j] == rest[j - 1]);
                    }
                }
            },
        }
    }
}

/// A row that names a commit doesn't name none.
pub proof fn naming_one_is_not_naming_none(records: Seq<Identity>, commit: Seq<char>)
    requires
        names(records, commit),
    ensures
        !names_none(records),
{
    lemma_one_name(records);
}

/// Whether two ids are of one commit, either of them perhaps abbreviated.
pub open spec fn abbreviates(one: Seq<char>, other: Seq<char>) -> bool {
    &&& one.len() > 0
    &&& forall|i: int| 0 <= i < one.len() && i < other.len() ==> #[trigger] one[i] == other[i]
}

/// Rows follow the commit that was named last: a block of rows starts with the row that
/// names its commit, and no row of it names another.
pub proof fn rows_follow_their_commit(rows: Seq<Row>, n: int, r: int, other: Seq<char>)
    requires
        0 <= n < diff_renderer::block_starts(rows).len(),
        diff_renderer::block_starts(rows)[n].0 <= r < diff_renderer::block_end(rows, n),
    ensures
        0 <= diff_renderer::block_starts(rows)[n].0 < rows.len(),
        match diff_renderer::block_starts(rows)[n].1 {
            Some(commit) => {
                &&& names(rows[diff_renderer::block_starts(rows)[n].0].records, commit)
                &&& names(rows[r].records, other) ==> other == commit || abbreviates(commit, other)
            },
            None => names_none(rows[r].records) && n == 0,
        },
    decreases rows.len(),
{
    lemma_block(rows, n);
    let front = rows.drop_last();
    let last = rows.len() - 1;
    let starts = diff_renderer::block_starts(rows);
    let before = diff_renderer::block_starts(front);
    assert(rows.last() == rows[last]);
    lemma_named(rows[last].records);
    lemma_one_name(rows[last].records);
    if n < before.len() {
        assert(starts[n] == before[n]);
        lemma_block(front, n);
        let at = if r < last {
            r
        } else {
            before[n].0
        };
        rows_follow_their_commit(front, n, at, other);
        assert(front[at] == rows[at]);
        assert(front[before[n].0] == rows[before[n].0]);
        if r == last {
            assert(n == before.len() - 1);
            if let Some(commit) = diff_renderer::commit_named(rows[last].records) {
                if before[n].1 is Some {
                    abbreviations_are_recognised(before[n].1->0, commit);
                }
            }
        }
    }
}

proof fn lemma_block(rows: Seq<Row>, n: int)
    requires
        0 <= n < diff_renderer::block_starts(rows).len(),
    ensures
        0 <= diff_renderer::block_starts(rows)[n].0 < diff_renderer::block_end(rows, n) <= rows.len(),
        n > 0 ==> diff_renderer::block_starts(rows)[n].1 is Some,
{
    diff_renderer::blocks_in_order(rows);
}

proof fn lemma_one_name(records: Seq<Identity>)
    ensures
        forall|a: Seq<char>, b: Seq<char>| #[trigger]
            names(records, a) && #[trigger] names(records, b) ==> a == b,
        forall|a: Seq<char>| #[trigger] names(records, a) ==> !names_none(records),
{
    reveal(names);
    reveal(names_none);
    assert forall|a: Seq<char>, b: Seq<char>| #[trigger]
        names(records, a) && #[trigger] names(records, b) implies a == b by {
        let k = choose|k: int|
            {
                &&& 0 <= k < records.len()
                &&& (#[trigger] records[k]).kind == LineKind::Commit
                &&& records[k].file == a
                &&& forall|j: int| 0 <= j < k ==> (#[trigger] records[j]).kind != LineKind::Commit
            };
        let l = choose|l: int|
            {
                &&& 0 <= l < records.len()
                &&& (#[trigger] records[l]).kind == LineKind::Commit
                &&& records[l].file == b
                &&& forall|j: int| 0 <= j < l ==> (#[trigger] records[j]).kind != LineKind::Commit
            };
        assert(k == l);
    }
}

/// Ids are of one commit where one is an abbreviation of the other, and what names
/// nothing abbreviates nothing.
pub proof fn abbreviations_are_recognised(one: Seq<char>, other: Seq<char>)
    ensures
        diff_renderer::same_commit(one, other) <==> abbreviates(one, other),
{
    if abbreviates(one, other) {
        if one.len() <= other.len() {
            assert(one =~= other.subrange(0, one.len() as int));
        } else {
            assert(other =~= one.subrange(0, other.len() as int));
        }
    }
}

// ---------------------------------------------------------------------------
// Text without its escapes
// ---------------------------------------------------------------------------

/// The text of some rows is that of each, with a newline after it.
pub proof fn rows_are_read_one_by_one(rows: Seq<Row>)
    ensures
        diff_renderer::plain_text(rows) == rows.map_values(ended()).flatten(),
    decreases rows.len(),
{
    let parts = rows.map_values(ended());
    if rows.len() == 0 {
        assert(parts =~= Seq::<Seq<char>>::empty());
    } else {
        rows_are_read_one_by_one(rows.drop_last());
        let front = rows.drop_last().map_values(ended());
        let last = rows.last().text.push('\n');
        assert(parts =~= front.push(last));
        front.lemma_flatten_push(last);
        assert(front.flatten() + last =~= (front.flatten() + rows.last().text).push('\n'));
    }
}

/// A link that begins where another is open ends that one there: it is noted on the text
/// since it began, if there is any.
pub proof fn links_end_where_others_begin(
    page: Page,
    start: usize,
    uri: Seq<char>,
    params: Seq<u8>,
    target: Seq<u8>,
)
    requires
        page.hyperlink == Some((start, uri)),
        text::byte_len(page.pen.text) <= usize::MAX,
    ensures
        ({
            let next = page.after(link_to(params, target));
            let end = text::byte_len(page.pen.text);
            &&& start < end ==> next.hyperlinks == page.hyperlinks.push(
                Link { range: Range { start, end: end as usize }, uri },
            )
            &&& start >= end ==> next.hyperlinks == page.hyperlinks
            &&& text::utf8_lossy(target).len() > 0 ==> next.hyperlink == Some(
                (end as usize, text::utf8_lossy(target)),
            )
            &&& text::utf8_lossy(target).len() == 0 ==> next.hyperlink is None
            &&& next.pen.text == page.pen.text
            &&& next.records == page.records
            &&& next.lines == page.lines
        }),
{
    let fields = link_to(params, target)->Osc_0;
    assert(fields.skip(2) =~= seq![target]);
    assert(fields[0] == seq!['8' as u8]);
}

/// A record of a type of line that isn't known says nothing about a row.
pub proof fn unknown_records_say_nothing(page: Page, fields: Seq<Seq<u8>>)
    requires
        fields.len() >= 6,
        fields[0] == seq![0x31u8, 0x37, 0x31, 0x37],
        fields[2].len() != 1 || (fields[2][0] != 'c' as u8 && fields[2][0] != 'a' as u8
            && fields[2][0] != 'd' as u8 && fields[2][0] != 'h' as u8 && fields[2][0] != 'f' as u8
            && fields[2][0] != 'C' as u8),
    ensures
        page.after(Event::Osc(fields)).records == page.records,
        page.after(Event::Osc(fields)).lines == page.lines,
        page.after(Event::Osc(fields)).pen == page.pen,
{
    assert(fields[0].len() == 4);
}

/// A command that is none of those that are known does nothing.
pub proof fn unknown_commands_do_nothing(page: Page, fields: Seq<Seq<u8>>)
    requires
        fields.len() == 0 || (fields[0] != seq![0x31u8, 0x37, 0x31, 0x37] && fields[0]
            != seq!['8' as u8]),
    ensures
        page.after(Event::Osc(fields)) == page,
{
    if fields.len() > 0 && osc::is_code(fields[0], 0x38) {
        assert(fields[0] =~= seq!['8' as u8]);
    }
}

} // verus!
