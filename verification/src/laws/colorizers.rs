//! What is read of a colorizer's output.

use crate::ansi::Event;
use crate::diff_colorizer;
use crate::diff_colorizer::{Identity, LineKind, Page, Row};
use crate::laws::pages;
use crate::laws::terminal;
use crate::sgr;
use crate::text;
use vstd::prelude::*;

verus! {

/// The text of some rows, each with a newline after it.
pub open spec fn ended() -> spec_fn(Row) -> Seq<char> {
    |row: Row| row.text.push('\n')
}

/// Whatever it looks like, all text that was written is kept, in the order in which it
/// was written, and a line ends where a newline was.
pub proof fn text_is_kept(events: Seq<Event>)
    requires
        forall|i: int| 0 <= i < events.len() ==> !pages::greets(#[trigger] events[i]),
    ensures
        ({
            let page = diff_colorizer::page_of(events);
            page.lines.map_values(ended()).flatten() + page.pen.text == events.filter(
                pages::writes(),
            ).map_values(pages::written())
        }),
        !diff_colorizer::page_of(events).handshake_line,
    decreases events.len(),
{
    reveal(Seq::filter);
    let page = diff_colorizer::page_of(events);
    let text = events.filter(pages::writes()).map_values(pages::written());
    if events.len() == 0 {
        assert(page.lines.map_values(ended()) =~= Seq::<Seq<char>>::empty());
        assert(text =~= Seq::<char>::empty());
    } else {
        let front = events.drop_last();
        let before = diff_colorizer::page_of(front);
        let event = events.last();
        assert(events[events.len() - 1] == event);
        assert forall|i: int| 0 <= i < front.len() implies !pages::greets(#[trigger] front[i]) by {
            assert(front[i] == events[i]);
        }
        text_is_kept(front);
        let above = before.lines.map_values(ended());
        let shown = front.filter(pages::writes()).map_values(pages::written());
        if pages::writes()(event) {
            assert(text =~= shown.push(pages::written()(event)));
        } else {
            assert(text =~= shown);
        }
        if event == Event::Execute(10) {
            let line = before.pen.text.push('\n');
            assert(page.lines.map_values(ended()) =~= above.push(line));
            above.lemma_flatten_push(line);
            assert(above.flatten() + line =~= (above.flatten() + before.pen.text).push('\n'));
            assert(page.pen.text =~= Seq::<char>::empty());
            assert(above.push(line).flatten() + page.pen.text =~= text);
        } else {
            assert(page.lines == before.lines);
            if pages::writes()(event) {
                assert(above.flatten() + page.pen.text =~= text);
            }
        }
    }
}

/// A newline ends a line with all that was noted on it, and the next starts with nothing
/// on it, in the same style. A line with nothing but the greeting is none. Lines never
/// change once they are ended.
pub proof fn newlines_end_lines(page: Page, event: Event)
    ensures
        ({
            let next = page.after(Event::Execute(10));
            let dropped = page.handshake_line && page.pen.text.len() == 0;
            &&& dropped ==> next.lines == page.lines
            &&& !dropped ==> {
                &&& next.lines.len() == page.lines.len() + 1
                &&& next.lines.last().text == page.pen.text
                &&& next.lines.last().runs == page.pen.lifted().runs
                &&& next.lines.last().metadata == page.metadata
            }
            &&& next.pen.text.len() == 0
            &&& next.pen.runs.len() == 0
            &&& next.pen.open is None
            &&& next.pen.style == page.pen.style
            &&& next.metadata is None
            &&& !next.handshake_line
            &&& next.protocol_version == page.protocol_version
        }),
        page.lines.is_prefix_of(page.after(event).lines),
        event != Event::Execute(10) ==> page.after(event).lines == page.lines,
        page.finished() == (if page.pen.text.len() > 0 || page.pen.open is Some
            || page.metadata is Some {
            page.after(Event::Execute(10))
        } else {
            page
        }),
{
}

/// A style is changed by asking for another and lasts until then.
pub proof fn styles_last(page: Page, event: Event)
    ensures
        page.after(event).pen.style == (match event {
            Event::Csi(params, action) => if action == 'm' as u8 {
                sgr::sgr(page.pen.style, params)
            } else {
                page.pen.style
            },
            _ => page.pen.style,
        }),
{
}

/// A record as a colorizer writes it.
pub open spec fn record(id: Identity, version: u32, name: Seq<u8>) -> Event {
    Event::Osc(
        seq![
            seq![0x31u8, 0x37, 0x31, 0x37],
            terminal::spelled(version as nat),
            seq![
                (match id.kind {
                    LineKind::Context => 'c',
                    LineKind::Added => 'a',
                    LineKind::Deleted => 'd',
                }) as u8,
            ],
            terminal::spelled(id.new_line as nat),
            match id.old_line {
                Some(n) => terminal::spelled(n as nat),
                None => seq![],
            },
            name,
        ],
    )
}

/// The first record that a colorizer writes about a line is read as what it says, and
/// goes with the line; any other about the same line is passed over.
pub proof fn the_first_record_is_read(page: Page, id: Identity, version: u32, name: Seq<u8>)
    requires
        text::utf8_lossy(name) == id.file,
    ensures
        ({
            let next = page.after(record(id, version, name));
            &&& page.metadata is None ==> next.metadata == Some(id)
            &&& page.metadata is Some ==> next.metadata == page.metadata
            &&& next.protocol_version == (if page.protocol_version is Some {
                page.protocol_version
            } else {
                Some(version)
            })
            &&& next.lines == page.lines
            &&& next.pen == page.pen
            &&& next.handshake_line == page.handshake_line
        }),
{
    let fields = record(id, version, name)->Osc_0;
    terminal::numbers_read_back(version, seq![]);
    terminal::numbers_read_back(id.new_line, seq![]);
    if let Some(n) = id.old_line {
        terminal::numbers_read_back(n, seq![]);
    }
    assert(fields.skip(5) =~= seq![name]);
    assert(fields[0] == seq![0x31u8, 0x37, 0x31, 0x37]);
    assert(fields.len() == 6);
    assert(diff_colorizer::kind_of(fields[2]) == Some(id.kind));
}

/// A greeting says which version is spoken and marks its line.
pub proof fn greetings_are_heard(page: Page, version: u32)
    ensures
        page.after(
            Event::Osc(
                seq![seq![0x31u8, 0x37, 0x31, 0x37], terminal::spelled(version as nat)],
            ),
        ) == (Page { protocol_version: Some(version), handshake_line: true, ..page }),
{
    let fields = seq![seq![0x31u8, 0x37, 0x31, 0x37], terminal::spelled(version as nat)];
    terminal::numbers_read_back(version, seq![]);
    assert(fields[0] == seq![0x31u8, 0x37, 0x31, 0x37]);
    assert(fields.len() == 2);
}

} // verus!
