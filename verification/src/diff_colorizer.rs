//! The output of a diff colorizer (e.g. `delta --color-only`), a command that is
//! fed a unified diff and emits it in colour.
//!
//! A `--color-only` colorizer preserves line structure 1:1, and
//! [`crate::highlight`] maps its runs onto hunk content lines by position. One
//! that speaks the OSC-1717 diff-line-metadata protocol may restructure the diff
//! freely, and annotates each line with its identity in the patch.

use crate::ansi;
use crate::ansi::{AnsiEvent, Drawn, Event, Pen};
use crate::diff_renderer;
use crate::osc;
use crate::sgr;
use crate::spans::Span;
use crate::text;
use vstd::prelude::*;

verus! {

/// Which side of the diff a rendered content line represents.
#[derive(Debug, Clone, Copy, PartialEq, Eq, Structural)]
pub enum LineKind {
    Context,
    Added,
    Deleted,
}

/// The patch-space identity of a rendered line, recovered from its OSC-1717
/// record. `old_line` is present only for deletions.
#[derive(Debug, PartialEq, Eq)]
pub struct LineMetadata {
    pub kind: LineKind,
    pub new_line: u32,
    pub old_line: Option<u32>,
    pub file: String,
}

/// A single line of colorizer output: its plain text (escapes stripped, newline
/// excluded), the contiguous `(byte-range, style)` runs that tile it, and its
/// identity if the colorizer stated one for it.
#[derive(Debug, PartialEq)]
pub struct ParsedLine {
    pub text: String,
    pub runs: Vec<Span>,
    pub metadata: Option<LineMetadata>,
}

/// The result of parsing a colorizer's output.
#[derive(Debug)]
pub struct ParsedOutput {
    pub lines: Vec<ParsedLine>,
    /// The OSC-1717 protocol version the colorizer stated, if it spoke the
    /// protocol at all.
    pub protocol_version: Option<u32>,
}

/// The identity of a rendered line.
#[verifier::ext_equal]
pub struct Identity {
    pub kind: LineKind,
    pub new_line: u32,
    pub old_line: Option<u32>,
    pub file: Seq<char>,
}

/// A line of output.
#[verifier::ext_equal]
pub struct Row {
    pub text: Seq<char>,
    pub runs: Seq<Span>,
    pub metadata: Option<Identity>,
}

impl View for LineMetadata {
    type V = Identity;

    open spec fn view(&self) -> Identity {
        Identity {
            kind: self.kind,
            new_line: self.new_line,
            old_line: self.old_line,
            file: self.file@,
        }
    }
}

/// What a line's identity is, if it has one.
pub open spec fn identity_view(metadata: Option<LineMetadata>) -> Option<Identity> {
    match metadata {
        Some(metadata) => Some(metadata@),
        None => None,
    }
}

impl View for ParsedLine {
    type V = Row;

    open spec fn view(&self) -> Row {
        Row { text: self.text@, runs: self.runs@, metadata: identity_view(self.metadata) }
    }
}

/// What some lines are.
pub open spec fn row_views(lines: Seq<ParsedLine>) -> Seq<Row> {
    lines.map_values(|line: ParsedLine| line@)
}

impl ParsedLine {
    /// The runs tile the text, breaking it between characters only.
    pub open spec fn wf(&self) -> bool {
        ansi::tile_text(self.runs@, self.text@, text::byte_len(self.text@) as int)
    }
}

/// The type of line a record's type field stands for.
pub open spec fn kind_of(field: Seq<u8>) -> Option<LineKind> {
    if osc::is_code(field, 0x63) {
        Some(LineKind::Context)
    } else if osc::is_code(field, 0x61) {
        Some(LineKind::Added)
    } else if osc::is_code(field, 0x64) {
        Some(LineKind::Deleted)
    } else {
        None
    }
}

/// Output read up to some point.
#[verifier::ext_equal]
pub struct Page {
    pub lines: Seq<Row>,
    pub pen: Drawn,
    /// The first record seen on the current line.
    pub metadata: Option<Identity>,
    /// Whether the current line carries the handshake.
    pub handshake_line: bool,
    pub protocol_version: Option<u32>,
}

/// Nothing read yet.
pub open spec fn blank_page() -> Page {
    Page {
        lines: seq![],
        pen: ansi::clean(),
        metadata: None,
        handshake_line: false,
        protocol_version: None,
    }
}

impl Page {
    /// With the current line ended. A line that holds the handshake and no text
    /// is dropped.
    pub open spec fn line_ended(self) -> Page {
        let pen = self.pen.lifted();
        let line = Row { text: pen.text, runs: pen.runs, metadata: self.metadata };
        Page {
            lines: if self.handshake_line && pen.text.len() == 0 {
                self.lines
            } else {
                self.lines.push(line)
            },
            pen: Drawn { style: pen.style, ..ansi::clean() },
            metadata: None,
            handshake_line: false,
            protocol_version: self.protocol_version,
        }
    }

    /// With a command obeyed. The first record of a line wins.
    pub open spec fn commanded(self, fields: Seq<Seq<u8>>) -> Page {
        if osc::is_handshake(fields) {
            Page {
                protocol_version: sgr::number(fields[1]),
                handshake_line: true,
                ..self
            }
        } else if osc::is_record(fields) {
            Page {
                protocol_version: if self.protocol_version is Some {
                    self.protocol_version
                } else {
                    sgr::number(fields[1])
                },
                metadata: if self.metadata is None && kind_of(fields[2]) is Some {
                    Some(
                        Identity {
                            kind: kind_of(fields[2])->0,
                            new_line: match sgr::number(fields[3]) {
                                Some(n) => n,
                                None => 0,
                            },
                            old_line: sgr::number(fields[4]),
                            file: osc::rejoined(fields.skip(5)),
                        },
                    )
                } else {
                    self.metadata
                },
                ..self
            }
        } else {
            self
        }
    }

    /// With one event more. Tabs arrive as a control character but are content
    /// in a diff; other control characters are dropped.
    pub open spec fn after(self, event: Event) -> Page {
        match event {
            Event::Print(c) => Page { pen: self.pen.printed(c), ..self },
            Event::Execute(byte) => if byte == 0x0a {
                self.line_ended()
            } else if byte == 0x09 {
                Page { pen: self.pen.printed('\t'), ..self }
            } else {
                self
            },
            Event::Csi(params, action) => if action == 0x6d {
                Page {
                    pen: Drawn { style: sgr::sgr(self.pen.style, params), ..self.pen },
                    ..self
                }
            } else {
                self
            },
            Event::Osc(fields) => self.commanded(fields),
        }
    }

    /// With a last line that has something on it ended, newline or not.
    pub open spec fn finished(self) -> Page {
        if self.pen.text.len() > 0 || self.pen.open is Some || self.metadata is Some {
            self.line_ended()
        } else {
            self
        }
    }
}

/// The page some events make.
pub open spec fn page_of(events: Seq<Event>) -> Page
    decreases events.len(),
{
    if events.len() == 0 {
        blank_page()
    } else {
        page_of(events.drop_last()).after(events.last())
    }
}

struct Performer {
    lines: Vec<ParsedLine>,
    pen: Pen,
    metadata: Option<LineMetadata>,
    handshake_line: bool,
    protocol_version: Option<u32>,
}

impl Performer {
    spec fn page(&self) -> Page {
        Page {
            lines: row_views(self.lines@),
            pen: self.pen@,
            metadata: identity_view(self.metadata),
            handshake_line: self.handshake_line,
            protocol_version: self.protocol_version,
        }
    }

    spec fn wf(&self) -> bool {
        &&& self.pen.wf()
        &&& forall|i: int| 0 <= i < self.lines@.len() ==> #[trigger] self.lines@[i].wf()
    }

    fn new() -> (performer: Performer)
        ensures
            performer.wf(),
            performer.page() == blank_page(),
    {
        let performer = Performer {
            lines: Vec::new(),
            pen: Pen::new(),
            metadata: None,
            handshake_line: false,
            protocol_version: None,
        };
        assert(row_views(performer.lines@) =~= Seq::<Row>::empty());
        performer
    }

    fn end_line(&mut self)
        requires
            old(self).wf(),
        ensures
            final(self).wf(),
            final(self).page() == old(self).page().line_ended(),
    {
        self.pen.lift();
        let handshake_only = self.handshake_line && text::is_empty(self.pen.text.as_str());
        self.handshake_line = false;
        let (text, runs) = self.pen.take_line();
        let line = ParsedLine { text, runs, metadata: self.metadata.take() };
        let ghost before = self.lines@;
        if !handshake_only {
            self.lines.push(line);
            proof {
                assert(row_views(self.lines@) =~= row_views(before).push(line@));
            }
        }
    }

    fn finish(self) -> (output: ParsedOutput)
        requires
            self.wf(),
        ensures
            row_views(output.lines@) == self.page().finished().lines,
            output.protocol_version == self.page().finished().protocol_version,
            forall|i: int| 0 <= i < output.lines@.len() ==> #[trigger] output.lines@[i].wf(),
    {
        let mut performer = self;
        if !text::is_empty(performer.pen.text.as_str()) || performer.pen.open.is_some()
            || performer.metadata.is_some() {
            performer.end_line();
        }
        ParsedOutput { lines: performer.lines, protocol_version: performer.protocol_version }
    }

    fn execute(&mut self, byte: u8)
        requires
            old(self).wf(),
        ensures
            final(self).wf(),
            final(self).page() == old(self).page().after(Event::Execute(byte)),
    {
        if byte == 0x0a {
            self.end_line();
        } else if byte == 0x09 {
            self.pen.print('\t');
        }
    }

    fn osc_dispatch(&mut self, params: &Vec<Vec<u8>>)
        requires
            old(self).wf(),
        ensures
            final(self).wf(),
            final(self).page() == old(self).page().commanded(ansi::field_views(params@)),
    {
        let ghost fields = ansi::field_views(params@);
        if params.len() == 0 || !osc::names_metadata(&params[0]) {
            return;
        }
        if params.len() == 2 {
            self.protocol_version = sgr::parse_u32(params[1].as_slice());
            self.handshake_line = true;
        } else if params.len() >= 6 {
            if self.protocol_version.is_none() {
                self.protocol_version = sgr::parse_u32(params[1].as_slice());
            }
            if self.metadata.is_none() {
                if let Some(kind) = line_kind(&params[2]) {
                    let new_line = match sgr::parse_u32(params[3].as_slice()) {
                        Some(n) => n,
                        None => 0,
                    };
                    self.metadata = Some(
                        LineMetadata {
                            kind,
                            new_line,
                            old_line: sgr::parse_u32(params[4].as_slice()),
                            file: osc::rejoin(params, 5),
                        },
                    );
                }
            }
        }
    }

    fn perform(&mut self, event: &AnsiEvent)
        requires
            old(self).wf(),
        ensures
            final(self).wf(),
            final(self).page() == old(self).page().after(event@),
    {
        match event {
            AnsiEvent::Print(c) => self.pen.print(*c),
            AnsiEvent::Execute(byte) => self.execute(*byte),
            AnsiEvent::Csi(params, action) => {
                if *action == 0x6d {
                    self.pen.set_style(params.as_slice());
                }
            },
            AnsiEvent::Osc(fields) => self.osc_dispatch(fields),
        }
    }
}

fn line_kind(field: &Vec<u8>) -> (kind: Option<LineKind>)
    ensures
        kind == kind_of(field@),
{
    if osc::field_is(field, 0x63) {
        Some(LineKind::Context)
    } else if osc::field_is(field, 0x61) {
        Some(LineKind::Added)
    } else if osc::field_is(field, 0x64) {
        Some(LineKind::Deleted)
    } else {
        // Unknown type: treat the row as non-actionable.
        None
    }
}

/// Draw terminal events as per-line styled runs, keeping any line metadata the
/// colorizer emitted.
pub fn parse_events(events: &Vec<AnsiEvent>) -> (output: ParsedOutput)
    ensures
        row_views(output.lines@) == page_of(ansi::event_views(events@)).finished().lines,
        output.protocol_version == page_of(
            ansi::event_views(events@),
        ).finished().protocol_version,
        forall|i: int| 0 <= i < output.lines@.len() ==> #[trigger] output.lines@[i].wf(),
{
    let mut performer = Performer::new();
    let ghost all = ansi::event_views(events@);
    let mut i: usize = 0;
    proof {
        assert(all.take(0) =~= Seq::<Event>::empty());
    }
    while i < events.len()
        invariant
            i <= events@.len(),
            all == ansi::event_views(events@),
            performer.wf(),
            performer.page() == page_of(all.take(i as int)),
        decreases events@.len() - i,
    {
        proof {
            assert(all.take(i + 1).drop_last() =~= all.take(i as int));
            assert(all.take(i + 1).last() == events@[i as int]@);
        }
        performer.perform(&events[i]);
        i += 1;
    }
    proof {
        assert(all.take(all.len() as int) =~= all);
    }
    performer.finish()
}

/// Whether there is only text on a page: tabs and what can be drawn.
pub open spec fn lines_hold_text(page: Page) -> bool {
    &&& diff_renderer::line_text(page.pen.text)
    &&& forall|i: int| 0 <= i < page.lines.len() ==> diff_renderer::line_text((#[trigger] page.lines[i]).text)
}

/// Whatever a terminal is told, what is drawn on a line is text: no newline, carriage
/// return or escape is left in it.
pub proof fn drawn_lines_hold_text(events: Seq<Event>)
    requires
        ansi::draws_text(events),
    ensures
        lines_hold_text(page_of(events)),
        lines_hold_text(page_of(events).finished()),
    decreases events.len(),
{
    if events.len() > 0 {
        let front = events.drop_last();
        assert forall|i: int| 0 <= i < front.len() implies ((
        #[trigger] front[i]) matches Event::Print(c) ==> ansi::drawable(c)) by {
            assert(front[i] == events[i]);
        }
        drawn_lines_hold_text(front);
        assert(events[events.len() - 1] == events.last());
    }
}

/// Parse coloured text into per-line styled runs, keeping any line metadata the
/// colorizer emitted.
pub fn parse_ansi_lines(output: &str) -> (parsed: ParsedOutput)
    ensures
        row_views(parsed.lines@) == page_of(ansi::events_of(output@)).finished().lines,
        parsed.protocol_version == page_of(ansi::events_of(output@)).finished().protocol_version,
        forall|i: int| 0 <= i < parsed.lines@.len() ==> #[trigger] parsed.lines@[i].wf(),
        forall|i: int|
            0 <= i < parsed.lines@.len() ==> diff_renderer::line_text((#[trigger] parsed.lines@[i]).text@),
{
    let events = ansi::ansi_events(output);
    let parsed = parse_events(&events);
    proof {
        drawn_lines_hold_text(ansi::event_views(events@));
        assert forall|i: int| 0 <= i < parsed.lines@.len() implies diff_renderer::line_text(
            (#[trigger] parsed.lines@[i]).text@,
        ) by {
            assert(row_views(parsed.lines@)[i] == parsed.lines@[i]@);
        }
    }
    parsed
}

} // verus!
