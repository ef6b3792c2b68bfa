//! The output of a diff renderer (e.g. `delta`), a command that is fed a unified
//! diff and emits it however it likes, in colour. The same parsing drives the log
//! view, whose rows come from a `git log` command instead (see
//! [`COMMIT_RECORD_FORMAT`]).
//!
//! A renderer speaking the OSC-1717 diff-line-metadata protocol may restructure
//! the diff freely (drop `+`/`-` markers, side-by-side, gutters) and annotate
//! each rendered line with its patch-space identity `(file, kind, new/old line)`.
//! The protocol is advertised to it through an environment variable, and each
//! record is attached to the line it was emitted on.

use crate::ansi;
use crate::ansi::{AnsiEvent, Drawn, Event, Pen};
use crate::diff::{Diff, FileDiff};
use crate::osc;
use crate::sgr;
use crate::spans::Span;
use crate::text;
use std::ops::Range;
use vstd::prelude::*;

verus! {

/// Protocol versions of the OSC-1717 diff-line-metadata protocol that are
/// understood, as advertised to a renderer (a version set, `V`-prefixed).
pub const OSC1717_METADATA_ADVERTISED: &'static str = "V1";

/// The variable the protocol versions are advertised in.
pub const METADATA_VAR: &'static str = "OSC1717_METADATA";

/// The variable the width is exported in.
pub const COLUMNS_VAR: &'static str = "COLUMNS";

/// Where delta reads named features from. A leading `+` means "in addition to
/// the features already in git config", so what the user configured stays the
/// base and a selection is only an overlay on top of it.
pub const FEATURES_VAR: &'static str = "DELTA_FEATURES";

/// The git `--format` directives that emit a commit record, substituted for the
/// `{commit}` token in the configured log command, so that git itself states
/// which commit each rendered row belongs to.
pub const COMMIT_RECORD_FORMAT: &'static str = "%x1b]1717;1;C;;;%H%x1b\\";

/// What a rendered row is. `Context`/`Added`/`Deleted` are content lines;
/// `HunkHeader`/`FileHeader` are the renderer's own header rows, which may be
/// displayed in place of drawing one's own. `Commit` marks the first row of a
/// commit in rendered log output; its record carries the commit id where that of
/// a diff row carries its file.
#[derive(Debug, Clone, Copy, PartialEq, Eq, Structural)]
pub enum LineKind {
    Context,
    Added,
    Deleted,
    HunkHeader,
    FileHeader,
    Commit,
}

impl LineKind {
    /// Whether the row is a line of the diff itself, rather than one of the
    /// renderer's own header or decoration rows.
    pub fn is_content(self) -> (content: bool)
        ensures
            content == (self is Context || self is Added || self is Deleted),
    {
        match self {
            LineKind::Context | LineKind::Added | LineKind::Deleted => true,
            _ => false,
        }
    }
}

/// The patch-space identity of a rendered line, recovered from its OSC-1717
/// record. `old_line` is present only for deletions.
#[derive(Debug, PartialEq, Eq)]
pub struct LineMetadata {
    pub kind: LineKind,
    pub new_line: u32,
    pub old_line: Option<u32>,
    pub file: String,
}

/// A stretch of a line that leads somewhere.
#[derive(Debug, PartialEq, Eq)]
pub struct Hyperlink {
    pub range: Range<usize>,
    pub uri: String,
}

/// A single line of renderer output: its plain text (escapes stripped, newline
/// excluded), the contiguous `(byte-range, style)` runs that tile it, where it
/// links to, and the records emitted for it. A row usually has one record; a
/// side-by-side row that fuses a change carries two (left = deletion, right =
/// addition), and decoration rows carry none. The first record is the
/// row-granular identity; all of them are the lines a row-granular action
/// operates on.
#[derive(Debug, PartialEq)]
pub struct ParsedLine {
    pub text: String,
    pub runs: Vec<Span>,
    pub hyperlinks: Vec<Hyperlink>,
    pub records: Vec<LineMetadata>,
}

/// The result of parsing a renderer's output.
#[derive(Debug)]
pub struct ParsedOutput {
    pub lines: Vec<ParsedLine>,
    /// The OSC-1717 protocol version the renderer stated, if it spoke the
    /// protocol at all.
    pub protocol_version: Option<u32>,
}

/// The identity of a rendered line.
#[verifier::ext_equal]
pub struct Identity {
    pub kind: LineKind,
    pub new_line: u32,
    pub old_line: Option<u32>,
    pub file: Seq<char>,
}

/// A stretch of a line that leads somewhere.
#[verifier::ext_equal]
pub struct Link {
    pub range: Range<usize>,
    pub uri: Seq<char>,
}

/// A line of output.
#[verifier::ext_equal]
pub struct Row {
    pub text: Seq<char>,
    pub runs: Seq<Span>,
    pub hyperlinks: Seq<Link>,
    pub records: Seq<Identity>,
}

impl View for LineMetadata {
    type V = Identity;

    open spec fn view(&self) -> Identity {
        Identity {
            kind: self.kind,
            new_line: self.new_line,
            old_line: self.old_line,
            file: self.file@,
        }
    }
}

impl View for Hyperlink {
    type V = Link;

    open spec fn view(&self) -> Link {
        Link { range: self.range, uri: self.uri@ }
    }
}

/// What some records are.
pub open spec fn record_views(records: Seq<LineMetadata>) -> Seq<Identity> {
    records.map_values(|record: LineMetadata| record@)
}

/// What some links are.
pub open spec fn link_views(links: Seq<Hyperlink>) -> Seq<Link> {
    links.map_values(|link: Hyperlink| link@)
}

impl View for ParsedLine {
    type V = Row;

    open spec fn view(&self) -> Row {
        Row {
            text: self.text@,
            runs: self.runs@,
            hyperlinks: link_views(self.hyperlinks@),
            records: record_views(self.records@),
        }
    }
}

/// What some lines are.
pub open spec fn row_views(lines: Seq<ParsedLine>) -> Seq<Row> {
    lines.map_values(|line: ParsedLine| line@)
}

/// Whether links lie on a text, each on some of it.
pub open spec fn links_on(links: Seq<Hyperlink>, text: Seq<char>) -> bool {
    forall|i: int|
        0 <= i < links.len() ==> {
            &&& (#[trigger] links[i]).range.start < links[i].range.end
            &&& text::boundary(text, links[i].range.start as int)
            &&& text::boundary(text, links[i].range.end as int)
        }
}

impl ParsedLine {
    /// The runs tile the text, and the links lie on it, all of them breaking it
    /// between characters only.
    pub open spec fn wf(&self) -> bool {
        &&& ansi::tile_text(self.runs@, self.text@, text::byte_len(self.text@) as int)
        &&& links_on(self.hyperlinks@, self.text@)
    }
}

/// The type of line a record's type field stands for.
pub open spec fn kind_of(field: Seq<u8>) -> Option<LineKind> {
    if osc::is_code(field, 0x63) {
        Some(LineKind::Context)
    } else if osc::is_code(field, 0x61) {
        Some(LineKind::Added)
    } else if osc::is_code(field, 0x64) {
        Some(LineKind::Deleted)
    } else if osc::is_code(field, 0x68) {
        Some(LineKind::HunkHeader)
    } else if osc::is_code(field, 0x66) {
        Some(LineKind::FileHeader)
    } else if osc::is_code(field, 0x43) {
        Some(LineKind::Commit)
    } else {
        None
    }
}

/// Whether a command sets or ends a hyperlink.
pub open spec fn is_link(fields: Seq<Seq<u8>>) -> bool {
    fields.len() >= 2 && osc::is_code(fields[0], 0x38)
}

/// Output read up to some point.
#[verifier::ext_equal]
pub struct Page {
    pub lines: Seq<Row>,
    pub pen: Drawn,
    /// Where the current hyperlink started, and where it leads.
    pub hyperlink: Option<(usize, Seq<char>)>,
    pub hyperlinks: Seq<Link>,
    /// The records seen on the current line.
    pub records: Seq<Identity>,
    /// Whether the current line carries the handshake.
    pub handshake_line: bool,
    pub protocol_version: Option<u32>,
}

/// Nothing read yet.
pub open spec fn blank_page() -> Page {
    Page {
        lines: seq![],
        pen: ansi::clean(),
        hyperlink: None,
        hyperlinks: seq![],
        records: seq![],
        handshake_line: false,
        protocol_version: None,
    }
}

impl Page {
    /// With the current hyperlink, if it holds anything, noted up to here.
    pub open spec fn link_noted(self) -> Page {
        match self.hyperlink {
            Some((start, uri)) if start < self.pen.end() => Page {
                hyperlinks: self.hyperlinks.push(
                    Link { range: Range { start, end: self.pen.end() }, uri },
                ),
                ..self
            },
            _ => self,
        }
    }

    /// With a new hyperlink begun, or none if it leads nowhere. Runs don't go on
    /// across it.
    pub open spec fn linked(self, uri: Seq<char>) -> Page {
        let noted = self.link_noted();
        Page {
            pen: noted.pen.lifted(),
            hyperlink: if uri.len() == 0 {
                None
            } else {
                Some((self.pen.end(), uri))
            },
            ..noted
        }
    }

    /// With the current line ended. A line that holds the handshake and neither
    /// text nor records is dropped; a hyperlink goes on at the start of the next.
    pub open spec fn line_ended(self) -> Page {
        let noted = self.link_noted();
        let pen = noted.pen.lifted();
        let line = Row {
            text: pen.text,
            runs: pen.runs,
            hyperlinks: noted.hyperlinks,
            records: self.records,
        };
        Page {
            lines: if self.handshake_line && pen.text.len() == 0 && self.records.len() == 0 {
                self.lines
            } else {
                self.lines.push(line)
            },
            pen: Drawn { style: pen.style, ..ansi::clean() },
            hyperlink: match self.hyperlink {
                Some((_, uri)) => Some((0, uri)),
                None => None,
            },
            hyperlinks: seq![],
            records: seq![],
            handshake_line: false,
            protocol_version: self.protocol_version,
        }
    }

    /// With a command obeyed.
    pub open spec fn commanded(self, fields: Seq<Seq<u8>>) -> Page {
        if is_link(fields) {
            self.linked(osc::rejoined(fields.skip(2)))
        } else if osc::is_handshake(fields) {
            Page { protocol_version: sgr::number(fields[1]), handshake_line: true, ..self }
        } else if osc::is_record(fields) {
            Page {
                protocol_version: if self.protocol_version is Some {
                    self.protocol_version
                } else {
                    sgr::number(fields[1])
                },
                records: match kind_of(fields[2]) {
                    Some(kind) => self.records.push(
                        Identity {
                            kind,
                            new_line: match sgr::number(fields[3]) {
                                Some(n) => n,
                                None => 0,
                            },
                            old_line: sgr::number(fields[4]),
                            file: osc::rejoined(fields.skip(5)),
                        },
                    ),
                    None => self.records,
                },
                ..self
            }
        } else {
            self
        }
    }

    /// With one event more. Tabs arrive as a control character but are content
    /// in a diff; other control characters are dropped.
    pub open spec fn after(self, event: Event) -> Page {
        match event {
            Event::Print(c) => Page { pen: self.pen.printed(c), ..self },
            Event::Execute(byte) => if byte == 0x0a {
                self.line_ended()
            } else if byte == 0x09 {
                Page { pen: self.pen.printed('\t'), ..self }
            } else {
                self
            },
            Event::Csi(params, action) => if action == 0x6d {
                Page {
                    pen: Drawn { style: sgr::sgr(self.pen.style, params), ..self.pen },
                    ..self
                }
            } else {
                self
            },
            Event::Osc(fields) => self.commanded(fields),
        }
    }

    /// With a last line that has something on it ended, newline or not.
    pub open spec fn finished(self) -> Page {
        if self.pen.text.len() > 0 || self.pen.open is Some || self.records.len() > 0 {
            self.line_ended()
        } else {
            self
        }
    }
}

/// The page some events make.
pub open spec fn page_of(events: Seq<Event>) -> Page
    decreases events.len(),
{
    if events.len() == 0 {
        blank_page()
    } else {
        page_of(events.drop_last()).after(events.last())
    }
}

struct Performer {
    lines: Vec<ParsedLine>,
    pen: Pen,
    hyperlink: Option<(usize, String)>,
    hyperlinks: Vec<Hyperlink>,
    records: Vec<LineMetadata>,
    handshake_line: bool,
    protocol_version: Option<u32>,
}

impl Performer {
    spec fn page(&self) -> Page {
        Page {
            lines: row_views(self.lines@),
            pen: self.pen@,
            hyperlink: match self.hyperlink {
                Some((start, uri)) => Some((start, uri@)),
                None => None,
            },
            hyperlinks: link_views(self.hyperlinks@),
            records: record_views(self.records@),
            handshake_line: self.handshake_line,
            protocol_version: self.protocol_version,
        }
    }

    spec fn wf(&self) -> bool {
        &&& self.pen.wf()
        &&& self.hyperlink matches Some((start, _)) ==> text::boundary(
            self.pen.text@,
            start as int,
        )
        &&& links_on(self.hyperlinks@, self.pen.text@)
        &&& forall|i: int| 0 <= i < self.lines@.len() ==> #[trigger] self.lines@[i].wf()
    }

    fn new() -> (performer: Performer)
        ensures
            performer.wf(),
            performer.page() == blank_page(),
    {
        let performer = Performer {
            lines: Vec::new(),
            pen: Pen::new(),
            hyperlink: None,
            hyperlinks: Vec::new(),
            records: Vec::new(),
            handshake_line: false,
            protocol_version: None,
        };
        proof {
            assert(row_views(performer.lines@) =~= Seq::<Row>::empty());
            assert(link_views(performer.hyperlinks@) =~= Seq::<Link>::empty());
            assert(record_views(performer.records@) =~= Seq::<Identity>::empty());
        }
        performer
    }

    fn print(&mut self, c: char)
        requires
            old(self).wf(),
        ensures
            final(self).wf(),
            final(self).page() == (Page {
                pen: old(self).page().pen.printed(c),
                ..old(self).page()
            }),
    {
        proof {
            text::lemma_boundary_push(self.pen.text@, c);
        }
        self.pen.print(c);
        proof {
            assert forall|i: int| 0 <= i < self.hyperlinks@.len() implies {
                &&& (#[trigger] self.hyperlinks@[i]).range.start < self.hyperlinks@[i].range.end
                &&& text::boundary(self.pen.text@, self.hyperlinks@[i].range.start as int)
                &&& text::boundary(self.pen.text@, self.hyperlinks@[i].range.end as int)
            } by {}
        }
    }

    fn finish_hyperlink(&mut self)
        requires
            old(self).wf(),
        ensures
            final(self).wf(),
            final(self).page() == old(self).page().link_noted(),
            final(self).pen == old(self).pen,
            final(self).hyperlink == old(self).hyperlink,
    {
        let end = text::byte_length(self.pen.text.as_str());
        let ghost before = self.hyperlinks@;
        if let Some((start, uri)) = &self.hyperlink {
            if *start < end {
                proof {
                    text::lemma_boundary_ends(self.pen.text@);
                }
                let link = Hyperlink { range: *start..end, uri: uri.clone() };
                self.hyperlinks.push(link);
                proof {
                    assert(link_views(self.hyperlinks@) =~= link_views(before).push(link@));
                }
            }
        }
    }

    fn set_hyperlink(&mut self, fields: &Vec<Vec<u8>>)
        requires
            old(self).wf(),
            fields@.len() >= 2,
        ensures
            final(self).wf(),
            final(self).page() == old(self).page().linked(
                osc::rejoined(ansi::field_views(fields@).skip(2)),
            ),
    {
        self.finish_hyperlink();
        self.pen.lift();
        let uri = osc::rejoin(fields, 2);
        self.hyperlink =
        if text::is_empty(uri.as_str()) {
            None
        } else {
            Some((text::byte_length(self.pen.text.as_str()), uri))
        };
        proof {
            text::lemma_boundary_ends(self.pen.text@);
        }
    }

    fn end_line(&mut self)
        requires
            old(self).wf(),
        ensures
            final(self).wf(),
            final(self).page() == old(self).page().line_ended(),
    {
        self.finish_hyperlink();
        self.pen.lift();
        let handshake_only = self.handshake_line && text::is_empty(self.pen.text.as_str())
            && self.records.len() == 0;
        self.handshake_line = false;
        let (text, runs) = self.pen.take_line();
        let mut hyperlinks: Vec<Hyperlink> = Vec::new();
        std::mem::swap(&mut hyperlinks, &mut self.hyperlinks);
        let mut records: Vec<LineMetadata> = Vec::new();
        std::mem::swap(&mut records, &mut self.records);
        let line = ParsedLine { text, runs, hyperlinks, records };
        if let Some((_, uri)) = self.hyperlink.take() {
            self.hyperlink = Some((0, uri));
        }
        let ghost before = self.lines@;
        proof {
            text::lemma_boundary_ends(self.pen.text@);
            assert(link_views(self.hyperlinks@) =~= Seq::<Link>::empty());
            assert(record_views(self.records@) =~= Seq::<Identity>::empty());
        }
        if !handshake_only {
            self.lines.push(line);
            proof {
                assert(row_views(self.lines@) =~= row_views(before).push(line@));
            }
        }
    }

    fn finish(self) -> (output: ParsedOutput)
        requires
            self.wf(),
        ensures
            row_views(output.lines@) == self.page().finished().lines,
            output.protocol_version == self.page().finished().protocol_version,
            forall|i: int| 0 <= i < output.lines@.len() ==> #[trigger] output.lines@[i].wf(),
    {
        let mut performer = self;
        if !text::is_empty(performer.pen.text.as_str()) || performer.pen.open.is_some()
            || performer.records.len() > 0 {
            performer.end_line();
        }
        ParsedOutput { lines: performer.lines, protocol_version: performer.protocol_version }
    }

    fn execute(&mut self, byte: u8)
        requires
            old(self).wf(),
        ensures
            final(self).wf(),
            final(self).page() == old(self).page().after(Event::Execute(byte)),
    {
        if byte == 0x0a {
            self.end_line();
        } else if byte == 0x09 {
            self.print('\t');
        }
    }

    fn osc_dispatch(&mut self, params: &Vec<Vec<u8>>)
        requires
            old(self).wf(),
        ensures
            final(self).wf(),
            final(self).page() == old(self).page().commanded(ansi::field_views(params@)),
    {
        if params.len() >= 2 && osc::field_is(&params[0], 0x38) {
            self.set_hyperlink(params);
            return;
        }
        if params.len() == 0 || !osc::names_metadata(&params[0]) {
            return;
        }
        if params.len() == 2 {
            self.protocol_version = sgr::parse_u32(params[1].as_slice());
            self.handshake_line = true;
        } else if params.len() >= 6 {
            if self.protocol_version.is_none() {
                self.protocol_version = sgr::parse_u32(params[1].as_slice());
            }
            if let Some(kind) = line_kind(&params[2]) {
                let new_line = match sgr::parse_u32(params[3].as_slice()) {
                    Some(n) => n,
                    None => 0,
                };
                let record = LineMetadata {
                    kind,
                    new_line,
                    old_line: sgr::parse_u32(params[4].as_slice()),
                    file: osc::rejoin(params, 5),
                };
                let ghost before = self.records@;
                self.records.push(record);
                proof {
                    assert(record_views(self.records@) =~= record_views(before).push(record@));
                }
            }
        }
    }

    fn perform(&mut self, event: &AnsiEvent)
        requires
            old(self).wf(),
        ensures
            final(self).wf(),
            final(self).page() == old(self).page().after(event@),
    {
        match event {
            AnsiEvent::Print(c) => self.print(*c),
            AnsiEvent::Execute(byte) => self.execute(*byte),
            AnsiEvent::Csi(params, action) => {
                if *action == 0x6d {
                    self.pen.set_style(params.as_slice());
                }
            },
            AnsiEvent::Osc(fields) => self.osc_dispatch(fields),
        }
    }
}

fn line_kind(field: &Vec<u8>) -> (kind: Option<LineKind>)
    ensures
        kind == kind_of(field@),
{
    if osc::field_is(field, 0x63) {
        Some(LineKind::Context)
    } else if osc::field_is(field, 0x61) {
        Some(LineKind::Added)
    } else if osc::field_is(field, 0x64) {
        Some(LineKind::Deleted)
    } else if osc::field_is(field, 0x68) {
        Some(LineKind::HunkHeader)
    } else if osc::field_is(field, 0x66) {
        Some(LineKind::FileHeader)
    } else if osc::field_is(field, 0x43) {
        Some(LineKind::Commit)
    } else {
        // Unknown type: treat the row as non-actionable.
        None
    }
}

/// Draw terminal events as per-line styled runs, keeping any line metadata the
/// renderer emitted.
pub fn parse_events(events: &Vec<AnsiEvent>) -> (output: ParsedOutput)
    ensures
        row_views(output.lines@) == page_of(ansi::event_views(events@)).finished().lines,
        output.protocol_version == page_of(
            ansi::event_views(events@),
        ).finished().protocol_version,
        forall|i: int| 0 <= i < output.lines@.len() ==> #[trigger] output.lines@[i].wf(),
{
    let mut performer = Performer::new();
    let ghost all = ansi::event_views(events@);
    let mut i: usize = 0;
    proof {
        assert(all.take(0) =~= Seq::<Event>::empty());
    }
    while i < events.len()
        invariant
            i <= events@.len(),
            all == ansi::event_views(events@),
            performer.wf(),
            performer.page() == page_of(all.take(i as int)),
        decreases events@.len() - i,
    {
        proof {
            assert(all.take(i + 1).drop_last() =~= all.take(i as int));
            assert(all.take(i + 1).last() == events@[i as int]@);
        }
        performer.perform(&events[i]);
        i += 1;
    }
    proof {
        assert(all.take(all.len() as int) =~= all);
    }
    performer.finish()
}

/// Whether a text is what a line can hold: tabs and what can be drawn. There is no
/// newline in it, no carriage return and no escape.
pub open spec fn line_text(s: Seq<char>) -> bool {
    forall|i: int| 0 <= i < s.len() ==> (#[trigger] s[i]) == '\t' || ansi::drawable(s[i])
}

/// Whether there are only such texts on a page.
pub open spec fn lines_hold_text(page: Page) -> bool {
    &&& line_text(page.pen.text)
    &&& forall|i: int| 0 <= i < page.lines.len() ==> line_text((#[trigger] page.lines[i]).text)
}

/// Whatever a terminal is told, what is drawn on a line is text: no newline, carriage
/// return or escape is left in it.
pub proof fn drawn_lines_hold_text(events: Seq<Event>)
    requires
        ansi::draws_text(events),
    ensures
        lines_hold_text(page_of(events)),
        lines_hold_text(page_of(events).finished()),
    decreases events.len(),
{
    if events.len() > 0 {
        let front = events.drop_last();
        assert forall|i: int| 0 <= i < front.len() implies ((#[trigger] front[i]) matches Event::Print(
            c,
        ) ==> ansi::drawable(c)) by {
            assert(front[i] == events[i]);
        }
        drawn_lines_hold_text(front);
        assert(events[events.len() - 1] == events.last());
    }
}

/// Parse coloured text into per-line styled runs, keeping any line metadata the
/// renderer emitted.
pub fn parse_ansi_lines(output: &str) -> (parsed: ParsedOutput)
    ensures
        row_views(parsed.lines@) == page_of(ansi::events_of(output@)).finished().lines,
        parsed.protocol_version == page_of(ansi::events_of(output@)).finished().protocol_version,
        forall|i: int| 0 <= i < parsed.lines@.len() ==> #[trigger] parsed.lines@[i].wf(),
        forall|i: int| 0 <= i < parsed.lines@.len() ==> line_text((#[trigger] parsed.lines@[i]).text@),
{
    let events = ansi::ansi_events(output);
    let parsed = parse_events(&events);
    proof {
        drawn_lines_hold_text(ansi::event_views(events@));
        assert forall|i: int| 0 <= i < parsed.lines@.len() implies line_text(
            (#[trigger] parsed.lines@[i]).text@,
        ) by {
            assert(row_views(parsed.lines@)[i] == parsed.lines@[i]@);
        }
    }
    parsed
}

/// Lines of text, each ended by a newline.
pub open spec fn plain_text(lines: Seq<Row>) -> Seq<char>
    decreases lines.len(),
{
    if lines.len() == 0 {
        seq![]
    } else {
        (plain_text(lines.drop_last()) + lines.last().text).push('\n')
    }
}

/// The text of lines that hold text is that and newlines.
proof fn lemma_plain_text(lines: Seq<Row>)
    requires
        forall|i: int| 0 <= i < lines.len() ==> line_text((#[trigger] lines[i]).text),
    ensures
        forall|i: int|
            0 <= i < plain_text(lines).len() ==> (#[trigger] plain_text(lines)[i]) == '\n'
                || plain_text(lines)[i] == '\t' || ansi::drawable(plain_text(lines)[i]),
    decreases lines.len(),
{
    if lines.len() > 0 {
        let front = lines.drop_last();
        assert forall|i: int| 0 <= i < front.len() implies line_text((#[trigger] front[i]).text) by {
            assert(front[i] == lines[i]);
        }
        lemma_plain_text(front);
        let above = plain_text(front);
        let last = lines[lines.len() - 1].text;
        assert(line_text(last));
        assert forall|i: int| 0 <= i < plain_text(lines).len() implies (
        #[trigger] plain_text(lines)[i]) == '\n' || plain_text(lines)[i] == '\t'
            || ansi::drawable(plain_text(lines)[i]) by {
            assert(plain_text(lines) == (above + last).push('\n'));
            if i < above.len() {
                assert(plain_text(lines)[i] == above[i]);
            } else if i < above.len() + last.len() {
                assert(plain_text(lines)[i] == last[i - above.len()]);
            }
        }
    }
}

/// The text of some lines, each ended by a newline.
pub fn lines_text(lines: &Vec<ParsedLine>) -> (out: String)
    ensures
        out@ == plain_text(row_views(lines@)),
{
    let ghost rows = row_views(lines@);
    let mut out = String::new();
    let mut i: usize = 0;
    proof {
        assert(rows.take(0) =~= Seq::<Row>::empty());
        assert(out@ =~= Seq::<char>::empty());
    }
    while i < lines.len()
        invariant
            i <= lines@.len(),
            rows == row_views(lines@),
            out@ == plain_text(rows.take(i as int)),
        decreases lines@.len() - i,
    {
        proof {
            assert(rows.take(i + 1).drop_last() =~= rows.take(i as int));
            assert(rows.take(i + 1).last() == lines@[i as int]@);
        }
        out.push_str(lines[i].text.as_str());
        out.push('\n');
        i += 1;
    }
    proof {
        assert(rows.take(rows.len() as int) =~= rows);
    }
    out
}

/// `text` with its escape sequences removed, as the plain text a parser needs.
/// git colours what it writes to a pager, and a diff parser reads nothing
/// through the escapes.
pub fn strip_ansi(text: &str) -> (plain: String)
    ensures
        plain@ == plain_text(page_of(ansi::events_of(text@)).finished().lines),
        forall|i: int|
            0 <= i < plain@.len() ==> (#[trigger] plain@[i]) == '\n' || plain@[i] == '\t'
                || ansi::drawable(plain@[i]),
{
    let parsed = parse_ansi_lines(text);
    proof {
        let rows = row_views(parsed.lines@);
        assert forall|i: int| 0 <= i < rows.len() implies line_text((#[trigger] rows[i]).text) by {
            assert(rows[i] == parsed.lines@[i]@);
        }
        lemma_plain_text(rows);
    }
    lines_text(&parsed.lines)
}

// ---------------------------------------------------------------------------
// Commits in a rendered log
// ---------------------------------------------------------------------------

/// A run of rendered log rows belonging to one commit, as split by the commit
/// records: a record starts a new block and the rows that follow it, up to the
/// next record, are that commit's.
pub struct CommitBlock<'a> {
    /// The commit id, or `None` for rows preceding the first record.
    pub commit: Option<&'a str>,
    pub rows: &'a [ParsedLine],
}

/// Whether two ids name the same commit. One names it as git gave it and the
/// other as git printed it, which is usually abbreviated, so one being a prefix
/// of the other is what "the same" means here.
pub open spec fn same_commit(one: Seq<char>, other: Seq<char>) -> bool {
    one.len() > 0 && (other.is_prefix_of(one) || one.is_prefix_of(other))
}

pub fn names_same_commit(one: &str, other: &str) -> (same: bool)
    ensures
        same == same_commit(one@, other@),
{
    !text::is_empty(one) && (text::starts_with(one, other) || text::starts_with(other, one))
}

/// The commit a row says it is of, by the first commit record on it.
pub open spec fn commit_named(records: Seq<Identity>) -> Option<Seq<char>>
    decreases records.len(),
{
    if records.len() == 0 {
        None
    } else if records[0].kind == LineKind::Commit {
        Some(records[0].file)
    } else {
        commit_named(records.drop_first())
    }
}

/// Where a log's blocks start, and which commit each is of. A record that names
/// the commit whose block is open already starts no other one.
pub open spec fn block_starts(rows: Seq<Row>) -> Seq<(int, Option<Seq<char>>)>
    decreases rows.len(),
{
    if rows.len() == 0 {
        seq![]
    } else {
        let starts = block_starts(rows.drop_last());
        match commit_named(rows.last().records) {
            Some(commit) => if starts.len() > 0 && starts.last().1 is Some && same_commit(
                starts.last().1->0,
                commit,
            ) {
                starts
            } else {
                starts.push((rows.len() - 1, Some(commit)))
            },
            None => if starts.len() == 0 {
                seq![(0, None)]
            } else {
                starts
            },
        }
    }
}

/// Where the `n`th block ends.
pub open spec fn block_end(rows: Seq<Row>, n: int) -> int {
    if n + 1 < block_starts(rows).len() {
        block_starts(rows)[n + 1].0
    } else {
        rows.len() as int
    }
}

pub open spec fn id_view(id: Option<&str>) -> Option<Seq<char>> {
    match id {
        Some(id) => Some(id@),
        None => None,
    }
}

/// Blocks start at the first row and one after the other; only the first may be
/// of no commit, and no two that follow each other are of the same one.
pub proof fn blocks_in_order(rows: Seq<Row>)
    ensures
        rows.len() > 0 ==> block_starts(rows).len() > 0 && block_starts(rows)[0].0 == 0,
        forall|n: int|
            0 <= n < block_starts(rows).len() ==> 0 <= (#[trigger] block_starts(rows)[n]).0
                < block_end(rows, n) <= rows.len(),
        forall|n: int|
            0 < n < block_starts(rows).len() ==> (#[trigger] block_starts(rows)[n]).1 is Some,
        forall|n: int, m: int|
            0 <= n && m == n + 1 && m < block_starts(rows).len() ==> !((
            #[trigger] block_starts(rows)[n]).1 is Some && same_commit(
                block_starts(rows)[n].1->0,
                (#[trigger] block_starts(rows)[m]).1->0,
            )),
    decreases rows.len(),
{
    if rows.len() > 0 {
        let front = rows.drop_last();
        blocks_in_order(front);
        let starts = block_starts(rows);
        let before = block_starts(front);
        assert forall|n: int| 0 <= n < starts.len() implies 0 <= (#[trigger] starts[n]).0
            < block_end(rows, n) <= rows.len() by {
            if n < before.len() {
                assert(before[n] == starts[n]);
                assert(before[n].0 < block_end(front, n));
            }
        }
        assert forall|n: int| 0 < n < starts.len() implies (#[trigger] starts[n]).1 is Some by {
            if n < before.len() {
                assert(before[n] == starts[n]);
            }
        }
        assert forall|n: int, m: int|
            0 <= n && m == n + 1 && m < starts.len() implies !((#[trigger] starts[n]).1 is Some
            && same_commit(starts[n].1->0, (#[trigger] starts[m]).1->0)) by {
            assert(before[n] == starts[n]);
            if m < before.len() {
                assert(before[m] == starts[m]);
            }
        }
    }
}

fn find_commit<'a>(records: &'a Vec<LineMetadata>) -> (commit: Option<&'a str>)
    ensures
        id_view(commit) == commit_named(record_views(records@)),
{
    let ghost all = record_views(records@);
    let mut i: usize = 0;
    proof {
        assert(all.skip(0) =~= all);
    }
    while i < records.len()
        invariant
            i <= records@.len(),
            all == record_views(records@),
            commit_named(all.skip(i as int)) == commit_named(all),
        decreases records@.len() - i,
    {
        proof {
            assert(all.skip(i as int).drop_first() =~= all.skip(i + 1));
        }
        if records[i].kind == LineKind::Commit {
            return Some(records[i].file.as_str());
        }
        i += 1;
    }
    None
}

/// Split rendered log rows into per-commit blocks.
pub fn commit_blocks<'a>(lines: &'a Vec<ParsedLine>) -> (blocks: Vec<CommitBlock<'a>>)
    ensures
        blocks@.len() == block_starts(row_views(lines@)).len(),
        forall|n: int|
            0 <= n < blocks@.len() ==> {
                let (start, commit) = block_starts(row_views(lines@))[n];
                &&& id_view((#[trigger] blocks@[n]).commit) == commit
                &&& blocks@[n].rows@ == lines@.subrange(start, block_end(row_views(lines@), n))
            },
{
    let ghost rows = row_views(lines@);
    let mut starts: Vec<(usize, Option<&'a str>)> = Vec::new();
    let mut i: usize = 0;
    proof {
        assert(rows.take(0) =~= Seq::<Row>::empty());
    }
    while i < lines.len()
        invariant
            i <= lines@.len(),
            rows == row_views(lines@),
            starts@.len() == block_starts(rows.take(i as int)).len(),
            forall|n: int|
                0 <= n < starts@.len() ==> (#[trigger] starts@[n]).0 == block_starts(
                    rows.take(i as int),
                )[n].0 && id_view(starts@[n].1) == block_starts(rows.take(i as int))[n].1,
        decreases lines@.len() - i,
    {
        let ghost front = rows.take(i as int);
        proof {
            assert(rows.take(i + 1).drop_last() =~= front);
            assert(rows.take(i + 1).last() == lines@[i as int]@);
            blocks_in_order(front);
        }
        match find_commit(&lines[i].records) {
            Some(commit) => {
                let already_open = if starts.len() > 0 {
                    match starts[starts.len() - 1].1 {
                        Some(open) => names_same_commit(open, commit),
                        None => false,
                    }
                } else {
                    false
                };
                if !already_open {
                    starts.push((i, Some(commit)));
                }
            },
            None => {
                if starts.len() == 0 {
                    starts.push((0, None));
                }
            },
        }
        i += 1;
    }
    proof {
        assert(rows.take(rows.len() as int) =~= rows);
        blocks_in_order(rows);
    }
    let mut blocks: Vec<CommitBlock<'a>> = Vec::new();
    let mut n: usize = 0;
    while n < starts.len()
        invariant
            n <= starts@.len(),
            rows == row_views(lines@),
            blocks@.len() == n,
            starts@.len() == block_starts(rows).len(),
            forall|k: int|
                0 <= k < starts@.len() ==> (#[trigger] starts@[k]).0 == block_starts(rows)[k].0
                    && id_view(starts@[k].1) == block_starts(rows)[k].1,
            forall|k: int|
                0 <= k < block_starts(rows).len() ==> 0 <= (#[trigger] block_starts(rows)[k]).0
                    < block_end(rows, k) <= rows.len(),
            forall|k: int|
                0 <= k < blocks@.len() ==> {
                    let (start, commit) = block_starts(rows)[k];
                    &&& id_view((#[trigger] blocks@[k]).commit) == commit
                    &&& blocks@[k].rows@ == lines@.subrange(start, block_end(rows, k))
                },
        decreases starts@.len() - n,
    {
        let (start, commit) = starts[n];
        let end = if n + 1 < starts.len() {
            starts[n + 1].0
        } else {
            lines.len()
        };
        proof {
            assert(block_starts(rows)[n as int].0 < block_end(rows, n as int));
        }
        blocks.push(
            CommitBlock { commit, rows: vstd::slice::slice_subrange(lines.as_slice(), start, end) },
        );
        n += 1;
    }
    blocks
}

// ---------------------------------------------------------------------------
// Finding rendered rows in the diff
// ---------------------------------------------------------------------------

/// Whether a file is the first one of a diff that goes by a path.
pub open spec fn first_named(files: Seq<FileDiff>, path: Seq<char>, f: int) -> bool {
    &&& 0 <= f < files.len()
    &&& files[f].is_named(path)
    &&& forall|g: int| 0 <= g < f ==> !(#[trigger] files[g]).is_named(path)
}

/// How many of some hunk lines are in the new file.
pub open spec fn new_count(lines: Seq<Seq<char>>) -> int
    decreases lines.len(),
{
    if lines.len() == 0 {
        0
    } else {
        new_count(lines.drop_last()) + if lines.last()[0] == '-' || lines.last()[0] == '\\' {
            0int
        } else {
            1int
        }
    }
}

/// How many of some hunk lines are in the old file.
pub open spec fn old_count(lines: Seq<Seq<char>>) -> int
    decreases lines.len(),
{
    if lines.len() == 0 {
        0
    } else {
        old_count(lines.drop_last()) + if lines.last()[0] == '+' || lines.last()[0] == '\\' {
            0int
        } else {
            1int
        }
    }
}

/// Whether a record is of the `l`th line of a hunk. Additions and context match
/// on the new file's line number, deletions on the old file's: two deletions in
/// a row share a new-file number, so only the old-file number tells them apart.
pub open spec fn is_of_line(
    meta: Identity,
    lines: Seq<Seq<char>>,
    l: int,
    old_start: int,
    new_start: int,
) -> bool {
    let marker = lines[l][0];
    match meta.kind {
        LineKind::Added => marker == '+' && new_start + new_count(lines.take(l)) == meta.new_line,
        LineKind::Context => marker == ' ' && new_start + new_count(lines.take(l))
            == meta.new_line,
        LineKind::Deleted => marker == '-' && meta.old_line is Some && old_start + old_count(
            lines.take(l),
        ) == meta.old_line->0,
        _ => false,
    }
}

/// Whether a record is of a line of a diff.
pub open spec fn is_at(diff: Diff, meta: Identity, f: int, h: int, l: int) -> bool {
    let header = diff.file_diffs@[f].hunks@[h].header;
    let lines = text::lines(diff.hunk_text(f, h));
    &&& diff.has_hunk(f, h)
    &&& 0 <= l < lines.len()
    &&& is_of_line(
        meta,
        lines,
        l,
        header.old_line_start as int,
        header.new_line_start as int,
    )
}

/// Whether a place is where a record leads: the first line it is of, in the
/// first file that goes by its path.
pub open spec fn is_place(diff: Diff, meta: Identity, place: (int, int, int)) -> bool {
    let (f, h, l) = place;
    &&& first_named(diff.file_diffs@, meta.file, f)
    &&& is_at(diff, meta, f, h, l)
    &&& forall|h2: int, l2: int|
        h2 < h || (h2 == h && l2 < l) ==> !#[trigger] is_at(diff, meta, f, h2, l2)
}

/// Where a record leads: the file, the hunk in it, and the line of that.
pub open spec fn place_of(diff: Diff, meta: Identity) -> Option<(int, int, int)> {
    if exists|place: (int, int, int)| is_place(diff, meta, place) {
        Some(choose|place: (int, int, int)| is_place(diff, meta, place))
    } else {
        None
    }
}

/// A record leads to one place at most.
pub proof fn place_is_unique(diff: Diff, meta: Identity, place: (int, int, int))
    requires
        is_place(diff, meta, place),
    ensures
        place_of(diff, meta) == Some(place),
{
    let other = place_of(diff, meta)->0;
    assert(is_place(diff, meta, other));
    let (f, h, l) = place;
    let (f2, h2, l2) = other;
    if f2 < f {
        assert(!diff.file_diffs@[f2].is_named(meta.file));
    } else if f < f2 {
        assert(!diff.file_diffs@[f].is_named(meta.file));
    }
    assert(is_at(diff, meta, f, h, l));
    assert(is_at(diff, meta, f, h2, l2));
}

/// What a line of a diff goes by: what a renderer says of the row it draws for it.
pub open spec fn identity_of(diff: Diff, f: int, h: int, l: int) -> Identity {
    let file = diff.file_diffs@[f];
    let header = file.hunks@[h].header;
    let lines = text::lines(diff.hunk_text(f, h));
    Identity {
        kind: if lines[l][0] == '+' {
            LineKind::Added
        } else if lines[l][0] == '-' {
            LineKind::Deleted
        } else {
            LineKind::Context
        },
        new_line: (header.new_line_start + new_count(lines.take(l))) as u32,
        old_line: if lines[l][0] == '-' {
            Some((header.old_line_start + old_count(lines.take(l))) as u32)
        } else {
            None
        },
        file: file.header.new_file@,
    }
}

/// Whether each hunk of a file starts no earlier than the one before it ends, in the
/// old file and in the new one.
pub open spec fn hunks_apart(diff: Diff, f: int) -> bool {
    let hunks = diff.file_diffs@[f].hunks@;
    forall|h: int, k: int|
        0 <= h < k < hunks.len() ==> {
            let lines = text::lines(diff.hunk_text(f, h));
            &&& (#[trigger] hunks[h]).header.old_line_start + old_count(lines)
                <= (#[trigger] hunks[k]).header.old_line_start
            &&& hunks[h].header.new_line_start + new_count(lines) <= hunks[k].header.new_line_start
        }
}

proof fn lemma_counts(lines: Seq<Seq<char>>, a: int, b: int)
    requires
        0 <= a <= b <= lines.len(),
    ensures
        0 <= new_count(lines.take(a)) <= new_count(lines.take(b)) <= b,
        0 <= old_count(lines.take(a)) <= old_count(lines.take(b)) <= b,
        a < b && (lines[a][0] == '+' || lines[a][0] == ' ') ==> new_count(lines.take(a))
            < new_count(lines.take(b)),
        a < b && lines[a][0] == '-' ==> old_count(lines.take(a)) < old_count(lines.take(b)),
    decreases b,
{
    if b > 0 {
        assert(lines.take(b).drop_last() =~= lines.take(b - 1));
        assert(lines.take(b).last() == lines[b - 1]);
        if a < b {
            lemma_counts(lines, a, b - 1);
        } else {
            lemma_counts(lines, b - 1, b - 1);
        }
    }
}

/// What a renderer says of a line leads back to that line, in the first file that
/// goes by its path: of the lines a patch can stage, and the context between them,
/// none is taken for another.
pub proof fn identity_leads_back(diff: Diff, f: int, h: int, l: int)
    requires
        diff.wf(),
        diff.has_hunk(f, h),
        0 <= l < text::lines(diff.hunk_text(f, h)).len(),
        ({
            let marker = text::lines(diff.hunk_text(f, h))[l][0];
            marker == '+' || marker == '-' || marker == ' '
        }),
        first_named(diff.file_diffs@, diff.file_diffs@[f].header.new_file@, f),
        hunks_apart(diff, f),
    ensures
        place_of(diff, identity_of(diff, f, h, l)) == Some((f, h, l)),
{
    let hunks = diff.file_diffs@[f].hunks@;
    let lines = text::lines(diff.hunk_text(f, h));
    let meta = identity_of(diff, f, h, l);
    assert(diff.file_diffs@[f].wf(diff.text@));
    assert(hunks[h].wf(diff.text@));
    lemma_counts(lines, l, lines.len() as int);
    assert(lines.take(lines.len() as int) =~= lines);
    assert(is_at(diff, meta, f, h, l));
    assert forall|h2: int, l2: int| h2 < h || (h2 == h && l2 < l) implies !#[trigger] is_at(
        diff,
        meta,
        f,
        h2,
        l2,
    ) by {
        if is_at(diff, meta, f, h2, l2) {
            let other = text::lines(diff.hunk_text(f, h2));
            lemma_counts(other, l2, other.len() as int);
            assert(other.take(other.len() as int) =~= other);
            if h2 == h {
                lemma_counts(lines, l2, l);
            } else {
                assert(hunks[h2].header.new_line_start + new_count(other)
                    <= hunks[h].header.new_line_start);
            }
        }
    }
    assert(is_place(diff, meta, (f, h, l)));
    place_is_unique(diff, meta, (f, h, l));
}

pub open spec fn place_view(place: Option<(usize, usize, usize)>) -> Option<(int, int, int)> {
    match place {
        Some((f, h, l)) => Some((f as int, h as int, l as int)),
        None => None,
    }
}

fn named(file_diff: &FileDiff, path: &str) -> (is: bool)
    ensures
        is == file_diff.is_named(path@),
{
    text::same_text(path, file_diff.header.new_file.as_str()) || text::same_text(
        path,
        file_diff.header.old_file.as_str(),
    )
}

/// The first file of a diff that goes by a path.
fn find_file(diff: &Diff, path: &str) -> (file: Option<usize>)
    ensures
        match file {
            Some(f) => first_named(diff.file_diffs@, path@, f as int),
            None => forall|f: int| !#[trigger] first_named(diff.file_diffs@, path@, f),
        },
{
    let mut f: usize = 0;
    while f < diff.file_diffs.len()
        invariant
            f <= diff.file_diffs@.len(),
            forall|g: int| 0 <= g < f ==> !(#[trigger] diff.file_diffs@[g]).is_named(path@),
        decreases diff.file_diffs@.len() - f,
    {
        if named(&diff.file_diffs[f], path) {
            return Some(f);
        }
        f += 1;
    }
    None
}

/// The first line of a hunk a record is of.
fn find_line(content: &str, old_start: u32, new_start: u32, meta: &LineMetadata) -> (line: Option<
    usize,
>)
    requires
        old_start + text::lines(content@).len() <= u32::MAX,
        new_start + text::lines(content@).len() <= u32::MAX,
    ensures
        match line {
            Some(l) => l < text::lines(content@).len() && is_of_line(
                meta@,
                text::lines(content@),
                l as int,
                old_start as int,
                new_start as int,
            ) && forall|k: int|
                0 <= k < l ==> !#[trigger] is_of_line(
                    meta@,
                    text::lines(content@),
                    k,
                    old_start as int,
                    new_start as int,
                ),
            None => forall|k: int|
                0 <= k < text::lines(content@).len() ==> !#[trigger] is_of_line(
                    meta@,
                    text::lines(content@),
                    k,
                    old_start as int,
                    new_start as int,
                ),
        },
{
    let ghost all = text::lines(content@);
    let lines = text::split_lines(content);
    proof {
        text::lemma_lines_concat(content@);
        assert(all.take(0) =~= Seq::<Seq<char>>::empty());
        assert(lines@.len() == text::views(lines@).len());
    }
    let mut new_num: u32 = new_start;
    let mut old_num: u32 = old_start;
    let mut l: usize = 0;
    while l < lines.len()
        invariant
            l <= lines@.len(),
            all == text::lines(content@),
            text::views(lines@) == all,
            lines@.len() == all.len(),
            forall|i: int| 0 <= i < all.len() ==> #[trigger] all[i].len() > 0,
            old_start + all.len() <= u32::MAX,
            new_start + all.len() <= u32::MAX,
            new_num == new_start + new_count(all.take(l as int)),
            old_num == old_start + old_count(all.take(l as int)),
            0 <= new_count(all.take(l as int)) <= l,
            0 <= old_count(all.take(l as int)) <= l,
            forall|k: int|
                0 <= k < l ==> !#[trigger] is_of_line(
                    meta@,
                    all,
                    k,
                    old_start as int,
                    new_start as int,
                ),
        decreases lines@.len() - l,
    {
        proof {
            assert(all[l as int] == lines@[l as int]@);
            assert(all[l as int].len() > 0);
            assert(all.take(l + 1).drop_last() =~= all.take(l as int));
            assert(all.take(l + 1).last() == all[l as int]);
        }
        let marker = lines[l].get_char(0);
        let found = match meta.kind {
            LineKind::Added => marker == '+' && new_num == meta.new_line,
            LineKind::Context => marker == ' ' && new_num == meta.new_line,
            LineKind::Deleted => match meta.old_line {
                Some(old_line) => marker == '-' && old_num == old_line,
                None => false,
            },
            _ => false,
        };
        if found {
            return Some(l);
        }
        proof {
            assert(!is_of_line(meta@, all, l as int, old_start as int, new_start as int));
        }
        if marker == '+' {
            new_num += 1;
        } else if marker == '-' {
            old_num += 1;
        } else if marker != '\\' {
            new_num += 1;
            old_num += 1;
        }
        l += 1;
    }
    None
}

/// Resolve a rendered line's OSC-1717 identity to its position in the parsed
/// diff: `(file_index, hunk_index, line_index)`, where `line_index` indexes the
/// hunk's content lines. This is the bridge that lets staging operate on a
/// freely-restructured render: the parsed diff stays the source of truth; the
/// metadata only says which content line a row is.
pub fn resolve_line(diff: &Diff, meta: &LineMetadata) -> (place: Option<(usize, usize, usize)>)
    requires
        diff.wf(),
    ensures
        place_view(place) == place_of(*diff, meta@),
        place matches Some((f, h, l)) ==> diff.has_hunk(f as int, h as int) && l < text::lines(
            diff.hunk_text(f as int, h as int),
        ).len(),
{
    let ghost id = meta@;
    let f = match find_file(diff, meta.file.as_str()) {
        Some(f) => f,
        None => {
            return None;
        },
    };
    let mut h: usize = 0;
    while h < diff.file_diffs[f].hunks.len()
        invariant
            diff.wf(),
            id == meta@,
            f < diff.file_diffs@.len(),
            first_named(diff.file_diffs@, id.file, f as int),
            h <= diff.file_diffs@[f as int].hunks@.len(),
            forall|h2: int, l2: int| h2 < h ==> !#[trigger] is_at(*diff, id, f as int, h2, l2),
        decreases diff.file_diffs@[f as int].hunks@.len() - h,
    {
        let hunk = &diff.file_diffs[f].hunks[h];
        proof {
            assert(diff.file_diffs@[f as int].wf(diff.text@));
            assert(hunk.wf(diff.text@));
        }
        let content = diff.hunk_content(f, h);
        let ghost lines = text::lines(content@);
        let (old_start, new_start) = (hunk.header.old_line_start, hunk.header.new_line_start);
        if let Some(l) = find_line(content, old_start, new_start, meta) {
            proof {
                let place = (f as int, h as int, l as int);
                assert(is_at(*diff, id, f as int, h as int, l as int));
                assert forall|h2: int, l2: int|
                    h2 < h || (h2 == h && l2 < l) implies !#[trigger] is_at(
                    *diff,
                    id,
                    f as int,
                    h2,
                    l2,
                ) by {
                    if h2 == h && 0 <= l2 {
                        assert(!is_of_line(id, lines, l2, old_start as int, new_start as int));
                    }
                }
                assert(is_place(*diff, id, place));
                place_is_unique(*diff, id, place);
            }
            return Some((f, h, l));
        }
        proof {
            assert forall|h2: int, l2: int| h2 < h + 1 implies !#[trigger] is_at(
                *diff,
                id,
                f as int,
                h2,
                l2,
            ) by {
                if h2 == h && 0 <= l2 < lines.len() {
                    assert(!is_of_line(id, lines, l2, old_start as int, new_start as int));
                }
            }
        }
        h += 1;
    }
    // File matched but the line wasn't found; don't scan others.
    proof {
        if exists|place: (int, int, int)| is_place(*diff, id, place) {
            let place = choose|place: (int, int, int)| is_place(*diff, id, place);
            if place.0 < f {
                assert(!diff.file_diffs@[place.0].is_named(id.file));
            } else if f < place.0 {
                assert(!diff.file_diffs@[f as int].is_named(id.file));
            }
            assert(is_at(*diff, id, place.0, place.1, place.2));
        }
    }
    None
}

/// Whether a hunk is the one a header record leads to: the first one that starts
/// at its line, in the first file that goes by its path.
pub open spec fn is_header_place(diff: Diff, meta: Identity, place: (int, int)) -> bool {
    let (f, h) = place;
    let hunks = diff.file_diffs@[f].hunks@;
    &&& first_named(diff.file_diffs@, meta.file, f)
    &&& 0 <= h < hunks.len()
    &&& hunks[h].header.new_line_start == meta.new_line
    &&& forall|g: int| 0 <= g < h ==> (#[trigger] hunks[g]).header.new_line_start != meta.new_line
}

/// Where a header record leads: the file, and the hunk in it.
pub open spec fn header_place_of(diff: Diff, meta: Identity) -> Option<(int, int)> {
    if exists|place: (int, int)| is_header_place(diff, meta, place) {
        Some(choose|place: (int, int)| is_header_place(diff, meta, place))
    } else {
        None
    }
}

/// A header record leads to one hunk at most.
pub proof fn header_place_is_unique(diff: Diff, meta: Identity, place: (int, int))
    requires
        is_header_place(diff, meta, place),
    ensures
        header_place_of(diff, meta) == Some(place),
{
    let other = header_place_of(diff, meta)->0;
    assert(is_header_place(diff, meta, other));
    if other.0 < place.0 {
        assert(!diff.file_diffs@[other.0].is_named(meta.file));
    } else if place.0 < other.0 {
        assert(!diff.file_diffs@[place.0].is_named(meta.file));
    }
}

pub open spec fn header_place_view(place: Option<(usize, usize)>) -> Option<(int, int)> {
    match place {
        Some((f, h)) => Some((f as int, h as int)),
        None => None,
    }
}

/// Resolve a hunk-header record to `(file_index, hunk_index)` by matching its
/// file and its `new_line` (the hunk's first new-file line) against the parsed
/// diff's hunk headers, so that the renderer's hunk header can be the anchor for
/// that hunk (collapse, whole-hunk staging).
pub fn resolve_hunk(diff: &Diff, meta: &LineMetadata) -> (place: Option<(usize, usize)>)
    ensures
        header_place_view(place) == header_place_of(*diff, meta@),
        place matches Some((f, h)) ==> diff.has_hunk(f as int, h as int),
{
    let ghost id = meta@;
    let f = match find_file(diff, meta.file.as_str()) {
        Some(f) => f,
        None => {
            proof {
                assert(forall|f: int| !#[trigger] first_named(diff.file_diffs@, id.file, f));
            }
            return None;
        },
    };
    let hunks = &diff.file_diffs[f].hunks;
    let mut h: usize = 0;
    while h < hunks.len()
        invariant
            id == meta@,
            f < diff.file_diffs@.len(),
            *hunks == diff.file_diffs@[f as int].hunks,
            first_named(diff.file_diffs@, id.file, f as int),
            h <= hunks@.len(),
            forall|g: int|
                0 <= g < h ==> (#[trigger] hunks@[g]).header.new_line_start != id.new_line,
        decreases hunks@.len() - h,
    {
        if hunks[h].header.new_line_start == meta.new_line {
            proof {
                assert(is_header_place(*diff, id, (f as int, h as int)));
                header_place_is_unique(*diff, id, (f as int, h as int));
            }
            return Some((f, h));
        }
        h += 1;
    }
    proof {
        if exists|place: (int, int)| is_header_place(*diff, id, place) {
            let place = choose|place: (int, int)| is_header_place(*diff, id, place);
            if place.0 < f {
                assert(!diff.file_diffs@[place.0].is_named(id.file));
            } else if f < place.0 {
                assert(!diff.file_diffs@[f as int].is_named(id.file));
            }
        }
    }
    None
}

} // verus!
