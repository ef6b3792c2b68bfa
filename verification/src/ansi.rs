//! Terminal output as the events an escape-sequence parser makes of it, and the
//! pen that draws those events as styled text.

use crate::sgr;
use crate::spans;
use crate::spans::Span;
use crate::style;
use crate::style::Style;
use crate::text;
use anstyle_parse::{DefaultCharAccumulator, Params, Parser, Perform};
use std::ops::Range;
use vstd::prelude::*;

verus! {

/// One thing a terminal would do.
#[derive(Debug)]
pub enum AnsiEvent {
    /// Draw a character.
    Print(char),
    /// Obey a control character.
    Execute(u8),
    /// A control sequence: its parameters, and the byte that ends it.
    Csi(Vec<u16>, u8),
    /// An operating system command: its fields.
    Osc(Vec<Vec<u8>>),
}

/// One thing a terminal would do.
#[verifier::ext_equal]
pub enum Event {
    Print(char),
    Execute(u8),
    Csi(Seq<u16>, u8),
    Osc(Seq<Seq<u8>>),
}

/// What the fields of a command are.
pub open spec fn field_views(fields: Seq<Vec<u8>>) -> Seq<Seq<u8>> {
    fields.map_values(|field: Vec<u8>| field@)
}

impl View for AnsiEvent {
    type V = Event;

    open spec fn view(&self) -> Event {
        match *self {
            AnsiEvent::Print(c) => Event::Print(c),
            AnsiEvent::Execute(byte) => Event::Execute(byte),
            AnsiEvent::Csi(params, action) => Event::Csi(params@, action),
            AnsiEvent::Osc(fields) => Event::Osc(field_views(fields@)),
        }
    }
}

/// What some events are.
pub open spec fn event_views(events: Seq<AnsiEvent>) -> Seq<Event> {
    events.map_values(|event: AnsiEvent| event@)
}

/// `anstyle_parse::Params`: the parameters of a control sequence.
#[verifier::external_type_specification]
#[verifier::external_body]
pub struct ExParams(Params);

/// The parameters of a control sequence with their subparameters, in order.
pub uninterp spec fn param_values(params: Params) -> Seq<u16>;

/// `Params::iter`: every parameter and subparameter, in order.
#[verifier::external_body]
fn params_of(params: &Params) -> (values: Vec<u16>)
    ensures
        values@ == param_values(*params),
{
    params.iter().flatten().copied().collect()
}

/// Takes down what a parser asks for.
pub struct Recorder {
    pub events: Vec<AnsiEvent>,
}

impl Perform for Recorder {
    fn print(&mut self, c: char)
        ensures
            event_views(final(self).events@) == event_views(old(self).events@).push(
                Event::Print(c),
            ),
    {
        self.events.push(AnsiEvent::Print(c));
        proof {
            assert(event_views(self.events@) =~= event_views(old(self).events@).push(
                Event::Print(c),
            ));
        }
    }

    fn execute(&mut self, byte: u8)
        ensures
            event_views(final(self).events@) == event_views(old(self).events@).push(
                Event::Execute(byte),
            ),
    {
        self.events.push(AnsiEvent::Execute(byte));
        proof {
            assert(event_views(self.events@) =~= event_views(old(self).events@).push(
                Event::Execute(byte),
            ));
        }
    }

    fn csi_dispatch(&mut self, params: &Params, _intermediates: &[u8], _ignore: bool, action: u8)
        ensures
            event_views(final(self).events@) == event_views(old(self).events@).push(
                Event::Csi(param_values(*params), action),
            ),
    {
        self.events.push(AnsiEvent::Csi(params_of(params), action));
        proof {
            assert(event_views(self.events@) =~= event_views(old(self).events@).push(
                Event::Csi(param_values(*params), action),
            ));
        }
    }

    fn osc_dispatch(&mut self, params: &[&[u8]], _bell_terminated: bool)
        ensures
            event_views(final(self).events@) == event_views(old(self).events@).push(
                Event::Osc(params@.map_values(|field: &[u8]| field@)),
            ),
    {
        let mut fields: Vec<Vec<u8>> = Vec::new();
        let mut i: usize = 0;
        while i < params.len()
            invariant
                i <= params@.len(),
                fields@.len() == i,
                forall|k: int| 0 <= k < i ==> (#[trigger] fields@[k])@ == params@[k]@,
            decreases params@.len() - i,
        {
            fields.push(vstd::slice::slice_to_vec(params[i]));
            i += 1;
        }
        proof {
            assert(field_views(fields@) =~= params@.map_values(|field: &[u8]| field@));
        }
        self.events.push(AnsiEvent::Osc(fields));
        proof {
            assert(event_views(self.events@) =~= event_views(old(self).events@).push(
                Event::Osc(params@.map_values(|field: &[u8]| field@)),
            ));
        }
    }
}

/// Whether a character can be on a line: it is no control character below the blank.
pub open spec fn drawable(c: char) -> bool {
    c as u32 >= 0x20
}

/// Whether only such characters are drawn.
pub open spec fn draws_text(events: Seq<Event>) -> bool {
    forall|i: int|
        0 <= i < events.len() ==> ((#[trigger] events[i]) matches Event::Print(c) ==> drawable(c))
}

/// What a terminal would do with some output.
pub uninterp spec fn events_of(output: Seq<char>) -> Seq<Event>;

/// `anstyle_parse::Parser::advance`, over every byte of `output`: the printed
/// characters, control characters, control sequences and operating system
/// commands, in order. What else a terminal is told is left out. A byte below the
/// blank is never printed: it is a control character, or part of a sequence.
#[verifier::external_body]
pub(crate) fn ansi_events(output: &str) -> (events: Vec<AnsiEvent>)
    ensures
        event_views(events@) == events_of(output@),
        draws_text(event_views(events@)),
{
    let mut recorder = Recorder { events: Vec::new() };
    let mut parser = Parser::<DefaultCharAccumulator>::new();
    for &byte in output.as_bytes() {
        parser.advance(&mut recorder, byte);
    }
    recorder.events
}

// ---------------------------------------------------------------------------
// Drawing
// ---------------------------------------------------------------------------

/// The line being drawn, and the style it is drawn in.
pub struct Pen {
    pub style: Style,
    pub text: String,
    /// The runs drawn so far.
    pub runs: Vec<Span>,
    /// Start offset and style of the run being drawn.
    pub open: Option<(usize, Style)>,
}

/// The line being drawn, and the style it is drawn in.
#[verifier::ext_equal]
pub struct Drawn {
    pub style: Style,
    pub text: Seq<char>,
    pub runs: Seq<Span>,
    pub open: Option<(usize, Style)>,
}

impl View for Pen {
    type V = Drawn;

    open spec fn view(&self) -> Drawn {
        Drawn { style: self.style, text: self.text@, runs: self.runs@, open: self.open }
    }
}

/// A pen that has drawn nothing yet.
pub open spec fn clean() -> Drawn {
    Drawn { style: style::plain(), text: seq![], runs: seq![], open: None }
}

impl Drawn {
    /// The offset the next character goes to.
    pub open spec fn end(self) -> usize {
        text::byte_len(self.text) as usize
    }

    /// With the run being drawn, if there is one, drawn up to here.
    pub open spec fn lifted(self) -> Drawn {
        match self.open {
            Some((start, style)) => Drawn {
                runs: self.runs.push((Range { start, end: self.end() }, style)),
                open: None,
                ..self
            },
            None => self,
        }
    }

    /// With one character more. A run goes on for as long as the style stays
    /// the same.
    pub open spec fn printed(self, c: char) -> Drawn {
        let begun = match self.open {
            Some((_, style)) if style == self.style => self,
            _ => Drawn { open: Some((self.end(), self.style)), ..self.lifted() },
        };
        Drawn { text: self.text.push(c), ..begun }
    }
}

/// Whether runs tile a text, breaking it between characters only.
pub open spec fn tile_text(runs: Seq<Span>, text: Seq<char>, upto: int) -> bool {
    &&& spans::tiles(runs, 0, upto)
    &&& forall|i: int|
        0 <= i < runs.len() ==> text::boundary(text, (#[trigger] runs[i]).0.start as int)
            && text::boundary(text, runs[i].0.end as int)
}

impl Pen {
    /// The runs cover the text up to where the one being drawn started.
    pub open spec fn wf(&self) -> bool {
        match self.open {
            Some((start, _)) => tile_text(self.runs@, self.text@, start as int)
                && text::boundary(self.text@, start as int) && start < text::byte_len(self.text@),
            None => tile_text(self.runs@, self.text@, text::byte_len(self.text@) as int),
        }
    }

    pub fn new() -> (pen: Pen)
        ensures
            pen@ == clean(),
            pen.wf(),
    {
        proof {
            text::lemma_byte_len_empty();
        }
        let pen = Pen { style: Style::new(), text: String::new(), runs: Vec::new(), open: None };
        assert(pen.text@ =~= Seq::<char>::empty());
        pen
    }

    /// End the run being drawn, if there is one.
    pub fn lift(&mut self)
        requires
            old(self).wf(),
        ensures
            final(self)@ == old(self)@.lifted(),
            final(self).wf(),
    {
        if let Some((start, style)) = self.open {
            let end = text::byte_length(self.text.as_str());
            self.runs.push((start..end, style));
            self.open = None;
            proof {
                text::lemma_boundary_ends(self.text@);
                let runs = self.runs@;
                let n = runs.len() - 1;
                assert forall|i: int, j: int| 0 <= i < j < runs.len() implies (
                #[trigger] runs[i]).0.end <= (#[trigger] runs[j]).0.start by {
                    if i < n - 1 {
                        assert(runs[i].0.end <= runs[n - 1].0.start);
                        assert(runs[n - 1].0.start < runs[n - 1].0.end);
                    }
                }
            }
        }
    }

    /// Draw a character.
    pub fn print(&mut self, c: char)
        requires
            old(self).wf(),
        ensures
            final(self)@ == old(self)@.printed(c),
            final(self).wf(),
    {
        let goes_on = match self.open {
            Some((_, style)) => style == self.style,
            None => false,
        };
        if !goes_on {
            self.lift();
            let at = text::byte_length(self.text.as_str());
            self.open = Some((at, self.style));
        }
        proof {
            text::lemma_boundary_ends(self.text@);
            text::lemma_boundary_push(self.text@, c);
            text::lemma_byte_len_push(self.text@, c);
            text::lemma_width(c);
        }
        self.text.push(c);
        proof {
            assert forall|i: int| 0 <= i < self.runs@.len() implies text::boundary(
                self.text@,
                (#[trigger] self.runs@[i]).0.start as int,
            ) && text::boundary(self.text@, self.runs@[i].0.end as int) by {}
        }
    }

    /// Obey an SGR parameter list.
    pub fn set_style(&mut self, codes: &[u16])
        requires
            old(self).wf(),
        ensures
            final(self)@ == (Drawn { style: sgr::sgr(old(self).style, codes@), ..old(self)@ }),
            final(self).wf(),
    {
        sgr::apply_sgr(&mut self.style, codes);
    }

    /// Hand over the text and the runs, and start a new line in the same style.
    pub fn take_line(&mut self) -> (line: (String, Vec<Span>))
        requires
            old(self).wf(),
            old(self).open is None,
        ensures
            line.0@ == old(self).text@,
            line.1@ == old(self).runs@,
            final(self)@ == (Drawn { style: old(self).style, ..clean() }),
            final(self).wf(),
    {
        let mut text = String::new();
        let mut runs: Vec<Span> = Vec::new();
        std::mem::swap(&mut text, &mut self.text);
        std::mem::swap(&mut runs, &mut self.runs);
        proof {
            text::lemma_byte_len_empty();
            assert(self.text@ =~= Seq::<char>::empty());
        }
        (text, runs)
    }
}

} // verus!
