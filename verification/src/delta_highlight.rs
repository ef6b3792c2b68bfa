//! Hunk highlights from `delta --color-only`: what it coloured is found again in
//! the plain diff, line by line.

use crate::diff::Diff;
use crate::highlight;
use crate::highlight::HunkHighlights;
use crate::sgr;
use crate::spans::Span;
use crate::style;
use crate::style::{Color, Modifier, Style};
use crate::text;
use ansi_to_tui::IntoText;
use std::ops::Range;
use vstd::prelude::*;
use vstd::utf8::*;

verus! {

/// What delta made of a diff.
pub struct DeltaDiffHighlights {
    /// Per-line highlight spans, counted in bytes of the plain line.
    pub lines: Vec<Vec<Span>>,
    /// Byte offset of each line start in the diff.
    pub line_starts: Vec<usize>,
}

/// What the lines are.
pub open spec fn line_views(lines: Seq<Vec<Span>>) -> Seq<Seq<Span>> {
    lines.map_values(|line: Vec<Span>| line@)
}

/// Where the lines of a text start. An empty text has one line still.
pub open spec fn starts_of(text: Seq<char>) -> Seq<int> {
    if text.len() == 0 {
        seq![0]
    } else {
        Seq::new(text::lines(text).len(), |i: int| highlight::line_start(text, i))
    }
}

/// What some offsets are.
pub open spec fn offset_views(offsets: Seq<usize>) -> Seq<int> {
    offsets.map_values(|offset: usize| offset as int)
}

/// Where the lines of a text start.
pub fn compute_line_starts(text: &str) -> (starts: Vec<usize>)
    ensures
        offset_views(starts@) == starts_of(text@),
{
    let mut starts: Vec<usize> = Vec::new();
    let lines = highlight::line_range_iterator(text);
    if text::is_empty(text) {
        starts.push(0);
        proof {
            assert(offset_views(starts@) =~= starts_of(text@));
        }
        return starts;
    }
    let mut i: usize = 0;
    while i < lines.len()
        invariant
            i <= lines@.len(),
            lines@.len() == text::lines(text@).len(),
            forall|k: int|
                0 <= k < lines@.len() ==> (#[trigger] lines@[k]).0.start == highlight::line_start(
                    text@,
                    k,
                ),
            starts@.len() == i,
            forall|k: int|
                0 <= k < i ==> (#[trigger] starts@[k]) == highlight::line_start(text@, k),
        decreases lines@.len() - i,
    {
        starts.push(lines[i].0.start);
        i += 1;
    }
    proof {
        assert(offset_views(starts@) =~= starts_of(text@));
    }
    starts
}

// ---------------------------------------------------------------------------
// Finding coloured text again
// ---------------------------------------------------------------------------

/// The first place from `c` on where `needle` stands in `s`, in characters.
pub open spec fn find_from(s: Seq<char>, c: int, needle: Seq<char>) -> Option<int>
    decreases s.len() - c,
{
    if c < 0 || c + needle.len() > s.len() {
        None
    } else if needle.is_prefix_of(s.skip(c)) {
        Some(c)
    } else {
        find_from(s, c + 1, needle)
    }
}

/// The first place from the offset `from` on where `needle` stands in
/// `haystack`, in bytes. Nothing is found right away.
pub open spec fn found(haystack: Seq<char>, from: int, needle: Seq<char>) -> Option<int> {
    if needle.len() == 0 {
        Some(from)
    } else {
        match find_from(haystack, text::char_at(haystack, from), needle) {
            Some(c) => Some(text::byte_len(haystack.take(c)) as int),
            None => None,
        }
    }
}

proof fn lemma_find_from(s: Seq<char>, c: int, needle: Seq<char>)
    requires
        0 <= c <= s.len(),
    ensures
        find_from(s, c, needle) matches Some(d) ==> c <= d && d + needle.len() <= s.len() && s.subrange(
            d,
            d + needle.len(),
        ) == needle,
    decreases s.len() - c,
{
    if c + needle.len() <= s.len() {
        if needle.is_prefix_of(s.skip(c)) {
            assert(s.subrange(c, c + needle.len()) =~= needle);
        } else {
            if c < s.len() {
                lemma_find_from(s, c + 1, needle);
            } else {
                assert(needle =~= s.skip(c).subrange(0, 0));
            }
        }
    }
}

/// What is found lies in the text.
pub proof fn found_within(haystack: Seq<char>, from: int, needle: Seq<char>)
    requires
        needle.len() > 0 ==> text::boundary(haystack, from),
        0 <= from <= text::byte_len(haystack),
    ensures
        found(haystack, from, needle) matches Some(pos) ==> from <= pos && pos + text::byte_len(
            needle,
        ) <= text::byte_len(haystack) && (needle.len() > 0 ==> text::boundary(
            haystack,
            pos + text::byte_len(needle),
        )),
{
    if needle.len() > 0 {
        let c = text::char_at(haystack, from);
        text::lemma_boundary(haystack, from);
        lemma_find_from(haystack, c, needle);
        if let Some(d) = find_from(haystack, c, needle) {
            let e = d + needle.len();
            text::lemma_byte_len_take(haystack, c, d);
            text::lemma_byte_len_take(haystack, d, e);
            text::lemma_char_at(haystack, e);
        }
    } else {
        assert(needle =~= Seq::<char>::empty());
        text::lemma_byte_len_empty();
    }
}

/// The first place from the offset `from` on where `needle` stands.
pub fn find_substr(haystack: &str, from: usize, needle: &str) -> (pos: Option<usize>)
    requires
        needle@.len() > 0 ==> text::boundary(haystack@, from as int),
        from <= text::byte_len(haystack@),
    ensures
        match pos {
            Some(pos) => found(haystack@, from as int, needle@) == Some(pos as int),
            None => found(haystack@, from as int, needle@) is None,
        },
{
    if text::is_empty(needle) {
        return Some(from);
    }
    let total = text::byte_length(haystack);
    let chars = text::to_chars(haystack);
    let wanted = text::to_chars(needle);
    let ghost start = text::char_at(haystack@, from as int);
    let mut c: usize = 0;
    let mut offset: usize = 0;
    proof {
        text::lemma_boundary(haystack@, from as int);
        text::lemma_byte_len_take(haystack@, 0, 0);
    }
    while c < chars.len() && offset < from
        invariant
            c <= start <= chars@.len(),
            chars@ == haystack@,
            total == text::byte_len(haystack@),
            from == text::byte_len(haystack@.take(start)),
            offset == text::byte_len(haystack@.take(c as int)),
        decreases chars@.len() - c,
    {
        proof {
            text::lemma_byte_len_step(haystack@, c as int);
            text::lemma_byte_len_take(haystack@, c as int + 1, chars@.len() as int);
            if start <= c {
                text::lemma_byte_len_take(haystack@, start, c as int);
            }
        }
        offset += text::char_width(chars[c]);
        c += 1;
    }
    proof {
        if c < start {
            text::lemma_byte_len_take(haystack@, c as int, start);
        }
        assert(c == start);
    }
    while c < chars.len()
        invariant
            start <= c <= chars@.len(),
            chars@ == haystack@,
            wanted@ == needle@,
            needle@.len() > 0,
            total == text::byte_len(haystack@),
            offset == text::byte_len(haystack@.take(c as int)),
            start == text::char_at(haystack@, from as int),
            find_from(haystack@, start, needle@) == find_from(haystack@, c as int, needle@),
        decreases chars@.len() - c,
    {
        if text::prefix_at(&chars, c, &wanted) {
            return Some(offset);
        }
        proof {
            text::lemma_byte_len_step(haystack@, c as int);
            text::lemma_byte_len_take(haystack@, c as int + 1, chars@.len() as int);
        }
        offset += text::char_width(chars[c]);
        c += 1;
    }
    None
}

/// A stretch of coloured text.
pub type Colored = (String, Style);

/// What some coloured text is.
pub open spec fn colored_views(line: Seq<Colored>) -> Seq<(Seq<char>, Style)> {
    line.map_values(|part: Colored| (part.0@, part.1))
}

/// Where a stretch of coloured text ends up on a plain line, having got to
/// `offset`: where it is found, or right there as far as the line goes.
pub open spec fn placed(plain: Seq<char>, offset: int, part: Seq<char>) -> (int, int) {
    let length = text::byte_len(plain) as int;
    let end = offset + text::byte_len(part);
    match found(plain, offset, part) {
        Some(pos) => (pos, pos + text::byte_len(part)),
        None => (
            offset,
            if end < length {
                end
            } else {
                length
            },
        ),
    }
}

/// The span of a stretch of coloured text, if it has any colour.
pub open spec fn placed_span(plain: Seq<char>, offset: int, part: (Seq<char>, Style)) -> Seq<
    Span,
> {
    let (start, end) = placed(plain, offset, part.0);
    if part.1 != style::plain() && (found(plain, offset, part.0) is Some || start < end) {
        seq![(Range { start: start as usize, end: end as usize }, part.1)]
    } else {
        seq![]
    }
}

/// The spans of the first `n` stretches of a coloured line.
pub open spec fn placed_spans(plain: Seq<char>, line: Seq<(Seq<char>, Style)>) -> Seq<Span>
    decreases line.len(),
{
    if line.len() == 0 {
        seq![]
    } else {
        placed_spans(plain, line.drop_last()) + placed_span(
            plain,
            offset_after(plain, line.drop_last()),
            line.last(),
        )
    }
}

/// How far on the plain line some stretches of coloured text get.
pub open spec fn offset_after(plain: Seq<char>, line: Seq<(Seq<char>, Style)>) -> int
    decreases line.len(),
{
    if line.len() == 0 {
        0
    } else {
        placed(plain, offset_after(plain, line.drop_last()), line.last().0).1
    }
}

/// Whether every stretch of coloured text is looked for from between two
/// characters of the plain line.
pub open spec fn findable(plain: Seq<char>, line: Seq<(Seq<char>, Style)>) -> bool {
    forall|i: int|
        0 <= i < line.len() && line[i].0.len() > 0 ==> text::boundary(
            plain,
            #[trigger] offset_after(plain, line.take(i)),
        )
}

/// Spans without what lies past `end`.
pub open spec fn trimmed(spans: Seq<Span>, end: int) -> Seq<Span>
    decreases spans.len(),
{
    if spans.len() == 0 {
        seq![]
    } else {
        let (range, style) = spans.last();
        let front = trimmed(spans.drop_last(), end);
        if range.start < end {
            front.push(
                (
                    Range {
                        start: range.start,
                        end: if range.end > end {
                            end as usize
                        } else {
                            range.end
                        },
                    },
                    style,
                ),
            )
        } else {
            front
        }
    }
}

/// How many bytes of a plain line can be coloured: all but an `\r\n`.
pub open spec fn colorable(plain: Seq<char>) -> int {
    text::byte_len(plain) - if highlight::ends_crlf(plain) {
        2int
    } else {
        0int
    }
}

proof fn lemma_offset_within(plain: Seq<char>, line: Seq<(Seq<char>, Style)>, n: int)
    requires
        findable(plain, line),
        0 <= n <= line.len(),
    ensures
        0 <= offset_after(plain, line.take(n)) <= text::byte_len(plain),
    decreases n,
{
    if n > 0 {
        lemma_offset_within(plain, line, n - 1);
        let before = line.take(n - 1);
        assert(line.take(n).drop_last() =~= before);
        assert(line.take(n).last() == line[n - 1]);
        found_within(plain, offset_after(plain, before), line[n - 1].0);
    }
}

/// Map a coloured line back to the plain one. Colouring preserves text, so each
/// stretch is looked for from where the one before it ended.
pub fn ansi_line_to_spans(line: &Vec<Colored>, plain_line: &str) -> (spans: Vec<Span>)
    requires
        findable(plain_line@, colored_views(line@)),
    ensures
        spans@ == trimmed(
            placed_spans(plain_line@, colored_views(line@)),
            colorable(plain_line@),
        ),
{
    let ghost all = colored_views(line@);
    let ghost plain = plain_line@;
    let length = text::byte_length(plain_line);
    let mut spans: Vec<Span> = Vec::new();
    let mut offset: usize = 0;
    let mut i: usize = 0;
    proof {
        assert(all.take(0) =~= Seq::<(Seq<char>, Style)>::empty());
    }
    while i < line.len()
        invariant
            i <= line@.len(),
            all == colored_views(line@),
            plain == plain_line@,
            findable(plain, all),
            length == text::byte_len(plain),
            offset == offset_after(plain, all.take(i as int)),
            offset <= length,
            spans@ == placed_spans(plain, all.take(i as int)),
        decreases line@.len() - i,
    {
        let (part, style) = (&line[i].0, line[i].1);
        proof {
            assert(all[i as int] == (part@, style));
            assert(all.take(i + 1).drop_last() =~= all.take(i as int));
            assert(all.take(i + 1).last() == all[i as int]);
            assert(all[i as int].0.len() > 0 ==> text::boundary(
                plain,
                offset_after(plain, all.take(i as int)),
            ));
            found_within(plain, offset as int, part@);
            lemma_offset_within(plain, all, i + 1);
        }
        let part_length = text::byte_length(part.as_str());
        let ghost before = spans@;
        let ghost at = offset as int;
        match find_substr(plain_line, offset, part.as_str()) {
            Some(pos) => {
                if style != Style::new() {
                    spans.push((pos..pos + part_length, style));
                }
                offset = pos + part_length;
            },
            None => {
                // Content mismatch; use current offset as best effort.
                let end = if part_length < length - offset {
                    offset + part_length
                } else {
                    length
                };
                if style != Style::new() && offset < end {
                    spans.push((offset..end, style));
                }
                offset = end;
            },
        }
        proof {
            assert(spans@ =~= before + placed_span(plain, at, all[i as int]));
        }
        i += 1;
    }
    proof {
        assert(all.take(i as int) =~= all);
        text::lemma_byte_len_at_least(plain);
    }
    // Trim trailing \r\n ranges.
    let chars = text::to_chars(plain_line);
    let crlf = chars.len() >= 2 && chars[chars.len() - 2] == '\r' && chars[chars.len() - 1] == '\n';
    let visual_end = if crlf {
        length - 2
    } else {
        length
    };
    trim_spans(&spans, visual_end)
}

fn trim_spans(spans: &Vec<Span>, end: usize) -> (out: Vec<Span>)
    ensures
        out@ == trimmed(spans@, end as int),
{
    let mut out: Vec<Span> = Vec::new();
    let mut i: usize = 0;
    proof {
        assert(spans@.take(0) =~= Seq::<Span>::empty());
    }
    while i < spans.len()
        invariant
            i <= spans@.len(),
            out@ == trimmed(spans@.take(i as int), end as int),
        decreases spans@.len() - i,
    {
        proof {
            assert(spans@.take(i + 1).drop_last() =~= spans@.take(i as int));
            assert(spans@.take(i + 1).last() == spans@[i as int]);
        }
        let span = &spans[i];
        if span.0.start < end {
            let stop = if span.0.end > end {
                end
            } else {
                span.0.end
            };
            out.push((span.0.start..stop, span.1));
        }
        i += 1;
    }
    proof {
        assert(spans@.take(i as int) =~= spans@);
    }
    out
}

/// Whatever a coloured line says, its spans lie on the plain line.
pub proof fn spans_on_line(plain: Seq<char>, line: Seq<(Seq<char>, Style)>, i: int)
    requires
        findable(plain, line),
        0 <= i < trimmed(placed_spans(plain, line), colorable(plain)).len(),
    ensures
        trimmed(placed_spans(plain, line), colorable(plain))[i].0.start < colorable(plain),
        trimmed(placed_spans(plain, line), colorable(plain))[i].0.end <= colorable(plain),
{
    lemma_trimmed(placed_spans(plain, line), colorable(plain), i);
}

proof fn lemma_trimmed(spans: Seq<Span>, end: int, i: int)
    requires
        0 <= i < trimmed(spans, end).len(),
    ensures
        trimmed(spans, end)[i].0.start < end,
        trimmed(spans, end)[i].0.end <= end,
    decreases spans.len(),
{
    if i < trimmed(spans.drop_last(), end).len() {
        lemma_trimmed(spans.drop_last(), end, i);
    }
}

// ---------------------------------------------------------------------------
// Delta's output
// ---------------------------------------------------------------------------

/// A stretch of text as it comes out of parsing: colours by name, and modifiers
/// as bits.
#[derive(Debug)]
pub struct RawSpan {
    pub content: String,
    pub fg: Option<String>,
    pub bg: Option<String>,
    pub add_modifier: u16,
    pub sub_modifier: u16,
}

/// A stretch of text as it comes out of parsing.
#[verifier::ext_equal]
pub struct Raw {
    pub content: Seq<char>,
    pub fg: Option<Seq<char>>,
    pub bg: Option<Seq<char>>,
    pub add_modifier: u16,
    pub sub_modifier: u16,
}

pub open spec fn name_view(name: Option<String>) -> Option<Seq<char>> {
    match name {
        Some(name) => Some(name@),
        None => None,
    }
}

impl View for RawSpan {
    type V = Raw;

    open spec fn view(&self) -> Raw {
        Raw {
            content: self.content@,
            fg: name_view(self.fg),
            bg: name_view(self.bg),
            add_modifier: self.add_modifier,
            sub_modifier: self.sub_modifier,
        }
    }
}

/// What a parsed line is.
pub open spec fn raw_line(line: Seq<RawSpan>) -> Seq<Raw> {
    line.map_values(|span: RawSpan| span@)
}

/// What some parsed lines are.
pub open spec fn raw_lines(lines: Seq<Vec<RawSpan>>) -> Seq<Seq<Raw>> {
    lines.map_values(|line: Vec<RawSpan>| raw_line(line@))
}

pub open spec fn raw_text_view(text: Option<Vec<Vec<RawSpan>>>) -> Option<Seq<Seq<Raw>>> {
    match text {
        Some(lines) => Some(raw_lines(lines@)),
        None => None,
    }
}

/// What parsing makes of coloured output.
pub uninterp spec fn raw_text_of(output: Seq<u8>) -> Option<Seq<Seq<Raw>>>;

/// `ansi_to_tui::IntoText::into_text`: lines of styled spans, or `None` where it
/// reports an error. What it makes of the output goes by its name; a colour is
/// what `ratatui::style::Color` prints itself as.
#[verifier::external_body]
fn into_text(output: &[u8]) -> (text: Option<Vec<Vec<RawSpan>>>)
    ensures
        raw_text_view(text) == raw_text_of(output@),
{
    let raw = |span: ratatui::text::Span| RawSpan {
        fg: span.style.fg.map(|color| color.to_string()),
        bg: span.style.bg.map(|color| color.to_string()),
        add_modifier: span.style.add_modifier.bits(),
        sub_modifier: span.style.sub_modifier.bits(),
        content: span.content.into_owned(),
    };
    let text = output.into_text().ok()?;
    Some(text.lines.into_iter().map(|line| line.spans.into_iter().map(raw).collect()).collect())
}

/// The value of a hexadecimal digit.
pub open spec fn hex_value(c: char) -> Option<u8> {
    if '0' <= c <= '9' {
        Some((c as u8 - '0' as u8) as u8)
    } else if 'A' <= c <= 'F' {
        Some((c as u8 - 'A' as u8 + 10) as u8)
    } else {
        None
    }
}

/// The value of two hexadecimal digits.
pub open spec fn hex_byte(a: char, b: char) -> Option<u8> {
    match (hex_value(a), hex_value(b)) {
        (Some(x), Some(y)) => Some((16 * x + y) as u8),
        _ => None,
    }
}

/// The colour `#RRGGBB` spells.
pub open spec fn rgb_of(name: Seq<char>) -> Option<Color> {
    if name.len() == 7 && name[0] == '#' {
        match (
            hex_byte(name[1], name[2]),
            hex_byte(name[3], name[4]),
            hex_byte(name[5], name[6]),
        ) {
            (Some(r), Some(g), Some(b)) => Some(Color::Rgb(r, g, b)),
            _ => None,
        }
    } else {
        None
    }
}

/// The palette index a number spells.
pub open spec fn index_of(name: Seq<char>) -> Option<Color> {
    match sgr::number(encode_utf8(name)) {
        Some(n) => if n <= 255 {
            Some(Color::Indexed(n as u8))
        } else {
            None
        },
        None => None,
    }
}

/// The colour of a name.
pub open spec fn color_of(name: Seq<char>) -> Option<Color> {
    if name == "Reset"@ {
        Some(Color::Reset)
    } else if name == "Black"@ {
        Some(Color::Black)
    } else if name == "Red"@ {
        Some(Color::Red)
    } else if name == "Green"@ {
        Some(Color::Green)
    } else if name == "Yellow"@ {
        Some(Color::Yellow)
    } else if name == "Blue"@ {
        Some(Color::Blue)
    } else if name == "Magenta"@ {
        Some(Color::Magenta)
    } else if name == "Cyan"@ {
        Some(Color::Cyan)
    } else if name == "Gray"@ {
        Some(Color::Gray)
    } else if name == "DarkGray"@ {
        Some(Color::DarkGray)
    } else if name == "LightRed"@ {
        Some(Color::LightRed)
    } else if name == "LightGreen"@ {
        Some(Color::LightGreen)
    } else if name == "LightYellow"@ {
        Some(Color::LightYellow)
    } else if name == "LightBlue"@ {
        Some(Color::LightBlue)
    } else if name == "LightMagenta"@ {
        Some(Color::LightMagenta)
    } else if name == "LightCyan"@ {
        Some(Color::LightCyan)
    } else if name == "White"@ {
        Some(Color::White)
    } else if rgb_of(name) is Some {
        rgb_of(name)
    } else {
        index_of(name)
    }
}

fn hex_digit(c: char) -> (value: Option<u8>)
    ensures
        value == hex_value(c),
        value matches Some(v) ==> v < 16,
{
    let code: u32 = c as u32;
    if '0' <= c && c <= '9' {
        Some((code - 48) as u8)
    } else if 'A' <= c && c <= 'F' {
        Some((code - 65 + 10) as u8)
    } else {
        None
    }
}

fn hex_pair(a: char, b: char) -> (value: Option<u8>)
    ensures
        value == hex_byte(a, b),
{
    match (hex_digit(a), hex_digit(b)) {
        (Some(x), Some(y)) => Some(16 * x + y),
        _ => None,
    }
}

fn parse_rgb(name: &str) -> (color: Option<Color>)
    ensures
        color == rgb_of(name@),
{
    let chars = text::to_chars(name);
    if chars.len() == 7 && chars[0] == '#' {
        match (
            hex_pair(chars[1], chars[2]),
            hex_pair(chars[3], chars[4]),
            hex_pair(chars[5], chars[6]),
        ) {
            (Some(r), Some(g), Some(b)) => Some(Color::Rgb(r, g, b)),
            _ => None,
        }
    } else {
        None
    }
}

fn parse_index(name: &str) -> (color: Option<Color>)
    ensures
        color == index_of(name@),
{
    match sgr::parse_u32(name.as_bytes()) {
        Some(n) => if n <= 255 {
            Some(Color::Indexed(n as u8))
        } else {
            None
        },
        None => None,
    }
}

/// The colour of a name.
pub fn parse_color(name: &str) -> (color: Option<Color>)
    ensures
        color == color_of(name@),
{
    if text::same_text(name, "Reset") {
        Some(Color::Reset)
    } else if text::same_text(name, "Black") {
        Some(Color::Black)
    } else if text::same_text(name, "Red") {
        Some(Color::Red)
    } else if text::same_text(name, "Green") {
        Some(Color::Green)
    } else if text::same_text(name, "Yellow") {
        Some(Color::Yellow)
    } else if text::same_text(name, "Blue") {
        Some(Color::Blue)
    } else if text::same_text(name, "Magenta") {
        Some(Color::Magenta)
    } else if text::same_text(name, "Cyan") {
        Some(Color::Cyan)
    } else if text::same_text(name, "Gray") {
        Some(Color::Gray)
    } else if text::same_text(name, "DarkGray") {
        Some(Color::DarkGray)
    } else if text::same_text(name, "LightRed") {
        Some(Color::LightRed)
    } else if text::same_text(name, "LightGreen") {
        Some(Color::LightGreen)
    } else if text::same_text(name, "LightYellow") {
        Some(Color::LightYellow)
    } else if text::same_text(name, "LightBlue") {
        Some(Color::LightBlue)
    } else if text::same_text(name, "LightMagenta") {
        Some(Color::LightMagenta)
    } else if text::same_text(name, "LightCyan") {
        Some(Color::LightCyan)
    } else if text::same_text(name, "White") {
        Some(Color::White)
    } else {
        match parse_rgb(name) {
            Some(color) => Some(color),
            None => parse_index(name),
        }
    }
}

/// The colour of a name, if there is a name.
pub open spec fn maybe_color(name: Option<Seq<char>>) -> Option<Color> {
    match name {
        Some(name) => color_of(name),
        None => None,
    }
}

/// A parsed stretch of text and how it is drawn.
pub open spec fn colored(raw: Raw) -> (Seq<char>, Style) {
    (
        raw.content,
        Style {
            fg: maybe_color(raw.fg),
            bg: maybe_color(raw.bg),
            add_modifier: Modifier { bits: raw.add_modifier },
            sub_modifier: Modifier { bits: raw.sub_modifier },
        },
    )
}

/// A parsed line, and how it is drawn.
pub open spec fn colored_line(line: Seq<Raw>) -> Seq<(Seq<char>, Style)> {
    line.map_values(|raw: Raw| colored(raw))
}

fn parse_name(name: &Option<String>) -> (color: Option<Color>)
    ensures
        color == maybe_color(name_view(*name)),
{
    match name {
        Some(name) => parse_color(name.as_str()),
        None => None,
    }
}

/// A parsed line, and how it is drawn.
pub fn color_line(line: &Vec<RawSpan>) -> (out: Vec<Colored>)
    ensures
        colored_views(out@) == colored_line(raw_line(line@)),
{
    let mut out: Vec<Colored> = Vec::new();
    let mut i: usize = 0;
    while i < line.len()
        invariant
            i <= line@.len(),
            out@.len() == i,
            forall|k: int|
                0 <= k < i ==> ((#[trigger] out@[k]).0@, out@[k].1) == colored(line@[k]@),
        decreases line@.len() - i,
    {
        let raw = &line[i];
        let style = Style {
            fg: parse_name(&raw.fg),
            bg: parse_name(&raw.bg),
            add_modifier: Modifier { bits: raw.add_modifier },
            sub_modifier: Modifier { bits: raw.sub_modifier },
        };
        out.push((raw.content.clone(), style));
        i += 1;
    }
    proof {
        assert(colored_views(out@) =~= colored_line(raw_line(line@)));
    }
    out
}

/// Delta's output as lines of coloured text, or `None` if it can't be parsed.
pub fn styled_lines(output: &[u8]) -> (lines: Option<Vec<Vec<Colored>>>)
    ensures
        match lines {
            Some(lines) => raw_text_of(output@) is Some && text_views(lines@) == raw_text_of(
                output@,
            )->0.map_values(|line: Seq<Raw>| colored_line(line)),
            None => raw_text_of(output@) is None,
        },
{
    let raw = match into_text(output) {
        Some(raw) => raw,
        None => {
            return None;
        },
    };
    let mut lines: Vec<Vec<Colored>> = Vec::new();
    let mut i: usize = 0;
    while i < raw.len()
        invariant
            i <= raw@.len(),
            lines@.len() == i,
            forall|k: int|
                0 <= k < i ==> colored_views((#[trigger] lines@[k])@) == colored_line(
                    raw_line(raw@[k]@),
                ),
        decreases raw@.len() - i,
    {
        lines.push(color_line(&raw[i]));
        i += 1;
    }
    proof {
        assert(text_views(lines@) =~= raw_lines(raw@).map_values(
            |line: Seq<Raw>| colored_line(line),
        ));
    }
    Some(lines)
}

/// What some coloured lines are.
pub open spec fn text_views(lines: Seq<Vec<Colored>>) -> Seq<Seq<(Seq<char>, Style)>> {
    lines.map_values(|line: Vec<Colored>| colored_views(line@))
}

/// The `i`th line of a diff without its newline; past the end there is nothing
/// on a line.
pub open spec fn plain_line(diff_text: Seq<char>, i: int) -> Seq<char> {
    let lines = text::lines(diff_text);
    if 0 <= i < lines.len() {
        if lines[i].last() == '\n' {
            lines[i].drop_last()
        } else {
            lines[i]
        }
    } else {
        seq![]
    }
}

/// Whether the stretches of every coloured line can be looked for in the diff.
pub open spec fn all_findable(diff_text: Seq<char>, lines: Seq<Seq<(Seq<char>, Style)>>) -> bool {
    forall|i: int|
        0 <= i < lines.len() ==> findable(plain_line(diff_text, i), #[trigger] lines[i])
}

/// The spans of each line of a diff, as it was coloured.
pub open spec fn spans_by_line(diff_text: Seq<char>, lines: Seq<Seq<(Seq<char>, Style)>>) -> Seq<
    Seq<Span>,
> {
    Seq::new(
        lines.len(),
        |i: int|
            trimmed(
                placed_spans(plain_line(diff_text, i), lines[i]),
                colorable(plain_line(diff_text, i)),
            ),
    )
}

/// The lines of a diff without their newlines.
fn plain_lines<'a>(diff_text: &'a str) -> (lines: Vec<&'a str>)
    ensures
        lines@.len() == text::lines(diff_text@).len(),
        forall|i: int|
            0 <= i < lines@.len() ==> (#[trigger] lines@[i])@ == plain_line(diff_text@, i),
{
    let whole = text::split_lines(diff_text);
    let ghost all = text::lines(diff_text@);
    proof {
        text::lemma_lines_concat(diff_text@);
        assert(whole@.len() == text::views(whole@).len());
    }
    let mut lines: Vec<&'a str> = Vec::new();
    let mut i: usize = 0;
    while i < whole.len()
        invariant
            i <= whole@.len(),
            all == text::lines(diff_text@),
            text::views(whole@) == all,
            whole@.len() == all.len(),
            forall|k: int| 0 <= k < all.len() ==> #[trigger] all[k].len() > 0,
            lines@.len() == i,
            forall|k: int| 0 <= k < i ==> (#[trigger] lines@[k])@ == plain_line(diff_text@, k),
        decreases whole@.len() - i,
    {
        let line = whole[i];
        proof {
            assert(all[i as int] == line@);
            assert(all[i as int].len() > 0);
        }
        lines.push(without_newline(line));
        i += 1;
    }
    lines
}

fn without_newline<'a>(line: &'a str) -> (plain: &'a str)
    requires
        line@.len() > 0,
    ensures
        plain@ == (if line@.last() == '\n' {
            line@.drop_last()
        } else {
            line@
        }),
{
    let chars = text::to_chars(line);
    if chars[chars.len() - 1] == '\n' {
        let n = text::byte_length(line);
        proof {
            let last = line@.len() - 1;
            text::lemma_byte_len_step(line@, last);
            assert(line@.take(last + 1) =~= line@);
            assert(text::width('\n') == 1);
            text::lemma_char_at(line@, last);
            text::lemma_boundary_ends(line@);
            assert(line@.subrange(0, last) =~= line@.drop_last());
        }
        text::str_slice(line, 0, n - 1)
    } else {
        line
    }
}

/// Whether every stretch of a coloured line is looked for from between two
/// characters of the plain one.
fn is_findable(line: &Vec<Colored>, plain_line: &str) -> (is: bool)
    ensures
        is == findable(plain_line@, colored_views(line@)),
{
    let ghost all = colored_views(line@);
    let ghost plain = plain_line@;
    let length = text::byte_length(plain_line);
    let mut offset: usize = 0;
    let mut i: usize = 0;
    proof {
        assert(all.take(0) =~= Seq::<(Seq<char>, Style)>::empty());
    }
    while i < line.len()
        invariant
            i <= line@.len(),
            all == colored_views(line@),
            plain == plain_line@,
            length == text::byte_len(plain),
            offset == offset_after(plain, all.take(i as int)),
            offset <= length,
            findable(plain, all.take(i as int)),
        decreases line@.len() - i,
    {
        let part = &line[i].0;
        proof {
            assert(all[i as int].0 == part@);
            assert(all.take(i + 1).drop_last() =~= all.take(i as int));
            assert(all.take(i + 1).last() == all[i as int]);
        }
        if !text::is_empty(part.as_str()) && !text::at_boundary(plain_line, offset) {
            proof {
                assert(!text::boundary(plain, offset_after(plain, all.take(i as int))));
            }
            return false;
        }
        proof {
            found_within(plain, offset as int, part@);
            assert forall|k: int|
                0 <= k < i + 1 && all.take(i + 1)[k].0.len() > 0 implies text::boundary(
                plain,
                #[trigger] offset_after(plain, all.take(i + 1).take(k)),
            ) by {
                assert(all.take(i + 1).take(k) =~= all.take(k));
                if k < i {
                    assert(all.take(i as int).take(k) =~= all.take(k));
                    assert(all.take(i as int)[k] == all[k]);
                }
            }
        }
        let part_length = text::byte_length(part.as_str());
        offset =
        match find_substr(plain_line, offset, part.as_str()) {
            Some(pos) => pos + part_length,
            None => if part_length < length - offset {
                offset + part_length
            } else {
                length
            },
        };
        i += 1;
    }
    proof {
        assert(all.take(i as int) =~= all);
    }
    true
}

/// The spans of each line of a diff, as it was coloured. `None` if some stretch
/// would have to be looked for from inside a character.
pub fn map_lines(lines: &Vec<Vec<Colored>>, diff_text: &str) -> (spans: Option<Vec<Vec<Span>>>)
    ensures
        match spans {
            Some(spans) => all_findable(diff_text@, text_views(lines@)) && line_views(spans@)
                == spans_by_line(diff_text@, text_views(lines@)),
            None => !all_findable(diff_text@, text_views(lines@)),
        },
{
    let diff_lines = plain_lines(diff_text);
    let ghost all = text_views(lines@);
    let mut out: Vec<Vec<Span>> = Vec::new();
    let mut i: usize = 0;
    while i < lines.len()
        invariant
            i <= lines@.len(),
            all == text_views(lines@),
            diff_lines@.len() == text::lines(diff_text@).len(),
            forall|k: int|
                0 <= k < diff_lines@.len() ==> (#[trigger] diff_lines@[k])@ == plain_line(
                    diff_text@,
                    k,
                ),
            forall|k: int|
                0 <= k < i ==> findable(plain_line(diff_text@, k), #[trigger] all[k]),
            out@.len() == i,
            forall|k: int|
                0 <= k < i ==> (#[trigger] out@[k])@ == spans_by_line(diff_text@, all)[k],
        decreases lines@.len() - i,
    {
        let plain = if i < diff_lines.len() {
            diff_lines[i]
        } else {
            ""
        };
        proof {
            reveal_strlit("");
            assert(plain@ =~= plain_line(diff_text@, i as int));
            assert(all[i as int] == colored_views(lines@[i as int]@));
        }
        if !is_findable(&lines[i], plain) {
            return None;
        }
        out.push(ansi_line_to_spans(&lines[i], plain));
        i += 1;
    }
    proof {
        assert(line_views(out@) =~= spans_by_line(diff_text@, all));
    }
    Some(out)
}

/// As many lines without spans as there are line starts.
fn empty_lines(n: usize) -> (lines: Vec<Vec<Span>>)
    ensures
        line_views(lines@) == Seq::new(n as nat, |i: int| Seq::<Span>::empty()),
{
    let mut lines: Vec<Vec<Span>> = Vec::new();
    let mut i: usize = 0;
    while i < n
        invariant
            i <= n,
            lines@.len() == i,
            forall|k: int| 0 <= k < i ==> (#[trigger] lines@[k])@ == Seq::<Span>::empty(),
        decreases n - i,
    {
        lines.push(Vec::new());
        i += 1;
    }
    proof {
        assert(line_views(lines@) =~= Seq::new(n as nat, |i: int| Seq::<Span>::empty()));
    }
    lines
}

/// The coloured lines of delta's output, if it can be parsed.
pub open spec fn delta_lines(output: Seq<u8>) -> Option<Seq<Seq<(Seq<char>, Style)>>> {
    match raw_text_of(output) {
        Some(lines) => Some(lines.map_values(|line: Seq<Raw>| colored_line(line))),
        None => None,
    }
}

/// The spans of each line of a diff, as delta coloured it: none at all if its
/// output can't be parsed. `None` if some stretch of it would have to be looked
/// for from inside a character of the diff.
pub fn parse_ansi_lines(ansi_output: &[u8], diff_text: &str) -> (spans: Option<Vec<Vec<Span>>>)
    ensures
        ({
            let lines = delta_lines(ansi_output@);
            match spans {
                Some(spans) => if lines is Some {
                    all_findable(diff_text@, lines->0) && line_views(spans@) == spans_by_line(
                        diff_text@,
                        lines->0,
                    )
                } else {
                    line_views(spans@) == Seq::new(
                        starts_of(diff_text@).len(),
                        |i: int| Seq::<Span>::empty(),
                    )
                },
                None => lines is Some && !all_findable(diff_text@, lines->0),
            }
        }),
{
    match styled_lines(ansi_output) {
        Some(lines) => map_lines(&lines, diff_text),
        None => {
            let starts = compute_line_starts(diff_text);
            proof {
                assert(starts@.len() == offset_views(starts@).len());
            }
            Some(empty_lines(starts.len()))
        },
    }
}

/// Highlights for a diff delta was not able to colour: none on any line.
pub fn build_highlights_from_text(text: &str) -> (highlights: DeltaDiffHighlights)
    ensures
        offset_views(highlights.line_starts@) == starts_of(text@),
        line_views(highlights.lines@) == Seq::new(
            starts_of(text@).len(),
            |i: int| Seq::<Span>::empty(),
        ),
{
    let line_starts = compute_line_starts(text);
    proof {
        assert(line_starts@.len() == offset_views(line_starts@).len());
    }
    let lines = empty_lines(line_starts.len());
    DeltaDiffHighlights { lines, line_starts }
}

/// Highlights for a diff, given what delta printed for it, or that it failed.
pub fn delta_highlight_diff(output: Option<&[u8]>, diff_text: &str) -> (highlights: Option<
    DeltaDiffHighlights,
>)
    ensures
        ({
            let lines = if output is Some {
                delta_lines(output->0@)
            } else {
                None
            };
            match highlights {
                Some(highlights) => {
                    &&& offset_views(highlights.line_starts@) == starts_of(diff_text@)
                    &&& line_views(highlights.lines@) == (if lines is Some {
                        spans_by_line(diff_text@, lines->0)
                    } else {
                        Seq::new(starts_of(diff_text@).len(), |i: int| Seq::<Span>::empty())
                    })
                    &&& lines is Some ==> all_findable(diff_text@, lines->0)
                },
                None => lines is Some && !all_findable(diff_text@, lines->0),
            }
        }),
{
    match output {
        Some(output) => match parse_ansi_lines(output, diff_text) {
            Some(lines) => Some(
                DeltaDiffHighlights { lines, line_starts: compute_line_starts(diff_text) },
            ),
            None => None,
        },
        None => Some(build_highlights_from_text(diff_text)),
    }
}

/// How many of some offsets are below another. Line starts grow, so that is the
/// first line that starts there or later.
pub open spec fn starts_below(starts: Seq<usize>, offset: int) -> int
    decreases starts.len(),
{
    if starts.len() == 0 || starts[0] >= offset {
        0
    } else {
        1 + starts_below(starts.drop_first(), offset)
    }
}

fn partition_point(starts: &Vec<usize>, offset: usize) -> (n: usize)
    ensures
        n == starts_below(starts@, offset as int),
        n <= starts@.len(),
{
    let mut n: usize = 0;
    proof {
        assert(starts@.skip(0) =~= starts@);
    }
    while n < starts.len()
        invariant
            n <= starts@.len(),
            n + starts_below(starts@.skip(n as int), offset as int) == starts_below(
                starts@,
                offset as int,
            ),
        decreases starts@.len() - n,
    {
        proof {
            assert(starts@.skip(n as int).drop_first() =~= starts@.skip(n + 1));
        }
        if starts[n] >= offset {
            return n;
        }
        n += 1;
    }
    n
}

/// Highlight a hunk with what delta made of the whole diff: the lines that start
/// in the hunk, each with its spans. A hunk no line starts in has none.
pub fn highlight_hunk_with_delta(
    delta: &DeltaDiffHighlights,
    diff: &Diff,
    file_i: usize,
    hunk_i: usize,
) -> (highlights: HunkHighlights)
    requires
        diff.has_hunk(file_i as int, hunk_i as int),
        ({
            let range = diff.file_diffs@[file_i as int].hunks@[hunk_i as int].content.range;
            let first = starts_below(delta.line_starts@, range.start as int);
            let end = starts_below(delta.line_starts@, range.end as int);
            first < end ==> end <= delta.lines@.len()
        }),
    ensures
        highlights.wf(),
        ({
            let range = diff.file_diffs@[file_i as int].hunks@[hunk_i as int].content.range;
            let first = starts_below(delta.line_starts@, range.start as int);
            let end = starts_below(delta.line_starts@, range.end as int);
            highlights.lines() == (if first < end {
                line_views(delta.lines@).subrange(first, end)
            } else {
                seq![]
            })
        }),
{
    let range = &diff.file_diffs[file_i].hunks[hunk_i].content.range;
    let first = partition_point(&delta.line_starts, range.start);
    let end = partition_point(&delta.line_starts, range.end);
    let mut highlights = HunkHighlights::new();
    let ghost all = line_views(delta.lines@);
    let mut i: usize = first;
    if first >= end {
        return highlights;
    }
    proof {
        assert(highlights.lines() =~= all.subrange(first as int, first as int));
    }
    while i < end
        invariant
            first <= i <= end <= delta.lines@.len(),
            all == line_views(delta.lines@),
            highlights.wf(),
            highlights.lines() == all.subrange(first as int, i as int),
        decreases end - i,
    {
        highlights.push_segments(&delta.lines[i]);
        proof {
            assert(all.subrange(first as int, i + 1) =~= all.subrange(
                first as int,
                i as int,
            ).push(delta.lines@[i as int]@));
        }
        i += 1;
    }
    highlights
}

} // verus!
