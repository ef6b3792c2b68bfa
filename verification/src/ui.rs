//! Laying out what is drawn: lines being typed, links, separators, and the rows
//! of a screen.

use crate::item;
use crate::item::RenderedRow;
use crate::screen::{ItemView, Screen};
use crate::style;
use crate::style::{Modifier, Style};
use crate::text;
use unicode_segmentation::UnicodeSegmentation;
use vstd::prelude::*;

verus! {

/// What the cursor is drawn as where there is no character to draw it on.
pub const CARET: &'static str = "\u{2588}";

/// What separators are drawn with.
pub const DASHES: &'static str =
    "────────────────────────────────────────────────────────────────";

// ---------------------------------------------------------------------------
// Graphemes
// ---------------------------------------------------------------------------

/// The user-perceived characters of a text.
pub uninterp spec fn graphemes_of(s: Seq<char>) -> Seq<Seq<char>>;

/// `UnicodeSegmentation::graphemes`, of extended grapheme clusters: the clusters go
/// by a name. They are the text cut into pieces, none of them empty.
#[verifier::external_body]
fn graphemes(s: &str) -> (parts: Vec<String>)
    ensures
        text::string_views(parts@) == graphemes_of(s@),
        text::string_views(parts@).flatten() == s@,
        forall|i: int| 0 <= i < parts@.len() ==> (#[trigger] parts@[i])@.len() > 0,
{
    s.graphemes(true).map(|part| part.to_owned()).collect()
}

/// So many of some pieces, or all where there are fewer.
pub open spec fn at_most<T>(parts: Seq<T>, count: int) -> Seq<T> {
    if count < parts.len() {
        parts.take(count)
    } else {
        parts
    }
}

/// The first so many pieces of a text, put together.
pub fn join_first(parts: &Vec<String>, wanted: usize) -> (out: String)
    ensures
        out@ == at_most(text::string_views(parts@), wanted as int).flatten(),
{
    let ghost all = text::string_views(parts@);
    let count: usize = if wanted < parts.len() {
        wanted
    } else {
        parts.len()
    };
    proof {
        assert(at_most(all, wanted as int) =~= all.take(count as int));
    }
    let mut out = String::new();
    let mut i: usize = 0;
    proof {
        assert(all.take(0) =~= Seq::<Seq<char>>::empty());
        assert(all.take(0).flatten() =~= seq![]);
        assert(out@ =~= seq![]);
    }
    while i < count
        invariant
            i <= count <= parts@.len(),
            all == text::string_views(parts@),
            out@ == all.take(i as int).flatten(),
        decreases count - i,
    {
        proof {
            all.take(i as int).lemma_flatten_push(parts@[i as int]@);
            assert(all.take(i + 1) =~= all.take(i as int).push(parts@[i as int]@));
        }
        out.push_str(parts[i].as_str());
        i += 1;
    }
    out
}

// ---------------------------------------------------------------------------
// Links
// ---------------------------------------------------------------------------

/// What a link starts with, before the place it leads to.
pub const LINK_START: &'static str = "\x1b]8;;";

/// What ends an escape sequence.
pub const LINK_STOP: &'static str = "\x1b\\";

/// What a link ends with.
pub const LINK_END: &'static str = "\x1b]8;;\x1b\\";

/// A text that leads somewhere.
pub open spec fn link(shown: Seq<char>, uri: Seq<char>) -> Seq<char> {
    LINK_START@ + uri + LINK_STOP@ + shown + LINK_END@
}

/// A text that leads somewhere.
pub fn osc8_hyperlink(shown: &str, uri: &str) -> (out: String)
    ensures
        out@ == link(shown@, uri@),
{
    let mut out = LINK_START.to_owned();
    out.push_str(uri);
    out.push_str(LINK_STOP);
    out.push_str(shown);
    out.push_str(LINK_END);
    out
}

/// Where a text leads and what is shown of it: everything up to the first end of an
/// escape sequence, and from there up to the end of the link.
pub open spec fn is_link(s: Seq<char>, uri: Seq<char>, shown: Seq<char>) -> bool {
    &&& s == link(shown, uri)
    &&& text::first_at(s.skip(LINK_START@.len() as int), LINK_STOP@, uri.len() as int)
}

/// Where a text leads and what is shown of it, if it leads anywhere.
pub fn osc8_parts(s: &str) -> (parts: Option<(String, String)>)
    ensures
        match parts {
            Some((uri, shown)) => is_link(s@, uri@, shown@),
            None => forall|uri: Seq<char>, shown: Seq<char>| !is_link(s@, uri, shown),
        },
{
    let chars = text::to_chars(s);
    let start = text::to_chars(LINK_START);
    let stop = text::to_chars(LINK_STOP);
    let end = text::to_chars(LINK_END);
    let ghost from = LINK_START@.len() as int;
    let ghost rest = s@.skip(from);
    proof {
        reveal_strlit("\x1b]8;;");
        reveal_strlit("\x1b\\");
        reveal_strlit("\x1b]8;;\x1b\\");
    }
    proof {
        assert forall|uri: Seq<char>, shown: Seq<char>| #[trigger]
            is_link(s@, uri, shown) implies LINK_START@.is_prefix_of(s@) by {
            assert(s@.take(from) =~= LINK_START@);
        }
    }
    if !text::starts_with(s, LINK_START) {
        return None;
    }
    let at = match text::find_chars(&chars, &stop, start.len()) {
        Some(at) => at,
        None => {
            proof {
                assert forall|uri: Seq<char>, shown: Seq<char>| !is_link(s@, uri, shown) by {
                    if is_link(s@, uri, shown) {
                        let k = uri.len() as int;
                        assert(text::stands_at(rest, LINK_STOP@, k));
                        assert(rest.skip(k) =~= s@.skip(from + k));
                        assert(text::stands_at(s@, LINK_STOP@, from + k));
                    }
                }
            }
            return None;
        },
    };
    let ghost uri_len = at - from;
    proof {
        assert(rest.skip(uri_len) =~= s@.skip(at as int));
        assert(text::first_at(rest, LINK_STOP@, uri_len)) by {
            assert forall|k: int| 0 <= k < uri_len implies !#[trigger] text::stands_at(
                rest,
                LINK_STOP@,
                k,
            ) by {
                assert(rest.skip(k) =~= s@.skip(from + k));
                assert(!text::stands_at(s@, LINK_STOP@, from + k));
            }
        }
        assert(s@.skip(at as int).len() >= stop@.len());
    }
    let count = chars.len();
    let shown_from = at + stop.len();
    let ends = count - shown_from >= end.len() && text::prefix_at(&chars, count - end.len(), &end);
    proof {
        assert forall|uri: Seq<char>, shown: Seq<char>| #[trigger]
            is_link(s@, uri, shown) implies uri.len() == uri_len && ends by {
            let k = uri.len() as int;
            if k < uri_len {
                assert(!text::stands_at(rest, LINK_STOP@, k));
            } else if uri_len < k {
                assert(!text::stands_at(rest, LINK_STOP@, uri_len));
            }
            assert(s@.skip(count - end@.len()) =~= LINK_END@);
            assert(LINK_END@.is_prefix_of(s@.skip(count - end@.len()))) by {
                assert(LINK_END@.take(LINK_END@.len() as int) =~= LINK_END@);
            }
        }
    }
    if !ends {
        return None;
    }
    let uri = text::from_chars(chars.as_slice(), start.len(), at);
    let shown = text::from_chars(chars.as_slice(), shown_from, count - end.len());
    proof {
        assert(s@.take(from) =~= LINK_START@);
        assert(s@.skip(at as int).take(stop@.len() as int) =~= LINK_STOP@);
        assert(s@.skip(count - end@.len()).take(end@.len() as int) =~= LINK_END@);
        assert forall|k: int| 0 <= k < s@.len() implies s@[k] == link(shown@, uri@)[k] by {
            if k < from {
                assert(s@.take(from)[k] == LINK_START@[k]);
            } else if k < at {
            } else if k < shown_from {
                assert(s@.skip(at as int).take(stop@.len() as int)[k - at] == LINK_STOP@[k - at]);
            } else if k < count - end@.len() {
            } else {
                let j = k - (count - end@.len());
                assert(s@.skip(count - end@.len()).take(end@.len() as int)[j] == LINK_END@[j]);
            }
        }
        assert(s@ =~= link(shown@, uri@));
    }
    Some((uri, shown))
}

/// What is shown of a text.
pub open spec fn shown_of(s: Seq<char>, shown: Seq<char>) -> bool {
    if exists|uri: Seq<char>, held: Seq<char>| is_link(s, uri, held) {
        exists|uri: Seq<char>| is_link(s, uri, shown)
    } else {
        shown == s
    }
}

/// What is shown of a text: of a link, not where it leads.
pub fn display_text(s: &str) -> (shown: String)
    ensures
        shown_of(s@, shown@),
{
    match osc8_parts(s) {
        Some((_, shown)) => shown,
        None => s.to_owned(),
    }
}

/// A link has one reading: what is shown of it and where it leads are told apart.
pub proof fn link_reads_one_way(
    s: Seq<char>,
    uri: Seq<char>,
    shown: Seq<char>,
    other_uri: Seq<char>,
    other_shown: Seq<char>,
)
    requires
        is_link(s, uri, shown),
        is_link(s, other_uri, other_shown),
    ensures
        uri == other_uri,
        shown == other_shown,
{
    let rest = s.skip(LINK_START@.len() as int);
    if uri.len() < other_uri.len() {
        assert(!text::stands_at(rest, LINK_STOP@, uri.len() as int));
    } else if other_uri.len() < uri.len() {
        assert(!text::stands_at(rest, LINK_STOP@, other_uri.len() as int));
    }
    let a = LINK_START@.len() as int;
    let b = a + uri.len() + LINK_STOP@.len();
    assert(uri =~= s.subrange(a, a + uri.len()));
    assert(other_uri =~= s.subrange(a, a + uri.len()));
    assert(shown =~= s.subrange(b, s.len() - LINK_END@.len()));
    assert(other_shown =~= s.subrange(b, s.len() - LINK_END@.len()));
}

/// A link reads back as what it was made of, where the place it leads to doesn't end
/// an escape sequence.
pub proof fn link_reads_back(shown: Seq<char>, uri: Seq<char>)
    requires
        forall|k: int| !#[trigger] text::stands_at(uri, LINK_STOP@, k),
    ensures
        is_link(link(shown, uri), uri, shown),
{
    reveal_strlit("\x1b\\");
    reveal_strlit("\x1b]8;;");
    let s = link(shown, uri);
    let rest = s.skip(LINK_START@.len() as int);
    let n = uri.len() as int;
    assert(rest =~= uri + LINK_STOP@ + shown + LINK_END@);
    assert(rest.skip(n).take(LINK_STOP@.len() as int) =~= LINK_STOP@);
    assert forall|k: int| 0 <= k < n implies !#[trigger] text::stands_at(rest, LINK_STOP@, k) by {
        if text::stands_at(rest, LINK_STOP@, k) {
            let there = rest.skip(k).take(LINK_STOP@.len() as int);
            assert(there == LINK_STOP@);
            assert(there[0] == rest[k] && there[1] == rest[k + 1]);
            if k + 1 < n {
                assert(uri.skip(k).take(LINK_STOP@.len() as int) =~= LINK_STOP@);
                assert(text::stands_at(uri, LINK_STOP@, k));
            } else {
                assert(rest[k + 1] == LINK_STOP@[0]);
            }
        }
    }
}

/// A text cut to a number of user-perceived characters.
pub open spec fn cut(s: Seq<char>, graphemes: int) -> Seq<char> {
    at_most(graphemes_of(s), graphemes).flatten()
}

/// A span cut to a number of user-perceived characters. A link that is cut stays a
/// link.
pub fn truncate_span(s: &str, graphemes_wanted: usize) -> (out: String)
    ensures
        forall|uri: Seq<char>, shown: Seq<char>|
            #![trigger is_link(s@, uri, shown)]
            is_link(s@, uri, shown) ==> out@ == link(cut(shown, graphemes_wanted as int), uri),
        (forall|uri: Seq<char>, shown: Seq<char>| !is_link(s@, uri, shown)) ==> out@ == cut(
            s@,
            graphemes_wanted as int,
        ),
        (forall|uri: Seq<char>, shown: Seq<char>| !is_link(s@, uri, shown)) && graphemes_of(
            s@,
        ).len() <= graphemes_wanted ==> out@ == s@,
{
    match osc8_parts(s) {
        Some((uri, shown)) => {
            let kept = first_graphemes(shown.as_str(), graphemes_wanted);
            proof {
                assert forall|u: Seq<char>, h: Seq<char>| #[trigger] is_link(s@, u, h) implies u
                    == uri@ && h == shown@ by {
                    link_reads_one_way(s@, u, h, uri@, shown@);
                }
            }
            osc8_hyperlink(kept.as_str(), uri.as_str())
        },
        None => first_graphemes(s, graphemes_wanted),
    }
}

fn first_graphemes(s: &str, count: usize) -> (out: String)
    ensures
        out@ == cut(s@, count as int),
        graphemes_of(s@).len() <= count ==> out@ == s@,
{
    join_first(&graphemes(s), count)
}

/// How wide a span is: how many user-perceived characters are shown of it.
pub fn span_width(s: &str) -> (width: usize)
    ensures
        exists|shown: Seq<char>| #[trigger]
            shown_of(s@, shown) && width == graphemes_of(shown).len(),
{
    let shown = display_text(s);
    let parts = graphemes(shown.as_str());
    proof {
        assert(text::string_views(parts@).len() == parts@.len());
    }
    parts.len()
}

/// The cells of a link whose user-perceived characters are `parts`, as many as there
/// is room for.
pub open spec fn cells_of(parts: Seq<Seq<char>>, uri: Seq<char>, width: int) -> Seq<Seq<char>> {
    at_most(parts, width).map_values(|part: Seq<char>| link(part, uri))
}

/// The cells of a link, by the user-perceived characters of it.
pub fn linked_parts(parts: &Vec<String>, uri: &str, width: usize) -> (cells: Vec<String>)
    ensures
        text::string_views(cells@) == cells_of(text::string_views(parts@), uri@, width as int),
{
    let ghost all = text::string_views(parts@);
    let kept: usize = if width < parts.len() {
        width
    } else {
        parts.len()
    };
    let mut cells: Vec<String> = Vec::new();
    let mut i: usize = 0;
    while i < kept
        invariant
            i <= kept <= parts@.len(),
            all == text::string_views(parts@),
            cells@.len() == i,
            forall|k: int| 0 <= k < i ==> (#[trigger] cells@[k])@ == link(all[k], uri@),
        decreases kept - i,
    {
        cells.push(osc8_hyperlink(parts[i].as_str(), uri));
        i += 1;
    }
    proof {
        assert(at_most(all, width as int) =~= all.take(kept as int));
        assert(text::string_views(cells@) =~= cells_of(all, uri@, width as int));
    }
    cells
}

/// The cells of a link: each user-perceived character leads there by itself, so
/// that any of them can be drawn again alone. As many as there is room for.
pub fn link_cells(shown: &str, uri: &str, width: usize) -> (cells: Vec<String>)
    ensures
        text::string_views(cells@) == cells_of(graphemes_of(shown@), uri@, width as int),
{
    linked_parts(&graphemes(shown), uri, width)
}

// ---------------------------------------------------------------------------
// Separators
// ---------------------------------------------------------------------------

/// A text as often as it takes to be so many of its pieces wide, the last time cut.
pub open spec fn repeated(parts: Seq<Seq<char>>, count: nat) -> Seq<Seq<char>>
    decreases count,
{
    if parts.len() == 0 || count == 0 {
        seq![]
    } else if count < parts.len() {
        seq![parts.take(count as int).flatten()]
    } else {
        seq![parts.flatten()] + repeated(parts, (count - parts.len()) as nat)
    }
}

/// A text as often as it takes to be so many of its pieces wide, the last time cut.
pub fn repeat_parts(count: usize, parts: &Vec<String>) -> (spans: Vec<String>)
    requires
        parts@.len() > 0,
    ensures
        text::string_views(spans@) == repeated(text::string_views(parts@), count as nat),
{
    let ghost all = text::string_views(parts@);
    let ghost wanted = repeated(all, count as nat);
    let width = parts.len();
    let whole = join_first(parts, width);
    let mut spans: Vec<String> = Vec::new();
    let mut left: usize = count;
    proof {
        assert(at_most(all, width as int) =~= all);
        assert(text::string_views(spans@) + wanted =~= wanted);
    }
    while left >= width
        invariant
            width > 0,
            width == all.len(),
            whole@ == all.flatten(),
            text::string_views(spans@) + repeated(all, left as nat) == wanted,
        decreases left,
    {
        let ghost before = spans@;
        spans.push(whole.as_str().to_owned());
        left -= width;
        proof {
            assert(text::string_views(spans@) =~= text::string_views(before).push(whole@));
            assert(text::string_views(spans@) + repeated(all, left as nat)
                =~= text::string_views(before) + repeated(all, (left + width) as nat));
        }
    }
    if left > 0 {
        let ghost before = spans@;
        spans.push(join_first(parts, left));
        proof {
            assert(text::string_views(spans@) =~= text::string_views(before).push(
                all.take(left as int).flatten(),
            ));
        }
    }
    proof {
        assert(text::string_views(spans@) =~= wanted);
    }
    spans
}

/// A text as often as it takes to be so many user-perceived characters wide, the
/// last time cut.
pub fn repeat_chars(count: usize, chars: &str) -> (spans: Vec<String>)
    requires
        chars@.len() > 0,
    ensures
        text::string_views(spans@) == repeated(graphemes_of(chars@), count as nat),
        graphemes_of(chars@).flatten() == chars@,
{
    let parts = graphemes(chars);
    proof {
        if parts@.len() == 0 {
            assert(text::string_views(parts@) =~= Seq::<Seq<char>>::empty());
            assert(text::string_views(parts@).flatten() =~= Seq::<char>::empty());
        }
    }
    repeat_parts(count, &parts)
}

// ---------------------------------------------------------------------------
// Lines
// ---------------------------------------------------------------------------

/// How the character the cursor is on is drawn.
pub open spec fn reversed() -> Style {
    Style { add_modifier: Modifier { bits: style::REVERSED }, ..style::plain() }
}

/// A line being typed, as it is drawn.
pub open spec fn typed_line(value: Seq<char>, position: int) -> Seq<(Seq<char>, Style)> {
    if position < value.len() {
        seq![
            (value.take(position), style::plain()),
            (seq![value[position]], reversed()),
            (value.skip(position + 1), style::plain()),
        ]
    } else {
        seq![(value, style::plain()), (CARET@, style::plain())]
    }
}

/// A line being typed, with the cursor where the next character will land: on the
/// character it is at, which is drawn through it, or standing on its own at the end
/// of the line where there is no character to draw.
pub fn layout_typed_line(value: &str, position: usize) -> (spans: RenderedRow)
    ensures
        item::row_view(spans@) == typed_line(value@, position as int),
{
    let chars = text::to_chars(value);
    let count = chars.len();
    let mut spans: RenderedRow = Vec::new();
    if position < count {
        spans.push((text::from_chars(chars.as_slice(), 0, position), Style::new()));
        let mut drawn = Style::new();
        drawn.add_modifier = Modifier { bits: style::REVERSED };
        spans.push((text::from_chars(chars.as_slice(), position, position + 1), drawn));
        spans.push((text::from_chars(chars.as_slice(), position + 1, count), Style::new()));
        proof {
            assert(spans@[0].0@ =~= value@.take(position as int));
            assert(spans@[1].0@ =~= seq![value@[position as int]]);
            assert(spans@[2].0@ =~= value@.skip(position + 1));
        }
    } else {
        spans.push((value.to_owned(), Style::new()));
        spans.push((CARET.to_owned(), Style::new()));
    }
    proof {
        assert(item::row_view(spans@) =~= typed_line(value@, position as int));
    }
    spans
}

/// What is drawn before a line that is typed on, where the prompt says anything.
pub open spec fn prompt_line(
    symbol: (Seq<char>, Style),
    prompt: Seq<char>,
    prompt_style: Style,
    value: Seq<char>,
    position: int,
) -> Seq<(Seq<char>, Style)> {
    if prompt.len() == 0 {
        typed_line(value, position)
    } else {
        seq![
            symbol,
            (" "@, style::plain()),
            (prompt, prompt_style),
            (" › "@, prompt_style),
        ] + typed_line(value, position)
    }
}

/// A prompt, as it is drawn. One that says nothing is drawn as nothing but the line
/// typed on.
pub fn layout_prompt(
    symbol: (String, Style),
    prompt: &str,
    prompt_style: Style,
    value: &str,
    position: usize,
) -> (spans: RenderedRow)
    ensures
        item::row_view(spans@) == prompt_line(
            (symbol.0@, symbol.1),
            prompt@,
            prompt_style,
            value@,
            position as int,
        ),
{
    let mut typed = layout_typed_line(value, position);
    if text::is_empty(prompt) {
        return typed;
    }
    let mut spans: RenderedRow = Vec::new();
    let ghost shown = (symbol.0@, symbol.1);
    spans.push(symbol);
    spans.push((" ".to_owned(), Style::new()));
    spans.push((prompt.to_owned(), prompt_style));
    spans.push((" › ".to_owned(), prompt_style));
    let ghost front = spans@;
    let ghost back = typed@;
    spans.append(&mut typed);
    proof {
        assert(item::row_view(front) =~= seq![
            shown,
            (" "@, style::plain()),
            (prompt@, prompt_style),
            (" › "@, prompt_style),
        ]);
        assert(item::row_view(spans@) =~= item::row_view(front) + item::row_view(back));
    }
    spans
}

/// A line's spans, each drawn over the line's own style.
pub open spec fn styled_line(line_style: Style, spans: Seq<(Seq<char>, Style)>) -> Seq<
    (Seq<char>, Style),
> {
    spans.map_values(
        |span: (Seq<char>, Style)| (span.0, style::patched(line_style, span.1)),
    )
}

/// A line's spans, each drawn over the line's own style.
pub fn layout_line(line_style: Style, spans: &RenderedRow) -> (out: RenderedRow)
    ensures
        item::row_view(out@) == styled_line(line_style, item::row_view(spans@)),
{
    let mut out: RenderedRow = Vec::new();
    let mut i: usize = 0;
    while i < spans.len()
        invariant
            i <= spans@.len(),
            out@.len() == i,
            forall|k: int|
                0 <= k < i ==> (#[trigger] out@[k]).0@ == spans@[k].0@ && out@[k].1
                    == style::patched(line_style, spans@[k].1),
        decreases spans@.len() - i,
    {
        out.push((spans[i].0.clone(), line_style.patch(spans[i].1)));
        i += 1;
    }
    proof {
        assert(item::row_view(out@) =~= styled_line(line_style, item::row_view(spans@)));
    }
    out
}

/// How low the lowest of some areas reaches.
pub open spec fn lowest(areas: Seq<(u16, u16)>) -> int
    decreases areas.len(),
{
    if areas.len() == 0 {
        0
    } else {
        let front = lowest(areas.drop_last());
        let end = areas.last().0 + areas.last().1;
        if end > front {
            end
        } else {
            front
        }
    }
}

/// How many rows the panels below a screen take, by where each of them starts and
/// how high it is.
pub fn panels_height(areas: &Vec<(u16, u16)>) -> (height: u16)
    requires
        forall|i: int|
            0 <= i < areas@.len() ==> (#[trigger] areas@[i]).0 + areas@[i].1 <= u16::MAX,
    ensures
        height == lowest(areas@),
{
    let mut height: u16 = 0;
    let mut i: usize = 0;
    proof {
        assert(areas@.take(0) =~= Seq::<(u16, u16)>::empty());
    }
    while i < areas.len()
        invariant
            i <= areas@.len(),
            forall|k: int|
                0 <= k < areas@.len() ==> (#[trigger] areas@[k]).0 + areas@[k].1 <= u16::MAX,
            height == lowest(areas@.take(i as int)),
        decreases areas@.len() - i,
    {
        proof {
            assert(areas@.take(i + 1).drop_last() =~= areas@.take(i as int));
            assert(areas@.take(i + 1).last() == areas@[i as int]);
        }
        let end = areas[i].0 + areas[i].1;
        if end > height {
            height = end;
        }
        i += 1;
    }
    proof {
        assert(areas@.take(i as int) =~= areas@);
    }
    height
}

/// How much the panels leave a screen, which must know it: it scrolls to keep its
/// cursor within the rows it is actually given.
pub fn screen_size(size: (u16, u16), panels: u16) -> (left: (u16, u16))
    ensures
        left.0 == size.0,
        left.1 == (if panels < size.1 {
            size.1 - panels
        } else {
            0
        }),
{
    (
        size.0,
        if panels < size.1 {
            size.1 - panels
        } else {
            0
        },
    )
}

/// How wide a log is rendered: as wide as the screen, but for what a row is drawn
/// with before and after it.
pub fn render_width(width: u16) -> (rendered: usize)
    ensures
        rendered == (if width > 2 {
            width - 2
        } else {
            0
        }),
{
    if width > 2 {
        (width - 2) as usize
    } else {
        0
    }
}

// ---------------------------------------------------------------------------
// Rows of a screen
// ---------------------------------------------------------------------------

/// How a screen is drawn.
#[derive(Debug)]
pub struct RowStyles {
    pub cursor_symbol: char,
    pub cursor: Style,
    pub bar_symbol: char,
    pub bar: Style,
    pub selection_line: Style,
    pub selection_area: Style,
}

/// A row of a screen, as far as it isn't what the row says: what it is drawn over,
/// what stands before it, and whether what it hides is hinted at after it.
#[derive(Debug)]
pub struct RowFrame {
    pub background: Style,
    pub gutter: (char, Style),
    pub ellipsis: bool,
}

/// What a row is drawn over.
pub open spec fn background_of(styles: RowStyles, highlighted: bool, selected: bool) -> Style {
    style::patched(
        if highlighted {
            styles.selection_area
        } else {
            style::plain()
        },
        if highlighted && selected {
            styles.selection_line
        } else {
            style::plain()
        },
    )
}

/// What stands before a row.
pub open spec fn gutter_of(
    styles: RowStyles,
    highlighted: bool,
    selected: bool,
    hide_cursor: bool,
) -> (char, Style) {
    let background = background_of(styles, highlighted, selected);
    if hide_cursor || !highlighted {
        (' ', style::plain())
    } else if selected {
        (styles.cursor_symbol, style::patched(background, styles.cursor))
    } else {
        (styles.bar_symbol, style::patched(background, styles.bar))
    }
}

fn line_selection_highlight(styles: &RowStyles, view: ItemView) -> (s: Style)
    ensures
        s == (if view.highlighted && view.selected {
            styles.selection_line
        } else {
            style::plain()
        }),
{
    if view.highlighted && view.selected {
        styles.selection_line
    } else {
        Style::new()
    }
}

fn area_selection_highlight(styles: &RowStyles, view: ItemView) -> (s: Style)
    ensures
        s == (if view.highlighted {
            styles.selection_area
        } else {
            style::plain()
        }),
{
    if view.highlighted {
        styles.selection_area
    } else {
        Style::new()
    }
}

fn gutter_char(styles: &RowStyles, is_line_sel: bool, background: Style) -> (gutter: (char, Style))
    ensures
        gutter == (if is_line_sel {
            (styles.cursor_symbol, style::patched(background, styles.cursor))
        } else {
            (styles.bar_symbol, style::patched(background, styles.bar))
        }),
{
    if is_line_sel {
        (styles.cursor_symbol, background.patch(styles.cursor))
    } else {
        (styles.bar_symbol, background.patch(styles.bar))
    }
}

impl Screen {
    /// How a row of the screen is drawn. A collapsed section says so only when it is
    /// hiding something.
    pub fn layout_item(&self, styles: &RowStyles, hide_cursor: bool, view: ItemView) -> (frame:
        RowFrame)
        requires
            view.item_index < self.items@.len(),
        ensures
            frame.background == background_of(*styles, view.highlighted, view.selected),
            frame.gutter == gutter_of(*styles, view.highlighted, view.selected, hide_cursor),
            frame.ellipsis == (crate::screen::has_children(self.items@, view.item_index as int)
                && self.collapsed@.contains(self.items@[view.item_index as int].id)),
    {
        let area = area_selection_highlight(styles, view);
        let line = line_selection_highlight(styles, view);
        let background = area.patch(line);
        let gutter = if !hide_cursor && view.highlighted {
            gutter_char(styles, view.selected, background)
        } else {
            (' ', Style::new())
        };
        let item = &self.items[view.item_index];
        let has_children = self.items.len() - view.item_index > 1 && self.items[view.item_index
            + 1].depth > item.depth;
        RowFrame { background, gutter, ellipsis: has_children && self.is_collapsed(item) }
    }
}

} // verus!
