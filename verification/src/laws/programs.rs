//! What is given to programs that draw diffs, and what is made of what they say.

use crate::capped_input;
use crate::delta_highlight;
use crate::delta_highlight::Raw;
use crate::render_command;
use crate::spans::Span;
use crate::style;
use crate::style::{Color, Style};
use crate::text;
use std::ops::Range;
use vstd::prelude::*;

verus! {

// ---------------------------------------------------------------------------
// Input that was cut
// ---------------------------------------------------------------------------

/// Whether a line starts a file or a hunk, whatever colour it is in.
pub open spec fn starts_part(line: Seq<char>) -> bool {
    ||| "diff --git "@.is_prefix_of(capped_input::unescaped(line))
    ||| "@@ "@.is_prefix_of(capped_input::unescaped(line))
}

/// Escapes before a line count for nothing: each ends at its first letter.
pub proof fn escapes_are_passed_over(inner: Seq<char>, letter: char, rest: Seq<char>)
    requires
        'a' <= letter <= 'z' || 'A' <= letter <= 'Z',
        forall|i: int|
            0 <= i < inner.len() ==> !('a' <= #[trigger] inner[i] <= 'z') && !('A' <= inner[i]
                <= 'Z'),
    ensures
        capped_input::unescaped(seq!['\x1b'] + inner + seq![letter] + rest)
            == capped_input::unescaped(rest),
        rest.len() == 0 || rest[0] != '\x1b' ==> capped_input::unescaped(rest) == rest,
{
    let all = seq!['\x1b'] + inner + seq![letter] + rest;
    let tail = all.drop_first();
    assert(tail =~= inner + seq![letter] + rest);
    lemma_before_letter(inner, letter, rest);
    assert(all.skip(inner.len() as int + 2) =~= rest);
}

proof fn lemma_before_letter(inner: Seq<char>, letter: char, rest: Seq<char>)
    requires
        'a' <= letter <= 'z' || 'A' <= letter <= 'Z',
        forall|i: int|
            0 <= i < inner.len() ==> !('a' <= #[trigger] inner[i] <= 'z') && !('A' <= inner[i]
                <= 'Z'),
    ensures
        capped_input::before_letter(inner + seq![letter] + rest) == inner.len(),
    decreases inner.len(),
{
    let all = inner + seq![letter] + rest;
    if inner.len() == 0 {
        assert(all[0] == letter);
    } else {
        assert(all[0] == inner[0]);
        assert(all.drop_first() =~= inner.drop_first() + seq![letter] + rest);
        lemma_before_letter(inner.drop_first(), letter, rest);
    }
}

proof fn lemma_last_marked(rows: Seq<Seq<char>>, mark: Seq<char>) -> (k: int)
    ensures
        match capped_input::last_marked(rows, mark) {
            Some(at) => {
                &&& 0 <= k < rows.len()
                &&& at == capped_input::chars_in(rows.take(k))
                &&& mark.is_prefix_of(capped_input::unescaped(rows[k]))
                &&& forall|j: int|
                    k < j < rows.len() ==> !mark.is_prefix_of(
                        capped_input::unescaped(#[trigger] rows[j]),
                    )
            },
            None => forall|j: int|
                0 <= j < rows.len() ==> !mark.is_prefix_of(
                    capped_input::unescaped(#[trigger] rows[j]),
                ),
        },
    decreases rows.len(),
{
    if rows.len() == 0 {
        0
    } else {
        let n = rows.len() - 1;
        let front = rows.drop_last();
        assert(rows.last() == rows[n]);
        if mark.is_prefix_of(capped_input::unescaped(rows[n])) {
            assert(front =~= rows.take(n));
            n
        } else {
            let k = lemma_last_marked(front, mark);
            if capped_input::last_marked(front, mark) is Some {
                assert(front.take(k) =~= rows.take(k));
                assert(front[k] == rows[k]);
            }
            assert forall|j: int|
                (if capped_input::last_marked(front, mark) is Some {
                    k
                } else {
                    -1
                }) < j < rows.len() implies !mark.is_prefix_of(
                capped_input::unescaped(#[trigger] rows[j]),
            ) by {
                if j < n {
                    assert(front[j] == rows[j]);
                }
            }
            k
        }
    }
}

proof fn lemma_last_end(rows: Seq<Seq<char>>) -> (n: int)
    ensures
        0 <= n <= rows.len(),
        capped_input::last_end(rows) == capped_input::chars_in(rows.take(n)),
        n > 0 ==> rows[n - 1].last() == '\n',
        forall|j: int| n <= j < rows.len() ==> (#[trigger] rows[j]).last() != '\n',
    decreases rows.len(),
{
    if rows.len() == 0 {
        assert(rows.take(0) =~= rows);
        0
    } else if rows.last().last() == '\n' {
        assert(rows.take(rows.len() as int) =~= rows);
        rows.len() as int
    } else {
        let front = rows.drop_last();
        let n = lemma_last_end(front);
        assert(front.take(n) =~= rows.take(n));
        assert forall|j: int| n <= j < rows.len() implies (#[trigger] rows[j]).last() != '\n' by {
            if j < rows.len() - 1 {
                assert(front[j] == rows[j]);
            }
        }
        n
    }
}

proof fn lemma_chars_grow(rows: Seq<Seq<char>>, a: int, b: int)
    requires
        0 <= a <= b <= rows.len(),
        forall|i: int| 0 <= i < rows.len() ==> (#[trigger] rows[i]).len() > 0,
    ensures
        capped_input::chars_in(rows.take(a)) <= capped_input::chars_in(rows.take(b)),
        a < b ==> capped_input::chars_in(rows.take(a)) < capped_input::chars_in(rows.take(b)),
    decreases b - a,
{
    if a < b {
        assert(rows[b - 1].len() > 0);
        capped_input::lemma_chars_in_step(rows, b - 1);
        lemma_chars_grow(rows, a, b - 1);
    }
}

/// What is kept of input that was cut are its first lines: those before the last that
/// starts a file or a hunk, since there may be more to that; and where there is none,
/// those that were ended.
pub proof fn cut_input_loses_its_last_part(s: Seq<char>) -> (n: int)
    ensures
        0 <= n <= text::lines(s).len(),
        capped_input::whole_of(s) == text::lines(s).take(n).flatten(),
        (exists|j: int| 0 <= j < text::lines(s).len() && starts_part(#[trigger] text::lines(s)[j]))
            ==> n < text::lines(s).len() && starts_part(text::lines(s)[n]),
        (exists|j: int| 0 <= j < text::lines(s).len() && starts_part(#[trigger] text::lines(s)[j]))
            ==> forall|j: int|
            n < j < text::lines(s).len() ==> !starts_part(#[trigger] text::lines(s)[j]),
        !(exists|j: int|
            0 <= j < text::lines(s).len() && starts_part(#[trigger] text::lines(s)[j])) ==> (n > 0
            ==> text::lines(s)[n - 1].last() == '\n') && (forall|j: int|
            n <= j < text::lines(s).len() ==> (#[trigger] text::lines(s)[j]).last() != '\n'),
{
    let rows = text::lines(s);
    text::lemma_lines_concat(s);
    let (file_mark, hunk_mark) = (capped_input::FILE_MARK@, capped_input::HUNK_MARK@);
    let file = lemma_last_marked(rows, file_mark);
    let hunk = lemma_last_marked(rows, hunk_mark);
    let end = lemma_last_end(rows);
    let has_file = capped_input::last_marked(rows, file_mark) is Some;
    let has_hunk = capped_input::last_marked(rows, hunk_mark) is Some;
    let n = if has_file && has_hunk {
        if file < hunk {
            hunk
        } else {
            file
        }
    } else if has_file {
        file
    } else if has_hunk {
        hunk
    } else {
        end
    };
    if has_file && has_hunk {
        if file < hunk {
            lemma_chars_grow(rows, file, hunk);
        } else {
            lemma_chars_grow(rows, hunk, file);
        }
    }
    if has_file || has_hunk {
        assert(starts_part(rows[n]));
        assert forall|j: int| n < j < rows.len() implies !starts_part(#[trigger] rows[j]) by {}
    } else {
        assert forall|j: int| 0 <= j < rows.len() implies !starts_part(#[trigger] rows[j]) by {}
    }
    capped_input::lemma_chars_in_flat(rows, n);
    n
}

// ---------------------------------------------------------------------------
// Commands
// ---------------------------------------------------------------------------

/// Words that are joined stand with a space between them, in their order.
pub proof fn words_are_joined_by_spaces(a: Seq<Seq<char>>, b: Seq<Seq<char>>)
    requires
        a.len() > 0,
        b.len() > 0,
    ensures
        render_command::spaced(a + b) == render_command::spaced(a) + seq![' ']
            + render_command::spaced(b),
        a.len() == 1 ==> render_command::spaced(a) == a[0],
    decreases b.len(),
{
    let all = a + b;
    assert(all.drop_last() =~= a + b.drop_last());
    assert(all.last() == b.last());
    if b.len() == 1 {
        assert(a + b.drop_last() =~= a);
    } else {
        words_are_joined_by_spaces(a, b.drop_last());
    }
    assert(render_command::spaced(all) =~= render_command::spaced(a) + seq![' ']
        + render_command::spaced(b));
}

/// A renderer is told what protocol is spoken, how wide a line is, and which features it
/// is to have in addition to its own, if any.
pub proof fn renderers_are_told(width: nat, features: Seq<Seq<char>>)
    ensures
        ({
            let env = render_command::render_env(width, features);
            &&& env[0] == ("OSC1717_METADATA"@, "V1"@)
            &&& env[1] == ("COLUMNS"@, text::decimal(width))
            &&& features.len() == 0 ==> env.len() == 2
            &&& features.len() > 0 ==> env.len() == 3 && env[2] == (
                "DELTA_FEATURES"@,
                seq!['+'] + render_command::spaced(features),
            )
        }),
{
}

/// A renderer is run as it is configured, but that it is told the width where it asks
/// for it.
pub proof fn renderers_keep_their_arguments(words: Seq<Seq<char>>, width: nat, i: int)
    requires
        0 <= i < words.len(),
    ensures
        render_command::sized(words, width).len() == words.len(),
        render_command::sized(words, width)[i] == text::replaced(
            words[i],
            "{width}"@,
            text::decimal(width),
        ),
{
}

/// A feature is named by the part of a configured key between its section and the last
/// dot.
pub proof fn features_are_named_by_their_keys(name: Seq<char>, key: Seq<char>, other: Seq<char>)
    requires
        !key.contains('.'),
    ensures
        render_command::feature_of("delta."@ + name + seq!['.'] + key) == Some(name),
        render_command::feature_of("delta."@ + key) is None,
        !"delta."@.is_prefix_of(other) ==> render_command::feature_of(other) is None,
{
    let section = "delta."@;
    let entry = section + name + seq!['.'] + key;
    let rest = name + seq!['.'] + key;
    assert(entry =~= section + rest);
    assert(entry.subrange(0, section.len() as int) =~= section);
    assert(entry.skip(section.len() as int) =~= rest);
    lemma_last_dot(name + seq!['.'], key);
    assert((name + seq!['.']).last() == '.');
    assert(rest.take(name.len() as int) =~= name);
    let bare = section + key;
    assert(bare.skip(section.len() as int) =~= key);
    assert(Seq::<char>::empty() + key =~= key);
    lemma_last_dot(Seq::<char>::empty(), key);
}

proof fn lemma_last_dot(front: Seq<char>, key: Seq<char>)
    requires
        !key.contains('.'),
    ensures
        render_command::last_dot(front + key) == render_command::last_dot(front),
    decreases key.len(),
{
    let all = front + key;
    if key.len() == 0 {
        assert(all =~= front);
    } else {
        assert(all.last() == key[key.len() - 1]);
        assert(all.drop_last() =~= front + key.drop_last());
        assert(!key.drop_last().contains('.')) by {
            if key.drop_last().contains('.') {
                let i = choose|i: int| 0 <= i < key.drop_last().len() && key.drop_last()[i] == '.';
                assert(key[i] == '.');
            }
        }
        lemma_last_dot(front, key.drop_last());
    }
}

/// Names are ordered as in a dictionary: by the first character in which they differ, and
/// what goes on comes after what doesn't.
pub proof fn names_are_in_dictionary_order(
    start: Seq<char>,
    a: char,
    x: Seq<char>,
    b: char,
    y: Seq<char>,
)
    requires
        a != b,
    ensures
        render_command::comes_before(start + seq![a] + x, start + seq![b] + y) <==> a < b,
        render_command::comes_before(start, start + seq![a] + x),
        !render_command::comes_before(start + seq![a] + x, start),
        !render_command::comes_before(start, start),
    decreases start.len(),
{
    let one = start + seq![a] + x;
    let two = start + seq![b] + y;
    if start.len() > 0 {
        let rest = start.drop_first();
        names_are_in_dictionary_order(rest, a, x, b, y);
        assert(one.drop_first() =~= rest + seq![a] + x);
        assert(two.drop_first() =~= rest + seq![b] + y);
        assert(one[0] == start[0] && two[0] == start[0]);
    } else {
        assert(one[0] == a && two[0] == b);
    }
}

/// Delta is asked to colour and nothing else, and isn't left to its own configuration.
pub proof fn delta_is_asked_to_color()
    ensures
        render_command::delta_args() == seq![
            "--color-only"@,
            "--paging=never"@,
            "--no-gitconfig"@,
        ],
{
}

// ---------------------------------------------------------------------------
// Colours
// ---------------------------------------------------------------------------

/// A colour made of red, green and blue is written in six digits.
pub open spec fn hex_digit(n: u8) -> char {
    if n < 10 {
        ('0' as u8 + n) as char
    } else {
        ('A' as u8 + (n - 10)) as char
    }
}

/// A colour as it is written in hexadecimal.
pub open spec fn hex(r: u8, g: u8, b: u8) -> Seq<char> {
    seq![
        '#',
        hex_digit(r / 16),
        hex_digit(r % 16),
        hex_digit(g / 16),
        hex_digit(g % 16),
        hex_digit(b / 16),
        hex_digit(b % 16),
    ]
}

/// A colour that is written in hexadecimal is read back.
pub proof fn hex_colors_read_back(r: u8, g: u8, b: u8)
    ensures
        delta_highlight::color_of(hex(r, g, b)) == Some(Color::Rgb(r, g, b)),
{
    let name = hex(r, g, b);
    lemma_named(name);
    assert(delta_highlight::hex_byte(name[1], name[2]) == Some(r));
    assert(delta_highlight::hex_byte(name[3], name[4]) == Some(g));
    assert(delta_highlight::hex_byte(name[5], name[6]) == Some(b));
}

proof fn lemma_named(name: Seq<char>)
    requires
        name.len() > 0,
        name[0] == '#',
    ensures
        delta_highlight::rgb_of(name) is Some ==> delta_highlight::color_of(name)
            == delta_highlight::rgb_of(name),
{
    reveal_strlit("Reset");
    reveal_strlit("Black");
    reveal_strlit("Red");
    reveal_strlit("Green");
    reveal_strlit("Yellow");
    reveal_strlit("Blue");
    reveal_strlit("Magenta");
    reveal_strlit("Cyan");
    reveal_strlit("Gray");
    reveal_strlit("DarkGray");
    reveal_strlit("LightRed");
    reveal_strlit("LightGreen");
    reveal_strlit("LightYellow");
    reveal_strlit("LightBlue");
    reveal_strlit("LightMagenta");
    reveal_strlit("LightCyan");
    reveal_strlit("White");
    assert("Reset"@[0] == 'R' && "Black"@[0] == 'B' && "Red"@[0] == 'R' && "Green"@[0] == 'G');
    assert("Yellow"@[0] == 'Y' && "Blue"@[0] == 'B' && "Magenta"@[0] == 'M' && "Cyan"@[0] == 'C');
    assert("Gray"@[0] == 'G' && "DarkGray"@[0] == 'D' && "LightRed"@[0] == 'L');
    assert("LightGreen"@[0] == 'L' && "LightYellow"@[0] == 'L' && "LightBlue"@[0] == 'L');
    assert("LightMagenta"@[0] == 'L' && "LightCyan"@[0] == 'L' && "White"@[0] == 'W');
}

/// A colour and attributes that a program asked for are drawn with, as far as they are
/// known.
pub proof fn asked_styles_are_drawn(raw: Raw)
    ensures
        ({
            let (content, style) = delta_highlight::colored(raw);
            &&& content == raw.content
            &&& style.add_modifier.bits == raw.add_modifier
            &&& style.sub_modifier.bits == raw.sub_modifier
            &&& raw.fg is None ==> style.fg is None
            &&& raw.bg is None ==> style.bg is None
            &&& raw.fg is Some ==> style.fg == delta_highlight::color_of(raw.fg->0)
            &&& raw.bg is Some ==> style.bg == delta_highlight::color_of(raw.bg->0)
        }),
{
}

// ---------------------------------------------------------------------------
// Finding coloured parts in a line
// ---------------------------------------------------------------------------

/// What is looked for is found where it stands first, from a place on, and not found
/// where it doesn't stand.
pub proof fn the_first_is_found(s: Seq<char>, c: int, needle: Seq<char>)
    requires
        0 <= c,
    ensures
        match delta_highlight::find_from(s, c, needle) {
            Some(at) => {
                &&& c <= at
                &&& at + needle.len() <= s.len()
                &&& s.subrange(at, at + needle.len()) == needle
                &&& forall|k: int|
                    c <= k < at ==> #[trigger] s.subrange(k, k + needle.len()) != needle
            },
            None => forall|k: int|
                c <= k && k + needle.len() <= s.len() ==> #[trigger] s.subrange(
                    k,
                    k + needle.len(),
                ) != needle,
        },
    decreases s.len() - c,
{
    if c + needle.len() <= s.len() {
        assert(s.skip(c).subrange(0, needle.len() as int) =~= s.subrange(c, c + needle.len()));
        if !needle.is_prefix_of(s.skip(c)) {
            the_first_is_found(s, c + 1, needle);
        }
    }
}

/// The text of some parts.
pub open spec fn text_of(parts: Seq<(Seq<char>, Style)>) -> Seq<char>
    decreases parts.len(),
{
    if parts.len() == 0 {
        seq![]
    } else {
        text_of(parts.drop_last()) + parts.last().0
    }
}

/// Where a line was coloured part by part, each part is found where it is, however often
/// the same text stands on the line.
pub proof fn parts_are_found_in_turn(plain: Seq<char>, parts: Seq<(Seq<char>, Style)>)
    requires
        text_of(parts).is_prefix_of(plain),
    ensures
        delta_highlight::offset_after(plain, parts) == text::byte_len(text_of(parts)),
        parts.len() > 0 ==> delta_highlight::placed(
            plain,
            text::byte_len(text_of(parts.drop_last())) as int,
            parts.last().0,
        ) == (
            text::byte_len(text_of(parts.drop_last())) as int,
            text::byte_len(text_of(parts)) as int,
        ),
    decreases parts.len(),
{
    if parts.len() == 0 {
        text::lemma_byte_len_empty();
    } else {
        let front = text_of(parts.drop_last());
        let part = parts.last().0;
        let all = text_of(parts);
        assert(all == front + part);
        assert(plain.subrange(0, all.len() as int) == all);
        assert(plain.subrange(0, front.len() as int) =~= front);
        parts_are_found_in_turn(plain, parts.drop_last());
        text::lemma_byte_len_concat(front, part);
        if part.len() == 0 {
            text::lemma_byte_len_empty();
            assert(part =~= Seq::<char>::empty());
        } else {
            let at = front.len() as int;
            assert(plain.take(at) =~= front);
            text::lemma_char_at(plain, at);
            assert(plain.skip(at).subrange(0, part.len() as int) =~= part) by {
                assert(plain.skip(at).subrange(0, part.len() as int) =~= all.subrange(
                    at,
                    all.len() as int,
                ));
            }
            assert(part.is_prefix_of(plain.skip(at)));
            assert(delta_highlight::find_from(plain, at, part) == Some(at));
        }
    }
}

/// Every part that is coloured is drawn in its colour, where it is, and no other is drawn.
pub proof fn colored_parts_are_drawn(plain: Seq<char>, parts: Seq<(Seq<char>, Style)>, i: int)
    requires
        text_of(parts).is_prefix_of(plain),
        text::byte_len(plain) <= usize::MAX,
        0 <= i < parts.len(),
    ensures
        parts[i].0.len() > 0 && parts[i].1 != style::plain() ==> delta_highlight::placed_spans(
            plain,
            parts,
        ).contains(
            (
                Range {
                    start: text::byte_len(text_of(parts.take(i))) as usize,
                    end: text::byte_len(text_of(parts.take(i + 1))) as usize,
                },
                parts[i].1,
            ),
        ),
    decreases parts.len(),
{
    let n = parts.len() - 1;
    let front = parts.drop_last();
    let all = text_of(parts);
    assert(all == text_of(front) + parts.last().0);
    assert(text_of(front).is_prefix_of(plain)) by {
        assert(plain.subrange(0, all.len() as int) == all);
        assert(plain.subrange(0, text_of(front).len() as int) =~= text_of(front));
    }
    parts_are_found_in_turn(plain, parts);
    parts_are_found_in_turn(plain, front);
    let before = delta_highlight::placed_spans(plain, front);
    let spans = delta_highlight::placed_spans(plain, parts);
    if i < n {
        colored_parts_are_drawn(plain, front, i);
        assert(front.take(i) =~= parts.take(i));
        assert(front.take(i + 1) =~= parts.take(i + 1));
        let want = (
            Range {
                start: text::byte_len(text_of(parts.take(i))) as usize,
                end: text::byte_len(text_of(parts.take(i + 1))) as usize,
            },
            parts[i].1,
        );
        if parts[i].0.len() > 0 && parts[i].1 != style::plain() {
            assert(before.contains(want));
            let k = choose|k: int| 0 <= k < before.len() && before[k] == want;
            assert(spans[k] == want);
        }
    } else {
        assert(parts.take(i) =~= front);
        assert(parts.take(i + 1) =~= parts);
        text::lemma_byte_len_concat(text_of(front), parts.last().0);
        text::lemma_byte_len_at_least(parts.last().0);
        if parts[i].0.len() > 0 && parts[i].1 != style::plain() {
            assert(spans[before.len() as int].1 == parts[i].1);
            assert(spans.contains(spans[before.len() as int]));
        }
    }
}

/// What is drawn past a place is cut there, and nothing else is changed.
pub proof fn spans_are_cut(all: Seq<Span>, end: int)
    requires
        0 <= end <= usize::MAX,
    ensures
        delta_highlight::trimmed(all, end) == all.filter(|span: Span| span.0.start < end).map_values(
            |span: Span|
                (
                    Range {
                        start: span.0.start,
                        end: if span.0.end < end {
                            span.0.end
                        } else {
                            end as usize
                        },
                    },
                    span.1,
                ),
        ),
    decreases all.len(),
{
    reveal(Seq::filter);
    let on = |span: Span| span.0.start < end;
    let cut = |span: Span|
        (
            Range {
                start: span.0.start,
                end: if span.0.end < end {
                    span.0.end
                } else {
                    end as usize
                },
            },
            span.1,
        );
    let kept = all.filter(on);
    if all.len() == 0 {
        assert(kept.map_values(cut) =~= seq![]);
    } else {
        spans_are_cut(all.drop_last(), end);
        let before = all.drop_last().filter(on);
        if on(all.last()) {
            assert(kept.map_values(cut) =~= before.map_values(cut).push(cut(all.last())));
        } else {
            assert(kept =~= before);
        }
    }
}

/// The lines of a hunk are those that start in it.
pub proof fn lines_are_counted_by_their_starts(starts: Seq<usize>, offset: int)
    requires
        forall|i: int, j: int| 0 <= i < j < starts.len() ==> starts[i] <= starts[j],
    ensures
        ({
            let n = delta_highlight::starts_below(starts, offset);
            &&& 0 <= n <= starts.len()
            &&& forall|i: int| 0 <= i < n ==> (#[trigger] starts[i]) < offset
            &&& forall|i: int| n <= i < starts.len() ==> (#[trigger] starts[i]) >= offset
        }),
    decreases starts.len(),
{
    if starts.len() > 0 && starts[0] < offset {
        let rest = starts.drop_first();
        assert forall|i: int, j: int| 0 <= i < j < rest.len() implies rest[i] <= rest[j] by {
            assert(starts[i + 1] <= starts[j + 1]);
        }
        lines_are_counted_by_their_starts(rest, offset);
        let n = delta_highlight::starts_below(starts, offset);
        assert forall|i: int| 0 <= i < n implies (#[trigger] starts[i]) < offset by {
            if i > 0 {
                assert(starts[i] == rest[i - 1]);
            }
        }
        assert forall|i: int| n <= i < starts.len() implies (#[trigger] starts[i]) >= offset by {
            assert(starts[i] == rest[i - 1]);
        }
    } else if starts.len() > 0 {
        assert forall|i: int| 0 <= i < starts.len() implies (#[trigger] starts[i]) >= offset by {
            if i > 0 {
                assert(starts[0] <= starts[i]);
            }
        }
    }
}

/// The colours of a terminal go by their names.
pub proof fn colors_go_by_their_names()
    ensures
        delta_highlight::color_of("Reset"@) == Some(Color::Reset),
        delta_highlight::color_of("Black"@) == Some(Color::Black),
        delta_highlight::color_of("Red"@) == Some(Color::Red),
        delta_highlight::color_of("Green"@) == Some(Color::Green),
        delta_highlight::color_of("Yellow"@) == Some(Color::Yellow),
        delta_highlight::color_of("Blue"@) == Some(Color::Blue),
        delta_highlight::color_of("Magenta"@) == Some(Color::Magenta),
        delta_highlight::color_of("Cyan"@) == Some(Color::Cyan),
        delta_highlight::color_of("Gray"@) == Some(Color::Gray),
        delta_highlight::color_of("DarkGray"@) == Some(Color::DarkGray),
        delta_highlight::color_of("LightRed"@) == Some(Color::LightRed),
        delta_highlight::color_of("LightGreen"@) == Some(Color::LightGreen),
        delta_highlight::color_of("LightYellow"@) == Some(Color::LightYellow),
        delta_highlight::color_of("LightBlue"@) == Some(Color::LightBlue),
        delta_highlight::color_of("LightMagenta"@) == Some(Color::LightMagenta),
        delta_highlight::color_of("LightCyan"@) == Some(Color::LightCyan),
        delta_highlight::color_of("White"@) == Some(Color::White),
{
    reveal_strlit("Reset");
    reveal_strlit("Black");
    reveal_strlit("Red");
    reveal_strlit("Green");
    reveal_strlit("Yellow");
    reveal_strlit("Blue");
    reveal_strlit("Magenta");
    reveal_strlit("Cyan");
    reveal_strlit("Gray");
    reveal_strlit("DarkGray");
    reveal_strlit("LightRed");
    reveal_strlit("LightGreen");
    reveal_strlit("LightYellow");
    reveal_strlit("LightBlue");
    reveal_strlit("LightMagenta");
    reveal_strlit("LightCyan");
    reveal_strlit("White");
    assert("Reset"@.len() == 5);
    assert("Black"@.len() == 5);
    assert("Red"@.len() == 3);
    assert("Green"@.len() == 5);
    assert("Yellow"@.len() == 6);
    assert("Blue"@.len() == 4);
    assert("Magenta"@.len() == 7);
    assert("Cyan"@.len() == 4);
    assert("Gray"@.len() == 4);
    assert("DarkGray"@.len() == 8);
    assert("LightRed"@.len() == 8);
    assert("LightGreen"@.len() == 10);
    assert("LightYellow"@.len() == 11);
    assert("LightBlue"@.len() == 9);
    assert("LightMagenta"@.len() == 12);
    assert("LightCyan"@.len() == 9);
    assert("White"@.len() == 5);
    assert("Black"@[0] == 'B' && "Reset"@[0] == 'R');
    assert("Green"@[0] == 'G' && "Reset"@[0] == 'R');
    assert("Green"@[0] == 'G' && "Black"@[0] == 'B');
    assert("Cyan"@[0] == 'C' && "Blue"@[0] == 'B');
    assert("Gray"@[0] == 'G' && "Blue"@[0] == 'B');
    assert("Gray"@[0] == 'G' && "Cyan"@[0] == 'C');
    assert("LightRed"@[0] == 'L' && "DarkGray"@[0] == 'D');
    assert("LightCyan"@[5] == 'C' && "LightBlue"@[5] == 'B');
    assert("White"@[0] == 'W' && "Reset"@[0] == 'R');
    assert("White"@[0] == 'W' && "Black"@[0] == 'B');
    assert("White"@[0] == 'W' && "Green"@[0] == 'G');
}

/// The lines of a diff start where those before them end.
pub proof fn lines_start_where_others_end(s: Seq<char>, i: int)
    requires
        0 <= i < text::lines(s).len(),
    ensures
        delta_highlight::starts_of(s).len() == text::lines(s).len(),
        delta_highlight::starts_of(s)[i] == text::total_len(text::lines(s).take(i)),
        delta_highlight::starts_of(seq![]) == seq![0int],
{
    if s.len() == 0 {
        assert(text::lines(s).len() == 0);
    }
}

/// What was coloured of a diff goes with its lines, one by one: each line's parts are
/// looked for on the line itself, without its newline.
pub proof fn colored_lines_go_with_their_lines(
    diff_text: Seq<char>,
    lines: Seq<Seq<(Seq<char>, Style)>>,
    i: int,
)
    requires
        0 <= i < lines.len(),
    ensures
        delta_highlight::spans_by_line(diff_text, lines).len() == lines.len(),
        i < text::lines(diff_text).len() && text::lines(diff_text)[i].last() == '\n'
            ==> delta_highlight::plain_line(diff_text, i).push('\n') == text::lines(diff_text)[i],
        i < text::lines(diff_text).len() && text::lines(diff_text)[i].last() != '\n'
            ==> delta_highlight::plain_line(diff_text, i) == text::lines(diff_text)[i],
        i >= text::lines(diff_text).len() ==> delta_highlight::plain_line(diff_text, i).len() == 0,
        ({
            let line = delta_highlight::plain_line(diff_text, i);
            let end = text::byte_len(line) - (if line.len() >= 2 && line[line.len() - 2] == '\r'
                && line[line.len() - 1] == '\n' {
                2int
            } else {
                0
            });
            delta_highlight::spans_by_line(diff_text, lines)[i] == delta_highlight::trimmed(
                delta_highlight::placed_spans(line, lines[i]),
                end,
            )
        }),
{
    text::lemma_lines_concat(diff_text);
    if i < text::lines(diff_text).len() && text::lines(diff_text)[i].last() == '\n' {
        assert(delta_highlight::plain_line(diff_text, i).push('\n') =~= text::lines(
            diff_text,
        )[i]);
    }
}

/// Whether a part of a line stands somewhere on it, from a place on, and nowhere between.
pub open spec fn stands_next(plain: Seq<char>, from: int, part: Seq<char>, at: int) -> bool {
    &&& from <= at
    &&& at + part.len() <= plain.len()
    &&& plain.subrange(at, at + part.len()) == part
    &&& forall|k: int|
        from <= k < at ==> #[trigger] plain.subrange(k, k + part.len()) != part
}

/// A part that was coloured is looked for behind what was found before it, and is where
/// it stands next; one that doesn't stand there is taken to follow right on, as far as
/// the line goes.
pub proof fn parts_are_found_where_they_stand(
    plain: Seq<char>,
    from: int,
    part: Seq<char>,
    at: int,
)
    requires
        0 <= from <= plain.len(),
        part.len() > 0,
    ensures
        stands_next(plain, from, part, at) ==> delta_highlight::placed(
            plain,
            text::byte_len(plain.take(from)) as int,
            part,
        ) == (
            text::byte_len(plain.take(at)) as int,
            text::byte_len(plain.take(at)) as int + text::byte_len(part),
        ),
        (forall|k: int|
            from <= k && k + part.len() <= plain.len() ==> #[trigger] plain.subrange(
                k,
                k + part.len(),
            ) != part) ==> ({
            let start = text::byte_len(plain.take(from)) as int;
            let end = start + text::byte_len(part);
            delta_highlight::placed(plain, start, part) == (
                start,
                if end < text::byte_len(plain) {
                    end
                } else {
                    text::byte_len(plain) as int
                },
            )
        }),
{
    text::lemma_char_at(plain, from);
    the_first_is_found(plain, from, part);
    if stands_next(plain, from, part, at) {
        match delta_highlight::find_from(plain, from, part) {
            Some(found) => {
                if found < at {
                    assert(plain.subrange(found, found + part.len()) == part);
                } else if at < found {
                    assert(plain.subrange(at, at + part.len()) == part);
                }
            },
            None => {
                assert(plain.subrange(at, at + part.len()) == part);
            },
        }
    }
}

/// Parts are drawn one by one, each that has a style of its own where it was found, and
/// the next is looked for behind it.
pub proof fn parts_are_drawn_one_by_one(
    plain: Seq<char>,
    parts: Seq<(Seq<char>, Style)>,
    part: (Seq<char>, Style),
)
    ensures
        ({
            let offset = delta_highlight::offset_after(plain, parts);
            let (start, end) = delta_highlight::placed(plain, offset, part.0);
            let before = delta_highlight::placed_spans(plain, parts);
            let after = delta_highlight::placed_spans(plain, parts.push(part));
            &&& delta_highlight::offset_after(plain, parts.push(part)) == end
            &&& part.1 == style::plain() ==> after == before
            &&& part.1 != style::plain() && start < end ==> after == before.push(
                (Range { start: start as usize, end: end as usize }, part.1),
            )
        }),
        delta_highlight::offset_after(plain, seq![]) == 0,
        delta_highlight::placed_spans(plain, seq![]).len() == 0,
{
    assert(parts.push(part).drop_last() =~= parts);
    let before = delta_highlight::placed_spans(plain, parts);
    let after = delta_highlight::placed_spans(plain, parts.push(part));
    let offset = delta_highlight::offset_after(plain, parts);
    let (start, end) = delta_highlight::placed(plain, offset, part.0);
    if part.1 == style::plain() {
        assert(after =~= before);
    } else if start < end {
        assert(after =~= before.push(
            (Range { start: start as usize, end: end as usize }, part.1),
        ));
    }
}

} // verus!
