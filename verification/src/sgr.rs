//! The numbers that escape sequences carry: SGR (Select Graphic Rendition)
//! parameter lists, and the decimal fields of control records.

use crate::style;
use crate::style::{Color, Modifier, Style};
use vstd::prelude::*;

verus! {

/// `style` with some attributes added.
pub open spec fn with_added(style: Style, modifier: Modifier) -> Style {
    Style { add_modifier: style::union(style.add_modifier, modifier), ..style }
}

/// `style` with some attributes no longer added.
pub open spec fn with_removed(style: Style, modifier: Modifier) -> Style {
    Style { add_modifier: style::difference(style.add_modifier, modifier), ..style }
}

/// What one SGR parameter that stands on its own does to a style. Unknown
/// parameters do nothing.
pub open spec fn sgr_one(style: Style, code: u16) -> Style {
    if code == 0 {
        style::plain()
    } else if code == 1 {
        with_added(style, Modifier { bits: style::BOLD })
    } else if code == 2 {
        with_added(style, Modifier { bits: style::DIM })
    } else if code == 3 {
        with_added(style, Modifier { bits: style::ITALIC })
    } else if code == 4 {
        with_added(style, Modifier { bits: style::UNDERLINED })
    } else if code == 7 {
        with_added(style, Modifier { bits: style::REVERSED })
    } else if code == 9 {
        with_added(style, Modifier { bits: style::CROSSED_OUT })
    } else if code == 22 {
        with_removed(style, Modifier { bits: style::BOLD | style::DIM })
    } else if code == 23 {
        with_removed(style, Modifier { bits: style::ITALIC })
    } else if code == 24 {
        with_removed(style, Modifier { bits: style::UNDERLINED })
    } else if code == 27 {
        with_removed(style, Modifier { bits: style::REVERSED })
    } else if code == 29 {
        with_removed(style, Modifier { bits: style::CROSSED_OUT })
    } else if 30 <= code <= 37 {
        Style { fg: Some(Color::Indexed((code - 30) as u8)), ..style }
    } else if code == 39 {
        Style { fg: None, ..style }
    } else if 40 <= code <= 47 {
        Style { bg: Some(Color::Indexed((code - 40) as u8)), ..style }
    } else if code == 49 {
        Style { bg: None, ..style }
    } else if 90 <= code <= 97 {
        Style { fg: Some(Color::Indexed((code - 90 + 8) as u8)), ..style }
    } else if 100 <= code <= 107 {
        Style { bg: Some(Color::Indexed((code - 100 + 8) as u8)), ..style }
    } else {
        style
    }
}

/// The colour that follows a `38` or `48`, and how many parameters spell it:
/// `2;r;g;b` or `5;index`.
pub open spec fn extended_color(rest: Seq<u16>) -> Option<(Color, int)> {
    if rest.len() >= 4 && rest[0] == 2 {
        Some((Color::Rgb(rest[1] as u8, rest[2] as u8, rest[3] as u8), 4))
    } else if rest.len() >= 2 && rest[0] == 5 {
        Some((Color::Indexed(rest[1] as u8), 2))
    } else {
        None
    }
}

/// What the rest of a parameter list does to a style. An extended colour that
/// can't be read ends the list.
pub open spec fn sgr_rest(style: Style, codes: Seq<u16>) -> Style
    decreases codes.len(),
{
    if codes.len() == 0 {
        style
    } else if codes[0] == 38 || codes[0] == 48 {
        match extended_color(codes.skip(1)) {
            Some((color, n)) => {
                let next = if codes[0] == 38 {
                    Style { fg: Some(color), ..style }
                } else {
                    Style { bg: Some(color), ..style }
                };
                sgr_rest(next, codes.skip(1 + n))
            },
            None => style,
        }
    } else {
        sgr_rest(sgr_one(style, codes[0]), codes.skip(1))
    }
}

/// What an SGR parameter list does to a style. The empty list resets it.
pub open spec fn sgr(style: Style, codes: Seq<u16>) -> Style {
    if codes.len() == 0 {
        style::plain()
    } else {
        sgr_rest(style, codes)
    }
}

/// Apply one SGR parameter that stands on its own.
fn apply_one(style: &mut Style, code: u16)
    ensures
        *final(style) == sgr_one(*old(style), code),
{
    if code == 0 {
        *style = Style::new();
    } else if code == 1 {
        style.add_modifier = style.add_modifier.union(Modifier { bits: style::BOLD });
    } else if code == 2 {
        style.add_modifier = style.add_modifier.union(Modifier { bits: style::DIM });
    } else if code == 3 {
        style.add_modifier = style.add_modifier.union(Modifier { bits: style::ITALIC });
    } else if code == 4 {
        style.add_modifier = style.add_modifier.union(Modifier { bits: style::UNDERLINED });
    } else if code == 7 {
        style.add_modifier = style.add_modifier.union(Modifier { bits: style::REVERSED });
    } else if code == 9 {
        style.add_modifier = style.add_modifier.union(Modifier { bits: style::CROSSED_OUT });
    } else if code == 22 {
        style.add_modifier = style.add_modifier.difference(Modifier { bits: style::BOLD | style::DIM });
    } else if code == 23 {
        style.add_modifier = style.add_modifier.difference(Modifier { bits: style::ITALIC });
    } else if code == 24 {
        style.add_modifier = style.add_modifier.difference(Modifier { bits: style::UNDERLINED });
    } else if code == 27 {
        style.add_modifier = style.add_modifier.difference(Modifier { bits: style::REVERSED });
    } else if code == 29 {
        style.add_modifier = style.add_modifier.difference(Modifier { bits: style::CROSSED_OUT });
    } else if 30 <= code && code <= 37 {
        style.fg = Some(Color::Indexed((code - 30) as u8));
    } else if code == 39 {
        style.fg = None;
    } else if 40 <= code && code <= 47 {
        style.bg = Some(Color::Indexed((code - 40) as u8));
    } else if code == 49 {
        style.bg = None;
    } else if 90 <= code && code <= 97 {
        style.fg = Some(Color::Indexed((code - 90 + 8) as u8));
    } else if 100 <= code && code <= 107 {
        style.bg = Some(Color::Indexed((code - 100 + 8) as u8));
    }
}

/// Apply an SGR parameter list to `style`.
pub fn apply_sgr(style: &mut Style, codes: &[u16])
    ensures
        *final(style) == sgr(*old(style), codes@),
{
    if codes.len() == 0 {
        *style = Style::new();
        return;
    }
    let mut i: usize = 0;
    proof {
        assert(codes@.skip(0) =~= codes@);
    }
    while i < codes.len()
        invariant
            i <= codes@.len(),
            sgr_rest(*style, codes@.skip(i as int)) == sgr_rest(*old(style), codes@),
        ensures
            *style == sgr_rest(*old(style), codes@),
        decreases codes@.len() - i,
    {
        let ghost before = *style;
        let ghost rest = codes@.skip(i as int);
        proof {
            assert(rest.skip(1) =~= codes@.skip(i + 1));
        }
        let code = codes[i];
        if code == 38 || code == 48 {
            match parse_extended_color(codes, i + 1) {
                Some((color, advance)) => {
                    if code == 38 {
                        style.fg = Some(color);
                    } else {
                        style.bg = Some(color);
                    }
                    proof {
                        assert(rest.skip(1 + advance) =~= codes@.skip(i + advance + 1));
                    }
                    i += advance;
                },
                None => {
                    break;
                },
            }
        } else {
            apply_one(style, code);
        }
        i += 1;
    }
}

/// Parse the tail of a `38`/`48` extended-colour sequence, returning the colour
/// and how many of the parameters from `at` on it consumed.
pub fn parse_extended_color(codes: &[u16], at: usize) -> (color: Option<(Color, usize)>)
    requires
        at <= codes@.len(),
    ensures
        match color {
            Some((c, n)) => extended_color(codes@.skip(at as int)) == Some((c, n as int)) && n
                <= codes@.len() - at,
            None => extended_color(codes@.skip(at as int)) is None,
        },
{
    let left = codes.len() - at;
    if left >= 4 && codes[at] == 2 {
        Some((
            Color::Rgb(
                #[verifier::truncate] (codes[at + 1] as u8),
                #[verifier::truncate] (codes[at + 2] as u8),
                #[verifier::truncate] (codes[at + 3] as u8),
            ),
            4,
        ))
    } else if left >= 2 && codes[at] == 5 {
        Some((Color::Indexed(#[verifier::truncate] (codes[at + 1] as u8)), 2))
    } else {
        None
    }
}

// ---------------------------------------------------------------------------
// Decimal numbers
// ---------------------------------------------------------------------------

pub open spec fn is_digit(b: u8) -> bool {
    0x30 <= b <= 0x39
}

/// What a string of digits is worth.
pub open spec fn digits_value(bytes: Seq<u8>) -> nat
    decreases bytes.len(),
{
    if bytes.len() == 0 {
        0
    } else {
        10 * digits_value(bytes.drop_last()) + (bytes.last() - 0x30) as nat
    }
}

pub open spec fn all_digits(bytes: Seq<u8>) -> bool {
    forall|i: int| 0 <= i < bytes.len() ==> is_digit(#[trigger] bytes[i])
}

/// A field without its leading `+`, if it has one.
pub open spec fn unsigned_part(bytes: Seq<u8>) -> Seq<u8> {
    if bytes.len() > 0 && bytes[0] == 0x2b {
        bytes.skip(1)
    } else {
        bytes
    }
}

/// The number a field spells: one or more digits, a leading `+` allowed, no
/// larger than a `u32` holds.
pub open spec fn number(bytes: Seq<u8>) -> Option<u32> {
    let digits = unsigned_part(bytes);
    if digits.len() > 0 && all_digits(digits) && digits_value(digits) <= u32::MAX {
        Some(digits_value(digits) as u32)
    } else {
        None
    }
}

proof fn lemma_digits_value_grows(bytes: Seq<u8>, i: int)
    requires
        0 <= i <= bytes.len(),
        all_digits(bytes),
    ensures
        digits_value(bytes.take(i)) <= digits_value(bytes),
    decreases bytes.len(),
{
    if i == bytes.len() {
        assert(bytes.take(i) =~= bytes);
    } else {
        assert(bytes.drop_last().take(i) =~= bytes.take(i));
        lemma_digits_value_grows(bytes.drop_last(), i);
    }
}

/// Read a decimal field.
pub fn parse_u32(bytes: &[u8]) -> (n: Option<u32>)
    ensures
        n == number(bytes@),
{
    let start: usize = if bytes.len() > 0 && bytes[0] == 0x2b {
        1
    } else {
        0
    };
    let ghost digits = unsigned_part(bytes@);
    proof {
        assert(bytes@.skip(0) =~= bytes@);
    }
    if start == bytes.len() {
        return None;
    }
    let mut value: u64 = 0;
    let mut i: usize = start;
    proof {
        assert(digits.take(0) =~= Seq::<u8>::empty());
    }
    while i < bytes.len()
        invariant
            start <= i <= bytes@.len(),
            start < bytes@.len(),
            digits == unsigned_part(bytes@),
            digits == bytes@.skip(start as int),
            value == digits_value(digits.take(i - start)),
            value <= u32::MAX,
            forall|k: int| 0 <= k < i - start ==> is_digit(#[trigger] digits[k]),
        decreases bytes@.len() - i,
    {
        let b = bytes[i];
        proof {
            assert(digits[i - start] == b);
        }
        if b < 0x30 || b > 0x39 {
            return None;
        }
        proof {
            let next = digits.take(i - start + 1);
            assert(next.drop_last() =~= digits.take(i - start));
            assert(next.last() == b);
        }
        value = value * 10 + (b - 0x30) as u64;
        i += 1;
        if value > u32::MAX as u64 {
            proof {
                if all_digits(digits) {
                    lemma_digits_value_grows(digits, i - start);
                }
            }
            return None;
        }
    }
    proof {
        assert(digits.take(digits.len() as int) =~= digits);
    }
    Some(value as u32)
}

} // verus!
