//! What escape sequences say.

use crate::osc;
use crate::sgr;
use crate::style;
use crate::style::{Color, Style};
use crate::text;
use vstd::prelude::*;

verus! {

/// The empty list and a lone zero leave nothing of a style.
pub proof fn resetting_leaves_nothing(style: Style)
    ensures
        ({
            let plain = sgr::sgr(style, seq![]);
            &&& plain == sgr::sgr(style, seq![0u16])
            &&& plain.fg is None
            &&& plain.bg is None
            &&& plain.add_modifier.bits == 0
            &&& plain.sub_modifier.bits == 0
        }),
{
    lemma_alone(style, 0);
}

proof fn lemma_alone(style: Style, code: u16)
    requires
        code != 38,
        code != 48,
    ensures
        sgr::sgr(style, seq![code]) == sgr::sgr_one(style, code),
{
    let one = seq![code];
    assert(one.skip(1) =~= Seq::<u16>::empty());
    assert(sgr::sgr_rest(sgr::sgr_one(style, code), one.skip(1)) == sgr::sgr_one(style, code));
}

/// Whether two styles have the same colours.
pub open spec fn same_colors(a: Style, b: Style) -> bool {
    a.fg == b.fg && a.bg == b.bg && a.sub_modifier == b.sub_modifier
}

/// Bold, dim, italic, underlined, reversed and crossed out text is asked for by numbers
/// of its own, each of which adds that and changes nothing else.
pub proof fn attributes_are_added(style: Style)
    ensures
        forall|code: u16, bit: u16|
            #![trigger attribute_of(code, bit)]
            attribute_of(code, bit) ==> same_colors(sgr::sgr(style, seq![code]), style)
                && sgr::sgr(style, seq![code]).add_modifier.bits == style.add_modifier.bits | bit,
{
    assert forall|code: u16, bit: u16| #[trigger] attribute_of(code, bit) implies same_colors(
        sgr::sgr(style, seq![code]),
        style,
    ) && sgr::sgr(style, seq![code]).add_modifier.bits == style.add_modifier.bits | bit by {
        lemma_alone(style, code);
    }
}

/// Which number asks for which attribute.
pub open spec fn attribute_of(code: u16, bit: u16) -> bool {
    ||| code == 1 && bit == 0x001
    ||| code == 2 && bit == 0x002
    ||| code == 3 && bit == 0x004
    ||| code == 4 && bit == 0x008
    ||| code == 7 && bit == 0x040
    ||| code == 9 && bit == 0x100
}

/// Which number takes which attributes back.
pub open spec fn taken_back_by(code: u16, bits: u16) -> bool {
    ||| code == 22 && bits == 0x003
    ||| code == 23 && bits == 0x004
    ||| code == 24 && bits == 0x008
    ||| code == 27 && bits == 0x040
    ||| code == 29 && bits == 0x100
}

/// What was asked for can be taken back, bold and dim text together, and taking it back
/// changes nothing else.
pub proof fn attributes_are_taken_back(style: Style)
    ensures
        forall|code: u16, bits: u16|
            #![trigger taken_back_by(code, bits)]
            taken_back_by(code, bits) ==> same_colors(sgr::sgr(style, seq![code]), style)
                && sgr::sgr(style, seq![code]).add_modifier.bits == style.add_modifier.bits & !bits,
{
    assert(0x001u16 | 0x002u16 == 0x003u16) by (bit_vector);
    assert forall|code: u16, bits: u16| #[trigger] taken_back_by(code, bits) implies same_colors(
        sgr::sgr(style, seq![code]),
        style,
    ) && sgr::sgr(style, seq![code]).add_modifier.bits == style.add_modifier.bits & !bits by {
        lemma_alone(style, code);
    }
}

/// The sixteen colours of a terminal have numbers of their own for the text and for what
/// is behind it. Each sets that one colour, and there is a number to take it back.
pub proof fn colors_are_set(style: Style, n: u16)
    requires
        n < 8,
    ensures
        sgr::sgr(style, seq![(30 + n) as u16]) == (Style { fg: Some(Color::Indexed(n as u8)), ..style }),
        sgr::sgr(style, seq![(40 + n) as u16]) == (Style { bg: Some(Color::Indexed(n as u8)), ..style }),
        sgr::sgr(style, seq![(90 + n) as u16]) == (Style {
            fg: Some(Color::Indexed((n + 8) as u8)),
            ..style
        }),
        sgr::sgr(style, seq![(100 + n) as u16]) == (Style {
            bg: Some(Color::Indexed((n + 8) as u8)),
            ..style
        }),
        sgr::sgr(style, seq![39u16]) == (Style { fg: None, ..style }),
        sgr::sgr(style, seq![49u16]) == (Style { bg: None, ..style }),
{
    lemma_alone(style, (30 + n) as u16);
    lemma_alone(style, (40 + n) as u16);
    lemma_alone(style, (90 + n) as u16);
    lemma_alone(style, (100 + n) as u16);
    lemma_alone(style, 39);
    lemma_alone(style, 49);
}

/// A colour of the palette and one made of red, green and blue are set the same way, and
/// what follows them counts.
pub proof fn other_colors_are_set(style: Style, n: u16, r: u16, g: u16, b: u16, rest: Seq<u16>)
    requires
        n < 256,
        r < 256,
        g < 256,
        b < 256,
        rest.len() > 0,
    ensures
        sgr::sgr(style, seq![38u16, 5, n] + rest) == sgr::sgr(
            (Style { fg: Some(Color::Indexed(n as u8)), ..style }),
            rest,
        ),
        sgr::sgr(style, seq![48u16, 5, n] + rest) == sgr::sgr(
            (Style { bg: Some(Color::Indexed(n as u8)), ..style }),
            rest,
        ),
        sgr::sgr(style, seq![38u16, 2, r, g, b] + rest) == sgr::sgr(
            (Style { fg: Some(Color::Rgb(r as u8, g as u8, b as u8)), ..style }),
            rest,
        ),
        sgr::sgr(style, seq![48u16, 2, r, g, b] + rest) == sgr::sgr(
            (Style { bg: Some(Color::Rgb(r as u8, g as u8, b as u8)), ..style }),
            rest,
        ),
{
    let one = seq![38u16, 5, n] + rest;
    assert(one.skip(3) =~= rest);
    assert(one.skip(1)[0] == 5 && one.skip(1)[1] == n && one.skip(1).len() >= 2);
    let two = seq![48u16, 5, n] + rest;
    assert(two.skip(3) =~= rest);
    assert(two.skip(1)[0] == 5 && two.skip(1)[1] == n && two.skip(1).len() >= 2);
    let three = seq![38u16, 2, r, g, b] + rest;
    assert(three.skip(5) =~= rest);
    assert(three.skip(1)[0] == 2 && three.skip(1)[1] == r && three.skip(1)[2] == g && three.skip(
        1,
    )[3] == b);
    let four = seq![48u16, 2, r, g, b] + rest;
    assert(four.skip(5) =~= rest);
    assert(four.skip(1)[0] == 2 && four.skip(1)[1] == r && four.skip(1)[2] == g && four.skip(1)[3]
        == b);
}

/// A colour that is only begun ends the list: what came before it holds.
pub proof fn unfinished_colors_set_nothing(style: Style, kind: u16, rest: Seq<u16>)
    requires
        kind == 38 || kind == 48,
        rest.len() == 0 || (rest[0] != 2 && rest[0] != 5) || (rest[0] == 5 && rest.len() < 2) || (
        rest[0] == 2 && rest.len() < 4),
    ensures
        sgr::sgr(style, seq![kind] + rest) == style,
{
    let all = seq![kind] + rest;
    assert(all.skip(1) =~= rest);
}

/// Numbers that ask for no colour of the palette are obeyed one after the other.
pub proof fn numbers_are_obeyed_in_turn(style: Style, code: u16, rest: Seq<u16>)
    requires
        code != 38,
        code != 48,
        rest.len() > 0,
    ensures
        sgr::sgr(style, seq![code] + rest) == sgr::sgr(sgr::sgr(style, seq![code]), rest),
{
    let all = seq![code] + rest;
    assert(all.skip(1) =~= rest);
    lemma_alone(style, code);
}

/// Numbers that ask for nothing do nothing.
pub proof fn other_numbers_do_nothing(style: Style, code: u16)
    requires
        code == 5 || code == 6 || code == 8 || 10 <= code <= 21 || code == 25 || code == 26 || code
            == 28 || 50 <= code <= 89 || 98 <= code <= 99 || 108 <= code,
    ensures
        sgr::sgr(style, seq![code]) == style,
{
    lemma_alone(style, code);
}

/// A number as the bytes it is written with.
pub open spec fn spelled(n: nat) -> Seq<u8> {
    text::decimal(n).map_values(|c: char| c as u8)
}

proof fn lemma_spelled(n: nat)
    ensures
        spelled(n).len() > 0,
        sgr::all_digits(spelled(n)),
        sgr::digits_value(spelled(n)) == n,
    decreases n,
{
    let bytes = spelled(n);
    assert(bytes.last() == (0x30 + n % 10) as u8);
    if n < 10 {
        assert(bytes.drop_last() =~= Seq::<u8>::empty());
        assert(sgr::digits_value(bytes.drop_last()) == 0);
        assert(sgr::all_digits(bytes));
    } else {
        lemma_spelled(n / 10);
        assert(bytes.drop_last() =~= spelled(n / 10));
        assert forall|i: int| 0 <= i < bytes.len() implies sgr::is_digit(#[trigger] bytes[i]) by {
            if i < bytes.len() - 1 {
                assert(bytes[i] == spelled(n / 10)[i]);
            }
        }
    }
}

/// A number that was written down is read back, with a sign before it or without, and
/// nothing else is read.
pub proof fn numbers_read_back(n: u32, other: Seq<u8>)
    ensures
        sgr::number(spelled(n as nat)) == Some(n),
        sgr::number(seq![0x2bu8] + spelled(n as nat)) == Some(n),
        sgr::number(seq![0x30u8] + spelled(n as nat)) == Some(n),
        sgr::number(seq![]) is None,
        (exists|i: int|
            0 < i < other.len() && !(0x30 <= #[trigger] other[i] <= 0x39)) ==> sgr::number(
            other,
        ) is None,
{
    let bytes = spelled(n as nat);
    lemma_spelled(n as nat);
    assert(sgr::is_digit(bytes[0]));
    let signed = seq![0x2bu8] + bytes;
    assert(signed.skip(1) =~= bytes);
    let zeroed = seq![0x30u8] + bytes;
    lemma_leading_zero(bytes);
    assert forall|i: int| 0 <= i < zeroed.len() implies sgr::is_digit(#[trigger] zeroed[i]) by {
        if i > 0 {
            assert(zeroed[i] == bytes[i - 1]);
        }
    }
    if exists|i: int| 0 < i < other.len() && !(0x30 <= #[trigger] other[i] <= 0x39) {
        let i = choose|i: int| 0 < i < other.len() && !(0x30 <= #[trigger] other[i] <= 0x39);
        let digits = sgr::unsigned_part(other);
        if other[0] == 0x2b {
            assert(digits[i - 1] == other[i]);
            assert(!sgr::is_digit(digits[i - 1]));
        } else {
            assert(!sgr::is_digit(digits[i]));
        }
    }
}

proof fn lemma_leading_zero(bytes: Seq<u8>)
    ensures
        sgr::digits_value(seq![0x30u8] + bytes) == sgr::digits_value(bytes),
    decreases bytes.len(),
{
    let all = seq![0x30u8] + bytes;
    if bytes.len() == 0 {
        assert(all.drop_last() =~= Seq::<u8>::empty());
        assert(sgr::digits_value(all.drop_last()) == 0);
    } else {
        assert(all.drop_last() =~= seq![0x30u8] + bytes.drop_last());
        lemma_leading_zero(bytes.drop_last());
    }
}

/// What was taken apart at its semicolons is put together with them.
pub proof fn semicolons_come_back(a: Seq<Seq<u8>>, b: Seq<Seq<u8>>)
    requires
        a.len() > 0,
        b.len() > 0,
    ensures
        osc::rejoined(a + b) == osc::rejoined(a) + seq![';'] + osc::rejoined(b),
        a.len() == 1 ==> osc::rejoined(a) == text::utf8_lossy(a[0]),
    decreases b.len(),
{
    let all = a + b;
    assert(all.drop_last() =~= a + b.drop_last());
    assert(all.last() == b.last());
    if b.len() == 1 {
        assert(a + b.drop_last() =~= a);
        assert(osc::rejoined(all) =~= osc::rejoined(a) + seq![';'] + osc::rejoined(b));
    } else {
        semicolons_come_back(a, b.drop_last());
        assert(osc::rejoined(all) =~= osc::rejoined(a) + seq![';'] + osc::rejoined(b));
    }
}

/// What lies on top wins, colour by colour; what it leaves open shows through. Attributes
/// add up, but for those that what lies on top takes back.
pub proof fn the_top_wins(base: Style, top: Style)
    ensures
        ({
            let both = style::patched(base, top);
            &&& top.fg is Some ==> both.fg == top.fg
            &&& top.fg is None ==> both.fg == base.fg
            &&& top.bg is Some ==> both.bg == top.bg
            &&& top.bg is None ==> both.bg == base.bg
            &&& both.add_modifier.bits & top.add_modifier.bits == top.add_modifier.bits
            &&& both.sub_modifier.bits & top.sub_modifier.bits == top.sub_modifier.bits
            &&& both.add_modifier.bits & top.sub_modifier.bits & !top.add_modifier.bits == 0
            &&& both.sub_modifier.bits & top.add_modifier.bits & !top.sub_modifier.bits == 0
            &&& both.add_modifier.bits & !top.add_modifier.bits & !top.sub_modifier.bits
                == base.add_modifier.bits & !top.add_modifier.bits & !top.sub_modifier.bits
            &&& both.sub_modifier.bits & !top.add_modifier.bits & !top.sub_modifier.bits
                == base.sub_modifier.bits & !top.add_modifier.bits & !top.sub_modifier.bits
        }),
{
    let (a, r) = (base.add_modifier.bits, base.sub_modifier.bits);
    let (m, l) = (top.add_modifier.bits, top.sub_modifier.bits);
    assert(((a & !l) | m) & m == m && ((r & !m) | l) & l == l) by (bit_vector);
    assert(((a & !l) | m) & l & !m == 0 && ((r & !m) | l) & m & !l == 0) by (bit_vector);
    assert(((a & !l) | m) & !m & !l == a & !m & !l) by (bit_vector);
    assert(((r & !m) | l) & !m & !l == r & !m & !l) by (bit_vector);
}

/// A number that is too large isn't read.
pub proof fn large_numbers_are_not_read(n: nat)
    requires
        n > u32::MAX,
    ensures
        sgr::number(spelled(n)) is None,
{
    lemma_spelled(n);
    assert(sgr::is_digit(spelled(n)[0]));
}

/// Numbers are written in digits, the highest first, and none before it.
pub proof fn numbers_are_written_in_digits(n: nat, d: nat)
    requires
        d < 10,
    ensures
        text::decimal(d) == seq![('0' as u8 + d) as char],
        n > 0 ==> text::decimal(10 * n + d) == text::decimal(n).push(('0' as u8 + d) as char),
{
    assert((10 * n + d) / 10 == n);
}

} // verus!
