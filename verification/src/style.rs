//! Terminal text styles: colours, modifiers, and how one style is laid over
//! another.

use vstd::prelude::*;

verus! {

/// A terminal colour: one of the named ones, a palette index, or a literal RGB.
#[derive(Clone, Copy, Debug, PartialEq, Eq, Structural)]
pub enum Color {
    Reset,
    Black,
    Red,
    Green,
    Yellow,
    Blue,
    Magenta,
    Cyan,
    Gray,
    DarkGray,
    LightRed,
    LightGreen,
    LightYellow,
    LightBlue,
    LightMagenta,
    LightCyan,
    White,
    Rgb(u8, u8, u8),
    Indexed(u8),
}

/// A set of text attributes, one bit each.
#[derive(Clone, Copy, Debug, PartialEq, Eq, Structural)]
pub struct Modifier {
    pub bits: u16,
}

pub const BOLD: u16 = 0x001;

pub const DIM: u16 = 0x002;

pub const ITALIC: u16 = 0x004;

pub const UNDERLINED: u16 = 0x008;

pub const SLOW_BLINK: u16 = 0x010;

pub const RAPID_BLINK: u16 = 0x020;

pub const REVERSED: u16 = 0x040;

pub const HIDDEN: u16 = 0x080;

pub const CROSSED_OUT: u16 = 0x100;

/// No attribute at all.
pub open spec fn no_modifier() -> Modifier {
    Modifier { bits: 0 }
}

/// The attributes of either set.
pub open spec fn union(a: Modifier, b: Modifier) -> Modifier {
    Modifier { bits: a.bits | b.bits }
}

/// The attributes of `a` that are not in `b`.
pub open spec fn difference(a: Modifier, b: Modifier) -> Modifier {
    Modifier { bits: a.bits & !b.bits }
}

impl Modifier {
    pub fn empty() -> (m: Modifier)
        ensures
            m == no_modifier(),
    {
        Modifier { bits: 0 }
    }

    pub fn union(self, other: Modifier) -> (m: Modifier)
        ensures
            m == union(self, other),
    {
        Modifier { bits: self.bits | other.bits }
    }

    pub fn difference(self, other: Modifier) -> (m: Modifier)
        ensures
            m == difference(self, other),
    {
        Modifier { bits: self.bits & !other.bits }
    }
}

/// How a run of text looks. What is `None` or in neither modifier set is left
/// as whatever is underneath.
#[derive(Clone, Copy, Debug, PartialEq, Eq, Structural)]
pub struct Style {
    pub fg: Option<Color>,
    pub bg: Option<Color>,
    pub add_modifier: Modifier,
    pub sub_modifier: Modifier,
}

/// The style that changes nothing.
pub open spec fn plain() -> Style {
    Style { fg: None, bg: None, add_modifier: no_modifier(), sub_modifier: no_modifier() }
}

/// `top` laid over `base`.
pub open spec fn patched(base: Style, top: Style) -> Style {
    Style {
        fg: if top.fg is Some {
            top.fg
        } else {
            base.fg
        },
        bg: if top.bg is Some {
            top.bg
        } else {
            base.bg
        },
        add_modifier: union(difference(base.add_modifier, top.sub_modifier), top.add_modifier),
        sub_modifier: union(difference(base.sub_modifier, top.add_modifier), top.sub_modifier),
    }
}

impl Style {
    pub fn new() -> (style: Style)
        ensures
            style == plain(),
    {
        Style {
            fg: None,
            bg: None,
            add_modifier: Modifier::empty(),
            sub_modifier: Modifier::empty(),
        }
    }

    /// Lay `other` over this style: what it sets wins, what it leaves open shows
    /// through.
    pub fn patch(self, other: Style) -> (style: Style)
        ensures
            style == patched(self, other),
    {
        Style {
            fg: match other.fg {
                Some(color) => Some(color),
                None => self.fg,
            },
            bg: match other.bg {
                Some(color) => Some(color),
                None => self.bg,
            },
            add_modifier: self.add_modifier.difference(other.sub_modifier).union(
                other.add_modifier,
            ),
            sub_modifier: self.sub_modifier.difference(other.add_modifier).union(
                other.sub_modifier,
            ),
        }
    }
}

impl Default for Style {
    fn default() -> (style: Style)
        ensures
            style == plain(),
    {
        Style::new()
    }
}

/// The plain style laid over another leaves it as it is.
pub proof fn patch_with_plain(style: Style)
    ensures
        patched(style, plain()) == style,
{
    let (add, remove) = (style.add_modifier.bits, style.sub_modifier.bits);
    assert((add & !0u16) | 0u16 == add) by (bit_vector);
    assert((remove & !0u16) | 0u16 == remove) by (bit_vector);
}

/// Laying a style over the plain one gives that style.
pub proof fn patch_onto_plain(style: Style)
    ensures
        patched(plain(), style) == style,
{
    let (add, remove) = (style.add_modifier.bits, style.sub_modifier.bits);
    assert((0u16 & !remove) | add == add) by (bit_vector);
    assert((0u16 & !add) | remove == remove) by (bit_vector);
}

/// Laying the same style on twice is laying it on once.
pub proof fn patch_twice(base: Style, top: Style)
    ensures
        patched(patched(base, top), top) == patched(base, top),
{
    let (add, remove) = (base.add_modifier.bits, base.sub_modifier.bits);
    let (more, less) = (top.add_modifier.bits, top.sub_modifier.bits);
    assert((((add & !less) | more) & !less) | more == (add & !less) | more) by (bit_vector);
    assert((((remove & !more) | less) & !more) | less == (remove & !more) | less) by (bit_vector);
}

/// Layers can be flattened from either end, as long as the layer in the middle
/// doesn't remove what it adds.
pub proof fn patch_associates(a: Style, b: Style, c: Style)
    requires
        difference(b.add_modifier, b.sub_modifier) == b.add_modifier,
    ensures
        patched(patched(a, b), c) == patched(a, patched(b, c)),
{
    let (a1, a2) = (a.add_modifier.bits, a.sub_modifier.bits);
    let (b1, b2) = (b.add_modifier.bits, b.sub_modifier.bits);
    let (c1, c2) = (c.add_modifier.bits, c.sub_modifier.bits);
    assert((((a1 & !b2) | b1) & !c2) | c1 == (a1 & !((b2 & !c1) | c2)) | ((b1 & !c2) | c1))
        by (bit_vector);
    assert((((a2 & !b1) | b2) & !c1) | c2 == (a2 & !((b1 & !c2) | c1)) | ((b2 & !c1) | c2))
        by (bit_vector);
}

} // verus!
