//! Where a screen is at: the cursor, the selection and the top of the viewport,
//! and what each movement makes of them. Nothing in here runs; it is what the
//! screen's own functions are measured against.

use crate::frame;
use crate::frame::{Frame, NavMode, Top};
use vstd::prelude::*;

verus! {

/// The cursor, where a selection of several rows was started, and the top of the
/// viewport.
pub struct Place {
    pub cursor: int,
    pub anchor: Option<int>,
    pub top: Top,
}

/// A row as it is drawn.
pub struct Drawn {
    pub item: int,
    /// Whether it is in the selection, or in the subtree that heads.
    pub highlighted: bool,
    /// Whether it is in the selection itself.
    pub selected: bool,
}

impl Place {
    /// The first and the last row of the selection.
    pub open spec fn selection(self) -> (int, int) {
        let anchor = match self.anchor {
            Some(anchor) => anchor,
            None => self.cursor,
        };
        if anchor < self.cursor {
            (anchor, self.cursor)
        } else {
            (self.cursor, anchor)
        }
    }

    pub open spec fn selects(self, i: int) -> bool {
        self.selection().0 <= i <= self.selection().1
    }

    /// Whether a place is one on a frame.
    pub open spec fn on(self, f: Frame) -> bool {
        &&& 0 <= self.cursor < f.len()
        &&& self.anchor matches Some(anchor) ==> 0 <= anchor < f.len()
        &&& 0 <= self.top.item < f.len()
        &&& 0 <= self.top.offset
    }
}

impl Frame {
    /// With the viewport moved up until the cursor is on screen.
    pub open spec fn fit_start(self, place: Place) -> Place {
        let top = self.top_for_start(place.cursor);
        Place {
            top: if frame::above(top, place.top) {
                top
            } else {
                place.top
            },
            ..place
        }
    }

    /// With the viewport moved down until the selection ends on screen.
    pub open spec fn fit_end(self, place: Place) -> Place {
        let top = self.top_for_end(place.cursor);
        Place {
            top: if frame::above(place.top, top) {
                top
            } else {
                place.top
            },
            ..place
        }
    }

    /// With both ends of what is selected on screen, the start winning.
    pub open spec fn fit(self, place: Place) -> Place {
        self.fit_start(self.fit_end(place))
    }

    pub open spec fn moved_next(self, place: Place, mode: NavMode) -> Place {
        self.fit(Place { cursor: self.found_next(place.cursor, mode), ..place })
    }

    pub open spec fn moved_previous(self, place: Place, mode: NavMode) -> Place {
        self.fit_start(Place { cursor: self.found_previous(place.cursor, mode), ..place })
    }

    /// With the cursor moved off a row it may not rest on: up if there is
    /// anywhere to go, else down.
    pub open spec fn freed(self, place: Place, mode: NavMode) -> Place {
        let up = if self.selectable(place.cursor, mode) {
            place
        } else {
            self.moved_previous(place, mode)
        };
        if self.selectable(up.cursor, mode) {
            up
        } else {
            self.moved_next(up, mode)
        }
    }

    /// Which rows to move over, from the kind of row the cursor is on.
    pub open spec fn nav_mode(self, cursor: int) -> NavMode {
        if self.rows[cursor].sub_line {
            NavMode::IncludeSubLines
        } else {
            NavMode::Normal
        }
    }

    /// Whether a row is in the selection or in the subtree its last row heads.
    pub open spec fn is_selected(self, place: Place, i: int) -> bool {
        let (start, end) = place.selection();
        place.selects(i) || (i > end && forall|k: int|
            end < k <= i ==> (#[trigger] self.rows[k]).depth > self.rows[start].depth)
    }

    /// Rows as they are drawn, given whether what is above them is highlighted.
    pub open spec fn views_of(
        self,
        place: Place,
        drawn: Seq<(int, int)>,
        highlighted: bool,
    ) -> Seq<Drawn>
        decreases drawn.len(),
    {
        if drawn.len() == 0 {
            seq![]
        } else {
            let item = drawn[0].0;
            let selected = place.selects(item);
            let lit = if selected {
                true
            } else if self.rows[item].depth <= self.rows[place.selection().0].depth {
                false
            } else {
                highlighted
            };
            seq![Drawn { item, highlighted: lit, selected }] + self.views_of(
                place,
                drawn.drop_first(),
                lit,
            )
        }
    }

    /// The rows on screen, as they are drawn.
    pub open spec fn views(self, place: Place) -> Seq<Drawn> {
        self.views_of(
            place,
            self.drawn(place.top),
            self.is_selected(place, place.top.item),
        )
    }

    /// Whether nothing of the selection is on screen.
    pub open spec fn off_screen(self, place: Place) -> bool {
        forall|i: int|
            0 <= i < self.views(place).len() ==> !(#[trigger] self.views(place)[i]).highlighted
    }

    /// Whether no lines are drawn at all.
    pub open spec fn is_blank(self) -> bool {
        self.first_from(0, |i: int| self.rows[i].height > 0) is None
    }

    /// With the cursor in the middle of the screen, or on the last row drawn if
    /// there is nothing in the middle.
    pub open spec fn cursor_centered(self, place: Place) -> Place {
        let drawn = self.drawn(place.top);
        match self.row_at(place.top, (self.lines / 2) as int) {
            Some(item) => Place { cursor: item, ..place },
            None => if drawn.len() > 0 {
                Place { cursor: drawn.last().0, ..place }
            } else {
                place
            },
        }
    }

    /// With the cursor on a row that exists.
    pub open spec fn cursor_clamped(self, place: Place) -> Place {
        Place { cursor: frame::min_of(place.cursor, self.len() - 1), ..place }
    }

    /// A place made good after the rows changed: the viewport on content, the
    /// cursor on screen, and on something that can be selected.
    pub open spec fn updated(self, place: Place) -> Place {
        if self.is_blank() {
            Place { cursor: 0, ..place }
        } else {
            let clamped = self.cursor_clamped(Place { top: self.clamped(place.top), ..place });
            let shown = if self.off_screen(clamped) {
                self.cursor_centered(clamped)
            } else {
                clamped
            };
            self.freed(shown, self.nav_mode(shown.cursor))
        }
    }

    /// A viewport made good after the rows changed.
    pub open spec fn invalidated(self, place: Place) -> Place {
        Place { top: self.clamped(self.anchored(place.top)), ..place }
    }

    /// With the cursor on the row drawn at a line, or the nearest one to it that
    /// can be selected; unchanged if there is none.
    pub open spec fn moved_to_line(self, place: Place, line: int) -> Place {
        match self.row_at(place.top, line) {
            None => place,
            Some(item) => if item == place.cursor {
                place
            } else {
                let mode = self.nav_mode(item);
                let moved = self.freed(Place { cursor: item, anchor: None, ..place }, mode);
                if self.selectable(moved.cursor, mode) {
                    self.fit_start(moved)
                } else {
                    Place { cursor: place.cursor, ..moved }
                }
            },
        }
    }

    /// With the cursor on the first row that can be selected, the viewport at the
    /// top.
    pub open spec fn moved_to_top(self, place: Place) -> Place {
        let unmarked = Place { anchor: None, ..place };
        match self.first_from(0, self.selectable_rows(false)) {
            Some(first) => Place {
                cursor: first,
                top: Top { item: 0, offset: 0 },
                ..unmarked
            },
            None => unmarked,
        }
    }

    /// With the cursor on the last row that can be selected, the end of it on
    /// screen.
    pub open spec fn moved_to_bottom(self, place: Place) -> Place {
        let unmarked = Place { anchor: None, ..place };
        match self.last_from(self.last_of(), self.selectable_rows(false)) {
            Some(last) => self.fit_end(Place { cursor: last, ..unmarked }),
            None => unmarked,
        }
    }

    /// With the viewport moved down, as far as the content allows.
    pub open spec fn scrolled_down(self, top: Top, lines: int) -> Top {
        self.clamped(self.advanced(top, lines))
    }

    /// With the view moved by some lines and the cursor on the line of it that it
    /// was on. Once the view has nowhere further to go, the cursor finishes the
    /// journey on its own.
    pub open spec fn page_turned(self, place: Place, lines: int, forwards: bool) -> Place {
        let start = Place { anchor: None, ..place };
        let row = frame::line_of(self.drawn(start.top), start.cursor);
        let top = if forwards {
            self.scrolled_down(start.top, lines)
        } else {
            self.retreated(start.top, lines)
        };
        if top == start.top {
            if forwards {
                self.moved_to_bottom(start)
            } else {
                self.moved_to_top(start)
            }
        } else {
            let scrolled = Place { top, ..start };
            let moved = match row {
                Some(row) => self.moved_to_line(scrolled, row),
                None => scrolled,
            };
            Place { top, ..self.freed(moved, self.nav_mode(moved.cursor)) }
        }
    }

    /// With the cursor brought on screen: in the middle of it if it is off, and
    /// with as little movement as it takes otherwise.
    pub open spec fn scrolled_to_cursor(self, place: Place) -> Place {
        self.fit(
            if self.off_screen(place) {
                Place { top: self.centered(place.cursor), ..place }
            } else {
                place
            },
        )
    }
}

/// Every row of the selection that is drawn is drawn highlighted.
pub proof fn selected_is_highlighted(f: Frame, place: Place, i: int)
    requires
        0 <= i < f.views(place).len(),
        f.views(place)[i].selected,
    ensures
        f.views(place)[i].highlighted,
        place.selects(f.views(place)[i].item),
{
    lemma_views_of(
        f,
        place,
        f.drawn(place.top),
        f.is_selected(place, place.top.item),
        i,
    );
}

proof fn lemma_views_of(
    f: Frame,
    place: Place,
    drawn: Seq<(int, int)>,
    highlighted: bool,
    i: int,
)
    requires
        0 <= i < f.views_of(place, drawn, highlighted).len(),
    ensures
        f.views_of(place, drawn, highlighted)[i].selected == place.selects(
            f.views_of(place, drawn, highlighted)[i].item,
        ),
        f.views_of(place, drawn, highlighted)[i].selected ==> f.views_of(
            place,
            drawn,
            highlighted,
        )[i].highlighted,
    decreases drawn.len(),
{
    if i > 0 {
        let all = f.views_of(place, drawn, highlighted);
        let lit = all[0].highlighted;
        lemma_views_of(f, place, drawn.drop_first(), lit, i - 1);
        assert(all[i] == f.views_of(place, drawn.drop_first(), lit)[i - 1]);
    }
}

/// Moving the cursor keeps it on the rows there are.
pub proof fn moves_stay_on(f: Frame, place: Place, mode: NavMode)
    requires
        place.on(f),
    ensures
        f.moved_next(place, mode).on(f),
        f.moved_previous(place, mode).on(f),
{
    let next = f.found_next(place.cursor, mode);
    let previous = f.found_previous(place.cursor, mode);
    lemma_found_bounds(f, place.cursor, mode);
    lemma_fit_on(f, Place { cursor: next, ..place });
    lemma_fit_on(f, Place { cursor: previous, ..place });
}

pub proof fn lemma_found_bounds(f: Frame, i: int, mode: NavMode)
    requires
        0 <= i < f.len(),
    ensures
        0 <= f.found_next(i, mode) < f.len(),
        0 <= f.found_previous(i, mode) < f.len(),
{
    frame::lemma_next_bounds(f, i);
    frame::lemma_prev_bounds(f, i);
    if let Some(j) = f.next_of(i) {
        lemma_first_bounds(f, j, |k: int| f.nav_ok(k, mode));
    }
    if let Some(j) = f.prev_of(i) {
        lemma_last_bounds(f, j, |k: int| f.nav_ok(k, mode));
    }
}

pub proof fn lemma_first_bounds(f: Frame, i: int, wanted: spec_fn(int) -> bool)
    requires
        0 <= i < f.len(),
    ensures
        f.first_from(i, wanted) matches Some(j) ==> i <= j < f.len() && wanted(j),
    decreases f.len() - i,
{
    frame::lemma_next_bounds(f, i);
    if !wanted(i) {
        if let Some(j) = f.next_of(i) {
            lemma_first_bounds(f, j, wanted);
        }
    }
}

pub proof fn lemma_last_bounds(f: Frame, i: int, wanted: spec_fn(int) -> bool)
    requires
        0 <= i < f.len(),
    ensures
        f.last_from(i, wanted) matches Some(j) ==> 0 <= j <= i && wanted(j),
    decreases i,
{
    frame::lemma_prev_bounds(f, i);
    if !wanted(i) {
        if let Some(j) = f.prev_of(i) {
            lemma_last_bounds(f, j, wanted);
        }
    }
}

pub proof fn lemma_fit_on(f: Frame, place: Place)
    requires
        place.on(f),
    ensures
        f.fit_start(place).on(f),
        f.fit_end(place).on(f),
        f.fit(place).on(f),
{
    let c = place.cursor;
    frame::lemma_retreated_bounds(f, Top { item: c, offset: 0 }, f.rows[c].depth as int);
    frame::lemma_last_selected_bounds(f, c);
    let last = f.last_selected(c);
    frame::lemma_retreated_bounds(
        f,
        Top { item: last, offset: frame::less(f.rows[last].height as int, 1) },
        frame::less(f.lines as int, frame::BOTTOM_CONTEXT_LINES + 1),
    );
}

/// Once the viewport has been fitted to the cursor, it starts no lower than the
/// cursor's row.
pub proof fn fit_shows_cursor(f: Frame, place: Place)
    requires
        place.on(f),
    ensures
        !frame::above(Top { item: f.fit(place).cursor, offset: 0 }, f.fit(place).top),
        f.fit(place).cursor == place.cursor,
{
    let c = place.cursor;
    let start = f.top_for_start(c);
    frame::lemma_retreated_bounds(f, Top { item: c, offset: 0 }, f.rows[c].depth as int);
    lemma_retreated_above(f, c, f.rows[c].depth as int);
}

/// Once the viewport has been fitted to the cursor, the cursor's row is drawn: in a
/// view that has room for it and for the headers it sits under, and that starts far
/// enough up in the row it starts at, which is drawn whole.
pub proof fn fitted_cursor_is_drawn(f: Frame, place: Place)
    requires
        place.on(f),
        f.visible(place.cursor),
        f.visible(place.top.item),
        f.fit(place).top.offset + f.rows[place.cursor].depth + f.rows[place.cursor].height
            <= f.lines,
        f.fit(place).top.offset + frame::less(f.lines as int, frame::BOTTOM_CONTEXT_LINES + 1) + 1
            <= f.lines,
    ensures
        frame::line_of(f.drawn(f.fit(place).top), place.cursor) is Some,
{
    let c = place.cursor;
    let last = f.last_selected(c);
    let at_last = Top { item: last, offset: frame::less(f.rows[last].height as int, 1) };
    let room = frame::less(f.lines as int, frame::BOTTOM_CONTEXT_LINES + 1);
    let start = f.top_for_start(c);
    let end = f.top_for_end(c);
    let top = f.fit(place).top;
    frame::last_selected_visible(f, c);
    lemma_fit_on(f, place);
    frame::lemma_retreated_bounds(f, Top { item: c, offset: 0 }, f.rows[c].depth as int);
    frame::scrolling_up_counts_lines(f, Top { item: c, offset: 0 }, f.rows[c].depth as int);
    frame::lemma_retreated_bounds(f, at_last, room);
    frame::lemma_retreated_within(f, at_last, room);
    frame::scrolling_up_counts_lines(f, at_last, room);
    frame::lemma_lines_grow(f, c, last);
    if top != start {
        // The selection's end holds the viewport down, and the cursor is above it.
        if top != end {
            assert(top == place.top);
        }
        frame::lemma_order_counts_lines(f, end, top);
    }
    assert(top.item <= c);
    frame::drawn_below(f, top.item, 0, c);
}

/// Moving up keeps the cursor's row drawn: where it was drawn before, it is drawn
/// after, as long as there is room for it and for the headers it sits under.
pub proof fn moving_up_keeps_cursor_drawn(f: Frame, place: Place, mode: NavMode)
    requires
        place.on(f),
        f.visible(place.cursor),
        f.visible(place.top.item),
        place.top.item <= place.cursor,
        f.lines_before(place.cursor) - f.lines_before(place.top.item)
            + f.rows[place.cursor].height <= f.lines,
        ({
            let moved = f.moved_previous(place, mode);
            moved.top.offset + f.rows[moved.cursor].depth + f.rows[moved.cursor].height <= f.lines
        }),
    ensures
        ({
            let moved = f.moved_previous(place, mode);
            frame::line_of(f.drawn(moved.top), moved.cursor) is Some
        }),
{
    let moved = f.moved_previous(place, mode);
    let c = moved.cursor;
    let start = f.top_for_start(c);
    frame::found_previous_is_nearest(f, place.cursor, mode);
    lemma_found_bounds(f, place.cursor, mode);
    frame::lemma_retreated_bounds(f, Top { item: c, offset: 0 }, f.rows[c].depth as int);
    frame::scrolling_up_counts_lines(f, Top { item: c, offset: 0 }, f.rows[c].depth as int);
    frame::lemma_lines_grow(f, c, place.cursor);
    assert(moved.top.item <= c);
    frame::drawn_below(f, moved.top.item, 0, c);
}

/// Turning the page and turning it back arrives at the line the view started from,
/// where there is a page of content to turn to.
pub proof fn turning_back_returns(f: Frame, place: Place, lines: int)
    requires
        place.on(f),
        f.visible(place.top.item),
        place.top.offset <= f.rows[place.top.item].height,
        0 < lines,
        f.line_at(place.top) + lines < f.lines_before(f.len()),
        f.scrolled_down(place.top, lines) == f.advanced(place.top, lines),
    ensures
        f.line_at(f.page_turned(f.page_turned(place, lines, true), lines, false).top) == f.line_at(
            place.top,
        ),
{
    let down = f.advanced(place.top, lines);
    frame::scrolling_down_counts_lines(f, place.top, lines);
    frame::scrolling_back_returns(f, place.top, lines);
    frame::lemma_lines_grow(f, down.item, f.len());
    let there = f.page_turned(place, lines, true);
    assert(f.line_at(down) > f.line_at(place.top));
    assert(there.top == down);
    assert(f.line_at(f.retreated(down, lines)) != f.line_at(down));
}

/// Turning pages gets to the end: each turn moves the view on down the content, or
/// puts the cursor on the last row there is to select.
pub proof fn turning_pages_gets_on(f: Frame, place: Place, lines: int)
    requires
        place.on(f),
        frame::within(f, place.top),
        forall|i: int| 0 <= i < f.len() ==> (#[trigger] f.rows[i]).height > 0,
        f.clamped(place.top) == place.top,
        0 < lines,
    ensures
        ({
            let turned = f.page_turned(place, lines, true);
            f.line_at(turned.top) > f.line_at(place.top) || turned == f.moved_to_bottom(place)
        }),
{
    let down = f.advanced(place.top, lines);
    let top = f.scrolled_down(place.top, lines);
    frame::lemma_advanced_within(f, place.top, lines);
    frame::scrolling_down_counts_lines(f, place.top, lines);
    frame::lemma_lines_grow(f, place.top.item, f.len());
    frame::lemma_lines_step_down(f, down.item);
    assert(f.line_at(down) >= f.line_at(place.top));
    frame::lemma_clamped_line(f, place.top);
    frame::lemma_clamped_line(f, down);
    lemma_clamped_within(f, down);
    if top != place.top {
        if f.line_at(top) == f.line_at(place.top) {
            frame::lemma_line_tells_top(f, top, place.top);
        }
    }
}

proof fn lemma_clamped_within(f: Frame, top: Top)
    requires
        frame::within(f, top),
        forall|i: int| 0 <= i < f.len() ==> (#[trigger] f.rows[i]).height > 0,
    ensures
        frame::within(f, f.clamped(top)),
{
    let wanted = frame::less(f.lines as int, frame::BOTTOM_CONTEXT_LINES as int);
    let over = wanted - f.lines_below(top, wanted);
    if over > 0 {
        let above = f.lines_above(top, over + frame::BOTTOM_CONTEXT_LINES);
        let lines = frame::min_of(over, frame::less(above, frame::BOTTOM_CONTEXT_LINES as int));
        frame::lemma_retreated_stays_within(f, top, lines);
    }
}

proof fn lemma_retreated_above(f: Frame, item: int, lines: int)
    requires
        0 <= item < f.len(),
        0 <= lines,
    ensures
        !frame::above(
            Top { item, offset: 0 },
            f.retreated(Top { item, offset: 0 }, lines),
        ),
{
    frame::lemma_prev_bounds(f, item);
    frame::lemma_retreated_bounds(f, Top { item, offset: 0 }, lines);
    if lines > 0 {
        if let Some(prev) = f.prev_of(item) {
            if lines > f.rows[prev].height {
                frame::lemma_retreated_bounds(
                    f,
                    Top { item: prev, offset: 0 },
                    lines - f.rows[prev].height,
                );
                assert(f.retreated(Top { item: prev, offset: 0 }, lines - f.rows[prev].height)
                    == f.retreated_from(prev, lines - f.rows[prev].height));
            }
        }
    }
}

} // verus!
