//! Which rows a movement of the viewport has to measure. Laying a row out is what
//! costs, so a long list is no dearer than a short one as long as only the rows that
//! are reached are laid out: how tall the others are changes nothing. Nothing in here
//! runs.

use crate::frame;
use crate::frame::{Frame, Top};
use crate::place::Place;
use vstd::prelude::*;

verus! {

/// Whether two outlines are the same but for how tall their rows are.
pub open spec fn same_outline(f: Frame, g: Frame) -> bool {
    &&& f.lines == g.lines
    &&& f.len() == g.len()
    &&& forall|i: int|
        0 <= i < f.len() ==> {
            &&& (#[trigger] f.rows[i]).depth == g.rows[i].depth
            &&& f.rows[i].section == g.rows[i].section
            &&& f.rows[i].collapsed == g.rows[i].collapsed
            &&& f.rows[i].unselectable == g.rows[i].unselectable
            &&& f.rows[i].sub_line == g.rows[i].sub_line
            &&& f.rows[i].hunk == g.rows[i].hunk
        }
}

/// Whether rows are as tall in one outline as in another, from one row to another.
pub open spec fn same_heights(f: Frame, g: Frame, from: int, upto: int) -> bool {
    forall|i: int|
        from <= i <= upto && 0 <= i < f.len() ==> (#[trigger] f.rows[i]).height
            == g.rows[i].height
}

impl Frame {
    /// The last row that counting lines downwards reaches.
    pub open spec fn counts_down_to(self, item: int, lines: int, limit: int) -> int
        decreases self.len() - item,
    {
        if lines >= limit {
            item
        } else {
            match self.next_of(item) {
                None => item,
                Some(next) => if item < next {
                    self.counts_down_to(next, lines + self.rows[next].height, limit)
                } else {
                    item
                },
            }
        }
    }

    /// The first row that counting lines upwards reaches.
    pub open spec fn counts_up_to(self, item: int, lines: int, limit: int) -> int
        decreases item,
    {
        if lines >= limit {
            item
        } else {
            match self.prev_of(item) {
                None => item,
                Some(prev) => if 0 <= prev < item {
                    self.counts_up_to(prev, lines + self.rows[prev].height, limit)
                } else {
                    item
                },
            }
        }
    }

    /// The last row that pulling a top back onto content reaches: a screenful below it.
    pub open spec fn clamp_reaches_down(self, top: Top) -> int {
        let wanted = frame::less(self.lines as int, frame::BOTTOM_CONTEXT_LINES as int);
        self.counts_down_to(
            top.item,
            frame::less(self.rows[top.item].height as int, top.offset),
            wanted,
        )
    }

    /// The first row that pulling a top back onto content reaches: none above it, unless
    /// the content ends less than a screenful below.
    pub open spec fn clamp_reaches_up(self, top: Top) -> int {
        let wanted = frame::less(self.lines as int, frame::BOTTOM_CONTEXT_LINES as int);
        let below = self.lines_below(top, wanted);
        if below >= wanted {
            top.item
        } else {
            let limit = wanted - below + frame::BOTTOM_CONTEXT_LINES;
            frame::min_of(
                self.counts_up_to(top.item, top.offset, limit),
                self.clamped(top).item,
            )
        }
    }
}

// ---------------------------------------------------------------------------
// Walking looks at no heights
// ---------------------------------------------------------------------------

proof fn lemma_hides(f: Frame, g: Frame, a: int, i: int, floor: nat)
    requires
        same_outline(f, g),
        f.hides_above(a, i, floor),
    ensures
        g.hides_above(a, i, floor),
{
    assert(f.rows[a].depth == g.rows[a].depth);
    assert forall|k: int| a < k <= i implies (#[trigger] g.rows[k]).depth > g.rows[a].depth by {
        assert(f.rows[k].depth > f.rows[a].depth);
    }
    assert forall|k: int| a < k <= i implies (#[trigger] g.rows[k]).depth > floor by {
        assert(f.rows[k].depth > floor);
    }
}

proof fn lemma_flip(f: Frame, g: Frame)
    requires
        same_outline(f, g),
    ensures
        same_outline(g, f),
{
    assert forall|i: int| 0 <= i < g.len() implies {
        &&& (#[trigger] g.rows[i]).depth == f.rows[i].depth
        &&& g.rows[i].section == f.rows[i].section
        &&& g.rows[i].collapsed == f.rows[i].collapsed
        &&& g.rows[i].unselectable == f.rows[i].unselectable
        &&& g.rows[i].sub_line == f.rows[i].sub_line
        &&& g.rows[i].hunk == f.rows[i].hunk
    } by {
        assert(f.rows[i].depth == g.rows[i].depth);
    }
}

proof fn lemma_hider(f: Frame, g: Frame, a: int, i: int, floor: nat)
    requires
        same_outline(f, g),
    ensures
        f.hider_from(a, i, floor) == g.hider_from(a, i, floor),
    decreases i - a,
{
    if a < i {
        lemma_flip(f, g);
        if f.hides_above(a, i, floor) {
            lemma_hides(f, g, a, i, floor);
        } else {
            if g.hides_above(a, i, floor) {
                lemma_hides(g, f, a, i, floor);
            }
            lemma_hider(f, g, a + 1, i, floor);
        }
    }
}

proof fn lemma_subtree_end(f: Frame, g: Frame, i: int, k: int)
    requires
        same_outline(f, g),
        0 <= i < f.len(),
        0 <= k,
    ensures
        f.subtree_end(i, k) == g.subtree_end(i, k),
    decreases f.len() - k,
{
    assert(f.rows[i].depth == g.rows[i].depth);
    if k < f.len() {
        assert(f.rows[k].depth == g.rows[k].depth);
        if f.rows[k].depth > f.rows[i].depth {
            lemma_subtree_end(f, g, i, k + 1);
        }
    }
}

/// Where a walk leads from a row doesn't depend on how tall any row is.
pub proof fn walks_are_the_same(f: Frame, g: Frame, i: int)
    requires
        same_outline(f, g),
        0 <= i < f.len(),
    ensures
        f.next_of(i) == g.next_of(i),
        f.prev_of(i) == g.prev_of(i),
        f.last_selected(i) == g.last_selected(i),
        f.last_of() == g.last_of(),
{
    lemma_subtree_end(f, g, i, i + 1);
    assert(f.rows[i].depth == g.rows[i].depth);
    lemma_hider(f, g, 0, i - 1, f.rows[i].depth);
    lemma_hider(f, g, 0, f.subtree_end(i, i + 1) - 1, f.rows[i].depth);
    lemma_hider(f, g, 0, f.len() - 1, 0);
}

proof fn lemma_first_from(
    f: Frame,
    g: Frame,
    i: int,
    wanted: spec_fn(int) -> bool,
    also: spec_fn(int) -> bool,
)
    requires
        same_outline(f, g),
        0 <= i < f.len(),
        forall|k: int| 0 <= k < f.len() ==> #[trigger] wanted(k) == also(k),
    ensures
        f.first_from(i, wanted) == g.first_from(i, also),
    decreases f.len() - i,
{
    walks_are_the_same(f, g, i);
    frame::lemma_next_bounds(f, i);
    assert(wanted(i) == also(i));
    if !wanted(i) {
        if let Some(j) = f.next_of(i) {
            lemma_first_from(f, g, j, wanted, also);
        }
    }
}

proof fn lemma_last_from(
    f: Frame,
    g: Frame,
    i: int,
    wanted: spec_fn(int) -> bool,
    also: spec_fn(int) -> bool,
)
    requires
        same_outline(f, g),
        0 <= i < f.len(),
        forall|k: int| 0 <= k < f.len() ==> #[trigger] wanted(k) == also(k),
    ensures
        f.last_from(i, wanted) == g.last_from(i, also),
    decreases i,
{
    walks_are_the_same(f, g, i);
    frame::lemma_prev_bounds(f, i);
    assert(wanted(i) == also(i));
    if !wanted(i) {
        if let Some(j) = f.prev_of(i) {
            lemma_last_from(f, g, j, wanted, also);
        }
    }
}

// ---------------------------------------------------------------------------
// Scrolling
// ---------------------------------------------------------------------------

proof fn lemma_retreated_from(f: Frame, g: Frame, item: int, lines: int)
    requires
        same_outline(f, g),
        0 <= item < f.len(),
        same_heights(f, g, f.retreated_from(item, lines).item, item - 1),
    ensures
        f.retreated_from(item, lines) == g.retreated_from(item, lines),
    decreases item,
{
    walks_are_the_same(f, g, item);
    frame::lemma_prev_bounds(f, item);
    if lines > 0 {
        if let Some(prev) = f.prev_of(item) {
            let height = f.rows[prev].height;
            if lines > height {
                frame::lemma_retreated_bounds(f, Top { item: prev, offset: 0 }, lines - height);
                assert(f.retreated(Top { item: prev, offset: 0 }, lines - height)
                    == f.retreated_from(prev, lines - height));
                assert(f.rows[prev].height == g.rows[prev].height);
                lemma_retreated_from(f, g, prev, lines - height);
            } else {
                assert(f.rows[prev].height == g.rows[prev].height);
            }
        }
    }
}

/// Scrolling up measures the rows it goes over and no others.
pub proof fn scrolling_up_reaches(f: Frame, g: Frame, top: Top, lines: int)
    requires
        same_outline(f, g),
        0 <= top.item < f.len(),
        same_heights(f, g, f.retreated(top, lines).item, top.item - 1),
    ensures
        f.retreated(top, lines) == g.retreated(top, lines),
{
    if lines > top.offset {
        lemma_retreated_from(f, g, top.item, lines - top.offset);
    }
}

proof fn lemma_advanced_bounds(f: Frame, top: Top, lines: int)
    requires
        0 <= top.item < f.len(),
        0 <= top.offset,
    ensures
        top.item <= f.advanced(top, lines).item < f.len(),
        0 <= f.advanced(top, lines).offset,
    decreases f.len() - top.item,
{
    frame::lemma_next_bounds(f, top.item);
    let left = frame::less(f.rows[top.item].height as int, top.offset);
    if 0 < lines && left <= lines {
        if let Some(next) = f.next_of(top.item) {
            lemma_advanced_bounds(f, Top { item: next, offset: 0 }, lines - left);
        }
    }
}

/// Going down the content measures the rows that are gone over, and the one that is
/// arrived at.
pub proof fn going_down_reaches(f: Frame, g: Frame, top: Top, lines: int)
    requires
        same_outline(f, g),
        0 <= top.item < f.len(),
        0 <= top.offset,
        same_heights(f, g, top.item, f.advanced(top, lines).item),
    ensures
        f.advanced(top, lines) == g.advanced(top, lines),
    decreases f.len() - top.item,
{
    walks_are_the_same(f, g, top.item);
    frame::lemma_next_bounds(f, top.item);
    lemma_advanced_bounds(f, top, lines);
    assert(f.rows[top.item].height == g.rows[top.item].height);
    let left = frame::less(f.rows[top.item].height as int, top.offset);
    if 0 < lines && left <= lines {
        if let Some(next) = f.next_of(top.item) {
            going_down_reaches(f, g, Top { item: next, offset: 0 }, lines - left);
        }
    }
}

proof fn lemma_counts_down_bounds(f: Frame, item: int, lines: int, limit: int)
    requires
        0 <= item < f.len(),
    ensures
        item <= f.counts_down_to(item, lines, limit) < f.len(),
    decreases f.len() - item,
{
    frame::lemma_next_bounds(f, item);
    if lines < limit {
        if let Some(next) = f.next_of(item) {
            lemma_counts_down_bounds(f, next, lines + f.rows[next].height, limit);
        }
    }
}

proof fn lemma_counted_below(f: Frame, g: Frame, item: int, lines: int, limit: int)
    requires
        same_outline(f, g),
        0 <= item < f.len(),
        same_heights(f, g, item, f.counts_down_to(item, lines, limit)),
    ensures
        f.counted_below(item, lines, limit) == g.counted_below(item, lines, limit),
    decreases f.len() - item,
{
    walks_are_the_same(f, g, item);
    frame::lemma_next_bounds(f, item);
    if lines < limit {
        if let Some(next) = f.next_of(item) {
            lemma_counts_down_bounds(f, next, lines + f.rows[next].height, limit);
            assert(f.rows[next].height == g.rows[next].height);
            lemma_counted_below(f, g, next, lines + f.rows[next].height, limit);
        }
    }
}

proof fn lemma_counts_up_bounds(f: Frame, item: int, lines: int, limit: int)
    requires
        0 <= item < f.len(),
    ensures
        0 <= f.counts_up_to(item, lines, limit) <= item,
    decreases item,
{
    frame::lemma_prev_bounds(f, item);
    if lines < limit {
        if let Some(prev) = f.prev_of(item) {
            lemma_counts_up_bounds(f, prev, lines + f.rows[prev].height, limit);
        }
    }
}

proof fn lemma_counted_above(f: Frame, g: Frame, item: int, lines: int, limit: int)
    requires
        same_outline(f, g),
        0 <= item < f.len(),
        same_heights(f, g, f.counts_up_to(item, lines, limit), item - 1),
    ensures
        f.counted_above(item, lines, limit) == g.counted_above(item, lines, limit),
    decreases item,
{
    walks_are_the_same(f, g, item);
    frame::lemma_prev_bounds(f, item);
    if lines < limit {
        if let Some(prev) = f.prev_of(item) {
            lemma_counts_up_bounds(f, prev, lines + f.rows[prev].height, limit);
            assert(f.rows[prev].height == g.rows[prev].height);
            lemma_counted_above(f, g, prev, lines + f.rows[prev].height, limit);
        }
    }
}

/// Pulling the viewport back onto content measures a screenful below its top, and only
/// where the content ends there any rows above.
pub proof fn clamping_reaches(f: Frame, g: Frame, top: Top)
    requires
        same_outline(f, g),
        0 <= top.item < f.len(),
        0 <= top.offset,
        same_heights(f, g, f.clamp_reaches_up(top), f.clamp_reaches_down(top)),
    ensures
        f.clamped(top) == g.clamped(top),
{
    let wanted = frame::less(f.lines as int, frame::BOTTOM_CONTEXT_LINES as int);
    let first = frame::less(f.rows[top.item].height as int, top.offset);
    let below = f.lines_below(top, wanted);
    lemma_counts_down_bounds(f, top.item, first, wanted);
    if below < wanted {
        let limit = wanted - below + frame::BOTTOM_CONTEXT_LINES;
        lemma_counts_up_bounds(f, top.item, top.offset, limit);
    }
    assert(f.clamp_reaches_up(top) <= top.item <= f.clamp_reaches_down(top));
    assert(f.rows[top.item].height == g.rows[top.item].height);
    lemma_counted_below(f, g, top.item, first, wanted);
    if below < wanted {
        let over = wanted - below;
        let limit = over + frame::BOTTOM_CONTEXT_LINES;
        lemma_counted_above(f, g, top.item, top.offset, limit);
        let above = f.lines_above(top, limit);
        let back = frame::min_of(over, frame::less(above, frame::BOTTOM_CONTEXT_LINES as int));
        scrolling_up_reaches(f, g, top, back);
    }
}

/// Scrolling down measures the rows it goes over and a screenful below them, and no
/// others, unless it comes to the end of the content.
pub proof fn scrolling_down_reaches(f: Frame, g: Frame, top: Top, lines: int)
    requires
        same_outline(f, g),
        0 <= top.item < f.len(),
        0 <= top.offset,
        ({
            let down = f.advanced(top, lines);
            same_heights(
                f,
                g,
                frame::min_of(top.item, f.clamp_reaches_up(down)),
                f.clamp_reaches_down(down),
            )
        }),
    ensures
        f.scrolled_down(top, lines) == g.scrolled_down(top, lines),
{
    let down = f.advanced(top, lines);
    lemma_advanced_bounds(f, top, lines);
    lemma_counts_down_bounds(
        f,
        down.item,
        frame::less(f.rows[down.item].height as int, down.offset),
        frame::less(f.lines as int, frame::BOTTOM_CONTEXT_LINES as int),
    );
    going_down_reaches(f, g, top, lines);
    clamping_reaches(f, g, down);
}

// ---------------------------------------------------------------------------
// Jumping
// ---------------------------------------------------------------------------

proof fn lemma_selectable(f: Frame, g: Frame)
    requires
        same_outline(f, g),
    ensures
        forall|k: int|
            0 <= k < f.len() ==> #[trigger] (f.selectable_rows(false))(k) == (g.selectable_rows(
                false,
            ))(k),
{
    assert forall|k: int| 0 <= k < f.len() implies #[trigger] (f.selectable_rows(false))(k) == (
    g.selectable_rows(false))(k) by {
        assert(f.rows[k].unselectable == g.rows[k].unselectable);
    }
}

/// Jumping to the top measures no row at all.
pub proof fn jumping_to_the_top_reaches_nothing(f: Frame, g: Frame, place: Place)
    requires
        same_outline(f, g),
        place.on(f),
    ensures
        f.moved_to_top(place) == g.moved_to_top(place),
{
    lemma_selectable(f, g);
    lemma_first_from(f, g, 0, f.selectable_rows(false), g.selectable_rows(false));
}

/// The first row that bringing the end of a selection on screen reaches.
pub open spec fn end_reaches_up(f: Frame, cursor: int) -> int {
    f.top_for_end(cursor).item
}

/// Jumping to the bottom measures the rows it lands on and the screenful above them,
/// and none of those it skips.
pub proof fn jumping_to_the_bottom_skips_the_middle(f: Frame, g: Frame, place: Place)
    requires
        same_outline(f, g),
        place.on(f),
        ({
            let last = f.moved_to_bottom(place).cursor;
            same_heights(f, g, end_reaches_up(f, last), f.last_selected(last))
        }),
    ensures
        f.moved_to_bottom(place) == g.moved_to_bottom(place),
{
    lemma_selectable(f, g);
    frame::last_is_last_visible(f);
    walks_are_the_same(f, g, place.cursor);
    let from = f.last_of();
    lemma_last_from(f, g, from, f.selectable_rows(false), g.selectable_rows(false));
    crate::place::lemma_last_bounds(f, from, f.selectable_rows(false));
    if let Some(cursor) = f.last_from(from, f.selectable_rows(false)) {
        walks_are_the_same(f, g, cursor);
        frame::lemma_last_selected_bounds(f, cursor);
        let last = f.last_selected(cursor);
        let height = f.rows[last].height as int;
        let room = frame::less(f.lines as int, frame::BOTTOM_CONTEXT_LINES + 1);
        let start = Top { item: last, offset: frame::less(height, 1) };
        frame::lemma_retreated_bounds(f, start, room);
        assert(f.rows[last].height == g.rows[last].height);
        scrolling_up_reaches(f, g, start, room);
    }
}

// ---------------------------------------------------------------------------
// How far that is
// ---------------------------------------------------------------------------

/// How many steps a walk down takes from one row to another.
pub open spec fn steps_down(f: Frame, from: int, to: int) -> int
    decreases f.len() - from,
{
    if from >= to {
        0
    } else {
        match f.next_of(from) {
            Some(next) => if from < next {
                1 + steps_down(f, next, to)
            } else {
                0
            },
            None => 0,
        }
    }
}

/// How many steps a walk up takes from one row to another.
pub open spec fn steps_up(f: Frame, from: int, to: int) -> int
    decreases from,
{
    if from <= to {
        0
    } else {
        match f.prev_of(from) {
            Some(prev) => if 0 <= prev < from {
                1 + steps_up(f, prev, to)
            } else {
                0
            },
            None => 0,
        }
    }
}

/// Whether every row takes up at least a line.
pub open spec fn none_empty(f: Frame) -> bool {
    forall|i: int| 0 <= i < f.len() ==> (#[trigger] f.rows[i]).height > 0
}

/// Going down some lines steps over no more rows than that.
pub proof fn going_down_steps_over_few(f: Frame, top: Top, lines: int)
    requires
        none_empty(f),
        0 <= top.item < f.len(),
        0 <= top.offset < f.rows[top.item].height,
        0 <= lines,
    ensures
        steps_down(f, top.item, f.advanced(top, lines).item) <= lines,
    decreases f.len() - top.item,
{
    frame::lemma_next_bounds(f, top.item);
    let left = frame::less(f.rows[top.item].height as int, top.offset);
    if 0 < lines && left <= lines {
        if let Some(next) = f.next_of(top.item) {
            let rest = Top { item: next, offset: 0 };
            lemma_advanced_bounds(f, rest, lines - left);
            assert(f.rows[next].height > 0);
            going_down_steps_over_few(f, rest, lines - left);
        }
    }
}

/// Counting lines downwards, up to a limit, steps over no more rows than that.
pub proof fn counting_down_steps_over_few(f: Frame, item: int, lines: int, limit: int)
    requires
        none_empty(f),
        0 <= item < f.len(),
        0 <= lines <= limit,
    ensures
        steps_down(f, item, f.counts_down_to(item, lines, limit)) <= limit - lines,
    decreases f.len() - item,
{
    frame::lemma_next_bounds(f, item);
    if lines < limit {
        if let Some(next) = f.next_of(item) {
            let more = lines + f.rows[next].height;
            assert(f.rows[next].height > 0);
            lemma_counts_down_bounds(f, next, more, limit);
            if more < limit {
                counting_down_steps_over_few(f, next, more, limit);
            } else {
                assert(steps_down(f, next, next) == 0);
            }
        }
    }
}

proof fn lemma_retreating_steps(f: Frame, item: int, lines: int)
    requires
        none_empty(f),
        0 <= item < f.len(),
    ensures
        steps_up(f, item, f.retreated_from(item, lines).item) <= (if lines > 0 {
            lines
        } else {
            0
        }),
    decreases item,
{
    frame::lemma_prev_bounds(f, item);
    if lines > 0 {
        if let Some(prev) = f.prev_of(item) {
            assert(f.rows[prev].height > 0);
            if lines > f.rows[prev].height {
                let rest = lines - f.rows[prev].height;
                frame::lemma_retreated_bounds(f, Top { item: prev, offset: 0 }, rest);
                lemma_retreating_steps(f, prev, rest);
            } else {
                assert(steps_up(f, prev, prev) == 0);
            }
        }
    }
}

/// Going up some lines steps over no more rows than that. So a jump to the bottom
/// measures no more than a screenful of rows, however many it skips.
pub proof fn going_up_steps_over_few(f: Frame, top: Top, lines: int)
    requires
        none_empty(f),
        0 <= top.item < f.len(),
        0 <= top.offset,
        0 <= lines,
    ensures
        steps_up(f, top.item, f.retreated(top, lines).item) <= lines,
{
    if lines > top.offset {
        lemma_retreating_steps(f, top.item, lines - top.offset);
    }
}

} // verus!
