//! Where the cursor goes, what is selected, and what is seen of it.

use crate::frame;
use crate::frame::{Frame, NavMode, Top};
use crate::ops::editor;
use crate::ops::editor::Motion;
use crate::place::{Drawn, Place};
use vstd::prelude::*;

verus! {

// ---------------------------------------------------------------------------
// What moves stop on
// ---------------------------------------------------------------------------

/// Whether a row can be stopped on at all.
pub open spec fn takes_cursor(f: Frame, i: int) -> bool {
    f.visible(i) && !f.rows[i].unselectable
}

/// Whether a row is stopped on by moves that pass over the lines of a hunk.
pub open spec fn takes_cursor_whole(f: Frame, i: int) -> bool {
    takes_cursor(f, i) && !f.rows[i].sub_line
}

/// Whether a row is stopped on by moves from section to section.
pub open spec fn takes_cursor_as_section(f: Frame, i: int, depth: nat) -> bool {
    takes_cursor(f, i) && f.rows[i].section && f.rows[i].depth <= depth
}

/// Whether a row is the nearest of some below another, or that other where there is none.
pub open spec fn is_nearest_below(
    f: Frame,
    from: int,
    wanted: spec_fn(int) -> bool,
    to: int,
) -> bool {
    ||| from < to < f.len() && wanted(to) && forall|k: int|
        from < k < to ==> !#[trigger] wanted(k)
    ||| to == from && forall|k: int| from < k < f.len() ==> !#[trigger] wanted(k)
}

/// Whether a row is the nearest of some above another, or that other where there is none.
pub open spec fn is_nearest_above(
    f: Frame,
    from: int,
    wanted: spec_fn(int) -> bool,
    to: int,
) -> bool {
    ||| 0 <= to < from && wanted(to) && forall|k: int| to < k < from ==> !#[trigger] wanted(k)
    ||| to == from && forall|k: int| 0 <= k < from ==> !#[trigger] wanted(k)
}

/// The rows that moves in some mode stop on.
pub open spec fn stops(f: Frame, mode: NavMode) -> spec_fn(int) -> bool {
    |i: int|
        match mode {
            NavMode::Normal => takes_cursor_whole(f, i),
            NavMode::Siblings { depth } => takes_cursor_as_section(f, i, depth as nat),
            NavMode::IncludeSubLines => takes_cursor(f, i),
        }
}

/// Moving down goes to the nearest row below that is stopped on, and moving up to the
/// nearest above; where there is none, nowhere.
pub proof fn moves_go_to_the_nearest(f: Frame, i: int, mode: NavMode)
    requires
        0 <= i < f.len(),
        f.visible(i),
    ensures
        is_nearest_below(f, i, stops(f, mode), f.found_next(i, mode)),
        is_nearest_above(f, i, stops(f, mode), f.found_previous(i, mode)),
{
    frame::found_next_is_nearest(f, i, mode);
    frame::found_previous_is_nearest(f, i, mode);
    let (down, up) = (f.found_next(i, mode), f.found_previous(i, mode));
    assert forall|k: int| #![trigger stops(f, mode)(k)] stops(f, mode)(k) == (f.visible(k)
        && f.nav_ok(k, mode)) by {}
    if down > i {
        assert(stops(f, mode)(down));
    }
    if up < i {
        assert(stops(f, mode)(up));
    }
}

/// Each motion moves the cursor as its name says: by rows, by lines, by sections or to
/// an end, and what was marked is no longer. Scrolling the view leaves both alone.
pub proof fn motions_do_as_they_say(f: Frame, at: Place, depth: usize, height: int)
    requires
        at.on(f),
        f.visible(at.cursor),
    ensures
        ({
            let up = editor::led(f, at, depth, height, Motion::Up);
            up.anchor is None && is_nearest_above(
                f,
                at.cursor,
                |i: int| takes_cursor_whole(f, i),
                up.cursor,
            )
        }),
        ({
            let down = editor::led(f, at, depth, height, Motion::Down);
            down.anchor is None && is_nearest_below(
                f,
                at.cursor,
                |i: int| takes_cursor_whole(f, i),
                down.cursor,
            )
        }),
        ({
            let up = editor::led(f, at, depth, height, Motion::UpLine);
            up.anchor is None && is_nearest_above(
                f,
                at.cursor,
                |i: int| takes_cursor(f, i),
                up.cursor,
            )
        }),
        ({
            let down = editor::led(f, at, depth, height, Motion::DownLine);
            down.anchor is None && is_nearest_below(
                f,
                at.cursor,
                |i: int| takes_cursor(f, i),
                down.cursor,
            )
        }),
        ({
            let up = editor::led(f, at, depth, height, Motion::PrevSection);
            up.anchor is None && is_nearest_above(
                f,
                at.cursor,
                |i: int| takes_cursor_as_section(f, i, depth as nat),
                up.cursor,
            )
        }),
        ({
            let down = editor::led(f, at, depth, height, Motion::NextSection);
            down.anchor is None && is_nearest_below(
                f,
                at.cursor,
                |i: int| takes_cursor_as_section(f, i, depth as nat),
                down.cursor,
            )
        }),
        ({
            let up = editor::led(f, at, depth, height, Motion::ParentSection);
            let outer: nat = if depth == 0 {
                0
            } else {
                (depth - 1) as nat
            };
            up.anchor is None && is_nearest_above(
                f,
                at.cursor,
                |i: int| takes_cursor_as_section(f, i, outer),
                up.cursor,
            )
        }),
        ({
            let top = editor::led(f, at, depth, height, Motion::Top);
            &&& top.anchor is None
            &&& (exists|i: int| 0 <= i < f.len() && #[trigger] takes_cursor(f, i)) ==> {
                &&& takes_cursor(f, top.cursor)
                &&& top.top == (Top { item: 0, offset: 0 })
                &&& forall|k: int| 0 <= k < top.cursor ==> !#[trigger] takes_cursor(f, k)
            }
        }),
        ({
            let bottom = editor::led(f, at, depth, height, Motion::Bottom);
            &&& bottom.anchor is None
            &&& (exists|i: int| 0 <= i < f.len() && #[trigger] takes_cursor(f, i)) ==> {
                &&& takes_cursor(f, bottom.cursor)
                &&& forall|k: int|
                    bottom.cursor < k < f.len() ==> !#[trigger] takes_cursor(f, k)
            }
        }),
        ({
            let up = editor::led(f, at, depth, height, Motion::ScrollViewUp);
            up.cursor == at.cursor && up.anchor == at.anchor
        }),
        ({
            let down = editor::led(f, at, depth, height, Motion::ScrollViewDown);
            down.cursor == at.cursor && down.anchor == at.anchor
        }),
{
    let i = at.cursor;
    let outer: usize = if depth > 0 {
        (depth - 1) as usize
    } else {
        0
    };
    moves_go_to_the_nearest(f, i, NavMode::Normal);
    moves_go_to_the_nearest(f, i, NavMode::IncludeSubLines);
    moves_go_to_the_nearest(f, i, NavMode::Siblings { depth });
    moves_go_to_the_nearest(f, i, NavMode::Siblings { depth: outer });
    lemma_same_nearest(f, i, stops(f, NavMode::Normal), |k: int| takes_cursor_whole(f, k));
    lemma_same_nearest(f, i, stops(f, NavMode::IncludeSubLines), |k: int| takes_cursor(f, k));
    lemma_same_nearest(
        f,
        i,
        stops(f, NavMode::Siblings { depth }),
        |k: int| takes_cursor_as_section(f, k, depth as nat),
    );
    lemma_same_nearest(
        f,
        i,
        stops(f, NavMode::Siblings { depth: outer }),
        |k: int| takes_cursor_as_section(f, k, outer as nat),
    );
    frame::first_visible(f);
    frame::last_is_last_visible(f);
    let wanted = f.selectable_rows(false);
    frame::first_from_is_first(f, 0, wanted);
    frame::last_from_is_last(f, f.last_of(), wanted);
    if exists|i: int| 0 <= i < f.len() && #[trigger] takes_cursor(f, i) {
        let k = choose|i: int| 0 <= i < f.len() && #[trigger] takes_cursor(f, i);
        assert(f.visible(k) && wanted(k));
        assert(k <= f.last_of());
    }
}

proof fn lemma_same_nearest(f: Frame, i: int, a: spec_fn(int) -> bool, b: spec_fn(int) -> bool)
    requires
        forall|k: int| #[trigger] a(k) == b(k),
    ensures
        forall|to: int|
            #![trigger is_nearest_below(f, i, b, to)]
            is_nearest_below(f, i, a, to) ==> is_nearest_below(f, i, b, to),
        forall|to: int|
            #![trigger is_nearest_above(f, i, b, to)]
            is_nearest_above(f, i, a, to) ==> is_nearest_above(f, i, b, to),
{
    assert(a =~= b);
}

/// Pages are turned by as many lines as are seen, or half as many; forwards never past
/// what is there, and backwards never past the start.
pub proof fn pages_are_turned_by_what_is_seen(f: Frame, at: Place, depth: usize, height: int)
    requires
        at.on(f),
        f.visible(at.top.item),
        0 <= height,
    ensures
        ({
            let full = editor::led(f, at, depth, height, Motion::FullPageUp);
            let half = editor::led(f, at, depth, height, Motion::HalfPageUp);
            let line = editor::led(f, at, depth, height, Motion::ScrollViewUp);
            &&& f.line_at(line.top) == frame::less(f.line_at(at.top), 1)
            &&& f.retreated(at.top, height) != at.top ==> f.line_at(full.top) == frame::less(
                f.line_at(at.top),
                height,
            )
            &&& f.retreated(at.top, height / 2) != at.top ==> f.line_at(half.top) == frame::less(
                f.line_at(at.top),
                height / 2,
            )
        }),
        ({
            let full = editor::led(f, at, depth, height, Motion::FullPageDown);
            let half = editor::led(f, at, depth, height, Motion::HalfPageDown);
            let line = editor::led(f, at, depth, height, Motion::ScrollViewDown);
            &&& line.top == f.clamped(f.advanced(at.top, 1))
            &&& f.clamped(f.advanced(at.top, height)) != at.top ==> full.top == f.clamped(
                f.advanced(at.top, height),
            )
            &&& f.clamped(f.advanced(at.top, height / 2)) != at.top ==> half.top == f.clamped(
                f.advanced(at.top, height / 2),
            )
        }),
{
    frame::scrolling_up_counts_lines(f, at.top, 1);
    frame::scrolling_up_counts_lines(f, at.top, height);
    frame::scrolling_up_counts_lines(f, at.top, height / 2);
}

// ---------------------------------------------------------------------------
// The view
// ---------------------------------------------------------------------------

/// A view is scrolled no further down than that two lines less than fill it are left of
/// what there is, unless there is too little for that.
pub proof fn views_stay_filled(f: Frame, top: Top)
    requires
        0 <= top.item < f.len(),
        f.visible(top.item),
        0 <= top.offset <= f.rows[top.item].height,
    ensures
        ({
            let left = f.lines_before(f.len()) - f.line_at(top);
            let wanted = if f.lines < 2 {
                0
            } else {
                f.lines - 2
            };
            let line = f.line_at(f.clamped(top));
            &&& left >= wanted ==> line == f.line_at(top)
            &&& left < wanted && f.line_at(top) <= 2 ==> line == f.line_at(top)
            &&& left < wanted && f.line_at(top) > 2 ==> line == f.line_at(top) - (if wanted - left
                < f.line_at(top) - 2 {
                wanted - left
            } else {
                f.line_at(top) - 2
            })
        }),
{
    frame::lemma_clamped_line(f, top);
}

/// The view is scrolled so that as many lines are above the cursor as it is deep, and so
/// that what it heads is seen with two lines below it; and only as far as that takes.
pub proof fn views_follow_the_cursor(f: Frame, place: Place)
    requires
        place.on(f),
        f.visible(place.cursor),
    ensures
        ({
            let start = f.top_for_start(place.cursor);
            let end = f.top_for_end(place.cursor);
            let last = f.last_selected(place.cursor);
            let below = f.fit_end(place);
            let fitted = f.fit(place);
            &&& f.line_at(start) == frame::less(
                f.lines_before(place.cursor),
                f.rows[place.cursor].depth as int,
            )
            &&& f.line_at(end) == frame::less(
                f.lines_before(last) + (if f.rows[last].height == 0 {
                    0
                } else {
                    f.rows[last].height - 1
                }),
                if f.lines < 3 {
                    0
                } else {
                    f.lines - 3
                },
            )
            &&& fitted.cursor == place.cursor
            &&& fitted.anchor == place.anchor
            &&& below.top == (if frame::above(place.top, end) {
                end
            } else {
                place.top
            })
            &&& fitted.top == (if frame::above(start, below.top) {
                start
            } else {
                below.top
            })
        }),
{
    let cursor = place.cursor;
    let last = f.last_selected(cursor);
    frame::last_selected_visible(f, cursor);
    frame::scrolling_up_counts_lines(
        f,
        Top { item: cursor, offset: 0 },
        f.rows[cursor].depth as int,
    );
    frame::scrolling_up_counts_lines(
        f,
        Top { item: last, offset: frame::less(f.rows[last].height as int, 1) },
        frame::less(f.lines as int, 3),
    );
}

/// A view that started at a row which is hidden now starts at what hides it; and one that
/// started past the last row starts there.
pub proof fn views_start_at_what_is_seen(f: Frame, top: Top)
    requires
        f.len() > 0,
        0 <= top.item,
    ensures
        ({
            let next = f.anchored(top);
            let item = if top.item < f.len() {
                top.item
            } else {
                f.len() - 1
            };
            &&& 0 <= next.item <= item
            &&& f.visible(next.item)
            &&& f.visible(item) ==> next == (Top { item, offset: top.offset })
            &&& !f.visible(item) ==> f.hides(next.item, item) && next.offset == 0
        }),
{
    let item = frame::min_of(top.item, f.len() - 1);
    frame::visible_iff_unhidden(f, item);
    frame::stand_in_visible(f, item);
    frame::lemma_hider_from(f, 0, item, 0);
}

/// Whether rows are drawn one below the other.
pub open spec fn stacked(f: Frame, drawn: Seq<(int, int)>, at: int) -> bool {
    &&& drawn.len() > 0 ==> drawn[0].1 == at
    &&& forall|k: int|
        0 < k < drawn.len() ==> (#[trigger] drawn[k]).1 == drawn[k - 1].1 + f.rows[drawn[k
            - 1].0].height
    &&& forall|k: int|
        0 <= k < drawn.len() ==> at <= (#[trigger] drawn[k]).1 && drawn[k].1
            + f.rows[drawn[k].0].height <= f.lines
    &&& forall|k: int| 0 < k < drawn.len() ==> drawn[k - 1].0 < (#[trigger] drawn[k]).0
}

/// Rows are drawn one below the other from the top of the view, each the next that is
/// visible, as far as they fit whole.
pub proof fn rows_are_drawn_below_each_other(f: Frame, item: int, at: int)
    requires
        0 <= item < f.len(),
        f.visible(item),
    ensures
        ({
            let drawn = f.drawn_from(item, at);
            &&& stacked(f, drawn, at)
            &&& at + f.rows[item].height <= f.lines ==> drawn.len() > 0 && drawn[0].0 == item
            &&& forall|k: int|
                0 <= k < drawn.len() ==> item <= (#[trigger] drawn[k]).0 < f.len() && f.visible(
                    drawn[k].0,
                )
            &&& forall|k: int|
                0 <= k < drawn.len() - 1 ==> f.next_of((#[trigger] drawn[k]).0) == Some(
                    drawn[k + 1].0,
                )
        }),
    decreases f.len() - item,
{
    let height = f.rows[item].height;
    let drawn = f.drawn_from(item, at);
    if at + height <= f.lines {
        frame::next_is_next_visible(f, item);
        if let Some(next) = f.next_of(item) {
            rows_are_drawn_below_each_other(f, next, at + height);
            let rest = f.drawn_from(next, at + height);
            assert(drawn == seq![(item, at)] + rest);
            assert forall|k: int| 0 < k < drawn.len() implies (#[trigger] drawn[k]).1 == drawn[k
                - 1].1 + f.rows[drawn[k - 1].0].height && drawn[k - 1].0 < drawn[k].0 by {
                assert(drawn[k] == rest[k - 1]);
                if k > 1 {
                    assert(drawn[k - 1] == rest[k - 2]);
                }
            }
            assert forall|k: int| 0 <= k < drawn.len() implies at <= (#[trigger] drawn[k]).1
                && drawn[k].1 + f.rows[drawn[k].0].height <= f.lines && item <= drawn[k].0
                < f.len() && f.visible(drawn[k].0) by {
                if k > 0 {
                    assert(drawn[k] == rest[k - 1]);
                }
            }
            assert forall|k: int| 0 <= k < drawn.len() - 1 implies f.next_of(
                (#[trigger] drawn[k]).0,
            ) == Some(drawn[k + 1].0) by {
                assert(drawn[k + 1] == rest[k]);
                if k > 0 {
                    assert(drawn[k] == rest[k - 1]);
                }
            }
        }
    }
}

/// The row at a line of the screen is the one that is drawn there.
pub proof fn lines_of_the_screen_tell_their_row(f: Frame, top: Top, line: int)
    requires
        0 <= top.item < f.len(),
        f.visible(top.item),
        0 <= line,
    ensures
        match f.row_at(top, line) {
            Some(item) => exists|k: int|
                {
                    &&& 0 <= k < f.drawn(top).len()
                    &&& (#[trigger] f.drawn(top)[k]).0 == item
                    &&& f.drawn(top)[k].1 <= line < f.drawn(top)[k].1 + f.rows[item].height
                },
            None => forall|k: int|
                0 <= k < f.drawn(top).len() ==> !((#[trigger] f.drawn(top)[k]).1 <= line
                    < f.drawn(top)[k].1 + f.rows[f.drawn(top)[k].0].height),
        },
{
    lemma_drawn_stacked(f, top);
    lemma_row_among(f, f.drawn(top), line);
}

proof fn lemma_drawn_stacked(f: Frame, top: Top)
    requires
        0 <= top.item < f.len(),
        f.visible(top.item),
    ensures
        stacked(f, f.drawn(top), 0),
{
    rows_are_drawn_below_each_other(f, top.item, 0);
}

proof fn lemma_row_among(f: Frame, drawn: Seq<(int, int)>, line: int)
    requires
        stacked(f, drawn, 0),
    ensures
        ({
            let upto = frame::leading(drawn, line);
            if upto.len() > 0 && line < upto.last().1 + f.rows[upto.last().0].height {
                exists|k: int|
                    {
                        &&& 0 <= k < drawn.len()
                        &&& (#[trigger] drawn[k]).0 == upto.last().0
                        &&& drawn[k].1 <= line < drawn[k].1 + f.rows[upto.last().0].height
                    }
            } else {
                forall|k: int|
                    0 <= k < drawn.len() ==> !((#[trigger] drawn[k]).1 <= line < drawn[k].1
                        + f.rows[drawn[k].0].height)
            }
        }),
{
    let n = lemma_leading(f, drawn, line, 0);
    let upto = frame::leading(drawn, line);
    if n > 0 {
        assert(upto.last() == drawn[n - 1]);
    }
    if !(upto.len() > 0 && line < upto.last().1 + f.rows[upto.last().0].height) {
        assert forall|k: int| 0 <= k < drawn.len() implies !((#[trigger] drawn[k]).1 <= line
            < drawn[k].1 + f.rows[drawn[k].0].height) by {
            if k < n - 1 {
                lemma_stacked(f, drawn, 0, k, n - 1);
            }
        }
    }
}

proof fn lemma_stacked(f: Frame, drawn: Seq<(int, int)>, at: int, a: int, b: int)
    requires
        stacked(f, drawn, at),
        0 <= a < b < drawn.len(),
    ensures
        drawn[a].1 + f.rows[drawn[a].0].height <= drawn[b].1,
    decreases b - a,
{
    assert(drawn[b].1 == drawn[b - 1].1 + f.rows[drawn[b - 1].0].height);
    if a < b - 1 {
        lemma_stacked(f, drawn, at, a, b - 1);
    }
}

proof fn lemma_leading(f: Frame, drawn: Seq<(int, int)>, line: int, at: int) -> (n: int)
    requires
        stacked(f, drawn, at),
    ensures
        0 <= n <= drawn.len(),
        frame::leading(drawn, line) == drawn.take(n),
        forall|k: int| 0 <= k < n ==> (#[trigger] drawn[k]).1 <= line,
        forall|k: int| n <= k < drawn.len() ==> (#[trigger] drawn[k]).1 > line,
    decreases drawn.len(),
{
    if drawn.len() == 0 {
        assert(frame::leading(drawn, line) =~= drawn.take(0));
        0
    } else if drawn[0].1 > line {
        assert(frame::leading(drawn, line) =~= drawn.take(0));
        assert forall|k: int| 0 <= k < drawn.len() implies (#[trigger] drawn[k]).1 > line by {
            if k > 0 {
                lemma_stacked(f, drawn, at, 0, k);
            }
        }
        0
    } else {
        let rest = drawn.drop_first();
        let below = drawn[0].1 + f.rows[drawn[0].0].height;
        assert(stacked(f, rest, below)) by {
            assert forall|k: int| 0 < k < rest.len() implies (#[trigger] rest[k]).1 == rest[k - 1].1
                + f.rows[rest[k - 1].0].height && rest[k - 1].0 < rest[k].0 by {
                assert(rest[k] == drawn[k + 1] && rest[k - 1] == drawn[k]);
            }
            assert forall|k: int| 0 <= k < rest.len() implies below <= (#[trigger] rest[k]).1
                && rest[k].1 + f.rows[rest[k].0].height <= f.lines by {
                assert(rest[k] == drawn[k + 1]);
                lemma_stacked(f, drawn, at, 0, k + 1);
            }
            if rest.len() > 0 {
                assert(rest[0] == drawn[1]);
            }
        }
        let m = lemma_leading(f, rest, line, below);
        assert(frame::leading(drawn, line) =~= drawn.take(m + 1));
        assert forall|k: int| 0 <= k < m + 1 implies (#[trigger] drawn[k]).1 <= line by {
            if k > 0 {
                assert(drawn[k] == rest[k - 1]);
            }
        }
        assert forall|k: int| m + 1 <= k < drawn.len() implies (#[trigger] drawn[k]).1 > line by {
            assert(drawn[k] == rest[k - 1]);
        }
        m + 1
    }
}

// ---------------------------------------------------------------------------
// The selection
// ---------------------------------------------------------------------------

/// The selection is everything from where it was marked to the cursor, whichever comes
/// first, and the cursor's row alone where nothing was marked.
pub proof fn selections_reach_to_the_cursor(place: Place, i: int)
    ensures
        place.anchor is None ==> (place.selects(i) <==> i == place.cursor),
        place.anchor matches Some(anchor) ==> (place.selects(i) <==> anchor <= i <= place.cursor
            || place.cursor <= i <= anchor),
        place.anchor matches Some(anchor) ==> (Place {
            cursor: anchor,
            anchor: Some(place.cursor),
            ..place
        }).selection() == place.selection(),
{
}

/// Every row that is drawn is drawn as what it is: selected where it is in the selection,
/// and highlighted where it is in it or in what it heads.
pub proof fn selections_are_highlighted(f: Frame, place: Place)
    requires
        place.on(f),
        f.visible(place.top.item),
    ensures
        f.views(place).len() == f.drawn(place.top).len(),
        forall|k: int|
            0 <= k < f.views(place).len() ==> {
                let seen = #[trigger] f.views(place)[k];
                &&& seen.item == f.drawn(place.top)[k].0
                &&& seen.selected == place.selects(seen.item)
                &&& seen.highlighted == f.is_selected(place, seen.item)
            },
{
    let drawn = f.drawn(place.top);
    rows_are_drawn_below_each_other(f, place.top.item, 0);
    lemma_views(f, place, drawn, f.is_selected(place, place.top.item));
}

proof fn lemma_views(f: Frame, place: Place, drawn: Seq<(int, int)>, lit: bool)
    requires
        place.on(f),
        forall|k: int|
            0 <= k < drawn.len() ==> 0 <= (#[trigger] drawn[k]).0 < f.len() && f.visible(
                drawn[k].0,
            ),
        forall|k: int|
            0 <= k < drawn.len() - 1 ==> f.next_of((#[trigger] drawn[k]).0) == Some(drawn[k + 1].0),
        drawn.len() > 0 ==> f.is_selected(place, drawn[0].0) == (place.selects(drawn[0].0) || (
        f.rows[drawn[0].0].depth > f.rows[place.selection().0].depth && lit)),
    ensures
        f.views_of(place, drawn, lit).len() == drawn.len(),
        forall|k: int|
            0 <= k < drawn.len() ==> {
                let seen = #[trigger] f.views_of(place, drawn, lit)[k];
                &&& seen.item == drawn[k].0
                &&& seen.selected == place.selects(seen.item)
                &&& seen.highlighted == f.is_selected(place, seen.item)
            },
    decreases drawn.len(),
{
    if drawn.len() > 0 {
        let item = drawn[0].0;
        let now = f.is_selected(place, item);
        let rest = drawn.drop_first();
        assert forall|k: int| 0 <= k < rest.len() implies 0 <= (#[trigger] rest[k]).0 < f.len()
            && f.visible(rest[k].0) by {
            assert(rest[k] == drawn[k + 1]);
        }
        assert forall|k: int| 0 <= k < rest.len() - 1 implies f.next_of((#[trigger] rest[k]).0)
            == Some(rest[k + 1].0) by {
            assert(rest[k] == drawn[k + 1]);
        }
        if rest.len() > 0 {
            assert(f.next_of(drawn[0].0) == Some(drawn[1].0));
            lemma_next_selected(f, place, item, rest[0].0);
        }
        lemma_views(f, place, rest, now);
        let all = f.views_of(place, drawn, lit);
        assert(all =~= seq![
            Drawn { item, highlighted: now, selected: place.selects(item) },
        ] + f.views_of(place, rest, now));
        assert forall|k: int| 0 <= k < drawn.len() implies {
            let seen = #[trigger] all[k];
            &&& seen.item == drawn[k].0
            &&& seen.selected == place.selects(seen.item)
            &&& seen.highlighted == f.is_selected(place, seen.item)
        } by {
            if k > 0 {
                assert(all[k] == f.views_of(place, rest, now)[k - 1]);
            }
        }
    }
}

proof fn lemma_next_selected(f: Frame, place: Place, e: int, j: int)
    requires
        place.on(f),
        0 <= e < f.len(),
        f.visible(e),
        f.next_of(e) == Some(j),
    ensures
        f.is_selected(place, j) == (place.selects(j) || (f.rows[j].depth
            > f.rows[place.selection().0].depth && f.is_selected(place, e))),
{
    let (start, end) = place.selection();
    frame::lemma_next_bounds(f, e);
    let depth = f.rows[start].depth;
    assert forall|k: int| e < k < j implies (#[trigger] f.rows[k]).depth > f.rows[e].depth by {
        if f.shut(e) {
            lemma_subtree(f, e, e + 1, k);
        }
    }
    if e + 1 < j {
        lemma_subtree_stops(f, e, e + 1);
    }
    if !place.selects(j) && j > end {
        if f.is_selected(place, j) {
            assert(f.rows[j].depth > depth);
            if !place.selects(e) {
                if e < start {
                    assert(f.rows[start].depth > f.rows[e].depth);
                    assert(f.rows[j].depth <= f.rows[e].depth);
                }
            }
        }
        if f.rows[j].depth > depth && f.is_selected(place, e) {
            assert forall|k: int| end < k <= j implies (#[trigger] f.rows[k]).depth > depth by {
                if k > e && k < j {
                    assert(f.rows[k].depth > f.rows[e].depth);
                }
            }
        }
    }
}

proof fn lemma_subtree(f: Frame, e: int, from: int, k: int)
    requires
        0 <= e < from <= k < f.subtree_end(e, from),
        f.subtree_end(e, from) <= f.len(),
    ensures
        f.rows[k].depth > f.rows[e].depth,
    decreases k - from,
{
    if from < k {
        lemma_subtree(f, e, from + 1, k);
    }
}

proof fn lemma_subtree_stops(f: Frame, e: int, from: int)
    requires
        0 <= e < from,
        f.subtree_end(e, from) < f.len(),
    ensures
        f.rows[f.subtree_end(e, from)].depth <= f.rows[e].depth,
    decreases f.len() - from,
{
    if from < f.len() && f.rows[from].depth > f.rows[e].depth {
        lemma_subtree_stops(f, e, from + 1);
    }
}

/// The cursor is moved to the row at a line of the screen, where that can be stopped on;
/// where there is no row, everything stays.
pub proof fn the_cursor_goes_to_the_line(f: Frame, place: Place, line: int)
    ensures
        match f.row_at(place.top, line) {
            None => f.moved_to_line(place, line) == place,
            Some(item) => {
                let moved = f.moved_to_line(place, line);
                &&& item == place.cursor ==> moved == place
                &&& item != place.cursor && f.hider(item, 0) is None && !f.rows[item].unselectable
                    ==> moved.cursor == item && moved.anchor is None
            },
        },
{
}

/// A cursor that is seen, and on a row that can be stopped on, in a view that is filled,
/// is left where it is.
pub proof fn a_settled_cursor_stays(f: Frame, place: Place)
    requires
        place.on(f),
        !f.is_blank(),
        f.clamped(place.top) == place.top,
        !f.off_screen(place),
        f.hider(place.cursor, 0) is None,
        !f.rows[place.cursor].unselectable,
    ensures
        f.updated(place) == place,
{
}

/// A cursor on a row that can't be stopped on goes up to the nearest that can, and down
/// only where there is none.
pub proof fn a_stuck_cursor_is_freed(f: Frame, place: Place, mode: NavMode)
    ensures
        ({
            let up = f.found_previous(place.cursor, mode);
            let freed = f.freed(place, mode);
            &&& freed.anchor == place.anchor
            &&& f.selectable(place.cursor, mode) ==> freed == place
            &&& !f.selectable(place.cursor, mode) && f.selectable(up, mode) ==> freed.cursor == up
            &&& !f.selectable(place.cursor, mode) && !f.selectable(up, mode) ==> freed.cursor
                == f.found_next(up, mode)
        }),
{
}

// ---------------------------------------------------------------------------
// Getting the cursor into view
// ---------------------------------------------------------------------------

/// How many lines there are below the top of the view, and above it, is counted as far as
/// is asked for.
pub proof fn lines_are_counted_as_far_as_asked(f: Frame, top: Top, limit: int)
    requires
        0 <= top.item < f.len(),
        f.visible(top.item),
        0 <= top.offset <= f.rows[top.item].height,
        0 <= limit,
    ensures
        ({
            let below = f.lines_before(f.len()) - f.line_at(top);
            let above = f.line_at(top);
            &&& below < limit ==> f.lines_below(top, limit) == below
            &&& below >= limit ==> f.lines_below(top, limit) >= limit
            &&& f.lines_above(top, limit) == (if above < limit {
                above
            } else {
                limit
            })
        }),
{
    frame::lemma_counted_below(
        f,
        top.item,
        frame::less(f.rows[top.item].height as int, top.offset),
        limit,
    );
    frame::lemma_counted_above(f, top.item, top.offset, limit);
}

/// A cursor that is out of sight is brought into the middle of the view, and one that is
/// in sight leaves the view where it is, as far as it fits.
pub proof fn the_view_is_brought_to_the_cursor(f: Frame, place: Place)
    requires
        place.on(f),
        f.visible(place.cursor),
    ensures
        !f.off_screen(place) ==> f.scrolled_to_cursor(place) == f.fit(place),
        f.off_screen(place) ==> f.scrolled_to_cursor(place) == f.fit(
            (Place {
                top: f.clamped(
                    f.retreated((Top { item: place.cursor, offset: 0 }), f.lines as int / 2),
                ),
                ..place
            }),
        ),
        f.line_at(f.retreated((Top { item: place.cursor, offset: 0 }), f.lines as int / 2))
            == frame::less(f.lines_before(place.cursor), f.lines as int / 2),
        f.scrolled_to_cursor(place).cursor == place.cursor,
{
    frame::scrolling_up_counts_lines(
        f,
        Top { item: place.cursor, offset: 0 },
        f.lines as int / 2,
    );
}

/// A cursor that is lost is put on the row in the middle of the view, or where there is
/// none on the last that is drawn.
pub proof fn a_lost_cursor_is_put_in_the_middle(f: Frame, place: Place)
    ensures
        ({
            let put = f.cursor_centered(place);
            let drawn = f.drawn(place.top);
            let middle = f.row_at(place.top, f.lines as int / 2);
            &&& put.top == place.top
            &&& put.anchor == place.anchor
            &&& middle is Some ==> put.cursor == middle->0
            &&& middle is None && drawn.len() > 0 ==> put.cursor == drawn.last().0
            &&& middle is None && drawn.len() == 0 ==> put.cursor == place.cursor
        }),
{
}

/// What is shown changing, the view is put on what is seen of it and filled, and the
/// cursor is left to be dealt with.
pub proof fn a_stale_view_is_put_right(f: Frame, place: Place)
    ensures
        f.invalidated(place).cursor == place.cursor,
        f.invalidated(place).anchor == place.anchor,
        f.invalidated(place).top == f.clamped(f.anchored(place.top)),
{
}

/// A page being turned, the cursor stays on the line of the screen that it was on, where
/// there is a row there that can be stopped on.
pub proof fn the_cursor_keeps_its_line(
    f: Frame,
    place: Place,
    lines: int,
    forwards: bool,
    line: int,
    item: int,
)
    requires
        frame::line_of(f.drawn(place.top), place.cursor) == Some(line),
        ({
            let top = if forwards {
                f.scrolled_down(place.top, lines)
            } else {
                f.retreated(place.top, lines)
            };
            &&& top != place.top
            &&& f.row_at(top, line) == Some(item)
        }),
        f.hider(item, 0) is None,
        !f.rows[item].unselectable,
    ensures
        f.page_turned(place, lines, forwards).cursor == item,
        f.page_turned(place, lines, forwards).anchor is None,
{
    let top = if forwards {
        f.scrolled_down(place.top, lines)
    } else {
        f.retreated(place.top, lines)
    };
    let scrolled = Place { top, anchor: None, ..place };
    the_cursor_goes_to_the_line(f, scrolled, line);
    let moved = f.moved_to_line(scrolled, line);
    assert(moved.cursor == item);
    assert(f.selectable(item, f.nav_mode(item)));
}

/// A page that can't be turned any further goes to the end it is turned towards.
pub proof fn turning_past_an_end_goes_there(f: Frame, place: Place, lines: int)
    ensures
        f.scrolled_down(place.top, lines) == place.top ==> f.page_turned(place, lines, true)
            == f.moved_to_bottom(place),
        f.retreated(place.top, lines) == place.top ==> f.page_turned(place, lines, false)
            == f.moved_to_top(place),
{
}

/// What is shown having changed, a cursor that is out of sight is put in the middle of the
/// view, and then wherever it is it is freed; where nothing is shown it is at the start.
pub proof fn the_cursor_is_kept_in_sight(f: Frame, place: Place)
    ensures
        ({
            let view = Place {
                top: f.clamped(place.top),
                cursor: if place.cursor < f.len() {
                    place.cursor
                } else {
                    f.len() - 1
                },
                ..place
            };
            let middle = f.cursor_centered(view);
            &&& f.is_blank() ==> f.updated(place) == (Place { cursor: 0, ..place })
            &&& !f.is_blank() && !f.off_screen(view) ==> f.updated(place) == f.freed(
                view,
                f.nav_mode(view.cursor),
            )
            &&& !f.is_blank() && f.off_screen(view) ==> f.updated(place) == f.freed(
                middle,
                f.nav_mode(middle.cursor),
            )
        }),
{
}

/// On a line of a hunk the cursor goes by lines, and elsewhere by rows.
pub proof fn moves_go_by_what_the_cursor_is_on(f: Frame, i: int)
    ensures
        f.rows[i].sub_line ==> f.nav_mode(i) == NavMode::IncludeSubLines,
        !f.rows[i].sub_line ==> f.nav_mode(i) == NavMode::Normal,
{
}

/// What is selected is the selection, and what follows it as long as it lies deeper than
/// where the selection starts.
pub proof fn selections_take_what_they_head(f: Frame, place: Place, i: int)
    ensures
        place.selects(i) ==> f.is_selected(place, i),
        i < place.selection().0 ==> !f.is_selected(place, i),
        i > place.selection().1 ==> (f.is_selected(place, i) <==> forall|k: int|
            place.selection().1 < k <= i ==> (#[trigger] f.rows[k]).depth
                > f.rows[place.selection().0].depth),
{
}

/// Only a section that is folded hides anything: what follows it as long as it lies
/// deeper.
pub proof fn only_folded_sections_hide(f: Frame, a: int, i: int)
    ensures
        f.hides(a, i) <==> {
            &&& 0 <= a < i < f.len()
            &&& f.rows[a].section
            &&& f.rows[a].collapsed
            &&& forall|k: int| a < k <= i ==> (#[trigger] f.rows[k]).depth > f.rows[a].depth
        },
        f.visible(i) <==> forall|b: int| !#[trigger] f.hides(b, i),
{
}

} // verus!
