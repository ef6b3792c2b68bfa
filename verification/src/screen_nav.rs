//! Moving about a screen: the cursor, pages, selections, folding, and what
//! becomes of them when the rows change.

use crate::frame;
use crate::frame::{Frame, NavMode, Scroll, Top};
use crate::item;
use crate::item::{Item, ItemRow};
use crate::item_data;
use crate::item_data::{ItemData, Meaning};
use crate::laws::screens;
use crate::place;
use crate::place::Place;
use crate::screen;
use crate::screen::{ItemLayout, Screen};
use std::collections::HashSet;
use vstd::prelude::*;

verus! {

broadcast use vstd::std_specs::hash::group_hash_axioms;

/// What is found below is below, and what is found above is above.
proof fn lemma_found_directions(f: Frame, i: int)
    requires
        0 <= i < f.len(),
    ensures
        f.found_next(i, NavMode::IncludeSubLines) >= i,
        f.found_previous(i, NavMode::IncludeSubLines) <= i,
{
    frame::lemma_next_bounds(f, i);
    frame::lemma_prev_bounds(f, i);
    let ok = |k: int| f.nav_ok(k, NavMode::IncludeSubLines);
    if let Some(j) = f.next_of(i) {
        place::lemma_first_bounds(f, j, ok);
    }
    if let Some(j) = f.prev_of(i) {
        place::lemma_last_bounds(f, j, ok);
    }
}

/// The ids a screen starts out with folded: the sections it is configured to
/// fold, and the rows that are folded by default.
pub open spec fn initially_collapsed(sections: Seq<u64>, items: Seq<ItemRow>) -> Set<u64> {
    Set::new(
        |id: u64|
            sections.contains(id) || exists|i: int|
                0 <= i < items.len() && (#[trigger] items[i]).default_collapsed && items[i].id
                    == id,
    )
}

/// The row a screen starts out on: its first hunk, or else the first row that can
/// be selected, or else the first.
pub open spec fn initial_cursor(f: Frame) -> int {
    match f.first_from(0, f.selectable_rows(true)) {
        Some(i) => i,
        None => match f.first_from(0, f.selectable_rows(false)) {
            Some(i) => i,
            None => 0,
        },
    }
}

/// The start of everything.
pub open spec fn start_place() -> Place {
    Place { cursor: 0, anchor: None, top: Top { item: 0, offset: 0 } }
}

/// A place after the rows under it changed.
pub open spec fn settled(f: Frame, place: Place) -> Place {
    f.updated(f.invalidated(place))
}

/// Whether a section is as far out as any.
pub open spec fn is_outermost(f: Frame, i: int) -> bool {
    &&& 0 <= i < f.len()
    &&& f.rows[i].section
    &&& forall|j: int|
        0 <= j < f.len() && (#[trigger] f.rows[j]).section ==> f.rows[i].depth <= f.rows[j].depth
}

/// The ids of the outermost sections.
pub open spec fn headings(f: Frame, items: Seq<Item>) -> Set<u64> {
    Set::new(|id: u64| exists|i: int| #[trigger] is_outermost(f, i) && items[i].id == id)
}

/// Whether the view is folded down to its outermost sections.
pub open spec fn all_folded(f: Frame, items: Seq<Item>, collapsed: Set<u64>) -> bool {
    forall|i: int| #[trigger] is_outermost(f, i) ==> collapsed.contains(items[i].id)
}

/// Every line index that acting on the selected rows acts on.
pub open spec fn selected_indices(items: Seq<Item>, from: int, to: int) -> Set<usize> {
    Set::new(
        |line: usize|
            exists|i: int|
                from <= i <= to && (#[trigger] items[i]).data@ is HunkLine
                    && items[i].data@->line_indices.contains(line),
    )
}

/// Whether numbers grow, none of them occurring twice.
pub open spec fn ascending(numbers: Seq<usize>) -> bool {
    forall|i: int, j: int| 0 <= i < j < numbers.len() ==> numbers[i] < numbers[j]
}

/// Whether a row is the first one in sight that can be selected and that a
/// predicate holds of, or there is none.
pub open spec fn is_first_match<P: Fn(&ItemData) -> bool>(
    f: Frame,
    items: Seq<Item>,
    predicate: P,
    found: Option<int>,
) -> bool {
    match found {
        Some(i) => {
            &&& 0 <= i < f.len()
            &&& f.visible(i)
            &&& !f.rows[i].unselectable
            &&& call_ensures(predicate, (&items[i].data,), true)
            &&& forall|j: int|
                0 <= j < i && #[trigger] f.visible(j) && !f.rows[j].unselectable ==> call_ensures(
                    predicate,
                    (&items[j].data,),
                    false,
                )
        },
        None => forall|j: int|
            0 <= j < f.len() && #[trigger] f.visible(j) && !f.rows[j].unselectable
                ==> call_ensures(predicate, (&items[j].data,), false),
    }
}

/// Whether a row is the last one in sight that can be selected and that a
/// predicate holds of, or there is none.
pub open spec fn is_last_match<P: Fn(&ItemData) -> bool>(
    f: Frame,
    items: Seq<Item>,
    predicate: P,
    found: Option<int>,
) -> bool {
    match found {
        Some(i) => {
            &&& 0 <= i < f.len()
            &&& f.visible(i)
            &&& !f.rows[i].unselectable
            &&& call_ensures(predicate, (&items[i].data,), true)
            &&& forall|j: int|
                i < j < f.len() && #[trigger] f.visible(j) && !f.rows[j].unselectable
                    ==> call_ensures(predicate, (&items[j].data,), false)
        },
        None => forall|j: int|
            0 <= j < f.len() && #[trigger] f.visible(j) && !f.rows[j].unselectable
                ==> call_ensures(predicate, (&items[j].data,), false),
    }
}

impl Screen {
    // -----------------------------------------------------------------------
    // The cursor
    // -----------------------------------------------------------------------

    fn move_next(&mut self, nav_mode: NavMode)
        requires
            old(self).wf(),
        ensures
            final(self).wf(),
            final(self).same_content(old(self)),
            final(self).place() == old(self).frame().moved_next(old(self).place(), nav_mode),
    {
        self.cursor = self.find_next(nav_mode);
        self.scroll_fit_end();
        self.scroll_fit_start();
    }

    fn move_previous(&mut self, nav_mode: NavMode)
        requires
            old(self).wf(),
        ensures
            final(self).wf(),
            final(self).same_content(old(self)),
            final(self).place() == old(self).frame().moved_previous(old(self).place(), nav_mode),
    {
        self.cursor = self.find_previous(nav_mode);
        self.scroll_fit_start();
    }

    pub fn select_next(&mut self, nav_mode: NavMode)
        requires
            old(self).wf(),
        ensures
            final(self).wf(),
            final(self).same_content(old(self)),
            final(self).place() == old(self).frame().moved_next(
                (Place { anchor: None, ..old(self).place() }),
                nav_mode,
            ),
    {
        self.anchor = None;
        self.move_next(nav_mode);
    }

    pub fn select_previous(&mut self, nav_mode: NavMode)
        requires
            old(self).wf(),
        ensures
            final(self).wf(),
            final(self).same_content(old(self)),
            final(self).place() == old(self).frame().moved_previous(
                (Place { anchor: None, ..old(self).place() }),
                nav_mode,
            ),
    {
        self.anchor = None;
        self.move_previous(nav_mode);
    }

    pub fn get_selected_item(&self) -> (item: &Item)
        requires
            self.wf(),
        ensures
            *item == self.items@[self.cursor as int],
    {
        &self.items[self.cursor]
    }

    fn selected_item_nav_mode(&self) -> (mode: NavMode)
        requires
            self.wf(),
        ensures
            mode == self.frame().nav_mode(self.cursor as int),
    {
        if self.items[self.cursor].data.is_sub_line() {
            NavMode::IncludeSubLines
        } else {
            NavMode::Normal
        }
    }

    fn move_from_unselectable(&mut self, nav_mode: NavMode)
        requires
            old(self).wf(),
        ensures
            final(self).wf(),
            final(self).same_content(old(self)),
            final(self).place() == old(self).frame().freed(old(self).place(), nav_mode),
    {
        if !self.is_selectable(self.cursor, nav_mode) {
            self.move_previous(nav_mode);
        }
        if !self.is_selectable(self.cursor, nav_mode) {
            self.move_next(nav_mode);
        }
    }

    pub fn move_cursor_to_screen_line(&mut self, screen_line: usize)
        requires
            old(self).wf(),
        ensures
            final(self).wf(),
            final(self).same_content(old(self)),
            final(self).place() == old(self).frame().moved_to_line(
                old(self).place(),
                screen_line as int,
            ),
    {
        let new_cursor = match self.item_at_row(screen_line) {
            Some(item) => item,
            None => {
                return;
            },
        };
        if self.cursor == new_cursor {
            return;
        }
        let old_cursor = self.cursor;
        self.anchor = None;
        self.cursor = new_cursor;
        let nav_mode = self.selected_item_nav_mode();
        self.move_from_unselectable(nav_mode);
        if !self.is_selectable(self.cursor, nav_mode) {
            // There was no selectable item, put the cursor back.
            self.cursor = old_cursor;
        } else {
            // Use minimal scrolling to keep the cursor visible.
            self.scroll_fit_start();
        }
    }

    pub fn move_cursor_to_top(&mut self)
        requires
            old(self).wf(),
        ensures
            final(self).wf(),
            final(self).same_content(old(self)),
            final(self).place() == old(self).frame().moved_to_top(old(self).place()),
    {
        self.anchor = None;
        if let Some(first) = self.find_selectable(false) {
            self.cursor = first;
            self.scroll = Scroll { item_anchor: 0, offset: 0 };
        }
    }

    pub fn move_cursor_to_bottom(&mut self)
        requires
            old(self).wf(),
        ensures
            final(self).wf(),
            final(self).same_content(old(self)),
            final(self).place() == old(self).frame().moved_to_bottom(old(self).place()),
    {
        self.anchor = None;
        if let Some(last) = self.rfind_selectable() {
            self.cursor = last;
            self.scroll_fit_end();
        }
    }

    fn move_cursor_to_screen_center(&mut self)
        requires
            old(self).wf(),
        ensures
            final(self).wf(),
            final(self).same_content(old(self)),
            final(self).place() == old(self).frame().cursor_centered(old(self).place()),
    {
        let half_screen = self.size.1 as usize / 2;
        match self.item_at_row(half_screen) {
            Some(item) => {
                self.cursor = item;
            },
            None => {
                // Scrolling is allowed to run past the content, so the middle of
                // the screen may hold no item at all. Fall back to the last one
                // drawn.
                let rows = self.screen_rows();
                proof {
                    assert(screen::at_views(rows@).len() == rows@.len());
                }
                if rows.len() > 0 {
                    self.cursor = rows[rows.len() - 1].0;
                }
            },
        }
    }

    /// Makes the viewport and the cursor good after the rows changed.
    fn update_cursor(&mut self)
        requires
            old(self).viewable(),
            old(self).anchor matches Some(anchor) ==> anchor < old(self).items@.len(),
        ensures
            final(self).wf(),
            final(self).same_content(old(self)),
            final(self).place() == old(self).frame().updated(old(self).place()),
    {
        // Nothing is selectable (e.g. the log of a branch with no commits).
        if self.is_empty() {
            self.cursor = 0;
            return;
        }
        self.clamp_scroll();
        if self.cursor >= self.items.len() {
            self.cursor = self.items.len() - 1;
        }
        if self.is_cursor_off_screen() {
            self.move_cursor_to_screen_center();
        }
        let nav_mode = self.selected_item_nav_mode();
        self.move_from_unselectable(nav_mode);
    }

    /// Makes the viewport good after the rows changed.
    fn invalidate(&mut self)
        requires
            old(self).items@.len() > 0,
            old(self).layouts@.len() == old(self).items@.len(),
        ensures
            final(self).viewable(),
            final(self).same_content(old(self)),
            final(self).place() == old(self).frame().invalidated(old(self).place()),
            final(self).cursor == old(self).cursor,
            final(self).anchor == old(self).anchor,
    {
        self.fit_anchor();
        self.clamp_scroll();
    }

    // -----------------------------------------------------------------------
    // Building and rebuilding
    // -----------------------------------------------------------------------

    /// A screen of some rows, which were laid out at its width. A screen without
    /// any has one that can't be selected, and `layouts` is of that.
    pub fn new(
        size: (u16, u16),
        collapsed_sections: &Vec<u64>,
        items: Vec<Item>,
        layouts: Vec<ItemLayout>,
    ) -> (screen: Screen)
        requires
            layouts@.len() == item::filled(item::item_views(items@)).len(),
        ensures
            screen.wf(),
            screen.size == size,
            !screen.show_menu,
            screen.search is None,
            screen.layouts == layouts,
            item::item_views(screen.items@) == item::filled(item::item_views(items@)),
            screen.collapsed@ == initially_collapsed(
                collapsed_sections@,
                item::item_views(screen.items@),
            ),
            screen.place() == (Place {
                cursor: initial_cursor(screen.frame()),
                ..settled(screen.frame(), start_place())
            }),
    {
        let items = item::fill_empty(items);
        proof {
            assert(item::item_views(items@).len() == items@.len());
        }
        let mut collapsed: HashSet<u64> = HashSet::new();
        let mut i: usize = 0;
        while i < collapsed_sections.len()
            invariant
                i <= collapsed_sections@.len(),
                forall|id: u64| #[trigger]
                    collapsed@.contains(id) <==> collapsed_sections@.take(i as int).contains(id),
            decreases collapsed_sections@.len() - i,
        {
            let ghost before = collapsed@;
            collapsed.insert(collapsed_sections[i]);
            proof {
                let seen = collapsed_sections@.take(i as int);
                let next = collapsed_sections@.take(i + 1);
                assert(next =~= seen.push(collapsed_sections@[i as int]));
                assert forall|id: u64| #[trigger]
                    collapsed@.contains(id) <==> next.contains(id) by {
                    if seen.contains(id) {
                        let k = choose|k: int| 0 <= k < seen.len() && seen[k] == id;
                        assert(next[k] == id);
                    }
                    if id == collapsed_sections@[i as int] {
                        assert(next[i as int] == id);
                    }
                    if next.contains(id) && id != collapsed_sections@[i as int] {
                        let k = choose|k: int| 0 <= k < next.len() && next[k] == id;
                        assert(seen[k] == id);
                    }
                }
            }
            i += 1;
        }
        proof {
            assert(collapsed_sections@.take(i as int) =~= collapsed_sections@);
        }
        let ghost rows = item::item_views(items@);
        let ghost sections = collapsed@;
        let mut j: usize = 0;
        while j < items.len()
            invariant
                j <= items@.len(),
                rows == item::item_views(items@),
                forall|id: u64| #[trigger]
                    collapsed@.contains(id) <==> sections.contains(id) || exists|k: int|
                        0 <= k < j && (#[trigger] rows[k]).default_collapsed && rows[k].id == id,
            decreases items@.len() - j,
        {
            let ghost before = collapsed@;
            proof {
                assert(rows[j as int] == items@[j as int]@);
            }
            if items[j].default_collapsed {
                collapsed.insert(items[j].id);
            }
            j += 1;
        }
        proof {
            assert(collapsed@ =~= initially_collapsed(collapsed_sections@, rows));
        }
        let mut screen = Screen {
            size,
            show_menu: false,
            cursor: 0,
            anchor: None,
            scroll: Scroll { item_anchor: 0, offset: 0 },
            items,
            layouts,
            collapsed,
            search: None,
        };
        screen.invalidate();
        screen.update_cursor();
        screen.cursor =
        match screen.find_selectable(true) {
            Some(hunk) => hunk,
            None => match screen.find_selectable(false) {
                Some(first) => first,
                None => 0,
            },
        };
        screen
    }

    /// Show other rows, keeping the cursor's place in the list. The lines that
    /// were selected are no longer the same lines.
    pub fn refresh(&mut self, items: Vec<Item>, layouts: Vec<ItemLayout>)
        requires
            old(self).wf(),
            layouts@.len() == item::filled(item::item_views(items@)).len(),
        ensures
            final(self).wf(),
            item::item_views(final(self).items@) == item::filled(item::item_views(items@)),
            final(self).layouts == layouts,
            final(self).size == old(self).size,
            final(self).show_menu == old(self).show_menu,
            final(self).collapsed@ == old(self).collapsed@,
            final(self).search == old(self).search,
            final(self).place() == settled(
                final(self).frame(),
                (Place { anchor: None, ..old(self).place() }),
            ),
    {
        self.anchor = None;
        self.items = item::fill_empty(items);
        self.layouts = layouts;
        proof {
            assert(item::item_views(self.items@).len() == self.items@.len());
        }
        self.invalidate();
        self.update_cursor();
    }

    /// Take the rows the screen has been given, which is what the panels below
    /// it leave. The cursor is left where it is: this is not the user moving it.
    /// `layouts` is what the rows come out as at that size; at an unchanged size
    /// nothing changes.
    pub fn fit_to(&mut self, w: u16, h: u16, layouts: Vec<ItemLayout>)
        requires
            old(self).wf(),
            layouts@.len() == old(self).items@.len(),
        ensures
            final(self).wf(),
            final(self).size == (w, h),
            final(self).items == old(self).items,
            final(self).show_menu == old(self).show_menu,
            final(self).collapsed@ == old(self).collapsed@,
            final(self).search == old(self).search,
            if old(self).size == (w, h) {
                final(self).layouts == old(self).layouts && final(self).place() == old(
                    self).place()
            } else {
                final(self).layouts == layouts && final(self).place() == final(
                    self).frame().invalidated(old(self).place())
            },
    {
        if self.size.0 == w && self.size.1 == h {
            return;
        }
        self.size = (w, h);
        self.layouts = layouts;
        self.invalidate();
    }

    /// Take another size, and bring the cursor back on screen.
    pub fn resize(&mut self, w: u16, h: u16, layouts: Vec<ItemLayout>)
        requires
            old(self).wf(),
            layouts@.len() == old(self).items@.len(),
        ensures
            final(self).wf(),
            final(self).size == (w, h),
            final(self).items == old(self).items,
            final(self).show_menu == old(self).show_menu,
            final(self).collapsed@ == old(self).collapsed@,
            final(self).search == old(self).search,
            if old(self).size == (w, h) {
                final(self).layouts == old(self).layouts && final(self).place() == final(
                    self).frame().updated(old(self).place())
            } else {
                final(self).layouts == layouts && final(self).place() == settled(
                    final(self).frame(),
                    old(self).place(),
                )
            },
    {
        self.fit_to(w, h, layouts);
        self.update_cursor();
    }

    /// Show other rows, keeping the cursor on whatever it was on.
    /// [`Self::refresh`] keeps its place in the list, which is the same place only
    /// while the rows are; a re-render that lays the same diff out differently
    /// moves them. What does not move is where a row sits in the patch, so that is
    /// what is restored.
    pub fn refresh_keeping_position(&mut self, items: Vec<Item>, layouts: Vec<ItemLayout>)
        requires
            old(self).wf(),
            layouts@.len() == item::filled(item::item_views(items@)).len(),
        ensures
            final(self).wf(),
            item::item_views(final(self).items@) == item::filled(item::item_views(items@)),
            final(self).layouts == layouts,
            final(self).size == old(self).size,
            final(self).show_menu == old(self).show_menu,
            final(self).collapsed@ == old(self).collapsed@,
            final(self).search == old(self).search,
            ({
                let f = final(self).frame();
                let position = old(self).items@[old(self).cursor as int].data@.position();
                let place = settled(f, (Place { anchor: None, ..old(self).place() }));
                let found = f.first_from(
                    0,
                    |i: int|
                        !f.rows[i].unselectable && final(self).items@[i].data@.position()
                            == position,
                );
                final(self).place() == (if position is Some && found is Some {
                    f.fit((Place { cursor: found->0, ..place }))
                } else {
                    place
                })
            }),
    {
        let was_on = item_data::diff_position(&self.items[self.cursor].data);
        self.refresh(items, layouts);
        if was_on.is_some() {
            if let Some(item_i) = self.find_position(was_on) {
                self.cursor = item_i;
                self.scroll_fit_end();
                self.scroll_fit_start();
            }
        }
    }

    /// The first visible row that can be selected and sits at a position in the
    /// patch.
    fn find_position(&self, position: Option<(usize, Option<usize>, Option<usize>)>) -> (item:
        Option<usize>)
        requires
            self.items@.len() > 0,
        ensures
            screen::index_view(item) == self.frame().first_from(
                0,
                |i: int|
                    !self.frame().rows[i].unselectable && self.items@[i].data@.position()
                        == position,
            ),
            item matches Some(i) ==> i < self.items@.len(),
    {
        let ghost f = self.frame();
        let ghost wanted = |i: int|
            !self.frame().rows[i].unselectable && self.items@[i].data@.position() == position;
        let mut at: Option<usize> = Some(0);
        while at.is_some()
            invariant
                f == self.frame(),
                wanted == (|i: int|
                    !self.frame().rows[i].unselectable && self.items@[i].data@.position()
                        == position),
                at matches Some(i) ==> i < self.items@.len() && f.first_from(0, wanted)
                    == f.first_from(i as int, wanted),
                at is None ==> f.first_from(0, wanted) is None,
            decreases
                    (match at {
                        Some(a) => f.len() - a,
                        None => 0,
                    }),
        {
            let item_i = at.unwrap();
            let item = &self.items[item_i];
            if !item.unselectable && same_position(item_data::diff_position(&item.data), position) {
                return Some(item_i);
            }
            at = self.next_visible(item_i);
        }
        None
    }
}

fn same_index(a: Option<usize>, b: Option<usize>) -> (same: bool)
    ensures
        same == (a == b),
{
    match (a, b) {
        (Some(a), Some(b)) => a == b,
        (None, None) => true,
        _ => false,
    }
}

fn same_position(
    a: Option<(usize, Option<usize>, Option<usize>)>,
    b: Option<(usize, Option<usize>, Option<usize>)>,
) -> (same: bool)
    ensures
        same == (a == b),
{
    match (a, b) {
        (Some((f, h, l)), Some((g, i, m))) => f == g && same_index(h, i) && same_index(l, m),
        (None, None) => true,
        _ => false,
    }
}

impl Screen {
    // -----------------------------------------------------------------------
    // Pages
    // -----------------------------------------------------------------------

    /// Move the view by `lines`, taking the cursor with it. Once the view has
    /// nowhere further to go the cursor finishes the journey on its own, so a
    /// run of rows with nothing to select on it (a commit message taller than
    /// the screen) can still be turned past.
    pub fn turn_page(&mut self, lines: usize, forwards: bool)
        requires
            old(self).wf(),
        ensures
            final(self).wf(),
            final(self).same_content(old(self)),
            final(self).place() == old(self).frame().page_turned(
                old(self).place(),
                lines as int,
                forwards,
            ),
    {
        self.anchor = None;
        let row = self.cursor_row();
        let before = self.scroll;
        if forwards {
            self.scroll_view_down(lines);
        } else {
            self.scroll_view_up(lines);
        }
        if self.scroll == before {
            if forwards {
                self.move_cursor_to_bottom();
            } else {
                self.move_cursor_to_top();
            }
            return;
        }
        // The cursor keeps its row, so turning the page back arrives where it
        // started. Fitting it would scroll back to the page it came from, so
        // the view is put back where the page left it.
        let scroll = self.scroll;
        if let Some(row) = row {
            self.move_cursor_to_screen_line(row);
        }
        let nav_mode = self.selected_item_nav_mode();
        self.move_from_unselectable(nav_mode);
        self.scroll = scroll;
    }

    pub fn half_page_up(&mut self)
        requires
            old(self).wf(),
        ensures
            final(self).wf(),
            final(self).same_content(old(self)),
            final(self).place() == old(self).frame().page_turned(
                old(self).place(),
                (old(self).size.1 / 2) as int,
                false,
            ),
    {
        self.turn_page(self.size.1 as usize / 2, false);
    }

    pub fn half_page_down(&mut self)
        requires
            old(self).wf(),
        ensures
            final(self).wf(),
            final(self).same_content(old(self)),
            final(self).place() == old(self).frame().page_turned(
                old(self).place(),
                (old(self).size.1 / 2) as int,
                true,
            ),
    {
        self.turn_page(self.size.1 as usize / 2, true);
    }

    /// A page is a whole viewport, which is two half pages.
    pub fn full_page_up(&mut self)
        requires
            old(self).wf(),
        ensures
            final(self).wf(),
            final(self).same_content(old(self)),
            final(self).place() == old(self).frame().page_turned(
                old(self).place(),
                old(self).size.1 as int,
                false,
            ),
    {
        self.turn_page(self.size.1 as usize, false);
    }

    pub fn full_page_down(&mut self)
        requires
            old(self).wf(),
        ensures
            final(self).wf(),
            final(self).same_content(old(self)),
            final(self).place() == old(self).frame().page_turned(
                old(self).place(),
                old(self).size.1 as int,
                true,
            ),
    {
        self.turn_page(self.size.1 as usize, true);
    }

    pub fn is_valid_screen_line(&self, screen_line: usize) -> (valid: bool)
        requires
            self.wf(),
        ensures
            valid == (match self.frame().row_at(self.place().top, screen_line as int) {
                Some(item) => !self.frame().rows[item].unselectable,
                None => false,
            }),
    {
        match self.item_at_row(screen_line) {
            Some(item_i) => self.nav_filter(item_i, NavMode::IncludeSubLines),
            None => false,
        }
    }

    // -----------------------------------------------------------------------
    // Folding
    // -----------------------------------------------------------------------

    /// Fold the section the cursor is on, or open it.
    pub fn toggle_section(&mut self)
        requires
            old(self).wf(),
        ensures
            final(self).wf(),
            final(self).items == old(self).items,
            final(self).layouts == old(self).layouts,
            final(self).size == old(self).size,
            final(self).show_menu == old(self).show_menu,
            final(self).search == old(self).search,
            ({
                let item = old(self).items@[old(self).cursor as int];
                let f = final(self).frame();
                let start = Place { anchor: None, ..old(self).place() };
                &&& final(self).collapsed@ == (if !item.data@.is_section() {
                    old(self).collapsed@
                } else if old(self).collapsed@.contains(item.id) {
                    old(self).collapsed@.remove(item.id)
                } else {
                    old(self).collapsed@.insert(item.id)
                })
                &&& final(self).place() == (Place {
                    top: f.clamped(
                        if item.data@.is_section() {
                            f.anchored(start.top)
                        } else {
                            start.top
                        },
                    ),
                    ..start
                })
            }),
            ({
                let item = old(self).items@[old(self).cursor as int];
                if item.data@.is_section() {
                    screens::only_toggled(old(self).collapsed@, final(self).collapsed@, item.id)
                } else {
                    final(self).collapsed@ == old(self).collapsed@
                }
            }),
    {
        self.anchor = None;
        if self.items[self.cursor].data.is_section() {
            let id = self.items[self.cursor].id;
            if !self.collapsed.remove(&id) {
                self.collapsed.insert(id);
            }
            // Collapsing the section the viewport sits in takes it along.
            self.fit_anchor();
        }
        self.clamp_scroll();
    }

    /// How deep the outermost sections are.
    fn outermost_depth(&self) -> (depth: Option<usize>)
        ensures
            match depth {
                Some(d) => (exists|i: int| #[trigger] is_outermost(self.frame(), i))
                    && forall|i: int| #[trigger]
                    is_outermost(self.frame(), i) <==> 0 <= i < self.items@.len()
                        && self.frame().rows[i].section && self.frame().rows[i].depth == d,
                None => forall|i: int| !#[trigger] is_outermost(self.frame(), i),
            },
    {
        let ghost f = self.frame();
        let mut depth: Option<usize> = None;
        let ghost mut witness: int = 0;
        let mut i: usize = 0;
        while i < self.items.len()
            invariant
                i <= self.items@.len(),
                f == self.frame(),
                match depth {
                    Some(d) => 0 <= witness < i && f.rows[witness].section
                        && f.rows[witness].depth == d && forall|j: int|
                        0 <= j < i && (#[trigger] f.rows[j]).section ==> d <= f.rows[j].depth,
                    None => forall|j: int| 0 <= j < i ==> !(#[trigger] f.rows[j]).section,
                },
            decreases self.items@.len() - i,
        {
            let item = &self.items[i];
            if item.data.is_section() {
                let closer = match depth {
                    Some(d) => item.depth < d,
                    None => true,
                };
                if closer {
                    depth = Some(item.depth);
                    proof {
                        witness = i as int;
                    }
                }
            }
            i += 1;
        }
        proof {
            if depth is Some {
                assert(is_outermost(f, witness));
            }
        }
        depth
    }

    /// Fold the view down to its outermost headings, or open all of it when
    /// they are already folded. Only the outermost are folded, and everything
    /// within them is opened, so that opening one shows what is inside it
    /// rather than another folded thing. The cursor can end up inside what was
    /// folded away, so it is re-placed afterwards.
    pub fn toggle_all_sections(&mut self)
        requires
            old(self).wf(),
        ensures
            final(self).wf(),
            final(self).items == old(self).items,
            final(self).layouts == old(self).layouts,
            final(self).size == old(self).size,
            final(self).show_menu == old(self).show_menu,
            final(self).search == old(self).search,
            ({
                let f = old(self).frame();
                let start = Place { anchor: None, ..old(self).place() };
                if exists|i: int| #[trigger] is_outermost(f, i) {
                    &&& final(self).collapsed@ == (if all_folded(
                        f,
                        old(self).items@,
                        old(self).collapsed@,
                    ) {
                        Set::empty()
                    } else {
                        headings(f, old(self).items@)
                    })
                    &&& final(self).place() == settled(final(self).frame(), start)
                } else {
                    final(self).collapsed@ == old(self).collapsed@ && final(self).place() == start
                }
            }),
    {
        let ghost f = self.frame();
        let ghost items = self.items@;
        let ghost was = self.collapsed@;
        self.anchor = None;
        let outermost = match self.outermost_depth() {
            Some(depth) => depth,
            None => {
                return;
            },
        };
        let mut folded = true;
        let mut shut: HashSet<u64> = HashSet::new();
        let mut i: usize = 0;
        while i < self.items.len()
            invariant
                i <= self.items@.len(),
                self.items@ == items,
                self.collapsed@ == was,
                self.frame() == f,
                forall|k: int| #[trigger]
                    is_outermost(f, k) <==> 0 <= k < items.len() && f.rows[k].section
                        && f.rows[k].depth == outermost,
                folded == forall|k: int|
                    k < i && #[trigger] is_outermost(f, k) ==> was.contains(items[k].id),
                forall|id: u64| #[trigger]
                    shut@.contains(id) <==> exists|k: int|
                        k < i && #[trigger] is_outermost(f, k) && items[k].id == id,
            decreases self.items@.len() - i,
        {
            let item = &self.items[i];
            let ghost before = shut@;
            let ghost folded_before = folded;
            if item.data.is_section() && item.depth == outermost {
                proof {
                    assert(is_outermost(f, i as int));
                }
                if !self.collapsed.contains(&item.id) {
                    folded = false;
                }
                shut.insert(item.id);
                proof {
                    assert forall|id: u64| #[trigger]
                        shut@.contains(id) <==> exists|k: int|
                            k < i + 1 && #[trigger] is_outermost(f, k) && items[k].id == id by {
                        if shut@.contains(id) {
                            if id == items[i as int].id {
                                assert(is_outermost(f, i as int));
                            } else {
                                assert(before.contains(id));
                                let k = choose|k: int|
                                    k < i && #[trigger] is_outermost(f, k) && items[k].id == id;
                                assert(is_outermost(f, k));
                            }
                        }
                        if exists|k: int|
                            k < i + 1 && #[trigger] is_outermost(f, k) && items[k].id == id {
                            let k = choose|k: int|
                                k < i + 1 && #[trigger] is_outermost(f, k) && items[k].id == id;
                            if k < i {
                                assert(before.contains(id));
                            }
                        }
                    }
                }
            } else {
                proof {
                    assert(!is_outermost(f, i as int));
                    assert forall|id: u64| #[trigger]
                        shut@.contains(id) <==> exists|k: int|
                            k < i + 1 && #[trigger] is_outermost(f, k) && items[k].id == id by {
                        if before.contains(id) {
                            let k = choose|k: int|
                                k < i && #[trigger] is_outermost(f, k) && items[k].id == id;
                            assert(is_outermost(f, k));
                        }
                        if exists|k: int|
                            k < i + 1 && #[trigger] is_outermost(f, k) && items[k].id == id {
                            let k = choose|k: int|
                                k < i + 1 && #[trigger] is_outermost(f, k) && items[k].id == id;
                            assert(k < i);
                            assert(before.contains(id));
                        }
                    }
                }
            }
            i += 1;
        }
        proof {
            assert(shut@ =~= headings(f, items)) by {
                assert forall|id: u64| #[trigger]
                    shut@.contains(id) <==> headings(f, items).contains(id) by {
                    if headings(f, items).contains(id) {
                        let k = choose|k: int| #[trigger] is_outermost(f, k) && items[k].id == id;
                        assert(k < i && is_outermost(f, k));
                    }
                }
            }
            assert(folded == all_folded(f, items, was));
        }
        if folded {
            self.collapsed.clear();
        } else {
            self.collapsed = shut;
        }
        self.invalidate();
        self.update_cursor();
    }

    // -----------------------------------------------------------------------
    // Selections
    // -----------------------------------------------------------------------

    /// Grow (or shrink) the selection by one line, so that a run of lines can be
    /// staged, discarded or reversed as one patch. It stays inside a single hunk,
    /// which is as far as one patch reaches.
    pub fn extend_selection(&mut self, forwards: bool)
        requires
            old(self).wf(),
        ensures
            final(self).wf(),
            final(self).same_content(old(self)),
            ({
                let f = old(self).frame();
                let place = old(self).place();
                let anchor = match place.anchor {
                    Some(anchor) => anchor,
                    None => place.cursor,
                };
                let next = if forwards {
                    f.found_next(place.cursor, NavMode::IncludeSubLines)
                } else {
                    f.found_previous(place.cursor, NavMode::IncludeSubLines)
                };
                final(self).place() == (if item_data::in_same_hunk(
                    old(self).items@[anchor].data@,
                    old(self).items@[next].data@,
                ) {
                    f.fit((Place { cursor: next, anchor: Some(anchor), ..place }))
                } else {
                    place
                })
            }),
            screens::selection_moved(
                old(self).items@,
                old(self).place(),
                final(self).place(),
                forwards,
            ),
    {
        let ghost f = self.frame();
        let ghost start = self.place();
        proof {
            lemma_found_directions(f, start.cursor);
        }
        let anchor = match self.anchor {
            Some(anchor) => anchor,
            None => self.cursor,
        };
        let next = if forwards {
            self.find_next(NavMode::IncludeSubLines)
        } else {
            self.find_previous(NavMode::IncludeSubLines)
        };
        if !item_data::same_hunk(&self.items[anchor].data, &self.items[next].data) {
            return;
        }
        self.anchor = Some(anchor);
        self.cursor = next;
        self.scroll_fit_end();
        self.scroll_fit_start();
    }

    /// What an op acts on. A multi-line selection reads as the line under the
    /// cursor widened to cover every line selected, so that ops staging a hunk
    /// line take them all in a single patch without knowing about selections.
    pub fn selected_target(&self) -> (target: ItemData)
        requires
            self.wf(),
        ensures
            ({
                let under = self.items@[self.cursor as int].data@;
                match under {
                    Meaning::HunkLine {
                        diff,
                        file_i,
                        hunk_i,
                        line_i,
                        line_range,
                        line_indices,
                    } => {
                        &&& target@ matches Meaning::HunkLine {
                            diff: d,
                            file_i: f,
                            hunk_i: h,
                            line_i: l,
                            line_range: r,
                            line_indices: lines,
                        }
                        &&& d == diff && f == file_i && h == hunk_i && l == line_i && r
                            == line_range
                        &&& ascending(lines)
                        &&& lines.to_set() == selected_indices(
                            self.items@,
                            self.place().selection().0,
                            self.place().selection().1,
                        )
                    },
                    _ => target@ == under,
                }
            }),
            screens::acts_on_selection(self.items@, self.place(), target@),
    {
        match &self.items[self.cursor].data {
            ItemData::HunkLine { diff, file_i, hunk_i, line_i, line_range, .. } => {
                let (start, end) = self.selection();
                let line_indices = self.collect_indices(start, end);
                proof {
                    self.lemma_collected(line_indices@);
                }
                ItemData::HunkLine {
                    diff: *diff,
                    file_i: *file_i,
                    hunk_i: *hunk_i,
                    line_i: *line_i,
                    line_range: line_range.start..line_range.end,
                    line_indices,
                }
            },
            data => data.clone(),
        }
    }

    proof fn lemma_collected(&self, lines: Seq<usize>)
        requires
            lines.to_set() == selected_indices(
                self.items@,
                self.place().selection().0,
                self.place().selection().1,
            ),
        ensures
            forall|line: usize| #[trigger]
                lines.contains(line) <==> exists|i: int|
                    {
                        &&& self.place().selects(i)
                        &&& (#[trigger] self.items@[i]).data@ is HunkLine
                        &&& self.items@[i].data@->line_indices.contains(line)
                    },
    {
        let (from, to) = self.place().selection();
        assert forall|line: usize| #[trigger] lines.contains(line) <==> exists|i: int|
            {
                &&& self.place().selects(i)
                &&& (#[trigger] self.items@[i]).data@ is HunkLine
                &&& self.items@[i].data@->line_indices.contains(line)
            } by {
            assert(lines.to_set().contains(line) == lines.contains(line));
            if selected_indices(self.items@, from, to).contains(line) {
                let i = choose|i: int|
                    from <= i <= to && (#[trigger] self.items@[i]).data@ is HunkLine
                        && self.items@[i].data@->line_indices.contains(line);
                assert(self.place().selects(i));
            }
        }
    }

    /// The lines that the rows from `start` to `end` act on, in order.
    fn collect_indices(&self, start: usize, end: usize) -> (lines: Vec<usize>)
        requires
            start <= end < self.items@.len(),
        ensures
            ascending(lines@),
            lines@.to_set() == selected_indices(self.items@, start as int, end as int),
    {
        let mut lines: Vec<usize> = Vec::new();
        let mut i: usize = start;
        proof {
            assert(lines@.to_set() =~= Set::empty());
            assert(selected_indices(self.items@, start as int, start - 1) =~= Set::empty());
        }
        while i <= end
            invariant
                start <= i <= end + 1,
                end < self.items@.len(),
                ascending(lines@),
                lines@.to_set() == selected_indices(self.items@, start as int, i - 1),
            decreases end + 1 - i,
        {
            // Context lines within the selection contribute nothing: a patch leaves
            // them be whether or not they are named.
            if let ItemData::HunkLine { line_indices, .. } = &self.items[i].data {
                let ghost before = lines@.to_set();
                let mut k: usize = 0;
                proof {
                    assert(line_indices@.take(0).to_set() =~= Set::empty());
                }
                while k < line_indices.len()
                    invariant
                        k <= line_indices@.len(),
                        ascending(lines@),
                        lines@.to_set() == before.union(line_indices@.take(k as int).to_set()),
                    decreases line_indices@.len() - k,
                {
                    let ghost had = lines@.to_set();
                    insert_ascending(&mut lines, line_indices[k]);
                    proof {
                        let taken = line_indices@.take(k as int);
                        let next = line_indices@.take(k + 1);
                        assert(next =~= taken.push(line_indices@[k as int]));
                        assert(next.to_set() =~= taken.to_set().insert(line_indices@[k as int]))
                            by {
                            assert forall|x: usize| #[trigger]
                                next.to_set().contains(x) <==> taken.to_set().insert(
                                    line_indices@[k as int],
                                ).contains(x) by {
                                if taken.contains(x) {
                                    let m = choose|m: int|
                                        0 <= m < taken.len() && taken[m] == x;
                                    assert(next[m] == x);
                                }
                                if x == line_indices@[k as int] {
                                    assert(next[k as int] == x);
                                }
                                if next.contains(x) && x != line_indices@[k as int] {
                                    let m = choose|m: int| 0 <= m < next.len() && next[m] == x;
                                    assert(taken[m] == x);
                                }
                            }
                        }
                        assert(lines@.to_set() =~= before.union(next.to_set()));
                    }
                    k += 1;
                }
                proof {
                    assert(line_indices@.take(k as int) =~= line_indices@);
                    assert(selected_indices(self.items@, start as int, i as int) =~= before.union(
                        line_indices@.to_set(),
                    )) by {
                        assert forall|x: usize| #[trigger]
                            selected_indices(self.items@, start as int, i as int).contains(x)
                                <==> before.union(line_indices@.to_set()).contains(x) by {
                            if line_indices@.contains(x) {
                                assert(self.items@[i as int].data@ is HunkLine);
                            }
                        }
                    }
                }
            } else {
                proof {
                    assert(selected_indices(self.items@, start as int, i as int)
                        =~= selected_indices(self.items@, start as int, i - 1)) by {
                        assert(!(self.items@[i as int].data@ is HunkLine));
                    }
                }
            }
            if i == end {
                return lines;
            }
            i += 1;
        }
        lines
    }

    // -----------------------------------------------------------------------
    // Going to rows
    // -----------------------------------------------------------------------

    fn find_matching<P: Fn(&ItemData) -> bool>(&self, predicate: &P) -> (item: Option<usize>)
        requires
            self.wf(),
            forall|data: &ItemData| call_requires(*predicate, (data,)),
        ensures
            is_first_match(self.frame(), self.items@, *predicate, screen::index_view(item)),
    {
        let ghost f = self.frame();
        let mut at: Option<usize> = Some(0);
        proof {
            frame::first_visible(f);
        }
        while at.is_some()
            invariant
                f == self.frame(),
                self.items@.len() > 0,
                forall|data: &ItemData| call_requires(*predicate, (data,)),
                at matches Some(i) ==> i < self.items@.len() && f.visible(i as int),
                forall|j: int|
                    0 <= j < (match at {
                        Some(i) => i as int,
                        None => f.len(),
                    }) && #[trigger] f.visible(j) && !f.rows[j].unselectable ==> call_ensures(
                        *predicate,
                        (&self.items@[j].data,),
                        false,
                    ),
            decreases
                    (match at {
                        Some(a) => f.len() - a,
                        None => 0,
                    }),
        {
            let item_i = at.unwrap();
            let item = &self.items[item_i];
            if !item.unselectable && predicate(&item.data) {
                return Some(item_i);
            }
            proof {
                frame::next_is_next_visible(f, item_i as int);
            }
            at = self.next_visible(item_i);
        }
        None
    }

    fn rfind_matching<P: Fn(&ItemData) -> bool>(&self, predicate: &P) -> (item: Option<usize>)
        requires
            self.wf(),
            forall|data: &ItemData| call_requires(*predicate, (data,)),
        ensures
            is_last_match(self.frame(), self.items@, *predicate, screen::index_view(item)),
    {
        let ghost f = self.frame();
        let last = self.stand_in(self.items.len() - 1, 0);
        let mut at: Option<usize> = Some(last);
        proof {
            frame::last_is_last_visible(f);
        }
        while at.is_some()
            invariant
                f == self.frame(),
                self.items@.len() > 0,
                forall|data: &ItemData| call_requires(*predicate, (data,)),
                at matches Some(i) ==> i < self.items@.len() && f.visible(i as int),
                forall|j: int|
                    (match at {
                        Some(i) => i as int,
                        None => -1,
                    }) < j < f.len() && #[trigger] f.visible(j) && !f.rows[j].unselectable
                        ==> call_ensures(*predicate, (&self.items@[j].data,), false),
            decreases
                    (match at {
                        Some(a) => a + 1,
                        None => 0,
                    }),
        {
            let item_i = at.unwrap();
            let item = &self.items[item_i];
            if !item.unselectable && predicate(&item.data) {
                return Some(item_i);
            }
            proof {
                frame::prev_is_prev_visible(f, item_i as int);
            }
            at = self.prev_visible(item_i);
        }
        None
    }

    /// Moves the cursor to the first row a predicate holds of, and draws it in the
    /// middle of the screen.
    pub fn select_matching<P: Fn(&ItemData) -> bool>(&mut self, predicate: P) -> (found: bool)
        requires
            old(self).wf(),
            forall|data: &ItemData| call_requires(predicate, (data,)),
        ensures
            final(self).wf(),
            final(self).same_content(old(self)),
            exists|item: Option<int>| #[trigger]
                is_first_match(old(self).frame(), old(self).items@, predicate, item) && found
                    == item is Some && final(self).place() == (match item {
                    Some(i) => old(self).frame().fit(
                        (Place {
                            cursor: i,
                            top: old(self).frame().centered(i),
                            ..old(self).place()
                        }),
                    ),
                    None => old(self).place(),
                }),
    {
        let item = self.find_matching(&predicate);
        proof {
            assert(is_first_match(
                self.frame(),
                self.items@,
                predicate,
                screen::index_view(item),
            ));
        }
        if let Some(item_i) = item {
            self.cursor = item_i;
            self.center_on_cursor();
            self.scroll_fit_end();
            self.scroll_fit_start();
            true
        } else {
            false
        }
    }

    /// Moves the cursor to the last row a predicate holds of, and draws it in the
    /// middle of the screen.
    pub fn select_last_matching<P: Fn(&ItemData) -> bool>(&mut self, predicate: P) -> (found: bool)
        requires
            old(self).wf(),
            forall|data: &ItemData| call_requires(predicate, (data,)),
        ensures
            final(self).wf(),
            final(self).same_content(old(self)),
            exists|item: Option<int>| #[trigger]
                is_last_match(old(self).frame(), old(self).items@, predicate, item) && found
                    == item is Some && final(self).place() == (match item {
                    Some(i) => old(self).frame().fit_start(
                        (Place {
                            cursor: i,
                            top: old(self).frame().centered(i),
                            ..old(self).place()
                        }),
                    ),
                    None => old(self).place(),
                }),
    {
        let item = self.rfind_matching(&predicate);
        proof {
            assert(is_last_match(
                self.frame(),
                self.items@,
                predicate,
                screen::index_view(item),
            ));
        }
        if let Some(item_i) = item {
            self.cursor = item_i;
            self.center_on_cursor();
            self.scroll_fit_start();
            true
        } else {
            false
        }
    }

    /// As [`Self::select_matching`], but the rows stay where they are on screen:
    /// the view scrolls only as far as it takes to bring the cursor into it.
    pub fn select_matching_in_view<P: Fn(&ItemData) -> bool>(&mut self, predicate: P) -> (found:
        bool)
        requires
            old(self).wf(),
            forall|data: &ItemData| call_requires(predicate, (data,)),
        ensures
            final(self).wf(),
            final(self).same_content(old(self)),
            exists|item: Option<int>| #[trigger]
                is_first_match(old(self).frame(), old(self).items@, predicate, item) && found
                    == item is Some && final(self).place() == (match item {
                    Some(i) => old(self).frame().fit((Place { cursor: i, ..old(self).place() })),
                    None => old(self).place(),
                }),
    {
        let item = self.find_matching(&predicate);
        proof {
            assert(is_first_match(
                self.frame(),
                self.items@,
                predicate,
                screen::index_view(item),
            ));
        }
        if let Some(item_i) = item {
            self.cursor = item_i;
            self.scroll_fit_end();
            self.scroll_fit_start();
            true
        } else {
            false
        }
    }
}

/// Put a number where it belongs, unless it is there.
fn insert_ascending(numbers: &mut Vec<usize>, n: usize)
    requires
        ascending(old(numbers)@),
    ensures
        ascending(final(numbers)@),
        final(numbers)@.to_set() == old(numbers)@.to_set().insert(n),
{
    let mut i: usize = 0;
    while i < numbers.len() && numbers[i] < n
        invariant
            i <= numbers@.len(),
            numbers@ == old(numbers)@,
            forall|k: int| 0 <= k < i ==> numbers@[k] < n,
        decreases numbers@.len() - i,
    {
        i += 1;
    }
    if i < numbers.len() && numbers[i] == n {
        proof {
            assert(numbers@.contains(n));
            assert(numbers@.to_set() =~= old(numbers)@.to_set().insert(n));
        }
        return;
    }
    let ghost before = numbers@;
    numbers.insert(i, n);
    proof {
        assert(numbers@ =~= before.insert(i as int, n));
        assert forall|a: int, b: int| 0 <= a < b < numbers@.len() implies numbers@[a]
            < numbers@[b] by {
            if b < i {
                assert(before[a] < before[b]);
            } else if b == i {
                assert(before[a] < n);
            } else if a < i {
                if i < before.len() {
                    assert(before[i as int] > n);
                    assert(i < b - 1 ==> before[i as int] < before[b - 1]);
                }
                assert(before[a] < n);
                assert(numbers@[b] == before[b - 1]);
            } else if a == i {
                assert(numbers@[b] == before[b - 1]);
                assert(before[i as int] > n);
                assert(i < b - 1 ==> before[i as int] < before[b - 1]);
            } else {
                assert(before[a - 1] < before[b - 1]);
            }
        }
        assert forall|x: usize| #[trigger]
            numbers@.to_set().contains(x) <==> before.to_set().insert(n).contains(x) by {
            if before.contains(x) {
                let k = choose|k: int| 0 <= k < before.len() && before[k] == x;
                if k < i {
                    assert(numbers@[k] == x);
                } else {
                    assert(numbers@[k + 1] == x);
                }
            }
            if x == n {
                assert(numbers@[i as int] == x);
            }
            if numbers@.contains(x) && x != n {
                let k = choose|k: int| 0 <= k < numbers@.len() && numbers@[k] == x;
                if k < i {
                    assert(before[k] == x);
                } else {
                    assert(before[k - 1] == x);
                }
            }
        }
        assert(numbers@.to_set() =~= before.to_set().insert(n));
    }
}

// ---------------------------------------------------------------------------
// Laws of folding
// ---------------------------------------------------------------------------

/// Which sections are outermost doesn't depend on what is folded.
pub proof fn outermost_whatever_is_folded(
    items: Seq<Item>,
    layouts: Seq<ItemLayout>,
    collapsed: Set<u64>,
    other: Set<u64>,
    lines: nat,
    i: int,
)
    ensures
        is_outermost(screen::frame_of(items, layouts, collapsed, lines), i) == is_outermost(
            screen::frame_of(items, layouts, other, lines),
            i,
        ),
{
    let f = screen::frame_of(items, layouts, collapsed, lines);
    let g = screen::frame_of(items, layouts, other, lines);
    assert(f.len() == g.len());
    assert forall|j: int| 0 <= j < f.len() implies (#[trigger] f.rows[j]).section
        == g.rows[j].section && f.rows[j].depth == g.rows[j].depth by {}
    if is_outermost(f, i) {
        assert forall|j: int| 0 <= j < g.len() && (#[trigger] g.rows[j]).section implies g.rows[i].depth
            <= g.rows[j].depth by {
            assert(f.rows[j].section);
        }
    }
    if is_outermost(g, i) {
        assert forall|j: int| 0 <= j < f.len() && (#[trigger] f.rows[j]).section implies f.rows[i].depth
            <= f.rows[j].depth by {
            assert(g.rows[j].section);
        }
    }
}

/// A view that has just been folded down to its headings counts as folded, so
/// that folding it again opens all of it.
pub proof fn folding_again_opens(
    items: Seq<Item>,
    layouts: Seq<ItemLayout>,
    collapsed: Set<u64>,
    lines: nat,
)
    ensures
        ({
            let f = screen::frame_of(items, layouts, collapsed, lines);
            let folded = headings(f, items);
            let g = screen::frame_of(items, layouts, folded, lines);
            all_folded(g, items, folded) && headings(g, items) == folded
        }),
{
    let f = screen::frame_of(items, layouts, collapsed, lines);
    let folded = headings(f, items);
    let g = screen::frame_of(items, layouts, folded, lines);
    assert forall|i: int| is_outermost(f, i) == #[trigger] is_outermost(g, i) by {
        outermost_whatever_is_folded(items, layouts, collapsed, folded, lines, i);
    }
    assert forall|i: int| #[trigger] is_outermost(g, i) implies folded.contains(items[i].id) by {
        assert(is_outermost(f, i));
    }
    assert(headings(g, items) =~= folded) by {
        assert forall|id: u64| #[trigger]
            headings(g, items).contains(id) <==> folded.contains(id) by {
            if folded.contains(id) {
                let i = choose|i: int| #[trigger] is_outermost(f, i) && items[i].id == id;
                assert(is_outermost(g, i));
            }
            if headings(g, items).contains(id) {
                let i = choose|i: int| #[trigger] is_outermost(g, i) && items[i].id == id;
                assert(is_outermost(f, i));
            }
        }
    }
}

/// A view in which nothing is folded shows every row.
pub proof fn unfolded_shows_all(f: Frame, i: int)
    requires
        0 <= i < f.len(),
        forall|a: int| 0 <= a < f.len() ==> !#[trigger] f.shut(a),
    ensures
        f.visible(i),
{
    assert forall|a: int| !#[trigger] f.hides(a, i) by {}
}

/// Opening a heading of a view that was folded down to its headings shows
/// everything under it, rather than another folded thing.
pub proof fn opened_heading_shows_all(f: Frame, heading: int, i: int)
    requires
        is_outermost(f, heading),
        !f.shut(heading),
        forall|a: int| 0 <= a < f.len() && #[trigger] f.shut(a) ==> is_outermost(f, a),
        f.under(heading, i),
    ensures
        f.visible(i),
{
    assert forall|a: int| !#[trigger] f.hides(a, i) by {
        if f.hides(a, i) {
            assert(is_outermost(f, a));
            assert(f.rows[a].depth == f.rows[heading].depth);
            if a < heading {
                assert(f.rows[heading].depth > f.rows[a].depth);
            } else if heading < a {
                assert(f.rows[a].depth > f.rows[heading].depth);
            }
        }
    }
}

/// Folding a section hides everything that nests under it.
pub proof fn shut_hides_all(f: Frame, section: int, i: int)
    requires
        f.under(section, i),
        f.shut(section),
    ensures
        !f.visible(i),
{
    assert(f.hides(section, i));
}

} // verus!
