//! A scrollable list of rows that nest and fold, and the cursor on it.

use crate::frame;
use crate::frame::{Frame, FrameRow, NavMode, Scroll, Top};
use crate::item::Item;
use crate::place;
use crate::place::Place;
use std::collections::HashSet;
use vstd::prelude::*;

verus! {

broadcast use vstd::std_specs::hash::group_hash_axioms;

/// How a row comes out when it is laid out at a screen's width: how many lines it
/// takes, and the runs of text on it.
#[derive(Debug)]
pub struct Measure {
    pub height: u16,
    pub runs: Vec<String>,
}

/// How a row comes out open, and folded with an ellipsis at its end.
#[derive(Debug)]
pub struct ItemLayout {
    pub open: Measure,
    pub shut: Measure,
}

#[derive(Copy, Clone, Debug, PartialEq, Eq, Structural)]
pub enum SearchDirection {
    Forward,
    Backward,
}

/// A pattern to look for.
#[derive(Debug)]
pub struct Matcher {
    pub pattern: String,
    pub case_insensitive: bool,
}

/// The search to repeat, as `n` and `N` do in vim.
#[derive(Debug)]
pub struct Search {
    pub query: String,
    pub matcher: Matcher,
    pub direction: SearchDirection,
}

/// A screen. What it shows is built elsewhere; `items` and their `layouts` are
/// handed to it.
pub struct Screen {
    pub size: (u16, u16),
    /// Whether the keymap the screen imposes is listed on it. It starts out of
    /// the way.
    pub show_menu: bool,
    pub cursor: usize,
    /// Where a multi-line selection was started, if one is being made. The
    /// selection runs from here to the cursor, inclusive.
    pub anchor: Option<usize>,
    pub scroll: Scroll,
    pub items: Vec<Item>,
    pub layouts: Vec<ItemLayout>,
    pub collapsed: HashSet<u64>,
    pub search: Option<Search>,
}

/// A row on screen, and how it is drawn.
#[derive(Clone, Copy, Debug, PartialEq, Eq, Structural)]
pub struct ItemView {
    pub item_index: usize,
    pub highlighted: bool,
    /// Drawn as the cursor line is: the selection may span several of these.
    pub selected: bool,
}

/// What some rows on screen are.
pub open spec fn drawn_views(views: Seq<ItemView>) -> Seq<place::Drawn> {
    views.map_values(
        |view: ItemView|
            place::Drawn {
                item: view.item_index as int,
                highlighted: view.highlighted,
                selected: view.selected,
            },
    )
}

/// What some rows and the lines they are at are.
pub open spec fn at_views(rows: Seq<(usize, usize)>) -> Seq<(int, int)> {
    rows.map_values(|row: (usize, usize)| (row.0 as int, row.1 as int))
}

/// The top of the viewport.
pub open spec fn top_of(scroll: Scroll) -> Top {
    Top { item: scroll.item_anchor as int, offset: scroll.offset as int }
}

pub open spec fn index_view(i: Option<usize>) -> Option<int> {
    match i {
        Some(i) => Some(i as int),
        None => None,
    }
}

/// Whether a row has any that nest under it.
pub open spec fn has_children(items: Seq<Item>, i: int) -> bool {
    i + 1 < items.len() && items[i + 1].depth > items[i].depth
}

/// What walking over a row takes to know of it.
pub open spec fn frame_row(
    items: Seq<Item>,
    layouts: Seq<ItemLayout>,
    collapsed: Set<u64>,
    i: int,
) -> FrameRow {
    let item = items[i];
    FrameRow {
        depth: item.depth as nat,
        section: item.data@.is_section(),
        collapsed: collapsed.contains(item.id),
        unselectable: item.unselectable,
        sub_line: item.data@.is_sub_line(),
        hunk: item.data@ is Hunk,
        height: if has_children(items, i) && collapsed.contains(item.id) {
            layouts[i].shut.height as nat
        } else {
            layouts[i].open.height as nat
        },
    }
}

/// The outline of some rows.
pub open spec fn frame_of(
    items: Seq<Item>,
    layouts: Seq<ItemLayout>,
    collapsed: Set<u64>,
    lines: nat,
) -> Frame {
    Frame {
        rows: Seq::new(items.len(), |i: int| frame_row(items, layouts, collapsed, i)),
        lines,
    }
}

impl Screen {
    /// The outline of this screen.
    pub open spec fn frame(&self) -> Frame {
        frame_of(self.items@, self.layouts@, self.collapsed@, self.size.1 as nat)
    }

    /// Where this screen is at.
    pub open spec fn place(&self) -> Place {
        Place {
            cursor: self.cursor as int,
            anchor: index_view(self.anchor),
            top: top_of(self.scroll),
        }
    }

    /// There is something on the screen, all of it was laid out, and the viewport
    /// starts on it.
    pub open spec fn viewable(&self) -> bool {
        &&& self.items@.len() > 0
        &&& self.layouts@.len() == self.items@.len()
        &&& self.scroll.item_anchor < self.items@.len()
    }

    /// There is something on the screen, all of it was laid out, and the cursor,
    /// the selection and the viewport are on it.
    pub open spec fn wf(&self) -> bool {
        &&& self.items@.len() > 0
        &&& self.layouts@.len() == self.items@.len()
        &&& self.place().on(self.frame())
    }

    /// Whether everything but the cursor, the selection and the viewport is as it
    /// is on another screen.
    pub open spec fn same_content(&self, other: &Screen) -> bool {
        &&& self.size == other.size
        &&& self.show_menu == other.show_menu
        &&& self.items == other.items
        &&& self.layouts == other.layouts
        &&& self.collapsed@ == other.collapsed@
        &&& self.search == other.search
    }

    pub fn is_collapsed(&self, item: &Item) -> (is: bool)
        ensures
            is == self.collapsed@.contains(item.id),
    {
        self.collapsed.contains(&item.id)
    }

    /// Whether a row is folded shut.
    fn is_shut(&self, item_i: usize) -> (is: bool)
        requires
            item_i < self.items@.len(),
        ensures
            is == self.frame().shut(item_i as int),
    {
        let item = &self.items[item_i];
        item.data.is_section() && self.is_collapsed(item)
    }

    /// How many lines a row occupies once laid out at the current width.
    pub fn item_height(&self, item_i: usize) -> (height: usize)
        requires
            item_i < self.items@.len(),
            self.layouts@.len() == self.items@.len(),
        ensures
            height == self.frame().rows[item_i as int].height,
            height <= 0xffff,
    {
        let item = &self.items[item_i];
        let count = self.items.len();
        let has_children = item_i + 1 < count && self.items[item_i + 1].depth > item.depth;
        if has_children && self.is_collapsed(item) {
            self.layouts[item_i].shut.height as usize
        } else {
            self.layouts[item_i].open.height as usize
        }
    }

    /// The outermost collapsed section hiding `item_i`, looking no further out
    /// than `floor`.
    pub fn hidden_by(&self, item_i: usize, floor: usize) -> (section: Option<usize>)
        requires
            item_i < self.items@.len(),
        ensures
            index_view(section) == self.frame().hider(item_i as int, floor as nat),
            section matches Some(a) ==> a < item_i,
    {
        let ghost f = self.frame();
        let ghost i = item_i as int;
        let mut depth = self.items[item_i].depth;
        let mut hidden_by: Option<usize> = None;
        let mut j: usize = item_i;
        proof {
            assert(f.rows[i].depth == depth);
            assert forall|b: int| item_i <= b < item_i implies !#[trigger] f.hides_above(
                b,
                i,
                floor as nat,
            ) by {}
        }
        while j > 0 && depth > floor
            invariant
                j <= item_i < self.items@.len(),
                f == self.frame(),
                i == item_i,
                forall|k: int| j <= k <= i ==> (#[trigger] f.rows[k]).depth >= depth,
                exists|k: int| j <= k <= i && (#[trigger] f.rows[k]).depth == depth,
                depth > floor ==> forall|k: int|
                    j <= k <= i ==> (#[trigger] f.rows[k]).depth > floor,
                match hidden_by {
                    Some(a) => j <= a < i && f.hides_above(a as int, i, floor as nat)
                        && forall|b: int|
                        j <= b < a ==> !#[trigger] f.hides_above(b, i, floor as nat),
                    None => forall|b: int|
                        j <= b < i ==> !#[trigger] f.hides_above(b, i, floor as nat),
                },
            decreases j,
        {
            j -= 1;
            let ghost before = depth;
            let ancestor = self.items[j].depth;
            if ancestor < depth {
                depth = ancestor;
                proof {
                    assert(f.under(j as int, i)) by {
                        assert forall|k: int| j < k <= i implies (#[trigger] f.rows[k]).depth
                            > f.rows[j as int].depth by {}
                    }
                }
                if self.is_shut(j) {
                    proof {
                        assert(f.hides_above(j as int, i, floor as nat));
                    }
                    hidden_by = Some(j);
                } else {
                    proof {
                        assert(!f.hides_above(j as int, i, floor as nat));
                    }
                }
            } else {
                proof {
                    assert(!f.under(j as int, i)) by {
                        let k = choose|k: int|
                            j + 1 <= k <= i && (#[trigger] f.rows[k]).depth == before;
                        assert(f.rows[k].depth <= f.rows[j as int].depth);
                    }
                }
            }
        }
        proof {
            assert forall|b: int| 0 <= b < j implies !#[trigger] f.hides_above(
                b,
                i,
                floor as nat,
            ) by {
                let k = choose|k: int| j <= k <= i && (#[trigger] f.rows[k]).depth == depth;
                assert(f.rows[k].depth <= floor);
            }
            match hidden_by {
                Some(a) => frame::lemma_hider_is(f, a as int, i, floor as nat),
                None => frame::lemma_hider_none(f, i, floor as nat),
            }
        }
        hidden_by
    }

    /// Whether nothing that is folded hides a row.
    pub fn is_visible(&self, item_i: usize) -> (is: bool)
        requires
            item_i < self.items@.len(),
        ensures
            is == (self.frame().hider(item_i as int, 0) is None),
            is == self.frame().visible(item_i as int),
    {
        proof {
            frame::visible_iff_unhidden(self.frame(), item_i as int);
        }
        self.hidden_by(item_i, 0).is_none()
    }

    /// What stands in for a row.
    pub(crate) fn stand_in(&self, item_i: usize, floor: usize) -> (j: usize)
        requires
            item_i < self.items@.len(),
        ensures
            j == self.frame().stand_in(item_i as int, floor as nat),
            j <= item_i,
    {
        match self.hidden_by(item_i, floor) {
            Some(section) => section,
            None => item_i,
        }
    }

    /// The first row after `item_i` that doesn't nest under it.
    fn subtree_end(&self, item_i: usize) -> (end: usize)
        requires
            item_i < self.items@.len(),
        ensures
            end == self.frame().subtree_end(item_i as int, item_i + 1),
            item_i < end <= self.items@.len(),
    {
        let ghost f = self.frame();
        let depth = self.items[item_i].depth;
        let count = self.items.len();
        let mut end: usize = item_i + 1;
        while end < count && self.items[end].depth > depth
            invariant
                item_i < end <= self.items@.len(),
                count == self.items@.len(),
                f == self.frame(),
                depth == self.items@[item_i as int].depth,
                forall|j: int|
                    item_i < j < end ==> (#[trigger] f.rows[j]).depth > f.rows[item_i as int].depth,
            decreases self.items@.len() - end,
        {
            end += 1;
        }
        proof {
            frame::lemma_subtree_end_is(f, item_i as int, end as int);
        }
        end
    }

    /// The visible item after `item_i`, which only `item_i` itself can hide.
    pub fn next_visible(&self, item_i: usize) -> (next: Option<usize>)
        requires
            item_i < self.items@.len(),
        ensures
            index_view(next) == self.frame().next_of(item_i as int),
            next matches Some(j) ==> item_i < j < self.items@.len(),
    {
        let count = self.items.len();
        let next = if self.is_shut(item_i) {
            // Step over the subtree it holds shut.
            self.subtree_end(item_i)
        } else {
            item_i + 1
        };
        if next < count {
            Some(next)
        } else {
            None
        }
    }

    /// The visible item before `item_i`.
    pub fn prev_visible(&self, item_i: usize) -> (prev: Option<usize>)
        requires
            item_i < self.items@.len(),
        ensures
            index_view(prev) == self.frame().prev_of(item_i as int),
            prev matches Some(j) ==> j < item_i,
    {
        if item_i == 0 {
            None
        } else {
            // In case the one before is collapsed, we need to find the item that
            // hides it.
            Some(self.stand_in(item_i - 1, self.items[item_i].depth))
        }
    }

    /// Every visible item, from the bottom of the content up.
    pub fn visible_items_rev(&self) -> (items: Vec<usize>)
        requires
            self.items@.len() > 0,
        ensures
            forall|k: int|
                0 <= k < items@.len() ==> (#[trigger] items@[k]) < self.items@.len()
                    && self.frame().visible(items@[k] as int),
            forall|k: int, l: int| 0 <= k < l < items@.len() ==> items@[k] > items@[l],
            forall|i: int|
                0 <= i < self.items@.len() && #[trigger] self.frame().visible(i)
                    ==> items@.contains(i as usize),
    {
        let ghost f = self.frame();
        let mut items: Vec<usize> = Vec::new();
        let mut at: Option<usize> = Some(self.stand_in(self.items.len() - 1, 0));
        proof {
            frame::last_is_last_visible(f);
        }
        while at.is_some()
            invariant
                f == self.frame(),
                self.items@.len() > 0,
                at matches Some(i) ==> i < self.items@.len() && f.visible(i as int),
                forall|k: int|
                    0 <= k < items@.len() ==> (#[trigger] items@[k]) < self.items@.len()
                        && f.visible(items@[k] as int),
                forall|k: int, l: int| 0 <= k < l < items@.len() ==> items@[k] > items@[l],
                at matches Some(i) ==> forall|k: int|
                    0 <= k < items@.len() ==> (#[trigger] items@[k]) > i,
                forall|i: int|
                    (match at {
                        Some(a) => a as int,
                        None => -1,
                    }) < i < f.len() && #[trigger] f.visible(i) ==> items@.contains(i as usize),
            decreases
                    (match at {
                        Some(a) => a + 1,
                        None => 0,
                    }),
        {
            let item_i = at.unwrap();
            let ghost before = items@;
            items.push(item_i);
            at = self.prev_visible(item_i);
            proof {
                frame::prev_is_prev_visible(f, item_i as int);
                assert(items@[before.len() as int] == item_i);
                assert forall|i: int|
                    (match at {
                        Some(a) => a as int,
                        None => -1,
                    }) < i < f.len() && #[trigger] f.visible(i) implies items@.contains(
                    i as usize,
                ) by {
                    if i > item_i {
                        assert(before.contains(i as usize));
                        let k = choose|k: int| 0 <= k < before.len() && before[k] == i as usize;
                        assert(items@[k] == i as usize);
                    } else if i == item_i {
                        assert(items@[before.len() as int] == i as usize);
                    }
                }
            }
        }
        items
    }

    /// Every visible item, from the top of the content down.
    pub fn visible_items(&self) -> (items: Vec<usize>)
        requires
            self.items@.len() > 0,
        ensures
            forall|k: int|
                0 <= k < items@.len() ==> (#[trigger] items@[k]) < self.items@.len()
                    && self.frame().visible(items@[k] as int),
            forall|k: int, l: int| 0 <= k < l < items@.len() ==> items@[k] < items@[l],
            forall|i: int|
                0 <= i < self.items@.len() && #[trigger] self.frame().visible(i)
                    ==> items@.contains(i as usize),
    {
        let ghost f = self.frame();
        let mut items: Vec<usize> = Vec::new();
        let mut at: Option<usize> = Some(0);
        proof {
            frame::first_visible(f);
        }
        while at.is_some()
            invariant
                f == self.frame(),
                self.items@.len() > 0,
                at matches Some(i) ==> i < self.items@.len() && f.visible(i as int),
                forall|k: int|
                    0 <= k < items@.len() ==> (#[trigger] items@[k]) < self.items@.len()
                        && f.visible(items@[k] as int),
                forall|k: int, l: int| 0 <= k < l < items@.len() ==> items@[k] < items@[l],
                at matches Some(i) ==> forall|k: int|
                    0 <= k < items@.len() ==> (#[trigger] items@[k]) < i,
                forall|i: int|
                    0 <= i < (match at {
                        Some(a) => a as int,
                        None => f.len(),
                    }) && #[trigger] f.visible(i) ==> items@.contains(i as usize),
            decreases
                    (match at {
                        Some(a) => f.len() - a,
                        None => 0,
                    }),
        {
            let item_i = at.unwrap();
            let ghost before = items@;
            items.push(item_i);
            at = self.next_visible(item_i);
            proof {
                frame::next_is_next_visible(f, item_i as int);
                assert(items@[before.len() as int] == item_i);
                assert forall|i: int|
                    0 <= i < (match at {
                        Some(a) => a as int,
                        None => f.len(),
                    }) && #[trigger] f.visible(i) implies items@.contains(i as usize) by {
                    if i < item_i {
                        assert(before.contains(i as usize));
                        let k = choose|k: int| 0 <= k < before.len() && before[k] == i as usize;
                        assert(items@[k] == i as usize);
                    } else if i == item_i {
                        assert(items@[before.len() as int] == i as usize);
                    }
                }
            }
        }
        items
    }

    /// Whether `item_i` may be selected, disregarding whether it is hidden by
    /// a collapsed ancestor.
    pub fn nav_filter(&self, item_i: usize, nav_mode: NavMode) -> (ok: bool)
        requires
            item_i < self.items@.len(),
        ensures
            ok == self.frame().nav_ok(item_i as int, nav_mode),
    {
        let item = &self.items[item_i];
        match nav_mode {
            NavMode::Normal => !item.unselectable && !item.data.is_sub_line(),
            NavMode::Siblings { depth } => !item.unselectable && item.data.is_section()
                && item.depth <= depth,
            NavMode::IncludeSubLines => !item.unselectable,
        }
    }

    pub fn is_selectable(&self, item_i: usize, nav_mode: NavMode) -> (is: bool)
        requires
            item_i < self.items@.len(),
        ensures
            is == self.frame().selectable(item_i as int, nav_mode),
    {
        self.is_visible(item_i) && self.nav_filter(item_i, nav_mode)
    }

    /// Where moving down leads.
    pub fn find_next(&self, nav_mode: NavMode) -> (item: usize)
        requires
            self.wf(),
        ensures
            item == self.frame().found_next(self.cursor as int, nav_mode),
            item < self.items@.len(),
    {
        let ghost f = self.frame();
        let ghost wanted = |k: int| f.nav_ok(k, nav_mode);
        let mut at = self.next_visible(self.cursor);
        let ghost first = at;
        while at.is_some()
            invariant
                f == self.frame(),
                wanted == (|k: int| f.nav_ok(k, nav_mode)),
                at matches Some(i) ==> i < self.items@.len() && first is Some && f.first_from(
                    first->0 as int,
                    wanted,
                ) == f.first_from(i as int, wanted),
                at is None ==> first is None || f.first_from(first->0 as int, wanted) is None,
                index_view(first) == f.next_of(self.cursor as int),
            decreases
                    (match at {
                        Some(a) => f.len() - a,
                        None => 0,
                    }),
        {
            let item_i = at.unwrap();
            if self.nav_filter(item_i, nav_mode) {
                return item_i;
            }
            at = self.next_visible(item_i);
        }
        self.cursor
    }

    /// Where moving up leads.
    pub fn find_previous(&self, nav_mode: NavMode) -> (item: usize)
        requires
            self.wf(),
        ensures
            item == self.frame().found_previous(self.cursor as int, nav_mode),
            item < self.items@.len(),
    {
        let ghost f = self.frame();
        let ghost wanted = |k: int| f.nav_ok(k, nav_mode);
        let mut at = self.prev_visible(self.cursor);
        let ghost first = at;
        while at.is_some()
            invariant
                f == self.frame(),
                wanted == (|k: int| f.nav_ok(k, nav_mode)),
                at matches Some(i) ==> i < self.items@.len() && first is Some && f.last_from(
                    first->0 as int,
                    wanted,
                ) == f.last_from(i as int, wanted),
                at is None ==> first is None || f.last_from(first->0 as int, wanted) is None,
                index_view(first) == f.prev_of(self.cursor as int),
            decreases
                    (match at {
                        Some(a) => a + 1,
                        None => 0,
                    }),
        {
            let item_i = at.unwrap();
            if self.nav_filter(item_i, nav_mode) {
                return item_i;
            }
            at = self.prev_visible(item_i);
        }
        self.cursor
    }

    /// The first visible row that can be selected, or the first such hunk.
    pub(crate) fn find_selectable(&self, hunk: bool) -> (item: Option<usize>)
        requires
            self.items@.len() > 0,
        ensures
            index_view(item) == self.frame().first_from(
                0,
                self.frame().selectable_rows(hunk),
            ),
            item matches Some(i) ==> i < self.items@.len(),
    {
        let ghost f = self.frame();
        let ghost wanted = f.selectable_rows(hunk);
        let mut at: Option<usize> = Some(0);
        while at.is_some()
            invariant
                f == self.frame(),
                wanted == f.selectable_rows(hunk),
                at matches Some(i) ==> i < self.items@.len() && f.first_from(0, wanted)
                    == f.first_from(i as int, wanted),
                at is None ==> f.first_from(0, wanted) is None,
            decreases
                    (match at {
                        Some(a) => f.len() - a,
                        None => 0,
                    }),
        {
            let item_i = at.unwrap();
            let item = &self.items[item_i];
            if !item.unselectable && (!hunk || item.data.is_hunk()) {
                return Some(item_i);
            }
            at = self.next_visible(item_i);
        }
        None
    }

    /// The last visible row that can be selected.
    pub(crate) fn rfind_selectable(&self) -> (item: Option<usize>)
        requires
            self.items@.len() > 0,
        ensures
            index_view(item) == self.frame().last_from(
                self.frame().last_of(),
                self.frame().selectable_rows(false),
            ),
            item matches Some(i) ==> i < self.items@.len(),
    {
        let ghost f = self.frame();
        let ghost wanted = f.selectable_rows(false);
        let last = self.stand_in(self.items.len() - 1, 0);
        let mut at: Option<usize> = Some(last);
        while at.is_some()
            invariant
                f == self.frame(),
                wanted == f.selectable_rows(false),
                at matches Some(i) ==> i < self.items@.len() && f.last_from(f.last_of(), wanted)
                    == f.last_from(i as int, wanted),
                at is None ==> f.last_from(f.last_of(), wanted) is None,
            decreases
                    (match at {
                        Some(a) => a + 1,
                        None => 0,
                    }),
        {
            let item_i = at.unwrap();
            if !self.items[item_i].unselectable {
                return Some(item_i);
            }
            at = self.prev_visible(item_i);
        }
        None
    }

    // -----------------------------------------------------------------------
    // Scrolling
    // -----------------------------------------------------------------------

    /// `scroll` taken `lines` back up the content, coming to rest at the top
    /// of it.
    pub fn retreated(&self, scroll: Scroll, lines: usize) -> (up: Scroll)
        requires
            scroll.item_anchor < self.items@.len(),
            self.layouts@.len() == self.items@.len(),
        ensures
            top_of(up) == self.frame().retreated(top_of(scroll), lines as int),
            up.item_anchor < self.items@.len(),
    {
        let ghost f = self.frame();
        if lines <= scroll.offset {
            return Scroll { item_anchor: scroll.item_anchor, offset: scroll.offset - lines };
        }
        let mut left: usize = lines - scroll.offset;
        let mut item: usize = scroll.item_anchor;
        while left > 0
            invariant
                item < self.items@.len(),
                self.layouts@.len() == self.items@.len(),
                f == self.frame(),
                f.retreated(top_of(scroll), lines as int) == f.retreated_from(
                    item as int,
                    left as int,
                ),
            decreases item,
        {
            let prev = match self.prev_visible(item) {
                Some(prev) => prev,
                None => {
                    return Scroll { item_anchor: item, offset: 0 };
                },
            };
            let height = self.item_height(prev);
            if left <= height {
                return Scroll { item_anchor: prev, offset: height - left };
            }
            left -= height;
            item = prev;
        }
        Scroll { item_anchor: item, offset: 0 }
    }

    /// `scroll` taken `lines` further down the content, coming to rest on the
    /// last line there is.
    pub fn advanced(&self, scroll: Scroll, lines: usize) -> (down: Scroll)
        requires
            scroll.item_anchor < self.items@.len(),
            self.layouts@.len() == self.items@.len(),
        ensures
            top_of(down) == self.frame().advanced(top_of(scroll), lines as int),
            down.item_anchor < self.items@.len(),
    {
        let ghost f = self.frame();
        let mut at = scroll;
        let mut left: usize = lines;
        while left > 0
            invariant
                at.item_anchor < self.items@.len(),
                self.layouts@.len() == self.items@.len(),
                f == self.frame(),
                f.advanced(top_of(scroll), lines as int) == f.advanced(top_of(at), left as int),
            decreases f.len() - at.item_anchor,
        {
            let height = self.item_height(at.item_anchor);
            let remaining = height.saturating_sub(at.offset);
            if left < remaining {
                return Scroll { item_anchor: at.item_anchor, offset: at.offset + left };
            }
            match self.next_visible(at.item_anchor) {
                Some(next) => {
                    left -= remaining;
                    at = Scroll { item_anchor: next, offset: 0 };
                },
                None => {
                    return Scroll {
                        item_anchor: at.item_anchor,
                        offset: height.saturating_sub(1),
                    };
                },
            }
        }
        at
    }

    /// Lines of content from the top of the viewport down, counting no further
    /// than `limit`.
    pub fn lines_below_anchor(&self, limit: usize) -> (lines: usize)
        requires
            self.viewable(),
            limit <= 0xffff,
        ensures
            lines == self.frame().lines_below(self.place().top, limit as int),
    {
        let ghost f = self.frame();
        let mut item: usize = self.scroll.item_anchor;
        let mut lines: usize = self.item_height(item).saturating_sub(self.scroll.offset);
        while lines < limit
            invariant
                item < self.items@.len(),
                self.layouts@.len() == self.items@.len(),
                f == self.frame(),
                limit <= 0xffff,
                lines <= 0x1_ffff,
                f.lines_below(self.place().top, limit as int) == f.counted_below(
                    item as int,
                    lines as int,
                    limit as int,
                ),
            decreases f.len() - item,
        {
            match self.next_visible(item) {
                Some(next) => {
                    lines += self.item_height(next);
                    item = next;
                },
                None => {
                    return lines;
                },
            }
        }
        lines
    }

    /// Lines of content above the top of the viewport, counting no further
    /// than `limit`.
    pub fn lines_above_anchor(&self, limit: usize) -> (lines: usize)
        requires
            self.viewable(),
            limit <= 0x1_ffff,
        ensures
            lines == self.frame().lines_above(self.place().top, limit as int),
    {
        let ghost f = self.frame();
        let mut item: usize = self.scroll.item_anchor;
        let mut lines: usize = self.scroll.offset;
        while lines < limit
            invariant
                item < self.items@.len(),
                self.layouts@.len() == self.items@.len(),
                f == self.frame(),
                limit <= 0x1_ffff,
                f.counted_above(
                    self.scroll.item_anchor as int,
                    self.scroll.offset as int,
                    limit as int,
                ) == f.counted_above(item as int, lines as int, limit as int),
            decreases item,
        {
            match self.prev_visible(item) {
                Some(prev) => {
                    lines += self.item_height(prev);
                    item = prev;
                },
                None => {
                    return lines;
                },
            }
        }
        limit
    }

    /// Pulls the viewport back up if it has scrolled further than the content
    /// allows.
    pub fn clamp_scroll(&mut self)
        requires
            old(self).viewable(),
        ensures
            final(self).viewable(),
            old(self).wf() ==> final(self).wf(),
            final(self).same_content(old(self)),
            final(self).place() == (Place {
                top: old(self).frame().clamped(old(self).place().top),
                ..old(self).place()
            }),
    {
        let ghost f = self.frame();
        let lines = self.size.1 as usize;
        let wanted = lines.saturating_sub(frame::BOTTOM_CONTEXT_LINES);
        let below = self.lines_below_anchor(wanted);
        if below >= wanted {
            return;
        }
        let over = wanted - below;
        let above = self.lines_above_anchor(over + frame::BOTTOM_CONTEXT_LINES);
        let spare = above.saturating_sub(frame::BOTTOM_CONTEXT_LINES);
        let back = if over < spare {
            over
        } else {
            spare
        };
        self.scroll = self.retreated(self.scroll, back);
    }

    /// Puts the viewport back on an item that exists and is visible, after the
    /// items changed underneath it.
    pub(crate) fn fit_anchor(&mut self)
        requires
            old(self).items@.len() > 0,
        ensures
            final(self).same_content(old(self)),
            final(self).place() == (Place {
                top: old(self).frame().anchored(old(self).place().top),
                ..old(self).place()
            }),
            final(self).scroll.item_anchor < final(self).items@.len(),
    {
        let last = self.items.len() - 1;
        if self.scroll.item_anchor > last {
            self.scroll.item_anchor = last;
        }
        if let Some(section) = self.hidden_by(self.scroll.item_anchor, 0) {
            self.scroll = Scroll { item_anchor: section, offset: 0 };
        }
    }

    pub fn scroll_view_up(&mut self, lines: usize)
        requires
            old(self).wf(),
        ensures
            final(self).wf(),
            final(self).same_content(old(self)),
            final(self).place() == (Place {
                top: old(self).frame().retreated(old(self).place().top, lines as int),
                ..old(self).place()
            }),
    {
        self.scroll = self.retreated(self.scroll, lines);
    }

    pub fn scroll_view_down(&mut self, lines: usize)
        requires
            old(self).wf(),
        ensures
            final(self).wf(),
            final(self).same_content(old(self)),
            final(self).place() == (Place {
                top: old(self).frame().scrolled_down(old(self).place().top, lines as int),
                ..old(self).place()
            }),
    {
        self.scroll = self.advanced(self.scroll, lines);
        self.clamp_scroll();
    }

    /// Scrolls up until the cursor is on screen, keeping as many lines above it
    /// as it is deep, so that the headers it sits under stay in view.
    pub(crate) fn scroll_fit_start(&mut self)
        requires
            old(self).wf(),
        ensures
            final(self).wf(),
            final(self).same_content(old(self)),
            final(self).place() == old(self).frame().fit_start(old(self).place()),
    {
        let at_cursor = Scroll { item_anchor: self.cursor, offset: 0 };
        let top = self.retreated(at_cursor, self.items[self.cursor].depth);
        if is_above(top, self.scroll) {
            self.scroll = top;
        }
    }

    /// The last item of the selection: the cursor, or the end of the subtree
    /// it heads.
    pub(crate) fn last_selected(&self) -> (last: usize)
        requires
            self.wf(),
        ensures
            last == self.frame().last_selected(self.cursor as int),
            last < self.items@.len(),
    {
        let last = self.subtree_end(self.cursor) - 1;
        // A collapsed section within the selection stands in for its contents.
        self.stand_in(last, self.items[self.cursor].depth)
    }

    /// Scrolls down until the selection ends on screen, keeping a few lines
    /// below it.
    pub(crate) fn scroll_fit_end(&mut self)
        requires
            old(self).wf(),
        ensures
            final(self).wf(),
            final(self).same_content(old(self)),
            final(self).place() == old(self).frame().fit_end(old(self).place()),
    {
        let last = self.last_selected();
        let at_last_line = Scroll {
            item_anchor: last,
            offset: self.item_height(last).saturating_sub(1),
        };
        let lines = self.size.1 as usize;
        let rows_above_context = lines.saturating_sub(frame::BOTTOM_CONTEXT_LINES + 1);
        let bottom = self.retreated(at_last_line, rows_above_context);
        if is_above(self.scroll, bottom) {
            self.scroll = bottom;
        }
    }

    /// Draws the cursor halfway down the screen, or as near to it as the
    /// content above reaches.
    pub(crate) fn center_on_cursor(&mut self)
        requires
            old(self).wf(),
        ensures
            final(self).wf(),
            final(self).same_content(old(self)),
            final(self).place() == (Place {
                top: old(self).frame().centered(old(self).cursor as int),
                ..old(self).place()
            }),
    {
        let at_cursor = Scroll { item_anchor: self.cursor, offset: 0 };
        self.scroll = self.retreated(at_cursor, self.size.1 as usize / 2);
        self.clamp_scroll();
    }

    // -----------------------------------------------------------------------
    // What is on screen
    // -----------------------------------------------------------------------

    /// The rows on screen, from the top of the viewport down, each with the line
    /// it is drawn at.
    pub fn screen_rows(&self) -> (rows: Vec<(usize, usize)>)
        requires
            self.wf(),
        ensures
            at_views(rows@) == self.frame().drawn(self.place().top),
            forall|k: int|
                0 <= k < rows@.len() ==> (#[trigger] rows@[k]).0 < self.items@.len() && rows@[k].1
                    <= 0xffff,
    {
        let ghost f = self.frame();
        let ghost whole = f.drawn(self.place().top);
        let lines = self.size.1 as usize;
        let mut rows: Vec<(usize, usize)> = Vec::new();
        let mut item: usize = self.scroll.item_anchor;
        let mut at: usize = 0;
        proof {
            assert(at_views(rows@) + whole =~= whole);
        }
        loop
            invariant
                item < self.items@.len(),
                self.layouts@.len() == self.items@.len(),
                f == self.frame(),
                lines == self.size.1,
                at <= lines,
                whole == f.drawn(self.place().top),
                at_views(rows@) + f.drawn_from(item as int, at as int) == whole,
                forall|k: int|
                    0 <= k < rows@.len() ==> (#[trigger] rows@[k]).0 < self.items@.len()
                        && rows@[k].1 <= 0xffff,
            decreases f.len() - item,
        {
            let height = self.item_height(item);
            if at + height > lines {
                proof {
                    assert(at_views(rows@) + f.drawn_from(item as int, at as int) =~= at_views(
                        rows@,
                    ));
                }
                return rows;
            }
            let ghost before = rows@;
            let ghost rest = f.drawn_from(item as int, at as int);
            rows.push((item, at));
            proof {
                frame::lemma_next_bounds(f, item as int);
                assert(at_views(rows@) =~= at_views(before).push((item as int, at as int)));
                assert(at_views(rows@) + rest.drop_first() =~= at_views(before) + rest);
                assert(rest.drop_first() =~= match f.next_of(item as int) {
                    Some(next) => f.drawn_from(next, at + height),
                    None => seq![],
                });
            }
            match self.next_visible(item) {
                Some(next) => {
                    at += height;
                    item = next;
                },
                None => {
                    proof {
                        assert(at_views(rows@) + rest.drop_first() =~= at_views(rows@));
                    }
                    return rows;
                },
            }
        }
    }

    /// The item drawn at `row` of the viewport, if the content reaches it.
    pub fn item_at_row(&self, row: usize) -> (item: Option<usize>)
        requires
            self.wf(),
        ensures
            index_view(item) == self.frame().row_at(self.place().top, row as int),
            item matches Some(i) ==> i < self.items@.len(),
    {
        let ghost f = self.frame();
        let rows = self.screen_rows();
        let ghost all = at_views(rows@);
        let mut n: usize = 0;
        proof {
            assert(all.skip(0) =~= all);
            assert(all.take(0) + frame::leading(all, row as int) =~= frame::leading(
                all,
                row as int,
            ));
        }
        while n < rows.len() && rows[n].1 <= row
            invariant
                n <= rows@.len(),
                all == at_views(rows@),
                all.take(n as int) + frame::leading(all.skip(n as int), row as int)
                    == frame::leading(all, row as int),
            decreases rows@.len() - n,
        {
            proof {
                let rest = all.skip(n as int);
                assert(rest.drop_first() =~= all.skip(n + 1));
                assert(rest[0] == all[n as int]);
                assert(all.take(n + 1) + frame::leading(all.skip(n + 1), row as int) =~= all.take(
                    n as int,
                ) + frame::leading(rest, row as int));
            }
            n += 1;
        }
        proof {
            let rest = all.skip(n as int);
            if n < rows@.len() {
                assert(rest[0] == all[n as int]);
            }
            assert(frame::leading(rest, row as int) =~= Seq::<(int, int)>::empty());
            assert(frame::leading(all, row as int) =~= all.take(n as int));
        }
        if n == 0 {
            return None;
        }
        let (item, at) = rows[n - 1];
        proof {
            assert(all.take(n as int).last() == all[n - 1]);
        }
        if row < at + self.item_height(item) {
            Some(item)
        } else {
            None
        }
    }

    /// Which row of the viewport the cursor is drawn on, when it is on screen.
    pub fn cursor_row(&self) -> (row: Option<usize>)
        requires
            self.wf(),
        ensures
            index_view(row) == frame::line_of(
                self.frame().drawn(self.place().top),
                self.cursor as int,
            ),
    {
        let rows = self.screen_rows();
        let ghost all = at_views(rows@);
        let mut n: usize = 0;
        proof {
            assert(all.skip(0) =~= all);
        }
        while n < rows.len()
            invariant
                n <= rows@.len(),
                all == at_views(rows@),
                all == self.frame().drawn(self.place().top),
                frame::line_of(all.skip(n as int), self.cursor as int) == frame::line_of(
                    all,
                    self.cursor as int,
                ),
            decreases rows@.len() - n,
        {
            proof {
                assert(all.skip(n as int).drop_first() =~= all.skip(n + 1));
                assert(all.skip(n as int)[0] == all[n as int]);
            }
            if rows[n].0 == self.cursor {
                return Some(rows[n].1);
            }
            n += 1;
        }
        None
    }

    /// The lines the selection spans; just the cursor's line when none is being
    /// made.
    pub fn selection(&self) -> (selection: (usize, usize))
        ensures
            (selection.0 as int, selection.1 as int) == self.place().selection(),
    {
        let anchor = match self.anchor {
            Some(anchor) => anchor,
            None => self.cursor,
        };
        if anchor < self.cursor {
            (anchor, self.cursor)
        } else {
            (self.cursor, anchor)
        }
    }

    /// Whether `item_i` is within the selection or sits in the subtree its last
    /// line heads, and so draws highlighted.
    fn is_selected(&self, item_i: usize) -> (is: bool)
        requires
            self.wf(),
            item_i < self.items@.len(),
        ensures
            is == self.frame().is_selected(self.place(), item_i as int),
    {
        let ghost f = self.frame();
        let (start, end) = self.selection();
        if start <= item_i && item_i <= end {
            return true;
        }
        if item_i < end {
            return false;
        }
        let depth = self.items[start].depth;
        let mut k: usize = end + 1;
        while k <= item_i
            invariant
                end < k <= item_i + 1,
                item_i < self.items@.len(),
                start < self.items@.len(),
                depth == self.items@[start as int].depth,
                f == self.frame(),
                (start as int, end as int) == self.place().selection(),
                forall|j: int| end < j < k ==> (#[trigger] f.rows[j]).depth > depth,
            decreases item_i + 1 - k,
        {
            if self.items[k].depth <= depth {
                proof {
                    assert(f.rows[k as int].depth <= f.rows[start as int].depth);
                }
                return false;
            }
            if k == item_i {
                return true;
            }
            k += 1;
        }
        true
    }

    /// The rows on screen, as they are drawn.
    pub fn item_views(&self) -> (views: Vec<ItemView>)
        requires
            self.wf(),
        ensures
            drawn_views(views@) == self.frame().views(self.place()),
    {
        let ghost f = self.frame();
        let ghost at = self.place();
        let ghost whole = f.views(at);
        let (start, end) = self.selection();
        let depth = self.items[start].depth;
        let rows = self.screen_rows();
        let ghost all = at_views(rows@);
        let mut highlighted = self.is_selected(self.scroll.item_anchor);
        let mut views: Vec<ItemView> = Vec::new();
        let mut n: usize = 0;
        proof {
            assert(all.skip(0) =~= all);
            assert(drawn_views(views@) + whole =~= whole);
        }
        while n < rows.len()
            invariant
                n <= rows@.len(),
                all == at_views(rows@),
                f == self.frame(),
                at == self.place(),
                start < self.items@.len(),
                (start as int, end as int) == at.selection(),
                depth == self.items@[start as int].depth,
                forall|k: int|
                    0 <= k < rows@.len() ==> (#[trigger] rows@[k]).0 < self.items@.len(),
                drawn_views(views@) + f.views_of(at, all.skip(n as int), highlighted) == whole,
            decreases rows@.len() - n,
        {
            let item_index = rows[n].0;
            let ghost rest = all.skip(n as int);
            let ghost before = views@;
            let ghost lit_before = highlighted;
            proof {
                assert(rest.drop_first() =~= all.skip(n + 1));
                assert(rest[0] == all[n as int]);
            }
            let selected = start <= item_index && item_index <= end;
            if selected {
                highlighted = true;
            } else if self.items[item_index].depth <= depth {
                highlighted = false;
            }
            let view = ItemView { item_index, highlighted, selected };
            views.push(view);
            proof {
                let drawn = place::Drawn { item: item_index as int, highlighted, selected };
                assert(drawn_views(views@) =~= drawn_views(before).push(drawn));
                assert(f.views_of(at, rest, lit_before) =~= seq![drawn] + f.views_of(
                    at,
                    all.skip(n + 1),
                    highlighted,
                ));
                assert(drawn_views(views@) + f.views_of(at, all.skip(n + 1), highlighted)
                    =~= drawn_views(before) + f.views_of(at, rest, lit_before));
            }
            n += 1;
        }
        proof {
            assert(f.views_of(at, all.skip(n as int), highlighted) =~= Seq::<
                place::Drawn,
            >::empty());
            assert(drawn_views(views@) =~= whole);
        }
        views
    }

    pub(crate) fn is_cursor_off_screen(&self) -> (off: bool)
        requires
            self.wf(),
        ensures
            off == self.frame().off_screen(self.place()),
    {
        let views = self.item_views();
        let ghost all = self.frame().views(self.place());
        let mut n: usize = 0;
        while n < views.len()
            invariant
                n <= views@.len(),
                all == self.frame().views(self.place()),
                drawn_views(views@) == all,
                forall|k: int| 0 <= k < n ==> !(#[trigger] all[k]).highlighted,
            decreases views@.len() - n,
        {
            proof {
                assert(all[n as int].highlighted == views@[n as int].highlighted);
            }
            if views[n].highlighted {
                return false;
            }
            n += 1;
        }
        proof {
            assert(all.len() == views@.len());
        }
        true
    }

    /// Whether the screen renders no lines at all, e.g. the log of a branch
    /// with no commits.
    pub fn is_empty(&self) -> (empty: bool)
        requires
            self.items@.len() > 0,
            self.layouts@.len() == self.items@.len(),
        ensures
            empty == self.frame().is_blank(),
    {
        let ghost f = self.frame();
        let ghost wanted = |i: int| f.rows[i].height > 0;
        let mut at: Option<usize> = Some(0);
        while at.is_some()
            invariant
                f == self.frame(),
                self.layouts@.len() == self.items@.len(),
                wanted == (|i: int| f.rows[i].height > 0),
                at matches Some(i) ==> i < self.items@.len() && f.first_from(0, wanted)
                    == f.first_from(i as int, wanted),
                at is None ==> f.first_from(0, wanted) is None,
            decreases
                    (match at {
                        Some(a) => f.len() - a,
                        None => 0,
                    }),
        {
            let item_i = at.unwrap();
            if self.item_height(item_i) > 0 {
                return false;
            }
            at = self.next_visible(item_i);
        }
        true
    }
}

/// Whether one viewport starts above another.
fn is_above(a: Scroll, b: Scroll) -> (is: bool)
    ensures
        is == frame::above(top_of(a), top_of(b)),
{
    a.item_anchor < b.item_anchor || (a.item_anchor == b.item_anchor && a.offset < b.offset)
}

} // verus!
