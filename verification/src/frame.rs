//! The outline a screen draws: rows nested by depth, some of them folded, and
//! the walk over those that are in sight. Nothing in here runs; it is what the
//! screen's own functions are measured against.

use vstd::prelude::*;

verus! {

/// What walking over a row takes to know of it.
pub struct FrameRow {
    pub depth: nat,
    /// Whether rows can nest under it.
    pub section: bool,
    /// Whether what it goes by is folded.
    pub collapsed: bool,
    pub unselectable: bool,
    /// Whether it is a line within something that is selected as a whole.
    pub sub_line: bool,
    pub hunk: bool,
    /// How many lines it takes up.
    pub height: nat,
}

/// The rows of a screen, and how many lines of them fit on it.
pub struct Frame {
    pub rows: Seq<FrameRow>,
    pub lines: nat,
}

/// Which rows a movement stops at.
#[derive(Copy, Clone, Debug)]
pub enum NavMode {
    /// Whatever can be selected, lines within a hunk excepted.
    Normal,
    /// Sections no deeper than this.
    Siblings { depth: usize },
    /// Whatever can be selected.
    IncludeSubLines,
}

/// The top of the viewport: an item, and how many of its lines are above.
#[derive(Copy, Clone, Debug, PartialEq, Eq, Structural)]
pub struct Scroll {
    pub item_anchor: usize,
    pub offset: usize,
}

impl Frame {
    pub open spec fn len(self) -> int {
        self.rows.len() as int
    }

    /// Whether a row is folded shut.
    pub open spec fn shut(self, i: int) -> bool {
        self.rows[i].section && self.rows[i].collapsed
    }

    /// Whether a row nests under another, however deep.
    pub open spec fn under(self, a: int, i: int) -> bool {
        &&& 0 <= a < i < self.len()
        &&& forall|k: int| a < k <= i ==> (#[trigger] self.rows[k]).depth > self.rows[a].depth
    }

    /// Whether a row is hidden by another.
    pub open spec fn hides(self, a: int, i: int) -> bool {
        self.under(a, i) && self.shut(a)
    }

    /// Whether a row is in sight: nothing it nests under is folded shut.
    pub open spec fn visible(self, i: int) -> bool {
        forall|a: int| !#[trigger] self.hides(a, i)
    }

    /// Whether a row hides another, with everything from it down to the other
    /// lying deeper than `floor`.
    pub open spec fn hides_above(self, a: int, i: int, floor: nat) -> bool {
        &&& self.hides(a, i)
        &&& forall|k: int| a < k <= i ==> (#[trigger] self.rows[k]).depth > floor
    }

    /// The outermost row that hides another, from `a` on and looking no further
    /// out than `floor`.
    pub open spec fn hider_from(self, a: int, i: int, floor: nat) -> Option<int>
        decreases i - a,
    {
        if a >= i {
            None
        } else if self.hides_above(a, i, floor) {
            Some(a)
        } else {
            self.hider_from(a + 1, i, floor)
        }
    }

    /// The outermost row that hides another, looking no further out than `floor`.
    pub open spec fn hider(self, i: int, floor: nat) -> Option<int> {
        self.hider_from(0, i, floor)
    }

    /// What stands in for a row: the outermost one hiding it, or itself.
    pub open spec fn stand_in(self, i: int, floor: nat) -> int {
        match self.hider(i, floor) {
            Some(a) => a,
            None => i,
        }
    }

    /// The first row from `k` on that does not nest under `i`.
    pub open spec fn subtree_end(self, i: int, k: int) -> int
        decreases self.len() - k,
    {
        if k >= self.len() {
            self.len()
        } else if self.rows[k].depth <= self.rows[i].depth {
            k
        } else {
            self.subtree_end(i, k + 1)
        }
    }

    /// The row to go to from another, downwards: the next one, past everything
    /// the row itself holds shut.
    pub open spec fn next_of(self, i: int) -> Option<int> {
        let next = if self.shut(i) {
            self.subtree_end(i, i + 1)
        } else {
            i + 1
        };
        if next < self.len() {
            Some(next)
        } else {
            None
        }
    }

    /// The row to go to from another, upwards: the one before, or what stands in
    /// for it.
    pub open spec fn prev_of(self, i: int) -> Option<int> {
        if i <= 0 {
            None
        } else {
            Some(self.stand_in(i - 1, self.rows[i].depth))
        }
    }

    /// The last row there is to walk to.
    pub open spec fn last_of(self) -> int {
        self.stand_in(self.len() - 1, 0)
    }
}

/// The outermost hider is the first row that hides, and there is none only where
/// nothing hides.
pub proof fn lemma_hider_from(f: Frame, a: int, i: int, floor: nat)
    ensures
        match f.hider_from(a, i, floor) {
            Some(h) => a <= h < i && f.hides_above(h, i, floor) && forall|b: int|
                a <= b < h ==> !#[trigger] f.hides_above(b, i, floor),
            None => forall|b: int| a <= b < i ==> !#[trigger] f.hides_above(b, i, floor),
        },
    decreases i - a,
{
    if a < i && !f.hides_above(a, i, floor) {
        lemma_hider_from(f, a + 1, i, floor);
    }
}

/// The first row that hides another is what the outermost hider is.
pub proof fn lemma_hider_is(f: Frame, h: int, i: int, floor: nat)
    requires
        f.hides_above(h, i, floor),
        forall|b: int| 0 <= b < h ==> !#[trigger] f.hides_above(b, i, floor),
    ensures
        f.hider(i, floor) == Some(h),
{
    lemma_hider_from(f, 0, i, floor);
}

pub proof fn lemma_hider_none(f: Frame, i: int, floor: nat)
    requires
        forall|b: int| 0 <= b < i ==> !#[trigger] f.hides_above(b, i, floor),
    ensures
        f.hider(i, floor) is None,
{
    lemma_hider_from(f, 0, i, floor);
}

/// A row is in sight exactly when nothing stands in for it.
pub proof fn visible_iff_unhidden(f: Frame, i: int)
    requires
        0 <= i < f.len(),
    ensures
        f.visible(i) <==> f.hider(i, 0) is None,
{
    lemma_hider_from(f, 0, i, 0);
    if f.hider(i, 0) is None {
        assert forall|a: int| !#[trigger] f.hides(a, i) by {
            if f.hides(a, i) {
                assert(f.hides_above(a, i, 0)) by {
                    assert forall|k: int| a < k <= i implies (#[trigger] f.rows[k]).depth > 0 by {}
                }
            }
        }
    } else {
        assert(f.hides(f.hider(i, 0)->0, i));
    }
}

/// What stands in for a row is in sight.
pub proof fn stand_in_visible(f: Frame, i: int)
    requires
        0 <= i < f.len(),
    ensures
        0 <= f.stand_in(i, 0) <= i,
        f.visible(f.stand_in(i, 0)),
        f.visible(i) ==> f.stand_in(i, 0) == i,
{
    lemma_hider_from(f, 0, i, 0);
    visible_iff_unhidden(f, i);
    if let Some(h) = f.hider(i, 0) {
        assert forall|a: int| !#[trigger] f.hides(a, h) by {
            if f.hides(a, h) {
                assert(f.hides_above(a, i, 0)) by {
                    assert forall|k: int| a < k <= i implies (#[trigger] f.rows[k]).depth
                        > f.rows[a].depth by {
                        if k > h {
                            assert(f.rows[h].depth > f.rows[a].depth);
                        }
                    }
                }
            }
        }
    }
}

proof fn lemma_subtree_end(f: Frame, i: int, k: int)
    requires
        0 <= i < k <= f.len(),
    ensures
        k <= f.subtree_end(i, k) <= f.len(),
        forall|j: int|
            k <= j < f.subtree_end(i, k) ==> (#[trigger] f.rows[j]).depth > f.rows[i].depth,
        f.subtree_end(i, k) < f.len() ==> f.rows[f.subtree_end(i, k)].depth <= f.rows[i].depth,
    decreases f.len() - k,
{
    if k < f.len() && f.rows[k].depth > f.rows[i].depth {
        lemma_subtree_end(f, i, k + 1);
    }
}

/// Where a subtree ends is the first row no deeper than what it is under.
pub proof fn lemma_subtree_end_is(f: Frame, i: int, e: int)
    requires
        0 <= i < e <= f.len(),
        forall|j: int| i < j < e ==> (#[trigger] f.rows[j]).depth > f.rows[i].depth,
        e < f.len() ==> f.rows[e].depth <= f.rows[i].depth,
    ensures
        f.subtree_end(i, i + 1) == e,
{
    lemma_subtree_end(f, i, i + 1);
    let s = f.subtree_end(i, i + 1);
    if s < e {
        assert(f.rows[s].depth > f.rows[i].depth);
    } else if e < s {
        assert(f.rows[e].depth > f.rows[i].depth);
    }
}

/// Going down from a row in sight leads to the next row in sight, and nowhere
/// only from the last of them.
pub proof fn next_is_next_visible(f: Frame, i: int)
    requires
        0 <= i < f.len(),
        f.visible(i),
    ensures
        match f.next_of(i) {
            Some(j) => i < j < f.len() && f.visible(j) && forall|k: int|
                i < k < j ==> !#[trigger] f.visible(k),
            None => forall|k: int| i < k < f.len() ==> !#[trigger] f.visible(k),
        },
{
    lemma_subtree_end(f, i, i + 1);
    let next = if f.shut(i) {
        f.subtree_end(i, i + 1)
    } else {
        i + 1
    };
    assert forall|k: int| i < k < next && k < f.len() implies !#[trigger] f.visible(k) by {
        assert(f.hides(i, k));
    }
    if next < f.len() {
        assert forall|a: int| !#[trigger] f.hides(a, next) by {
            if f.hides(a, next) {
                if a < i {
                    assert(f.hides(a, i)) by {
                        assert forall|k: int| a < k <= i implies (#[trigger] f.rows[k]).depth
                            > f.rows[a].depth by {}
                    }
                } else if a == i {
                    assert(f.rows[next].depth > f.rows[i].depth);
                    assert(f.shut(i));
                } else {
                    // Between a shut row and the end of what it holds shut.
                    assert(f.rows[next].depth > f.rows[a].depth);
                    assert(f.rows[a].depth > f.rows[i].depth);
                }
            }
        }
    }
}

/// Going up from a row in sight leads to the last row in sight before it, and
/// nowhere only from the first row.
pub proof fn prev_is_prev_visible(f: Frame, i: int)
    requires
        0 <= i < f.len(),
        f.visible(i),
    ensures
        match f.prev_of(i) {
            Some(j) => 0 <= j < i && f.visible(j) && forall|k: int|
                j < k < i ==> !#[trigger] f.visible(k),
            None => i == 0,
        },
{
    if i > 0 {
        let prev = i - 1;
        let floor = f.rows[i].depth;
        lemma_hider_from(f, 0, prev, floor);
        lemma_hider_from(f, 0, prev, 0);
        stand_in_visible(f, prev);
        // What hides the row before cannot hide this one too, so it is no
        // shallower.
        if let Some(h) = f.hider(prev, 0) {
            assert(f.rows[i].depth <= f.rows[h].depth) by {
                if f.rows[i].depth > f.rows[h].depth {
                    assert(f.hides(h, i)) by {
                        assert forall|k: int| h < k <= i implies (#[trigger] f.rows[k]).depth
                            > f.rows[h].depth by {}
                    }
                }
            }
            assert(f.hides_above(h, prev, floor));
            assert forall|b: int| 0 <= b < h implies !#[trigger] f.hides_above(
                b,
                prev,
                floor,
            ) by {
                if f.hides_above(b, prev, floor) {
                    assert(f.hides_above(b, prev, 0));
                }
            }
            lemma_hider_is(f, h, prev, floor);
            assert forall|k: int| h < k < i implies !#[trigger] f.visible(k) by {
                assert(f.hides(h, k)) by {
                    assert forall|m: int| h < m <= k implies (#[trigger] f.rows[m]).depth
                        > f.rows[h].depth by {}
                }
            }
        } else {
            assert forall|b: int| 0 <= b < prev implies !#[trigger] f.hides_above(
                b,
                prev,
                floor,
            ) by {
                if f.hides_above(b, prev, floor) {
                    assert(f.hides_above(b, prev, 0));
                }
            }
            lemma_hider_none(f, prev, floor);
        }
    }
}

/// Walking up undoes walking down, from any row in sight.
pub proof fn up_undoes_down(f: Frame, i: int)
    requires
        0 <= i < f.len(),
        f.visible(i),
    ensures
        f.next_of(i) matches Some(j) ==> f.prev_of(j) == Some(i),
{
    next_is_next_visible(f, i);
    if let Some(j) = f.next_of(i) {
        prev_is_prev_visible(f, j);
        let back = f.prev_of(j)->0;
        if back < i {
            assert(!f.visible(i));
        } else if i < back {
            assert(!f.visible(back));
        }
    }
}

/// Walking down undoes walking up, from any row in sight.
pub proof fn down_undoes_up(f: Frame, i: int)
    requires
        0 <= i < f.len(),
        f.visible(i),
    ensures
        f.prev_of(i) matches Some(j) ==> f.next_of(j) == Some(i),
{
    prev_is_prev_visible(f, i);
    if let Some(j) = f.prev_of(i) {
        next_is_next_visible(f, j);
        if let Some(k) = f.next_of(j) {
            if k < i {
                assert(!f.visible(k));
            } else if i < k {
                assert(!f.visible(i));
            }
        } else {
            assert(!f.visible(i));
        }
    }
}

/// The walk up starts at the last row in sight.
pub proof fn last_is_last_visible(f: Frame)
    requires
        f.len() > 0,
    ensures
        0 <= f.last_of() < f.len(),
        f.visible(f.last_of()),
        forall|k: int| f.last_of() < k < f.len() ==> !#[trigger] f.visible(k),
{
    let last = f.len() - 1;
    stand_in_visible(f, last);
    lemma_hider_from(f, 0, last, 0);
    if let Some(h) = f.hider(last, 0) {
        assert forall|k: int| h < k < f.len() implies !#[trigger] f.visible(k) by {
            assert(f.hides(h, k)) by {
                assert forall|m: int| h < m <= k implies (#[trigger] f.rows[m]).depth
                    > f.rows[h].depth by {}
            }
        }
    }
}

/// The first row is always in sight.
pub proof fn first_visible(f: Frame)
    requires
        f.len() > 0,
    ensures
        f.visible(0),
{
}

// ---------------------------------------------------------------------------
// Walking
// ---------------------------------------------------------------------------

impl Frame {
    /// Whether a movement may stop at a row, in sight or not.
    pub open spec fn nav_ok(self, i: int, mode: NavMode) -> bool {
        let row = self.rows[i];
        match mode {
            NavMode::Normal => !row.unselectable && !row.sub_line,
            NavMode::Siblings { depth } => !row.unselectable && row.section && row.depth <= depth,
            NavMode::IncludeSubLines => !row.unselectable,
        }
    }

    /// Whether a movement may stop at a row.
    pub open spec fn selectable(self, i: int, mode: NavMode) -> bool {
        self.hider(i, 0) is None && self.nav_ok(i, mode)
    }

    /// Rows that can be selected, or only the hunks among them.
    pub open spec fn selectable_rows(self, hunks: bool) -> spec_fn(int) -> bool {
        |i: int| !self.rows[i].unselectable && (hunks ==> self.rows[i].hunk)
    }

    /// The first row a walk down from `i`, itself included, wants.
    pub open spec fn first_from(self, i: int, wanted: spec_fn(int) -> bool) -> Option<int>
        decreases self.len() - i,
    {
        if wanted(i) {
            Some(i)
        } else {
            match self.next_of(i) {
                Some(j) => if i < j {
                    self.first_from(j, wanted)
                } else {
                    None
                },
                None => None,
            }
        }
    }

    /// The first row a walk up from `i`, itself included, wants.
    pub open spec fn last_from(self, i: int, wanted: spec_fn(int) -> bool) -> Option<int>
        decreases i,
    {
        if wanted(i) {
            Some(i)
        } else {
            match self.prev_of(i) {
                Some(j) => if 0 <= j < i {
                    self.last_from(j, wanted)
                } else {
                    None
                },
                None => None,
            }
        }
    }

    /// Where moving down from a row leads.
    pub open spec fn found_next(self, i: int, mode: NavMode) -> int {
        match self.next_of(i) {
            Some(j) => match self.first_from(j, |k: int| self.nav_ok(k, mode)) {
                Some(k) => k,
                None => i,
            },
            None => i,
        }
    }

    /// Where moving up from a row leads.
    pub open spec fn found_previous(self, i: int, mode: NavMode) -> int {
        match self.prev_of(i) {
            Some(j) => match self.last_from(j, |k: int| self.nav_ok(k, mode)) {
                Some(k) => k,
                None => i,
            },
            None => i,
        }
    }

    /// The last row of the selection a row stands for: itself, or the end of the
    /// subtree it heads.
    pub open spec fn last_selected(self, cursor: int) -> int {
        self.stand_in(self.subtree_end(cursor, cursor + 1) - 1, self.rows[cursor].depth)
    }
}

pub proof fn lemma_next_bounds(f: Frame, i: int)
    requires
        0 <= i < f.len(),
    ensures
        f.next_of(i) matches Some(j) ==> i < j < f.len(),
        i < f.subtree_end(i, i + 1) <= f.len(),
{
    lemma_subtree_end(f, i, i + 1);
}

pub proof fn lemma_prev_bounds(f: Frame, i: int)
    requires
        0 <= i < f.len(),
    ensures
        f.prev_of(i) matches Some(j) ==> 0 <= j < i,
{
    if i > 0 {
        lemma_hider_from(f, 0, i - 1, f.rows[i].depth);
    }
}

/// A walk down from a row in sight finds the first row in sight that is wanted.
pub proof fn first_from_is_first(f: Frame, i: int, wanted: spec_fn(int) -> bool)
    requires
        0 <= i < f.len(),
        f.visible(i),
    ensures
        match f.first_from(i, wanted) {
            Some(j) => i <= j < f.len() && f.visible(j) && wanted(j) && forall|k: int|
                i <= k < j && #[trigger] f.visible(k) ==> !wanted(k),
            None => forall|k: int| i <= k < f.len() && #[trigger] f.visible(k) ==> !wanted(k),
        },
    decreases f.len() - i,
{
    next_is_next_visible(f, i);
    lemma_next_bounds(f, i);
    if !wanted(i) {
        if let Some(j) = f.next_of(i) {
            first_from_is_first(f, j, wanted);
        }
    }
}

/// A walk up from a row in sight finds the last row in sight that is wanted.
pub proof fn last_from_is_last(f: Frame, i: int, wanted: spec_fn(int) -> bool)
    requires
        0 <= i < f.len(),
        f.visible(i),
    ensures
        match f.last_from(i, wanted) {
            Some(j) => 0 <= j <= i && f.visible(j) && wanted(j) && forall|k: int|
                j < k <= i && #[trigger] f.visible(k) ==> !wanted(k),
            None => forall|k: int| 0 <= k <= i && #[trigger] f.visible(k) ==> !wanted(k),
        },
    decreases i,
{
    prev_is_prev_visible(f, i);
    if !wanted(i) {
        if let Some(j) = f.prev_of(i) {
            last_from_is_last(f, j, wanted);
        }
    }
}

/// Moving down from a row in sight stops at the next row in sight that may be
/// stopped at, or not at all.
pub proof fn found_next_is_nearest(f: Frame, i: int, mode: NavMode)
    requires
        0 <= i < f.len(),
        f.visible(i),
    ensures
        ({
            let j = f.found_next(i, mode);
            &&& i <= j < f.len()
            &&& f.visible(j)
            &&& j > i ==> f.nav_ok(j, mode)
            &&& forall|k: int|
                i < k < (if j > i {
                    j
                } else {
                    f.len()
                }) && #[trigger] f.visible(k) ==> !f.nav_ok(k, mode)
        }),
{
    next_is_next_visible(f, i);
    if let Some(j) = f.next_of(i) {
        first_from_is_first(f, j, |k: int| f.nav_ok(k, mode));
    }
}

/// Moving up from a row in sight stops at the nearest row in sight above that
/// may be stopped at, or not at all.
pub proof fn found_previous_is_nearest(f: Frame, i: int, mode: NavMode)
    requires
        0 <= i < f.len(),
        f.visible(i),
    ensures
        ({
            let j = f.found_previous(i, mode);
            &&& 0 <= j <= i
            &&& f.visible(j)
            &&& j < i ==> f.nav_ok(j, mode)
            &&& forall|k: int|
                (if j < i {
                    j
                } else {
                    -1
                }) < k < i && #[trigger] f.visible(k) ==> !f.nav_ok(k, mode)
        }),
{
    prev_is_prev_visible(f, i);
    if let Some(j) = f.prev_of(i) {
        last_from_is_last(f, j, |k: int| f.nav_ok(k, mode));
    }
}

// ---------------------------------------------------------------------------
// Scrolling
// ---------------------------------------------------------------------------

/// How many lines the content goes on below the viewport's last.
pub const BOTTOM_CONTEXT_LINES: usize = 2;

/// `a` less `b`, but no less than nothing.
pub open spec fn less(a: int, b: int) -> int {
    if a < b {
        0
    } else {
        a - b
    }
}

pub open spec fn min_of(a: int, b: int) -> int {
    if a < b {
        a
    } else {
        b
    }
}

/// The top of the viewport: an item, and how many of its lines are above.
pub struct Top {
    pub item: int,
    pub offset: int,
}

/// Whether one top is above another.
pub open spec fn above(a: Top, b: Top) -> bool {
    a.item < b.item || (a.item == b.item && a.offset < b.offset)
}

impl Frame {
    /// A top that is at the start of a row, taken some lines up.
    pub open spec fn retreated_from(self, item: int, lines: int) -> Top
        decreases item,
    {
        if lines <= 0 {
            Top { item, offset: 0 }
        } else {
            match self.prev_of(item) {
                None => Top { item, offset: 0 },
                Some(prev) => {
                    let height = self.rows[prev].height as int;
                    if lines <= height {
                        Top { item: prev, offset: height - lines }
                    } else if 0 <= prev < item {
                        self.retreated_from(prev, lines - height)
                    } else {
                        Top { item: prev, offset: 0 }
                    }
                },
            }
        }
    }

    /// A top taken some lines up the content, coming to rest at the top of it.
    pub open spec fn retreated(self, top: Top, lines: int) -> Top {
        if lines <= top.offset {
            Top { item: top.item, offset: top.offset - lines }
        } else {
            self.retreated_from(top.item, lines - top.offset)
        }
    }

    /// A top taken some lines down the content, coming to rest on the last line.
    pub open spec fn advanced(self, top: Top, lines: int) -> Top
        decreases self.len() - top.item,
    {
        let height = self.rows[top.item].height as int;
        let left = less(height, top.offset);
        if lines <= 0 {
            top
        } else if lines < left {
            Top { item: top.item, offset: top.offset + lines }
        } else {
            match self.next_of(top.item) {
                None => Top { item: top.item, offset: less(height, 1) },
                Some(next) => if top.item < next {
                    self.advanced(Top { item: next, offset: 0 }, lines - left)
                } else {
                    top
                },
            }
        }
    }

    /// Lines counted so far and those of the rows below, until there are enough.
    pub open spec fn counted_below(self, item: int, lines: int, limit: int) -> int
        decreases self.len() - item,
    {
        if lines >= limit {
            lines
        } else {
            match self.next_of(item) {
                None => lines,
                Some(next) => if item < next {
                    self.counted_below(next, lines + self.rows[next].height, limit)
                } else {
                    lines
                },
            }
        }
    }

    /// Lines of content from a top down, counting no further than it takes.
    pub open spec fn lines_below(self, top: Top, limit: int) -> int {
        self.counted_below(
            top.item,
            less(self.rows[top.item].height as int, top.offset),
            limit,
        )
    }

    /// Lines counted so far and those of the rows above, until there are enough.
    pub open spec fn counted_above(self, item: int, lines: int, limit: int) -> int
        decreases item,
    {
        if lines >= limit {
            lines
        } else {
            match self.prev_of(item) {
                None => lines,
                Some(prev) => if 0 <= prev < item {
                    self.counted_above(prev, lines + self.rows[prev].height, limit)
                } else {
                    lines
                },
            }
        }
    }

    /// Lines of content above a top, counting no further than `limit`.
    pub open spec fn lines_above(self, top: Top, limit: int) -> int {
        min_of(self.counted_above(top.item, top.offset, limit), limit)
    }

    /// A top pulled back up if it is further down than the content allows.
    pub open spec fn clamped(self, top: Top) -> Top {
        let wanted = less(self.lines as int, BOTTOM_CONTEXT_LINES as int);
        let below = self.lines_below(top, wanted);
        if below >= wanted {
            top
        } else {
            let over = wanted - below;
            let above = self.lines_above(top, over + BOTTOM_CONTEXT_LINES);
            self.retreated(top, min_of(over, less(above, BOTTOM_CONTEXT_LINES as int)))
        }
    }

    /// A top put back on a row that exists and is in sight.
    pub open spec fn anchored(self, top: Top) -> Top {
        let item = min_of(top.item, self.len() - 1);
        match self.hider(item, 0) {
            Some(section) => Top { item: section, offset: 0 },
            None => Top { item, offset: top.offset },
        }
    }

    /// The highest top with a row on screen and as many lines above it as it is
    /// deep, so that the headers it sits under stay in view.
    pub open spec fn top_for_start(self, cursor: int) -> Top {
        self.retreated(Top { item: cursor, offset: 0 }, self.rows[cursor].depth as int)
    }

    /// The lowest top with the end of a selection on screen, and a little of what
    /// follows it.
    pub open spec fn top_for_end(self, cursor: int) -> Top {
        let last = self.last_selected(cursor);
        self.retreated(
            Top { item: last, offset: less(self.rows[last].height as int, 1) },
            less(self.lines as int, BOTTOM_CONTEXT_LINES + 1),
        )
    }

    /// The top that draws a row halfway down the screen, or as near to it as the
    /// content above reaches.
    pub open spec fn centered(self, cursor: int) -> Top {
        self.clamped(
            self.retreated(Top { item: cursor, offset: 0 }, (self.lines / 2) as int),
        )
    }

    /// The rows drawn from one on, each with the line of the viewport it is drawn
    /// at.
    pub open spec fn drawn_from(self, item: int, at: int) -> Seq<(int, int)>
        decreases self.len() - item,
    {
        let height = self.rows[item].height;
        if at + height <= self.lines {
            seq![(item, at)] + match self.next_of(item) {
                Some(next) => if item < next {
                    self.drawn_from(next, at + height)
                } else {
                    seq![]
                },
                None => seq![],
            }
        } else {
            seq![]
        }
    }

    /// The rows drawn, each with the line of the viewport it is drawn at.
    pub open spec fn drawn(self, top: Top) -> Seq<(int, int)> {
        self.drawn_from(top.item, 0)
    }

    /// The row drawn at a line of the viewport, if the content reaches it.
    pub open spec fn row_at(self, top: Top, line: int) -> Option<int> {
        let upto = leading(self.drawn(top), line);
        if upto.len() > 0 && line < upto.last().1 + self.rows[upto.last().0].height {
            Some(upto.last().0)
        } else {
            None
        }
    }
}

/// The drawn rows that start at a line or before it.
pub open spec fn leading(drawn: Seq<(int, int)>, line: int) -> Seq<(int, int)>
    decreases drawn.len(),
{
    if drawn.len() == 0 || drawn[0].1 > line {
        seq![]
    } else {
        seq![drawn[0]] + leading(drawn.drop_first(), line)
    }
}

/// The line of the viewport a row is drawn at, if it is.
pub open spec fn line_of(drawn: Seq<(int, int)>, item: int) -> Option<int>
    decreases drawn.len(),
{
    if drawn.len() == 0 {
        None
    } else if drawn[0].0 == item {
        Some(drawn[0].1)
    } else {
        line_of(drawn.drop_first(), item)
    }
}

pub proof fn lemma_stand_in_bounds(f: Frame, i: int, floor: nat)
    requires
        0 <= i < f.len(),
    ensures
        0 <= f.stand_in(i, floor) <= i,
{
    lemma_hider_from(f, 0, i, floor);
}

pub proof fn lemma_last_selected_bounds(f: Frame, cursor: int)
    requires
        0 <= cursor < f.len(),
    ensures
        0 <= f.last_selected(cursor) < f.len(),
{
    lemma_next_bounds(f, cursor);
    lemma_stand_in_bounds(f, f.subtree_end(cursor, cursor + 1) - 1, f.rows[cursor].depth);
}

pub proof fn lemma_retreated_bounds(f: Frame, top: Top, lines: int)
    requires
        0 <= top.item < f.len(),
        0 <= lines,
        0 <= top.offset,
    ensures
        0 <= f.retreated(top, lines).item <= top.item,
        0 <= f.retreated(top, lines).offset,
{
    if lines > top.offset {
        lemma_retreated_from_bounds(f, top.item, lines - top.offset);
    }
}

proof fn lemma_retreated_from_bounds(f: Frame, item: int, lines: int)
    requires
        0 <= item < f.len(),
    ensures
        0 <= f.retreated_from(item, lines).item <= item,
        0 <= f.retreated_from(item, lines).offset,
    decreases item,
{
    lemma_prev_bounds(f, item);
    if lines > 0 {
        if let Some(prev) = f.prev_of(item) {
            if lines > f.rows[prev].height {
                lemma_retreated_from_bounds(f, prev, lines - f.rows[prev].height);
            }
        }
    }
}

// ---------------------------------------------------------------------------
// Lines of content
// ---------------------------------------------------------------------------

impl Frame {
    /// How many lines the rows in sight before a row take up.
    pub open spec fn lines_before(self, i: int) -> int
        decreases i,
    {
        if i <= 0 {
            0
        } else {
            self.lines_before(i - 1) + if self.visible(i - 1) {
                self.rows[i - 1].height as int
            } else {
                0
            }
        }
    }

    /// Which line of the content a top is at.
    pub open spec fn line_at(self, top: Top) -> int {
        self.lines_before(top.item) + top.offset
    }
}

proof fn lemma_lines_before_hidden(f: Frame, i: int, j: int)
    requires
        0 <= i <= j,
        forall|k: int| i <= k < j ==> !#[trigger] f.visible(k),
    ensures
        f.lines_before(j) == f.lines_before(i),
    decreases j - i,
{
    if i < j {
        lemma_lines_before_hidden(f, i, j - 1);
        assert(!f.visible(j - 1));
    }
}

proof fn lemma_lines_before_nonneg(f: Frame, i: int)
    ensures
        0 <= f.lines_before(i),
    decreases i,
{
    if i > 0 {
        lemma_lines_before_nonneg(f, i - 1);
    }
}

proof fn lemma_lines_step_up(f: Frame, i: int)
    requires
        0 <= i < f.len(),
        f.visible(i),
    ensures
        f.prev_of(i) matches Some(p) ==> f.lines_before(i) == f.lines_before(p) + f.rows[p].height,
        f.prev_of(i) is None ==> f.lines_before(i) == 0,
{
    prev_is_prev_visible(f, i);
    if let Some(p) = f.prev_of(i) {
        lemma_lines_before_hidden(f, p + 1, i);
    }
}

pub proof fn lemma_lines_step_down(f: Frame, i: int)
    requires
        0 <= i < f.len(),
        f.visible(i),
    ensures
        f.next_of(i) matches Some(n) ==> f.lines_before(n) == f.lines_before(i) + f.rows[i].height,
        f.next_of(i) is None ==> f.lines_before(f.len()) == f.lines_before(i) + f.rows[i].height,
{
    next_is_next_visible(f, i);
    match f.next_of(i) {
        Some(n) => lemma_lines_before_hidden(f, i + 1, n),
        None => lemma_lines_before_hidden(f, i + 1, f.len()),
    }
}

proof fn lemma_retreated_from(f: Frame, item: int, lines: int)
    requires
        0 <= item < f.len(),
        f.visible(item),
        0 <= lines,
    ensures
        f.visible(f.retreated_from(item, lines).item),
        f.line_at(f.retreated_from(item, lines)) == less(f.lines_before(item), lines),
    decreases item,
{
    lemma_lines_step_up(f, item);
    lemma_lines_before_nonneg(f, item);
    prev_is_prev_visible(f, item);
    if lines > 0 {
        if let Some(prev) = f.prev_of(item) {
            lemma_lines_before_nonneg(f, prev);
            if lines > f.rows[prev].height {
                lemma_retreated_from(f, prev, lines - f.rows[prev].height);
            }
        }
    }
}

/// The rows in sight from one on take up no fewer lines than that row.
pub proof fn lemma_lines_grow(f: Frame, i: int, j: int)
    requires
        0 <= i <= j,
    ensures
        f.lines_before(i) <= f.lines_before(j),
        i < j && f.visible(i) ==> f.lines_before(i) + f.rows[i].height <= f.lines_before(j),
    decreases j - i,
{
    if i < j {
        lemma_lines_grow(f, i, j - 1);
    }
}

/// Taken up from within a row, a top stays within the row it gets to.
pub proof fn lemma_retreated_within(f: Frame, top: Top, lines: int)
    requires
        0 <= top.item < f.len(),
        0 <= top.offset <= f.rows[top.item].height,
        0 <= lines,
    ensures
        f.retreated(top, lines).offset <= f.rows[f.retreated(top, lines).item].height,
{
    if lines > top.offset {
        lemma_retreated_from_within(f, top.item, lines - top.offset);
    }
}

proof fn lemma_retreated_from_within(f: Frame, item: int, lines: int)
    requires
        0 <= item < f.len(),
        0 <= lines,
    ensures
        f.retreated_from(item, lines).offset <= f.rows[f.retreated_from(item, lines).item].height,
    decreases item,
{
    lemma_prev_bounds(f, item);
    if lines > 0 {
        if let Some(prev) = f.prev_of(item) {
            if lines > f.rows[prev].height {
                lemma_retreated_from_within(f, prev, lines - f.rows[prev].height);
            }
        }
    }
}

/// Of two tops that start within rows in sight, the one that isn't above the other
/// is no fewer lines down the content.
pub proof fn lemma_order_counts_lines(f: Frame, a: Top, b: Top)
    requires
        0 <= a.item < f.len(),
        0 <= b.item < f.len(),
        f.visible(a.item),
        a.offset <= f.rows[a.item].height,
        0 <= b.offset,
        !above(b, a),
    ensures
        f.line_at(a) <= f.line_at(b),
{
    lemma_lines_grow(f, a.item, b.item);
}

/// The last row of a selection is in sight where the row it is of is, and no
/// further up.
pub proof fn last_selected_visible(f: Frame, cursor: int)
    requires
        0 <= cursor < f.len(),
        f.visible(cursor),
    ensures
        cursor <= f.last_selected(cursor) < f.len(),
        f.visible(f.last_selected(cursor)),
{
    lemma_subtree_end(f, cursor, cursor + 1);
    let last = f.subtree_end(cursor, cursor + 1) - 1;
    let floor = f.rows[cursor].depth;
    lemma_hider_from(f, 0, last, floor);
    // Nothing outside the selection hides any of it.
    assert forall|a: int, i: int| cursor <= i <= last && #[trigger] f.hides(a, i) implies a
        >= cursor by {
        if a < cursor {
            assert(f.hides(a, cursor)) by {
                assert forall|k: int| a < k <= cursor implies (#[trigger] f.rows[k]).depth
                    > f.rows[a].depth by {}
            }
        }
    }
    // And what hides the last row of it from within is looked at.
    assert forall|a: int| cursor <= a && #[trigger] f.hides(a, last) implies f.hides_above(
        a,
        last,
        floor,
    ) by {
        assert forall|k: int| a < k <= last implies (#[trigger] f.rows[k]).depth > floor by {}
    }
    match f.hider(last, floor) {
        Some(h) => {
            assert(h >= cursor) by {
                if h < cursor {
                    assert(f.rows[cursor].depth > floor);
                }
            }
            assert forall|a: int| !#[trigger] f.hides(a, h) by {
                if f.hides(a, h) {
                    if h == cursor {
                        assert(f.visible(cursor));
                    } else {
                        assert(a >= cursor);
                        assert(f.hides(a, last)) by {
                            assert forall|k: int| a < k <= last implies (
                            #[trigger] f.rows[k]).depth > f.rows[a].depth by {
                                if k > h {
                                    assert(f.rows[h].depth > f.rows[a].depth);
                                }
                            }
                        }
                        assert(f.hides_above(a, last, floor));
                    }
                }
            }
        },
        None => {
            assert forall|a: int| !#[trigger] f.hides(a, last) by {
                if f.hides(a, last) {
                    assert(f.hides_above(a, last, floor));
                }
            }
        },
    }
}

/// A row in sight below the top of the viewport is drawn as many lines down as the
/// rows in between take up, where there is room for it.
pub proof fn drawn_below(f: Frame, item: int, at: int, i: int)
    requires
        0 <= item <= i < f.len(),
        f.visible(item),
        f.visible(i),
        at + f.lines_before(i) - f.lines_before(item) + f.rows[i].height <= f.lines,
    ensures
        line_of(f.drawn_from(item, at), i) == Some(at + f.lines_before(i) - f.lines_before(item)),
    decreases i - item,
{
    let drawn = f.drawn_from(item, at);
    lemma_lines_grow(f, item, i);
    if item < i {
        next_is_next_visible(f, item);
        lemma_lines_step_down(f, item);
        let next = f.next_of(item)->0;
        drawn_below(f, next, at + f.rows[item].height, i);
        assert(drawn.drop_first() =~= f.drawn_from(next, at + f.rows[item].height));
    }
    assert(drawn[0] == (item, at));
}

/// Scrolling up by some lines goes up that many lines of content, or to the top
/// of it, and the viewport starts on a row in sight.
pub proof fn scrolling_up_counts_lines(f: Frame, top: Top, lines: int)
    requires
        0 <= top.item < f.len(),
        f.visible(top.item),
        0 <= top.offset,
        0 <= lines,
    ensures
        f.visible(f.retreated(top, lines).item),
        f.line_at(f.retreated(top, lines)) == less(f.line_at(top), lines),
{
    lemma_lines_before_nonneg(f, top.item);
    if lines > top.offset {
        lemma_retreated_from(f, top.item, lines - top.offset);
    }
}

/// Scrolling down by some lines goes down that many lines of content, or as far
/// as its last line, and the viewport starts on a row in sight.
pub proof fn scrolling_down_counts_lines(f: Frame, top: Top, lines: int)
    requires
        0 <= top.item < f.len(),
        f.visible(top.item),
        0 <= top.offset <= f.rows[top.item].height,
        0 <= lines,
    ensures
        ({
            let down = f.advanced(top, lines);
            &&& 0 <= down.item < f.len()
            &&& f.visible(down.item)
            &&& 0 <= down.offset <= f.rows[down.item].height
            &&& f.line_at(down) == f.line_at(top) + lines || (f.next_of(down.item) is None
                && down.offset == less(f.rows[down.item].height as int, 1) && f.line_at(top) + lines
                >= f.lines_before(f.len()))
        }),
    decreases f.len() - top.item,
{
    let height = f.rows[top.item].height as int;
    let left = less(height, top.offset);
    lemma_lines_step_down(f, top.item);
    next_is_next_visible(f, top.item);
    if lines > 0 && lines >= left {
        if let Some(next) = f.next_of(top.item) {
            scrolling_down_counts_lines(f, Top { item: next, offset: 0 }, lines - left);
        }
    }
}

/// Counting the lines of the rows below a row comes to all of them, or to enough.
pub proof fn lemma_counted_below(f: Frame, item: int, lines: int, limit: int)
    requires
        0 <= item < f.len(),
        f.visible(item),
    ensures
        ({
            let all = lines + f.lines_before(f.len()) - f.lines_before(item) - f.rows[item].height;
            let counted = f.counted_below(item, lines, limit);
            counted <= all && (counted < limit ==> counted == all)
        }),
    decreases f.len() - item,
{
    lemma_lines_step_down(f, item);
    next_is_next_visible(f, item);
    lemma_lines_grow(f, item, f.len());
    if lines < limit {
        if let Some(next) = f.next_of(item) {
            lemma_counted_below(f, next, lines + f.rows[next].height, limit);
        }
    }
}

/// Counting the lines of the rows above a row comes to all of them, or to enough.
pub proof fn lemma_counted_above(f: Frame, item: int, lines: int, limit: int)
    requires
        0 <= item < f.len(),
        f.visible(item),
    ensures
        ({
            let all = lines + f.lines_before(item);
            let counted = f.counted_above(item, lines, limit);
            counted <= all && (counted < limit ==> counted == all)
        }),
    decreases item,
{
    lemma_lines_step_up(f, item);
    prev_is_prev_visible(f, item);
    lemma_lines_before_nonneg(f, item);
    if lines < limit {
        if let Some(prev) = f.prev_of(item) {
            lemma_counted_above(f, prev, lines + f.rows[prev].height, limit);
        }
    }
}

/// Where clamping leaves a viewport: no further down than to have content for all of
/// its lines but a few, and no further up than it takes.
pub proof fn lemma_clamped_line(f: Frame, top: Top)
    requires
        0 <= top.item < f.len(),
        f.visible(top.item),
        0 <= top.offset <= f.rows[top.item].height,
    ensures
        0 <= f.clamped(top).item < f.len(),
        0 <= f.clamped(top).offset,
        f.visible(f.clamped(top).item),
        ({
            let wanted = less(f.lines as int, BOTTOM_CONTEXT_LINES as int);
            let over = less(wanted, f.lines_before(f.len()) - f.line_at(top));
            f.line_at(f.clamped(top)) == f.line_at(top) - min_of(
                over,
                less(f.line_at(top), BOTTOM_CONTEXT_LINES as int),
            )
        }),
{
    let wanted = less(f.lines as int, BOTTOM_CONTEXT_LINES as int);
    let height = f.rows[top.item].height as int;
    lemma_counted_below(f, top.item, less(height, top.offset), wanted);
    lemma_lines_before_nonneg(f, top.item);
    let below = f.lines_below(top, wanted);
    if below < wanted {
        let over = wanted - below;
        lemma_counted_above(f, top.item, top.offset, over + BOTTOM_CONTEXT_LINES);
        let lines = min_of(
            over,
            less(f.lines_above(top, over + BOTTOM_CONTEXT_LINES), BOTTOM_CONTEXT_LINES as int),
        );
        lemma_retreated_bounds(f, top, lines);
        scrolling_up_counts_lines(f, top, lines);
    }
}

/// A viewport that was clamped is filled, but for a little below the end of the
/// content: as long as there is more than that above it, there is content for the
/// rest of its lines below its top.
pub proof fn clamped_view_is_filled(f: Frame, top: Top)
    requires
        0 <= top.item < f.len(),
        f.visible(top.item),
        0 <= top.offset <= f.rows[top.item].height,
    ensures
        f.lines_before(f.len()) - f.line_at(f.clamped(top)) >= less(
            f.lines as int,
            BOTTOM_CONTEXT_LINES as int,
        ) || f.line_at(f.clamped(top)) <= BOTTOM_CONTEXT_LINES,
        f.line_at(f.clamped(top)) <= f.line_at(top),
{
    lemma_clamped_line(f, top);
}

/// Whether a top is within the row it starts at.
pub open spec fn within(f: Frame, top: Top) -> bool {
    &&& 0 <= top.item < f.len()
    &&& f.visible(top.item)
    &&& 0 <= top.offset < f.rows[top.item].height
}

/// Where every row takes up a line, tops at the same line of the content are the
/// same.
pub proof fn lemma_line_tells_top(f: Frame, a: Top, b: Top)
    requires
        within(f, a),
        within(f, b),
        f.line_at(a) == f.line_at(b),
    ensures
        a == b,
{
    if a.item < b.item {
        lemma_lines_grow(f, a.item, b.item);
    } else if b.item < a.item {
        lemma_lines_grow(f, b.item, a.item);
    }
}

pub proof fn lemma_advanced_within(f: Frame, top: Top, lines: int)
    requires
        within(f, top),
        forall|i: int| 0 <= i < f.len() ==> (#[trigger] f.rows[i]).height > 0,
    ensures
        within(f, f.advanced(top, lines)),
    decreases f.len() - top.item,
{
    let left = less(f.rows[top.item].height as int, top.offset);
    next_is_next_visible(f, top.item);
    if lines > 0 && lines >= left {
        if let Some(next) = f.next_of(top.item) {
            assert(f.rows[next].height > 0);
            lemma_advanced_within(f, Top { item: next, offset: 0 }, lines - left);
        }
    }
}

pub proof fn lemma_retreated_stays_within(f: Frame, top: Top, lines: int)
    requires
        within(f, top),
        forall|i: int| 0 <= i < f.len() ==> (#[trigger] f.rows[i]).height > 0,
        0 <= lines,
    ensures
        within(f, f.retreated(top, lines)),
{
    if lines > top.offset {
        lemma_retreated_from_stays_within(f, top.item, lines - top.offset);
    }
}

proof fn lemma_retreated_from_stays_within(f: Frame, item: int, lines: int)
    requires
        0 <= item < f.len(),
        f.visible(item),
        forall|i: int| 0 <= i < f.len() ==> (#[trigger] f.rows[i]).height > 0,
    ensures
        within(f, f.retreated_from(item, lines)),
    decreases item,
{
    assert(f.rows[item].height > 0);
    prev_is_prev_visible(f, item);
    if lines > 0 {
        if let Some(prev) = f.prev_of(item) {
            assert(f.rows[prev].height > 0);
            if lines > f.rows[prev].height {
                lemma_retreated_from_stays_within(f, prev, lines - f.rows[prev].height);
            }
        }
    }
}

/// Scrolling up by as many lines as were scrolled down arrives at the line it
/// started from, unless the content ran out on the way.
pub proof fn scrolling_back_returns(f: Frame, top: Top, lines: int)
    requires
        0 <= top.item < f.len(),
        f.visible(top.item),
        0 <= top.offset <= f.rows[top.item].height,
        0 <= lines,
        f.line_at(top) + lines < f.lines_before(f.len()),
    ensures
        f.line_at(f.retreated(f.advanced(top, lines), lines)) == f.line_at(top),
{
    scrolling_down_counts_lines(f, top, lines);
    let down = f.advanced(top, lines);
    lemma_lines_before_nonneg(f, top.item);
    lemma_lines_step_down(f, down.item);
    scrolling_up_counts_lines(f, down, lines);
}

} // verus!
