//! Styled byte ranges: filling the gaps between them, laying two lists of them
//! over each other, and cutting out what falls on one line.

use crate::style;
use crate::style::Style;
use std::ops::Range;
use vstd::prelude::*;

verus! {

/// A byte range and how to draw it.
pub type Span = (Range<usize>, Style);

/// Whether a span holds an offset.
pub open spec fn holds(span: Span, p: int) -> bool {
    span.0.start <= p < span.0.end
}

/// Whether spans follow each other without overlap, each holding something.
pub open spec fn in_order(spans: Seq<Span>) -> bool {
    &&& forall|i: int| 0 <= i < spans.len() ==> (#[trigger] spans[i]).0.start < spans[i].0.end
    &&& forall|i: int, j: int|
        0 <= i < j < spans.len() ==> (#[trigger] spans[i]).0.end <= (#[trigger] spans[j]).0.start
}

/// Whether each span starts where the one before it ends.
pub open spec fn gapless(spans: Seq<Span>) -> bool {
    forall|i: int, j: int|
        0 <= i && j == i + 1 && j < spans.len() ==> (#[trigger] spans[i]).0.end
            == (#[trigger] spans[j]).0.start
}

/// Whether spans cover a range exactly, from one end to the other.
pub open spec fn tiles(spans: Seq<Span>, lo: int, hi: int) -> bool {
    &&& in_order(spans)
    &&& gapless(spans)
    &&& lo < hi ==> spans.len() > 0
    &&& spans.len() == 0 ==> lo == hi
    &&& spans.len() > 0 ==> spans[0].0.start == lo && spans.last().0.end == hi
}

/// A tiling has a span for every offset it tiles.
pub proof fn lemma_tiles_hold(spans: Seq<Span>, lo: int, hi: int, p: int) -> (i: int)
    requires
        tiles(spans, lo, hi),
        lo <= p < hi,
    ensures
        0 <= i < spans.len(),
        holds(spans[i], p),
    decreases spans.len(),
{
    let n = spans.len() - 1;
    if spans[n].0.start <= p {
        n
    } else {
        let front = spans.drop_last();
        assert(n > 0);
        assert(spans[n - 1].0.end == spans[n].0.start);
        assert(tiles(front, lo, spans[n].0.start as int));
        lemma_tiles_hold(front, lo, spans[n].0.start as int, p)
    }
}

/// The spans of a tiling lie in what it tiles.
pub proof fn lemma_tiles_within(spans: Seq<Span>, lo: int, hi: int, i: int)
    requires
        tiles(spans, lo, hi),
        0 <= i < spans.len(),
    ensures
        lo <= spans[i].0.start < spans[i].0.end <= hi,
{
    let n = spans.len() - 1;
    if i > 0 {
        assert(spans[0].0.start < spans[0].0.end);
        assert(spans[0].0.end <= spans[i].0.start);
    }
    if i < n {
        assert(spans[n].0.start < spans[n].0.end);
        assert(spans[i].0.end <= spans[n].0.start);
    }
}

/// A list of spans read front to back.
pub struct SpanCursor {
    pub spans: Vec<Span>,
    pub at: usize,
}

impl SpanCursor {
    pub open spec fn wf(&self) -> bool {
        self.at <= self.spans@.len()
    }

    /// What is still to be read.
    pub open spec fn rest(&self) -> Seq<Span> {
        self.spans@.skip(self.at as int)
    }

    pub fn new(spans: Vec<Span>) -> (cursor: SpanCursor)
        ensures
            cursor.wf(),
            cursor.spans == spans,
            cursor.at == 0,
            cursor.rest() == spans@,
    {
        let cursor = SpanCursor { spans, at: 0 };
        assert(cursor.spans@.skip(0) =~= cursor.spans@);
        cursor
    }

    /// The next span, left where it is.
    pub fn peek(&self) -> (span: Option<Span>)
        requires
            self.wf(),
        ensures
            span == (if self.rest().len() > 0 {
                Some(self.rest()[0])
            } else {
                None
            }),
    {
        if self.at < self.spans.len() {
            let span = &self.spans[self.at];
            Some((span.0.start..span.0.end, span.1))
        } else {
            None
        }
    }

    /// The next span, moving past it.
    pub fn next(&mut self) -> (span: Option<Span>)
        requires
            old(self).wf(),
        ensures
            final(self).wf(),
            final(self).spans == old(self).spans,
            old(self).rest().len() > 0 ==> span == Some(old(self).rest()[0]) && final(self).rest()
                == old(self).rest().drop_first() && final(self).at == old(self).at + 1,
            old(self).rest().len() == 0 ==> span is None && final(self).rest() == old(self).rest(),
    {
        let span = self.peek();
        if self.at < self.spans.len() {
            self.at += 1;
        }
        proof {
            if old(self).rest().len() > 0 {
                assert(self.rest() =~= old(self).rest().drop_first());
            }
        }
        span
    }
}

// ---------------------------------------------------------------------------
// Filling gaps
// ---------------------------------------------------------------------------

/// The span from `start` to `end`, if there is anything in it.
pub open spec fn stretch(start: int, end: int, style: Style) -> Seq<Span> {
    if start < end {
        seq![(Range { start: start as usize, end: end as usize }, style)]
    } else {
        seq![]
    }
}

/// Where some ranges leave off, having begun at `lo`.
pub open spec fn reach(lo: int, ranges: Seq<Span>) -> int {
    if ranges.len() == 0 {
        lo
    } else {
        ranges.last().0.end as int
    }
}

/// The ranges, each with what lies between it and the one before it.
pub open spec fn filled(lo: int, ranges: Seq<Span>, fill: Style) -> Seq<Span>
    decreases ranges.len(),
{
    if ranges.len() == 0 {
        seq![]
    } else {
        let (range, style) = ranges.last();
        filled(lo, ranges.drop_last(), fill) + stretch(
            reach(lo, ranges.drop_last()),
            range.start as int,
            fill,
        ) + stretch(range.start as int, range.end as int, style)
    }
}

/// The ranges with every gap between `lo` and `hi` filled. Empty ranges fall out.
pub open spec fn gaps_filled(lo: int, hi: int, ranges: Seq<Span>, fill: Style) -> Seq<Span> {
    filled(lo, ranges, fill) + stretch(reach(lo, ranges), hi, fill)
}

/// What gaps were filled with is `fill`: every other span is one of the ranges.
pub proof fn fill_gaps_keeps_ranges(lo: int, hi: int, ranges: Seq<Span>, fill: Style)
    ensures
        forall|i: int|
            0 <= i < gaps_filled(lo, hi, ranges, fill).len() ==> (#[trigger] gaps_filled(
                lo,
                hi,
                ranges,
                fill,
            )[i]).1 == fill || ranges.contains(gaps_filled(lo, hi, ranges, fill)[i]),
{
    lemma_filled_keeps(lo, ranges, fill);
}

proof fn lemma_filled_keeps(lo: int, ranges: Seq<Span>, fill: Style)
    ensures
        forall|i: int|
            0 <= i < filled(lo, ranges, fill).len() ==> (#[trigger] filled(lo, ranges, fill)[i]).1
                == fill || ranges.contains(filled(lo, ranges, fill)[i]),
    decreases ranges.len(),
{
    if ranges.len() > 0 {
        let front = ranges.drop_last();
        lemma_filled_keeps(lo, front, fill);
        let all = filled(lo, ranges, fill);
        let known = filled(lo, front, fill);
        assert(ranges[ranges.len() - 1] == ranges.last());
        assert forall|i: int| 0 <= i < all.len() implies (#[trigger] all[i]).1 == fill
            || ranges.contains(all[i]) by {
            if i < known.len() {
                assert(all[i] == known[i]);
                if front.contains(known[i]) {
                    let k = choose|k: int| 0 <= k < front.len() && front[k] == known[i];
                    assert(ranges[k] == known[i]);
                }
            }
        }
    }
}

fn push_stretch(out: &mut Vec<Span>, start: usize, end: usize, style: Style)
    ensures
        final(out)@ == old(out)@ + stretch(start as int, end as int, style),
{
    if start < end {
        out.push((start..end, style));
    }
    proof {
        assert(out@ =~= old(out)@ + stretch(start as int, end as int, style));
    }
}

/// Fill the gaps between `ranges` in `full_range` with `fill`.
pub fn fill_gaps(full_range: Range<usize>, ranges: &[Span], fill: Style) -> (out: Vec<Span>)
    ensures
        out@ == gaps_filled(full_range.start as int, full_range.end as int, ranges@, fill),
{
    let mut out: Vec<Span> = Vec::new();
    let mut at: usize = full_range.start;
    let mut i: usize = 0;
    let ghost lo = full_range.start as int;
    proof {
        assert(ranges@.take(0) =~= Seq::<Span>::empty());
    }
    while i < ranges.len()
        invariant
            i <= ranges@.len(),
            lo == full_range.start,
            at == reach(lo, ranges@.take(i as int)),
            out@ =~= filled(lo, ranges@.take(i as int), fill),
        decreases ranges@.len() - i,
    {
        let span = &ranges[i];
        proof {
            assert(ranges@.take(i + 1).drop_last() =~= ranges@.take(i as int));
            assert(ranges@.take(i + 1).last() == ranges@[i as int]);
        }
        push_stretch(&mut out, at, span.0.start, fill);
        push_stretch(&mut out, span.0.start, span.0.end, span.1);
        at = span.0.end;
        i += 1;
    }
    proof {
        assert(ranges@.take(ranges@.len() as int) =~= ranges@);
    }
    push_stretch(&mut out, at, full_range.end, fill);
    out
}

/// Whether ranges lie between `lo` and `hi` one after the other. They may be
/// empty, and there may be room between them.
pub open spec fn spread(ranges: Seq<Span>, lo: int, hi: int) -> bool {
    &&& lo <= hi
    &&& forall|i: int|
        0 <= i < ranges.len() ==> lo <= (#[trigger] ranges[i]).0.start <= ranges[i].0.end <= hi
    &&& forall|i: int, j: int|
        0 <= i < j < ranges.len() ==> (#[trigger] ranges[i]).0.end <= (#[trigger] ranges[j]).0.start
}

/// Ranges that lie before some place and ranges that lie after it.
pub proof fn lemma_spread_concat(a: Seq<Span>, b: Seq<Span>, lo: int, mid: int, hi: int)
    requires
        exists|end: int| end <= mid && #[trigger] spread(a, lo, end),
        exists|end: int| end <= hi && #[trigger] spread(b, mid, end),
    ensures
        spread(a + b, lo, hi),
{
    let out = a + b;
    assert forall|i: int, j: int| 0 <= i < j < out.len() implies (#[trigger] out[i]).0.end <= (
    #[trigger] out[j]).0.start by {
        if j < a.len() {
            assert(a[i].0.end <= a[j].0.start);
        } else if i >= a.len() {
            assert(b[i - a.len()].0.end <= b[j - a.len()].0.start);
        }
    }
}

/// Whether spans show `ranges`, and `fill` wherever there is none of them.
pub open spec fn shows(spans: Seq<Span>, ranges: Seq<Span>, fill: Style) -> bool {
    forall|i: int, p: int|
        0 <= i < spans.len() && #[trigger] holds(spans[i], p) ==> {
            &&& forall|j: int|
                0 <= j < ranges.len() && #[trigger] holds(ranges[j], p) ==> spans[i].1
                    == ranges[j].1
            &&& (forall|j: int| 0 <= j < ranges.len() ==> !#[trigger] holds(ranges[j], p))
                ==> spans[i].1 == fill
        }
}

proof fn lemma_tiles_stretch(spans: Seq<Span>, lo: int, mid: int, hi: int, style: Style)
    requires
        tiles(spans, lo, mid),
        lo <= mid <= hi <= usize::MAX,
        0 <= lo,
    ensures
        tiles(spans + stretch(mid, hi, style), lo, hi),
{
    let out = spans + stretch(mid, hi, style);
    if mid < hi {
        assert forall|i: int, j: int| 0 <= i < j < out.len() implies (#[trigger] out[i]).0.end <= (
        #[trigger] out[j]).0.start by {
            if j == spans.len() && i < j - 1 {
                assert(spans[i].0.end <= spans[j - 1].0.start);
            }
        }
    } else {
        assert(out =~= spans);
    }
}

proof fn lemma_filled(lo: int, hi: int, ranges: Seq<Span>, fill: Style)
    requires
        0 <= lo <= hi <= usize::MAX,
        spread(ranges, lo, hi),
    ensures
        lo <= reach(lo, ranges) <= hi,
        tiles(filled(lo, ranges, fill), lo, reach(lo, ranges)),
        shows(filled(lo, ranges, fill), ranges, fill),
    decreases ranges.len(),
{
    if ranges.len() > 0 {
        let front = ranges.drop_last();
        let (range, style) = ranges.last();
        let n = ranges.len() - 1;
        lemma_filled(lo, hi, front, fill);
        let start = filled(lo, front, fill);
        let gap = stretch(reach(lo, front), range.start as int, fill);
        let own = stretch(range.start as int, range.end as int, style);
        let out = filled(lo, ranges, fill);
        assert(out =~= start + gap + own);
        assert(reach(lo, front) <= range.start) by {
            if n > 0 {
                assert(ranges[n - 1].0.end <= ranges[n].0.start);
            }
        }
        lemma_tiles_stretch(start, lo, reach(lo, front), range.start as int, fill);
        lemma_tiles_stretch(start + gap, lo, range.start as int, range.end as int, style);
        assert forall|i: int, p: int| 0 <= i < out.len() && #[trigger] holds(out[i], p) implies {
            &&& forall|j: int|
                0 <= j < ranges.len() && #[trigger] holds(ranges[j], p) ==> out[i].1 == ranges[j].1
            &&& (forall|j: int| 0 <= j < ranges.len() ==> !#[trigger] holds(ranges[j], p))
                ==> out[i].1 == fill
        } by {
            if i < start.len() {
                assert(out[i] == start[i]);
                assert(holds(start[i], p));
                assert(p < reach(lo, front)) by {
                    if i < start.len() - 1 {
                        assert(start[i].0.end <= start[start.len() - 1].0.start);
                    }
                }
                assert(!holds(ranges[n], p));
                assert forall|j: int| 0 <= j < ranges.len() && #[trigger] holds(
                    ranges[j],
                    p,
                ) implies out[i].1 == ranges[j].1 by {
                    assert(front[j] == ranges[j]);
                    assert(holds(front[j], p));
                }
                if forall|j: int| 0 <= j < ranges.len() ==> !#[trigger] holds(ranges[j], p) {
                    assert forall|j: int| 0 <= j < front.len() implies !#[trigger] holds(
                        front[j],
                        p,
                    ) by {
                        assert(!holds(ranges[j], p));
                    }
                }
            } else {
                assert(reach(lo, front) <= p);
                assert forall|j: int| 0 <= j < n implies !#[trigger] holds(ranges[j], p) by {
                    assert(front[j] == ranges[j]);
                    if j < n - 1 {
                        assert(ranges[j].0.end <= ranges[n - 1].0.start);
                    }
                }
                if gap.len() > 0 && i == start.len() {
                    assert(out[i] == gap[0]);
                    assert(!holds(ranges[n], p));
                } else {
                    assert(out[i] == own[0]);
                    assert(holds(ranges[n], p));
                }
            }
        }
    }
}

/// Ranges that lie one after the other come out of gap filling as a tiling of
/// the whole range, showing every range where it was and the fill elsewhere.
pub proof fn fill_gaps_tiles(lo: int, hi: int, ranges: Seq<Span>, fill: Style)
    requires
        0 <= lo <= hi <= usize::MAX,
        spread(ranges, lo, hi),
    ensures
        tiles(gaps_filled(lo, hi, ranges, fill), lo, hi),
        shows(gaps_filled(lo, hi, ranges, fill), ranges, fill),
{
    lemma_filled(lo, hi, ranges, fill);
    let start = filled(lo, ranges, fill);
    let end = stretch(reach(lo, ranges), hi, fill);
    let out = gaps_filled(lo, hi, ranges, fill);
    lemma_tiles_stretch(start, lo, reach(lo, ranges), hi, fill);
    assert forall|i: int, p: int| 0 <= i < out.len() && #[trigger] holds(out[i], p) implies {
        &&& forall|j: int|
            0 <= j < ranges.len() && #[trigger] holds(ranges[j], p) ==> out[i].1 == ranges[j].1
        &&& (forall|j: int| 0 <= j < ranges.len() ==> !#[trigger] holds(ranges[j], p)) ==> out[i].1
            == fill
    } by {
        if i < start.len() {
            assert(out[i] == start[i]);
            assert(holds(start[i], p));
        } else {
            assert(out[i] == end[0]);
            assert forall|j: int| 0 <= j < ranges.len() implies !#[trigger] holds(ranges[j], p) by {
                if j < ranges.len() - 1 {
                    assert(ranges[j].0.end <= ranges[ranges.len() - 1].0.start);
                }
            }
        }
    }
}

// ---------------------------------------------------------------------------
// Laying one list over another
// ---------------------------------------------------------------------------

pub open spec fn later(a: usize, b: usize) -> usize {
    if a < b {
        b
    } else {
        a
    }
}

/// Whether two spans meet: they end together, or one starts inside the other.
pub open spec fn meet(a: Span, b: Span) -> bool {
    ||| a.0.end == b.0.end
    ||| holds(a, b.0.start as int) && b.0.end > 0
    ||| holds(b, a.0.start as int) && a.0.end > 0
}

/// Whether `a` is done with once two spans that meet have been drawn: it ends
/// inside `b`, or where `b` does.
pub open spec fn first_done(a: Span, b: Span) -> bool {
    ||| a.0.end == b.0.end
    ||| if holds(a, b.0.start as int) {
        !holds(a, b.0.end - 1)
    } else {
        holds(b, a.0.end - 1)
    }
}

/// Whether `b` is done with once two spans that meet have been drawn.
pub open spec fn second_done(a: Span, b: Span) -> bool {
    a.0.end == b.0.end || !first_done(a, b)
}

/// What two spans that meet have in common, `b` drawn over `a`.
pub open spec fn overlap(a: Span, b: Span) -> Span {
    (
        Range {
            start: later(a.0.start, b.0.start),
            end: if first_done(a, b) {
                a.0.end
            } else {
                b.0.end
            },
        },
        style::patched(a.1, b.1),
    )
}

/// `spans` without the first of them, if that one is done with.
pub open spec fn passed(spans: Seq<Span>, done: bool) -> Seq<Span> {
    if done {
        spans.drop_first()
    } else {
        spans
    }
}

/// Whether every pair of spans that come up together while merging meets.
pub open spec fn mergeable(a: Seq<Span>, b: Seq<Span>) -> bool
    decreases a.len() + b.len(),
{
    if a.len() == 0 || b.len() == 0 {
        true
    } else {
        &&& meet(a[0], b[0])
        &&& mergeable(
            passed(a, first_done(a[0], b[0])),
            passed(b, second_done(a[0], b[0])),
        )
    }
}

/// Two lists of spans, `b` drawn over `a`. Whichever span ends first is done
/// with; once one list runs out the other stays as it is.
pub open spec fn merged(a: Seq<Span>, b: Seq<Span>) -> Seq<Span>
    decreases a.len() + b.len(),
{
    if a.len() == 0 {
        b
    } else if b.len() == 0 {
        a
    } else {
        seq![overlap(a[0], b[0])] + merged(
            passed(a, first_done(a[0], b[0])),
            passed(b, second_done(a[0], b[0])),
        )
    }
}

/// The next span of two lists drawn over one another.
///
/// This produces a continuous range, given that `a` and `b` are continuous.
pub fn next_merged_style(a: &mut SpanCursor, b: &mut SpanCursor) -> (span: Option<Span>)
    requires
        old(a).wf(),
        old(b).wf(),
        old(a).rest().len() > 0 && old(b).rest().len() > 0 ==> meet(
            old(a).rest()[0],
            old(b).rest()[0],
        ),
    ensures
        final(a).wf(),
        final(b).wf(),
        ({
            let (x, y) = (old(a).rest(), old(b).rest());
            let (x2, y2) = (final(a).rest(), final(b).rest());
            if x.len() == 0 && y.len() == 0 {
                span is None && x2 == x && y2 == y
            } else if y.len() == 0 {
                span == Some(x[0]) && x2 == x.drop_first() && y2 == y
            } else if x.len() == 0 {
                span == Some(y[0]) && x2 == x && y2 == y.drop_first()
            } else {
                &&& span == Some(overlap(x[0], y[0]))
                &&& x2 == passed(x, first_done(x[0], y[0]))
                &&& y2 == passed(y, second_done(x[0], y[0]))
            }
        }),
{
    let (a_range, a_style, b_range, b_style) = match (a.peek(), b.peek()) {
        (Some(a), Some(b)) => (a.0, a.1, b.0, b.1),
        (Some(_), None) => {
            return a.next();
        },
        (None, Some(_)) => {
            return b.next();
        },
        (None, None) => {
            return None;
        },
    };
    let style = a_style.patch(b_style);
    let start = if a_range.start < b_range.start {
        b_range.start
    } else {
        a_range.start
    };
    if a_range.end == b_range.end {
        a.next();
        b.next();
        Some((start..a_range.end, style))
    } else if a_range.start <= b_range.start && b_range.start < a_range.end {
        if a_range.start <= b_range.end - 1 && b_range.end - 1 < a_range.end {
            // a: (       )
            // b:   ( X )
            b.next();
            Some((b_range.start..b_range.end, style))
        } else {
            // a: ( X )
            // b:   (   )
            a.next();
            Some((b_range.start..a_range.end, style))
        }
    } else {
        if b_range.start <= a_range.end - 1 && a_range.end - 1 < b_range.end {
            // a:   ( X )
            // b: (       )
            a.next();
            Some((a_range.start..a_range.end, style))
        } else {
            // a:   (   )
            // b: ( X )
            b.next();
            Some((a_range.start..b_range.end, style))
        }
    }
}

/// Spans without those that only repeat the one before them.
pub open spec fn deduped(spans: Seq<Span>) -> Seq<Span>
    decreases spans.len(),
{
    if spans.len() < 2 {
        spans
    } else if spans[spans.len() - 2] == spans.last() {
        deduped(spans.drop_last())
    } else {
        deduped(spans.drop_last()).push(spans.last())
    }
}

proof fn lemma_deduped_last(spans: Seq<Span>)
    requires
        spans.len() > 0,
    ensures
        deduped(spans).len() > 0,
        deduped(spans).last() == spans.last(),
    decreases spans.len(),
{
    if spans.len() >= 2 {
        lemma_deduped_last(spans.drop_last());
    }
}

proof fn lemma_deduped_push(spans: Seq<Span>, span: Span)
    ensures
        deduped(spans.push(span)) == (if spans.len() > 0 && deduped(spans).last() == span {
            deduped(spans)
        } else {
            deduped(spans).push(span)
        }),
{
    let longer = spans.push(span);
    assert(longer.drop_last() =~= spans);
    if spans.len() > 0 {
        lemma_deduped_last(spans);
        assert(longer[longer.len() - 2] == spans.last());
    } else {
        assert(longer =~= deduped(spans).push(span));
    }
}

fn same_span(a: &Span, b: &Span) -> (same: bool)
    ensures
        same == (*a == *b),
{
    a.0.start == b.0.start && a.0.end == b.0.end && a.1 == b.1
}

/// Two lists of spans with `b` drawn over `a`.
pub fn zip_styles(a: Vec<Span>, b: Vec<Span>) -> (out: Vec<Span>)
    requires
        mergeable(a@, b@),
    ensures
        out@ == deduped(merged(a@, b@)),
{
    let ghost whole = merged(a@, b@);
    let mut a = SpanCursor::new(a);
    let mut b = SpanCursor::new(b);
    let mut out: Vec<Span> = Vec::new();
    let ghost mut done: Seq<Span> = seq![];
    proof {
        assert(done + whole =~= whole);
    }
    loop
        invariant
            a.wf(),
            b.wf(),
            mergeable(a.rest(), b.rest()),
            done + merged(a.rest(), b.rest()) == whole,
            out@ == deduped(done),
        ensures
            out@ == deduped(whole),
        decreases a.rest().len() + b.rest().len(),
    {
        let ghost (x, y) = (a.rest(), b.rest());
        match next_merged_style(&mut a, &mut b) {
            Some(span) => {
                let repeats = out.len() > 0 && same_span(&out[out.len() - 1], &span);
                proof {
                    lemma_deduped_push(done, span);
                    if done.len() > 0 {
                        lemma_deduped_last(done);
                    }
                    assert(merged(x, y) =~= seq![span] + merged(a.rest(), b.rest()));
                    assert(done + merged(x, y) =~= done.push(span) + merged(a.rest(), b.rest()));
                    done = done.push(span);
                }
                if !repeats {
                    out.push(span);
                }
            },
            None => {
                proof {
                    assert(done + merged(x, y) =~= done);
                }
                break;
            },
        }
    }
    out
}

/// Whether spans show, at each offset, what `b` draws there over what `a` does.
pub open spec fn shows_both(spans: Seq<Span>, a: Seq<Span>, b: Seq<Span>) -> bool {
    forall|k: int, i: int, j: int, p: int|
        0 <= k < spans.len() && 0 <= i < a.len() && 0 <= j < b.len() && #[trigger] holds(
            spans[k],
            p,
        ) && #[trigger] holds(a[i], p) && #[trigger] holds(b[j], p) ==> spans[k].1
            == style::patched(a[i].1, b[j].1)
}

/// Whether spans cover everything from `pos` to `hi`, the first of them having
/// perhaps started before.
spec fn covers(spans: Seq<Span>, pos: int, hi: int) -> bool {
    &&& in_order(spans)
    &&& gapless(spans)
    &&& pos <= hi
    &&& spans.len() == 0 <==> pos == hi
    &&& spans.len() > 0 ==> holds(spans[0], pos) && spans.last().0.end == hi
}

proof fn lemma_passed_covers(spans: Seq<Span>, pos: int, next: int, hi: int)
    requires
        covers(spans, pos, hi),
        pos < hi,
        pos < next <= spans[0].0.end,
    ensures
        covers(passed(spans, next == spans[0].0.end), next, hi),
{
    if next == spans[0].0.end {
        let rest = spans.drop_first();
        assert forall|i: int, j: int| 0 <= i < j < rest.len() implies (#[trigger] rest[i]).0.end
            <= (#[trigger] rest[j]).0.start by {
            assert(spans[i + 1].0.end <= spans[j + 1].0.start);
        }
        assert forall|i: int, j: int| 0 <= i && j == i + 1 && j < rest.len() implies (
        #[trigger] rest[i]).0.end == (#[trigger] rest[j]).0.start by {
            assert(spans[i + 1].0.end == spans[j + 1].0.start);
        }
        assert forall|i: int| 0 <= i < rest.len() implies (#[trigger] rest[i]).0.start
            < rest[i].0.end by {
            assert(spans[i + 1].0.start < spans[i + 1].0.end);
        }
        if rest.len() > 0 {
            assert(spans[0].0.end == spans[1].0.start);
            assert(spans[1].0.start < spans[1].0.end);
            assert(rest.last() == spans.last());
            let n = rest.len() - 1;
            assert(rest[n].0.start < rest[n].0.end);
            if n > 0 {
                assert(rest[0].0.end <= rest[n].0.start);
            }
        }
    } else {
        let n = spans.len() - 1;
        if n > 0 {
            assert(spans[0].0.end <= spans[n].0.start);
            assert(spans[n].0.start < spans[n].0.end);
        }
    }
}

#[verifier::spinoff_prover]
proof fn lemma_merged_covers(a: Seq<Span>, b: Seq<Span>, pos: int, hi: int)
    requires
        covers(a, pos, hi),
        covers(b, pos, hi),
        pos < hi ==> later(a[0].0.start, b[0].0.start) == pos,
    ensures
        mergeable(a, b),
        tiles(merged(a, b), pos, hi),
        shows_both(merged(a, b), a, b),
    decreases a.len() + b.len(),
{
    if pos < hi {
        let first = overlap(a[0], b[0]);
        let next = first.0.end as int;
        let a2 = passed(a, first_done(a[0], b[0]));
        let b2 = passed(b, second_done(a[0], b[0]));
        assert(meet(a[0], b[0]));
        assert(first_done(a[0], b[0]) <==> next == a[0].0.end);
        assert(second_done(a[0], b[0]) <==> next == b[0].0.end);
        assert(next <= a[0].0.end && next <= b[0].0.end);
        lemma_passed_covers(a, pos, next, hi);
        lemma_passed_covers(b, pos, next, hi);
        if next < hi {
            assert(later(a2[0].0.start, b2[0].0.start) == next) by {
                if first_done(a[0], b[0]) {
                    assert(a[0].0.end == a[1].0.start);
                }
                if second_done(a[0], b[0]) {
                    assert(b[0].0.end == b[1].0.start);
                }
            }
        }
        lemma_merged_covers(a2, b2, next, hi);
        let rest = merged(a2, b2);
        let out = merged(a, b);
        assert(out == seq![first] + rest);
        assert forall|k: int| 0 < k < out.len() implies out[k] == rest[k - 1] && next
            <= (#[trigger] out[k]).0.start by {
            if k > 1 {
                assert(rest[0].0.end <= rest[k - 1].0.start);
            }
            assert(rest[0].0.start < rest[0].0.end);
        }
        assert forall|i: int, j: int| 0 <= i < j < out.len() implies (#[trigger] out[i]).0.end <= (
        #[trigger] out[j]).0.start by {
            if i > 0 {
                assert(rest[i - 1].0.end <= rest[j - 1].0.start);
            }
        }
        assert forall|i: int, j: int| 0 <= i && j == i + 1 && j < out.len() implies (
        #[trigger] out[i]).0.end == (#[trigger] out[j]).0.start by {
            if i > 0 {
                assert(rest[i - 1].0.end == rest[j - 1].0.start);
            }
        }
        assert forall|i: int| 0 <= i < out.len() implies (#[trigger] out[i]).0.start
            < out[i].0.end by {
            if i > 0 {
                assert(rest[i - 1].0.start < rest[i - 1].0.end);
            }
        }
        if rest.len() > 0 {
            assert(out.last() == rest.last());
        }
        assert forall|k: int, i: int, j: int, p: int|
            0 <= k < out.len() && 0 <= i < a.len() && 0 <= j < b.len() && #[trigger] holds(
                out[k],
                p,
            ) && #[trigger] holds(a[i], p) && #[trigger] holds(b[j], p) implies out[k].1
            == style::patched(a[i].1, b[j].1) by {
            if k == 0 {
                if i > 0 {
                    assert(a[0].0.end <= a[i].0.start);
                }
                if j > 0 {
                    assert(b[0].0.end <= b[j].0.start);
                }
            } else {
                assert(next <= p);
                assert(holds(rest[k - 1], p));
                let i2 = if first_done(a[0], b[0]) {
                    i - 1
                } else {
                    i
                };
                let j2 = if second_done(a[0], b[0]) {
                    j - 1
                } else {
                    j
                };
                assert(a2[i2] == a[i]);
                assert(b2[j2] == b[j]);
                assert(holds(a2[i2], p));
                assert(holds(b2[j2], p));
            }
        }
    } else {
        assert(merged(a, b) =~= Seq::<Span>::empty());
    }
}

proof fn lemma_tiles_deduped(spans: Seq<Span>)
    requires
        in_order(spans),
    ensures
        deduped(spans) == spans,
    decreases spans.len(),
{
    if spans.len() >= 2 {
        let n = spans.len() - 1;
        assert(spans[n - 1].0.end <= spans[n].0.start);
        assert(spans[n - 1].0.start < spans[n - 1].0.end);
        lemma_tiles_deduped(spans.drop_last());
        assert(spans.drop_last().push(spans.last()) =~= spans);
    }
}

/// Two tilings of the same range laid over each other are a tiling of it again,
/// which shows at each offset what the second draws there over what the first
/// does.
pub proof fn zip_styles_tiles(a: Seq<Span>, b: Seq<Span>, lo: int, hi: int)
    requires
        tiles(a, lo, hi),
        tiles(b, lo, hi),
    ensures
        mergeable(a, b),
        deduped(merged(a, b)) == merged(a, b),
        tiles(merged(a, b), lo, hi),
        shows_both(merged(a, b), a, b),
{
    lemma_tiles_covers(a, lo, hi);
    lemma_tiles_covers(b, lo, hi);
    lemma_merged_covers(a, b, lo, hi);
    lemma_tiles_deduped(merged(a, b));
}

proof fn lemma_tiles_covers(spans: Seq<Span>, lo: int, hi: int)
    requires
        tiles(spans, lo, hi),
    ensures
        covers(spans, lo, hi),
{
    if spans.len() > 0 {
        let n = spans.len() - 1;
        assert(spans[n].0.start < spans[n].0.end);
        assert(spans[0].0.start < spans[0].0.end);
        if n > 0 {
            assert(spans[0].0.end <= spans[n].0.start);
        }
    }
}

// ---------------------------------------------------------------------------
// Cutting out a line
// ---------------------------------------------------------------------------

/// A span clamped to a line and counted from the start of it.
pub open spec fn localized(span: Span, line: Range<usize>) -> Span {
    let start = later(span.0.start, line.start);
    let end = if span.0.end < line.end {
        span.0.end
    } else {
        line.end
    };
    (
        Range { start: (start - line.start) as usize, end: (end - line.start) as usize },
        span.1,
    )
}

/// The part of some spans that falls on a line.
pub open spec fn cut_out(spans: Seq<Span>, line: Range<usize>) -> Seq<Span>
    decreases spans.len(),
{
    if spans.len() == 0 {
        seq![]
    } else if spans[0].0.end <= line.start {
        cut_out(spans.drop_first(), line)
    } else if line.end <= spans[0].0.end {
        seq![localized(spans[0], line)]
    } else {
        seq![localized(spans[0], line)] + cut_out(spans.drop_first(), line)
    }
}

pub proof fn lemma_cut_out_skip(spans: Seq<Span>, n: int, line: Range<usize>)
    requires
        0 <= n <= spans.len(),
        forall|i: int| 0 <= i < n ==> (#[trigger] spans[i]).0.end <= line.start,
    ensures
        cut_out(spans, line) == cut_out(spans.skip(n), line),
    decreases n,
{
    if n == 0 {
        assert(spans.skip(0) =~= spans);
    } else {
        assert(spans[0].0.end <= line.start);
        assert(spans.drop_first().skip(n - 1) =~= spans.skip(n));
        assert forall|i: int| 0 <= i < n - 1 implies (#[trigger] spans.drop_first()[i]).0.end
            <= line.start by {
            assert(spans[i + 1].0.end <= line.start);
        }
        lemma_cut_out_skip(spans.drop_first(), n - 1, line);
    }
}

/// Append what falls on a line to `result`, moving past the spans that end on
/// it or before it.
pub fn collect_line_highlights(
    highlights: &mut SpanCursor,
    line_range: &Range<usize>,
    result: &mut Vec<Span>,
)
    requires
        old(highlights).wf(),
        line_range.start <= line_range.end,
    ensures
        final(highlights).wf(),
        final(highlights).spans == old(highlights).spans,
        old(highlights).at <= final(highlights).at,
        forall|i: int|
            old(highlights).at <= i < final(highlights).at ==> (#[trigger] final(highlights).spans@[i]).0.end <= line_range.end,
        final(result)@ == old(result)@ + cut_out(old(highlights).rest(), *line_range),
{
    let ghost wanted = old(result)@ + cut_out(old(highlights).rest(), *line_range);
    loop
        invariant_except_break
            result@ + cut_out(highlights.rest(), *line_range) == wanted,
        invariant
            highlights.wf(),
            highlights.spans == old(highlights).spans,
            old(highlights).at <= highlights.at,
            line_range.start <= line_range.end,
            forall|i: int|
                old(highlights).at <= i < highlights.at ==> (#[trigger] highlights.spans@[i]).0.end
                    <= line_range.end,
        ensures
            result@ == wanted,
        decreases highlights.spans@.len() - highlights.at,
    {
        let ghost rest = highlights.rest();
        let (range, style) = match highlights.peek() {
            Some(span) => span,
            None => {
                proof {
                    assert(result@ + cut_out(rest, *line_range) =~= result@);
                }
                break;
            },
        };
        if range.end <= line_range.start {
            highlights.next();
            proof {
                assert(highlights.rest() =~= rest.drop_first());
            }
            continue;
        }
        let start = if range.start < line_range.start {
            line_range.start
        } else {
            range.start
        };
        let end = if range.end < line_range.end {
            range.end
        } else {
            line_range.end
        };
        let ghost before = result@;
        result.push((start - line_range.start..end - line_range.start, style));
        proof {
            assert(result@.last() == localized(rest[0], *line_range));
        }
        if line_range.end <= range.end {
            proof {
                assert(result@ =~= before + cut_out(rest, *line_range));
            }
            break;
        }
        highlights.next();
        proof {
            assert(highlights.rest() =~= rest.drop_first());
            assert(result@ + cut_out(rest.drop_first(), *line_range) =~= before + cut_out(
                rest,
                *line_range,
            ));
        }
    }
}

/// Whether spans of a line show what `spans` of the whole text show there.
pub open spec fn shows_part(local: Seq<Span>, spans: Seq<Span>, line: Range<usize>) -> bool {
    forall|k: int, i: int, p: int|
        0 <= k < local.len() && 0 <= i < spans.len() && #[trigger] holds(local[k], p)
            && #[trigger] holds(spans[i], line.start + p) ==> local[k].1 == spans[i].1
}

#[verifier::spinoff_prover]
proof fn lemma_cut_out(spans: Seq<Span>, pos: int, hi: int, line: Range<usize>, from: int)
    requires
        covers(spans, pos, hi),
        0 <= pos,
        line.start < line.end <= hi,
        pos <= line.start ==> from == line.start,
        pos > line.start ==> from == pos && spans.len() > 0 && spans[0].0.start == pos,
        from < line.end,
    ensures
        tiles(cut_out(spans, line), from - line.start, line.end - line.start),
        shows_part(cut_out(spans, line), spans, line),
    decreases spans.len(),
{
    let first = spans[0];
    let rest = spans.drop_first();
    let out = cut_out(spans, line);
    lemma_passed_covers(spans, pos, first.0.end as int, hi);
    if first.0.end <= line.start {
        if rest.len() > 0 {
            assert(first.0.end == spans[1].0.start);
        }
        lemma_cut_out(rest, first.0.end as int, hi, line, from);
        assert forall|k: int, i: int, p: int|
            0 <= k < out.len() && 0 <= i < spans.len() && #[trigger] holds(out[k], p)
                && #[trigger] holds(spans[i], line.start + p) implies out[k].1 == spans[i].1 by {
            if i > 0 {
                assert(rest[i - 1] == spans[i]);
                assert(holds(rest[i - 1], line.start + p));
            }
        }
    } else {
        let own = localized(first, line);
        if line.end <= first.0.end {
            assert(out =~= seq![own]);
            assert forall|k: int, i: int, p: int|
                0 <= k < out.len() && 0 <= i < spans.len() && #[trigger] holds(out[k], p)
                    && #[trigger] holds(spans[i], line.start + p) implies out[k].1
                == spans[i].1 by {
                if i > 0 {
                    assert(first.0.end <= spans[i].0.start);
                }
            }
        } else {
            let next = first.0.end as int;
            assert(first.0.end == spans[1].0.start);
            lemma_cut_out(rest, next, hi, line, next);
            let tail = cut_out(rest, line);
            assert(out =~= seq![own] + tail);
            assert forall|k: int| 0 < k < out.len() implies out[k] == tail[k - 1] && next
                - line.start <= (#[trigger] out[k]).0.start by {
                if k > 1 {
                    assert(tail[0].0.end <= tail[k - 1].0.start);
                }
                assert(tail[0].0.start < tail[0].0.end);
            }
            assert forall|i: int, j: int| 0 <= i < j < out.len() implies (#[trigger] out[i]).0.end
                <= (#[trigger] out[j]).0.start by {
                if i > 0 {
                    assert(tail[i - 1].0.end <= tail[j - 1].0.start);
                }
            }
            assert forall|i: int, j: int| 0 <= i && j == i + 1 && j < out.len() implies (
            #[trigger] out[i]).0.end == (#[trigger] out[j]).0.start by {
                if i > 0 {
                    assert(tail[i - 1].0.end == tail[j - 1].0.start);
                }
            }
            assert forall|i: int| 0 <= i < out.len() implies (#[trigger] out[i]).0.start
                < out[i].0.end by {
                if i > 0 {
                    assert(tail[i - 1].0.start < tail[i - 1].0.end);
                }
            }
            assert(out.last() == tail.last());
            assert forall|k: int, i: int, p: int|
                0 <= k < out.len() && 0 <= i < spans.len() && #[trigger] holds(out[k], p)
                    && #[trigger] holds(spans[i], line.start + p) implies out[k].1
                == spans[i].1 by {
                if k == 0 {
                    if i > 0 {
                        assert(first.0.end <= spans[i].0.start);
                    }
                } else {
                    assert(holds(tail[k - 1], p));
                    assert(i > 0);
                    assert(rest[i - 1] == spans[i]);
                    assert(holds(rest[i - 1], line.start + p));
                }
            }
        }
    }
}

/// What is cut out of a tiling for a line that has something on it is a tiling
/// of that line, showing what the whole shows there.
pub proof fn cut_out_tiles(spans: Seq<Span>, lo: int, hi: int, line: Range<usize>)
    requires
        tiles(spans, lo, hi),
        0 <= lo <= line.start,
        line.start < line.end <= hi,
    ensures
        tiles(cut_out(spans, line), 0, line.end - line.start),
        shows_part(cut_out(spans, line), spans, line),
{
    lemma_tiles_covers(spans, lo, hi);
    lemma_cut_out(spans, lo, hi, line, line.start as int);
}

} // verus!
