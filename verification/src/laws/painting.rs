//! How the text of a hunk is painted, offset by offset.

use crate::diff;
use crate::diff::{Change, Hunk};
use crate::diff_colorizer;
use crate::highlight;
use crate::highlight::{
    DiffHighlightConfig, HighlightConfig, SyntaxHighlightConfig, SyntaxTag, TokenHunk,
};
use crate::spans;
use crate::spans::Span;
use crate::style;
use crate::style::Style;
use crate::text;
use std::ops::Range;
use vstd::prelude::*;

verus! {

/// Whether a stretch of code holds an offset.
pub open spec fn tag_holds(tag: (Range<usize>, SyntaxTag), p: int) -> bool {
    tag.0.start <= p < tag.0.end
}

/// What the code that holds an offset is painted in.
pub open spec fn syntax_paint(
    config: SyntaxHighlightConfig,
    tags: Seq<(Range<usize>, SyntaxTag)>,
    p: int,
) -> Style {
    if config.enabled && exists|t: int| 0 <= t < tags.len() && #[trigger] tag_holds(tags[t], p) {
        let t = choose|t: int| 0 <= t < tags.len() && #[trigger] tag_holds(tags[t], p);
        highlight::tag_style(config, tags[t].1)
    } else {
        style::plain()
    }
}

/// Whether an offset lies in a stretch of some words, the first of which is at `start`.
pub open spec fn in_words(words: Seq<Seq<char>>, start: int, range: Range<u32>, p: int) -> bool {
    &&& range.start < range.end
    &&& start + text::total_len(words.take(range.start as int)) <= p < start + text::total_len(
        words.take(range.end as int),
    )
}

/// Whether an offset lies in words that a change replaced.
#[verifier::opaque]
pub open spec fn taken_out_at(body: Seq<char>, base: int, change: Change, p: int) -> bool {
    let old = highlight::words_of(
        text::slice(body, change.old.start - base, change.old.end - base),
    );
    let new = highlight::words_of(
        text::slice(body, change.new.start - base, change.new.end - base),
    );
    let hunks = highlight::token_diff(old, new);
    exists|t: int|
        0 <= t < hunks.len() && in_words(
            old,
            change.old.start - base,
            (#[trigger] hunks[t]).before,
            p,
        )
}

/// Whether an offset lies in words that a change put in the place of others.
#[verifier::opaque]
pub open spec fn put_in_at(body: Seq<char>, base: int, change: Change, p: int) -> bool {
    let old = highlight::words_of(
        text::slice(body, change.old.start - base, change.old.end - base),
    );
    let new = highlight::words_of(
        text::slice(body, change.new.start - base, change.new.end - base),
    );
    let hunks = highlight::token_diff(old, new);
    exists|t: int|
        0 <= t < hunks.len() && in_words(
            new,
            change.new.start - base,
            (#[trigger] hunks[t]).after,
            p,
        )
}

/// What an offset is painted in for being in words that a change replaced or put in.
pub open spec fn change_paint(
    config: DiffHighlightConfig,
    body: Seq<char>,
    base: int,
    changes: Seq<Change>,
    p: int,
) -> Style {
    if exists|c: int| 0 <= c < changes.len() && taken_out_at(body, base, #[trigger] changes[c], p) {
        config.changed_old
    } else if exists|c: int|
        0 <= c < changes.len() && put_in_at(body, base, #[trigger] changes[c], p) {
        config.changed_new
    } else {
        config.unchanged_old
    }
}

/// What an offset of a line is painted in for being its marker.
pub open spec fn marker_paint(config: DiffHighlightConfig, line: Seq<char>, q: int) -> Style {
    if q == 0 && line[0] == '-' {
        config.tag_old
    } else if q == 0 && line[0] == '+' {
        config.tag_new
    } else {
        style::plain()
    }
}

/// What an offset of a line is painted in: the code of the old side, over it that of the
/// new side, over it what changed, and over it the marker.
pub open spec fn paint(
    config: HighlightConfig,
    body: Seq<char>,
    hunk: Hunk,
    old_tags: Seq<(Range<usize>, SyntaxTag)>,
    new_tags: Seq<(Range<usize>, SyntaxTag)>,
    i: int,
    q: int,
) -> Style {
    let p = text::total_len(text::lines(body).take(i)) + q;
    style::patched(
        style::patched(
            syntax_paint(config.syntax, old_tags, p),
            syntax_paint(config.syntax, new_tags, p),
        ),
        style::patched(
            change_paint(
                config.diff,
                body,
                hunk.content.range.start as int,
                hunk.content.changes@,
                p,
            ),
            marker_paint(config.diff, text::lines(body)[i], q),
        ),
    )
}

/// How many bytes of a line are to be seen: what ends it isn't.
pub open spec fn seen_len(line: Seq<char>) -> int {
    text::byte_len(line) - (if line.len() >= 2 && line[line.len() - 2] == '\r' && line[line.len()
        - 1] == '\n' {
        2int
    } else {
        1
    })
}

/// Whether the segments of the lines of a hunk are painted: those of a line cover what
/// is to be seen of it, and each shows, at every offset it holds, both sides' code, what
/// changed, and the marker.
pub open spec fn painted(
    config: HighlightConfig,
    body: Seq<char>,
    hunk: Hunk,
    old_tags: Seq<(Range<usize>, SyntaxTag)>,
    new_tags: Seq<(Range<usize>, SyntaxTag)>,
    lines: Seq<Seq<Span>>,
) -> bool {
    &&& lines.len() == text::lines(body).len()
    &&& forall|i: int|
        0 <= i < lines.len() && seen_len(text::lines(body)[i]) > 0 ==> spans::tiles(
            #[trigger] lines[i],
            0,
            seen_len(text::lines(body)[i]),
        )
    &&& forall|i: int, k: int, q: int|
        0 <= i < lines.len() && 0 <= k < lines[i].len() && 0 <= q < seen_len(text::lines(body)[i])
            && #[trigger] spans::holds(lines[i][k], q) ==> lines[i][k].1 == paint(
            config,
            body,
            hunk,
            old_tags,
            new_tags,
            i,
            q,
        )
}

// ---------------------------------------------------------------------------
// Code
// ---------------------------------------------------------------------------

proof fn lemma_syntax(
    config: SyntaxHighlightConfig,
    length: int,
    tags: Seq<(Range<usize>, SyntaxTag)>,
)
    requires
        highlight::tags_spread(tags, length),
        length <= usize::MAX,
    ensures
        spans::tiles(highlight::syntax_highlights(config, length, tags), 0, length),
        forall|k: int, p: int|
            0 <= k < highlight::syntax_highlights(config, length, tags).len()
                && #[trigger] spans::holds(
                highlight::syntax_highlights(config, length, tags)[k],
                p,
            ) ==> highlight::syntax_highlights(config, length, tags)[k].1 == syntax_paint(
                config,
                tags,
                p,
            ),
{
    let styled = if config.enabled {
        highlight::styled_tags(config, tags)
    } else {
        seq![]
    };
    assert(spans::spread(styled, 0, length)) by {
        assert forall|i: int, j: int| 0 <= i < j < styled.len() implies (#[trigger] styled[i]).0.end
            <= (#[trigger] styled[j]).0.start by {
            assert(tags[i].0.end <= tags[j].0.start);
        }
        assert forall|i: int| 0 <= i < styled.len() implies 0 <= (#[trigger] styled[i]).0.start
            <= styled[i].0.end <= length by {
            assert(tags[i].0.start <= tags[i].0.end);
        }
    }
    spans::fill_gaps_tiles(0, length, styled, style::plain());
    let all = highlight::syntax_highlights(config, length, tags);
    assert forall|k: int, p: int| 0 <= k < all.len() && #[trigger] spans::holds(all[k], p) implies all[k].1
        == syntax_paint(config, tags, p) by {
        if config.enabled && exists|t: int|
            0 <= t < tags.len() && #[trigger] tag_holds(tags[t], p) {
            let t = choose|t: int| 0 <= t < tags.len() && #[trigger] tag_holds(tags[t], p);
            assert(spans::holds(styled[t], p));
        } else {
            assert forall|j: int| 0 <= j < styled.len() implies !#[trigger] spans::holds(
                styled[j],
                p,
            ) by {
                assert(!tag_holds(tags[j], p));
            }
        }
    }
}

// ---------------------------------------------------------------------------
// Markers
// ---------------------------------------------------------------------------

/// Every marker is that of some line.
proof fn lemma_marker_of(config: DiffHighlightConfig, body: Seq<char>, n: nat, j: int) -> (l: int)
    requires
        n <= text::lines(body).len(),
        text::byte_len(body) <= usize::MAX,
        0 <= j < highlight::marker_spans(config, body, n).len(),
    ensures
        0 <= l < n,
        is_marker(config, body, l, highlight::marker_spans(config, body, n)[j]),
    decreases n,
{
    let before = highlight::marker_spans(config, body, (n - 1) as nat);
    highlight::lines_in_order(body, n - 1);
    if j < before.len() {
        lemma_marker_of(config, body, (n - 1) as nat, j)
    } else {
        n - 1
    }
}

/// Every line that has a marker has it among them.
proof fn lemma_marker_at(config: DiffHighlightConfig, body: Seq<char>, n: nat, l: int) -> (j: int)
    requires
        n <= text::lines(body).len(),
        text::byte_len(body) <= usize::MAX,
        0 <= l < n,
        text::lines(body)[l][0] == '-' || text::lines(body)[l][0] == '+',
    ensures
        0 <= j < highlight::marker_spans(config, body, n).len(),
        is_marker(config, body, l, highlight::marker_spans(config, body, n)[j]),
    decreases n,
{
    let before = highlight::marker_spans(config, body, (n - 1) as nat);
    highlight::lines_in_order(body, n - 1);
    if l < n - 1 {
        lemma_marker_at(config, body, (n - 1) as nat, l)
    } else {
        before.len() as int
    }
}

/// Whether a span is of the marker of a line.
spec fn is_marker(config: DiffHighlightConfig, body: Seq<char>, l: int, span: Span) -> bool {
    let start = highlight::line_start(body, l);
    let marker = text::lines(body)[l][0];
    &&& span.0.start == start
    &&& span.0.end == start + 1
    &&& marker == '-' || marker == '+'
    &&& span.1 == (if marker == '-' {
        config.tag_old
    } else {
        config.tag_new
    })
}

proof fn lemma_markers(config: DiffHighlightConfig, body: Seq<char>, i: int, q: int, k: int)
    requires
        text::byte_len(body) <= usize::MAX,
        0 <= i < text::lines(body).len(),
        0 <= q < seen_len(text::lines(body)[i]),
        0 <= k < highlight::context_highlights(config, body).len(),
        spans::holds(
            highlight::context_highlights(config, body)[k],
            highlight::line_start(body, i) + q,
        ),
    ensures
        highlight::context_highlights(config, body)[k].1 == marker_paint(
            config,
            text::lines(body)[i],
            q,
        ),
{
    let lines = text::lines(body);
    let n = lines.len();
    let length = text::byte_len(body) as int;
    let markers = highlight::marker_spans(config, body, n);
    let p = highlight::line_start(body, i) + q;
    highlight::lemma_markers_spread(config, body, n);
    text::lemma_lines_concat(body);
    text::lemma_parts(body, lines, 0);
    assert(lines.take(n as int) =~= lines);
    spans::fill_gaps_tiles(0, length, markers, style::plain());
    highlight::lines_in_order(body, i);
    assert forall|j: int| 0 <= j < markers.len() && #[trigger] spans::holds(
        markers[j],
        p,
    ) implies is_marker(config, body, i, markers[j]) && q == 0 by {
        let l = lemma_marker_of(config, body, n, j);
        highlight::lines_in_order(body, l);
        if l < i {
            text::lemma_total_len_take(lines, l + 1, i);
        } else if i < l {
            text::lemma_total_len_take(lines, i + 1, l);
        }
        assert(l == i);
    }
    if q == 0 && (lines[i][0] == '-' || lines[i][0] == '+') {
        let j = lemma_marker_at(config, body, n, i);
        assert(spans::holds(markers[j], p));
    } else {
        assert forall|j: int| 0 <= j < markers.len() implies !#[trigger] spans::holds(
            markers[j],
            p,
        ) by {}
    }
}

// ---------------------------------------------------------------------------
// Words
// ---------------------------------------------------------------------------

proof fn lemma_stretch(words: Seq<Seq<char>>, base: int, range: Range<u32>, style: Style)
    requires
        0 <= base,
        base + text::total_len(words) <= usize::MAX,
        range.start <= range.end <= words.len(),
    ensures
        forall|j: int, p: int|
            0 <= j < highlight::stretch_span(words, base, range, style).len()
                && #[trigger] spans::holds(
                highlight::stretch_span(words, base, range, style)[j],
                p,
            ) ==> in_words(words, base, range, p),
        forall|p: int|
            #[trigger] in_words(words, base, range, p) ==> highlight::stretch_span(
                words,
                base,
                range,
                style,
            ).len() == 1 && spans::holds(
                highlight::stretch_span(words, base, range, style)[0],
                p,
            ),
{
    text::lemma_total_len_take(words, range.start as int, range.end as int);
    text::lemma_total_len_take(words, range.end as int, words.len() as int);
    assert(words.take(words.len() as int) =~= words);
}

proof fn lemma_out_words(
    words: Seq<Seq<char>>,
    base: int,
    hunks: Seq<TokenHunk>,
    style: Style,
    p: int,
)
    requires
        0 <= base,
        base + text::total_len(words) <= usize::MAX,
        forall|t: int|
            0 <= t < hunks.len() ==> (#[trigger] hunks[t]).before.start <= hunks[t].before.end
                <= words.len(),
    ensures
        (exists|j: int|
            0 <= j < highlight::old_spans(words, base, hunks, style).len()
                && #[trigger] spans::holds(highlight::old_spans(words, base, hunks, style)[j], p))
            == (exists|t: int|
            0 <= t < hunks.len() && in_words(words, base, (#[trigger] hunks[t]).before, p)),
    decreases hunks.len(),
{
    let all = highlight::old_spans(words, base, hunks, style);
    if hunks.len() > 0 {
        let n = hunks.len() - 1;
        let front = hunks.drop_last();
        let before = highlight::old_spans(words, base, front, style);
        let own = highlight::stretch_span(words, base, hunks[n].before, style);
        assert forall|t: int| 0 <= t < front.len() implies (#[trigger] front[t]).before.start
            <= front[t].before.end <= words.len() by {
            assert(front[t] == hunks[t]);
        }
        lemma_out_words(words, base, front, style, p);
        lemma_stretch(words, base, hunks[n].before, style);
        assert(all == before + own);
        if exists|j: int| 0 <= j < all.len() && #[trigger] spans::holds(all[j], p) {
            let j = choose|j: int| 0 <= j < all.len() && #[trigger] spans::holds(all[j], p);
            if j < before.len() {
                assert(spans::holds(before[j], p));
                let t = choose|t: int|
                    0 <= t < front.len() && in_words(words, base, (#[trigger] front[t]).before, p);
                assert(in_words(words, base, hunks[t].before, p));
            } else {
                assert(spans::holds(own[j - before.len()], p));
                assert(in_words(words, base, hunks[n].before, p));
            }
        }
        if exists|t: int| 0 <= t < hunks.len() && in_words(words, base, (#[trigger] hunks[t]).before, p) {
            let t = choose|t: int|
                0 <= t < hunks.len() && in_words(words, base, (#[trigger] hunks[t]).before, p);
            if t < n {
                assert(in_words(words, base, front[t].before, p));
                let j = choose|j: int| 0 <= j < before.len() && #[trigger] spans::holds(before[j], p);
                assert(spans::holds(all[j], p));
            } else {
                assert(spans::holds(own[0], p));
                assert(all[before.len() as int] == own[0]);
                assert(spans::holds(all[before.len() as int], p));
            }
        }
    }
}

proof fn lemma_in_words(
    words: Seq<Seq<char>>,
    base: int,
    hunks: Seq<TokenHunk>,
    style: Style,
    p: int,
)
    requires
        0 <= base,
        base + text::total_len(words) <= usize::MAX,
        forall|t: int|
            0 <= t < hunks.len() ==> (#[trigger] hunks[t]).after.start <= hunks[t].after.end
                <= words.len(),
    ensures
        (exists|j: int|
            0 <= j < highlight::new_spans(words, base, hunks, style).len()
                && #[trigger] spans::holds(highlight::new_spans(words, base, hunks, style)[j], p))
            == (exists|t: int|
            0 <= t < hunks.len() && in_words(words, base, (#[trigger] hunks[t]).after, p)),
    decreases hunks.len(),
{
    let all = highlight::new_spans(words, base, hunks, style);
    if hunks.len() > 0 {
        let n = hunks.len() - 1;
        let front = hunks.drop_last();
        let before = highlight::new_spans(words, base, front, style);
        let own = highlight::stretch_span(words, base, hunks[n].after, style);
        assert forall|t: int| 0 <= t < front.len() implies (#[trigger] front[t]).after.start
            <= front[t].after.end <= words.len() by {
            assert(front[t] == hunks[t]);
        }
        lemma_in_words(words, base, front, style, p);
        lemma_stretch(words, base, hunks[n].after, style);
        assert(all == before + own);
        if exists|j: int| 0 <= j < all.len() && #[trigger] spans::holds(all[j], p) {
            let j = choose|j: int| 0 <= j < all.len() && #[trigger] spans::holds(all[j], p);
            if j < before.len() {
                assert(spans::holds(before[j], p));
                let t = choose|t: int|
                    0 <= t < front.len() && in_words(words, base, (#[trigger] front[t]).after, p);
                assert(in_words(words, base, hunks[t].after, p));
            } else {
                assert(spans::holds(own[j - before.len()], p));
                assert(in_words(words, base, hunks[n].after, p));
            }
        }
        if exists|t: int| 0 <= t < hunks.len() && in_words(words, base, (#[trigger] hunks[t]).after, p) {
            let t = choose|t: int|
                0 <= t < hunks.len() && in_words(words, base, (#[trigger] hunks[t]).after, p);
            if t < n {
                assert(in_words(words, base, front[t].after, p));
                let j = choose|j: int| 0 <= j < before.len() && #[trigger] spans::holds(before[j], p);
                assert(spans::holds(all[j], p));
            } else {
                assert(spans::holds(own[0], p));
                assert(all[before.len() as int] == own[0]);
                assert(spans::holds(all[before.len() as int], p));
            }
        }
    }
}

/// Whether spans paint what was taken out in one style and what was put in in another,
/// and nothing else.
spec fn paints(
    config: DiffHighlightConfig,
    all: Seq<Span>,
    out: bool,
    put: bool,
    p: int,
) -> bool {
    &&& forall|j: int|
        0 <= j < all.len() && #[trigger] spans::holds(all[j], p) ==> (out && all[j].1
            == config.changed_old) || (put && all[j].1 == config.changed_new)
    &&& out ==> exists|j: int|
        0 <= j < all.len() && #[trigger] spans::holds(all[j], p) && all[j].1 == config.changed_old
    &&& put ==> exists|j: int|
        0 <= j < all.len() && #[trigger] spans::holds(all[j], p) && all[j].1 == config.changed_new
}

proof fn lemma_paints_concat(
    config: DiffHighlightConfig,
    a: Seq<Span>,
    a_out: bool,
    a_put: bool,
    b: Seq<Span>,
    b_out: bool,
    b_put: bool,
    p: int,
)
    requires
        paints(config, a, a_out, a_put, p),
        paints(config, b, b_out, b_put, p),
    ensures
        paints(config, a + b, a_out || b_out, a_put || b_put, p),
{
    let all = a + b;
    assert forall|j: int| 0 <= j < a.len() implies spans::holds(all[j], p) == #[trigger] spans::holds(
        a[j],
        p,
    ) && all[j] == a[j] by {}
    assert forall|j: int| 0 <= j < b.len() implies spans::holds(all[a.len() + j], p)
        == #[trigger] spans::holds(b[j], p) && all[a.len() + j] == b[j] by {}
    assert forall|j: int| 0 <= j < all.len() && #[trigger] spans::holds(all[j], p) implies ((a_out
        || b_out) && all[j].1 == config.changed_old) || ((a_put || b_put) && all[j].1
        == config.changed_new) by {
        if j < a.len() {
            assert(spans::holds(a[j], p));
        } else {
            assert(spans::holds(b[j - a.len()], p));
        }
    }
}

proof fn lemma_change(
    config: DiffHighlightConfig,
    body: Seq<char>,
    base: int,
    change: Change,
    p: int,
)
    requires
        highlight::change_fits(body, base, change),
        highlight::words_fit(body, base, change),
        text::byte_len(body) <= usize::MAX,
    ensures
        paints(
            config,
            highlight::change_spans(config, body, base, change),
            taken_out_at(body, base, change, p),
            put_in_at(body, base, change, p),
            p,
        ),
{
    let old = highlight::words_of(
        text::slice(body, change.old.start - base, change.old.end - base),
    );
    let new = highlight::words_of(
        text::slice(body, change.new.start - base, change.new.end - base),
    );
    let hunks = highlight::token_diff(old, new);
    reveal(taken_out_at);
    reveal(put_in_at);
    let (from, to) = (change.old.start - base, change.new.start - base);
    text::lemma_boundary(body, change.old.end - base);
    text::lemma_boundary(body, change.new.end - base);
    lemma_out_words(old, from, hunks, config.changed_old, p);
    lemma_in_words(new, to, hunks, config.changed_new, p);
    highlight::lemma_span_styles(old, from, hunks, config.changed_old);
    highlight::lemma_span_styles(new, to, hunks, config.changed_new);
    let out_spans = highlight::old_spans(old, from, hunks, config.changed_old);
    let in_spans = highlight::new_spans(new, to, hunks, config.changed_new);
    assert(paints(config, out_spans, taken_out_at(body, base, change, p), false, p));
    assert(paints(config, in_spans, false, put_in_at(body, base, change, p), p));
    lemma_paints_concat(
        config,
        out_spans,
        taken_out_at(body, base, change, p),
        false,
        in_spans,
        false,
        put_in_at(body, base, change, p),
        p,
    );
}

proof fn lemma_changes(
    config: DiffHighlightConfig,
    body: Seq<char>,
    base: int,
    changes: Seq<Change>,
    p: int,
)
    requires
        forall|c: int|
            0 <= c < changes.len() ==> highlight::change_fits(body, base, #[trigger] changes[c]),
        forall|c: int|
            0 <= c < changes.len() ==> highlight::words_fit(body, base, #[trigger] changes[c]),
        text::byte_len(body) <= usize::MAX,
    ensures
        paints(
            config,
            highlight::changed_spans(config, body, base, changes),
            exists|c: int|
                0 <= c < changes.len() && taken_out_at(body, base, #[trigger] changes[c], p),
            exists|c: int|
                0 <= c < changes.len() && put_in_at(body, base, #[trigger] changes[c], p),
            p,
        ),
    decreases changes.len(),
{
    if changes.len() > 0 {
        let n = changes.len() - 1;
        let front = changes.drop_last();
        assert forall|c: int| 0 <= c < front.len() implies highlight::change_fits(
            body,
            base,
            #[trigger] front[c],
        ) && highlight::words_fit(body, base, front[c]) by {
            assert(front[c] == changes[c]);
            assert(highlight::change_fits(body, base, changes[c]));
        }
        lemma_changes(config, body, base, front, p);
        assert(highlight::change_fits(body, base, changes[n]));
        lemma_change(config, body, base, changes[n], p);
        let front_out = exists|c: int|
            0 <= c < front.len() && taken_out_at(body, base, #[trigger] front[c], p);
        let front_put = exists|c: int|
            0 <= c < front.len() && put_in_at(body, base, #[trigger] front[c], p);
        let out = exists|c: int|
            0 <= c < changes.len() && taken_out_at(body, base, #[trigger] changes[c], p);
        let put = exists|c: int|
            0 <= c < changes.len() && put_in_at(body, base, #[trigger] changes[c], p);
        lemma_paints_concat(
            config,
            highlight::changed_spans(config, body, base, front),
            front_out,
            front_put,
            highlight::change_spans(config, body, base, changes[n]),
            taken_out_at(body, base, changes[n], p),
            put_in_at(body, base, changes[n], p),
            p,
        );
        if front_out {
            let c = choose|c: int|
                0 <= c < front.len() && taken_out_at(body, base, #[trigger] front[c], p);
            assert(taken_out_at(body, base, changes[c], p));
        }
        if front_put {
            let c = choose|c: int|
                0 <= c < front.len() && put_in_at(body, base, #[trigger] front[c], p);
            assert(put_in_at(body, base, changes[c], p));
        }
        if out {
            let c = choose|c: int|
                0 <= c < changes.len() && taken_out_at(body, base, #[trigger] changes[c], p);
            assert(c < n ==> taken_out_at(body, base, front[c], p));
        }
        if put {
            let c = choose|c: int|
                0 <= c < changes.len() && put_in_at(body, base, #[trigger] changes[c], p);
            assert(c < n ==> put_in_at(body, base, front[c], p));
        }
    }
}

proof fn lemma_change_spread(
    config: DiffHighlightConfig,
    body: Seq<char>,
    base: int,
    change: Change,
)
    requires
        highlight::change_fits(body, base, change),
        highlight::words_fit(body, base, change),
        change.old.end <= change.new.start,
        text::byte_len(body) <= usize::MAX,
    ensures
        spans::spread(
            highlight::change_spans(config, body, base, change),
            change.old.start - base,
            change.new.end - base,
        ),
{
    let old = highlight::words_of(
        text::slice(body, change.old.start - base, change.old.end - base),
    );
    let new = highlight::words_of(
        text::slice(body, change.new.start - base, change.new.end - base),
    );
    let hunks = highlight::token_diff(old, new);
    let (from, to) = (change.old.start - base, change.new.start - base);
    text::lemma_boundary(body, change.old.end - base);
    text::lemma_boundary(body, change.new.end - base);
    highlight::lemma_old_spans(old, from, hunks, config.changed_old, new.len());
    highlight::lemma_new_spans(new, to, hunks, config.changed_new, old.len());
    assert(old.take(old.len() as int) =~= old);
    assert(new.take(new.len() as int) =~= new);
    if hunks.len() > 0 {
        assert(hunks.last() == hunks[hunks.len() - 1]);
        text::lemma_total_len_take(old, hunks.last().before.end as int, old.len() as int);
        text::lemma_total_len_take(new, hunks.last().after.end as int, new.len() as int);
    }
    spans::lemma_spread_concat(
        highlight::old_spans(old, from, hunks, config.changed_old),
        highlight::new_spans(new, to, hunks, config.changed_new),
        from,
        to,
        change.new.end - base,
    );
}

proof fn lemma_changes_spread(
    config: DiffHighlightConfig,
    body: Seq<char>,
    base: int,
    changes: Seq<Change>,
)
    requires
        forall|c: int|
            0 <= c < changes.len() ==> highlight::change_fits(body, base, #[trigger] changes[c]),
        forall|c: int|
            0 <= c < changes.len() ==> highlight::words_fit(body, base, #[trigger] changes[c]),
        diff::changes_ordered(changes),
        text::byte_len(body) <= usize::MAX,
    ensures
        spans::spread(
            highlight::changed_spans(config, body, base, changes),
            0,
            if changes.len() == 0 {
                0
            } else {
                changes.last().new.end - base
            },
        ),
    decreases changes.len(),
{
    if changes.len() > 0 {
        let n = changes.len() - 1;
        let front = changes.drop_last();
        let change = changes[n];
        assert forall|c: int| 0 <= c < front.len() implies highlight::change_fits(
            body,
            base,
            #[trigger] front[c],
        ) && highlight::words_fit(body, base, front[c]) by {
            assert(front[c] == changes[c]);
            assert(highlight::change_fits(body, base, changes[c]));
        }
        assert forall|i: int, j: int| 0 <= i < j < front.len() implies (
        #[trigger] front[i]).new.end <= (#[trigger] front[j]).old.start by {
            assert(front[i] == changes[i] && front[j] == changes[j]);
        }
        assert forall|i: int| 0 <= i < front.len() implies (#[trigger] front[i]).old.end
            <= front[i].new.start by {
            assert(front[i] == changes[i]);
        }
        lemma_changes_spread(config, body, base, front);
        assert(highlight::change_fits(body, base, change));
        lemma_change_spread(config, body, base, change);
        if n > 0 {
            assert(changes[n - 1].new.end <= change.old.start);
            assert(front.last() == changes[n - 1]);
        }
        spans::lemma_spread_concat(
            highlight::changed_spans(config, body, base, front),
            highlight::change_spans(config, body, base, change),
            0,
            change.old.start - base,
            change.new.end - base,
        );
    }
}

/// Whether the changes of a hunk follow one another in it, and the words of each make it
/// up.
pub open spec fn changes_known(body: Seq<char>, hunk: Hunk) -> bool {
    &&& highlight::changes_fit(body, hunk)
    &&& diff::changes_ordered(hunk.content.changes@)
    &&& forall|c: int|
        0 <= c < hunk.content.changes@.len() ==> highlight::words_fit(
            body,
            hunk.content.range.start as int,
            #[trigger] hunk.content.changes@[c],
        )
}

/// Words that a change replaced are painted as such, words that it put in as such, and
/// what is neither as neither.
pub proof fn changed_words_are_painted(
    config: DiffHighlightConfig,
    body: Seq<char>,
    hunk: Hunk,
    k: int,
    p: int,
)
    ensures
        changes_known(body, hunk) && text::byte_len(body) <= usize::MAX ==> ({
            let all = highlight::diff_highlights(config, body, hunk);
            &&& spans::tiles(all, 0, text::byte_len(body) as int)
            &&& 0 <= k < all.len() && spans::holds(all[k], p) ==> all[k].1 == change_paint(
                config,
                body,
                hunk.content.range.start as int,
                hunk.content.changes@,
                p,
            )
        }),
{
    if changes_known(body, hunk) && text::byte_len(body) <= usize::MAX {
        let base = hunk.content.range.start as int;
        let changes = hunk.content.changes@;
        let ranges = highlight::changed_spans(config, body, base, changes);
        let end = text::byte_len(body) as int;
        assert forall|c: int| 0 <= c < changes.len() implies highlight::change_fits(
            body,
            base,
            #[trigger] changes[c],
        ) by {}
        lemma_changes_spread(config, body, base, changes);
        if changes.len() > 0 {
            assert(changes.last() == changes[changes.len() - 1]);
            text::lemma_boundary(body, changes.last().new.end - base);
        }
        assert(spans::spread(Seq::<Span>::empty(), end, end));
        spans::lemma_spread_concat(ranges, Seq::<Span>::empty(), 0, end, end);
        assert(ranges + Seq::<Span>::empty() =~= ranges);
        spans::fill_gaps_tiles(0, end, ranges, config.unchanged_old);
        let all = highlight::diff_highlights(config, body, hunk);
        if 0 <= k < all.len() && spans::holds(all[k], p) {
            lemma_changes(config, body, base, changes, p);
            let out = exists|c: int|
                0 <= c < changes.len() && taken_out_at(body, base, #[trigger] changes[c], p);
            let put = exists|c: int|
                0 <= c < changes.len() && put_in_at(body, base, #[trigger] changes[c], p);
            if out {
                let j = choose|j: int|
                    0 <= j < ranges.len() && #[trigger] spans::holds(ranges[j], p) && ranges[j].1
                        == config.changed_old;
                assert(spans::holds(ranges[j], p));
            } else if put {
                let j = choose|j: int|
                    0 <= j < ranges.len() && #[trigger] spans::holds(ranges[j], p) && ranges[j].1
                        == config.changed_new;
                assert(spans::holds(ranges[j], p));
            } else {
                assert forall|j: int| 0 <= j < ranges.len() implies !#[trigger] spans::holds(
                    ranges[j],
                    p,
                ) by {}
            }
        }
    }
}

// ---------------------------------------------------------------------------
// Everything
// ---------------------------------------------------------------------------

/// The lines of a hunk show the code of both sides, what changed and the markers, each
/// where it is, and the later over the earlier.
pub proof fn hunks_are_painted(
    config: HighlightConfig,
    body: Seq<char>,
    hunk: Hunk,
    old_tags: Seq<(Range<usize>, SyntaxTag)>,
    new_tags: Seq<(Range<usize>, SyntaxTag)>,
)
    requires
        text::byte_len(body) <= usize::MAX,
        highlight::tags_spread(old_tags, text::byte_len(body) as int),
        highlight::tags_spread(new_tags, text::byte_len(body) as int),
    ensures
        changes_known(body, hunk) ==> painted(
            config,
            body,
            hunk,
            old_tags,
            new_tags,
            highlight::by_line(body, highlight::layers(config, body, hunk, old_tags, new_tags)),
        ),
{
    if changes_known(body, hunk) {
        let length = text::byte_len(body) as int;
        let a = highlight::syntax_highlights(config.syntax, length, old_tags);
        let b = highlight::syntax_highlights(config.syntax, length, new_tags);
        let c = highlight::diff_highlights(config.diff, body, hunk);
        let d = highlight::context_highlights(config.diff, body);
        let all = highlight::layers(config, body, hunk, old_tags, new_tags);
        let lines = highlight::by_line(body, all);
        lemma_syntax(config.syntax, length, old_tags);
        lemma_syntax(config.syntax, length, new_tags);
        changed_words_are_painted(config.diff, body, hunk, 0, 0);
        highlight::context_highlights_tile(config.diff, body);
        highlight::layers_show(a, b, c, d, length);
        assert forall|i: int|
            0 <= i < lines.len() && seen_len(text::lines(body)[i]) > 0 implies spans::tiles(
            #[trigger] lines[i],
            0,
            seen_len(text::lines(body)[i]),
        ) by {
            highlight::lines_in_order(body, i);
            spans::cut_out_tiles(all, 0, length, highlight::visual_range(body, i));
        }
        assert forall|i: int, k: int, q: int|
            0 <= i < lines.len() && 0 <= k < lines[i].len() && 0 <= q < seen_len(
                text::lines(body)[i],
            ) && #[trigger] spans::holds(lines[i][k], q) implies lines[i][k].1 == paint(
            config,
            body,
            hunk,
            old_tags,
            new_tags,
            i,
            q,
        ) by {
            let p = highlight::line_start(body, i) + q;
            highlight::lines_in_order(body, i);
            spans::cut_out_tiles(all, 0, length, highlight::visual_range(body, i));
            let w = spans::lemma_tiles_hold(a, 0, length, p);
            let x = spans::lemma_tiles_hold(b, 0, length, p);
            let y = spans::lemma_tiles_hold(c, 0, length, p);
            let z = spans::lemma_tiles_hold(d, 0, length, p);
            let o = spans::lemma_tiles_hold(all, 0, length, p);
            assert(spans::holds(a[w], p) && spans::holds(b[x], p));
            assert(spans::holds(c[y], p) && spans::holds(d[z], p));
            assert(spans::holds(all[o], p));
            changed_words_are_painted(config.diff, body, hunk, y, p);
            lemma_markers(config.diff, body, i, q, z);
            assert(lines[i][k].1 == all[o].1);
        }
    }
}

/// A file is painted like the code it is: the lines of it show the code, each where it
/// is.
pub proof fn files_are_painted(
    config: SyntaxHighlightConfig,
    content: Seq<char>,
    tags: Seq<(Range<usize>, SyntaxTag)>,
    i: int,
    k: int,
    q: int,
)
    requires
        text::byte_len(content) <= usize::MAX,
        highlight::tags_spread(tags, text::byte_len(content) as int),
        0 <= i < text::lines(content).len(),
        0 <= q < seen_len(text::lines(content)[i]),
    ensures
        ({
            let lines = highlight::by_line(
                content,
                highlight::syntax_highlights(config, text::byte_len(content) as int, tags),
            );
            &&& lines.len() == text::lines(content).len()
            &&& spans::tiles(lines[i], 0, seen_len(text::lines(content)[i]))
            &&& 0 <= k < lines[i].len() && spans::holds(lines[i][k], q) ==> lines[i][k].1
                == syntax_paint(
                config,
                tags,
                text::total_len(text::lines(content).take(i)) + q,
            )
        }),
{
    let length = text::byte_len(content) as int;
    let all = highlight::syntax_highlights(config, length, tags);
    let lines = highlight::by_line(content, all);
    let p = highlight::line_start(content, i) + q;
    lemma_syntax(config, length, tags);
    highlight::lines_in_order(content, i);
    spans::cut_out_tiles(all, 0, length, highlight::visual_range(content, i));
    let o = spans::lemma_tiles_hold(all, 0, length, p);
    assert(spans::holds(all[o], p));
    if 0 <= k < lines[i].len() && spans::holds(lines[i][k], q) {
        assert(lines[i][k].1 == all[o].1);
    }
}

/// The code of each side shows: where the other side has none and nothing else paints
/// over it, it is what is seen.
pub proof fn both_sides_show(
    config: SyntaxHighlightConfig,
    old_tags: Seq<(Range<usize>, SyntaxTag)>,
    new_tags: Seq<(Range<usize>, SyntaxTag)>,
    p: int,
    t: int,
)
    requires
        config.enabled,
    ensures
        0 <= t < old_tags.len() && tag_holds(old_tags[t], p) && (forall|u: int|
            0 <= u < new_tags.len() ==> !#[trigger] tag_holds(new_tags[u], p)) && (forall|u: int|
            0 <= u < old_tags.len() && #[trigger] tag_holds(old_tags[u], p) ==> u == t)
            ==> style::patched(
            syntax_paint(config, old_tags, p),
            syntax_paint(config, new_tags, p),
        ) == highlight::tag_style(config, old_tags[t].1),
        0 <= t < new_tags.len() && tag_holds(new_tags[t], p) && (forall|u: int|
            0 <= u < old_tags.len() ==> !#[trigger] tag_holds(old_tags[u], p)) && (forall|u: int|
            0 <= u < new_tags.len() && #[trigger] tag_holds(new_tags[u], p) ==> u == t)
            ==> style::patched(
            syntax_paint(config, old_tags, p),
            syntax_paint(config, new_tags, p),
        ) == highlight::tag_style(config, new_tags[t].1),
{
    style::patch_with_plain(syntax_paint(config, old_tags, p));
    style::patch_onto_plain(syntax_paint(config, new_tags, p));
}

/// Every kind of code is painted in the style that is set for it, and no other kind is.
pub proof fn kinds_of_code_are_told_apart(config: SyntaxHighlightConfig, tag: SyntaxTag, s: Style)
    ensures
        highlight::tag_style((SyntaxHighlightConfig { attribute: s, ..config }), tag) == (if tag
            == SyntaxTag::Attribute {
            s
        } else {
            highlight::tag_style(config, tag)
        }),
        highlight::tag_style((SyntaxHighlightConfig { comment: s, ..config }), tag) == (if tag
            == SyntaxTag::Comment {
            s
        } else {
            highlight::tag_style(config, tag)
        }),
        highlight::tag_style((SyntaxHighlightConfig { constant: s, ..config }), tag) == (if tag
            == SyntaxTag::Constant {
            s
        } else {
            highlight::tag_style(config, tag)
        }),
        highlight::tag_style((SyntaxHighlightConfig { constant_builtin: s, ..config }), tag) == (if tag
            == SyntaxTag::ConstantBuiltin {
            s
        } else {
            highlight::tag_style(config, tag)
        }),
        highlight::tag_style((SyntaxHighlightConfig { constructor: s, ..config }), tag) == (if tag
            == SyntaxTag::Constructor {
            s
        } else {
            highlight::tag_style(config, tag)
        }),
        highlight::tag_style((SyntaxHighlightConfig { embedded: s, ..config }), tag) == (if tag
            == SyntaxTag::Embedded {
            s
        } else {
            highlight::tag_style(config, tag)
        }),
        highlight::tag_style((SyntaxHighlightConfig { function: s, ..config }), tag) == (if tag
            == SyntaxTag::Function {
            s
        } else {
            highlight::tag_style(config, tag)
        }),
        highlight::tag_style((SyntaxHighlightConfig { function_builtin: s, ..config }), tag) == (if tag
            == SyntaxTag::FunctionBuiltin {
            s
        } else {
            highlight::tag_style(config, tag)
        }),
        highlight::tag_style((SyntaxHighlightConfig { keyword: s, ..config }), tag) == (if tag
            == SyntaxTag::Keyword {
            s
        } else {
            highlight::tag_style(config, tag)
        }),
        highlight::tag_style((SyntaxHighlightConfig { module: s, ..config }), tag) == (if tag
            == SyntaxTag::Module {
            s
        } else {
            highlight::tag_style(config, tag)
        }),
        highlight::tag_style((SyntaxHighlightConfig { number: s, ..config }), tag) == (if tag
            == SyntaxTag::Number {
            s
        } else {
            highlight::tag_style(config, tag)
        }),
        highlight::tag_style((SyntaxHighlightConfig { operator: s, ..config }), tag) == (if tag
            == SyntaxTag::Operator {
            s
        } else {
            highlight::tag_style(config, tag)
        }),
        highlight::tag_style((SyntaxHighlightConfig { property: s, ..config }), tag) == (if tag
            == SyntaxTag::Property {
            s
        } else {
            highlight::tag_style(config, tag)
        }),
        highlight::tag_style((SyntaxHighlightConfig { punctuation_bracket: s, ..config }), tag) == (if tag
            == SyntaxTag::PunctuationBracket {
            s
        } else {
            highlight::tag_style(config, tag)
        }),
        highlight::tag_style((SyntaxHighlightConfig { punctuation_delimiter: s, ..config }), tag) == (if tag
            == SyntaxTag::PunctuationDelimiter {
            s
        } else {
            highlight::tag_style(config, tag)
        }),
        highlight::tag_style((SyntaxHighlightConfig { string: s, ..config }), tag) == (if tag
            == SyntaxTag::String {
            s
        } else {
            highlight::tag_style(config, tag)
        }),
        highlight::tag_style((SyntaxHighlightConfig { string_special: s, ..config }), tag) == (if tag
            == SyntaxTag::StringSpecial {
            s
        } else {
            highlight::tag_style(config, tag)
        }),
        highlight::tag_style((SyntaxHighlightConfig { tag: s, ..config }), tag) == (if tag
            == SyntaxTag::Tag {
            s
        } else {
            highlight::tag_style(config, tag)
        }),
        highlight::tag_style((SyntaxHighlightConfig { type_builtin: s, ..config }), tag) == (if tag
            == SyntaxTag::TypeBuiltin {
            s
        } else {
            highlight::tag_style(config, tag)
        }),
        highlight::tag_style((SyntaxHighlightConfig { type_regular: s, ..config }), tag) == (if tag
            == SyntaxTag::TypeRegular {
            s
        } else {
            highlight::tag_style(config, tag)
        }),
        highlight::tag_style((SyntaxHighlightConfig { variable_builtin: s, ..config }), tag) == (if tag
            == SyntaxTag::VariableBuiltin {
            s
        } else {
            highlight::tag_style(config, tag)
        }),
        highlight::tag_style((SyntaxHighlightConfig { variable_parameter: s, ..config }), tag) == (if tag
            == SyntaxTag::VariableParameter {
            s
        } else {
            highlight::tag_style(config, tag)
        }),
{
}

/// What a colorizer printed before the lines of a hunk makes no difference.
pub proof fn colorizers_may_print_more(
    before: Seq<diff_colorizer::Row>,
    rows: Seq<diff_colorizer::Row>,
    body: Seq<char>,
)
    requires
        rows.len() == text::lines(body).len(),
    ensures
        highlight::last_runs(before + rows, body) == rows.map_values(
            |row: diff_colorizer::Row| row.runs,
        ),
        highlight::reproduces(before + rows, body) <==> forall|i: int|
            0 <= i < rows.len() ==> (#[trigger] rows[i]).text == text::lines(body)[i].take(
                text::lines(body)[i].len() - (if text::lines(body)[i].len() >= 2
                    && text::lines(body)[i][text::lines(body)[i].len() - 2] == '\r'
                    && text::lines(body)[i].last() == '\n' {
                    2int
                } else {
                    1
                }),
            ),
{
    let all = before + rows;
    let lines = text::lines(body);
    assert(highlight::last_runs(all, body) =~= rows.map_values(
        |row: diff_colorizer::Row| row.runs,
    ));
    assert forall|i: int| 0 <= i < rows.len() implies #[trigger] rows[i] == all[all.len()
        - lines.len() + i] by {}
    if highlight::reproduces(all, body) {
        assert forall|i: int| 0 <= i < rows.len() implies (#[trigger] rows[i]).text
            == highlight::visual_line(lines[i]) by {
            assert(all[all.len() - lines.len() + i].text == highlight::visual_line(lines[i]));
        }
    }
}

// ---------------------------------------------------------------------------
// Lines
// ---------------------------------------------------------------------------

/// What is seen of a line starts where the lines before it end, and is the line without
/// what ends it.
pub proof fn lines_are_seen_without_their_ending(content: Seq<char>, i: int)
    requires
        0 <= i < text::lines(content).len(),
        text::byte_len(content) <= usize::MAX,
    ensures
        ({
            let range = highlight::visual_range(content, i);
            &&& range.start == text::total_len(text::lines(content).take(i))
            &&& range.end - range.start == seen_len(text::lines(content)[i])
        }),
{
    highlight::lines_in_order(content, i);
}

/// Some texts take together as many bytes as each of them.
pub proof fn lengths_add_up(parts: Seq<Seq<char>>, part: Seq<char>)
    ensures
        text::total_len(parts.push(part)) == text::total_len(parts) + text::byte_len(part),
        text::total_len(seq![]) == 0,
{
    assert(parts.push(part).drop_last() =~= parts);
    let all = parts.push(part);
    assert(all.take(all.len() as int) =~= all);
    assert(all.take(parts.len() as int) =~= parts);
    text::lemma_total_len_step(all, parts.len() as int);
}

} // verus!
