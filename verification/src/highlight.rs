//! How hunks and files are coloured: syntax, changed words, `+`/`-` markers, or
//! whatever an external colorizer made of them.

use crate::diff;
use crate::diff::{Change, Diff, Hunk};
use crate::diff_colorizer;
use crate::laws::painting;
use crate::spans;
use crate::spans::{Span, SpanCursor};
use crate::style;
use crate::style::Style;
use crate::text;
use imara_diff::{Algorithm, InternedInput};
use std::ops::Range;
use unicode_segmentation::UnicodeSegmentation;
use vstd::prelude::*;

verus! {

// ---------------------------------------------------------------------------
// Lines
// ---------------------------------------------------------------------------

/// Whether a line ends in a carriage return and a newline.
pub open spec fn ends_crlf(line: Seq<char>) -> bool {
    line.len() >= 2 && line[line.len() - 2] == '\r' && line.last() == '\n'
}

/// How many bytes of a line are drawn: all but what ends it.
pub open spec fn visual_len(line: Seq<char>) -> int {
    text::byte_len(line) - if ends_crlf(line) {
        2int
    } else {
        1int
    }
}

/// Where the `i`th line of a text starts.
pub open spec fn line_start(content: Seq<char>, i: int) -> int {
    text::total_len(text::lines(content).take(i)) as int
}

/// Where the drawn part of the `i`th line of a text ends.
pub open spec fn visual_end(content: Seq<char>, i: int) -> int {
    line_start(content, i) + visual_len(text::lines(content)[i])
}

/// The byte range of what is drawn of the `i`th line of a text.
pub open spec fn visual_range(content: Seq<char>, i: int) -> Range<usize> {
    Range { start: line_start(content, i) as usize, end: visual_end(content, i) as usize }
}

/// A line starts after the one before it ends, and there is no room for it to be
/// drawn past its end.
pub proof fn lines_in_order(content: Seq<char>, i: int)
    requires
        0 <= i < text::lines(content).len(),
    ensures
        0 <= line_start(content, i) <= visual_end(content, i) < line_start(content, i + 1)
            <= text::byte_len(content),
        text::boundary(content, line_start(content, i)),
{
    let lines = text::lines(content);
    text::lemma_lines_concat(content);
    text::lemma_total_len_step(lines, i);
    text::lemma_total_len_take(lines, i + 1, lines.len() as int);
    text::lemma_parts(content, lines, i);
    let line = lines[i];
    assert(line.len() > 0);
    text::lemma_byte_len_at_least(line);
}

/// Whether a text ends in an `\r\n`.
fn has_crlf(line: &str) -> (has: bool)
    ensures
        has == ends_crlf(line@),
{
    let chars = text::to_chars(line);
    chars.len() >= 2 && chars[chars.len() - 2] == '\r' && chars[chars.len() - 1] == '\n'
}

/// Each line in a chunk of text, newline included, with the byte range of what
/// is drawn of it.
pub fn line_range_iterator<'a>(content: &'a str) -> (out: Vec<(Range<usize>, &'a str)>)
    ensures
        out@.len() == text::lines(content@).len(),
        forall|i: int|
            0 <= i < out@.len() ==> (#[trigger] out@[i]).0 == visual_range(content@, i)
                && out@[i].0.start == line_start(content@, i) && out@[i].0.end == visual_end(
                content@,
                i,
            ) && out@[i].1@ == text::lines(content@)[i],
{
    let lines = text::split_lines(content);
    let ghost all = text::lines(content@);
    let total = text::byte_length(content);
    let mut out: Vec<(Range<usize>, &'a str)> = Vec::new();
    let mut start: usize = 0;
    let mut i: usize = 0;
    proof {
        text::lemma_total_len_take(all, 0, 0);
        assert(lines@.len() == text::views(lines@).len());
    }
    while i < lines.len()
        invariant
            i <= lines@.len(),
            all == text::lines(content@),
            text::views(lines@) == all,
            lines@.len() == all.len(),
            total == text::byte_len(content@),
            start == line_start(content@, i as int),
            out@.len() == i,
            forall|k: int|
                0 <= k < out@.len() ==> (#[trigger] out@[k]).0 == visual_range(content@, k)
                    && out@[k].0.start == line_start(content@, k) && out@[k].0.end == visual_end(
                    content@,
                    k,
                ) && out@[k].1@ == all[k],
        decreases lines@.len() - i,
    {
        let line = lines[i];
        proof {
            assert(all[i as int] == line@);
            lines_in_order(content@, i as int);
            text::lemma_total_len_step(all, i as int);
        }
        let length = text::byte_length(line);
        let visual = if has_crlf(line) {
            length - 2
        } else {
            length - 1
        };
        out.push((start..start + visual, line));
        start += length;
        i += 1;
    }
    out
}

// ---------------------------------------------------------------------------
// Highlights, line by line
// ---------------------------------------------------------------------------

/// Styled segments of some lines, each counted from the start of its line.
pub struct HunkHighlights {
    pub spans: Vec<Span>,
    pub line_index: Vec<Range<usize>>,
}

/// Whether each line's segments are among those there are.
pub open spec fn indexed(spans: Seq<Span>, line_index: Seq<Range<usize>>) -> bool {
    forall|i: int|
        0 <= i < line_index.len() ==> (#[trigger] line_index[i]).start <= line_index[i].end
            <= spans.len()
}

/// The segments of each line.
pub open spec fn segments(spans: Seq<Span>, line_index: Seq<Range<usize>>) -> Seq<Seq<Span>> {
    line_index.map_values(|range: Range<usize>| spans.subrange(range.start as int, range.end as int))
}

impl HunkHighlights {
    pub open spec fn wf(&self) -> bool {
        indexed(self.spans@, self.line_index@)
    }

    /// The segments of each line.
    pub open spec fn lines(&self) -> Seq<Seq<Span>> {
        segments(self.spans@, self.line_index@)
    }

    /// No lines yet.
    pub fn new() -> (highlights: HunkHighlights)
        ensures
            highlights.wf(),
            highlights.lines() == Seq::<Seq<Span>>::empty(),
            highlights.spans@ == Seq::<Span>::empty(),
            highlights.line_index@ == Seq::<Range<usize>>::empty(),
    {
        let highlights = HunkHighlights { spans: Vec::new(), line_index: Vec::new() };
        assert(highlights.lines() =~= Seq::<Seq<Span>>::empty());
        highlights
    }

    /// Get highlight segments for a given hunk line.
    pub fn get_line_highlights(&self, line: usize) -> (segments: &[Span])
        requires
            self.wf(),
            line < self.lines().len(),
        ensures
            segments@ == self.lines()[line as int],
    {
        let range = &self.line_index[line];
        vstd::slice::slice_subrange(self.spans.as_slice(), range.start, range.end)
    }

    /// One more line, with some segments.
    pub fn push_segments(&mut self, segments: &Vec<Span>)
        requires
            old(self).wf(),
        ensures
            final(self).wf(),
            final(self).lines() == old(self).lines().push(segments@),
    {
        let start = self.spans.len();
        let ghost before = self.spans@;
        push_all(&mut self.spans, segments);
        proof {
            assert(before =~= self.spans@.subrange(0, before.len() as int));
            lemma_segments_grow(before, self.spans@, self.line_index@);
            assert(self.spans@.subrange(start as int, self.spans@.len() as int) =~= segments@);
        }
        self.push_line(start);
    }

    /// Make one more line of the segments from `start` on.
    fn push_line(&mut self, start: usize)
        requires
            old(self).wf(),
            start <= old(self).spans@.len(),
        ensures
            final(self).wf(),
            final(self).spans == old(self).spans,
            final(self).lines() == old(self).lines().push(
                old(self).spans@.subrange(start as int, old(self).spans@.len() as int),
            ),
    {
        let end = self.spans.len();
        self.line_index.push(start..end);
        proof {
            assert(self.lines() =~= old(self).lines().push(
                old(self).spans@.subrange(start as int, old(self).spans@.len() as int),
            ));
        }
    }
}

proof fn lemma_segments_grow(before: Seq<Span>, after: Seq<Span>, line_index: Seq<Range<usize>>)
    requires
        indexed(before, line_index),
        before.is_prefix_of(after),
    ensures
        indexed(after, line_index),
        segments(after, line_index) == segments(before, line_index),
{
    assert forall|i: int| 0 <= i < line_index.len() implies #[trigger] segments(
        after,
        line_index,
    )[i] == segments(before, line_index)[i] by {
        let range = line_index[i];
        assert(after.subrange(range.start as int, range.end as int) =~= before.subrange(
            range.start as int,
            range.end as int,
        ));
    }
    assert(segments(after, line_index) =~= segments(before, line_index));
}

/// What falls of `spans` on each line of a text.
pub open spec fn by_line(content: Seq<char>, all: Seq<Span>) -> Seq<Seq<Span>> {
    Seq::new(
        text::lines(content).len(),
        |i: int| spans::cut_out(all, visual_range(content, i)),
    )
}

/// Hand each line of a text what falls of `spans` on it.
fn split_by_line(content: &str, all: Vec<Span>) -> (highlights: HunkHighlights)
    ensures
        highlights.wf(),
        highlights.lines() == by_line(content@, all@),
{
    let ghost whole = all@;
    let lines = line_range_iterator(content);
    let mut cursor = SpanCursor::new(all);
    let mut highlights = HunkHighlights::new();
    let mut i: usize = 0;
    while i < lines.len()
        invariant
            i <= lines@.len(),
            lines@.len() == text::lines(content@).len(),
            forall|k: int|
                0 <= k < lines@.len() ==> (#[trigger] lines@[k]).0 == visual_range(content@, k)
                    && lines@[k].0.start == line_start(content@, k) && lines@[k].0.end
                    == visual_end(content@, k),
            cursor.wf(),
            cursor.spans@ == whole,
            forall|k: int|
                0 <= k < cursor.at ==> (#[trigger] whole[k]).0.end <= line_start(
                    content@,
                    i as int,
                ),
            highlights.wf(),
            highlights.lines() == by_line(content@, whole).take(i as int),
        decreases lines@.len() - i,
    {
        let range = &lines[i].0;
        proof {
            lines_in_order(content@, i as int);
            spans::lemma_cut_out_skip(whole, cursor.at as int, *range);
        }
        let start = highlights.spans.len();
        let ghost before = highlights.spans@;
        let ghost index = highlights.line_index@;
        spans::collect_line_highlights(&mut cursor, range, &mut highlights.spans);
        proof {
            assert(before =~= highlights.spans@.subrange(0, before.len() as int));
            lemma_segments_grow(before, highlights.spans@, index);
            assert(highlights.spans@.subrange(start as int, highlights.spans@.len() as int)
                =~= spans::cut_out(whole, *range));
            assert(by_line(content@, whole).take(i + 1) =~= by_line(content@, whole).take(
                i as int,
            ).push(spans::cut_out(whole, *range)));
        }
        highlights.push_line(start);
        i += 1;
    }
    proof {
        assert(by_line(content@, whole).take(i as int) =~= by_line(content@, whole));
    }
    highlights
}

// ---------------------------------------------------------------------------
// Changed words
// ---------------------------------------------------------------------------

/// How a diff is drawn.
#[derive(Debug, Clone, Copy)]
pub struct DiffHighlightConfig {
    pub tag_old: Style,
    pub tag_new: Style,
    pub unchanged_old: Style,
    pub changed_old: Style,
    pub changed_new: Style,
}

/// The words a text splits into, what is between them included.
pub uninterp spec fn words_of(s: Seq<char>) -> Seq<Seq<char>>;

/// What the words of a text are.
pub open spec fn word_views(words: Seq<(usize, &str)>) -> Seq<Seq<char>> {
    words.map_values(|word: (usize, &str)| word.1@)
}

/// `UnicodeSegmentation::split_word_bound_indices`: the words go by their name;
/// together they are the text, none is empty, and each comes with the offset it
/// is found at.
#[verifier::external_body]
fn word_bounds<'a>(s: &'a str) -> (words: Vec<(usize, &'a str)>)
    ensures
        word_views(words@) == words_of(s@),
        word_views(words@).flatten() == s@,
        forall|i: int| 0 <= i < words@.len() ==> (#[trigger] words@[i]).1@.len() > 0,
        forall|i: int|
            0 <= i < words@.len() ==> (#[trigger] words@[i]).0 == text::total_len(
                words_of(s@).take(i),
            ),
{
    s.split_word_bound_indices().collect()
}

/// A stretch of tokens that was replaced by another.
#[derive(Debug)]
pub struct TokenHunk {
    pub before: Range<u32>,
    pub after: Range<u32>,
}

/// The stretches in which two lists of tokens differ.
pub uninterp spec fn token_diff(old: Seq<Seq<char>>, new: Seq<Seq<char>>) -> Seq<TokenHunk>;

/// Whether stretches lie in two lists of tokens, one after the other.
pub open spec fn token_hunks_in(hunks: Seq<TokenHunk>, old_len: nat, new_len: nat) -> bool {
    &&& forall|i: int|
        0 <= i < hunks.len() ==> (#[trigger] hunks[i]).before.start <= hunks[i].before.end
            <= old_len && hunks[i].after.start <= hunks[i].after.end <= new_len
    &&& forall|i: int, j: int|
        0 <= i < j < hunks.len() ==> (#[trigger] hunks[i]).before.end <= (
        #[trigger] hunks[j]).before.start && hunks[i].after.end <= hunks[j].after.start
}

/// `imara_diff::Diff::compute` with the histogram algorithm, and the hunks it
/// found: which ones goes by its name; they lie in the token lists, one after the
/// other. More tokens than an `i32` counts are refused there with a panic.
#[verifier::external_body]
fn token_hunks(old: &Vec<&str>, new: &Vec<&str>) -> (hunks: Vec<TokenHunk>)
    requires
        old@.len() < i32::MAX,
        new@.len() < i32::MAX,
    ensures
        hunks@ == token_diff(text::views(old@), text::views(new@)),
        token_hunks_in(hunks@, old@.len(), new@.len()),
{
    let mut input: InternedInput<&str> = InternedInput::default();
    input.update_before(old.iter().copied());
    input.update_after(new.iter().copied());
    imara_diff::Diff::compute(Algorithm::Histogram, &input)
        .hunks()
        .map(|hunk| TokenHunk { before: hunk.before, after: hunk.after })
        .collect()
}

/// A stretch of words as a span, the first word of all being at `base`. One
/// without words is no span.
pub open spec fn stretch_span(
    words: Seq<Seq<char>>,
    base: int,
    range: Range<u32>,
    style: Style,
) -> Seq<Span> {
    if range.start < range.end {
        seq![
            (
                Range {
                    start: (base + text::total_len(words.take(range.start as int))) as usize,
                    end: (base + text::total_len(words.take(range.end as int))) as usize,
                },
                style,
            ),
        ]
    } else {
        seq![]
    }
}

/// The stretches of old words that were replaced.
pub open spec fn old_spans(
    words: Seq<Seq<char>>,
    base: int,
    hunks: Seq<TokenHunk>,
    style: Style,
) -> Seq<Span>
    decreases hunks.len(),
{
    if hunks.len() == 0 {
        seq![]
    } else {
        old_spans(words, base, hunks.drop_last(), style) + stretch_span(
            words,
            base,
            hunks.last().before,
            style,
        )
    }
}

/// The stretches of new words that replaced others.
pub open spec fn new_spans(
    words: Seq<Seq<char>>,
    base: int,
    hunks: Seq<TokenHunk>,
    style: Style,
) -> Seq<Span>
    decreases hunks.len(),
{
    if hunks.len() == 0 {
        seq![]
    } else {
        new_spans(words, base, hunks.drop_last(), style) + stretch_span(
            words,
            base,
            hunks.last().after,
            style,
        )
    }
}

/// The words that were replaced and those put in their place, the first of the old
/// words being at `old_start` and the first of the new ones at `new_start`.
pub open spec fn replaced_spans(
    config: DiffHighlightConfig,
    old: Seq<Seq<char>>,
    old_start: int,
    new: Seq<Seq<char>>,
    new_start: int,
    hunks: Seq<TokenHunk>,
) -> Seq<Span> {
    old_spans(old, old_start, hunks, config.changed_old) + new_spans(
        new,
        new_start,
        hunks,
        config.changed_new,
    )
}

/// The words a change replaced, and those it put in their place, in a hunk that
/// starts at `base` of the whole text.
pub open spec fn change_spans(
    config: DiffHighlightConfig,
    body: Seq<char>,
    base: int,
    change: Change,
) -> Seq<Span> {
    let old = words_of(text::slice(body, change.old.start - base, change.old.end - base));
    let new = words_of(text::slice(body, change.new.start - base, change.new.end - base));
    replaced_spans(
        config,
        old,
        change.old.start - base,
        new,
        change.new.start - base,
        token_diff(old, new),
    )
}

/// The words all changes of a hunk replaced and put in.
pub open spec fn changed_spans(
    config: DiffHighlightConfig,
    body: Seq<char>,
    base: int,
    changes: Seq<Change>,
) -> Seq<Span>
    decreases changes.len(),
{
    if changes.len() == 0 {
        seq![]
    } else {
        changed_spans(config, body, base, changes.drop_last()) + change_spans(
            config,
            body,
            base,
            changes.last(),
        )
    }
}

/// Whether a span is of words that a change took out, in a hunk that starts at `base`
/// of the whole text.
pub open spec fn took_out(config: DiffHighlightConfig, base: int, change: Change, span: Span) -> bool {
    &&& span.1 == config.changed_old
    &&& change.old.start - base <= span.0.start <= span.0.end <= change.old.end - base
}

/// Whether a span is of words that a change put in.
pub open spec fn put_in(config: DiffHighlightConfig, base: int, change: Change, span: Span) -> bool {
    &&& span.1 == config.changed_new
    &&& change.new.start - base <= span.0.start <= span.0.end <= change.new.end - base
}

/// Whether a span is of words that some change took out.
pub open spec fn was_taken_out(
    config: DiffHighlightConfig,
    base: int,
    changes: Seq<Change>,
    span: Span,
) -> bool {
    exists|c: int| 0 <= c < changes.len() && took_out(config, base, #[trigger] changes[c], span)
}

/// Whether a span is of words that some change put in.
pub open spec fn was_put_in(
    config: DiffHighlightConfig,
    base: int,
    changes: Seq<Change>,
    span: Span,
) -> bool {
    exists|c: int| 0 <= c < changes.len() && put_in(config, base, #[trigger] changes[c], span)
}

/// Whether a change lies in a hunk that starts at `base` of the whole text.
pub open spec fn change_fits(body: Seq<char>, base: int, change: Change) -> bool {
    &&& base <= change.old.start <= change.old.end
    &&& text::boundary(body, change.old.start - base)
    &&& text::boundary(body, change.old.end - base)
    &&& base <= change.new.start <= change.new.end
    &&& text::boundary(body, change.new.start - base)
    &&& text::boundary(body, change.new.end - base)
}

/// Whether the words of both sides of a change make up what the change covers, and what
/// differs lies among them.
pub open spec fn words_fit(body: Seq<char>, base: int, change: Change) -> bool {
    let old = words_of(text::slice(body, change.old.start - base, change.old.end - base));
    let new = words_of(text::slice(body, change.new.start - base, change.new.end - base));
    &&& text::total_len(old) == change.old.end - change.old.start
    &&& text::total_len(new) == change.new.end - change.new.start
    &&& token_hunks_in(token_diff(old, new), old.len(), new.len())
}

/// Whether all changes of a hunk lie in it.
pub open spec fn changes_fit(body: Seq<char>, hunk: Hunk) -> bool {
    forall|i: int|
        0 <= i < hunk.content.changes@.len() ==> change_fits(
            body,
            hunk.content.range.start as int,
            #[trigger] hunk.content.changes@[i],
        )
}

/// Whether words come with their offsets, in a text that starts at `base`.
#[verifier::opaque]
pub open spec fn words_at(words: Seq<(usize, &str)>, base: int) -> bool {
    &&& base + text::total_len(word_views(words)) <= usize::MAX
    &&& forall|i: int|
        0 <= i < words.len() ==> (#[trigger] words[i]).0 == text::total_len(
            word_views(words).take(i),
        )
}

/// Append a stretch of words.
fn push_stretch(
    out: &mut Vec<Span>,
    words: &Vec<(usize, &str)>,
    base: usize,
    range: &Range<u32>,
    style: Style,
)
    requires
        range.start <= range.end <= words@.len(),
        words_at(words@, base as int),
    ensures
        final(out)@ == old(out)@ + stretch_span(word_views(words@), base as int, *range, style),
{
    let ghost all = word_views(words@);
    let ghost before = out@;
    if range.start < range.end {
        let first = &words[range.start as usize];
        let last = &words[range.end as usize - 1];
        let ghost (from, to) = (range.start as int, range.end as int);
        proof {
            assert(first.0 == text::total_len(all.take(from)) && last.0 == text::total_len(
                all.take(to - 1),
            ) && base + text::total_len(all) <= usize::MAX) by {
                reveal(words_at);
            }
            assert(all[to - 1] == last.1@);
            text::lemma_total_len_take(all, from, to);
            text::lemma_total_len_take(all, to, all.len() as int);
            text::lemma_total_len_step(all, to - 1);
            assert(all.take(all.len() as int) =~= all);
        }
        let start = base + first.0;
        let end = base + last.0 + text::byte_length(last.1);
        out.push((start..end, style));
        proof {
            assert(stretch_span(all, base as int, *range, style) =~= seq![out@.last()]);
            assert(out@ =~= before + seq![out@.last()]);
        }
    } else {
        proof {
            assert(out@ =~= before + stretch_span(all, base as int, *range, style));
        }
    }
}

/// The texts of some words.
fn word_texts<'a>(words: &Vec<(usize, &'a str)>) -> (texts: Vec<&'a str>)
    ensures
        text::views(texts@) == word_views(words@),
        texts@.len() == words@.len(),
{
    let mut texts: Vec<&'a str> = Vec::new();
    let mut i: usize = 0;
    while i < words.len()
        invariant
            i <= words@.len(),
            texts@.len() == i,
            forall|k: int| 0 <= k < i ==> (#[trigger] texts@[k])@ == words@[k].1@,
        decreases words@.len() - i,
    {
        texts.push(words[i].1);
        i += 1;
    }
    proof {
        assert(text::views(texts@) =~= word_views(words@));
    }
    texts
}

proof fn lemma_word_count(words: Seq<Seq<char>>, s: Seq<char>)
    requires
        words.flatten() == s,
        forall|i: int| 0 <= i < words.len() ==> #[trigger] words[i].len() > 0,
    ensures
        words.len() <= s.len(),
    decreases words.len(),
{
    if words.len() > 0 {
        let rest = words.drop_first();
        assert forall|i: int| 0 <= i < rest.len() implies #[trigger] rest[i].len() > 0 by {
            assert(words[i + 1].len() > 0);
        }
        assert(words[0].len() > 0);
        assert(s == words[0] + rest.flatten());
        lemma_word_count(rest, rest.flatten());
    }
}

/// Append the stretches of old words that differ.
fn push_old_spans(
    out: &mut Vec<Span>,
    words: &Vec<(usize, &str)>,
    base: usize,
    hunks: &Vec<TokenHunk>,
    style: Style,
    Ghost(new_len): Ghost<nat>,
)
    requires
        words_at(words@, base as int),
        token_hunks_in(hunks@, words@.len(), new_len),
    ensures
        final(out)@ == old(out)@ + old_spans(word_views(words@), base as int, hunks@, style),
{
    let ghost before = out@;
    let ghost all = word_views(words@);
    let mut i: usize = 0;
    proof {
        assert(hunks@.take(0) =~= Seq::<TokenHunk>::empty());
        assert(before + old_spans(all, base as int, hunks@.take(0), style) =~= before);
    }
    while i < hunks.len()
        invariant
            i <= hunks@.len(),
            all == word_views(words@),
            words_at(words@, base as int),
            token_hunks_in(hunks@, words@.len(), new_len),
            out@ == before + old_spans(all, base as int, hunks@.take(i as int), style),
        decreases hunks@.len() - i,
    {
        proof {
            assert(hunks@.take(i + 1).drop_last() =~= hunks@.take(i as int));
            assert(hunks@.take(i + 1).last() == hunks@[i as int]);
        }
        push_stretch(out, words, base, &hunks[i].before, style);
        proof {
            assert(out@ =~= before + old_spans(all, base as int, hunks@.take(i + 1), style));
        }
        i += 1;
    }
    proof {
        assert(hunks@.take(hunks@.len() as int) =~= hunks@);
    }
}

/// Append the stretches of new words that differ.
fn push_new_spans(
    out: &mut Vec<Span>,
    words: &Vec<(usize, &str)>,
    base: usize,
    hunks: &Vec<TokenHunk>,
    style: Style,
    Ghost(old_len): Ghost<nat>,
)
    requires
        words_at(words@, base as int),
        token_hunks_in(hunks@, old_len, words@.len()),
    ensures
        final(out)@ == old(out)@ + new_spans(word_views(words@), base as int, hunks@, style),
{
    let ghost before = out@;
    let ghost all = word_views(words@);
    let mut i: usize = 0;
    proof {
        assert(hunks@.take(0) =~= Seq::<TokenHunk>::empty());
        assert(before + new_spans(all, base as int, hunks@.take(0), style) =~= before);
    }
    while i < hunks.len()
        invariant
            i <= hunks@.len(),
            all == word_views(words@),
            words_at(words@, base as int),
            token_hunks_in(hunks@, old_len, words@.len()),
            out@ == before + new_spans(all, base as int, hunks@.take(i as int), style),
        decreases hunks@.len() - i,
    {
        proof {
            assert(hunks@.take(i + 1).drop_last() =~= hunks@.take(i as int));
            assert(hunks@.take(i + 1).last() == hunks@[i as int]);
        }
        push_stretch(out, words, base, &hunks[i].after, style);
        proof {
            assert(out@ =~= before + new_spans(all, base as int, hunks@.take(i + 1), style));
        }
        i += 1;
    }
    proof {
        assert(hunks@.take(hunks@.len() as int) =~= hunks@);
    }
}

/// The words that were replaced and those put in their place, where each stretch of
/// words that differs is known. Words come with their offsets from `old_start` and
/// `new_start`.
pub fn replaced_words(
    config: &DiffHighlightConfig,
    old_words: &Vec<(usize, &str)>,
    old_start: usize,
    new_words: &Vec<(usize, &str)>,
    new_start: usize,
    hunks: &Vec<TokenHunk>,
) -> (out: Vec<Span>)
    requires
        words_at(old_words@, old_start as int),
        words_at(new_words@, new_start as int),
        token_hunks_in(hunks@, old_words@.len(), new_words@.len()),
    ensures
        out@ == replaced_spans(
            *config,
            word_views(old_words@),
            old_start as int,
            word_views(new_words@),
            new_start as int,
            hunks@,
        ),
{
    let mut out: Vec<Span> = Vec::new();
    push_old_spans(
        &mut out,
        old_words,
        old_start,
        hunks,
        config.changed_old,
        Ghost(new_words@.len()),
    );
    push_new_spans(
        &mut out,
        new_words,
        new_start,
        hunks,
        config.changed_new,
        Ghost(old_words@.len()),
    );
    proof {
        assert(out@ =~= replaced_spans(
            *config,
            word_views(old_words@),
            old_start as int,
            word_views(new_words@),
            new_start as int,
            hunks@,
        ));
    }
    out
}

pub proof fn lemma_old_spans(
    words: Seq<Seq<char>>,
    base: int,
    hunks: Seq<TokenHunk>,
    style: Style,
    new_len: nat,
)
    requires
        token_hunks_in(hunks, words.len(), new_len),
        0 <= base,
        base + text::total_len(words) <= usize::MAX,
    ensures
        spans::spread(
            old_spans(words, base, hunks, style),
            base,
            if hunks.len() == 0 {
                base
            } else {
                base + text::total_len(words.take(hunks.last().before.end as int))
            },
        ),
    decreases hunks.len(),
{
    if hunks.len() > 0 {
        let front = hunks.drop_last();
        let n = hunks.len() - 1;
        let range = hunks[n].before;
        lemma_old_spans(words, base, front, style, new_len);
        text::lemma_total_len_take(words, range.start as int, range.end as int);
        text::lemma_total_len_take(words, 0, range.start as int);
        if n > 0 {
            assert(hunks[n - 1].before.end <= range.start);
            text::lemma_total_len_take(words, hunks[n - 1].before.end as int, range.start as int);
        }
        assert(spans::spread(
            stretch_span(words, base, range, style),
            base + text::total_len(words.take(range.start as int)),
            base + text::total_len(words.take(range.end as int)),
        ));
        spans::lemma_spread_concat(
            old_spans(words, base, front, style),
            stretch_span(words, base, range, style),
            base,
            base + text::total_len(words.take(range.start as int)),
            base + text::total_len(words.take(range.end as int)),
        );
    }
}

pub proof fn lemma_new_spans(
    words: Seq<Seq<char>>,
    base: int,
    hunks: Seq<TokenHunk>,
    style: Style,
    old_len: nat,
)
    requires
        token_hunks_in(hunks, old_len, words.len()),
        0 <= base,
        base + text::total_len(words) <= usize::MAX,
    ensures
        spans::spread(
            new_spans(words, base, hunks, style),
            base,
            if hunks.len() == 0 {
                base
            } else {
                base + text::total_len(words.take(hunks.last().after.end as int))
            },
        ),
    decreases hunks.len(),
{
    if hunks.len() > 0 {
        let front = hunks.drop_last();
        let n = hunks.len() - 1;
        let range = hunks[n].after;
        lemma_new_spans(words, base, front, style, old_len);
        text::lemma_total_len_take(words, range.start as int, range.end as int);
        text::lemma_total_len_take(words, 0, range.start as int);
        if n > 0 {
            assert(hunks[n - 1].after.end <= range.start);
            text::lemma_total_len_take(words, hunks[n - 1].after.end as int, range.start as int);
        }
        assert(spans::spread(
            stretch_span(words, base, range, style),
            base + text::total_len(words.take(range.start as int)),
            base + text::total_len(words.take(range.end as int)),
        ));
        spans::lemma_spread_concat(
            new_spans(words, base, front, style),
            stretch_span(words, base, range, style),
            base,
            base + text::total_len(words.take(range.start as int)),
            base + text::total_len(words.take(range.end as int)),
        );
    }
}

/// Each stretch of words is drawn in its style.
pub proof fn lemma_span_styles(words: Seq<Seq<char>>, base: int, hunks: Seq<TokenHunk>, style: Style)
    ensures
        forall|i: int|
            0 <= i < old_spans(words, base, hunks, style).len() ==> (#[trigger] old_spans(
                words,
                base,
                hunks,
                style,
            )[i]).1 == style,
        forall|i: int|
            0 <= i < new_spans(words, base, hunks, style).len() ==> (#[trigger] new_spans(
                words,
                base,
                hunks,
                style,
            )[i]).1 == style,
    decreases hunks.len(),
{
    if hunks.len() > 0 {
        lemma_span_styles(words, base, hunks.drop_last(), style);
    }
}

/// The words of a part of a hunk.
fn words_in<'a>(hunk_text: &'a str, start: usize, end: usize) -> (words: Vec<(usize, &'a str)>)
    requires
        text::boundary(hunk_text@, start as int),
        text::boundary(hunk_text@, end as int),
        start <= end,
        text::byte_len(hunk_text@) < i32::MAX,
    ensures
        word_views(words@) == words_of(text::slice(hunk_text@, start as int, end as int)),
        words_at(words@, start as int),
        text::total_len(word_views(words@)) == end - start,
        words@.len() < i32::MAX,
{
    let part = text::str_slice(hunk_text, start, end);
    let words = word_bounds(part);
    proof {
        reveal(words_at);
        let all = words_of(part@);
        assert forall|i: int| 0 <= i < all.len() implies #[trigger] all[i].len() > 0 by {
            assert(all[i] == words@[i].1@);
        }
        lemma_word_count(all, part@);
        text::lemma_parts(part@, all, 0);
        text::lemma_boundary(hunk_text@, end as int);
        text::lemma_slice_boundary(hunk_text@, start as int, end as int, end as int);
        text::lemma_byte_len_at_least(part@);
    }
    words
}

/// The words a change replaced, and those it put in their place.
fn highlight_change(
    config: &DiffHighlightConfig,
    hunk_text: &str,
    base: usize,
    change: &Change,
    out: &mut Vec<Span>,
)
    requires
        change_fits(hunk_text@, base as int, *change),
        text::byte_len(hunk_text@) < i32::MAX,
    ensures
        final(out)@ == old(out)@ + change_spans(*config, hunk_text@, base as int, *change),
        words_fit(hunk_text@, base as int, *change),
        change.old.end <= change.new.start ==> spans::spread(
            change_spans(*config, hunk_text@, base as int, *change),
            change.old.start - base,
            change.new.end - base,
        ),
        forall|i: int|
            0 <= i < change_spans(*config, hunk_text@, base as int, *change).len() ==> ({
                let span = #[trigger] change_spans(*config, hunk_text@, base as int, *change)[i];
                took_out(*config, base as int, *change, span) || put_in(
                    *config,
                    base as int,
                    *change,
                    span,
                )
            }),
{
    let (old_start, new_start) = (change.old.start - base, change.new.start - base);
    let old_words = words_in(hunk_text, old_start, change.old.end - base);
    let new_words = words_in(hunk_text, new_start, change.new.end - base);
    let hunks = token_hunks(&word_texts(&old_words), &word_texts(&new_words));
    let ghost before = out@;
    let mut replaced = replaced_words(config, &old_words, old_start, &new_words, new_start, &hunks);
    out.append(&mut replaced);
    proof {
        assert(out@ =~= before + change_spans(*config, hunk_text@, base as int, *change));
        reveal(words_at);
        let (old_all, new_all) = (word_views(old_words@), word_views(new_words@));
        lemma_old_spans(old_all, old_start as int, hunks@, config.changed_old, new_all.len());
        lemma_new_spans(new_all, new_start as int, hunks@, config.changed_new, old_all.len());
        if hunks@.len() > 0 {
            let last = hunks@.last();
            text::lemma_total_len_take(
                old_all,
                last.before.end as int,
                old_all.len() as int,
            );
            text::lemma_total_len_take(
                new_all,
                last.after.end as int,
                new_all.len() as int,
            );
        }
        lemma_span_styles(old_all, old_start as int, hunks@, config.changed_old);
        lemma_span_styles(new_all, new_start as int, hunks@, config.changed_new);
        let out_spans = old_spans(old_all, old_start as int, hunks@, config.changed_old);
        let in_spans = new_spans(new_all, new_start as int, hunks@, config.changed_new);
        let all = change_spans(*config, hunk_text@, base as int, *change);
        assert(all == out_spans + in_spans);
        assert forall|i: int| 0 <= i < all.len() implies took_out(
            *config,
            base as int,
            *change,
            #[trigger] all[i],
        ) || put_in(*config, base as int, *change, all[i]) by {
            if i < out_spans.len() {
                assert(all[i] == out_spans[i]);
            } else {
                assert(all[i] == in_spans[i - out_spans.len()]);
            }
        }
        if change.old.end <= change.new.start {
            spans::lemma_spread_concat(
                old_spans(old_all, old_start as int, hunks@, config.changed_old),
                new_spans(new_all, new_start as int, hunks@, config.changed_new),
                old_start as int,
                new_start as int,
                change.new.end - base,
            );
        }
    }
}

/// Which words of a hunk changed, and everything between.
pub open spec fn diff_highlights(
    config: DiffHighlightConfig,
    body: Seq<char>,
    hunk: Hunk,
) -> Seq<Span> {
    spans::gaps_filled(
        0,
        text::byte_len(body) as int,
        changed_spans(config, body, hunk.content.range.start as int, hunk.content.changes@),
        config.unchanged_old,
    )
}

/// Whether a span is drawn for a reason: it is of words that some change took out, of
/// words that some change put in, or of what lies between. Where the three are drawn
/// apart, what is drawn as taken out was, and what is drawn as put in was.
pub open spec fn explained(
    config: DiffHighlightConfig,
    base: int,
    changes: Seq<Change>,
    span: Span,
) -> bool {
    &&& was_taken_out(config, base, changes, span) || was_put_in(config, base, changes, span)
        || span.1 == config.unchanged_old
    &&& span.1 == config.changed_old && config.changed_old != config.changed_new
        && config.changed_old != config.unchanged_old ==> was_taken_out(
        config,
        base,
        changes,
        span,
    )
    &&& span.1 == config.changed_new && config.changed_new != config.changed_old
        && config.changed_new != config.unchanged_old ==> was_put_in(config, base, changes, span)
}

/// Which words of a hunk changed, and everything between.
pub fn iter_diff_highlights(config: &DiffHighlightConfig, hunk_text: &str, hunk: &Hunk) -> (out:
    Vec<Span>)
    requires
        changes_fit(hunk_text@, *hunk),
        text::byte_len(hunk_text@) < i32::MAX,
    ensures
        out@ == diff_highlights(*config, hunk_text@, *hunk),
        forall|i: int|
            0 <= i < hunk.content.changes@.len() ==> words_fit(
                hunk_text@,
                hunk.content.range.start as int,
                #[trigger] hunk.content.changes@[i],
            ),
        diff::changes_ordered(hunk.content.changes@) ==> spans::tiles(
            out@,
            0,
            text::byte_len(hunk_text@) as int,
        ),
        forall|i: int|
            0 <= i < out@.len() ==> explained(
                *config,
                hunk.content.range.start as int,
                hunk.content.changes@,
                #[trigger] out@[i],
            ),
{
    let end = text::byte_length(hunk_text);
    let mut changed: Vec<Span> = Vec::new();
    let changes = &hunk.content.changes;
    let base = hunk.content.range.start;
    let mut i: usize = 0;
    proof {
        assert(changes@.take(0) =~= Seq::<Change>::empty());
    }
    while i < changes.len()
        invariant
            i <= changes@.len(),
            *changes == hunk.content.changes,
            base == hunk.content.range.start,
            changes_fit(hunk_text@, *hunk),
            text::byte_len(hunk_text@) < i32::MAX,
            changed@ == changed_spans(*config, hunk_text@, base as int, changes@.take(i as int)),
            forall|k: int|
                0 <= k < i ==> words_fit(hunk_text@, base as int, #[trigger] changes@[k]),
            forall|k: int|
                0 <= k < changed@.len() ==> was_taken_out(
                    *config,
                    base as int,
                    changes@,
                    #[trigger] changed@[k],
                ) || was_put_in(*config, base as int, changes@, changed@[k]),
            diff::changes_ordered(changes@) ==> spans::spread(
                changed@,
                0,
                if i == 0 {
                    0
                } else {
                    changes@[i - 1].new.end - base
                },
            ),
        decreases changes@.len() - i,
    {
        proof {
            assert(changes@.take(i + 1).drop_last() =~= changes@.take(i as int));
            assert(changes@.take(i + 1).last() == changes@[i as int]);
        }
        let ghost before = changed@;
        highlight_change(config, hunk_text, base, &changes[i], &mut changed);
        proof {
            assert forall|k: int| 0 <= k < changed@.len() implies was_taken_out(
                *config,
                base as int,
                changes@,
                #[trigger] changed@[k],
            ) || was_put_in(*config, base as int, changes@, changed@[k]) by {
                if k < before.len() {
                    assert(changed@[k] == before[k]);
                } else {
                    let spans = change_spans(*config, hunk_text@, base as int, changes@[i as int]);
                    assert(changed@[k] == spans[k - before.len()]);
                }
            }
            if diff::changes_ordered(changes@) {
                let change = changes@[i as int];
                if i > 0 {
                    assert(changes@[i - 1].new.end <= change.old.start);
                }
                spans::lemma_spread_concat(
                    before,
                    change_spans(*config, hunk_text@, base as int, change),
                    0,
                    change.old.start - base,
                    change.new.end - base,
                );
            }
        }
        i += 1;
    }
    proof {
        assert(changes@.take(changes@.len() as int) =~= changes@);
        let all = diff_highlights(*config, hunk_text@, *hunk);
        spans::fill_gaps_keeps_ranges(0, end as int, changed@, config.unchanged_old);
        assert forall|k: int| 0 <= k < all.len() implies explained(
            *config,
            base as int,
            changes@,
            #[trigger] all[k],
        ) by {
            if changed@.contains(all[k]) {
                let c = choose|c: int| 0 <= c < changed@.len() && changed@[c] == all[k];
                assert(was_taken_out(*config, base as int, changes@, changed@[c]) || was_put_in(
                    *config,
                    base as int,
                    changes@,
                    changed@[c],
                ));
            }
        }
        if diff::changes_ordered(changes@) {
            if i > 0 {
                text::lemma_boundary(hunk_text@, changes@[i - 1].new.end - base);
            }
            assert(spans::spread(Seq::<Span>::empty(), end as int, end as int));
            spans::lemma_spread_concat(
                changed@,
                Seq::<Span>::empty(),
                0,
                end as int,
                end as int,
            );
            assert(changed@ + Seq::<Span>::empty() =~= changed@);
            spans::fill_gaps_tiles(0, end as int, changed@, config.unchanged_old);
        }
    }
    spans::fill_gaps(0..end, changed.as_slice(), config.unchanged_old)
}

// ---------------------------------------------------------------------------
// Markers
// ---------------------------------------------------------------------------

/// The marker of the `i`th line of a hunk, if it has one that is drawn.
pub open spec fn marker_span(config: DiffHighlightConfig, body: Seq<char>, i: int) -> Seq<Span> {
    let start = line_start(body, i);
    let range = Range { start: start as usize, end: (start + 1) as usize };
    let marker = text::lines(body)[i][0];
    if marker == '-' {
        seq![(range, config.tag_old)]
    } else if marker == '+' {
        seq![(range, config.tag_new)]
    } else {
        seq![]
    }
}

/// The markers of the first `n` lines of a hunk.
pub open spec fn marker_spans(config: DiffHighlightConfig, body: Seq<char>, n: nat) -> Seq<Span>
    decreases n,
{
    if n == 0 {
        seq![]
    } else {
        marker_spans(config, body, (n - 1) as nat) + marker_span(config, body, n - 1)
    }
}

/// The `+` and `-` of a hunk, and everything between.
pub open spec fn context_highlights(config: DiffHighlightConfig, body: Seq<char>) -> Seq<Span> {
    spans::gaps_filled(
        0,
        text::byte_len(body) as int,
        marker_spans(config, body, text::lines(body).len()),
        style::plain(),
    )
}

/// The `+` and `-` of a hunk, and everything between.
pub fn iter_diff_context_highlights(config: &DiffHighlightConfig, hunk_text: &str) -> (out: Vec<
    Span,
>)
    ensures
        out@ == context_highlights(*config, hunk_text@),
{
    let lines = line_range_iterator(hunk_text);
    let end = text::byte_length(hunk_text);
    let ghost all = text::lines(hunk_text@);
    let mut markers: Vec<Span> = Vec::new();
    let mut i: usize = 0;
    while i < lines.len()
        invariant
            i <= lines@.len(),
            end == text::byte_len(hunk_text@),
            all == text::lines(hunk_text@),
            lines@.len() == all.len(),
            forall|k: int|
                0 <= k < lines@.len() ==> (#[trigger] lines@[k]).0.start == line_start(
                    hunk_text@,
                    k,
                ) && lines@[k].1@ == all[k],
            markers@ == marker_spans(*config, hunk_text@, i as nat),
        decreases lines@.len() - i,
    {
        let start = lines[i].0.start;
        proof {
            text::lemma_lines_concat(hunk_text@);
            assert(all[i as int].len() > 0);
            lines_in_order(hunk_text@, i as int);
        }
        let marker = lines[i].1.get_char(0);
        let ghost before = markers@;
        if marker == '-' {
            markers.push((start..start + 1, config.tag_old));
        } else if marker == '+' {
            markers.push((start..start + 1, config.tag_new));
        }
        proof {
            assert(markers@ =~= before + marker_span(*config, hunk_text@, i as int));
        }
        i += 1;
    }
    spans::fill_gaps(0..end, markers.as_slice(), Style::new())
}

pub proof fn lemma_markers_spread(config: DiffHighlightConfig, body: Seq<char>, n: nat)
    requires
        n <= text::lines(body).len(),
        text::byte_len(body) <= usize::MAX,
    ensures
        spans::spread(marker_spans(config, body, n), 0, line_start(body, n as int)),
    decreases n,
{
    if n == 0 {
        text::lemma_total_len_take(text::lines(body), 0, 0);
    } else {
        lemma_markers_spread(config, body, (n - 1) as nat);
        lines_in_order(body, n - 1);
        assert(spans::spread(
            marker_span(config, body, n - 1),
            line_start(body, n - 1),
            line_start(body, n as int),
        ));
        spans::lemma_spread_concat(
            marker_spans(config, body, (n - 1) as nat),
            marker_span(config, body, n - 1),
            0,
            line_start(body, n - 1),
            line_start(body, n as int),
        );
    }
}

/// Marker highlights tile the hunk.
pub proof fn context_highlights_tile(config: DiffHighlightConfig, body: Seq<char>)
    requires
        text::byte_len(body) <= usize::MAX,
    ensures
        spans::tiles(context_highlights(config, body), 0, text::byte_len(body) as int),
{
    let n = text::lines(body).len();
    lemma_markers_spread(config, body, n);
    text::lemma_lines_concat(body);
    text::lemma_parts(body, text::lines(body), 0);
    assert(text::lines(body).take(n as int) =~= text::lines(body));
    spans::fill_gaps_tiles(
        0,
        text::byte_len(body) as int,
        marker_spans(config, body, n),
        style::plain(),
    );
}

// ---------------------------------------------------------------------------
// Syntax
// ---------------------------------------------------------------------------

/// What a stretch of code is.
#[derive(Debug, Clone, Copy, PartialEq, Eq, Structural)]
pub enum SyntaxTag {
    Attribute,
    Comment,
    Constant,
    ConstantBuiltin,
    Constructor,
    Embedded,
    Function,
    FunctionBuiltin,
    Keyword,
    Module,
    Number,
    Operator,
    Property,
    PunctuationBracket,
    PunctuationDelimiter,
    String,
    StringSpecial,
    Tag,
    TypeBuiltin,
    TypeRegular,
    VariableBuiltin,
    VariableParameter,
}

/// How code is drawn.
#[derive(Debug, Clone, Copy)]
pub struct SyntaxHighlightConfig {
    pub enabled: bool,
    pub attribute: Style,
    pub comment: Style,
    pub constant: Style,
    pub constant_builtin: Style,
    pub constructor: Style,
    pub embedded: Style,
    pub function: Style,
    pub function_builtin: Style,
    pub keyword: Style,
    pub module: Style,
    pub number: Style,
    pub operator: Style,
    pub property: Style,
    pub punctuation_bracket: Style,
    pub punctuation_delimiter: Style,
    pub string: Style,
    pub string_special: Style,
    pub tag: Style,
    pub type_builtin: Style,
    pub type_regular: Style,
    pub variable_builtin: Style,
    pub variable_parameter: Style,
}

/// How a stretch of code is drawn.
pub open spec fn tag_style(config: SyntaxHighlightConfig, tag: SyntaxTag) -> Style {
    match tag {
        SyntaxTag::Attribute => config.attribute,
        SyntaxTag::Comment => config.comment,
        SyntaxTag::Constant => config.constant,
        SyntaxTag::ConstantBuiltin => config.constant_builtin,
        SyntaxTag::Constructor => config.constructor,
        SyntaxTag::Embedded => config.embedded,
        SyntaxTag::Function => config.function,
        SyntaxTag::FunctionBuiltin => config.function_builtin,
        SyntaxTag::Keyword => config.keyword,
        SyntaxTag::Module => config.module,
        SyntaxTag::Number => config.number,
        SyntaxTag::Operator => config.operator,
        SyntaxTag::Property => config.property,
        SyntaxTag::PunctuationBracket => config.punctuation_bracket,
        SyntaxTag::PunctuationDelimiter => config.punctuation_delimiter,
        SyntaxTag::String => config.string,
        SyntaxTag::StringSpecial => config.string_special,
        SyntaxTag::Tag => config.tag,
        SyntaxTag::TypeBuiltin => config.type_builtin,
        SyntaxTag::TypeRegular => config.type_regular,
        SyntaxTag::VariableBuiltin => config.variable_builtin,
        SyntaxTag::VariableParameter => config.variable_parameter,
    }
}

/// How a stretch of code is drawn.
pub fn syntax_highlight_tag_style(config: &SyntaxHighlightConfig, tag: SyntaxTag) -> (style: Style)
    ensures
        style == tag_style(*config, tag),
{
    match tag {
        SyntaxTag::Attribute => config.attribute,
        SyntaxTag::Comment => config.comment,
        SyntaxTag::Constant => config.constant,
        SyntaxTag::ConstantBuiltin => config.constant_builtin,
        SyntaxTag::Constructor => config.constructor,
        SyntaxTag::Embedded => config.embedded,
        SyntaxTag::Function => config.function,
        SyntaxTag::FunctionBuiltin => config.function_builtin,
        SyntaxTag::Keyword => config.keyword,
        SyntaxTag::Module => config.module,
        SyntaxTag::Number => config.number,
        SyntaxTag::Operator => config.operator,
        SyntaxTag::Property => config.property,
        SyntaxTag::PunctuationBracket => config.punctuation_bracket,
        SyntaxTag::PunctuationDelimiter => config.punctuation_delimiter,
        SyntaxTag::String => config.string,
        SyntaxTag::StringSpecial => config.string_special,
        SyntaxTag::Tag => config.tag,
        SyntaxTag::TypeBuiltin => config.type_builtin,
        SyntaxTag::TypeRegular => config.type_regular,
        SyntaxTag::VariableBuiltin => config.variable_builtin,
        SyntaxTag::VariableParameter => config.variable_parameter,
    }
}

/// Stretches of code, each in the style it is drawn in.
pub open spec fn styled_tags(
    config: SyntaxHighlightConfig,
    tags: Seq<(Range<usize>, SyntaxTag)>,
) -> Seq<Span> {
    tags.map_values(|tag: (Range<usize>, SyntaxTag)| (tag.0, tag_style(config, tag.1)))
}

/// The syntax of a text of some length, and everything between.
pub open spec fn syntax_highlights(
    config: SyntaxHighlightConfig,
    length: int,
    tags: Seq<(Range<usize>, SyntaxTag)>,
) -> Seq<Span> {
    spans::gaps_filled(
        0,
        length,
        if config.enabled {
            styled_tags(config, tags)
        } else {
            seq![]
        },
        style::plain(),
    )
}

/// The syntax of a text of some length, and everything between. `tags` is what
/// was parsed of it.
pub fn iter_syntax_highlights(
    config: &SyntaxHighlightConfig,
    length: usize,
    tags: &Vec<(Range<usize>, SyntaxTag)>,
) -> (out: Vec<Span>)
    ensures
        out@ == syntax_highlights(*config, length as int, tags@),
{
    let mut styled: Vec<Span> = Vec::new();
    if config.enabled {
        let mut i: usize = 0;
        while i < tags.len()
            invariant
                i <= tags@.len(),
                styled@ =~= styled_tags(*config, tags@).take(i as int),
            decreases tags@.len() - i,
        {
            let (range, tag) = (&tags[i].0, tags[i].1);
            styled.push((range.start..range.end, syntax_highlight_tag_style(config, tag)));
            i += 1;
        }
        proof {
            assert(styled@ =~= styled_tags(*config, tags@));
        }
    }
    spans::fill_gaps(0..length, styled.as_slice(), Style::new())
}

/// Whether stretches of code lie in a text of some length, one after the other.
pub open spec fn tags_spread(tags: Seq<(Range<usize>, SyntaxTag)>, length: int) -> bool {
    &&& 0 <= length
    &&& forall|i: int|
        0 <= i < tags.len() ==> (#[trigger] tags[i]).0.start <= tags[i].0.end <= length
    &&& forall|i: int, j: int|
        0 <= i < j < tags.len() ==> (#[trigger] tags[i]).0.end <= (#[trigger] tags[j]).0.start
}

/// Syntax highlights tile the text.
pub proof fn syntax_highlights_tile(
    config: SyntaxHighlightConfig,
    length: int,
    tags: Seq<(Range<usize>, SyntaxTag)>,
)
    requires
        tags_spread(tags, length),
        length <= usize::MAX,
    ensures
        spans::tiles(syntax_highlights(config, length, tags), 0, length),
{
    let styled = if config.enabled {
        styled_tags(config, tags)
    } else {
        seq![]
    };
    assert(spans::spread(styled, 0, length)) by {
        assert forall|i: int, j: int| 0 <= i < j < styled.len() implies (#[trigger] styled[i]).0.end
            <= (#[trigger] styled[j]).0.start by {
            assert(tags[i].0.end <= tags[j].0.start);
        }
        assert forall|i: int| 0 <= i < styled.len() implies 0 <= (#[trigger] styled[i]).0.start
            <= styled[i].0.end <= length by {
            assert(tags[i].0.start <= tags[i].0.end);
        }
    }
    spans::fill_gaps_tiles(0, length, styled, style::plain());
}

// ---------------------------------------------------------------------------
// Files
// ---------------------------------------------------------------------------

/// Styled segments of the lines of a file.
pub struct BlameHighlights {
    pub spans: Vec<Span>,
    pub line_index: Vec<Range<usize>>,
}

impl BlameHighlights {
    pub open spec fn wf(&self) -> bool {
        indexed(self.spans@, self.line_index@)
    }

    /// The segments of each line.
    pub open spec fn lines(&self) -> Seq<Seq<Span>> {
        segments(self.spans@, self.line_index@)
    }

    /// Get highlight segments for a given line; a line that isn't there has none.
    pub fn get_line_highlights(&self, line: usize) -> (segments: &[Span])
        requires
            self.wf(),
        ensures
            segments@ == (if line < self.lines().len() {
                self.lines()[line as int]
            } else {
                seq![]
            }),
    {
        if line >= self.line_index.len() {
            let none = vstd::slice::slice_subrange(self.spans.as_slice(), 0, 0);
            assert(none@ =~= Seq::<Span>::empty());
            return none;
        }
        let range = &self.line_index[line];
        vstd::slice::slice_subrange(self.spans.as_slice(), range.start, range.end)
    }
}

/// Highlight a file, line by line. `tags` is what was parsed of it.
pub fn highlight_blame_file(
    config: &SyntaxHighlightConfig,
    content: &str,
    tags: &Vec<(Range<usize>, SyntaxTag)>,
) -> (highlights: BlameHighlights)
    ensures
        highlights.wf(),
        highlights.lines() == by_line(
            content@,
            syntax_highlights(*config, text::byte_len(content@) as int, tags@),
        ),
{
    let all = iter_syntax_highlights(config, text::byte_length(content), tags);
    let by_line = split_by_line(content, all);
    BlameHighlights { spans: by_line.spans, line_index: by_line.line_index }
}

// ---------------------------------------------------------------------------
// Hunks
// ---------------------------------------------------------------------------

/// How hunks are drawn.
#[derive(Debug, Clone, Copy)]
pub struct HighlightConfig {
    /// Whether an external colorizer is to be asked first.
    pub diff_colorizer: bool,
    pub diff: DiffHighlightConfig,
    pub syntax: SyntaxHighlightConfig,
}

/// What is drawn of a line.
pub open spec fn visual_line(line: Seq<char>) -> Seq<char> {
    line.take(
        line.len() - if ends_crlf(line) {
            2int
        } else {
            1int
        },
    )
}

/// Whether a text can be cut a byte before its end.
pub open spec fn ends_narrow(content: Seq<char>) -> bool {
    content.len() > 0 ==> text::width(content.last()) == 1
}

/// Whether colorizer output ends in the very lines of a hunk.
pub open spec fn reproduces(rows: Seq<diff_colorizer::Row>, body: Seq<char>) -> bool {
    let lines = text::lines(body);
    &&& rows.len() >= lines.len()
    &&& forall|i: int|
        0 <= i < lines.len() ==> (#[trigger] rows[rows.len() - lines.len() + i]).text
            == visual_line(lines[i])
}

/// The runs of the last lines of colorizer output, as many as a hunk has.
pub open spec fn last_runs(rows: Seq<diff_colorizer::Row>, body: Seq<char>) -> Seq<Seq<Span>> {
    let n = text::lines(body).len();
    Seq::new(n, |i: int| rows[rows.len() - n + i].runs)
}

proof fn lemma_visual_line(content: Seq<char>, i: int)
    requires
        0 <= i < text::lines(content).len(),
        ends_narrow(content),
    ensures
        text::boundary(content, line_start(content, i)),
        text::boundary(content, visual_end(content, i)),
        text::slice(content, line_start(content, i), visual_end(content, i)) == visual_line(
            text::lines(content)[i],
        ),
{
    let lines = text::lines(content);
    let line = lines[i];
    text::lemma_lines_concat(content);
    text::lemma_parts(content, lines, i);
    text::lemma_parts(content, lines, i + 1);
    text::lemma_total_len_step(lines, i);
    let start = line_start(content, i);
    let end = line_start(content, i + 1);
    let c = text::char_at(content, start);
    let d = text::char_at(content, end);
    assert(line.len() > 0);
    assert(line =~= content.subrange(c, d));
    lemma_line_narrow(content, i);
    let drop = line.len() - visual_line(line).len();
    assert(visual_len(line) == text::byte_len(visual_line(line))) by {
        let n = line.len() as int;
        assert(line.take(n) =~= line);
        text::lemma_byte_len_step(line, n - 1);
        if drop == 2 {
            text::lemma_byte_len_step(line, n - 2);
            assert(text::width('\r') == 1);
        }
    }
    text::lemma_boundary(content, start);
    text::lemma_boundary(content, end);
    let e = d - drop;
    assert(visual_line(line) =~= content.subrange(c, e));
    text::lemma_byte_len_take(content, c, e);
    text::lemma_char_at(content, e);
}

proof fn lemma_line_narrow(content: Seq<char>, i: int)
    requires
        0 <= i < text::lines(content).len(),
        ends_narrow(content),
    ensures
        text::lines(content)[i].len() > 0,
        text::width(text::lines(content)[i].last()) == 1,
    decreases content.len(),
{
    let n = text::line_len(content) as int;
    text::lemma_line_len(content);
    let rest = content.skip(n);
    if i == 0 {
        let line = content.take(n);
        assert(text::lines(content)[0] == line);
        if n < content.len() {
            assert(line.last() == '\n');
            assert(text::width('\n') == 1);
        } else {
            assert(line.last() == content.last());
        }
    } else {
        assert(text::lines(content)[i] == text::lines(rest)[i - 1]);
        if rest.len() > 0 {
            assert(rest.last() == content.last());
        }
        lemma_line_narrow(rest, i - 1);
    }
}

/// Map colorizer output onto a hunk's content lines. The colorizer preserves
/// line structure, so the content lines are the tail of its output; each must
/// match the corresponding hunk line verbatim, or its byte ranges wouldn't be
/// valid in the hunk's own text.
pub fn colorize_hunk_from_lines(
    hunk_content: &str,
    parsed: &Vec<diff_colorizer::ParsedLine>,
) -> (highlights: Option<HunkHighlights>)
    requires
        ends_narrow(hunk_content@),
    ensures
        highlights is Some <==> reproduces(diff_colorizer::row_views(parsed@), hunk_content@),
        highlights matches Some(highlights) ==> highlights.wf() && highlights.lines() == last_runs(
            diff_colorizer::row_views(parsed@),
            hunk_content@,
        ),
{
    let content_lines = line_range_iterator(hunk_content);
    let ghost rows = diff_colorizer::row_views(parsed@);
    let ghost lines = text::lines(hunk_content@);
    if parsed.len() < content_lines.len() {
        return None;
    }
    let first = parsed.len() - content_lines.len();
    let mut highlights = HunkHighlights::new();
    let mut i: usize = 0;
    proof {
        assert(highlights.lines() =~= last_runs(rows, hunk_content@).take(0));
    }
    while i < content_lines.len()
        invariant
            i <= content_lines@.len(),
            rows == diff_colorizer::row_views(parsed@),
            lines == text::lines(hunk_content@),
            ends_narrow(hunk_content@),
            content_lines@.len() == lines.len(),
            first + lines.len() == parsed.len(),
            forall|k: int|
                0 <= k < content_lines@.len() ==> (#[trigger] content_lines@[k]).0.start
                    == line_start(hunk_content@, k) && content_lines@[k].0.end == visual_end(
                    hunk_content@,
                    k,
                ),
            forall|k: int|
                0 <= k < i ==> (#[trigger] rows[first + k]).text == visual_line(lines[k]),
            highlights.wf(),
            highlights.lines() == last_runs(rows, hunk_content@).take(i as int),
        decreases content_lines@.len() - i,
    {
        let range = &content_lines[i].0;
        let colored = &parsed[first + i];
        proof {
            lines_in_order(hunk_content@, i as int);
            lemma_visual_line(hunk_content@, i as int);
            assert(rows[first + i] == colored@);
        }
        let line = text::str_slice(hunk_content, range.start, range.end);
        if !text::same_text(colored.text.as_str(), line) {
            proof {
                assert(rows[rows.len() - lines.len() + i].text != visual_line(lines[i as int]));
            }
            return None;
        }
        highlights.push_segments(&colored.runs);
        proof {
            assert(last_runs(rows, hunk_content@).take(i + 1) =~= last_runs(
                rows,
                hunk_content@,
            ).take(i as int).push(colored.runs@));
        }
        i += 1;
    }
    proof {
        assert(last_runs(rows, hunk_content@).take(i as int) =~= last_runs(rows, hunk_content@));
        assert forall|k: int| 0 <= k < lines.len() implies (#[trigger] rows[rows.len() - lines.len()
            + k]).text == visual_line(lines[k]) by {
            assert(rows[first + k].text == visual_line(lines[k]));
        }
    }
    Some(highlights)
}

/// Append spans.
fn push_all(out: &mut Vec<Span>, more: &Vec<Span>)
    ensures
        final(out)@ == old(out)@ + more@,
{
    let mut i: usize = 0;
    while i < more.len()
        invariant
            i <= more@.len(),
            out@ =~= old(out)@ + more@.take(i as int),
        decreases more@.len() - i,
    {
        let span = &more[i];
        out.push((span.0.start..span.0.end, span.1));
        i += 1;
    }
    proof {
        assert(more@.take(i as int) =~= more@);
    }
}

/// The lines of colorizer output.
pub open spec fn colorized_rows(output: Seq<char>) -> Seq<diff_colorizer::Row> {
    diff_colorizer::page_of(crate::ansi::events_of(output)).finished().lines
}

/// Map colorizer output onto a hunk's content lines, or nothing if it doesn't
/// reproduce them.
pub fn colorize_hunk_from_output(
    diff: &Diff,
    file_index: usize,
    hunk_index: usize,
    output: &str,
) -> (highlights: Option<HunkHighlights>)
    requires
        diff.wf(),
        diff.has_hunk(file_index as int, hunk_index as int),
        ends_narrow(diff.hunk_text(file_index as int, hunk_index as int)),
    ensures
        ({
            let body = diff.hunk_text(file_index as int, hunk_index as int);
            let rows = colorized_rows(output@);
            &&& highlights is Some <==> reproduces(rows, body)
            &&& highlights matches Some(highlights) ==> highlights.wf() && highlights.lines()
                == last_runs(rows, body)
        }),
{
    let hunk_content = diff.hunk_content(file_index, hunk_index);
    let parsed = diff_colorizer::parse_ansi_lines(output);
    colorize_hunk_from_lines(hunk_content, &parsed.lines)
}

/// A hunk with everything drawn over one another: the syntax of the old side, of
/// the new side, the changed words and the markers.
pub open spec fn layers(
    config: HighlightConfig,
    body: Seq<char>,
    hunk: Hunk,
    old_tags: Seq<(Range<usize>, SyntaxTag)>,
    new_tags: Seq<(Range<usize>, SyntaxTag)>,
) -> Seq<Span> {
    let length = text::byte_len(body) as int;
    spans::merged(
        spans::merged(
            syntax_highlights(config.syntax, length, old_tags),
            syntax_highlights(config.syntax, length, new_tags),
        ),
        spans::merged(
            diff_highlights(config.diff, body, hunk),
            context_highlights(config.diff, body),
        ),
    )
}

/// Four tilings laid over one another, two by two, show at each offset all four,
/// the last on top.
pub proof fn layers_show(
    a: Seq<Span>,
    b: Seq<Span>,
    c: Seq<Span>,
    d: Seq<Span>,
    length: int,
)
    requires
        spans::tiles(a, 0, length),
        spans::tiles(b, 0, length),
        spans::tiles(c, 0, length),
        spans::tiles(d, 0, length),
    ensures
        spans::tiles(spans::merged(spans::merged(a, b), spans::merged(c, d)), 0, length),
        forall|k: int, h: int, i: int, j: int, l: int, p: int|
            0 <= k < spans::merged(spans::merged(a, b), spans::merged(c, d)).len() && 0 <= h
                < a.len() && 0 <= i < b.len() && 0 <= j < c.len() && 0 <= l < d.len()
                && #[trigger] spans::holds(
                spans::merged(spans::merged(a, b), spans::merged(c, d))[k],
                p,
            ) && #[trigger] spans::holds(a[h], p) && #[trigger] spans::holds(b[i], p)
                && #[trigger] spans::holds(c[j], p) && #[trigger] spans::holds(d[l], p)
                ==> spans::merged(spans::merged(a, b), spans::merged(c, d))[k].1 == style::patched(
                style::patched(a[h].1, b[i].1),
                style::patched(c[j].1, d[l].1),
            ),
{
    let (ab, cd) = (spans::merged(a, b), spans::merged(c, d));
    let out = spans::merged(ab, cd);
    spans::zip_styles_tiles(a, b, 0, length);
    spans::zip_styles_tiles(c, d, 0, length);
    spans::zip_styles_tiles(ab, cd, 0, length);
    assert forall|k: int, h: int, i: int, j: int, l: int, p: int|
        0 <= k < out.len() && 0 <= h < a.len() && 0 <= i < b.len() && 0 <= j < c.len() && 0 <= l
            < d.len() && #[trigger] spans::holds(out[k], p) && #[trigger] spans::holds(a[h], p)
            && #[trigger] spans::holds(b[i], p) && #[trigger] spans::holds(c[j], p)
            && #[trigger] spans::holds(d[l], p) implies out[k].1 == style::patched(
        style::patched(a[h].1, b[i].1),
        style::patched(c[j].1, d[l].1),
    ) by {
        spans::lemma_tiles_within(a, 0, length, h);
        let x = spans::lemma_tiles_hold(ab, 0, length, p);
        let y = spans::lemma_tiles_hold(cd, 0, length, p);
        assert(spans::holds(ab[x], p) && spans::holds(cd[y], p));
    }
}

/// Highlight a hunk: with what the colorizer made of it, if it is to be asked
/// and reproduced the hunk, and with syntax, changed words and markers otherwise.
/// `old_tags` and `new_tags` are what was parsed of the two sides of the hunk.
pub fn highlight_hunk(
    config: &HighlightConfig,
    diff: &Diff,
    file_index: usize,
    hunk_index: usize,
    colorized: Option<&str>,
    old_tags: &Vec<(Range<usize>, SyntaxTag)>,
    new_tags: &Vec<(Range<usize>, SyntaxTag)>,
) -> (highlights: HunkHighlights)
    requires
        diff.wf(),
        diff.has_hunk(file_index as int, hunk_index as int),
        ({
            let body = diff.hunk_text(file_index as int, hunk_index as int);
            let length = text::byte_len(body) as int;
            &&& length < i32::MAX
            &&& tags_spread(old_tags@, length)
            &&& tags_spread(new_tags@, length)
            &&& config.diff_colorizer && colorized is Some ==> ends_narrow(body)
        }),
    ensures
        highlights.wf(),
        ({
            let body = diff.hunk_text(file_index as int, hunk_index as int);
            let hunk = diff.file_diffs@[file_index as int].hunks@[hunk_index as int];
            highlights.lines() == (if config.diff_colorizer && colorized is Some && reproduces(
                colorized_rows(colorized->0@),
                body,
            ) {
                last_runs(colorized_rows(colorized->0@), body)
            } else {
                by_line(body, layers(*config, body, hunk, old_tags@, new_tags@))
            })
        }),
        ({
            let body = diff.hunk_text(file_index as int, hunk_index as int);
            let hunk = diff.file_diffs@[file_index as int].hunks@[hunk_index as int];
            !config.diff_colorizer || colorized is None || !reproduces(
                colorized_rows(colorized->0@),
                body,
            ) ==> painting::painted(
                *config,
                body,
                hunk,
                old_tags@,
                new_tags@,
                highlights.lines(),
            )
        }),
{
    if config.diff_colorizer {
        if let Some(output) = colorized {
            if let Some(highlights) = colorize_hunk_from_output(
                diff,
                file_index,
                hunk_index,
                output,
            ) {
                return highlights;
            }
        }
    }
    let hunk_content = diff.hunk_content(file_index, hunk_index);
    let hunk = &diff.file_diffs[file_index].hunks[hunk_index];
    let length = text::byte_length(hunk_content);
    proof {
        assert(diff.file_diffs@[file_index as int].wf(diff.text@));
        assert(hunk.wf(diff.text@));
        lemma_changes_fit(diff.text@, *hunk);
        syntax_highlights_tile(config.syntax, length as int, old_tags@);
        syntax_highlights_tile(config.syntax, length as int, new_tags@);
        context_highlights_tile(config.diff, hunk_content@);
    }
    let old_syntax = iter_syntax_highlights(&config.syntax, length, old_tags);
    let new_syntax = iter_syntax_highlights(&config.syntax, length, new_tags);
    let changes = iter_diff_highlights(&config.diff, hunk_content, hunk);
    let markers = iter_diff_context_highlights(&config.diff, hunk_content);
    proof {
        spans::zip_styles_tiles(old_syntax@, new_syntax@, 0, length as int);
        spans::zip_styles_tiles(changes@, markers@, 0, length as int);
        spans::zip_styles_tiles(
            spans::merged(old_syntax@, new_syntax@),
            spans::merged(changes@, markers@),
            0,
            length as int,
        );
    }
    proof {
        painting::hunks_are_painted(*config, hunk_content@, *hunk, old_tags@, new_tags@);
    }
    let syntax = spans::zip_styles(old_syntax, new_syntax);
    let edits = spans::zip_styles(changes, markers);
    let all = spans::zip_styles(syntax, edits);
    split_by_line(hunk_content, all)
}

pub proof fn lemma_changes_fit(text: Seq<char>, hunk: Hunk)
    requires
        hunk.wf(text),
    ensures
        changes_fit(hunk.body(text), hunk),
        diff::changes_ordered(hunk.content.changes@),
{
    let range = hunk.content.range;
    let changes = hunk.content.changes@;
    assert forall|i: int| 0 <= i < changes.len() implies change_fits(
        hunk.body(text),
        range.start as int,
        #[trigger] changes[i],
    ) by {
        let change = changes[i];
        assert(diff::range_in(text, change.old) && diff::range_in(text, change.new));
        let (lo, hi) = (range.start as int, range.end as int);
        text::lemma_slice_boundary(text, lo, hi, change.old.start as int);
        text::lemma_slice_boundary(text, lo, hi, change.old.end as int);
        text::lemma_slice_boundary(text, lo, hi, change.new.start as int);
        text::lemma_slice_boundary(text, lo, hi, change.new.end as int);
    }
}

} // verus!
