//! How texts are taken apart and put together.

use crate::text;
use vstd::prelude::*;

verus! {

/// Whether a text has another in it, at some place.
pub open spec fn occurs_at(s: Seq<char>, part: Seq<char>, at: int) -> bool {
    0 <= at && at + part.len() <= s.len() && s.subrange(at, at + part.len()) == part
}

proof fn lemma_prefix(s: Seq<char>, part: Seq<char>)
    ensures
        part.is_prefix_of(s) <==> occurs_at(s, part, 0),
{
}

/// A text that doesn't hold what is to be replaced stays as it is.
pub proof fn nothing_to_replace(s: Seq<char>, from: Seq<char>, to: Seq<char>)
    requires
        forall|i: int| !#[trigger] occurs_at(s, from, i),
    ensures
        text::replaced(s, from, to) == s,
    decreases s.len(),
{
    if s.len() > 0 && from.len() > 0 {
        assert(!occurs_at(s, from, 0));
        let rest = s.drop_first();
        assert forall|i: int| !#[trigger] occurs_at(rest, from, i) by {
            if occurs_at(rest, from, i) {
                assert(s.subrange(i + 1, i + 1 + from.len()) =~= rest.subrange(
                    i,
                    i + from.len(),
                ));
                assert(occurs_at(s, from, i + 1));
            }
        }
        nothing_to_replace(rest, from, to);
        assert(seq![s[0]] + rest =~= s);
    }
}

/// What is to be replaced is, where it stands first, and the rest is gone on with
/// behind it.
pub proof fn the_first_is_replaced(a: Seq<char>, b: Seq<char>, from: Seq<char>, to: Seq<char>)
    requires
        from.len() > 0,
        forall|i: int| 0 <= i < a.len() ==> !#[trigger] occurs_at(a + from + b, from, i),
    ensures
        text::replaced(a + from + b, from, to) == a + to + text::replaced(b, from, to),
    decreases a.len(),
{
    let s = a + from + b;
    if a.len() == 0 {
        assert(s.subrange(0, from.len() as int) =~= from);
        assert(s.skip(from.len() as int) =~= b);
        assert(a + to =~= to);
    } else {
        assert(!occurs_at(s, from, 0));
        let rest = a.drop_first();
        assert(s.drop_first() =~= rest + from + b);
        assert forall|i: int| 0 <= i < rest.len() implies !#[trigger] occurs_at(
            rest + from + b,
            from,
            i,
        ) by {
            if occurs_at(rest + from + b, from, i) {
                assert(s.subrange(i + 1, i + 1 + from.len()) =~= (rest + from + b).subrange(
                    i,
                    i + from.len(),
                ));
                assert(occurs_at(s, from, i + 1));
            }
        }
        the_first_is_replaced(rest, b, from, to);
        assert(seq![s[0]] + (rest + to + text::replaced(b, from, to)) =~= a + to + text::replaced(
            b,
            from,
            to,
        ));
    }
}

proof fn lemma_starts_with_tab(s: Seq<char>)
    requires
        s.len() > 0,
    ensures
        seq!['\t'].is_prefix_of(s) <==> s[0] == '\t',
{
    assert(s.subrange(0, 1) =~= seq![s[0]]);
    assert(seq!['\t'][0] == '\t');
    if seq!['\t'].is_prefix_of(s) {
        assert(s.subrange(0, 1)[0] == '\t');
    }
}

/// Tabs are drawn as four spaces each, and nothing else is changed.
pub proof fn tabs_are_widened(s: Seq<char>, i: int)
    requires
        0 <= i < s.len(),
    ensures
        text::replaced(s, "\t"@, "    "@) == text::replaced(s.take(i), "\t"@, "    "@) + (if s[i]
            == '\t' {
            seq![' ', ' ', ' ', ' ']
        } else {
            seq![s[i]]
        }) + text::replaced(s.skip(i + 1), "\t"@, "    "@),
    decreases i,
{
    reveal_strlit("\t");
    reveal_strlit("    ");
    let (tab, spaces) = ("\t"@, "    "@);
    assert(tab =~= seq!['\t']);
    assert(spaces =~= seq![' ', ' ', ' ', ' ']);
    let rest = s.drop_first();
    assert(s.skip(1) =~= rest);
    lemma_starts_with_tab(s);
    if i == 0 {
        assert(s.take(0) =~= Seq::<char>::empty());
        assert(text::replaced(s.take(0), tab, spaces) =~= Seq::<char>::empty());
    } else {
        tabs_are_widened(rest, i - 1);
        assert(rest.take(i - 1) =~= s.take(i).drop_first());
        assert(rest.skip(i) =~= s.skip(i + 1));
        assert(s.take(i).skip(1) =~= s.take(i).drop_first());
        lemma_starts_with_tab(s.take(i));
        let one = if s[i] == '\t' {
            seq![' ', ' ', ' ', ' ']
        } else {
            seq![s[i]]
        };
        let first = if s[0] == '\t' {
            spaces
        } else {
            seq![s[0]]
        };
        let front = text::replaced(rest.take(i - 1), tab, spaces);
        let back = text::replaced(s.skip(i + 1), tab, spaces);
        assert(first + (front + one + back) =~= (first + front) + one + back);
    }
}

/// A text is its lines, each with the newline that ends it. There is no newline but at
/// the end of one, and only the last may be without.
pub proof fn lines_end_at_newlines(s: Seq<char>, i: int)
    requires
        0 <= i < text::lines(s).len(),
    ensures
        text::lines(s).flatten() == s,
        text::lines(s)[i].len() > 0,
        forall|k: int| 0 <= k < text::lines(s)[i].len() - 1 ==> text::lines(s)[i][k] != '\n',
        i + 1 < text::lines(s).len() ==> text::lines(s)[i].last() == '\n',
    decreases s.len(),
{
    text::lemma_lines_concat(s);
    text::lemma_line_len(s);
    let n = text::line_len(s) as int;
    let rest = s.skip(n);
    if i == 0 {
        assert(text::lines(s)[0] == s.take(n));
        if text::lines(s).len() > 1 {
            assert(text::lines(rest).len() > 0);
            assert(n < s.len());
        }
    } else {
        assert(text::lines(s)[i] == text::lines(rest)[i - 1]);
        lines_end_at_newlines(rest, i - 1);
    }
}

/// What ends a line is a newline, with a carriage return before it or without.
pub proof fn endings_are_dropped(line: Seq<char>)
    ensures
        text::unended(line.push('\r').push('\n')) == line,
        line.len() == 0 || line.last() != '\r' ==> text::unended(line.push('\n')) == line,
        line.len() == 0 || line.last() != '\n' ==> text::unended(line) == line,
{
    assert(line.push('\r').push('\n').drop_last() =~= line.push('\r'));
    assert(line.push('\r').drop_last() =~= line);
    assert(line.push('\n').drop_last() =~= line);
}

/// Whether a text is nothing but white space.
pub open spec fn all_white(s: Seq<char>) -> bool {
    forall|i: int| 0 <= i < s.len() ==> text::white(#[trigger] s[i])
}

proof fn lemma_trimmed_end(s: Seq<char>)
    ensures
        text::trimmed_end(s).len() <= s.len(),
        s.take(text::trimmed_end(s).len() as int) == text::trimmed_end(s),
        forall|i: int| text::trimmed_end(s).len() <= i < s.len() ==> text::white(#[trigger] s[i]),
        text::trimmed_end(s).len() > 0 ==> !text::white(text::trimmed_end(s).last()),
    decreases s.len(),
{
    if s.len() > 0 && text::white(s.last()) {
        lemma_trimmed_end(s.drop_last());
        let n = text::trimmed_end(s).len() as int;
        assert(s.drop_last().take(n) =~= s.take(n));
        assert forall|i: int| n <= i < s.len() implies text::white(#[trigger] s[i]) by {
            if i < s.len() - 1 {
                assert(text::white(s.drop_last()[i]));
            }
        }
    } else {
        assert(s.take(s.len() as int) =~= s);
    }
}

/// What is left of a text once it is trimmed is between its first and its last character
/// that isn't white.
pub proof fn trimming_takes_white_space(before: Seq<char>, s: Seq<char>, behind: Seq<char>)
    requires
        all_white(before),
        all_white(behind),
        s.len() > 0,
        !text::white(s[0]),
        !text::white(s.last()),
    ensures
        text::trimmed(before + s + behind) == s,
        text::trimmed(before).len() == 0,
{
    let all = before + s + behind;
    text::lemma_white_run_is(all, before.len() as int);
    assert(all.skip(before.len() as int) =~= s + behind);
    lemma_trimmed_end(all);
    lemma_trimmed_end(s + behind);
    lemma_trimmed_end(all.take(0));
    let n = text::trimmed_end(all).len() as int;
    let last = before.len() + s.len() - 1;
    assert(all[last] == s.last());
    assert(n > last);
    if n > last + 1 {
        assert(text::trimmed_end(all).last() == all[n - 1]);
        assert(all[n - 1] == behind[n - 1 - before.len() - s.len()]);
    }
    assert(text::trimmed_end(all) =~= before + s);
    text::lemma_white_run_is(before + s, before.len() as int);
    assert((before + s).skip(before.len() as int) =~= s);
    let m = text::trimmed_end(s + behind).len() as int;
    assert((s + behind)[s.len() - 1] == s.last());
    assert(m > s.len() - 1);
    if m > s.len() {
        assert(text::trimmed_end(s + behind).last() == (s + behind)[m - 1]);
        assert((s + behind)[m - 1] == behind[m - 1 - s.len()]);
    }
    assert(text::trimmed_end(s + behind) =~= s);
    lemma_trimmed_end(before);
    let k = text::trimmed_end(before).len() as int;
    if k > 0 {
        assert(text::trimmed_end(before).last() == before[k - 1]);
    }
    text::lemma_runs(before);
    lemma_trimmed_end(before.skip(text::white_run(before) as int));
    text::lemma_runs(text::trimmed_end(before));
}

/// The first word of a text is what stands between white space, and what is behind it is
/// the rest.
pub proof fn words_stand_between_white_space(
    before: Seq<char>,
    word: Seq<char>,
    behind: Seq<char>,
)
    requires
        all_white(before),
        word.len() > 0,
        forall|i: int| 0 <= i < word.len() ==> !text::white(#[trigger] word[i]),
        behind.len() == 0 || text::white(behind[0]),
    ensures
        text::first_word(before + word + behind) == Some(word),
        text::after_first_word(before + word + behind) == behind,
        text::first_word(before) is None,
{
    let all = before + word + behind;
    assert(all[before.len() as int] == word[0]);
    text::lemma_white_run_is(all, before.len() as int);
    let rest = all.skip(before.len() as int);
    assert(rest =~= word + behind);
    assert(text::trimmed_start(all) =~= rest);
    text::lemma_word_run_is(rest, word.len() as int);
    assert(rest.take(word.len() as int) =~= word);
    assert(rest.skip(word.len() as int) =~= behind);
    text::lemma_runs(before);
}

} // verus!
