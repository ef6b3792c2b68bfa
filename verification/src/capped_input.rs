//! Reading input up to a byte limit.
//!
//! All of the input is read before anything is drawn, so output that can't be
//! got to the end of quickly — `git log -p` over a whole history, most easily —
//! leaves nothing showing for as long as that takes. Reading stops at a limit
//! instead. This is a limit on reading eagerly, not a substitute for rendering
//! incrementally: what is past the limit is dropped, and the only thing that can
//! be said about it is that it was there.
//!
//! What is kept is cut back to something the rest of the program can work with,
//! since a hunk missing its last lines is one git will not apply.

use crate::text;
use vstd::prelude::*;

verus! {

/// Input read up to a limit, and whether the limit is what stopped it.
#[derive(Debug)]
pub struct Capped {
    pub text: String,
    pub truncated: bool,
}

/// What a row that starts the diff of a file starts with.
pub const FILE_MARK: &'static str = "diff --git ";

/// What a row that starts a hunk starts with.
pub const HUNK_MARK: &'static str = "@@ ";

pub open spec fn is_letter(c: char) -> bool {
    'a' <= c <= 'z' || 'A' <= c <= 'Z'
}

/// How much of a text comes before its first ASCII letter.
pub open spec fn before_letter(s: Seq<char>) -> nat
    decreases s.len(),
{
    if s.len() == 0 || is_letter(s[0]) {
        0
    } else {
        1 + before_letter(s.drop_first())
    }
}

/// A row without the escape sequences it starts with, each of which ends at a
/// letter. One that doesn't end is left alone.
pub open spec fn unescaped(row: Seq<char>) -> Seq<char>
    decreases row.len(),
{
    if row.len() > 0 && row[0] == '\x1b' && before_letter(row.drop_first()) < row.len() - 1 {
        unescaped(row.skip(before_letter(row.drop_first()) as int + 2))
    } else {
        row
    }
}

/// How many characters some rows take up.
pub open spec fn chars_in(rows: Seq<Seq<char>>) -> nat
    decreases rows.len(),
{
    if rows.len() == 0 {
        0
    } else {
        chars_in(rows.drop_last()) + rows.last().len()
    }
}

/// Where the last row that starts with a mark starts.
pub open spec fn last_marked(rows: Seq<Seq<char>>, mark: Seq<char>) -> Option<nat>
    decreases rows.len(),
{
    if rows.len() == 0 {
        None
    } else if mark.is_prefix_of(unescaped(rows.last())) {
        Some(chars_in(rows.drop_last()))
    } else {
        last_marked(rows.drop_last(), mark)
    }
}

/// Where the last whole line ends.
pub open spec fn last_end(rows: Seq<Seq<char>>) -> nat
    decreases rows.len(),
{
    if rows.len() == 0 {
        0
    } else if rows.last().last() == '\n' {
        chars_in(rows)
    } else {
        last_end(rows.drop_last())
    }
}

/// How much of a text is whole: up to the start of the file diff or hunk it ends
/// inside, or up to its last whole line where it has no diff in it.
pub open spec fn whole_len(s: Seq<char>) -> nat {
    let rows = text::lines(s);
    match (last_marked(rows, FILE_MARK@), last_marked(rows, HUNK_MARK@)) {
        (Some(file), Some(hunk)) => if hunk > file {
            hunk
        } else {
            file
        },
        (Some(file), None) => file,
        (None, Some(hunk)) => hunk,
        (None, None) => last_end(rows),
    }
}

/// As much of a text as is whole.
pub open spec fn whole_of(s: Seq<char>) -> Seq<char> {
    s.take(whole_len(s) as int)
}

/// What is kept of some input: no more bytes than the limit.
pub open spec fn taken(input: Seq<u8>, limit: int) -> Seq<u8> {
    if input.len() > limit {
        input.take(limit)
    } else {
        input
    }
}

impl Capped {
    /// Read at most `limit` bytes of `input`. What is past the limit is dropped, and
    /// the only thing that is said about it is whether there was any.
    pub fn read(input: &[u8], limit: u64) -> (capped: Capped)
        ensures
            capped.truncated == (input@.len() > limit),
            capped.text@ == (if input@.len() > limit {
                whole_of(text::utf8_lossy(taken(input@, limit as int)))
            } else {
                text::utf8_lossy(input@)
            }),
            vstd::utf8::valid_utf8(input@) ==> text::byte_len(capped.text@) <= limit,
    {
        let truncated = input.len() as u64 > limit;
        if truncated {
            let cut: usize = limit as usize;
            let bytes = vstd::slice::slice_subrange(input, 0, cut);
            proof {
                assert(bytes@ =~= taken(input@, limit as int));
            }
            let text = text::lossy(bytes);
            proof {
                if vstd::utf8::valid_utf8(input@) {
                    lemma_kept_within(input@, limit as int, text@);
                }
            }
            Capped { text: whole(text.as_str()), truncated }
        } else {
            proof {
                if vstd::utf8::valid_utf8(input@) {
                    text::lemma_decoded_len(input@);
                }
            }
            Capped { text: text::lossy(input), truncated }
        }
    }
}

/// What is whole of a text cut at some limit takes no more bytes than that: part of a
/// character behind the last whole one is not on a line that ends.
proof fn lemma_kept_within(input: Seq<u8>, limit: int, s: Seq<char>)
    requires
        vstd::utf8::valid_utf8(input),
        0 <= limit <= input.len(),
        forall|n: int|
            0 <= n <= limit && vstd::utf8::valid_utf8(#[trigger] input.take(limit).take(n))
                ==> text::goes_on(input.take(limit), n, s),
    ensures
        text::byte_len(whole_of(s)) <= limit,
{
    let bytes = input.take(limit);
    let n = text::lemma_whole_characters(input, limit);
    assert(bytes.take(n) =~= input.take(n));
    assert(text::goes_on(bytes, n, s));
    let start = vstd::utf8::decode_utf8(bytes.take(n));
    text::lemma_decoded_len(bytes.take(n));
    assert forall|k: int| n <= k < bytes.len() implies #[trigger] bytes[k] != 0x0a by {
        assert(bytes[k] == input[k]);
    }
    let kept = whole_of(s);
    cut_between_lines(s);
    kept_lines_are_whole(s);
    if kept.len() > start.len() {
        assert(s[kept.len() - 1] == kept.last());
    }
    assert(kept =~= start.take(kept.len() as int));
    text::lemma_byte_len_take(start, kept.len() as int, start.len() as int);
}

pub proof fn lemma_chars_in_step(rows: Seq<Seq<char>>, i: int)
    requires
        0 <= i < rows.len(),
    ensures
        chars_in(rows.take(i + 1)) == chars_in(rows.take(i)) + rows[i].len(),
{
    assert(rows.take(i + 1).drop_last() =~= rows.take(i));
    assert(rows.take(i + 1).last() == rows[i]);
}

pub proof fn lemma_chars_in_flat(rows: Seq<Seq<char>>, i: int)
    requires
        0 <= i <= rows.len(),
    ensures
        chars_in(rows) == rows.flatten().len(),
        chars_in(rows.take(i)) <= chars_in(rows),
        rows.flatten().take(chars_in(rows.take(i)) as int) == rows.take(i).flatten(),
    decreases rows.len(),
{
    if rows.len() == 0 {
        assert(rows.take(i) =~= rows);
        assert(rows.flatten().take(0) =~= rows.take(i).flatten());
    } else {
        let front = rows.drop_last();
        front.lemma_flatten_push(rows.last());
        assert(front.push(rows.last()) =~= rows);
        if i == rows.len() {
            lemma_chars_in_flat(front, front.len() as int);
            assert(rows.take(i) =~= rows);
            assert(rows.flatten().take(rows.flatten().len() as int) =~= rows.flatten());
        } else {
            lemma_chars_in_flat(front, i);
            assert(front.take(i) =~= rows.take(i));
            assert(rows.flatten().take(chars_in(rows.take(i)) as int) =~= front.flatten().take(
                chars_in(rows.take(i)) as int,
            ));
        }
    }
}

proof fn lemma_marked(rows: Seq<Seq<char>>, mark: Seq<char>)
    ensures
        match last_marked(rows, mark) {
            Some(at) => exists|i: int|
                0 <= i < rows.len() && at == chars_in(#[trigger] rows.take(i)),
            None => true,
        },
    decreases rows.len(),
{
    if rows.len() > 0 {
        let front = rows.drop_last();
        if mark.is_prefix_of(unescaped(rows.last())) {
            assert(front =~= rows.take(rows.len() - 1));
        } else {
            lemma_marked(front, mark);
            if last_marked(front, mark) is Some {
                let i = choose|i: int|
                    0 <= i < front.len() && last_marked(front, mark)->0 == chars_in(
                        #[trigger] front.take(i),
                    );
                assert(front.take(i) =~= rows.take(i));
            }
        }
    }
}

proof fn lemma_last_end(rows: Seq<Seq<char>>)
    ensures
        exists|i: int| 0 <= i <= rows.len() && last_end(rows) == chars_in(#[trigger] rows.take(i)),
    decreases rows.len(),
{
    if rows.len() == 0 {
        assert(rows.take(0) =~= rows);
    } else if rows.last().last() == '\n' {
        assert(rows.take(rows.len() as int) =~= rows);
    } else {
        let front = rows.drop_last();
        lemma_last_end(front);
        let i = choose|i: int|
            0 <= i <= front.len() && last_end(front) == chars_in(#[trigger] front.take(i));
        assert(front.take(i) =~= rows.take(i));
    }
}

/// Text is cut between two of its lines: what is kept is its first few, whole.
pub proof fn cut_between_lines(s: Seq<char>)
    ensures
        whole_len(s) <= s.len(),
        exists|n: int|
            0 <= n <= text::lines(s).len() && whole_of(s) == (#[trigger] text::lines(s).take(
                n,
            )).flatten(),
{
    let rows = text::lines(s);
    text::lemma_lines_concat(s);
    lemma_marked(rows, FILE_MARK@);
    lemma_marked(rows, HUNK_MARK@);
    lemma_last_end(rows);
    let at = whole_len(s);
    assert(exists|i: int| 0 <= i <= rows.len() && at == chars_in(#[trigger] rows.take(i)));
    let i = choose|i: int| 0 <= i <= rows.len() && at == chars_in(#[trigger] rows.take(i));
    lemma_chars_in_flat(rows, i);
}

proof fn lemma_lines_end(s: Seq<char>, i: int)
    requires
        0 <= i < text::lines(s).len() - 1,
    ensures
        text::lines(s)[i].len() > 0,
        text::lines(s)[i].last() == '\n',
    decreases s.len(),
{
    text::lemma_line_len(s);
    let n = text::line_len(s) as int;
    let rest = s.skip(n);
    assert(text::lines(s) == seq![s.take(n)] + text::lines(rest));
    if i == 0 {
        assert(text::lines(rest).len() > 0);
        assert(rest.len() > 0);
        assert(s[n - 1] == '\n');
    } else {
        lemma_lines_end(rest, i - 1);
        assert(text::lines(s)[i] == text::lines(rest)[i - 1]);
    }
}

/// Input that was cut holds whole lines only: what is kept is empty or ends with
/// a newline.
pub proof fn kept_lines_are_whole(s: Seq<char>)
    ensures
        whole_of(s).len() == 0 || whole_of(s).last() == '\n',
{
    let rows = text::lines(s);
    text::lemma_lines_concat(s);
    lemma_marked(rows, FILE_MARK@);
    lemma_marked(rows, HUNK_MARK@);
    let at = whole_len(s);
    if last_marked(rows, FILE_MARK@) is None && last_marked(rows, HUNK_MARK@) is None {
        lemma_kept_end(s, rows.len() as int);
        assert(rows.take(rows.len() as int) =~= rows);
    } else {
        let i = choose|i: int| 0 <= i < rows.len() && at == chars_in(#[trigger] rows.take(i));
        lemma_chars_in_flat(rows, i);
        if i > 0 {
            lemma_lines_end(s, i - 1);
            lemma_flat_last(rows.take(i));
            assert(rows.take(i).last() == rows[i - 1]);
        } else {
            assert(rows.take(0) =~= Seq::<Seq<char>>::empty());
        }
    }
}

proof fn lemma_flat_last(rows: Seq<Seq<char>>)
    requires
        rows.len() > 0,
        rows.last().len() > 0,
    ensures
        rows.flatten().len() > 0,
        rows.flatten().last() == rows.last().last(),
{
    let front = rows.drop_last();
    front.lemma_flatten_push(rows.last());
    assert(front.push(rows.last()) =~= rows);
}

/// The last whole line of the first rows ends with a newline.
proof fn lemma_kept_end(s: Seq<char>, i: int)
    requires
        0 <= i <= text::lines(s).len(),
    ensures
        ({
            let end = last_end(text::lines(s).take(i)) as int;
            &&& end <= s.len()
            &&& end == 0 || s[end - 1] == '\n'
        }),
    decreases i,
{
    let rows = text::lines(s);
    text::lemma_lines_concat(s);
    if i > 0 {
        let first = rows.take(i);
        assert(first.drop_last() =~= rows.take(i - 1));
        lemma_kept_end(s, i - 1);
        lemma_chars_in_flat(rows, i);
        if first.last().last() == '\n' {
            assert(first.last() == rows[i - 1]);
            lemma_flat_last(first);
            assert(s.take(chars_in(first) as int) == first.flatten());
            assert(s[chars_in(first) - 1] == s.take(chars_in(first) as int).last());
        }
    }
}

/// A row without the escape sequences it starts with, so that its first character
/// is what says what it is: git colours what it writes to a pager, and both of
/// the headers looked for here arrive coloured.
fn past_escapes(row: &Vec<char>) -> (at: usize)
    ensures
        at <= row@.len(),
        row@.skip(at as int) == unescaped(row@),
{
    let mut at: usize = 0;
    proof {
        assert(row@.skip(0) =~= row@);
    }
    while at < row.len() && row[at] == '\x1b'
        invariant
            at <= row@.len(),
            unescaped(row@.skip(at as int)) == unescaped(row@),
        decreases row@.len() - at,
    {
        let ghost rest = row@.skip(at as int);
        let mut end: usize = at + 1;
        proof {
            assert(rest.drop_first() =~= row@.skip(at + 1));
        }
        while end < row.len() && !(('a' <= row[end] && row[end] <= 'z') || ('A' <= row[end]
            && row[end] <= 'Z'))
            invariant
                at < end <= row@.len(),
                end - at - 1 + before_letter(row@.skip(end as int)) == before_letter(
                    row@.skip(at + 1),
                ),
            decreases row@.len() - end,
        {
            proof {
                assert(row@.skip(end as int).drop_first() =~= row@.skip(end + 1));
            }
            end += 1;
        }
        if end >= row.len() {
            return at;
        }
        proof {
            assert(before_letter(row@.skip(end as int)) == 0);
            assert(rest.skip(before_letter(rest.drop_first()) as int + 2) =~= row@.skip(end + 1));
        }
        at = end + 1;
    }
    at
}

/// A text up to the start of the file diff or hunk it ends inside, or up to its
/// last whole line where it has no diff in it. The last hunk is dropped whether or
/// not it was in fact complete: the line counts in its header say how long it
/// should be, and re-parsing the patch to find out is work for one line of it.
pub fn whole(s: &str) -> (kept: String)
    ensures
        kept@ == whole_of(s@),
{
    let rows = text::split_lines(s);
    let chars = text::to_chars(s);
    let total = chars.len();
    let file_mark = text::to_chars(FILE_MARK);
    let hunk_mark = text::to_chars(HUNK_MARK);
    let ghost all = text::lines(s@);
    let mut file: Option<usize> = None;
    let mut hunk: Option<usize> = None;
    let mut line: usize = 0;
    let mut offset: usize = 0;
    let mut i: usize = 0;
    proof {
        text::lemma_lines_concat(s@);
        assert(all.take(0) =~= Seq::<Seq<char>>::empty());
        assert(text::views(rows@).len() == rows@.len());
    }
    while i < rows.len()
        invariant
            i <= rows@.len(),
            all == text::lines(s@),
            chars@ == s@,
            total == s@.len(),
            all.flatten() == s@,
            text::views(rows@) == all,
            rows@.len() == all.len(),
            file_mark@ == FILE_MARK@,
            hunk_mark@ == HUNK_MARK@,
            forall|k: int| 0 <= k < all.len() ==> (#[trigger] all[k]).len() > 0,
            offset == chars_in(all.take(i as int)),
            line == last_end(all.take(i as int)),
            match file {
                Some(at) => last_marked(all.take(i as int), FILE_MARK@) == Some(at as nat),
                None => last_marked(all.take(i as int), FILE_MARK@) is None,
            },
            match hunk {
                Some(at) => last_marked(all.take(i as int), HUNK_MARK@) == Some(at as nat),
                None => last_marked(all.take(i as int), HUNK_MARK@) is None,
            },
        decreases rows@.len() - i,
    {
        let row = text::to_chars(rows[i]);
        proof {
            assert(row@ == all[i as int]);
            assert(all.take(i + 1).drop_last() =~= all.take(i as int));
            assert(all.take(i + 1).last() == all[i as int]);
            lemma_chars_in_flat(all, i + 1);
            lemma_chars_in_step(all, i as int);
        }
        let content = past_escapes(&row);
        let opens_file = text::prefix_at(&row, content, &file_mark);
        let opens_hunk = text::prefix_at(&row, content, &hunk_mark);
        if opens_file {
            file = Some(offset);
        }
        if opens_hunk {
            hunk = Some(offset);
        }
        offset += row.len();
        if row[row.len() - 1] == '\n' {
            line = offset;
        }
        i += 1;
    }
    proof {
        assert(all.take(i as int) =~= all);
        cut_between_lines(s@);
    }
    let end: usize = match (file, hunk) {
        // A file diff whose last hunk is the one being dropped keeps its earlier
        // hunks; one with no whole hunk in it goes entirely.
        (Some(file), Some(hunk)) => if hunk > file {
            hunk
        } else {
            file
        },
        (Some(file), None) => file,
        (None, Some(hunk)) => hunk,
        (None, None) => line,
    };
    proof {
        assert(s@.subrange(0, end as int) =~= whole_of(s@));
    }
    text::from_chars(chars.as_slice(), 0, end)
}

} // verus!
