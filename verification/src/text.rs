//! Text as a sequence of characters, and the byte offsets those characters sit
//! at. Everything that hands out a `Range<usize>` counts bytes, as `str` does;
//! everything that says what a text is counts characters.

use vstd::prelude::*;
use vstd::utf8::*;

verus! {

/// What some texts are.
pub open spec fn views(parts: Seq<&str>) -> Seq<Seq<char>> {
    parts.map_values(|part: &str| part@)
}

/// What some owned texts are.
pub open spec fn string_views(strings: Seq<String>) -> Seq<Seq<char>> {
    strings.map_values(|s: String| s@)
}

/// What a text is, where there is one.
pub open spec fn maybe(part: Option<&str>) -> Option<Seq<char>> {
    match part {
        Some(part) => Some(part@),
        None => None,
    }
}

/// How many bytes a character takes.
pub open spec fn width(c: char) -> nat {
    encode_scalar(c as u32).len()
}

/// How many bytes a text takes.
#[verifier::opaque]
pub open spec fn byte_len(s: Seq<char>) -> nat {
    encode_utf8(s).len()
}

/// Whether a byte offset falls between two characters of `s`.
pub open spec fn boundary(s: Seq<char>, at: int) -> bool {
    exists|i: int| 0 <= i <= s.len() && at == #[trigger] byte_len(s.take(i))
}

/// The characters of `s` between two byte offsets.
pub open spec fn slice(s: Seq<char>, start: int, end: int) -> Seq<char> {
    s.subrange(char_at(s, start), char_at(s, end))
}

/// The character a byte offset falls in front of.
pub open spec fn char_at(s: Seq<char>, at: int) -> int {
    choose|i: int| 0 <= i <= s.len() && at == #[trigger] byte_len(s.take(i))
}

pub broadcast proof fn lemma_width(c: char)
    ensures
        1 <= #[trigger] width(c) <= 4,
        (c as u32) < 0x80 ==> width(c) == 1,
{
}

pub proof fn lemma_encode_concat(a: Seq<char>, b: Seq<char>)
    ensures
        encode_utf8(a + b) == encode_utf8(a) + encode_utf8(b),
    decreases a.len(),
{
    if a.len() == 0 {
        assert(a + b =~= b);
        assert(encode_utf8(a) + encode_utf8(b) =~= encode_utf8(b));
    } else {
        assert((a + b).drop_first() =~= a.drop_first() + b);
        lemma_encode_concat(a.drop_first(), b);
        assert(encode_utf8(a + b) =~= encode_utf8(a) + encode_utf8(b));
    }
}

pub proof fn lemma_byte_len_concat(a: Seq<char>, b: Seq<char>)
    ensures
        byte_len(a + b) == byte_len(a) + byte_len(b),
{
    reveal(byte_len);
    lemma_encode_concat(a, b);
}

pub proof fn lemma_byte_len_empty()
    ensures
        byte_len(Seq::<char>::empty()) == 0,
{
    reveal(byte_len);
}

pub proof fn lemma_byte_len_single(c: char)
    ensures
        byte_len(seq![c]) == width(c),
{
    reveal(byte_len);
    assert(seq![c].drop_first() =~= Seq::<char>::empty());
    reveal_with_fuel(encode_utf8, 2);
    assert(encode_utf8(seq![c]) =~= encode_scalar(c as u32));
}

/// A text takes at least a byte a character, and nothing only when it is empty.
pub proof fn lemma_byte_len_at_least(s: Seq<char>)
    ensures
        s.len() <= byte_len(s),
    decreases s.len(),
{
    lemma_byte_len_empty();
    if s.len() == 0 {
        assert(s =~= Seq::<char>::empty());
    } else {
        assert(s =~= s.drop_last() + seq![s.last()]);
        lemma_byte_len_concat(s.drop_last(), seq![s.last()]);
        lemma_byte_len_single(s.last());
        lemma_byte_len_at_least(s.drop_last());
    }
}

/// One character further on is that character's width further on.
pub proof fn lemma_byte_len_step(s: Seq<char>, i: int)
    requires
        0 <= i < s.len(),
    ensures
        byte_len(s.take(i + 1)) == byte_len(s.take(i)) + width(s[i]),
{
    assert(s.take(i + 1) =~= s.take(i) + seq![s[i]]);
    lemma_byte_len_concat(s.take(i), seq![s[i]]);
    lemma_byte_len_single(s[i]);
}

pub proof fn lemma_byte_len_push(s: Seq<char>, c: char)
    ensures
        byte_len(s.push(c)) == byte_len(s) + width(c),
{
    assert(s.push(c) =~= s + seq![c]);
    lemma_byte_len_concat(s, seq![c]);
    lemma_byte_len_single(c);
}

/// Offsets grow with the characters in front of them.
pub proof fn lemma_byte_len_take(s: Seq<char>, i: int, j: int)
    requires
        0 <= i <= j <= s.len(),
    ensures
        byte_len(s.take(j)) == byte_len(s.take(i)) + byte_len(s.subrange(i, j)),
        byte_len(s.take(i)) <= byte_len(s.take(j)) <= byte_len(s),
        i < j ==> byte_len(s.take(i)) < byte_len(s.take(j)),
        j - i <= byte_len(s.subrange(i, j)),
        byte_len(s.take(0)) == 0,
        byte_len(s.take(s.len() as int)) == byte_len(s),
        byte_len(s) == byte_len(s.take(j)) + byte_len(s.skip(j)),
{
    assert(s.take(j) =~= s.take(i) + s.subrange(i, j));
    lemma_byte_len_concat(s.take(i), s.subrange(i, j));
    assert(s =~= s.take(j) + s.skip(j));
    lemma_byte_len_concat(s.take(j), s.skip(j));
    assert(s.take(s.len() as int) =~= s);
    assert(s.take(0) =~= Seq::<char>::empty());
    lemma_byte_len_empty();
    lemma_byte_len_at_least(s.subrange(i, j));
}

/// Two characters never share an offset.
pub proof fn lemma_char_at(s: Seq<char>, i: int)
    requires
        0 <= i <= s.len(),
    ensures
        char_at(s, byte_len(s.take(i)) as int) == i,
        boundary(s, byte_len(s.take(i)) as int),
{
    let at = byte_len(s.take(i)) as int;
    let j = char_at(s, at);
    assert(0 <= j <= s.len() && at == byte_len(s.take(j)));
    if i < j {
        lemma_byte_len_take(s, i, j);
    } else if j < i {
        lemma_byte_len_take(s, j, i);
    }
}

pub proof fn lemma_boundary(s: Seq<char>, at: int)
    requires
        boundary(s, at),
    ensures
        0 <= char_at(s, at) <= s.len(),
        at == byte_len(s.take(char_at(s, at))),
        0 <= at <= byte_len(s),
{
    lemma_byte_len_take(s, char_at(s, at), s.len() as int);
}

pub proof fn lemma_boundary_ends(s: Seq<char>)
    ensures
        boundary(s, 0),
        boundary(s, byte_len(s) as int),
        char_at(s, 0) == 0,
        char_at(s, byte_len(s) as int) == s.len(),
{
    lemma_byte_len_take(s, 0, 0);
    lemma_char_at(s, 0);
    lemma_char_at(s, s.len() as int);
}

proof fn lemma_is_char_boundary(s: Seq<char>, i: int)
    requires
        0 <= i <= s.len(),
    ensures
        is_char_boundary(encode_utf8(s), byte_len(s.take(i)) as int),
        encode_utf8(s).subrange(0, byte_len(s.take(i)) as int) == encode_utf8(s.take(i)),
        encode_utf8(s).subrange(byte_len(s.take(i)) as int, encode_utf8(s).len() as int)
            == encode_utf8(s.skip(i)),
    decreases i,
{
    reveal(byte_len);
    assert(s =~= s.take(i) + s.skip(i));
    lemma_encode_concat(s.take(i), s.skip(i));
    assert(encode_utf8(s).subrange(0, encode_utf8(s.take(i)).len() as int) =~= encode_utf8(
        s.take(i),
    ));
    assert(encode_utf8(s).subrange(
        encode_utf8(s.take(i)).len() as int,
        encode_utf8(s).len() as int,
    ) =~= encode_utf8(s.skip(i)));
    encode_utf8_valid_utf8(s);
    if i == 0 {
        assert(s.take(0) =~= Seq::<char>::empty());
    } else {
        let rest = s.drop_first();
        encode_utf8_first_scalar(s);
        assert(pop_first_scalar(encode_utf8(s)) =~= encode_utf8(rest));
        lemma_is_char_boundary(rest, i - 1);
        assert(s.take(i).drop_first() =~= rest.take(i - 1));
        assert(encode_utf8(s.take(i)) == encode_scalar(s[0] as u32) + encode_utf8(
            rest.take(i - 1),
        ));
    }
}

/// The bytes a character is written in.
pub fn char_width(c: char) -> (n: usize)
    ensures
        n == width(c),
{
    let code: u32 = c as u32;
    if code <= 0x7F {
        1
    } else if code <= 0x7FF {
        2
    } else if code <= 0xFFFF {
        3
    } else {
        4
    }
}

/// A text's length in bytes.
pub fn byte_length(s: &str) -> (n: usize)
    ensures
        n == byte_len(s@),
{
    let bytes = s.as_bytes();
    proof {
        reveal(byte_len);
    }
    bytes.len()
}

/// Whether an offset falls between two characters.
pub fn at_boundary(s: &str, at: usize) -> (is: bool)
    ensures
        is == boundary(s@, at as int),
{
    let chars = to_chars(s);
    let total = byte_length(s);
    let mut i: usize = 0;
    let mut offset: usize = 0;
    proof {
        lemma_byte_len_take(s@, 0, 0);
    }
    while i < chars.len() && offset < at
        invariant
            i <= chars@.len(),
            chars@ == s@,
            total == byte_len(s@),
            offset == byte_len(s@.take(i as int)),
            forall|k: int| 0 <= k < i ==> #[trigger] byte_len(s@.take(k)) < at,
        decreases chars@.len() - i,
    {
        proof {
            lemma_byte_len_step(s@, i as int);
            lemma_byte_len_take(s@, i as int + 1, s@.len() as int);
        }
        offset += char_width(chars[i]);
        i += 1;
    }
    proof {
        lemma_char_at(s@, i as int);
        if boundary(s@, at as int) {
            let j = char_at(s@, at as int);
            lemma_boundary(s@, at as int);
            if i < j {
                lemma_byte_len_take(s@, i as int, j);
            } else if j < i {
                assert(byte_len(s@.take(j)) < at);
            }
        }
    }
    offset == at
}

/// Whether a text is empty.
pub fn is_empty(s: &str) -> (empty: bool)
    ensures
        empty == (s@.len() == 0),
{
    proof {
        lemma_byte_len_at_least(s@);
        lemma_byte_len_empty();
        if s@.len() == 0 {
            assert(s@ =~= Seq::<char>::empty());
        }
    }
    byte_length(s) == 0
}

/// The part of `s` between two byte offsets that fall between characters.
pub fn str_slice<'a>(s: &'a str, start: usize, end: usize) -> (part: &'a str)
    requires
        boundary(s@, start as int),
        boundary(s@, end as int),
        start <= end,
    ensures
        part@ == slice(s@, start as int, end as int),
        0 <= char_at(s@, start as int) <= char_at(s@, end as int) <= s@.len(),
{
    let ghost i = char_at(s@, start as int);
    let ghost j = char_at(s@, end as int);
    proof {
        lemma_boundary(s@, start as int);
        lemma_boundary(s@, end as int);
        if j < i {
            lemma_byte_len_take(s@, j, i);
        }
        lemma_is_char_boundary(s@, j);
    }
    let (head, _tail) = s.split_at(end);
    proof {
        encode_utf8_decode_utf8(head@);
        encode_utf8_decode_utf8(s@.take(j));
        assert(head@ == s@.take(j));
        lemma_is_char_boundary(head@, i);
        assert(head@.take(i) =~= s@.take(i));
    }
    let (_front, part) = head.split_at(start);
    proof {
        encode_utf8_decode_utf8(part@);
        encode_utf8_decode_utf8(head@.skip(i));
        assert(head@.skip(i) =~= s@.subrange(i, j));
    }
    part
}

/// The characters of a text.
pub fn to_chars(s: &str) -> (chars: Vec<char>)
    ensures
        chars@ == s@,
{
    let mut chars: Vec<char> = Vec::new();
    for c in it: s.chars()
        invariant
            it.seq() == s@,
            chars@ == s@.take(it.index() as int),
    {
        proof {
            assert(s@.take(it.index() + 1) =~= s@.take(it.index() as int).push(s@[it.index() as int]));
        }
        chars.push(c);
    }
    proof {
        assert(s@.take(s@.len() as int) =~= s@);
    }
    chars
}

/// `String::push`: the text with one character more.
pub assume_specification[ std::string::String::push ](s: &mut std::string::String, c: char)
    ensures
        final(s)@ == old(s)@.push(c),
;

/// `String::push_str`: the text with another text at its end.
pub assume_specification[ std::string::String::push_str ](s: &mut std::string::String, other: &str)
    ensures
        final(s)@ == old(s)@ + other@,
;

/// The text made of some of `chars`.
pub fn from_chars(chars: &[char], from: usize, to: usize) -> (s: String)
    requires
        from <= to <= chars@.len(),
    ensures
        s@ == chars@.subrange(from as int, to as int),
{
    let mut s = String::new();
    let mut i: usize = from;
    while i < to
        invariant
            from <= i <= to <= chars@.len(),
            s@ =~= chars@.subrange(from as int, i as int),
        decreases to - i,
    {
        s.push(chars[i]);
        i += 1;
    }
    s
}

// ---------------------------------------------------------------------------
// Lines
// ---------------------------------------------------------------------------

/// How many characters the first line of `s` has, its newline included.
pub open spec fn line_len(s: Seq<char>) -> nat
    decreases s.len(),
{
    if s.len() == 0 {
        0
    } else if s[0] == '\n' {
        1
    } else {
        1 + line_len(s.drop_first())
    }
}

/// The lines of a text, each with the newline that ends it. Only the last may
/// be without one, and none is empty.
pub open spec fn lines(s: Seq<char>) -> Seq<Seq<char>>
    decreases s.len(),
{
    if s.len() == 0 || line_len(s) == 0 || line_len(s) > s.len() {
        seq![]
    } else {
        seq![s.take(line_len(s) as int)] + lines(s.skip(line_len(s) as int))
    }
}

pub proof fn lemma_line_len(s: Seq<char>)
    requires
        s.len() > 0,
    ensures
        1 <= line_len(s) <= s.len(),
        forall|k: int| 0 <= k < line_len(s) - 1 ==> s[k] != '\n',
        line_len(s) < s.len() ==> s[line_len(s) - 1] == '\n',
    decreases s.len(),
{
    if s[0] != '\n' && s.len() > 1 {
        let rest = s.drop_first();
        lemma_line_len(rest);
        assert forall|k: int| 0 <= k < line_len(s) - 1 implies s[k] != '\n' by {
            if k > 0 {
                assert(s[k] == rest[k - 1]);
            }
        }
        if line_len(s) < s.len() {
            assert(s[line_len(s) - 1] == rest[line_len(rest) - 1]);
        }
    } else if s[0] != '\n' {
        assert(line_len(s.drop_first()) == 0);
    }
}

/// The first line ends at the first newline there is.
pub proof fn lemma_line_len_is(s: Seq<char>, n: int)
    requires
        0 <= n < s.len(),
        s[n] == '\n',
        forall|k: int| 0 <= k < n ==> s[k] != '\n',
    ensures
        line_len(s) == n + 1,
{
    lemma_line_len(s);
    let m = line_len(s) as int;
    if m < n + 1 {
        assert(s[m - 1] == '\n');
    } else if m > n + 1 {
        assert(s[n] != '\n');
    }
}

pub proof fn lemma_line_len_whole(s: Seq<char>)
    requires
        s.len() > 0,
        forall|k: int| 0 <= k < s.len() ==> s[k] != '\n',
    ensures
        line_len(s) == s.len(),
{
    lemma_line_len(s);
}

/// A text's lines put together again are the text.
pub proof fn lemma_lines_concat(s: Seq<char>)
    ensures
        lines(s).flatten() == s,
        forall|i: int| 0 <= i < lines(s).len() ==> #[trigger] lines(s)[i].len() > 0,
    decreases s.len(),
{
    if s.len() == 0 {
        assert(lines(s) =~= Seq::<Seq<char>>::empty());
        assert(lines(s).flatten() =~= s);
    } else {
        lemma_line_len(s);
        let n = line_len(s) as int;
        let first = s.take(n);
        let rest = lines(s.skip(n));
        lemma_lines_concat(s.skip(n));
        assert((seq![first] + rest).drop_first() =~= rest);
        assert((seq![first] + rest).flatten() == first + rest.flatten());
        assert(first + s.skip(n) =~= s);
        assert forall|i: int| 0 <= i < lines(s).len() implies #[trigger] lines(s)[i].len() > 0 by {
            if i > 0 {
                assert(lines(s)[i] == rest[i - 1]);
            }
        }
    }
}

/// How many bytes some texts take together.
pub open spec fn total_len(parts: Seq<Seq<char>>) -> nat
    decreases parts.len(),
{
    if parts.len() == 0 {
        0
    } else {
        total_len(parts.drop_last()) + byte_len(parts.last())
    }
}

pub proof fn lemma_total_len_front(first: Seq<char>, rest: Seq<Seq<char>>)
    ensures
        total_len(seq![first] + rest) == byte_len(first) + total_len(rest),
    decreases rest.len(),
{
    let whole = seq![first] + rest;
    reveal_with_fuel(total_len, 2);
    if rest.len() == 0 {
        assert(whole.drop_last() =~= Seq::<Seq<char>>::empty());
        assert(whole.last() == first);
    } else {
        assert(whole.drop_last() =~= seq![first] + rest.drop_last());
        assert(whole.last() == rest.last());
        lemma_total_len_front(first, rest.drop_last());
    }
}

/// The offset one part further on.
pub proof fn lemma_total_len_step(parts: Seq<Seq<char>>, i: int)
    requires
        0 <= i < parts.len(),
    ensures
        total_len(parts.take(i + 1)) == total_len(parts.take(i)) + byte_len(parts[i]),
{
    assert(parts.take(i + 1).drop_last() =~= parts.take(i));
    assert(parts.take(i + 1).last() == parts[i]);
}

/// Offsets of parts grow.
pub proof fn lemma_total_len_take(parts: Seq<Seq<char>>, i: int, j: int)
    requires
        0 <= i <= j <= parts.len(),
    ensures
        total_len(parts.take(i)) <= total_len(parts.take(j)) <= total_len(parts),
        total_len(parts.take(0)) == 0,
        total_len(parts.take(parts.len() as int)) == total_len(parts),
    decreases parts.len() - i,
{
    assert(parts.take(0) =~= Seq::<Seq<char>>::empty());
    assert(parts.take(parts.len() as int) =~= parts);
    if i < j {
        lemma_total_len_step(parts, i);
        lemma_total_len_take(parts, i + 1, j);
    } else if j < parts.len() {
        lemma_total_len_step(parts, j);
        lemma_total_len_take(parts, j + 1, parts.len() as int);
    }
}

/// Parts that make up a text sit at the offsets their predecessors take up:
/// `parts[i]` is what `s` holds between the offset of part `i` and that of the
/// next one.
pub proof fn lemma_parts(s: Seq<char>, parts: Seq<Seq<char>>, i: int)
    requires
        parts.flatten() == s,
        0 <= i <= parts.len(),
    ensures
        total_len(parts) == byte_len(s),
        boundary(s, total_len(parts.take(i)) as int),
        i < parts.len() ==> slice(
            s,
            total_len(parts.take(i)) as int,
            total_len(parts.take(i + 1)) as int,
        ) == parts[i] && char_at(s, total_len(parts.take(i + 1)) as int) == char_at(
            s,
            total_len(parts.take(i)) as int,
        ) + parts[i].len() && 0 <= char_at(s, total_len(parts.take(i)) as int) && char_at(
            s,
            total_len(parts.take(i + 1)) as int,
        ) <= s.len(),
    decreases parts.len(),
{
    if parts.len() == 0 {
        assert(s =~= Seq::<char>::empty());
        lemma_byte_len_empty();
        assert(parts.take(0) =~= Seq::<Seq<char>>::empty());
        lemma_boundary_ends(s);
    } else {
        let first = parts[0];
        let rest = parts.drop_first();
        let tail = rest.flatten();
        assert(s == first + tail);
        assert(parts =~= seq![first] + rest);
        lemma_total_len_front(first, rest);
        lemma_byte_len_concat(first, tail);
        if i == 0 {
            lemma_parts(tail, rest, 0);
            assert(parts.take(0) =~= Seq::<Seq<char>>::empty());
            lemma_boundary_ends(s);
            lemma_total_len_step(parts, 0);
            assert(s.take(first.len() as int) =~= first);
            lemma_char_at(s, first.len() as int);
            assert(s.subrange(0, first.len() as int) =~= first);
        } else {
            lemma_parts(tail, rest, i - 1);
            assert(parts.take(i) =~= seq![first] + rest.take(i - 1));
            lemma_total_len_front(first, rest.take(i - 1));
            let at = total_len(rest.take(i - 1)) as int;
            let c = char_at(tail, at);
            lemma_boundary(tail, at);
            assert(s.take(first.len() + c) =~= first + tail.take(c));
            lemma_byte_len_concat(first, tail.take(c));
            lemma_char_at(s, first.len() + c);
            if i < parts.len() {
                assert(parts.take(i + 1) =~= seq![first] + rest.take(i));
                lemma_total_len_front(first, rest.take(i));
                let next = total_len(rest.take(i)) as int;
                let d = char_at(tail, next);
                lemma_parts(tail, rest, i);
                lemma_boundary(tail, next);
                assert(s.take(first.len() + d) =~= first + tail.take(d));
                lemma_byte_len_concat(first, tail.take(d));
                lemma_char_at(s, first.len() + d);
                assert(s.subrange(first.len() + c, first.len() + d) =~= tail.subrange(c, d));
            }
        }
    }
}

/// The lines of a text, each with the newline that ends it.
pub fn split_lines<'a>(s: &'a str) -> (out: Vec<&'a str>)
    ensures
        views(out@) == lines(s@),
{
    let chars = to_chars(s);
    let total = byte_length(s);
    let mut out: Vec<&'a str> = Vec::new();
    let mut i: usize = 0;
    let mut offset: usize = 0;
    let mut start: usize = 0;
    let ghost mut first: int = 0;
    proof {
        lemma_byte_len_take(s@, 0, 0);
        assert(s@.skip(0) =~= s@);
    }
    while i < chars.len()
        invariant
            chars@ == s@,
            total == byte_len(s@),
            0 <= first <= i <= s@.len(),
            offset == byte_len(s@.take(i as int)),
            start == byte_len(s@.take(first)),
            forall|k: int| first <= k < i ==> s@[k] != '\n',
            views(out@) + lines(s@.skip(first)) =~= lines(s@),
        decreases chars.len() - i,
    {
        let c = chars[i];
        proof {
            lemma_byte_len_step(s@, i as int);
            lemma_byte_len_take(s@, i as int + 1, s@.len() as int);
        }
        offset += char_width(c);
        i += 1;
        if c == '\n' {
            proof {
                let rest = s@.skip(first);
                let n = i - first;
                assert(rest[n - 1] == '\n');
                assert forall|k: int| 0 <= k < n - 1 implies rest[k] != '\n' by {
                    assert(rest[k] == s@[first + k]);
                }
                lemma_line_len_is(rest, n - 1);
                lemma_char_at(s@, first);
                lemma_char_at(s@, i as int);
                lemma_byte_len_take(s@, first, i as int);
                assert(rest.skip(n) =~= s@.skip(i as int));
                assert(rest.take(n) =~= s@.subrange(first, i as int));
            }
            let ghost before = out@;
            out.push(str_slice(s, start, offset));
            proof {
                assert(views(out@) =~= views(before).push(s@.subrange(first, i as int)));
                first = i as int;
            }
            start = offset;
        }
    }
    proof {
        assert(s@.take(s@.len() as int) =~= s@);
    }
    if start < offset {
        proof {
            let rest = s@.skip(first);
            if first == s@.len() {
                assert(s@.take(first) =~= s@);
            }
            assert forall|k: int| 0 <= k < rest.len() implies rest[k] != '\n' by {
                assert(rest[k] == s@[first + k]);
            }
            lemma_line_len_whole(rest);
            lemma_char_at(s@, first);
            lemma_char_at(s@, i as int);
            assert(rest.skip(rest.len() as int) =~= Seq::<char>::empty());
            assert(lines(rest.skip(rest.len() as int)) =~= Seq::<Seq<char>>::empty());
            assert(rest.take(rest.len() as int) =~= s@.subrange(first, i as int));
        }
        let ghost before = out@;
        out.push(str_slice(s, start, offset));
        proof {
            assert(views(out@) =~= views(before).push(s@.subrange(first, i as int)));
        }
    } else {
        proof {
            if first < i {
                lemma_byte_len_take(s@, first, i as int);
            }
            assert(s@.skip(first) =~= Seq::<char>::empty());
        }
    }
    out
}

/// What bytes read as when those that are no text are replaced.
pub uninterp spec fn utf8_lossy(bytes: Seq<u8>) -> Seq<char>;

/// Whether a text is what the first `n` of some bytes say, and goes on on the same
/// line if those bytes do.
pub open spec fn goes_on(bytes: Seq<u8>, n: int, s: Seq<char>) -> bool {
    let start = decode_utf8(bytes.take(n));
    &&& start.is_prefix_of(s)
    &&& (forall|k: int| n <= k < bytes.len() ==> #[trigger] bytes[k] != 0x0a) ==> forall|k: int|
        start.len() <= k < s.len() ==> #[trigger] s[k] != '\n'
}

/// `String::from_utf8_lossy`: bytes that are text are that text, and so are those at
/// the front of others; what else bytes read as goes by its name. Only what is no
/// text is replaced, and by no newline, so there is a newline only where one of the
/// bytes is one.
#[verifier::external_body]
pub(crate) fn lossy(bytes: &[u8]) -> (s: String)
    ensures
        s@ == utf8_lossy(bytes@),
        valid_utf8(bytes@) ==> s@ == decode_utf8(bytes@),
        forall|n: int|
            0 <= n <= bytes@.len() && valid_utf8(#[trigger] bytes@.take(n)) ==> goes_on(
                bytes@,
                n,
                s@,
            ),
{
    String::from_utf8_lossy(bytes).into_owned()
}

/// How many bytes of a text, up to some limit, are whole characters: cut at the
/// limit, only part of one character is left behind them, and that is no newline.
pub proof fn lemma_whole_characters(bytes: Seq<u8>, limit: int) -> (n: int)
    requires
        valid_utf8(bytes),
        0 <= limit <= bytes.len(),
    ensures
        0 <= n <= limit,
        valid_utf8(bytes.take(n)),
        forall|k: int| n <= k < limit ==> #[trigger] bytes[k] != 0x0a,
    decreases bytes.len(),
{
    if bytes.len() == 0 || limit < length_of_first_scalar(bytes) {
        assert(bytes.take(0) =~= Seq::<u8>::empty());
        0
    } else {
        let first = length_of_first_scalar(bytes);
        let rest = pop_first_scalar(bytes);
        let n = first + lemma_whole_characters(rest, limit - first);
        let kept = bytes.take(n);
        assert(pop_first_scalar(kept) =~= rest.take(n - first));
        assert(valid_first_scalar(kept));
        assert forall|k: int| n <= k < limit implies #[trigger] bytes[k] != 0x0a by {
            assert(rest[k - first] == bytes[k]);
        }
        n
    }
}

/// Bytes that are text take as many bytes as there are.
pub proof fn lemma_decoded_len(bytes: Seq<u8>)
    requires
        valid_utf8(bytes),
    ensures
        byte_len(decode_utf8(bytes)) == bytes.len(),
{
    reveal(byte_len);
    decode_utf8_encode_utf8(bytes);
}

/// Whether two texts are the same.
pub fn same_text(a: &str, b: &str) -> (same: bool)
    ensures
        same == (a@ == b@),
{
    let (x, y) = (a.as_bytes(), b.as_bytes());
    proof {
        encode_utf8_decode_utf8(a@);
        encode_utf8_decode_utf8(b@);
    }
    same_bytes(x, y)
}

/// Whether two byte strings are the same.
pub fn same_bytes(a: &[u8], b: &[u8]) -> (same: bool)
    ensures
        same == (a@ == b@),
{
    if a.len() != b.len() {
        return false;
    }
    let mut i: usize = 0;
    while i < a.len()
        invariant
            i <= a@.len(),
            a@.len() == b@.len(),
            forall|k: int| 0 <= k < i ==> a@[k] == b@[k],
        decreases a@.len() - i,
    {
        if a[i] != b[i] {
            return false;
        }
        i += 1;
    }
    assert(a@ =~= b@);
    true
}

/// What sits between two offsets still does once there is more text behind it.
pub proof fn lemma_boundary_push(s: Seq<char>, c: char)
    ensures
        forall|at: int| #[trigger] boundary(s, at) ==> boundary(s.push(c), at),
{
    assert forall|at: int| #[trigger] boundary(s, at) implies boundary(s.push(c), at) by {
        lemma_boundary(s, at);
        let i = char_at(s, at);
        assert(s.push(c).take(i) =~= s.take(i));
        lemma_char_at(s.push(c), i);
    }
}

/// Whether a text starts with another.
pub fn starts_with(s: &str, prefix: &str) -> (starts: bool)
    ensures
        starts == prefix@.is_prefix_of(s@),
{
    let chars = to_chars(s);
    let wanted = to_chars(prefix);
    prefix_at(&chars, 0, &wanted)
}

/// Whether a text ends with another.
pub fn ends_with(s: &str, suffix: &str) -> (ends: bool)
    ensures
        ends == suffix@.is_suffix_of(s@),
{
    let chars = to_chars(s);
    let wanted = to_chars(suffix);
    if wanted.len() > chars.len() {
        return false;
    }
    let at = chars.len() - wanted.len();
    let ends = prefix_at(&chars, at, &wanted);
    proof {
        assert(s@.skip(at as int) =~= s@.subrange(at as int, s@.len() as int));
        if ends {
            assert(s@.skip(at as int).take(wanted@.len() as int) =~= s@.skip(at as int));
        } else if suffix@.is_suffix_of(s@) {
            assert(suffix@ =~= s@.skip(at as int));
            assert(wanted@.is_prefix_of(s@.skip(at as int)));
        }
    }
    ends
}

/// Whether `wanted` stands in `chars` at a place.
pub fn prefix_at(chars: &Vec<char>, at: usize, wanted: &Vec<char>) -> (is: bool)
    requires
        at <= chars@.len(),
    ensures
        is == wanted@.is_prefix_of(chars@.skip(at as int)),
{
    if chars.len() - at < wanted.len() {
        return false;
    }
    let mut i: usize = 0;
    while i < wanted.len()
        invariant
            i <= wanted@.len(),
            at + wanted@.len() <= chars.len(),
            forall|k: int| 0 <= k < i ==> wanted@[k] == chars@[at + k],
        decreases wanted@.len() - i,
    {
        if chars[at + i] != wanted[i] {
            proof {
                assert(chars@.skip(at as int)[i as int] == chars@[at + i]);
            }
            return false;
        }
        i += 1;
    }
    proof {
        assert(wanted@ =~= chars@.skip(at as int).subrange(0, wanted@.len() as int));
    }
    true
}

/// `s` with every `from` in it replaced by `to`, left to right.
pub open spec fn replaced(s: Seq<char>, from: Seq<char>, to: Seq<char>) -> Seq<char>
    decreases s.len(),
{
    if s.len() == 0 || from.len() == 0 {
        s
    } else if from.is_prefix_of(s) {
        to + replaced(s.skip(from.len() as int), from, to)
    } else {
        seq![s[0]] + replaced(s.drop_first(), from, to)
    }
}

/// Putting something longer in leaves nothing shorter.
pub proof fn lemma_replaced_len(s: Seq<char>, from: Seq<char>, to: Seq<char>)
    requires
        from.len() <= to.len(),
    ensures
        s.len() <= replaced(s, from, to).len(),
    decreases s.len(),
{
    if s.len() > 0 && from.len() > 0 {
        if from.is_prefix_of(s) {
            lemma_replaced_len(s.skip(from.len() as int), from, to);
        } else {
            lemma_replaced_len(s.drop_first(), from, to);
        }
    }
}

/// Replace every `from` in `s` by `to`.
pub fn replace(s: &str, from: &str, to: &str) -> (out: String)
    requires
        from@.len() > 0,
    ensures
        out@ == replaced(s@, from@, to@),
{
    let chars = to_chars(s);
    let wanted = to_chars(from);
    let mut out = String::new();
    let mut i: usize = 0;
    proof {
        assert(s@.skip(0) =~= s@);
        assert(out@ + replaced(s@, from@, to@) =~= replaced(s@, from@, to@));
    }
    while i < chars.len()
        invariant
            i <= chars@.len(),
            chars@ == s@,
            wanted@ == from@,
            from@.len() > 0,
            out@ + replaced(s@.skip(i as int), from@, to@) == replaced(s@, from@, to@),
        decreases chars@.len() - i,
    {
        let ghost rest = s@.skip(i as int);
        let ghost before = out@;
        if prefix_at(&chars, i, &wanted) {
            out.push_str(to);
            proof {
                assert(rest.skip(from@.len() as int) =~= s@.skip(i + from@.len()));
                assert(out@ + replaced(s@.skip(i + from@.len()), from@, to@) =~= before + replaced(
                    rest,
                    from@,
                    to@,
                ));
            }
            i += wanted.len();
        } else {
            out.push(chars[i]);
            proof {
                assert(rest.drop_first() =~= s@.skip(i + 1));
                assert(out@ + replaced(s@.skip(i + 1), from@, to@) =~= before + replaced(
                    rest,
                    from@,
                    to@,
                ));
            }
            i += 1;
        }
    }
    proof {
        assert(out@ + replaced(s@.skip(i as int), from@, to@) =~= out@);
    }
    out
}

/// The digit for a number below ten.
pub open spec fn digit(n: nat) -> char {
    (n % 10 + '0' as nat) as char
}

/// A number in decimal.
pub open spec fn decimal(n: nat) -> Seq<char>
    decreases n,
{
    if n < 10 {
        seq![digit(n)]
    } else {
        decimal(n / 10).push(digit(n))
    }
}

fn digit_char(n: u64) -> (c: char)
    requires
        n < 10,
    ensures
        c == digit(n as nat),
{
    match n {
        0 => '0',
        1 => '1',
        2 => '2',
        3 => '3',
        4 => '4',
        5 => '5',
        6 => '6',
        7 => '7',
        8 => '8',
        _ => '9',
    }
}

/// Write a number in decimal.
pub fn to_decimal(n: u64) -> (s: String)
    ensures
        s@ == decimal(n as nat),
    decreases n,
{
    if n < 10 {
        let mut s = String::new();
        s.push(digit_char(n));
        proof {
            assert(s@ =~= seq![digit(n as nat)]);
        }
        s
    } else {
        let mut s = to_decimal(n / 10);
        s.push(digit_char(n % 10));
        s
    }
}

/// Whether a character is white space, as Unicode has it.
pub open spec fn white(c: char) -> bool {
    let n = c as u32;
    ||| 0x09 <= n <= 0x0d
    ||| n == 0x20
    ||| n == 0x85
    ||| n == 0xa0
    ||| n == 0x1680
    ||| 0x2000 <= n <= 0x200a
    ||| n == 0x2028
    ||| n == 0x2029
    ||| n == 0x202f
    ||| n == 0x205f
    ||| n == 0x3000
}

/// Whether there is nothing but white space in a text.
pub open spec fn blank(s: Seq<char>) -> bool {
    forall|i: int| 0 <= i < s.len() ==> white(#[trigger] s[i])
}

/// Whether a character is white space, as Unicode has it.
pub fn is_white(c: char) -> (is: bool)
    ensures
        is == white(c),
{
    let n: u32 = c as u32;
    (0x09 <= n && n <= 0x0d) || n == 0x20 || n == 0x85 || n == 0xa0 || n == 0x1680 || (0x2000 <= n
        && n <= 0x200a) || n == 0x2028 || n == 0x2029 || n == 0x202f || n == 0x205f || n == 0x3000
}

/// Whether there is nothing but white space in a text.
pub fn is_blank(s: &str) -> (is: bool)
    ensures
        is == blank(s@),
{
    let chars = to_chars(s);
    let mut i: usize = 0;
    while i < chars.len()
        invariant
            i <= chars@.len(),
            chars@ == s@,
            forall|k: int| 0 <= k < i ==> white(#[trigger] s@[k]),
        decreases chars@.len() - i,
    {
        if !is_white(chars[i]) {
            return false;
        }
        i += 1;
    }
    true
}

/// Offsets into a part of a text are offsets into the text, counted from where
/// the part starts.
pub proof fn lemma_slice_boundary(s: Seq<char>, start: int, end: int, at: int)
    requires
        boundary(s, start),
        boundary(s, end),
        boundary(s, at),
        start <= at <= end,
    ensures
        boundary(slice(s, start, end), at - start),
        char_at(slice(s, start, end), at - start) == char_at(s, at) - char_at(s, start),
        char_at(s, start) <= char_at(s, at) <= char_at(s, end),
        byte_len(slice(s, start, end)) == end - start,
{
    let (i, j, k) = (char_at(s, start), char_at(s, end), char_at(s, at));
    lemma_boundary(s, start);
    lemma_boundary(s, end);
    lemma_boundary(s, at);
    if k < i {
        lemma_byte_len_take(s, k, i);
    }
    if j < k {
        lemma_byte_len_take(s, j, k);
    }
    let part = s.subrange(i, j);
    assert(part.take(k - i) =~= s.subrange(i, k));
    lemma_byte_len_take(s, i, k);
    lemma_byte_len_take(s, i, j);
    lemma_char_at(part, k - i);
}

/// A part of a part of a text is a part of the text.
pub proof fn lemma_slice_slice(s: Seq<char>, start: int, end: int, from: int, to: int)
    requires
        boundary(s, start),
        boundary(s, end),
        boundary(s, from),
        boundary(s, to),
        start <= from <= to <= end,
    ensures
        slice(slice(s, start, end), from - start, to - start) == slice(s, from, to),
{
    lemma_slice_boundary(s, start, end, from);
    lemma_slice_boundary(s, start, end, to);
    lemma_slice_boundary(s, from, to, to);
    lemma_boundary(s, start);
    lemma_boundary(s, end);
    assert(slice(slice(s, start, end), from - start, to - start) =~= slice(s, from, to));
}

// ---------------------------------------------------------------------------
// Words
// ---------------------------------------------------------------------------

/// How much white space a text starts with.
pub open spec fn white_run(s: Seq<char>) -> nat
    decreases s.len(),
{
    if s.len() > 0 && white(s[0]) {
        1 + white_run(s.drop_first())
    } else {
        0
    }
}

/// How much other than white space a text starts with.
pub open spec fn word_run(s: Seq<char>) -> nat
    decreases s.len(),
{
    if s.len() > 0 && !white(s[0]) {
        1 + word_run(s.drop_first())
    } else {
        0
    }
}

/// A text without the white space it ends with.
pub open spec fn trimmed_end(s: Seq<char>) -> Seq<char>
    decreases s.len(),
{
    if s.len() > 0 && white(s.last()) {
        trimmed_end(s.drop_last())
    } else {
        s
    }
}

/// A text without the white space it starts with.
pub open spec fn trimmed_start(s: Seq<char>) -> Seq<char> {
    s.skip(white_run(s) as int)
}

/// A text without the white space around it.
pub open spec fn trimmed(s: Seq<char>) -> Seq<char> {
    trimmed_end(trimmed_start(s))
}

/// The first word of a text, if there is any.
pub open spec fn first_word(s: Seq<char>) -> Option<Seq<char>> {
    let rest = trimmed_start(s);
    if rest.len() > 0 {
        Some(rest.take(word_run(rest) as int))
    } else {
        None
    }
}

/// What follows the first word of a text.
pub open spec fn after_first_word(s: Seq<char>) -> Seq<char> {
    let rest = trimmed_start(s);
    rest.skip(word_run(rest) as int)
}

pub proof fn lemma_runs(s: Seq<char>)
    ensures
        white_run(s) <= s.len(),
        word_run(s) <= s.len(),
        forall|k: int| 0 <= k < white_run(s) ==> white(#[trigger] s[k]),
        forall|k: int| 0 <= k < word_run(s) ==> !white(#[trigger] s[k]),
        white_run(s) < s.len() ==> !white(s[white_run(s) as int]),
        word_run(s) < s.len() ==> white(s[word_run(s) as int]),
    decreases s.len(),
{
    if s.len() > 0 {
        let rest = s.drop_first();
        lemma_runs(rest);
        assert forall|k: int| 0 <= k < white_run(s) implies white(#[trigger] s[k]) by {
            if k > 0 {
                assert(white(rest[k - 1]));
            }
        }
        assert forall|k: int| 0 <= k < word_run(s) implies !white(#[trigger] s[k]) by {
            if k > 0 {
                assert(!white(rest[k - 1]));
            }
        }
    }
}

/// White space ends where the first other character stands.
pub proof fn lemma_white_run_is(s: Seq<char>, n: int)
    requires
        0 <= n <= s.len(),
        forall|k: int| 0 <= k < n ==> white(#[trigger] s[k]),
        n < s.len() ==> !white(s[n]),
    ensures
        white_run(s) == n,
{
    lemma_runs(s);
    let m = white_run(s) as int;
    if m < n {
        assert(white(s[m]));
    } else if m > n {
        assert(white(s[n]));
    }
}

/// A word ends where the first white space stands.
pub proof fn lemma_word_run_is(s: Seq<char>, n: int)
    requires
        0 <= n <= s.len(),
        forall|k: int| 0 <= k < n ==> !white(#[trigger] s[k]),
        n < s.len() ==> white(s[n]),
    ensures
        word_run(s) == n,
{
    lemma_runs(s);
    let m = word_run(s) as int;
    if m < n {
        assert(!white(s[m]));
    } else if m > n {
        assert(!white(s[n]));
    }
}

/// Where white space that starts at a place ends.
fn skip_white(chars: &Vec<char>, from: usize) -> (to: usize)
    requires
        from <= chars@.len(),
    ensures
        to == from + white_run(chars@.skip(from as int)),
        from <= to <= chars@.len(),
{
    let mut i: usize = from;
    while i < chars.len()
        invariant
            from <= i <= chars@.len(),
            i - from + white_run(chars@.skip(i as int)) == white_run(chars@.skip(from as int)),
        decreases chars@.len() - i,
    {
        proof {
            assert(chars@.skip(i as int).drop_first() =~= chars@.skip(i + 1));
        }
        if !is_white(chars[i]) {
            return i;
        }
        i += 1;
    }
    i
}

/// Where a word that starts at a place ends.
fn skip_word(chars: &Vec<char>, from: usize) -> (to: usize)
    requires
        from <= chars@.len(),
    ensures
        to == from + word_run(chars@.skip(from as int)),
        from <= to <= chars@.len(),
{
    let mut i: usize = from;
    while i < chars.len()
        invariant
            from <= i <= chars@.len(),
            i - from + word_run(chars@.skip(i as int)) == word_run(chars@.skip(from as int)),
        decreases chars@.len() - i,
    {
        proof {
            assert(chars@.skip(i as int).drop_first() =~= chars@.skip(i + 1));
        }
        if is_white(chars[i]) {
            return i;
        }
        i += 1;
    }
    i
}

/// A text without the white space around it.
pub fn trim(s: &str) -> (out: String)
    ensures
        out@ == trimmed(s@),
{
    let chars = to_chars(s);
    proof {
        assert(s@.skip(0) =~= s@);
    }
    let start = skip_white(&chars, 0);
    let mut end: usize = chars.len();
    proof {
        assert(s@.subrange(start as int, end as int) =~= s@.skip(start as int));
    }
    while end > start
        invariant
            start <= end <= chars@.len(),
            chars@ == s@,
            trimmed_end(s@.subrange(start as int, end as int)) == trimmed(s@),
        decreases end - start,
    {
        proof {
            let part = s@.subrange(start as int, end as int);
            assert(part.last() == s@[end - 1]);
            assert(part.drop_last() =~= s@.subrange(start as int, end - 1));
        }
        if !is_white(chars[end - 1]) {
            return from_chars(chars.as_slice(), start, end);
        }
        end -= 1;
    }
    from_chars(chars.as_slice(), start, end)
}

/// A text without the white space it ends with.
pub fn trim_end(s: &str) -> (out: String)
    ensures
        out@ == trimmed_end(s@),
{
    let chars = to_chars(s);
    let mut end: usize = chars.len();
    proof {
        assert(s@.subrange(0, end as int) =~= s@);
    }
    while end > 0 && is_white(chars[end - 1])
        invariant
            end <= chars@.len(),
            chars@ == s@,
            trimmed_end(s@.subrange(0, end as int)) == trimmed_end(s@),
        decreases end,
    {
        proof {
            let part = s@.subrange(0, end as int);
            assert(part.last() == s@[end - 1]);
            assert(part.drop_last() =~= s@.subrange(0, end - 1));
        }
        end -= 1;
    }
    from_chars(chars.as_slice(), 0, end)
}

/// The first two words of a text, as many as there are.
pub fn two_words(s: &str) -> (words: (Option<String>, Option<String>))
    ensures
        match words.0 {
            Some(word) => first_word(s@) == Some(word@),
            None => first_word(s@) is None,
        },
        match words.1 {
            Some(word) => first_word(after_first_word(s@)) == Some(word@),
            None => first_word(after_first_word(s@)) is None,
        },
{
    let chars = to_chars(s);
    proof {
        assert(s@.skip(0) =~= s@);
        lemma_runs(s@);
    }
    let start = skip_white(&chars, 0);
    let end = skip_word(&chars, start);
    let ghost rest = trimmed_start(s@);
    proof {
        lemma_runs(rest);
        assert(s@.skip(end as int) =~= after_first_word(s@));
    }
    let next = skip_white(&chars, end);
    let stop = skip_word(&chars, next);
    let ghost tail = after_first_word(s@);
    proof {
        lemma_runs(tail);
        assert(s@.skip(next as int) =~= trimmed_start(tail));
        assert(s@.subrange(start as int, end as int) =~= rest.take(word_run(rest) as int));
        let last = trimmed_start(tail);
        assert(s@.subrange(next as int, stop as int) =~= last.take(word_run(last) as int));
    }
    let first = if start < chars.len() {
        Some(from_chars(chars.as_slice(), start, end))
    } else {
        None
    };
    let second = if next < chars.len() {
        Some(from_chars(chars.as_slice(), next, stop))
    } else {
        None
    };
    (first, second)
}

/// Whether a character is a letter or a digit, as Unicode has it.
pub uninterp spec fn alphanumeric(c: char) -> bool;

/// `char::is_alphanumeric`: what it says of a character goes by its name.
pub assume_specification[ char::is_alphanumeric ](c: char) -> (is: bool)
    ensures
        is == alphanumeric(c),
;

/// A copy of some texts.
pub fn clone_strings(strings: &Vec<String>) -> (copy: Vec<String>)
    ensures
        string_views(copy@) == string_views(strings@),
{
    let mut copy: Vec<String> = Vec::new();
    let mut i: usize = 0;
    while i < strings.len()
        invariant
            i <= strings@.len(),
            copy@.len() == i,
            forall|k: int| 0 <= k < i ==> (#[trigger] copy@[k])@ == strings@[k]@,
        decreases strings@.len() - i,
    {
        copy.push(strings[i].clone());
        i += 1;
    }
    proof {
        assert(string_views(copy@) =~= string_views(strings@));
    }
    copy
}

/// Whether a text is among some others.
pub fn has_text(strings: &Vec<String>, wanted: &str) -> (has: bool)
    ensures
        has == string_views(strings@).contains(wanted@),
{
    let mut i: usize = 0;
    while i < strings.len()
        invariant
            i <= strings@.len(),
            forall|k: int| 0 <= k < i ==> (#[trigger] strings@[k])@ != wanted@,
        decreases strings@.len() - i,
    {
        if same_text(strings[i].as_str(), wanted) {
            proof {
                assert(string_views(strings@)[i as int] == wanted@);
            }
            return true;
        }
        i += 1;
    }
    false
}

// ---------------------------------------------------------------------------
// Finding
// ---------------------------------------------------------------------------

/// Whether `needle` stands at the `at`th character.
pub open spec fn stands_at(s: Seq<char>, needle: Seq<char>, at: int) -> bool {
    0 <= at <= s.len() && needle.is_prefix_of(s.skip(at))
}

/// Where `needle` stands first, counted in characters.
pub open spec fn first_at(s: Seq<char>, needle: Seq<char>, at: int) -> bool {
    stands_at(s, needle, at) && forall|k: int| 0 <= k < at ==> !#[trigger] stands_at(s, needle, k)
}

/// Where `needle` stands first, counted in characters, from the `from`th on.
pub fn find_chars(chars: &Vec<char>, needle: &Vec<char>, from: usize) -> (at: Option<usize>)
    requires
        from <= chars@.len(),
    ensures
        match at {
            Some(at) => {
                &&& from <= at <= chars@.len()
                &&& stands_at(chars@, needle@, at as int)
                &&& forall|k: int| from <= k < at ==> !#[trigger] stands_at(chars@, needle@, k)
            },
            None => forall|k: int|
                from <= k <= chars@.len() ==> !#[trigger] stands_at(chars@, needle@, k),
        },
{
    let mut i: usize = from;
    loop
        invariant
            from <= i <= chars@.len(),
            forall|k: int| from <= k < i ==> !#[trigger] stands_at(chars@, needle@, k),
        decreases chars@.len() - i,
    {
        if prefix_at(chars, i, needle) {
            return Some(i);
        }
        if i == chars.len() {
            return None;
        }
        i += 1;
    }
}

/// A line without what ends it.
pub open spec fn unended(line: Seq<char>) -> Seq<char> {
    if line.len() > 0 && line.last() == '\n' {
        let rest = line.drop_last();
        if rest.len() > 0 && rest.last() == '\r' {
            rest.drop_last()
        } else {
            rest
        }
    } else {
        line
    }
}

/// The first line of a text, without what ends it.
pub open spec fn first_line(s: Seq<char>) -> Seq<char> {
    unended(s.take(line_len(s) as int))
}

/// The lines of a text, each without what ends it.
pub open spec fn plain_lines(s: Seq<char>) -> Seq<Seq<char>> {
    lines(s).map_values(|line: Seq<char>| unended(line))
}

/// The lines of a text, each without what ends it.
pub fn line_texts(s: &str) -> (out: Vec<String>)
    ensures
        string_views(out@) == plain_lines(s@),
{
    let rows = split_lines(s);
    let ghost all = lines(s@);
    let mut out: Vec<String> = Vec::new();
    let mut i: usize = 0;
    proof {
        assert(views(rows@).len() == rows@.len());
    }
    while i < rows.len()
        invariant
            i <= rows@.len(),
            all == lines(s@),
            views(rows@) == all,
            rows@.len() == all.len(),
            out@.len() == i,
            forall|k: int| 0 <= k < i ==> (#[trigger] out@[k])@ == unended(all[k]),
        decreases rows@.len() - i,
    {
        let row = to_chars(rows[i]);
        proof {
            assert(row@ == all[i as int]);
        }
        let mut end: usize = row.len();
        if end > 0 && row[end - 1] == '\n' {
            end -= 1;
            proof {
                assert(row@.drop_last() =~= row@.subrange(0, end as int));
            }
            if end > 0 && row[end - 1] == '\r' {
                end -= 1;
                proof {
                    assert(row@.drop_last().drop_last() =~= row@.subrange(0, end as int));
                }
            }
        } else {
            proof {
                assert(row@ =~= row@.subrange(0, end as int));
            }
        }
        out.push(from_chars(row.as_slice(), 0, end));
        i += 1;
    }
    proof {
        assert(string_views(out@) =~= plain_lines(s@));
    }
    out
}

/// The first line of a text, without what ends it.
pub fn opening_line(s: &str) -> (line: String)
    ensures
        line@ == first_line(s@),
{
    let chars = to_chars(s);
    let mut end: usize = 0;
    while end < chars.len() && chars[end] != '\n'
        invariant
            end <= chars@.len(),
            chars@ == s@,
            forall|k: int| 0 <= k < end ==> s@[k] != '\n',
        decreases chars@.len() - end,
    {
        end += 1;
    }
    proof {
        if s@.len() > 0 {
            if end < s@.len() {
                lemma_line_len_is(s@, end as int);
                assert(s@.take(end + 1).drop_last() =~= s@.take(end as int));
            } else {
                lemma_line_len_whole(s@);
                assert(s@.take(end as int) =~= s@);
            }
        } else {
            assert(s@.take(0) =~= s@);
        }
    }
    if end < chars.len() && end > 0 && chars[end - 1] == '\r' {
        proof {
            assert(s@.take(end as int).drop_last() =~= s@.subrange(0, end - 1));
        }
        return from_chars(chars.as_slice(), 0, end - 1);
    }
    proof {
        assert(s@.subrange(0, end as int) =~= s@.take(end as int));
    }
    from_chars(chars.as_slice(), 0, end)
}

} // verus!
