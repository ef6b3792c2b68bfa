//! A line that is typed on.

use crate::text;
use vstd::prelude::*;

verus! {

/// A key, as far as a line that is typed on tells them apart.
#[derive(Debug, Clone, Copy, PartialEq, Eq, Structural)]
pub enum KeyCode {
    Char(char),
    Backspace,
    Delete,
    Left,
    Right,
    Up,
    Down,
    Home,
    End,
    Other,
}

/// The keys held down with another.
#[derive(Debug, Clone, Copy, PartialEq, Eq, Structural)]
pub struct Modifiers {
    pub shift: bool,
    pub ctrl: bool,
    pub alt: bool,
    /// Any other: super, hyper or meta.
    pub other: bool,
}

pub open spec fn no_modifiers() -> Modifiers {
    Modifiers { shift: false, ctrl: false, alt: false, other: false }
}

impl Modifiers {
    pub open spec fn plain(self) -> bool {
        self == no_modifiers()
    }

    pub open spec fn only_shift(self) -> bool {
        self == (Modifiers { shift: true, ..no_modifiers() })
    }

    pub open spec fn only_ctrl(self) -> bool {
        self == (Modifiers { ctrl: true, ..no_modifiers() })
    }

    pub open spec fn only_alt(self) -> bool {
        self == (Modifiers { alt: true, ..no_modifiers() })
    }

    pub fn none() -> (m: Modifiers)
        ensures
            m == no_modifiers(),
    {
        Modifiers { shift: false, ctrl: false, alt: false, other: false }
    }

    pub fn is_none(self) -> (is: bool)
        ensures
            is == self.plain(),
    {
        !self.shift && !self.ctrl && !self.alt && !self.other
    }

    pub fn is_shift(self) -> (is: bool)
        ensures
            is == self.only_shift(),
    {
        self.shift && !self.ctrl && !self.alt && !self.other
    }

    pub fn is_ctrl(self) -> (is: bool)
        ensures
            is == self.only_ctrl(),
    {
        !self.shift && self.ctrl && !self.alt && !self.other
    }

    pub fn is_alt(self) -> (is: bool)
        ensures
            is == self.only_alt(),
    {
        !self.shift && !self.ctrl && self.alt && !self.other
    }
}

/// What happened to a key.
#[derive(Debug, Clone, Copy, PartialEq, Eq, Structural)]
pub enum KeyKind {
    Press,
    Repeat,
    Release,
}

/// A key as it arrives.
#[derive(Debug, Clone, Copy, PartialEq, Eq, Structural)]
pub struct Key {
    pub code: KeyCode,
    pub modifiers: Modifiers,
    pub kind: KeyKind,
}

/// The keys some others amount to when they are pressed one after the other.
pub open spec fn presses(keys: Seq<(Modifiers, KeyCode)>) -> Seq<Key> {
    keys.map_values(
        |key: (Modifiers, KeyCode)|
            Key { code: key.1, modifiers: key.0, kind: KeyKind::Press },
    )
}

/// The keys that arrive when some are pressed one after the other.
pub fn keys_to_events(keys: &Vec<(Modifiers, KeyCode)>) -> (events: Vec<Key>)
    ensures
        events@ == presses(keys@),
{
    let mut events: Vec<Key> = Vec::new();
    let mut i: usize = 0;
    while i < keys.len()
        invariant
            i <= keys@.len(),
            events@ =~= presses(keys@).take(i as int),
        decreases keys@.len() - i,
    {
        events.push(Key { code: keys[i].1, modifiers: keys[i].0, kind: KeyKind::Press });
        i += 1;
    }
    events
}

/// A line being typed, and where in it, counted in characters.
#[derive(Debug)]
pub struct TextInput {
    pub value: String,
    pub position: usize,
    pub focused: bool,
}

/// A line, and the place in it where the next character lands.
#[verifier::ext_equal]
pub struct Line {
    pub value: Seq<char>,
    pub cursor: int,
}

impl Line {
    /// The line with the cursor elsewhere: at its end, if that is as far as it goes.
    pub open spec fn at(self, place: int) -> Line {
        Line {
            value: self.value,
            cursor: if place < self.value.len() {
                place
            } else {
                self.value.len() as int
            },
        }
    }

    /// The line with some of it taken out, and the cursor where it was.
    pub open spec fn without(self, from: int, to: int) -> Line {
        Line { value: self.value.take(from) + self.value.skip(to), cursor: from }
    }

    /// The line with a text put in, and the cursor behind it.
    pub open spec fn with(self, more: Seq<char>) -> Line {
        Line {
            value: self.value.take(self.cursor) + more + self.value.skip(self.cursor),
            cursor: self.cursor + more.len(),
        }
    }
}

/// What a key does to a line: the motions and deletions of a single character, and
/// typing one.
pub open spec fn keyed(line: Line, key: Key) -> Line {
    if key.kind == KeyKind::Release {
        line
    } else {
        match key.code {
            KeyCode::Left => if line.cursor > 0 {
                line.at(line.cursor - 1)
            } else {
                line
            },
            KeyCode::Right => line.at(line.cursor + 1),
            KeyCode::Home => line.at(0),
            KeyCode::End => line.at(line.value.len() as int),
            KeyCode::Backspace => if line.cursor > 0 {
                line.without(line.cursor - 1, line.cursor)
            } else {
                line
            },
            KeyCode::Delete => if line.cursor < line.value.len() {
                line.without(line.cursor, line.cursor + 1)
            } else {
                line
            },
            KeyCode::Char(c) => if key.modifiers.plain() || key.modifiers.only_shift() {
                line.with(seq![c])
            } else if key.modifiers.only_ctrl() {
                if c == 'b' {
                    if line.cursor > 0 {
                        line.at(line.cursor - 1)
                    } else {
                        line
                    }
                } else if c == 'f' {
                    line.at(line.cursor + 1)
                } else if c == 'a' {
                    line.at(0)
                } else if c == 'e' {
                    line.at(line.value.len() as int)
                } else if c == 'h' {
                    if line.cursor > 0 {
                        line.without(line.cursor - 1, line.cursor)
                    } else {
                        line
                    }
                } else if c == 'd' {
                    if line.cursor < line.value.len() {
                        line.without(line.cursor, line.cursor + 1)
                    } else {
                        line
                    }
                } else {
                    line
                }
            } else {
                line
            },
            _ => line,
        }
    }
}

impl View for TextInput {
    type V = Line;

    /// A place past the end of the line is its end.
    open spec fn view(&self) -> Line {
        Line {
            value: self.value@,
            cursor: if self.position < self.value@.len() {
                self.position as int
            } else {
                self.value@.len() as int
            },
        }
    }
}

/// What a key amounts to on a line: the character it types, or what it moves over
/// or deletes.
enum Stroke {
    Left,
    Right,
    Start,
    End,
    Backspace,
    Delete,
    Type(char),
    Nothing,
}

fn stroke(key: Key) -> (stroke: Stroke)
    requires
        key.kind != KeyKind::Release,
    ensures
        forall|line: Line| #[trigger]
            keyed(line, key) == match stroke {
                Stroke::Left => if line.cursor > 0 {
                    line.at(line.cursor - 1)
                } else {
                    line
                },
                Stroke::Right => line.at(line.cursor + 1),
                Stroke::Start => line.at(0),
                Stroke::End => line.at(line.value.len() as int),
                Stroke::Backspace => if line.cursor > 0 {
                    line.without(line.cursor - 1, line.cursor)
                } else {
                    line
                },
                Stroke::Delete => if line.cursor < line.value.len() {
                    line.without(line.cursor, line.cursor + 1)
                } else {
                    line
                },
                Stroke::Type(c) => line.with(seq![c]),
                Stroke::Nothing => line,
            },
{
    match key.code {
        KeyCode::Left => Stroke::Left,
        KeyCode::Right => Stroke::Right,
        KeyCode::Home => Stroke::Start,
        KeyCode::End => Stroke::End,
        KeyCode::Backspace => Stroke::Backspace,
        KeyCode::Delete => Stroke::Delete,
        KeyCode::Char(c) => if key.modifiers.is_none() || key.modifiers.is_shift() {
            Stroke::Type(c)
        } else if key.modifiers.is_ctrl() {
            if c == 'b' {
                Stroke::Left
            } else if c == 'f' {
                Stroke::Right
            } else if c == 'a' {
                Stroke::Start
            } else if c == 'e' {
                Stroke::End
            } else if c == 'h' {
                Stroke::Backspace
            } else if c == 'd' {
                Stroke::Delete
            } else {
                Stroke::Nothing
            }
        } else {
            Stroke::Nothing
        },
        _ => Stroke::Nothing,
    }
}

impl TextInput {
    /// Whether the next character lands somewhere in the line.
    pub open spec fn wf(&self) -> bool {
        self.position <= self.value@.len()
    }

    /// A line with nothing on it.
    pub fn new() -> (input: TextInput)
        ensures
            input.wf(),
            !input.focused,
            input@ == (Line { value: seq![], cursor: 0 }),
    {
        let input = TextInput { value: String::new(), position: 0, focused: false };
        proof {
            assert(input.value@ =~= seq![]);
        }
        input
    }

    /// How many characters are on the line.
    pub fn len(&self) -> (len: usize)
        ensures
            len == self.value@.len(),
    {
        text::to_chars(self.value.as_str()).len()
    }

    /// Where the next character lands.
    pub fn cursor(&self) -> (cursor: usize)
        ensures
            cursor == self@.cursor,
    {
        let len = self.len();
        if self.position < len {
            self.position
        } else {
            len
        }
    }

    /// Put the cursor somewhere: at the end of the line, if that is as far as it
    /// goes.
    pub fn move_to(&mut self, place: usize)
        ensures
            final(self).wf(),
            final(self).focused == old(self).focused,
            final(self)@ == old(self)@.at(place as int),
    {
        let len = self.len();
        self.position = if place < len {
            place
        } else {
            len
        };
    }

    /// Take some of the line out.
    pub fn remove(&mut self, from: usize, to: usize)
        requires
            from <= to <= old(self).value@.len(),
        ensures
            final(self).wf(),
            final(self).focused == old(self).focused,
            final(self)@ == old(self)@.without(from as int, to as int),
    {
        let chars = text::to_chars(self.value.as_str());
        let mut value = text::from_chars(chars.as_slice(), 0, from);
        value.push_str(text::from_chars(chars.as_slice(), to, chars.len()).as_str());
        proof {
            assert(value@ =~= self.value@.take(from as int) + self.value@.skip(to as int));
        }
        self.value = value;
        self.position = from;
        proof {
            assert(self@ =~= old(self)@.without(from as int, to as int));
        }
    }

    /// Put a text in where the cursor is.
    pub fn insert(&mut self, more: &str)
        ensures
            final(self).wf(),
            final(self).focused == old(self).focused,
            final(self)@ == old(self)@.with(more@),
    {
        let cursor = self.cursor();
        let chars = text::to_chars(self.value.as_str());
        let added = text::to_chars(more).len();
        let mut value = text::from_chars(chars.as_slice(), 0, cursor);
        value.push_str(more);
        value.push_str(text::from_chars(chars.as_slice(), cursor, chars.len()).as_str());
        proof {
            assert(value@ =~= self.value@.take(cursor as int) + more@ + self.value@.skip(
                cursor as int,
            ));
        }
        let total = text::to_chars(value.as_str()).len();
        self.value = value;
        self.position = cursor + added;
        proof {
            assert(self@ =~= old(self)@.with(more@));
        }
    }

    /// Type a key: the motions and deletions of a single character, or a character.
    pub fn handle_key_event(&mut self, key: Key)
        ensures
            old(self).wf() ==> final(self).wf(),
            final(self).focused == old(self).focused,
            final(self)@ == keyed(old(self)@, key),
    {
        if key.kind == KeyKind::Release {
            return;
        }
        let cursor = self.cursor();
        let len = self.len();
        match stroke(key) {
            Stroke::Left => {
                if cursor > 0 {
                    self.move_to(cursor - 1);
                }
            },
            Stroke::Right => {
                let next: usize = if cursor < len {
                    cursor + 1
                } else {
                    len
                };
                self.move_to(next);
            },
            Stroke::Start => self.move_to(0),
            Stroke::End => self.move_to(len),
            Stroke::Backspace => {
                if cursor > 0 {
                    self.remove(cursor - 1, cursor);
                }
            },
            Stroke::Delete => {
                if cursor < len {
                    self.remove(cursor, cursor + 1);
                }
            },
            Stroke::Type(c) => {
                let mut more = String::new();
                more.push(c);
                proof {
                    assert(more@ =~= seq![c]);
                }
                self.insert(more.as_str());
            },
            Stroke::Nothing => {},
        }
    }
}

} // verus!
