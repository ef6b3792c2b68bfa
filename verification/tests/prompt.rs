use gitu::prompt::{history_file_name, HistoryKind, Prompt, PromptData};
use gitu::text_input::{keys_to_events, Key, KeyCode, KeyKind, Modifiers};

const NONE: Modifiers = Modifiers {
    shift: false,
    ctrl: false,
    alt: false,
    other: false,
};

/// Keys as they are written: `<alt+b>`, `<ctrl+left>`, or a character.
fn parse_keys(keys: &str) -> Vec<(Modifiers, KeyCode)> {
    let mut out = Vec::new();
    let mut rest = keys;
    while !rest.is_empty() {
        if let Some(tail) = rest.strip_prefix('<') {
            let end = tail.find('>').unwrap();
            let mut modifiers = NONE;
            let mut name = &tail[..end];
            while let Some((modifier, key)) = name.split_once('+') {
                match modifier {
                    "alt" => modifiers.alt = true,
                    "ctrl" => modifiers.ctrl = true,
                    "shift" => modifiers.shift = true,
                    _ => unreachable!(),
                }
                name = key;
            }
            let code = match name {
                "left" => KeyCode::Left,
                "right" => KeyCode::Right,
                "up" => KeyCode::Up,
                "down" => KeyCode::Down,
                "backspace" => KeyCode::Backspace,
                "delete" => KeyCode::Delete,
                "home" => KeyCode::Home,
                "end" => KeyCode::End,
                _ => KeyCode::Char(name.chars().next().unwrap()),
            };
            out.push((modifiers, code));
            rest = &tail[end + 1..];
        } else {
            let c = rest.chars().next().unwrap();
            out.push((NONE, KeyCode::Char(c)));
            rest = &rest[c.len_utf8()..];
        }
    }
    out
}

fn type_keys(prompt: &mut Prompt, keys: &str) {
    for key in keys_to_events(&parse_keys(keys)) {
        prompt.handle_key(key);
    }
}

fn shown(prompt: &Prompt) -> String {
    let chars: Vec<char> = prompt.state.value.chars().collect();
    let cursor = prompt.state.cursor();
    format!(
        "{}|{}",
        chars[..cursor].iter().collect::<String>(),
        chars[cursor..].iter().collect::<String>()
    )
}

/// The line and cursor after typing `keys`, both written with `|` where
/// the cursor is.
fn edited(before: &str, keys: &str) -> String {
    let (value, rest) = before.split_once('|').expect("no cursor in the line");
    let mut prompt = Prompt::new();
    prompt.state.value = format!("{value}{rest}");
    prompt.state.move_to(value.chars().count());
    type_keys(&mut prompt, keys);
    shown(&prompt)
}

/// A word is a run of letters and digits, so a motion stops inside a path
/// rather than stepping over the whole of it.
#[test]
fn a_word_motion_steps_over_letters_and_digits() {
    assert_eq!(edited("git diff main|", "<alt+b>"), "git diff |main");
    assert_eq!(edited("git diff main|", "<alt+b><alt+b>"), "git |diff main");
    assert_eq!(edited("|src/lib.rs", "<alt+f>"), "src|/lib.rs");
    assert_eq!(edited("|src/lib.rs", "<alt+f><alt+f>"), "src/lib|.rs");
    assert_eq!(edited("|a", "<alt+b>"), "|a");
    assert_eq!(edited("a|", "<alt+f>"), "a|");
    assert_eq!(edited("a b|", "<ctrl+left>"), "a |b");
    assert_eq!(edited("|a b", "<ctrl+right>"), "a| b");
}

/// `ctrl+w` takes back a whole token, which is what a pathspec is: nobody
/// wants it in the pieces its punctuation makes.
#[test]
fn ctrl_w_takes_back_a_whole_token() {
    assert_eq!(
        edited("git diff -- ':(top,exclude)*_test.go'|", "<ctrl+w>"),
        "git diff -- |"
    );
    assert_eq!(edited("git diff  |", "<ctrl+w>"), "git |");
    assert_eq!(edited("|", "<ctrl+w>"), "|");
}

#[test]
fn a_word_can_be_killed_either_side_of_the_cursor() {
    assert_eq!(edited("src/lib.rs|", "<alt+backspace>"), "src/lib.|");
    assert_eq!(edited("|src/lib.rs", "<alt+d>"), "|/lib.rs");
    assert_eq!(edited("a |b c", "<alt+d>"), "a | c");
}

/// What a kill took, `ctrl+y` puts back — which is how a token is moved,
/// and how a mistaken kill is undone.
#[test]
fn what_was_killed_can_be_put_back() {
    assert_eq!(
        edited("git diff main|", "<ctrl+w><ctrl+y>"),
        "git diff main|"
    );
    assert_eq!(
        edited("git diff main|", "<ctrl+w><ctrl+a><ctrl+y>"),
        "main|git diff "
    );
    // A kill of nothing leaves the last kill to be put back.
    assert_eq!(edited("a b|", "<ctrl+w><ctrl+a><ctrl+w><ctrl+y>"), "b|a ");
}

#[test]
fn a_line_can_be_killed_to_the_end_or_entirely() {
    assert_eq!(edited("git |diff main", "<ctrl+k>"), "git |");
    assert_eq!(
        edited("git |diff main", "<ctrl+k><ctrl+y>"),
        "git diff main|"
    );
    assert_eq!(edited("git |diff", "<ctrl+u>"), "|");
    assert_eq!(edited("git |diff", "<ctrl+u><ctrl+y>"), "git diff|");
}

#[test]
fn two_characters_change_places() {
    assert_eq!(edited("ab|cd", "<ctrl+t>"), "acb|d");
    assert_eq!(edited("ab|", "<ctrl+t>"), "ba|");
    assert_eq!(edited("|ab", "<ctrl+t>"), "ba|");
    assert_eq!(edited("a|", "<ctrl+t>"), "a|");
}

/// The keys of a plain line still do what they did.
#[test]
fn the_single_character_keys_are_untouched() {
    assert_eq!(edited("git dif|", "f"), "git diff|");
    assert_eq!(edited("git diff|", "<backspace>"), "git dif|");
    assert_eq!(edited("git |diff", "<ctrl+e>"), "git diff|");
    assert_eq!(edited("git diff|", "<ctrl+a>"), "|git diff");
    assert_eq!(edited("git diff|", "<left>"), "git dif|f");
}

/// Characters are characters, not bytes: a motion over them lands between
/// them.
#[test]
fn a_multibyte_line_edits_by_character() {
    assert_eq!(edited("héllo wörld|", "<ctrl+w>"), "héllo |");
    assert_eq!(edited("héllo wörld|", "<alt+b>"), "héllo |wörld");
    assert_eq!(edited("héllo|", "<backspace>"), "héll|");
}

#[test]
fn the_other_keys_of_a_plain_line() {
    assert_eq!(edited("a|b", "<right>"), "ab|");
    assert_eq!(edited("ab|", "<right>"), "ab|");
    assert_eq!(edited("|ab", "<left>"), "|ab");
    assert_eq!(edited("|ab", "<backspace>"), "|ab");
    assert_eq!(edited("|ab", "<delete>"), "|b");
    assert_eq!(edited("ab|", "<delete>"), "ab|");
    assert_eq!(edited("a|b", "<home>"), "|ab");
    assert_eq!(edited("a|b", "<end>"), "ab|");
    assert_eq!(edited("ab|c", "<ctrl+h><ctrl+d>"), "a|");
    assert_eq!(edited("ab|", "<ctrl+b><ctrl+f>"), "ab|");
    assert_eq!(edited("|", "<shift+A><alt+x><ctrl+x>"), "A|");
}

#[test]
fn a_key_that_is_let_go_does_nothing() {
    let mut prompt = Prompt::new();
    prompt.handle_key(Key {
        code: KeyCode::Char('a'),
        modifiers: NONE,
        kind: KeyKind::Release,
    });
    assert_eq!(shown(&prompt), "|");
    prompt.handle_key(Key {
        code: KeyCode::Char('a'),
        modifiers: NONE,
        kind: KeyKind::Repeat,
    });
    assert_eq!(shown(&prompt), "a|");
}

#[test]
fn a_prompt_is_set_and_put_away() {
    let mut prompt = Prompt::with_history("/state".into());
    prompt.set(PromptData {
        prompt_text: "Files".into(),
    });
    assert!(prompt.state.focused);
    type_keys(&mut prompt, "a b<ctrl+w>");
    prompt.reset();
    assert!(prompt.data.is_none());
    assert!(!prompt.state.focused);
    assert_eq!(shown(&prompt), "|");
    type_keys(&mut prompt, "<ctrl+y>");
    assert_eq!(shown(&prompt), "b|");
}

/// Going back over what was answered before, an edit on the way is kept, and the
/// draft is there to come back to.
#[test]
fn history_is_gone_back_over_and_on_again() {
    let mut prompt = Prompt::with_history("/state".into());
    type_keys(&mut prompt, "dr");
    prompt.start_history(Some(HistoryKind::GitCommand), "one\ndr\r\ntwo\n");
    type_keys(&mut prompt, "<up>");
    assert_eq!(shown(&prompt), "two|");
    type_keys(&mut prompt, "!<up>");
    assert_eq!(shown(&prompt), "one|");
    type_keys(&mut prompt, "<up>");
    assert_eq!(shown(&prompt), "one|");
    type_keys(&mut prompt, "<down>");
    assert_eq!(shown(&prompt), "two!|");
    type_keys(&mut prompt, "<down><down>");
    assert_eq!(shown(&prompt), "dr|");
}

#[test]
fn an_answer_is_kept_only_where_answers_are() {
    let mut prompt = Prompt::with_history("/state".into());
    assert!(prompt.remember("git diff").is_none());
    prompt.start_history(None, "");
    assert!(prompt.remember("git diff").is_none());
    prompt.start_history(Some(HistoryKind::FilePatterns), "");
    assert!(prompt.remember("").is_none());
    let kept = prompt.remember("!a.rs").unwrap();
    assert_eq!(kept.dir, "/state");
    assert_eq!(kept.file, "file-pattern-history");
    assert_eq!(kept.line, "!a.rs\n");

    let mut nowhere = Prompt::new();
    nowhere.start_history(Some(HistoryKind::GitCommand), "one\n");
    assert!(nowhere.active_history.is_none());
    assert_eq!(
        history_file_name(HistoryKind::GitCommand),
        "git-command-history"
    );
}

/// A character held down with super, hyper or meta is not typed.
#[test]
fn characters_held_with_others_are_not_typed() {
    let mut prompt = Prompt::new();
    type_keys(&mut prompt, "ab");
    for modifiers in [NONE, Modifiers { ctrl: true, ..NONE }] {
        prompt.handle_key(Key {
            code: KeyCode::Char('h'),
            modifiers: Modifiers { other: true, ..modifiers },
            kind: KeyKind::Press,
        });
    }
    assert_eq!(prompt.state.value, "ab");
}
