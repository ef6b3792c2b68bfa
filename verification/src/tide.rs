//! Integration with the `tide` terminal surface. When it is tide that runs the
//! program, as its git view, a file is named in the environment to which the
//! next view is written before quitting, so the dispatcher can switch views.

use crate::item_data;
use crate::text;
use crate::text_input::{Key, KeyCode, KeyKind};
use vstd::prelude::*;

verus! {

/// The variable that names the file.
pub const STATE_VAR: &'static str = "TIDE_STATE";

/// The file the next view is written to, by what the variable holds. Nothing is
/// as good as not being set.
pub fn state_file(value: Option<String>) -> (file: Option<String>)
    ensures
        file == (match value {
            Some(path) => if path@.len() > 0 {
                Some(path)
            } else {
                None
            },
            None => None,
        }),
{
    match value {
        Some(path) => if text::is_empty(path.as_str()) {
            None
        } else {
            Some(path)
        },
        None => None,
    }
}

/// The view a key asks for.
pub open spec fn view_asked(state_file: Option<Seq<char>>, key: Key) -> Option<Seq<char>> {
    if state_file is None || key.kind != KeyKind::Press || !key.modifiers.alt {
        None
    } else {
        match key.code {
            KeyCode::Char(c) => if c == 'f' {
                Some("files"@)
            } else if c == 'j' {
                Some("search"@)
            } else if c == 'k' {
                Some("edit"@)
            } else {
                None
            },
            _ => None,
        }
    }
}

/// The view a key requests when running under tide, if any. The git view is
/// omitted: it is the current one.
pub fn switch_view(state_file: &Option<String>, key: Key) -> (view: Option<&'static str>)
    ensures
        text::maybe(view) == view_asked(item_data::maybe_text(*state_file), key),
{
    if state_file.is_none() || key.kind != KeyKind::Press || !key.modifiers.alt {
        return None;
    }
    match key.code {
        KeyCode::Char(c) => if c == 'f' {
            Some("files")
        } else if c == 'j' {
            Some("search")
        } else if c == 'k' {
            Some("edit")
        } else {
            None
        },
        _ => None,
    }
}

} // verus!
