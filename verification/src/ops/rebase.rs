//! Editing the rebase list.

use crate::item_data::{ItemData, Meaning};
use crate::rebase_todo;
use crate::rebase_todo::{RebaseTodo, TodoAction};
use vstd::prelude::*;

verus! {

/// A command on the rebase list.
#[derive(Debug, Clone, Copy, PartialEq, Eq, Structural)]
pub enum TodoOp {
    /// Move the selected entry, keeping the cursor on it.
    MoveEntry(isize),
    /// Mark the selected entry, moving the cursor on to the next.
    SetAction(TodoAction),
    /// Run the rebase with the list as edited.
    Start,
}

/// Where the cursor goes once the list has been rebuilt: on the entry at
/// `select`; or, if it isn't there, on the one at `otherwise`.
#[derive(Debug, Clone, Copy, PartialEq, Eq, Structural)]
pub struct Follow {
    pub select: usize,
    pub otherwise: Option<usize>,
}

/// What a command is shown as.
pub open spec fn label(op: TodoOp) -> Seq<char> {
    match op {
        TodoOp::MoveEntry(offset) => if offset < 0 {
            "Move up"@
        } else {
            "Move down"@
        },
        TodoOp::SetAction(action) => rebase_todo::keyword_of(action),
        TodoOp::Start => "Start rebase"@,
    }
}

impl TodoOp {
    /// What the command is shown as.
    pub fn display(&self) -> (text: &'static str)
        ensures
            text@ == label(*self),
    {
        match self {
            TodoOp::MoveEntry(offset) => if *offset < 0 {
                "Move up"
            } else {
                "Move down"
            },
            TodoOp::SetAction(action) => action.keyword(),
            TodoOp::Start => "Start rebase",
        }
    }

    /// The entry the command acts on, if what is selected is one.
    pub fn target(&self, selected: &ItemData) -> (index: Option<usize>)
        ensures
            match index {
                Some(index) => selected@ == (Meaning::RebaseTodo { index }),
                None => !(selected@ is RebaseTodo),
            },
    {
        match selected {
            ItemData::RebaseTodo { index } => Some(*index),
            _ => None,
        }
    }
}

/// Move an entry, and say where the cursor follows it to.
pub fn move_entry(todo: &mut RebaseTodo, index: usize, offset: isize) -> (follow: Follow)
    ensures
        final(todo).source == old(todo).source,
        follow.otherwise is None,
        ({
            let n = old(todo).entries@.len();
            let to = rebase_todo::destination(index as int, offset as int);
            if index < n && to < n {
                follow.select == to && final(todo).entries@ == rebase_todo::moved(
                    old(todo).entries@,
                    index as int,
                    to,
                )
            } else {
                follow.select == index && final(todo).entries@ == old(todo).entries@
            }
        }),
{
    let select = todo.move_entry(index, offset);
    Follow { select, otherwise: None }
}

/// Mark an entry, and say where the cursor goes. Marking works down the list, so it
/// moves on to the next entry, staying put on the last one.
pub fn set_action(todo: &mut RebaseTodo, index: usize, action: TodoAction) -> (follow: Follow)
    requires
        index < usize::MAX,
    ensures
        final(todo).source == old(todo).source,
        follow.select == index + 1,
        follow.otherwise == Some(index),
        rebase_todo::entry_views(final(todo).entries@) == rebase_todo::marked(
            rebase_todo::entry_views(old(todo).entries@),
            index as int,
            action,
        ),
{
    todo.set_action(index, action);
    Follow { select: index + 1, otherwise: Some(index) }
}

/// Whether a row is that of an entry of the list.
pub fn is_entry(data: &ItemData, index: usize) -> (is: bool)
    ensures
        is == (data@ == (Meaning::RebaseTodo { index })),
{
    match data {
        ItemData::RebaseTodo { index: at } => *at == index,
        _ => false,
    }
}

} // verus!
