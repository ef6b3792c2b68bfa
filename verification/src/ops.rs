//! What the user's commands do.

pub mod commit;
pub mod editor;
pub mod rebase;
pub mod status;
