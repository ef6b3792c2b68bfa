use vstd::prelude::*;

pub mod ansi;
pub mod calling_process;
pub mod capped_input;
pub mod cli;
pub mod delta_highlight;
pub mod diff;
pub mod diff_colorizer;
pub mod diff_items;
pub mod diff_renderer;
pub mod frame;
pub mod highlight;
pub mod item;
pub mod item_data;
pub mod laws;
pub mod log_items;
pub mod ops;
pub mod osc;
pub mod pager;
pub mod place;
pub mod prompt;
pub mod reach;
pub mod rebase_todo;
pub mod render_command;
pub mod rendered_log;
pub mod screen;
pub mod screen_nav;
pub mod screen_search;
pub mod sgr;
pub mod spans;
pub mod style;
pub mod text;
pub mod text_input;
pub mod tide;
pub mod ui;

verus! {

} // verus!
