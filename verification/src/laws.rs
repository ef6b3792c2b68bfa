//! What holds of the library as a whole: what each operation does, told of its inputs
//! and results. Nothing in here runs.

use vstd::prelude::*;

pub mod callers;
pub mod colorizers;
pub mod commands;
pub mod logs;
pub mod moves;
pub mod pages;
pub mod painting;
pub mod patch_lines;
pub mod programs;
pub mod rendered_rows;
pub mod screens;
pub mod terminal;
pub mod texts;
pub mod typing;

verus! {

} // verus!
