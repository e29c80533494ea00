use vstd::prelude::*;

pub mod cli;
pub mod cycles;
pub mod dag;
pub mod dates;
pub mod graph;
pub mod text;
pub mod todoist;
pub mod webhook;
pub mod worker;
pub mod labels;
pub mod order;
pub mod sync;

verus! {
} // verus!
