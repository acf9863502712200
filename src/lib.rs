//! Positional, character-level comparison of two texts, rendered as styled units.
use vstd::prelude::*;

pub mod colored_char;
pub mod diff;
pub mod report;

verus! {

} // verus!
