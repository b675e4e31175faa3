//! Rings of geographic coordinates written as text: reading them, merging
//! imported files, finding the line of a picked point, and the state the
//! viewer keeps. Coordinates are kept as the text that was written.
use vstd::prelude::*;

pub mod text;
pub mod number;
pub mod parser;
pub mod selection;
pub mod import;
pub mod palette;
pub mod state;
pub mod laws;
pub mod line_laws;

verus! {

} // verus!
