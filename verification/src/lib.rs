//! The knife tool of a glyph editor: its drag gesture, and the way it cuts a
//! path in two along a line, with the order of the cuts and the assembly of the
//! two new paths from the pieces of the old one. Positions and curve parameters
//! are type parameters; the geometry that produces them lives with the caller.

use vstd::prelude::*;

pub mod jobs;
pub mod knife;
pub mod path;
pub mod slice;

verus! {

} // verus!
