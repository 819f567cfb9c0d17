//! Script itemization, Unicode property callbacks and glyph post-processing
//! for a HarfBuzz-based text layout engine.

pub mod ranges;
pub mod script;
pub mod shape;
pub mod table;
pub mod unicode_funcs;

use vstd::prelude::*;

verus! {

} // verus!
