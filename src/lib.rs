/*!
Complex text shaping core: a shaping buffer, the legacy layout passes,
character maps and glyph clusters.
*/

use vstd::prelude::*;

pub mod aat;
pub mod buffer;
pub mod charmap;
pub mod cluster;
pub mod font;
pub mod metamorphosis;
pub mod shape;

pub use charmap::{Charmap, CharmapProxy};
pub use font::FontRef;

verus! {

/// Glyph identifier.
pub type GlyphId = u16;

} // verus!
