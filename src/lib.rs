//! Renders a frame of RGBA pixels as "ASCII art" in pixels: each glyph-sized
//! block of the frame becomes the font glyph nearest to the block's mean
//! lightness, inked with the block's mean hue and saturation.
//!
//! - `color`: byte RGB and a fixed-point HSL model whose lightness is the
//!   largest channel.
//! - `font`: bitmap glyphs read from a JSON glyph definition.
//! - `catalog`: the glyphs ranked by normalized lightness, with nearest lookup.
//! - `image`: output size negotiation and frame rendering.

use vstd::prelude::*;

pub mod catalog;
pub mod color;
pub mod font;
pub mod image;

verus! {

} // verus!
