//! Reconstruction of glyphs drawn as arcs and line segments on a ring, and
//! their classification into the sixteen hexadecimal characters.
pub mod cell;
pub mod classify;
pub mod cluster;
pub mod error;
pub mod page;
pub mod pool;
pub mod primitive;
pub mod raster;
pub mod walker;

pub use cell::{Cell, Coordinates};
pub use classify::{Analyze, CharParams, Character, CharacterID};
pub use error::GlyphError;
pub use walker::Section;
