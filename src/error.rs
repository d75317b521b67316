//! Errors that the engine reports to its caller.
use vstd::prelude::*;

verus! {

/// Why an operation of the engine stopped.
#[derive(Debug, Clone, Copy, PartialEq, Eq, Structural)]
pub enum GlyphError {
    /// The integer stream ran out in the middle of the primitive that starts
    /// at this offset.
    MalformedPrimitiveStream(usize),
    /// No cell of the pool lies in the quadrant searched for the next glyph.
    NoNextGlyph,
    /// No classification rule matched the glyph.
    ClassificationFailed,
}

/// The description of an error.
pub open spec fn error_text(e: GlyphError) -> Seq<char> {
    match e {
        GlyphError::MalformedPrimitiveStream(_) => "the drawing data ends inside a primitive"@,
        GlyphError::NoNextGlyph => "unable to find next coordinate"@,
        GlyphError::ClassificationFailed => "no rule identifies the glyph"@,
    }
}

impl GlyphError {
    /// A short human-readable description.
    pub fn message(&self) -> (r: String)
        ensures
            r@ == error_text(*self),
    {
        match self {
            GlyphError::MalformedPrimitiveStream(_) => "the drawing data ends inside a primitive".to_owned(),
            GlyphError::NoNextGlyph => "unable to find next coordinate".to_owned(),
            GlyphError::ClassificationFailed => "no rule identifies the glyph".to_owned(),
        }
    }
}

} // verus!
