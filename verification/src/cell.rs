//! The visual state of one terminal character position: a glyph, a foreground
//! and background colour from a small fixed palette, and a set of text
//! attributes with bitset semantics.

use vstd::prelude::*;

verus! {

/// One entry of the fixed colour palette that the renderer needs.
/// `Reset` stands for the terminal's default colour.
#[derive(Copy, Clone, PartialEq, Eq, Structural, Debug)]
pub enum Color {
    Reset,
    Black,
    Red,
    Green,
    Yellow,
    Blue,
    DarkGrey,
}

/// A set of text attributes (bold, underline, ...), one bit per attribute.
/// The renderer only compares and forwards attribute sets, so the meaning of
/// the individual bits is the output device's concern.
#[derive(Copy, Clone, PartialEq, Eq, Structural, Debug)]
pub struct Attrs {
    pub bits: u32,
}

impl Attrs {
    /// The empty attribute set.
    pub fn none() -> (r: Attrs)
        ensures
            r == (Attrs { bits: 0u32 }),
    {
        Attrs { bits: 0 }
    }
}

/// One character cell of a frame buffer. Equality is structural and is what
/// the differ goes by.
#[derive(Copy, Clone, PartialEq, Eq, Structural, Debug)]
pub struct BufCell {
    pub content: char,
    pub fg: Color,
    pub bg: Color,
    pub attrs: Attrs,
}

/// The blank cell: a space in default colours with no attributes.
pub open spec fn default_cell() -> BufCell {
    BufCell { content: ' ', fg: Color::Reset, bg: Color::Reset, attrs: Attrs { bits: 0 } }
}

impl BufCell {
    /// Returns the cell back to the blank state.
    pub fn reset(&mut self)
        ensures
            *final(self) == default_cell(),
    {
        *self = BufCell { content: ' ', fg: Color::Reset, bg: Color::Reset, attrs: Attrs { bits: 0 } };
    }
}

impl Default for BufCell {
    fn default() -> (r: Self)
        ensures
            r == default_cell(),
    {
        BufCell { content: ' ', fg: Color::Reset, bg: Color::Reset, attrs: Attrs { bits: 0 } }
    }
}

} // verus!
