//! The two players' colors and the dice they play.

use vstd::prelude::*;

verus! {

/// One of the two players.  Only equality and "the other color" matter.
#[derive(Clone, Copy, Debug, PartialEq, Eq, Structural, Hash)]
pub enum Color {
    Red,
    Black,
}

impl Color {
    /// The opposing color.
    pub open spec fn spec_other(self) -> Color {
        match self {
            Color::Red => Color::Black,
            Color::Black => Color::Red,
        }
    }

    /// The opposing color.
    #[verifier::when_used_as_spec(spec_other)]
    pub fn other(self) -> (c: Color)
        ensures
            c == self.spec_other(),
    {
        match self {
            Color::Red => Color::Black,
            Color::Black => Color::Red,
        }
    }
}

/// A stack of `value` unit pieces of one color, standing on a single cell.
/// On a live board the value always lies in `[1, 6]`.
#[derive(Clone, Copy, Debug, PartialEq, Eq, Structural, Hash)]
pub struct Die {
    pub color: Color,
    pub value: usize,
}

impl Die {
    /// A fresh die of the given color, holding a single piece.
    pub fn with_color(color: Color) -> (d: Die)
        ensures
            d == (Die { color, value: 1usize }),
    {
        Die { color, value: 1 }
    }

    pub fn color(self) -> (c: Color)
        ensures
            c == self.color,
    {
        self.color
    }

    pub fn value(self) -> (v: usize)
        ensures
            v == self.value,
    {
        self.value
    }
}

} // verus!
