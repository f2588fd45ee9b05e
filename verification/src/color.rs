use vstd::prelude::*;

verus! {

/// The two sides of a chess game.
#[derive(Clone, Copy, Debug, PartialEq, Eq, Structural)]
pub enum Color {
    White,
    Black,
}

/// The opposing side.
pub open spec fn other(c: Color) -> Color {
    match c {
        Color::White => Color::Black,
        Color::Black => Color::White,
    }
}

/// Flips a color; `move_piece` uses this to alternate the side to move.
pub fn flip_color(c: Color) -> (r: Color)
    ensures
        r == other(c),
{
    match c {
        Color::White => Color::Black,
        Color::Black => Color::White,
    }
}

} // verus!
