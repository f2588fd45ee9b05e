use crate::color::Color;
use vstd::prelude::*;

verus! {

/// What stands on a square. `Empty` is a first-class state: every one of the
/// 64 cells always holds a `Piece`, and an empty cell holds the empty one.
#[derive(Clone, Copy, Debug, PartialEq, Eq, Structural)]
pub enum PieceKind {
    Empty,
    Pawn,
    Rook,
    Knight,
    Bishop,
    Queen,
    King,
}

/// A tagged piece value: kind, color and a moved flag.
///
/// The color is meaningful only when the kind is not `Empty`, and the moved
/// flag only for rooks and kings (it is the castling-rights precondition).
/// The empty cell is always the canonical value `Piece::none()`, so that two
/// empty cells compare equal.
#[derive(Clone, Copy, Debug, PartialEq, Eq, Structural)]
pub struct Piece {
    pub kind: PieceKind,
    pub color: Color,
    pub moved: bool,
}

impl Piece {
    /// The canonical empty-square value.
    pub open spec fn spec_none() -> Piece {
        Piece { kind: PieceKind::Empty, color: Color::White, moved: false }
    }

    /// The canonical empty-square value.
    pub fn none() -> (r: Piece)
        ensures
            r == Piece::spec_none(),
    {
        Piece { kind: PieceKind::Empty, color: Color::White, moved: false }
    }
}

/// The kind facet of a piece.
pub fn piece_type(piece: Piece) -> (k: PieceKind)
    ensures
        k == piece.kind,
{
    piece.kind
}

/// The color facet of a piece; meaningful only when the square is occupied.
pub fn piece_color(piece: Piece) -> (c: Color)
    ensures
        c == piece.color,
{
    piece.color
}

/// True when the value stands for an actual piece rather than an empty cell.
pub fn is_piece(piece: Piece) -> (b: bool)
    ensures
        b == (piece.kind != PieceKind::Empty),
{
    !matches!(piece.kind, PieceKind::Empty)
}

/// True when the piece has already relocated at least once.
pub fn has_moved(piece: Piece) -> (b: bool)
    ensures
        b == piece.moved,
{
    piece.moved
}

} // verus!
