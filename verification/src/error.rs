use vstd::prelude::*;

verus! {

/// Everything that can go wrong while parsing notation or applying a move.
///
/// Parsing errors identify the offending field; a move that is not in the
/// current legal move set is reported as `IllegalMove` and leaves the board
/// unchanged.
#[derive(Clone, Copy, Debug, PartialEq, Eq, Structural)]
pub enum ChessError {
    /// A square was not written as exactly one file letter `A`..`H` and one
    /// rank digit `1`..`8` (case-insensitive).
    InvalidNotation,
    /// A placement character is not one of `P N B R Q K` in either case.
    InvalidPieceLetter,
    /// A rank of the placement field describes more than eight files.
    RankOverflow,
    /// The side-to-move field is not exactly `w` or `b`.
    InvalidSideToMove,
    /// The FEN string ended before the side-to-move field.
    MissingSideToMove,
    /// The FEN string ended before the castling-rights field.
    MissingCastling,
    /// The FEN string ended before the en-passant target field.
    MissingEnPassant,
    /// The FEN string ended before the halfmove-clock field.
    MissingHalfmoveClock,
    /// The FEN string ended before the fullmove-counter field.
    MissingFullmoveCounter,
    /// The requested (from, to) pair is not in the legal move set.
    IllegalMove,
}

} // verus!
