//! The mathematical model of the board and of the rules of movement.
//!
//! Everything here is specification-only. The grid is modelled as a sequence
//! of 64 pieces in file-major order (`file * 8 + rank`); squares are pairs of
//! a file and a rank, each in `[0, 8)`. The executable code in `board.rs` is
//! verified against these predicates.

use crate::color::{other, Color};
use crate::piece::{Piece, PieceKind};
use crate::square::Square;
use vstd::prelude::*;

verus! {

// ---------------------------------------------------------------------------
// Squares and the grid
// ---------------------------------------------------------------------------

/// A square whose components may index the board.
pub open spec fn sq_ok(sq: Square) -> bool {
    sq.0 < 8 && sq.1 < 8
}

/// The coordinates lie on the board.
pub open spec fn on_board(f: int, r: int) -> bool {
    0 <= f < 8 && 0 <= r < 8
}

/// Index of the cell (file, rank) in the file-major grid sequence.
pub open spec fn cell(f: int, r: int) -> int {
    f * 8 + r
}

/// The grid holds all 64 cells.
pub open spec fn grid_ok(b: Seq<Piece>) -> bool {
    b.len() == 64
}

/// The piece standing on (file, rank).
pub open spec fn at(b: Seq<Piece>, f: int, r: int) -> Piece {
    b[cell(f, r)]
}

/// The cell holds an actual piece.
pub open spec fn occupied(b: Seq<Piece>, f: int, r: int) -> bool {
    at(b, f, r).kind != PieceKind::Empty
}

/// A piece of color `c` may enter the cell: it is empty or holds an opponent.
pub open spec fn free_or_enemy(b: Seq<Piece>, c: Color, f: int, r: int) -> bool {
    !occupied(b, f, r) || at(b, f, r).color != c
}

// ---------------------------------------------------------------------------
// Step geometry
// ---------------------------------------------------------------------------

/// One of the eight knight jumps.
pub open spec fn knight_delta(df: int, dr: int) -> bool {
    ||| ((df == 1 || df == -1) && (dr == 2 || dr == -2))
    ||| ((df == 2 || df == -2) && (dr == 1 || dr == -1))
}

/// One of the eight unit-offset king steps.
pub open spec fn king_delta(df: int, dr: int) -> bool {
    -1 <= df <= 1 && -1 <= dr <= 1 && !(df == 0 && dr == 0)
}

/// A unit diagonal direction.
pub open spec fn diag_dir(df: int, dr: int) -> bool {
    (df == 1 || df == -1) && (dr == 1 || dr == -1)
}

/// A unit orthogonal direction.
pub open spec fn ortho_dir(df: int, dr: int) -> bool {
    ||| (df == 0 && (dr == 1 || dr == -1))
    ||| (dr == 0 && (df == 1 || df == -1))
}

/// Any of the eight unit ray directions.
pub open spec fn unit_dir(df: int, dr: int) -> bool {
    diag_dir(df, dr) || ortho_dir(df, dr)
}

/// The directions a sliding piece of the given kind walks along.
pub open spec fn slider_dir(k: PieceKind, df: int, dr: int) -> bool {
    match k {
        PieceKind::Bishop => diag_dir(df, dr),
        PieceKind::Rook => ortho_dir(df, dr),
        PieceKind::Queen => diag_dir(df, dr) || ortho_dir(df, dr),
        _ => false,
    }
}

// ---------------------------------------------------------------------------
// Rays
// ---------------------------------------------------------------------------

/// Every square strictly between the origin and step `k` along (df, dr) is
/// empty.
pub open spec fn ray_clear(b: Seq<Piece>, f: int, r: int, df: int, dr: int, k: int) -> bool {
    forall|j: int| 1 <= j < k ==> !(#[trigger] occupied(b, f + j * df, r + j * dr))
}

/// (tf, tr) is reachable from (f, r) by sliding along (df, dr): a positive
/// number of steps away, on the board, with every square strictly between
/// empty.
pub open spec fn ray_reaches(
    b: Seq<Piece>,
    f: int,
    r: int,
    df: int,
    dr: int,
    tf: int,
    tr: int,
) -> bool {
    exists|k: int|
        1 <= k && tf == f + k * df && tr == r + k * dr && on_board(tf, tr) && #[trigger] ray_clear(
            b,
            f,
            r,
            df,
            dr,
            k,
        )
}

/// (tf, tr) is a destination a sliding piece of color `c` on (ff, fr) may
/// move to along some diagonal.
pub open spec fn diag_dest(b: Seq<Piece>, c: Color, ff: int, fr: int, tf: int, tr: int) -> bool {
    free_or_enemy(b, c, tf, tr) && exists|df: int, dr: int|
        diag_dir(df, dr) && #[trigger] ray_reaches(b, ff, fr, df, dr, tf, tr)
}

/// (tf, tr) is a destination a sliding piece of color `c` on (ff, fr) may
/// move to along some file or rank.
pub open spec fn ortho_dest(b: Seq<Piece>, c: Color, ff: int, fr: int, tf: int, tr: int) -> bool {
    free_or_enemy(b, c, tf, tr) && exists|df: int, dr: int|
        ortho_dir(df, dr) && #[trigger] ray_reaches(b, ff, fr, df, dr, tf, tr)
}

// ---------------------------------------------------------------------------
// Pawns
// ---------------------------------------------------------------------------

/// The rank direction a pawn of color `c` advances in.
pub open spec fn pawn_dir(c: Color) -> int {
    if c == Color::White {
        1
    } else {
        -1
    }
}

/// The rank a pawn of color `c` starts the game on.
pub open spec fn pawn_start_rank(c: Color) -> int {
    if c == Color::White {
        1
    } else {
        6
    }
}

/// The en-passant target square is exactly (tf, tr).
pub open spec fn ep_match(ep: Option<Square>, tf: int, tr: int) -> bool {
    match ep {
        Some(sq) => sq.0 == tf && sq.1 == tr,
        None => false,
    }
}

/// (tf, tr) is a destination a pawn of color `c` on (ff, fr) may move to:
/// a one-step advance onto an empty square, a two-step advance from the
/// starting rank over and onto empty squares, or a diagonal capture onto an
/// opposing piece or onto the en-passant target square.
pub open spec fn pawn_dest(
    b: Seq<Piece>,
    ep: Option<Square>,
    c: Color,
    ff: int,
    fr: int,
    tf: int,
    tr: int,
) -> bool {
    let d = pawn_dir(c);
    ||| (tf == ff && tr == fr + d && !occupied(b, tf, tr))
    ||| (tf == ff && tr == fr + 2 * d && fr == pawn_start_rank(c) && !occupied(b, ff, fr + d)
        && !occupied(b, tf, tr))
    ||| ((tf == ff + 1 || tf == ff - 1) && tr == fr + d && ((occupied(b, tf, tr) && at(
        b,
        tf,
        tr,
    ).color != c) || ep_match(ep, tf, tr)))
}

// ---------------------------------------------------------------------------
// Pseudo-legal moves
// ---------------------------------------------------------------------------

/// (tf, tr) is a pseudo-legal destination for the piece standing on (ff, fr):
/// the move obeys the piece's geometry and the occupancy rules, but may still
/// leave the mover's own king in check.
pub open spec fn pseudo_dest(
    b: Seq<Piece>,
    ep: Option<Square>,
    ff: int,
    fr: int,
    tf: int,
    tr: int,
) -> bool {
    let p = at(b, ff, fr);
    on_board(tf, tr) && match p.kind {
        PieceKind::Empty => false,
        PieceKind::Pawn => pawn_dest(b, ep, p.color, ff, fr, tf, tr),
        PieceKind::Knight => knight_delta(tf - ff, tr - fr) && free_or_enemy(b, p.color, tf, tr),
        PieceKind::King => king_delta(tf - ff, tr - fr) && free_or_enemy(b, p.color, tf, tr),
        PieceKind::Bishop => diag_dest(b, p.color, ff, fr, tf, tr),
        PieceKind::Rook => ortho_dest(b, p.color, ff, fr, tf, tr),
        PieceKind::Queen => diag_dest(b, p.color, ff, fr, tf, tr) || ortho_dest(
            b,
            p.color,
            ff,
            fr,
            tf,
            tr,
        ),
    }
}

/// (from, to) is a pseudo-legal move for `side`: `from` holds a piece of that
/// color and `to` is a pseudo-legal destination for it.
pub open spec fn pseudo_legal(
    b: Seq<Piece>,
    side: Color,
    ep: Option<Square>,
    from: Square,
    to: Square,
) -> bool {
    &&& sq_ok(from)
    &&& sq_ok(to)
    &&& occupied(b, from.0 as int, from.1 as int)
    &&& at(b, from.0 as int, from.1 as int).color == side
    &&& pseudo_dest(b, ep, from.0 as int, from.1 as int, to.0 as int, to.1 as int)
}

// ---------------------------------------------------------------------------
// Attacks and check
// ---------------------------------------------------------------------------

/// The piece standing on (af, ar) attacks the square (tf, tr): it could
/// capture there. A pawn attacks only its two forward diagonals; sliding
/// pieces attack along unobstructed rays; occupancy of the target square
/// itself is irrelevant.
pub open spec fn attacks(b: Seq<Piece>, af: int, ar: int, tf: int, tr: int) -> bool {
    let p = at(b, af, ar);
    on_board(af, ar) && on_board(tf, tr) && match p.kind {
        PieceKind::Empty => false,
        PieceKind::Pawn => tr == ar + pawn_dir(p.color) && (tf == af + 1 || tf == af - 1),
        PieceKind::Knight => knight_delta(tf - af, tr - ar),
        PieceKind::King => king_delta(tf - af, tr - ar),
        PieceKind::Bishop => exists|df: int, dr: int|
            diag_dir(df, dr) && #[trigger] ray_reaches(b, af, ar, df, dr, tf, tr),
        PieceKind::Rook => exists|df: int, dr: int|
            ortho_dir(df, dr) && #[trigger] ray_reaches(b, af, ar, df, dr, tf, tr),
        PieceKind::Queen => exists|df: int, dr: int|
            unit_dir(df, dr) && #[trigger] ray_reaches(b, af, ar, df, dr, tf, tr),
    }
}

/// Some piece of color `by` attacks the square (tf, tr).
pub open spec fn square_attacked(b: Seq<Piece>, by: Color, tf: int, tr: int) -> bool {
    exists|af: int, ar: int|
        #[trigger] attacks(b, af, ar, tf, tr) && at(b, af, ar).color == by
}

/// The piece is the king of color `c`.
pub open spec fn is_king_of(p: Piece, c: Color) -> bool {
    p.kind == PieceKind::King && p.color == c
}

/// Some king of color `c` stands on a square attacked by the other side.
/// On a position with exactly one king per side this says exactly that `c`'s
/// king is attacked; on a board with no king of color `c` it is false.
pub open spec fn in_check(b: Seq<Piece>, c: Color) -> bool {
    exists|kf: int, kr: int|
        on_board(kf, kr) && is_king_of(#[trigger] at(b, kf, kr), c) && square_attacked(
            b,
            other(c),
            kf,
            kr,
        )
}

// ---------------------------------------------------------------------------
// Applying a move
// ---------------------------------------------------------------------------

/// The grid after relocating the piece on `from` to `to` and clearing `from`,
/// with no other side effect. This is the temporary application the legality
/// filter simulates.
pub open spec fn relocated(b: Seq<Piece>, from: Square, to: Square) -> Seq<Piece> {
    b.update(cell(to.0 as int, to.1 as int), at(b, from.0 as int, from.1 as int)).update(
        cell(from.0 as int, from.1 as int),
        Piece::spec_none(),
    )
}

/// (from, to) is a legal move: pseudo-legal, and applying it temporarily does
/// not leave the mover's own king attacked.
pub open spec fn legal_move(
    b: Seq<Piece>,
    side: Color,
    ep: Option<Square>,
    from: Square,
    to: Square,
) -> bool {
    pseudo_legal(b, side, ep, from, to) && !in_check(relocated(b, from, to), side)
}

/// The move is a pawn capture onto the en-passant target square: the mover is
/// a pawn, the destination is the en-passant square, and the file changes
/// (a straight advance onto that square is not a capture).
pub open spec fn is_ep_capture(
    b: Seq<Piece>,
    ep: Option<Square>,
    from: Square,
    to: Square,
) -> bool {
    &&& at(b, from.0 as int, from.1 as int).kind == PieceKind::Pawn
    &&& ep_match(ep, to.0 as int, to.1 as int)
    &&& to.0 != from.0
}

/// The grid after a successful `move_piece`: the mover relocates with its
/// moved flag set, the origin is cleared, and an en-passant capture also
/// removes the pawn standing one rank behind the target square.
pub open spec fn applied(b: Seq<Piece>, ep: Option<Square>, from: Square, to: Square) -> Seq<
    Piece,
> {
    let p = at(b, from.0 as int, from.1 as int);
    let moved_p = Piece { kind: p.kind, color: p.color, moved: true };
    let b1 = b.update(cell(to.0 as int, to.1 as int), moved_p).update(
        cell(from.0 as int, from.1 as int),
        Piece::spec_none(),
    );
    if is_ep_capture(b, ep, from, to) {
        b1.update(cell(to.0 as int, to.1 as int - pawn_dir(p.color)), Piece::spec_none())
    } else {
        b1
    }
}

/// The en-passant state after a move: set to the skipped square immediately
/// after a two-step pawn advance, cleared otherwise.
pub open spec fn next_en_passant(b: Seq<Piece>, from: Square, to: Square) -> Option<Square> {
    let p = at(b, from.0 as int, from.1 as int);
    if p.kind == PieceKind::Pawn && (to.1 as int - from.1 as int == 2 || from.1 as int
        - to.1 as int == 2) {
        Some(Square(to.0, ((from.1 as int + to.1 as int) / 2) as usize))
    } else {
        None
    }
}

// ---------------------------------------------------------------------------
// Laws
// ---------------------------------------------------------------------------

/// NO SELF-CHECK. A move in the legal set never leaves the mover's own king
/// attacked on the board the legality filter inspects: the grid with the
/// piece relocated and the origin cleared.
pub proof fn lemma_legal_no_self_check(
    b: Seq<Piece>,
    side: Color,
    ep: Option<Square>,
    from: Square,
    to: Square,
)
    requires
        legal_move(b, side, ep, from, to),
    ensures
        !in_check(relocated(b, from, to), side),
{
}

/// Two grids with the same kind and color on every cell.
pub open spec fn same_shape(b1: Seq<Piece>, b2: Seq<Piece>) -> bool {
    &&& grid_ok(b1)
    &&& grid_ok(b2)
    &&& forall|i: int|
        0 <= i < 64 ==> (#[trigger] b1[i]).kind == b2[i].kind && b1[i].color == b2[i].color
}

/// An attack does not depend on the moved flags: it carries over between
/// grids of the same shape.
proof fn lemma_attacks_shape(b1: Seq<Piece>, b2: Seq<Piece>, af: int, ar: int, tf: int, tr: int)
    requires
        same_shape(b1, b2),
        attacks(b1, af, ar, tf, tr),
    ensures
        attacks(b2, af, ar, tf, tr),
{
    assert(0 <= cell(af, ar) < 64);
    let p1 = at(b1, af, ar);
    let p2 = at(b2, af, ar);
    assert(p1.kind == p2.kind && p1.color == p2.color);
    if p1.kind == PieceKind::Bishop || p1.kind == PieceKind::Rook || p1.kind == PieceKind::Queen {
        let (df, dr) = choose|df: int, dr: int|
            unit_dir(df, dr) && #[trigger] ray_reaches(b1, af, ar, df, dr, tf, tr) && (match p1.kind {
                PieceKind::Bishop => diag_dir(df, dr),
                PieceKind::Rook => ortho_dir(df, dr),
                _ => true,
            });
        let k = choose|k: int|
            1 <= k && tf == af + k * df && tr == ar + k * dr && on_board(tf, tr)
                && #[trigger] ray_clear(b1, af, ar, df, dr, k);
        assert forall|j: int| 1 <= j < k implies !(#[trigger] occupied(
            b2,
            af + j * df,
            ar + j * dr,
        )) by {
            lemma_ray_convex(af, ar, df, dr, j, k);
            assert(on_board(af + j * df, ar + j * dr));
            assert(0 <= cell(af + j * df, ar + j * dr) < 64);
            assert(!occupied(b1, af + j * df, ar + j * dr));
        }
        assert(ray_clear(b2, af, ar, df, dr, k));
        assert(ray_reaches(b2, af, ar, df, dr, tf, tr));
    }
}

/// Check carries over in one direction between grids of the same shape.
proof fn lemma_in_check_shape_one(b1: Seq<Piece>, b2: Seq<Piece>, c: Color)
    requires
        same_shape(b1, b2),
        in_check(b1, c),
    ensures
        in_check(b2, c),
{
    let (kf, kr) = choose|kf: int, kr: int|
        on_board(kf, kr) && is_king_of(#[trigger] at(b1, kf, kr), c) && square_attacked(
            b1,
            other(c),
            kf,
            kr,
        );
    let (af, ar) = choose|af: int, ar: int|
        #[trigger] attacks(b1, af, ar, kf, kr) && at(b1, af, ar).color == other(c);
    lemma_attacks_shape(b1, b2, af, ar, kf, kr);
    assert(0 <= cell(af, ar) < 64);
    assert(at(b2, af, ar).color == other(c));
    assert(square_attacked(b2, other(c), kf, kr));
    assert(0 <= cell(kf, kr) < 64);
    assert(is_king_of(at(b2, kf, kr), c));
}

/// Check does not depend on the moved flags: it carries over between grids of
/// the same shape.
pub proof fn lemma_in_check_shape(b1: Seq<Piece>, b2: Seq<Piece>, c: Color)
    requires
        same_shape(b1, b2),
    ensures
        in_check(b1, c) == in_check(b2, c),
{
    assert(same_shape(b2, b1));
    if in_check(b1, c) {
        lemma_in_check_shape_one(b1, b2, c);
    }
    if in_check(b2, c) {
        lemma_in_check_shape_one(b2, b1, c);
    }
}

/// NO SELF-CHECK, on the board `move_piece` actually leaves behind. For every
/// legal move that is not an en-passant capture, the fully applied move (with
/// the moved flag set) leaves the mover's king unattacked. An en-passant
/// capture also removes the passed pawn, which the legality probe does not
/// simulate, so it is excluded here.
pub proof fn lemma_applied_no_self_check(
    b: Seq<Piece>,
    side: Color,
    ep: Option<Square>,
    from: Square,
    to: Square,
)
    requires
        grid_ok(b),
        legal_move(b, side, ep, from, to),
        !is_ep_capture(b, ep, from, to),
    ensures
        !in_check(applied(b, ep, from, to), side),
{
    assert(same_shape(applied(b, ep, from, to), relocated(b, from, to))) by {
        assert(0 <= cell(to.0 as int, to.1 as int) < 64);
        assert(0 <= cell(from.0 as int, from.1 as int) < 64);
    }
    lemma_in_check_shape(applied(b, ep, from, to), relocated(b, from, to), side);
}

/// A board holding a single white knight and nothing else.
pub open spec fn lone_white_knight(b: Seq<Piece>, f: int, r: int) -> bool {
    &&& grid_ok(b)
    &&& on_board(f, r)
    &&& at(b, f, r).kind == PieceKind::Knight
    &&& at(b, f, r).color == Color::White
    &&& forall|f2: int, r2: int|
        on_board(f2, r2) && (f2 != f || r2 != r) ==> !(#[trigger] occupied(b, f2, r2))
}

/// KNIGHT GEOMETRY. On a board holding a single white knight and nothing
/// else, with white to move and no en-passant state, the legal destinations
/// from the knight's square are exactly the knight-jump squares that lie on
/// the board.
pub proof fn lemma_knight_geometry(b: Seq<Piece>, from: Square, to: Square)
    requires
        lone_white_knight(b, from.0 as int, from.1 as int),
        sq_ok(from),
        sq_ok(to),
    ensures
        legal_move(b, Color::White, None, from, to) <==> (on_board(to.0 as int, to.1 as int)
            && knight_delta(to.0 - from.0, to.1 - from.1)),
{
    let ff = from.0 as int;
    let fr = from.1 as int;
    let tf = to.0 as int;
    let tr = to.1 as int;
    if on_board(tf, tr) && knight_delta(tf - ff, tr - fr) {
        assert(!occupied(b, tf, tr));
        assert(pseudo_legal(b, Color::White, None, from, to));
        let b2 = relocated(b, from, to);
        assert(!in_check(b2, Color::White)) by {
            if in_check(b2, Color::White) {
                let (kf, kr) = choose|kf: int, kr: int|
                    on_board(kf, kr) && is_king_of(#[trigger] at(b2, kf, kr), Color::White)
                        && square_attacked(b2, other(Color::White), kf, kr);
                assert(0 <= cell(kf, kr) < 64);
                assert(0 <= cell(tf, tr) < 64);
                assert(0 <= cell(ff, fr) < 64);
                if cell(kf, kr) == cell(tf, tr) {
                    assert(at(b2, kf, kr).kind == PieceKind::Knight);
                } else if cell(kf, kr) == cell(ff, fr) {
                    assert(at(b2, kf, kr) == Piece::spec_none());
                } else {
                    assert(at(b2, kf, kr) == at(b, kf, kr));
                    assert(kf != ff || kr != fr);
                    assert(!occupied(b, kf, kr));
                }
            }
        }
    }
    if legal_move(b, Color::White, None, from, to) {
        assert(pseudo_dest(b, None, ff, fr, tf, tr));
    }
}

// ---------------------------------------------------------------------------
// Sequence membership helpers
// ---------------------------------------------------------------------------

/// Membership in a sequence extended by one element.
pub broadcast proof fn lemma_push_contains<T>(s: Seq<T>, v: T, x: T)
    ensures
        #[trigger] s.push(v).contains(x) <==> (s.contains(x) || x == v),
{
    if s.push(v).contains(x) {
        let i = choose|i: int| 0 <= i < s.push(v).len() && s.push(v)[i] == x;
        if i < s.len() {
            assert(s[i] == x);
        }
    }
    if s.contains(x) {
        let i = choose|i: int| 0 <= i < s.len() && s[i] == x;
        assert(s.push(v)[i] == x);
    }
    if x == v {
        assert(s.push(v)[s.len() as int] == x);
    }
}

/// Membership in a concatenation.
pub broadcast proof fn lemma_concat_contains<T>(a: Seq<T>, b: Seq<T>, x: T)
    ensures
        #[trigger] (a + b).contains(x) <==> (a.contains(x) || b.contains(x)),
{
    if (a + b).contains(x) {
        let i = choose|i: int| 0 <= i < (a + b).len() && (a + b)[i] == x;
        if i < a.len() {
            assert(a[i] == x);
        } else {
            assert(b[i - a.len()] == x);
        }
    }
    if a.contains(x) {
        let i = choose|i: int| 0 <= i < a.len() && a[i] == x;
        assert((a + b)[i] == x);
    }
    if b.contains(x) {
        let i = choose|i: int| 0 <= i < b.len() && b[i] == x;
        assert((a + b)[a.len() + i] == x);
    }
}

// ---------------------------------------------------------------------------
// Arithmetic helpers for rays
// ---------------------------------------------------------------------------

/// The square `k` steps along (df, dr) from (f, r).
pub open spec fn ray_sq(f: int, r: int, df: int, dr: int, k: int) -> Square {
    Square((f + k * df) as usize, (r + k * dr) as usize)
}

/// Stepping once more along a direction adds one direction unit.
pub proof fn lemma_mul_succ(k: int, d: int)
    ensures
        (k + 1) * d == k * d + d,
{
    assert((k + 1) * d == k * d + d) by (nonlinear_arith);
}

/// The difference of two steps along a direction.
pub proof fn lemma_mul_sub(k: int, j: int, d: int)
    ensures
        (k - j) * d == k * d - j * d,
{
    assert((k - j) * d == k * d - j * d) by (nonlinear_arith);
}

/// A product with a unit factor collapses.
pub proof fn lemma_mul_unit(k: int, d: int)
    requires
        -1 <= d <= 1,
    ensures
        d == 1 ==> k * d == k,
        d == 0 ==> k * d == 0,
        d == -1 ==> k * d == -k,
{
    assert(k * 1 == k) by (nonlinear_arith);
    assert(k * 0 == 0) by (nonlinear_arith);
    assert(k * -1 == -k) by (nonlinear_arith);
}

/// Stepping against a direction subtracts the direction unit.
pub proof fn lemma_mul_neg(k: int, d: int)
    ensures
        k * (-d) == -(k * d),
{
    assert(k * (-d) == -(k * d)) by (nonlinear_arith);
}

/// Once a ray from an on-board square has left the board it never returns.
pub proof fn lemma_ray_exit(f: int, r: int, df: int, dr: int, j: int, k: int)
    requires
        unit_dir(df, dr),
        on_board(f, r),
        1 <= j <= k,
        !on_board(f + j * df, r + j * dr),
    ensures
        !on_board(f + k * df, r + k * dr),
{
    lemma_mul_unit(j, df);
    lemma_mul_unit(k, df);
    lemma_mul_unit(j, dr);
    lemma_mul_unit(k, dr);
}

/// Every square between an on-board ray origin and an on-board ray stop is on
/// the board.
pub proof fn lemma_ray_convex(f: int, r: int, df: int, dr: int, j: int, k: int)
    requires
        unit_dir(df, dr),
        on_board(f, r),
        on_board(f + k * df, r + k * dr),
        0 <= j <= k,
    ensures
        on_board(f + j * df, r + j * dr),
{
    lemma_mul_unit(j, df);
    lemma_mul_unit(k, df);
    lemma_mul_unit(j, dr);
    lemma_mul_unit(k, dr);
}

/// A ray that stays on the board takes at most seven steps.
pub proof fn lemma_ray_bound(f: int, r: int, df: int, dr: int, k: int)
    requires
        unit_dir(df, dr),
        on_board(f, r),
        on_board(f + k * df, r + k * dr),
        0 <= k,
    ensures
        k <= 7,
{
    lemma_mul_unit(k, df);
    lemma_mul_unit(k, dr);
}

/// A ray read backwards: when (tf, tr) is `k` clear steps along (df, dr) from
/// (af, ar), then (af, ar) is `k` clear steps along (-df, -dr) from (tf, tr).
pub proof fn lemma_ray_reverse(
    b: Seq<Piece>,
    af: int,
    ar: int,
    df: int,
    dr: int,
    tf: int,
    tr: int,
    k: int,
)
    requires
        unit_dir(df, dr),
        1 <= k,
        tf == af + k * df,
        tr == ar + k * dr,
        ray_clear(b, af, ar, df, dr, k),
    ensures
        af == tf + k * (-df),
        ar == tr + k * (-dr),
        ray_clear(b, tf, tr, -df, -dr, k),
{
    lemma_mul_neg(k, df);
    lemma_mul_neg(k, dr);
    assert forall|j: int| 1 <= j < k implies !(#[trigger] occupied(
        b,
        tf + j * (-df),
        tr + j * (-dr),
    )) by {
        lemma_mul_neg(j, df);
        lemma_mul_neg(j, dr);
        lemma_mul_sub(k, j, df);
        lemma_mul_sub(k, j, dr);
        assert(tf + j * (-df) == af + (k - j) * df);
        assert(tr + j * (-dr) == ar + (k - j) * dr);
        assert(!occupied(b, af + (k - j) * df, ar + (k - j) * dr));
    }
}

} // verus!
