//! The board: an 8x8 grid of encoded pieces, the side to move and the
//! en-passant state, with legal move generation, check detection and the
//! validated `move_piece` mutation.

use crate::color::{flip_color, other, Color};
use crate::error::ChessError;
use crate::model::{
    applied, at, attacks, diag_dest, diag_dir, free_or_enemy, grid_ok, in_check, is_king_of,
    king_delta, knight_delta, legal_move, lemma_mul_succ, lemma_mul_unit, lemma_ray_bound,
    lemma_ray_convex, lemma_ray_exit, lemma_ray_reverse, next_en_passant, occupied, on_board,
    ortho_dest, ortho_dir, pawn_dest, pawn_dir, pseudo_dest, pseudo_legal, ray_clear, ray_reaches,
    ray_sq, relocated, slider_dir, sq_ok, square_attacked, unit_dir,
};
use crate::model::{lemma_concat_contains, lemma_push_contains};
use crate::piece::{is_piece, piece_color, Piece, PieceKind};
use crate::square::Square;
use vstd::prelude::*;

verus! {

/// A move request: origin and destination square.
pub type Move = (Square, Square);

/// The piece standing on (file, rank) in the standard start position.
pub open spec fn start_piece(f: int, r: int) -> Piece {
    if r == 1 {
        Piece { kind: PieceKind::Pawn, color: Color::White, moved: false }
    } else if r == 6 {
        Piece { kind: PieceKind::Pawn, color: Color::Black, moved: false }
    } else if r == 0 || r == 7 {
        let c = if r == 0 {
            Color::White
        } else {
            Color::Black
        };
        let k = if f == 0 || f == 7 {
            PieceKind::Rook
        } else if f == 1 || f == 6 {
            PieceKind::Knight
        } else if f == 2 || f == 5 {
            PieceKind::Bishop
        } else if f == 3 {
            PieceKind::Queen
        } else {
            PieceKind::King
        };
        Piece { kind: k, color: c, moved: false }
    } else {
        Piece::spec_none()
    }
}

/// The grid of the standard start position, in file-major order.
pub open spec fn start_grid() -> Seq<Piece> {
    Seq::new(64, |i: int| start_piece(i / 8, i % 8))
}

/// The piece standing on (file, rank) in the standard start position.
fn start_piece_at(f: usize, r: usize) -> (p: Piece)
    requires
        f < 8,
        r < 8,
    ensures
        p == start_piece(f as int, r as int),
{
    if r == 1 {
        Piece { kind: PieceKind::Pawn, color: Color::White, moved: false }
    } else if r == 6 {
        Piece { kind: PieceKind::Pawn, color: Color::Black, moved: false }
    } else if r == 0 || r == 7 {
        let c = if r == 0 {
            Color::White
        } else {
            Color::Black
        };
        let k = if f == 0 || f == 7 {
            PieceKind::Rook
        } else if f == 1 || f == 6 {
            PieceKind::Knight
        } else if f == 2 || f == 5 {
            PieceKind::Bishop
        } else if f == 3 {
            PieceKind::Queen
        } else {
            PieceKind::King
        };
        Piece { kind: k, color: c, moved: false }
    } else {
        Piece::none()
    }
}

/// The position: the grid of 64 pieces in file-major order, the side to move,
/// and the en-passant target square.
///
/// `en_passant` is `Some` exactly when the previous move was a two-step pawn
/// advance; it then names the square the pawn skipped, on which an opposing
/// pawn may capture it this turn. It is cleared again by the very next move.
#[derive(Clone, Debug)]
pub struct Board {
    pub pieces: Vec<Piece>,
    pub side_to_move: Color,
    pub en_passant: Option<Square>,
}

impl Board {
    /// The standard start position: white to move, no en-passant square.
    pub fn new() -> (b: Board)
        ensures
            b.wf(),
            b.pieces@ == start_grid(),
            b.side_to_move == Color::White,
            b.en_passant.is_none(),
    {
        let mut v: Vec<Piece> = Vec::new();
        let mut f: usize = 0;
        while f < 8
            invariant
                f <= 8,
                v@.len() == f * 8,
                forall|i: int| 0 <= i < v@.len() ==> v@[i] == start_piece(i / 8, i % 8),
            decreases 8 - f,
        {
            let mut r: usize = 0;
            while r < 8
                invariant
                    f < 8,
                    r <= 8,
                    v@.len() == f * 8 + r,
                    forall|i: int| 0 <= i < v@.len() ==> v@[i] == start_piece(i / 8, i % 8),
                decreases 8 - r,
            {
                let p = start_piece_at(f, r);
                v.push(p);
                proof {
                    assert((f * 8 + r) as int / 8 == f);
                    assert((f * 8 + r) as int % 8 == r);
                }
                r = r + 1;
            }
            f = f + 1;
        }
        proof {
            assert(v@ =~= start_grid());
        }
        Board { pieces: v, side_to_move: Color::White, en_passant: None }
    }

    /// The structural invariant: all 64 cells are present and the en-passant
    /// square, when set, lies on the board.
    pub open spec fn wf(&self) -> bool {
        &&& grid_ok(self.pieces@)
        &&& match self.en_passant {
            Some(sq) => sq_ok(sq),
            None => true,
        }
    }

    /// The current mover.
    pub fn side_to_move(&self) -> (c: Color)
        ensures
            c == self.side_to_move,
    {
        self.side_to_move
    }

    /// The piece standing on a square; the empty piece for empty cells. Total:
    /// no failure mode.
    pub fn get_piece(&self, sq: &Square) -> (p: Piece)
        requires
            self.wf(),
            sq_ok(*sq),
        ensures
            p == at(self.pieces@, sq.0 as int, sq.1 as int),
    {
        self.pieces[sq.0 * 8 + sq.1]
    }
}

/// The piece on (file, rank) when those coordinates lie on the board, and the
/// empty piece otherwise.
fn get_piece_unbounded(squares: &Vec<Piece>, file: i32, rank: i32) -> (p: Piece)
    requires
        grid_ok(squares@),
    ensures
        p == if on_board(file as int, rank as int) {
            at(squares@, file as int, rank as int)
        } else {
            Piece::spec_none()
        },
{
    if 0 <= file && file < 8 && 0 <= rank && rank < 8 {
        squares[(file as usize) * 8 + (rank as usize)]
    } else {
        Piece::none()
    }
}

/// Walks from `(f, r)` one step at a time along `(df, dr)` until a piece or
/// the board edge is found. Returns the piece found together with the number
/// of steps taken to reach it, or the empty piece together with the number of
/// steps to the last on-board square.
fn walk_ray(squares: &Vec<Piece>, f: usize, r: usize, df: i32, dr: i32) -> (res: (Piece, usize))
    requires
        grid_ok(squares@),
        f < 8,
        r < 8,
        unit_dir(df as int, dr as int),
    ensures
        ray_clear(squares@, f as int, r as int, df as int, dr as int, res.1 as int),
        res.0.kind != PieceKind::Empty ==> {
            &&& 1 <= res.1 <= 7
            &&& on_board(f + res.1 * (df as int), r + res.1 * (dr as int))
            &&& at(squares@, f + res.1 * (df as int), r + res.1 * (dr as int)) == res.0
        },
        res.0.kind == PieceKind::Empty ==> {
            &&& res.1 <= 7
            &&& (forall|j: int|
                #![trigger occupied(squares@, f + j * (df as int), r + j * (dr as int))]
                #![trigger on_board(f + j * (df as int), r + j * (dr as int))]
                1 <= j <= res.1 ==> on_board(f + j * (df as int), r + j * (dr as int)) && !occupied(
                    squares@,
                    f + j * (df as int),
                    r + j * (dr as int),
                ))
            &&& !on_board(
                f + (res.1 + 1) * (df as int),
                r + (res.1 + 1) * (dr as int),
            )
        },
{
    let ghost ff = f as int;
    let ghost rr = r as int;
    let ghost dfi = df as int;
    let ghost dri = dr as int;
    let mut k: usize = 0;
    let mut cf: i32 = f as i32 + df;
    let mut cr: i32 = r as i32 + dr;
    proof {
        lemma_mul_unit(1, dfi);
        lemma_mul_unit(1, dri);
    }
    while 0 <= cf && cf < 8 && 0 <= cr && cr < 8
        invariant
            grid_ok(squares@),
            f < 8,
            r < 8,
            unit_dir(dfi, dri),
            dfi == df as int,
            dri == dr as int,
            ff == f as int,
            rr == r as int,
            k <= 7,
            cf as int == ff + (k + 1) * dfi,
            cr as int == rr + (k + 1) * dri,
            -8 <= cf <= 15,
            -8 <= cr <= 15,
            forall|j: int|
                #![trigger occupied(squares@, ff + j * dfi, rr + j * dri)]
                #![trigger on_board(ff + j * dfi, rr + j * dri)]
                1 <= j <= k ==> on_board(ff + j * dfi, rr + j * dri) && !occupied(
                    squares@,
                    ff + j * dfi,
                    rr + j * dri,
                ),
        decreases 8 - k,
    {
        proof {
            lemma_ray_bound(ff, rr, dfi, dri, k + 1);
        }
        let p = squares[(cf as usize) * 8 + (cr as usize)];
        assert(p == at(squares@, ff + (k + 1) * dfi, rr + (k + 1) * dri));
        if is_piece(p) {
            proof {
                assert(ray_clear(squares@, ff, rr, dfi, dri, k as int + 1));
            }
            return (p, k + 1);
        }
        proof {
            assert(on_board(ff + (k + 1) * dfi, rr + (k + 1) * dri));
            assert(!occupied(squares@, ff + (k + 1) * dfi, rr + (k + 1) * dri));
        }
        k = k + 1;
        proof {
            lemma_mul_succ(k as int, dfi);
            lemma_mul_succ(k as int, dri);
            lemma_mul_unit(k as int + 1, dfi);
            lemma_mul_unit(k as int + 1, dri);
        }
        cf = cf + df;
        cr = cr + dr;
    }
    (Piece::none(), k)
}

/// True when (file, rank) lies on the board and holds exactly the given kind
/// and color of piece.
fn offset_has(squares: &Vec<Piece>, f: i32, r: i32, kind: PieceKind, c: Color) -> (b: bool)
    requires
        grid_ok(squares@),
        kind != PieceKind::Empty,
    ensures
        b == (on_board(f as int, r as int) && at(squares@, f as int, r as int).kind == kind && at(
            squares@,
            f as int,
            r as int,
        ).color == c),
{
    let p = get_piece_unbounded(squares, f, r);
    p.kind == kind && p.color == c
}

/// Walks from the target square against the attacker direction `(adf, adr)`
/// and reports whether the first piece met is a sliding piece of color `by`
/// that moves along that direction. When it reports false, no sliding piece
/// of color `by` attacks (tf, tr) along `(adf, adr)`.
fn slider_hit(squares: &Vec<Piece>, tf: usize, tr: usize, adf: i32, adr: i32, by: Color) -> (b:
    bool)
    requires
        grid_ok(squares@),
        tf < 8,
        tr < 8,
        unit_dir(adf as int, adr as int),
    ensures
        b ==> square_attacked(squares@, by, tf as int, tr as int),
        !b ==> forall|af: int, ar: int|
            !(on_board(af, ar) && at(squares@, af, ar).color == by && slider_dir(
                at(squares@, af, ar).kind,
                adf as int,
                adr as int,
            ) && #[trigger] ray_reaches(squares@, af, ar, adf as int, adr as int, tf as int,
            tr as int)),
{
    let ghost tfi = tf as int;
    let ghost tri = tr as int;
    let ghost adfi = adf as int;
    let ghost adri = adr as int;
    let wdf = -adf;
    let wdr = -adr;
    let (p, k) = walk_ray(squares, tf, tr, wdf, wdr);
    let diag = adf != 0 && adr != 0;
    let hit = (p.color == by && !matches!(p.kind, PieceKind::Empty)) && (matches!(
        p.kind,
        PieceKind::Queen,
    ) || (diag && matches!(p.kind, PieceKind::Bishop)) || (!diag && matches!(
        p.kind,
        PieceKind::Rook,
    )));
    proof {
        let ki = k as int;
        if hit {
            // the piece found is an attacker: read the walked ray backwards
            let af = tfi + ki * (-adfi);
            let ar = tri + ki * (-adri);
            lemma_ray_reverse(squares@, tfi, tri, -adfi, -adri, af, ar, ki);
            assert(ray_clear(squares@, af, ar, adfi, adri, ki));
            assert(tfi == af + ki * adfi);
            assert(tri == ar + ki * adri);
            assert(ray_reaches(squares@, af, ar, adfi, adri, tfi, tri));
            assert(at(squares@, af, ar) == p);
            assert(attacks(squares@, af, ar, tfi, tri));
            assert(square_attacked(squares@, by, tfi, tri));
        } else {
            assert forall|af: int, ar: int|
                !(on_board(af, ar) && at(squares@, af, ar).color == by && slider_dir(
                    at(squares@, af, ar).kind,
                    adfi,
                    adri,
                ) && #[trigger] ray_reaches(squares@, af, ar, adfi, adri, tfi, tri)) by {
                if on_board(af, ar) && at(squares@, af, ar).color == by && slider_dir(
                    at(squares@, af, ar).kind,
                    adfi,
                    adri,
                ) && ray_reaches(squares@, af, ar, adfi, adri, tfi, tri) {
                    let k2 = choose|k2: int|
                        1 <= k2 && tfi == af + k2 * adfi && tri == ar + k2 * adri && on_board(
                            tfi,
                            tri,
                        ) && #[trigger] ray_clear(squares@, af, ar, adfi, adri, k2);
                    lemma_ray_reverse(squares@, af, ar, adfi, adri, tfi, tri, k2);
                    assert(af == tfi + k2 * (-adfi));
                    assert(ar == tri + k2 * (-adri));
                    assert(occupied(squares@, af, ar));
                    if p.kind == PieceKind::Empty {
                        if k2 <= ki {
                            assert(!occupied(squares@, tfi + k2 * (-adfi), tri + k2 * (-adri)));
                        } else {
                            lemma_ray_exit(tfi, tri, -adfi, -adri, ki + 1, k2);
                        }
                    } else {
                        if k2 < ki {
                            // the walk found only empty squares before step ki
                            assert(!occupied(squares@, tfi + k2 * (-adfi), tri + k2 * (-adri)));
                        } else if k2 > ki {
                            // the reversed attack ray is clear at step ki, yet
                            // the walk found a piece there
                            assert(!occupied(squares@, tfi + ki * (-adfi), tri + ki * (-adri)));
                            assert(occupied(squares@, tfi + ki * (-adfi), tri + ki * (-adri)));
                        } else {
                            assert(at(squares@, af, ar) == p);
                        }
                    }
                }
            }
        }
    }
    hit
}

/// Whether any piece of color `by` attacks the square (tf, tr): tests the two
/// pawn squares, the eight king squares, the eight knight squares, and the
/// first piece along each of the eight rays.
fn grid_square_attacked(squares: &Vec<Piece>, by: Color, tf: usize, tr: usize) -> (b: bool)
    requires
        grid_ok(squares@),
        tf < 8,
        tr < 8,
    ensures
        b == square_attacked(squares@, by, tf as int, tr as int),
{
    let ghost tfi = tf as int;
    let ghost tri = tr as int;
    let tfe = tf as i32;
    let tre = tr as i32;
    let pd: i32 = if matches!(by, Color::White) {
        1
    } else {
        -1
    };
    proof {
        assert(pd as int == pawn_dir(by));
    }
    // an opposing pawn on either forward diagonal
    let pwl = offset_has(squares, tfe - 1, tre - pd, PieceKind::Pawn, by);
    if pwl {
        proof {
            assert(attacks(squares@, tfi - 1, tri - pawn_dir(by), tfi, tri));
        }
        return true;
    }
    let pwr = offset_has(squares, tfe + 1, tre - pd, PieceKind::Pawn, by);
    if pwr {
        proof {
            assert(attacks(squares@, tfi + 1, tri - pawn_dir(by), tfi, tri));
        }
        return true;
    }
    // the opposing king on an adjacent square
    let kg1 = offset_has(squares, tfe - 1, tre - 1, PieceKind::King, by);
    let kg2 = offset_has(squares, tfe - 1, tre, PieceKind::King, by);
    let kg3 = offset_has(squares, tfe - 1, tre + 1, PieceKind::King, by);
    let kg4 = offset_has(squares, tfe, tre - 1, PieceKind::King, by);
    let kg5 = offset_has(squares, tfe, tre + 1, PieceKind::King, by);
    let kg6 = offset_has(squares, tfe + 1, tre - 1, PieceKind::King, by);
    let kg7 = offset_has(squares, tfe + 1, tre, PieceKind::King, by);
    let kg8 = offset_has(squares, tfe + 1, tre + 1, PieceKind::King, by);
    if kg1 || kg2 || kg3 || kg4 || kg5 || kg6 || kg7 || kg8 {
        proof {
            if kg1 {
                assert(attacks(squares@, tfi - 1, tri - 1, tfi, tri));
            } else if kg2 {
                assert(attacks(squares@, tfi - 1, tri, tfi, tri));
            } else if kg3 {
                assert(attacks(squares@, tfi - 1, tri + 1, tfi, tri));
            } else if kg4 {
                assert(attacks(squares@, tfi, tri - 1, tfi, tri));
            } else if kg5 {
                assert(attacks(squares@, tfi, tri + 1, tfi, tri));
            } else if kg6 {
                assert(attacks(squares@, tfi + 1, tri - 1, tfi, tri));
            } else if kg7 {
                assert(attacks(squares@, tfi + 1, tri, tfi, tri));
            } else {
                assert(attacks(squares@, tfi + 1, tri + 1, tfi, tri));
            }
        }
        return true;
    }
    // an opposing knight a jump away
    let kn1 = offset_has(squares, tfe - 1, tre - 2, PieceKind::Knight, by);
    let kn2 = offset_has(squares, tfe - 1, tre + 2, PieceKind::Knight, by);
    let kn3 = offset_has(squares, tfe + 1, tre - 2, PieceKind::Knight, by);
    let kn4 = offset_has(squares, tfe + 1, tre + 2, PieceKind::Knight, by);
    let kn5 = offset_has(squares, tfe - 2, tre - 1, PieceKind::Knight, by);
    let kn6 = offset_has(squares, tfe - 2, tre + 1, PieceKind::Knight, by);
    let kn7 = offset_has(squares, tfe + 2, tre - 1, PieceKind::Knight, by);
    let kn8 = offset_has(squares, tfe + 2, tre + 1, PieceKind::Knight, by);
    if kn1 || kn2 || kn3 || kn4 || kn5 || kn6 || kn7 || kn8 {
        proof {
            if kn1 {
                assert(attacks(squares@, tfi - 1, tri - 2, tfi, tri));
            } else if kn2 {
                assert(attacks(squares@, tfi - 1, tri + 2, tfi, tri));
            } else if kn3 {
                assert(attacks(squares@, tfi + 1, tri - 2, tfi, tri));
            } else if kn4 {
                assert(attacks(squares@, tfi + 1, tri + 2, tfi, tri));
            } else if kn5 {
                assert(attacks(squares@, tfi - 2, tri - 1, tfi, tri));
            } else if kn6 {
                assert(attacks(squares@, tfi - 2, tri + 1, tfi, tri));
            } else if kn7 {
                assert(attacks(squares@, tfi + 2, tri - 1, tfi, tri));
            } else {
                assert(attacks(squares@, tfi + 2, tri + 1, tfi, tri));
            }
        }
        return true;
    }
    // an opposing bishop or queen along a clear diagonal
    let s_pp = slider_hit(squares, tf, tr, 1, 1, by);
    let s_pm = slider_hit(squares, tf, tr, 1, -1, by);
    let s_mp = slider_hit(squares, tf, tr, -1, 1, by);
    let s_mm = slider_hit(squares, tf, tr, -1, -1, by);
    if s_pp || s_pm || s_mp || s_mm {
        return true;
    }
    // an opposing rook or queen along a clear file or rank
    let s_p0 = slider_hit(squares, tf, tr, 1, 0, by);
    let s_m0 = slider_hit(squares, tf, tr, -1, 0, by);
    let s_0p = slider_hit(squares, tf, tr, 0, 1, by);
    let s_0m = slider_hit(squares, tf, tr, 0, -1, by);
    if s_p0 || s_m0 || s_0p || s_0m {
        return true;
    }
    proof {
        assert forall|af: int, ar: int|
            !(#[trigger] attacks(squares@, af, ar, tfi, tri) && at(squares@, af, ar).color
                == by) by {
            if attacks(squares@, af, ar, tfi, tri) && at(squares@, af, ar).color == by {
                let p = at(squares@, af, ar);
                match p.kind {
                    PieceKind::Empty => {},
                    PieceKind::Pawn => {},
                    PieceKind::Knight => {},
                    PieceKind::King => {},
                    PieceKind::Bishop => {
                        let (df, dr) = choose|df: int, dr: int|
                            diag_dir(df, dr) && #[trigger] ray_reaches(
                                squares@,
                                af,
                                ar,
                                df,
                                dr,
                                tfi,
                                tri,
                            );
                        if df == 1 && dr == 1 {
                            assert(ray_reaches(squares@, af, ar, 1 as i32 as int, 1 as i32 as int, tfi, tri));
                        } else if df == 1 && dr == -1 {
                            assert(ray_reaches(squares@, af, ar, 1 as i32 as int, -1 as i32 as int, tfi, tri));
                        } else if df == -1 && dr == 1 {
                            assert(ray_reaches(squares@, af, ar, -1 as i32 as int, 1 as i32 as int, tfi, tri));
                        } else {
                            assert(ray_reaches(squares@, af, ar, -1 as i32 as int, -1 as i32 as int, tfi, tri));
                        }
                    },
                    PieceKind::Rook => {
                        let (df, dr) = choose|df: int, dr: int|
                            ortho_dir(df, dr) && #[trigger] ray_reaches(
                                squares@,
                                af,
                                ar,
                                df,
                                dr,
                                tfi,
                                tri,
                            );
                        if df == 1 && dr == 0 {
                            assert(ray_reaches(squares@, af, ar, 1 as i32 as int, 0 as i32 as int, tfi, tri));
                        } else if df == -1 && dr == 0 {
                            assert(ray_reaches(squares@, af, ar, -1 as i32 as int, 0 as i32 as int, tfi, tri));
                        } else if df == 0 && dr == 1 {
                            assert(ray_reaches(squares@, af, ar, 0 as i32 as int, 1 as i32 as int, tfi, tri));
                        } else {
                            assert(ray_reaches(squares@, af, ar, 0 as i32 as int, -1 as i32 as int, tfi, tri));
                        }
                    },
                    PieceKind::Queen => {
                        let (df, dr) = choose|df: int, dr: int|
                            unit_dir(df, dr) && #[trigger] ray_reaches(
                                squares@,
                                af,
                                ar,
                                df,
                                dr,
                                tfi,
                                tri,
                            );
                        if df == 1 && dr == 1 {
                            assert(ray_reaches(squares@, af, ar, 1 as i32 as int, 1 as i32 as int, tfi, tri));
                        } else if df == 1 && dr == -1 {
                            assert(ray_reaches(squares@, af, ar, 1 as i32 as int, -1 as i32 as int, tfi, tri));
                        } else if df == -1 && dr == 1 {
                            assert(ray_reaches(squares@, af, ar, -1 as i32 as int, 1 as i32 as int, tfi, tri));
                        } else if df == -1 && dr == -1 {
                            assert(ray_reaches(squares@, af, ar, -1 as i32 as int, -1 as i32 as int, tfi, tri));
                        } else if df == 1 && dr == 0 {
                            assert(ray_reaches(squares@, af, ar, 1 as i32 as int, 0 as i32 as int, tfi, tri));
                        } else if df == -1 && dr == 0 {
                            assert(ray_reaches(squares@, af, ar, -1 as i32 as int, 0 as i32 as int, tfi, tri));
                        } else if df == 0 && dr == 1 {
                            assert(ray_reaches(squares@, af, ar, 0 as i32 as int, 1 as i32 as int, tfi, tri));
                        } else {
                            assert(ray_reaches(squares@, af, ar, 0 as i32 as int, -1 as i32 as int, tfi, tri));
                        }
                    },
                }
            }
        }
    }
    false
}

/// Whether some king of color `c` stands attacked: scans the grid for kings
/// of that color and tests each one's square. A grid with no king of color
/// `c` is never in check.
fn grid_in_check(squares: &Vec<Piece>, c: Color) -> (b: bool)
    requires
        grid_ok(squares@),
    ensures
        b == in_check(squares@, c),
{
    let by = flip_color(c);
    let mut f: usize = 0;
    while f < 8
        invariant
            grid_ok(squares@),
            by == other(c),
            f <= 8,
            forall|kf: int, kr: int|
                0 <= kf < f && 0 <= kr < 8 ==> !(is_king_of(#[trigger] at(squares@, kf, kr), c)
                    && square_attacked(squares@, other(c), kf, kr)),
        decreases 8 - f,
    {
        let mut r: usize = 0;
        while r < 8
            invariant
                grid_ok(squares@),
                by == other(c),
                f < 8,
                r <= 8,
                forall|kf: int, kr: int|
                    0 <= kf < f && 0 <= kr < 8 ==> !(is_king_of(#[trigger] at(squares@, kf, kr), c)
                        && square_attacked(squares@, other(c), kf, kr)),
                forall|kr: int|
                    0 <= kr < r ==> !(is_king_of(#[trigger] at(squares@, f as int, kr), c)
                        && square_attacked(squares@, other(c), f as int, kr)),
            decreases 8 - r,
        {
            let p = squares[f * 8 + r];
            assert(p == at(squares@, f as int, r as int));
            if matches!(p.kind, PieceKind::King) && p.color == c {
                if grid_square_attacked(squares, by, f, r) {
                    proof {
                        assert(is_king_of(at(squares@, f as int, r as int), c));
                    }
                    return true;
                }
            }
            r = r + 1;
        }
        f = f + 1;
    }
    false
}

/// A copy of the grid with the piece on `from` relocated to `to` and the
/// origin cleared: the temporary application the legality filter inspects.
fn relocate_copy(squares: &Vec<Piece>, from: &Square, to: &Square) -> (res: Vec<Piece>)
    requires
        grid_ok(squares@),
        sq_ok(*from),
        sq_ok(*to),
    ensures
        res@ == relocated(squares@, *from, *to),
{
    let mut sim = squares.clone();
    assert(sim@ =~= squares@);
    let moving = sim[from.0 * 8 + from.1];
    sim[to.0 * 8 + to.1] = moving;
    sim[from.0 * 8 + from.1] = Piece::none();
    proof {
        assert(sim@ =~= relocated(squares@, *from, *to));
    }
    sim
}

impl Board {
    /// The destinations a sliding piece standing on `start` may move to along
    /// the single direction (file_step_sz, rank_step_sz): every empty square
    /// on the way, and the first occupied square if and only if it holds an
    /// opposing piece.
    fn straight_path(&self, start: &Square, file_step_sz: i32, rank_step_sz: i32) -> (res: Vec<
        Square,
    >)
        requires
            self.wf(),
            sq_ok(*start),
            unit_dir(file_step_sz as int, rank_step_sz as int),
        ensures
            forall|t: Square|
                #[trigger] res@.contains(t) <==> (ray_reaches(
                    self.pieces@,
                    start.0 as int,
                    start.1 as int,
                    file_step_sz as int,
                    rank_step_sz as int,
                    t.0 as int,
                    t.1 as int,
                ) && free_or_enemy(
                    self.pieces@,
                    at(self.pieces@, start.0 as int, start.1 as int).color,
                    t.0 as int,
                    t.1 as int,
                )),
    {
        broadcast use lemma_push_contains;

        let ghost b = self.pieces@;
        let ghost sf = start.0 as int;
        let ghost sr = start.1 as int;
        let ghost dfi = file_step_sz as int;
        let ghost dri = rank_step_sz as int;
        let ghost own = at(b, sf, sr).color;
        let (p, steps) = walk_ray(&self.pieces, start.0, start.1, file_step_sz, rank_step_sz);
        let own_color = piece_color(self.pieces[start.0 * 8 + start.1]);
        let cap: usize = if !is_piece(p) {
            steps
        } else if p.color == own_color {
            steps - 1
        } else {
            steps
        };
        let mut res: Vec<Square> = Vec::new();
        let mut x: usize = 1;
        while x <= cap
            invariant
                self.wf(),
                sq_ok(*start),
                unit_dir(dfi, dri),
                b == self.pieces@,
                sf == start.0 as int,
                sr == start.1 as int,
                dfi == file_step_sz as int,
                dri == rank_step_sz as int,
                1 <= x <= cap + 1,
                cap <= steps <= 7,
                p.kind != PieceKind::Empty ==> {
                    &&& 1 <= steps
                    &&& on_board(sf + steps * dfi, sr + steps * dri)
                    &&& at(b, sf + steps * dfi, sr + steps * dri) == p
                    &&& cap as int == (if p.color == own { steps - 1 } else { steps as int })
                },
                p.kind == PieceKind::Empty ==> {
                    &&& cap == steps
                    &&& (forall|j: int|
                        #![trigger occupied(b, sf + j * dfi, sr + j * dri)]
                        #![trigger on_board(sf + j * dfi, sr + j * dri)]
                        1 <= j <= steps ==> on_board(sf + j * dfi, sr + j * dri) && !occupied(
                            b,
                            sf + j * dfi,
                            sr + j * dri,
                        ))
                    &&& !on_board(sf + (steps + 1) * dfi, sr + (steps + 1) * dri)
                },
                ray_clear(b, sf, sr, dfi, dri, steps as int),
                own == at(b, sf, sr).color,
                res@.len() == x - 1,
                forall|i: int| 0 <= i < x - 1 ==> res@[i] == ray_sq(sf, sr, dfi, dri, i + 1),
            decreases cap + 1 - x,
        {
            proof {
                if p.kind != PieceKind::Empty {
                    lemma_ray_convex(sf, sr, dfi, dri, x as int, steps as int);
                }
                assert(on_board(sf + x * dfi, sr + x * dri));
                lemma_mul_unit(x as int, dfi);
                lemma_mul_unit(x as int, dri);
            }
            let cf = start.0 as i32 + (x as i32) * file_step_sz;
            let cr = start.1 as i32 + (x as i32) * rank_step_sz;
            assert(cf as int == sf + x * dfi);
            assert(cr as int == sr + x * dri);
            res.push(Square(cf as usize, cr as usize));
            assert(res@[x - 1] == ray_sq(sf, sr, dfi, dri, x as int));
            x = x + 1;
        }
        proof {
            assert forall|t: Square| #[trigger]
                res@.contains(t) <==> (ray_reaches(b, sf, sr, dfi, dri, t.0 as int, t.1 as int)
                    && free_or_enemy(b, own, t.0 as int, t.1 as int)) by {
                if res@.contains(t) {
                    let i = choose|i: int| 0 <= i < res@.len() && res@[i] == t;
                    let j = i + 1;
                    assert(t == ray_sq(sf, sr, dfi, dri, j));
                    assert(1 <= j <= cap);
                    if p.kind != PieceKind::Empty {
                        lemma_ray_convex(sf, sr, dfi, dri, j, steps as int);
                    }
                    assert(on_board(sf + j * dfi, sr + j * dri));
                    assert(t.0 as int == sf + j * dfi && t.1 as int == sr + j * dri);
                    assert(ray_clear(b, sf, sr, dfi, dri, j));
                    assert(ray_reaches(b, sf, sr, dfi, dri, t.0 as int, t.1 as int));
                    if j < steps {
                        assert(!occupied(b, sf + j * dfi, sr + j * dri));
                    } else {
                        // j == cap == steps: either the walk hit the border
                        // with all squares empty, or it found an opposing
                        // piece there
                        if p.kind != PieceKind::Empty {
                            assert(at(b, sf + j * dfi, sr + j * dri) == p);
                            assert(p.color != own);
                        }
                    }
                    assert(free_or_enemy(b, own, t.0 as int, t.1 as int));
                } else {
                    if ray_reaches(b, sf, sr, dfi, dri, t.0 as int, t.1 as int) && free_or_enemy(
                        b,
                        own,
                        t.0 as int,
                        t.1 as int,
                    ) {
                        let k = choose|k: int|
                            1 <= k && t.0 as int == sf + k * dfi && t.1 as int == sr + k * dri
                                && on_board(t.0 as int, t.1 as int) && #[trigger] ray_clear(
                                b,
                                sf,
                                sr,
                                dfi,
                                dri,
                                k,
                            );
                        if p.kind == PieceKind::Empty {
                            // every square past the border is off the board
                            if k > steps {
                                lemma_ray_exit(sf, sr, dfi, dri, steps as int + 1, k);
                            }
                            assert(k <= cap);
                        } else {
                            if k > steps {
                                // the attack ray would pass over the piece the
                                // walk stopped at
                                assert(!occupied(b, sf + steps * dfi, sr + steps * dri));
                            }
                            if k == steps {
                                // the first occupied square counts only as a
                                // capture of an opposing piece
                                assert(at(b, sf + k * dfi, sr + k * dri) == p);
                                assert(p.color != own);
                                assert(k <= cap);
                            }
                            assert(k <= cap);
                        }
                        assert(res@[k - 1] == ray_sq(sf, sr, dfi, dri, k));
                        assert(on_board(sf + k * dfi, sr + k * dri));
                        assert(ray_sq(sf, sr, dfi, dri, k) == t);
                        assert(res@.contains(t));
                    }
                }
            }
        }
        res
    }

    /// Appends one move (from, dest) for every destination in `dests`.
    fn append_from_moves(out: &mut Vec<Move>, from: &Square, dests: &Vec<Square>)
        ensures
            final(out)@.len() == old(out)@.len() + dests@.len(),
            forall|m: Move| #[trigger]
                final(out)@.contains(m) <==> (old(out)@.contains(m) || (m.0 == *from
                    && dests@.contains(m.1))),
    {
        broadcast use lemma_push_contains;

        let ghost orig = out@;
        let mut i: usize = 0;
        while i < dests.len()
            invariant
                i <= dests@.len(),
                out@.len() == orig.len() + i,
                forall|m: Move| #[trigger]
                    out@.contains(m) <==> (orig.contains(m) || (m.0 == *from && dests@.subrange(
                        0,
                        i as int,
                    ).contains(m.1))),
            decreases dests@.len() - i,
        {
            let d = dests[i];
            let ghost prev = out@;
            out.push((*from, d));
            proof {
                assert(out@ == prev.push((*from, d)));
                assert forall|m: Move| #[trigger]
                    out@.contains(m) <==> (prev.contains(m) || m == (*from, d)) by {
                    lemma_push_contains(prev, (*from, d), m);
                }
                assert(dests@.subrange(0, i + 1) =~= dests@.subrange(0, i as int).push(d));
                assert forall|q: Square| #[trigger]
                    dests@.subrange(0, i + 1).contains(q) <==> (dests@.subrange(
                        0,
                        i as int,
                    ).contains(q) || q == d) by {
                    lemma_push_contains(dests@.subrange(0, i as int), d, q);
                }
            }
            i = i + 1;
        }
        proof {
            assert(dests@.subrange(0, dests@.len() as int) =~= dests@);
        }
    }

    /// The pseudo-legal destinations of a sliding piece on `from` along the
    /// four diagonals, paired with their origin.
    fn gen_bishop_moves(&self, from: &Square) -> (res: Vec<Move>)
        requires
            self.wf(),
            sq_ok(*from),
        ensures
            forall|m: Move| #[trigger]
                res@.contains(m) <==> (m.0 == *from && diag_dest(
                    self.pieces@,
                    at(self.pieces@, from.0 as int, from.1 as int).color,
                    from.0 as int,
                    from.1 as int,
                    m.1.0 as int,
                    m.1.1 as int,
                )),
    {
        let ghost b = self.pieces@;
        let ghost ff = from.0 as int;
        let ghost fr = from.1 as int;
        let ghost own = at(b, ff, fr).color;
        let mut res: Vec<Move> = Vec::new();
        let d1 = self.straight_path(from, 1, 1);
        Self::append_from_moves(&mut res, from, &d1);
        let d2 = self.straight_path(from, 1, -1);
        Self::append_from_moves(&mut res, from, &d2);
        let d3 = self.straight_path(from, -1, 1);
        Self::append_from_moves(&mut res, from, &d3);
        let d4 = self.straight_path(from, -1, -1);
        Self::append_from_moves(&mut res, from, &d4);
        proof {
            assert forall|m: Move| #[trigger]
                res@.contains(m) <==> (m.0 == *from && diag_dest(
                    b,
                    own,
                    ff,
                    fr,
                    m.1.0 as int,
                    m.1.1 as int,
                )) by {
                let tf = m.1.0 as int;
                let tr = m.1.1 as int;
                if res@.contains(m) {
                    assert(free_or_enemy(b, own, tf, tr));
                    assert(diag_dest(b, own, ff, fr, tf, tr));
                }
                if m.0 == *from && diag_dest(b, own, ff, fr, tf, tr) {
                    let (df, dr) = choose|df: int, dr: int|
                        diag_dir(df, dr) && #[trigger] ray_reaches(b, ff, fr, df, dr, tf, tr);
                    if df == 1 && dr == 1 {
                        assert(ray_reaches(b, ff, fr, 1 as i32 as int, 1 as i32 as int, tf, tr));
                        assert(d1@.contains(m.1));
                    } else if df == 1 && dr == -1 {
                        assert(ray_reaches(b, ff, fr, 1 as i32 as int, -1 as i32 as int, tf, tr));
                        assert(d2@.contains(m.1));
                    } else if df == -1 && dr == 1 {
                        assert(ray_reaches(b, ff, fr, -1 as i32 as int, 1 as i32 as int, tf, tr));
                        assert(d3@.contains(m.1));
                    } else {
                        assert(ray_reaches(b, ff, fr, -1 as i32 as int, -1 as i32 as int, tf, tr));
                        assert(d4@.contains(m.1));
                    }
                    assert(res@.contains(m));
                }
            }
        }
        res
    }

    /// The pseudo-legal destinations of a sliding piece on `from` along the
    /// four orthogonal directions, paired with their origin.
    fn gen_rook_moves(&self, from: &Square) -> (res: Vec<Move>)
        requires
            self.wf(),
            sq_ok(*from),
        ensures
            forall|m: Move| #[trigger]
                res@.contains(m) <==> (m.0 == *from && ortho_dest(
                    self.pieces@,
                    at(self.pieces@, from.0 as int, from.1 as int).color,
                    from.0 as int,
                    from.1 as int,
                    m.1.0 as int,
                    m.1.1 as int,
                )),
    {
        let ghost b = self.pieces@;
        let ghost ff = from.0 as int;
        let ghost fr = from.1 as int;
        let ghost own = at(b, ff, fr).color;
        let mut res: Vec<Move> = Vec::new();
        let d1 = self.straight_path(from, 1, 0);
        Self::append_from_moves(&mut res, from, &d1);
        let d2 = self.straight_path(from, -1, 0);
        Self::append_from_moves(&mut res, from, &d2);
        let d3 = self.straight_path(from, 0, 1);
        Self::append_from_moves(&mut res, from, &d3);
        let d4 = self.straight_path(from, 0, -1);
        Self::append_from_moves(&mut res, from, &d4);
        proof {
            assert forall|m: Move| #[trigger]
                res@.contains(m) <==> (m.0 == *from && ortho_dest(
                    b,
                    own,
                    ff,
                    fr,
                    m.1.0 as int,
                    m.1.1 as int,
                )) by {
                let tf = m.1.0 as int;
                let tr = m.1.1 as int;
                if res@.contains(m) {
                    assert(free_or_enemy(b, own, tf, tr));
                    assert(ortho_dest(b, own, ff, fr, tf, tr));
                }
                if m.0 == *from && ortho_dest(b, own, ff, fr, tf, tr) {
                    let (df, dr) = choose|df: int, dr: int|
                        ortho_dir(df, dr) && #[trigger] ray_reaches(b, ff, fr, df, dr, tf, tr);
                    if df == 1 && dr == 0 {
                        assert(ray_reaches(b, ff, fr, 1 as i32 as int, 0 as i32 as int, tf, tr));
                        assert(d1@.contains(m.1));
                    } else if df == -1 && dr == 0 {
                        assert(ray_reaches(b, ff, fr, -1 as i32 as int, 0 as i32 as int, tf, tr));
                        assert(d2@.contains(m.1));
                    } else if df == 0 && dr == 1 {
                        assert(ray_reaches(b, ff, fr, 0 as i32 as int, 1 as i32 as int, tf, tr));
                        assert(d3@.contains(m.1));
                    } else {
                        assert(ray_reaches(b, ff, fr, 0 as i32 as int, -1 as i32 as int, tf, tr));
                        assert(d4@.contains(m.1));
                    }
                    assert(res@.contains(m));
                }
            }
        }
        res
    }

    /// The pseudo-legal destinations of a queen on `from`: the union of the
    /// bishop-like and the rook-like destinations.
    fn gen_queen_moves(&self, from: &Square) -> (res: Vec<Move>)
        requires
            self.wf(),
            sq_ok(*from),
        ensures
            forall|m: Move| #[trigger]
                res@.contains(m) <==> (m.0 == *from && (diag_dest(
                    self.pieces@,
                    at(self.pieces@, from.0 as int, from.1 as int).color,
                    from.0 as int,
                    from.1 as int,
                    m.1.0 as int,
                    m.1.1 as int,
                ) || ortho_dest(
                    self.pieces@,
                    at(self.pieces@, from.0 as int, from.1 as int).color,
                    from.0 as int,
                    from.1 as int,
                    m.1.0 as int,
                    m.1.1 as int,
                ))),
    {
        broadcast use lemma_concat_contains;

        let mut res = self.gen_bishop_moves(from);
        let mut rest = self.gen_rook_moves(from);
        let ghost left = res@;
        let ghost right = rest@;
        res.append(&mut rest);
        proof {
            assert(res@ == left + right);
        }
        res
    }

    /// Pushes the move from `from` to the square one (df, dr) offset away
    /// when that square is on the board and not blocked by an own piece.
    fn try_push_offset(&self, out: &mut Vec<Move>, from: &Square, df: i32, dr: i32)
        requires
            self.wf(),
            sq_ok(*from),
            -2 <= df <= 2,
            -2 <= dr <= 2,
        ensures
            ({
                let tf = from.0 + df as int;
                let tr = from.1 + dr as int;
                let ok = on_board(tf, tr) && free_or_enemy(
                    self.pieces@,
                    at(self.pieces@, from.0 as int, from.1 as int).color,
                    tf,
                    tr,
                );
                let mv = (*from, Square(tf as usize, tr as usize));
                forall|m: Move| #[trigger]
                    final(out)@.contains(m) <==> (old(out)@.contains(m) || (ok && m == mv))
            }),
    {
        let ghost orig = out@;
        let cf = from.0 as i32 + df;
        let cr = from.1 as i32 + dr;
        let mut pushed = false;
        if 0 <= cf && cf < 8 && 0 <= cr && cr < 8 {
            let p = self.pieces[(cf as usize) * 8 + (cr as usize)];
            let own = piece_color(self.pieces[from.0 * 8 + from.1]);
            if !(is_piece(p) && p.color == own) {
                out.push((*from, Square(cf as usize, cr as usize)));
                pushed = true;
            }
        }
        proof {
            let tf = from.0 + df as int;
            let tr = from.1 + dr as int;
            let mv = (*from, Square(tf as usize, tr as usize));
            if pushed {
                assert forall|m: Move| #[trigger]
                    out@.contains(m) <==> (orig.contains(m) || m == mv) by {
                    lemma_push_contains(orig, mv, m);
                }
            }
        }
    }

    /// The pseudo-legal moves of a knight on `from`: the eight jump offsets,
    /// kept when on the board and not blocked by an own piece.
    fn gen_knight_moves(&self, from: &Square) -> (res: Vec<Move>)
        requires
            self.wf(),
            sq_ok(*from),
        ensures
            forall|m: Move| #[trigger]
                res@.contains(m) <==> (m.0 == *from && on_board(m.1.0 as int, m.1.1 as int)
                    && knight_delta(m.1.0 - from.0, m.1.1 - from.1) && free_or_enemy(
                    self.pieces@,
                    at(self.pieces@, from.0 as int, from.1 as int).color,
                    m.1.0 as int,
                    m.1.1 as int,
                )),
    {
        let mut res: Vec<Move> = Vec::new();
        self.try_push_offset(&mut res, from, -2, -1);
        self.try_push_offset(&mut res, from, -2, 1);
        self.try_push_offset(&mut res, from, -1, -2);
        self.try_push_offset(&mut res, from, -1, 2);
        self.try_push_offset(&mut res, from, 1, -2);
        self.try_push_offset(&mut res, from, 1, 2);
        self.try_push_offset(&mut res, from, 2, -1);
        self.try_push_offset(&mut res, from, 2, 1);
        res
    }

    /// The pseudo-legal moves of a king on `from`: the eight unit-offset
    /// neighbors, kept when on the board and not blocked by an own piece.
    /// Castling is out of scope.
    fn gen_king_moves(&self, from: &Square) -> (res: Vec<Move>)
        requires
            self.wf(),
            sq_ok(*from),
        ensures
            forall|m: Move| #[trigger]
                res@.contains(m) <==> (m.0 == *from && on_board(m.1.0 as int, m.1.1 as int)
                    && king_delta(m.1.0 - from.0, m.1.1 - from.1) && free_or_enemy(
                    self.pieces@,
                    at(self.pieces@, from.0 as int, from.1 as int).color,
                    m.1.0 as int,
                    m.1.1 as int,
                )),
    {
        let mut res: Vec<Move> = Vec::new();
        self.try_push_offset(&mut res, from, -1, -1);
        self.try_push_offset(&mut res, from, -1, 0);
        self.try_push_offset(&mut res, from, -1, 1);
        self.try_push_offset(&mut res, from, 0, -1);
        self.try_push_offset(&mut res, from, 0, 1);
        self.try_push_offset(&mut res, from, 1, -1);
        self.try_push_offset(&mut res, from, 1, 0);
        self.try_push_offset(&mut res, from, 1, 1);
        res
    }

    /// The pseudo-legal moves of a pawn on `from`: a one-step advance onto an
    /// empty square, a two-step advance from the starting rank, and diagonal
    /// captures onto an opposing piece or onto the en-passant target square.
    fn gen_pawn_moves(&self, from: &Square) -> (res: Vec<Move>)
        requires
            self.wf(),
            sq_ok(*from),
            at(self.pieces@, from.0 as int, from.1 as int).kind == PieceKind::Pawn,
        ensures
            forall|m: Move| #[trigger]
                res@.contains(m) <==> (m.0 == *from && on_board(m.1.0 as int, m.1.1 as int)
                    && pawn_dest(
                    self.pieces@,
                    self.en_passant,
                    at(self.pieces@, from.0 as int, from.1 as int).color,
                    from.0 as int,
                    from.1 as int,
                    m.1.0 as int,
                    m.1.1 as int,
                )),
    {
        broadcast use lemma_push_contains;

        let ghost b = self.pieces@;
        let ghost ff = from.0 as int;
        let ghost fr = from.1 as int;
        let ghost c = at(b, ff, fr).color;
        let own = piece_color(self.pieces[from.0 * 8 + from.1]);
        let d: i32 = if matches!(own, Color::White) {
            1
        } else {
            -1
        };
        proof {
            assert(d as int == pawn_dir(c));
        }
        let mut res: Vec<Move> = Vec::new();
        let r1 = from.1 as i32 + d;
        if 0 <= r1 && r1 < 8 {
            let r1u = r1 as usize;
            // one-step advance
            if !is_piece(self.pieces[from.0 * 8 + r1u]) {
                res.push((*from, Square(from.0, r1u)));
                // two-step advance from the starting rank
                let start_rank: usize = if matches!(own, Color::White) {
                    1
                } else {
                    6
                };
                if from.1 == start_rank {
                    let r2 = from.1 as i32 + 2 * d;
                    let r2u = r2 as usize;
                    if !is_piece(self.pieces[from.0 * 8 + r2u]) {
                        res.push((*from, Square(from.0, r2u)));
                    }
                }
            }
            // capture toward the H file
            if from.0 + 1 < 8 {
                let p = self.pieces[(from.0 + 1) * 8 + r1u];
                let ep_hit = match self.en_passant {
                    Some(sq) => sq.0 == from.0 + 1 && sq.1 == r1u,
                    None => false,
                };
                if (is_piece(p) && p.color != own) || ep_hit {
                    res.push((*from, Square(from.0 + 1, r1u)));
                }
            }
            // capture toward the A file
            if from.0 >= 1 {
                let p = self.pieces[(from.0 - 1) * 8 + r1u];
                let ep_hit = match self.en_passant {
                    Some(sq) => sq.0 == from.0 - 1 && sq.1 == r1u,
                    None => false,
                };
                if (is_piece(p) && p.color != own) || ep_hit {
                    res.push((*from, Square(from.0 - 1, r1u)));
                }
            }
        }
        res
    }

    /// Whether `color`'s king is attacked on the current position. Together
    /// with `gen_moves` this lets a caller report check, checkmate (no legal
    /// move while in check) and stalemate (no legal move while not in check).
    pub fn check_for_check(&self, color: Color) -> (b: bool)
        requires
            self.wf(),
        ensures
            b == in_check(self.pieces@, color),
    {
        grid_in_check(&self.pieces, color)
    }

    /// Whether applying the move temporarily (relocate the piece, clear the
    /// origin) would leave the mover's own king attacked. The board itself is
    /// never touched: the probe runs on a copy.
    fn move_cause_self_check(&self, mv: Move) -> (b: bool)
        requires
            self.wf(),
            sq_ok(mv.0),
            sq_ok(mv.1),
        ensures
            b == in_check(relocated(self.pieces@, mv.0, mv.1), self.side_to_move),
    {
        let sim = relocate_copy(&self.pieces, &mv.0, &mv.1);
        grid_in_check(&sim, self.side_to_move)
    }

    /// The full legal move set of the side to move: every pseudo-legal move
    /// of its pieces whose temporary application does not leave its own king
    /// attacked.
    pub fn gen_moves(&self) -> (res: Vec<Move>)
        requires
            self.wf(),
        ensures
            forall|m: Move| #[trigger]
                res@.contains(m) <==> legal_move(
                    self.pieces@,
                    self.side_to_move,
                    self.en_passant,
                    m.0,
                    m.1,
                ),
    {
        broadcast use lemma_push_contains;

        let ghost b = self.pieces@;
        let ghost side = self.side_to_move;
        let ghost ep = self.en_passant;
        let mut pseudo: Vec<Move> = Vec::new();
        let mut f: usize = 0;
        while f < 8
            invariant
                self.wf(),
                b == self.pieces@,
                side == self.side_to_move,
                ep == self.en_passant,
                f <= 8,
                forall|m: Move| #[trigger]
                    pseudo@.contains(m) <==> (pseudo_legal(b, side, ep, m.0, m.1) && m.0.0 < f),
            decreases 8 - f,
        {
            let mut r: usize = 0;
            while r < 8
                invariant
                    self.wf(),
                    b == self.pieces@,
                    side == self.side_to_move,
                    ep == self.en_passant,
                    f < 8,
                    r <= 8,
                    forall|m: Move| #[trigger]
                        pseudo@.contains(m) <==> (pseudo_legal(b, side, ep, m.0, m.1) && (m.0.0 < f
                            || (m.0.0 == f && m.0.1 < r))),
                decreases 8 - r,
            {
                let p = self.pieces[f * 8 + r];
                let from = Square(f, r);
                assert(p == at(b, f as int, r as int));
                if is_piece(p) && p.color == self.side_to_move {
                    let mut mv: Vec<Move> = match p.kind {
                        PieceKind::King => self.gen_king_moves(&from),
                        PieceKind::Pawn => self.gen_pawn_moves(&from),
                        PieceKind::Rook => self.gen_rook_moves(&from),
                        PieceKind::Knight => self.gen_knight_moves(&from),
                        PieceKind::Bishop => self.gen_bishop_moves(&from),
                        PieceKind::Queen => self.gen_queen_moves(&from),
                        PieceKind::Empty => Vec::new(),
                    };
                    let ghost prev = pseudo@;
                    let ghost mvs = mv@;
                    proof {
                        assert forall|m: Move| #[trigger]
                            mvs.contains(m) <==> (pseudo_legal(b, side, ep, m.0, m.1) && m.0
                                == from) by {
                            if mvs.contains(m) {
                                assert(pseudo_dest(
                                    b,
                                    ep,
                                    f as int,
                                    r as int,
                                    m.1.0 as int,
                                    m.1.1 as int,
                                ));
                            }
                        }
                    }
                    pseudo.append(&mut mv);
                    proof {
                        assert(pseudo@ == prev + mvs);
                        assert forall|m: Move| #[trigger]
                            pseudo@.contains(m) <==> (prev.contains(m) || mvs.contains(m)) by {
                            lemma_concat_contains(prev, mvs, m);
                        }
                    }
                }
                r = r + 1;
            }
            f = f + 1;
        }
        // keep only the moves that do not expose the mover's own king
        let mut res: Vec<Move> = Vec::new();
        let mut i: usize = 0;
        while i < pseudo.len()
            invariant
                self.wf(),
                b == self.pieces@,
                side == self.side_to_move,
                ep == self.en_passant,
                i <= pseudo@.len(),
                forall|m: Move| #[trigger]
                    pseudo@.contains(m) <==> pseudo_legal(b, side, ep, m.0, m.1),
                forall|m: Move| #[trigger]
                    res@.contains(m) <==> (pseudo@.subrange(0, i as int).contains(m) && !in_check(
                        relocated(b, m.0, m.1),
                        side,
                    )),
            decreases pseudo@.len() - i,
        {
            let mv = pseudo[i];
            proof {
                assert(pseudo@.contains(mv));
            }
            let ghost prev = res@;
            if !self.move_cause_self_check(mv) {
                res.push(mv);
                proof {
                    assert forall|m: Move| #[trigger]
                        res@.contains(m) <==> (prev.contains(m) || m == mv) by {
                        lemma_push_contains(prev, mv, m);
                    }
                }
            }
            proof {
                assert(pseudo@.subrange(0, i + 1) =~= pseudo@.subrange(0, i as int).push(mv));
                assert forall|m: Move| #[trigger]
                    pseudo@.subrange(0, i + 1).contains(m) <==> (pseudo@.subrange(
                        0,
                        i as int,
                    ).contains(m) || m == mv) by {
                    lemma_push_contains(pseudo@.subrange(0, i as int), mv, m);
                }
            }
            i = i + 1;
        }
        proof {
            assert(pseudo@.subrange(0, pseudo@.len() as int) =~= pseudo@);
        }
        res
    }

    /// The sole external mutator. Succeeds exactly when (from, to) is in the
    /// current legal move set; it then relocates the piece with its moved
    /// flag set, overwrites the destination (capturing whatever was there,
    /// and the passed pawn on an en-passant capture), clears the origin,
    /// updates the en-passant state and flips the side to move. On failure
    /// the board is left completely unchanged.
    pub fn move_piece(&mut self, from: &Square, to: &Square) -> (r: Result<(), ChessError>)
        requires
            old(self).wf(),
        ensures
            r is Ok <==> legal_move(
                old(self).pieces@,
                old(self).side_to_move,
                old(self).en_passant,
                *from,
                *to,
            ),
            r is Err ==> r == Err::<(), ChessError>(ChessError::IllegalMove) && *final(self)
                == *old(self),
            r is Ok ==> {
                &&& final(self).pieces@ == applied(
                    old(self).pieces@,
                    old(self).en_passant,
                    *from,
                    *to,
                )
                &&& final(self).side_to_move == other(old(self).side_to_move)
                &&& final(self).en_passant == next_en_passant(old(self).pieces@, *from, *to)
                &&& final(self).wf()
            },
    {
        let ghost b = self.pieces@;
        let ghost side = self.side_to_move;
        let ghost ep = self.en_passant;
        let possible_moves = self.gen_moves();
        let mut i: usize = 0;
        let mut found = false;
        while i < possible_moves.len()
            invariant
                i <= possible_moves@.len(),
                found ==> possible_moves@.contains((*from, *to)),
                !found ==> forall|j: int| 0 <= j < i ==> possible_moves@[j] != (*from, *to),
            decreases possible_moves@.len() - i,
        {
            let m = possible_moves[i];
            if m.0 == *from && m.1 == *to {
                found = true;
            }
            i = i + 1;
        }
        if !found {
            proof {
                assert(!possible_moves@.contains((*from, *to))) by {
                    if possible_moves@.contains((*from, *to)) {
                        let j = choose|j: int|
                            0 <= j < possible_moves@.len() && possible_moves@[j] == (*from, *to);
                    }
                }
            }
            return Err(ChessError::IllegalMove);
        }
        proof {
            assert(legal_move(b, side, ep, *from, *to));
            assert(sq_ok(*from) && sq_ok(*to));
        }
        let moving = self.pieces[from.0 * 8 + from.1];
        let is_pawn = matches!(moving.kind, PieceKind::Pawn);
        let ep_cap = is_pawn && (match self.en_passant {
            Some(sq) => sq.0 == to.0 && sq.1 == to.1,
            None => false,
        }) && to.0 != from.0;
        let moved_piece = Piece { kind: moving.kind, color: moving.color, moved: true };
        self.pieces[to.0 * 8 + to.1] = moved_piece;
        self.pieces[from.0 * 8 + from.1] = Piece::none();
        if ep_cap {
            let d: i32 = if matches!(moving.color, Color::White) {
                1
            } else {
                -1
            };
            proof {
                // an en-passant capture is a diagonal pawn move, so the
                // captured pawn's rank is the mover's own starting rank
                assert(to.1 as int == from.1 + pawn_dir(moving.color));
            }
            let capr = to.1 as i32 - d;
            self.pieces[to.0 * 8 + (capr as usize)] = Piece::none();
        }
        proof {
            assert(self.pieces@ =~= applied(b, ep, *from, *to));
        }
        self.en_passant = if is_pawn && (to.1 == from.1 + 2 || from.1 == to.1 + 2) {
            Some(Square(to.0, (from.1 + to.1) / 2))
        } else {
            None
        };
        proof {
            assert(self.en_passant == next_en_passant(b, *from, *to));
        }
        self.side_to_move = flip_color(self.side_to_move);
        Ok(())
    }
}

} // verus!
