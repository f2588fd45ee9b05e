//! The position codec: parsing and serializing Forsyth-Edwards Notation
//! (FEN). A FEN string holds six space-separated fields: piece placement,
//! side to move, castling rights, en-passant target, halfmove clock and
//! fullmove counter. This core interprets the first, second and fourth
//! fields; the others are accepted syntactically and written back as
//! placeholders.

use crate::board::Board;
use crate::color::Color;
use crate::error::ChessError;
use crate::model::{at, cell, grid_ok, occupied, on_board, sq_ok};
use crate::piece::{is_piece, Piece, PieceKind};
use crate::square::{file_value, parse_square, rank_value, square_chars, Square};
use crate::strutil::push_char;
use vstd::prelude::*;
use vstd::string::{StrSliceExecFns, StringExecFns};

verus! {

// ---------------------------------------------------------------------------
// Piece letters
// ---------------------------------------------------------------------------

/// The placement letter of a piece: uppercase for white, lowercase for black.
pub open spec fn letter_of(k: PieceKind, c: Color) -> char {
    match k {
        PieceKind::Pawn => if c == Color::White {
            'P'
        } else {
            'p'
        },
        PieceKind::Rook => if c == Color::White {
            'R'
        } else {
            'r'
        },
        PieceKind::Knight => if c == Color::White {
            'N'
        } else {
            'n'
        },
        PieceKind::Bishop => if c == Color::White {
            'B'
        } else {
            'b'
        },
        PieceKind::Queen => if c == Color::White {
            'Q'
        } else {
            'q'
        },
        PieceKind::King => if c == Color::White {
            'K'
        } else {
            'k'
        },
        PieceKind::Empty => ' ',
    }
}

/// The piece a placement letter denotes, or `None` for an unrecognized
/// character.
pub open spec fn piece_of_letter(ch: char) -> Option<Piece> {
    if ch == 'P' {
        Some(Piece { kind: PieceKind::Pawn, color: Color::White, moved: false })
    } else if ch == 'p' {
        Some(Piece { kind: PieceKind::Pawn, color: Color::Black, moved: false })
    } else if ch == 'R' {
        Some(Piece { kind: PieceKind::Rook, color: Color::White, moved: false })
    } else if ch == 'r' {
        Some(Piece { kind: PieceKind::Rook, color: Color::Black, moved: false })
    } else if ch == 'N' {
        Some(Piece { kind: PieceKind::Knight, color: Color::White, moved: false })
    } else if ch == 'n' {
        Some(Piece { kind: PieceKind::Knight, color: Color::Black, moved: false })
    } else if ch == 'B' {
        Some(Piece { kind: PieceKind::Bishop, color: Color::White, moved: false })
    } else if ch == 'b' {
        Some(Piece { kind: PieceKind::Bishop, color: Color::Black, moved: false })
    } else if ch == 'Q' {
        Some(Piece { kind: PieceKind::Queen, color: Color::White, moved: false })
    } else if ch == 'q' {
        Some(Piece { kind: PieceKind::Queen, color: Color::Black, moved: false })
    } else if ch == 'K' {
        Some(Piece { kind: PieceKind::King, color: Color::White, moved: false })
    } else if ch == 'k' {
        Some(Piece { kind: PieceKind::King, color: Color::Black, moved: false })
    } else {
        None
    }
}

/// The digit standing for a run of `n` empty files, 1 <= n <= 8.
pub open spec fn digit_char(n: int) -> char {
    if n == 1 {
        '1'
    } else if n == 2 {
        '2'
    } else if n == 3 {
        '3'
    } else if n == 4 {
        '4'
    } else if n == 5 {
        '5'
    } else if n == 6 {
        '6'
    } else if n == 7 {
        '7'
    } else {
        '8'
    }
}

/// The number of empty files a placement digit skips: 1..8, or 0 for any
/// character that is not such a digit.
pub open spec fn digit_val(ch: char) -> int {
    if '1' as int <= ch as int && ch as int <= '8' as int {
        ch as int - '1' as int + 1
    } else {
        0
    }
}

/// The side-to-move character.
pub open spec fn side_char(c: Color) -> char {
    if c == Color::White {
        'w'
    } else {
        'b'
    }
}

// ---------------------------------------------------------------------------
// Serialization (spec level)
// ---------------------------------------------------------------------------

/// The length of the run of empty files in rank `r` starting at file `f`.
pub open spec fn empty_run(b: Seq<Piece>, f: int, r: int) -> nat
    decreases 8 - f when f <= 8
{
    if 0 <= f < 8 && !occupied(b, f, r) {
        1 + empty_run(b, f + 1, r)
    } else {
        0
    }
}

/// A run of empty files never runs past the board edge.
pub proof fn lemma_empty_run_bounds(b: Seq<Piece>, f: int, r: int)
    requires
        0 <= f <= 8,
    ensures
        empty_run(b, f, r) <= 8 - f,
    decreases 8 - f,
{
    if 0 <= f < 8 && !occupied(b, f, r) {
        lemma_empty_run_bounds(b, f + 1, r);
    }
}

/// The placement text of rank `r` from file `f` on: runs of empty files
/// collapsed to their count, occupied files written as their letter.
pub open spec fn rank_chars_from(b: Seq<Piece>, r: int, f: int) -> Seq<char>
    decreases 8 - f when 0 <= f <= 8 via rank_chars_from_dec
{
    if 0 <= f < 8 {
        if occupied(b, f, r) {
            seq![letter_of(at(b, f, r).kind, at(b, f, r).color)] + rank_chars_from(b, r, f + 1)
        } else {
            let n = empty_run(b, f, r) as int;
            seq![digit_char(n)] + rank_chars_from(b, r, f + n)
        }
    } else {
        Seq::empty()
    }
}

#[via_fn]
proof fn rank_chars_from_dec(b: Seq<Piece>, r: int, f: int) {
    if 0 <= f < 8 && !occupied(b, f, r) {
        lemma_empty_run_bounds(b, f, r);
    }
}

/// The placement text of ranks `r` down to rank 0, separated by slashes.
pub open spec fn placement_chars_from(b: Seq<Piece>, r: int) -> Seq<char>
    decreases r + 1 when r >= -1
{
    if r > 0 {
        rank_chars_from(b, r, 0) + seq!['/'] + placement_chars_from(b, r - 1)
    } else if r == 0 {
        rank_chars_from(b, 0, 0)
    } else {
        Seq::empty()
    }
}

/// The placement field: ranks 8 down to 1, top of the printed board first.
pub open spec fn placement_chars(b: Seq<Piece>) -> Seq<char> {
    placement_chars_from(b, 7)
}

/// The en-passant field: the target square, or `-` when there is none.
pub open spec fn ep_chars(ep: Option<Square>) -> Seq<char> {
    match ep {
        Some(sq) => square_chars(sq.0 as int, sq.1 as int),
        None => seq!['-'],
    }
}

/// The full export text: placement, side to move, a fixed castling-rights
/// placeholder, the en-passant square, and zeroed clock and counter
/// placeholders.
pub open spec fn export_chars(b: Seq<Piece>, side: Color, ep: Option<Square>) -> Seq<char> {
    placement_chars(b) + seq![' ', side_char(side), ' ', 'K', 'Q', 'k', 'q', ' '] + ep_chars(ep)
        + seq![' ', '0', ' ', '0']
}

// ---------------------------------------------------------------------------
// Parsing (spec level)
// ---------------------------------------------------------------------------

/// The position of the first space at or after `i`, or the end of the text.
pub open spec fn token_end(s: Seq<char>, i: int) -> int
    decreases s.len() - i when 0 <= i <= s.len()
{
    if i < s.len() {
        if s[i] == ' ' {
            i
        } else {
            token_end(s, i + 1)
        }
    } else {
        s.len() as int
    }
}

/// The position of the first slash at or after `i` within the placement
/// token, or the end of the token.
pub open spec fn slash_end(s: Seq<char>, i: int) -> int
    decreases s.len() - i when 0 <= i <= s.len()
{
    if i < s.len() {
        if s[i] == '/' {
            i
        } else {
            slash_end(s, i + 1)
        }
    } else {
        s.len() as int
    }
}

/// A token never ends before it starts nor after the text.
pub proof fn lemma_token_end_bounds(s: Seq<char>, i: int)
    requires
        0 <= i <= s.len(),
    ensures
        i <= token_end(s, i) <= s.len(),
    decreases s.len() - i,
{
    if i < s.len() && s[i] != ' ' {
        lemma_token_end_bounds(s, i + 1);
    }
}

/// A rank token never ends before it starts nor after the text.
pub proof fn lemma_slash_end_bounds(s: Seq<char>, i: int)
    requires
        0 <= i <= s.len(),
    ensures
        i <= slash_end(s, i) <= s.len(),
    decreases s.len() - i,
{
    if i < s.len() && s[i] != '/' {
        lemma_slash_end_bounds(s, i + 1);
    }
}

/// The all-empty grid parsing starts from.
pub open spec fn empty_grid() -> Seq<Piece> {
    Seq::new(64, |i: int| Piece::spec_none())
}

/// One rank of the placement field, read from position `i` with the next
/// piece going to file `f`: digits 1..8 skip that many files, letters place a
/// piece. Consuming more than eight files is a `RankOverflow`; an
/// unrecognized letter is an `InvalidPieceLetter`.
pub open spec fn decode_rank_from(
    u: Seq<char>,
    i: int,
    r: int,
    f: int,
    acc: Seq<Piece>,
) -> Result<Seq<Piece>, ChessError>
    decreases u.len() - i when 0 <= i <= u.len()
{
    if i < u.len() {
        let ch = u[i];
        if digit_val(ch) >= 1 {
            if f + digit_val(ch) > 8 {
                Err(ChessError::RankOverflow)
            } else {
                decode_rank_from(u, i + 1, r, f + digit_val(ch), acc)
            }
        } else {
            match piece_of_letter(ch) {
                Some(p) => if f >= 8 {
                    Err(ChessError::RankOverflow)
                } else {
                    decode_rank_from(u, i + 1, r, f + 1, acc.update(cell(f, r), p))
                },
                None => Err(ChessError::InvalidPieceLetter),
            }
        }
    } else {
        Ok(acc)
    }
}

/// The placement ranks from position `i` on, filling ranks `r` down to 0;
/// ranks beyond the eight of the board are ignored, missing ranks stay empty.
pub open spec fn decode_ranks(
    t: Seq<char>,
    i: int,
    r: int,
    acc: Seq<Piece>,
) -> Result<Seq<Piece>, ChessError>
    decreases r + 1 when r >= -1 && 0 <= i <= t.len() via decode_ranks_dec
{
    if r < 0 {
        Ok(acc)
    } else {
        let e = slash_end(t, i);
        match decode_rank_from(t.subrange(i, e), 0, r, 0, acc) {
            Err(er) => Err(er),
            Ok(acc2) => if e < t.len() {
                decode_ranks(t, e + 1, r - 1, acc2)
            } else {
                Ok(acc2)
            },
        }
    }
}

#[via_fn]
proof fn decode_ranks_dec(t: Seq<char>, i: int, r: int, acc: Seq<Piece>) {
    if r >= 0 && 0 <= i <= t.len() {
        lemma_slash_end_bounds(t, i);
    }
}

/// The whole placement field.
pub open spec fn decode_placement(t: Seq<char>) -> Result<Seq<Piece>, ChessError> {
    decode_ranks(t, 0, 7, empty_grid())
}

/// The side-to-move field: exactly `w` or `b`.
pub open spec fn decode_side(t: Seq<char>) -> Result<Color, ChessError> {
    if t.len() == 1 && t[0] == 'w' {
        Ok(Color::White)
    } else if t.len() == 1 && t[0] == 'b' {
        Ok(Color::Black)
    } else {
        Err(ChessError::InvalidSideToMove)
    }
}

/// The en-passant field: `-` for none, else a square in notation.
pub open spec fn decode_ep(t: Seq<char>) -> Result<Option<Square>, ChessError> {
    if t.len() == 1 && t[0] == '-' {
        Ok(None)
    } else {
        match parse_square(t) {
            Some(sq) => Ok(Some(sq)),
            None => Err(ChessError::InvalidNotation),
        }
    }
}

/// What `import` makes of a FEN string: the placement grid, the side to move
/// and the en-passant state, or the first error met reading the six fields
/// left to right.
pub open spec fn spec_import(s: Seq<char>) -> Result<
    (Seq<Piece>, Color, Option<Square>),
    ChessError,
> {
    let e0 = token_end(s, 0);
    match decode_placement(s.subrange(0, e0)) {
        Err(er) => Err(er),
        Ok(pl) => if e0 >= s.len() {
            Err(ChessError::MissingSideToMove)
        } else {
            let s1 = e0 + 1;
            let e1 = token_end(s, s1);
            match decode_side(s.subrange(s1, e1)) {
                Err(er) => Err(er),
                Ok(side) => if e1 >= s.len() {
                    Err(ChessError::MissingCastling)
                } else {
                    let s2 = e1 + 1;
                    let e2 = token_end(s, s2);
                    // the castling field is accepted syntactically
                    if e2 >= s.len() {
                        Err(ChessError::MissingEnPassant)
                    } else {
                        let s3 = e2 + 1;
                        let e3 = token_end(s, s3);
                        match decode_ep(s.subrange(s3, e3)) {
                            Err(er) => Err(er),
                            Ok(ep) => if e3 >= s.len() {
                                Err(ChessError::MissingHalfmoveClock)
                            } else {
                                let s4 = e3 + 1;
                                let e4 = token_end(s, s4);
                                // the halfmove clock is accepted syntactically
                                if e4 >= s.len() {
                                    Err(ChessError::MissingFullmoveCounter)
                                } else {
                                    Ok((pl, side, ep))
                                }
                            },
                        }
                    }
                },
            }
        },
    }
}

// ---------------------------------------------------------------------------
// Serialization (executable)
// ---------------------------------------------------------------------------

/// A counted prefix of empty files is exactly one run.
proof fn lemma_empty_run_value(b: Seq<Piece>, f: int, r: int, n: int)
    requires
        0 <= f,
        0 <= n,
        f + n <= 8,
        forall|j: int| f <= j < f + n ==> !(#[trigger] occupied(b, j, r)),
        f + n == 8 || occupied(b, f + n, r),
    ensures
        empty_run(b, f, r) == n,
    decreases n,
{
    if n == 0 {
    } else {
        lemma_empty_run_value(b, f + 1, r, n - 1);
    }
}

/// The notation letter of a piece: uppercase for white, lowercase for black.
pub fn piece_to_letter(piece: Piece) -> (ch: char)
    requires
        piece.kind != PieceKind::Empty,
    ensures
        ch == letter_of(piece.kind, piece.color),
{
    let white = matches!(piece.color, Color::White);
    match piece.kind {
        PieceKind::Pawn => if white {
            'P'
        } else {
            'p'
        },
        PieceKind::Rook => if white {
            'R'
        } else {
            'r'
        },
        PieceKind::Knight => if white {
            'N'
        } else {
            'n'
        },
        PieceKind::Bishop => if white {
            'B'
        } else {
            'b'
        },
        PieceKind::Queen => if white {
            'Q'
        } else {
            'q'
        },
        PieceKind::King => if white {
            'K'
        } else {
            'k'
        },
        PieceKind::Empty => ' ',
    }
}

/// The digit character of an empty-file run length.
fn digit_of(n: usize) -> (ch: char)
    requires
        1 <= n <= 8,
    ensures
        ch == digit_char(n as int),
{
    if n == 1 {
        '1'
    } else if n == 2 {
        '2'
    } else if n == 3 {
        '3'
    } else if n == 4 {
        '4'
    } else if n == 5 {
        '5'
    } else if n == 6 {
        '6'
    } else if n == 7 {
        '7'
    } else {
        '8'
    }
}

/// Serializes a board to FEN: the placement (rank 8 down to rank 1, runs of
/// empty files collapsed to their count), the side to move, a fixed
/// castling-rights placeholder, the en-passant square or `-`, and zeroed
/// clock and counter placeholders.
pub fn export(board: &Board) -> (r: String)
    requires
        board.wf(),
    ensures
        r@ == export_chars(board.pieces@, board.side_to_move, board.en_passant),
{
    let ghost b = board.pieces@;
    let mut res = String::new();
    let mut ri: usize = 0;
    while ri < 8
        invariant
            board.wf(),
            b == board.pieces@,
            ri <= 8,
            res@ + placement_chars_from(b, 7 - ri) == placement_chars(b),
        decreases 8 - ri,
    {
        let r = 7 - ri;
        let ghost base = res@;
        let mut f: usize = 0;
        while f < 8
            invariant
                board.wf(),
                b == board.pieces@,
                ri < 8,
                r == 7 - ri,
                f <= 8,
                res@ + rank_chars_from(b, r as int, f as int) == base + rank_chars_from(
                    b,
                    r as int,
                    0,
                ),
            decreases 8 - f,
        {
            let p = board.pieces[f * 8 + r];
            assert(p == at(b, f as int, r as int));
            if is_piece(p) {
                let ghost before = res@;
                push_char(&mut res, piece_to_letter(p));
                proof {
                    assert(rank_chars_from(b, r as int, f as int) =~= seq![
                        letter_of(p.kind, p.color),
                    ] + rank_chars_from(b, r as int, f as int + 1));
                    assert(res@ + rank_chars_from(b, r as int, f as int + 1) =~= before
                        + rank_chars_from(b, r as int, f as int));
                }
                f = f + 1;
            } else {
                let mut n: usize = 1;
                while f + n < 8 && !is_piece(board.pieces[(f + n) * 8 + r])
                    invariant
                        board.wf(),
                        b == board.pieces@,
                        f < 8,
                        r < 8,
                        1 <= n,
                        f + n <= 8,
                        forall|j: int| f <= j < f + n ==> !(#[trigger] occupied(b, j, r as int)),
                    decreases 8 - f - n,
                {
                    n = n + 1;
                }
                proof {
                    lemma_empty_run_value(b, f as int, r as int, n as int);
                }
                let ghost before = res@;
                push_char(&mut res, digit_of(n));
                proof {
                    assert(rank_chars_from(b, r as int, f as int) =~= seq![digit_char(n as int)]
                        + rank_chars_from(b, r as int, f as int + n));
                    assert(res@ + rank_chars_from(b, r as int, f as int + n) =~= before
                        + rank_chars_from(b, r as int, f as int));
                }
                f = f + n;
            }
        }
        if r > 0 {
            push_char(&mut res, '/');
        }
        proof {
            assert(rank_chars_from(b, r as int, 8) =~= Seq::<char>::empty());
            if r > 0 {
                assert(placement_chars_from(b, r as int) =~= rank_chars_from(b, r as int, 0)
                    + seq!['/'] + placement_chars_from(b, r as int - 1));
            }
            assert(res@ + placement_chars_from(b, 7 - (ri + 1)) =~= placement_chars(b));
        }
        ri = ri + 1;
    }
    push_char(&mut res, ' ');
    push_char(
        &mut res,
        if matches!(board.side_to_move, Color::White) {
            'w'
        } else {
            'b'
        },
    );
    push_char(&mut res, ' ');
    push_char(&mut res, 'K');
    push_char(&mut res, 'Q');
    push_char(&mut res, 'k');
    push_char(&mut res, 'q');
    push_char(&mut res, ' ');
    match &board.en_passant {
        Some(sq) => {
            let t = sq.to_str();
            res.append(t.as_str());
        },
        None => {
            push_char(&mut res, '-');
        },
    }
    push_char(&mut res, ' ');
    push_char(&mut res, '0');
    push_char(&mut res, ' ');
    push_char(&mut res, '0');
    proof {
        assert(res@ =~= export_chars(b, board.side_to_move, board.en_passant));
    }
    res
}

// ---------------------------------------------------------------------------
// Parsing (executable)
// ---------------------------------------------------------------------------

/// The characters of a text, in order.
fn str_chars(s: &str) -> (v: Vec<char>)
    ensures
        v@ == s@,
{
    let n = s.unicode_len();
    let mut v: Vec<char> = Vec::new();
    let mut i: usize = 0;
    while i < n
        invariant
            n == s@.len(),
            i <= n,
            v@ == s@.subrange(0, i as int),
        decreases n - i,
    {
        let c = s.get_char(i);
        v.push(c);
        proof {
            assert(v@ =~= s@.subrange(0, i + 1));
        }
        i = i + 1;
    }
    proof {
        assert(v@ =~= s@);
    }
    v
}

/// A copy of the characters between two positions.
fn sub_chars(cs: &Vec<char>, a: usize, b: usize) -> (v: Vec<char>)
    requires
        a <= b <= cs@.len(),
    ensures
        v@ == cs@.subrange(a as int, b as int),
{
    let mut v: Vec<char> = Vec::new();
    let mut i: usize = a;
    while i < b
        invariant
            a <= i <= b <= cs@.len(),
            v@ == cs@.subrange(a as int, i as int),
        decreases b - i,
    {
        let c = cs[i];
        v.push(c);
        proof {
            assert(v@ =~= cs@.subrange(a as int, i + 1));
        }
        i = i + 1;
    }
    v
}

/// The position of the first space at or after `i`, or the end of the text.
fn token_scan(cs: &Vec<char>, i: usize) -> (e: usize)
    requires
        i <= cs@.len(),
    ensures
        e == token_end(cs@, i as int),
        i <= e <= cs@.len(),
{
    proof {
        lemma_token_end_bounds(cs@, i as int);
    }
    let mut j: usize = i;
    while j < cs.len() && cs[j] != ' '
        invariant
            i <= j <= cs@.len(),
            token_end(cs@, i as int) == token_end(cs@, j as int),
        decreases cs@.len() - j,
    {
        j = j + 1;
    }
    j
}

/// The position of the first slash at or after `i`, or the end of the text.
fn slash_scan(cs: &Vec<char>, i: usize) -> (e: usize)
    requires
        i <= cs@.len(),
    ensures
        e == slash_end(cs@, i as int),
        i <= e <= cs@.len(),
{
    proof {
        lemma_slash_end_bounds(cs@, i as int);
    }
    let mut j: usize = i;
    while j < cs.len() && cs[j] != '/'
        invariant
            i <= j <= cs@.len(),
            slash_end(cs@, i as int) == slash_end(cs@, j as int),
        decreases cs@.len() - j,
    {
        j = j + 1;
    }
    j
}

/// The number of files a placement digit skips, or 0 for a non-digit.
fn digit_value(ch: char) -> (v: usize)
    ensures
        v == digit_val(ch),
{
    let u = ch as u32;
    if 49 <= u && u <= 56 {
        (u - 48) as usize
    } else {
        0
    }
}

/// The piece a placement letter denotes; `InvalidPieceLetter` for any other
/// character.
fn import_piece(ch: char) -> (r: Result<Piece, ChessError>)
    ensures
        match piece_of_letter(ch) {
            Some(p) => r == Ok::<Piece, ChessError>(p),
            None => r == Err::<Piece, ChessError>(ChessError::InvalidPieceLetter),
        },
{
    let kind = if ch == 'P' || ch == 'p' {
        PieceKind::Pawn
    } else if ch == 'R' || ch == 'r' {
        PieceKind::Rook
    } else if ch == 'N' || ch == 'n' {
        PieceKind::Knight
    } else if ch == 'B' || ch == 'b' {
        PieceKind::Bishop
    } else if ch == 'Q' || ch == 'q' {
        PieceKind::Queen
    } else if ch == 'K' || ch == 'k' {
        PieceKind::King
    } else {
        return Err(ChessError::InvalidPieceLetter);
    };
    let white = ch == 'P' || ch == 'R' || ch == 'N' || ch == 'B' || ch == 'Q' || ch == 'K';
    Ok(
        Piece {
            kind,
            color: if white {
                Color::White
            } else {
                Color::Black
            },
            moved: false,
        },
    )
}

/// Reads one rank token into rank `r` of the grid.
fn import_rank(u: &Vec<char>, r: usize, pieces: &mut Vec<Piece>) -> (res: Result<(), ChessError>)
    requires
        r < 8,
        grid_ok(old(pieces)@),
    ensures
        match decode_rank_from(u@, 0, r as int, 0, old(pieces)@) {
            Ok(acc) => res == Ok::<(), ChessError>(()) && final(pieces)@ == acc && grid_ok(
                final(pieces)@,
            ),
            Err(e) => res == Err::<(), ChessError>(e),
        },
{
    let mut j: usize = 0;
    let mut f: usize = 0;
    while j < u.len()
        invariant
            r < 8,
            j <= u@.len(),
            0 <= f <= 8,
            grid_ok(pieces@),
            decode_rank_from(u@, j as int, r as int, f as int, pieces@) == decode_rank_from(
                u@,
                0,
                r as int,
                0,
                old(pieces)@,
            ),
        decreases u@.len() - j,
    {
        let ch = u[j];
        proof {
            assert(u@[j as int] == ch);
            assert(decode_rank_from(u@, j as int, r as int, f as int, pieces@) == (if digit_val(ch)
                >= 1 {
                if f + digit_val(ch) > 8 {
                    Err::<Seq<Piece>, ChessError>(ChessError::RankOverflow)
                } else {
                    decode_rank_from(u@, j + 1, r as int, f + digit_val(ch), pieces@)
                }
            } else {
                match piece_of_letter(ch) {
                    Some(p) => if f >= 8 {
                        Err::<Seq<Piece>, ChessError>(ChessError::RankOverflow)
                    } else {
                        decode_rank_from(
                            u@,
                            j + 1,
                            r as int,
                            f + 1,
                            pieces@.update(cell(f as int, r as int), p),
                        )
                    },
                    None => Err::<Seq<Piece>, ChessError>(ChessError::InvalidPieceLetter),
                }
            }));
        }
        let dv = digit_value(ch);
        if dv >= 1 {
            if f + dv > 8 {
                return Err(ChessError::RankOverflow);
            }
            f = f + dv;
            j = j + 1;
        } else {
            match import_piece(ch) {
                Ok(p) => {
                    if f >= 8 {
                        return Err(ChessError::RankOverflow);
                    }
                    let ghost before = pieces@;
                    pieces[f * 8 + r] = p;
                    proof {
                        assert(pieces@ == before.update(cell(f as int, r as int), p));
                    }
                    f = f + 1;
                    j = j + 1;
                },
                Err(e) => {
                    return Err(e);
                },
            }
        }
    }
    Ok(())
}

/// Reads the whole placement field into a fresh grid: ranks from rank 8 down
/// to rank 1, split on slashes.
fn import_piece_placement(tok: &Vec<char>) -> (res: Result<Vec<Piece>, ChessError>)
    ensures
        match decode_placement(tok@) {
            Ok(pl) => res is Ok && res->Ok_0@ == pl && grid_ok(pl),
            Err(e) => res == Err::<Vec<Piece>, ChessError>(e),
        },
{
    let mut v: Vec<Piece> = Vec::new();
    let mut k: usize = 0;
    while k < 64
        invariant
            k <= 64,
            v@.len() == k,
            forall|i: int| 0 <= i < k ==> v@[i] == Piece::spec_none(),
        decreases 64 - k,
    {
        v.push(Piece::none());
        k = k + 1;
    }
    proof {
        assert(v@ =~= empty_grid());
    }
    let mut i: usize = 0;
    let mut ri: usize = 0;
    let mut done = false;
    while !done && ri < 8
        invariant
            i <= tok@.len(),
            ri <= 8,
            grid_ok(v@),
            !done ==> decode_ranks(tok@, i as int, 7 - ri, v@) == decode_ranks(
                tok@,
                0,
                7,
                empty_grid(),
            ),
            done ==> Ok::<Seq<Piece>, ChessError>(v@) == decode_ranks(tok@, 0, 7, empty_grid()),
        decreases 8 - ri, 1int - (if done { 1int } else { 0int }),
    {
        let e = slash_scan(tok, i);
        let rank_tok = sub_chars(tok, i, e);
        let r = 7 - ri;
        match import_rank(&rank_tok, r, &mut v) {
            Ok(()) => {},
            Err(er) => {
                return Err(er);
            },
        }
        if e < tok.len() {
            i = e + 1;
            ri = ri + 1;
        } else {
            done = true;
        }
    }
    Ok(v)
}

/// Reads the side-to-move field: exactly `w` or `b`.
fn import_side_to_move(cs: &Vec<char>, a: usize, b: usize) -> (res: Result<Color, ChessError>)
    requires
        a <= b <= cs@.len(),
    ensures
        match decode_side(cs@.subrange(a as int, b as int)) {
            Ok(c) => res == Ok::<Color, ChessError>(c),
            Err(e) => res == Err::<Color, ChessError>(e),
        },
{
    if b - a != 1 {
        return Err(ChessError::InvalidSideToMove);
    }
    let ch = cs[a];
    if ch == 'w' {
        Ok(Color::White)
    } else if ch == 'b' {
        Ok(Color::Black)
    } else {
        Err(ChessError::InvalidSideToMove)
    }
}

/// Reads the en-passant field: `-` for none, else a square in notation.
fn import_en_passant(cs: &Vec<char>, a: usize, b: usize) -> (res: Result<
    Option<Square>,
    ChessError,
>)
    requires
        a <= b <= cs@.len(),
    ensures
        match decode_ep(cs@.subrange(a as int, b as int)) {
            Ok(ep) => res == Ok::<Option<Square>, ChessError>(ep),
            Err(e) => res == Err::<Option<Square>, ChessError>(e),
        },
        res is Ok ==> match res->Ok_0 {
            Some(sq) => sq_ok(sq),
            None => true,
        },
{
    if b - a == 1 && cs[a] == '-' {
        return Ok(None);
    }
    if b - a != 2 {
        return Err(ChessError::InvalidNotation);
    }
    let f = file_value(cs[a]);
    if f < 0 {
        return Err(ChessError::InvalidNotation);
    }
    let r = rank_value(cs[a + 1]);
    if r < 0 {
        return Err(ChessError::InvalidNotation);
    }
    Ok(Some(Square(f as usize, r as usize)))
}

/// Parses a FEN string: six space-separated fields. The placement, the side
/// to move and the en-passant target are interpreted; the castling-rights,
/// halfmove-clock and fullmove-counter fields are accepted syntactically. A
/// missing field fails with the error naming it.
pub fn import(fen_pos: &str) -> (r: Result<Board, ChessError>)
    ensures
        match spec_import(fen_pos@) {
            Ok(parts) => r is Ok && r->Ok_0.pieces@ == parts.0 && r->Ok_0.side_to_move == parts.1
                && r->Ok_0.en_passant == parts.2 && r->Ok_0.wf(),
            Err(e) => r == Err::<Board, ChessError>(e),
        },
{
    let cs = str_chars(fen_pos);
    let n = cs.len();
    let e0 = token_scan(&cs, 0);
    let placement_tok = sub_chars(&cs, 0, e0);
    let placement = match import_piece_placement(&placement_tok) {
        Ok(v) => v,
        Err(e) => {
            return Err(e);
        },
    };
    if e0 >= n {
        return Err(ChessError::MissingSideToMove);
    }
    let e1 = token_scan(&cs, e0 + 1);
    let side = match import_side_to_move(&cs, e0 + 1, e1) {
        Ok(c) => c,
        Err(e) => {
            return Err(e);
        },
    };
    if e1 >= n {
        return Err(ChessError::MissingCastling);
    }
    let e2 = token_scan(&cs, e1 + 1);
    if e2 >= n {
        return Err(ChessError::MissingEnPassant);
    }
    let e3 = token_scan(&cs, e2 + 1);
    let ep = match import_en_passant(&cs, e2 + 1, e3) {
        Ok(ep) => ep,
        Err(e) => {
            return Err(e);
        },
    };
    if e3 >= n {
        return Err(ChessError::MissingHalfmoveClock);
    }
    let e4 = token_scan(&cs, e3 + 1);
    if e4 >= n {
        return Err(ChessError::MissingFullmoveCounter);
    }
    Ok(Board { pieces: placement, side_to_move: side, en_passant: ep })
}

// ---------------------------------------------------------------------------
// The round trip: importing what was exported reproduces the position
// ---------------------------------------------------------------------------

/// A piece as parsing would rebuild it: empty cells canonical, moved flags
/// cleared (FEN does not carry them), kind and color kept.
pub open spec fn norm_piece(p: Piece) -> Piece {
    if p.kind == PieceKind::Empty {
        Piece::spec_none()
    } else {
        Piece { kind: p.kind, color: p.color, moved: false }
    }
}

/// A grid as parsing would rebuild it, cell by cell.
pub open spec fn norm_grid(b: Seq<Piece>) -> Seq<Piece> {
    Seq::new(64, |i: int| norm_piece(b[i]))
}

/// A character that can stand inside a rank token: a skip digit or a piece
/// letter.
pub open spec fn is_rank_char(c: char) -> bool {
    digit_val(c) >= 1 || piece_of_letter(c) is Some
}

/// Reading a piece letter back gives the piece it was written for.
proof fn lemma_letter_inverts(k: PieceKind, c: Color)
    requires
        k != PieceKind::Empty,
    ensures
        piece_of_letter(letter_of(k, c)) == Some(Piece { kind: k, color: c, moved: false }),
        is_rank_char(letter_of(k, c)),
        letter_of(k, c) != ' ',
        letter_of(k, c) != '/',
{
}

/// Reading a skip digit back gives the run length it was written for.
proof fn lemma_digit_inverts(n: int)
    requires
        1 <= n <= 8,
    ensures
        digit_val(digit_char(n)) == n,
        is_rank_char(digit_char(n)),
        digit_char(n) != ' ',
        digit_char(n) != '/',
{
}

/// Rank tokens hold only skip digits and piece letters.
proof fn lemma_rank_chars_class(b: Seq<Piece>, r: int, f: int)
    requires
        0 <= f <= 8,
    ensures
        forall|i: int|
            0 <= i < rank_chars_from(b, r, f).len() ==> is_rank_char(
                #[trigger] rank_chars_from(b, r, f)[i],
            ),
    decreases 8 - f,
{
    if 0 <= f < 8 {
        if occupied(b, f, r) {
            lemma_letter_inverts(at(b, f, r).kind, at(b, f, r).color);
            lemma_rank_chars_class(b, r, f + 1);
            let head = seq![letter_of(at(b, f, r).kind, at(b, f, r).color)];
            let tail = rank_chars_from(b, r, f + 1);
            assert(rank_chars_from(b, r, f) == head + tail);
            assert forall|i: int| 0 <= i < rank_chars_from(b, r, f).len() implies is_rank_char(
                #[trigger] rank_chars_from(b, r, f)[i],
            ) by {
                if i == 0 {
                    assert(rank_chars_from(b, r, f)[i] == head[0]);
                } else {
                    assert(rank_chars_from(b, r, f)[i] == tail[i - 1]);
                }
            }
        } else {
            let n = empty_run(b, f, r) as int;
            lemma_empty_run_bounds(b, f, r);
            lemma_digit_inverts(n);
            lemma_rank_chars_class(b, r, f + n);
            let head = seq![digit_char(n)];
            let tail = rank_chars_from(b, r, f + n);
            assert(rank_chars_from(b, r, f) == head + tail);
            assert forall|i: int| 0 <= i < rank_chars_from(b, r, f).len() implies is_rank_char(
                #[trigger] rank_chars_from(b, r, f)[i],
            ) by {
                if i == 0 {
                    assert(rank_chars_from(b, r, f)[i] == head[0]);
                } else {
                    assert(rank_chars_from(b, r, f)[i] == tail[i - 1]);
                }
            }
        }
    }
}

/// A rank character is neither a space nor a slash.
proof fn lemma_rank_char_plain(c: char)
    requires
        is_rank_char(c),
    ensures
        c != ' ',
        c != '/',
{
}

/// The placement field holds only rank characters and slashes.
proof fn lemma_placement_class(b: Seq<Piece>, r: int)
    requires
        -1 <= r <= 7,
    ensures
        forall|i: int|
            0 <= i < placement_chars_from(b, r).len() ==> (is_rank_char(
                #[trigger] placement_chars_from(b, r)[i],
            ) || placement_chars_from(b, r)[i] == '/'),
    decreases r + 1,
{
    if r >= 0 {
        lemma_rank_chars_class(b, r, 0);
        let head = rank_chars_from(b, r, 0);
        if r > 0 {
            lemma_placement_class(b, r - 1);
            let tail = placement_chars_from(b, r - 1);
            assert(placement_chars_from(b, r) == head + seq!['/'] + tail);
            assert forall|i: int| 0 <= i < placement_chars_from(b, r).len() implies (is_rank_char(
                #[trigger] placement_chars_from(b, r)[i],
            ) || placement_chars_from(b, r)[i] == '/') by {
                if i < head.len() {
                    assert(placement_chars_from(b, r)[i] == (head + seq!['/'])[i]);
                    assert((head + seq!['/'])[i] == head[i]);
                } else if i == head.len() {
                    assert(placement_chars_from(b, r)[i] == (head + seq!['/'])[i]);
                    assert((head + seq!['/'])[i] == '/');
                } else {
                    assert(placement_chars_from(b, r)[i] == tail[i - head.len() - 1]);
                }
            }
        } else {
            assert(placement_chars_from(b, r) == head);
        }
    }
}

/// A scan for the first space stops exactly at the end of a space-free
/// stretch.
proof fn lemma_token_scan_stops(s: Seq<char>, i: int, e: int)
    requires
        0 <= i <= e <= s.len(),
        forall|k: int| i <= k < e ==> s[k] != ' ',
        e == s.len() || s[e] == ' ',
    ensures
        token_end(s, i) == e,
    decreases e - i,
{
    if i < e {
        lemma_token_scan_stops(s, i + 1, e);
    }
}

/// A scan for the first slash stops exactly at the end of a slash-free
/// stretch.
proof fn lemma_slash_scan_stops(s: Seq<char>, i: int, e: int)
    requires
        0 <= i <= e <= s.len(),
        forall|k: int| i <= k < e ==> s[k] != '/',
        e == s.len() || s[e] == '/',
    ensures
        slash_end(s, i) == e,
    decreases e - i,
{
    if i < e {
        lemma_slash_scan_stops(s, i + 1, e);
    }
}

/// Every file in a run of empty files is empty, and the run stops at the
/// board edge or at an occupied file.
proof fn lemma_empty_run_empties(b: Seq<Piece>, f: int, r: int)
    requires
        0 <= f <= 8,
    ensures
        forall|j: int| f <= j < f + empty_run(b, f, r) ==> !(#[trigger] occupied(b, j, r)),
        f + empty_run(b, f, r) == 8 || occupied(b, f + empty_run(b, f, r), r),
    decreases 8 - f,
{
    lemma_empty_run_bounds(b, f, r);
    if 0 <= f < 8 && !occupied(b, f, r) {
        lemma_empty_run_empties(b, f + 1, r);
    }
}

/// Parsing one rank depends only on the characters not yet read.
proof fn lemma_decode_rank_shift(
    u1: Seq<char>,
    i1: int,
    u2: Seq<char>,
    i2: int,
    r: int,
    f: int,
    acc: Seq<Piece>,
)
    requires
        0 <= i1 <= u1.len(),
        0 <= i2 <= u2.len(),
        u1.subrange(i1, u1.len() as int) == u2.subrange(i2, u2.len() as int),
    ensures
        decode_rank_from(u1, i1, r, f, acc) == decode_rank_from(u2, i2, r, f, acc),
    decreases u1.len() - i1,
{
    assert(u1.len() - i1 == u2.len() - i2) by {
        assert(u1.subrange(i1, u1.len() as int).len() == u1.len() - i1);
        assert(u2.subrange(i2, u2.len() as int).len() == u2.len() - i2);
        assert(u1.subrange(i1, u1.len() as int).len() == u2.subrange(i2, u2.len() as int).len());
    }
    if i1 < u1.len() {
        assert(u1[i1] == u1.subrange(i1, u1.len() as int)[0]);
        assert(u2[i2] == u2.subrange(i2, u2.len() as int)[0]);
        assert(u1[i1] == u2[i2]);
        assert(u1.subrange(i1 + 1, u1.len() as int) =~= u2.subrange(i2 + 1, u2.len() as int)) by {
            assert forall|k: int| 0 <= k < u1.len() - i1 - 1 implies #[trigger] u1.subrange(
                i1 + 1,
                u1.len() as int,
            )[k] == u2.subrange(i2 + 1, u2.len() as int)[k] by {
                assert(u1.subrange(i1 + 1, u1.len() as int)[k] == u1[i1 + 1 + k]);
                assert(u2.subrange(i2 + 1, u2.len() as int)[k] == u2[i2 + 1 + k]);
                assert(u1.subrange(i1, u1.len() as int)[k + 1] == u1[i1 + 1 + k]);
                assert(u2.subrange(i2, u2.len() as int)[k + 1] == u2[i2 + 1 + k]);
                assert(u1.subrange(i1, u1.len() as int)[k + 1] == u2.subrange(
                    i2,
                    u2.len() as int,
                )[k + 1]);
            }
        }
        let ch = u1[i1];
        if digit_val(ch) >= 1 {
            if f + digit_val(ch) <= 8 {
                lemma_decode_rank_shift(u1, i1 + 1, u2, i2 + 1, r, f + digit_val(ch), acc);
            }
        } else {
            match piece_of_letter(ch) {
                Some(p) => {
                    if f < 8 {
                        lemma_decode_rank_shift(
                            u1,
                            i1 + 1,
                            u2,
                            i2 + 1,
                            r,
                            f + 1,
                            acc.update(cell(f, r), p),
                        );
                    }
                },
                None => {},
            }
        }
    }
}

/// `acc` with rank `r` rewritten, from file `f` on, to the normalized
/// contents of `b`.
pub open spec fn rank_fill(acc: Seq<Piece>, b: Seq<Piece>, r: int, f: int) -> Seq<Piece> {
    Seq::new(
        acc.len() as nat,
        |i: int|
            if 0 <= i < 64 && i % 8 == r && i / 8 >= f {
                norm_piece(b[i])
            } else {
                acc[i]
            },
    )
}

/// `acc` with ranks 0 through `r` rewritten to the normalized contents of
/// `b`.
pub open spec fn grid_fill(acc: Seq<Piece>, b: Seq<Piece>, r: int) -> Seq<Piece> {
    Seq::new(
        acc.len() as nat,
        |i: int|
            if 0 <= i < 64 && i % 8 <= r {
                norm_piece(b[i])
            } else {
                acc[i]
            },
    )
}

/// Parsing the text written for one rank rebuilds exactly that rank.
proof fn lemma_decode_rank_inverts(
    b: Seq<Piece>,
    u: Seq<char>,
    r: int,
    f: int,
    acc: Seq<Piece>,
)
    requires
        grid_ok(b),
        grid_ok(acc),
        0 <= r < 8,
        0 <= f <= 8,
        u == rank_chars_from(b, r, f),
        forall|f2: int|
            f <= f2 < 8 && !occupied(b, f2, r) ==> #[trigger] at(acc, f2, r)
                == Piece::spec_none(),
    ensures
        decode_rank_from(u, 0, r, f, acc) == Ok::<Seq<Piece>, ChessError>(rank_fill(acc, b, r, f)),
    decreases 8 - f,
{
    if f == 8 {
        assert(u.len() == 0);
        assert(rank_fill(acc, b, r, 8) =~= acc);
    } else if occupied(b, f, r) {
        let p0 = at(b, f, r);
        let pn = Piece { kind: p0.kind, color: p0.color, moved: false };
        lemma_letter_inverts(p0.kind, p0.color);
        let head = seq![letter_of(p0.kind, p0.color)];
        let tail = rank_chars_from(b, r, f + 1);
        assert(u == head + tail);
        assert(u[0] == letter_of(p0.kind, p0.color));
        assert(digit_val(u[0]) == 0);
        let acc2 = acc.update(cell(f, r), pn);
        assert(u.subrange(1, u.len() as int) =~= tail);
        assert(tail.subrange(0, tail.len() as int) =~= tail);
        lemma_decode_rank_shift(u, 1, tail, 0, r, f + 1, acc2);
        assert(cell(f, r) % 8 == r && cell(f, r) / 8 == f);
        assert forall|f2: int|
            f + 1 <= f2 < 8 && !occupied(b, f2, r) implies #[trigger] at(acc2, f2, r)
            == Piece::spec_none() by {
            assert(cell(f2, r) != cell(f, r));
            assert(at(acc2, f2, r) == at(acc, f2, r));
        }
        lemma_decode_rank_inverts(b, tail, r, f + 1, acc2);
        assert(rank_fill(acc2, b, r, f + 1) =~= rank_fill(acc, b, r, f)) by {
            assert forall|i: int| 0 <= i < 64 implies rank_fill(acc2, b, r, f + 1)[i] == rank_fill(
                acc,
                b,
                r,
                f,
            )[i] by {
                if i % 8 == r && i / 8 == f {
                    assert(i == cell(f, r));
                    assert(acc2[i] == pn);
                    assert(norm_piece(b[i]) == pn);
                } else if !(i % 8 == r && i / 8 >= f) {
                    assert(i != cell(f, r));
                    assert(acc2[i] == acc[i]);
                }
            }
        }
        assert(decode_rank_from(u, 0, r, f, acc) == decode_rank_from(u, 1, r, f + 1, acc2));
    } else {
        let n = empty_run(b, f, r) as int;
        lemma_empty_run_bounds(b, f, r);
        lemma_empty_run_empties(b, f, r);
        lemma_digit_inverts(n);
        let head = seq![digit_char(n)];
        let tail = rank_chars_from(b, r, f + n);
        assert(u == head + tail);
        assert(u[0] == digit_char(n));
        assert(digit_val(u[0]) == n);
        assert(u.subrange(1, u.len() as int) =~= tail);
        assert(tail.subrange(0, tail.len() as int) =~= tail);
        lemma_decode_rank_shift(u, 1, tail, 0, r, f + n, acc);
        lemma_decode_rank_inverts(b, tail, r, f + n, acc);
        assert(rank_fill(acc, b, r, f + n) =~= rank_fill(acc, b, r, f)) by {
            assert forall|i: int| 0 <= i < 64 implies rank_fill(acc, b, r, f + n)[i] == rank_fill(
                acc,
                b,
                r,
                f,
            )[i] by {
                if i % 8 == r && f <= i / 8 < f + n {
                    assert(i == cell(i / 8, r));
                    assert(!occupied(b, i / 8, r));
                    assert(at(acc, i / 8, r) == Piece::spec_none());
                    assert(acc[i] == Piece::spec_none());
                    assert(norm_piece(b[i]) == Piece::spec_none());
                }
            }
        }
        assert(decode_rank_from(u, 0, r, f, acc) == decode_rank_from(u, 1, r, f + n, acc));
    }
}

/// Parsing the text written for ranks `r` down to 0 rebuilds exactly those
/// ranks.
proof fn lemma_decode_ranks_inverts(
    b: Seq<Piece>,
    t: Seq<char>,
    i: int,
    r: int,
    acc: Seq<Piece>,
)
    requires
        grid_ok(b),
        grid_ok(acc),
        0 <= r <= 7,
        0 <= i <= t.len(),
        t.subrange(i, t.len() as int) == placement_chars_from(b, r),
        forall|f2: int, r2: int|
            0 <= f2 < 8 && 0 <= r2 <= r ==> #[trigger] at(acc, f2, r2) == Piece::spec_none(),
    ensures
        decode_ranks(t, i, r, acc) == Ok::<Seq<Piece>, ChessError>(grid_fill(acc, b, r)),
    decreases r,
{
    let rk = rank_chars_from(b, r, 0);
    lemma_rank_chars_class(b, r, 0);
    assert(t.subrange(i, t.len() as int).len() == t.len() - i);
    if r > 0 {
        assert(placement_chars_from(b, r) == rk + seq!['/'] + placement_chars_from(b, r - 1));
        assert(placement_chars_from(b, r).len() == rk.len() + 1 + placement_chars_from(
            b,
            r - 1,
        ).len());
    } else {
        assert(placement_chars_from(b, r) == rk);
    }
    let e = i + rk.len();
    // the characters of this rank, then a slash or the end
    assert forall|k: int| i <= k < e implies t[k] == rk[k - i] && t[k] != '/' by {
        let k0 = k - i;
        assert(t.subrange(i, t.len() as int)[k0] == t[i + k0]);
        if r > 0 {
            assert(placement_chars_from(b, r)[k0] == (rk + seq!['/'])[k0]);
            assert((rk + seq!['/'])[k0] == rk[k0]);
        }
        lemma_rank_char_plain(rk[k0]);
    }
    if r > 0 {
        assert(placement_chars_from(b, r) == rk + seq!['/'] + placement_chars_from(b, r - 1));
        assert(t[e] == t.subrange(i, t.len() as int)[rk.len() as int]);
        assert(t.subrange(i, t.len() as int)[rk.len() as int] == (rk + seq!['/'])[rk.len() as int]);
        assert(t[e] == '/');
        lemma_slash_scan_stops(t, i, e);
    } else {
        assert(placement_chars_from(b, r) == rk);
        assert(e == t.len());
        lemma_slash_scan_stops(t, i, e);
    }
    assert(slash_end(t, i) == e);
    assert(t.subrange(i, e) =~= rk) by {
        assert forall|k: int| 0 <= k < rk.len() implies #[trigger] t.subrange(i, e)[k] == rk[k] by {
            assert(t.subrange(i, e)[k] == t[i + k]);
            assert(t[i + k] == rk[(i + k) - i]);
        }
    }
    lemma_decode_rank_inverts(b, rk, r, 0, acc);
    let acc2 = rank_fill(acc, b, r, 0);
    assert(decode_rank_from(t.subrange(i, e), 0, r, 0, acc) == Ok::<Seq<Piece>, ChessError>(acc2));
    if r > 0 {
        assert(e < t.len());
        assert(t.subrange(e + 1, t.len() as int) =~= placement_chars_from(b, r - 1)) by {
            let rest = placement_chars_from(b, r - 1);
            assert forall|k: int| 0 <= k < t.len() - e - 1 implies #[trigger] t.subrange(
                e + 1,
                t.len() as int,
            )[k] == rest[k] by {
                assert(t.subrange(e + 1, t.len() as int)[k] == t[e + 1 + k]);
                assert(t[e + 1 + k] == t.subrange(i, t.len() as int)[rk.len() + 1 + k]);
                assert((rk + seq!['/'] + rest)[rk.len() + 1 + k] == rest[k]);
            }
        }
        assert forall|f2: int, r2: int|
            0 <= f2 < 8 && 0 <= r2 <= r - 1 implies #[trigger] at(acc2, f2, r2)
            == Piece::spec_none() by {
            assert(cell(f2, r2) % 8 == r2 && 0 <= cell(f2, r2) < 64);
            assert(acc2[cell(f2, r2)] == acc[cell(f2, r2)]);
            assert(at(acc, f2, r2) == Piece::spec_none());
        }
        lemma_decode_ranks_inverts(b, t, e + 1, r - 1, acc2);
        assert(grid_fill(acc2, b, r - 1) =~= grid_fill(acc, b, r)) by {
            assert forall|i2: int| 0 <= i2 < 64 implies grid_fill(acc2, b, r - 1)[i2] == grid_fill(
                acc,
                b,
                r,
            )[i2] by {
                if i2 % 8 == r {
                    assert(i2 == cell(i2 / 8, r));
                    assert(acc2[i2] == norm_piece(b[i2]));
                }
            }
        }
        assert(decode_ranks(t, i, r, acc) == decode_ranks(t, e + 1, r - 1, acc2));
    } else {
        assert(grid_fill(acc, b, 0) =~= acc2) by {
            assert forall|i2: int| 0 <= i2 < 64 implies grid_fill(acc, b, 0)[i2] == acc2[i2] by {
                if i2 % 8 == 0 {
                    assert(i2 == cell(i2 / 8, 0));
                }
            }
        }
    }
}

/// Reading a square's notation back gives the square it was written for.
proof fn lemma_square_chars_invert(f: int, r: int)
    requires
        0 <= f < 8,
        0 <= r < 8,
    ensures
        parse_square(square_chars(f, r)) == Some(Square(f as usize, r as usize)),
        square_chars(f, r)[0] != ' ',
        square_chars(f, r)[1] != ' ',
        square_chars(f, r).len() == 2,
{
}

/// ROUND TRIP. Exporting any well-formed position and importing the text
/// again succeeds and reproduces the same piece placement (kind and color on
/// every square), the same side to move and the same en-passant state; only
/// the moved flags, which FEN does not carry, are reset.
pub proof fn lemma_export_import_round_trip(b: Seq<Piece>, side: Color, ep: Option<Square>)
    requires
        grid_ok(b),
        match ep {
            Some(sq) => sq_ok(sq),
            None => true,
        },
    ensures
        spec_import(export_chars(b, side, ep)) == Ok::<
            (Seq<Piece>, Color, Option<Square>),
            ChessError,
        >((norm_grid(b), side, ep)),
        forall|f: int, r: int|
            on_board(f, r) ==> (#[trigger] at(norm_grid(b), f, r)).kind == at(b, f, r).kind && (
            occupied(b, f, r) ==> at(norm_grid(b), f, r).color == at(b, f, r).color),
{
    let s = export_chars(b, side, ep);
    let pchars = placement_chars(b);
    let plen = pchars.len() as int;
    let mid = seq![' ', side_char(side), ' ', 'K', 'Q', 'k', 'q', ' '];
    let epc = ep_chars(ep);
    let elen = epc.len() as int;
    let tail = seq![' ', '0', ' ', '0'];
    assert(s == pchars + mid + epc + tail);
    assert(s.len() == plen + 8 + elen + 4);
    lemma_placement_class(b, 7);
    // the characters of each region of the export text
    assert forall|k: int| 0 <= k < plen implies #[trigger] s[k] == pchars[k] by {
        assert((pchars + mid)[k] == pchars[k]);
        assert((pchars + mid + epc)[k] == (pchars + mid)[k]);
        assert(s[k] == (pchars + mid + epc)[k]);
    }
    assert forall|k: int| 0 <= k < 8 implies #[trigger] s[plen + k] == mid[k] by {
        assert((pchars + mid)[plen + k] == mid[k]);
        assert((pchars + mid + epc)[plen + k] == (pchars + mid)[plen + k]);
        assert(s[plen + k] == (pchars + mid + epc)[plen + k]);
    }
    assert forall|k: int| 0 <= k < elen implies #[trigger] s[plen + 8 + k] == epc[k] by {
        assert((pchars + mid + epc)[plen + 8 + k] == epc[k]);
        assert(s[plen + 8 + k] == (pchars + mid + epc)[plen + 8 + k]);
    }
    assert forall|k: int| 0 <= k < 4 implies #[trigger] s[plen + 8 + elen + k] == tail[k] by {
        assert(s[plen + 8 + elen + k] == tail[k]);
    }
    // no character of the en-passant token is a space
    assert forall|k: int| 0 <= k < elen implies epc[k] != ' ' by {
        match ep {
            Some(sq) => {
                lemma_square_chars_invert(sq.0 as int, sq.1 as int);
                if k == 0 {
                    assert(epc[0] != ' ');
                } else {
                    assert(epc[1] != ' ');
                }
            },
            None => {
                assert(epc[0] == '-');
            },
        }
    }
    // the placement field is the first token
    assert forall|k: int| 0 <= k < plen implies s[k] != ' ' by {
        if is_rank_char(pchars[k]) {
            lemma_rank_char_plain(pchars[k]);
        } else {
            assert(pchars[k] == '/');
        }
    }
    lemma_token_scan_stops(s, 0, plen);
    let e0 = token_end(s, 0);
    assert(e0 == plen);
    assert(s.subrange(0, plen) =~= pchars);
    // the placement parses back to the normalized grid
    assert(pchars.subrange(0, plen) =~= pchars);
    assert forall|f2: int, r2: int|
        0 <= f2 < 8 && 0 <= r2 <= 7 implies #[trigger] at(empty_grid(), f2, r2)
        == Piece::spec_none() by {
        assert(0 <= cell(f2, r2) < 64);
    }
    lemma_decode_ranks_inverts(b, pchars, 0, 7, empty_grid());
    assert(grid_fill(empty_grid(), b, 7) =~= norm_grid(b)) by {
        assert forall|i: int| 0 <= i < 64 implies grid_fill(empty_grid(), b, 7)[i] == norm_grid(
            b,
        )[i] by {
            assert(i % 8 <= 7);
        }
    }
    assert(decode_placement(s.subrange(0, e0)) == Ok::<Seq<Piece>, ChessError>(norm_grid(b)));
    // the side-to-move token
    assert(e0 < s.len());
    assert(s[plen + 1] == side_char(side));
    assert(side_char(side) != ' ');
    assert(s[plen + 2] == ' ');
    lemma_token_scan_stops(s, plen + 1, plen + 2);
    let e1 = token_end(s, e0 + 1);
    assert(e1 == plen + 2);
    assert(s.subrange(plen + 1, plen + 2) =~= seq![side_char(side)]);
    assert(decode_side(s.subrange(e0 + 1, e1)) == Ok::<Color, ChessError>(side));
    // the castling placeholder token
    assert(e1 < s.len());
    assert(s[plen + 3] == 'K' && s[plen + 4] == 'Q' && s[plen + 5] == 'k' && s[plen + 6] == 'q');
    assert(s[plen + 7] == ' ');
    lemma_token_scan_stops(s, plen + 3, plen + 7);
    let e2 = token_end(s, e1 + 1);
    assert(e2 == plen + 7);
    // the en-passant token
    assert(e2 < s.len());
    assert(s[plen + 8 + elen] == ' ');
    lemma_token_scan_stops(s, plen + 8, plen + 8 + elen);
    let e3 = token_end(s, e2 + 1);
    assert(e3 == plen + 8 + elen);
    assert(s.subrange(plen + 8, plen + 8 + elen) =~= epc);
    match ep {
        Some(sq) => {
            lemma_square_chars_invert(sq.0 as int, sq.1 as int);
            assert(Square(sq.0, sq.1) == sq);
            assert(decode_ep(epc) == Ok::<Option<Square>, ChessError>(ep));
        },
        None => {
            assert(epc[0] == '-');
            assert(decode_ep(epc) == Ok::<Option<Square>, ChessError>(ep));
        },
    }
    // the two placeholder counters
    assert(e3 < s.len());
    assert(s[plen + 8 + elen + 1] == '0');
    assert(s[plen + 8 + elen + 2] == ' ');
    lemma_token_scan_stops(s, e3 + 1, e3 + 2);
    let e4 = token_end(s, e3 + 1);
    assert(e4 == e3 + 2);
    assert(e4 < s.len());
    // the normalized grid keeps every kind and every color
    assert forall|f: int, r: int| on_board(f, r) implies (#[trigger] at(norm_grid(b), f, r)).kind
        == at(b, f, r).kind && (occupied(b, f, r) ==> at(norm_grid(b), f, r).color == at(
        b,
        f,
        r,
    ).color) by {
        assert(0 <= cell(f, r) < 64);
        assert(norm_grid(b)[cell(f, r)] == norm_piece(b[cell(f, r)]));
    }
}

} // verus!
