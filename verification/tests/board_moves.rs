use chess_core::board::Board;
use chess_core::error::ChessError;
use chess_core::fen::import;
use chess_core::piece::PieceKind;
use chess_core::square::Square;

fn sq(s: &str) -> Square {
    Square::from(s).unwrap()
}

fn board(fen: &str) -> Board {
    import(fen).unwrap()
}

/// The legal destinations of the piece standing on `from`.
fn dests_from(b: &Board, from: Square) -> Vec<Square> {
    b.gen_moves().into_iter().filter(|m| m.0 == from).map(|m| m.1).collect()
}

fn has_dest(ds: &[Square], s: &str) -> bool {
    ds.contains(&sq(s))
}

#[test]
fn pawns() {
    // a pawn on its starting rank may advance one or two steps
    let b = board("rnbqkbnr/pppppppp/8/8/8/8/PPPPPPPP/RNBQKBNR w KQkq - 0 1");
    let ds = dests_from(&b, sq("D2"));
    assert_eq!(ds.len(), 2);
    assert!(has_dest(&ds, "D3") && has_dest(&ds, "D4"));

    // a blocked pawn has no moves
    let b = board("4k3/8/8/8/4p3/4P3/8/4K3 w - - 0 1");
    assert_eq!(dests_from(&b, sq("E3")).len(), 0);

    // a blocked pawn may still capture diagonally
    let b = board("4k3/8/8/8/3pp3/4P3/8/4K3 w - - 0 1");
    let ds = dests_from(&b, sq("E3"));
    assert_eq!(ds.len(), 1);
    assert!(has_dest(&ds, "D4"));

    // a black pawn advances toward rank 1
    let b = board("4k3/4p3/8/8/8/8/8/4K3 b - - 0 1");
    let ds = dests_from(&b, sq("E7"));
    assert_eq!(ds.len(), 2);
    assert!(has_dest(&ds, "E6") && has_dest(&ds, "E5"));
}

#[test]
fn knights() {
    // all eight jumps from the middle of an empty board
    let b = board("8/8/8/8/3N4/8/8/8 w - - 0 1");
    assert_eq!(dests_from(&b, sq("D4")).len(), 8);

    // only two jumps from a corner
    let b = board("8/8/8/8/8/8/8/N7 w - - 0 1");
    let ds = dests_from(&b, sq("A1"));
    assert_eq!(ds.len(), 2);
    assert!(has_dest(&ds, "B3") && has_dest(&ds, "C2"));

    // a square holding an own piece is excluded
    let b = board("8/8/8/8/8/1P6/8/N7 w - - 0 1");
    let ds = dests_from(&b, sq("A1"));
    assert_eq!(ds.len(), 1);
    assert!(has_dest(&ds, "C2"));
}

#[test]
fn bishops() {
    // thirteen diagonal squares from the middle of an empty board
    let b = board("8/8/8/8/3B4/8/8/8 w - - 0 1");
    assert_eq!(dests_from(&b, sq("D4")).len(), 13);

    // an opposing piece is captured and stops the walk
    let b = board("8/8/8/2p5/3B4/8/8/8 w - - 0 1");
    let ds = dests_from(&b, sq("D4"));
    assert_eq!(ds.len(), 11);
    assert!(has_dest(&ds, "C5"));
    assert!(!has_dest(&ds, "B6"));
}

#[test]
fn rooks() {
    // fourteen orthogonal squares from the middle of an empty board
    let b = board("8/8/8/8/3R4/8/8/8 w - - 0 1");
    assert_eq!(dests_from(&b, sq("D4")).len(), 14);

    // an own piece blocks the walk and is not a destination
    let b = board("8/8/8/8/3R2P1/8/8/8 w - - 0 1");
    let ds = dests_from(&b, sq("D4"));
    assert_eq!(ds.len(), 12);
    assert!(has_dest(&ds, "F4"));
    assert!(!has_dest(&ds, "G4"));
}

#[test]
fn queen() {
    // the queen unites the bishop's and the rook's destinations
    let b = board("8/8/8/8/3Q4/8/8/8 w - - 0 1");
    assert_eq!(dests_from(&b, sq("D4")).len(), 27);
}

#[test]
fn knight_geometry_on_empty_board() {
    // from any empty-board square, the knight's legal destinations are
    // exactly the on-board jump squares
    for file in 0..8usize {
        for rank in 0..8usize {
            let mut placement = vec![String::from("8"); 8];
            placement[7 - rank] = if file == 7 {
                format!("7N")
            } else if file == 0 {
                format!("N7")
            } else {
                format!("{}N{}", file, 7 - file)
            };
            let fen = format!("{} w - - 0 1", placement.join("/"));
            let b = board(&fen);
            let ds = dests_from(&b, Square(file, rank));
            let jumps: [(i32, i32); 8] = [
                (-2, -1),
                (-2, 1),
                (-1, -2),
                (-1, 2),
                (1, -2),
                (1, 2),
                (2, -1),
                (2, 1),
            ];
            let expected: Vec<(i32, i32)> = jumps
                .iter()
                .map(|(df, dr)| (file as i32 + df, rank as i32 + dr))
                .filter(|(f, r)| (0..8).contains(f) && (0..8).contains(r))
                .collect();
            assert_eq!(ds.len(), expected.len());
            for (f, r) in expected {
                assert!(ds.contains(&Square(f as usize, r as usize)));
            }
        }
    }
}

#[test]
fn start_position_scenario() {
    // white to move; E2E4 succeeds and the side to move becomes black
    let mut b = board("rnbqkbnr/pppppppp/8/8/8/8/PPPPPPPP/RNBQKBNR w KQkq - 0 1");
    assert!(b.move_piece(&sq("E2"), &sq("E4")).is_ok());
    assert_eq!(b.side_to_move, chess_core::color::Color::Black);

    // a two-step pawn advance sets the en-passant square to the skipped one
    let mut b = board("rnbqkbnr/pppppppp/8/8/8/8/PPPPPPPP/RNBQKBNR w KQkq - 0 1");
    assert!(b.move_piece(&sq("D2"), &sq("D4")).is_ok());
    assert_eq!(b.en_passant, Some(sq("D3")));

    // and the very next move clears it again
    assert!(b.move_piece(&sq("A7"), &sq("A6")).is_ok());
    assert_eq!(b.en_passant, None);
}

#[test]
fn en_passant_scenario() {
    // 1. D2D4 A7A6 2. D4D5 E7E5: the black pawn passes the white one
    let mut b = board("rnbqkbnr/pppppppp/8/8/8/8/PPPPPPPP/RNBQKBNR w KQkq - 0 1");
    assert!(b.move_piece(&sq("D2"), &sq("D4")).is_ok());
    assert!(b.move_piece(&sq("A7"), &sq("A6")).is_ok());
    assert!(b.move_piece(&sq("D4"), &sq("D5")).is_ok());
    assert!(b.move_piece(&sq("E7"), &sq("E5")).is_ok());
    assert_eq!(b.en_passant, Some(sq("E6")));

    // the capture through the skipped square is in the legal set
    let ds = dests_from(&b, sq("D5"));
    assert!(has_dest(&ds, "E6"));

    // played, it removes the passed pawn from E5
    assert!(b.move_piece(&sq("D5"), &sq("E6")).is_ok());
    assert_eq!(b.get_piece(&sq("E5")).kind, PieceKind::Empty);
    let taken = b.get_piece(&sq("E6"));
    assert_eq!(taken.kind, PieceKind::Pawn);
    assert_eq!(taken.color, chess_core::color::Color::White);
}

#[test]
fn pinned_piece_moves_are_excluded() {
    // the knight on E2 shields its king from the rook on E4: moving it would
    // expose the king, so no move from E2 is legal
    let b = board("4k3/8/8/8/4r3/8/4N3/4K3 w - - 0 1");
    assert_eq!(dests_from(&b, sq("E2")).len(), 0);
    // the position itself still has legal moves (the king can step aside)
    assert!(b.gen_moves().len() > 0);
    // without the rook the same knight has six jumps
    let b = board("4k3/8/8/8/8/8/4N3/4K3 w - - 0 1");
    assert_eq!(dests_from(&b, sq("E2")).len(), 6);
}

#[test]
fn turn_alternation() {
    let mut b = board("rnbqkbnr/pppppppp/8/8/8/8/PPPPPPPP/RNBQKBNR w KQkq - 0 1");
    let before = b.side_to_move;
    assert!(b.move_piece(&sq("G1"), &sq("F3")).is_ok());
    assert_ne!(b.side_to_move, before);
    // a failed move leaves the side to move unchanged
    let after = b.side_to_move;
    assert_eq!(b.move_piece(&sq("A7"), &sq("A4")), Err(ChessError::IllegalMove));
    assert_eq!(b.side_to_move, after);
}

#[test]
fn illegal_move_leaves_board_unchanged() {
    let mut b = board("rnbqkbnr/pppppppp/8/8/8/8/PPPPPPPP/RNBQKBNR w KQkq - 0 1");
    let snapshot = chess_core::fen::export(&b);
    // moving from an empty square, moving the opponent's piece, and a
    // geometrically impossible move all fail as IllegalMove
    assert_eq!(b.move_piece(&sq("E4"), &sq("E5")), Err(ChessError::IllegalMove));
    assert_eq!(b.move_piece(&sq("E7"), &sq("E5")), Err(ChessError::IllegalMove));
    assert_eq!(b.move_piece(&sq("E2"), &sq("E5")), Err(ChessError::IllegalMove));
    assert_eq!(chess_core::fen::export(&b), snapshot);
}

#[test]
fn king_cannot_step_into_an_attacked_square() {
    // the rook on E2 covers the second rank; the king may capture it or step
    // aside along the first rank, but not onto D2 or F2
    let b = board("4k3/8/8/8/8/8/4r3/4K3 w - - 0 1");
    let ds = dests_from(&b, sq("E1"));
    assert_eq!(ds.len(), 3);
    assert!(has_dest(&ds, "D1") && has_dest(&ds, "F1") && has_dest(&ds, "E2"));
}

#[test]
fn checkmate_has_no_legal_moves_while_in_check() {
    // a back-rank mate: the rook on A8 checks along the eighth rank and the
    // king's own pawns block every flight square
    let b = board("R5k1/5ppp/8/8/8/8/8/6K1 b - - 0 1");
    assert!(b.check_for_check(chess_core::color::Color::Black));
    assert_eq!(b.gen_moves().len(), 0);
}

#[test]
fn stalemate_has_no_legal_moves_while_not_in_check() {
    let b = board("7k/5Q2/6K1/8/8/8/8/8 b - - 0 1");
    assert!(!b.check_for_check(chess_core::color::Color::Black));
    assert_eq!(b.gen_moves().len(), 0);
}

#[test]
fn legality_probe_relocates_only() {
    // the legality filter simulates a move by relocating the mover alone; an
    // en-passant capture also removes the passed pawn, which the probe does
    // not simulate, so such a move can uncover an attack along the rank
    let mut b = board("k7/8/8/KPpr4/8/8/8/8 w - c6 0 1");
    assert!(!b.check_for_check(chess_core::color::Color::White));
    let ds = dests_from(&b, sq("B5"));
    assert!(has_dest(&ds, "C6"));
    assert!(b.move_piece(&sq("B5"), &sq("C6")).is_ok());
    assert_eq!(b.get_piece(&sq("C5")).kind, PieceKind::Empty);
    assert!(b.check_for_check(chess_core::color::Color::White));
}

#[test]
fn new_board_is_the_start_position() {
    let b = Board::new();
    assert_eq!(
        chess_core::fen::export(&b),
        "rnbqkbnr/pppppppp/8/8/8/8/PPPPPPPP/RNBQKBNR w KQkq - 0 0"
    );
    let p = b.get_piece(&sq("E1"));
    assert_eq!(p.kind, PieceKind::King);
    assert_eq!(p.color, chess_core::color::Color::White);
    assert!(!chess_core::piece::has_moved(p));
}
