use chess_core::error::ChessError;
use chess_core::fen::{export, import, piece_to_letter};
use chess_core::piece::{is_piece, piece_color, piece_type, PieceKind};
use chess_core::square::Square;

fn sq(s: &str) -> Square {
    Square::from(s).unwrap()
}

#[test]
fn export_is_the_inverse_of_import() {
    let arbitrary_fens = vec![
        "rnbqkbnr/pppppppp/8/8/8/8/PPPPPPPP/RNBQKBNR w KQkq - 0 1",
        "R4b2/1K4P1/1P5P/1p6/5B2/3pp1r1/pNQ2P2/4k3 w - - 0 1",
        "2N1b1n1/4b3/1R4P1/7n/2PPk3/2q4p/p5P1/3K3R w - - 0 1",
        "8/k7/8/8/8/8/8/2K5 b - - 0 1",
        "8/4k3/8/1b6/7p/1K3P2/P7/3r4 w - - 0 1",
        "k7/7P/2r2P1P/1Q6/rp1R4/3p2N1/NqPP2p1/b5K1 w - - 0 1",
        "2q1R1n1/pP1pN1KB/P2r2nr/p1R1P3/k1bPQ1pP/1p1P1p1p/3PPNp1/2b3B1 w - - 0 1",
    ];

    let res: Vec<String> =
        arbitrary_fens.iter().map(|s| import(s).unwrap()).map(|board| export(&board)).collect();

    // the piece placement and the side to move round-trip; the castling and
    // clock fields are written back as placeholders and are not compared
    for (a, b) in arbitrary_fens.iter().zip(res.iter()) {
        let fa: Vec<&str> = a.split(' ').collect();
        let fb: Vec<&str> = b.split(' ').collect();
        assert_eq!(fa[0], fb[0]);
        assert_eq!(fa[1], fb[1]);
    }
}

#[test]
fn square_macro_is_case_insensitive() {
    assert_eq!(Square::from("A1").unwrap(), Square::from("a1").unwrap());
    assert_eq!(Square::from("h8").unwrap(), Square::from("H8").unwrap());
    assert_eq!(Square::from("e2").unwrap(), Square(4, 1));
}

#[test]
fn square_notation_round_trip() {
    for f in 0..8usize {
        for r in 0..8usize {
            let s = Square(f, r).to_str();
            assert_eq!(Square::from(&s).unwrap(), Square(f, r));
        }
    }
    assert_eq!(sq("D3").to_str(), "D3");
}

#[test]
fn square_notation_errors() {
    assert_eq!(Square::from(""), Err(ChessError::InvalidNotation));
    assert_eq!(Square::from("A"), Err(ChessError::InvalidNotation));
    assert_eq!(Square::from("A12"), Err(ChessError::InvalidNotation));
    assert_eq!(Square::from("I1"), Err(ChessError::InvalidNotation));
    assert_eq!(Square::from("A9"), Err(ChessError::InvalidNotation));
    assert_eq!(Square::from("A0"), Err(ChessError::InvalidNotation));
}

#[test]
fn import_reads_the_start_position() {
    let b = import("rnbqkbnr/pppppppp/8/8/8/8/PPPPPPPP/RNBQKBNR w KQkq - 0 1").unwrap();
    assert_eq!(b.side_to_move, chess_core::color::Color::White);
    assert_eq!(b.en_passant, None);
    let k = b.get_piece(&sq("E8"));
    assert_eq!(piece_type(k), PieceKind::King);
    assert_eq!(piece_color(k), chess_core::color::Color::Black);
    assert!(is_piece(k));
    assert!(!is_piece(b.get_piece(&sq("E4"))));
}

#[test]
fn import_reads_the_en_passant_field() {
    let b = import("rnbqkbnr/pppppppp/8/8/3P4/8/PPP1PPPP/RNBQKBNR b KQkq d3 0 1").unwrap();
    assert_eq!(b.en_passant, Some(sq("D3")));
    // and export writes it back in notation
    let out = export(&b);
    let fields: Vec<&str> = out.split(' ').collect();
    assert_eq!(fields[3], "D3");
}

#[test]
fn import_errors_name_the_failing_field() {
    assert_eq!(
        import("xnbqkbnr/pppppppp/8/8/8/8/PPPPPPPP/RNBQKBNR w KQkq - 0 1").unwrap_err(),
        ChessError::InvalidPieceLetter
    );
    assert_eq!(
        import("ppppppppp/8/8/8/8/8/8/8 w - - 0 1").unwrap_err(),
        ChessError::RankOverflow
    );
    assert_eq!(import("8/8/8/45/8/8/8/8 w - - 0 1").unwrap_err(), ChessError::RankOverflow);
    assert_eq!(import("8/8/8/8/8/8/8/8 x - - 0 1").unwrap_err(), ChessError::InvalidSideToMove);
    assert_eq!(import("8/8/8/8/8/8/8/8 ww - - 0 1").unwrap_err(), ChessError::InvalidSideToMove);
    assert_eq!(import("8/8/8/8/8/8/8/8 w - z9 0 1").unwrap_err(), ChessError::InvalidNotation);
    assert_eq!(import("8/8/8/8/8/8/8/8").unwrap_err(), ChessError::MissingSideToMove);
    assert_eq!(import("8/8/8/8/8/8/8/8 w").unwrap_err(), ChessError::MissingCastling);
    assert_eq!(import("8/8/8/8/8/8/8/8 w -").unwrap_err(), ChessError::MissingEnPassant);
    assert_eq!(import("8/8/8/8/8/8/8/8 w - -").unwrap_err(), ChessError::MissingHalfmoveClock);
    assert_eq!(
        import("8/8/8/8/8/8/8/8 w - - 0").unwrap_err(),
        ChessError::MissingFullmoveCounter
    );
}

#[test]
fn piece_letters() {
    let b = import("8/8/8/8/8/8/8/QK6 w - - 0 1").unwrap();
    assert_eq!(piece_to_letter(b.get_piece(&sq("A1"))), 'Q');
    assert_eq!(piece_to_letter(b.get_piece(&sq("B1"))), 'K');
    let b = import("qk6/8/8/8/8/8/8/8 w - - 0 1").unwrap();
    assert_eq!(piece_to_letter(b.get_piece(&sq("A8"))), 'q');
    assert_eq!(piece_to_letter(b.get_piece(&sq("B8"))), 'k');
}

#[test]
fn moved_flag_is_set_by_moving() {
    let mut b = import("rnbqkbnr/pppppppp/8/8/8/8/PPPPPPPP/RNBQKBNR w KQkq - 0 1").unwrap();
    assert!(!chess_core::piece::has_moved(b.get_piece(&sq("G1"))));
    assert!(b.move_piece(&sq("G1"), &sq("F3")).is_ok());
    assert!(chess_core::piece::has_moved(b.get_piece(&sq("F3"))));
}
