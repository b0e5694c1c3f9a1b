use chess_core::board::Board;
use chess_core::moves::Move;
use chess_core::notation::{bitboard_to_coordinates, coordinates_to_bitboard,
    translate_bitboard, translate_coordinates, translate_single_fen, translateFEN};
use chess_core::piece::PieceType;

const START_PLACEMENT: &str = "rnbqkbnr/pppppppp/8/8/8/8/PPPPPPPP/RNBQKBNR";

#[test]
fn algebraic_notation_parses() {
    let m = Move::from_algebraic_notation("a2a4").unwrap();
    assert_eq!((m.column_from, m.row_from, m.column_to, m.row_to), (0, 1, 0, 3));
    let m2 = Move::from_algebraic_notation("c1f4").unwrap();
    assert_eq!((m2.column_from, m2.row_from, m2.column_to, m2.row_to), (2, 0, 5, 3));
}

#[test]
fn algebraic_notation_rejects_bad_input() {
    assert!(Move::from_algebraic_notation("a2a45").is_err());
    assert!(Move::from_algebraic_notation("12a4").is_err());
    assert!(Move::from_algebraic_notation("a2a").is_err());
    assert!(Move::from_algebraic_notation("").is_err());
    assert!(Move::from_algebraic_notation("a9a1").is_err());
    assert!(Move::from_algebraic_notation("i2a4").is_err());
    assert_eq!(
        Move::from_algebraic_notation("xxxx").unwrap_err(),
        "Invalid algebraic notation"
    );
}

#[test]
fn algebraic_notation_round_trips() {
    // Writing a parsed move gives the string back, and parsing a written
    // move gives the move back.
    let m = Move::new((0, 1), (0, 3));
    assert_eq!(m.to_algebraic_notation(), "a2a4");
    let m2 = Move::new((4, 6), (4, 4));
    assert_eq!(m2.to_algebraic_notation(), "e7e5");
    for s in ["a2a4", "c1f4", "h8a1", "e7e5"] {
        let parsed = Move::from_algebraic_notation(s).unwrap();
        assert_eq!(parsed.to_algebraic_notation(), s);
        assert_eq!(Move::from_algebraic_notation(&parsed.to_algebraic_notation()), Ok(parsed));
    }
}

#[test]
fn single_square_names_parse() {
    assert_eq!(translate_single_fen("e3"), Ok((4, 2)));
    assert_eq!(translate_single_fen("a1"), Ok((0, 0)));
    assert_eq!(translate_single_fen("h8"), Ok((7, 7)));
    assert_eq!(translate_single_fen(""), Err("Invalid length".to_string()));
    assert_eq!(translate_single_fen("e"), Err("Invalid length".to_string()));
    assert_eq!(translate_single_fen("e3c6"), Err("Invalid length".to_string()));
    assert_eq!(translate_single_fen("z3"), Err("Invalid column".to_string()));
    assert_eq!(translate_single_fen("e9"), Err("Invalid row".to_string()));
}

#[test]
fn square_names_round_trip() {
    assert_eq!(translate_coordinates(4, 2), "e3");
    assert_eq!(translate_coordinates(0, 0), "a1");
    assert_eq!(translate_coordinates(7, 7), "h8");
    assert_eq!(translateFEN("e3c6"), 0x40000100000);
    assert_eq!(translate_bitboard(0x40000100000), "e3c6");
    assert_eq!(translate_bitboard(0), "");
    assert_eq!(translateFEN(""), 0);
}

#[test]
fn masks_and_coordinates_round_trip() {
    assert_eq!(coordinates_to_bitboard(0, 0), 1);
    assert_eq!(coordinates_to_bitboard(4, 6), 1u64 << 52);
    assert_eq!(bitboard_to_coordinates(1u64 << 52), (4, 6));
    for c in 0u32..8 {
        for r in 0u32..8 {
            assert_eq!(bitboard_to_coordinates(coordinates_to_bitboard(c, r)), (c, r));
        }
    }
}

#[test]
fn piece_letters_round_trip() {
    let pieces = [
        PieceType::BlackPawn,
        PieceType::BlackRook,
        PieceType::BlackKnight,
        PieceType::BlackBishop,
        PieceType::BlackQueen,
        PieceType::BlackKing,
        PieceType::WhitePawn,
        PieceType::WhiteRook,
        PieceType::WhiteKnight,
        PieceType::WhiteBishop,
        PieceType::WhiteQueen,
        PieceType::WhiteKing,
    ];
    for p in pieces {
        assert_eq!(PieceType::from_char(p.to_char()), Some(p));
    }
    assert_eq!(PieceType::from_char('x'), None);
    assert!(PieceType::WhiteQueen.color());
    assert!(!PieceType::BlackQueen.color());
    assert_eq!(PieceType::WhitePawn.points(), 100);
    assert_eq!(PieceType::BlackQueen.points(), 900);
    assert_eq!(PieceType::WhiteKing.points(), 0);
}

#[test]
fn placement_round_trips_start_position() {
    let board = Board::new(START_PLACEMENT, 0).unwrap();
    let exported = board.exportFEN();
    assert_eq!(exported, START_PLACEMENT);
    let reparsed = Board::new(&exported, 0).unwrap();
    assert_eq!(reparsed.black_pawn, board.black_pawn);
    assert_eq!(reparsed.white_pawn, board.white_pawn);
    assert_eq!(reparsed.black_rook, board.black_rook);
    assert_eq!(reparsed.white_rook, board.white_rook);
    assert_eq!(reparsed.black_knight, board.black_knight);
    assert_eq!(reparsed.white_knight, board.white_knight);
    assert_eq!(reparsed.black_bishop, board.black_bishop);
    assert_eq!(reparsed.white_bishop, board.white_bishop);
    assert_eq!(reparsed.black_queen, board.black_queen);
    assert_eq!(reparsed.white_queen, board.white_queen);
    assert_eq!(reparsed.black_king, board.black_king);
    assert_eq!(reparsed.white_king, board.white_king);
}

#[test]
fn placement_round_trips_midgame_position() {
    let fen = "2R5/5p1k/p2Bp2P/1p2Pp2/1P1P4/P1p5/3bn3/6RK";
    let board = Board::new(fen, 0).unwrap();
    assert_eq!(board.exportFEN(), fen);
}

#[test]
fn placement_reports_offending_character() {
    let err = Board::new("8/8/x7/8/8/8/8/8", 0).unwrap_err();
    assert_eq!(err.index, 4);
    assert_eq!(err.character, 'x');
    let err2 = Board::new("9", 0).unwrap_err();
    assert_eq!(err2.index, 0);
    assert_eq!(err2.character, '9');
    let err3 = Board::new("ppppppppp", 0).unwrap_err();
    assert_eq!(err3.index, 8);
    assert_eq!(err3.character, 'p');
    let err4 = Board::new("8/8/8/8/8/8/8/8/8", 0).unwrap_err();
    assert_eq!(err4.index, 15);
    assert_eq!(err4.character, '/');
}

#[test]
fn en_passant_square_exports_as_name() {
    let board = Board::new("8/8/8/8/8/8/8/8", 1u64 << (4 + 5 * 8)).unwrap();
    assert_eq!(board.exportEnPassantSquare(), "e6");
    let empty = Board::new("8/8/8/8/8/8/8/8", 0).unwrap();
    assert_eq!(empty.exportEnPassantSquare(), "");
}
