use chess_core::game::Game;
use chess_core::moves::Move;
use chess_core::piece::PieceType;

const START_FEN: &str = "rnbqkbnr/pppppppp/8/8/8/8/PPPPPPPP/RNBQKBNR w KQkq - 0 1";

#[test]
fn game_from_start_fen() {
    let game = Game::new(START_FEN);
    assert!(game.turn());
    assert_eq!(game.points, 0);
    assert_eq!(game.halfmove_clock, 0);
    assert_eq!(game.fullmove, 1);
    assert_eq!(game.board.points(), 0);
    assert_eq!(game.board.en_passant, 0);
}

#[test]
fn game_reads_clocks_and_side() {
    let game = Game::new("8/8/8/8/8/8/8/8 b - - 13 37");
    assert!(!game.turn());
    assert_eq!(game.halfmove_clock, 13);
    assert_eq!(game.fullmove, 37);
}

#[test]
fn game_reads_en_passant_field() {
    let game = Game::new("rnbqkbnr/pppppppp/8/8/8/8/PPPPPPPP/RNBQKBNR b KQkq e6 0 1");
    assert_eq!(game.board.en_passant, 1u64 << (4 + 5 * 8));
}

#[test]
fn make_move_flips_turn_and_counts_moves() {
    let mut game = Game::new(START_FEN);
    game.make_move(&Move::new((4, 6), (4, 4)));
    assert!(!game.turn());
    assert_eq!(game.fullmove, 1);
    assert_eq!(game.halfmove_clock, 0);
    game.make_move(&Move::new((1, 0), (2, 2)));
    assert!(game.turn());
    assert_eq!(game.fullmove, 2);
    assert_eq!(game.halfmove_clock, 1);
}

#[test]
fn capture_moves_the_score() {
    let mut game = Game::new("k7/8/8/3p4/4P3/8/8/K7 w - - 0 1");
    game.make_move(&Move::new((4, 4), (3, 3)));
    assert_eq!(game.points, 100);
    assert_eq!(game.board.get_piece_pos(3, 3), Some(PieceType::WhitePawn));
    let mut game2 = Game::new("k7/8/8/3p4/4P3/8/8/K7 b - - 0 1");
    game2.make_move(&Move::new((3, 3), (4, 4)));
    assert_eq!(game2.points, -100);
}

#[test]
fn export_position_start() {
    // With no en-passant square the fourth field is the placeholder, and
    // the whole record reads back in.
    let game = Game::new(START_FEN);
    assert_eq!(game.exportPosition(), START_FEN);
}

#[test]
fn export_position_after_double_push() {
    let mut game = Game::new(START_FEN);
    game.make_move(&Move::new((4, 6), (4, 4)));
    assert_eq!(
        game.exportPosition(),
        "rnbqkbnr/pppppppp/8/8/4P3/8/PPPP1PPP/RNBQKBNR b KQkq e6 0 1"
    );
}

#[test]
fn en_passant_window_in_a_game() {
    // White double-pushes past the black pawn on d4; for exactly one ply
    // the black pawn may capture onto the passed-over square.
    let mut game = Game::new("k7/8/8/8/3p4/8/4P3/K7 w - - 0 1");
    game.make_move(&Move::new((4, 6), (4, 4)));
    let mask = game.board.get_allowed_moves(3, 4, false);
    assert!(mask & (1u64 << (4 + 5 * 8)) != 0);
    game.make_move(&Move::new((0, 0), (1, 0)));
    assert_eq!(game.board.en_passant, 0);
    let mask2 = game.board.get_allowed_moves(3, 4, false);
    assert!(mask2 & (1u64 << (4 + 5 * 8)) == 0);
}

#[test]
fn halfmove_clock_resets_only_on_pawn_moves() {
    // The clock tracks pawn moves alone: a capture by another piece still
    // advances it, unlike the standard fifty-move rule.
    let mut game = Game::new("8/8/8/3p4/8/4N3/8/8 w - - 5 10");
    assert_eq!(game.points, 200);
    game.make_move(&Move::new((4, 5), (3, 3)));
    assert_eq!(game.points, 300);
    assert_eq!(game.halfmove_clock, 6);
}

#[test]
fn castling_rights_stay_as_constructed() {
    // The rights are set once at construction and never revoked, not even
    // by a king move.
    let mut game = Game::new("r3k2r/8/8/8/8/8/8/8 b KQkq - 0 1");
    assert_eq!(game.board.castling_rights, 0b1111);
    game.make_move(&Move::new((4, 0), (4, 1)));
    assert_eq!(game.board.castling_rights, 0b1111);
}

#[test]
fn full_game_round_trip_through_fen() {
    let mut game = Game::new(START_FEN);
    game.make_move(&Move::new((4, 6), (4, 4)));
    game.make_move(&Move::new((2, 1), (2, 3)));
    let exported = game.exportPosition();
    let reloaded = Game::new(&exported);
    assert_eq!(reloaded.board.black_pawn, game.board.black_pawn);
    assert_eq!(reloaded.board.white_pawn, game.board.white_pawn);
    assert_eq!(reloaded.board.black_rook, game.board.black_rook);
    assert_eq!(reloaded.board.white_rook, game.board.white_rook);
    assert_eq!(reloaded.board.black_king, game.board.black_king);
    assert_eq!(reloaded.board.white_king, game.board.white_king);
    assert_eq!(reloaded.board.en_passant, game.board.en_passant);
    assert_eq!(reloaded.turn, game.turn);
    assert_eq!(reloaded.halfmove_clock, game.halfmove_clock);
    assert_eq!(reloaded.fullmove, game.fullmove);
}
