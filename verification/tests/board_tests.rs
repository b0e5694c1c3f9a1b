use chess_core::board::Board;
use chess_core::moves::Move;
use chess_core::piece::PieceType;

const START_PLACEMENT: &str = "rnbqkbnr/pppppppp/8/8/8/8/PPPPPPPP/RNBQKBNR";

fn start_board() -> Board {
    Board::new(START_PLACEMENT, 0).unwrap()
}

fn bit(c: u32, r: u32) -> u64 {
    1u64 << (c + r * 8)
}

#[test]
fn start_position_material_is_zero() {
    let board = start_board();
    assert_eq!(board.points(), 0);
}

#[test]
fn start_e_pawn_has_single_and_double_push() {
    let board = start_board();
    let moves = board.get_allowed_moves(4, 6, true);
    assert!(moves & bit(4, 5) != 0);
    assert!(moves & bit(4, 4) != 0);
    assert_eq!(moves, 0x101000000000);
}

#[test]
fn start_knight_moves() {
    let board = start_board();
    let moves = board.get_allowed_white_knight_moves(1, 7);
    assert_eq!(moves, 0x50000000000);
}

#[test]
fn start_rook_is_blocked() {
    let board = start_board();
    assert_eq!(board.get_allowed_white_rook_moves(0, 7), 0);
    assert_eq!(board.get_allowed_black_rook_moves(0, 0), 0);
}

#[test]
fn lone_rook_sweeps_rank_and_file() {
    let board = Board::new("8/8/8/3R4/8/8/8/8", 0).unwrap();
    assert_eq!(board.get_allowed_white_rook_moves(3, 3), 0x8080808f7080808);
}

#[test]
fn rook_ray_stops_at_first_piece() {
    // A black pawn on the rank is captured and ends the ray; the white pawn
    // on the file is never reached past, and its square is excluded.
    let board = Board::new("8/8/8/3R1p2/8/3P4/8/8", 0).unwrap();
    assert_eq!(board.get_allowed_white_rook_moves(3, 3), 0x837080808);
}

#[test]
fn bishop_ray_stops_at_first_piece() {
    let board = Board::new("8/8/8/3b4/8/5P2/8/8", 0).unwrap();
    let moves = board.get_allowed_black_bishop_moves(3, 3);
    assert!(moves & bit(4, 4) != 0);
    assert!(moves & bit(5, 5) != 0);
    assert!(moves & bit(6, 6) == 0);
    assert!(moves & bit(7, 7) == 0);
}

#[test]
fn bishop_and_queen_compose() {
    let board = Board::new("8/8/8/3Q4/8/8/8/8", 0).unwrap();
    let q = board.get_allowed_white_queen_moves(3, 3);
    let r = board.get_allowed_white_rook_moves(3, 3);
    let b = board.get_allowed_white_bishop_moves(3, 3);
    assert_eq!(q, r | b);
    assert!(q & bit(0, 0) != 0);
    assert!(q & bit(7, 7) != 0);
    assert!(q & bit(6, 0) != 0);
    assert!(q & bit(0, 6) != 0);
}

#[test]
fn no_destination_on_same_color_square() {
    let board = start_board();
    for color in [false, true] {
        let own = if color {
            board.get_white_pieces()
        } else {
            board.get_black_pieces()
        };
        for i in 0u32..64 {
            let pos = 1u64 << i;
            if let Some(p) = board.get_piece(pos) {
                if p.color() == color {
                    let moves = board.get_allowed_moves(i % 8, i / 8, color);
                    assert_eq!(moves & own, 0);
                }
            }
        }
    }
}

#[test]
fn pawn_capture_is_diagonal_only() {
    let board = Board::new("8/8/8/3p4/4P3/8/8/8", 0).unwrap();
    let moves = board.get_allowed_white_pawn_moves(4, 4);
    assert!(moves & bit(3, 3) != 0);
    assert!(moves & bit(4, 3) != 0);
    assert!(moves & bit(5, 3) == 0);
    let black = board.get_allowed_black_pawn_moves(3, 3);
    assert!(black & bit(4, 4) != 0);
    assert!(black & bit(3, 4) != 0);
    let blocked = Board::new("8/8/8/3p4/3P4/8/8/8", 0).unwrap();
    assert_eq!(blocked.get_allowed_black_pawn_moves(3, 3), 0);
    assert_eq!(blocked.get_allowed_white_pawn_moves(3, 4), 0);
}

#[test]
fn double_push_sets_en_passant_square() {
    let mut board = start_board();
    let (moved, captured) = board.move_piece(&Move::new((4, 6), (4, 4)));
    assert_eq!(moved, PieceType::WhitePawn);
    assert_eq!(captured, None);
    assert_eq!(board.en_passant, 0x100000000000);
    assert_eq!(board.get_piece_pos(4, 4), Some(PieceType::WhitePawn));
    assert_eq!(board.get_piece_pos(4, 6), None);
}

#[test]
fn en_passant_capture_removes_the_passed_pawn() {
    // A black pawn on d4 may take the white pawn that just passed it.
    let mut board = Board::new("8/8/8/8/3p4/8/4P3/8", 0).unwrap();
    board.move_piece(&Move::new((4, 6), (4, 4)));
    let moves = board.get_allowed_black_pawn_moves(3, 4);
    assert!(moves & bit(4, 5) != 0);
    let (moved, captured) = board.move_piece(&Move::new((3, 4), (4, 5)));
    assert_eq!(moved, PieceType::BlackPawn);
    assert_eq!(captured, Some(PieceType::WhitePawn));
    assert_eq!(board.get_piece_pos(4, 4), None);
    assert_eq!(board.get_piece_pos(4, 5), Some(PieceType::BlackPawn));
}

#[test]
fn en_passant_lasts_one_ply() {
    let mut board = Board::new("8/8/8/8/3p4/8/4P3/8", 0).unwrap();
    board.move_piece(&Move::new((4, 6), (4, 4)));
    assert_eq!(board.en_passant, 0x100000000000);
    board.move_piece(&Move::new((3, 4), (3, 5)));
    assert_eq!(board.en_passant, 0);
}

#[test]
fn white_pawn_promotes_to_queen() {
    let mut board = Board::new("8/P7/8/8/8/8/8/8", 0).unwrap();
    let (moved, captured) = board.move_piece(&Move::new((0, 1), (0, 0)));
    assert_eq!(moved, PieceType::WhitePawn);
    assert_eq!(captured, None);
    assert_eq!(board.get_piece_pos(0, 0), Some(PieceType::WhiteQueen));
    assert_eq!(board.white_pawn, 0);
}

#[test]
fn black_pawn_promotes_to_queen() {
    let mut board = Board::new("8/8/8/8/8/8/p7/8", 0).unwrap();
    board.move_piece(&Move::new((0, 6), (0, 7)));
    assert_eq!(board.get_piece_pos(0, 7), Some(PieceType::BlackQueen));
    assert_eq!(board.black_pawn, 0);
}

#[test]
fn black_king_castles_both_ways() {
    let board = Board::new("r3k2r/8/8/8/8/8/8/8", 0).unwrap();
    let moves = board.get_allowed_black_king_moves(4, 0);
    assert_eq!(moves, 0x386c);
}

#[test]
fn kingside_castle_relocates_rook() {
    let mut board = Board::new("r3k2r/8/8/8/8/8/8/8", 0).unwrap();
    board.move_piece(&Move::new((4, 0), (6, 0)));
    assert_eq!(board.get_piece_pos(6, 0), Some(PieceType::BlackKing));
    assert_eq!(board.get_piece_pos(5, 0), Some(PieceType::BlackRook));
    assert_eq!(board.get_piece_pos(7, 0), None);
    assert_eq!(board.get_piece_pos(0, 0), Some(PieceType::BlackRook));
}

#[test]
fn queenside_castle_relocates_rook() {
    let mut board = Board::new("r3k2r/8/8/8/8/8/8/8", 0).unwrap();
    board.move_piece(&Move::new((4, 0), (2, 0)));
    assert_eq!(board.get_piece_pos(2, 0), Some(PieceType::BlackKing));
    assert_eq!(board.get_piece_pos(3, 0), Some(PieceType::BlackRook));
    assert_eq!(board.get_piece_pos(0, 0), None);
    assert_eq!(board.get_piece_pos(7, 0), Some(PieceType::BlackRook));
}

#[test]
fn white_king_castles_kingside() {
    let mut board = Board::new("8/8/8/8/8/8/8/R3K2R", 0).unwrap();
    let moves = board.get_allowed_white_king_moves(4, 7);
    assert!(moves & bit(6, 7) != 0);
    assert!(moves & bit(2, 7) != 0);
    board.move_piece(&Move::new((4, 7), (6, 7)));
    assert_eq!(board.get_piece_pos(6, 7), Some(PieceType::WhiteKing));
    assert_eq!(board.get_piece_pos(5, 7), Some(PieceType::WhiteRook));
    assert_eq!(board.get_piece_pos(7, 7), None);
}

#[test]
fn no_castle_off_the_home_square() {
    // A king away from its home square has no two-column move, even with
    // every right held and the path clear.
    let board = Board::new("8/8/8/4k3/8/8/8/8", 0).unwrap();
    let moves = board.get_allowed_black_king_moves(4, 3);
    assert!(moves & bit(6, 3) == 0);
    assert!(moves & bit(2, 3) == 0);
    assert!(!board.is_legal_move(bit(4, 3), bit(6, 3), false));
}

#[test]
fn no_castle_through_attacked_square() {
    // A white rook on the f-file attacks f8, the square the black king
    // would cross: the kingside castling destination must be gone.
    let board = Board::new("r3k2r/8/8/8/8/8/8/5R2", 0).unwrap();
    let moves = board.get_allowed_black_king_moves(4, 0);
    assert!(moves & bit(6, 0) == 0);
    assert!(moves & bit(2, 0) != 0);
}

#[test]
fn no_castle_through_occupied_square() {
    let board = Board::new("r3kn1r/8/8/8/8/8/8/8", 0).unwrap();
    let moves = board.get_allowed_black_king_moves(4, 0);
    assert!(moves & bit(6, 0) == 0);
    assert!(moves & bit(2, 0) != 0);
}

#[test]
fn king_avoids_attacked_squares() {
    // A white rook pins the whole e-file: the black king may not stay on
    // or step onto an attacked square.
    let board = Board::new("4k3/8/8/8/8/8/8/4R3", 0).unwrap();
    let moves = board.get_allowed_black_king_moves(4, 0);
    assert!(moves & bit(4, 1) == 0);
    assert!(moves & bit(3, 1) != 0);
    assert!(moves & bit(3, 0) != 0);
}

#[test]
fn is_legal_move_rejects_wrong_color() {
    let board = start_board();
    let from = bit(4, 6);
    let to = bit(4, 4);
    assert!(board.is_legal_move(from, to, true));
    assert!(!board.is_legal_move(from, to, false));
}

#[test]
fn is_legal_move_rejects_bad_destination() {
    let board = start_board();
    assert!(!board.is_legal_move(bit(4, 6), bit(4, 3), true));
    assert!(!board.is_legal_move(bit(0, 7), bit(0, 5), true));
}

#[test]
fn get_all_moves_matches_lone_piece() {
    let board = Board::new("8/8/8/3R4/8/8/8/8", 0).unwrap();
    assert_eq!(board.get_all_moves(true), board.get_allowed_white_rook_moves(3, 3));
    assert_eq!(board.get_all_moves(false), 0);
}

#[test]
fn clear_and_mask_empty_the_board() {
    let mut board = start_board();
    board.mask(0xFF00);
    assert_eq!(board.black_pawn, 0);
    board.clear();
    assert_eq!(board.get_all_pieces(), 0);
}

#[test]
fn get_piece_reads_every_start_square() {
    let board = start_board();
    assert_eq!(board.get_piece(1u64 << 0), Some(PieceType::BlackRook));
    assert_eq!(board.get_piece(1u64 << 4), Some(PieceType::BlackKing));
    assert_eq!(board.get_piece(1u64 << 27), None);
    assert_eq!(board.get_piece_pos(3, 7), Some(PieceType::WhiteQueen));
    assert_eq!(board.get_column_row(1u64 << 52), (4, 6));
}

#[test]
fn material_counts_signed_values() {
    let board = Board::new("8/8/8/3q4/8/8/8/6N1", 0).unwrap();
    assert_eq!(board.points(), 300 - 900);
}
