use chess_core::board::Board;
use chess_core::input::InputHandler;
use chess_core::piece::PieceType;

const START_PLACEMENT: &str = "rnbqkbnr/pppppppp/8/8/8/8/PPPPPPPP/RNBQKBNR";

#[test]
fn handler_starts_empty() {
    let handler = InputHandler::new();
    assert_eq!(handler.get_picked_piece(), None);
    assert_eq!(handler.get_picked_piece_pos(), None);
}

#[test]
fn press_picks_a_piece() {
    let board = Board::new(START_PLACEMENT, 0).unwrap();
    let mut handler = InputHandler::new();
    handler.press(&board, 4, 6);
    assert_eq!(handler.get_picked_piece(), Some(PieceType::WhitePawn));
    assert_eq!(handler.get_picked_piece_pos(), Some(1u64 << (4 + 6 * 8)));
}

#[test]
fn press_on_empty_square_changes_nothing() {
    let board = Board::new(START_PLACEMENT, 0).unwrap();
    let mut handler = InputHandler::new();
    handler.press(&board, 4, 3);
    assert_eq!(handler.get_picked_piece(), None);
    handler.press(&board, 4, 6);
    handler.press(&board, 4, 3);
    assert_eq!(handler.get_picked_piece(), Some(PieceType::WhitePawn));
}

#[test]
fn release_builds_the_move_and_drops_the_selection() {
    let board = Board::new(START_PLACEMENT, 0).unwrap();
    let mut handler = InputHandler::new();
    handler.press(&board, 4, 6);
    let mv = handler.release(&board, 4, 4, true).unwrap();
    assert_eq!(
        (mv.column_from, mv.row_from, mv.column_to, mv.row_to),
        (4, 6, 4, 4)
    );
    assert_eq!(handler.get_picked_piece(), None);
    assert_eq!(handler.get_picked_piece_pos(), None);
}

#[test]
fn release_refuses_wrong_color_and_bad_targets() {
    let board = Board::new(START_PLACEMENT, 0).unwrap();
    let mut handler = InputHandler::new();
    handler.press(&board, 4, 6);
    assert_eq!(handler.release(&board, 4, 4, false), None);
    handler.press(&board, 4, 6);
    assert_eq!(handler.release(&board, 4, 2, true), None);
    assert_eq!(handler.release(&board, 4, 4, true), None);
}
