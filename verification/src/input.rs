//! Piece selection: the decision half of input handling. A press picks the
//! piece on a square, a release turns the picked square and the released
//! square into a move when the board allows it. Mapping pointer positions
//! to squares stays with the presentation layer.

use vstd::prelude::*;

use crate::bits::bit64;
use crate::board::{sq, Board};
use crate::movegen::allowed_dest;
use crate::moves::Move;
use crate::piece::PieceType;

verus! {

pub struct InputHandler {
    pub picked_piece: Option<PieceType>,
    pub picked_piece_pos: Option<u64>,
}

impl InputHandler {
    /// The picked square, when one is held, is a single occupied square of
    /// the board it was picked from; here only its shape is tracked.
    pub open spec fn wf(self) -> bool {
        self.picked_piece_pos matches Some(f) ==> exists|k: u64| k < 64 && f == 1u64 << k
    }

    /// Starts with nothing picked.
    pub fn new() -> (r: InputHandler)
        ensures
            r.picked_piece is None,
            r.picked_piece_pos is None,
            r.wf(),
    {
        InputHandler { picked_piece: None, picked_piece_pos: None }
    }

    /// The piece currently picked, if any.
    pub fn get_picked_piece(&self) -> (r: Option<PieceType>)
        ensures
            r == self.picked_piece,
    {
        self.picked_piece
    }

    /// The single-square mask of the picked square, if any.
    pub fn get_picked_piece_pos(&self) -> (r: Option<u64>)
        ensures
            r == self.picked_piece_pos,
    {
        self.picked_piece_pos
    }

    /// A press on the square in column `column`, row `row`: picks the piece
    /// standing there, and changes nothing on an empty square.
    pub fn press(&mut self, board: &Board, column: u32, row: u32)
        requires
            column < 8,
            row < 8,
            old(self).wf(),
        ensures
            final(self).wf(),
            board.at(sq(column as int, row as int)) is Some ==> final(self).picked_piece
                == board.at(sq(column as int, row as int)) && final(self).picked_piece_pos
                == Some(1u64 << ((column + row * 8) as u64)),
            board.at(sq(column as int, row as int)) is None ==> *final(self) == *old(self),
    {
        let k: u64 = (column + row * 8) as u64;
        let pos: u64 = 1u64 << k;
        if let Some(piece) = board.get_piece(pos) {
            self.picked_piece = Some(piece);
            self.picked_piece_pos = Some(pos);
        }
    }

    /// A release on the square in column `column`, row `row`: when a piece
    /// is held and the board allows it to move there for the given color,
    /// the move is produced; the selection is dropped either way.
    pub fn release(&mut self, board: &Board, column: u32, row: u32, color: bool) -> (r: Option<
        Move,
    >)
        requires
            column < 8,
            row < 8,
            old(self).wf(),
        ensures
            final(self).picked_piece is None,
            final(self).picked_piece_pos is None,
            final(self).wf(),
            r matches Some(mv) ==> {
                &&& old(self).picked_piece_pos matches Some(f)
                &&& mv.column_to == column && mv.row_to == row
                &&& mv.column_from < 8 && mv.row_from < 8
                &&& f == 1u64 << ((mv.column_from + mv.row_from * 8) as u64)
                &&& board.at(sq(mv.column_from as int, mv.row_from as int)) matches Some(p)
                    && p.is_white() == color && allowed_dest(
                    *board,
                    p,
                    mv.column_from as int,
                    mv.row_from as int,
                    sq(column as int, row as int),
                )
            },
            r is None ==> (match old(self).picked_piece_pos {
                Some(f) => forall|k: u64|
                    k < 64 && f == 1u64 << k ==> !(board.at(k as int) matches Some(p)
                        && p.is_white() == color && allowed_dest(
                        *board,
                        p,
                        (k % 8) as int,
                        (k / 8) as int,
                        sq(column as int, row as int),
                    )),
                None => true,
            }),
    {
        let to: u64 = 1u64 << ((column + row * 8) as u64);
        let mut move_made: Option<Move> = None;
        if let Some(piece_pos) = self.picked_piece_pos {
            let (column_from, row_from) = board.get_column_row(piece_pos);
            let picked = board.get_piece(piece_pos);
            if picked.is_some() {
                proof {
                    let k = choose|k: u64| k < 64 && piece_pos == 1u64 << k;
                    assert(board.at(k as int) is Some);
                }
                if board.is_legal_move(piece_pos, to, color) {
                    move_made = Some(
                        Move {
                            column_from,
                            row_from,
                            column_to: column,
                            row_to: row,
                        },
                    );
                    proof {
                        let k = choose|k: u64| k < 64 && piece_pos == 1u64 << k;
                        crate::bits::lemma_single_test(to, k);
                        let ti = sq(column as int, row as int);
                        crate::bits::lemma_bit_single((column + row * 8) as u64, ti);
                        assert forall|i: int| bit64(to, i) implies i == ti by {
                            crate::bits::lemma_bit_single((column + row * 8) as u64, i);
                        }
                    }
                }
            }
        }
        proof {
            if move_made is None {
                if let Some(f) = self.picked_piece_pos {
                    assert forall|k: u64| k < 64 && f == 1u64 << k implies !(board.at(
                        k as int,
                    ) matches Some(p) && p.is_white() == color && allowed_dest(
                        *board,
                        p,
                        (k % 8) as int,
                        (k / 8) as int,
                        sq(column as int, row as int),
                    )) by {
                        crate::bits::lemma_bit_single((column + row * 8) as u64, sq(
                            column as int,
                            row as int,
                        ));
                    }
                }
            }
        }
        self.picked_piece = None;
        self.picked_piece_pos = None;
        move_made
    }
}

} // verus!
