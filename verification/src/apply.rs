//! Move application: the in-place transition that moves a piece, records a
//! capture, handles the en-passant capture and mask, promotes a pawn on the
//! last rank, and relocates the rook of a castling king. The contract gives
//! the piece on every square after the move.

use vstd::prelude::*;

use crate::bits::{bit64, lemma_bit_and, lemma_bit_not, lemma_bit_or, lemma_bit_single,
    lemma_bit_zero, lemma_single_test};
use crate::board::{lemma_occ, lemma_sole_occupant, sq, Board};
use crate::movegen::{allowed_dest, king_step};
use crate::moves::Move;
use crate::piece::PieceType;

verus! {

/// The square index a move starts from.
pub open spec fn from_sq(m: Move) -> int {
    sq(m.column_from as int, m.row_from as int)
}

/// The square index a move ends on.
pub open spec fn to_sq(m: Move) -> int {
    sq(m.column_to as int, m.row_to as int)
}

/// True of the two pawn kinds.
pub open spec fn is_pawn(p: PieceType) -> bool {
    p == PieceType::BlackPawn || p == PieceType::WhitePawn
}

/// The pawn of the other color.
pub open spec fn pawn_of_other(p: PieceType) -> PieceType {
    if p == PieceType::BlackPawn {
        PieceType::WhitePawn
    } else {
        PieceType::BlackPawn
    }
}

/// The queen of the mover's color.
pub open spec fn queen_of(p: PieceType) -> PieceType {
    if p.is_white() {
        PieceType::WhiteQueen
    } else {
        PieceType::BlackQueen
    }
}

/// The rook of the mover's color.
pub open spec fn rook_of(p: PieceType) -> PieceType {
    if p.is_white() {
        PieceType::WhiteRook
    } else {
        PieceType::BlackRook
    }
}

/// A pawn advancing two rows in its own column.
pub open spec fn double_push(m: Move, p: PieceType) -> bool {
    ||| (p == PieceType::BlackPawn && m.column_from == m.column_to && m.row_to == m.row_from
        + 2)
    ||| (p == PieceType::WhitePawn && m.column_from == m.column_to && m.row_from == m.row_to
        + 2)
}

/// The en-passant mask after the move: the square the pawn passed over on a
/// double push, empty otherwise.
pub open spec fn ep_mask_after(b: Board, m: Move) -> u64 {
    let p = b.at(from_sq(m))->0;
    if p == PieceType::BlackPawn && m.column_from == m.column_to && m.row_to == m.row_from + 2 {
        1u64 << ((m.column_from + (m.row_from + 1) * 8) as u64)
    } else if p == PieceType::WhitePawn && m.column_from == m.column_to && m.row_from == m.row_to
        + 2 {
        1u64 << ((m.column_from + (m.row_to + 1) * 8) as u64)
    } else {
        0u64
    }
}

/// A pawn moving diagonally onto an empty square: the en-passant capture.
pub open spec fn ep_capture(b: Board, m: Move) -> bool {
    &&& b.at(to_sq(m)) is None
    &&& is_pawn(b.at(from_sq(m))->0)
    &&& m.column_from != m.column_to
}

/// The square of the pawn an en-passant capture removes: one row behind the
/// destination, toward the mover's side.
pub open spec fn ep_victim_sq(m: Move, p: PieceType) -> int {
    if p == PieceType::BlackPawn {
        to_sq(m) - 8
    } else {
        to_sq(m) + 8
    }
}

/// A pawn landing on the farthest rank for its color.
pub open spec fn promotes(m: Move, p: PieceType) -> bool {
    ||| (p == PieceType::BlackPawn && m.row_to == 7)
    ||| (p == PieceType::WhitePawn && m.row_to == 0)
}

/// A king moving two columns toward the kingside rook.
pub open spec fn castle_k_move(m: Move, p: PieceType) -> bool {
    (p == PieceType::BlackKing || p == PieceType::WhiteKing) && m.column_from == 4
        && m.column_to == 6
}

/// A king moving two columns toward the queenside rook.
pub open spec fn castle_q_move(m: Move, p: PieceType) -> bool {
    (p == PieceType::BlackKing || p == PieceType::WhiteKing) && m.column_from == 4
        && m.column_to == 2
}

/// The corner square whose rook bit a castling move clears.
pub open spec fn rook_corner(m: Move, p: PieceType) -> int {
    if p == PieceType::BlackKing {
        if m.column_to == 6 {
            sq(7, 0)
        } else {
            sq(0, 0)
        }
    } else {
        if m.column_to == 6 {
            sq(7, 7)
        } else {
            sq(0, 7)
        }
    }
}

/// The square the castling rook lands on: the square the king crossed.
pub open spec fn rook_target(m: Move, p: PieceType) -> int {
    if p == PieceType::BlackKing {
        if m.column_to == 6 {
            sq(5, 0)
        } else {
            sq(3, 0)
        }
    } else {
        if m.column_to == 6 {
            sq(5, 7)
        } else {
            sq(3, 7)
        }
    }
}

/// What a legal move demands of board and move: coordinates on the board, a
/// piece on the origin, and the destination among that piece's allowed
/// moves. A castling king is on its home square by the castling clauses of
/// `allowed_dest` themselves.
pub open spec fn move_ok(b: Board, m: Move) -> bool {
    &&& m.column_from < 8
    &&& m.row_from < 8
    &&& m.column_to < 8
    &&& m.row_to < 8
    &&& b.at(from_sq(m)) is Some
    &&& allowed_dest(
        b,
        b.at(from_sq(m))->0,
        m.column_from as int,
        m.row_from as int,
        to_sq(m),
    )
}

/// The piece a move captures: normally whatever stood on the destination,
/// but on an en-passant capture the pawn behind it, if it is there.
pub open spec fn captured_piece(b: Board, m: Move) -> Option<PieceType> {
    let p = b.at(from_sq(m))->0;
    if ep_capture(b, m) {
        if b.at(ep_victim_sq(m, p)) == Some(pawn_of_other(p)) {
            Some(pawn_of_other(p))
        } else {
            None
        }
    } else {
        b.at(to_sq(m))
    }
}

/// The piece on square `i` after the move: the mover (or its promotion
/// queen) on the destination, the origin emptied, the en-passant victim
/// removed, and a castling rook relocated; every other square unchanged.
pub open spec fn square_after(b: Board, m: Move, i: int) -> Option<PieceType> {
    let fi = from_sq(m);
    let ti = to_sq(m);
    let p = b.at(fi)->0;
    if i == ti {
        if promotes(m, p) {
            Some(queen_of(p))
        } else {
            Some(p)
        }
    } else if i == fi {
        None
    } else if ep_capture(b, m) && i == ep_victim_sq(m, p) {
        if b.at(i) == Some(pawn_of_other(p)) {
            None
        } else {
            b.at(i)
        }
    } else if (castle_k_move(m, p) || castle_q_move(m, p)) && i == rook_corner(m, p) {
        if b.at(i) == Some(rook_of(p)) {
            None
        } else {
            b.at(i)
        }
    } else if (castle_k_move(m, p) || castle_q_move(m, p)) && i == rook_target(m, p) {
        Some(rook_of(p))
    } else {
        b.at(i)
    }
}

/// What legality gives the transition: the destination differs from the
/// origin, a double push runs over empty squares, an en-passant capture
/// comes from the eligible row, and a castling king crosses empty squares.
proof fn lemma_move_facts(b: Board, m: Move)
    requires
        b.inv(),
        move_ok(b, m),
    ensures
        to_sq(m) != from_sq(m),
        double_push(m, b.at(from_sq(m))->0) ==> b.at(to_sq(m)) is None && (b.at(from_sq(m))->0
            == PieceType::BlackPawn ==> m.row_from == 1 && b.at(sq(m.column_from as int, 2))
            is None) && (b.at(from_sq(m))->0 == PieceType::WhitePawn ==> m.row_from == 6 && b.at(
            sq(m.column_from as int, 5),
        ) is None),
        ep_capture(b, m) ==> (b.at(from_sq(m))->0 == PieceType::BlackPawn ==> m.row_from == 4
            && m.row_to == 5) && (b.at(from_sq(m))->0 == PieceType::WhitePawn ==> m.row_from == 3
            && m.row_to == 2),
        castle_k_move(m, b.at(from_sq(m))->0) || castle_q_move(m, b.at(from_sq(m))->0)
            ==> m.row_from == (if b.at(from_sq(m))->0 == PieceType::BlackKing {
            0int
        } else {
            7int
        }),
        castle_k_move(m, b.at(from_sq(m))->0) ==> b.at(rook_target(m, b.at(from_sq(m))->0))
            is None && b.at(to_sq(m)) is None,
        castle_q_move(m, b.at(from_sq(m))->0) ==> b.at(rook_target(m, b.at(from_sq(m))->0))
            is None && b.at(to_sq(m)) is None,
{
    let fi = from_sq(m);
    let ti = to_sq(m);
    let p = b.at(fi)->0;
    let cf = m.column_from as int;
    let rf = m.row_from as int;
    let ct = m.column_to as int;
    let rt = m.row_to as int;
    lemma_occ(b, fi);
    lemma_occ(b, ti);
    assert(bit64(b.mask_of(p), fi));
    // The origin square is occupied, so no destination predicate admits it.
    if ti == fi {
        match p {
            PieceType::BlackPawn => {
                assert(bit64(b.occ_all(), fi));
            },
            PieceType::WhitePawn => {
                assert(bit64(b.occ_all(), fi));
            },
            _ => {
                assert(bit64(b.occ_color(p.is_white()), fi));
            },
        }
    }
    if double_push(m, p) {
        if p == PieceType::BlackPawn {
            lemma_occ(b, sq(cf, 2));
        } else {
            lemma_occ(b, sq(cf, 5));
        }
    }
    if castle_k_move(m, p) || castle_q_move(m, p) {
        let r = if p == PieceType::BlackKing {
            0int
        } else {
            7int
        };
        assert(!king_step(cf, rf, ti));
        lemma_occ(b, sq(3, r));
        lemma_occ(b, sq(5, r));
        lemma_occ(b, sq(2, r));
        lemma_occ(b, sq(6, r));
    }
}

/// Clearing the same squares from every mask preserves disjointness.
proof fn lemma_inv_clear_all(b0: Board, b1: Board, x: u64)
    requires
        b0.inv(),
        forall|p: PieceType| #[trigger] b1.mask_of(p) == b0.mask_of(p) & !x,
    ensures
        b1.inv(),
{
    assert forall|p: PieceType, q: PieceType, i: int|
        p != q implies !(#[trigger] bit64(b1.mask_of(p), i) && #[trigger] bit64(
        b1.mask_of(q),
        i,
    )) by {
        lemma_bit_and(b0.mask_of(p), !x, i);
        lemma_bit_and(b0.mask_of(q), !x, i);
        lemma_bit_not(x, i);
    }
}

/// Clearing squares from one mask preserves disjointness.
proof fn lemma_inv_clear_one(b0: Board, b1: Board, p0: PieceType, x: u64)
    requires
        b0.inv(),
        forall|p: PieceType| p != p0 ==> #[trigger] b1.mask_of(p) == b0.mask_of(p),
        b1.mask_of(p0) == b0.mask_of(p0) & !x,
    ensures
        b1.inv(),
{
    assert forall|p: PieceType, q: PieceType, i: int|
        p != q implies !(#[trigger] bit64(b1.mask_of(p), i) && #[trigger] bit64(
        b1.mask_of(q),
        i,
    )) by {
        lemma_bit_and(b0.mask_of(p0), !x, i);
        lemma_bit_not(x, i);
        let u1 = bit64(b0.mask_of(p), i);
        let u2 = bit64(b0.mask_of(q), i);
    }
}

/// Setting one square in one mask preserves disjointness when the square is
/// empty in every mask.
proof fn lemma_inv_set_one(b0: Board, b1: Board, p0: PieceType, k: u64)
    requires
        b0.inv(),
        k < 64,
        forall|p: PieceType| p != p0 ==> #[trigger] b1.mask_of(p) == b0.mask_of(p),
        b1.mask_of(p0) == b0.mask_of(p0) | (1u64 << k),
        forall|p: PieceType| !bit64(#[trigger] b0.mask_of(p), k as int),
    ensures
        b1.inv(),
{
    assert forall|p: PieceType, q: PieceType, i: int|
        p != q implies !(#[trigger] bit64(b1.mask_of(p), i) && #[trigger] bit64(
        b1.mask_of(q),
        i,
    )) by {
        lemma_bit_or(b0.mask_of(p0), 1u64 << k, i);
        lemma_bit_single(k, i);
        let u1 = bit64(b0.mask_of(p), i);
        let u2 = bit64(b0.mask_of(q), i);
    }
}


impl Board {
    /// Clears the origin and destination squares from every mask and puts
    /// `piece` on the destination.
    #[verifier::rlimit(60)]
    fn clear_and_place(&mut self, fk: u64, tk: u64, piece: PieceType)
        requires
            old(self).inv(),
            fk < 64,
            tk < 64,
            fk != tk,
        ensures
            final(self).inv(),
            final(self).en_passant == old(self).en_passant,
            final(self).castling_rights == old(self).castling_rights,
            forall|i: int|
                0 <= i < 64 ==> #[trigger] final(self).at(i) == (if i == tk as int {
                    Some(piece)
                } else if i == fk as int {
                    None::<PieceType>
                } else {
                    old(self).at(i)
                }),
    {
        let ghost b0 = *old(self);
        let ghost fi = fk as int;
        let ghost ti = tk as int;
        let from: u64 = 1u64 << fk;
        let to: u64 = 1u64 << tk;
        self.mask(from | to);
        let ghost bm = *self;
        match piece {
            PieceType::BlackPawn => self.black_pawn = self.black_pawn | to,
            PieceType::BlackRook => self.black_rook = self.black_rook | to,
            PieceType::BlackKnight => self.black_knight = self.black_knight | to,
            PieceType::BlackBishop => self.black_bishop = self.black_bishop | to,
            PieceType::BlackQueen => self.black_queen = self.black_queen | to,
            PieceType::BlackKing => self.black_king = self.black_king | to,
            PieceType::WhitePawn => self.white_pawn = self.white_pawn | to,
            PieceType::WhiteRook => self.white_rook = self.white_rook | to,
            PieceType::WhiteKnight => self.white_knight = self.white_knight | to,
            PieceType::WhiteBishop => self.white_bishop = self.white_bishop | to,
            PieceType::WhiteQueen => self.white_queen = self.white_queen | to,
            PieceType::WhiteKing => self.white_king = self.white_king | to,
        }
        let ghost b1 = *self;
        proof {
            assert(bm.mask_of(PieceType::BlackPawn) == b0.mask_of(PieceType::BlackPawn) & !(from
                | to));
            assert(bm.mask_of(PieceType::BlackRook) == b0.mask_of(PieceType::BlackRook) & !(from
                | to));
            assert(bm.mask_of(PieceType::BlackKnight) == b0.mask_of(PieceType::BlackKnight) & !(
            from | to));
            assert(bm.mask_of(PieceType::BlackBishop) == b0.mask_of(PieceType::BlackBishop) & !(
            from | to));
            assert(bm.mask_of(PieceType::BlackQueen) == b0.mask_of(PieceType::BlackQueen) & !(
            from | to));
            assert(bm.mask_of(PieceType::BlackKing) == b0.mask_of(PieceType::BlackKing) & !(from
                | to));
            assert(bm.mask_of(PieceType::WhitePawn) == b0.mask_of(PieceType::WhitePawn) & !(from
                | to));
            assert(bm.mask_of(PieceType::WhiteRook) == b0.mask_of(PieceType::WhiteRook) & !(from
                | to));
            assert(bm.mask_of(PieceType::WhiteKnight) == b0.mask_of(PieceType::WhiteKnight) & !(
            from | to));
            assert(bm.mask_of(PieceType::WhiteBishop) == b0.mask_of(PieceType::WhiteBishop) & !(
            from | to));
            assert(bm.mask_of(PieceType::WhiteQueen) == b0.mask_of(PieceType::WhiteQueen) & !(
            from | to));
            assert(bm.mask_of(PieceType::WhiteKing) == b0.mask_of(PieceType::WhiteKing) & !(from
                | to));
            assert(forall|p: PieceType| #[trigger] bm.mask_of(p) == b0.mask_of(p) & !(from | to));
            lemma_inv_clear_all(b0, bm, from | to);
            assert(forall|p: PieceType|
                p != piece ==> #[trigger] b1.mask_of(p) == bm.mask_of(p));
            assert(b1.mask_of(piece) == bm.mask_of(piece) | to);
            assert forall|p: PieceType| !bit64(#[trigger] bm.mask_of(p), ti) by {
                lemma_bit_and(b0.mask_of(p), !(from | to), ti);
                lemma_bit_not(from | to, ti);
                lemma_bit_or(from, to, ti);
                lemma_bit_single(tk, ti);
            }
            lemma_inv_set_one(bm, b1, piece, tk);
            assert forall|i: int| 0 <= i < 64 implies #[trigger] b1.at(i) == (if i == ti {
                Some(piece)
            } else if i == fi {
                None::<PieceType>
            } else {
                b0.at(i)
            }) by {
                lemma_bit_or(from, to, i);
                lemma_bit_not(from | to, i);
                lemma_bit_single(fk, i);
                lemma_bit_single(tk, i);
                lemma_bit_and(b0.mask_of(PieceType::BlackPawn), !(from | to), i);
                lemma_bit_and(b0.mask_of(PieceType::BlackRook), !(from | to), i);
                lemma_bit_and(b0.mask_of(PieceType::BlackKnight), !(from | to), i);
                lemma_bit_and(b0.mask_of(PieceType::BlackBishop), !(from | to), i);
                lemma_bit_and(b0.mask_of(PieceType::BlackQueen), !(from | to), i);
                lemma_bit_and(b0.mask_of(PieceType::BlackKing), !(from | to), i);
                lemma_bit_and(b0.mask_of(PieceType::WhitePawn), !(from | to), i);
                lemma_bit_and(b0.mask_of(PieceType::WhiteRook), !(from | to), i);
                lemma_bit_and(b0.mask_of(PieceType::WhiteKnight), !(from | to), i);
                lemma_bit_and(b0.mask_of(PieceType::WhiteBishop), !(from | to), i);
                lemma_bit_and(b0.mask_of(PieceType::WhiteQueen), !(from | to), i);
                lemma_bit_and(b0.mask_of(PieceType::WhiteKing), !(from | to), i);
                lemma_bit_or(bm.mask_of(piece), to, i);
                if i == ti {
                    lemma_occ(b1, i);
                    assert(bit64(b1.mask_of(piece), i));
                }
            }
        }
    }
}

impl Board {
    /// Moves the piece on the move's origin square to its destination:
    /// clears both squares, places the mover (a queen on promotion),
    /// removes the en-passant victim, relocates the castling rook, and
    /// leaves the en-passant mask on the passed-over square of a double
    /// push. Returns the mover and the captured piece, if any. The caller
    /// must have validated the move: there is no rollback.
    #[verifier::rlimit(100)]
    pub fn move_piece(&mut self, mv: &Move) -> (r: (PieceType, Option<PieceType>))
        requires
            old(self).inv(),
            move_ok(*old(self), *mv),
        ensures
            final(self).inv(),
            final(self).ep_clear(),
            final(self).castling_rights == old(self).castling_rights,
            final(self).en_passant == ep_mask_after(*old(self), *mv),
            r.0 == old(self).at(from_sq(*mv))->0,
            r.1 == captured_piece(*old(self), *mv),
            forall|i: int|
                0 <= i < 64 ==> #[trigger] final(self).at(i) == square_after(
                    *old(self),
                    *mv,
                    i,
                ),
    {
        let ghost b0 = *old(self);
        let ghost m = *mv;
        proof {
            lemma_move_facts(b0, m);
        }
        let fk: u64 = (mv.column_from + mv.row_from * 8) as u64;
        let tk: u64 = (mv.column_to + mv.row_to * 8) as u64;
        let ghost fi = fk as int;
        let ghost ti = tk as int;
        let from: u64 = 1u64 << fk;
        let to: u64 = 1u64 << tk;
        proof {
            assert(fi == from_sq(m));
            assert(ti == to_sq(m));
        }
        let piece_origin = self.get_piece(from).unwrap();
        let piece_dest = self.get_piece(to);
        proof {
            assert(piece_origin == b0.at(fi)->0);
            assert(piece_dest == b0.at(ti));
        }
        self.clear_and_place(fk, tk, piece_origin);
        let ghost bcp = *self;
        self.en_passant = 0;
        let ghost b1 = *self;
        proof {
            assert forall|p: PieceType, q: PieceType, i: int|
                p != q implies !(#[trigger] bit64(b1.mask_of(p), i) && #[trigger] bit64(
                b1.mask_of(q),
                i,
            )) by {
                let u1 = bit64(bcp.mask_of(p), i);
                let u2 = bit64(bcp.mask_of(q), i);
                assert(b1.mask_of(p) == bcp.mask_of(p));
                assert(b1.mask_of(q) == bcp.mask_of(q));
            }
            assert(b1.inv());
            assert forall|i: int| 0 <= i < 64 implies #[trigger] b1.at(i) == (if i == ti {
                Some(piece_origin)
            } else if i == fi {
                None::<PieceType>
            } else {
                b0.at(i)
            }) by {
                assert(bcp.at(i) == b1.at(i));
            }
        }
        let mut captured = piece_dest;
        let ghost ep_case = ep_capture(b0, m);
        if piece_dest.is_none() && (matches!(piece_origin, PieceType::BlackPawn) || matches!(
            piece_origin,
            PieceType::WhitePawn,
        )) && mv.column_from != mv.column_to {
            proof {
                assert(ep_case);
            }
            if matches!(piece_origin, PieceType::BlackPawn) {
                let vk: u64 = tk - 8;
                let vic: u64 = 1u64 << vk;
                proof {
                    assert(vk as int == ep_victim_sq(m, piece_origin));
                    lemma_single_test(self.white_pawn, vk);
                    lemma_sole_occupant(b1, vk as int);
                }
                if self.white_pawn & vic != 0 {
                    captured = Some(PieceType::WhitePawn);
                    self.white_pawn = self.white_pawn & !vic;
                    proof {
                        lemma_inv_clear_one(b1, *self, PieceType::WhitePawn, vic);
                        assert forall|i: int| 0 <= i < 64 implies #[trigger] (*self).at(i) == (
                        if i == vk as int {
                            None::<PieceType>
                        } else {
                            b1.at(i)
                        }) by {
                            lemma_bit_and(b1.white_pawn, !vic, i);
                            lemma_bit_not(vic, i);
                            lemma_bit_single(vk, i);
                            lemma_sole_occupant(b1, i);
                        }
                    }
                }
            } else {
                let vk: u64 = tk + 8;
                let vic: u64 = 1u64 << vk;
                proof {
                    assert(vk as int == ep_victim_sq(m, piece_origin));
                    lemma_single_test(self.black_pawn, vk);
                    lemma_sole_occupant(b1, vk as int);
                }
                if self.black_pawn & vic != 0 {
                    captured = Some(PieceType::BlackPawn);
                    self.black_pawn = self.black_pawn & !vic;
                    proof {
                        lemma_inv_clear_one(b1, *self, PieceType::BlackPawn, vic);
                        assert forall|i: int| 0 <= i < 64 implies #[trigger] (*self).at(i) == (
                        if i == vk as int {
                            None::<PieceType>
                        } else {
                            b1.at(i)
                        }) by {
                            lemma_bit_and(b1.black_pawn, !vic, i);
                            lemma_bit_not(vic, i);
                            lemma_bit_single(vk, i);
                            lemma_sole_occupant(b1, i);
                        }
                    }
                }
            }
        }
        let ghost b2 = *self;
        proof {
            assert(b2.inv());
            assert(captured == captured_piece(b0, m));
            assert forall|i: int| 0 <= i < 64 implies #[trigger] b2.at(i) == (if ep_case && i
                == ep_victim_sq(m, piece_origin) && b0.at(i) == Some(
                pawn_of_other(piece_origin),
            ) {
                None::<PieceType>
            } else {
                b1.at(i)
            }) by {
                if ep_case {
                    lemma_occ(b0, ep_victim_sq(m, piece_origin));
                }
            }
        }
        if matches!(piece_origin, PieceType::BlackPawn) && mv.row_to == 7 {
            self.black_pawn = self.black_pawn & !to;
            let ghost bq = *self;
            self.black_queen = self.black_queen | to;
            proof {
                lemma_inv_clear_one(b2, bq, PieceType::BlackPawn, to);
                assert forall|p: PieceType| !bit64(#[trigger] bq.mask_of(p), ti) by {
                    lemma_bit_and(b2.black_pawn, !to, ti);
                    lemma_bit_not(to, ti);
                    lemma_bit_single(tk, ti);
                    lemma_sole_occupant(b2, ti);
                }
                lemma_inv_set_one(bq, *self, PieceType::BlackQueen, tk);
                assert forall|i: int| 0 <= i < 64 implies #[trigger] (*self).at(i) == (if i
                    == ti {
                    Some(PieceType::BlackQueen)
                } else {
                    b2.at(i)
                }) by {
                    lemma_bit_and(b2.black_pawn, !to, i);
                    lemma_bit_not(to, i);
                    lemma_bit_single(tk, i);
                    lemma_bit_or(bq.black_queen, to, i);
                    if i == ti {
                        lemma_occ(*self, i);
                        assert(bit64((*self).mask_of(PieceType::BlackQueen), i));
                    }
                }
            }
        }
        if matches!(piece_origin, PieceType::WhitePawn) && mv.row_to == 0 {
            self.white_pawn = self.white_pawn & !to;
            let ghost bq = *self;
            self.white_queen = self.white_queen | to;
            proof {
                lemma_inv_clear_one(b2, bq, PieceType::WhitePawn, to);
                assert forall|p: PieceType| !bit64(#[trigger] bq.mask_of(p), ti) by {
                    lemma_bit_and(b2.white_pawn, !to, ti);
                    lemma_bit_not(to, ti);
                    lemma_bit_single(tk, ti);
                    lemma_sole_occupant(b2, ti);
                }
                lemma_inv_set_one(bq, *self, PieceType::WhiteQueen, tk);
                assert forall|i: int| 0 <= i < 64 implies #[trigger] (*self).at(i) == (if i
                    == ti {
                    Some(PieceType::WhiteQueen)
                } else {
                    b2.at(i)
                }) by {
                    lemma_bit_and(b2.white_pawn, !to, i);
                    lemma_bit_not(to, i);
                    lemma_bit_single(tk, i);
                    lemma_bit_or(bq.white_queen, to, i);
                    if i == ti {
                        lemma_occ(*self, i);
                        assert(bit64((*self).mask_of(PieceType::WhiteQueen), i));
                    }
                }
            }
        }
        let ghost b3 = *self;
        proof {
            assert(b3.inv());
            assert forall|i: int| 0 <= i < 64 implies #[trigger] b3.at(i) == (if promotes(
                m,
                piece_origin,
            ) && i == ti {
                Some(queen_of(piece_origin))
            } else {
                b2.at(i)
            }) by {
            }
        }
        if matches!(piece_origin, PieceType::BlackKing) && mv.column_from == 4 && mv.column_to
            == 6 {
            proof {
                assert(rook_target(m, piece_origin) == 5);
                assert(b3.at(5int) == b0.at(5int));
                assert(b3.at(5int) is None);
            }
            self.castle_rook(Ghost(b3), 7, 5, false);
        }
        if matches!(piece_origin, PieceType::BlackKing) && mv.column_from == 4 && mv.column_to
            == 2 {
            proof {
                assert(rook_target(m, piece_origin) == 3);
                assert(b3.at(3int) == b0.at(3int));
                assert(b3.at(3int) is None);
            }
            self.castle_rook(Ghost(b3), 0, 3, false);
        }
        if matches!(piece_origin, PieceType::WhiteKing) && mv.column_from == 4 && mv.column_to
            == 6 {
            proof {
                assert(rook_target(m, piece_origin) == 61);
                assert(b3.at(61int) == b0.at(61int));
                assert(b3.at(61int) is None);
            }
            self.castle_rook(Ghost(b3), 63, 61, true);
        }
        if matches!(piece_origin, PieceType::WhiteKing) && mv.column_from == 4 && mv.column_to
            == 2 {
            proof {
                assert(rook_target(m, piece_origin) == 59);
                assert(b3.at(59int) == b0.at(59int));
                assert(b3.at(59int) is None);
            }
            self.castle_rook(Ghost(b3), 56, 59, true);
        }
        let ghost b3c = *self;
        if matches!(piece_origin, PieceType::BlackPawn) && mv.column_from == mv.column_to
            && mv.row_to == mv.row_from + 2 {
            self.en_passant = 1u64 << (fk + 8);
        }
        if matches!(piece_origin, PieceType::WhitePawn) && mv.column_from == mv.column_to
            && mv.row_from == mv.row_to + 2 {
            self.en_passant = 1u64 << (fk - 8);
        }
        let ghost b4 = *self;
        proof {
            assert(b3c.inv());
            assert forall|p: PieceType, q: PieceType, i: int|
                p != q implies !(#[trigger] bit64(b4.mask_of(p), i) && #[trigger] bit64(
                b4.mask_of(q),
                i,
            )) by {
                let u1 = bit64(b3c.mask_of(p), i);
                let u2 = bit64(b3c.mask_of(q), i);
                assert(b4.mask_of(p) == b3c.mask_of(p));
                assert(b4.mask_of(q) == b3c.mask_of(q));
            }
            assert(b4.inv());
            assert(b4.en_passant == ep_mask_after(b0, m));
            assert forall|i: int| 0 <= i < 64 implies #[trigger] b4.at(i) == square_after(
                b0,
                m,
                i,
            ) by {
                lemma_occ(b0, i);
                lemma_occ(b3, i);
            }
            assert(b4.ep_clear()) by {
                if double_push(m, piece_origin) {
                    let mid = if piece_origin == PieceType::BlackPawn {
                        fi + 8
                    } else {
                        fi - 8
                    };
                    assert forall|i: int, j: int|
                        bit64(b4.en_passant, i) && bit64(b4.en_passant, j) implies i == j
                            && !bit64(b4.occ_all(), i) by {
                        lemma_bit_single((if piece_origin == PieceType::BlackPawn {
                            (fk + 8) as u64
                        } else {
                            (fk - 8) as u64
                        }), i);
                        lemma_bit_single((if piece_origin == PieceType::BlackPawn {
                            (fk + 8) as u64
                        } else {
                            (fk - 8) as u64
                        }), j);
                        lemma_occ(b4, mid);
                        assert(b4.at(mid) is None);
                    }
                } else {
                    assert forall|i: int, j: int|
                        bit64(b4.en_passant, i) && bit64(b4.en_passant, j) implies i == j
                            && !bit64(b4.occ_all(), i) by {
                        lemma_bit_zero(i);
                    }
                }
            }
        }
        (piece_origin, captured)
    }

    /// Relocates the castling rook of the given color: clears the corner
    /// square `corner` from the rook mask and sets the rook on `target`,
    /// which must be empty in every mask.
    fn castle_rook(&mut self, Ghost(b3): Ghost<Board>, corner: u64, target: u64, white: bool)
        requires
            corner < 64,
            target < 64,
            corner != target,
            old(self).inv(),
            *old(self) == b3,
            b3.at(target as int) is None,
        ensures
            final(self).inv(),
            final(self).en_passant == b3.en_passant,
            final(self).castling_rights == b3.castling_rights,
            forall|i: int|
                0 <= i < 64 ==> #[trigger] final(self).at(i) == (if i == corner as int {
                    if b3.at(i) == Some(
                        if white {
                            PieceType::WhiteRook
                        } else {
                            PieceType::BlackRook
                        },
                    ) {
                        None::<PieceType>
                    } else {
                        b3.at(i)
                    }
                } else if i == target as int {
                    Some(
                        if white {
                            PieceType::WhiteRook
                        } else {
                            PieceType::BlackRook
                        },
                    )
                } else {
                    b3.at(i)
                }),
    {
        let ghost rook = if white {
            PieceType::WhiteRook
        } else {
            PieceType::BlackRook
        };
        let cmask: u64 = 1u64 << corner;
        let tmask: u64 = 1u64 << target;
        if white {
            self.white_rook = self.white_rook & !cmask;
        } else {
            self.black_rook = self.black_rook & !cmask;
        }
        let ghost bc = *self;
        if white {
            self.white_rook = self.white_rook | tmask;
        } else {
            self.black_rook = self.black_rook | tmask;
        }
        proof {
            lemma_inv_clear_one(b3, bc, rook, cmask);
            lemma_sole_occupant(b3, target as int);
            assert forall|p: PieceType| !bit64(#[trigger] bc.mask_of(p), target as int) by {
                lemma_bit_and(b3.mask_of(rook), !cmask, target as int);
                lemma_bit_not(cmask, target as int);
            }
            lemma_inv_set_one(bc, *self, rook, target);
            assert forall|i: int| 0 <= i < 64 implies #[trigger] (*self).at(i) == (if i
                == corner as int {
                if b3.at(i) == Some(rook) {
                    None::<PieceType>
                } else {
                    b3.at(i)
                }
            } else if i == target as int {
                Some(rook)
            } else {
                b3.at(i)
            }) by {
                lemma_bit_and(b3.mask_of(rook), !cmask, i);
                lemma_bit_not(cmask, i);
                lemma_bit_single(corner, i);
                lemma_bit_single(target, i);
                lemma_bit_or(bc.mask_of(rook), tmask, i);
                lemma_sole_occupant(b3, i);
                lemma_sole_occupant(*self, i);
            }
        }
    }
}

} // verus!
