//! Board storage and queries: twelve per-(color, kind) occupancy masks, the
//! en-passant target mask and the castling-rights flags, with the disjointness
//! invariant and the square-wise reading `at` that all contracts use.

use vstd::prelude::*;

use crate::bits::{bit64, lemma_bit_or, lemma_bit_single, lemma_single_test};
use crate::piece::PieceType;

verus! {

/// The index of the square in column `c`, row `r` (row 0 is the rank FEN
/// lists first).
pub open spec fn sq(c: int, r: int) -> int {
    c + 8 * r
}

/// True when `(c, r)` is a square of the 8-by-8 board.
pub open spec fn on_board(c: int, r: int) -> bool {
    0 <= c < 8 && 0 <= r < 8
}

#[derive(Clone, Copy, Debug)]
pub struct Board {
    pub black_pawn: u64,
    pub black_rook: u64,
    pub black_knight: u64,
    pub black_bishop: u64,
    pub black_queen: u64,
    pub black_king: u64,
    pub white_pawn: u64,
    pub white_rook: u64,
    pub white_knight: u64,
    pub white_bishop: u64,
    pub white_queen: u64,
    pub white_king: u64,
    /// The square a pawn may capture onto by en passant this ply; at most one
    /// bit set.
    pub en_passant: u64,
    /// 0b0001 = white kingside, 0b0010 = white queenside,
    /// 0b0100 = black kingside, 0b1000 = black queenside.
    pub castling_rights: u8,
}

impl Board {
    /// The occupancy mask of one piece kind.
    pub open spec fn mask_of(self, p: PieceType) -> u64 {
        match p {
            PieceType::BlackPawn => self.black_pawn,
            PieceType::BlackRook => self.black_rook,
            PieceType::BlackKnight => self.black_knight,
            PieceType::BlackBishop => self.black_bishop,
            PieceType::BlackQueen => self.black_queen,
            PieceType::BlackKing => self.black_king,
            PieceType::WhitePawn => self.white_pawn,
            PieceType::WhiteRook => self.white_rook,
            PieceType::WhiteKnight => self.white_knight,
            PieceType::WhiteBishop => self.white_bishop,
            PieceType::WhiteQueen => self.white_queen,
            PieceType::WhiteKing => self.white_king,
        }
    }

    /// The squares occupied by black pieces.
    pub open spec fn occ_black(self) -> u64 {
        self.black_pawn | self.black_rook | self.black_knight | self.black_bishop
            | self.black_queen | self.black_king
    }

    /// The squares occupied by white pieces.
    pub open spec fn occ_white(self) -> u64 {
        self.white_pawn | self.white_rook | self.white_knight | self.white_bishop
            | self.white_queen | self.white_king
    }

    /// The occupied squares.
    pub open spec fn occ_all(self) -> u64 {
        self.occ_black() | self.occ_white()
    }

    /// The squares occupied by the given color.
    pub open spec fn occ_color(self, white: bool) -> u64 {
        if white {
            self.occ_white()
        } else {
            self.occ_black()
        }
    }

    /// The piece on square `i`: the first mask whose bit `i` is set, in the
    /// order `get_piece` checks them. Under `inv` at most one mask can match.
    pub open spec fn at(self, i: int) -> Option<PieceType> {
        if bit64(self.black_pawn, i) {
            Some(PieceType::BlackPawn)
        } else if bit64(self.black_rook, i) {
            Some(PieceType::BlackRook)
        } else if bit64(self.black_knight, i) {
            Some(PieceType::BlackKnight)
        } else if bit64(self.black_bishop, i) {
            Some(PieceType::BlackBishop)
        } else if bit64(self.black_queen, i) {
            Some(PieceType::BlackQueen)
        } else if bit64(self.black_king, i) {
            Some(PieceType::BlackKing)
        } else if bit64(self.white_pawn, i) {
            Some(PieceType::WhitePawn)
        } else if bit64(self.white_rook, i) {
            Some(PieceType::WhiteRook)
        } else if bit64(self.white_knight, i) {
            Some(PieceType::WhiteKnight)
        } else if bit64(self.white_bishop, i) {
            Some(PieceType::WhiteBishop)
        } else if bit64(self.white_queen, i) {
            Some(PieceType::WhiteQueen)
        } else if bit64(self.white_king, i) {
            Some(PieceType::WhiteKing)
        } else {
            None
        }
    }

    /// The disjointness invariant: every square holds at most one piece.
    pub open spec fn inv(self) -> bool {
        forall|p: PieceType, q: PieceType, i: int|
            #![trigger bit64(self.mask_of(p), i), bit64(self.mask_of(q), i)]
            p != q ==> !(bit64(self.mask_of(p), i) && bit64(self.mask_of(q), i))
    }

    /// The en-passant mask holds at most one square, and an empty one: the
    /// square a pawn just passed over.
    pub open spec fn ep_clear(self) -> bool {
        forall|i: int, j: int|
            #![trigger bit64(self.en_passant, i), bit64(self.en_passant, j)]
            bit64(self.en_passant, i) && bit64(self.en_passant, j) ==> i == j && !bit64(
                self.occ_all(),
                i,
            )
    }
}

/// Relates the occupancy masks to the square-wise reading `at`.
pub proof fn lemma_occ(b: Board, i: int)
    requires
        0 <= i < 64,
    ensures
        bit64(b.occ_black(), i) <==> (b.at(i) matches Some(p) && !p.is_white()),
        bit64(b.occ_all(), i) <==> b.at(i) is Some,
        b.at(i) matches Some(p) ==> bit64(b.mask_of(p), i),
        b.inv() ==> (bit64(b.occ_white(), i) <==> (b.at(i) matches Some(p) && p.is_white())),
        b.inv() ==> forall|p: PieceType| bit64(b.mask_of(p), i) ==> b.at(i) == Some(p),
{
    lemma_bit_or(b.black_pawn, b.black_rook, i);
    lemma_bit_or(b.black_pawn | b.black_rook, b.black_knight, i);
    lemma_bit_or(b.black_pawn | b.black_rook | b.black_knight, b.black_bishop, i);
    lemma_bit_or(
        b.black_pawn | b.black_rook | b.black_knight | b.black_bishop,
        b.black_queen,
        i,
    );
    lemma_bit_or(
        b.black_pawn | b.black_rook | b.black_knight | b.black_bishop | b.black_queen,
        b.black_king,
        i,
    );
    lemma_bit_or(b.white_pawn, b.white_rook, i);
    lemma_bit_or(b.white_pawn | b.white_rook, b.white_knight, i);
    lemma_bit_or(b.white_pawn | b.white_rook | b.white_knight, b.white_bishop, i);
    lemma_bit_or(
        b.white_pawn | b.white_rook | b.white_knight | b.white_bishop,
        b.white_queen,
        i,
    );
    lemma_bit_or(
        b.white_pawn | b.white_rook | b.white_knight | b.white_bishop | b.white_queen,
        b.white_king,
        i,
    );
    lemma_bit_or(b.occ_black(), b.occ_white(), i);
    if b.inv() {
        let t0 = bit64(b.mask_of(PieceType::BlackPawn), i);
        let t1 = bit64(b.mask_of(PieceType::BlackRook), i);
        let t2 = bit64(b.mask_of(PieceType::BlackKnight), i);
        let t3 = bit64(b.mask_of(PieceType::BlackBishop), i);
        let t4 = bit64(b.mask_of(PieceType::BlackQueen), i);
        let t5 = bit64(b.mask_of(PieceType::BlackKing), i);
        let t6 = bit64(b.mask_of(PieceType::WhitePawn), i);
        let t7 = bit64(b.mask_of(PieceType::WhiteRook), i);
        let t8 = bit64(b.mask_of(PieceType::WhiteKnight), i);
        let t9 = bit64(b.mask_of(PieceType::WhiteBishop), i);
        let t10 = bit64(b.mask_of(PieceType::WhiteQueen), i);
        let t11 = bit64(b.mask_of(PieceType::WhiteKing), i);
        assert forall|p: PieceType| bit64(b.mask_of(p), i) implies b.at(i) == Some(p) by {
            let s0 = bit64(b.mask_of(PieceType::BlackPawn), i);
            let s1 = bit64(b.mask_of(PieceType::BlackRook), i);
            let s2 = bit64(b.mask_of(PieceType::BlackKnight), i);
            let s3 = bit64(b.mask_of(PieceType::BlackBishop), i);
            let s4 = bit64(b.mask_of(PieceType::BlackQueen), i);
            let s5 = bit64(b.mask_of(PieceType::BlackKing), i);
            let s6 = bit64(b.mask_of(PieceType::WhitePawn), i);
            let s7 = bit64(b.mask_of(PieceType::WhiteRook), i);
            let s8 = bit64(b.mask_of(PieceType::WhiteKnight), i);
            let s9 = bit64(b.mask_of(PieceType::WhiteBishop), i);
            let s10 = bit64(b.mask_of(PieceType::WhiteQueen), i);
            let s11 = bit64(b.mask_of(PieceType::WhiteKing), i);
        }
    }
}

/// Under the invariant, each mask's bit at `i` answers exactly whether its
/// piece stands there, stated field by field.
pub proof fn lemma_sole_occupant(b: Board, i: int)
    requires
        b.inv(),
        0 <= i < 64,
    ensures
        bit64(b.black_pawn, i) <==> b.at(i) == Some(PieceType::BlackPawn),
        bit64(b.black_rook, i) <==> b.at(i) == Some(PieceType::BlackRook),
        bit64(b.black_knight, i) <==> b.at(i) == Some(PieceType::BlackKnight),
        bit64(b.black_bishop, i) <==> b.at(i) == Some(PieceType::BlackBishop),
        bit64(b.black_queen, i) <==> b.at(i) == Some(PieceType::BlackQueen),
        bit64(b.black_king, i) <==> b.at(i) == Some(PieceType::BlackKing),
        bit64(b.white_pawn, i) <==> b.at(i) == Some(PieceType::WhitePawn),
        bit64(b.white_rook, i) <==> b.at(i) == Some(PieceType::WhiteRook),
        bit64(b.white_knight, i) <==> b.at(i) == Some(PieceType::WhiteKnight),
        bit64(b.white_bishop, i) <==> b.at(i) == Some(PieceType::WhiteBishop),
        bit64(b.white_queen, i) <==> b.at(i) == Some(PieceType::WhiteQueen),
        bit64(b.white_king, i) <==> b.at(i) == Some(PieceType::WhiteKing),
{
    lemma_occ(b, i);
    let t0 = bit64(b.mask_of(PieceType::BlackPawn), i);
    let t1 = bit64(b.mask_of(PieceType::BlackRook), i);
    let t2 = bit64(b.mask_of(PieceType::BlackKnight), i);
    let t3 = bit64(b.mask_of(PieceType::BlackBishop), i);
    let t4 = bit64(b.mask_of(PieceType::BlackQueen), i);
    let t5 = bit64(b.mask_of(PieceType::BlackKing), i);
    let t6 = bit64(b.mask_of(PieceType::WhitePawn), i);
    let t7 = bit64(b.mask_of(PieceType::WhiteRook), i);
    let t8 = bit64(b.mask_of(PieceType::WhiteKnight), i);
    let t9 = bit64(b.mask_of(PieceType::WhiteBishop), i);
    let t10 = bit64(b.mask_of(PieceType::WhiteQueen), i);
    let t11 = bit64(b.mask_of(PieceType::WhiteKing), i);
}

impl Board {
    /// The piece whose mask meets `pos`, if any; with a single-square mask,
    /// the piece on that square.
    pub fn get_piece(&self, pos: u64) -> (r: Option<PieceType>)
        ensures
            forall|k: u64| k < 64 && pos == 1u64 << k ==> r == self.at(k as int),
            pos == 0 ==> r is None,
    {
        let r: Option<PieceType> = if self.black_pawn & pos != 0 {
            Some(PieceType::BlackPawn)
        } else if self.black_rook & pos != 0 {
            Some(PieceType::BlackRook)
        } else if self.black_knight & pos != 0 {
            Some(PieceType::BlackKnight)
        } else if self.black_bishop & pos != 0 {
            Some(PieceType::BlackBishop)
        } else if self.black_queen & pos != 0 {
            Some(PieceType::BlackQueen)
        } else if self.black_king & pos != 0 {
            Some(PieceType::BlackKing)
        } else if self.white_pawn & pos != 0 {
            Some(PieceType::WhitePawn)
        } else if self.white_rook & pos != 0 {
            Some(PieceType::WhiteRook)
        } else if self.white_knight & pos != 0 {
            Some(PieceType::WhiteKnight)
        } else if self.white_bishop & pos != 0 {
            Some(PieceType::WhiteBishop)
        } else if self.white_queen & pos != 0 {
            Some(PieceType::WhiteQueen)
        } else if self.white_king & pos != 0 {
            Some(PieceType::WhiteKing)
        } else {
            None
        };
        proof {
            assert forall|k: u64| k < 64 && pos == 1u64 << k implies r == self.at(k as int) by {
                lemma_single_test(self.black_pawn, k);
                lemma_single_test(self.black_rook, k);
                lemma_single_test(self.black_knight, k);
                lemma_single_test(self.black_bishop, k);
                lemma_single_test(self.black_queen, k);
                lemma_single_test(self.black_king, k);
                lemma_single_test(self.white_pawn, k);
                lemma_single_test(self.white_rook, k);
                lemma_single_test(self.white_knight, k);
                lemma_single_test(self.white_bishop, k);
                lemma_single_test(self.white_queen, k);
                lemma_single_test(self.white_king, k);
            }
            if pos == 0 {
                crate::bits::lemma_and_zero(self.black_pawn);
                crate::bits::lemma_and_zero(self.black_rook);
                crate::bits::lemma_and_zero(self.black_knight);
                crate::bits::lemma_and_zero(self.black_bishop);
                crate::bits::lemma_and_zero(self.black_queen);
                crate::bits::lemma_and_zero(self.black_king);
                crate::bits::lemma_and_zero(self.white_pawn);
                crate::bits::lemma_and_zero(self.white_rook);
                crate::bits::lemma_and_zero(self.white_knight);
                crate::bits::lemma_and_zero(self.white_bishop);
                crate::bits::lemma_and_zero(self.white_queen);
                crate::bits::lemma_and_zero(self.white_king);
            }
        }
        r
    }

    /// The piece on the square in column `column`, row `row`.
    pub fn get_piece_pos(&self, column: u32, row: u32) -> (r: Option<PieceType>)
        requires
            column < 8,
            row < 8,
        ensures
            r == self.at(sq(column as int, row as int)),
    {
        let k: u64 = (column + row * 8) as u64;
        let pos: u64 = 1u64 << k;
        self.get_piece(pos)
    }

    /// Reads the column and row of the lowest set square of `pos`; with a
    /// single-square mask, that square's coordinates.
    pub fn get_column_row(&self, pos: u64) -> (r: (u32, u32))
        ensures
            forall|k: u64| k < 64 && pos == 1u64 << k ==> r.0 == k % 8 && r.1 == k / 8,
    {
        let trailing_zeros = pos.trailing_zeros();
        let column = trailing_zeros % 8;
        let row = trailing_zeros / 8;
        proof {
            assert forall|k: u64| k < 64 && pos == 1u64 << k implies column == k % 8 && row == k
                / 8 by {
                vstd::std_specs::bits::axiom_u64_trailing_zeros(pos);
                let t = vstd::std_specs::bits::u64_trailing_zeros(pos) as int;
                lemma_bit_single(k, k as int);
                assert(bit64(pos, k as int));
                crate::bits::lemma_bit_zero(k as int);
                assert(pos != 0);
                assert(t < 64);
                assert(bit64(pos, t));
                lemma_bit_single(k, t);
            }
        }
        (column, row)
    }

    /// Removes every square of `mask` from all twelve piece masks.
    pub fn mask(&mut self, mask: u64)
        ensures
            forall|p: PieceType|
                #[trigger] final(self).mask_of(p) == old(self).mask_of(p) & !mask,
            final(self).en_passant == old(self).en_passant,
            final(self).castling_rights == old(self).castling_rights,
    {
        self.black_pawn &= !mask;
        self.black_rook &= !mask;
        self.black_knight &= !mask;
        self.black_bishop &= !mask;
        self.black_queen &= !mask;
        self.black_king &= !mask;
        self.white_pawn &= !mask;
        self.white_rook &= !mask;
        self.white_knight &= !mask;
        self.white_bishop &= !mask;
        self.white_queen &= !mask;
        self.white_king &= !mask;
    }

    /// Empties the board: clears all piece masks and the en-passant mask.
    pub fn clear(&mut self)
        ensures
            forall|p: PieceType| #[trigger] final(self).mask_of(p) == 0u64,
            final(self).en_passant == 0u64,
            final(self).castling_rights == old(self).castling_rights,
    {
        self.black_pawn = 0;
        self.black_rook = 0;
        self.black_knight = 0;
        self.black_bishop = 0;
        self.black_queen = 0;
        self.black_king = 0;
        self.white_pawn = 0;
        self.white_rook = 0;
        self.white_knight = 0;
        self.white_bishop = 0;
        self.white_queen = 0;
        self.white_king = 0;
        self.en_passant = 0;
    }

    /// The union of the six black masks.
    pub fn get_black_pieces(&self) -> (r: u64)
        ensures
            r == self.occ_black(),
    {
        self.black_pawn | self.black_rook | self.black_knight | self.black_bishop
            | self.black_queen | self.black_king
    }

    /// The union of the six white masks.
    pub fn get_white_pieces(&self) -> (r: u64)
        ensures
            r == self.occ_white(),
    {
        self.white_pawn | self.white_rook | self.white_knight | self.white_bishop
            | self.white_queen | self.white_king
    }

    /// The union of all twelve masks.
    pub fn get_all_pieces(&self) -> (r: u64)
        ensures
            r == self.occ_all(),
    {
        self.get_black_pieces() | self.get_white_pieces()
    }
}

/// The signed value of the piece on square `i`: positive for white, negative
/// for black, nothing for an empty square.
pub open spec fn square_value(b: Board, i: int) -> int {
    match b.at(i) {
        Some(p) => if p.is_white() {
            p.point_value() as int
        } else {
            -(p.point_value() as int)
        },
        None => 0,
    }
}

/// The material balance over the first `n` squares.
pub open spec fn material_upto(b: Board, n: int) -> int
    decreases n,
{
    if n <= 0 {
        0
    } else {
        material_upto(b, n - 1) + square_value(b, n - 1)
    }
}

/// The material balance of the whole board, from white's point of view.
pub open spec fn material(b: Board) -> int {
    material_upto(b, 64)
}

/// Every square contributes at most a queen's value.
proof fn lemma_material_bound(b: Board, n: int)
    requires
        0 <= n <= 64,
    ensures
        -900 * n <= material_upto(b, n) <= 900 * n,
    decreases n,
{
    if n > 0 {
        lemma_material_bound(b, n - 1);
    }
}

impl Board {
    /// The points white is ahead by: the sum of the signed piece values over
    /// all 64 squares.
    pub fn points(&self) -> (r: i32)
        ensures
            r == material(*self),
    {
        let mut points: i32 = 0;
        let mut i: u64 = 0;
        while i < 64
            invariant
                i <= 64,
                points == material_upto(*self, i as int),
                -900 * (i as int) <= points <= 900 * (i as int),
            decreases 64 - i,
        {
            let pos: u64 = 1u64 << i;
            if let Some(piece) = self.get_piece(pos) {
                let v = piece.points() as i32;
                if piece.color() {
                    points += v;
                } else {
                    points -= v;
                }
            }
            i += 1;
        }
        points
    }
}

} // verus!
