//! Move generation, one generator per (color, piece kind) pair. Every
//! generator returns a mask whose bits are characterized square by square by
//! the destination predicates defined here: a piece never lands on a
//! same-color square, and a sliding piece stops at the first occupied square
//! of a ray, taking that square only when it holds an opposing piece.

use vstd::prelude::*;

use crate::bits::{bit64, lemma_and_nonzero, lemma_bit_and, lemma_bit_not, lemma_bit_or,
    lemma_bit_single, lemma_bit_zero, lemma_single_test};
use crate::board::{on_board, sq, Board};
use crate::piece::PieceType;

verus! {

/// Destinations of a black pawn on `(c, r)`: single push onto an empty
/// square, double push from row 1 through an empty square, diagonal captures
/// of white pieces, and the two en-passant captures from row 4.
pub open spec fn black_pawn_dest(b: Board, c: int, r: int, i: int) -> bool {
    ||| (r + 1 < 8 && i == sq(c, r + 1) && !bit64(b.occ_all(), i))
    ||| (r == 1 && i == sq(c, 3) && !bit64(b.occ_all(), sq(c, 2)) && !bit64(b.occ_all(), i))
    ||| (c > 0 && r + 1 < 8 && i == sq(c - 1, r + 1) && bit64(b.occ_white(), i))
    ||| (c < 7 && r + 1 < 8 && i == sq(c + 1, r + 1) && bit64(b.occ_white(), i))
    ||| (c > 0 && r == 4 && i == sq(c - 1, 5) && bit64(b.en_passant, i))
    ||| (c < 7 && r == 4 && i == sq(c + 1, 5) && bit64(b.en_passant, i))
}

/// Destinations of a white pawn on `(c, r)`, the mirror image of
/// `black_pawn_dest`: white pawns move toward lower rows.
pub open spec fn white_pawn_dest(b: Board, c: int, r: int, i: int) -> bool {
    ||| (r - 1 >= 0 && i == sq(c, r - 1) && !bit64(b.occ_all(), i))
    ||| (r == 6 && i == sq(c, 4) && !bit64(b.occ_all(), sq(c, 5)) && !bit64(b.occ_all(), i))
    ||| (c > 0 && r - 1 >= 0 && i == sq(c - 1, r - 1) && bit64(b.occ_black(), i))
    ||| (c < 7 && r - 1 >= 0 && i == sq(c + 1, r - 1) && bit64(b.occ_black(), i))
    ||| (c > 0 && r == 3 && i == sq(c - 1, 2) && bit64(b.en_passant, i))
    ||| (c < 7 && r == 3 && i == sq(c + 1, 2) && bit64(b.en_passant, i))
}

/// The eight knight jumps from `(c, r)` that stay on the board.
pub open spec fn knight_jump(c: int, r: int, i: int) -> bool {
    ||| (on_board(c - 1, r + 2) && i == sq(c - 1, r + 2))
    ||| (on_board(c + 1, r + 2) && i == sq(c + 1, r + 2))
    ||| (on_board(c - 1, r - 2) && i == sq(c - 1, r - 2))
    ||| (on_board(c + 1, r - 2) && i == sq(c + 1, r - 2))
    ||| (on_board(c - 2, r + 1) && i == sq(c - 2, r + 1))
    ||| (on_board(c - 2, r - 1) && i == sq(c - 2, r - 1))
    ||| (on_board(c + 2, r + 1) && i == sq(c + 2, r + 1))
    ||| (on_board(c + 2, r - 1) && i == sq(c + 2, r - 1))
}

/// Destinations of a knight of the given color: a jump not landing on a
/// same-color piece.
pub open spec fn knight_dest(b: Board, white: bool, c: int, r: int, i: int) -> bool {
    knight_jump(c, r, i) && !bit64(b.occ_color(white), i)
}

/// The squares of the ray from `(c, r)` in direction `(dc, dr)` strictly
/// before step `k` are all empty.
pub open spec fn ray_clear(b: Board, c: int, r: int, dc: int, dr: int, k: int) -> bool {
    forall|j: int|
        1 <= j < k ==> !#[trigger] bit64(b.occ_all(), sq(c + j * dc, r + j * dr))
}

/// Step `k` of the ray is a destination for a slider of the given color:
/// on the board, reached over empty squares, and itself empty or holding an
/// opposing piece.
pub open spec fn slide_hit(b: Board, white: bool, c: int, r: int, dc: int, dr: int, k: int) -> bool {
    &&& on_board(c + k * dc, r + k * dr)
    &&& ray_clear(b, c, r, dc, dr, k)
    &&& (!bit64(b.occ_all(), sq(c + k * dc, r + k * dr)) || bit64(
        b.occ_color(!white),
        sq(c + k * dc, r + k * dr),
    ))
}

/// Square `i` is a sliding destination from `(c, r)` in direction `(dc, dr)`.
pub open spec fn slide_dest(b: Board, white: bool, c: int, r: int, dc: int, dr: int, i: int) -> bool {
    exists|k: int|
        1 <= k <= 7 && #[trigger] slide_hit(b, white, c, r, dc, dr, k) && i == sq(
            c + k * dc,
            r + k * dr,
        )
}

/// Rook destinations: the four straight rays.
pub open spec fn rook_dest(b: Board, white: bool, c: int, r: int, i: int) -> bool {
    ||| slide_dest(b, white, c, r, 0, 1, i)
    ||| slide_dest(b, white, c, r, 0, -1, i)
    ||| slide_dest(b, white, c, r, -1, 0, i)
    ||| slide_dest(b, white, c, r, 1, 0, i)
}

/// Bishop destinations: the four diagonal rays.
pub open spec fn bishop_dest(b: Board, white: bool, c: int, r: int, i: int) -> bool {
    ||| slide_dest(b, white, c, r, -1, 1, i)
    ||| slide_dest(b, white, c, r, 1, 1, i)
    ||| slide_dest(b, white, c, r, -1, -1, i)
    ||| slide_dest(b, white, c, r, 1, -1, i)
}

/// Queen destinations: the union of the rook's and the bishop's.
pub open spec fn queen_dest(b: Board, white: bool, c: int, r: int, i: int) -> bool {
    rook_dest(b, white, c, r, i) || bishop_dest(b, white, c, r, i)
}

/// The eight squares adjacent to `(c, r)` that stay on the board.
pub open spec fn king_step(c: int, r: int, i: int) -> bool {
    ||| (on_board(c, r + 1) && i == sq(c, r + 1))
    ||| (on_board(c, r - 1) && i == sq(c, r - 1))
    ||| (on_board(c - 1, r) && i == sq(c - 1, r))
    ||| (on_board(c + 1, r) && i == sq(c + 1, r))
    ||| (on_board(c - 1, r + 1) && i == sq(c - 1, r + 1))
    ||| (on_board(c + 1, r + 1) && i == sq(c + 1, r + 1))
    ||| (on_board(c - 1, r - 1) && i == sq(c - 1, r - 1))
    ||| (on_board(c + 1, r - 1) && i == sq(c + 1, r - 1))
}

/// The squares a piece of kind `p` on `(c, r)` can move to, with the king
/// contributing its plain steps: this is what the attacked-square set is
/// built from, where castling adds no attack and the king's own safety
/// filter plays no part.
pub open spec fn attack_dest(b: Board, p: PieceType, c: int, r: int, i: int) -> bool {
    match p {
        PieceType::BlackPawn => black_pawn_dest(b, c, r, i),
        PieceType::WhitePawn => white_pawn_dest(b, c, r, i),
        PieceType::BlackRook => rook_dest(b, false, c, r, i),
        PieceType::WhiteRook => rook_dest(b, true, c, r, i),
        PieceType::BlackKnight => knight_dest(b, false, c, r, i),
        PieceType::WhiteKnight => knight_dest(b, true, c, r, i),
        PieceType::BlackBishop => bishop_dest(b, false, c, r, i),
        PieceType::WhiteBishop => bishop_dest(b, true, c, r, i),
        PieceType::BlackQueen => queen_dest(b, false, c, r, i),
        PieceType::WhiteQueen => queen_dest(b, true, c, r, i),
        PieceType::BlackKing => king_step(c, r, i) && !bit64(b.occ_black(), i),
        PieceType::WhiteKing => king_step(c, r, i) && !bit64(b.occ_white(), i),
    }
}

/// Square `s` holds a piece of the given color that can reach square `i`.
pub open spec fn attacker_at(b: Board, white: bool, s: int, i: int) -> bool {
    match b.at(s) {
        Some(p) => 0 <= s < 64 && p.is_white() == white && attack_dest(b, p, s % 8, s / 8, i),
        None => false,
    }
}

/// Square `i` can be reached by some piece of the given color: the
/// attacked-square set used for king safety.
pub open spec fn attacked(b: Board, white: bool, i: int) -> bool {
    exists|s: int| #[trigger] attacker_at(b, white, s, i)
}

/// The kingside castling destination of a king on `(c, r)`: the king is on
/// its home square, the right is held, the two squares toward the rook are
/// empty, and the transit square is not attacked.
pub open spec fn castle_kingside(b: Board, white: bool, c: int, r: int, i: int) -> bool {
    &&& (if white {
        b.castling_rights & 0b0001u8 != 0
    } else {
        b.castling_rights & 0b0100u8 != 0
    })
    &&& c == 4
    &&& r == (if white {
        7int
    } else {
        0int
    })
    &&& !bit64(b.occ_all(), sq(c + 1, r))
    &&& !bit64(b.occ_all(), sq(c + 2, r))
    &&& !attacked(b, !white, sq(c + 1, r))
    &&& i == sq(c + 2, r)
}

/// The queenside castling destination of a king on `(c, r)`: the king is on
/// its home square, the right is held, the three squares toward the rook are
/// empty, and the transit square is not attacked.
pub open spec fn castle_queenside(b: Board, white: bool, c: int, r: int, i: int) -> bool {
    &&& (if white {
        b.castling_rights & 0b0010u8 != 0
    } else {
        b.castling_rights & 0b1000u8 != 0
    })
    &&& c == 4
    &&& r == (if white {
        7int
    } else {
        0int
    })
    &&& !bit64(b.occ_all(), sq(c - 1, r))
    &&& !bit64(b.occ_all(), sq(c - 2, r))
    &&& !bit64(b.occ_all(), sq(c - 3, r))
    &&& !attacked(b, !white, sq(c - 1, r))
    &&& i == sq(c - 2, r)
}

/// Destinations of a king of the given color: a step or a castling
/// destination, not onto a same-color piece and never into the opponent's
/// attacked-square set.
pub open spec fn king_dest(b: Board, white: bool, c: int, r: int, i: int) -> bool {
    &&& (king_step(c, r, i) || castle_kingside(b, white, c, r, i) || castle_queenside(
        b,
        white,
        c,
        r,
        i,
    ))
    &&& !bit64(b.occ_color(white), i)
    &&& !attacked(b, !white, i)
}

/// The squares a piece of kind `p` on `(c, r)` may move to: as
/// `attack_dest`, except that the king also has its castling destinations
/// and excludes attacked squares.
pub open spec fn allowed_dest(b: Board, p: PieceType, c: int, r: int, i: int) -> bool {
    match p {
        PieceType::BlackKing => king_dest(b, false, c, r, i),
        PieceType::WhiteKing => king_dest(b, true, c, r, i),
        _ => attack_dest(b, p, c, r, i),
    }
}

/// Once a ray has left the board it does not come back.
proof fn lemma_ray_oob(x: int, d: int, k: int, kk: int)
    requires
        -1 <= d <= 1,
        0 <= x < 8,
        !(0 <= x + k * d < 8),
        1 <= k <= kk,
    ensures
        !(0 <= x + kk * d < 8),
{
    if d == 0 {
        assert(k * d == 0 && kk * d == 0) by (nonlinear_arith)
            requires
                d == 0,
        ;
    } else if d == 1 {
        assert(k * d == k && kk * d == kk) by (nonlinear_arith)
            requires
                d == 1,
        ;
    } else {
        assert(k * d == -k && kk * d == -kk) by (nonlinear_arith)
            requires
                d == -1,
        ;
    }
}

impl Board {
    /// Walks one ray from `(column, row)` in direction `(dc, dr)`, collecting
    /// destinations for a slider of the given color: empty squares up to and
    /// including the first occupied one, that one only when it holds an
    /// opposing piece.
    fn ray_moves(&self, column: u32, row: u32, dc: i32, dr: i32, white: bool) -> (m: u64)
        requires
            column < 8,
            row < 8,
            -1 <= dc <= 1,
            -1 <= dr <= 1,
            !(dc == 0 && dr == 0),
        ensures
            forall|i: int|
                #[trigger] bit64(m, i) <==> slide_dest(
                    *self,
                    white,
                    column as int,
                    row as int,
                    dc as int,
                    dr as int,
                    i,
                ),
    {
        let ghost c = column as int;
        let ghost r = row as int;
        let ghost dci = dc as int;
        let ghost dri = dr as int;
        let opp: u64 = if white {
            self.get_black_pieces()
        } else {
            self.get_white_pieces()
        };
        let all: u64 = self.get_all_pieces();
        let mut moves: u64 = 0;
        let mut blocked: bool = false;
        let mut k: u32 = 1;
        let mut cc: i32 = column as i32 + dc;
        let mut rr: i32 = row as i32 + dr;
        proof {
            assert forall|i: int| #[trigger] bit64(moves, i) <==> exists|kk: int|
                1 <= kk < 1 && #[trigger] slide_hit(*self, white, c, r, dci, dri, kk) && i == sq(
                c + kk * dci,
                r + kk * dri,
            ) by {
                lemma_bit_zero(i);
            }
        }
        while k <= 7 && !blocked && cc >= 0 && cc < 8 && rr >= 0 && rr < 8
            invariant
                column < 8,
                row < 8,
                -1 <= dc <= 1,
                -1 <= dr <= 1,
                !(dc == 0 && dr == 0),
                c == column as int,
                r == row as int,
                dci == dc as int,
                dri == dr as int,
                opp == self.occ_color(!white),
                all == self.occ_all(),
                1 <= k <= 8,
                cc == c + k * dci,
                rr == r + k * dri,
                !blocked ==> ray_clear(*self, c, r, dci, dri, k as int),
                blocked ==> 2 <= k && bit64(
                    self.occ_all(),
                    sq(c + (k - 1) * dci, r + (k - 1) * dri),
                ),
                forall|i: int|
                    #[trigger] bit64(moves, i) <==> exists|kk: int|
                        1 <= kk < k && #[trigger] slide_hit(*self, white, c, r, dci, dri, kk)
                            && i == sq(c + kk * dci, r + kk * dri),
            decreases 8 - k,
        {
            let ghost k0 = k as int;
            let ki: u64 = (cc + rr * 8) as u64;
            proof {
                assert(ki == sq(c + k0 * dci, r + k0 * dri));
                assert(on_board(c + k0 * dci, r + k0 * dri));
            }
            let t: u64 = 1u64 << ki;
            let ghost moves0 = moves;
            let hit_all = all & t != 0;
            let hit_opp = opp & t != 0;
            proof {
                lemma_single_test(all, ki);
                lemma_single_test(opp, ki);
            }
            if hit_all {
                if hit_opp {
                    moves = moves | t;
                }
                blocked = true;
            } else {
                moves = moves | t;
            }
            k = k + 1;
            cc = cc + dc;
            rr = rr + dr;
            proof {
                assert((k0 + 1) * dci == k0 * dci + dci) by (nonlinear_arith);
                assert((k0 + 1) * dri == k0 * dri + dri) by (nonlinear_arith);
                assert(slide_hit(*self, white, c, r, dci, dri, k0) == (!hit_all || hit_opp));
                if !blocked {
                    assert(ray_clear(*self, c, r, dci, dri, k0));
                    assert forall|j: int|
                        1 <= j < k0 + 1 implies !#[trigger] bit64(
                        self.occ_all(),
                        sq(c + j * dci, r + j * dri),
                    ) by {
                        let w = bit64(self.occ_all(), sq(c + j * dci, r + j * dri));
                        if j == k0 {
                            assert(sq(c + j * dci, r + j * dri) == ki as int);
                        }
                    }
                    assert(ray_clear(*self, c, r, dci, dri, k0 + 1));
                    assert(k as int == k0 + 1);
                } else {
                    assert(k - 1 == k0);
                    assert(bit64(self.occ_all(), sq(c + (k - 1) * dci, r + (k - 1) * dri)));
                }
                assert forall|i: int| #[trigger] bit64(moves, i) <==> (bit64(moves0, i) || ((
                !hit_all || hit_opp) && i == ki)) by {
                    lemma_bit_or(moves0, t, i);
                    lemma_bit_single(ki, i);
                }
                assert forall|i: int| #[trigger] bit64(moves, i) implies exists|kk: int|
                    1 <= kk < k && #[trigger] slide_hit(*self, white, c, r, dci, dri, kk) && i
                        == sq(c + kk * dci, r + kk * dri) by {
                    if bit64(moves0, i) {
                        let kk = choose|kk: int|
                            1 <= kk < k0 && #[trigger] slide_hit(*self, white, c, r, dci, dri, kk)
                                && i == sq(c + kk * dci, r + kk * dri);
                        assert(1 <= kk < k && slide_hit(*self, white, c, r, dci, dri, kk) && i
                            == sq(c + kk * dci, r + kk * dri));
                    } else {
                        assert(slide_hit(*self, white, c, r, dci, dri, k0) && i == sq(
                            c + k0 * dci,
                            r + k0 * dri,
                        ));
                    }
                }
                assert forall|i: int|
                    (exists|kk: int|
                        1 <= kk < k && #[trigger] slide_hit(*self, white, c, r, dci, dri, kk)
                            && i == sq(c + kk * dci, r + kk * dri)) implies #[trigger] bit64(
                    moves,
                    i,
                ) by {
                    let kk = choose|kk: int|
                        1 <= kk < k && #[trigger] slide_hit(*self, white, c, r, dci, dri, kk)
                            && i == sq(c + kk * dci, r + kk * dri);
                    if kk < k0 {
                        assert(bit64(moves0, i));
                    } else {
                        assert(kk == k0);
                        assert(i == ki as int);
                    }
                }
            }
        }
        proof {
            assert forall|kk: int| k <= kk <= 7 implies !slide_hit(
                *self,
                white,
                c,
                r,
                dci,
                dri,
                kk,
            ) by {
                if blocked {
                    let w = bit64(self.occ_all(), sq(c + (k - 1) * dci, r + (k - 1) * dri));
                    assert(w);
                    assert(1 <= k - 1 < kk);
                    assert(!ray_clear(*self, c, r, dci, dri, kk));
                } else if !(0 <= c + k * dci < 8) {
                    lemma_ray_oob(c, dci, k as int, kk);
                    assert(!on_board(c + kk * dci, r + kk * dri));
                } else {
                    lemma_ray_oob(r, dri, k as int, kk);
                    assert(!on_board(c + kk * dci, r + kk * dri));
                }
            }
            assert forall|i: int| #[trigger] bit64(moves, i) <==> slide_dest(
                *self,
                white,
                c,
                r,
                dci,
                dri,
                i,
            ) by {
                if bit64(moves, i) {
                    let kk = choose|kk: int|
                        1 <= kk < k && #[trigger] slide_hit(*self, white, c, r, dci, dri, kk)
                            && i == sq(c + kk * dci, r + kk * dri);
                    assert(slide_dest(*self, white, c, r, dci, dri, i));
                }
                if slide_dest(*self, white, c, r, dci, dri, i) {
                    let kk = choose|k2: int|
                        1 <= k2 <= 7 && #[trigger] slide_hit(*self, white, c, r, dci, dri, k2)
                            && i == sq(c + k2 * dci, r + k2 * dri);
                    assert(kk < k);
                    assert(bit64(moves, i));
                }
            }
        }
        moves
    }

    /// Black pawn moves from `(column, row)`: black pawns advance toward
    /// higher rows.
    pub fn get_allowed_black_pawn_moves(&self, column: u32, row: u32) -> (m: u64)
        requires
            column < 8,
            row < 8,
        ensures
            forall|i: int|
                #[trigger] bit64(m, i) <==> black_pawn_dest(
                    *self,
                    column as int,
                    row as int,
                    i,
                ),
    {
        let ghost c = column as int;
        let ghost r = row as int;
        let all = self.get_all_pieces();
        let white_occ = self.get_white_pieces();
        let base: u64 = (column + row * 8) as u64;
        let push1 = row < 7 && all & (1u64 << (base + 8)) == 0;
        let push2 = row == 1 && all & (1u64 << (base + 8)) == 0 && all & (1u64 << (base + 16))
            == 0;
        let capl = column > 0 && row < 7 && white_occ & (1u64 << (base + 7)) != 0;
        let capr = column < 7 && row < 7 && white_occ & (1u64 << (base + 9)) != 0;
        let epl = column > 0 && row == 4 && self.en_passant & (1u64 << (base + 7)) != 0;
        let epr = column < 7 && row == 4 && self.en_passant & (1u64 << (base + 9)) != 0;
        let mut moves: u64 = 0;
        let ghost m0 = moves;
        if push1 {
            moves = moves | (1u64 << (base + 8));
        }
        let ghost m1 = moves;
        if push2 {
            moves = moves | (1u64 << (base + 16));
        }
        let ghost m2 = moves;
        if capl || epl {
            moves = moves | (1u64 << (base + 7));
        }
        let ghost m3 = moves;
        if capr || epr {
            moves = moves | (1u64 << (base + 9));
        }
        proof {
            if row < 7 {
                lemma_single_test(all, (base + 8) as u64);
                if column > 0 {
                    lemma_single_test(white_occ, (base + 7) as u64);
                    lemma_single_test(self.en_passant, (base + 7) as u64);
                }
                if column < 7 {
                    lemma_single_test(white_occ, (base + 9) as u64);
                    lemma_single_test(self.en_passant, (base + 9) as u64);
                }
            }
            if row == 1 {
                lemma_single_test(all, (base + 16) as u64);
            }
            assert(push1 <==> (r + 1 < 8 && !bit64(self.occ_all(), sq(c, r + 1))));
            assert(push2 <==> (r == 1 && !bit64(self.occ_all(), sq(c, 2)) && !bit64(
                self.occ_all(),
                sq(c, 3),
            )));
            assert(capl <==> (c > 0 && r + 1 < 8 && bit64(self.occ_white(), sq(c - 1, r + 1))));
            assert(capr <==> (c < 7 && r + 1 < 8 && bit64(self.occ_white(), sq(c + 1, r + 1))));
            assert(epl <==> (c > 0 && r == 4 && bit64(self.en_passant, sq(c - 1, 5))));
            assert(epr <==> (c < 7 && r == 4 && bit64(self.en_passant, sq(c + 1, 5))));
            assert forall|i: int| #[trigger] bit64(moves, i) <==> black_pawn_dest(
                *self,
                c,
                r,
                i,
            ) by {
                lemma_bit_zero(i);
                if row < 7 {
                    lemma_bit_single((base + 8) as u64, i);
                    lemma_bit_or(m0, 1u64 << (base + 8), i);
                    if column > 0 {
                        lemma_bit_single((base + 7) as u64, i);
                        lemma_bit_or(m2, 1u64 << (base + 7), i);
                    }
                    if column < 7 {
                        lemma_bit_single((base + 9) as u64, i);
                        lemma_bit_or(m3, 1u64 << (base + 9), i);
                    }
                }
                if row == 1 {
                    lemma_bit_single((base + 16) as u64, i);
                    lemma_bit_or(m1, 1u64 << (base + 16), i);
                }
            }
        }
        moves
    }

    /// White pawn moves from `(column, row)`: white pawns advance toward
    /// lower rows.
    pub fn get_allowed_white_pawn_moves(&self, column: u32, row: u32) -> (m: u64)
        requires
            column < 8,
            row < 8,
        ensures
            forall|i: int|
                #[trigger] bit64(m, i) <==> white_pawn_dest(
                    *self,
                    column as int,
                    row as int,
                    i,
                ),
    {
        let ghost c = column as int;
        let ghost r = row as int;
        let all = self.get_all_pieces();
        let black_occ = self.get_black_pieces();
        let base: u64 = (column + row * 8) as u64;
        let push1 = row > 0 && all & (1u64 << (base - 8)) == 0;
        let push2 = row == 6 && all & (1u64 << (base - 8)) == 0 && all & (1u64 << (base - 16))
            == 0;
        let capl = column > 0 && row > 0 && black_occ & (1u64 << (base - 9)) != 0;
        let capr = column < 7 && row > 0 && black_occ & (1u64 << (base - 7)) != 0;
        let epl = column > 0 && row == 3 && self.en_passant & (1u64 << (base - 9)) != 0;
        let epr = column < 7 && row == 3 && self.en_passant & (1u64 << (base - 7)) != 0;
        let mut moves: u64 = 0;
        let ghost m0 = moves;
        if push1 {
            moves = moves | (1u64 << (base - 8));
        }
        let ghost m1 = moves;
        if push2 {
            moves = moves | (1u64 << (base - 16));
        }
        let ghost m2 = moves;
        if capl || epl {
            moves = moves | (1u64 << (base - 9));
        }
        let ghost m3 = moves;
        if capr || epr {
            moves = moves | (1u64 << (base - 7));
        }
        proof {
            if row > 0 {
                lemma_single_test(all, (base - 8) as u64);
                if column > 0 {
                    lemma_single_test(black_occ, (base - 9) as u64);
                    lemma_single_test(self.en_passant, (base - 9) as u64);
                }
                if column < 7 {
                    lemma_single_test(black_occ, (base - 7) as u64);
                    lemma_single_test(self.en_passant, (base - 7) as u64);
                }
            }
            if row == 6 {
                lemma_single_test(all, (base - 16) as u64);
            }
            assert(push1 <==> (r - 1 >= 0 && !bit64(self.occ_all(), sq(c, r - 1))));
            assert(push2 <==> (r == 6 && !bit64(self.occ_all(), sq(c, 5)) && !bit64(
                self.occ_all(),
                sq(c, 4),
            )));
            assert(capl <==> (c > 0 && r - 1 >= 0 && bit64(self.occ_black(), sq(c - 1, r - 1))));
            assert(capr <==> (c < 7 && r - 1 >= 0 && bit64(self.occ_black(), sq(c + 1, r - 1))));
            assert(epl <==> (c > 0 && r == 3 && bit64(self.en_passant, sq(c - 1, 2))));
            assert(epr <==> (c < 7 && r == 3 && bit64(self.en_passant, sq(c + 1, 2))));
            assert forall|i: int| #[trigger] bit64(moves, i) <==> white_pawn_dest(
                *self,
                c,
                r,
                i,
            ) by {
                lemma_bit_zero(i);
                if row > 0 {
                    lemma_bit_single((base - 8) as u64, i);
                    lemma_bit_or(m0, 1u64 << (base - 8), i);
                    if column > 0 {
                        lemma_bit_single((base - 9) as u64, i);
                        lemma_bit_or(m2, 1u64 << (base - 9), i);
                    }
                    if column < 7 {
                        lemma_bit_single((base - 7) as u64, i);
                        lemma_bit_or(m3, 1u64 << (base - 7), i);
                    }
                }
                if row == 6 {
                    lemma_bit_single((base - 16) as u64, i);
                    lemma_bit_or(m1, 1u64 << (base - 16), i);
                }
            }
        }
        moves
    }

    /// The mask of the eight knight jumps from `(column, row)` that stay on
    /// the board, before removing same-color squares.
    fn knight_jump_moves(&self, column: u32, row: u32) -> (m: u64)
        requires
            column < 8,
            row < 8,
        ensures
            forall|i: int| #[trigger] bit64(m, i) <==> knight_jump(column as int, row as int, i),
    {
        let ghost c = column as int;
        let ghost r = row as int;
        let base: u64 = (column + row * 8) as u64;
        let mut moves: u64 = 0;
        let ghost m0 = moves;
        if row < 6 && column > 0 {
            moves = moves | (1u64 << (base + 15));
        }
        let ghost m1 = moves;
        if row < 6 && column < 7 {
            moves = moves | (1u64 << (base + 17));
        }
        let ghost m2 = moves;
        if row > 1 && column > 0 {
            moves = moves | (1u64 << (base - 17));
        }
        let ghost m3 = moves;
        if row > 1 && column < 7 {
            moves = moves | (1u64 << (base - 15));
        }
        let ghost m4 = moves;
        if column > 1 && row < 7 {
            moves = moves | (1u64 << (base + 6));
        }
        let ghost m5 = moves;
        if column > 1 && row > 0 {
            moves = moves | (1u64 << (base - 10));
        }
        let ghost m6 = moves;
        if column < 6 && row < 7 {
            moves = moves | (1u64 << (base + 10));
        }
        let ghost m7 = moves;
        if column < 6 && row > 0 {
            moves = moves | (1u64 << (base - 6));
        }
        proof {
            assert forall|i: int| #[trigger] bit64(moves, i) <==> knight_jump(c, r, i) by {
                lemma_bit_zero(i);
                if row < 6 && column > 0 {
                    lemma_bit_single((base + 15) as u64, i);
                    lemma_bit_or(m0, 1u64 << (base + 15), i);
                }
                if row < 6 && column < 7 {
                    lemma_bit_single((base + 17) as u64, i);
                    lemma_bit_or(m1, 1u64 << (base + 17), i);
                }
                if row > 1 && column > 0 {
                    lemma_bit_single((base - 17) as u64, i);
                    lemma_bit_or(m2, 1u64 << (base - 17), i);
                }
                if row > 1 && column < 7 {
                    lemma_bit_single((base - 15) as u64, i);
                    lemma_bit_or(m3, 1u64 << (base - 15), i);
                }
                if column > 1 && row < 7 {
                    lemma_bit_single((base + 6) as u64, i);
                    lemma_bit_or(m4, 1u64 << (base + 6), i);
                }
                if column > 1 && row > 0 {
                    lemma_bit_single((base - 10) as u64, i);
                    lemma_bit_or(m5, 1u64 << (base - 10), i);
                }
                if column < 6 && row < 7 {
                    lemma_bit_single((base + 10) as u64, i);
                    lemma_bit_or(m6, 1u64 << (base + 10), i);
                }
                if column < 6 && row > 0 {
                    lemma_bit_single((base - 6) as u64, i);
                    lemma_bit_or(m7, 1u64 << (base - 6), i);
                }
            }
        }
        moves
    }

    /// Black knight moves from `(column, row)`.
    pub fn get_allowed_black_knight_moves(&self, column: u32, row: u32) -> (m: u64)
        requires
            column < 8,
            row < 8,
        ensures
            forall|i: int|
                #[trigger] bit64(m, i) <==> knight_dest(
                    *self,
                    false,
                    column as int,
                    row as int,
                    i,
                ),
    {
        let jumps = self.knight_jump_moves(column, row);
        let own = self.get_black_pieces();
        let m = jumps & !own;
        proof {
            assert forall|i: int| #[trigger] bit64(m, i) <==> knight_dest(
                *self,
                false,
                column as int,
                row as int,
                i,
            ) by {
                lemma_bit_and(jumps, !own, i);
                lemma_bit_not(own, i);
            }
        }
        m
    }

    /// White knight moves from `(column, row)`.
    pub fn get_allowed_white_knight_moves(&self, column: u32, row: u32) -> (m: u64)
        requires
            column < 8,
            row < 8,
        ensures
            forall|i: int|
                #[trigger] bit64(m, i) <==> knight_dest(
                    *self,
                    true,
                    column as int,
                    row as int,
                    i,
                ),
    {
        let jumps = self.knight_jump_moves(column, row);
        let own = self.get_white_pieces();
        let m = jumps & !own;
        proof {
            assert forall|i: int| #[trigger] bit64(m, i) <==> knight_dest(
                *self,
                true,
                column as int,
                row as int,
                i,
            ) by {
                lemma_bit_and(jumps, !own, i);
                lemma_bit_not(own, i);
            }
        }
        m
    }

    /// Black rook moves from `(column, row)`.
    pub fn get_allowed_black_rook_moves(&self, column: u32, row: u32) -> (m: u64)
        requires
            column < 8,
            row < 8,
        ensures
            forall|i: int|
                #[trigger] bit64(m, i) <==> rook_dest(*self, false, column as int, row as int, i),
    {
        let up = self.ray_moves(column, row, 0, 1, false);
        let down = self.ray_moves(column, row, 0, -1, false);
        let left = self.ray_moves(column, row, -1, 0, false);
        let right = self.ray_moves(column, row, 1, 0, false);
        let m = up | down | left | right;
        proof {
            assert forall|i: int| #[trigger] bit64(m, i) <==> rook_dest(
                *self,
                false,
                column as int,
                row as int,
                i,
            ) by {
                lemma_bit_or(up, down, i);
                lemma_bit_or(up | down, left, i);
                lemma_bit_or(up | down | left, right, i);
            }
        }
        m
    }

    /// White rook moves from `(column, row)`.
    pub fn get_allowed_white_rook_moves(&self, column: u32, row: u32) -> (m: u64)
        requires
            column < 8,
            row < 8,
        ensures
            forall|i: int|
                #[trigger] bit64(m, i) <==> rook_dest(*self, true, column as int, row as int, i),
    {
        let up = self.ray_moves(column, row, 0, 1, true);
        let down = self.ray_moves(column, row, 0, -1, true);
        let left = self.ray_moves(column, row, -1, 0, true);
        let right = self.ray_moves(column, row, 1, 0, true);
        let m = up | down | left | right;
        proof {
            assert forall|i: int| #[trigger] bit64(m, i) <==> rook_dest(
                *self,
                true,
                column as int,
                row as int,
                i,
            ) by {
                lemma_bit_or(up, down, i);
                lemma_bit_or(up | down, left, i);
                lemma_bit_or(up | down | left, right, i);
            }
        }
        m
    }

    /// Black bishop moves from `(column, row)`.
    pub fn get_allowed_black_bishop_moves(&self, column: u32, row: u32) -> (m: u64)
        requires
            column < 8,
            row < 8,
        ensures
            forall|i: int|
                #[trigger] bit64(m, i) <==> bishop_dest(*self, false, column as int, row as int, i),
    {
        let ul = self.ray_moves(column, row, -1, 1, false);
        let ur = self.ray_moves(column, row, 1, 1, false);
        let dl = self.ray_moves(column, row, -1, -1, false);
        let dr = self.ray_moves(column, row, 1, -1, false);
        let m = ul | ur | dl | dr;
        proof {
            assert forall|i: int| #[trigger] bit64(m, i) <==> bishop_dest(
                *self,
                false,
                column as int,
                row as int,
                i,
            ) by {
                lemma_bit_or(ul, ur, i);
                lemma_bit_or(ul | ur, dl, i);
                lemma_bit_or(ul | ur | dl, dr, i);
            }
        }
        m
    }

    /// White bishop moves from `(column, row)`.
    pub fn get_allowed_white_bishop_moves(&self, column: u32, row: u32) -> (m: u64)
        requires
            column < 8,
            row < 8,
        ensures
            forall|i: int|
                #[trigger] bit64(m, i) <==> bishop_dest(*self, true, column as int, row as int, i),
    {
        let ul = self.ray_moves(column, row, -1, 1, true);
        let ur = self.ray_moves(column, row, 1, 1, true);
        let dl = self.ray_moves(column, row, -1, -1, true);
        let dr = self.ray_moves(column, row, 1, -1, true);
        let m = ul | ur | dl | dr;
        proof {
            assert forall|i: int| #[trigger] bit64(m, i) <==> bishop_dest(
                *self,
                true,
                column as int,
                row as int,
                i,
            ) by {
                lemma_bit_or(ul, ur, i);
                lemma_bit_or(ul | ur, dl, i);
                lemma_bit_or(ul | ur | dl, dr, i);
            }
        }
        m
    }

    /// Black queen moves: rook and bishop rays together.
    pub fn get_allowed_black_queen_moves(&self, column: u32, row: u32) -> (m: u64)
        requires
            column < 8,
            row < 8,
        ensures
            forall|i: int|
                #[trigger] bit64(m, i) <==> queen_dest(*self, false, column as int, row as int, i),
    {
        let b = self.get_allowed_black_bishop_moves(column, row);
        let r = self.get_allowed_black_rook_moves(column, row);
        let m = b | r;
        proof {
            assert forall|i: int| #[trigger] bit64(m, i) <==> queen_dest(
                *self,
                false,
                column as int,
                row as int,
                i,
            ) by {
                lemma_bit_or(b, r, i);
            }
        }
        m
    }

    /// White queen moves: rook and bishop rays together.
    pub fn get_allowed_white_queen_moves(&self, column: u32, row: u32) -> (m: u64)
        requires
            column < 8,
            row < 8,
        ensures
            forall|i: int|
                #[trigger] bit64(m, i) <==> queen_dest(*self, true, column as int, row as int, i),
    {
        let b = self.get_allowed_white_bishop_moves(column, row);
        let r = self.get_allowed_white_rook_moves(column, row);
        let m = b | r;
        proof {
            assert forall|i: int| #[trigger] bit64(m, i) <==> queen_dest(
                *self,
                true,
                column as int,
                row as int,
                i,
            ) by {
                lemma_bit_or(b, r, i);
            }
        }
        m
    }
}

impl Board {
    /// The mask of the eight squares adjacent to `(column, row)`.
    fn king_step_moves(&self, column: u32, row: u32) -> (m: u64)
        requires
            column < 8,
            row < 8,
        ensures
            forall|i: int| #[trigger] bit64(m, i) <==> king_step(column as int, row as int, i),
    {
        let ghost c = column as int;
        let ghost r = row as int;
        let base: u64 = (column + row * 8) as u64;
        let mut moves: u64 = 0;
        let ghost m0 = moves;
        if row < 7 {
            moves = moves | (1u64 << (base + 8));
        }
        let ghost m1 = moves;
        if row > 0 {
            moves = moves | (1u64 << (base - 8));
        }
        let ghost m2 = moves;
        if column > 0 {
            moves = moves | (1u64 << (base - 1));
        }
        let ghost m3 = moves;
        if column < 7 {
            moves = moves | (1u64 << (base + 1));
        }
        let ghost m4 = moves;
        if row < 7 && column > 0 {
            moves = moves | (1u64 << (base + 7));
        }
        let ghost m5 = moves;
        if row < 7 && column < 7 {
            moves = moves | (1u64 << (base + 9));
        }
        let ghost m6 = moves;
        if row > 0 && column > 0 {
            moves = moves | (1u64 << (base - 9));
        }
        let ghost m7 = moves;
        if row > 0 && column < 7 {
            moves = moves | (1u64 << (base - 7));
        }
        proof {
            assert forall|i: int| #[trigger] bit64(moves, i) <==> king_step(c, r, i) by {
                lemma_bit_zero(i);
                if row < 7 {
                    lemma_bit_single((base + 8) as u64, i);
                    lemma_bit_or(m0, 1u64 << (base + 8), i);
                }
                if row > 0 {
                    lemma_bit_single((base - 8) as u64, i);
                    lemma_bit_or(m1, 1u64 << (base - 8), i);
                }
                if column > 0 {
                    lemma_bit_single((base - 1) as u64, i);
                    lemma_bit_or(m2, 1u64 << (base - 1), i);
                }
                if column < 7 {
                    lemma_bit_single((base + 1) as u64, i);
                    lemma_bit_or(m3, 1u64 << (base + 1), i);
                }
                if row < 7 && column > 0 {
                    lemma_bit_single((base + 7) as u64, i);
                    lemma_bit_or(m4, 1u64 << (base + 7), i);
                }
                if row < 7 && column < 7 {
                    lemma_bit_single((base + 9) as u64, i);
                    lemma_bit_or(m5, 1u64 << (base + 9), i);
                }
                if row > 0 && column > 0 {
                    lemma_bit_single((base - 9) as u64, i);
                    lemma_bit_or(m6, 1u64 << (base - 9), i);
                }
                if row > 0 && column < 7 {
                    lemma_bit_single((base - 7) as u64, i);
                    lemma_bit_or(m7, 1u64 << (base - 7), i);
                }
            }
        }
        moves
    }

    /// The squares a king of the given color threatens: its adjacent steps,
    /// less its own color's squares.
    fn king_attack_moves(&self, column: u32, row: u32, white: bool) -> (m: u64)
        requires
            column < 8,
            row < 8,
        ensures
            forall|i: int|
                #[trigger] bit64(m, i) <==> (king_step(column as int, row as int, i) && !bit64(
                    self.occ_color(white),
                    i,
                )),
    {
        let steps = self.king_step_moves(column, row);
        let own = if white {
            self.get_white_pieces()
        } else {
            self.get_black_pieces()
        };
        let m = steps & !own;
        proof {
            assert forall|i: int| #[trigger] bit64(m, i) <==> (king_step(
                column as int,
                row as int,
                i,
            ) && !bit64(self.occ_color(white), i)) by {
                lemma_bit_and(steps, !own, i);
                lemma_bit_not(own, i);
            }
        }
        m
    }

    /// The union, over every piece of the given color, of the squares it can
    /// reach: the attacked-square set used for king safety. The king
    /// contributes its plain adjacent steps, since castling reaches no new
    /// square by attack and the safety filter does not change what a king
    /// threatens.
    pub fn get_all_moves(&self, color: bool) -> (m: u64)
        ensures
            forall|i: int| #[trigger] bit64(m, i) <==> attacked(*self, color, i),
    {
        let mut moves: u64 = 0;
        let mut s: u32 = 0;
        proof {
            assert forall|i: int| !#[trigger] bit64(moves, i) by {
                lemma_bit_zero(i);
            }
        }
        while s < 64
            invariant
                s <= 64,
                forall|i: int|
                    #[trigger] bit64(moves, i) <==> exists|s2: int|
                        s2 < s && #[trigger] attacker_at(*self, color, s2, i),
            decreases 64 - s,
        {
            let ghost s0 = s as int;
            let ghost moves0 = moves;
            let pos: u64 = 1u64 << (s as u64);
            let column = s % 8;
            let row = s / 8;
            proof {
                vstd::arithmetic::div_mod::lemma_fundamental_div_mod(s as int, 8);
            }
            let piece_opt = self.get_piece(pos);
            let m_add: u64 = match piece_opt {
                Some(PieceType::BlackPawn) => if !color {
                    self.get_allowed_black_pawn_moves(column, row)
                } else {
                    0
                },
                Some(PieceType::WhitePawn) => if color {
                    self.get_allowed_white_pawn_moves(column, row)
                } else {
                    0
                },
                Some(PieceType::BlackRook) => if !color {
                    self.get_allowed_black_rook_moves(column, row)
                } else {
                    0
                },
                Some(PieceType::WhiteRook) => if color {
                    self.get_allowed_white_rook_moves(column, row)
                } else {
                    0
                },
                Some(PieceType::BlackKnight) => if !color {
                    self.get_allowed_black_knight_moves(column, row)
                } else {
                    0
                },
                Some(PieceType::WhiteKnight) => if color {
                    self.get_allowed_white_knight_moves(column, row)
                } else {
                    0
                },
                Some(PieceType::BlackBishop) => if !color {
                    self.get_allowed_black_bishop_moves(column, row)
                } else {
                    0
                },
                Some(PieceType::WhiteBishop) => if color {
                    self.get_allowed_white_bishop_moves(column, row)
                } else {
                    0
                },
                Some(PieceType::BlackQueen) => if !color {
                    self.get_allowed_black_queen_moves(column, row)
                } else {
                    0
                },
                Some(PieceType::WhiteQueen) => if color {
                    self.get_allowed_white_queen_moves(column, row)
                } else {
                    0
                },
                Some(PieceType::BlackKing) => if !color {
                    self.king_attack_moves(column, row, false)
                } else {
                    0
                },
                Some(PieceType::WhiteKing) => if color {
                    self.king_attack_moves(column, row, true)
                } else {
                    0
                },
                None => 0,
            };
            proof {
                assert forall|i: int| #[trigger] bit64(m_add, i) <==> attacker_at(
                    *self,
                    color,
                    s0,
                    i,
                ) by {
                    lemma_bit_zero(i);
                }
            }
            moves = moves | m_add;
            s = s + 1;
            proof {
                assert forall|i: int| #[trigger] bit64(moves, i) implies exists|s2: int|
                    s2 < s && #[trigger] attacker_at(*self, color, s2, i) by {
                    lemma_bit_or(moves0, m_add, i);
                    if bit64(moves0, i) {
                        let s2 = choose|s2: int|
                            s2 < s0 && #[trigger] attacker_at(*self, color, s2, i);
                        assert(s2 < s && attacker_at(*self, color, s2, i));
                    } else {
                        assert(s0 < s && attacker_at(*self, color, s0, i));
                    }
                }
                assert forall|i: int|
                    (exists|s2: int|
                        s2 < s && #[trigger] attacker_at(*self, color, s2, i)) implies #[trigger] bit64(
                    moves,
                    i,
                ) by {
                    lemma_bit_or(moves0, m_add, i);
                    let s2 = choose|s2: int| s2 < s && #[trigger] attacker_at(*self, color, s2, i);
                    if s2 < s0 {
                        assert(bit64(moves0, i));
                    } else {
                        assert(s2 == s0);
                        assert(bit64(m_add, i));
                    }
                }
            }
        }
        moves
    }

    /// King moves of the given color from `(column, row)`: the adjacent
    /// steps and the two castling destinations, never onto a same-color
    /// piece and never into the opponent's attacked-square set.
    fn king_moves(&self, column: u32, row: u32, white: bool) -> (m: u64)
        requires
            column < 8,
            row < 8,
        ensures
            forall|i: int|
                #[trigger] bit64(m, i) <==> king_dest(*self, white, column as int, row as int, i),
    {
        let ghost c = column as int;
        let ghost r = row as int;
        let base: u64 = (column + row * 8) as u64;
        let all = self.get_all_pieces();
        let own = if white {
            self.get_white_pieces()
        } else {
            self.get_black_pieces()
        };
        let danger = self.get_all_moves(!white);
        let mut moves: u64 = self.king_step_moves(column, row);
        let ghost m0 = moves;
        let kflag: u8 = if white {
            0b0001u8
        } else {
            0b0100u8
        };
        let qflag: u8 = if white {
            0b0010u8
        } else {
            0b1000u8
        };
        let home: u32 = if white {
            7
        } else {
            0
        };
        let castle_k = self.castling_rights & kflag != 0 && column == 4 && row == home && all & (
        1u64 << (base + 1)) == 0 && all & (1u64 << (base + 2)) == 0 && danger & (1u64 << (base
            + 1)) == 0;
        if castle_k {
            moves = moves | (1u64 << (base + 2));
        }
        let ghost m1 = moves;
        let castle_q = self.castling_rights & qflag != 0 && column == 4 && row == home && all & (
        1u64 << (base - 1)) == 0 && all & (1u64 << (base - 2)) == 0 && all & (1u64 << (base - 3))
            == 0 && danger & (1u64 << (base - 1)) == 0;
        if castle_q {
            moves = moves | (1u64 << (base - 2));
        }
        let m = moves & !own & !danger;
        proof {
            if column == 4 {
                lemma_single_test(all, (base + 1) as u64);
                lemma_single_test(all, (base + 2) as u64);
                lemma_single_test(danger, (base + 1) as u64);
                lemma_single_test(all, (base - 1) as u64);
                lemma_single_test(all, (base - 2) as u64);
                lemma_single_test(all, (base - 3) as u64);
                lemma_single_test(danger, (base - 1) as u64);
            }
            assert(castle_k <==> castle_kingside(*self, white, c, r, sq(c + 2, r)));
            assert(castle_q <==> castle_queenside(*self, white, c, r, sq(c - 2, r)));
            assert forall|i: int| #[trigger] bit64(m, i) <==> king_dest(*self, white, c, r, i) by {
                lemma_bit_and(moves & !own, !danger, i);
                lemma_bit_and(moves, !own, i);
                lemma_bit_not(own, i);
                lemma_bit_not(danger, i);
                if column == 4 {
                    lemma_bit_single((base + 2) as u64, i);
                    lemma_bit_or(m0, 1u64 << (base + 2), i);
                    lemma_bit_single((base - 2) as u64, i);
                    lemma_bit_or(m1, 1u64 << (base - 2), i);
                }
                if castle_kingside(*self, white, c, r, i) {
                    assert(i == sq(c + 2, r));
                }
                if castle_queenside(*self, white, c, r, i) {
                    assert(i == sq(c - 2, r));
                }
            }
        }
        m
    }

    /// Black king moves from `(column, row)`.
    pub fn get_allowed_black_king_moves(&self, column: u32, row: u32) -> (m: u64)
        requires
            column < 8,
            row < 8,
        ensures
            forall|i: int|
                #[trigger] bit64(m, i) <==> king_dest(*self, false, column as int, row as int, i),
    {
        self.king_moves(column, row, false)
    }

    /// White king moves from `(column, row)`.
    pub fn get_allowed_white_king_moves(&self, column: u32, row: u32) -> (m: u64)
        requires
            column < 8,
            row < 8,
        ensures
            forall|i: int|
                #[trigger] bit64(m, i) <==> king_dest(*self, true, column as int, row as int, i),
    {
        self.king_moves(column, row, true)
    }

    /// The allowed destinations of the piece on `(column, row)`, which must
    /// exist and have the asserted color: anything else is a caller error.
    pub fn get_allowed_moves(&self, column: u32, row: u32, color: bool) -> (m: u64)
        requires
            column < 8,
            row < 8,
            self.at(sq(column as int, row as int)) is Some,
            self.at(sq(column as int, row as int))->0.is_white() == color,
        ensures
            forall|i: int|
                #[trigger] bit64(m, i) <==> allowed_dest(
                    *self,
                    self.at(sq(column as int, row as int))->0,
                    column as int,
                    row as int,
                    i,
                ),
    {
        let piece = self.get_piece_pos(column, row);
        match piece.unwrap() {
            PieceType::WhitePawn => self.get_allowed_white_pawn_moves(column, row),
            PieceType::WhiteRook => self.get_allowed_white_rook_moves(column, row),
            PieceType::WhiteKnight => self.get_allowed_white_knight_moves(column, row),
            PieceType::WhiteBishop => self.get_allowed_white_bishop_moves(column, row),
            PieceType::WhiteQueen => self.get_allowed_white_queen_moves(column, row),
            PieceType::WhiteKing => self.get_allowed_white_king_moves(column, row),
            PieceType::BlackPawn => self.get_allowed_black_pawn_moves(column, row),
            PieceType::BlackRook => self.get_allowed_black_rook_moves(column, row),
            PieceType::BlackKnight => self.get_allowed_black_knight_moves(column, row),
            PieceType::BlackBishop => self.get_allowed_black_bishop_moves(column, row),
            PieceType::BlackQueen => self.get_allowed_black_queen_moves(column, row),
            PieceType::BlackKing => self.get_allowed_black_king_moves(column, row),
        }
    }

    /// Whether moving the piece on the `from` square to a square of `to` is
    /// allowed for the given color. `from` must be a single occupied square;
    /// a piece of the other color answers false.
    pub fn is_legal_move(&self, from: u64, to: u64, color: bool) -> (r: bool)
        requires
            exists|k: u64| k < 64 && from == 1u64 << k && self.at(k as int) is Some,
        ensures
            forall|k: u64|
                k < 64 && from == 1u64 << k ==> (r <==> (self.at(k as int)->0.is_white() == color
                    && exists|i: int|
                    #[trigger] bit64(to, i) && allowed_dest(
                        *self,
                        self.at(k as int)->0,
                        (k % 8) as int,
                        (k / 8) as int,
                        i,
                    ))),
    {
        let ghost gk = choose|k: u64| k < 64 && from == 1u64 << k && self.at(k as int) is Some;
        let (from_column, from_row) = self.get_column_row(from);
        let piece = self.get_piece(from);
        proof {
            assert(from_column == gk % 8 && from_row == gk / 8);
            assert(piece == self.at(gk as int));
        }
        let p = piece.unwrap();
        if (!p.color() && color) || (p.color() && !color) {
            return false;
        }
        let allowed = match p {
            PieceType::BlackPawn => self.get_allowed_black_pawn_moves(from_column, from_row),
            PieceType::BlackRook => self.get_allowed_black_rook_moves(from_column, from_row),
            PieceType::BlackKnight => self.get_allowed_black_knight_moves(from_column, from_row),
            PieceType::BlackBishop => self.get_allowed_black_bishop_moves(from_column, from_row),
            PieceType::BlackQueen => self.get_allowed_black_queen_moves(from_column, from_row),
            PieceType::BlackKing => self.get_allowed_black_king_moves(from_column, from_row),
            PieceType::WhitePawn => self.get_allowed_white_pawn_moves(from_column, from_row),
            PieceType::WhiteRook => self.get_allowed_white_rook_moves(from_column, from_row),
            PieceType::WhiteKnight => self.get_allowed_white_knight_moves(from_column, from_row),
            PieceType::WhiteBishop => self.get_allowed_white_bishop_moves(from_column, from_row),
            PieceType::WhiteQueen => self.get_allowed_white_queen_moves(from_column, from_row),
            PieceType::WhiteKing => self.get_allowed_white_king_moves(from_column, from_row),
        };
        let r = allowed & to != 0;
        proof {
            lemma_and_nonzero(allowed, to);
        }
        r
    }
}

} // verus!
