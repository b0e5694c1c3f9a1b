//! Laws of move generation, stated over the destination predicates that the
//! generators' contracts are written in: no piece may land on a same-color
//! square, sliding rays never jump a blocker, and a castling destination
//! disappears as soon as a transit square is occupied or attacked.

use vstd::prelude::*;

use crate::bits::bit64;
use crate::board::{lemma_occ, on_board, sq, Board};
use crate::movegen::{allowed_dest, attacked, bishop_dest, castle_kingside, castle_queenside,
    king_dest, king_step, queen_dest, ray_clear, rook_dest, slide_dest, slide_hit};
use crate::piece::PieceType;

verus! {

/// No sliding destination square can hold a piece of the slider's color.
proof fn lemma_slide_no_own(b: Board, white: bool, c: int, r: int, dc: int, dr: int, i: int, q: PieceType)
    requires
        b.inv(),
        0 <= i < 64,
        b.at(i) == Some(q),
        q.is_white() == white,
    ensures
        !slide_dest(b, white, c, r, dc, dr, i),
{
    if slide_dest(b, white, c, r, dc, dr, i) {
        let k = choose|k: int|
            1 <= k <= 7 && #[trigger] slide_hit(b, white, c, r, dc, dr, k) && i == sq(
                c + k * dc,
                r + k * dr,
            );
        lemma_occ(b, i);
    }
}

/// Every sliding destination of a piece of one color avoids that color's
/// squares, over all eight directions.
proof fn lemma_slides_no_own(b: Board, white: bool, c: int, r: int, i: int, q: PieceType)
    requires
        b.inv(),
        0 <= i < 64,
        b.at(i) == Some(q),
        q.is_white() == white,
    ensures
        !rook_dest(b, white, c, r, i),
        !bishop_dest(b, white, c, r, i),
        !queen_dest(b, white, c, r, i),
{
    lemma_slide_no_own(b, white, c, r, 0, 1, i, q);
    lemma_slide_no_own(b, white, c, r, 0, -1, i, q);
    lemma_slide_no_own(b, white, c, r, -1, 0, i, q);
    lemma_slide_no_own(b, white, c, r, 1, 0, i, q);
    lemma_slide_no_own(b, white, c, r, -1, 1, i, q);
    lemma_slide_no_own(b, white, c, r, 1, 1, i, q);
    lemma_slide_no_own(b, white, c, r, -1, -1, i, q);
    lemma_slide_no_own(b, white, c, r, 1, -1, i, q);
}

/// For every square and piece kind, the generated destination set never
/// contains a square occupied by a piece of the same color.
pub proof fn lemma_no_same_color_destination(
    b: Board,
    p: PieceType,
    c: int,
    r: int,
    i: int,
    q: PieceType,
)
    requires
        b.inv(),
        b.ep_clear(),
        on_board(c, r),
        b.at(sq(c, r)) == Some(p),
        0 <= i < 64,
        b.at(i) == Some(q),
        q.is_white() == p.is_white(),
    ensures
        !allowed_dest(b, p, c, r, i),
{
    lemma_occ(b, i);
    lemma_slides_no_own(b, p.is_white(), c, r, i, q);
    if bit64(b.en_passant, i) {
        assert(!bit64(b.occ_all(), i));
    }
}

/// A sliding ray never jumps a piece: with an occupied square strictly
/// between the origin and a farther step of the same ray, that farther
/// square is no destination.
pub proof fn lemma_slide_no_jump(b: Board, white: bool, c: int, r: int, dc: int, dr: int, j: int, k: int)
    requires
        -1 <= dc <= 1,
        -1 <= dr <= 1,
        !(dc == 0 && dr == 0),
        on_board(c, r),
        1 <= j < k <= 7,
        on_board(c + k * dc, r + k * dr),
        bit64(b.occ_all(), sq(c + j * dc, r + j * dr)),
    ensures
        !slide_hit(b, white, c, r, dc, dr, k),
        !slide_dest(b, white, c, r, dc, dr, sq(c + k * dc, r + k * dr)),
{
    let w = bit64(b.occ_all(), sq(c + j * dc, r + j * dr));
    assert(!ray_clear(b, c, r, dc, dr, k));
    if slide_dest(b, white, c, r, dc, dr, sq(c + k * dc, r + k * dr)) {
        let k2 = choose|k2: int|
            1 <= k2 <= 7 && #[trigger] slide_hit(b, white, c, r, dc, dr, k2) && sq(
                c + k * dc,
                r + k * dr,
            ) == sq(c + k2 * dc, r + k2 * dr);
        assert(c + k2 * dc == c + k * dc && r + k2 * dr == r + k * dr);
        if dc == 1 {
            assert(k2 * dc == k2 && k * dc == k) by (nonlinear_arith)
                requires
                    dc == 1,
            ;
        } else if dc == -1 {
            assert(k2 * dc == -k2 && k * dc == -k) by (nonlinear_arith)
                requires
                    dc == -1,
            ;
        } else if dr == 1 {
            assert(k2 * dr == k2 && k * dr == k) by (nonlinear_arith)
                requires
                    dr == 1,
            ;
        } else {
            assert(k2 * dr == -k2 && k * dr == -k) by (nonlinear_arith)
                requires
                    dr == -1,
            ;
        }
        assert(k2 == k);
        assert(!ray_clear(b, c, r, dc, dr, k2));
    }
}

/// The first occupied square of a ray is a destination when it holds an
/// opposing piece: the one way a slider lands on an occupied square.
pub proof fn lemma_first_blocker_is_captured(b: Board, white: bool, c: int, r: int, dc: int, dr: int, k: int)
    requires
        -1 <= dc <= 1,
        -1 <= dr <= 1,
        !(dc == 0 && dr == 0),
        1 <= k <= 7,
        on_board(c + k * dc, r + k * dr),
        ray_clear(b, c, r, dc, dr, k),
        bit64(b.occ_color(!white), sq(c + k * dc, r + k * dr)),
    ensures
        slide_hit(b, white, c, r, dc, dr, k),
        slide_dest(b, white, c, r, dc, dr, sq(c + k * dc, r + k * dr)),
{
    assert(slide_hit(b, white, c, r, dc, dr, k));
}

/// The kingside castling destination is gone as soon as a transit square
/// is occupied or the crossed square is attacked.
pub proof fn lemma_castle_kingside_blocked(b: Board, white: bool, c: int, r: int)
    requires
        on_board(c, r),
        bit64(b.occ_all(), sq(c + 1, r)) || bit64(b.occ_all(), sq(c + 2, r)) || attacked(
            b,
            !white,
            sq(c + 1, r),
        ),
    ensures
        !castle_kingside(b, white, c, r, sq(c + 2, r)),
        !king_dest(b, white, c, r, sq(c + 2, r)),
{
    assert(!king_step(c, r, sq(c + 2, r)));
    if castle_queenside(b, white, c, r, sq(c + 2, r)) {
        assert(sq(c + 2, r) == sq(c - 2, r));
        assert(false);
    }
}

/// The queenside castling destination is gone as soon as a transit square
/// is occupied or the crossed square is attacked.
pub proof fn lemma_castle_queenside_blocked(b: Board, white: bool, c: int, r: int)
    requires
        on_board(c, r),
        bit64(b.occ_all(), sq(c - 1, r)) || bit64(b.occ_all(), sq(c - 2, r)) || bit64(
            b.occ_all(),
            sq(c - 3, r),
        ) || attacked(b, !white, sq(c - 1, r)),
    ensures
        !castle_queenside(b, white, c, r, sq(c - 2, r)),
        !king_dest(b, white, c, r, sq(c - 2, r)),
{
    assert(!king_step(c, r, sq(c - 2, r)));
    if castle_kingside(b, white, c, r, sq(c - 2, r)) {
        assert(sq(c - 2, r) == sq(c + 2, r));
        assert(false);
    }
}

} // verus!
