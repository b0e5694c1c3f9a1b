//! FEN piece placement: a character-by-character specification parser, the
//! board constructor that follows it and reports the first offending
//! character, and the exporter whose output parses back to the same board.

use vstd::prelude::*;

use crate::bits::{bit64, lemma_bit_ext, lemma_bit_or, lemma_bit_single, lemma_bit_zero};
use crate::board::{lemma_occ, lemma_sole_occupant, sq, Board};
use crate::piece::{piece_of_char, PieceType};

verus! {

/// A placement parse failure: the first character the parser cannot take in
/// its position, and where it stands.
#[derive(Clone, Copy, Debug, PartialEq, Eq, Structural)]
pub struct FenError {
    pub index: usize,
    pub character: char,
}

/// An empty board carrying the given en-passant mask, with every castling
/// right held.
pub open spec fn blank_board(en_passant: u64) -> Board {
    Board {
        black_pawn: 0,
        black_rook: 0,
        black_knight: 0,
        black_bishop: 0,
        black_queen: 0,
        black_king: 0,
        white_pawn: 0,
        white_rook: 0,
        white_knight: 0,
        white_bishop: 0,
        white_queen: 0,
        white_king: 0,
        en_passant,
        castling_rights: 0b1111,
    }
}

/// `b` with piece `p` added on square `i`.
pub open spec fn place_piece(b: Board, p: PieceType, i: int) -> Board {
    match p {
        PieceType::BlackPawn => Board { black_pawn: b.black_pawn | (1u64 << (i as u64)), ..b },
        PieceType::BlackRook => Board { black_rook: b.black_rook | (1u64 << (i as u64)), ..b },
        PieceType::BlackKnight => Board {
            black_knight: b.black_knight | (1u64 << (i as u64)),
            ..b
        },
        PieceType::BlackBishop => Board {
            black_bishop: b.black_bishop | (1u64 << (i as u64)),
            ..b
        },
        PieceType::BlackQueen => Board { black_queen: b.black_queen | (1u64 << (i as u64)), ..b },
        PieceType::BlackKing => Board { black_king: b.black_king | (1u64 << (i as u64)), ..b },
        PieceType::WhitePawn => Board { white_pawn: b.white_pawn | (1u64 << (i as u64)), ..b },
        PieceType::WhiteRook => Board { white_rook: b.white_rook | (1u64 << (i as u64)), ..b },
        PieceType::WhiteKnight => Board {
            white_knight: b.white_knight | (1u64 << (i as u64)),
            ..b
        },
        PieceType::WhiteBishop => Board {
            white_bishop: b.white_bishop | (1u64 << (i as u64)),
            ..b
        },
        PieceType::WhiteQueen => Board { white_queen: b.white_queen | (1u64 << (i as u64)), ..b },
        PieceType::WhiteKing => Board { white_king: b.white_king | (1u64 << (i as u64)), ..b },
    }
}

/// One character of placement text: `/` starts the next row, a digit skips
/// that many files, a piece letter places the piece; anything else, or a
/// step off the board, fails.
pub open spec fn place_step(b: Board, col: int, row: int, c: char) -> Option<(Board, int, int)> {
    if c == '/' {
        if row < 7 {
            Some((b, 0, row + 1))
        } else {
            None
        }
    } else if 48 <= c as u32 <= 57 {
        if col + (c as u32 - 48) <= 8 {
            Some((b, col + (c as u32 - 48), row))
        } else {
            None
        }
    } else {
        match piece_of_char(c) {
            Some(p) => if col < 8 {
                Some((place_piece(b, p, sq(col, row)), col + 1, row))
            } else {
                None
            },
            None => None,
        }
    }
}

/// Runs the placement text from the given state; `None` as soon as one
/// character fails.
pub open spec fn parse_placement(s: Seq<char>, b: Board, col: int, row: int) -> Option<
    (Board, int, int),
>
    decreases s.len(),
{
    if s.len() == 0 {
        Some((b, col, row))
    } else {
        match place_step(b, col, row, s[0]) {
            Some(st) => parse_placement(s.skip(1), st.0, st.1, st.2),
            None => None,
        }
    }
}

/// A reachable parser state: coordinates in range and every placed piece
/// strictly before the cursor, squares disjoint.
pub open spec fn pstate_ok(b: Board, col: int, row: int) -> bool {
    &&& 0 <= col <= 8
    &&& 0 <= row <= 7
    &&& b.inv()
    &&& forall|p: PieceType, i: int| #[trigger] bit64(b.mask_of(p), i) ==> i < sq(col, row)
}

/// One parser step keeps the state reachable and leaves the en-passant mask
/// and the castling rights alone.
proof fn lemma_place_step_ok(b: Board, col: int, row: int, c: char)
    requires
        pstate_ok(b, col, row),
        place_step(b, col, row, c) is Some,
    ensures
        pstate_ok(
            (place_step(b, col, row, c)->0).0,
            (place_step(b, col, row, c)->0).1,
            (place_step(b, col, row, c)->0).2,
        ),
        (place_step(b, col, row, c)->0).0.en_passant == b.en_passant,
        (place_step(b, col, row, c)->0).0.castling_rights == b.castling_rights,
{
    let st = place_step(b, col, row, c)->0;
    if c == '/' || (48 <= c as u32 <= 57) {
        assert(sq(col, row) <= sq(st.1, st.2));
    } else {
        let p0 = piece_of_char(c)->0;
        let k = sq(col, row);
        let b2 = place_piece(b, p0, k);
        assert forall|p: PieceType, q: PieceType, i: int|
            p != q implies !(#[trigger] bit64(b2.mask_of(p), i) && #[trigger] bit64(
            b2.mask_of(q),
            i,
        )) by {
            lemma_bit_or(b.mask_of(p0), 1u64 << (k as u64), i);
            lemma_bit_single(k as u64, i);
            let u1 = bit64(b.mask_of(p), i);
            let u2 = bit64(b.mask_of(q), i);
        }
        assert forall|p: PieceType, i: int| #[trigger] bit64(b2.mask_of(p), i) implies i < sq(
            st.1,
            st.2,
        ) by {
            lemma_bit_or(b.mask_of(p0), 1u64 << (k as u64), i);
            lemma_bit_single(k as u64, i);
            let u1 = bit64(b.mask_of(p), i);
        }
    }
}

impl Board {
    /// Builds a board from FEN placement text and an en-passant mask, with
    /// every castling right held. The first character that cannot be taken
    /// in its position is reported with its index; the board is built
    /// exactly when the whole text parses.
    pub fn new(FEN: &str, en_passant: u64) -> (r: Result<Board, FenError>)
        ensures
            r is Ok <==> parse_placement(FEN@, blank_board(en_passant), 0, 0) is Some,
            r matches Ok(b) ==> Some(b) == Some(
                (parse_placement(FEN@, blank_board(en_passant), 0, 0)->0).0,
            ) && b.inv() && b.en_passant == en_passant && b.castling_rights == 0b1111u8,
            r matches Err(e) ==> e.index < FEN@.len() && e.character == FEN@[e.index as int],
            r matches Err(e) ==> (parse_placement(
                FEN@.take(e.index as int),
                blank_board(en_passant),
                0,
                0,
            ) matches Some(st) && place_step(st.0, st.1, st.2, FEN@[e.index as int]) is None),
    {
        let ghost s = FEN@;
        let ghost b_init = blank_board(en_passant);
        let mut board = Board {
            black_pawn: 0,
            black_rook: 0,
            black_knight: 0,
            black_bishop: 0,
            black_queen: 0,
            black_king: 0,
            white_pawn: 0,
            white_rook: 0,
            white_knight: 0,
            white_bishop: 0,
            white_queen: 0,
            white_king: 0,
            en_passant,
            castling_rights: 0b1111,
        };
        let mut column: u32 = 0;
        let mut row: u32 = 0;
        let n = FEN.unicode_len();
        let mut idx: usize = 0;
        proof {
            assert(board == b_init);
            assert forall|p: PieceType, i: int| #[trigger] bit64(board.mask_of(p), i) implies i
                < sq(0, 0) by {
                lemma_bit_zero(i);
            }
            assert(board.inv()) by {
                assert forall|p: PieceType, q: PieceType, i: int|
                    p != q implies !(#[trigger] bit64(board.mask_of(p), i) && #[trigger] bit64(
                    board.mask_of(q),
                    i,
                )) by {
                    lemma_bit_zero(i);
                }
            }
            assert(s.skip(0) =~= s);
        }
        while idx < n
            invariant
                n == s.len(),
                idx <= n,
                s == FEN@,
                pstate_ok(board, column as int, row as int),
                board.en_passant == en_passant,
                board.castling_rights == 0b1111u8,
                parse_placement(s, b_init, 0, 0) == parse_placement(
                    s.skip(idx as int),
                    board,
                    column as int,
                    row as int,
                ),
                parse_placement(s.take(idx as int), b_init, 0, 0) == Some(
                    (board, column as int, row as int),
                ),
                b_init == blank_board(en_passant),
            decreases n - idx,
        {
            let ghost b_cur = board;
            let ghost col0 = column as int;
            let ghost row0 = row as int;
            let c = FEN.get_char(idx);
            let ghost stepr = place_step(b_cur, col0, row0, c);
            let ok: bool;
            if c == '/' {
                if row < 7 {
                    row = row + 1;
                    column = 0;
                    ok = true;
                } else {
                    ok = false;
                }
            } else {
                let v = c as u32;
                if 48 <= v && v <= 57 {
                    if column + (v - 48) <= 8 {
                        column = column + (v - 48);
                        ok = true;
                    } else {
                        ok = false;
                    }
                } else {
                    match PieceType::from_char(c) {
                        Some(p) => {
                            if column < 8 {
                                let k: u64 = (column + row * 8) as u64;
                                let pos: u64 = 1u64 << k;
                                match p {
                                    PieceType::BlackPawn => board.black_pawn = board.black_pawn
                                        | pos,
                                    PieceType::BlackRook => board.black_rook = board.black_rook
                                        | pos,
                                    PieceType::BlackKnight => board.black_knight =
                                    board.black_knight | pos,
                                    PieceType::BlackBishop => board.black_bishop =
                                    board.black_bishop | pos,
                                    PieceType::BlackQueen => board.black_queen =
                                    board.black_queen | pos,
                                    PieceType::BlackKing => board.black_king = board.black_king
                                        | pos,
                                    PieceType::WhitePawn => board.white_pawn = board.white_pawn
                                        | pos,
                                    PieceType::WhiteRook => board.white_rook = board.white_rook
                                        | pos,
                                    PieceType::WhiteKnight => board.white_knight =
                                    board.white_knight | pos,
                                    PieceType::WhiteBishop => board.white_bishop =
                                    board.white_bishop | pos,
                                    PieceType::WhiteQueen => board.white_queen =
                                    board.white_queen | pos,
                                    PieceType::WhiteKing => board.white_king = board.white_king
                                        | pos,
                                }
                                column = column + 1;
                                ok = true;
                                proof {
                                    assert(board == place_piece(b_cur, p, sq(col0, row0)));
                                }
                            } else {
                                ok = false;
                            }
                        },
                        None => {
                            ok = false;
                        },
                    }
                }
            }
            if !ok {
                proof {
                    assert(stepr is None);
                    assert(parse_placement(s.skip(idx as int), b_cur, col0, row0) is None);
                }
                return Err(FenError { index: idx, character: c });
            }
            proof {
                assert(stepr == Some((board, column as int, row as int)));
                lemma_place_step_ok(b_cur, col0, row0, c);
                assert(s.skip(idx as int).skip(1) =~= s.skip(idx as int + 1));
                assert(s.skip(idx as int)[0] == s[idx as int]);
                assert(parse_placement(s.skip(idx as int), b_cur, col0, row0)
                    == parse_placement(s.skip(idx as int + 1), board, column as int, row as int));
                lemma_parse_snoc(s.take(idx as int), s[idx as int], b_init, 0, 0);
                assert(s.take(idx as int).push(s[idx as int]) =~= s.take(idx as int + 1));
            }
            idx = idx + 1;
        }
        proof {
            assert(s.skip(n as int) =~= Seq::<char>::empty());
            assert(parse_placement(s, b_init, 0, 0) == Some((board, column as int, row as int)));
        }
        Ok(board)
    }
}

/// The FEN letter of a piece reads back as that piece.
proof fn lemma_piece_char_round(p: PieceType)
    ensures
        piece_of_char(p.fen_char()) == Some(p),
        p.fen_char() != '/',
        !(48 <= p.fen_char() as u32 <= 57),
{
}

/// Appends the FEN letter of `p`.
fn append_piece_char(out: &mut String, p: PieceType)
    ensures
        final(out)@ == old(out)@.push(p.fen_char()),
{
    match p {
        PieceType::BlackPawn => {
            proof {
                reveal_strlit("p");
            }
            out.append("p");
        },
        PieceType::BlackRook => {
            proof {
                reveal_strlit("r");
            }
            out.append("r");
        },
        PieceType::BlackKnight => {
            proof {
                reveal_strlit("n");
            }
            out.append("n");
        },
        PieceType::BlackBishop => {
            proof {
                reveal_strlit("b");
            }
            out.append("b");
        },
        PieceType::BlackQueen => {
            proof {
                reveal_strlit("q");
            }
            out.append("q");
        },
        PieceType::BlackKing => {
            proof {
                reveal_strlit("k");
            }
            out.append("k");
        },
        PieceType::WhitePawn => {
            proof {
                reveal_strlit("P");
            }
            out.append("P");
        },
        PieceType::WhiteRook => {
            proof {
                reveal_strlit("R");
            }
            out.append("R");
        },
        PieceType::WhiteKnight => {
            proof {
                reveal_strlit("N");
            }
            out.append("N");
        },
        PieceType::WhiteBishop => {
            proof {
                reveal_strlit("B");
            }
            out.append("B");
        },
        PieceType::WhiteQueen => {
            proof {
                reveal_strlit("Q");
            }
            out.append("Q");
        },
        PieceType::WhiteKing => {
            proof {
                reveal_strlit("K");
            }
            out.append("K");
        },
    }
    proof {
        assert(final(out)@ =~= old(out)@.push(p.fen_char()));
    }
}

/// Appends the row separator.
fn append_slash(out: &mut String)
    ensures
        final(out)@ == old(out)@.push('/'),
{
    proof {
        reveal_strlit("/");
    }
    out.append("/");
    proof {
        assert(final(out)@ =~= old(out)@.push('/'));
    }
}

/// The canonical text of row `row` from column `col` on, with `pending`
/// empty squares seen and not yet written: a maximal empty run becomes one
/// digit, written just before the next piece letter or the row's end.
pub open spec fn rank_text_from(b: Board, row: int, col: int, pending: int) -> Seq<char>
    decreases 8 - col when col <= 8
{
    if col >= 8 {
        if pending > 0 {
            seq![count_char(pending)]
        } else {
            Seq::empty()
        }
    } else {
        match b.at(sq(col, row)) {
            Some(p) => (if pending > 0 {
                seq![count_char(pending)]
            } else {
                Seq::empty()
            }) + seq![p.fen_char()] + rank_text_from(b, row, col + 1, 0),
            None => rank_text_from(b, row, col + 1, pending + 1),
        }
    }
}

/// The canonical text of one row.
pub open spec fn rank_text(b: Board, row: int) -> Seq<char> {
    rank_text_from(b, row, 0, 0)
}

/// The canonical text of rows 0 up to `row`, `/` between rows.
pub open spec fn rows_text(b: Board, row: int) -> Seq<char>
    decreases row when row >= 0
{
    if row <= 0 {
        Seq::empty()
    } else if row == 1 {
        rank_text(b, 0)
    } else {
        rows_text(b, row - 1) + seq!['/'] + rank_text(b, row - 1)
    }
}

/// The canonical FEN placement text of a board: eight rank texts, top row
/// first, separated by `/`.
pub open spec fn fen_text(b: Board) -> Seq<char> {
    rows_text(b, 8)
}

impl Board {
    /// Writes the board as FEN placement text: ranks from row 0 down,
    /// files left to right, each maximal empty run as one digit, `/`
    /// between ranks — exactly the canonical text `fen_text`. Parsing the
    /// text back onto an empty board rebuilds exactly the twelve
    /// occupancy masks.
    #[verifier::rlimit(100)]
    pub fn exportFEN(&self) -> (r: String)
        requires
            self.inv(),
        ensures
            r@ == fen_text(*self),
            parse_placement(r@, blank_board(0), 0, 0) is Some,
            (parse_placement(r@, blank_board(0), 0, 0)->0).1 == 8,
            (parse_placement(r@, blank_board(0), 0, 0)->0).2 == 7,
            forall|p: PieceType|
                #[trigger] (parse_placement(r@, blank_board(0), 0, 0)->0).0.mask_of(p)
                    == self.mask_of(p),
    {
        let ghost binit = blank_board(0);
        let mut out = String::new();
        let ghost mut pb = binit;
        let mut row: u32 = 0;
        proof {
            assert(out@ =~= rows_text(*self, 0));
            assert(parse_placement(out@, binit, 0, 0) == Some((pb, 0int, 0int)));
            assert forall|p: PieceType, i: int| #[trigger] bit64(pb.mask_of(p), i) <==> (bit64(
                self.mask_of(p),
                i,
            ) && i < 8 * 0) by {
                lemma_bit_zero(i);
            }
        }
        while row < 8
            invariant
                self.inv(),
                row <= 8,
                binit == blank_board(0),
                parse_placement(out@, binit, 0, 0) == Some(
                    (
                        pb,
                        if row == 0 {
                            0int
                        } else {
                            8int
                        },
                        if row == 0 {
                            0int
                        } else {
                            row - 1
                        },
                    ),
                ),
                forall|p: PieceType, i: int|
                    #[trigger] bit64(pb.mask_of(p), i) <==> (bit64(self.mask_of(p), i) && i < 8
                        * row),
                out@ == rows_text(*self, row as int),
            decreases 8 - row,
        {
            if row > 0 {
                let ghost out0 = out@;
                append_slash(&mut out);
                proof {
                    lemma_parse_snoc(out0, '/', binit, 0, 0);
                    assert(out@ =~= out0.push('/'));
                    assert(place_step(pb, 8int, row - 1, '/') == Some((pb, 0int, row as int)));
                }
            }
            proof {
                assert(out@ + rank_text_from(*self, row as int, 0, 0) =~= rows_text(
                    *self,
                    row as int + 1,
                ));
            }
            let mut empty: u32 = 0;
            let mut column: u32 = 0;
            while column < 8
                invariant
                    self.inv(),
                    row < 8,
                    column <= 8,
                    empty <= column,
                    binit == blank_board(0),
                    parse_placement(out@, binit, 0, 0) == Some(
                        (pb, column - empty, row as int),
                    ),
                    forall|p: PieceType, i: int|
                        #[trigger] bit64(pb.mask_of(p), i) <==> (bit64(self.mask_of(p), i) && i
                            < sq(column - empty, row as int)),
                    forall|j: int|
                        column - empty <= j < column ==> #[trigger] self.at(
                            sq(j, row as int),
                        ) is None,
                    out@ + rank_text_from(*self, row as int, column as int, empty as int)
                        == rows_text(*self, row as int + 1),
                decreases 8 - column,
            {
                let p_opt = self.get_piece_pos(column, row);
                let ghost out_arm = out@;
                let ghost e0 = empty as int;
                match p_opt {
                    None => {
                        empty = empty + 1;
                        proof {
                            assert(rank_text_from(*self, row as int, column as int, e0)
                                == rank_text_from(
                                *self,
                                row as int,
                                column as int + 1,
                                e0 + 1,
                            ));
                        }
                    },
                    Some(p) => {
                        if empty > 0 {
                            let ghost out0 = out@;
                            let ghost e = empty as int;
                            let ghost cpos = column - empty;
                            append_count(&mut out, empty);
                            proof {
                                lemma_parse_snoc(out0, count_char(e), binit, 0, 0);
                                assert(out@ =~= out0.push(count_char(e)));
                                assert(place_step(pb, cpos, row as int, count_char(e)) == Some(
                                    (pb, column as int, row as int),
                                ));
                                assert forall|p2: PieceType, i: int|
                                    #[trigger] bit64(pb.mask_of(p2), i) <==> (bit64(
                                    self.mask_of(p2),
                                    i,
                                ) && i < sq(column as int, row as int)) by {
                                    if cpos * 1 + 8 * row <= i < sq(column as int, row as int)
                                        && 0 <= i < 64 {
                                        let j = i - 8 * row;
                                        assert(self.at(sq(j, row as int)) is None);
                                        lemma_sole_occupant(*self, i);
                                    }
                                }
                            }
                            empty = 0;
                        }
                        let ghost out0 = out@;
                        let ghost pb0 = pb;
                        append_piece_char(&mut out, p);
                        proof {
                            lemma_piece_char_round(p);
                            lemma_parse_snoc(out0, p.fen_char(), binit, 0, 0);
                            assert(out@ =~= out0.push(p.fen_char()));
                            assert(place_step(pb0, column as int, row as int, p.fen_char())
                                == Some(
                                (
                                    place_piece(pb0, p, sq(column as int, row as int)),
                                    column + 1,
                                    row as int,
                                ),
                            ));
                            pb = place_piece(pb0, p, sq(column as int, row as int));
                            let k = sq(column as int, row as int);
                            lemma_occ(*self, k);
                            assert(bit64(self.mask_of(p), k));
                            assert forall|p2: PieceType, i: int|
                                #[trigger] bit64(pb.mask_of(p2), i) <==> (bit64(
                                self.mask_of(p2),
                                i,
                            ) && i < sq(column + 1, row as int)) by {
                                lemma_bit_or(pb0.mask_of(p), 1u64 << (k as u64), i);
                                lemma_bit_single(k as u64, i);
                                let u1 = bit64(pb0.mask_of(p2), i);
                                if i == k && 0 <= i < 64 {
                                    lemma_sole_occupant(*self, i);
                                }
                            }
                            assert(out@ + rank_text_from(
                                *self,
                                row as int,
                                column as int + 1,
                                0,
                            ) =~= out_arm + rank_text_from(*self, row as int, column as int, e0));
                        }
                    },
                }
                column = column + 1;
            }
            if empty > 0 {
                let ghost out0 = out@;
                let ghost e = empty as int;
                let ghost cpos = 8 - empty;
                append_count(&mut out, empty);
                proof {
                    lemma_parse_snoc(out0, count_char(e), binit, 0, 0);
                    assert(out@ =~= out0.push(count_char(e)));
                    assert(out@ =~= out0 + rank_text_from(*self, row as int, 8, e));
                    assert(place_step(pb, cpos, row as int, count_char(e)) == Some(
                        (pb, 8int, row as int),
                    ));
                    assert forall|p2: PieceType, i: int|
                        #[trigger] bit64(pb.mask_of(p2), i) <==> (bit64(self.mask_of(p2), i)
                            && i < sq(8, row as int)) by {
                        if cpos + 8 * row <= i < sq(8, row as int) && 0 <= i < 64 {
                            let j = i - 8 * row;
                            assert(self.at(sq(j, row as int)) is None);
                            lemma_sole_occupant(*self, i);
                        }
                    }
                }
            } else {
                proof {
                    assert(out@ + rank_text_from(*self, row as int, 8, 0) =~= out@);
                }
            }
            proof {
                assert(out@ == rows_text(*self, row as int + 1));
            }
            row = row + 1;
        }
        proof {
            assert(out@ == fen_text(*self));
            assert forall|p: PieceType|
                #[trigger] (parse_placement(out@, blank_board(0), 0, 0)->0).0.mask_of(p)
                    == self.mask_of(p) by {
                assert forall|i: int| 0 <= i < 64 implies #[trigger] bit64(pb.mask_of(p), i)
                    == bit64(self.mask_of(p), i) by {
                    let u = bit64(pb.mask_of(p), i);
                    let v = bit64(self.mask_of(p), i);
                }
                assert forall|i: int| !(0 <= i < 64) implies bit64(pb.mask_of(p), i) == bit64(
                    self.mask_of(p),
                    i,
                ) by {
                }
                lemma_bit_ext(pb.mask_of(p), self.mask_of(p));
            }
        }
        out
    }

    /// Writes the en-passant square's name, or nothing when no square is
    /// set.
    pub fn exportEnPassantSquare(&self) -> (r: String)
        ensures
            r@ == crate::notation::names_from(self.en_passant, 0),
    {
        crate::notation::translate_bitboard(self.en_passant)
    }
}

/// The digit written for a run of `e` empty squares.
pub open spec fn count_char(e: int) -> char {
    crate::moves::rank_char(e - 1)
}

/// Appends the digit for a run of `e` empty squares.
fn append_count(out: &mut String, e: u32)
    requires
        1 <= e <= 8,
    ensures
        final(out)@ == old(out)@.push(count_char(e as int)),
{
    crate::moves::append_rank_char(out, e - 1);
}

/// Appending one character runs the parser one step further.
proof fn lemma_parse_snoc(s: Seq<char>, c: char, b: Board, col: int, row: int)
    ensures
        parse_placement(s.push(c), b, col, row) == (match parse_placement(s, b, col, row) {
            Some(st) => place_step(st.0, st.1, st.2, c),
            None => None,
        }),
    decreases s.len(),
{
    if s.len() == 0 {
        assert(s.push(c).len() == 1);
        assert(s.push(c)[0] == c);
        assert(s.push(c).skip(1) =~= Seq::<char>::empty());
        assert(parse_placement(s, b, col, row) == Some((b, col, row)));
        match place_step(b, col, row, c) {
            Some(st2) => {
                assert(parse_placement(s.push(c), b, col, row) == parse_placement(
                    s.push(c).skip(1),
                    st2.0,
                    st2.1,
                    st2.2,
                ));
            },
            None => {
                assert(parse_placement(s.push(c), b, col, row) is None);
            },
        }
    } else {
        assert(s.push(c)[0] == s[0]);
        assert(s.push(c).skip(1) =~= s.skip(1).push(c));
        match place_step(b, col, row, s[0]) {
            Some(st) => {
                lemma_parse_snoc(s.skip(1), c, st.0, st.1, st.2);
                assert(parse_placement(s.push(c), b, col, row) == parse_placement(
                    s.skip(1).push(c),
                    st.0,
                    st.1,
                    st.2,
                ));
                assert(parse_placement(s, b, col, row) == parse_placement(
                    s.skip(1),
                    st.0,
                    st.1,
                    st.2,
                ));
            },
            None => {
                assert(parse_placement(s.push(c), b, col, row) is None);
                assert(parse_placement(s, b, col, row) is None);
            },
        }
    }
}

} // verus!
