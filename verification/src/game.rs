//! The game record: a board with the turn indicator, the running material
//! score, the fullmove number and the halfmove clock, built from a
//! six-field FEN string and exported back to one.

use vstd::prelude::*;

use crate::apply::{captured_piece, ep_mask_after, from_sq, is_pawn, move_ok, square_after};
use crate::board::{material, Board};
use crate::fen::{blank_board, fen_text, parse_placement};
use crate::moves::Move;
use crate::notation::names_from;
use crate::piece::PieceType;

verus! {

pub struct Game {
    pub board: Board,
    /// True while it is white's turn.
    pub turn: bool,
    /// The points white is ahead by.
    pub points: i32,
    /// The number of full moves, starting at 1, incremented after black's
    /// move.
    pub fullmove: u32,
    /// Moves since the last pawn move, toward the fifty-move rule.
    pub halfmove_clock: u32,
}

/// The space-separated fields of `s`: always at least one, possibly empty,
/// field.
pub open spec fn fields_of(s: Seq<char>) -> Seq<Seq<char>>
    decreases s.len(),
{
    if s.len() == 0 {
        seq![Seq::empty()]
    } else {
        let r = fields_of(s.drop_last());
        if s.last() == ' ' {
            r.push(Seq::empty())
        } else {
            r.update(r.len() - 1, r.last().push(s.last()))
        }
    }
}

/// A split always yields at least one field.
pub proof fn lemma_fields_len(s: Seq<char>)
    ensures
        fields_of(s).len() >= 1,
    decreases s.len(),
{
    if s.len() > 0 {
        lemma_fields_len(s.drop_last());
    }
}

/// A nonempty string of decimal digits.
pub open spec fn all_digits(s: Seq<char>) -> bool {
    &&& s.len() > 0
    &&& forall|i: int| 0 <= i < s.len() ==> 48 <= #[trigger] (s[i] as u32) <= 57
}

/// The number a digit string denotes.
pub open spec fn digits_val(s: Seq<char>) -> int
    decreases s.len(),
{
    if s.len() == 0 {
        0
    } else {
        10 * digits_val(s.drop_last()) + (s.last() as u32 - 48)
    }
}

/// Digit strings denote nonnegative numbers, and prefixes denote no more
/// than the whole.
pub proof fn lemma_digits_prefix(s: Seq<char>, i: int)
    requires
        all_digits(s),
        0 <= i <= s.len(),
    ensures
        0 <= digits_val(s.take(i)) <= digits_val(s),
    decreases s.len() - i,
{
    if i == s.len() {
        assert(s.take(i) =~= s);
        lemma_digits_nonneg(s.take(i));
    } else {
        lemma_digits_prefix(s, i + 1);
        assert(s.take(i + 1).drop_last() =~= s.take(i));
        assert(s.take(i + 1).last() == s[i]);
        lemma_digits_nonneg(s.take(i));
    }
}

/// A digit string denotes a nonnegative number.
proof fn lemma_digits_nonneg(s: Seq<char>)
    requires
        forall|i: int| 0 <= i < s.len() ==> 48 <= #[trigger] (s[i] as u32) <= 57,
    ensures
        digits_val(s) >= 0,
    decreases s.len(),
{
    if s.len() > 0 {
        lemma_digits_nonneg(s.drop_last());
    }
}

/// The en-passant mask the FEN en-passant field denotes: the named square,
/// or empty when the field is not a square name.
pub open spec fn ep_mask_of_field(f: Seq<char>) -> u64 {
    if f.len() == 2 && 97 <= f[0] as u32 <= 104 && 49 <= f[1] as u32 <= 56 {
        1u64 << (((f[0] as u32 - 97) + (f[1] as u32 - 49) * 8) as u64)
    } else {
        0u64
    }
}

/// A well-formed six-field FEN record: the placement parses, the side to
/// move is `w` or `b`, and the two clocks are numbers that fit.
pub open spec fn game_fen_ok(s: Seq<char>) -> bool {
    &&& fields_of(s).len() >= 6
    &&& parse_placement(
        fields_of(s)[0],
        blank_board(ep_mask_of_field(fields_of(s)[3])),
        0,
        0,
    ) is Some
    &&& (fields_of(s)[1] == seq!['w'] || fields_of(s)[1] == seq!['b'])
    &&& all_digits(fields_of(s)[4])
    &&& digits_val(fields_of(s)[4]) <= u32::MAX
    &&& all_digits(fields_of(s)[5])
    &&& digits_val(fields_of(s)[5]) <= u32::MAX
}

/// Splits `s` on spaces into (start, end) character ranges, one per field.
fn split_fields(s: &str) -> (v: Vec<(usize, usize)>)
    ensures
        v@.len() == fields_of(s@).len(),
        forall|j: int|
            0 <= j < v@.len() ==> (#[trigger] v@[j]).0 <= v@[j].1 <= s@.len() && fields_of(
                s@,
            )[j] == s@.subrange(v@[j].0 as int, v@[j].1 as int),
{
    let n = s.unicode_len();
    let mut v: Vec<(usize, usize)> = Vec::new();
    v.push((0, 0));
    let mut i: usize = 0;
    proof {
        assert(s@.take(0) =~= Seq::<char>::empty());
        assert(fields_of(s@.take(0)) =~= seq![Seq::<char>::empty()]);
        assert(s@.subrange(0, 0) =~= Seq::<char>::empty());
    }
    while i < n
        invariant
            n == s@.len(),
            i <= n,
            v@.len() >= 1,
            v@.len() == fields_of(s@.take(i as int)).len(),
            forall|j: int|
                0 <= j < v@.len() ==> (#[trigger] v@[j]).0 <= v@[j].1 <= i && fields_of(
                    s@.take(i as int),
                )[j] == s@.subrange(v@[j].0 as int, v@[j].1 as int),
            v@[v@.len() - 1].1 == i,
        decreases n - i,
    {
        let ghost prefix = s@.take(i as int);
        let ghost prefix2 = s@.take(i as int + 1);
        let ghost v0 = v@;
        let c = s.get_char(i);
        proof {
            assert(prefix2.drop_last() =~= prefix);
            assert(prefix2.last() == s@[i as int]);
        }
        if c == ' ' {
            v.push((i + 1, i + 1));
            proof {
                assert(fields_of(prefix2) =~= fields_of(prefix).push(Seq::empty()));
                assert(s@.subrange(i as int + 1, i as int + 1) =~= Seq::<char>::empty());
                assert forall|j: int|
                    0 <= j < v@.len() implies (#[trigger] v@[j]).0 <= v@[j].1 <= i + 1
                    && fields_of(prefix2)[j] == s@.subrange(
                    v@[j].0 as int,
                    v@[j].1 as int,
                ) by {
                    if j < v0.len() {
                        assert(v@[j] == v0[j]);
                        assert(fields_of(prefix2)[j] == fields_of(prefix)[j]);
                    }
                }
            }
        } else {
            let last = v.len() - 1;
            let start = v[last].0;
            v.set(last, (start, i + 1));
            proof {
                let jl = v0.len() - 1;
                assert(fields_of(prefix2) =~= fields_of(prefix).update(
                    jl,
                    fields_of(prefix)[jl].push(s@[i as int]),
                ));
                assert(s@.subrange(start as int, i as int).push(s@[i as int]) =~= s@.subrange(
                    start as int,
                    i as int + 1,
                ));
                assert forall|j: int|
                    0 <= j < v@.len() implies (#[trigger] v@[j]).0 <= v@[j].1 <= i + 1
                    && fields_of(prefix2)[j] == s@.subrange(
                    v@[j].0 as int,
                    v@[j].1 as int,
                ) by {
                    if j < jl {
                        assert(v@[j] == v0[j]);
                        assert(fields_of(prefix2)[j] == fields_of(prefix)[j]);
                    }
                }
            }
        }
        i = i + 1;
    }
    proof {
        assert(s@.take(n as int) =~= s@);
    }
    v
}

/// Reads a decimal digit string.
fn parse_u32(s: &str) -> (r: u32)
    requires
        all_digits(s@),
        digits_val(s@) <= u32::MAX,
    ensures
        r == digits_val(s@),
{
    let n = s.unicode_len();
    let mut val: u32 = 0;
    let mut i: usize = 0;
    proof {
        assert(s@.take(0) =~= Seq::<char>::empty());
    }
    while i < n
        invariant
            all_digits(s@),
            digits_val(s@) <= u32::MAX,
            n == s@.len(),
            i <= n,
            val == digits_val(s@.take(i as int)),
        decreases n - i,
    {
        let c = s.get_char(i) as u32;
        proof {
            assert(48 <= s@[i as int] as u32 <= 57);
            lemma_digits_prefix(s@, i as int + 1);
            assert(s@.take(i as int + 1).drop_last() =~= s@.take(i as int));
            assert(s@.take(i as int + 1).last() == s@[i as int]);
        }
        val = val * 10 + (c - 48);
        i = i + 1;
    }
    proof {
        assert(s@.take(n as int) =~= s@);
    }
    val
}

impl Game {
    /// Builds a game from a six-field FEN record; a malformed record is a
    /// caller error.
    pub fn new(FEN: &str) -> (r: Game)
        requires
            game_fen_ok(FEN@),
        ensures
            r.turn == (fields_of(FEN@)[1] == seq!['w']),
            r.halfmove_clock == digits_val(fields_of(FEN@)[4]),
            r.fullmove == digits_val(fields_of(FEN@)[5]),
            Some(r.board) == Some(
                (parse_placement(
                    fields_of(FEN@)[0],
                    blank_board(ep_mask_of_field(fields_of(FEN@)[3])),
                    0,
                    0,
                )->0).0,
            ),
            r.board.inv(),
            r.board.en_passant == ep_mask_of_field(fields_of(FEN@)[3]),
            r.board.castling_rights == 0b1111u8,
            r.points == material(r.board),
    {
        let fields = split_fields(FEN);
        let f1 = substring(FEN, fields[1].0, fields[1].1);
        let turn = f1.get_char(0) == 'w';
        proof {
            if fields_of(FEN@)[1] == seq!['w'] {
                assert(f1@[0] == 'w');
            } else {
                assert(fields_of(FEN@)[1] == seq!['b']);
                assert(f1@[0] == 'b');
            }
        }
        let f3 = substring(FEN, fields[3].0, fields[3].1);
        let mut en_passant_square: u64 = 0;
        if let Ok((column, row)) = crate::notation::translate_single_fen(f3) {
            en_passant_square = crate::notation::coordinates_to_bitboard(column, row);
        }
        proof {
            assert(en_passant_square == ep_mask_of_field(fields_of(FEN@)[3]));
        }
        let f4 = substring(FEN, fields[4].0, fields[4].1);
        let halfmove_clock = parse_u32(f4);
        let f5 = substring(FEN, fields[5].0, fields[5].1);
        let fullmove = parse_u32(f5);
        let f0 = substring(FEN, fields[0].0, fields[0].1);
        let board = match Board::new(f0, en_passant_square) {
            Ok(b) => b,
            Err(_) => {
                proof {
                    assert(false);
                }
                Board {
                    black_pawn: 0,
                    black_rook: 0,
                    black_knight: 0,
                    black_bishop: 0,
                    black_queen: 0,
                    black_king: 0,
                    white_pawn: 0,
                    white_rook: 0,
                    white_knight: 0,
                    white_bishop: 0,
                    white_queen: 0,
                    white_king: 0,
                    en_passant: 0,
                    castling_rights: 0b1111,
                }
            },
        };
        let points = board.points();
        Game { board, turn, points, halfmove_clock, fullmove }
    }

    /// True while it is white's turn.
    pub fn turn(&self) -> (r: bool)
        ensures
            r == self.turn,
    {
        self.turn
    }

    /// Applies a validated move: delegates to the board, adds a captured
    /// piece's value to white's score (subtracts it on black's turn),
    /// resets the halfmove clock on a pawn move and advances it otherwise,
    /// flips the turn, and counts a full move when play returns to white.
    pub fn make_move(&mut self, mv: &Move)
        requires
            old(self).board.inv(),
            move_ok(old(self).board, *mv),
            old(self).points + 900 <= i32::MAX,
            old(self).points - 900 >= i32::MIN,
            old(self).halfmove_clock < u32::MAX,
            old(self).fullmove < u32::MAX,
        ensures
            final(self).board.inv(),
            final(self).board.ep_clear(),
            final(self).board.en_passant == ep_mask_after(old(self).board, *mv),
            final(self).board.castling_rights == old(self).board.castling_rights,
            forall|i: int|
                0 <= i < 64 ==> #[trigger] final(self).board.at(i) == square_after(
                    old(self).board,
                    *mv,
                    i,
                ),
            final(self).points == old(self).points + (match captured_piece(
                old(self).board,
                *mv,
            ) {
                Some(c) => if old(self).turn {
                    c.point_value() as int
                } else {
                    -(c.point_value() as int)
                },
                None => 0,
            }),
            final(self).halfmove_clock == (if is_pawn(old(self).board.at(from_sq(*mv))->0) {
                0int
            } else {
                old(self).halfmove_clock + 1
            }),
            final(self).turn == !old(self).turn,
            final(self).fullmove == old(self).fullmove + (if old(self).turn {
                0int
            } else {
                1int
            }),
    {
        let (piece, captured) = self.board.move_piece(mv);
        if let Some(piece_captured) = captured {
            let v = piece_captured.points() as i32;
            if self.turn {
                self.points = self.points + v;
            } else {
                self.points = self.points - v;
            }
        }
        match piece {
            PieceType::WhitePawn | PieceType::BlackPawn => {
                self.halfmove_clock = 0;
            },
            _ => {
                self.halfmove_clock = self.halfmove_clock + 1;
            },
        }
        self.turn = !self.turn;
        if self.turn {
            self.fullmove = self.fullmove + 1;
        }
    }
}

/// The decimal digit `d`.
pub open spec fn digit_char(d: int) -> char {
    if d == 0 {
        '0'
    } else if d == 1 {
        '1'
    } else if d == 2 {
        '2'
    } else if d == 3 {
        '3'
    } else if d == 4 {
        '4'
    } else if d == 5 {
        '5'
    } else if d == 6 {
        '6'
    } else if d == 7 {
        '7'
    } else if d == 8 {
        '8'
    } else {
        '9'
    }
}

/// The decimal writing of `n`, most significant digit first.
pub open spec fn dec_digits(n: int) -> Seq<char>
    decreases n when n >= 0
{
    if n < 10 {
        seq![digit_char(n)]
    } else {
        dec_digits(n / 10).push(digit_char(n % 10))
    }
}

/// Appends the decimal digit `d`.
fn append_digit(out: &mut String, d: u32)
    requires
        d <= 9,
    ensures
        final(out)@ == old(out)@.push(digit_char(d as int)),
{
    match d {
        0 => {
            proof {
                reveal_strlit("0");
            }
            out.append("0");
        },
        1 => {
            proof {
                reveal_strlit("1");
            }
            out.append("1");
        },
        2 => {
            proof {
                reveal_strlit("2");
            }
            out.append("2");
        },
        3 => {
            proof {
                reveal_strlit("3");
            }
            out.append("3");
        },
        4 => {
            proof {
                reveal_strlit("4");
            }
            out.append("4");
        },
        5 => {
            proof {
                reveal_strlit("5");
            }
            out.append("5");
        },
        6 => {
            proof {
                reveal_strlit("6");
            }
            out.append("6");
        },
        7 => {
            proof {
                reveal_strlit("7");
            }
            out.append("7");
        },
        8 => {
            proof {
                reveal_strlit("8");
            }
            out.append("8");
        },
        _ => {
            proof {
                reveal_strlit("9");
            }
            out.append("9");
        },
    }
    proof {
        assert(final(out)@ =~= old(out)@.push(digit_char(d as int)));
    }
}

/// Appends the decimal writing of `x`.
fn append_u32(out: &mut String, x: u32)
    ensures
        final(out)@ == old(out)@ + dec_digits(x as int),
    decreases x,
{
    if x < 10 {
        append_digit(out, x);
        proof {
            assert(final(out)@ =~= old(out)@ + dec_digits(x as int));
        }
    } else {
        append_u32(out, x / 10);
        append_digit(out, x % 10);
        proof {
            assert(final(out)@ =~= old(out)@ + dec_digits(x as int));
        }
    }
}

/// Appends one space.
fn append_space(out: &mut String)
    ensures
        final(out)@ == old(out)@.push(' '),
{
    proof {
        reveal_strlit(" ");
    }
    out.append(" ");
    proof {
        assert(final(out)@ =~= old(out)@.push(' '));
    }
}

impl Game {
    /// Writes the position as a six-field FEN record: placement, side to
    /// move, castling rights (always all four, as the board holds them),
    /// the en-passant square's name or `-` when none is set, halfmove
    /// clock, fullmove number.
    pub fn exportPosition(&self) -> (r: String)
        requires
            self.board.inv(),
        ensures
            r@ == fen_text(self.board) + seq![' '] + (if self.turn {
                seq!['w']
            } else {
                seq!['b']
            }) + seq![' '] + "KQkq"@ + seq![' '] + (if self.board.en_passant == 0 {
                seq!['-']
            } else {
                names_from(self.board.en_passant, 0)
            }) + seq![' '] + dec_digits(self.halfmove_clock as int) + seq![' '] + dec_digits(
                self.fullmove as int,
            ),
    {
        let mut FEN = self.board.exportFEN();
        append_space(&mut FEN);
        if self.turn {
            proof {
                reveal_strlit("w");
            }
            FEN.append("w");
        } else {
            proof {
                reveal_strlit("b");
            }
            FEN.append("b");
        }
        append_space(&mut FEN);
        proof {
            reveal_strlit("KQkq");
        }
        FEN.append("KQkq");
        append_space(&mut FEN);
        if self.board.en_passant != 0 {
            let ep = self.board.exportEnPassantSquare();
            FEN.append(ep.as_str());
        } else {
            proof {
                reveal_strlit("-");
            }
            FEN.append("-");
        }
        append_space(&mut FEN);
        append_u32(&mut FEN, self.halfmove_clock);
        append_space(&mut FEN);
        append_u32(&mut FEN, self.fullmove);
        proof {
            assert(FEN@ =~= fen_text(self.board) + seq![' '] + (if self.turn {
                seq!['w']
            } else {
                seq!['b']
            }) + seq![' '] + "KQkq"@ + seq![' '] + (if self.board.en_passant == 0 {
                seq!['-']
            } else {
                names_from(self.board.en_passant, 0)
            }) + seq![' '] + dec_digits(self.halfmove_clock as int) + seq![' '] + dec_digits(
                self.fullmove as int,
            ));
        }
        FEN
    }
}

/// The character range `[from, to)` of `s`.
fn substring<'a>(s: &'a str, from: usize, to: usize) -> (r: &'a str)
    requires
        from <= to <= s@.len(),
    ensures
        r@ == s@.subrange(from as int, to as int),
{
    s.substring_char(from, to)
}

} // verus!
