//! The move value: an immutable (from-column, from-row, to-column, to-row)
//! tuple, with the four-character algebraic notation read and written.

use vstd::prelude::*;

verus! {

#[derive(Clone, Copy, Debug, PartialEq, Eq, Structural)]
pub struct Move {
    pub column_from: u32,
    pub row_from: u32,
    pub column_to: u32,
    pub row_to: u32,
}

/// A well-formed four-character move: file letter, rank digit, file letter,
/// rank digit.
pub open spec fn algebraic_ok(s: Seq<char>) -> bool {
    &&& s.len() == 4
    &&& 97 <= s[0] as u32 <= 104
    &&& 49 <= s[1] as u32 <= 56
    &&& 97 <= s[2] as u32 <= 104
    &&& 49 <= s[3] as u32 <= 56
}

/// The move a well-formed notation string denotes: files `a`..`h` are
/// columns 0..7, rank digits `1`..`8` are rows 0..7.
pub open spec fn move_of_notation(s: Seq<char>) -> Move {
    Move {
        column_from: (s[0] as u32 - 97) as u32,
        row_from: (s[1] as u32 - 49) as u32,
        column_to: (s[2] as u32 - 97) as u32,
        row_to: (s[3] as u32 - 49) as u32,
    }
}

/// The file letter of column `c`.
pub open spec fn file_char(c: int) -> char {
    if c == 0 {
        'a'
    } else if c == 1 {
        'b'
    } else if c == 2 {
        'c'
    } else if c == 3 {
        'd'
    } else if c == 4 {
        'e'
    } else if c == 5 {
        'f'
    } else if c == 6 {
        'g'
    } else {
        'h'
    }
}

/// The rank digit written for row `r`: the inverse of the parser's
/// `digit - 1`, so row 0 prints as rank 1.
pub open spec fn rank_char(r: int) -> char {
    if r == 0 {
        '1'
    } else if r == 1 {
        '2'
    } else if r == 2 {
        '3'
    } else if r == 3 {
        '4'
    } else if r == 4 {
        '5'
    } else if r == 5 {
        '6'
    } else if r == 6 {
        '7'
    } else {
        '8'
    }
}

/// The four characters a move is written as.
pub open spec fn notation_of(m: Move) -> Seq<char> {
    seq![
        file_char(m.column_from as int),
        rank_char(m.row_from as int),
        file_char(m.column_to as int),
        rank_char(m.row_to as int),
    ]
}

impl Move {
    /// Builds a move from a `(column, row)` origin and target.
    pub fn new(from: (u32, u32), to: (u32, u32)) -> (m: Move)
        ensures
            m == (Move {
                column_from: from.0,
                row_from: from.1,
                column_to: to.0,
                row_to: to.1,
            }),
    {
        Move { column_from: from.0, row_from: from.1, column_to: to.0, row_to: to.1 }
    }

    /// Reads a move from four-character algebraic notation; anything else
    /// is rejected.
    pub fn from_algebraic_notation(notation: &str) -> (r: Result<Move, String>)
        ensures
            algebraic_ok(notation@) <==> r is Ok,
            r matches Ok(m) ==> m == move_of_notation(notation@),
            r matches Err(e) ==> e@ == "Invalid algebraic notation"@,
    {
        let n = notation.unicode_len();
        if n != 4 {
            return Err("Invalid algebraic notation".to_owned());
        }
        let v0 = notation.get_char(0) as u32;
        if v0 < 97 || v0 > 104 {
            return Err("Invalid algebraic notation".to_owned());
        }
        let v1 = notation.get_char(1) as u32;
        if v1 < 49 || v1 > 56 {
            return Err("Invalid algebraic notation".to_owned());
        }
        let v2 = notation.get_char(2) as u32;
        if v2 < 97 || v2 > 104 {
            return Err("Invalid algebraic notation".to_owned());
        }
        let v3 = notation.get_char(3) as u32;
        if v3 < 49 || v3 > 56 {
            return Err("Invalid algebraic notation".to_owned());
        }
        Ok(Move { column_from: v0 - 97, row_from: v1 - 49, column_to: v2 - 97, row_to: v3 - 49 })
    }

    /// Writes the move in algebraic notation; every coordinate must be on
    /// the board.
    pub fn to_algebraic_notation(&self) -> (r: String)
        requires
            self.column_from < 8,
            self.row_from < 8,
            self.column_to < 8,
            self.row_to < 8,
        ensures
            r@ == notation_of(*self),
    {
        let mut out = String::new();
        append_file_char(&mut out, self.column_from);
        append_rank_char(&mut out, self.row_from);
        append_file_char(&mut out, self.column_to);
        append_rank_char(&mut out, self.row_to);
        proof {
            assert(out@ =~= notation_of(*self));
        }
        out
    }
}

/// A file letter maps back to itself through its column number.
proof fn lemma_file_char_code(c: char)
    requires
        97 <= c as u32 <= 104,
    ensures
        file_char(c as u32 - 97) == c,
{
    if c as u32 == 97 {
        assert(c == 'a');
    } else if c as u32 == 98 {
        assert(c == 'b');
    } else if c as u32 == 99 {
        assert(c == 'c');
    } else if c as u32 == 100 {
        assert(c == 'd');
    } else if c as u32 == 101 {
        assert(c == 'e');
    } else if c as u32 == 102 {
        assert(c == 'f');
    } else if c as u32 == 103 {
        assert(c == 'g');
    } else {
        assert(c == 'h');
    }
}

/// A rank digit maps back to itself through its row number.
proof fn lemma_rank_char_code(c: char)
    requires
        49 <= c as u32 <= 56,
    ensures
        rank_char(c as u32 - 49) == c,
{
    if c as u32 == 49 {
        assert(c == '1');
    } else if c as u32 == 50 {
        assert(c == '2');
    } else if c as u32 == 51 {
        assert(c == '3');
    } else if c as u32 == 52 {
        assert(c == '4');
    } else if c as u32 == 53 {
        assert(c == '5');
    } else if c as u32 == 54 {
        assert(c == '6');
    } else if c as u32 == 55 {
        assert(c == '7');
    } else {
        assert(c == '8');
    }
}

/// The two conversions are exact inverses: writing a move reads back as the
/// same move, and writing what a well-formed string was read as gives that
/// string back.
pub proof fn lemma_notation_round_trip(m: Move, s: Seq<char>)
    requires
        m.column_from < 8,
        m.row_from < 8,
        m.column_to < 8,
        m.row_to < 8,
        algebraic_ok(s),
    ensures
        algebraic_ok(notation_of(m)),
        move_of_notation(notation_of(m)) == m,
        notation_of(move_of_notation(s)) == s,
{
    lemma_file_char_code(s[0]);
    lemma_rank_char_code(s[1]);
    lemma_file_char_code(s[2]);
    lemma_rank_char_code(s[3]);
    assert(notation_of(move_of_notation(s)) =~= s);
}

/// Appends the file letter of column `c`.
pub(crate) fn append_file_char(out: &mut String, c: u32)
    requires
        c < 8,
    ensures
        final(out)@ == old(out)@.push(file_char(c as int)),
{
    match c {
        0 => {
            proof {
                reveal_strlit("a");
            }
            out.append("a");
        },
        1 => {
            proof {
                reveal_strlit("b");
            }
            out.append("b");
        },
        2 => {
            proof {
                reveal_strlit("c");
            }
            out.append("c");
        },
        3 => {
            proof {
                reveal_strlit("d");
            }
            out.append("d");
        },
        4 => {
            proof {
                reveal_strlit("e");
            }
            out.append("e");
        },
        5 => {
            proof {
                reveal_strlit("f");
            }
            out.append("f");
        },
        6 => {
            proof {
                reveal_strlit("g");
            }
            out.append("g");
        },
        _ => {
            proof {
                reveal_strlit("h");
            }
            out.append("h");
        },
    }
    proof {
        assert(final(out)@ =~= old(out)@.push(file_char(c as int)));
    }
}

/// Appends the rank digit of row `r` (row 0 is rank 1).
pub(crate) fn append_rank_char(out: &mut String, r: u32)
    requires
        r < 8,
    ensures
        final(out)@ == old(out)@.push(rank_char(r as int)),
{
    match r {
        0 => {
            proof {
                reveal_strlit("1");
            }
            out.append("1");
        },
        1 => {
            proof {
                reveal_strlit("2");
            }
            out.append("2");
        },
        2 => {
            proof {
                reveal_strlit("3");
            }
            out.append("3");
        },
        3 => {
            proof {
                reveal_strlit("4");
            }
            out.append("4");
        },
        4 => {
            proof {
                reveal_strlit("5");
            }
            out.append("5");
        },
        5 => {
            proof {
                reveal_strlit("6");
            }
            out.append("6");
        },
        6 => {
            proof {
                reveal_strlit("7");
            }
            out.append("7");
        },
        _ => {
            proof {
                reveal_strlit("8");
            }
            out.append("8");
        },
    }
    proof {
        assert(final(out)@ =~= old(out)@.push(rank_char(r as int)));
    }
}

} // verus!
