//! Piece kinds: one variant per (color, kind) pair, with the FEN letter,
//! color and material value of each.

use vstd::prelude::*;

verus! {

#[derive(Clone, Copy, Debug, PartialEq, Eq, Structural)]
pub enum PieceType {
    BlackBishop,
    BlackKing,
    BlackKnight,
    BlackPawn,
    BlackQueen,
    BlackRook,
    WhiteBishop,
    WhiteKing,
    WhiteKnight,
    WhitePawn,
    WhiteQueen,
    WhiteRook,
}

/// The piece a FEN letter stands for: lower case black, upper case white.
pub open spec fn piece_of_char(c: char) -> Option<PieceType> {
    if c == 'p' {
        Some(PieceType::BlackPawn)
    } else if c == 'r' {
        Some(PieceType::BlackRook)
    } else if c == 'n' {
        Some(PieceType::BlackKnight)
    } else if c == 'b' {
        Some(PieceType::BlackBishop)
    } else if c == 'q' {
        Some(PieceType::BlackQueen)
    } else if c == 'k' {
        Some(PieceType::BlackKing)
    } else if c == 'P' {
        Some(PieceType::WhitePawn)
    } else if c == 'R' {
        Some(PieceType::WhiteRook)
    } else if c == 'N' {
        Some(PieceType::WhiteKnight)
    } else if c == 'B' {
        Some(PieceType::WhiteBishop)
    } else if c == 'Q' {
        Some(PieceType::WhiteQueen)
    } else if c == 'K' {
        Some(PieceType::WhiteKing)
    } else {
        None
    }
}

impl PieceType {
    /// The FEN letter of the piece.
    pub open spec fn fen_char(self) -> char {
        match self {
            PieceType::BlackPawn => 'p',
            PieceType::BlackRook => 'r',
            PieceType::BlackKnight => 'n',
            PieceType::BlackBishop => 'b',
            PieceType::BlackQueen => 'q',
            PieceType::BlackKing => 'k',
            PieceType::WhitePawn => 'P',
            PieceType::WhiteRook => 'R',
            PieceType::WhiteKnight => 'N',
            PieceType::WhiteBishop => 'B',
            PieceType::WhiteQueen => 'Q',
            PieceType::WhiteKing => 'K',
        }
    }

    /// True for the white pieces.
    pub open spec fn is_white(self) -> bool {
        match self {
            PieceType::WhitePawn
            | PieceType::WhiteRook
            | PieceType::WhiteKnight
            | PieceType::WhiteBishop
            | PieceType::WhiteQueen
            | PieceType::WhiteKing => true,
            _ => false,
        }
    }

    /// The material value of the piece, in centipawns.
    pub open spec fn point_value(self) -> u32 {
        match self {
            PieceType::BlackPawn | PieceType::WhitePawn => 100,
            PieceType::BlackKnight | PieceType::WhiteKnight => 300,
            PieceType::BlackBishop | PieceType::WhiteBishop => 300,
            PieceType::BlackRook | PieceType::WhiteRook => 500,
            PieceType::BlackQueen | PieceType::WhiteQueen => 900,
            PieceType::BlackKing | PieceType::WhiteKing => 0,
        }
    }

    /// Reads a FEN letter.
    pub fn from_char(c: char) -> (r: Option<PieceType>)
        ensures
            r == piece_of_char(c),
    {
        match c {
            'p' => Some(PieceType::BlackPawn),
            'r' => Some(PieceType::BlackRook),
            'n' => Some(PieceType::BlackKnight),
            'b' => Some(PieceType::BlackBishop),
            'q' => Some(PieceType::BlackQueen),
            'k' => Some(PieceType::BlackKing),
            'P' => Some(PieceType::WhitePawn),
            'R' => Some(PieceType::WhiteRook),
            'N' => Some(PieceType::WhiteKnight),
            'B' => Some(PieceType::WhiteBishop),
            'Q' => Some(PieceType::WhiteQueen),
            'K' => Some(PieceType::WhiteKing),
            _ => None,
        }
    }

    /// Writes the FEN letter.
    pub fn to_char(&self) -> (r: char)
        ensures
            r == self.fen_char(),
    {
        match self {
            PieceType::BlackPawn => 'p',
            PieceType::BlackRook => 'r',
            PieceType::BlackKnight => 'n',
            PieceType::BlackBishop => 'b',
            PieceType::BlackQueen => 'q',
            PieceType::BlackKing => 'k',
            PieceType::WhitePawn => 'P',
            PieceType::WhiteRook => 'R',
            PieceType::WhiteKnight => 'N',
            PieceType::WhiteBishop => 'B',
            PieceType::WhiteQueen => 'Q',
            PieceType::WhiteKing => 'K',
        }
    }

    /// True when the piece is white.
    pub fn color(&self) -> (r: bool)
        ensures
            r == self.is_white(),
    {
        matches!(
            self,
            PieceType::WhitePawn
            | PieceType::WhiteRook
            | PieceType::WhiteKnight
            | PieceType::WhiteBishop
            | PieceType::WhiteQueen
            | PieceType::WhiteKing
        )
    }

    /// The material value of the piece.
    pub fn points(&self) -> (r: u32)
        ensures
            r == self.point_value(),
    {
        match self {
            PieceType::BlackPawn | PieceType::WhitePawn => 100,
            PieceType::BlackKnight | PieceType::WhiteKnight => 300,
            PieceType::BlackBishop | PieceType::WhiteBishop => 300,
            PieceType::BlackRook | PieceType::WhiteRook => 500,
            PieceType::BlackQueen | PieceType::WhiteQueen => 900,
            PieceType::BlackKing | PieceType::WhiteKing => 0,
        }
    }
}

} // verus!
