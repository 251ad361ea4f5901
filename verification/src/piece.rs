//! Pieces, sides and piece kinds, together with the 4-bit encoding shared
//! with the device kernels: bit 3 carries the side (set for White), bits
//! 0..=2 carry the piece kind (1 through 6, 0 meaning an empty square).

use vstd::prelude::*;

verus! {

#[derive(Clone, Copy, PartialEq, Eq, Structural, Debug)]
pub enum Side {
    Black,
    White,
}

impl Side {
    /// The side flag as the kernels read it from the global parameters and
    /// from board nibbles: 8 for White, 0 for Black.
    pub fn gpu_representation(&self) -> (r: u32)
        ensures
            r == (if self is White { 8u32 } else { 0u32 }),
    {
        match self {
            Side::Black => 0x0,
            Side::White => 0x8,
        }
    }

    pub fn opposite(&self) -> (r: Self)
        ensures
            r == (if self is White { Side::Black } else { Side::White }),
    {
        match self {
            Side::Black => Side::White,
            Side::White => Side::Black,
        }
    }
}

#[derive(Clone, Copy, PartialEq, Eq, Structural, Debug)]
pub enum PieceType {
    King,
    Queen,
    Bishop,
    Rook,
    Horsy,
    Pawn,
}

impl PieceType {
    /// The 3-bit code of this piece kind inside a board nibble.
    pub open spec fn triplet(self) -> u8 {
        match self {
            PieceType::King => 1,
            PieceType::Queen => 2,
            PieceType::Bishop => 3,
            PieceType::Rook => 4,
            PieceType::Horsy => 5,
            PieceType::Pawn => 6,
        }
    }

    /// Parse from the low three bits of a nibble.
    pub fn from_triplet(b: u8) -> (r: Self)
        requires
            1 <= b <= 6,
        ensures
            r.triplet() == b,
    {
        match b {
            1 => Self::King,
            2 => Self::Queen,
            3 => Self::Bishop,
            4 => Self::Rook,
            5 => Self::Horsy,
            _ => Self::Pawn,
        }
    }

    pub fn to_byte(&self) -> (r: u8)
        ensures
            r == self.triplet(),
    {
        match self {
            PieceType::King => 1,
            PieceType::Queen => 2,
            PieceType::Bishop => 3,
            PieceType::Rook => 4,
            PieceType::Horsy => 5,
            PieceType::Pawn => 6,
        }
    }

    /// The letter used for this piece kind in algebraic notation and in FEN
    /// (upper case).
    pub open spec fn letter(self) -> char {
        match self {
            PieceType::King => 'K',
            PieceType::Queen => 'Q',
            PieceType::Bishop => 'B',
            PieceType::Rook => 'R',
            PieceType::Horsy => 'N',
            PieceType::Pawn => 'P',
        }
    }

    pub fn to_char(&self) -> (r: char)
        ensures
            r == self.letter(),
    {
        match self {
            PieceType::King => 'K',
            PieceType::Queen => 'Q',
            PieceType::Bishop => 'B',
            PieceType::Rook => 'R',
            PieceType::Horsy => 'N',
            PieceType::Pawn => 'P',
        }
    }

    /// Whether `c` names a piece kind, in either case.
    pub open spec fn char_names_piece(c: char) -> bool {
        c == 'P' || c == 'p' || c == 'N' || c == 'n' || c == 'B' || c == 'b' || c == 'R' || c == 'r'
            || c == 'Q' || c == 'q' || c == 'K' || c == 'k'
    }

    /// The piece kind a letter names, in either case.
    pub open spec fn piece_of_char(c: char) -> PieceType
        recommends
            Self::char_names_piece(c),
    {
        if c == 'P' || c == 'p' {
            PieceType::Pawn
        } else if c == 'N' || c == 'n' {
            PieceType::Horsy
        } else if c == 'B' || c == 'b' {
            PieceType::Bishop
        } else if c == 'R' || c == 'r' {
            PieceType::Rook
        } else if c == 'Q' || c == 'q' {
            PieceType::Queen
        } else {
            PieceType::King
        }
    }

    pub fn from_char(char: char) -> (r: Self)
        requires
            Self::char_names_piece(char),
        ensures
            r == Self::piece_of_char(char),
    {
        if char == 'P' || char == 'p' {
            PieceType::Pawn
        } else if char == 'N' || char == 'n' {
            PieceType::Horsy
        } else if char == 'B' || char == 'b' {
            PieceType::Bishop
        } else if char == 'R' || char == 'r' {
            PieceType::Rook
        } else if char == 'Q' || char == 'q' {
            PieceType::Queen
        } else {
            PieceType::King
        }
    }
}

#[derive(Clone, Copy, PartialEq, Eq, Structural, Debug)]
pub struct Piece {
    pub ty: PieceType,
    pub side: Side,
}

impl Piece {
    pub fn new(side: Side, ty: PieceType) -> (r: Self)
        ensures
            r == (Piece { ty, side }),
    {
        Piece { ty, side }
    }

    /// An upper-case FEN letter makes a White piece, a lower-case one a
    /// Black piece.
    pub fn from_fen_char(char: char) -> (r: Self)
        requires
            PieceType::char_names_piece(char),
        ensures
            r.ty == PieceType::piece_of_char(char),
            r.side == (if 'A' <= char <= 'Z' { Side::White } else { Side::Black }),
    {
        let side = if 'A' <= char && char <= 'Z' {
            Side::White
        } else {
            Side::Black
        };
        let piece = PieceType::from_char(char);
        Piece::new(side, piece)
    }

    /// The nibble stored for this piece in the device board encoding.
    pub open spec fn nibble(self) -> u8 {
        (if self.side is White { 8u8 } else { 0u8 } | self.ty.triplet()) as u8
    }

    pub fn as_nibble(&self) -> (r: u8)
        ensures
            r == self.nibble(),
            1 <= r <= 14,
            r != 7,
            r != 8,
    {
        let side_indicator: u8 = match self.side {
            Side::Black => 0x0,
            Side::White => 0x8,
        };
        let r = side_indicator | self.ty.to_byte();
        proof {
            let t = self.ty.triplet();
            assert(1 <= t <= 6);
            assert((0u8 | t) == t) by (bit_vector);
            assert(1 <= t <= 6 ==> 9 <= (8u8 | t) <= 14 && (8u8 | t) != 7 && (8u8 | t) != 8)
                by (bit_vector);
        }
        r
    }

    /// The letter for this piece in FEN: the kind's letter, lower case for
    /// Black.
    pub open spec fn fen_letter(self) -> char {
        if self.side is White {
            self.ty.letter()
        } else {
            lower_of_piece_letter(self.ty.letter())
        }
    }

    pub fn to_char(&self) -> (r: char)
        ensures
            r == self.fen_letter(),
    {
        let piece_char = self.ty.to_char();
        match self.side {
            Side::White => piece_char,
            Side::Black => match piece_char {
                'K' => 'k',
                'Q' => 'q',
                'B' => 'b',
                'R' => 'r',
                'N' => 'n',
                _ => 'p',
            },
        }
    }
}

/// Lower-case counterpart of an upper-case piece letter.
pub open spec fn lower_of_piece_letter(c: char) -> char {
    if c == 'K' {
        'k'
    } else if c == 'Q' {
        'q'
    } else if c == 'B' {
        'b'
    } else if c == 'R' {
        'r'
    } else if c == 'N' {
        'n'
    } else {
        'p'
    }
}

} // verus!
