//! Squares, moves in long algebraic notation, and evaluation scores,
//! including the sign-bit transform that makes unsigned comparisons on the
//! device order-equivalent to signed comparisons on the host.

use crate::piece::{PieceType, Side};
use vstd::prelude::*;

verus! {

/// The most children one board can produce in a single expansion; the
/// expand dispatch's output allocation is provisioned for this worst case.
pub const MAX_MOVES: u32 = 218;

/// A board square, packed as `x * 8 + y` with both coordinates in `0..8`
/// (`x` is the file, `y` the rank, both zero-based).
#[derive(Clone, Copy, PartialEq, Eq, Structural, Debug)]
pub struct Location(pub u8);

impl Location {
    /// Well-formed: the packed code addresses one of the 64 squares.
    pub open spec fn wf(self) -> bool {
        self.0 < 64
    }

    /// The file, `0..8`.
    pub open spec fn x(self) -> int {
        self.0 as int / 8
    }

    /// The rank, `0..8`.
    pub open spec fn y(self) -> int {
        self.0 as int % 8
    }

    /// The index of this square in a 64-cell board array.
    pub open spec fn idx(self) -> int {
        self.0 as int
    }

    /// The square with the given coordinates.
    pub open spec fn at(x: int, y: int) -> Location
        recommends
            0 <= x < 8,
            0 <= y < 8,
    {
        Location((x * 8 + y) as u8)
    }

    pub fn new(x: u8, y: u8) -> (r: Self)
        requires
            x < 8,
            y < 8,
        ensures
            r == Location::at(x as int, y as int),
            r.wf(),
            r.x() == x,
            r.y() == y,
    {
        let code = (x << 3) | (y & 0x07);
        proof {
            assert(x < 8 && y < 8 ==> ((x << 3) | (y & 0x07)) == x * 8 + y) by (bit_vector);
            assert(x < 8 && y < 8 ==> x * 8 + y < 64) by (bit_vector);
            let c = (x * 8 + y) as u8;
            assert(c as int / 8 == x && c as int % 8 == y) by (nonlinear_arith)
                requires
                    x < 8,
                    y < 8,
                    c == x * 8 + y,
            ;
        }
        Self(code)
    }

    /// Parse a square from its file letter (`'a'..='h'`) and rank digit
    /// (`'1'..='8'`).
    pub fn from_letters(x: char, y: char) -> (r: Self)
        requires
            'a' <= x <= 'h',
            '1' <= y <= '8',
        ensures
            r.wf(),
            r.x() == x as int - 'a' as int,
            r.y() == y as int - '1' as int,
    {
        let xv = (x as u32 - 'a' as u32) as u8;
        let yv = (y as u32 - '1' as u32) as u8;
        Self::new(xv, yv)
    }

    pub fn get_x(&self) -> (r: u8)
        ensures
            r == self.x(),
    {
        let c = self.0;
        proof {
            assert(c >> 3 == c / 8) by (bit_vector);
        }
        c >> 3
    }

    pub fn get_y(&self) -> (r: u8)
        ensures
            r == self.y(),
    {
        let c = self.0;
        proof {
            assert(c & 0x07 == c % 8) by (bit_vector);
        }
        c & 0x07
    }

    /// Every square, in board-array order.
    pub fn all() -> (r: Vec<Location>)
        ensures
            r@.len() == 64,
            forall|i: int| 0 <= i < 64 ==> (#[trigger] r@[i]) == Location(i as u8),
            forall|i: int| 0 <= i < 64 ==> (#[trigger] r@[i]).wf() && r@[i].idx() == i,
    {
        let mut v: Vec<Location> = Vec::new();
        let mut i: u8 = 0;
        while i < 64
            invariant
                i <= 64,
                v@.len() == i,
                forall|j: int| 0 <= j < i ==> (#[trigger] v@[j]) == Location(j as u8),
            decreases 64 - i,
        {
            v.push(Location(i));
            i = i + 1;
        }
        v
    }

    pub fn with_y(&self, y: u8) -> (r: Self)
        requires
            self.wf(),
            y < 8,
        ensures
            r == Location::at(self.x(), y as int),
    {
        Location::new(self.get_x(), y)
    }

    pub fn with_x(&self, x: u8) -> (r: Self)
        requires
            self.wf(),
            x < 8,
        ensures
            r == Location::at(x as int, self.y()),
    {
        Location::new(x, self.get_y())
    }

    /// Offset this square, or `None` if the result leaves the board.
    pub fn try_add(&self, dx: i16, dy: i16) -> (r: Option<Self>)
        requires
            self.wf(),
        ensures
            r == Location::shifted(*self, dx as int, dy as int),
    {
        let nx = self.get_x() as i32 + dx as i32;
        let ny = self.get_y() as i32 + dy as i32;
        if nx >= 8 || ny >= 8 || nx < 0 || ny < 0 {
            None
        } else {
            Some(Location::new(nx as u8, ny as u8))
        }
    }

    /// The square `(dx, dy)` away, if it is still on the board.
    pub open spec fn shifted(base: Location, dx: int, dy: int) -> Option<Location> {
        let nx = base.x() + dx;
        let ny = base.y() + dy;
        if 0 <= nx < 8 && 0 <= ny < 8 {
            Some(Location::at(nx, ny))
        } else {
            None
        }
    }
}

/// A square is determined by its coordinates.
pub proof fn lemma_location_at_coords(l: Location)
    requires
        l.wf(),
    ensures
        Location::at(l.x(), l.y()) == l,
{
    let c = l.0;
    assert((c as int / 8) * 8 + c as int % 8 == c as int) by (nonlinear_arith);
}

/// A move in long algebraic notation: origin, destination, and the piece
/// kind promoted to, if any.
#[derive(Clone, Copy, PartialEq, Eq, Structural, Debug)]
pub struct Move(pub Location, pub Location, pub Option<PieceType>);

impl Move {
    /// Whether `s` is a move in long algebraic notation: two squares, then
    /// optionally a promotion letter.
    pub open spec fn notation_ok(s: Seq<char>) -> bool {
        &&& (s.len() == 4 || s.len() == 5)
        &&& 'a' <= s[0] <= 'h'
        &&& '1' <= s[1] <= '8'
        &&& 'a' <= s[2] <= 'h'
        &&& '1' <= s[3] <= '8'
        &&& (s.len() == 5 ==> PieceType::char_names_piece(s[4]))
    }

    /// The move `s` denotes.
    pub open spec fn parsed(s: Seq<char>) -> Move
        recommends
            Move::notation_ok(s),
    {
        Move(
            Location::at(s[0] as int - 'a' as int, s[1] as int - '1' as int),
            Location::at(s[2] as int - 'a' as int, s[3] as int - '1' as int),
            if s.len() == 5 {
                Some(PieceType::piece_of_char(s[4]))
            } else {
                None
            },
        )
    }

    /// Parse long algebraic notation, as used by the text control protocol.
    pub fn from_str(str: &str) -> (r: Move)
        requires
            Move::notation_ok(str@),
        ensures
            r == Move::parsed(str@),
    {
        let len = str.unicode_len();
        let c0 = str.get_char(0);
        let c1 = str.get_char(1);
        let c2 = str.get_char(2);
        let c3 = str.get_char(3);
        let promote = if len == 5 {
            Some(PieceType::from_char(str.get_char(4)))
        } else {
            None
        };
        Move(Location::from_letters(c0, c1), Location::from_letters(c2, c3), promote)
    }

    /// Whether these characters are a move in long algebraic notation.
    pub fn check_notation(chars: &Vec<char>) -> (b: bool)
        ensures
            b == Move::notation_ok(chars@),
    {
        let n = chars.len();
        if n != 4 && n != 5 {
            return false;
        }
        let c0 = chars[0];
        let c1 = chars[1];
        let c2 = chars[2];
        let c3 = chars[3];
        let squares = 'a' <= c0 && c0 <= 'h' && '1' <= c1 && c1 <= '8' && 'a' <= c2 && c2 <= 'h'
            && '1' <= c3 && c3 <= '8';
        if !squares {
            return false;
        }
        if n == 5 {
            crate::state::names_piece_char(chars[4])
        } else {
            true
        }
    }

    /// Parse long algebraic notation given as characters.
    pub fn from_chars(chars: &Vec<char>) -> (r: Move)
        requires
            Move::notation_ok(chars@),
        ensures
            r == Move::parsed(chars@),
    {
        let promote = if chars.len() == 5 {
            Some(PieceType::from_char(chars[4]))
        } else {
            None
        };
        Move(
            Location::from_letters(chars[0], chars[1]),
            Location::from_letters(chars[2], chars[3]),
            promote,
        )
    }

    /// This move's long algebraic notation, as characters.
    pub fn uci_chars(&self) -> (r: Vec<char>)
        requires
            self.0.wf(),
            self.1.wf(),
        ensures
            Move::notation_ok(r@),
            Move::parsed(r@) == *self,
    {
        let mut v: Vec<char> = Vec::new();
        v.push(file_char(self.0.get_x()));
        v.push(rank_char(self.0.get_y()));
        v.push(file_char(self.1.get_x()));
        v.push(rank_char(self.1.get_y()));
        match self.2 {
            Some(p) => { v.push(p.to_char()); },
            None => {},
        }
        proof {
            lemma_location_at_coords(self.0);
            lemma_location_at_coords(self.1);
            if self.2 is Some {
                assert(PieceType::piece_of_char(self.2->0.letter()) == self.2->0);
            }
        }
        v
    }
}

/// The file letter of column `x`.
fn file_char(x: u8) -> (r: char)
    requires
        x < 8,
    ensures
        'a' <= r <= 'h',
        r as int - 'a' as int == x,
{
    match x {
        0 => 'a',
        1 => 'b',
        2 => 'c',
        3 => 'd',
        4 => 'e',
        5 => 'f',
        6 => 'g',
        _ => 'h',
    }
}

/// The rank digit of row `y`.
fn rank_char(y: u8) -> (r: char)
    requires
        y < 8,
    ensures
        '1' <= r <= '8',
        r as int - '1' as int == y,
{
    match y {
        0 => '1',
        1 => '2',
        2 => '3',
        3 => '4',
        4 => '5',
        5 => '6',
        6 => '7',
        _ => '8',
    }
}

/// An evaluation in centipawns; positive favors White (the maximizing
/// side).
#[derive(Clone, Copy, PartialEq, Eq, Structural, Debug)]
pub struct EvalScore(pub i32);

impl EvalScore {
    pub fn from(i: i32) -> (r: Self)
        ensures
            r == EvalScore(i),
    {
        Self(i)
    }

    /// The worst score for `side`: the one every real evaluation improves
    /// on.
    pub fn worst(side: Side) -> (r: Self)
        ensures
            r == (if side is White { EvalScore(i32::MIN) } else { EvalScore(i32::MAX) }),
    {
        match side {
            Side::White => Self(i32::MIN),
            Side::Black => Self(i32::MAX),
        }
    }

    /// Whether `a` is better than `b` from `side`'s point of view, as an
    /// ordering (`Greater` meaning `a` is better).
    pub fn better(a: &Self, b: &Self, side: Side) -> (r: core::cmp::Ordering)
        ensures
            r == EvalScore::better_spec(*a, *b, side),
    {
        match side {
            Side::White => {
                if a.0 < b.0 {
                    core::cmp::Ordering::Less
                } else if a.0 == b.0 {
                    core::cmp::Ordering::Equal
                } else {
                    core::cmp::Ordering::Greater
                }
            },
            Side::Black => {
                if a.0 < b.0 {
                    core::cmp::Ordering::Greater
                } else if a.0 == b.0 {
                    core::cmp::Ordering::Equal
                } else {
                    core::cmp::Ordering::Less
                }
            },
        }
    }

    pub open spec fn better_spec(a: EvalScore, b: EvalScore, side: Side) -> core::cmp::Ordering {
        if a.0 == b.0 {
            core::cmp::Ordering::Equal
        } else if (a.0 < b.0) == (side is Black) {
            core::cmp::Ordering::Greater
        } else {
            core::cmp::Ordering::Less
        }
    }

    /// The score in centipawns, with positive good for White and negative
    /// good for Black.
    pub fn to_centipawn(&self) -> (r: i64)
        ensures
            r == self.0 as i64,
    {
        self.0 as i64
    }

    /// The score in centipawns relative to `side`: positive numbers are
    /// good for the side specified.
    pub fn centipawn_relative(&self, side: Side) -> (r: i64)
        ensures
            r == (if side is White { self.0 as int } else { -(self.0 as int) }),
    {
        match side {
            Side::White => self.0 as i64,
            Side::Black => -(self.0 as i64),
        }
    }

    /// The 32-bit word holding this score on the device: the sign bit is
    /// flipped so that unsigned comparisons in the kernels agree with
    /// signed comparisons on the host.
    pub open spec fn device_word_spec(self) -> u32 {
        (self.0 as u32) ^ 0x8000_0000
    }

    pub fn device_word(&self) -> (r: u32)
        ensures
            r == self.device_word_spec(),
    {
        (self.0 as u32) ^ 0x8000_0000
    }

    /// Undo the sign-bit transform on a word read back from the device.
    pub fn from_device_word(w: u32) -> (r: Self)
        ensures
            r == EvalScore((w ^ 0x8000_0000) as i32),
            r.device_word_spec() == w,
    {
        let r = Self((w ^ 0x8000_0000) as i32);
        proof {
            assert(((w ^ 0x8000_0000) as i32) as u32 ^ 0x8000_0000 == w) by (bit_vector);
        }
        r
    }
}

/// The sign-bit transform is injective and order-preserving: unsigned
/// comparison of device words agrees with signed comparison of scores.
pub proof fn lemma_device_word_order(a: EvalScore, b: EvalScore)
    ensures
        a.device_word_spec() < b.device_word_spec() <==> a.0 < b.0,
        a.device_word_spec() == b.device_word_spec() <==> a.0 == b.0,
{
    let x = a.0;
    let y = b.0;
    assert(((x as u32 ^ 0x8000_0000) < (y as u32 ^ 0x8000_0000)) <==> x < y) by (bit_vector);
    assert(((x as u32 ^ 0x8000_0000) == (y as u32 ^ 0x8000_0000)) <==> x == y) by (bit_vector);
}

/// Round trip: decoding a score's device word gives the score back.
pub proof fn lemma_device_word_roundtrip(e: EvalScore)
    ensures
        EvalScore((e.device_word_spec() ^ 0x8000_0000) as i32) == e,
{
    let x = e.0;
    assert(((x as u32 ^ 0x8000_0000) ^ 0x8000_0000) as i32 == x) by (bit_vector);
}

} // verus!
