//! Full game state: board, side to move, en-passant square and castling
//! rights, with a FEN reader and move application.

use crate::board::{empty_cells, Board, StandardBoard};
use crate::chess::{Location, Move};
use crate::piece::{Piece, PieceType, Side};
use vstd::prelude::*;

verus! {

#[derive(Clone, Copy, PartialEq, Eq, Structural, Debug)]
pub struct Castles {
    pub kingside: bool,
    pub queenside: bool,
}

/// Castling rights for both sides.
#[derive(Clone, Copy, PartialEq, Eq, Structural, Debug)]
pub struct CastlePair {
    pub white: Castles,
    pub black: Castles,
}

impl CastlePair {
    pub open spec fn none() -> CastlePair {
        CastlePair {
            white: Castles { kingside: false, queenside: false },
            black: Castles { kingside: false, queenside: false },
        }
    }

    pub open spec fn of(self, side: Side) -> Castles {
        if side is White {
            self.white
        } else {
            self.black
        }
    }

    /// This pair with one side's rights replaced.
    pub open spec fn with_side(self, side: Side, c: Castles) -> CastlePair {
        if side is White {
            CastlePair { white: c, ..self }
        } else {
            CastlePair { black: c, ..self }
        }
    }
}

#[derive(Clone, PartialEq, Eq, Debug)]
pub struct GameState {
    pub pieces: StandardBoard,
    pub to_move: Side,
    pub en_passant_sq: Option<Location>,
    pub castles: CastlePair,
}

/// The mathematical content of a game state: the board as a cell sequence
/// plus the scalar fields.
pub struct StateSpec {
    pub cells: Seq<Option<Piece>>,
    pub to_move: Side,
    pub en_passant: Option<Location>,
    pub castles: CastlePair,
}

pub open spec fn state_spec_of(st: GameState) -> StateSpec {
    StateSpec {
        cells: st.pieces.cells(),
        to_move: st.to_move,
        en_passant: st.en_passant_sq,
        castles: st.castles,
    }
}

impl GameState {
    pub open spec fn wf(self) -> bool {
        match self.en_passant_sq {
            Some(l) => l.wf(),
            None => true,
        }
    }

    pub fn get(&self, loc: Location) -> (r: Option<Piece>)
        requires
            loc.wf(),
        ensures
            r == self.pieces.cells()[loc.idx()],
    {
        self.pieces.get(loc)
    }

    pub fn set(&mut self, loc: Location, piece: Option<Piece>)
        requires
            loc.wf(),
        ensures
            final(self).pieces.cells() == old(self).pieces.cells().update(loc.idx(), piece),
            final(self).to_move == old(self).to_move,
            final(self).en_passant_sq == old(self).en_passant_sq,
            final(self).castles == old(self).castles,
    {
        self.pieces.set(loc, piece);
    }

    pub fn get_board(&self) -> (r: StandardBoard)
        ensures
            r == self.pieces,
    {
        self.pieces
    }
}

impl Default for GameState {
    fn default() -> (r: Self)
        ensures
            r.pieces.cells() == empty_cells(),
            r.to_move == Side::White,
            r.en_passant_sq is None,
            r.castles == CastlePair::none(),
            r.wf(),
    {
        GameState {
            pieces: StandardBoard::new_empty(),
            to_move: Side::White,
            en_passant_sq: None,
            castles: CastlePair {
                white: Castles { kingside: false, queenside: false },
                black: Castles { kingside: false, queenside: false },
            },
        }
    }
}

// ---------------------------------------------------------------------
// FEN reading
// ---------------------------------------------------------------------
/// The index of the first space at or after `i` (or the end of the
/// string): one past the current whitespace-separated field.
pub open spec fn token_end(s: Seq<char>, i: int) -> int
    decreases s.len() - i,
{
    if i < 0 || i >= s.len() {
        s.len() as int
    } else if s[i] == ' ' {
        i
    } else {
        token_end(s, i + 1)
    }
}

/// The index where the field after the one starting at `i` begins (the
/// separating space is consumed).
pub open spec fn next_field(s: Seq<char>, i: int) -> int {
    let e = token_end(s, i);
    if e >= s.len() {
        e
    } else {
        e + 1
    }
}

/// The piece a FEN letter denotes: the letter names the kind, its case
/// the side.
pub open spec fn fen_piece(c: char) -> Piece
    recommends
        PieceType::char_names_piece(c),
{
    Piece {
        ty: PieceType::piece_of_char(c),
        side: if 'A' <= c <= 'Z' {
            Side::White
        } else {
            Side::Black
        },
    }
}

/// Read the piece-placement field of a FEN string, from index `i` with the
/// cursor at file `x` of rank `y`: ranks run from 7 down, `/` steps to the
/// next rank, a digit skips files, a letter places a piece. `None` is a
/// malformed field (an unknown letter, a rank below the board, or a piece
/// past the last file).
pub open spec fn parse_placement(
    s: Seq<char>,
    i: int,
    x: int,
    y: int,
    cells: Seq<Option<Piece>>,
) -> Option<(Seq<Option<Piece>>, int)>
    decreases s.len() - i,
{
    if i < 0 || i >= s.len() {
        Some((cells, s.len() as int))
    } else if s[i] == ' ' {
        Some((cells, i + 1))
    } else if s[i] == '/' {
        if y == 0 {
            None
        } else {
            parse_placement(s, i + 1, 0, y - 1, cells)
        }
    } else if '0' <= s[i] <= '9' {
        parse_placement(s, i + 1, x + (s[i] as int - '0' as int), y, cells)
    } else if PieceType::char_names_piece(s[i]) {
        if 0 <= x < 8 {
            parse_placement(s, i + 1, x + 1, y, cells.update(x * 8 + y, Some(fen_piece(s[i]))))
        } else {
            None
        }
    } else {
        None
    }
}

/// Fold the castling field over the rights: `-` is skipped; otherwise an
/// upper-case letter grants White, a lower-case one Black, and `K`/`k`
/// grant kingside, anything else queenside.
pub open spec fn castles_fold(s: Seq<char>, i: int, end: int, cp: CastlePair) -> CastlePair
    decreases end - i,
{
    if i < 0 || i >= end || i >= s.len() {
        cp
    } else {
        let c = s[i];
        let cp2 = if c == '-' {
            cp
        } else {
            let side = if 'A' <= c <= 'Z' {
                Side::White
            } else {
                Side::Black
            };
            let old_c = cp.of(side);
            let new_c = if c == 'K' || c == 'k' {
                Castles { kingside: true, ..old_c }
            } else {
                Castles { queenside: true, ..old_c }
            };
            cp.with_side(side, new_c)
        };
        castles_fold(s, i + 1, end, cp2)
    }
}

/// The state a FEN string describes, or `None` where the reader rejects
/// it: the placement field must parse, the side field must be exactly `w`
/// or `b`, and an en-passant field of two or more characters must start
/// with a square in `a1..=h8`. Fields past the en-passant square are
/// ignored.
pub open spec fn fen_parse(s: Seq<char>) -> Option<StateSpec> {
    match parse_placement(s, 0, 0, 7, empty_cells()) {
        None => None,
        Some((cells, i1)) => {
            let e1 = token_end(s, i1);
            if e1 - i1 != 1 || !(s[i1] == 'w' || s[i1] == 'b') {
                None
            } else {
                let to_move = if s[i1] == 'w' {
                    Side::White
                } else {
                    Side::Black
                };
                let i2 = next_field(s, i1);
                let e2 = token_end(s, i2);
                let castles = castles_fold(s, i2, e2, CastlePair::none());
                let i3 = next_field(s, i2);
                let e3 = token_end(s, i3);
                if e3 - i3 > 1 {
                    let cx = s[i3];
                    let cy = s[i3 + 1];
                    if 'a' <= cx <= 'h' && '1' <= cy <= '8' {
                        Some(
                            StateSpec {
                                cells,
                                to_move,
                                en_passant: Some(
                                    Location::at(cx as int - 'a' as int, cy as int - '1' as int),
                                ),
                                castles,
                            },
                        )
                    } else {
                        None
                    }
                } else {
                    Some(StateSpec { cells, to_move, en_passant: None, castles })
                }
            }
        },
    }
}

/// The characters of a string, as a vector.
pub fn chars_of(s: &str) -> (v: Vec<char>)
    ensures
        v@ == s@,
{
    let n = s.unicode_len();
    let mut v: Vec<char> = Vec::new();
    let mut i: usize = 0;
    while i < n
        invariant
            i <= n,
            n == s@.len(),
            v@ == s@.subrange(0, i as int),
        decreases n - i,
    {
        let c = s.get_char(i);
        v.push(c);
        proof {
            assert(v@ =~= s@.subrange(0, i + 1));
        }
        i = i + 1;
    }
    proof {
        assert(v@ =~= s@);
    }
    v
}

/// Whether a character names a piece, in either case.
pub fn names_piece_char(c: char) -> (r: bool)
    ensures
        r == PieceType::char_names_piece(c),
{
    c == 'P' || c == 'p' || c == 'N' || c == 'n' || c == 'B' || c == 'b' || c == 'R' || c == 'r'
        || c == 'Q' || c == 'q' || c == 'K' || c == 'k'
}

/// Scan to the end of the current whitespace-separated field.
fn token_end_exec(chars: &Vec<char>, start: usize) -> (e: usize)
    requires
        start <= chars@.len(),
    ensures
        e == token_end(chars@, start as int),
        start <= e <= chars@.len(),
{
    let mut j = start;
    while j < chars.len()
        invariant
            start <= j <= chars@.len(),
            token_end(chars@, start as int) == token_end(chars@, j as int),
        decreases chars@.len() - j,
    {
        if chars[j] == ' ' {
            return j;
        }
        j = j + 1;
    }
    j
}

/// Read the piece-placement field.
fn placement_exec(chars: &Vec<char>) -> (r: Option<(StandardBoard, usize)>)
    ensures
        match parse_placement(chars@, 0, 0, 7, empty_cells()) {
            None => r is None,
            Some(f) => r matches Some(p) && p.0.cells() == f.0 && p.1 == f.1 && p.0.wf() && p.1
                <= chars@.len(),
        },
{
    let ghost s = chars@;
    let mut board = StandardBoard::new_empty();
    let mut i: usize = 0;
    let mut x: u32 = 0;
    let mut y: u8 = 7;
    let ghost mut gx: int = 0;
    while i < chars.len()
        invariant
            i <= s.len(),
            s == chars@,
            board.wf(),
            board.cells().len() == 64,
            y < 8,
            x <= 17,
            x as int == gx || (x > 8 && gx > 8),
            parse_placement(s, 0, 0, 7, empty_cells()) == parse_placement(
                s,
                i as int,
                gx,
                y as int,
                board.cells(),
            ),
        decreases s.len() - i,
    {
        let c = chars[i];
        if c == ' ' {
            return Some((board, i + 1));
        } else if c == '/' {
            if y == 0 {
                return None;
            }
            y = y - 1;
            x = 0;
            proof {
                gx = 0;
            }
        } else if '0' <= c && c <= '9' {
            let d = c as u32 - '0' as u32;
            if x <= 8 {
                x = x + d;
            }
            proof {
                gx = gx + (c as int - '0' as int);
            }
        } else if names_piece_char(c) {
            if x >= 8 {
                return None;
            }
            let loc = Location::new(x as u8, y);
            board.set(loc, Some(Piece::from_fen_char(c)));
            x = x + 1;
            proof {
                gx = gx + 1;
            }
        } else {
            return None;
        }
        i = i + 1;
    }
    Some((board, i))
}

/// Read a FEN string, or `None` where `fen_parse` rejects it.
pub fn try_from_fen(s: &str) -> (r: Option<GameState>)
    ensures
        match fen_parse(s@) {
            None => r is None,
            Some(f) => r matches Some(st) && state_spec_of(st) == f && st.wf(),
        },
{
    let chars = chars_of(s);
    try_from_fen_chars(&chars)
}

/// Read a FEN string given as characters, or `None` where `fen_parse`
/// rejects it.
pub fn try_from_fen_chars(chars: &Vec<char>) -> (r: Option<GameState>)
    ensures
        match fen_parse(chars@) {
            None => r is None,
            Some(f) => r matches Some(st) && state_spec_of(st) == f && st.wf(),
        },
{
    let ghost sq = chars@;
    let (board, i1) = match placement_exec(&chars) {
        Some(p) => p,
        None => {
            return None;
        },
    };
    let e1 = token_end_exec(&chars, i1);
    if e1 - i1 != 1 {
        return None;
    }
    let sc = chars[i1];
    let to_move = if sc == 'w' {
        Side::White
    } else if sc == 'b' {
        Side::Black
    } else {
        return None;
    };
    let i2 = if e1 >= chars.len() {
        e1
    } else {
        e1 + 1
    };
    let e2 = token_end_exec(&chars, i2);
    let mut castles = CastlePair {
        white: Castles { kingside: false, queenside: false },
        black: Castles { kingside: false, queenside: false },
    };
    let mut j = i2;
    while j < e2
        invariant
            i2 <= j <= e2 <= sq.len(),
            sq == chars@,
            castles_fold(sq, i2 as int, e2 as int, CastlePair::none()) == castles_fold(
                sq,
                j as int,
                e2 as int,
                castles,
            ),
        decreases e2 - j,
    {
        let c = chars[j];
        if c != '-' {
            let white = 'A' <= c && c <= 'Z';
            let king = c == 'K' || c == 'k';
            if white {
                if king {
                    castles.white.kingside = true;
                } else {
                    castles.white.queenside = true;
                }
            } else {
                if king {
                    castles.black.kingside = true;
                } else {
                    castles.black.queenside = true;
                }
            }
        }
        j = j + 1;
    }
    let i3 = if e2 >= chars.len() {
        e2
    } else {
        e2 + 1
    };
    let e3 = token_end_exec(&chars, i3);
    let en_passant_sq = if e3 - i3 > 1 {
        let cx = chars[i3];
        let cy = chars[i3 + 1];
        if 'a' <= cx && cx <= 'h' && '1' <= cy && cy <= '8' {
            Some(Location::from_letters(cx, cy))
        } else {
            return None;
        }
    } else {
        None
    };
    proof {
        match en_passant_sq {
            Some(l) => crate::chess::lemma_location_at_coords(l),
            None => (),
        }
    }
    Some(GameState { pieces: board, to_move, en_passant_sq, castles })
}

// ---------------------------------------------------------------------
// Applying a move
// ---------------------------------------------------------------------
pub open spec fn abs_diff(a: int, b: int) -> int {
    if a >= b {
        a - b
    } else {
        b - a
    }
}

/// The preconditions under which applying `m` stays on the board: both
/// squares are real, and the pawn bookkeeping squares (the pawn captured
/// en passant, the square skipped by a double step) do not leave it.
pub open spec fn play_ok(f: StateSpec, m: Move) -> bool {
    let prev = f.cells[m.0.idx()];
    &&& m.0.wf()
    &&& m.1.wf()
    &&& match prev {
        Some(p) => p.ty is Pawn ==> {
            &&& (f.en_passant == Some(m.1) ==> (if p.side is Black {
                m.1.y() <= 6
            } else {
                m.1.y() >= 1
            }))
            &&& (abs_diff(m.0.y(), m.1.y()) == 2 ==> (if p.side is Black {
                m.0.y() >= 1
            } else {
                m.0.y() <= 6
            }))
        },
        None => true,
    }
}

/// The state after playing `m`: the side to move flips; a king moving two
/// files also moves its rook and spends that side's castling right; a pawn
/// landing on the en-passant square removes the passed pawn; a pawn double
/// step records the skipped square; then the piece itself moves, replaced
/// by the promotion piece if one is named.
pub open spec fn played(f: StateSpec, m: Move) -> StateSpec
    recommends
        play_ok(f, m),
{
    let prev = f.cells[m.0.idx()];
    let castling = match prev {
        Some(k) => k.ty is King && abs_diff(m.0.x(), m.1.x()) == 2,
        None => false,
    };
    let side = prev->0.side;
    let (cells1, castles1): (Seq<Option<Piece>>, CastlePair) = if castling {
        let old_c = f.castles.of(side);
        if m.1.x() < m.0.x() {
            (
                f.cells.update(Location::at(0, m.0.y()).idx(), None).update(
                    Location::at(3, m.0.y()).idx(),
                    Some(Piece { ty: PieceType::Rook, side }),
                ),
                f.castles.with_side(side, Castles { queenside: false, ..old_c }),
            )
        } else {
            (
                f.cells.update(Location::at(7, m.0.y()).idx(), None).update(
                    Location::at(5, m.0.y()).idx(),
                    Some(Piece { ty: PieceType::Rook, side }),
                ),
                f.castles.with_side(side, Castles { kingside: false, ..old_c }),
            )
        }
    } else {
        (f.cells, f.castles)
    };
    let pawn = match prev {
        Some(p) => p.ty is Pawn,
        None => false,
    };
    let cells2 = if pawn && f.en_passant == Some(m.1) {
        let cap_y = if side is Black {
            m.1.y() + 1
        } else {
            m.1.y() - 1
        };
        cells1.update(Location::at(m.1.x(), cap_y).idx(), None)
    } else {
        cells1
    };
    let new_ep = if pawn && abs_diff(m.0.y(), m.1.y()) == 2 {
        Some(Location::at(m.0.x(), if side is Black {
            m.0.y() - 1
        } else {
            m.0.y() + 1
        }))
    } else {
        None
    };
    let cells3 = cells2.update(m.0.idx(), None).update(m.1.idx(), prev);
    let cells4 = match (m.2, prev) {
        (Some(promo), Some(pp)) => cells3.update(m.1.idx(), Some(Piece { ty: promo, side })),
        _ => cells3,
    };
    StateSpec {
        cells: cells4,
        to_move: if f.to_move is White {
            Side::Black
        } else {
            Side::White
        },
        en_passant: new_ep,
        castles: castles1,
    }
}

/// Whether applying `m` to this state stays on the board (see `play_ok`).
pub fn play_allowed(st: &GameState, m: Move) -> (b: bool)
    ensures
        b == play_ok(state_spec_of(*st), m),
{
    if !(m.0 .0 < 64 && m.1 .0 < 64) {
        return false;
    }
    let prev = st.get(m.0);
    match prev {
        Some(p) => {
            if p.ty == PieceType::Pawn {
                let ep_hit = match st.en_passant_sq {
                    Some(l) => l == m.1,
                    None => false,
                };
                let ep_ok = if ep_hit {
                    match p.side {
                        Side::Black => m.1.get_y() <= 6,
                        Side::White => m.1.get_y() >= 1,
                    }
                } else {
                    true
                };
                let dbl_ok = if abs_diff_u8(m.0.get_y(), m.1.get_y()) == 2 {
                    match p.side {
                        Side::Black => m.0.get_y() >= 1,
                        Side::White => m.0.get_y() <= 6,
                    }
                } else {
                    true
                };
                ep_ok && dbl_ok
            } else {
                true
            }
        },
        None => true,
    }
}

fn abs_diff_u8(a: u8, b: u8) -> (r: u8)
    ensures
        r == abs_diff(a as int, b as int),
{
    if a >= b {
        a - b
    } else {
        b - a
    }
}

impl GameState {
    /// Apply a move to this state.
    pub fn play(&mut self, m: Move)
        requires
            play_ok(state_spec_of(*old(self)), m),
        ensures
            state_spec_of(*final(self)) == played(state_spec_of(*old(self)), m),
            final(self).wf(),
    {
        let ghost f = state_spec_of(*self);
        self.to_move = self.to_move.opposite();
        let prev = self.get(m.0);

        match prev {
            Some(king) => {
                if king.ty == PieceType::King && abs_diff_u8(m.0.get_x(), m.1.get_x()) == 2 {
                    let y0 = m.0.get_y();
                    if m.1.get_x() < m.0.get_x() {
                        match king.side {
                            Side::White => {
                                self.castles.white.queenside = false;
                            },
                            Side::Black => {
                                self.castles.black.queenside = false;
                            },
                        }
                        self.set(m.0.with_x(0), None);
                        self.set(
                            m.0.with_x(3),
                            Some(Piece { ty: PieceType::Rook, side: king.side }),
                        );
                    } else {
                        match king.side {
                            Side::White => {
                                self.castles.white.kingside = false;
                            },
                            Side::Black => {
                                self.castles.black.kingside = false;
                            },
                        }
                        self.set(m.0.with_x(7), None);
                        self.set(
                            m.0.with_x(5),
                            Some(Piece { ty: PieceType::Rook, side: king.side }),
                        );
                    }
                }
            },
            None => {},
        }

        let old_en_passant_sq = self.en_passant_sq;
        self.en_passant_sq = None;

        match prev {
            Some(piece) => {
                if piece.ty == PieceType::Pawn {
                    if Some(m.1) == old_en_passant_sq {
                        let captured_location = match piece.side {
                            Side::Black => m.1.with_y(m.1.get_y() + 1),
                            Side::White => m.1.with_y(m.1.get_y() - 1),
                        };
                        self.set(captured_location, None);
                    }
                    if abs_diff_u8(m.0.get_y(), m.1.get_y()) == 2 {
                        match piece.side {
                            Side::Black => {
                                self.en_passant_sq = Some(m.0.with_y(m.0.get_y() - 1));
                            },
                            Side::White => {
                                self.en_passant_sq = Some(m.0.with_y(m.0.get_y() + 1));
                            },
                        }
                    }
                }
            },
            None => {},
        }

        self.set(m.0, None);
        self.set(m.1, prev);
        match (m.2, prev) {
            (Some(promotion), Some(prev_piece)) => {
                self.set(m.1, Some(Piece { ty: promotion, side: prev_piece.side }));
            },
            _ => {},
        }
        proof {
            assert(state_spec_of(*self).cells =~= played(f, m).cells);
        }
    }

    /// Read a FEN string; the caller vouches that it is well formed.
    pub fn from_fen(str: &str) -> (r: Self)
        requires
            fen_parse(str@) is Some,
        ensures
            state_spec_of(r) == fen_parse(str@).unwrap(),
            r.wf(),
    {
        try_from_fen(str).unwrap()
    }
}

} // verus!
