//! Chess boards: the host-side array form and the packed form shared with
//! the device kernels (8 rows of eight 4-bit piece nibbles plus one
//! reserved word), with validity checking and move reconstruction.

use crate::chess::Location;
use crate::chess::Move;
use crate::piece::{Piece, PieceType, Side};
use vstd::prelude::*;

verus! {

broadcast use vstd::array::group_array_axioms;

/// The board with no pieces, as a cell sequence.
pub open spec fn empty_cells() -> Seq<Option<Piece>> {
    Seq::new(64, |i: int| None::<Piece>)
}

/// A 64-square board, abstracted as a sequence of cells indexed by
/// `Location::idx` (`x * 8 + y`).
pub trait Board: Sized {
    /// The cells, as a mathematical sequence of length 64.
    spec fn cells(&self) -> Seq<Option<Piece>>;

    /// The representation invariant of the concrete board.
    spec fn wf(&self) -> bool;

    /// A well-formed board has exactly 64 cells.
    proof fn lemma_cells_len(&self)
        requires
            self.wf(),
        ensures
            self.cells().len() == 64,
    ;

    fn new_empty() -> (r: Self)
        ensures
            r.wf(),
            r.cells() == empty_cells(),
    ;

    fn get(&self, index: Location) -> (r: Option<Piece>)
        requires
            self.wf(),
            index.wf(),
        ensures
            r == self.cells()[index.idx()],
    ;

    fn set(&mut self, index: Location, piece: Option<Piece>)
        requires
            old(self).wf(),
            index.wf(),
        ensures
            final(self).wf(),
            final(self).cells() == old(self).cells().update(index.idx(), piece),
    ;
}

/// The plain host-side board: one `Option<Piece>` per square.
#[derive(Clone, Copy, PartialEq, Eq, Debug)]
pub struct StandardBoard(pub [Option<Piece>; 64]);

impl Board for StandardBoard {
    open spec fn cells(&self) -> Seq<Option<Piece>> {
        self.0@
    }

    open spec fn wf(&self) -> bool {
        true
    }

    proof fn lemma_cells_len(&self) {
    }

    fn new_empty() -> (r: Self) {
        let cells: [Option<Piece>; 64] = vstd::array::array_fill_for_copy_types(None);
        let r = Self(cells);
        proof {
            assert forall|i: int| 0 <= i < 64 implies r.cells()[i] == None::<Piece> by {}
            assert(r.cells() =~= empty_cells());
        }
        r
    }

    fn get(&self, index: Location) -> (r: Option<Piece>) {
        self.0[index.0 as usize]
    }

    fn set(&mut self, index: Location, piece: Option<Piece>) {
        self.0[index.0 as usize] = piece;
    }
}

impl StandardBoard {
    /// Whether the position is legal enough to keep searching: exactly one
    /// king per side, and the king of the side that just moved is not
    /// attacked.
    pub fn is_valid(&self, last_moved: Side) -> (r: bool)
        ensures
            r == valid_board(self.cells(), last_moved),
    {
        is_valid_impl(self, last_moved)
    }
}

/// The packed board uploaded to and read back from the device: rows
/// `0..8` hold eight piece nibbles each, word 8 is reserved (the kernels
/// use it to record the parent board's index).
#[derive(Clone, Copy, Debug)]
pub struct GpuBoard(pub [u32; 9]);

/// The nibble of column `x` in row word `w`.
pub open spec fn nibble_in_row(w: u32, x: int) -> u32 {
    (w >> (4 * x as u32)) & 0xF
}

/// A nibble is meaningful if it is empty or carries a piece-kind triplet
/// between 1 and 6.
pub open spec fn nibble_ok(n: u32) -> bool {
    n == 0 || (1 <= (n & 0x7) && (n & 0x7) <= 6)
}

/// The piece kind with the given 3-bit code.
pub open spec fn type_of_triplet(t: u32) -> PieceType
    recommends
        1 <= t <= 6,
{
    if t == 1 {
        PieceType::King
    } else if t == 2 {
        PieceType::Queen
    } else if t == 3 {
        PieceType::Bishop
    } else if t == 4 {
        PieceType::Rook
    } else if t == 5 {
        PieceType::Horsy
    } else {
        PieceType::Pawn
    }
}

/// The cell a nibble encodes.
pub open spec fn decode_nibble(n: u32) -> Option<Piece>
    recommends
        nibble_ok(n),
{
    if n == 0 {
        None
    } else {
        Some(
            Piece {
                side: if n & 0x8 == 0x8 {
                    Side::White
                } else {
                    Side::Black
                },
                ty: type_of_triplet(n & 0x7),
            },
        )
    }
}

/// The nibble a cell encodes to.
pub open spec fn encode_nibble(cell: Option<Piece>) -> u32 {
    match cell {
        None => 0,
        Some(p) => p.nibble() as u32,
    }
}

impl GpuBoard {
    /// The nibble of square `(x, y)`.
    pub open spec fn nib(&self, x: int, y: int) -> u32
        recommends
            0 <= x < 8,
            0 <= y < 8,
    {
        nibble_in_row(self.0@[y], x)
    }

    /// Word 8, where the expansion kernel records the index of the parent
    /// board a child was generated from.
    pub fn get_prev(&self) -> (r: usize)
        ensures
            r == self.0@[8],
    {
        self.0[8] as usize
    }

    /// Boards are compared by their 8 piece rows; the reserved word is
    /// ignored.
    pub open spec fn same_position(&self, other: &GpuBoard) -> bool {
        forall|y: int| 0 <= y < 8 ==> self.0@[y] == other.0@[y]
    }
}

impl PartialEq for GpuBoard {
    fn eq(&self, other: &Self) -> (r: bool) {
        let mut y: usize = 0;
        while y < 8
            invariant
                y <= 8,
                forall|j: int| 0 <= j < y ==> self.0@[j] == other.0@[j],
            decreases 8 - y,
        {
            if self.0[y] != other.0[y] {
                return false;
            }
            y = y + 1;
        }
        true
    }
}

impl vstd::std_specs::cmp::PartialEqSpecImpl for GpuBoard {
    open spec fn obeys_eq_spec() -> bool {
        true
    }

    open spec fn eq_spec(&self, other: &GpuBoard) -> bool {
        self.same_position(other)
    }
}

impl Board for GpuBoard {
    open spec fn cells(&self) -> Seq<Option<Piece>> {
        Seq::new(64, |i: int| decode_nibble(self.nib(i / 8, i % 8)))
    }

    open spec fn wf(&self) -> bool {
        forall|x: int, y: int| 0 <= x < 8 && 0 <= y < 8 ==> nibble_ok(#[trigger] self.nib(x, y))
    }

    proof fn lemma_cells_len(&self) {
    }

    fn new_empty() -> (r: Self) {
        let r = Self([0; 9]);
        proof {
            assert forall|x: int, y: int| 0 <= x < 8 && 0 <= y < 8 implies (#[trigger] r.nib(x, y))
                == 0 by {
                let xu = x as u32;
                assert((0u32 >> (4 * xu)) & 0xF == 0) by (bit_vector);
            }
            assert forall|i: int| 0 <= i < 64 implies r.cells()[i] == None::<Piece> by {
                lemma_idx_coords(i);
            }
            assert(r.cells() =~= empty_cells());
        }
        r
    }

    fn get(&self, index: Location) -> (r: Option<Piece>) {
        let x = index.get_x() as u32;
        let y = index.get_y();
        let row = self.0[y as usize];
        let nibble = (row >> (4 * x)) & 0xF;
        proof {
            assert(self.nib(x as int, y as int) == nibble);
            assert(index.idx() / 8 == x && index.idx() % 8 == y) by (nonlinear_arith)
                requires
                    index.idx() == x * 8 + y,
                    x < 8,
                    y < 8,
            ;
            let n = nibble;
            assert(n <= 0xF && (n & 0x7) <= 7 && (n & 0x8 == 0x8 || n & 0x8 == 0)) by (bit_vector)
                requires
                    n == (row >> (4 * x)) & 0xF,
            ;
        }
        if nibble == 0 {
            return None;
        }
        let side = if nibble & 0x8 == 0x8 {
            Side::White
        } else {
            Side::Black
        };
        let ty = PieceType::from_triplet((nibble & 0x7) as u8);
        proof {
            let t = nibble & 0x7;
            assert(1 <= t <= 6 ==> type_of_triplet(t).triplet() == t);
        }
        Some(Piece::new(side, ty))
    }

    fn set(&mut self, index: Location, piece: Option<Piece>) {
        let x = index.get_x() as u32;
        let y = index.get_y();
        let ghost pre = *self;
        let mut row = self.0[y as usize];
        let nibble: u32 = match piece {
            None => 0x00,
            Some(p) => p.as_nibble() as u32,
        };
        row = row & !(0xFu32 << (4 * x));
        row = row | (nibble << (4 * x));
        let ghost old_row = pre.0@[y as int];
        self.0[y as usize] = row;
        proof {
            assert(forall|x2: u32|
                x2 < 8 && x2 != x ==> #[trigger] (((old_row & !(0xFu32 << (4 * x)) | (nibble << (4
                    * x))) >> (4 * x2)) & 0xF) == (old_row >> (4 * x2)) & 0xF) by (bit_vector)
                requires
                    x < 8,
                    nibble <= 0xF,
            ;
            assert(((old_row & !(0xFu32 << (4 * x)) | (nibble << (4 * x))) >> (4 * x)) & 0xF
                == nibble) by (bit_vector)
                requires
                    x < 8,
                    nibble <= 0xF,
            ;
            assert forall|x2: int, y2: int| 0 <= x2 < 8 && 0 <= y2 < 8 implies #[trigger] self.nib(
                x2,
                y2,
            ) == if x2 == x && y2 == y {
                nibble
            } else {
                pre.nib(x2, y2)
            } by {
                if y2 != y {
                    assert(self.0@[y2] == pre.0@[y2]);
                } else if x2 != x {
                    assert(((old_row & !(0xFu32 << (4 * x)) | (nibble << (4 * x))) >> (4 * (
                    x2 as u32))) & 0xF == (old_row >> (4 * (x2 as u32))) & 0xF);
                }
            }
            assert(nibble_ok(nibble)) by {
                match piece {
                    None => {},
                    Some(p) => {
                        let nb = p.nibble();
                        assert(1 <= nb <= 14 && nb != 7 && nb != 8 ==> 1 <= (nb as u32) & 0x7 <= 6)
                            by (bit_vector);
                    },
                }
            }
            assert(decode_nibble(nibble) == piece) by {
                match piece {
                    None => {},
                    Some(p) => {
                        let nb = p.nibble();
                        let t = p.ty.triplet();
                        let w: u32 = if p.side is White {
                            8
                        } else {
                            0
                        };
                        assert(nb == (w | t as u32) as u8) by (bit_vector)
                            requires
                                nb == (if w == 8 {
                                    8u8
                                } else {
                                    0u8
                                } | t) as u8,
                                t <= 6,
                                (w == 8 || w == 0),
                        ;
                        assert((((w | t as u32) as u8) as u32) & 0x7 == t && (((w | t
                            as u32) as u8) as u32) & 0x8 == w && ((w | t as u32) as u8) != 0)
                            by (bit_vector)
                            requires
                                1 <= t <= 6,
                                (w == 8 || w == 0),
                        ;
                    },
                }
            }
            assert(index.idx() / 8 == x && index.idx() % 8 == y) by (nonlinear_arith)
                requires
                    index.idx() == x * 8 + y,
                    x < 8,
                    y < 8,
            ;
            assert forall|i: int| 0 <= i < 64 implies #[trigger] self.cells()[i] == pre.cells()
                .update(index.idx(), piece)[i] by {
                assert(0 <= i / 8 < 8 && 0 <= i % 8 < 8) by (nonlinear_arith)
                    requires
                        0 <= i < 64,
                ;
                if i == index.idx() {
                } else {
                    assert(!(i / 8 == x && i % 8 == y)) by (nonlinear_arith)
                        requires
                            0 <= i < 64,
                            i != x * 8 + y,
                            x < 8,
                            y < 8,
                    ;
                }
            }
            assert(self.cells() =~= pre.cells().update(index.idx(), piece));
        }
    }
}

impl GpuBoard {
    /// Whether the position is legal enough to keep searching: exactly one
    /// king per side, and the king of the side that just moved is not
    /// attacked.
    pub fn is_valid(&self, last_moved: Side) -> (r: bool)
        requires
            self.wf(),
        ensures
            r == valid_board(self.cells(), last_moved),
    {
        is_valid_impl(self, last_moved)
    }

    /// Whether every nibble of this board is meaningful — a board read
    /// back from the device must pass this before its cells are decoded.
    pub fn check_wf(&self) -> (r: bool)
        ensures
            r == self.wf(),
    {
        let mut y: usize = 0;
        while y < 8
            invariant
                y <= 8,
                forall|x2: int, y2: int|
                    0 <= x2 < 8 && 0 <= y2 < y ==> nibble_ok(#[trigger] self.nib(x2, y2)),
            decreases 8 - y,
        {
            let row = self.0[y];
            let mut x: u32 = 0;
            while x < 8
                invariant
                    x <= 8,
                    y < 8,
                    row == self.0@[y as int],
                    forall|x2: int| 0 <= x2 < x ==> nibble_ok(#[trigger] self.nib(x2, y as int)),
                decreases 8 - x,
            {
                let nibble = (row >> (4 * x)) & 0xF;
                proof {
                    let n = nibble;
                    assert(n <= 0xF && (n & 0x7) <= 7) by (bit_vector)
                        requires
                            n == (row >> (4 * x)) & 0xF,
                    ;
                }
                let triplet = nibble & 0x7;
                if !(nibble == 0 || (1 <= triplet && triplet <= 6)) {
                    proof {
                        assert(nibble == self.nib(x as int, y as int));
                        assert(!nibble_ok(self.nib(x as int, y as int)));
                    }
                    return false;
                }
                x = x + 1;
            }
            y = y + 1;
        }
        true
    }
}

/// Copy a board cell by cell into another representation.
pub fn convert<T: Board, B: Board>(input: &B) -> (r: T)
    requires
        input.wf(),
        input.cells().len() == 64,
    ensures
        r.wf(),
        r.cells() == input.cells(),
{
    let mut out = T::new_empty();
    let locs = Location::all();
    let mut i: usize = 0;
    proof {
        out.lemma_cells_len();
    }
    while i < 64
        invariant
            i <= 64,
            out.wf(),
            input.wf(),
            out.cells().len() == 64,
            input.cells().len() == 64,
            locs@.len() == 64,
            forall|j: int| 0 <= j < 64 ==> (#[trigger] locs@[j]).wf() && locs@[j].idx() == j,
            forall|j: int|
                0 <= j < 64 ==> (#[trigger] out.cells()[j]) == if j < i {
                    input.cells()[j]
                } else {
                    empty_cells()[j]
                },
        decreases 64 - i,
    {
        let l = locs[i];
        out.set(l, input.get(l));
        i = i + 1;
    }
    proof {
        assert(out.cells() =~= input.cells());
    }
    out
}

/// The cell at coordinates `(x, y)`.
pub open spec fn cell_at(bv: Seq<Option<Piece>>, x: int, y: int) -> Option<Piece>
    recommends
        on_board(x, y),
{
    bv[x * 8 + y]
}

pub open spec fn on_board(x: int, y: int) -> bool {
    0 <= x < 8 && 0 <= y < 8
}

/// Whether a piece of kind `t` attacks along the ray direction: diagonal
/// rays carry bishops and queens, straight rays rooks and queens.
pub open spec fn slider_matches(t: PieceType, diagonal: bool) -> bool {
    if diagonal {
        t is Bishop || t is Queen
    } else {
        t is Rook || t is Queen
    }
}

/// Whether the first piece along the ray from `(x, y)` in direction
/// `(dx, dy)`, starting `i` steps out, is an enemy of `side` that attacks
/// along this ray (a matching slider, or a king one step away).
pub open spec fn ray_threat(
    bv: Seq<Option<Piece>>,
    x: int,
    y: int,
    dx: int,
    dy: int,
    i: int,
    side: Side,
    diagonal: bool,
) -> bool
    decreases 8 - i,
{
    if i < 1 || i >= 8 {
        false
    } else if !on_board(x + i * dx, y + i * dy) {
        false
    } else {
        match cell_at(bv, x + i * dx, y + i * dy) {
            Some(p) => p.side != side && (slider_matches(p.ty, diagonal) || (i == 1
                && p.ty is King)),
            None => ray_threat(bv, x, y, dx, dy, i + 1, side, diagonal),
        }
    }
}

/// An enemy piece of kind `t` standing `(dx, dy)` away from `(x, y)`.
pub open spec fn step_threat(
    bv: Seq<Option<Piece>>,
    x: int,
    y: int,
    dx: int,
    dy: int,
    side: Side,
    t: PieceType,
) -> bool {
    on_board(x + dx, y + dy) && match cell_at(bv, x + dx, y + dy) {
        Some(p) => p.ty == t && p.side != side,
        None => false,
    }
}

/// An enemy knight a knight's move away from `(x, y)`.
pub open spec fn knight_threat(bv: Seq<Option<Piece>>, x: int, y: int, side: Side) -> bool {
    ||| step_threat(bv, x, y, 2, 1, side, PieceType::Horsy)
    ||| step_threat(bv, x, y, 2, -1, side, PieceType::Horsy)
    ||| step_threat(bv, x, y, -2, 1, side, PieceType::Horsy)
    ||| step_threat(bv, x, y, -2, -1, side, PieceType::Horsy)
    ||| step_threat(bv, x, y, 1, 2, side, PieceType::Horsy)
    ||| step_threat(bv, x, y, -1, 2, side, PieceType::Horsy)
    ||| step_threat(bv, x, y, 1, -2, side, PieceType::Horsy)
    ||| step_threat(bv, x, y, -1, -2, side, PieceType::Horsy)
}

/// An enemy pawn attacking `(x, y)`: it stands one rank toward the enemy
/// camp, one file to either side.
pub open spec fn pawn_threat(bv: Seq<Option<Piece>>, x: int, y: int, side: Side) -> bool {
    let dy: int = if side is Black {
        -1
    } else {
        1
    };
    step_threat(bv, x, y, 1, dy, side, PieceType::Pawn) || step_threat(
        bv,
        x,
        y,
        -1,
        dy,
        side,
        PieceType::Pawn,
    )
}

/// Whether any enemy of `side` attacks square `(x, y)`.
pub open spec fn attacked(bv: Seq<Option<Piece>>, x: int, y: int, side: Side) -> bool {
    ||| ray_threat(bv, x, y, 1, 0, 1, side, false)
    ||| ray_threat(bv, x, y, -1, 0, 1, side, false)
    ||| ray_threat(bv, x, y, 0, 1, 1, side, false)
    ||| ray_threat(bv, x, y, 0, -1, 1, side, false)
    ||| ray_threat(bv, x, y, 1, 1, 1, side, true)
    ||| ray_threat(bv, x, y, -1, 1, 1, side, true)
    ||| ray_threat(bv, x, y, -1, -1, 1, side, true)
    ||| ray_threat(bv, x, y, 1, -1, 1, side, true)
    ||| knight_threat(bv, x, y, side)
    ||| pawn_threat(bv, x, y, side)
}

/// The number of kings of `side` among the first `n` cells.
pub open spec fn count_kings(bv: Seq<Option<Piece>>, side: Side, n: int) -> int
    decreases n,
{
    if n <= 0 {
        0
    } else {
        count_kings(bv, side, n - 1) + if bv[n - 1] == Some(
            Piece { ty: PieceType::King, side },
        ) {
            1int
        } else {
            0int
        }
    }
}

/// A position worth searching from: one king per side, and the king of the
/// side that just moved is not in check (its opponent cannot capture it).
pub open spec fn valid_board(bv: Seq<Option<Piece>>, last_moved: Side) -> bool {
    &&& count_kings(bv, Side::White, 64) == 1
    &&& count_kings(bv, Side::Black, 64) == 1
    &&& forall|j: int|
        0 <= j < 64 && bv[j] == Some(Piece { ty: PieceType::King, side: last_moved })
            ==> !attacked(bv, j / 8, j % 8, last_moved)
}

/// Scan one ray for the first piece and decide whether it is an attacker.
fn ray_scan<B: Board>(board: &B, x: u8, y: u8, dx: i16, dy: i16, side: Side, diagonal: bool) -> (r:
    bool)
    requires
        board.wf(),
        board.cells().len() == 64,
        x < 8,
        y < 8,
        -1 <= dx <= 1,
        -1 <= dy <= 1,
    ensures
        r == ray_threat(board.cells(), x as int, y as int, dx as int, dy as int, 1, side, diagonal),
{
    let ghost bv = board.cells();
    let base = Location::new(x, y);
    let mut i: i16 = 1;
    while i < 8
        invariant
            1 <= i <= 8,
            board.wf(),
            bv == board.cells(),
            bv.len() == 64,
            x < 8,
            y < 8,
            -1 <= dx <= 1,
            -1 <= dy <= 1,
            base == Location::at(x as int, y as int),
            base.wf(),
            base.x() == x,
            base.y() == y,
            ray_threat(bv, x as int, y as int, dx as int, dy as int, 1, side, diagonal)
                == ray_threat(bv, x as int, y as int, dx as int, dy as int, i as int, side, diagonal),
        decreases 8 - i,
    {
        proof {
            assert(-8 <= dx * i <= 8 && -8 <= dy * i <= 8 && dx as int * i as int == i as int
                * dx as int && dy as int * i as int == i as int * dy as int) by (nonlinear_arith)
                requires
                    -1 <= dx <= 1,
                    -1 <= dy <= 1,
                    1 <= i <= 8,
            ;
        }
        let sx = dx * i;
        let sy = dy * i;
        match base.try_add(sx, sy) {
            None => {
                return false;
            },
            Some(nloc) => {
                proof {
                    lemma_at_idx(x as int + i as int * dx as int, y as int + i as int * dy as int);
                }
                match board.get(nloc) {
                    Some(p) => {
                        let slider = if diagonal {
                            p.ty == PieceType::Bishop || p.ty == PieceType::Queen
                        } else {
                            p.ty == PieceType::Rook || p.ty == PieceType::Queen
                        };
                        return p.side != side && (slider || (i == 1 && p.ty == PieceType::King));
                    },
                    None => {
                        i = i + 1;
                    },
                }
            },
        }
    }
    false
}

/// A board index splits into coordinates in range.
proof fn lemma_idx_coords(i: int)
    requires
        0 <= i < 64,
    ensures
        0 <= i / 8 < 8,
        0 <= i % 8 < 8,
        i == (i / 8) * 8 + i % 8,
{
    assert(0 <= i / 8 < 8 && 0 <= i % 8 < 8 && i == (i / 8) * 8 + i % 8) by (nonlinear_arith)
        requires
            0 <= i < 64,
    ;
}

/// A well-formed square's index matches its coordinates.
proof fn lemma_at_idx(x: int, y: int)
    requires
        on_board(x, y),
    ensures
        Location::at(x, y).wf(),
        Location::at(x, y).idx() == x * 8 + y,
        Location::at(x, y).x() == x,
        Location::at(x, y).y() == y,
{
    assert(0 <= x * 8 + y < 64) by (nonlinear_arith)
        requires
            on_board(x, y),
    ;
    let c = (x * 8 + y) as u8;
    assert(c as int / 8 == x && c as int % 8 == y) by (nonlinear_arith)
        requires
            0 <= x < 8,
            0 <= y < 8,
            c == x * 8 + y,
    ;
}

/// Check one square for an enemy piece of the given kind.
fn step_probe<B: Board>(board: &B, base: Location, dx: i16, dy: i16, side: Side, t: PieceType) -> (r:
    bool)
    requires
        board.wf(),
        board.cells().len() == 64,
        base.wf(),
        -2 <= dx <= 2,
        -2 <= dy <= 2,
    ensures
        r == step_threat(board.cells(), base.x(), base.y(), dx as int, dy as int, side, t),
{
    match base.try_add(dx, dy) {
        None => false,
        Some(nloc) => {
            proof {
                lemma_at_idx(base.x() + dx, base.y() + dy);
            }
            match board.get(nloc) {
                Some(p) => p.ty == t && p.side != side,
                None => false,
            }
        },
    }
}

/// Whether any enemy of `side` attacks the square.
fn attacked_probe<B: Board>(board: &B, x: u8, y: u8, side: Side) -> (r: bool)
    requires
        board.wf(),
        board.cells().len() == 64,
        x < 8,
        y < 8,
    ensures
        r == attacked(board.cells(), x as int, y as int, side),
{
    let base = Location::new(x, y);
    if ray_scan(board, x, y, 1, 0, side, false) {
        return true;
    }
    if ray_scan(board, x, y, -1, 0, side, false) {
        return true;
    }
    if ray_scan(board, x, y, 0, 1, side, false) {
        return true;
    }
    if ray_scan(board, x, y, 0, -1, side, false) {
        return true;
    }
    if ray_scan(board, x, y, 1, 1, side, true) {
        return true;
    }
    if ray_scan(board, x, y, -1, 1, side, true) {
        return true;
    }
    if ray_scan(board, x, y, -1, -1, side, true) {
        return true;
    }
    if ray_scan(board, x, y, 1, -1, side, true) {
        return true;
    }
    if step_probe(board, base, 2, 1, side, PieceType::Horsy) {
        return true;
    }
    if step_probe(board, base, 2, -1, side, PieceType::Horsy) {
        return true;
    }
    if step_probe(board, base, -2, 1, side, PieceType::Horsy) {
        return true;
    }
    if step_probe(board, base, -2, -1, side, PieceType::Horsy) {
        return true;
    }
    if step_probe(board, base, 1, 2, side, PieceType::Horsy) {
        return true;
    }
    if step_probe(board, base, -1, 2, side, PieceType::Horsy) {
        return true;
    }
    if step_probe(board, base, 1, -2, side, PieceType::Horsy) {
        return true;
    }
    if step_probe(board, base, -1, -2, side, PieceType::Horsy) {
        return true;
    }
    let dy: i16 = match side {
        Side::Black => -1,
        Side::White => 1,
    };
    if step_probe(board, base, 1, dy, side, PieceType::Pawn) {
        return true;
    }
    if step_probe(board, base, -1, dy, side, PieceType::Pawn) {
        return true;
    }
    false
}

/// Shared body of `Board::is_valid`.
fn is_valid_impl<B: Board>(board: &B, last_moved: Side) -> (r: bool)
    requires
        board.wf(),
    ensures
        r == valid_board(board.cells(), last_moved),
{
    proof {
        board.lemma_cells_len();
    }
    let ghost bv = board.cells();
    let mut kings_white: u8 = 0;
    let mut kings_black: u8 = 0;
    let mut j: u8 = 0;
    while j < 64
        invariant
            j <= 64,
            board.wf(),
            bv == board.cells(),
            bv.len() == 64,
            kings_white == count_kings(bv, Side::White, j as int),
            kings_black == count_kings(bv, Side::Black, j as int),
            kings_white <= j,
            kings_black <= j,
            forall|j2: int|
                0 <= j2 < j && bv[j2] == Some(Piece { ty: PieceType::King, side: last_moved })
                    ==> !attacked(bv, j2 / 8, j2 % 8, last_moved),
        decreases 64 - j,
    {
        let loc = Location(j);
        let cell = board.get(loc);
        match cell {
            Some(p) => {
                if p.ty == PieceType::King {
                    match p.side {
                        Side::White => {
                            kings_white = kings_white + 1;
                        },
                        Side::Black => {
                            kings_black = kings_black + 1;
                        },
                    }
                    if p.side == last_moved {
                        if attacked_probe(board, loc.get_x(), loc.get_y(), last_moved) {
                            return false;
                        }
                    }
                }
            },
            None => {},
        }
        j = j + 1;
    }
    kings_white == 1 && kings_black == 1
}

/// The first square that `before` occupies and `after` leaves empty, from
/// square `i` on.
pub open spec fn first_vacated(b: Seq<Option<Piece>>, a: Seq<Option<Piece>>, i: int) -> Option<
    Location,
>
    decreases 64 - i,
{
    if i < 0 || i >= 64 {
        None
    } else if b[i] is Some && a[i] is None {
        Some(Location(i as u8))
    } else {
        first_vacated(b, a, i + 1)
    }
}

/// The first square where `after` holds a piece other than what `before`
/// held, from square `i` on.
pub open spec fn first_arrived(b: Seq<Option<Piece>>, a: Seq<Option<Piece>>, i: int) -> Option<
    Location,
>
    decreases 64 - i,
{
    if i < 0 || i >= 64 {
        None
    } else if a[i] is Some && b[i] != a[i] {
        Some(Location(i as u8))
    } else {
        first_arrived(b, a, i + 1)
    }
}

/// The move `find_move` reconstructs from a board pair, if any.
pub open spec fn found_move(b: Seq<Option<Piece>>, a: Seq<Option<Piece>>) -> Result<
    Move,
    &'static str,
> {
    match first_vacated(b, a, 0) {
        None => Err("Couldn't find start"),
        Some(start) => match first_arrived(b, a, 0) {
            None => Err("Couldn't find end"),
            Some(end) => Ok(
                Move(
                    start,
                    end,
                    if b[start.idx()]->0.ty is Pawn && (end.y() == 0 || end.y() == 7) {
                        Some(a[end.idx()]->0.ty)
                    } else {
                        None
                    },
                ),
            ),
        },
    }
}

/// Reconstruct the move that turned `before` into `after`: the vacated
/// square, the square whose occupant changed, and the promotion if a pawn
/// reached the last rank.
/// Find the first square vacated between the two boards.
fn scan_vacated<B: Board, C: Board>(before: &B, after: &C) -> (r: Option<Location>)
    requires
        before.wf(),
        after.wf(),
        before.cells().len() == 64,
        after.cells().len() == 64,
    ensures
        r == first_vacated(before.cells(), after.cells(), 0),
        r matches Some(l) ==> l.wf() && before.cells()[l.idx()] is Some
            && after.cells()[l.idx()] is None,
{
    let ghost bc = before.cells();
    let ghost ac = after.cells();
    let mut i: u8 = 0;
    while i < 64
        invariant
            i <= 64,
            before.wf(),
            after.wf(),
            bc == before.cells(),
            ac == after.cells(),
            bc.len() == 64,
            ac.len() == 64,
            first_vacated(bc, ac, 0) == first_vacated(bc, ac, i as int),
        decreases 64 - i,
    {
        let pos = Location(i);
        if before.get(pos).is_some() && after.get(pos).is_none() {
            return Some(pos);
        }
        i = i + 1;
    }
    None
}

/// Find the first square whose occupant changed between the two boards.
fn scan_arrived<B: Board, C: Board>(before: &B, after: &C) -> (r: Option<Location>)
    requires
        before.wf(),
        after.wf(),
        before.cells().len() == 64,
        after.cells().len() == 64,
    ensures
        r == first_arrived(before.cells(), after.cells(), 0),
        r matches Some(l) ==> l.wf() && after.cells()[l.idx()] is Some,
{
    let ghost bc = before.cells();
    let ghost ac = after.cells();
    let mut i: u8 = 0;
    while i < 64
        invariant
            i <= 64,
            before.wf(),
            after.wf(),
            bc == before.cells(),
            ac == after.cells(),
            bc.len() == 64,
            ac.len() == 64,
            first_arrived(bc, ac, 0) == first_arrived(bc, ac, i as int),
        decreases 64 - i,
    {
        let pos = Location(i);
        match after.get(pos) {
            Some(after_piece) => {
                let differs = match before.get(pos) {
                    Some(before_piece) => before_piece != after_piece,
                    None => true,
                };
                if differs {
                    return Some(pos);
                }
            },
            None => {},
        }
        i = i + 1;
    }
    None
}

pub fn find_move<B: Board, C: Board>(before: &B, after: &C) -> (r: Result<Move, &'static str>)
    requires
        before.wf(),
        after.wf(),
        before.cells().len() == 64,
        after.cells().len() == 64,
    ensures
        r == found_move(before.cells(), after.cells()),
{
    let start_pos = match scan_vacated(before, after) {
        Some(p) => p,
        None => {
            return Err("Couldn't find start");
        },
    };
    let end_pos = match scan_arrived(before, after) {
        Some(p) => p,
        None => {
            return Err("Couldn't find end");
        },
    };

    let mut promote: Option<PieceType> = None;
    let start_piece = before.get(start_pos);
    let end_y = end_pos.get_y();
    if start_piece.unwrap().ty == PieceType::Pawn && (end_y == 0 || end_y == 7) {
        promote = Some(after.get(end_pos).unwrap().ty);
    }
    Ok(Move(start_pos, end_pos, promote))
}

} // verus!
