//! Device-facing bookkeeping: the two slab arenas (boards and
//! evaluations), the per-dispatch binding offsets, and the byte layout of
//! the global-parameters uniform record that every kernel reads.

use crate::board::GpuBoard;
use crate::buffers::{AllocToken, BufferData, BufferManager};
use crate::chess::EvalScore;
use crate::codec::byte_of_word;
use crate::piece::Side;
use vstd::prelude::*;

verus! {

/// Threads per compute workgroup; dispatches are sized in ceilings of
/// this.
pub const WORKGROUP_SIZE: u64 = 64;

/// The byte size of one packed board.
pub const BOARD_BYTES: u32 = 36;

/// The byte size of one evaluation word.
pub const EVAL_BYTES: u32 = 4;

impl BufferData for GpuBoard {
    fn element_size() -> (r: u32)
        ensures
            r == BOARD_BYTES,
    {
        BOARD_BYTES
    }
}

impl BufferData for EvalScore {
    fn element_size() -> (r: u32)
        ensures
            r == EVAL_BYTES,
    {
        EVAL_BYTES
    }
}

/// The per-binding element offsets handed to a kernel through the global
/// parameters: several logical buffers may share one physical slab, so
/// each binding carries where its data starts, in elements.
#[derive(Clone, Copy, PartialEq, Eq, Structural, Debug)]
pub struct BuffOffsets {
    pub buf_offset_0: u32,
    pub buf_offset_1: u32,
    pub buf_offset_2: u32,
    pub buf_offset_3: u32,
}

/// The element offset of an allocation inside its slab.
pub open spec fn elem_offset_of(t: AllocToken, elem_size: u32) -> int {
    t.offset as int / elem_size as int
}

/// The offsets for the expansion pipeline: input boards at binding 0,
/// output boards at binding 1.
pub fn expansion_offsets(input: &AllocToken, output: &AllocToken) -> (r: BuffOffsets)
    requires
        input.offset / BOARD_BYTES as u64 <= u32::MAX,
        output.offset / BOARD_BYTES as u64 <= u32::MAX,
    ensures
        r.buf_offset_0 == elem_offset_of(*input, BOARD_BYTES),
        r.buf_offset_1 == elem_offset_of(*output, BOARD_BYTES),
        r.buf_offset_2 == 0,
        r.buf_offset_3 == 0,
{
    BuffOffsets {
        buf_offset_0: input.start_elem(BOARD_BYTES),
        buf_offset_1: output.start_elem(BOARD_BYTES),
        buf_offset_2: 0,
        buf_offset_3: 0,
    }
}

/// The offsets for the two contraction pipelines: child boards at binding
/// 1, parent evaluations at binding 2.
pub fn contract_offsets(child_boards: &AllocToken, parent_evals: &AllocToken) -> (r: BuffOffsets)
    requires
        child_boards.offset / BOARD_BYTES as u64 <= u32::MAX,
        parent_evals.offset / EVAL_BYTES as u64 <= u32::MAX,
    ensures
        r.buf_offset_0 == 0,
        r.buf_offset_1 == elem_offset_of(*child_boards, BOARD_BYTES),
        r.buf_offset_2 == elem_offset_of(*parent_evals, EVAL_BYTES),
        r.buf_offset_3 == 0,
{
    BuffOffsets {
        buf_offset_0: 0,
        buf_offset_1: child_boards.start_elem(BOARD_BYTES),
        buf_offset_2: parent_evals.start_elem(EVAL_BYTES),
        buf_offset_3: 0,
    }
}

/// The offsets for the fill-to-worst pipeline: the evaluations at
/// binding 1.
pub fn fill_offsets(evals: &AllocToken) -> (r: BuffOffsets)
    requires
        evals.offset / EVAL_BYTES as u64 <= u32::MAX,
    ensures
        r.buf_offset_0 == 0,
        r.buf_offset_1 == elem_offset_of(*evals, EVAL_BYTES),
        r.buf_offset_2 == 0,
        r.buf_offset_3 == 0,
{
    BuffOffsets {
        buf_offset_0: 0,
        buf_offset_1: evals.start_elem(EVAL_BYTES),
        buf_offset_2: 0,
        buf_offset_3: 0,
    }
}

/// The little-endian bytes of one 32-bit word.
pub open spec fn le_word(w: u32) -> Seq<u8> {
    Seq::new(4, |k: int| byte_of_word(w, k))
}

/// The 28-byte global-parameters record: the input element count, the
/// side-to-move flag, the move number, and the four binding offsets, each
/// as a little-endian word.
pub open spec fn global_params_spec(
    input_size: u32,
    to_move: Side,
    move_num: u32,
    offsets: BuffOffsets,
) -> Seq<u8> {
    le_word(input_size) + le_word(
        if to_move is White {
            8u32
        } else {
            0u32
        },
    ) + le_word(move_num) + le_word(offsets.buf_offset_0) + le_word(offsets.buf_offset_1)
        + le_word(offsets.buf_offset_2) + le_word(offsets.buf_offset_3)
}

/// Build the global-parameters record the driver writes into the uniform
/// buffer before a dispatch. Move counting is not in use: the record
/// always carries zero there.
pub fn global_params_bytes(
    input_size: u32,
    to_move: Side,
    move_num: u32,
    offsets: BuffOffsets,
) -> (r: Vec<u8>)
    requires
        move_num == 0,
    ensures
        r@ == global_params_spec(input_size, to_move, move_num, offsets),
        r@.len() == 28,
{
    let mut data: Vec<u8> = Vec::new();
    crate::codec::push_word_bytes(&mut data, input_size);
    crate::codec::push_word_bytes(&mut data, to_move.gpu_representation());
    crate::codec::push_word_bytes(&mut data, move_num);
    crate::codec::push_word_bytes(&mut data, offsets.buf_offset_0);
    crate::codec::push_word_bytes(&mut data, offsets.buf_offset_1);
    crate::codec::push_word_bytes(&mut data, offsets.buf_offset_2);
    crate::codec::push_word_bytes(&mut data, offsets.buf_offset_3);
    proof {
        assert(data@ =~= global_params_spec(input_size, to_move, move_num, offsets));
    }
    data
}

/// The pair of arenas a tree allocates from: one for boards, one for
/// evaluations, both sized to the same element count per slab.
pub struct GpuAllocations {
    pub boards: BufferManager,
    pub evals: BufferManager,
    /// The number of boards (and evaluations) one slab can hold.
    pub boards_per_buf: u32,
    /// The size of one board slab, in bytes.
    pub buffer_size: u64,
}

impl GpuAllocations {
    pub open spec fn inv(self) -> bool {
        &&& self.boards.inv()
        &&& self.evals.inv()
        &&& self.boards.elem_size == BOARD_BYTES
        &&& self.evals.elem_size == EVAL_BYTES
        &&& self.boards.max_elements_per_buf == self.boards_per_buf
        &&& self.evals.max_elements_per_buf == self.boards_per_buf
        &&& self.buffer_size == self.boards_per_buf as u64 * BOARD_BYTES as u64
    }

    /// Size the arenas from the device's limits: a slab holds as many
    /// boards as the smaller of the device's buffer limits allows, capped
    /// by what one dispatch can reach (`max_workgroups * WORKGROUP_SIZE`
    /// boards).
    pub fn init(
        max_buffer_size: u64,
        max_storage_binding_size: u32,
        max_workgroups: u32,
        map_alignment: u32,
    ) -> (r: Self)
        requires
            map_alignment > 0,
            BOARD_BYTES * map_alignment <= u32::MAX,
            EVAL_BYTES * map_alignment <= u32::MAX,
        ensures
            r.inv(),
            r.boards_per_buf as int == min_u64(
                (min_u64(max_buffer_size, max_storage_binding_size as u64) / BOARD_BYTES
                    as u64) as u64,
                (max_workgroups as u64 * WORKGROUP_SIZE) as u64,
            ) as u32 as int,
    {
        let effective_max = if max_buffer_size < max_storage_binding_size as u64 {
            max_buffer_size
        } else {
            max_storage_binding_size as u64
        };
        let max_boards_per_buf = effective_max / BOARD_BYTES as u64;
        proof {
            assert(max_workgroups as u64 * WORKGROUP_SIZE <= u64::MAX) by (nonlinear_arith)
                requires
                    max_workgroups <= u32::MAX,
            ;
        }
        let max_boards_dispatch = max_workgroups as u64 * WORKGROUP_SIZE;
        let boards_per_buf = if max_boards_per_buf < max_boards_dispatch {
            max_boards_per_buf
        } else {
            max_boards_dispatch
        } as u32;
        Self::with_boards_per_buf(boards_per_buf, map_alignment)
    }

    /// Set up arenas whose slabs hold exactly `boards_per_buf` boards.
    pub fn with_boards_per_buf(boards_per_buf: u32, map_alignment: u32) -> (r: Self)
        requires
            map_alignment > 0,
            BOARD_BYTES * map_alignment <= u32::MAX,
            EVAL_BYTES * map_alignment <= u32::MAX,
        ensures
            r.inv(),
            r.boards_per_buf == boards_per_buf,
            r.boards.buffers@.len() == 0,
            r.evals.buffers@.len() == 0,
    {
        let boards = BufferManager::create(GpuBoard::element_size(), map_alignment, boards_per_buf);
        let evals = BufferManager::create(EvalScore::element_size(), map_alignment, boards_per_buf);
        proof {
            assert(boards_per_buf as u64 * BOARD_BYTES as u64 <= u64::MAX) by (nonlinear_arith)
                requires
                    boards_per_buf <= u32::MAX,
            ;
        }
        let buffer_size = boards_per_buf as u64 * BOARD_BYTES as u64;
        GpuAllocations { boards, evals, boards_per_buf, buffer_size }
    }

    /// Whether a layer of `num_boards` boards fits one slab.
    pub fn fits(&self, num_boards: u32) -> (r: bool)
        ensures
            r == (num_boards <= self.boards_per_buf),
    {
        num_boards <= self.boards_per_buf
    }
}

/// The smaller of two 64-bit values.
pub open spec fn min_u64(a: u64, b: u64) -> u64 {
    if a < b {
        a
    } else {
        b
    }
}

} // verus!
