//! The layered search tree: an append-only sequence of plies, each a
//! board allocation (and lazily an evaluation allocation) in the arenas.
//! Every operation that needs the device returns a *plan* — slab indices,
//! parameter bytes, workgroup counts — for the driver to execute; counts
//! that the device produces come back through the `finish` entry points.

use crate::board::{convert, Board, GpuBoard};
use crate::buffers::{AllocToken, BrickRange, BufferManager, SlabState, ViewCopy};
use crate::chess::{EvalScore, MAX_MOVES};
use crate::codec::{boards_bytes, encode_boards};
use crate::gpu::{
    contract_offsets, expansion_offsets, fill_offsets, global_params_bytes, global_params_spec,
    BuffOffsets, GpuAllocations, BOARD_BYTES, EVAL_BYTES, WORKGROUP_SIZE,
};
use crate::misc::{ceil_div, ceil_div_spec};
use crate::piece::Side;
use crate::state::GameState;
use vstd::multiset::Multiset;
use vstd::prelude::*;

verus! {

broadcast use vstd::multiset::group_multiset_axioms;

/// One ply: how many boards are live in it, whose turn it is there, and
/// the allocations holding its boards and (once contracted into)
/// evaluations.
#[derive(Clone, Copy, PartialEq, Eq, Structural, Debug)]
pub struct GpuTreeLayer {
    pub num_boards: u32,
    pub to_move: Side,
    pub board_buf: AllocToken,
    pub eval_buf: Option<AllocToken>,
}

/// A tree of chess positions whose boards live in the arenas; the tree
/// owns the arenas while it is alive and hands them back on `finish`.
pub struct GpuTree {
    pub layers: Vec<GpuTreeLayer>,
    pub alloc: GpuAllocations,
    /// The replacement board allocation between the two halves of a
    /// filter.
    pub pending_filter: Option<AllocToken>,
}

/// How many board allocations among the first `n` layers occupy range `r`
/// of slab `j`.
pub open spec fn board_tok_count(
    m: BufferManager,
    layers: Seq<GpuTreeLayer>,
    j: int,
    r: BrickRange,
    n: int,
) -> int
    decreases n,
{
    if n <= 0 {
        0
    } else {
        board_tok_count(m, layers, j, r, n - 1) + if layers[n - 1].board_buf.buffer_index == j
            && m.range_of(layers[n - 1].board_buf) == r {
            1int
        } else {
            0int
        }
    }
}

/// How many evaluation allocations among the first `n` layers occupy
/// range `r` of slab `j`.
pub open spec fn eval_tok_count(
    m: BufferManager,
    layers: Seq<GpuTreeLayer>,
    j: int,
    r: BrickRange,
    n: int,
) -> int
    decreases n,
{
    if n <= 0 {
        0
    } else {
        eval_tok_count(m, layers, j, r, n - 1) + match layers[n - 1].eval_buf {
            Some(t) => if t.buffer_index == j && m.range_of(t) == r {
                1int
            } else {
                0int
            },
            None => 0int,
        }
    }
}

/// The pending filter allocation's contribution to range `r` of slab `j`.
pub open spec fn pending_tok_count(
    m: BufferManager,
    pending: Option<AllocToken>,
    j: int,
    r: BrickRange,
) -> int {
    match pending {
        Some(t) => if t.buffer_index == j && m.range_of(t) == r {
            1int
        } else {
            0int
        },
        None => 0int,
    }
}

/// One layer's allocations are live and large enough for its counts.
pub open spec fn layer_wf(alloc: GpuAllocations, l: GpuTreeLayer) -> bool {
    &&& alloc.boards.token_live(l.board_buf)
    &&& l.num_boards <= l.board_buf.len_elems
    &&& match l.eval_buf {
        Some(e) => alloc.evals.token_live(e) && l.num_boards <= e.len_elems,
        None => true,
    }
}

impl GpuTree {
    /// The whole-tree invariant: the arenas are sound, every layer's
    /// allocations are live and large enough, and the arenas' live
    /// multisets count at least every allocation the tree holds — so each
    /// can be released exactly once.
    pub open spec fn inv(self) -> bool {
        &&& self.alloc.inv()
        &&& forall|i: int|
            0 <= i < self.layers@.len() ==> layer_wf(self.alloc, #[trigger] self.layers@[i])
        &&& forall|j: int, r: BrickRange|
            0 <= j < self.alloc.boards.live@.len() ==> board_tok_count(
                self.alloc.boards,
                self.layers@,
                j,
                r,
                self.layers@.len() as int,
            ) + pending_tok_count(self.alloc.boards, self.pending_filter, j, r) <= #[trigger] self
                .alloc.boards.live@[j].count(r)
        &&& forall|j: int, r: BrickRange|
            0 <= j < self.alloc.evals.live@.len() ==> eval_tok_count(
                self.alloc.evals,
                self.layers@,
                j,
                r,
                self.layers@.len() as int,
            ) <= #[trigger] self.alloc.evals.live@[j].count(r)
        &&& match self.pending_filter {
            Some(t) => {
                &&& self.alloc.boards.token_live(t)
                &&& self.layers@.len() > 0
                &&& self.layers@.last().num_boards <= t.len_elems
            },
            None => true,
        }
    }

    /// The configuration facts that no tree operation changes.
    pub open spec fn same_config(pre: GpuTree, post: GpuTree) -> bool {
        &&& post.alloc.boards.config() == pre.alloc.boards.config()
        &&& post.alloc.evals.config() == pre.alloc.evals.config()
        &&& post.alloc.boards_per_buf == pre.alloc.boards_per_buf
        &&& post.alloc.buffer_size == pre.alloc.buffer_size
    }

    /// No slab of either arena has run out of room for more allocation
    /// counts (a machine limit every allocating operation needs).
    pub open spec fn counts_ok(self) -> bool {
        &&& forall|i: int|
            0 <= i < self.alloc.boards.buffers@.len() ==> (#[trigger] self
                .alloc.boards.buffers@[i]).allocations < u64::MAX
        &&& forall|i: int|
            0 <= i < self.alloc.evals.buffers@.len() ==> (#[trigger] self
                .alloc.evals.buffers@[i]).allocations < u64::MAX
    }

    /// Take ownership of the arenas for the lifetime of this tree. The
    /// arenas may have served earlier trees, as long as those were torn
    /// down first.
    pub fn new(alloc: GpuAllocations) -> (r: Self)
        requires
            alloc.inv(),
        ensures
            r.inv(),
            r.layers@.len() == 0,
            r.alloc == alloc,
            r.pending_filter is None,
    {
        let r = GpuTree { layers: Vec::new(), alloc, pending_filter: None };
        proof {
            assert forall|j: int, r2: BrickRange| 0 <= j < r.alloc.boards.live@.len()
                implies board_tok_count(r.alloc.boards, r.layers@, j, r2, 0) + pending_tok_count(
                r.alloc.boards,
                r.pending_filter,
                j,
                r2,
            ) <= #[trigger] r.alloc.boards.live@[j].count(r2) by {}
            assert forall|j: int, r2: BrickRange| 0 <= j < r.alloc.evals.live@.len()
                implies eval_tok_count(r.alloc.evals, r.layers@, j, r2, 0)
                <= #[trigger] r.alloc.evals.live@[j].count(r2) by {}
        }
        r
    }

    /// Append a fresh layer holding `boards`, and return the upload the
    /// driver owes: write `plan.bytes` into slab `plan.slab` of the board
    /// arena at byte `plan.offset`.
    pub fn init_layer(&mut self, boards: &Vec<GpuBoard>, to_move: Side) -> (plan: UploadPlan)
        requires
            old(self).inv(),
            old(self).counts_ok(),
            old(self).pending_filter is None,
            boards@.len() <= u32::MAX,
            boards@.len() * 36 <= usize::MAX,
            old(self).alloc.boards.bricks_for(boards@.len() as u32) <= old(
                self,
            ).alloc.boards.max_bricks_per_buf,
        ensures
            final(self).inv(),
            Self::same_config(*old(self), *final(self)),
            final(self).pending_filter is None,
            final(self).layers@.len() == old(self).layers@.len() + 1,
            forall|i: int|
                0 <= i < old(self).layers@.len() ==> final(self).layers@[i] == old(
                    self,
                ).layers@[i],
            final(self).layers@.last().num_boards == boards@.len(),
            final(self).layers@.last().to_move == to_move,
            final(self).layers@.last().eval_buf is None,
            plan.slab == final(self).layers@.last().board_buf.buffer_index,
            plan.offset == final(self).layers@.last().board_buf.offset,
            plan.bytes@ == boards_bytes(boards@),
    {
        let ghost pre = *self;
        let n_boards = boards.len() as u32;
        let token = self.alloc.boards.allocate(n_boards);
        let bytes = encode_boards(boards);
        let layer = GpuTreeLayer { num_boards: n_boards, to_move, board_buf: token, eval_buf: None };
        self.layers.push(layer);
        proof {
            lemma_inv_after_board_alloc_push(pre, *self, token, n_boards);
        }
        UploadPlan { slab: token.buffer_index, offset: token.start(), bytes }
    }

    /// Append a one-board layer holding a game state's position.
    pub fn init_layer_from_state(&mut self, state: &GameState) -> (plan: UploadPlan)
        requires
            old(self).inv(),
            old(self).counts_ok(),
            old(self).pending_filter is None,
            old(self).alloc.boards.bricks_for(1) <= old(self).alloc.boards.max_bricks_per_buf,
        ensures
            final(self).inv(),
            Self::same_config(*old(self), *final(self)),
            final(self).pending_filter is None,
            final(self).layers@.len() == old(self).layers@.len() + 1,
            forall|i: int|
                0 <= i < old(self).layers@.len() ==> final(self).layers@[i] == old(
                    self,
                ).layers@[i],
            final(self).layers@.last().num_boards == 1,
            final(self).layers@.last().to_move == state.to_move,
            final(self).layers@.last().eval_buf is None,
            plan.slab == final(self).layers@.last().board_buf.buffer_index,
            plan.offset == final(self).layers@.last().board_buf.offset,
            exists|b: GpuBoard|
                #[trigger] boards_bytes(seq![b]) == plan.bytes@ && b.wf() && b.cells()
                    == state.pieces.cells(),
    {
        let board: GpuBoard = convert(&state.get_board());
        let mut boards: Vec<GpuBoard> = Vec::new();
        boards.push(board);
        proof {
            assert(boards@ =~= seq![board]);
        }
        let plan = self.init_layer(&boards, state.to_move);
        proof {
            assert(boards_bytes(seq![board]) == plan.bytes@ && board.wf() && board.cells()
                == state.pieces.cells());
        }
        plan
    }
}

/// The bytes the driver owes a freshly initialized layer: write them into
/// the board arena's slab `slab` at byte `offset`.
pub struct UploadPlan {
    pub slab: usize,
    pub offset: u64,
    pub bytes: Vec<u8>,
}

/// One expansion dispatch: bind the two board slabs to the expand
/// pipeline, write `params` into the uniform buffer, dispatch
/// `workgroups` groups, then read the output counter back and hand the
/// count to `finish_expand`.
pub struct ExpandPlan {
    pub input_slab: usize,
    pub output_slab: usize,
    pub params: Vec<u8>,
    pub workgroups: u32,
}

impl GpuTree {
    /// Expand the deepest layer: provision a child layer for the worst
    /// case (`MAX_MOVES` children per board) and plan the expansion
    /// dispatch. The true child count arrives through `finish_expand`.
    pub fn expand_last_layer(&mut self) -> (plan: ExpandPlan)
        requires
            old(self).inv(),
            old(self).counts_ok(),
            old(self).pending_filter is None,
            old(self).layers@.len() > 0,
            old(self).layers@.last().num_boards * MAX_MOVES <= u32::MAX,
            old(self).alloc.boards.bricks_for(
                (old(self).layers@.last().num_boards * MAX_MOVES) as u32,
            ) <= old(self).alloc.boards.max_bricks_per_buf,
        ensures
            final(self).inv(),
            Self::same_config(*old(self), *final(self)),
            final(self).pending_filter is None,
            final(self).layers@.len() == old(self).layers@.len() + 1,
            forall|i: int|
                0 <= i < old(self).layers@.len() ==> final(self).layers@[i] == old(
                    self,
                ).layers@[i],
            final(self).layers@.last().num_boards == 0,
            final(self).layers@.last().to_move == (if old(self).layers@.last().to_move is White {
                Side::Black
            } else {
                Side::White
            }),
            final(self).layers@.last().eval_buf is None,
            final(self).layers@.last().board_buf.len_elems >= old(self).layers@.last().num_boards
                * MAX_MOVES,
            plan.input_slab == old(self).layers@.last().board_buf.buffer_index,
            plan.output_slab == final(self).layers@.last().board_buf.buffer_index,
            plan.workgroups == ceil_div_spec(
                old(self).layers@.last().num_boards as int,
                WORKGROUP_SIZE as int,
            ),
            plan.params@ == global_params_spec(
                old(self).layers@.last().num_boards,
                old(self).layers@.last().to_move,
                0,
                BuffOffsets {
                    buf_offset_0: (old(self).layers@.last().board_buf.offset as int
                        / BOARD_BYTES as int) as u32,
                    buf_offset_1: (final(self).layers@.last().board_buf.offset as int
                        / BOARD_BYTES as int) as u32,
                    buf_offset_2: 0,
                    buf_offset_3: 0,
                },
            ),
    {
        let ghost pre = *self;
        let last_idx = self.layers.len() - 1;
        let last = self.layers[last_idx];
        let out_count = last.num_boards * MAX_MOVES;
        let token = self.alloc.boards.allocate(out_count);
        let new_layer = GpuTreeLayer {
            num_boards: 0,
            to_move: last.to_move.opposite(),
            board_buf: token,
            eval_buf: None,
        };
        self.layers.push(new_layer);
        proof {
            lemma_inv_after_board_alloc_push(pre, *self, token, out_count);
            crate::buffers::lemma_token_elem_offset(pre.alloc.boards, last.board_buf);
            crate::buffers::lemma_token_elem_offset(self.alloc.boards, token);
        }
        let offsets = expansion_offsets(&last.board_buf, &token);
        let params = global_params_bytes(last.num_boards, last.to_move, 0, offsets);
        let workgroups = ceil_div(last.num_boards, WORKGROUP_SIZE);
        ExpandPlan {
            input_slab: last.board_buf.buffer_index,
            output_slab: token.buffer_index,
            params,
            workgroups,
        }
    }

    /// Record the child count an expansion produced. The expand kernel is
    /// trusted (and the caller must check) that it never reports more
    /// children than `MAX_MOVES` per parent board — the provisioned
    /// allocation could not hold more.
    pub fn finish_expand(&mut self, produced: u32)
        requires
            old(self).inv(),
            old(self).layers@.len() >= 2,
            produced <= old(self).layers@[old(self).layers@.len() - 2].num_boards * MAX_MOVES,
            old(self).layers@.last().board_buf.len_elems >= old(self).layers@[old(
                self,
            ).layers@.len() - 2].num_boards * MAX_MOVES,
            old(self).layers@.last().eval_buf is None,
            old(self).pending_filter is None,
        ensures
            final(self).inv(),
            Self::same_config(*old(self), *final(self)),
            final(self).pending_filter is None,
            final(self).layers@.len() == old(self).layers@.len(),
            forall|i: int|
                0 <= i < old(self).layers@.len() - 1 ==> final(self).layers@[i] == old(
                    self,
                ).layers@[i],
            final(self).layers@.last() == (GpuTreeLayer {
                num_boards: produced,
                ..old(self).layers@.last()
            }),
            // The reported child count never exceeds `MAX_MOVES` per
            // parent board.
            final(self).layers@.last().num_boards <= final(self).layers@[old(
                self,
            ).layers@.len() - 2].num_boards * MAX_MOVES,
    {
        let ghost pre = *self;
        let last_idx = self.layers.len() - 1;
        let last = self.layers[last_idx];
        let updated = GpuTreeLayer { num_boards: produced, ..last };
        self.layers.set(last_idx, updated);
        proof {
            lemma_inv_after_num_update(pre, *self, last_idx as int, updated);
        }
    }
}

/// One filter dispatch: bind the input and output board slabs, write
/// `params`, set the threshold, dispatch `workgroups` groups, then read
/// the output counter back and hand the count to `finish_filter`.
pub struct FilterPlan {
    pub input_slab: usize,
    pub output_slab: usize,
    /// The threshold score as the device compares it (sign-flipped).
    pub threshold: u32,
    pub params: Vec<u8>,
    pub workgroups: u32,
}

impl GpuTree {
    /// Begin compacting the deepest layer to the boards that pass `eval`:
    /// a replacement allocation of the same element count is made, and
    /// the filter dispatch planned. The surviving count arrives through
    /// `finish_filter`.
    pub fn filter_last_layer(&mut self, eval: EvalScore) -> (plan: FilterPlan)
        requires
            old(self).inv(),
            old(self).counts_ok(),
            old(self).pending_filter is None,
            old(self).layers@.len() > 0,
            old(self).alloc.boards.bricks_for(old(self).layers@.last().num_boards) <= old(
                self,
            ).alloc.boards.max_bricks_per_buf,
        ensures
            final(self).inv(),
            Self::same_config(*old(self), *final(self)),
            final(self).layers@ == old(self).layers@,
            final(self).pending_filter is Some,
            plan.input_slab == old(self).layers@.last().board_buf.buffer_index,
            plan.output_slab == final(self).pending_filter->0.buffer_index,
            plan.threshold == eval.device_word_spec(),
            plan.workgroups == ceil_div_spec(
                old(self).layers@.last().num_boards as int,
                WORKGROUP_SIZE as int,
            ),
            plan.params@ == global_params_spec(
                old(self).layers@.last().num_boards,
                old(self).layers@.last().to_move,
                0,
                BuffOffsets {
                    buf_offset_0: (old(self).layers@.last().board_buf.offset as int
                        / BOARD_BYTES as int) as u32,
                    buf_offset_1: (final(self).pending_filter->0.offset as int
                        / BOARD_BYTES as int) as u32,
                    buf_offset_2: 0,
                    buf_offset_3: 0,
                },
            ),
    {
        let ghost pre = *self;
        let last_idx = self.layers.len() - 1;
        let last = self.layers[last_idx];
        let token = self.alloc.boards.allocate(last.num_boards);
        self.pending_filter = Some(token);
        proof {
            lemma_inv_after_pending_alloc(pre, *self, token, last.num_boards);
            crate::buffers::lemma_token_elem_offset(pre.alloc.boards, last.board_buf);
            crate::buffers::lemma_token_elem_offset(self.alloc.boards, token);
        }
        let offsets = expansion_offsets(&last.board_buf, &token);
        let params = global_params_bytes(last.num_boards, last.to_move, 0, offsets);
        let workgroups = ceil_div(last.num_boards, WORKGROUP_SIZE);
        FilterPlan {
            input_slab: last.board_buf.buffer_index,
            output_slab: token.buffer_index,
            threshold: eval.device_word(),
            params,
            workgroups,
        }
    }

    /// Record the surviving count of a filter: the deepest layer adopts
    /// the replacement allocation, and the old board allocation is
    /// released. The filter kernel is trusted (and the caller must check)
    /// never to report more survivors than it was given boards.
    pub fn finish_filter(&mut self, produced: u32)
        requires
            old(self).inv(),
            old(self).pending_filter is Some,
            produced <= old(self).layers@.last().num_boards,
        ensures
            final(self).inv(),
            Self::same_config(*old(self), *final(self)),
            final(self).pending_filter is None,
            final(self).layers@.len() == old(self).layers@.len(),
            forall|i: int|
                0 <= i < old(self).layers@.len() - 1 ==> final(self).layers@[i] == old(
                    self,
                ).layers@[i],
            final(self).layers@.last() == (GpuTreeLayer {
                num_boards: produced,
                board_buf: old(self).pending_filter->0,
                ..old(self).layers@.last()
            }),
            // The replaced board allocation is released: its slab's live
            // count drops by one, and the cursor returns to zero when it
            // was the last allocation there.
            final(self).alloc.evals == old(self).alloc.evals,
            ({
                let old_t = old(self).layers@.last().board_buf;
                let j = old_t.buffer_index as int;
                &&& final(self).alloc.boards.buffers@ == BufferManager::free_spec(
                    old(self).alloc.boards.buffers@,
                    j,
                )
                &&& final(self).alloc.boards.live@ == (if old(
                    self,
                ).alloc.boards.buffers@[j].allocations == 1 {
                    old(self).alloc.boards.live@.update(j, Multiset::<BrickRange>::empty())
                } else {
                    old(self).alloc.boards.live@.update(
                        j,
                        old(self).alloc.boards.live@[j].remove(
                            old(self).alloc.boards.range_of(old_t),
                        ),
                    )
                })
            }),
    {
        let ghost pre = *self;
        let last_idx = self.layers.len() - 1;
        let old_layer = self.layers[last_idx];
        let new_token = match self.pending_filter {
            Some(t) => t,
            None => {
                proof {
                    assert(false);
                }
                old_layer.board_buf
            },
        };
        self.pending_filter = None;
        let updated = GpuTreeLayer { num_boards: produced, board_buf: new_token, ..old_layer };
        self.layers.set(last_idx, updated);
        let ghost mid = *self;
        self.alloc.boards.dealloc(old_layer.board_buf);
        proof {
            let n = pre.layers@.len() as int;
            let mb0 = pre.alloc.boards;
            let mb1 = self.alloc.boards;
            let counts = |j: int, r: BrickRange|
                board_tok_count(mb0, mid.layers@, j, r, n) + 0;
            // The counts after the swap, before the release: the old
            // board token's contribution is replaced by the pending one.
            assert forall|j: int, r: BrickRange| 0 <= j < mb0.live@.len() implies #[trigger] counts(
                j,
                r,
            ) + (if j == old_layer.board_buf.buffer_index && r == mb0.range_of(
                old_layer.board_buf,
            ) {
                1int
            } else {
                0int
            }) <= mb0.live@[j].count(r) by {
                lemma_board_count_update(mb0, pre.layers@, last_idx as int, updated, j, r, n);
                lemma_counts_nonneg(mb0, pre.layers@, j, r, n);
            }
            assert forall|j: int, r: BrickRange| #[trigger] counts(j, r) >= 0 by {
                lemma_counts_nonneg(mb0, mid.layers@, j, r, n);
            }
            lemma_counts_after_dealloc(mb0, mb1, old_layer.board_buf, counts);
            // Re-establish the invariant from the released-state counts.
            assert forall|j: int, r: BrickRange| 0 <= j < mb1.live@.len() implies board_tok_count(
                mb1,
                self.layers@,
                j,
                r,
                n,
            ) + pending_tok_count(mb1, self.pending_filter, j, r) <= #[trigger] mb1.live@[j].count(
                r,
            ) by {
                lemma_board_count_congruent(mb1, mb0, self.layers@, mid.layers@, j, r, n);
                assert(counts(j, r) == board_tok_count(mb0, mid.layers@, j, r, n));
            }
            assert forall|j: int, r: BrickRange| 0 <= j < self.alloc.evals.live@.len()
                implies eval_tok_count(self.alloc.evals, self.layers@, j, r, n)
                <= #[trigger] self.alloc.evals.live@[j].count(r) by {
                lemma_eval_count_congruent(
                    self.alloc.evals,
                    pre.alloc.evals,
                    self.layers@,
                    pre.layers@,
                    j,
                    r,
                    n,
                );
            }
            // Every layer allocation is still live: its count keeps it in
            // the live multiset.
            assert forall|i: int| 0 <= i < self.layers@.len() implies layer_wf(
                self.alloc,
                #[trigger] self.layers@[i],
            ) by {
                assert(layer_wf(pre.alloc, pre.layers@[i]));
                let l = self.layers@[i];
                lemma_board_count_lower(mb1, self.layers@, i, n);
                let jb = l.board_buf.buffer_index as int;
                let rb = mb1.range_of(l.board_buf);
                lemma_board_count_congruent(mb1, mb0, self.layers@, mid.layers@, jb, rb, n);
                assert(counts(jb, rb) == board_tok_count(mb0, mid.layers@, jb, rb, n));
                assert(mb1.live@[jb].count(rb) >= 1);
                match l.eval_buf {
                    Some(e) => {
                        assert(pre.alloc.evals.token_live(e));
                    },
                    None => {},
                }
            }
        }
    }
}

/// The prefill a contraction needs before folding children upward: for a
/// minimizing parent the evaluations are filled with the worst value by a
/// dispatch; for a maximizing parent the buffer is cleared to zero (the
/// device encoding of the most negative score).
pub struct FillPlan {
    pub params: Vec<u8>,
    pub workgroups: u32,
}

/// Clear `bytes` bytes of evaluation slab `slab` at byte `offset`.
#[derive(Clone, Copy, PartialEq, Eq, Structural, Debug)]
pub struct ClearPlan {
    pub slab: usize,
    pub offset: u64,
    pub bytes: u64,
}

/// One contraction dispatch: prefill the parent evaluations (`fill` via
/// the fill-to-worst pipeline, or `clear` via a buffer clear), then bind
/// the child boards (and, when folding existing evaluations, the child
/// evaluations) with the parent evaluations and dispatch `workgroups`
/// groups of the chosen pipeline.
pub struct ContractPlan {
    pub child_slab: usize,
    pub parent_eval_slab: usize,
    /// `Some` when the contraction folds existing child evaluations; the
    /// leaf contraction evaluates the child boards directly.
    pub child_eval_slab: Option<usize>,
    pub fill: Option<FillPlan>,
    pub clear: Option<ClearPlan>,
    pub params: Vec<u8>,
    pub workgroups: u32,
}

impl GpuTree {
    /// The parent evaluation allocation a contraction writes into,
    /// creating it (sized to the layer's board count) on first contact.
    pub fn get_or_create_eval_buf(&mut self, layer: usize) -> (t: AllocToken)
        requires
            old(self).inv(),
            old(self).counts_ok(),
            layer < old(self).layers@.len(),
            old(self).alloc.evals.bricks_for(old(self).layers@[layer as int].num_boards) <= old(
                self,
            ).alloc.evals.max_bricks_per_buf,
        ensures
            final(self).inv(),
            Self::same_config(*old(self), *final(self)),
            final(self).pending_filter == old(self).pending_filter,
            final(self).alloc.boards == old(self).alloc.boards,
            final(self).layers@.len() == old(self).layers@.len(),
            forall|i: int|
                0 <= i < old(self).layers@.len() && i != layer ==> final(self).layers@[i] == old(
                    self,
                ).layers@[i],
            final(self).layers@[layer as int] == (GpuTreeLayer {
                eval_buf: Some(t),
                ..old(self).layers@[layer as int]
            }),
            old(self).layers@[layer as int].eval_buf matches Some(e) ==> t == e && *final(self)
                == *old(self),
            final(self).alloc.evals.token_live(t),
            old(self).layers@[layer as int].num_boards <= t.len_elems,
            evals_alloc_step(*old(self), *final(self)),
    {
        let ghost pre = *self;
        let l = self.layers[layer];
        match l.eval_buf {
            Some(e) => {
                proof {
                    assert(layer_wf(pre.alloc, pre.layers@[layer as int]));
                    assert(pre.layers@.update(layer as int, pre.layers@[layer as int])
                        =~= pre.layers@);
                    lemma_evals_alloc_step_refl(pre);
                }
                e
            },
            None => {
                let t = self.alloc.evals.allocate(l.num_boards);
                let updated = GpuTreeLayer { eval_buf: Some(t), ..l };
                self.layers.set(layer, updated);
                proof {
                    lemma_inv_after_eval_alloc_set(pre, *self, t, layer as int, l.num_boards);
                    lemma_evals_alloc_step_holds(pre, *self, t, l.num_boards);
                }
                t
            },
        }
    }

    /// Shared body of the two contractions: plan one negamax fold of
    /// layer `layer`'s evaluations (or boards, at the leaf boundary) into
    /// its parent's evaluation buffer.
    fn contract_generic(&mut self, layer: usize, do_eval: bool) -> (plan: ContractPlan)
        requires
            old(self).inv(),
            old(self).counts_ok(),
            1 <= layer < old(self).layers@.len(),
            old(self).alloc.evals.bricks_for(
                old(self).layers@[layer as int - 1].num_boards,
            ) <= old(self).alloc.evals.max_bricks_per_buf,
            !do_eval ==> old(self).layers@[layer as int].eval_buf is Some,
        ensures
            final(self).inv(),
            Self::same_config(*old(self), *final(self)),
            final(self).pending_filter == old(self).pending_filter,
            final(self).alloc.boards == old(self).alloc.boards,
            final(self).layers@.len() == old(self).layers@.len(),
            forall|i: int|
                0 <= i < old(self).layers@.len() && i != layer - 1 ==> final(self).layers@[i]
                    == old(self).layers@[i],
            final(self).layers@[layer as int - 1] == (GpuTreeLayer {
                eval_buf: final(self).layers@[layer as int - 1].eval_buf,
                ..old(self).layers@[layer as int - 1]
            }),
            final(self).layers@[layer as int - 1].eval_buf is Some,
            evals_alloc_step(*old(self), *final(self)),
            Self::contract_plan_ok(*old(self), *final(self), layer as int, do_eval, plan),
    {
        let parent_idx = layer - 1;
        let parent = self.layers[parent_idx];
        let parent_eval = self.get_or_create_eval_buf(parent_idx);
        let child = self.layers[layer];
        let to_move = parent.to_move;

        proof {
            assert(layer_wf(self.alloc, self.layers@[layer as int]));
            crate::buffers::lemma_token_elem_offset(self.alloc.boards, child.board_buf);
            crate::buffers::lemma_token_elem_offset(self.alloc.evals, parent_eval);
        }
        let fill = match to_move {
            Side::Black => Some(
                FillPlan {
                    params: global_params_bytes(
                        parent.num_boards,
                        to_move,
                        0,
                        fill_offsets(&parent_eval),
                    ),
                    workgroups: ceil_div(parent.num_boards, WORKGROUP_SIZE),
                },
            ),
            Side::White => None,
        };
        let clear = match to_move {
            Side::White => {
                if parent_eval.byte_len() > 0 {
                    Some(
                        ClearPlan {
                            slab: parent_eval.buffer_index,
                            offset: parent_eval.start(),
                            bytes: parent_eval.byte_len(),
                        },
                    )
                } else {
                    None
                }
            },
            Side::Black => None,
        };
        let offsets = contract_offsets(&child.board_buf, &parent_eval);
        let params = global_params_bytes(child.num_boards, to_move, 0, offsets);
        let workgroups = ceil_div(child.num_boards, WORKGROUP_SIZE);
        let child_eval_slab = if do_eval {
            None
        } else {
            Some(child.eval_buf.unwrap().buffer_index)
        };
        ContractPlan {
            child_slab: child.board_buf.buffer_index,
            parent_eval_slab: parent_eval.buffer_index,
            child_eval_slab,
            fill,
            clear,
            params,
            workgroups,
        }
    }

    /// What a contraction plan promises, relative to the tree before and
    /// after: the right slabs, the side-dependent prefill, and the exact
    /// parameter record for the fold over the child layer.
    pub open spec fn contract_plan_ok(
        pre: GpuTree,
        post: GpuTree,
        layer: int,
        do_eval: bool,
        plan: ContractPlan,
    ) -> bool {
        let parent = pre.layers@[layer - 1];
        let child = pre.layers@[layer];
        let parent_eval = post.layers@[layer - 1].eval_buf->0;
        &&& plan.child_slab == child.board_buf.buffer_index
        &&& plan.parent_eval_slab == parent_eval.buffer_index
        &&& plan.child_eval_slab == (if do_eval {
            Option::<usize>::None
        } else {
            Some(child.eval_buf->0.buffer_index)
        })
        &&& (parent.to_move is Black ==> (plan.fill matches Some(f) && f.params@
            == global_params_spec(
            parent.num_boards,
            parent.to_move,
            0,
            BuffOffsets {
                buf_offset_0: 0,
                buf_offset_1: (parent_eval.offset as int / EVAL_BYTES as int) as u32,
                buf_offset_2: 0,
                buf_offset_3: 0,
            },
        ) && f.workgroups == ceil_div_spec(parent.num_boards as int, WORKGROUP_SIZE as int)))
        &&& (parent.to_move is White ==> plan.fill is None)
        &&& (parent.to_move is White && parent_eval.len_bytes > 0 ==> plan.clear == Some(
            ClearPlan {
                slab: parent_eval.buffer_index,
                offset: parent_eval.offset,
                bytes: parent_eval.len_bytes,
            },
        ))
        &&& ((parent.to_move is Black || parent_eval.len_bytes == 0) ==> plan.clear is None)
        &&& plan.params@ == global_params_spec(
            child.num_boards,
            parent.to_move,
            0,
            BuffOffsets {
                buf_offset_0: 0,
                buf_offset_1: (child.board_buf.offset as int / BOARD_BYTES as int) as u32,
                buf_offset_2: (parent_eval.offset as int / EVAL_BYTES as int) as u32,
                buf_offset_3: 0,
            },
        )
        &&& plan.workgroups == ceil_div_spec(child.num_boards as int, WORKGROUP_SIZE as int)
    }

    /// Plan the leaf contraction: evaluate layer `layer`'s boards and
    /// fold the scores into its parent's evaluation buffer.
    pub fn contract_eval(&mut self, layer: usize) -> (plan: ContractPlan)
        requires
            old(self).inv(),
            old(self).counts_ok(),
            1 <= layer < old(self).layers@.len(),
            old(self).alloc.evals.bricks_for(
                old(self).layers@[layer as int - 1].num_boards,
            ) <= old(self).alloc.evals.max_bricks_per_buf,
        ensures
            final(self).inv(),
            Self::same_config(*old(self), *final(self)),
            final(self).pending_filter == old(self).pending_filter,
            final(self).alloc.boards == old(self).alloc.boards,
            final(self).layers@.len() == old(self).layers@.len(),
            forall|i: int|
                0 <= i < old(self).layers@.len() && i != layer - 1 ==> final(self).layers@[i]
                    == old(self).layers@[i],
            final(self).layers@[layer as int - 1] == (GpuTreeLayer {
                eval_buf: final(self).layers@[layer as int - 1].eval_buf,
                ..old(self).layers@[layer as int - 1]
            }),
            final(self).layers@[layer as int - 1].eval_buf is Some,
            evals_alloc_step(*old(self), *final(self)),
            Self::contract_plan_ok(*old(self), *final(self), layer as int, true, plan),
    {
        self.contract_generic(layer, true)
    }

    /// Plan an inner contraction: fold layer `layer`'s already computed
    /// evaluations into its parent's evaluation buffer. The child layer
    /// must have been contracted into before.
    pub fn contract(&mut self, layer: usize) -> (plan: ContractPlan)
        requires
            old(self).inv(),
            old(self).counts_ok(),
            1 <= layer < old(self).layers@.len(),
            old(self).alloc.evals.bricks_for(
                old(self).layers@[layer as int - 1].num_boards,
            ) <= old(self).alloc.evals.max_bricks_per_buf,
            old(self).layers@[layer as int].eval_buf is Some,
        ensures
            final(self).inv(),
            Self::same_config(*old(self), *final(self)),
            final(self).pending_filter == old(self).pending_filter,
            final(self).alloc.boards == old(self).alloc.boards,
            final(self).layers@.len() == old(self).layers@.len(),
            forall|i: int|
                0 <= i < old(self).layers@.len() && i != layer - 1 ==> final(self).layers@[i]
                    == old(self).layers@[i],
            final(self).layers@[layer as int - 1] == (GpuTreeLayer {
                eval_buf: final(self).layers@[layer as int - 1].eval_buf,
                ..old(self).layers@[layer as int - 1]
            }),
            final(self).layers@[layer as int - 1].eval_buf is Some,
            evals_alloc_step(*old(self), *final(self)),
            Self::contract_plan_ok(*old(self), *final(self), layer as int, false, plan),
    {
        self.contract_generic(layer, false)
    }
}

/// Every evaluation slab has room for `m` more allocation counts.
pub open spec fn eval_counts_within(t: GpuTree, m: int) -> bool {
    forall|i: int|
        0 <= i < t.alloc.evals.buffers@.len() ==> (#[trigger] t
            .alloc.evals.buffers@[i]).allocations + m <= u64::MAX
}

/// An allocation step spends at most one unit of headroom.
proof fn lemma_within_step(pre: GpuTree, post: GpuTree, m: int)
    requires
        evals_alloc_step(pre, post),
        eval_counts_within(pre, m),
        1 <= m <= u64::MAX,
    ensures
        eval_counts_within(post, m - 1),
{
}

impl GpuTree {
    /// Plan the whole reduction: one leaf contraction of the deepest
    /// layer, then one inner contraction per shallower ply, walking
    /// upward, so that every ply below the leaf ends up with an
    /// evaluation buffer and the root holds the folded result. The plans
    /// are returned in dispatch order.
    pub fn contract_all(&mut self) -> (plans: Vec<ContractPlan>)
        requires
            old(self).inv(),
            old(self).counts_ok(),
            old(self).layers@.len() >= 2,
            old(self).layers@.len() <= u64::MAX,
            eval_counts_within(*old(self), old(self).layers@.len() as int),
            forall|k: int|
                0 <= k < old(self).layers@.len() - 1 ==> old(self).alloc.evals.bricks_for(
                    (#[trigger] old(self).layers@[k]).num_boards,
                ) <= old(self).alloc.evals.max_bricks_per_buf,
        ensures
            final(self).inv(),
            Self::same_config(*old(self), *final(self)),
            final(self).pending_filter == old(self).pending_filter,
            final(self).alloc.boards == old(self).alloc.boards,
            final(self).layers@.len() == old(self).layers@.len(),
            forall|i: int|
                0 <= i < old(self).layers@.len() ==> final(self).layers@[i] == (GpuTreeLayer {
                    eval_buf: final(self).layers@[i].eval_buf,
                    ..old(self).layers@[i]
                }),
            forall|i: int|
                0 <= i < old(self).layers@.len() - 1 ==> (#[trigger] final(self).layers@[i]).eval_buf is Some,
            plans@.len() == old(self).layers@.len() - 1,
            evals_views_preserved(*old(self), *final(self)),
    {
        let ghost orig = *self;
        let last = self.layers.len() - 1;
        let mut plans: Vec<ContractPlan> = Vec::new();
        let ghost pre_leaf = *self;
        let leaf_plan = self.contract_eval(last);
        proof {
            lemma_within_step(pre_leaf, *self, orig.layers@.len() as int);
        }
        plans.push(leaf_plan);
        let mut i: usize = last;
        while i > 1
            invariant
                1 <= i <= last,
                last == self.layers@.len() - 1,
                self.layers@.len() == orig.layers@.len(),
                self.inv(),
                orig.inv(),
                Self::same_config(orig, *self),
                self.pending_filter == orig.pending_filter,
                self.alloc.boards == orig.alloc.boards,
                orig.counts_ok(),
                eval_counts_within(*self, i as int),
                evals_views_preserved(orig, *self),
                forall|k: int|
                    0 <= k < orig.layers@.len() ==> self.layers@[k] == (GpuTreeLayer {
                        eval_buf: self.layers@[k].eval_buf,
                        ..orig.layers@[k]
                    }),
                forall|k: int|
                    i - 1 <= k < last ==> (#[trigger] self.layers@[k]).eval_buf is Some,
                forall|k: int|
                    0 <= k < orig.layers@.len() - 1 ==> orig.alloc.evals.bricks_for(
                        (#[trigger] orig.layers@[k]).num_boards,
                    ) <= orig.alloc.evals.max_bricks_per_buf,
                plans@.len() == 1 + (last - i),
            decreases i,
        {
            i = i - 1;
            let ghost pre_it = *self;
            proof {
                assert(self.layers@[i as int].eval_buf is Some);
                assert(self.layers@[i as int - 1].num_boards == orig.layers@[i as int
                    - 1].num_boards);
                assert(self.counts_ok()) by {
                    assert forall|k: int|
                        0 <= k < self.alloc.evals.buffers@.len() implies (#[trigger] self
                        .alloc.evals.buffers@[k]).allocations < u64::MAX by {
                        assert(self.alloc.evals.buffers@[k].allocations + (i + 1) <= u64::MAX);
                    }
                }
            }
            let p = self.contract(i);
            proof {
                lemma_within_step(pre_it, *self, i as int + 1);
                lemma_views_preserved_trans(orig, pre_it, *self);
            }
            plans.push(p);
        }
        plans
    }

    /// Plan a read of a layer's live boards: the driver copies the slab
    /// into the staging buffer and maps `map_bytes` bytes — exactly the
    /// layer's `num_boards` boards. `end_board_view` releases the view.
    pub fn view_boards(&mut self, layer: usize) -> (v: ViewCopy)
        requires
            old(self).inv(),
            layer < old(self).layers@.len(),
            old(self).layers@[layer as int].num_boards > 0,
            old(self).alloc.boards.buffers@[old(self).layers@[layer as int].board_buf.buffer_index
                as int].active_views < u32::MAX,
        ensures
            final(self).inv(),
            Self::same_config(*old(self), *final(self)),
            final(self).layers@ == old(self).layers@,
            final(self).pending_filter == old(self).pending_filter,
            final(self).alloc.evals == old(self).alloc.evals,
            v.buffer_index == old(self).layers@[layer as int].board_buf.buffer_index,
            v.src_offset == old(self).layers@[layer as int].board_buf.offset,
            v.copy_bytes == old(self).layers@[layer as int].board_buf.len_bytes,
            v.map_offset == old(self).layers@[layer as int].board_buf.offset,
            v.map_bytes == old(self).layers@[layer as int].num_boards * BOARD_BYTES,
    {
        let ghost pre = *self;
        let l = self.layers[layer];
        proof {
            assert(layer_wf(pre.alloc, pre.layers@[layer as int]));
        }
        let p = self.alloc.boards.begin_view(l.board_buf, 0, l.num_boards);
        let v = match p {
            Some(v) => v,
            None => {
                proof {
                    assert(false);
                }
                ViewCopy {
                    buffer_index: 0,
                    src_offset: 0,
                    copy_bytes: 0,
                    map_offset: 0,
                    map_bytes: 0,
                }
            },
        };
        proof {
            lemma_inv_after_view_change(pre, *self);
        }
        v
    }

    /// Plan a read of the deepest layer's live boards.
    pub fn view_boards_last(&mut self) -> (v: ViewCopy)
        requires
            old(self).inv(),
            old(self).layers@.len() > 0,
            old(self).layers@.last().num_boards > 0,
            old(self).alloc.boards.buffers@[old(self).layers@.last().board_buf.buffer_index
                as int].active_views < u32::MAX,
        ensures
            final(self).inv(),
            Self::same_config(*old(self), *final(self)),
            final(self).layers@ == old(self).layers@,
            final(self).pending_filter == old(self).pending_filter,
            final(self).alloc.evals == old(self).alloc.evals,
            v.buffer_index == old(self).layers@.last().board_buf.buffer_index,
            v.src_offset == old(self).layers@.last().board_buf.offset,
            v.copy_bytes == old(self).layers@.last().board_buf.len_bytes,
            v.map_offset == old(self).layers@.last().board_buf.offset,
            v.map_bytes == old(self).layers@.last().num_boards * BOARD_BYTES,
    {
        let last = self.layers.len() - 1;
        self.view_boards(last)
    }

    /// Plan a read of a layer's evaluations: after a contraction into
    /// this layer, `map_bytes` covers exactly one word per live board.
    /// `end_eval_view` releases the view.
    pub fn view_evals(&mut self, layer: usize) -> (v: ViewCopy)
        requires
            old(self).inv(),
            layer < old(self).layers@.len(),
            old(self).layers@[layer as int].num_boards > 0,
            old(self).layers@[layer as int].eval_buf is Some,
            old(self).alloc.evals.buffers@[old(self).layers@[layer as int].eval_buf->0.buffer_index
                as int].active_views < u32::MAX,
        ensures
            final(self).inv(),
            Self::same_config(*old(self), *final(self)),
            final(self).layers@ == old(self).layers@,
            final(self).pending_filter == old(self).pending_filter,
            final(self).alloc.boards == old(self).alloc.boards,
            v.buffer_index == old(self).layers@[layer as int].eval_buf->0.buffer_index,
            v.src_offset == old(self).layers@[layer as int].eval_buf->0.offset,
            v.copy_bytes == old(self).layers@[layer as int].eval_buf->0.len_bytes,
            v.map_offset == old(self).layers@[layer as int].eval_buf->0.offset,
            v.map_bytes == old(self).layers@[layer as int].num_boards * EVAL_BYTES,
    {
        let ghost pre = *self;
        let l = self.layers[layer];
        proof {
            assert(layer_wf(pre.alloc, pre.layers@[layer as int]));
        }
        let e = match l.eval_buf {
            Some(e) => e,
            None => {
                proof {
                    assert(false);
                }
                l.board_buf
            },
        };
        let p = self.alloc.evals.begin_view(e, 0, l.num_boards);
        let v = match p {
            Some(v) => v,
            None => {
                proof {
                    assert(false);
                }
                ViewCopy {
                    buffer_index: 0,
                    src_offset: 0,
                    copy_bytes: 0,
                    map_offset: 0,
                    map_bytes: 0,
                }
            },
        };
        proof {
            lemma_inv_after_view_change(pre, *self);
        }
        v
    }

    /// Release a board view: the driver unmaps the staging buffer when
    /// this was the slab's last outstanding view.
    pub fn end_board_view(&mut self, buffer_index: usize) -> (unmap: bool)
        requires
            old(self).inv(),
            buffer_index < old(self).alloc.boards.buffers@.len(),
            old(self).alloc.boards.buffers@[buffer_index as int].active_views > 0,
        ensures
            final(self).inv(),
            Self::same_config(*old(self), *final(self)),
            final(self).layers@ == old(self).layers@,
            final(self).pending_filter == old(self).pending_filter,
            final(self).alloc.evals == old(self).alloc.evals,
            unmap == (old(self).alloc.boards.buffers@[buffer_index as int].active_views == 1),
    {
        let ghost pre = *self;
        let unmap = self.alloc.boards.end_view(buffer_index);
        proof {
            lemma_inv_after_view_change(pre, *self);
        }
        unmap
    }

    /// Release an evaluation view.
    pub fn end_eval_view(&mut self, buffer_index: usize) -> (unmap: bool)
        requires
            old(self).inv(),
            buffer_index < old(self).alloc.evals.buffers@.len(),
            old(self).alloc.evals.buffers@[buffer_index as int].active_views > 0,
        ensures
            final(self).inv(),
            Self::same_config(*old(self), *final(self)),
            final(self).layers@ == old(self).layers@,
            final(self).pending_filter == old(self).pending_filter,
            final(self).alloc.boards == old(self).alloc.boards,
            unmap == (old(self).alloc.evals.buffers@[buffer_index as int].active_views == 1),
    {
        let ghost pre = *self;
        let unmap = self.alloc.evals.end_view(buffer_index);
        proof {
            lemma_inv_after_view_change(pre, *self);
        }
        unmap
    }

    /// Tear the tree down: every layer's board and (if present)
    /// evaluation allocation, and any pending filter allocation, is
    /// released exactly once, and the arenas are handed back for the
    /// next tree: per slab, the live ranges shrink by exactly the
    /// ranges this tree held, the live count by their number, and the
    /// bump cursor returns to zero where the slab empties.
    pub fn finish(self) -> (r: GpuAllocations)
        requires
            self.inv(),
        ensures
            r.inv(),
            r.boards.config() == self.alloc.boards.config(),
            r.evals.config() == self.alloc.evals.config(),
            r.boards_per_buf == self.alloc.boards_per_buf,
            r.boards.buffers@.len() == self.alloc.boards.buffers@.len(),
            r.evals.buffers@.len() == self.alloc.evals.buffers@.len(),
            forall|j: int|
                0 <= j < self.alloc.boards.buffers@.len() ==> slab_released(
                    #[trigger] self.alloc.boards.buffers@[j],
                    self.alloc.boards.live@[j],
                    r.boards.buffers@[j],
                    r.boards.live@[j],
                    board_ranges_from(self.alloc.boards, self.layers@, j, 0).add(
                        pending_ranges(self.alloc.boards, self.pending_filter, j),
                    ),
                ),
            forall|j: int|
                0 <= j < self.alloc.evals.buffers@.len() ==> slab_released(
                    #[trigger] self.alloc.evals.buffers@[j],
                    self.alloc.evals.live@[j],
                    r.evals.buffers@[j],
                    r.evals.live@[j],
                    eval_ranges_from(self.alloc.evals, self.layers@, j, 0),
                ),
    {
        let GpuTree { mut layers, mut alloc, pending_filter } = self;
        let ghost orig = self;
        let ghost orig_b = self.alloc.boards;
        let ghost orig_e = self.alloc.evals;
        proof {
            lemma_ranges_empty_suffix(orig_b, orig.layers@, orig.layers@.len() as int);
        }
        match pending_filter {
            Some(t) => {
                let ghost mb0 = alloc.boards;
                alloc.boards.dealloc(t);
                proof {
                    let n = layers@.len() as int;
                    let counts = |j: int, r: BrickRange| board_tok_count(mb0, layers@, j, r, n);
                    assert forall|j: int, r: BrickRange| 0 <= j < mb0.live@.len()
                        implies #[trigger] counts(j, r) + (if j == t.buffer_index && r
                        == mb0.range_of(t) {
                        1int
                    } else {
                        0int
                    }) <= mb0.live@[j].count(r) by {}
                    assert forall|j: int, r: BrickRange| #[trigger] counts(j, r) >= 0 by {
                        lemma_counts_nonneg(mb0, layers@, j, r, n);
                    }
                    lemma_counts_after_dealloc(mb0, alloc.boards, t, counts);
                    assert forall|j: int, r: BrickRange| 0 <= j < alloc.boards.live@.len()
                        implies board_tok_count(alloc.boards, layers@, j, r, n)
                        <= #[trigger] alloc.boards.live@[j].count(r) by {
                        lemma_board_count_congruent(alloc.boards, mb0, layers@, layers@, j, r, n);
                        assert(counts(j, r) == board_tok_count(mb0, layers@, j, r, n));
                    }
                    // Account the released pending range.
                    lemma_dealloc_live_uniform(mb0, alloc.boards, t);
                    let jt = t.buffer_index as int;
                    let rt = mb0.range_of(t);
                    assert forall|j: int| 0 <= j < orig_b.buffers@.len() implies slab_released(
                        #[trigger] orig_b.buffers@[j],
                        orig_b.live@[j],
                        alloc.boards.buffers@[j],
                        alloc.boards.live@[j],
                        board_ranges_from(orig_b, orig.layers@, j, n).add(
                            pending_ranges(orig_b, orig.pending_filter, j),
                        ),
                    ) by {
                        let freed = board_ranges_from(orig_b, orig.layers@, j, n).add(
                            pending_ranges(orig_b, orig.pending_filter, j),
                        );
                        if j == jt {
                            lemma_live_exchange(
                                orig_b.live@[j],
                                Multiset::<BrickRange>::empty(),
                                rt,
                            );
                            assert(orig_b.live@[j].add(Multiset::<BrickRange>::empty())
                                =~= orig_b.live@[j]);
                            assert(freed =~= Multiset::<BrickRange>::empty().insert(rt));
                            assert(orig_b.live@[j] == alloc.boards.live@[j].add(freed));
                            assert(freed.len() == 1);
                        } else {
                            assert(freed =~= Multiset::<BrickRange>::empty());
                            assert(orig_b.live@[j].add(freed) =~= orig_b.live@[j]);
                            assert(alloc.boards.buffers@[j] == orig_b.buffers@[j]);
                        }
                        assert(BufferManager::slab_inv(
                            orig_b.buffers@[j],
                            orig_b.live@[j],
                            orig_b.max_bricks_per_buf as int,
                        ));
                    }
                }
            },
            None => {
                proof {
                    lemma_released_refl(orig_b, orig, orig.layers@.len() as int);
                }
            },
        }
        proof {
            assert forall|i: int| 0 <= i < layers@.len() implies {
                &&& alloc.boards.token_wf((#[trigger] layers@[i]).board_buf)
                &&& layers@[i].num_boards <= layers@[i].board_buf.len_elems
                &&& match layers@[i].eval_buf {
                    Some(e) => alloc.evals.token_wf(e),
                    None => true,
                }
            } by {
                assert(layer_wf(orig.alloc, orig.layers@[i]));
            }
            assert(layers@ =~= orig.layers@.subrange(0, layers@.len() as int));
            lemma_ranges_empty_suffix(orig_e, orig.layers@, orig.layers@.len() as int);
            assert forall|j: int| 0 <= j < orig_e.buffers@.len() implies slab_released(
                #[trigger] orig_e.buffers@[j],
                orig_e.live@[j],
                alloc.evals.buffers@[j],
                alloc.evals.live@[j],
                eval_ranges_from(orig_e, orig.layers@, j, layers@.len() as int),
            ) by {
                assert(eval_ranges_from(orig_e, orig.layers@, j, layers@.len() as int)
                    =~= Multiset::<BrickRange>::empty());
                assert(orig_e.live@[j].add(Multiset::<BrickRange>::empty()) =~= orig_e.live@[j]);
                assert(BufferManager::slab_inv(
                    orig_e.buffers@[j],
                    orig_e.live@[j],
                    orig_e.max_bricks_per_buf as int,
                ));
            }
        }
        while layers.len() > 0
            invariant
                alloc.inv(),
                layers@ == orig.layers@.subrange(0, layers@.len() as int),
                layers@.len() <= orig.layers@.len(),
                forall|j: int, r: BrickRange|
                    0 <= j < alloc.boards.live@.len() ==> board_tok_count(
                        alloc.boards,
                        layers@,
                        j,
                        r,
                        layers@.len() as int,
                    ) <= #[trigger] alloc.boards.live@[j].count(r),
                forall|j: int, r: BrickRange|
                    0 <= j < alloc.evals.live@.len() ==> eval_tok_count(
                        alloc.evals,
                        layers@,
                        j,
                        r,
                        layers@.len() as int,
                    ) <= #[trigger] alloc.evals.live@[j].count(r),
                forall|i: int|
                    0 <= i < layers@.len() ==> {
                        &&& alloc.boards.token_wf((#[trigger] layers@[i]).board_buf)
                        &&& match layers@[i].eval_buf {
                            Some(e) => alloc.evals.token_wf(e),
                            None => true,
                        }
                    },
                alloc.boards.config() == orig.alloc.boards.config(),
                alloc.evals.config() == orig.alloc.evals.config(),
                alloc.boards_per_buf == orig.alloc.boards_per_buf,
                alloc.buffer_size == orig.alloc.buffer_size,
                alloc.boards.buffers@.len() == alloc.boards.live@.len(),
                alloc.evals.buffers@.len() == alloc.evals.live@.len(),
                alloc.boards.buffers@.len() == orig_b.buffers@.len(),
                alloc.evals.buffers@.len() == orig_e.buffers@.len(),
                orig_b == orig.alloc.boards,
                orig_e == orig.alloc.evals,
                orig.inv(),
                forall|j: int|
                    0 <= j < orig_b.buffers@.len() ==> slab_released(
                        #[trigger] orig_b.buffers@[j],
                        orig_b.live@[j],
                        alloc.boards.buffers@[j],
                        alloc.boards.live@[j],
                        board_ranges_from(orig_b, orig.layers@, j, layers@.len() as int).add(
                            pending_ranges(orig_b, orig.pending_filter, j),
                        ),
                    ),
                forall|j: int|
                    0 <= j < orig_e.buffers@.len() ==> slab_released(
                        #[trigger] orig_e.buffers@[j],
                        orig_e.live@[j],
                        alloc.evals.buffers@[j],
                        alloc.evals.live@[j],
                        eval_ranges_from(orig_e, orig.layers@, j, layers@.len() as int),
                    ),
            decreases layers@.len(),
        {
            let ghost pre_layers = layers@;
            let ghost n = layers@.len() as int;
            let l = match layers.pop() {
                Some(l) => l,
                None => {
                    proof {
                        assert(false);
                    }
                    continue ;
                },
            };
            proof {
                assert(layers@ =~= orig.layers@.subrange(0, n - 1));
                assert(l == orig.layers@[n - 1]);
            }
            let ghost mb0 = alloc.boards;
            proof {
                lemma_board_count_lower(mb0, pre_layers, n - 1, n);
                lemma_counts_nonneg(mb0, pre_layers, l.board_buf.buffer_index as int, mb0.range_of(l.board_buf), n - 1);
            }
            alloc.boards.dealloc(l.board_buf);
            proof {
                let counts = |j: int, r: BrickRange| board_tok_count(mb0, layers@, j, r, n - 1);
                assert forall|j: int, r: BrickRange| 0 <= j < mb0.live@.len()
                    implies #[trigger] counts(j, r) + (if j == l.board_buf.buffer_index && r
                    == mb0.range_of(l.board_buf) {
                    1int
                } else {
                    0int
                }) <= mb0.live@[j].count(r) by {
                    lemma_board_count_congruent(mb0, mb0, layers@, pre_layers, j, r, n - 1);
                }
                assert forall|j: int, r: BrickRange| #[trigger] counts(j, r) >= 0 by {
                    lemma_counts_nonneg(mb0, layers@, j, r, n - 1);
                }
                lemma_counts_after_dealloc(mb0, alloc.boards, l.board_buf, counts);
                assert forall|j: int, r: BrickRange| 0 <= j < alloc.boards.live@.len()
                    implies board_tok_count(alloc.boards, layers@, j, r, n - 1)
                    <= #[trigger] alloc.boards.live@[j].count(r) by {
                    lemma_board_count_congruent(alloc.boards, mb0, layers@, layers@, j, r, n - 1);
                    assert(counts(j, r) == board_tok_count(mb0, layers@, j, r, n - 1));
                }
                assert forall|j: int, r: BrickRange| 0 <= j < alloc.evals.live@.len()
                    implies eval_tok_count(alloc.evals, layers@, j, r, n - 1)
                    <= #[trigger] alloc.evals.live@[j].count(r) by {
                    lemma_eval_count_congruent(
                        alloc.evals,
                        alloc.evals,
                        layers@,
                        pre_layers,
                        j,
                        r,
                        n - 1,
                    );
                    lemma_counts_nonneg(alloc.evals, layers@, j, r, n - 1);
                }
                // Account the released board range.
                lemma_dealloc_live_uniform(mb0, alloc.boards, l.board_buf);
                let jb = l.board_buf.buffer_index as int;
                let rb = orig_b.range_of(l.board_buf);
                assert(mb0.range_of(l.board_buf) == rb);
                assert forall|j: int| 0 <= j < orig_b.buffers@.len() implies slab_released(
                    #[trigger] orig_b.buffers@[j],
                    orig_b.live@[j],
                    alloc.boards.buffers@[j],
                    alloc.boards.live@[j],
                    board_ranges_from(orig_b, orig.layers@, j, n - 1).add(
                        pending_ranges(orig_b, orig.pending_filter, j),
                    ),
                ) by {
                    let freed_old = board_ranges_from(orig_b, orig.layers@, j, n).add(
                        pending_ranges(orig_b, orig.pending_filter, j),
                    );
                    let freed_new = board_ranges_from(orig_b, orig.layers@, j, n - 1).add(
                        pending_ranges(orig_b, orig.pending_filter, j),
                    );
                    assert(slab_released(
                        orig_b.buffers@[j],
                        orig_b.live@[j],
                        mb0.buffers@[j],
                        mb0.live@[j],
                        freed_old,
                    ));
                    if j == jb {
                        assert(board_ranges_from(orig_b, orig.layers@, j, n - 1)
                            == board_ranges_from(orig_b, orig.layers@, j, n).insert(rb));
                        assert(freed_new =~= freed_old.insert(rb));
                        lemma_live_exchange(mb0.live@[j], freed_old, rb);
                        assert(alloc.boards.live@[j] == mb0.live@[j].remove(rb));
                        assert(alloc.boards.live@[j].add(freed_new) =~= mb0.live@[j].remove(
                            rb,
                        ).add(freed_old.insert(rb)));
                        assert(orig_b.live@[j] == mb0.live@[j].add(freed_old));
                        assert(orig_b.live@[j] == alloc.boards.live@[j].add(freed_new));
                        assert(freed_new.len() == freed_old.len() + 1);
                    } else {
                        assert(board_ranges_from(orig_b, orig.layers@, j, n - 1)
                            == board_ranges_from(orig_b, orig.layers@, j, n));
                        assert(alloc.boards.buffers@[j] == mb0.buffers@[j]);
                        assert(alloc.boards.live@[j] == mb0.live@[j]);
                    }
                }
            }
            match l.eval_buf {
                Some(e) => {
                    let ghost me0 = alloc.evals;
                    proof {
                        lemma_eval_count_lower(me0, pre_layers, n - 1, n, e);
                        lemma_eval_count_congruent(me0, me0, pre_layers, pre_layers, e.buffer_index as int, me0.range_of(e), n - 1);
                    }
                    alloc.evals.dealloc(e);
                    proof {
                        let counts = |j: int, r: BrickRange|
                            eval_tok_count(me0, layers@, j, r, n - 1);
                        assert forall|j: int, r: BrickRange| 0 <= j < me0.live@.len()
                            implies #[trigger] counts(j, r) + (if j == e.buffer_index && r
                            == me0.range_of(e) {
                            1int
                        } else {
                            0int
                        }) <= me0.live@[j].count(r) by {
                            lemma_eval_count_congruent(me0, me0, layers@, pre_layers, j, r, n - 1);
                        }
                        assert forall|j: int, r: BrickRange| #[trigger] counts(j, r) >= 0 by {
                            lemma_counts_nonneg(me0, layers@, j, r, n - 1);
                        }
                        lemma_counts_after_dealloc(me0, alloc.evals, e, counts);
                        assert forall|j: int, r: BrickRange| 0 <= j < alloc.evals.live@.len()
                            implies eval_tok_count(alloc.evals, layers@, j, r, n - 1)
                            <= #[trigger] alloc.evals.live@[j].count(r) by {
                            lemma_eval_count_congruent(
                                alloc.evals,
                                me0,
                                layers@,
                                layers@,
                                j,
                                r,
                                n - 1,
                            );
                            assert(counts(j, r) == eval_tok_count(me0, layers@, j, r, n - 1));
                        }
                        // Account the released evaluation range.
                        lemma_dealloc_live_uniform(me0, alloc.evals, e);
                        let je = e.buffer_index as int;
                        let re = orig_e.range_of(e);
                        assert(me0.range_of(e) == re);
                        assert forall|j: int| 0 <= j < orig_e.buffers@.len()
                            implies slab_released(
                            #[trigger] orig_e.buffers@[j],
                            orig_e.live@[j],
                            alloc.evals.buffers@[j],
                            alloc.evals.live@[j],
                            eval_ranges_from(orig_e, orig.layers@, j, n - 1),
                        ) by {
                            let freed_old = eval_ranges_from(orig_e, orig.layers@, j, n);
                            let freed_new = eval_ranges_from(orig_e, orig.layers@, j, n - 1);
                            assert(slab_released(
                                orig_e.buffers@[j],
                                orig_e.live@[j],
                                me0.buffers@[j],
                                me0.live@[j],
                                freed_old,
                            ));
                            if j == je {
                                assert(freed_new == freed_old.insert(re));
                                lemma_live_exchange(me0.live@[j], freed_old, re);
                                assert(alloc.evals.live@[j] == me0.live@[j].remove(re));
                                assert(alloc.evals.live@[j].add(freed_new) =~= me0.live@[j]
                                    .remove(re).add(freed_old.insert(re)));
                                assert(orig_e.live@[j] == me0.live@[j].add(freed_old));
                                assert(orig_e.live@[j] == alloc.evals.live@[j].add(freed_new));
                                assert(freed_new.len() == freed_old.len() + 1);
                            } else {
                                assert(freed_new == freed_old);
                                assert(alloc.evals.buffers@[j] == me0.buffers@[j]);
                                assert(alloc.evals.live@[j] == me0.live@[j]);
                            }
                        }
                    }
                },
                None => {
                    proof {
                        assert forall|j: int| 0 <= j < orig_e.buffers@.len()
                            implies slab_released(
                            #[trigger] orig_e.buffers@[j],
                            orig_e.live@[j],
                            alloc.evals.buffers@[j],
                            alloc.evals.live@[j],
                            eval_ranges_from(orig_e, orig.layers@, j, n - 1),
                        ) by {
                            assert(eval_ranges_from(orig_e, orig.layers@, j, n - 1)
                                == eval_ranges_from(orig_e, orig.layers@, j, n));
                            assert(slab_released(
                                orig_e.buffers@[j],
                                orig_e.live@[j],
                                alloc.evals.buffers@[j],
                                alloc.evals.live@[j],
                                eval_ranges_from(orig_e, orig.layers@, j, n),
                            ));
                        }
                    }
                },
            }
        }
        alloc
    }

    /// A borrowed handle on one layer.
    pub fn layer<'a>(&'a self, layer: usize) -> (r: LayerRef<'a>)
        requires
            layer < self.layers@.len(),
        ensures
            r.index == layer,
            r.tree == self,
    {
        LayerRef { index: layer, tree: self }
    }

    /// A borrowed handle on the deepest layer.
    pub fn last_layer<'a>(&'a self) -> (r: LayerRef<'a>)
        requires
            self.layers@.len() > 0,
        ensures
            r.index == self.layers@.len() - 1,
            r.tree == self,
    {
        LayerRef { index: self.layers.len() - 1, tree: self }
    }
}

/// A view change (beginning or ending a read view) leaves every
/// allocation-related part of the tree state alone.
proof fn lemma_inv_after_view_change(pre: GpuTree, post: GpuTree)
    requires
        pre.inv(),
        post.alloc.inv(),
        post.layers@ == pre.layers@,
        post.pending_filter == pre.pending_filter,
        post.alloc.boards.config() == pre.alloc.boards.config(),
        post.alloc.evals.config() == pre.alloc.evals.config(),
        post.alloc.boards.live@ == pre.alloc.boards.live@,
        post.alloc.evals.live@ == pre.alloc.evals.live@,
        post.alloc.boards.buffers@.len() == pre.alloc.boards.buffers@.len(),
        post.alloc.evals.buffers@.len() == pre.alloc.evals.buffers@.len(),
    ensures
        post.inv(),
{
    let n = pre.layers@.len() as int;
    assert forall|i: int| 0 <= i < post.layers@.len() implies layer_wf(
        post.alloc,
        #[trigger] post.layers@[i],
    ) by {
        assert(layer_wf(pre.alloc, pre.layers@[i]));
    }
    assert forall|j: int, r: BrickRange| 0 <= j < post.alloc.boards.live@.len()
        implies board_tok_count(post.alloc.boards, post.layers@, j, r, n) + pending_tok_count(
        post.alloc.boards,
        post.pending_filter,
        j,
        r,
    ) <= #[trigger] post.alloc.boards.live@[j].count(r) by {
        lemma_board_count_congruent(
            post.alloc.boards,
            pre.alloc.boards,
            post.layers@,
            pre.layers@,
            j,
            r,
            n,
        );
        assert(pre.alloc.boards.live@[j].count(r) == post.alloc.boards.live@[j].count(r));
    }
    assert forall|j: int, r: BrickRange| 0 <= j < post.alloc.evals.live@.len()
        implies eval_tok_count(post.alloc.evals, post.layers@, j, r, n)
        <= #[trigger] post.alloc.evals.live@[j].count(r) by {
        lemma_eval_count_congruent(
            post.alloc.evals,
            pre.alloc.evals,
            post.layers@,
            pre.layers@,
            j,
            r,
            n,
        );
        assert(pre.alloc.evals.live@[j].count(r) == post.alloc.evals.live@[j].count(r));
    }
    match post.pending_filter {
        Some(t) => {
            assert(pre.alloc.boards.token_live(t));
        },
        None => {},
    }
}

/// A borrowed handle on one layer of a tree.
pub struct LayerRef<'a> {
    pub index: usize,
    pub tree: &'a GpuTree,
}

impl<'a> LayerRef<'a> {
    /// The number of live boards in this layer.
    pub fn size(&self) -> (r: u32)
        requires
            self.index < self.tree.layers@.len(),
        ensures
            r == self.tree.layers@[self.index as int].num_boards,
    {
        self.tree.layers[self.index].num_boards
    }

    /// How deep this layer sits: the root layer is depth zero.
    pub fn depth(&self) -> (r: usize)
        ensures
            r == self.index,
    {
        self.index
    }
}

/// Whether `a` is at least as good as `b` for `side`.
pub open spec fn at_least_as_good(a: EvalScore, b: EvalScore, side: Side) -> bool {
    if side is White {
        a.0 >= b.0
    } else {
        a.0 <= b.0
    }
}

/// The fold the contraction kernels implement, as a host-side reference:
/// the best of the child evaluations from the parent's point of view —
/// the maximum for White, the minimum for Black.
pub fn reduce_evals(evals: &Vec<EvalScore>, side: Side) -> (r: EvalScore)
    requires
        evals@.len() > 0,
    ensures
        exists|i: int| 0 <= i < evals@.len() && r == evals@[i],
        forall|i: int| 0 <= i < evals@.len() ==> at_least_as_good(r, #[trigger] evals@[i], side),
{
    let mut best = evals[0];
    let mut i: usize = 1;
    while i < evals.len()
        invariant
            1 <= i <= evals@.len(),
            exists|k: int| 0 <= k < evals@.len() && best == evals@[k],
            forall|k: int| 0 <= k < i ==> at_least_as_good(best, #[trigger] evals@[k], side),
        decreases evals@.len() - i,
    {
        let c = evals[i];
        let better = match side {
            Side::White => c.0 > best.0,
            Side::Black => c.0 < best.0,
        };
        if better {
            best = c;
        }
        i = i + 1;
    }
    best
}

/// One tree operation grows each evaluation slab's allocation count by at
/// most one (and a fresh slab starts at one).
pub open spec fn evals_alloc_step(pre: GpuTree, post: GpuTree) -> bool {
    &&& pre.alloc.evals.buffers@.len() <= post.alloc.evals.buffers@.len() <= pre
        .alloc.evals.buffers@.len() + 1
    &&& forall|i: int|
        0 <= i < pre.alloc.evals.buffers@.len() ==> (#[trigger] post
            .alloc.evals.buffers@[i]).allocations <= pre.alloc.evals.buffers@[i].allocations + 1
    &&& forall|i: int|
        pre.alloc.evals.buffers@.len() <= i < post.alloc.evals.buffers@.len() ==> (
        #[trigger] post.alloc.evals.buffers@[i]).allocations == 1
    &&& evals_views_preserved(pre, post)
}

/// The evaluation arena's read-view counters are untouched: existing
/// slabs keep theirs, fresh slabs start with none. Allocation never maps
/// or unmaps, so callers may chain a read view after any run of
/// contractions.
pub open spec fn evals_views_preserved(pre: GpuTree, post: GpuTree) -> bool {
    &&& pre.alloc.evals.buffers@.len() <= post.alloc.evals.buffers@.len()
    &&& forall|i: int|
        0 <= i < pre.alloc.evals.buffers@.len() ==> (#[trigger] post
            .alloc.evals.buffers@[i]).active_views == pre.alloc.evals.buffers@[i].active_views
    &&& forall|i: int|
        pre.alloc.evals.buffers@.len() <= i < post.alloc.evals.buffers@.len() ==> (
        #[trigger] post.alloc.evals.buffers@[i]).active_views == 0
}

/// View preservation composes across successive operations.
proof fn lemma_views_preserved_trans(a: GpuTree, b: GpuTree, c: GpuTree)
    requires
        evals_views_preserved(a, b),
        evals_views_preserved(b, c),
    ensures
        evals_views_preserved(a, c),
{
}

/// A tree unchanged in its evaluation arena took an (empty) allocation
/// step.
proof fn lemma_evals_alloc_step_refl(t: GpuTree)
    ensures
        evals_alloc_step(t, t),
{
}

/// An evaluation allocation is one allocation step.
proof fn lemma_evals_alloc_step_holds(pre: GpuTree, post: GpuTree, t: AllocToken, size: u32)
    requires
        pre.inv(),
        BufferManager::allocate_post(pre.alloc.evals, post.alloc.evals, t, size),
    ensures
        evals_alloc_step(pre, post),
{
    let step = BufferManager::alloc_spec(
        pre.alloc.evals.buffers@,
        pre.alloc.evals.max_bricks_per_buf as int,
        pre.alloc.evals.bricks_for(size),
    );
    assert(post.alloc.evals.buffers@ == step.0);
}

/// Updating a layer without touching its allocations keeps the tree
/// invariant, provided the new count still fits them.
proof fn lemma_inv_after_num_update(pre: GpuTree, post: GpuTree, i: int, l2: GpuTreeLayer)
    requires
        pre.inv(),
        post.alloc == pre.alloc,
        post.pending_filter == pre.pending_filter,
        0 <= i < pre.layers@.len(),
        post.layers@ == pre.layers@.update(i, l2),
        l2.board_buf == pre.layers@[i].board_buf,
        l2.eval_buf == pre.layers@[i].eval_buf,
        l2.num_boards <= l2.board_buf.len_elems,
        match l2.eval_buf {
            Some(e) => l2.num_boards <= e.len_elems,
            None => true,
        },
        match pre.pending_filter {
            Some(t) => i == pre.layers@.len() - 1 ==> l2.num_boards <= t.len_elems,
            None => true,
        },
    ensures
        post.inv(),
{
    let n = pre.layers@.len() as int;
    assert forall|j2: int| 0 <= j2 < post.layers@.len() implies layer_wf(
        post.alloc,
        #[trigger] post.layers@[j2],
    ) by {
        assert(layer_wf(pre.alloc, pre.layers@[j2]));
    }
    assert forall|j: int, r: BrickRange| 0 <= j < post.alloc.boards.live@.len()
        implies board_tok_count(post.alloc.boards, post.layers@, j, r, n) + pending_tok_count(
        post.alloc.boards,
        post.pending_filter,
        j,
        r,
    ) <= #[trigger] post.alloc.boards.live@[j].count(r) by {
        lemma_board_count_congruent(
            post.alloc.boards,
            pre.alloc.boards,
            post.layers@,
            pre.layers@,
            j,
            r,
            n,
        );
    }
    assert forall|j: int, r: BrickRange| 0 <= j < post.alloc.evals.live@.len()
        implies eval_tok_count(post.alloc.evals, post.layers@, j, r, n)
        <= #[trigger] post.alloc.evals.live@[j].count(r) by {
        lemma_eval_count_congruent(
            post.alloc.evals,
            pre.alloc.evals,
            post.layers@,
            pre.layers@,
            j,
            r,
            n,
        );
    }
}

/// Counting board allocations only looks at the layers' board tokens and
/// the manager's brick size.
proof fn lemma_board_count_congruent(
    m1: BufferManager,
    m2: BufferManager,
    ls1: Seq<GpuTreeLayer>,
    ls2: Seq<GpuTreeLayer>,
    j: int,
    r: BrickRange,
    n: int,
)
    requires
        m1.brick_size == m2.brick_size,
        n <= ls1.len(),
        n <= ls2.len(),
        forall|i: int| 0 <= i < n ==> (#[trigger] ls1[i]).board_buf == ls2[i].board_buf,
    ensures
        board_tok_count(m1, ls1, j, r, n) == board_tok_count(m2, ls2, j, r, n),
    decreases n,
{
    if n > 0 {
        lemma_board_count_congruent(m1, m2, ls1, ls2, j, r, n - 1);
    }
}

/// Counting evaluation allocations only looks at the layers' evaluation
/// tokens and the manager's brick size.
proof fn lemma_eval_count_congruent(
    m1: BufferManager,
    m2: BufferManager,
    ls1: Seq<GpuTreeLayer>,
    ls2: Seq<GpuTreeLayer>,
    j: int,
    r: BrickRange,
    n: int,
)
    requires
        m1.brick_size == m2.brick_size,
        n <= ls1.len(),
        n <= ls2.len(),
        forall|i: int| 0 <= i < n ==> (#[trigger] ls1[i]).eval_buf == ls2[i].eval_buf,
    ensures
        eval_tok_count(m1, ls1, j, r, n) == eval_tok_count(m2, ls2, j, r, n),
    decreases n,
{
    if n > 0 {
        lemma_eval_count_congruent(m1, m2, ls1, ls2, j, r, n - 1);
    }
}

/// Replacing one layer changes a board count by the difference of the two
/// layers' contributions.
proof fn lemma_board_count_update(
    m: BufferManager,
    ls: Seq<GpuTreeLayer>,
    i: int,
    l2: GpuTreeLayer,
    j: int,
    r: BrickRange,
    n: int,
)
    requires
        0 <= i < ls.len(),
        n <= ls.len(),
    ensures
        board_tok_count(m, ls.update(i, l2), j, r, n) == board_tok_count(m, ls, j, r, n) + (if i
            < n {
            (if l2.board_buf.buffer_index == j && m.range_of(l2.board_buf) == r {
                1int
            } else {
                0int
            }) - (if ls[i].board_buf.buffer_index == j && m.range_of(ls[i].board_buf) == r {
                1int
            } else {
                0int
            })
        } else {
            0int
        }),
    decreases n,
{
    if n > 0 {
        lemma_board_count_update(m, ls, i, l2, j, r, n - 1);
    }
}

/// Replacing one layer changes an evaluation count by the difference of
/// the two layers' contributions.
proof fn lemma_eval_count_update(
    m: BufferManager,
    ls: Seq<GpuTreeLayer>,
    i: int,
    l2: GpuTreeLayer,
    j: int,
    r: BrickRange,
    n: int,
)
    requires
        0 <= i < ls.len(),
        n <= ls.len(),
    ensures
        eval_tok_count(m, ls.update(i, l2), j, r, n) == eval_tok_count(m, ls, j, r, n) + (if i
            < n {
            (match l2.eval_buf {
                Some(t) => if t.buffer_index == j && m.range_of(t) == r {
                    1int
                } else {
                    0int
                },
                None => 0int,
            }) - (match ls[i].eval_buf {
                Some(t) => if t.buffer_index == j && m.range_of(t) == r {
                    1int
                } else {
                    0int
                },
                None => 0int,
            })
        } else {
            0int
        }),
    decreases n,
{
    if n > 0 {
        lemma_eval_count_update(m, ls, i, l2, j, r, n - 1);
    }
}

/// A slab that no layer's board allocation names counts zero board
/// tokens.
proof fn lemma_board_count_absent(
    m: BufferManager,
    ls: Seq<GpuTreeLayer>,
    j: int,
    r: BrickRange,
    n: int,
)
    requires
        n <= ls.len(),
        forall|i: int| 0 <= i < n ==> (#[trigger] ls[i]).board_buf.buffer_index != j,
    ensures
        board_tok_count(m, ls, j, r, n) == 0,
    decreases n,
{
    if n > 0 {
        lemma_board_count_absent(m, ls, j, r, n - 1);
    }
}

/// A slab that no layer's evaluation allocation names counts zero
/// evaluation tokens.
proof fn lemma_eval_count_absent(
    m: BufferManager,
    ls: Seq<GpuTreeLayer>,
    j: int,
    r: BrickRange,
    n: int,
)
    requires
        n <= ls.len(),
        forall|i: int|
            0 <= i < n ==> match (#[trigger] ls[i]).eval_buf {
                Some(t) => t.buffer_index != j,
                None => true,
            },
    ensures
        eval_tok_count(m, ls, j, r, n) == 0,
    decreases n,
{
    if n > 0 {
        lemma_eval_count_absent(m, ls, j, r, n - 1);
    }
}

/// Pushing a layer whose board allocation was just made keeps the tree
/// invariant: the new range was counted into the arena's live multiset by
/// the very allocation the layer records.
proof fn lemma_inv_after_board_alloc_push(pre: GpuTree, post: GpuTree, t: AllocToken, size: u32)
    requires
        pre.inv(),
        BufferManager::allocate_post(pre.alloc.boards, post.alloc.boards, t, size),
        post.alloc.boards.inv(),
        post.alloc.evals == pre.alloc.evals,
        post.alloc.boards_per_buf == pre.alloc.boards_per_buf,
        post.alloc.buffer_size == pre.alloc.buffer_size,
        post.layers@.len() == pre.layers@.len() + 1,
        forall|i: int| 0 <= i < pre.layers@.len() ==> post.layers@[i] == pre.layers@[i],
        post.layers@.last().board_buf == t,
        post.layers@.last().eval_buf is None,
        post.layers@.last().num_boards <= t.len_elems,
        pre.pending_filter is None,
        post.pending_filter is None,
    ensures
        post.inv(),
{
    let mb0 = pre.alloc.boards;
    let mb1 = post.alloc.boards;
    let me = pre.alloc.evals;
    let n0 = pre.layers@.len() as int;
    assert(mb1.config() == mb0.config());
    assert(post.alloc.inv());
    // Every old layer stays well formed: board liveness is preserved by
    // the allocation, and the evaluation arena did not move.
    assert forall|i: int| 0 <= i < post.layers@.len() implies layer_wf(
        post.alloc,
        #[trigger] post.layers@[i],
    ) by {
        if i < n0 {
            assert(layer_wf(pre.alloc, pre.layers@[i]));
            assert(mb0.token_live(pre.layers@[i].board_buf));
        }
    }
    // Board token counts: the new layer adds one occurrence of exactly
    // the range the allocation inserted.
    assert forall|j: int, r: BrickRange| 0 <= j < mb1.live@.len() implies board_tok_count(
        mb1,
        post.layers@,
        j,
        r,
        post.layers@.len() as int,
    ) + pending_tok_count(mb1, post.pending_filter, j, r) <= #[trigger] mb1.live@[j].count(
        r,
    ) by {
        lemma_board_count_congruent(mb1, mb0, post.layers@, pre.layers@, j, r, n0);
        let r_new = mb0.range_of(t);
        let j_new = t.buffer_index as int;
        assert(mb1.range_of(t) == r_new);
        if j < mb0.live@.len() {
            assert(board_tok_count(mb0, pre.layers@, j, r, n0) + pending_tok_count(
                mb0,
                pre.pending_filter,
                j,
                r,
            ) <= mb0.live@[j].count(r));
            if j == j_new {
                if r == r_new {
                    assert(mb1.live@[j].count(r) == mb0.live@[j].count(r) + 1);
                } else {
                    assert(mb1.live@[j].count(r) == mb0.live@[j].count(r));
                }
            } else {
                assert(mb1.live@[j] == mb0.live@[j]);
            }
        } else {
            // A freshly created slab: no old layer and no pending filter
            // allocation can name it.
            assert(j == j_new && j == mb0.live@.len());
            assert forall|i: int| 0 <= i < n0 implies (#[trigger] pre.layers@[i]).board_buf
                .buffer_index != j by {
                assert(layer_wf(pre.alloc, pre.layers@[i]));
            }
            lemma_board_count_absent(mb1, pre.layers@, j, r, n0);
            lemma_board_count_congruent(mb1, mb1, pre.layers@, post.layers@, j, r, n0);
            if r == r_new {
                assert(mb1.live@[j].count(r) == 1);
            } else {
                assert(mb1.live@[j].count(r) == 0);
            }
        }
    }
    // Evaluation token counts: untouched on both sides.
    assert forall|j: int, r: BrickRange| 0 <= j < post.alloc.evals.live@.len()
        implies eval_tok_count(
        post.alloc.evals,
        post.layers@,
        j,
        r,
        post.layers@.len() as int,
    ) <= #[trigger] post.alloc.evals.live@[j].count(r) by {
        lemma_eval_count_congruent(me, me, post.layers@, pre.layers@, j, r, n0);
    }
}

/// Layer `i`'s board allocation is counted at least once.
proof fn lemma_board_count_lower(m: BufferManager, ls: Seq<GpuTreeLayer>, i: int, n: int)
    requires
        0 <= i < n,
        n <= ls.len(),
    ensures
        board_tok_count(
            m,
            ls,
            ls[i].board_buf.buffer_index as int,
            m.range_of(ls[i].board_buf),
            n,
        ) >= 1,
    decreases n,
{
    let j = ls[i].board_buf.buffer_index as int;
    let r = m.range_of(ls[i].board_buf);
    lemma_counts_nonneg(m, ls, j, r, n - 1);
    if i < n - 1 {
        lemma_board_count_lower(m, ls, i, n - 1);
    }
}

/// Layer `i`'s evaluation allocation, where present, is counted at least
/// once.
proof fn lemma_eval_count_lower(m: BufferManager, ls: Seq<GpuTreeLayer>, i: int, n: int, t: AllocToken)
    requires
        0 <= i < n,
        n <= ls.len(),
        ls[i].eval_buf == Some(t),
    ensures
        eval_tok_count(m, ls, t.buffer_index as int, m.range_of(t), n) >= 1,
    decreases n,
{
    let j = t.buffer_index as int;
    let r = m.range_of(t);
    lemma_counts_nonneg(m, ls, j, r, n - 1);
    if i < n - 1 {
        lemma_eval_count_lower(m, ls, i, n - 1, t);
    }
}

/// Releasing one counted allocation keeps every remaining count covered
/// by the arena's live ranges.
proof fn lemma_counts_after_dealloc(
    m_pre: BufferManager,
    m_post: BufferManager,
    t: AllocToken,
    counts: spec_fn(int, BrickRange) -> int,
)
    requires
        m_pre.inv(),
        m_pre.token_live(t),
        m_post.brick_size == m_pre.brick_size,
        m_post.live@ == (if m_pre.buffers@[t.buffer_index as int].allocations == 1 {
            m_pre.live@.update(t.buffer_index as int, Multiset::<BrickRange>::empty())
        } else {
            m_pre.live@.update(
                t.buffer_index as int,
                m_pre.live@[t.buffer_index as int].remove(m_pre.range_of(t)),
            )
        }),
        forall|j: int, r: BrickRange|
            0 <= j < m_pre.live@.len() ==> #[trigger] counts(j, r) + (if j == t.buffer_index
                && r == m_pre.range_of(t) {
                1int
            } else {
                0int
            }) <= m_pre.live@[j].count(r),
        forall|j: int, r: BrickRange| #[trigger] counts(j, r) >= 0,
    ensures
        forall|j: int, r: BrickRange|
            0 <= j < m_post.live@.len() ==> #[trigger] counts(j, r) <= m_post.live@[j].count(r),
{
    broadcast use vstd::multiset::group_multiset_axioms;

    let tj = t.buffer_index as int;
    let r0 = m_pre.range_of(t);
    let lv = m_pre.live@[tj];
    assert forall|j: int, r: BrickRange| 0 <= j < m_post.live@.len() implies #[trigger] counts(
        j,
        r,
    ) <= m_post.live@[j].count(r) by {
        if j == tj {
            if m_pre.buffers@[tj].allocations == 1 {
                // The slab is emptied: it held exactly one live range, so
                // nothing else was counted in it.
                assert(BufferManager::slab_inv(
                    m_pre.buffers@[tj],
                    lv,
                    m_pre.max_bricks_per_buf as int,
                ));
                assert(lv.len() == 1);
                assert(lv.count(r0) >= 1);
                vstd::multiset::lemma_multiset_empty_len(lv.remove(r0));
                assert(vstd::multiset::Multiset::singleton(r0).subset_of(lv)) by {
                    assert forall|v: BrickRange|
                        vstd::multiset::Multiset::singleton(r0).count(v) <= lv.count(v) by {
                        if v != r0 {
                            assert(vstd::multiset::Multiset::singleton(r0).count(v) == 0);
                        }
                    }
                }
                assert(lv.remove(r0).len() == 0);
                assert(lv.remove(r0) =~= Multiset::<BrickRange>::empty());
                if r == r0 {
                    assert(counts(j, r0) + 1 <= lv.count(r0));
                    vstd::multiset::axiom_count_le_len(lv, r0);
                    assert(counts(j, r0) <= 0);
                } else {
                    assert(lv.remove(r0).count(r) == 0);
                    assert(lv.count(r) == 0);
                    assert(counts(j, r) <= 0);
                }
                assert(m_post.live@[j].count(r) == 0);
            } else {
                assert(m_post.live@[j] == lv.remove(r0));
                if r == r0 {
                    assert(lv.count(r0) >= counts(j, r0) + 1);
                    assert(m_post.live@[j].count(r0) == lv.count(r0) - 1);
                } else {
                    assert(m_post.live@[j].count(r) == lv.count(r));
                }
            }
        } else {
            assert(m_post.live@[j] == m_pre.live@[j]);
        }
    }
}

/// Holding a freshly made board allocation as the pending filter target
/// keeps the tree invariant.
proof fn lemma_inv_after_pending_alloc(pre: GpuTree, post: GpuTree, t: AllocToken, size: u32)
    requires
        pre.inv(),
        BufferManager::allocate_post(pre.alloc.boards, post.alloc.boards, t, size),
        post.alloc.boards.inv(),
        post.alloc.evals == pre.alloc.evals,
        post.alloc.boards_per_buf == pre.alloc.boards_per_buf,
        post.alloc.buffer_size == pre.alloc.buffer_size,
        post.layers@ == pre.layers@,
        pre.pending_filter is None,
        post.pending_filter == Some(t),
        pre.layers@.len() > 0,
        size == pre.layers@.last().num_boards,
    ensures
        post.inv(),
{
    let mb0 = pre.alloc.boards;
    let mb1 = post.alloc.boards;
    let n = pre.layers@.len() as int;
    assert(mb1.config() == mb0.config());
    assert(post.alloc.inv());
    assert forall|i: int| 0 <= i < post.layers@.len() implies layer_wf(
        post.alloc,
        #[trigger] post.layers@[i],
    ) by {
        assert(layer_wf(pre.alloc, pre.layers@[i]));
        assert(mb0.token_live(pre.layers@[i].board_buf));
    }
    let r_new = mb0.range_of(t);
    let j_new = t.buffer_index as int;
    assert forall|j: int, r: BrickRange| 0 <= j < mb1.live@.len() implies board_tok_count(
        mb1,
        post.layers@,
        j,
        r,
        n,
    ) + pending_tok_count(mb1, post.pending_filter, j, r) <= #[trigger] mb1.live@[j].count(
        r,
    ) by {
        lemma_board_count_congruent(mb1, mb0, post.layers@, pre.layers@, j, r, n);
        if j < mb0.live@.len() {
            if j == j_new && r == r_new {
                assert(mb1.live@[j].count(r) == mb0.live@[j].count(r) + 1);
            } else if j == j_new {
                assert(mb1.live@[j].count(r) == mb0.live@[j].count(r));
            } else {
                assert(mb1.live@[j] == mb0.live@[j]);
            }
        } else {
            assert(j == j_new && j == mb0.live@.len());
            assert forall|i: int| 0 <= i < n implies (#[trigger] pre.layers@[i]).board_buf
                .buffer_index != j by {
                assert(layer_wf(pre.alloc, pre.layers@[i]));
            }
            lemma_board_count_absent(mb1, pre.layers@, j, r, n);
            lemma_board_count_congruent(mb1, mb1, pre.layers@, post.layers@, j, r, n);
            if r == r_new {
                assert(mb1.live@[j].count(r) == 1);
            } else {
                assert(mb1.live@[j].count(r) == 0);
            }
        }
    }
    assert forall|j: int, r: BrickRange| 0 <= j < post.alloc.evals.live@.len()
        implies eval_tok_count(post.alloc.evals, post.layers@, j, r, n)
        <= #[trigger] post.alloc.evals.live@[j].count(r) by {
        lemma_eval_count_congruent(
            post.alloc.evals,
            pre.alloc.evals,
            post.layers@,
            pre.layers@,
            j,
            r,
            n,
        );
    }
}

/// Giving a layer a freshly made evaluation allocation keeps the tree
/// invariant.
proof fn lemma_inv_after_eval_alloc_set(
    pre: GpuTree,
    post: GpuTree,
    t: AllocToken,
    i: int,
    size: u32,
)
    requires
        pre.inv(),
        BufferManager::allocate_post(pre.alloc.evals, post.alloc.evals, t, size),
        post.alloc.evals.inv(),
        post.alloc.boards == pre.alloc.boards,
        post.alloc.boards_per_buf == pre.alloc.boards_per_buf,
        post.alloc.buffer_size == pre.alloc.buffer_size,
        0 <= i < pre.layers@.len(),
        pre.layers@[i].eval_buf is None,
        post.layers@ == pre.layers@.update(
            i,
            GpuTreeLayer { eval_buf: Some(t), ..pre.layers@[i] },
        ),
        size == pre.layers@[i].num_boards,
        post.pending_filter == pre.pending_filter,
    ensures
        post.inv(),
{
    let me0 = pre.alloc.evals;
    let me1 = post.alloc.evals;
    let n = pre.layers@.len() as int;
    assert(me1.config() == me0.config());
    assert(post.alloc.inv());
    let l2 = post.layers@[i];
    assert forall|i2: int| 0 <= i2 < post.layers@.len() implies layer_wf(
        post.alloc,
        #[trigger] post.layers@[i2],
    ) by {
        assert(layer_wf(pre.alloc, pre.layers@[i2]));
        if i2 != i {
            match pre.layers@[i2].eval_buf {
                Some(e) => {
                    assert(me0.token_live(e));
                },
                None => {},
            }
        }
    }
    assert forall|j: int, r: BrickRange| 0 <= j < post.alloc.boards.live@.len()
        implies board_tok_count(post.alloc.boards, post.layers@, j, r, n) + pending_tok_count(
        post.alloc.boards,
        post.pending_filter,
        j,
        r,
    ) <= #[trigger] post.alloc.boards.live@[j].count(r) by {
        lemma_board_count_congruent(
            post.alloc.boards,
            pre.alloc.boards,
            post.layers@,
            pre.layers@,
            j,
            r,
            n,
        );
    }
    let r_new = me0.range_of(t);
    let j_new = t.buffer_index as int;
    assert forall|j: int, r: BrickRange| 0 <= j < me1.live@.len() implies eval_tok_count(
        me1,
        post.layers@,
        j,
        r,
        n,
    ) <= #[trigger] me1.live@[j].count(r) by {
        lemma_eval_count_update(me0, pre.layers@, i, l2, j, r, n);
        lemma_eval_count_congruent(me1, me0, post.layers@, post.layers@, j, r, n);
        if j < me0.live@.len() {
            if j == j_new && r == r_new {
                assert(me1.live@[j].count(r) == me0.live@[j].count(r) + 1);
            } else if j == j_new {
                assert(me1.live@[j].count(r) == me0.live@[j].count(r));
            } else {
                assert(me1.live@[j] == me0.live@[j]);
            }
        } else {
            assert(j == j_new && j == me0.live@.len());
            assert forall|i2: int| 0 <= i2 < n implies match (#[trigger] pre.layers@[i2]).eval_buf {
                Some(e) => e.buffer_index != j,
                None => true,
            } by {
                assert(layer_wf(pre.alloc, pre.layers@[i2]));
                match pre.layers@[i2].eval_buf {
                    Some(e) => {
                        assert(me0.token_live(e));
                    },
                    None => {},
                }
            }
            lemma_eval_count_absent(me0, pre.layers@, j, r, n);
            lemma_eval_count_update(me0, pre.layers@, i, l2, j, r, n);
            if r == r_new {
                assert(me1.live@[j].count(r) == 1);
            } else {
                assert(me1.live@[j].count(r) == 0);
            }
        }
    }
    match post.pending_filter {
        Some(p) => {
            assert(pre.alloc.boards.token_live(p));
            assert(post.layers@.last().num_boards == pre.layers@.last().num_boards);
        },
        None => {},
    }
}

/// The multiset of board-allocation ranges in slab `j` among the layers
/// from index `from` on.
pub open spec fn board_ranges_from(
    m: BufferManager,
    layers: Seq<GpuTreeLayer>,
    j: int,
    from: int,
) -> Multiset<BrickRange>
    decreases layers.len() - from,
{
    if from < 0 || from >= layers.len() {
        Multiset::empty()
    } else {
        let rest = board_ranges_from(m, layers, j, from + 1);
        if layers[from].board_buf.buffer_index == j {
            rest.insert(m.range_of(layers[from].board_buf))
        } else {
            rest
        }
    }
}

/// The multiset of evaluation-allocation ranges in slab `j` among the
/// layers from index `from` on.
pub open spec fn eval_ranges_from(
    m: BufferManager,
    layers: Seq<GpuTreeLayer>,
    j: int,
    from: int,
) -> Multiset<BrickRange>
    decreases layers.len() - from,
{
    if from < 0 || from >= layers.len() {
        Multiset::empty()
    } else {
        let rest = eval_ranges_from(m, layers, j, from + 1);
        match layers[from].eval_buf {
            Some(t) => if t.buffer_index == j {
                rest.insert(m.range_of(t))
            } else {
                rest
            },
            None => rest,
        }
    }
}

/// The pending filter allocation's range in slab `j`, if any.
pub open spec fn pending_ranges(
    m: BufferManager,
    pending: Option<AllocToken>,
    j: int,
) -> Multiset<BrickRange> {
    match pending {
        Some(t) => if t.buffer_index == j {
            Multiset::empty().insert(m.range_of(t))
        } else {
            Multiset::empty()
        },
        None => Multiset::empty(),
    }
}

/// What teardown leaves of one arena: each slab's live multiset shrinks
/// by exactly the released ranges, its live count by their number, its
/// cursor returns to zero when the slab empties, and its view counter is
/// untouched.
pub open spec fn slab_released(
    pre_slab: SlabState,
    pre_live: Multiset<BrickRange>,
    post_slab: SlabState,
    post_live: Multiset<BrickRange>,
    freed: Multiset<BrickRange>,
) -> bool {
    &&& pre_live == post_live.add(freed)
    &&& pre_slab.allocations == post_slab.allocations + freed.len()
    &&& post_slab.active_views == pre_slab.active_views
    &&& post_slab.allocated_bricks == (if post_slab.allocations == 0 {
        0u32
    } else {
        pre_slab.allocated_bricks
    })
}

/// Past the last layer there is nothing left to release.
proof fn lemma_ranges_empty_suffix(m: BufferManager, layers: Seq<GpuTreeLayer>, from: int)
    requires
        from >= layers.len(),
    ensures
        forall|j: int|
            board_ranges_from(m, layers, j, from) == Multiset::<BrickRange>::empty(),
        forall|j: int| eval_ranges_from(m, layers, j, from) == Multiset::<BrickRange>::empty(),
{
}

/// An arena from which nothing has been released yet satisfies the
/// release accounting with an empty freed multiset.
proof fn lemma_released_refl(m: BufferManager, orig: GpuTree, n: int)
    requires
        m == orig.alloc.boards,
        orig.inv(),
        n == orig.layers@.len(),
        orig.pending_filter is None,
    ensures
        forall|j: int|
            0 <= j < m.buffers@.len() ==> slab_released(
                #[trigger] m.buffers@[j],
                m.live@[j],
                m.buffers@[j],
                m.live@[j],
                board_ranges_from(m, orig.layers@, j, n).add(
                    pending_ranges(m, orig.pending_filter, j),
                ),
            ),
{
    broadcast use vstd::multiset::group_multiset_axioms;

    lemma_ranges_empty_suffix(m, orig.layers@, n);
    assert forall|j: int| 0 <= j < m.buffers@.len() implies slab_released(
        #[trigger] m.buffers@[j],
        m.live@[j],
        m.buffers@[j],
        m.live@[j],
        board_ranges_from(m, orig.layers@, j, n).add(pending_ranges(m, orig.pending_filter, j)),
    ) by {
        let freed = board_ranges_from(m, orig.layers@, j, n).add(
            pending_ranges(m, orig.pending_filter, j),
        );
        assert(freed =~= Multiset::<BrickRange>::empty());
        assert(m.live@[j].add(freed) =~= m.live@[j]);
        assert(BufferManager::slab_inv(m.buffers@[j], m.live@[j], m.max_bricks_per_buf as int));
    }
}

/// Releasing one live range and accounting it as freed leaves the total
/// unchanged.
proof fn lemma_live_exchange(cur: Multiset<BrickRange>, freed: Multiset<BrickRange>, r: BrickRange)
    requires
        cur.count(r) >= 1,
    ensures
        cur.remove(r).add(freed.insert(r)) == cur.add(freed),
{
    broadcast use vstd::multiset::group_multiset_axioms;

    assert(cur.remove(r).add(freed.insert(r)) =~= cur.add(freed));
}

/// A release always takes the slab's live multiset to the removal of the
/// released range — also when the slab is emptied, since the range was
/// then its whole content.
proof fn lemma_dealloc_live_uniform(m_pre: BufferManager, m_post: BufferManager, t: AllocToken)
    requires
        m_pre.inv(),
        m_pre.token_live(t),
        m_post.live@ == (if m_pre.buffers@[t.buffer_index as int].allocations == 1 {
            m_pre.live@.update(t.buffer_index as int, Multiset::<BrickRange>::empty())
        } else {
            m_pre.live@.update(
                t.buffer_index as int,
                m_pre.live@[t.buffer_index as int].remove(m_pre.range_of(t)),
            )
        }),
    ensures
        m_post.live@ == m_pre.live@.update(
            t.buffer_index as int,
            m_pre.live@[t.buffer_index as int].remove(m_pre.range_of(t)),
        ),
{
    broadcast use vstd::multiset::group_multiset_axioms;

    let j = t.buffer_index as int;
    let r = m_pre.range_of(t);
    let lv = m_pre.live@[j];
    if m_pre.buffers@[j].allocations == 1 {
        assert(BufferManager::slab_inv(m_pre.buffers@[j], lv, m_pre.max_bricks_per_buf as int));
        assert(lv.len() == 1);
        assert(Multiset::singleton(r).subset_of(lv)) by {
            assert forall|v: BrickRange| Multiset::singleton(r).count(v) <= lv.count(v) by {
                if v != r {
                    assert(Multiset::singleton(r).count(v) == 0);
                }
            }
        }
        assert(lv.remove(r).len() == 0);
        vstd::multiset::lemma_multiset_empty_len(lv.remove(r));
        assert(lv.remove(r) =~= Multiset::<BrickRange>::empty());
        assert(m_pre.live@.update(j, Multiset::<BrickRange>::empty()) =~= m_pre.live@.update(
            j,
            lv.remove(r),
        ));
    }
}

/// Token counts are never negative.
proof fn lemma_counts_nonneg(
    m: BufferManager,
    ls: Seq<GpuTreeLayer>,
    j: int,
    r: BrickRange,
    n: int,
)
    ensures
        board_tok_count(m, ls, j, r, n) >= 0,
        eval_tok_count(m, ls, j, r, n) >= 0,
    decreases n,
{
    if n > 0 {
        lemma_counts_nonneg(m, ls, j, r, n - 1);
    }
}

} // verus!
