use apophthegm::board::{convert, GpuBoard};
use apophthegm::chess::{EvalScore, MAX_MOVES};
use apophthegm::gpu::GpuAllocations;
use apophthegm::gpu_tree::{reduce_evals, GpuTree};
use apophthegm::piece::Side;
use apophthegm::state::GameState;

fn small_allocations() -> GpuAllocations {
    // Slabs of 512 boards, with the usual 8-byte mapping alignment.
    GpuAllocations::with_boards_per_buf(512, 8)
}

fn startpos() -> GameState {
    GameState::from_fen("rnbqkbnr/pppppppp/8/8/8/8/PPPPPPPP/RNBQKBNR w KQkq - 0 1")
}

#[test]
fn init_layer_uploads_the_position() {
    let mut tree = GpuTree::new(small_allocations());
    let plan = tree.init_layer_from_state(&startpos());
    assert_eq!(plan.bytes.len(), 36);
    assert_eq!(plan.offset, 0);
    let board: GpuBoard = convert(&startpos().get_board());
    let encoded = apophthegm::codec::encode_boards(&vec![board]);
    assert_eq!(plan.bytes, encoded);
    assert_eq!(tree.last_layer().size(), 1);
    assert_eq!(tree.last_layer().depth(), 0);
    tree.finish();
}

#[test]
fn expand_plans_one_workgroup_per_64_boards() {
    let mut tree = GpuTree::new(small_allocations());
    tree.init_layer_from_state(&startpos());
    let plan = tree.expand_last_layer();
    assert_eq!(plan.workgroups, 1);
    assert_eq!(plan.params.len(), 28);
    // Input count 1, White to move (flag 8), move number 0.
    assert_eq!(&plan.params[0..4], &[1, 0, 0, 0]);
    assert_eq!(&plan.params[4..8], &[8, 0, 0, 0]);
    assert_eq!(&plan.params[8..12], &[0, 0, 0, 0]);
    tree.finish_expand(20);
    assert_eq!(tree.last_layer().size(), 20);
    assert_eq!(tree.last_layer().depth(), 1);
    tree.finish();
}

#[test]
fn expanded_child_count_is_bounded() {
    // The over-provisioned child allocation can hold the worst case.
    let mut tree = GpuTree::new(small_allocations());
    let mut boards: Vec<GpuBoard> = Vec::new();
    boards.push(convert(&startpos().get_board()));
    boards.push(convert(&startpos().get_board()));
    tree.init_layer(&boards, Side::White);
    let _ = tree.expand_last_layer();
    assert!(2 * MAX_MOVES <= 512);
    tree.finish_expand(2 * MAX_MOVES);
    assert_eq!(tree.last_layer().size(), 2 * MAX_MOVES);
    tree.finish();
}

#[test]
fn contract_all_reaches_the_root() {
    let mut tree = GpuTree::new(small_allocations());
    tree.init_layer_from_state(&startpos());
    tree.expand_last_layer();
    tree.finish_expand(20);
    tree.expand_last_layer();
    tree.finish_expand(40);
    let plans = tree.contract_all();
    // One leaf contraction and one inner contraction.
    assert_eq!(plans.len(), 2);
    assert!(plans[0].child_eval_slab.is_none());
    assert!(plans[1].child_eval_slab.is_some());
    // The root held one board, so its evaluation view maps exactly one
    // word.
    let v = tree.view_evals(0);
    assert_eq!(v.map_bytes, 4);
    tree.end_eval_view(v.buffer_index);
    tree.finish();
}

#[test]
fn contract_prefill_follows_the_side() {
    // Black to move at the parent: fill-to-worst; White: clear.
    let mut tree = GpuTree::new(small_allocations());
    tree.init_layer_from_state(&startpos());
    tree.expand_last_layer();
    tree.finish_expand(20);
    let plan = tree.contract_eval(1);
    // The parent has White to move, so the buffer is cleared to zero.
    assert!(plan.fill.is_none());
    let clear = plan.clear.unwrap();
    assert_eq!(clear.bytes, 8); // one eval rounded up to a whole brick
    tree.finish();

    let mut black = GameState::from_fen("rnbqkbnr/pppppppp/8/8/8/8/PPPPPPPP/RNBQKBNR b KQkq - 0 1");
    black.to_move = Side::Black;
    let mut tree2 = GpuTree::new(small_allocations());
    tree2.init_layer_from_state(&black);
    tree2.expand_last_layer();
    tree2.finish_expand(20);
    let plan2 = tree2.contract_eval(1);
    assert!(plan2.clear.is_none());
    let fill = plan2.fill.unwrap();
    assert_eq!(fill.workgroups, 1);
    tree2.finish();
}

#[test]
fn filter_swaps_the_board_allocation() {
    let mut tree = GpuTree::new(small_allocations());
    tree.init_layer_from_state(&startpos());
    tree.expand_last_layer();
    tree.finish_expand(20);
    let before = tree.layers[1].board_buf;
    let plan = tree.filter_last_layer(EvalScore::from(0));
    assert_eq!(plan.input_slab, before.buffer_index);
    assert_eq!(plan.threshold, EvalScore::from(0).device_word());
    tree.finish_filter(5);
    assert_eq!(tree.last_layer().size(), 5);
    assert_ne!(tree.layers[1].board_buf.offset, before.offset);
    tree.finish();
}

#[test]
fn views_cover_the_live_range() {
    let mut tree = GpuTree::new(small_allocations());
    tree.init_layer_from_state(&startpos());
    tree.expand_last_layer();
    tree.finish_expand(20);
    let v = tree.view_boards_last();
    assert_eq!(v.map_bytes, 20 * 36);
    assert!(tree.end_board_view(v.buffer_index));
    tree.finish();
}

#[test]
fn finish_releases_every_allocation() {
    let mut tree = GpuTree::new(small_allocations());
    tree.init_layer_from_state(&startpos());
    tree.expand_last_layer();
    tree.finish_expand(20);
    tree.contract_all();
    let alloc = tree.finish();
    // Every slab of both arenas is empty again, cursor included.
    for slab in &alloc.boards.buffers {
        assert_eq!(slab.allocations, 0);
        assert_eq!(slab.allocated_bricks, 0);
    }
    for slab in &alloc.evals.buffers {
        assert_eq!(slab.allocations, 0);
        assert_eq!(slab.allocated_bricks, 0);
    }
}

#[test]
fn arenas_are_reusable_after_finish() {
    let mut tree = GpuTree::new(small_allocations());
    let first = tree.init_layer_from_state(&startpos());
    let alloc = tree.finish();
    let mut tree2 = GpuTree::new(alloc);
    let second = tree2.init_layer_from_state(&startpos());
    // The first tree released everything, so the second starts at the
    // same offset.
    assert_eq!(first.slab, second.slab);
    assert_eq!(first.offset, second.offset);
    tree2.finish();
}

#[test]
fn fits_checks_the_slab_capacity() {
    let alloc = small_allocations();
    assert!(alloc.fits(512));
    assert!(!alloc.fits(513));
    assert!(alloc.fits(0));
}

#[test]
fn reduce_evals_picks_the_best_for_each_side() {
    let evals = vec![EvalScore::from(0), EvalScore::from(50)];
    assert_eq!(reduce_evals(&evals, Side::White), EvalScore::from(50));
    assert_eq!(reduce_evals(&evals, Side::Black), EvalScore::from(0));
    let single = vec![EvalScore::from(-3)];
    assert_eq!(reduce_evals(&single, Side::White), EvalScore::from(-3));
}
