use apophthegm::buffers::BufferManager;

// The evaluation arena's shape: 4-byte elements, 8-byte mapping
// alignment (so 8-byte bricks of two elements each), 512 elements per
// slab.
fn eval_manager() -> BufferManager {
    BufferManager::create(4, 8, 512)
}

#[test]
fn test() {
    let mut mngr = eval_manager();
    let alloc_a = mngr.allocate(1);
    let alloc_b = mngr.allocate(1);
    println!("Alloc A {} .. {}", alloc_a.start(), alloc_a.end());
    println!("Alloc B {} .. {}", alloc_b.start(), alloc_b.end());
    assert!(alloc_a.start() < alloc_a.end());
    assert!(alloc_b.start() < alloc_b.end());
    assert!(alloc_a.end() <= alloc_b.start() || alloc_b.end() <= alloc_a.start());
    mngr.dealloc(alloc_b);
    let alloc_b = mngr.allocate(1);
    println!("Alloc B2 {} .. {}", alloc_b.start(), alloc_b.end());
    assert!(alloc_a.end() <= alloc_b.start() || alloc_b.end() <= alloc_a.start());

    // Not part of the contract for the manager, but a sanity check to see if buffers are being cleared
    let prev_a_start = alloc_a.start();
    let prev_a_end = alloc_a.end();
    mngr.dealloc(alloc_a);
    mngr.dealloc(alloc_b);
    let alloc_a = mngr.allocate(1);
    println!("Alloc A2 {} .. {}", alloc_a.start(), alloc_a.end());
    assert_eq!(alloc_a.start(), prev_a_start);
    assert_eq!(alloc_a.end(), prev_a_end);
}

#[test]
fn test_big() {
    let mut mngr = eval_manager();
    let alloc_a = mngr.allocate(300);
    let alloc_b = mngr.allocate(300);
    // Both of these should be in a new buffer (they don't fit into a single one)
    assert_eq!(alloc_a.start(), 0);
    assert_eq!(alloc_b.start(), 0);
    assert_ne!(alloc_a.buffer_index, alloc_b.buffer_index);
}

#[test]
fn oversized_request_is_rejected() {
    let mut mngr = eval_manager();
    assert!(mngr.try_allocate(513).is_none());
    assert!(mngr.try_allocate(512).is_some());
    // The rejected request changed nothing: the accepted one starts at 0.
    assert_eq!(mngr.try_allocate(2).unwrap().buffer_index, 1);
}

#[test]
fn offsets_are_brick_aligned() {
    let mut mngr = eval_manager();
    let a = mngr.allocate(1);
    let b = mngr.allocate(3);
    let c = mngr.allocate(2);
    // One-element requests still take a whole 8-byte brick.
    assert_eq!(a.start(), 0);
    assert_eq!(a.byte_len(), 8);
    assert_eq!(a.len(), 2);
    assert_eq!(b.start(), 8);
    assert_eq!(b.byte_len(), 16);
    assert_eq!(c.start(), 24);
    assert_eq!(c.start() % 8, 0);
}

#[test]
fn partial_dealloc_keeps_cursor() {
    let mut mngr = eval_manager();
    let a = mngr.allocate(2);
    let b = mngr.allocate(2);
    mngr.dealloc(b);
    // The slab still holds `a`, so nothing is reclaimed yet.
    let c = mngr.allocate(2);
    assert_eq!(c.start(), 16);
    let _ = a;
}

#[test]
fn full_generation_replays_offsets() {
    let mut mngr = eval_manager();
    let sizes = [7u32, 130, 2, 64, 300, 9];
    let first: Vec<_> = sizes.iter().map(|s| mngr.allocate(*s)).collect();
    let first_places: Vec<_> = first
        .iter()
        .map(|t| (t.buffer_index, t.start()))
        .collect();
    for t in first {
        mngr.dealloc(t);
    }
    let second: Vec<_> = sizes.iter().map(|s| mngr.allocate(*s)).collect();
    let second_places: Vec<_> = second
        .iter()
        .map(|t| (t.buffer_index, t.start()))
        .collect();
    assert_eq!(first_places, second_places);
}

#[test]
fn view_refcount_unmaps_on_last_release() {
    let mut mngr = eval_manager();
    let a = mngr.allocate(4);
    let v1 = mngr.begin_view(a, 0, 4).unwrap();
    let v2 = mngr.begin_view(a, 0, 2).unwrap();
    assert_eq!(v1.buffer_index, a.buffer_index);
    assert_eq!(v1.map_offset, a.start());
    assert_eq!(v1.map_bytes, 16);
    assert_eq!(v2.map_bytes, 8);
    assert!(!mngr.end_view(v1.buffer_index));
    assert!(mngr.end_view(v2.buffer_index));
}

#[test]
fn empty_view_needs_no_copy() {
    let mut mngr = eval_manager();
    let a = mngr.allocate(4);
    assert!(mngr.begin_view(a, 1, 1).is_none());
}
