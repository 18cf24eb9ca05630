//! The arena's offset bookkeeping.

use topo::arena::ArenaOffsets;

#[test]
fn create_and_drop() {
    let _arena = ArenaOffsets::new(1024);
}

#[test]
fn alloc_returns_aligned_pointer() {
    let mut arena = ArenaOffsets::new(1024);
    arena.reserve(1, 1).unwrap();
    let off = arena.reserve(8, std::mem::align_of::<u64>()).unwrap();
    assert_eq!(off % std::mem::align_of::<u64>(), 0, "offset must be aligned to u64");
    assert_eq!(off, 8);
}

#[test]
fn bytes_used_increases() {
    let mut arena = ArenaOffsets::new(1024);
    arena.reserve(4, 4).unwrap();
    arena.reserve(4, 4).unwrap();
    assert!(arena.bytes_used() > 0, "bytes_used must increase after allocations");
    assert_eq!(arena.bytes_used(), 8);
}

#[test]
fn reset_reclaims() {
    let mut arena = ArenaOffsets::new(1024);
    arena.reserve(4, 4).unwrap();
    assert!(arena.bytes_used() > 0);
    arena.reset();
    assert_eq!(arena.bytes_used(), 0, "bytes_used must be 0 after reset");
}

#[test]
fn capacity_matches() {
    let arena = ArenaOffsets::new(4096);
    assert_eq!(arena.capacity(), 4096);
}

#[test]
fn arena_is_send() {
    fn assert_send<T: Send>() {}
    assert_send::<ArenaOffsets>();
}

#[test]
fn full_arena_refuses_and_keeps_its_offset() {
    let mut arena = ArenaOffsets::new(10);
    assert_eq!(arena.reserve(6, 2), Some(0));
    assert_eq!(arena.reserve(6, 2), None);
    assert_eq!(arena.bytes_used(), 6);
    assert_eq!(arena.reserve(4, 2), Some(6));
    assert_eq!(arena.bytes_used(), 10);
}
