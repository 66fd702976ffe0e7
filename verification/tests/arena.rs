use aptos_transform::arena::Arena;

#[test]
fn registrations_grow_the_registry_one_by_one() {
    let mut arena = Arena::new();
    assert_eq!(arena.block_count(), 0);
    for k in 0..5usize {
        arena.register(0x1000 + k, 64);
        assert_eq!(arena.block_count(), k + 1);
    }
}

#[test]
fn deallocate_removes_exactly_the_matching_block() {
    let mut arena = Arena::new();
    arena.register(1, 16);
    arena.register(2, 32);
    arena.register(3, 48);
    assert!(arena.deallocate(2, 32));
    assert_eq!(arena.block_count(), 2);
    assert!(arena.is_registered(1, 16));
    assert!(!arena.is_registered(2, 32));
    assert!(arena.is_registered(3, 48));
}

#[test]
fn unknown_handle_is_tolerated() {
    let mut arena = Arena::new();
    arena.register(1, 16);
    assert!(!arena.deallocate(9, 16));
    assert!(!arena.deallocate(1, 17));
    assert_eq!(arena.block_count(), 1);
}

#[test]
fn deallocate_removes_only_the_first_duplicate() {
    let mut arena = Arena::new();
    arena.register(7, 8);
    arena.register(7, 8);
    assert!(arena.deallocate(7, 8));
    assert_eq!(arena.block_count(), 1);
    assert!(arena.is_registered(7, 8));
}

#[test]
fn sweep_frees_everything_once() {
    let mut arena = Arena::new();
    arena.register(10, 100);
    arena.register(20, 200);
    let freed = arena.deallocate_all();
    assert_eq!(freed.len(), 2);
    assert_eq!(freed[0].handle, 10);
    assert_eq!(freed[0].size, 100);
    assert_eq!(freed[1].handle, 20);
    assert_eq!(freed[1].size, 200);
    assert_eq!(arena.block_count(), 0);
}

#[test]
fn sweeping_twice_is_the_same_as_sweeping_once() {
    let mut arena = Arena::new();
    arena.register(10, 100);
    let first = arena.deallocate_all();
    assert_eq!(first.len(), 1);
    assert_eq!(arena.block_count(), 0);
    let second = arena.deallocate_all();
    assert_eq!(second.len(), 0);
    assert_eq!(arena.block_count(), 0);
}

#[test]
fn sweep_on_an_empty_registry_is_safe() {
    let mut arena = Arena::new();
    let freed = arena.deallocate_all();
    assert_eq!(freed.len(), 0);
    assert_eq!(arena.block_count(), 0);
}

#[test]
fn interleaved_calls_leave_exactly_the_live_blocks() {
    let mut arena = Arena::new();
    arena.register(1, 10);
    arena.register(2, 20);
    assert!(arena.deallocate(1, 10));
    arena.register(3, 30);
    assert!(arena.deallocate(2, 20));
    assert_eq!(arena.block_count(), 1);
    assert!(arena.is_registered(3, 30));
    assert!(!arena.is_registered(1, 10));
    assert!(!arena.is_registered(2, 20));
}
