use free_list_allocator::arith::align_up;
use free_list_allocator::mem_allocator::create_allocator;
use free_list_allocator::mem_allocator::HEAP_SIZE;

#[test]
fn init_single_free_block() {
    let mut a = create_allocator();
    a.init();
    let blocks = a.free_blocks();
    assert_eq!(blocks, vec![(0, HEAP_SIZE - 16)]);
}

#[test]
fn create_allocator_null_state() {
    let a = create_allocator();
    assert_eq!(a.capacity(), 0);
    assert_eq!(a.free_blocks(), vec![]);
}

#[test]
fn reinit_resets_state() {
    let mut a = create_allocator();
    a.init();
    let _ = a.allocate(100, 8).unwrap();
    a.init();
    assert_eq!(a.free_blocks(), vec![(0, HEAP_SIZE - 16)]);
}

#[test]
fn alloc_returns_aligned_pointer_in_bounds() {
    for align in [1usize, 2, 4, 8, 16, 64, 1024, 4096] {
        let mut a = create_allocator();
        a.init();
        let p = a.allocate(100, align).unwrap();
        assert_eq!(p % align, 0);
        assert!(p + 100 <= a.capacity());
    }
}

#[test]
fn alloc_free_alloc_again_succeeds() {
    let mut a = create_allocator();
    a.init();
    let p = a.allocate(100, 8).unwrap();
    a.dealloc(Some(p));
    // same size, same alignment
    let q = a.allocate(100, 8).unwrap();
    a.dealloc(Some(q));
    // smaller size, finer alignment
    let r = a.allocate(64, 4).unwrap();
    assert_eq!(r % 4, 0);
}

#[test]
fn dealloc_null_is_noop() {
    let mut a = create_allocator();
    a.init();
    a.dealloc(None);
    assert_eq!(a.free_blocks(), vec![(0, HEAP_SIZE - 16)]);
}

#[test]
fn coalesce_two_adjacent_blocks() {
    let mut a = create_allocator();
    a.init();
    let pa = a.allocate(40, 8).unwrap();
    let pb = a.allocate(40, 8).unwrap();
    let _pc = a.allocate(40, 8).unwrap();
    assert_eq!(pa, 24);
    assert_eq!(pb, 88);
    a.dealloc(Some(pa));
    assert_eq!(a.free_blocks(), vec![(0, 48), (192, HEAP_SIZE - 192 - 16)]);
    a.dealloc(Some(pb));
    // one node spanning both freed blocks
    assert_eq!(a.free_blocks(), vec![(0, 112), (192, HEAP_SIZE - 192 - 16)]);
    // a request that fits only the merged node, not either half alone
    let pd = a.allocate(104, 8).unwrap();
    assert_eq!(pd, 24);
}

#[test]
fn free_merges_both_neighbours_in_one_call() {
    let mut a = create_allocator();
    a.init();
    let pa = a.allocate(40, 8).unwrap();
    let pb = a.allocate(40, 8).unwrap();
    let pc = a.allocate(40, 8).unwrap();
    let _pd = a.allocate(40, 8).unwrap();
    a.dealloc(Some(pa));
    a.dealloc(Some(pc));
    assert_eq!(
        a.free_blocks(),
        vec![(0, 48), (128, 48), (256, HEAP_SIZE - 256 - 16)]
    );
    // freeing the middle block absorbs forward and backward at once
    a.dealloc(Some(pb));
    assert_eq!(a.free_blocks(), vec![(0, 176), (256, HEAP_SIZE - 256 - 16)]);
}

#[test]
fn stress_alloc_free_restores_state() {
    let mut a = create_allocator();
    a.init();
    for _ in 0..100 {
        let p = a.allocate(8, 8).unwrap();
        a.dealloc(Some(p));
        assert_eq!(a.free_blocks(), vec![(0, HEAP_SIZE - 16)]);
    }
}

#[test]
fn oversized_request_returns_none_and_leaves_list() {
    let mut a = create_allocator();
    a.init();
    assert_eq!(a.allocate(HEAP_SIZE, 1), None);
    assert_eq!(a.allocate(HEAP_SIZE - 23, 1), None);
    assert_eq!(a.free_blocks(), vec![(0, HEAP_SIZE - 16)]);
    // the largest request that still fits takes the block whole
    let p = a.allocate(HEAP_SIZE - 24, 1).unwrap();
    assert_eq!(p, 24);
    assert_eq!(a.free_blocks(), vec![]);
}

#[test]
fn million_byte_arena_scenario() {
    let mut a = create_allocator();
    a.init();
    assert_eq!(a.capacity(), 1_048_576);
    let p = a.allocate(4, 4).unwrap();
    assert_eq!(p % 4, 0);
    assert!(p + 4 <= a.capacity());
    a.write_byte(p, 0, 0xAB);
    assert_eq!(a.read_byte(p, 0), 0xAB);
}

#[test]
fn payloads_do_not_overlap() {
    let mut a = create_allocator();
    a.init();
    let p1 = a.allocate(16, 8).unwrap();
    let p2 = a.allocate(16, 8).unwrap();
    for off in 0..16 {
        a.write_byte(p1, off, 0x11);
    }
    for off in 0..16 {
        a.write_byte(p2, off, 0x22);
    }
    for off in 0..16 {
        assert_eq!(a.read_byte(p1, off), 0x11);
        assert_eq!(a.read_byte(p2, off), 0x22);
    }
}

#[test]
fn exhaust_then_free_all_in_address_order() {
    let mut a = create_allocator();
    a.init();
    let mut ptrs = Vec::new();
    loop {
        match a.allocate(8, 8) {
            Some(p) => ptrs.push(p),
            None => break,
        }
    }
    assert_eq!(ptrs.len(), HEAP_SIZE / 32);
    for w in ptrs.windows(2) {
        assert!(w[0] < w[1]);
    }
    for p in ptrs {
        a.dealloc(Some(p));
    }
    assert_eq!(a.free_blocks(), vec![(0, HEAP_SIZE - 16)]);
}

#[test]
fn zero_size_request_succeeds() {
    let mut a = create_allocator();
    a.init();
    let p = a.allocate(0, 1).unwrap();
    a.dealloc(Some(p));
    assert_eq!(a.free_blocks(), vec![(0, HEAP_SIZE - 16)]);
}

#[test]
fn align_up_exact_values() {
    assert_eq!(align_up(0, 1), 0);
    assert_eq!(align_up(24, 8), 24);
    assert_eq!(align_up(25, 8), 32);
    assert_eq!(align_up(17, 16), 32);
    assert_eq!(align_up(1, 4096), 4096);
}
