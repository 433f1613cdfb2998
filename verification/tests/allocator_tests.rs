use nexec_lgc::allocator::{init, BumpAllocator, HEAP_SIZE, HEAP_START};

#[test]
fn blocks_are_aligned_and_disjoint() {
    init();
    let mut h = BumpAllocator::new();
    let a = h.allocate(3, 1).unwrap();
    assert_eq!(a, HEAP_START);
    let b = h.allocate(8, 8).unwrap();
    assert_eq!(b, HEAP_START + 8);
    let c = h.allocate(1, 4096).unwrap();
    assert_eq!(c, HEAP_START + 4096);
    h.dealloc(b, 8);
    let d = h.allocate(1, 1).unwrap();
    assert_eq!(d, HEAP_START + 4097);
}

#[test]
fn too_large_block_is_refused() {
    let mut h = BumpAllocator::new();
    assert_eq!(h.allocate(HEAP_SIZE + 1, 1), None);
    assert_eq!(h.allocate(HEAP_SIZE, 1), Some(HEAP_START));
    assert_eq!(h.allocate(1, 1), None);
    assert_eq!(h.allocate(usize::MAX, 16), None);
}

#[test]
fn power_of_two_alignment_is_the_mask_formula() {
    let mut a = BumpAllocator::new();
    assert_eq!(a.allocate(3, 1), Some(HEAP_START + 0));
    let next = HEAP_START + 3;
    for align in [1usize, 2, 4, 16, 4096] {
        let mut b = BumpAllocator::new();
        b.allocate(3, 1);
        let expected = (next + align - 1) & !(align - 1);
        assert_eq!(b.allocate(8, align), Some(expected));
        assert_eq!(expected % align, 0);
    }
}
