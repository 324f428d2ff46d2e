use limousine_core::{IDAllocator, ID};

#[test]
fn id_initial() {
    assert_eq!(u8::initial(), 0);
    assert_eq!(u32::initial(), 0);
    assert_eq!(u64::initial(), 0);
}

#[test]
fn id_increment() {
    let id: u32 = 5;
    assert_eq!(id.increment(), 6);
}

#[test]
fn allocate_ids() {
    let mut allocator = IDAllocator::<u8>::new();
    let id1 = allocator.allocate();
    let id2 = allocator.allocate();
    assert_eq!(id1, u8::initial()); // should be 0
    assert_eq!(id2, 1); // should be 1
}

#[test]
fn free_and_reuse_id() {
    let mut allocator = IDAllocator::<u8>::new();
    let id1 = allocator.allocate();
    assert!(allocator.free(id1)); // should succeed
    let id2 = allocator.allocate(); // should reuse freed id
    assert_eq!(id1, id2);
}

#[test]
fn free_invalid_id() {
    let mut allocator = IDAllocator::<u8>::new();
    assert!(!allocator.free(100)); // should fail, id was never allocated
}

#[test]
fn is_allocated() {
    let mut allocator = IDAllocator::<u8>::new();
    let id = allocator.allocate();
    assert!(allocator.is_allocated(id)); // should be true
    assert!(!allocator.is_allocated(100)); // should be false, id was never allocated
}

#[test]
fn multiple_allocations() {
    let mut allocator = IDAllocator::<u32>::new();
    let mut ids = Vec::new();

    // Allocate multiple IDs and ensure they are distinct
    for _ in 0..10 {
        let id = allocator.allocate();
        assert!(!ids.contains(&id)); // Ensure no duplicate IDs
        ids.push(id);
    }
}

#[test]
fn allocation_after_free() {
    let mut allocator = IDAllocator::<u16>::new();
    let mut first_batch = (0..5).map(|_| allocator.allocate()).collect::<Vec<_>>();

    // Free some IDs
    for &id in &first_batch[1..3] {
        assert!(allocator.free(id));
    }

    // Allocate new IDs and check if freed IDs are reused
    let mut second_batch = (0..2).map(|_| allocator.allocate()).collect::<Vec<_>>();
    assert_eq!(first_batch[1..3].sort(), second_batch[..].sort());
}

#[test]
fn freeing_unallocated_id() {
    let mut allocator = IDAllocator::<u8>::new();
    assert!(
        !allocator.free(10),
        "Freeing an unallocated ID should return false"
    );
}

#[test]
fn allocation_fills_gaps_first() {
    let mut allocator = IDAllocator::<u32>::new();
    let id1 = allocator.allocate();
    let id2 = allocator.allocate();
    let id3 = allocator.allocate();

    // Free the second id to create a gap
    allocator.free(id2);

    // Next allocation should fill the gap
    let id4 = allocator.allocate();
    assert_eq!(
        id2, id4,
        "The allocator should reuse freed IDs before allocating new ones"
    );

    // Further allocation should not reuse other IDs
    let id5 = allocator.allocate();
    assert_ne!(id1, id5);
    assert_ne!(id3, id5);
}

#[test]
fn continuous_allocation() {
    let mut allocator = IDAllocator::<u64>::new();

    // Continuously allocate and free
    for i in 0..100 {
        let id = allocator.allocate();
        assert_eq!(
            id.as_usize(),
            i as usize,
            "The allocator should provide continuous IDs when none are freed"
        );
    }
}

#[test]
fn is_allocated_for_unallocated() {
    let allocator = IDAllocator::<u32>::new();
    assert!(
        !allocator.is_allocated(42),
        "Unallocated ID should return false for is_allocated"
    );
}

#[test]
fn allocator_reuse_after_free_all() {
    let mut allocator = IDAllocator::<u16>::new();
    let ids = (0..100).map(|_| allocator.allocate()).collect::<Vec<_>>();

    for id in ids {
        assert!(allocator.free(id));
    }

    for i in (0..100).rev() {
        let new_id = allocator.allocate();
        assert_eq!(
            new_id, i,
            "Allocator should start from the beginning after all IDs are freed"
        );
    }
}

#[test]
fn double_free_fails_and_free_is_lifo() {
    let mut allocator = IDAllocator::<u32>::new();
    let a = allocator.allocate();
    let b = allocator.allocate();
    let c = allocator.allocate();
    assert!(allocator.free(a));
    assert!(!allocator.free(a));
    assert!(allocator.free(c));
    assert!(!allocator.is_allocated(a));
    assert!(allocator.is_allocated(b));
    assert_eq!(allocator.allocate(), c);
    assert_eq!(allocator.allocate(), a);
    assert_eq!(allocator.allocate(), 3);
}
