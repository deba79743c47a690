use nbbuddy::NBBuddyAllocator;

const ALLOC_SIZE: usize = 8 * 1024 * 1024;
const NODES: usize = 2 * (ALLOC_SIZE / 128);

#[test]
fn basic() {
    let mut allocator = NBBuddyAllocator::<ALLOC_SIZE, NODES>::new();
    let pointer = allocator.allocate(8);
    assert!(pointer.is_some());
    allocator.dealloc(pointer.unwrap());
}
