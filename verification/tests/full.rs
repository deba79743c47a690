use nbbuddy::NBBuddyAllocator;

const ALLOC_SIZE: usize = 8 * 1024;
const SMALLEST_CHUNK: usize = 64;
const NODES: usize = 2 * (ALLOC_SIZE / SMALLEST_CHUNK);

#[test]
fn full() {
    let mut allocator = NBBuddyAllocator::<ALLOC_SIZE, NODES>::new();
    let mut pointers: Vec<Option<usize>> = vec![None; ALLOC_SIZE / SMALLEST_CHUNK];

    // allocate pointers
    for i in 0..(ALLOC_SIZE / SMALLEST_CHUNK) {
        pointers[i] = allocator.allocate(SMALLEST_CHUNK);
        assert!(pointers[i].is_some());
    }

    // check if everything was allocated
    let additional_pointer = allocator.allocate(SMALLEST_CHUNK);
    assert!(additional_pointer.is_none());

    // deallocate pointers
    for i in 0..(ALLOC_SIZE / SMALLEST_CHUNK) {
        allocator.dealloc(pointers[i].unwrap());
    }
}
