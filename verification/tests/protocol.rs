use nbbuddy::allocator::nnodes;
use nbbuddy::NBBuddyAllocator;

fn words<const S: usize, const N: usize>(a: &NBBuddyAllocator<S, N>) -> Vec<u8> {
    (0..N).map(|n| a.word(n)).collect()
}

fn claims<const S: usize, const N: usize>(a: &NBBuddyAllocator<S, N>) -> Vec<usize> {
    (1..N).filter(|&n| a.word(n) & 0x10 != 0).collect()
}

#[test]
fn fresh_allocator_is_clear() {
    let a = NBBuddyAllocator::<1024, 16>::new();
    assert!(a.is_clear());
    assert_eq!(a.depth(), 3);
    assert_eq!(words(&a), vec![0u8; 16]);
}

#[test]
fn depth_is_the_level_of_the_leaves() {
    assert_eq!(NBBuddyAllocator::<8192, 256>::new().depth(), 7);
    assert_eq!(NBBuddyAllocator::<1024, 2>::new().depth(), 0);
    assert_eq!(NBBuddyAllocator::<1024, 4>::new().depth(), 1);
    assert_eq!(NBBuddyAllocator::<1024, 2048>::new().depth(), 10);
}

#[test]
fn zero_size_is_refused() {
    let mut a = NBBuddyAllocator::<1024, 16>::new();
    assert_eq!(a.allocate(0), None);
    assert!(a.is_clear());
}

#[test]
fn oversize_is_refused() {
    let mut a = NBBuddyAllocator::<1024, 16>::new();
    assert_eq!(a.allocate(1025), None);
    assert!(a.is_clear());
    assert_eq!(a.allocate(1024), Some(0));
}

#[test]
fn claim_announces_itself_up_to_the_root() {
    let mut a = NBBuddyAllocator::<1024, 16>::new();
    assert_eq!(a.allocate(128), Some(0));
    assert_eq!(words(&a), vec![0, 2, 2, 0, 2, 0, 0, 0, 0x13, 0, 0, 0, 0, 0, 0, 0]);
    assert_eq!(a.allocate(128), Some(128));
    assert_eq!(words(&a), vec![0, 2, 2, 0, 3, 0, 0, 0, 0x13, 0x13, 0, 0, 0, 0, 0, 0]);
    assert_eq!(a.allocate(512), Some(512));
    assert_eq!(words(&a), vec![0, 3, 2, 0x13, 3, 0, 0, 0, 0x13, 0x13, 0, 0, 0, 0, 0, 0]);
}

#[test]
fn small_requests_are_served_from_the_leaves() {
    let mut a = NBBuddyAllocator::<1024, 16>::new();
    assert_eq!(a.allocate(1), Some(0));
    assert_eq!(claims(&a), vec![8]);
    assert_eq!(a.allocate(128), Some(128));
    assert_eq!(claims(&a), vec![8, 9]);
    assert_eq!(a.allocate(129), Some(256));
    assert_eq!(claims(&a), vec![5, 8, 9]);
}

#[test]
fn requests_above_half_the_region_are_served_from_the_root() {
    let mut a = NBBuddyAllocator::<1024, 16>::new();
    assert_eq!(a.allocate(513), Some(0));
    assert_eq!(claims(&a), vec![1]);
    assert_eq!(a.word(1), 0x13);
    assert_eq!(a.allocate(1), None);
    let mut b = NBBuddyAllocator::<1024, 16>::new();
    assert_eq!(b.allocate(512), Some(0));
    assert_eq!(claims(&b), vec![2]);
}

#[test]
fn single_allocation_and_free() {
    const S: usize = 8 * 1024 * 1024;
    const N: usize = 2 * (S / 128);
    let mut a = NBBuddyAllocator::<S, N>::new();
    let p = a.allocate(8);
    assert_eq!(p, Some(0));
    assert_eq!(claims(&a), vec![N / 2]);
    a.dealloc(0);
    assert_eq!(claims(&a), Vec::<usize>::new());
    assert_eq!(a.word(N / 2), 0);
    assert_eq!(a.word(N / 4), 0);
    assert_eq!(a.allocate(8), Some(0));
}

#[test]
fn marks_above_the_parent_stay_when_the_buddy_is_idle() {
    let mut a = NBBuddyAllocator::<1024, 16>::new();
    assert_eq!(a.allocate(128), Some(0));
    a.dealloc(0);
    assert_eq!(words(&a), vec![0, 0xA, 0xA, 0, 0, 0, 0, 0, 0, 0, 0, 0, 0, 0, 0, 0]);
    assert_eq!(a.allocate(1024), None);
    assert_eq!(a.allocate(512), Some(512));
    assert_eq!(a.allocate(128), Some(0));
    assert_eq!(words(&a), vec![0, 3, 2, 0x13, 2, 0, 0, 0, 0x13, 0, 0, 0, 0, 0, 0, 0]);
}

#[test]
fn full_occupancy() {
    let mut a = NBBuddyAllocator::<8192, 256>::new();
    let mut got = Vec::new();
    for i in 0..128 {
        let p = a.allocate(64);
        assert_eq!(p, Some(i * 64));
        got.push(p.unwrap());
    }
    assert_eq!(a.allocate(64), None);
    assert_eq!(a.allocate(8192), None);
    assert_eq!(claims(&a), (128..256).collect::<Vec<usize>>());
    for p in got {
        a.dealloc(p);
    }
    assert_eq!(claims(&a), Vec::<usize>::new());
    for n in 64..256 {
        assert_eq!(a.word(n), 0);
    }
    for i in 0..128 {
        assert_eq!(a.allocate(64), Some(i * 64));
    }
    assert_eq!(a.allocate(64), None);
}

#[test]
fn leaves_fill_from_the_left() {
    let mut a = NBBuddyAllocator::<1024, 16>::new();
    for m in 0..8 {
        assert_eq!(a.allocate(128), Some(m * 128));
    }
    assert_eq!(a.allocate(128), None);
    for m in (0..8).rev() {
        a.dealloc(m * 128);
    }
    assert_eq!(claims(&a), Vec::<usize>::new());
}

#[test]
fn coalescing_across_halves() {
    let mut a = NBBuddyAllocator::<1024, 16>::new();
    let p = a.allocate(512);
    let q = a.allocate(512);
    assert_eq!(p, Some(0));
    assert_eq!(q, Some(512));
    assert_eq!(a.allocate(512), None);
    a.dealloc(p.unwrap());
    assert_eq!(a.word(1), 0x1);
    a.dealloc(q.unwrap());
    assert!(a.is_clear());
    assert_eq!(a.allocate(1024), Some(0));
}

#[test]
fn two_leaf_region_returns_to_clear_in_any_order() {
    let mut a = NBBuddyAllocator::<256, 4>::new();
    assert_eq!(a.allocate(128), Some(0));
    assert_eq!(a.allocate(128), Some(128));
    assert_eq!(a.allocate(128), None);
    a.dealloc(128);
    a.dealloc(0);
    assert!(a.is_clear());
    assert_eq!(a.allocate(256), Some(0));
    a.dealloc(0);
    assert!(a.is_clear());
    assert_eq!(a.allocate(100), Some(0));
    assert_eq!(a.allocate(100), Some(128));
    a.dealloc(0);
    a.dealloc(128);
    assert!(a.is_clear());
    assert_eq!(a.allocate(256), Some(0));
}

#[test]
fn buddy_denial_during_ascent() {
    let mut a = NBBuddyAllocator::<1024, 16>::new();
    assert_eq!(a.allocate(512), Some(0));
    let before = words(&a);
    assert_eq!(a.try_alloc(4), Err(2));
    assert_eq!(words(&a), before);
    assert_eq!(a.allocate(256), Some(512));
    assert_eq!(claims(&a), vec![2, 6]);
    assert_eq!(words(&a), vec![0, 3, 0x13, 2, 0, 0, 0x13, 0, 0, 0, 0, 0, 0, 0, 0, 0]);
    assert_eq!(a.allocate(256), Some(768));
    assert_eq!(a.allocate(256), None);
}

#[test]
fn rollback_symmetry() {
    let mut a = NBBuddyAllocator::<1024, 16>::new();
    assert_eq!(a.allocate(512), Some(0));
    let before = words(&a);
    assert_eq!(a.try_alloc(8), Err(2));
    assert_eq!(words(&a), before);
    assert_eq!(a.try_alloc(9), Err(2));
    assert_eq!(words(&a), before);
    assert_eq!(a.try_alloc(5), Err(2));
    assert_eq!(words(&a), before);
    assert_eq!(a.try_alloc(2), Err(2));
    assert_eq!(words(&a), before);
    assert_eq!(a.allocate(128), Some(512));
}

#[test]
fn rollback_below_a_claimed_root() {
    let mut a = NBBuddyAllocator::<1024, 16>::new();
    assert_eq!(a.allocate(1024), Some(0));
    let before = words(&a);
    assert_eq!(a.try_alloc(3), Err(1));
    assert_eq!(words(&a), before);
    assert_eq!(a.try_alloc(6), Err(1));
    assert_eq!(words(&a), before);
    assert_eq!(a.allocate(128), None);
    assert_eq!(a.allocate(256), None);
    assert_eq!(a.allocate(512), None);
    assert_eq!(claims(&a), vec![1]);
}

#[test]
fn try_alloc_claims_a_clear_node() {
    let mut a = NBBuddyAllocator::<1024, 16>::new();
    assert_eq!(a.try_alloc(5), Ok(()));
    assert_eq!(words(&a), vec![0, 2, 1, 0, 0, 0x13, 0, 0, 0, 0, 0, 0, 0, 0, 0, 0]);
    assert_eq!(a.try_alloc(5), Err(5));
    assert_eq!(a.try_alloc(10), Err(5));
    assert_eq!(a.try_alloc(2), Err(2));
    assert_eq!(a.try_alloc(1), Err(1));
}

#[test]
fn free_node_and_unmark_by_hand() {
    let mut a = NBBuddyAllocator::<1024, 16>::new();
    assert_eq!(a.try_alloc(4), Ok(()));
    assert_eq!(a.try_alloc(5), Ok(()));
    assert_eq!(words(&a), vec![0, 2, 3, 0, 0x13, 0x13, 0, 0, 0, 0, 0, 0, 0, 0, 0, 0]);
    a.free_node(4, 0);
    assert_eq!(words(&a), vec![0, 2, 1, 0, 0, 0x13, 0, 0, 0, 0, 0, 0, 0, 0, 0, 0]);
    a.free_node(5, 0);
    assert_eq!(words(&a), vec![0, 0xA, 0, 0, 0, 0, 0, 0, 0, 0, 0, 0, 0, 0, 0, 0]);
    a.unmark(5, 0);
    assert_eq!(a.word(1), 0xA);
    a.unmark(2, 0);
    assert!(a.is_clear());
}

#[test]
fn compare_and_swap_on_a_word() {
    let mut a = NBBuddyAllocator::<1024, 16>::new();
    assert_eq!(a.cas_tree_value(3, 0, 0x13), Ok(0));
    assert_eq!(a.word(3), 0x13);
    assert_eq!(a.cas_tree_value(3, 0, 0x2), Err(0x13));
    assert_eq!(a.word(3), 0x13);
    assert_eq!(a.cas_tree_value(3, 0x13, 0), Ok(0x13));
    assert!(a.is_clear());
}

#[test]
fn returns_that_match_no_claim_change_nothing() {
    let mut a = NBBuddyAllocator::<1024, 16>::new();
    assert_eq!(a.allocate(256), Some(0));
    assert_eq!(a.allocate(128), Some(256));
    let before = words(&a);
    a.dealloc(1024);
    a.dealloc(usize::MAX);
    a.dealloc(128);
    a.dealloc(384);
    a.dealloc(1);
    a.dealloc(257);
    assert_eq!(words(&a), before);
    a.dealloc(256);
    assert_eq!(claims(&a), vec![4]);
    a.dealloc(256);
    assert_eq!(claims(&a), vec![4]);
    a.dealloc(0);
    a.dealloc(0);
    assert_eq!(claims(&a), Vec::<usize>::new());
}

#[test]
fn claimed_blocks_never_overlap() {
    let mut a = NBBuddyAllocator::<4096, 128>::new();
    let sizes = [64usize, 700, 64, 128, 1000, 65, 300, 64, 2048, 512, 64, 64, 256];
    let mut held: Vec<(usize, usize)> = Vec::new();
    for &s in sizes.iter() {
        if let Some(p) = a.allocate(s) {
            assert!(p + s <= 4096);
            for &(q, t) in held.iter() {
                assert!(p + s <= q || q + t <= p);
            }
            held.push((p, s));
        }
    }
    assert!(held.len() >= 8);
    let live = claims(&a);
    assert_eq!(live.len(), held.len());
    for &x in live.iter() {
        for &y in live.iter() {
            if x != y {
                let mut z = y;
                while z > x {
                    z /= 2;
                }
                assert_ne!(z, x);
            }
        }
    }
}

#[test]
fn sequential_stress() {
    const S: usize = 1 << 16;
    const K: usize = 64;
    const N: usize = 2 * (S / K);
    let mut a = NBBuddyAllocator::<S, N>::new();
    let mut held: Vec<(usize, usize)> = Vec::new();
    let mut seed: u64 = 0x2545F4914F6CDD1D;
    for _ in 0..20000 {
        seed ^= seed << 13;
        seed ^= seed >> 7;
        seed ^= seed << 17;
        let give_back = seed % 3 == 0;
        if give_back && !held.is_empty() {
            let k = (seed >> 8) as usize % held.len();
            let (p, _) = held.swap_remove(k);
            a.dealloc(p);
        } else {
            let size = K << ((seed >> 16) % 10);
            if let Some(p) = a.allocate(size) {
                assert_eq!(p % size, 0);
                assert!(p + size <= S);
                for &(q, t) in held.iter() {
                    assert!(p + size <= q || q + t <= p);
                }
                held.push((p, size));
            }
        }
        assert_eq!(claims(&a).len(), held.len());
    }
    for (p, _) in held.drain(..) {
        a.dealloc(p);
    }
    assert_eq!(claims(&a), Vec::<usize>::new());
    for n in N / 2..N {
        assert_eq!(a.word(n), 0);
    }
}

#[test]
fn table_entries_for_a_region() {
    assert_eq!(nnodes(1024, 128), 16);
    assert_eq!(nnodes(8 * 1024 * 1024, 128), 131072);
    assert_eq!(nnodes(8192, 64), 256);
    assert_eq!(nnodes(64, 64), 2);
}

#[test]
fn one_block_region() {
    let mut a = NBBuddyAllocator::<64, 2>::new();
    assert_eq!(a.depth(), 0);
    assert_eq!(a.allocate(1), Some(0));
    assert_eq!(a.word(1), 0x13);
    assert_eq!(a.allocate(1), None);
    a.dealloc(0);
    assert!(a.is_clear());
    assert_eq!(a.allocate(64), Some(0));
    assert_eq!(a.allocate(65), None);
}

#[test]
fn denied_attempt_far_below_its_blocker_leaves_marks() {
    let mut a = NBBuddyAllocator::<1024, 32>::new();
    assert_eq!(a.allocate(512), Some(0));
    let before = words(&a);
    assert_eq!(a.try_alloc(8), Err(2));
    assert_eq!(words(&a), before);
    assert_eq!(a.try_alloc(16), Err(2));
    assert_eq!(claims(&a), vec![2]);
    let mut after = before.clone();
    after[4] = 0xA;
    assert_eq!(words(&a), after);
    assert_eq!(a.allocate(64), Some(512));
}

#[test]
fn large_requests_leave_a_clear_tree_behind() {
    let mut a = NBBuddyAllocator::<1024, 16>::new();
    for round in 0..4 {
        let p = a.allocate(512).unwrap();
        let q = a.allocate(257).unwrap();
        assert_eq!((p, q), (0, 512));
        assert_eq!(a.allocate(300), None);
        if round % 2 == 0 {
            a.dealloc(p);
            a.dealloc(q);
        } else {
            a.dealloc(q);
            a.dealloc(p);
        }
        assert!(a.is_clear());
        assert_eq!(a.allocate(1000), Some(0));
        assert_eq!(a.allocate(512), None);
        a.dealloc(0);
        assert!(a.is_clear());
    }
}

#[test]
fn returns_in_any_order_give_up_every_claim() {
    let mut a = NBBuddyAllocator::<1024, 16>::new();
    let order = [5usize, 2, 7, 0, 3, 6, 1, 4];
    for m in 0..8 {
        assert_eq!(a.allocate(100), Some(m * 128));
    }
    assert_eq!(a.allocate(100), None);
    for (k, &m) in order.iter().enumerate() {
        a.dealloc(m * 128);
        assert_eq!(claims(&a).len(), 7 - k);
    }
    for n in 4..16 {
        assert_eq!(a.word(n), 0);
    }
    for m in 0..8 {
        assert_eq!(a.allocate(128), Some(m * 128));
    }
}

#[test]
fn reads_of_the_word_of_each_node() {
    let mut a = NBBuddyAllocator::<1024, 16>::new();
    assert_eq!(a.allocate(256), Some(0));
    assert_eq!(a.word(0), 0);
    assert_eq!(a.word(1), 0x2);
    assert_eq!(a.word(2), 0x2);
    assert_eq!(a.word(4), 0x13);
    assert!(!a.is_clear());
}

#[test]
fn pairs_of_leaves_are_served_after_any_history() {
    let mut a = NBBuddyAllocator::<1024, 16>::new();
    let order = [3usize, 0, 6, 1, 7, 2, 5, 4];
    for m in 0..8 {
        assert_eq!(a.allocate(128), Some(m * 128));
    }
    for &m in order.iter() {
        a.dealloc(m * 128);
    }
    for n in 4..16 {
        assert_eq!(a.word(n), 0);
    }
    for m in 0..4 {
        assert_eq!(a.allocate(200), Some(m * 256));
    }
    assert_eq!(a.allocate(200), None);
    a.dealloc(256);
    assert_eq!(a.allocate(100), Some(256));
    assert_eq!(a.allocate(256), None);
    assert_eq!(a.allocate(128), Some(384));
    a.dealloc(256);
    a.dealloc(384);
    assert_eq!(a.word(5), 0);
    assert_eq!(a.allocate(256), Some(256));
}
