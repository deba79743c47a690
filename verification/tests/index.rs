use nbbuddy::index::{lchild, level, parent, pow2_of, size, starting};

#[test]
fn level_is_the_logarithm_rounded_down() {
    assert_eq!(level(1), 0);
    assert_eq!(level(2), 1);
    assert_eq!(level(3), 1);
    assert_eq!(level(4), 2);
    assert_eq!(level(7), 2);
    assert_eq!(level(8), 3);
    assert_eq!(level(1000), 9);
    assert_eq!(level(usize::MAX), (usize::BITS - 1) as usize);
}

#[test]
fn parent_and_left_child() {
    assert_eq!(parent(1), 0);
    assert_eq!(parent(2), 1);
    assert_eq!(parent(3), 1);
    assert_eq!(parent(9), 4);
    assert_eq!(lchild(1), 2);
    assert_eq!(lchild(5), 10);
    assert_eq!(parent(lchild(77)), 77);
}

#[test]
fn powers_of_two() {
    assert_eq!(pow2_of(0), 1);
    assert_eq!(pow2_of(1), 2);
    assert_eq!(pow2_of(10), 1024);
}

#[test]
fn block_sizes_halve_with_each_level() {
    assert_eq!(size(1, 1024), 1024);
    assert_eq!(size(2, 1024), 512);
    assert_eq!(size(3, 1024), 512);
    assert_eq!(size(4, 1024), 256);
    assert_eq!(size(15, 1024), 128);
}

#[test]
fn blocks_of_a_level_lie_side_by_side() {
    assert_eq!(starting(1, 0, 1024), 0);
    assert_eq!(starting(2, 0, 1024), 0);
    assert_eq!(starting(3, 0, 1024), 512);
    assert_eq!(starting(5, 0, 1024), 256);
    assert_eq!(starting(8, 0, 1024), 0);
    assert_eq!(starting(15, 0, 1024), 896);
    assert_eq!(starting(15, 4096, 1024), 4096 + 896);
}
