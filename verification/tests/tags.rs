use nbbuddy::AllocTags;

#[test]
fn flag_bits() {
    assert_eq!(AllocTags::OccRight.bits(), 0x1);
    assert_eq!(AllocTags::OccLeft.bits(), 0x2);
    assert_eq!(AllocTags::CoalRight.bits(), 0x4);
    assert_eq!(AllocTags::CoalLeft.bits(), 0x8);
    assert_eq!(AllocTags::Occ.bits(), 0x10);
    assert_eq!(AllocTags::Busy.bits(), 0x13);
}

#[test]
fn mark_sets_the_side_of_the_child() {
    assert_eq!(AllocTags::mark(0, 4), 0x2);
    assert_eq!(AllocTags::mark(0, 5), 0x1);
    assert_eq!(AllocTags::mark(0x8, 4), 0xA);
    assert_eq!(AllocTags::mark(0x2, 4), 0x2);
    assert_eq!(AllocTags::mark(0x10, 7), 0x11);
}

#[test]
fn unmark_clears_both_flags_of_the_side() {
    assert_eq!(AllocTags::unmark(0xA, 4), 0);
    assert_eq!(AllocTags::unmark(0x5, 5), 0);
    assert_eq!(AllocTags::unmark(0xF, 4), 0x5);
    assert_eq!(AllocTags::unmark(0xF, 5), 0xA);
    assert_eq!(AllocTags::unmark(0x1F, 2), 0x15);
}

#[test]
fn clean_coal_keeps_the_occupancy() {
    assert_eq!(AllocTags::clean_coal(0xA, 4), 0x2);
    assert_eq!(AllocTags::clean_coal(0x5, 5), 0x1);
    assert_eq!(AllocTags::clean_coal(0xF, 6), 0x7);
    assert_eq!(AllocTags::clean_coal(0xF, 7), 0xB);
    assert_eq!(AllocTags::clean_coal(0x3, 6), 0x3);
}

#[test]
fn is_coal_reads_the_side_of_the_child() {
    assert!(AllocTags::is_coal(0x8, 2));
    assert!(!AllocTags::is_coal(0x8, 3));
    assert!(AllocTags::is_coal(0x4, 3));
    assert!(!AllocTags::is_coal(0x4, 2));
    assert!(!AllocTags::is_coal(0x13, 2));
}

#[test]
fn buddy_predicates_read_the_other_side() {
    assert!(AllocTags::is_occ_buddy(0x1, 2));
    assert!(!AllocTags::is_occ_buddy(0x2, 2));
    assert!(AllocTags::is_occ_buddy(0x2, 3));
    assert!(!AllocTags::is_occ_buddy(0x1, 3));
    assert!(AllocTags::is_coal_buddy(0x4, 2));
    assert!(!AllocTags::is_coal_buddy(0x8, 2));
    assert!(AllocTags::is_coal_buddy(0x8, 3));
    assert!(!AllocTags::is_coal_buddy(0x4, 3));
}

#[test]
fn is_free_looks_at_the_occupancy_flags_only() {
    assert!(AllocTags::is_free(0));
    assert!(AllocTags::is_free(0x4));
    assert!(AllocTags::is_free(0x8));
    assert!(AllocTags::is_free(0xC));
    assert!(!AllocTags::is_free(0x1));
    assert!(!AllocTags::is_free(0x2));
    assert!(!AllocTags::is_free(0x10));
    assert!(!AllocTags::is_free(0x13));
}
