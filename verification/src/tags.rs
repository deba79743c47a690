//! The status byte of a tree node: five flags and the operations that a walk
//! through the tree applies to them.
//!
//! A child reaches the flag for its own side, or for its buddy's side, by
//! shifting with its parity: the two occupancy flags sit in adjacent bits, and
//! so do the two coalescing flags.

use vstd::prelude::*;

verus! {

/// The subtree under the right child holds a claimed node.
pub const OCC_RIGHT: u8 = 0x1;

/// The subtree under the left child holds a claimed node.
pub const OCC_LEFT: u8 = 0x2;

/// A release is climbing through this node from the right child.
pub const COAL_RIGHT: u8 = 0x4;

/// A release is climbing through this node from the left child.
pub const COAL_LEFT: u8 = 0x8;

/// The node itself is claimed.
pub const OCC: u8 = 0x10;

/// A claimed node: the node and both of its sides.
pub const BUSY: u8 = 0x13;

/// The occupancy flag of the side on which child `c` hangs.
pub open spec fn side_occ(c: nat) -> u8 {
    if c % 2 == 0 { OCC_LEFT } else { OCC_RIGHT }
}

/// The coalescing flag of the side on which child `c` hangs.
pub open spec fn side_coal(c: nat) -> u8 {
    if c % 2 == 0 { COAL_LEFT } else { COAL_RIGHT }
}

/// The occupancy flag of the side on which the buddy of `c` hangs.
pub open spec fn buddy_occ(c: nat) -> u8 {
    if c % 2 == 0 { OCC_RIGHT } else { OCC_LEFT }
}

/// The coalescing flag of the side on which the buddy of `c` hangs.
pub open spec fn buddy_coal(c: nat) -> u8 {
    if c % 2 == 0 { COAL_RIGHT } else { COAL_LEFT }
}

/// The node carrying word `v` is claimed.
pub open spec fn claimed(v: u8) -> bool {
    v & OCC != 0
}

/// Word `v` with the occupancy flag of `c`'s side set.
pub open spec fn with_occ(v: u8, c: nat) -> u8 {
    v | side_occ(c)
}

/// Word `v` with the coalescing flag of `c`'s side set.
pub open spec fn with_coal(v: u8, c: nat) -> u8 {
    v | side_coal(c)
}

/// Word `v` with the coalescing flag of `c`'s side cleared.
pub open spec fn without_coal(v: u8, c: nat) -> u8 {
    v & !side_coal(c)
}

/// Word `v` with both flags of `c`'s side cleared.
pub open spec fn without_marks(v: u8, c: nat) -> u8 {
    v & !(side_occ(c) | side_coal(c))
}

/// The occupancy flag of `c`'s side is set in `v`.
pub open spec fn has_occ(v: u8, c: nat) -> bool {
    v & side_occ(c) != 0
}

/// The coalescing flag of `c`'s side is set in `v`.
pub open spec fn has_coal(v: u8, c: nat) -> bool {
    v & side_coal(c) != 0
}

/// The occupancy flag of the buddy's side is set in `v`.
pub open spec fn buddy_has_occ(v: u8, c: nat) -> bool {
    v & buddy_occ(c) != 0
}

/// The coalescing flag of the buddy's side is set in `v`.
pub open spec fn buddy_has_coal(v: u8, c: nat) -> bool {
    v & buddy_coal(c) != 0
}

/// No occupancy flag is set in `v`.
pub open spec fn claimable(v: u8) -> bool {
    v & BUSY == 0
}

/// The word of an unclaimed node whose two sides are occupied as `left` and
/// `right` say, and of which no side is coalescing.
pub open spec fn pair_word(left: bool, right: bool) -> u8 {
    if left && right {
        0x3u8
    } else if left {
        0x2u8
    } else if right {
        0x1u8
    } else {
        0u8
    }
}

/// What a claim and a release that come from child `c` do to such a word.
pub proof fn lemma_pair_words(left: bool, right: bool, c: nat)
    ensures
        !claimed(pair_word(left, right)),
        pair_word(left, right) != BUSY,
        !has_coal(pair_word(left, right), c),
        has_occ(pair_word(left, right), c) == (if c % 2 == 0 {
            left
        } else {
            right
        }),
        with_occ(without_coal(pair_word(left, right), c), c) == pair_word(
            left || c % 2 == 0,
            right || c % 2 != 0,
        ),
        without_marks(with_coal(pair_word(left, right), c), c) == pair_word(
            left && c % 2 != 0,
            right && c % 2 == 0,
        ),
{
    assert((0u8 & !0x8u8) | 0x2u8 == 2u8 && (1u8 & !0x8u8) | 0x2u8 == 3u8 && (2u8 & !0x8u8) | 0x2u8
        == 2u8 && (3u8 & !0x8u8) | 0x2u8 == 3u8 && (0u8 & !0x4u8) | 0x1u8 == 1u8 && (1u8 & !0x4u8)
        | 0x1u8 == 1u8 && (2u8 & !0x4u8) | 0x1u8 == 3u8 && (3u8 & !0x4u8) | 0x1u8 == 3u8)
        by (bit_vector);
    assert((0u8 | 0x8u8) & !(0x2u8 | 0x8u8) == 0u8 && (1u8 | 0x8u8) & !(0x2u8 | 0x8u8) == 1u8 && (
    2u8 | 0x8u8) & !(0x2u8 | 0x8u8) == 0u8 && (3u8 | 0x8u8) & !(0x2u8 | 0x8u8) == 1u8 && (0u8
        | 0x4u8) & !(0x1u8 | 0x4u8) == 0u8 && (1u8 | 0x4u8) & !(0x1u8 | 0x4u8) == 0u8 && (2u8
        | 0x4u8) & !(0x1u8 | 0x4u8) == 2u8 && (3u8 | 0x4u8) & !(0x1u8 | 0x4u8) == 2u8)
        by (bit_vector);
    assert(forall|w: u8|
        w <= 3 ==> w & 0x10u8 == 0 && w & 0x8u8 == 0 && w & 0x4u8 == 0 && (w & 0x2u8 != 0 <==> w
            >= 2) && (w & 0x1u8 != 0 <==> (w == 1 || w == 3))) by (bit_vector);
}

/// A claim from child `c` that is withdrawn again leaves a word that showed
/// no flag of the side of `c` as it was.
pub proof fn lemma_side_restored(v: u8, c: nat)
    requires
        !has_occ(v, c),
        !has_coal(v, c),
    ensures
        without_marks(with_coal(with_occ(without_coal(v, c), c), c), c) == v,
{
    assert(v & 0x2u8 == 0 && v & 0x8u8 == 0 ==> (((v & !0x8u8) | 0x2u8) | 0x8u8) & !(0x2u8 | 0x8u8)
        == v) by (bit_vector);
    assert(v & 0x1u8 == 0 && v & 0x4u8 == 0 ==> (((v & !0x4u8) | 0x1u8) | 0x4u8) & !(0x1u8 | 0x4u8)
        == v) by (bit_vector);
}

/// A clear word carries no flag.
pub proof fn lemma_clear_word(c: nat)
    ensures
        !claimed(0u8),
        !has_occ(0u8, c),
        !has_coal(0u8, c),
        !buddy_has_occ(0u8, c),
        !buddy_has_coal(0u8, c),
        claimable(0u8),
{
    assert(forall|m: u8| 0u8 & m == 0u8) by (bit_vector);
}

/// What each operation on a word does to the flags of the side of any child
/// `d`, and to the claim.
pub proof fn lemma_word_ops(v: u8, c: nat, d: nat)
    ensures
        claimed(with_occ(v, c)) == claimed(v),
        claimed(with_coal(v, c)) == claimed(v),
        claimed(without_coal(v, c)) == claimed(v),
        claimed(without_marks(v, c)) == claimed(v),
        has_occ(with_occ(v, c), d) == (has_occ(v, d) || d % 2 == c % 2),
        has_coal(with_occ(v, c), d) == has_coal(v, d),
        has_occ(with_coal(v, c), d) == has_occ(v, d),
        has_coal(with_coal(v, c), d) == (has_coal(v, d) || d % 2 == c % 2),
        has_occ(without_coal(v, c), d) == has_occ(v, d),
        has_coal(without_coal(v, c), d) == (has_coal(v, d) && d % 2 != c % 2),
        has_occ(without_marks(v, c), d) == (has_occ(v, d) && d % 2 != c % 2),
        has_coal(without_marks(v, c), d) == (has_coal(v, d) && d % 2 != c % 2),
        d % 2 != c % 2 ==> buddy_has_occ(v, c) == has_occ(v, d),
        d % 2 != c % 2 ==> buddy_has_coal(v, c) == has_coal(v, d),
{
    assert(forall|w: u8, m: u8|
        #![auto]
        m == 1 || m == 2 || m == 4 || m == 8 ==> (w | m) & 0x10 == w & 0x10 && (w & !m) & 0x10 == w
            & 0x10 && (w | m) & m != 0 && (w & !m) & m == 0) by (bit_vector);
    assert(forall|w: u8, m: u8, k: u8|
        #![auto]
        (m == 1 || m == 2 || m == 4 || m == 8) && (k == 1 || k == 2 || k == 4 || k == 8) && m != k
            ==> (w | m) & k == w & k && (w & !m) & k == w & k) by (bit_vector);
    assert(forall|w: u8|
        #![auto]
        (w & !(0x2u8 | 0x8u8)) & 0x10 == w & 0x10 && (w & !(0x2u8 | 0x8u8)) & 0x2 == 0 && (w & !(
        0x2u8 | 0x8u8)) & 0x8 == 0 && (w & !(0x2u8 | 0x8u8)) & 0x1 == w & 0x1 && (w & !(0x2u8
            | 0x8u8)) & 0x4 == w & 0x4) by (bit_vector);
    assert(forall|w: u8|
        #![auto]
        (w & !(0x1u8 | 0x4u8)) & 0x10 == w & 0x10 && (w & !(0x1u8 | 0x4u8)) & 0x1 == 0 && (w & !(
        0x1u8 | 0x4u8)) & 0x4 == 0 && (w & !(0x1u8 | 0x4u8)) & 0x2 == w & 0x2 && (w & !(0x1u8
            | 0x4u8)) & 0x8 == w & 0x8) by (bit_vector);
}

/// A claimed node's word says so, and carries the occupancy flag of both
/// sides and no coalescing flag.
pub proof fn lemma_busy_word(c: nat)
    ensures
        claimed(BUSY),
        has_occ(BUSY, c),
        !has_coal(BUSY, c),
        !claimable(BUSY),
{
    assert(0x13u8 & 0x10u8 != 0 && 0x13u8 & 0x1u8 != 0 && 0x13u8 & 0x2u8 != 0 && 0x13u8 & 0x4u8
        == 0 && 0x13u8 & 0x8u8 == 0 && 0x13u8 & 0x13u8 != 0) by (bit_vector);
}

/// The flags of a status byte.
#[derive(Clone, Copy, Debug, PartialEq, Eq)]
pub enum AllocTags {
    OccRight,
    OccLeft,
    CoalRight,
    CoalLeft,
    Occ,
    Busy,
}

impl AllocTags {
    /// The bits of the flag; for `Busy`, of the three occupancy flags together.
    pub open spec fn mask(self) -> u8 {
        match self {
            AllocTags::OccRight => OCC_RIGHT,
            AllocTags::OccLeft => OCC_LEFT,
            AllocTags::CoalRight => COAL_RIGHT,
            AllocTags::CoalLeft => COAL_LEFT,
            AllocTags::Occ => OCC,
            AllocTags::Busy => BUSY,
        }
    }

    /// The bits of the flag.
    pub fn bits(self) -> (r: u8)
        ensures
            r == self.mask(),
    {
        match self {
            AllocTags::OccRight => OCC_RIGHT,
            AllocTags::OccLeft => OCC_LEFT,
            AllocTags::CoalRight => COAL_RIGHT,
            AllocTags::CoalLeft => COAL_LEFT,
            AllocTags::Occ => OCC,
            AllocTags::Busy => BUSY,
        }
    }

    /// Clears the coalescing flag of `c`'s side.
    pub fn clean_coal(v: u8, c: usize) -> (r: u8)
        ensures
            r == without_coal(v, c as nat),
    {
        let p: u8 = (c % 2) as u8;
        assert(v & !(0x8u8 >> p) == if p == 0 { v & !0x8u8 } else { v & !0x4u8 }) by (bit_vector)
            requires
                p == 0 || p == 1,
        ;
        v & !(COAL_LEFT >> p)
    }

    /// Sets the occupancy flag of `c`'s side.
    pub fn mark(v: u8, c: usize) -> (r: u8)
        ensures
            r == with_occ(v, c as nat),
    {
        let p: u8 = (c % 2) as u8;
        assert(v | (0x2u8 >> p) == if p == 0 { v | 0x2u8 } else { v | 0x1u8 }) by (bit_vector)
            requires
                p == 0 || p == 1,
        ;
        v | (OCC_LEFT >> p)
    }

    /// Clears the occupancy and the coalescing flag of `c`'s side.
    pub fn unmark(v: u8, c: usize) -> (r: u8)
        ensures
            r == without_marks(v, c as nat),
    {
        let p: u8 = (c % 2) as u8;
        assert(v & !((0x2u8 | 0x8u8) >> p) == if p == 0 {
            v & !(0x2u8 | 0x8u8)
        } else {
            v & !(0x1u8 | 0x4u8)
        }) by (bit_vector)
            requires
                p == 0 || p == 1,
        ;
        v & !((OCC_LEFT | COAL_LEFT) >> p)
    }

    /// Whether the coalescing flag of `c`'s side is set.
    pub fn is_coal(v: u8, c: usize) -> (r: bool)
        ensures
            r == has_coal(v, c as nat),
    {
        let p: u8 = (c % 2) as u8;
        assert(v & (0x8u8 >> p) == if p == 0 { v & 0x8u8 } else { v & 0x4u8 }) by (bit_vector)
            requires
                p == 0 || p == 1,
        ;
        v & (COAL_LEFT >> p) != 0
    }

    /// Whether the occupancy flag of the buddy's side is set.
    pub fn is_occ_buddy(v: u8, c: usize) -> (r: bool)
        ensures
            r == buddy_has_occ(v, c as nat),
    {
        let p: u8 = (c % 2) as u8;
        assert(v & (0x1u8 << p) == if p == 0 { v & 0x1u8 } else { v & 0x2u8 }) by (bit_vector)
            requires
                p == 0 || p == 1,
        ;
        v & (OCC_RIGHT << p) != 0
    }

    /// Whether the coalescing flag of the buddy's side is set.
    pub fn is_coal_buddy(v: u8, c: usize) -> (r: bool)
        ensures
            r == buddy_has_coal(v, c as nat),
    {
        let p: u8 = (c % 2) as u8;
        assert(v & (0x4u8 << p) == if p == 0 { v & 0x4u8 } else { v & 0x8u8 }) by (bit_vector)
            requires
                p == 0 || p == 1,
        ;
        v & (COAL_RIGHT << p) != 0
    }

    /// Whether no occupancy flag is set.
    pub fn is_free(v: u8) -> (r: bool)
        ensures
            r == claimable(v),
    {
        v & BUSY == 0
    }
}

} // verus!
