//! Requests that are served from the root or from its children.
//!
//! Such a request writes the root's word and the word of one child, and the
//! return of its block clears exactly what it wrote. A tree that has only
//! seen such requests shows its claims and nothing else, so it is clear once
//! every block has come back.

use crate::consistency::{alive, consistent, eligible, lemma_try_claim, recorded};
use crate::index::{
    block_start, covers, lemma_covers_level, lemma_covers_order, lemma_level_bounds,
    lemma_level_unique, lemma_span, lemma_span_end, level_of,
};
use crate::laws::{given_back, law_all_returned, law_round_trip, law_served_level, packed};
use crate::model::{announced, climb, coalesce, followers, release, scan, try_claim, unmark_walk};
use crate::state::{lemma_alloc_step, lemma_dealloc_step, State};
use crate::tags::{
    claimable, claimed, has_coal, lemma_busy_word, lemma_clear_word, pair_word, with_coal,
    without_marks, BUSY,
};
use vstd::arithmetic::power2::{
    lemma2_to64, lemma_pow2_pos, lemma_pow2_strictly_increases, lemma_pow2_unfold, pow2,
};
use vstd::prelude::*;

verus! {

/// A top-only tree: every word below the children of the root is clear, each
/// child of the root is clear or claimed, and the root is claimed or shows
/// exactly which of its children are.
pub open spec fn top_only(t: Seq<u8>) -> bool {
    &&& forall|i: int| 4 <= i < t.len() ==> #[trigger] t[i] == 0
    &&& t.len() >= 4 ==> (t[2] == 0 || t[2] == BUSY) && (t[3] == 0 || t[3] == BUSY)
    &&& t[1] == BUSY || t[1] == pair_word(
        t.len() >= 4 && t[2] == BUSY,
        t.len() >= 4 && t[3] == BUSY,
    )
}

/// Every word of the tree is zero.
pub open spec fn clear(t: Seq<u8>) -> bool {
    forall|i: int| 0 <= i < t.len() ==> #[trigger] t[i] == 0
}

/// The words that a claim and a release leave on the root.
proof fn lemma_top_words()
    ensures
        announced(0u8, 2) == 2u8,
        announced(1u8, 2) == 3u8,
        announced(0u8, 3) == 1u8,
        announced(2u8, 3) == 3u8,
        without_marks(with_coal(2u8, 2), 2) == 0u8,
        without_marks(with_coal(3u8, 2), 2) == 1u8,
        without_marks(with_coal(1u8, 3), 3) == 0u8,
        without_marks(with_coal(3u8, 3), 3) == 2u8,
        has_coal(with_coal(2u8, 2), 2),
        has_coal(with_coal(3u8, 2), 2),
        has_coal(with_coal(1u8, 3), 3),
        has_coal(with_coal(3u8, 3), 3),
        !claimed(0u8),
        !claimed(1u8),
        !claimed(2u8),
        !claimed(3u8),
        claimed(BUSY),
        claimable(0u8),
        !claimable(1u8),
        !claimable(2u8),
        !claimable(3u8),
        !claimable(BUSY),
{
    assert((0u8 & !0x8u8) | 0x2u8 == 2u8 && (1u8 & !0x8u8) | 0x2u8 == 3u8 && (0u8 & !0x4u8) | 0x1u8
        == 1u8 && (2u8 & !0x4u8) | 0x1u8 == 3u8) by (bit_vector);
    assert((2u8 | 0x8u8) & !(0x2u8 | 0x8u8) == 0u8 && (3u8 | 0x8u8) & !(0x2u8 | 0x8u8) == 1u8 && (
    1u8 | 0x4u8) & !(0x1u8 | 0x4u8) == 0u8 && (3u8 | 0x4u8) & !(0x1u8 | 0x4u8) == 2u8)
        by (bit_vector);
    assert((2u8 | 0x8u8) & 0x8u8 != 0 && (3u8 | 0x8u8) & 0x8u8 != 0 && (1u8 | 0x4u8) & 0x4u8 != 0
        && (3u8 | 0x4u8) & 0x4u8 != 0) by (bit_vector);
    assert(0u8 & 0x10u8 == 0 && 1u8 & 0x10u8 == 0 && 2u8 & 0x10u8 == 0 && 3u8 & 0x10u8 == 0
        && 0x13u8 & 0x10u8 != 0) by (bit_vector);
    assert(0u8 & 0x13u8 == 0 && 1u8 & 0x13u8 != 0 && 2u8 & 0x13u8 != 0 && 3u8 & 0x13u8 != 0
        && 0x13u8 & 0x13u8 != 0) by (bit_vector);
}

/// The levels of the root and of its children.
proof fn lemma_top_levels()
    ensures
        level_of(0) == 0,
        level_of(1) == 0,
        level_of(2) == 1,
        level_of(3) == 1,
{
    reveal_with_fuel(level_of, 3);
}

/// An attempt on the root or on one of its children keeps a top-only tree.
proof fn lemma_try_claim_top(t: Seq<u8>, n: nat)
    requires
        consistent(t),
        top_only(t),
        1 <= n <= 3,
        n < t.len(),
        n >= 2 ==> t.len() >= 4,
    ensures
        top_only(try_claim(t, n).0),
{
    lemma_top_words();
    lemma_top_levels();
    if t[n as int] != 0 {
    } else if n == 1 {
        let start = t.update(1, BUSY);
        assert(climb(start, 1) == (start, 1nat));
        if t.len() >= 4 {
            assert(t[2] != BUSY && t[3] != BUSY) by {
                if t[2] == BUSY {
                    assert(pair_word(true, t[3] == BUSY) != 0);
                }
                if t[3] == BUSY {
                    assert(pair_word(t[2] == BUSY, true) != 0);
                }
            }
        }
    } else {
        let start = t.update(n as int, BUSY);
        if claimed(t[1]) {
            assert(alive(t, 1));
            assert(recorded(t, 1));
            lemma_busy_word(n);
            assert(climb(start, n) == (start, n));
            assert(coalesce(start, n, 1) == start);
            assert(start.update(n as int, 0u8) =~= t);
            assert(unmark_walk(t, n, 1) == t);
            assert(release(start, n, 1) == t);
        } else {
            let marked = start.update(1, announced(t[1], n));
            assert(climb(marked, 1) == (marked, 1nat));
            assert(climb(start, n) == (marked, 1nat));
            assert(try_claim(t, n).0 == marked);
            assert(t[1] != BUSY);
            if n == 2 {
                assert(marked[1] == pair_word(true, t[3] == BUSY));
            } else {
                assert(marked[1] == pair_word(t[2] == BUSY, true));
            }
        }
    }
}

/// The release of the root or of one of its claimed children keeps a
/// top-only tree.
proof fn lemma_release_top(t: Seq<u8>, n: nat)
    requires
        consistent(t),
        top_only(t),
        alive(t, n),
        t.len() == 2 || t.len() >= 4,
    ensures
        1 <= n <= 3,
        top_only(release(t, n, 0)),
{
    lemma_top_words();
    lemma_top_levels();
    lemma_clear_word(1);
    assert(recorded(t, n));
    assert(1 <= n <= 3) by {
        if n >= 4 {
            assert(t[n as int] == 0);
        }
    }
    if n == 1 {
        let cleared = t.update(1, 0u8);
        assert(coalesce(t, 1, 0) == t);
        assert(unmark_walk(cleared, 1, 0) == cleared);
        if t.len() >= 4 {
            assert(covers(1, 2) && covers(1, 3)) by {
                assert(covers(1, 1));
            }
            if t[2] == BUSY {
                assert(alive(t, 2));
                assert(recorded(t, 2));
            }
            if t[3] == BUSY {
                assert(alive(t, 3));
                assert(recorded(t, 3));
            }
        }
    } else {
        assert(covers(1, n)) by {
            assert(covers(1, 1));
        }
        assert(!claimed(t[1]));
        let v = t[1];
        let raised = t.update(1, with_coal(v, n));
        assert(coalesce(raised, 1, 0) == raised);
        assert(coalesce(t, n, 0) == raised);
        let cleared = raised.update(n as int, 0u8);
        let w = without_marks(with_coal(v, n), n);
        let next = cleared.update(1, w);
        assert(unmark_walk(next, 1, 0) == next);
        assert(t[n as int] == BUSY && v != BUSY);
        assert(has_coal(cleared[1], n));
        assert(unmark_walk(cleared, n, 0) == next);
        assert(release(t, n, 0) == next);
        if n == 2 {
            assert(w == pair_word(false, t[3] == BUSY));
        } else {
            assert(w == pair_word(t[2] == BUSY, false));
        }
    }
}

/// The scan of the root's level or of the level below keeps a top-only tree.
proof fn lemma_scan_top(t: Seq<u8>, i: nat, until: nat, l: nat)
    requires
        consistent(t),
        top_only(t),
        l <= 1,
        pow2(l) <= i <= until,
        until == pow2(l + 1),
        until <= t.len(),
    ensures
        top_only(scan(t, i, until).0),
    decreases until - i,
{
    lemma2_to64();
    if i >= until {
    } else if !claimable(t[i as int]) {
        lemma_scan_top(t, i + 1, until, l);
    } else {
        lemma_try_claim(t, i);
        lemma_try_claim_top(t, i);
        lemma_level_unique(i, l);
        let (tried, at) = try_claim(t, i);
        if at != 0 {
            let k = (level_of(i) - level_of(at)) as nat;
            lemma_span(at, i);
            lemma_span_end(at, k);
            lemma_covers_level(at, i);
            lemma_scan_top(tried, i + 1 + followers(at, i), until, l);
        }
    }
}

/// A request that is served from the root or from one of its children keeps
/// a top-only tree.
pub proof fn law_top_request(st: State, size: nat)
    requires
        st.sound(),
        top_only(st.tree),
        size == 0 || size > st.region || st.served_level(size) <= 1,
    ensures
        st.alloc_step(size).0.sound(),
        top_only(st.alloc_step(size).0.tree),
{
    lemma_alloc_step(st, size);
    if 0 < size <= st.region {
        let l = st.served_level(size);
        lemma_pow2_pos(l);
        lemma_pow2_unfold(l + 1);
        lemma_pow2_unfold(st.depth() + 1);
        if l < st.depth() {
            lemma_pow2_strictly_increases(l + 1, st.depth() + 1);
        }
        lemma_scan_top(st.tree, pow2(l), pow2(l + 1), l);
    }
}

/// The return of a block keeps a top-only tree.
pub proof fn law_top_return(st: State, at: nat)
    requires
        st.sound(),
        top_only(st.tree),
    ensures
        st.dealloc_step(at).sound(),
        top_only(st.dealloc_step(at).tree),
{
    lemma_dealloc_step(st, at);
    if st.owner(at) != 0 {
        lemma_pow2_unfold(st.depth() + 1);
        lemma_pow2_pos(st.depth());
        if st.depth() >= 1 {
            lemma_pow2_unfold(st.depth());
            lemma_pow2_pos((st.depth() - 1) as nat);
        } else {
            lemma2_to64();
        }
        lemma_release_top(st.tree, st.owner(at));
    }
}

/// A clear tree is top-only; and a top-only tree in which no node is claimed
/// is clear.
pub proof fn law_top_clear(st: State)
    requires
        st.sound(),
    ensures
        clear(st.tree) ==> top_only(st.tree),
        top_only(st.tree) && (forall|d: nat| !alive(st.tree, d)) ==> clear(st.tree),
{
    lemma_top_words();
    if top_only(st.tree) && (forall|d: nat| !alive(st.tree, d)) {
        let t = st.tree;
        assert(!alive(t, 1));
        if t.len() >= 4 {
            assert(!alive(t, 2) && !alive(t, 3));
        }
        assert forall|i: int| 0 <= i < t.len() implies #[trigger] t[i] == 0 by {
            if 1 <= i < 4 && t.len() < 4 {
                lemma_pow2_unfold(st.depth() + 1);
                lemma_pow2_pos(st.depth());
                if st.depth() >= 1 {
                    lemma_pow2_unfold(st.depth());
                    lemma_pow2_pos((st.depth() - 1) as nat);
                }
            }
        }
    }
}

/// In a clear tree nothing is claimed and every leaf is clear.
pub proof fn law_clear_packed(st: State)
    requires
        st.sound(),
        clear(st.tree),
    ensures
        packed(st, 0),
{
    lemma_clear_word(0);
    lemma_pow2_pos(st.depth());
}

/// On a clear tree every request of a size that the region can hold is
/// served at offset 0, by the first node of the serving level; a request for
/// the whole region is served by the root.
pub proof fn law_clear_serves(st: State, size: nat)
    requires
        st.sound(),
        clear(st.tree),
        0 < size <= st.region,
    ensures
        st.alloc_step(size).1 == pow2(st.served_level(size)),
        block_start(st.alloc_step(size).1, st.region) == 0,
        size == st.region ==> st.alloc_step(size).1 == 1,
{
    lemma2_to64();
    lemma_clear_word(0);
    lemma_alloc_step(st, size);
    let l = st.served_level(size);
    let first = pow2(l);
    lemma_pow2_pos(l);
    lemma_pow2_unfold(l + 1);
    lemma_pow2_unfold(st.depth() + 1);
    if l < st.depth() {
        lemma_pow2_strictly_increases(l + 1, st.depth() + 1);
    }
    lemma_level_unique(first, l);
    assert(eligible(st.tree, first)) by {
        assert forall|a: nat| #[trigger] covers(a, first) && a != first implies !claimed(
            st.tree[a as int],
        ) by {
            lemma_covers_order(a, first);
        }
    }
    let node = st.alloc_step(size).1;
    if node != 0 {
        lemma_level_bounds(node);
    }
    assert(node == first);
    let z = st.region / first;
    assert((first - first) * z == 0) by (nonlinear_arith);
    if size == st.region {
        law_served_level(st, size);
    }
}

/// On a clear tree a request that is served from the root or from one of
/// its children, followed by the return of its block, leaves a clear tree.
pub proof fn law_top_round_trip(st: State, size: nat)
    requires
        st.sound(),
        clear(st.tree),
        0 < size <= st.region,
        st.served_level(size) <= 1,
    ensures
        st.alloc_step(size).1 != 0,
        clear(st.alloc_step(size).0.dealloc_step(0).tree),
{
    lemma_clear_word(0);
    law_clear_serves(st, size);
    lemma_pow2_pos(st.served_level(size));
    let (mid, node) = st.alloc_step(size);
    law_top_clear(st);
    law_top_request(st, size);
    law_top_return(mid, 0);
    law_round_trip(st, size);
    let end = mid.dealloc_step(0);
    assert forall|d: nat| !alive(end.tree, d) by {
        if 1 <= d < end.tree.len() {
            assert(claimed(end.tree[d as int]) == claimed(st.tree[d as int]));
        }
    }
    law_top_clear(end);
}

/// A run of returns keeps a top-only tree.
pub proof fn law_top_given_back(st: State, ats: Seq<nat>)
    requires
        st.sound(),
        top_only(st.tree),
    ensures
        given_back(st, ats).sound(),
        top_only(given_back(st, ats).tree),
    decreases ats.len(),
{
    if ats.len() > 0 {
        law_top_return(st, ats[0]);
        law_top_given_back(st.dealloc_step(ats[0]), ats.subrange(1, ats.len() as int));
    }
}

/// Once every claimed block of a top-only tree has come back, in whatever order
/// and among whatever other returns, the tree is clear and a request for the
/// whole region is served.
pub proof fn law_top_recovers(st: State, ats: Seq<nat>)
    requires
        st.sound(),
        top_only(st.tree),
        st.region > 0,
        forall|d: nat| #[trigger] alive(st.tree, d) ==> ats.contains(block_start(d, st.region)),
    ensures
        clear(given_back(st, ats).tree),
        given_back(st, ats).alloc_step(st.region).1 == 1,
{
    law_top_given_back(st, ats);
    law_all_returned(st, ats);
    let end = given_back(st, ats);
    law_top_clear(end);
    law_clear_serves(end, st.region);
}

} // verus!
