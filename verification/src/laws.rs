//! What the allocator promises, stated over its states.

use crate::consistency::{
    alive, consistent, eligible, lemma_try_claim, recorded, same_claims, same_off_path,
};
use crate::model::{climb, coalesce, followers, release, try_claim, unmark_walk};
use crate::index::{
    block_size, block_start, covers, lemma_covers_level, lemma_covers_order, lemma_level_bounds,
    lemma_level_unique, lemma_span, lemma_span_covers, level_of,
};
use crate::region::lemma_blocks_apart;
use crate::state::{
    lemma_alloc_step, lemma_claims_apart, lemma_dealloc_step, lemma_node_in_region, State,
};
use crate::tags::{claimed, lemma_busy_word, lemma_clear_word, pair_word, BUSY};
use vstd::arithmetic::power2::{
    lemma_pow2_pos, lemma_pow2_strictly_increases, lemma_pow2_unfold, pow2,
};
use vstd::prelude::*;

verus! {

/// No two claimed nodes lie on one path from the root to a leaf.
pub proof fn law_claims_never_nest(st: State, a: nat, b: nat)
    requires
        st.sound(),
        alive(st.tree, a),
        alive(st.tree, b),
        a != b,
    ensures
        !covers(a, b),
        !covers(b, a),
{
    lemma_claims_apart(st.tree, a, b);
}

/// The blocks of two claimed nodes lie within the region and do not meet.
pub proof fn law_claimed_blocks_apart(st: State, a: nat, b: nat)
    requires
        st.sound(),
        alive(st.tree, a),
        alive(st.tree, b),
        a != b,
    ensures
        block_start(a, st.region) + block_size(a, st.region) <= st.region,
        block_start(b, st.region) + block_size(b, st.region) <= st.region,
        block_start(a, st.region) + block_size(a, st.region) <= block_start(b, st.region)
            || block_start(b, st.region) + block_size(b, st.region) <= block_start(
            a,
            st.region,
        ),
{
    lemma_claims_apart(st.tree, a, b);
    lemma_node_in_region(st, a);
    lemma_node_in_region(st, b);
    lemma_blocks_apart(a, b, st.region, st.depth(), st.chunk);
}

/// The bytes that were asked for lie within the block of the node that
/// serves the request, and that block was claimed by nobody before.
pub proof fn law_served_block(st: State, size: nat)
    requires
        st.sound(),
        st.alloc_step(size).1 != 0,
    ensures
        !alive(st.tree, st.alloc_step(size).1),
        alive(st.alloc_step(size).0.tree, st.alloc_step(size).1),
        st.alloc_step(size).0.kept(st.alloc_step(size).1),
        size <= block_size(st.alloc_step(size).1, st.region),
        block_start(st.alloc_step(size).1, st.region) + size <= st.region,
{
    let node = st.alloc_step(size).1;
    lemma_alloc_step(st, size);
    lemma_clear_word(node);
    lemma_busy_word(node);
    assert(alive(st.alloc_step(size).0.tree, node));
}

/// A request of at most one smallest block is served from the leaves, and a
/// request of more than half the region from the root.
pub proof fn law_served_level(st: State, size: nat)
    requires
        st.sound(),
        0 < size <= st.region,
    ensures
        size <= st.chunk ==> st.served_level(size) == st.depth(),
        2 * size > st.region ==> st.served_level(size) == 0,
        st.alloc_step(size).1 != 0 ==> level_of(st.alloc_step(size).1) == st.served_level(size),
{
    lemma_alloc_step(st, size);
    let q = st.region / size;
    let d = st.depth();
    let c = st.chunk;
    let p = pow2(d);
    lemma_pow2_pos(d);
    if size <= c {
        assert(q >= p) by (nonlinear_arith)
            requires
                q == st.region / size,
                st.region == c * p,
                0 < size <= c,
                p >= 1,
        ;
        lemma_level_bounds(q);
        if level_of(q) < d {
            lemma_pow2_unfold(level_of(q) + 1);
            if level_of(q) + 1 < d {
                lemma_pow2_strictly_increases(level_of(q) + 1, d);
            }
        }
    }
    if 2 * size > st.region {
        assert(q == 1) by (nonlinear_arith)
            requires
                q == st.region / size,
                0 < size <= st.region,
                2 * size > st.region,
        ;
    }
}

/// A request claims one node and leaves every other claim as it was; a
/// refused request changes no claim.
pub proof fn law_request_claims_one(st: State, size: nat)
    requires
        st.sound(),
    ensures
        st.alloc_step(size).0.sound(),
        st.alloc_step(size).1 == 0 ==> same_claims(st.tree, st.alloc_step(size).0.tree),
        st.alloc_step(size).1 != 0 ==> same_claims(
            st.tree.update(st.alloc_step(size).1 as int, BUSY),
            st.alloc_step(size).0.tree,
        ),
{
    lemma_alloc_step(st, size);
}

/// The return of the block of a claimed node gives up that claim and leaves
/// every other claim as it was.
pub proof fn law_return_gives_up_one(st: State, d: nat)
    requires
        st.sound(),
        alive(st.tree, d),
    ensures
        st.dealloc_step(block_start(d, st.region)).sound(),
        !alive(st.dealloc_step(block_start(d, st.region)).tree, d),
        same_claims(
            st.tree.update(d as int, 0u8),
            st.dealloc_step(block_start(d, st.region)).tree,
        ),
{
    let at = block_start(d, st.region);
    lemma_dealloc_step(st, at);
    assert(st.owner(at) == d);
    lemma_clear_word(d);
}

/// A request followed by the return of its block leaves the same nodes
/// claimed as before.
pub proof fn law_round_trip(st: State, size: nat)
    requires
        st.sound(),
        st.alloc_step(size).1 != 0,
    ensures
        st.alloc_step(size).0.dealloc_step(
            block_start(st.alloc_step(size).1, st.region),
        ).sound(),
        same_claims(
            st.tree,
            st.alloc_step(size).0.dealloc_step(
                block_start(st.alloc_step(size).1, st.region),
            ).tree,
        ),
{
    let (mid, node) = st.alloc_step(size);
    let at = block_start(node, st.region);
    lemma_alloc_step(st, size);
    law_served_block(st, size);
    law_return_gives_up_one(mid, node);
    let end = mid.dealloc_step(at);
    assert forall|i: int| 0 <= i < st.tree.len() implies claimed(#[trigger] end.tree[i])
        == claimed(st.tree[i]) by {
        assert(claimed(end.tree[i]) == claimed(mid.tree.update(node as int, 0u8)[i]));
        assert(claimed(mid.tree[i]) == claimed(st.tree.update(node as int, BUSY)[i]));
        lemma_clear_word(node);
    }
}

/// Behind a denied attempt the scan goes on with the first node of the level
/// that the denying node does not cover: every node of the level that it
/// passes over is covered by the denying node, and none from there on is.
pub proof fn law_scan_jump(at: nat, i: nat, j: nat)
    requires
        covers(at, i),
        level_of(j) == level_of(i),
        j >= i,
    ensures
        j < i + 1 + followers(at, i) <==> covers(at, j),
{
    let k = (level_of(i) - level_of(at)) as nat;
    lemma_span(at, i);
    lemma_covers_order(at, i);
    if covers(at, j) {
        lemma_span(at, j);
    }
    if j < i + 1 + followers(at, i) {
        lemma_span_covers(at, j, k);
    }
}

/// A climb ends at the node it started from or above it.
proof fn lemma_climb_ends_above(t: Seq<u8>, child: nat)
    ensures
        climb(t, child).1 <= child,
    decreases child,
{
    let cur = child / 2;
    if child <= 1 || claimed(t[cur as int]) {
    } else {
        lemma_climb_ends_above(
            t.update(cur as int, crate::model::announced(t[cur as int], child)),
            cur,
        );
    }
}

/// An attempt that is denied changes no claim and no word beside those of
/// the ancestors of its node. Where it is denied at the node itself or at
/// the node's parent, it leaves the tree as it found it.
pub proof fn law_denied_attempt(t: Seq<u8>, n: nat)
    requires
        consistent(t),
        1 <= n < t.len(),
        try_claim(t, n).1 != 0,
    ensures
        consistent(try_claim(t, n).0),
        same_claims(t, try_claim(t, n).0),
        same_off_path(t, try_claim(t, n).0, n),
        covers(try_claim(t, n).1, n),
        try_claim(t, n).1 == n || alive(t, try_claim(t, n).1),
        try_claim(t, n).1 == n || try_claim(t, n).1 == n / 2 ==> try_claim(t, n).0 == t,
{
    lemma_try_claim(t, n);
    let at = try_claim(t, n).1;
    if t[n as int] == 0 {
        lemma_climb_ends_above(t.update(n as int, BUSY), n);
    }
    if t[n as int] == 0 && at == n / 2 {
        let start = t.update(n as int, BUSY);
        let below = climb(start, n).1;
        lemma_covers_order(at, n);
        assert(n >= 2);
        if !claimed(start[(n / 2) as int]) {
            lemma_climb_ends_above(
                start.update((n / 2) as int, crate::model::announced(start[(n / 2) as int], n)),
                n / 2,
            );
        }
        assert(climb(start, n) == (start, n));
        assert(alive(t, at));
        assert(recorded(t, at));
        lemma_busy_word(n);
        let ub = level_of(n);
        assert(coalesce(start, n, ub) == start);
        assert(start.update(n as int, 0u8) =~= t);
        assert(unmark_walk(t, n, ub) == t);
        assert(release(start, n, ub) == t);
    }
}

/// Node `j` lies in the block of a claimed node.
pub open spec fn taken(t: Seq<u8>, j: nat) -> bool {
    exists|a: nat| alive(t, a) && covers(a, j)
}

/// A request of at most one smallest block is served as long as some leaf
/// lies in no claimed block.
pub proof fn law_small_request(st: State, size: nat)
    requires
        st.sound(),
        0 < size <= st.chunk,
    ensures
        st.alloc_step(size).1 != 0 <==> exists|j: nat|
            pow2(st.depth()) <= j < st.tree.len() && !taken(st.tree, j),
{
    let d = st.depth();
    let t = st.tree;
    lemma_pow2_pos(d);
    lemma_pow2_unfold(d + 1);
    assert(st.chunk <= st.region) by (nonlinear_arith)
        requires
            st.region == st.chunk * pow2(d),
            pow2(d) >= 1,
    ;
    law_served_level(st, size);
    lemma_alloc_step(st, size);
    lemma_busy_word(0);
    lemma_clear_word(0);
    assert forall|j: nat| pow2(d) <= j < t.len() implies (eligible(t, j) <==> !taken(t, j)) by {
        assert(covers(j, j));
        if eligible(t, j) {
            assert forall|a: nat| alive(t, a) implies !covers(a, j) by {}
        }
        if !taken(t, j) {
            assert(!alive(t, j));
            assert(t[j as int] == 0);
            assert forall|a: nat| #[trigger] covers(a, j) && a != j implies !claimed(
                t[a as int],
            ) by {
                lemma_covers_order(a, j);
                assert(!alive(t, a));
            }
        }
    }
    if st.alloc_step(size).1 != 0 {
        let node = st.alloc_step(size).1;
        lemma_level_bounds(node);
        assert(pow2(d) <= node < t.len() && !taken(t, node));
    }
    if exists|j: nat| pow2(d) <= j < t.len() && !taken(t, j) {
        let j = choose|j: nat| pow2(d) <= j < t.len() && !taken(t, j);
        assert(eligible(t, j));
        assert(st.can_serve(size));
    }
}

/// Neither child of node `p` lies in a claimed block.
pub open spec fn pair_free(t: Seq<u8>, p: nat) -> bool {
    !taken(t, 2 * p) && !taken(t, 2 * p + 1)
}

/// A request of more than one and at most two smallest blocks is served as
/// long as both leaves under some parent of leaves lie in no claimed block.
pub proof fn law_pair_request(st: State, size: nat)
    requires
        st.sound(),
        st.depth() >= 1,
        st.chunk < size <= 2 * st.chunk,
    ensures
        st.alloc_step(size).1 != 0 <==> exists|p: nat|
            pow2((st.depth() - 1) as nat) <= p < pow2(st.depth()) && pair_free(st.tree, p),
{
    let d = st.depth();
    let t = st.tree;
    let lo = pow2((d - 1) as nat);
    let hi = pow2(d);
    let c = st.chunk;
    lemma_pow2_pos((d - 1) as nat);
    lemma_pow2_unfold(d);
    lemma_pow2_unfold(d + 1);
    let q = st.region / size;
    assert(size <= st.region && lo <= q < hi) by (nonlinear_arith)
        requires
            st.region == c * hi,
            hi == 2 * lo,
            lo >= 1,
            c < size <= 2 * c,
            q == st.region / size,
    ;
    lemma_level_unique(q, (d - 1) as nat);
    assert(st.served_level(size) == d - 1);
    lemma_alloc_step(st, size);
    lemma_busy_word(0);
    lemma_clear_word(0);
    assert forall|p: nat| lo <= p < hi implies (eligible(t, p) <==> pair_free(t, p)) by {
        let left = 2 * p;
        let right = 2 * p + 1;
        assert(covers(p, p) && covers(left, left) && covers(right, right));
        assert(covers(p, left) && covers(p, right));
        assert(t[p as int] == BUSY || t[p as int] == pair_word(
            t[2 * p as int] == BUSY,
            t[2 * p as int + 1] == BUSY,
        ));
        assert(t[left as int] == 0 || t[left as int] == BUSY);
        assert(t[right as int] == 0 || t[right as int] == BUSY);
        if eligible(t, p) {
            assert forall|a: nat| alive(t, a) implies !covers(a, left) && !covers(a, right) by {
                if covers(a, left) && a != left {
                    assert(covers(a, p));
                }
                if covers(a, right) && a != right {
                    assert(covers(a, p));
                }
            }
        }
        if !taken(t, left) && !taken(t, right) {
            assert(!alive(t, p) && !alive(t, left) && !alive(t, right));
            assert(t[p as int] == 0);
            assert forall|a: nat| #[trigger] covers(a, p) && a != p implies !claimed(
                t[a as int],
            ) by {
                lemma_covers_order(a, p);
                crate::index::lemma_covers_trans(a, p, left);
                assert(!alive(t, a));
            }
        }
    }
    if st.alloc_step(size).1 != 0 {
        let node = st.alloc_step(size).1;
        lemma_level_bounds(node);
        assert(lo <= node < hi && pair_free(t, node));
    }
    if exists|p: nat| lo <= p < hi && pair_free(t, p) {
        let p = choose|p: nat| lo <= p < hi && pair_free(t, p);
        assert(eligible(t, p));
        assert(st.can_serve(size));
    }
}

/// The first `m` leaves are claimed and nothing else is, and the other
/// leaves are clear.
pub open spec fn packed(st: State, m: nat) -> bool {
    &&& st.sound()
    &&& m <= pow2(st.depth())
    &&& forall|d: nat| #[trigger]
        alive(st.tree, d) <==> pow2(st.depth()) <= d < pow2(st.depth()) + m
    &&& forall|j: int|
        pow2(st.depth()) + m <= j < st.tree.len() ==> #[trigger] st.tree[j] == 0
}

/// Requests of at most one smallest block fill the region from the left: the
/// request that finds the first `m` leaves claimed is served at offset
/// `m * chunk`, and it is refused once every leaf is claimed.
pub proof fn law_fill(st: State, m: nat, size: nat)
    requires
        packed(st, m),
        0 < size <= st.chunk,
    ensures
        m < pow2(st.depth()) ==> st.alloc_step(size).1 == pow2(st.depth()) + m && block_start(
            st.alloc_step(size).1,
            st.region,
        ) == m * st.chunk && packed(st.alloc_step(size).0, m + 1),
        m == pow2(st.depth()) ==> st.alloc_step(size).1 == 0,
{
    let d = st.depth();
    let from = pow2(d);
    let c = st.chunk;
    lemma_pow2_pos(d);
    lemma_pow2_unfold(d + 1);
    assert(c <= st.region) by (nonlinear_arith)
        requires
            st.region == c * from,
            from >= 1,
    ;
    law_served_level(st, size);
    lemma_alloc_step(st, size);
    let (after, node) = st.alloc_step(size);
    if node != 0 {
        lemma_level_bounds(node);
    }
    assert forall|j: nat| from <= j < from + m implies !#[trigger] eligible(st.tree, j) by {
        assert(alive(st.tree, j));
        lemma_busy_word(j);
        assert(recorded(st.tree, j));
    }
    if m < from {
        let next = from + m;
        assert(eligible(st.tree, next)) by {
            assert forall|a: nat| #[trigger] covers(a, next) && a != next implies !claimed(
                st.tree[a as int],
            ) by {
                lemma_covers_order(a, next);
                lemma_covers_level(a, next);
                lemma_level_unique(next, d);
                if alive(st.tree, a) {
                    lemma_level_unique(a, d);
                }
            }
        }
        assert(node == next);
        lemma_node_in_region(st, node);
        lemma_level_unique(node, d);
        assert(block_start(node, st.region) == m * c) by {
            assert((c * from) / from == c) by (nonlinear_arith)
                requires
                    from >= 1,
            ;
        }
        assert forall|x: nat| #[trigger] alive(after.tree, x) <==> from <= x < from + m + 1 by {
            if 1 <= x < st.tree.len() {
                assert(claimed(after.tree[x as int]) == claimed(
                    st.tree.update(node as int, BUSY)[x as int],
                ));
                lemma_busy_word(x);
                if x != node {
                    assert(alive(after.tree, x) == alive(st.tree, x));
                }
            }
        }
    } else {
        if node != 0 {
            assert(!eligible(st.tree, node));
        }
    }
}

/// The state after `m` requests of `size` bytes each.
pub open spec fn requests(st: State, size: nat, m: nat) -> State
    decreases m,
{
    if m == 0 {
        st
    } else {
        requests(st, size, (m - 1) as nat).alloc_step(size).0
    }
}

/// The state after the returns of the blocks at the offsets `ats`, in their
/// order.
pub open spec fn given_back(st: State, ats: Seq<nat>) -> State
    decreases ats.len(),
{
    if ats.len() == 0 {
        st
    } else {
        given_back(st.dealloc_step(ats[0]), ats.subrange(1, ats.len() as int))
    }
}

/// On a tree in which nothing is claimed and every leaf is clear, requests
/// of at most one smallest block succeed until every leaf is claimed: the
/// request after `m` of them is served at offset `m * chunk`, and the one
/// after as many as there are leaves is refused.
pub proof fn law_fill_all(st: State, size: nat, m: nat)
    requires
        packed(st, 0),
        0 < size <= st.chunk,
        m <= pow2(st.depth()),
    ensures
        packed(requests(st, size, m), m),
        requests(st, size, m).depth() == st.depth(),
        requests(st, size, m).region == st.region,
        requests(st, size, m).chunk == st.chunk,
        m < pow2(st.depth()) ==> requests(st, size, m).alloc_step(size).1 == pow2(st.depth())
            + m && block_start(requests(st, size, m).alloc_step(size).1, st.region) == m
            * st.chunk,
        m == pow2(st.depth()) ==> requests(st, size, m).alloc_step(size).1 == 0,
    decreases m,
{
    if m > 0 {
        law_fill_all(st, size, (m - 1) as nat);
        let before = requests(st, size, (m - 1) as nat);
        law_fill(before, (m - 1) as nat, size);
        lemma_alloc_step(before, size);
    }
    law_fill(requests(st, size, m), m, size);
}

/// Once the offset of every claimed block has occurred in a run of returns,
/// in whatever order and among whatever other offsets, no node is claimed.
pub proof fn law_all_returned(st: State, ats: Seq<nat>)
    requires
        st.sound(),
        forall|d: nat| #[trigger] alive(st.tree, d) ==> ats.contains(block_start(d, st.region)),
    ensures
        given_back(st, ats).sound(),
        given_back(st, ats).region == st.region,
        given_back(st, ats).chunk == st.chunk,
        given_back(st, ats).tree.len() == st.tree.len(),
        forall|d: nat| !alive(given_back(st, ats).tree, d),
    decreases ats.len(),
{
    if ats.len() == 0 {
        assert forall|d: nat| !alive(st.tree, d) by {
            if alive(st.tree, d) {
                assert(ats.contains(block_start(d, st.region)));
            }
        }
    } else {
        let at = ats[0];
        let next = st.dealloc_step(at);
        let rest = ats.subrange(1, ats.len() as int);
        lemma_dealloc_step(st, at);
        lemma_clear_word(0);
        assert forall|d: nat| #[trigger] alive(next.tree, d) implies rest.contains(
            block_start(d, next.region),
        ) by {
            let n = st.owner(at);
            if n != 0 {
                assert(claimed(next.tree[d as int]) == claimed(
                    st.tree.update(n as int, 0u8)[d as int],
                ));
            }
            assert(alive(st.tree, d));
            let off = block_start(d, st.region);
            assert(ats.contains(off));
            let k = choose|k: int| 0 <= k < ats.len() && ats[k] == off;
            if k == 0 {
                assert(st.owner(at) == d);
            }
            assert(rest[k - 1] == off);
        }
        law_all_returned(next, rest);
    }
}

/// A request is never served a block that meets a block claimed before.
pub proof fn law_served_apart(st: State, size: nat, d: nat)
    requires
        st.sound(),
        st.alloc_step(size).1 != 0,
        alive(st.tree, d),
    ensures
        block_start(st.alloc_step(size).1, st.region) + block_size(
            st.alloc_step(size).1,
            st.region,
        ) <= block_start(d, st.region) || block_start(d, st.region) + block_size(d, st.region)
            <= block_start(st.alloc_step(size).1, st.region),
{
    let (after, node) = st.alloc_step(size);
    lemma_alloc_step(st, size);
    law_served_block(st, size);
    assert(claimed(after.tree[d as int]) == claimed(st.tree.update(node as int, BUSY)[d as int]));
    lemma_busy_word(d);
    assert(alive(after.tree, d));
    law_claimed_blocks_apart(after, node, d);
}

} // verus!
