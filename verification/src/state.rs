//! What an allocator holds, as plain values, and the two operations on it.

use crate::consistency::{
    alive, consistent, eligible, lemma_release, lemma_scan, recorded, releasable, same_claims,
};
use crate::index::{
    block_size, block_start, covers, lemma_block_aligned, lemma_block_within,
    lemma_covers_level, lemma_level_bounds, lemma_level_unique, level_of,
};
use crate::model::{release, scan};
use crate::region::{lemma_block_units, lemma_blocks_apart, lemma_level_within, tiled};
use crate::consistency::{bare, lemma_scan_parents, parent_after, tidy};
use crate::tags::{
    claimed, has_coal, has_occ, lemma_busy_word, lemma_clear_word, lemma_pair_words, pair_word,
    BUSY,
};
use vstd::arithmetic::power2::{
    lemma_pow2_pos, lemma_pow2_strictly_increases, lemma_pow2_unfold, pow2,
};
use vstd::prelude::*;

verus! {

/// The region, the tree of status bytes and the two bookkeeping tables.
pub struct State {
    /// The size of the region in bytes.
    pub region: nat,
    /// The size of a smallest block in bytes.
    pub chunk: nat,
    /// The status byte of each node; entry 0 belongs to no node.
    pub tree: Seq<u8>,
    /// For each smallest block, the node that was claimed at its offset.
    pub index: Seq<usize>,
    /// For each node, the size that was asked for when it was claimed.
    pub reservation: Seq<usize>,
}

impl State {
    /// The level of the leaves.
    pub open spec fn depth(self) -> nat {
        (level_of(self.tree.len()) - 1) as nat
    }

    /// The entry of the first table that belongs to the block of node `d`.
    pub open spec fn slot_of(self, d: nat) -> int {
        (block_start(d, self.region) / self.chunk) as int
    }

    /// The tables know the claimed node `d`: the entry of its offset names
    /// it, and the size noted for it fits its block.
    pub open spec fn kept(self, d: nat) -> bool {
        &&& self.index[self.slot_of(d)] == d
        &&& 1 <= self.reservation[d as int] <= block_size(d, self.region)
    }

    /// The word of a leaf is zero unless the leaf is claimed.
    pub open spec fn leaves_exact(self) -> bool {
        forall|j: int|
            pow2(self.depth()) <= j < self.tree.len() ==> #[trigger] self.tree[j] == 0
                || self.tree[j] == BUSY
    }

    /// The word of an unclaimed parent of two leaves shows which of them are
    /// claimed, and nothing else.
    pub open spec fn parents_exact(self) -> bool {
        forall|p: int|
            self.depth() >= 1 && pow2((self.depth() - 1) as nat) <= p < pow2(self.depth())
                ==> #[trigger] self.tree[p] == BUSY || self.tree[p] == pair_word(
                self.tree[2 * p] == BUSY,
                self.tree[2 * p + 1] == BUSY,
            )
    }

    /// The tree is complete and tiles the region, every claimed node is
    /// recorded in the tree and known to the tables, and the words of the
    /// two deepest levels show the claims of the leaves and nothing else.
    pub open spec fn sound(self) -> bool {
        &&& self.leaves_exact()
        &&& self.parents_exact()
        &&& self.tree.len() == pow2(self.depth() + 1)
        &&& self.tree.len() <= usize::MAX
        &&& self.region <= usize::MAX
        &&& tiled(self.region, self.depth(), self.chunk)
        &&& self.index.len() == self.tree.len()
        &&& self.reservation.len() == self.tree.len()
        &&& consistent(self.tree)
        &&& forall|d: nat| #[trigger] alive(self.tree, d) ==> self.kept(d)
    }

    /// The level that serves a request of `size` bytes: the deepest one whose
    /// blocks are large enough.
    pub open spec fn served_level(self, size: nat) -> nat {
        let fit = level_of(self.region / size);
        if fit < self.depth() {
            fit
        } else {
            self.depth()
        }
    }

    /// Some node of the level that serves a request of `size` bytes is
    /// eligible.
    pub open spec fn can_serve(self, size: nat) -> bool {
        exists|j: nat|
            pow2(self.served_level(size)) <= j < pow2(self.served_level(size) + 1) && eligible(
                self.tree,
                j,
            )
    }

    /// A request for `size` bytes: the state afterwards and the node that was
    /// claimed for it (0 where the request was refused).
    pub open spec fn alloc_step(self, size: nat) -> (State, nat) {
        if size == 0 || size > self.region {
            (self, 0)
        } else {
            let l = self.served_level(size);
            let (tree, node) = scan(self.tree, pow2(l), pow2(l + 1));
            if node == 0 {
                (State { tree, ..self }, 0)
            } else {
                (
                    State {
                        tree,
                        index: self.index.update(self.slot_of(node), node as usize),
                        reservation: self.reservation.update(node as int, size as usize),
                        ..self
                    },
                    node,
                )
            }
        }
    }

    /// The claimed node whose block starts at offset `at` according to the
    /// first table (0 where the table names none).
    pub open spec fn owner(self, at: nat) -> nat {
        let n = self.index[(at / self.chunk) as int] as nat;
        if at < self.region && 1 <= n < self.tree.len() && claimed(self.tree[n as int])
            && block_start(n, self.region) == at {
            n
        } else {
            0
        }
    }

    /// The return of the block at offset `at`: the state afterwards. Nothing
    /// changes unless a claimed block starts there.
    pub open spec fn dealloc_step(self, at: nat) -> State {
        let n = self.owner(at);
        if n == 0 {
            self
        } else {
            State { tree: release(self.tree, n, 0), ..self }
        }
    }
}

/// Of two claimed nodes neither covers the other.
pub proof fn lemma_claims_apart(t: Seq<u8>, a: nat, b: nat)
    requires
        consistent(t),
        alive(t, a),
        alive(t, b),
        a != b,
    ensures
        !covers(a, b),
        !covers(b, a),
{
    assert(recorded(t, a) && recorded(t, b));
}

/// Every node of a sound state lies at the level of the leaves or above it,
/// and its block lies within the region and starts at a multiple of the
/// smallest block.
pub proof fn lemma_node_in_region(st: State, n: nat)
    requires
        st.sound(),
        1 <= n < st.tree.len(),
    ensures
        level_of(n) <= st.depth(),
        block_start(n, st.region) + block_size(n, st.region) <= st.region,
        block_size(n, st.region) >= st.chunk,
        0 <= st.slot_of(n) < st.tree.len(),
{
    lemma_level_within(n, st.depth());
    lemma_block_within(n, st.region);
    lemma_block_units(n, st.region, st.depth(), st.chunk);
    lemma_pow2_pos((st.depth() - level_of(n)) as nat);
    lemma_pow2_unfold(st.depth() + 1);
    let s = crate::region::slots(n, st.depth());
    let c = st.chunk;
    assert(s * c >= c) by (nonlinear_arith)
        requires
            s >= 1,
    ;
}

/// In a sound state the level of the leaves is tidy.
pub proof fn lemma_leaves_tidy(st: State)
    requires
        st.sound(),
        st.depth() >= 1,
    ensures
        tidy(st.tree, st.depth()),
{
    let d = st.depth();
    let t = st.tree;
    lemma_pow2_unfold(d);
    lemma_pow2_unfold(d + 1);
    lemma_busy_word(0);
    assert forall|j: nat| #[trigger] bare(t, j) && pow2(d) <= j < pow2(d + 1) implies !has_occ(
        t[(j / 2) as int],
        j,
    ) && !has_coal(t[(j / 2) as int], j) by {
        let p = (j / 2) as int;
        assert(pow2((d - 1) as nat) <= p < pow2(d));
        assert(t[p] == BUSY || t[p] == pair_word(t[2 * p] == BUSY, t[2 * p + 1] == BUSY));
        lemma_pair_words(t[2 * p] == BUSY, t[2 * p + 1] == BUSY, j);
    }
}

/// A request leaves the words of the parents of the leaves exact.
pub proof fn lemma_parents_after_request(st: State, size: nat)
    requires
        st.sound(),
        0 < size <= st.region,
    ensures
        st.alloc_step(size).0.parents_exact(),
        st.alloc_step(size).0.leaves_exact(),
{
    let depth = st.depth();
    let l = st.served_level(size);
    let from = pow2(l);
    let until = pow2(l + 1);
    let t = st.tree;
    lemma_pow2_pos(l);
    lemma_pow2_unfold(l + 1);
    lemma_pow2_unfold(depth + 1);
    if l < depth {
        lemma_pow2_strictly_increases(l + 1, depth + 1);
        lemma_pow2_strictly_increases(l, depth);
    }
    lemma_scan(t, from, until, l);
    let (tree, node) = scan(t, from, until);
    let after = st.alloc_step(size).0;
    assert(after.tree == tree);
    assert(after.depth() == depth);
    lemma_busy_word(0);
    lemma_clear_word(0);
    if node != 0 {
        lemma_level_unique(node, l);
    }
    if depth >= 1 {
        let lo = pow2((depth - 1) as nat);
        let hi = pow2(depth);
        lemma_pow2_unfold(depth);
        lemma_pow2_pos((depth - 1) as nat);
        if l == depth {
            lemma_leaves_tidy(st);
            lemma_scan_parents(t, from, until, l);
        } else if l + 1 < depth {
            lemma_pow2_strictly_increases(l, (depth - 1) as nat);
        }
        assert forall|p: int| lo <= p < hi implies #[trigger] tree[p] == BUSY || tree[p]
            == pair_word(tree[2 * p] == BUSY, tree[2 * p + 1] == BUSY) by {
            assert(t[p] == BUSY || t[p] == pair_word(t[2 * p] == BUSY, t[2 * p + 1] == BUSY));
            if l == depth {
                if node != 0 && p == node / 2 {
                    assert(covers(p as nat, node)) by {
                        assert(covers(node, node));
                        assert(covers(p as nat, p as nat));
                    }
                    assert(!claimed(t[p]));
                    lemma_pair_words(t[2 * p] == BUSY, t[2 * p + 1] == BUSY, node);
                    assert(tree[p] == parent_after(t, node, p));
                    let buddy = if node % 2 == 0 {
                        node + 1
                    } else {
                        (node - 1) as nat
                    };
                    assert(tree[buddy as int] == t[buddy as int]);
                } else {
                    assert(tree[p] == t[p]);
                    assert(tree[2 * p] == t[2 * p]);
                    assert(tree[2 * p + 1] == t[2 * p + 1]);
                }
            } else {
                if p != node {
                    assert(tree[p] == t[p]);
                }
                assert(tree[2 * p] == t[2 * p]);
                assert(tree[2 * p + 1] == t[2 * p + 1]);
            }
        }
    }
    assert forall|j: int| pow2(depth) <= j < tree.len() implies #[trigger] tree[j] == 0 || tree[j]
        == BUSY by {
        if j != node {
            assert(tree[j] == t[j]);
        }
    }
}

/// A request leaves a sound state. It is refused where the size is zero or
/// exceeds the region, and where no node of the serving level is eligible;
/// otherwise the first eligible node of that level is claimed, and its block
/// holds the size that was asked for.
pub proof fn lemma_alloc_step(st: State, size: nat)
    requires
        st.sound(),
    ensures
        st.alloc_step(size).0.sound(),
        st.alloc_step(size).0.region == st.region,
        st.alloc_step(size).0.chunk == st.chunk,
        st.alloc_step(size).0.tree.len() == st.tree.len(),
        size == 0 || size > st.region ==> st.alloc_step(size) == (st, 0nat),
        0 < size <= st.region ==> (st.alloc_step(size).1 != 0 <==> st.can_serve(size)),
        0 < size <= st.region ==> forall|j: int|
            pow2(st.served_level(size)) <= j < st.tree.len() && j != st.alloc_step(size).1
                ==> #[trigger] st.alloc_step(size).0.tree[j] == st.tree[j],
        0 < size <= st.region && st.alloc_step(size).1 == 0 ==> same_claims(
            st.tree,
            st.alloc_step(size).0.tree,
        ) && forall|j: nat|
            pow2(st.served_level(size)) <= j < pow2(st.served_level(size) + 1)
                ==> !#[trigger] eligible(st.tree, j),
        st.alloc_step(size).1 != 0 ==> {
            let node = st.alloc_step(size).1;
            &&& 0 < size <= st.region
            &&& 1 <= node < st.tree.len()
            &&& level_of(node) == st.served_level(size)
            &&& eligible(st.tree, node)
            &&& forall|j: nat|
                pow2(st.served_level(size)) <= j < node ==> !#[trigger] eligible(st.tree, j)
            &&& same_claims(st.tree.update(node as int, BUSY), st.alloc_step(size).0.tree)
            &&& st.alloc_step(size).0.tree[node as int] == BUSY
            &&& size <= block_size(node, st.region)
            &&& block_start(node, st.region) + size <= st.region
            &&& block_start(node, st.region) % block_size(node, st.region) == 0
        },
{
    if size == 0 || size > st.region {
    } else {
        let depth = st.depth();
        let l = st.served_level(size);
        let fit = level_of(st.region / size);
        let from = pow2(l);
        let until = pow2(l + 1);
        lemma_pow2_pos(l);
        lemma_pow2_unfold(l + 1);
        if l < depth {
            lemma_pow2_strictly_increases(l + 1, depth + 1);
        }
        lemma_scan(st.tree, from, until, l);
        let (tree, node) = scan(st.tree, from, until);
        let after = st.alloc_step(size).0;
        lemma_parents_after_request(st, size);
        if l < depth {
            lemma_pow2_strictly_increases(l, depth);
        }
        assert(from <= pow2(depth));
        if node == 0 {
            assert forall|d: nat| #[trigger] alive(after.tree, d) implies after.kept(d) by {
                assert(alive(st.tree, d));
            }
        } else {
            lemma_level_unique(node, l);
            lemma_node_in_region(st, node);
            lemma_busy_word(node);
            assert(from <= node < until && eligible(st.tree, node));
            assert(st.can_serve(size));
            assert(size <= block_size(node, st.region)) by {
                let q = st.region / size;
                assert(q >= 1) by (nonlinear_arith)
                    requires
                        q == st.region / size,
                        0 < size <= st.region,
                ;
                lemma_level_bounds(q);
                if l < fit {
                    lemma_pow2_strictly_increases(l, fit);
                }
                let p = pow2(l);
                assert(p <= q);
                assert(size * p <= st.region) by (nonlinear_arith)
                    requires
                        p <= q,
                        q == st.region / size,
                        size > 0,
                ;
                assert(size <= st.region / p) by (nonlinear_arith)
                    requires
                        size * p <= st.region,
                        p > 0,
                ;
            }
            lemma_block_aligned(node, st.region);
            assert(alive(after.tree, node));
            assert forall|d: nat| #[trigger] alive(after.tree, d) implies after.kept(d) by {
                if d != node {
                    assert(alive(st.tree, d));
                    lemma_claims_apart(after.tree, d, node);
                    lemma_node_in_region(st, d);
                    lemma_blocks_apart(d, node, st.region, depth, st.chunk);
                    lemma_block_units(d, st.region, depth, st.chunk);
                    lemma_block_units(node, st.region, depth, st.chunk);
                    lemma_pow2_pos((depth - level_of(d)) as nat);
                    lemma_pow2_pos((depth - level_of(node)) as nat);
                    assert(st.slot_of(d) != st.slot_of(node));
                }
            }
        }
    }
}

/// The return of a block leaves a sound state. Where a claimed block starts
/// at the offset, its node is the owner and is released, and nothing else
/// changes its claim.
pub proof fn lemma_dealloc_step(st: State, at: nat)
    requires
        st.sound(),
    ensures
        st.dealloc_step(at).sound(),
        st.dealloc_step(at).region == st.region,
        st.dealloc_step(at).chunk == st.chunk,
        st.dealloc_step(at).tree.len() == st.tree.len(),
        forall|d: nat| #[trigger]
            alive(st.tree, d) && block_start(d, st.region) == at ==> st.owner(at) == d,
        st.owner(at) == 0 ==> st.dealloc_step(at) == st,
        st.owner(at) != 0 ==> alive(st.tree, st.owner(at)) && block_start(
            st.owner(at),
            st.region,
        ) == at && st.dealloc_step(at).tree[st.owner(at) as int] == 0 && same_claims(
            st.tree.update(st.owner(at) as int, 0u8),
            st.dealloc_step(at).tree,
        ),
{
    assert forall|d: nat| #[trigger]
        alive(st.tree, d) && block_start(d, st.region) == at implies st.owner(at) == d by {
        assert(st.kept(d));
        lemma_node_in_region(st, d);
    }
    let n = st.owner(at);
    if n != 0 {
        assert(alive(st.tree, n));
        assert(releasable(st.tree, n, 0)) by {
            assert(recorded(st.tree, n));
            assert forall|d: nat| #[trigger] alive(st.tree, d) && d != n implies !covers(n, d) by {
                lemma_claims_apart(st.tree, n, d);
            }
        }
        lemma_release(st.tree, n, 0);
        let after = st.dealloc_step(at);
        assert forall|d: nat| #[trigger] alive(after.tree, d) implies after.kept(d) by {
            assert(alive(st.tree, d));
        }
        lemma_pow2_unfold(st.depth() + 1);
        lemma_node_in_region(st, n);
        assert forall|j: int| pow2(st.depth()) <= j < st.tree.len() implies #[trigger] after.tree[j]
            == 0 || after.tree[j] == BUSY by {
            lemma_level_unique(j as nat, st.depth());
            if covers(j as nat, n) {
                lemma_covers_level(j as nat, n);
            }
            assert(after.tree[j] == st.tree.update(n as int, 0u8)[j]);
        }
        let depth = st.depth();
        let t = st.tree;
        let r = after.tree;
        lemma_busy_word(0);
        if depth >= 1 {
            let lo = pow2((depth - 1) as nat);
            let hi = pow2(depth);
            lemma_pow2_unfold(depth);
            lemma_pow2_pos((depth - 1) as nat);
            assert forall|p: int| lo <= p < hi implies #[trigger] r[p] == BUSY || r[p]
                == pair_word(r[2 * p] == BUSY, r[2 * p + 1] == BUSY) by {
                assert(t[p] == BUSY || t[p] == pair_word(t[2 * p] == BUSY, t[2 * p + 1] == BUSY));
                lemma_level_unique(p as nat, (depth - 1) as nat);
                lemma_level_unique((2 * p) as nat, depth);
                lemma_level_unique((2 * p + 1) as nat, depth);
                let cleared = t.update(n as int, 0u8);
                if covers((2 * p) as nat, n) {
                    lemma_covers_level((2 * p) as nat, n);
                }
                if covers((2 * p + 1) as nat, n) {
                    lemma_covers_level((2 * p + 1) as nat, n);
                }
                assert(r[2 * p] == cleared[2 * p]);
                assert(r[2 * p + 1] == cleared[2 * p + 1]);
                if n / 2 == p {
                    assert(covers(p as nat, n)) by {
                        assert(covers(n, n));
                        assert(covers(p as nat, p as nat));
                    }
                    assert(!claimed(t[p]));
                    lemma_pair_words(t[2 * p] == BUSY, t[2 * p + 1] == BUSY, n);
                } else if p == n {
                    if t[2 * p] == BUSY {
                        assert(alive(t, (2 * p) as nat));
                        lemma_claims_apart(t, n, (2 * p) as nat);
                        assert(covers(n, (2 * p) as nat)) by {
                            assert(covers(n, n));
                        }
                    }
                    if t[2 * p + 1] == BUSY {
                        assert(alive(t, (2 * p + 1) as nat));
                        lemma_claims_apart(t, n, (2 * p + 1) as nat);
                        assert(covers(n, (2 * p + 1) as nat)) by {
                            assert(covers(n, n));
                        }
                    }
                } else {
                    if covers(p as nat, n) {
                        lemma_covers_level(p as nat, n / 2);
                        lemma_covers_level(p as nat, n);
                    }
                    assert(r[p] == cleared[p]);
                }
            }
        }
    }
}

} // verus!
