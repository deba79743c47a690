//! The allocator: the tree of status bytes and the two bookkeeping tables.

use crate::consistency::{
    alive, attempt_kept, consistent, lemma_release, lemma_try_claim, lemma_unmark_walk, releasable,
    same_claims,
};
use crate::index::{
    block_size, block_start, lchild, lemma_block_within, lemma_covers_level, lemma_covers_order,
    lemma_level_unique, lemma_span, lemma_span_end, level, level_of, parent, pow2_of, starting,
};
use crate::model::{announced, climb, coalesce, release, scan, try_claim, unmark_walk};
use crate::state::{lemma_alloc_step, lemma_dealloc_step, lemma_node_in_region, State};
use crate::tags::{
    claimed, has_coal, lemma_clear_word, side_coal, without_marks, AllocTags, BUSY, COAL_RIGHT,
    OCC,
};
use vstd::arithmetic::power2::{
    lemma_pow2_adds, lemma_pow2_pos, lemma_pow2_strictly_increases, lemma_pow2_unfold, pow2,
};
use vstd::prelude::*;

verus! {

/// The number of table entries for a region of `size` bytes cut into
/// smallest blocks of `smallest_chunk` bytes: one more than the tree has
/// nodes.
pub fn nnodes(size: usize, smallest_chunk: usize) -> (r: usize)
    requires
        smallest_chunk > 0,
        2 * (size as nat / smallest_chunk as nat) <= usize::MAX,
    ensures
        r == 2 * (size as nat / smallest_chunk as nat),
{
    2 * (size / smallest_chunk)
}

/// A buddy allocator for a region of `S` bytes with a tree of `N - 1` nodes.
pub struct NBBuddyAllocator<const S: usize, const N: usize> {
    smallest_chunk: usize,
    tree: Vec<u8>,
    index: Vec<usize>,
    reservation: Vec<usize>,
}

impl<const S: usize, const N: usize> View for NBBuddyAllocator<S, N> {
    type V = State;

    closed spec fn view(&self) -> State {
        State {
            region: S as nat,
            chunk: self.smallest_chunk as nat,
            tree: self.tree@,
            index: self.index@,
            reservation: self.reservation@,
        }
    }
}

impl<const S: usize, const N: usize> NBBuddyAllocator<S, N> {
    /// The tables have one entry per node, and the entry that belongs to no
    /// node is clear.
    pub open spec fn shaped(&self) -> bool {
        &&& N >= 2
        &&& self@.tree.len() == N
        &&& self@.index.len() == N
        &&& self@.reservation.len() == N
        &&& self@.tree[0] == 0
    }

    /// The parameters describe a region and a tree: both are powers of two,
    /// and the tree has at least one node and at most one leaf per byte.
    pub open spec fn valid_geometry() -> bool {
        &&& N >= 2
        &&& N == pow2(level_of(N as nat))
        &&& S == pow2(level_of(S as nat))
        &&& N / 2 <= S
    }

    /// The allocator manages `S` bytes with a tree of `N - 1` nodes, and its
    /// state is sound.
    pub open spec fn wf(&self) -> bool {
        &&& self@.sound()
        &&& self@.region == S
        &&& self@.tree.len() == N
    }

    /// An allocator with no block claimed: every word and every table entry
    /// is zero.
    pub fn new() -> (r: Self)
        requires
            Self::valid_geometry(),
        ensures
            r.wf(),
            r@.chunk == S as nat / (N as nat / 2),
            r@.tree == Seq::new(N as nat, |i: int| 0u8),
            r@.index == Seq::new(N as nat, |i: int| 0usize),
            r@.reservation == Seq::new(N as nat, |i: int| 0usize),
    {
        proof {
            lemma_geometry(S as nat, N as nat);
            lemma_pow2_unfold(level_of(N as nat));
            lemma_level_unique((N + 1) as nat, level_of(N as nat));
        }
        let leaves = pow2_of(level(N + 1) - 1);
        let a = NBBuddyAllocator {
            smallest_chunk: S / leaves,
            tree: vec![0u8; N],
            index: vec![0usize; N],
            reservation: vec![0usize; N],
        };
        proof {
            assert(a@.tree =~= Seq::new(N as nat, |i: int| 0u8));
            assert(a@.index =~= Seq::new(N as nat, |i: int| 0usize));
            assert(a@.reservation =~= Seq::new(N as nat, |i: int| 0usize));
            lemma_clear_word(0);
        }
        a
    }

    /// The level of the leaves.
    pub fn depth(&self) -> (r: usize)
        requires
            self.wf(),
        ensures
            r == self@.depth(),
    {
        proof {
            let d = self@.depth();
            let c = self@.chunk;
            lemma_pow2_pos(d);
            lemma_pow2_unfold(d + 1);
            assert((c * pow2(d)) / c == pow2(d)) by (nonlinear_arith)
                requires
                    c >= 1,
            ;
            lemma_level_unique(pow2(d), d);
        }
        level(S / self.smallest_chunk)
    }

    /// The status byte of node `n`.
    pub fn word(&self, n: usize) -> (r: u8)
        requires
            n < self@.tree.len(),
        ensures
            r == self@.tree[n as int],
    {
        self.tree[n]
    }

    /// Whether every status byte is zero.
    pub fn is_clear(&self) -> (r: bool)
        ensures
            r == forall|i: int| 0 <= i < self@.tree.len() ==> self@.tree[i] == 0,
    {
        let mut i: usize = 0;
        while i < self.tree.len()
            invariant
                i <= self.tree.len(),
                forall|j: int| 0 <= j < i ==> self@.tree[j] == 0,
            decreases self.tree.len() - i,
        {
            if self.tree[i] != 0 {
                assert(self@.tree[i as int] != 0);
                return false;
            }
            i += 1;
        }
        true
    }

    /// Serves a request for `size` bytes: the offset of the block within the
    /// region, or `None` where the request is refused. The block belongs to
    /// the first eligible node of the deepest level whose blocks are large
    /// enough.
    pub fn allocate(&mut self, size: usize) -> (r: Option<usize>)
        requires
            old(self).wf(),
        ensures
            final(self).wf(),
            final(self)@ == old(self)@.alloc_step(size as nat).0,
            r == (if old(self)@.alloc_step(size as nat).1 == 0 {
                None::<usize>
            } else {
                Some(block_start(old(self)@.alloc_step(size as nat).1, S as nat) as usize)
            }),
            size == 0 || size > S ==> r.is_none() && final(self)@ == old(self)@,
            0 < size <= S ==> (r.is_some() <==> old(self)@.can_serve(size as nat)),
            r matches Some(at) ==> at + size <= S && at as nat % block_size(
                old(self)@.alloc_step(size as nat).1,
                S as nat,
            ) == 0 && size <= block_size(old(self)@.alloc_step(size as nat).1, S as nat),
    {
        proof {
            lemma_alloc_step(self@, size as nat);
        }
        if size > S || size == 0 {
            return None;
        }
        let depth = self.depth();
        assert(S / size >= 1) by (nonlinear_arith)
            requires
                0 < size <= S,
        ;
        let fit = level(S / size);
        let req_level = if fit < depth {
            fit
        } else {
            depth
        };
        proof {
            lemma_pow2_pos(req_level as nat);
            lemma_pow2_unfold(req_level as nat + 1);
            if req_level < depth {
                lemma_pow2_strictly_increases(req_level as nat + 1, depth as nat + 1);
            }
            crate::index::lemma_level_small(N);
            lemma_level_unique(N as nat, depth as nat + 1);
        }
        let start_from = pow2_of(req_level);
        let until_to = pow2_of(req_level + 1);
        let ghost goal = scan(self@.tree, start_from as nat, until_to as nat);
        let mut i = start_from;
        while i < until_to
            invariant
                self.shaped(),
                consistent(self@.tree),
                old(self).wf(),
                0 < size <= S,
                start_from == pow2(req_level as nat),
                until_to == pow2(req_level as nat + 1),
                req_level == old(self)@.served_level(size as nat),
                start_from <= i <= until_to <= N,
                scan(self@.tree, i as nat, until_to as nat) == goal,
                goal == scan(old(self)@.tree, start_from as nat, until_to as nat),
                self@.index == old(self)@.index,
                self@.reservation == old(self)@.reservation,
                self@.chunk == old(self)@.chunk,
                old(self)@.alloc_step(size as nat).0.sound(),
                old(self)@.alloc_step(size as nat).1 != 0 <==> old(self)@.can_serve(size as nat),
                old(self)@.alloc_step(size as nat).1 != 0 ==> block_start(
                    old(self)@.alloc_step(size as nat).1,
                    S as nat,
                ) + size <= S && block_start(old(self)@.alloc_step(size as nat).1, S as nat)
                    % block_size(old(self)@.alloc_step(size as nat).1, S as nat) == 0 && size
                    <= block_size(old(self)@.alloc_step(size as nat).1, S as nat),
            decreases until_to - i,
        {
            if AllocTags::is_free(self.tree[i]) {
                let ghost before = self@.tree;
                proof {
                    lemma_try_claim(before, i as nat);
                    lemma_pow2_unfold(req_level as nat + 1);
                    lemma_level_unique(i as nat, req_level as nat);
                }
                let result = self.try_alloc(i);
                match result {
                    Err(failed_at) => {
                        proof {
                            lemma_covers_order(failed_at as nat, i as nat);
                            lemma_covers_level(failed_at as nat, i as nat);
                            lemma_span(failed_at as nat, i as nat);
                            lemma_span_end(
                                failed_at as nat,
                                (level_of(i as nat) - level_of(failed_at as nat)) as nat,
                            );
                            lemma_pow2_pos(
                                (level_of(i as nat) - level_of(failed_at as nat)) as nat,
                            );
                            let q = pow2((level_of(i as nat) - level_of(failed_at as nat)) as nat);
                            assert(q <= (failed_at + 1) * q) by (nonlinear_arith)
                                requires
                                    q >= 1,
                            ;
                        }
                        let d = pow2_of(level(i) - level(failed_at));
                        i = (failed_at + 1) * d;
                        i -= 1;
                    },
                    Ok(()) => {
                        proof {
                            lemma_node_in_region(old(self)@, i as nat);
                            lemma_block_within(i as nat, S as nat);
                        }
                        let at = starting(i, 0, S);
                        self.index.set(at / self.smallest_chunk, i);
                        self.reservation.set(i, size);
                        return Some(at);
                    },
                }
            }
            i += 1;
        }
        None
    }

    /// Takes back the block at offset `at`. Nothing happens unless a claimed
    /// block starts there.
    pub fn dealloc(&mut self, at: usize)
        requires
            old(self).wf(),
        ensures
            final(self).wf(),
            final(self)@ == old(self)@.dealloc_step(at as nat),
            forall|d: nat| #[trigger]
                alive(old(self)@.tree, d) && block_start(d, S as nat) == at ==> old(self)@.owner(
                    at as nat,
                ) == d && !alive(final(self)@.tree, d),
            old(self)@.owner(at as nat) == 0 ==> final(self)@ == old(self)@,
    {
        proof {
            lemma_dealloc_step(self@, at as nat);
            lemma_clear_word(0);
        }
        if at >= S {
            return ;
        }
        proof {
            let c = self@.chunk;
            let p = pow2(self@.depth());
            lemma_pow2_unfold(self@.depth() + 1);
            assert(at as nat / c < p) by (nonlinear_arith)
                requires
                    at < c * p,
                    c >= 1,
            ;
        }
        let n = self.index[at / self.smallest_chunk];
        if n == 0 || n >= N {
            return ;
        }
        if self.tree[n] & OCC == 0 {
            return ;
        }
        proof {
            lemma_block_within(n as nat, S as nat);
        }
        if starting(n, 0, S) != at {
            return ;
        }
        self.free_node(n, 0);
    }

    /// Replaces the word of node `i` by `new_val` if it is `cur_val`, and
    /// returns the word that it found: in `Ok` where it was replaced.
    pub fn cas_tree_value(&mut self, i: usize, cur_val: u8, new_val: u8) -> (r: Result<u8, u8>)
        requires
            i < old(self)@.tree.len(),
        ensures
            old(self)@.tree[i as int] == cur_val ==> r == Ok::<u8, u8>(cur_val) && final(self)@
                == (State { tree: old(self)@.tree.update(i as int, new_val), ..old(self)@ }),
            old(self)@.tree[i as int] != cur_val ==> r == Err::<u8, u8>(old(self)@.tree[i as int])
                && final(self)@ == old(self)@,
    {
        let found = self.tree[i];
        if found == cur_val {
            self.tree.set(i, new_val);
            Ok(found)
        } else {
            Err(found)
        }
    }

    /// Sets the bits of `val` in the word of node `i` and returns the word
    /// that it found.
    fn fetch_or(&mut self, i: usize, val: u8) -> (found: u8)
        requires
            i < old(self)@.tree.len(),
        ensures
            found == old(self)@.tree[i as int],
            final(self)@ == (State {
                tree: old(self)@.tree.update(i as int, found | val),
                ..old(self)@
            }),
    {
        let found = self.tree[i];
        self.tree.set(i, found | val);
        found
    }

    /// The second walk of a release from node `n`.
    pub fn unmark(&mut self, n: usize, upper_bound: usize)
        requires
            old(self).shaped(),
            1 <= n < N,
        ensures
            final(self).shaped(),
            final(self)@ == (State {
                tree: unmark_walk(old(self)@.tree, n as nat, upper_bound as nat),
                ..old(self)@
            }),
            consistent(old(self)@.tree) ==> consistent(final(self)@.tree) && same_claims(
                old(self)@.tree,
                final(self)@.tree,
            ),
    {
        proof {
            if consistent(self@.tree) {
                lemma_unmark_walk(self@.tree, n as nat, upper_bound as nat);
            }
        }
        let ghost goal = unmark_walk(self@.tree, n as nat, upper_bound as nat);
        let mut current = n;
        loop
            invariant_except_break
                unmark_walk(self@.tree, current as nat, upper_bound as nat) == goal,
            invariant
                self.shaped(),
                1 <= current < N,
                goal == unmark_walk(old(self)@.tree, n as nat, upper_bound as nat),
                consistent(old(self)@.tree) ==> consistent(goal) && same_claims(
                    old(self)@.tree,
                    goal,
                ),
                self@.index == old(self)@.index,
                self@.reservation == old(self)@.reservation,
                self@.chunk == old(self)@.chunk,
            ensures
                self@ == (State { tree: goal, ..old(self)@ }),
            decreases current,
        {
            let child = current;
            current = parent(current);
            let ghost before = self@.tree;
            let mut new_val: u8 = 0;
            loop
                invariant_except_break
                    self@.tree == before,
                    self.shaped(),
                invariant
                    current == child / 2,
                    1 <= child < N,
                    unmark_walk(before, child as nat, upper_bound as nat) == goal,
                    goal == unmark_walk(old(self)@.tree, n as nat, upper_bound as nat),
                    consistent(old(self)@.tree) ==> consistent(goal) && same_claims(
                        old(self)@.tree,
                        goal,
                    ),
                    before.len() == N,
                    before[0] == 0,
                    self@.index == old(self)@.index,
                    self@.reservation == old(self)@.reservation,
                self@.chunk == old(self)@.chunk,
                ensures
                    self.shaped(),
                    current >= 1,
                    has_coal(before[current as int], child as nat),
                    new_val == without_marks(before[current as int], child as nat),
                    self@ == (State { tree: before.update(current as int, new_val), ..old(self)@ }),
                decreases 0nat,
            {
                let cur_val = self.tree[current];
                if !AllocTags::is_coal(cur_val, child) {
                    return ;
                }
                proof {
                    lemma_clear_word(child as nat);
                }
                new_val = AllocTags::unmark(cur_val, child);
                if self.cas_tree_value(current, cur_val, new_val).is_ok() {
                    break ;
                }
            }
            if level(current) > upper_bound && !AllocTags::is_occ_buddy(new_val, child) {
                break ;
            }
        }
    }

    /// Releases node `n`: the climb that raises the coalescing flag, not above
    /// level `upper_bound`, the clearing of the node's word, and the second
    /// walk.
    pub fn free_node(&mut self, n: usize, upper_bound: usize)
        requires
            old(self).shaped(),
            1 <= n < N,
        ensures
            final(self).shaped(),
            final(self)@ == (State {
                tree: release(old(self)@.tree, n as nat, upper_bound as nat),
                ..old(self)@
            }),
            releasable(old(self)@.tree, n as nat, upper_bound as nat) ==> consistent(
                final(self)@.tree,
            ) && same_claims(old(self)@.tree.update(n as int, 0u8), final(self)@.tree),
    {
        proof {
            if releasable(self@.tree, n as nat, upper_bound as nat) {
                lemma_release(self@.tree, n as nat, upper_bound as nat);
            }
        }
        let ghost goal = coalesce(self@.tree, n as nat, upper_bound as nat);
        let mut current = parent(n);
        let mut runner = n;
        while level(runner) > upper_bound
            invariant_except_break
                coalesce(self@.tree, runner as nat, upper_bound as nat) == goal,
            invariant
                self.shaped(),
                1 <= runner <= n,
                n < N,
                current == runner / 2,
                self@.index == old(self)@.index,
                self@.reservation == old(self)@.reservation,
                self@.chunk == old(self)@.chunk,
            ensures
                self@.tree == goal,
            decreases runner,
        {
            assert(0x4u8 << 1u8 == 0x8u8) by (bit_vector);
            let or_val = if lchild(current) == runner {
                COAL_RIGHT << 1u8
            } else {
                COAL_RIGHT
            };
            assert(or_val == side_coal(runner as nat));
            let old_val = self.fetch_or(current, or_val);
            if AllocTags::is_occ_buddy(old_val, runner) && !AllocTags::is_coal_buddy(
                old_val,
                runner,
            ) {
                break ;
            }
            runner = current;
            current = parent(current);
        }
        self.tree.set(n, 0);
        if n != upper_bound {
            self.unmark(n, upper_bound);
        }
    }

    /// Tries to claim node `n`: `Ok` where the node and all its ancestors now
    /// carry the claim, and otherwise the node at which the attempt failed.
    pub fn try_alloc(&mut self, n: usize) -> (r: Result<(), usize>)
        requires
            old(self).shaped(),
            1 <= n < N,
        ensures
            final(self).shaped(),
            final(self)@ == (State { tree: try_claim(old(self)@.tree, n as nat).0, ..old(self)@ }),
            r.is_ok() <==> try_claim(old(self)@.tree, n as nat).1 == 0,
            r matches Err(at) ==> at == try_claim(old(self)@.tree, n as nat).1,
            consistent(old(self)@.tree) ==> attempt_kept(old(self)@.tree, n as nat),
    {
        proof {
            if consistent(self@.tree) {
                lemma_try_claim(self@.tree, n as nat);
            }
        }
        let empty: u8 = 0;
        if self.cas_tree_value(n, empty, BUSY).is_err() {
            return Err(n);
        }
        let ghost goal = climb(self@.tree, n as nat);
        let mut current = n;
        while level(current) != 0
            invariant
                self.shaped(),
                1 <= current <= n,
                n < N,
                climb(self@.tree, current as nat) == goal,
                goal == climb(old(self)@.tree.update(n as int, BUSY), n as nat),
                consistent(old(self)@.tree) ==> attempt_kept(old(self)@.tree, n as nat),
                old(self)@.tree.len() == N,
                old(self)@.tree[n as int] == 0,
                self@.index == old(self)@.index,
                self@.reservation == old(self)@.reservation,
                self@.chunk == old(self)@.chunk,
            decreases current,
        {
            let child = current;
            current = current >> 1;
            assert(current == child / 2) by (bit_vector)
                requires
                    current == child >> 1,
            ;
            let ghost before = self@.tree;
            loop
                invariant_except_break
                    self@.tree == before,
                invariant
                    self.shaped(),
                    current == child / 2,
                    2 <= child <= n,
                    n < N,
                    climb(before, child as nat) == goal,
                    goal == climb(old(self)@.tree.update(n as int, BUSY), n as nat),
                    consistent(old(self)@.tree) ==> attempt_kept(old(self)@.tree, n as nat),
                    old(self)@.tree.len() == N,
                    old(self)@.tree[n as int] == 0,
                    self@.index == old(self)@.index,
                    self@.reservation == old(self)@.reservation,
                self@.chunk == old(self)@.chunk,
                ensures
                    !claimed(before[current as int]),
                    self@ == (State {
                        tree: before.update(
                            current as int,
                            announced(before[current as int], child as nat),
                        ),
                        ..old(self)@
                    }),
                decreases 0nat,
            {
                let cur_val = self.tree[current];
                if cur_val & OCC != 0 {
                    self.free_node(n, level(child));
                    return Err(current);
                }
                let new_val = AllocTags::mark(AllocTags::clean_coal(cur_val, child), child);
                if self.cas_tree_value(current, cur_val, new_val).is_ok() {
                    break ;
                }
            }
        }
        Ok(())
    }
}

/// A region and a tree that are both powers of two: the leaves of the tree
/// cut the region into equal blocks.
pub proof fn lemma_geometry(s: nat, n: nat)
    requires
        n >= 2,
        n == pow2(level_of(n)),
        s == pow2(level_of(s)),
        n / 2 <= s,
        n <= usize::MAX,
    ensures
        level_of(n) >= 1,
        level_of(n) < usize::BITS,
        n / 2 == pow2((level_of(n) - 1) as nat),
        crate::region::tiled(s, (level_of(n) - 1) as nat, s / (n / 2)),
{
    let d = (level_of(n) - 1) as nat;
    let a = level_of(s);
    lemma_pow2_unfold(d + 1);
    lemma_pow2_pos(d);
    if a < d {
        lemma_pow2_strictly_increases(a, d);
    }
    lemma_pow2_adds((a - d) as nat, d);
    lemma_pow2_pos((a - d) as nat);
    let k = pow2((a - d) as nat);
    let p = pow2(d);
    assert((k * p) / p == k) by (nonlinear_arith)
        requires
            p > 0,
    ;
    assert(n <= usize::MAX ==> level_of(n) < usize::BITS) by {
        if n <= usize::MAX {
            crate::index::lemma_level_small(n as usize);
        }
    }
}

} // verus!
