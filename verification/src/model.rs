//! The two protocols as functions on the sequence of status bytes.
//!
//! A claim writes `BUSY` into a clear node and climbs to the root, announcing
//! itself on each ancestor; it gives up at the first ancestor that is claimed
//! itself and withdraws what it wrote. A release climbs from the node and
//! raises the coalescing flag as a barrier, clears the node, and then walks up
//! once more to take the node's side out of the ancestors that carry the flag.

use crate::index::level_of;
use crate::tags::{
    buddy_has_coal, buddy_has_occ, claimable, claimed, has_coal, with_coal, with_occ,
    without_coal, without_marks, BUSY,
};
use vstd::arithmetic::power2::pow2;
use vstd::prelude::*;

verus! {

/// The word that a claim climbing from child `c` leaves on the parent.
pub open spec fn announced(v: u8, c: nat) -> u8 {
    with_occ(without_coal(v, c), c)
}

/// The climb of a claim from `child` towards the root: the tree with every
/// ancestor announced up to the first claimed one, and the node below that
/// ancestor (node 1 where the climb reached the root).
pub open spec fn climb(t: Seq<u8>, child: nat) -> (Seq<u8>, nat)
    decreases child,
{
    let cur = child / 2;
    if child <= 1 || claimed(t[cur as int]) {
        (t, child)
    } else {
        climb(t.update(cur as int, announced(t[cur as int], child)), cur)
    }
}

/// The climb of a release from `runner`, not above level `ub`: the coalescing
/// flag is raised on each parent, and the climb ends behind the first parent
/// whose other side was occupied and not coalescing.
pub open spec fn coalesce(t: Seq<u8>, runner: nat, ub: nat) -> Seq<u8>
    decreases runner,
{
    let cur = runner / 2;
    if level_of(runner) <= ub {
        t
    } else {
        let before = t[cur as int];
        let raised = t.update(cur as int, with_coal(before, runner));
        if buddy_has_occ(before, runner) && !buddy_has_coal(before, runner) {
            raised
        } else {
            coalesce(raised, cur, ub)
        }
    }
}

/// The second walk of a release, from `child` upwards: as long as the parent
/// carries the coalescing flag of the side it comes from, both flags of that
/// side are cleared. Below level `ub` the walk ends behind a parent whose
/// other side is not occupied.
pub open spec fn unmark_walk(t: Seq<u8>, child: nat, ub: nat) -> Seq<u8>
    decreases child,
{
    let cur = child / 2;
    if child == 0 || !has_coal(t[cur as int], child) {
        t
    } else {
        let cleared = without_marks(t[cur as int], child);
        let next = t.update(cur as int, cleared);
        if level_of(cur) > ub && !buddy_has_occ(cleared, child) {
            next
        } else {
            unmark_walk(next, cur, ub)
        }
    }
}

/// The release of node `n` with the climb bounded by level `ub`.
pub open spec fn release(t: Seq<u8>, n: nat, ub: nat) -> Seq<u8> {
    let cleared = coalesce(t, n, ub).update(n as int, 0u8);
    if n == ub {
        cleared
    } else {
        unmark_walk(cleared, n, ub)
    }
}

/// The attempt to claim node `n`: the tree afterwards, and the node at which
/// the attempt failed (0 where it succeeded). It fails at `n` itself unless
/// the word of `n` is zero, and at the nearest claimed ancestor otherwise;
/// what the climb wrote below that ancestor is released again.
pub open spec fn try_claim(t: Seq<u8>, n: nat) -> (Seq<u8>, nat) {
    if t[n as int] != 0 {
        (t, n)
    } else {
        let (marked, below) = climb(t.update(n as int, BUSY), n);
        if below <= 1 {
            (marked, 0)
        } else {
            (release(marked, n, level_of(below)), below / 2)
        }
    }
}

/// The number of nodes that follow node `i` on its level among those that
/// node `at` covers.
pub open spec fn followers(at: nat, i: nat) -> nat {
    let end = (at + 1) * pow2((level_of(i) - level_of(at)) as nat);
    if end > i {
        (end - 1 - i) as nat
    } else {
        0
    }
}

/// The scan of one level from node `i` up to, not including, node `until`:
/// the tree afterwards and the node that was claimed (0 where none was).
/// A node whose word shows an occupancy flag is passed over; behind a failed
/// attempt the scan goes on after the last node that the failing node covers.
pub open spec fn scan(t: Seq<u8>, i: nat, until: nat) -> (Seq<u8>, nat)
    decreases
            if until > i {
                until - i
            } else {
                0
            },
{
    if i >= until {
        (t, 0)
    } else if !claimable(t[i as int]) {
        scan(t, i + 1, until)
    } else {
        let (tried, at) = try_claim(t, i);
        if at == 0 {
            (tried, i)
        } else {
            scan(tried, i + 1 + followers(at, i), until)
        }
    }
}

} // verus!
