//! The blocks of the region: how the tree tiles it.
//!
//! A region of `chunk * 2^depth` bytes is cut into `2^depth` smallest blocks.
//! The block of a node is the run of smallest blocks under it, so the blocks
//! of two nodes of which neither covers the other do not meet.

use crate::index::{
    block_size, block_start, covers, lemma_covers_chain, lemma_level_bounds, lemma_span_covers,
    level_of,
};
use vstd::arithmetic::power2::{
    lemma_pow2_adds, lemma_pow2_pos, lemma_pow2_strictly_increases, pow2,
};
use vstd::prelude::*;

verus! {

/// A region of `t` bytes is made of `2^depth` smallest blocks of `chunk`
/// bytes.
pub open spec fn tiled(t: nat, depth: nat, chunk: nat) -> bool {
    chunk >= 1 && t == chunk * pow2(depth)
}

/// The first smallest block under node `n`, counted from the left edge of
/// the region, in a tree whose leaves lie at level `depth`.
pub open spec fn first_slot(n: nat, depth: nat) -> nat {
    (n * pow2((depth - level_of(n)) as nat) - pow2(depth)) as nat
}

/// The number of smallest blocks under node `n`.
pub open spec fn slots(n: nat, depth: nat) -> nat {
    pow2((depth - level_of(n)) as nat)
}

/// A node below `2^(depth + 1)` lies at level `depth` or above it.
pub proof fn lemma_level_within(n: nat, depth: nat)
    requires
        1 <= n < pow2(depth + 1),
    ensures
        level_of(n) <= depth,
{
    lemma_level_bounds(n);
    if level_of(n) > depth + 1 {
        lemma_pow2_strictly_increases(depth + 1, level_of(n));
    }
}

/// The block of a node, counted in smallest blocks.
pub proof fn lemma_block_units(n: nat, t: nat, depth: nat, chunk: nat)
    requires
        tiled(t, depth, chunk),
        n >= 1,
        level_of(n) <= depth,
    ensures
        block_size(n, t) == slots(n, depth) * chunk,
        block_start(n, t) == first_slot(n, depth) * chunk,
        n * slots(n, depth) >= pow2(depth),
        first_slot(n, depth) + slots(n, depth) <= pow2(depth),
        block_start(n, t) / chunk == first_slot(n, depth),
{
    let l = level_of(n);
    let p = pow2(l);
    let q = pow2((depth - l) as nat);
    lemma_level_bounds(n);
    lemma_pow2_adds(l, (depth - l) as nat);
    lemma_pow2_pos(l);
    lemma_pow2_pos((depth - l) as nat);
    assert(pow2(depth) == p * q);
    assert(t == (chunk * q) * p) by (nonlinear_arith)
        requires
            t == chunk * (p * q),
    ;
    assert(((chunk * q) * p) / p == chunk * q) by (nonlinear_arith)
        requires
            p > 0,
    ;
    assert(t / p == q * chunk) by (nonlinear_arith)
        requires
            t / p == chunk * q,
    ;
    assert(n * q >= p * q) by (nonlinear_arith)
        requires
            n >= p,
    ;
    assert((n - p) * (q * chunk) == (n * q - p * q) * chunk) by (nonlinear_arith);
    assert((n + 1) * q <= (2 * p) * q) by (nonlinear_arith)
        requires
            n + 1 <= 2 * p,
    ;
    assert((n + 1) * q == n * q + q) by (nonlinear_arith);
    assert((2 * p) * q == 2 * (p * q)) by (nonlinear_arith);
    let f = first_slot(n, depth);
    assert((f * chunk) / chunk == f) by (nonlinear_arith)
        requires
            chunk >= 1,
    ;
}

/// The blocks of two nodes of which neither covers the other lie apart.
pub proof fn lemma_blocks_apart(a: nat, b: nat, t: nat, depth: nat, chunk: nat)
    requires
        tiled(t, depth, chunk),
        a >= 1,
        b >= 1,
        level_of(a) <= depth,
        level_of(b) <= depth,
        !covers(a, b),
        !covers(b, a),
    ensures
        first_slot(a, depth) + slots(a, depth) <= first_slot(b, depth) || first_slot(b, depth)
            + slots(b, depth) <= first_slot(a, depth),
        block_start(a, t) + block_size(a, t) <= block_start(b, t) || block_start(b, t)
            + block_size(b, t) <= block_start(a, t),
{
    let ka = (depth - level_of(a)) as nat;
    let kb = (depth - level_of(b)) as nat;
    let lo_a = a * pow2(ka);
    let hi_a = (a + 1) * pow2(ka);
    let lo_b = b * pow2(kb);
    let hi_b = (b + 1) * pow2(kb);
    lemma_block_units(a, t, depth, chunk);
    lemma_block_units(b, t, depth, chunk);
    lemma_pow2_pos(ka);
    lemma_pow2_pos(kb);
    assert(hi_a == lo_a + pow2(ka)) by (nonlinear_arith)
        requires
            hi_a == (a + 1) * pow2(ka),
            lo_a == a * pow2(ka),
    ;
    assert(hi_b == lo_b + pow2(kb)) by (nonlinear_arith)
        requires
            hi_b == (b + 1) * pow2(kb),
            lo_b == b * pow2(kb),
    ;
    if lo_a < hi_b && lo_b < hi_a {
        let x = if lo_a >= lo_b { lo_a } else { lo_b };
        lemma_span_covers(a, x, ka);
        lemma_span_covers(b, x, kb);
        lemma_covers_chain(a, b, x);
    }
    let fa = first_slot(a, depth);
    let fb = first_slot(b, depth);
    let sa = slots(a, depth);
    let sb = slots(b, depth);
    if fa + sa <= fb {
        assert((fa + sa) * chunk <= fb * chunk) by (nonlinear_arith)
            requires
                fa + sa <= fb,
        ;
        assert((fa + sa) * chunk == fa * chunk + sa * chunk) by (nonlinear_arith);
    } else {
        assert((fb + sb) * chunk <= fa * chunk) by (nonlinear_arith)
            requires
                fb + sb <= fa,
        ;
        assert((fb + sb) * chunk == fb * chunk + sb * chunk) by (nonlinear_arith);
    }
}

} // verus!
