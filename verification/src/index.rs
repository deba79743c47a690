//! Arithmetic on the indices of the complete binary tree.
//!
//! The root is node 1; node `n` has the children `2n` and `2n + 1` and lies at
//! level `floor(log2(n))`. A node at level `l` manages a block of `t / 2^l`
//! bytes of a region of `t` bytes, and the blocks of one level lie side by
//! side in the order of their indices.

use vstd::arithmetic::power2::{
    lemma2_to64, lemma2_to64_rest, lemma_pow2_pos, lemma_pow2_strictly_increases,
    lemma_pow2_unfold, pow2,
};
use vstd::bits::lemma_usize_shl_is_mul;
use vstd::prelude::*;

verus! {

/// The level of node `n`: 0 for the root, one more for each step down.
pub open spec fn level_of(n: nat) -> nat
    decreases n,
{
    if n <= 1 {
        0
    } else {
        1 + level_of(n / 2)
    }
}

/// Node `a` is node `d` or one of its ancestors.
pub open spec fn covers(a: nat, d: nat) -> bool
    decreases d,
{
    a >= 1 && (d == a || (d > a && covers(a, d / 2)))
}

/// The bytes that node `n` manages in a region of `t` bytes.
pub open spec fn block_size(n: nat, t: nat) -> nat {
    t / pow2(level_of(n))
}

/// The offset in a region of `t` bytes at which the block of node `n` starts.
pub open spec fn block_start(n: nat, t: nat) -> nat {
    ((n - pow2(level_of(n))) * block_size(n, t)) as nat
}

/// `usize::ilog2` returns the base 2 logarithm rounded down: the exponent of
/// the largest power of two that does not exceed its argument. It panics on 0.
pub assume_specification[ usize::ilog2 ](n: usize) -> (r: u32)
    requires
        n > 0,
    ensures
        pow2(r as nat) <= n < pow2(r as nat + 1),
;

/// A node lies between the power of two of its level and the next one.
pub proof fn lemma_level_bounds(n: nat)
    requires
        n >= 1,
    ensures
        pow2(level_of(n)) <= n < 2 * pow2(level_of(n)),
    decreases n,
{
    lemma2_to64();
    if n > 1 {
        lemma_level_bounds(n / 2);
        lemma_pow2_unfold(level_of(n));
    }
}

/// The level is the only exponent whose power of two brackets the node.
pub proof fn lemma_level_unique(n: nat, r: nat)
    requires
        pow2(r) <= n < 2 * pow2(r),
    ensures
        level_of(n) == r,
    decreases n,
{
    lemma2_to64();
    lemma_pow2_pos(r);
    if r == 0 {
    } else {
        lemma_pow2_unfold(r);
        lemma_level_unique(n / 2, (r - 1) as nat);
    }
}

/// A node covers itself, and whatever a node covers is not smaller than it.
pub proof fn lemma_covers_order(a: nat, d: nat)
    requires
        covers(a, d),
    ensures
        1 <= a <= d,
        covers(a, a),
        covers(d, d),
{
}

/// Whoever covers a node is covered by the parent too.
pub proof fn lemma_covers_parent(a: nat, d: nat)
    requires
        covers(a, d),
        a >= 2,
    ensures
        covers(a / 2, d),
    decreases d,
{
    if d == a {
        assert(covers(a / 2, a / 2));
    } else {
        lemma_covers_parent(a, d / 2);
    }
}

/// Covering is transitive.
pub proof fn lemma_covers_trans(a: nat, b: nat, d: nat)
    requires
        covers(a, b),
        covers(b, d),
    ensures
        covers(a, d),
    decreases d,
{
    if d != b {
        lemma_covers_trans(a, b, d / 2);
    }
}

/// Two nodes that cover the same node lie on one path: one covers the other.
pub proof fn lemma_covers_chain(a: nat, b: nat, d: nat)
    requires
        covers(a, d),
        covers(b, d),
    ensures
        covers(a, b) || covers(b, a),
    decreases d,
{
    if d != a && d != b {
        lemma_covers_chain(a, b, d / 2);
    }
}

/// A node that covers another one lies at a smaller level, unless the two
/// are the same node.
pub proof fn lemma_covers_level(a: nat, d: nat)
    requires
        covers(a, d),
    ensures
        level_of(a) <= level_of(d),
        level_of(a) == level_of(d) ==> a == d,
    decreases d,
{
    if d != a {
        lemma_covers_level(a, d / 2);
    }
}

/// What a node covers beside itself is covered by one of its two children.
pub proof fn lemma_covers_child(p: nat, d: nat)
    requires
        covers(p, d),
        d != p,
    ensures
        covers(2 * p, d) || covers(2 * p + 1, d),
    decreases d,
{
    if d / 2 == p {
        assert(covers(d, d));
    } else {
        lemma_covers_child(p, d / 2);
    }
}

/// On the path from node `n` to the root, what lies below the parent of a
/// node of the path and is not that parent lies at or below the node itself.
pub proof fn lemma_covers_below(child: nat, c: nat, n: nat)
    requires
        covers(child, n),
        covers(c, n),
        child >= 2,
        covers(child / 2, c),
        c != child / 2,
    ensures
        covers(child, c),
{
    lemma_covers_chain(c, child, n);
    if covers(c, child) && c != child {
        lemma_covers_order(child / 2, c);
        lemma_covers_order(c, child / 2);
    }
}

/// The nodes that node `a` covers on the level `k` steps below its own are
/// the `2^k` nodes from `a * 2^k` on.
pub proof fn lemma_span(a: nat, i: nat)
    requires
        covers(a, i),
    ensures
        level_of(a) <= level_of(i),
        a * pow2((level_of(i) - level_of(a)) as nat) <= i < (a + 1) * pow2(
            (level_of(i) - level_of(a)) as nat,
        ),
    decreases i,
{
    lemma2_to64();
    lemma_covers_level(a, i);
    if i != a {
        lemma_span(a, i / 2);
        lemma_covers_level(a, i / 2);
        let k = (level_of(i) - level_of(a)) as nat;
        let h = pow2((k - 1) as nat);
        assert(level_of(i) == 1 + level_of(i / 2));
        assert((k - 1) as nat == (level_of(i / 2) - level_of(a)) as nat);
        lemma_pow2_unfold(k);
        assert(a * h <= i / 2 < (a + 1) * h);
        assert(a * (2 * h) == 2 * (a * h)) by (nonlinear_arith);
        assert((a + 1) * (2 * h) == 2 * ((a + 1) * h)) by (nonlinear_arith);
    } else {
        assert(a * 1 == a && (a + 1) * 1 == a + 1) by (nonlinear_arith);
    }
}

/// A node between `a * 2^k` and `(a + 1) * 2^k` lies `k` levels below `a` and
/// is covered by it.
pub proof fn lemma_span_covers(a: nat, j: nat, k: nat)
    requires
        a >= 1,
        a * pow2(k) <= j < (a + 1) * pow2(k),
    ensures
        covers(a, j),
        level_of(j) == level_of(a) + k,
    decreases k,
{
    lemma2_to64();
    if k > 0 {
        let h = pow2((k - 1) as nat);
        lemma_pow2_unfold(k);
        lemma_pow2_pos((k - 1) as nat);
        assert(a * (2 * h) == 2 * (a * h)) by (nonlinear_arith);
        assert((a + 1) * (2 * h) == 2 * ((a + 1) * h)) by (nonlinear_arith);
        assert(a * h >= 1) by (nonlinear_arith)
            requires
                a >= 1,
                h >= 1,
        ;
        assert(a * h <= j / 2 < (a + 1) * h);
        lemma_span_covers(a, j / 2, (k - 1) as nat);
        assert(j >= 2 && j > a);
        assert(level_of(j) == 1 + level_of(j / 2));
    } else {
        assert(a * 1 == a && (a + 1) * 1 == a + 1) by (nonlinear_arith);
    }
}

/// The nodes that a node covers on a deeper level end before the next power
/// of two of that level.
pub proof fn lemma_span_end(a: nat, k: nat)
    requires
        a >= 1,
    ensures
        (a + 1) * pow2(k) <= pow2(level_of(a) + k + 1),
{
    lemma_level_bounds(a);
    vstd::arithmetic::power2::lemma_pow2_adds(level_of(a) + 1, k);
    lemma_pow2_unfold(level_of(a) + 1);
    let p = pow2(level_of(a) + 1);
    let q = pow2(k);
    assert((a + 1) * q <= p * q) by (nonlinear_arith)
        requires
            a + 1 <= p,
    ;
}

/// A level that fits a machine word is smaller than the word's width.
pub proof fn lemma_level_small(n: usize)
    requires
        n >= 1,
    ensures
        level_of(n as nat) < usize::BITS,
        pow2(level_of(n as nat)) <= usize::MAX,
{
    lemma_level_bounds(n as nat);
    lemma2_to64();
    lemma2_to64_rest();
    assert(usize::BITS == 32 || usize::BITS == 64);
    assert(usize::MAX < pow2(usize::BITS as nat));
    if level_of(n as nat) > usize::BITS {
        lemma_pow2_strictly_increases(usize::BITS as nat, level_of(n as nat));
    }
}

/// The level of node `n`.
pub fn level(n: usize) -> (r: usize)
    requires
        n > 0,
    ensures
        r == level_of(n as nat),
        r < usize::BITS,
{
    let r: u32 = n.ilog2();
    proof {
        lemma_pow2_unfold(r as nat + 1);
        lemma_level_unique(n as nat, r as nat);
        lemma_level_small(n);
    }
    r as usize
}

/// The parent of node `n`.
pub fn parent(n: usize) -> (r: usize)
    ensures
        r == n / 2,
{
    assert(n >> 1 == n / 2) by (bit_vector);
    n >> 1
}

/// The left child of node `n`.
pub fn lchild(n: usize) -> (r: usize)
    requires
        n <= usize::MAX / 2,
    ensures
        r == 2 * n,
{
    proof {
        lemma2_to64();
        lemma_usize_shl_is_mul(n, 1usize);
    }
    n << 1
}

/// Two to the power `k`, as a shift.
pub fn pow2_of(k: usize) -> (r: usize)
    requires
        pow2(k as nat) <= usize::MAX,
        k < usize::BITS,
    ensures
        r == pow2(k as nat),
{
    proof {
        lemma_usize_shl_is_mul(1usize, k);
    }
    1usize << k
}

/// The bytes that node `n` manages in a region of `t` bytes.
pub fn size(n: usize, t: usize) -> (r: usize)
    requires
        n > 0,
    ensures
        r == block_size(n as nat, t as nat),
{
    let l = level(n);
    proof {
        lemma_level_small(n);
        lemma_pow2_pos(l as nat);
    }
    t / pow2_of(l)
}

/// The offset of a block within its region stays below the region's size.
pub proof fn lemma_block_within(n: nat, t: nat)
    requires
        n >= 1,
    ensures
        block_start(n, t) + block_size(n, t) <= t,
{
    lemma_level_bounds(n);
    let p = pow2(level_of(n));
    let k = (n - p) as nat;
    let s = t / p;
    assert((k + 1) * s <= p * s) by (nonlinear_arith)
        requires
            k + 1 <= p,
    ;
    assert(p * s <= t) by (nonlinear_arith)
        requires
            s == t / p,
            p > 0,
    ;
    assert((k + 1) * s == k * s + s) by (nonlinear_arith);
}

/// A block starts at a multiple of its own size.
pub proof fn lemma_block_aligned(n: nat, t: nat)
    requires
        n >= 1,
        block_size(n, t) > 0,
    ensures
        block_start(n, t) % block_size(n, t) == 0,
{
    lemma_level_bounds(n);
    let k = (n - pow2(level_of(n))) as nat;
    let s = block_size(n, t);
    assert((k * s) % s == 0) by (nonlinear_arith)
        requires
            s > 0,
    ;
}

/// The address at which the block of node `n` starts, in a region of `t`
/// bytes that begins at address `b`.
pub fn starting(n: usize, b: usize, t: usize) -> (r: usize)
    requires
        n > 0,
        b + block_start(n as nat, t as nat) <= usize::MAX,
    ensures
        r == b + block_start(n as nat, t as nat),
{
    let l = level(n);
    proof {
        lemma_level_small(n);
        lemma_level_bounds(n as nat);
        lemma_block_within(n as nat, t as nat);
    }
    b + (n - pow2_of(l)) * size(n, t)
}

} // verus!
