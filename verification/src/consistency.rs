//! What holds of the tree between operations, and why the two protocols keep
//! it.
//!
//! Every claimed node is recorded: its word is `BUSY`, each node on its path
//! to the root carries the occupancy flag of the side the path comes from and
//! not the coalescing flag of that side, and no other node of the path is
//! claimed.

use crate::index::{
    covers, lemma_covers_below, lemma_covers_chain, lemma_covers_child, lemma_covers_level,
    lemma_covers_order, lemma_covers_parent, lemma_covers_trans, lemma_level_unique, lemma_span,
    lemma_span_covers, lemma_span_end, level_of,
};
use crate::model::{announced, climb, coalesce, followers, release, scan, try_claim, unmark_walk};
use crate::tags::{
    buddy_has_coal, buddy_has_occ, claimable, claimed, has_coal, has_occ, lemma_busy_word,
    lemma_clear_word, lemma_word_ops, with_coal, without_marks, BUSY,
};
use vstd::arithmetic::power2::{lemma_pow2_pos, lemma_pow2_unfold, pow2};
use vstd::prelude::*;

verus! {

/// Node `d` of tree `t` is claimed.
pub open spec fn alive(t: Seq<u8>, d: nat) -> bool {
    1 <= d < t.len() && claimed(t[d as int])
}

/// The claim of node `d` is recorded on its path to the root, and `d` is the
/// only claimed node of that path.
pub open spec fn recorded(t: Seq<u8>, d: nat) -> bool {
    &&& t[d as int] == BUSY
    &&& forall|c: nat|
        2 <= c && #[trigger] covers(c, d) ==> has_occ(t[(c / 2) as int], c) && !has_coal(
            t[(c / 2) as int],
            c,
        )
    &&& forall|a: nat| #[trigger] covers(a, d) && a != d ==> !claimed(t[a as int])
}

/// Every claimed node of `t` is recorded.
pub open spec fn consistent(t: Seq<u8>) -> bool {
    &&& t.len() >= 2
    &&& t[0] == 0
    &&& forall|d: nat| #[trigger] alive(t, d) ==> recorded(t, d)
}

/// Every claimed node of `t` but `n` is recorded.
pub open spec fn consistent_but(t: Seq<u8>, n: nat) -> bool {
    &&& t.len() >= 2
    &&& t[0] == 0
    &&& forall|d: nat| #[trigger] alive(t, d) && d != n ==> recorded(t, d)
}

/// The same nodes are claimed in `t` and in `r`.
pub open spec fn same_claims(t: Seq<u8>, r: Seq<u8>) -> bool {
    &&& r.len() == t.len()
    &&& forall|i: int| 0 <= i < t.len() ==> claimed(#[trigger] r[i]) == claimed(t[i])
}

/// Tree `r` differs from `t` at most in the words of the ancestors of `n`.
pub open spec fn same_off_path(t: Seq<u8>, r: Seq<u8>, n: nat) -> bool {
    &&& r.len() == t.len()
    &&& forall|i: int|
        0 <= i < t.len() && !(covers(i as nat, n) && i != n) ==> #[trigger] r[i] == t[i]
}

/// A walk that starts at the parent of `child` stays within the ancestors of
/// `child`.
pub proof fn lemma_off_path_step(t: Seq<u8>, next: Seq<u8>, r: Seq<u8>, child: nat)
    requires
        child >= 2,
        child < t.len(),
        next.len() == t.len(),
        forall|i: int| 0 <= i < t.len() && i != child / 2 ==> next[i] == t[i],
        same_off_path(next, r, child / 2),
    ensures
        same_off_path(t, r, child),
{
    let cur = child / 2;
    assert(covers(cur, cur));
    assert(covers(cur, child));
    assert forall|i: int|
        0 <= i < t.len() && !(covers(i as nat, child) && i != child) implies #[trigger] r[i]
        == t[i] by {
        if covers(i as nat, cur) {
            lemma_covers_trans(i as nat, cur, child);
        }
    }
}

/// A new word for node `p` leaves the record of `d` intact if `p` is not on
/// the path of `d`, or if the word is unclaimed and keeps the flags of the
/// side from which the path comes.
pub proof fn lemma_update_recorded(t: Seq<u8>, p: nat, w: u8, d: nat)
    requires
        recorded(t, d),
        p < t.len(),
        d < t.len(),
        p != d,
        covers(p, d) ==> !claimed(w) && forall|c: nat|
            c / 2 == p && #[trigger] covers(c, d) ==> has_occ(w, c) && !has_coal(w, c),
    ensures
        recorded(t.update(p as int, w), d),
{
    let r = t.update(p as int, w);
    assert forall|c: nat| 2 <= c && #[trigger] covers(c, d) implies has_occ(r[(c / 2) as int], c)
        && !has_coal(r[(c / 2) as int], c) by {
        lemma_covers_order(c, d);
        lemma_covers_parent(c, d);
    }
    assert forall|a: nat| #[trigger] covers(a, d) && a != d implies !claimed(r[a as int]) by {
        lemma_covers_order(a, d);
    }
}

/// The second walk of a release keeps a consistent tree consistent and
/// changes no claim.
pub proof fn lemma_unmark_walk(t: Seq<u8>, child: nat, ub: nat)
    requires
        consistent(t),
        child < t.len(),
    ensures
        consistent(unmark_walk(t, child, ub)),
        same_claims(t, unmark_walk(t, child, ub)),
        same_off_path(t, unmark_walk(t, child, ub), child),
        child >= 1 && has_coal(t[(child / 2) as int], child) ==> unmark_walk(t, child, ub)[(child
            / 2) as int] == without_marks(t[(child / 2) as int], child),
    decreases child,
{
    let cur = child / 2;
    if child == 0 || !has_coal(t[cur as int], child) {
    } else {
        let v = t[cur as int];
        let w = without_marks(v, child);
        let next = t.update(cur as int, w);
        lemma_clear_word(child);
        lemma_busy_word(child);
        lemma_word_ops(v, child, child);
        assert(cur >= 1);
        if claimed(v) {
            assert(alive(t, cur));
        }
        assert forall|d: nat| #[trigger] alive(next, d) implies recorded(next, d) by {
            assert(alive(t, d));
            assert forall|c: nat| c / 2 == cur && #[trigger] covers(c, d) implies has_occ(w, c)
                && !has_coal(w, c) by {
                lemma_word_ops(v, child, c);
                lemma_word_ops(v, c, child);
            }
            lemma_update_recorded(t, cur, w, d);
        }
        assert(same_claims(t, next));
        if level_of(cur) > ub && !buddy_has_occ(w, child) {
            assert(covers(cur, cur));
        } else {
            lemma_unmark_walk(next, cur, ub);
            lemma_off_path_step(t, next, unmark_walk(next, cur, ub), child);
        }
    }
}

/// No claimed node other than `n` lies at or below `runner`.
pub open spec fn quiet_below(t: Seq<u8>, runner: nat, n: nat) -> bool {
    forall|d: nat| #[trigger] alive(t, d) && d != n ==> !covers(runner, d)
}

/// No ancestor of `n` at level `ub` or deeper is claimed.
pub open spec fn open_above(t: Seq<u8>, n: nat, ub: nat) -> bool {
    forall|p: nat| #[trigger] covers(p, n) && p != n && level_of(p) >= ub ==> !claimed(t[p as int])
}

/// Node `n` can be released with its climb bounded by level `ub`: it carries
/// a claim, every other claimed node is recorded, and no claimed node lies
/// below `n` or between `n` and level `ub`.
pub open spec fn releasable(t: Seq<u8>, n: nat, ub: nat) -> bool {
    &&& consistent_but(t, n)
    &&& 1 <= n < t.len()
    &&& t[n as int] == BUSY
    &&& quiet_below(t, n, n)
    &&& open_above(t, n, ub)
}

/// The state of a claim of node `n` that has climbed to `child`: below
/// `child` the path of `n` is announced and unclaimed.
pub open spec fn climbing(t: Seq<u8>, n: nat, child: nat) -> bool {
    &&& consistent_but(t, n)
    &&& 1 <= child <= n < t.len()
    &&& covers(child, n)
    &&& t[n as int] == BUSY
    &&& quiet_below(t, n, n)
    &&& forall|c: nat| #[trigger]
        covers(c, n) && covers(child, c) && c != child ==> has_occ(t[(c / 2) as int], c)
            && !has_coal(t[(c / 2) as int], c)
    &&& forall|a: nat| #[trigger]
        covers(a, n) && covers(child, a) && a != n ==> !claimed(t[a as int])
}

/// Node `n` can be claimed: its word is clear and no ancestor is claimed.
pub open spec fn eligible(t: Seq<u8>, n: nat) -> bool {
    &&& t[n as int] == 0
    &&& forall|a: nat| #[trigger] covers(a, n) && a != n ==> !claimed(t[a as int])
}

/// The level of a node is smaller than its index.
pub proof fn lemma_level_below(n: nat)
    requires
        n >= 1,
    ensures
        level_of(n) < n,
    decreases n,
{
    if n > 1 {
        lemma_level_below(n / 2);
    }
}

/// The root covers every node.
pub proof fn lemma_root_covers(d: nat)
    requires
        d >= 1,
    ensures
        covers(1, d),
    decreases d,
{
    if d > 1 {
        lemma_root_covers(d / 2);
    }
}

/// The first climb of a release keeps every other claimed node recorded and
/// changes no claim.
pub proof fn lemma_coalesce(t: Seq<u8>, n: nat, runner: nat, ub: nat)
    requires
        consistent_but(t, n),
        n < t.len(),
        covers(runner, n),
        quiet_below(t, runner, n),
        open_above(t, n, ub),
    ensures
        consistent_but(coalesce(t, runner, ub), n),
        same_claims(t, coalesce(t, runner, ub)),
        same_off_path(t, coalesce(t, runner, ub), runner),
        level_of(runner) > ub ==> coalesce(t, runner, ub)[(runner / 2) as int] == with_coal(
            t[(runner / 2) as int],
            runner,
        ),
    decreases runner,
{
    let cur = runner / 2;
    lemma_covers_order(runner, n);
    if level_of(runner) <= ub {
    } else {
        let v = t[cur as int];
        let w = with_coal(v, runner);
        let raised = t.update(cur as int, w);
        lemma_covers_parent(runner, n);
        assert(covers(cur, n) && cur != n && level_of(cur) >= ub);
        assert(!claimed(v));
        lemma_word_ops(v, runner, runner);
        assert forall|d: nat| #[trigger] alive(raised, d) && d != n implies recorded(raised, d) by {
            assert(alive(t, d));
            assert forall|c: nat| c / 2 == cur && #[trigger] covers(c, d) implies has_occ(w, c)
                && !has_coal(w, c) by {
                lemma_word_ops(v, runner, c);
                lemma_covers_order(c, d);
            }
            lemma_update_recorded(t, cur, w, d);
        }
        assert(same_claims(t, raised));
        if buddy_has_occ(v, runner) && !buddy_has_coal(v, runner) {
            assert(covers(cur, cur));
        } else {
            assert forall|d: nat| #[trigger] alive(raised, d) && d != n implies !covers(cur, d) by {
                assert(alive(t, d));
                if covers(cur, d) {
                    lemma_covers_child(cur, d);
                    let b = if covers(2 * cur, d) { 2 * cur } else { 2 * cur + 1 };
                    assert(covers(b, d));
                    lemma_word_ops(v, runner, b);
                }
            }
            assert(open_above(raised, n, ub)) by {
                assert forall|p: nat| #[trigger]
                    covers(p, n) && p != n && level_of(p) >= ub implies !claimed(
                    raised[p as int],
                ) by {
                    lemma_covers_order(p, n);
                }
            }
            lemma_coalesce(raised, n, cur, ub);
            lemma_off_path_step(t, raised, coalesce(raised, cur, ub), runner);
        }
    }
}

/// A release leaves a consistent tree in which the released node is no longer
/// claimed and every other node is claimed as before.
pub proof fn lemma_release(t: Seq<u8>, n: nat, ub: nat)
    requires
        releasable(t, n, ub),
    ensures
        consistent(release(t, n, ub)),
        release(t, n, ub).len() == t.len(),
        release(t, n, ub)[n as int] == 0,
        same_claims(t.update(n as int, 0u8), release(t, n, ub)),
        same_off_path(t.update(n as int, 0u8), release(t, n, ub), n),
        level_of(n) > ub ==> release(t, n, ub)[(n / 2) as int] == without_marks(
            with_coal(t[(n / 2) as int], n),
            n,
        ),
{
    let raised = coalesce(t, n, ub);
    let cleared = raised.update(n as int, 0u8);
    lemma_covers_order(n, n);
    lemma_coalesce(t, n, n, ub);
    lemma_clear_word(n);
    assert forall|d: nat| #[trigger] alive(cleared, d) implies recorded(cleared, d) by {
        assert(alive(raised, d) && d != n);
        assert(alive(t, d));
        lemma_update_recorded(raised, n, 0u8, d);
    }
    if n != ub {
        lemma_unmark_walk(cleared, n, ub);
    }
    if level_of(n) > ub {
        lemma_level_below(n);
        lemma_word_ops(t[(n / 2) as int], n, n);
    }
    assert(same_claims(t.update(n as int, 0u8), cleared));
    assert(same_off_path(t.update(n as int, 0u8), cleared, n));
}

/// The climb of a claim keeps its state and changes no claim; where it ends
/// below the root, the node above is claimed.
pub proof fn lemma_climb(t: Seq<u8>, n: nat, child: nat)
    requires
        climbing(t, n, child),
    ensures
        climbing(climb(t, child).0, n, climb(t, child).1),
        same_claims(t, climb(t, child).0),
        same_off_path(t, climb(t, child).0, child),
        climb(t, child).1 > 1 ==> claimed(climb(t, child).0[(climb(t, child).1 / 2) as int]),
        climb(t, child).1 <= child,
        child >= 2 && !claimed(t[(child / 2) as int]) ==> climb(t, child).1 <= child / 2
            && climb(t, child).0[(child / 2) as int] == announced(t[(child / 2) as int], child),
    decreases child,
{
    let cur = child / 2;
    if child <= 1 || claimed(t[cur as int]) {
    } else {
        let v = t[cur as int];
        let w = announced(v, child);
        let next = t.update(cur as int, w);
        lemma_word_ops(v, child, child);
        lemma_word_ops(crate::tags::without_coal(v, child), child, child);
        lemma_covers_parent(child, n);
        assert forall|d: nat| #[trigger] alive(next, d) && d != n implies recorded(next, d) by {
            assert(alive(t, d));
            assert forall|c: nat| c / 2 == cur && #[trigger] covers(c, d) implies has_occ(w, c)
                && !has_coal(w, c) by {
                lemma_word_ops(v, child, c);
                lemma_word_ops(crate::tags::without_coal(v, child), child, c);
                lemma_covers_order(c, d);
            }
            lemma_update_recorded(t, cur, w, d);
        }
        assert(same_claims(t, next));
        assert(quiet_below(next, n, n)) by {
            assert forall|d: nat| #[trigger] alive(next, d) && d != n implies !covers(n, d) by {
                assert(alive(t, d));
            }
        }
        assert forall|c: nat| #[trigger]
            covers(c, n) && covers(cur, c) && c != cur implies has_occ(next[(c / 2) as int], c)
            && !has_coal(next[(c / 2) as int], c) by {
            lemma_covers_below(child, c, n);
            lemma_covers_order(c, n);
            if c != child {
                lemma_covers_order(child, c / 2);
            }
        }
        assert forall|a: nat| #[trigger]
            covers(a, n) && covers(cur, a) && a != n implies !claimed(next[a as int]) by {
            lemma_covers_order(a, n);
            if a != cur {
                lemma_covers_below(child, a, n);
            }
        }
        lemma_climb(next, n, cur);
        lemma_off_path_step(t, next, climb(next, cur).0, child);
    }
}

/// An attempt to claim node `n` leaves a consistent tree. It succeeds exactly
/// where the node is eligible, and then claims `n` and nothing else; where it
/// fails, no claim changes, and the node at which it failed covers `n` and is
/// `n` itself or claimed.
pub proof fn lemma_try_claim(t: Seq<u8>, n: nat)
    requires
        consistent(t),
        1 <= n < t.len(),
    ensures
        consistent(try_claim(t, n).0),
        try_claim(t, n).0.len() == t.len(),
        try_claim(t, n).1 == 0 <==> eligible(t, n),
        try_claim(t, n).1 == 0 ==> same_claims(t.update(n as int, BUSY), try_claim(t, n).0)
            && same_off_path(t.update(n as int, BUSY), try_claim(t, n).0, n),
        try_claim(t, n).1 != 0 ==> same_claims(t, try_claim(t, n).0) && same_off_path(
            t,
            try_claim(t, n).0,
            n,
        ) && covers(try_claim(t, n).1, n) && (try_claim(t, n).1 == n || alive(
            t,
            try_claim(t, n).1,
        )),
        n >= 2 ==> try_claim(t, n).0[(n / 2) as int] == (if try_claim(t, n).1 == 0 {
            announced(t[(n / 2) as int], n)
        } else if try_claim(t, n).1 == n || try_claim(t, n).1 == n / 2 {
            t[(n / 2) as int]
        } else {
            without_marks(with_coal(announced(t[(n / 2) as int], n), n), n)
        }),
{
    lemma_covers_order(n, n);
    if t[n as int] != 0 {
    } else {
        let start = t.update(n as int, BUSY);
        lemma_busy_word(n);
        lemma_clear_word(n);
        assert forall|d: nat| #[trigger] alive(start, d) && d != n implies recorded(start, d)
            && !covers(n, d) by {
            assert(alive(t, d));
            if covers(n, d) {
                lemma_covers_child(n, d);
                let c = if covers(2 * n, d) { 2 * n } else { 2 * n + 1 };
                assert(covers(c, d));
                lemma_clear_word(c);
            }
            lemma_update_recorded(t, n, BUSY, d);
        }
        assert forall|c: nat| #[trigger]
            covers(c, n) && covers(n, c) && c != n implies has_occ(start[(c / 2) as int], c)
            && !has_coal(start[(c / 2) as int], c) by {
            lemma_covers_order(c, n);
            lemma_covers_order(n, c);
        }
        assert forall|a: nat| #[trigger]
            covers(a, n) && covers(n, a) && a != n implies !claimed(start[a as int]) by {
            lemma_covers_order(a, n);
            lemma_covers_order(n, a);
        }
        assert(climbing(start, n, n));
        lemma_climb(start, n, n);
        let (marked, below) = climb(start, n);
        if below <= 1 {
            assert forall|d: nat| #[trigger] alive(marked, d) implies recorded(marked, d) by {
                if d == n {
                    assert forall|c: nat| 2 <= c && #[trigger] covers(c, n) implies has_occ(
                        marked[(c / 2) as int],
                        c,
                    ) && !has_coal(marked[(c / 2) as int], c) by {
                        lemma_root_covers(c);
                    }
                    assert forall|a: nat| #[trigger] covers(a, n) && a != n implies !claimed(
                        marked[a as int],
                    ) by {
                        lemma_covers_order(a, n);
                        lemma_root_covers(a);
                    }
                }
            }
            assert forall|a: nat| #[trigger] covers(a, n) && a != n implies !claimed(
                t[a as int],
            ) by {
                lemma_covers_order(a, n);
                lemma_root_covers(a);
                assert(!claimed(marked[a as int]));
            }
        } else {
            let at = below / 2;
            lemma_covers_parent(below, n);
            lemma_covers_order(at, n);
            assert(open_above(marked, n, level_of(below))) by {
                assert forall|p: nat| #[trigger]
                    covers(p, n) && p != n && level_of(p) >= level_of(below) implies !claimed(
                    marked[p as int],
                ) by {
                    lemma_covers_chain(p, below, n);
                    if covers(p, below) {
                        lemma_covers_level(p, below);
                    }
                }
            }
            assert(at != n);
            assert(claimed(t[at as int]));
            assert(alive(t, at));
            lemma_release(marked, n, level_of(below));
            if below != n {
                lemma_covers_level(below, n);
            } else {
                lemma_busy_word(n);
                let ub = level_of(n);
                assert(recorded(t, at));
                assert(coalesce(marked, n, ub) == marked);
                assert(marked.update(n as int, 0u8)[at as int] == BUSY);
                if n != ub {
                    assert(unmark_walk(marked.update(n as int, 0u8), n, ub) == marked.update(
                        n as int,
                        0u8,
                    ));
                }
            }
            let done = release(marked, n, level_of(below));
            let cleared = marked.update(n as int, 0u8);
            assert(same_claims(t, done)) by {
                assert forall|i: int| 0 <= i < t.len() implies claimed(#[trigger] done[i])
                    == claimed(t[i]) by {
                    assert(claimed(done[i]) == claimed(cleared[i]));
                    if i != n {
                        assert(claimed(marked[i]) == claimed(start[i]));
                    }
                }
            }
            assert(same_off_path(t, done, n)) by {
                assert forall|i: int|
                    0 <= i < t.len() && !(covers(i as nat, n) && i != n) implies #[trigger] done[i]
                    == t[i] by {
                    assert(done[i] == cleared[i]);
                    if i != n {
                        assert(marked[i] == start[i]);
                    }
                }
            }
        }
    }
}

/// The scan of level `l` claims the first eligible node from `i` on, and
/// nothing where none is eligible. It leaves a consistent tree in which no
/// other claim has changed, and no other word of the level or below it.
pub proof fn lemma_scan(t: Seq<u8>, i: nat, until: nat, l: nat)
    requires
        consistent(t),
        pow2(l) <= i <= until,
        until == pow2(l + 1),
        until <= t.len(),
    ensures
        consistent(scan(t, i, until).0),
        scan(t, i, until).0.len() == t.len(),
        forall|j: int|
            pow2(l) <= j < t.len() && j != scan(t, i, until).1 ==> #[trigger] scan(
                t,
                i,
                until,
            ).0[j] == t[j],
        scan(t, i, until).1 == 0 ==> same_claims(t, scan(t, i, until).0) && forall|j: nat|
            i <= j < until ==> !#[trigger] eligible(t, j),
        scan(t, i, until).1 != 0 ==> i <= scan(t, i, until).1 < until && eligible(
            t,
            scan(t, i, until).1,
        ) && same_claims(t.update(scan(t, i, until).1 as int, BUSY), scan(t, i, until).0)
            && scan(t, i, until).0[scan(t, i, until).1 as int] == BUSY && forall|j: nat|
            i <= j < scan(t, i, until).1 ==> !#[trigger] eligible(t, j),
    decreases until - i,
{
    lemma_pow2_pos(l);
    lemma_pow2_unfold(l + 1);
    if i >= until {
    } else if !claimable(t[i as int]) {
        lemma_clear_word(i);
        lemma_scan(t, i + 1, until, l);
    } else {
        lemma_try_claim(t, i);
        lemma_level_unique(i, l);
        let (tried, at) = try_claim(t, i);
        assert forall|j: int| pow2(l) <= j < t.len() && j != i implies #[trigger] tried[j]
            == t[j] by {
            if covers(j as nat, i) {
                lemma_covers_order(j as nat, i / 2);
            }
        }
        if at == 0 {
            lemma_busy_word(i);
            assert(alive(tried, i));
        } else {
            let k = (level_of(i) - level_of(at)) as nat;
            let next = i + 1 + followers(at, i);
            lemma_span(at, i);
            lemma_span_end(at, k);
            lemma_covers_order(at, i);
            assert(next == (at + 1) * pow2(k));
            assert(tried[i as int] == t[i as int]);
            lemma_scan(tried, next, until, l);
            let (r, node) = scan(tried, next, until);
            lemma_covers_level(at, i);
            assert(!eligible(t, i));
            if at == i {
                vstd::arithmetic::power2::lemma2_to64();
                assert((at + 1) * 1 == at + 1) by (nonlinear_arith);
                assert(next == i + 1);
            }
            assert forall|j: nat| i <= j < next implies !#[trigger] eligible(t, j) by {
                if j != i {
                    lemma_span_covers(at, j, k);
                    assert(covers(at, j) && at != j);
                    assert(claimed(t[at as int]));
                }
            }
            assert forall|j: nat| next <= j < until && eligible(t, j) implies eligible(
                tried,
                j,
            ) by {
                assert(tried[j as int] == t[j as int]);
                assert forall|a: nat| #[trigger] covers(a, j) && a != j implies !claimed(
                    tried[a as int],
                ) by {
                    lemma_covers_order(a, j);
                }
            }
            if node != 0 {
                assert(eligible(t, node)) by {
                    assert(tried[node as int] == t[node as int]);
                    assert forall|a: nat| #[trigger] covers(a, node) && a != node implies !claimed(
                        t[a as int],
                    ) by {
                        lemma_covers_order(a, node);
                    }
                }
                assert(same_claims(t.update(node as int, BUSY), r)) by {
                    assert forall|x: int| 0 <= x < t.len() implies claimed(#[trigger] r[x])
                        == claimed(t.update(node as int, BUSY)[x]) by {
                        assert(claimed(r[x]) == claimed(tried.update(node as int, BUSY)[x]));
                    }
                }
            } else {
                assert(same_claims(t, r)) by {
                    assert forall|x: int| 0 <= x < t.len() implies claimed(#[trigger] r[x])
                        == claimed(t[x]) by {
                        assert(claimed(r[x]) == claimed(tried[x]));
                    }
                }
            }
        }
    }
}

/// Where a node of level `l` is clear and its parent is not claimed, the
/// parent shows no flag of the node's side.
pub open spec fn tidy(t: Seq<u8>, l: nat) -> bool {
    forall|j: nat| #[trigger]
        bare(t, j) && pow2(l) <= j < pow2(l + 1) ==> !has_occ(t[(j / 2) as int], j) && !has_coal(
            t[(j / 2) as int],
            j,
        )
}

/// Node `j` is clear and its parent is not claimed.
pub open spec fn bare(t: Seq<u8>, j: nat) -> bool {
    j < t.len() && t[j as int] == 0 && !claimed(t[(j / 2) as int])
}

/// The word of node `p` after a scan that claimed `node` (or nothing, where
/// `node` is 0) on the level below and otherwise left the word as it was.
pub open spec fn parent_after(t: Seq<u8>, node: nat, p: int) -> u8 {
    if node != 0 && p == node / 2 {
        announced(t[p], node)
    } else {
        t[p]
    }
}

/// The attempt on node `n` leaves a consistent tree, succeeds exactly where
/// the node is eligible, and changes no claim but that of `n` where it
/// succeeds.
pub open spec fn attempt_kept(t: Seq<u8>, n: nat) -> bool {
    &&& consistent(try_claim(t, n).0)
    &&& try_claim(t, n).1 == 0 <==> eligible(t, n)
    &&& same_claims(
        if try_claim(t, n).1 == 0 {
            t.update(n as int, BUSY)
        } else {
            t
        },
        try_claim(t, n).0,
    )
}

/// On such a level the scan leaves the words of the level above as they
/// were, but for the parent of the node that it claims: an attempt that is
/// denied withdraws from the parent exactly what it wrote there.
pub proof fn lemma_scan_parents(t: Seq<u8>, i: nat, until: nat, l: nat)
    requires
        consistent(t),
        l >= 1,
        pow2(l) <= i <= until,
        until == pow2(l + 1),
        until <= t.len(),
        tidy(t, l),
    ensures
        forall|p: int|
            pow2((l - 1) as nat) <= p < pow2(l) ==> #[trigger] scan(t, i, until).0[p]
                == parent_after(t, scan(t, i, until).1, p),
    decreases until - i,
{
    lemma_pow2_pos(l);
    lemma_pow2_pos((l - 1) as nat);
    lemma_pow2_unfold(l + 1);
    lemma_pow2_unfold(l);
    if i >= until {
    } else if !claimable(t[i as int]) {
        lemma_scan_parents(t, i + 1, until, l);
        assert(scan(t, i, until) == scan(t, i + 1, until));
        assert forall|p: int| pow2((l - 1) as nat) <= p < pow2(l) implies #[trigger] scan(
                t,
                i,
                until,
            ).0[p] == parent_after(t, scan(t, i, until).1, p) by {}
    } else {
        lemma_try_claim(t, i);
        lemma_level_unique(i, l);
        let (tried, at) = try_claim(t, i);
        assert forall|p: int|
            pow2((l - 1) as nat) <= p < pow2(l) && p != i / 2 implies #[trigger] tried[p]
            == t[p] by {
            lemma_level_unique(p as nat, (l - 1) as nat);
            if covers(p as nat, i) {
                lemma_covers_level(p as nat, i / 2);
            }
        }
        if at != 0 {
            let k = (level_of(i) - level_of(at)) as nat;
            let next = i + 1 + followers(at, i);
            lemma_span(at, i);
            lemma_span_end(at, k);
            lemma_covers_order(at, i);
            lemma_covers_level(at, i);
            let v = t[(i / 2) as int];
            assert(i >= 2);
            if at != i && at != i / 2 {
                let start = t.update(i as int, BUSY);
                assert(t[i as int] == 0);
                assert(start[(i / 2) as int] == v);
                if claimed(v) {
                    assert(climb(start, i) == (start, i));
                    assert(at == i / 2);
                }
                assert(!claimed(t[(i / 2) as int]));
                assert(bare(t, i));
                crate::tags::lemma_side_restored(v, i);
            }
            assert(tried[(i / 2) as int] == v);
            assert forall|j: int| pow2(l) <= j < t.len() implies #[trigger] tried[j] == t[j] by {
                if covers(j as nat, i) && j != i {
                    lemma_covers_order(j as nat, i / 2);
                }
            }
            assert forall|j: nat| #[trigger]
                bare(tried, j) && pow2(l) <= j < pow2(l + 1) implies !has_occ(
                tried[(j / 2) as int],
                j,
            ) && !has_coal(tried[(j / 2) as int], j) by {
                assert(tried[j as int] == t[j as int]);
                assert(pow2((l - 1) as nat) <= j / 2 < pow2(l));
                assert(tried[(j / 2) as int] == t[(j / 2) as int]);
                assert(bare(t, j));
            }
            assert(tidy(tried, l));
            assert(next <= until);
            lemma_scan_parents(tried, next, until, l);
            assert(scan(t, i, until) == scan(tried, next, until));
            assert forall|p: int| pow2((l - 1) as nat) <= p < pow2(l) implies tried[p] == t[p] by {
                if p != i / 2 {
                    assert(tried[p] == t[p]);
                }
            }
            assert forall|p: int| pow2((l - 1) as nat) <= p < pow2(l) implies #[trigger] scan(
                t,
                i,
                until,
            ).0[p] == parent_after(t, scan(t, i, until).1, p) by {}
        } else {
            assert(i >= 2);
            assert(scan(t, i, until) == (tried, i));
            assert(tried[(i / 2) as int] == announced(t[(i / 2) as int], i));
            assert forall|p: int| pow2((l - 1) as nat) <= p < pow2(l) implies tried[p] == (if p
                == i / 2 {
                announced(t[p], i)
            } else {
                t[p]
            }) by {
                if p != i / 2 {
                    assert(tried[p] == t[p]);
                }
            }
            assert forall|p: int| pow2((l - 1) as nat) <= p < pow2(l) implies #[trigger] scan(
                t,
                i,
                until,
            ).0[p] == parent_after(t, scan(t, i, until).1, p) by {}
        }
    }
}

} // verus!
