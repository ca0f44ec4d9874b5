//! Orthogonal connectivity of a set of occupied cells.
//!
//! The one-hive rule of the game is stated over this notion of reachability:
//! a cell may act only if the remaining cells stay connected without it.

use vstd::prelude::*;
use crate::pos::{orth_adj, Pos};

verus! {

/// There is a path from `src` to `dst` of at most `n` steps whose cells after
/// `src` all lie in `occ`, consecutive cells being orthogonally adjacent.
pub open spec fn reach_n(occ: Set<Pos>, src: Pos, dst: Pos, n: nat) -> bool
    decreases n,
{
    if src == dst {
        true
    } else {
        n > 0 && exists|m: Pos|
            occ.contains(m) && orth_adj(m, dst) && reach_n(occ, src, m, (n - 1) as nat)
    }
}

/// `dst` can be reached from `src` through cells of `occ`.
pub open spec fn reach(occ: Set<Pos>, src: Pos, dst: Pos) -> bool {
    occ.contains(src) && occ.contains(dst) && exists|n: nat| reach_n(occ, src, dst, n)
}

/// Every two cells of `occ` are joined by a path through `occ`.
pub open spec fn connected(occ: Set<Pos>) -> bool {
    forall|p: Pos, q: Pos| occ.contains(p) && occ.contains(q) ==> #[trigger] reach(occ, p, q)
}

/// A path stays a path when the step budget grows.
pub proof fn lemma_reach_n_mono(occ: Set<Pos>, src: Pos, dst: Pos, n1: nat, n2: nat)
    requires
        reach_n(occ, src, dst, n1),
        n1 <= n2,
    ensures
        reach_n(occ, src, dst, n2),
    decreases n1,
{
    if src != dst {
        let m = choose|m: Pos|
            occ.contains(m) && orth_adj(m, dst) && reach_n(occ, src, m, (n1 - 1) as nat);
        lemma_reach_n_mono(occ, src, m, (n1 - 1) as nat, (n2 - 1) as nat);
    }
}

/// A path stays a path when the set of cells grows.
pub proof fn lemma_reach_n_mono_set(occ1: Set<Pos>, occ2: Set<Pos>, src: Pos, dst: Pos, n: nat)
    requires
        reach_n(occ1, src, dst, n),
        occ1.subset_of(occ2),
    ensures
        reach_n(occ2, src, dst, n),
    decreases n,
{
    if src != dst {
        let m = choose|m: Pos|
            occ1.contains(m) && orth_adj(m, dst) && reach_n(occ1, src, m, (n - 1) as nat);
        lemma_reach_n_mono_set(occ1, occ2, src, m, (n - 1) as nat);
        assert(occ2.contains(m) && orth_adj(m, dst) && reach_n(occ2, src, m, (n - 1) as nat));
    }
}

/// A path can be prolonged backwards through a cell of `occ` adjacent to its
/// source.
pub proof fn lemma_reach_n_extend_front(occ: Set<Pos>, s2: Pos, src: Pos, dst: Pos, n: nat)
    requires
        reach_n(occ, src, dst, n),
        occ.contains(s2),
        orth_adj(s2, src),
    ensures
        reach_n(occ, s2, dst, (n + 1) as nat),
    decreases n,
{
    if src == dst {
        if s2 != dst {
            assert(occ.contains(s2) && orth_adj(s2, dst) && reach_n(occ, s2, s2, n));
        }
    } else {
        let m = choose|m: Pos|
            occ.contains(m) && orth_adj(m, dst) && reach_n(occ, src, m, (n - 1) as nat);
        lemma_reach_n_extend_front(occ, s2, src, m, (n - 1) as nat);
        assert(occ.contains(m) && orth_adj(m, dst) && reach_n(occ, s2, m, n));
    }
}

/// Reversing a path between two cells of `occ`.
pub proof fn lemma_reach_n_sym(occ: Set<Pos>, src: Pos, dst: Pos, n: nat)
    requires
        reach_n(occ, src, dst, n),
        occ.contains(src),
        occ.contains(dst),
    ensures
        reach_n(occ, dst, src, (n + 1) as nat),
    decreases n,
{
    if src != dst {
        let m = choose|m: Pos|
            occ.contains(m) && orth_adj(m, dst) && reach_n(occ, src, m, (n - 1) as nat);
        lemma_reach_n_sym(occ, src, m, (n - 1) as nat);
        lemma_reach_n_extend_front(occ, dst, m, src, n);
        assert(orth_adj(dst, m));
    }
}

/// Reachability is symmetric.
pub proof fn lemma_reach_sym(occ: Set<Pos>, src: Pos, dst: Pos)
    requires
        reach(occ, src, dst),
    ensures
        reach(occ, dst, src),
{
    let n = choose|n: nat| reach_n(occ, src, dst, n);
    lemma_reach_n_sym(occ, src, dst, n);
}

/// Concatenating two paths.
pub proof fn lemma_reach_n_trans(occ: Set<Pos>, a: Pos, b: Pos, c: Pos, n1: nat, n2: nat)
    requires
        reach_n(occ, a, b, n1),
        reach_n(occ, b, c, n2),
    ensures
        reach_n(occ, a, c, (n1 + n2) as nat),
    decreases n2,
{
    if b == c {
        lemma_reach_n_mono(occ, a, b, n1, (n1 + n2) as nat);
    } else {
        let m = choose|m: Pos|
            occ.contains(m) && orth_adj(m, c) && reach_n(occ, b, m, (n2 - 1) as nat);
        lemma_reach_n_trans(occ, a, b, m, n1, (n2 - 1) as nat);
        assert(occ.contains(m) && orth_adj(m, c) && reach_n(occ, a, m, (n1 + n2 - 1) as nat));
    }
}

/// Reachability is transitive.
pub proof fn lemma_reach_trans(occ: Set<Pos>, a: Pos, b: Pos, c: Pos)
    requires
        reach(occ, a, b),
        reach(occ, b, c),
    ensures
        reach(occ, a, c),
{
    let n1 = choose|n: nat| reach_n(occ, a, b, n);
    let n2 = choose|n: nat| reach_n(occ, b, c, n);
    lemma_reach_n_trans(occ, a, b, c, n1, n2);
}

/// A set that contains `src` and is closed under adjacency within `occ`
/// swallows everything reachable from `src`.
pub proof fn lemma_reach_in_closed(occ: Set<Pos>, s: Set<Pos>, src: Pos, dst: Pos, n: nat)
    requires
        s.contains(src),
        forall|v: Pos, w: Pos|
            s.contains(v) && occ.contains(w) && #[trigger] orth_adj(v, w) ==> s.contains(w),
        reach_n(occ, src, dst, n),
        occ.contains(dst),
    ensures
        s.contains(dst),
    decreases n,
{
    if src != dst {
        let m = choose|m: Pos|
            occ.contains(m) && orth_adj(m, dst) && reach_n(occ, src, m, (n - 1) as nat);
        lemma_reach_in_closed(occ, s, src, m, (n - 1) as nat);
        assert(orth_adj(m, dst));
    }
}

/// A connected set stays connected when a cell adjacent to one of its
/// members joins it.
pub proof fn lemma_connected_insert(occ: Set<Pos>, t: Pos, p: Pos)
    requires
        connected(occ),
        occ.contains(t),
        orth_adj(p, t),
    ensures
        connected(occ.insert(p)),
{
    let o2 = occ.insert(p);
    assert forall|a: Pos, b: Pos| o2.contains(a) && o2.contains(b)
        implies #[trigger] reach(o2, a, b) by {
        if occ.contains(a) && occ.contains(b) {
            assert(reach(occ, a, b));
            let n = choose|n: nat| reach_n(occ, a, b, n);
            lemma_reach_n_mono_set(occ, o2, a, b, n);
        } else if a == b {
            assert(reach_n(o2, a, b, 0));
        } else if a == p {
            assert(reach(occ, t, b));
            let n = choose|n: nat| reach_n(occ, t, b, n);
            lemma_reach_n_mono_set(occ, o2, t, b, n);
            lemma_reach_n_extend_front(o2, p, t, b, n);
        } else {
            // b == p
            assert(reach(occ, a, t));
            let n = choose|n: nat| reach_n(occ, a, t, n);
            lemma_reach_n_mono_set(occ, o2, a, t, n);
            assert(o2.contains(t) && orth_adj(t, p) && reach_n(o2, a, t, n));
            assert(reach_n(o2, a, p, (n + 1) as nat));
        }
    }
}

/// In a connected set, a cell with company has an occupied neighbour.
pub proof fn lemma_connected_has_neighbor(occ: Set<Pos>, p: Pos, q: Pos)
    requires
        connected(occ),
        occ.contains(p),
        occ.contains(q),
        p != q,
    ensures
        exists|m: Pos| occ.contains(m) && #[trigger] orth_adj(p, m),
{
    assert(reach(occ, q, p));
    let n = choose|n: nat| reach_n(occ, q, p, n);
    let m = choose|m: Pos|
        occ.contains(m) && orth_adj(m, p) && reach_n(occ, q, m, (n - 1) as nat);
    assert(occ.contains(m) && orth_adj(p, m));
}

} // verus!
