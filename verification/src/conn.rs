//! The connectivity oracle: whether a die may leave its cell without
//! splitting the formation.
//!
//! A cell is free when the other occupied cells stay orthogonally connected
//! without it — the one-hive rule.  The check walks the occupied cells from
//! one neighbour of the candidate, never expanding through the candidate
//! itself, and compares how many cells it saw with how many there are.

use vstd::prelude::*;
use vstd::set_lib::{lemma_len_subset, lemma_subset_equality};
use crate::pos::{in_bounds, orth_adj, Pos};
use crate::board::Board;
use crate::dice::Die;
use crate::graph::{connected, reach, reach_n, lemma_reach_in_closed, lemma_reach_sym, lemma_reach_trans};
use crate::slide::contains_pos;

verus! {

/// An occupied cell is free when the remaining occupied cells are still
/// orthogonally connected without it.  Opaque: proofs that need the
/// definition reveal it; the action generators treat it as a black box.
#[verifier::opaque]
pub open spec fn free_cell(b: Map<Pos, Die>, p: Pos) -> bool {
    connected(b.dom().remove(p))
}

/// The cell has an occupied orthogonal neighbour.  Opaque: stated this way,
/// the board invariant "no die stands alone" cannot send the solver chasing
/// neighbour after neighbour; proofs that need the witness reveal it.
#[verifier::opaque]
pub open spec fn has_neighbor(b: Map<Pos, Die>, p: Pos) -> bool {
    exists|q: Pos| b.dom().contains(q) && #[trigger] orth_adj(p, q)
}

/// What appending one cell does to membership in the list.
proof fn lemma_push_contains(s: Seq<Pos>, w: Pos)
    ensures
        s.push(w).contains(w),
        forall|v: Pos| s.contains(v) ==> #[trigger] s.push(w).contains(v),
        forall|v: Pos| #[trigger] s.push(w).contains(v) ==> s.contains(v) || v == w,
{
    assert(s.push(w)[s.len() as int] == w);
    assert forall|v: Pos| s.contains(v) implies #[trigger] s.push(w).contains(v) by {
        let u = choose|u: int| 0 <= u < s.len() && s[u] == v;
        assert(s.push(w)[u] == v);
    }
    assert forall|v: Pos| #[trigger] s.push(w).contains(v) implies s.contains(v) || v == w by {
        let u = choose|u: int| 0 <= u < s.push(w).len() && s.push(w)[u] == v;
        if u < s.len() {
            assert(s[u] == v);
        }
    }
}

/// A fresh cell keeps the visited list duplicate-free and within the board.
proof fn lemma_push_visited(s: Seq<Pos>, w: Pos, dom: Set<Pos>)
    requires
        s.no_duplicates(),
        !s.contains(w),
        dom.finite(),
        dom.contains(w),
        forall|v: Pos| #[trigger] s.contains(v) ==> dom.contains(v),
    ensures
        s.push(w).no_duplicates(),
        s.push(w).len() <= dom.len(),
{
    lemma_push_contains(s, w);
    assert forall|a: int, b: int| 0 <= a < b < s.push(w).len()
        implies s.push(w)[a] != s.push(w)[b] by {
        if b == s.len() {
            assert(s[a] == s.push(w)[a]);
            assert(s.contains(s[a]));
        }
    }
    s.push(w).unique_seq_to_set();
    assert(s.push(w).to_set().subset_of(dom)) by {
        assert forall|v: Pos| s.push(w).to_set().contains(v) implies dom.contains(v) by {
            assert(s.push(w).contains(v));
        }
    }
    lemma_len_subset(s.push(w).to_set(), dom);
}

/// Whether the occupied cells form one orthogonally connected group: the
/// walk from the first entry must meet every die.
pub fn all_connected(board: &Board) -> (r: bool)
    requires
        board.wf(),
        board@.dom().len() >= 1,
        forall|p: Pos| board@.dom().contains(p) ==> in_bounds(p),
    ensures
        r == connected(board@.dom()),
{
    let ghost dom = board@.dom();
    proof {
        board.lemma_entries();
    }
    let e = board.entry(0);
    let seed = e.0;
    proof {
        assert(dom.contains(seed));
        assert(reach_n(dom, seed, seed, 0));
        assert(reach(dom, seed, seed));
    }
    let mut visited: Vec<Pos> = Vec::new();
    let mut queue: Vec<Pos> = Vec::new();
    let ghost e0 = visited@;
    proof {
        lemma_push_visited(e0, seed, dom);
        lemma_push_contains(e0, seed);
    }
    visited.push(seed);
    queue.push(seed);
    proof {
        assert(visited@.contains(seed)) by {
            assert(visited@[0] == seed);
        }
        assert forall|v: Pos| #[trigger] visited@.contains(v) implies v == seed by {
            let u = choose|u: int| 0 <= u < visited@.len() && visited@[u] == v;
        }
        assert forall|v: Pos| #[trigger] queue@.contains(v) implies v == seed by {
            let u = choose|u: int| 0 <= u < queue@.len() && queue@[u] == v;
        }
        assert(queue@.no_duplicates()) by {
            assert(queue@.len() == 1);
        }
    }
    while queue.len() > 0
        invariant
            board.wf(),
            dom == board@.dom(),
            dom.finite(),
            forall|p: Pos| dom.contains(p) ==> in_bounds(p),
            dom.contains(seed),
            visited@.no_duplicates(),
            visited@.contains(seed),
            forall|v: Pos| #[trigger] visited@.contains(v)
                ==> dom.contains(v) && reach(dom, seed, v),
            forall|q: Pos| #[trigger] queue@.contains(q) ==> visited@.contains(q),
            queue@.no_duplicates(),
            forall|v: Pos, w: Pos|
                visited@.contains(v) && !queue@.contains(v) && dom.contains(w)
                    && #[trigger] orth_adj(v, w) ==> visited@.contains(w),
            visited@.len() <= dom.len(),
        decreases dom.len() - visited@.len(), queue@.len(),
    {
        let ghost q0 = queue@;
        let ghost v0 = visited@;
        let node = match queue.pop() {
            Some(n) => n,
            None => {
                proof {
                    assert(false);
                }
                unreached()
            },
        };
        proof {
            assert(node == q0.last());
            assert(q0.contains(node));
            assert(queue@ == q0.drop_last());
            assert forall|q: Pos| #[trigger] queue@.contains(q) implies q0.contains(q) by {
                let u = choose|u: int| 0 <= u < queue@.len() && queue@[u] == q;
                assert(q0[u] == q);
            }
            assert forall|q: Pos| #[trigger] q0.contains(q)
                implies queue@.contains(q) || q == node by {
                let u = choose|u: int| 0 <= u < q0.len() && q0[u] == q;
                if u < q0.len() - 1 {
                    assert(queue@[u] == q);
                }
            }
            assert(!queue@.contains(node)) by {
                if queue@.contains(node) {
                    let u = choose|u: int| 0 <= u < queue@.len() && queue@[u] == node;
                    assert(q0[u] == q0[q0.len() - 1]);
                }
            }
            assert(visited@.contains(node));
            assert(in_bounds(node));
        }

        let nadjs = node.adjacents();
        let mut ni: usize = 0;
        while ni < 4
            invariant
                board.wf(),
                dom == board@.dom(),
                dom.finite(),
                forall|p: Pos| dom.contains(p) ==> in_bounds(p),
                dom.contains(seed),
                nadjs@.len() == 4,
                forall|q: Pos| nadjs@.contains(q) <==> orth_adj(node, q),
                ni <= 4,
                visited@.contains(node),
                visited@.no_duplicates(),
                visited@.contains(seed),
                forall|v: Pos| #[trigger] visited@.contains(v)
                    ==> dom.contains(v) && reach(dom, seed, v),
                forall|q: Pos| #[trigger] queue@.contains(q) ==> visited@.contains(q),
                queue@.no_duplicates(),
                !queue@.contains(node),
                forall|v: Pos, w: Pos|
                    visited@.contains(v) && v != node && !queue@.contains(v)
                        && dom.contains(w) && #[trigger] orth_adj(v, w)
                        ==> visited@.contains(w),
                forall|j: int| 0 <= j < ni ==>
                    !dom.contains(#[trigger] nadjs@[j]) || visited@.contains(nadjs@[j]),
                visited@.len() <= dom.len(),
                visited@.len() >= v0.len(),
                queue@.len() == q0.len() - 1 + visited@.len() - v0.len(),
            decreases 4 - ni,
        {
            let a = nadjs[ni];
            proof {
                assert(nadjs@.contains(a)) by {
                    assert(nadjs@[ni as int] == a);
                }
                assert(orth_adj(node, a));
            }
            if board.contains(a) {
                if !contains_pos(&visited, a) {
                    let ghost vv0 = visited@;
                    let ghost qq0 = queue@;
                    proof {
                        assert(visited@.contains(node));
                        assert(dom.contains(node) && reach(dom, seed, node));
                        let n = choose|n: nat| reach_n(dom, seed, node, n);
                        assert(dom.contains(node) && orth_adj(node, a)
                            && reach_n(dom, seed, node, n));
                        assert(reach_n(dom, seed, a, (n + 1) as nat));
                        assert(reach(dom, seed, a));
                        lemma_push_visited(vv0, a, dom);
                        lemma_push_contains(vv0, a);
                        lemma_push_contains(qq0, a);
                        assert(!qq0.contains(a));
                        assert forall|b2: int, c2: int| 0 <= b2 < c2 < qq0.push(a).len()
                            implies qq0.push(a)[b2] != qq0.push(a)[c2] by {
                            if c2 == qq0.len() {
                                assert(qq0[b2] == qq0.push(a)[b2]);
                                assert(qq0.contains(qq0[b2]));
                            }
                        }
                    }
                    visited.push(a);
                    queue.push(a);
                }
            }
            proof {
                assert(!dom.contains(nadjs@[ni as int]) || visited@.contains(nadjs@[ni as int]));
            }
            ni += 1;
        }
        proof {
            // `node` is now fully expanded.
            assert forall|w: Pos| dom.contains(w) && #[trigger] orth_adj(node, w)
                implies visited@.contains(w) by {
                assert(nadjs@.contains(w));
                let j = choose|j: int| 0 <= j < nadjs@.len() && nadjs@[j] == w;
            }
        }
    }

    let r = visited.len() == board.len();
    proof {
        visited@.unique_seq_to_set();
        let vs = visited@.to_set();
        assert(vs.subset_of(dom)) by {
            assert forall|v: Pos| vs.contains(v) implies dom.contains(v) by {
                assert(visited@.contains(v));
            }
        }
        lemma_len_subset(vs, dom);
        if r {
            lemma_subset_equality(vs, dom);
            assert forall|p: Pos, q: Pos| dom.contains(p) && dom.contains(q)
                implies #[trigger] reach(dom, p, q) by {
                assert(vs.contains(p) && vs.contains(q));
                assert(visited@.contains(p) && visited@.contains(q));
                assert(reach(dom, seed, p) && reach(dom, seed, q));
                lemma_reach_sym(dom, seed, p);
                lemma_reach_trans(dom, p, seed, q);
            }
            assert(connected(dom));
        } else {
            assert(vs.len() < dom.len());
            if connected(dom) {
                assert forall|v: Pos, w: Pos|
                    vs.contains(v) && dom.contains(w) && #[trigger] orth_adj(v, w)
                    implies vs.contains(w) by {
                    assert(visited@.contains(v));
                    assert(visited@.contains(w));
                }
                assert forall|q: Pos| dom.contains(q) implies vs.contains(q) by {
                    assert(reach(dom, seed, q));
                    let n = choose|n: nat| reach_n(dom, seed, q, n);
                    lemma_reach_in_closed(dom, vs, seed, q, n);
                }
                assert(dom.subset_of(vs));
                lemma_len_subset(dom, vs);
                assert(false);
            }
        }
    }
    r
}

/// Whether the occupied cell `pos` is free: removing it keeps the remaining
/// occupied cells orthogonally connected.
pub fn is_free(board: &Board, pos: Pos) -> (r: bool)
    requires
        board.wf(),
        board@.dom().contains(pos),
        forall|p: Pos| board@.dom().contains(p) ==> in_bounds(p),
        board@.dom().len() == 1 || has_neighbor(board@, pos),
    ensures
        r == free_cell(board@, pos),
{
    let ghost dom = board@.dom();
    let ghost occ = dom.remove(pos);
    proof {
        reveal(has_neighbor);
        board.lemma_entries();
    }

    // Find a seed: an occupied neighbour of `pos`.
    let adjs = pos.adjacents();
    let mut seed_opt: Option<Pos> = None;
    let mut ai: usize = 0;
    while ai < 4
        invariant
            board.wf(),
            dom == board@.dom(),
            adjs@.len() == 4,
            forall|q: Pos| adjs@.contains(q) <==> orth_adj(pos, q),
            ai <= 4,
            seed_opt is Some ==> dom.contains(seed_opt->0) && orth_adj(pos, seed_opt->0),
            seed_opt is None ==> forall|j: int| 0 <= j < ai ==> !dom.contains(#[trigger] adjs@[j]),
        decreases 4 - ai,
    {
        if seed_opt.is_none() && board.contains(adjs[ai]) {
            proof {
                assert(adjs@.contains(adjs@[ai as int]));
            }
            seed_opt = Some(adjs[ai]);
        }
        ai += 1;
    }

    let seed = match seed_opt {
        Some(s) => s,
        None => {
            // No occupied neighbour: the board must be this one cell alone,
            // and the empty remainder is vacuously connected.
            proof {
                assert forall|q: Pos| dom.contains(q) && orth_adj(pos, q) implies false by {
                    assert(adjs@.contains(q));
                    let j = choose|j: int| 0 <= j < adjs@.len() && adjs@[j] == q;
                }
                assert(dom.len() == 1);
                assert forall|q: Pos| occ.contains(q) implies false by {
                    assert(dom.contains(q) && q != pos);
                    assert(dom.remove(q).contains(pos));
                    assert(dom.remove(q).len() == 0);
                }
                assert(connected(occ));
            }
            proof {
                reveal(free_cell);
            }
            return board.len() == 1;
        },
    };

    proof {
        assert(seed != pos);
        assert(occ.contains(seed));
        assert(reach_n(occ, seed, seed, 0));
        assert(reach(occ, seed, seed));
    }

    let mut visited: Vec<Pos> = Vec::new();
    let mut queue: Vec<Pos> = Vec::new();
    let ghost e0 = visited@;
    visited.push(pos);
    let ghost e1 = visited@;
    proof {
        lemma_push_contains(e0, pos);
        assert forall|v: Pos| #[trigger] e1.contains(v) implies v == pos by {}
        assert(e1.no_duplicates()) by {
            assert(e1.len() == 1);
        }
        assert(!e1.contains(seed));
        assert(dom.len() >= 2) by {
            assert(dom.remove(pos).contains(seed));
            assert(dom.remove(pos).len() == dom.len() - 1);
            assert(dom.remove(pos).remove(seed).len() >= 0);
        }
        lemma_push_visited(e1, seed, dom);
        lemma_push_contains(e1, seed);
    }
    visited.push(seed);
    let ghost f0 = queue@;
    queue.push(seed);
    proof {
        lemma_push_contains(f0, seed);
        assert forall|v: Pos| #[trigger] queue@.contains(v) implies v == seed by {}
        assert(queue@.no_duplicates()) by {
            assert(queue@.len() == 1);
        }
        assert(visited@.contains(pos));
        assert(visited@.contains(seed));
    }

    while queue.len() > 0
        invariant
            board.wf(),
            dom == board@.dom(),
            occ == dom.remove(pos),
            dom.finite(),
            dom.contains(pos),
            forall|p: Pos| dom.contains(p) ==> in_bounds(p),
            occ.contains(seed),
            visited@.no_duplicates(),
            visited@.contains(pos),
            visited@.contains(seed),
            forall|v: Pos| #[trigger] visited@.contains(v) ==> dom.contains(v),
            forall|v: Pos| #[trigger] visited@.contains(v) && v != pos
                ==> occ.contains(v) && reach(occ, seed, v),
            forall|q: Pos| #[trigger] queue@.contains(q) ==> visited@.contains(q) && q != pos,
            queue@.no_duplicates(),
            forall|v: Pos, w: Pos|
                visited@.contains(v) && v != pos && !queue@.contains(v) && occ.contains(w)
                    && #[trigger] orth_adj(v, w) ==> visited@.contains(w),
            visited@.len() <= dom.len(),
        decreases dom.len() - visited@.len(), queue@.len(),
    {
        let ghost q0 = queue@;
        let ghost v0 = visited@;
        let node = match queue.pop() {
            Some(n) => n,
            None => {
                proof {
                    assert(false);
                }
                unreached()
            },
        };
        proof {
            assert(node == q0.last());
            assert(q0.contains(node));
            assert(queue@ == q0.drop_last());
            assert forall|q: Pos| #[trigger] queue@.contains(q) implies q0.contains(q) by {
                let u = choose|u: int| 0 <= u < queue@.len() && queue@[u] == q;
                assert(q0[u] == q);
            }
            assert forall|q: Pos| #[trigger] q0.contains(q) implies queue@.contains(q) || q == node by {
                let u = choose|u: int| 0 <= u < q0.len() && q0[u] == q;
                if u < q0.len() - 1 {
                    assert(queue@[u] == q);
                }
            }
            assert(!queue@.contains(node)) by {
                if queue@.contains(node) {
                    let u = choose|u: int| 0 <= u < queue@.len() && queue@[u] == node;
                    assert(q0[u] == q0[q0.len() - 1]);
                }
            }
            assert(visited@.contains(node) && node != pos);
            assert(in_bounds(node));
        }

        let nadjs = node.adjacents();
        let mut ni: usize = 0;
        while ni < 4
            invariant
                board.wf(),
                dom == board@.dom(),
                occ == dom.remove(pos),
                dom.finite(),
                dom.contains(pos),
                forall|p: Pos| dom.contains(p) ==> in_bounds(p),
                occ.contains(seed),
                nadjs@.len() == 4,
                forall|q: Pos| nadjs@.contains(q) <==> orth_adj(node, q),
                ni <= 4,
                visited@.contains(node),
                node != pos,
                visited@.no_duplicates(),
                visited@.contains(pos),
                visited@.contains(seed),
                forall|v: Pos| #[trigger] visited@.contains(v) ==> dom.contains(v),
                forall|v: Pos| #[trigger] visited@.contains(v) && v != pos
                    ==> occ.contains(v) && reach(occ, seed, v),
                forall|q: Pos| #[trigger] queue@.contains(q) ==> visited@.contains(q) && q != pos,
                queue@.no_duplicates(),
                !queue@.contains(node),
                forall|v: Pos, w: Pos|
                    visited@.contains(v) && v != pos && v != node && !queue@.contains(v)
                        && occ.contains(w) && #[trigger] orth_adj(v, w) ==> visited@.contains(w),
                forall|j: int| 0 <= j < ni ==>
                    !occ.contains(#[trigger] nadjs@[j]) || visited@.contains(nadjs@[j]),
                visited@.len() <= dom.len(),
                visited@.len() >= v0.len(),
                queue@.len() == q0.len() - 1 + visited@.len() - v0.len(),
            decreases 4 - ni,
        {
            let a = nadjs[ni];
            proof {
                assert(nadjs@.contains(a)) by {
                    assert(nadjs@[ni as int] == a);
                }
                assert(orth_adj(node, a));
            }
            if board.contains(a) {
                if !contains_pos(&visited, a) {
                    let ghost vv0 = visited@;
                    let ghost qq0 = queue@;
                    proof {
                        assert(visited@.contains(pos));
                        assert(a != pos);
                        assert(occ.contains(a));
                        assert(visited@.contains(node));
                        assert(occ.contains(node) && reach(occ, seed, node));
                        let n = choose|n: nat| reach_n(occ, seed, node, n);
                        assert(occ.contains(node) && orth_adj(node, a)
                            && reach_n(occ, seed, node, n));
                        assert(reach_n(occ, seed, a, (n + 1) as nat));
                        assert(reach(occ, seed, a));
                        lemma_push_visited(vv0, a, dom);
                        lemma_push_contains(vv0, a);
                        lemma_push_contains(qq0, a);
                        assert(!qq0.contains(a));
                        assert forall|b2: int, c2: int| 0 <= b2 < c2 < qq0.push(a).len()
                            implies qq0.push(a)[b2] != qq0.push(a)[c2] by {
                            if c2 == qq0.len() {
                                assert(qq0[b2] == qq0.push(a)[b2]);
                                assert(qq0.contains(qq0[b2]));
                            }
                        }
                    }
                    visited.push(a);
                    queue.push(a);
                }
            }
            proof {
                assert(!occ.contains(nadjs@[ni as int]) || visited@.contains(nadjs@[ni as int]));
            }
            ni += 1;
        }
        proof {
            // `node` is now fully expanded.
            assert forall|w: Pos| occ.contains(w) && #[trigger] orth_adj(node, w)
                implies visited@.contains(w) by {
                assert(nadjs@.contains(w));
                let j = choose|j: int| 0 <= j < nadjs@.len() && nadjs@[j] == w;
            }
        }
    }

    // The walk is finished; compare counts.
    let r = visited.len() == board.len();
    proof {
        reveal(free_cell);
        visited@.unique_seq_to_set();
        let vs = visited@.to_set();
        assert(vs.subset_of(dom)) by {
            assert forall|v: Pos| vs.contains(v) implies dom.contains(v) by {
                assert(visited@.contains(v));
            }
        }
        lemma_len_subset(vs, dom);
        if r {
            lemma_subset_equality(vs, dom);
            assert forall|p: Pos, q: Pos| occ.contains(p) && occ.contains(q)
                implies #[trigger] reach(occ, p, q) by {
                assert(dom.contains(p) && p != pos && dom.contains(q) && q != pos);
                assert(vs.contains(p) && vs.contains(q));
                assert(visited@.contains(p) && visited@.contains(q));
                assert(reach(occ, seed, p) && reach(occ, seed, q));
                lemma_reach_sym(occ, seed, p);
                lemma_reach_trans(occ, p, seed, q);
            }
            assert(free_cell(board@, pos));
        } else {
            assert(vs.len() < dom.len());
            if connected(occ) {
                let s = vs.remove(pos);
                assert(s.contains(seed)) by {
                    assert(visited@.contains(seed));
                }
                assert forall|v: Pos, w: Pos|
                    s.contains(v) && occ.contains(w) && #[trigger] orth_adj(v, w)
                    implies s.contains(w) by {
                    assert(vs.contains(v));
                    assert(visited@.contains(v) && v != pos);
                    assert(!queue@.contains(v));
                    assert(visited@.contains(w));
                    assert(w != pos);
                    assert(vs.contains(w));
                }
                assert forall|q: Pos| dom.contains(q) implies vs.contains(q) by {
                    if q != pos {
                        assert(occ.contains(q));
                        assert(reach(occ, seed, q));
                        let n = choose|n: nat| reach_n(occ, seed, q, n);
                        lemma_reach_in_closed(occ, s, seed, q, n);
                        assert(s.contains(q));
                    } else {
                        assert(visited@.contains(pos));
                    }
                }
                assert(dom.subset_of(vs));
                lemma_len_subset(dom, vs);
                assert(false);
            }
            assert(!free_cell(board@, pos));
        }
    }
    r
}

} // verus!
