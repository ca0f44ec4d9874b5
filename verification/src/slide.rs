//! The physical slide rule: one step of a moving die, and the set of cells a
//! die reaches after a fixed number of steps.
//!
//! While a die moves, its own origin cell counts as empty — the moving stack
//! is lifted off the board.  A diagonal step must squeeze past exactly one
//! occupied shoulder; an orthogonal step must keep contact with an occupied
//! brace on one side.

use vstd::prelude::*;
use crate::pos::{in_bounds, orth_adj, Pos};
use crate::board::Board;
use crate::dice::Die;

verus! {

/// The cell with the given coordinates, which must be representable.
pub open spec fn at(x: int, y: int) -> Pos {
    Pos(x as i32, y as i32)
}

/// Whether the cell reads as empty while the die from `from` is in motion.
pub open spec fn empty_for(b: Map<Pos, Die>, from: Pos, p: Pos) -> bool {
    p == from || !b.dom().contains(p)
}

/// Whether the cell at `(x, y)` reads as occupied while the die from `from`
/// is in motion.
pub open spec fn occ_for(b: Map<Pos, Die>, from: Pos, x: int, y: int) -> bool {
    !empty_for(b, from, at(x, y))
}

/// One legal slide step from `src` to `dst` for the die lifted off `from`:
/// the destination is empty; a diagonal step needs exactly one of its two
/// shoulder cells occupied, an orthogonal step needs both cells of one of its
/// two side braces occupied.
pub open spec fn step_ok(b: Map<Pos, Die>, from: Pos, src: Pos, dst: Pos) -> bool {
    let x = src.0 as int;
    let y = src.1 as int;
    let dx = dst.0 - x;
    let dy = dst.1 - y;
    &&& in_bounds(src)
    &&& in_bounds(dst)
    &&& empty_for(b, from, dst)
    &&& {
        ||| ((dx == 1 || dx == -1) && (dy == 1 || dy == -1)
            && (occ_for(b, from, x + dx, y) != occ_for(b, from, x, y + dy)))
        ||| ((dx == 1 || dx == -1) && dy == 0
            && ((occ_for(b, from, x + dx, y - 1) && occ_for(b, from, x, y - 1))
                || (occ_for(b, from, x + dx, y + 1) && occ_for(b, from, x, y + 1))))
        ||| (dx == 0 && (dy == 1 || dy == -1)
            && ((occ_for(b, from, x - 1, y + dy) && occ_for(b, from, x - 1, y))
                || (occ_for(b, from, x + 1, y + dy) && occ_for(b, from, x + 1, y))))
    }
}

/// The cells the die lifted off `from` can stand on after exactly `k` slide
/// steps.
pub open spec fn slide_set(b: Map<Pos, Die>, from: Pos, k: nat) -> Set<Pos>
    decreases k,
{
    if k == 0 {
        Set::empty().insert(from)
    } else {
        Set::new(|dst: Pos| exists|src: Pos|
            slide_set(b, from, (k - 1) as nat).contains(src) && #[trigger] step_ok(b, from, src, dst))
    }
}

/// What one legal step says about its destination: it is a representable,
/// empty cell, and it touches a cell that is occupied even with the moving
/// die lifted.
pub proof fn lemma_step_ok_props(b: Map<Pos, Die>, from: Pos, src: Pos, dst: Pos)
    requires
        step_ok(b, from, src, dst),
    ensures
        in_bounds(dst),
        empty_for(b, from, dst),
        exists|m: Pos| !empty_for(b, from, m) && #[trigger] orth_adj(dst, m),
{
    let x = src.0 as int;
    let y = src.1 as int;
    let dx = dst.0 - x;
    let dy = dst.1 - y;
    if (dx == 1 || dx == -1) && (dy == 1 || dy == -1) {
        if occ_for(b, from, x + dx, y) {
            let m = at(x + dx, y);
            assert(m.0 == x + dx && m.1 == y);
            assert(!empty_for(b, from, m) && orth_adj(dst, m));
        } else {
            let m = at(x, y + dy);
            assert(m.0 == x && m.1 == y + dy);
            assert(!empty_for(b, from, m) && orth_adj(dst, m));
        }
    } else if (dx == 1 || dx == -1) && dy == 0 {
        if occ_for(b, from, x + dx, y - 1) && occ_for(b, from, x, y - 1) {
            let m = at(x + dx, y - 1);
            assert(m.0 == x + dx && m.1 == y - 1);
            assert(!empty_for(b, from, m) && orth_adj(dst, m));
        } else {
            let m = at(x + dx, y + 1);
            assert(m.0 == x + dx && m.1 == y + 1);
            assert(!empty_for(b, from, m) && orth_adj(dst, m));
        }
    } else {
        if occ_for(b, from, x - 1, y + dy) && occ_for(b, from, x - 1, y) {
            let m = at(x - 1, y + dy);
            assert(m.0 == x - 1 && m.1 == y + dy);
            assert(!empty_for(b, from, m) && orth_adj(dst, m));
        } else {
            let m = at(x + 1, y + dy);
            assert(m.0 == x + 1 && m.1 == y + dy);
            assert(!empty_for(b, from, m) && orth_adj(dst, m));
        }
    }
}

/// Every cell in the reach set after at least one step is an empty,
/// representable cell touching an occupied one.
pub proof fn lemma_slide_member(b: Map<Pos, Die>, from: Pos, k: nat, dst: Pos)
    requires
        k >= 1,
        slide_set(b, from, k).contains(dst),
    ensures
        in_bounds(dst),
        empty_for(b, from, dst),
        exists|m: Pos| !empty_for(b, from, m) && #[trigger] orth_adj(dst, m),
{
    let src = choose|src: Pos|
        slide_set(b, from, (k - 1) as nat).contains(src) && #[trigger] step_ok(b, from, src, dst);
    lemma_step_ok_props(b, from, src, dst);
}

/// Whether `p` reads as occupied while the die from `from` is in motion.
fn occ_f(board: &Board, from: Pos, p: Pos) -> (r: bool)
    requires
        board.wf(),
    ensures
        r == !empty_for(board@, from, p),
{
    if p == from {
        false
    } else {
        board.contains(p)
    }
}

/// Whether moving the die lifted off `from` one step from `src` to `dst` is
/// legal.
fn step_check(board: &Board, from: Pos, src: Pos, dst: Pos) -> (r: bool)
    requires
        board.wf(),
        in_bounds(src),
        dst != src,
        -1 <= dst.0 - src.0 <= 1,
        -1 <= dst.1 - src.1 <= 1,
    ensures
        r == step_ok(board@, from, src, dst),
{
    let x = src.0;
    let y = src.1;
    let dx = dst.0 - x;
    let dy = dst.1 - y;
    if dst.0 < i32::MIN + 2 || dst.0 > i32::MAX - 2 || dst.1 < i32::MIN + 2 || dst.1 > i32::MAX - 2 {
        return false;
    }
    if occ_f(board, from, dst) {
        return false;
    }
    if dx != 0 && dy != 0 {
        let s1 = occ_f(board, from, Pos(dst.0, y));
        let s2 = occ_f(board, from, Pos(x, dst.1));
        s1 != s2
    } else if dx != 0 {
        let braced_down = occ_f(board, from, Pos(dst.0, y - 1)) && occ_f(board, from, Pos(x, y - 1));
        let braced_up = occ_f(board, from, Pos(dst.0, y + 1)) && occ_f(board, from, Pos(x, y + 1));
        braced_down || braced_up
    } else {
        proof {
            assert(dy != 0) by {
                if dy == 0 {
                    assert(dst == src);
                }
            }
        }
        let braced_left = occ_f(board, from, Pos(x - 1, dst.1)) && occ_f(board, from, Pos(x - 1, y));
        let braced_right = occ_f(board, from, Pos(x + 1, dst.1)) && occ_f(board, from, Pos(x + 1, y));
        braced_left || braced_right
    }
}

/// The legal one-step destinations from `src` for the die lifted off `from`.
pub fn steps(board: &Board, from: Pos, src: Pos) -> (r: Vec<Pos>)
    requires
        board.wf(),
        in_bounds(src),
    ensures
        forall|d: Pos| r@.contains(d) <==> step_ok(board@, from, src, d),
        r@.no_duplicates(),
{
    let x = src.0;
    let y = src.1;
    let cand: Vec<Pos> = vec![
        Pos(x - 1, y - 1),
        Pos(x - 1, y),
        Pos(x - 1, y + 1),
        Pos(x, y - 1),
        Pos(x, y + 1),
        Pos(x + 1, y - 1),
        Pos(x + 1, y),
        Pos(x + 1, y + 1),
    ];
    let mut r: Vec<Pos> = Vec::new();
    let mut i: usize = 0;
    while i < 8
        invariant
            board.wf(),
            in_bounds(src),
            i <= 8,
            cand@.len() == 8,
            cand@ == candidate_seq(src),
            r@.no_duplicates(),
            forall|d: Pos| r@.contains(d) <==> (exists|j: int|
                0 <= j < i && cand@[j] == d && step_ok(board@, from, src, d)),
        decreases 8 - i,
    {
        let c = cand[i];
        if step_check(board, from, src, c) {
            proof {
                assert(cand@[i as int] == c);
            }
            push_unique(&mut r, c);
        }
        i += 1;
    }
    proof {
        lemma_candidates(src);
        assert forall|d: Pos| step_ok(board@, from, src, d) implies r@.contains(d) by {
            let x0 = src.0 as int;
            let y0 = src.1 as int;
            let dx = d.0 - x0;
            let dy = d.1 - y0;
            assert(-1 <= dx <= 1 && -1 <= dy <= 1 && !(dx == 0 && dy == 0));
            let j = candidate_index(dx, dy);
            assert(candidate_seq(src)[j].0 == src.0 + dx && candidate_seq(src)[j].1 == src.1 + dy);
            assert(candidate_seq(src)[j] == d);
            assert(0 <= j < 8);
        }
    }
    r
}

/// The eight cells around `src`, in the order the step generator tries them.
pub open spec fn candidate_seq(src: Pos) -> Seq<Pos> {
    let x = src.0 as int;
    let y = src.1 as int;
    seq![
        at(x - 1, y - 1),
        at(x - 1, y),
        at(x - 1, y + 1),
        at(x, y - 1),
        at(x, y + 1),
        at(x + 1, y - 1),
        at(x + 1, y),
        at(x + 1, y + 1),
    ]
}

/// Where the neighbour with offset `(dx, dy)` stands in the candidate order.
pub open spec fn candidate_index(dx: int, dy: int) -> int {
    if dx == -1 {
        dy + 1
    } else if dx == 0 {
        if dy == -1 { 3 } else { 4 }
    } else {
        dy + 6
    }
}

/// The candidate cells of an in-bounds source are pairwise distinct and have
/// the expected coordinates.
pub proof fn lemma_candidates(src: Pos)
    requires
        in_bounds(src),
    ensures
        forall|i: int, j: int| 0 <= i < j < 8 ==>
            candidate_seq(src)[i] != candidate_seq(src)[j],
        forall|dx: int, dy: int|
            -1 <= dx <= 1 && -1 <= dy <= 1 && !(dx == 0 && dy == 0) ==> {
                let c = candidate_seq(src)[#[trigger] candidate_index(dx, dy)];
                c.0 == src.0 + dx && c.1 == src.1 + dy
            },
{
    let x = src.0 as int;
    let y = src.1 as int;
    assert(at(x - 1, y - 1).0 == x - 1 && at(x - 1, y - 1).1 == y - 1);
    assert(at(x - 1, y).0 == x - 1 && at(x - 1, y).1 == y);
    assert(at(x - 1, y + 1).0 == x - 1 && at(x - 1, y + 1).1 == y + 1);
    assert(at(x, y - 1).0 == x && at(x, y - 1).1 == y - 1);
    assert(at(x, y + 1).0 == x && at(x, y + 1).1 == y + 1);
    assert(at(x + 1, y - 1).0 == x + 1 && at(x + 1, y - 1).1 == y - 1);
    assert(at(x + 1, y).0 == x + 1 && at(x + 1, y).1 == y);
    assert(at(x + 1, y + 1).0 == x + 1 && at(x + 1, y + 1).1 == y + 1);
}

/// Add the cell to the vector unless it is already there.
pub fn push_unique(v: &mut Vec<Pos>, p: Pos)
    requires
        old(v)@.no_duplicates(),
    ensures
        final(v)@.no_duplicates(),
        forall|d: Pos| final(v)@.contains(d) <==> (old(v)@.contains(d) || d == p),
{
    if !contains_pos(v, p) {
        let ghost v0 = v@;
        v.push(p);
        proof {
            assert(v@[v0.len() as int] == p);
            assert(v@.contains(p));
            assert forall|d: Pos| v@.contains(d) implies (v0.contains(d) || d == p) by {
                let u = choose|u: int| 0 <= u < v@.len() && v@[u] == d;
                if u < v0.len() {
                    assert(v0[u] == d);
                }
            }
            assert forall|d: Pos| v0.contains(d) implies v@.contains(d) by {
                let u = choose|u: int| 0 <= u < v0.len() && v0[u] == d;
                assert(v@[u] == d);
            }
            assert forall|a: int, b2: int| 0 <= a < b2 < v@.len() implies v@[a] != v@[b2] by {
                if b2 == v0.len() {
                    assert(v0[a] == v@[a]);
                    assert(v0.contains(v@[a]));
                }
            }
        }
    }
}

/// Whether the vector mentions the cell.
pub fn contains_pos(v: &Vec<Pos>, p: Pos) -> (r: bool)
    ensures
        r == v@.contains(p),
{
    let n = v.len();
    let mut i: usize = 0;
    while i < n
        invariant
            n == v@.len(),
            i <= n,
            forall|j: int| 0 <= j < i ==> v@[j] != p,
        decreases n - i,
    {
        if v[i] == p {
            return true;
        }
        i += 1;
    }
    false
}

/// All destinations the die standing at `from` with the given pip value can
/// slide to: the cells reachable after exactly `value` steps.
pub fn slide_targets(board: &Board, from: Pos, value: usize) -> (r: Vec<Pos>)
    requires
        board.wf(),
        in_bounds(from),
    ensures
        forall|d: Pos| r@.contains(d) <==> slide_set(board@, from, value as nat).contains(d),
        r@.no_duplicates(),
{
    let mut tos: Vec<Pos> = vec![from];
    proof {
        assert(tos@[0] == from);
        assert(forall|d: Pos| tos@.contains(d) ==> d == from);
        assert(tos@.contains(from));
    }
    let mut k: usize = 0;
    while k < value
        invariant
            board.wf(),
            in_bounds(from),
            k <= value,
            tos@.no_duplicates(),
            forall|d: Pos| tos@.contains(d) <==> slide_set(board@, from, k as nat).contains(d),
            forall|j: int| 0 <= j < tos@.len() ==> in_bounds(#[trigger] tos@[j]),
        decreases value - k,
    {
        let mut next: Vec<Pos> = Vec::new();
        let n = tos.len();
        let mut i: usize = 0;
        while i < n
            invariant
                board.wf(),
                in_bounds(from),
                n == tos@.len(),
                i <= n,
                next@.no_duplicates(),
                forall|j: int| 0 <= j < tos@.len() ==> in_bounds(#[trigger] tos@[j]),
                forall|d: Pos| next@.contains(d) <==> (exists|j: int|
                    0 <= j < i && #[trigger] step_ok(board@, from, tos@[j], d)),
            decreases n - i,
        {
            let s = steps(board, from, tos[i]);
            let m = s.len();
            let mut t: usize = 0;
            while t < m
                invariant
                    board.wf(),
                    in_bounds(from),
                    n == tos@.len(),
                    i < n,
                    m == s@.len(),
                    t <= m,
                    next@.no_duplicates(),
                    forall|d: Pos| s@.contains(d) <==> step_ok(board@, from, tos@[i as int], d),
                    forall|d: Pos| next@.contains(d) <==> ((exists|j: int|
                        0 <= j < i && #[trigger] step_ok(board@, from, tos@[j], d))
                        || (exists|u: int| 0 <= u < t && s@[u] == d)),
                decreases m - t,
            {
                let c = s[t];
                proof {
                    assert(s@[t as int] == c);
                    assert(s@.contains(c));
                }
                push_unique(&mut next, c);
                t += 1;
            }
            proof {
                assert forall|d: Pos| next@.contains(d) implies (exists|j: int|
                    0 <= j < i + 1 && #[trigger] step_ok(board@, from, tos@[j], d)) by {
                    if exists|j: int| 0 <= j < i && #[trigger] step_ok(board@, from, tos@[j], d) {
                    } else {
                        let u = choose|u: int| 0 <= u < m && s@[u] == d;
                        assert(s@.contains(d));
                        assert(step_ok(board@, from, tos@[i as int], d));
                    }
                }
                assert forall|d: Pos| (exists|j: int|
                    0 <= j < i + 1 && #[trigger] step_ok(board@, from, tos@[j], d))
                    implies next@.contains(d) by {
                    let j = choose|j: int|
                        0 <= j < i + 1 && #[trigger] step_ok(board@, from, tos@[j], d);
                    if j == i {
                        assert(s@.contains(d));
                        let u = choose|u: int| 0 <= u < s@.len() && s@[u] == d;
                    }
                }
            }
            i += 1;
        }
        proof {
            let ghost k1 = (k + 1) as nat;
            assert forall|d: Pos| next@.contains(d)
                implies slide_set(board@, from, k1).contains(d) by {
                let j = choose|j: int| 0 <= j < n && #[trigger] step_ok(board@, from, tos@[j], d);
                assert(tos@.contains(tos@[j]));
                assert(slide_set(board@, from, k as nat).contains(tos@[j]));
            }
            assert forall|d: Pos| slide_set(board@, from, k1).contains(d)
                implies next@.contains(d) by {
                let src = choose|src: Pos|
                    slide_set(board@, from, k as nat).contains(src)
                        && #[trigger] step_ok(board@, from, src, d);
                assert(tos@.contains(src));
                let j = choose|j: int| 0 <= j < tos@.len() && tos@[j] == src;
            }
            assert forall|j: int| 0 <= j < next@.len() implies in_bounds(#[trigger] next@[j]) by {
                assert(next@.contains(next@[j]));
                let w = choose|w: int| 0 <= w < n && #[trigger] step_ok(board@, from, tos@[w], next@[j]);
            }
        }
        tos = next;
        k += 1;
    }
    tos
}

} // verus!
