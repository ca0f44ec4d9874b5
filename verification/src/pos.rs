//! Cells of the board and their orthogonal adjacency.

use vstd::prelude::*;

verus! {

/// A cell of the square grid, addressed by a pair of signed coordinates.
#[derive(Clone, Copy, Debug, PartialEq, Eq, Structural, Hash)]
pub struct Pos(pub i32, pub i32);

/// The cell lies far enough from the representable rim that every cell the
/// rules ever inspect around it (neighbours, and neighbours of those) still
/// has `i32` coordinates.  The grid is unbounded in the game's own terms; this
/// margin is what the machine's integers force.
pub open spec fn in_bounds(p: Pos) -> bool {
    &&& i32::MIN + 2 <= p.0 <= i32::MAX - 2
    &&& i32::MIN + 2 <= p.1 <= i32::MAX - 2
}

/// Orthogonal adjacency: `q` is one of the four cells that share an edge
/// with `p`.  Placements, merges and the connectivity rule all use this
/// relation; it is symmetric and irreflexive by construction.
pub open spec fn orth_adj(p: Pos, q: Pos) -> bool {
    ||| p.0 == q.0 && (p.1 - q.1 == 1 || q.1 - p.1 == 1)
    ||| p.1 == q.1 && (p.0 - q.0 == 1 || q.0 - p.0 == 1)
}

impl Pos {
    /// The four orthogonal neighbours of this cell.
    pub fn adjacents(self) -> (r: Vec<Pos>)
        requires
            in_bounds(self),
        ensures
            r@.len() == 4,
            forall|q: Pos| r@.contains(q) <==> orth_adj(self, q),
            forall|i: int| 0 <= i < r@.len() ==> orth_adj(self, #[trigger] r@[i]),
    {
        let Pos(x, y) = self;
        let r: Vec<Pos> = vec![Pos(x - 1, y), Pos(x, y - 1), Pos(x, y + 1), Pos(x + 1, y)];
        proof {
            assert(r@[0] == Pos((x - 1) as i32, y));
            assert(r@[1] == Pos(x, (y - 1) as i32));
            assert(r@[2] == Pos(x, (y + 1) as i32));
            assert(r@[3] == Pos((x + 1) as i32, y));
            assert forall|q: Pos| orth_adj(self, q) implies r@.contains(q) by {
                if q.1 == y && q.0 == x - 1 {
                    assert(q == r@[0]);
                } else if q.0 == x && q.1 == y - 1 {
                    assert(q == r@[1]);
                } else if q.0 == x && q.1 == y + 1 {
                    assert(q == r@[2]);
                } else {
                    assert(q == r@[3]);
                }
            }
        }
        r
    }
}

} // verus!
