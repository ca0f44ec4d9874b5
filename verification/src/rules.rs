//! What makes an action legal, stated over the abstract board.

use vstd::prelude::*;
use crate::pos::{in_bounds, orth_adj, Pos};
use crate::dice::{Color, Die};
use crate::action::Action;
use crate::board::color_count;
use crate::conn::free_cell;
use crate::slide::slide_set;

verus! {

/// No color may have more than this many dice in play.
pub const MAX_NDICE: usize = 6;

/// No die on a live board may hold more than this many pips; a merge past it
/// ends the game.
pub const MAX_VALUE: usize = 6;

/// Placing a fresh die of color `t` on `p` is legal: the color still has
/// stock, the cell is empty and touches a die of the same color, and no
/// opposing die touches it.
pub open spec fn add_legal(b: Map<Pos, Die>, t: Color, p: Pos) -> bool {
    &&& color_count(b, t) < MAX_NDICE
    &&& in_bounds(p)
    &&& !b.dom().contains(p)
    &&& exists|q: Pos| b.dom().contains(q) && #[trigger] orth_adj(p, q) && b[q].color == t
    &&& forall|q: Pos| b.dom().contains(q) && #[trigger] orth_adj(p, q) ==> b[q].color == t
}

/// Stacking the die at `from` onto the one at `to` is legal: both are dice
/// of the mover's color, they touch, and `from` may leave its cell.
pub open spec fn merge_legal(b: Map<Pos, Die>, t: Color, from: Pos, to: Pos) -> bool {
    &&& b.dom().contains(from) && b[from].color == t
    &&& free_cell(b, from)
    &&& orth_adj(from, to)
    &&& b.dom().contains(to) && b[to].color == t
}

/// Sliding the die at `from` to `to` is legal: it is the mover's, it may
/// leave its cell, and `to` is reachable in exactly as many slide steps as
/// the die has pips — but is not `from` itself.
pub open spec fn move_legal(b: Map<Pos, Die>, t: Color, from: Pos, to: Pos) -> bool {
    &&& b.dom().contains(from) && b[from].color == t
    &&& free_cell(b, from)
    &&& to != from
    &&& slide_set(b, from, b[from].value as nat).contains(to)
}

/// Whether the action is legal for the given board and color to move.
pub open spec fn action_legal(b: Map<Pos, Die>, t: Color, a: Action) -> bool {
    match a {
        Action::Add(p) => add_legal(b, t, p),
        Action::Merge(from, to) => merge_legal(b, t, from, to),
        Action::Move(from, to) => move_legal(b, t, from, to),
    }
}

/// The set of all legal actions for the given board and color to move.
pub open spec fn legal_set(b: Map<Pos, Die>, t: Color) -> Set<Action> {
    Set::new(|a: Action| action_legal(b, t, a))
}

/// Whether the color to move has any legal action at all.
pub open spec fn exists_legal(b: Map<Pos, Die>, t: Color) -> bool {
    exists|a: Action| #[trigger] action_legal(b, t, a)
}

} // verus!
