//! The laws of the engine, stated once and proved for every reachable state
//! and for every board the actions touch.

use vstd::prelude::*;
use crate::pos::{orth_adj, Pos};
use crate::dice::{Color, Die};
use crate::action::Action;
use crate::board::{lemma_pip_sum_insert, lemma_pip_sum_remove, lemma_pip_sum_update, pip_sum};
use crate::conn::free_cell;
use crate::graph::connected;
use crate::game::Game;
use crate::rules::{action_legal, MAX_VALUE};

verus! {

/// Law: in every reachable state of a running game, every die on the board
/// holds between one and six pips.
pub proof fn lemma_values_in_range(g: Game)
    requires
        g.inv(),
        g@.winner is None,
    ensures
        forall|p: Pos| #[trigger] g@.board.dom().contains(p)
            ==> 1 <= g@.board[p].value <= MAX_VALUE,
{
    g.lemma_inv();
}

/// Law: in every reachable state the dice form one orthogonally connected
/// group — no action ever splits the hive.
pub proof fn lemma_hive_stays_connected(g: Game)
    requires
        g.inv(),
    ensures
        connected(g@.board.dom()),
{
    g.lemma_inv();
}

/// Law: the target of a placement in the legal-action set never touches an
/// opposing die — new dice may only touch friendly ones.
pub proof fn lemma_add_targets_friendly(g: Game, p: Pos, q: Pos)
    requires
        g.inv(),
        g@.winner is None,
        g@.actions.contains(Action::Add(p)),
        g@.board.dom().contains(q),
        orth_adj(p, q),
    ensures
        g@.board[q].color == g@.turn,
{
    g.lemma_inv();
    assert(action_legal(g@.board, g@.turn, Action::Add(p)));
}

/// Law: a cell that the connectivity oracle reports as not free never
/// appears as the origin of a merge or a move in the legal-action set.
pub proof fn lemma_origins_are_free(g: Game, a: Action)
    requires
        g.inv(),
        g@.winner is None,
        g@.actions.contains(a),
        a.spec_from() is Some,
    ensures
        free_cell(g@.board, a.spec_from()->0),
{
    g.lemma_inv();
    assert(action_legal(g@.board, g@.turn, a));
}

/// Law: relocating a die — the board change a move makes — preserves both
/// the number of dice and the total pip sum.
pub proof fn lemma_move_conserves(b: Map<Pos, Die>, from: Pos, to: Pos)
    requires
        b.dom().finite(),
        b.dom().contains(from),
        !b.dom().contains(to),
    ensures
        b.remove(from).insert(to, b[from]).dom().len() == b.dom().len(),
        pip_sum(b.remove(from).insert(to, b[from])) == pip_sum(b),
{
    lemma_pip_sum_remove(b, from);
    lemma_pip_sum_insert(b.remove(from), to, b[from]);
    assert(b.remove(from).dom().len() == b.dom().len() - 1);
    assert(b.remove(from).insert(to, b[from]).dom() == b.remove(from).dom().insert(to));
}

/// Law: stacking one die onto another — the board change a merge makes —
/// preserves the total pip sum and removes exactly one die.
pub proof fn lemma_merge_conserves(b: Map<Pos, Die>, from: Pos, to: Pos, d: Die)
    requires
        b.dom().finite(),
        b.dom().contains(from),
        b.dom().contains(to),
        from != to,
        d.value == b[from].value + b[to].value,
    ensures
        b.remove(from).insert(to, d).dom().len() == b.dom().len() - 1,
        pip_sum(b.remove(from).insert(to, d)) == pip_sum(b),
{
    lemma_pip_sum_remove(b, from);
    lemma_pip_sum_update(b.remove(from), to, d);
    assert(b.remove(from)[to] == b[to]);
    assert(b.remove(from).insert(to, d).dom() == b.remove(from).dom().insert(to));
    assert(b.remove(from).dom().insert(to) =~= b.remove(from).dom());
}

/// Law: placing a fresh die — the board change a placement makes — adds
/// exactly one die and exactly one pip.
pub proof fn lemma_add_conserves(b: Map<Pos, Die>, p: Pos, t: Color)
    requires
        b.dom().finite(),
        !b.dom().contains(p),
    ensures
        b.insert(p, Die { color: t, value: 1usize }).dom().len() == b.dom().len() + 1,
        pip_sum(b.insert(p, Die { color: t, value: 1usize })) == pip_sum(b) + 1,
{
    lemma_pip_sum_insert(b, p, Die { color: t, value: 1usize });
    assert(b.insert(p, Die { color: t, value: 1usize }).dom() == b.dom().insert(p));
}

} // verus!
