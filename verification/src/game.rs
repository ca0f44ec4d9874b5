//! The game controller: it owns the authoritative state, recomputes the
//! legal actions after every mutation, applies chosen actions, and detects
//! victory.

use vstd::prelude::*;
use crate::pos::{in_bounds, orth_adj, Pos};
use crate::dice::{Color, Die};
use crate::action::{push_unique_action, Action};
use crate::board::{
    color_count, keys_unique, lemma_color_count_insert, lemma_color_count_member,
    lemma_color_count_remove, lemma_color_count_update, lemma_map_of_dom, lemma_map_of_index,
    lemma_map_of_len, lemma_seq_color_count, map_of, seq_color_count, Board,
};
use crate::conn::{all_connected, free_cell, has_neighbor, is_free};
use crate::graph::{connected, lemma_connected_has_neighbor, lemma_connected_insert, reach, reach_n};
use crate::rules::{
    action_legal, add_legal, exists_legal, legal_set, merge_legal, move_legal, MAX_NDICE,
    MAX_VALUE,
};
use crate::slide::{lemma_slide_member, slide_targets};

verus! {

/// A board fit for play: finitely many dice, every occupied cell far enough
/// from the coordinate rim, no die standing alone, and one to six dice of
/// each color.
pub open spec fn board_ok(b: Map<Pos, Die>) -> bool {
    &&& b.dom().finite()
    &&& forall|p: Pos| #[trigger] b.dom().contains(p) ==> in_bounds(p)
    &&& forall|p: Pos| #[trigger] b.dom().contains(p) ==> has_neighbor(b, p)
    &&& 1 <= color_count(b, Color::Red) <= MAX_NDICE
    &&& 1 <= color_count(b, Color::Black) <= MAX_NDICE
}

/// Every die on the board holds one to six pips.
pub open spec fn values_ok(b: Map<Pos, Die>) -> bool {
    forall|p: Pos| #[trigger] b.dom().contains(p) ==> 1 <= b[p].value <= MAX_VALUE
}

/// The local placement conditions at `p`, short of the demand that some
/// friendly die touches it: the cell is representable, empty, and free of
/// opposing neighbours.
pub open spec fn add_ok_at(b: Map<Pos, Die>, t: Color, p: Pos) -> bool {
    &&& in_bounds(p)
    &&& !b.dom().contains(p)
    &&& forall|q: Pos| b.dom().contains(q) && #[trigger] orth_adj(p, q) ==> b[q].color == t
}

/// A friendly die among the first `k` board entries touches `p`.
pub open spec fn add_witness(t: Color, ent: Seq<(Pos, Die)>, k: int, p: Pos) -> bool {
    exists|j: int| 0 <= j < k && (#[trigger] ent[j]).1.color == t && orth_adj(ent[j].0, p)
}

/// The abstract state of a game: the board, whose turn it is, the winner if
/// the game is over, and the cached set of legal actions.
pub struct GameView {
    pub board: Map<Pos, Die>,
    pub turn: Color,
    pub winner: Option<Color>,
    pub actions: Set<Action>,
}

/// A running game.  Mutate it only through `perform_action`; read it through
/// the accessors.
#[derive(Clone, Debug)]
pub struct Game {
    board: Board,
    ndice_red: usize,
    ndice_black: usize,
    actions: Vec<Action>,
    turn: Color,
    winner: Option<Color>,
}

impl View for Game {
    type V = GameView;

    closed spec fn view(&self) -> GameView {
        GameView {
            board: self.board@,
            turn: self.turn,
            winner: self.winner,
            actions: self.actions@.to_set(),
        }
    }
}

impl Game {
    /// The representation is sound and the board is fit for play.
    pub closed spec fn inv_core(self) -> bool {
        &&& self.board.wf()
        &&& board_ok(self.board@)
        &&& self.ndice_red == color_count(self.board@, Color::Red)
        &&& self.ndice_black == color_count(self.board@, Color::Black)
    }

    /// The full invariant of a reachable game state: the board is fit for
    /// play, pip values are in range while the game runs, and the cached
    /// action set is exactly the set of legal actions while the game runs.
    pub closed spec fn inv(self) -> bool {
        &&& self.inv_core()
        &&& connected(self.board@.dom())
        &&& self.winner is None ==> values_ok(self.board@)
        &&& self.actions@.no_duplicates()
        &&& self.winner is None ==> forall|a: Action|
            #[trigger] self.actions@.contains(a) <==> action_legal(self.board@, self.turn, a)
    }

    /// What the invariant gives every reader of the abstract state.
    pub proof fn lemma_inv(self)
        requires
            self.inv(),
        ensures
            board_ok(self@.board),
            connected(self@.board.dom()),
            self@.winner is None ==> values_ok(self@.board),
            self@.winner is None ==> forall|a: Action|
                #[trigger] self@.actions.contains(a) <==> action_legal(self@.board, self@.turn, a),
            self@.winner is None ==> self@.actions == legal_set(self@.board, self@.turn),
    {
        assert forall|a: Action| #[trigger] self@.actions.contains(a)
            implies self.actions@.contains(a) by {}
        assert forall|a: Action| self.actions@.contains(a)
            implies #[trigger] self@.actions.contains(a) by {}
        if self.winner is None {
            assert(self@.actions =~= legal_set(self@.board, self@.turn));
        }
    }

    /// Read-only view of the board.
    pub fn board(&self) -> (b: &Board)
        requires
            self.inv(),
        ensures
            b@ == self@.board,
            b.wf(),
    {
        &self.board
    }

    /// The legal actions of the color to move, each exactly once, in no
    /// significant order.
    pub fn actions(&self) -> (r: &Vec<Action>)
        requires
            self.inv(),
        ensures
            r@.to_set() == self@.actions,
            r@.no_duplicates(),
            self@.winner is None ==> forall|a: Action|
                #[trigger] r@.contains(a) <==> action_legal(self@.board, self@.turn, a),
    {
        &self.actions
    }

    /// Whose turn it is.
    pub fn turn(&self) -> (c: Color)
        ensures
            c == self@.turn,
    {
        self.turn
    }

    /// The winner, once the game is over.
    pub fn winner(&self) -> (w: Option<Color>)
        ensures
            w == self@.winner,
    {
        self.winner
    }

    /// Whether the cell holds no die.
    pub fn is_empty(&self, pos: Pos) -> (r: bool)
        requires
            self.inv(),
        ensures
            r == !self@.board.dom().contains(pos),
    {
        !self.board.contains(pos)
    }

    /// Whether the cell holds a die of the given color.
    pub fn has_color(&self, pos: Pos, color: Color) -> (r: bool)
        requires
            self.inv(),
        ensures
            r == (self@.board.dom().contains(pos) && self@.board[pos].color == color),
    {
        match self.board.get(pos) {
            Some(d) => d.color == color,
            None => false,
        }
    }

    /// Whether the die at `pos` may leave its cell without splitting the
    /// formation.
    pub fn is_free(&self, pos: Pos) -> (r: bool)
        requires
            self.inv(),
            self@.board.dom().contains(pos),
        ensures
            r == free_cell(self@.board, pos),
    {
        is_free(&self.board, pos)
    }

    /// How many dice of the color are in play.
    fn ndice_of(&self, c: Color) -> (n: usize)
        requires
            self.inv_core(),
        ensures
            n == color_count(self.board@, c),
    {
        match c {
            Color::Red => self.ndice_red,
            Color::Black => self.ndice_black,
        }
    }

    /// The local placement check at `p` for the color to move.
    fn check_add_target(&self, p: Pos) -> (r: bool)
        requires
            self.board.wf(),
        ensures
            r == add_ok_at(self.board@, self.turn, p),
    {
        let ghost b = self.board@;
        let t = self.turn;
        if p.0 < i32::MIN + 2 || p.0 > i32::MAX - 2 || p.1 < i32::MIN + 2 || p.1 > i32::MAX - 2 {
            return false;
        }
        if self.board.contains(p) {
            return false;
        }
        let opp = t.other();
        let cand = p.adjacents();
        let mut j: usize = 0;
        while j < 4
            invariant
                self.board.wf(),
                b == self.board@,
                t == self.turn,
                opp == t.spec_other(),
                cand@.len() == 4,
                forall|q: Pos| cand@.contains(q) <==> orth_adj(p, q),
                j <= 4,
                forall|u: int| 0 <= u < j ==> !(b.dom().contains(#[trigger] cand@[u])
                    && b[cand@[u]].color == opp),
            decreases 4 - j,
        {
            let q = cand[j];
            proof {
                assert(cand@[j as int] == q);
            }
            match self.board.get(q) {
                Some(d) => {
                    if d.color == opp {
                        proof {
                            assert(cand@.contains(q));
                            assert(orth_adj(p, q));
                            assert(b[q].color != t);
                        }
                        return false;
                    }
                },
                None => {},
            }
            j += 1;
        }
        proof {
            assert forall|q: Pos| b.dom().contains(q) && #[trigger] orth_adj(p, q)
                implies b[q].color == t by {
                assert(cand@.contains(q));
                let u = choose|u: int| 0 <= u < cand@.len() && cand@[u] == q;
                assert(b[q].color != opp);
            }
        }
        true
    }

    /// Collect every legal placement for the color to move.
    #[verifier::rlimit(50)]
    fn update_add_actions(&mut self)
        requires
            old(self).inv_core(),
            old(self).actions@.no_duplicates(),
        ensures
            final(self).board == old(self).board,
            final(self).ndice_red == old(self).ndice_red,
            final(self).ndice_black == old(self).ndice_black,
            final(self).turn == old(self).turn,
            final(self).winner == old(self).winner,
            final(self).actions@.no_duplicates(),
            forall|x: Action| old(self).actions@.contains(x)
                ==> #[trigger] final(self).actions@.contains(x),
            forall|x: Action| #[trigger] final(self).actions@.contains(x)
                ==> old(self).actions@.contains(x)
                    || (exists|p: Pos| x == Action::Add(p)
                        && add_legal(old(self).board@, old(self).turn, p)),
            forall|p: Pos| add_legal(old(self).board@, old(self).turn, p)
                ==> #[trigger] final(self).actions@.contains(Action::Add(p)),
    {
        let ghost b = self.board@;
        let ghost acts0 = self.actions@;
        let t = self.turn;
        let nd = self.ndice_of(t);
        if nd >= MAX_NDICE {
            proof {
                assert forall|p: Pos| !add_legal(b, t, p) by {}
            }
            return;
        }
        proof {
            self.board.lemma_entries();
        }
        let ghost ent = self.board.entries();
        let n = self.board.len();
        let mut i: usize = 0;
        while i < n
            invariant
                self.board == old(self).board,
                self.ndice_red == old(self).ndice_red,
                self.ndice_black == old(self).ndice_black,
                self.turn == old(self).turn,
                self.winner == old(self).winner,
                self.board.wf(),
                b == self.board@,
                ent == self.board.entries(),
                t == self.turn,
                b.dom().finite(),
                forall|p: Pos| #[trigger] b.dom().contains(p) ==> in_bounds(p),
                color_count(b, t) < MAX_NDICE,
                n == b.dom().len(),
                ent.len() == n,
                forall|j: int| 0 <= j < n ==> b.dom().contains((#[trigger] ent[j]).0)
                    && b[ent[j].0] == ent[j].1,
                acts0 == old(self).actions@,
                i <= n,
                self.actions@.no_duplicates(),
                forall|x: Action| acts0.contains(x) ==> #[trigger] self.actions@.contains(x),
                forall|x: Action| #[trigger] self.actions@.contains(x)
                    ==> acts0.contains(x)
                        || (exists|p: Pos| x == Action::Add(p) && add_legal(b, t, p)),
                forall|p: Pos| #![trigger add_ok_at(b, t, p), add_witness(t, ent, i as int, p)]
                    add_ok_at(b, t, p) && add_witness(t, ent, i as int, p)
                        ==> self.actions@.contains(Action::Add(p)),
            decreases n - i,
        {
            let (dpos, die) = self.board.entry(i);
            proof {
                assert(ent[i as int] == (dpos, die));
                assert(b.dom().contains(dpos) && b[dpos] == die);
                assert(in_bounds(dpos));
            }
            if die.color == t {
                let cand = dpos.adjacents();
                let mut j: usize = 0;
                while j < 4
                    invariant
                        self.board == old(self).board,
                        self.ndice_red == old(self).ndice_red,
                        self.ndice_black == old(self).ndice_black,
                        self.turn == old(self).turn,
                        self.winner == old(self).winner,
                        self.board.wf(),
                        b == self.board@,
                        t == self.turn,
                        b.dom().finite(),
                        color_count(b, t) < MAX_NDICE,
                        cand@.len() == 4,
                        forall|q: Pos| cand@.contains(q) <==> orth_adj(dpos, q),
                        j <= 4,
                        b.dom().contains(dpos) && b[dpos] == die,
                        die.color == t,
                        self.actions@.no_duplicates(),
                        forall|x: Action| acts0.contains(x) ==> #[trigger] self.actions@.contains(x),
                        forall|x: Action| #[trigger] self.actions@.contains(x)
                            ==> acts0.contains(x)
                                || (exists|p: Pos| x == Action::Add(p) && add_legal(b, t, p)),
                        forall|p: Pos| #![trigger add_ok_at(b, t, p), add_witness(t, ent, i as int, p)]
                            add_ok_at(b, t, p) && add_witness(t, ent, i as int, p)
                                ==> self.actions@.contains(Action::Add(p)),
                        forall|u: int| 0 <= u < j ==> (!add_ok_at(b, t, #[trigger] cand@[u])
                            || self.actions@.contains(Action::Add(cand@[u]))),
                    decreases 4 - j,
                {
                    let p = cand[j];
                    proof {
                        assert(cand@[j as int] == p);
                        assert(cand@.contains(p));
                        assert(orth_adj(dpos, p));
                    }
                    if self.check_add_target(p) {
                        proof {
                            assert(orth_adj(p, dpos));
                            assert(add_legal(b, t, p));
                        }
                        push_unique_action(&mut self.actions, Action::Add(p));
                        proof {
                            assert(self.actions@.contains(Action::Add(p)));
                        }
                    }
                    j += 1;
                }
                proof {
                    assert forall|p: Pos| #![trigger add_ok_at(b, t, p), add_witness(t, ent, i + 1, p)]
                        add_ok_at(b, t, p) && add_witness(t, ent, i + 1, p)
                        implies self.actions@.contains(Action::Add(p)) by {
                        let w = choose|w: int|
                            0 <= w < i + 1 && (#[trigger] ent[w]).1.color == t
                                && orth_adj(ent[w].0, p);
                        if w < i {
                            assert(add_witness(t, ent, i as int, p));
                        } else {
                            assert(orth_adj(dpos, p));
                            assert(cand@.contains(p));
                            let u = choose|u: int| 0 <= u < cand@.len() && cand@[u] == p;
                        }
                    }
                }
            } else {
                proof {
                    assert forall|p: Pos| #![trigger add_ok_at(b, t, p), add_witness(t, ent, i + 1, p)]
                        add_ok_at(b, t, p) && add_witness(t, ent, i + 1, p)
                        implies self.actions@.contains(Action::Add(p)) by {
                        let w = choose|w: int|
                            0 <= w < i + 1 && (#[trigger] ent[w]).1.color == t
                                && orth_adj(ent[w].0, p);
                        assert(w != i);
                        assert(add_witness(t, ent, i as int, p));
                    }
                }
            }
            i += 1;
        }
        proof {
            self.board.lemma_entries();
            assert forall|p: Pos| add_legal(b, t, p)
                implies #[trigger] self.actions@.contains(Action::Add(p)) by {
                let q = choose|q: Pos|
                    b.dom().contains(q) && #[trigger] orth_adj(p, q) && b[q].color == t;
                let w = choose|w: int| 0 <= w < n && (#[trigger] ent[w]).0 == q;
                assert((ent[w]).1.color == t && orth_adj(ent[w].0, p));
                assert(add_witness(t, ent, n as int, p));
                assert(add_ok_at(b, t, p));
            }
        }
    }

    /// Collect every legal merge for the color to move.
    #[verifier::rlimit(100)]
    fn update_merge_actions(&mut self)
        requires
            old(self).inv_core(),
            old(self).actions@.no_duplicates(),
        ensures
            final(self).board == old(self).board,
            final(self).ndice_red == old(self).ndice_red,
            final(self).ndice_black == old(self).ndice_black,
            final(self).turn == old(self).turn,
            final(self).winner == old(self).winner,
            final(self).actions@.no_duplicates(),
            forall|x: Action| old(self).actions@.contains(x)
                ==> #[trigger] final(self).actions@.contains(x),
            forall|x: Action| #[trigger] final(self).actions@.contains(x)
                ==> old(self).actions@.contains(x)
                    || (exists|f: Pos, t2: Pos| x == Action::Merge(f, t2)
                        && merge_legal(old(self).board@, old(self).turn, f, t2)),
            forall|f: Pos, t2: Pos| merge_legal(old(self).board@, old(self).turn, f, t2)
                ==> #[trigger] final(self).actions@.contains(Action::Merge(f, t2)),
    {
        let ghost b = self.board@;
        let ghost acts0 = self.actions@;
        let t = self.turn;
        proof {
            self.board.lemma_entries();
        }
        let ghost ent = self.board.entries();
        let n = self.board.len();
        let mut i: usize = 0;
        while i < n
            invariant
                self.board == old(self).board,
                self.ndice_red == old(self).ndice_red,
                self.ndice_black == old(self).ndice_black,
                self.turn == old(self).turn,
                self.winner == old(self).winner,
                self.board.wf(),
                b == self.board@,
                ent == self.board.entries(),
                t == self.turn,
                b.dom().finite(),
                forall|p: Pos| #[trigger] b.dom().contains(p) ==> in_bounds(p),
                forall|p: Pos| #[trigger] b.dom().contains(p) ==> has_neighbor(b, p),
                n == b.dom().len(),
                ent.len() == n,
                forall|j: int| 0 <= j < n ==> b.dom().contains((#[trigger] ent[j]).0)
                    && b[ent[j].0] == ent[j].1,
                acts0 == old(self).actions@,
                i <= n,
                self.actions@.no_duplicates(),
                forall|x: Action| acts0.contains(x) ==> #[trigger] self.actions@.contains(x),
                forall|x: Action| #[trigger] self.actions@.contains(x)
                    ==> acts0.contains(x)
                        || (exists|f: Pos, t2: Pos| x == Action::Merge(f, t2)
                            && merge_legal(b, t, f, t2)),
                forall|f: Pos, t2: Pos| #![trigger merge_legal(b, t, f, t2)]
                    merge_legal(b, t, f, t2) && key_before(ent, i as int, f)
                        ==> self.actions@.contains(Action::Merge(f, t2)),
            decreases n - i,
        {
            let (dpos, die) = self.board.entry(i);
            proof {
                assert(ent[i as int] == (dpos, die));
                assert(b.dom().contains(dpos) && b[dpos] == die);
                assert(in_bounds(dpos));
            }
            let is_mine = die.color == t;
            let freef = if is_mine { is_free(&self.board, dpos) } else { false };
            if is_mine && freef {
                let cand = dpos.adjacents();
                let mut j: usize = 0;
                while j < 4
                    invariant
                        self.board == old(self).board,
                        self.ndice_red == old(self).ndice_red,
                        self.ndice_black == old(self).ndice_black,
                        self.turn == old(self).turn,
                        self.winner == old(self).winner,
                        self.board.wf(),
                        b == self.board@,
                        t == self.turn,
                        cand@.len() == 4,
                        forall|q: Pos| cand@.contains(q) <==> orth_adj(dpos, q),
                        j <= 4,
                        b.dom().contains(dpos) && b[dpos] == die,
                        die.color == t,
                        free_cell(b, dpos),
                        self.actions@.no_duplicates(),
                        forall|x: Action| acts0.contains(x) ==> #[trigger] self.actions@.contains(x),
                        forall|x: Action| #[trigger] self.actions@.contains(x)
                            ==> acts0.contains(x)
                                || (exists|f: Pos, t2: Pos| x == Action::Merge(f, t2)
                                    && merge_legal(b, t, f, t2)),
                        forall|f: Pos, t2: Pos| #![trigger merge_legal(b, t, f, t2)]
                            merge_legal(b, t, f, t2) && key_before(ent, i as int, f)
                                ==> self.actions@.contains(Action::Merge(f, t2)),
                        forall|u: int| 0 <= u < j ==>
                            !(b.dom().contains(#[trigger] cand@[u]) && b[cand@[u]].color == t)
                                || self.actions@.contains(Action::Merge(dpos, cand@[u])),
                    decreases 4 - j,
                {
                    let q = cand[j];
                    proof {
                        assert(cand@[j as int] == q);
                        assert(cand@.contains(q));
                        assert(orth_adj(dpos, q));
                    }
                    let is_t = match self.board.get(q) {
                        Some(d) => d.color == t,
                        None => false,
                    };
                    if is_t {
                        proof {
                            assert(merge_legal(b, t, dpos, q));
                        }
                        push_unique_action(&mut self.actions, Action::Merge(dpos, q));
                        proof {
                            assert(self.actions@.contains(Action::Merge(dpos, q)));
                        }
                    }
                    j += 1;
                }
                proof {
                    assert forall|t2: Pos| b.dom().contains(t2) && b[t2].color == t
                        && #[trigger] orth_adj(dpos, t2)
                        implies self.actions@.contains(Action::Merge(dpos, t2)) by {
                        assert(cand@.contains(t2));
                        let u = choose|u: int| 0 <= u < cand@.len() && cand@[u] == t2;
                    }
                }
            }
            proof {
                assert forall|f: Pos, t2: Pos| #![trigger merge_legal(b, t, f, t2)]
                    merge_legal(b, t, f, t2) && key_before(ent, i + 1, f)
                    implies self.actions@.contains(Action::Merge(f, t2)) by {
                    let w = choose|w: int| 0 <= w < i + 1 && (#[trigger] ent[w]).0 == f;
                    if w < i {
                        assert(key_before(ent, i as int, f));
                    } else {
                        assert(f == dpos);
                        assert(b[dpos].color == t);
                        assert(die.color == t);
                        assert(free_cell(b, dpos));
                        assert(freef);
                        assert(orth_adj(dpos, t2));
                    }
                }
            }
            i += 1;
        }
        proof {
            assert forall|f: Pos, t2: Pos| merge_legal(b, t, f, t2)
                implies #[trigger] self.actions@.contains(Action::Merge(f, t2)) by {
                let w = choose|w: int| 0 <= w < n && (#[trigger] ent[w]).0 == f;
                assert(key_before(ent, n as int, f));
            }
        }
    }

    /// Collect every legal move for the color to move.
    #[verifier::rlimit(100)]
    fn update_move_actions(&mut self)
        requires
            old(self).inv_core(),
            old(self).actions@.no_duplicates(),
        ensures
            final(self).board == old(self).board,
            final(self).ndice_red == old(self).ndice_red,
            final(self).ndice_black == old(self).ndice_black,
            final(self).turn == old(self).turn,
            final(self).winner == old(self).winner,
            final(self).actions@.no_duplicates(),
            forall|x: Action| old(self).actions@.contains(x)
                ==> #[trigger] final(self).actions@.contains(x),
            forall|x: Action| #[trigger] final(self).actions@.contains(x)
                ==> old(self).actions@.contains(x)
                    || (exists|f: Pos, t2: Pos| x == Action::Move(f, t2)
                        && move_legal(old(self).board@, old(self).turn, f, t2)),
            forall|f: Pos, t2: Pos| move_legal(old(self).board@, old(self).turn, f, t2)
                ==> #[trigger] final(self).actions@.contains(Action::Move(f, t2)),
    {
        let ghost b = self.board@;
        let ghost acts0 = self.actions@;
        let t = self.turn;
        proof {
            self.board.lemma_entries();
        }
        let ghost ent = self.board.entries();
        let n = self.board.len();
        let mut i: usize = 0;
        while i < n
            invariant
                self.board == old(self).board,
                self.ndice_red == old(self).ndice_red,
                self.ndice_black == old(self).ndice_black,
                self.turn == old(self).turn,
                self.winner == old(self).winner,
                self.board.wf(),
                b == self.board@,
                ent == self.board.entries(),
                t == self.turn,
                b.dom().finite(),
                forall|p: Pos| #[trigger] b.dom().contains(p) ==> in_bounds(p),
                forall|p: Pos| #[trigger] b.dom().contains(p) ==> has_neighbor(b, p),
                n == b.dom().len(),
                ent.len() == n,
                forall|j: int| 0 <= j < n ==> b.dom().contains((#[trigger] ent[j]).0)
                    && b[ent[j].0] == ent[j].1,
                acts0 == old(self).actions@,
                i <= n,
                self.actions@.no_duplicates(),
                forall|x: Action| acts0.contains(x) ==> #[trigger] self.actions@.contains(x),
                forall|x: Action| #[trigger] self.actions@.contains(x)
                    ==> acts0.contains(x)
                        || (exists|f: Pos, t2: Pos| x == Action::Move(f, t2)
                            && move_legal(b, t, f, t2)),
                forall|f: Pos, t2: Pos| #![trigger move_legal(b, t, f, t2)]
                    move_legal(b, t, f, t2) && key_before(ent, i as int, f)
                        ==> self.actions@.contains(Action::Move(f, t2)),
            decreases n - i,
        {
            let (dpos, die) = self.board.entry(i);
            proof {
                assert(ent[i as int] == (dpos, die));
                assert(b.dom().contains(dpos) && b[dpos] == die);
                assert(in_bounds(dpos));
            }
            let is_mine = die.color == t;
            let freef = if is_mine { is_free(&self.board, dpos) } else { false };
            if is_mine && freef {
                let ts = slide_targets(&self.board, dpos, die.value);
                let m = ts.len();
                let mut u: usize = 0;
                while u < m
                    invariant
                        self.board == old(self).board,
                        self.ndice_red == old(self).ndice_red,
                        self.ndice_black == old(self).ndice_black,
                        self.turn == old(self).turn,
                        self.winner == old(self).winner,
                        self.board.wf(),
                        b == self.board@,
                        t == self.turn,
                        m == ts@.len(),
                        u <= m,
                        b.dom().contains(dpos) && b[dpos] == die,
                        die.color == t,
                        free_cell(b, dpos),
                        forall|d2: Pos| ts@.contains(d2) <==> crate::slide::slide_set(
                            b, dpos, die.value as nat).contains(d2),
                        self.actions@.no_duplicates(),
                        forall|x: Action| acts0.contains(x) ==> #[trigger] self.actions@.contains(x),
                        forall|x: Action| #[trigger] self.actions@.contains(x)
                            ==> acts0.contains(x)
                                || (exists|f: Pos, t2: Pos| x == Action::Move(f, t2)
                                    && move_legal(b, t, f, t2)),
                        forall|f: Pos, t2: Pos| #![trigger move_legal(b, t, f, t2)]
                            move_legal(b, t, f, t2) && key_before(ent, i as int, f)
                                ==> self.actions@.contains(Action::Move(f, t2)),
                        forall|u2: int| 0 <= u2 < u ==> #[trigger] ts@[u2] == dpos
                            || self.actions@.contains(Action::Move(dpos, ts@[u2])),
                    decreases m - u,
                {
                    let to = ts[u];
                    proof {
                        assert(ts@[u as int] == to);
                        assert(ts@.contains(to));
                    }
                    if !(to == dpos) {
                        proof {
                            assert(move_legal(b, t, dpos, to));
                        }
                        push_unique_action(&mut self.actions, Action::Move(dpos, to));
                        proof {
                            assert(self.actions@.contains(Action::Move(dpos, to)));
                        }
                    }
                    u += 1;
                }
                proof {
                    assert forall|t2: Pos|
                        #[trigger] crate::slide::slide_set(b, dpos, die.value as nat).contains(t2)
                            && t2 != dpos
                        implies self.actions@.contains(Action::Move(dpos, t2)) by {
                        assert(ts@.contains(t2));
                        let u2 = choose|u2: int| 0 <= u2 < ts@.len() && ts@[u2] == t2;
                    }
                }
            }
            proof {
                assert forall|f: Pos, t2: Pos| #![trigger move_legal(b, t, f, t2)]
                    move_legal(b, t, f, t2) && key_before(ent, i + 1, f)
                    implies self.actions@.contains(Action::Move(f, t2)) by {
                    let w = choose|w: int| 0 <= w < i + 1 && (#[trigger] ent[w]).0 == f;
                    if w < i {
                        assert(key_before(ent, i as int, f));
                    } else {
                        assert(f == dpos);
                        assert(b[dpos].color == t);
                        assert(die.color == t);
                        assert(free_cell(b, dpos));
                        assert(freef);
                        assert(b[dpos].value == die.value);
                        assert(crate::slide::slide_set(b, dpos, die.value as nat).contains(t2));
                    }
                }
            }
            i += 1;
        }
        proof {
            assert forall|f: Pos, t2: Pos| move_legal(b, t, f, t2)
                implies #[trigger] self.actions@.contains(Action::Move(f, t2)) by {
                let w = choose|w: int| 0 <= w < n && (#[trigger] ent[w]).0 == f;
                assert(key_before(ent, n as int, f));
            }
        }
    }

    /// Recompute the cached action set from scratch for the current turn.
    fn update_actions(&mut self)
        requires
            old(self).inv_core(),
        ensures
            final(self).board == old(self).board,
            final(self).ndice_red == old(self).ndice_red,
            final(self).ndice_black == old(self).ndice_black,
            final(self).turn == old(self).turn,
            final(self).winner == old(self).winner,
            final(self).actions@.no_duplicates(),
            forall|a: Action| #[trigger] final(self).actions@.contains(a)
                <==> action_legal(old(self).board@, old(self).turn, a),
    {
        let ghost b = self.board@;
        let ghost t = self.turn;
        self.actions.clear();
        proof {
            assert forall|x: Action| !(#[trigger] self.actions@.contains(x)) by {
                if self.actions@.contains(x) {
                    let u = choose|u: int| 0 <= u < self.actions@.len() && self.actions@[u] == x;
                }
            }
        }
        let ghost a0 = self.actions@;
        self.update_add_actions();
        let ghost a1 = self.actions@;
        self.update_merge_actions();
        let ghost a2 = self.actions@;
        self.update_move_actions();
        proof {
            assert forall|a: Action| #[trigger] self.actions@.contains(a)
                implies action_legal(b, t, a) by {
                if a2.contains(a) {
                    if a1.contains(a) {
                        assert(!a0.contains(a));
                        let p = choose|p: Pos| a == Action::Add(p) && add_legal(b, t, p);
                        assert(action_legal(b, t, a));
                    } else {
                        let (f, t2) = choose|f: Pos, t2: Pos|
                            a == Action::Merge(f, t2) && merge_legal(b, t, f, t2);
                        assert(action_legal(b, t, a));
                    }
                } else {
                    let (f, t2) = choose|f: Pos, t2: Pos|
                        a == Action::Move(f, t2) && move_legal(b, t, f, t2);
                    assert(action_legal(b, t, a));
                }
            }
            assert forall|a: Action| action_legal(b, t, a)
                implies #[trigger] self.actions@.contains(a) by {
                match a {
                    Action::Add(p) => {
                        assert(add_legal(b, t, p));
                        assert(a1.contains(a));
                        assert(a2.contains(a));
                    },
                    Action::Merge(f, t2) => {
                        assert(merge_legal(b, t, f, t2));
                        assert(a2.contains(a));
                    },
                    Action::Move(f, t2) => {
                        assert(move_legal(b, t, f, t2));
                    },
                }
            }
        }
    }

    /// Apply a legal action for the color to move: mutate the board, settle
    /// an overflow win on the spot, otherwise flip the turn, recompute the
    /// legal actions, and settle a blockade win.  Returns the winner, if the
    /// game just ended.
    pub fn perform_action(&mut self, action: Action) -> (w: Option<Color>)
        requires
            old(self).inv(),
            old(self)@.winner is None,
            old(self)@.actions.contains(action),
        ensures
            final(self).inv(),
            w == final(self)@.winner,
            final(self)@.winner is None ==> forall|a: Action|
                #[trigger] final(self)@.actions.contains(a)
                    <==> action_legal(final(self)@.board, final(self)@.turn, a),
            match action {
                Action::Add(p) => {
                    &&& final(self)@.board == old(self)@.board.insert(
                        p, Die { color: old(self)@.turn, value: 1usize })
                    &&& final(self)@.turn == old(self)@.turn.spec_other()
                    &&& final(self)@.winner == (
                        if exists_legal(final(self)@.board, old(self)@.turn.spec_other()) {
                            None::<Color>
                        } else {
                            Some(old(self)@.turn)
                        })
                },
                Action::Merge(f, t2) => {
                    let v = old(self)@.board[f].value + old(self)@.board[t2].value;
                    &&& final(self)@.board == old(self)@.board.remove(f).insert(
                        t2, Die { color: old(self)@.turn, value: v as usize })
                    &&& v > MAX_VALUE ==> final(self)@.turn == old(self)@.turn
                        && final(self)@.winner == Some(old(self)@.turn)
                        && final(self)@.actions == old(self)@.actions
                    &&& v <= MAX_VALUE ==> final(self)@.turn == old(self)@.turn.spec_other()
                        && final(self)@.winner == (
                            if exists_legal(final(self)@.board, old(self)@.turn.spec_other()) {
                                None::<Color>
                            } else {
                                Some(old(self)@.turn)
                            })
                },
                Action::Move(f, t2) => {
                    &&& final(self)@.board == old(self)@.board.remove(f).insert(
                        t2, old(self)@.board[f])
                    &&& final(self)@.turn == old(self)@.turn.spec_other()
                    &&& final(self)@.winner == (
                        if exists_legal(final(self)@.board, old(self)@.turn.spec_other()) {
                            None::<Color>
                        } else {
                            Some(old(self)@.turn)
                        })
                },
            },
    {
        let ghost b0 = self.board@;
        let t0 = self.turn;
        proof {
            assert(self.actions@.contains(action));
            assert(action_legal(b0, t0, action));
        }
        match action {
            Action::Add(p) => {
                proof {
                    assert(add_legal(b0, t0, p));
                    lemma_color_count_insert(b0, Color::Red, p, Die { color: t0, value: 1usize });
                    lemma_color_count_insert(b0, Color::Black, p, Die { color: t0, value: 1usize });
                }
                self.board.insert(p, Die::with_color(t0));
                match t0 {
                    Color::Red => { self.ndice_red = self.ndice_red + 1; },
                    Color::Black => { self.ndice_black = self.ndice_black + 1; },
                }
                proof {
                    lemma_add_keeps_company(b0, t0, p, self.board@);
                    assert(board_ok(self.board@));
                    let q0 = choose|q: Pos| b0.dom().contains(q) && #[trigger] orth_adj(p, q)
                        && b0[q].color == t0;
                    lemma_connected_insert(b0.dom(), q0, p);
                    assert(self.board@.dom() =~= b0.dom().insert(p));
                    assert(values_ok(self.board@)) by {
                        assert forall|q: Pos| #[trigger] self.board@.dom().contains(q)
                            implies 1 <= self.board@[q].value <= MAX_VALUE by {
                            if q != p {
                                assert(b0.dom().contains(q));
                            }
                        }
                    }
                }
            },
            Action::Merge(f, t2) => {
                proof {
                    assert(merge_legal(b0, t0, f, t2));
                    assert(f != t2);
                    assert(b0.dom().contains(f) && b0.dom().contains(t2));
                }
                let df = self.board.remove(f);
                let dt = match self.board.get(t2) {
                    Some(d) => d,
                    None => {
                        proof {
                            assert(false);
                        }
                        unreached()
                    },
                };
                let v = df.value + dt.value;
                let ghost mid = self.board@;
                self.board.set_value(t2, v);
                proof {
                    assert(self.board@ == b0.remove(f).insert(t2, Die { color: t0, value: v }));
                    lemma_color_count_remove(b0, Color::Red, f);
                    lemma_color_count_remove(b0, Color::Black, f);
                    lemma_color_count_update(mid, Color::Red, t2, Die { color: t0, value: v });
                    lemma_color_count_update(mid, Color::Black, t2, Die { color: t0, value: v });
                    // the mover had at least two dice: the one leaving and the target
                    lemma_color_count_remove(mid, t0, t2);
                    assert(color_count(b0, t0) >= 2);
                }
                match t0 {
                    Color::Red => { self.ndice_red = self.ndice_red - 1; },
                    Color::Black => { self.ndice_black = self.ndice_black - 1; },
                }
                proof {
                    assert(self.board@.dom() =~= b0.dom().remove(f));
                    assert(color_count(self.board@, Color::Red) >= 1);
                    assert(color_count(self.board@, Color::Black) >= 1);
                    lemma_color_count_member(self.board@, Color::Red);
                    lemma_color_count_member(self.board@, Color::Black);
                    let pr = choose|p: Pos| #[trigger] self.board@.dom().contains(p)
                        && self.board@[p].color == Color::Red;
                    let pb = choose|p: Pos| #[trigger] self.board@.dom().contains(p)
                        && self.board@[p].color == Color::Black;
                    assert(pr != pb);
                    assert(self.board@.dom().remove(pr).contains(pb));
                    assert(self.board@.dom().len() >= 2);
                    lemma_merge_keeps_company(b0, f, self.board@);
                    assert(board_ok(self.board@));
                    assert(connected(self.board@.dom())) by {
                        reveal(crate::conn::free_cell);
                    }
                }
                if v > MAX_VALUE {
                    self.winner = Some(t0);
                    proof {
                        assert(self.inv());
                        assert(self@.actions == old(self)@.actions);
                    }
                    return self.winner;
                }
                proof {
                    assert(values_ok(self.board@)) by {
                        assert forall|q: Pos| #[trigger] self.board@.dom().contains(q)
                            implies 1 <= self.board@[q].value <= MAX_VALUE by {
                            if q != t2 {
                                assert(b0.dom().contains(q) && q != f);
                            }
                        }
                    }
                }
            },
            Action::Move(f, t2) => {
                proof {
                    assert(move_legal(b0, t0, f, t2));
                    assert(1 <= b0[f].value <= MAX_VALUE);
                    lemma_slide_member(b0, f, b0[f].value as nat, t2);
                    assert(!b0.dom().contains(t2));
                    assert(in_bounds(t2));
                }
                let d = self.board.remove(f);
                let ghost mid = self.board@;
                self.board.insert(t2, d);
                proof {
                    lemma_color_count_remove(b0, Color::Red, f);
                    lemma_color_count_remove(b0, Color::Black, f);
                    lemma_color_count_insert(mid, Color::Red, t2, d);
                    lemma_color_count_insert(mid, Color::Black, t2, d);
                    lemma_move_keeps_company(b0, f, t2, b0[f].value as nat, self.board@);
                    assert(board_ok(self.board@));
                    assert(connected(self.board@.dom())) by {
                        reveal(crate::conn::free_cell);
                        let m0 = choose|m: Pos| !crate::slide::empty_for(b0, f, m)
                            && #[trigger] orth_adj(t2, m);
                        assert(b0.dom().remove(f).contains(m0));
                        lemma_connected_insert(b0.dom().remove(f), m0, t2);
                        assert(self.board@.dom() =~= b0.dom().remove(f).insert(t2));
                    }
                    assert(values_ok(self.board@)) by {
                        assert forall|q: Pos| #[trigger] self.board@.dom().contains(q)
                            implies 1 <= self.board@[q].value <= MAX_VALUE by {
                            if q != t2 {
                                assert(b0.dom().contains(q) && q != f);
                            }
                        }
                    }
                }
            },
        }
        self.turn = self.turn.other();
        self.update_actions();
        let ghost b1 = self.board@;
        let ghost t1 = self.turn;
        if self.actions.len() == 0 {
            proof {
                assert forall|a: Action| !action_legal(b1, t1, a) by {
                    if action_legal(b1, t1, a) {
                        assert(self.actions@.contains(a));
                        let u = choose|u: int|
                            0 <= u < self.actions@.len() && self.actions@[u] == a;
                    }
                }
                assert(!exists_legal(b1, t1));
            }
            self.winner = Some(self.turn.other());
        } else {
            proof {
                assert(self.actions@.contains(self.actions@[0]));
                assert(action_legal(b1, t1, self.actions@[0]));
                assert(exists_legal(b1, t1));
            }
        }
        self.winner
    }

    /// A fresh game: one red die at the origin, one black die just above it,
    /// red to move, legal actions computed.
    pub fn new() -> (g: Game)
        ensures
            g.inv(),
            g@.board == Map::<Pos, Die>::empty()
                .insert(Pos(0, 1), Die { color: Color::Black, value: 1usize })
                .insert(Pos(0, 0), Die { color: Color::Red, value: 1usize }),
            g@.turn == Color::Red,
            g@.winner is None,
            forall|a: Action| #[trigger] g@.actions.contains(a)
                <==> action_legal(g@.board, Color::Red, a),
    {
        let mut board = Board::empty();
        board.insert(Pos(0, 1), Die::with_color(Color::Black));
        board.insert(Pos(0, 0), Die::with_color(Color::Red));
        let mut g = Game {
            board,
            ndice_red: 1,
            ndice_black: 1,
            actions: Vec::new(),
            turn: Color::Red,
            winner: None,
        };
        proof {
            let e = Map::<Pos, Die>::empty();
            let bd = Die { color: Color::Black, value: 1usize };
            let rd = Die { color: Color::Red, value: 1usize };
            assert(g.board@ == e.insert(Pos(0, 1), bd).insert(Pos(0, 0), rd));
            lemma_color_count_insert(e, Color::Red, Pos(0, 1), bd);
            lemma_color_count_insert(e, Color::Black, Pos(0, 1), bd);
            lemma_color_count_insert(e.insert(Pos(0, 1), bd), Color::Red, Pos(0, 0), rd);
            lemma_color_count_insert(e.insert(Pos(0, 1), bd), Color::Black, Pos(0, 0), rd);
            assert(color_count(e, Color::Red) == 0);
            assert(color_count(e, Color::Black) == 0);
            reveal(has_neighbor);
            assert forall|p: Pos| #[trigger] g.board@.dom().contains(p)
                implies in_bounds(p) && has_neighbor(g.board@, p) by {
                assert(orth_adj(Pos(0, 0), Pos(0, 1)));
                assert(orth_adj(Pos(0, 1), Pos(0, 0)));
                assert(g.board@.dom().contains(Pos(0, 0)));
                assert(g.board@.dom().contains(Pos(0, 1)));
            }
            assert(g.inv_core());
            let s2 = g.board@.dom();
            assert forall|p: Pos, q: Pos| s2.contains(p) && s2.contains(q)
                implies #[trigger] reach(s2, p, q) by {
                if p == q {
                    assert(reach_n(s2, p, q, 0));
                } else {
                    assert(orth_adj(p, q));
                    assert(s2.contains(p) && orth_adj(p, q) && reach_n(s2, p, p, 0));
                    assert(reach_n(s2, p, q, 1));
                }
            }
            assert(connected(s2));
        }
        g.update_actions();
        g
    }

    /// A game set up from the given dice, with the given color to move.  The
    /// position is accepted exactly when the entries name each cell at most
    /// once and form one connected board fit for play, every die holding one
    /// to six pips; the legal actions of the given color are computed
    /// immediately.
    #[verifier::rlimit(100)]
    pub fn from_board(cells: Vec<(Pos, Die)>, turn: Color) -> (r: Option<Game>)
        ensures
            r is Some <==> setup_ok(cells@),
            r matches Some(g) ==> {
                &&& g.inv()
                &&& g@.board == map_of(cells@)
                &&& g@.turn == turn
                &&& g@.winner is None
                &&& forall|a: Action| #[trigger] g@.actions.contains(a)
                    <==> action_legal(map_of(cells@), turn, a)
            },
    {
        let ghost s = cells@;
        let n = cells.len();

        // Each cell at most once.
        let mut i: usize = 0;
        while i < n
            invariant
                n == s.len(),
                s == cells@,
                i <= n,
                forall|a: int, b2: int| 0 <= a < b2 < s.len() && a < i
                    ==> (#[trigger] s[a]).0 != (#[trigger] s[b2]).0,
            decreases n - i,
        {
            let mut j: usize = i + 1;
            while j < n
                invariant
                    n == s.len(),
                    s == cells@,
                    i < n,
                    i + 1 <= j <= n,
                    forall|a: int, b2: int| 0 <= a < b2 < s.len() && a < i
                        ==> (#[trigger] s[a]).0 != (#[trigger] s[b2]).0,
                    forall|b2: int| i < b2 < j ==> (#[trigger] s[b2]).0 != s[i as int].0,
                decreases n - j,
            {
                if cells[j].0 == cells[i].0 {
                    proof {
                        assert((s[i as int]).0 == (s[j as int]).0);
                        assert(!keys_unique(s));
                    }
                    return None;
                }
                j += 1;
            }
            i += 1;
        }
        proof {
            assert(keys_unique(s));
        }

        // Cells representable with margin, values in range.
        let mut i: usize = 0;
        while i < n
            invariant
                n == s.len(),
                s == cells@,
                keys_unique(s),
                i <= n,
                forall|k: int| 0 <= k < i ==> in_bounds((#[trigger] s[k]).0)
                    && 1 <= s[k].1.value <= MAX_VALUE,
            decreases n - i,
        {
            let p = cells[i].0;
            let d = cells[i].1;
            if p.0 < i32::MIN + 2 || p.0 > i32::MAX - 2 || p.1 < i32::MIN + 2
                || p.1 > i32::MAX - 2 {
                proof {
                    lemma_map_of_dom(s);
                    assert((s[i as int]).0 == p);
                    assert(map_of(s).dom().contains(p));
                    assert(!board_ok(map_of(s)));
                }
                return None;
            }
            if d.value < 1 || d.value > MAX_VALUE {
                proof {
                    lemma_map_of_index(s, i as int);
                    assert(!values_ok(map_of(s)));
                }
                return None;
            }
            i += 1;
        }

        // No die stands alone.
        let mut i: usize = 0;
        while i < n
            invariant
                n == s.len(),
                s == cells@,
                keys_unique(s),
                i <= n,
                forall|k: int| 0 <= k < s.len() ==> in_bounds((#[trigger] s[k]).0)
                    && 1 <= s[k].1.value <= MAX_VALUE,
                forall|k: int| 0 <= k < i ==> (exists|m: int|
                    0 <= m < s.len() && orth_adj((#[trigger] s[k]).0, s[m].0)),
            decreases n - i,
        {
            let p = cells[i].0;
            let mut found = false;
            let mut j: usize = 0;
            while j < n
                invariant
                    n == s.len(),
                    s == cells@,
                    i < n,
                    j <= n,
                    p == (s[i as int]).0,
                    found ==> (exists|m: int|
                        0 <= m < s.len() && orth_adj((#[trigger] s[i as int]).0, s[m].0)),
                    !found ==> forall|k: int| 0 <= k < j
                        ==> !orth_adj(p, (#[trigger] s[k]).0),
                decreases n - j,
            {
                let q = cells[j].0;
                let dx = (q.0 as i64) - (p.0 as i64);
                let dy = (q.1 as i64) - (p.1 as i64);
                if (dx == 0 && (dy == 1 || dy == -1)) || (dy == 0 && (dx == 1 || dx == -1)) {
                    proof {
                        assert((s[j as int]).0 == q);
                        assert(orth_adj(p, q));
                    }
                    found = true;
                }
                j += 1;
            }
            if !found {
                proof {
                    reveal(has_neighbor);
                    lemma_map_of_dom(s);
                    assert((s[i as int]).0 == p);
                    assert(map_of(s).dom().contains(p));
                    assert(!has_neighbor(map_of(s), p)) by {
                        if has_neighbor(map_of(s), p) {
                            let q = choose|q: Pos| map_of(s).dom().contains(q)
                                && #[trigger] orth_adj(p, q);
                            let k = choose|k: int| 0 <= k < s.len() && (#[trigger] s[k]).0 == q;
                        }
                    }
                    assert(!board_ok(map_of(s)));
                }
                return None;
            }
            i += 1;
        }

        // One to six dice of each color.
        let mut reds: usize = 0;
        let mut blacks: usize = 0;
        let mut i: usize = 0;
        while i < n
            invariant
                n == s.len(),
                s == cells@,
                i <= n,
                reds <= i,
                blacks <= i,
                reds == seq_color_count(s.take(i as int), Color::Red),
                blacks == seq_color_count(s.take(i as int), Color::Black),
            decreases n - i,
        {
            let c = cells[i].1.color;
            proof {
                assert(s.take(i + 1).drop_last() =~= s.take(i as int));
                assert(s.take(i + 1).last() == s[i as int]);
            }
            match c {
                Color::Red => { reds = reds + 1; },
                Color::Black => { blacks = blacks + 1; },
            }
            i += 1;
        }
        proof {
            assert(s.take(n as int) =~= s);
            lemma_seq_color_count(s, Color::Red);
            lemma_seq_color_count(s, Color::Black);
            assert(reds == color_count(map_of(s), Color::Red));
            assert(blacks == color_count(map_of(s), Color::Black));
        }
        if reds < 1 || reds > MAX_NDICE || blacks < 1 || blacks > MAX_NDICE {
            proof {
                assert(!board_ok(map_of(s)));
            }
            return None;
        }

        // The position is fit for play once it is one group; assemble it.
        proof {
            lemma_setup_checks(s);
            lemma_map_of_len(s);
        }
        let board = Board::from_entries(cells);
        if !all_connected(&board) {
            return None;
        }
        let mut g = Game {
            board,
            ndice_red: reds,
            ndice_black: blacks,
            actions: Vec::new(),
            turn,
            winner: None,
        };
        proof {
            assert(g.inv_core());
        }
        g.update_actions();
        Some(g)
    }
}

impl Default for Game {
    /// A fresh game, exactly as `Game::new` makes one.
    fn default() -> (g: Game)
        ensures
            g.inv(),
            g@.turn == Color::Red,
            g@.winner is None,
    {
        Game::new()
    }
}

/// A sequence of entries that sets up a board fit for play: pairwise
/// distinct cells, the board invariant, and pip values in range.
pub open spec fn setup_ok(s: Seq<(Pos, Die)>) -> bool {
    &&& keys_unique(s)
    &&& board_ok(map_of(s))
    &&& values_ok(map_of(s))
    &&& connected(map_of(s).dom())
}

/// After a legal placement at `p`, no die stands alone: the new die touches
/// the friendly die that made the placement legal, and every old die keeps
/// its old company.
proof fn lemma_add_keeps_company(b: Map<Pos, Die>, t: Color, p: Pos, nb: Map<Pos, Die>)
    requires
        add_legal(b, t, p),
        forall|q: Pos| #[trigger] b.dom().contains(q) ==> has_neighbor(b, q),
        nb.dom() == b.dom().insert(p),
    ensures
        forall|q: Pos| #[trigger] nb.dom().contains(q) ==> has_neighbor(nb, q),
{
    reveal(has_neighbor);
    let q0 = choose|q: Pos| b.dom().contains(q) && #[trigger] orth_adj(p, q) && b[q].color == t;
    assert forall|q: Pos| #[trigger] nb.dom().contains(q) implies has_neighbor(nb, q) by {
        if q == p {
            assert(nb.dom().contains(q0) && orth_adj(p, q0));
        } else {
            assert(b.dom().contains(q));
            assert(has_neighbor(b, q));
            let m = choose|m: Pos| b.dom().contains(m) && #[trigger] orth_adj(q, m);
            assert(nb.dom().contains(m) && orth_adj(q, m));
        }
    }
}

/// After the free die at `from` merges away, no die stands alone: the rest
/// of the formation is connected, and there are at least two cells in it.
proof fn lemma_merge_keeps_company(b: Map<Pos, Die>, from: Pos, nb: Map<Pos, Die>)
    requires
        b.dom().finite(),
        b.dom().contains(from),
        free_cell(b, from),
        nb.dom() == b.dom().remove(from),
        nb.dom().len() >= 2,
    ensures
        forall|p: Pos| #[trigger] nb.dom().contains(p) ==> has_neighbor(nb, p),
{
    reveal(free_cell);
    reveal(has_neighbor);
    let occ = b.dom().remove(from);
    assert forall|p: Pos| #[trigger] nb.dom().contains(p) implies has_neighbor(nb, p) by {
        assert(occ.remove(p).len() >= 1);
        let q = occ.remove(p).choose();
        assert(occ.remove(p).contains(q));
        lemma_connected_has_neighbor(occ, p, q);
        let m = choose|m: Pos| occ.contains(m) && #[trigger] orth_adj(p, m);
        assert(nb.dom().contains(m) && orth_adj(p, m));
    }
}

/// After the free die at `from` slides to `to`, no die stands alone: the
/// rest of the formation is connected, and the landing cell was braced by an
/// occupied neighbour during the final step.
proof fn lemma_move_keeps_company(b: Map<Pos, Die>, from: Pos, to: Pos, v: nat, nb: Map<Pos, Die>)
    requires
        b.dom().finite(),
        b.dom().contains(from),
        free_cell(b, from),
        v >= 1,
        crate::slide::slide_set(b, from, v).contains(to),
        to != from,
        nb.dom() == b.dom().remove(from).insert(to),
    ensures
        forall|p: Pos| #[trigger] nb.dom().contains(p) ==> has_neighbor(nb, p),
{
    reveal(free_cell);
    reveal(has_neighbor);
    let occ = b.dom().remove(from);
    lemma_slide_member(b, from, v, to);
    let m0 = choose|m: Pos| !crate::slide::empty_for(b, from, m) && #[trigger] orth_adj(to, m);
    assert(occ.contains(m0));
    assert forall|p: Pos| #[trigger] nb.dom().contains(p) implies has_neighbor(nb, p) by {
        if p == to {
            assert(nb.dom().contains(m0) && orth_adj(to, m0));
        } else {
            assert(occ.contains(p));
            if occ.len() >= 2 {
                assert(occ.remove(p).len() >= 1);
                let q = occ.remove(p).choose();
                assert(occ.remove(p).contains(q));
                lemma_connected_has_neighbor(occ, p, q);
                let m = choose|m: Pos| occ.contains(m) && #[trigger] orth_adj(p, m);
                assert(nb.dom().contains(m) && orth_adj(p, m));
            } else {
                assert(occ.remove(p).len() == 0);
                if m0 != p {
                    assert(occ.remove(p).contains(m0));
                    assert(false);
                }
                assert(orth_adj(p, to));
                assert(nb.dom().contains(to));
            }
        }
    }
}

/// Entry-by-entry checks add up to a board fit for play: distinct keys in
/// bounds with values in range, each touching another entry, and one to six
/// dice of each color.
#[verifier::rlimit(50)]
proof fn lemma_setup_checks(s: Seq<(Pos, Die)>)
    requires
        keys_unique(s),
        forall|k: int| 0 <= k < s.len() ==> in_bounds((#[trigger] s[k]).0)
            && 1 <= s[k].1.value <= MAX_VALUE,
        forall|k: int| 0 <= k < s.len() ==> (exists|m: int|
            0 <= m < s.len() && orth_adj((#[trigger] s[k]).0, s[m].0)),
        1 <= color_count(map_of(s), Color::Red) <= MAX_NDICE,
        1 <= color_count(map_of(s), Color::Black) <= MAX_NDICE,
    ensures
        board_ok(map_of(s)),
        values_ok(map_of(s)),
{
    reveal(has_neighbor);
    lemma_map_of_dom(s);
    assert forall|p: Pos| #[trigger] map_of(s).dom().contains(p)
        implies in_bounds(p) && has_neighbor(map_of(s), p)
            && 1 <= map_of(s)[p].value <= MAX_VALUE by {
        let k = choose|k: int| 0 <= k < s.len() && (#[trigger] s[k]).0 == p;
        lemma_map_of_index(s, k);
        let m = choose|m: int| 0 <= m < s.len() && orth_adj((#[trigger] s[k]).0, s[m].0);
        assert((s[m]).0 == (s[m as int]).0);
        assert(map_of(s).dom().contains(s[m].0));
    }
}

/// Some entry among the first `k` has this key.
pub open spec fn key_before(ent: Seq<(Pos, Die)>, k: int, f: Pos) -> bool {
    exists|j: int| 0 <= j < k && (#[trigger] ent[j]).0 == f
}

} // verus!
