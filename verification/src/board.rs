//! The board: a sparse mapping from position to die, at most one die per cell.
//!
//! The executable representation is a vector of entries with pairwise
//! distinct keys; the abstract value is the finite map `Map<Pos, Die>` it
//! denotes.  This module also defines the board statistics that the
//! conservation laws speak of: the number of dice of a color and the total
//! pip sum.

use vstd::prelude::*;
use crate::pos::Pos;
use crate::dice::{Color, Die};

verus! {

/// The finite map denoted by a sequence of key-value entries; later entries
/// would win, but the board only ever holds pairwise distinct keys.
pub open spec fn map_of(s: Seq<(Pos, Die)>) -> Map<Pos, Die>
    decreases s.len(),
{
    if s.len() == 0 {
        Map::empty()
    } else {
        map_of(s.drop_last()).insert(s.last().0, s.last().1)
    }
}

/// No two entries share a key.
pub open spec fn keys_unique(s: Seq<(Pos, Die)>) -> bool {
    forall|i: int, j: int|
        0 <= i < j < s.len() ==> (#[trigger] s[i]).0 != (#[trigger] s[j]).0
}

/// The domain of `map_of(s)` is exactly the set of keys of `s`, and it is
/// finite.
pub proof fn lemma_map_of_dom(s: Seq<(Pos, Die)>)
    ensures
        forall|p: Pos|
            map_of(s).dom().contains(p) <==> (exists|i: int|
                0 <= i < s.len() && (#[trigger] s[i]).0 == p),
        map_of(s).dom().finite(),
    decreases s.len(),
{
    if s.len() > 0 {
        lemma_map_of_dom(s.drop_last());
        assert forall|p: Pos| map_of(s).dom().contains(p) implies (exists|i: int|
            0 <= i < s.len() && (#[trigger] s[i]).0 == p) by {
            if p == s.last().0 {
                assert((s[s.len() - 1]).0 == p);
            } else {
                let i = choose|i: int| 0 <= i < s.drop_last().len() && (#[trigger] s.drop_last()[i]).0 == p;
                assert((s[i]).0 == p);
            }
        }
        assert forall|p: Pos| (exists|i: int| 0 <= i < s.len() && (#[trigger] s[i]).0 == p)
            implies map_of(s).dom().contains(p) by {
            let i = choose|i: int| 0 <= i < s.len() && (#[trigger] s[i]).0 == p;
            if i < s.len() - 1 {
                assert((s.drop_last()[i]).0 == p);
            }
        }
    }
}

/// Under unique keys, the entry at index `i` is what the map holds for its key.
pub proof fn lemma_map_of_index(s: Seq<(Pos, Die)>, i: int)
    requires
        keys_unique(s),
        0 <= i < s.len(),
    ensures
        map_of(s).dom().contains(s[i].0),
        map_of(s)[s[i].0] == s[i].1,
    decreases s.len(),
{
    if i == s.len() - 1 {
    } else {
        lemma_map_of_index(s.drop_last(), i);
        assert(s.drop_last()[i] == s[i]);
        assert(s[i].0 != s.last().0);
    }
}

/// Under unique keys, the map has as many entries as the sequence.
pub proof fn lemma_map_of_len(s: Seq<(Pos, Die)>)
    requires
        keys_unique(s),
    ensures
        map_of(s).dom().finite(),
        map_of(s).dom().len() == s.len(),
    decreases s.len(),
{
    lemma_map_of_dom(s);
    if s.len() > 0 {
        lemma_map_of_len(s.drop_last());
        lemma_map_of_dom(s.drop_last());
        assert(!map_of(s.drop_last()).dom().contains(s.last().0)) by {
            if map_of(s.drop_last()).dom().contains(s.last().0) {
                let i = choose|i: int|
                    0 <= i < s.drop_last().len() && (#[trigger] s.drop_last()[i]).0 == s.last().0;
                assert((s[i]).0 == (s[s.len() - 1]).0);
            }
        }
        assert(map_of(s).dom() =~= map_of(s.drop_last()).dom().insert(s.last().0));
    }
}

/// Removing the entry at index `i` removes exactly its key from the map.
pub proof fn lemma_map_of_remove(s: Seq<(Pos, Die)>, i: int)
    requires
        keys_unique(s),
        0 <= i < s.len(),
    ensures
        map_of(s.remove(i)) =~= map_of(s).remove(s[i].0),
        keys_unique(s.remove(i)),
    decreases s.len(),
{
    lemma_map_of_dom(s.drop_last());
    assert(keys_unique(s.remove(i))) by {
        assert forall|a: int, b: int| 0 <= a < b < s.remove(i).len() implies
            (#[trigger] s.remove(i)[a]).0 != (#[trigger] s.remove(i)[b]).0 by {
            let a0 = if a < i { a } else { a + 1 };
            let b0 = if b < i { b } else { b + 1 };
            assert(s.remove(i)[a] == s[a0]);
            assert(s.remove(i)[b] == s[b0]);
        }
    }
    if i == s.len() - 1 {
        assert(s.remove(i) =~= s.drop_last());
        assert(!map_of(s.drop_last()).dom().contains(s.last().0)) by {
            if map_of(s.drop_last()).dom().contains(s.last().0) {
                let j = choose|j: int|
                    0 <= j < s.drop_last().len() && (#[trigger] s.drop_last()[j]).0 == s.last().0;
                assert((s[j]).0 == (s[s.len() - 1]).0);
            }
        }
        assert(map_of(s.drop_last()) =~= map_of(s).remove(s[i].0));
    } else {
        lemma_map_of_remove(s.drop_last(), i);
        assert(s.remove(i).drop_last() =~= s.drop_last().remove(i));
        assert(s.remove(i).last() == s.last());
        assert(s[i].0 != s.last().0);
        assert(map_of(s.remove(i)) ==
            map_of(s.drop_last().remove(i)).insert(s.last().0, s.last().1));
        assert(map_of(s.drop_last()).remove(s[i].0).insert(s.last().0, s.last().1)
            =~= map_of(s).remove(s[i].0)) by {
            assert(s.drop_last()[i] == s[i]);
        }
    }
}

/// Appending a fresh entry inserts exactly its key.
pub proof fn lemma_map_of_push(s: Seq<(Pos, Die)>, p: Pos, d: Die)
    ensures
        map_of(s.push((p, d))) == map_of(s).insert(p, d),
{
    assert(s.push((p, d)).drop_last() =~= s);
    assert(s.push((p, d)).last() == (p, d));
}

/// How many dice of color `c` stand on the board.
pub open spec fn color_count(b: Map<Pos, Die>, c: Color) -> nat
    decreases b.dom().len(),
    when b.dom().finite()
{
    if b.dom().finite() && b.dom().len() > 0 {
        let p = b.dom().choose();
        (if b[p].color == c { 1nat } else { 0nat }) + color_count(b.remove(p), c)
    } else {
        0
    }
}

/// The sum of all pip values on the board.
pub open spec fn pip_sum(b: Map<Pos, Die>) -> int
    decreases b.dom().len(),
    when b.dom().finite()
{
    if b.dom().finite() && b.dom().len() > 0 {
        let p = b.dom().choose();
        b[p].value + pip_sum(b.remove(p))
    } else {
        0
    }
}

/// Taking one die off the board lowers the count of its color by one and
/// leaves the other color's count alone.
pub proof fn lemma_color_count_remove(b: Map<Pos, Die>, c: Color, p: Pos)
    requires
        b.dom().finite(),
        b.dom().contains(p),
    ensures
        color_count(b, c) == color_count(b.remove(p), c)
            + (if b[p].color == c { 1int } else { 0int }),
    decreases b.dom().len(),
{
    let q = b.dom().choose();
    assert(b.dom().contains(q));
    if q == p {
    } else {
        lemma_color_count_remove(b.remove(q), c, p);
        lemma_color_count_remove(b.remove(p), c, q);
        assert(b.remove(q).remove(p) =~= b.remove(p).remove(q));
    }
}

/// Adding a fresh die raises the count of its color by one.
pub proof fn lemma_color_count_insert(b: Map<Pos, Die>, c: Color, p: Pos, d: Die)
    requires
        b.dom().finite(),
        !b.dom().contains(p),
    ensures
        color_count(b.insert(p, d), c) == color_count(b, c)
            + (if d.color == c { 1int } else { 0int }),
{
    lemma_color_count_remove(b.insert(p, d), c, p);
    assert(b.insert(p, d).remove(p) =~= b);
}

/// Restacking the cell `p` with a die of the same color leaves the counts
/// alone; in general the count follows the colors of the old and new die.
pub proof fn lemma_color_count_update(b: Map<Pos, Die>, c: Color, p: Pos, d: Die)
    requires
        b.dom().finite(),
        b.dom().contains(p),
    ensures
        color_count(b.insert(p, d), c) == color_count(b, c)
            - (if b[p].color == c { 1int } else { 0int })
            + (if d.color == c { 1int } else { 0int }),
{
    lemma_color_count_remove(b, c, p);
    lemma_color_count_remove(b.insert(p, d), c, p);
    assert(b.insert(p, d).remove(p) =~= b.remove(p));
}

/// A positive count names a die of that color somewhere on the board.
pub proof fn lemma_color_count_member(b: Map<Pos, Die>, c: Color)
    requires
        b.dom().finite(),
        color_count(b, c) >= 1,
    ensures
        exists|p: Pos| #[trigger] b.dom().contains(p) && b[p].color == c,
    decreases b.dom().len(),
{
    let p = b.dom().choose();
    assert(b.dom().len() > 0);
    assert(b.dom().contains(p));
    if b[p].color == c {
    } else {
        lemma_color_count_member(b.remove(p), c);
        let q = choose|q: Pos| #[trigger] b.remove(p).dom().contains(q) && b.remove(p)[q].color == c;
        assert(b.dom().contains(q) && b[q].color == c);
    }
}

/// Taking one die off the board lowers the pip sum by its value.
pub proof fn lemma_pip_sum_remove(b: Map<Pos, Die>, p: Pos)
    requires
        b.dom().finite(),
        b.dom().contains(p),
    ensures
        pip_sum(b) == pip_sum(b.remove(p)) + b[p].value,
    decreases b.dom().len(),
{
    let q = b.dom().choose();
    assert(b.dom().contains(q));
    if q == p {
    } else {
        lemma_pip_sum_remove(b.remove(q), p);
        lemma_pip_sum_remove(b.remove(p), q);
        assert(b.remove(q).remove(p) =~= b.remove(p).remove(q));
    }
}

/// Adding a fresh die raises the pip sum by its value.
pub proof fn lemma_pip_sum_insert(b: Map<Pos, Die>, p: Pos, d: Die)
    requires
        b.dom().finite(),
        !b.dom().contains(p),
    ensures
        pip_sum(b.insert(p, d)) == pip_sum(b) + d.value,
{
    lemma_pip_sum_remove(b.insert(p, d), p);
    assert(b.insert(p, d).remove(p) =~= b);
}

/// How many entries of the sequence carry a die of color `c`.
pub open spec fn seq_color_count(s: Seq<(Pos, Die)>, c: Color) -> nat
    decreases s.len(),
{
    if s.len() == 0 {
        0
    } else {
        seq_color_count(s.drop_last(), c) + (if s.last().1.color == c { 1nat } else { 0nat })
    }
}

/// Under unique keys, counting dice entry by entry counts the map.
pub proof fn lemma_seq_color_count(s: Seq<(Pos, Die)>, c: Color)
    requires
        keys_unique(s),
    ensures
        color_count(map_of(s), c) == seq_color_count(s, c),
    decreases s.len(),
{
    lemma_map_of_dom(s.drop_last());
    if s.len() > 0 {
        lemma_seq_color_count(s.drop_last(), c);
        assert(!map_of(s.drop_last()).dom().contains(s.last().0)) by {
            if map_of(s.drop_last()).dom().contains(s.last().0) {
                let j = choose|j: int|
                    0 <= j < s.drop_last().len() && (#[trigger] s.drop_last()[j]).0 == s.last().0;
                assert((s[j]).0 == (s[s.len() - 1]).0);
            }
        }
        lemma_color_count_insert(map_of(s.drop_last()), c, s.last().0, s.last().1);
    }
}

/// Restacking the cell `p` shifts the pip sum by the difference of the dice.
pub proof fn lemma_pip_sum_update(b: Map<Pos, Die>, p: Pos, d: Die)
    requires
        b.dom().finite(),
        b.dom().contains(p),
    ensures
        pip_sum(b.insert(p, d)) == pip_sum(b) - b[p].value + d.value,
{
    lemma_pip_sum_remove(b, p);
    lemma_pip_sum_remove(b.insert(p, d), p);
    assert(b.insert(p, d).remove(p) =~= b.remove(p));
}

/// The board.  Holds at most one die per position; its abstract value is the
/// finite map from occupied cells to the dice standing on them.
#[derive(Clone, Debug)]
pub struct Board {
    cells: Vec<(Pos, Die)>,
}

impl View for Board {
    type V = Map<Pos, Die>;

    closed spec fn view(&self) -> Map<Pos, Die> {
        map_of(self.cells@)
    }
}

impl Board {
    /// The representation holds each occupied cell exactly once.
    pub closed spec fn wf(self) -> bool {
        keys_unique(self.cells@)
    }

    /// The entries in representation order; an implementation detail that the
    /// action generator walks.
    pub closed spec fn entries(self) -> Seq<(Pos, Die)> {
        self.cells@
    }

    /// What the entry sequence of a well-formed board is good for: it lists
    /// every occupied cell exactly once, with the die the map holds there.
    pub proof fn lemma_entries(self)
        requires
            self.wf(),
        ensures
            self@.dom().finite(),
            self.entries().len() == self@.dom().len(),
            keys_unique(self.entries()),
            forall|i: int| 0 <= i < self.entries().len() ==>
                self@.dom().contains((#[trigger] self.entries()[i]).0)
                && self@[self.entries()[i].0] == self.entries()[i].1,
            forall|p: Pos| self@.dom().contains(p) ==> (exists|i: int|
                0 <= i < self.entries().len() && (#[trigger] self.entries()[i]).0 == p),
    {
        lemma_map_of_len(self.cells@);
        lemma_map_of_dom(self.cells@);
        assert forall|i: int| 0 <= i < self.entries().len() implies
            self@.dom().contains((#[trigger] self.entries()[i]).0)
            && self@[self.entries()[i].0] == self.entries()[i].1 by {
            lemma_map_of_index(self.cells@, i);
        }
    }

    /// The empty board.
    pub fn empty() -> (b: Board)
        ensures
            b.wf(),
            b@ == Map::<Pos, Die>::empty(),
    {
        Board { cells: Vec::new() }
    }

    /// A board made of the given entries; the caller vouches that the keys
    /// are pairwise distinct.
    pub fn from_entries(cells: Vec<(Pos, Die)>) -> (b: Board)
        requires
            keys_unique(cells@),
        ensures
            b.wf(),
            b@ == map_of(cells@),
            b.entries() == cells@,
    {
        Board { cells }
    }

    /// How many dice stand on the board.
    pub fn len(&self) -> (n: usize)
        requires
            self.wf(),
        ensures
            n == self@.dom().len(),
    {
        proof {
            lemma_map_of_len(self.cells@);
        }
        self.cells.len()
    }

    /// The entry at the given representation index.
    pub fn entry(&self, i: usize) -> (e: (Pos, Die))
        requires
            self.wf(),
            i < self@.dom().len(),
        ensures
            e == self.entries()[i as int],
    {
        proof {
            lemma_map_of_len(self.cells@);
        }
        (self.cells[i].0, self.cells[i].1)
    }

    /// The die at `p`, if the cell is occupied.
    pub fn get(&self, p: Pos) -> (r: Option<Die>)
        requires
            self.wf(),
        ensures
            self@.dom().contains(p) ==> r == Some(self@[p]),
            !self@.dom().contains(p) ==> r is None,
    {
        proof {
            lemma_map_of_dom(self.cells@);
        }
        let n = self.cells.len();
        for i in 0..n
            invariant
                n == self.cells@.len(),
                keys_unique(self.cells@),
                forall|j: int| 0 <= j < i ==> (#[trigger] self.cells@[j]).0 != p,
        {
            if self.cells[i].0 == p {
                proof {
                    lemma_map_of_index(self.cells@, i as int);
                }
                return Some(self.cells[i].1);
            }
        }
        proof {
            lemma_map_of_dom(self.cells@);
        }
        None
    }

    /// Whether the cell is occupied.
    pub fn contains(&self, p: Pos) -> (r: bool)
        requires
            self.wf(),
        ensures
            r == self@.dom().contains(p),
    {
        self.get(p).is_some()
    }

    /// Put a die on an empty cell.
    pub fn insert(&mut self, p: Pos, d: Die)
        requires
            old(self).wf(),
            !old(self)@.dom().contains(p),
        ensures
            final(self).wf(),
            final(self)@ == old(self)@.insert(p, d),
    {
        proof {
            lemma_map_of_dom(self.cells@);
            lemma_map_of_push(self.cells@, p, d);
            assert forall|i: int, j: int|
                0 <= i < j < self.cells@.push((p, d)).len() implies
                (#[trigger] self.cells@.push((p, d))[i]).0
                    != (#[trigger] self.cells@.push((p, d))[j]).0 by {
                if j < self.cells@.len() {
                    assert(self.cells@.push((p, d))[i] == self.cells@[i]);
                    assert(self.cells@.push((p, d))[j] == self.cells@[j]);
                } else {
                    assert(self.cells@.push((p, d))[i] == self.cells@[i]);
                    assert((self.cells@[i]).0 != p);
                }
            }
        }
        self.cells.push((p, d));
    }

    /// Take the die off an occupied cell.
    pub fn remove(&mut self, p: Pos) -> (d: Die)
        requires
            old(self).wf(),
            old(self)@.dom().contains(p),
        ensures
            final(self).wf(),
            final(self)@ == old(self)@.remove(p),
            d == old(self)@[p],
    {
        let ghost s0 = self.cells@;
        proof {
            lemma_map_of_dom(s0);
        }
        let n = self.cells.len();
        let mut i: usize = 0;
        while i < n
            invariant
                n == self.cells@.len(),
                self.cells@ == s0,
                old(self)@ == map_of(s0),
                keys_unique(s0),
                map_of(s0).dom().contains(p),
                i <= n,
                forall|j: int| 0 <= j < i ==> (#[trigger] s0[j]).0 != p,
            decreases n - i,
        {
            if self.cells[i].0 == p {
                proof {
                    lemma_map_of_index(s0, i as int);
                    lemma_map_of_remove(s0, i as int);
                }
                let e = self.cells.remove(i);
                return e.1;
            }
            i += 1;
        }
        proof {
            lemma_map_of_dom(s0);
            assert(false);
        }
        unreached()
    }

    /// Replace the value of the die standing at `p`, keeping its color.
    pub fn set_value(&mut self, p: Pos, v: usize)
        requires
            old(self).wf(),
            old(self)@.dom().contains(p),
        ensures
            final(self).wf(),
            final(self)@ == old(self)@.insert(p, Die {
                color: old(self)@[p].color,
                value: v,
            }),
    {
        let d = self.remove(p);
        let ghost mid = self@;
        self.insert(p, Die { color: d.color, value: v });
        proof {
            assert(mid.insert(p, Die { color: d.color, value: v })
                =~= old(self)@.insert(p, Die { color: old(self)@[p].color, value: v }));
        }
    }
}

} // verus!
