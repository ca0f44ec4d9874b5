//! The three kinds of action a player can take.

use vstd::prelude::*;
use crate::pos::Pos;

verus! {

/// One legal move of the game.  Positions are plain data; equality is
/// structural, so a set of actions has a well-defined membership.
#[derive(Clone, Copy, Debug, PartialEq, Eq, Structural, Hash)]
pub enum Action {
    /// Place a fresh die of the mover's color on the given empty cell.
    Add(Pos),
    /// Pick up the die at the first cell and stack it onto the friendly die
    /// at the second, adding the pip values.
    Merge(Pos, Pos),
    /// Slide the die at the first cell to the second, leaving it unchanged.
    Move(Pos, Pos),
}

impl Action {
    /// The cell a merge or a move starts from; a placement starts nowhere.
    pub open spec fn spec_from(self) -> Option<Pos> {
        match self {
            Action::Merge(from, _) => Some(from),
            Action::Move(from, _) => Some(from),
            Action::Add(_) => None,
        }
    }

    /// The cell a merge or a move starts from; a placement starts nowhere.
    #[verifier::when_used_as_spec(spec_from)]
    pub fn from(self) -> (r: Option<Pos>)
        ensures
            r == self.spec_from(),
    {
        match self {
            Action::Merge(from, _) => Some(from),
            Action::Move(from, _) => Some(from),
            Action::Add(_) => None,
        }
    }
}

/// Whether the vector mentions the action.
pub fn contains_action(v: &Vec<Action>, a: Action) -> (r: bool)
    ensures
        r == v@.contains(a),
{
    let n = v.len();
    let mut i: usize = 0;
    while i < n
        invariant
            n == v@.len(),
            i <= n,
            forall|j: int| 0 <= j < i ==> v@[j] != a,
        decreases n - i,
    {
        if v[i] == a {
            return true;
        }
        i += 1;
    }
    false
}

/// Add the action to the vector unless it is already there.
pub fn push_unique_action(v: &mut Vec<Action>, a: Action)
    requires
        old(v)@.no_duplicates(),
    ensures
        final(v)@.no_duplicates(),
        forall|x: Action| final(v)@.contains(x) <==> (old(v)@.contains(x) || x == a),
{
    if !contains_action(v, a) {
        let ghost v0 = v@;
        v.push(a);
        proof {
            assert(v@[v0.len() as int] == a);
            assert(v@.contains(a));
            assert forall|x: Action| v@.contains(x) implies (v0.contains(x) || x == a) by {
                let u = choose|u: int| 0 <= u < v@.len() && v@[u] == x;
                if u < v0.len() {
                    assert(v0[u] == x);
                }
            }
            assert forall|x: Action| v0.contains(x) implies v@.contains(x) by {
                let u = choose|u: int| 0 <= u < v0.len() && v0[u] == x;
                assert(v@[u] == x);
            }
            assert forall|b2: int, c2: int| 0 <= b2 < c2 < v@.len() implies v@[b2] != v@[c2] by {
                if c2 == v0.len() {
                    assert(v0[b2] == v@[b2]);
                    assert(v0.contains(v@[b2]));
                }
            }
        }
    }
}

} // verus!
