//! Decisions a root organism can take in a turn, and the planification log
//! that accumulates them turn by turn along a search branch.

use vstd::prelude::*;
use crate::atome::{Coord, Direction, Id, OrganeType};

verus! {

/// One decision of one root organism: do nothing, grow a new organ, or
/// spore a new root at a distance.
#[derive(Debug, Clone, Copy, PartialEq, Eq, Structural)]
pub enum Decision {
    Wait,
    Grow(Grow),
    Spore(Spore),
}

impl Default for Decision {
    fn default() -> (r: Self)
        ensures
            r == Decision::Wait,
    {
        Decision::Wait
    }
}

/// Grow an organ of the given kind and facing at `coord`, as a child of the
/// organ `parent_id`.
#[derive(Debug, Clone, Copy, PartialEq, Eq, Structural)]
pub struct Grow {
    pub parent_id: Id,
    pub coord: Coord,
    pub organe_type: OrganeType,
    pub direction: Direction,
}

/// Spawn a brand-new root at `coord`, fired from the sporer `parent_id`.
#[derive(Debug, Clone, Copy, PartialEq, Eq, Structural)]
pub struct Spore {
    pub parent_id: Id,
    pub coord: Coord,
}

/// The explicit wait decision of the root `root_id`.
#[derive(Debug, Clone, Copy, PartialEq, Eq, Structural)]
pub struct Wait {
    pub root_id: Id,
}

/// The ordered, turn-segmented list of decisions accumulated by a search
/// branch: one inner sequence per turn, append-only.
#[derive(Debug, Clone, PartialEq, Eq)]
pub struct Planification {
    pub content: Vec<Vec<Decision>>,
}

impl Planification {
    /// The turns as a sequence of sequences of decisions.
    pub open spec fn view_turns(self) -> Seq<Seq<Decision>> {
        self.content@.map_values(|t: Vec<Decision>| t@)
    }

    /// Open a new, empty turn at the end of the log.
    pub fn new_turn(self) -> (r: Self)
        ensures
            r.view_turns() == self.view_turns().push(Seq::<Decision>::empty()),
    {
        let mut content = self.content;
        content.push(Vec::new());
        let r = Planification { content };
        proof {
            assert(r.view_turns() =~= self.view_turns().push(Seq::<Decision>::empty()));
        }
        r
    }

    /// Append one decision to the current (last) turn; a log with no open
    /// turn is left unchanged.
    pub fn add_decision(self, decision: Decision) -> (r: Self)
        ensures
            self.content@.len() == 0 ==> r.view_turns() == self.view_turns(),
            self.content@.len() > 0 ==> r.view_turns() == self.view_turns().update(
                self.view_turns().len() - 1,
                self.view_turns().last().push(decision),
            ),
    {
        let mut content = self.content;
        let n = content.len();
        if n > 0 {
            let mut turn = content.remove(n - 1);
            turn.push(decision);
            content.push(turn);
        }
        let r = Planification { content };
        proof {
            if self.content@.len() == 0 {
                assert(r.view_turns() =~= self.view_turns());
            } else {
                assert(r.view_turns() =~= self.view_turns().update(
                    self.view_turns().len() - 1,
                    self.view_turns().last().push(decision),
                ));
            }
        }
        r
    }

    /// The decisions of the first turn; empty when the log has no turn.
    pub fn take_first_turn(self) -> (r: Vec<Decision>)
        ensures
            self.content@.len() == 0 ==> r@ == Seq::<Decision>::empty(),
            self.content@.len() > 0 ==> r@ == self.view_turns()[0],
    {
        let mut content = self.content;
        if content.len() == 0 {
            Vec::new()
        } else {
            content.remove(0)
        }
    }

    /// The whole log as a vector of turns.
    pub fn take_content(self) -> (r: Vec<Vec<Decision>>)
        ensures
            r@.map_values(|t: Vec<Decision>| t@) == self.view_turns(),
    {
        self.content
    }

    /// An exact copy of the log.
    pub fn duplicate(&self) -> (r: Self)
        ensures
            r.view_turns() == self.view_turns(),
            r.content@.len() == self.content@.len(),
    {
        let mut content: Vec<Vec<Decision>> = Vec::new();
        let mut i: usize = 0;
        while i < self.content.len()
            invariant
                i <= self.content@.len(),
                content@.len() == i as int,
                forall|k: int| 0 <= k < i as int ==> content@[k]@ == self.content@[k]@,
            decreases self.content@.len() - i,
        {
            let turn = &self.content[i];
            let mut copy: Vec<Decision> = Vec::new();
            let mut j: usize = 0;
            while j < turn.len()
                invariant
                    j <= turn@.len(),
                    copy@ == turn@.subrange(0, j as int),
                decreases turn@.len() - j,
            {
                copy.push(turn[j]);
                proof {
                    assert(copy@ =~= turn@.subrange(0, j + 1 as int));
                }
                j = j + 1;
            }
            proof {
                assert(copy@ =~= turn@);
            }
            content.push(copy);
            i = i + 1;
        }
        let r = Planification { content };
        proof {
            assert(r.view_turns() =~= self.view_turns());
        }
        r
    }
}

impl Default for Planification {
    /// A fresh log: one open, empty turn.
    fn default() -> (r: Self)
        ensures
            r.view_turns() == seq![Seq::<Decision>::empty()],
    {
        let mut content: Vec<Vec<Decision>> = Vec::new();
        content.push(Vec::new());
        let r = Planification { content };
        proof {
            assert(r.view_turns() =~= seq![Seq::<Decision>::empty()]);
        }
        r
    }
}

} // verus!
