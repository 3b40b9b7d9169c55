//! Small composite records derived from the board: per-owner pairs, harvest
//! and attack relations, organ records with their coordinate.

use vstd::prelude::*;
use crate::atome::{Coord, Direction, Id, OrganeType, Owner, Protein};

verus! {

/// One value per owner.
#[derive(Debug, Clone, Copy, PartialEq, Eq)]
pub struct OwnerMap<T> {
    pub friend: T,
    pub ennemy: T,
}

impl<T> OwnerMap<T> {
    pub open spec fn spec_get(self, owner: Owner) -> T {
        match owner {
            Owner::Me => self.friend,
            Owner::Ennemy => self.ennemy,
        }
    }

    pub fn new(friend: T, ennemy: T) -> (r: Self)
        ensures
            r.friend == friend,
            r.ennemy == ennemy,
    {
        OwnerMap { friend, ennemy }
    }

    pub fn get(&self, owner: Owner) -> (r: &T)
        ensures
            *r == self.spec_get(owner),
    {
        match owner {
            Owner::Me => &self.friend,
            Owner::Ennemy => &self.ennemy,
        }
    }

    /// Replace one owner's value, leaving the other side untouched.
    pub fn update<F: FnOnce(T) -> T>(self, owner: Owner, func: F) -> (r: Self)
        requires
            call_requires(func, (self.spec_get(owner),)),
        ensures
            r.spec_get(owner.spec_switch_side()) == self.spec_get(owner.spec_switch_side()),
            call_ensures(func, (self.spec_get(owner),), r.spec_get(owner)),
    {
        match owner {
            Owner::Me => OwnerMap { friend: func(self.friend), ennemy: self.ennemy },
            Owner::Ennemy => OwnerMap { friend: self.friend, ennemy: func(self.ennemy) },
        }
    }

    pub open spec fn spec_set(self, owner: Owner, value: T) -> Self {
        match owner {
            Owner::Me => OwnerMap { friend: value, ennemy: self.ennemy },
            Owner::Ennemy => OwnerMap { friend: self.friend, ennemy: value },
        }
    }

    /// Replace one owner's value by a given one.
    pub fn set(self, owner: Owner, value: T) -> (r: Self)
        ensures
            r == self.spec_set(owner, value),
    {
        match owner {
            Owner::Me => OwnerMap { friend: value, ennemy: self.ennemy },
            Owner::Ennemy => OwnerMap { friend: self.friend, ennemy: value },
        }
    }
}

impl OwnerMap<Id> {
    /// Advance one owner's identifier high-water mark by one.
    pub fn increment(self, owner: Owner) -> (r: Self)
        ensures
            r == self.spec_set(owner, self.spec_get(owner).spec_increment()),
    {
        let next = self.get(owner).increment();
        self.set(owner, next)
    }

    /// Raise the high-water mark of `new_id`'s owner to `new_id` when it is
    /// larger.
    pub fn insert_max(self, new_id: Id) -> (r: Self)
        ensures
            r == if self.spec_get(new_id.owner).id < new_id.id {
                self.spec_set(new_id.owner, new_id)
            } else {
                self
            },
    {
        let owner = new_id.get_owner();
        let current = *self.get(owner);
        proof {
            if !(current.id < new_id.id) {
                assert(self.spec_set(owner, current) =~= self);
            }
        }
        if current.get_num() < new_id.get_num() {
            self.set(owner, new_id)
        } else {
            self.set(owner, current)
        }
    }
}

impl Default for OwnerMap<Id> {
    fn default() -> (r: Self)
        ensures
            r.friend == (Id { owner: Owner::Me, id: 0 }),
            r.ennemy == (Id { owner: Owner::Ennemy, id: 0 }),
    {
        OwnerMap { friend: Id::zero(Owner::Me), ennemy: Id::zero(Owner::Ennemy) }
    }
}

/// A tentacle grown this turn and the enemy organ it faces: the coordinate
/// and identifier of the organ marked for destruction at end of turn.
#[derive(Debug, Clone, Copy, PartialEq, Eq, Structural)]
pub struct Attacking {
    pub target_coord: Coord,
    pub target_id: Id,
}

/// A harvester organ facing a protein cell: the protein kind it earns each
/// turn, its facing, and where the harvester itself sits.
#[derive(Debug, Clone, Copy, PartialEq, Eq, Structural)]
pub struct Harvesting {
    pub protein: Protein,
    pub direction: Direction,
    pub harvester_coord: Coord,
    pub harvester_id: Id,
}

/// A friendly organ, reduced to its identifier.
#[derive(Debug, Clone, Copy, PartialEq, Eq, Structural)]
pub struct OrganeAmi {
    pub id: Id,
}

/// An organ record paired with the coordinate it occupies.
#[derive(Debug, Clone, Copy, PartialEq, Eq, Structural)]
pub struct OrgWithCoord {
    pub coord: Coord,
    pub id: Id,
    pub parent_id: Id,
    pub root_id: Id,
    pub org_type: OrganeType,
}

/// A protein cell.
#[derive(Debug, Clone, Copy, PartialEq, Eq, Structural)]
pub struct ProteinWithCoord {
    pub coord: Coord,
    pub protein: Protein,
}

/// A coordinate where a new organ may be grown, with the protein sitting
/// there, if any.
#[derive(Debug, Clone, Copy, PartialEq, Eq, Structural)]
pub struct Fertile {
    pub coord: Coord,
    pub protein: Option<Protein>,
}

/// A fertile coordinate tagged with one organ that can claim it as parent.
#[derive(Debug, Clone, Copy, PartialEq, Eq, Structural)]
pub struct GrowCandidate {
    pub parent_id: Id,
}

/// The marker of an in-bounds cell that holds nothing.
#[derive(Debug, Clone, Copy, PartialEq, Eq, Structural)]
pub struct EmptyCell;

} // verus!
