//! Foundational value types: coordinates, directions, owners, identifiers,
//! proteins, organ descriptions, cells and per-owner resource vectors.

use vstd::prelude::*;

verus! {

/// The two sides of the game. Identifiers, resources and organism sets are
/// always partitioned by owner.
#[derive(Debug, Clone, Copy, PartialEq, Eq, Structural)]
pub enum Owner {
    Me,
    Ennemy,
}

impl Owner {
    pub open spec fn spec_switch_side(self) -> Owner {
        match self {
            Owner::Me => Owner::Ennemy,
            Owner::Ennemy => Owner::Me,
        }
    }

    pub fn switch_side(self) -> (r: Self)
        ensures
            r == self.spec_switch_side(),
    {
        match self {
            Owner::Me => Owner::Ennemy,
            Owner::Ennemy => Owner::Me,
        }
    }

    /// Two owners are enemies exactly when they differ.
    pub fn is_ennemy(self, other: Self) -> (r: bool)
        ensures
            r == (self != other),
    {
        let s = other.switch_side();
        match (self, s) {
            (Owner::Me, Owner::Me) => true,
            (Owner::Ennemy, Owner::Ennemy) => true,
            _ => false,
        }
    }
}

/// The four protein kinds that make up a resource vector.
#[derive(Debug, Clone, Copy, PartialEq, Eq, Structural)]
pub enum Protein {
    A,
    B,
    C,
    D,
}

impl Protein {
    pub fn all() -> (r: [Protein; 4])
        ensures
            r@ == seq![Protein::A, Protein::B, Protein::C, Protein::D],
    {
        let r = [Protein::A, Protein::B, Protein::C, Protein::D];
        proof {
            assert(r@ =~= seq![Protein::A, Protein::B, Protein::C, Protein::D]);
        }
        r
    }
}

/// A facing or growth direction on the grid.
#[derive(Debug, Clone, Copy, PartialEq, Eq, Structural)]
pub enum Direction {
    N,
    E,
    S,
    W,
}

impl Direction {
    pub fn all() -> (r: [Direction; 4])
        ensures
            r@ == seq![Direction::N, Direction::S, Direction::E, Direction::W],
    {
        let r = [Direction::N, Direction::S, Direction::E, Direction::W];
        proof {
            assert(r@ =~= seq![Direction::N, Direction::S, Direction::E, Direction::W]);
        }
        r
    }
}

/// The kinds of organ a cell of an organism can be.
#[derive(Debug, Clone, Copy, PartialEq, Eq, Structural)]
pub enum OrganeType {
    Root,
    Basic,
    Harvester,
    Tentacle,
    Sporer,
}

impl OrganeType {
    pub open spec fn spec_prix(self) -> Ressource {
        match self {
            OrganeType::Root => Ressource { a: 0, b: 0, c: 0, d: 0 },
            OrganeType::Basic => Ressource { a: 1, b: 0, c: 0, d: 0 },
            OrganeType::Harvester => Ressource { a: 0, b: 0, c: 1, d: 1 },
            OrganeType::Tentacle => Ressource { a: 0, b: 1, c: 1, d: 0 },
            OrganeType::Sporer => Ressource { a: 0, b: 1, c: 0, d: 1 },
        }
    }

    /// The resource price of growing an organ of this kind.
    pub fn prix(&self) -> (r: Ressource)
        ensures
            r == self.spec_prix(),
    {
        match self {
            OrganeType::Root => Ressource::new(0, 0, 0, 0),
            OrganeType::Basic => Ressource::new(1, 0, 0, 0),
            OrganeType::Harvester => Ressource::new(0, 0, 1, 1),
            OrganeType::Tentacle => Ressource::new(0, 1, 1, 0),
            OrganeType::Sporer => Ressource::new(0, 1, 0, 1),
        }
    }
}

/// An owner-scoped organ identifier. Identifier 0 is reserved as the
/// "no parent" sentinel of an original root.
#[derive(Debug, Clone, Copy, PartialEq, Eq, Structural)]
pub struct Id {
    pub owner: Owner,
    pub id: u8,
}

impl Id {
    pub fn new(owner: Owner, id: u8) -> (r: Self)
        ensures
            r == (Id { owner, id }),
    {
        Id { owner, id }
    }

    pub fn zero(owner: Owner) -> (r: Self)
        ensures
            r == (Id { owner, id: 0 }),
    {
        Id { owner, id: 0 }
    }

    pub open spec fn spec_increment(self) -> Id {
        if self.id == 255 {
            self
        } else {
            Id { owner: self.owner, id: (self.id + 1) as u8 }
        }
    }

    /// The next identifier of the same owner; saturates at the largest value.
    pub fn increment(self) -> (r: Self)
        ensures
            r == self.spec_increment(),
    {
        Id { owner: self.owner, id: self.id.saturating_add(1) }
    }

    pub fn get_num(&self) -> (r: u8)
        ensures
            r == self.id,
    {
        self.id
    }

    pub fn get_owner(&self) -> (r: Owner)
        ensures
            r == self.owner,
    {
        self.owner
    }
}

/// One organ of an organism, as stored on a board cell.
#[derive(Debug, Clone, Copy, PartialEq, Eq, Structural)]
pub struct Organe {
    pub id: Id,
    pub parent_id: Id,
    pub root_id: Id,
    pub organe_type: OrganeType,
    pub dir: Direction,
    pub owner: Owner,
}

/// What a board cell holds.
#[derive(Debug, Clone, Copy, PartialEq, Eq, Structural)]
pub enum Entity {
    Void,
    Wall,
    Protein(Protein),
    Organe(Organe),
}

impl Entity {
    pub open spec fn spec_organe(self) -> Option<Organe> {
        match self {
            Entity::Organe(o) => Some(o),
            _ => None,
        }
    }

    pub open spec fn spec_protein(self) -> Option<Protein> {
        match self {
            Entity::Protein(p) => Some(p),
            _ => None,
        }
    }
}

/// A coordinate paired with what sits there.
#[derive(Debug, Clone, Copy, PartialEq, Eq, Structural)]
pub struct Cell {
    pub coord: Coord,
    pub entity: Entity,
}

impl Cell {
    /// A cell can receive a new organ when it is empty or holds a protein.
    pub fn can_grow(&self) -> (r: bool)
        ensures
            r == (self.entity is Void || self.entity is Protein),
    {
        match self.entity {
            Entity::Void => true,
            Entity::Protein(_) => true,
            _ => false,
        }
    }
}

/// A grid coordinate. The origin is the north-west corner: north decreases
/// `y`, west decreases `x`.
#[derive(Debug, Clone, Copy, PartialEq, Eq, Structural)]
pub struct Coord {
    pub x: u8,
    pub y: u8,
}

impl Coord {
    pub open spec fn spec_decaler(self, direction: Direction) -> Option<Coord> {
        match direction {
            Direction::N => if self.y == 0 {
                None
            } else {
                Some(Coord { x: self.x, y: (self.y - 1) as u8 })
            },
            Direction::S => if self.y == 255 {
                None
            } else {
                Some(Coord { x: self.x, y: (self.y + 1) as u8 })
            },
            Direction::W => if self.x == 0 {
                None
            } else {
                Some(Coord { x: (self.x - 1) as u8, y: self.y })
            },
            Direction::E => if self.x == 255 {
                None
            } else {
                Some(Coord { x: (self.x + 1) as u8, y: self.y })
            },
        }
    }

    /// The neighbouring coordinate one step in the given direction, or
    /// `None` when the step leaves the representable grid.
    pub fn decaler(self, direction: Direction) -> (r: Option<Coord>)
        ensures
            r == self.spec_decaler(direction),
    {
        match direction {
            Direction::N => match self.y.checked_sub(1) {
                Some(y) => Some(Coord { x: self.x, y }),
                None => None,
            },
            Direction::S => match self.y.checked_add(1) {
                Some(y) => Some(Coord { x: self.x, y }),
                None => None,
            },
            Direction::W => match self.x.checked_sub(1) {
                Some(x) => Some(Coord { x, y: self.y }),
                None => None,
            },
            Direction::E => match self.x.checked_add(1) {
                Some(x) => Some(Coord { x, y: self.y }),
                None => None,
            },
        }
    }
}

/// The board size. A coordinate is on the board when both components are
/// strictly below the corresponding bound.
#[derive(Debug, Clone, Copy, PartialEq, Eq, Structural)]
pub struct Dimension {
    pub height: u8,
    pub width: u8,
}

impl Dimension {
    pub open spec fn spec_contains(self, coord: Coord) -> bool {
        coord.x < self.width && coord.y < self.height
    }

    pub fn contains(self, coord: Coord) -> (r: bool)
        ensures
            r == self.spec_contains(coord),
    {
        coord.x < self.width && coord.y < self.height
    }
}

/// A per-owner resource vector: one non-negative count per protein kind.
/// Counts never go negative: a subtraction that would underflow is refused
/// by `checked_sub`, not clamped.
#[derive(Debug, Clone, Copy, PartialEq, Eq, Structural)]
pub struct Ressource {
    pub a: u8,
    pub b: u8,
    pub c: u8,
    pub d: u8,
}

impl Ressource {
    pub fn new(a: u8, b: u8, c: u8, d: u8) -> (r: Self)
        ensures
            r == (Ressource { a, b, c, d }),
    {
        Self { a, b, c, d }
    }

    pub open spec fn spec_ge(self, rhs: Ressource) -> bool {
        self.a >= rhs.a && self.b >= rhs.b && self.c >= rhs.c && self.d >= rhs.d
    }

    pub open spec fn spec_sub(self, rhs: Ressource) -> Ressource {
        Ressource {
            a: (self.a - rhs.a) as u8,
            b: (self.b - rhs.b) as u8,
            c: (self.c - rhs.c) as u8,
            d: (self.d - rhs.d) as u8,
        }
    }

    /// Component-wise subtraction; `None` when any count would go negative.
    pub fn checked_sub(self, rhs: Self) -> (r: Option<Self>)
        ensures
            r is Some <==> self.spec_ge(rhs),
            r is Some ==> r->0 == self.spec_sub(rhs),
    {
        match (
            self.a.checked_sub(rhs.a),
            self.b.checked_sub(rhs.b),
            self.c.checked_sub(rhs.c),
            self.d.checked_sub(rhs.d),
        ) {
            (Some(a), Some(b), Some(c), Some(d)) => Some(Self { a, b, c, d }),
            _ => None,
        }
    }

    pub open spec fn spec_get(self, prot: Protein) -> u8 {
        match prot {
            Protein::A => self.a,
            Protein::B => self.b,
            Protein::C => self.c,
            Protein::D => self.d,
        }
    }

    pub fn get(&self, prot: &Protein) -> (r: u8)
        ensures
            r == self.spec_get(*prot),
    {
        match prot {
            Protein::A => self.a,
            Protein::B => self.b,
            Protein::C => self.c,
            Protein::D => self.d,
        }
    }

    pub open spec fn spec_ajout(self, prot: Protein, nb: u8) -> Ressource {
        match prot {
            Protein::A => Ressource { a: sat_add_u8(self.a, nb), ..self },
            Protein::B => Ressource { b: sat_add_u8(self.b, nb), ..self },
            Protein::C => Ressource { c: sat_add_u8(self.c, nb), ..self },
            Protein::D => Ressource { d: sat_add_u8(self.d, nb), ..self },
        }
    }

    fn ajout(self, prot: Protein, nb: u8) -> (r: Self)
        ensures
            r == self.spec_ajout(prot, nb),
    {
        match prot {
            Protein::A => Self { a: self.a.saturating_add(nb), ..self },
            Protein::B => Self { b: self.b.saturating_add(nb), ..self },
            Protein::C => Self { c: self.c.saturating_add(nb), ..self },
            Protein::D => Self { d: self.d.saturating_add(nb), ..self },
        }
    }

    /// Credit one unit of the given protein kind (the end-of-turn harvest
    /// reward); the count saturates at the type's maximum.
    pub fn ajout_1(self, prot: Protein) -> (r: Self)
        ensures
            r == self.spec_ajout(prot, 1),
    {
        self.ajout(prot, 1)
    }

    /// Credit three units of the given protein kind (the bonus for growing
    /// onto a protein cell); the count saturates at the type's maximum.
    pub fn ajout_3(self, prot: Protein) -> (r: Self)
        ensures
            r == self.spec_ajout(prot, 3),
    {
        self.ajout(prot, 3)
    }
}

/// Saturating addition on one resource count.
pub open spec fn sat_add_u8(x: u8, y: u8) -> u8 {
    if x + y > 255 {
        255u8
    } else {
        (x + y) as u8
    }
}

/// How many decisions the side to move still owes this turn: one per root
/// organism.
#[derive(Debug, Clone, Copy, PartialEq, Eq, Structural)]
pub struct ActionCount(pub u32);

impl ActionCount {
    pub fn new(count: u32) -> (r: Self)
        ensures
            r.0 == count,
    {
        Self(count)
    }

    pub fn decrement(self) -> (r: Self)
        ensures
            r.0 == if self.0 == 0 { 0u32 } else { (self.0 - 1) as u32 },
    {
        Self(self.0.saturating_sub(1))
    }

    pub fn is_null(&self) -> (r: bool)
        ensures
            r == (self.0 == 0),
    {
        self.0 == 0
    }
}

impl Default for ActionCount {
    fn default() -> (r: Self)
        ensures
            r.0 == 1,
    {
        Self(1)
    }
}

} // verus!
