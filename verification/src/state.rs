//! The persistent game-state snapshot and its derived views.
//!
//! A snapshot holds the board cells (walls, proteins, organs), the per-owner
//! resource vectors, the root sets, the per-turn action budget, the tentacle
//! attacks recorded this turn and the accumulated planification. Every
//! derived view (cell lookup, harvesting set, organism index, enemy
//! locations) is a function of the cell list, so the views of a successor
//! snapshot differ from its predecessor's exactly by the applied delta.

use vstd::prelude::*;
use crate::atome::{
    ActionCount, Cell, Coord, Dimension, Direction, Entity, Id, Organe, OrganeType, Owner,
    Protein, Ressource,
};
use crate::decision::{Decision, Planification};
use crate::molecule::{Attacking, Harvesting, OrgWithCoord, OwnerMap};

verus! {

/// One immutable snapshot of the game.
#[derive(Debug, Clone)]
pub struct State {
    pub dimension: Dimension,
    pub cells: Vec<Cell>,
    pub ressources: OwnerMap<Ressource>,
    pub action_set: OwnerMap<Vec<Id>>,
    pub root_set: OwnerMap<Vec<Id>>,
    pub max_id: OwnerMap<Id>,
    pub attacks: Vec<Attacking>,
    pub plan: Planification,
    pub action_count: ActionCount,
}

/// The organ record of a cell, if it holds one.
pub open spec fn organe_of(c: Cell) -> Option<Organe> {
    c.entity.spec_organe()
}

/// The organ of a cell as an `OrgWithCoord` record; meaningful only for
/// organ cells.
pub open spec fn org_record(c: Cell) -> OrgWithCoord {
    let o = organe_of(c)->0;
    OrgWithCoord {
        coord: c.coord,
        id: o.id,
        parent_id: o.parent_id,
        root_id: o.root_id,
        org_type: o.organe_type,
    }
}

/// Well-formedness of one identifier list: every element is tagged with the
/// given owner, stays at or below the owner's high-water mark, and appears
/// once.
pub open spec fn ids_ok(ids: Seq<Id>, owner: Owner, max: Id) -> bool {
    &&& forall|i: int| 0 <= i < ids.len() ==> (#[trigger] ids[i]).owner == owner && ids[i].id
        <= max.id
    &&& forall|i: int, j: int| 0 <= i < j < ids.len() ==> ids[i] != ids[j]
}

impl State {
    /// Well-formedness of one cell with respect to this snapshot: on the
    /// board, never the explicit `Void` marker, and an organ's identifiers
    /// are tagged with its owner, bounded by the owner's high-water mark,
    /// and numbered after the parent they descend from.
    pub open spec fn cell_ok(self, c: Cell) -> bool {
        &&& self.dimension.spec_contains(c.coord)
        &&& !(c.entity is Void)
        &&& match c.entity {
            Entity::Organe(o) => {
                &&& o.id.owner == o.owner
                &&& o.parent_id.owner == o.owner
                &&& o.root_id.owner == o.owner
                &&& o.id.id <= self.max_id.spec_get(o.owner).id
                &&& (o.id != o.parent_id ==> o.parent_id.id < o.id.id)
            },
            _ => true,
        }
    }

    /// The snapshot invariant, established by the constructor and preserved
    /// by every transition.
    pub open spec fn wf(self) -> bool {
        &&& forall|i: int| 0 <= i < self.cells@.len() ==> self.cell_ok(#[trigger] self.cells@[i])
        &&& forall|i: int, j: int|
            0 <= i < j < self.cells@.len() ==> (#[trigger] self.cells@[i]).coord != (
            #[trigger] self.cells@[j]).coord
        &&& forall|i: int, j: int|
            0 <= i < j < self.cells@.len() && organe_of(#[trigger] self.cells@[i]) is Some
                && organe_of(#[trigger] self.cells@[j]) is Some ==> organe_of(self.cells@[i])->0.id
                != organe_of(self.cells@[j])->0.id
        &&& ids_ok(
            self.root_set.spec_get(Owner::Me)@,
            Owner::Me,
            self.max_id.spec_get(Owner::Me),
        )
        &&& ids_ok(
            self.root_set.spec_get(Owner::Ennemy)@,
            Owner::Ennemy,
            self.max_id.spec_get(Owner::Ennemy),
        )
        &&& ids_ok(
            self.action_set.spec_get(Owner::Me)@,
            Owner::Me,
            self.max_id.spec_get(Owner::Me),
        )
        &&& ids_ok(
            self.action_set.spec_get(Owner::Ennemy)@,
            Owner::Ennemy,
            self.max_id.spec_get(Owner::Ennemy),
        )
        &&& self.max_id.spec_get(Owner::Me).owner == Owner::Me
        &&& self.max_id.spec_get(Owner::Ennemy).owner == Owner::Ennemy
        &&& self.plan.content@.len() >= 1
    }

    /// What sits at a coordinate, if any cell is recorded there.
    pub open spec fn spec_entity_at(self, coord: Coord) -> Option<Entity> {
        if exists|i: int|
            0 <= i < self.cells@.len() && (#[trigger] self.cells@[i]).coord == coord {
            let i = choose|i: int|
                0 <= i < self.cells@.len() && (#[trigger] self.cells@[i]).coord == coord;
            Some(self.cells@[i].entity)
        } else {
            None
        }
    }

    /// The protein sitting at a coordinate, if any.
    pub open spec fn spec_protein_at(self, coord: Coord) -> Option<Protein> {
        match self.spec_entity_at(coord) {
            Some(e) => e.spec_protein(),
            None => None,
        }
    }

    /// An on-board coordinate holding nothing at all.
    pub open spec fn spec_is_empty_at(self, coord: Coord) -> bool {
        self.dimension.spec_contains(coord) && self.spec_entity_at(coord) is None
    }

    /// An on-board coordinate where a new organ may be placed: empty or
    /// holding a protein.
    pub open spec fn spec_growable_at(self, coord: Coord) -> bool {
        self.dimension.spec_contains(coord) && (self.spec_entity_at(coord) is None
            || self.spec_entity_at(coord)->0 is Protein)
    }

    /// The cell lookup a caller sees: a recorded cell as is, an in-bounds
    /// unrecorded coordinate as an explicit `Void` cell, and an off-board
    /// coordinate as "unknown" (`None`).
    pub open spec fn spec_get_by_coord(self, coord: Coord) -> Option<Cell> {
        match self.spec_entity_at(coord) {
            Some(e) => Some(Cell { coord, entity: e }),
            None => if self.dimension.spec_contains(coord) {
                Some(Cell { coord, entity: Entity::Void })
            } else {
                None
            },
        }
    }

    /// Cell lookup by coordinate. An off-board coordinate yields `None`,
    /// distinguishable from an in-bounds empty cell, which yields a `Void`
    /// cell.
    pub fn get_by_coord(&self, coord: Coord) -> (r: Option<Cell>)
        requires
            self.wf(),
        ensures
            r == self.spec_get_by_coord(coord),
            r is None <==> !self.dimension.spec_contains(coord),
    {
        let n = self.cells.len();
        let mut i: usize = 0;
        while i < n
            invariant
                n == self.cells@.len(),
                i <= n,
                forall|k: int| 0 <= k < i as int ==> (#[trigger] self.cells@[k]).coord != coord,
                self.wf(),
            decreases n - i,
        {
            let c = self.cells[i];
            if c.coord == coord {
                proof {
                    let j = choose|j: int|
                        0 <= j < self.cells@.len() && (#[trigger] self.cells@[j]).coord == coord;
                    assert(j == i as int);
                    assert(Cell { coord, entity: self.cells@[i as int].entity } == self.cells@[i as int]);
                }
                return Some(c);
            }
            i = i + 1;
        }
        proof {
            assert(self.spec_entity_at(coord) is None);
        }
        if self.dimension.contains(coord) {
            Some(Cell { coord, entity: Entity::Void })
        } else {
            None
        }
    }

    /// The organ record with the given identifier, if one is on the board.
    pub open spec fn spec_get_by_id(self, id: Id) -> Option<OrgWithCoord> {
        if exists|i: int|
            0 <= i < self.cells@.len() && organe_of(#[trigger] self.cells@[i]) is Some && organe_of(
                self.cells@[i],
            )->0.id == id {
            let i = choose|i: int|
                0 <= i < self.cells@.len() && organe_of(#[trigger] self.cells@[i]) is Some
                    && organe_of(self.cells@[i])->0.id == id;
            Some(org_record(self.cells@[i]))
        } else {
            None
        }
    }

    /// Organ lookup by identifier.
    pub fn get_by_id(&self, id: Id) -> (r: Option<OrgWithCoord>)
        requires
            self.wf(),
        ensures
            r == self.spec_get_by_id(id),
    {
        let n = self.cells.len();
        let mut i: usize = 0;
        while i < n
            invariant
                n == self.cells@.len(),
                i <= n,
                forall|k: int|
                    0 <= k < i as int ==> !(organe_of(#[trigger] self.cells@[k]) is Some
                        && organe_of(self.cells@[k])->0.id == id),
                self.wf(),
            decreases n - i,
        {
            let c = self.cells[i];
            match c.entity {
                Entity::Organe(o) => {
                    if o.id == id {
                        proof {
                            let j = choose|j: int|
                                0 <= j < self.cells@.len() && organe_of(
                                    #[trigger] self.cells@[j],
                                ) is Some && organe_of(self.cells@[j])->0.id == id;
                            if j != i as int {
                                assert(organe_of(self.cells@[j])->0.id != organe_of(
                                    self.cells@[i as int],
                                )->0.id);
                            }
                        }
                        return Some(
                            OrgWithCoord {
                                coord: c.coord,
                                id: o.id,
                                parent_id: o.parent_id,
                                root_id: o.root_id,
                                org_type: o.organe_type,
                            },
                        );
                    }
                },
                _ => {},
            }
            i = i + 1;
        }
        None
    }

    /// The cell one step from `coord` in `direction`, through the same
    /// lookup as `get_by_coord`.
    pub fn en_face(&self, coord: Coord, direction: Direction) -> (r: Option<Cell>)
        requires
            self.wf(),
        ensures
            r == match coord.spec_decaler(direction) {
                Some(c) => self.spec_get_by_coord(c),
                None => None::<Cell>,
            },
    {
        match coord.decaler(direction) {
            Some(c) => self.get_by_coord(c),
            None => None,
        }
    }

    /// The four neighbouring cells of a coordinate, in the direction order
    /// north, south, east, west.
    pub fn get_neighbour(&self, coor: Coord) -> (r: [Option<Cell>; 4])
        requires
            self.wf(),
        ensures
            r@.len() == 4,
            forall|k: int|
                0 <= k < 4 ==> r@[k] == match coor.spec_decaler(
                    seq![Direction::N, Direction::S, Direction::E, Direction::W][k],
                ) {
                    Some(c) => self.spec_get_by_coord(c),
                    None => None::<Cell>,
                },
    {
        let r = [
            self.en_face(coor, Direction::N),
            self.en_face(coor, Direction::S),
            self.en_face(coor, Direction::E),
            self.en_face(coor, Direction::W),
        ];
        proof {
            assert(seq![Direction::N, Direction::S, Direction::E, Direction::W][0]
                == Direction::N);
            assert(seq![Direction::N, Direction::S, Direction::E, Direction::W][1]
                == Direction::S);
            assert(seq![Direction::N, Direction::S, Direction::E, Direction::W][2]
                == Direction::E);
            assert(seq![Direction::N, Direction::S, Direction::E, Direction::W][3]
                == Direction::W);
        }
        r
    }

    pub fn get_action_count(&self) -> (r: ActionCount)
        ensures
            r == self.action_count,
    {
        self.action_count
    }

    pub fn ressource(&self) -> (r: OwnerMap<Ressource>)
        ensures
            r == self.ressources,
    {
        self.ressources
    }

    pub fn max_id_map(&self) -> (r: OwnerMap<Id>)
        ensures
            r == self.max_id,
    {
        self.max_id
    }

    pub fn roots(&self) -> (r: &OwnerMap<Vec<Id>>)
        ensures
            r == self.root_set,
    {
        &self.root_set
    }

    pub fn action_roots(&self) -> (r: &OwnerMap<Vec<Id>>)
        ensures
            r == self.action_set,
    {
        &self.action_set
    }

    pub fn attacking(&self) -> (r: &Vec<Attacking>)
        ensures
            r == self.attacks,
    {
        &self.attacks
    }

    pub fn planification(&self) -> (r: Planification)
        ensures
            r.view_turns() == self.plan.view_turns(),
    {
        self.plan.duplicate()
    }
}

} // verus!

verus! {

/// Does a harvest list already claim this protein coordinate?
pub open spec fn contains_harvest_coord(s: Seq<(Coord, Harvesting)>, co: Coord) -> bool {
    exists|k: int| 0 <= k < s.len() && (#[trigger] s[k]).0 == co
}

impl State {
    /// The harvest entry one cell contributes: a friendly harvester facing a
    /// protein cell harvests that cell.
    pub open spec fn spec_harvest_entry(self, c: Cell) -> Option<(Coord, Harvesting)> {
        match organe_of(c) {
            Some(o) => if o.owner == Owner::Me && o.organe_type == OrganeType::Harvester {
                match c.coord.spec_decaler(o.dir) {
                    Some(fc) => match self.spec_protein_at(fc) {
                        Some(p) => Some(
                            (
                                fc,
                                Harvesting {
                                    protein: p,
                                    direction: o.dir,
                                    harvester_coord: c.coord,
                                    harvester_id: o.id,
                                },
                            ),
                        ),
                        None => None,
                    },
                    None => None,
                }
            } else {
                None
            },
            None => None,
        }
    }

    /// The harvesting set collected over the first `n` cells; when several
    /// harvesters face the same protein cell, the earliest cell in board
    /// order claims it.
    pub open spec fn harvest_upto(self, n: int) -> Seq<(Coord, Harvesting)>
        decreases n,
    {
        if n <= 0 {
            Seq::empty()
        } else {
            let prev = self.harvest_upto(n - 1);
            match self.spec_harvest_entry(self.cells@[n - 1]) {
                Some(e) => if contains_harvest_coord(prev, e.0) {
                    prev
                } else {
                    prev.push(e)
                },
                None => prev,
            }
        }
    }

    /// The harvesting set: protein coordinate, kind, and the harvester that
    /// claims it.
    pub open spec fn spec_harvests(self) -> Seq<(Coord, Harvesting)> {
        self.harvest_upto(self.cells@.len() as int)
    }

    /// The harvesting set, recomputed from the cells: one entry per protein
    /// cell faced by a friendly harvester.
    pub fn harvesting(&self) -> (r: Vec<(Coord, Harvesting)>)
        requires
            self.wf(),
        ensures
            r@ == self.spec_harvests(),
    {
        let n = self.cells.len();
        let mut acc: Vec<(Coord, Harvesting)> = Vec::new();
        let mut i: usize = 0;
        while i < n
            invariant
                n == self.cells@.len(),
                i <= n,
                acc@ == self.harvest_upto(i as int),
                self.wf(),
            decreases n - i,
        {
            let c = self.cells[i];
            match c.entity {
                Entity::Organe(o) => {
                    if matches!(o.owner, Owner::Me) && matches!(
                        o.organe_type,
                        OrganeType::Harvester,
                    ) {
                        match self.en_face(c.coord, o.dir) {
                            Some(faced) => match faced.entity {
                                Entity::Protein(p) => {
                                    if !contains_coord_key(&acc, faced.coord) {
                                        acc.push(
                                            (
                                                faced.coord,
                                                Harvesting {
                                                    protein: p,
                                                    direction: o.dir,
                                                    harvester_coord: c.coord,
                                                    harvester_id: o.id,
                                                },
                                            ),
                                        );
                                    }
                                },
                                _ => {},
                            },
                            None => {},
                        }
                    }
                },
                _ => {},
            }
            i = i + 1;
        }
        acc
    }

    /// The protein cells collected over the first `n` cells.
    pub open spec fn proteins_upto(self, n: int) -> Seq<(Coord, Protein)>
        decreases n,
    {
        if n <= 0 {
            Seq::empty()
        } else {
            let prev = self.proteins_upto(n - 1);
            match self.cells@[n - 1].entity {
                Entity::Protein(p) => prev.push((self.cells@[n - 1].coord, p)),
                _ => prev,
            }
        }
    }

    pub open spec fn spec_proteins(self) -> Seq<(Coord, Protein)> {
        self.proteins_upto(self.cells@.len() as int)
    }

    /// Every protein cell on the board, in board order.
    pub fn protein(&self) -> (r: Vec<(Coord, Protein)>)
        ensures
            r@ == self.spec_proteins(),
    {
        let n = self.cells.len();
        let mut acc: Vec<(Coord, Protein)> = Vec::new();
        let mut i: usize = 0;
        while i < n
            invariant
                n == self.cells@.len(),
                i <= n,
                acc@ == self.proteins_upto(i as int),
            decreases n - i,
        {
            let c = self.cells[i];
            match c.entity {
                Entity::Protein(p) => {
                    acc.push((c.coord, p));
                },
                _ => {},
            }
            i = i + 1;
        }
        acc
    }
}

/// Linear scan for a coordinate among collected harvest entries.
fn contains_coord_key(acc: &Vec<(Coord, Harvesting)>, co: Coord) -> (r: bool)
    ensures
        r == contains_harvest_coord(acc@, co),
{
    let n = acc.len();
    let mut i: usize = 0;
    while i < n
        invariant
            n == acc@.len(),
            i <= n,
            forall|k: int| 0 <= k < i as int ==> (#[trigger] acc@[k]).0 != co,
        decreases n - i,
    {
        if acc[i].0 == co {
            return true;
        }
        i = i + 1;
    }
    false
}

} // verus!

verus! {

impl State {
    /// The empty coordinates of row `y` among columns `0..n`.
    pub open spec fn empty_row_upto(self, y: int, n: int) -> Seq<Coord>
        decreases n,
    {
        if n <= 0 {
            Seq::empty()
        } else {
            let prev = self.empty_row_upto(y, n - 1);
            let co = Coord { x: (n - 1) as u8, y: y as u8 };
            if self.spec_entity_at(co) is None {
                prev.push(co)
            } else {
                prev
            }
        }
    }

    /// The empty coordinates of rows `0..ny`, row by row.
    pub open spec fn empties_upto(self, ny: int) -> Seq<Coord>
        decreases ny,
    {
        if ny <= 0 {
            Seq::empty()
        } else {
            self.empties_upto(ny - 1) + self.empty_row_upto(
                ny - 1,
                self.dimension.width as int,
            )
        }
    }

    /// Every on-board coordinate that holds nothing, in row-major order.
    pub open spec fn spec_empties(self) -> Seq<Coord> {
        self.empties_upto(self.dimension.height as int)
    }

    /// The empty cells of the board, in row-major order.
    pub fn empty_cell(&self) -> (r: Vec<Coord>)
        requires
            self.wf(),
        ensures
            r@ == self.spec_empties(),
    {
        let h = self.dimension.height;
        let w = self.dimension.width;
        let mut acc: Vec<Coord> = Vec::new();
        let mut y: u8 = 0;
        while y < h
            invariant
                y <= h,
                acc@ == self.empties_upto(y as int),
                self.wf(),
                h == self.dimension.height,
                w == self.dimension.width,
            decreases h - y,
        {
            let mut x: u8 = 0;
            while x < w
                invariant
                    x <= w,
                    y < h,
                    acc@ == self.empties_upto(y as int) + self.empty_row_upto(y as int, x as int),
                    self.wf(),
                    h == self.dimension.height,
                    w == self.dimension.width,
                decreases w - x,
            {
                let co = Coord { x, y };
                match self.get_by_coord(co) {
                    Some(cell) => {
                        if matches!(cell.entity, Entity::Void) {
                            acc.push(co);
                            proof {
                                assert(acc@ =~= self.empties_upto(y as int) + self.empty_row_upto(
                                    y as int,
                                    x as int + 1,
                                ));
                            }
                        } else {
                            proof {
                                assert(acc@ =~= self.empties_upto(y as int) + self.empty_row_upto(
                                    y as int,
                                    x as int + 1,
                                ));
                            }
                        }
                    },
                    None => {
                        proof {
                            assert(self.dimension.spec_contains(co));
                        }
                    },
                }
                x = x + 1;
            }
            proof {
                assert(acc@ =~= self.empties_upto(y as int + 1));
            }
            y = y + 1;
        }
        acc
    }

    /// The organ records of the organism rooted at `root_id`, over the first
    /// `n` cells.
    pub open spec fn orgs_of_root_upto(self, root_id: Id, n: int) -> Seq<OrgWithCoord>
        decreases n,
    {
        if n <= 0 {
            Seq::empty()
        } else {
            let prev = self.orgs_of_root_upto(root_id, n - 1);
            match organe_of(self.cells@[n - 1]) {
                Some(o) => if o.root_id == root_id {
                    prev.push(org_record(self.cells@[n - 1]))
                } else {
                    prev
                },
                None => prev,
            }
        }
    }

    pub open spec fn spec_orgs_of_root(self, root_id: Id) -> Seq<OrgWithCoord> {
        self.orgs_of_root_upto(root_id, self.cells@.len() as int)
    }

    /// Every organ of the organism rooted at `root_id`, in board order.
    pub fn organes_by_root(&self, root_id: Id) -> (r: Vec<OrgWithCoord>)
        ensures
            r@ == self.spec_orgs_of_root(root_id),
    {
        let n = self.cells.len();
        let mut acc: Vec<OrgWithCoord> = Vec::new();
        let mut i: usize = 0;
        while i < n
            invariant
                n == self.cells@.len(),
                i <= n,
                acc@ == self.orgs_of_root_upto(root_id, i as int),
            decreases n - i,
        {
            let c = self.cells[i];
            match c.entity {
                Entity::Organe(o) => {
                    if o.root_id == root_id {
                        acc.push(
                            OrgWithCoord {
                                coord: c.coord,
                                id: o.id,
                                parent_id: o.parent_id,
                                root_id: o.root_id,
                                org_type: o.organe_type,
                            },
                        );
                    }
                },
                _ => {},
            }
            i = i + 1;
        }
        acc
    }

    /// How many organ cells of `owner` stand among the first `n` cells.
    pub open spec fn count_orgs_upto(self, owner: Owner, n: int) -> int
        decreases n,
    {
        if n <= 0 {
            0
        } else {
            self.count_orgs_upto(owner, n - 1) + match organe_of(self.cells@[n - 1]) {
                Some(o) => if o.owner == owner {
                    1int
                } else {
                    0int
                },
                None => 0int,
            }
        }
    }

    pub open spec fn spec_nb_organe(self, owner: Owner) -> int {
        self.count_orgs_upto(owner, self.cells@.len() as int)
    }

    /// The number of organs the given owner has on the board.
    pub fn nb_organe(&self, owner: Owner) -> (r: usize)
        ensures
            r as int == self.spec_nb_organe(owner),
    {
        let n = self.cells.len();
        let mut acc: usize = 0;
        let mut i: usize = 0;
        while i < n
            invariant
                n == self.cells@.len(),
                i <= n,
                acc as int == self.count_orgs_upto(owner, i as int),
                acc <= i,
            decreases n - i,
        {
            match self.cells[i].entity {
                Entity::Organe(o) => {
                    if o.owner == owner {
                        acc = acc + 1;
                    }
                },
                _ => {},
            }
            i = i + 1;
        }
        acc
    }

    /// The enemy organs of the first `n` cells, as identifier/coordinate
    /// pairs.
    pub open spec fn enemy_locs_upto(self, n: int) -> Seq<(Id, Coord)>
        decreases n,
    {
        if n <= 0 {
            Seq::empty()
        } else {
            let prev = self.enemy_locs_upto(n - 1);
            match organe_of(self.cells@[n - 1]) {
                Some(o) => if o.owner == Owner::Ennemy {
                    prev.push((o.id, self.cells@[n - 1].coord))
                } else {
                    prev
                },
                None => prev,
            }
        }
    }

    pub open spec fn spec_enemy_locs(self) -> Seq<(Id, Coord)> {
        self.enemy_locs_upto(self.cells@.len() as int)
    }

    /// Where every known enemy organ stands, keyed by its identifier.
    pub fn organe_ennemy_location(&self) -> (r: Vec<(Id, Coord)>)
        ensures
            r@ == self.spec_enemy_locs(),
    {
        let n = self.cells.len();
        let mut acc: Vec<(Id, Coord)> = Vec::new();
        let mut i: usize = 0;
        while i < n
            invariant
                n == self.cells@.len(),
                i <= n,
                acc@ == self.enemy_locs_upto(i as int),
            decreases n - i,
        {
            let c = self.cells[i];
            match c.entity {
                Entity::Organe(o) => {
                    if matches!(o.owner, Owner::Ennemy) {
                        acc.push((o.id, c.coord));
                    }
                },
                _ => {},
            }
            i = i + 1;
        }
        acc
    }

    /// The children of `parent` among the first `n` cells: organs that name
    /// it as parent without being their own parent.
    pub open spec fn childs_upto(self, parent: Id, n: int) -> Seq<Id>
        decreases n,
    {
        if n <= 0 {
            Seq::empty()
        } else {
            let prev = self.childs_upto(parent, n - 1);
            match organe_of(self.cells@[n - 1]) {
                Some(o) => if o.parent_id == parent && o.id != o.parent_id {
                    prev.push(o.id)
                } else {
                    prev
                },
                None => prev,
            }
        }
    }

    pub open spec fn spec_childs_of(self, parent: Id) -> Seq<Id> {
        self.childs_upto(parent, self.cells@.len() as int)
    }

    /// The direct children of the organ `parent` in the parent→children
    /// adjacency derived from the board.
    pub fn childs_of(&self, parent: Id) -> (r: Vec<Id>)
        ensures
            r@ == self.spec_childs_of(parent),
    {
        let n = self.cells.len();
        let mut acc: Vec<Id> = Vec::new();
        let mut i: usize = 0;
        while i < n
            invariant
                n == self.cells@.len(),
                i <= n,
                acc@ == self.childs_upto(parent, i as int),
            decreases n - i,
        {
            match self.cells[i].entity {
                Entity::Organe(o) => {
                    if o.parent_id == parent && !(o.id == o.parent_id) {
                        acc.push(o.id);
                    }
                },
                _ => {},
            }
            i = i + 1;
        }
        acc
    }
}

} // verus!

verus! {

/// What the constructor demands of a parsed cell list: all cells on the
/// board, none the explicit `Void` marker, coordinates and organ identifiers
/// pairwise distinct, identifiers tagged with their organ's owner, and every
/// non-root organ numbered after its parent.
pub open spec fn input_cells_ok(dimension: Dimension, cells: Seq<Cell>) -> bool {
    &&& forall|i: int|
        0 <= i < cells.len() ==> {
            &&& dimension.spec_contains((#[trigger] cells[i]).coord)
            &&& !(cells[i].entity is Void)
            &&& match cells[i].entity {
                Entity::Organe(o) => {
                    &&& o.id.owner == o.owner
                    &&& o.parent_id.owner == o.owner
                    &&& o.root_id.owner == o.owner
                    &&& (o.id != o.parent_id ==> o.parent_id.id < o.id.id)
                },
                _ => true,
            }
        }
    &&& forall|i: int, j: int|
        0 <= i < j < cells.len() ==> (#[trigger] cells[i]).coord != (#[trigger] cells[j]).coord
    &&& forall|i: int, j: int|
        0 <= i < j < cells.len() && organe_of(#[trigger] cells[i]) is Some && organe_of(
            #[trigger] cells[j],
        ) is Some ==> organe_of(cells[i])->0.id != organe_of(cells[j])->0.id
}

/// The identifier high-water mark of one owner over the first `n` cells,
/// starting from the owner's zero sentinel.
pub open spec fn max_upto(cells: Seq<Cell>, owner: Owner, n: int) -> Id
    decreases n,
{
    if n <= 0 {
        Id { owner, id: 0 }
    } else {
        let prev = max_upto(cells, owner, n - 1);
        match organe_of(cells[n - 1]) {
            Some(o) => if o.owner == owner && o.id.id > prev.id {
                o.id
            } else {
                prev
            },
            None => prev,
        }
    }
}

/// The root organ identifiers of one owner over the first `n` cells, in
/// board order.
pub open spec fn roots_upto(cells: Seq<Cell>, owner: Owner, n: int) -> Seq<Id>
    decreases n,
{
    if n <= 0 {
        Seq::empty()
    } else {
        let prev = roots_upto(cells, owner, n - 1);
        match organe_of(cells[n - 1]) {
            Some(o) => if o.owner == owner && o.organe_type == OrganeType::Root {
                prev.push(o.id)
            } else {
                prev
            },
            None => prev,
        }
    }
}

/// The high-water mark keeps the owner it was asked for, as long as every
/// organ's identifier is tagged with the organ's owner.
proof fn lemma_max_owner(cells: Seq<Cell>, owner: Owner, n: int)
    requires
        n <= cells.len(),
        forall|i: int|
            0 <= i < cells.len() && organe_of(#[trigger] cells[i]) is Some ==> organe_of(
                cells[i],
            )->0.id.owner == organe_of(cells[i])->0.owner,
    ensures
        max_upto(cells, owner, n).owner == owner,
    decreases n,
{
    if n > 0 {
        lemma_max_owner(cells, owner, n - 1);
    }
}

/// The high-water mark never decreases as the scan advances.
proof fn lemma_max_monotone(cells: Seq<Cell>, owner: Owner, m: int, n: int)
    requires
        m <= n,
    ensures
        max_upto(cells, owner, m).id <= max_upto(cells, owner, n).id,
    decreases n - m,
{
    if m < n {
        lemma_max_monotone(cells, owner, m, n - 1);
    }
}

/// Every organ of the owner among the first `n` cells stays at or below the
/// high-water mark over those cells.
proof fn lemma_max_covers(cells: Seq<Cell>, owner: Owner, n: int)
    ensures
        forall|k: int|
            0 <= k < n && organe_of(#[trigger] cells[k]) is Some && organe_of(cells[k])->0.owner
                == owner ==> organe_of(cells[k])->0.id.id <= max_upto(cells, owner, n).id,
    decreases n,
{
    if n > 0 {
        lemma_max_covers(cells, owner, n - 1);
        lemma_max_monotone(cells, owner, n - 1, n);
    }
}

/// Every collected root identifier belongs to a root organ of the owner on
/// one of the first `n` cells, and no identifier is collected twice.
proof fn lemma_roots_ok(cells: Seq<Cell>, owner: Owner, n: int)
    requires
        n <= cells.len(),
        forall|i: int, j: int|
            0 <= i < j < cells.len() && organe_of(#[trigger] cells[i]) is Some && organe_of(
                #[trigger] cells[j],
            ) is Some ==> organe_of(cells[i])->0.id != organe_of(cells[j])->0.id,
    ensures
        forall|e: int| #![trigger roots_upto(cells, owner, n)[e]]
            0 <= e < roots_upto(cells, owner, n).len() ==> exists|k: int|
                0 <= k < n && organe_of(#[trigger] cells[k]) is Some && organe_of(
                    cells[k],
                )->0.owner == owner && organe_of(cells[k])->0.organe_type == OrganeType::Root
                    && organe_of(cells[k])->0.id == roots_upto(cells, owner, n)[e],
        forall|e: int, f: int|
            0 <= e < f < roots_upto(cells, owner, n).len() ==> roots_upto(cells, owner, n)[e]
                != roots_upto(cells, owner, n)[f],
    decreases n,
{
    if n > 0 {
        lemma_roots_ok(cells, owner, n - 1);
        let prev = roots_upto(cells, owner, n - 1);
        let cur = roots_upto(cells, owner, n);
        match organe_of(cells[n - 1]) {
            Some(o) => {
                if o.owner == owner && o.organe_type == OrganeType::Root {
                    assert(forall|e: int|
                        0 <= e < prev.len() ==> cur[e] == prev[e]);
                    assert(cur[cur.len() - 1] == o.id);
                    assert(organe_of(cells[n - 1]) is Some && organe_of(cells[n - 1])->0.owner
                        == owner && organe_of(cells[n - 1])->0.organe_type == OrganeType::Root
                        && organe_of(cells[n - 1])->0.id == o.id);
                    assert forall|e: int, f: int| 0 <= e < f < cur.len() implies cur[e]
                        != cur[f] by {
                        if f == cur.len() - 1 {
                            let k = choose|k: int|
                                0 <= k < n - 1 && organe_of(#[trigger] cells[k]) is Some
                                    && organe_of(cells[k])->0.owner == owner && organe_of(
                                    cells[k],
                                )->0.organe_type == OrganeType::Root && organe_of(cells[k])->0.id
                                    == prev[e];
                            assert(organe_of(cells[k])->0.id != organe_of(cells[n - 1])->0.id);
                        }
                    }
                }
            },
            None => {},
        }
    }
}

/// Copy a list of identifiers.
pub fn copy_ids(v: &Vec<Id>) -> (r: Vec<Id>)
    ensures
        r@ == v@,
{
    let n = v.len();
    let mut acc: Vec<Id> = Vec::new();
    let mut i: usize = 0;
    while i < n
        invariant
            n == v@.len(),
            i <= n,
            acc@ == v@.subrange(0, i as int),
        decreases n - i,
    {
        acc.push(v[i]);
        proof {
            assert(acc@ =~= v@.subrange(0, i as int + 1));
        }
        i = i + 1;
    }
    proof {
        assert(acc@ =~= v@);
    }
    acc
}

/// Is this identifier in the list?
pub fn contains_id(v: &Vec<Id>, id: Id) -> (r: bool)
    ensures
        r == v@.contains(id),
{
    let n = v.len();
    let mut i: usize = 0;
    while i < n
        invariant
            n == v@.len(),
            i <= n,
            forall|k: int| 0 <= k < i as int ==> v@[k] != id,
        decreases n - i,
    {
        if v[i] == id {
            return true;
        }
        i = i + 1;
    }
    false
}

/// The list with every occurrence of `id` taken out, over the first `n`
/// elements.
pub open spec fn remove_id_upto(s: Seq<Id>, id: Id, n: int) -> Seq<Id>
    decreases n,
{
    if n <= 0 {
        Seq::empty()
    } else {
        let prev = remove_id_upto(s, id, n - 1);
        if s[n - 1] == id {
            prev
        } else {
            prev.push(s[n - 1])
        }
    }
}

pub open spec fn spec_remove_id(s: Seq<Id>, id: Id) -> Seq<Id> {
    remove_id_upto(s, id, s.len() as int)
}

/// Removing an identifier keeps every other element, in order, exactly once
/// each when the input had no duplicates.
pub proof fn lemma_remove_id(s: Seq<Id>, id: Id, n: int)
    requires
        0 <= n <= s.len(),
    ensures
        forall|e: int| #![trigger remove_id_upto(s, id, n)[e]]
            0 <= e < remove_id_upto(s, id, n).len() ==> remove_id_upto(s, id, n)[e] != id,
        forall|e: int| #![trigger remove_id_upto(s, id, n)[e]]
            0 <= e < remove_id_upto(s, id, n).len() ==> exists|k: int|
                0 <= k < n && s[k] == remove_id_upto(s, id, n)[e],
        forall|k: int| 0 <= k < n && s[k] != id ==> remove_id_upto(s, id, n).contains(#[trigger] s[k]),
        remove_id_upto(s, id, n).len() <= n,
        (exists|k: int| 0 <= k < n && s[k] == id) ==> remove_id_upto(s, id, n).len() < n,
        (forall|i: int, j: int| 0 <= i < j < n ==> s[i] != s[j]) ==> forall|e: int, f: int|
            0 <= e < f < remove_id_upto(s, id, n).len() ==> remove_id_upto(s, id, n)[e]
                != remove_id_upto(s, id, n)[f],
    decreases n,
{
    if n > 0 {
        lemma_remove_id(s, id, n - 1);
        let prev = remove_id_upto(s, id, n - 1);
        let cur = remove_id_upto(s, id, n);
        assert forall|k: int| 0 <= k < n && s[k] != id implies cur.contains(#[trigger] s[k]) by {
            if k < n - 1 {
                let e = choose|e: int| 0 <= e < prev.len() && prev[e] == s[k];
                assert(cur[e] == s[k]);
            } else {
                assert(cur[cur.len() - 1] == s[n - 1]);
            }
        }
        if exists|k: int| 0 <= k < n && s[k] == id {
            let k = choose|k: int| 0 <= k < n && s[k] == id;
            if s[n - 1] == id {
                assert(cur.len() < n);
            } else {
                assert(0 <= k < n - 1);
                assert(prev.len() < n - 1);
            }
        }
        if (forall|i: int, j: int| 0 <= i < j < n ==> s[i] != s[j]) && s[n - 1] != id {
            assert forall|e: int, f: int| 0 <= e < f < cur.len() implies cur[e] != cur[f] by {
                if f == cur.len() - 1 {
                    let k = choose|k: int| 0 <= k < n - 1 && s[k] == prev[e];
                    assert(s[k] != s[n - 1]);
                }
            }
        }
    }
}

/// The list with every occurrence of `id` taken out.
pub fn remove_id(v: &Vec<Id>, id: Id) -> (r: Vec<Id>)
    ensures
        r@ == spec_remove_id(v@, id),
{
    let n = v.len();
    let mut acc: Vec<Id> = Vec::new();
    let mut i: usize = 0;
    while i < n
        invariant
            n == v@.len(),
            i <= n,
            acc@ == remove_id_upto(v@, id, i as int),
        decreases n - i,
    {
        if !(v[i] == id) {
            acc.push(v[i]);
        }
        i = i + 1;
    }
    acc
}

impl State {
    /// Build the initial snapshot of a turn from the parsed protocol values:
    /// the board cells, both resource vectors, and the number of decisions
    /// owed. Root sets and identifier high-water marks are derived from the
    /// cells; every root starts the turn owing one decision.
    pub fn new(
        dimension: Dimension,
        ressources_ami: Ressource,
        ressources_ennemy: Ressource,
        action_count: ActionCount,
        cells: Vec<Cell>,
    ) -> (r: State)
        requires
            input_cells_ok(dimension, cells@),
        ensures
            r.wf(),
            r.dimension == dimension,
            r.cells@ == cells@,
            r.ressources.friend == ressources_ami,
            r.ressources.ennemy == ressources_ennemy,
            r.action_count == action_count,
            r.attacks@ == Seq::<Attacking>::empty(),
            r.plan.view_turns() == seq![Seq::<Decision>::empty()],
            r.root_set.spec_get(Owner::Me)@ == roots_upto(cells@, Owner::Me, cells@.len() as int),
            r.root_set.spec_get(Owner::Ennemy)@ == roots_upto(
                cells@,
                Owner::Ennemy,
                cells@.len() as int,
            ),
            r.action_set.spec_get(Owner::Me)@ == r.root_set.spec_get(Owner::Me)@,
            r.action_set.spec_get(Owner::Ennemy)@ == r.root_set.spec_get(Owner::Ennemy)@,
            r.max_id.spec_get(Owner::Me) == max_upto(cells@, Owner::Me, cells@.len() as int),
            r.max_id.spec_get(Owner::Ennemy) == max_upto(
                cells@,
                Owner::Ennemy,
                cells@.len() as int,
            ),
    {
        let n = cells.len();
        let mut max_me = Id::zero(Owner::Me);
        let mut max_en = Id::zero(Owner::Ennemy);
        let mut roots_me: Vec<Id> = Vec::new();
        let mut roots_en: Vec<Id> = Vec::new();
        let mut i: usize = 0;
        while i < n
            invariant
                n == cells@.len(),
                i <= n,
                max_me == max_upto(cells@, Owner::Me, i as int),
                max_en == max_upto(cells@, Owner::Ennemy, i as int),
                roots_me@ == roots_upto(cells@, Owner::Me, i as int),
                roots_en@ == roots_upto(cells@, Owner::Ennemy, i as int),
                input_cells_ok(dimension, cells@),
            decreases n - i,
        {
            match cells[i].entity {
                Entity::Organe(o) => {
                    match o.owner {
                        Owner::Me => {
                            if o.id.get_num() > max_me.get_num() {
                                max_me = o.id;
                            }
                            if matches!(o.organe_type, OrganeType::Root) {
                                roots_me.push(o.id);
                            }
                        },
                        Owner::Ennemy => {
                            if o.id.get_num() > max_en.get_num() {
                                max_en = o.id;
                            }
                            if matches!(o.organe_type, OrganeType::Root) {
                                roots_en.push(o.id);
                            }
                        },
                    }
                },
                _ => {},
            }
            i = i + 1;
        }
        let action_me = copy_ids(&roots_me);
        let action_en = copy_ids(&roots_en);
        let r = State {
            dimension,
            cells,
            ressources: OwnerMap::new(ressources_ami, ressources_ennemy),
            action_set: OwnerMap::new(action_me, action_en),
            root_set: OwnerMap::new(roots_me, roots_en),
            max_id: OwnerMap::new(max_me, max_en),
            attacks: Vec::new(),
            plan: Planification::default(),
            action_count,
        };
        proof {
            let cs = r.cells@;
            let ni = cs.len() as int;
            assert forall|i: int|
                0 <= i < cs.len() && organe_of(#[trigger] cs[i]) is Some implies organe_of(
                cs[i],
            )->0.id.owner == organe_of(cs[i])->0.owner by {
                match cs[i].entity {
                    Entity::Organe(o) => {},
                    _ => {},
                }
            }
            lemma_max_owner(cs, Owner::Me, ni);
            lemma_max_owner(cs, Owner::Ennemy, ni);
            lemma_max_covers(cs, Owner::Me, ni);
            lemma_max_covers(cs, Owner::Ennemy, ni);
            lemma_roots_ok(cs, Owner::Me, ni);
            lemma_roots_ok(cs, Owner::Ennemy, ni);
            assert forall|k: int| 0 <= k < cs.len() implies r.cell_ok(#[trigger] cs[k]) by {
                match cs[k].entity {
                    Entity::Organe(o) => {
                        assert(organe_of(cs[k]) is Some);
                    },
                    _ => {},
                }
            }
            assert(ids_ok(r.root_set.spec_get(Owner::Me)@, Owner::Me, max_me)) by {
                let rs = roots_upto(cs, Owner::Me, ni);
                assert forall|e: int| 0 <= e < rs.len() implies (#[trigger] rs[e]).owner
                    == Owner::Me && rs[e].id <= max_me.id by {
                    let k = choose|k: int|
                        0 <= k < ni && organe_of(#[trigger] cs[k]) is Some && organe_of(
                            cs[k],
                        )->0.owner == Owner::Me && organe_of(cs[k])->0.organe_type
                            == OrganeType::Root && organe_of(cs[k])->0.id == rs[e];
                }
            }
            assert(ids_ok(r.root_set.spec_get(Owner::Ennemy)@, Owner::Ennemy, max_en)) by {
                let rs = roots_upto(cs, Owner::Ennemy, ni);
                assert forall|e: int| 0 <= e < rs.len() implies (#[trigger] rs[e]).owner
                    == Owner::Ennemy && rs[e].id <= max_en.id by {
                    let k = choose|k: int|
                        0 <= k < ni && organe_of(#[trigger] cs[k]) is Some && organe_of(
                            cs[k],
                        )->0.owner == Owner::Ennemy && organe_of(cs[k])->0.organe_type
                            == OrganeType::Root && organe_of(cs[k])->0.id == rs[e];
                }
            }
            assert(ids_ok(r.action_set.spec_get(Owner::Me)@, Owner::Me, max_me));
            assert(ids_ok(r.action_set.spec_get(Owner::Ennemy)@, Owner::Ennemy, max_en));
            assert(r.max_id.spec_get(Owner::Me).owner == Owner::Me);
            assert(r.max_id.spec_get(Owner::Ennemy).owner == Owner::Ennemy);
            assert(r.plan.content@.len() >= 1) by {
                assert(r.plan.view_turns().len() == r.plan.content@.len());
            }
            assert(forall|i: int, j: int|
                0 <= i < j < r.cells@.len() ==> (#[trigger] r.cells@[i]).coord != (
                #[trigger] r.cells@[j]).coord);
            assert(forall|i: int, j: int|
                0 <= i < j < r.cells@.len() && organe_of(#[trigger] r.cells@[i]) is Some
                    && organe_of(#[trigger] r.cells@[j]) is Some ==> organe_of(
                    r.cells@[i],
                )->0.id != organe_of(r.cells@[j])->0.id);
        }
        r
    }
}

} // verus!

verus! {

/// Copy a list of cells.
pub fn copy_cells(v: &Vec<Cell>) -> (r: Vec<Cell>)
    ensures
        r@ == v@,
{
    let n = v.len();
    let mut acc: Vec<Cell> = Vec::new();
    let mut i: usize = 0;
    while i < n
        invariant
            n == v@.len(),
            i <= n,
            acc@ == v@.subrange(0, i as int),
        decreases n - i,
    {
        acc.push(v[i]);
        proof {
            assert(acc@ =~= v@.subrange(0, i as int + 1));
        }
        i = i + 1;
    }
    proof {
        assert(acc@ =~= v@);
    }
    acc
}

/// Copy a list of recorded attacks.
pub fn copy_attacks(v: &Vec<Attacking>) -> (r: Vec<Attacking>)
    ensures
        r@ == v@,
{
    let n = v.len();
    let mut acc: Vec<Attacking> = Vec::new();
    let mut i: usize = 0;
    while i < n
        invariant
            n == v@.len(),
            i <= n,
            acc@ == v@.subrange(0, i as int),
        decreases n - i,
    {
        acc.push(v[i]);
        proof {
            assert(acc@ =~= v@.subrange(0, i as int + 1));
        }
        i = i + 1;
    }
    proof {
        assert(acc@ =~= v@);
    }
    acc
}

} // verus!

verus! {

/// The first `n` cells with every cell at `co` taken out.
pub open spec fn cells_remove_upto(cells: Seq<Cell>, co: Coord, n: int) -> Seq<Cell>
    decreases n,
{
    if n <= 0 {
        Seq::empty()
    } else {
        let prev = cells_remove_upto(cells, co, n - 1);
        if cells[n - 1].coord == co {
            prev
        } else {
            prev.push(cells[n - 1])
        }
    }
}

pub open spec fn spec_cells_remove(cells: Seq<Cell>, co: Coord) -> Seq<Cell> {
    cells_remove_upto(cells, co, cells.len() as int)
}

/// Taking the cell at a coordinate out keeps every other cell, in order;
/// distinctness of coordinates and of organ identifiers carries over.
pub proof fn lemma_cells_remove(cells: Seq<Cell>, co: Coord, n: int)
    requires
        0 <= n <= cells.len(),
    ensures
        forall|e: int| #![trigger cells_remove_upto(cells, co, n)[e]]
            0 <= e < cells_remove_upto(cells, co, n).len() ==> cells_remove_upto(
                cells,
                co,
                n,
            )[e].coord != co,
        forall|e: int| #![trigger cells_remove_upto(cells, co, n)[e]]
            0 <= e < cells_remove_upto(cells, co, n).len() ==> exists|k: int|
                0 <= k < n && cells[k] == cells_remove_upto(cells, co, n)[e],
        forall|k: int|
            0 <= k < n && cells[k].coord != co ==> cells_remove_upto(cells, co, n).contains(
                #[trigger] cells[k],
            ),
        cells_remove_upto(cells, co, n).len() <= n,
        (forall|i: int, j: int|
            0 <= i < j < n ==> (#[trigger] cells[i]).coord != (#[trigger] cells[j]).coord)
            ==> forall|e: int, f: int|
            0 <= e < f < cells_remove_upto(cells, co, n).len() ==> (
            #[trigger] cells_remove_upto(cells, co, n)[e]).coord != (
            #[trigger] cells_remove_upto(cells, co, n)[f]).coord,
        ((forall|i: int, j: int|
            0 <= i < j < n ==> (#[trigger] cells[i]).coord != (#[trigger] cells[j]).coord)
            && (forall|i: int, j: int|
            0 <= i < j < n && organe_of(#[trigger] cells[i]) is Some && organe_of(
                #[trigger] cells[j],
            ) is Some ==> organe_of(cells[i])->0.id != organe_of(cells[j])->0.id)) ==> forall|
            e: int,
            f: int,
        |
            0 <= e < f < cells_remove_upto(cells, co, n).len() && organe_of(
                #[trigger] cells_remove_upto(cells, co, n)[e],
            ) is Some && organe_of(#[trigger] cells_remove_upto(cells, co, n)[f]) is Some
                ==> organe_of(cells_remove_upto(cells, co, n)[e])->0.id != organe_of(
                cells_remove_upto(cells, co, n)[f],
            )->0.id,
    decreases n,
{
    if n > 0 {
        lemma_cells_remove(cells, co, n - 1);
        let prev = cells_remove_upto(cells, co, n - 1);
        let cur = cells_remove_upto(cells, co, n);
        assert forall|k: int|
            0 <= k < n && cells[k].coord != co implies cur.contains(#[trigger] cells[k]) by {
            if k < n - 1 {
                let e = choose|e: int| 0 <= e < prev.len() && prev[e] == cells[k];
                assert(cur[e] == cells[k]);
            } else {
                assert(cur[cur.len() - 1] == cells[n - 1]);
            }
        }
        if (forall|i: int, j: int|
            0 <= i < j < n ==> (#[trigger] cells[i]).coord != (#[trigger] cells[j]).coord)
            && cells[n - 1].coord != co {
            assert forall|e: int, f: int| 0 <= e < f < cur.len() implies (
            #[trigger] cur[e]).coord != (#[trigger] cur[f]).coord by {
                if f == cur.len() - 1 {
                    let k = choose|k: int| 0 <= k < n - 1 && cells[k] == prev[e];
                    assert(cells[k].coord != cells[n - 1].coord);
                }
            }
        }
        if (forall|i: int, j: int|
            0 <= i < j < n ==> (#[trigger] cells[i]).coord != (#[trigger] cells[j]).coord)
            && (forall|i: int, j: int|
            0 <= i < j < n && organe_of(#[trigger] cells[i]) is Some && organe_of(
                #[trigger] cells[j],
            ) is Some ==> organe_of(cells[i])->0.id != organe_of(cells[j])->0.id) && cells[n
            - 1].coord != co {
            assert forall|e: int, f: int|
                0 <= e < f < cur.len() && organe_of(#[trigger] cur[e]) is Some && organe_of(
                    #[trigger] cur[f],
                ) is Some implies organe_of(cur[e])->0.id != organe_of(cur[f])->0.id by {
                if f == cur.len() - 1 {
                    let k = choose|k: int| 0 <= k < n - 1 && cells[k] == prev[e];
                    if organe_of(cells[k]) is Some && organe_of(cells[n - 1]) is Some {
                        assert(organe_of(cells[k])->0.id != organe_of(cells[n - 1])->0.id);
                    }
                }
            }
        }
    }
}

/// The cell list with every cell at `co` taken out.
pub fn cells_remove(v: &Vec<Cell>, co: Coord) -> (r: Vec<Cell>)
    ensures
        r@ == spec_cells_remove(v@, co),
{
    let n = v.len();
    let mut acc: Vec<Cell> = Vec::new();
    let mut i: usize = 0;
    while i < n
        invariant
            n == v@.len(),
            i <= n,
            acc@ == cells_remove_upto(v@, co, i as int),
        decreases n - i,
    {
        if !(v[i].coord == co) {
            acc.push(v[i]);
        }
        i = i + 1;
    }
    acc
}

} // verus!

verus! {

impl State {
    /// An exact copy of the snapshot: every view of the copy equals the
    /// original's, and a well-formed snapshot copies to a well-formed one.
    pub fn duplicate(&self) -> (r: State)
        ensures
            r.dimension == self.dimension,
            r.cells@ == self.cells@,
            r.ressources == self.ressources,
            r.action_set.spec_get(Owner::Me)@ == self.action_set.spec_get(Owner::Me)@,
            r.action_set.spec_get(Owner::Ennemy)@ == self.action_set.spec_get(Owner::Ennemy)@,
            r.root_set.spec_get(Owner::Me)@ == self.root_set.spec_get(Owner::Me)@,
            r.root_set.spec_get(Owner::Ennemy)@ == self.root_set.spec_get(Owner::Ennemy)@,
            r.max_id == self.max_id,
            r.attacks@ == self.attacks@,
            r.plan.view_turns() == self.plan.view_turns(),
            r.plan.content@.len() == self.plan.content@.len(),
            r.action_count == self.action_count,
            self.wf() ==> r.wf(),
    {
        let r = State {
            dimension: self.dimension,
            cells: copy_cells(&self.cells),
            ressources: self.ressources,
            action_set: OwnerMap::new(
                copy_ids(self.action_set.get(Owner::Me)),
                copy_ids(self.action_set.get(Owner::Ennemy)),
            ),
            root_set: OwnerMap::new(
                copy_ids(self.root_set.get(Owner::Me)),
                copy_ids(self.root_set.get(Owner::Ennemy)),
            ),
            max_id: self.max_id,
            attacks: copy_attacks(&self.attacks),
            plan: self.plan.duplicate(),
            action_count: self.action_count,
        };
        proof {
            if self.wf() {
                assert forall|k: int| 0 <= k < r.cells@.len() implies r.cell_ok(
                    #[trigger] r.cells@[k],
                ) by {
                    assert(self.cell_ok(self.cells@[k]));
                }
            }
        }
        r
    }
}

/// Every resource count of every owner of any snapshot is non-negative, and
/// stays so across every transition: a debit that would go below zero is
/// refused by the appliers, never clamped.
pub proof fn lemma_resource_counts_nonnegative(s: State)
    ensures
        forall|o: Owner, p: Protein| s.ressources.spec_get(o).spec_get(p) >= 0,
{
}

} // verus!

verus! {

impl State {
    /// Every coordinate where a new organ may be placed, with the protein
    /// sitting there if any: the protein cells first, then the empty cells
    /// in row-major order.
    pub fn fertile_cell(&self) -> (r: Vec<crate::molecule::Fertile>)
        requires
            self.wf(),
        ensures
            r@ == self.spec_proteins().map_values(
                |pc: (Coord, Protein)| crate::molecule::Fertile { coord: pc.0, protein: Some(pc.1) },
            ) + self.spec_empties().map_values(
                |co: Coord| crate::molecule::Fertile { coord: co, protein: None::<Protein> },
            ),
    {
        let prots = self.protein();
        let empties = self.empty_cell();
        let mut acc: Vec<crate::molecule::Fertile> = Vec::new();
        let np = prots.len();
        let mut i: usize = 0;
        while i < np
            invariant
                np == prots@.len(),
                i <= np,
                acc@ == prots@.subrange(0, i as int).map_values(
                    |pc: (Coord, Protein)| crate::molecule::Fertile {
                        coord: pc.0,
                        protein: Some(pc.1),
                    },
                ),
            decreases np - i,
        {
            acc.push(crate::molecule::Fertile { coord: prots[i].0, protein: Some(prots[i].1) });
            proof {
                assert(acc@ =~= prots@.subrange(0, i as int + 1).map_values(
                    |pc: (Coord, Protein)| crate::molecule::Fertile {
                        coord: pc.0,
                        protein: Some(pc.1),
                    },
                ));
            }
            i = i + 1;
        }
        proof {
            assert(prots@.subrange(0, np as int) =~= prots@);
        }
        let ghost first = acc@;
        let ne = empties.len();
        let mut j: usize = 0;
        while j < ne
            invariant
                ne == empties@.len(),
                j <= ne,
                acc@ == first + empties@.subrange(0, j as int).map_values(
                    |co: Coord| crate::molecule::Fertile { coord: co, protein: None::<Protein> },
                ),
            decreases ne - j,
        {
            acc.push(crate::molecule::Fertile { coord: empties[j], protein: None });
            proof {
                assert(acc@ =~= first + empties@.subrange(0, j as int + 1).map_values(
                    |co: Coord| crate::molecule::Fertile { coord: co, protein: None::<Protein> },
                ));
            }
            j = j + 1;
        }
        proof {
            assert(empties@.subrange(0, ne as int) =~= empties@);
            assert(acc@ =~= self.spec_proteins().map_values(
                |pc: (Coord, Protein)| crate::molecule::Fertile { coord: pc.0, protein: Some(pc.1) },
            ) + self.spec_empties().map_values(
                |co: Coord| crate::molecule::Fertile { coord: co, protein: None::<Protein> },
            ));
        }
        acc
    }
}

} // verus!

verus! {

/// The harvesting set holds exactly the harvest relations the cells show:
/// every entry is the harvest entry of some cell, every cell's harvest
/// entry is represented at its protein coordinate, and no protein
/// coordinate is claimed twice.
pub proof fn lemma_harvests_characterized(s: State)
    ensures
        forall|e: int| #![trigger s.spec_harvests()[e]]
            0 <= e < s.spec_harvests().len() ==> exists|k: int|
                0 <= k < s.cells@.len() && s.spec_harvest_entry(#[trigger] s.cells@[k]) == Some(
                    s.spec_harvests()[e],
                ),
        forall|k: int|
            0 <= k < s.cells@.len() && s.spec_harvest_entry(#[trigger] s.cells@[k]) is Some
                ==> contains_harvest_coord(
                s.spec_harvests(),
                (s.spec_harvest_entry(s.cells@[k])->0).0,
            ),
        forall|e: int, f: int|
            0 <= e < f < s.spec_harvests().len() ==> (#[trigger] s.spec_harvests()[e]).0 != (
            #[trigger] s.spec_harvests()[f]).0,
{
    lemma_harvest_upto_characterized(s, s.cells@.len() as int);
}

proof fn lemma_harvest_upto_characterized(s: State, n: int)
    requires
        0 <= n <= s.cells@.len(),
    ensures
        forall|e: int| #![trigger s.harvest_upto(n)[e]]
            0 <= e < s.harvest_upto(n).len() ==> exists|k: int|
                0 <= k < n && s.spec_harvest_entry(#[trigger] s.cells@[k]) == Some(
                    s.harvest_upto(n)[e],
                ),
        forall|k: int|
            0 <= k < n && s.spec_harvest_entry(#[trigger] s.cells@[k]) is Some
                ==> contains_harvest_coord(
                s.harvest_upto(n),
                (s.spec_harvest_entry(s.cells@[k])->0).0,
            ),
        forall|e: int, f: int|
            0 <= e < f < s.harvest_upto(n).len() ==> (#[trigger] s.harvest_upto(n)[e]).0 != (
            #[trigger] s.harvest_upto(n)[f]).0,
    decreases n,
{
    if n > 0 {
        lemma_harvest_upto_characterized(s, n - 1);
        let prev = s.harvest_upto(n - 1);
        let cur = s.harvest_upto(n);
        assert forall|k: int|
            0 <= k < n && s.spec_harvest_entry(#[trigger] s.cells@[k]) is Some
                implies contains_harvest_coord(
            cur,
            (s.spec_harvest_entry(s.cells@[k])->0).0,
        ) by {
            let co = (s.spec_harvest_entry(s.cells@[k])->0).0;
            if k < n - 1 {
                let e = choose|e: int| 0 <= e < prev.len() && (#[trigger] prev[e]).0 == co;
                assert(cur[e].0 == co);
            } else {
                if contains_harvest_coord(prev, co) {
                    let e = choose|e: int| 0 <= e < prev.len() && (#[trigger] prev[e]).0 == co;
                    assert(cur[e].0 == co);
                } else {
                    assert(cur[cur.len() - 1].0 == co);
                }
            }
        }
        if cur.len() == prev.len() + 1 {
            assert forall|e: int, f: int| 0 <= e < f < cur.len() implies (#[trigger] cur[e]).0
                != (#[trigger] cur[f]).0 by {
                if f == cur.len() - 1 {
                    assert(cur[e] == prev[e]);
                    if prev[e].0 == cur[f].0 {
                        assert(contains_harvest_coord(prev, cur[f].0));
                    }
                }
            }
        }
    }
}

/// The empty-cell set holds exactly the on-board coordinates without a
/// recorded cell, each once.
pub proof fn lemma_empties_characterized(s: State)
    ensures
        forall|co: Coord| s.spec_empties().contains(co) <==> s.spec_is_empty_at(co),
        forall|e: int, f: int|
            0 <= e < f < s.spec_empties().len() ==> s.spec_empties()[e] != s.spec_empties()[f],
{
    assert forall|co: Coord| s.spec_empties().contains(co) <==> s.spec_is_empty_at(co) by {
        lemma_empties_upto_membership(s, s.dimension.height as int, co);
    }
    lemma_empties_upto_distinct(s, s.dimension.height as int);
}

proof fn lemma_empty_row_membership(s: State, y: int, n: int, co: Coord)
    requires
        0 <= y <= 255,
        0 <= n <= 256,
    ensures
        s.empty_row_upto(y, n).contains(co) <==> (co.y == y && co.x < n && s.spec_entity_at(
            co,
        ) is None),
    decreases n,
{
    if n > 0 {
        lemma_empty_row_membership(s, y, n - 1, co);
        let prev = s.empty_row_upto(y, n - 1);
        let cur = s.empty_row_upto(y, n);
        let c = Coord { x: (n - 1) as u8, y: y as u8 };
        if s.spec_entity_at(c) is None {
            assert(cur == prev.push(c));
            if prev.contains(co) {
                let k = choose|k: int| 0 <= k < prev.len() && prev[k] == co;
                assert(cur[k] == co);
            }
            if co == c {
                assert(cur[cur.len() - 1] == co);
            }
            if cur.contains(co) {
                let k = choose|k: int| 0 <= k < cur.len() && cur[k] == co;
                if k < prev.len() {
                    assert(prev[k] == co);
                }
            }
        }
    }
}

proof fn lemma_empties_upto_membership(s: State, ny: int, co: Coord)
    requires
        0 <= ny <= 256,
    ensures
        s.empties_upto(ny).contains(co) <==> (co.y < ny && co.x < s.dimension.width
            && s.spec_entity_at(co) is None),
    decreases ny,
{
    if ny > 0 {
        lemma_empties_upto_membership(s, ny - 1, co);
        lemma_empty_row_membership(s, ny - 1, s.dimension.width as int, co);
        let prev = s.empties_upto(ny - 1);
        let row = s.empty_row_upto(ny - 1, s.dimension.width as int);
        let cur = s.empties_upto(ny);
        assert(cur == prev + row);
        if prev.contains(co) {
            let k = choose|k: int| 0 <= k < prev.len() && prev[k] == co;
            assert(cur[k] == co);
        }
        if row.contains(co) {
            let k = choose|k: int| 0 <= k < row.len() && row[k] == co;
            assert(cur[prev.len() + k] == co);
        }
        if cur.contains(co) {
            let k = choose|k: int| 0 <= k < cur.len() && cur[k] == co;
            if k < prev.len() {
                assert(prev[k] == co);
            } else {
                assert(row[k - prev.len()] == co);
            }
        }
    }
}

proof fn lemma_empties_upto_distinct(s: State, ny: int)
    requires
        0 <= ny <= 256,
    ensures
        forall|e: int, f: int|
            0 <= e < f < s.empties_upto(ny).len() ==> s.empties_upto(ny)[e] != s.empties_upto(
                ny,
            )[f],
        forall|e: int| #![trigger s.empties_upto(ny)[e]]
            0 <= e < s.empties_upto(ny).len() ==> s.empties_upto(ny)[e].y < ny,
    decreases ny,
{
    if ny > 0 {
        lemma_empties_upto_distinct(s, ny - 1);
        lemma_empty_row_distinct(s, ny - 1, s.dimension.width as int);
        let prev = s.empties_upto(ny - 1);
        let row = s.empty_row_upto(ny - 1, s.dimension.width as int);
        let cur = s.empties_upto(ny);
        assert(cur == prev + row);
        assert forall|e: int, f: int| 0 <= e < f < cur.len() implies cur[e] != cur[f] by {
            if e < prev.len() && f >= prev.len() {
                assert(cur[e] == prev[e]);
                assert(cur[f] == row[f - prev.len()]);
                assert(prev[e].y < ny - 1);
                assert(row[f - prev.len()].y == ny - 1);
            } else if e >= prev.len() {
                assert(cur[e] == row[e - prev.len()]);
                assert(cur[f] == row[f - prev.len()]);
            } else {
                assert(cur[e] == prev[e]);
                assert(cur[f] == prev[f]);
            }
        }
        assert forall|e: int| 0 <= e < cur.len() implies (#[trigger] cur[e]).y < ny by {
            if e < prev.len() {
                assert(cur[e] == prev[e]);
            } else {
                assert(cur[e] == row[e - prev.len()]);
            }
        }
    }
}

proof fn lemma_empty_row_distinct(s: State, y: int, n: int)
    requires
        0 <= y <= 255,
        0 <= n <= 256,
    ensures
        forall|e: int, f: int|
            0 <= e < f < s.empty_row_upto(y, n).len() ==> s.empty_row_upto(y, n)[e]
                != s.empty_row_upto(y, n)[f],
        forall|e: int| #![trigger s.empty_row_upto(y, n)[e]]
            0 <= e < s.empty_row_upto(y, n).len() ==> s.empty_row_upto(y, n)[e].y == y
                && s.empty_row_upto(y, n)[e].x < n,
    decreases n,
{
    if n > 0 {
        lemma_empty_row_distinct(s, y, n - 1);
        let prev = s.empty_row_upto(y, n - 1);
        let cur = s.empty_row_upto(y, n);
        let c = Coord { x: (n - 1) as u8, y: y as u8 };
        if s.spec_entity_at(c) is None {
            assert forall|e: int, f: int| 0 <= e < f < cur.len() implies cur[e] != cur[f] by {
                if f == cur.len() - 1 {
                    assert(cur[e] == prev[e]);
                    assert(prev[e].x < n - 1);
                }
            }
        }
    }
}

} // verus!
