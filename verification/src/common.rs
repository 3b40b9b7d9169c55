//! Scaffolding for assembling initial snapshots: small board setups and a
//! line-organism builder, as used by examples and tests.

use vstd::prelude::*;
use crate::atome::{
    ActionCount, Cell, Coord, Dimension, Direction, Entity, Id, Organe, OrganeType, Owner,
    Ressource,
};
use crate::state::{input_cells_ok, State};

verus! {

/// A board description waiting to be turned into an initial snapshot.
#[derive(Debug)]
pub struct StateBuilder {
    pub dimension: Dimension,
    pub ressources_ami: Ressource,
    pub ressources_ennemy: Ressource,
    pub action_count: ActionCount,
    pub cells: Vec<Cell>,
}

impl StateBuilder {
    /// Assemble the initial snapshot from the described board.
    pub fn build(self) -> (r: State)
        requires
            input_cells_ok(self.dimension, self.cells@),
        ensures
            r.wf(),
            r.dimension == self.dimension,
            r.cells@ == self.cells@,
            r.ressources.friend == self.ressources_ami,
            r.ressources.ennemy == self.ressources_ennemy,
            r.action_count == self.action_count,
    {
        let StateBuilder { dimension, ressources_ami, ressources_ennemy, action_count, cells } =
            self;
        State::new(dimension, ressources_ami, ressources_ennemy, action_count, cells)
    }

    pub fn add_cell(self, cell: Cell) -> (r: Self)
        ensures
            r.cells@ == self.cells@.push(cell),
            r.dimension == self.dimension,
            r.ressources_ami == self.ressources_ami,
            r.ressources_ennemy == self.ressources_ennemy,
            r.action_count == self.action_count,
    {
        let mut cells = self.cells;
        cells.push(cell);
        StateBuilder { cells, ..self }
    }

    pub fn add_cells(self, cell: Vec<Cell>) -> (r: Self)
        ensures
            r.cells@ == self.cells@ + cell@,
            r.dimension == self.dimension,
            r.ressources_ami == self.ressources_ami,
            r.ressources_ennemy == self.ressources_ennemy,
            r.action_count == self.action_count,
    {
        let mut cells = self.cells;
        let mut rest = cell;
        let n = rest.len();
        let mut i: usize = 0;
        while i < n
            invariant
                n == rest@.len(),
                i <= n,
                cells@ == self.cells@ + rest@.subrange(0, i as int),
            decreases n - i,
        {
            cells.push(rest[i]);
            proof {
                assert(cells@ =~= self.cells@ + rest@.subrange(0, i as int + 1));
            }
            i = i + 1;
        }
        proof {
            assert(cells@ =~= self.cells@ + rest@);
        }
        StateBuilder { cells, ..self }
    }

    pub fn with_ressources_ami(self, ressource: Ressource) -> (r: Self)
        ensures
            r.ressources_ami == ressource,
            r.cells@ == self.cells@,
            r.dimension == self.dimension,
            r.ressources_ennemy == self.ressources_ennemy,
            r.action_count == self.action_count,
    {
        StateBuilder { ressources_ami: ressource, ..self }
    }

    /// An empty three-by-three board, one unit of each resource per side.
    pub fn new_carre_vide_3() -> (r: Self)
        ensures
            r.dimension == (Dimension { height: 3, width: 3 }),
            r.ressources_ami == (Ressource { a: 1, b: 1, c: 1, d: 1 }),
            r.ressources_ennemy == (Ressource { a: 1, b: 1, c: 1, d: 1 }),
            r.action_count.0 == 1,
            r.cells@ == Seq::<Cell>::empty(),
    {
        StateBuilder {
            dimension: Dimension { height: 3, width: 3 },
            ressources_ami: Ressource::new(1, 1, 1, 1),
            ressources_ennemy: Ressource::new(1, 1, 1, 1),
            action_count: ActionCount::default(),
            cells: Vec::new(),
        }
    }

    /// A one-row, three-column board with a friendly root in the left cell.
    pub fn new_ligne_de_3_root_a_gauche() -> (r: Self)
        ensures
            r.dimension == (Dimension { height: 1, width: 3 }),
            r.ressources_ami == (Ressource { a: 1, b: 1, c: 1, d: 1 }),
            r.ressources_ennemy == (Ressource { a: 1, b: 1, c: 1, d: 1 }),
            r.action_count.0 == 1,
            r.cells@ == seq![
                Cell { coord: Coord { x: 0, y: 0 }, ..Self::spec_root_cell() },
            ],
    {
        let r = StateBuilder {
            dimension: Dimension { height: 1, width: 3 },
            ressources_ami: Ressource::new(1, 1, 1, 1),
            ressources_ennemy: Ressource::new(1, 1, 1, 1),
            action_count: ActionCount::default(),
            cells: Vec::new(),
        };
        let mut cells = r.cells;
        cells.push(Cell { coord: Coord { x: 0, y: 0 }, ..Self::build_root() });
        proof {
            assert(cells@ =~= seq![
                Cell { coord: Coord { x: 0, y: 0 }, ..Self::spec_root_cell() },
            ]);
        }
        StateBuilder { cells, ..r }
    }

    /// A five-by-five board with a friendly root in the middle, fifty of
    /// the first resource for the friendly side and fifty of each for the
    /// other.
    pub fn new_au_milieu() -> (r: Self)
        ensures
            r.dimension == (Dimension { height: 5, width: 5 }),
            r.ressources_ami == (Ressource { a: 50, b: 1, c: 1, d: 1 }),
            r.ressources_ennemy == (Ressource { a: 50, b: 50, c: 50, d: 50 }),
            r.action_count.0 == 1,
            r.cells@ == seq![
                Cell { coord: Coord { x: 2, y: 2 }, ..Self::spec_root_cell() },
            ],
    {
        let r = StateBuilder {
            dimension: Dimension { height: 5, width: 5 },
            ressources_ami: Ressource::new(50, 1, 1, 1),
            ressources_ennemy: Ressource::new(50, 50, 50, 50),
            action_count: ActionCount::default(),
            cells: Vec::new(),
        };
        let mut cells = r.cells;
        cells.push(Cell { coord: Coord { x: 2, y: 2 }, ..Self::build_root() });
        proof {
            assert(cells@ =~= seq![
                Cell { coord: Coord { x: 2, y: 2 }, ..Self::spec_root_cell() },
            ]);
        }
        StateBuilder { cells, ..r }
    }

    /// The five-by-five board with the friendly root at the left edge and a
    /// protein of the first kind at the right edge, on the middle row.
    pub fn new_a_gauche_prot_a_a_droite() -> (r: Self)
        ensures
            r.dimension == (Dimension { height: 5, width: 5 }),
            r.ressources_ami == (Ressource { a: 50, b: 1, c: 1, d: 1 }),
            r.ressources_ennemy == (Ressource { a: 50, b: 50, c: 50, d: 50 }),
            r.action_count.0 == 1,
            r.cells@ == seq![
                Cell { coord: Coord { x: 0, y: 2 }, ..Self::spec_root_cell() },
                Cell {
                    coord: Coord { x: 4, y: 2 },
                    entity: Entity::Protein(crate::atome::Protein::A),
                },
            ],
    {
        let base = Self::new_au_milieu();
        let mut cells: Vec<Cell> = Vec::new();
        cells.push(Cell { coord: Coord { x: 0, y: 2 }, ..Self::build_root() });
        cells.push(
            Cell {
                coord: Coord { x: 4, y: 2 },
                entity: Entity::Protein(crate::atome::Protein::A),
            },
        );
        proof {
            assert(cells@ =~= seq![
                Cell { coord: Coord { x: 0, y: 2 }, ..Self::spec_root_cell() },
                Cell {
                    coord: Coord { x: 4, y: 2 },
                    entity: Entity::Protein(crate::atome::Protein::A),
                },
            ]);
        }
        StateBuilder { cells, ..base }
    }

    /// The friendly founding root: identifier zero, its own parent and
    /// root, facing north.
    pub open spec fn spec_root_cell() -> Cell {
        Cell {
            coord: Coord { x: 0, y: 0 },
            entity: Entity::Organe(
                Organe {
                    dir: Direction::N,
                    id: Id { owner: Owner::Me, id: 0 },
                    parent_id: Id { owner: Owner::Me, id: 0 },
                    root_id: Id { owner: Owner::Me, id: 0 },
                    organe_type: OrganeType::Root,
                    owner: Owner::Me,
                },
            ),
        }
    }

    pub fn build_root() -> (r: Cell)
        ensures
            r == Self::spec_root_cell(),
    {
        Cell {
            coord: Coord { x: 0, y: 0 },
            entity: Entity::Organe(
                Organe {
                    dir: Direction::N,
                    id: Id::zero(Owner::Me),
                    parent_id: Id::zero(Owner::Me),
                    root_id: Id::zero(Owner::Me),
                    organe_type: OrganeType::Root,
                    owner: Owner::Me,
                },
            ),
        }
    }
}

/// A straight-line organism description: a root and a chain of basic
/// organs, each one step from the previous in a given direction.
#[derive(Debug)]
pub struct OrganismBuilder {
    pub decalages: Vec<Direction>,
}

impl OrganismBuilder {
    pub fn new() -> (r: Self)
        ensures
            r.decalages@ == Seq::<Direction>::empty(),
    {
        OrganismBuilder { decalages: Vec::new() }
    }

    pub fn add_basic(self, decale: Direction) -> (r: Self)
        ensures
            r.decalages@ == self.decalages@.push(decale),
    {
        let mut decalages = self.decalages;
        decalages.push(decale);
        OrganismBuilder { decalages }
    }

    /// The walk stays on the representable grid for its first `n` steps.
    pub open spec fn walk_ok(depart: Coord, dirs: Seq<Direction>, n: int) -> bool
        decreases n,
    {
        n <= 0 || (Self::walk_ok(depart, dirs, n - 1) && Self::walk_at(
            depart,
            dirs,
            n - 1,
        ).spec_decaler(dirs[n - 1]) is Some)
    }

    /// The position after the first `n` steps of the walk.
    pub open spec fn walk_at(depart: Coord, dirs: Seq<Direction>, n: int) -> Coord
        decreases n,
    {
        if n <= 0 {
            depart
        } else {
            Self::walk_at(depart, dirs, n - 1).spec_decaler(dirs[n - 1])->0
        }
    }

    /// The cells of the line: a root numbered zero at the start, then one
    /// basic organ per step, numbered in walking order, each the child of
    /// the one before it.
    pub fn build(&self, owner: Owner, depart: Coord) -> (r: Vec<Cell>)
        requires
            Self::walk_ok(depart, self.decalages@, self.decalages@.len() as int),
            self.decalages@.len() <= 255,
        ensures
            r@.len() == self.decalages@.len() + 1,
            r@[0] == (Cell {
                coord: depart,
                entity: Entity::Organe(
                    Organe {
                        id: Id { owner, id: 0 },
                        parent_id: Id { owner, id: 0 },
                        root_id: Id { owner, id: 0 },
                        organe_type: OrganeType::Root,
                        dir: Direction::N,
                        owner,
                    },
                ),
            }),
            forall|i: int|
                1 <= i < r@.len() ==> r@[i] == (Cell {
                    coord: Self::walk_at(depart, self.decalages@, i),
                    entity: Entity::Organe(
                        Organe {
                            id: Id { owner, id: i as u8 },
                            parent_id: Id { owner, id: (i - 1) as u8 },
                            root_id: Id { owner, id: 0 },
                            organe_type: OrganeType::Basic,
                            dir: Direction::N,
                            owner,
                        },
                    ),
                }),
    {
        let mut curr_coord = depart;
        let mut curr_id = Id::zero(owner);
        let root_id = Id::zero(owner);
        let mut resultat: Vec<Cell> = Vec::new();
        resultat.push(
            Cell {
                coord: curr_coord,
                entity: Entity::Organe(
                    Organe {
                        id: curr_id,
                        parent_id: curr_id,
                        root_id,
                        organe_type: OrganeType::Root,
                        dir: Direction::N,
                        owner,
                    },
                ),
            },
        );
        let n = self.decalages.len();
        let mut i: usize = 0;
        while i < n
            invariant
                n == self.decalages@.len(),
                n <= 255,
                i <= n,
                Self::walk_ok(depart, self.decalages@, n as int),
                curr_coord == Self::walk_at(depart, self.decalages@, i as int),
                curr_id == (Id { owner, id: i as u8 }),
                root_id == (Id { owner, id: 0 }),
                resultat@.len() == i + 1,
                resultat@[0] == (Cell {
                    coord: depart,
                    entity: Entity::Organe(
                        Organe {
                            id: Id { owner, id: 0 },
                            parent_id: Id { owner, id: 0 },
                            root_id: Id { owner, id: 0 },
                            organe_type: OrganeType::Root,
                            dir: Direction::N,
                            owner,
                        },
                    ),
                }),
                forall|k: int|
                    1 <= k < resultat@.len() ==> resultat@[k] == (Cell {
                        coord: Self::walk_at(depart, self.decalages@, k),
                        entity: Entity::Organe(
                            Organe {
                                id: Id { owner, id: k as u8 },
                                parent_id: Id { owner, id: (k - 1) as u8 },
                                root_id: Id { owner, id: 0 },
                                organe_type: OrganeType::Basic,
                                dir: Direction::N,
                                owner,
                            },
                        ),
                    }),
            decreases n - i,
        {
            proof {
                assert(Self::walk_ok(depart, self.decalages@, i as int + 1)) by {
                    lemma_walk_ok_prefix(depart, self.decalages@, i as int + 1, n as int);
                }
            }
            let dir = self.decalages[i];
            let stepped = match curr_coord.decaler(dir) {
                Some(c) => c,
                None => {
                    proof {
                        assert(false);
                    }
                    curr_coord
                },
            };
            curr_coord = stepped;
            let parent_id = curr_id;
            curr_id = curr_id.increment();
            resultat.push(
                Cell {
                    coord: curr_coord,
                    entity: Entity::Organe(
                        Organe {
                            id: curr_id,
                            parent_id,
                            root_id,
                            organe_type: OrganeType::Basic,
                            dir: Direction::N,
                            owner,
                        },
                    ),
                },
            );
            i = i + 1;
        }
        resultat
    }
}

/// A walk that stays on the grid for `n` steps stays on it for any prefix.
proof fn lemma_walk_ok_prefix(depart: Coord, dirs: Seq<Direction>, m: int, n: int)
    requires
        m <= n,
        OrganismBuilder::walk_ok(depart, dirs, n),
    ensures
        OrganismBuilder::walk_ok(depart, dirs, m),
    decreases n - m,
{
    if m < n {
        lemma_walk_ok_prefix(depart, dirs, m, n - 1);
    }
}

} // verus!
