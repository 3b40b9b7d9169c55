use organogenesis::ai::{juger, make_decision, planifier, Managing};
use organogenesis::atome::{
    ActionCount, Cell, Coord, Dimension, Direction, Entity, Id, Organe, OrganeType, Owner,
    Protein, Ressource,
};
use organogenesis::common::{OrganismBuilder, StateBuilder};
use organogenesis::decision::{Decision, Grow, Spore};
use organogenesis::state::State;
use rand::SeedableRng;

fn organ(id: u8, parent: u8, root: u8, kind: OrganeType, dir: Direction, owner: Owner) -> Entity {
    Entity::Organe(Organe {
        id: Id::new(owner, id),
        parent_id: Id::new(owner, parent),
        root_id: Id::new(owner, root),
        organe_type: kind,
        dir,
        owner,
    })
}

fn root_at(x: u8, y: u8) -> Cell {
    Cell { coord: Coord { x, y }, entity: organ(0, 0, 0, OrganeType::Root, Direction::N, Owner::Me) }
}

/// Growing onto a protein debits the price and credits three units of the
/// protein's kind; re-deriving the resource from the predecessor yields
/// exactly the applier's value.
#[test]
fn grow_resource_exact() {
    let state = StateBuilder::new_carre_vide_3()
        .add_cell(root_at(0, 0))
        .add_cell(Cell { coord: Coord { x: 1, y: 0 }, entity: Entity::Protein(Protein::A) })
        .build();
    let grow = Grow {
        parent_id: Id::new(Owner::Me, 0),
        coord: Coord { x: 1, y: 0 },
        organe_type: OrganeType::Basic,
        direction: Direction::E,
    };
    let next = state.try_grow(grow).expect("legal grow");
    assert_eq!(*next.ressource().get(Owner::Me), Ressource::new(3, 1, 1, 1));
    assert_eq!(*next.ressource().get(Owner::Ennemy), Ressource::new(1, 1, 1, 1));
}

/// A candidate whose price cannot be paid from the resource as it stands is
/// refused, even when the protein bonus under the target would cover it.
#[test]
fn grow_rejected_on_underflow() {
    let state = StateBuilder::new_carre_vide_3()
        .with_ressources_ami(Ressource::new(0, 1, 1, 1))
        .add_cell(root_at(0, 0))
        .add_cell(Cell { coord: Coord { x: 1, y: 0 }, entity: Entity::Protein(Protein::A) })
        .build();
    let grow = Grow {
        parent_id: Id::new(Owner::Me, 0),
        coord: Coord { x: 1, y: 0 },
        organe_type: OrganeType::Basic,
        direction: Direction::E,
    };
    assert!(state.try_grow(grow).is_none());
}

/// Invalid candidates are refused outright: an occupied target, an
/// off-board target, a non-adjacent target, a missing parent.
#[test]
fn grow_rejected_on_bad_target() {
    let state = StateBuilder::new_carre_vide_3()
        .add_cell(root_at(0, 0))
        .add_cell(Cell { coord: Coord { x: 1, y: 0 }, entity: Entity::Wall })
        .build();
    let base = Grow {
        parent_id: Id::new(Owner::Me, 0),
        coord: Coord { x: 1, y: 0 },
        organe_type: OrganeType::Basic,
        direction: Direction::E,
    };
    // occupied by a wall
    assert!(state.try_grow(base).is_none());
    // outside the board
    assert!(state.try_grow(Grow { coord: Coord { x: 0, y: 3 }, ..base }).is_none());
    // not adjacent to the parent
    assert!(state.try_grow(Grow { coord: Coord { x: 2, y: 2 }, ..base }).is_none());
    // parent absent from the state
    assert!(state
        .try_grow(Grow { parent_id: Id::new(Owner::Me, 7), coord: Coord { x: 0, y: 1 }, ..base })
        .is_none());
}

/// Applying a Wait never changes the harvesting set, the resource totals,
/// or the protein and empty-cell maps.
#[test]
fn wait_keeps_views() {
    let state = StateBuilder::new_carre_vide_3()
        .add_cell(root_at(0, 0))
        .add_cell(Cell {
            coord: Coord { x: 1, y: 0 },
            entity: organ(1, 0, 0, OrganeType::Harvester, Direction::E, Owner::Me),
        })
        .add_cell(Cell { coord: Coord { x: 2, y: 0 }, entity: Entity::Protein(Protein::A) })
        .build();
    let after = state.wait_step(Id::new(Owner::Me, 0));
    assert_eq!(after.harvesting(), state.harvesting());
    assert_eq!(after.ressource(), state.ressource());
    assert_eq!(after.protein(), state.protein());
    assert_eq!(after.empty_cell(), state.empty_cell());
    assert_eq!(after.action_roots().get(Owner::Me).len(), 0);
}

/// Chain destruction removes exactly the attacked organ and its transitive
/// descendants; the untouched part of the enemy organism survives, and
/// resolving again with no attacks leaves the board unchanged.
#[test]
fn chain_destruction_exact() {
    let friend = OrganismBuilder::new().build(Owner::Me, Coord { x: 0, y: 1 });
    let ennemy = OrganismBuilder::new()
        .add_basic(Direction::E)
        .add_basic(Direction::E)
        .add_basic(Direction::N)
        .add_basic(Direction::N)
        .add_basic(Direction::W)
        .add_basic(Direction::W)
        .build(Owner::Ennemy, Coord { x: 0, y: 2 });
    let state = StateBuilder::new_carre_vide_3()
        .with_ressources_ami(Ressource::new(50, 1, 1, 0))
        .add_cells(friend)
        .add_cells(ennemy)
        .build();
    // a tentacle at (1,1) facing south attacks the enemy organ at (1,2)
    let attack = Grow {
        parent_id: Id::new(Owner::Me, 0),
        coord: Coord { x: 1, y: 1 },
        organe_type: OrganeType::Tentacle,
        direction: Direction::S,
    };
    let armed = state.try_grow(attack).expect("legal tentacle");
    assert_eq!(armed.attacking().len(), 1);
    let resolved = armed.end_turn();
    // the attacked organ and all five descendants are gone
    for destroyed in 1u8..7 {
        assert!(resolved.get_by_id(Id::new(Owner::Ennemy, destroyed)).is_none());
    }
    // their cells are free again
    assert_eq!(
        resolved.get_by_coord(Coord { x: 2, y: 2 }),
        Some(Cell { coord: Coord { x: 2, y: 2 }, entity: Entity::Void })
    );
    // the enemy root itself was not attacked and survives
    assert!(resolved.get_by_id(Id::new(Owner::Ennemy, 0)).is_some());
    assert_eq!(resolved.organe_ennemy_location().len(), 1);
    // resolving again with no attacks recorded changes nothing on the board
    let again = resolved.end_turn();
    assert_eq!(again.protein(), resolved.protein());
    assert_eq!(again.empty_cell(), resolved.empty_cell());
    assert_eq!(
        again.childs_of(Id::new(Owner::Ennemy, 0)),
        resolved.childs_of(Id::new(Owner::Ennemy, 0))
    );
}

/// A spore flies straight over growable cells to its target and plants a
/// brand-new root there; a blocked path is refused.
#[test]
fn spore_path_and_new_root() {
    let sporer_board = || {
        StateBuilder {
            dimension: Dimension { height: 1, width: 5 },
            ressources_ami: Ressource::new(9, 9, 9, 9),
            ressources_ennemy: Ressource::new(1, 1, 1, 1),
            action_count: ActionCount::new(1),
            cells: Vec::new(),
        }
        .add_cell(root_at(0, 0))
        .add_cell(Cell {
            coord: Coord { x: 1, y: 0 },
            entity: organ(1, 0, 0, OrganeType::Sporer, Direction::E, Owner::Me),
        })
    };
    let state = sporer_board().build();
    let spore = Spore { parent_id: Id::new(Owner::Me, 1), coord: Coord { x: 3, y: 0 } };
    let next = state.try_spore(spore).expect("legal spore");
    assert_eq!(*next.ressource().get(Owner::Me), Ressource::new(8, 8, 8, 8));
    let new_root = next.get_by_id(Id::new(Owner::Me, 2)).expect("new root");
    assert_eq!(new_root.coord, Coord { x: 3, y: 0 });
    assert_eq!(new_root.org_type, OrganeType::Root);
    assert_eq!(new_root.root_id, Id::new(Owner::Me, 2));
    assert!(next.roots().get(Owner::Me).contains(&Id::new(Owner::Me, 2)));
    // a wall on the way breaks the path
    let blocked = sporer_board()
        .add_cell(Cell { coord: Coord { x: 2, y: 0 }, entity: Entity::Wall })
        .build();
    assert!(blocked.try_spore(spore).is_none());
}

/// A side whose identifier space is exhausted cannot grow: the applier
/// refuses rather than reuse an identifier.
#[test]
fn grow_rejected_when_ids_exhausted() {
    let state = StateBuilder::new_carre_vide_3()
        .add_cell(root_at(0, 0))
        .add_cell(Cell {
            coord: Coord { x: 0, y: 1 },
            entity: organ(255, 0, 0, OrganeType::Basic, Direction::N, Owner::Me),
        })
        .build();
    let grow = Grow {
        parent_id: Id::new(Owner::Me, 0),
        coord: Coord { x: 1, y: 0 },
        organe_type: OrganeType::Basic,
        direction: Direction::E,
    };
    assert!(state.try_grow(grow).is_none());
}

/// A spore whose flat price cannot be paid is refused.
#[test]
fn spore_rejected_on_underflow() {
    let state = StateBuilder {
        dimension: Dimension { height: 1, width: 5 },
        ressources_ami: Ressource::new(1, 0, 1, 1),
        ressources_ennemy: Ressource::new(1, 1, 1, 1),
        action_count: ActionCount::new(1),
        cells: Vec::new(),
    }
    .add_cell(root_at(0, 0))
    .add_cell(Cell {
        coord: Coord { x: 1, y: 0 },
        entity: organ(1, 0, 0, OrganeType::Sporer, Direction::E, Owner::Me),
    })
    .build();
    let spore = Spore { parent_id: Id::new(Owner::Me, 1), coord: Coord { x: 3, y: 0 } };
    assert!(state.try_spore(spore).is_none());
}

/// The heuristic weight of a known state, computed by hand: one, plus four
/// for the single harvested protein, plus four held kinds, plus six for two
/// organs, plus five, with no enemies and no wait penalty.
#[test]
fn scorer_exact_value() {
    let state = StateBuilder::new_carre_vide_3()
        .add_cell(root_at(0, 0))
        .add_cell(Cell {
            coord: Coord { x: 1, y: 0 },
            entity: organ(1, 0, 0, OrganeType::Harvester, Direction::E, Owner::Me),
        })
        .add_cell(Cell { coord: Coord { x: 2, y: 0 }, entity: Entity::Protein(Protein::A) })
        .build();
    assert_eq!(juger(state).weight, 20);
}

/// With a fixed seed and the deadline never reached, two runs of the driver
/// over identical inputs produce identical planifications.
#[test]
fn determinism_same_seed() {
    let run = || {
        let state = StateBuilder::new_a_gauche_prot_a_a_droite().build();
        let mut managing = Managing::new()
            .with_rng(rand::rngs::StdRng::seed_from_u64(17))
            .with_nb_max_iteration(3);
        planifier(&state, &mut managing)
    };
    assert_eq!(run(), run());
}

/// With no legal continuation at all the driver degrades to waiting: it
/// still answers, with one Wait per owed decision.
#[test]
fn empty_frontier_degrades_to_wait() {
    let state = State::new(
        Dimension { height: 2, width: 2 },
        Ressource::new(0, 0, 0, 0),
        Ressource::new(0, 0, 0, 0),
        ActionCount::new(2),
        vec![],
    );
    let mut managing = Managing::new()
        .with_rng(rand::rngs::StdRng::seed_from_u64(1))
        .with_nb_max_iteration(4);
    let decisions = make_decision(&state, &mut managing);
    assert_eq!(decisions, vec![Decision::Wait, Decision::Wait]);
}

/// With a harvester available and a protein in reach of one, the planner's
/// first decision grows the harvester next to the root, facing the protein.
#[test]
fn harvesting_is_best() {
    let state = StateBuilder::new_carre_vide_3()
        .add_cell(root_at(0, 0))
        .add_cell(Cell { coord: Coord { x: 2, y: 0 }, entity: Entity::Protein(Protein::A) })
        .build();
    let mut managing = Managing::new()
        .with_rng(rand::rngs::StdRng::seed_from_u64(14))
        .with_nb_max_iteration(1);
    let first = planifier(&state, &mut managing)
        .take_first_turn()
        .into_iter()
        .next()
        .expect("a decision");
    assert_eq!(
        first,
        Decision::Grow(Grow {
            parent_id: Id::new(Owner::Me, 0),
            coord: Coord { x: 1, y: 0 },
            organe_type: OrganeType::Harvester,
            direction: Direction::E,
        })
    );
}
