use organogenesis::ai::{planifier, Managing};
use organogenesis::atome::{
    ActionCount, Cell, Coord, Dimension, Direction, Entity, Id, Organe, OrganeType, Owner,
    Protein, Ressource,
};
use organogenesis::decision::Decision;
use organogenesis::molecule::Harvesting;
use organogenesis::state::State;
use rand::SeedableRng;

#[test]
fn ligue1_test_count_harvesting() {
    let dimension = Dimension { height: 3, width: 3 };
    let ressources_ami = Ressource::new(1, 1, 1, 1);
    let ressources_ennemy = Ressource::new(1, 1, 1, 1);
    let action_count = ActionCount::new(1);
    let cells = vec![
        Cell {
            coord: Coord { x: 0, y: 0 },
            entity: Entity::Organe(Organe {
                dir: Direction::N,
                id: Id::new(Owner::Me, 0),
                parent_id: Id::new(Owner::Me, 0),
                root_id: Id::new(Owner::Me, 0),
                organe_type: OrganeType::Root,
                owner: Owner::Me,
            }),
        },
        Cell {
            coord: Coord { x: 1, y: 0 },
            entity: Entity::Organe(Organe {
                dir: Direction::E,
                id: Id::new(Owner::Me, 1),
                parent_id: Id::new(Owner::Me, 0),
                root_id: Id::new(Owner::Me, 0),
                organe_type: OrganeType::Harvester,
                owner: Owner::Me,
            }),
        },
        Cell { coord: Coord { x: 2, y: 0 }, entity: Entity::Protein(Protein::A) },
        Cell { coord: Coord { x: 2, y: 2 }, entity: Entity::Protein(Protein::B) },
    ];
    let state = State::new(dimension, ressources_ami, ressources_ennemy, action_count, cells);
    let expected = vec![(
        Coord { x: 2, y: 0 },
        Harvesting {
            protein: Protein::A,
            direction: Direction::E,
            harvester_coord: Coord { x: 1, y: 0 },
            harvester_id: Id::new(Owner::Me, 1),
        },
    )];
    assert_eq!(state.harvesting(), expected);
}

#[test]
fn ligue1_test_no_harvesting_when_no_prot() {
    let dimension = Dimension { height: 3, width: 3 };
    let ressources_ami = Ressource::new(1, 0, 0, 1);
    let ressources_ennemy = Ressource::new(1, 1, 1, 1);
    let action_count = ActionCount::new(1);
    let cells = vec![
        Cell {
            coord: Coord { x: 0, y: 0 },
            entity: Entity::Organe(Organe {
                dir: Direction::N,
                id: Id::new(Owner::Me, 0),
                parent_id: Id::new(Owner::Me, 0),
                root_id: Id::new(Owner::Me, 0),
                organe_type: OrganeType::Root,
                owner: Owner::Me,
            }),
        },
        Cell { coord: Coord { x: 2, y: 2 }, entity: Entity::Protein(Protein::A) },
    ];
    let state = State::new(dimension, ressources_ami, ressources_ennemy, action_count, cells);
    let mut managing = Managing::new()
        .with_rng(rand::rngs::StdRng::seed_from_u64(62))
        .with_nb_max_iteration(1);
    let decision = planifier(&state, &mut managing)
        .take_first_turn()
        .into_iter()
        .next()
        .unwrap_or_default();
    let Decision::Grow(grow) = decision else {
        panic!("pas de grow")
    };
    assert_eq!(grow.organe_type, OrganeType::Basic);
}

#[test]
fn bonnes_dimensions() {
    let dimension = Dimension { width: 4, height: 2 };
    let state = State::new(
        dimension,
        Ressource::new(0, 0, 0, 0),
        Ressource::new(0, 0, 0, 0),
        ActionCount::new(1),
        vec![],
    );

    let coo1 = Coord { x: 3, y: 1 };
    assert_eq!(
        state.get_by_coord(coo1),
        Some(Cell { coord: coo1, entity: Entity::Void })
    );

    let coo2 = Coord { x: 1, y: 3 };
    assert_eq!(state.get_by_coord(coo2), None);
}
