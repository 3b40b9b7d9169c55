use organogenesis::atome::{
    ActionCount, Cell, Coord, Dimension, Direction, Entity, Id, Organe, OrganeType, Owner,
    Protein, Ressource,
};
use organogenesis::state::State;

#[test]
fn ligue1_count_harvesting() {
    let dimension = Dimension { height: 3, width: 3 };
    let ressources_ami = Ressource::new(1, 1, 1, 1);
    let ressources_ennemy = Ressource::new(1, 1, 1, 1);
    let action_count = ActionCount::new(1);
    let cells = vec![
        Cell {
            coord: Coord { x: 0, y: 0 },
            entity: Entity::Organe(Organe {
                dir: Direction::N,
                id: Id::new(Owner::Me, 0),
                parent_id: Id::new(Owner::Me, 0),
                root_id: Id::new(Owner::Me, 0),
                organe_type: OrganeType::Root,
                owner: Owner::Me,
            }),
        },
        Cell {
            coord: Coord { x: 1, y: 0 },
            entity: Entity::Organe(Organe {
                dir: Direction::E,
                id: Id::new(Owner::Me, 1),
                parent_id: Id::new(Owner::Me, 0),
                root_id: Id::new(Owner::Me, 0),
                organe_type: OrganeType::Harvester,
                owner: Owner::Me,
            }),
        },
        Cell { coord: Coord { x: 2, y: 0 }, entity: Entity::Protein(Protein::A) },
        Cell { coord: Coord { x: 2, y: 2 }, entity: Entity::Protein(Protein::B) },
    ];
    let state = State::new(dimension, ressources_ami, ressources_ennemy, action_count, cells);
    let harvested: Vec<Protein> = state.harvesting().into_iter().map(|(_, h)| h.protein).collect();
    assert_eq!(harvested, vec![Protein::A]);
}
