use organogenesis::ai::{planifier, Managing};
use organogenesis::atome::{Cell, Coord, Direction, Entity, OrganeType, Owner, Protein, Ressource};
use organogenesis::common::{OrganismBuilder, StateBuilder};
use organogenesis::decision::{Decision, Planification};
use rand::SeedableRng;

/// One expected decision: a wait, or a grow matching the given constraints.
pub enum ExpectStep {
    Wait,
    Grow { coord: Option<Coord>, direction: Option<Direction>, organ: Option<OrganeType> },
}

/// Flatten a planification into its decision sequence, turn by turn.
pub fn flat_decisions(plan: &Planification) -> Vec<Decision> {
    plan.content.iter().flat_map(|t| t.iter().cloned()).collect()
}

/// Check a planification against expected decisions; with `exact`, no
/// decision may follow the expected ones.
pub fn verify_plan(plan: &Planification, steps: &[ExpectStep], exact: bool) -> Result<(), String> {
    let ds = flat_decisions(plan);
    if ds.len() < steps.len() {
        return Err(format!("too few decisions: {} < {}", ds.len(), steps.len()));
    }
    if exact && ds.len() > steps.len() {
        return Err(format!("too many decisions: {} > {}", ds.len(), steps.len()));
    }
    for (i, step) in steps.iter().enumerate() {
        match (step, &ds[i]) {
            (ExpectStep::Wait, Decision::Wait) => {}
            (ExpectStep::Wait, other) => {
                return Err(format!("step {i}: expected wait, got {other:?}"));
            }
            (ExpectStep::Grow { coord, direction, organ }, Decision::Grow(g)) => {
                if let Some(c) = coord {
                    if g.coord != *c {
                        return Err(format!("step {i}: wrong coord {:?}", g.coord));
                    }
                }
                if let Some(d) = direction {
                    if g.direction != *d {
                        return Err(format!("step {i}: wrong direction {:?}", g.direction));
                    }
                }
                if let Some(o) = organ {
                    if g.organe_type != *o {
                        return Err(format!("step {i}: wrong organ {:?}", g.organe_type));
                    }
                }
            }
            (ExpectStep::Grow { .. }, other) => {
                return Err(format!("step {i}: expected grow, got {other:?}"));
            }
        }
    }
    Ok(())
}

/// Run a seed-indexed scenario over many seeds, tolerating a bounded number
/// of failures.
pub fn random_testing<F>(function: F, sample_size: u64, nb_max_err: usize)
where
    F: Fn(u64) -> Result<(), String>,
{
    let errors: Vec<(u64, String)> = (0..sample_size)
        .filter_map(|seed| function(seed).err().map(|e| (seed, e)))
        .collect();
    assert!(
        errors.len() <= nb_max_err,
        "{} failures over {} seeds (allowed {}), first: {:?}",
        errors.len(),
        sample_size,
        nb_max_err,
        errors.first()
    );
}

fn simple_va_harvester(rng: u64) -> Result<(), String> {
    let builder = StateBuilder::new_ligne_de_3_root_a_gauche()
        .with_ressources_ami(Ressource::new(0, 0, 1, 1))
        .add_cell(Cell { coord: Coord { x: 2, y: 0 }, entity: Entity::Protein(Protein::A) });
    let state = builder.build();
    let mut managing = Managing::new()
        .with_rng(rand::rngs::StdRng::seed_from_u64(rng))
        .with_nb_max_iteration(3);

    let planif = planifier(&state, &mut managing);

    verify_plan(
        &planif,
        &[
            ExpectStep::Grow {
                coord: Some(Coord { x: 1, y: 0 }),
                direction: Some(Direction::E),
                organ: Some(OrganeType::Harvester),
            },
            ExpectStep::Grow {
                coord: Some(Coord { x: 2, y: 0 }),
                direction: None,
                organ: Some(OrganeType::Basic),
            },
            ExpectStep::Wait,
        ],
        true,
    )
}

#[test]
fn simple_va_harvester_repeated() {
    random_testing(simple_va_harvester, 1000, 200);
}

fn va_attaquer(rng: u64) -> Result<(), String> {
    let friend = OrganismBuilder::new().build(Owner::Me, Coord { x: 0, y: 1 });
    let ennemy = OrganismBuilder::new()
        .add_basic(Direction::E)
        .add_basic(Direction::E)
        .add_basic(Direction::N)
        .add_basic(Direction::N)
        .add_basic(Direction::W)
        .add_basic(Direction::W)
        .build(Owner::Ennemy, Coord { x: 0, y: 2 });
    let builder = StateBuilder::new_carre_vide_3()
        .with_ressources_ami(Ressource::new(50, 1, 1, 0))
        .add_cells(friend)
        .add_cells(ennemy);
    let state = builder.build();
    let mut managing = Managing::new()
        .with_rng(rand::rngs::StdRng::seed_from_u64(rng))
        .with_nb_to_choose(50)
        .with_nb_max_iteration(6);

    let planif = planifier(&state, &mut managing);

    let basic = || ExpectStep::Grow { coord: None, direction: None, organ: Some(OrganeType::Basic) };
    verify_plan(
        &planif,
        &[
            ExpectStep::Grow {
                coord: Some(Coord { x: 1, y: 1 }),
                direction: Some(Direction::S),
                organ: Some(OrganeType::Tentacle),
            },
            basic(),
            basic(),
            basic(),
            basic(),
            basic(),
        ],
        true,
    )
}

#[test]
fn va_attaquer_repeated() {
    random_testing(va_attaquer, 100, 10);
}

/// The lone root on the five-by-five board walks toward the protein at the
/// right edge and harvests it on the third turn: two basic organs, then a
/// harvester facing the protein. The seed is pinned so the weighted draws
/// pick exactly this plan.
#[test]
fn va_harvester() {
    let state = StateBuilder::new_a_gauche_prot_a_a_droite().build();
    let mut managing = Managing::new()
        .with_rng(rand::rngs::StdRng::seed_from_u64(1339))
        .with_nb_to_choose(3)
        .with_nb_max_iteration(3);
    let plan = planifier(&state, &mut managing);
    verify_plan(
        &plan,
        &[
            ExpectStep::Grow {
                coord: Some(Coord { x: 1, y: 2 }),
                direction: None,
                organ: Some(OrganeType::Basic),
            },
            ExpectStep::Grow {
                coord: Some(Coord { x: 2, y: 2 }),
                direction: None,
                organ: Some(OrganeType::Basic),
            },
            ExpectStep::Grow {
                coord: Some(Coord { x: 3, y: 2 }),
                direction: Some(Direction::E),
                organ: Some(OrganeType::Harvester),
            },
        ],
        true,
    )
    .unwrap();
    assert!(matches!(
        plan.take_first_turn().into_iter().next(),
        Some(Decision::Grow(g)) if g.coord == (Coord { x: 1, y: 2 })
    ));
}
