use organogenesis::ai::{planifier, Managing};
use organogenesis::atome::{Coord, Direction, OrganeType, Ressource};
use organogenesis::common::StateBuilder;
use organogenesis::decision::{Decision, Planification};
use rand::SeedableRng;

fn flat_decisions(plan: &Planification) -> Vec<Decision> {
    plan.content.iter().flat_map(|t| t.iter().cloned()).collect()
}

fn creer_sporer_quand_seule_ressource_dispo(rng: u64) -> Result<(), String> {
    let builder = StateBuilder::new_ligne_de_3_root_a_gauche()
        .with_ressources_ami(Ressource::new(0, 1, 0, 1));

    let state = builder.build();

    let mut managing = Managing::new()
        .with_rng(rand::rngs::StdRng::seed_from_u64(rng))
        .with_nb_to_choose(50)
        .with_nb_max_iteration(2);

    let planification = planifier(&state, &mut managing);

    let ds = flat_decisions(&planification);
    if ds.len() < 2 {
        return Err(format!("too few decisions: {}", ds.len()));
    }
    match &ds[0] {
        Decision::Grow(g) => {
            if g.coord != (Coord { x: 1, y: 0 }) {
                return Err(format!("wrong coord {:?}", g.coord));
            }
            if g.organe_type != OrganeType::Sporer {
                return Err(format!("wrong organ {:?}", g.organe_type));
            }
        }
        other => return Err(format!("expected grow, got {other:?}")),
    }
    match &ds[1] {
        Decision::Wait => {}
        other => return Err(format!("expected wait, got {other:?}")),
    }
    Ok(())
}

#[test]
fn creer_sporer_quand_seule_ressource_dispo_repeated() {
    let errors: Vec<(u64, String)> = (0..100)
        .filter_map(|seed| creer_sporer_quand_seule_ressource_dispo(seed).err().map(|e| (seed, e)))
        .collect();
    assert!(errors.is_empty(), "failures: {:?}", errors.first());
}
