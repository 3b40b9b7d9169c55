//! The step appliers: the transitions from one snapshot to the next.
//!
//! A turn is a run of `wait_step` / `try_grow` / `try_spore` applications,
//! one per root still owed a decision, closed by `end_turn`, which credits
//! harvests and resolves the tentacle attacks recorded during the turn.

use vstd::prelude::*;
use crate::atome::{
    Cell, Coord, Direction, Entity, Id, Organe, OrganeType, Owner, Protein, Ressource,
};
use crate::decision::{Decision, Grow, Spore};
use crate::molecule::{Attacking, Harvesting, OwnerMap};
use crate::state::{
    copy_ids, ids_ok, organe_of, remove_id, spec_remove_id, State, contains_id, lemma_remove_id,
    spec_cells_remove, lemma_cells_remove, contains_harvest_coord,
};

verus! {

/// Two snapshots over the same board agree on the coordinate lookup.
pub proof fn lemma_entity_at_eq(a: State, b: State, co: Coord)
    requires
        a.cells@ == b.cells@,
        forall|i: int, j: int|
            0 <= i < j < a.cells@.len() ==> (#[trigger] a.cells@[i]).coord != (
            #[trigger] a.cells@[j]).coord,
    ensures
        a.spec_entity_at(co) == b.spec_entity_at(co),
{
    if exists|i: int| 0 <= i < a.cells@.len() && (#[trigger] a.cells@[i]).coord == co {
        let ka = choose|i: int|
            0 <= i < a.cells@.len() && (#[trigger] a.cells@[i]).coord == co;
        assert(a.spec_entity_at(co) == Some(a.cells@[ka].entity));
        assert(b.spec_entity_at(co) == Some(a.cells@[ka].entity));
    } else {
        assert(a.spec_entity_at(co) is None);
        assert(b.spec_entity_at(co) is None);
    }
}

/// Two snapshots over the same board agree on the harvesting set collected
/// over any prefix of the cells.
proof fn lemma_harvest_upto_eq(a: State, b: State, n: int)
    requires
        a.cells@ == b.cells@,
        forall|i: int, j: int|
            0 <= i < j < a.cells@.len() ==> (#[trigger] a.cells@[i]).coord != (
            #[trigger] a.cells@[j]).coord,
    ensures
        a.harvest_upto(n) == b.harvest_upto(n),
    decreases n,
{
    if n > 0 {
        lemma_harvest_upto_eq(a, b, n - 1);
        let c = a.cells@[n - 1];
        match organe_of(c) {
            Some(o) => {
                match c.coord.spec_decaler(o.dir) {
                    Some(fc) => {
                        lemma_entity_at_eq(a, b, fc);
                    },
                    None => {},
                }
            },
            None => {},
        }
        assert(a.spec_harvest_entry(c) == b.spec_harvest_entry(c));
    }
}

/// Two snapshots over the same board agree on the empty cells of any row
/// prefix.
proof fn lemma_empty_row_eq(a: State, b: State, y: int, n: int)
    requires
        a.cells@ == b.cells@,
        a.dimension == b.dimension,
        forall|i: int, j: int|
            0 <= i < j < a.cells@.len() ==> (#[trigger] a.cells@[i]).coord != (
            #[trigger] a.cells@[j]).coord,
    ensures
        a.empty_row_upto(y, n) == b.empty_row_upto(y, n),
    decreases n,
{
    if n > 0 {
        lemma_empty_row_eq(a, b, y, n - 1);
        lemma_entity_at_eq(a, b, Coord { x: (n - 1) as u8, y: y as u8 });
    }
}

/// Two snapshots over the same board agree on the empty cells of any prefix
/// of the rows.
proof fn lemma_empties_upto_eq(a: State, b: State, ny: int)
    requires
        a.cells@ == b.cells@,
        a.dimension == b.dimension,
        forall|i: int, j: int|
            0 <= i < j < a.cells@.len() ==> (#[trigger] a.cells@[i]).coord != (
            #[trigger] a.cells@[j]).coord,
    ensures
        a.empties_upto(ny) == b.empties_upto(ny),
    decreases ny,
{
    if ny > 0 {
        lemma_empties_upto_eq(a, b, ny - 1);
        lemma_empty_row_eq(a, b, ny - 1, a.dimension.width as int);
    }
}

/// Prefix views that read only the raw cell list agree between two
/// snapshots over the same board.
proof fn lemma_orgs_of_root_upto_eq(a: State, b: State, root_id: Id, n: int)
    requires
        a.cells@ == b.cells@,
    ensures
        a.orgs_of_root_upto(root_id, n) == b.orgs_of_root_upto(root_id, n),
    decreases n,
{
    if n > 0 {
        lemma_orgs_of_root_upto_eq(a, b, root_id, n - 1);
    }
}

proof fn lemma_count_orgs_upto_eq(a: State, b: State, owner: Owner, n: int)
    requires
        a.cells@ == b.cells@,
    ensures
        a.count_orgs_upto(owner, n) == b.count_orgs_upto(owner, n),
    decreases n,
{
    if n > 0 {
        lemma_count_orgs_upto_eq(a, b, owner, n - 1);
    }
}

proof fn lemma_childs_upto_eq(a: State, b: State, parent: Id, n: int)
    requires
        a.cells@ == b.cells@,
    ensures
        a.childs_upto(parent, n) == b.childs_upto(parent, n),
    decreases n,
{
    if n > 0 {
        lemma_childs_upto_eq(a, b, parent, n - 1);
    }
}

proof fn lemma_cell_only_views_eq(a: State, b: State, n: int)
    requires
        a.cells@ == b.cells@,
    ensures
        a.enemy_locs_upto(n) == b.enemy_locs_upto(n),
        a.proteins_upto(n) == b.proteins_upto(n),
    decreases n,
{
    if n > 0 {
        lemma_cell_only_views_eq(a, b, n - 1);
    }
}

/// Two snapshots over the same board and dimension have the same derived
/// views: harvesting set, protein and empty-cell maps, organism index,
/// enemy locations and adjacency.
pub proof fn lemma_same_board_same_views(a: State, b: State)
    requires
        a.cells@ == b.cells@,
        a.dimension == b.dimension,
        forall|i: int, j: int|
            0 <= i < j < a.cells@.len() ==> (#[trigger] a.cells@[i]).coord != (
            #[trigger] a.cells@[j]).coord,
    ensures
        a.spec_harvests() == b.spec_harvests(),
        a.spec_proteins() == b.spec_proteins(),
        a.spec_empties() == b.spec_empties(),
        forall|root_id: Id| a.spec_orgs_of_root(root_id) == b.spec_orgs_of_root(root_id),
        forall|owner: Owner| a.spec_nb_organe(owner) == b.spec_nb_organe(owner),
        a.spec_enemy_locs() == b.spec_enemy_locs(),
        forall|parent: Id| a.spec_childs_of(parent) == b.spec_childs_of(parent),
        forall|co: Coord| a.spec_entity_at(co) == b.spec_entity_at(co),
{
    let n = a.cells@.len() as int;
    lemma_harvest_upto_eq(a, b, n);
    lemma_empties_upto_eq(a, b, a.dimension.height as int);
    lemma_cell_only_views_eq(a, b, n);
    assert forall|root_id: Id| a.spec_orgs_of_root(root_id) == b.spec_orgs_of_root(root_id) by {
        lemma_orgs_of_root_upto_eq(a, b, root_id, n);
    }
    assert forall|owner: Owner| a.spec_nb_organe(owner) == b.spec_nb_organe(owner) by {
        lemma_count_orgs_upto_eq(a, b, owner, n);
    }
    assert forall|parent: Id| a.spec_childs_of(parent) == b.spec_childs_of(parent) by {
        lemma_childs_upto_eq(a, b, parent, n);
    }
    assert forall|co: Coord| a.spec_entity_at(co) == b.spec_entity_at(co) by {
        lemma_entity_at_eq(a, b, co);
    }
}

impl State {
    /// Apply a Wait decision for `root_id`: that root's action is spent and
    /// the decision is logged. Nothing else changes: the board, both
    /// resource totals, the harvesting set, the protein and empty-cell maps,
    /// the root sets, the recorded attacks and the identifier marks are all
    /// exactly the predecessor's.
    /// What applying a Wait for `root_id` to `self` yields: only that
    /// root's owed action and the decision log change; the board, both
    /// resource totals, the harvesting set and the protein and empty-cell
    /// maps are exactly the predecessor's.
    pub open spec fn wait_applied(self, root_id: Id, s: State) -> bool {
        &&& s.wf()
        &&& s.dimension == self.dimension
        &&& s.cells@ == self.cells@
        &&& s.ressources == self.ressources
        &&& s.max_id == self.max_id
        &&& s.attacks@ == self.attacks@
        &&& s.action_count == self.action_count
        &&& s.root_set.spec_get(Owner::Me)@ == self.root_set.spec_get(Owner::Me)@
        &&& s.root_set.spec_get(Owner::Ennemy)@ == self.root_set.spec_get(Owner::Ennemy)@
        &&& s.action_set.spec_get(root_id.owner)@ == spec_remove_id(
            self.action_set.spec_get(root_id.owner)@,
            root_id,
        )
        &&& s.action_set.spec_get(root_id.owner.spec_switch_side())@ == self.action_set.spec_get(
            root_id.owner.spec_switch_side(),
        )@
        &&& s.plan.view_turns() == self.plan.view_turns().update(
            self.plan.view_turns().len() - 1,
            self.plan.view_turns().last().push(Decision::Wait),
        )
        &&& s.spec_harvests() == self.spec_harvests()
        &&& s.spec_proteins() == self.spec_proteins()
        &&& s.spec_empties() == self.spec_empties()
        &&& forall|co: Coord| s.spec_get_by_coord(co) == self.spec_get_by_coord(co)
    }

    pub fn wait_step(&self, root_id: Id) -> (r: State)
        requires
            self.wf(),
        ensures
            self.wait_applied(root_id, r),
    {
        let owner = root_id.get_owner();
        let remaining = remove_id(self.action_roots().get(owner), root_id);
        let action_set = OwnerMap::new(
            copy_ids(self.action_roots().get(Owner::Me)),
            copy_ids(self.action_roots().get(Owner::Ennemy)),
        ).set(owner, remaining);
        let r = State {
            dimension: self.dimension,
            cells: crate::state::copy_cells(&self.cells),
            ressources: self.ressources,
            action_set,
            root_set: OwnerMap::new(
                copy_ids(self.roots().get(Owner::Me)),
                copy_ids(self.roots().get(Owner::Ennemy)),
            ),
            max_id: self.max_id,
            attacks: crate::state::copy_attacks(&self.attacks),
            plan: self.plan.duplicate().add_decision(Decision::Wait),
            action_count: self.action_count,
        };
        proof {
            let acts = self.action_set.spec_get(owner)@;
            lemma_remove_id(acts, root_id, acts.len() as int);
            assert(ids_ok(
                r.action_set.spec_get(owner)@,
                owner,
                self.max_id.spec_get(owner),
            )) by {
                let rem = spec_remove_id(acts, root_id);
                assert forall|e: int| 0 <= e < rem.len() implies (#[trigger] rem[e]).owner
                    == owner && rem[e].id <= self.max_id.spec_get(owner).id by {
                    let k = choose|k: int| 0 <= k < acts.len() && acts[k] == rem[e];
                }
            }
            assert forall|k: int| 0 <= k < r.cells@.len() implies r.cell_ok(
                #[trigger] r.cells@[k],
            ) by {
                assert(self.cell_ok(self.cells@[k]));
            }
            assert(r.plan.content@.len() >= 1) by {
                assert(r.plan.view_turns().len() == r.plan.content@.len());
                assert(self.plan.view_turns().len() == self.plan.content@.len());
            }
            assert(ids_ok(
                r.action_set.spec_get(Owner::Me)@,
                Owner::Me,
                self.max_id.spec_get(Owner::Me),
            ));
            assert(ids_ok(
                r.action_set.spec_get(Owner::Ennemy)@,
                Owner::Ennemy,
                self.max_id.spec_get(Owner::Ennemy),
            ));
            assert(ids_ok(
                r.root_set.spec_get(Owner::Me)@,
                Owner::Me,
                self.max_id.spec_get(Owner::Me),
            ));
            assert(ids_ok(
                r.root_set.spec_get(Owner::Ennemy)@,
                Owner::Ennemy,
                self.max_id.spec_get(Owner::Ennemy),
            ));
            lemma_same_board_same_views(*self, r);
            assert forall|co: Coord| r.spec_get_by_coord(co) == self.spec_get_by_coord(co) by {
                assert(r.spec_entity_at(co) == self.spec_entity_at(co));
            }
        }
        r
    }
}

} // verus!

verus! {

/// Two coordinates one step apart in some direction.
pub open spec fn spec_adjacent(a: Coord, b: Coord) -> bool {
    exists|d: Direction| a.spec_decaler(d) == Some(b)
}

/// Does this optional coordinate hit the target?
fn opt_eq_coord(c: Option<Coord>, t: Coord) -> (r: bool)
    ensures
        r == (c == Some(t)),
{
    match c {
        Some(x) => x == t,
        None => false,
    }
}

/// A well-formed snapshot's organ lookup returns a record whose identifiers
/// are tagged with the organ's owner and bounded by the owner's mark.
pub proof fn lemma_get_by_id_wf(s: State, id: Id)
    requires
        s.wf(),
        s.spec_get_by_id(id) is Some,
    ensures
        s.spec_get_by_id(id)->0.id == id,
        s.spec_get_by_id(id)->0.parent_id.owner == id.owner,
        s.spec_get_by_id(id)->0.root_id.owner == id.owner,
        s.spec_get_by_id(id)->0.id.id <= s.max_id.spec_get(id.owner).id,
        s.spec_get_by_id(id)->0.id != s.spec_get_by_id(id)->0.parent_id
            ==> s.spec_get_by_id(id)->0.parent_id.id < s.spec_get_by_id(id)->0.id.id,
{
    let k = choose|k: int|
        0 <= k < s.cells@.len() && organe_of(#[trigger] s.cells@[k]) is Some && organe_of(
            s.cells@[k],
        )->0.id == id;
    assert(s.cell_ok(s.cells@[k]));
    assert(s.spec_get_by_id(id) == Some(crate::state::org_record(s.cells@[k])));
}

impl State {
    /// Does this grow decision apply to the snapshot? The parent organ must
    /// exist, the target must be a growable cell one step from the parent,
    /// the price must be payable from the owner's resource as it stands —
    /// the bonus under a protein target is credited only after an accepted
    /// debit and never helps pay the price — and the owner must still have
    /// a fresh identifier to give out.
    pub open spec fn spec_grow_ok(self, g: Grow) -> bool {
        &&& self.spec_get_by_id(g.parent_id) is Some
        &&& spec_adjacent(self.spec_get_by_id(g.parent_id)->0.coord, g.coord)
        &&& self.spec_growable_at(g.coord)
        &&& self.ressources.spec_get(g.parent_id.owner).spec_ge(g.organe_type.spec_prix())
        &&& self.max_id.spec_get(g.parent_id.owner).id < 255
    }

    /// The organ an accepted grow decision places at its target.
    pub open spec fn spec_grow_new_organe(self, g: Grow) -> Organe {
        Organe {
            id: self.max_id.spec_get(g.parent_id.owner).spec_increment(),
            parent_id: g.parent_id,
            root_id: self.spec_get_by_id(g.parent_id)->0.root_id,
            organe_type: g.organe_type,
            dir: g.direction,
            owner: g.parent_id.owner,
        }
    }

    /// The owner's resource after an accepted grow: the price is debited,
    /// then three units of the protein kind under the target are credited
    /// if the target held a protein.
    pub open spec fn spec_grow_ressource(self, g: Grow) -> Ressource {
        let base = self.ressources.spec_get(g.parent_id.owner).spec_sub(
            g.organe_type.spec_prix(),
        );
        match self.spec_protein_at(g.coord) {
            Some(p) => base.spec_ajout(p, 3),
            None => base,
        }
    }

    /// The attack a grow decision records: a tentacle facing an organ of
    /// the other side marks it for destruction at end of turn.
    pub open spec fn spec_attack_of(self, g: Grow) -> Option<Attacking> {
        if g.organe_type is Tentacle {
            match g.coord.spec_decaler(g.direction) {
                Some(fc) => match self.spec_entity_at(fc) {
                    Some(e) => match e {
                        Entity::Organe(o2) => if o2.owner != g.parent_id.owner {
                            Some(Attacking { target_coord: fc, target_id: o2.id })
                        } else {
                            None
                        },
                        _ => None,
                    },
                    None => None,
                },
                None => None,
            }
        } else {
            None
        }
    }

    /// What applying an accepted grow decision to `self` yields: the new
    /// organ replaces whatever sat on the target, the price is debited and
    /// the protein bonus credited, the acting root's action is spent, a
    /// tentacle facing an enemy records its attack, and the decision is
    /// logged.
    pub open spec fn grow_applied(self, decision: Grow, s: State) -> bool {
        let owner = decision.parent_id.owner;
        &&& s.wf()
        &&& s.dimension == self.dimension
        &&& s.cells@ == spec_cells_remove(self.cells@, decision.coord).push(
            Cell {
                coord: decision.coord,
                entity: Entity::Organe(self.spec_grow_new_organe(decision)),
            },
        )
        &&& s.ressources.spec_get(owner) == self.spec_grow_ressource(decision)
        &&& s.ressources.spec_get(owner.spec_switch_side()) == self.ressources.spec_get(
            owner.spec_switch_side(),
        )
        &&& s.action_set.spec_get(owner)@ == spec_remove_id(
            self.action_set.spec_get(owner)@,
            self.spec_get_by_id(decision.parent_id)->0.root_id,
        )
        &&& s.action_set.spec_get(owner.spec_switch_side())@ == self.action_set.spec_get(
            owner.spec_switch_side(),
        )@
        &&& s.root_set.spec_get(Owner::Me)@ == self.root_set.spec_get(Owner::Me)@
        &&& s.root_set.spec_get(Owner::Ennemy)@ == self.root_set.spec_get(Owner::Ennemy)@
        &&& s.max_id == self.max_id.spec_set(
            owner,
            self.max_id.spec_get(owner).spec_increment(),
        )
        &&& s.attacks@ == match self.spec_attack_of(decision) {
            Some(a) => self.attacks@.push(a),
            None => self.attacks@,
        }
        &&& s.plan.view_turns() == self.plan.view_turns().update(
            self.plan.view_turns().len() - 1,
            self.plan.view_turns().last().push(Decision::Grow(decision)),
        )
        &&& s.action_count == self.action_count
    }

    /// Apply a grow decision, if it is legal. An accepted grow places the
    /// new organ at the target (consuming any protein there), debits the
    /// price and credits the protein bonus, spends the acting root's
    /// action, records a tentacle attack when the new organ faces an enemy,
    /// and logs the decision. An illegal candidate (missing parent,
    /// non-adjacent or non-growable target, unpayable price, exhausted
    /// identifier space) is refused outright.
    pub fn try_grow(&self, decision: Grow) -> (r: Option<State>)
        requires
            self.wf(),
        ensures
            r is Some <==> self.spec_grow_ok(decision),
            r is Some ==> self.grow_applied(decision, r->0),
    {
        let owner = decision.parent_id.get_owner();
        let parent = match self.get_by_id(decision.parent_id) {
            Some(p) => p,
            None => {
                return None;
            },
        };
        let adj = opt_eq_coord(parent.coord.decaler(Direction::N), decision.coord)
            || opt_eq_coord(parent.coord.decaler(Direction::S), decision.coord) || opt_eq_coord(
            parent.coord.decaler(Direction::E),
            decision.coord,
        ) || opt_eq_coord(parent.coord.decaler(Direction::W), decision.coord);
        proof {
            if !adj {
                assert forall|d: Direction|
                    !(parent.coord.spec_decaler(d) == Some(decision.coord)) by {
                    match d {
                        Direction::N => {},
                        Direction::S => {},
                        Direction::E => {},
                        Direction::W => {},
                    }
                }
            }
        }
        if !adj {
            return None;
        }
        let target = match self.get_by_coord(decision.coord) {
            Some(c) => c,
            None => {
                return None;
            },
        };
        let bonus: Option<Protein> = match target.entity {
            Entity::Void => None,
            Entity::Protein(p) => Some(p),
            _ => {
                return None;
            },
        };
        let base = match self.ressources.get(owner).checked_sub(decision.organe_type.prix()) {
            Some(b) => b,
            None => {
                return None;
            },
        };
        if !(self.max_id.get(owner).get_num() < 255) {
            return None;
        }
        let new_res = match bonus {
            Some(p) => base.ajout_3(p),
            None => base,
        };
        let new_id = self.max_id.get(owner).increment();
        let new_organe = Organe {
            id: new_id,
            parent_id: decision.parent_id,
            root_id: parent.root_id,
            organe_type: decision.organe_type,
            dir: decision.direction,
            owner,
        };
        let mut cells = crate::state::cells_remove(&self.cells, decision.coord);
        cells.push(Cell { coord: decision.coord, entity: Entity::Organe(new_organe) });
        let mut attacks = crate::state::copy_attacks(&self.attacks);
        if matches!(decision.organe_type, OrganeType::Tentacle) {
            match self.en_face(decision.coord, decision.direction) {
                Some(faced) => match faced.entity {
                    Entity::Organe(o2) => {
                        if o2.owner.is_ennemy(owner) {
                            attacks.push(
                                Attacking { target_coord: faced.coord, target_id: o2.id },
                            );
                        }
                    },
                    _ => {},
                },
                None => {},
            }
        }
        let remaining = remove_id(self.action_roots().get(owner), parent.root_id);
        let action_set = OwnerMap::new(
            copy_ids(self.action_roots().get(Owner::Me)),
            copy_ids(self.action_roots().get(Owner::Ennemy)),
        ).set(owner, remaining);
        let s = State {
            dimension: self.dimension,
            cells,
            ressources: self.ressources.set(owner, new_res),
            action_set,
            root_set: OwnerMap::new(
                copy_ids(self.roots().get(Owner::Me)),
                copy_ids(self.roots().get(Owner::Ennemy)),
            ),
            max_id: self.max_id.increment(owner),
            attacks,
            plan: self.plan.duplicate().add_decision(Decision::Grow(decision)),
            action_count: self.action_count,
        };
        proof {
            lemma_get_by_id_wf(*self, decision.parent_id);
            let cs = self.cells@;
            let co = decision.coord;
            lemma_cells_remove(cs, co, cs.len() as int);
            let removed = spec_cells_remove(cs, co);
            let new_cell = Cell { coord: co, entity: Entity::Organe(new_organe) };
            assert(s.cells@ == removed.push(new_cell));
            // coordinates stay pairwise distinct
            assert forall|i: int, j: int| 0 <= i < j < s.cells@.len() implies (
            #[trigger] s.cells@[i]).coord != (#[trigger] s.cells@[j]).coord by {
                if j == s.cells@.len() - 1 {
                    assert(removed[i].coord != co);
                }
            }
            // every cell of the successor is well formed
            assert forall|k: int| 0 <= k < s.cells@.len() implies s.cell_ok(
                #[trigger] s.cells@[k],
            ) by {
                if k < s.cells@.len() - 1 {
                    let k0 = choose|k0: int| 0 <= k0 < cs.len() && cs[k0] == removed[k];
                    assert(self.cell_ok(cs[k0]));
                }
            }
            // organ identifiers stay pairwise distinct: the new identifier
            // is strictly above the owner's previous high-water mark
            assert forall|i: int, j: int|
                0 <= i < j < s.cells@.len() && organe_of(#[trigger] s.cells@[i]) is Some
                    && organe_of(#[trigger] s.cells@[j]) is Some implies organe_of(
                s.cells@[i],
            )->0.id != organe_of(s.cells@[j])->0.id by {
                if j == s.cells@.len() - 1 {
                    let k0 = choose|k0: int| 0 <= k0 < cs.len() && cs[k0] == removed[i];
                    assert(self.cell_ok(cs[k0]));
                }
            }
            let acts = self.action_set.spec_get(owner)@;
            lemma_remove_id(acts, parent.root_id, acts.len() as int);
            assert(ids_ok(s.action_set.spec_get(owner)@, owner, s.max_id.spec_get(owner))) by {
                let rem = spec_remove_id(acts, parent.root_id);
                assert forall|e: int| 0 <= e < rem.len() implies (#[trigger] rem[e]).owner
                    == owner && rem[e].id <= s.max_id.spec_get(owner).id by {
                    let k = choose|k: int| 0 <= k < acts.len() && acts[k] == rem[e];
                }
            }
            assert(ids_ok(
                s.action_set.spec_get(owner.spec_switch_side())@,
                owner.spec_switch_side(),
                s.max_id.spec_get(owner.spec_switch_side()),
            ));
            assert(ids_ok(
                s.root_set.spec_get(Owner::Me)@,
                Owner::Me,
                s.max_id.spec_get(Owner::Me),
            )) by {
                assert(self.max_id.spec_get(Owner::Me).id <= s.max_id.spec_get(Owner::Me).id);
            }
            assert(ids_ok(
                s.root_set.spec_get(Owner::Ennemy)@,
                Owner::Ennemy,
                s.max_id.spec_get(Owner::Ennemy),
            )) by {
                assert(self.max_id.spec_get(Owner::Ennemy).id <= s.max_id.spec_get(
                    Owner::Ennemy,
                ).id);
            }
            assert(s.plan.content@.len() >= 1) by {
                assert(s.plan.view_turns().len() == s.plan.content@.len());
                assert(self.plan.view_turns().len() == self.plan.content@.len());
            }
            assert(s.wf());
            // the recorded attack matches the spec-level description
            assert(s.attacks@ == match self.spec_attack_of(decision) {
                Some(a) => self.attacks@.push(a),
                None => self.attacks@,
            });
        }
        Some(s)
    }
}

} // verus!

verus! {

impl State {
    /// Is `target` reachable from `from` by walking straight in `dir`
    /// through growable cells, within `fuel` steps? The walk succeeds when
    /// it lands exactly on the target; every cell crossed on the way must
    /// be empty or hold a protein.
    pub open spec fn spec_spore_path_ok(
        self,
        from: Coord,
        dir: Direction,
        target: Coord,
        fuel: int,
    ) -> bool
        decreases fuel,
    {
        if fuel <= 0 {
            false
        } else {
            match from.spec_decaler(dir) {
                Some(c) => if c == target {
                    true
                } else {
                    self.spec_growable_at(c) && self.spec_spore_path_ok(c, dir, target, fuel - 1)
                },
                None => false,
            }
        }
    }

    /// The facing of the sporer organ `parent_id`, read from its board
    /// cell.
    pub open spec fn spec_sporer_dir(self, parent_id: Id) -> Direction {
        self.spec_entity_at(self.spec_get_by_id(parent_id)->0.coord)->0->Organe_0.dir
    }

    /// Does this spore decision apply to the snapshot? The parent must be a
    /// sporer on the board, the flat price of one unit of each kind must be
    /// payable as the resource stands, the target must be a growable cell
    /// reached by walking at most a hundred cells straight along the
    /// sporer's facing, and the owner must still have a fresh identifier.
    pub open spec fn spec_spore_ok(self, g: Spore) -> bool {
        &&& self.spec_get_by_id(g.parent_id) is Some
        &&& self.spec_get_by_id(g.parent_id)->0.org_type is Sporer
        &&& self.ressources.spec_get(g.parent_id.owner).spec_ge(
            Ressource { a: 1, b: 1, c: 1, d: 1 },
        )
        &&& self.spec_growable_at(g.coord)
        &&& self.spec_spore_path_ok(
            self.spec_get_by_id(g.parent_id)->0.coord,
            self.spec_sporer_dir(g.parent_id),
            g.coord,
            100,
        )
        &&& self.max_id.spec_get(g.parent_id.owner).id < 255
    }

    /// The brand-new root organ an accepted spore decision places at its
    /// target: a fresh identifier that is its own root, parented to the
    /// owner's zero sentinel.
    pub open spec fn spec_spore_new_organe(self, g: Spore) -> Organe {
        Organe {
            id: self.max_id.spec_get(g.parent_id.owner).spec_increment(),
            parent_id: Id { owner: g.parent_id.owner, id: 0 },
            root_id: self.max_id.spec_get(g.parent_id.owner).spec_increment(),
            organe_type: OrganeType::Root,
            dir: Direction::N,
            owner: g.parent_id.owner,
        }
    }

    /// The owner's resource after an accepted spore: one unit of each kind
    /// is debited, then the protein bonus under the target is credited.
    pub open spec fn spec_spore_ressource(self, g: Spore) -> Ressource {
        let base = self.ressources.spec_get(g.parent_id.owner).spec_sub(
            Ressource { a: 1, b: 1, c: 1, d: 1 },
        );
        match self.spec_protein_at(g.coord) {
            Some(p) => base.spec_ajout(p, 3),
            None => base,
        }
    }

    /// What applying an accepted spore decision to `self` yields: the new
    /// root replaces whatever sat on the target, the flat price is debited
    /// and the protein bonus credited, the acting root's action is spent,
    /// the new root joins the owner's root set, and the decision is logged.
    pub open spec fn spore_applied(self, decision: Spore, s: State) -> bool {
        let owner = decision.parent_id.owner;
        &&& s.wf()
        &&& s.dimension == self.dimension
        &&& s.cells@ == spec_cells_remove(self.cells@, decision.coord).push(
            Cell {
                coord: decision.coord,
                entity: Entity::Organe(self.spec_spore_new_organe(decision)),
            },
        )
        &&& s.ressources.spec_get(owner) == self.spec_spore_ressource(decision)
        &&& s.ressources.spec_get(owner.spec_switch_side()) == self.ressources.spec_get(
            owner.spec_switch_side(),
        )
        &&& s.action_set.spec_get(owner)@ == spec_remove_id(
            self.action_set.spec_get(owner)@,
            self.spec_get_by_id(decision.parent_id)->0.root_id,
        )
        &&& s.action_set.spec_get(owner.spec_switch_side())@ == self.action_set.spec_get(
            owner.spec_switch_side(),
        )@
        &&& s.root_set.spec_get(owner)@ == self.root_set.spec_get(owner)@.push(
            self.spec_spore_new_organe(decision).id,
        )
        &&& s.root_set.spec_get(owner.spec_switch_side())@ == self.root_set.spec_get(
            owner.spec_switch_side(),
        )@
        &&& s.max_id == self.max_id.spec_set(
            owner,
            self.max_id.spec_get(owner).spec_increment(),
        )
        &&& s.attacks@ == self.attacks@
        &&& s.plan.view_turns() == self.plan.view_turns().update(
            self.plan.view_turns().len() - 1,
            self.plan.view_turns().last().push(Decision::Spore(decision)),
        )
        &&& s.action_count == self.action_count
    }

    /// Apply a spore decision, if it is legal. An accepted spore places a
    /// brand-new root at the target (consuming any protein there), debits
    /// the flat price and credits the protein bonus, spends the acting
    /// root's action, registers the new root — which owes its first
    /// decision from the next turn on — and logs the decision.
    #[verifier::loop_isolation(false)]
    pub fn try_spore(&self, decision: Spore) -> (r: Option<State>)
        requires
            self.wf(),
        ensures
            r is Some <==> self.spec_spore_ok(decision),
            r is Some ==> self.spore_applied(decision, r->0),
    {
        let owner = decision.parent_id.get_owner();
        let parent = match self.get_by_id(decision.parent_id) {
            Some(p) => p,
            None => {
                return None;
            },
        };
        if !matches!(parent.org_type, OrganeType::Sporer) {
            return None;
        }
        let base = match self.ressources.get(owner).checked_sub(Ressource::new(1, 1, 1, 1)) {
            Some(b) => b,
            None => {
                return None;
            },
        };
        let target = match self.get_by_coord(decision.coord) {
            Some(c) => c,
            None => {
                return None;
            },
        };
        let bonus: Option<Protein> = match target.entity {
            Entity::Void => None,
            Entity::Protein(p) => Some(p),
            _ => {
                return None;
            },
        };
        let dir = match self.get_by_coord(parent.coord) {
            Some(cell) => match cell.entity {
                Entity::Organe(o) => o.dir,
                _ => {
                    proof {
                        assert(false) by {
                            let k = choose|k: int|
                                0 <= k < self.cells@.len() && organe_of(
                                    #[trigger] self.cells@[k],
                                ) is Some && organe_of(self.cells@[k])->0.id == decision.parent_id;
                            assert(self.cells@[k].coord == parent.coord);
                            assert(self.spec_entity_at(parent.coord) == Some(
                                self.cells@[k].entity,
                            )) by {
                                lemma_entity_at_eq(*self, *self, parent.coord);
                            }
                        }
                    }
                    return None;
                },
            },
            None => {
                proof {
                    let k = choose|k: int|
                        0 <= k < self.cells@.len() && organe_of(#[trigger] self.cells@[k]) is Some
                            && organe_of(self.cells@[k])->0.id == decision.parent_id;
                    assert(self.dimension.spec_contains(self.cells@[k].coord));
                }
                return None;
            },
        };
        proof {
            assert(dir == self.spec_sporer_dir(decision.parent_id));
        }
        if !(self.max_id.get(owner).get_num() < 255) {
            return None;
        }
        // walk the straight line from the sporer toward the target
        let mut curr = parent.coord;
        let mut found = false;
        let mut k: u8 = 0;
        while k < 100 && !found
            invariant
                self.wf(),
                k <= 100,
                !found ==> self.spec_spore_path_ok(parent.coord, dir, decision.coord, 100)
                    == self.spec_spore_path_ok(curr, dir, decision.coord, 100 - k as int),
                found ==> self.spec_spore_path_ok(parent.coord, dir, decision.coord, 100),
            decreases 100 - k,
        {
            match curr.decaler(dir) {
                Some(c) => {
                    if c == decision.coord {
                        found = true;
                    } else {
                        match self.get_by_coord(c) {
                            Some(cell) => {
                                if !cell.can_grow() {
                                    proof {
                                        assert(!self.spec_growable_at(c));
                                        assert(!self.spec_spore_path_ok(
                                            curr,
                                            dir,
                                            decision.coord,
                                            100 - k as int,
                                        ));
                                    }
                                    return None;
                                }
                            },
                            None => {
                                proof {
                                    assert(!self.spec_growable_at(c));
                                    assert(!self.spec_spore_path_ok(
                                        curr,
                                        dir,
                                        decision.coord,
                                        100 - k as int,
                                    ));
                                }
                                return None;
                            },
                        }
                        proof {
                            assert(self.spec_growable_at(c));
                            assert(self.spec_spore_path_ok(curr, dir, decision.coord, 100 - k as int)
                                == self.spec_spore_path_ok(c, dir, decision.coord, 100 - (k + 1) as int));
                        }
                        curr = c;
                    }
                },
                None => {
                    proof {
                        assert(!self.spec_spore_path_ok(curr, dir, decision.coord, 100 - k as int));
                    }
                    return None;
                },
            }
            k = k + 1;
        }
        if !found {
            return None;
        }
        let new_id = self.max_id.get(owner).increment();
        let new_organe = Organe {
            id: new_id,
            parent_id: Id::zero(owner),
            root_id: new_id,
            organe_type: OrganeType::Root,
            dir: Direction::N,
            owner,
        };
        let mut cells = crate::state::cells_remove(&self.cells, decision.coord);
        cells.push(Cell { coord: decision.coord, entity: Entity::Organe(new_organe) });
        let new_res = match bonus {
            Some(p) => base.ajout_3(p),
            None => base,
        };
        let remaining = remove_id(self.action_roots().get(owner), parent.root_id);
        let action_set = OwnerMap::new(
            copy_ids(self.action_roots().get(Owner::Me)),
            copy_ids(self.action_roots().get(Owner::Ennemy)),
        ).set(owner, remaining);
        let mut own_roots = copy_ids(self.roots().get(owner));
        own_roots.push(new_id);
        let root_set = OwnerMap::new(
            copy_ids(self.roots().get(Owner::Me)),
            copy_ids(self.roots().get(Owner::Ennemy)),
        ).set(owner, own_roots);
        let s = State {
            dimension: self.dimension,
            cells,
            ressources: self.ressources.set(owner, new_res),
            action_set,
            root_set,
            max_id: self.max_id.increment(owner),
            attacks: crate::state::copy_attacks(&self.attacks),
            plan: self.plan.duplicate().add_decision(Decision::Spore(decision)),
            action_count: self.action_count,
        };
        proof {
            lemma_get_by_id_wf(*self, decision.parent_id);
            let cs = self.cells@;
            let co = decision.coord;
            lemma_cells_remove(cs, co, cs.len() as int);
            let removed = spec_cells_remove(cs, co);
            let new_cell = Cell { coord: co, entity: Entity::Organe(new_organe) };
            assert(s.cells@ == removed.push(new_cell));
            assert forall|i: int, j: int| 0 <= i < j < s.cells@.len() implies (
            #[trigger] s.cells@[i]).coord != (#[trigger] s.cells@[j]).coord by {
                if j == s.cells@.len() - 1 {
                    assert(removed[i].coord != co);
                }
            }
            assert forall|kk: int| 0 <= kk < s.cells@.len() implies s.cell_ok(
                #[trigger] s.cells@[kk],
            ) by {
                if kk < s.cells@.len() - 1 {
                    let k0 = choose|k0: int| 0 <= k0 < cs.len() && cs[k0] == removed[kk];
                    assert(self.cell_ok(cs[k0]));
                }
            }
            assert forall|i: int, j: int|
                0 <= i < j < s.cells@.len() && organe_of(#[trigger] s.cells@[i]) is Some
                    && organe_of(#[trigger] s.cells@[j]) is Some implies organe_of(
                s.cells@[i],
            )->0.id != organe_of(s.cells@[j])->0.id by {
                if j == s.cells@.len() - 1 {
                    let k0 = choose|k0: int| 0 <= k0 < cs.len() && cs[k0] == removed[i];
                    assert(self.cell_ok(cs[k0]));
                }
            }
            let acts = self.action_set.spec_get(owner)@;
            lemma_remove_id(acts, parent.root_id, acts.len() as int);
            assert(ids_ok(s.action_set.spec_get(owner)@, owner, s.max_id.spec_get(owner))) by {
                let rem = spec_remove_id(acts, parent.root_id);
                assert forall|e: int| 0 <= e < rem.len() implies (#[trigger] rem[e]).owner
                    == owner && rem[e].id <= s.max_id.spec_get(owner).id by {
                    let kx = choose|kx: int| 0 <= kx < acts.len() && acts[kx] == rem[e];
                }
            }
            assert(ids_ok(
                s.action_set.spec_get(owner.spec_switch_side())@,
                owner.spec_switch_side(),
                s.max_id.spec_get(owner.spec_switch_side()),
            ));
            assert(ids_ok(s.root_set.spec_get(owner)@, owner, s.max_id.spec_get(owner))) by {
                let olds = self.root_set.spec_get(owner)@;
                assert forall|e: int|
                    0 <= e < olds.push(new_id).len() implies (#[trigger] olds.push(
                    new_id,
                )[e]).owner == owner && olds.push(new_id)[e].id <= s.max_id.spec_get(
                    owner,
                ).id by {
                    if e < olds.len() {
                        assert(olds[e].id <= self.max_id.spec_get(owner).id);
                    }
                }
                assert forall|e: int, f: int|
                    0 <= e < f < olds.push(new_id).len() implies olds.push(new_id)[e]
                        != olds.push(new_id)[f] by {
                    if f == olds.len() {
                        assert(olds[e].id <= self.max_id.spec_get(owner).id);
                    }
                }
            }
            assert(ids_ok(
                s.root_set.spec_get(owner.spec_switch_side())@,
                owner.spec_switch_side(),
                s.max_id.spec_get(owner.spec_switch_side()),
            ));
            assert(s.plan.content@.len() >= 1) by {
                assert(s.plan.view_turns().len() == s.plan.content@.len());
                assert(self.plan.view_turns().len() == self.plan.content@.len());
            }
            assert(s.wf());
        }
        Some(s)
    }
}

} // verus!

verus! {

/// An organ on the board whose identifier is `c` and whose parent is `p`
/// (and which is not its own parent): one edge of the parent→children
/// adjacency.
pub open spec fn is_child_edge(cells: Seq<Cell>, p: Id, c: Id) -> bool {
    exists|i: int|
        0 <= i < cells.len() && organe_of(#[trigger] cells[i]) is Some && organe_of(
            cells[i],
        )->0.id == c && organe_of(cells[i])->0.parent_id == p && c != p
}

/// A descent: it starts at some attacked organ and every later element is a
/// child of the one before it.
pub open spec fn valid_chain(cells: Seq<Cell>, attacks: Seq<Attacking>, chain: Seq<Id>) -> bool {
    &&& chain.len() >= 1
    &&& exists|k: int| 0 <= k < attacks.len() && (#[trigger] attacks[k]).target_id == chain[0]
    &&& forall|i: int|
        0 < i < chain.len() ==> is_child_edge(cells, chain[i - 1], #[trigger] chain[i])
}

/// An identifier marked for destruction: an attacked organ or one of its
/// transitive descendants over the parent→children adjacency.
pub open spec fn doomed(cells: Seq<Cell>, attacks: Seq<Attacking>, y: Id) -> bool {
    exists|chain: Seq<Id>| valid_chain(cells, attacks, chain) && chain.last() == y
}

/// Every descent of at most `len_bound` steps ends inside `r`.
pub open spec fn chains_covered(
    cells: Seq<Cell>,
    attacks: Seq<Attacking>,
    r: Seq<Id>,
    len_bound: int,
) -> bool {
    forall|chain: Seq<Id>|
        valid_chain(cells, attacks, chain) && chain.len() <= len_bound ==> r.contains(
            chain.last(),
        )
}

/// `r` is closed under the parent→children adjacency.
pub open spec fn closed_under_children(cells: Seq<Cell>, r: Seq<Id>) -> bool {
    forall|i: int|
        0 <= i < cells.len() && organe_of(#[trigger] cells[i]) is Some && organe_of(
            cells[i],
        )->0.id != organe_of(cells[i])->0.parent_id && r.contains(
            organe_of(cells[i])->0.parent_id,
        ) ==> r.contains(organe_of(cells[i])->0.id)
}

/// Pushing onto an identifier list keeps everything it contained.
pub proof fn lemma_push_contains(s: Seq<Id>, x: Id)
    ensures
        forall|y: Id| #![auto] s.contains(y) ==> s.push(x).contains(y),
        s.push(x).contains(x),
        forall|y: Id| #![auto] s.push(x).contains(y) ==> s.contains(y) || y == x,
{
    assert forall|y: Id| #![auto] s.contains(y) implies s.push(x).contains(y) by {
        let k = choose|k: int| 0 <= k < s.len() && s[k] == y;
        assert(s.push(x)[k] == y);
    }
    assert(s.push(x)[s.len() as int] == x);
    assert forall|y: Id| #![auto] s.push(x).contains(y) implies s.contains(y) || y == x by {
        let k = choose|k: int| 0 <= k < s.push(x).len() && s.push(x)[k] == y;
        if k < s.len() {
            assert(s[k] == y);
        }
    }
}

/// Dropping the last element of a descent of two or more steps leaves a
/// descent.
proof fn lemma_chain_prefix(cells: Seq<Cell>, attacks: Seq<Attacking>, chain: Seq<Id>)
    requires
        valid_chain(cells, attacks, chain),
        chain.len() >= 2,
    ensures
        valid_chain(cells, attacks, chain.drop_last()),
        chain.drop_last().last() == chain[chain.len() - 2],
        is_child_edge(cells, chain[chain.len() - 2], chain.last()),
{
    let p = chain.drop_last();
    assert(p[0] == chain[0]);
    assert forall|i: int| 0 < i < p.len() implies is_child_edge(cells, p[i - 1], #[trigger] p[i]) by {
        assert(p[i] == chain[i]);
        assert(p[i - 1] == chain[i - 1]);
    }
    assert(is_child_edge(cells, chain[chain.len() - 1 - 1], chain[chain.len() - 1]));
}

/// Along a descent the identifier numbers rise by at least one per step,
/// because every child is numbered after its parent.
proof fn lemma_chain_ascending(
    cells: Seq<Cell>,
    attacks: Seq<Attacking>,
    chain: Seq<Id>,
    i: int,
)
    requires
        valid_chain(cells, attacks, chain),
        forall|k: int|
            0 <= k < cells.len() && organe_of(#[trigger] cells[k]) is Some && organe_of(
                cells[k],
            )->0.id != organe_of(cells[k])->0.parent_id ==> organe_of(
                cells[k],
            )->0.parent_id.id < organe_of(cells[k])->0.id.id,
        0 <= i < chain.len(),
    ensures
        chain[i].id >= chain[0].id + i,
    decreases i,
{
    if i > 0 {
        lemma_chain_ascending(cells, attacks, chain, i - 1);
        assert(is_child_edge(cells, chain[i - 1], chain[i]));
        let k = choose|k: int|
            0 <= k < cells.len() && organe_of(#[trigger] cells[k]) is Some && organe_of(
                cells[k],
            )->0.id == chain[i] && organe_of(cells[k])->0.parent_id == chain[i - 1] && chain[i]
                != chain[i - 1];
        assert(organe_of(cells[k])->0.parent_id.id < organe_of(cells[k])->0.id.id);
    }
}

/// No descent is longer than the identifier space.
proof fn lemma_chain_len_bound(cells: Seq<Cell>, attacks: Seq<Attacking>, chain: Seq<Id>)
    requires
        valid_chain(cells, attacks, chain),
        forall|k: int|
            0 <= k < cells.len() && organe_of(#[trigger] cells[k]) is Some && organe_of(
                cells[k],
            )->0.id != organe_of(cells[k])->0.parent_id ==> organe_of(
                cells[k],
            )->0.parent_id.id < organe_of(cells[k])->0.id.id,
    ensures
        chain.len() <= 256,
{
    if chain.len() > 256 {
        lemma_chain_ascending(cells, attacks, chain, 256);
        assert(chain[256].id >= chain[0].id + 256);
    }
}

/// A set that holds every attacked identifier and is closed under the
/// parent→children adjacency holds the end of every descent.
proof fn lemma_closed_covers(
    cells: Seq<Cell>,
    attacks: Seq<Attacking>,
    r: Seq<Id>,
    chain: Seq<Id>,
)
    requires
        valid_chain(cells, attacks, chain),
        forall|k: int| 0 <= k < attacks.len() ==> r.contains((#[trigger] attacks[k]).target_id),
        closed_under_children(cells, r),
    ensures
        r.contains(chain.last()),
    decreases chain.len(),
{
    if chain.len() == 1 {
        let k = choose|k: int|
            0 <= k < attacks.len() && (#[trigger] attacks[k]).target_id == chain[0];
    } else {
        lemma_chain_prefix(cells, attacks, chain);
        lemma_closed_covers(cells, attacks, r, chain.drop_last());
        let w = choose|w: int|
            0 <= w < cells.len() && organe_of(#[trigger] cells[w]) is Some && organe_of(
                cells[w],
            )->0.id == chain.last() && organe_of(cells[w])->0.parent_id == chain[chain.len() - 2]
                && chain.last() != chain[chain.len() - 2];
    }
}

/// Without a recorded attack nothing is doomed: every descent needs an
/// attacked head.
proof fn lemma_no_attacks_no_doom(cells: Seq<Cell>, attacks: Seq<Attacking>)
    requires
        attacks.len() == 0,
    ensures
        forall|y: Id| #![auto] !doomed(cells, attacks, y),
{
    assert forall|y: Id| #![auto] !doomed(cells, attacks, y) by {
        if doomed(cells, attacks, y) {
            let chain = choose|chain: Seq<Id>|
                valid_chain(cells, attacks, chain) && chain.last() == y;
        }
    }
}

/// A child of a doomed organ is doomed: extend the descent by one step.
proof fn lemma_doomed_child(cells: Seq<Cell>, attacks: Seq<Attacking>, p: Id, c: Id)
    requires
        doomed(cells, attacks, p),
        is_child_edge(cells, p, c),
    ensures
        doomed(cells, attacks, c),
{
    let pchain = choose|pchain: Seq<Id>|
        valid_chain(cells, attacks, pchain) && pchain.last() == p;
    let nchain = pchain.push(c);
    assert(nchain[0] == pchain[0]);
    assert forall|i: int|
        0 < i < nchain.len() implies is_child_edge(cells, nchain[i - 1], #[trigger] nchain[i]) by {
        if i < nchain.len() - 1 {
            assert(nchain[i] == pchain[i]);
            assert(nchain[i - 1] == pchain[i - 1]);
        } else {
            assert(nchain[i] == c);
            assert(nchain[i - 1] == pchain.last());
        }
    }
    assert(valid_chain(cells, attacks, nchain));
    assert(nchain.last() == c);
}

/// One scanned cell extends coverage: after it, every descent one step
/// longer whose end sits on an already-scanned cell is covered.
proof fn lemma_scan_advance(
    cells: Seq<Cell>,
    attacks: Seq<Attacking>,
    r_entry: Seq<Id>,
    r: Seq<Id>,
    j: int,
    pass: int,
)
    requires
        0 <= j < cells.len(),
        pass >= 0,
        forall|i: int, k: int|
            0 <= i < k < cells.len() && organe_of(#[trigger] cells[i]) is Some && organe_of(
                #[trigger] cells[k],
            ) is Some ==> organe_of(cells[i])->0.id != organe_of(cells[k])->0.id,
        forall|y: Id| #![auto] r_entry.contains(y) ==> r.contains(y),
        chains_covered(cells, attacks, r_entry, pass + 1),
        forall|chain: Seq<Id>|
            valid_chain(cells, attacks, chain) && chain.len() == pass + 2 && (exists|i: int|
                0 <= i < j && organe_of(#[trigger] cells[i]) is Some && organe_of(
                    cells[i],
                )->0.id == chain.last()) ==> r_entry.contains(chain.last()),
        organe_of(cells[j]) is Some ==> (organe_of(cells[j])->0.id == organe_of(
            cells[j],
        )->0.parent_id || !r.contains(organe_of(cells[j])->0.parent_id) || r.contains(
            organe_of(cells[j])->0.id,
        )),
    ensures
        chains_covered(cells, attacks, r, pass + 1),
        forall|chain: Seq<Id>|
            valid_chain(cells, attacks, chain) && chain.len() == pass + 2 && (exists|i: int|
                0 <= i < j + 1 && organe_of(#[trigger] cells[i]) is Some && organe_of(
                    cells[i],
                )->0.id == chain.last()) ==> r.contains(chain.last()),
{
    assert(chains_covered(cells, attacks, r, pass + 1)) by {
        assert forall|chain: Seq<Id>|
            valid_chain(cells, attacks, chain) && chain.len() <= pass + 1 implies r.contains(
            chain.last(),
        ) by {
            assert(r_entry.contains(chain.last()));
        }
    }
    assert forall|chain: Seq<Id>|
        valid_chain(cells, attacks, chain) && chain.len() == pass + 2 && (exists|i: int|
            0 <= i < j + 1 && organe_of(#[trigger] cells[i]) is Some && organe_of(cells[i])->0.id
                == chain.last()) implies r.contains(chain.last()) by {
        let i = choose|i: int|
            0 <= i < j + 1 && organe_of(#[trigger] cells[i]) is Some && organe_of(cells[i])->0.id
                == chain.last();
        if i < j {
            assert(r_entry.contains(chain.last()));
        } else {
            let oo = organe_of(cells[j])->0;
            lemma_chain_prefix(cells, attacks, chain);
            let w = choose|w: int|
                0 <= w < cells.len() && organe_of(#[trigger] cells[w]) is Some && organe_of(
                    cells[w],
                )->0.id == chain.last() && organe_of(cells[w])->0.parent_id == chain[chain.len()
                - 2] && chain.last() != chain[chain.len() - 2];
            if w != j {
                assert(organe_of(cells[w])->0.id != organe_of(cells[j])->0.id);
            }
            assert(chain[chain.len() - 2] == oo.parent_id);
            assert(chain.last() == oo.id);
            assert(chain.drop_last().len() == pass + 1);
            assert(r_entry.contains(oo.parent_id));
            assert(r.contains(oo.parent_id));
            assert(r.contains(oo.id));
        }
    }
}

impl State {
    /// The identifiers destroyed at end of turn: every organ attacked this
    /// turn together with all of its transitive descendants over the
    /// parent→children adjacency, the union over all recorded attacks, and
    /// nothing else. An identifier reached twice is collected once.
    #[verifier::rlimit(100)]
    pub fn destroyed_ids(&self) -> (r: Vec<Id>)
        requires
            self.wf(),
        ensures
            forall|y: Id| #![auto] r@.contains(y) <==> doomed(self.cells@, self.attacks@, y),
            forall|e: int, f: int| 0 <= e < f < r@.len() ==> r@[e] != r@[f],
    {
        let cs_n = self.cells.len();
        let mut r: Vec<Id> = Vec::new();
        if self.attacks.len() == 0 {
            proof {
                lemma_no_attacks_no_doom(self.cells@, self.attacks@);
            }
            return r;
        }
        let mut t: usize = 0;
        while t < self.attacks.len()
            invariant
                self.wf(),
                t <= self.attacks@.len(),
                forall|y: Id| #![auto] r@.contains(y) ==> doomed(self.cells@, self.attacks@, y),
                forall|e: int, f: int| 0 <= e < f < r@.len() ==> r@[e] != r@[f],
                forall|k: int|
                    0 <= k < t as int ==> r@.contains((#[trigger] self.attacks@[k]).target_id),
            decreases self.attacks@.len() - t,
        {
            let a = self.attacks[t];
            if !contains_id(&r, a.target_id) {
                proof {
                    let chain = seq![a.target_id];
                    assert(chain[0] == a.target_id);
                    assert(valid_chain(self.cells@, self.attacks@, chain));
                    assert(chain.last() == a.target_id);
                    assert(doomed(self.cells@, self.attacks@, a.target_id));
                    lemma_push_contains(r@, a.target_id);
                }
                let ghost r_old = r@;
                r.push(a.target_id);
                proof {
                    assert(r@ == r_old.push(a.target_id));
                    assert forall|e: int, f: int|
                        0 <= e < f < r@.len() implies r@[e] != r@[f] by {
                        if f == r@.len() - 1 {
                            assert(r_old[e] == r@[e]);
                            assert(r_old.contains(r@[e]));
                        }
                    }
                    assert forall|y: Id| #![auto]
                        r@.contains(y) implies doomed(self.cells@, self.attacks@, y) by {
                        if y != a.target_id {
                            assert(r_old.contains(y));
                        }
                    }
                }
            }
            t = t + 1;
        }
        let mut pass: u16 = 0;
        let mut done = false;
        while pass < 256 && !done
            invariant
                self.wf(),
                cs_n == self.cells@.len(),
                forall|y: Id| #![auto] r@.contains(y) ==> doomed(self.cells@, self.attacks@, y),
                forall|e: int, f: int| 0 <= e < f < r@.len() ==> r@[e] != r@[f],
                forall|k: int|
                    0 <= k < self.attacks@.len() ==> r@.contains(
                        (#[trigger] self.attacks@[k]).target_id,
                    ),
                chains_covered(self.cells@, self.attacks@, r@, pass as int + 1),
                done ==> closed_under_children(self.cells@, r@),
            decreases 256 - pass as int,
        {
            let ghost r_start = r@;
            let mut changed = false;
            let mut j: usize = 0;
            while j < cs_n
                invariant
                    self.wf(),
                    cs_n == self.cells@.len(),
                    j <= cs_n,
                    pass < 256,
                    forall|y: Id| #![auto]
                        r@.contains(y) ==> doomed(self.cells@, self.attacks@, y),
                    forall|e: int, f: int| 0 <= e < f < r@.len() ==> r@[e] != r@[f],
                    forall|k: int|
                        0 <= k < self.attacks@.len() ==> r@.contains(
                            (#[trigger] self.attacks@[k]).target_id,
                        ),
                    chains_covered(self.cells@, self.attacks@, r@, pass as int + 1),
                    forall|chain: Seq<Id>|
                        valid_chain(self.cells@, self.attacks@, chain) && chain.len() == pass
                            as int + 2 && (exists|i: int|
                            0 <= i < j as int && organe_of(#[trigger] self.cells@[i]) is Some
                                && organe_of(self.cells@[i])->0.id == chain.last())
                            ==> r@.contains(chain.last()),
                    !changed ==> forall|i: int|
                        0 <= i < j as int && organe_of(#[trigger] self.cells@[i]) is Some
                            && organe_of(self.cells@[i])->0.id != organe_of(
                            self.cells@[i],
                        )->0.parent_id && r@.contains(organe_of(self.cells@[i])->0.parent_id)
                            ==> r@.contains(organe_of(self.cells@[i])->0.id),
                decreases cs_n - j,
            {
                let ghost r_entry = r@;
                match self.cells[j].entity {
                    Entity::Organe(o) => {
                        if !(o.id == o.parent_id) && contains_id(&r, o.parent_id) && !contains_id(
                            &r,
                            o.id,
                        ) {
                            proof {
                                // the parent is doomed, so the child is too
                                assert(is_child_edge(self.cells@, o.parent_id, o.id)) by {
                                    assert(organe_of(self.cells@[j as int]) is Some);
                                }
                                lemma_doomed_child(self.cells@, self.attacks@, o.parent_id, o.id);
                                lemma_push_contains(r@, o.id);
                            }
                            let ghost r_old = r@;
                            r.push(o.id);
                            changed = true;
                            proof {
                                assert(r@ == r_old.push(o.id));
                                assert forall|e: int, f: int|
                                    0 <= e < f < r@.len() implies r@[e] != r@[f] by {
                                    if f == r@.len() - 1 {
                                        assert(r_old[e] == r@[e]);
                                        assert(r_old.contains(r@[e]));
                                    }
                                }
                                assert forall|y: Id| #![auto]
                                    r@.contains(y) implies doomed(
                                    self.cells@,
                                    self.attacks@,
                                    y,
                                ) by {
                                    if y != o.id {
                                        assert(r_old.contains(y));
                                    }
                                }
                            }
                        }
                        proof {
                            let oo = organe_of(self.cells@[j as int])->0;
                            assert(oo == o);
                            assert(oo.id == oo.parent_id || !r@.contains(oo.parent_id)
                                || r@.contains(oo.id));
                        }
                    },
                    _ => {},
                }
                proof {
                    assert forall|y: Id| #![auto]
                        r_entry.contains(y) implies r@.contains(y) by {
                        if !(r@ =~= r_entry) {
                            let k = choose|k: int| 0 <= k < r_entry.len() && r_entry[k] == y;
                            assert(r@[k] == y);
                        }
                    }
                    lemma_scan_advance(
                        self.cells@,
                        self.attacks@,
                        r_entry,
                        r@,
                        j as int,
                        pass as int,
                    );
                }
                j = j + 1;
            }
            proof {
                // a full scan extends coverage by one step of descent
                assert forall|chain: Seq<Id>|
                    valid_chain(self.cells@, self.attacks@, chain) && chain.len() <= pass as int
                        + 2 implies r@.contains(chain.last()) by {
                    if chain.len() == pass as int + 2 {
                        lemma_chain_prefix(self.cells@, self.attacks@, chain);
                        let w = choose|w: int|
                            0 <= w < self.cells@.len() && organe_of(
                                #[trigger] self.cells@[w],
                            ) is Some && organe_of(self.cells@[w])->0.id == chain.last()
                                && organe_of(self.cells@[w])->0.parent_id == chain[chain.len()
                                - 2] && chain.last() != chain[chain.len() - 2];
                    }
                }
            }
            if !changed {
                done = true;
            }
            pass = pass + 1;
        }
        proof {
            if done {
                lemma_destroyed_complete_closed(self.cells@, self.attacks@, r@);
            } else {
                assert forall|k: int|
                    0 <= k < self.cells@.len() && organe_of(#[trigger] self.cells@[k]) is Some
                        && organe_of(self.cells@[k])->0.id != organe_of(
                        self.cells@[k],
                    )->0.parent_id implies organe_of(self.cells@[k])->0.parent_id.id < organe_of(
                    self.cells@[k],
                )->0.id.id by {
                    assert(self.cell_ok(self.cells@[k]));
                }
                lemma_destroyed_complete_bounded(self.cells@, self.attacks@, r@);
            }
        }
        r
    }
}

/// A closed set holding every attacked identifier covers everything doomed.
proof fn lemma_destroyed_complete_closed(cells: Seq<Cell>, attacks: Seq<Attacking>, r: Seq<Id>)
    requires
        forall|k: int| 0 <= k < attacks.len() ==> r.contains((#[trigger] attacks[k]).target_id),
        closed_under_children(cells, r),
    ensures
        forall|y: Id| #![auto] doomed(cells, attacks, y) ==> r.contains(y),
{
    assert forall|y: Id| #![auto] doomed(cells, attacks, y) implies r.contains(y) by {
        let chain = choose|chain: Seq<Id>|
            valid_chain(cells, attacks, chain) && chain.last() == y;
        lemma_closed_covers(cells, attacks, r, chain);
    }
}

/// A set covering every descent of at most the identifier-space length
/// covers everything doomed.
proof fn lemma_destroyed_complete_bounded(cells: Seq<Cell>, attacks: Seq<Attacking>, r: Seq<Id>)
    requires
        chains_covered(cells, attacks, r, 257),
        forall|k: int|
            0 <= k < cells.len() && organe_of(#[trigger] cells[k]) is Some && organe_of(
                cells[k],
            )->0.id != organe_of(cells[k])->0.parent_id ==> organe_of(
                cells[k],
            )->0.parent_id.id < organe_of(cells[k])->0.id.id,
    ensures
        forall|y: Id| #![auto] doomed(cells, attacks, y) ==> r.contains(y),
{
    assert forall|y: Id| #![auto] doomed(cells, attacks, y) implies r.contains(y) by {
        let chain = choose|chain: Seq<Id>|
            valid_chain(cells, attacks, chain) && chain.last() == y;
        lemma_chain_len_bound(cells, attacks, chain);
    }
}

} // verus!

verus! {

/// The resource vector after crediting one unit per harvest entry among the
/// first `n`, each of its own protein kind.
pub open spec fn credited_upto(base: Ressource, hs: Seq<(Coord, Harvesting)>, n: int) -> Ressource
    decreases n,
{
    if n <= 0 {
        base
    } else {
        credited_upto(base, hs, n - 1).spec_ajout(hs[n - 1].1.protein, 1)
    }
}

pub open spec fn spec_credited(base: Ressource, hs: Seq<(Coord, Harvesting)>) -> Ressource {
    credited_upto(base, hs, hs.len() as int)
}

/// The first `n` cells with every doomed organ taken out.
pub open spec fn cells_destroy_upto(
    cells: Seq<Cell>,
    attacks: Seq<Attacking>,
    n: int,
) -> Seq<Cell>
    decreases n,
{
    if n <= 0 {
        Seq::empty()
    } else {
        let prev = cells_destroy_upto(cells, attacks, n - 1);
        match organe_of(cells[n - 1]) {
            Some(o) => if doomed(cells, attacks, o.id) {
                prev
            } else {
                prev.push(cells[n - 1])
            },
            None => prev.push(cells[n - 1]),
        }
    }
}

pub open spec fn spec_cells_destroy(cells: Seq<Cell>, attacks: Seq<Attacking>) -> Seq<Cell> {
    cells_destroy_upto(cells, attacks, cells.len() as int)
}

/// Destruction keeps every undoomed cell, in order, and removes only doomed
/// organs; with nothing doomed the board is untouched.
proof fn lemma_cells_destroy(cells: Seq<Cell>, attacks: Seq<Attacking>, n: int)
    requires
        0 <= n <= cells.len(),
    ensures
        forall|e: int| #![trigger cells_destroy_upto(cells, attacks, n)[e]]
            0 <= e < cells_destroy_upto(cells, attacks, n).len() ==> exists|k: int|
                0 <= k < n && cells[k] == cells_destroy_upto(cells, attacks, n)[e],
        cells_destroy_upto(cells, attacks, n).len() <= n,
        (forall|y: Id| #![auto] !doomed(cells, attacks, y)) ==> cells_destroy_upto(
            cells,
            attacks,
            n,
        ) == cells.subrange(0, n),
        (forall|i: int, j: int|
            0 <= i < j < n ==> (#[trigger] cells[i]).coord != (#[trigger] cells[j]).coord)
            ==> forall|e: int, f: int|
            0 <= e < f < cells_destroy_upto(cells, attacks, n).len() ==> (
            #[trigger] cells_destroy_upto(cells, attacks, n)[e]).coord != (
            #[trigger] cells_destroy_upto(cells, attacks, n)[f]).coord,
        (forall|i: int, j: int|
            0 <= i < j < n && organe_of(#[trigger] cells[i]) is Some && organe_of(
                #[trigger] cells[j],
            ) is Some ==> organe_of(cells[i])->0.id != organe_of(cells[j])->0.id) ==> forall|
            e: int,
            f: int,
        |
            0 <= e < f < cells_destroy_upto(cells, attacks, n).len() && organe_of(
                #[trigger] cells_destroy_upto(cells, attacks, n)[e],
            ) is Some && organe_of(#[trigger] cells_destroy_upto(cells, attacks, n)[f]) is Some
                ==> organe_of(cells_destroy_upto(cells, attacks, n)[e])->0.id != organe_of(
                cells_destroy_upto(cells, attacks, n)[f],
            )->0.id,
    decreases n,
{
    if n > 0 {
        lemma_cells_destroy(cells, attacks, n - 1);
        let prev = cells_destroy_upto(cells, attacks, n - 1);
        let cur = cells_destroy_upto(cells, attacks, n);
        if (forall|y: Id| #![auto] !doomed(cells, attacks, y)) {
            assert(prev == cells.subrange(0, n - 1));
            match organe_of(cells[n - 1]) {
                Some(o) => {
                    assert(!doomed(cells, attacks, o.id));
                    assert(cur =~= cells.subrange(0, n));
                },
                None => {
                    assert(cur =~= cells.subrange(0, n));
                },
            }
        }
        if cur.len() == prev.len() + 1 {
            if (forall|i: int, j: int|
                0 <= i < j < n ==> (#[trigger] cells[i]).coord != (#[trigger] cells[j]).coord) {
                assert forall|e: int, f: int| 0 <= e < f < cur.len() implies (
                #[trigger] cur[e]).coord != (#[trigger] cur[f]).coord by {
                    if f == cur.len() - 1 {
                        let k = choose|k: int| 0 <= k < n - 1 && cells[k] == prev[e];
                        assert(cells[k].coord != cells[n - 1].coord);
                    }
                }
            }
            if (forall|i: int, j: int|
                0 <= i < j < n && organe_of(#[trigger] cells[i]) is Some && organe_of(
                    #[trigger] cells[j],
                ) is Some ==> organe_of(cells[i])->0.id != organe_of(cells[j])->0.id) {
                assert forall|e: int, f: int|
                    0 <= e < f < cur.len() && organe_of(#[trigger] cur[e]) is Some && organe_of(
                        #[trigger] cur[f],
                    ) is Some implies organe_of(cur[e])->0.id != organe_of(cur[f])->0.id by {
                    if f == cur.len() - 1 {
                        let k = choose|k: int| 0 <= k < n - 1 && cells[k] == prev[e];
                        if organe_of(cells[k]) is Some && organe_of(cells[n - 1]) is Some {
                            assert(organe_of(cells[k])->0.id != organe_of(cells[n - 1])->0.id);
                        }
                    }
                }
            }
        }
    }
}

/// The first `n` identifiers with the doomed ones taken out.
pub open spec fn ids_undoomed_upto(
    ids: Seq<Id>,
    cells: Seq<Cell>,
    attacks: Seq<Attacking>,
    n: int,
) -> Seq<Id>
    decreases n,
{
    if n <= 0 {
        Seq::empty()
    } else {
        let prev = ids_undoomed_upto(ids, cells, attacks, n - 1);
        if doomed(cells, attacks, ids[n - 1]) {
            prev
        } else {
            prev.push(ids[n - 1])
        }
    }
}

pub open spec fn spec_ids_undoomed(ids: Seq<Id>, cells: Seq<Cell>, attacks: Seq<Attacking>) -> Seq<
    Id,
> {
    ids_undoomed_upto(ids, cells, attacks, ids.len() as int)
}

/// Filtering the doomed identifiers out keeps every other one, in order,
/// exactly once each when the input had no duplicates; with nothing doomed
/// the list is untouched.
proof fn lemma_ids_undoomed(ids: Seq<Id>, cells: Seq<Cell>, attacks: Seq<Attacking>, n: int)
    requires
        0 <= n <= ids.len(),
    ensures
        forall|e: int| #![trigger ids_undoomed_upto(ids, cells, attacks, n)[e]]
            0 <= e < ids_undoomed_upto(ids, cells, attacks, n).len() ==> exists|k: int|
                0 <= k < n && ids[k] == ids_undoomed_upto(ids, cells, attacks, n)[e],
        ids_undoomed_upto(ids, cells, attacks, n).len() <= n,
        (forall|y: Id| #![auto] !doomed(cells, attacks, y)) ==> ids_undoomed_upto(
            ids,
            cells,
            attacks,
            n,
        ) == ids.subrange(0, n),
        (forall|i: int, j: int| 0 <= i < j < n ==> ids[i] != ids[j]) ==> forall|e: int, f: int|
            0 <= e < f < ids_undoomed_upto(ids, cells, attacks, n).len() ==> ids_undoomed_upto(
                ids,
                cells,
                attacks,
                n,
            )[e] != ids_undoomed_upto(ids, cells, attacks, n)[f],
    decreases n,
{
    if n > 0 {
        lemma_ids_undoomed(ids, cells, attacks, n - 1);
        let prev = ids_undoomed_upto(ids, cells, attacks, n - 1);
        let cur = ids_undoomed_upto(ids, cells, attacks, n);
        if (forall|y: Id| #![auto] !doomed(cells, attacks, y)) {
            assert(prev == ids.subrange(0, n - 1));
            assert(!doomed(cells, attacks, ids[n - 1]));
            assert(cur =~= ids.subrange(0, n));
        }
        if (forall|i: int, j: int| 0 <= i < j < n ==> ids[i] != ids[j]) && !doomed(
            cells,
            attacks,
            ids[n - 1],
        ) {
            assert forall|e: int, f: int| 0 <= e < f < cur.len() implies cur[e] != cur[f] by {
                if f == cur.len() - 1 {
                    let k = choose|k: int| 0 <= k < n - 1 && ids[k] == prev[e];
                    assert(ids[k] != ids[n - 1]);
                }
            }
        }
    }
}

} // verus!

verus! {

impl State {
    /// What closing the turn on `self` yields: the harvest is credited, the
    /// attacked organisms and all their descendants — exactly those — leave
    /// the board, the surviving roots owe a decision again, the attack
    /// record is cleared and the log opens a new turn. With no attack the
    /// board and its adjacency are untouched.
    pub open spec fn turn_resolved(self, s: State) -> bool {
        &&& s.wf()
        &&& s.dimension == self.dimension
        &&& s.cells@ == spec_cells_destroy(self.cells@, self.attacks@)
        &&& (self.attacks@.len() == 0 ==> s.cells@ == self.cells@)
        &&& (self.attacks@.len() == 0 ==> forall|parent: Id|
            s.spec_childs_of(parent) == self.spec_childs_of(parent))
        &&& s.ressources.spec_get(Owner::Me) == spec_credited(
            self.ressources.spec_get(Owner::Me),
            self.spec_harvests(),
        )
        &&& s.ressources.spec_get(Owner::Ennemy) == self.ressources.spec_get(Owner::Ennemy)
        &&& s.attacks@.len() == 0
        &&& s.root_set.spec_get(Owner::Me)@ == spec_ids_undoomed(
            self.root_set.spec_get(Owner::Me)@,
            self.cells@,
            self.attacks@,
        )
        &&& s.root_set.spec_get(Owner::Ennemy)@ == spec_ids_undoomed(
            self.root_set.spec_get(Owner::Ennemy)@,
            self.cells@,
            self.attacks@,
        )
        &&& s.action_set.spec_get(Owner::Me)@ == s.root_set.spec_get(Owner::Me)@
        &&& s.action_set.spec_get(Owner::Ennemy)@ == s.root_set.spec_get(Owner::Ennemy)@
        &&& s.max_id == self.max_id
        &&& s.plan.view_turns() == self.plan.view_turns().push(Seq::<Decision>::empty())
        &&& s.action_count == self.action_count
    }

    /// Close the turn. Each harvest entry earns its owner one unit of the
    /// harvested protein kind (the protein cell is not consumed). Every
    /// organ attacked this turn is destroyed together with all of its
    /// transitive descendants — exactly those, and nothing else — freeing
    /// their cells. The surviving roots are all owed a decision again, the
    /// recorded attacks are cleared, and the planification opens a new,
    /// empty turn. With no attack recorded this turn, the board — and with
    /// it the parent→children adjacency — is exactly the predecessor's.
    #[verifier::rlimit(100)]
    pub fn end_turn(&self) -> (r: State)
        requires
            self.wf(),
        ensures
            self.turn_resolved(r),
    {
        // credit the harvest: one unit per harvested protein cell
        let hs = self.harvesting();
        let mut res_me = *self.ressources.get(Owner::Me);
        let mut h: usize = 0;
        while h < hs.len()
            invariant
                h <= hs@.len(),
                res_me == credited_upto(
                    self.ressources.spec_get(Owner::Me),
                    hs@,
                    h as int,
                ),
            decreases hs@.len() - h,
        {
            res_me = res_me.ajout_1(hs[h].1.protein);
            h = h + 1;
        }
        // resolve the recorded attacks: one batched removal
        let destroyed = self.destroyed_ids();
        let n = self.cells.len();
        let mut cells: Vec<Cell> = Vec::new();
        let mut j: usize = 0;
        while j < n
            invariant
                self.wf(),
                n == self.cells@.len(),
                j <= n,
                cells@ == cells_destroy_upto(self.cells@, self.attacks@, j as int),
                forall|y: Id| #![auto]
                    destroyed@.contains(y) <==> doomed(self.cells@, self.attacks@, y),
            decreases n - j,
        {
            let c = self.cells[j];
            match c.entity {
                Entity::Organe(o) => {
                    if !contains_id(&destroyed, o.id) {
                        cells.push(c);
                    }
                },
                _ => {
                    cells.push(c);
                },
            }
            j = j + 1;
        }
        // the surviving roots owe a decision again next turn
        let roots_me = ids_undoomed(self.root_set.get(Owner::Me), &destroyed, self);
        let roots_en = ids_undoomed(self.root_set.get(Owner::Ennemy), &destroyed, self);
        let r = State {
            dimension: self.dimension,
            cells,
            ressources: self.ressources.set(Owner::Me, res_me),
            action_set: OwnerMap::new(copy_ids(&roots_me), copy_ids(&roots_en)),
            root_set: OwnerMap::new(roots_me, roots_en),
            max_id: self.max_id,
            attacks: Vec::new(),
            plan: self.plan.duplicate().new_turn(),
            action_count: self.action_count,
        };
        proof {
            let cs = self.cells@;
            let at = self.attacks@;
            lemma_cells_destroy(cs, at, cs.len() as int);
            lemma_ids_undoomed(self.root_set.spec_get(Owner::Me)@, cs, at, self.root_set.spec_get(Owner::Me)@.len() as int);
            lemma_ids_undoomed(self.root_set.spec_get(Owner::Ennemy)@, cs, at, self.root_set.spec_get(Owner::Ennemy)@.len() as int);
            if at.len() == 0 {
                lemma_no_attacks_no_doom(cs, at);
                assert(r.cells@ == cs.subrange(0, cs.len() as int));
                assert(cs.subrange(0, cs.len() as int) =~= cs);
            }
            // every surviving cell is well formed
            assert forall|k: int| 0 <= k < r.cells@.len() implies r.cell_ok(
                #[trigger] r.cells@[k],
            ) by {
                let k0 = choose|k0: int| 0 <= k0 < cs.len() && cs[k0] == r.cells@[k];
                assert(self.cell_ok(cs[k0]));
            }
            // surviving root lists stay well formed
            assert(ids_ok(
                r.root_set.spec_get(Owner::Me)@,
                Owner::Me,
                self.max_id.spec_get(Owner::Me),
            )) by {
                let rs = r.root_set.spec_get(Owner::Me)@;
                let olds = self.root_set.spec_get(Owner::Me)@;
                assert forall|e: int| 0 <= e < rs.len() implies (#[trigger] rs[e]).owner
                    == Owner::Me && rs[e].id <= self.max_id.spec_get(Owner::Me).id by {
                    let k = choose|k: int| 0 <= k < olds.len() && olds[k] == rs[e];
                }
            }
            assert(ids_ok(
                r.root_set.spec_get(Owner::Ennemy)@,
                Owner::Ennemy,
                self.max_id.spec_get(Owner::Ennemy),
            )) by {
                let rs = r.root_set.spec_get(Owner::Ennemy)@;
                let olds = self.root_set.spec_get(Owner::Ennemy)@;
                assert forall|e: int| 0 <= e < rs.len() implies (#[trigger] rs[e]).owner
                    == Owner::Ennemy && rs[e].id <= self.max_id.spec_get(Owner::Ennemy).id by {
                    let k = choose|k: int| 0 <= k < olds.len() && olds[k] == rs[e];
                }
            }
            assert(r.plan.content@.len() >= 1) by {
                assert(r.plan.view_turns().len() == r.plan.content@.len());
                assert(self.plan.view_turns().len() == self.plan.content@.len());
            }
            assert(r.wf());
            if at.len() == 0 {
                assert forall|parent: Id|
                    r.spec_childs_of(parent) == self.spec_childs_of(parent) by {
                    lemma_childs_upto_eq(r, *self, parent, cs.len() as int);
                }
            }
        }
        r
    }
}

/// The identifier list with the doomed identifiers taken out; `destroyed`
/// is the computed destruction set of the snapshot `s`.
fn ids_undoomed(ids: &Vec<Id>, destroyed: &Vec<Id>, s: &State) -> (r: Vec<Id>)
    requires
        forall|y: Id| #![auto] destroyed@.contains(y) <==> doomed(s.cells@, s.attacks@, y),
    ensures
        r@ == spec_ids_undoomed(ids@, s.cells@, s.attacks@),
{
    let n = ids.len();
    let mut acc: Vec<Id> = Vec::new();
    let mut i: usize = 0;
    while i < n
        invariant
            n == ids@.len(),
            i <= n,
            acc@ == ids_undoomed_upto(ids@, s.cells@, s.attacks@, i as int),
            forall|y: Id| #![auto] destroyed@.contains(y) <==> doomed(s.cells@, s.attacks@, y),
        decreases n - i,
    {
        if !contains_id(destroyed, ids[i]) {
            acc.push(ids[i]);
        }
        i = i + 1;
    }
    acc
}

} // verus!

verus! {

/// Stepping away never lands on the starting coordinate.
proof fn lemma_decaler_moves(a: Coord, d: Direction)
    ensures
        a.spec_decaler(d) != Some(a),
{
    match d {
        Direction::N => {},
        Direction::S => {},
        Direction::E => {},
        Direction::W => {},
    }
}

/// The board after an accepted grow, coordinate by coordinate: the new
/// organ at the target, everything else as before.
proof fn lemma_grow_entity_at(pre: State, g: Grow, post: State, co: Coord)
    requires
        pre.wf(),
        pre.grow_applied(g, post),
    ensures
        co != g.coord ==> post.spec_entity_at(co) == pre.spec_entity_at(co),
        post.spec_entity_at(g.coord) == Some(Entity::Organe(pre.spec_grow_new_organe(g))),
{
    let cs = pre.cells@;
    lemma_cells_remove(cs, g.coord, cs.len() as int);
    let removed = spec_cells_remove(cs, g.coord);
    let new_cell = Cell { coord: g.coord, entity: Entity::Organe(pre.spec_grow_new_organe(g)) };
    assert(post.cells@ == removed.push(new_cell));
    assert(post.cells@[post.cells@.len() - 1] == new_cell);
    assert(post.spec_entity_at(g.coord) == Some(new_cell.entity)) by {
        let j = choose|j: int|
            0 <= j < post.cells@.len() && (#[trigger] post.cells@[j]).coord == g.coord;
        if j < post.cells@.len() - 1 {
            assert(removed[j].coord != g.coord);
        }
    }
    if co != g.coord {
        if exists|i: int| 0 <= i < cs.len() && (#[trigger] cs[i]).coord == co {
            let i = choose|i: int| 0 <= i < cs.len() && (#[trigger] cs[i]).coord == co;
            assert(pre.spec_entity_at(co) == Some(cs[i].entity));
            assert(removed.contains(cs[i]));
            let e = choose|e: int| 0 <= e < removed.len() && removed[e] == cs[i];
            assert(post.cells@[e] == cs[i]);
            assert(post.spec_entity_at(co) == Some(cs[i].entity)) by {
                let j = choose|j: int|
                    0 <= j < post.cells@.len() && (#[trigger] post.cells@[j]).coord == co;
                if j != e {
                    if j < post.cells@.len() - 1 {
                        assert(post.cells@[j].coord != post.cells@[e].coord);
                    }
                }
            }
        } else {
            assert(pre.spec_entity_at(co) is None);
            assert forall|j: int|
                0 <= j < post.cells@.len() implies (#[trigger] post.cells@[j]).coord != co by {
                if j < post.cells@.len() - 1 {
                    let k = choose|k: int| 0 <= k < cs.len() && cs[k] == removed[j];
                }
            }
            assert(post.spec_entity_at(co) is None);
        }
    }
}

/// The harvesting delta of one accepted grow, coordinate by coordinate: the
/// target's claim (if any) disappears with the protein the organ replaces,
/// a new harvester facing a protein cell claims it, and every other claim
/// stands. When the faced cell was already claimed, the earlier harvester
/// in board order keeps the claim; the set of harvested coordinates is the
/// same either way.
#[verifier::rlimit(100)]
pub proof fn lemma_grow_harvest_delta(pre: State, g: Grow, post: State)
    requires
        pre.wf(),
        pre.spec_grow_ok(g),
        pre.grow_applied(g, post),
    ensures
        forall|co: Coord|
            contains_harvest_coord(post.spec_harvests(), co) <==> (co != g.coord && (
            contains_harvest_coord(pre.spec_harvests(), co) || (g.parent_id.owner == Owner::Me
                && g.organe_type is Harvester && g.coord.spec_decaler(g.direction) == Some(co)
                && pre.spec_protein_at(co) is Some))),
{
    let cs = pre.cells@;
    lemma_cells_remove(cs, g.coord, cs.len() as int);
    let removed = spec_cells_remove(cs, g.coord);
    let new_cell = Cell { coord: g.coord, entity: Entity::Organe(pre.spec_grow_new_organe(g)) };
    crate::state::lemma_harvests_characterized(pre);
    crate::state::lemma_harvests_characterized(post);
    assert forall|co: Coord|
        contains_harvest_coord(post.spec_harvests(), co) <==> (co != g.coord && (
        contains_harvest_coord(pre.spec_harvests(), co) || (g.parent_id.owner == Owner::Me
            && g.organe_type is Harvester && g.coord.spec_decaler(g.direction) == Some(co)
            && pre.spec_protein_at(co) is Some))) by {
        lemma_grow_entity_at(pre, g, post, co);
        if contains_harvest_coord(post.spec_harvests(), co) {
            // soundness: some cell of the successor harvests this coordinate
            let e = choose|e: int|
                0 <= e < post.spec_harvests().len() && (#[trigger] post.spec_harvests()[e]).0
                    == co;
            let k2 = choose|k2: int|
                0 <= k2 < post.cells@.len() && post.spec_harvest_entry(
                    #[trigger] post.cells@[k2],
                ) == Some(post.spec_harvests()[e]);
            let c2 = post.cells@[k2];
            let o2 = organe_of(c2)->0;
            let fc = c2.coord.spec_decaler(o2.dir)->0;
            assert(fc == co);
            assert(post.spec_protein_at(co) is Some);
            assert(co != g.coord) by {
                assert(post.spec_entity_at(g.coord) == Some(new_cell.entity));
            }
            if k2 == post.cells@.len() - 1 {
                // the new organ harvests: it is a harvester facing a protein
                assert(c2 == new_cell);
                assert(g.parent_id.owner == Owner::Me);
                assert(g.organe_type is Harvester);
                assert(g.coord.spec_decaler(g.direction) == Some(co)) by {
                    lemma_decaler_moves(g.coord, g.direction);
                }
                assert(pre.spec_protein_at(co) is Some);
            } else {
                // a surviving harvester harvests: it already did before
                let k = choose|k: int| 0 <= k < cs.len() && cs[k] == removed[k2];
                lemma_grow_entity_at(pre, g, post, fc);
                assert(pre.spec_harvest_entry(cs[k]) is Some);
                assert((pre.spec_harvest_entry(cs[k])->0).0 == co);
                assert(contains_harvest_coord(pre.spec_harvests(), co));
            }
        }
        if co != g.coord {
            if contains_harvest_coord(pre.spec_harvests(), co) {
                // the claiming harvester survives and still faces its protein
                let e = choose|e: int|
                    0 <= e < pre.spec_harvests().len() && (#[trigger] pre.spec_harvests()[e]).0
                        == co;
                let k = choose|k: int|
                    0 <= k < cs.len() && pre.spec_harvest_entry(#[trigger] cs[k]) == Some(
                        pre.spec_harvests()[e],
                    );
                let c = cs[k];
                let o = organe_of(c)->0;
                assert(c.coord != g.coord) by {
                    if c.coord == g.coord {
                        assert(pre.spec_entity_at(g.coord) == Some(c.entity)) by {
                            let j = choose|j: int|
                                0 <= j < cs.len() && (#[trigger] cs[j]).coord == g.coord;
                            if j != k {
                                assert(cs[j].coord != cs[k].coord);
                            }
                        }
                        assert(pre.spec_growable_at(g.coord));
                    }
                }
                assert(removed.contains(c));
                let e2 = choose|e2: int| 0 <= e2 < removed.len() && removed[e2] == c;
                assert(post.cells@[e2] == c);
                lemma_grow_entity_at(pre, g, post, c.coord.spec_decaler(o.dir)->0);
                assert(post.spec_harvest_entry(post.cells@[e2]) is Some);
                assert((post.spec_harvest_entry(post.cells@[e2])->0).0 == co);
                assert(contains_harvest_coord(post.spec_harvests(), co));
            } else if g.parent_id.owner == Owner::Me && g.organe_type is Harvester
                && g.coord.spec_decaler(g.direction) == Some(co) && pre.spec_protein_at(
                co,
            ) is Some {
                // the new harvester claims the protein it faces
                assert(post.cells@[post.cells@.len() - 1] == new_cell);
                assert(post.spec_harvest_entry(new_cell) is Some);
                assert((post.spec_harvest_entry(new_cell)->0).0 == co);
                assert(contains_harvest_coord(post.spec_harvests(), co));
            }
        }
    }
}

} // verus!

verus! {

/// Two snapshots over the same board agree on the organ lookup.
pub proof fn lemma_get_by_id_eq(a: State, b: State, id: Id)
    requires
        a.cells@ == b.cells@,
        forall|i: int, j: int|
            0 <= i < j < a.cells@.len() && organe_of(#[trigger] a.cells@[i]) is Some && organe_of(
                #[trigger] a.cells@[j],
            ) is Some ==> organe_of(a.cells@[i])->0.id != organe_of(a.cells@[j])->0.id,
    ensures
        a.spec_get_by_id(id) == b.spec_get_by_id(id),
{
    if exists|i: int|
        0 <= i < a.cells@.len() && organe_of(#[trigger] a.cells@[i]) is Some && organe_of(
            a.cells@[i],
        )->0.id == id {
        let ka = choose|i: int|
            0 <= i < a.cells@.len() && organe_of(#[trigger] a.cells@[i]) is Some && organe_of(
                a.cells@[i],
            )->0.id == id;
        assert(a.spec_get_by_id(id) == Some(crate::state::org_record(a.cells@[ka])));
        assert(b.spec_get_by_id(id) == Some(crate::state::org_record(a.cells@[ka])));
    } else {
        assert(a.spec_get_by_id(id) is None);
        assert(b.spec_get_by_id(id) is None);
    }
}

/// Two snapshots over the same board agree on every spore path.
pub proof fn lemma_spore_path_eq(
    a: State,
    b: State,
    from: Coord,
    dir: Direction,
    target: Coord,
    fuel: int,
)
    requires
        a.cells@ == b.cells@,
        a.dimension == b.dimension,
        forall|i: int, j: int|
            0 <= i < j < a.cells@.len() ==> (#[trigger] a.cells@[i]).coord != (
            #[trigger] a.cells@[j]).coord,
    ensures
        a.spec_spore_path_ok(from, dir, target, fuel) == b.spec_spore_path_ok(
            from,
            dir,
            target,
            fuel,
        ),
    decreases fuel,
{
    if fuel > 0 {
        match from.spec_decaler(dir) {
            Some(c) => {
                lemma_entity_at_eq(a, b, c);
                lemma_spore_path_eq(a, b, c, dir, target, fuel - 1);
            },
            None => {},
        }
    }
}

} // verus!
