//! The move generator, the heuristic scorer and the beam-search driver.

use vstd::prelude::*;
use crate::atome::{Cell, Coord, Direction, Entity, Id, OrganeType, Owner, Protein, Ressource};
use crate::decision::{Decision, Grow, Planification, Spore};
use crate::molecule::OwnerMap;
use crate::state::{organe_of, spec_remove_id, State};
use crate::step::spec_adjacent;
use crate::sampling;

verus! {

/// A snapshot paired with its heuristic weight.
#[derive(Debug)]
pub struct WeightedState {
    pub state: State,
    pub weight: u32,
}

/// The driver's budget: the wall-clock deadline per turn (longer for the
/// very first turn, minus a safety margin), the iteration cap, the frontier
/// width, and the seeded random source. The deadline is checked once per
/// outer iteration; capping the iterations below the deadline makes a run
/// fully reproducible from the seed.
pub struct Managing {
    pub debut: std::time::Instant,
    pub permier_tour_duree_ms: u64,
    pub tours_suivant_duree_ms: u64,
    pub end_offset_ms: u64,
    pub nb_max_iteration: u8,
    pub tour_nb: u8,
    pub rng: rand::rngs::StdRng,
    pub nb_to_choose: usize,
}

impl Managing {
    /// The production budget: one second for the first turn, fifty
    /// milliseconds afterwards, a five-millisecond safety margin, at most a
    /// hundred iterations, and a frontier of at most a hundred and fifty
    /// states.
    pub fn new() -> (r: Self)
        ensures
            r.permier_tour_duree_ms == 1000,
            r.tours_suivant_duree_ms == 50,
            r.end_offset_ms == 5,
            r.nb_max_iteration == 100,
            r.tour_nb == 0,
            r.nb_to_choose == 150,
    {
        Managing {
            debut: sampling::instant_now(),
            permier_tour_duree_ms: 1000,
            tours_suivant_duree_ms: 50,
            end_offset_ms: 5,
            nb_max_iteration: 100,
            tour_nb: 0,
            rng: sampling::rng_from_seed(81),
            nb_to_choose: 150,
        }
    }

    /// Replace the random source, for reproducible runs.
    pub fn with_rng(self, rng: rand::rngs::StdRng) -> (r: Self)
        ensures
            r.permier_tour_duree_ms == self.permier_tour_duree_ms,
            r.tours_suivant_duree_ms == self.tours_suivant_duree_ms,
            r.end_offset_ms == self.end_offset_ms,
            r.nb_max_iteration == self.nb_max_iteration,
            r.tour_nb == self.tour_nb,
            r.nb_to_choose == self.nb_to_choose,
    {
        Managing { rng, ..self }
    }

    /// Cap the number of beam iterations (turns of lookahead).
    pub fn with_nb_max_iteration(self, nb: u8) -> (r: Self)
        ensures
            r.nb_max_iteration == nb,
            r.permier_tour_duree_ms == self.permier_tour_duree_ms,
            r.tours_suivant_duree_ms == self.tours_suivant_duree_ms,
            r.end_offset_ms == self.end_offset_ms,
            r.tour_nb == self.tour_nb,
            r.nb_to_choose == self.nb_to_choose,
    {
        Managing { nb_max_iteration: nb, ..self }
    }

    /// Cap the frontier width: how many states survive between iterations.
    pub fn with_nb_to_choose(self, nb: usize) -> (r: Self)
        ensures
            r.nb_to_choose == nb,
            r.permier_tour_duree_ms == self.permier_tour_duree_ms,
            r.tours_suivant_duree_ms == self.tours_suivant_duree_ms,
            r.end_offset_ms == self.end_offset_ms,
            r.nb_max_iteration == self.nb_max_iteration,
            r.tour_nb == self.tour_nb,
    {
        Managing { nb_to_choose: nb, ..self }
    }

    /// Restart the turn clock.
    pub fn restart(&mut self)
        ensures
            final(self).permier_tour_duree_ms == old(self).permier_tour_duree_ms,
            final(self).tours_suivant_duree_ms == old(self).tours_suivant_duree_ms,
            final(self).end_offset_ms == old(self).end_offset_ms,
            final(self).nb_max_iteration == old(self).nb_max_iteration,
            final(self).tour_nb == old(self).tour_nb,
            final(self).nb_to_choose == old(self).nb_to_choose,
            final(self).rng == old(self).rng,
    {
        self.debut = sampling::instant_now();
    }

    /// The iteration counter the driver runs through.
    pub fn iterations(&self) -> (r: std::ops::Range<u8>)
        ensures
            r.start == 0,
            r.end == self.nb_max_iteration,
    {
        0..self.nb_max_iteration
    }

    /// This turn's wall-clock deadline in milliseconds: the long budget for
    /// the very first turn, the short one afterwards, both less the safety
    /// margin.
    pub open spec fn spec_deadline_ms(self) -> int {
        let budget = if self.tour_nb == 0 {
            self.permier_tour_duree_ms
        } else {
            self.tours_suivant_duree_ms
        };
        if budget >= self.end_offset_ms {
            budget - self.end_offset_ms
        } else {
            0
        }
    }

    /// The deadline rule on a given elapsed time: the budget is exceeded
    /// exactly when more than this turn's deadline has passed.
    pub fn budget_exceeded(&self, elapsed_ms: u64) -> (r: bool)
        ensures
            r == (elapsed_ms > self.spec_deadline_ms()),
    {
        let duree_max = if self.tour_nb == 0 {
            self.permier_tour_duree_ms
        } else {
            self.tours_suivant_duree_ms
        };
        let limit = duree_max.saturating_sub(self.end_offset_ms);
        elapsed_ms > limit
    }

    /// Has this turn's wall-clock budget run out? The deadline rule is
    /// `budget_exceeded`, applied to the clock reading; the reading itself
    /// carries no promise, so neither does the answer — the driver merely
    /// stops early when it says so.
    pub fn is_finished(&self) -> bool {
        self.budget_exceeded(sampling::millis_since(&self.debut))
    }

    /// The random source, for the sampling calls.
    pub fn rng(&mut self) -> (r: &mut rand::rngs::StdRng)
        ensures
            *r == old(self).rng,
            final(self).rng == *final(r),
            final(self).permier_tour_duree_ms == old(self).permier_tour_duree_ms,
            final(self).tours_suivant_duree_ms == old(self).tours_suivant_duree_ms,
            final(self).end_offset_ms == old(self).end_offset_ms,
            final(self).nb_max_iteration == old(self).nb_max_iteration,
            final(self).tour_nb == old(self).tour_nb,
            final(self).nb_to_choose == old(self).nb_to_choose,
    {
        &mut self.rng
    }

    pub fn nb_to_choose(&self) -> (r: usize)
        ensures
            r == self.nb_to_choose,
    {
        self.nb_to_choose
    }

    /// Move on to the next turn: later turns get the shorter budget.
    pub fn next_turn(&mut self)
        ensures
            final(self).tour_nb == if old(self).tour_nb == 255 {
                255u8
            } else {
                (old(self).tour_nb + 1) as u8
            },
            final(self).permier_tour_duree_ms == old(self).permier_tour_duree_ms,
            final(self).tours_suivant_duree_ms == old(self).tours_suivant_duree_ms,
            final(self).end_offset_ms == old(self).end_offset_ms,
            final(self).nb_max_iteration == old(self).nb_max_iteration,
            final(self).nb_to_choose == old(self).nb_to_choose,
            final(self).rng == old(self).rng,
    {
        self.tour_nb = self.tour_nb.saturating_add(1);
    }
}

/// Does a candidate list already claim this coordinate?
pub open spec fn contains_cand_coord(s: Seq<(Coord, Id)>, co: Coord) -> bool {
    exists|k: int| 0 <= k < s.len() && (#[trigger] s[k]).0 == co
}

/// Linear scan for a coordinate among collected candidates.
fn cand_contains(acc: &Vec<(Coord, Id)>, co: Coord) -> (r: bool)
    ensures
        r == contains_cand_coord(acc@, co),
{
    let n = acc.len();
    let mut i: usize = 0;
    while i < n
        invariant
            n == acc@.len(),
            i <= n,
            forall|k: int| 0 <= k < i as int ==> (#[trigger] acc@[k]).0 != co,
        decreases n - i,
    {
        if acc[i].0 == co {
            return true;
        }
        i = i + 1;
    }
    false
}

impl State {
    /// One neighbour considered while collecting grow candidates: the
    /// coordinate one step from `from` in `d` is claimed for `parent` when
    /// it is growable and still unclaimed.
    pub open spec fn cand_step(
        self,
        acc: Seq<(Coord, Id)>,
        from: Coord,
        parent: Id,
        d: Direction,
    ) -> Seq<(Coord, Id)> {
        match from.spec_decaler(d) {
            Some(c) => if self.spec_growable_at(c) && !contains_cand_coord(acc, c) {
                acc.push((c, parent))
            } else {
                acc
            },
            None => acc,
        }
    }

    /// The candidates one cell contributes: an organ of the asked-for
    /// organism claims each growable neighbour, looking north, south, east,
    /// west in that order.
    pub open spec fn cand_cell(self, acc: Seq<(Coord, Id)>, c: Cell, root_id: Id) -> Seq<
        (Coord, Id),
    > {
        match organe_of(c) {
            Some(o) => if o.root_id == root_id {
                self.cand_step(
                    self.cand_step(
                        self.cand_step(
                            self.cand_step(acc, c.coord, o.id, Direction::N),
                            c.coord,
                            o.id,
                            Direction::S,
                        ),
                        c.coord,
                        o.id,
                        Direction::E,
                    ),
                    c.coord,
                    o.id,
                    Direction::W,
                )
            } else {
                acc
            },
            None => acc,
        }
    }

    /// The grow candidates collected over the first `n` cells. Each
    /// growable coordinate adjacent to the organism appears once, claimed
    /// by the earliest adjacent organ in board order.
    pub open spec fn cand_upto(self, root_id: Id, n: int) -> Seq<(Coord, Id)>
        decreases n,
    {
        if n <= 0 {
            Seq::empty()
        } else {
            self.cand_cell(self.cand_upto(root_id, n - 1), self.cells@[n - 1], root_id)
        }
    }

    pub open spec fn spec_grow_candidates(self, root_id: Id) -> Seq<(Coord, Id)> {
        self.cand_upto(root_id, self.cells@.len() as int)
    }

    /// The grow candidates of the organism rooted at `root_id`: every
    /// growable coordinate adjacent to one of its organs, each claimed by
    /// one adjacent organ as parent.
    pub fn grow_candidate(&self, root_id: Id) -> (r: Vec<(Coord, Id)>)
        requires
            self.wf(),
        ensures
            r@ == self.spec_grow_candidates(root_id),
    {
        let n = self.cells.len();
        let mut acc: Vec<(Coord, Id)> = Vec::new();
        let mut i: usize = 0;
        while i < n
            invariant
                self.wf(),
                n == self.cells@.len(),
                i <= n,
                acc@ == self.cand_upto(root_id, i as int),
            decreases n - i,
        {
            let c = self.cells[i];
            match c.entity {
                Entity::Organe(o) => {
                    if o.root_id == root_id {
                        let ghost a0 = acc@;
                        self.cand_push(&mut acc, c.coord, o.id, Direction::N);
                        let ghost a1 = acc@;
                        self.cand_push(&mut acc, c.coord, o.id, Direction::S);
                        let ghost a2 = acc@;
                        self.cand_push(&mut acc, c.coord, o.id, Direction::E);
                        let ghost a3 = acc@;
                        self.cand_push(&mut acc, c.coord, o.id, Direction::W);
                        proof {
                            assert(a1 == self.cand_step(a0, c.coord, o.id, Direction::N));
                            assert(a2 == self.cand_step(a1, c.coord, o.id, Direction::S));
                            assert(a3 == self.cand_step(a2, c.coord, o.id, Direction::E));
                            assert(acc@ == self.cand_step(a3, c.coord, o.id, Direction::W));
                            assert(acc@ == self.cand_cell(a0, self.cells@[i as int], root_id));
                        }
                    }
                },
                _ => {},
            }
            i = i + 1;
        }
        acc
    }

    /// Claim the neighbour one step in `d` from `from` for `parent`, when
    /// it is growable and unclaimed.
    fn cand_push(&self, acc: &mut Vec<(Coord, Id)>, from: Coord, parent: Id, d: Direction)
        requires
            self.wf(),
        ensures
            final(acc)@ == self.cand_step(old(acc)@, from, parent, d),
    {
        match from.decaler(d) {
            Some(c) => {
                match self.get_by_coord(c) {
                    Some(cell) => {
                        if cell.can_grow() {
                            if !cand_contains(acc, c) {
                                acc.push((c, parent));
                            }
                        }
                    },
                    None => {},
                }
            },
            None => {},
        }
    }
}

/// Every collected candidate names as parent an organ of the asked-for
/// organism.
pub open spec fn cand_entry_ok(s: State, root_id: Id, entry: (Coord, Id)) -> bool {
    &&& s.spec_get_by_id(entry.1) is Some
    &&& s.spec_get_by_id(entry.1)->0.root_id == root_id
    &&& entry.1.owner == root_id.owner
}

proof fn lemma_cand_sound(s: State, root_id: Id, n: int)
    requires
        s.wf(),
        0 <= n <= s.cells@.len(),
    ensures
        forall|e: int| #![trigger s.cand_upto(root_id, n)[e]]
            0 <= e < s.cand_upto(root_id, n).len() ==> cand_entry_ok(
                s,
                root_id,
                s.cand_upto(root_id, n)[e],
            ),
    decreases n,
{
    if n > 0 {
        lemma_cand_sound(s, root_id, n - 1);
        let prev = s.cand_upto(root_id, n - 1);
        let cur = s.cand_upto(root_id, n);
        match organe_of(s.cells@[n - 1]) {
            Some(o) => {
                if o.root_id == root_id {
                    assert(cand_entry_ok(s, root_id, (s.cells@[n - 1].coord, o.id))) by {
                        assert(organe_of(s.cells@[n - 1]) is Some && organe_of(
                            s.cells@[n - 1],
                        )->0.id == o.id);
                        assert(s.spec_get_by_id(o.id) is Some);
                        let k = choose|k: int|
                            0 <= k < s.cells@.len() && organe_of(#[trigger] s.cells@[k]) is Some
                                && organe_of(s.cells@[k])->0.id == o.id;
                        if k != n - 1 {
                            assert(organe_of(s.cells@[k])->0.id != organe_of(
                                s.cells@[n - 1],
                            )->0.id);
                        }
                        assert(s.cell_ok(s.cells@[n - 1]));
                    }
                    assert forall|e: int|
                        0 <= e < cur.len() implies cand_entry_ok(
                        s,
                        root_id,
                        #[trigger] cur[e],
                    ) by {
                        if !(exists|f: int| 0 <= f < prev.len() && prev[f] == cur[e]) {
                            assert(cur[e].1 == o.id);
                        } else {
                            let f = choose|f: int| 0 <= f < prev.len() && prev[f] == cur[e];
                        }
                    }
                }
            },
            None => {},
        }
    }
}

} // verus!

verus! {

/// The sixteen grow decisions for one claimed coordinate: every organ kind
/// that can be grown as a child — basic, harvester, tentacle, sporer — in
/// every facing, north, south, east, west. The root kind is never grown as
/// a child.
pub open spec fn spec_grows_of(coord: Coord, parent_id: Id) -> Seq<Grow> {
    seq![
        Grow { parent_id, coord, organe_type: OrganeType::Basic, direction: Direction::N },
        Grow { parent_id, coord, organe_type: OrganeType::Basic, direction: Direction::S },
        Grow { parent_id, coord, organe_type: OrganeType::Basic, direction: Direction::E },
        Grow { parent_id, coord, organe_type: OrganeType::Basic, direction: Direction::W },
        Grow { parent_id, coord, organe_type: OrganeType::Harvester, direction: Direction::N },
        Grow { parent_id, coord, organe_type: OrganeType::Harvester, direction: Direction::S },
        Grow { parent_id, coord, organe_type: OrganeType::Harvester, direction: Direction::E },
        Grow { parent_id, coord, organe_type: OrganeType::Harvester, direction: Direction::W },
        Grow { parent_id, coord, organe_type: OrganeType::Tentacle, direction: Direction::N },
        Grow { parent_id, coord, organe_type: OrganeType::Tentacle, direction: Direction::S },
        Grow { parent_id, coord, organe_type: OrganeType::Tentacle, direction: Direction::E },
        Grow { parent_id, coord, organe_type: OrganeType::Tentacle, direction: Direction::W },
        Grow { parent_id, coord, organe_type: OrganeType::Sporer, direction: Direction::N },
        Grow { parent_id, coord, organe_type: OrganeType::Sporer, direction: Direction::S },
        Grow { parent_id, coord, organe_type: OrganeType::Sporer, direction: Direction::E },
        Grow { parent_id, coord, organe_type: OrganeType::Sporer, direction: Direction::W },
    ]
}

/// All grow decisions for one claimed coordinate: each child organ kind in
/// each facing.
pub fn generer_grow(coord: Coord, parent_id: Id) -> (r: Vec<Grow>)
    ensures
        r@ == spec_grows_of(coord, parent_id),
{
    let types = [OrganeType::Basic, OrganeType::Harvester, OrganeType::Tentacle, OrganeType::Sporer];
    let dirs = [Direction::N, Direction::S, Direction::E, Direction::W];
    let mut r: Vec<Grow> = Vec::new();
    let mut t: usize = 0;
    while t < 4
        invariant
            t <= 4,
            types@ =~= seq![
                OrganeType::Basic,
                OrganeType::Harvester,
                OrganeType::Tentacle,
                OrganeType::Sporer,
            ],
            dirs@ =~= seq![Direction::N, Direction::S, Direction::E, Direction::W],
            r@.len() == 4 * t,
            forall|k: int|
                0 <= k < r@.len() ==> r@[k] == (Grow {
                    parent_id,
                    coord,
                    organe_type: types@[k / 4],
                    direction: dirs@[k % 4],
                }),
        decreases 4 - t,
    {
        let mut d: usize = 0;
        while d < 4
            invariant
                t < 4,
                d <= 4,
                types@ =~= seq![
                    OrganeType::Basic,
                    OrganeType::Harvester,
                    OrganeType::Tentacle,
                    OrganeType::Sporer,
                ],
                dirs@ =~= seq![Direction::N, Direction::S, Direction::E, Direction::W],
                r@.len() == 4 * t + d,
                forall|k: int|
                    0 <= k < r@.len() ==> r@[k] == (Grow {
                        parent_id,
                        coord,
                        organe_type: types@[k / 4],
                        direction: dirs@[k % 4],
                    }),
            decreases 4 - d,
        {
            r.push(Grow { parent_id, coord, organe_type: types[t], direction: dirs[d] });
            d = d + 1;
        }
        t = t + 1;
    }
    proof {
        assert(r@ =~= spec_grows_of(coord, parent_id));
    }
    r
}

impl State {
    /// The growable cells along the straight ray from `from` in `dir`, in
    /// walking order, cut off at the first cell that cannot receive an
    /// organ and after at most `fuel` steps.
    pub open spec fn spec_ray(self, from: Coord, dir: Direction, fuel: int) -> Seq<Coord>
        decreases fuel,
    {
        if fuel <= 0 {
            Seq::empty()
        } else {
            match from.spec_decaler(dir) {
                Some(c) => if self.spec_growable_at(c) {
                    seq![c] + self.spec_ray(c, dir, fuel - 1)
                } else {
                    Seq::empty()
                },
                None => Seq::empty(),
            }
        }
    }

    /// The cells a sporer at `from` facing `dir` could spore to: the
    /// growable cells of its ray, within the hundred-cell reach bound.
    #[verifier::loop_isolation(false)]
    fn ray_targets(&self, from: Coord, dir: Direction) -> (r: Vec<Coord>)
        requires
            self.wf(),
        ensures
            r@ == self.spec_ray(from, dir, 100),
    {
        let mut acc: Vec<Coord> = Vec::new();
        let mut curr = from;
        let mut k: u8 = 0;
        while k < 100
            invariant
                k <= 100,
                acc@.len() == k as int,
                self.spec_ray(from, dir, 100) == acc@ + self.spec_ray(curr, dir, 100 - k as int),
            decreases 100 - k,
        {
            match curr.decaler(dir) {
                Some(c) => {
                    match self.get_by_coord(c) {
                        Some(cell) => {
                            if cell.can_grow() {
                                acc.push(c);
                                proof {
                                    assert(self.spec_ray(from, dir, 100) =~= acc@ + self.spec_ray(
                                        c,
                                        dir,
                                        100 - (k + 1) as int,
                                    ));
                                }
                                curr = c;
                            } else {
                                proof {
                                    assert(self.spec_ray(curr, dir, 100 - k as int)
                                        =~= Seq::<Coord>::empty());
                                    assert(self.spec_ray(from, dir, 100) =~= acc@);
                                }
                                return acc;
                            }
                        },
                        None => {
                            proof {
                                assert(!self.spec_growable_at(c));
                                assert(self.spec_ray(from, dir, 100) =~= acc@);
                            }
                            return acc;
                        },
                    }
                },
                None => {
                    proof {
                        assert(self.spec_ray(from, dir, 100) =~= acc@);
                    }
                    return acc;
                },
            }
            k = k + 1;
        }
        proof {
            assert(self.spec_ray(from, dir, 100) =~= acc@);
        }
        acc
    }

    /// The spore decisions one cell contributes: a sporer of the asked-for
    /// organism targets every growable cell of its ray.
    pub open spec fn spores_cell(self, acc: Seq<Spore>, c: Cell, root_id: Id) -> Seq<Spore> {
        match organe_of(c) {
            Some(o) => if o.root_id == root_id && o.organe_type is Sporer {
                acc + self.spec_ray(c.coord, o.dir, 100).map_values(
                    |co: Coord| Spore { parent_id: o.id, coord: co },
                )
            } else {
                acc
            },
            None => acc,
        }
    }

    /// The spore candidates collected over the first `n` cells.
    pub open spec fn spores_upto(self, root_id: Id, n: int) -> Seq<Spore>
        decreases n,
    {
        if n <= 0 {
            Seq::empty()
        } else {
            self.spores_cell(self.spores_upto(root_id, n - 1), self.cells@[n - 1], root_id)
        }
    }

    pub open spec fn spec_spore_candidates(self, root_id: Id) -> Seq<Spore> {
        self.spores_upto(root_id, self.cells@.len() as int)
    }

    /// The spore candidates of the organism rooted at `root_id`: for each
    /// of its sporers, every growable cell reachable straight along the
    /// sporer's facing.
    pub fn spore_candidate(&self, root_id: Id) -> (r: Vec<Spore>)
        requires
            self.wf(),
        ensures
            r@ == self.spec_spore_candidates(root_id),
    {
        let n = self.cells.len();
        let mut acc: Vec<Spore> = Vec::new();
        let mut i: usize = 0;
        while i < n
            invariant
                self.wf(),
                n == self.cells@.len(),
                i <= n,
                acc@ == self.spores_upto(root_id, i as int),
            decreases n - i,
        {
            let c = self.cells[i];
            match c.entity {
                Entity::Organe(o) => {
                    if o.root_id == root_id && matches!(o.organe_type, OrganeType::Sporer) {
                        let ghost a0 = acc@;
                        let ray = self.ray_targets(c.coord, o.dir);
                        let m = ray.len();
                        let mut q: usize = 0;
                        while q < m
                            invariant
                                self.wf(),
                                q <= m,
                                m == ray@.len(),
                                ray@ == self.spec_ray(
                                    self.cells@[i as int].coord,
                                    organe_of(self.cells@[i as int])->0.dir,
                                    100,
                                ),
                                organe_of(self.cells@[i as int]) == Some(o),
                                i < n,
                                n == self.cells@.len(),
                                acc@ == a0 + ray@.subrange(0, q as int).map_values(
                                    |co: Coord| Spore { parent_id: o.id, coord: co },
                                ),
                            decreases m - q,
                        {
                            acc.push(Spore { parent_id: o.id, coord: ray[q] });
                            proof {
                                assert(acc@ =~= a0 + ray@.subrange(0, q as int + 1).map_values(
                                    |co: Coord| Spore { parent_id: o.id, coord: co },
                                ));
                            }
                            q = q + 1;
                        }
                        proof {
                            assert(ray@.subrange(0, m as int) =~= ray@);
                            assert(acc@ =~= self.spores_cell(a0, self.cells@[i as int], root_id));
                        }
                    }
                },
                _ => {},
            }
            i = i + 1;
        }
        acc
    }
}

/// Every collected spore candidate names as parent a sporer of the
/// asked-for organism.
pub open spec fn spore_entry_ok(s: State, root_id: Id, entry: Spore) -> bool {
    &&& s.spec_get_by_id(entry.parent_id) is Some
    &&& s.spec_get_by_id(entry.parent_id)->0.root_id == root_id
    &&& entry.parent_id.owner == root_id.owner
}

proof fn lemma_spore_cands_sound(s: State, root_id: Id, n: int)
    requires
        s.wf(),
        0 <= n <= s.cells@.len(),
    ensures
        forall|e: int| #![trigger s.spores_upto(root_id, n)[e]]
            0 <= e < s.spores_upto(root_id, n).len() ==> spore_entry_ok(
                s,
                root_id,
                s.spores_upto(root_id, n)[e],
            ),
    decreases n,
{
    if n > 0 {
        lemma_spore_cands_sound(s, root_id, n - 1);
        let prev = s.spores_upto(root_id, n - 1);
        let cur = s.spores_upto(root_id, n);
        match organe_of(s.cells@[n - 1]) {
            Some(o) => {
                if o.root_id == root_id && o.organe_type is Sporer {
                    assert(s.spec_get_by_id(o.id) is Some && s.spec_get_by_id(o.id)->0.root_id
                        == root_id && o.id.owner == root_id.owner) by {
                        assert(organe_of(s.cells@[n - 1]) is Some && organe_of(
                            s.cells@[n - 1],
                        )->0.id == o.id);
                        let k = choose|k: int|
                            0 <= k < s.cells@.len() && organe_of(#[trigger] s.cells@[k]) is Some
                                && organe_of(s.cells@[k])->0.id == o.id;
                        if k != n - 1 {
                            assert(organe_of(s.cells@[k])->0.id != organe_of(
                                s.cells@[n - 1],
                            )->0.id);
                        }
                        assert(s.cell_ok(s.cells@[n - 1]));
                    }
                    assert forall|e: int|
                        0 <= e < cur.len() implies spore_entry_ok(
                        s,
                        root_id,
                        #[trigger] cur[e],
                    ) by {
                        if e >= prev.len() {
                            assert(cur[e].parent_id == o.id);
                        } else {
                            assert(cur[e] == prev[e]);
                        }
                    }
                }
            },
            None => {},
        }
    }
}

} // verus!

verus! {

/// One decision applied to `pre` for the root `root_id`: a wait, an
/// accepted grow, or an accepted spore.
pub open spec fn step_of(pre: State, root_id: Id, post: State) -> bool {
    ||| pre.wait_applied(root_id, post)
    ||| exists|g: Grow| pre.spec_grow_ok(g) && #[trigger] pre.grow_applied(g, post)
    ||| exists|sp: Spore| pre.spec_spore_ok(sp) && #[trigger] pre.spore_applied(sp, post)
}

/// Some element of `r` is the given grow applied to `pre`.
pub open spec fn has_grow(r: Seq<State>, pre: State, g: Grow) -> bool {
    exists|k: int| 0 <= k < r.len() && pre.grow_applied(g, #[trigger] r[k])
}

/// Some element of `r` is the given spore applied to `pre`.
pub open spec fn has_spore(r: Seq<State>, pre: State, sp: Spore) -> bool {
    exists|k: int| 0 <= k < r.len() && pre.spore_applied(sp, #[trigger] r[k])
}

/// Some element of `r` is the wait applied to `pre` for `root_id`.
pub open spec fn has_wait(r: Seq<State>, pre: State, root_id: Id) -> bool {
    exists|k: int| 0 <= k < r.len() && pre.wait_applied(root_id, #[trigger] r[k])
}

/// Appending a successor keeps every already-represented decision.
proof fn lemma_push_keeps_steps(r: Seq<State>, x: State, pre: State, root_id: Id)
    ensures
        forall|g: Grow| has_grow(r, pre, g) ==> has_grow(r.push(x), pre, g),
        forall|sp: Spore| has_spore(r, pre, sp) ==> has_spore(r.push(x), pre, sp),
        has_wait(r, pre, root_id) ==> has_wait(r.push(x), pre, root_id),
{
    assert forall|g: Grow| has_grow(r, pre, g) implies has_grow(r.push(x), pre, g) by {
        let k = choose|k: int| 0 <= k < r.len() && pre.grow_applied(g, #[trigger] r[k]);
        assert(pre.grow_applied(g, r.push(x)[k]));
    }
    assert forall|sp: Spore| has_spore(r, pre, sp) implies has_spore(r.push(x), pre, sp) by {
        let k = choose|k: int| 0 <= k < r.len() && pre.spore_applied(sp, #[trigger] r[k]);
        assert(pre.spore_applied(sp, r.push(x)[k]));
    }
    if has_wait(r, pre, root_id) {
        let k = choose|k: int| 0 <= k < r.len() && pre.wait_applied(root_id, #[trigger] r[k]);
        assert(pre.wait_applied(root_id, r.push(x)[k]));
    }
}

/// `d` is the grow decision of a claimed coordinate strictly before the
/// position `(q, t)` in the candidate enumeration.
pub open spec fn logged_grow_before(state: State, root_id: Id, d: Decision, q: int, t: int) -> bool {
    exists|q2: int, t2: int|
        0 <= q2 < state.spec_grow_candidates(root_id).len() && 0 <= t2 < 16 && (q2 < q || (q2 == q
            && t2 < t)) && d == Decision::Grow(
            #[trigger] spec_grows_of(
                state.spec_grow_candidates(root_id)[q2].0,
                state.spec_grow_candidates(root_id)[q2].1,
            )[t2],
        )
}

/// The successors of `state` for one decision of the root `root_id`: every
/// accepted grow over the claimed coordinates, every accepted spore of the
/// organism's sporers, and the wait, which always stands last. Each
/// successor spends exactly that root's owed action, and each offered
/// decision appears exactly once: the successors log pairwise-distinct
/// decisions.
#[verifier::rlimit(100)]
pub fn generer_step(state: &State, root_id: Id) -> (r: Vec<State>)
    requires
        state.wf(),
        state.action_set.spec_get(Owner::Me)@.contains(root_id),
    ensures
        r@.len() >= 1,
        forall|k: int| #![trigger r@[k]]
            0 <= k < r@.len() ==> {
                &&& r@[k].wf()
                &&& step_of(*state, root_id, r@[k])
                &&& r@[k].action_set.spec_get(Owner::Me)@ == spec_remove_id(
                    state.action_set.spec_get(Owner::Me)@,
                    root_id,
                )
                &&& r@[k].action_set.spec_get(Owner::Ennemy)@ == state.action_set.spec_get(
                    Owner::Ennemy,
                )@
            },
        has_wait(r@, *state, root_id),
        forall|q: int, t: int|
            0 <= q < state.spec_grow_candidates(root_id).len() && 0 <= t < 16
                && state.spec_grow_ok(
                #[trigger] spec_grows_of(
                    state.spec_grow_candidates(root_id)[q].0,
                    state.spec_grow_candidates(root_id)[q].1,
                )[t],
            ) ==> has_grow(
                r@,
                *state,
                spec_grows_of(
                    state.spec_grow_candidates(root_id)[q].0,
                    state.spec_grow_candidates(root_id)[q].1,
                )[t],
            ),
        forall|p: int|
            0 <= p < state.spec_spore_candidates(root_id).len() && state.spec_spore_ok(
                #[trigger] state.spec_spore_candidates(root_id)[p],
            ) ==> has_spore(r@, *state, state.spec_spore_candidates(root_id)[p]),
        forall|k1: int, k2: int|
            0 <= k1 < k2 < r@.len() ==> logged_last(#[trigger] r@[k1]) != logged_last(
                #[trigger] r@[k2],
            ),
{
    proof {
        let acts = state.action_set.spec_get(Owner::Me)@;
        let k = choose|k: int| 0 <= k < acts.len() && acts[k] == root_id;
        assert(root_id.owner == Owner::Me);
        lemma_cand_sound(*state, root_id, state.cells@.len() as int);
        lemma_spore_cands_sound(*state, root_id, state.cells@.len() as int);
        lemma_cand_upto_distinct(*state, root_id, state.cells@.len() as int);
        lemma_spores_distinct(*state, root_id, state.cells@.len() as int);
        assert(state.plan.content@.len() == state.plan.view_turns().len());
    }
    let mut out: Vec<State> = Vec::new();
    let cands = state.grow_candidate(root_id);
    let nc = cands.len();
    let mut q: usize = 0;
    while q < nc
        invariant
            state.wf(),
            state.plan.view_turns().len() >= 1,
            state.action_set.spec_get(Owner::Me)@.contains(root_id),
            root_id.owner == Owner::Me,
            nc == cands@.len(),
            q <= nc,
            cands@ == state.spec_grow_candidates(root_id),
            forall|e: int| #![trigger cands@[e]]
                0 <= e < cands@.len() ==> cand_entry_ok(*state, root_id, cands@[e]),
            forall|e1: int, e2: int|
                0 <= e1 < e2 < cands@.len() ==> (#[trigger] cands@[e1]).0 != (
                #[trigger] cands@[e2]).0,
            forall|k: int| #![trigger out@[k]]
                0 <= k < out@.len() ==> {
                    &&& out@[k].wf()
                    &&& step_of(*state, root_id, out@[k])
                    &&& out@[k].action_set.spec_get(Owner::Me)@ == spec_remove_id(
                        state.action_set.spec_get(Owner::Me)@,
                        root_id,
                    )
                    &&& out@[k].action_set.spec_get(Owner::Ennemy)@ == state.action_set.spec_get(
                        Owner::Ennemy,
                    )@
                },
            forall|q2: int, t: int|
                0 <= q2 < q as int && 0 <= t < 16 && state.spec_grow_ok(
                    #[trigger] spec_grows_of(cands@[q2].0, cands@[q2].1)[t],
                ) ==> has_grow(out@, *state, spec_grows_of(cands@[q2].0, cands@[q2].1)[t]),
            forall|k: int| #![trigger out@[k]]
                0 <= k < out@.len() ==> logged_grow_before(
                    *state,
                    root_id,
                    logged_last(out@[k]),
                    q as int,
                    0,
                ),
            forall|k1: int, k2: int|
                0 <= k1 < k2 < out@.len() ==> logged_last(#[trigger] out@[k1]) != logged_last(
                    #[trigger] out@[k2],
                ),
        decreases nc - q,
    {
        let (coord, parent_id) = cands[q];
        let grows = generer_grow(coord, parent_id);
        proof {
            lemma_grows_of_facts(coord, parent_id);
        }
        let mut g: usize = 0;
        while g < 16
            invariant
                state.wf(),
                state.plan.view_turns().len() >= 1,
                state.action_set.spec_get(Owner::Me)@.contains(root_id),
                root_id.owner == Owner::Me,
                g <= 16,
                grows@.len() == 16,
                q < nc,
                nc == cands@.len(),
                cands@ == state.spec_grow_candidates(root_id),
                forall|e: int| #![trigger cands@[e]]
                    0 <= e < cands@.len() ==> cand_entry_ok(*state, root_id, cands@[e]),
                forall|e1: int, e2: int|
                    0 <= e1 < e2 < cands@.len() ==> (#[trigger] cands@[e1]).0 != (
                    #[trigger] cands@[e2]).0,
                grows@ == spec_grows_of(cands@[q as int].0, cands@[q as int].1),
                forall|i: int| 0 <= i < 16 ==> (#[trigger] grows@[i]).parent_id == cands@[
                    q as int].1,
                forall|k: int| #![trigger out@[k]]
                    0 <= k < out@.len() ==> {
                        &&& out@[k].wf()
                        &&& step_of(*state, root_id, out@[k])
                        &&& out@[k].action_set.spec_get(Owner::Me)@ == spec_remove_id(
                            state.action_set.spec_get(Owner::Me)@,
                            root_id,
                        )
                        &&& out@[k].action_set.spec_get(Owner::Ennemy)@ == state.action_set
                            .spec_get(Owner::Ennemy)@
                    },
                forall|q2: int, t: int|
                    0 <= q2 < q as int && 0 <= t < 16 && state.spec_grow_ok(
                        #[trigger] spec_grows_of(cands@[q2].0, cands@[q2].1)[t],
                    ) ==> has_grow(out@, *state, spec_grows_of(cands@[q2].0, cands@[q2].1)[t]),
                forall|t: int|
                    0 <= t < g as int && state.spec_grow_ok(
                        #[trigger] grows@[t],
                    ) ==> has_grow(out@, *state, grows@[t]),
                forall|k: int| #![trigger out@[k]]
                    0 <= k < out@.len() ==> logged_grow_before(
                        *state,
                        root_id,
                        logged_last(out@[k]),
                        q as int,
                        g as int,
                    ),
                forall|k1: int, k2: int|
                    0 <= k1 < k2 < out@.len() ==> logged_last(#[trigger] out@[k1])
                        != logged_last(#[trigger] out@[k2]),
            decreases 16 - g,
        {
            let grow = grows[g];
            match state.try_grow(grow) {
                Some(s) => {
                    proof {
                        assert(cand_entry_ok(*state, root_id, cands@[q as int]));
                        assert(state.spec_get_by_id(grow.parent_id)->0.root_id == root_id);
                        assert(grow.parent_id.owner == Owner::Me);
                        assert(state.grow_applied(grow, s));
                        assert(step_of(*state, root_id, s));
                        lemma_push_keeps_steps(out@, s, *state, root_id);
                        assert(logged_last(s) == Decision::Grow(grow)) by {
                            assert(s.plan.view_turns().last() == state.plan.view_turns().last()
                                .push(Decision::Grow(grow)));
                        }
                    }
                    let ghost o_old = out@;
                    out.push(s);
                    proof {
                        assert(out@ == o_old.push(s));
                        assert(out@[out@.len() - 1] == s);
                        assert(has_grow(out@, *state, grow));
                        assert(logged_grow_before(
                            *state,
                            root_id,
                            logged_last(s),
                            q as int,
                            g as int + 1,
                        )) by {
                            assert(grow == spec_grows_of(
                                state.spec_grow_candidates(root_id)[q as int].0,
                                state.spec_grow_candidates(root_id)[q as int].1,
                            )[g as int]);
                        }
                        assert forall|k: int|
                            0 <= k < out@.len() implies logged_grow_before(
                            *state,
                            root_id,
                            logged_last(#[trigger] out@[k]),
                            q as int,
                            g as int + 1,
                        ) by {
                            if k < out@.len() - 1 {
                                assert(out@[k] == o_old[k]);
                                let (q2, t2) = choose|q2: int, t2: int|
                                    0 <= q2 < state.spec_grow_candidates(root_id).len() && 0
                                        <= t2 < 16 && (q2 < q as int || (q2 == q as int && t2
                                        < g as int)) && logged_last(o_old[k]) == Decision::Grow(
                                        #[trigger] spec_grows_of(
                                            state.spec_grow_candidates(root_id)[q2].0,
                                            state.spec_grow_candidates(root_id)[q2].1,
                                        )[t2],
                                    );
                                assert(q2 < q as int || (q2 == q as int && t2 < g as int + 1));
                            }
                        }
                        assert forall|k1: int, k2: int|
                            0 <= k1 < k2 < out@.len() implies logged_last(#[trigger] out@[k1])
                            != logged_last(#[trigger] out@[k2]) by {
                            if k2 == out@.len() - 1 {
                                assert(out@[k1] == o_old[k1]);
                                let (q2, t2) = choose|q2: int, t2: int|
                                    0 <= q2 < state.spec_grow_candidates(root_id).len() && 0
                                        <= t2 < 16 && (q2 < q as int || (q2 == q as int && t2
                                        < g as int)) && logged_last(o_old[k1])
                                        == Decision::Grow(
                                        #[trigger] spec_grows_of(
                                            state.spec_grow_candidates(root_id)[q2].0,
                                            state.spec_grow_candidates(root_id)[q2].1,
                                        )[t2],
                                    );
                                lemma_grows_of_facts(cands@[q2].0, cands@[q2].1);
                                if q2 < q as int {
                                    assert(cands@[q2].0 != cands@[q as int].0);
                                    assert(spec_grows_of(cands@[q2].0, cands@[q2].1)[t2].coord
                                        != grow.coord);
                                } else {
                                    assert(spec_grows_of(cands@[q2].0, cands@[q2].1)[t2]
                                        != grow);
                                }
                            }
                        }
                    }
                },
                None => {},
            }
            g = g + 1;
        }
        proof {
            assert forall|k: int|
                0 <= k < out@.len() implies logged_grow_before(
                *state,
                root_id,
                logged_last(#[trigger] out@[k]),
                q as int + 1,
                0,
            ) by {
                let (q2, t2) = choose|q2: int, t2: int|
                    0 <= q2 < state.spec_grow_candidates(root_id).len() && 0 <= t2 < 16 && (q2
                        < q as int || (q2 == q as int && t2 < 16)) && logged_last(out@[k])
                        == Decision::Grow(
                        #[trigger] spec_grows_of(
                            state.spec_grow_candidates(root_id)[q2].0,
                            state.spec_grow_candidates(root_id)[q2].1,
                        )[t2],
                    );
                assert(q2 < q as int + 1);
            }
        }
        q = q + 1;
    }
    let spores = state.spore_candidate(root_id);
    let ns = spores.len();
    let mut p: usize = 0;
    while p < ns
        invariant
            state.wf(),
            state.plan.view_turns().len() >= 1,
            state.action_set.spec_get(Owner::Me)@.contains(root_id),
            root_id.owner == Owner::Me,
            ns == spores@.len(),
            p <= ns,
            spores@ == state.spec_spore_candidates(root_id),
            cands@ == state.spec_grow_candidates(root_id),
            forall|e: int| #![trigger spores@[e]]
                0 <= e < spores@.len() ==> spore_entry_ok(*state, root_id, spores@[e]),
            forall|e1: int, e2: int|
                0 <= e1 < e2 < spores@.len() ==> spores@[e1] != spores@[e2],
            forall|k: int| #![trigger out@[k]]
                0 <= k < out@.len() ==> {
                    &&& out@[k].wf()
                    &&& step_of(*state, root_id, out@[k])
                    &&& out@[k].action_set.spec_get(Owner::Me)@ == spec_remove_id(
                        state.action_set.spec_get(Owner::Me)@,
                        root_id,
                    )
                    &&& out@[k].action_set.spec_get(Owner::Ennemy)@ == state.action_set.spec_get(
                        Owner::Ennemy,
                    )@
                },
            forall|q2: int, t: int|
                0 <= q2 < cands@.len() && 0 <= t < 16 && state.spec_grow_ok(
                    #[trigger] spec_grows_of(cands@[q2].0, cands@[q2].1)[t],
                ) ==> has_grow(out@, *state, spec_grows_of(cands@[q2].0, cands@[q2].1)[t]),
            forall|p2: int|
                0 <= p2 < p as int && state.spec_spore_ok(
                    #[trigger] spores@[p2],
                ) ==> has_spore(out@, *state, spores@[p2]),
            forall|k: int| #![trigger out@[k]]
                0 <= k < out@.len() ==> logged_grow_before(
                    *state,
                    root_id,
                    logged_last(out@[k]),
                    cands@.len() as int,
                    0,
                ) || exists|p2: int|
                    0 <= p2 < p as int && logged_last(out@[k]) == Decision::Spore(
                        #[trigger] spores@[p2],
                    ),
            forall|k1: int, k2: int|
                0 <= k1 < k2 < out@.len() ==> logged_last(#[trigger] out@[k1]) != logged_last(
                    #[trigger] out@[k2],
                ),
        decreases ns - p,
    {
        let spore = spores[p];
        match state.try_spore(spore) {
            Some(s) => {
                proof {
                    assert(spore_entry_ok(*state, root_id, spores@[p as int]));
                    assert(state.spec_get_by_id(spore.parent_id)->0.root_id == root_id);
                    assert(state.spore_applied(spore, s));
                    assert(step_of(*state, root_id, s));
                    lemma_push_keeps_steps(out@, s, *state, root_id);
                    assert(logged_last(s) == Decision::Spore(spore)) by {
                        assert(s.plan.view_turns().last() == state.plan.view_turns().last().push(
                            Decision::Spore(spore),
                        ));
                    }
                }
                let ghost o_old = out@;
                out.push(s);
                proof {
                    assert(out@ == o_old.push(s));
                    assert(out@[out@.len() - 1] == s);
                    assert(has_spore(out@, *state, spore));
                    assert forall|k1: int, k2: int|
                        0 <= k1 < k2 < out@.len() implies logged_last(#[trigger] out@[k1])
                        != logged_last(#[trigger] out@[k2]) by {
                        if k2 == out@.len() - 1 {
                            assert(out@[k1] == o_old[k1]);
                            if !logged_grow_before(
                                *state,
                                root_id,
                                logged_last(o_old[k1]),
                                cands@.len() as int,
                                0,
                            ) {
                                let p2 = choose|p2: int|
                                    0 <= p2 < p as int && logged_last(o_old[k1])
                                        == Decision::Spore(#[trigger] spores@[p2]);
                                assert(spores@[p2] != spores@[p as int]);
                            }
                        }
                    }
                    assert forall|k: int|
                        0 <= k < out@.len() implies logged_grow_before(
                        *state,
                        root_id,
                        logged_last(#[trigger] out@[k]),
                        cands@.len() as int,
                        0,
                    ) || exists|p2: int|
                        0 <= p2 < p as int + 1 && logged_last(out@[k]) == Decision::Spore(
                            #[trigger] spores@[p2],
                        ) by {
                        if k < out@.len() - 1 {
                            assert(out@[k] == o_old[k]);
                        } else {
                            assert(logged_last(out@[k]) == Decision::Spore(spores@[p as int]));
                        }
                    }
                }
            },
            None => {},
        }
        p = p + 1;
    }
    let waited = state.wait_step(root_id);
    proof {
        assert(state.wait_applied(root_id, waited));
        assert(step_of(*state, root_id, waited));
        assert(root_id.owner.spec_switch_side() == Owner::Ennemy);
        lemma_push_keeps_steps(out@, waited, *state, root_id);
        assert(logged_last(waited) == Decision::Wait) by {
            assert(waited.plan.view_turns().last() == state.plan.view_turns().last().push(
                Decision::Wait,
            ));
        }
    }
    let ghost o_old = out@;
    out.push(waited);
    proof {
        assert(out@ == o_old.push(waited));
        assert(out@[out@.len() - 1] == waited);
        assert(has_wait(out@, *state, root_id));
        assert forall|k1: int, k2: int|
            0 <= k1 < k2 < out@.len() implies logged_last(#[trigger] out@[k1]) != logged_last(
            #[trigger] out@[k2],
        ) by {
            if k2 == out@.len() - 1 {
                assert(out@[k1] == o_old[k1]);
                assert(logged_last(out@[k2]) == Decision::Wait);
            }
        }
    }
    out
}

} // verus!

verus! {

/// Clamp at the largest weight value.
pub open spec fn cap32(x: int) -> int {
    if x > 0xffff_ffff {
        0xffff_ffff
    } else {
        x
    }
}

/// The wait penalty of one turn's decisions (the first `n` of them): each
/// Wait at turn index `i` of at most five costs five times the distance
/// from `i` to the total turn count; later waits cost nothing. The
/// accumulation saturates at the largest weight value.
pub open spec fn pen_turn_upto(turn: Seq<Decision>, i: int, total: int, n: int) -> int
    decreases n,
{
    if n <= 0 {
        0
    } else {
        let prev = pen_turn_upto(turn, i, total, n - 1);
        let term = if turn[n - 1] is Wait && i <= 5 {
            cap32((if i >= total {
                i - total
            } else {
                total - i
            }) * 5)
        } else {
            0
        };
        cap32(prev + term)
    }
}

/// The wait penalty over the first `n` turns.
pub open spec fn pen_upto(turns: Seq<Seq<Decision>>, total: int, n: int) -> int
    decreases n,
{
    if n <= 0 {
        0
    } else {
        cap32(
            pen_upto(turns, total, n - 1) + pen_turn_upto(
                turns[n - 1],
                n - 1,
                total,
                turns[n - 1].len() as int,
            ),
        )
    }
}

/// The wait penalty of a whole planification.
pub open spec fn spec_wait_penalty(turns: Seq<Seq<Decision>>) -> int {
    pen_upto(turns, turns.len() as int, turns.len() as int)
}

/// How many protein kinds the resource vector holds a strictly positive
/// amount of.
pub open spec fn spec_kinds_count(r: Ressource) -> int {
    (if r.a != 0 {
        1int
    } else {
        0int
    }) + (if r.b != 0 {
        1int
    } else {
        0int
    }) + (if r.c != 0 {
        1int
    } else {
        0int
    }) + (if r.d != 0 {
        1int
    } else {
        0int
    })
}

/// The heuristic weight of a resolved state: one, plus four per harvested
/// protein cell (at most three counted), plus one per protein kind held,
/// plus three per friendly organ, minus three per known enemy organ, plus
/// five, minus the wait penalty; never negative, saturating at the largest
/// weight value exactly where the running total would leave it.
pub open spec fn weight_spec(s: State) -> int {
    let nh = (if s.spec_harvests().len() > 3 {
        3int
    } else {
        s.spec_harvests().len() as int
    }) * 4;
    let nr = spec_kinds_count(s.ressources.spec_get(Owner::Me));
    let na = s.spec_nb_organe(Owner::Me) * 3;
    let ne = cap32(s.spec_enemy_locs().len() as int * 3);
    let w1 = cap32(1 + nh + nr + na);
    let w2 = if w1 >= ne {
        w1 - ne
    } else {
        0int
    };
    let w3 = cap32(w2 + 5);
    let pen = spec_wait_penalty(s.plan.view_turns());
    if w3 >= pen {
        w3 - pen
    } else {
        0int
    }
}

/// Score a resolved end-of-turn state with the heuristic weight.
pub fn juger(state: State) -> (r: WeightedState)
    requires
        state.wf(),
    ensures
        r.state == state,
        r.weight as int == weight_spec(state),
{
    let cap: u128 = 0xffff_ffff;
    // wait penalty over the accumulated planification
    let total = state.plan.content.len();
    let mut pen: u128 = 0;
    let mut ti: usize = 0;
    while ti < total
        invariant
            state.wf(),
            total == state.plan.content@.len(),
            ti <= total,
            cap == 0xffff_ffff,
            pen <= cap,
            pen as int == pen_upto(state.plan.view_turns(), total as int, ti as int),
        decreases total - ti,
    {
        let turn = &state.plan.content[ti];
        let m = turn.len();
        let mut d: usize = 0;
        let mut tpen: u128 = 0;
        while d < m
            invariant
                ti < total,
                total == state.plan.content@.len(),
                m == turn@.len(),
                turn@ == state.plan.view_turns()[ti as int],
                d <= m,
                cap == 0xffff_ffff,
                tpen <= cap,
                tpen as int == pen_turn_upto(
                    state.plan.view_turns()[ti as int],
                    ti as int,
                    total as int,
                    d as int,
                ),
            decreases m - d,
        {
            match turn[d] {
                Decision::Wait => {
                    if ti <= 5 {
                        let diff: u128 = if ti >= total {
                            (ti - total) as u128
                        } else {
                            (total - ti) as u128
                        };
                        let mut term: u128 = diff * 5;
                        if term > cap {
                            term = cap;
                        }
                        tpen = tpen + term;
                        if tpen > cap {
                            tpen = cap;
                        }
                    }
                },
                _ => {},
            }
            d = d + 1;
        }
        pen = pen + tpen;
        if pen > cap {
            pen = cap;
        }
        ti = ti + 1;
    }
    // board and resource terms
    let hs = state.harvesting();
    let nh: u128 = if hs.len() > 3 {
        12
    } else {
        (hs.len() as u128) * 4
    };
    let res = *state.ressources.get(Owner::Me);
    let mut nr: u128 = 0;
    if res.get(&Protein::A) != 0 {
        nr = nr + 1;
    }
    if res.get(&Protein::B) != 0 {
        nr = nr + 1;
    }
    if res.get(&Protein::C) != 0 {
        nr = nr + 1;
    }
    if res.get(&Protein::D) != 0 {
        nr = nr + 1;
    }
    let na: u128 = (state.nb_organe(Owner::Me) as u128) * 3;
    let mut ne: u128 = (state.organe_ennemy_location().len() as u128) * 3;
    if ne > cap {
        ne = cap;
    }
    let mut w1: u128 = 1 + nh + nr + na;
    if w1 > cap {
        w1 = cap;
    }
    let w2: u128 = if w1 >= ne {
        w1 - ne
    } else {
        0
    };
    let mut w3: u128 = w2 + 5;
    if w3 > cap {
        w3 = cap;
    }
    let w4: u128 = if w3 >= pen {
        w3 - pen
    } else {
        0
    };
    let weight: u32 = w4 as u32;
    proof {
        assert(state.plan.view_turns().len() == state.plan.content@.len());
        assert(weight as int == weight_spec(state));
    }
    WeightedState { state, weight }
}

} // verus!

verus! {

/// One decision applied to `a`, yielding `b`: the first still-owed friendly
/// root decides — a wait, an accepted grow or an accepted spore — and
/// exactly its owed action is spent.
pub open spec fn owed_step(a: State, b: State) -> bool {
    &&& a.action_set.spec_get(Owner::Me)@.len() > 0
    &&& step_of(a, a.action_set.spec_get(Owner::Me)@[0], b)
    &&& b.action_set.spec_get(Owner::Me)@ == spec_remove_id(
        a.action_set.spec_get(Owner::Me)@,
        a.action_set.spec_get(Owner::Me)@[0],
    )
}

/// `chain` leads from `start` to `end`, each element one owed decision
/// after the one before it.
pub open spec fn decision_chain(start: State, end: State, chain: Seq<State>) -> bool {
    &&& chain.len() >= 1
    &&& chain[0] == start
    &&& chain.last() == end
    &&& forall|i: int| 0 < i < chain.len() ==> owed_step(chain[i - 1], #[trigger] chain[i])
}

/// `s` was reached from one of the `origins` — one that still owed a
/// decision — by a run of owed decisions.
pub open spec fn derived_from(origins: Seq<State>, s: State) -> bool {
    exists|k: int, chain: Seq<State>|
        0 <= k < origins.len() && origins[k].action_set.spec_get(Owner::Me)@.len() > 0
            && #[trigger] decision_chain(origins[k], s, chain)
}

/// `out` is the turn resolution of a state reached from one of the
/// `origins` by owed decisions that spent the whole friendly budget.
pub open spec fn turn_outcome_from(origins: Seq<State>, out: State) -> bool {
    exists|pre: State|
        derived_from(origins, pre) && pre.action_set.spec_get(Owner::Me)@.len() == 0
            && #[trigger] pre.turn_resolved(out)
}

/// An origin that owes a decision is trivially reached from itself.
proof fn lemma_chain_single(origins: Seq<State>, k: int)
    requires
        0 <= k < origins.len(),
        origins[k].action_set.spec_get(Owner::Me)@.len() > 0,
    ensures
        derived_from(origins, origins[k]),
{
    let chain = seq![origins[k]];
    assert(chain[0] == origins[k]);
    assert(chain.last() == origins[k]);
    assert(decision_chain(origins[k], origins[k], chain));
}

/// One more owed decision keeps a state derived.
#[verifier::rlimit(100)]
proof fn lemma_chain_extend(origins: Seq<State>, s: State, c: State)
    requires
        derived_from(origins, s),
        owed_step(s, c),
    ensures
        derived_from(origins, c),
{
    let (k, chain) = choose|k: int, chain: Seq<State>|
        0 <= k < origins.len() && origins[k].action_set.spec_get(Owner::Me)@.len() > 0
            && #[trigger] decision_chain(origins[k], s, chain);
    let nchain = chain.push(c);
    assert(nchain[0] == chain[0]);
    assert forall|i: int| 0 < i < nchain.len() implies owed_step(
        nchain[i - 1],
        #[trigger] nchain[i],
    ) by {
        if i < nchain.len() - 1 {
            assert(nchain[i] == chain[i]);
            assert(nchain[i - 1] == chain[i - 1]);
        } else {
            assert(nchain[i] == c);
            assert(nchain[i - 1] == chain.last());
        }
    }
    assert(decision_chain(origins[k], c, nchain));
}

/// A resolved successor: the end-of-turn closure of some snapshot that had
/// spent its whole action budget.
pub open spec fn resolved_state(out: State) -> bool {
    &&& out.wf()
    &&& exists|pre: State|
        pre.wf() && pre.action_set.spec_get(Owner::Me)@.len() == 0 && #[trigger] pre.turn_resolved(
            out,
        )
}

/// Run every given state to the end of its turn: each state whose side
/// still owes decisions is expanded one decision at a time — the first owed
/// root decides first — until its budget is exhausted, and each completed
/// combination is closed by the turn resolution. Every returned state is
/// the resolution of a snapshot reached from one of the inputs by a run of
/// owed decisions that spent its whole budget; inputs owing nothing
/// contribute nothing; and the expansion is exhaustive: every generator
/// chain out of an owed input that spends its whole budget finds its
/// resolution among the results.
#[verifier::rlimit(100)]
pub fn realiser_tour(process: Vec<State>) -> (r: Vec<State>)
    requires
        forall|k: int| 0 <= k < process@.len() ==> (#[trigger] process@[k]).wf(),
    ensures
        forall|k: int| 0 <= k < r@.len() ==> resolved_state(#[trigger] r@[k]),
        forall|k: int| 0 <= k < r@.len() ==> turn_outcome_from(process@, #[trigger] r@[k]),
        forall|k: int, chain: Seq<State>|
            #[trigger] live_chain(process@, k, chain) && chain.last().action_set.spec_get(
                Owner::Me,
            )@.len() == 0 ==> resolution_in(chain.last(), r@),
        (exists|k: int|
            0 <= k < process@.len() && (#[trigger] process@[k]).action_set.spec_get(
                Owner::Me,
            )@.len() > 0) ==> r@.len() >= 1,
        (forall|k: int|
            0 <= k < process@.len() ==> (#[trigger] process@[k]).action_set.spec_get(
                Owner::Me,
            )@.len() == 0) ==> r@.len() == 0,
{
    let ghost p0 = process@;
    let ghost owed = exists|k: int|
        0 <= k < p0.len() && (#[trigger] p0[k]).action_set.spec_get(Owner::Me)@.len() > 0;
    let mut process = process;
    let mut work: Vec<State> = Vec::new();
    let mut m: usize = 0;
    while process.len() > 0
        invariant
            owed == exists|k: int|
                0 <= k < p0.len() && (#[trigger] p0[k]).action_set.spec_get(Owner::Me)@.len() > 0,
            process@.len() <= p0.len(),
            forall|k: int| 0 <= k < p0.len() ==> (#[trigger] p0[k]).wf(),
            forall|k: int| 0 <= k < process@.len() ==> (#[trigger] process@[k]).wf(),
            forall|j: int|
                0 <= j < process@.len() ==> #[trigger] process@[j] == p0[p0.len()
                    - process@.len() + j],
            forall|k: int| #![trigger work@[k]]
                0 <= k < work@.len() ==> work@[k].wf() && 1 <= work@[k].action_set.spec_get(
                    Owner::Me,
                )@.len() <= m as int && derived_from(p0, work@[k]),
            forall|j: int|
                0 <= j < p0.len() - process@.len() ==> ((#[trigger] p0[j]).action_set.spec_get(
                    Owner::Me,
                )@.len() > 0 ==> rep_in(work@, p0[j]) && p0[j].action_set.spec_get(
                    Owner::Me,
                )@.len() <= m as int),
            owed ==> work@.len() >= 1 || exists|k: int|
                0 <= k < process@.len() && (#[trigger] process@[k]).action_set.spec_get(
                    Owner::Me,
                )@.len() > 0,
            !owed ==> work@.len() == 0 && m == 0,
        decreases process@.len(),
    {
        let ghost pr_old = process@;
        let s = process.remove(0);
        proof {
            assert(s == p0[p0.len() - pr_old.len()]);
        }
        let len = s.action_roots().get(Owner::Me).len();
        if len > 0 {
            if len > m {
                m = len;
            }
            let ghost w_old = work@;
            work.push(s);
            proof {
                let ghost j = p0.len() - pr_old.len();
                assert(p0[j].action_set.spec_get(Owner::Me)@.len() > 0);
                assert(owed);
                lemma_chain_single(p0, j);
                lemma_rep_push(w_old, s);
                assert(same_views(s, s));
                assert(rep_in(work@, p0[j]));
            }
        }
        proof {
            if owed && work@.len() == 0 {
                let k = choose|k: int|
                    0 <= k < pr_old.len() && (#[trigger] pr_old[k]).action_set.spec_get(
                        Owner::Me,
                    )@.len() > 0;
                assert(k > 0);
                assert(process@[k - 1] == pr_old[k]);
            }
        }
    }
    let mut finis: Vec<State> = Vec::new();
    let mut round: usize = 0;
    proof {
        assert forall|k: int, chain: Seq<State>|
            #[trigger] live_chain(p0, k, chain) && chain.len() == 1
                && chain.last().action_set.spec_get(Owner::Me)@.len() > 0 implies rep_in(
            work@,
            chain.last(),
        ) by {
            assert(chain.last() == p0[k]);
        }
    }
    while round < m
        invariant
            round <= m,
            forall|k: int| 0 <= k < p0.len() ==> (#[trigger] p0[k]).wf(),
            forall|k: int| #![trigger work@[k]]
                0 <= k < work@.len() ==> work@[k].wf() && 1 <= work@[k].action_set.spec_get(
                    Owner::Me,
                )@.len() <= m as int - round as int && derived_from(p0, work@[k]),
            forall|k: int| 0 <= k < finis@.len() ==> resolved_state(#[trigger] finis@[k]),
            forall|k: int| 0 <= k < finis@.len() ==> turn_outcome_from(p0, #[trigger] finis@[k]),
            forall|k: int, chain: Seq<State>|
                #[trigger] live_chain(p0, k, chain) && chain.len() == round as int + 1
                    && chain.last().action_set.spec_get(Owner::Me)@.len() > 0 ==> rep_in(
                    work@,
                    chain.last(),
                ),
            forall|k: int, chain: Seq<State>|
                #[trigger] live_chain(p0, k, chain) && chain.len() <= round as int + 1
                    && chain.last().action_set.spec_get(Owner::Me)@.len() == 0 ==> resolution_in(
                    chain.last(),
                    finis@,
                ),
            owed ==> work@.len() + finis@.len() >= 1,
            !owed ==> work@.len() == 0 && finis@.len() == 0 && m == 0,
        decreases m - round,
    {
        let mut next: Vec<State> = Vec::new();
        proof {
            assert forall|k: int, chain: Seq<State>|
                #[trigger] live_chain(p0, k, chain) && chain.len() == round as int + 2 implies
                rep_in(work@, chain[chain.len() - 2]) by {
                lemma_gen_chain_prefix(p0[k], chain);
                assert(live_chain(p0, k, chain.drop_last()));
                assert(chain.drop_last().len() == round as int + 1);
                assert(chain.drop_last().last() == chain[chain.len() - 2]);
                assert(rep_in(work@, chain.drop_last().last()));
            }
        }
        while work.len() > 0
            invariant
                round < m,
                forall|k: int| 0 <= k < p0.len() ==> (#[trigger] p0[k]).wf(),
                forall|k: int| #![trigger work@[k]]
                    0 <= k < work@.len() ==> work@[k].wf() && 1 <= work@[k].action_set.spec_get(
                        Owner::Me,
                    )@.len() <= m as int - round as int && derived_from(p0, work@[k]),
                forall|k: int| #![trigger next@[k]]
                    0 <= k < next@.len() ==> next@[k].wf() && 1 <= next@[k].action_set.spec_get(
                        Owner::Me,
                    )@.len() <= m as int - round as int - 1 && derived_from(p0, next@[k]),
                forall|k: int| 0 <= k < finis@.len() ==> resolved_state(#[trigger] finis@[k]),
                forall|k: int|
                    0 <= k < finis@.len() ==> turn_outcome_from(p0, #[trigger] finis@[k]),
                forall|k: int, chain: Seq<State>|
                    #[trigger] live_chain(p0, k, chain) && chain.len() == round as int + 2
                        && chain.last().action_set.spec_get(Owner::Me)@.len() > 0 ==> rep_in(
                        next@,
                        chain.last(),
                    ) || rep_in(work@, chain[chain.len() - 2]),
                forall|k: int, chain: Seq<State>|
                    #[trigger] live_chain(p0, k, chain) && chain.len() == round as int + 2
                        && chain.last().action_set.spec_get(Owner::Me)@.len() == 0
                        ==> resolution_in(chain.last(), finis@) || rep_in(
                        work@,
                        chain[chain.len() - 2],
                    ),
                forall|k: int, chain: Seq<State>|
                    #[trigger] live_chain(p0, k, chain) && chain.len() <= round as int + 1
                        && chain.last().action_set.spec_get(Owner::Me)@.len() == 0
                        ==> resolution_in(chain.last(), finis@),
                owed ==> work@.len() + next@.len() + finis@.len() >= 1,
                !owed ==> work@.len() + next@.len() + finis@.len() == 0,
            decreases work@.len(),
        {
            let ghost w_pre = work@;
            let s = work.remove(0);
            proof {
                lemma_rep_shift(w_pre);
            }
            let root = s.action_roots().get(Owner::Me)[0];
            proof {
                assert(s.action_set.spec_get(Owner::Me)@.contains(root));
            }
            let mut children = generer_step(&s, root);
            proof {
                let acts = s.action_set.spec_get(Owner::Me)@;
                crate::state::lemma_remove_id(acts, root, acts.len() as int);
                assert(root == s.action_set.spec_get(Owner::Me)@[0]);
                // every generator step out of this snapshot has a
                // representative among its successors
                assert forall|b: State| #![trigger gen_step(s, b)]
                    gen_step(s, b) implies rep_in(children@, b) by {
                    let r0 = s.action_set.spec_get(Owner::Me)@[0];
                    if s.wait_applied(r0, b) {
                        let kk = choose|kk: int|
                            0 <= kk < children@.len() && s.wait_applied(
                                root,
                                #[trigger] children@[kk],
                            );
                        lemma_wait_same_succ(s, r0, children@[kk], b);
                    } else if exists|q: int, t: int|
                        0 <= q < s.spec_grow_candidates(r0).len() && 0 <= t < 16
                            && s.spec_grow_ok(
                            #[trigger] spec_grows_of(
                                s.spec_grow_candidates(r0)[q].0,
                                s.spec_grow_candidates(r0)[q].1,
                            )[t],
                        ) && s.grow_applied(
                            spec_grows_of(
                                s.spec_grow_candidates(r0)[q].0,
                                s.spec_grow_candidates(r0)[q].1,
                            )[t],
                            b,
                        ) {
                        let (q, t) = choose|q: int, t: int|
                            0 <= q < s.spec_grow_candidates(r0).len() && 0 <= t < 16
                                && s.spec_grow_ok(
                                #[trigger] spec_grows_of(
                                    s.spec_grow_candidates(r0)[q].0,
                                    s.spec_grow_candidates(r0)[q].1,
                                )[t],
                            ) && s.grow_applied(
                                spec_grows_of(
                                    s.spec_grow_candidates(r0)[q].0,
                                    s.spec_grow_candidates(r0)[q].1,
                                )[t],
                                b,
                            );
                        let g = spec_grows_of(
                            s.spec_grow_candidates(r0)[q].0,
                            s.spec_grow_candidates(r0)[q].1,
                        )[t];
                        assert(has_grow(children@, s, g));
                        let kk = choose|kk: int|
                            0 <= kk < children@.len() && s.grow_applied(
                                g,
                                #[trigger] children@[kk],
                            );
                        lemma_grow_same_succ(s, g, children@[kk], b);
                    } else {
                        let pz = choose|pz: int|
                            0 <= pz < s.spec_spore_candidates(r0).len() && s.spec_spore_ok(
                                #[trigger] s.spec_spore_candidates(r0)[pz],
                            ) && s.spore_applied(s.spec_spore_candidates(r0)[pz], b);
                        let sp = s.spec_spore_candidates(r0)[pz];
                        assert(has_spore(children@, s, sp));
                        let kk = choose|kk: int|
                            0 <= kk < children@.len() && s.spore_applied(
                                sp,
                                #[trigger] children@[kk],
                            );
                        lemma_spore_same_succ(s, sp, children@[kk], b);
                    }
                }
            }
            let ghost sum0 = next@.len() + finis@.len();
            while children.len() > 0
                invariant
                    owed,
                    round < m,
                    s.wf(),
                    derived_from(p0, s),
                    s.action_set.spec_get(Owner::Me)@.contains(root),
                    1 <= s.action_set.spec_get(Owner::Me)@.len() <= m as int - round as int,
                    root == s.action_set.spec_get(Owner::Me)@[0],
                    forall|k: int| 0 <= k < p0.len() ==> (#[trigger] p0[k]).wf(),
                    forall|k: int| #![trigger children@[k]]
                        0 <= k < children@.len() ==> children@[k].wf() && step_of(
                            s,
                            root,
                            children@[k],
                        ) && children@[k].action_set.spec_get(Owner::Me)@ == spec_remove_id(
                            s.action_set.spec_get(Owner::Me)@,
                            root,
                        ) && children@[k].action_set.spec_get(Owner::Me)@.len() < s.action_set
                            .spec_get(Owner::Me)@.len(),
                    forall|b: State| #![trigger gen_step(s, b)]
                        gen_step(s, b) ==> rep_in(children@, b) || rep_in(next@, b) || (
                        b.action_set.spec_get(Owner::Me)@.len() == 0 && resolution_in(
                            b,
                            finis@,
                        )),
                    forall|k: int| #![trigger next@[k]]
                        0 <= k < next@.len() ==> next@[k].wf() && 1 <= next@[k].action_set
                            .spec_get(Owner::Me)@.len() <= m as int - round as int - 1
                            && derived_from(p0, next@[k]),
                    forall|k: int|
                        0 <= k < finis@.len() ==> resolved_state(#[trigger] finis@[k]),
                    forall|k: int|
                        0 <= k < finis@.len() ==> turn_outcome_from(p0, #[trigger] finis@[k]),
                    forall|k: int, chain: Seq<State>|
                        #[trigger] live_chain(p0, k, chain) && chain.len() == round as int + 2
                            && chain.last().action_set.spec_get(Owner::Me)@.len() > 0
                            ==> rep_in(next@, chain.last()) || rep_in(
                            work@,
                            chain[chain.len() - 2],
                        ) || same_views(s, chain[chain.len() - 2]),
                    forall|k: int, chain: Seq<State>|
                        #[trigger] live_chain(p0, k, chain) && chain.len() == round as int + 2
                            && chain.last().action_set.spec_get(Owner::Me)@.len() == 0
                            ==> resolution_in(chain.last(), finis@) || rep_in(
                            work@,
                            chain[chain.len() - 2],
                        ) || same_views(s, chain[chain.len() - 2]),
                    forall|k: int, chain: Seq<State>|
                        #[trigger] live_chain(p0, k, chain) && chain.len() <= round as int + 1
                            && chain.last().action_set.spec_get(Owner::Me)@.len() == 0
                            ==> resolution_in(chain.last(), finis@),
                    next@.len() + finis@.len() >= sum0,
                    children@.len() == 0 ==> next@.len() + finis@.len() > sum0,
                decreases children@.len(),
            {
                let ghost c_pre = children@;
                let c = children.remove(0);
                proof {
                    lemma_rep_shift(c_pre);
                    assert(owed_step(s, c));
                    lemma_chain_extend(p0, s, c);
                }
                if c.action_roots().get(Owner::Me).len() == 0 {
                    let done = c.end_turn();
                    proof {
                        assert(c.turn_resolved(done));
                        assert(resolved_state(done));
                        assert(turn_outcome_from(p0, done));
                    }
                    let ghost f_old = finis@;
                    finis.push(done);
                    proof {
                        lemma_res_push(f_old, done);
                        assert forall|k: int|
                            0 <= k < finis@.len() implies resolved_state(#[trigger] finis@[k])
                            && turn_outcome_from(p0, finis@[k]) by {
                            if k < finis@.len() - 1 {
                                assert(finis@[k] == f_old[k]);
                            } else {
                                assert(finis@[k] == done);
                            }
                        }
                        assert forall|b: State| #![trigger gen_step(s, b)]
                            gen_step(s, b) implies rep_in(children@, b) || rep_in(next@, b)
                            || (b.action_set.spec_get(Owner::Me)@.len() == 0 && resolution_in(
                            b,
                            finis@,
                        )) by {
                            if rep_in(c_pre, b) && !rep_in(children@, b) {
                                assert(same_views(c, b));
                                lemma_same_views_same_steps(c, b);
                                assert(b.turn_resolved(done));
                                assert(resolution_in(b, finis@));
                            }
                        }
                    }
                } else {
                    let ghost n_old = next@;
                    next.push(c);
                    proof {
                        lemma_rep_push(n_old, c);
                        assert forall|b: State| #![trigger gen_step(s, b)]
                            gen_step(s, b) implies rep_in(children@, b) || rep_in(next@, b)
                            || (b.action_set.spec_get(Owner::Me)@.len() == 0 && resolution_in(
                            b,
                            finis@,
                        )) by {
                            if rep_in(c_pre, b) && !rep_in(children@, b) {
                                assert(same_views(c, b));
                                assert(rep_in(next@, b));
                            }
                        }
                    }
                }
            }
            proof {
                // the snapshot's whole step space is now dispatched
                assert forall|k: int, chain: Seq<State>|
                    #[trigger] live_chain(p0, k, chain) && chain.len() == round as int + 2
                        && chain.last().action_set.spec_get(Owner::Me)@.len() > 0 implies
                    rep_in(next@, chain.last()) || rep_in(work@, chain[chain.len() - 2]) by {
                    if same_views(s, chain[chain.len() - 2]) && !rep_in(
                        work@,
                        chain[chain.len() - 2],
                    ) && !rep_in(next@, chain.last()) {
                        lemma_gen_chain_prefix(p0[k], chain);
                        lemma_gen_step_same(s, chain[chain.len() - 2], chain.last());
                        assert(gen_step(s, chain.last()));
                    }
                }
                assert forall|k: int, chain: Seq<State>|
                    #[trigger] live_chain(p0, k, chain) && chain.len() == round as int + 2
                        && chain.last().action_set.spec_get(Owner::Me)@.len() == 0 implies
                    resolution_in(chain.last(), finis@) || rep_in(
                    work@,
                    chain[chain.len() - 2],
                ) by {
                    if same_views(s, chain[chain.len() - 2]) && !rep_in(
                        work@,
                        chain[chain.len() - 2],
                    ) && !resolution_in(chain.last(), finis@) {
                        lemma_gen_chain_prefix(p0[k], chain);
                        lemma_gen_step_same(s, chain[chain.len() - 2], chain.last());
                        assert(gen_step(s, chain.last()));
                        if rep_in(next@, chain.last()) {
                            let j = choose|j: int|
                                0 <= j < next@.len() && same_views(
                                    #[trigger] next@[j],
                                    chain.last(),
                                );
                            assert(false);
                        }
                    }
                }
            }
        }
        work = next;
        round = round + 1;
    }
    proof {
        if work@.len() > 0 {
            assert(1 <= work@[0].action_set.spec_get(Owner::Me)@.len() <= m as int - round as int);
            assert(false);
        }
        assert forall|k: int, chain: Seq<State>|
            #[trigger] live_chain(p0, k, chain) && chain.last().action_set.spec_get(
                Owner::Me,
            )@.len() == 0 implies resolution_in(chain.last(), finis@) by {
            lemma_gen_chain_bound(p0[k], chain, chain.len() - 1);
            assert(p0[k].action_set.spec_get(Owner::Me)@.len() <= m as int);
            assert(chain.len() <= m as int + 1);
        }
    }
    finis
}

/// Pad or trim a turn's decisions to exactly `count` of them: the planned
/// decisions first, in order, then explicit waits.
pub fn pad_first_turn(first: &Vec<Decision>, count: u32) -> (r: Vec<Decision>)
    ensures
        r@.len() == count as int,
        forall|i: int|
            0 <= i < count as int ==> r@[i] == if i < first@.len() {
                first@[i]
            } else {
                Decision::Wait
            },
{
    let mut r: Vec<Decision> = Vec::new();
    let mut i: u32 = 0;
    while i < count
        invariant
            i <= count,
            r@.len() == i as int,
            forall|k: int|
                0 <= k < i as int ==> r@[k] == if k < first@.len() {
                    first@[k]
                } else {
                    Decision::Wait
                },
        decreases count - i,
    {
        if (i as usize) < first.len() {
            r.push(first[i as usize]);
        } else {
            r.push(Decision::Wait);
        }
        i = i + 1;
    }
    r
}

/// The weight total over a prefix ignores elements pushed after it.
proof fn lemma_weights_total_push(s: Seq<u32>, x: u32, n: int)
    requires
        0 <= n <= s.len(),
    ensures
        crate::sampling::weights_total(s.push(x), n) == crate::sampling::weights_total(s, n),
    decreases n,
{
    if n > 0 {
        lemma_weights_total_push(s, x, n - 1);
        assert(s.push(x)[n - 1] == s[n - 1]);
    }
}

/// The first index carrying the largest weight, when any weight is
/// positive: the deterministic stand-in for the weighted draw when the
/// weight total would not fit the sampler's accumulator.
fn pick_max_index(weights: &Vec<u32>) -> (r: Option<usize>)
    ensures
        (r is Some) == (exists|i: int| 0 <= i < weights@.len() && weights@[i] > 0),
        r is Some ==> {
            let p = r->0 as int;
            &&& p < weights@.len()
            &&& weights@[p] > 0
            &&& forall|j: int| 0 <= j < weights@.len() ==> weights@[j] <= weights@[p]
            &&& forall|j: int| 0 <= j < p ==> weights@[j] < weights@[p]
        },
{
    let n = weights.len();
    let mut best: usize = 0;
    let mut bw: u32 = 0;
    let mut i: usize = 0;
    while i < n
        invariant
            n == weights@.len(),
            i <= n,
            bw > 0 ==> best < i && weights@[best as int] == bw,
            forall|j: int| 0 <= j < i as int ==> weights@[j] <= bw,
            bw > 0 ==> forall|j: int| 0 <= j < best as int ==> weights@[j] < bw,
            bw == 0 ==> forall|j: int| 0 <= j < i as int ==> weights@[j] == 0,
        decreases n - i,
    {
        if weights[i] > bw {
            bw = weights[i];
            best = i;
        }
        i = i + 1;
    }
    if bw > 0 {
        Some(best)
    } else {
        None
    }
}

/// Two snapshots carrying the same board, ledgers and log: what a copy of
/// a frontier state preserves.
pub open spec fn same_views(a: State, b: State) -> bool {
    &&& a.dimension == b.dimension
    &&& a.cells@ == b.cells@
    &&& a.ressources == b.ressources
    &&& a.action_set.spec_get(Owner::Me)@ == b.action_set.spec_get(Owner::Me)@
    &&& a.action_set.spec_get(Owner::Ennemy)@ == b.action_set.spec_get(Owner::Ennemy)@
    &&& a.root_set.spec_get(Owner::Me)@ == b.root_set.spec_get(Owner::Me)@
    &&& a.root_set.spec_get(Owner::Ennemy)@ == b.root_set.spec_get(Owner::Ennemy)@
    &&& a.max_id == b.max_id
    &&& a.attacks@ == b.attacks@
    &&& a.plan.view_turns() == b.plan.view_turns()
    &&& a.action_count == b.action_count
}

/// One whole resolved turn from `a` to `b`: a run of owed decisions
/// spending `a`'s whole friendly budget, closed by the turn resolution.
pub open spec fn turn_link(a: State, b: State) -> bool {
    turn_outcome_from(seq![a], b)
}

/// `chain` leads from a copy of `start` to `end`, each element a whole
/// resolved turn after — or a copy of — the one before it.
pub open spec fn beam_chain(start: State, end: State, chain: Seq<State>) -> bool {
    &&& chain.len() >= 1
    &&& same_views(chain[0], start)
    &&& chain.last() == end
    &&& forall|i: int|
        0 < i < chain.len() ==> turn_link(chain[i - 1], #[trigger] chain[i]) || same_views(
            chain[i - 1],
            chain[i],
        )
}

/// `s` was reached from `start` by whole resolved turns of owed decisions.
pub open spec fn turns_reachable(start: State, s: State) -> bool {
    exists|chain: Seq<State>| #[trigger] beam_chain(start, s, chain)
}

/// The conditions under which no outside draw can leave the driver
/// empty-handed: the initial state owes a decision, and every reachable
/// resolved state scores a positive weight and still owes one. Under them
/// the sampler always keeps a state and the final draw always lands.
pub open spec fn fruitful_search(start: State) -> bool {
    &&& start.action_set.spec_get(Owner::Me)@.len() > 0
    &&& forall|s2: State|
        #![trigger turns_reachable(start, s2), resolved_state(s2)]
        turns_reachable(start, s2) && resolved_state(s2) ==> weight_spec(s2) > 0
            && s2.action_set.spec_get(Owner::Me)@.len() > 0
}

/// What the driver may return: the empty planification, or the log of a
/// state reached from the initial one by whole resolved turns.
pub open spec fn planifier_result_ok(start: State, turns: Seq<Seq<Decision>>) -> bool {
    ||| turns == seq![Seq::<Decision>::empty()]
    ||| exists|s: State| #[trigger] turns_reachable(start, s) && turns == s.plan.view_turns()
}

/// A copy of the start is reached.
proof fn lemma_beam_single(start: State, s: State)
    requires
        same_views(s, start),
    ensures
        turns_reachable(start, s),
{
    let chain = seq![s];
    assert(chain[0] == s);
    assert(chain.last() == s);
    assert(beam_chain(start, s, chain));
}

/// A reached state reaches whatever one more step — a resolved turn or a
/// copy — gives.
proof fn lemma_beam_extend(start: State, s: State, b: State)
    requires
        turns_reachable(start, s),
        turn_link(s, b) || same_views(s, b),
    ensures
        turns_reachable(start, b),
{
    let chain = choose|chain: Seq<State>| #[trigger] beam_chain(start, s, chain);
    let nchain = chain.push(b);
    assert(nchain[0] == chain[0]);
    assert forall|i: int|
        0 < i < nchain.len() implies turn_link(nchain[i - 1], #[trigger] nchain[i]) || same_views(
        nchain[i - 1],
        nchain[i],
    ) by {
        if i < nchain.len() - 1 {
            assert(nchain[i] == chain[i]);
            assert(nchain[i - 1] == chain[i - 1]);
        } else {
            assert(nchain[i] == b);
            assert(nchain[i - 1] == chain.last());
        }
    }
    assert(beam_chain(start, b, nchain));
}

/// A resolved turn from any reached origin lands on a reached state.
#[verifier::rlimit(50)]
proof fn lemma_outcome_reachable(start: State, origins: Seq<State>, out: State)
    requires
        forall|k: int| 0 <= k < origins.len() ==> turns_reachable(start, #[trigger] origins[k]),
        turn_outcome_from(origins, out),
    ensures
        turns_reachable(start, out),
{
    let pre = choose|pre: State|
        derived_from(origins, pre) && pre.action_set.spec_get(Owner::Me)@.len() == 0
            && #[trigger] pre.turn_resolved(out);
    let (k, chain) = choose|k: int, chain: Seq<State>|
        0 <= k < origins.len() && origins[k].action_set.spec_get(Owner::Me)@.len() > 0
            && #[trigger] decision_chain(origins[k], pre, chain);
    assert(seq![origins[k]][0] == origins[k]);
    assert(seq![origins[k]][0].action_set.spec_get(Owner::Me)@.len() > 0);
    assert(decision_chain(seq![origins[k]][0], pre, chain));
    assert(derived_from(seq![origins[k]], pre));
    assert(turn_link(origins[k], out));
    lemma_beam_extend(start, origins[k], out);
}

/// The beam search over whole turns: expand the frontier to all resolved
/// successors, score them, keep up to the width bound by score-weighted
/// sampling without replacement, and stop at the iteration cap or when the
/// deadline has passed. The returned planification is the one accumulated
/// by a final score-weighted choice among the surviving states — or, should
/// the weight total not fit the sampler's accumulator, by the first
/// heaviest state. Every returned planification is the log of a state
/// reached from the initial one by whole resolved turns, or the empty
/// planification, which downstream degrades to waiting; with no friendly
/// root owing a decision it is always the empty one.
pub fn planifier(state: &State, managing: &mut Managing) -> (r: Planification)
    requires
        state.wf(),
    ensures
        r.content@.len() >= 1,
        planifier_result_ok(*state, r.view_turns()),
        (old(managing).nb_max_iteration >= 1 && state.action_set.spec_get(Owner::Me)@.len() == 0)
            ==> r.view_turns() == seq![Seq::<Decision>::empty()],
        (old(managing).nb_max_iteration >= 1 && old(managing).nb_to_choose >= 1
            && fruitful_search(*state)) ==> r.view_turns().len() >= 2,
{
    let mut states: Vec<WeightedState> = Vec::new();
    let first = state.duplicate();
    proof {
        assert(same_views(first, *state));
        lemma_beam_single(*state, first);
    }
    states.push(WeightedState { state: first, weight: 1 });
    let max_iter = managing.nb_max_iteration;
    let mut it: u8 = 0;
    let mut done = false;
    while it < max_iter && !done
        invariant
            state.wf(),
            managing.nb_to_choose == old(managing).nb_to_choose,
            forall|k: int| 0 <= k < states@.len() ==> (#[trigger] states@[k]).state.wf(),
            forall|k: int|
                0 <= k < states@.len() ==> turns_reachable(*state, (#[trigger] states@[k]).state),
            state.action_set.spec_get(Owner::Me)@.len() == 0 ==> (it >= 1 ==> states@.len() == 0)
                && forall|k: int|
                0 <= k < states@.len() ==> (#[trigger] states@[k]).state.action_set.spec_get(
                    Owner::Me,
                )@.len() == 0,
            (fruitful_search(*state) && old(managing).nb_to_choose >= 1) ==> states@.len() >= 1
                && forall|k: int|
                0 <= k < states@.len() ==> (#[trigger] states@[k]).weight > 0
                    && states@[k].state.action_set.spec_get(Owner::Me)@.len() > 0,
            (fruitful_search(*state) && old(managing).nb_to_choose >= 1 && it >= 1) ==> forall|
                k: int,
            |
                0 <= k < states@.len() ==> resolved_state((#[trigger] states@[k]).state),
            done ==> it >= 1,
        decreases max_iter - it, if done { 0int } else { 1int },
    {
        let mut frontier: Vec<State> = Vec::new();
        while states.len() > 0
            invariant
                forall|k: int| 0 <= k < states@.len() ==> (#[trigger] states@[k]).state.wf(),
                forall|k: int|
                    0 <= k < states@.len() ==> turns_reachable(
                        *state,
                        (#[trigger] states@[k]).state,
                    ),
                forall|k: int| 0 <= k < frontier@.len() ==> (#[trigger] frontier@[k]).wf(),
                forall|k: int|
                    0 <= k < frontier@.len() ==> turns_reachable(*state, #[trigger] frontier@[k]),
                state.action_set.spec_get(Owner::Me)@.len() == 0 ==> (forall|k: int|
                    0 <= k < states@.len() ==> (#[trigger] states@[k]).state.action_set.spec_get(
                        Owner::Me,
                    )@.len() == 0) && (forall|k: int|
                    0 <= k < frontier@.len() ==> (#[trigger] frontier@[k]).action_set.spec_get(
                        Owner::Me,
                    )@.len() == 0),
                (fruitful_search(*state) && old(managing).nb_to_choose >= 1) ==> states@.len()
                    + frontier@.len() >= 1 && (forall|k: int|
                    0 <= k < states@.len() ==> (#[trigger] states@[k]).state.action_set.spec_get(
                        Owner::Me,
                    )@.len() > 0) && (forall|k: int|
                    0 <= k < frontier@.len() ==> (#[trigger] frontier@[k]).action_set.spec_get(
                        Owner::Me,
                    )@.len() > 0),
            decreases states@.len(),
        {
            let ws = states.remove(0);
            frontier.push(ws.state);
        }
        let mut finished = realiser_tour(frontier);
        proof {
            assert forall|k: int| 0 <= k < finished@.len() implies (#[trigger] finished@[k]).wf()
                && turns_reachable(*state, finished@[k]) by {
                assert(resolved_state(finished@[k]));
                lemma_outcome_reachable(*state, frontier@, finished@[k]);
            }
            if state.action_set.spec_get(Owner::Me)@.len() == 0 {
                assert(finished@.len() == 0);
            }
            if fruitful_search(*state) && managing.nb_to_choose >= 1 {
                assert(frontier@[0].action_set.spec_get(Owner::Me)@.len() > 0);
                assert(finished@.len() >= 1);
            }
        }
        let ghost finished0 = finished@;
        let mut weighted: Vec<WeightedState> = Vec::new();
        while finished.len() > 0
            invariant
                state.wf(),
                forall|k: int| 0 <= k < finished@.len() ==> (#[trigger] finished@[k]).wf(),
                forall|k: int| 0 <= k < finished@.len() ==> resolved_state(#[trigger] finished@[k]),
                forall|k: int|
                    0 <= k < finished@.len() ==> turns_reachable(*state, #[trigger] finished@[k]),
                forall|k: int| 0 <= k < weighted@.len() ==> (#[trigger] weighted@[k]).state.wf(),
                forall|k: int|
                    0 <= k < weighted@.len() ==> resolved_state((#[trigger] weighted@[k]).state)
                        && (#[trigger] weighted@[k]).weight as int == weight_spec(
                        weighted@[k].state,
                    ),
                forall|k: int|
                    0 <= k < weighted@.len() ==> turns_reachable(
                        *state,
                        (#[trigger] weighted@[k]).state,
                    ),
                weighted@.len() + finished@.len() == finished0.len(),
            decreases finished@.len(),
        {
            let s = finished.remove(0);
            weighted.push(juger(s));
        }
        let nb = managing.nb_to_choose;
        let mut weights: Vec<u32> = Vec::new();
        let mut idx: Vec<usize> = Vec::new();
        let wn = weighted.len();
        let mut i: usize = 0;
        while i < wn
            invariant
                i <= wn,
                wn == weighted@.len(),
                weights@.len() == i as int,
                idx@.len() == i as int,
                forall|k: int| 0 <= k < i as int ==> idx@[k] == k,
                forall|k: int| 0 <= k < weighted@.len() ==> (#[trigger] weighted@[k]).state.wf(),
            decreases wn - i,
        {
            weights.push(weighted[i].weight);
            idx.push(i);
            i = i + 1;
        }
        let picks = sampling::sample_indices_weighted(&idx, &weights, nb, &mut managing.rng);
        let mut new_states: Vec<WeightedState> = Vec::new();
        let pn = picks.len();
        let mut k: usize = 0;
        while k < pn
            invariant
                state.wf(),
                k <= pn,
                pn == picks@.len(),
                forall|e: int| 0 <= e < picks@.len() ==> picks@[e] < weighted@.len(),
                forall|e: int| 0 <= e < weighted@.len() ==> (#[trigger] weighted@[e]).state.wf(),
                forall|e: int|
                    0 <= e < weighted@.len() ==> resolved_state((#[trigger] weighted@[e]).state)
                        && (#[trigger] weighted@[e]).weight as int == weight_spec(
                        weighted@[e].state,
                    ),
                forall|e: int|
                    0 <= e < weighted@.len() ==> turns_reachable(
                        *state,
                        (#[trigger] weighted@[e]).state,
                    ),
                forall|e: int| 0 <= e < new_states@.len() ==> (
                #[trigger] new_states@[e]).state.wf(),
                forall|e: int|
                    0 <= e < new_states@.len() ==> turns_reachable(
                        *state,
                        (#[trigger] new_states@[e]).state,
                    ),
                fruitful_search(*state) ==> forall|e: int|
                    0 <= e < new_states@.len() ==> (#[trigger] new_states@[e]).weight > 0
                        && new_states@[e].state.action_set.spec_get(Owner::Me)@.len() > 0
                        && resolved_state(new_states@[e].state),
                new_states@.len() == k as int,
            decreases pn - k,
        {
            let pi = picks[k];
            let chosen = &weighted[pi];
            let copy = chosen.state.duplicate();
            proof {
                assert(same_views(copy, weighted@[pi as int].state));
                lemma_beam_extend(*state, weighted@[pi as int].state, copy);
                if fruitful_search(*state) {
                    assert(turns_reachable(*state, weighted@[pi as int].state) && resolved_state(
                        weighted@[pi as int].state,
                    ));
                    assert(weighted@[pi as int].weight > 0);
                    let pre = choose|pre: State|
                        pre.wf() && pre.action_set.spec_get(Owner::Me)@.len() == 0
                            && #[trigger] pre.turn_resolved(weighted@[pi as int].state);
                    assert(pre.turn_resolved(copy)) by {
                        crate::step::lemma_same_board_same_views(
                            weighted@[pi as int].state,
                            copy,
                        );
                    }
                    assert(resolved_state(copy));
                }
            }
            new_states.push(WeightedState { state: copy, weight: chosen.weight });
            k = k + 1;
        }
        proof {
            if state.action_set.spec_get(Owner::Me)@.len() == 0 {
                assert(finished0.len() == 0);
                assert(weighted@.len() == 0);
                assert(picks@.len() == 0);
                assert(new_states@.len() == 0);
            }
            if fruitful_search(*state) && managing.nb_to_choose >= 1 {
                assert(weighted@.len() >= 1);
                assert(picks@.len() >= 1);
                assert(new_states@.len() >= 1);
            }
        }
        states = new_states;
        if managing.is_finished() {
            done = true;
        }
        it = it + 1;
    }
    let mut weights: Vec<u32> = Vec::new();
    let mut idx: Vec<usize> = Vec::new();
    let mut total: u128 = 0;
    let sn = states.len();
    let mut i: usize = 0;
    while i < sn
        invariant
            i <= sn,
            sn == states@.len(),
            weights@.len() == i as int,
            idx@.len() == i as int,
            forall|k: int| 0 <= k < i as int ==> idx@[k] == k,
            forall|k: int| 0 <= k < i as int ==> weights@[k] == (#[trigger] states@[k]).weight,
            forall|k: int| 0 <= k < states@.len() ==> (#[trigger] states@[k]).state.wf(),
            forall|k: int|
                0 <= k < states@.len() ==> turns_reachable(*state, (#[trigger] states@[k]).state),
            total as int == crate::sampling::weights_total(weights@, i as int),
            total <= i as u128 * 0xffff_ffff,
        decreases sn - i,
    {
        let ghost w_old = weights@;
        weights.push(states[i].weight);
        idx.push(i);
        total = total + states[i].weight as u128;
        proof {
            lemma_weights_total_push(w_old, states@[i as int].weight, i as int);
            assert(weights@[i as int] == states@[i as int].weight);
        }
        i = i + 1;
    }
    let picked: Option<usize> = if total <= 0xffff_ffff {
        sampling::pick_index_weighted(&idx, &weights, &mut managing.rng)
    } else {
        pick_max_index(&weights)
    };
    match picked {
        Some(pi) => {
            let plan = states[pi].state.planification();
            proof {
                assert(states@[pi as int].state.wf());
                assert(plan.content@.len() == plan.view_turns().len());
                assert(states@[pi as int].state.plan.content@.len() == states@[
                    pi as int].state.plan.view_turns().len());
                assert(plan.view_turns().len() == states@[
                    pi as int].state.plan.view_turns().len());
                assert(plan.content@.len() >= 1);
                assert(turns_reachable(*state, states@[pi as int].state));
                assert(plan.view_turns() == states@[pi as int].state.plan.view_turns());
                assert(planifier_result_ok(*state, plan.view_turns()));
                if max_iter >= 1 && managing.nb_to_choose >= 1 && fruitful_search(*state) {
                    assert(it >= 1);
                    assert(resolved_state(states@[pi as int].state));
                    let pre = choose|pre: State|
                        pre.wf() && pre.action_set.spec_get(Owner::Me)@.len() == 0
                            && #[trigger] pre.turn_resolved(states@[pi as int].state);
                    assert(pre.plan.content@.len() == pre.plan.view_turns().len());
                    assert(plan.view_turns().len() >= 2);
                }
            }
            plan
        },
        None => {
            let d = Planification::default();
            proof {
                assert(d.content@.len() == d.view_turns().len());
                assert(d.view_turns() == seq![Seq::<Decision>::empty()]);
                if max_iter >= 1 && managing.nb_to_choose >= 1 && fruitful_search(*state) {
                    assert(states@.len() >= 1);
                    assert(weights@[0] == states@[0].weight);
                    assert(weights@[0] > 0);
                    assert(false);
                }
            }
            d
        },
    }
}

/// Decide the current turn: plan from the given snapshot and hand back
/// exactly as many decisions as the protocol owes — the first turn of a
/// plan the driver may return (the log of a state reached by whole resolved
/// turns, or the empty plan), padded with waits.
pub fn make_decision(state: &State, managing: &mut Managing) -> (r: Vec<Decision>)
    requires
        state.wf(),
    ensures
        r@.len() == state.action_count.0 as int,
        exists|turns: Seq<Seq<Decision>>|
            #[trigger] planifier_result_ok(*state, turns) && turns.len() >= 1 && forall|i: int|
                0 <= i < r@.len() ==> r@[i] == if i < turns[0].len() {
                    turns[0][i]
                } else {
                    Decision::Wait
                },
        (old(managing).nb_max_iteration >= 1 && old(managing).nb_to_choose >= 1
            && fruitful_search(*state)) ==> exists|turns: Seq<Seq<Decision>>|
            #[trigger] planifier_result_ok(*state, turns) && turns.len() >= 2 && forall|i: int|
                0 <= i < r@.len() ==> r@[i] == if i < turns[0].len() {
                    turns[0][i]
                } else {
                    Decision::Wait
                },
{
    let plan = planifier(state, managing);
    proof {
        assert(plan.view_turns().len() == plan.content@.len());
    }
    let ghost turns = plan.view_turns();
    let first = plan.take_first_turn();
    let r = pad_first_turn(&first, state.get_action_count().0);
    proof {
        assert(first@ == turns[0]);
        assert(planifier_result_ok(*state, turns) && turns.len() >= 1 && forall|i: int|
            0 <= i < r@.len() ==> r@[i] == if i < turns[0].len() {
                turns[0][i]
            } else {
                Decision::Wait
            });
    }
    r
}

} // verus!

verus! {

/// One collection step claims exactly the stepped-to coordinate, when it is
/// growable, on top of what was already claimed.
proof fn lemma_cand_step_membership(
    s: State,
    acc: Seq<(Coord, Id)>,
    from: Coord,
    parent: Id,
    d: Direction,
    co: Coord,
)
    ensures
        contains_cand_coord(s.cand_step(acc, from, parent, d), co) <==> (contains_cand_coord(
            acc,
            co,
        ) || (from.spec_decaler(d) == Some(co) && s.spec_growable_at(co))),
{
    let cur = s.cand_step(acc, from, parent, d);
    match from.spec_decaler(d) {
        Some(c) => {
            if s.spec_growable_at(c) && !contains_cand_coord(acc, c) {
                assert(cur == acc.push((c, parent)));
                if contains_cand_coord(acc, co) {
                    let k = choose|k: int| 0 <= k < acc.len() && (#[trigger] acc[k]).0 == co;
                    assert(cur[k].0 == co);
                }
                if co == c {
                    assert(cur[cur.len() - 1].0 == co);
                }
                if contains_cand_coord(cur, co) {
                    let k = choose|k: int| 0 <= k < cur.len() && (#[trigger] cur[k]).0 == co;
                    if k < acc.len() {
                        assert(acc[k].0 == co);
                    }
                }
            }
        },
        None => {},
    }
}

/// One cell's contribution claims exactly the growable neighbours of an
/// organ of the organism, on top of what was already claimed.
proof fn lemma_cand_cell_membership(
    s: State,
    acc: Seq<(Coord, Id)>,
    c: Cell,
    root_id: Id,
    co: Coord,
)
    ensures
        contains_cand_coord(s.cand_cell(acc, c, root_id), co) <==> (contains_cand_coord(acc, co)
            || (organe_of(c) is Some && organe_of(c)->0.root_id == root_id && spec_adjacent(
            c.coord,
            co,
        ) && s.spec_growable_at(co))),
{
    match organe_of(c) {
        Some(o) => {
            if o.root_id == root_id {
                let a1 = s.cand_step(acc, c.coord, o.id, Direction::N);
                let a2 = s.cand_step(a1, c.coord, o.id, Direction::S);
                let a3 = s.cand_step(a2, c.coord, o.id, Direction::E);
                lemma_cand_step_membership(s, acc, c.coord, o.id, Direction::N, co);
                lemma_cand_step_membership(s, a1, c.coord, o.id, Direction::S, co);
                lemma_cand_step_membership(s, a2, c.coord, o.id, Direction::E, co);
                lemma_cand_step_membership(s, a3, c.coord, o.id, Direction::W, co);
                if spec_adjacent(c.coord, co) && s.spec_growable_at(co) {
                    let d = choose|d: Direction| c.coord.spec_decaler(d) == Some(co);
                    assert(contains_cand_coord(s.cand_cell(acc, c, root_id), co)) by {
                        match d {
                            Direction::N => {},
                            Direction::S => {},
                            Direction::E => {},
                            Direction::W => {},
                        }
                    }
                }
                if contains_cand_coord(s.cand_cell(acc, c, root_id), co) && !contains_cand_coord(
                    acc,
                    co,
                ) {
                    assert(spec_adjacent(c.coord, co) && s.spec_growable_at(co));
                }
            }
        },
        None => {},
    }
}

/// One collection step keeps the claimed coordinates pairwise distinct.
proof fn lemma_cand_step_distinct(
    s: State,
    acc: Seq<(Coord, Id)>,
    from: Coord,
    parent: Id,
    d: Direction,
)
    requires
        forall|e: int, f: int|
            0 <= e < f < acc.len() ==> (#[trigger] acc[e]).0 != (#[trigger] acc[f]).0,
    ensures
        forall|e: int, f: int|
            0 <= e < f < s.cand_step(acc, from, parent, d).len() ==> (#[trigger] s.cand_step(
                acc,
                from,
                parent,
                d,
            )[e]).0 != (#[trigger] s.cand_step(acc, from, parent, d)[f]).0,
{
    let cur = s.cand_step(acc, from, parent, d);
    match from.spec_decaler(d) {
        Some(c) => {
            if s.spec_growable_at(c) && !contains_cand_coord(acc, c) {
                assert forall|e: int, f: int| 0 <= e < f < cur.len() implies (
                #[trigger] cur[e]).0 != (#[trigger] cur[f]).0 by {
                    if f == cur.len() - 1 {
                        assert(cur[e] == acc[e]);
                        if acc[e].0 == c {
                            assert(contains_cand_coord(acc, c));
                        }
                    }
                }
            }
        },
        None => {},
    }
}

/// The claimed coordinates of any collection prefix are pairwise distinct.
proof fn lemma_cand_upto_distinct(s: State, root_id: Id, n: int)
    ensures
        forall|e: int, f: int|
            0 <= e < f < s.cand_upto(root_id, n).len() ==> (#[trigger] s.cand_upto(
                root_id,
                n,
            )[e]).0 != (#[trigger] s.cand_upto(root_id, n)[f]).0,
    decreases n,
{
    if n > 0 {
        lemma_cand_upto_distinct(s, root_id, n - 1);
        let prev = s.cand_upto(root_id, n - 1);
        let c = s.cells@[n - 1];
        match organe_of(c) {
            Some(o) => {
                if o.root_id == root_id {
                    let a1 = s.cand_step(prev, c.coord, o.id, Direction::N);
                    let a2 = s.cand_step(a1, c.coord, o.id, Direction::S);
                    let a3 = s.cand_step(a2, c.coord, o.id, Direction::E);
                    lemma_cand_step_distinct(s, prev, c.coord, o.id, Direction::N);
                    lemma_cand_step_distinct(s, a1, c.coord, o.id, Direction::S);
                    lemma_cand_step_distinct(s, a2, c.coord, o.id, Direction::E);
                    lemma_cand_step_distinct(s, a3, c.coord, o.id, Direction::W);
                }
            },
            None => {},
        }
    }
}

/// Membership over a collection prefix: a coordinate is claimed exactly
/// when it is growable and adjacent to one of the organism's organs among
/// those cells.
proof fn lemma_cand_upto_membership(s: State, root_id: Id, n: int, co: Coord)
    requires
        0 <= n <= s.cells@.len(),
    ensures
        contains_cand_coord(s.cand_upto(root_id, n), co) <==> (s.spec_growable_at(co) && exists|
            k: int,
        |
            0 <= k < n && organe_of(#[trigger] s.cells@[k]) is Some && organe_of(
                s.cells@[k],
            )->0.root_id == root_id && spec_adjacent(s.cells@[k].coord, co)),
    decreases n,
{
    if n > 0 {
        lemma_cand_upto_membership(s, root_id, n - 1, co);
        lemma_cand_cell_membership(s, s.cand_upto(root_id, n - 1), s.cells@[n - 1], root_id, co);
    }
}

/// The grow-candidate set is exactly the fertile frontier of the organism:
/// a coordinate is claimed if and only if it is growable — empty or holding
/// a protein, on the board — and adjacent to one of the organism's organs;
/// and no coordinate is claimed twice.
pub proof fn lemma_grow_candidates_characterized(s: State, root_id: Id)
    ensures
        forall|co: Coord|
            contains_cand_coord(s.spec_grow_candidates(root_id), co) <==> (s.spec_growable_at(co)
                && exists|k: int|
                0 <= k < s.cells@.len() && organe_of(#[trigger] s.cells@[k]) is Some && organe_of(
                    s.cells@[k],
                )->0.root_id == root_id && spec_adjacent(s.cells@[k].coord, co)),
        forall|e: int, f: int|
            0 <= e < f < s.spec_grow_candidates(root_id).len() ==> (
            #[trigger] s.spec_grow_candidates(root_id)[e]).0 != (#[trigger] s.spec_grow_candidates(
                root_id,
            )[f]).0,
{
    let n = s.cells@.len() as int;
    lemma_cand_upto_distinct(s, root_id, n);
    assert forall|co: Coord|
        contains_cand_coord(s.spec_grow_candidates(root_id), co) <==> (s.spec_growable_at(co)
            && exists|k: int|
            0 <= k < s.cells@.len() && organe_of(#[trigger] s.cells@[k]) is Some && organe_of(
                s.cells@[k],
            )->0.root_id == root_id && spec_adjacent(s.cells@[k].coord, co)) by {
        lemma_cand_upto_membership(s, root_id, n, co);
    }
}

} // verus!

verus! {

/// Two snapshots over the same board claim the same grow candidates.
proof fn lemma_cand_upto_eq(a: State, b: State, root_id: Id, n: int)
    requires
        a.cells@ == b.cells@,
        a.dimension == b.dimension,
        forall|i: int, j: int|
            0 <= i < j < a.cells@.len() ==> (#[trigger] a.cells@[i]).coord != (
            #[trigger] a.cells@[j]).coord,
    ensures
        a.cand_upto(root_id, n) == b.cand_upto(root_id, n),
    decreases n,
{
    if n > 0 {
        lemma_cand_upto_eq(a, b, root_id, n - 1);
        let c = a.cells@[n - 1];
        match crate::state::organe_of(c) {
            Some(o) => {
                if o.root_id == root_id {
                    assert forall|acc: Seq<(Coord, Id)>, d: Direction|
                        #[trigger] a.cand_step(acc, c.coord, o.id, d) == b.cand_step(
                        acc,
                        c.coord,
                        o.id,
                        d,
                    ) by {
                        match c.coord.spec_decaler(d) {
                            Some(nc) => {
                                crate::step::lemma_entity_at_eq(a, b, nc);
                            },
                            None => {},
                        }
                    }
                }
            },
            None => {},
        }
    }
}

/// Two snapshots over the same board agree on every sporer ray.
proof fn lemma_ray_eq(a: State, b: State, from: Coord, dir: Direction, fuel: int)
    requires
        a.cells@ == b.cells@,
        a.dimension == b.dimension,
        forall|i: int, j: int|
            0 <= i < j < a.cells@.len() ==> (#[trigger] a.cells@[i]).coord != (
            #[trigger] a.cells@[j]).coord,
    ensures
        a.spec_ray(from, dir, fuel) == b.spec_ray(from, dir, fuel),
    decreases fuel,
{
    if fuel > 0 {
        match from.spec_decaler(dir) {
            Some(c) => {
                crate::step::lemma_entity_at_eq(a, b, c);
                lemma_ray_eq(a, b, c, dir, fuel - 1);
            },
            None => {},
        }
    }
}

/// Two snapshots over the same board offer the same spore candidates.
proof fn lemma_spores_upto_eq(a: State, b: State, root_id: Id, n: int)
    requires
        a.cells@ == b.cells@,
        a.dimension == b.dimension,
        forall|i: int, j: int|
            0 <= i < j < a.cells@.len() ==> (#[trigger] a.cells@[i]).coord != (
            #[trigger] a.cells@[j]).coord,
    ensures
        a.spores_upto(root_id, n) == b.spores_upto(root_id, n),
    decreases n,
{
    if n > 0 {
        lemma_spores_upto_eq(a, b, root_id, n - 1);
        let c = a.cells@[n - 1];
        match crate::state::organe_of(c) {
            Some(o) => {
                if o.root_id == root_id && o.organe_type is Sporer {
                    lemma_ray_eq(a, b, c.coord, o.dir, 100);
                }
            },
            None => {},
        }
    }
}

/// Snapshots with the same views are interchangeable as predecessors: they
/// are equally well formed, offer the same candidates, accept the same
/// decisions with the same successors, and resolve to the same turn ends.
#[verifier::rlimit(100)]
proof fn lemma_same_views_same_steps(a: State, b: State)
    requires
        same_views(a, b),
        a.wf(),
    ensures
        b.wf(),
        forall|root_id: Id, s: State| #[trigger]
            a.wait_applied(root_id, s) == b.wait_applied(root_id, s),
        forall|g: Grow| #[trigger] a.spec_grow_ok(g) == b.spec_grow_ok(g),
        forall|g: Grow, s: State| #[trigger] a.grow_applied(g, s) == b.grow_applied(g, s),
        forall|sp: Spore| #[trigger] a.spec_spore_ok(sp) == b.spec_spore_ok(sp),
        forall|sp: Spore, s: State| #[trigger] a.spore_applied(sp, s) == b.spore_applied(sp, s),
        forall|out: State| #[trigger] a.turn_resolved(out) == b.turn_resolved(out),
        forall|root_id: Id| #[trigger]
            a.spec_grow_candidates(root_id) == b.spec_grow_candidates(root_id),
        forall|root_id: Id| #[trigger]
            a.spec_spore_candidates(root_id) == b.spec_spore_candidates(root_id),
{
    let n = a.cells@.len() as int;
    assert(b.plan.content@.len() == b.plan.view_turns().len());
    assert(a.plan.content@.len() == a.plan.view_turns().len());
    assert forall|k: int| 0 <= k < b.cells@.len() implies b.cell_ok(#[trigger] b.cells@[k]) by {
        assert(a.cell_ok(a.cells@[k]));
    }
    assert(b.wf());
    crate::step::lemma_same_board_same_views(a, b);
    assert forall|id: Id| #[trigger] a.spec_get_by_id(id) == b.spec_get_by_id(id) by {
        crate::step::lemma_get_by_id_eq(a, b, id);
    }
    assert forall|root_id: Id| #[trigger] a.spec_grow_candidates(root_id)
        == b.spec_grow_candidates(root_id) by {
        lemma_cand_upto_eq(a, b, root_id, n);
    }
    assert forall|root_id: Id| #[trigger] a.spec_spore_candidates(root_id)
        == b.spec_spore_candidates(root_id) by {
        lemma_spores_upto_eq(a, b, root_id, n);
    }
    assert forall|g: Grow| #[trigger] a.spec_grow_ok(g) == b.spec_grow_ok(g) by {
        crate::step::lemma_get_by_id_eq(a, b, g.parent_id);
    }
    assert forall|g: Grow, s: State| #[trigger] a.grow_applied(g, s) == b.grow_applied(g, s) by {
        crate::step::lemma_get_by_id_eq(a, b, g.parent_id);
        match g.coord.spec_decaler(g.direction) {
            Some(fc) => {
                crate::step::lemma_entity_at_eq(a, b, fc);
            },
            None => {},
        }
    }
    assert forall|sp: Spore| #[trigger] a.spec_spore_ok(sp) == b.spec_spore_ok(sp) by {
        crate::step::lemma_get_by_id_eq(a, b, sp.parent_id);
        if a.spec_get_by_id(sp.parent_id) is Some {
            let pc = a.spec_get_by_id(sp.parent_id)->0.coord;
            crate::step::lemma_entity_at_eq(a, b, pc);
            crate::step::lemma_spore_path_eq(
                a,
                b,
                pc,
                a.spec_sporer_dir(sp.parent_id),
                sp.coord,
                100,
            );
        }
    }
    assert forall|sp: Spore, s: State| #[trigger] a.spore_applied(sp, s) == b.spore_applied(
        sp,
        s,
    ) by {
        crate::step::lemma_get_by_id_eq(a, b, sp.parent_id);
    }
    assert forall|root_id: Id, s: State| #[trigger] a.wait_applied(root_id, s)
        == b.wait_applied(root_id, s) by {
        assert forall|co: Coord| a.spec_get_by_coord(co) == b.spec_get_by_coord(co) by {
            assert(a.spec_entity_at(co) == b.spec_entity_at(co));
        }
    }
}

} // verus!

verus! {

/// One step the generator itself offers from `a`: the first owed friendly
/// root waits, grows over one of the claimed candidate coordinates in one
/// of the sixteen kind/facing combinations, or spores to one of the ray
/// targets — accepted by the corresponding applier.
pub open spec fn gen_step(a: State, b: State) -> bool {
    let r0 = a.action_set.spec_get(Owner::Me)@[0];
    &&& a.action_set.spec_get(Owner::Me)@.len() > 0
    &&& ({
        ||| a.wait_applied(r0, b)
        ||| exists|q: int, t: int|
            0 <= q < a.spec_grow_candidates(r0).len() && 0 <= t < 16 && a.spec_grow_ok(
                #[trigger] spec_grows_of(
                    a.spec_grow_candidates(r0)[q].0,
                    a.spec_grow_candidates(r0)[q].1,
                )[t],
            ) && a.grow_applied(
                spec_grows_of(
                    a.spec_grow_candidates(r0)[q].0,
                    a.spec_grow_candidates(r0)[q].1,
                )[t],
                b,
            )
        ||| exists|p: int|
            0 <= p < a.spec_spore_candidates(r0).len() && a.spec_spore_ok(
                #[trigger] a.spec_spore_candidates(r0)[p],
            ) && a.spore_applied(a.spec_spore_candidates(r0)[p], b)
    })
}

/// `chain` runs from `start` through generator steps.
pub open spec fn gen_chain(start: State, chain: Seq<State>) -> bool {
    &&& chain.len() >= 1
    &&& chain[0] == start
    &&& forall|i: int| 0 < i < chain.len() ==> gen_step(chain[i - 1], #[trigger] chain[i])
}

/// `e` is the end of some generator chain from an origin that owed a
/// decision.
pub open spec fn gen_reachable(origins: Seq<State>, e: State) -> bool {
    exists|k: int, chain: Seq<State>|
        0 <= k < origins.len() && origins[k].action_set.spec_get(Owner::Me)@.len() > 0
            && #[trigger] gen_chain(origins[k], chain) && chain.last() == e
}

/// Some element of `v` carries the same views as `e`.
pub open spec fn rep_in(v: Seq<State>, e: State) -> bool {
    exists|j: int| 0 <= j < v.len() && same_views(#[trigger] v[j], e)
}

/// Some element of `outs` is the turn resolution of `pre`.
pub open spec fn resolution_in(pre: State, outs: Seq<State>) -> bool {
    exists|j: int| 0 <= j < outs.len() && #[trigger] pre.turn_resolved(outs[j])
}

/// Generator steps depend on the predecessor only through its views.
proof fn lemma_gen_step_same(a: State, b: State, c: State)
    requires
        same_views(a, b),
        a.wf(),
    ensures
        gen_step(a, c) == gen_step(b, c),
{
    lemma_same_views_same_steps(a, b);
    let r0 = a.action_set.spec_get(Owner::Me)@[0];
    assert(b.action_set.spec_get(Owner::Me)@[0] == r0);
    assert(a.spec_grow_candidates(r0) == b.spec_grow_candidates(r0));
    assert(a.spec_spore_candidates(r0) == b.spec_spore_candidates(r0));
    if a.action_set.spec_get(Owner::Me)@.len() > 0 {
        if exists|q: int, t: int|
            0 <= q < a.spec_grow_candidates(r0).len() && 0 <= t < 16 && a.spec_grow_ok(
                #[trigger] spec_grows_of(
                    a.spec_grow_candidates(r0)[q].0,
                    a.spec_grow_candidates(r0)[q].1,
                )[t],
            ) && a.grow_applied(
                spec_grows_of(
                    a.spec_grow_candidates(r0)[q].0,
                    a.spec_grow_candidates(r0)[q].1,
                )[t],
                c,
            ) {
            let (q, t) = choose|q: int, t: int|
                0 <= q < a.spec_grow_candidates(r0).len() && 0 <= t < 16 && a.spec_grow_ok(
                    #[trigger] spec_grows_of(
                        a.spec_grow_candidates(r0)[q].0,
                        a.spec_grow_candidates(r0)[q].1,
                    )[t],
                ) && a.grow_applied(
                    spec_grows_of(
                        a.spec_grow_candidates(r0)[q].0,
                        a.spec_grow_candidates(r0)[q].1,
                    )[t],
                    c,
                );
            assert(b.spec_grow_ok(
                spec_grows_of(
                    b.spec_grow_candidates(r0)[q].0,
                    b.spec_grow_candidates(r0)[q].1,
                )[t],
            ) && b.grow_applied(
                spec_grows_of(
                    b.spec_grow_candidates(r0)[q].0,
                    b.spec_grow_candidates(r0)[q].1,
                )[t],
                c,
            ));
        }
        if exists|q: int, t: int|
            0 <= q < b.spec_grow_candidates(r0).len() && 0 <= t < 16 && b.spec_grow_ok(
                #[trigger] spec_grows_of(
                    b.spec_grow_candidates(r0)[q].0,
                    b.spec_grow_candidates(r0)[q].1,
                )[t],
            ) && b.grow_applied(
                spec_grows_of(
                    b.spec_grow_candidates(r0)[q].0,
                    b.spec_grow_candidates(r0)[q].1,
                )[t],
                c,
            ) {
            let (q, t) = choose|q: int, t: int|
                0 <= q < b.spec_grow_candidates(r0).len() && 0 <= t < 16 && b.spec_grow_ok(
                    #[trigger] spec_grows_of(
                        b.spec_grow_candidates(r0)[q].0,
                        b.spec_grow_candidates(r0)[q].1,
                    )[t],
                ) && b.grow_applied(
                    spec_grows_of(
                        b.spec_grow_candidates(r0)[q].0,
                        b.spec_grow_candidates(r0)[q].1,
                    )[t],
                    c,
                );
            assert(a.spec_grow_ok(
                spec_grows_of(
                    a.spec_grow_candidates(r0)[q].0,
                    a.spec_grow_candidates(r0)[q].1,
                )[t],
            ) && a.grow_applied(
                spec_grows_of(
                    a.spec_grow_candidates(r0)[q].0,
                    a.spec_grow_candidates(r0)[q].1,
                )[t],
                c,
            ));
        }
        if exists|p: int|
            0 <= p < a.spec_spore_candidates(r0).len() && a.spec_spore_ok(
                #[trigger] a.spec_spore_candidates(r0)[p],
            ) && a.spore_applied(a.spec_spore_candidates(r0)[p], c) {
            let p = choose|p: int|
                0 <= p < a.spec_spore_candidates(r0).len() && a.spec_spore_ok(
                    #[trigger] a.spec_spore_candidates(r0)[p],
                ) && a.spore_applied(a.spec_spore_candidates(r0)[p], c);
            assert(b.spec_spore_ok(b.spec_spore_candidates(r0)[p]) && b.spore_applied(
                b.spec_spore_candidates(r0)[p],
                c,
            ));
        }
        if exists|p: int|
            0 <= p < b.spec_spore_candidates(r0).len() && b.spec_spore_ok(
                #[trigger] b.spec_spore_candidates(r0)[p],
            ) && b.spore_applied(b.spec_spore_candidates(r0)[p], c) {
            let p = choose|p: int|
                0 <= p < b.spec_spore_candidates(r0).len() && b.spec_spore_ok(
                    #[trigger] b.spec_spore_candidates(r0)[p],
                ) && b.spore_applied(b.spec_spore_candidates(r0)[p], c);
            assert(a.spec_spore_ok(a.spec_spore_candidates(r0)[p]) && a.spore_applied(
                a.spec_spore_candidates(r0)[p],
                c,
            ));
        }
    }
}

/// Dropping the last element of a generator chain of two or more steps
/// leaves a generator chain.
proof fn lemma_gen_chain_prefix(start: State, chain: Seq<State>)
    requires
        gen_chain(start, chain),
        chain.len() >= 2,
    ensures
        gen_chain(start, chain.drop_last()),
        gen_step(chain[chain.len() - 2], chain.last()),
{
    let p = chain.drop_last();
    assert(p[0] == chain[0]);
    assert forall|i: int| 0 < i < p.len() implies gen_step(p[i - 1], #[trigger] p[i]) by {
        assert(p[i] == chain[i]);
        assert(p[i - 1] == chain[i - 1]);
    }
    assert(gen_step(chain[chain.len() - 1 - 1], chain[chain.len() - 1]));
}

/// One generator step keeps the successor well formed and spends exactly
/// one owed action.
proof fn lemma_gen_step_owed(a: State, b: State)
    requires
        a.wf(),
        gen_step(a, b),
    ensures
        b.wf(),
        b.action_set.spec_get(Owner::Me)@.len() < a.action_set.spec_get(Owner::Me)@.len(),
{
    let acts = a.action_set.spec_get(Owner::Me)@;
    let r0 = acts[0];
    assert(acts.contains(r0));
    assert(r0.owner == Owner::Me);
    crate::state::lemma_remove_id(acts, r0, acts.len() as int);
    if a.wait_applied(r0, b) {
    } else if exists|q: int, t: int|
        0 <= q < a.spec_grow_candidates(r0).len() && 0 <= t < 16 && a.spec_grow_ok(
            #[trigger] spec_grows_of(
                a.spec_grow_candidates(r0)[q].0,
                a.spec_grow_candidates(r0)[q].1,
            )[t],
        ) && a.grow_applied(
            spec_grows_of(a.spec_grow_candidates(r0)[q].0, a.spec_grow_candidates(r0)[q].1)[t],
            b,
        ) {
        let (q, t) = choose|q: int, t: int|
            0 <= q < a.spec_grow_candidates(r0).len() && 0 <= t < 16 && a.spec_grow_ok(
                #[trigger] spec_grows_of(
                    a.spec_grow_candidates(r0)[q].0,
                    a.spec_grow_candidates(r0)[q].1,
                )[t],
            ) && a.grow_applied(
                spec_grows_of(
                    a.spec_grow_candidates(r0)[q].0,
                    a.spec_grow_candidates(r0)[q].1,
                )[t],
                b,
            );
        lemma_cand_sound(a, r0, a.cells@.len() as int);
        assert(cand_entry_ok(a, r0, a.spec_grow_candidates(r0)[q]));
    } else {
        let p = choose|p: int|
            0 <= p < a.spec_spore_candidates(r0).len() && a.spec_spore_ok(
                #[trigger] a.spec_spore_candidates(r0)[p],
            ) && a.spore_applied(a.spec_spore_candidates(r0)[p], b);
        lemma_spore_cands_sound(a, r0, a.cells@.len() as int);
        assert(spore_entry_ok(a, r0, a.spec_spore_candidates(r0)[p]));
    }
}

/// Along a generator chain the owed actions shrink by at least one per
/// step, and every element is well formed.
proof fn lemma_gen_chain_bound(start: State, chain: Seq<State>, i: int)
    requires
        start.wf(),
        gen_chain(start, chain),
        0 <= i < chain.len(),
    ensures
        chain[i].wf(),
        chain[i].action_set.spec_get(Owner::Me)@.len() <= start.action_set.spec_get(
            Owner::Me,
        )@.len() - i,
    decreases i,
{
    if i == 0 {
    } else {
        lemma_gen_chain_bound(start, chain, i - 1);
        assert(gen_step(chain[i - 1], chain[i]));
        lemma_gen_step_owed(chain[i - 1], chain[i]);
    }
}

} // verus!

verus! {

/// Two successors of the same wait carry the same views.
proof fn lemma_wait_same_succ(pre: State, root_id: Id, x: State, y: State)
    requires
        pre.wait_applied(root_id, x),
        pre.wait_applied(root_id, y),
    ensures
        same_views(x, y),
{
    match root_id.owner {
        Owner::Me => {},
        Owner::Ennemy => {},
    }
}

/// Two successors of the same accepted grow carry the same views.
proof fn lemma_grow_same_succ(pre: State, g: Grow, x: State, y: State)
    requires
        pre.grow_applied(g, x),
        pre.grow_applied(g, y),
    ensures
        same_views(x, y),
{
    match g.parent_id.owner {
        Owner::Me => {},
        Owner::Ennemy => {},
    }
}

/// Two successors of the same accepted spore carry the same views.
proof fn lemma_spore_same_succ(pre: State, sp: Spore, x: State, y: State)
    requires
        pre.spore_applied(sp, x),
        pre.spore_applied(sp, y),
    ensures
        same_views(x, y),
{
    match sp.parent_id.owner {
        Owner::Me => {},
        Owner::Ennemy => {},
    }
}

} // verus!

verus! {

/// A generator chain out of an origin that owed a decision.
pub open spec fn live_chain(p0: Seq<State>, k: int, chain: Seq<State>) -> bool {
    &&& 0 <= k < p0.len()
    &&& p0[k].action_set.spec_get(Owner::Me)@.len() > 0
    &&& gen_chain(p0[k], chain)
}

/// Appending keeps and adds view representatives.
proof fn lemma_rep_push(v: Seq<State>, x: State)
    ensures
        forall|e: State| #![auto] rep_in(v, e) ==> rep_in(v.push(x), e),
        forall|e: State| #![auto] same_views(x, e) ==> rep_in(v.push(x), e),
{
    assert forall|e: State| #![auto] rep_in(v, e) implies rep_in(v.push(x), e) by {
        let j = choose|j: int| 0 <= j < v.len() && same_views(#[trigger] v[j], e);
        assert(same_views(v.push(x)[j], e));
    }
    assert forall|e: State| #![auto] same_views(x, e) implies rep_in(v.push(x), e) by {
        assert(same_views(v.push(x)[v.len() as int], e));
    }
}

/// Popping the front leaves each represented state represented by the
/// front or by the rest.
proof fn lemma_rep_shift(v: Seq<State>)
    requires
        v.len() > 0,
    ensures
        forall|e: State| #![auto]
            rep_in(v, e) ==> same_views(v[0], e) || rep_in(v.remove(0), e),
{
    assert forall|e: State| #![auto]
        rep_in(v, e) implies same_views(v[0], e) || rep_in(v.remove(0), e) by {
        let j = choose|j: int| 0 <= j < v.len() && same_views(#[trigger] v[j], e);
        if j > 0 {
            assert(same_views(v.remove(0)[j - 1], e));
        }
    }
}

/// Appending keeps and adds present resolutions.
proof fn lemma_res_push(outs: Seq<State>, x: State)
    ensures
        forall|pre: State| #![auto] resolution_in(pre, outs) ==> resolution_in(pre, outs.push(x)),
        forall|pre: State| #![auto] pre.turn_resolved(x) ==> resolution_in(pre, outs.push(x)),
{
    assert forall|pre: State| #![auto]
        resolution_in(pre, outs) implies resolution_in(pre, outs.push(x)) by {
        let j = choose|j: int| 0 <= j < outs.len() && #[trigger] pre.turn_resolved(outs[j]);
        assert(pre.turn_resolved(outs.push(x)[j]));
    }
    assert forall|pre: State| #![auto]
        pre.turn_resolved(x) implies resolution_in(pre, outs.push(x)) by {
        assert(pre.turn_resolved(outs.push(x)[outs.len() as int]));
    }
}

} // verus!

verus! {

/// The decision a successor logged: the last entry of its current turn.
pub open spec fn logged_last(s: State) -> Decision {
    s.plan.view_turns().last().last()
}

/// The sixteen grow decisions of one claimed coordinate are pairwise
/// distinct, and all carry that coordinate and parent.
proof fn lemma_grows_of_facts(coord: Coord, parent_id: Id)
    ensures
        forall|t: int|
            0 <= t < 16 ==> (#[trigger] spec_grows_of(coord, parent_id)[t]).coord == coord
                && spec_grows_of(coord, parent_id)[t].parent_id == parent_id,
        forall|t1: int, t2: int|
            0 <= t1 < t2 < 16 ==> spec_grows_of(coord, parent_id)[t1] != spec_grows_of(
                coord,
                parent_id,
            )[t2],
{
    assert forall|t: int| 0 <= t < 16 implies (#[trigger] spec_grows_of(coord, parent_id)[t]).coord
        == coord && spec_grows_of(coord, parent_id)[t].parent_id == parent_id by {
        assert(spec_grows_of(coord, parent_id).len() == 16);
    }
    assert forall|t1: int, t2: int| 0 <= t1 < t2 < 16 implies spec_grows_of(coord, parent_id)[t1]
        != spec_grows_of(coord, parent_id)[t2] by {
        assert(spec_grows_of(coord, parent_id).len() == 16);
    }
}

/// `b` lies strictly beyond `a` in the direction `d`.
pub open spec fn strictly_beyond(a: Coord, d: Direction, b: Coord) -> bool {
    match d {
        Direction::N => b.y < a.y && b.x == a.x,
        Direction::S => b.y > a.y && b.x == a.x,
        Direction::W => b.x < a.x && b.y == a.y,
        Direction::E => b.x > a.x && b.y == a.y,
    }
}

/// A ray's cells all lie strictly beyond its origin and are pairwise
/// distinct: the walk moves one cell further each step.
proof fn lemma_ray_distinct(s: State, from: Coord, dir: Direction, fuel: int)
    ensures
        forall|i: int|
            0 <= i < s.spec_ray(from, dir, fuel).len() ==> strictly_beyond(
                from,
                dir,
                #[trigger] s.spec_ray(from, dir, fuel)[i],
            ),
        forall|i: int, j: int|
            0 <= i < j < s.spec_ray(from, dir, fuel).len() ==> s.spec_ray(from, dir, fuel)[i]
                != s.spec_ray(from, dir, fuel)[j],
    decreases fuel,
{
    if fuel > 0 {
        match from.spec_decaler(dir) {
            Some(c) => {
                if s.spec_growable_at(c) {
                    lemma_ray_distinct(s, c, dir, fuel - 1);
                    let cur = s.spec_ray(from, dir, fuel);
                    let tail = s.spec_ray(c, dir, fuel - 1);
                    assert(cur == seq![c] + tail);
                    assert(cur[0] == c);
                    assert forall|i: int| 0 <= i < cur.len() implies strictly_beyond(
                        from,
                        dir,
                        #[trigger] cur[i],
                    ) by {
                        if i > 0 {
                            assert(cur[i] == tail[i - 1]);
                            assert(strictly_beyond(c, dir, tail[i - 1]));
                        }
                    }
                    assert forall|i: int, j: int| 0 <= i < j < cur.len() implies cur[i]
                        != cur[j] by {
                        if i == 0 {
                            assert(cur[j] == tail[j - 1]);
                            assert(strictly_beyond(c, dir, tail[j - 1]));
                        } else {
                            assert(cur[i] == tail[i - 1]);
                            assert(cur[j] == tail[j - 1]);
                        }
                    }
                }
            },
            None => {},
        }
    }
}

/// The collected spore candidates are pairwise distinct, and each names as
/// parent an organ standing on one of the first `n` cells.
proof fn lemma_spores_distinct(s: State, root_id: Id, n: int)
    requires
        s.wf(),
        0 <= n <= s.cells@.len(),
    ensures
        forall|e: int| #![trigger s.spores_upto(root_id, n)[e]]
            0 <= e < s.spores_upto(root_id, n).len() ==> exists|k: int|
                0 <= k < n && organe_of(#[trigger] s.cells@[k]) is Some && organe_of(
                    s.cells@[k],
                )->0.id == s.spores_upto(root_id, n)[e].parent_id,
        forall|e1: int, e2: int|
            0 <= e1 < e2 < s.spores_upto(root_id, n).len() ==> s.spores_upto(root_id, n)[e1]
                != s.spores_upto(root_id, n)[e2],
    decreases n,
{
    if n > 0 {
        lemma_spores_distinct(s, root_id, n - 1);
        let prev = s.spores_upto(root_id, n - 1);
        let cur = s.spores_upto(root_id, n);
        let c = s.cells@[n - 1];
        match organe_of(c) {
            Some(o) => {
                if o.root_id == root_id && o.organe_type is Sporer {
                    let ray = s.spec_ray(c.coord, o.dir, 100);
                    lemma_ray_distinct(s, c.coord, o.dir, 100);
                    let block = ray.map_values(|co: Coord| Spore { parent_id: o.id, coord: co });
                    assert(cur == prev + block);
                    assert forall|e: int| #![trigger cur[e]]
                        0 <= e < cur.len() implies exists|k: int|
                        0 <= k < n && organe_of(#[trigger] s.cells@[k]) is Some && organe_of(
                            s.cells@[k],
                        )->0.id == cur[e].parent_id by {
                        if e < prev.len() {
                            assert(cur[e] == prev[e]);
                        } else {
                            assert(cur[e] == block[e - prev.len()]);
                            assert(cur[e].parent_id == o.id);
                            assert(organe_of(s.cells@[n - 1]) is Some && organe_of(
                                s.cells@[n - 1],
                            )->0.id == o.id);
                        }
                    }
                    assert forall|e1: int, e2: int| 0 <= e1 < e2 < cur.len() implies cur[e1]
                        != cur[e2] by {
                        if e2 < prev.len() {
                            assert(cur[e1] == prev[e1]);
                            assert(cur[e2] == prev[e2]);
                        } else if e1 >= prev.len() {
                            assert(cur[e1] == block[e1 - prev.len()]);
                            assert(cur[e2] == block[e2 - prev.len()]);
                            assert(ray[e1 - prev.len()] != ray[e2 - prev.len()]);
                        } else {
                            assert(cur[e1] == prev[e1]);
                            assert(cur[e2] == block[e2 - prev.len()]);
                            assert(cur[e2].parent_id == o.id);
                            let k = choose|k: int|
                                0 <= k < n - 1 && organe_of(#[trigger] s.cells@[k]) is Some
                                    && organe_of(s.cells@[k])->0.id == prev[e1].parent_id;
                            assert(organe_of(s.cells@[k])->0.id != organe_of(
                                s.cells@[n - 1],
                            )->0.id);
                        }
                    }
                }
            },
            None => {},
        }
    }
}

} // verus!
