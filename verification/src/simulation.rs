//! The population of the predator-prey simulation: which boids exist, of
//! which species, whether they are alive, and in which grid cell each was
//! found at the start of the current tick.

use vstd::prelude::*;

use crate::arena::{
    arena_align_catch, arena_entries, arena_get, arena_insert, arena_new, arena_remove, caught,
};
use crate::entity::{Boid, EntityType, Handle};
use crate::grid::{block_cells, cell_of, clamp_cell, neighbor_cells, shape_ok};
use crate::population::{
    alive_of_kind, is_alive, is_alive_of_kind, is_live, is_of_kind, lemma_select_leading,
    lemma_select_append, lemma_select_complete, lemma_select_congruent, lemma_select_drop_last, lemma_select_flip,
    lemma_select_no_duplicates, lemma_select_partition, lemma_select_update, lemma_select_sound, lemma_select_step, of_kind,
    select,
};
use ordex::prelude::OrdexArena;

verus! {

/// The most boids an `ordex` arena holds at once: one per `u32` slot index.
pub open spec fn arena_capacity() -> int {
    u32::MAX + 1
}

/// Predators released into a new simulation.
pub const INITIAL_PREDATORS: usize = 15;

/// The handles among the first `n` of `roster` whose boids are alive and
/// whose coordinates in `coords` fall, once clamped, in cell `c`, in roster
/// order.
pub open spec fn placed(
    roster: Seq<Handle>,
    entries: Map<(u32, u32), Boid>,
    coords: Seq<(usize, usize)>,
    cols: int,
    rows: int,
    n: nat,
    c: int,
) -> Seq<Handle>
    decreases n,
{
    if n == 0 {
        Seq::empty()
    } else {
        let prev = placed(roster, entries, coords, cols, rows, (n - 1) as nat, c);
        let i = n - 1;
        if is_alive(entries, roster[i]) && cell_of(coords[i].0 as int, coords[i].1 as int, cols, rows) == c {
            prev.push(roster[i])
        } else {
            prev
        }
    }
}

/// The content of cell `c` once the grid is filled from `roster` with the
/// coordinates `coords`: its living boids, in roster order.
pub open spec fn cell_members(
    roster: Seq<Handle>,
    entries: Map<(u32, u32), Boid>,
    coords: Seq<(usize, usize)>,
    cols: int,
    rows: int,
    c: int,
) -> Seq<Handle> {
    placed(roster, entries, coords, cols, rows, roster.len(), c)
}

/// Below this many living prey a tick may draw for a prey reinforcement.
pub const PREY_REINFORCEMENT_THRESHOLD: usize = 100;
/// Prey released by a prey reinforcement.
pub const PREY_REINFORCEMENT: usize = 10;
/// Below this many living predators a tick may draw for a predator
/// reinforcement.
pub const PREDATOR_REINFORCEMENT_THRESHOLD: usize = 2;
/// Predators released by a predator reinforcement.
pub const PREDATOR_REINFORCEMENT: usize = 1;

/// How many prey and how many predators a reinforcement releases, given the
/// living counts of the tick and the outcomes of the two draws.
pub open spec fn reinforcement(current_prey: int, current_pred: int, prey_draw: bool, pred_draw: bool) -> (int, int) {
    (
        if current_prey < PREY_REINFORCEMENT_THRESHOLD && prey_draw { PREY_REINFORCEMENT as int } else { 0 },
        if current_pred < PREDATOR_REINFORCEMENT_THRESHOLD && pred_draw { PREDATOR_REINFORCEMENT as int } else { 0 },
    )
}

/// A handle a predator in slot `hunter_slot` may catch: a living prey in
/// another slot.
pub open spec fn is_target(entries: Map<(u32, u32), Boid>, h: Handle, hunter_slot: u32) -> bool {
    h.slot != hunter_slot && is_alive_of_kind(entries, h, EntityType::Prey)
}

/// `h` names a living prey held by the arena, in a slot other than
/// `hunter_slot`, spelled out field by field.
pub open spec fn catchable(entries: Map<(u32, u32), Boid>, h: Handle, hunter_slot: u32) -> bool {
    &&& h.slot != hunter_slot
    &&& entries.dom().contains(h.key())
    &&& entries[h.key()].e_type == EntityType::Prey
    &&& entries[h.key()].is_alive
}

/// The possible catches in the cells `block` of `cells`, cell after cell,
/// each cell in its order.
pub open spec fn prey_near(
    cells: Seq<Seq<Handle>>,
    block: Seq<usize>,
    entries: Map<(u32, u32), Boid>,
    hunter_slot: u32,
) -> Seq<Handle>
    decreases block.len(),
{
    if block.len() == 0 {
        Seq::empty()
    } else {
        prey_near(cells, block.drop_last(), entries, hunter_slot) + select(
            cells[block.last() as int],
            |h: Handle| is_target(entries, h, hunter_slot),
        )
    }
}

/// What the update of a tick does with a boid of the roster: a dead boid,
/// and a predator that starved, leave; a predator with energy to spare
/// gives birth while the predators number fewer than `max_predators`; a
/// prey gives birth when its draw succeeds while the prey number fewer than
/// `max_preys`.
pub open spec fn fate(
    b: Boid,
    starved: bool,
    fertile: bool,
    prey_draw: bool,
    prey_count: int,
    pred_count: int,
    max_preys: int,
    max_predators: int,
) -> UpdateOutcome {
    if !b.is_alive {
        UpdateOutcome::Removed
    } else if b.e_type == EntityType::Predator {
        if starved {
            UpdateOutcome::Removed
        } else {
            UpdateOutcome::Kept { reproduced: fertile && pred_count < max_predators }
        }
    } else {
        UpdateOutcome::Kept { reproduced: prey_draw && prey_count < max_preys }
    }
}

/// What became of a boid in the update of a tick.
#[derive(Clone, Copy, Debug, PartialEq, Eq, Structural)]
pub enum UpdateOutcome {
    /// The boid left the simulation.
    Removed,
    /// The boid stays and moves; `reproduced` tells whether it gave birth.
    Kept { reproduced: bool },
}

/// The progress of the update of a tick through the roster: the position
/// reached, the running counts of prey and predators, and the species of
/// the boids born so far, in order of birth.
pub struct UpdatePass {
    pub position: usize,
    pub prey_count: usize,
    pub pred_count: usize,
    pub newborns: Vec<EntityType>,
}

impl UpdatePass {
    /// The start of an update, with the living counts found when the grid
    /// was filled.
    pub fn new(prey_count: usize, pred_count: usize) -> (pass: Self)
        ensures
            pass.position == 0,
            pass.prey_count == prey_count,
            pass.pred_count == pred_count,
            pass.newborns@.len() == 0,
    {
        UpdatePass { position: 0, prey_count, pred_count, newborns: Vec::new() }
    }
}

/// The number of entries of `kinds` equal to `kind`.
pub open spec fn tally(kinds: Seq<EntityType>, kind: EntityType) -> nat {
    select(kinds, equals_kind(kind)).len()
}

/// The test that a species is `kind`.
pub open spec fn equals_kind(kind: EntityType) -> spec_fn(EntityType) -> bool {
    |k: EntityType| k == kind
}

proof fn lemma_born_kinds(born: Seq<Handle>, kinds: Seq<EntityType>, e2: Map<(u32, u32), Boid>, kind: EntityType)
    requires
        born.len() == kinds.len(),
        forall|i: int| #![trigger born[i]] 0 <= i < born.len() ==> e2.dom().contains(born[i].key()) && e2[born[i].key()] == newborn(kinds[i]),
    ensures
        select(born, |h: Handle| is_of_kind(e2, h, kind)).len() == tally(kinds, kind),
    decreases born.len(),
{
    if born.len() > 0 {
        let b2 = born.drop_last();
        let k2 = kinds.drop_last();
        assert forall|i: int| #![trigger b2[i]] 0 <= i < b2.len() implies e2.dom().contains(b2[i].key()) && e2[b2[i].key()] == newborn(k2[i]) by {
            assert(b2[i] == born[i] && k2[i] == kinds[i]);
            assert(e2.dom().contains(born[i].key()));
        }
        lemma_born_kinds(b2, k2, e2, kind);
        let n = born.len() - 1;
        assert(e2.dom().contains(born[n].key()));
        assert(born.last() == born[n] && kinds.last() == kinds[n]);
    }
}

/// Appending newborns to a roster adds, to the count of each species, the
/// newborns of that species.
proof fn lemma_of_kind_extend(
    r: Seq<Handle>,
    e: Map<(u32, u32), Boid>,
    born: Seq<Handle>,
    e2: Map<(u32, u32), Boid>,
    kinds: Seq<EntityType>,
    kind: EntityType,
)
    requires
        forall|i: int| 0 <= i < r.len() ==> #[trigger] e.dom().contains(r[i].key()),
        forall|k: (u32, u32)| #[trigger] e.dom().contains(k) ==> e2.dom().contains(k) && e2[k] == e[k],
        born.len() == kinds.len(),
        forall|i: int| #![trigger born[i]] 0 <= i < born.len() ==> e2.dom().contains(born[i].key()) && e2[born[i].key()] == newborn(kinds[i]),
    ensures
        of_kind(r + born, e2, kind).len() == of_kind(r, e, kind).len() + tally(kinds, kind),
{
    let p = |h: Handle| is_of_kind(e, h, kind);
    let p2 = |h: Handle| is_of_kind(e2, h, kind);
    lemma_select_append(r, born, p2);
    assert forall|i: int| 0 <= i < r.len() implies p(#[trigger] r[i]) == p2(r[i]) by {
        assert(e.dom().contains(r[i].key()));
    }
    lemma_select_congruent(r, p, p2);
    lemma_born_kinds(born, kinds, e2, kind);
}

/// A run of `count` entries all equal to `e_type` tallies `count` of that
/// species and none of the other.
proof fn lemma_tally_uniform(count: nat, e_type: EntityType, kind: EntityType)
    ensures
        tally(Seq::new(count, |i: int| e_type), kind) == (if e_type == kind { count } else { 0 }),
{
    let kinds = Seq::new(count, |i: int| e_type);
    let m: int = if e_type == kind { count as int } else { 0 };
    lemma_select_leading(kinds, equals_kind(kind), m);
}

/// Removing the boid at position `i` of a roster, the way an update does
/// (the last handle takes its place), takes it out of its species' count.
proof fn lemma_swap_remove_counts(r: Seq<Handle>, e: Map<(u32, u32), Boid>, i: int, kind: EntityType)
    requires
        0 <= i < r.len(),
        forall|a: int| 0 <= a < r.len() ==> #[trigger] e.dom().contains(r[a].key()),
        forall|a: int, b: int| 0 <= a < b < r.len() ==> #[trigger] r[a].slot != #[trigger] r[b].slot,
    ensures
        of_kind(r.update(i, r.last()).drop_last(), e.remove(r[i].key()), kind).len() + (if is_of_kind(e, r[i], kind) {
            1int
        } else {
            0
        }) == of_kind(r, e, kind).len(),
{
    let u = r.update(i, r.last());
    let r2 = u.drop_last();
    let e2 = e.remove(r[i].key());
    let p = |h: Handle| is_of_kind(e, h, kind);
    let p2 = |h: Handle| is_of_kind(e2, h, kind);
    lemma_select_update(r, i, r.last(), p);
    lemma_select_drop_last(u, p);
    assert(u.last() == r.last());
    assert forall|a: int| 0 <= a < r2.len() implies p(#[trigger] r2[a]) == p2(r2[a]) by {
        let src = if a == i { r.len() - 1 } else { a };
        assert(r2[a] == r[src]);
        if src < i {
            assert(r[src].slot != r[i].slot);
        } else if src > i {
            assert(r[i].slot != r[src].slot);
        }
    }
    lemma_select_congruent(r2, p, p2);
}

/// What one step of the update of a tick keeps, in the terms the laws over
/// a whole pass use: the invariant and the caps hold, the arena only loses
/// boids and never a living prey, the visited boids stay alive, each
/// running count only grows, and only up to its cap, by the births of its
/// species, no species grows on the roster, and the pass gets nearer its
/// end.
pub open spec fn update_advanced(s: Simulation, p: UpdatePass, s2: Simulation, p2: UpdatePass) -> bool {
    &&& s2.well_formed()
    &&& s2.max_preys() == s.max_preys()
    &&& s2.max_predators() == s.max_predators()
    &&& forall|k: (u32, u32)| #[trigger] s2.entries().dom().contains(k)
        ==> s.entries().dom().contains(k) && s2.entries()[k] == s.entries()[k]
    &&& forall|k: (u32, u32)| #[trigger] s.entries().dom().contains(k) && s.entries()[k] == newborn(EntityType::Prey)
        ==> s2.entries().dom().contains(k)
    &&& (forall|i: int| 0 <= i < p.position ==> is_alive(s.entries(), #[trigger] s.roster()[i]))
        ==> (forall|i: int| 0 <= i < p2.position ==> is_alive(s2.entries(), #[trigger] s2.roster()[i]))
    &&& p.prey_count <= p2.prey_count
    &&& p2.prey_count > p.prey_count ==> p2.prey_count <= s.max_preys()
    &&& p.pred_count <= p2.pred_count
    &&& p2.pred_count > p.pred_count ==> p2.pred_count <= s.max_predators()
    &&& tally(p2.newborns@, EntityType::Prey) + p.prey_count == tally(p.newborns@, EntityType::Prey) + p2.prey_count
    &&& tally(p2.newborns@, EntityType::Predator) + p.pred_count == tally(p.newborns@, EntityType::Predator) + p2.pred_count
    &&& of_kind(s2.roster(), s2.entries(), EntityType::Prey).len() <= of_kind(s.roster(), s.entries(), EntityType::Prey).len()
    &&& of_kind(s2.roster(), s2.entries(), EntityType::Predator).len() <= of_kind(
        s.roster(),
        s.entries(),
        EntityType::Predator,
    ).len()
    &&& s2.roster().len() - p2.position < s.roster().len() - p.position
}

/// The progress of the hunt of a tick through the hunters: the position
/// reached and the number of prey caught so far.
pub struct HuntPass {
    pub position: usize,
    pub catches: usize,
}

impl HuntPass {
    /// The start of a hunt.
    pub fn new() -> (pass: Self)
        ensures
            pass.position == 0,
            pass.catches == 0,
    {
        HuntPass { position: 0, catches: 0 }
    }
}

/// What one step of the hunt keeps: the invariant, the roster, the
/// species, the hunters and the living predators; the pass moves to the
/// next hunter, and the living prey drop by the catch made, at most one.
pub open spec fn hunt_advanced(s: Simulation, p: HuntPass, s2: Simulation, p2: HuntPass) -> bool {
    &&& s2.well_formed()
    &&& s2.roster() == s.roster()
    &&& s2.hunters() == s.hunters()
    &&& s2.max_preys() == s.max_preys()
    &&& s2.max_predators() == s.max_predators()
    &&& s2.entries().dom() == s.entries().dom()
    &&& p.position < s.hunters().len()
    &&& p2.position == p.position + 1
    &&& p.catches <= p2.catches <= p.catches + 1
    &&& of_kind(s2.roster(), s2.entries(), EntityType::Prey) == of_kind(s.roster(), s.entries(), EntityType::Prey)
    &&& of_kind(s2.roster(), s2.entries(), EntityType::Predator) == of_kind(s.roster(), s.entries(), EntityType::Predator)
    &&& alive_of_kind(s2.roster(), s2.entries(), EntityType::Prey).len() + (p2.catches - p.catches) == alive_of_kind(
        s.roster(),
        s.entries(),
        EntityType::Prey,
    ).len()
    &&& alive_of_kind(s2.roster(), s2.entries(), EntityType::Predator) == alive_of_kind(
        s.roster(),
        s.entries(),
        EntityType::Predator,
    )
}

/// `s2` holds the same population as `s`, under the same caps, and is
/// well formed: only buffers may differ.
pub open spec fn same_population(s: Simulation, s2: Simulation) -> bool {
    &&& s2.well_formed()
    &&& s2.roster() == s.roster()
    &&& s2.entries() == s.entries()
    &&& s2.max_preys() == s.max_preys()
    &&& s2.max_predators() == s.max_predators()
}

/// The catch a predator makes among its possible catches, given for each
/// whether it lies within catching distance: the first one that does, in
/// the order they were offered, or none.
pub fn chosen_catch(targets: &Vec<Handle>, close: &Vec<bool>) -> (c: Option<Handle>)
    requires
        close@.len() == targets@.len(),
    ensures
        c matches Some(t) ==> exists|k: int|
            0 <= k < targets@.len() && #[trigger] close@[k] && targets@[k] == t && forall|m: int| 0 <= m < k ==> !close@[m],
        c is None ==> forall|k: int| 0 <= k < close@.len() ==> !close@[k],
{
    let mut k: usize = 0;
    while k < targets.len()
        invariant
            close@.len() == targets@.len(),
            k <= targets@.len(),
            forall|m: int| 0 <= m < k ==> !close@[m],
        decreases targets@.len() - k,
    {
        if close[k] {
            return Some(targets[k]);
        }
        k = k + 1;
    }
    None
}

/// The boid a birth or a spawn stores.
pub open spec fn newborn(kind: EntityType) -> Boid {
    Boid { e_type: kind, is_alive: true }
}

/// The population, the spatial grid, and the buffers of one simulation.
pub struct Simulation {
    arena: OrdexArena<Boid>,
    active_indices: Vec<Handle>,
    grid_cells: Vec<Vec<Handle>>,
    predators_buf: Vec<Handle>,
    prey_neighbors_buf: Vec<Handle>,
    cell_preds_buf: Vec<Handle>,
    cols: usize,
    rows: usize,
    max_predators: usize,
    max_preys: usize,
}

impl Simulation {
    /// The boids the arena holds.
    pub closed spec fn entries(&self) -> Map<(u32, u32), Boid> {
        arena_entries(self.arena)
    }

    /// The handles of the boids in play, in the order the simulation visits
    /// them.
    pub closed spec fn roster(&self) -> Seq<Handle> {
        self.active_indices@
    }

    /// The contents of the grid cells, row by row.
    pub closed spec fn cells(&self) -> Seq<Seq<Handle>> {
        self.grid_cells@.map_values(|c: Vec<Handle>| c@)
    }

    /// The predators found alive when the grid was last filled.
    pub closed spec fn hunters(&self) -> Seq<Handle> {
        self.predators_buf@
    }

    /// The living prey of the grid cell last gathered by `flock_group`.
    pub closed spec fn flock_prey(&self) -> Seq<Handle> {
        self.prey_neighbors_buf@
    }

    /// The living predators of the grid cell last gathered by `flock_group`.
    pub closed spec fn flock_predators(&self) -> Seq<Handle> {
        self.cell_preds_buf@
    }

    pub closed spec fn cols(&self) -> usize {
        self.cols
    }

    pub closed spec fn rows(&self) -> usize {
        self.rows
    }

    /// The predator population above which predators stop reproducing.
    pub closed spec fn max_predators(&self) -> usize {
        self.max_predators
    }

    /// The prey population above which prey stop reproducing.
    pub closed spec fn max_preys(&self) -> usize {
        self.max_preys
    }

    /// The roster names exactly the boids of the arena, each once and each
    /// in a slot of its own; every stored handle has a nonzero generation;
    /// the grid has `cols * rows` cells.
    pub closed spec fn well_formed(&self) -> bool {
        let e = self.entries();
        let r = self.roster();
        &&& e.dom().finite()
        &&& e.dom().len() == r.len()
        &&& forall|i: int| 0 <= i < r.len() ==> #[trigger] e.dom().contains(r[i].key())
        &&& forall|i: int| 0 <= i < r.len() ==> #[trigger] r[i].generation >= 1
        &&& forall|i: int, j: int| 0 <= i < j < r.len() ==> #[trigger] r[i].slot != #[trigger] r[j].slot
        &&& shape_ok(self.cols as int, self.rows as int)
        &&& self.grid_cells@.len() == self.cols * self.rows
        &&& forall|c: int, i: int|
            0 <= c < self.grid_cells@.len() && 0 <= i < self.grid_cells@[c]@.len()
                ==> #[trigger] self.grid_cells@[c]@[i].generation >= 1
        &&& forall|i: int| 0 <= i < self.predators_buf@.len() ==> #[trigger] self.predators_buf@[i].generation >= 1
        &&& forall|c: int| 0 <= c < self.grid_cells@.len() ==> (#[trigger] self.grid_cells@[c])@.no_duplicates()
    }

    /// Stores a new living boid of species `e_type` and puts it at the end
    /// of the roster.
    fn enroll(&mut self, e_type: EntityType) -> (h: Handle)
        requires
            old(self).well_formed(),
            old(self).roster().len() <= u32::MAX,
        ensures
            final(self).well_formed(),
            !old(self).entries().dom().contains(h.key()),
            final(self).roster() == old(self).roster().push(h),
            final(self).entries() == old(self).entries().insert(h.key(), newborn(e_type)),
            final(self).cells() == old(self).cells(),
            final(self).hunters() == old(self).hunters(),
            final(self).cols() == old(self).cols(),
            final(self).rows() == old(self).rows(),
            final(self).max_predators() == old(self).max_predators(),
            final(self).max_preys() == old(self).max_preys(),
    {
        let h = arena_insert(&mut self.arena, Boid { e_type, is_alive: true });
        self.active_indices.push(h);
        proof {
            let r = self.active_indices@;
            assert forall|i: int, j: int| 0 <= i < j < r.len() implies #[trigger] r[i].slot != #[trigger] r[j].slot by {
                if j == r.len() - 1 {
                    assert(old(self).entries().dom().contains(r[i].key()));
                }
            }
            assert(self.entries().dom().len() == old(self).entries().dom().len() + 1);
        }
        h
    }

    /// Stores `count` new living boids of species `e_type`, at the end of
    /// the roster, and returns their handles in that order.
    pub fn spawn_entities(&mut self, count: usize, e_type: EntityType) -> (born: Vec<Handle>)
        requires
            old(self).well_formed(),
            old(self).roster().len() + count <= arena_capacity(),
        ensures
            final(self).well_formed(),
            born@.len() == count,
            final(self).roster() == old(self).roster() + born@,
            final(self).entries().dom().len() == old(self).entries().dom().len() + count,
            forall|k: (u32, u32)| #[trigger] old(self).entries().dom().contains(k)
                ==> final(self).entries().dom().contains(k) && final(self).entries()[k] == old(self).entries()[k],
            forall|i: int| 0 <= i < count ==> #[trigger] final(self).entries()[born@[i].key()] == newborn(e_type),
            of_kind(final(self).roster(), final(self).entries(), EntityType::Prey).len() == of_kind(
                old(self).roster(),
                old(self).entries(),
                EntityType::Prey,
            ).len() + (if e_type == EntityType::Prey { count } else { 0 }),
            of_kind(final(self).roster(), final(self).entries(), EntityType::Predator).len() == of_kind(
                old(self).roster(),
                old(self).entries(),
                EntityType::Predator,
            ).len() + (if e_type == EntityType::Predator { count } else { 0 }),
            count == 0 ==> final(self).entries() == old(self).entries(),
            final(self).cells() == old(self).cells(),
            final(self).hunters() == old(self).hunters(),
            final(self).cols() == old(self).cols(),
            final(self).rows() == old(self).rows(),
            final(self).max_predators() == old(self).max_predators(),
            final(self).max_preys() == old(self).max_preys(),
    {
        let mut born: Vec<Handle> = Vec::new();
        let mut n: usize = 0;
        while n < count
            invariant
                n <= count,
                self.well_formed(),
                old(self).roster().len() + count <= arena_capacity(),
                born@.len() == n,
                self.roster() == old(self).roster() + born@,
                self.entries().dom().len() == old(self).entries().dom().len() + n,
                forall|k: (u32, u32)| #[trigger] old(self).entries().dom().contains(k)
                    ==> self.entries().dom().contains(k) && self.entries()[k] == old(self).entries()[k],
                forall|i: int| 0 <= i < n ==> #[trigger] self.entries()[born@[i].key()] == newborn(e_type),
                self.cells() == old(self).cells(),
                self.hunters() == old(self).hunters(),
                self.cols() == old(self).cols(),
                self.rows() == old(self).rows(),
                self.max_predators() == old(self).max_predators(),
                self.max_preys() == old(self).max_preys(),
            decreases count - n,
        {
            let ghost before = *self;
            let h = self.enroll(e_type);
            born.push(h);
            n = n + 1;
            proof {
                assert(self.roster() =~= old(self).roster() + born@);
                assert forall|i: int| 0 <= i < n implies #[trigger] self.entries()[born@[i].key()] == newborn(e_type) by {
                    if i < n - 1 {
                        let k = born@[i].key();
                        assert(before.roster()[old(self).roster().len() + i] == born@[i]);
                        assert(before.entries().dom().contains(k));
                    }
                }
                assert forall|k: (u32, u32)| #[trigger] old(self).entries().dom().contains(k)
                    implies self.entries().dom().contains(k) && self.entries()[k] == old(self).entries()[k] by {
                    assert(before.entries().dom().contains(k));
                }
            }
        }
        proof {
            let kinds = Seq::new(count as nat, |i: int| e_type);
            let r = old(self).roster();
            assert forall|i: int| #![trigger born@[i]] 0 <= i < born@.len() implies self.entries().dom().contains(born@[i].key())
                && self.entries()[born@[i].key()] == newborn(kinds[i]) by {
                assert(self.roster()[r.len() + i] == born@[i]);
            }
            lemma_of_kind_extend(r, old(self).entries(), born@, self.entries(), kinds, EntityType::Prey);
            lemma_of_kind_extend(r, old(self).entries(), born@, self.entries(), kinds, EntityType::Predator);
            lemma_tally_uniform(count as nat, e_type, EntityType::Prey);
            lemma_tally_uniform(count as nat, e_type, EntityType::Predator);
            assert(born@ =~= Seq::<Handle>::empty() ==> self.roster() =~= r);
            if count == 0 {
                assert(self.entries().dom() =~= old(self).entries().dom()) by {
                    vstd::set_lib::lemma_subset_equality(old(self).entries().dom(), self.entries().dom());
                }
                assert(self.entries() =~= old(self).entries());
            }
        }
        born
    }

    /// A simulation on a grid of `cols` by `rows` cells, with
    /// `initial_count` living prey followed by `INITIAL_PREDATORS` living
    /// predators on its roster. Predators stop reproducing at
    /// `max_predators`, prey at `max_preys`.
    pub fn new(cols: usize, rows: usize, initial_count: usize, max_predators: usize, max_preys: usize) -> (sim: Self)
        requires
            shape_ok(cols as int, rows as int),
            initial_count + INITIAL_PREDATORS <= arena_capacity(),
        ensures
            sim.well_formed(),
            sim.cols() == cols,
            sim.rows() == rows,
            sim.max_predators() == max_predators,
            sim.max_preys() == max_preys,
            sim.roster().len() == initial_count + INITIAL_PREDATORS,
            forall|i: int| 0 <= i < initial_count ==> #[trigger] sim.entries()[sim.roster()[i].key()] == newborn(EntityType::Prey),
            forall|i: int| initial_count <= i < initial_count + INITIAL_PREDATORS
                ==> #[trigger] sim.entries()[sim.roster()[i].key()] == newborn(EntityType::Predator),
            of_kind(sim.roster(), sim.entries(), EntityType::Prey).len() == initial_count,
            of_kind(sim.roster(), sim.entries(), EntityType::Predator).len() == INITIAL_PREDATORS,
            sim.cells().len() == cols * rows,
            forall|c: int| 0 <= c < sim.cells().len() ==> #[trigger] sim.cells()[c].len() == 0,
            sim.hunters().len() == 0,
    {
        let n_cells = cols * rows;
        let mut grid_cells: Vec<Vec<Handle>> = Vec::new();
        let mut c: usize = 0;
        while c < n_cells
            invariant
                c <= n_cells,
                grid_cells@.len() == c,
                forall|j: int| 0 <= j < c ==> (#[trigger] grid_cells@[j])@.len() == 0,
            decreases n_cells - c,
        {
            grid_cells.push(Vec::new());
            c = c + 1;
        }
        let mut sim = Simulation {
            arena: arena_new(),
            active_indices: Vec::new(),
            grid_cells,
            predators_buf: Vec::new(),
            prey_neighbors_buf: Vec::new(),
            cell_preds_buf: Vec::new(),
            cols,
            rows,
            max_predators,
            max_preys,
        };
        proof {
            assert(sim.entries().dom().len() == 0);
        }
        let prey = sim.spawn_entities(initial_count, EntityType::Prey);
        let ghost mid = sim;
        let predators = sim.spawn_entities(INITIAL_PREDATORS, EntityType::Predator);
        proof {
            assert forall|i: int| 0 <= i < initial_count implies #[trigger] sim.entries()[sim.roster()[i].key()] == newborn(EntityType::Prey) by {
                assert(sim.roster()[i] == prey@[i]);
                assert(mid.entries().dom().contains(prey@[i].key()));
            }
            assert forall|i: int| initial_count <= i < initial_count + INITIAL_PREDATORS
                implies #[trigger] sim.entries()[sim.roster()[i].key()] == newborn(EntityType::Predator) by {
                assert(sim.roster()[i] == predators@[i - initial_count]);
            }
            assert forall|c: int| 0 <= c < sim.cells().len() implies #[trigger] sim.cells()[c].len() == 0 by {
                assert(sim.cells()[c] == sim.grid_cells@[c]@);
            }
            let r = sim.roster();
            let e = sim.entries();
            let m = initial_count as int;
            assert forall|i: int| 0 <= i < m implies #[trigger] is_of_kind(e, r[i], EntityType::Prey) by {
                assert(e[r[i].key()] == newborn(EntityType::Prey));
            }
            assert forall|i: int| m <= i < r.len() implies !#[trigger] is_of_kind(e, r[i], EntityType::Prey) by {
                assert(e[r[i].key()] == newborn(EntityType::Predator));
            }
            lemma_select_leading(r, |h: Handle| is_of_kind(e, h, EntityType::Prey), m);
            lemma_select_partition(
                r,
                |h: Handle| is_of_kind(e, h, EntityType::Prey),
                |h: Handle| is_of_kind(e, h, EntityType::Predator),
            );
        }
        sim
    }

    /// The number of prey on the roster.
    pub fn prey_count(&self) -> (n: usize)
        requires
            self.well_formed(),
        ensures
            n == of_kind(self.roster(), self.entries(), EntityType::Prey).len(),
    {
        self.count_kind(EntityType::Prey)
    }

    /// The number of predators on the roster.
    pub fn predator_count(&self) -> (n: usize)
        requires
            self.well_formed(),
        ensures
            n == of_kind(self.roster(), self.entries(), EntityType::Predator).len(),
    {
        self.count_kind(EntityType::Predator)
    }

    /// Fills the grid for a new tick. `coords[i]` is the column and row in
    /// which the position of the `i`-th boid of the roster falls. Every cell
    /// is emptied, then each living boid is appended to its cell (the
    /// coordinates clamped to the grid), and each living predator to the
    /// hunters. Returns the numbers of living prey and of living predators.
    pub fn index_population(&mut self, coords: &Vec<(usize, usize)>) -> (counts: (usize, usize))
        requires
            old(self).well_formed(),
            coords@.len() == old(self).roster().len(),
        ensures
            final(self).well_formed(),
            final(self).roster() == old(self).roster(),
            final(self).entries() == old(self).entries(),
            final(self).cols() == old(self).cols(),
            final(self).rows() == old(self).rows(),
            final(self).max_predators() == old(self).max_predators(),
            final(self).max_preys() == old(self).max_preys(),
            final(self).cells().len() == old(self).cells().len(),
            forall|c: int| 0 <= c < final(self).cells().len() ==> #[trigger] final(self).cells()[c] == cell_members(
                old(self).roster(),
                old(self).entries(),
                coords@,
                old(self).cols() as int,
                old(self).rows() as int,
                c,
            ),
            final(self).hunters() == alive_of_kind(old(self).roster(), old(self).entries(), EntityType::Predator),
            counts.0 == alive_of_kind(old(self).roster(), old(self).entries(), EntityType::Prey).len(),
            counts.1 == alive_of_kind(old(self).roster(), old(self).entries(), EntityType::Predator).len(),
    {
        let cols = self.cols;
        let rows = self.rows;
        let n_cells = self.grid_cells.len();
        let mut c: usize = 0;
        while c < n_cells
            invariant
                c <= n_cells,
                n_cells == self.grid_cells@.len(),
                self.well_formed(),
                self.roster() == old(self).roster(),
                self.entries() == old(self).entries(),
                self.cols == cols && self.rows == rows,
                cols == old(self).cols() && rows == old(self).rows(),
                self.max_predators() == old(self).max_predators(),
                self.max_preys() == old(self).max_preys(),
                forall|j: int| 0 <= j < c ==> (#[trigger] self.grid_cells@[j])@.len() == 0,
            decreases n_cells - c,
        {
            self.grid_cells[c].clear();
            c = c + 1;
        }
        self.predators_buf.clear();

        let ghost r = self.roster();
        let ghost e = self.entries();
        let ghost prey_p = |h: Handle| is_alive_of_kind(e, h, EntityType::Prey);
        let ghost pred_p = |h: Handle| is_alive_of_kind(e, h, EntityType::Predator);
        let mut current_prey_count: usize = 0;
        let mut current_pred_count: usize = 0;
        let mut i: usize = 0;
        while i < self.active_indices.len()
            invariant
                i <= r.len(),
                self.well_formed(),
                r == self.roster(),
                e == self.entries(),
                r == old(self).roster(),
                e == old(self).entries(),
                coords@.len() == r.len(),
                self.cols == cols && self.rows == rows,
                cols == old(self).cols() && rows == old(self).rows(),
                self.max_predators() == old(self).max_predators(),
                self.max_preys() == old(self).max_preys(),
                self.grid_cells@.len() == n_cells,
                n_cells == old(self).cells().len(),
                prey_p == (|h: Handle| is_alive_of_kind(e, h, EntityType::Prey)),
                pred_p == (|h: Handle| is_alive_of_kind(e, h, EntityType::Predator)),
                forall|j: int| 0 <= j < n_cells ==> (#[trigger] self.grid_cells@[j])@ == placed(
                    r,
                    e,
                    coords@,
                    cols as int,
                    rows as int,
                    i as nat,
                    j,
                ),
                self.predators_buf@ == select(r.take(i as int), pred_p),
                current_prey_count == select(r.take(i as int), prey_p).len(),
                current_pred_count == select(r.take(i as int), pred_p).len(),
                current_prey_count <= i,
                current_pred_count <= i,
            decreases r.len() - i,
        {
            let idx = self.active_indices[i];
            proof {
                lemma_select_step(r, prey_p, i as int);
                lemma_select_step(r, pred_p, i as int);
            }
            let ghost before = *self;
            if let Some(boid) = arena_get(&self.arena, idx) {
                if boid.is_alive {
                    let (cx, cy) = coords[i];
                    let cell = clamp_cell(cx, cy, cols, rows);
                    self.grid_cells[cell].push(idx);
                    if boid.e_type == EntityType::Predator {
                        self.predators_buf.push(idx);
                        current_pred_count = current_pred_count + 1;
                    } else {
                        current_prey_count = current_prey_count + 1;
                    }
                }
            }
            proof {
                before.lemma_roster_no_duplicates();
                assert forall|j: int| 0 <= j < self.grid_cells@.len() implies (#[trigger] self.grid_cells@[j])@.no_duplicates() by {
                    lemma_placed_no_duplicates(r, e, coords@, cols as int, rows as int, (i + 1) as nat, j);
                }
            }
            i = i + 1;
        }
        proof {
            assert(r.take(r.len() as int) =~= r);
            assert forall|j: int| 0 <= j < self.cells().len() implies #[trigger] self.cells()[j] == cell_members(
                r, e, coords@, cols as int, rows as int, j) by {
                assert(self.cells()[j] == self.grid_cells@[j]@);
            }
        }
        (current_prey_count, current_pred_count)
    }

    /// Whether the prey are few enough for a prey reinforcement draw.
    pub fn prey_reinforcement_due(current_prey: usize) -> (due: bool)
        ensures
            due == (current_prey < PREY_REINFORCEMENT_THRESHOLD),
    {
        current_prey < PREY_REINFORCEMENT_THRESHOLD
    }

    /// Whether the predators are few enough for a predator reinforcement
    /// draw.
    pub fn predator_reinforcement_due(current_pred: usize) -> (due: bool)
        ensures
            due == (current_pred < PREDATOR_REINFORCEMENT_THRESHOLD),
    {
        current_pred < PREDATOR_REINFORCEMENT_THRESHOLD
    }

    /// Releases reinforcements: `PREY_REINFORCEMENT` prey when fewer than
    /// `PREY_REINFORCEMENT_THRESHOLD` prey live and the prey draw succeeded,
    /// then `PREDATOR_REINFORCEMENT` predators when fewer than
    /// `PREDATOR_REINFORCEMENT_THRESHOLD` predators live and the predator
    /// draw succeeded. Returns the handles of the released boids in roster
    /// order.
    pub fn reinforce(&mut self, current_prey: usize, current_pred: usize, prey_draw: bool, pred_draw: bool) -> (born: Vec<Handle>)
        requires
            old(self).well_formed(),
            old(self).roster().len() + reinforcement(current_prey as int, current_pred as int, prey_draw, pred_draw).0
                + reinforcement(current_prey as int, current_pred as int, prey_draw, pred_draw).1 <= arena_capacity(),
        ensures
            final(self).well_formed(),
            ({
                let (n_prey, n_pred) = reinforcement(current_prey as int, current_pred as int, prey_draw, pred_draw);
                &&& born@.len() == n_prey + n_pred
                &&& forall|i: int| 0 <= i < n_prey ==> #[trigger] final(self).entries()[born@[i].key()] == newborn(EntityType::Prey)
                &&& forall|i: int| n_prey <= i < n_prey + n_pred ==> #[trigger] final(self).entries()[born@[i].key()] == newborn(EntityType::Predator)
            }),
            ({
                let n_prey: int = if current_prey < PREY_REINFORCEMENT_THRESHOLD && prey_draw {
                    PREY_REINFORCEMENT as int
                } else {
                    0
                };
                let n_pred: int = if current_pred < PREDATOR_REINFORCEMENT_THRESHOLD && pred_draw {
                    PREDATOR_REINFORCEMENT as int
                } else {
                    0
                };
                &&& born@.len() == n_prey + n_pred
                &&& forall|i: int| 0 <= i < n_prey ==> #[trigger] final(self).entries()[born@[i].key()] == (Boid {
                    e_type: EntityType::Prey,
                    is_alive: true,
                })
                &&& forall|i: int| n_prey <= i < n_prey + n_pred ==> #[trigger] final(self).entries()[born@[i].key()] == (Boid {
                    e_type: EntityType::Predator,
                    is_alive: true,
                })
                &&& of_kind(final(self).roster(), final(self).entries(), EntityType::Prey).len() == of_kind(
                    old(self).roster(),
                    old(self).entries(),
                    EntityType::Prey,
                ).len() + n_prey
                &&& of_kind(final(self).roster(), final(self).entries(), EntityType::Predator).len() == of_kind(
                    old(self).roster(),
                    old(self).entries(),
                    EntityType::Predator,
                ).len() + n_pred
            }),
            final(self).roster() == old(self).roster() + born@,
            of_kind(final(self).roster(), final(self).entries(), EntityType::Prey).len() == of_kind(
                old(self).roster(),
                old(self).entries(),
                EntityType::Prey,
            ).len() + reinforcement(current_prey as int, current_pred as int, prey_draw, pred_draw).0,
            of_kind(final(self).roster(), final(self).entries(), EntityType::Predator).len() == of_kind(
                old(self).roster(),
                old(self).entries(),
                EntityType::Predator,
            ).len() + reinforcement(current_prey as int, current_pred as int, prey_draw, pred_draw).1,
            final(self).entries().dom().len() == old(self).entries().dom().len() + born@.len(),
            forall|k: (u32, u32)| #[trigger] old(self).entries().dom().contains(k)
                ==> final(self).entries().dom().contains(k) && final(self).entries()[k] == old(self).entries()[k],
            final(self).cells() == old(self).cells(),
            final(self).hunters() == old(self).hunters(),
            final(self).cols() == old(self).cols(),
            final(self).rows() == old(self).rows(),
            final(self).max_predators() == old(self).max_predators(),
            final(self).max_preys() == old(self).max_preys(),
    {
        let mut born: Vec<Handle> = Vec::new();
        if Self::prey_reinforcement_due(current_prey) && prey_draw {
            born = self.spawn_entities(PREY_REINFORCEMENT, EntityType::Prey);
        }
        let ghost mid = *self;
        let ghost first = born@;
        if Self::predator_reinforcement_due(current_pred) && pred_draw {
            let mut more = self.spawn_entities(PREDATOR_REINFORCEMENT, EntityType::Predator);
            born.append(&mut more);
            proof {
                let n_prey = first.len();
                assert forall|i: int| 0 <= i < n_prey implies #[trigger] self.entries()[born@[i].key()] == newborn(EntityType::Prey) by {
                    assert(born@[i] == first[i]);
                    assert(mid.roster()[old(self).roster().len() + i] == first[i]);
                    assert(mid.entries().dom().contains(first[i].key()));
                }
            }
        }
        born
    }

    /// The possible catches of the predator `hunter`, whose position falls
    /// in column `cx` and row `cy`: the living prey in the other slots of
    /// the grid cells around it, cell by cell in block order and each cell
    /// in its order; none when `hunter` is not live.
    pub fn hunt_targets(&self, hunter: Handle, cx: isize, cy: isize) -> (targets: Vec<Handle>)
        requires
            self.well_formed(),
            hunter.generation >= 1,
            isize::MIN < cx < isize::MAX,
            isize::MIN < cy < isize::MAX,
        ensures
            targets@ == (if is_live(self.entries(), hunter) {
                prey_near(
                    self.cells(),
                    block_cells(cx as int, cy as int, self.cols() as int, self.rows() as int),
                    self.entries(),
                    hunter.slot,
                )
            } else {
                Seq::empty()
            }),
            forall|t: int| 0 <= t < targets@.len() ==> catchable(self.entries(), #[trigger] targets@[t], hunter.slot),
            is_live(self.entries(), hunter) ==> forall|k: int, m: int|
                0 <= k < block_cells(cx as int, cy as int, self.cols() as int, self.rows() as int).len() && 0 <= m
                    < self.cells()[block_cells(cx as int, cy as int, self.cols() as int, self.rows() as int)[k] as int].len()
                    && catchable(
                    self.entries(),
                    #[trigger] self.cells()[block_cells(cx as int, cy as int, self.cols() as int, self.rows() as int)[k] as int][m],
                    hunter.slot,
                ) ==> targets@.contains(
                    self.cells()[block_cells(cx as int, cy as int, self.cols() as int, self.rows() as int)[k] as int][m],
                ),
    {
        let mut targets: Vec<Handle> = Vec::new();
        if arena_get(&self.arena, hunter).is_none() {
            return targets;
        }
        let block = neighbor_cells(cx, cy, self.cols, self.rows);
        let ghost e = self.entries();
        let ghost cells = self.cells();
        let ghost p = |h: Handle| is_target(e, h, hunter.slot);
        let mut k: usize = 0;
        while k < block.len()
            invariant
                self.well_formed(),
                e == self.entries(),
                cells == self.cells(),
                p == (|h: Handle| is_target(e, h, hunter.slot)),
                block@ == block_cells(cx as int, cy as int, self.cols as int, self.rows as int),
                forall|j: int| 0 <= j < block@.len() ==> (#[trigger] block@[j]) < self.cols * self.rows,
                k <= block@.len(),
                targets@ == prey_near(cells, block@.take(k as int), e, hunter.slot),
            decreases block@.len() - k,
        {
            let cell = block[k];
            let ghost before = targets@;
            let ghost content = cells[cell as int];
            assert(content == self.grid_cells@[cell as int]@);
            let mut j: usize = 0;
            while j < self.grid_cells[cell].len()
                invariant
                    self.well_formed(),
                    e == self.entries(),
                    cells == self.cells(),
                    p == (|h: Handle| is_target(e, h, hunter.slot)),
                    cell < self.grid_cells@.len(),
                    content == self.grid_cells@[cell as int]@,
                    j <= content.len(),
                    targets@ == before + select(content.take(j as int), p),
                decreases content.len() - j,
            {
                let prey_idx = self.grid_cells[cell][j];
                proof {
                    lemma_select_step(content, p, j as int);
                }
                if prey_idx.slot != hunter.slot {
                    if let Some(prey) = arena_get(&self.arena, prey_idx) {
                        if prey.e_type == EntityType::Prey && prey.is_alive {
                            targets.push(prey_idx);
                        }
                    }
                }
                j = j + 1;
            }
            proof {
                assert(content.take(content.len() as int) =~= content);
                assert(block@.take(k + 1).drop_last() =~= block@.take(k as int));
                assert(block@.take(k + 1).last() == cell);
            }
            k = k + 1;
        }
        proof {
            assert(block@.take(block@.len() as int) =~= block@);
            assert forall|k: int| 0 <= k < block@.len() implies (#[trigger] block@[k]) < cells.len() by {}
            lemma_prey_near_exact(cells, block@, e, hunter.slot);
        }
        targets
    }

    /// The predator the hunt reaches next, when the pass has not gone
    /// through all the hunters.
    pub fn hunt_current(&self, pass: &HuntPass) -> (current: Option<Handle>)
        ensures
            pass.position < self.hunters().len() ==> current == Some(self.hunters()[pass.position as int]),
            pass.position >= self.hunters().len() ==> current.is_none(),
    {
        if pass.position < self.predators_buf.len() {
            Some(self.predators_buf[pass.position])
        } else {
            None
        }
    }

    /// Whether the predator `hunter` may catch `target` now: both are held
    /// by the arena and `target` is a living prey in another slot.
    pub fn can_catch(&self, hunter: Handle, target: Handle) -> (ok: bool)
        ensures
            ok == (hunter.generation >= 1 && target.generation >= 1 && is_live(self.entries(), hunter) && is_target(
                self.entries(),
                target,
                hunter.slot,
            )),
    {
        if hunter.generation < 1 || target.generation < 1 || hunter.slot == target.slot {
            return false;
        }
        if arena_get(&self.arena, hunter).is_none() {
            return false;
        }
        match arena_get(&self.arena, target) {
            Some(b) => b.e_type == EntityType::Prey && b.is_alive,
            None => false,
        }
    }

    /// One step of the hunt: the hunter at the pass's position catches
    /// `catch`, if one is given, which must be a living prey it may catch;
    /// the pass moves to the next hunter.
    pub fn hunt_step(&mut self, pass: &mut HuntPass, catch: Option<Handle>)
        requires
            old(self).well_formed(),
            old(pass).position < old(self).hunters().len(),
            old(pass).catches < usize::MAX,
            catch matches Some(t) ==> {
                let hunter = old(self).hunters()[old(pass).position as int];
                &&& hunter.generation >= 1
                &&& t.generation >= 1
                &&& is_live(old(self).entries(), hunter)
                &&& is_target(old(self).entries(), t, hunter.slot)
            },
        ensures
            hunt_advanced(*old(self), *old(pass), *final(self), *final(pass)),
            old(pass).catches <= old(pass).position ==> final(pass).catches <= final(pass).position,
            catch matches Some(t) ==> {
                &&& final(self).entries() == old(self).entries().insert(t.key(), caught(old(self).entries()[t.key()]))
                &&& final(pass).catches == old(pass).catches + 1
            },
            catch is None ==> {
                &&& final(self).entries() == old(self).entries()
                &&& final(pass).catches == old(pass).catches
            },
            final(self).cells() == old(self).cells(),
            final(self).cols() == old(self).cols(),
            final(self).rows() == old(self).rows(),
    {
        let hunter = self.predators_buf[pass.position];
        let ghost before = *self;
        match catch {
            Some(t) => {
                self.capture(hunter, t);
                pass.catches = pass.catches + 1;
            },
            None => {},
        }
        assert(pass.position < self.predators_buf.len());
        pass.position = pass.position + 1;
        proof {
            if let Some(t) = catch {
                assert(is_alive_of_kind(before.entries(), t, EntityType::Prey));
                assert(self.entries().dom() =~= before.entries().dom());
            }
        }
    }

    /// Whether `h` names a boid the arena holds.
    pub fn contains(&self, h: Handle) -> (live: bool)
        ensures
            live == (h.generation >= 1 && is_live(self.entries(), h)),
    {
        h.generation >= 1 && arena_get(&self.arena, h).is_some()
    }

    /// The predator `hunter` catches `target`: the target is no longer
    /// alive; nothing else changes.
    pub fn capture(&mut self, hunter: Handle, target: Handle)
        requires
            old(self).well_formed(),
            hunter.generation >= 1,
            target.generation >= 1,
            hunter.slot != target.slot,
            is_live(old(self).entries(), hunter),
            is_live(old(self).entries(), target),
        ensures
            final(self).well_formed(),
            final(self).entries() == old(self).entries().insert(target.key(), caught(old(self).entries()[target.key()])),
            !is_alive(final(self).entries(), target),
            of_kind(final(self).roster(), final(self).entries(), EntityType::Prey) == of_kind(
                old(self).roster(),
                old(self).entries(),
                EntityType::Prey,
            ),
            of_kind(final(self).roster(), final(self).entries(), EntityType::Predator) == of_kind(
                old(self).roster(),
                old(self).entries(),
                EntityType::Predator,
            ),
            is_alive_of_kind(old(self).entries(), target, EntityType::Prey) ==> {
                &&& alive_of_kind(final(self).roster(), final(self).entries(), EntityType::Prey).len() + 1
                    == alive_of_kind(old(self).roster(), old(self).entries(), EntityType::Prey).len()
                &&& alive_of_kind(final(self).roster(), final(self).entries(), EntityType::Predator)
                    == alive_of_kind(old(self).roster(), old(self).entries(), EntityType::Predator)
            },
            final(self).roster() == old(self).roster(),
            final(self).cells() == old(self).cells(),
            final(self).hunters() == old(self).hunters(),
            final(self).cols() == old(self).cols(),
            final(self).rows() == old(self).rows(),
            final(self).max_predators() == old(self).max_predators(),
            final(self).max_preys() == old(self).max_preys(),
    {
        arena_align_catch(&mut self.arena, hunter, target);
        proof {
            assert(self.entries().dom() =~= old(self).entries().dom());
            let r = self.roster();
            let e = old(self).entries();
            let e2 = self.entries();
            assert forall|i: int| 0 <= i < r.len() implies #[trigger] e.dom().contains(r[i].key()) by {}
            lemma_select_congruent(r, |h: Handle| is_of_kind(e, h, EntityType::Prey), |h: Handle| is_of_kind(e2, h, EntityType::Prey));
            lemma_select_congruent(r, |h: Handle| is_of_kind(e, h, EntityType::Predator), |h: Handle| is_of_kind(e2, h, EntityType::Predator));
            if is_alive_of_kind(e, target, EntityType::Prey) {
                old(self).lemma_roster_is_population(target.key());
                let j = choose|j: int| 0 <= j < r.len() && #[trigger] r[j].key() == target.key();
                assert(r[j] == target);
                assert forall|i: int| 0 <= i < r.len() && i != j implies is_alive_of_kind(e, #[trigger] r[i], EntityType::Prey)
                    == is_alive_of_kind(e2, r[i], EntityType::Prey) by {
                    if i < j {
                        assert(r[i].slot != r[j].slot);
                    } else {
                        assert(r[j].slot != r[i].slot);
                    }
                }
                lemma_select_flip(
                    r,
                    |h: Handle| is_alive_of_kind(e, h, EntityType::Prey),
                    |h: Handle| is_alive_of_kind(e2, h, EntityType::Prey),
                    j,
                );
                assert forall|i: int| 0 <= i < r.len() implies is_alive_of_kind(e, #[trigger] r[i], EntityType::Predator)
                    == is_alive_of_kind(e2, r[i], EntityType::Predator) by {}
                lemma_select_congruent(
                    r,
                    |h: Handle| is_alive_of_kind(e, h, EntityType::Predator),
                    |h: Handle| is_alive_of_kind(e2, h, EntityType::Predator),
                );
            }
        }
    }

    /// Gathers the living prey and the living predators of grid cell `cell`,
    /// each in the cell's order, into the simulation's reused buffers, when
    /// the cell holds at least two handles; tells whether it did.
    pub fn flock_group(&mut self, cell: usize) -> (formed: bool)
        requires
            old(self).well_formed(),
            cell < old(self).cells().len(),
        ensures
            same_population(*old(self), *final(self)),
            final(self).cells() == old(self).cells(),
            final(self).hunters() == old(self).hunters(),
            final(self).cols() == old(self).cols(),
            final(self).rows() == old(self).rows(),
            formed == (old(self).cells()[cell as int].len() >= 2),
            formed ==> final(self).flock_prey() == alive_of_kind(
                old(self).cells()[cell as int],
                old(self).entries(),
                EntityType::Prey,
            ),
            formed ==> final(self).flock_predators() == alive_of_kind(
                old(self).cells()[cell as int],
                old(self).entries(),
                EntityType::Predator,
            ),
            formed ==> forall|a: int, b: int|
                0 <= a < b < final(self).flock_prey().len() ==> #[trigger] final(self).flock_prey()[a].slot
                    != #[trigger] final(self).flock_prey()[b].slot,
    {
        let ghost content = self.cells()[cell as int];
        assert(content == self.grid_cells@[cell as int]@);
        if self.grid_cells[cell].len() < 2 {
            return false;
        }
        let ghost e = self.entries();
        let ghost prey_p = |h: Handle| is_alive_of_kind(e, h, EntityType::Prey);
        let ghost pred_p = |h: Handle| is_alive_of_kind(e, h, EntityType::Predator);
        self.prey_neighbors_buf.clear();
        self.cell_preds_buf.clear();
        let mut j: usize = 0;
        while j < self.grid_cells[cell].len()
            invariant
                self.well_formed(),
                e == self.entries(),
                e == old(self).entries(),
                self.roster() == old(self).roster(),
                self.grid_cells@ == old(self).grid_cells@,
                self.predators_buf@ == old(self).predators_buf@,
                self.cols == old(self).cols && self.rows == old(self).rows,
                self.max_preys == old(self).max_preys && self.max_predators == old(self).max_predators,
                cell < self.grid_cells@.len(),
                content == self.grid_cells@[cell as int]@,
                prey_p == (|h: Handle| is_alive_of_kind(e, h, EntityType::Prey)),
                pred_p == (|h: Handle| is_alive_of_kind(e, h, EntityType::Predator)),
                j <= content.len(),
                self.prey_neighbors_buf@ == select(content.take(j as int), prey_p),
                self.cell_preds_buf@ == select(content.take(j as int), pred_p),
            decreases content.len() - j,
        {
            let idx = self.grid_cells[cell][j];
            proof {
                lemma_select_step(content, prey_p, j as int);
                lemma_select_step(content, pred_p, j as int);
            }
            if let Some(b) = arena_get(&self.arena, idx) {
                if b.is_alive {
                    if b.e_type == EntityType::Prey {
                        self.prey_neighbors_buf.push(idx);
                    } else {
                        self.cell_preds_buf.push(idx);
                    }
                }
            }
            j = j + 1;
        }
        proof {
            assert(content.take(content.len() as int) =~= content);
            lemma_select_no_duplicates(content, prey_p);
            lemma_select_sound(content, prey_p);
            let prey = self.prey_neighbors_buf@;
            assert forall|a: int, b: int| 0 <= a < b < prey.len() implies #[trigger] prey[a].slot != #[trigger] prey[b].slot by {
                assert(prey_p(prey[a]) && prey_p(prey[b]));
                assert(prey[a] != prey[b]);
                if prey[a].slot == prey[b].slot {
                    self.lemma_live_slots_unique(prey[a], prey[b]);
                }
            }
        }
        true
    }

    /// The living prey gathered by the last `flock_group`.
    pub fn flock_prey_list(&self) -> (prey: &Vec<Handle>)
        ensures
            prey@ == self.flock_prey(),
    {
        &self.prey_neighbors_buf
    }

    /// The living predators gathered by the last `flock_group`.
    pub fn flock_predator_list(&self) -> (predators: &Vec<Handle>)
        ensures
            predators@ == self.flock_predators(),
    {
        &self.cell_preds_buf
    }

    /// The boid the update of a tick reaches next, when the pass has not
    /// gone through the whole roster.
    pub fn update_current(&self, pass: &UpdatePass) -> (current: Option<(Handle, Boid)>)
        requires
            self.well_formed(),
        ensures
            pass.position < self.roster().len() ==> current == Some(
                (self.roster()[pass.position as int], self.entries()[self.roster()[pass.position as int].key()]),
            ),
            pass.position >= self.roster().len() ==> current.is_none(),
    {
        if pass.position < self.active_indices.len() {
            let idx = self.active_indices[pass.position];
            proof {
                assert(self.entries().dom().contains(self.roster()[pass.position as int].key()));
            }
            match arena_get(&self.arena, idx) {
                Some(boid) => Some((idx, boid)),
                None => None,
            }
        } else {
            None
        }
    }

    /// One step of the update of a tick, on the boid at the pass's
    /// position. `starved` tells whether a predator's energy ran out,
    /// `fertile` whether it exceeds what a birth takes, `prey_draw` whether
    /// a prey's birth draw succeeded. The boid's fate is `fate(..)`. A boid
    /// that leaves is removed from the arena and its place on the roster
    /// is taken by the last boid of the roster, which is visited next; a
    /// boid that stays moves the pass on. A birth records the newborn's
    /// species and counts it.
    pub fn update_step(&mut self, pass: &mut UpdatePass, starved: bool, fertile: bool, prey_draw: bool) -> (outcome: UpdateOutcome)
        requires
            old(self).well_formed(),
            old(pass).position < old(self).roster().len(),
        ensures
            final(self).well_formed(),
            ({
                let r = old(self).roster();
                let e = old(self).entries();
                let pos = old(pass).position as int;
                let h = r[pos];
                let b = e[h.key()];
                &&& !b.is_alive ==> outcome == UpdateOutcome::Removed
                &&& (b.is_alive && b.e_type == EntityType::Prey) ==> outcome == (UpdateOutcome::Kept {
                    reproduced: prey_draw && old(pass).prey_count < old(self).max_preys(),
                })
                &&& (b.is_alive && b.e_type == EntityType::Predator && starved) ==> outcome == UpdateOutcome::Removed
                &&& (b.is_alive && b.e_type == EntityType::Predator && !starved) ==> outcome == (UpdateOutcome::Kept {
                    reproduced: fertile && old(pass).pred_count < old(self).max_predators(),
                })
                &&& outcome == fate(
                    b,
                    starved,
                    fertile,
                    prey_draw,
                    old(pass).prey_count as int,
                    old(pass).pred_count as int,
                    old(self).max_preys() as int,
                    old(self).max_predators() as int,
                )
                &&& outcome == UpdateOutcome::Removed ==> {
                    &&& final(self).entries() == e.remove(h.key())
                    &&& final(self).roster() == r.update(pos, r.last()).drop_last()
                    &&& final(pass).position == old(pass).position
                    &&& final(pass).prey_count == old(pass).prey_count
                    &&& final(pass).pred_count == old(pass).pred_count
                    &&& final(pass).newborns@ == old(pass).newborns@
                }
                &&& outcome matches UpdateOutcome::Kept { reproduced } ==> {
                    &&& final(self).entries() == e
                    &&& final(self).roster() == r
                    &&& final(pass).position == old(pass).position + 1
                    &&& (reproduced && b.e_type == EntityType::Predator) ==> {
                        &&& final(pass).pred_count == old(pass).pred_count + 1
                        &&& final(pass).prey_count == old(pass).prey_count
                        &&& final(pass).newborns@ == old(pass).newborns@.push(EntityType::Predator)
                    }
                    &&& (reproduced && b.e_type == EntityType::Prey) ==> {
                        &&& final(pass).prey_count == old(pass).prey_count + 1
                        &&& final(pass).pred_count == old(pass).pred_count
                        &&& final(pass).newborns@ == old(pass).newborns@.push(EntityType::Prey)
                    }
                    &&& !reproduced ==> {
                        &&& final(pass).prey_count == old(pass).prey_count
                        &&& final(pass).pred_count == old(pass).pred_count
                        &&& final(pass).newborns@ == old(pass).newborns@
                    }
                }
            }),
            final(self).roster().len() - final(pass).position < old(self).roster().len() - old(pass).position,
            (forall|i: int| 0 <= i < old(pass).position ==> is_alive(old(self).entries(), #[trigger] old(self).roster()[i]))
                ==> (forall|i: int| 0 <= i < final(pass).position ==> is_alive(final(self).entries(), #[trigger] final(self).roster()[i])),
            final(pass).pred_count > old(pass).pred_count ==> final(pass).pred_count <= old(self).max_predators(),
            final(pass).prey_count > old(pass).prey_count ==> final(pass).prey_count <= old(self).max_preys(),
            update_advanced(*old(self), *old(pass), *final(self), *final(pass)),
            final(self).cells() == old(self).cells(),
            final(self).hunters() == old(self).hunters(),
            final(self).cols() == old(self).cols(),
            final(self).rows() == old(self).rows(),
            final(self).max_predators() == old(self).max_predators(),
            final(self).max_preys() == old(self).max_preys(),
    {
        let i = pass.position;
        let idx = self.active_indices[i];
        proof {
            assert(self.entries().dom().contains(self.roster()[i as int].key()));
        }
        let mut is_dead = false;
        let mut reproduced = false;
        if let Some(boid) = arena_get(&self.arena, idx) {
            if !boid.is_alive {
                is_dead = true;
            } else {
                if boid.e_type == EntityType::Predator {
                    if starved {
                        is_dead = true;
                    } else if fertile && pass.pred_count < self.max_predators {
                        pass.newborns.push(EntityType::Predator);
                        pass.pred_count = pass.pred_count + 1;
                        reproduced = true;
                    }
                } else {
                    if prey_draw && pass.prey_count < self.max_preys {
                        pass.newborns.push(EntityType::Prey);
                        pass.prey_count = pass.prey_count + 1;
                        reproduced = true;
                    }
                }
            }
        } else {
            is_dead = true;
        }

        if is_dead {
            let ghost r = self.roster();
            let _ = arena_remove(&mut self.arena, idx);
            self.active_indices.swap_remove(i);
            proof {
                let r2 = self.roster();
                let e = old(self).entries();
                assert(r2.len() == r.len() - 1);
                assert forall|a: int| 0 <= a < r2.len() implies (a == i || r2[a] == r[a]) && (a != i || r2[a] == r[r.len() - 1]) by {}
                assert forall|a: int| 0 <= a < r2.len() implies #[trigger] self.entries().dom().contains(r2[a].key()) by {
                    let src = if a == i { r.len() - 1 } else { a };
                    assert(r2[a] == r[src]);
                    assert(e.dom().contains(r[src].key()));
                    assert(r[src].slot != r[i as int].slot);
                }
                assert forall|a: int| 0 <= a < r2.len() implies #[trigger] r2[a].generation >= 1 by {
                    let src = if a == i { r.len() - 1 } else { a };
                    assert(r2[a] == r[src]);
                }
                assert forall|a: int, b: int| 0 <= a < b < r2.len() implies #[trigger] r2[a].slot != #[trigger] r2[b].slot by {
                    let sa = if a == i { r.len() - 1 } else { a };
                    let sb = if b == i { r.len() - 1 } else { b };
                    assert(r2[a] == r[sa]);
                    assert(r2[b] == r[sb]);
                    if sa < sb {
                        assert(r[sa].slot != r[sb].slot);
                    } else {
                        assert(r[sb].slot != r[sa].slot);
                    }
                }
                assert forall|a: int| 0 <= a < r.len() implies #[trigger] e.dom().contains(r[a].key()) by {}
                lemma_swap_remove_counts(r, e, i as int, EntityType::Prey);
                lemma_swap_remove_counts(r, e, i as int, EntityType::Predator);
                assert(self.entries() == e.remove(r[i as int].key()));
                if forall|a: int| 0 <= a < i ==> is_alive(e, #[trigger] r[a]) {
                    assert forall|a: int| 0 <= a < i implies is_alive(self.entries(), #[trigger] r2[a]) by {
                        assert(r2[a] == r[a]);
                        assert(is_alive(e, r[a]));
                        assert(r[a].slot != r[i as int].slot);
                    }
                }
            }
            UpdateOutcome::Removed
        } else {
            assert(i < self.active_indices.len());
            pass.position = i + 1;
            proof {
                if reproduced {
                    assert(pass.newborns@.drop_last() =~= old(pass).newborns@);
                } else {
                    assert(pass.newborns@ == old(pass).newborns@);
                }
            }
            UpdateOutcome::Kept { reproduced }
        }
    }

    /// Ends the update of a tick: the newborns of the pass are stored, in
    /// order of birth, at the end of the roster. Returns their handles.
    pub fn finish_update(&mut self, pass: UpdatePass) -> (born: Vec<Handle>)
        requires
            old(self).well_formed(),
            old(self).roster().len() + pass.newborns@.len() <= arena_capacity(),
        ensures
            final(self).well_formed(),
            born@.len() == pass.newborns@.len(),
            final(self).roster() == old(self).roster() + born@,
            final(self).entries().dom().len() == old(self).entries().dom().len() + born@.len(),
            forall|k: (u32, u32)| #[trigger] old(self).entries().dom().contains(k)
                ==> final(self).entries().dom().contains(k) && final(self).entries()[k] == old(self).entries()[k],
            forall|i: int| 0 <= i < born@.len() ==> #[trigger] final(self).entries()[born@[i].key()] == newborn(pass.newborns@[i]),
            of_kind(final(self).roster(), final(self).entries(), EntityType::Prey).len() == of_kind(
                old(self).roster(),
                old(self).entries(),
                EntityType::Prey,
            ).len() + tally(pass.newborns@, EntityType::Prey),
            of_kind(final(self).roster(), final(self).entries(), EntityType::Predator).len() == of_kind(
                old(self).roster(),
                old(self).entries(),
                EntityType::Predator,
            ).len() + tally(pass.newborns@, EntityType::Predator),
            final(self).cells() == old(self).cells(),
            final(self).hunters() == old(self).hunters(),
            final(self).cols() == old(self).cols(),
            final(self).rows() == old(self).rows(),
            final(self).max_predators() == old(self).max_predators(),
            final(self).max_preys() == old(self).max_preys(),
    {
        let kinds = pass.newborns;
        let mut born: Vec<Handle> = Vec::new();
        let mut n: usize = 0;
        while n < kinds.len()
            invariant
                n <= kinds@.len(),
                self.well_formed(),
                old(self).roster().len() + kinds@.len() <= arena_capacity(),
                born@.len() == n,
                self.roster() == old(self).roster() + born@,
                self.entries().dom().len() == old(self).entries().dom().len() + n,
                forall|k: (u32, u32)| #[trigger] old(self).entries().dom().contains(k)
                    ==> self.entries().dom().contains(k) && self.entries()[k] == old(self).entries()[k],
                forall|i: int| 0 <= i < n ==> #[trigger] self.entries()[born@[i].key()] == newborn(kinds@[i]),
                self.cells() == old(self).cells(),
                self.hunters() == old(self).hunters(),
                self.cols() == old(self).cols(),
                self.rows() == old(self).rows(),
                self.max_predators() == old(self).max_predators(),
                self.max_preys() == old(self).max_preys(),
            decreases kinds@.len() - n,
        {
            let ghost before = *self;
            let h = self.enroll(kinds[n]);
            born.push(h);
            n = n + 1;
            proof {
                assert(self.roster() =~= old(self).roster() + born@);
                assert forall|i: int| 0 <= i < n implies #[trigger] self.entries()[born@[i].key()] == newborn(kinds@[i]) by {
                    if i < n - 1 {
                        let k = born@[i].key();
                        assert(before.roster()[old(self).roster().len() + i] == born@[i]);
                        assert(before.entries().dom().contains(k));
                    }
                }
                assert forall|k: (u32, u32)| #[trigger] old(self).entries().dom().contains(k)
                    implies self.entries().dom().contains(k) && self.entries()[k] == old(self).entries()[k] by {
                    assert(before.entries().dom().contains(k));
                }
            }
        }
        proof {
            let r = old(self).roster();
            assert forall|i: int| #![trigger born@[i]] 0 <= i < born@.len() implies self.entries().dom().contains(born@[i].key())
                && self.entries()[born@[i].key()] == newborn(kinds@[i]) by {
                assert(self.roster()[r.len() + i] == born@[i]);
            }
            lemma_of_kind_extend(r, old(self).entries(), born@, self.entries(), kinds@, EntityType::Prey);
            lemma_of_kind_extend(r, old(self).entries(), born@, self.entries(), kinds@, EntityType::Predator);
        }
        born
    }

    proof fn lemma_roster_no_duplicates(&self)
        requires
            self.well_formed(),
        ensures
            self.roster().no_duplicates(),
    {
        let r = self.roster();
        assert forall|a: int, b: int| 0 <= a < r.len() && 0 <= b < r.len() && a != b implies r[a] != r[b] by {
            if a < b {
                assert(r[a].slot != r[b].slot);
            } else {
                assert(r[b].slot != r[a].slot);
            }
        }
    }

    /// The roster: the handles of the boids in play, in visiting order.
    pub fn roster_handles(&self) -> (handles: Vec<Handle>)
        ensures
            handles@ == self.roster(),
    {
        self.active_indices.clone()
    }

    /// The predators found alive when the grid was last filled, in roster
    /// order.
    pub fn hunter_list(&self) -> (handles: Vec<Handle>)
        ensures
            handles@ == self.hunters(),
    {
        self.predators_buf.clone()
    }

    /// The boid `h` names, if the arena holds it.
    pub fn boid(&self, h: Handle) -> (found: Option<Boid>)
        requires
            h.generation >= 1,
        ensures
            found == (if is_live(self.entries(), h) {
                Some(self.entries()[h.key()])
            } else {
                None
            }),
    {
        arena_get(&self.arena, h)
    }

    /// The number of grid cells.
    pub fn cell_count(&self) -> (n: usize)
        requires
            self.well_formed(),
        ensures
            n == self.cells().len(),
            n == self.cols() * self.rows(),
    {
        self.grid_cells.len()
    }

    /// The number of grid columns.
    pub fn grid_cols(&self) -> (n: usize)
        ensures
            n == self.cols(),
    {
        self.cols
    }

    /// The number of grid rows.
    pub fn grid_rows(&self) -> (n: usize)
        ensures
            n == self.rows(),
    {
        self.rows
    }

    /// The handles of the roster whose boids are of species `kind`, in
    /// roster order.
    pub fn handles_of_kind(&self, kind: EntityType) -> (handles: Vec<Handle>)
        requires
            self.well_formed(),
        ensures
            handles@ == of_kind(self.roster(), self.entries(), kind),
    {
        let ghost r = self.roster();
        let ghost p = |h: Handle| is_of_kind(self.entries(), h, kind);
        let mut handles: Vec<Handle> = Vec::new();
        let mut i: usize = 0;
        while i < self.active_indices.len()
            invariant
                self.well_formed(),
                r == self.roster(),
                p == (|h: Handle| is_of_kind(self.entries(), h, kind)),
                i <= r.len(),
                handles@ == select(r.take(i as int), p),
            decreases r.len() - i,
        {
            let h = self.active_indices[i];
            proof {
                lemma_select_step(r, p, i as int);
            }
            if let Some(b) = arena_get(&self.arena, h) {
                if b.e_type == kind {
                    handles.push(h);
                }
            }
            i = i + 1;
        }
        proof {
            assert(r.take(r.len() as int) =~= r);
        }
        handles
    }

    fn count_kind(&self, kind: EntityType) -> (n: usize)
        requires
            self.well_formed(),
        ensures
            n == of_kind(self.roster(), self.entries(), kind).len(),
    {
        let ghost r = self.roster();
        let ghost p = |h: Handle| is_of_kind(self.entries(), h, kind);
        let mut n: usize = 0;
        let mut i: usize = 0;
        while i < self.active_indices.len()
            invariant
                self.well_formed(),
                r == self.roster(),
                p == (|h: Handle| is_of_kind(self.entries(), h, kind)),
                i <= r.len(),
                n == select(r.take(i as int), p).len(),
                n <= i,
            decreases r.len() - i,
        {
            let h = self.active_indices[i];
            proof {
                lemma_select_step(r, p, i as int);
            }
            match arena_get(&self.arena, h) {
                Some(b) => {
                    if b.e_type == kind {
                        n = n + 1;
                    }
                },
                None => {},
            }
            i = i + 1;
        }
        proof {
            assert(r.take(r.len() as int) =~= r);
        }
        n
    }
}


/// Where a boid lands when the grid is filled: a living boid of the roster
/// lies in the cell of its clamped coordinates and in no other; a boid
/// that is dead, or that the arena does not hold, lies in no cell.
pub proof fn lemma_cell_membership(
    roster: Seq<Handle>,
    entries: Map<(u32, u32), Boid>,
    coords: Seq<(usize, usize)>,
    cols: int,
    rows: int,
    i: int,
    c: int,
)
    requires
        roster.no_duplicates(),
        coords.len() == roster.len(),
        0 <= i < roster.len(),
    ensures
        cell_members(roster, entries, coords, cols, rows, c).contains(roster[i]) <==> (is_alive(entries, roster[i])
            && c == cell_of(coords[i].0 as int, coords[i].1 as int, cols, rows)),
{
    lemma_placed_membership(roster, entries, coords, cols, rows, roster.len(), i, c);
}

proof fn lemma_placed_membership(
    roster: Seq<Handle>,
    entries: Map<(u32, u32), Boid>,
    coords: Seq<(usize, usize)>,
    cols: int,
    rows: int,
    n: nat,
    i: int,
    c: int,
)
    requires
        roster.no_duplicates(),
        coords.len() == roster.len(),
        n <= roster.len(),
        0 <= i < roster.len(),
    ensures
        placed(roster, entries, coords, cols, rows, n, c).contains(roster[i]) <==> (i < n && is_alive(entries, roster[i])
            && c == cell_of(coords[i].0 as int, coords[i].1 as int, cols, rows)),
    decreases n,
{
    if n > 0 {
        lemma_placed_membership(roster, entries, coords, cols, rows, (n - 1) as nat, i, c);
        let prev = placed(roster, entries, coords, cols, rows, (n - 1) as nat, c);
        let cur = placed(roster, entries, coords, cols, rows, n, c);
        let j = n - 1;
        if is_alive(entries, roster[j]) && cell_of(coords[j].0 as int, coords[j].1 as int, cols, rows) == c {
            assert(cur == prev.push(roster[j]));
            if i != j {
                assert(roster[i] != roster[j]);
                if cur.contains(roster[i]) {
                    let k = choose|k: int| 0 <= k < cur.len() && cur[k] == roster[i];
                    if k < prev.len() {
                        assert(prev[k] == roster[i]);
                    }
                }
                if prev.contains(roster[i]) {
                    let k = choose|k: int| 0 <= k < prev.len() && prev[k] == roster[i];
                    assert(cur[k] == roster[i]);
                }
            } else {
                assert(cur[cur.len() - 1] == roster[i]);
            }
        } else {
            assert(cur == prev);
        }
    }
}

proof fn lemma_placed_no_duplicates(
    roster: Seq<Handle>,
    entries: Map<(u32, u32), Boid>,
    coords: Seq<(usize, usize)>,
    cols: int,
    rows: int,
    n: nat,
    c: int,
)
    requires
        roster.no_duplicates(),
        coords.len() == roster.len(),
        n <= roster.len(),
    ensures
        placed(roster, entries, coords, cols, rows, n, c).no_duplicates(),
    decreases n,
{
    if n > 0 {
        lemma_placed_no_duplicates(roster, entries, coords, cols, rows, (n - 1) as nat, c);
        let prev = placed(roster, entries, coords, cols, rows, (n - 1) as nat, c);
        let j = n - 1;
        lemma_placed_membership(roster, entries, coords, cols, rows, (n - 1) as nat, j, c);
        if is_alive(entries, roster[j]) && cell_of(coords[j].0 as int, coords[j].1 as int, cols, rows) == c {
            let cur = prev.push(roster[j]);
            assert forall|a: int, b: int| 0 <= a < cur.len() && 0 <= b < cur.len() && a != b implies cur[a] != cur[b] by {
                if a < prev.len() && b < prev.len() {
                } else if a < prev.len() {
                    assert(cur[a] == prev[a]);
                } else {
                    assert(cur[b] == prev[b]);
                }
            }
        }
    }
}

/// The possible catches in a block of cells are exactly the catchable
/// handles those cells hold: each one listed is catchable and lies in a
/// cell of the block, and each catchable handle of a cell of the block is
/// listed, whatever its generation.
pub proof fn lemma_prey_near_exact(cells: Seq<Seq<Handle>>, block: Seq<usize>, entries: Map<(u32, u32), Boid>, hunter_slot: u32)
    requires
        forall|k: int| 0 <= k < block.len() ==> (#[trigger] block[k]) < cells.len(),
    ensures
        forall|t: int| 0 <= t < prey_near(cells, block, entries, hunter_slot).len() ==> catchable(
            entries,
            #[trigger] prey_near(cells, block, entries, hunter_slot)[t],
            hunter_slot,
        ),
        forall|k: int, m: int|
            0 <= k < block.len() && 0 <= m < cells[block[k] as int].len() && catchable(
                entries,
                #[trigger] cells[block[k] as int][m],
                hunter_slot,
            ) ==> prey_near(cells, block, entries, hunter_slot).contains(cells[block[k] as int][m]),
    decreases block.len(),
{
    if block.len() > 0 {
        let rest = block.drop_last();
        assert forall|k: int| 0 <= k < rest.len() implies (#[trigger] rest[k]) < cells.len() by {
            assert(rest[k] == block[k]);
        }
        lemma_prey_near_exact(cells, rest, entries, hunter_slot);
        let prev = prey_near(cells, rest, entries, hunter_slot);
        let c = block.last() as int;
        assert(block[block.len() - 1] == block.last());
        let p = |h: Handle| is_target(entries, h, hunter_slot);
        let here = select(cells[c], p);
        let all = prey_near(cells, block, entries, hunter_slot);
        assert(all == prev + here);
        lemma_select_sound(cells[c], p);
        assert forall|t: int| 0 <= t < all.len() implies catchable(entries, #[trigger] all[t], hunter_slot) by {
            if t < prev.len() {
                assert(all[t] == prev[t]);
            } else {
                assert(all[t] == here[t - prev.len()]);
                assert(p(here[t - prev.len()]));
            }
        }
        assert forall|k: int, m: int|
            0 <= k < block.len() && 0 <= m < cells[block[k] as int].len() && catchable(
                entries,
                #[trigger] cells[block[k] as int][m],
                hunter_slot,
            ) implies all.contains(cells[block[k] as int][m]) by {
            let h = cells[block[k] as int][m];
            if k < block.len() - 1 {
                assert(rest[k] == block[k]);
                assert(prev.contains(h));
                let w = choose|w: int| 0 <= w < prev.len() && prev[w] == h;
                assert(all[w] == h);
            } else {
                assert(p(cells[c][m]));
                lemma_select_complete(cells[c], p, m);
                let w = choose|w: int| 0 <= w < here.len() && here[w] == h;
                assert(all[prev.len() + w] == h);
            }
        }
    }
}

/// The prey reinforcement depends only on the prey count and the prey
/// draw, the predator reinforcement only on the predator count and the
/// predator draw: `PREY_REINFORCEMENT` prey exactly when fewer than
/// `PREY_REINFORCEMENT_THRESHOLD` prey live and the draw succeeded, and
/// likewise for predators.
pub proof fn lemma_reinforcement_rule(current_prey: int, current_pred: int, prey_draw: bool, pred_draw: bool)
    ensures
        reinforcement(current_prey, current_pred, prey_draw, pred_draw).0 == (if current_prey < 100 && prey_draw {
            10int
        } else {
            0
        }),
        reinforcement(current_prey, current_pred, prey_draw, pred_draw).1 == (if current_pred < 2 && pred_draw {
            1int
        } else {
            0
        }),
        forall|other_pred: int, other_draw: bool|
            #[trigger] reinforcement(current_prey, other_pred, prey_draw, other_draw).0 == reinforcement(
                current_prey,
                current_pred,
                prey_draw,
                pred_draw,
            ).0,
{
}

/// The fate of a boid in the update: a dead boid leaves; a living prey
/// stays and gives birth exactly when its draw succeeded and the prey
/// number fewer than their cap, whatever the predators' count, cap, and
/// energy flags; a living predator leaves when starved, and otherwise
/// stays and gives birth exactly when fertile and the predators number
/// fewer than their cap, whatever the prey's count, cap and draw.
pub proof fn lemma_fate_rule(
    b: Boid,
    starved: bool,
    fertile: bool,
    prey_draw: bool,
    prey_count: int,
    pred_count: int,
    max_preys: int,
    max_predators: int,
)
    ensures
        !b.is_alive ==> fate(b, starved, fertile, prey_draw, prey_count, pred_count, max_preys, max_predators)
            == UpdateOutcome::Removed,
        b.is_alive && b.e_type == EntityType::Prey ==> fate(
            b,
            starved,
            fertile,
            prey_draw,
            prey_count,
            pred_count,
            max_preys,
            max_predators,
        ) == (UpdateOutcome::Kept { reproduced: prey_draw && prey_count < max_preys }),
        b.is_alive && b.e_type == EntityType::Prey && prey_draw && prey_count < max_preys ==> fate(
            b,
            starved,
            fertile,
            prey_draw,
            prey_count,
            pred_count,
            max_preys,
            max_predators,
        ) == (UpdateOutcome::Kept { reproduced: true }),
        b.is_alive && b.e_type == EntityType::Predator ==> fate(
            b,
            starved,
            fertile,
            prey_draw,
            prey_count,
            pred_count,
            max_preys,
            max_predators,
        ) == (if starved {
            UpdateOutcome::Removed
        } else {
            UpdateOutcome::Kept { reproduced: fertile && pred_count < max_predators }
        }),
{
}

/// What holds between the start of an update pass and any later state of
/// it: the invariant and the caps, an arena that has only lost boids and
/// no living prey, living boids behind the pass's position, running counts
/// grown only up to their caps and only by the births recorded, and no
/// species grown on the roster.
pub open spec fn update_progress(s0: Simulation, p0: UpdatePass, s: Simulation, p: UpdatePass) -> bool {
    &&& s.well_formed()
    &&& s.max_preys() == s0.max_preys()
    &&& s.max_predators() == s0.max_predators()
    &&& forall|k: (u32, u32)| #[trigger] s.entries().dom().contains(k)
        ==> s0.entries().dom().contains(k) && s.entries()[k] == s0.entries()[k]
    &&& forall|k: (u32, u32)| #[trigger] s0.entries().dom().contains(k) && s0.entries()[k] == newborn(EntityType::Prey)
        ==> s.entries().dom().contains(k)
    &&& forall|i: int| 0 <= i < p.position ==> is_alive(s.entries(), #[trigger] s.roster()[i])
    &&& p0.prey_count <= p.prey_count
    &&& p.prey_count > p0.prey_count ==> p.prey_count <= s0.max_preys()
    &&& p0.pred_count <= p.pred_count
    &&& p.pred_count > p0.pred_count ==> p.pred_count <= s0.max_predators()
    &&& tally(p.newborns@, EntityType::Prey) + p0.prey_count == tally(p0.newborns@, EntityType::Prey) + p.prey_count
    &&& tally(p.newborns@, EntityType::Predator) + p0.pred_count == tally(p0.newborns@, EntityType::Predator) + p.pred_count
    &&& of_kind(s.roster(), s.entries(), EntityType::Prey).len() <= of_kind(s0.roster(), s0.entries(), EntityType::Prey).len()
    &&& of_kind(s.roster(), s.entries(), EntityType::Predator).len() <= of_kind(
        s0.roster(),
        s0.entries(),
        EntityType::Predator,
    ).len()
}

proof fn lemma_update_trace_prefix(trace: Seq<(Simulation, UpdatePass)>, n: int)
    requires
        1 <= n <= trace.len(),
        trace[0].0.well_formed(),
        trace[0].1.position == 0,
        forall|t: int| 0 <= t < trace.len() - 1 ==> update_advanced(#[trigger] trace[t].0, trace[t].1, trace[t + 1].0, trace[t + 1].1),
    ensures
        update_progress(trace[0].0, trace[0].1, trace[n - 1].0, trace[n - 1].1),
    decreases n,
{
    if n > 1 {
        lemma_update_trace_prefix(trace, n - 1);
        let t = n - 2;
        assert(update_advanced(trace[t].0, trace[t].1, trace[t + 1].0, trace[t + 1].1));
    }
}

/// A finished update pass (one that has reached the end of the roster,
/// each step made by `update_step` from the start `UpdatePass::new` gives)
/// leaves only living boids on the roster; a prey is still held exactly
/// when it was alive at the start, so the prey that leave are the caught
/// ones; the running counts end at most at the larger of their start and
/// their cap, having grown by the births of their species; and no species
/// grows on the roster before the newborns are stored.
pub proof fn lemma_update_pass(trace: Seq<(Simulation, UpdatePass)>)
    requires
        trace.len() >= 1,
        trace[0].0.well_formed(),
        trace[0].1.position == 0,
        trace[0].1.newborns@.len() == 0,
        forall|t: int| 0 <= t < trace.len() - 1 ==> update_advanced(#[trigger] trace[t].0, trace[t].1, trace[t + 1].0, trace[t + 1].1),
        trace.last().1.position >= trace.last().0.roster().len(),
    ensures
        ({
            let (s0, p0) = trace[0];
            let (s, p) = trace.last();
            &&& s.well_formed()
            &&& forall|i: int| 0 <= i < s.roster().len() ==> is_alive(s.entries(), #[trigger] s.roster()[i])
            &&& forall|k: (u32, u32)| (s.entries().dom().contains(k) && s.entries()[k].e_type == EntityType::Prey)
                <==> (s0.entries().dom().contains(k) && #[trigger] s0.entries()[k] == newborn(EntityType::Prey))
            &&& p.prey_count <= p0.prey_count || p.prey_count <= s0.max_preys()
            &&& p.pred_count <= p0.pred_count || p.pred_count <= s0.max_predators()
            &&& p0.prey_count <= p.prey_count
            &&& p0.pred_count <= p.pred_count
            &&& tally(p.newborns@, EntityType::Prey) == p.prey_count - p0.prey_count
            &&& tally(p.newborns@, EntityType::Predator) == p.pred_count - p0.pred_count
            &&& of_kind(s.roster(), s.entries(), EntityType::Prey).len() <= of_kind(s0.roster(), s0.entries(), EntityType::Prey).len()
            &&& of_kind(s.roster(), s.entries(), EntityType::Predator).len() <= of_kind(
                s0.roster(),
                s0.entries(),
                EntityType::Predator,
            ).len()
        }),
{
    lemma_update_trace_prefix(trace, trace.len() as int);
    let (s0, p0) = trace[0];
    let (s, p) = trace.last();
    assert(trace.last() == trace[trace.len() - 1]);
    assert(tally(p0.newborns@, EntityType::Prey) == 0);
    assert(tally(p0.newborns@, EntityType::Predator) == 0);
    assert forall|k: (u32, u32)| (s.entries().dom().contains(k) && s.entries()[k].e_type == EntityType::Prey)
        <==> (s0.entries().dom().contains(k) && #[trigger] s0.entries()[k] == newborn(EntityType::Prey)) by {
        if s.entries().dom().contains(k) {
            s.lemma_roster_is_population(k);
            let i = choose|i: int| 0 <= i < s.roster().len() && #[trigger] s.roster()[i].key() == k;
            assert(is_alive(s.entries(), s.roster()[i]));
        }
    }
}

proof fn lemma_hunt_trace_prefix(trace: Seq<(Simulation, HuntPass)>, n: int)
    requires
        1 <= n <= trace.len(),
        trace[0].0.well_formed(),
        forall|t: int| 0 <= t < trace.len() - 1 ==> hunt_advanced(#[trigger] trace[t].0, trace[t].1, trace[t + 1].0, trace[t + 1].1),
    ensures
        ({
            let (s0, p0) = trace[0];
            let (s, p) = trace[n - 1];
            &&& s.well_formed()
            &&& s.roster() == s0.roster()
            &&& s.hunters() == s0.hunters()
            &&& s.max_preys() == s0.max_preys()
            &&& s.max_predators() == s0.max_predators()
            &&& s.entries().dom() == s0.entries().dom()
            &&& p.position == p0.position + (n - 1)
            &&& n > 1 ==> p.position <= s0.hunters().len()
            &&& p0.catches <= p.catches <= p0.catches + (n - 1)
            &&& of_kind(s.roster(), s.entries(), EntityType::Prey) == of_kind(s0.roster(), s0.entries(), EntityType::Prey)
            &&& of_kind(s.roster(), s.entries(), EntityType::Predator) == of_kind(s0.roster(), s0.entries(), EntityType::Predator)
            &&& alive_of_kind(s.roster(), s.entries(), EntityType::Prey).len() + (p.catches - p0.catches) == alive_of_kind(
                s0.roster(),
                s0.entries(),
                EntityType::Prey,
            ).len()
            &&& alive_of_kind(s.roster(), s.entries(), EntityType::Predator) == alive_of_kind(
                s0.roster(),
                s0.entries(),
                EntityType::Predator,
            )
        }),
    decreases n,
{
    if n > 1 {
        lemma_hunt_trace_prefix(trace, n - 1);
        let t = n - 2;
        assert(hunt_advanced(trace[t].0, trace[t].1, trace[t + 1].0, trace[t + 1].1));
    }
}

/// A finished hunt (each hunter visited once by `hunt_step`, from the start
/// `HuntPass::new` gives) catches at most one prey per hunter, so at most
/// as many prey as there were hunters; the living prey drop by exactly the
/// catches, the living predators and the species of every boid stay as
/// they were, and no boid leaves the arena.
pub proof fn lemma_hunt_pass(trace: Seq<(Simulation, HuntPass)>)
    requires
        trace.len() >= 1,
        trace[0].0.well_formed(),
        trace[0].1.position == 0,
        trace[0].1.catches == 0,
        forall|t: int| 0 <= t < trace.len() - 1 ==> hunt_advanced(#[trigger] trace[t].0, trace[t].1, trace[t + 1].0, trace[t + 1].1),
        trace.last().1.position >= trace.last().0.hunters().len(),
    ensures
        ({
            let (s0, p0) = trace[0];
            let (s, p) = trace.last();
            &&& s.well_formed()
            &&& s.roster() == s0.roster()
            &&& s.entries().dom() == s0.entries().dom()
            &&& s.max_preys() == s0.max_preys()
            &&& s.max_predators() == s0.max_predators()
            &&& p.catches <= s0.hunters().len()
            &&& alive_of_kind(s.roster(), s.entries(), EntityType::Prey).len() + p.catches == alive_of_kind(
                s0.roster(),
                s0.entries(),
                EntityType::Prey,
            ).len()
            &&& alive_of_kind(s.roster(), s.entries(), EntityType::Predator) == alive_of_kind(
                s0.roster(),
                s0.entries(),
                EntityType::Predator,
            )
            &&& of_kind(s.roster(), s.entries(), EntityType::Prey) == of_kind(s0.roster(), s0.entries(), EntityType::Prey)
            &&& of_kind(s.roster(), s.entries(), EntityType::Predator) == of_kind(s0.roster(), s0.entries(), EntityType::Predator)
        }),
{
    let n = trace.len() as int;
    lemma_hunt_trace_prefix(trace, n);
    assert(trace.last() == trace[n - 1]);
    let (s, p) = trace.last();
    assert(p.position == n - 1);
    assert(s.hunters() == trace[0].0.hunters());
}

/// The larger of two integers.
pub open spec fn larger(a: int, b: int) -> int {
    if a < b { b } else { a }
}

/// A whole tick, phase by phase as the library's functions carry it out:
/// starting from a population of living boids, the grid is filled
/// (`index_population`, living counts `q` and `p`), reinforcements
/// `released` are spawned (`reinforce`: `rp` prey then `rq` predators), the
/// hunters hunt (`hunt_step` through `hunt`), the update pass runs
/// (`update_step` through `update`), and the newborns `born` are stored
/// (`finish_update`). After it: every boid on the roster is alive; the prey
/// number at most the larger of their start and their cap, plus a prey
/// reinforcement only when the prey fell below its threshold, and likewise
/// the predators; no more prey were caught than there were predators, so
/// the prey lost number at most the predators at the start.
pub proof fn lemma_tick(
    s0: Simulation,
    q: int,
    p: int,
    released: Seq<Handle>,
    rp: int,
    rq: int,
    hunt: Seq<(Simulation, HuntPass)>,
    update: Seq<(Simulation, UpdatePass)>,
    born: Seq<Handle>,
    s5: Simulation,
)
    requires
        s0.well_formed(),
        forall|i: int| 0 <= i < s0.roster().len() ==> is_alive(s0.entries(), #[trigger] s0.roster()[i]),
        q == alive_of_kind(s0.roster(), s0.entries(), EntityType::Prey).len(),
        p == alive_of_kind(s0.roster(), s0.entries(), EntityType::Predator).len(),
        0 <= rp <= (if q < PREY_REINFORCEMENT_THRESHOLD { PREY_REINFORCEMENT as int } else { 0 }),
        0 <= rq <= (if p < PREDATOR_REINFORCEMENT_THRESHOLD { PREDATOR_REINFORCEMENT as int } else { 0 }),
        released.len() == rp + rq,
        hunt.len() >= 1,
        hunt[0].0.well_formed(),
        hunt[0].0.roster() == s0.roster() + released,
        hunt[0].0.hunters().len() == p,
        hunt[0].0.max_preys() == s0.max_preys(),
        hunt[0].0.max_predators() == s0.max_predators(),
        forall|k: (u32, u32)| #[trigger] s0.entries().dom().contains(k)
            ==> hunt[0].0.entries().dom().contains(k) && hunt[0].0.entries()[k] == s0.entries()[k],
        forall|i: int| 0 <= i < rp ==> #[trigger] hunt[0].0.entries()[released[i].key()] == newborn(EntityType::Prey),
        forall|i: int| rp <= i < rp + rq ==> #[trigger] hunt[0].0.entries()[released[i].key()] == newborn(EntityType::Predator),
        of_kind(hunt[0].0.roster(), hunt[0].0.entries(), EntityType::Prey).len() == of_kind(
            s0.roster(),
            s0.entries(),
            EntityType::Prey,
        ).len() + rp,
        of_kind(hunt[0].0.roster(), hunt[0].0.entries(), EntityType::Predator).len() == of_kind(
            s0.roster(),
            s0.entries(),
            EntityType::Predator,
        ).len() + rq,
        hunt[0].1.position == 0,
        hunt[0].1.catches == 0,
        forall|t: int| 0 <= t < hunt.len() - 1 ==> hunt_advanced(#[trigger] hunt[t].0, hunt[t].1, hunt[t + 1].0, hunt[t + 1].1),
        hunt.last().1.position >= hunt.last().0.hunters().len(),
        update.len() >= 1,
        same_population(hunt.last().0, update[0].0),
        update[0].1.position == 0,
        update[0].1.newborns@.len() == 0,
        update[0].1.prey_count == q,
        update[0].1.pred_count == p,
        forall|t: int| 0 <= t < update.len() - 1 ==> update_advanced(#[trigger] update[t].0, update[t].1, update[t + 1].0, update[t + 1].1),
        update.last().1.position >= update.last().0.roster().len(),
        s5.well_formed(),
        s5.roster() == update.last().0.roster() + born,
        forall|k: (u32, u32)| #[trigger] update.last().0.entries().dom().contains(k)
            ==> s5.entries().dom().contains(k) && s5.entries()[k] == update.last().0.entries()[k],
        born.len() == update.last().1.newborns@.len(),
        forall|i: int| 0 <= i < born.len() ==> #[trigger] s5.entries()[born[i].key()] == newborn(update.last().1.newborns@[i]),
        of_kind(s5.roster(), s5.entries(), EntityType::Prey).len() == of_kind(
            update.last().0.roster(),
            update.last().0.entries(),
            EntityType::Prey,
        ).len() + tally(update.last().1.newborns@, EntityType::Prey),
        of_kind(s5.roster(), s5.entries(), EntityType::Predator).len() == of_kind(
            update.last().0.roster(),
            update.last().0.entries(),
            EntityType::Predator,
        ).len() + tally(update.last().1.newborns@, EntityType::Predator),
    ensures
        ({
            let prey0 = of_kind(s0.roster(), s0.entries(), EntityType::Prey).len() as int;
            let pred0 = of_kind(s0.roster(), s0.entries(), EntityType::Predator).len() as int;
            let prey5 = of_kind(s5.roster(), s5.entries(), EntityType::Prey).len() as int;
            let pred5 = of_kind(s5.roster(), s5.entries(), EntityType::Predator).len() as int;
            &&& forall|i: int| 0 <= i < s5.roster().len() ==> is_alive(s5.entries(), #[trigger] s5.roster()[i])
            &&& prey5 <= larger(prey0, s0.max_preys() as int) + (if prey0 < PREY_REINFORCEMENT_THRESHOLD {
                PREY_REINFORCEMENT as int
            } else {
                0
            })
            &&& pred5 <= larger(pred0, s0.max_predators() as int) + (if pred0 < PREDATOR_REINFORCEMENT_THRESHOLD {
                PREDATOR_REINFORCEMENT as int
            } else {
                0
            })
            &&& hunt.last().1.catches <= pred0
            &&& prey5 + pred0 >= prey0
        }),
{
    let e0 = s0.entries();
    let r0 = s0.roster();
    assert forall|i: int| 0 <= i < r0.len() implies is_of_kind(e0, #[trigger] r0[i], EntityType::Prey)
        == is_alive_of_kind(e0, r0[i], EntityType::Prey) by {
        assert(is_alive(e0, r0[i]));
    }
    lemma_select_congruent(r0, |h: Handle| is_of_kind(e0, h, EntityType::Prey), |h: Handle| is_alive_of_kind(e0, h, EntityType::Prey));
    assert forall|i: int| 0 <= i < r0.len() implies is_of_kind(e0, #[trigger] r0[i], EntityType::Predator)
        == is_alive_of_kind(e0, r0[i], EntityType::Predator) by {
        assert(is_alive(e0, r0[i]));
    }
    lemma_select_congruent(
        r0,
        |h: Handle| is_of_kind(e0, h, EntityType::Predator),
        |h: Handle| is_alive_of_kind(e0, h, EntityType::Predator),
    );

    let h0 = hunt[0].0;
    let rh = h0.roster();
    let eh = h0.entries();
    assert forall|i: int| 0 <= i < rh.len() implies is_of_kind(eh, #[trigger] rh[i], EntityType::Prey)
        == is_alive_of_kind(eh, rh[i], EntityType::Prey) by {
        assert(eh.dom().contains(rh[i].key()));
        if i < r0.len() {
            assert(rh[i] == r0[i]);
            assert(is_alive(e0, r0[i]));
        } else {
            assert(rh[i] == released[i - r0.len()]);
        }
    }
    lemma_select_congruent(rh, |h: Handle| is_of_kind(eh, h, EntityType::Prey), |h: Handle| is_alive_of_kind(eh, h, EntityType::Prey));

    lemma_hunt_pass(hunt);
    let hs = update[0].0;

    lemma_update_pass(update);
    let u = update.last().0;

    let fa = |b: Boid| b == newborn(EntityType::Prey);
    let fb = |b: Boid| b.e_type == EntityType::Prey;
    hs.lemma_count_by_keys(fa);
    u.lemma_count_by_keys(fb);
    let rs = hs.roster();
    let es = hs.entries();
    assert forall|i: int| 0 <= i < rs.len() implies is_alive_of_kind(es, #[trigger] rs[i], EntityType::Prey)
        == (is_live(es, rs[i]) && fa(es[rs[i].key()])) by {}
    lemma_select_congruent(rs, |h: Handle| is_alive_of_kind(es, h, EntityType::Prey), |h: Handle| is_live(es, h) && fa(es[h.key()]));
    let ru = u.roster();
    let eu = u.entries();
    assert forall|i: int| 0 <= i < ru.len() implies is_of_kind(eu, #[trigger] ru[i], EntityType::Prey)
        == (is_live(eu, ru[i]) && fb(eu[ru[i].key()])) by {}
    lemma_select_congruent(ru, |h: Handle| is_of_kind(eu, h, EntityType::Prey), |h: Handle| is_live(eu, h) && fb(eu[h.key()]));
    let alive_keys = es.dom().filter(|k: (u32, u32)| fa(es[k]));
    let prey_keys = eu.dom().filter(|k: (u32, u32)| fb(eu[k]));
    assert forall|k: (u32, u32)| alive_keys.contains(k) implies prey_keys.contains(k) by {
        assert(es.dom().contains(k) && es[k] == newborn(EntityType::Prey));
    }
    vstd::set_lib::lemma_len_subset(prey_keys, eu.dom());
    vstd::set_lib::lemma_len_subset(alive_keys, prey_keys);

    let r5 = s5.roster();
    assert forall|i: int| 0 <= i < r5.len() implies is_alive(s5.entries(), #[trigger] r5[i]) by {
        if i < ru.len() {
            assert(r5[i] == ru[i]);
            assert(is_alive(eu, ru[i]));
        } else {
            assert(r5[i] == born[i - ru.len()]);
            assert(s5.entries().dom().contains(r5[i].key()));
        }
    }
}

impl Simulation {
    /// The guards a driver of the hunt checks never fire on a well-formed
    /// simulation: every hunter the hunt reaches carries a nonzero
    /// generation; every target `hunt_targets` offers it may catch
    /// (`can_catch` holds, so the slots differ and both boids are held);
    /// and a pass that has caught no more prey than hunters visited has
    /// room to count one more catch.
    pub proof fn lemma_hunt_guards(&self, pass: HuntPass, cx: isize, cy: isize)
        requires
            self.well_formed(),
            pass.position < self.hunters().len(),
            pass.catches <= pass.position,
        ensures
            ({
                let hunter = self.hunters()[pass.position as int];
                let targets = if is_live(self.entries(), hunter) {
                    prey_near(
                        self.cells(),
                        block_cells(cx as int, cy as int, self.cols() as int, self.rows() as int),
                        self.entries(),
                        hunter.slot,
                    )
                } else {
                    Seq::empty()
                };
                &&& hunter.generation >= 1
                &&& pass.catches < usize::MAX
                &&& forall|t: int| 0 <= t < targets.len() ==> {
                    &&& (#[trigger] targets[t]).generation >= 1
                    &&& targets[t].slot != hunter.slot
                    &&& is_live(self.entries(), hunter)
                    &&& is_target(self.entries(), targets[t], hunter.slot)
                }
            }),
    {
        let hunter = self.hunters()[pass.position as int];
        assert(self.predators_buf@[pass.position as int] == hunter);
        assert(self.predators_buf@.len() <= usize::MAX) by {
            assert(self.predators_buf.len() == self.predators_buf@.len());
        }
        self.lemma_targets_capturable(hunter, cx, cy);
    }

    /// Counting the roster's boids that satisfy `f` is counting the keys of
    /// the arena whose boids satisfy it.
    pub proof fn lemma_count_by_keys(&self, f: spec_fn(Boid) -> bool)
        requires
            self.well_formed(),
        ensures
            select(self.roster(), |h: Handle| is_live(self.entries(), h) && f(self.entries()[h.key()])).len()
                == self.entries().dom().filter(|k: (u32, u32)| f(self.entries()[k])).len(),
    {
        let r = self.roster();
        let e = self.entries();
        let pr = |h: Handle| is_live(e, h) && f(e[h.key()]);
        let sel = select(r, pr);
        let keys = sel.map_values(|h: Handle| h.key());
        let target = e.dom().filter(|k: (u32, u32)| f(e[k]));
        self.lemma_roster_no_duplicates();
        lemma_select_no_duplicates(r, pr);
        lemma_select_sound(r, pr);
        assert forall|a: int, b: int| 0 <= a < keys.len() && 0 <= b < keys.len() && a != b implies keys[a] != keys[b] by {
            assert(r.contains(sel[a]) && r.contains(sel[b]));
            let ia = choose|ia: int| 0 <= ia < r.len() && r[ia] == sel[a];
            let ib = choose|ib: int| 0 <= ib < r.len() && r[ib] == sel[b];
            assert(sel[a] != sel[b]);
            if ia < ib {
                assert(r[ia].slot != r[ib].slot);
            } else if ib < ia {
                assert(r[ib].slot != r[ia].slot);
            }
        }
        assert(keys.no_duplicates());
        keys.unique_seq_to_set();
        assert forall|x: (u32, u32)| keys.to_set().contains(x) <==> target.contains(x) by {
            if keys.to_set().contains(x) {
                let j = choose|j: int| 0 <= j < keys.len() && keys[j] == x;
                assert(pr(sel[j]));
            }
            if target.contains(x) {
                self.lemma_roster_is_population(x);
                let i = choose|i: int| 0 <= i < r.len() && #[trigger] r[i].key() == x;
                assert(pr(r[i]));
                lemma_select_complete(r, pr, i);
                let j = choose|j: int| 0 <= j < sel.len() && sel[j] == r[i];
                assert(keys[j] == x);
            }
        }
        assert(keys.to_set() =~= target);
    }

    /// The arena holds a boid under `k` exactly when a handle of the roster
    /// names it.
    pub proof fn lemma_roster_is_population(&self, k: (u32, u32))
        requires
            self.well_formed(),
        ensures
            self.entries().dom().contains(k) <==> exists|i: int| 0 <= i < self.roster().len() && #[trigger] self.roster()[i].key() == k,
    {
        let r = self.roster();
        let e = self.entries();
        let keys = r.map_values(|h: Handle| h.key());
        assert forall|a: int, b: int| 0 <= a < keys.len() && 0 <= b < keys.len() && a != b implies keys[a] != keys[b] by {
            if a < b {
                assert(r[a].slot != r[b].slot);
            } else {
                assert(r[b].slot != r[a].slot);
            }
        }
        assert(keys.no_duplicates());
        keys.unique_seq_to_set();
        assert forall|x: (u32, u32)| keys.to_set().contains(x) implies e.dom().contains(x) by {
            let j = choose|j: int| 0 <= j < keys.len() && keys[j] == x;
            assert(e.dom().contains(r[j].key()));
        }
        vstd::set_lib::lemma_subset_equality(keys.to_set(), e.dom());
        if e.dom().contains(k) {
            assert(keys.to_set().contains(k));
            let j = choose|j: int| 0 <= j < keys.len() && keys[j] == k;
            assert(r[j].key() == k);
        }
    }

    /// At most one boid the arena holds occupies any slot.
    pub proof fn lemma_live_slots_unique(&self, a: Handle, b: Handle)
        requires
            self.well_formed(),
            is_live(self.entries(), a),
            is_live(self.entries(), b),
            a.slot == b.slot,
        ensures
            a == b,
    {
        self.lemma_roster_is_population(a.key());
        self.lemma_roster_is_population(b.key());
        let r = self.roster();
        let i = choose|i: int| 0 <= i < r.len() && #[trigger] r[i].key() == a.key();
        let j = choose|j: int| 0 <= j < r.len() && #[trigger] r[j].key() == b.key();
        if i < j {
            assert(r[i].slot != r[j].slot);
        } else if j < i {
            assert(r[j].slot != r[i].slot);
        }
    }

    /// The boids of the roster occupy distinct slots of the arena, so no
    /// two of them share a slot-indexed companion record; their handles
    /// all carry a nonzero generation.
    pub proof fn lemma_roster_slots_distinct(&self)
        requires
            self.well_formed(),
        ensures
            forall|i: int, j: int| 0 <= i < j < self.roster().len() ==> #[trigger] self.roster()[i].slot != #[trigger] self.roster()[j].slot,
            forall|i: int| 0 <= i < self.roster().len() ==> #[trigger] self.roster()[i].generation >= 1,
            forall|i: int| 0 <= i < self.roster().len() ==> is_live(self.entries(), #[trigger] self.roster()[i]),
    {
    }

    /// Every boid of the roster is a prey or a predator: the two counts add
    /// up to the size of the roster.
    pub proof fn lemma_species_partition(&self)
        requires
            self.well_formed(),
        ensures
            of_kind(self.roster(), self.entries(), EntityType::Prey).len() + of_kind(
                self.roster(),
                self.entries(),
                EntityType::Predator,
            ).len() == self.roster().len(),
    {
        let r = self.roster();
        let e = self.entries();
        assert forall|i: int| 0 <= i < r.len() implies (is_of_kind(e, #[trigger] r[i], EntityType::Prey) <==> !is_of_kind(
            e,
            r[i],
            EntityType::Predator,
        )) by {
            assert(e.dom().contains(r[i].key()));
        }
        lemma_select_partition(
            r,
            |h: Handle| is_of_kind(e, h, EntityType::Prey),
            |h: Handle| is_of_kind(e, h, EntityType::Predator),
        );
    }

    /// Every catch the hunt offers a live predator can be made: the target
    /// is a living prey the arena holds, under a handle with a nonzero
    /// generation, in a slot other than the predator's. So the two mutable
    /// accesses of a capture never alias and never reach a freed slot.
    pub proof fn lemma_targets_capturable(&self, hunter: Handle, cx: isize, cy: isize)
        requires
            self.well_formed(),
        ensures
            ({
                let targets = prey_near(
                    self.cells(),
                    block_cells(cx as int, cy as int, self.cols() as int, self.rows() as int),
                    self.entries(),
                    hunter.slot,
                );
                forall|t: int| 0 <= t < targets.len() ==> {
                    &&& (#[trigger] targets[t]).generation >= 1
                    &&& targets[t].slot != hunter.slot
                    &&& is_alive_of_kind(self.entries(), targets[t], EntityType::Prey)
                }
            }),
    {
        let block = block_cells(cx as int, cy as int, self.cols() as int, self.rows() as int);
        crate::grid::lemma_block_in_grid(cx as int, cy as int, self.cols() as int, self.rows() as int);
        self.lemma_prey_near_capturable(hunter, block);
    }

    proof fn lemma_prey_near_capturable(&self, hunter: Handle, block: Seq<usize>)
        requires
            self.well_formed(),
            forall|j: int| 0 <= j < block.len() ==> (#[trigger] block[j]) < self.cells().len(),
        ensures
            ({
                let targets = prey_near(self.cells(), block, self.entries(), hunter.slot);
                forall|t: int| 0 <= t < targets.len() ==> {
                    &&& (#[trigger] targets[t]).generation >= 1
                    &&& targets[t].slot != hunter.slot
                    &&& is_alive_of_kind(self.entries(), targets[t], EntityType::Prey)
                }
            }),
        decreases block.len(),
    {
        if block.len() > 0 {
            let rest = block.drop_last();
            assert forall|j: int| 0 <= j < rest.len() implies (#[trigger] rest[j]) < self.cells().len() by {
                assert(rest[j] == block[j]);
            }
            self.lemma_prey_near_capturable(hunter, rest);
            let e = self.entries();
            let c = block.last() as int;
            assert(block[block.len() - 1] == block.last());
            let content = self.cells()[c];
            assert(content == self.grid_cells@[c]@);
            let p = |h: Handle| is_target(e, h, hunter.slot);
            lemma_select_sound(content, p);
            let prev = prey_near(self.cells(), rest, e, hunter.slot);
            let here = select(content, p);
            let targets = prey_near(self.cells(), block, e, hunter.slot);
            assert(targets == prev + here);
            assert forall|t: int| 0 <= t < targets.len() implies {
                &&& (#[trigger] targets[t]).generation >= 1
                &&& targets[t].slot != hunter.slot
                &&& is_alive_of_kind(e, targets[t], EntityType::Prey)
            } by {
                if t >= prev.len() {
                    let u = t - prev.len();
                    assert(targets[t] == here[u]);
                    assert(p(here[u]));
                    assert(content.contains(here[u]));
                    let w = choose|w: int| 0 <= w < content.len() && content[w] == here[u];
                    assert(self.grid_cells@[c]@[w].generation >= 1);
                } else {
                    assert(targets[t] == prev[t]);
                }
            }
        }
    }
}

} // verus!
