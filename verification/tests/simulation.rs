use boids::simulation::{
    chosen_catch, INITIAL_PREDATORS, PREDATOR_REINFORCEMENT, PREY_REINFORCEMENT,
};
use boids::{Boid, EntityType, Handle, HuntPass, Simulation, UpdateOutcome, UpdatePass};

fn kinds(sim: &Simulation) -> Vec<EntityType> {
    sim.roster_handles()
        .iter()
        .map(|h| sim.boid(*h).unwrap().e_type)
        .collect()
}

#[test]
fn new_population_has_prey_then_predators() {
    let sim = Simulation::new(4, 3, 5, 30, 4000);
    assert_eq!(sim.prey_count(), 5);
    assert_eq!(sim.predator_count(), INITIAL_PREDATORS);
    assert_eq!(sim.roster_handles().len(), 5 + INITIAL_PREDATORS);
    let k = kinds(&sim);
    assert!(k[..5].iter().all(|t| *t == EntityType::Prey));
    assert!(k[5..].iter().all(|t| *t == EntityType::Predator));
    assert_eq!(sim.cell_count(), 12);
    assert_eq!(sim.grid_cols(), 4);
    assert_eq!(sim.grid_rows(), 3);
    assert!(sim.hunter_list().is_empty());
}

#[test]
fn roster_slots_are_distinct_and_live() {
    let mut sim = Simulation::new(2, 2, 40, 30, 4000);
    sim.spawn_entities(7, EntityType::Prey);
    let r = sim.roster_handles();
    for i in 0..r.len() {
        assert!(r[i].generation >= 1);
        assert!(sim.contains(r[i]));
        for j in (i + 1)..r.len() {
            assert_ne!(r[i].slot, r[j].slot);
        }
    }
    assert_eq!(sim.prey_count() + sim.predator_count(), r.len());
}

#[test]
fn spawn_appends_living_boids() {
    let mut sim = Simulation::new(2, 2, 0, 30, 4000);
    let before = sim.roster_handles();
    let born = sim.spawn_entities(3, EntityType::Predator);
    assert_eq!(born.len(), 3);
    let after = sim.roster_handles();
    assert_eq!(&after[..before.len()], &before[..]);
    assert_eq!(&after[before.len()..], &born[..]);
    for h in born {
        assert_eq!(
            sim.boid(h),
            Some(Boid { e_type: EntityType::Predator, is_alive: true })
        );
    }
    assert_eq!(sim.predator_count(), INITIAL_PREDATORS + 3);
}

#[test]
fn stale_handle_is_rejected() {
    let sim = Simulation::new(2, 2, 1, 30, 4000);
    let h = sim.roster_handles()[0];
    let stale = Handle { slot: h.slot, generation: h.generation + 1 };
    assert!(!sim.contains(stale));
    assert_eq!(sim.boid(stale), None);
    let missing = Handle { slot: 1000, generation: 1 };
    assert!(!sim.contains(missing));
    assert!(!sim.contains(Handle { slot: h.slot, generation: 0 }));
}

#[test]
fn index_population_buckets_living_boids() {
    // 3 x 2 grid; two prey and fifteen predators.
    let mut sim = Simulation::new(3, 2, 2, 30, 4000);
    let r = sim.roster_handles();
    let mut coords = vec![(0usize, 0usize); r.len()];
    coords[0] = (1, 1); // cell 4
    coords[1] = (99, 99); // clamped to cell 5
    coords[2] = (1, 1); // first predator in cell 4
    let (prey, preds) = sim.index_population(&coords);
    assert_eq!(prey, 2);
    assert_eq!(preds, INITIAL_PREDATORS);
    assert_eq!(sim.hunter_list(), r[2..].to_vec());
    // Cell 4 holds prey 0 and predator r[2].
    assert!(sim.flock_group(4));
    assert_eq!(sim.flock_prey_list(), &vec![r[0]]);
    assert_eq!(sim.flock_predator_list(), &vec![r[2]]);
    // Cell 5 holds only one boid, so no flock group; the buffers keep the
    // last group.
    assert!(!sim.flock_group(5));
    assert_eq!(sim.flock_prey_list(), &vec![r[0]]);
    // Cell 0 holds the fourteen other predators.
    assert!(sim.flock_group(0));
    assert!(sim.flock_prey_list().is_empty());
    assert_eq!(sim.flock_predator_list(), &r[3..].to_vec());
}

#[test]
fn dead_boids_are_left_out_of_the_grid() {
    let mut sim = Simulation::new(1, 1, 2, 30, 4000);
    let r = sim.roster_handles();
    sim.capture(r[2], r[0]);
    let coords = vec![(0usize, 0usize); r.len()];
    let (prey, preds) = sim.index_population(&coords);
    assert_eq!(prey, 1);
    assert_eq!(preds, INITIAL_PREDATORS);
    assert!(sim.flock_group(0));
    assert_eq!(sim.flock_prey_list(), &vec![r[1]]);
}

#[test]
fn reinforcement_rules() {
    assert!(Simulation::prey_reinforcement_due(99));
    assert!(!Simulation::prey_reinforcement_due(100));
    assert!(Simulation::predator_reinforcement_due(1));
    assert!(!Simulation::predator_reinforcement_due(2));

    let mut sim = Simulation::new(2, 2, 0, 30, 4000);
    assert!(sim.reinforce(50, 1, false, false).is_empty());
    assert!(sim.reinforce(100, 2, true, true).is_empty());
    let born = sim.reinforce(50, 1, true, true);
    assert_eq!(born.len(), PREY_REINFORCEMENT + PREDATOR_REINFORCEMENT);
    for h in &born[..PREY_REINFORCEMENT] {
        assert_eq!(sim.boid(*h).unwrap().e_type, EntityType::Prey);
    }
    assert_eq!(sim.boid(born[PREY_REINFORCEMENT]).unwrap().e_type, EntityType::Predator);
    let only_pred = sim.reinforce(500, 0, true, true);
    assert_eq!(only_pred.len(), PREDATOR_REINFORCEMENT);
    assert_eq!(sim.prey_count(), PREY_REINFORCEMENT);
    assert_eq!(sim.predator_count(), INITIAL_PREDATORS + 2);
}

#[test]
fn hunt_finds_prey_around_and_capture_marks_them() {
    // 3 x 3 grid: prey 0 in the centre cell, prey 1 in a corner,
    // prey 2 far right column; predators all in cell 0.
    let mut sim = Simulation::new(3, 3, 3, 30, 4000);
    let r = sim.roster_handles();
    let mut coords = vec![(0usize, 0usize); r.len()];
    coords[0] = (1, 1);
    coords[1] = (0, 0);
    coords[2] = (2, 2);
    sim.index_population(&coords);
    let hunter = r[3];
    // From cell (0, 0) the block is cells 0, 1, 3, 4.
    let t = sim.hunt_targets(hunter, 0, 0);
    assert_eq!(t, vec![r[1], r[0]]);
    // From the centre, every cell is in the block, in row order.
    let t = sim.hunt_targets(hunter, 1, 1);
    assert_eq!(t, vec![r[1], r[0], r[2]]);
    // Outside the grid, nothing is near.
    assert!(sim.hunt_targets(hunter, -5, 7).is_empty());
    sim.capture(hunter, r[0]);
    assert_eq!(sim.boid(r[0]), Some(Boid { e_type: EntityType::Prey, is_alive: false }));
    assert_eq!(sim.boid(hunter).unwrap().is_alive, true);
    let t = sim.hunt_targets(hunter, 1, 1);
    assert_eq!(t, vec![r[1], r[2]]);
    // A stale predator handle finds nothing.
    let stale = Handle { slot: hunter.slot, generation: hunter.generation + 1 };
    assert!(sim.hunt_targets(stale, 1, 1).is_empty());
}

#[test]
fn update_removes_dead_and_starved_with_swap() {
    let mut sim = Simulation::new(1, 1, 2, 30, 4000);
    let r = sim.roster_handles();
    // Prey 0 is caught.
    sim.capture(r[2], r[0]);
    let mut pass = UpdatePass::new(1, INITIAL_PREDATORS);
    // Position 0: the caught prey leaves; the last predator takes its place.
    let (h, b) = sim.update_current(&pass).unwrap();
    assert_eq!(h, r[0]);
    assert!(!b.is_alive);
    assert_eq!(sim.update_step(&mut pass, false, false, false), UpdateOutcome::Removed);
    assert_eq!(pass.position, 0);
    assert!(!sim.contains(r[0]));
    assert_eq!(sim.roster_handles()[0], r[r.len() - 1]);
    assert_eq!(sim.roster_handles().len(), r.len() - 1);
    // Position 0 is now a predator: it starves.
    assert_eq!(sim.update_step(&mut pass, true, false, false), UpdateOutcome::Removed);
    assert_eq!(sim.roster_handles()[0], r[r.len() - 2]);
    // That predator now survives without a birth.
    assert_eq!(
        sim.update_step(&mut pass, false, false, true),
        UpdateOutcome::Kept { reproduced: false }
    );
    assert_eq!(pass.position, 1);
    assert!(pass.newborns.is_empty());
}

#[test]
fn births_respect_caps() {
    // Two prey, fifteen predators; predators capped at 16, prey at 3.
    let mut sim = Simulation::new(1, 1, 2, 16, 3);
    let mut pass = UpdatePass::new(2, INITIAL_PREDATORS);
    let mut outcomes = Vec::new();
    while let Some((_, b)) = sim.update_current(&pass) {
        let o = match b.e_type {
            EntityType::Prey => sim.update_step(&mut pass, false, false, true),
            EntityType::Predator => sim.update_step(&mut pass, false, true, false),
        };
        outcomes.push(o);
    }
    let births = outcomes
        .iter()
        .filter(|o| **o == UpdateOutcome::Kept { reproduced: true })
        .count();
    assert_eq!(births, 2);
    assert_eq!(pass.prey_count, 3);
    assert_eq!(pass.pred_count, 16);
    assert_eq!(pass.newborns, vec![EntityType::Prey, EntityType::Predator]);
    let before = sim.roster_handles();
    let born = sim.finish_update(pass);
    assert_eq!(born.len(), 2);
    assert_eq!(sim.boid(born[0]).unwrap(), Boid { e_type: EntityType::Prey, is_alive: true });
    assert_eq!(sim.boid(born[1]).unwrap(), Boid { e_type: EntityType::Predator, is_alive: true });
    let after = sim.roster_handles();
    assert_eq!(&after[..before.len()], &before[..]);
    assert_eq!(sim.prey_count(), 3);
    assert_eq!(sim.predator_count(), 16);
}

#[test]
fn counts_above_cap_grow_no_further() {
    let mut sim = Simulation::new(1, 1, 1, 0, 0);
    let mut pass = UpdatePass::new(5, 40);
    while sim.update_current(&pass).is_some() {
        sim.update_step(&mut pass, false, true, true);
    }
    assert_eq!(pass.prey_count, 5);
    assert_eq!(pass.pred_count, 40);
    assert!(pass.newborns.is_empty());
}

#[test]
fn freed_slots_are_reused_with_new_generation() {
    let mut sim = Simulation::new(1, 1, 1, 30, 4000);
    let r = sim.roster_handles();
    sim.capture(r[1], r[0]);
    let mut pass = UpdatePass::new(0, 0);
    assert_eq!(sim.update_step(&mut pass, false, false, false), UpdateOutcome::Removed);
    let born = sim.spawn_entities(1, EntityType::Prey);
    assert_eq!(born[0].slot, r[0].slot);
    assert_ne!(born[0].generation, r[0].generation);
    assert!(!sim.contains(r[0]));
    assert!(sim.contains(born[0]));
}

#[test]
fn handles_of_kind_follow_roster_order() {
    let mut sim = Simulation::new(1, 1, 2, 30, 4000);
    let extra = sim.spawn_entities(1, EntityType::Prey);
    let r = sim.roster_handles();
    let prey = sim.handles_of_kind(EntityType::Prey);
    assert_eq!(prey, vec![r[0], r[1], extra[0]]);
    let preds = sim.handles_of_kind(EntityType::Predator);
    assert_eq!(preds, r[2..2 + INITIAL_PREDATORS].to_vec());
}

#[test]
fn every_offered_target_can_be_captured() {
    let mut sim = Simulation::new(2, 2, 6, 30, 4000);
    let r = sim.roster_handles();
    let coords = vec![(0usize, 0usize); r.len()];
    sim.index_population(&coords);
    let hunter = r[6];
    let targets = sim.hunt_targets(hunter, 0, 0);
    assert_eq!(targets, r[..6].to_vec());
    for t in targets {
        assert!(sim.contains(t));
        assert_ne!(t.slot, hunter.slot);
        assert!(sim.boid(t).unwrap().is_alive);
        sim.capture(hunter, t);
        assert!(!sim.boid(t).unwrap().is_alive);
    }
    assert!(sim.hunt_targets(hunter, 0, 0).is_empty());
    // Predators are never offered, not even the hunter itself.
    assert!(sim.hunt_targets(r[7], 1, 1).is_empty());
}

#[test]
fn a_finished_pass_leaves_only_living_boids() {
    let mut sim = Simulation::new(1, 1, 4, 30, 4000);
    let r = sim.roster_handles();
    sim.capture(r[4], r[1]);
    sim.capture(r[5], r[3]);
    let mut pass = UpdatePass::new(4, INITIAL_PREDATORS);
    let mut step = 0;
    while let Some((_, b)) = sim.update_current(&pass) {
        // Every third predator starves.
        let starved = b.e_type == EntityType::Predator && step % 3 == 0;
        sim.update_step(&mut pass, starved, false, false);
        step += 1;
    }
    let after = sim.roster_handles();
    assert_eq!(sim.prey_count(), 2);
    for h in &after {
        assert!(sim.boid(*h).unwrap().is_alive);
    }
    assert!(!sim.contains(r[1]));
    assert!(!sim.contains(r[3]));
    assert_eq!(sim.prey_count() + sim.predator_count(), after.len());
    sim.finish_update(pass);
    assert_eq!(sim.roster_handles(), after);
}

#[test]
fn spawning_counts_by_species_and_zero_changes_nothing() {
    let mut sim = Simulation::new(2, 2, 3, 30, 4000);
    let before = sim.roster_handles();
    let born = sim.spawn_entities(0, EntityType::Prey);
    assert!(born.is_empty());
    assert_eq!(sim.roster_handles(), before);
    assert_eq!(sim.prey_count(), 3);
    assert_eq!(sim.predator_count(), INITIAL_PREDATORS);
    sim.spawn_entities(4, EntityType::Predator);
    assert_eq!(sim.prey_count(), 3);
    assert_eq!(sim.predator_count(), INITIAL_PREDATORS + 4);
    sim.spawn_entities(2, EntityType::Prey);
    assert_eq!(sim.prey_count(), 5);
    assert_eq!(sim.predator_count(), INITIAL_PREDATORS + 4);
}

#[test]
fn a_hunt_catches_at_most_one_prey_per_hunter() {
    // Everything in one cell: three prey, fifteen predators.
    let mut sim = Simulation::new(1, 1, 3, 30, 4000);
    let r = sim.roster_handles();
    let coords = vec![(0usize, 0usize); r.len()];
    sim.index_population(&coords);
    let mut pass = HuntPass::new();
    let mut caught = Vec::new();
    while let Some(hunter) = sim.hunt_current(&pass) {
        let targets = sim.hunt_targets(hunter, 0, 0);
        // Each hunter takes the first prey still available.
        let pick = targets.first().copied();
        if let Some(t) = pick {
            assert!(sim.can_catch(hunter, t));
            assert!(!caught.contains(&t));
            caught.push(t);
        }
        sim.hunt_step(&mut pass, pick);
    }
    assert_eq!(pass.position, INITIAL_PREDATORS);
    assert_eq!(pass.catches, 3);
    assert_eq!(caught, vec![r[0], r[1], r[2]]);
    for t in &caught {
        assert!(!sim.boid(*t).unwrap().is_alive);
    }
    // A hunter may not catch a caught prey nor a predator.
    assert!(!sim.can_catch(r[3], r[0]));
    assert!(!sim.can_catch(r[3], r[4]));
    assert!(!sim.can_catch(r[3], r[3]));
}

#[test]
fn a_whole_tick_keeps_the_population_bounds() {
    // Two prey, fifteen predators; prey capped at 3, predators at 16.
    let mut sim = Simulation::new(1, 1, 2, 16, 3);
    let r = sim.roster_handles();
    let coords = vec![(0usize, 0usize); r.len()];
    let (q, p) = sim.index_population(&coords);
    assert_eq!((q, p), (2, INITIAL_PREDATORS));
    // Both reinforcements are due and drawn.
    let released = sim.reinforce(q, p, true, false);
    assert_eq!(released.len(), 10);
    // One catch.
    let mut hunt = HuntPass::new();
    let mut first = true;
    while let Some(hunter) = sim.hunt_current(&hunt) {
        let pick = if first { sim.hunt_targets(hunter, 0, 0).first().copied() } else { None };
        first = false;
        sim.hunt_step(&mut hunt, pick);
    }
    assert_eq!(hunt.catches, 1);
    // Every boid would give birth.
    let mut pass = UpdatePass::new(q, p);
    while let Some((_, b)) = sim.update_current(&pass) {
        match b.e_type {
            EntityType::Prey => sim.update_step(&mut pass, false, false, true),
            EntityType::Predator => sim.update_step(&mut pass, false, true, false),
        };
    }
    sim.finish_update(pass);
    for h in sim.roster_handles() {
        assert!(sim.boid(h).unwrap().is_alive);
    }
    // 2 + 10 prey, one caught, one birth up to the cap of 3.
    assert_eq!(sim.prey_count(), 12);
    assert!(sim.prey_count() <= 3usize.max(2) + 10);
    assert_eq!(sim.predator_count(), 16);
    assert!(sim.prey_count() + INITIAL_PREDATORS >= 2);
}

#[test]
fn the_first_close_target_is_caught() {
    let t: Vec<Handle> = (0..4).map(|i| Handle { slot: i, generation: 1 }).collect();
    assert_eq!(chosen_catch(&t, &vec![false, true, false, true]), Some(t[1]));
    assert_eq!(chosen_catch(&t, &vec![true, true, true, true]), Some(t[0]));
    assert_eq!(chosen_catch(&t, &vec![false; 4]), None);
    assert_eq!(chosen_catch(&vec![], &vec![]), None);
}
