# boids

The verified core of a predator-prey (Lotka-Volterra) boids simulation whose
population lives in an `ordex` generational arena.

- `src/` is the library, verified with Verus:
  - `arena.rs`: the `ordex::OrdexArena` calls the library makes, with their
    contracts over the map from `(slot, generation)` to boid;
  - `entity.rs`: species, the boid record, and generational handles;
  - `grid.rs`: clamped cell numbering and the 3x3 neighbourhood of a cell;
  - `population.rs`: ordered selections of handles;
  - `simulation.rs`: the population, the spatial grid, and the rules of a
    tick (reinforcements, the hunt pass, flocking groups gathered into
    reused buffers, the update pass of births and deaths), with the laws
    they keep, step by step and over a whole hunt, update pass and tick;
  - `links.rs`: the proximity network drawn between prey, and the law that
    no pair of prey is linked twice.
- The original checked at run time, with `ordex`'s batch verification
  (`VerifiedIndices::clear_and_verify` then `OrdexArena::ordex`), that the
  prey of a grid cell are distinct before mutating them together. Here the
  arena holds only species and liveness, the float bodies are kept by slot
  in `app/`, and that distinctness is proved instead: `flock_group` ensures
  the prey it gathers occupy pairwise distinct slots, and
  `lemma_targets_capturable` and `lemma_hunt_guards` prove that a catch
  never aliases. The prey and predator lists of a cell are gathered into
  buffers reused from cell to cell.
- `app/` is the browser front end: floating-point positions, velocities and
  energy, the random draws of `rand`, the `wasm-bindgen` bindings and the
  `web-sys` canvas drawing. It runs each tick by calling the library phase
  by phase.
- `tests/` exercises the library on concrete populations.
