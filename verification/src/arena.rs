//! The generational arena of `ordex` that stores the boids, as the verified
//! code sees it: a map from `(slot, generation)` to the stored boid.

use vstd::prelude::*;

use crate::entity::{Boid, Handle};
use ordex::prelude::OrdexArena;

verus! {

#[verifier::external_type_specification]
#[verifier::external_body]
#[verifier::reject_recursive_types(T)]
pub struct ExOrdexArena<T>(OrdexArena<T>);

/// The boids an arena holds: each occupied slot, keyed by the slot and the
/// generation it was filled with, mapped to the boid stored there.
pub uninterp spec fn arena_entries(arena: OrdexArena<Boid>) -> Map<(u32, u32), Boid>;

/// The `(slot, generation)` that the next insertion into `arena` hands out:
/// it is decided by the arena's free list (its head slot with that slot's
/// next generation, or a new slot at the end with the first generation).
pub uninterp spec fn inserted_key(arena: OrdexArena<Boid>) -> (u32, u32);

/// The boid after a predator has caught it.
pub open spec fn caught(b: Boid) -> Boid {
    Boid { e_type: b.e_type, is_alive: false }
}

/// Marks a boid as caught.
pub fn mark_caught(b: &mut Boid)
    ensures
        *final(b) == caught(*old(b)),
{
    b.is_alive = false;
}

/// `OrdexArena::new`: an arena with no occupied slot.
#[verifier::external_body]
pub(crate) fn arena_new() -> (fresh: OrdexArena<Boid>)
    ensures
        arena_entries(fresh).dom() == Set::<(u32, u32)>::empty(),
{
    OrdexArena::new()
}

/// `OrdexArena::insert`: stores the boid in a free slot (the head of the free
/// list, or a new slot at the end) and returns its index, whose key is
/// `inserted_key` of the arena before the call. The slot was not occupied
/// before, so no boid the arena held shares it, and the generation is a
/// `NonZeroU32`. The call panics only when no slot is free and the arena
/// already holds `u32::MAX + 1` boids, which `requires` leaves out.
#[verifier::external_body]
pub(crate) fn arena_insert(arena: &mut OrdexArena<Boid>, value: Boid) -> (h: Handle)
    requires
        arena_entries(*old(arena)).dom().finite(),
        arena_entries(*old(arena)).dom().len() <= u32::MAX,
    ensures
        h.key() == inserted_key(*old(arena)),
        h.generation >= 1,
        !arena_entries(*old(arena)).dom().contains(h.key()),
        forall|k: (u32, u32)| #[trigger] arena_entries(*old(arena)).dom().contains(k) ==> k.0 != h.slot,
        arena_entries(*final(arena)) == arena_entries(*old(arena)).insert(h.key(), value),
{
    let index = arena.insert(value);
    Handle { slot: index.index, generation: index.generation.get() }
}

/// `OrdexArena::remove`: frees the slot of `h` and hands back its boid when
/// the slot is occupied with the generation of `h`; otherwise it changes
/// nothing and returns `None`.
#[verifier::external_body]
pub(crate) fn arena_remove(arena: &mut OrdexArena<Boid>, h: Handle) -> (removed: Option<Boid>)
    requires
        h.generation >= 1,
    ensures
        arena_entries(*old(arena)).dom().contains(h.key()) ==> {
            &&& removed == Some(arena_entries(*old(arena))[h.key()])
            &&& arena_entries(*final(arena)) == arena_entries(*old(arena)).remove(h.key())
        },
        !arena_entries(*old(arena)).dom().contains(h.key()) ==> {
            &&& removed.is_none()
            &&& arena_entries(*final(arena)) == arena_entries(*old(arena))
        },
{
    let index = ordex::core::Index {
        index: h.slot,
        generation: std::num::NonZeroU32::new(h.generation).unwrap(),
    };
    arena.remove(index)
}

/// `OrdexArena::get`: the boid in the slot of `h` when that slot is occupied
/// with the generation of `h`, else `None`; the boid is copied out.
#[verifier::external_body]
pub(crate) fn arena_get(arena: &OrdexArena<Boid>, h: Handle) -> (found: Option<Boid>)
    requires
        h.generation >= 1,
    ensures
        found == (if arena_entries(*arena).dom().contains(h.key()) {
            Some(arena_entries(*arena)[h.key()])
        } else {
            None
        }),
{
    let index = ordex::core::Index {
        index: h.slot,
        generation: std::num::NonZeroU32::new(h.generation).unwrap(),
    };
    arena.get(index).copied()
}

/// `OrdexArena::align2` with a closure that marks the second boid caught:
/// the two slots are checked to be occupied with the given generations and
/// to differ (else the call panics, which `requires` leaves out), then the
/// closure gets a mutable reference to each boid. Only the second boid
/// changes.
#[verifier::external_body]
pub(crate) fn arena_align_catch(arena: &mut OrdexArena<Boid>, hunter: Handle, target: Handle)
    requires
        hunter.generation >= 1,
        target.generation >= 1,
        hunter.slot != target.slot,
        arena_entries(*old(arena)).dom().contains(hunter.key()),
        arena_entries(*old(arena)).dom().contains(target.key()),
    ensures
        arena_entries(*final(arena)) == arena_entries(*old(arena)).insert(
            target.key(),
            caught(arena_entries(*old(arena))[target.key()]),
        ),
{
    let hunter = ordex::core::Index {
        index: hunter.slot,
        generation: std::num::NonZeroU32::new(hunter.generation).unwrap(),
    };
    let target = ordex::core::Index {
        index: target.slot,
        generation: std::num::NonZeroU32::new(target.generation).unwrap(),
    };
    arena.align2(hunter, target, |_hunter, prey| mark_caught(prey))
}

} // verus!
