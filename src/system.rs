//! Systems: behaviours that run over every entity carrying the component
//! keys they require.
use vstd::prelude::*;
use crate::entity::Entity;
use crate::world::World;

verus! {

/// Describes the component keys a system requires.
pub trait SystemData {
    /// Whether `key` is among the required keys.
    spec fn requires_key(key: u64) -> bool;

    /// Lists the required component keys: exactly those for which
    /// `requires_key` holds, on every call.
    fn type_ids() -> (r: Vec<u64>)
        ensures
            forall|k: u64| #[trigger] r@.contains(k) == Self::requires_key(k),
    ;
}

/// A behaviour that runs once on each entity carrying every key of its
/// `Data`, with exclusive access to that entity and to the world.
///
/// A system is identified by the key it reports. The keys are chosen by the
/// program; nothing checks that two systems report different keys, and two
/// that do not are one system to the world.
pub trait System<State, C> {
    /// The component keys this system requires.
    type Data: SystemData;

    /// The key that identifies this system in a world's registry.
    spec fn system_key_spec() -> u64;

    /// Returns the key that identifies this system; every call returns the
    /// same one.
    fn system_key() -> (k: u64)
        ensures
            k == Self::system_key_spec(),
    ;

    /// What a run does to the components of the entity it runs on: holds of
    /// the components before and after every run. Says nothing unless a
    /// system states it.
    open spec fn effect(before: Map<u64, C>, after: Map<u64, C>) -> bool {
        true
    }

    /// Whether a run leaves the world alone: the entities, their keys and
    /// components, the systems, their caches and the counter. A run may
    /// still change the world's payload. False unless a system states it.
    open spec fn keeps_world() -> bool {
        false
    }

    /// Runs on one eligible entity. A run may change the entity's component
    /// values, but not its identifier or keys; the result is an `effect` of
    /// the former components. A run may use the world's public operations
    /// freely; it must not replace the world as a whole. So no entity becomes
    /// held that was not, no entity changes keys, no registration is dropped
    /// or changed, and no identifier comes back into use.
    fn run(entity: &mut Entity<C>, world: &mut World<State, C>)
        ensures
            final(entity).id() == old(entity).id(),
            final(entity).key_list() == old(entity).key_list(),
            Self::effect(old(entity)@, final(entity)@),
            Self::keeps_world() ==> final(world)@ == old(world)@ && final(world).contents() == old(world).contents(),
            forall|x: usize| old(world)@.entities.contains_key(x) && #[trigger] final(world)@.entities.contains_key(x)
                ==> final(world)@.entities[x] == old(world)@.entities[x],
            forall|x: usize| #[trigger] final(world).held(x) ==> old(world).held(x),
            forall|s: u64| #[trigger] old(world)@.requirements.contains_key(s) ==> final(world)@.requirements.contains_key(s)
                && final(world)@.requirements[s] == old(world)@.requirements[s],
            old(world)@.last_id <= final(world)@.last_id,
            forall|x: usize| x <= old(world)@.last_id && !old(world)@.entities.contains_key(x)
                ==> !#[trigger] final(world)@.entities.contains_key(x),
    ;
}

/// The entity went from components `before` to components `after` by one
/// run of system `S`.
pub open spec fn applied<State, C, S: System<State, C>>(before: Option<Map<u64, C>>, after: Option<Map<u64, C>>) -> bool {
    match (before, after) {
        (Some(b), Some(a)) => S::effect(b, a),
        _ => false,
    }
}

/// The keys that system `S` requires, as a set.
pub open spec fn required_set<State, C, S: System<State, C>>() -> Set<u64> {
    Set::new(|k: u64| S::Data::requires_key(k))
}

} // verus!
