//! Staging an entity's components before it joins a world.
use vstd::prelude::*;
use crate::component::{Component, keys_match};
use crate::entity::Entity;
use crate::error::EcsError;
use crate::model::EcsModel;
use crate::world::World;

verus! {

/// Holds an entity while components are attached to it.
pub struct EntityBuilder<C> {
    pub(crate) entity: Entity<C>,
}

impl<C> View for EntityBuilder<C> {
    type V = Map<u64, C>;

    /// The components attached so far, by key.
    closed spec fn view(&self) -> Map<u64, C> {
        self.entity@
    }
}

impl<C> EntityBuilder<C> {
    /// The keys attached so far, in order.
    pub closed spec fn key_list(&self) -> Seq<u64> {
        self.entity.key_list()
    }

    /// The identifier of the staged entity: zero until a world admits it.
    pub closed spec fn staged_id(&self) -> usize {
        self.entity.id()
    }

    /// No key is attached twice.
    pub closed spec fn well_formed(&self) -> bool {
        self.entity.well_formed()
    }

    /// A builder holding an entity with no component.
    pub(crate) fn new() -> (r: EntityBuilder<C>)
        ensures
            r@ == Map::<u64, C>::empty(),
            r.key_list() == Seq::<u64>::empty(),
            r.staged_id() == 0,
            r.well_formed(),
            forall|k: u64| !#[trigger] r@.contains_key(k),
    {
        EntityBuilder { entity: Entity::empty() }
    }

    /// Attaches `component`. When one is attached under the key of its type
    /// already, the builder comes back unchanged with `DuplicateComponent`.
    pub fn with(self, component: C) -> (r: Result<EntityBuilder<C>, (EntityBuilder<C>, EcsError)>)
        where
            C: Component,
        ensures
            r is Err <==> self@.contains_key(component.type_key_spec()),
            r matches Err(p) ==> p.0 == self && p.1 == EcsError::DuplicateComponent,
            r matches Ok(b) ==> b@ == self@.insert(component.type_key_spec(), component)
                && b.key_list() == self.key_list().push(component.type_key_spec())
                && b.staged_id() == self.staged_id(),
            r matches Ok(b) ==> (self.well_formed() ==> b.well_formed()),
            r matches Ok(b) ==> (keys_match(self@) ==> keys_match(b@)),
    {
        let mut b = self;
        match b.entity.add_component(component) {
            Ok(()) => Ok(b),
            Err(e) => Err((b, e)),
        }
    }

    /// Admits the entity into `world` under the world's next identifier and
    /// returns that identifier. The entity joins the cache of every
    /// registered system whose requirement its keys cover.
    pub fn add_to_world<State>(self, world: &mut World<State, C>) -> (r: usize)
        requires
            old(world)@.last_id < usize::MAX,
        ensures
            r == old(world)@.next_id(),
            final(world)@ == old(world)@.admitted(self.key_list().to_set()),
            final(world).contents() == old(world).contents().insert(r, Some(self@)),
            final(world).entity_order() == old(world).entity_order().push(r),
            forall|s: u64| #[trigger] old(world)@.requirements.contains_key(s) ==> final(world).cache_order(s)
                == if old(world)@.requirements[s].subset_of(self.key_list().to_set()) {
                old(world).cache_order(s).push(r)
            } else {
                old(world).cache_order(s)
            },
            !final(world).held(r),
            final(world)@.consistent(),
            final(world).payload() == old(world).payload(),
    {
        let mut entity = self.entity;
        let id = world.get_next_identifier();
        entity.set_identifier(id);
        world.add_entity(entity);
        proof {
            let m = old(world)@;
            let bumped = EcsModel { last_id: m.next_id(), ..m };
            assert(bumped.with_entity(id, self.key_list().to_set()) == m.admitted(self.key_list().to_set()));
        }
        id
    }
}

} // verus!
