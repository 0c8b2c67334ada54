//! Entities: an identifier and the components attached to it, at most one
//! per component key.
use vstd::prelude::*;
use crate::component::{Component, keys_match};
use crate::entity_builder::EntityBuilder;
use crate::error::EcsError;

verus! {

/// The index of the first occurrence of `k` in `keys`.
pub open spec fn first_index(keys: Seq<u64>, k: u64) -> int {
    choose|i: int| 0 <= i < keys.len() && keys[i] == k && forall|j: int| 0 <= j < i ==> keys[j] != k
}

/// A position where `k` first occurs is the one `first_index` names.
pub proof fn lemma_first_index(keys: Seq<u64>, k: u64, i: int)
    requires
        0 <= i < keys.len(),
        keys[i] == k,
        forall|j: int| 0 <= j < i ==> keys[j] != k,
    ensures
        first_index(keys, k) == i,
{
    let c = first_index(keys, k);
    assert(0 <= c < keys.len() && keys[c] == k && forall|j: int| 0 <= j < c ==> keys[j] != k);
    if c < i {
        assert(keys[c] != k);
    } else if c > i {
        assert(keys[i] != k);
    }
}

/// A key that occurs in `keys` has a first occurrence below position `i`
/// whenever it occurs at `i`.
proof fn lemma_first_below(keys: Seq<u64>, k: u64, i: int)
    requires
        0 <= i < keys.len(),
        keys[i] == k,
    ensures
        0 <= first_index(keys, k) <= i,
        keys[first_index(keys, k)] == k,
        forall|j: int| 0 <= j < first_index(keys, k) ==> keys[j] != k,
    decreases i,
{
    if exists|j: int| 0 <= j < i && keys[j] == k {
        let j = choose|j: int| 0 <= j < i && keys[j] == k;
        lemma_first_below(keys, k, j);
    } else {
        lemma_first_index(keys, k, i);
    }
}

/// A key that occurs in `keys` has a first occurrence.
pub proof fn lemma_first_index_exists(keys: Seq<u64>, k: u64)
    requires
        keys.contains(k),
    ensures
        0 <= first_index(keys, k) < keys.len(),
        keys[first_index(keys, k)] == k,
        forall|j: int| 0 <= j < first_index(keys, k) ==> keys[j] != k,
{
    let i = choose|i: int| 0 <= i < keys.len() && keys[i] == k;
    lemma_first_below(keys, k, i);
}

/// Something in the world: an identifier plus a set of components, each
/// stored under the key of its type.
pub struct Entity<C> {
    pub(crate) identifier: usize,
    pub(crate) components: Vec<(u64, C)>,
}

impl<C> View for Entity<C> {
    type V = Map<u64, C>;

    /// The component stored under each key.
    closed spec fn view(&self) -> Map<u64, C> {
        Map::new(
            |k: u64| self.key_list().contains(k),
            |k: u64| self.components@[first_index(self.key_list(), k)].1,
        )
    }
}

impl<C> Entity<C> {
    /// The keys of the components, in the order they were attached.
    pub closed spec fn key_list(&self) -> Seq<u64> {
        self.components@.map_values(|p: (u64, C)| p.0)
    }

    /// The identifier the world gave this entity.
    pub closed spec fn id(&self) -> usize {
        self.identifier
    }

    /// No key is attached twice.
    pub closed spec fn well_formed(&self) -> bool {
        self.key_list().no_duplicates()
    }

    /// The component keys, as a set.
    pub open spec fn key_set(&self) -> Set<u64> {
        self.key_list().to_set()
    }

    /// The entity with no component and identifier zero.
    pub(crate) fn empty() -> (r: Entity<C>)
        ensures
            r@ == Map::<u64, C>::empty(),
            r.key_list() == Seq::<u64>::empty(),
            r.id() == 0,
            r.well_formed(),
    {
        let r = Entity { identifier: 0, components: Vec::new() };
        assert(r@ =~= Map::<u64, C>::empty());
        assert(r.key_list() =~= Seq::<u64>::empty());
        r
    }

    /// Starts building an entity.
    pub fn builder() -> (r: EntityBuilder<C>)
        ensures
            r@ == Map::<u64, C>::empty(),
            r.key_list() == Seq::<u64>::empty(),
            r.staged_id() == 0,
            forall|k: u64| !#[trigger] r@.contains_key(k),
    {
        EntityBuilder::new()
    }

    /// The identifier the world gave this entity.
    pub fn identifier(&self) -> (r: usize)
        ensures
            r == self.id(),
    {
        self.identifier
    }

    /// Gives the entity identifier `id`, its components untouched.
    pub(crate) fn set_identifier(&mut self, id: usize)
        ensures
            final(self).id() == id,
            final(self).key_list() == old(self).key_list(),
            final(self)@ == old(self)@,
            final(self).well_formed() == old(self).well_formed(),
    {
        self.identifier = id;
    }

    /// The position of the first component stored under `key`, if any.
    fn position(&self, key: u64) -> (r: Option<usize>)
        ensures
            r is None <==> !self@.contains_key(key),
            r matches Some(i) ==> i < self.components@.len() && i == first_index(self.key_list(), key)
                && self.components@[i as int].0 == key,
    {
        let mut i: usize = 0;
        while i < self.components.len()
            invariant
                i <= self.components@.len(),
                forall|j: int| 0 <= j < i ==> self.key_list()[j] != key,
            decreases self.components@.len() - i,
        {
            if self.components[i].0 == key {
                proof {
                    lemma_first_index(self.key_list(), key, i as int);
                }
                return Some(i);
            }
            i += 1;
        }
        assert(!self.key_list().contains(key));
        None
    }

    /// Whether a component is stored under `key`.
    pub fn has_component(&self, key: u64) -> (r: bool)
        ensures
            r == self@.contains_key(key),
    {
        self.position(key).is_some()
    }

    /// The component keys, in the order they were attached.
    pub fn component_keys(&self) -> (r: Vec<u64>)
        ensures
            r@ == self.key_list(),
    {
        let mut r: Vec<u64> = Vec::new();
        let mut i: usize = 0;
        while i < self.components.len()
            invariant
                i <= self.components@.len(),
                r@ == self.key_list().subrange(0, i as int),
            decreases self.components@.len() - i,
        {
            r.push(self.components[i].0);
            i += 1;
            assert(r@ =~= self.key_list().subrange(0, i as int));
        }
        assert(r@ =~= self.key_list());
        r
    }

    /// A shared view of the component stored under `key`, if there is one.
    pub fn get_component(&self, key: u64) -> (r: Option<&C>)
        ensures
            r == if self@.contains_key(key) {
                Some(&self@[key])
            } else {
                None
            },
    {
        match self.position(key) {
            Some(i) => Some(&self.components[i].1),
            None => None,
        }
    }

    /// An exclusive view of the component stored under `key`, if there is
    /// one. Writing through it changes that component and nothing else. The
    /// value written should be of the same component type: this is not
    /// checked, so `keys_match` may stop holding; `replace_component` keeps it.
    pub fn get_mut_component(&mut self, key: u64) -> (r: Option<&mut C>)
        ensures
            r is None <==> !old(self)@.contains_key(key),
            r is None ==> *final(self) == *old(self),
            r matches Some(c) ==> *c == old(self)@[key] && final(self)@ == old(self)@.insert(key, *final(c))
                && final(self).key_list() == old(self).key_list() && final(self).id() == old(self).id(),
    {
        match self.position(key) {
            Some(i) => {
                let ghost before = *self;
                let r = &mut self.components[i].1;
                proof {
                    let after = after_borrow(*self);
                    assert(after.key_list() =~= before.key_list());
                    assert forall|k: u64| #[trigger] after@.contains_key(k) == before@.contains_key(k) by {}
                    assert forall|k: u64| after@.contains_key(k) implies #[trigger] after@[k] == before@.insert(key, *final(r))[k] by {
                        if k != key {
                            lemma_first_index_exists(before.key_list(), k);
                        }
                    }
                    assert(after@ =~= before@.insert(key, *final(r)));
                }
                Some(r)
            },
            None => None,
        }
    }

    /// Replaces the component stored under the key of `component`'s type and
    /// returns the one it replaces. When no component is stored under that
    /// key, the entity is left as it was and `component` comes back as the
    /// error: an entity's keys are fixed once it is built.
    pub fn replace_component(&mut self, component: C) -> (r: Result<C, C>)
        where
            C: Component,
        ensures
            r is Err <==> !old(self)@.contains_key(component.type_key_spec()),
            r matches Err(c) ==> c == component && *final(self) == *old(self),
            r matches Ok(prev) ==> prev == old(self)@[component.type_key_spec()]
                && final(self)@ == old(self)@.insert(component.type_key_spec(), component)
                && final(self).key_list() == old(self).key_list() && final(self).id() == old(self).id(),
            keys_match(old(self)@) ==> keys_match(final(self)@),
    {
        let key = component.type_key();
        match self.get_mut_component(key) {
            Some(slot) => {
                let mut prev = component;
                std::mem::swap(slot, &mut prev);
                Ok(prev)
            },
            None => Err(component),
        }
    }

    /// Stores `component` under the key of its type. Fails, leaving the
    /// entity as it was, when a component is stored under that key already.
    pub(crate) fn add_component(&mut self, component: C) -> (r: Result<(), EcsError>)
        where
            C: Component,
        ensures
            r is Err <==> old(self)@.contains_key(component.type_key_spec()),
            r matches Err(e) ==> e == EcsError::DuplicateComponent && *final(self) == *old(self),
            r is Ok ==> final(self)@ == old(self)@.insert(component.type_key_spec(), component)
                && final(self).key_list() == old(self).key_list().push(component.type_key_spec())
                && final(self).id() == old(self).id(),
            old(self).well_formed() ==> final(self).well_formed(),
            keys_match(old(self)@) ==> keys_match(final(self)@),
    {
        let key = component.type_key();
        if self.has_component(key) {
            return Err(EcsError::DuplicateComponent);
        }
        let ghost before = *self;
        self.components.push((key, component));
        proof {
            let ks = before.key_list();
            assert(self.key_list() =~= ks.push(key));
            assert forall|k: u64| self@.contains_key(k) implies #[trigger] self@[k] == before@.insert(key, component)[k] by {
                if k == key {
                    lemma_first_index(self.key_list(), k, ks.len() as int);
                } else {
                    assert(ks.contains(k)) by {
                        let w = choose|w: int| 0 <= w < self.key_list().len() && self.key_list()[w] == k;
                        assert(ks[w] == k);
                    }
                    lemma_first_index_exists(ks, k);
                    lemma_first_index(self.key_list(), k, first_index(ks, k));
                }
            }
            assert forall|k: u64| #[trigger] self@.contains_key(k) == before@.insert(key, component).contains_key(k) by {
                if ks.contains(k) {
                    let w = choose|w: int| 0 <= w < ks.len() && ks[w] == k;
                    assert(self.key_list()[w] == k);
                }
                if k == key {
                    assert(self.key_list()[ks.len() as int] == k);
                }
            }
            assert(self@ =~= before@.insert(key, component));
        }
        Ok(())
    }
}

impl<C> PartialEq for Entity<C> {
    /// Two entities are equal when they have the same identifier.
    fn eq(&self, other: &Entity<C>) -> (r: bool)
        ensures
            r == (self.id() == other.id()),
    {
        self.identifier == other.identifier
    }
}

impl<C> vstd::std_specs::cmp::PartialEqSpecImpl for Entity<C> {
    open spec fn obeys_eq_spec() -> bool {
        true
    }

    open spec fn eq_spec(&self, other: &Entity<C>) -> bool {
        self.id() == other.id()
    }
}

} // verus!
