//! The world: owner of every entity, registry of systems, and driver of
//! dispatch.
use vstd::prelude::*;
use crate::entity::Entity;
use crate::error::EcsError;
use crate::model::{EcsModel, is_subsequence, dispatched_from, filter_eligible, without_id};
use crate::store::{Store, covers};
use crate::system::{System, SystemData, required_set, applied};

verus! {

/// The world's tables, which always keep every cache exact.
pub(crate) struct Registry<C> {
    pub(crate) store: Store<C>,
}

impl<C> Registry<C> {
    #[verifier::type_invariant]
    pub(crate) closed spec fn inv(self) -> bool {
        self.store.wf()
    }

    /// Takes the tables out, leaving empty ones behind.
    fn take(&mut self) -> (r: Store<C>)
        ensures
            r == old(self).store,
            r.wf(),
    {
        proof {
            use_type_invariant(&*self);
        }
        let mut s = Store::new();
        std::mem::swap(&mut s, &mut self.store);
        s
    }

    /// Puts tables back.
    fn put(&mut self, s: Store<C>)
        requires
            s.wf(),
        ensures
            final(self).store == s,
    {
        let mut s = s;
        std::mem::swap(&mut s, &mut self.store);
    }
}

/// Everything a program of entities and systems runs in: the entities, the
/// registered systems with their caches, and a payload of the program's own.
pub struct World<State, C> {
    /// Data of the program's own, which systems may read and change.
    pub state: State,
    pub(crate) registry: Registry<C>,
}

impl<State, C> View for World<State, C> {
    type V = EcsModel;

    /// The entities' keys, the systems' requirements and caches, and the last
    /// identifier handed out.
    closed spec fn view(&self) -> EcsModel {
        self.registry.store@
    }
}

impl<State, C> World<State, C> {
    /// The components of each entity in the world, by identifier; `None`
    /// while a run holds the entity exclusively.
    pub closed spec fn contents(&self) -> Map<usize, Option<Map<u64, C>>> {
        self.registry.store.contents()
    }

    /// Entity `id` is in the world while a run holds it exclusively.
    pub open spec fn held(&self, id: usize) -> bool {
        self.contents().contains_key(id) && self.contents()[id] is None
    }

    /// No run holds an entity of this world.
    pub open spec fn holds_none(&self) -> bool {
        forall|x: usize| !#[trigger] self.held(x)
    }

    /// The cache of system `s`, in dispatch order.
    pub closed spec fn cache_order(&self, s: u64) -> Seq<usize> {
        self.registry.store.cache_order(s)
    }

    /// The identifiers of the entities, in order of admission.
    pub closed spec fn entity_order(&self) -> Seq<usize> {
        self.registry.store.id_order()
    }

    /// The order in which a run of system `s` with requirement `required`
    /// visits entities: its cache once it is registered, which registration
    /// fills with the eligible entities in order of admission.
    pub open spec fn dispatch_order(&self, s: u64, required: Set<u64>) -> Seq<usize> {
        if self@.requirements.contains_key(s) {
            self.cache_order(s)
        } else {
            filter_eligible(self.entity_order(), self@.entities, required)
        }
    }

    /// The program's payload.
    pub closed spec fn payload(&self) -> State {
        self.state
    }

    /// A world with no entity and no system, carrying `state`.
    pub fn new(state: State) -> (r: World<State, C>)
        ensures
            r@ == EcsModel::empty(),
            r.contents() == Map::<usize, Option<Map<u64, C>>>::empty(),
            r.entity_order() == Seq::<usize>::empty(),
            r@.consistent(),
            r.payload() == state,
    {
        World { state, registry: Registry { store: Store::new() } }
    }

    pub(crate) fn get_next_identifier(&mut self) -> (r: usize)
        requires
            old(self)@.last_id < usize::MAX,
        ensures
            r == old(self)@.next_id(),
            !old(self)@.entities.contains_key(r),
            final(self)@ == (EcsModel { last_id: old(self)@.next_id(), ..old(self)@ }),
            final(self).contents() == old(self).contents(),
            final(self).entity_order() == old(self).entity_order(),
            forall|s: u64| #[trigger] final(self).cache_order(s) == old(self).cache_order(s),
            final(self).payload() == old(self).payload(),
    {
        let mut st = self.registry.take();
        proof { st.lemma_consistent(); }
        let r = st.next_identifier();
        self.registry.put(st);
        r
    }

    /// Admits `entity` under its identifier, and adds it to the cache of
    /// every registered system whose requirement its keys cover.
    pub(crate) fn add_entity(&mut self, entity: Entity<C>)
        requires
            !old(self)@.entities.contains_key(entity.id()),
            0 < entity.id() <= old(self)@.last_id,
        ensures
            final(self)@ == old(self)@.with_entity(entity.id(), entity.key_set()),
            final(self).contents() == old(self).contents().insert(entity.id(), Some(entity@)),
            final(self).entity_order() == old(self).entity_order().push(entity.id()),
            forall|s: u64| #[trigger] old(self)@.requirements.contains_key(s) ==> final(self).cache_order(s)
                == if old(self)@.requirements[s].subset_of(entity.key_set()) {
                old(self).cache_order(s).push(entity.id())
            } else {
                old(self).cache_order(s)
            },
            final(self)@.consistent(),
            final(self).payload() == old(self).payload(),
    {
        let id = entity.identifier();
        let keys = entity.component_keys();
        let mut st = self.registry.take();
        st.insert_entity(id, keys, entity);
        proof { st.lemma_consistent(); }
        self.registry.put(st);
    }

    /// Removes `entity` from every system's cache and from the world. No
    /// later run dispatches to it.
    pub fn remove_entity(&mut self, entity: &Entity<C>)
        ensures
            final(self)@ == old(self)@.without_entity(entity.id()),
            final(self).contents() == old(self).contents().remove(entity.id()),
            final(self).entity_order() == without_id(old(self).entity_order(), entity.id()),
            forall|s: u64| #[trigger] old(self)@.requirements.contains_key(s) ==> final(self).cache_order(s)
                == without_id(old(self).cache_order(s), entity.id()),
            final(self)@.consistent(),
            final(self).payload() == old(self).payload(),
    {
        let mut st = self.registry.take();
        st.remove_entity(entity.identifier());
        proof { st.lemma_consistent(); }
        self.registry.put(st);
    }

    /// Registers system `S`: records the keys it requires and seeds its cache
    /// with one scan of the entities. Does nothing when `S` is registered
    /// already.
    pub fn register_system<S: System<State, C>>(&mut self)
        ensures
            final(self)@ == old(self)@.registered(S::system_key_spec(), required_set::<State, C, S>()),
            final(self)@.consistent(),
            final(self).payload() == old(self).payload(),
            final(self).contents() == old(self).contents(),
            final(self).entity_order() == old(self).entity_order(),
            final(self).dispatch_order(S::system_key_spec(), required_set::<State, C, S>())
                == old(self).dispatch_order(S::system_key_spec(), required_set::<State, C, S>()),
            final(self).cache_order(S::system_key_spec()) == old(self).dispatch_order(
                S::system_key_spec(),
                required_set::<State, C, S>(),
            ),
    {
        let key = S::system_key();
        let required = S::Data::type_ids();
        assert(required@.to_set() =~= required_set::<State, C, S>());
        let mut st = self.registry.take();
        st.register(key, required);
        proof { st.lemma_consistent(); }
        self.registry.put(st);
    }

    /// Runs system `S` once on every entity in its cache, in cache order,
    /// registering `S` first when it is not registered. The cache is read
    /// once before the first run, so runs that change the world neither
    /// extend nor disturb the walk. The walk itself removes nothing and
    /// changes no entity's keys; an entry that an earlier run of the walk
    /// removed from the world is skipped. Returns the identifiers of the
    /// entities it ran on, in order. Reaching an entity that a run further up
    /// the call stack holds fails with `BorrowConflict`, which cannot happen
    /// when no run holds an entity. For a system whose runs leave the world
    /// alone, every cached entity is run, holds an `effect` of its former
    /// components afterwards, and every other entity is left as it was.
    pub fn run_system<S: System<State, C>>(&mut self) -> (r: Result<Vec<usize>, EcsError>)
        ensures
            r matches Err(e) ==> e == EcsError::BorrowConflict && exists|x: usize| old(self).held(x)
                && #[trigger] old(self)@.dispatch_set(S::system_key_spec(), required_set::<State, C, S>()).contains(x),
            (forall|x: usize| !#[trigger] old(self).held(x)) ==> r is Ok,
            r matches Ok(ran) ==> ran@.no_duplicates() && exists|snap: Seq<usize>|
                #[trigger] dispatched_from(ran@, snap, final(self)@.entities.dom())
                && snap.to_set() == old(self)@.dispatch_set(S::system_key_spec(), required_set::<State, C, S>())
                && snap == old(self).dispatch_order(S::system_key_spec(), required_set::<State, C, S>()),
            final(self)@.consistent(),
            forall|x: usize| #[trigger] final(self).held(x) ==> old(self).held(x),
            forall|s: u64| #[trigger] old(self)@.registered(S::system_key_spec(), required_set::<State, C, S>()).requirements.contains_key(s)
                ==> final(self)@.requirements.contains_key(s) && final(self)@.requirements[s]
                == old(self)@.registered(S::system_key_spec(), required_set::<State, C, S>()).requirements[s],
            old(self)@.last_id <= final(self)@.last_id,
            forall|x: usize| x <= old(self)@.last_id && !old(self)@.entities.contains_key(x)
                ==> !#[trigger] final(self)@.entities.contains_key(x),
            old(self)@.dispatch_set(S::system_key_spec(), required_set::<State, C, S>()) == Set::<usize>::empty() ==> (
            r matches Ok(ran) && ran@.len() == 0),
            old(self)@.dispatch_set(S::system_key_spec(), required_set::<State, C, S>()) == Set::<usize>::empty()
                ==> final(self)@ == old(self)@.registered(S::system_key_spec(), required_set::<State, C, S>())
                && final(self).contents() == old(self).contents(),
            forall|x: usize| old(self)@.entities.contains_key(x) && #[trigger] final(self)@.entities.contains_key(x)
                ==> final(self)@.entities[x] == old(self)@.entities[x],
            old(self).dispatch_order(S::system_key_spec(), required_set::<State, C, S>()).to_set()
                == old(self)@.dispatch_set(S::system_key_spec(), required_set::<State, C, S>()),
            old(self).dispatch_order(S::system_key_spec(), required_set::<State, C, S>()).no_duplicates(),
            S::keeps_world() && old(self).holds_none() ==> (r matches Ok(ran)
                && ran@ == old(self).dispatch_order(S::system_key_spec(), required_set::<State, C, S>())),
            S::keeps_world() && old(self).holds_none() ==> final(self)@ == old(self)@.registered(
                S::system_key_spec(),
                required_set::<State, C, S>(),
            ),
            S::keeps_world() && old(self).holds_none() ==> forall|x: usize| #[trigger] final(self).contents().contains_key(x)
                == old(self).contents().contains_key(x),
            S::keeps_world() && old(self).holds_none() ==> forall|x: usize|
                old(self).dispatch_order(S::system_key_spec(), required_set::<State, C, S>()).contains(x)
                ==> applied::<State, C, S>(old(self).contents()[x], #[trigger] final(self).contents()[x]),
            S::keeps_world() && old(self).holds_none() ==> forall|x: usize|
                !old(self).dispatch_order(S::system_key_spec(), required_set::<State, C, S>()).contains(x)
                ==> #[trigger] final(self).contents()[x] == old(self).contents()[x],
    {
        self.register_system::<S>();
        let key = S::system_key();
        proof {
            use_type_invariant(&self.registry);
            self.registry.store.lemma_consistent();
        }
        let snapshot = match self.registry.store.cache_of(key) {
            Some(v) => v,
            None => Vec::new(),
        };
        proof {
            assert forall|a: int| 0 <= a < snapshot@.len() implies #[trigger] snapshot@[a] <= self@.last_id
                && self@.entities.contains_key(snapshot@[a]) by {
                assert(snapshot@.to_set().contains(snapshot@[a]));
            }
            if snapshot@.len() == 0 {
                assert(snapshot@.to_set() =~= Set::<usize>::empty());
            } else {
                assert(snapshot@.to_set().contains(snapshot@[0]));
            }
        }
        assert(snapshot@.to_set() == old(self)@.dispatch_set(S::system_key_spec(), required_set::<State, C, S>()));
        let ghost w1: World<State, C> = *self;
        proof {
            assert(w1.contents() == old(self).contents());
            assert forall|x: usize| #[trigger] w1.held(x) implies old(self).held(x) by {}
        }
        let r = self.run_snapshot::<S>(&snapshot);
        proof {
            if r is Err {
                let x = choose|x: usize| w1.held(x) && snapshot@.contains(x);
                assert(snapshot@.to_set().contains(x));
                assert(old(self).held(x));
                assert(old(self)@.dispatch_set(S::system_key_spec(), required_set::<State, C, S>()).contains(x));
            }
            if r is Ok {
                assert(dispatched_from(r->Ok_0@, snapshot@, self@.entities.dom()));
            }
        }
        r
    }

    /// Runs system `S` on each entry of `snapshot` that the world still
    /// holds when the walk reaches it, in order.
    fn run_snapshot<S: System<State, C>>(&mut self, snapshot: &Vec<usize>) -> (r: Result<Vec<usize>, EcsError>)
        requires
            snapshot@.no_duplicates(),
            forall|a: int| 0 <= a < snapshot@.len() ==> #[trigger] snapshot@[a] <= old(self)@.last_id,
            forall|a: int| 0 <= a < snapshot@.len() ==> old(self)@.entities.contains_key(#[trigger] snapshot@[a]),
        ensures
            forall|x: usize| old(self)@.entities.contains_key(x) && #[trigger] final(self)@.entities.contains_key(x)
                ==> final(self)@.entities[x] == old(self)@.entities[x],
            S::keeps_world() && old(self).holds_none() ==> (r matches Ok(ran) && ran@ == snapshot@),
            S::keeps_world() && old(self).holds_none() ==> final(self)@ == old(self)@,
            S::keeps_world() && old(self).holds_none() ==> forall|x: usize| #[trigger] final(self).contents().contains_key(x)
                == old(self).contents().contains_key(x),
            S::keeps_world() && old(self).holds_none() ==> forall|x: usize| snapshot@.contains(x)
                ==> applied::<State, C, S>(old(self).contents()[x], #[trigger] final(self).contents()[x]),
            S::keeps_world() && old(self).holds_none() ==> forall|x: usize| !snapshot@.contains(x)
                ==> #[trigger] final(self).contents()[x] == old(self).contents()[x],
            r matches Err(e) ==> e == EcsError::BorrowConflict && exists|x: usize| old(self).held(x)
                && #[trigger] snapshot@.contains(x),
            (forall|x: usize| !#[trigger] old(self).held(x)) ==> r is Ok,
            r matches Ok(ran) ==> ran@.no_duplicates() && dispatched_from(ran@, snapshot@, final(self)@.entities.dom()),
            final(self)@.consistent(),
            forall|x: usize| #[trigger] final(self).held(x) ==> old(self).held(x),
            forall|s: u64| #[trigger] old(self)@.requirements.contains_key(s) ==> final(self)@.requirements.contains_key(s)
                && final(self)@.requirements[s] == old(self)@.requirements[s],
            old(self)@.last_id <= final(self)@.last_id,
            forall|x: usize| x <= old(self)@.last_id && !old(self)@.entities.contains_key(x)
                ==> !#[trigger] final(self)@.entities.contains_key(x),
            snapshot@.len() == 0 ==> final(self)@ == old(self)@ && final(self).contents() == old(self).contents(),
            snapshot@.len() == 0 ==> (r matches Ok(ran) && ran@.len() == 0),
    {
        proof {
            use_type_invariant(&self.registry);
            self.registry.store.lemma_consistent();
        }
        let mut ran: Vec<usize> = Vec::new();
        let ghost mut idx: Seq<int> = Seq::empty();
        let mut i: usize = 0;
        while i < snapshot.len()
            invariant
                snapshot@.no_duplicates(),
                forall|a: int| 0 <= a < snapshot@.len() ==> #[trigger] snapshot@[a] <= old(self)@.last_id,
                i <= snapshot@.len(),
                i == 0 ==> *self == *old(self),
                ran@.len() <= i,
                ran@.no_duplicates(),
                idx.len() == ran@.len(),
                forall|j: int| 0 <= j < idx.len() ==> 0 <= #[trigger] idx[j] < i && snapshot@[idx[j]] == ran@[j],
                forall|j: int, k: int| 0 <= j < k < idx.len() ==> idx[j] < idx[k],
                forall|a: int| 0 <= a < i ==> ran@.contains(#[trigger] snapshot@[a]) || !self@.entities.contains_key(snapshot@[a]),
                forall|x: usize| #[trigger] self.contents().contains_key(x) && self.contents()[x] is None ==> old(self).held(x),
                forall|s: u64| #[trigger] old(self)@.requirements.contains_key(s) ==> self@.requirements.contains_key(s)
                    && self@.requirements[s] == old(self)@.requirements[s],
                old(self)@.last_id <= self@.last_id,
                forall|x: usize| x <= old(self)@.last_id && !old(self)@.entities.contains_key(x) ==> !#[trigger] self@.entities.contains_key(x),
                forall|a: int| 0 <= a < snapshot@.len() ==> old(self)@.entities.contains_key(#[trigger] snapshot@[a]),
                forall|x: usize| #[trigger] old(self)@.entities.contains_key(x) ==> x <= old(self)@.last_id,
                forall|x: usize| old(self)@.entities.contains_key(x) && #[trigger] self@.entities.contains_key(x)
                    ==> self@.entities[x] == old(self)@.entities[x],
                S::keeps_world() && old(self).holds_none() ==> ran@ == snapshot@.subrange(0, i as int),
                S::keeps_world() && old(self).holds_none() ==> self@ == old(self)@,
                S::keeps_world() && old(self).holds_none() ==> forall|x: usize| #[trigger] self.contents().contains_key(x)
                    == old(self).contents().contains_key(x),
                S::keeps_world() && old(self).holds_none() ==> forall|x: usize| snapshot@.subrange(0, i as int).contains(x)
                    ==> applied::<State, C, S>(old(self).contents()[x], #[trigger] self.contents()[x]),
                S::keeps_world() && old(self).holds_none() ==> forall|x: usize| !snapshot@.subrange(0, i as int).contains(x)
                    ==> #[trigger] self.contents()[x] == old(self).contents()[x],
            decreases snapshot@.len() - i,
        {
            let id = snapshot[i];
            let ghost c0 = self.contents();
            let ghost kw = S::keeps_world() && old(self).holds_none();
            proof {
                use_type_invariant(&self.registry);
                self.registry.store.lemma_contents_dom();
                if kw {
                    assert(!snapshot@.subrange(0, i as int).contains(id)) by {
                        if snapshot@.subrange(0, i as int).contains(id) {
                            let a = choose|a: int| 0 <= a < i && snapshot@.subrange(0, i as int)[a] == id;
                            assert(snapshot@[a] == snapshot@[i as int]);
                        }
                    }
                    assert(c0[id] == old(self).contents()[id]);
                    assert(self@.entities.contains_key(id));
                    assert(!old(self).held(id));
                }
            }
            let mut st = self.registry.take();
            let out = st.check_out(id);
            self.registry.put(st);
            let ghost c1 = self.contents();
            match out {
                Err(e) => {
                    assert(self.held(id));
                    assert(old(self).held(id));
                    assert(snapshot@[i as int] == id);
                    assert(snapshot@.contains(id));
                    proof {
                        use_type_invariant(&self.registry);
                        self.registry.store.lemma_consistent();
                    }
                    return Err(e);
                },
                Ok(None) => {
                    assert(c1 == c0);
                    assert(!kw);
                },
                Ok(Some(e)) => {
                    let mut e = e;
                    assert(c1 == c0.insert(id, None));
                    let ghost w_before: World<State, C> = *self;
                    let ghost eb = e@;
                    S::run(&mut e, self);
                    let ghost ea = e@;
                    let ghost w_after: World<State, C> = *self;
                    let ghost c2 = self.contents();
                    let mut st = self.registry.take();
                    st.check_in(id, e);
                    self.registry.put(st);
                    proof {
                        assert(!self.held(id));
                        assert forall|x: usize| #[trigger] self.contents().contains_key(x) && self.contents()[x] is None implies old(self).held(x) by {
                            assert(x != id);
                            assert(c2.contains_key(x) && c2[x] is None);
                            assert(w_after.held(x));
                            assert(w_before.held(x));
                            assert(c1.contains_key(x) && c1[x] is None);
                            assert(c0.contains_key(x) && c0[x] is None);
                        }
                        assert forall|j: int| 0 <= j < ran@.len() implies ran@[j] != id by {
                            assert(snapshot@[idx[j]] == ran@[j]);
                        }
                        assert forall|x: usize| old(self)@.entities.contains_key(x) && #[trigger] self@.entities.contains_key(x)
                            implies self@.entities[x] == old(self)@.entities[x] by {
                            assert(w_after@.entities.contains_key(x));
                            assert(w_before@.entities.contains_key(x));
                        }
                        if kw {
                            let c3 = self.contents();
                            assert(c2 == c1);
                            assert(c3 == c1.insert(id, Some(ea)));
                            assert(old(self).contents()[id] == Some(eb));
                            let pre = snapshot@.subrange(0, i as int);
                            let post = snapshot@.subrange(0, i as int + 1);
                            assert forall|x: usize| #[trigger] post.contains(x) == (pre.contains(x) || x == id) by {
                                if post.contains(x) {
                                    let a = choose|a: int| 0 <= a < post.len() && post[a] == x;
                                    if a < i {
                                        assert(pre[a] == x);
                                    }
                                }
                                if pre.contains(x) {
                                    let a = choose|a: int| 0 <= a < pre.len() && pre[a] == x;
                                    assert(post[a] == x);
                                }
                                if x == id {
                                    assert(post[i as int] == x);
                                }
                            }
                            assert forall|x: usize| post.contains(x) implies applied::<State, C, S>(old(self).contents()[x], #[trigger] c3[x]) by {
                                if x != id {
                                    assert(pre.contains(x));
                                }
                            }
                            assert forall|x: usize| !post.contains(x) implies #[trigger] c3[x] == old(self).contents()[x] by {}
                        }
                    }
                    let ghost before = ran@;
                    ran.push(id);
                    proof {
                        idx = idx.push(i as int);
                        if kw {
                            assert(ran@ =~= snapshot@.subrange(0, i as int + 1));
                        }
                        assert forall|a: int, b: int| 0 <= a < ran@.len() && 0 <= b < ran@.len() && a != b implies ran@[a] != ran@[b] by {
                            if a < before.len() && b < before.len() {
                                assert(ran@[a] == before[a] && ran@[b] == before[b]);
                            } else if a < before.len() {
                                assert(ran@[a] == before[a]);
                            } else {
                                assert(ran@[b] == before[b]);
                            }
                        }
                        assert forall|a: int| 0 <= a < i + 1 implies ran@.contains(#[trigger] snapshot@[a]) || !self@.entities.contains_key(snapshot@[a]) by {
                            if a == i {
                                assert(ran@[before.len() as int] == id);
                            } else if before.contains(snapshot@[a]) {
                                let j = choose|j: int| 0 <= j < before.len() && before[j] == snapshot@[a];
                                assert(ran@[j] == snapshot@[a]);
                            }
                        }
                    }
                },
            }
            i += 1;
        }
        proof {
            use_type_invariant(&self.registry);
            self.registry.store.lemma_consistent();
            assert(is_subsequence(ran@, snapshot@));
            assert forall|x: usize| #[trigger] self.held(x) implies old(self).held(x) by {
                assert(self.contents().contains_key(x) && self.contents()[x] is None);
            }
        }
        Ok(ran)
    }

    /// Whether system `S` is registered.
    pub fn is_registered<S: System<State, C>>(&self) -> (r: bool)
        ensures
            r == self@.requirements.contains_key(S::system_key_spec()),
    {
        proof {
            use_type_invariant(&self.registry);
        }
        self.registry.store.find_system(S::system_key()).is_some()
    }

    /// The keys that system `S` declares, whether or not it is registered.
    pub fn get_required_types<S: System<State, C>>() -> (r: Vec<u64>)
        ensures
            r@.to_set() == required_set::<State, C, S>(),
    {
        let r = S::Data::type_ids();
        assert(r@.to_set() =~= required_set::<State, C, S>());
        r
    }

    /// The keys recorded for system `S` when it was registered; fails with
    /// `MissingRegistration` when it is not registered.
    pub fn required_types<S: System<State, C>>(&self) -> (r: Result<Vec<u64>, EcsError>)
        ensures
            r is Err <==> !self@.requirements.contains_key(S::system_key_spec()),
            r matches Err(e) ==> e == EcsError::MissingRegistration,
            r matches Ok(v) ==> v@.to_set() == self@.requirements[S::system_key_spec()],
    {
        proof {
            use_type_invariant(&self.registry);
        }
        match self.registry.store.required_of(S::system_key()) {
            Some(v) => Ok(v),
            None => Err(EcsError::MissingRegistration),
        }
    }

    /// Whether `entity` carries every key that system `S` was registered
    /// with; fails with `MissingRegistration` when `S` is not registered.
    pub fn entity_is_eligible<S: System<State, C>>(&self, entity: &Entity<C>) -> (r: Result<bool, EcsError>)
        ensures
            r is Err <==> !self@.requirements.contains_key(S::system_key_spec()),
            r matches Err(e) ==> e == EcsError::MissingRegistration,
            r matches Ok(b) ==> b == self@.requirements[S::system_key_spec()].subset_of(entity.key_set()),
    {
        proof {
            use_type_invariant(&self.registry);
        }
        match self.registry.store.required_of(S::system_key()) {
            Some(required) => {
                let keys = entity.component_keys();
                Ok(covers(&keys, &required))
            },
            None => Err(EcsError::MissingRegistration),
        }
    }

    /// The identifiers in the cache of system `S`, in dispatch order, or
    /// `None` when `S` is not registered.
    pub fn system_entities<S: System<State, C>>(&self) -> (r: Option<Vec<usize>>)
        ensures
            r is None <==> !self@.requirements.contains_key(S::system_key_spec()),
            r matches Some(v) ==> v@.to_set() == self@.caches[S::system_key_spec()] && v@.no_duplicates()
                && v@ == self.cache_order(S::system_key_spec()),
    {
        proof {
            use_type_invariant(&self.registry);
        }
        self.registry.store.cache_of(S::system_key())
    }

    /// The identifiers of the entities in the world, in order of admission.
    pub fn entity_ids(&self) -> (r: Vec<usize>)
        ensures
            r@.to_set() == self@.entities.dom(),
            r@.no_duplicates(),
            r@ == self.entity_order(),
    {
        proof {
            use_type_invariant(&self.registry);
        }
        self.registry.store.entity_ids()
    }

    /// A shared view of entity `id`, unless the world does not hold it or a
    /// run holds it exclusively.
    pub fn entity(&self, id: usize) -> (r: Option<&Entity<C>>)
        ensures
            r is None <==> !self@.entities.contains_key(id) || self.held(id),
            r matches Some(e) ==> e.id() == id && e.key_set() == self@.entities[id] && self.contents()[id] == Some(e@),
            self.contents().dom() == self@.entities.dom(),
    {
        proof {
            use_type_invariant(&self.registry);
        }
        self.registry.store.entity_ref(id)
    }
}

} // verus!
