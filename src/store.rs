//! The world's tables: one slot per entity, one registration per system.
//! Caches hold entity identifiers, never entities themselves.
use vstd::prelude::*;
use crate::entity::Entity;
use crate::error::EcsError;
use crate::keyed::{keys_distinct, has_key, index_of_key, to_map};
use crate::keyed::{lemma_to_map_index, lemma_to_map_key, lemma_to_map_push, lemma_to_map_remove, lemma_to_map_same_keys, lemma_to_map_update};
use crate::model::{EcsModel, eligible_ids, filter_eligible, without_id, lemma_without_id, lemma_with_entity_consistent, lemma_without_entity_consistent, lemma_registered_consistent};

verus! {

/// An entity's place in the world: its identifier, the keys it was admitted
/// with, and its data, which is absent while a run holds the entity.
pub(crate) struct Slot<C> {
    pub(crate) id: usize,
    pub(crate) keys: Vec<u64>,
    pub(crate) entity: Option<Entity<C>>,
}

/// A registered system: its key, the component keys it requires, and the
/// identifiers of the entities that carry them, in dispatch order.
pub(crate) struct Registration {
    pub(crate) system: u64,
    pub(crate) required: Vec<u64>,
    pub(crate) members: Vec<usize>,
}

/// Every entity's slot, every system's registration, and the last
/// identifier handed out.
pub(crate) struct Store<C> {
    pub(crate) slots: Vec<Slot<C>>,
    pub(crate) systems: Vec<Registration>,
    pub(crate) last_id: usize,
}

pub(crate) open spec fn entity_pairs<C>(s: Seq<Slot<C>>) -> Seq<(usize, Set<u64>)> {
    s.map_values(|x: Slot<C>| (x.id, x.keys@.to_set()))
}

pub(crate) open spec fn content_pairs<C>(s: Seq<Slot<C>>) -> Seq<(usize, Option<Map<u64, C>>)> {
    s.map_values(|x: Slot<C>| (x.id, match x.entity {
        Some(e) => Some(e@),
        None => None,
    }))
}

pub(crate) open spec fn requirement_pairs(s: Seq<Registration>) -> Seq<(u64, Set<u64>)> {
    s.map_values(|x: Registration| (x.system, x.required@.to_set()))
}

pub(crate) open spec fn cache_pairs(s: Seq<Registration>) -> Seq<(u64, Set<usize>)> {
    s.map_values(|x: Registration| (x.system, x.members@.to_set()))
}

impl<C> View for Store<C> {
    type V = EcsModel;

    closed spec fn view(&self) -> EcsModel {
        EcsModel {
            entities: to_map(entity_pairs(self.slots@)),
            requirements: to_map(requirement_pairs(self.systems@)),
            caches: to_map(cache_pairs(self.systems@)),
            last_id: self.last_id as nat,
        }
    }
}

/// Whether `v` holds `x`.
fn holds_key(v: &Vec<u64>, x: u64) -> (r: bool)
    ensures
        r == v@.contains(x),
{
    let mut i: usize = 0;
    while i < v.len()
        invariant
            i <= v@.len(),
            forall|j: int| 0 <= j < i ==> v@[j] != x,
        decreases v@.len() - i,
    {
        if v[i] == x {
            return true;
        }
        i += 1;
    }
    false
}

/// Whether every key of `required` is among `keys`.
pub(crate) fn covers(keys: &Vec<u64>, required: &Vec<u64>) -> (r: bool)
    ensures
        r == required@.to_set().subset_of(keys@.to_set()),
{
    let mut i: usize = 0;
    while i < required.len()
        invariant
            i <= required@.len(),
            forall|j: int| 0 <= j < i ==> keys@.contains(#[trigger] required@[j]),
        decreases required@.len() - i,
    {
        if !holds_key(keys, required[i]) {
            assert(required@.to_set().contains(required@[i as int]));
            return false;
        }
        i += 1;
    }
    assert forall|k: u64| required@.to_set().contains(k) implies keys@.to_set().contains(k) by {
        let j = choose|j: int| 0 <= j < required@.len() && required@[j] == k;
    }
    true
}

/// A copy of a list of plain values.
fn copy_all<T: Copy>(v: &Vec<T>) -> (r: Vec<T>)
    ensures
        r@ == v@,
{
    let mut r: Vec<T> = Vec::new();
    let mut i: usize = 0;
    while i < v.len()
        invariant
            i <= v@.len(),
            r@ == v@.subrange(0, i as int),
        decreases v@.len() - i,
    {
        r.push(v[i]);
        i += 1;
        assert(r@ =~= v@.subrange(0, i as int));
    }
    assert(r@ =~= v@);
    r
}

/// The position of `x` in `v`, if it occurs.
fn position_of(v: &Vec<usize>, x: usize) -> (r: Option<usize>)
    ensures
        r is None <==> !v@.contains(x),
        r matches Some(p) ==> p < v@.len() && v@[p as int] == x,
{
    let mut i: usize = 0;
    while i < v.len()
        invariant
            i <= v@.len(),
            forall|j: int| 0 <= j < i ==> v@[j] != x,
        decreases v@.len() - i,
    {
        if v[i] == x {
            return Some(i);
        }
        i += 1;
    }
    None
}

/// Taking the one occurrence of `x` out of a sequence without duplicates
/// takes `x` out of its set.
proof fn lemma_remove_unique(s: Seq<usize>, p: int)
    requires
        s.no_duplicates(),
        0 <= p < s.len(),
    ensures
        s.remove(p).no_duplicates(),
        s.remove(p).to_set() == s.to_set().remove(s[p]),
{
    let t = s.remove(p);
    assert forall|a: int| 0 <= a < t.len() implies #[trigger] t[a] == s[if a < p { a } else { a + 1 }] by {}
    assert forall|a: int, b: int| 0 <= a < t.len() && 0 <= b < t.len() && a != b implies t[a] != t[b] by {
        assert(t[a] == s[if a < p { a } else { a + 1 }]);
        assert(t[b] == s[if b < p { b } else { b + 1 }]);
    }
    assert forall|x: usize| #[trigger] t.to_set().contains(x) == s.to_set().remove(s[p]).contains(x) by {
        if t.contains(x) {
            let a = choose|a: int| 0 <= a < t.len() && t[a] == x;
            assert(t[a] == s[if a < p { a } else { a + 1 }]);
        }
        if s.contains(x) && x != s[p] {
            let b = choose|b: int| 0 <= b < s.len() && s[b] == x;
            let a = if b < p { b } else { b - 1 };
            assert(t[a] == s[b]);
        }
    }
    assert(t.to_set() =~= s.to_set().remove(s[p]));
}

impl<C> Store<C> {
    pub(crate) closed spec fn wf(&self) -> bool {
        &&& keys_distinct(entity_pairs(self.slots@))
        &&& keys_distinct(requirement_pairs(self.systems@))
        &&& keys_distinct(cache_pairs(self.systems@))
        &&& forall|j: int|
            0 <= j < self.systems@.len() ==> (#[trigger] self.systems@[j]).members@.no_duplicates()
        &&& forall|i: int|
            0 <= i < self.slots@.len() ==> ((#[trigger] self.slots@[i]).entity matches Some(e) ==> e.id()
                == self.slots@[i].id && e.key_set() == self.slots@[i].keys@.to_set())
        &&& self@.consistent()
    }

    pub(crate) fn new() -> (r: Store<C>)
        ensures
            r.wf(),
            r@ == EcsModel::empty(),
            r.contents() == Map::<usize, Option<Map<u64, C>>>::empty(),
            r.id_order() == Seq::<usize>::empty(),
    {
        let r = Store { slots: Vec::new(), systems: Vec::new(), last_id: 0 };
        assert(r.contents() =~= Map::<usize, Option<Map<u64, C>>>::empty());
        assert(r.id_order() =~= Seq::<usize>::empty());
        assert(r@.entities =~= Map::empty());
        assert(r@.requirements =~= Map::empty());
        assert(r@.caches =~= Map::empty());
        r
    }

    /// The position of the slot of entity `id`, if the world holds it.
    pub(crate) fn find_slot(&self, id: usize) -> (r: Option<usize>)
        requires
            self.wf(),
        ensures
            r is None <==> !self@.entities.contains_key(id),
            r matches Some(i) ==> i < self.slots@.len() && self.slots@[i as int].id == id
                && index_of_key(entity_pairs(self.slots@), id) == i,
    {
        self.find_slot_in(id)
    }

    /// The position of the registration of system `s`, if there is one.
    pub(crate) fn find_system(&self, s: u64) -> (r: Option<usize>)
        requires
            self.wf(),
        ensures
            r is None <==> !self@.requirements.contains_key(s),
            r matches Some(j) ==> j < self.systems@.len() && self.systems@[j as int].system == s
                && self@.requirements[s] == self.systems@[j as int].required@.to_set()
                && self@.caches[s] == self.systems@[j as int].members@.to_set(),
    {
        let mut j: usize = 0;
        while j < self.systems.len()
            invariant
                self.wf(),
                j <= self.systems@.len(),
                forall|a: int| 0 <= a < j ==> self.systems@[a].system != s,
            decreases self.systems@.len() - j,
        {
            if self.systems[j].system == s {
                proof {
                    lemma_to_map_index(requirement_pairs(self.systems@), j as int);
                    lemma_to_map_index(cache_pairs(self.systems@), j as int);
                }
                return Some(j);
            }
            j += 1;
        }
        proof {
            if has_key(requirement_pairs(self.systems@), s) {
                let a = index_of_key(requirement_pairs(self.systems@), s);
                assert(self.systems@[a].system == s);
            }
        }
        None
    }

    /// The components of each entity, `None` while a run holds them.
    pub(crate) closed spec fn contents(&self) -> Map<usize, Option<Map<u64, C>>> {
        to_map(content_pairs(self.slots@))
    }

    /// Entity `id` is in the world while a run holds its data.
    pub(crate) open spec fn held(&self, id: usize) -> bool {
        self.contents().contains_key(id) && self.contents()[id] is None
    }

    /// The identifiers of the entities, in order of admission.
    pub(crate) closed spec fn id_order(&self) -> Seq<usize> {
        self.slots@.map_values(|x: Slot<C>| x.id)
    }

    /// The cache of system `s`, in dispatch order.
    pub(crate) closed spec fn cache_order(&self, s: u64) -> Seq<usize> {
        self.systems@[index_of_key(requirement_pairs(self.systems@), s)].members@
    }

    /// The contents have one entry per entity.
    proof fn lemma_contents(&self)
        requires
            keys_distinct(entity_pairs(self.slots@)),
        ensures
            keys_distinct(content_pairs(self.slots@)),
            self.contents().dom() == to_map(entity_pairs(self.slots@)).dom(),
            forall|i: int| 0 <= i < self.slots@.len() ==> self.contents()[#[trigger] self.slots@[i].id]
                == content_pairs(self.slots@)[i].1,
    {
        let ep = entity_pairs(self.slots@);
        let cp = content_pairs(self.slots@);
        assert forall|j: int| 0 <= j < ep.len() implies #[trigger] cp[j].0 == ep[j].0 by {}
        lemma_to_map_same_keys(ep, cp);
        assert forall|i: int| 0 <= i < self.slots@.len() implies self.contents()[#[trigger] self.slots@[i].id]
            == cp[i].1 by {
            assert(ep[i].0 == self.slots@[i].id);
        }
    }

    /// The contents have one entry per entity.
    pub(crate) proof fn lemma_contents_dom(&self)
        requires
            self.wf(),
        ensures
            self.contents().dom() == self@.entities.dom(),
    {
        self.lemma_contents();
    }

    pub(crate) proof fn lemma_consistent(&self)
        requires
            self.wf(),
        ensures
            self@.consistent(),
    {
    }

    /// Adds entity `id` with keys `keys`, joining the cache of every system
    /// whose requirement those keys cover.
    pub(crate) fn insert_entity(&mut self, id: usize, keys: Vec<u64>, entity: Entity<C>)
        requires
            old(self).wf(),
            !old(self)@.entities.contains_key(id),
            0 < id <= old(self)@.last_id,
            entity.id() == id,
            entity.key_set() == keys@.to_set(),
        ensures
            final(self).wf(),
            final(self)@ == old(self)@.with_entity(id, keys@.to_set()),
            final(self).contents() == old(self).contents().insert(id, Some(entity@)),
            !final(self).held(id),
            final(self).id_order() == old(self).id_order().push(id),
            forall|s: u64| #[trigger] old(self)@.requirements.contains_key(s) ==> final(self).cache_order(s) == if old(self)@.requirements[s].subset_of(keys@.to_set()) {
                old(self).cache_order(s).push(id)
            } else {
                old(self).cache_order(s)
            },
    {
        let ghost ev = entity@;
        let ghost old_systems = self.systems@;
        let ghost ks = keys@.to_set();
        let mut i: usize = 0;
        while i < self.systems.len()
            invariant
                self.slots == old(self).slots,
                self.last_id == old(self).last_id,
                old_systems == old(self).systems@,
                ks == keys@.to_set(),
                self.systems@.len() == old_systems.len(),
                i <= old_systems.len(),
                forall|j: int| 0 <= j < old_systems.len() ==> (#[trigger] self.systems@[j]).system
                    == old_systems[j].system && self.systems@[j].required@ == old_systems[j].required@,
                forall|j: int| 0 <= j < i ==> (#[trigger] self.systems@[j]).members@ == if old_systems[j].required@.to_set().subset_of(ks) {
                    old_systems[j].members@.push(id)
                } else {
                    old_systems[j].members@
                },
                forall|j: int| i <= j < old_systems.len() ==> (#[trigger] self.systems@[j]).members@ == old_systems[j].members@,
            decreases old_systems.len() - i,
        {
            if covers(&keys, &self.systems[i].required) {
                self.systems[i].members.push(id);
            }
            i += 1;
        }
        self.slots.push(Slot { id, keys, entity: Some(entity) });
        proof {
            let m = old(self)@;
            let ep = entity_pairs(old(self).slots@);
            assert(entity_pairs(self.slots@) =~= ep.push((id, ks)));
            lemma_to_map_push(ep, id, ks);
            lemma_to_map_index(entity_pairs(self.slots@), ep.len() as int);
            old(self).lemma_contents();
            let cpo = content_pairs(old(self).slots@);
            assert(content_pairs(self.slots@) =~= cpo.push((id, Some(ev))));
            lemma_to_map_push(cpo, id, Some(ev));
            assert(self.id_order() =~= old(self).id_order().push(id));
            assert forall|s: u64| #[trigger] m.requirements.contains_key(s) implies self.cache_order(s) == if m.requirements[s].subset_of(ks) {
                old(self).cache_order(s).push(id)
            } else {
                old(self).cache_order(s)
            } by {
                let rp0 = requirement_pairs(old_systems);
                assert(requirement_pairs(self.systems@) =~= rp0);
                lemma_to_map_key(rp0, s);
                let j = index_of_key(rp0, s);
                lemma_to_map_index(rp0, j);
            }
            let rp = requirement_pairs(old_systems);
            assert(requirement_pairs(self.systems@) =~= rp);
            let cp = cache_pairs(old_systems);
            let ncp = cache_pairs(self.systems@);
            assert forall|j: int| 0 <= j < cp.len() implies #[trigger] ncp[j].0 == cp[j].0 by {}
            lemma_to_map_same_keys(cp, ncp);
            let target = m.with_entity(id, ks);
            assert forall|j: int| 0 <= j < old_systems.len() implies !(#[trigger] old_systems[j]).members@.contains(id) by {
                lemma_to_map_index(cp, j);
                assert(m.caches[cp[j].0] == old_systems[j].members@.to_set());
                assert(!eligible_ids(m.entities, m.requirements[cp[j].0]).contains(id));
            }
            assert forall|s: u64| #[trigger] to_map(ncp).contains_key(s) implies to_map(ncp)[s] == target.caches[s] by {
                lemma_to_map_key(cp, s);
                let j = index_of_key(cp, s);
                lemma_to_map_index(cp, j);
                lemma_to_map_index(rp, j);
                assert(m.requirements[s] == old_systems[j].required@.to_set());
                if old_systems[j].required@.to_set().subset_of(ks) {
                    old_systems[j].members@.lemma_push_to_set_commute(id);
                }
            }
            assert(to_map(ncp) =~= target.caches);
            assert(self@ == target);
            lemma_with_entity_consistent(m, id, ks);
            assert forall|j: int| 0 <= j < self.systems@.len() implies (#[trigger] self.systems@[j]).members@.no_duplicates() by {
                assert(old_systems[j].members@.no_duplicates());
            }
            assert forall|i: int| 0 <= i < self.slots@.len() implies ((#[trigger] self.slots@[i]).entity matches Some(e) ==> e.id()
                == self.slots@[i].id && e.key_set() == self.slots@[i].keys@.to_set()) by {
                if i < old(self).slots@.len() {
                    assert(self.slots@[i] == old(self).slots@[i]);
                }
            }
        }
    }

    /// Takes entity `id` out of every cache and out of the world.
    pub(crate) fn remove_entity(&mut self, id: usize)
        requires
            old(self).wf(),
        ensures
            final(self).wf(),
            final(self)@ == old(self)@.without_entity(id),
            final(self).contents() == old(self).contents().remove(id),
            final(self).id_order() == without_id(old(self).id_order(), id),
            forall|s: u64| #[trigger] old(self)@.requirements.contains_key(s) ==> final(self).cache_order(s) == without_id(
                old(self).cache_order(s),
                id,
            ),
    {
        let ghost old_systems = self.systems@;
        let mut i: usize = 0;
        while i < self.systems.len()
            invariant
                self.slots == old(self).slots,
                self.last_id == old(self).last_id,
                old_systems == old(self).systems@,
                self.systems@.len() == old_systems.len(),
                i <= old_systems.len(),
                forall|j: int| 0 <= j < old_systems.len() ==> (#[trigger] self.systems@[j]).system
                    == old_systems[j].system && self.systems@[j].required@ == old_systems[j].required@,
                forall|j: int| 0 <= j < old_systems.len() ==> (#[trigger] old_systems[j]).members@.no_duplicates(),
                forall|j: int| 0 <= j < i ==> (#[trigger] self.systems@[j]).members@.to_set() == old_systems[j].members@.to_set().remove(id)
                    && self.systems@[j].members@.no_duplicates()
                    && self.systems@[j].members@ == without_id(old_systems[j].members@, id),
                forall|j: int| i <= j < old_systems.len() ==> (#[trigger] self.systems@[j]).members@ == old_systems[j].members@,
            decreases old_systems.len() - i,
        {
            match position_of(&self.systems[i].members, id) {
                Some(p) => {
                    proof {
                        lemma_remove_unique(self.systems@[i as int].members@, p as int);
                        lemma_without_id(self.systems@[i as int].members@, p as int);
                    }
                    self.systems[i].members.remove(p);
                },
                None => {
                    assert(self.systems@[i as int].members@.to_set() =~= old_systems[i as int].members@.to_set().remove(id));
                },
            }
            i += 1;
        }
        let ghost mid_slots = self.slots@;
        match self.find_slot_in(id) {
            Some(k) => {
                self.slots.remove(k);
            },
            None => {},
        }
        proof {
            let m = old(self)@;
            let ep = entity_pairs(old(self).slots@);
            old(self).lemma_contents();
            let cpo = content_pairs(old(self).slots@);
            if has_key(ep, id) {
                let k = index_of_key(ep, id);
                assert(entity_pairs(self.slots@) =~= ep.remove(k));
                lemma_to_map_remove(ep, k);
                assert(content_pairs(self.slots@) =~= cpo.remove(k));
                lemma_to_map_remove(cpo, k);
            } else {
                assert(self.slots@ == mid_slots);
                assert(to_map(ep).remove(id) =~= to_map(ep));
                assert(old(self).contents().remove(id) =~= old(self).contents());
            }
            let rp = requirement_pairs(old_systems);
            assert(requirement_pairs(self.systems@) =~= rp);
            let cp = cache_pairs(old_systems);
            let ncp = cache_pairs(self.systems@);
            assert forall|j: int| 0 <= j < cp.len() implies #[trigger] ncp[j].0 == cp[j].0 by {}
            lemma_to_map_same_keys(cp, ncp);
            let target = m.without_entity(id);
            assert forall|s: u64| #[trigger] to_map(ncp).contains_key(s) implies to_map(ncp)[s] == target.caches[s] by {
                lemma_to_map_key(cp, s);
                let j = index_of_key(cp, s);
                lemma_to_map_index(cp, j);
            }
            assert(to_map(ncp) =~= target.caches);
            assert(self@ == target);
            lemma_without_entity_consistent(m, id);
            assert forall|s: u64| #[trigger] m.requirements.contains_key(s) implies self.cache_order(s) == without_id(
                old(self).cache_order(s),
                id,
            ) by {
                lemma_to_map_key(rp, s);
                let j = index_of_key(rp, s);
                lemma_to_map_index(rp, j);
            }
            let io = old(self).id_order();
            assert(io.no_duplicates()) by {
                assert forall|a: int, b: int| 0 <= a < io.len() && 0 <= b < io.len() && a != b implies io[a] != io[b] by {
                    assert(ep[a].0 != ep[b].0);
                }
            }
            if has_key(ep, id) {
                let k = index_of_key(ep, id);
                assert(self.id_order() =~= io.remove(k));
                lemma_without_id(io, k);
            } else {
                assert(!io.contains(id)) by {
                    if io.contains(id) {
                        let a = choose|a: int| 0 <= a < io.len() && io[a] == id;
                        assert(ep[a].0 == id);
                    }
                }
                assert(self.id_order() =~= io);
            }
            assert forall|i: int| 0 <= i < self.slots@.len() implies ((#[trigger] self.slots@[i]).entity matches Some(e) ==> e.id()
                == self.slots@[i].id && e.key_set() == self.slots@[i].keys@.to_set()) by {
                if has_key(ep, id) {
                    let k = index_of_key(ep, id);
                    assert(self.slots@[i] == old(self).slots@[if i < k { i } else { i + 1 }]);
                } else {
                    assert(self.slots@[i] == old(self).slots@[i]);
                }
            }
        }
    }

    /// The position of the slot of entity `id`, whatever the caches hold.
    fn find_slot_in(&self, id: usize) -> (r: Option<usize>)
        requires
            keys_distinct(entity_pairs(self.slots@)),
        ensures
            r is None <==> !has_key(entity_pairs(self.slots@), id),
            r matches Some(i) ==> i < self.slots@.len() && self.slots@[i as int].id == id
                && index_of_key(entity_pairs(self.slots@), id) == i,
    {
        let mut i: usize = 0;
        while i < self.slots.len()
            invariant
                keys_distinct(entity_pairs(self.slots@)),
                i <= self.slots@.len(),
                forall|j: int| 0 <= j < i ==> self.slots@[j].id != id,
            decreases self.slots@.len() - i,
        {
            if self.slots[i].id == id {
                proof {
                    lemma_to_map_index(entity_pairs(self.slots@), i as int);
                }
                return Some(i);
            }
            i += 1;
        }
        proof {
            if has_key(entity_pairs(self.slots@), id) {
                let j = index_of_key(entity_pairs(self.slots@), id);
                assert(self.slots@[j].id == id);
            }
        }
        None
    }

    /// Registers system `s` with requirement `required`, seeding its cache
    /// from one scan of the entities; does nothing if `s` is registered.
    pub(crate) fn register(&mut self, s: u64, required: Vec<u64>)
        requires
            old(self).wf(),
        ensures
            final(self).wf(),
            final(self)@ == old(self)@.registered(s, required@.to_set()),
            final(self).contents() == old(self).contents(),
            final(self).id_order() == old(self).id_order(),
            old(self)@.requirements.contains_key(s) ==> *final(self) == *old(self),
            !old(self)@.requirements.contains_key(s) ==> final(self).cache_order(s) == filter_eligible(
                old(self).id_order(),
                old(self)@.entities,
                required@.to_set(),
            ),
    {
        if self.find_system(s).is_some() {
            return;
        }
        let ghost ep = entity_pairs(self.slots@);
        let ghost req = required@.to_set();
        let mut members: Vec<usize> = Vec::new();
        let mut i: usize = 0;
        while i < self.slots.len()
            invariant
                self.wf(),
                ep == entity_pairs(self.slots@),
                req == required@.to_set(),
                i <= self.slots@.len(),
                members@.no_duplicates(),
                members@ == filter_eligible(self.id_order().subrange(0, i as int), self@.entities, req),
                forall|x: usize| #[trigger] members@.contains(x) <==> exists|j: int| 0 <= j < i && self.slots@[j].id == x
                    && req.subset_of(self.slots@[j].keys@.to_set()),
            decreases self.slots@.len() - i,
        {
            proof {
                let ids = self.id_order().subrange(0, i as int + 1);
                assert(ids.drop_last() =~= self.id_order().subrange(0, i as int));
                assert(ids.last() == self.slots@[i as int].id);
                lemma_to_map_index(ep, i as int);
            }
            if covers(&self.slots[i].keys, &required) {
                proof {
                    assert forall|x: usize| members@.contains(x) implies x != self.slots@[i as int].id by {
                        let j = choose|j: int| 0 <= j < i && self.slots@[j].id == x && req.subset_of(self.slots@[j].keys@.to_set());
                        assert(ep[j].0 != ep[i as int].0);
                    }
                }
                let ghost before = members@;
                members.push(self.slots[i].id);
                proof {
                    assert(!before.contains(self.slots@[i as int].id));
                    assert forall|a: int, b: int| 0 <= a < members@.len() && 0 <= b < members@.len() && a != b implies members@[a] != members@[b] by {
                        if a == before.len() {
                            assert(before[b] == members@[b]);
                        } else if b == before.len() {
                            assert(before[a] == members@[a]);
                        } else {
                            assert(before[a] == members@[a] && before[b] == members@[b]);
                        }
                    }
                    assert forall|x: usize| #[trigger] members@.contains(x) <==> exists|j: int| 0 <= j < i + 1 && self.slots@[j].id == x
                        && req.subset_of(self.slots@[j].keys@.to_set()) by {
                        if members@.contains(x) {
                            let a = choose|a: int| 0 <= a < members@.len() && members@[a] == x;
                            if a < before.len() {
                                assert(before[a] == x);
                                assert(before.contains(x));
                            }
                        }
                        if x == self.slots@[i as int].id {
                            assert(members@[before.len() as int] == x);
                        }
                        if exists|j: int| 0 <= j < i && self.slots@[j].id == x && req.subset_of(self.slots@[j].keys@.to_set()) {
                            assert(before.contains(x));
                            let a = choose|a: int| 0 <= a < before.len() && before[a] == x;
                            assert(members@[a] == x);
                        }
                    }
                }
            }
            i += 1;
        }
        proof {
            let m = self@;
            assert(self.id_order().subrange(0, self.slots@.len() as int) =~= self.id_order());
            assert forall|x: usize| #[trigger] members@.to_set().contains(x) == eligible_ids(m.entities, req).contains(x) by {
                if members@.contains(x) {
                    let j = choose|j: int| 0 <= j < self.slots@.len() && self.slots@[j].id == x && req.subset_of(self.slots@[j].keys@.to_set());
                    lemma_to_map_index(ep, j);
                }
                if eligible_ids(m.entities, req).contains(x) {
                    lemma_to_map_key(ep, x);
                    let j = index_of_key(ep, x);
                    assert(self.slots@[j].id == x);
                }
            }
            assert(members@.to_set() =~= eligible_ids(m.entities, req));
            lemma_registered_consistent(m, s, req);
        }
        let ghost old_systems = self.systems@;
        let ghost mset = members@.to_set();
        let ghost mseq = members@;
        self.systems.push(Registration { system: s, required, members });
        proof {
            let rp = requirement_pairs(old_systems);
            let cp = cache_pairs(old_systems);
            assert(requirement_pairs(self.systems@) =~= rp.push((s, req)));
            assert(cache_pairs(self.systems@) =~= cp.push((s, mset)));
            lemma_to_map_push(rp, s, req);
            lemma_to_map_push(cp, s, mset);
            lemma_to_map_index(requirement_pairs(self.systems@), old_systems.len() as int);
            assert(self.cache_order(s) == mseq);
            assert forall|j: int| 0 <= j < self.systems@.len() implies (#[trigger] self.systems@[j]).members@.no_duplicates() by {
                if j < old_systems.len() {
                    assert(self.systems@[j] == old_systems[j]);
                }
            }
        }
    }


    /// Hands out the next identifier.
    pub(crate) fn next_identifier(&mut self) -> (r: usize)
        requires
            old(self).wf(),
            old(self)@.last_id < usize::MAX,
        ensures
            final(self).wf(),
            r == old(self)@.next_id(),
            final(self)@ == (EcsModel { last_id: old(self)@.next_id(), ..old(self)@ }),
            final(self).contents() == old(self).contents(),
            final(self).id_order() == old(self).id_order(),
            forall|s: u64| #[trigger] final(self).cache_order(s) == old(self).cache_order(s),
    {
        self.last_id = self.last_id + 1;
        self.last_id
    }

    /// Takes the data of entity `id` out of the world for a run: `None` when
    /// the world does not hold `id`, `BorrowConflict` when a run holds it
    /// already.
    pub(crate) fn check_out(&mut self, id: usize) -> (r: Result<Option<Entity<C>>, EcsError>)
        requires
            old(self).wf(),
        ensures
            final(self).wf(),
            final(self)@ == old(self)@,
            r == Ok::<Option<Entity<C>>, EcsError>(None) <==> !old(self)@.entities.contains_key(id),
            r is Err <==> old(self).held(id),
            r matches Err(e) ==> e == EcsError::BorrowConflict,
            r matches Ok(Some(e)) ==> e.id() == id && e.key_set() == old(self)@.entities[id]
                && old(self).contents()[id] == Some(e@)
                && final(self).contents() == old(self).contents().insert(id, None),
            !(r matches Ok(Some(_))) ==> final(self).contents() == old(self).contents(),
    {
        proof {
            self.lemma_contents();
        }
        match self.find_slot(id) {
            None => Ok(None),
            Some(i) => {
                let ghost before = self.slots@;
                proof {
                    old(self).lemma_contents();
                }
                let taken = self.slots[i].entity.take();
                proof {
                    let cpo = content_pairs(before);
                    if taken is Some {
                        assert(content_pairs(self.slots@) =~= cpo.update(i as int, (id, None)));
                        lemma_to_map_update(cpo, i as int, None);
                    } else {
                        assert(content_pairs(self.slots@) =~= cpo);
                    }
                    let ep = entity_pairs(before);
                    assert(entity_pairs(self.slots@) =~= ep);
                    lemma_to_map_index(ep, i as int);
                    assert forall|j: int| 0 <= j < self.slots@.len() implies ((#[trigger] self.slots@[j]).entity matches Some(e) ==> e.id()
                        == self.slots@[j].id && e.key_set() == self.slots@[j].keys@.to_set()) by {
                        if j != i {
                            assert(self.slots@[j] == before[j]);
                        }
                    }
                }
                match taken {
                    None => Err(EcsError::BorrowConflict),
                    Some(e) => Ok(Some(e)),
                }
            },
        }
    }

    /// Gives entity `id` its data back after a run; when the world no
    /// longer holds `id`, the data is dropped. The entity comes back with the
    /// identifier and keys it left with.
    pub(crate) fn check_in(&mut self, id: usize, entity: Entity<C>)
        requires
            old(self).wf(),
            entity.id() == id,
            old(self)@.entities.contains_key(id) ==> entity.key_set() == old(self)@.entities[id],
        ensures
            final(self).wf(),
            final(self)@ == old(self)@,
            old(self)@.entities.contains_key(id) ==> final(self).contents() == old(self).contents().insert(id, Some(entity@)),
            !old(self)@.entities.contains_key(id) ==> final(self).contents() == old(self).contents(),
            !final(self).held(id),
    {
        proof {
            self.lemma_contents();
        }
        match self.find_slot(id) {
            None => {},
            Some(i) => {
                let ghost ev = entity@;
                let ghost before = self.slots@;
                proof {
                    lemma_to_map_index(entity_pairs(before), i as int);
                }
                self.slots[i].entity = Some(entity);
                proof {
                    let cpo = content_pairs(before);
                    assert(content_pairs(self.slots@) =~= cpo.update(i as int, (id, Some(ev))));
                    lemma_to_map_update(cpo, i as int, Some(ev));
                    let ep = entity_pairs(before);
                    assert(entity_pairs(self.slots@) =~= ep);
                    assert forall|j: int| 0 <= j < self.slots@.len() implies ((#[trigger] self.slots@[j]).entity matches Some(e) ==> e.id()
                        == self.slots@[j].id && e.key_set() == self.slots@[j].keys@.to_set()) by {
                        if j != i {
                            assert(self.slots@[j] == before[j]);
                        }
                    }
                }
            },
        }
    }

    /// The data of entity `id`, unless the world does not hold it or a run
    /// holds it.
    pub(crate) fn entity_ref(&self, id: usize) -> (r: Option<&Entity<C>>)
        requires
            self.wf(),
        ensures
            r is None <==> !self.contents().contains_key(id) || self.contents()[id] is None,
            r matches Some(e) ==> e.id() == id && e.key_set() == self@.entities[id] && self.contents()[id] == Some(e@),
            self.contents().dom() == self@.entities.dom(),
    {
        proof {
            self.lemma_contents();
        }
        match self.find_slot(id) {
            None => None,
            Some(i) => {
                proof {
                    lemma_to_map_index(entity_pairs(self.slots@), i as int);
                }
                self.slots[i].entity.as_ref()
            },
        }
    }

    /// The identifiers of the entities in the world, in order of admission.
    pub(crate) fn entity_ids(&self) -> (r: Vec<usize>)
        requires
            self.wf(),
        ensures
            r@.to_set() == self@.entities.dom(),
            r@.no_duplicates(),
            r@ == self.id_order(),
    {
        let ghost ep = entity_pairs(self.slots@);
        let mut r: Vec<usize> = Vec::new();
        let mut i: usize = 0;
        while i < self.slots.len()
            invariant
                self.wf(),
                ep == entity_pairs(self.slots@),
                i <= self.slots@.len(),
                r@.len() == i,
                forall|j: int| 0 <= j < i ==> #[trigger] r@[j] == self.slots@[j].id,
            decreases self.slots@.len() - i,
        {
            r.push(self.slots[i].id);
            i += 1;
        }
        proof {
            assert forall|a: int, b: int| 0 <= a < r@.len() && 0 <= b < r@.len() && a != b implies r@[a] != r@[b] by {
                assert(ep[a].0 != ep[b].0);
            }
            assert forall|x: usize| #[trigger] r@.to_set().contains(x) == self@.entities.dom().contains(x) by {
                if r@.contains(x) {
                    let a = choose|a: int| 0 <= a < r@.len() && r@[a] == x;
                    lemma_to_map_index(ep, a);
                }
                if self@.entities.contains_key(x) {
                    lemma_to_map_key(ep, x);
                    let a = index_of_key(ep, x);
                    assert(r@[a] == x);
                }
            }
            assert(r@.to_set() =~= self@.entities.dom());
            assert(r@ =~= self.id_order());
        }
        r
    }

    /// The keys system `s` requires, if it is registered.
    pub(crate) fn required_of(&self, s: u64) -> (r: Option<Vec<u64>>)
        requires
            self.wf(),
        ensures
            r is None <==> !self@.requirements.contains_key(s),
            r matches Some(v) ==> v@.to_set() == self@.requirements[s],
    {
        match self.find_system(s) {
            None => None,
            Some(j) => Some(copy_all(&self.systems[j].required)),
        }
    }

    /// The cache of system `s` in dispatch order, if it is registered.
    pub(crate) fn cache_of(&self, s: u64) -> (r: Option<Vec<usize>>)
        requires
            self.wf(),
        ensures
            r is None <==> !self@.requirements.contains_key(s),
            r matches Some(v) ==> v@.to_set() == self@.caches[s] && v@.no_duplicates() && v@ == self.cache_order(s),
    {
        match self.find_system(s) {
            None => None,
            Some(j) => {
                proof {
                    lemma_to_map_index(requirement_pairs(self.systems@), j as int);
                }
                Some(copy_all(&self.systems[j].members))
            },
        }
    }
}

} // verus!
