//! The abstract state of a world, and how each operation changes it.
use vstd::prelude::*;

verus! {

/// `s` with the entry `id` taken out, when it has one.
pub open spec fn without_id(s: Seq<usize>, id: usize) -> Seq<usize> {
    if s.contains(id) {
        s.remove(choose|k: int| 0 <= k < s.len() && s[k] == id)
    } else {
        s
    }
}

/// In a sequence without repeats, taking `id` out removes the one position
/// that holds it.
pub proof fn lemma_without_id(s: Seq<usize>, p: int)
    requires
        s.no_duplicates(),
        0 <= p < s.len(),
    ensures
        without_id(s, s[p]) == s.remove(p),
{
    assert(s.contains(s[p]));
    let k = choose|k: int| 0 <= k < s.len() && s[k] == s[p];
    assert(k == p);
}

/// The entries of `ids`, in order, whose keys in `entities` cover
/// `required`.
pub open spec fn filter_eligible(ids: Seq<usize>, entities: Map<usize, Set<u64>>, required: Set<u64>) -> Seq<usize>
    decreases ids.len(),
{
    if ids.len() == 0 {
        Seq::empty()
    } else {
        let rest = filter_eligible(ids.drop_last(), entities, required);
        if required.subset_of(entities[ids.last()]) {
            rest.push(ids.last())
        } else {
            rest
        }
    }
}

/// `a` is `b` with some entries left out, the rest kept in order.
pub open spec fn is_subsequence(a: Seq<usize>, b: Seq<usize>) -> bool {
    exists|idx: Seq<int>|
        idx.len() == a.len() && (forall|j: int| 0 <= j < idx.len() ==> 0 <= #[trigger] idx[j] < b.len() && b[idx[j]] == a[j])
            && (forall|j: int, k: int| 0 <= j < k < idx.len() ==> idx[j] < idx[k])
}

/// `ran` lists, in the order of `snap`, every entry of `snap` except some
/// that `present` no longer holds; `snap` has no repeats.
pub open spec fn dispatched_from(ran: Seq<usize>, snap: Seq<usize>, present: Set<usize>) -> bool {
    &&& snap.no_duplicates()
    &&& is_subsequence(ran, snap)
    &&& forall|j: int| 0 <= j < snap.len() ==> ran.contains(#[trigger] snap[j]) || !present.contains(snap[j])
}

/// The identifiers of the entities in `entities` whose keys cover `required`.
pub open spec fn eligible_ids(entities: Map<usize, Set<u64>>, required: Set<u64>) -> Set<usize> {
    Set::new(|id: usize| entities.contains_key(id) && required.subset_of(entities[id]))
}

/// What a world holds, seen from outside: each entity's component keys, each
/// registered system's required keys, each system's cache of eligible
/// entities, and the last identifier handed out.
pub struct EcsModel {
    pub entities: Map<usize, Set<u64>>,
    pub requirements: Map<u64, Set<u64>>,
    pub caches: Map<u64, Set<usize>>,
    pub last_id: nat,
}

impl EcsModel {
    /// A world with no entity and no system.
    pub open spec fn empty() -> EcsModel {
        EcsModel {
            entities: Map::empty(),
            requirements: Map::empty(),
            caches: Map::empty(),
            last_id: 0,
        }
    }

    /// Every registered system has a cache, which holds exactly the entities
    /// whose keys cover the system's requirement; every identifier in use was
    /// handed out already.
    pub open spec fn consistent(self) -> bool {
        &&& self.caches.dom() == self.requirements.dom()
        &&& forall|s: u64| #[trigger]
            self.caches.contains_key(s) ==> self.caches[s] == eligible_ids(
                self.entities,
                self.requirements[s],
            )
        &&& forall|id: usize| #[trigger]
            self.entities.contains_key(id) ==> 0 < id <= self.last_id
    }

    /// The entity `id` with keys `keys` joins the world and the cache of each
    /// system whose requirement its keys cover.
    pub open spec fn with_entity(self, id: usize, keys: Set<u64>) -> EcsModel {
        EcsModel {
            entities: self.entities.insert(id, keys),
            caches: Map::new(
                |s: u64| self.caches.contains_key(s),
                |s: u64|
                    if self.requirements[s].subset_of(keys) {
                        self.caches[s].insert(id)
                    } else {
                        self.caches[s]
                    },
            ),
            ..self
        }
    }

    /// The entity `id` leaves the world and every cache.
    pub open spec fn without_entity(self, id: usize) -> EcsModel {
        EcsModel {
            entities: self.entities.remove(id),
            caches: Map::new(|s: u64| self.caches.contains_key(s), |s: u64| self.caches[s].remove(id)),
            ..self
        }
    }

    /// The identifier that the next admitted entity receives.
    pub open spec fn next_id(self) -> nat {
        self.last_id + 1
    }

    /// An entity with keys `keys` is admitted under the next identifier.
    pub open spec fn admitted(self, keys: Set<u64>) -> EcsModel {
        EcsModel { last_id: self.next_id(), ..self.with_entity(self.next_id() as usize, keys) }
    }

    /// The system `s` is registered with requirement `required`, unless it is
    /// registered already; its cache is seeded from the entities present.
    pub open spec fn registered(self, s: u64, required: Set<u64>) -> EcsModel {
        if self.requirements.contains_key(s) {
            self
        } else {
            EcsModel {
                requirements: self.requirements.insert(s, required),
                caches: self.caches.insert(s, eligible_ids(self.entities, required)),
                ..self
            }
        }
    }

    /// The entities that a run of system `s` with requirement `required`
    /// dispatches to: its cache once it is registered.
    pub open spec fn dispatch_set(self, s: u64, required: Set<u64>) -> Set<usize> {
        self.registered(s, required).caches[s]
    }
}

/// The empty world is consistent.
pub proof fn lemma_empty_consistent()
    ensures
        EcsModel::empty().consistent(),
{
}

/// Adding an entity under an unused identifier keeps every cache exact.
pub proof fn lemma_with_entity_consistent(m: EcsModel, id: usize, keys: Set<u64>)
    requires
        m.consistent(),
        !m.entities.contains_key(id),
        0 < id <= m.last_id,
    ensures
        m.with_entity(id, keys).consistent(),
{
    let n = m.with_entity(id, keys);
    assert forall|s: u64| #[trigger] n.caches.contains_key(s) implies n.caches[s] == eligible_ids(
        n.entities,
        n.requirements[s],
    ) by {
        assert(n.caches[s] =~= eligible_ids(n.entities, n.requirements[s]));
    }
    assert(n.caches.dom() =~= n.requirements.dom());
}

/// Removing an entity keeps every cache exact.
pub proof fn lemma_without_entity_consistent(m: EcsModel, id: usize)
    requires
        m.consistent(),
    ensures
        m.without_entity(id).consistent(),
{
    let n = m.without_entity(id);
    assert forall|s: u64| #[trigger] n.caches.contains_key(s) implies n.caches[s] == eligible_ids(
        n.entities,
        n.requirements[s],
    ) by {
        assert(n.caches[s] =~= eligible_ids(n.entities, n.requirements[s]));
    }
    assert(n.caches.dom() =~= n.requirements.dom());
}

/// Registering a system keeps every cache exact, the new one included.
pub proof fn lemma_registered_consistent(m: EcsModel, s: u64, required: Set<u64>)
    requires
        m.consistent(),
    ensures
        m.registered(s, required).consistent(),
{
    let r = m.registered(s, required);
    if !m.requirements.contains_key(s) {
        assert(r.caches.dom() =~= r.requirements.dom());
    }
}

/// Cache exactness holds after every admission, removal and registration,
/// in whatever order they come.
pub proof fn lemma_operations_keep_caches_exact(
    m: EcsModel,
    keys: Set<u64>,
    id: usize,
    s: u64,
    required: Set<u64>,
)
    requires
        m.consistent(),
        m.next_id() <= usize::MAX,
    ensures
        m.admitted(keys).consistent(),
        m.without_entity(id).consistent(),
        m.registered(s, required).consistent(),
{
    let a = EcsModel { last_id: m.next_id(), ..m };
    assert(a.consistent());
    lemma_with_entity_consistent(a, m.next_id() as usize, keys);
    assert(m.admitted(keys) == a.with_entity(m.next_id() as usize, keys));
    lemma_without_entity_consistent(m, id);
    lemma_registered_consistent(m, s, required);
}

/// Registering a system a second time changes nothing, whatever requirement
/// the second call brings.
pub proof fn lemma_register_idempotent(m: EcsModel, s: u64, first: Set<u64>, second: Set<u64>)
    ensures
        m.registered(s, first).registered(s, second) == m.registered(s, first),
        m.registered(s, first).requirements[s] == if m.requirements.contains_key(s) {
            m.requirements[s]
        } else {
            first
        },
{
}

/// The identifier handed to an admitted entity is larger than every
/// identifier handed out before, so no entity, present or removed, shares it;
/// and the counter only grows.
pub proof fn lemma_identifiers_fresh(m: EcsModel, keys: Set<u64>)
    requires
        m.consistent(),
    ensures
        forall|id: usize| #[trigger] m.entities.contains_key(id) ==> id < m.next_id(),
        m.admitted(keys).last_id == m.next_id(),
        m.next_id() > m.last_id,
        m.admitted(keys).next_id() > m.next_id(),
{
}

/// Running a system that is not registered dispatches to the same entities,
/// and leaves the same registration behind, as registering it first and
/// then running it.
pub proof fn lemma_run_registers_first(m: EcsModel, s: u64, required: Set<u64>)
    ensures
        m.registered(s, required).dispatch_set(s, required) == m.dispatch_set(s, required),
        m.registered(s, required).registered(s, required) == m.registered(s, required),
{
}

/// A world that does not hold entity `id`, whose identifier was handed out
/// already, never lists it in any cache again: not after admissions, not
/// after removals, not after registrations.
pub proof fn lemma_removed_stays_out(m: EcsModel, id: usize, keys: Set<u64>, other: usize, s: u64, required: Set<u64>)
    requires
        m.consistent(),
        !m.entities.contains_key(id),
        id <= m.last_id,
        m.next_id() <= usize::MAX,
    ensures
        forall|t: u64| #[trigger] m.caches.contains_key(t) ==> !m.caches[t].contains(id),
        !m.dispatch_set(s, required).contains(id),
        !m.admitted(keys).entities.contains_key(id),
        id <= m.admitted(keys).last_id,
        !m.without_entity(other).entities.contains_key(id),
        !m.registered(s, required).entities.contains_key(id),
        id <= m.registered(s, required).last_id,
{
    lemma_operations_keep_caches_exact(m, keys, other, s, required);
}

} // verus!
