//! What makes a value storable on an entity.
use vstd::prelude::*;

verus! {

/// A unit of data that an entity can carry. Every value reports the key of
/// its component type; an entity holds at most one component per key.
///
/// The keys are chosen by the program; nothing checks that two component
/// types report different keys, and two that do not count as one type.
pub trait Component {
    /// The key of this value's component type.
    spec fn type_key_spec(&self) -> u64;

    /// Returns the key of this value's component type; the same value always
    /// reports the same key.
    fn type_key(&self) -> (k: u64)
        ensures
            k == self.type_key_spec(),
    ;
}

/// Every component in `m` is stored under the key of its own type.
pub open spec fn keys_match<C: Component>(m: Map<u64, C>) -> bool {
    forall|k: u64| #[trigger] m.contains_key(k) ==> m[k].type_key_spec() == k
}

} // verus!
