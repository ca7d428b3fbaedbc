//! Entity identifiers and a per-entity component store.

use vstd::prelude::*;
use crate::archetype::lemma_index_of_unique;
use crate::component::{Component, KindId};

verus! {

/// An opaque, monotonically increasing entity identifier.
pub type EntityId = u32;

/// Stores at most one component value per kind: a flat model of a
/// type-tag-keyed store.  Kinds and values are kept in two parallel vectors;
/// `kinds` holds no duplicate, so each kind owns exactly one slot.
pub struct ComponentStorage<V> {
    kinds: Vec<KindId>,
    values: Vec<V>,
}

impl<V: Component> ComponentStorage<V> {
    /// The store as a mathematical map from kind to stored value.
    pub closed spec fn as_map(&self) -> Map<KindId, V> {
        Map::new(
            |k: KindId| self.kinds@.contains(k),
            |k: KindId| self.values@[self.kinds@.index_of(k)],
        )
    }

    /// Internal well-formedness: one slot per kind, slots and kinds aligned.
    pub closed spec fn wf(&self) -> bool {
        &&& self.kinds@.no_duplicates()
        &&& self.kinds@.len() == self.values@.len()
    }

    /// Creates an empty store.
    pub fn new() -> (r: Self)
        ensures
            r.wf(),
            r.as_map() == Map::<KindId, V>::empty(),
    {
        let r = ComponentStorage { kinds: Vec::new(), values: Vec::new() };
        proof {
            assert(r.as_map() =~~= Map::<KindId, V>::empty());
        }
        r
    }

    /// Inserts `component` under `kind`, replacing any value the kind held.
    #[verifier::loop_isolation(false)]
    pub fn insert(&mut self, kind: KindId, component: V)
        requires
            old(self).wf(),
        ensures
            final(self).wf(),
            final(self).as_map() == old(self).as_map().insert(kind, component),
    {
        let n = self.kinds.len();
        let mut i: usize = 0;
        while i < n
            invariant
                n == self.kinds@.len(),
                i <= n,
                *self == *old(self),
                forall|j: int| 0 <= j < i ==> self.kinds@[j] != kind,
            decreases n - i,
        {
            if self.kinds[i] == kind {
                self.values[i] = component;
                proof {
                    let ks = old(self).kinds@;
                    lemma_index_of_unique(ks, kind);
                    assert(i as int == ks.index_of(kind));
                    assert forall|k: KindId| #[trigger] ks.contains(k) implies
                        ks[ks.index_of(k)] == k && 0 <= ks.index_of(k) < ks.len()
                    by {
                        lemma_index_of_unique(ks, k);
                    }
                    assert(self.as_map() =~~= old(self).as_map().insert(kind, component));
                }
                return;
            }
            i += 1;
        }
        assert(!old(self).kinds@.contains(kind));
        self.kinds.push(kind);
        self.values.push(component);
        proof {
            let oldk = old(self).kinds@;
            let len = oldk.len() as int;
            assert forall|i2: int, j2: int| 0 <= i2 < j2 < self.kinds@.len() implies
                self.kinds@[i2] != self.kinds@[j2]
            by {
                if j2 < len {
                    assert(oldk.no_duplicates());
                } else {
                    assert(self.kinds@[j2] == kind);
                    assert(oldk.contains(oldk[i2]));
                }
            }
            assert(self.kinds@.no_duplicates());
            assert forall|k: KindId| #[trigger] self.kinds@.contains(k) implies
                oldk.contains(k) || k == kind
            by {
                let w = choose|i3: int| 0 <= i3 < self.kinds@.len() && self.kinds@[i3] == k;
                if w < len {
                    assert(oldk[w] == k);
                }
            }
            assert forall|k: KindId| oldk.contains(k) || k == kind implies
                #[trigger] self.kinds@.contains(k)
            by {
                if oldk.contains(k) {
                    let w = choose|i3: int| 0 <= i3 < len && oldk[i3] == k;
                    assert(self.kinds@[w] == k);
                } else {
                    assert(self.kinds@[len] == k);
                }
            }
            assert forall|k: KindId| #[trigger] self.kinds@.contains(k) implies
                self.values@[self.kinds@.index_of(k)]
                    == old(self).as_map().insert(kind, component)[k]
            by {
                lemma_index_of_unique(self.kinds@, k);
                if k == kind {
                    assert(self.kinds@[len] == k);
                    assert(self.kinds@.index_of(k) == len);
                } else {
                    lemma_index_of_unique(oldk, k);
                    let i0 = oldk.index_of(k);
                    assert(self.kinds@[i0] == k);
                    assert(self.kinds@.index_of(k) == i0);
                }
            }
            assert(self.as_map() =~~= old(self).as_map().insert(kind, component));
        }
    }

    /// Returns a read reference to the component of kind `kind`, absent if
    /// the kind holds no value.
    #[verifier::loop_isolation(false)]
    pub fn get(&self, kind: KindId) -> (r: Option<&V>)
        requires
            self.wf(),
        ensures
            match r {
                Some(v) => self.as_map().contains_key(kind) && *v == self.as_map()[kind],
                None => !self.as_map().contains_key(kind),
            },
    {
        let n = self.kinds.len();
        let mut i: usize = 0;
        while i < n
            invariant
                self.wf(),
                n == self.kinds@.len(),
                i <= n,
                forall|j: int| 0 <= j < i ==> self.kinds@[j] != kind,
            decreases n - i,
        {
            if self.kinds[i] == kind {
                proof {
                    lemma_index_of_unique(self.kinds@, kind);
                }
                return Some(&self.values[i]);
            }
            i += 1;
        }
        None
    }

    /// Returns a write reference to the component of kind `kind`, absent if
    /// the kind holds no value.
    #[verifier::loop_isolation(false)]
    pub fn get_mut(&mut self, kind: KindId) -> (r: Option<&mut V>)
        requires
            old(self).wf(),
        ensures
            match r {
                Some(v) => {
                    &&& old(self).as_map().contains_key(kind)
                    &&& *v == old(self).as_map()[kind]
                    &&& final(self).wf()
                    &&& forall|k: KindId| #[trigger] final(self).as_map().contains_key(k)
                            <==> old(self).as_map().contains_key(k)
                    &&& final(self).as_map()[kind] == *final(v)
                    &&& forall|k: KindId| k != kind && #[trigger] old(self).as_map().contains_key(k)
                            ==> final(self).as_map()[k] == old(self).as_map()[k]
                },
                None => !old(self).as_map().contains_key(kind) && *final(self) == *old(self),
            },
    {
        let n = self.kinds.len();
        let mut i: usize = 0;
        while i < n
            invariant
                n == self.kinds@.len(),
                i <= n,
                *self == *old(self),
                forall|j: int| 0 <= j < i ==> self.kinds@[j] != kind,
            decreases n - i,
        {
            if self.kinds[i] == kind {
                proof {
                    let ks = old(self).kinds@;
                    lemma_index_of_unique(ks, kind);
                    assert(i as int == ks.index_of(kind));
                    assert forall|k: KindId| #[trigger] ks.contains(k) implies
                        ks[ks.index_of(k)] == k && 0 <= ks.index_of(k) < ks.len()
                    by {
                        lemma_index_of_unique(ks, k);
                    }
                }
                return Some(&mut self.values[i]);
            }
            i += 1;
        }
        None
    }
}

} // verus!
