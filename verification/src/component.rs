//! Component kinds, the storable-capability marker, and component bundles.

use vstd::prelude::*;
use crate::archetype::Archetype;
use crate::entity::EntityId;

verus! {

/// A stable per-kind identifier standing in for a runtime type tag: two
/// component values are of the same kind exactly when they carry the same
/// `KindId`.
pub type KindId = u32;

/// Marker capability classifying a value type as storable in a component
/// column.  Storable values are owned plainly and copied on insertion.
pub trait Component: Copy {

}

/// A transient tuple of component values supplied at spawn time: each value
/// tagged with its kind, kinds pairwise distinct.  Its only roles are to
/// declare its kind set, to register missing columns, and to append one
/// aligned row of values into an archetype.
pub struct ComponentBundle<V> {
    items: Vec<(KindId, V)>,
}

impl<V: Component> ComponentBundle<V> {
    /// The bundled values, each with its kind, in the order supplied.
    pub closed spec fn items_seq(&self) -> Seq<(KindId, V)> {
        self.items@
    }

    /// The declared kinds, in the order supplied.
    pub open spec fn kinds(&self) -> Seq<KindId> {
        self.items_seq().map_values(|p: (KindId, V)| p.0)
    }

    /// Well-formedness: kinds are pairwise distinct.
    pub open spec fn wf(&self) -> bool {
        self.kinds().no_duplicates()
    }

    /// Creates an empty bundle.
    pub fn new() -> (r: Self)
        ensures
            r.items_seq() == Seq::<(KindId, V)>::empty(),
            r.wf(),
    {
        let r = ComponentBundle { items: Vec::new() };
        proof {
            assert(r.kinds() =~= Seq::<KindId>::empty());
        }
        r
    }

    /// Adds one component value of a kind the bundle does not hold yet.
    pub fn with(self, kind: KindId, value: V) -> (r: Self)
        requires
            !self.kinds().contains(kind),
        ensures
            r.items_seq() == self.items_seq().push((kind, value)),
            r.kinds() == self.kinds().push(kind),
            self.wf() ==> r.wf(),
    {
        let mut b = self;
        let ghost before = b.kinds();
        b.items.push((kind, value));
        proof {
            assert(b.kinds() =~= before.push(kind));
            if before.no_duplicates() {
                crate::archetype::lemma_push_no_duplicates(before, kind);
            }
        }
        b
    }

    /// The kind tokens of the bundled values, in bundle order.
    #[verifier::loop_isolation(false)]
    pub fn type_ids(&self) -> (r: Vec<KindId>)
        ensures
            r@ == self.kinds(),
    {
        let n = self.items.len();
        let mut out: Vec<KindId> = Vec::new();
        let mut idx: usize = 0;
        while idx < n
            invariant
                idx <= n,
                out@ == self.kinds().take(idx as int),
            decreases n - idx,
        {
            let (k, v) = self.items[idx];
            out.push(k);
            proof {
                assert(self.kinds().take(idx + 1) =~= self.kinds().take(idx as int).push(k));
            }
            idx += 1;
        }
        proof {
            assert(self.kinds().take(n as int) =~= self.kinds());
        }
        out
    }

    /// Idempotently creates any column the archetype is missing for a kind of
    /// this bundle, leaving existing columns untouched.  A missing column may
    /// only be created while the archetype has no rows.
    #[verifier::loop_isolation(false)]
    pub fn register(&self, archetype: &mut Archetype<V>)
        requires
            old(archetype).wf(),
            old(archetype).row_count() == 0
                || forall|k: KindId| self.kinds().contains(k) ==> old(archetype).has_kind(k),
        ensures
            final(archetype).wf(),
            final(archetype).entity_seq() == old(archetype).entity_seq(),
            final(archetype).kind_set() == old(archetype).kind_set().union(self.kinds().to_set()),
            forall|k: KindId| #[trigger] old(archetype).has_kind(k) ==>
                final(archetype).has_kind(k)
                && final(archetype).column(k) == old(archetype).column(k),
    {
        let n = self.items.len();
        let mut idx: usize = 0;
        proof {
            assert(old(archetype).kind_set().union(self.kinds().take(0).to_set())
                =~= old(archetype).kind_set());
        }
        while idx < n
            invariant
                idx <= n,
                archetype.wf(),
                archetype.entity_seq() == old(archetype).entity_seq(),
                archetype.kind_set() == old(archetype).kind_set().union(
                    self.kinds().take(idx as int).to_set()),
                forall|k: KindId| #[trigger] old(archetype).has_kind(k) ==>
                    archetype.has_kind(k)
                    && archetype.column(k) == old(archetype).column(k),
            decreases n - idx,
        {
            let (k, v) = self.items[idx];
            proof {
                assert(self.kinds()[idx as int] == k);
                if old(archetype).row_count() != 0 {
                    assert(self.kinds().contains(k));
                    assert(old(archetype).has_kind(k));
                }
            }
            archetype.register(k);
            proof {
                self.kinds().take(idx as int).lemma_push_to_set_commute(k);
                assert(self.kinds().take(idx + 1) =~= self.kinds().take(idx as int).push(k));
                assert(archetype.kind_set() =~= old(archetype).kind_set().union(
                    self.kinds().take(idx + 1).to_set()));
            }
            idx += 1;
        }
        proof {
            assert(self.kinds().take(n as int) =~= self.kinds());
        }
    }

    /// Appends one aligned row: pushes `entity` onto the entity list and each
    /// bundled value onto its kind's column, growing every column and the
    /// entity list together.
    #[verifier::loop_isolation(false)]
    pub fn insert_into(&self, archetype: &mut Archetype<V>, entity: EntityId)
        requires
            self.wf(),
            old(archetype).wf(),
            old(archetype).kind_set() == self.kinds().to_set(),
        ensures
            final(archetype).wf(),
            final(archetype).kind_seq() == old(archetype).kind_seq(),
            final(archetype).entity_seq() == old(archetype).entity_seq().push(entity),
            forall|i: int| 0 <= i < self.items_seq().len() ==>
                final(archetype).column((#[trigger] self.items_seq()[i]).0)
                    == old(archetype).column(self.items_seq()[i].0).push(self.items_seq()[i].1),
    {
        archetype.push_entity(entity);
        let n = self.items.len();
        let mut idx: usize = 0;
        while idx < n
            invariant
                idx <= n,
                archetype.kinds_wf(),
                archetype.kind_seq() == old(archetype).kind_seq(),
                archetype.entity_seq() == old(archetype).entity_seq().push(entity),
                forall|j: int| 0 <= j < idx ==>
                    archetype.column((#[trigger] self.items_seq()[j]).0)
                        == old(archetype).column(self.items_seq()[j].0).push(
                            self.items_seq()[j].1),
                forall|k: KindId| #[trigger] old(archetype).has_kind(k)
                    && !self.kinds().take(idx as int).contains(k) ==>
                        archetype.column(k) == old(archetype).column(k),
            decreases n - idx,
        {
            let (k, v) = self.items[idx];
            proof {
                assert(self.kinds()[idx as int] == k);
                assert(self.kinds().contains(k));
                assert(old(archetype).kind_set().contains(k));
                assert(old(archetype).has_kind(k));
                assert(!self.kinds().take(idx as int).contains(k)) by {
                    if self.kinds().take(idx as int).contains(k) {
                        let j = choose|j: int| 0 <= j < idx && self.kinds().take(idx as int)[j] == k;
                        assert(self.kinds()[j] == self.kinds()[idx as int]);
                    }
                }
            }
            let ghost pre = *archetype;
            archetype.push_value(k, v);
            proof {
                assert forall|j: int| 0 <= j < idx + 1 implies
                    archetype.column((#[trigger] self.items_seq()[j]).0)
                        == old(archetype).column(self.items_seq()[j].0).push(self.items_seq()[j].1)
                by {
                    let kj = self.items_seq()[j].0;
                    assert(self.kinds()[j] == kj);
                    if j < idx {
                        assert(kj != k);
                        assert(self.kinds().contains(kj));
                        assert(old(archetype).kind_set().contains(kj));
                        assert(old(archetype).has_kind(kj));
                        assert(pre.has_kind(kj));
                        assert(archetype.column(kj) == pre.column(kj));
                    }
                }
                assert forall|k2: KindId| #[trigger] old(archetype).has_kind(k2)
                    && !self.kinds().take(idx + 1).contains(k2) implies
                        archetype.column(k2) == old(archetype).column(k2)
                by {
                    assert(self.kinds().take(idx + 1)[idx as int] == k);
                    assert(self.kinds().take(idx + 1).contains(k));
                    assert(k2 != k);
                    assert(!self.kinds().take(idx as int).contains(k2)) by {
                        if self.kinds().take(idx as int).contains(k2) {
                            let j = choose|j: int| 0 <= j < idx
                                && self.kinds().take(idx as int)[j] == k2;
                            assert(self.kinds().take(idx + 1)[j] == k2);
                        }
                    }
                    assert(pre.has_kind(k2));
                    assert(pre.column(k2) == old(archetype).column(k2));
                    assert(archetype.column(k2) == pre.column(k2));
                }
            }
            idx += 1;
        }
        proof {
            assert forall|k: KindId| #[trigger] archetype.has_kind(k) implies
                archetype.column(k).len() == archetype.row_count()
            by {
                assert(archetype.kind_set().contains(k));
                assert(self.kinds().to_set().contains(k));
                assert(self.kinds().contains(k));
                let j = choose|j: int| 0 <= j < self.kinds().len() && self.kinds()[j] == k;
                assert(self.items_seq()[j].0 == k);
                assert(archetype.column(k)
                    == old(archetype).column(k).push(self.items_seq()[j].1));
                assert(old(archetype).has_kind(k));
            }
        }
    }
}

} // verus!
