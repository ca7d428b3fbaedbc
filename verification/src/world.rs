//! The world: owns every archetype, keyed by archetype identity, plus the
//! index from entity to its archetype, and exposes spawn/read/write over
//! entities.

use vstd::prelude::*;
use crate::archetype::{Archetype, ArchetypeId};
use crate::archetype::{lemma_identity_order_independent, lemma_index_of_unique,
    lemma_push_no_duplicates};
use crate::component::{Component, ComponentBundle, KindId};
use crate::entity::EntityId;

verus! {

/// Owns the archetype table and the entity index.  Entity identifiers are
/// dense: the entities ever spawned are exactly `0 .. entity_count()`, and
/// entity `e` lives in the archetype at position `entity index of e` for its
/// whole lifetime (this design never migrates an entity between archetypes).
pub struct World<V> {
    archetype_ids: Vec<ArchetypeId>,
    archetypes: Vec<Archetype<V>>,
    entity_to_archetype: Vec<usize>,
    next_id: EntityId,
}

impl<V: Component> World<V> {
    /// The archetype identities, by table position.
    pub closed spec fn arch_ids(&self) -> Seq<ArchetypeId> {
        self.archetype_ids@
    }

    /// The archetypes, by table position.
    pub closed spec fn archs(&self) -> Seq<Archetype<V>> {
        self.archetypes@
    }

    /// The entity index: entry `e` is the table position of entity `e`'s
    /// archetype.
    pub closed spec fn index_seq(&self) -> Seq<usize> {
        self.entity_to_archetype@
    }

    /// The identifier the next spawn will return.
    pub closed spec fn next_entity(&self) -> EntityId {
        self.next_id
    }

    /// How many archetypes the world holds.
    pub open spec fn n_archetypes(&self) -> nat {
        self.archs().len()
    }

    /// How many entities were ever spawned.
    pub open spec fn entity_count(&self) -> nat {
        self.index_seq().len()
    }

    /// Whether `e` names a spawned entity.
    pub open spec fn has_entity(&self, e: EntityId) -> bool {
        (e as nat) < self.entity_count()
    }

    /// Well-formedness: identities are canonical, pairwise distinct, and
    /// describe their archetype's kind set exactly; every archetype is
    /// aligned; and the entity index and the archetypes' entity lists name
    /// each other consistently, each entity on exactly one row.
    pub open spec fn wf(&self) -> bool {
        &&& self.arch_ids().len() == self.archs().len()
        &&& self.next_entity() as nat == self.entity_count()
        &&& forall|j: int| 0 <= j < self.n_archetypes() ==> (#[trigger] self.archs()[j]).wf()
        &&& forall|j: int| 0 <= j < self.n_archetypes() ==> (#[trigger] self.arch_ids()[j]).wf()
                && self.arch_ids()[j].kind_set() == self.archs()[j].kind_set()
        &&& forall|j1: int, j2: int| 0 <= j1 < self.n_archetypes() && 0 <= j2 < self.n_archetypes()
                && j1 != j2 ==> (#[trigger] self.arch_ids()[j1])@ != (#[trigger] self.arch_ids()[j2])@
        &&& forall|e: int| 0 <= e < self.entity_count() ==>
                (#[trigger] self.index_seq()[e]) < self.n_archetypes()
                && self.archs()[self.index_seq()[e] as int].entity_seq().contains(e as EntityId)
        &&& forall|j: int| 0 <= j < self.n_archetypes() ==>
                (#[trigger] self.archs()[j]).entity_seq().no_duplicates()
        &&& forall|j: int, i: int| 0 <= j < self.n_archetypes()
                && 0 <= i < self.archs()[j].entity_seq().len() ==>
                (#[trigger] self.archs()[j].entity_seq()[i]) < self.next_entity()
                && self.index_seq()[self.archs()[j].entity_seq()[i] as int] == j
    }

    /// The component of kind `kind` attached to `entity`, absent when the
    /// entity is unknown or its archetype never registered the kind.
    pub open spec fn component_of(&self, entity: EntityId, kind: KindId) -> Option<V> {
        if self.has_entity(entity) {
            let a = self.archs()[self.index_seq()[entity as int] as int];
            if a.has_kind(kind) {
                Some(a.column(kind)[a.entity_seq().index_of(entity)])
            } else {
                None
            }
        } else {
            None
        }
    }

    /// Creates an empty world.
    pub fn new() -> (r: Self)
        ensures
            r.wf(),
            r.entity_count() == 0,
            r.n_archetypes() == 0,
            forall|e: EntityId, k: KindId| r.component_of(e, k) == None::<V>,
    {
        World {
            archetype_ids: Vec::new(),
            archetypes: Vec::new(),
            entity_to_archetype: Vec::new(),
            next_id: 0,
        }
    }

    /// The table position of the archetype whose identity equals `aid`.
    #[verifier::loop_isolation(false)]
    fn find_archetype(&self, aid: &ArchetypeId) -> (r: Option<usize>)
        requires
            self.wf(),
        ensures
            match r {
                Some(j) => (j as nat) < self.n_archetypes() && self.arch_ids()[j as int]@ == aid@,
                None => forall|q: int| 0 <= q < self.n_archetypes() ==>
                    (#[trigger] self.arch_ids()[q])@ != aid@,
            },
    {
        let n = self.archetype_ids.len();
        let mut i: usize = 0;
        while i < n
            invariant
                i <= n,
                forall|q: int| 0 <= q < i ==> (#[trigger] self.arch_ids()[q])@ != aid@,
            decreases n - i,
        {
            if self.archetype_ids[i].eq(aid) {
                return Some(i);
            }
            i += 1;
        }
        None
    }

    /// Spawns a new entity carrying `bundle`: routes the bundle to the
    /// archetype of its kind set (creating and registering it on first use),
    /// appends the bundle as one aligned row, records the entity in the
    /// index, and returns the fresh, strictly increasing identifier.  The
    /// new row is visible to reads immediately, and no other entity's
    /// components change.
    pub fn spawn(&mut self, bundle: ComponentBundle<V>) -> (e: EntityId)
        requires
            old(self).wf(),
            bundle.wf(),
            old(self).entity_count() < u32::MAX as nat,
        ensures
            final(self).wf(),
            e as nat == old(self).entity_count(),
            final(self).entity_count() == old(self).entity_count() + 1,
            final(self).has_entity(e),
            forall|i: int| 0 <= i < bundle.items_seq().len() ==>
                final(self).component_of(e, (#[trigger] bundle.items_seq()[i]).0)
                    == Some(bundle.items_seq()[i].1),
            forall|k: KindId| !bundle.kinds().contains(k) ==>
                final(self).component_of(e, k) == None::<V>,
            forall|e2: EntityId, k: KindId| e2 != e ==>
                final(self).component_of(e2, k) == old(self).component_of(e2, k),
            (exists|q: int| 0 <= q < old(self).n_archetypes()
                && (#[trigger] old(self).arch_ids()[q]).kind_set() == bundle.kinds().to_set())
                ==> final(self).n_archetypes() == old(self).n_archetypes(),
            !(exists|q: int| 0 <= q < old(self).n_archetypes()
                && (#[trigger] old(self).arch_ids()[q]).kind_set() == bundle.kinds().to_set())
                ==> final(self).n_archetypes() == old(self).n_archetypes() + 1
                    && final(self).arch_ids()[old(self).n_archetypes() as int].kind_set()
                        == bundle.kinds().to_set(),
            forall|q: int| 0 <= q < old(self).n_archetypes() ==>
                (#[trigger] final(self).arch_ids()[q]) == old(self).arch_ids()[q],
    {
        let type_ids = bundle.type_ids();
        let aid = ArchetypeId::from_slice(type_ids.as_slice());
        let found = self.find_archetype(&aid);
        let j: usize = match found {
            Some(x) => {
                proof {
                    assert(old(self).arch_ids()[x as int].kind_set() == aid.kind_set());
                    assert(old(self).archs()[x as int].kind_set() == bundle.kinds().to_set());
                }
                x
            },
            None => {
                proof {
                    assert forall|q: int| 0 <= q < old(self).n_archetypes() implies
                        (#[trigger] old(self).arch_ids()[q]).kind_set() != bundle.kinds().to_set()
                    by {
                        if old(self).arch_ids()[q].kind_set() == bundle.kinds().to_set() {
                            lemma_identity_order_independent(old(self).arch_ids()[q], aid);
                        }
                    }
                }
                let mut arch = Archetype::new();
                bundle.register(&mut arch);
                proof {
                    assert(arch.kind_set() =~= bundle.kinds().to_set());
                    assert(arch.row_count() == 0);
                }
                self.archetype_ids.push(aid);
                self.archetypes.push(arch);
                self.archetypes.len() - 1
            },
        };
        let ghost mid = *self;
        proof {
            assert(mid.arch_ids().len() == mid.archs().len());
            assert((j as nat) < mid.n_archetypes());
            assert(mid.archs()[j as int].kind_set() == bundle.kinds().to_set());
            assert(mid.archs()[j as int].wf());
            assert(mid.index_seq() == old(self).index_seq());
            assert(mid.next_entity() == old(self).next_entity());
        }
        let e = self.next_id;
        self.next_id = self.next_id + 1;
        bundle.insert_into(&mut self.archetypes[j], e);
        self.entity_to_archetype.push(j);
        proof {
            let oldw = *old(self);
            let ji = j as int;
            let pre = mid.archs()[ji];
            let na = self.archs()[ji];
            assert(self.archs() == mid.archs().update(ji, na));
            assert(self.index_seq() == oldw.index_seq().push(j));
            assert(self.arch_ids() == mid.arch_ids());
            let rows = pre.entity_seq().len();
            assert(na.entity_seq() == pre.entity_seq().push(e));
            assert(!pre.entity_seq().contains(e)) by {
                if pre.entity_seq().contains(e) {
                    let i = choose|i: int| 0 <= i < pre.entity_seq().len()
                        && pre.entity_seq()[i] == e;
                    assert(pre.entity_seq()[i] < mid.next_entity());
                }
            }
            lemma_push_no_duplicates(pre.entity_seq(), e);
            assert(na.entity_seq()[rows as int] == e);
            assert(na.entity_seq().contains(e));
            lemma_index_of_unique(na.entity_seq(), e);
            assert(na.entity_seq().index_of(e) == rows as int);
            // well-formedness of the new world
            assert forall|q: int| 0 <= q < self.n_archetypes() implies
                (#[trigger] self.archs()[q]).wf()
            by {
                if q != ji {
                    assert(self.archs()[q] == mid.archs()[q]);
                }
            }
            assert forall|q: int| 0 <= q < self.n_archetypes() implies
                (#[trigger] self.arch_ids()[q]).wf()
                && self.arch_ids()[q].kind_set() == self.archs()[q].kind_set()
            by {
                if q != ji {
                    assert(self.archs()[q] == mid.archs()[q]);
                } else {
                    assert(na.kind_seq() == pre.kind_seq());
                }
            }
            assert forall|e2: int| 0 <= e2 < self.entity_count() implies
                (#[trigger] self.index_seq()[e2]) < self.n_archetypes()
                && self.archs()[self.index_seq()[e2] as int].entity_seq().contains(e2 as EntityId)
            by {
                if e2 < oldw.entity_count() {
                    assert(self.index_seq()[e2] == oldw.index_seq()[e2]);
                    let q = oldw.index_seq()[e2] as int;
                    assert(oldw.archs()[q].entity_seq().contains(e2 as EntityId));
                    if q != ji {
                        assert(self.archs()[q] == mid.archs()[q]);
                    } else {
                        let i = choose|i: int| 0 <= i < pre.entity_seq().len()
                            && pre.entity_seq()[i] == e2 as EntityId;
                        assert(na.entity_seq()[i] == e2 as EntityId);
                    }
                } else {
                    assert(e2 == oldw.entity_count());
                    assert(self.index_seq()[e2] == j);
                    assert(na.entity_seq()[rows as int] == e);
                }
            }
            assert forall|q: int| 0 <= q < self.n_archetypes() implies
                (#[trigger] self.archs()[q]).entity_seq().no_duplicates()
            by {
                if q != ji {
                    assert(self.archs()[q] == mid.archs()[q]);
                }
            }
            assert forall|q: int, i: int| 0 <= q < self.n_archetypes()
                && 0 <= i < self.archs()[q].entity_seq().len() implies
                (#[trigger] self.archs()[q].entity_seq()[i]) < self.next_entity()
                && self.index_seq()[self.archs()[q].entity_seq()[i] as int] == q
            by {
                if q != ji {
                    assert(self.archs()[q] == mid.archs()[q]);
                    assert(mid.archs()[q].entity_seq()[i] < oldw.next_entity());
                    assert(self.index_seq()[mid.archs()[q].entity_seq()[i] as int]
                        == oldw.index_seq()[mid.archs()[q].entity_seq()[i] as int]);
                } else {
                    if i < rows {
                        assert(na.entity_seq()[i] == pre.entity_seq()[i]);
                        assert(pre.entity_seq()[i] < oldw.next_entity());
                        assert(self.index_seq()[pre.entity_seq()[i] as int]
                            == oldw.index_seq()[pre.entity_seq()[i] as int]);
                        assert(oldw.index_seq()[pre.entity_seq()[i] as int] == ji);
                    } else {
                        assert(na.entity_seq()[i] == e);
                        assert(self.index_seq()[e as int] == j);
                    }
                }
            }
            assert(self.wf());
            // read-after-write for the new entity
            assert(self.index_seq()[e as int] == j);
            assert forall|i: int| 0 <= i < bundle.items_seq().len() implies
                self.component_of(e, (#[trigger] bundle.items_seq()[i]).0)
                    == Some(bundle.items_seq()[i].1)
            by {
                let k = bundle.items_seq()[i].0;
                assert(bundle.kinds()[i] == k);
                assert(bundle.kinds().contains(k));
                assert(na.kind_set().contains(k));
                assert(na.has_kind(k));
                assert(na.column(k) == pre.column(k).push(bundle.items_seq()[i].1));
                assert(pre.has_kind(k));
                assert(pre.column(k).len() == rows);
                assert(na.column(k)[rows as int] == bundle.items_seq()[i].1);
            }
            assert forall|k: KindId| !bundle.kinds().contains(k) implies
                self.component_of(e, k) == None::<V>
            by {
                if na.has_kind(k) {
                    assert(na.kind_seq() == pre.kind_seq());
                    assert(pre.kind_set().contains(k));
                    assert(bundle.kinds().to_set().contains(k));
                }
            }
            // frame: all other entities read as before
            assert forall|e2: EntityId, k: KindId| e2 != e implies
                self.component_of(e2, k) == oldw.component_of(e2, k)
            by {
                if (e2 as nat) < oldw.entity_count() {
                    assert(self.index_seq()[e2 as int] == oldw.index_seq()[e2 as int]);
                    let q = oldw.index_seq()[e2 as int] as int;
                    if q != ji {
                        assert(self.archs()[q] == mid.archs()[q]);
                    } else {
                        assert(na.kind_seq() == pre.kind_seq());
                        if pre.has_kind(k) {
                            assert(pre.entity_seq().contains(e2));
                            lemma_index_of_unique(pre.entity_seq(), e2);
                            let i0 = pre.entity_seq().index_of(e2);
                            assert(na.entity_seq()[i0] == e2);
                            lemma_index_of_unique(na.entity_seq(), e2);
                            assert(na.entity_seq().index_of(e2) == i0);
                            assert(pre.kind_set().contains(k));
                            assert(bundle.kinds().to_set().contains(k));
                            assert(bundle.kinds().contains(k));
                            let bi = choose|bi: int| 0 <= bi < bundle.kinds().len()
                                && bundle.kinds()[bi] == k;
                            assert(bundle.items_seq()[bi].0 == k);
                            assert(na.column(k) == pre.column(k).push(bundle.items_seq()[bi].1));
                            assert(pre.column(k).len() == rows);
                            assert(i0 < rows);
                            assert(na.column(k)[i0] == pre.column(k)[i0]);
                        }
                    }
                } else {
                    assert(!oldw.has_entity(e2));
                    if (e2 as nat) < self.entity_count() {
                        assert(e2 as nat == oldw.entity_count());
                        assert(e2 == e);
                    }
                }
            }
        }
        e
    }

    /// Every entity ever spawned, in ascending identifier order (the
    /// documented, deterministic order of this implementation).
    #[verifier::loop_isolation(false)]
    pub fn entities(&self) -> (r: Vec<EntityId>)
        requires
            self.wf(),
        ensures
            r@.len() == self.entity_count(),
            forall|i: int| 0 <= i < r@.len() ==> #[trigger] r@[i] as int == i,
    {
        let n = self.entity_to_archetype.len();
        let mut out: Vec<EntityId> = Vec::new();
        let mut i: usize = 0;
        while i < n
            invariant
                i <= n,
                out@.len() == i,
                forall|q: int| 0 <= q < i ==> #[trigger] out@[q] as int == q,
            decreases n - i,
        {
            out.push(i as u32);
            i += 1;
        }
        out
    }

    /// The component of kind `kind` attached to `entity`: resolves the
    /// entity's archetype through the index, finds its row by scanning the
    /// entity list, and reads the column there.  Absent when the entity is
    /// unknown or its archetype never registered the kind.
    #[verifier::loop_isolation(false)]
    pub fn get_component(&self, entity: EntityId, kind: KindId) -> (r: Option<&V>)
        requires
            self.wf(),
        ensures
            match r {
                Some(v) => self.component_of(entity, kind) == Some(*v),
                None => self.component_of(entity, kind) == None::<V>,
            },
    {
        let eu = entity as usize;
        if eu >= self.entity_to_archetype.len() {
            return None;
        }
        let j = self.entity_to_archetype[eu];
        let arch = &self.archetypes[j];
        let ents = arch.entity_ids();
        let n = ents.len();
        let mut i: usize = 0;
        while i < n
            invariant
                i <= n,
                forall|q: int| 0 <= q < i ==> arch.entity_seq()[q] != entity,
            decreases n - i,
        {
            if ents[i] == entity {
                proof {
                    lemma_index_of_unique(arch.entity_seq(), entity);
                    assert(arch.entity_seq().index_of(entity) == i as int);
                }
                match arch.get(kind) {
                    Some(col) => {
                        return Some(&col[i]);
                    },
                    None => {
                        return None;
                    },
                }
            }
            i += 1;
        }
        proof {
            assert(arch.entity_seq().contains(entity));
            assert(false);
        }
        None
    }

    /// Overwrites the component of kind `kind` attached to `entity` and
    /// reports whether the entity exists and carries that kind; when it does
    /// not, the world is unchanged.  No other entity or kind is affected.
    #[verifier::loop_isolation(false)]
    pub fn set_component(&mut self, entity: EntityId, kind: KindId, value: V) -> (r: bool)
        requires
            old(self).wf(),
        ensures
            final(self).wf(),
            r == (old(self).component_of(entity, kind) is Some),
            final(self).entity_count() == old(self).entity_count(),
            final(self).n_archetypes() == old(self).n_archetypes(),
            final(self).arch_ids() == old(self).arch_ids(),
            r ==> final(self).component_of(entity, kind) == Some(value),
            !r ==> final(self).component_of(entity, kind) == old(self).component_of(entity, kind),
            forall|e2: EntityId, k2: KindId| !(e2 == entity && k2 == kind) ==>
                final(self).component_of(e2, k2) == old(self).component_of(e2, k2),
    {
        let eu = entity as usize;
        if eu >= self.entity_to_archetype.len() {
            return false;
        }
        let j = self.entity_to_archetype[eu];
        let ghost oldw = *old(self);
        let ghost ji = j as int;
        let ghost pre = oldw.archs()[ji];
        if !self.archetypes[j].contains(kind) {
            return false;
        }
        let n = self.archetypes[j].entity_ids().len();
        let mut row: usize = 0;
        while row < n
            invariant
                *self == *old(self),
                row <= n,
                n == pre.entity_seq().len(),
                forall|q: int| 0 <= q < row ==> pre.entity_seq()[q] != entity,
            decreases n - row,
        {
            if self.archetypes[j].entity_ids()[row] == entity {
                proof {
                    lemma_index_of_unique(pre.entity_seq(), entity);
                    assert(pre.entity_seq().index_of(entity) == row as int);
                }
                return self.set_at_row(entity, kind, value, j, row);
            }
            row += 1;
        }
        proof {
            assert(pre.entity_seq().contains(entity));
            assert(false);
        }
        false
    }

    /// Writes `value` at the already-located row of `entity` in the archetype
    /// at table position `j`.
    fn set_at_row(&mut self, entity: EntityId, kind: KindId, value: V, j: usize, row: usize)
        -> (r: bool)
        requires
            old(self).wf(),
            old(self).has_entity(entity),
            old(self).index_seq()[entity as int] == j,
            old(self).archs()[j as int].has_kind(kind),
            (row as nat) < old(self).archs()[j as int].entity_seq().len(),
            old(self).archs()[j as int].entity_seq()[row as int] == entity,
            old(self).archs()[j as int].entity_seq().index_of(entity) == row as int,
        ensures
            r,
            final(self).wf(),
            old(self).component_of(entity, kind) is Some,
            final(self).entity_count() == old(self).entity_count(),
            final(self).n_archetypes() == old(self).n_archetypes(),
            final(self).arch_ids() == old(self).arch_ids(),
            final(self).component_of(entity, kind) == Some(value),
            forall|e2: EntityId, k2: KindId| !(e2 == entity && k2 == kind) ==>
                final(self).component_of(e2, k2) == old(self).component_of(e2, k2),
    {
        let ghost oldw = *old(self);
        let ghost ji = j as int;
        let ghost pre = oldw.archs()[ji];
        let arch = &mut self.archetypes[j];
        match arch.get_mut(kind) {
            Some(col) => {
                col[row] = value;
                proof {
                    let na = self.archs()[ji];
                    assert(self.archs() == oldw.archs().update(ji, na));
                    assert(na.kind_seq() == pre.kind_seq());
                    assert(na.entity_seq() == pre.entity_seq());
                    assert(na.column(kind) == pre.column(kind).update(row as int, value));
                    assert(na.wf());
                    assert(self.index_seq() == oldw.index_seq());
                    assert(self.arch_ids() == oldw.arch_ids());
                    assert forall|q: int| 0 <= q < self.n_archetypes() implies
                        (#[trigger] self.archs()[q]).wf()
                        && self.archs()[q].entity_seq() == oldw.archs()[q].entity_seq()
                        && self.archs()[q].kind_seq() == oldw.archs()[q].kind_seq()
                    by {
                        if q != ji {
                            assert(self.archs()[q] == oldw.archs()[q]);
                        }
                    }
                    assert(self.wf());
                    assert(self.component_of(entity, kind) == Some(value));
                    assert forall|e2: EntityId, k2: KindId| !(e2 == entity && k2 == kind) implies
                        self.component_of(e2, k2) == oldw.component_of(e2, k2)
                    by {
                        if (e2 as nat) < oldw.entity_count() {
                            let q = oldw.index_seq()[e2 as int] as int;
                            if q != ji {
                                assert(self.archs()[q] == oldw.archs()[q]);
                            } else {
                                if pre.has_kind(k2) {
                                    if k2 != kind {
                                        assert(na.column(k2) == pre.column(k2));
                                    } else {
                                        assert(e2 != entity);
                                        assert(pre.entity_seq().contains(e2));
                                        lemma_index_of_unique(pre.entity_seq(), e2);
                                        let i0 = pre.entity_seq().index_of(e2);
                                        assert(pre.entity_seq()[i0] == e2);
                                        assert(i0 != row as int);
                                        assert(na.column(kind)[i0] == pre.column(kind)[i0]);
                                    }
                                }
                            }
                        }
                    }
                }
                true
            },
            None => {
                proof {
                    assert(false);
                }
                false
            },
        }
    }

    /// A read view of every archetype, by table position, for bulk
    /// whole-column access by systems.
    pub fn archetypes(&self) -> (r: &Vec<Archetype<V>>)
        ensures
            r@ == self.archs(),
    {
        &self.archetypes
    }

    /// How many archetypes the world holds.
    pub fn archetype_count(&self) -> (r: usize)
        ensures
            r as nat == self.n_archetypes(),
    {
        self.archetypes.len()
    }

    /// A read view of the archetype at table position `j`, for whole-column
    /// access by systems.
    pub fn archetype_at(&self, j: usize) -> (r: &Archetype<V>)
        requires
            (j as nat) < self.n_archetypes(),
        ensures
            *r == self.archs()[j as int],
    {
        &self.archetypes[j]
    }
}

/// Columnar alignment: in a well-formed world every registered column of
/// every archetype is exactly as long as the archetype's entity list, and
/// row `i` of the column of kind `k` holds exactly the component that
/// reading kind `k` of `entities[i]` returns.
pub proof fn lemma_columnar_alignment<V: Component>(w: World<V>, j: int, k: KindId, i: int)
    requires
        w.wf(),
        0 <= j < w.n_archetypes(),
        w.archs()[j].has_kind(k),
        0 <= i < w.archs()[j].row_count(),
    ensures
        w.archs()[j].column(k).len() == w.archs()[j].row_count(),
        w.component_of(w.archs()[j].entity_seq()[i], k) == Some(w.archs()[j].column(k)[i]),
{
    let a = w.archs()[j];
    let e = a.entity_seq()[i];
    assert(e < w.next_entity());
    assert(w.index_seq()[e as int] == j);
    assert(w.has_entity(e));
    lemma_index_of_unique(a.entity_seq(), e);
    assert(a.entity_seq().contains(e));
    assert(a.entity_seq().index_of(e) == i);
}

} // verus!
