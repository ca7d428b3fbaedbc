//! Archetypes: one dense column per component kind for all entities sharing
//! the same kind set, and the order-independent identity used to route a
//! bundle to its archetype.

use vstd::prelude::*;
use crate::component::{Component, KindId};
use crate::entity::EntityId;

verus! {

/// In a duplicate-free sequence, `index_of` names the unique position of a
/// contained element.
pub proof fn lemma_index_of_unique<A>(s: Seq<A>, x: A)
    requires
        s.no_duplicates(),
        s.contains(x),
    ensures
        0 <= s.index_of(x) < s.len(),
        s[s.index_of(x)] == x,
        forall|i: int| 0 <= i < s.len() && s[i] == x ==> i == s.index_of(x),
{
    let idx = s.index_of(x);
    assert(s[idx] == x);
    assert forall|i: int| 0 <= i < s.len() && s[i] == x implies i == idx by {
        if i < idx {
            assert(s[i] != s[idx]);
        } else if idx < i {
            assert(s[idx] != s[i]);
        }
    }
}

/// Pushing a fresh element keeps a sequence duplicate-free.
pub proof fn lemma_push_no_duplicates<A>(s: Seq<A>, x: A)
    requires
        s.no_duplicates(),
        !s.contains(x),
    ensures
        s.push(x).no_duplicates(),
{
    let t = s.push(x);
    assert forall|i: int, j: int| 0 <= i < t.len() && 0 <= j < t.len() && i != j implies
        t[i] != t[j]
    by {
        if i < s.len() && j < s.len() {
            assert(s.no_duplicates());
        } else if j == s.len() && i < s.len() {
            assert(s.contains(s[i]));
        } else if i == s.len() && j < s.len() {
            assert(s.contains(s[j]));
        }
    }
}

/// A strictly increasing sequence of kind tokens.
pub open spec fn sorted_strict(s: Seq<KindId>) -> bool {
    forall|i: int, j: int| 0 <= i < j < s.len() ==> s[i] < s[j]
}

/// Two strictly increasing sequences over the same element set are the same
/// sequence: a canonical form is unique.
pub proof fn lemma_sorted_strict_same_set(a: Seq<KindId>, b: Seq<KindId>)
    requires
        sorted_strict(a),
        sorted_strict(b),
        a.to_set() == b.to_set(),
    ensures
        a == b,
    decreases a.len(),
{
    if a.len() == 0 {
        if b.len() > 0 {
            assert(b.contains(b[0]));
            assert(a.to_set().contains(b[0]));
            assert(false);
        }
        assert(a =~= b);
    } else if b.len() == 0 {
        assert(a.contains(a[0]));
        assert(b.to_set().contains(a[0]));
        assert(false);
    } else {
        assert(a.contains(a[0]));
        assert(b.to_set().contains(a[0]));
        let ja = choose|i: int| 0 <= i < b.len() && b[i] == a[0];
        assert(b.contains(b[0]));
        assert(a.to_set().contains(b[0]));
        let ia = choose|i: int| 0 <= i < a.len() && a[i] == b[0];
        assert(b[0] <= b[ja]);
        assert(a[0] <= a[ia]);
        assert(a[0] == b[0]);
        let at = a.drop_first();
        let bt = b.drop_first();
        assert forall|x: KindId| at.contains(x) implies a.contains(x) && x != a[0] by {
            let i = choose|i: int| 0 <= i < at.len() && at[i] == x;
            assert(a[i + 1] == x);
            assert(a[0] < a[i + 1]);
        }
        assert forall|x: KindId| a.contains(x) && x != a[0] implies at.contains(x) by {
            let i = choose|i: int| 0 <= i < a.len() && a[i] == x;
            assert(i != 0);
            assert(at[i - 1] == x);
        }
        assert forall|x: KindId| bt.contains(x) implies b.contains(x) && x != b[0] by {
            let i = choose|i: int| 0 <= i < bt.len() && bt[i] == x;
            assert(b[i + 1] == x);
            assert(b[0] < b[i + 1]);
        }
        assert forall|x: KindId| b.contains(x) && x != b[0] implies bt.contains(x) by {
            let i = choose|i: int| 0 <= i < b.len() && b[i] == x;
            assert(i != 0);
            assert(bt[i - 1] == x);
        }
        assert forall|x: KindId| at.to_set().contains(x) implies bt.to_set().contains(x) by {
            assert(at.contains(x));
            assert(a.contains(x) && x != a[0]);
            assert(a.to_set().contains(x));
            assert(b.to_set().contains(x));
            assert(b.contains(x));
            assert(bt.contains(x));
        }
        assert forall|x: KindId| bt.to_set().contains(x) implies at.to_set().contains(x) by {
            assert(bt.contains(x));
            assert(b.contains(x) && x != b[0]);
            assert(b.to_set().contains(x));
            assert(a.to_set().contains(x));
            assert(a.contains(x));
            assert(at.contains(x));
        }
        assert(at.to_set() =~= bt.to_set());
        lemma_sorted_strict_same_set(at, bt);
        assert forall|i: int| 0 <= i < a.len() implies a[i] == b[i] by {
            if i > 0 {
                assert(at[i - 1] == bt[i - 1]);
            }
        }
        assert(a =~= b);
    }
}

/// A canonical, order-independent key over a set of component kinds: the
/// kinds in strictly increasing order.  Two kind sets equal as sets yield
/// identities equal as values, whatever order the kinds were supplied in.
#[derive(Debug)]
pub struct ArchetypeId {
    component_ids: Vec<KindId>,
}

impl View for ArchetypeId {
    type V = Seq<KindId>;

    closed spec fn view(&self) -> Seq<KindId> {
        self.component_ids@
    }
}

impl ArchetypeId {
    /// The canonical form holds each kind once, in increasing order.
    pub open spec fn wf(&self) -> bool {
        sorted_strict(self@)
    }

    /// The set of component kinds this identity stands for.
    pub open spec fn kind_set(&self) -> Set<KindId> {
        self@.to_set()
    }

    /// Creates the identity of the empty kind set.
    pub fn new() -> (r: Self)
        ensures
            r.wf(),
            r@ == Seq::<KindId>::empty(),
    {
        ArchetypeId { component_ids: Vec::new() }
    }

    /// Builds the identity of the set of kinds in `type_ids`; order and
    /// duplicates in the input do not affect the result.
    #[verifier::loop_isolation(false)]
    pub fn from_slice(type_ids: &[KindId]) -> (r: Self)
        ensures
            r.wf(),
            r.kind_set() == type_ids@.to_set(),
    {
        let mut ids: Vec<KindId> = Vec::new();
        let n = type_ids.len();
        let mut idx: usize = 0;
        while idx < n
            invariant
                n == type_ids@.len(),
                idx <= n,
                sorted_strict(ids@),
                ids@.to_set() == type_ids@.take(idx as int).to_set(),
            decreases n - idx,
        {
            let k = type_ids[idx];
            let ghost prefix = type_ids@.take(idx as int);
            proof {
                assert(type_ids@.take(idx + 1) =~= prefix.push(k));
                prefix.lemma_push_to_set_commute(k);
            }
            let m = ids.len();
            let mut p: usize = 0;
            while p < m && ids[p] < k
                invariant
                    m == ids@.len(),
                    p <= m,
                    forall|q: int| 0 <= q < p ==> ids@[q] < k,
                decreases m - p,
            {
                p += 1;
            }
            if p < m && ids[p] == k {
                proof {
                    assert(ids@.contains(k));
                    assert(ids@.to_set().contains(k));
                    assert(prefix.to_set().insert(k) =~= prefix.to_set());
                }
            } else {
                let ghost before = ids@;
                ids.insert(p, k);
                proof {
                    let pi = p as int;
                    assert(pi < before.len() ==> before[pi] > k);
                    assert forall|q: int| pi <= q < before.len() implies before[q] > k by {
                        if q > pi {
                            assert(before[pi] < before[q]);
                        }
                    }
                    assert forall|i: int, j: int| 0 <= i < j < ids@.len() implies
                        ids@[i] < ids@[j]
                    by {
                        if j < pi {
                            assert(ids@[i] == before[i] && ids@[j] == before[j]);
                        } else if j == pi {
                            assert(ids@[i] == before[i] && ids@[j] == k);
                        } else {
                            assert(ids@[j] == before[j - 1] && before[j - 1] > k ==> ids@[j] > k);
                            if i < pi {
                                assert(ids@[i] == before[i] && before[i] < k);
                                assert(before[j - 1] > k);
                            } else if i == pi {
                                assert(ids@[i] == k);
                                assert(before[j - 1] > k);
                            } else {
                                assert(ids@[i] == before[i - 1] && ids@[j] == before[j - 1]);
                            }
                        }
                    }
                    assert forall|x: KindId| ids@.to_set().contains(x) implies
                        prefix.to_set().insert(k).contains(x)
                    by {
                        let i = choose|i: int| 0 <= i < ids@.len() && ids@[i] == x;
                        if i < pi {
                            assert(before[i] == x);
                            assert(before.contains(x));
                            assert(before.to_set().contains(x));
                        } else if i > pi {
                            assert(before[i - 1] == x);
                            assert(before.contains(x));
                            assert(before.to_set().contains(x));
                        }
                    }
                    assert forall|x: KindId| prefix.to_set().insert(k).contains(x) implies
                        ids@.to_set().contains(x)
                    by {
                        if x == k {
                            assert(ids@[pi] == x);
                            assert(ids@.contains(x));
                        } else {
                            assert(before.to_set().contains(x));
                            assert(before.contains(x));
                            let i = choose|i: int| 0 <= i < before.len() && before[i] == x;
                            if i < pi {
                                assert(ids@[i] == x);
                            } else {
                                assert(ids@[i + 1] == x);
                            }
                            assert(ids@.contains(x));
                        }
                    }
                    assert(ids@.to_set() =~= prefix.to_set().insert(k));
                }
            }
            idx += 1;
        }
        proof {
            assert(type_ids@.take(n as int) =~= type_ids@);
        }
        ArchetypeId { component_ids: ids }
    }

    /// Exact equality of canonical forms.
    #[verifier::loop_isolation(false)]
    fn eq_impl(&self, other: &Self) -> (r: bool)
        ensures
            r == (self@ == other@),
    {
        let n = self.component_ids.len();
        if n != other.component_ids.len() {
            return false;
        }
        let mut i: usize = 0;
        while i < n
            invariant
                n == self@.len(),
                n == other@.len(),
                i <= n,
                forall|j: int| 0 <= j < i ==> self@[j] == other@[j],
            decreases n - i,
        {
            if self.component_ids[i] != other.component_ids[i] {
                return false;
            }
            i += 1;
        }
        proof {
            assert(self@ =~= other@);
        }
        true
    }
}

impl PartialEq for ArchetypeId {
    fn eq(&self, other: &Self) -> (r: bool) {
        self.eq_impl(other)
    }
}

impl Eq for ArchetypeId {

}

impl vstd::std_specs::cmp::PartialEqSpecImpl for ArchetypeId {
    open spec fn obeys_eq_spec() -> bool {
        true
    }

    open spec fn eq_spec(&self, other: &Self) -> bool {
        self@ == other@
    }
}

/// Identity order-independence: two well-formed identities over the same
/// kind set are equal, so permutations of one kind set always route to the
/// same archetype.
pub proof fn lemma_identity_order_independent(a: ArchetypeId, b: ArchetypeId)
    requires
        a.wf(),
        b.wf(),
        a.kind_set() == b.kind_set(),
    ensures
        a@ == b@,
{
    lemma_sorted_strict_same_set(a@, b@);
}

/// Columnar storage for the set of entities sharing one exact kind set: one
/// dense column per registered kind, plus the owning entity of each row.
/// Row `i` of every column belongs to `entities[i]`.
pub struct Archetype<V> {
    kinds: Vec<KindId>,
    columns: Vec<Vec<V>>,
    entities: Vec<EntityId>,
}

impl<V: Component> Archetype<V> {
    /// The registered kinds, in registration order.
    pub closed spec fn kind_seq(&self) -> Seq<KindId> {
        self.kinds@
    }

    /// The owner of row `i` in every column, in insertion order.
    pub closed spec fn entity_seq(&self) -> Seq<EntityId> {
        self.entities@
    }

    /// Whether `k` has a column in this archetype.
    pub open spec fn has_kind(&self, k: KindId) -> bool {
        self.kind_seq().contains(k)
    }

    /// The set of registered kinds.
    pub open spec fn kind_set(&self) -> Set<KindId> {
        self.kind_seq().to_set()
    }

    /// The column of kind `k` (meaningful when `has_kind(k)`).
    pub closed spec fn column(&self, k: KindId) -> Seq<V> {
        self.columns@[self.kind_seq().index_of(k)]@
    }

    /// The number of rows: one per stored entity.
    pub open spec fn row_count(&self) -> nat {
        self.entity_seq().len()
    }

    /// Each kind has exactly one column.
    pub closed spec fn kinds_wf(&self) -> bool {
        &&& self.kinds@.no_duplicates()
        &&& self.columns@.len() == self.kinds@.len()
    }

    /// Well-formedness: one column per kind, and every column as long as the
    /// entity list (columnar alignment).
    pub open spec fn wf(&self) -> bool {
        &&& self.kinds_wf()
        &&& forall|k: KindId| #[trigger] self.has_kind(k) ==>
                self.column(k).len() == self.row_count()
    }

    /// Creates an archetype with no kinds and no entities.
    pub fn new() -> (r: Self)
        ensures
            r.wf(),
            r.kind_seq() == Seq::<KindId>::empty(),
            r.entity_seq() == Seq::<EntityId>::empty(),
    {
        Archetype { kinds: Vec::new(), columns: Vec::new(), entities: Vec::new() }
    }

    /// Returns true if the kind has already been registered.
    #[verifier::loop_isolation(false)]
    pub fn contains(&self, kind: KindId) -> (r: bool)
        ensures
            r == self.has_kind(kind),
    {
        let n = self.kinds.len();
        let mut i: usize = 0;
        while i < n
            invariant
                n == self.kind_seq().len(),
                i <= n,
                forall|j: int| 0 <= j < i ==> self.kind_seq()[j] != kind,
            decreases n - i,
        {
            if self.kinds[i] == kind {
                return true;
            }
            i += 1;
        }
        false
    }

    /// Registers a column for `kind`: a no-op if the kind is already present,
    /// otherwise a fresh empty column.  A new column may only be created
    /// while the archetype has no rows, so that columnar alignment holds.
    pub fn register(&mut self, kind: KindId)
        requires
            old(self).wf(),
            old(self).has_kind(kind) || old(self).row_count() == 0,
        ensures
            final(self).wf(),
            final(self).entity_seq() == old(self).entity_seq(),
            final(self).kind_set() == old(self).kind_set().insert(kind),
            old(self).has_kind(kind) ==> *final(self) == *old(self),
            !old(self).has_kind(kind) ==> final(self).kind_seq() == old(self).kind_seq().push(kind)
                && final(self).column(kind) == Seq::<V>::empty(),
            forall|k: KindId| #[trigger] old(self).has_kind(k) ==>
                final(self).has_kind(k) && final(self).column(k) == old(self).column(k),
    {
        if self.contains(kind) {
            proof {
                assert(old(self).kind_set().contains(kind));
                assert(old(self).kind_set().insert(kind) =~= old(self).kind_set());
            }
            return;
        }
        let ghost before = *old(self);
        self.kinds.push(kind);
        self.columns.push(Vec::new());
        proof {
            let ks = before.kind_seq();
            lemma_push_no_duplicates(ks, kind);
            ks.lemma_push_to_set_commute(kind);
            assert(self.kind_seq()[ks.len() as int] == kind);
            assert(self.kind_seq().contains(kind));
            lemma_index_of_unique(self.kind_seq(), kind);
            assert(self.kind_seq().index_of(kind) == ks.len() as int);
            assert(self.column(kind) =~= Seq::<V>::empty());
            assert forall|k: KindId| #[trigger] before.has_kind(k) implies
                self.has_kind(k) && self.column(k) == before.column(k)
            by {
                lemma_index_of_unique(ks, k);
                let i0 = ks.index_of(k);
                assert(self.kind_seq()[i0] == k);
                lemma_index_of_unique(self.kind_seq(), k);
                assert(self.kind_seq().index_of(k) == i0);
            }
            assert forall|k: KindId| #[trigger] self.has_kind(k) implies
                self.column(k).len() == self.row_count()
            by {
                if before.has_kind(k) {
                    assert(self.column(k) == before.column(k));
                } else {
                    lemma_index_of_unique(self.kind_seq(), k);
                    let i0 = self.kind_seq().index_of(k);
                    assert(self.kind_seq()[i0] == k);
                    if i0 < ks.len() {
                        assert(ks[i0] == k);
                        assert(ks.contains(k));
                        assert(false);
                    }
                }
            }
        }
    }

    /// Returns a read view of the column of `kind`, absent if the kind was
    /// never registered.
    #[verifier::loop_isolation(false)]
    pub fn get(&self, kind: KindId) -> (r: Option<&Vec<V>>)
        requires
            self.wf(),
        ensures
            match r {
                Some(c) => self.has_kind(kind) && c@ == self.column(kind),
                None => !self.has_kind(kind),
            },
    {
        let n = self.kinds.len();
        let mut i: usize = 0;
        while i < n
            invariant
                self.wf(),
                n == self.kind_seq().len(),
                i <= n,
                forall|j: int| 0 <= j < i ==> self.kind_seq()[j] != kind,
            decreases n - i,
        {
            if self.kinds[i] == kind {
                proof {
                    lemma_index_of_unique(self.kind_seq(), kind);
                }
                return Some(&self.columns[i]);
            }
            i += 1;
        }
        None
    }

    /// Returns a write view of the column of `kind`, absent if the kind was
    /// never registered.  The caller sees exactly how the archetype relates
    /// to whatever it leaves in the column; alignment is kept exactly when
    /// the column's length is kept.
    #[verifier::loop_isolation(false)]
    pub fn get_mut(&mut self, kind: KindId) -> (r: Option<&mut Vec<V>>)
        requires
            old(self).wf(),
        ensures
            match r {
                Some(c) => {
                    &&& old(self).has_kind(kind)
                    &&& (*c)@ == old(self).column(kind)
                    &&& final(self).kind_seq() == old(self).kind_seq()
                    &&& final(self).entity_seq() == old(self).entity_seq()
                    &&& final(self).column(kind) == (*final(c))@
                    &&& forall|k: KindId| #[trigger] old(self).has_kind(k) && k != kind ==>
                            final(self).column(k) == old(self).column(k)
                    &&& (*final(c))@.len() == old(self).column(kind).len() ==> final(self).wf()
                },
                None => !old(self).has_kind(kind) && *final(self) == *old(self),
            },
    {
        let n = self.kinds.len();
        let mut i: usize = 0;
        while i < n
            invariant
                *self == *old(self),
                n == self.kind_seq().len(),
                i <= n,
                forall|j: int| 0 <= j < i ==> self.kind_seq()[j] != kind,
            decreases n - i,
        {
            if self.kinds[i] == kind {
                proof {
                    let ks = old(self).kind_seq();
                    lemma_index_of_unique(ks, kind);
                    assert(i as int == ks.index_of(kind));
                    assert forall|k: KindId| #[trigger] ks.contains(k) implies
                        ks[ks.index_of(k)] == k && 0 <= ks.index_of(k) < ks.len()
                    by {
                        lemma_index_of_unique(ks, k);
                    }
                    assert forall|k: KindId| #[trigger] ks.contains(k) implies
                        old(self).column(k).len() == old(self).row_count()
                    by {
                        assert(old(self).has_kind(k));
                    }
                }
                return Some(&mut self.columns[i]);
            }
            i += 1;
        }
        None
    }

    /// A read view of the entity list: the owner of row `i` in every column.
    pub fn entity_ids(&self) -> (r: &Vec<EntityId>)
        ensures
            r@ == self.entity_seq(),
    {
        &self.entities
    }

    /// Appends an entity to the row-owner list; the first step of appending
    /// a row.
    pub(crate) fn push_entity(&mut self, entity: EntityId)
        ensures
            final(self).entity_seq() == old(self).entity_seq().push(entity),
            final(self).kind_seq() == old(self).kind_seq(),
            final(self).kinds_wf() == old(self).kinds_wf(),
            forall|k: KindId| #[trigger] old(self).has_kind(k) ==>
                final(self).column(k) == old(self).column(k),
    {
        self.entities.push(entity);
    }

    /// Appends `value` to the column of `kind`; the one mutation used to
    /// build a row, column by column.
    #[verifier::loop_isolation(false)]
    pub(crate) fn push_value(&mut self, kind: KindId, value: V)
        requires
            old(self).kinds_wf(),
            old(self).has_kind(kind),
        ensures
            final(self).kinds_wf(),
            final(self).kind_seq() == old(self).kind_seq(),
            final(self).entity_seq() == old(self).entity_seq(),
            final(self).column(kind) == old(self).column(kind).push(value),
            forall|k: KindId| #[trigger] old(self).has_kind(k) && k != kind ==>
                final(self).column(k) == old(self).column(k),
    {
        let n = self.kinds.len();
        let mut i: usize = 0;
        while i < n
            invariant
                *self == *old(self),
                n == self.kind_seq().len(),
                i <= n,
                forall|j: int| 0 <= j < i ==> self.kind_seq()[j] != kind,
            decreases n - i,
        {
            if self.kinds[i] == kind {
                proof {
                    let ks = old(self).kind_seq();
                    lemma_index_of_unique(ks, kind);
                    assert(i as int == ks.index_of(kind));
                    assert forall|k: KindId| #[trigger] ks.contains(k) implies
                        ks[ks.index_of(k)] == k && 0 <= ks.index_of(k) < ks.len()
                    by {
                        lemma_index_of_unique(ks, k);
                    }
                }
                let c = &mut self.columns[i];
                c.push(value);
                return;
            }
            i += 1;
        }
        proof {
            assert(old(self).kind_seq().contains(kind));
            assert(false);
        }
    }
}

} // verus!
