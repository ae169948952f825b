//! Helper object to store components in cache friendly buckets.
//!
//! Components are grouped by their kind (the `TypeId` of the component type),
//! one bucket per kind, and each bucket is kept sorted by entity id.

use crate::scene::bucket::{join_pair, join_triple, Bucket};
use crate::scene::entity::EntityId;
use std::any::TypeId;
use vstd::prelude::*;

verus! {

/// `std::any::TypeId`, the kind of a component.
#[verifier::external_type_specification]
#[verifier::external_body]
pub struct ExTypeId(TypeId);

/// `TypeId`'s `==` (`<TypeId as PartialEq>::eq`). Claimed: it returns true
/// exactly when the two type ids are the same value. Nothing else is claimed
/// of type ids.
#[verifier::external_body]
fn same_kind(a: &TypeId, b: &TypeId) -> (r: bool)
    ensures
        r == (*a == *b),
{
    *a == *b
}


/// A change that attaching, removing or deleting makes to a registry.
pub enum Change<C> {
    /// A component of the kind attached to the entity, replacing any.
    Attach(TypeId, EntityId, C),
    /// The component of the kind taken from the entity.
    Remove(TypeId, EntityId),
    /// Every component taken from the entity.
    Delete(EntityId),
}

/// `change` concerns the component of kind `kind` of `id`.
pub open spec fn touches<C>(change: Change<C>, kind: TypeId, id: EntityId) -> bool {
    match change {
        Change::Attach(k, x, _) => k == kind && x == id,
        Change::Remove(k, x) => k == kind && x == id,
        Change::Delete(x) => x == id,
    }
}

/// A registry keeps track of attachments to entities.
pub struct Registry<C> {
    component_stores: Vec<(TypeId, Bucket<C>)>,
}

/// Some slot of `s` holds kind `kind`.
spec fn seq_has_slot<C>(s: Seq<(TypeId, Bucket<C>)>, kind: TypeId) -> bool {
    exists|i: int| 0 <= i < s.len() && (#[trigger] s[i]).0 == kind
}

/// A slot of `s` that holds kind `kind`.
spec fn seq_slot<C>(s: Seq<(TypeId, Bucket<C>)>, kind: TypeId) -> int {
    choose|i: int| 0 <= i < s.len() && (#[trigger] s[i]).0 == kind
}

/// The bucket of `kind` in `s`, if there is one.
spec fn seq_bucket<C>(s: Seq<(TypeId, Bucket<C>)>, kind: TypeId) -> Option<Bucket<C>> {
    if seq_has_slot(s, kind) {
        Some(s[seq_slot(s, kind)].1)
    } else {
        None
    }
}

/// Each kind has at most one slot, and every bucket is sorted.
spec fn seq_wf<C>(s: Seq<(TypeId, Bucket<C>)>) -> bool {
    &&& forall|i: int, j: int|
        0 <= i < j < s.len() ==> (#[trigger] s[i]).0 != (#[trigger] s[j]).0
    &&& forall|i: int| 0 <= i < s.len() ==> (#[trigger] s[i]).1.wf()
}

/// The slot of a kind in a well formed list is where that kind sits.
proof fn lemma_seq_slot<C>(s: Seq<(TypeId, Bucket<C>)>, i: int)
    requires
        seq_wf(s),
        0 <= i < s.len(),
    ensures
        seq_has_slot(s, s[i].0),
        seq_slot(s, s[i].0) == i,
        seq_bucket(s, s[i].0) == Some(s[i].1),
{
    let kind = s[i].0;
    assert(s[i].0 == kind);
    let j = seq_slot(s, kind);
    if j != i {
        if i < j {
            assert(s[i].0 != s[j].0);
        } else {
            assert(s[j].0 != s[i].0);
        }
    }
}

/// Replacing the bucket at slot `i` with any sorted bucket of the same kind
/// changes the bucket of that kind only.
proof fn lemma_seq_replace<C>(s: Seq<(TypeId, Bucket<C>)>, i: int)
    requires
        seq_wf(s),
        0 <= i < s.len(),
    ensures
        forall|p: (TypeId, Bucket<C>)|
            p.0 == s[i].0 && p.1.wf() ==> seq_wf(#[trigger] s.update(i, p)),
        forall|p: (TypeId, Bucket<C>), k: TypeId|
            p.0 == s[i].0 && p.1.wf() ==> #[trigger] seq_bucket(s.update(i, p), k) == if k
                == s[i].0 {
                Some(p.1)
            } else {
                seq_bucket(s, k)
            },
{
    assert forall|p: (TypeId, Bucket<C>)|
        p.0 == s[i].0 && p.1.wf() implies seq_wf(#[trigger] s.update(i, p)) by {
        let t = s.update(i, p);
        assert forall|a: int, b: int| 0 <= a < b < t.len() implies (#[trigger] t[a]).0 != (
        #[trigger] t[b]).0 by {
            assert(s[a].0 != s[b].0);
        }
    }
    assert forall|p: (TypeId, Bucket<C>), k: TypeId|
        p.0 == s[i].0 && p.1.wf() implies #[trigger] seq_bucket(s.update(i, p), k) == if k
        == s[i].0 {
        Some(p.1)
    } else {
        seq_bucket(s, k)
    } by {
        let t = s.update(i, p);
        assert forall|a: int, b: int| 0 <= a < b < t.len() implies (#[trigger] t[a]).0 != (
        #[trigger] t[b]).0 by {
            assert(s[a].0 != s[b].0);
        }
        assert forall|a: int| 0 <= a < t.len() implies (#[trigger] t[a]).1.wf() by {
            if a != i {
                assert(s[a].1.wf());
            }
        }
        lemma_seq_slot(t, i);
        if k != s[i].0 {
            if seq_has_slot(t, k) {
                let j = seq_slot(t, k);
                assert(s[j].0 == k);
                lemma_seq_slot(s, j);
                lemma_seq_slot(t, j);
            }
            if seq_has_slot(s, k) {
                let j = seq_slot(s, k);
                assert(t[j].0 == k);
                lemma_seq_slot(t, j);
            }
        }
    }
}

impl<C> Registry<C> {
    spec fn has_slot(self, kind: TypeId) -> bool {
        seq_has_slot(self.component_stores@, kind)
    }

    spec fn slot(self, kind: TypeId) -> int {
        seq_slot(self.component_stores@, kind)
    }

    /// The bucket of `kind`, if there is one.
    spec fn bucket(self, kind: TypeId) -> Option<Bucket<C>> {
        seq_bucket(self.component_stores@, kind)
    }

    /// The components of kind `kind`, by entity.
    pub closed spec fn store(self, kind: TypeId) -> Map<EntityId, C> {
        match self.bucket(kind) {
            Some(b) => b.map(),
            None => Map::empty(),
        }
    }

    /// The entities with a component of kind `kind`, in increasing id order.
    pub closed spec fn order(self, kind: TypeId) -> Seq<EntityId> {
        match self.bucket(kind) {
            Some(b) => b.ids(),
            None => Seq::empty(),
        }
    }

    /// Each kind has at most one bucket, and every bucket is sorted.
    pub closed spec fn wf(self) -> bool {
        seq_wf(self.component_stores@)
    }

    proof fn lemma_slot(self, i: int)
        requires
            self.wf(),
            0 <= i < self.component_stores@.len(),
        ensures
            self.has_slot(self.component_stores@[i].0),
            self.slot(self.component_stores@[i].0) == i,
    {
        let kind = self.component_stores@[i].0;
        assert(self.component_stores@[i].0 == kind);
        let j = self.slot(kind);
        if j != i {
            if i < j {
                assert(self.component_stores@[i].0 != self.component_stores@[j].0);
            } else {
                assert(self.component_stores@[j].0 != self.component_stores@[i].0);
            }
        }
    }

    /// The entities of a kind are exactly the keys of its store, each once.
    pub proof fn lemma_order(self, kind: TypeId)
        requires
            self.wf(),
        ensures
            forall|e: EntityId| #[trigger]
                self.order(kind).contains(e) <==> self.store(kind).contains_key(e),
            self.order(kind).no_duplicates(),
            forall|i: int, j: int|
                0 <= i < j < self.order(kind).len() ==> (#[trigger] self.order(kind)[i]).precedes(
                    #[trigger] self.order(kind)[j],
                ),
    {
        if self.has_slot(kind) {
            let i = self.slot(kind);
            assert(self.component_stores@[i].0 == kind);
            self.component_stores@[i].1.lemma_ids();
        }
    }


    /// `after` is this registry with `change` made to it.
    pub open spec fn changed(self, change: Change<C>, after: Self) -> bool {
        match change {
            Change::Attach(kind, id, value) => forall|k: TypeId| #[trigger]
                after.store(k) == if k == kind {
                    self.store(k).insert(id, value)
                } else {
                    self.store(k)
                },
            Change::Remove(kind, id) => forall|k: TypeId| #[trigger]
                after.store(k) == if k == kind {
                    self.store(k).remove(id)
                } else {
                    self.store(k)
                },
            Change::Delete(id) => forall|k: TypeId| #[trigger]
                after.store(k) == self.store(k).remove(id),
        }
    }

    /// An empty registry.
    pub fn new() -> (r: Self)
        ensures
            r.wf(),
            forall|kind: TypeId| #[trigger] r.store(kind) == Map::<EntityId, C>::empty(),
    {
        Registry { component_stores: Vec::new() }
    }

    /// Where the bucket of `kind` is, if there is one.
    fn position(&self, kind: TypeId) -> (r: Option<usize>)
        requires
            self.wf(),
        ensures
            match r {
                Some(i) => i < self.component_stores@.len() && self.component_stores@[i as int].0
                    == kind && self.has_slot(kind) && self.slot(kind) == i,
                None => !self.has_slot(kind),
            },
    {
        let mut i: usize = 0;
        while i < self.component_stores.len()
            invariant
                self.wf(),
                i <= self.component_stores@.len(),
                forall|q: int| 0 <= q < i ==> (#[trigger] self.component_stores@[q]).0 != kind,
            decreases self.component_stores@.len() - i,
        {
            if same_kind(&self.component_stores[i].0, &kind) {
                proof {
                    self.lemma_slot(i as int);
                }
                return Some(i);
            }
            i = i + 1;
        }
        None
    }

    /// Replacing the bucket at slot `i` changes the store of that kind only.
    proof fn lemma_replace_slot(self, before: Self, i: int)
        requires
            before.wf(),
            0 <= i < before.component_stores@.len(),
            self.component_stores@.len() == before.component_stores@.len(),
            self.component_stores@[i].0 == before.component_stores@[i].0,
            self.component_stores@[i].1.wf(),
            forall|q: int|
                0 <= q < before.component_stores@.len() && q != i ==> #[trigger] self.component_stores@[q]
                    == before.component_stores@[q],
        ensures
            self.wf(),
            self.bucket(before.component_stores@[i].0) == Some(self.component_stores@[i].1),
            forall|k: TypeId|
                k != before.component_stores@[i].0 ==> #[trigger] self.bucket(k) == before.bucket(
                    k,
                ),
    {
        let kind = before.component_stores@[i].0;
        assert forall|a: int, b: int|
            0 <= a < b < self.component_stores@.len() implies (#[trigger] self.component_stores@[a]).0
            != (#[trigger] self.component_stores@[b]).0 by {
            assert(before.component_stores@[a].0 != before.component_stores@[b].0);
        }
        assert forall|a: int| 0 <= a < self.component_stores@.len() implies (
        #[trigger] self.component_stores@[a]).1.wf() by {
            if a != i {
                assert(before.component_stores@[a].1.wf());
            }
        }
        self.lemma_slot(i);
        assert forall|k: TypeId| k != kind implies #[trigger] self.bucket(k) == before.bucket(k) by {
            if self.has_slot(k) {
                let j = self.slot(k);
                assert(before.component_stores@[j].0 == k);
                before.lemma_slot(j);
            }
            if before.has_slot(k) {
                let j = before.slot(k);
                assert(self.component_stores@[j].0 == k);
                self.lemma_slot(j);
            }
        }
    }

    /// Adds an empty bucket for a kind that has none.
    fn add_slot(&mut self, kind: TypeId) -> (i: usize)
        requires
            old(self).wf(),
            !old(self).has_slot(kind),
        ensures
            final(self).wf(),
            i < final(self).component_stores@.len(),
            final(self).component_stores@[i as int].0 == kind,
            forall|k: TypeId| #[trigger] final(self).store(k) == old(self).store(k),
            forall|k: TypeId| #[trigger] final(self).order(k) == old(self).order(k),
            forall|k: TypeId| k != kind ==> #[trigger] final(self).bucket(k) == old(self).bucket(k),
    {
        let ghost before = *self;
        self.component_stores.push((kind, Bucket::new()));
        let i = self.component_stores.len() - 1;
        proof {
            let s = self.component_stores@;
            assert forall|a: int, b: int|
                0 <= a < b < s.len() implies (#[trigger] s[a]).0 != (#[trigger] s[b]).0 by {
                if b == i {
                    assert(before.component_stores@[a].0 == s[a].0);
                } else {
                    assert(before.component_stores@[a].0 != before.component_stores@[b].0);
                }
            }
            assert forall|a: int| 0 <= a < s.len() implies (#[trigger] s[a]).1.wf() by {
                if a < i {
                    assert(before.component_stores@[a] == s[a]);
                }
            }
            assert forall|k: TypeId| #[trigger] self.bucket(k) == if k == kind {
                Some(s[i as int].1)
            } else {
                before.bucket(k)
            } by {
                if self.has_slot(k) {
                    let j = self.slot(k);
                    self.lemma_slot(j);
                    if j < i {
                        assert(before.component_stores@[j].0 == k);
                        before.lemma_slot(j);
                    }
                }
                if before.has_slot(k) {
                    let j = before.slot(k);
                    assert(s[j].0 == k);
                    self.lemma_slot(j);
                }
                if k == kind {
                    assert(s[i as int].0 == kind);
                    self.lemma_slot(i as int);
                }
            }
            assert(s[i as int].1.map() == Map::<EntityId, C>::empty());
            s[i as int].1.lemma_ids();
            assert(s[i as int].1.ids() =~= Seq::<EntityId>::empty());
        }
        i
    }

    /// The slot of `kind`, adding an empty bucket if it has none.
    fn slot_for(&mut self, kind: TypeId) -> (i: usize)
        requires
            old(self).wf(),
        ensures
            final(self).wf(),
            i < final(self).component_stores@.len(),
            final(self).component_stores@[i as int].0 == kind,
            forall|k: TypeId| #[trigger] final(self).store(k) == old(self).store(k),
            forall|k: TypeId| #[trigger] final(self).order(k) == old(self).order(k),
            forall|k: TypeId| k != kind ==> #[trigger] final(self).bucket(k) == old(self).bucket(k),
    {
        match self.position(kind) {
            Some(i) => i,
            None => self.add_slot(kind),
        }
    }

    /// Attaches `value` to entity, or replaces it if there is already an
    /// attachment of kind `kind`.
    pub fn attach(&mut self, kind: TypeId, id: EntityId, value: C)
        requires
            old(self).wf(),
        ensures
            final(self).wf(),
            final(self).store(kind) == old(self).store(kind).insert(id, value),
            old(self).changed(Change::Attach(kind, id, value), *final(self)),
            forall|k: TypeId| k != kind ==> #[trigger] final(self).store(k) == old(self).store(k),
            forall|k: TypeId| k != kind ==> #[trigger] final(self).order(k) == old(self).order(k),
    {
        let ghost start = *self;
        let i = self.slot_for(kind);
        let ghost mid = *self;
        let slot = &mut self.component_stores[i];
        slot.1.attach(id, value);
        proof {
            mid.lemma_slot(i as int);
            self.lemma_replace_slot(mid, i as int);
            assert(mid.store(kind) == start.store(kind));
            assert forall|k: TypeId| k != kind implies #[trigger] self.store(k) == start.store(k) by {
                assert(mid.store(k) == start.store(k));
            }
            assert forall|k: TypeId| k != kind implies #[trigger] self.order(k) == start.order(k) by {
                assert(mid.order(k) == start.order(k));
            }
        }
    }

    /// The component of kind `kind` attached to `id`, if any.
    pub fn get(&self, kind: TypeId, id: EntityId) -> (r: Option<&C>)
        requires
            self.wf(),
        ensures
            r is Some <==> self.store(kind).contains_key(id),
            r matches Some(v) ==> *v == self.store(kind)[id],
    {
        match self.position(kind) {
            Some(i) => self.component_stores[i].1.get(id),
            None => None,
        }
    }

    /// Returns true iff `id` has a component of kind `kind`.
    pub fn has(&self, kind: TypeId, id: EntityId) -> (r: bool)
        requires
            self.wf(),
        ensures
            r == self.store(kind).contains_key(id),
    {
        match self.position(kind) {
            Some(i) => self.component_stores[i].1.has(id),
            None => false,
        }
    }

    /// Detaches the component of kind `kind` from `id` and returns it.
    pub fn remove(&mut self, kind: TypeId, id: EntityId) -> (r: Option<C>)
        requires
            old(self).wf(),
        ensures
            final(self).wf(),
            final(self).store(kind) == old(self).store(kind).remove(id),
            old(self).changed(Change::Remove(kind, id), *final(self)),
            r is Some <==> old(self).store(kind).contains_key(id),
            r matches Some(v) ==> v == old(self).store(kind)[id],
            forall|k: TypeId| k != kind ==> #[trigger] final(self).store(k) == old(self).store(k),
            forall|k: TypeId| k != kind ==> #[trigger] final(self).order(k) == old(self).order(k),
    {
        match self.position(kind) {
            Some(i) => {
                let ghost mid = *self;
                let slot = &mut self.component_stores[i];
                let r = slot.1.remove(id);
                proof {
                    self.lemma_replace_slot(mid, i as int);
                }
                r
            },
            None => {
                proof {
                    assert(self.store(kind).remove(id) =~= self.store(kind));
                }
                None
            },
        }
    }

    /// The component of kind `kind` attached to `id`, for in-place change.
    pub fn get_mut(&mut self, kind: TypeId, id: EntityId) -> (r: Option<&mut C>)
        requires
            old(self).wf(),
        ensures
            final(self).wf(),
            r is Some <==> old(self).store(kind).contains_key(id),
            r matches Some(v) ==> {
                &&& *v == old(self).store(kind)[id]
                &&& final(self).store(kind) == old(self).store(kind).insert(id, *final(v))
            },
            r is None ==> final(self).store(kind) == old(self).store(kind),
            forall|k: TypeId| k != kind ==> #[trigger] final(self).store(k) == old(self).store(k),
            forall|k: TypeId| k != kind ==> #[trigger] final(self).order(k) == old(self).order(k),
    {
        match self.position(kind) {
            Some(i) => {
                proof {
                    lemma_seq_slot(self.component_stores@, i as int);
                    lemma_seq_replace(self.component_stores@, i as int);
                }
                let slot = &mut self.component_stores[i];
                slot.1.get_mut(id)
            },
            None => None,
        }
    }

    /// The component of kind `kind` attached to `id`, for in-place change,
    /// attaching `default` first if there is none. Never removes or replaces
    /// existing data.
    pub fn get_or_default(&mut self, kind: TypeId, id: EntityId, default: C) -> (r: &mut C)
        requires
            old(self).wf(),
        ensures
            final(self).wf(),
            *r == if old(self).store(kind).contains_key(id) {
                old(self).store(kind)[id]
            } else {
                default
            },
            final(self).store(kind) == old(self).store(kind).insert(id, *final(r)),
            forall|k: TypeId| k != kind ==> #[trigger] final(self).store(k) == old(self).store(k),
            forall|k: TypeId| k != kind ==> #[trigger] final(self).order(k) == old(self).order(k),
    {
        let ghost start = *self;
        let i = self.slot_for(kind);
        proof {
            lemma_seq_slot(self.component_stores@, i as int);
            lemma_seq_replace(self.component_stores@, i as int);
            assert(self.store(kind) == start.store(kind));
            assert forall|k: TypeId| k != kind implies #[trigger] seq_bucket(
                self.component_stores@,
                k,
            ) == seq_bucket(start.component_stores@, k) by {
                assert(self.bucket(k) == start.bucket(k));
            }
        }
        let slot = &mut self.component_stores[i];
        slot.1.get_or_insert(id, default)
    }

    /// Two slot lists with the same kinds at the same places find each kind at
    /// the same place.
    proof fn lemma_same_kinds(s: Seq<(TypeId, Bucket<C>)>, t: Seq<(TypeId, Bucket<C>)>, k: TypeId)
        requires
            seq_wf(s),
            seq_wf(t),
            s.len() == t.len(),
            forall|q: int| 0 <= q < s.len() ==> (#[trigger] s[q]).0 == t[q].0,
        ensures
            seq_has_slot(s, k) == seq_has_slot(t, k),
            seq_has_slot(s, k) ==> seq_slot(s, k) == seq_slot(t, k),
    {
        if seq_has_slot(s, k) {
            let j = seq_slot(s, k);
            assert(t[j].0 == k);
            lemma_seq_slot(s, j);
            lemma_seq_slot(t, j);
        }
        if seq_has_slot(t, k) {
            let j = seq_slot(t, k);
            assert(s[j].0 == k);
            lemma_seq_slot(s, j);
        }
    }

    /// Removes all attached components for this entity, or a noop if there are none.
    pub fn delete(&mut self, entity: EntityId)
        requires
            old(self).wf(),
        ensures
            final(self).wf(),
            forall|k: TypeId| #[trigger] final(self).store(k) == old(self).store(k).remove(entity),
            old(self).changed(Change::Delete(entity), *final(self)),
    {
        let ghost r0 = *self;
        let ghost s0 = self.component_stores@;
        let mut i: usize = 0;
        while i < self.component_stores.len()
            invariant
                seq_wf(s0),
                seq_wf(self.component_stores@),
                i <= self.component_stores@.len(),
                self.component_stores@.len() == s0.len(),
                forall|q: int|
                    0 <= q < s0.len() ==> (#[trigger] self.component_stores@[q]).0 == s0[q].0,
                forall|q: int|
                    0 <= q < i ==> (#[trigger] self.component_stores@[q]).1.map() == s0[q].1.map().remove(
                        entity,
                    ),
                forall|q: int|
                    i <= q < s0.len() ==> #[trigger] self.component_stores@[q] == s0[q],
            decreases s0.len() - i,
        {
            proof {
                lemma_seq_replace(self.component_stores@, i as int);
            }
            let slot = &mut self.component_stores[i];
            slot.1.remove(entity);
            i = i + 1;
        }
        proof {
            let t = self.component_stores@;
            assert forall|k: TypeId| #[trigger] self.store(k) == r0.store(k).remove(entity) by {
                Self::lemma_same_kinds(s0, t, k);
                if seq_has_slot(s0, k) {
                    let j = seq_slot(s0, k);
                    assert(s0[j].0 == k);
                } else {
                    assert(Map::<EntityId, C>::empty().remove(entity) =~= Map::<EntityId, C>::empty());
                }
            }
        }
    }

    /// Every entity with a component of kind `kind`, with that component, in
    /// increasing id order.
    pub fn view(&self, kind: TypeId) -> (r: Vec<(EntityId, &C)>)
        requires
            self.wf(),
        ensures
            r@.map_values(|p: (EntityId, &C)| p.0) == self.order(kind),
            forall|q: int|
                0 <= q < r@.len() ==> *(#[trigger] r@[q]).1 == self.store(kind)[r@[q].0],
    {
        match self.position(kind) {
            Some(i) => {
                let r = self.component_stores[i].1.entries();
                proof {
                    assert(r@.map_values(|p: (EntityId, &C)| p.0) =~= self.order(kind));
                }
                r
            },
            None => {
                let r: Vec<(EntityId, &C)> = Vec::new();
                proof {
                    assert(r@.map_values(|p: (EntityId, &C)| p.0) =~= self.order(kind));
                }
                r
            },
        }
    }

    /// Filtering a list with a predicate that holds nowhere leaves nothing.
    proof fn lemma_filter_none(ids: Seq<EntityId>, pred: spec_fn(EntityId) -> bool)
        requires
            forall|i: int| 0 <= i < ids.len() ==> !pred(#[trigger] ids[i]),
        ensures
            ids.filter(pred) == Seq::<EntityId>::empty(),
        decreases ids.len(),
    {
        reveal_with_fuel(Seq::filter, 1);
        if ids.len() > 0 {
            Self::lemma_filter_none(ids.drop_last(), pred);
        }
    }

    /// Returns a vector over all entities with components of both kinds, in
    /// increasing id order.
    pub fn view_pair(&self, a: TypeId, b: TypeId) -> (r: Vec<(EntityId, &C, &C)>)
        requires
            self.wf(),
        ensures
            r@.map_values(|t: (EntityId, &C, &C)| t.0) == self.order(a).filter(
                |e: EntityId| self.store(b).contains_key(e),
            ),
            forall|q: int|
                0 <= q < r@.len() ==> *(#[trigger] r@[q]).1 == self.store(a)[r@[q].0] && *r@[q].2
                    == self.store(b)[r@[q].0],
    {
        match (self.position(a), self.position(b)) {
            (Some(i), Some(j)) => {
                proof {
                    lemma_seq_slot(self.component_stores@, i as int);
                    lemma_seq_slot(self.component_stores@, j as int);
                }
                join_pair(&self.component_stores[i].1, &self.component_stores[j].1)
            },
            _ => {
                let r: Vec<(EntityId, &C, &C)> = Vec::new();
                proof {
                    Self::lemma_filter_none(
                        self.order(a),
                        |e: EntityId| self.store(b).contains_key(e),
                    );
                    assert(r@.map_values(|t: (EntityId, &C, &C)| t.0) =~= Seq::<EntityId>::empty());
                }
                r
            },
        }
    }

    proof fn lemma_filter_empty(pred: spec_fn(EntityId) -> bool)
        ensures
            Seq::<EntityId>::empty().filter(pred) == Seq::<EntityId>::empty(),
    {
        reveal_with_fuel(Seq::filter, 1);
    }

    /// Returns a vector over all entities with components of all three kinds,
    /// in increasing id order.
    pub fn view_triple(&self, a: TypeId, b: TypeId, c: TypeId) -> (r: Vec<(EntityId, &C, &C, &C)>)
        requires
            self.wf(),
        ensures
            r@.map_values(|t: (EntityId, &C, &C, &C)| t.0) == self.order(a).filter(
                |e: EntityId| self.store(b).contains_key(e) && self.store(c).contains_key(e),
            ),
            forall|q: int|
                0 <= q < r@.len() ==> *(#[trigger] r@[q]).1 == self.store(a)[r@[q].0] && *r@[q].2
                    == self.store(b)[r@[q].0] && *r@[q].3 == self.store(c)[r@[q].0],
    {
        match (self.position(a), self.position(b), self.position(c)) {
            (Some(i), Some(j), Some(k)) => {
                proof {
                    lemma_seq_slot(self.component_stores@, i as int);
                    lemma_seq_slot(self.component_stores@, j as int);
                    lemma_seq_slot(self.component_stores@, k as int);
                }
                join_triple(
                    &self.component_stores[i].1,
                    &self.component_stores[j].1,
                    &self.component_stores[k].1,
                )
            },
            _ => {
                let r: Vec<(EntityId, &C, &C, &C)> = Vec::new();
                proof {
                    let pred = |e: EntityId|
                        self.store(b).contains_key(e) && self.store(c).contains_key(e);
                    if self.has_slot(a) {
                        Self::lemma_filter_none(self.order(a), pred);
                    } else {
                        Self::lemma_filter_empty(pred);
                    }
                    assert(r@.map_values(|t: (EntityId, &C, &C, &C)| t.0) =~= Seq::<
                        EntityId,
                    >::empty());
                }
                r
            },
        }
    }

    /// The first values of `values` are the components of `id` of the first
    /// kinds of `kinds`.
    spec fn found(self, kinds: Seq<TypeId>, id: EntityId, values: Seq<&C>) -> bool {
        forall|w: int|
            0 <= w < values.len() ==> *(#[trigger] values[w]) == self.store(kinds[w])[id]
                && self.store(kinds[w]).contains_key(id)
    }

    /// An entity has components of all of `kinds`.
    pub open spec fn has_all(self, kinds: Seq<TypeId>, e: EntityId) -> bool {
        forall|q: int| 0 <= q < kinds.len() ==> #[trigger] self.store(kinds[q]).contains_key(e)
    }

    /// Returns the entities that have a component of every kind of `kinds`,
    /// in increasing id order, each with its components in the order of
    /// `kinds`.
    pub fn view_tuple<'a>(&'a self, kinds: &[TypeId]) -> (r: Vec<(EntityId, Vec<&'a C>)>)
        requires
            self.wf(),
            kinds@.len() > 0,
        ensures
            r@.map_values(|t: (EntityId, Vec<&C>)| t.0) == self.order(kinds@[0]).filter(
                |e: EntityId| self.has_all(kinds@, e),
            ),
            forall|x: int|
                0 <= x < r@.len() ==> (#[trigger] r@[x]).1@.len() == kinds@.len() && forall|q: int|
                    0 <= q < kinds@.len() ==> *(#[trigger] r@[x].1@[q]) == self.store(kinds@[q])[r@[x].0],
    {
        let ghost pred = |e: EntityId| self.has_all(kinds@, e);
        let ghost ids = self.order(kinds@[0]);
        let driver = self.view(kinds[0]);
        proof {
            self.lemma_order(kinds@[0]);
        }
        let mut out: Vec<(EntityId, Vec<&'a C>)> = Vec::new();
        let mut i: usize = 0;
        while i < driver.len()
            invariant
                self.wf(),
                kinds@.len() > 0,
                pred == (|e: EntityId| self.has_all(kinds@, e)),
                ids == self.order(kinds@[0]),
                driver@.map_values(|p: (EntityId, &C)| p.0) == ids,
                forall|q: int|
                    0 <= q < driver@.len() ==> *(#[trigger] driver@[q]).1 == self.store(kinds@[0])[driver@[q].0],
                forall|e: EntityId| #[trigger]
                    ids.contains(e) <==> self.store(kinds@[0]).contains_key(e),
                i <= driver@.len(),
                out@.map_values(|t: (EntityId, Vec<&C>)| t.0) == ids.take(i as int).filter(pred),
                forall|x: int|
                    0 <= x < out@.len() ==> (#[trigger] out@[x]).1@.len() == kinds@.len()
                        && forall|q: int|
                        0 <= q < kinds@.len() ==> *(#[trigger] out@[x].1@[q]) == self.store(
                            kinds@[q],
                        )[out@[x].0],
            decreases driver@.len() - i,
        {
            let ghost before = out@;
            let id = driver[i].0;
            let first = driver[i].1;
            proof {
                assert(ids[i as int] == id);
                assert(ids.contains(id));
                reveal_with_fuel(Seq::filter, 1);
                assert(ids.take(i + 1).drop_last() == ids.take(i as int));
            }
            let mut values: Vec<&'a C> = Vec::new();
            values.push(first);
            proof {
                assert(values@[0] == first);
                assert(self.found(kinds@, id, values@));
            }
            let mut q: usize = 1;
            let mut complete = true;
            while q < kinds.len() && complete
                invariant
                    self.wf(),
                    1 <= q <= kinds@.len(),
                    self.store(kinds@[0]).contains_key(id),
                    *first == self.store(kinds@[0])[id],
                    complete ==> values@.len() == q,
                    values@.len() <= q,
                    self.found(kinds@, id, values@),
                    !complete ==> !self.has_all(kinds@, id),
                decreases kinds@.len() - q + (if complete { 1int } else { 0int }),
            {
                let ghost vals0 = values@;
                assert(self.found(kinds@, id, vals0));
                let got = self.get(kinds[q], id);
                match got {
                    Some(v) => {
                        values.push(v);
                    },
                    None => {
                        complete = false;
                    },
                }
                proof {
                    if got is Some {
                        assert(values@ == vals0.push(got->0));
                        assert forall|w: int| 0 <= w < values@.len() implies *(
                        #[trigger] values@[w]) == self.store(kinds@[w])[id] && self.store(
                            kinds@[w],
                        ).contains_key(id) by {
                            if w < vals0.len() {
                                assert(values@[w] == vals0[w]);
                            } else {
                                assert(values@[w] == got->0);
                            }
                        }
                        assert(self.found(kinds@, id, values@));
                    } else {
                        assert(self.found(kinds@, id, values@));
                    }
                }
                q = q + 1;
            }
            if complete {
                proof {
                    assert(values@.len() == kinds@.len());
                    assert(self.found(kinds@, id, values@));
                    assert forall|w: int| 0 <= w < kinds@.len() implies #[trigger] self.store(
                        kinds@[w],
                    ).contains_key(id) by {
                        assert(*values@[w] == self.store(kinds@[w])[id]);
                    }
                }
                out.push((id, values));
                proof {
                    assert(self.has_all(kinds@, id));
                    assert(out@.map_values(|t: (EntityId, Vec<&C>)| t.0) =~= before.map_values(
                        |t: (EntityId, Vec<&C>)| t.0,
                    ).push(id));
                }
            }
            i = i + 1;
        }
        proof {
            assert(ids.take(driver@.len() as int) == ids);
        }
        out
    }

    /// Copies all components from `source` onto `target`, replacing as necessary.
    pub fn clone(&mut self, source: EntityId, target: EntityId)
        where C: Clone
        requires
            old(self).wf(),
        ensures
            final(self).wf(),
            forall|k: TypeId| #[trigger]
                old(self).store(k).contains_key(source) ==> {
                    &&& final(self).store(k).contains_key(target)
                    &&& cloned(old(self).store(k)[source], final(self).store(k)[target])
                    &&& final(self).store(k) == old(self).store(k).insert(
                        target,
                        final(self).store(k)[target],
                    )
                },
            forall|k: TypeId|
                !old(self).store(k).contains_key(source) ==> #[trigger] final(self).store(k)
                    == old(self).store(k),
    {
        let ghost r0 = *self;
        let ghost s0 = self.component_stores@;
        let mut i: usize = 0;
        while i < self.component_stores.len()
            invariant
                seq_wf(s0),
                seq_wf(self.component_stores@),
                i <= self.component_stores@.len(),
                self.component_stores@.len() == s0.len(),
                forall|q: int|
                    0 <= q < s0.len() ==> (#[trigger] self.component_stores@[q]).0 == s0[q].0,
                forall|q: int|
                    0 <= q < i ==> {
                        let m0 = s0[q].1.map();
                        let m1 = (#[trigger] self.component_stores@[q]).1.map();
                        &&& m0.contains_key(source) ==> m1.contains_key(target) && cloned(
                            m0[source],
                            m1[target],
                        ) && m1 == m0.insert(target, m1[target])
                        &&& !m0.contains_key(source) ==> m1 == m0
                    },
                forall|q: int|
                    i <= q < s0.len() ==> #[trigger] self.component_stores@[q] == s0[q],
            decreases s0.len() - i,
        {
            proof {
                lemma_seq_replace(self.component_stores@, i as int);
            }
            let slot = &mut self.component_stores[i];
            // First, find the component of the source in this bucket.
            let copy = match slot.1.get(source) {
                Some(x) => Some(x.clone()),
                None => None,
            };
            if let Some(x) = copy {
                slot.1.attach(target, x);
            }
            i = i + 1;
        }
        proof {
            let t = self.component_stores@;
            assert forall|k: TypeId| #[trigger] r0.store(k).contains_key(source) implies {
                &&& self.store(k).contains_key(target)
                &&& cloned(r0.store(k)[source], self.store(k)[target])
                &&& self.store(k) == r0.store(k).insert(target, self.store(k)[target])
            } by {
                Self::lemma_same_kinds(s0, t, k);
                let j = seq_slot(s0, k);
                assert(s0[j].0 == k);
            }
            assert forall|k: TypeId| !r0.store(k).contains_key(source) implies #[trigger] self.store(
                k,
            ) == r0.store(k) by {
                Self::lemma_same_kinds(s0, t, k);
                if seq_has_slot(s0, k) {
                    let j = seq_slot(s0, k);
                    assert(s0[j].0 == k);
                }
            }
        }
    }
}


impl<C> Default for Registry<C> {
    /// An empty registry.
    fn default() -> (r: Self)
        ensures
            r.wf(),
            forall|kind: TypeId| #[trigger] r.store(kind) == Map::<EntityId, C>::empty(),
    {
        Registry::new()
    }
}


/// A component stays as attached: after a history of changes in which, at
/// step `j`, `value` was attached as the component of kind `kind` of `id`,
/// and no later change concerned that component, the registry still holds
/// `value` there, so `get` gives it back.
pub proof fn lemma_attached_stays<C>(
    states: Seq<Registry<C>>,
    changes: Seq<Change<C>>,
    j: int,
    kind: TypeId,
    id: EntityId,
    value: C,
)
    requires
        states.len() == changes.len() + 1,
        forall|i: int| 0 <= i < changes.len() ==> #[trigger] states[i].changed(changes[i], states[i + 1]),
        0 <= j < changes.len(),
        changes[j] == Change::Attach(kind, id, value),
        forall|i: int| j < i < changes.len() ==> !touches(#[trigger] changes[i], kind, id),
    ensures
        states.last().store(kind).contains_key(id),
        states.last().store(kind)[id] == value,
{
    lemma_attached_from(states, changes, j, kind, id, value, changes.len() as int);
}

proof fn lemma_attached_from<C>(
    states: Seq<Registry<C>>,
    changes: Seq<Change<C>>,
    j: int,
    kind: TypeId,
    id: EntityId,
    value: C,
    n: int,
)
    requires
        states.len() == changes.len() + 1,
        forall|i: int| 0 <= i < changes.len() ==> #[trigger] states[i].changed(changes[i], states[i + 1]),
        0 <= j < n <= changes.len(),
        changes[j] == Change::Attach(kind, id, value),
        forall|i: int| j < i < changes.len() ==> !touches(#[trigger] changes[i], kind, id),
    ensures
        states[n].store(kind).contains_key(id),
        states[n].store(kind)[id] == value,
    decreases n - j,
{
    let p = n - 1;
    assert(states[p].changed(changes[p], states[p + 1]));
    assert(p + 1 == n);
    if n - 1 == j {
        assert(states[n].store(kind) == states[j].store(kind).insert(id, value));
    } else {
        lemma_attached_from(states, changes, j, kind, id, value, n - 1);
        assert(!touches(changes[n - 1], kind, id));
        let before = states[n - 1].store(kind);
        match changes[n - 1] {
            Change::Attach(k, x, v) => {
                assert(states[n].store(kind) == if k == kind {
                    before.insert(x, v)
                } else {
                    before
                });
            },
            Change::Remove(k, x) => {
                assert(states[n].store(kind) == if k == kind {
                    before.remove(x)
                } else {
                    before
                });
            },
            Change::Delete(x) => {
                assert(states[n].store(kind) == before.remove(x));
            },
        }
    }
}

/// A component that was never attached is not there: starting from a
/// registry without components of kind `kind`, after a history of changes
/// none of which attached a component of that kind to `id`, `id` has none,
/// so `get` gives `None`.
pub proof fn lemma_never_attached<C>(
    states: Seq<Registry<C>>,
    changes: Seq<Change<C>>,
    kind: TypeId,
    id: EntityId,
)
    requires
        states.len() == changes.len() + 1,
        forall|i: int| 0 <= i < changes.len() ==> #[trigger] states[i].changed(changes[i], states[i + 1]),
        states[0].store(kind) == Map::<EntityId, C>::empty(),
        forall|i: int|
            0 <= i < changes.len() ==> !(#[trigger] changes[i] matches Change::Attach(k, x, _) && k
                == kind && x == id),
    ensures
        !states.last().store(kind).contains_key(id),
{
    lemma_never_attached_upto(states, changes, kind, id, changes.len() as int);
}

proof fn lemma_never_attached_upto<C>(
    states: Seq<Registry<C>>,
    changes: Seq<Change<C>>,
    kind: TypeId,
    id: EntityId,
    n: int,
)
    requires
        states.len() == changes.len() + 1,
        forall|i: int| 0 <= i < changes.len() ==> #[trigger] states[i].changed(changes[i], states[i + 1]),
        states[0].store(kind) == Map::<EntityId, C>::empty(),
        forall|i: int|
            0 <= i < changes.len() ==> !(#[trigger] changes[i] matches Change::Attach(k, x, _) && k
                == kind && x == id),
        0 <= n <= changes.len(),
    ensures
        !states[n].store(kind).contains_key(id),
    decreases n,
{
    if n > 0 {
        lemma_never_attached_upto(states, changes, kind, id, n - 1);
        let p = n - 1;
        assert(states[p].changed(changes[p], states[p + 1]));
        assert(p + 1 == n);
        let before = states[n - 1].store(kind);
        match changes[n - 1] {
            Change::Attach(k, x, v) => {
                assert(states[n].store(kind) == if k == kind {
                    before.insert(x, v)
                } else {
                    before
                });
            },
            Change::Remove(k, x) => {
                assert(states[n].store(kind) == if k == kind {
                    before.remove(x)
                } else {
                    before
                });
            },
            Change::Delete(x) => {
                assert(states[n].store(kind) == before.remove(x));
            },
        }
    }
}

} // verus!
