//! An `Entity` is simply an id representing rendering data.

use crate::scene::Scene;
use std::any::TypeId;
use vstd::prelude::*;

verus! {

/// Identifies one entity of a scene.
#[derive(Debug, Clone, Copy, Hash, PartialEq, Eq, Structural, PartialOrd, Ord)]
pub struct EntityId(pub(crate) usize);

impl EntityId {
    /// The raw index behind this id.
    pub(crate) open spec fn index(self) -> usize {
        self.0
    }

    pub(crate) fn new(id: usize) -> (r: Self)
        ensures
            r.index() == id,
    {
        Self(id)
    }

    /// The position of this entity in creation order: the first entity a
    /// scene creates is number 0.
    pub closed spec fn ordinal(self) -> nat {
        self.0 as nat
    }

    /// The entity with the given position in creation order.
    pub closed spec fn nth(n: nat) -> EntityId {
        EntityId(n as usize)
    }

    /// `self` comes before `other` in id order.
    pub closed spec fn precedes(self, other: EntityId) -> bool {
        self.0 < other.0
    }
}

/// `precedes` is a strict total order on ids.
pub proof fn lemma_precedes_total(a: EntityId, b: EntityId, c: EntityId)
    ensures
        !a.precedes(a),
        a.precedes(b) && b.precedes(c) ==> a.precedes(c),
        a == b || a.precedes(b) || b.precedes(a),
        a.precedes(b) ==> !b.precedes(a),
{
}

/// `ordinal` and `nth` are the raw index.
pub(crate) proof fn lemma_ordinal(e: EntityId, n: nat)
    ensures
        e.ordinal() == e.index(),
        n <= usize::MAX ==> EntityId::nth(n).index() == n,
        EntityId::nth(e.ordinal()) == e,
{
}

/// The entity numbered `n` has ordinal `n`, so entities with different
/// numbers differ.
pub proof fn lemma_nth(n: nat)
    requires
        n <= usize::MAX,
    ensures
        EntityId::nth(n).ordinal() == n,
{
}

/// `precedes` compares raw indices.
pub(crate) proof fn lemma_precedes(a: EntityId, b: EntityId)
    ensures
        a.precedes(b) <==> a.index() < b.index(),
{
}

/// `s` with every occurrence of `x` taken out, the rest kept in order.
pub open spec fn without(s: Seq<EntityId>, x: EntityId) -> Seq<EntityId>
    decreases s.len(),
{
    if s.len() == 0 {
        s
    } else {
        let rest = without(s.drop_last(), x);
        if s.last() == x {
            rest
        } else {
            rest.push(s.last())
        }
    }
}

/// What `without` keeps and what it drops.
pub proof fn lemma_without(s: Seq<EntityId>, x: EntityId)
    ensures
        forall|y: EntityId| #[trigger] without(s, x).contains(y) <==> (s.contains(y) && y != x),
        !s.contains(x) ==> without(s, x) == s,
        s.no_duplicates() ==> without(s, x).no_duplicates(),
        without(s, x).len() <= s.len(),
    decreases s.len(),
{
    if s.len() > 0 {
        let init = s.drop_last();
        lemma_without(init, x);
        assert(s == init.push(s.last()));
        assert forall|y: EntityId| #[trigger] without(s, x).contains(y) <==> (s.contains(y) && y
            != x) by {
            let rest = without(init, x);
            if s.contains(y) && y != x {
                let i = choose|i: int| 0 <= i < s.len() && s[i] == y;
                if i < s.len() - 1 {
                    assert(init[i] == y);
                    assert(init.contains(y));
                    assert(rest.contains(y));
                    let k = choose|k: int| 0 <= k < rest.len() && rest[k] == y;
                    if s.last() != x {
                        assert(rest.push(s.last())[k] == y);
                    }
                } else {
                    assert(rest.push(s.last())[rest.len() as int] == y);
                }
            }
            if without(s, x).contains(y) {
                if s.last() != x {
                    let j = choose|j: int|
                        0 <= j < rest.len() + 1 && #[trigger] rest.push(s.last())[j] == y;
                    if j < rest.len() {
                        assert(rest[j] == y);
                        assert(rest.contains(y));
                        let i = choose|i: int| 0 <= i < init.len() && init[i] == y;
                        assert(s[i] == y);
                    } else {
                        assert(s[s.len() - 1] == y);
                    }
                } else {
                    assert(rest.contains(y));
                    let i = choose|i: int| 0 <= i < init.len() && init[i] == y;
                    assert(s[i] == y);
                }
            }
        }
        if !s.contains(x) {
            assert(!init.contains(x)) by {
                if init.contains(x) {
                    let i = choose|i: int| 0 <= i < init.len() && init[i] == x;
                    assert(s[i] == x);
                }
            }
            assert(s.last() != x) by {
                assert(s[s.len() - 1] == s.last());
            }
        }
        if s.no_duplicates() {
            assert(init.no_duplicates()) by {
                assert forall|i: int, j: int|
                    0 <= i < init.len() && 0 <= j < init.len() && i != j implies init[i]
                    != init[j] by {
                    assert(init[i] == s[i] && init[j] == s[j]);
                }
            }
            let rest = without(init, x);
            if s.last() != x {
                assert(!rest.contains(s.last())) by {
                    if rest.contains(s.last()) {
                        assert(init.contains(s.last()));
                        let i = choose|i: int| 0 <= i < init.len() && init[i] == s.last();
                        assert(s[i] == s[s.len() - 1]);
                    }
                }
                let r2 = rest.push(s.last());
                assert forall|i: int, j: int|
                    0 <= i < r2.len() && 0 <= j < r2.len() && i != j implies r2[i] != r2[j] by {
                    if i < rest.len() && j < rest.len() {
                        assert(r2[i] == rest[i] && r2[j] == rest[j]);
                    } else if i < rest.len() {
                        assert(r2[i] == rest[i]);
                        assert(rest.contains(rest[i]));
                    } else if j < rest.len() {
                        assert(r2[j] == rest[j]);
                        assert(rest.contains(rest[j]));
                    }
                }
            }
        }
    }
}


/// Taking `x` out of `s` keeps every other element, in order: it is `s`
/// filtered by being other than `x`.
pub proof fn lemma_without_is_filter(s: Seq<EntityId>, x: EntityId)
    ensures
        without(s, x) == s.filter(|y: EntityId| y != x),
    decreases s.len(),
{
    reveal_with_fuel(Seq::filter, 1);
    if s.len() > 0 {
        lemma_without_is_filter(s.drop_last(), x);
    } else {
        assert(s.filter(|y: EntityId| y != x) =~= s);
    }
}

/// Taking out the first element of a sequence in which it occurs once leaves
/// the rest of the sequence.
pub proof fn lemma_without_first(s: Seq<EntityId>)
    requires
        s.len() > 0,
        !s.drop_first().contains(s[0]),
    ensures
        without(s, s[0]) == s.drop_first(),
    decreases s.len(),
{
    if s.len() > 1 {
        let init = s.drop_last();
        assert(init[0] == s[0]);
        assert(init.drop_first() =~= s.drop_first().drop_last());
        assert(!init.drop_first().contains(init[0])) by {
            if init.drop_first().contains(init[0]) {
                let i = choose|i: int|
                    0 <= i < init.drop_first().len() && init.drop_first()[i] == init[0];
                assert(s.drop_first()[i] == s[0]);
            }
        }
        lemma_without_first(init);
        assert(s.last() == s.drop_first().last());
        assert(s.last() != s[0]) by {
            assert(s.drop_first()[s.drop_first().len() - 1] == s.last());
        }
        assert(s.drop_first() =~= init.drop_first().push(s.last()));
        assert(without(s, s[0]) == without(init, s[0]).push(s.last()));
    } else {
        assert(without(s.drop_last(), s[0]) == s.drop_last());
        assert(s.drop_first() =~= s.drop_last());
    }
}

/// A reference to an entity in the scene. It holds the entity id and a
/// mutable reference to the scene.
pub struct EntityRef<'a, C> {
    pub scene: &'a mut Scene<C>,
    pub id: EntityId,
}

impl<'a, C> EntityRef<'a, C> {
    pub(crate) fn new(scene: &'a mut Scene<C>, id: EntityId) -> (r: Self)
        ensures
            r.id == id,
            *r.scene == *old(scene),
            *final(r.scene) == *final(scene),
    {
        Self { scene, id }
    }

    /// Attaches `data` as this entity's component of kind `kind`, replacing
    /// the one there was.
    pub fn attach(self, kind: TypeId, data: C) -> (r: Self)
        requires
            self.scene.wf(),
        ensures
            r.id == self.id,
            *final(r.scene) == *final(self.scene),
            r.scene.wf(),
            r.scene.components().store(kind) == old(self.scene).components().store(kind).insert(
                self.id,
                data,
            ),
            forall|k: TypeId|
                k != kind ==> #[trigger] r.scene.components().store(k)
                    == old(self.scene).components().store(k),
            forall|k: TypeId|
                k != kind ==> #[trigger] r.scene.components().order(k)
                    == old(self.scene).components().order(k),
            r.scene.entity_store() == old(self.scene).entity_store(),
            r.scene.tree() == old(self.scene).tree(),
    {
        self.scene.registry.attach(kind, self.id, data);
        self
    }

    /// Returns true iff this entity has a component of kind `kind`.
    pub fn has(&self, kind: TypeId) -> (r: bool)
        requires
            self.scene.wf(),
        ensures
            r == old(self.scene).components().store(kind).contains_key(self.id),
    {
        self.scene.registry.has(kind, self.id)
    }

    /// This entity's component of kind `kind`, for in-place change.
    pub fn get(&mut self, kind: TypeId) -> (r: Option<&mut C>)
        requires
            old(self).scene.wf(),
        ensures
            final(self).id == old(self).id,
            final(self).scene.wf(),
            r is Some <==> old(self).scene.components().store(kind).contains_key(old(self).id),
            r matches Some(v) ==> {
                &&& *v == old(self).scene.components().store(kind)[old(self).id]
                &&& final(self).scene.components().store(kind) == old(
                    self,
                ).scene.components().store(kind).insert(old(self).id, *final(v))
            },
            r is None ==> final(self).scene.components().store(kind) == old(
                self,
            ).scene.components().store(kind),
            forall|k: TypeId|
                k != kind ==> #[trigger] final(self).scene.components().store(k) == old(
                    self,
                ).scene.components().store(k),
            final(self).scene.entity_store() == old(self).scene.entity_store(),
            final(self).scene.tree() == old(self).scene.tree(),
    {
        self.scene.registry.get_mut(kind, self.id)
    }

    /// This entity's component of kind `kind`, attaching `default` first if
    /// this entity doesn't have one. Never removes or replaces existing data.
    pub fn get_or_default(&mut self, kind: TypeId, default: C) -> (r: &mut C)
        requires
            old(self).scene.wf(),
        ensures
            final(self).id == old(self).id,
            final(self).scene.wf(),
            *r == if old(self).scene.components().store(kind).contains_key(old(self).id) {
                old(self).scene.components().store(kind)[old(self).id]
            } else {
                default
            },
            final(self).scene.components().store(kind) == old(self).scene.components().store(
                kind,
            ).insert(old(self).id, *final(r)),
            forall|k: TypeId|
                k != kind ==> #[trigger] final(self).scene.components().store(k) == old(
                    self,
                ).scene.components().store(k),
            final(self).scene.entity_store() == old(self).scene.entity_store(),
            final(self).scene.tree() == old(self).scene.tree(),
    {
        self.scene.registry.get_or_default(kind, self.id, default)
    }

    /// Detaches this entity's component of kind `kind` and returns it.
    pub fn remove(&mut self, kind: TypeId) -> (r: Option<C>)
        requires
            old(self).scene.wf(),
        ensures
            final(self).id == old(self).id,
            final(self).scene.wf(),
            final(self).scene.components().store(kind) == old(self).scene.components().store(
                kind,
            ).remove(old(self).id),
            r is Some <==> old(self).scene.components().store(kind).contains_key(old(self).id),
            r matches Some(v) ==> v == old(self).scene.components().store(kind)[old(self).id],
            forall|k: TypeId|
                k != kind ==> #[trigger] final(self).scene.components().store(k) == old(
                    self,
                ).scene.components().store(k),
            final(self).scene.entity_store() == old(self).scene.entity_store(),
            final(self).scene.tree() == old(self).scene.tree(),
    {
        self.scene.registry.remove(kind, self.id)
    }

    /// Drops this reference and returns the id of this entity, converting
    /// this mutable reference `EntityRef` to an immutable one: `EntityId`.
    pub fn id(self) -> (r: EntityId)
        ensures
            r == self.id,
            *final(self.scene) == *old(self.scene),
    {
        self.id
    }
}

} // verus!
