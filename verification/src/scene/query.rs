//! Queries over the components of a scene.

use crate::scene::entity::EntityId;
use crate::scene::Scene;
use std::any::TypeId;
use vstd::prelude::*;

verus! {

impl<C> Scene<C> {
    /// The component of kind `kind` attached to `entity`, if any.
    pub fn component(&self, kind: TypeId, entity: EntityId) -> (r: Option<&C>)
        requires
            self.wf(),
        ensures
            r is Some <==> self.components().store(kind).contains_key(entity),
            r matches Some(v) ==> *v == self.components().store(kind)[entity],
    {
        self.registry.get(kind, entity)
    }

    /// Every component of kind `kind` with its entity, sorted by entity id.
    pub fn view(&self, kind: TypeId) -> (r: Vec<(EntityId, &C)>)
        requires
            self.wf(),
        ensures
            r@.map_values(|p: (EntityId, &C)| p.0) == self.components().order(kind),
            forall|q: int|
                0 <= q < r@.len() ==> *(#[trigger] r@[q]).1 == self.components().store(kind)[r@[q].0],
    {
        self.registry.view(kind)
    }

    /// The entities with components of both kinds `a` and `b`, sorted by
    /// entity id, each with those two components.
    pub fn view_pair(&self, a: TypeId, b: TypeId) -> (r: Vec<(EntityId, &C, &C)>)
        requires
            self.wf(),
        ensures
            r@.map_values(|t: (EntityId, &C, &C)| t.0) == self.components().order(a).filter(
                |e: EntityId| self.components().store(b).contains_key(e),
            ),
            forall|q: int|
                0 <= q < r@.len() ==> *(#[trigger] r@[q]).1 == self.components().store(a)[r@[q].0]
                    && *r@[q].2 == self.components().store(b)[r@[q].0],
    {
        self.registry.view_pair(a, b)
    }

    /// The entities with components of the kinds `a`, `b` and `c`, sorted by
    /// entity id, each with those three components.
    pub fn view_triple(&self, a: TypeId, b: TypeId, c: TypeId) -> (r: Vec<(EntityId, &C, &C, &C)>)
        requires
            self.wf(),
        ensures
            r@.map_values(|t: (EntityId, &C, &C, &C)| t.0) == self.components().order(a).filter(
                |e: EntityId|
                    self.components().store(b).contains_key(e) && self.components().store(
                        c,
                    ).contains_key(e),
            ),
            forall|q: int|
                0 <= q < r@.len() ==> *(#[trigger] r@[q]).1 == self.components().store(a)[r@[q].0]
                    && *r@[q].2 == self.components().store(b)[r@[q].0] && *r@[q].3
                    == self.components().store(c)[r@[q].0],
    {
        self.registry.view_triple(a, b, c)
    }

    /// The entities with a component of every kind of `kinds`, sorted by
    /// entity id, each with its components in the order of `kinds`.
    pub fn view_tuple(&self, kinds: &[TypeId]) -> (r: Vec<(EntityId, Vec<&C>)>)
        requires
            self.wf(),
            kinds@.len() > 0,
        ensures
            r@.map_values(|t: (EntityId, Vec<&C>)| t.0) == self.components().order(kinds@[0]).filter(
                |e: EntityId| self.components().has_all(kinds@, e),
            ),
            forall|x: int|
                0 <= x < r@.len() ==> (#[trigger] r@[x]).1@.len() == kinds@.len() && forall|q: int|
                    0 <= q < kinds@.len() ==> *(#[trigger] r@[x].1@[q]) == self.components().store(
                        kinds@[q],
                    )[r@[x].0],
    {
        self.registry.view_tuple(kinds)
    }
}

} // verus!
