//! Entities, the hierarchy between them and the components attached to them.

pub(crate) mod bucket;
pub mod entity;
pub mod fonts;
pub mod group;
pub mod hierarchy;
pub mod query;
pub mod registry;
pub mod store;

pub use entity::{EntityId, EntityRef};
pub use group::GroupRef;

pub use hierarchy::Hierarchy;
pub use registry::Registry;
pub use store::Store;

use vstd::prelude::*;

verus! {

/// A scene: its live entities, the hierarchy between them, and the
/// components attached to them, each component being a value of type `C`
/// filed under a kind.
pub struct Scene<C> {
    pub(crate) store: Store<()>,
    pub(crate) registry: Registry<C>,
    pub(crate) hierarchy: Hierarchy,
}

impl<C> Scene<C> {
    /// The live entities of this scene.
    pub closed spec fn entity_store(self) -> Store<()> {
        self.store
    }

    /// The components of this scene.
    pub closed spec fn components(self) -> Registry<C> {
        self.registry
    }

    /// The hierarchy of this scene.
    pub closed spec fn tree(self) -> Hierarchy {
        self.hierarchy
    }

    /// The entity store, the registry and the hierarchy are each well formed.
    pub open spec fn wf(self) -> bool {
        &&& self.entity_store().wf()
        &&& self.components().wf()
        &&& self.tree().wf()
        &&& self.tree().bounded(self.entity_store().created())
    }

    /// An empty scene.
    pub fn new() -> (s: Self)
        ensures
            s.wf(),
            s.entity_store().data() == Map::<EntityId, ()>::empty(),
            s.entity_store().created() == 0,
            forall|k: std::any::TypeId| #[trigger]
                s.components().store(k) == Map::<EntityId, C>::empty(),
            forall|e: EntityId| #[trigger] s.tree().parent_of(e) == None::<EntityId>,
            forall|e: EntityId| #[trigger] s.tree().children_of(e) == Seq::<EntityId>::empty(),
    {
        Scene { store: Store::new(), registry: Registry::new(), hierarchy: Hierarchy::new() }
    }

    /// Creates a new entity and returns a reference to it. The new entity has
    /// no components and no place in the hierarchy yet.
    pub fn create(&mut self) -> (r: EntityRef<'_, C>)
        requires
            old(self).wf(),
            old(self).entity_store().created() < usize::MAX,
        ensures
            r.scene.wf(),
            r.id == EntityId::nth(old(self).entity_store().created()),
            !old(self).entity_store().data().contains_key(r.id),
            r.scene.entity_store().data() == old(self).entity_store().data().insert(r.id, ()),
            r.scene.entity_store().created() == old(self).entity_store().created() + 1,
            r.scene.components() == old(self).components(),
            r.scene.tree() == old(self).tree(),
            *final(self) == *final(r.scene),
    {
        let id = self.store.create(());
        proof {
            self.hierarchy.lemma_bounded_grow(
                old(self).entity_store().created(),
                self.entity_store().created(),
            );
        }
        EntityRef::new(self, id)
    }

    /// A reference to the live entity `id`, or `None` if there is no such
    /// entity.
    pub fn get(&mut self, id: EntityId) -> (r: Option<EntityRef<'_, C>>)
        requires
            old(self).wf(),
        ensures
            r is Some <==> old(self).entity_store().data().contains_key(id),
            r matches Some(e) ==> {
                &&& e.id == id
                &&& *e.scene == *old(self)
                &&& *final(self) == *final(e.scene)
            },
            r is None ==> *final(self) == *old(self),
    {
        if self.store.contains(id) {
            Some(EntityRef::new(self, id))
        } else {
            None
        }
    }

    /// Returns true iff `id` was created by this scene, which is what
    /// adding it to a group of this scene asks.
    pub fn issued(&self, id: EntityId) -> (r: bool)
        ensures
            r == (id.ordinal() < self.entity_store().created()),
    {
        proof {
            entity::lemma_ordinal(id, 0);
        }
        id.0 < self.store.count()
    }

    /// The live entities, in the order they were created.
    pub fn entities(&self) -> (r: Vec<EntityId>)
        requires
            self.wf(),
        ensures
            r@ == self.entity_store().ids(),
    {
        let all = self.store.iter();
        let mut r: Vec<EntityId> = Vec::new();
        let mut i: usize = 0;
        while i < all.len()
            invariant
                i <= all@.len(),
                all@.map_values(|p: (EntityId, &())| p.0) == self.entity_store().ids(),
                r@ == self.entity_store().ids().take(i as int),
            decreases all@.len() - i,
        {
            r.push(all[i].0);
            proof {
                assert(self.entity_store().ids()[i as int] == all@[i as int].0);
                assert(r@ =~= self.entity_store().ids().take(i + 1));
            }
            i = i + 1;
        }
        proof {
            assert(self.entity_store().ids().take(all@.len() as int) =~= self.entity_store().ids());
        }
        r
    }

    /// The hierarchy of this scene.
    pub fn hierarchy(&self) -> (r: &Hierarchy)
        ensures
            *r == self.tree(),
    {
        &self.hierarchy
    }

    /// The hierarchy of this scene, reached through a mutable borrow.
    pub fn hierarchy_mut(&mut self) -> (r: &Hierarchy)
        ensures
            *r == old(self).tree(),
            *final(self) == *old(self),
    {
        &self.hierarchy
    }
}

} // verus!
