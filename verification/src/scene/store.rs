//! Helper object to store entity data and hand out fresh entity ids.

use crate::scene::bucket::Bucket;
use crate::scene::entity::{lemma_nth, lemma_ordinal, EntityId};
use vstd::prelude::*;

verus! {

/// A call that changes a store.
pub enum Call<D> {
    /// Creating an entity holding the data.
    Create(D),
    /// Deleting the entity.
    Delete(EntityId),
}

/// How many of `calls` create an entity.
pub open spec fn creates<D>(calls: Seq<Call<D>>) -> nat
    decreases calls.len(),
{
    if calls.len() == 0 {
        0
    } else {
        creates(calls.drop_last()) + if calls.last() is Create {
            1nat
        } else {
            0nat
        }
    }
}

/// The data of every live entity, and the id the next entity gets.
pub struct Store<D> {
    entity_data: Bucket<D>,
    next_key: usize,
}

impl<D> Store<D> {
    /// The data of each live entity.
    pub closed spec fn data(self) -> Map<EntityId, D> {
        self.entity_data.map()
    }

    /// The live entities, in increasing id order.
    pub closed spec fn ids(self) -> Seq<EntityId> {
        self.entity_data.ids()
    }

    /// How many entities this store has created so far.
    pub closed spec fn created(self) -> nat {
        self.next_key as nat
    }

    /// Every live entity was created by this store.
    pub closed spec fn wf(self) -> bool {
        &&& self.entity_data.wf()
        &&& forall|e: EntityId| #[trigger]
            self.entity_data.map().contains_key(e) ==> e.index() < self.next_key
    }

    /// The live entities are the keys of the data, each once, in id order.
    pub proof fn lemma_ids(self)
        requires
            self.wf(),
        ensures
            forall|e: EntityId| #[trigger] self.ids().contains(e) <==> self.data().contains_key(e),
            self.ids().no_duplicates(),
            forall|i: int, j: int|
                0 <= i < j < self.ids().len() ==> (#[trigger] self.ids()[i]).precedes(
                    #[trigger] self.ids()[j],
                ),
    {
        self.entity_data.lemma_ids();
    }

    /// `after` is this store once `call` was made, which returned `issued`
    /// if it created an entity.
    pub open spec fn called(self, call: Call<D>, issued: EntityId, after: Self) -> bool {
        match call {
            Call::Create(data) => {
                &&& issued == EntityId::nth(self.created())
                &&& !self.data().contains_key(issued)
                &&& after.data() == self.data().insert(issued, data)
                &&& after.created() == self.created() + 1
            },
            Call::Delete(id) => {
                &&& after.data() == self.data().remove(id)
                &&& after.created() == self.created()
            },
        }
    }

    /// Every live entity has an ordinal below the count of created ones.
    pub proof fn lemma_live_below(self)
        requires
            self.wf(),
        ensures
            forall|e: EntityId| #[trigger]
                self.data().contains_key(e) ==> e.ordinal() < self.created(),
    {
        assert forall|e: EntityId| #[trigger] self.data().contains_key(e) implies e.ordinal()
            < self.created() by {
            lemma_ordinal(e, 0);
        }
    }

    /// The count of created entities fits in a `usize`.
    pub proof fn lemma_created_bound(self)
        ensures
            self.created() <= usize::MAX,
    {
    }

    /// An empty store.
    pub fn new() -> (s: Self)
        ensures
            s.wf(),
            s.data() == Map::<EntityId, D>::empty(),
            s.created() == 0,
    {
        Self { entity_data: Bucket::new(), next_key: 0 }
    }

    /// Creates a new entity holding `data` and returns its id, which no
    /// entity of this store had before.
    pub fn create(&mut self, data: D) -> (id: EntityId)
        requires
            old(self).wf(),
            old(self).created() < usize::MAX,
        ensures
            final(self).wf(),
            id == EntityId::nth(old(self).created()),
            old(self).called(Call::Create(data), id, *final(self)),
            !old(self).data().contains_key(id),
            final(self).data() == old(self).data().insert(id, data),
            final(self).created() == old(self).created() + 1,
    {
        let id = EntityId::new(self.next_key);
        proof {
            lemma_ordinal(id, self.next_key as nat);
        }
        self.next_key = self.next_key + 1;
        self.entity_data.attach(id, data);
        id
    }

    /// Deletes the entity `id`, if it is live.
    pub fn delete(&mut self, id: EntityId)
        requires
            old(self).wf(),
        ensures
            final(self).wf(),
            final(self).data() == old(self).data().remove(id),
            final(self).created() == old(self).created(),
            old(self).called(Call::Delete(id), id, *final(self)),
    {
        self.entity_data.remove(id);
    }

    /// The data of `id`, if it is live.
    pub fn get(&mut self, id: EntityId) -> (r: Option<&mut D>)
        requires
            old(self).wf(),
        ensures
            final(self).wf(),
            final(self).created() == old(self).created(),
            r is Some <==> old(self).data().contains_key(id),
            r matches Some(v) ==> {
                &&& *v == old(self).data()[id]
                &&& final(self).data() == old(self).data().insert(id, *final(v))
            },
            r is None ==> final(self).data() == old(self).data(),
    {
        self.entity_data.get_mut(id)
    }

    /// Every live entity with its data, in increasing id order.
    pub fn iter(&self) -> (r: Vec<(EntityId, &D)>)
        requires
            self.wf(),
        ensures
            r@.map_values(|p: (EntityId, &D)| p.0) == self.ids(),
            forall|i: int| 0 <= i < r@.len() ==> *(#[trigger] r@[i]).1 == self.data()[r@[i].0],
    {
        let r = self.entity_data.entries();
        proof {
            assert(r@.map_values(|p: (EntityId, &D)| p.0) =~= self.ids());
        }
        r
    }

    /// How many entities this store has created so far.
    pub fn count(&self) -> (n: usize)
        ensures
            n == self.created(),
    {
        self.next_key
    }

    /// Returns true iff `id` is live.
    pub fn contains(&self, id: EntityId) -> (r: bool)
        requires
            self.wf(),
        ensures
            r == self.data().contains_key(id),
    {
        self.entity_data.has(id)
    }
}


/// Ids are issued 0, 1, 2, ... in call order and never reused: starting
/// from a new store, after a history of creates and deletes the `k`-th create
/// issued the entity numbered `k`, which was live right after it, no two
/// creates issued the same id, and the store has created as many entities
/// as there were creates.
pub proof fn lemma_issued_in_order<D>(
    states: Seq<Store<D>>,
    calls: Seq<Call<D>>,
    issued: Seq<EntityId>,
)
    requires
        states.len() == calls.len() + 1,
        issued.len() == calls.len(),
        states[0].created() == 0,
        forall|i: int|
            0 <= i < calls.len() ==> #[trigger] states[i].called(calls[i], issued[i], states[i + 1]),
    ensures
        states.last().created() == creates(calls),
        forall|i: int|
            0 <= i < calls.len() && calls[i] is Create ==> {
                &&& #[trigger] issued[i] == EntityId::nth(creates(calls.take(i)))
                &&& states[i + 1].data().contains_key(issued[i])
            },
        forall|i: int, j: int|
            0 <= i < j < calls.len() && calls[i] is Create && calls[j] is Create ==> #[trigger] issued[i]
                != #[trigger] issued[j],
{
    lemma_created_counts(states, calls, issued, calls.len() as int);
    assert(calls.take(calls.len() as int) =~= calls);
    assert forall|i: int| 0 <= i < calls.len() && calls[i] is Create implies {
        &&& #[trigger] issued[i] == EntityId::nth(creates(calls.take(i)))
        &&& states[i + 1].data().contains_key(issued[i])
    } by {
        assert(states[i].called(calls[i], issued[i], states[i + 1]));
    }
    assert forall|i: int, j: int|
        0 <= i < j < calls.len() && calls[i] is Create && calls[j] is Create implies #[trigger] issued[i]
        != #[trigger] issued[j] by {
        assert(states[i].called(calls[i], issued[i], states[i + 1]));
        assert(states[j].called(calls[j], issued[j], states[j + 1]));
        lemma_created_grows(states, calls, issued, i + 1, j);
        states[j].lemma_created_bound();
        lemma_nth(states[i].created());
        lemma_nth(states[j].created());
    }
}

/// The count of created entities after `n` calls is the count of creates
/// among them.
proof fn lemma_created_counts<D>(
    states: Seq<Store<D>>,
    calls: Seq<Call<D>>,
    issued: Seq<EntityId>,
    n: int,
)
    requires
        states.len() == calls.len() + 1,
        issued.len() == calls.len(),
        states[0].created() == 0,
        forall|i: int|
            0 <= i < calls.len() ==> #[trigger] states[i].called(calls[i], issued[i], states[i + 1]),
        0 <= n <= calls.len(),
    ensures
        forall|i: int| 0 <= i <= n ==> #[trigger] states[i].created() == creates(calls.take(i)),
    decreases n,
{
    if n == 0 {
        assert(calls.take(0) =~= Seq::<Call<D>>::empty());
    } else {
        lemma_created_counts(states, calls, issued, n - 1);
        let p = n - 1;
        assert(states[p].called(calls[p], issued[p], states[p + 1]));
        assert(calls.take(n).drop_last() =~= calls.take(p));
        assert(calls.take(n).last() == calls[p]);
    }
}

/// The count of created entities never goes down, and goes up with each
/// create.
proof fn lemma_created_grows<D>(
    states: Seq<Store<D>>,
    calls: Seq<Call<D>>,
    issued: Seq<EntityId>,
    i: int,
    j: int,
)
    requires
        states.len() == calls.len() + 1,
        issued.len() == calls.len(),
        forall|k: int|
            0 <= k < calls.len() ==> #[trigger] states[k].called(calls[k], issued[k], states[k + 1]),
        0 <= i <= j <= calls.len(),
    ensures
        states[i].created() <= states[j].created(),
    decreases j - i,
{
    if i < j {
        lemma_created_grows(states, calls, issued, i, j - 1);
        let p = j - 1;
        assert(states[p].called(calls[p], issued[p], states[p + 1]));
    }
}

} // verus!
