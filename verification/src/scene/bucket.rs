//! A bucket keeps values keyed by entity, sorted by entity id, so that lookups
//! are binary searches and several buckets can be walked side by side.

use crate::scene::entity::{lemma_precedes, EntityId};
use vstd::prelude::*;

verus! {

/// Values of one kind, one per entity, kept sorted by entity id.
pub struct Bucket<T> {
    entries: Vec<(EntityId, T)>,
}

/// Ids strictly increase along `s`.
pub(crate) open spec fn sorted_by_id<T>(s: Seq<(EntityId, T)>) -> bool {
    forall|i: int, j: int|
        0 <= i < j < s.len() ==> (#[trigger] s[i]).0.index() < (#[trigger] s[j]).0.index()
}

/// The entries of `s` read as a map from entity to value.
pub(crate) open spec fn entry_map<T>(s: Seq<(EntityId, T)>) -> Map<EntityId, T> {
    Map::new(
        |e: EntityId| exists|i: int| 0 <= i < s.len() && (#[trigger] s[i]).0 == e,
        |e: EntityId| s[choose|i: int| 0 <= i < s.len() && (#[trigger] s[i]).0 == e].1,
    )
}

/// A sorted entry list is the map `m` once every entry is in `m` and every key
/// of `m` has an entry.
pub(crate) proof fn lemma_entry_map_is<T>(s: Seq<(EntityId, T)>, m: Map<EntityId, T>)
    requires
        sorted_by_id(s),
        forall|i: int|
            0 <= i < s.len() ==> {
                let e = #[trigger] s[i];
                m.contains_key(e.0) && m[e.0] == e.1
            },
        forall|e: EntityId| #[trigger]
            m.contains_key(e) ==> exists|i: int| 0 <= i < s.len() && (#[trigger] s[i]).0 == e,
    ensures
        entry_map(s) == m,
{
    assert(entry_map(s) =~= m);
}

/// Changing the value of one entry changes only that key of the map.
pub(crate) proof fn lemma_entry_map_update<T>(s: Seq<(EntityId, T)>, k: int, x: T)
    requires
        sorted_by_id(s),
        0 <= k < s.len(),
    ensures
        sorted_by_id(s.update(k, (s[k].0, x))),
        entry_map(s.update(k, (s[k].0, x))) == entry_map(s).insert(s[k].0, x),
{
    let t = s.update(k, (s[k].0, x));
    lemma_entry_map_at(s);
    assert forall|i: int, j: int| 0 <= i < j < t.len() implies (#[trigger] t[i]).0.index()
        < (#[trigger] t[j]).0.index() by {
        assert(s[i].0.index() < s[j].0.index());
    }
    let m = entry_map(s).insert(s[k].0, x);
    assert forall|i: int| 0 <= i < t.len() implies {
        let e = #[trigger] t[i];
        m.contains_key(e.0) && m[e.0] == e.1
    } by {
        if i != k {
            if i < k {
                assert(s[i].0.index() < s[k].0.index());
            } else {
                assert(s[k].0.index() < s[i].0.index());
            }
        }
    }
    assert forall|e: EntityId| #[trigger] m.contains_key(e) implies exists|i: int|
        0 <= i < t.len() && (#[trigger] t[i]).0 == e by {
        if e == s[k].0 {
            assert(t[k].0 == e);
        } else {
            let i = choose|i: int| 0 <= i < s.len() && (#[trigger] s[i]).0 == e;
            assert(t[i].0 == e);
        }
    }
    lemma_entry_map_is(t, m);
}

/// Every entry of a sorted list is what its map holds for its id.
pub(crate) proof fn lemma_entry_map_at<T>(s: Seq<(EntityId, T)>)
    requires
        sorted_by_id(s),
    ensures
        forall|i: int|
            0 <= i < s.len() ==> {
                let e = #[trigger] s[i];
                entry_map(s).contains_key(e.0) && entry_map(s)[e.0] == e.1
            },
        forall|e: EntityId| #[trigger]
            entry_map(s).contains_key(e) ==> exists|i: int|
                0 <= i < s.len() && (#[trigger] s[i]).0 == e,
{
    assert forall|i: int| 0 <= i < s.len() implies {
        let e = #[trigger] s[i];
        entry_map(s).contains_key(e.0) && entry_map(s)[e.0] == e.1
    } by {
        let e = s[i];
        assert(exists|j: int| 0 <= j < s.len() && (#[trigger] s[j]).0 == e.0);
        let j = choose|j: int| 0 <= j < s.len() && (#[trigger] s[j]).0 == e.0;
        if j < i {
            assert(s[j].0.index() < s[i].0.index());
        } else if j > i {
            assert(s[i].0.index() < s[j].0.index());
        }
    }
}

impl<T> Bucket<T> {
    /// The value held for each entity.
    pub closed spec fn map(self) -> Map<EntityId, T> {
        entry_map(self.entries@)
    }

    /// The entities of this bucket, in increasing id order.
    pub closed spec fn ids(self) -> Seq<EntityId> {
        self.entries@.map_values(|p: (EntityId, T)| p.0)
    }

    /// Ids strictly increase along the entries, and the entries are the map.
    pub closed spec fn wf(self) -> bool {
        sorted_by_id(self.entries@)
    }

    /// The ids of a well formed bucket are exactly the keys of its map.
    pub proof fn lemma_ids(self)
        requires
            self.wf(),
        ensures
            forall|e: EntityId| #[trigger] self.ids().contains(e) <==> self.map().contains_key(e),
            self.ids().no_duplicates(),
            self.ids().len() == self.map().dom().len(),
            forall|i: int, j: int|
                0 <= i < j < self.ids().len() ==> (#[trigger] self.ids()[i]).precedes(
                    #[trigger] self.ids()[j],
                ),
    {
        assert forall|i: int, j: int| 0 <= i < j < self.ids().len() implies (
        #[trigger] self.ids()[i]).precedes(#[trigger] self.ids()[j]) by {
            lemma_precedes(self.ids()[i], self.ids()[j]);
            assert(self.entries@[i].0.index() < self.entries@[j].0.index());
        }
        assert forall|e: EntityId| #[trigger] self.ids().contains(e) <==> self.map().contains_key(
            e,
        ) by {
            if self.map().contains_key(e) {
                let i = choose|i: int|
                    0 <= i < self.entries@.len() && (#[trigger] self.entries@[i]).0 == e;
                assert(self.ids()[i] == e);
            }
            if self.ids().contains(e) {
                let i = choose|i: int| 0 <= i < self.ids().len() && self.ids()[i] == e;
                assert(self.entries@[i].0 == e);
            }
        }
        assert forall|i: int, j: int|
            0 <= i < self.ids().len() && 0 <= j < self.ids().len() && i != j implies self.ids()[i]
            != self.ids()[j] by {
            if i < j {
                assert(self.entries@[i].0.index() < self.entries@[j].0.index());
            } else {
                assert(self.entries@[j].0.index() < self.entries@[i].0.index());
            }
        }
        self.ids().unique_seq_to_set();
        assert(self.ids().to_set() =~= self.map().dom());
    }

    /// An empty bucket.
    pub fn new() -> (b: Self)
        ensures
            b.wf(),
            b.map() == Map::<EntityId, T>::empty(),
    {
        proof {
            assert(entry_map(Seq::<(EntityId, T)>::empty()) =~= Map::empty());
        }
        Bucket { entries: Vec::new() }
    }

    /// The number of entities in this bucket.
    pub fn len(&self) -> (n: usize)
        requires
            self.wf(),
        ensures
            n == self.map().dom().len(),
    {
        proof {
            self.lemma_ids();
        }
        self.entries.len()
    }

    /// The position of the first entry whose id is not below `id`.
    fn lower_bound(&self, id: EntityId) -> (k: usize)
        requires
            self.wf(),
        ensures
            k <= self.entries@.len(),
            forall|i: int| 0 <= i < k ==> (#[trigger] self.entries@[i]).0.index() < id.index(),
            forall|i: int|
                k <= i < self.entries@.len() ==> (#[trigger] self.entries@[i]).0.index()
                    >= id.index(),
    {
        let mut lo: usize = 0;
        let mut hi: usize = self.entries.len();
        while lo < hi
            invariant
                self.wf(),
                lo <= hi <= self.entries@.len(),
                forall|i: int| 0 <= i < lo ==> (#[trigger] self.entries@[i]).0.index() < id.index(),
                forall|i: int|
                    hi <= i < self.entries@.len() ==> (#[trigger] self.entries@[i]).0.index()
                        >= id.index(),
            decreases hi - lo,
        {
            let mid = lo + (hi - lo) / 2;
            if self.entries[mid].0.0 < id.0 {
                lo = mid + 1;
            } else {
                hi = mid;
            }
        }
        lo
    }

    /// Where `id` sits in the entries, if it is there.
    fn find(&self, id: EntityId) -> (r: Result<usize, usize>)
        requires
            self.wf(),
        ensures
            match r {
                Ok(k) => k < self.entries@.len() && self.entries@[k as int].0 == id
                    && self.map().contains_key(id),
                Err(k) => {
                    &&& k <= self.entries@.len()
                    &&& !self.map().contains_key(id)
                    &&& forall|i: int|
                        0 <= i < k ==> (#[trigger] self.entries@[i]).0.index() < id.index()
                    &&& forall|i: int|
                        k <= i < self.entries@.len() ==> (#[trigger] self.entries@[i]).0.index()
                            > id.index()
                },
            },
    {
        let k = self.lower_bound(id);
        if k < self.entries.len() && self.entries[k].0 == id {
            Ok(k)
        } else {
            proof {
                if self.map().contains_key(id) {
                    let i = choose|i: int|
                        0 <= i < self.entries@.len() && (#[trigger] self.entries@[i]).0 == id;
                    if i > k {
                        assert(self.entries@[k as int].0.index() < self.entries@[i].0.index());
                    }
                }
                assert forall|i: int| k <= i < self.entries@.len() implies (#[trigger] self.entries@[
                    i
                ]).0.index() > id.index() by {
                    if i == k {
                        assert(self.entries@[i].0 != id);
                    } else {
                        assert(self.entries@[k as int].0.index() < self.entries@[i].0.index());
                    }
                }
            }
            Err(k)
        }
    }

    /// Returns true iff `id` has a value in this bucket.
    pub fn has(&self, id: EntityId) -> (r: bool)
        requires
            self.wf(),
        ensures
            r == self.map().contains_key(id),
    {
        match self.find(id) {
            Ok(_) => true,
            Err(_) => false,
        }
    }

    /// The value of `id`, if it has one.
    pub fn get(&self, id: EntityId) -> (r: Option<&T>)
        requires
            self.wf(),
        ensures
            r is Some <==> self.map().contains_key(id),
            r matches Some(v) ==> *v == self.map()[id],
    {
        match self.find(id) {
            Ok(k) => Some(&self.entries[k].1),
            Err(_) => None,
        }
    }

    /// Gives `id` the value `value`, replacing the one it had.
    pub fn attach(&mut self, id: EntityId, value: T) -> (replaced: Option<T>)
        requires
            old(self).wf(),
        ensures
            final(self).wf(),
            final(self).map() == old(self).map().insert(id, value),
            replaced is Some <==> old(self).map().contains_key(id),
            replaced matches Some(v) ==> v == old(self).map()[id],
    {
        let ghost m0 = self.map();
        let ghost e0 = self.entries@;
        match self.find(id) {
            Ok(k) => {
                let mut entry = (id, value);
                std::mem::swap(&mut self.entries[k], &mut entry);
                let ghost target = m0.insert(id, value);
                proof {
                    lemma_entry_map_at(e0);
                    assert(self.entries@ == e0.update(k as int, (id, value)));
                    assert forall|i: int, j: int|
                        0 <= i < j < self.entries@.len() implies (#[trigger] self.entries@[i]).0.index()
                        < (#[trigger] self.entries@[j]).0.index() by {
                        assert(e0[i].0.index() < e0[j].0.index());
                    }
                    assert forall|e: EntityId| #[trigger]
                        target.contains_key(e) implies exists|i: int|
                        0 <= i < self.entries@.len() && (#[trigger] self.entries@[i]).0 == e by {
                        if e == id {
                            assert(self.entries@[k as int].0 == e);
                        } else {
                            let i = choose|i: int|
                                0 <= i < e0.len() && (#[trigger] e0[i]).0 == e;
                            assert(self.entries@[i].0 == e);
                        }
                    }
                    assert forall|i: int| 0 <= i < self.entries@.len() implies {
                        let e = #[trigger] self.entries@[i];
                        target.contains_key(e.0) && target[e.0] == e.1
                    } by {
                        if i != k {
                            assert(e0[i].0.index() != e0[k as int].0.index());
                        }
                    }
                }
                proof {
                    lemma_entry_map_is(self.entries@, target);
                }
                Some(entry.1)
            },
            Err(k) => {
                self.entries.insert(k, (id, value));
                let ghost target = m0.insert(id, value);
                proof {
                    lemma_entry_map_at(e0);
                    let e1 = self.entries@;
                    assert(e1 == e0.insert(k as int, (id, value)));
                    assert forall|i: int, j: int|
                        0 <= i < j < e1.len() implies (#[trigger] e1[i]).0.index()
                        < (#[trigger] e1[j]).0.index() by {
                        if j < k {
                            assert(e0[i].0.index() < e0[j].0.index());
                        } else if j == k {
                            assert(e0[i].0.index() < id.index());
                        } else if i < k {
                            assert(e0[j - 1].0.index() > id.index());
                            assert(e0[i].0.index() < id.index());
                        } else if i == k {
                            assert(e0[j - 1].0.index() > id.index());
                        } else {
                            assert(e0[i - 1].0.index() < e0[j - 1].0.index());
                        }
                    }
                    assert forall|e: EntityId| #[trigger]
                        target.contains_key(e) implies exists|i: int|
                        0 <= i < e1.len() && (#[trigger] e1[i]).0 == e by {
                        if e == id {
                            assert(e1[k as int].0 == e);
                        } else {
                            let i = choose|i: int|
                                0 <= i < e0.len() && (#[trigger] e0[i]).0 == e;
                            if i < k {
                                assert(e1[i].0 == e);
                            } else {
                                assert(e1[i + 1].0 == e);
                            }
                        }
                    }
                    assert forall|i: int| 0 <= i < e1.len() implies {
                        let e = #[trigger] e1[i];
                        target.contains_key(e.0) && target[e.0] == e.1
                    } by {
                        if i < k {
                            assert(e1[i] == e0[i]);
                            assert(e0[i].0 != id);
                        } else if i > k {
                            assert(e1[i] == e0[i - 1]);
                            assert(e0[i - 1].0 != id);
                        }
                    }
                }
                proof {
                    lemma_entry_map_is(self.entries@, target);
                }
                None
            },
        }
    }

    /// Takes the value of `id` out of this bucket.
    pub fn remove(&mut self, id: EntityId) -> (r: Option<T>)
        requires
            old(self).wf(),
        ensures
            final(self).wf(),
            final(self).map() == old(self).map().remove(id),
            r is Some <==> old(self).map().contains_key(id),
            r matches Some(v) ==> v == old(self).map()[id],
    {
        let ghost m0 = self.map();
        let ghost e0 = self.entries@;
        match self.find(id) {
            Ok(k) => {
                let entry = self.entries.remove(k);
                let ghost target = m0.remove(id);
                proof {
                    lemma_entry_map_at(e0);
                    let e1 = self.entries@;
                    assert(e1 == e0.remove(k as int));
                    assert forall|i: int, j: int|
                        0 <= i < j < e1.len() implies (#[trigger] e1[i]).0.index()
                        < (#[trigger] e1[j]).0.index() by {
                        if j < k {
                            assert(e0[i].0.index() < e0[j].0.index());
                        } else if i < k {
                            assert(e0[i].0.index() < e0[j + 1].0.index());
                        } else {
                            assert(e0[i + 1].0.index() < e0[j + 1].0.index());
                        }
                    }
                    assert forall|e: EntityId| #[trigger]
                        target.contains_key(e) implies exists|i: int|
                        0 <= i < e1.len() && (#[trigger] e1[i]).0 == e by {
                        let i = choose|i: int| 0 <= i < e0.len() && (#[trigger] e0[i]).0 == e;
                        if i < k {
                            assert(e1[i].0 == e);
                        } else {
                            assert(i != k);
                            assert(e1[i - 1].0 == e);
                        }
                    }
                    assert forall|i: int| 0 <= i < e1.len() implies {
                        let e = #[trigger] e1[i];
                        target.contains_key(e.0) && target[e.0] == e.1
                    } by {
                        if i < k {
                            assert(e1[i] == e0[i]);
                            assert(e0[i].0.index() < e0[k as int].0.index());
                        } else {
                            assert(e1[i] == e0[i + 1]);
                            assert(e0[k as int].0.index() < e0[i + 1].0.index());
                        }
                    }
                }
                proof {
                    lemma_entry_map_is(self.entries@, target);
                }
                Some(entry.1)
            },
            Err(_) => {
                proof {
                    assert(m0.remove(id) =~= m0);
                }
                None
            },
        }
    }

    /// The value of `id` for in-place change, if it has one.
    pub fn get_mut(&mut self, id: EntityId) -> (r: Option<&mut T>)
        requires
            old(self).wf(),
        ensures
            final(self).wf(),
            r is Some <==> old(self).map().contains_key(id),
            r matches Some(v) ==> {
                &&& *v == old(self).map()[id]
                &&& final(self).map() == old(self).map().insert(id, *final(v))
            },
            r is None ==> final(self).map() == old(self).map(),
    {
        let ghost m0 = self.map();
        let ghost e0 = self.entries@;
        match self.find(id) {
            Ok(k) => {
                proof {
                    lemma_entry_map_at(e0);
                    assert forall|x: T| #[trigger]
                        entry_map(e0.update(k as int, (id, x))) == m0.insert(id, x) by {
                        lemma_entry_map_update(e0, k as int, x);
                    }
                }
                let entry = &mut self.entries[k];
                let v = &mut entry.1;
                Some(v)
            },
            Err(_) => None,
        }
    }

    /// The value of `id` for in-place change, inserting `default` first if
    /// `id` has none.
    pub fn get_or_insert(&mut self, id: EntityId, default: T) -> (r: &mut T)
        requires
            old(self).wf(),
        ensures
            final(self).wf(),
            *r == if old(self).map().contains_key(id) {
                old(self).map()[id]
            } else {
                default
            },
            final(self).map() == old(self).map().insert(id, *final(r)),
    {
        let ghost m0 = self.map();
        let k = match self.find(id) {
            Ok(k) => k,
            Err(_) => {
                self.attach(id, default);
                match self.find(id) {
                    Ok(k) => k,
                    Err(_) => {
                        proof {
                            assert(false);
                        }
                        0
                    },
                }
            },
        };
        let ghost e1 = self.entries@;
        let ghost m1 = self.map();
        proof {
            lemma_entry_map_at(e1);
            assert forall|x: T| #[trigger]
                entry_map(e1.update(k as int, (id, x))) == m1.insert(id, x) by {
                lemma_entry_map_update(e1, k as int, x);
            }
            assert forall|x: T| #[trigger] m1.insert(id, x) == m0.insert(id, x) by {
                assert(m1.insert(id, x) =~= m0.insert(id, x));
            }
        }
        let entry = &mut self.entries[k];
        &mut entry.1
    }

    /// Every entity of this bucket with its value, in increasing id order.
    pub fn entries(&self) -> (r: Vec<(EntityId, &T)>)
        requires
            self.wf(),
        ensures
            r@.len() == self.ids().len(),
            forall|i: int|
                0 <= i < r@.len() ==> (#[trigger] r@[i]).0 == self.ids()[i] && *r@[i].1
                    == self.map()[self.ids()[i]],
    {
        proof {
            lemma_entry_map_at(self.entries@);
        }
        let mut r: Vec<(EntityId, &T)> = Vec::new();
        let mut i: usize = 0;
        while i < self.entries.len()
            invariant
                self.wf(),
                i <= self.entries@.len(),
                r@.len() == i,
                forall|q: int|
                    0 <= q < i ==> (#[trigger] r@[q]).0 == self.entries@[q].0 && *r@[q].1
                        == self.entries@[q].1,
            decreases self.entries@.len() - i,
        {
            let entry = &self.entries[i];
            r.push((entry.0, &entry.1));
            i = i + 1;
        }
        r
    }
}

/// Filtering a prefix that grows by elements the filter drops changes nothing.
proof fn lemma_filter_take_skip(s: Seq<EntityId>, pred: spec_fn(EntityId) -> bool, i: int, n: int)
    requires
        0 <= i <= n <= s.len(),
        forall|p: int| i <= p < n ==> !pred(#[trigger] s[p]),
    ensures
        s.take(n).filter(pred) == s.take(i).filter(pred),
    decreases n - i,
{
    if n > i {
        lemma_filter_take_skip(s, pred, i, n - 1);
        reveal_with_fuel(Seq::filter, 1);
        assert(s.take(n).drop_last() == s.take(n - 1));
    }
}

/// Filtering a prefix one element longer.
pub(crate) proof fn lemma_filter_take_step(s: Seq<EntityId>, pred: spec_fn(EntityId) -> bool, i: int)
    requires
        0 <= i < s.len(),
    ensures
        s.take(i + 1).filter(pred) == if pred(s[i]) {
            s.take(i).filter(pred).push(s[i])
        } else {
            s.take(i).filter(pred)
        },
{
    reveal_with_fuel(Seq::filter, 1);
    assert(s.take(i + 1).drop_last() == s.take(i));
}

/// Every entity that has a value in both buckets, with both values, in
/// increasing id order.
pub fn join_pair<'a, A, B>(a: &'a Bucket<A>, b: &'a Bucket<B>) -> (r: Vec<(EntityId, &'a A, &'a B)>)
    requires
        a.wf(),
        b.wf(),
    ensures
        r@.map_values(|t: (EntityId, &A, &B)| t.0) == a.ids().filter(
            |e: EntityId| b.map().contains_key(e),
        ),
        forall|q: int|
            0 <= q < r@.len() ==> *(#[trigger] r@[q]).1 == a.map()[r@[q].0] && *r@[q].2
                == b.map()[r@[q].0],
{
    let ghost pred = |e: EntityId| b.map().contains_key(e);
    let ghost sa = a.entries@;
    let ghost sb = b.entries@;
    proof {
        lemma_entry_map_at(sa);
        lemma_entry_map_at(sb);
    }
    let mut out: Vec<(EntityId, &'a A, &'a B)> = Vec::new();
    let mut i: usize = 0;
    let mut j: usize = 0;
    while i < a.entries.len() && j < b.entries.len()
        invariant
            a.wf(),
            b.wf(),
            sa == a.entries@,
            sb == b.entries@,
            pred == (|e: EntityId| b.map().contains_key(e)),
            i <= sa.len(),
            j <= sb.len(),
            out@.map_values(|t: (EntityId, &A, &B)| t.0) == a.ids().take(i as int).filter(pred),
            forall|q: int|
                0 <= q < out@.len() ==> *(#[trigger] out@[q]).1 == a.map()[out@[q].0]
                    && *out@[q].2 == b.map()[out@[q].0],
            i < sa.len() ==> forall|q: int| 0 <= q < j ==> (#[trigger] sb[q]).0.index() < sa[i as int].0.index(),
            j < sb.len() ==> forall|p: int| 0 <= p < i ==> (#[trigger] sa[p]).0.index() < sb[j as int].0.index(),
        decreases sa.len() - i + sb.len() - j,
    {
        let ghost before = out@;
        let ia = a.entries[i].0;
        let ib = b.entries[j].0;
        proof {
            lemma_filter_take_step(a.ids(), pred, i as int);
            assert(a.ids()[i as int] == ia);
        }
        if ia.0 < ib.0 {
            proof {
                assert(!b.map().contains_key(ia)) by {
                    if b.map().contains_key(ia) {
                        let q = choose|q: int| 0 <= q < sb.len() && (#[trigger] sb[q]).0 == ia;
                        if q >= j {
                            if q > j {
                                assert(sb[j as int].0.index() < sb[q].0.index());
                            }
                        }
                    }
                }
            }
            i = i + 1;
        } else if ib.0 < ia.0 {
            j = j + 1;
        } else {
            assert(ia == ib);
            out.push((ia, &a.entries[i].1, &b.entries[j].1));
            proof {
                assert(b.map().contains_key(ia));
                assert(out@.map_values(|t: (EntityId, &A, &B)| t.0) =~= before.map_values(
                    |t: (EntityId, &A, &B)| t.0,
                ).push(ia));
            }
            i = i + 1;
            j = j + 1;
        }
        proof {
            if i < sa.len() {
                assert forall|q: int| 0 <= q < j implies (#[trigger] sb[q]).0.index()
                    < sa[i as int].0.index() by {
                    if i > 0 {
                        assert(sa[i - 1].0.index() < sa[i as int].0.index());
                    }
                }
            }
            if j < sb.len() {
                assert forall|p: int| 0 <= p < i implies (#[trigger] sa[p]).0.index()
                    < sb[j as int].0.index() by {
                    if j > 0 {
                        assert(sb[j - 1].0.index() < sb[j as int].0.index());
                    }
                }
            }
        }
    }
    proof {
        if i < sa.len() {
            assert forall|p: int| i <= p < sa.len() implies !pred(#[trigger] a.ids()[p]) by {
                let e = sa[p].0;
                assert(a.ids()[p] == e);
                if b.map().contains_key(e) {
                    let q = choose|q: int| 0 <= q < sb.len() && (#[trigger] sb[q]).0 == e;
                    if p > i {
                        assert(sa[i as int].0.index() < sa[p].0.index());
                    }
                }
            }
            lemma_filter_take_skip(a.ids(), pred, i as int, sa.len() as int);
        }
        assert(a.ids().take(sa.len() as int) == a.ids());
    }
    out
}

/// Every entity that has a value in all three buckets, with the three values,
/// in increasing id order.
pub fn join_triple<'a, A, B, C>(a: &'a Bucket<A>, b: &'a Bucket<B>, c: &'a Bucket<C>) -> (r: Vec<
    (EntityId, &'a A, &'a B, &'a C),
>)
    requires
        a.wf(),
        b.wf(),
        c.wf(),
    ensures
        r@.map_values(|t: (EntityId, &A, &B, &C)| t.0) == a.ids().filter(
            |e: EntityId| b.map().contains_key(e) && c.map().contains_key(e),
        ),
        forall|q: int|
            0 <= q < r@.len() ==> *(#[trigger] r@[q]).1 == a.map()[r@[q].0] && *r@[q].2
                == b.map()[r@[q].0] && *r@[q].3 == c.map()[r@[q].0],
{
    let ghost pred = |e: EntityId| b.map().contains_key(e) && c.map().contains_key(e);
    let ghost sa = a.entries@;
    let ghost sb = b.entries@;
    let ghost sc = c.entries@;
    proof {
        lemma_entry_map_at(sa);
        lemma_entry_map_at(sb);
        lemma_entry_map_at(sc);
    }
    let mut out: Vec<(EntityId, &'a A, &'a B, &'a C)> = Vec::new();
    let mut i: usize = 0;
    let mut j: usize = 0;
    let mut k: usize = 0;
    while i < a.entries.len() && j < b.entries.len() && k < c.entries.len()
        invariant
            a.wf(),
            b.wf(),
            c.wf(),
            sa == a.entries@,
            sb == b.entries@,
            sc == c.entries@,
            pred == (|e: EntityId| b.map().contains_key(e) && c.map().contains_key(e)),
            i <= sa.len(),
            j <= sb.len(),
            k <= sc.len(),
            out@.map_values(|t: (EntityId, &A, &B, &C)| t.0) == a.ids().take(i as int).filter(
                pred,
            ),
            forall|q: int|
                0 <= q < out@.len() ==> *(#[trigger] out@[q]).1 == a.map()[out@[q].0]
                    && *out@[q].2 == b.map()[out@[q].0] && *out@[q].3 == c.map()[out@[q].0],
            i < sa.len() ==> forall|q: int|
                0 <= q < j ==> (#[trigger] sb[q]).0.index() < sa[i as int].0.index(),
            i < sa.len() ==> forall|q: int|
                0 <= q < k ==> (#[trigger] sc[q]).0.index() < sa[i as int].0.index(),
        decreases sa.len() - i + sb.len() - j + sc.len() - k,
    {
        let ghost before = out@;
        let ia = a.entries[i].0;
        let ib = b.entries[j].0;
        let ic = c.entries[k].0;
        proof {
            lemma_filter_take_step(a.ids(), pred, i as int);
            assert(a.ids()[i as int] == ia);
        }
        // If any are less than the max, then we need to increment them.
        let max = if ia.0 >= ib.0 && ia.0 >= ic.0 {
            ia.0
        } else if ib.0 >= ic.0 {
            ib.0
        } else {
            ic.0
        };
        if ia.0 < max {
            proof {
                assert(!pred(ia)) by {
                    if b.map().contains_key(ia) && c.map().contains_key(ia) {
                        let q = choose|q: int| 0 <= q < sb.len() && (#[trigger] sb[q]).0 == ia;
                        let w = choose|w: int| 0 <= w < sc.len() && (#[trigger] sc[w]).0 == ia;
                        if q > j {
                            assert(sb[j as int].0.index() < sb[q].0.index());
                        }
                        if w > k {
                            assert(sc[k as int].0.index() < sc[w].0.index());
                        }
                    }
                }
            }
            i = i + 1;
        } else if ib.0 < max {
            j = j + 1;
        } else if ic.0 < max {
            k = k + 1;
        } else {
            assert(ia == ib && ib == ic);
            out.push((ia, &a.entries[i].1, &b.entries[j].1, &c.entries[k].1));
            proof {
                assert(b.map().contains_key(ia) && c.map().contains_key(ia));
                assert(out@.map_values(|t: (EntityId, &A, &B, &C)| t.0) =~= before.map_values(
                    |t: (EntityId, &A, &B, &C)| t.0,
                ).push(ia));
            }
            i = i + 1;
            j = j + 1;
            k = k + 1;
        }
        proof {
            if i < sa.len() {
                if i > 0 {
                    assert(sa[i - 1].0.index() < sa[i as int].0.index());
                }
                assert forall|q: int| 0 <= q < j implies (#[trigger] sb[q]).0.index()
                    < sa[i as int].0.index() by {
                    if q + 1 < j {
                        assert(sb[q].0.index() < sb[j - 1].0.index());
                    }
                }
                assert forall|q: int| 0 <= q < k implies (#[trigger] sc[q]).0.index()
                    < sa[i as int].0.index() by {
                    if q + 1 < k {
                        assert(sc[q].0.index() < sc[k - 1].0.index());
                    }
                }
            }
        }
    }
    proof {
        if i < sa.len() {
            assert forall|p: int| i <= p < sa.len() implies !pred(#[trigger] a.ids()[p]) by {
                let e = sa[p].0;
                assert(a.ids()[p] == e);
                if p > i {
                    assert(sa[i as int].0.index() < sa[p].0.index());
                }
                if b.map().contains_key(e) && c.map().contains_key(e) {
                    let q = choose|q: int| 0 <= q < sb.len() && (#[trigger] sb[q]).0 == e;
                    let w = choose|w: int| 0 <= w < sc.len() && (#[trigger] sc[w]).0 == e;
                }
            }
            lemma_filter_take_skip(a.ids(), pred, i as int, sa.len() as int);
        }
        assert(a.ids().take(sa.len() as int) == a.ids());
    }
    out
}

} // verus!
