//! A DAG representing the hierarchy within a scene.
//!
//! Every entity has at most one parent, and the parent links never form a
//! cycle. The children of a parent are kept in insertion order.

use crate::scene::entity::{lemma_ordinal, lemma_without, without, EntityId};
use std::collections::HashMap;
use vstd::prelude::*;

verus! {

/// Walks up at most `n` parent links from `x` and tells whether `a` is met
/// on the way (`x` itself included).
pub(crate) open spec fn reaches(parents: Map<usize, EntityId>, x: usize, a: usize, n: nat) -> bool
    decreases n,
{
    x == a || (n > 0 && parents.contains_key(x) && reaches(
        parents,
        parents[x].index(),
        a,
        (n - 1) as nat,
    ))
}

/// Copies `v` leaving out every occurrence of `x`.
fn copy_without(v: &Vec<EntityId>, x: EntityId) -> (r: Vec<EntityId>)
    ensures
        r@ == without(v@, x),
{
    let mut r: Vec<EntityId> = Vec::new();
    let mut i: usize = 0;
    while i < v.len()
        invariant
            i <= v@.len(),
            r@ == without(v@.subrange(0, i as int), x),
        decreases v@.len() - i,
    {
        assert(v@.subrange(0, i as int + 1).drop_last() == v@.subrange(0, i as int));
        if v[i] != x {
            r.push(v[i]);
        }
        i = i + 1;
    }
    assert(v@.subrange(0, v@.len() as int) == v@);
    r
}

/// Copies every id of `v`, in order.
pub(crate) fn copy_ids(v: &Vec<EntityId>) -> (r: Vec<EntityId>)
    ensures
        r@ == v@,
{
    let mut r: Vec<EntityId> = Vec::new();
    let mut i: usize = 0;
    while i < v.len()
        invariant
            i <= v@.len(),
            r@ == v@.subrange(0, i as int),
        decreases v@.len() - i,
    {
        r.push(v[i]);
        i = i + 1;
        assert(r@ == v@.subrange(0, i as int));
    }
    r
}

/// Walking up from `x` one more link past `a` still meets `a`'s parent.
proof fn lemma_reaches_extend(m: Map<usize, EntityId>, x: usize, a: usize, n: nat)
    requires
        reaches(m, x, a, n),
        m.contains_key(a),
    ensures
        reaches(m, x, m[a].index(), n + 1),
    decreases n,
{
    if x != a {
        assert(n > 0 && m.contains_key(x));
        lemma_reaches_extend(m, m[x].index(), a, (n - 1) as nat);
        assert(((n - 1) as nat) + 1 == n);
        assert(reaches(m, m[x].index(), m[a].index(), n));
        assert(reaches(m, x, m[a].index(), n + 1));
    } else {
        assert(reaches(m, m[a].index(), m[a].index(), n));
        assert(reaches(m, x, m[a].index(), n + 1));
    }
}

/// A walk in a map is also a walk in any map that agrees on its keys.
proof fn lemma_reaches_sub(
    small: Map<usize, EntityId>,
    big: Map<usize, EntityId>,
    x: usize,
    a: usize,
    n: nat,
)
    requires
        reaches(small, x, a, n),
        forall|k: usize| #[trigger]
            small.contains_key(k) ==> big.contains_key(k) && big[k] == small[k],
    ensures
        reaches(big, x, a, n),
    decreases n,
{
    if x != a {
        lemma_reaches_sub(small, big, small[x].index(), a, (n - 1) as nat);
    }
}

/// A forest of entities: each entity has at most one parent and the parent
/// links never loop.
pub struct Hierarchy {
    children: HashMap<usize, Vec<EntityId>>,
    parents: HashMap<usize, EntityId>,
    /// A height that strictly grows from every child to its parent; it is
    /// what shows that walking up the parents always ends.
    rank: Ghost<spec_fn(usize) -> nat>,
    /// An upper bound on every rank.
    bound: Ghost<nat>,
}

impl Hierarchy {
    /// The parent of `child`, if it has one.
    pub closed spec fn parent_of(self, child: EntityId) -> Option<EntityId> {
        if self.parents@.contains_key(child.index()) {
            Some(self.parents@[child.index()])
        } else {
            None
        }
    }

    /// The children of `parent`, in the order they were added.
    pub closed spec fn children_of(self, parent: EntityId) -> Seq<EntityId> {
        if self.children@.contains_key(parent.index()) {
            self.children@[parent.index()]@
        } else {
            Seq::empty()
        }
    }

    /// `entity` is `child` itself or is met when walking up from `child`.
    pub closed spec fn ancestor(self, entity: EntityId, child: EntityId) -> bool {
        exists|n: nat| reaches(self.parents@, child.index(), entity.index(), n)
    }

    spec fn rank_of(self, x: usize) -> nat {
        (self.rank@)(x)
    }

    /// The parent links never loop, and the children lists agree with them.
    pub closed spec fn wf(self) -> bool {
        &&& forall|c: usize| #[trigger]
            self.parents@.contains_key(c) ==> self.rank_of(self.parents@[c].index())
                > self.rank_of(c)
        &&& forall|x: usize| #[trigger] self.rank_of(x) <= self.bound@
        &&& forall|c: usize| #[trigger]
            self.parents@.contains_key(c) ==> {
                let p = self.parents@[c].index();
                self.children@.contains_key(p) && self.children@[p]@.contains(EntityId(c))
            }
        &&& forall|p: usize, i: int|
            self.children@.contains_key(p) && 0 <= i < self.children@[p]@.len() ==> {
                let c = #[trigger] self.children@[p]@[i];
                self.parents@.contains_key(c.index()) && self.parents@[c.index()] == EntityId(p)
            }
        &&& forall|p: usize| #[trigger]
            self.children@.contains_key(p) ==> self.children@[p]@.no_duplicates()
    }

    /// Only entities with an index below `n` take part in the hierarchy.
    pub closed spec fn bounded(self, n: nat) -> bool {
        &&& forall|c: usize| #[trigger]
            self.parents@.contains_key(c) ==> c < n && self.parents@[c].index() < n
        &&& forall|p: usize| #[trigger] self.children@.contains_key(p) ==> p < n
    }

    /// A bound that holds keeps holding for any larger bound.
    pub proof fn lemma_bounded_grow(self, n: nat, m: nat)
        requires
            self.bounded(n),
            n <= m,
        ensures
            self.bounded(m),
    {
    }

    /// An entity beyond the bound has no parent, no children, and is an
    /// ancestor of itself only.
    pub proof fn lemma_fresh(self, n: nat, f: EntityId)
        requires
            self.bounded(n),
            f.ordinal() >= n,
        ensures
            self.parent_of(f) == None::<EntityId>,
            self.children_of(f) == Seq::<EntityId>::empty(),
            forall|x: EntityId| #[trigger] self.ancestor(f, x) <==> x == f,
    {
        lemma_ordinal(f, 0);
        assert forall|x: EntityId| #[trigger] self.ancestor(f, x) <==> x == f by {
            if x == f {
                assert(reaches(self.parents@, x.index(), f.index(), 0));
            }
            if self.ancestor(f, x) && x != f {
                let k = choose|k: nat| reaches(self.parents@, x.index(), f.index(), k);
                assert(self.parents@.contains_key(x.index()));
                let p = self.parents@[x.index()].index();
                assert(reaches(self.parents@, p, f.index(), (k - 1) as nat));
                self.lemma_bounded_walk(p, f.index(), (k - 1) as nat, n);
            }
        }
    }

    /// Within the bound, a parent link joins two entities below the bound.
    pub proof fn lemma_bounded_parent(self, n: nat, child: EntityId)
        requires
            self.bounded(n),
            self.parent_of(child) is Some,
        ensures
            child.ordinal() < n,
            self.parent_of(child).unwrap().ordinal() < n,
    {
        lemma_ordinal(child, 0);
        lemma_ordinal(self.parent_of(child).unwrap(), 0);
        assert(self.parents@.contains_key(child.index()));
    }

    proof fn lemma_bounded_walk(self, x: usize, a: usize, k: nat, n: nat)
        requires
            self.bounded(n),
            x < n,
            a >= n,
        ensures
            !reaches(self.parents@, x, a, k),
        decreases k,
    {
        if k > 0 && self.parents@.contains_key(x) {
            self.lemma_bounded_walk(self.parents@[x].index(), a, (k - 1) as nat, n);
        }
    }

    /// An empty hierarchy.
    pub fn new() -> (h: Self)
        ensures
            h.wf(),
            h.bounded(0),
            forall|e: EntityId| h.parent_of(e) == None::<EntityId>,
            forall|e: EntityId| h.children_of(e) == Seq::<EntityId>::empty(),
    {
        Hierarchy {
            children: HashMap::new(),
            parents: HashMap::new(),
            rank: Ghost(|x: usize| 0nat),
            bound: Ghost(0nat),
        }
    }

    /// Get the parent of a given entity.
    pub fn parent(&self, child: EntityId) -> (r: Option<EntityId>)
        ensures
            r == self.parent_of(child),
    {
        match self.parents.get(&child.0) {
            Some(p) => Some(*p),
            None => None,
        }
    }

    /// Returns true iff this entity has a parent entity.
    pub fn has_parent(&self, entity: EntityId) -> (r: bool)
        ensures
            r == self.parent_of(entity).is_some(),
    {
        self.parents.contains_key(&entity.0)
    }

    /// Returns true iff `entity` is the parent of `child`.
    pub fn is_parent(&self, entity: EntityId, child: EntityId) -> (r: bool)
        ensures
            r == (self.parent_of(child) == Some(entity)),
    {
        match self.parents.get(&child.0) {
            Some(p) => *p == entity,
            None => false,
        }
    }

    /// Walking up always climbs in rank.
    proof fn lemma_reaches_rank(self, x: usize, a: usize, n: nat)
        requires
            self.wf(),
            reaches(self.parents@, x, a, n),
        ensures
            x == a || self.rank_of(a) > self.rank_of(x),
        decreases n,
    {
        if x != a {
            let p = self.parents@[x].index();
            self.lemma_reaches_rank(p, a, (n - 1) as nat);
        }
    }

    /// For an entity other than `entity`, being below `entity` is the same as its
    /// parent being below `entity`; without a parent it is never below `entity`.
    proof fn lemma_ancestor_step(self, entity: EntityId, x: EntityId)
        requires
            x != entity,
        ensures
            self.parents@.contains_key(x.index()) ==> (self.ancestor(entity, x) <==> self.ancestor(
                entity,
                self.parents@[x.index()],
            )),
            !self.parents@.contains_key(x.index()) ==> !self.ancestor(entity, x),
    {
        let m = self.parents@;
        if m.contains_key(x.index()) {
            let p = m[x.index()];
            if self.ancestor(entity, x) {
                let n = choose|n: nat| reaches(m, x.index(), entity.index(), n);
                assert(reaches(m, p.index(), entity.index(), (n - 1) as nat));
            }
            if self.ancestor(entity, p) {
                let n = choose|n: nat| reaches(m, p.index(), entity.index(), n);
                assert(reaches(m, x.index(), entity.index(), n + 1));
            }
        } else {
            assert forall|n: nat| !reaches(m, x.index(), entity.index(), n) by {}
        }
    }

    /// Returns true iff `entity` is an ancestor of `child` (or `child` itself).
    pub fn is_ancestor(&self, entity: EntityId, child: EntityId) -> (r: bool)
        requires
            self.wf(),
        ensures
            r == self.ancestor(entity, child),
    {
        // Check if these are same entity.
        let mut current = child;
        if current == entity {
            assert(reaches(self.parents@, child.index(), entity.index(), 0));
            return true;
        }
        // Walk up child's ancestry to find entity.
        loop
            invariant
                self.wf(),
                current != entity,
                self.ancestor(entity, child) == self.ancestor(entity, current),
            decreases self.bound@ - self.rank_of(current.index()),
        {
            proof {
                self.lemma_ancestor_step(entity, current);
            }
            match self.parents.get(&current.0) {
                Some(p) => {
                    let parent = *p;
                    if parent == entity {
                        assert(reaches(self.parents@, parent.index(), entity.index(), 0));
                        return true;
                    }
                    assert(self.rank_of(parent.index()) > self.rank_of(current.index()));
                    current = parent;
                },
                None => {
                    return false;
                },
            }
        }
    }

    /// Get all children for a given entity.
    pub fn children(&self, parent: EntityId) -> (r: Vec<EntityId>)
        ensures
            r@ == self.children_of(parent),
    {
        match self.children.get(&parent.0) {
            Some(v) => copy_ids(v),
            None => Vec::new(),
        }
    }

    /// Returns true iff this entity has children attached.
    pub fn has_children(&self, entity: EntityId) -> (r: bool)
        ensures
            r == (self.children_of(entity).len() > 0),
    {
        match self.children.get(&entity.0) {
            Some(v) => v.len() > 0,
            None => false,
        }
    }

    /// Ranks that were bounded stay bounded.
    proof fn lemma_rank_bounded(self, before: Self)
        requires
            before.wf(),
            self.rank == before.rank,
            self.bound == before.bound,
        ensures
            forall|x: usize| #[trigger] self.rank_of(x) <= self.bound@,
    {
        assert forall|x: usize| #[trigger] self.rank_of(x) <= self.bound@ by {
            assert(before.rank_of(x) <= before.bound@);
        }
    }

    /// An entity is listed among the children of `parent` exactly when
    /// `parent` is its parent.
    pub proof fn lemma_children_agree(self, parent: EntityId, child: EntityId)
        requires
            self.wf(),
        ensures
            self.children_of(parent).contains(child) <==> self.parent_of(child) == Some(parent),
    {
        if self.children_of(parent).contains(child) {
            let i = choose|i: int|
                0 <= i < self.children_of(parent).len() && self.children_of(parent)[i] == child;
            assert(self.children@[parent.index()]@[i] == child);
        }
        if self.parent_of(child) == Some(parent) {
            assert(self.parents@.contains_key(child.index()));
            assert(EntityId(child.index()) == child);
        }
    }

    /// No entity is listed twice among the children of `parent`.
    pub proof fn lemma_children_no_duplicates(self, parent: EntityId)
        requires
            self.wf(),
        ensures
            self.children_of(parent).no_duplicates(),
    {
        if self.children@.contains_key(parent.index()) {
            assert(self.children@[parent.index()]@.no_duplicates());
        }
    }

    /// How high an entity stands: higher than each of its children.
    pub closed spec fn height(self, e: EntityId) -> nat {
        self.rank_of(e.index())
    }

    /// A child stands lower than its parent.
    pub proof fn lemma_child_lower(self, parent: EntityId, child: EntityId)
        requires
            self.wf(),
            self.children_of(parent).contains(child),
        ensures
            self.height(child) < self.height(parent),
    {
        self.lemma_children_agree(parent, child);
        assert(self.parents@.contains_key(child.index()));
    }

    /// Cutting the parent link of `child` does not change which entities have
    /// `child` as an ancestor.
    proof fn lemma_graft_ancestor(self, before: Self, child: EntityId)
        requires
            self.parents@ == before.parents@.remove(child.index()),
        ensures
            forall|x: EntityId| #[trigger] self.ancestor(child, x) == before.ancestor(child, x),
    {
        assert forall|x: EntityId| #[trigger] self.ancestor(child, x) == before.ancestor(
            child,
            x,
        ) by {
            if self.ancestor(child, x) {
                let k = choose|k: nat| reaches(self.parents@, x.index(), child.index(), k);
                lemma_reaches_sub(self.parents@, before.parents@, x.index(), child.index(), k);
            }
            if before.ancestor(child, x) {
                let k = choose|k: nat| reaches(before.parents@, x.index(), child.index(), k);
                Self::lemma_reaches_cut(before.parents@, x.index(), child.index(), k);
            }
        }
    }

    proof fn lemma_reaches_cut(m: Map<usize, EntityId>, x: usize, a: usize, k: nat)
        requires
            reaches(m, x, a, k),
        ensures
            reaches(m.remove(a), x, a, k),
        decreases k,
    {
        if x != a {
            Self::lemma_reaches_cut(m, m[x].index(), a, (k - 1) as nat);
        }
    }

    /// Remove parent from child if it has one.
    pub fn graft(&mut self, child: EntityId)
        requires
            old(self).wf(),
        ensures
            final(self).wf(),
            final(self).parent_of(child) == None::<EntityId>,
            forall|x: EntityId|
                x != child ==> #[trigger] final(self).parent_of(x) == old(self).parent_of(x),
            forall|p: EntityId| #[trigger]
                final(self).children_of(p) == if old(self).parent_of(child) == Some(p) {
                    without(old(self).children_of(p), child)
                } else {
                    old(self).children_of(p)
                },
            forall|x: EntityId| #[trigger]
                final(self).ancestor(child, x) == old(self).ancestor(child, x),
            forall|n: nat| old(self).bounded(n) ==> #[trigger] final(self).bounded(n),
    {
        let ghost h0 = *self;
        // Only do something if we actually have a parent.
        let removed = self.parents.remove(&child.0);
        if let Some(parent) = removed {
            // Remove the child from the parent's list.
            let listed = self.children.remove(&parent.0);
            if let Some(list) = listed {
                let kept = copy_without(&list, child);
                self.children.insert(parent.0, kept);
                proof {
                    lemma_without(list@, child);
                }
            }
            proof {
                let h = *self;
                h.lemma_rank_bounded(h0);
                assert(h0.parents@.contains_key(child.index()));
                assert(h0.children@.contains_key(parent.index()));
                assert forall|c: usize| #[trigger] h.parents@.contains_key(c) implies {
                    let p = h.parents@[c].index();
                    h.children@.contains_key(p) && h.children@[p]@.contains(EntityId(c))
                } by {
                    assert(h0.parents@.contains_key(c));
                    assert(EntityId(c) != child);
                }
                assert forall|p: usize, i: int|
                    h.children@.contains_key(p) && 0 <= i < h.children@[p]@.len() implies {
                    let c = #[trigger] h.children@[p]@[i];
                    h.parents@.contains_key(c.index()) && h.parents@[c.index()] == EntityId(p)
                } by {
                    let c = h.children@[p]@[i];
                    if p == parent.index() {
                        let s0 = h0.children@[p]@;
                        assert(without(s0, child).contains(c));
                        let k = choose|k: int| 0 <= k < s0.len() && s0[k] == c;
                        assert(h0.children@[p]@[k] == c);
                    } else {
                        assert(h0.children@[p]@[i] == c);
                        if c == child {
                            assert(h0.parents@[child.index()] == EntityId(p));
                        }
                    }
                }
                assert forall|q: EntityId| #[trigger]
                    h.children_of(q) == if h0.parent_of(child) == Some(q) {
                        without(h0.children_of(q), child)
                    } else {
                        h0.children_of(q)
                    } by {
                    if q.index() == parent.index() {
                        assert(q == parent);
                    }
                }
                assert forall|x: EntityId| x != child implies #[trigger] h.parent_of(x)
                    == h0.parent_of(x) by {
                    assert(x.index() != child.index());
                }
            }
            proof {
                let h = *self;
                h.lemma_graft_ancestor(h0, child);
            }
        } else {
            proof {
                let h = *self;
                h.lemma_rank_bounded(h0);
                assert(h.parents@ =~= h0.parents@);
                assert forall|x: EntityId| x != child implies #[trigger] h.parent_of(x)
                    == h0.parent_of(x) by {
                    assert(x.index() != child.index());
                }
            }
        }
    }

    /// Remove all children from a parent node.
    pub fn clear(&mut self, parent: EntityId)
        requires
            old(self).wf(),
        ensures
            final(self).wf(),
            final(self).children_of(parent) == Seq::<EntityId>::empty(),
            forall|p: EntityId|
                p != parent ==> #[trigger] final(self).children_of(p) == old(self).children_of(p),
            forall|x: EntityId| #[trigger]
                final(self).parent_of(x) == if old(self).parent_of(x) == Some(parent) {
                    None
                } else {
                    old(self).parent_of(x)
                },
            forall|n: nat| old(self).bounded(n) ==> #[trigger] final(self).bounded(n),
    {
        let ghost h0 = *self;
        let listed = self.children.remove(&parent.0);
        if let Some(children) = listed {
            let ghost list = children@;
            let mut i: usize = 0;
            while i < children.len()
                invariant
                    h0.wf(),
                    list == children@,
                    h0.children@.contains_key(parent.index()),
                    list == h0.children@[parent.index()]@,
                    i <= list.len(),
                    self.children@ == h0.children@.remove(parent.index()),
                    self.rank == h0.rank,
                    self.bound == h0.bound,
                    forall|c: usize| #[trigger]
                        self.parents@.contains_key(c) <==> (h0.parents@.contains_key(c)
                            && !list.subrange(0, i as int).contains(EntityId(c))),
                    forall|c: usize| #[trigger]
                        self.parents@.contains_key(c) ==> self.parents@[c] == h0.parents@[c],
                decreases list.len() - i,
            {
                let ghost before = self.parents@;
                self.parents.remove(&children[i].0);
                proof {
                    assert forall|c: usize|
                        #[trigger] self.parents@.contains_key(c) <==> (h0.parents@.contains_key(c)
                            && !list.subrange(0, i + 1).contains(EntityId(c))) by {
                        let sub0 = list.subrange(0, i as int);
                        let sub1 = list.subrange(0, i + 1);
                        if sub1.contains(EntityId(c)) {
                            let k = choose|k: int| 0 <= k < sub1.len() && sub1[k] == EntityId(c);
                            if k < i {
                                assert(sub0[k] == EntityId(c));
                            } else {
                                assert(list[i as int] == EntityId(c));
                            }
                        }
                        if sub0.contains(EntityId(c)) {
                            let k = choose|k: int| 0 <= k < sub0.len() && sub0[k] == EntityId(c);
                            assert(sub1[k] == EntityId(c));
                        }
                        if list[i as int] == EntityId(c) {
                            assert(sub1[i as int] == EntityId(c));
                        }
                    }
                }
                i = i + 1;
            }
            proof {
                assert(list.subrange(0, list.len() as int) == list);
            }
        }
        proof {
            let h = *self;
            h.lemma_rank_bounded(h0);
            // The listed children are exactly the entities whose parent is `parent`.
            assert forall|x: EntityId| #[trigger]
                h.parent_of(x) == if h0.parent_of(x) == Some(parent) {
                    None
                } else {
                    h0.parent_of(x)
                } by {
                h0.lemma_children_agree(parent, x);
                assert(EntityId(x.index()) == x);
                if !h0.children@.contains_key(parent.index()) {
                    assert(h.parents@ =~= h0.parents@);
                }
            }
            assert forall|c: usize| #[trigger] h.parents@.contains_key(c) implies h.rank_of(
                h.parents@[c].index(),
            ) > h.rank_of(c) by {
                assert(h0.parents@.contains_key(c));
            }
            assert forall|c: usize| #[trigger] h.parents@.contains_key(c) implies {
                let p = h.parents@[c].index();
                h.children@.contains_key(p) && h.children@[p]@.contains(EntityId(c))
            } by {
                assert(h0.parents@.contains_key(c));
                let p = h0.parents@[c];
                assert(h.parent_of(EntityId(c)) == Some(p));
                if p == parent {
                    assert(h0.parent_of(EntityId(c)) == Some(parent));
                }
            }
            assert forall|p: usize, i: int|
                h.children@.contains_key(p) && 0 <= i < h.children@[p]@.len() implies {
                let c = #[trigger] h.children@[p]@[i];
                h.parents@.contains_key(c.index()) && h.parents@[c.index()] == EntityId(p)
            } by {
                let c = h.children@[p]@[i];
                assert(h0.children@[p]@[i] == c);
                assert(h0.parents@[c.index()] == EntityId(p));
                assert(EntityId(c.index()) == c);
                assert(h0.parent_of(c) == Some(EntityId(p)));
                assert(p != parent.index());
            }
            assert forall|p: usize| #[trigger] h.children@.contains_key(p) implies h.children@[
                p
            ]@.no_duplicates() by {
                assert(h0.children@.contains_key(p));
            }
            assert forall|p: EntityId|
                p != parent implies #[trigger] h.children_of(p) == h0.children_of(p) by {
                assert(p.index() != parent.index());
            }
            assert forall|n: nat| h0.bounded(n) implies #[trigger] h.bounded(n) by {
                assert forall|c: usize| #[trigger] h.parents@.contains_key(c) implies c < n
                    && h.parents@[c].index() < n by {
                    assert(h0.parents@.contains_key(c));
                }
            }
        }
    }

    /// Grafts the entity and its children.
    pub fn remove(&mut self, entity: EntityId)
        requires
            old(self).wf(),
        ensures
            final(self).wf(),
            final(self).children_of(entity) == Seq::<EntityId>::empty(),
            forall|x: EntityId| #[trigger]
                final(self).parent_of(x) == if x == entity || old(self).parent_of(x) == Some(
                    entity,
                ) {
                    None
                } else {
                    old(self).parent_of(x)
                },
            forall|p: EntityId|
                p != entity ==> #[trigger] final(self).children_of(p) == if old(self).parent_of(
                    entity,
                ) == Some(p) {
                    without(old(self).children_of(p), entity)
                } else {
                    old(self).children_of(p)
                },
            forall|n: nat| old(self).bounded(n) ==> #[trigger] final(self).bounded(n),
    {
        self.graft(entity);
        self.clear(entity);
    }

    /// Inserts a parent child relationship, removing existing parents of child
    /// if needed. No-op if the child is an ancestor of the parent.
    pub fn add_child(&mut self, parent: EntityId, child: EntityId)
        requires
            old(self).wf(),
        ensures
            final(self).wf(),
            old(self).ancestor(child, parent) ==> *final(self) == *old(self),
            !old(self).ancestor(child, parent) ==> {
                &&& final(self).parent_of(child) == Some(parent)
                &&& forall|x: EntityId|
                    x != child ==> #[trigger] final(self).parent_of(x) == old(self).parent_of(x)
                &&& final(self).children_of(parent) == without(
                    old(self).children_of(parent),
                    child,
                ).push(child)
                &&& forall|p: EntityId|
                    p != parent ==> #[trigger] final(self).children_of(p) == if old(
                        self,
                    ).parent_of(child) == Some(p) {
                        without(old(self).children_of(p), child)
                    } else {
                        old(self).children_of(p)
                    }
            },
            forall|n: nat|
                old(self).bounded(n) && parent.ordinal() < n && child.ordinal() < n
                    ==> #[trigger] final(self).bounded(n),
    {
        // If the child is an ancestor of parent, then we would create a circle
        // dependency. Disallow this.
        if self.is_ancestor(child, parent) {
            return;
        }
        let ghost h0 = *self;
        // Remove any existing parents.
        self.graft(child);
        let ghost h1 = *self;
        // Insert the child into the parents child set.
        let mut list = match self.children.remove(&parent.0) {
            Some(v) => v,
            None => Vec::new(),
        };
        list.push(child);
        self.children.insert(parent.0, list);
        // Map the child id to its parent.
        self.parents.insert(child.0, parent);
        // Lift the parent and everything above it above the child.
        let ghost lifted = |x: usize|
            exists|n: nat| reaches(h1.parents@, parent.index(), x, n);
        let ghost shift = h1.rank_of(child.index()) + 1;
        let ghost base = h1.rank@;
        self.rank = Ghost(|x: usize| if lifted(x) { base(x) + shift } else { base(x) });
        self.bound = Ghost(2 * h1.bound@ + 1);
        proof {
            assert(self.children@ =~= h1.children@.insert(
                parent.index(),
                self.children@[parent.index()],
            ));
            self.lemma_add_child_wf(h0, h1, parent, child);
            lemma_ordinal(parent, 0);
            lemma_ordinal(child, 0);
            assert forall|n: nat|
                h0.bounded(n) && parent.ordinal() < n && child.ordinal() < n implies #[trigger] self.bounded(n) by {
                assert(h1.bounded(n));
                assert forall|c: usize| #[trigger] self.parents@.contains_key(c) implies c < n
                    && self.parents@[c].index() < n by {
                    if c != child.index() {
                        assert(h1.parents@.contains_key(c));
                    }
                }
                assert forall|p: usize| #[trigger] self.children@.contains_key(p) implies p < n by {
                    if p != parent.index() {
                        assert(h1.children@.contains_key(p));
                    }
                }
            }
        }
    }

    proof fn lemma_add_child_wf(self, h0: Self, h1: Self, parent: EntityId, child: EntityId)
        requires
            h0.wf(),
            h1.wf(),
            !h0.ancestor(child, parent),
            h1.parent_of(child) == None::<EntityId>,
            forall|x: EntityId|
                x != child ==> #[trigger] h1.parent_of(x) == h0.parent_of(x),
            forall|p: EntityId| #[trigger]
                h1.children_of(p) == if h0.parent_of(child) == Some(p) {
                    without(h0.children_of(p), child)
                } else {
                    h0.children_of(p)
                },
            self.parents@ == h1.parents@.insert(child.index(), parent),
            self.children@.contains_key(parent.index()),
            self.children@[parent.index()]@ == h1.children_of(parent).push(child),
            self.children@ == h1.children@.insert(parent.index(), self.children@[parent.index()]),
            self.bound@ == 2 * h1.bound@ + 1,
            forall|x: usize| #[trigger]
                self.rank_of(x) == if exists|n: nat| reaches(h1.parents@, parent.index(), x, n) {
                    h1.rank_of(x) + h1.rank_of(child.index()) + 1
                } else {
                    h1.rank_of(x)
                },
        ensures
            self.wf(),
            self.parent_of(child) == Some(parent),
            forall|x: EntityId| x != child ==> #[trigger] self.parent_of(x) == h0.parent_of(x),
            self.children_of(parent) == without(h0.children_of(parent), child).push(child),
            forall|p: EntityId|
                p != parent ==> #[trigger] self.children_of(p) == if h0.parent_of(child) == Some(
                    p,
                ) {
                    without(h0.children_of(p), child)
                } else {
                    h0.children_of(p)
                },
    {
        let m1 = h1.parents@;
        let p = parent.index();
        let c = child.index();
        // The child is not listed anywhere once grafted.
        assert forall|q: EntityId| !(#[trigger] h1.children_of(q)).contains(child) by {
            h1.lemma_children_agree(q, child);
        }
        // The parent's chain does not pass through the child.
        assert(!(exists|n: nat| reaches(m1, p, c, n))) by {
            if exists|n: nat| reaches(m1, p, c, n) {
                let n = choose|n: nat| reaches(m1, p, c, n);
                assert forall|k: usize| #[trigger] m1.contains_key(k) implies h0.parents@.contains_key(
                    k,
                ) && h0.parents@[k] == m1[k] by {
                    assert(EntityId(k) != child);
                    assert(h1.parent_of(EntityId(k)) == h0.parent_of(EntityId(k)));
                }
                lemma_reaches_sub(m1, h0.parents@, p, c, n);
                assert(h0.ancestor(child, parent));
            }
        }
        assert(reaches(m1, p, p, 0));
        // Ranks: every link climbs.
        assert forall|k: usize| #[trigger] self.parents@.contains_key(k) implies self.rank_of(
            self.parents@[k].index(),
        ) > self.rank_of(k) by {
            if k != c {
                assert(m1.contains_key(k));
                let z = m1[k].index();
                assert(h1.rank_of(z) > h1.rank_of(k));
                if exists|n: nat| reaches(m1, p, k, n) {
                    let n = choose|n: nat| reaches(m1, p, k, n);
                    lemma_reaches_extend(m1, p, k, n);
                }
            }
        }
        assert forall|x: usize| #[trigger] self.rank_of(x) <= self.bound@ by {
            assert(h1.rank_of(x) <= h1.bound@);
            assert(h1.rank_of(c) <= h1.bound@);
        }
        assert forall|k: usize| #[trigger] self.parents@.contains_key(k) implies {
            let q = self.parents@[k].index();
            self.children@.contains_key(q) && self.children@[q]@.contains(EntityId(k))
        } by {
            if k == c {
                assert(EntityId(c) == child);
                assert(self.children@[p]@[self.children@[p]@.len() - 1] == child);
            } else {
                let q = m1[k].index();
                assert(h1.children@[q]@.contains(EntityId(k)));
                if q == p {
                    let j = choose|j: int|
                        0 <= j < h1.children@[q]@.len() && h1.children@[q]@[j] == EntityId(k);
                    assert(self.children@[p]@[j] == EntityId(k));
                }
            }
        }
        assert forall|q: usize, i: int|
            self.children@.contains_key(q) && 0 <= i < self.children@[q]@.len() implies {
            let e = #[trigger] self.children@[q]@[i];
            self.parents@.contains_key(e.index()) && self.parents@[e.index()] == EntityId(q)
        } by {
            let e = self.children@[q]@[i];
            if q == p {
                if i < h1.children_of(parent).len() {
                    assert(h1.children_of(parent)[i] == e);
                    assert(h1.children_of(parent).contains(e));
                    assert(e != child);
                    assert(h1.children@[p]@[i] == e);
                } else {
                    assert(e == child);
                }
            } else {
                assert(h1.children@[q]@[i] == e);
                assert(h1.children_of(EntityId(q)).contains(e));
                assert(e != child);
            }
        }
        assert forall|q: usize| #[trigger] self.children@.contains_key(q) implies self.children@[
            q
        ]@.no_duplicates() by {
            if q == p {
                let s = h1.children_of(parent);
                assert(!s.contains(child));
                if h1.children@.contains_key(p) {
                    assert(s.no_duplicates());
                }
                let t = s.push(child);
                assert forall|i: int, j: int|
                    0 <= i < t.len() && 0 <= j < t.len() && i != j implies t[i] != t[j] by {
                    if i < s.len() && j < s.len() {
                        assert(t[i] == s[i] && t[j] == s[j]);
                    } else if i < s.len() {
                        assert(t[i] == s[i]);
                        assert(s.contains(s[i]));
                    } else if j < s.len() {
                        assert(t[j] == s[j]);
                        assert(s.contains(s[j]));
                    }
                }
            }
        }
        // The views, in terms of the state before the call.
        assert forall|x: EntityId| x != child implies #[trigger] self.parent_of(x) == h0.parent_of(
            x,
        ) by {
            assert(x.index() != c);
            assert(h1.parent_of(x) == h0.parent_of(x));
        }
        assert(EntityId(c) == child);
        h0.lemma_children_agree(parent, child);
        lemma_without(h0.children_of(parent), child);
        assert forall|q: EntityId| q != parent implies #[trigger] self.children_of(q) == if h0.parent_of(
            child,
        ) == Some(q) {
            without(h0.children_of(q), child)
        } else {
            h0.children_of(q)
        } by {
            assert(q.index() != p);
            assert(h1.children_of(q) == if h0.parent_of(child) == Some(q) {
                without(h0.children_of(q), child)
            } else {
                h0.children_of(q)
            });
        }
        assert(h1.children_of(parent) == if h0.parent_of(child) == Some(parent) {
            without(h0.children_of(parent), child)
        } else {
            h0.children_of(parent)
        });
    }
}

/// Every entity counts as its own ancestor.
pub proof fn lemma_ancestor_reflexive(h: Hierarchy, e: EntityId)
    ensures
        h.ancestor(e, e),
{
    assert(reaches(h.parents@, e.index(), e.index(), 0));
}

/// The parent of an entity is one of its ancestors.
pub proof fn lemma_parent_is_ancestor(h: Hierarchy, parent: EntityId, child: EntityId)
    requires
        h.parent_of(child) == Some(parent),
    ensures
        h.ancestor(parent, child),
{
    assert(reaches(h.parents@, parent.index(), parent.index(), 0));
    assert(reaches(h.parents@, child.index(), parent.index(), 1));
}

/// The hierarchy has no cycles: two entities that are each other's ancestor
/// are the same entity. In particular no entity is its own parent.
pub proof fn lemma_ancestor_antisymmetric(h: Hierarchy, a: EntityId, b: EntityId)
    requires
        h.wf(),
        h.ancestor(a, b),
        h.ancestor(b, a),
    ensures
        a == b,
{
    let n = choose|n: nat| reaches(h.parents@, b.index(), a.index(), n);
    let k = choose|k: nat| reaches(h.parents@, a.index(), b.index(), k);
    h.lemma_reaches_rank(b.index(), a.index(), n);
    h.lemma_reaches_rank(a.index(), b.index(), k);
    assert(a.index() == b.index());
}

/// An entity is never its own parent.
pub proof fn lemma_parent_distinct(h: Hierarchy, parent: EntityId, child: EntityId)
    requires
        h.wf(),
        h.parent_of(child) == Some(parent),
    ensures
        parent != child,
{
    assert(h.parents@.contains_key(child.index()));
    assert(h.rank_of(h.parents@[child.index()].index()) > h.rank_of(child.index()));
}

/// An entity without a parent is its own only ancestor.
pub proof fn lemma_root_ancestor(h: Hierarchy, root: EntityId)
    requires
        h.parent_of(root) is None,
    ensures
        forall|a: EntityId| #[trigger] h.ancestor(a, root) <==> a == root,
{
    assert forall|a: EntityId| #[trigger] h.ancestor(a, root) <==> a == root by {
        if a == root {
            assert(reaches(h.parents@, root.index(), a.index(), 0));
        }
        if h.ancestor(a, root) {
            let n = choose|n: nat| reaches(h.parents@, root.index(), a.index(), n);
            assert(!h.parents@.contains_key(root.index()));
            assert(root.index() == a.index());
        }
    }
}

/// The ancestors of an entity with a parent are the entity itself and the
/// ancestors of its parent.
pub proof fn lemma_ancestor_step(h: Hierarchy, parent: EntityId, child: EntityId)
    requires
        h.parent_of(child) == Some(parent),
    ensures
        forall|a: EntityId| #[trigger]
            h.ancestor(a, child) <==> (a == child || h.ancestor(a, parent)),
{
    assert forall|a: EntityId| #[trigger]
        h.ancestor(a, child) <==> (a == child || h.ancestor(a, parent)) by {
        if h.ancestor(a, child) && a != child {
            let n = choose|n: nat| reaches(h.parents@, child.index(), a.index(), n);
            assert(reaches(h.parents@, parent.index(), a.index(), (n - 1) as nat));
        }
        if a == child {
            assert(reaches(h.parents@, child.index(), a.index(), 0));
        }
        if h.ancestor(a, parent) {
            let n = choose|n: nat| reaches(h.parents@, parent.index(), a.index(), n);
            assert(reaches(h.parents@, child.index(), a.index(), n + 1));
        }
    }
}

/// Changing the parent link of `moved` alone does not change the ancestors
/// of any entity that did not have `moved` among its ancestors.
pub proof fn lemma_ancestor_frame(before: Hierarchy, after: Hierarchy, moved: EntityId)
    requires
        forall|x: EntityId| x != moved ==> #[trigger] after.parent_of(x) == before.parent_of(x),
    ensures
        forall|a: EntityId, y: EntityId|
            !before.ancestor(moved, y) ==> #[trigger] after.ancestor(a, y) == before.ancestor(a, y),
{
    assert forall|k: usize| k != moved.index() implies #[trigger] before.parents@.contains_key(k)
        == after.parents@.contains_key(k) by {
        assert(after.parent_of(EntityId(k)) == before.parent_of(EntityId(k)));
    }
    assert forall|k: usize| k != moved.index() && #[trigger] before.parents@.contains_key(k)
        implies before.parents@[k] == after.parents@[k] by {
        assert(after.parent_of(EntityId(k)) == before.parent_of(EntityId(k)));
    }
    assert(agree_except(before.parents@, after.parents@, moved.index()));
    assert forall|a: EntityId, y: EntityId|
        !before.ancestor(moved, y) implies #[trigger] after.ancestor(a, y) == before.ancestor(
        a,
        y,
    ) by {
        assert forall|n: nat| !reaches(before.parents@, y.index(), moved.index(), n) by {
            if reaches(before.parents@, y.index(), moved.index(), n) {
                assert(before.ancestor(moved, y));
            }
        }
        if after.ancestor(a, y) {
            let n = choose|n: nat| reaches(after.parents@, y.index(), a.index(), n);
            lemma_reaches_frame(before.parents@, after.parents@, moved.index(), y.index(), a.index(), n);
            assert(reaches(before.parents@, y.index(), a.index(), n));
        }
        if before.ancestor(a, y) {
            let n = choose|n: nat| reaches(before.parents@, y.index(), a.index(), n);
            lemma_reaches_frame(before.parents@, after.parents@, moved.index(), y.index(), a.index(), n);
            assert(reaches(after.parents@, y.index(), a.index(), n));
        }
    }
}

/// The two parent maps agree everywhere but at `moved`.
spec fn agree_except(m1: Map<usize, EntityId>, m2: Map<usize, EntityId>, moved: usize) -> bool {
    forall|k: usize|
        #![trigger m1.contains_key(k)]
        #![trigger m2.contains_key(k)]
        k != moved ==> (m1.contains_key(k) == m2.contains_key(k) && (m1.contains_key(k) ==> m1[k]
            == m2[k]))
}

proof fn lemma_reaches_frame(
    m1: Map<usize, EntityId>,
    m2: Map<usize, EntityId>,
    moved: usize,
    x: usize,
    a: usize,
    n: nat,
)
    requires
        agree_except(m1, m2, moved),
        forall|j: nat| !#[trigger] reaches(m1, x, moved, j),
    ensures
        reaches(m1, x, a, n) == reaches(m2, x, a, n),
    decreases n,
{
    assert(!reaches(m1, x, moved, 0));
    assert(m1.contains_key(x) == m2.contains_key(x));
    if x != a && n > 0 && m1.contains_key(x) {
        assert(m1[x] == m2[x]);
        let p = m1[x].index();
        assert forall|j: nat| !#[trigger] reaches(m1, p, moved, j) by {
            assert(!reaches(m1, x, moved, j + 1));
        }
        lemma_reaches_frame(m1, m2, moved, p, a, (n - 1) as nat);
    }
}

/// Ancestry chains: an ancestor of an ancestor is an ancestor.
pub proof fn lemma_ancestor_transitive(h: Hierarchy, a: EntityId, b: EntityId, c: EntityId)
    requires
        h.ancestor(a, b),
        h.ancestor(b, c),
    ensures
        h.ancestor(a, c),
{
    let n = choose|n: nat| reaches(h.parents@, b.index(), a.index(), n);
    let k = choose|k: nat| reaches(h.parents@, c.index(), b.index(), k);
    lemma_reaches_concat(h.parents@, c.index(), b.index(), a.index(), k, n);
}

proof fn lemma_reaches_concat(m: Map<usize, EntityId>, x: usize, y: usize, z: usize, k: nat, n: nat)
    requires
        reaches(m, x, y, k),
        reaches(m, y, z, n),
    ensures
        reaches(m, x, z, k + n),
    decreases k,
{
    if x == y {
        lemma_reaches_more(m, y, z, n, k);
    } else {
        lemma_reaches_concat(m, m[x].index(), y, z, (k - 1) as nat, n);
        assert(((k - 1) as nat) + n + 1 == k + n);
    }
}

proof fn lemma_reaches_more(m: Map<usize, EntityId>, x: usize, z: usize, n: nat, extra: nat)
    requires
        reaches(m, x, z, n),
    ensures
        reaches(m, x, z, n + extra),
    decreases n,
{
    if x != z {
        lemma_reaches_more(m, m[x].index(), z, (n - 1) as nat, extra);
        assert(((n - 1) as nat) + extra + 1 == n + extra);
    }
}


impl Default for Hierarchy {
    /// An empty hierarchy.
    fn default() -> (h: Self)
        ensures
            h.wf(),
            h.bounded(0),
            forall|e: EntityId| h.parent_of(e) == None::<EntityId>,
            forall|e: EntityId| h.children_of(e) == Seq::<EntityId>::empty(),
    {
        Hierarchy::new()
    }
}

} // verus!
