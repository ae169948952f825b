//! API for grouping entities through the hierarchy. A group is an entity whose
//! children are its members.

use crate::scene::entity::{
    lemma_nth, lemma_without, lemma_without_first, without, EntityId, EntityRef,
};
use crate::scene::hierarchy::{
    lemma_ancestor_antisymmetric, lemma_ancestor_frame, lemma_ancestor_step,
    lemma_parent_distinct, lemma_parent_is_ancestor, Hierarchy,
};
use crate::scene::bucket::lemma_filter_take_step;
use crate::scene::Scene;
use std::any::TypeId;
use vstd::prelude::*;

verus! {

/// The members of a group cut into runs, a new run starting at each member
/// listed in `ids`. There is always a first run, which may be empty.
pub open spec fn runs_before(members: Seq<EntityId>, ids: Seq<EntityId>) -> Seq<Seq<EntityId>>
    decreases members.len(),
{
    if members.len() == 0 {
        seq![Seq::empty()]
    } else {
        let runs = runs_before(members.drop_last(), ids);
        let c = members.last();
        if ids.contains(c) {
            runs.push(seq![c])
        } else {
            runs.update(runs.len() - 1, runs.last().push(c))
        }
    }
}

/// The members of a group cut into runs, a run ending at each member listed
/// in `ids`. There is always a last run, which may be empty.
pub open spec fn runs_after(members: Seq<EntityId>, ids: Seq<EntityId>) -> Seq<Seq<EntityId>>
    decreases members.len(),
{
    if members.len() == 0 {
        seq![Seq::empty()]
    } else {
        let runs = runs_after(members.drop_last(), ids);
        let c = members.last();
        let grown = runs.update(runs.len() - 1, runs.last().push(c));
        if ids.contains(c) {
            grown.push(Seq::empty())
        } else {
            grown
        }
    }
}

/// The runs of members between the members listed in `ids`, which belong to
/// no run. There is one run more than there are listed members.
pub open spec fn runs_between(members: Seq<EntityId>, ids: Seq<EntityId>) -> Seq<Seq<EntityId>>
    decreases members.len(),
{
    if members.len() == 0 {
        seq![Seq::empty()]
    } else {
        let runs = runs_between(members.drop_last(), ids);
        let c = members.last();
        if ids.contains(c) {
            runs.push(Seq::empty())
        } else {
            runs.update(runs.len() - 1, runs.last().push(c))
        }
    }
}

/// The children a group keeps when its members are cut between the members
/// listed in `ids`: the group of each run, numbered from `first`, with each
/// listed member between the groups of the runs before and after it.
pub open spec fn kept_between(members: Seq<EntityId>, ids: Seq<EntityId>, first: nat) -> Seq<
    EntityId,
>
    decreases members.len(),
{
    if members.len() == 0 {
        seq![EntityId::nth(first)]
    } else {
        let kept = kept_between(members.drop_last(), ids, first);
        let c = members.last();
        if ids.contains(c) {
            kept.push(c).push(
                EntityId::nth(first + runs_between(members.drop_last(), ids).len()),
            )
        } else {
            kept
        }
    }
}

/// The entities numbered `first`, `first + 1`, ..., `count` of them.
pub open spec fn numbered(first: nat, count: nat) -> Seq<EntityId> {
    Seq::new(count, |k: int| EntityId::nth((first + k) as nat))
}

/// Cutting before the listed members keeps every member, in order: the runs
/// put back together are the members. Each run after the first starts with a
/// listed member, and no listed member stands anywhere else.
pub proof fn lemma_runs_before(members: Seq<EntityId>, ids: Seq<EntityId>)
    ensures
        runs_before(members, ids).len() >= 1,
        runs_before(members, ids).flatten() == members,
        forall|k: int|
            0 < k < runs_before(members, ids).len() ==> (#[trigger] runs_before(members, ids)[k]).len()
                > 0 && ids.contains(runs_before(members, ids)[k][0]),
        forall|k: int, j: int|
            0 <= k < runs_before(members, ids).len() && 0 <= j < runs_before(members, ids)[k].len()
                && (k == 0 || j > 0) ==> !ids.contains(#[trigger] runs_before(members, ids)[k][j]),
    decreases members.len(),
{
    let runs = runs_before(members, ids);
    if members.len() == 0 {
        assert(runs.drop_last().flatten_alt() == Seq::<EntityId>::empty());
        assert(runs.flatten_alt() == runs.drop_last().flatten_alt() + runs.last());
        runs.lemma_flatten_and_flatten_alt_are_equivalent();
        assert(runs.flatten_alt() =~= members);
    } else {
        let init = members.drop_last();
        let c = members.last();
        let prev = runs_before(init, ids);
        lemma_runs_before(init, ids);
        prev.lemma_flatten_and_flatten_alt_are_equivalent();
        runs.lemma_flatten_and_flatten_alt_are_equivalent();
        assert(members =~= init.push(c));
        assert(runs.flatten_alt() == runs.drop_last().flatten_alt() + runs.last());
        if ids.contains(c) {
            assert(runs.drop_last() =~= prev);
            assert(runs.flatten_alt() =~= members);
            assert forall|k: int, j: int|
                0 <= k < runs.len() && 0 <= j < runs[k].len() && (k == 0 || j > 0) implies !ids.contains(
                #[trigger] runs[k][j],
            ) by {
                if k < prev.len() {
                    assert(runs[k] == prev[k]);
                }
            }
        } else {
            let last = prev.len() - 1;
            assert(runs.drop_last() =~= prev.drop_last());
            assert(prev =~= prev.drop_last().push(prev[last]));
            assert(prev.flatten_alt() == prev.drop_last().flatten_alt() + prev[last]);
            assert(runs.last() =~= prev[last].push(c));
            assert(runs.flatten_alt() =~= members);
            assert forall|k: int, j: int|
                0 <= k < runs.len() && 0 <= j < runs[k].len() && (k == 0 || j > 0) implies !ids.contains(
                #[trigger] runs[k][j],
            ) by {
                if k < last || j < prev[last].len() {
                    assert(runs[k][j] == prev[k][j]);
                }
            }
            assert forall|k: int| 0 < k < runs.len() implies (#[trigger] runs[k]).len() > 0
                && ids.contains(runs[k][0]) by {
                assert(runs[k][0] == prev[k][0]);
            }
        }
    }
}

/// Cutting after the listed members keeps every member, in order: the runs
/// put back together are the members. Each run but the last ends with a
/// listed member, and no listed member stands anywhere else.
pub proof fn lemma_runs_after(members: Seq<EntityId>, ids: Seq<EntityId>)
    ensures
        runs_after(members, ids).len() >= 1,
        runs_after(members, ids).flatten() == members,
        forall|k: int|
            0 <= k < runs_after(members, ids).len() - 1 ==> (#[trigger] runs_after(members, ids)[k]).len()
                > 0 && ids.contains(runs_after(members, ids)[k].last()),
        forall|k: int, j: int|
            0 <= k < runs_after(members, ids).len() && 0 <= j < runs_after(members, ids)[k].len()
                && (k == runs_after(members, ids).len() - 1 || j < runs_after(members, ids)[k].len()
                - 1) ==> !ids.contains(#[trigger] runs_after(members, ids)[k][j]),
    decreases members.len(),
{
    let runs = runs_after(members, ids);
    if members.len() == 0 {
        assert(runs.drop_last().flatten_alt() == Seq::<EntityId>::empty());
        assert(runs.flatten_alt() == runs.drop_last().flatten_alt() + runs.last());
        runs.lemma_flatten_and_flatten_alt_are_equivalent();
        assert(runs.flatten_alt() =~= members);
    } else {
        let init = members.drop_last();
        let c = members.last();
        let prev = runs_after(init, ids);
        lemma_runs_after(init, ids);
        let last = prev.len() - 1;
        let grown = prev.update(last, prev[last].push(c));
        prev.lemma_flatten_and_flatten_alt_are_equivalent();
        grown.lemma_flatten_and_flatten_alt_are_equivalent();
        runs.lemma_flatten_and_flatten_alt_are_equivalent();
        assert(grown.drop_last() =~= prev.drop_last());
        assert(prev =~= prev.drop_last().push(prev[last]));
        assert(prev.flatten_alt() == prev.drop_last().flatten_alt() + prev[last]);
        assert(members =~= init.push(c));
        assert(grown.flatten_alt() == grown.drop_last().flatten_alt() + grown.last());
        assert(grown.last() =~= prev[last].push(c));
        assert(grown.flatten_alt() =~= members);
        if ids.contains(c) {
            assert(runs.drop_last() =~= grown);
            assert(runs.flatten_alt() == runs.drop_last().flatten_alt() + runs.last());
            assert(runs.flatten_alt() =~= members);
            assert forall|k: int, j: int|
                0 <= k < runs.len() && 0 <= j < runs[k].len() && (k == runs.len() - 1 || j
                    < runs[k].len() - 1) implies !ids.contains(#[trigger] runs[k][j]) by {
                if k < last || (k == last && j < prev[last].len()) {
                    assert(runs[k][j] == prev[k][j]);
                }
            }
            assert forall|k: int| 0 <= k < runs.len() - 1 implies (#[trigger] runs[k]).len() > 0
                && ids.contains(runs[k].last()) by {
                if k < last {
                    assert(runs[k] == prev[k]);
                }
            }
        } else {
            assert forall|k: int, j: int|
                0 <= k < runs.len() && 0 <= j < runs[k].len() && (k == runs.len() - 1 || j
                    < runs[k].len() - 1) implies !ids.contains(#[trigger] runs[k][j]) by {
                if k < last || j < prev[last].len() {
                    assert(runs[k][j] == prev[k][j]);
                }
            }
            assert forall|k: int| 0 <= k < runs.len() - 1 implies (#[trigger] runs[k]).len() > 0
                && ids.contains(runs[k].last()) by {
                assert(runs[k] == prev[k]);
            }
        }
    }
}

/// Cutting between the listed members drops exactly the listed members from
/// the runs, which put back together are the other members in order; there
/// is one run more than there are listed members.
pub proof fn lemma_runs_between(members: Seq<EntityId>, ids: Seq<EntityId>)
    ensures
        runs_between(members, ids).len() == members.filter(|x: EntityId| ids.contains(x)).len()
            + 1,
        runs_between(members, ids).flatten() == members.filter(|x: EntityId| !ids.contains(x)),
    decreases members.len(),
{
    let listed = |x: EntityId| ids.contains(x);
    let unlisted = |x: EntityId| !ids.contains(x);
    let runs = runs_between(members, ids);
    reveal_with_fuel(Seq::filter, 1);
    if members.len() == 0 {
        assert(runs.drop_last().flatten_alt() == Seq::<EntityId>::empty());
        assert(runs.flatten_alt() == runs.drop_last().flatten_alt() + runs.last());
        runs.lemma_flatten_and_flatten_alt_are_equivalent();
        assert(runs.flatten_alt() =~= members.filter(unlisted));
    } else {
        let init = members.drop_last();
        let c = members.last();
        let prev = runs_between(init, ids);
        lemma_runs_between(init, ids);
        prev.lemma_flatten_and_flatten_alt_are_equivalent();
        runs.lemma_flatten_and_flatten_alt_are_equivalent();
        assert(members.filter(listed) == if listed(c) {
            init.filter(listed).push(c)
        } else {
            init.filter(listed)
        });
        assert(members.filter(unlisted) == if unlisted(c) {
            init.filter(unlisted).push(c)
        } else {
            init.filter(unlisted)
        });
        assert(members =~= init.push(c));
        assert(members.drop_last() =~= init);
        assert(runs.flatten_alt() == runs.drop_last().flatten_alt() + runs.last());
        if ids.contains(c) {
            assert(runs.drop_last() =~= prev);
            assert(runs.flatten_alt() =~= members.filter(unlisted));
        } else {
            let last = prev.len() - 1;
            assert(runs.drop_last() =~= prev.drop_last());
            assert(prev =~= prev.drop_last().push(prev[last]));
            assert(prev.flatten_alt() == prev.drop_last().flatten_alt() + prev[last]);
            assert(runs.last() =~= prev[last].push(c));
            assert(runs.flatten_alt() =~= members.filter(unlisted));
        }
    }
}

/// Members none of which is listed stay together as one run.
pub proof fn lemma_runs_between_whole(members: Seq<EntityId>, ids: Seq<EntityId>)
    requires
        forall|j: int| 0 <= j < members.len() ==> !ids.contains(#[trigger] members[j]),
    ensures
        runs_between(members, ids) == seq![members],
    decreases members.len(),
{
    if members.len() > 0 {
        let init = members.drop_last();
        assert forall|j: int| 0 <= j < init.len() implies !ids.contains(#[trigger] init[j]) by {
            assert(init[j] == members[j]);
        }
        lemma_runs_between_whole(init, ids);
        assert(!ids.contains(members[members.len() - 1]));
        assert(init.push(members.last()) =~= members);
        assert(runs_between(members, ids) =~= seq![members]);
    } else {
        assert(members =~= Seq::<EntityId>::empty());
    }
}

/// Cutting at a listed member: the runs of the members before it, then the
/// runs of the members after it. With `lemma_runs_between_whole` this says
/// where every member goes: each run is a whole stretch of members between
/// two listed ones, in order.
pub proof fn lemma_runs_between_cut(
    before: Seq<EntityId>,
    x: EntityId,
    after: Seq<EntityId>,
    ids: Seq<EntityId>,
)
    requires
        ids.contains(x),
    ensures
        runs_between(before.push(x) + after, ids) == runs_between(before, ids) + runs_between(
            after,
            ids,
        ),
    decreases after.len(),
{
    let m = before.push(x) + after;
    if after.len() == 0 {
        assert(m =~= before.push(x));
        assert(m.drop_last() =~= before);
        assert(runs_between(after, ids) == seq![Seq::<EntityId>::empty()]);
        assert(runs_between(m, ids) =~= runs_between(before, ids) + runs_between(after, ids));
    } else {
        let rest = after.drop_last();
        let c = after.last();
        lemma_runs_between_cut(before, x, rest, ids);
        lemma_runs_between(rest, ids);
        assert(m.drop_last() =~= before.push(x) + rest);
        assert(m.last() == c);
        let a = runs_between(before, ids);
        let r = runs_between(rest, ids);
        assert(runs_between(m.drop_last(), ids) == a + r);
        if ids.contains(c) {
            assert(runs_between(after, ids) == r.push(Seq::empty()));
            assert(runs_between(m, ids) =~= a + r.push(Seq::empty()));
        } else {
            assert(r.len() >= 1);
            assert(runs_between(after, ids) == r.update(r.len() - 1, r.last().push(c)));
            assert((a + r).last() == r.last());
            assert(runs_between(m, ids) =~= a + r.update(r.len() - 1, r.last().push(c)));
        }
    }
}

/// How many of the first `j` members are listed in `ids`.
pub open spec fn listed_before(members: Seq<EntityId>, ids: Seq<EntityId>, j: int) -> int {
    members.take(j).filter(|x: EntityId| ids.contains(x)).len() as int
}

/// Where each member goes when cutting between the listed members: an
/// unlisted member lands in the run numbered by how many listed members
/// come before it.
pub proof fn lemma_runs_between_place(members: Seq<EntityId>, ids: Seq<EntityId>)
    ensures
        forall|j: int|
            #![trigger members[j]]
            0 <= j < members.len() && !ids.contains(members[j]) ==> {
                &&& listed_before(members, ids, j) < runs_between(members, ids).len()
                &&& runs_between(members, ids)[listed_before(members, ids, j)].contains(members[j])
            },
    decreases members.len(),
{
    if members.len() > 0 {
        let init = members.drop_last();
        let c = members.last();
        let n = members.len() - 1;
        lemma_runs_between_place(init, ids);
        lemma_runs_between(init, ids);
        let prev = runs_between(init, ids);
        let runs = runs_between(members, ids);
        assert(members.drop_last() =~= init);
        assert forall|j: int|
            #![trigger members[j]]
            0 <= j < members.len() && !ids.contains(members[j]) implies {
                &&& listed_before(members, ids, j) < runs_between(members, ids).len()
                &&& runs_between(members, ids)[listed_before(members, ids, j)].contains(members[j])
            } by {
            let k = listed_before(members, ids, j);
            if j < n {
                assert(members.take(j) =~= init.take(j));
                assert(k == listed_before(init, ids, j));
                assert(members[j] == init[j]);
                assert(!ids.contains(init[j]));
                assert(prev[listed_before(init, ids, j)].contains(init[j]));
                assert(k < prev.len());
                assert(runs.len() >= prev.len());
                let i = choose|i: int| 0 <= i < prev[k].len() && prev[k][i] == init[j];
                if ids.contains(c) {
                    assert(runs[k] == prev[k]);
                } else if k == prev.len() - 1 {
                    assert(runs[k] == prev[k].push(c));
                    assert(runs[k][i] == members[j]);
                } else {
                    assert(runs[k] == prev[k]);
                }
            } else {
                assert(members.take(j) =~= init);
                assert(k == prev.len() - 1);
                assert(runs.len() == prev.len());
                assert(runs[k] == prev[k].push(c));
                assert(runs[k][prev[k].len() as int] == c);
            }
        }
    }
}

/// Cutting between the listed members keeps, in order, the group of the
/// first run, then each listed member followed by the group of the run after
/// it; the groups are numbered from `first` in order.
pub proof fn lemma_kept_between(members: Seq<EntityId>, ids: Seq<EntityId>, first: nat)
    ensures
        ({
            let listed = members.filter(|x: EntityId| ids.contains(x));
            let kept = kept_between(members, ids, first);
            &&& kept.len() == 2 * listed.len() + 1
            &&& forall|k: int| 0 <= k < listed.len() ==> #[trigger] kept[2 * k + 1] == listed[k]
            &&& forall|k: int|
                0 <= k <= listed.len() ==> #[trigger] kept[2 * k] == EntityId::nth((first + k) as nat)
        }),
    decreases members.len(),
{
    let is_listed = |x: EntityId| ids.contains(x);
    let kept = kept_between(members, ids, first);
    let listed = members.filter(is_listed);
    reveal_with_fuel(Seq::filter, 1);
    if members.len() == 0 {
        assert(listed.len() == 0);
    } else {
        let init = members.drop_last();
        let c = members.last();
        lemma_kept_between(init, ids, first);
        lemma_runs_between(init, ids);
        let prev = kept_between(init, ids, first);
        let prev_listed = init.filter(is_listed);
        assert(members.drop_last() =~= init);
        if ids.contains(c) {
            assert(listed == prev_listed.push(c));
            let n = prev_listed.len();
            assert(kept == prev.push(c).push(EntityId::nth(first + n + 1)));
            assert forall|k: int| 0 <= k < listed.len() implies #[trigger] kept[2 * k + 1]
                == listed[k] by {
                if k < n {
                    assert(kept[2 * k + 1] == prev[2 * k + 1]);
                }
            }
            assert forall|k: int| 0 <= k <= listed.len() implies #[trigger] kept[2 * k]
                == EntityId::nth((first + k) as nat) by {
                if k <= n {
                    assert(kept[2 * k] == prev[2 * k]);
                }
            }
        } else {
            assert(listed == prev_listed);
        }
    }
}

/// `s` is `s0` after the children of `g` were dealt out: `g` now has the
/// children `top`, and the `k`-th of the groups newly created for the runs
/// is the entity numbered `k` past the ones `s0` had created, with the
/// children `runs[k]`; these groups were not live before. Nothing else
/// changed.
pub open spec fn regrouped<C>(
    s0: Scene<C>,
    s: Scene<C>,
    g: EntityId,
    top: Seq<EntityId>,
    runs: Seq<Seq<EntityId>>,
) -> bool {
    let n0 = s0.entity_store().created();
    let h0 = s0.tree();
    let h = s.tree();
    &&& s.wf()
    &&& s.components() == s0.components()
    &&& s.entity_store().created() == n0 + runs.len()
    &&& forall|e: EntityId|
        n0 <= e.ordinal() ==> !(#[trigger] s0.entity_store().data().contains_key(e))
    &&& forall|e: EntityId| #[trigger]
        s.entity_store().data().contains_key(e) <==> (s0.entity_store().data().contains_key(e)
            || n0 <= e.ordinal() < n0 + runs.len())
    &&& h.children_of(g) == top
    &&& forall|k: int|
        0 <= k < runs.len() ==> #[trigger] h.children_of(EntityId::nth((n0 + k) as nat))
            == runs[k]
    &&& forall|j: int| 0 <= j < top.len() ==> #[trigger] h.parent_of(top[j]) == Some(g)
    &&& forall|k: int, j: int|
        0 <= k < runs.len() && 0 <= j < runs[k].len() ==> #[trigger] h.parent_of(runs[k][j])
            == Some(EntityId::nth((n0 + k) as nat))
    &&& forall|x: EntityId|
        !h0.children_of(g).contains(x) && x.ordinal() < n0 ==> #[trigger] h.parent_of(x)
            == h0.parent_of(x)
    &&& forall|p: EntityId|
        p != g && p.ordinal() < n0 ==> #[trigger] h.children_of(p) == h0.children_of(p)
}

/// Part way through dealing out the children of `g`: `waiting` are the
/// members still without a parent, and the ancestors of `g` are unchanged.
spec fn dealing<C>(
    s0: Scene<C>,
    s: Scene<C>,
    g: EntityId,
    top: Seq<EntityId>,
    runs: Seq<Seq<EntityId>>,
    waiting: Seq<EntityId>,
) -> bool {
    let n0 = s0.entity_store().created();
    let h0 = s0.tree();
    let h = s.tree();
    &&& regrouped(s0, s, g, top, runs)
    &&& s0.wf()
    &&& g.ordinal() < n0
    &&& waiting.no_duplicates()
    &&& forall|j: int|
        0 <= j < waiting.len() ==> #[trigger] h.parent_of(waiting[j]) == None::<EntityId>
            && h0.children_of(g).contains(waiting[j])
    &&& forall|x: EntityId| #[trigger]
        h0.children_of(g).contains(x) ==> !h0.ancestor(x, g) && x.ordinal() < n0
    &&& forall|a: EntityId| #[trigger] h.ancestor(a, g) == h0.ancestor(a, g)
}

/// Right after the children of `g` were taken out, none of them is dealt out
/// yet.
proof fn lemma_dealing_start<C>(s0: Scene<C>, s1: Scene<C>, g: EntityId, members: Seq<EntityId>)
    requires
        s0.wf(),
        g.ordinal() < s0.entity_store().created(),
        members == s0.tree().children_of(g),
        s1.wf(),
        s1.entity_store() == s0.entity_store(),
        s1.components() == s0.components(),
        s1.tree().children_of(g) == Seq::<EntityId>::empty(),
        forall|p: EntityId| p != g ==> #[trigger] s1.tree().children_of(p) == s0.tree().children_of(p),
        forall|x: EntityId| #[trigger]
            s1.tree().parent_of(x) == if members.contains(x) {
                None
            } else {
                s0.tree().parent_of(x)
            },
        forall|a: EntityId| #[trigger] s1.tree().ancestor(a, g) == s0.tree().ancestor(a, g),
    ensures
        dealing(s0, s1, g, Seq::empty(), Seq::empty(), members),
{
    let h0 = s0.tree();
    s0.entity_store().lemma_live_below();
    h0.lemma_children_no_duplicates(g);
    assert forall|x: EntityId| #[trigger] members.contains(x) implies !h0.ancestor(x, g)
        && x.ordinal() < s0.entity_store().created() by {
        h0.lemma_children_agree(g, x);
        lemma_parent_is_ancestor(h0, g, x);
        lemma_parent_distinct(h0, g, x);
        if h0.ancestor(x, g) {
            lemma_ancestor_antisymmetric(h0, x, g);
        }
        h0.lemma_bounded_parent(s0.entity_store().created(), x);
    }
    assert forall|j: int| 0 <= j < members.len() implies #[trigger] s1.tree().parent_of(members[j])
        == None::<EntityId> && h0.children_of(g).contains(members[j]) by {
        assert(members.contains(members[j]));
    }
}

/// Returns true iff `x` is listed in `ids`.
fn listed(ids: &[EntityId], x: EntityId) -> (r: bool)
    ensures
        r == ids@.contains(x),
{
    let mut i: usize = 0;
    while i < ids.len()
        invariant
            i <= ids@.len(),
            forall|q: int| 0 <= q < i ==> ids@[q] != x,
        decreases ids@.len() - i,
    {
        if ids[i] == x {
            return true;
        }
        i = i + 1;
    }
    false
}


/// `s` is `before` after `child` was made a child of `parent`, grafting it
/// from its parent first; when `child` is an ancestor of `parent` (or
/// `parent` itself) it is only grafted.
pub open spec fn adopted<C>(before: Scene<C>, s: Scene<C>, parent: EntityId, child: EntityId) -> bool {
    let h0 = before.tree();
    let h = s.tree();
    &&& s.wf()
    &&& s.entity_store() == before.entity_store()
    &&& s.components() == before.components()
    &&& h.parent_of(child) == if h0.ancestor(child, parent) {
        None
    } else {
        Some(parent)
    }
    &&& forall|x: EntityId| x != child ==> #[trigger] h.parent_of(x) == h0.parent_of(x)
    &&& h.children_of(parent) == if h0.ancestor(child, parent) {
        without(h0.children_of(parent), child)
    } else {
        without(h0.children_of(parent), child).push(child)
    }
    &&& forall|p: EntityId|
        p != parent ==> #[trigger] h.children_of(p) == if h0.parent_of(child) == Some(p) {
            without(h0.children_of(p), child)
        } else {
            h0.children_of(p)
        }
}


/// One step of `GroupRef::create`: from the scene `before`, `generate` was
/// called with `i` and the entity it returned was added to the group `g`,
/// giving the scene `after`.
pub open spec fn generated<C, T>(generate: T, i: u32, before: Scene<C>, after: Scene<C>, g: EntityId) -> bool
    where
        T: for<'b> FnMut(u32, &'b mut Scene<C>) -> EntityRef<'b, C>,
{
    exists|s: &mut Scene<C>, e: EntityRef<C>|
        *s == before && #[trigger] generate.ensures((i, s), e) && adopted(*e.scene, after, g, e.id)
}


/// One step of `GroupRef::for_each`: from the scene `before`, `visit` was
/// called with `i` and a reference to the child `id`, leaving the scene
/// `after`.
pub open spec fn visited<C, F>(visit: F, i: u32, id: EntityId, before: Scene<C>, after: Scene<C>) -> bool
    where
        F: for<'b> FnMut(u32, EntityRef<'b, C>) -> EntityRef<'b, C>,
{
    exists|e: EntityRef<C>, out: EntityRef<C>|
        e.id == id && *e.scene == before && #[trigger] visit.ensures((i, e), out) && *out.scene == after
}


/// The children of `g` whose component of kind `kind` is a label that
/// `is_label` accepts, in order.
pub open spec fn accepted<C, F: Fn(&C) -> bool>(
    s: Scene<C>,
    g: EntityId,
    kind: TypeId,
    is_label: F,
) -> Seq<EntityId> {
    s.tree().children_of(g).filter(
        |x: EntityId|
            s.components().store(kind).contains_key(x) && is_label.ensures(
                (&s.components().store(kind)[x],),
                true,
            ),
    )
}

impl<C> Scene<C> {
    /// Makes `child` a child of `parent`, grafting it from its parent if
    /// needed. When `child` is an ancestor of `parent` (or `parent` itself)
    /// it is only grafted.
    pub(crate) fn adopt(&mut self, parent: EntityId, child: EntityId)
        requires
            old(self).wf(),
            child.ordinal() < old(self).entity_store().created(),
            parent.ordinal() < old(self).entity_store().created(),
        ensures
            final(self).wf(),
            final(self).entity_store() == old(self).entity_store(),
            final(self).components() == old(self).components(),
            final(self).tree().parent_of(child) == if old(self).tree().ancestor(child, parent) {
                None
            } else {
                Some(parent)
            },
            forall|x: EntityId|
                x != child ==> #[trigger] final(self).tree().parent_of(x) == old(
                    self,
                ).tree().parent_of(x),
            final(self).tree().children_of(parent) == if old(self).tree().ancestor(child, parent) {
                without(old(self).tree().children_of(parent), child)
            } else {
                without(old(self).tree().children_of(parent), child).push(child)
            },
            forall|p: EntityId|
                p != parent ==> #[trigger] final(self).tree().children_of(p) == if old(
                    self,
                ).tree().parent_of(child) == Some(p) {
                    without(old(self).tree().children_of(p), child)
                } else {
                    old(self).tree().children_of(p)
                },
    {
        let ghost h0 = self.hierarchy;
        self.hierarchy.graft(child);
        let ghost h1 = self.hierarchy;
        self.hierarchy.add_child(parent, child);
        proof {
            h0.lemma_children_agree(parent, child);
            h1.lemma_children_agree(parent, child);
            lemma_without(h0.children_of(parent), child);
            lemma_without(without(h0.children_of(parent), child), child);
            assert(h1.children_of(parent) == without(h0.children_of(parent), child));
        }
    }
}

/// A reference to a group in the scene: the id of the group entity and a
/// mutable reference to the scene.
pub struct GroupRef<'a, C> {
    pub scene: &'a mut Scene<C>,
    pub id: EntityId,
}

impl<'a, C> GroupRef<'a, C> {
    pub fn new(scene: &'a mut Scene<C>, id: EntityId) -> (r: Self)
        ensures
            r.id == id,
            *r.scene == *old(scene),
            *final(r.scene) == *final(scene),
    {
        Self { scene, id }
    }

    /// Returns the hierarchy for the scene.
    pub fn hierarchy(&self) -> (r: &Hierarchy)
        ensures
            *r == old(self.scene).tree(),
    {
        &self.scene.hierarchy
    }

    /// Returns the children of this group.
    pub fn children(&self) -> (r: Vec<EntityId>)
        ensures
            r@ == old(self.scene).tree().children_of(self.id),
    {
        self.scene.hierarchy.children(self.id)
    }

    /// Returns the number of children in this group.
    pub fn len(&self) -> (r: usize)
        requires
            self.scene.wf(),
        ensures
            r == old(self.scene).tree().children_of(self.id).len(),
    {
        self.children().len()
    }

    /// Returns true if this group contains `id` as a child, and false otherwise.
    pub fn contains(&self, id: EntityId) -> (r: bool)
        requires
            self.scene.wf(),
        ensures
            r == old(self.scene).tree().children_of(self.id).contains(id),
    {
        let children = self.children();
        let mut i: usize = 0;
        while i < children.len()
            invariant
                i <= children@.len(),
                children@ == old(self.scene).tree().children_of(self.id),
                forall|q: int| 0 <= q < i ==> children@[q] != id,
            decreases children@.len() - i,
        {
            if children[i] == id {
                return true;
            }
            i = i + 1;
        }
        false
    }

    /// Removes `child` from this group, or does nothing if it is not part of
    /// the group.
    pub fn remove(&mut self, child: EntityId) -> (r: &mut Self)
        requires
            old(self).scene.wf(),
        ensures
            (*r).id == old(self).id,
            *final(self) == *final(r),
            (*r).scene.wf(),
            (*r).scene.entity_store() == old(self).scene.entity_store(),
            (*r).scene.components() == old(self).scene.components(),
            old(self).scene.tree().parent_of(child) != Some(old(self).id) ==> (*r).scene.tree()
                == old(self).scene.tree(),
            old(self).scene.tree().parent_of(child) == Some(old(self).id) ==> {
                &&& (*r).scene.tree().parent_of(child) == None::<EntityId>
                &&& forall|x: EntityId|
                    x != child ==> #[trigger] (*r).scene.tree().parent_of(x) == old(
                        self,
                    ).scene.tree().parent_of(x)
                &&& (*r).scene.tree().children_of(old(self).id) == without(
                    old(self).scene.tree().children_of(old(self).id),
                    child,
                )
                &&& forall|p: EntityId|
                    p != old(self).id ==> #[trigger] (*r).scene.tree().children_of(p) == old(
                        self,
                    ).scene.tree().children_of(p)
            },
    {
        let hierarchy = &mut self.scene.hierarchy;
        if hierarchy.is_parent(self.id, child) {
            hierarchy.graft(child);
        }
        self
    }

    /// Takes every child out of this group and returns them, in order.
    pub fn ungroup(&mut self) -> (r: Vec<EntityId>)
        requires
            old(self).scene.wf(),
        ensures
            final(self).id == old(self).id,
            r@ == old(self).scene.tree().children_of(old(self).id),
            final(self).scene.wf(),
            final(self).scene.entity_store() == old(self).scene.entity_store(),
            final(self).scene.components() == old(self).scene.components(),
            final(self).scene.tree().children_of(old(self).id) == Seq::<EntityId>::empty(),
            forall|p: EntityId|
                p != old(self).id ==> #[trigger] final(self).scene.tree().children_of(p) == old(
                    self,
                ).scene.tree().children_of(p),
            forall|x: EntityId| #[trigger]
                final(self).scene.tree().parent_of(x) == if r@.contains(x) {
                    None
                } else {
                    old(self).scene.tree().parent_of(x)
                },
            forall|a: EntityId| #[trigger]
                final(self).scene.tree().ancestor(a, old(self).id) == old(
                    self,
                ).scene.tree().ancestor(a, old(self).id),
    {
        let ghost h0 = self.scene.hierarchy;
        let ghost g = self.id;
        let children = self.scene.hierarchy.children(self.id);
        proof {
            assert forall|j: int| 0 <= j < children@.len() implies #[trigger] h0.parent_of(
                children@[j],
            ) == Some(g) && !h0.ancestor(children@[j], g) by {
                let c = children@[j];
                assert(h0.children_of(g).contains(c));
                h0.lemma_children_agree(g, c);
                lemma_parent_is_ancestor(h0, g, c);
                lemma_parent_distinct(h0, g, c);
                if h0.ancestor(c, g) {
                    lemma_ancestor_antisymmetric(h0, c, g);
                }
            }
            h0.lemma_children_no_duplicates(g);
        }
        let mut i: usize = 0;
        while i < children.len()
            invariant
                i <= children@.len(),
                self.id == g,
                old(self).id == g,
                old(self).scene.tree() == h0,
                h0.wf(),
                children@ == h0.children_of(g),
                children@.no_duplicates(),
                forall|j: int|
                    0 <= j < children@.len() ==> #[trigger] h0.parent_of(children@[j]) == Some(g)
                        && !h0.ancestor(children@[j], g),
                self.scene.wf(),
                self.scene.entity_store() == old(self).scene.entity_store(),
                self.scene.components() == old(self).scene.components(),
                self.scene.tree().children_of(g) == children@.skip(i as int),
                forall|p: EntityId|
                    p != g ==> #[trigger] self.scene.tree().children_of(p) == h0.children_of(p),
                forall|x: EntityId| #[trigger]
                    self.scene.tree().parent_of(x) == if children@.take(i as int).contains(x) {
                        None
                    } else {
                        h0.parent_of(x)
                    },
                forall|a: EntityId| #[trigger]
                    self.scene.tree().ancestor(a, g) == h0.ancestor(a, g),
            decreases children@.len() - i,
        {
            let ghost before = self.scene.hierarchy;
            let c = children[i];
            proof {
                assert(children@.skip(i as int)[0] == c);
                assert(children@.skip(i as int).drop_first() =~= children@.skip(i + 1));
                assert(!children@.skip(i + 1).contains(c)) by {
                    if children@.skip(i + 1).contains(c) {
                        let k = choose|k: int|
                            0 <= k < children@.skip(i + 1).len() && #[trigger] children@.skip(
                                i + 1,
                            )[k] == c;
                        assert(children@[i + 1 + k] == children@[i as int]);
                    }
                }
                lemma_without_first(children@.skip(i as int));
                assert(!children@.take(i as int).contains(c)) by {
                    if children@.take(i as int).contains(c) {
                        let k = choose|k: int|
                            0 <= k < i && #[trigger] children@.take(i as int)[k] == c;
                        assert(children@[k] == children@[i as int]);
                    }
                }
                assert(before.parent_of(c) == Some(g));
                assert(!before.ancestor(c, g));
            }
            self.scene.hierarchy.graft(c);
            proof {
                let after = self.scene.hierarchy;
                lemma_ancestor_frame(before, after, c);
                assert forall|a: EntityId| #[trigger] after.ancestor(a, g) == h0.ancestor(a, g) by {
                    assert(after.ancestor(a, g) == before.ancestor(a, g));
                }
                assert(children@.take(i + 1) =~= children@.take(i as int).push(c));
                assert forall|x: EntityId| #[trigger]
                    after.parent_of(x) == if children@.take(i + 1).contains(x) {
                        None
                    } else {
                        h0.parent_of(x)
                    } by {
                    if x != c {
                        assert(children@.take(i + 1).contains(x) == children@.take(
                            i as int,
                        ).contains(x)) by {
                            if children@.take(i + 1).contains(x) {
                                let k = choose|k: int|
                                    0 <= k < i + 1 && #[trigger] children@.take(i + 1)[k] == x;
                                assert(children@.take(i as int)[k] == x);
                            }
                        }
                    } else {
                        assert(children@.take(i + 1)[i as int] == c);
                    }
                }
            }
            i = i + 1;
        }
        proof {
            assert(children@.take(children@.len() as int) =~= children@);
            assert(children@.skip(children@.len() as int) =~= Seq::<EntityId>::empty());
        }
        children
    }

    /// Creates a group for the next run and adds it to this group.
    fn open_run(
        &mut self,
        Ghost(s0): Ghost<Scene<C>>,
        Ghost(top): Ghost<Seq<EntityId>>,
        Ghost(runs): Ghost<Seq<Seq<EntityId>>>,
        Ghost(waiting): Ghost<Seq<EntityId>>,
    ) -> (sub: EntityId)
        requires
            dealing(s0, *old(self).scene, old(self).id, top, runs, waiting),
            s0.entity_store().created() + runs.len() < usize::MAX,
        ensures
            final(self).id == old(self).id,
            sub == EntityId::nth(s0.entity_store().created() + runs.len()),
            dealing(s0, *final(self).scene, old(self).id, top.push(sub), runs.push(Seq::empty()), waiting),
    {
        let ghost g = self.id;
        let ghost n0 = s0.entity_store().created();
        let ghost h0 = s0.tree();
        let ghost s1 = *self.scene;
        let ghost h1 = s1.tree();
        let sub = self.scene.group().id();
        proof {
            lemma_nth(n0 + runs.len());
            h1.lemma_fresh(s1.entity_store().created(), sub);
            h1.lemma_children_agree(g, sub);
            lemma_without(top, sub);
        }
        let ghost s2 = *self.scene;
        self.add(sub);
        proof {
            let s3 = *self.scene;
            let h3 = s3.tree();
            assert(h3.parent_of(sub) == Some(g));
            assert(h3.children_of(g) == top.push(sub));
            lemma_ancestor_frame(h1, h3, sub);
            assert forall|a: EntityId| #[trigger] h3.ancestor(a, g) == h0.ancestor(a, g) by {
                assert(h3.ancestor(a, g) == h1.ancestor(a, g));
            }
            let runs2 = runs.push(Seq::<EntityId>::empty());
            let top2 = top.push(sub);
            assert forall|k: int| 0 <= k < runs2.len() implies #[trigger] h3.children_of(
                EntityId::nth((n0 + k) as nat),
            ) == runs2[k] by {
                lemma_nth((n0 + k) as nat);
                if k < runs.len() {
                    assert(EntityId::nth((n0 + k) as nat) != g);
                    assert(h1.children_of(EntityId::nth((n0 + k) as nat)) == runs[k]);
                }
            }
            assert forall|j: int| 0 <= j < top2.len() implies #[trigger] h3.parent_of(top2[j])
                == Some(g) by {
                if j < top.len() {
                    assert(h1.parent_of(top[j]) == Some(g));
                }
            }
            assert forall|k: int, j: int|
                0 <= k < runs2.len() && 0 <= j < runs2[k].len() implies #[trigger] h3.parent_of(
                runs2[k][j],
            ) == Some(EntityId::nth((n0 + k) as nat)) by {
                assert(runs2[k] == runs[k]);
                assert(h1.parent_of(runs[k][j]) == Some(EntityId::nth((n0 + k) as nat)));
            }
            assert forall|x: EntityId|
                !h0.children_of(g).contains(x) && x.ordinal() < n0 implies #[trigger] h3.parent_of(
                x,
            ) == h0.parent_of(x) by {
                assert(h1.parent_of(x) == h0.parent_of(x));
            }
            assert forall|p: EntityId| p != g && p.ordinal() < n0 implies #[trigger] h3.children_of(
                p,
            ) == h0.children_of(p) by {
                assert(h1.children_of(p) == h0.children_of(p));
            }
            assert forall|j: int| 0 <= j < waiting.len() implies #[trigger] h3.parent_of(
                waiting[j],
            ) == None::<EntityId> && h0.children_of(g).contains(waiting[j]) by {
                assert(h1.parent_of(waiting[j]) == None::<EntityId>);
            }
            assert forall|e: EntityId| #[trigger]
                s3.entity_store().data().contains_key(e) <==> (s0.entity_store().data().contains_key(e)
                    || n0 <= e.ordinal() < n0 + runs2.len()) by {
                if e == sub {
                } else {
                    assert(s1.entity_store().data().contains_key(e) == s3.entity_store().data().contains_key(e));
                    if n0 + runs.len() <= e.ordinal() < n0 + runs2.len() {
                        lemma_nth(e.ordinal());
                        crate::scene::entity::lemma_ordinal(e, 0);
                    }
                }
            }
        }
        sub
    }

    /// Adds the next waiting member to the group of the last run.
    fn extend_run(
        &mut self,
        sub: EntityId,
        c: EntityId,
        Ghost(s0): Ghost<Scene<C>>,
        Ghost(top): Ghost<Seq<EntityId>>,
        Ghost(runs): Ghost<Seq<Seq<EntityId>>>,
        Ghost(waiting): Ghost<Seq<EntityId>>,
    )
        requires
            dealing(s0, *old(self).scene, old(self).id, top, runs, waiting),
            waiting.len() > 0,
            c == waiting[0],
            runs.len() > 0,
            top.len() > 0,
            sub == top.last(),
            sub == EntityId::nth((s0.entity_store().created() + runs.len() - 1) as nat),
        ensures
            final(self).id == old(self).id,
            dealing(
                s0,
                *final(self).scene,
                old(self).id,
                top,
                runs.update(runs.len() - 1, runs.last().push(c)),
                waiting.drop_first(),
            ),
    {
        let ghost g = self.id;
        let ghost n0 = s0.entity_store().created();
        let ghost h0 = s0.tree();
        let ghost s1 = *self.scene;
        let ghost h1 = s1.tree();
        proof {
            let last = runs.len() - 1;
            s1.entity_store().lemma_created_bound();
            lemma_nth((n0 + last) as nat);
            assert(h1.parent_of(top[top.len() - 1]) == Some(g));
            assert(h1.parent_of(c) == None::<EntityId>);
            assert(h0.children_of(g).contains(c));
            lemma_ancestor_step(h1, g, sub);
            assert(!h1.ancestor(c, sub));
            h1.lemma_children_agree(sub, c);
            assert(h1.children_of(sub) == runs[last]);
            lemma_without(runs[last], c);
            s1.tree().lemma_bounded_parent(s1.entity_store().created(), sub);
        }
        self.scene.adopt(sub, c);
        proof {
            let s3 = *self.scene;
            let h3 = s3.tree();
            let last = runs.len() - 1;
            let runs2 = runs.update(last, runs.last().push(c));
            let waiting2 = waiting.drop_first();
            assert(h3.parent_of(c) == Some(sub));
            lemma_ancestor_frame(h1, h3, c);
            assert forall|a: EntityId| #[trigger] h3.ancestor(a, g) == h0.ancestor(a, g) by {
                assert(h3.ancestor(a, g) == h1.ancestor(a, g));
            }
            assert forall|k: int| 0 <= k < runs2.len() implies #[trigger] h3.children_of(
                EntityId::nth((n0 + k) as nat),
            ) == runs2[k] by {
                lemma_nth((n0 + k) as nat);
                assert(h1.children_of(EntityId::nth((n0 + k) as nat)) == runs[k]);
            }
            assert forall|j: int| 0 <= j < top.len() implies #[trigger] h3.parent_of(top[j])
                == Some(g) by {
                assert(h1.parent_of(top[j]) == Some(g));
            }
            assert forall|k: int, j: int|
                0 <= k < runs2.len() && 0 <= j < runs2[k].len() implies #[trigger] h3.parent_of(
                runs2[k][j],
            ) == Some(EntityId::nth((n0 + k) as nat)) by {
                if k != last || j < runs[last].len() {
                    assert(runs2[k][j] == runs[k][j]);
                    assert(h1.parent_of(runs[k][j]) == Some(EntityId::nth((n0 + k) as nat)));
                }
            }
            assert forall|x: EntityId|
                !h0.children_of(g).contains(x) && x.ordinal() < n0 implies #[trigger] h3.parent_of(
                x,
            ) == h0.parent_of(x) by {
                assert(h1.parent_of(x) == h0.parent_of(x));
            }
            assert forall|p: EntityId| p != g && p.ordinal() < n0 implies #[trigger] h3.children_of(
                p,
            ) == h0.children_of(p) by {
                assert(h1.children_of(p) == h0.children_of(p));
            }
            assert forall|j: int| 0 <= j < waiting2.len() implies #[trigger] h3.parent_of(
                waiting2[j],
            ) == None::<EntityId> && h0.children_of(g).contains(waiting2[j]) by {
                assert(waiting2[j] == waiting[j + 1]);
                assert(h1.parent_of(waiting[j + 1]) == None::<EntityId>);
            }
            assert(waiting2.no_duplicates()) by {
                assert forall|i: int, j: int|
                    0 <= i < waiting2.len() && 0 <= j < waiting2.len() && i != j implies waiting2[i]
                    != waiting2[j] by {
                    assert(waiting2[i] == waiting[i + 1] && waiting2[j] == waiting[j + 1]);
                }
            }
        }
    }

    /// Adds the next waiting member back to this group.
    fn keep_on_top(
        &mut self,
        c: EntityId,
        Ghost(s0): Ghost<Scene<C>>,
        Ghost(top): Ghost<Seq<EntityId>>,
        Ghost(runs): Ghost<Seq<Seq<EntityId>>>,
        Ghost(waiting): Ghost<Seq<EntityId>>,
    )
        requires
            dealing(s0, *old(self).scene, old(self).id, top, runs, waiting),
            waiting.len() > 0,
            c == waiting[0],
        ensures
            final(self).id == old(self).id,
            dealing(s0, *final(self).scene, old(self).id, top.push(c), runs, waiting.drop_first()),
    {
        let ghost g = self.id;
        let ghost n0 = s0.entity_store().created();
        let ghost h0 = s0.tree();
        let ghost s1 = *self.scene;
        let ghost h1 = s1.tree();
        proof {
            s1.entity_store().lemma_created_bound();
            assert(h1.parent_of(c) == None::<EntityId>);
            assert(h0.children_of(g).contains(c));
            assert(!h1.ancestor(c, g));
            h1.lemma_children_agree(g, c);
            lemma_without(top, c);
        }
        self.add(c);
        proof {
            let s3 = *self.scene;
            let h3 = s3.tree();
            let top2 = top.push(c);
            let waiting2 = waiting.drop_first();
            assert(h3.parent_of(c) == Some(g));
            lemma_ancestor_frame(h1, h3, c);
            assert forall|a: EntityId| #[trigger] h3.ancestor(a, g) == h0.ancestor(a, g) by {
                assert(h3.ancestor(a, g) == h1.ancestor(a, g));
            }
            assert forall|k: int| 0 <= k < runs.len() implies #[trigger] h3.children_of(
                EntityId::nth((n0 + k) as nat),
            ) == runs[k] by {
                lemma_nth((n0 + k) as nat);
                assert(h1.children_of(EntityId::nth((n0 + k) as nat)) == runs[k]);
            }
            assert forall|j: int| 0 <= j < top2.len() implies #[trigger] h3.parent_of(top2[j])
                == Some(g) by {
                if j < top.len() {
                    assert(h1.parent_of(top[j]) == Some(g));
                }
            }
            assert forall|k: int, j: int|
                0 <= k < runs.len() && 0 <= j < runs[k].len() implies #[trigger] h3.parent_of(
                runs[k][j],
            ) == Some(EntityId::nth((n0 + k) as nat)) by {
                assert(h1.parent_of(runs[k][j]) == Some(EntityId::nth((n0 + k) as nat)));
            }
            assert forall|x: EntityId|
                !h0.children_of(g).contains(x) && x.ordinal() < n0 implies #[trigger] h3.parent_of(
                x,
            ) == h0.parent_of(x) by {
                assert(h1.parent_of(x) == h0.parent_of(x));
            }
            assert forall|p: EntityId| p != g && p.ordinal() < n0 implies #[trigger] h3.children_of(
                p,
            ) == h0.children_of(p) by {
                assert(h1.children_of(p) == h0.children_of(p));
            }
            assert forall|j: int| 0 <= j < waiting2.len() implies #[trigger] h3.parent_of(
                waiting2[j],
            ) == None::<EntityId> && h0.children_of(g).contains(waiting2[j]) by {
                assert(waiting2[j] == waiting[j + 1]);
                assert(h1.parent_of(waiting[j + 1]) == None::<EntityId>);
            }
            assert(waiting2.no_duplicates()) by {
                assert forall|i: int, j: int|
                    0 <= i < waiting2.len() && 0 <= j < waiting2.len() && i != j implies waiting2[i]
                    != waiting2[j] by {
                    assert(waiting2[i] == waiting[i + 1] && waiting2[j] == waiting[j + 1]);
                }
            }
        }
    }

    /// Adds `child` to this group, grafting it from its parent if needed.
    /// When `child` is an ancestor of this group (or the group itself) it is
    /// only grafted.
    pub fn add(&mut self, child: EntityId) -> (r: &mut Self)
        requires
            old(self).scene.wf(),
            child.ordinal() < old(self).scene.entity_store().created(),
            old(self).id.ordinal() < old(self).scene.entity_store().created(),
        ensures
            (*r).id == old(self).id,
            *final(self) == *final(r),
            (*r).scene.wf(),
            (*r).scene.entity_store() == old(self).scene.entity_store(),
            (*r).scene.components() == old(self).scene.components(),
            (*r).scene.tree().parent_of(child) == if old(self).scene.tree().ancestor(
                child,
                old(self).id,
            ) {
                None
            } else {
                Some(old(self).id)
            },
            forall|x: EntityId|
                x != child ==> #[trigger] (*r).scene.tree().parent_of(x)
                    == old(self).scene.tree().parent_of(x),
            (*r).scene.tree().children_of(old(self).id) == if old(self).scene.tree().ancestor(
                child,
                old(self).id,
            ) {
                without(old(self).scene.tree().children_of(old(self).id), child)
            } else {
                without(old(self).scene.tree().children_of(old(self).id), child).push(child)
            },
            forall|p: EntityId|
                p != old(self).id ==> #[trigger] (*r).scene.tree().children_of(p) == if old(
                    self,
                ).scene.tree().parent_of(child) == Some(p) {
                    without(old(self).scene.tree().children_of(p), child)
                } else {
                    old(self).scene.tree().children_of(p)
                },
    {
        self.scene.adopt(self.id, child);
        self
    }

    /// Splits this group into subgroups, a new subgroup starting at each
    /// child with a label that `is_label` accepts.
    pub fn split_before<F: Fn(&C) -> bool>(&mut self, kind: TypeId, is_label: F) -> (r: &mut Self)
        requires
            old(self).scene.wf(),
            old(self).id.ordinal() < old(self).scene.entity_store().created(),
            old(self).scene.entity_store().created() + old(self).scene.tree().children_of(
                old(self).id,
            ).len() + 1 < usize::MAX,
            forall|c: &C| #[trigger] is_label.requires((c,)),
            forall|c: &C, b1: bool, b2: bool|
                is_label.ensures((c,), b1) && is_label.ensures((c,), b2) ==> b1 == b2,
        ensures
            (*r).id == old(self).id,
            *final(self) == *final(r),
            regrouped(
                *old(self).scene,
                *(*r).scene,
                old(self).id,
                numbered(
                    old(self).scene.entity_store().created(),
                    runs_before(
                        old(self).scene.tree().children_of(old(self).id),
                        accepted(*old(self).scene, old(self).id, kind, is_label),
                    ).len(),
                ),
                runs_before(
                    old(self).scene.tree().children_of(old(self).id),
                    accepted(*old(self).scene, old(self).id, kind, is_label),
                ),
            ),
    {
        let ids = self.labeled(kind, is_label);
        self.split_before_ids(ids.as_slice())
    }

    /// Splits this group into subgroups between the children with a label
    /// that `is_label` accepts, which stay children of this group.
    pub fn split<F: Fn(&C) -> bool>(&mut self, kind: TypeId, is_label: F) -> (r: &mut Self)
        requires
            old(self).scene.wf(),
            old(self).id.ordinal() < old(self).scene.entity_store().created(),
            old(self).scene.entity_store().created() + old(self).scene.tree().children_of(
                old(self).id,
            ).len() + 1 < usize::MAX,
            forall|c: &C| #[trigger] is_label.requires((c,)),
            forall|c: &C, b1: bool, b2: bool|
                is_label.ensures((c,), b1) && is_label.ensures((c,), b2) ==> b1 == b2,
        ensures
            (*r).id == old(self).id,
            *final(self) == *final(r),
            regrouped(
                *old(self).scene,
                *(*r).scene,
                old(self).id,
                kept_between(
                    old(self).scene.tree().children_of(old(self).id),
                    accepted(*old(self).scene, old(self).id, kind, is_label),
                    old(self).scene.entity_store().created(),
                ),
                runs_between(
                    old(self).scene.tree().children_of(old(self).id),
                    accepted(*old(self).scene, old(self).id, kind, is_label),
                ),
            ),
    {
        let ids = self.labeled(kind, is_label);
        self.split_at_ids(ids.as_slice())
    }

    /// Splits this group into subgroups, a subgroup ending at each child
    /// with a label that `is_label` accepts.
    pub fn split_after<F: Fn(&C) -> bool>(&mut self, kind: TypeId, is_label: F) -> (r: &mut Self)
        requires
            old(self).scene.wf(),
            old(self).id.ordinal() < old(self).scene.entity_store().created(),
            old(self).scene.entity_store().created() + old(self).scene.tree().children_of(
                old(self).id,
            ).len() + 1 < usize::MAX,
            forall|c: &C| #[trigger] is_label.requires((c,)),
            forall|c: &C, b1: bool, b2: bool|
                is_label.ensures((c,), b1) && is_label.ensures((c,), b2) ==> b1 == b2,
        ensures
            (*r).id == old(self).id,
            *final(self) == *final(r),
            regrouped(
                *old(self).scene,
                *(*r).scene,
                old(self).id,
                numbered(
                    old(self).scene.entity_store().created(),
                    runs_after(
                        old(self).scene.tree().children_of(old(self).id),
                        accepted(*old(self).scene, old(self).id, kind, is_label),
                    ).len(),
                ),
                runs_after(
                    old(self).scene.tree().children_of(old(self).id),
                    accepted(*old(self).scene, old(self).id, kind, is_label),
                ),
            ),
    {
        let ids = self.labeled(kind, is_label);
        self.split_after_ids(ids.as_slice())
    }

    /// Splits this group into subgroups, a new subgroup starting at each
    /// child listed in `ids`. The subgroups become the children of this group.
    pub fn split_before_ids(&mut self, ids: &[EntityId]) -> (r: &mut Self)
        requires
            old(self).scene.wf(),
            old(self).id.ordinal() < old(self).scene.entity_store().created(),
            old(self).scene.entity_store().created() + old(self).scene.tree().children_of(
                old(self).id,
            ).len() + 1 < usize::MAX,
        ensures
            (*r).id == old(self).id,
            *final(self) == *final(r),
            regrouped(
                *old(self).scene,
                *(*r).scene,
                old(self).id,
                numbered(
                    old(self).scene.entity_store().created(),
                    runs_before(old(self).scene.tree().children_of(old(self).id), ids@).len(),
                ),
                runs_before(old(self).scene.tree().children_of(old(self).id), ids@),
            ),
    {
        let ghost s0 = *self.scene;
        let ghost g = self.id;
        let ghost n0 = s0.entity_store().created();
        let children = self.ungroup();
        proof {
            lemma_dealing_start(s0, *self.scene, g, children@);
            assert(children@.skip(0) =~= children@);
        }
        let mut subgroup_id = self.open_run(
            Ghost(s0),
            Ghost(Seq::empty()),
            Ghost(Seq::empty()),
            Ghost(children@),
        );
        proof {
            assert(children@.take(0) =~= Seq::<EntityId>::empty());
            assert(numbered(n0, 1) =~= Seq::<EntityId>::empty().push(subgroup_id));
            assert(runs_before(children@.take(0), ids@) =~= Seq::<Seq<EntityId>>::empty().push(
                Seq::empty(),
            ));
        }
        let mut i: usize = 0;
        while i < children.len()
            invariant
                i <= children@.len(),
                self.id == g,
                n0 == s0.entity_store().created(),
                n0 + children@.len() + 1 < usize::MAX,
                1 <= runs_before(children@.take(i as int), ids@).len() <= i + 1,
                subgroup_id == EntityId::nth(
                    (n0 + runs_before(children@.take(i as int), ids@).len() - 1) as nat,
                ),
                dealing(
                    s0,
                    *self.scene,
                    g,
                    numbered(n0, runs_before(children@.take(i as int), ids@).len()),
                    runs_before(children@.take(i as int), ids@),
                    children@.skip(i as int),
                ),
            decreases children@.len() - i,
        {
            let id = children[i];
            let ghost runs = runs_before(children@.take(i as int), ids@);
            let ghost top = numbered(n0, runs.len());
            proof {
                assert(children@.take(i + 1).drop_last() =~= children@.take(i as int));
                assert(children@.take(i + 1).last() == id);
                assert(children@.skip(i as int)[0] == id);
                assert(children@.skip(i as int).drop_first() =~= children@.skip(i + 1));
            }
            if listed(ids, id) {
                subgroup_id = self.open_run(
                    Ghost(s0),
                    Ghost(top),
                    Ghost(runs),
                    Ghost(children@.skip(i as int)),
                );
                proof {
                    assert(numbered(n0, runs.len() + 1) =~= top.push(subgroup_id));
                }
                self.extend_run(
                    subgroup_id,
                    id,
                    Ghost(s0),
                    Ghost(top.push(subgroup_id)),
                    Ghost(runs.push(Seq::empty())),
                    Ghost(children@.skip(i as int)),
                );
                proof {
                    assert(runs.push(Seq::empty()).update(runs.len() as int, Seq::<EntityId>::empty().push(id))
                        =~= runs.push(seq![id]));
                }
            } else {
                proof {
                    assert(top.last() == subgroup_id);
                }
                self.extend_run(
                    subgroup_id,
                    id,
                    Ghost(s0),
                    Ghost(top),
                    Ghost(runs),
                    Ghost(children@.skip(i as int)),
                );
            }
            i = i + 1;
        }
        proof {
            assert(children@.take(children@.len() as int) =~= children@);
        }
        self
    }

    /// Splits this group into subgroups between the children listed in
    /// `ids`, which stay children of this group, each between the subgroups
    /// of the children before and after it.
    pub fn split_at_ids(&mut self, ids: &[EntityId]) -> (r: &mut Self)
        requires
            old(self).scene.wf(),
            old(self).id.ordinal() < old(self).scene.entity_store().created(),
            old(self).scene.entity_store().created() + old(self).scene.tree().children_of(
                old(self).id,
            ).len() + 1 < usize::MAX,
        ensures
            (*r).id == old(self).id,
            *final(self) == *final(r),
            regrouped(
                *old(self).scene,
                *(*r).scene,
                old(self).id,
                kept_between(
                    old(self).scene.tree().children_of(old(self).id),
                    ids@,
                    old(self).scene.entity_store().created(),
                ),
                runs_between(old(self).scene.tree().children_of(old(self).id), ids@),
            ),
    {
        let ghost s0 = *self.scene;
        let ghost g = self.id;
        let ghost n0 = s0.entity_store().created();
        let children = self.ungroup();
        proof {
            lemma_dealing_start(s0, *self.scene, g, children@);
            assert(children@.skip(0) =~= children@);
        }
        let mut subgroup_id = self.open_run(
            Ghost(s0),
            Ghost(Seq::empty()),
            Ghost(Seq::empty()),
            Ghost(children@),
        );
        proof {
            assert(children@.take(0) =~= Seq::<EntityId>::empty());
            assert(kept_between(children@.take(0), ids@, n0) =~= Seq::<EntityId>::empty().push(
                subgroup_id,
            ));
            assert(runs_between(children@.take(0), ids@) =~= Seq::<Seq<EntityId>>::empty().push(
                Seq::empty(),
            ));
        }
        let mut i: usize = 0;
        while i < children.len()
            invariant
                i <= children@.len(),
                self.id == g,
                n0 == s0.entity_store().created(),
                n0 + children@.len() + 1 < usize::MAX,
                1 <= runs_between(children@.take(i as int), ids@).len() <= i + 1,
                subgroup_id == EntityId::nth(
                    (n0 + runs_between(children@.take(i as int), ids@).len() - 1) as nat,
                ),
                kept_between(children@.take(i as int), ids@, n0).len() > 0,
                kept_between(children@.take(i as int), ids@, n0).last() == subgroup_id,
                dealing(
                    s0,
                    *self.scene,
                    g,
                    kept_between(children@.take(i as int), ids@, n0),
                    runs_between(children@.take(i as int), ids@),
                    children@.skip(i as int),
                ),
            decreases children@.len() - i,
        {
            let id = children[i];
            let ghost runs = runs_between(children@.take(i as int), ids@);
            let ghost top = kept_between(children@.take(i as int), ids@, n0);
            proof {
                assert(children@.take(i + 1).drop_last() =~= children@.take(i as int));
                assert(children@.take(i + 1).last() == id);
                assert(children@.skip(i as int)[0] == id);
                assert(children@.skip(i as int).drop_first() =~= children@.skip(i + 1));
            }
            if listed(ids, id) {
                // The listed child goes back into this group, and a new
                // subgroup follows it.
                self.keep_on_top(
                    id,
                    Ghost(s0),
                    Ghost(top),
                    Ghost(runs),
                    Ghost(children@.skip(i as int)),
                );
                subgroup_id = self.open_run(
                    Ghost(s0),
                    Ghost(top.push(id)),
                    Ghost(runs),
                    Ghost(children@.skip(i + 1)),
                );
            } else {
                self.extend_run(
                    subgroup_id,
                    id,
                    Ghost(s0),
                    Ghost(top),
                    Ghost(runs),
                    Ghost(children@.skip(i as int)),
                );
            }
            i = i + 1;
        }
        proof {
            assert(children@.take(children@.len() as int) =~= children@);
        }
        self
    }

    /// Splits this group into subgroups, a subgroup ending at each child
    /// listed in `ids`. The subgroups become the children of this group.
    pub fn split_after_ids(&mut self, ids: &[EntityId]) -> (r: &mut Self)
        requires
            old(self).scene.wf(),
            old(self).id.ordinal() < old(self).scene.entity_store().created(),
            old(self).scene.entity_store().created() + old(self).scene.tree().children_of(
                old(self).id,
            ).len() + 1 < usize::MAX,
        ensures
            (*r).id == old(self).id,
            *final(self) == *final(r),
            regrouped(
                *old(self).scene,
                *(*r).scene,
                old(self).id,
                numbered(
                    old(self).scene.entity_store().created(),
                    runs_after(old(self).scene.tree().children_of(old(self).id), ids@).len(),
                ),
                runs_after(old(self).scene.tree().children_of(old(self).id), ids@),
            ),
    {
        let ghost s0 = *self.scene;
        let ghost g = self.id;
        let ghost n0 = s0.entity_store().created();
        // Remove all the children.
        let children = self.ungroup();
        proof {
            lemma_dealing_start(s0, *self.scene, g, children@);
            assert(children@.skip(0) =~= children@);
        }
        // Create our initial subgroup.
        let mut subgroup_id = self.open_run(
            Ghost(s0),
            Ghost(Seq::empty()),
            Ghost(Seq::empty()),
            Ghost(children@),
        );
        proof {
            assert(children@.take(0) =~= Seq::<EntityId>::empty());
            assert(numbered(n0, 1) =~= Seq::<EntityId>::empty().push(subgroup_id));
            assert(runs_after(children@.take(0), ids@) =~= Seq::<Seq<EntityId>>::empty().push(
                Seq::empty(),
            ));
        }
        let mut i: usize = 0;
        while i < children.len()
            invariant
                i <= children@.len(),
                self.id == g,
                n0 == s0.entity_store().created(),
                n0 + children@.len() + 1 < usize::MAX,
                1 <= runs_after(children@.take(i as int), ids@).len() <= i + 1,
                subgroup_id == EntityId::nth(
                    (n0 + runs_after(children@.take(i as int), ids@).len() - 1) as nat,
                ),
                dealing(
                    s0,
                    *self.scene,
                    g,
                    numbered(n0, runs_after(children@.take(i as int), ids@).len()),
                    runs_after(children@.take(i as int), ids@),
                    children@.skip(i as int),
                ),
            decreases children@.len() - i,
        {
            let id = children[i];
            let ghost runs = runs_after(children@.take(i as int), ids@);
            let ghost top = numbered(n0, runs.len());
            proof {
                assert(children@.take(i + 1).drop_last() =~= children@.take(i as int));
                assert(children@.take(i + 1).last() == id);
                assert(children@.skip(i as int)[0] == id);
                assert(children@.skip(i as int).drop_first() =~= children@.skip(i + 1));
                assert(top.last() == subgroup_id);
            }
            // Add to the current subgroup.
            self.extend_run(
                subgroup_id,
                id,
                Ghost(s0),
                Ghost(top),
                Ghost(runs),
                Ghost(children@.skip(i as int)),
            );
            // Create a new subgroup after any splits.
            if listed(ids, id) {
                let ghost grown = runs.update(runs.len() - 1, runs.last().push(id));
                subgroup_id = self.open_run(
                    Ghost(s0),
                    Ghost(top),
                    Ghost(grown),
                    Ghost(children@.skip(i + 1)),
                );
                proof {
                    assert(numbered(n0, runs.len() + 1) =~= top.push(subgroup_id));
                }
            }
            i = i + 1;
        }
        proof {
            assert(children@.take(children@.len() as int) =~= children@);
        }
        self
    }

    /// The children of this group whose component of kind `kind` is a
    /// label that `is_label` accepts, in order.
    pub fn labeled<F: Fn(&C) -> bool>(&mut self, kind: TypeId, is_label: F) -> (r: Vec<EntityId>)
        requires
            old(self).scene.wf(),
            forall|c: &C| #[trigger] is_label.requires((c,)),
            forall|c: &C, b1: bool, b2: bool|
                is_label.ensures((c,), b1) && is_label.ensures((c,), b2) ==> b1 == b2,
        ensures
            *final(self) == *old(self),
            r@ == accepted(*old(self).scene, old(self).id, kind, is_label),
    {
        let ghost store = self.scene.components().store(kind);
        let ghost pred = |x: EntityId|
            store.contains_key(x) && is_label.ensures((&store[x],), true);
        let children = self.children();
        let mut r: Vec<EntityId> = Vec::new();
        let mut i: usize = 0;
        while i < children.len()
            invariant
                i <= children@.len(),
                self.scene.wf(),
                store == self.scene.components().store(kind),
                pred == (|x: EntityId|
                    store.contains_key(x) && is_label.ensures((&store[x],), true)),
                forall|c: &C| #[trigger] is_label.requires((c,)),
                forall|c: &C, b1: bool, b2: bool|
                    is_label.ensures((c,), b1) && is_label.ensures((c,), b2) ==> b1 == b2,
                r@ == children@.take(i as int).filter(pred),
            decreases children@.len() - i,
        {
            let id = children[i];
            proof {
                lemma_filter_take_step(children@, pred, i as int);
            }
            match self.scene.registry.get(kind, id) {
                Some(c) => {
                    if is_label(c) {
                        r.push(id);
                    }
                },
                None => {},
            }
            i = i + 1;
        }
        proof {
            assert(children@.take(children@.len() as int) =~= children@);
        }
        r
    }

    /// Calls `generate` `n` times, passing it the scene, and adds each entity
    /// it returns to this group. `generate` takes any well formed scene with
    /// room for another entity, and hands back a reference into that same
    /// scene to an entity it has created, leaving room for another one.
    pub fn create<T>(&mut self, n: u32, mut generate: T) -> (r: &mut Self)
        where
            T: for<'b> FnMut(u32, &'b mut Scene<C>) -> EntityRef<'b, C>,
        requires
            old(self).scene.wf(),
            old(self).id.ordinal() < old(self).scene.entity_store().created(),
            old(self).scene.entity_store().created() < usize::MAX,
            forall|i: u32, s: &mut Scene<C>|
                (*s).wf() && (*s).entity_store().created() < usize::MAX ==> #[trigger] generate.requires((i, s)),
            forall|i: u32, s: &mut Scene<C>, e: EntityRef<C>|
                #[trigger] generate.ensures((i, s), e) ==> {
                    &&& e.scene.wf()
                    &&& e.id.ordinal() < e.scene.entity_store().created()
                    &&& *final(e.scene) == *final(s)
                    &&& (*s).entity_store().created() <= e.scene.entity_store().created()
                    &&& e.scene.entity_store().created() < usize::MAX
                },
        ensures
            (*r).id == old(self).id,
            *final(self) == *final(r),
            exists|states: Seq<Scene<C>>|
                #![trigger states.len()]
                {
                    &&& states.len() == n + 1
                    &&& states[0] == *old(self).scene
                    &&& states[n as int] == *(*r).scene
                    &&& forall|i: int|
                        0 <= i < n ==> #[trigger] generated(generate, i as u32, states[i], states[i + 1], old(self).id)
                },
    {
        let ghost g = self.id;
        let ghost gen0 = generate;
        let ghost mut states: Seq<Scene<C>> = seq![*self.scene];
        let mut i: u32 = 0;
        while i < n
            invariant
                i <= n,
                generate == gen0,
                self.id == g,
                self.scene.wf(),
                g.ordinal() < self.scene.entity_store().created(),
                self.scene.entity_store().created() < usize::MAX,
                states.len() == i + 1,
                states[0] == *old(self).scene,
                states[i as int] == *self.scene,
                forall|k: int| 0 <= k < i ==> #[trigger] generated(generate, k as u32, states[k], states[k + 1], g),
                forall|i: u32, s: &mut Scene<C>|
                    (*s).wf() && (*s).entity_store().created() < usize::MAX ==> #[trigger] generate.requires((i, s)),
                forall|i: u32, s: &mut Scene<C>, e: EntityRef<C>|
                    #[trigger] generate.ensures((i, s), e) ==> {
                        &&& e.scene.wf()
                        &&& e.id.ordinal() < e.scene.entity_store().created()
                        &&& *final(e.scene) == *final(s)
                        &&& (*s).entity_store().created() <= e.scene.entity_store().created()
                        &&& e.scene.entity_store().created() < usize::MAX
                    },
            decreases n - i,
        {
            let id = generate(i, self.scene).id();
            self.add(id);
            proof {
                assert(generated(generate, i, states[i as int], *self.scene, g));
                states = states.push(*self.scene);
            }
            i = i + 1;
        }
        proof {
            assert(states.len() == n + 1);
        }
        self
    }

    /// Calls `visit` on each child of this group, in order, with its position
    /// and a reference to it. `visit` takes a reference into any well formed
    /// scene and hands back a reference into the same scene, leaving it well
    /// formed.
    pub fn for_each<F>(&mut self, mut visit: F) -> (r: &mut Self)
        where
            F: for<'b> FnMut(u32, EntityRef<'b, C>) -> EntityRef<'b, C>,
        requires
            old(self).scene.wf(),
            forall|i: u32, e: EntityRef<C>| e.scene.wf() ==> #[trigger] visit.requires((i, e)),
            forall|i: u32, e: EntityRef<C>, out: EntityRef<C>|
                #[trigger] visit.ensures((i, e), out) ==> {
                    &&& out.scene.wf()
                    &&& *final(out.scene) == *final(e.scene)
                },
        ensures
            (*r).id == old(self).id,
            *final(self) == *final(r),
            exists|states: Seq<Scene<C>>|
                #![trigger states.len()]
                {
                    let children = old(self).scene.tree().children_of(old(self).id);
                    &&& states.len() == children.len() + 1
                    &&& states[0] == *old(self).scene
                    &&& states[children.len() as int] == *(*r).scene
                    &&& forall|i: int|
                        0 <= i < children.len() ==> #[trigger] visited(
                            visit,
                            i as u32,
                            children[i],
                            states[i],
                            states[i + 1],
                        )
                },
    {
        let ghost g = self.id;
        let ghost visit0 = visit;
        let children = self.children();
        let ghost mut states: Seq<Scene<C>> = seq![*self.scene];
        let mut i: usize = 0;
        while i < children.len()
            invariant
                i <= children@.len(),
                visit == visit0,
                self.id == g,
                self.scene.wf(),
                children@ == old(self).scene.tree().children_of(g),
                states.len() == i + 1,
                states[0] == *old(self).scene,
                states[i as int] == *self.scene,
                forall|k: int|
                    0 <= k < i ==> #[trigger] visited(visit, k as u32, children@[k], states[k], states[k + 1]),
                forall|i: u32, e: EntityRef<C>| e.scene.wf() ==> #[trigger] visit.requires((i, e)),
                forall|i: u32, e: EntityRef<C>, out: EntityRef<C>|
                    #[trigger] visit.ensures((i, e), out) ==> {
                        &&& out.scene.wf()
                        &&& *final(out.scene) == *final(e.scene)
                    },
            decreases children@.len() - i,
        {
            let id = children[i];
            let entity = EntityRef::new(self.scene, id);
            visit(i as u32, entity).id();
            proof {
                assert(visited(visit, i as u32, children@[i as int], states[i as int], *self.scene));
                states = states.push(*self.scene);
            }
            i = i + 1;
        }
        proof {
            assert(states.len() == children@.len() + 1);
        }
        self
    }

    /// Creates a single entity with `generate` and adds it to this group.
    /// `generate` is held to what `GroupRef::create` asks of it.
    pub fn create_once<T>(&mut self, generate: T) -> (r: &mut Self)
        where
            T: for<'b> FnOnce(&'b mut Scene<C>) -> EntityRef<'b, C>,
        requires
            old(self).scene.wf(),
            old(self).id.ordinal() < old(self).scene.entity_store().created(),
            old(self).scene.entity_store().created() < usize::MAX,
            forall|s: &mut Scene<C>|
                (*s).wf() && (*s).entity_store().created() < usize::MAX ==> #[trigger] generate.requires((s,)),
            forall|s: &mut Scene<C>, e: EntityRef<C>|
                #[trigger] generate.ensures((s,), e) ==> {
                    &&& e.scene.wf()
                    &&& e.id.ordinal() < e.scene.entity_store().created()
                    &&& *final(e.scene) == *final(s)
                    &&& (*s).entity_store().created() <= e.scene.entity_store().created()
                    &&& e.scene.entity_store().created() < usize::MAX
                },
        ensures
            (*r).id == old(self).id,
            *final(self) == *final(r),
            exists|s: &mut Scene<C>, e: EntityRef<C>|
                *s == *old(self).scene && #[trigger] generate.ensures((s,), e) && adopted(
                    *e.scene,
                    *(*r).scene,
                    old(self).id,
                    e.id,
                ),
    {
        let id = generate(self.scene).id();
        self.add(id)
    }

    /// The child at position `index` of this group.
    pub fn index(&mut self, index: usize) -> (r: EntityId)
        requires
            index < old(self).scene.tree().children_of(old(self).id).len(),
        ensures
            r == old(self).scene.tree().children_of(old(self).id)[index as int],
            *final(self) == *old(self),
    {
        let children = self.children();
        children[index]
    }

    /// Converts this group into a reference to its entity.
    pub fn entity(self) -> (r: EntityRef<'a, C>)
        ensures
            r.id == self.id,
            *r.scene == *old(self.scene),
            *final(r.scene) == *final(self.scene),
    {
        EntityRef::new(self.scene, self.id)
    }

    /// The entity id of this group.
    pub fn id(&self) -> (r: EntityId)
        ensures
            r == self.id,
    {
        self.id
    }
}

impl<'a, C> EntityRef<'a, C> {
    /// Access this entity through the group API. Does not change the entity.
    pub fn as_group(self) -> (r: GroupRef<'a, C>)
        ensures
            r.id == self.id,
            *r.scene == *old(self.scene),
            *final(r.scene) == *final(self.scene),
    {
        GroupRef::new(self.scene, self.id)
    }
}

impl<C> Scene<C> {
    /// Creates a new entity and returns it as an empty group.
    pub fn group(&mut self) -> (r: GroupRef<'_, C>)
        requires
            old(self).wf(),
            old(self).entity_store().created() < usize::MAX,
        ensures
            r.scene.wf(),
            r.id == EntityId::nth(old(self).entity_store().created()),
            !old(self).entity_store().data().contains_key(r.id),
            r.scene.entity_store().data() == old(self).entity_store().data().insert(r.id, ()),
            r.scene.entity_store().created() == old(self).entity_store().created() + 1,
            r.scene.components() == old(self).components(),
            r.scene.tree() == old(self).tree(),
            *final(self) == *final(r.scene),
    {
        self.create().as_group()
    }

}

} // verus!
