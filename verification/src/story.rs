//! Sequencing an action over entities: which entity the action is applied to
//! next, and how the story's cursor moves in between.

use crate::scene::entity::EntityId;
use crate::scene::hierarchy::Hierarchy;
use vstd::prelude::*;

verus! {

/// Which entities of a group an action is applied to.
#[derive(Debug, Clone, Copy, PartialEq, Eq, Structural)]
pub enum Target {
    /// The listed entities themselves.
    Roots,
    /// The entities without children, found by descending into groups.
    Leaves,
}

impl Default for Target {
    fn default() -> (t: Self)
        ensures
            t == Target::Roots,
    {
        Target::Roots
    }
}

/// One thing a story does while applying an action.
#[derive(Debug, Clone, Copy, PartialEq, Eq, Structural)]
pub enum Cue {
    /// Apply the action to the entity at the cursor.
    Apply(EntityId),
    /// Descend into the children of a group; the cursor stays.
    Descend,
    /// Move the cursor on by the step between entities.
    Step,
    /// Move the cursor on by the step between groups.
    GroupStep,
    /// Move the cursor back by the duration of the action.
    Rewind,
    /// Move the cursor on by the duration of the action.
    Hold,
}

/// A list of entities being walked, the position of the next one, and
/// whether the walk is inside the children of the entity at that position.
struct Frame {
    ids: Vec<EntityId>,
    next: usize,
    inside: bool,
}

/// The walk over a list of entities (and, for `Target::Leaves`, over the
/// children of every group among them) that applying an action makes.
pub struct Schedule {
    target: Target,
    frames: Vec<Frame>,
    pending: Vec<Cue>,
}

/// The cue that follows an entity when another one comes after it.
pub open spec fn then_if(more: bool, cue: Cue) -> Seq<Cue> {
    if more {
        seq![cue]
    } else {
        Seq::empty()
    }
}

/// A state of a walk: the lists being walked, outermost first, each with the
/// position of its next entity and whether the walk is inside that entity's
/// children.
pub type Stack = Seq<(Seq<EntityId>, int, bool)>;

/// One move of a walk: the cue it gives (`None` once the walk is over), and
/// the stack and queued cues after it.
pub open spec fn advance(stack: Stack, queued: Seq<Cue>, target: Target, hierarchy: Hierarchy) -> (
    Option<Cue>,
    Stack,
    Seq<Cue>,
) {
    let top = stack.len() - 1;
    if queued.len() > 0 {
        (Some(queued[0]), stack, queued.drop_first())
    } else if stack.len() == 0 {
        (None, stack, queued)
    } else {
        let (ids, i, inside) = stack[top];
        if i < ids.len() {
            if inside {
                // Back from the children of a group.
                (
                    Some(Cue::Rewind),
                    stack.update(top, (ids, i + 1, false)),
                    then_if(i + 1 < ids.len(), Cue::GroupStep),
                )
            } else if target == Target::Leaves && hierarchy.children_of(ids[i]).len() > 0 {
                (
                    Some(Cue::Descend),
                    stack.update(top, (ids, i, true)).push(
                        (hierarchy.children_of(ids[i]), 0int, false),
                    ),
                    queued,
                )
            } else {
                (
                    Some(Cue::Apply(ids[i])),
                    stack.update(top, (ids, i + 1, false)),
                    then_if(i + 1 < ids.len(), Cue::Step),
                )
            }
        } else {
            (if ids.len() > 0 {
                Some(Cue::Hold)
            } else {
                None
            }, stack.drop_last(), queued)
        }
    }
}

/// The cues of the next `n` moves of a walk over an unchanging hierarchy.
pub open spec fn walk(stack: Stack, queued: Seq<Cue>, target: Target, hierarchy: Hierarchy, n: nat) -> Seq<
    Option<Cue>,
>
    decreases n,
{
    if n == 0 {
        Seq::empty()
    } else {
        let (cue, next_stack, next_queued) = advance(stack, queued, target, hierarchy);
        seq![cue] + walk(next_stack, next_queued, target, hierarchy, (n - 1) as nat)
    }
}

/// The cues of applying an action to `ids[i..]` when none of them is walked
/// into: each entity in turn, a step apart, then the duration of the last,
/// then the end of the walk.
pub open spec fn flat_cues(ids: Seq<EntityId>, i: int) -> Seq<Option<Cue>>
    decreases ids.len() - i,
{
    if i >= ids.len() {
        seq![Some(Cue::Hold), None]
    } else if i + 1 < ids.len() {
        seq![Some(Cue::Apply(ids[i])), Some(Cue::Step)] + flat_cues(ids, i + 1)
    } else {
        seq![Some(Cue::Apply(ids[i]))] + flat_cues(ids, i + 1)
    }
}

/// The number of moves `flat_cues(ids, i)` takes.
pub open spec fn flat_moves(ids: Seq<EntityId>, i: int) -> nat {
    if i >= ids.len() {
        2
    } else {
        (2 * (ids.len() - i) + 1) as nat
    }
}

/// When the action goes to the listed entities themselves, or none of them
/// has children, the walk applies it to each listed entity once, in order,
/// a step apart, and ends one duration after the last.
pub proof fn lemma_flat_walk(ids: Seq<EntityId>, target: Target, hierarchy: Hierarchy)
    requires
        ids.len() > 0,
        target == Target::Roots || forall|j: int|
            0 <= j < ids.len() ==> #[trigger] hierarchy.children_of(ids[j]).len() == 0,
    ensures
        walk(seq![(ids, 0int, false)], Seq::empty(), target, hierarchy, flat_moves(ids, 0))
            == flat_cues(ids, 0),
        ({
            let cues = walk(
                seq![(ids, 0int, false)],
                Seq::empty(),
                target,
                hierarchy,
                flat_moves(ids, 0),
            );
            &&& applied(cues) == ids
            &&& count_of(cues, Cue::Step) == ids.len() - 1
            &&& count_of(cues, Cue::Hold) == 1
            &&& count_of(cues, Cue::GroupStep) == 0
            &&& count_of(cues, Cue::Rewind) == 0
            &&& count_of(cues, Cue::Descend) == 0
            &&& cues.last() is None
        }),
{
    lemma_flat_walk_from(ids, 0, target, hierarchy);
    lemma_flat_cues_meaning(ids, 0);
    assert(ids.skip(0) =~= ids);
}

/// The entities that `cues` apply the action to, in order.
pub open spec fn applied(cues: Seq<Option<Cue>>) -> Seq<EntityId>
    decreases cues.len(),
{
    if cues.len() == 0 {
        Seq::empty()
    } else {
        let rest = applied(cues.drop_first());
        match cues[0] {
            Some(Cue::Apply(e)) => seq![e] + rest,
            _ => rest,
        }
    }
}

/// How many of `cues` are `cue`.
pub open spec fn count_of(cues: Seq<Option<Cue>>, cue: Cue) -> nat
    decreases cues.len(),
{
    if cues.len() == 0 {
        0
    } else {
        count_of(cues.drop_first(), cue) + if cues[0] == Some(cue) {
            1nat
        } else {
            0nat
        }
    }
}

/// What a flat walk from position `i` does: applies the action to the rest
/// of the list, steps between them, holds once, then ends.
proof fn lemma_flat_cues_meaning(ids: Seq<EntityId>, i: int)
    requires
        0 <= i <= ids.len(),
    ensures
        applied(flat_cues(ids, i)) == ids.skip(i),
        count_of(flat_cues(ids, i), Cue::Step) == if i < ids.len() {
            ids.len() - i - 1
        } else {
            0
        },
        count_of(flat_cues(ids, i), Cue::Hold) == 1,
        count_of(flat_cues(ids, i), Cue::GroupStep) == 0,
        count_of(flat_cues(ids, i), Cue::Rewind) == 0,
        count_of(flat_cues(ids, i), Cue::Descend) == 0,
        flat_cues(ids, i).last() is None,
    decreases ids.len() - i,
{
    let cues = flat_cues(ids, i);
    if i >= ids.len() {
        let tail = seq![None::<Cue>];
        assert(cues.drop_first() =~= tail);
        assert(tail.drop_first() =~= Seq::<Option<Cue>>::empty());
        assert(applied(Seq::<Option<Cue>>::empty()) == Seq::<EntityId>::empty());
        assert(applied(tail) =~= Seq::<EntityId>::empty());
        assert(cues[0] == Some(Cue::Hold));
        assert(tail[0] == None::<Cue>);
        assert(applied(cues) =~= Seq::<EntityId>::empty());
        assert(ids.skip(i) =~= Seq::<EntityId>::empty());
        assert(count_of(Seq::<Option<Cue>>::empty(), Cue::Hold) == 0);
        assert(count_of(Seq::<Option<Cue>>::empty(), Cue::Step) == 0);
        assert(count_of(Seq::<Option<Cue>>::empty(), Cue::GroupStep) == 0);
        assert(count_of(Seq::<Option<Cue>>::empty(), Cue::Rewind) == 0);
        assert(count_of(Seq::<Option<Cue>>::empty(), Cue::Descend) == 0);
        assert(count_of(tail, Cue::Hold) == 0);
        assert(count_of(tail, Cue::Step) == 0);
        assert(count_of(tail, Cue::GroupStep) == 0);
        assert(count_of(tail, Cue::Rewind) == 0);
        assert(count_of(tail, Cue::Descend) == 0);
    } else {
        lemma_flat_cues_meaning(ids, i + 1);
        let rest = flat_cues(ids, i + 1);
        assert(ids.skip(i) =~= seq![ids[i]] + ids.skip(i + 1));
        if i + 1 < ids.len() {
            let mid = seq![Some(Cue::Step)] + rest;
            assert(cues =~= seq![Some(Cue::Apply(ids[i]))] + mid);
            assert(cues.drop_first() =~= mid);
            assert(mid.drop_first() =~= rest);
            assert(cues[0] == Some(Cue::Apply(ids[i])));
            assert(mid[0] == Some(Cue::Step));
            assert(applied(mid) == applied(rest));
            assert(applied(cues) == seq![ids[i]] + applied(mid));
            assert(count_of(mid, Cue::Step) == count_of(rest, Cue::Step) + 1);
            assert(count_of(cues, Cue::Step) == count_of(mid, Cue::Step));
            assert(count_of(mid, Cue::Hold) == count_of(rest, Cue::Hold));
            assert(count_of(mid, Cue::GroupStep) == count_of(rest, Cue::GroupStep));
            assert(count_of(mid, Cue::Rewind) == count_of(rest, Cue::Rewind));
            assert(count_of(mid, Cue::Descend) == count_of(rest, Cue::Descend));
            assert(cues.last() == rest.last());
        } else {
            assert(cues =~= seq![Some(Cue::Apply(ids[i]))] + rest);
            assert(cues.drop_first() =~= rest);
            assert(cues[0] == Some(Cue::Apply(ids[i])));
            assert(applied(cues) == seq![ids[i]] + applied(rest));
            assert(cues.last() == rest.last());
        }
    }
}

proof fn lemma_flat_walk_from(ids: Seq<EntityId>, i: int, target: Target, hierarchy: Hierarchy)
    requires
        ids.len() > 0,
        0 <= i <= ids.len(),
        target == Target::Roots || forall|j: int|
            0 <= j < ids.len() ==> #[trigger] hierarchy.children_of(ids[j]).len() == 0,
    ensures
        walk(seq![(ids, i, false)], Seq::empty(), target, hierarchy, flat_moves(ids, i))
            == flat_cues(ids, i),
    decreases ids.len() - i,
{
    let stack: Stack = seq![(ids, i, false)];
    let empty = Seq::<Cue>::empty();
    if i >= ids.len() {
        assert(stack.drop_last() =~= Seq::<(Seq<EntityId>, int, bool)>::empty());
        let done = Seq::<(Seq<EntityId>, int, bool)>::empty();
        assert(walk(done, empty, target, hierarchy, 0) == Seq::<Option<Cue>>::empty());
        assert(walk(done, empty, target, hierarchy, 1) =~= seq![None]);
        assert(walk(stack, empty, target, hierarchy, 2) =~= seq![Some(Cue::Hold), None]);
    } else {
        lemma_flat_walk_from(ids, i + 1, target, hierarchy);
        let next: Stack = seq![(ids, i + 1, false)];
        assert(stack.update(0, (ids, i + 1, false)) =~= next);
        if target != Target::Roots {
            assert(hierarchy.children_of(ids[i]).len() == 0);
        }
        let rest = walk(next, empty, target, hierarchy, flat_moves(ids, i + 1));
        if i + 1 < ids.len() {
            let queued = seq![Cue::Step];
            assert(then_if(true, Cue::Step) == queued);
            assert(queued.drop_first() =~= empty);
            assert(walk(next, queued, target, hierarchy, (flat_moves(ids, i) - 1) as nat)
                == seq![Some(Cue::Step)] + rest);
            assert(walk(stack, empty, target, hierarchy, flat_moves(ids, i)) =~= seq![
                Some(Cue::Apply(ids[i])),
                Some(Cue::Step),
            ] + rest);
        } else {
            assert(then_if(false, Cue::Step) =~= empty);
            assert(walk(stack, empty, target, hierarchy, flat_moves(ids, i)) =~= seq![
                Some(Cue::Apply(ids[i])),
            ] + rest);
        }
    }
}

/// The cues of walking `ids` from position `i` to the end of the list when
/// the action goes to leaves: a group is descended into and its children are
/// walked in turn, after which the cursor is moved back by a duration and on
/// by the step between groups; any other entity gets the action, followed by
/// the step between entities; the list ends by moving the cursor on by a
/// duration. `bound` is above the height of every listed entity.
pub open spec fn descent(hierarchy: Hierarchy, ids: Seq<EntityId>, i: int, bound: nat) -> Seq<
    Option<Cue>,
>
    decreases bound, ids.len() - i,
{
    if i >= ids.len() {
        seq![Some(Cue::Hold)]
    } else {
        let id = ids[i];
        let children = hierarchy.children_of(id);
        if children.len() > 0 {
            if hierarchy.height(id) < bound {
                seq![Some(Cue::Descend)] + descent(hierarchy, children, 0, hierarchy.height(id))
                    + seq![Some(Cue::Rewind)] + then_if(i + 1 < ids.len(), Cue::GroupStep).map_values(
                    |c: Cue| Some(c),
                ) + descent(hierarchy, ids, i + 1, bound)
            } else {
                Seq::empty()
            }
        } else {
            seq![Some(Cue::Apply(id))] + then_if(i + 1 < ids.len(), Cue::Step).map_values(
                |c: Cue| Some(c),
            ) + descent(hierarchy, ids, i + 1, bound)
        }
    }
}

/// Every listed entity stands below `bound`.
pub open spec fn below(hierarchy: Hierarchy, ids: Seq<EntityId>, bound: nat) -> bool {
    forall|j: int| 0 <= j < ids.len() ==> #[trigger] hierarchy.height(ids[j]) < bound
}

/// Walking a non-empty list for its leaves over an unchanging hierarchy
/// gives the cues of the recursive descent, then ends.
pub proof fn lemma_leaves_walk(hierarchy: Hierarchy, ids: Seq<EntityId>, bound: nat)
    requires
        hierarchy.wf(),
        ids.len() > 0,
        below(hierarchy, ids, bound),
    ensures
        walk(
            seq![(ids, 0int, false)],
            Seq::empty(),
            Target::Leaves,
            hierarchy,
            descent(hierarchy, ids, 0, bound).len() + 1,
        ) == descent(hierarchy, ids, 0, bound).push(None),
        ({
            let cues = walk(
                seq![(ids, 0int, false)],
                Seq::empty(),
                Target::Leaves,
                hierarchy,
                descent(hierarchy, ids, 0, bound).len() + 1,
            );
            &&& forall|e: EntityId|
                #[trigger] applied(cues).contains(e) ==> hierarchy.children_of(e).len() == 0
            &&& count_of(cues, Cue::Hold) == count_of(cues, Cue::Rewind) + 1
            &&& count_of(cues, Cue::Descend) == count_of(cues, Cue::Rewind)
            &&& cues.last() is None
        }),
{
    let done = Seq::<(Seq<EntityId>, int, bool)>::empty();
    lemma_descent_walk(hierarchy, done, ids, 0, bound, 1);
    let d = descent(hierarchy, ids, 0, bound);
    lemma_descent_meaning(hierarchy, ids, 0, bound);
    lemma_cues_concat(d, seq![None]);
    let none = seq![None::<Cue>];
    assert(none.drop_first() =~= Seq::<Option<Cue>>::empty());
    assert(applied(none) =~= Seq::<EntityId>::empty()) by {
        assert(applied(Seq::<Option<Cue>>::empty()) == Seq::<EntityId>::empty());
    }
    assert(count_of(Seq::<Option<Cue>>::empty(), Cue::Hold) == 0);
    assert(count_of(Seq::<Option<Cue>>::empty(), Cue::Rewind) == 0);
    assert(count_of(Seq::<Option<Cue>>::empty(), Cue::Descend) == 0);
    assert(none[0] == None::<Cue>);
    assert(d + none =~= d.push(None));
    assert(applied(d + none) =~= applied(d));
    assert(done.push((ids, 0int, false)) =~= seq![(ids, 0int, false)]);
    assert(walk(done, Seq::empty(), Target::Leaves, hierarchy, 0) == Seq::<Option<Cue>>::empty());
    assert(walk(done, Seq::empty(), Target::Leaves, hierarchy, 1) =~= seq![None]);
    assert(descent(hierarchy, ids, 0, bound) + seq![None] =~= descent(hierarchy, ids, 0, bound).push(None));
}

/// Cues put one after the other apply to the entities of both, in order,
/// and hold as many of each cue as both together.
pub proof fn lemma_cues_concat(a: Seq<Option<Cue>>, b: Seq<Option<Cue>>)
    ensures
        applied(a + b) == applied(a) + applied(b),
        forall|c: Cue| #[trigger] count_of(a + b, c) == count_of(a, c) + count_of(b, c),
    decreases a.len(),
{
    if a.len() == 0 {
        assert(a + b =~= b);
        assert(applied(a) == Seq::<EntityId>::empty());
        assert(applied(a + b) =~= applied(a) + applied(b));
        assert forall|c: Cue| #[trigger] count_of(a + b, c) == count_of(a, c) + count_of(b, c) by {
            assert(count_of(a, c) == 0);
        }
    } else {
        lemma_cues_concat(a.drop_first(), b);
        assert((a + b).drop_first() =~= a.drop_first() + b);
        assert((a + b)[0] == a[0]);
        assert forall|c: Cue| #[trigger] count_of(a + b, c) == count_of(a, c) + count_of(b, c) by {
            assert(count_of(a.drop_first() + b, c) == count_of(a.drop_first(), c) + count_of(b, c));
        }
        match a[0] {
            Some(Cue::Apply(e)) => {
                assert(applied(a + b) =~= applied(a) + applied(b));
            },
            _ => {
                assert(applied(a + b) =~= applied(a) + applied(b));
            },
        }
    }
}

/// What the descent does: it applies the action only to entities without
/// children, rewinds once for each group it descends into, and holds once
/// more than it rewinds.
proof fn lemma_descent_meaning(hierarchy: Hierarchy, ids: Seq<EntityId>, i: int, bound: nat)
    requires
        hierarchy.wf(),
        0 <= i <= ids.len(),
        below(hierarchy, ids, bound),
    ensures
        forall|e: EntityId|
            #[trigger] applied(descent(hierarchy, ids, i, bound)).contains(e)
                ==> hierarchy.children_of(e).len() == 0,
        count_of(descent(hierarchy, ids, i, bound), Cue::Hold) == count_of(
            descent(hierarchy, ids, i, bound),
            Cue::Rewind,
        ) + 1,
        count_of(descent(hierarchy, ids, i, bound), Cue::Descend) == count_of(
            descent(hierarchy, ids, i, bound),
            Cue::Rewind,
        ),
    decreases bound, ids.len() - i,
{
    let d = descent(hierarchy, ids, i, bound);
    let empty = Seq::<Option<Cue>>::empty();
    assert(applied(empty) == Seq::<EntityId>::empty());
    assert(count_of(empty, Cue::Hold) == 0);
    assert(count_of(empty, Cue::Rewind) == 0);
    assert(count_of(empty, Cue::Descend) == 0);
    if i >= ids.len() {
        assert(d.drop_first() =~= empty);
        assert(d[0] == Some(Cue::Hold));
        assert(applied(d) =~= Seq::<EntityId>::empty());
    } else {
        let id = ids[i];
        let children = hierarchy.children_of(id);
        lemma_descent_meaning(hierarchy, ids, i + 1, bound);
        let rest = descent(hierarchy, ids, i + 1, bound);
        if children.len() > 0 {
            assert(hierarchy.height(id) < bound);
            assert(below(hierarchy, children, hierarchy.height(id))) by {
                assert forall|j: int| 0 <= j < children.len() implies #[trigger] hierarchy.height(
                    children[j],
                ) < hierarchy.height(id) by {
                    assert(children.contains(children[j]));
                    hierarchy.lemma_child_lower(id, children[j]);
                }
            }
            lemma_descent_meaning(hierarchy, children, 0, hierarchy.height(id));
            let sub = descent(hierarchy, children, 0, hierarchy.height(id));
            let g = then_if(i + 1 < ids.len(), Cue::GroupStep).map_values(|c: Cue| Some(c));
            let down = seq![Some(Cue::Descend)];
            let back = seq![Some(Cue::Rewind)];
            assert(d == down + sub + back + g + rest);
            lemma_cues_concat(down, sub);
            lemma_cues_concat(down + sub, back);
            lemma_cues_concat(down + sub + back, g);
            lemma_cues_concat(down + sub + back + g, rest);
            lemma_cues_concat(Seq::<Option<Cue>>::empty(), empty);
            assert(down.drop_first() =~= empty);
            assert(back.drop_first() =~= empty);
            assert(down[0] == Some(Cue::Descend));
            assert(back[0] == Some(Cue::Rewind));
            assert(applied(down) =~= Seq::<EntityId>::empty());
            assert(applied(back) =~= Seq::<EntityId>::empty());
            if i + 1 < ids.len() {
                assert(g =~= seq![Some(Cue::GroupStep)]);
                assert(g.drop_first() =~= empty);
                assert(g[0] == Some(Cue::GroupStep));
            } else {
                assert(g =~= empty);
            }
            assert(applied(g) =~= Seq::<EntityId>::empty());
            assert(count_of(g, Cue::Hold) == 0);
            assert(count_of(g, Cue::Rewind) == 0);
            assert(count_of(g, Cue::Descend) == 0);
            assert(applied(d) =~= applied(sub) + applied(rest));
            assert forall|e: EntityId| #[trigger] applied(d).contains(e) implies hierarchy.children_of(
                e,
            ).len() == 0 by {
                let k = choose|k: int| 0 <= k < applied(d).len() && applied(d)[k] == e;
                if k < applied(sub).len() {
                    assert(applied(sub)[k] == e);
                    assert(applied(sub).contains(e));
                } else {
                    assert(applied(rest)[k - applied(sub).len()] == e);
                    assert(applied(rest).contains(e));
                }
            }
        } else {
            let st = then_if(i + 1 < ids.len(), Cue::Step).map_values(|c: Cue| Some(c));
            let here = seq![Some(Cue::Apply(id))];
            assert(d == here + st + rest);
            lemma_cues_concat(here, st);
            lemma_cues_concat(here + st, rest);
            assert(here.drop_first() =~= empty);
            assert(here[0] == Some(Cue::Apply(id)));
            assert(applied(here) =~= seq![id]);
            if i + 1 < ids.len() {
                assert(st =~= seq![Some(Cue::Step)]);
                assert(st.drop_first() =~= empty);
                assert(st[0] == Some(Cue::Step));
            } else {
                assert(st =~= empty);
            }
            assert(applied(st) =~= Seq::<EntityId>::empty());
            assert(count_of(st, Cue::Hold) == 0);
            assert(count_of(st, Cue::Rewind) == 0);
            assert(count_of(st, Cue::Descend) == 0);
            assert(count_of(here, Cue::Hold) == 0);
            assert(count_of(here, Cue::Rewind) == 0);
            assert(count_of(here, Cue::Descend) == 0);
            assert(applied(d) =~= seq![id] + applied(rest));
            assert forall|e: EntityId| #[trigger] applied(d).contains(e) implies hierarchy.children_of(
                e,
            ).len() == 0 by {
                let k = choose|k: int| 0 <= k < applied(d).len() && applied(d)[k] == e;
                if k > 0 {
                    assert(applied(rest)[k - 1] == e);
                    assert(applied(rest).contains(e));
                }
            }
        }
    }
}

/// Walking a list pushed on any stack gives the cues of its descent and
/// comes back to that stack.
proof fn lemma_descent_walk(
    hierarchy: Hierarchy,
    below_stack: Stack,
    ids: Seq<EntityId>,
    i: int,
    bound: nat,
    more: nat,
)
    requires
        hierarchy.wf(),
        ids.len() > 0,
        0 <= i <= ids.len(),
        below(hierarchy, ids, bound),
    ensures
        walk(
            below_stack.push((ids, i, false)),
            Seq::empty(),
            Target::Leaves,
            hierarchy,
            descent(hierarchy, ids, i, bound).len() + more,
        ) == descent(hierarchy, ids, i, bound) + walk(
            below_stack,
            Seq::empty(),
            Target::Leaves,
            hierarchy,
            more,
        ),
    decreases bound, ids.len() - i,
{
    let stack = below_stack.push((ids, i, false));
    if i >= ids.len() {
        assert(stack.drop_last() =~= below_stack);
        assert(descent(hierarchy, ids, i, bound) == seq![Some(Cue::Hold)]);
    } else {
        let id = ids[i];
        let children = hierarchy.children_of(id);
        lemma_descent_walk(hierarchy, below_stack, ids, i + 1, bound, more);
        if children.len() > 0 {
            assert(below(hierarchy, children, hierarchy.height(id))) by {
                assert forall|j: int| 0 <= j < children.len() implies #[trigger] hierarchy.height(
                    children[j],
                ) < hierarchy.height(id) by {
                    assert(children.contains(children[j]));
                    hierarchy.lemma_child_lower(id, children[j]);
                }
            }
            let g = then_if(i + 1 < ids.len(), Cue::GroupStep);
            let after = descent(hierarchy, ids, i + 1, bound);
            let tail_len = 1 + g.len() + after.len() + more;
            lemma_descent_walk(
                hierarchy,
                below_stack.push((ids, i, true)),
                children,
                0,
                hierarchy.height(id),
                tail_len as nat,
            );
            lemma_group_move(hierarchy, below_stack, ids, i, bound, more);
        } else {
            lemma_entity_move(hierarchy, below_stack, ids, i, bound, more);
        }
    }
}

/// The moves over a group: descend, walk its children, come back.
proof fn lemma_group_move(
    hierarchy: Hierarchy,
    below_stack: Stack,
    ids: Seq<EntityId>,
    i: int,
    bound: nat,
    more: nat,
)
    requires
        0 <= i < ids.len(),
        hierarchy.children_of(ids[i]).len() > 0,
        hierarchy.height(ids[i]) < bound,
        ({
            let after = descent(hierarchy, ids, i + 1, bound);
            walk(below_stack.push((ids, i + 1, false)), Seq::empty(), Target::Leaves, hierarchy, after.len() + more)
                == after + walk(below_stack, Seq::empty(), Target::Leaves, hierarchy, more)
        }),
        ({
            let children = hierarchy.children_of(ids[i]);
            let g = then_if(i + 1 < ids.len(), Cue::GroupStep);
            let after = descent(hierarchy, ids, i + 1, bound);
            let sub = descent(hierarchy, children, 0, hierarchy.height(ids[i]));
            let tail_len = (1 + g.len() + after.len() + more) as nat;
            let inner = below_stack.push((ids, i, true));
            walk(inner.push((children, 0int, false)), Seq::empty(), Target::Leaves, hierarchy, sub.len() + tail_len)
                == sub + walk(inner, Seq::empty(), Target::Leaves, hierarchy, tail_len)
        }),
    ensures
        walk(
            below_stack.push((ids, i, false)),
            Seq::empty(),
            Target::Leaves,
            hierarchy,
            descent(hierarchy, ids, i, bound).len() + more,
        ) == descent(hierarchy, ids, i, bound) + walk(
            below_stack,
            Seq::empty(),
            Target::Leaves,
            hierarchy,
            more,
        ),
{
    let empty = Seq::<Cue>::empty();
    let id = ids[i];
    let children = hierarchy.children_of(id);
    let stack = below_stack.push((ids, i, false));
    let top = stack.len() - 1;
    let next = below_stack.push((ids, i + 1, false));
    let inner = below_stack.push((ids, i, true));
    let rest_walk = walk(below_stack, empty, Target::Leaves, hierarchy, more);
    let after = descent(hierarchy, ids, i + 1, bound);
    let after_walk = walk(next, empty, Target::Leaves, hierarchy, after.len() + more);
    let g = then_if(i + 1 < ids.len(), Cue::GroupStep);
    let sub = descent(hierarchy, children, 0, hierarchy.height(id));
    let tail_len = (1 + g.len() + after.len() + more) as nat;
    let total = descent(hierarchy, ids, i, bound);
    assert(stack.update(top, (ids, i, true)) =~= inner);
    assert(inner.update(inner.len() - 1, (ids, i + 1, false)) =~= next);
    let queued_walk = walk(next, g, Target::Leaves, hierarchy, (g.len() + after.len() + more) as nat);
    if i + 1 < ids.len() {
        assert(g == seq![Cue::GroupStep]);
        assert(g.drop_first() =~= empty);
        assert(queued_walk == seq![Some(Cue::GroupStep)] + after_walk);
        assert(g.map_values(|c: Cue| Some(c)) =~= seq![Some(Cue::GroupStep)]);
    } else {
        assert(g =~= empty);
        assert(queued_walk == after_walk);
        assert(g.map_values(|c: Cue| Some(c)) =~= Seq::<Option<Cue>>::empty());
    }
    assert(walk(inner, empty, Target::Leaves, hierarchy, tail_len) == seq![Some(Cue::Rewind)]
        + queued_walk);
    assert(total == seq![Some(Cue::Descend)] + sub + seq![Some(Cue::Rewind)] + g.map_values(
        |c: Cue| Some(c),
    ) + after);
    assert(sub.len() + tail_len == total.len() + more - 1);
    assert(walk(stack, empty, Target::Leaves, hierarchy, total.len() + more) == seq![
        Some(Cue::Descend),
    ] + walk(
        inner.push((children, 0int, false)),
        empty,
        Target::Leaves,
        hierarchy,
        sub.len() + tail_len,
    ));
    assert(walk(stack, empty, Target::Leaves, hierarchy, total.len() + more) =~= total
        + rest_walk);
}

/// The moves over an entity that is not walked into: apply, maybe step.
proof fn lemma_entity_move(
    hierarchy: Hierarchy,
    below_stack: Stack,
    ids: Seq<EntityId>,
    i: int,
    bound: nat,
    more: nat,
)
    requires
        0 <= i < ids.len(),
        hierarchy.children_of(ids[i]).len() == 0,
        ({
            let after = descent(hierarchy, ids, i + 1, bound);
            walk(below_stack.push((ids, i + 1, false)), Seq::empty(), Target::Leaves, hierarchy, after.len() + more)
                == after + walk(below_stack, Seq::empty(), Target::Leaves, hierarchy, more)
        }),
    ensures
        walk(
            below_stack.push((ids, i, false)),
            Seq::empty(),
            Target::Leaves,
            hierarchy,
            descent(hierarchy, ids, i, bound).len() + more,
        ) == descent(hierarchy, ids, i, bound) + walk(
            below_stack,
            Seq::empty(),
            Target::Leaves,
            hierarchy,
            more,
        ),
{
    let empty = Seq::<Cue>::empty();
    let id = ids[i];
    let stack = below_stack.push((ids, i, false));
    let top = stack.len() - 1;
    let next = below_stack.push((ids, i + 1, false));
    let rest_walk = walk(below_stack, empty, Target::Leaves, hierarchy, more);
    let after = descent(hierarchy, ids, i + 1, bound);
    let after_walk = walk(next, empty, Target::Leaves, hierarchy, after.len() + more);
    assert(stack.update(top, (ids, i + 1, false)) =~= next);
    let st = then_if(i + 1 < ids.len(), Cue::Step);
    let total = descent(hierarchy, ids, i, bound);
    let queued_walk = walk(next, st, Target::Leaves, hierarchy, (st.len() + after.len() + more) as nat);
    if i + 1 < ids.len() {
        assert(st == seq![Cue::Step]);
        assert(st.drop_first() =~= empty);
        assert(queued_walk == seq![Some(Cue::Step)] + after_walk);
        assert(st.map_values(|c: Cue| Some(c)) =~= seq![Some(Cue::Step)]);
    } else {
        assert(st =~= empty);
        assert(queued_walk == after_walk);
        assert(st.map_values(|c: Cue| Some(c)) =~= Seq::<Option<Cue>>::empty());
    }
    assert(walk(stack, empty, Target::Leaves, hierarchy, total.len() + more) == seq![
        Some(Cue::Apply(id)),
    ] + queued_walk);
    assert(walk(stack, empty, Target::Leaves, hierarchy, total.len() + more) =~= total
        + rest_walk);
}

impl Schedule {
    /// The lists being walked, outermost first, each with the position of
    /// its next entity and whether the walk is inside that entity's children.
    pub closed spec fn stack(self) -> Seq<(Seq<EntityId>, int, bool)> {
        self.frames@.map_values(|f: Frame| (f.ids@, f.next as int, f.inside))
    }

    /// The cues decided but not handed out yet.
    pub closed spec fn queued(self) -> Seq<Cue> {
        self.pending@
    }

    /// Which entities the action goes to.
    pub closed spec fn aim(self) -> Target {
        self.target
    }

    /// Each position is within its list; every list but the outermost is
    /// non-empty, and the walk is inside the entity at the position of every
    /// list but the innermost.
    pub closed spec fn wf(self) -> bool {
        &&& forall|k: int|
            0 <= k < self.frames@.len() ==> (#[trigger] self.frames@[k]).next
                <= self.frames@[k].ids@.len()
        &&& forall|k: int|
            0 <= k < self.frames@.len() && self.frames@[k].inside ==> #[trigger] self.frames@[k].next
                < self.frames@[k].ids@.len()
        &&& forall|k: int| 0 < k < self.frames@.len() ==> (#[trigger] self.frames@[k]).ids@.len() > 0
        &&& forall|k: int| 0 <= k < self.frames@.len() - 1 ==> (#[trigger] self.frames@[k]).inside
    }

    /// A walk over `ids`, which has not started yet.
    pub fn new(ids: &[EntityId], target: Target) -> (s: Self)
        ensures
            s.wf(),
            s.aim() == target,
            s.stack() == seq![(ids@, 0int, false)],
            s.queued() == Seq::<Cue>::empty(),
    {
        let mut copy: Vec<EntityId> = Vec::new();
        let mut i: usize = 0;
        while i < ids.len()
            invariant
                i <= ids@.len(),
                copy@ == ids@.take(i as int),
            decreases ids@.len() - i,
        {
            copy.push(ids[i]);
            proof {
                assert(copy@ =~= ids@.take(i + 1));
            }
            i = i + 1;
        }
        proof {
            assert(ids@.take(ids@.len() as int) =~= ids@);
        }
        let frame = Frame { ids: copy, next: 0, inside: false };
        let mut frames: Vec<Frame> = Vec::new();
        frames.push(frame);
        let s = Schedule { target, frames, pending: Vec::new() };
        proof {
            assert(s.stack() =~= seq![(ids@, 0int, false)]);
        }
        s
    }

    /// The next cue of the walk, or `None` when the walk is over. Whether an
    /// entity is a group is read from `hierarchy` when the walk reaches it.
    pub fn next(&mut self, hierarchy: &Hierarchy) -> (r: Option<Cue>)
        requires
            old(self).wf(),
        ensures
            final(self).wf(),
            final(self).aim() == old(self).aim(),
            (r, final(self).stack(), final(self).queued()) == advance(
                old(self).stack(),
                old(self).queued(),
                old(self).aim(),
                *hierarchy,
            ),
    {
        if self.pending.len() > 0 {
            let cue = self.pending.remove(0);
            return Some(cue);
        }
        let n = self.frames.len();
        if n == 0 {
            return None;
        }
        let ghost stack = self.stack();
        let top = n - 1;
        let len = self.frames[top].ids.len();
        let i = self.frames[top].next;
        if i < len {
            let id = self.frames[top].ids[i];
            if self.frames[top].inside {
                // Back from the children of a group: undo the duration the
                // children added, and step to the next group.
                let mut frame = self.frames.pop().unwrap();
                frame.next = i + 1;
                frame.inside = false;
                self.frames.push(frame);
                if i + 1 < len {
                    self.pending.push(Cue::GroupStep);
                }
                proof {
                    assert(self.stack() =~= stack.update(top as int, (stack[top as int].0, i + 1, false)));
                    assert(self.queued() =~= then_if(i + 1 < len, Cue::GroupStep));
                }
                Some(Cue::Rewind)
            } else if self.target == Target::Leaves && hierarchy.has_children(id) {
                // A group when leaves are wanted: walk its children.
                let children = hierarchy.children(id);
                let mut frame = self.frames.pop().unwrap();
                frame.inside = true;
                self.frames.push(frame);
                self.frames.push(Frame { ids: children, next: 0, inside: false });
                proof {
                    assert(self.stack() =~= stack.update(top as int, (stack[top as int].0, i as int, true)).push(
                        (hierarchy.children_of(id), 0int, false),
                    ));
                }
                Some(Cue::Descend)
            } else {
                let mut frame = self.frames.pop().unwrap();
                frame.next = i + 1;
                self.frames.push(frame);
                if i + 1 < len {
                    self.pending.push(Cue::Step);
                }
                proof {
                    assert(self.stack() =~= stack.update(top as int, (stack[top as int].0, i + 1, false)));
                    assert(self.queued() =~= then_if(i + 1 < len, Cue::Step));
                }
                Some(Cue::Apply(id))
            }
        } else {
            // The list is done: add the duration of its last entity.
            self.frames.pop();
            proof {
                assert(self.stack() =~= stack.drop_last());
            }
            if len > 0 {
                Some(Cue::Hold)
            } else {
                None
            }
        }
    }
}

} // verus!
