//! What holds of the pane tree across operations.

use vstd::prelude::*;

use crate::pane_group::direction::SplitDirection;
use crate::pane_group::edit;
use crate::pane_group::edit::PaneNotFound;
use crate::pane_group::group;
use crate::pane_group::query;
use crate::pane_group::tree;
use crate::pane_group::tree::AxisModel;
use crate::pane_group::tree::PaneId;
use crate::pane_group::tree::Tree;

verus! {

// ---- The panes of a row of trees ----

/// The panes of two rows, one after the other.
proof fn lemma_panes_of_concat(a: Seq<Tree>, b: Seq<Tree>)
    ensures
        tree::panes_of(a + b) == tree::panes_of(a) + tree::panes_of(b),
    decreases b.len(),
{
    if b.len() == 0 {
        assert(a + b == a);
        assert(tree::panes_of(a) + tree::panes_of(b) == tree::panes_of(a));
    } else {
        lemma_panes_of_concat(a, b.drop_last());
        assert((a + b).drop_last() == a + b.drop_last());
        assert((a + b).last() == b.last());
        assert(tree::panes_of(a + b) == tree::panes_of(a + b.drop_last()) + tree::panes(b.last()));
        assert(tree::panes_of(a) + tree::panes_of(b) == tree::panes_of(a) + tree::panes_of(
            b.drop_last(),
        ) + tree::panes(b.last()));
    }
}

proof fn lemma_panes_of_one(member: Tree)
    ensures
        tree::panes_of(seq![member]) == tree::panes(member),
{
    assert(seq![member].drop_last() == Seq::<Tree>::empty());
    assert(tree::panes_of(Seq::<Tree>::empty()) == Seq::<PaneId>::empty());
    assert(tree::panes_of(seq![member]) == Seq::<PaneId>::empty() + tree::panes(member));
}

/// The panes of a row, cut at one member.
proof fn lemma_panes_of_cut(members: Seq<Tree>, i: int)
    requires
        0 <= i < members.len(),
    ensures
        tree::panes_of(members) == tree::panes_of(members.take(i)) + tree::panes(members[i])
            + tree::panes_of(members.skip(i + 1)),
{
    assert(members == members.take(i) + seq![members[i]] + members.skip(i + 1));
    lemma_panes_of_concat(members.take(i) + seq![members[i]], members.skip(i + 1));
    lemma_panes_of_concat(members.take(i), seq![members[i]]);
    lemma_panes_of_one(members[i]);
}

/// The panes of a row with another member at an index.
proof fn lemma_panes_of_update(members: Seq<Tree>, i: int, member: Tree)
    requires
        0 <= i < members.len(),
    ensures
        tree::panes_of(members.update(i, member)) == tree::panes_of(members.take(i))
            + tree::panes(member) + tree::panes_of(members.skip(i + 1)),
{
    let changed = members.update(i, member);
    lemma_panes_of_cut(changed, i);
    assert(changed.take(i) == members.take(i));
    assert(changed.skip(i + 1) == members.skip(i + 1));
}

/// The panes of a row with one more member at an index.
proof fn lemma_panes_of_insert(members: Seq<Tree>, i: int, member: Tree)
    requires
        0 <= i <= members.len(),
    ensures
        tree::panes_of(members.insert(i, member)) == tree::panes_of(members.take(i))
            + tree::panes(member) + tree::panes_of(members.skip(i)),
{
    let changed = members.insert(i, member);
    lemma_panes_of_cut(changed, i);
    assert(changed.take(i) == members.take(i));
    assert(changed.skip(i + 1) == members.skip(i));
}

/// The panes of a row without the member at an index.
proof fn lemma_panes_of_remove(members: Seq<Tree>, i: int)
    requires
        0 <= i < members.len(),
    ensures
        tree::panes_of(members.remove(i)) == tree::panes_of(members.take(i)) + tree::panes_of(
            members.skip(i + 1),
        ),
{
    assert(members.remove(i) == members.take(i) + members.skip(i + 1));
    lemma_panes_of_concat(members.take(i), members.skip(i + 1));
}

/// A pane is not among those of the members before the first that has it.
proof fn lemma_not_before_first(members: Seq<Tree>, pane: PaneId)
    ensures
        !tree::panes_of(members.take(tree::first_with(members, pane) as int)).contains(pane),
{
    edit::lemma_first_with(members, pane);
    let i = tree::first_with(members, pane) as int;
    edit::lemma_panes_of_contains(members.take(i), pane);
    assert forall|j: int| 0 <= j < i implies !tree::has_pane(
        #[trigger] members.take(i)[j],
        pane,
    ) by {
        assert(members.take(i)[j] == members[j]);
    }
}

// ---- Where a split and a removal act ----

/// The order of what stays in a slot and the pane that comes in beside it.
pub open spec fn beside(
    kept: Seq<PaneId>,
    new_pane: PaneId,
    direction: SplitDirection,
) -> Seq<PaneId> {
    if direction.grows() {
        kept.push(new_pane)
    } else {
        seq![new_pane] + kept
    }
}

/// One slot of a row of panes gives way: `all` is `before`, the slot's panes and `after`.
/// The slot has the pane and nothing before it does.
pub open spec fn slot_in(
    all: Seq<PaneId>,
    pane: PaneId,
    before: Seq<PaneId>,
    slot: Seq<PaneId>,
    after: Seq<PaneId>,
) -> bool {
    &&& all == before + slot + after
    &&& !before.contains(pane)
    &&& slot.contains(pane)
}

/// Whether some stack of a tree has the pane.
pub open spec fn in_stack(tree: Tree, pane: PaneId) -> bool
    decreases tree,
{
    match tree {
        Tree::Axis(axis) => exists|i: int|
            0 <= i < axis.members.len() && in_stack(#[trigger] axis.members[i], pane),
        Tree::Pane(_) => false,
        Tree::Stack(stack) => stack.panes.contains(pane),
    }
}

/// A split acts on one slot: with a single pane, which stays beside the new one, or with a
/// stack, of which the other panes stay.
pub open spec fn split_order(
    all: Seq<PaneId>,
    split: Seq<PaneId>,
    old_pane: PaneId,
    new_pane: PaneId,
    direction: SplitDirection,
    before: Seq<PaneId>,
    slot: Seq<PaneId>,
    kept: Seq<PaneId>,
    after: Seq<PaneId>,
) -> bool {
    &&& slot_in(all, old_pane, before, slot, after)
    &&& kept == slot && slot == seq![old_pane] || kept == edit::other_panes(slot, old_pane)
    &&& split == before + beside(kept, new_pane, direction) + after
}

proof fn lemma_slot_panes(panes: Seq<PaneId>, active: nat)
    ensures
        edit::slot_of(panes, active) is Some ==> tree::panes(edit::slot_of(panes, active)->0)
            == panes,
        edit::slot_of(panes, active) is None ==> panes == Seq::<PaneId>::empty(),
{
    if panes.len() == 1 {
        assert(seq![panes[0]] == panes);
    }
}

proof fn lemma_pair_panes(settled: Tree, new_pane: PaneId, direction: SplitDirection)
    ensures
        tree::panes(Tree::Axis(tree::pair_axis(settled, Tree::Pane(new_pane), direction)))
            == beside(tree::panes(settled), new_pane, direction),
{
    let newcomer = Tree::Pane(new_pane);
    let members = tree::side_by_side(settled, newcomer, direction);
    lemma_panes_of_one(settled);
    lemma_panes_of_one(newcomer);
    if direction.grows() {
        assert(members == seq![settled] + seq![newcomer]);
        lemma_panes_of_concat(seq![settled], seq![newcomer]);
    } else {
        assert(members == seq![newcomer] + seq![settled]);
        lemma_panes_of_concat(seq![newcomer], seq![settled]);
    }
    assert(tree::panes_of(members) == beside(tree::panes(settled), new_pane, direction));
}

/// The panes of an axis after the member at an index made room for a new pane.
proof fn lemma_split_leaf_panes(
    axis: AxisModel,
    idx: int,
    settled: Tree,
    new_pane: PaneId,
    direction: SplitDirection,
)
    requires
        0 <= idx < axis.members.len(),
    ensures
        tree::panes_of(edit::split_leaf(axis, idx, settled, new_pane, direction).members)
            == tree::panes_of(axis.members.take(idx)) + beside(
            tree::panes(settled),
            new_pane,
            direction,
        ) + tree::panes_of(axis.members.skip(idx + 1)),
{
    let before = tree::panes_of(axis.members.take(idx));
    let after = tree::panes_of(axis.members.skip(idx + 1));
    let kept = tree::panes(settled);
    if direction.along() == axis.axis {
        let settled_members = axis.members.update(idx, settled);
        let newcomer = Tree::Pane(new_pane);
        let entry = edit::entry_index(idx, direction);
        lemma_panes_of_insert(settled_members, entry, newcomer);
        if direction.grows() {
            assert(settled_members.take(idx + 1) == axis.members.take(idx) + seq![settled]);
            lemma_panes_of_concat(axis.members.take(idx), seq![settled]);
            lemma_panes_of_one(settled);
            assert(settled_members.skip(idx + 1) == axis.members.skip(idx + 1));
            assert(before + kept + tree::panes(newcomer) + after == before + kept.push(new_pane)
                + after);
        } else {
            assert(settled_members.take(idx) == axis.members.take(idx));
            assert(settled_members.skip(idx) == seq![settled] + axis.members.skip(idx + 1));
            lemma_panes_of_concat(seq![settled], axis.members.skip(idx + 1));
            lemma_panes_of_one(settled);
            assert(before + tree::panes(newcomer) + (kept + after) == before + (seq![new_pane]
                + kept) + after);
        }
    } else {
        let pair = Tree::Axis(tree::pair_axis(settled, Tree::Pane(new_pane), direction));
        lemma_pair_panes(settled, new_pane, direction);
        lemma_panes_of_update(axis.members, idx, pair);
    }
}

/// The slot of a tree on which a split of a pane acts: what stands before it, its panes,
/// those that stay, and what stands after it.
proof fn lemma_split_order_of_axis(
    axis: AxisModel,
    old_pane: PaneId,
    new_pane: PaneId,
    direction: SplitDirection,
) -> (res: (Seq<PaneId>, Seq<PaneId>, Seq<PaneId>, Seq<PaneId>))
    requires
        tree::panes_of(axis.members).contains(old_pane),
    ensures
        split_order(
            tree::panes_of(axis.members),
            tree::panes_of(edit::split_axis(axis, old_pane, new_pane, direction).members),
            old_pane,
            new_pane,
            direction,
            res.0,
            res.1,
            res.2,
            res.3,
        ),
        !in_stack(Tree::Axis(axis), old_pane) ==> res.2 == seq![old_pane],
    decreases axis,
{
    edit::lemma_first_with(axis.members, old_pane);
    lemma_not_before_first(axis.members, old_pane);
    let i = tree::first_with(axis.members, old_pane) as int;
    lemma_panes_of_cut(axis.members, i);
    let all = tree::panes_of(axis.members);
    let split = tree::panes_of(edit::split_axis(axis, old_pane, new_pane, direction).members);
    let before = tree::panes_of(axis.members.take(i));
    let after = tree::panes_of(axis.members.skip(i + 1));
    match axis.members[i] {
        Tree::Axis(inner) => {
            let (b, slot, kept, a) = lemma_split_order_of_axis(
                inner,
                old_pane,
                new_pane,
                direction,
            );
            let inside = edit::split_axis(inner, old_pane, new_pane, direction);
            lemma_panes_of_update(axis.members, i, Tree::Axis(inside));
            assert(all == (before + b) + slot + (a + after));
            assert(split == (before + b) + beside(kept, new_pane, direction) + (a + after));
            assert(!(before + b).contains(old_pane)) by {
                if (before + b).contains(old_pane) {
                    let k = (before + b).index_of(old_pane);
                    if k < before.len() {
                        assert(before[k] == old_pane);
                    } else {
                        assert(b[k - before.len()] == old_pane);
                    }
                }
            }
            (before + b, slot, kept, a + after)
        },
        Tree::Pane(pane) => {
            let slot = seq![pane];
            let k = tree::panes(axis.members[i]).index_of(old_pane);
            assert(slot[k] == old_pane);
            lemma_split_leaf_panes(axis, i, Tree::Pane(pane), new_pane, direction);
            (before, slot, slot, after)
        },
        Tree::Stack(stack) => {
            let kept = edit::other_panes(stack.panes, old_pane);
            lemma_slot_panes(kept, stack.active);
            match edit::without_pane(stack, old_pane) {
                Some(rest) => {
                    lemma_split_leaf_panes(axis, i, rest, new_pane, direction);
                },
                None => {
                    lemma_panes_of_update(axis.members, i, Tree::Pane(new_pane));
                    assert(beside(kept, new_pane, direction) == tree::panes(Tree::Pane(new_pane)));
                },
            }
            assert(in_stack(axis.members[i], old_pane));
            (before, stack.panes, kept, after)
        },
    }
}

/// A split of a pane that stands in the tree acts on the first slot that has the pane, and
/// puts the new pane beside what stays there; everything before and after it keeps its
/// order. A single pane stays, and so do the other panes of a stack.
pub proof fn law_split_acts_on_one_slot(
    tree: Tree,
    old_pane: PaneId,
    new_pane: PaneId,
    direction: SplitDirection,
)
    requires
        tree::has_pane(tree, old_pane),
    ensures
        exists|before: Seq<PaneId>, slot: Seq<PaneId>, kept: Seq<PaneId>, after: Seq<PaneId>|
            #[trigger]
            split_order(
                tree::panes(tree),
                tree::panes(group::split_in(tree, old_pane, new_pane, direction)),
                old_pane,
                new_pane,
                direction,
                before,
                slot,
                kept,
                after,
            ) && (!in_stack(tree, old_pane) ==> kept == seq![old_pane]),
{
    let _ = lemma_split_order(tree, old_pane, new_pane, direction);
}

proof fn lemma_split_order(
    tree: Tree,
    old_pane: PaneId,
    new_pane: PaneId,
    direction: SplitDirection,
) -> (res: (Seq<PaneId>, Seq<PaneId>, Seq<PaneId>, Seq<PaneId>))
    requires
        tree::has_pane(tree, old_pane),
    ensures
        split_order(
            tree::panes(tree),
            tree::panes(group::split_in(tree, old_pane, new_pane, direction)),
            old_pane,
            new_pane,
            direction,
            res.0,
            res.1,
            res.2,
            res.3,
        ),
        !in_stack(tree, old_pane) ==> res.2 == seq![old_pane],
{
    let none = Seq::<PaneId>::empty();
    match tree {
        Tree::Axis(axis) => lemma_split_order_of_axis(axis, old_pane, new_pane, direction),
        Tree::Pane(pane) => {
            lemma_pair_panes(tree, new_pane, direction);
            let slot = seq![pane];
            let k = tree::panes(tree).index_of(old_pane);
            assert(slot[k] == old_pane);
            assert(none + slot + none == slot);
            assert(none + beside(slot, new_pane, direction) + none == beside(
                slot,
                new_pane,
                direction,
            ));
            (none, slot, slot, none)
        },
        Tree::Stack(stack) => {
            let kept = edit::other_panes(stack.panes, old_pane);
            lemma_slot_panes(kept, stack.active);
            match edit::without_pane(stack, old_pane) {
                Some(rest) => {
                    lemma_pair_panes(rest, new_pane, direction);
                },
                None => {
                    assert(beside(kept, new_pane, direction) == tree::panes(Tree::Pane(new_pane)));
                },
            }
            assert(none + stack.panes + none == stack.panes);
            assert(none + beside(kept, new_pane, direction) + none == beside(
                kept,
                new_pane,
                direction,
            ));
            (none, stack.panes, kept, none)
        },
    }
}

/// The panes of an axis that gives way to its only member are those of the axis.
proof fn lemma_settled_panes(axis: AxisModel)
    ensures
        tree::panes(edit::settled_axis(axis)) == tree::panes_of(axis.members),
{
    if axis.members.len() == 1 {
        assert(axis.members == seq![axis.members[0]]);
        lemma_panes_of_one(axis.members[0]);
    }
}

/// The slot of an axis from which a removal takes a pane.
proof fn lemma_remove_order_of_axis(axis: AxisModel, pane: PaneId) -> (res: (
    Seq<PaneId>,
    Seq<PaneId>,
    Seq<PaneId>,
))
    requires
        tree::panes_of(axis.members).contains(pane),
    ensures
        slot_in(tree::panes_of(axis.members), pane, res.0, res.1, res.2),
        tree::panes_of(edit::remove_from_axis(axis, pane).members) == res.0 + edit::other_panes(
            res.1,
            pane,
        ) + res.2,
    decreases axis,
{
    edit::lemma_first_with(axis.members, pane);
    lemma_not_before_first(axis.members, pane);
    let i = tree::first_with(axis.members, pane) as int;
    lemma_panes_of_cut(axis.members, i);
    let all = tree::panes_of(axis.members);
    let left = tree::panes_of(edit::remove_from_axis(axis, pane).members);
    let before = tree::panes_of(axis.members.take(i));
    let after = tree::panes_of(axis.members.skip(i + 1));
    match axis.members[i] {
        Tree::Axis(inner) => {
            let (b, slot, a) = lemma_remove_order_of_axis(inner, pane);
            let inside = edit::remove_from_axis(inner, pane);
            lemma_settled_panes(inside);
            lemma_panes_of_update(axis.members, i, edit::settled_axis(inside));
            assert(all == (before + b) + slot + (a + after));
            assert(left == (before + b) + edit::other_panes(slot, pane) + (a + after));
            assert(!(before + b).contains(pane)) by {
                if (before + b).contains(pane) {
                    let k = (before + b).index_of(pane);
                    if k < before.len() {
                        assert(before[k] == pane);
                    } else {
                        assert(b[k - before.len()] == pane);
                    }
                }
            }
            (before + b, slot, a + after)
        },
        Tree::Pane(only) => {
            let slot = seq![only];
            let k = tree::panes(axis.members[i]).index_of(pane);
            assert(slot[k] == pane);
            lemma_panes_of_remove(axis.members, i);
            assert(edit::other_panes(slot, pane) == Seq::<PaneId>::empty()) by {
                reveal(Seq::filter);
                assert(slot.drop_last() == Seq::<PaneId>::empty());
                assert(edit::other_panes(slot.drop_last(), pane) == Seq::<PaneId>::empty());
            }
            assert(before + Seq::<PaneId>::empty() + after == before + after);
            (before, slot, after)
        },
        Tree::Stack(stack) => {
            let kept = edit::other_panes(stack.panes, pane);
            lemma_slot_panes(kept, stack.active);
            match edit::without_pane(stack, pane) {
                Some(rest) => {
                    lemma_panes_of_update(axis.members, i, rest);
                },
                None => {
                    lemma_panes_of_remove(axis.members, i);
                    assert(before + kept + after == before + after);
                },
            }
            (before, stack.panes, after)
        },
    }
}

proof fn lemma_remove_order(tree: Tree, pane: PaneId) -> (res: (
    Seq<PaneId>,
    Seq<PaneId>,
    Seq<PaneId>,
))
    requires
        group::remove_answer(tree, pane) == Ok::<bool, PaneNotFound>(true),
    ensures
        slot_in(tree::panes(tree), pane, res.0, res.1, res.2),
        tree::panes(group::remove_in(tree, pane)) == res.0 + edit::other_panes(res.1, pane)
            + res.2,
{
    let none = Seq::<PaneId>::empty();
    match tree {
        Tree::Axis(axis) => {
            lemma_settled_panes(edit::remove_from_axis(axis, pane));
            lemma_remove_order_of_axis(axis, pane)
        },
        Tree::Pane(_) => (none, none, none),
        Tree::Stack(stack) => {
            let kept = edit::other_panes(stack.panes, pane);
            lemma_slot_panes(kept, stack.active);
            assert(none + stack.panes + none == stack.panes);
            assert(none + kept + none == kept);
            (none, stack.panes, none)
        },
    }
}

/// A removal acts on the first slot that has the pane: the pane leaves it, and everything
/// else keeps its order.
pub proof fn law_remove_acts_on_one_slot(tree: Tree, pane: PaneId)
    requires
        group::remove_answer(tree, pane) == Ok::<bool, PaneNotFound>(true),
    ensures
        exists|before: Seq<PaneId>, slot: Seq<PaneId>, after: Seq<PaneId>| #[trigger]
            slot_in(tree::panes(tree), pane, before, slot, after) && tree::panes(
                group::remove_in(tree, pane),
            ) == before + edit::other_panes(slot, pane) + after,
{
    let _ = lemma_remove_order(tree, pane);
}

// ---- Trees in which no pane stands twice ----

/// Leaving a pane out of a row in which it does not stand changes nothing.
proof fn lemma_other_panes_of_absent(panes: Seq<PaneId>, pane: PaneId)
    requires
        !panes.contains(pane),
    ensures
        edit::other_panes(panes, pane) == panes,
    decreases panes.len(),
{
    reveal(Seq::filter);
    if panes.len() > 0 {
        assert(panes[panes.len() - 1] != pane);
        assert forall|k: int| 0 <= k < panes.drop_last().len() implies panes.drop_last()[k]
            != pane by {
            assert(panes[k] != pane);
        }
        lemma_other_panes_of_absent(panes.drop_last(), pane);
        assert(panes.drop_last().push(panes.last()) == panes);
    }
}

/// Leaving a pane out of two rows leaves it out of both.
proof fn lemma_other_panes_of_concat(a: Seq<PaneId>, b: Seq<PaneId>, pane: PaneId)
    ensures
        edit::other_panes(a + b, pane) == edit::other_panes(a, pane) + edit::other_panes(b, pane),
    decreases b.len(),
{
    reveal(Seq::filter);
    if b.len() == 0 {
        assert(a + b == a);
        assert(edit::other_panes(b, pane) == Seq::<PaneId>::empty());
        assert(edit::other_panes(a, pane) + Seq::<PaneId>::empty() == edit::other_panes(a, pane));
    } else {
        lemma_other_panes_of_concat(a, b.drop_last(), pane);
        assert((a + b).drop_last() == a + b.drop_last());
        assert((a + b).last() == b.last());
        let head = edit::other_panes(a, pane) + edit::other_panes(b.drop_last(), pane);
        assert(head.push(b.last()) == edit::other_panes(a, pane) + edit::other_panes(
            b.drop_last(),
            pane,
        ).push(b.last()));
    }
}

/// What is left has nothing of what was left out.
proof fn lemma_other_panes_contains(panes: Seq<PaneId>, pane: PaneId, other: PaneId)
    ensures
        edit::other_panes(panes, pane).contains(other) <==> panes.contains(other) && other != pane,
    decreases panes.len(),
{
    reveal(Seq::filter);
    if panes.len() > 0 {
        let rest = panes.drop_last();
        lemma_other_panes_contains(rest, pane, other);
        let kept = edit::other_panes(rest, pane);
        let last = panes.last();
        if panes.contains(other) && other != pane {
            let k = panes.index_of(other);
            if k < rest.len() {
                assert(rest[k] == other);
                let m = kept.index_of(other);
                if last != pane {
                    assert(kept.push(last)[m] == other);
                }
            } else {
                assert(kept.push(last)[kept.len() as int] == other);
            }
        }
        if edit::other_panes(panes, pane).contains(other) {
            let m = edit::other_panes(panes, pane).index_of(other);
            if m < kept.len() {
                assert(kept[m] == other);
                let k = rest.index_of(other);
                assert(panes[k] == other);
            } else {
                assert(panes[panes.len() - 1] == other);
            }
        }
    }
}

/// A removal of a pane that stands once leaves every other pane, in order, and no more.
pub proof fn law_remove_takes_one_pane_out(tree: Tree, pane: PaneId)
    requires
        tree::stands_once(tree::panes(tree), pane),
        group::remove_answer(tree, pane) == Ok::<bool, PaneNotFound>(true),
    ensures
        tree::panes(group::remove_in(tree, pane)) == edit::other_panes(tree::panes(tree), pane),
        !tree::has_pane(group::remove_in(tree, pane), pane),
{
    let (before, slot, after) = lemma_remove_order(tree, pane);
    let all = tree::panes(tree);
    let k = slot.index_of(pane);
    assert(all[before.len() + k] == pane);
    assert(!after.contains(pane)) by {
        if after.contains(pane) {
            let m = after.index_of(pane);
            assert(all[before.len() + slot.len() + m] == pane);
        }
    }
    lemma_other_panes_of_absent(before, pane);
    lemma_other_panes_of_absent(after, pane);
    lemma_other_panes_of_concat(before, slot, pane);
    lemma_other_panes_of_concat(before + slot, after, pane);
    lemma_other_panes_contains(all, pane, pane);
}

/// A split of a pane that is in no stack loses none: the tree has the old panes and the
/// new one.
pub proof fn law_split_keeps_panes(
    tree: Tree,
    old_pane: PaneId,
    new_pane: PaneId,
    direction: SplitDirection,
    pane: PaneId,
)
    requires
        tree::has_pane(tree, old_pane),
        !in_stack(tree, old_pane),
    ensures
        tree::has_pane(group::split_in(tree, old_pane, new_pane, direction), pane)
            <==> tree::has_pane(tree, pane) || pane == new_pane,
{
    let (before, slot, kept, after) = lemma_split_order(tree, old_pane, new_pane, direction);
    let all = tree::panes(tree);
    lemma_single_slot(all, old_pane, before, slot, kept, after);
    lemma_around_slot(before, old_pane, new_pane, direction, after, pane);
}

/// The slot of a split keeps its only pane where that pane is in no stack.
proof fn lemma_single_slot(
    all: Seq<PaneId>,
    old_pane: PaneId,
    before: Seq<PaneId>,
    slot: Seq<PaneId>,
    kept: Seq<PaneId>,
    after: Seq<PaneId>,
)
    requires
        slot_in(all, old_pane, before, slot, after),
        kept == slot && slot == seq![old_pane] || kept == edit::other_panes(slot, old_pane),
        kept == seq![old_pane],
    ensures
        slot == seq![old_pane],
{
    if !(kept == slot) {
        lemma_other_panes_contains(slot, old_pane, old_pane);
        assert(kept[0] == old_pane);
    }
}

proof fn lemma_around_slot(
    before: Seq<PaneId>,
    old_pane: PaneId,
    new_pane: PaneId,
    direction: SplitDirection,
    after: Seq<PaneId>,
    pane: PaneId,
)
    ensures
        (before + beside(seq![old_pane], new_pane, direction) + after).contains(pane) <==> (before
            + seq![old_pane] + after).contains(pane) || pane == new_pane,
{
    let all = before + seq![old_pane] + after;
    let pair = beside(seq![old_pane], new_pane, direction);
    let split = before + pair + after;
    let n = before.len() as int;
    assert(pair.len() == 2);
    if split.contains(pane) {
        let k = split.index_of(pane);
        if k < n {
            assert(all[k] == pane);
        } else if k < n + 2 {
            assert(pair[k - n] == pane);
            if pane != new_pane {
                assert(all[n] == pane);
            }
        } else {
            assert(all[k - 1] == pane);
        }
    }
    if all.contains(pane) {
        let k = all.index_of(pane);
        if k < n {
            assert(split[k] == pane);
        } else if k == n {
            let at: int = if direction.grows() {
                0
            } else {
                1
            };
            assert(pair[at] == pane);
            assert(split[n + at] == pane);
        } else {
            assert(split[k + 1] == pane);
        }
    }
    if pane == new_pane {
        let at: int = if direction.grows() {
            1
        } else {
            0
        };
        assert(pair[at] == pane);
        assert(split[n + at] == pane);
    }
}

/// Leaving out a pane that was put in and stood nowhere else gives the row before.
proof fn lemma_other_panes_of_insert(all: Seq<PaneId>, entry: int, new_pane: PaneId)
    requires
        0 <= entry <= all.len(),
        !all.contains(new_pane),
    ensures
        edit::other_panes(all.insert(entry, new_pane), new_pane) == all,
{
    let row = all.insert(entry, new_pane);
    let head = all.take(entry);
    let tail = all.skip(entry);
    assert(row == head + seq![new_pane] + tail);
    assert(all == head + tail);
    assert(!head.contains(new_pane)) by {
        if head.contains(new_pane) {
            let k = head.index_of(new_pane);
            assert(all[k] == new_pane);
        }
    }
    assert(!tail.contains(new_pane)) by {
        if tail.contains(new_pane) {
            let k = tail.index_of(new_pane);
            assert(all[entry + k] == new_pane);
        }
    }
    lemma_other_panes_of_absent(head, new_pane);
    lemma_other_panes_of_absent(tail, new_pane);
    lemma_other_panes_of_concat(head, seq![new_pane], new_pane);
    lemma_other_panes_of_concat(head + seq![new_pane], tail, new_pane);
    assert(edit::other_panes(seq![new_pane], new_pane) == Seq::<PaneId>::empty()) by {
        reveal(Seq::filter);
        assert(seq![new_pane].drop_last() == Seq::<PaneId>::empty());
        assert(edit::other_panes(Seq::<PaneId>::empty(), new_pane) == Seq::<PaneId>::empty());
    }
    assert(head + Seq::<PaneId>::empty() + tail == all);
}

/// A pane that is put into a row in which it stood nowhere stands there once.
proof fn lemma_insert_stands_once(all: Seq<PaneId>, entry: int, new_pane: PaneId)
    requires
        0 <= entry <= all.len(),
        !all.contains(new_pane),
    ensures
        tree::stands_once(all.insert(entry, new_pane), new_pane),
{
    let row = all.insert(entry, new_pane);
    assert forall|i: int, j: int| 0 <= i < j < row.len() && #[trigger] row[i] == new_pane implies
        #[trigger] row[j] != new_pane by {
        if i < entry {
            assert(row[i] == all[i]);
        } else if i > entry {
            assert(row[i] == all[i - 1]);
        }
        assert(row[j] == all[j - 1]);
    }
}

/// A row in which a new pane stands beside the only pane of a slot is the row before with
/// the new pane put in.
proof fn lemma_beside_is_insert(
    before: Seq<PaneId>,
    old_pane: PaneId,
    new_pane: PaneId,
    direction: SplitDirection,
    after: Seq<PaneId>,
) -> (entry: int)
    ensures
        0 <= entry <= (before + seq![old_pane] + after).len(),
        before + beside(seq![old_pane], new_pane, direction) + after == (before + seq![old_pane]
            + after).insert(entry, new_pane),
{
    let all = before + seq![old_pane] + after;
    let pair = beside(seq![old_pane], new_pane, direction);
    let row = before + pair + after;
    let n = before.len() as int;
    let entry: int = if direction.grows() {
        n + 1
    } else {
        n
    };
    assert(row.len() == all.len() + 1);
    assert forall|k: int| 0 <= k < row.len() implies row[k] == all.insert(entry, new_pane)[k] by {
        if n <= k < n + 2 {
            assert(pair[k - n] == row[k]);
        }
    }
    assert(row == all.insert(entry, new_pane));
    entry
}

/// Removing a pane that a split has just put in undoes the split: every pane stands where
/// it stood. The pane that was split is in no stack.
#[verifier::spinoff_prover]
#[verifier::rlimit(30)]
pub proof fn law_remove_undoes_split(
    tree: Tree,
    old_pane: PaneId,
    new_pane: PaneId,
    direction: SplitDirection,
)
    requires
        tree::has_pane(tree, old_pane),
        !in_stack(tree, old_pane),
        !tree::has_pane(tree, new_pane),
    ensures
        ({
            let split = group::split_in(tree, old_pane, new_pane, direction);
            &&& group::remove_answer(split, new_pane) == Ok::<bool, PaneNotFound>(true)
            &&& tree::panes(group::remove_in(split, new_pane)) == tree::panes(tree)
        }),
{
    let split = group::split_in(tree, old_pane, new_pane, direction);
    let (before, slot, kept, after) = lemma_split_order(tree, old_pane, new_pane, direction);
    let all = tree::panes(tree);
    lemma_single_slot(all, old_pane, before, slot, kept, after);
    lemma_around_slot(before, old_pane, new_pane, direction, after, new_pane);
    let entry = lemma_beside_is_insert(before, old_pane, new_pane, direction, after);
    lemma_insert_stands_once(all, entry, new_pane);
    lemma_other_panes_of_insert(all, entry, new_pane);
    law_remove_takes_one_pane_out(split, new_pane);
}

/// A pane that was moved to a border spans it, and a second move leaves it there.
pub proof fn law_moved_pane_spans_the_border(
    tree: Tree,
    pane: PaneId,
    direction: SplitDirection,
)
    requires
        group::move_answer(tree, pane, direction) == Ok::<bool, PaneNotFound>(true),
    ensures
        ({
            let moved = group::move_in(tree, pane, direction);
            &&& query::border_pane(moved, direction) == Some(pane)
            &&& group::move_answer(moved, pane, direction) == Ok::<bool, PaneNotFound>(false)
            &&& group::move_in(moved, pane, direction) == moved
        }),
{
}

/// The panes of an axis to one end of which a pane was added.
proof fn lemma_panes_of_extended_axis(members: Seq<Tree>, pane: PaneId, direction: SplitDirection)
    ensures
        ({
            let idx: int = if direction.grows() {
                members.len() as int
            } else {
                0
            };
            tree::panes_of(members.insert(idx, Tree::Pane(pane))) == beside(
                tree::panes_of(members),
                pane,
                direction,
            )
        }),
{
    let idx: int = if direction.grows() {
        members.len() as int
    } else {
        0
    };
    lemma_panes_of_insert(members, idx, Tree::Pane(pane));
    if direction.grows() {
        assert(members.take(idx) == members);
        assert(members.skip(idx) == Seq::<Tree>::empty());
    } else {
        assert(members.take(idx) == Seq::<Tree>::empty());
        assert(members.skip(idx) == members);
    }
}

/// A pane that stood once and was moved to a border stands last or first, and the others
/// keep their order.
#[verifier::spinoff_prover]
#[verifier::rlimit(30)]
pub proof fn law_move_keeps_the_other_panes(tree: Tree, pane: PaneId, direction: SplitDirection)
    requires
        tree::stands_once(tree::panes(tree), pane),
        group::move_answer(tree, pane, direction) == Ok::<bool, PaneNotFound>(true),
    ensures
        tree::panes(group::move_in(tree, pane, direction)) == beside(
            edit::other_panes(tree::panes(tree), pane),
            pane,
            direction,
        ),
{
    law_remove_takes_one_pane_out(tree, pane);
    let left = group::remove_in(tree, pane);
    if left is Axis && left->Axis_0.axis == direction.along() {
        lemma_panes_of_extended_axis(left->Axis_0.members, pane, direction);
    } else {
        lemma_pair_panes(left, pane, direction);
    }
}

// ---- Operations that undo themselves ----

/// Letting two panes change places twice changes nothing.
pub proof fn law_swap_twice(tree: Tree, from: PaneId, to: PaneId)
    ensures
        edit::swap_in(edit::swap_in(tree, from, to), from, to) == tree,
        group::swapped(group::swapped(tree, from, to), from, to) == tree,
    decreases tree,
{
    match tree {
        Tree::Axis(axis) => {
            let twice = edit::swap_in(edit::swap_in(tree, from, to), from, to)->Axis_0.members;
            assert forall|i: int| 0 <= i < axis.members.len() implies #[trigger] twice[i]
                == axis.members[i] by {
                law_swap_twice(axis.members[i], from, to);
            }
            assert(twice == axis.members);
        },
        Tree::Pane(_) => {},
        Tree::Stack(stack) => {
            let once = edit::swap_in(tree, from, to)->Stack_0.panes;
            let twice = edit::swap_in(edit::swap_in(tree, from, to), from, to)->Stack_0.panes;
            assert forall|i: int| 0 <= i < stack.panes.len() implies #[trigger] twice[i]
                == stack.panes[i] by {
                assert(once[i] == edit::exchanged(stack.panes[i], from, to));
            }
            assert(twice == stack.panes);
        },
    }
}

/// Letting two panes change places replaces each by the other and leaves the rest.
pub proof fn law_swap_exchanges_panes(tree: Tree, from: PaneId, to: PaneId)
    ensures
        tree::panes(edit::swap_in(tree, from, to)) == tree::panes(tree).map_values(
            |p: PaneId| edit::exchanged(p, from, to),
        ),
    decreases tree,
{
    match tree {
        Tree::Axis(axis) => {
            let swapped = edit::swap_in(tree, from, to)->Axis_0.members;
            assert forall|i: int| 0 <= i < axis.members.len() implies tree::panes(
                #[trigger] swapped[i],
            ) == tree::panes(axis.members[i]).map_values(
                |p: PaneId| edit::exchanged(p, from, to),
            ) by {
                law_swap_exchanges_panes(axis.members[i], from, to);
            }
            lemma_panes_of_mapped(
                axis.members,
                swapped,
                |p: PaneId| edit::exchanged(p, from, to),
            );
        },
        _ => {
            assert(tree::panes(edit::swap_in(tree, from, to)) =~= tree::panes(tree).map_values(
                |p: PaneId| edit::exchanged(p, from, to),
            ));
        },
    }
}

/// Where each member's panes are mapped, so are those of the row.
proof fn lemma_panes_of_mapped(
    members: Seq<Tree>,
    mapped: Seq<Tree>,
    f: spec_fn(PaneId) -> PaneId,
)
    requires
        members.len() == mapped.len(),
        forall|i: int|
            0 <= i < members.len() ==> tree::panes(#[trigger] mapped[i]) == tree::panes(
                members[i],
            ).map_values(f),
    ensures
        tree::panes_of(mapped) == tree::panes_of(members).map_values(f),
    decreases members.len(),
{
    if members.len() > 0 {
        let n = members.len() - 1;
        assert forall|i: int| 0 <= i < n implies tree::panes(#[trigger] mapped.drop_last()[i])
            == tree::panes(members.drop_last()[i]).map_values(f) by {
            assert(tree::panes(mapped[i]) == tree::panes(members[i]).map_values(f));
        }
        lemma_panes_of_mapped(members.drop_last(), mapped.drop_last(), f);
        assert(tree::panes(mapped[n]) == tree::panes(members[n]).map_values(f));
        assert(tree::panes_of(mapped) == tree::panes_of(members).map_values(f));
    } else {
        assert(tree::panes_of(mapped) == tree::panes_of(members).map_values(f));
    }
}

/// Turning every axis twice changes nothing.
pub proof fn law_invert_twice(tree: Tree)
    ensures
        edit::invert_in(edit::invert_in(tree)) == tree,
    decreases tree,
{
    if let Tree::Axis(axis) = tree {
        let twice = edit::invert_in(edit::invert_in(tree))->Axis_0.members;
        assert forall|i: int| 0 <= i < axis.members.len() implies #[trigger] twice[i]
            == axis.members[i] by {
            law_invert_twice(axis.members[i]);
        }
        assert(twice == axis.members);
    }
}

/// Evening out shares that are even changes nothing.
pub proof fn law_even_twice(tree: Tree)
    ensures
        edit::even_in(edit::even_in(tree)) == edit::even_in(tree),
    decreases tree,
{
    if let Tree::Axis(axis) = tree {
        let once = edit::even_in(tree)->Axis_0.members;
        let twice = edit::even_in(edit::even_in(tree))->Axis_0.members;
        assert forall|i: int| 0 <= i < axis.members.len() implies #[trigger] twice[i]
            == once[i] by {
            law_even_twice(axis.members[i]);
        }
        assert(twice == once);
    }
}

/// Turning axes and evening out shares moves no pane.
pub proof fn law_invert_and_even_keep_panes(tree: Tree)
    ensures
        tree::panes(edit::invert_in(tree)) == tree::panes(tree),
        tree::panes(edit::even_in(tree)) == tree::panes(tree),
    decreases tree,
{
    if let Tree::Axis(axis) = tree {
        let turned = edit::invert_in(tree)->Axis_0.members;
        let evened = edit::even_in(tree)->Axis_0.members;
        assert forall|i: int| 0 <= i < axis.members.len() implies tree::panes(
            #[trigger] turned[i],
        ) == tree::panes(axis.members[i]) by {
            law_invert_and_even_keep_panes(axis.members[i]);
        }
        assert forall|i: int| 0 <= i < axis.members.len() implies tree::panes(
            #[trigger] evened[i],
        ) == tree::panes(axis.members[i]) by {
            law_invert_and_even_keep_panes(axis.members[i]);
        }
        lemma_panes_of_same(axis.members, turned);
        lemma_panes_of_same(axis.members, evened);
    }
}

pub(crate) proof fn lemma_panes_of_same(members: Seq<Tree>, others: Seq<Tree>)
    requires
        members.len() == others.len(),
        forall|i: int|
            0 <= i < members.len() ==> tree::panes(#[trigger] others[i]) == tree::panes(members[i]),
    ensures
        tree::panes_of(others) == tree::panes_of(members),
    decreases members.len(),
{
    if members.len() > 0 {
        let n = members.len() - 1;
        assert forall|i: int| 0 <= i < n implies tree::panes(#[trigger] others.drop_last()[i])
            == tree::panes(members.drop_last()[i]) by {
            assert(tree::panes(others[i]) == tree::panes(members[i]));
        }
        lemma_panes_of_same(members.drop_last(), others.drop_last());
        assert(tree::panes(others[n]) == tree::panes(members[n]));
    }
}

} // verus!
