//! Every operation keeps the pane tree well-formed, and what a well-formed tree gives.

use vstd::prelude::*;

use crate::pane_group::direction::Axis;
use crate::pane_group::direction::SplitDirection;
use crate::pane_group::edit;
use crate::pane_group::edit::PaneNotFound;
use crate::pane_group::group;
use crate::pane_group::query;
use crate::pane_group::resize;
use crate::pane_group::tree;
use crate::pane_group::tree::AxisModel;
use crate::pane_group::tree::Flex;
use crate::pane_group::tree::PaneId;
use crate::pane_group::tree::PixelBounds;
use crate::pane_group::tree::Tree;

verus! {

/// What is left in a slot is well-formed.
pub proof fn law_slot_is_well_formed(panes: Seq<PaneId>, active: nat)
    ensures
        edit::slot_of(panes, active) matches Some(member) ==> tree::well_formed(member),
{
}

proof fn lemma_pair_well_formed(settled: Tree, new_pane: PaneId, direction: SplitDirection)
    requires
        tree::well_formed(settled),
    ensures
        tree::well_formed(
            Tree::Axis(tree::pair_axis(settled, Tree::Pane(new_pane), direction)),
        ),
{
    let axis = tree::pair_axis(settled, Tree::Pane(new_pane), direction);
    assert forall|i: int| 0 <= i < axis.members.len() implies tree::well_formed(
        #[trigger] axis.members[i],
    ) by {
        assert(axis.members[i] == settled || axis.members[i] == Tree::Pane(new_pane));
    }
}

proof fn lemma_update_well_formed(axis: AxisModel, idx: int, member: Tree)
    requires
        tree::well_formed(Tree::Axis(axis)),
        0 <= idx < axis.members.len(),
        tree::well_formed(member),
    ensures
        tree::well_formed(Tree::Axis(edit::with_member(axis, idx, member))),
{
    let changed = edit::with_member(axis, idx, member);
    assert forall|i: int| 0 <= i < changed.members.len() implies tree::well_formed(
        #[trigger] changed.members[i],
    ) by {
        if i != idx {
            assert(changed.members[i] == axis.members[i]);
        }
    }
}

proof fn lemma_insert_well_formed(axis: AxisModel, idx: int, pane: PaneId)
    requires
        tree::well_formed(Tree::Axis(axis)),
        0 <= idx <= axis.members.len(),
    ensures
        tree::well_formed(Tree::Axis(edit::with_pane_at(axis, idx, pane))),
{
    let changed = edit::with_pane_at(axis, idx, pane);
    assert forall|i: int| 0 <= i < changed.members.len() implies tree::well_formed(
        #[trigger] changed.members[i],
    ) by {
        if i < idx {
            assert(changed.members[i] == axis.members[i]);
        } else if i > idx {
            assert(changed.members[i] == axis.members[i - 1]);
        }
    }
}

proof fn lemma_split_axis_well_formed(
    axis: AxisModel,
    old_pane: PaneId,
    new_pane: PaneId,
    direction: SplitDirection,
)
    requires
        tree::well_formed(Tree::Axis(axis)),
    ensures
        tree::well_formed(
            Tree::Axis(edit::split_axis(axis, old_pane, new_pane, direction)),
        ),
    decreases axis,
{
    let i = tree::first_with(axis.members, old_pane) as int;
    if i < axis.members.len() {
        assert(tree::well_formed(axis.members[i]));
        match axis.members[i] {
            Tree::Axis(inner) => {
                lemma_split_axis_well_formed(inner, old_pane, new_pane, direction);
                let inside = edit::split_axis(inner, old_pane, new_pane, direction);
                lemma_update_well_formed(axis, i, Tree::Axis(inside));
            },
            Tree::Pane(pane) => {
                lemma_split_leaf_well_formed(axis, i, Tree::Pane(pane), new_pane, direction);
            },
            Tree::Stack(stack) => {
                match edit::without_pane(stack, old_pane) {
                    Some(rest) => {
                        lemma_split_leaf_well_formed(axis, i, rest, new_pane, direction);
                    },
                    None => {
                        lemma_update_well_formed(axis, i, Tree::Pane(new_pane));
                    },
                }
            },
        }
    }
}

proof fn lemma_split_leaf_well_formed(
    axis: AxisModel,
    idx: int,
    settled: Tree,
    new_pane: PaneId,
    direction: SplitDirection,
)
    requires
        tree::well_formed(Tree::Axis(axis)),
        0 <= idx < axis.members.len(),
        tree::well_formed(settled),
    ensures
        tree::well_formed(
            Tree::Axis(edit::split_leaf(axis, idx, settled, new_pane, direction)),
        ),
{
    if direction.along() == axis.axis {
        lemma_update_well_formed(axis, idx, settled);
        lemma_insert_well_formed(
            edit::with_member(axis, idx, settled),
            edit::entry_index(idx, direction),
            new_pane,
        );
    } else {
        lemma_pair_well_formed(settled, new_pane, direction);
        lemma_update_well_formed(
            axis,
            idx,
            Tree::Axis(tree::pair_axis(settled, Tree::Pane(new_pane), direction)),
        );
    }
}

/// A well-formed tree has a first and a last leaf, and both stand in it.
pub proof fn law_well_formed_tree_has_leaves(tree: Tree)
    requires
        tree::well_formed(tree),
    ensures
        query::first_leaf(tree) matches Some(pane) && tree::has_pane(tree, pane),
        query::last_leaf(tree) matches Some(pane) && tree::has_pane(tree, pane),
    decreases tree,
{
    match tree {
        Tree::Axis(axis) => {
            let last = axis.members.len() - 1;
            assert(tree::well_formed(axis.members[0]));
            assert(tree::well_formed(axis.members[last]));
            law_well_formed_tree_has_leaves(axis.members[0]);
            law_well_formed_tree_has_leaves(axis.members[last]);
            edit::lemma_panes_of_contains(axis.members, query::first_leaf(tree)->0);
            edit::lemma_panes_of_contains(axis.members, query::last_leaf(tree)->0);
        },
        Tree::Pane(pane) => {
            assert(tree::panes(tree)[0] == pane);
        },
        Tree::Stack(_) => {},
    }
}

/// A split keeps a tree well-formed.
pub proof fn law_split_keeps_tree_well_formed(
    tree: Tree,
    old_pane: PaneId,
    new_pane: PaneId,
    direction: SplitDirection,
)
    requires
        tree::well_formed(tree),
    ensures
        tree::well_formed(group::split_in(tree, old_pane, new_pane, direction)),
{
    let first = query::first_leaf(tree)->0;
    match tree {
        Tree::Axis(axis) => {
            lemma_split_axis_well_formed(axis, old_pane, new_pane, direction);
            lemma_split_axis_well_formed(axis, first, new_pane, direction);
        },
        Tree::Pane(pane) => {
            lemma_pair_well_formed(tree, new_pane, direction);
        },
        Tree::Stack(stack) => {
            lemma_pair_well_formed(Tree::Pane(first), new_pane, direction);
            if let Some(rest) = edit::without_pane(stack, old_pane) {
                lemma_pair_well_formed(rest, new_pane, direction);
            }
        },
    }
}

/// What a removal leaves of an axis, before an axis of one member gives way to it.
proof fn lemma_remove_from_axis_well_formed(axis: AxisModel, pane: PaneId)
    requires
        tree::well_formed(Tree::Axis(axis)),
    ensures
        ({
            let left = edit::remove_from_axis(axis, pane);
            &&& left.members.len() >= 1
            &&& left.flexes.len() == left.members.len()
            &&& forall|i: int|
                0 <= i < left.members.len() ==> tree::well_formed(#[trigger] left.members[i])
        }),
    decreases axis,
{
    let i = tree::first_with(axis.members, pane) as int;
    if i < axis.members.len() {
        assert(tree::well_formed(axis.members[i]));
        let left = edit::remove_from_axis(axis, pane);
        if let Tree::Axis(inner) = axis.members[i] {
            lemma_remove_from_axis_well_formed(inner, pane);
            lemma_update_well_formed(
                axis,
                i,
                edit::settled_axis(edit::remove_from_axis(inner, pane)),
            );
        } else if left.members.len() == axis.members.len() {
            assert(axis.members[i] is Stack);
            lemma_update_well_formed(axis, i, left.members[i]);
        } else {
            assert forall|k: int| 0 <= k < left.members.len() implies tree::well_formed(
                #[trigger] left.members[k],
            ) by {
                if k < i {
                    assert(left.members[k] == axis.members[k]);
                } else {
                    assert(left.members[k] == axis.members[k + 1]);
                }
            }
        }
    }
}

/// A removal keeps a tree well-formed.
pub proof fn law_remove_keeps_tree_well_formed(tree: Tree, pane: PaneId)
    requires
        tree::well_formed(tree),
    ensures
        tree::well_formed(group::remove_in(tree, pane)),
{
    if let Tree::Axis(axis) = tree {
        lemma_remove_from_axis_well_formed(axis, pane);
    }
}

/// A move to a border keeps a tree well-formed.
pub proof fn law_move_keeps_tree_well_formed(
    tree: Tree,
    pane: PaneId,
    direction: SplitDirection,
)
    requires
        tree::well_formed(tree),
    ensures
        tree::well_formed(group::move_in(tree, pane, direction)),
{
    if group::move_answer(tree, pane, direction) == Ok::<bool, PaneNotFound>(true) {
        law_remove_keeps_tree_well_formed(tree, pane);
        let left = group::remove_in(tree, pane);
        if left is Axis && left->Axis_0.axis == direction.along() {
            let axis = left->Axis_0;
            lemma_insert_well_formed(axis, 0, pane);
            lemma_insert_well_formed(axis, axis.members.len() as int, pane);
        } else {
            lemma_pair_well_formed(left, pane, direction);
        }
    }
}

/// Exchanging panes, turning axes and evening out shares keep a tree well-formed.
pub proof fn law_rearranging_keeps_tree_well_formed(tree: Tree, from: PaneId, to: PaneId)
    requires
        tree::well_formed(tree),
    ensures
        tree::well_formed(edit::swap_in(tree, from, to)),
        tree::well_formed(group::swapped(tree, from, to)),
        tree::well_formed(edit::invert_in(tree)),
        tree::well_formed(edit::even_in(tree)),
    decreases tree,
{
    if let Tree::Axis(axis) = tree {
        let swapped = edit::swap_in(tree, from, to)->Axis_0.members;
        let turned = edit::invert_in(tree)->Axis_0.members;
        let evened = edit::even_in(tree)->Axis_0.members;
        assert forall|i: int| 0 <= i < swapped.len() implies tree::well_formed(
            #[trigger] swapped[i],
        ) by {
            assert(tree::well_formed(axis.members[i]));
            law_rearranging_keeps_tree_well_formed(axis.members[i], from, to);
        }
        assert forall|i: int| 0 <= i < turned.len() implies tree::well_formed(
            #[trigger] turned[i],
        ) by {
            assert(tree::well_formed(axis.members[i]));
            law_rearranging_keeps_tree_well_formed(axis.members[i], from, to);
        }
        assert forall|i: int| 0 <= i < evened.len() implies tree::well_formed(
            #[trigger] evened[i],
        ) by {
            assert(tree::well_formed(axis.members[i]));
            law_rearranging_keeps_tree_well_formed(axis.members[i], from, to);
        }
    }
}

/// A resize keeps a tree well-formed and moves no pane.
pub proof fn law_resize_keeps_tree(
    tree: Tree,
    pane: PaneId,
    along: Axis,
    adjust: spec_fn(AxisModel, nat, nat) -> Option<(Flex, Flex)>,
)
    ensures
        tree::well_formed(tree) ==> tree::well_formed(group::resized(tree, pane, along, adjust)),
        tree::panes(group::resized(tree, pane, along, adjust)) == tree::panes(tree),
{
    if let Tree::Axis(axis) = tree {
        lemma_resize_keeps_axis(axis, pane, along, adjust);
    }
}

proof fn lemma_resize_keeps_axis(
    axis: AxisModel,
    pane: PaneId,
    along: Axis,
    adjust: spec_fn(AxisModel, nat, nat) -> Option<(Flex, Flex)>,
)
    ensures
        ({
            let after = resize::resize_axis(axis, pane, along, adjust).axis;
            &&& tree::well_formed(Tree::Axis(axis)) ==> tree::well_formed(Tree::Axis(after))
            &&& tree::panes_of(after.members) == tree::panes_of(axis.members)
        }),
    decreases axis, axis.members.len() + 1,
{
    lemma_resize_inside_keeps_axis(axis, 0, None, pane, along, adjust);
}

proof fn lemma_resize_inside_keeps_axis(
    axis: AxisModel,
    i: nat,
    under: Option<nat>,
    pane: PaneId,
    along: Axis,
    adjust: spec_fn(AxisModel, nat, nat) -> Option<(Flex, Flex)>,
)
    requires
        under matches Some(idx) ==> idx < axis.members.len(),
    ensures
        ({
            let after = resize::resize_inside(axis, i, under, pane, along, adjust).axis;
            &&& tree::well_formed(Tree::Axis(axis)) ==> tree::well_formed(Tree::Axis(after))
            &&& tree::panes_of(after.members) == tree::panes_of(axis.members)
        }),
    decreases axis, axis.members.len() - i,
{
    if i < axis.members.len() {
        lemma_resize_inside_keeps_axis(axis, i + 1, under, pane, along, adjust);
        lemma_resize_inside_keeps_axis(axis, i + 1, Some(i), pane, along, adjust);
        if let Tree::Axis(inner) = axis.members[i as int] {
            lemma_resize_keeps_axis(inner, pane, along, adjust);
            let deeper = resize::resize_axis(inner, pane, along, adjust).axis;
            if tree::well_formed(Tree::Axis(axis)) {
                assert(tree::well_formed(axis.members[i as int]));
                lemma_update_well_formed(axis, i as int, Tree::Axis(deeper));
            }
            crate::pane_group::laws::lemma_panes_of_same(
                axis.members,
                axis.members.update(i as int, Tree::Axis(deeper)),
            );
        }
    }
}

/// A pane that a point hits stands in the tree.
pub proof fn law_hit_pane_stands_in_tree(tree: Tree, hits: spec_fn(PixelBounds) -> bool)
    ensures
        query::hit_in(tree, hits) matches Some(pane) ==> tree::has_pane(tree, pane),
{
    lemma_leaf_stands_in_tree(tree);
    if let Tree::Axis(axis) = tree {
        lemma_hit_stands_in_axis(axis, 0, hits);
    }
}

proof fn lemma_leaf_stands_in_tree(tree: Tree)
    ensures
        query::leaf_pane(tree) matches Some(pane) ==> tree::has_pane(tree, pane),
{
    if let Tree::Pane(pane) = tree {
        assert(tree::panes(tree)[0] == pane);
    }
}

proof fn lemma_hit_stands_in_axis(axis: AxisModel, i: nat, hits: spec_fn(PixelBounds) -> bool)
    ensures
        query::hit_from(axis, i, hits) matches Some(pane) ==> tree::panes_of(
            axis.members,
        ).contains(pane),
    decreases axis, axis.members.len() - i,
{
    if i < axis.members.len() {
        lemma_hit_stands_in_axis(axis, i + 1, hits);
        lemma_leaf_stands_in_tree(axis.members[i as int]);
        if let Tree::Axis(inner) = axis.members[i as int] {
            lemma_hit_stands_in_axis(inner, 0, hits);
        }
        if let Some(pane) = query::hit_from(axis, i, hits) {
            edit::lemma_panes_of_contains(axis.members, pane);
        }
    }
}

} // verus!
