//! What resetting sizes, swapping panes, turning axes and marking positions do at each node.

use vstd::prelude::*;

use crate::pane_group::edit;
use crate::pane_group::group;
use crate::pane_group::group::GroupModel;
use crate::pane_group::group::PaneGroup;
use crate::pane_group::paths;
use crate::pane_group::tree;
use crate::pane_group::tree::PaneId;
use crate::pane_group::tree::Tree;

verus! {

/// Resetting sizes changes nothing but shares. Wherever a path leads, the kind of node, the
/// direction of an axis, the number of its members, its painted rectangles, the panes and a
/// stack's visible index are what they were, and each member of an axis has a share of one.
pub proof fn law_reset_changes_only_shares(tree: Tree, path: Seq<nat>)
    ensures
        match (paths::node_at(tree, path), paths::node_at(edit::even_in(tree), path)) {
            (None, None) => true,
            (Some(Tree::Axis(was)), Some(Tree::Axis(is))) => {
                &&& is.axis == was.axis
                &&& is.members.len() == was.members.len()
                &&& is.boxes == was.boxes
                &&& is.flexes.len() == was.members.len()
                &&& forall|k: int|
                    0 <= k < is.flexes.len() ==> (#[trigger] is.flexes[k]).bits == 0x3f80_0000
            },
            (Some(was), Some(is)) => is == was,
            _ => false,
        },
    decreases path.len(),
{
    if path.len() > 0 {
        if let Tree::Axis(axis) = tree {
            if path[0] < axis.members.len() {
                law_reset_changes_only_shares(axis.members[path[0] as int], path.drop_first());
            }
        }
    }
}

/// Turning the axes changes nothing but the direction of every axis.
pub proof fn law_invert_changes_only_directions(tree: Tree, path: Seq<nat>)
    ensures
        match (paths::node_at(tree, path), paths::node_at(edit::invert_in(tree), path)) {
            (None, None) => true,
            (Some(Tree::Axis(was)), Some(Tree::Axis(is))) => {
                &&& is.axis != was.axis
                &&& is.members.len() == was.members.len()
                &&& is.flexes == was.flexes
                &&& is.boxes == was.boxes
            },
            (Some(was), Some(is)) => is == was,
            _ => false,
        },
    decreases path.len(),
{
    if path.len() > 0 {
        if let Tree::Axis(axis) = tree {
            if path[0] < axis.members.len() {
                law_invert_changes_only_directions(axis.members[path[0] as int], path.drop_first());
            }
        }
    }
}

/// Whether `is` is the pane that stands where `was` stood, once `from` and `to` have changed
/// places.
pub open spec fn trades_place(was: PaneId, is: PaneId, from: PaneId, to: PaneId) -> bool {
    &&& was == from ==> is == to
    &&& was == to ==> is == from
    &&& was != from && was != to ==> is == was
}

/// Swapping two panes changes nothing but where these two stand: every leaf that had one has
/// the other, at the same index of a stack, and every axis is what it was.
pub proof fn law_swap_changes_only_two_panes(
    tree: Tree,
    from: PaneId,
    to: PaneId,
    path: Seq<nat>,
)
    ensures
        tree is Pane ==> group::swapped(tree, from, to) == tree,
        tree !is Pane ==> match (
            paths::node_at(tree, path),
            paths::node_at(group::swapped(tree, from, to), path),
        ) {
            (None, None) => true,
            (Some(Tree::Axis(was)), Some(Tree::Axis(is))) => {
                &&& is.axis == was.axis
                &&& is.members.len() == was.members.len()
                &&& is.flexes == was.flexes
                &&& is.boxes == was.boxes
            },
            (Some(Tree::Pane(was)), Some(Tree::Pane(is))) => trades_place(was, is, from, to),
            (Some(Tree::Stack(was)), Some(Tree::Stack(is))) => {
                &&& is.active == was.active
                &&& is.panes.len() == was.panes.len()
                &&& forall|k: int|
                    0 <= k < is.panes.len() ==> trades_place(
                        was.panes[k],
                        #[trigger] is.panes[k],
                        from,
                        to,
                    )
            },
            _ => false,
        },
{
    if tree !is Pane {
        lemma_swap_at(tree, from, to, path);
    }
}

proof fn lemma_swap_at(tree: Tree, from: PaneId, to: PaneId, path: Seq<nat>)
    ensures
        match (paths::node_at(tree, path), paths::node_at(edit::swap_in(tree, from, to), path)) {
            (None, None) => true,
            (Some(Tree::Axis(was)), Some(Tree::Axis(is))) => {
                &&& is.axis == was.axis
                &&& is.members.len() == was.members.len()
                &&& is.flexes == was.flexes
                &&& is.boxes == was.boxes
            },
            (Some(Tree::Pane(was)), Some(Tree::Pane(is))) => trades_place(was, is, from, to),
            (Some(Tree::Stack(was)), Some(Tree::Stack(is))) => {
                &&& is.active == was.active
                &&& is.panes.len() == was.panes.len()
                &&& forall|k: int|
                    0 <= k < is.panes.len() ==> trades_place(
                        was.panes[k],
                        #[trigger] is.panes[k],
                        from,
                        to,
                    )
            },
            _ => false,
        },
    decreases path.len(),
{
    if path.len() > 0 {
        if let Tree::Axis(axis) = tree {
            if path[0] < axis.members.len() {
                lemma_swap_at(axis.members[path[0] as int], from, to, path.drop_first());
            }
        }
    }
}

/// A pane stands in a tree exactly if a path leads to a leaf that has it.
pub proof fn law_pane_stands_in_a_leaf(tree: Tree, pane: PaneId)
    ensures
        tree::has_pane(tree, pane) <==> exists|path: Seq<nat>| #[trigger]
            paths::holds_at(tree, path, pane),
{
    if tree::has_pane(tree, pane) {
        let path = lemma_path_to(tree, pane);
    }
    if exists|path: Seq<nat>| #[trigger] paths::holds_at(tree, path, pane) {
        let path = choose|path: Seq<nat>| #[trigger] paths::holds_at(tree, path, pane);
        lemma_held_stands(tree, path, pane);
    }
}

/// A path to a leaf that has a pane of the tree.
pub(crate) proof fn lemma_path_to(tree: Tree, pane: PaneId) -> (path: Seq<nat>)
    requires
        tree::has_pane(tree, pane),
    ensures
        paths::holds_at(tree, path, pane),
    decreases tree,
{
    match tree {
        Tree::Axis(axis) => {
            edit::lemma_panes_of_contains(axis.members, pane);
            let i = choose|i: int|
                0 <= i < axis.members.len() && tree::has_pane(#[trigger] axis.members[i], pane);
            assert(decreases_to!(tree => axis));
            assert(decreases_to!(axis => axis.members));
            assert(decreases_to!(axis.members => axis.members[i]));
            let rest = lemma_path_to(axis.members[i], pane);
            paths::lemma_step(axis, i as nat, rest);
            seq![i as nat] + rest
        },
        Tree::Pane(only) => {
            assert(tree::panes(tree)[0] == only);
            Seq::empty()
        },
        Tree::Stack(_) => Seq::empty(),
    }
}

/// What a leaf has stands in the tree.
pub(crate) proof fn lemma_held_stands(tree: Tree, path: Seq<nat>, pane: PaneId)
    requires
        paths::holds_at(tree, path, pane),
    ensures
        tree::has_pane(tree, pane),
    decreases path.len(),
{
    if path.len() > 0 {
        let axis = tree->Axis_0;
        lemma_held_stands(axis.members[path[0] as int], path.drop_first(), pane);
        edit::lemma_panes_of_contains(axis.members, pane);
    } else if let Tree::Pane(only) = tree {
        assert(tree::panes(tree)[0] == only);
    }
}

/// Marking positions tells every pane of the group whether the group is the center one, and
/// no other pane anything.
pub proof fn law_marking_tells_the_panes_of_the_group(
    store: Map<PaneId, bool>,
    group: GroupModel,
    pane: PaneId,
)
    ensures
        ({
            let after = group::marked(store, group);
            let stands = exists|path: Seq<nat>| #[trigger]
                paths::holds_at(group.root, path, pane);
            &&& stands ==> after.contains_key(pane) && after[pane] == group.is_center
            &&& !stands ==> after.contains_key(pane) == store.contains_key(pane)
            &&& !stands && store.contains_key(pane) ==> after[pane] == store[pane]
        }),
{
    law_pane_stands_in_a_leaf(group.root, pane);
}

/// What a group holds is what its tree is and whether it is the center group.
pub proof fn law_model_of_a_group(group: PaneGroup)
    ensures
        group@.root == group.root.model(),
        group@.is_center == group.is_center,
{
}

} // verus!
