//! What a captured and a stored layout keep of a pane tree, told node by node.

use vstd::prelude::*;

use crate::layout_snapshot;
use crate::layout_snapshot::ItemModel;
use crate::layout_snapshot::ItemStateModel;
use crate::layout_snapshot::LayoutModel;
use crate::layout_snapshot::LayoutSnapshot;
use crate::layout_snapshot::PaneModel;
use crate::layout_snapshot::PaneState;
use crate::layout_snapshot::PaneStateModel;
use crate::layout_snapshot::SerializedModel;
use crate::layout_snapshot::SerializedPaneGroup;
use crate::layout_snapshot::SnapshotAxis;
use crate::pane_group::direction::Axis;
use crate::pane_group::paths;
use crate::pane_group::tree::Flex;
use crate::pane_group::tree::PaneId;
use crate::pane_group::tree::Tree;

verus! {

/// The part of a layout that a path leads to; each step is the index of a child of a group.
pub open spec fn layout_at(layout: LayoutModel, path: Seq<nat>) -> Option<LayoutModel>
    decreases path.len(),
{
    if path.len() == 0 {
        Some(layout)
    } else {
        match layout {
            LayoutModel::Group { children, .. } => if path[0] < children.len() {
                layout_at(children[path[0] as int], path.drop_first())
            } else {
                None
            },
            _ => None,
        }
    }
}

/// The part of a stored layout that a path leads to; each step is the index of a child of a
/// group.
pub open spec fn stored_at(stored: SerializedModel, path: Seq<nat>) -> Option<SerializedModel>
    decreases path.len(),
{
    if path.len() == 0 {
        Some(stored)
    } else {
        match stored {
            SerializedModel::Group { children, .. } => if path[0] < children.len() {
                stored_at(children[path[0] as int], path.drop_first())
            } else {
                None
            },
            _ => None,
        }
    }
}

/// Whether shares are stored as they are: each beside the child it belongs to.
pub open spec fn same_shares(flexes: Seq<Flex>, kept: Option<Seq<Flex>>) -> bool {
    kept matches Some(kept) && kept.len() == flexes.len() && forall|k: int|
        0 <= k < flexes.len() ==> #[trigger] kept[k] == flexes[k]
}

/// Whether an item has a kind under which it can be captured.
pub open spec fn has_kind(item: ItemStateModel) -> bool {
    item.serialized_item_kind is Some || item.pane_kind is Some
}

/// Whether a captured item is an item of a pane: with its number, under the kind under which
/// it stores itself or else that of the pane it is, marked as shown and as a preview as it is.
pub open spec fn is_item_of(kept: ItemModel, item: ItemStateModel, state: PaneStateModel) -> bool {
    &&& kept.item_id == item.item_id
    &&& Some(kept.kind) == (if item.serialized_item_kind is Some {
        item.serialized_item_kind
    } else {
        item.pane_kind
    })
    &&& kept.active <==> state.active_item == Some(item.item_id)
    &&& kept.preview <==> state.preview_item == Some(item.item_id)
}

/// Whether captured items are, in order, the items with the given numbers, and those are all
/// that have a kind.
pub open spec fn items_belong(
    kept: Seq<ItemModel>,
    from: Seq<nat>,
    state: PaneStateModel,
) -> bool {
    &&& kept.len() == from.len()
    &&& forall|a: int, b: int| 0 <= a < b < from.len() ==> #[trigger] from[a] < #[trigger] from[b]
    &&& forall|e: int|
        0 <= e < from.len() ==> (#[trigger] from[e]) < state.items.len() && is_item_of(
            kept[e],
            state.items[from[e] as int],
            state,
        )
    &&& forall|k: int|
        0 <= k < state.items.len() && has_kind(#[trigger] state.items[k]) ==> from.contains(
            k as nat,
        )
}

/// Whether a pane was captured as it is.
pub open spec fn is_pane_of(kept: PaneModel, state: PaneStateModel) -> bool {
    &&& kept.active == state.has_focus
    &&& kept.pinned_count == state.pinned_count
    &&& exists|from: Seq<nat>| #[trigger] items_belong(kept.items, from, state)
}

/// The numbers of the first `n` items that have a kind.
spec fn with_kinds(state: PaneStateModel, n: nat) -> Seq<nat>
    decreases n,
{
    if n == 0 {
        Seq::empty()
    } else if has_kind(state.items[n - 1]) {
        with_kinds(state, (n - 1) as nat).push((n - 1) as nat)
    } else {
        with_kinds(state, (n - 1) as nat)
    }
}

proof fn lemma_captured_items(state: PaneStateModel, n: nat)
    requires
        n <= state.items.len(),
    ensures
        ({
            let kept = layout_snapshot::captured_items(state, n);
            let from = with_kinds(state, n);
            &&& kept.len() == from.len()
            &&& forall|a: int, b: int|
                0 <= a < b < from.len() ==> #[trigger] from[a] < #[trigger] from[b]
            &&& forall|e: int|
                0 <= e < from.len() ==> (#[trigger] from[e]) < n && is_item_of(
                    kept[e],
                    state.items[from[e] as int],
                    state,
                )
            &&& forall|k: int|
                0 <= k < n && has_kind(#[trigger] state.items[k]) ==> from.contains(k as nat)
        }),
    decreases n,
{
    if n > 0 {
        lemma_captured_items(state, (n - 1) as nat);
        let before = with_kinds(state, (n - 1) as nat);
        let earlier = layout_snapshot::captured_items(state, (n - 1) as nat);
        let from = with_kinds(state, n);
        let kept = layout_snapshot::captured_items(state, n);
        assert forall|e: int| 0 <= e < from.len() implies (#[trigger] from[e]) < n && is_item_of(
            kept[e],
            state.items[from[e] as int],
            state,
        ) by {
            if e < before.len() {
                assert(from[e] == before[e]);
                assert(kept[e] == earlier[e]);
            }
        }
        assert forall|k: int| 0 <= k < n && has_kind(#[trigger] state.items[k]) implies
            from.contains(k as nat) by {
            if k < n - 1 {
                let e = before.index_of(k as nat);
                assert(from[e] == k);
            } else {
                assert(from[from.len() - 1] == k);
            }
        }
    }
}

/// A pane is captured with its focus, its pinned items and, in order, each of its items that
/// has a kind.
pub proof fn law_pane_is_captured_as_it_is(state: PaneStateModel)
    ensures
        is_pane_of(layout_snapshot::captured_pane(state), state),
{
    lemma_captured_items(state, state.items.len());
    assert(items_belong(
        layout_snapshot::captured_pane(state).items,
        with_kinds(state, state.items.len()),
        state,
    ));
}

/// A captured layout has the shape of the tree. Wherever a path leads, an axis is a group of
/// the same direction with as many children as members, and with the share of each member
/// beside its child; a single pane is captured as it is, and so is every pane of a stack, with
/// the same one shown.
pub proof fn law_capture_mirrors_the_tree(
    tree: Tree,
    state_of: spec_fn(PaneId) -> PaneStateModel,
    path: Seq<nat>,
)
    ensures
        match (
            paths::node_at(tree, path),
            layout_at(layout_snapshot::captured(tree, state_of), path),
        ) {
            (None, None) => true,
            (
                Some(Tree::Axis(was)),
                Some(LayoutModel::Group { axis, flexes, children }),
            ) => {
                &&& (axis == SnapshotAxis::Horizontal) == (was.axis == Axis::Horizontal)
                &&& children.len() == was.members.len()
                &&& same_shares(was.flexes, flexes)
            },
            (Some(Tree::Pane(pane)), Some(LayoutModel::Pane(kept))) => is_pane_of(
                kept,
                state_of(pane),
            ),
            (Some(Tree::Stack(was)), Some(LayoutModel::Stack { members, active })) => {
                &&& active == was.active
                &&& members.len() == was.panes.len()
                &&& forall|k: int|
                    0 <= k < members.len() ==> ((#[trigger] members[k]) matches LayoutModel::Pane(
                        kept,
                    ) && is_pane_of(kept, state_of(was.panes[k])))
            },
            _ => false,
        },
    decreases path.len(),
{
    if path.len() == 0 {
        match tree {
            Tree::Axis(_) => {},
            Tree::Pane(pane) => law_pane_is_captured_as_it_is(state_of(pane)),
            Tree::Stack(stack) => {
                assert forall|k: int| 0 <= k < stack.panes.len() implies is_pane_of(
                    layout_snapshot::captured_pane(state_of(#[trigger] stack.panes[k])),
                    state_of(stack.panes[k]),
                ) by {
                    law_pane_is_captured_as_it_is(state_of(stack.panes[k]));
                }
            },
        }
    } else if let Tree::Axis(axis) = tree {
        if path[0] < axis.members.len() {
            law_capture_mirrors_the_tree(
                axis.members[path[0] as int],
                state_of,
                path.drop_first(),
            );
        }
    }
}

/// Whether a pane is an empty one that has the focus.
pub open spec fn is_empty_pane(pane: PaneModel) -> bool {
    pane.items.len() == 0 && pane.active && pane.pinned_count == 0
}

/// A layout that was captured and stored has the shape of the tree. Wherever a path leads, an
/// axis is a group of the same direction with as many children as members, and with the share
/// of each member beside its child; a leaf is the pane that it shows, as it is.
pub proof fn law_stored_layout_mirrors_the_tree(
    tree: Tree,
    state_of: spec_fn(PaneId) -> PaneStateModel,
    path: Seq<nat>,
)
    ensures
        match (
            paths::node_at(tree, path),
            stored_at(
                layout_snapshot::serialized(layout_snapshot::captured(tree, state_of)),
                path,
            ),
        ) {
            (None, None) => true,
            (
                Some(Tree::Axis(was)),
                Some(SerializedModel::Group { axis, flexes, children }),
            ) => {
                &&& axis == was.axis
                &&& children.len() == was.members.len()
                &&& same_shares(was.flexes, flexes)
            },
            (Some(Tree::Pane(pane)), Some(SerializedModel::Pane(kept))) => is_pane_of(
                kept,
                state_of(pane),
            ),
            (Some(Tree::Stack(stack)), Some(SerializedModel::Pane(kept))) => {
                if stack.active < stack.panes.len() {
                    is_pane_of(kept, state_of(stack.panes[stack.active as int]))
                } else {
                    is_empty_pane(kept)
                }
            },
            _ => false,
        },
    decreases path.len(),
{
    let layout = layout_snapshot::captured(tree, state_of);
    match tree {
        Tree::Axis(axis) => {
            if path.len() > 0 && path[0] < axis.members.len() {
                law_stored_layout_mirrors_the_tree(
                    axis.members[path[0] as int],
                    state_of,
                    path.drop_first(),
                );
            }
        },
        Tree::Pane(pane) => law_pane_is_captured_as_it_is(state_of(pane)),
        Tree::Stack(stack) => {
            reveal_with_fuel(layout_snapshot::serialized, 2);
            if stack.active < stack.panes.len() {
                law_pane_is_captured_as_it_is(state_of(stack.panes[stack.active as int]));
            }
        },
    }
}

/// Storing a layout keeps every group with its direction, its shares and its children, and
/// every pane. Of a stack just the layout that is shown is stored, wherever that is; an empty
/// pane takes the place of a stack that shows none.
pub proof fn law_storing_keeps_what_is_shown(layout: LayoutModel, path: Seq<nat>)
    requires
        layout_at(layout, path) is Some,
    ensures
        match (
            layout_at(layout, path)->0,
            stored_at(layout_snapshot::serialized(layout), path),
        ) {
            (
                LayoutModel::Group { axis: was, flexes: shares, children: parts },
                Some(SerializedModel::Group { axis, flexes, children }),
            ) => {
                &&& (axis == Axis::Horizontal) == (was == SnapshotAxis::Horizontal)
                &&& flexes == shares
                &&& children.len() == parts.len()
            },
            (LayoutModel::Pane(was), Some(SerializedModel::Pane(kept))) => kept == was,
            (LayoutModel::Stack { members, active }, Some(kept)) => {
                if active < members.len() {
                    kept == layout_snapshot::serialized(members[active as int])
                } else {
                    kept matches SerializedModel::Pane(pane) && is_empty_pane(pane)
                }
            },
            _ => false,
        },
    decreases path.len(),
{
    if path.len() > 0 {
        let children = layout->Group_children;
        law_storing_keeps_what_is_shown(children[path[0] as int], path.drop_first());
    }
}

/// What is told of a pane as a function tells it is what the function says of that pane.
pub proof fn law_what_is_told_of_a_pane<F: Fn(PaneId) -> PaneState>(
    state_of: F,
    f: spec_fn(PaneId) -> PaneStateModel,
    pane: PaneId,
    state: PaneState,
)
    requires
        layout_snapshot::tells(state_of, f),
        call_ensures(state_of, (pane,), state),
    ensures
        f(pane).items.len() == state.items@.len(),
        forall|k: int|
            0 <= k < state.items@.len() ==> #[trigger] f(pane).items[k] == state.items@[k]@,
        f(pane).active_item == state.active_item,
        f(pane).preview_item == state.preview_item,
        f(pane).has_focus == state.has_focus,
        f(pane).pinned_count == state.pinned_count,
{
    assert(state@ == f(pane));
}

/// A model shows a snapshot of a layout as it is.
pub proof fn law_model_of_a_snapshot(layout: LayoutSnapshot, i: int)
    ensures
        layout matches LayoutSnapshot::Group { axis, flexes, children } ==> {
            &&& layout.model() matches LayoutModel::Group {
                axis: direction,
                flexes: shares,
                children: parts,
            } && direction == axis && shares == layout_snapshot::shares_model(flexes)
                && parts.len() == children@.len() && (0 <= i < children@.len() ==> parts[i]
                == children@[i].model())
        },
        layout matches LayoutSnapshot::Stack { members, active } ==> {
            &&& layout.model() matches LayoutModel::Stack { members: parts, active: shown } && shown
                == active && parts.len() == members@.len() && (0 <= i < members@.len() ==> parts[i]
                == members@[i].model())
        },
        layout matches LayoutSnapshot::Pane(pane) ==> layout.model() == LayoutModel::Pane(pane@),
{
}

/// A model shows a stored layout as it is.
pub proof fn law_model_of_a_stored_layout(stored: SerializedPaneGroup, i: int)
    ensures
        stored matches SerializedPaneGroup::Group { axis, flexes, children } ==> {
            &&& stored.model() matches SerializedModel::Group {
                axis: direction,
                flexes: shares,
                children: parts,
            } && direction == axis && shares == layout_snapshot::shares_model(flexes)
                && parts.len() == children@.len() && (0 <= i < children@.len() ==> parts[i]
                == children@[i].model())
        },
        stored matches SerializedPaneGroup::Pane(pane) ==> stored.model() == SerializedModel::Pane(
            pane@,
        ),
{
}

/// Shares are modelled one by one, in order.
pub proof fn law_model_of_shares(flexes: Vec<Flex>)
    ensures
        layout_snapshot::shares_model(Some(flexes)) == Some(flexes@),
        layout_snapshot::shares_model(None) is None,
{
}

} // verus!
