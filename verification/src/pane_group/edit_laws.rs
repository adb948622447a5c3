//! Where a split, a removal and a move act, told by the way from the root to the pane.

use vstd::prelude::*;

use crate::pane_group::direction::SplitDirection;
use crate::pane_group::edit;
use crate::pane_group::group;
use crate::pane_group::paths;
use crate::pane_group::query;
use crate::pane_group::rearrange_laws;
use crate::pane_group::tree;
use crate::pane_group::tree::AxisModel;
use crate::pane_group::tree::Flex;
use crate::pane_group::tree::PaneId;
use crate::pane_group::edit::PaneNotFound;
use crate::pane_group::tree::StackModel;
use crate::pane_group::tree::Tree;

verus! {

/// A share of one for each of `n` members.
pub open spec fn ones(n: nat) -> Seq<Flex> {
    Seq::new(n, |i: int| Flex { bits: 0x3f80_0000 })
}

/// A new axis of two members with a share of one each, of which the second lies in
/// `direction` from the first.
pub open spec fn new_pair(settled: Tree, newcomer: Tree, direction: SplitDirection) -> Tree {
    Tree::Axis(
        AxisModel {
            axis: direction.along(),
            members: match direction {
                SplitDirection::Right | SplitDirection::Down => seq![settled, newcomer],
                SplitDirection::Left | SplitDirection::Up => seq![newcomer, settled],
            },
            flexes: ones(2),
            boxes: seq![None, None],
        },
    )
}

/// The panes other than a given one, in order.
pub open spec fn others(panes: Seq<PaneId>, pane: PaneId) -> Seq<PaneId>
    decreases panes.len(),
{
    if panes.len() == 0 {
        panes
    } else if panes.last() == pane {
        others(panes.drop_last(), pane)
    } else {
        others(panes.drop_last(), pane).push(panes.last())
    }
}

/// What is left of a leaf without a pane: nothing of a single pane; of a stack its other
/// panes in order, as a stack if they are two or more. The index of the visible pane stays,
/// unless it is past the last one.
pub open spec fn left_of(leaf: Tree, pane: PaneId) -> Option<Tree> {
    match leaf {
        Tree::Stack(stack) => {
            let stay = others(stack.panes, pane);
            if stay.len() == 0 {
                None
            } else if stay.len() == 1 {
                Some(Tree::Pane(stay[0]))
            } else {
                Some(
                    Tree::Stack(
                        StackModel {
                            panes: stay,
                            active: if stack.active < stay.len() {
                                stack.active
                            } else {
                                (stay.len() - 1) as nat
                            },
                        },
                    ),
                )
            }
        },
        _ => None,
    }
}

/// A tree in which the leaf at the end of a path is `settled`, with a new pane beside it: a
/// member of the same axis where that runs along the direction, else in an axis of the two.
pub open spec fn with_neighbour(
    tree: Tree,
    path: Seq<nat>,
    settled: Tree,
    new_pane: PaneId,
    direction: SplitDirection,
) -> Tree {
    let parent = paths::axis_on(tree, path, path.len() - 1);
    if path.len() > 0 && parent.axis == direction.along() {
        let k = path.last() as int;
        let at = match direction {
            SplitDirection::Right | SplitDirection::Down => k + 1,
            SplitDirection::Left | SplitDirection::Up => k,
        };
        paths::with_node(
            tree,
            path.drop_last(),
            Tree::Axis(
                AxisModel {
                    members: parent.members.update(k, settled).insert(at, Tree::Pane(new_pane)),
                    flexes: ones(parent.members.len() + 1),
                    ..parent
                },
            ),
        )
    } else {
        paths::with_node(tree, path, new_pair(settled, Tree::Pane(new_pane), direction))
    }
}

/// A tree after the pane in the leaf at the end of a path made room for a new one: a single
/// pane stays beside it, a pane of a stack leaves.
pub open spec fn with_room_made(
    tree: Tree,
    path: Seq<nat>,
    old_pane: PaneId,
    new_pane: PaneId,
    direction: SplitDirection,
) -> Tree {
    let leaf = paths::node_at(tree, path)->0;
    if leaf is Pane {
        with_neighbour(tree, path, leaf, new_pane, direction)
    } else {
        match left_of(leaf, old_pane) {
            Some(rest) => with_neighbour(tree, path, rest, new_pane, direction),
            None => paths::with_node(tree, path, Tree::Pane(new_pane)),
        }
    }
}

proof fn lemma_ones(n: nat)
    ensures
        ones(n) == tree::even_flexes(n),
{
    assert(ones(n) =~= tree::even_flexes(n));
}

proof fn lemma_new_pair(settled: Tree, newcomer: Tree, direction: SplitDirection)
    ensures
        new_pair(settled, newcomer, direction) == Tree::Axis(
            tree::pair_axis(settled, newcomer, direction),
        ),
{
    lemma_ones(2);
    let pair = tree::pair_axis(settled, newcomer, direction);
    assert(new_pair(settled, newcomer, direction)->Axis_0.boxes =~= pair.boxes);
}

proof fn lemma_others(panes: Seq<PaneId>, pane: PaneId)
    ensures
        others(panes, pane) == edit::other_panes(panes, pane),
    decreases panes.len(),
{
    reveal(Seq::filter);
    if panes.len() > 0 {
        lemma_others(panes.drop_last(), pane);
    }
}

proof fn lemma_left_of(leaf: Tree, pane: PaneId)
    ensures
        leaf matches Tree::Stack(stack) ==> edit::without_pane(stack, pane) == left_of(leaf, pane),
{
    if let Tree::Stack(stack) = leaf {
        lemma_others(stack.panes, pane);
    }
}

/// The first member that has a pane is the one through which the only path to it leads.
proof fn lemma_first_on_path(axis: AxisModel, path: Seq<nat>, pane: PaneId)
    requires
        paths::only_held_at(Tree::Axis(axis), path, pane),
    ensures
        path.len() > 0,
        path[0] < axis.members.len(),
        paths::only_held_at(axis.members[path[0] as int], path.drop_first(), pane),
        tree::first_with(axis.members, pane) == path[0],
{
    paths::lemma_only_held_in_member(axis, path, pane);
    let k = path[0] as int;
    rearrange_laws::lemma_held_stands(axis.members[k], path.drop_first(), pane);
    assert forall|j: int| 0 <= j < k implies !tree::has_pane(#[trigger] axis.members[j], pane) by {
        rearrange_laws::law_pane_stands_in_a_leaf(axis.members[j], pane);
    }
    edit::lemma_first_with_is(axis.members, pane, k);
}

/// The end of a longer path is the end of its rest.
proof fn lemma_parent_below(axis: AxisModel, path: Seq<nat>)
    requires
        path.len() > 1,
        path[0] < axis.members.len(),
    ensures
        path.drop_last().drop_first() == path.drop_first().drop_last(),
        path.drop_last()[0] == path[0],
        path.drop_first().last() == path.last(),
        paths::axis_on(Tree::Axis(axis), path, path.len() - 1) == paths::axis_on(
            axis.members[path[0] as int],
            path.drop_first(),
            path.len() - 2,
        ),
        paths::node_at(Tree::Axis(axis), path) == paths::node_at(
            axis.members[path[0] as int],
            path.drop_first(),
        ),
{
    assert(path.drop_last().drop_first() =~= path.drop_first().drop_last());
    paths::lemma_tail(axis, path, path.len() - 1);
}

proof fn lemma_split_on_path(
    axis: AxisModel,
    path: Seq<nat>,
    old_pane: PaneId,
    new_pane: PaneId,
    direction: SplitDirection,
)
    requires
        paths::only_held_at(Tree::Axis(axis), path, old_pane),
    ensures
        Tree::Axis(edit::split_axis(axis, old_pane, new_pane, direction)) == with_room_made(
            Tree::Axis(axis),
            path,
            old_pane,
            new_pane,
            direction,
        ),
    decreases path.len(),
{
    lemma_first_on_path(axis, path, old_pane);
    let k = path[0] as int;
    let inner = axis.members[k];
    let rest = path.drop_first();
    if path.len() == 1 {
        reveal_with_fuel(paths::with_node, 2);
        assert(rest =~= Seq::empty());
        assert(path.drop_last() =~= Seq::empty());
        assert(path.take(0) =~= Seq::empty());
        assert(paths::node_at(Tree::Axis(axis), path) == Some(inner));
        assert(paths::axis_on(Tree::Axis(axis), path, 0) == axis);
        lemma_left_of(inner, old_pane);
        lemma_ones(axis.members.len() + 1);
        if inner is Pane {
            lemma_new_pair(inner, Tree::Pane(new_pane), direction);
            assert(axis.members.update(k, inner) =~= axis.members);
            assert(edit::with_member(axis, k, inner) == axis);
        } else if let Some(left) = left_of(inner, old_pane) {
            lemma_new_pair(left, Tree::Pane(new_pane), direction);
        }
    } else {
        assert(inner is Axis);
        lemma_split_on_path(inner->Axis_0, rest, old_pane, new_pane, direction);
        lemma_parent_below(axis, path);
    }
}

/// A split acts at the end of the way to the pane: there the new pane enters beside it, in
/// the direction asked for, and nothing else changes.
pub proof fn law_split_acts_at_the_pane(
    tree: Tree,
    path: Seq<nat>,
    old_pane: PaneId,
    new_pane: PaneId,
    direction: SplitDirection,
)
    requires
        paths::only_held_at(tree, path, old_pane),
    ensures
        group::split_in(tree, old_pane, new_pane, direction) == with_room_made(
            tree,
            path,
            old_pane,
            new_pane,
            direction,
        ),
{
    rearrange_laws::lemma_held_stands(tree, path, old_pane);
    match tree {
        Tree::Axis(axis) => {
            lemma_split_on_path(axis, path, old_pane, new_pane, direction);
        },
        _ => {
            assert(path.len() == 0);
            lemma_left_of(tree, old_pane);
            lemma_new_pair(tree, Tree::Pane(new_pane), direction);
            if let Some(left) = left_of(tree, old_pane) {
                lemma_new_pair(left, Tree::Pane(new_pane), direction);
            }
        },
    }
}

/// A path on which each step is to the first member.
pub open spec fn keeps_first(path: Seq<nat>) -> bool {
    forall|n: int| 0 <= n < path.len() ==> #[trigger] path[n] == 0
}

/// A path on which each step is to the last member.
pub open spec fn keeps_last(tree: Tree, path: Seq<nat>) -> bool {
    forall|n: int|
        0 <= n < path.len() ==> #[trigger] path[n] + 1 == paths::axis_on(
            tree,
            path,
            n,
        ).members.len()
}

/// The first pane is the visible one of the leaf to which the first members lead.
pub proof fn law_first_pane(tree: Tree, path: Seq<nat>, pane: PaneId)
    requires
        keeps_first(path),
        paths::shows_at(tree, path, pane),
    ensures
        query::first_leaf(tree) == Some(pane),
    decreases path.len(),
{
    if path.len() > 0 {
        let rest = path.drop_first();
        assert(path[0] == 0);
        assert forall|n: int| 0 <= n < rest.len() implies #[trigger] rest[n] == 0 by {
            assert(path[n + 1] == 0);
        }
        law_first_pane(tree->Axis_0.members[0], rest, pane);
    }
}

/// The last pane is the visible one of the leaf to which the last members lead.
pub proof fn law_last_pane(tree: Tree, path: Seq<nat>, pane: PaneId)
    requires
        keeps_last(tree, path),
        paths::shows_at(tree, path, pane),
    ensures
        query::last_leaf(tree) == Some(pane),
    decreases path.len(),
{
    if path.len() > 0 {
        let axis = tree->Axis_0;
        let rest = path.drop_first();
        assert(path.take(0) =~= Seq::empty());
        assert(path[0] + 1 == axis.members.len());
        let inner = axis.members[path[0] as int];
        assert forall|n: int| 0 <= n < rest.len() implies #[trigger] rest[n] + 1 == paths::axis_on(
            inner,
            rest,
            n,
        ).members.len() by {
            assert(path[n + 1] + 1 == paths::axis_on(tree, path, n + 1).members.len());
            paths::lemma_tail(axis, path, n + 1);
        }
        law_last_pane(inner, rest, pane);
    }
}

/// A split of a pane that is not in the tree is a split of the first pane; a stack alone in
/// its group gives way to its visible pane and the new one.
pub proof fn law_split_of_unknown_pane(
    tree: Tree,
    path: Seq<nat>,
    first: PaneId,
    old_pane: PaneId,
    new_pane: PaneId,
    direction: SplitDirection,
)
    requires
        !tree::has_pane(tree, old_pane),
        keeps_first(path),
        paths::shows_at(tree, path, first),
    ensures
        tree !is Stack ==> group::split_in(tree, old_pane, new_pane, direction) == group::split_in(
            tree,
            first,
            new_pane,
            direction,
        ),
        tree is Stack ==> group::split_in(tree, old_pane, new_pane, direction) == new_pair(
            Tree::Pane(first),
            Tree::Pane(new_pane),
            direction,
        ),
{
    law_first_pane(tree, path, first);
    assert(paths::holds_at(tree, path, first));
    rearrange_laws::lemma_held_stands(tree, path, first);
    lemma_new_pair(Tree::Pane(first), Tree::Pane(new_pane), direction);
}

/// A tree after a pane left the leaf at the end of a path. An empty leaf leaves its axis, in
/// which each share is one then; an axis of two gives way to the member that stays.
pub open spec fn with_pane_out(tree: Tree, path: Seq<nat>, pane: PaneId) -> Tree {
    let leaf = paths::node_at(tree, path)->0;
    let parent = paths::axis_on(tree, path, path.len() - 1);
    let k = path.last() as int;
    match left_of(leaf, pane) {
        Some(rest) => paths::with_node(tree, path, rest),
        None => if path.len() == 0 {
            tree
        } else if parent.members.len() == 2 {
            paths::with_node(tree, path.drop_last(), parent.members[1 - k])
        } else {
            paths::with_node(
                tree,
                path.drop_last(),
                Tree::Axis(
                    AxisModel {
                        members: parent.members.remove(k),
                        flexes: ones((parent.members.len() - 1) as nat),
                        ..parent
                    },
                ),
            )
        },
    }
}

proof fn lemma_remove_on_path(axis: AxisModel, path: Seq<nat>, pane: PaneId)
    requires
        tree::well_formed(Tree::Axis(axis)),
        paths::only_held_at(Tree::Axis(axis), path, pane),
    ensures
        edit::settled_axis(edit::remove_from_axis(axis, pane)) == with_pane_out(
            Tree::Axis(axis),
            path,
            pane,
        ),
    decreases path.len(),
{
    lemma_first_on_path(axis, path, pane);
    let k = path[0] as int;
    let inner = axis.members[k];
    let rest = path.drop_first();
    if path.len() == 1 {
        reveal_with_fuel(paths::with_node, 2);
        assert(rest =~= Seq::empty());
        assert(path.drop_last() =~= Seq::empty());
        assert(path.take(0) =~= Seq::empty());
        assert(paths::node_at(Tree::Axis(axis), path) == Some(inner));
        assert(paths::axis_on(Tree::Axis(axis), path, 0) == axis);
        lemma_left_of(inner, pane);
        lemma_ones((axis.members.len() - 1) as nat);
    } else {
        assert(inner is Axis);
        lemma_remove_on_path(inner->Axis_0, rest, pane);
        lemma_parent_below(axis, path);
    }
}

/// A removal acts at the end of the way to the pane, and nothing else changes. The only pane
/// of a group stays, and a pane that is not in the tree is not found.
pub proof fn law_remove_acts_at_the_pane(tree: Tree, path: Seq<nat>, pane: PaneId)
    requires
        tree::well_formed(tree),
    ensures
        paths::only_held_at(tree, path, pane) ==> {
            &&& group::remove_in(tree, pane) == with_pane_out(tree, path, pane)
            &&& group::remove_answer(tree, pane) == Ok::<bool, PaneNotFound>(
                path.len() > 0 || left_of(tree, pane) is Some,
            )
        },
        (forall|other: Seq<nat>| !#[trigger] paths::holds_at(tree, other, pane)) ==> {
            &&& group::remove_in(tree, pane) == tree
            &&& group::remove_answer(tree, pane) == Err::<bool, PaneNotFound>(PaneNotFound)
        },
{
    rearrange_laws::law_pane_stands_in_a_leaf(tree, pane);
    if paths::only_held_at(tree, path, pane) {
        assert(paths::holds_at(tree, path, pane));
        match tree {
            Tree::Axis(axis) => {
                lemma_remove_on_path(axis, path, pane);
            },
            _ => {
                assert(path.len() == 0);
                lemma_left_of(tree, pane);
            },
        }
    }
}

/// Whether a pane spans the whole border of a tree on a side: the tree is one leaf that shows
/// it, or an axis that runs that way whose outermost member on that side is such a leaf.
pub open spec fn spans_border(tree: Tree, pane: PaneId, direction: SplitDirection) -> bool {
    match tree {
        Tree::Axis(axis) => {
            let end: nat = match direction {
                SplitDirection::Right | SplitDirection::Down => (axis.members.len() - 1) as nat,
                SplitDirection::Left | SplitDirection::Up => 0,
            };
            axis.axis == direction.along() && axis.members.len() > 0 && paths::shows_at(
                tree,
                seq![end],
                pane,
            )
        },
        leaf => paths::shows(leaf, pane),
    }
}

/// The pane at a border is the one that spans it.
pub proof fn law_border_pane_spans_the_border(
    tree: Tree,
    pane: PaneId,
    direction: SplitDirection,
)
    ensures
        query::border_pane(tree, direction) == Some(pane) <==> spans_border(tree, pane, direction),
{
    if let Tree::Axis(axis) = tree {
        if axis.members.len() > 0 {
            let last: nat = (axis.members.len() - 1) as nat;
            paths::lemma_step(axis, last, Seq::empty());
            assert(seq![last] + Seq::empty() =~= seq![last]);
            paths::lemma_step(axis, 0, Seq::empty());
            assert(seq![0nat] + Seq::empty() =~= seq![0nat]);
        }
    }
}

/// A move takes the pane out as a removal does and puts it along the border: as the outermost
/// member where the rest is an axis that runs that way, else in an axis with the whole rest.
/// A pane that spans the border stays, and so does one that could not be removed.
pub proof fn law_move_is_removal_to_the_border(
    tree: Tree,
    pane: PaneId,
    direction: SplitDirection,
)
    ensures
        ({
            let rest = group::remove_in(tree, pane);
            let after = group::move_in(tree, pane, direction);
            let answer = group::move_answer(tree, pane, direction);
            if spans_border(tree, pane, direction) {
                answer == Ok::<bool, PaneNotFound>(false) && after == tree
            } else {
                &&& answer == group::remove_answer(tree, pane)
                &&& answer != Ok::<bool, PaneNotFound>(true) ==> after == tree
                &&& answer == Ok::<bool, PaneNotFound>(true) ==> {
                    if rest is Axis && rest->Axis_0.axis == direction.along() {
                        let axis = rest->Axis_0;
                        after == Tree::Axis(
                            AxisModel {
                                members: match direction {
                                    SplitDirection::Right | SplitDirection::Down => {
                                        axis.members.push(Tree::Pane(pane))
                                    },
                                    SplitDirection::Left | SplitDirection::Up => {
                                        seq![Tree::Pane(pane)] + axis.members
                                    },
                                },
                                flexes: ones(axis.members.len() + 1),
                                ..axis
                            },
                        )
                    } else {
                        after == new_pair(rest, Tree::Pane(pane), direction)
                    }
                }
            }
        }),
{
    law_border_pane_spans_the_border(tree, pane, direction);
    let rest = group::remove_in(tree, pane);
    lemma_new_pair(rest, Tree::Pane(pane), direction);
    if let Tree::Axis(axis) = rest {
        lemma_ones(axis.members.len() + 1);
        assert(axis.members.insert(0, Tree::Pane(pane)) =~= seq![Tree::Pane(pane)] + axis.members);
        assert(axis.members.insert(axis.members.len() as int, Tree::Pane(pane))
            =~= axis.members.push(Tree::Pane(pane)));
    }
}

/// Panes that share a slot are all there, in order; the visible one is the one asked for, or
/// the last where there are fewer. One pane is no stack, and none is nothing.
pub proof fn law_panes_that_share_a_slot(panes: Seq<PaneId>, active: nat)
    ensures
        panes.len() == 0 <==> edit::slot_of(panes, active) is None,
        panes.len() == 1 ==> edit::slot_of(panes, active) == Some(Tree::Pane(panes[0])),
        panes.len() >= 2 ==> (edit::slot_of(panes, active) matches Some(Tree::Stack(stack))
            && stack.panes == panes && (active < panes.len() ==> stack.active == active) && (active
            >= panes.len() ==> stack.active == panes.len() - 1)),
        edit::clamped_stack(panes, active).panes == panes,
        active < panes.len() ==> edit::clamped_stack(panes, active).active == active,
        panes.len() > 0 && active >= panes.len() ==> edit::clamped_stack(panes, active).active
            == panes.len() - 1,
        panes.len() == 0 ==> edit::clamped_stack(panes, active).active == 0,
{
}

} // verus!
