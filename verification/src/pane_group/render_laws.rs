//! What is drawn for a tree, told node by node.

use vstd::prelude::*;

use crate::pane_group::leader::PaneLeaderDecorator;
use crate::pane_group::paths;
use crate::pane_group::query;
use crate::pane_group::render;
use crate::pane_group::render::AxisPlan;
use crate::pane_group::render::PlanModel;
use crate::pane_group::render::RenderPlan;
use crate::pane_group::tree::AxisModel;
use crate::pane_group::tree::PaneId;
use crate::pane_group::tree::Tree;

verus! {

/// What is drawn where a path leads to; each step is the index of a child.
pub open spec fn plan_at(plan: PlanModel, path: Seq<nat>) -> Option<PlanModel>
    decreases path.len(),
{
    if path.len() == 0 {
        Some(plan)
    } else {
        match plan {
            PlanModel::Axis(axis) => if path[0] < axis.children.len() {
                plan_at(axis.children[path[0] as int], path.drop_first())
            } else {
                None
            },
            _ => None,
        }
    }
}

/// Whether a pane is shown somewhere in a tree.
pub open spec fn shown_inside(tree: Tree, pane: PaneId) -> bool {
    exists|path: Seq<nat>| #[trigger] paths::shows_at(tree, path, pane)
}

/// Whether an axis is drawn as it is: along its direction, a child for each member, with the
/// leaves told from the axes, and with the active pane marked where it stands.
pub open spec fn drawn_as_it_is(
    axis: AxisModel,
    drawn: render::AxisPlanModel,
    active: PaneId,
) -> bool {
    &&& drawn.axis == axis.axis
    &&& drawn.children.len() == axis.members.len()
    &&& drawn.active_pane == Some(active)
    &&& drawn.is_leaf_pane.len() == axis.members.len()
    &&& forall|k: int|
        0 <= k < axis.members.len() ==> #[trigger] drawn.is_leaf_pane[k] == !(
        axis.members[k] is Axis)
    &&& drawn.active_pane_ix matches Some(ix) ==> ix < axis.members.len() && paths::shows(
        axis.members[ix as int],
        active,
    )
    &&& drawn.active_subtree_ix matches Some(ix) ==> ix < axis.members.len() && shown_inside(
        axis.members[ix as int],
        active,
    )
    &&& forall|k: int|
        0 <= k < axis.members.len() && paths::shows(#[trigger] axis.members[k], active) ==> {
            drawn.active_pane_ix matches Some(ix) && k <= ix && drawn.active_subtree_ix == Some(ix)
        }
    &&& forall|k: int|
        0 <= k < axis.members.len() && shown_inside(#[trigger] axis.members[k], active) ==> {
            drawn.active_subtree_ix matches Some(ix) && (drawn.active_pane_ix is None ==> ix <= k)
        }
}

/// Whether a leaf is drawn as it is: its visible pane, decorated, unless that is zoomed.
pub open spec fn leaf_drawn<D: PaneLeaderDecorator>(
    leaf: Tree,
    drawn: PlanModel,
    zoomed: Option<PaneId>,
    render_cx: &D,
) -> bool {
    &&& forall|pane: PaneId| #[trigger]
        paths::shows(leaf, pane) ==> drawn == (if zoomed == Some(pane) {
            PlanModel::Nothing
        } else {
            PlanModel::Pane(pane, render_cx.decoration_of(pane))
        })
    &&& (forall|pane: PaneId| !#[trigger] paths::shows(leaf, pane)) ==> drawn == PlanModel::Nothing
}

/// A member has the active pane exactly if a path inside it leads there.
proof fn lemma_member_shows(member: Tree, active: PaneId)
    ensures
        render::member_shows_active(member, active) <==> shown_inside(member, active),
    decreases member,
{
    match member {
        Tree::Axis(axis) => {
            assert forall|i: int| 0 <= i < axis.members.len() implies
                render::member_shows_active(#[trigger] axis.members[i], active) == shown_inside(
                axis.members[i],
                active,
            ) by {
                lemma_member_shows(axis.members[i], active);
            }
            if render::member_shows_active(member, active) {
                let i = choose|i: int|
                    0 <= i < axis.members.len() && render::member_shows_active(
                        #[trigger] axis.members[i],
                        active,
                    );
                let rest = choose|path: Seq<nat>| #[trigger]
                    paths::shows_at(axis.members[i], path, active);
                paths::lemma_step(axis, i as nat, rest);
                assert(paths::shows_at(member, seq![i as nat] + rest, active));
            }
            if shown_inside(member, active) {
                let path = choose|path: Seq<nat>| #[trigger]
                    paths::shows_at(member, path, active);
                assert(path.len() > 0);
                let i = path[0] as int;
                assert(paths::shows_at(axis.members[i], path.drop_first(), active));
                assert(shown_inside(axis.members[i], active));
            }
        },
        leaf => {
            if render::member_shows_active(member, active) {
                assert(paths::shows_at(member, Seq::empty(), active));
            }
            if shown_inside(member, active) {
                let path = choose|path: Seq<nat>| #[trigger]
                    paths::shows_at(member, path, active);
                assert(path.len() == 0);
            }
        },
    }
}

proof fn lemma_active_leaf(members: Seq<Tree>, active: PaneId)
    ensures
        render::active_leaf_ix(members, active) matches Some(ix) ==> ix < members.len()
            && paths::shows(members[ix as int], active),
        forall|k: int|
            0 <= k < members.len() && paths::shows(#[trigger] members[k], active) ==> (
            render::active_leaf_ix(members, active) matches Some(ix) && k <= ix),
    decreases members.len(),
{
    if members.len() > 0 {
        let rest = members.drop_last();
        lemma_active_leaf(rest, active);
        assert forall|k: int|
            0 <= k < members.len() && paths::shows(#[trigger] members[k], active) implies (
        render::active_leaf_ix(members, active) matches Some(ix) && k <= ix) by {
            if k < rest.len() {
                assert(rest[k] == members[k]);
            }
        }
    }
}

proof fn lemma_active_member(members: Seq<Tree>, active: PaneId)
    ensures
        render::active_member_ix(members, active) matches Some(ix) ==> ix < members.len()
            && shown_inside(members[ix as int], active),
        forall|k: int|
            0 <= k < members.len() && shown_inside(#[trigger] members[k], active) ==> (
            render::active_member_ix(members, active) matches Some(ix) && (render::active_leaf_ix(
                members,
                active,
            ) is None ==> ix <= k)),
    decreases members.len(),
{
    if members.len() > 0 {
        let rest = members.drop_last();
        lemma_active_member(rest, active);
        lemma_member_shows(members.last(), active);
        if query::leaf_pane(members.last()) == Some(active) {
            assert(render::member_shows_active(members.last(), active));
        }
        assert forall|k: int|
            0 <= k < members.len() && shown_inside(#[trigger] members[k], active) implies (
        render::active_member_ix(members, active) matches Some(ix) && (render::active_leaf_ix(
            members,
            active,
        ) is None ==> ix <= k)) by {
            if k < rest.len() {
                assert(rest[k] == members[k]);
            }
        }
    }
}

proof fn lemma_axis_drawn<D: PaneLeaderDecorator>(
    axis: AxisModel,
    basis: nat,
    zoomed: Option<PaneId>,
    render_cx: &D,
)
    ensures
        drawn_as_it_is(
            axis,
            render::plan_of_axis(axis, basis, zoomed, render_cx),
            render_cx.active(),
        ),
{
    let active = render_cx.active();
    lemma_active_leaf(axis.members, active);
    lemma_active_member(axis.members, active);
    render::law_active_leaf_is_active_member(axis.members, active);
}

/// What is drawn has the shape of the tree: wherever a path leads, an axis is drawn as it is,
/// and a leaf as its visible pane with its decoration, unless that pane is zoomed.
pub proof fn law_drawing_mirrors_the_tree<D: PaneLeaderDecorator>(
    tree: Tree,
    basis: nat,
    zoomed: Option<PaneId>,
    render_cx: &D,
    path: Seq<nat>,
)
    ensures
        match (
            paths::node_at(tree, path),
            plan_at(render::plan_of(tree, basis, zoomed, render_cx), path),
        ) {
            (None, None) => true,
            (Some(Tree::Axis(axis)), Some(PlanModel::Axis(drawn))) => drawn_as_it_is(
                axis,
                drawn,
                render_cx.active(),
            ),
            (Some(leaf), Some(drawn)) => leaf !is Axis && leaf_drawn(
                leaf,
                drawn,
                zoomed,
                render_cx,
            ),
            _ => false,
        },
    decreases path.len(),
{
    if path.len() == 0 {
        match tree {
            Tree::Axis(axis) => lemma_axis_drawn(axis, basis + 1, zoomed, render_cx),
            Tree::Pane(pane) => {
                assert(paths::shows(tree, pane));
            },
            Tree::Stack(stack) => {
                if stack.active < stack.panes.len() {
                    assert(paths::shows(tree, stack.panes[stack.active as int]));
                }
            },
        }
    } else if let Tree::Axis(axis) = tree {
        if path[0] < axis.members.len() {
            law_drawing_mirrors_the_tree(
                axis.members[path[0] as int],
                render::child_basis(basis + 1, path[0]),
                zoomed,
                render_cx,
                path.drop_first(),
            );
        }
    }
}

/// The active pane is drawn exactly if it is shown: anywhere in an axis, or alone and not
/// zoomed.
pub proof fn law_active_pane_is_drawn(tree: Tree, active: PaneId, zoomed: Option<PaneId>)
    ensures
        render::shows_active(tree, active, zoomed) <==> shown_inside(tree, active) && (tree is Axis
            || zoomed != Some(active)),
{
    lemma_member_shows(tree, active);
}

/// The axis at the root is numbered one past the base; a child of an axis that is an axis
/// itself has the number of that axis and its own index, added, and a one behind it.
pub proof fn law_axes_are_numbered<D: PaneLeaderDecorator>(
    axis: AxisModel,
    basis: nat,
    zoomed: Option<PaneId>,
    render_cx: &D,
    k: int,
)
    requires
        0 <= k < axis.members.len(),
        axis.members[k] is Axis,
    ensures
        ({
            let plan = render::plan_of(Tree::Axis(axis), basis, zoomed, render_cx);
            let child = plan->Axis_0.children[k];
            &&& plan->Axis_0.basis == basis + 1
            &&& child->Axis_0.basis == 10 * (basis + 1 + k) + 1
        }),
{
    let inner = axis.members[k]->Axis_0;
    let number = render::child_basis(basis + 1, k as nat);
    let child = render::plan_of(axis.members[k], number, zoomed, render_cx);
    assert(child == PlanModel::Axis(
        render::plan_of_axis(inner, number + 1, zoomed, render_cx),
    ));
    assert(render::plan_of_axis(axis, basis + 1, zoomed, render_cx).children[k] == child);
}

/// A model shows what is drawn for an axis as it is.
pub proof fn law_model_of_an_axis_plan(plan: AxisPlan, i: int)
    ensures
        plan.model().basis == plan.element.basis,
        plan.model().axis == plan.element.axis,
        plan.model().active_pane == plan.element.active_pane,
        plan.model().is_leaf_pane == plan.element.is_leaf_pane_mask@,
        plan.model().active_pane_ix is Some <==> plan.element.active_pane_ix is Some,
        plan.element.active_pane_ix matches Some(ix) ==> plan.model().active_pane_ix == Some(
            ix as nat,
        ),
        plan.model().active_subtree_ix is Some <==> plan.element.active_subtree_ix is Some,
        plan.element.active_subtree_ix matches Some(ix) ==> plan.model().active_subtree_ix == Some(
            ix as nat,
        ),
        plan.model().children.len() == plan.children@.len(),
        0 <= i < plan.children@.len() ==> plan.model().children[i] == plan.children@[i].model(),
{
}

/// A model tells apart what is drawn for a pane, for an axis and for nothing.
pub proof fn law_model_of_a_plan(plan: RenderPlan)
    ensures
        plan is Nothing ==> plan.model() is Nothing,
        plan matches RenderPlan::Pane(pane, decoration) ==> plan.model() == PlanModel::Pane(
            pane,
            decoration@,
        ),
        plan matches RenderPlan::Axis(axis) ==> plan.model() == PlanModel::Axis(axis.model()),
{
}

} // verus!
