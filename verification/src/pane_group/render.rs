//! What of a pane tree is drawn, under which element ids, and where the active pane is.

use vstd::prelude::*;

use crate::pane_group::direction::Axis;
use crate::pane_group::edit;
use crate::pane_group::element;
use crate::pane_group::element::PaneAxisElement;
use crate::pane_group::leader::DecorationModel;
use crate::pane_group::leader::LeaderDecoration;
use crate::pane_group::leader::PaneLeaderDecorator;
use crate::pane_group::query;
use crate::pane_group::tree;
use crate::pane_group::tree::AxisModel;
use crate::pane_group::tree::Member;
use crate::pane_group::tree::PaneAxis;
use crate::pane_group::tree::PaneId;
use crate::pane_group::tree::Tree;

verus! {

/// What is drawn for a member.
#[derive(Debug)]
pub enum RenderPlan {
    /// Nothing: the pane is zoomed and drawn elsewhere, or a stack shows no pane.
    Nothing,
    /// One pane, decorated.
    Pane(PaneId, LeaderDecoration),
    /// The members of an axis.
    Axis(AxisPlan),
}

/// What is drawn for an axis.
#[derive(Debug)]
pub struct AxisPlan {
    pub element: PaneAxisElement,
    pub children: Vec<RenderPlan>,
}

/// What is drawn for a member, and whether the active pane is drawn there.
#[derive(Debug)]
pub struct PaneRenderResult {
    pub element: RenderPlan,
    pub contains_active_pane: bool,
}

/// What a [`RenderPlan`] holds.
#[verifier::ext_equal]
pub enum PlanModel {
    Nothing,
    Pane(PaneId, DecorationModel),
    Axis(AxisPlanModel),
}

/// What an [`AxisPlan`] holds.
#[verifier::ext_equal]
pub struct AxisPlanModel {
    /// The id of the axis element.
    pub basis: nat,
    pub axis: Axis,
    pub children: Seq<PlanModel>,
    /// The child that is the active pane itself.
    pub active_pane_ix: Option<nat>,
    /// The child in which the active pane stands, at any depth.
    pub active_subtree_ix: Option<nat>,
    pub active_pane: Option<PaneId>,
    /// Which children are leaves.
    pub is_leaf_pane: Seq<bool>,
}

/// An index as a natural number.
pub open spec fn index_model(ix: Option<usize>) -> Option<nat> {
    match ix {
        Some(ix) => Some(ix as nat),
        None => None,
    }
}

impl AxisPlan {
    pub open spec fn model(self) -> AxisPlanModel
        decreases self,
    {
        AxisPlanModel {
            basis: self.element.basis as nat,
            axis: self.element.axis,
            children: Seq::new(
                self.children@.len(),
                |i: int|
                    if 0 <= i < self.children@.len() {
                        self.children@[i].model()
                    } else {
                        arbitrary()
                    },
            ),
            active_pane_ix: index_model(self.element.active_pane_ix),
            active_subtree_ix: index_model(self.element.active_subtree_ix),
            active_pane: self.element.active_pane,
            is_leaf_pane: self.element.is_leaf_pane_mask@,
        }
    }
}

impl RenderPlan {
    pub open spec fn model(self) -> PlanModel
        decreases self,
    {
        match self {
            RenderPlan::Nothing => PlanModel::Nothing,
            RenderPlan::Pane(pane, decoration) => PlanModel::Pane(pane, decoration@),
            RenderPlan::Axis(axis) => PlanModel::Axis(axis.model()),
        }
    }
}

/// Whether the active pane is drawn in a tree: as a member of an axis, or by itself where
/// it is not zoomed.
pub open spec fn shows_active(tree: Tree, active: PaneId, zoomed: Option<PaneId>) -> bool
    decreases tree,
{
    match tree {
        Tree::Axis(axis) => exists|i: int|
            0 <= i < axis.members.len() && member_shows_active(#[trigger] axis.members[i], active),
        leaf => query::leaf_pane(leaf) == Some(active) && zoomed != Some(active),
    }
}

/// Whether a member of an axis is the active pane or has it somewhere inside.
pub open spec fn member_shows_active(member: Tree, active: PaneId) -> bool
    decreases member,
{
    match member {
        Tree::Axis(axis) => exists|i: int|
            0 <= i < axis.members.len() && member_shows_active(#[trigger] axis.members[i], active),
        leaf => query::leaf_pane(leaf) == Some(active),
    }
}

/// The last member that is the active pane itself.
pub open spec fn active_leaf_ix(members: Seq<Tree>, active: PaneId) -> Option<nat>
    decreases members.len(),
{
    if members.len() == 0 {
        None
    } else if query::leaf_pane(members.last()) == Some(active) {
        Some((members.len() - 1) as nat)
    } else {
        active_leaf_ix(members.drop_last(), active)
    }
}

/// The member in which the active pane stands: the last that is the pane itself, else the
/// first that has it inside.
pub open spec fn active_member_ix(members: Seq<Tree>, active: PaneId) -> Option<nat>
    decreases members.len(),
{
    if members.len() == 0 {
        None
    } else {
        let earlier = active_member_ix(members.drop_last(), active);
        let here = (members.len() - 1) as nat;
        if query::leaf_pane(members.last()) == Some(active) {
            Some(here)
        } else if earlier is None && member_shows_active(members.last(), active) {
            Some(here)
        } else {
            earlier
        }
    }
}

/// What is drawn for a tree.
pub open spec fn plan_of<D: PaneLeaderDecorator>(
    tree: Tree,
    basis: nat,
    zoomed: Option<PaneId>,
    render_cx: &D,
) -> PlanModel
    decreases tree,
{
    match tree {
        Tree::Axis(axis) => PlanModel::Axis(plan_of_axis(axis, basis + 1, zoomed, render_cx)),
        leaf => match query::leaf_pane(leaf) {
            None => PlanModel::Nothing,
            Some(pane) => if zoomed == Some(pane) {
                PlanModel::Nothing
            } else {
                PlanModel::Pane(pane, render_cx.decoration_of(pane))
            },
        },
    }
}

/// What is drawn for an axis. The children of the element `basis` get ids ten apart.
pub open spec fn plan_of_axis<D: PaneLeaderDecorator>(
    axis: AxisModel,
    basis: nat,
    zoomed: Option<PaneId>,
    render_cx: &D,
) -> AxisPlanModel
    decreases axis,
{
    AxisPlanModel {
        basis,
        axis: axis.axis,
        children: Seq::new(
            axis.members.len(),
            |i: int|
                if 0 <= i < axis.members.len() {
                    plan_of(axis.members[i], child_basis(basis, i as nat), zoomed, render_cx)
                } else {
                    arbitrary()
                },
        ),
        active_pane_ix: active_leaf_ix(axis.members, render_cx.active()),
        active_subtree_ix: active_member_ix(axis.members, render_cx.active()),
        active_pane: Some(render_cx.active()),
        is_leaf_pane: Seq::new(axis.members.len(), |i: int| !(axis.members[i] is Axis)),
    }
}

/// The id from which the elements of a child are numbered.
pub open spec fn child_basis(basis: nat, ix: nat) -> nat {
    (basis + ix) * 10
}

/// Whether the ids of a tree's elements are numbers the machine can hold.
pub open spec fn ids_fit(tree: Tree, basis: nat) -> bool
    decreases tree,
{
    match tree {
        Tree::Axis(axis) => axis_ids_fit(axis, basis + 1),
        Tree::Pane(_) => basis <= usize::MAX,
        Tree::Stack(_) => basis + 1 <= usize::MAX,
    }
}

/// Whether the ids of an axis's elements are numbers the machine can hold.
pub open spec fn axis_ids_fit(axis: AxisModel, basis: nat) -> bool
    decreases axis,
{
    &&& basis <= usize::MAX
    &&& forall|i: int|
        0 <= i < axis.members.len() ==> ids_fit(
            #[trigger] axis.members[i],
            child_basis(basis, i as nat),
        )
}

/// Where the active pane is a member of an axis itself, that member is also the one in
/// which it stands.
pub proof fn law_active_leaf_is_active_member(members: Seq<Tree>, active: PaneId)
    ensures
        active_leaf_ix(members, active) is Some ==> active_member_ix(members, active)
            == active_leaf_ix(members, active),
    decreases members.len(),
{
    if members.len() > 0 {
        law_active_leaf_is_active_member(members.drop_last(), active);
    }
}

/// An axis draws the active pane exactly if one of its members is marked as having it, and
/// the marked member has it.
pub proof fn law_marked_member_shows_active(axis: AxisModel, active: PaneId, zoomed: Option<PaneId>)
    ensures
        shows_active(Tree::Axis(axis), active, zoomed) <==> active_member_ix(
            axis.members,
            active,
        ) is Some,
        active_member_ix(axis.members, active) matches Some(ix) ==> ix < axis.members.len()
            && member_shows_active(axis.members[ix as int], active),
{
    lemma_active_member_ix(axis.members, active);
}

proof fn lemma_active_member_ix(members: Seq<Tree>, active: PaneId)
    ensures
        active_member_ix(members, active) is Some <==> exists|i: int|
            0 <= i < members.len() && member_shows_active(#[trigger] members[i], active),
        active_member_ix(members, active) matches Some(ix) ==> ix < members.len()
            && member_shows_active(members[ix as int], active),
    decreases members.len(),
{
    if members.len() > 0 {
        let rest = members.drop_last();
        lemma_active_member_ix(rest, active);
        if query::leaf_pane(members.last()) == Some(active) {
            assert(member_shows_active(members[members.len() - 1], active));
        }
        if exists|i: int| 0 <= i < members.len() && member_shows_active(
            #[trigger] members[i],
            active,
        ) {
            let i = choose|i: int|
                0 <= i < members.len() && member_shows_active(#[trigger] members[i], active);
            if i < rest.len() {
                assert(member_shows_active(rest[i], active));
            }
        }
        if let Some(ix) = active_member_ix(rest, active) {
            assert(members[ix as int] == rest[ix as int]);
        }
    }
}

/// A pane that a member shows stands in it.
proof fn lemma_shown_pane_stands_in_member(member: Tree, active: PaneId)
    requires
        member_shows_active(member, active),
    ensures
        tree::has_pane(member, active),
    decreases member,
{
    match member {
        Tree::Axis(axis) => {
            let i = choose|i: int|
                0 <= i < axis.members.len() && member_shows_active(
                    #[trigger] axis.members[i],
                    active,
                );
            lemma_shown_pane_stands_in_member(axis.members[i], active);
            edit::lemma_panes_of_contains(axis.members, active);
        },
        Tree::Pane(pane) => {
            assert(tree::panes(member)[0] == pane);
        },
        Tree::Stack(_) => {},
    }
}

/// Where the active pane stands once, it is in one member of an axis only: the one that is
/// marked.
pub proof fn law_active_pane_is_in_one_member(axis: AxisModel, active: PaneId, i: int)
    requires
        tree::stands_once(tree::panes_of(axis.members), active),
        0 <= i < axis.members.len(),
        member_shows_active(axis.members[i], active),
    ensures
        active_member_ix(axis.members, active) == Some(i as nat),
{
    lemma_active_member_ix(axis.members, active);
    let ix = active_member_ix(axis.members, active)->0 as int;
    lemma_shown_pane_stands_in_member(axis.members[i], active);
    lemma_shown_pane_stands_in_member(axis.members[ix], active);
    if ix < i {
        lemma_pane_in_two_members(axis.members, ix, i, active);
    } else if i < ix {
        lemma_pane_in_two_members(axis.members, i, ix, active);
    }
}

/// A pane in two members of a row stands in the row twice.
pub(crate) proof fn lemma_pane_in_two_members(members: Seq<Tree>, i: int, j: int, pane: PaneId)
    requires
        0 <= i < j < members.len(),
        tree::has_pane(members[i], pane),
        tree::has_pane(members[j], pane),
    ensures
        !tree::stands_once(tree::panes_of(members), pane),
    decreases members.len(),
{
    let rest = members.drop_last();
    let head = tree::panes_of(rest);
    let last = tree::panes(members.last());
    let all = tree::panes_of(members);
    assert(all == head + last);
    if j == members.len() - 1 {
        edit::lemma_panes_of_contains(rest, pane);
        assert(tree::has_pane(rest[i], pane));
        let a = head.index_of(pane);
        let b = last.index_of(pane);
        assert(all[a] == pane);
        assert(all[(head.len() + b) as int] == pane);
    } else {
        lemma_pane_in_two_members(rest, i, j, pane);
        let (a, b) = choose|a: int, b: int|
            0 <= a < b < head.len() && #[trigger] head[a] == pane && #[trigger] head[b] == pane;
        assert(all[a] == pane && all[b] == pane);
    }
}

impl Member {
    /// Returns whether the ids of the tree's elements, from `basis` on, are numbers the
    /// machine can hold.
    pub fn element_ids_fit(&self, basis: usize) -> (res: bool)
        ensures
            res == ids_fit(self.model(), basis as nat),
        decreases self,
    {
        match self {
            Member::Pane(_) => true,
            Member::Stack(_) => basis < usize::MAX,
            Member::Axis(axis) => {
                if basis == usize::MAX {
                    return false;
                }
                let from: usize = basis + 1;
                let ghost members = axis.model().members;
                let mut i: usize = 0;
                while i < axis.members.len()
                    invariant
                        i <= axis.members@.len(),
                        from == basis + 1,
                        *self == Member::Axis(*axis),
                        members == axis.model().members,
                        forall|j: int|
                            0 <= j < i ==> ids_fit(
                                #[trigger] members[j],
                                child_basis(from as nat, j as nat),
                            ),
                    decreases axis.members@.len() - i,
                {
                    assert(decreases_to!(self => self->Axis_0));
                    assert(decreases_to!(axis => axis.members@[i as int]));
                    assert(members[i as int] == axis.members@[i as int].model());
                    if i > usize::MAX / 10 || from > usize::MAX / 10 - i {
                        assert(child_basis(from as nat, i as nat) > usize::MAX);
                        assert(!ids_fit(members[i as int], child_basis(from as nat, i as nat)));
                        return false;
                    }
                    if !axis.members[i].element_ids_fit((from + i) * 10) {
                        return false;
                    }
                    i += 1;
                }
                true
            },
        }
    }

    /// What is drawn for the tree, with element ids from `basis` on, where `zoomed` is the
    /// pane that fills the window, if one does.
    pub fn render<D: PaneLeaderDecorator>(
        &self,
        basis: usize,
        zoomed: Option<PaneId>,
        render_cx: &D,
    ) -> (res: PaneRenderResult)
        requires
            ids_fit(self.model(), basis as nat),
        ensures
            res.element.model() == plan_of(self.model(), basis as nat, zoomed, render_cx),
            res.contains_active_pane == shows_active(self.model(), render_cx.active(), zoomed),
        decreases self,
    {
        match self {
            Member::Pane(pane) => render_pane(*pane, zoomed, render_cx),
            Member::Axis(axis) => axis.render(basis + 1, zoomed, render_cx),
            Member::Stack(stack) => {
                if stack.active < stack.panes.len() {
                    render_pane(stack.panes[stack.active], zoomed, render_cx)
                } else {
                    PaneRenderResult { element: RenderPlan::Nothing, contains_active_pane: false }
                }
            },
        }
    }
}

/// What is drawn for a single pane.
fn render_pane<D: PaneLeaderDecorator>(
    pane: PaneId,
    zoomed: Option<PaneId>,
    render_cx: &D,
) -> (res: PaneRenderResult)
    ensures
        res.element.model() == (if zoomed == Some(pane) {
            PlanModel::Nothing
        } else {
            PlanModel::Pane(pane, render_cx.decoration_of(pane))
        }),
        res.contains_active_pane == (pane == render_cx.active() && zoomed != Some(pane)),
{
    if let Some(full) = zoomed {
        if full == pane {
            return PaneRenderResult { element: RenderPlan::Nothing, contains_active_pane: false };
        }
    }
    let decoration = render_cx.decorate(pane);
    PaneRenderResult {
        element: RenderPlan::Pane(pane, decoration),
        contains_active_pane: pane == render_cx.active_pane(),
    }
}

impl PaneAxis {
    /// What is drawn for the axis.
    fn render<D: PaneLeaderDecorator>(
        &self,
        basis: usize,
        zoomed: Option<PaneId>,
        render_cx: &D,
    ) -> (res: PaneRenderResult)
        requires
            axis_ids_fit(self.model(), basis as nat),
        ensures
            res.element.model() == PlanModel::Axis(
                plan_of_axis(self.model(), basis as nat, zoomed, render_cx),
            ),
            res.contains_active_pane == shows_active(
                Tree::Axis(self.model()),
                render_cx.active(),
                zoomed,
            ),
        decreases self,
    {
        let ghost model = self.model();
        let ghost plan = plan_of_axis(model, basis as nat, zoomed, render_cx);
        let active_pane = render_cx.active_pane();
        let mut children: Vec<RenderPlan> = Vec::new();
        let mut is_leaf_pane: Vec<bool> = Vec::new();
        let mut active_pane_ix: Option<usize> = None;
        let mut active_subtree_ix: Option<usize> = None;
        let mut contains_active_pane = false;
        let mut ix: usize = 0;
        while ix < self.members.len()
            invariant
                ix <= self.members@.len(),
                model == self.model(),
                axis_ids_fit(model, basis as nat),
                plan == plan_of_axis(model, basis as nat, zoomed, render_cx),
                active_pane == render_cx.active(),
                children@.len() == ix,
                forall|j: int| 0 <= j < ix ==> (#[trigger] children@[j]).model() == plan.children[j],
                is_leaf_pane@ == plan.is_leaf_pane.take(ix as int),
                index_model(active_pane_ix) == active_leaf_ix(
                    model.members.take(ix as int),
                    active_pane,
                ),
                index_model(active_subtree_ix) == active_member_ix(
                    model.members.take(ix as int),
                    active_pane,
                ),
                contains_active_pane == (active_subtree_ix is Some),
            decreases self.members@.len() - ix,
        {
            proof {
                assert(decreases_to!(self => self.members@[ix as int]));
                assert(model.members[ix as int] == self.members@[ix as int].model());
                assert(model.members.take(ix + 1).drop_last() == model.members.take(ix as int));
                assert(model.members.take(ix + 1).last() == model.members[ix as int]);
            }
            let member = &self.members[ix];
            let leaf = match member {
                Member::Axis(_) => false,
                _ => true,
            };
            is_leaf_pane.push(leaf);
            if let Some(visible) = member.leaf() {
                if visible == active_pane {
                    active_pane_ix = Some(ix);
                    active_subtree_ix = Some(ix);
                    contains_active_pane = true;
                }
            }
            assert(ids_fit(model.members[ix as int], child_basis(basis as nat, ix as nat)));
            let result = member.render((basis + ix) * 10, zoomed, render_cx);
            if result.contains_active_pane {
                contains_active_pane = true;
                if active_subtree_ix.is_none() {
                    active_subtree_ix = Some(ix);
                }
            }
            children.push(result.element);
            proof {
                assert(is_leaf_pane@ == plan.is_leaf_pane.take(ix + 1));
            }
            ix += 1;
        }
        proof {
            assert(model.members.take(ix as int) == model.members);
            law_marked_member_shows_active(model, active_pane, zoomed);
        }
        let element = element::pane_axis(self.axis, basis).with_is_leaf_pane_mask(
            is_leaf_pane,
        ).with_active_pane(active_pane_ix).with_active_subtree(active_subtree_ix, active_pane);
        let axis_plan = AxisPlan { element, children };
        assert(axis_plan.model().children == plan.children);
        assert(axis_plan.model().is_leaf_pane == plan.is_leaf_pane);
        PaneRenderResult { element: RenderPlan::Axis(axis_plan), contains_active_pane }
    }
}

} // verus!
