//! The pane tree: its types, their mathematical models, and what is read off a model.

use vstd::prelude::*;

use crate::pane_group::direction::Axis;
use crate::pane_group::direction::SplitDirection;

verus! {

/// Names a pane.
#[derive(Clone, Copy, PartialEq, Eq, Debug, Structural)]
pub struct PaneId(pub u64);

/// The share of an axis that one member takes, as the bit pattern of a
/// single-precision number. The shares of an axis add up to its member count.
#[derive(Clone, Copy, PartialEq, Eq, Debug, Structural)]
pub struct Flex {
    pub bits: u32,
}

/// The bit pattern of the single-precision number one.
pub const UNIT_FLEX_BITS: u32 = 0x3f80_0000;

/// A painted rectangle; each field is the bit pattern of a single-precision
/// number of pixels.
#[derive(Clone, Copy, PartialEq, Eq, Debug, Structural)]
pub struct PixelBounds {
    pub x: u32,
    pub y: u32,
    pub width: u32,
    pub height: u32,
}

/// Panes that share one slot of the tree; only the one at `active` is visible.
#[derive(Clone, Debug)]
pub struct PaneStack {
    pub panes: Vec<PaneId>,
    pub active: usize,
}

/// Members laid out along an axis, with the share that each takes and the
/// rectangle in which each was last painted.
#[derive(Debug)]
pub struct PaneAxis {
    pub axis: Axis,
    pub members: Vec<Member>,
    pub flexes: Vec<Flex>,
    pub bounding_boxes: Vec<Option<PixelBounds>>,
}

/// A node of the pane tree.
#[derive(Debug)]
pub enum Member {
    Axis(PaneAxis),
    Pane(PaneId),
    /// A stack has at least two panes, and its `active` index names one of them;
    /// [`Member::new_stack`] makes no other.
    Stack(PaneStack),
}

/// What a [`PaneStack`] holds.
#[verifier::ext_equal]
pub struct StackModel {
    pub panes: Seq<PaneId>,
    pub active: nat,
}

/// What a [`PaneAxis`] holds.
#[verifier::ext_equal]
pub struct AxisModel {
    pub axis: Axis,
    pub members: Seq<Tree>,
    pub flexes: Seq<Flex>,
    pub boxes: Seq<Option<PixelBounds>>,
}

/// What a [`Member`] holds.
#[verifier::ext_equal]
pub enum Tree {
    Axis(AxisModel),
    Pane(PaneId),
    Stack(StackModel),
}

impl PaneStack {
    pub open spec fn model(self) -> StackModel {
        StackModel { panes: self.panes@, active: self.active as nat }
    }
}

impl PaneAxis {
    pub open spec fn model(self) -> AxisModel
        decreases self,
    {
        AxisModel {
            axis: self.axis,
            members: Seq::new(
                self.members@.len(),
                |i: int|
                    if 0 <= i < self.members@.len() {
                        self.members@[i].model()
                    } else {
                        arbitrary()
                    },
            ),
            flexes: self.flexes@,
            boxes: self.bounding_boxes@,
        }
    }
}

impl Member {
    pub open spec fn model(self) -> Tree
        decreases self,
    {
        match self {
            Member::Axis(axis) => Tree::Axis(axis.model()),
            Member::Pane(pane) => Tree::Pane(pane),
            Member::Stack(stack) => Tree::Stack(stack.model()),
        }
    }
}

/// The share that every member of a freshly laid out axis takes.
pub open spec fn unit_flex() -> Flex {
    Flex { bits: UNIT_FLEX_BITS }
}

/// Equal shares for `n` members.
pub open spec fn even_flexes(n: nat) -> Seq<Flex> {
    Seq::new(n, |i: int| unit_flex())
}

/// No member of `n` has been painted.
pub open spec fn unpainted(n: nat) -> Seq<Option<PixelBounds>> {
    Seq::new(n, |i: int| None)
}

/// An axis over the given members that has not been painted and gives each the same share.
pub open spec fn fresh_axis(axis: Axis, members: Seq<Tree>) -> AxisModel {
    AxisModel {
        axis,
        members,
        flexes: even_flexes(members.len()),
        boxes: unpainted(members.len()),
    }
}

/// The order of two neighbours, of which `newcomer` lies in `direction` from `settled`.
pub open spec fn side_by_side(settled: Tree, newcomer: Tree, direction: SplitDirection) -> Seq<
    Tree,
> {
    if direction.grows() {
        seq![settled, newcomer]
    } else {
        seq![newcomer, settled]
    }
}

/// An axis of two members, of which `newcomer` lies in `direction` from `settled`.
pub open spec fn pair_axis(settled: Tree, newcomer: Tree, direction: SplitDirection) -> AxisModel {
    fresh_axis(direction.along(), side_by_side(settled, newcomer, direction))
}

/// The pane of a stack that is visible.
pub open spec fn visible_pane(stack: StackModel) -> Option<PaneId> {
    if stack.active < stack.panes.len() {
        Some(stack.panes[stack.active as int])
    } else {
        None
    }
}

/// Every pane of a tree, hidden ones of a stack too, from the first leaf to the last.
pub open spec fn panes(tree: Tree) -> Seq<PaneId>
    decreases tree,
{
    match tree {
        Tree::Axis(axis) => panes_of(axis.members),
        Tree::Pane(pane) => seq![pane],
        Tree::Stack(stack) => stack.panes,
    }
}

/// Every pane of a row of trees, in order.
pub open spec fn panes_of(members: Seq<Tree>) -> Seq<PaneId>
    decreases members,
{
    if members.len() == 0 {
        Seq::empty()
    } else {
        panes_of(members.drop_last()) + panes(members.last())
    }
}

/// Whether a pane stands in a tree, visible or not.
pub open spec fn has_pane(tree: Tree, pane: PaneId) -> bool {
    panes(tree).contains(pane)
}

/// Whether a pane stands no more than once among the given ones.
pub open spec fn stands_once(panes: Seq<PaneId>, pane: PaneId) -> bool {
    forall|i: int, j: int|
        0 <= i < j < panes.len() && #[trigger] panes[i] == pane ==> #[trigger] panes[j] != pane
}

/// The index of the first member in which a pane stands, or the member count.
pub open spec fn first_with(members: Seq<Tree>, pane: PaneId) -> nat
    decreases members.len(),
{
    if members.len() == 0 {
        0
    } else if has_pane(members[0], pane) {
        0
    } else {
        1 + first_with(members.drop_first(), pane)
    }
}

/// What every operation keeps: a stack has two panes or more and shows one of
/// them; an axis has two members or more and a share for each.
pub open spec fn well_formed(tree: Tree) -> bool
    decreases tree,
{
    match tree {
        Tree::Axis(axis) => {
            &&& axis.members.len() >= 2
            &&& axis.flexes.len() == axis.members.len()
            &&& forall|i: int|
                0 <= i < axis.members.len() ==> well_formed(#[trigger] axis.members[i])
        },
        Tree::Pane(_) => true,
        Tree::Stack(stack) => stack.panes.len() >= 2 && stack.active < stack.panes.len(),
    }
}

/// A model shows an axis as it is: its direction, its members in order, the share and the
/// rectangle of each.
pub proof fn law_model_of_an_axis(axis: PaneAxis, i: int)
    ensures
        axis.model().axis == axis.axis,
        axis.model().flexes == axis.flexes@,
        axis.model().boxes == axis.bounding_boxes@,
        axis.model().members.len() == axis.members@.len(),
        0 <= i < axis.members@.len() ==> axis.model().members[i] == axis.members@[i].model(),
{
}

/// A model tells the kinds of member apart, and shows a stack as it is.
pub proof fn law_model_of_a_member(member: Member)
    ensures
        member matches Member::Axis(axis) ==> member.model() == Tree::Axis(axis.model()),
        member matches Member::Pane(pane) ==> member.model() == Tree::Pane(pane),
        member matches Member::Stack(stack) ==> (member.model() matches Tree::Stack(model)
            && model.panes == stack.panes@ && model.active == stack.active),
{
}

proof fn lemma_panes_of_member(members: Seq<Tree>, more: Tree)
    ensures
        panes_of(members.push(more)) == panes_of(members) + panes(more),
{
    assert(members.push(more).drop_last() =~= members);
}

/// The panes of an axis are those of its members, one member after the other; a single pane
/// is one, and a stack has all of its panes, hidden ones too.
pub proof fn law_panes_of_a_tree(axis: AxisModel, more: Tree, pane: PaneId, stack: StackModel)
    ensures
        panes(Tree::Axis(AxisModel { members: Seq::empty(), ..axis })).len() == 0,
        panes(Tree::Axis(AxisModel { members: axis.members.push(more), ..axis })) == panes(
            Tree::Axis(axis),
        ) + panes(more),
        panes(Tree::Pane(pane)) == seq![pane],
        panes(Tree::Stack(stack)) == stack.panes,
{
    lemma_panes_of_member(axis.members, more);
}

/// In a fresh axis each member has a share of one, as the bit pattern of a single-precision
/// number, and no rectangle.
pub proof fn law_shares_of_a_fresh_axis(axis: Axis, members: Seq<Tree>, i: int)
    requires
        0 <= i < members.len(),
    ensures
        fresh_axis(axis, members).axis == axis,
        fresh_axis(axis, members).members == members,
        fresh_axis(axis, members).flexes.len() == members.len(),
        fresh_axis(axis, members).flexes[i].bits == 0x3f80_0000,
        fresh_axis(axis, members).boxes.len() == members.len(),
        fresh_axis(axis, members).boxes[i] is None,
{
}

} // verus!
