//! Questions to the pane tree.

use vstd::prelude::*;

use crate::pane_group::direction::Axis;
use crate::pane_group::direction::SplitDirection;
use crate::pane_group::tree;
use crate::pane_group::tree::AxisModel;
use crate::pane_group::tree::Member;
use crate::pane_group::tree::PaneAxis;
use crate::pane_group::tree::PaneId;
use crate::pane_group::tree::PaneStack;
use crate::pane_group::tree::PixelBounds;
use crate::pane_group::tree::Tree;

verus! {

/// The visible pane of the first leaf.
pub open spec fn first_leaf(tree: Tree) -> Option<PaneId>
    decreases tree,
{
    match tree {
        Tree::Axis(axis) => if axis.members.len() == 0 {
            None
        } else {
            first_leaf(axis.members[0])
        },
        Tree::Pane(pane) => Some(pane),
        Tree::Stack(stack) => tree::visible_pane(stack),
    }
}

/// The visible pane of the last leaf.
pub open spec fn last_leaf(tree: Tree) -> Option<PaneId>
    decreases tree,
{
    match tree {
        Tree::Axis(axis) => if axis.members.len() == 0 {
            None
        } else {
            last_leaf(axis.members[axis.members.len() - 1])
        },
        Tree::Pane(pane) => Some(pane),
        Tree::Stack(stack) => tree::visible_pane(stack),
    }
}

/// The visible pane of a leaf; an axis has none of its own.
pub open spec fn leaf_pane(tree: Tree) -> Option<PaneId> {
    match tree {
        Tree::Axis(_) => None,
        Tree::Pane(pane) => Some(pane),
        Tree::Stack(stack) => tree::visible_pane(stack),
    }
}

/// The leaf that spans the whole border of an axis on the given side, if one does.
pub open spec fn axis_border_pane(axis: AxisModel, direction: SplitDirection) -> Option<PaneId> {
    if axis.axis != direction.along() || axis.members.len() == 0 {
        None
    } else if direction.grows() {
        leaf_pane(axis.members.last())
    } else {
        leaf_pane(axis.members[0])
    }
}

/// The leaf that spans the whole border of a tree on the given side, if one does.
pub open spec fn border_pane(tree: Tree, direction: SplitDirection) -> Option<PaneId> {
    match tree {
        Tree::Axis(axis) => axis_border_pane(axis, direction),
        _ => leaf_pane(tree),
    }
}

/// How many columns of full height a tree shows.
pub open spec fn columns(tree: Tree) -> nat
    decreases tree,
{
    match tree {
        Tree::Axis(axis) => match axis.axis {
            Axis::Horizontal => if columns_side_by_side(axis.members) == 0 {
                1
            } else {
                columns_side_by_side(axis.members)
            },
            Axis::Vertical => if axis.members.len() == 0 {
                1
            } else {
                columns_of_widest(axis.members)
            },
        },
        _ => 1,
    }
}

/// The columns of a row of trees together.
pub open spec fn columns_side_by_side(members: Seq<Tree>) -> nat
    decreases members,
{
    if members.len() == 0 {
        0
    } else {
        columns_side_by_side(members.drop_last()) + columns(members.last())
    }
}

/// The columns of the widest tree.
pub open spec fn columns_of_widest(members: Seq<Tree>) -> nat
    decreases members,
{
    if members.len() == 0 {
        0
    } else {
        let rest = columns_of_widest(members.drop_last());
        let last = columns(members.last());
        if last > rest {
            last
        } else {
            rest
        }
    }
}

/// The rectangle in which the member at an index was painted, if it was.
pub open spec fn painted_box(axis: AxisModel, i: int) -> Option<PixelBounds> {
    if 0 <= i < axis.boxes.len() {
        axis.boxes[i]
    } else {
        None
    }
}

/// The rectangle of the first leaf, from the member at `i` on, that shows the pane.
/// A leaf that shows it and was not painted ends the search.
pub open spec fn box_from(axis: AxisModel, i: nat, pane: PaneId) -> Option<PixelBounds>
    decreases axis, axis.members.len() - i,
{
    if i >= axis.members.len() {
        None
    } else {
        match axis.members[i as int] {
            Tree::Axis(inner) => match box_from(inner, 0, pane) {
                Some(found) => Some(found),
                None => box_from(axis, i + 1, pane),
            },
            leaf => if leaf_pane(leaf) == Some(pane) {
                painted_box(axis, i as int)
            } else {
                box_from(axis, i + 1, pane)
            },
        }
    }
}

/// The rectangle of a pane. A group of one leaf has none.
pub open spec fn box_in(tree: Tree, pane: PaneId) -> Option<PixelBounds> {
    match tree {
        Tree::Axis(axis) => box_from(axis, 0, pane),
        _ => None,
    }
}

/// The visible pane of the first member, from the one at `i` on, whose rectangle is hit;
/// where that member is an axis, the search goes on inside it alone.
pub open spec fn hit_from(axis: AxisModel, i: nat, hits: spec_fn(PixelBounds) -> bool) -> Option<
    PaneId,
>
    decreases axis, axis.members.len() - i,
{
    if i >= axis.members.len() {
        None
    } else if painted_box(axis, i as int) is Some && hits(painted_box(axis, i as int)->0) {
        match axis.members[i as int] {
            Tree::Axis(inner) => hit_from(inner, 0, hits),
            leaf => leaf_pane(leaf),
        }
    } else {
        hit_from(axis, i + 1, hits)
    }
}

/// The visible pane whose rectangle is hit. A group of one leaf is hit everywhere.
pub open spec fn hit_in(tree: Tree, hits: spec_fn(PixelBounds) -> bool) -> Option<PaneId> {
    match tree {
        Tree::Axis(axis) => hit_from(axis, 0, hits),
        leaf => leaf_pane(leaf),
    }
}

/// A test on rectangles that answers as `hits` does.
pub open spec fn decides<F: Fn(&PixelBounds) -> bool>(
    test: F,
    hits: spec_fn(PixelBounds) -> bool,
) -> bool {
    forall|b: PixelBounds, answer: bool| #[trigger]
        call_ensures(test, (&b,), answer) ==> answer == hits(b)
}

/// A member's columns are among those of its row, and no more than those of the widest.
proof fn lemma_columns_of_member(members: Seq<Tree>, i: int)
    requires
        0 <= i < members.len(),
    ensures
        columns(members[i]) <= columns_side_by_side(members),
        columns(members[i]) <= columns_of_widest(members),
    decreases members.len(),
{
    if i < members.len() - 1 {
        lemma_columns_of_member(members.drop_last(), i);
    }
}

/// The first members of a row have no more columns than the row.
proof fn lemma_columns_of_prefix(members: Seq<Tree>, i: int)
    requires
        0 <= i <= members.len(),
    ensures
        columns_side_by_side(members.take(i)) <= columns_side_by_side(members),
    decreases members.len(),
{
    if i < members.len() {
        lemma_columns_of_prefix(members.drop_last(), i);
        assert(members.drop_last().take(i) == members.take(i));
    } else {
        assert(members.take(i) == members);
    }
}

/// A tree shows at least one column.
pub proof fn law_at_least_one_column(tree: Tree)
    ensures
        columns(tree) >= 1,
    decreases tree,
{
    if let Tree::Axis(axis) = tree {
        if axis.members.len() > 0 {
            law_at_least_one_column(axis.members[0]);
            lemma_columns_of_member(axis.members, 0);
        }
    }
}

impl PaneStack {
    /// The pane that is visible, if the stack shows one.
    fn visible(&self) -> (res: Option<PaneId>)
        ensures
            res == tree::visible_pane(self.model()),
    {
        if self.active < self.panes.len() {
            Some(self.panes[self.active])
        } else {
            None
        }
    }
}

impl Member {
    /// The visible pane of a leaf. Callers walk into an axis themselves.
    pub fn active_pane(&self) -> (res: PaneId)
        requires
            leaf_pane(self.model()) is Some,
        ensures
            Some(res) == leaf_pane(self.model()),
    {
        match self {
            Member::Pane(pane) => *pane,
            Member::Stack(stack) => stack.panes[stack.active],
            Member::Axis(_) => vstd::pervasive::unreached(),
        }
    }

    /// The visible pane of a leaf, if it is one and shows one.
    pub(crate) fn leaf(&self) -> (res: Option<PaneId>)
        ensures
            res == leaf_pane(self.model()),
    {
        match self {
            Member::Pane(pane) => Some(*pane),
            Member::Stack(stack) => stack.visible(),
            Member::Axis(_) => None,
        }
    }

    /// The visible pane of the first leaf.
    pub fn first_pane(&self) -> (res: PaneId)
        requires
            first_leaf(self.model()) is Some,
        ensures
            Some(res) == first_leaf(self.model()),
        decreases self,
    {
        match self {
            Member::Axis(axis) => {
                assert(axis.model().members[0] == axis.members@[0].model());
                axis.members[0].first_pane()
            },
            Member::Pane(pane) => *pane,
            Member::Stack(stack) => stack.panes[stack.active],
        }
    }

    /// The visible pane of the last leaf.
    pub fn last_pane(&self) -> (res: PaneId)
        requires
            last_leaf(self.model()) is Some,
        ensures
            Some(res) == last_leaf(self.model()),
        decreases self,
    {
        match self {
            Member::Axis(axis) => {
                let last: usize = axis.members.len() - 1;
                assert(axis.model().members[last as int] == axis.members@[last as int].model());
                axis.members[last].last_pane()
            },
            Member::Pane(pane) => *pane,
            Member::Stack(stack) => stack.panes[stack.active],
        }
    }

    /// Appends every pane, the hidden ones of a stack too.
    pub fn collect_panes(&self, panes: &mut Vec<PaneId>)
        ensures
            final(panes)@ == old(panes)@ + tree::panes(self.model()),
        decreases self,
    {
        match self {
            Member::Axis(axis) => {
                let ghost members = axis.model().members;
                let mut i: usize = 0;
                while i < axis.members.len()
                    invariant
                        i <= axis.members@.len(),
                        members == axis.model().members,
                        panes@ == old(panes)@ + tree::panes_of(members.take(i as int)),
                        decreases_to!(self => axis),
                    decreases axis.members@.len() - i,
                {
                    assert(decreases_to!(axis => axis.members@[i as int]));
                    axis.members[i].collect_panes(panes);
                    assert(members.take(i + 1).drop_last() == members.take(i as int));
                    i += 1;
                }
                assert(members.take(i as int) == members);
            },
            Member::Pane(pane) => {
                panes.push(*pane);
            },
            Member::Stack(stack) => {
                let mut i: usize = 0;
                while i < stack.panes.len()
                    invariant
                        i <= stack.panes@.len(),
                        panes@ == old(panes)@ + stack.panes@.take(i as int),
                    decreases stack.panes@.len() - i,
                {
                    panes.push(stack.panes[i]);
                    i += 1;
                }
            },
        }
    }

    /// How many columns of full height the tree shows.
    pub fn full_height_column_count(&self) -> (res: usize)
        requires
            columns(self.model()) <= usize::MAX,
        ensures
            res == columns(self.model()),
        decreases self,
    {
        match self {
            Member::Axis(axis) => axis.full_height_column_count(),
            Member::Pane(_) => 1,
            Member::Stack(_) => 1,
        }
    }
}

impl PaneAxis {
    /// How many columns of full height the axis shows.
    fn full_height_column_count(&self) -> (res: usize)
        requires
            columns(Tree::Axis(self.model())) <= usize::MAX,
        ensures
            res == columns(Tree::Axis(self.model())),
        decreases self,
    {
        let ghost members = self.model().members;
        let mut together: usize = 0;
        let mut widest: usize = 0;
        let mut i: usize = 0;
        while i < self.members.len()
            invariant
                i <= self.members@.len(),
                members == self.model().members,
                columns(Tree::Axis(self.model())) <= usize::MAX,
                self.axis == Axis::Horizontal ==> together == columns_side_by_side(
                    members.take(i as int),
                ),
                self.axis == Axis::Vertical ==> widest == columns_of_widest(members.take(i as int)),
            decreases self.members@.len() - i,
        {
            proof {
                assert(decreases_to!(self => self.members@[i as int]));
                assert(members[i as int] == self.members@[i as int].model());
                lemma_columns_of_member(members, i as int);
                lemma_columns_of_prefix(members, i + 1);
                assert(members.take(i + 1).drop_last() == members.take(i as int));
            }
            let count = self.members[i].full_height_column_count();
            match self.axis {
                Axis::Horizontal => {
                    together = together + count;
                },
                Axis::Vertical => {
                    if count > widest {
                        widest = count;
                    }
                },
            }
            i += 1;
        }
        assert(members.take(i as int) == members);
        match self.axis {
            Axis::Horizontal => if together > 1 {
                together
            } else {
                1
            },
            Axis::Vertical => if self.members.len() == 0 {
                1
            } else {
                widest
            },
        }
    }

    /// The leaf that spans the whole border on the given side, if one does.
    pub(crate) fn find_pane_at_border(&self, direction: SplitDirection) -> (res: Option<PaneId>)
        ensures
            res == axis_border_pane(self.model(), direction),
    {
        let len = self.members.len();
        if self.axis != direction.axis() || len == 0 {
            return None;
        }
        let idx: usize = if direction.increasing() {
            len - 1
        } else {
            0
        };
        assert(self.model().members[idx as int] == self.members@[idx as int].model());
        self.members[idx].leaf()
    }

    /// The rectangle in which the member at an index was painted, if it was.
    fn box_at(&self, idx: usize) -> (res: Option<PixelBounds>)
        ensures
            res == painted_box(self.model(), idx as int),
    {
        if idx < self.bounding_boxes.len() {
            self.bounding_boxes[idx]
        } else {
            None
        }
    }

    /// The rectangle of the first leaf that shows the pane.
    pub(crate) fn bounding_box_for_pane(&self, pane: PaneId) -> (res: Option<PixelBounds>)
        ensures
            res == box_from(self.model(), 0, pane),
        decreases self,
    {
        let ghost model = self.model();
        let mut i: usize = 0;
        while i < self.members.len()
            invariant
                i <= self.members@.len(),
                model == self.model(),
                box_from(model, 0, pane) == box_from(model, i as nat, pane),
            decreases self.members@.len() - i,
        {
            assert(decreases_to!(self => self.members@[i as int]));
            assert(model.members[i as int] == self.members@[i as int].model());
            match &self.members[i] {
                Member::Axis(axis) => {
                    if let Some(found) = axis.bounding_box_for_pane(pane) {
                        return Some(found);
                    }
                },
                leaf => {
                    if let Some(visible) = leaf.leaf() {
                        if visible == pane {
                            return self.box_at(i);
                        }
                    }
                },
            }
            i += 1;
        }
        None
    }

    /// The visible pane of the first member whose rectangle passes the test.
    pub(crate) fn pane_at_pixel_position<F: Fn(&PixelBounds) -> bool>(&self, contains: &F) -> (res:
        Option<PaneId>)
        requires
            forall|b: PixelBounds| #[trigger] call_requires(contains, (&b,)),
        ensures
            forall|hits: spec_fn(PixelBounds) -> bool| #[trigger]
                decides(*contains, hits) ==> res == hit_from(self.model(), 0, hits),
        decreases self,
    {
        let ghost model = self.model();
        let mut i: usize = 0;
        while i < self.members.len()
            invariant
                i <= self.members@.len(),
                model == self.model(),
                forall|b: PixelBounds| #[trigger] call_requires(contains, (&b,)),
                forall|hits: spec_fn(PixelBounds) -> bool| #[trigger]
                    decides(*contains, hits) ==> hit_from(model, 0, hits) == hit_from(
                        model,
                        i as nat,
                        hits,
                    ),
            decreases self.members@.len() - i,
        {
            assert(decreases_to!(self => self.members@[i as int]));
            assert(model.members[i as int] == self.members@[i as int].model());
            if let Some(painted) = self.box_at(i) {
                if contains(&painted) {
                    return match &self.members[i] {
                        Member::Axis(axis) => axis.pane_at_pixel_position(contains),
                        leaf => leaf.leaf(),
                    };
                }
            }
            i += 1;
        }
        None
    }
}

} // verus!
