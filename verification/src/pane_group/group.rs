//! The pane group: a pane tree, and what a workspace asks of it.

use std::collections::HashMap;

use vstd::prelude::*;

use crate::pane_group::direction::Axis;
use crate::pane_group::direction::SplitDirection;
use crate::pane_group::edit;
use crate::pane_group::edit::PaneNotFound;
use crate::pane_group::leader::PaneLeaderDecorator;
use crate::pane_group::query;
use crate::pane_group::render;
use crate::pane_group::render::RenderPlan;
use crate::pane_group::resize;
use crate::pane_group::tree;
use crate::pane_group::tree::AxisModel;
use crate::pane_group::tree::Flex;
use crate::pane_group::tree::Member;
use crate::pane_group::tree::PaneAxis;
use crate::pane_group::tree::PaneId;
use crate::pane_group::tree::PixelBounds;
use crate::pane_group::tree::Tree;

verus! {

broadcast use vstd::std_specs::hash::group_hash_axioms;

/// What panes are told of the group they stand in: whether it is the center group.
pub struct PaneStore {
    in_center_group: HashMap<u64, bool>,
}

impl View for PaneStore {
    type V = Map<PaneId, bool>;

    closed spec fn view(&self) -> Map<PaneId, bool> {
        Map::new(
            |pane: PaneId| self.in_center_group@.contains_key(pane.0),
            |pane: PaneId| self.in_center_group@[pane.0],
        )
    }
}

impl PaneStore {
    /// No pane has been told anything.
    pub fn new() -> (res: PaneStore)
        ensures
            res@ == Map::<PaneId, bool>::empty(),
    {
        let res = PaneStore { in_center_group: HashMap::new() };
        assert(res@ =~= Map::<PaneId, bool>::empty());
        res
    }

    /// What a pane was told last.
    pub fn in_center_group(&self, pane: PaneId) -> (res: Option<bool>)
        ensures
            res == if self@.contains_key(pane) {
                Some(self@[pane])
            } else {
                None
            },
    {
        match self.in_center_group.get(&pane.0) {
            Some(told) => Some(*told),
            None => None,
        }
    }

    /// Tells a pane whether it stands in the center group.
    fn tell(&mut self, pane: PaneId, in_center_group: bool)
        ensures
            final(self)@ == old(self)@.insert(pane, in_center_group),
    {
        self.in_center_group.insert(pane.0, in_center_group);
        assert(self@ =~= old(self)@.insert(pane, in_center_group));
    }
}

/// What panes know once all the given ones were told the same.
pub open spec fn all_told(
    store: Map<PaneId, bool>,
    panes: Seq<PaneId>,
    in_center_group: bool,
) -> Map<PaneId, bool> {
    Map::new(
        |pane: PaneId| store.contains_key(pane) || panes.contains(pane),
        |pane: PaneId|
            if panes.contains(pane) {
                in_center_group
            } else {
                store[pane]
            },
    )
}

impl Member {
    /// Tells every pane of the tree whether it stands in the center group.
    pub fn mark_positions(&self, in_center_group: bool, cx: &mut PaneStore)
        ensures
            final(cx)@ == all_told(old(cx)@, tree::panes(self.model()), in_center_group),
    {
        let mut panes: Vec<PaneId> = Vec::new();
        self.collect_panes(&mut panes);
        assert(panes@ == tree::panes(self.model()));
        assert(cx@ =~= all_told(old(cx)@, panes@.take(0), in_center_group));
        let mut i: usize = 0;
        while i < panes.len()
            invariant
                i <= panes@.len(),
                cx@ == all_told(old(cx)@, panes@.take(i as int), in_center_group),
            decreases panes@.len() - i,
        {
            let ghost told = cx@;
            cx.tell(panes[i], in_center_group);
            proof {
                assert(panes@.take(i + 1) == panes@.take(i as int).push(panes@[i as int]));
                assert forall|pane: PaneId| #[trigger]
                    panes@.take(i + 1).contains(pane) <==> panes@.take(i as int).contains(pane)
                        || pane == panes@[i as int] by {
                    if pane == panes@[i as int] {
                        assert(panes@.take(i + 1)[i as int] == pane);
                    }
                    if panes@.take(i as int).contains(pane) {
                        let k = panes@.take(i as int).index_of(pane);
                        assert(panes@.take(i + 1)[k] == pane);
                    }
                    if panes@.take(i + 1).contains(pane) && pane != panes@[i as int] {
                        let k = panes@.take(i + 1).index_of(pane);
                        assert(panes@.take(i as int)[k] == pane);
                    }
                }
                assert(cx@ =~= all_told(old(cx)@, panes@.take(i + 1), in_center_group));
            }
            i += 1;
        }
        assert(panes@.take(i as int) == panes@);
    }
}

/// One pane or many, arranged by splits. A group of one pane is that pane.
pub struct PaneGroup {
    pub root: Member,
    pub is_center: bool,
}

/// What a pane group holds.
#[verifier::ext_equal]
pub struct GroupModel {
    pub root: Tree,
    pub is_center: bool,
}

impl View for PaneGroup {
    type V = GroupModel;

    open spec fn view(&self) -> GroupModel {
        GroupModel { root: self.root.model(), is_center: self.is_center }
    }
}

/// What panes know once a group has told its own.
pub open spec fn marked(store: Map<PaneId, bool>, group: GroupModel) -> Map<PaneId, bool> {
    all_told(store, tree::panes(group.root), group.is_center)
}

/// A tree after a split of a pane that stands in it.
pub open spec fn split_at(
    tree: Tree,
    old_pane: PaneId,
    new_pane: PaneId,
    direction: SplitDirection,
) -> Tree {
    match tree {
        Tree::Axis(axis) => Tree::Axis(edit::split_axis(axis, old_pane, new_pane, direction)),
        Tree::Pane(pane) => Tree::Axis(
            tree::pair_axis(Tree::Pane(pane), Tree::Pane(new_pane), direction),
        ),
        Tree::Stack(stack) => match edit::without_pane(stack, old_pane) {
            Some(rest) => Tree::Axis(tree::pair_axis(rest, Tree::Pane(new_pane), direction)),
            None => Tree::Pane(new_pane),
        },
    }
}

/// A tree after a split of its first pane. A stack at the root gives way to its visible pane.
pub open spec fn split_first(tree: Tree, new_pane: PaneId, direction: SplitDirection) -> Tree {
    let first = query::first_leaf(tree)->0;
    match tree {
        Tree::Axis(axis) => Tree::Axis(edit::split_axis(axis, first, new_pane, direction)),
        _ => Tree::Axis(tree::pair_axis(Tree::Pane(first), Tree::Pane(new_pane), direction)),
    }
}

/// A tree after a split: of the pane where it stands in the tree, else of the first one.
pub open spec fn split_in(
    tree: Tree,
    old_pane: PaneId,
    new_pane: PaneId,
    direction: SplitDirection,
) -> Tree {
    if tree::has_pane(tree, old_pane) {
        split_at(tree, old_pane, new_pane, direction)
    } else {
        split_first(tree, new_pane, direction)
    }
}

/// What is left of a tree without a pane that stands in it, or `None` where nothing would be.
pub open spec fn removed_from(tree: Tree, pane: PaneId) -> Option<Tree> {
    match tree {
        Tree::Axis(axis) => Some(edit::settled_axis(edit::remove_from_axis(axis, pane))),
        Tree::Pane(_) => None,
        Tree::Stack(stack) => edit::without_pane(stack, pane),
    }
}

/// The answer to a request to remove a pane: an error where it is not in the tree, else
/// whether it was removed.
pub open spec fn remove_answer(tree: Tree, pane: PaneId) -> Result<bool, PaneNotFound> {
    if !tree::has_pane(tree, pane) {
        Err(PaneNotFound)
    } else {
        Ok(removed_from(tree, pane) is Some)
    }
}

/// The tree after a request to remove a pane.
pub open spec fn remove_in(tree: Tree, pane: PaneId) -> Tree {
    if remove_answer(tree, pane) == Ok::<bool, PaneNotFound>(true) {
        removed_from(tree, pane)->0
    } else {
        tree
    }
}

/// A tree with a pane along its whole border on the given side.
pub open spec fn bordered(tree: Tree, pane: PaneId, direction: SplitDirection) -> Tree {
    if tree is Axis && tree->Axis_0.axis == direction.along() {
        let axis = tree->Axis_0;
        let idx: int = if direction.grows() {
            axis.members.len() as int
        } else {
            0
        };
        Tree::Axis(edit::with_pane_at(axis, idx, pane))
    } else {
        Tree::Axis(tree::pair_axis(tree, Tree::Pane(pane), direction))
    }
}

/// The answer to a request to move a pane to a border: an error where it is not in the
/// tree, else whether it was moved. A pane that spans the border already stays.
pub open spec fn move_answer(tree: Tree, pane: PaneId, direction: SplitDirection) -> Result<
    bool,
    PaneNotFound,
> {
    if query::border_pane(tree, direction) == Some(pane) {
        Ok(false)
    } else {
        remove_answer(tree, pane)
    }
}

/// The tree after a request to move a pane to a border.
pub open spec fn move_in(tree: Tree, pane: PaneId, direction: SplitDirection) -> Tree {
    if move_answer(tree, pane, direction) == Ok::<bool, PaneNotFound>(true) {
        bordered(removed_from(tree, pane)->0, pane, direction)
    } else {
        tree
    }
}

/// A group's tree after two panes changed places. The only pane of a group stays.
pub open spec fn swapped(tree: Tree, from: PaneId, to: PaneId) -> Tree {
    match tree {
        Tree::Pane(_) => tree,
        _ => edit::swap_in(tree, from, to),
    }
}

/// A group's tree after a resize.
pub open spec fn resized(
    tree: Tree,
    pane: PaneId,
    along: Axis,
    adjust: spec_fn(AxisModel, nat, nat) -> Option<(Flex, Flex)>,
) -> Tree {
    match tree {
        Tree::Axis(axis) => Tree::Axis(resize::resize_axis(axis, pane, along, adjust).axis),
        leaf => leaf,
    }
}

impl PaneGroup {
    /// A group with the given tree that is not the center group.
    pub fn with_root(root: Member) -> (res: PaneGroup)
        ensures
            res.root == root,
            !res.is_center,
    {
        PaneGroup { root, is_center: false }
    }

    /// A group of one pane that is not the center group.
    pub fn new(pane: PaneId) -> (res: PaneGroup)
        ensures
            res@ == (GroupModel { root: Tree::Pane(pane), is_center: false }),
    {
        PaneGroup { root: Member::Pane(pane), is_center: false }
    }

    /// Makes the group the center group, or not.
    pub fn set_is_center(&mut self, is_center: bool)
        ensures
            final(self)@ == (GroupModel { is_center, ..old(self)@ }),
    {
        self.is_center = is_center;
    }

    /// Makes room for `new_pane` beside `old_pane`, in the given direction. Where
    /// `old_pane` is not in the group, the first pane is split instead.
    pub fn split(
        &mut self,
        old_pane: PaneId,
        new_pane: PaneId,
        direction: SplitDirection,
        cx: &mut PaneStore,
    )
        requires
            tree::has_pane(old(self)@.root, old_pane) || query::first_leaf(
                old(self)@.root,
            ) is Some,
        ensures
            final(self)@ == (GroupModel {
                root: split_in(old(self)@.root, old_pane, new_pane, direction),
                ..old(self)@
            }),
            final(cx)@ == marked(old(cx)@, final(self)@),
    {
        let ghost start = self.root.model();
        proof {
            if let Tree::Axis(axis) = start {
                edit::lemma_first_with(axis.members, old_pane);
            }
            if let Tree::Pane(pane) = start {
                assert(tree::panes(start)[0] == pane);
            }
        }
        let found = match &mut self.root {
            Member::Pane(pane) => {
                if *pane == old_pane {
                    self.root = Member::new_axis(old_pane, new_pane, direction);
                    true
                } else {
                    false
                }
            },
            Member::Axis(axis) => axis.split(old_pane, new_pane, direction),
            Member::Stack(stack) => {
                if edit::holds_pane(&stack.panes, old_pane) {
                    self.root =
                    match edit::collapse_stack_after_removing(stack, old_pane) {
                        Some(rest) => Member::Axis(PaneAxis::pair(rest, new_pane, direction)),
                        None => Member::Pane(new_pane),
                    };
                    true
                } else {
                    false
                }
            },
        };
        if !found {
            assert(self.root.model() == start);
            let first_pane = self.root.first_pane();
            match &mut self.root {
                Member::Axis(axis) => {
                    let _ = axis.split(first_pane, new_pane, direction);
                },
                _ => {
                    self.root = Member::new_axis(first_pane, new_pane, direction);
                },
            }
        }
        self.mark_positions(cx);
    }

    /// The rectangle in which a pane was painted. `None` before it was, and for the only
    /// leaf of a group.
    pub fn bounding_box_for_pane(&self, pane: PaneId) -> (res: Option<PixelBounds>)
        ensures
            res == query::box_in(self@.root, pane),
    {
        match &self.root {
            Member::Axis(axis) => axis.bounding_box_for_pane(pane),
            _ => None,
        }
    }

    /// How many columns of full height the group shows.
    pub fn full_height_column_count(&self) -> (res: usize)
        requires
            query::columns(self@.root) <= usize::MAX,
        ensures
            res == query::columns(self@.root),
    {
        self.root.full_height_column_count()
    }

    /// The visible pane at a point; `contains` tells whether a rectangle contains the point.
    pub fn pane_at_pixel_position<F: Fn(&PixelBounds) -> bool>(&self, contains: &F) -> (res: Option<
        PaneId,
    >)
        requires
            forall|b: PixelBounds| #[trigger] call_requires(contains, (&b,)),
        ensures
            forall|hits: spec_fn(PixelBounds) -> bool| #[trigger]
                query::decides(*contains, hits) ==> res == query::hit_in(self@.root, hits),
    {
        match &self.root {
            Member::Axis(axis) => axis.pane_at_pixel_position(contains),
            leaf => leaf.leaf(),
        }
    }

    /// Moves a pane to span the whole border in the given direction.
    ///
    /// Answers `Ok(true)` where the pane was found and moved, `Ok(false)` where it was
    /// found and not moved, and an error where it was not found.
    pub fn move_to_border(
        &mut self,
        active_pane: PaneId,
        direction: SplitDirection,
        cx: &mut PaneStore,
    ) -> (res: Result<bool, PaneNotFound>)
        ensures
            res == move_answer(old(self)@.root, active_pane, direction),
            final(self)@ == (GroupModel {
                root: move_in(old(self)@.root, active_pane, direction),
                ..old(self)@
            }),
            final(cx)@ == if res == Ok::<bool, PaneNotFound>(true) {
                marked(old(cx)@, final(self)@)
            } else {
                old(cx)@
            },
    {
        if let Some(pane) = self.find_pane_at_border(direction) {
            if pane == active_pane {
                return Ok(false);
            }
        }
        match self.remove_internal(active_pane) {
            Err(error) => {
                return Err(error);
            },
            Ok(removed) => {
                if !removed {
                    return Ok(false);
                }
            },
        }
        let ghost left = self.root.model();
        let inserted = match &mut self.root {
            Member::Axis(axis) => {
                if axis.axis == direction.axis() {
                    let idx: usize = if direction.increasing() {
                        axis.members.len()
                    } else {
                        0
                    };
                    axis.insert_pane(idx, active_pane);
                    true
                } else {
                    false
                }
            },
            _ => false,
        };
        if !inserted {
            let mut root = Member::Pane(active_pane);
            std::mem::swap(&mut root, &mut self.root);
            self.root = Member::Axis(PaneAxis::pair(root, active_pane, direction));
        }
        self.mark_positions(cx);
        Ok(true)
    }

    /// The leaf that spans the whole border in the given direction, if one does.
    pub fn find_pane_at_border(&self, direction: SplitDirection) -> (res: Option<PaneId>)
        ensures
            res == query::border_pane(self@.root, direction),
    {
        match &self.root {
            Member::Axis(axis) => axis.find_pane_at_border(direction),
            leaf => leaf.leaf(),
        }
    }

    /// Removes a pane.
    ///
    /// Answers `Ok(true)` where the pane was found and removed, `Ok(false)` where it was
    /// found and not removed, and an error where it was not found.
    pub fn remove(&mut self, pane: PaneId, cx: &mut PaneStore) -> (res: Result<bool, PaneNotFound>)
        ensures
            res == remove_answer(old(self)@.root, pane),
            final(self)@ == (GroupModel { root: remove_in(old(self)@.root, pane), ..old(self)@ }),
            final(cx)@ == if res == Ok::<bool, PaneNotFound>(true) {
                marked(old(cx)@, final(self)@)
            } else {
                old(cx)@
            },
    {
        let result = self.remove_internal(pane);
        if let Ok(removed) = result {
            if removed {
                self.mark_positions(cx);
            }
        }
        result
    }

    fn remove_internal(&mut self, pane: PaneId) -> (res: Result<bool, PaneNotFound>)
        ensures
            res == remove_answer(old(self)@.root, pane),
            final(self)@ == (GroupModel { root: remove_in(old(self)@.root, pane), ..old(self)@ }),
    {
        let ghost start = self.root.model();
        match &mut self.root {
            Member::Pane(only) => {
                proof {
                    assert(tree::panes(start)[0] == *only);
                }
                if *only == pane {
                    Ok(false)
                } else {
                    Err(PaneNotFound)
                }
            },
            Member::Stack(stack) => {
                if !edit::holds_pane(&stack.panes, pane) {
                    return Err(PaneNotFound);
                }
                match edit::collapse_stack_after_removing(stack, pane) {
                    Some(rest) => {
                        self.root = rest;
                        Ok(true)
                    },
                    None => Ok(false),
                }
            },
            Member::Axis(axis) => {
                match axis.remove(pane) {
                    Ok(Some(last)) => {
                        self.root = last;
                        Ok(true)
                    },
                    Ok(None) => Ok(true),
                    Err(error) => Err(error),
                }
            },
        }
    }

    /// Resizes a pane along an axis: in the axis nearest to the pane that runs the given
    /// way, if there is one, the member that leads to the pane trades shares with a
    /// neighbour. `adjust` is given that axis, the index of the member and the index of the
    /// first of the two neighbours; it returns the new shares of the two, or `None` where
    /// they stay. [`resize::trades_backward`] tells whether the amount counts the other way.
    pub fn resize<F: Fn(&PaneAxis, usize, usize) -> Option<(Flex, Flex)>>(
        &mut self,
        pane: PaneId,
        direction: Axis,
        adjust: &F,
        cx: &mut PaneStore,
    )
        requires
            resize::resizable(old(self)@.root, pane, direction),
            resize::answers(*adjust),
        ensures
            forall|f: spec_fn(AxisModel, nat, nat) -> Option<(Flex, Flex)>| #[trigger]
                resize::adjusts(*adjust, f) ==> final(self)@ == (GroupModel {
                    root: resized(old(self)@.root, pane, direction, f),
                    ..old(self)@
                }),
            final(cx)@ == marked(old(cx)@, final(self)@),
    {
        match &mut self.root {
            Member::Axis(axis) => {
                let _ = axis.resize(pane, direction, adjust);
            },
            _ => {},
        }
        self.mark_positions(cx);
    }

    /// What is drawn for the group, where `zoomed` is the pane that fills the window, if one
    /// does.
    pub fn render<D: PaneLeaderDecorator>(&self, zoomed: Option<PaneId>, render_cx: &D) -> (res:
        RenderPlan)
        requires
            render::ids_fit(self@.root, 0),
        ensures
            res.model() == render::plan_of(self@.root, 0, zoomed, render_cx),
    {
        self.root.render(0, zoomed, render_cx).element
    }

    /// Gives every member of every axis the same share.
    pub fn reset_pane_sizes(&mut self, cx: &mut PaneStore)
        ensures
            final(self)@ == (GroupModel { root: edit::even_in(old(self)@.root), ..old(self)@ }),
            final(cx)@ == marked(old(cx)@, final(self)@),
    {
        self.root.reset_pane_sizes();
        self.mark_positions(cx);
    }

    /// Lets two panes change places. The only pane of a group stays.
    pub fn swap(&mut self, from: PaneId, to: PaneId, cx: &mut PaneStore)
        ensures
            final(self)@ == (GroupModel { root: swapped(old(self)@.root, from, to), ..old(self)@ }),
            final(cx)@ == marked(old(cx)@, final(self)@),
    {
        let single = match &self.root {
            Member::Pane(_) => true,
            _ => false,
        };
        if !single {
            self.root.swap(from, to);
        }
        self.mark_positions(cx);
    }

    /// Tells every pane of the group whether the group is the center group.
    pub fn mark_positions(&self, cx: &mut PaneStore)
        ensures
            final(cx)@ == marked(old(cx)@, self@),
    {
        self.root.mark_positions(self.is_center, cx);
    }

    /// Every pane of the group, the hidden ones of a stack too.
    pub fn panes(&self) -> (res: Vec<PaneId>)
        ensures
            res@ == tree::panes(self@.root),
    {
        let mut panes: Vec<PaneId> = Vec::new();
        self.root.collect_panes(&mut panes);
        assert(panes@ == tree::panes(self@.root));
        panes
    }

    /// The visible pane of the first leaf.
    pub fn first_pane(&self) -> (res: PaneId)
        requires
            query::first_leaf(self@.root) is Some,
        ensures
            Some(res) == query::first_leaf(self@.root),
    {
        self.root.first_pane()
    }

    /// The visible pane of the last leaf.
    pub fn last_pane(&self) -> (res: PaneId)
        requires
            query::last_leaf(self@.root) is Some,
        ensures
            Some(res) == query::last_leaf(self@.root),
    {
        self.root.last_pane()
    }

    /// The visible pane next to a pane in a direction. `beyond` takes the rectangle of that
    /// pane, the direction and another rectangle, and tells whether the other contains the
    /// point just past the pane's edge in the direction.
    pub fn find_pane_in_direction<F: Fn(&PixelBounds, SplitDirection, &PixelBounds) -> bool>(
        &self,
        active_pane: PaneId,
        direction: SplitDirection,
        beyond: &F,
    ) -> (res: Option<PaneId>)
        requires
            forall|a: PixelBounds, b: PixelBounds| #[trigger]
                call_requires(beyond, (&a, direction, &b)),
        ensures
            query::box_in(self@.root, active_pane) is None ==> res is None,
            query::box_in(self@.root, active_pane) matches Some(painted) ==> forall|
                hits: spec_fn(PixelBounds) -> bool,
            |
                (forall|b: PixelBounds, answer: bool| #[trigger]
                    call_ensures(beyond, (&painted, direction, &b), answer) ==> answer == hits(b))
                    ==> res == #[trigger] query::hit_in(self@.root, hits),
    {
        match self.bounding_box_for_pane(active_pane) {
            None => None,
            Some(painted) => {
                let contains = |other: &PixelBounds| -> (answer: bool)
                    ensures
                        call_ensures(beyond, (&painted, direction, other), answer),
                    { beyond(&painted, direction, other) };
                let res = self.pane_at_pixel_position(&contains);
                proof {
                    assert forall|hits: spec_fn(PixelBounds) -> bool|
                        (forall|b: PixelBounds, answer: bool| #[trigger]
                            call_ensures(beyond, (&painted, direction, &b), answer) ==> answer
                                == hits(b)) implies res == #[trigger] query::hit_in(
                        self@.root,
                        hits,
                    ) by {
                        assert(query::decides(contains, hits));
                    }
                }
                res
            },
        }
    }

    /// Turns every axis of the group.
    pub fn invert_axies(&mut self, cx: &mut PaneStore)
        ensures
            final(self)@ == (GroupModel { root: edit::invert_in(old(self)@.root), ..old(self)@ }),
            final(cx)@ == marked(old(cx)@, final(self)@),
    {
        self.root.invert_pane_axies();
        self.mark_positions(cx);
    }
}

} // verus!
