//! Which axis a resize of a pane acts on, and at which member.

use vstd::prelude::*;

use crate::pane_group::direction::Axis;
use crate::pane_group::edit;
use crate::pane_group::query;
use crate::pane_group::tree;
use crate::pane_group::tree::AxisModel;
use crate::pane_group::tree::Flex;
use crate::pane_group::tree::Member;
use crate::pane_group::tree::PaneAxis;
use crate::pane_group::tree::PaneId;
use crate::pane_group::tree::Tree;

verus! {

/// The index of the first leaf among the members that shows the pane, or the member count.
pub open spec fn leaf_index(members: Seq<Tree>, pane: PaneId) -> nat
    decreases members.len(),
{
    if members.len() == 0 {
        0
    } else if query::leaf_pane(members[0]) == Some(pane) {
        0
    } else {
        1 + leaf_index(members.drop_first(), pane)
    }
}

/// What a resize finds and leaves behind.
///
/// `done` is `None` where the axis does not show the pane, `Some(false)` where it does
/// but nothing on the way to the pane runs along the asked axis, and `Some(true)` where
/// the shares of one axis on that way were adjusted.
#[verifier::ext_equal]
pub struct Resized {
    pub done: Option<bool>,
    pub axis: AxisModel,
}

/// An axis whose shares were adjusted at the member at `idx`.
pub open spec fn adjusted_at(
    axis: AxisModel,
    idx: nat,
    adjust: spec_fn(AxisModel, nat, nat) -> Option<(Flex, Flex)>,
) -> Resized {
    let first = traded_pair(axis.flexes.len(), idx);
    let flexes = match adjust(axis, idx, first) {
        None => axis.flexes,
        Some((share, next)) => axis.flexes.update(first as int, share).update(
            first as int + 1,
            next,
        ),
    };
    Resized { done: Some(true), axis: AxisModel { flexes, ..axis } }
}

/// The first of the two neighbours that trade shares when the member at `idx` of `count`
/// is resized: the member itself and the next one, or, for the last member, the one
/// before it and the member.
pub open spec fn traded_pair(count: nat, idx: nat) -> nat {
    if idx + 1 == count {
        (idx - 1) as nat
    } else {
        idx
    }
}

/// Whether a member gains by what the first of the two neighbours loses: it is the second
/// of them, so that the amount by which it is resized counts the other way.
pub open spec fn is_backward(idx: nat, first: nat) -> bool {
    first < idx
}

/// Returns whether the amount by which the member at `ix` is resized counts the other way,
/// where `first` is the first of the two neighbours that trade shares.
pub fn trades_backward(ix: usize, first: usize) -> (res: bool)
    ensures
        res == is_backward(ix as nat, first as nat),
{
    first < ix
}

/// The amount counts the other way for the last member, which trades with the one before
/// it, and for no other; either way the member is one of the two that trade.
pub proof fn law_last_member_trades_backward(count: nat, idx: nat)
    requires
        idx < count,
        count >= 2,
    ensures
        is_backward(idx, traded_pair(count, idx)) <==> idx + 1 == count,
        idx + 1 == count ==> traded_pair(count, idx) + 1 == idx,
        idx + 1 < count ==> traded_pair(count, idx) == idx,
        traded_pair(count, idx) + 1 < count,
{
}

/// Whether the member at `idx` has a share, and there is another share to trade with.
pub open spec fn can_trade(axis: AxisModel, idx: nat) -> bool {
    idx < axis.flexes.len() && axis.flexes.len() >= 2
}

/// Whether the pane is shown in an axis, and whether an axis on the way to it runs along
/// `along`.
pub open spec fn found_in(axis: AxisModel, pane: PaneId, along: Axis) -> Option<bool>
    decreases axis, axis.members.len() + 1,
{
    if leaf_index(axis.members, pane) < axis.members.len() {
        Some(axis.axis == along)
    } else {
        found_inside(axis, 0, false, pane, along)
    }
}

/// Whether a pane that no leaf of the axis shows is shown deeper down, from the member at `i`
/// on; `under` tells whether it is before `i`, without an axis that runs along `along`.
pub open spec fn found_inside(
    axis: AxisModel,
    i: nat,
    under: bool,
    pane: PaneId,
    along: Axis,
) -> Option<bool>
    decreases axis, axis.members.len() - i,
{
    if i >= axis.members.len() {
        if under {
            Some(true)
        } else {
            None
        }
    } else if let Tree::Axis(inner) = axis.members[i as int] {
        match found_in(inner, pane, along) {
            None => found_inside(axis, i + 1, under, pane, along),
            Some(true) => Some(true),
            Some(false) => if axis.axis == along {
                found_inside(axis, i + 1, true, pane, along)
            } else {
                Some(false)
            },
        }
    } else {
        found_inside(axis, i + 1, under, pane, along)
    }
}

/// Whether the axis that a resize acts on, if there is one, has shares to trade.
pub open spec fn is_ready(axis: AxisModel, pane: PaneId, along: Axis) -> bool
    decreases axis, axis.members.len() + 1,
{
    let idx = leaf_index(axis.members, pane);
    if idx < axis.members.len() {
        axis.axis == along ==> can_trade(axis, idx)
    } else {
        is_ready_inside(axis, 0, None, pane, along)
    }
}

/// Whether the axis that a resize acts on has shares to trade, where no leaf of the axis
/// shows the pane, from the member at `i` on; `under` is as for [`resize_inside`].
pub open spec fn is_ready_inside(
    axis: AxisModel,
    i: nat,
    under: Option<nat>,
    pane: PaneId,
    along: Axis,
) -> bool
    decreases axis, axis.members.len() - i,
{
    if i >= axis.members.len() {
        under matches Some(idx) ==> can_trade(axis, idx)
    } else if let Tree::Axis(inner) = axis.members[i as int] {
        match found_in(inner, pane, along) {
            None => is_ready_inside(axis, i + 1, under, pane, along),
            Some(true) => is_ready(inner, pane, along),
            Some(false) => axis.axis == along ==> is_ready_inside(
                axis,
                i + 1,
                Some(i),
                pane,
                along,
            ),
        }
    } else {
        is_ready_inside(axis, i + 1, under, pane, along)
    }
}

/// Whether a pane of a tree can be resized along an axis: the axis of the tree that is acted
/// on, if there is one, has a share for the member and another one to trade with.
pub open spec fn resizable(tree: Tree, pane: PaneId, along: Axis) -> bool {
    tree matches Tree::Axis(axis) ==> is_ready(axis, pane, along)
}

/// Every pane of a well-formed tree can be resized.
pub proof fn law_well_formed_tree_is_resizable(tree: Tree, pane: PaneId, along: Axis)
    requires
        tree::well_formed(tree),
    ensures
        resizable(tree, pane, along),
    decreases tree, 1nat, 0nat,
{
    if let Tree::Axis(axis) = tree {
        lemma_well_formed_inside(tree, axis, 0, None, pane, along);
    }
}

proof fn lemma_well_formed_inside(
    tree: Tree,
    axis: AxisModel,
    i: nat,
    under: Option<nat>,
    pane: PaneId,
    along: Axis,
)
    requires
        tree::well_formed(tree),
        tree == Tree::Axis(axis),
        i <= axis.members.len(),
        under matches Some(idx) ==> idx < axis.members.len(),
    ensures
        is_ready_inside(axis, i, under, pane, along),
    decreases tree, 0nat, axis.members.len() - i,
{
    if i < axis.members.len() {
        lemma_well_formed_inside(tree, axis, i + 1, under, pane, along);
        lemma_well_formed_inside(tree, axis, i + 1, Some(i), pane, along);
        assert(tree::well_formed(axis.members[i as int]));
        assert(decreases_to!(tree => tree->Axis_0.members[i as int]));
        law_well_formed_tree_is_resizable(axis.members[i as int], pane, along);
    }
}

/// An axis that is not acted on is ready.
proof fn lemma_ready_unless_found(axis: AxisModel, pane: PaneId, along: Axis)
    requires
        found_in(axis, pane, along) != Some(true),
    ensures
        is_ready(axis, pane, along),
{
    if leaf_index(axis.members, pane) >= axis.members.len() {
        lemma_ready_inside_unless_found(axis, 0, None, pane, along);
    }
}

proof fn lemma_ready_inside_unless_found(
    axis: AxisModel,
    i: nat,
    under: Option<nat>,
    pane: PaneId,
    along: Axis,
)
    requires
        found_inside(axis, i, under is Some, pane, along) != Some(true),
    ensures
        is_ready_inside(axis, i, under, pane, along),
    decreases axis.members.len() - i,
{
    if i < axis.members.len() {
        if let Tree::Axis(inner) = axis.members[i as int] {
            match found_in(inner, pane, along) {
                None => lemma_ready_inside_unless_found(axis, i + 1, under, pane, along),
                Some(true) => {},
                Some(false) => if axis.axis == along {
                    lemma_ready_inside_unless_found(axis, i + 1, Some(i), pane, along);
                },
            }
        } else {
            lemma_ready_inside_unless_found(axis, i + 1, under, pane, along);
        }
    }
}

/// Whether an adjustment can be asked for any two neighbouring shares of an axis, on behalf
/// of either of the two.
pub open spec fn answers<F: Fn(&PaneAxis, usize, usize) -> Option<(Flex, Flex)>>(
    adjustment: F,
) -> bool {
    forall|axis: PaneAxis, idx: usize, first: usize|
        first + 1 < axis.flexes@.len() && (idx == first || idx == first + 1)
            ==> #[trigger] call_requires(adjustment, (&axis, idx, first))
}

/// A resize of the pane along `along`: it acts on the axis nearest to the pane, on the
/// way to it, that runs along `along`.
pub open spec fn resize_axis(
    axis: AxisModel,
    pane: PaneId,
    along: Axis,
    adjust: spec_fn(AxisModel, nat, nat) -> Option<(Flex, Flex)>,
) -> Resized
    decreases axis, axis.members.len() + 1,
{
    let idx = leaf_index(axis.members, pane);
    if idx < axis.members.len() {
        if axis.axis == along {
            adjusted_at(axis, idx, adjust)
        } else {
            Resized { done: Some(false), axis }
        }
    } else {
        resize_inside(axis, 0, None, pane, along, adjust)
    }
}

/// A resize of a pane that no leaf of the axis shows, from the member at `i` on;
/// `under` is the last member so far that shows the pane deeper down without an axis
/// that runs along `along`.
pub open spec fn resize_inside(
    axis: AxisModel,
    i: nat,
    under: Option<nat>,
    pane: PaneId,
    along: Axis,
    adjust: spec_fn(AxisModel, nat, nat) -> Option<(Flex, Flex)>,
) -> Resized
    decreases axis, axis.members.len() - i,
{
    if i >= axis.members.len() {
        match under {
            None => Resized { done: None, axis },
            Some(idx) => adjusted_at(axis, idx, adjust),
        }
    } else if let Tree::Axis(inner) = axis.members[i as int] {
        let deeper = resize_axis(inner, pane, along, adjust);
        match deeper.done {
            None => resize_inside(axis, i + 1, under, pane, along, adjust),
            Some(true) => Resized {
                done: Some(true),
                axis: edit::with_member(axis, i as int, Tree::Axis(deeper.axis)),
            },
            Some(false) => if axis.axis == along {
                resize_inside(axis, i + 1, Some(i), pane, along, adjust)
            } else {
                Resized { done: Some(false), axis }
            },
        }
    } else {
        resize_inside(axis, i + 1, under, pane, along, adjust)
    }
}

/// An adjustment of shares that answers as `adjust` does.
pub open spec fn adjusts<F: Fn(&PaneAxis, usize, usize) -> Option<(Flex, Flex)>>(
    adjustment: F,
    adjust: spec_fn(AxisModel, nat, nat) -> Option<(Flex, Flex)>,
) -> bool {
    forall|axis: PaneAxis, idx: usize, first: usize, shares: Option<(Flex, Flex)>| #[trigger]
        call_ensures(adjustment, (&axis, idx, first), shares) ==> shares == adjust(
            axis.model(),
            idx as nat,
            first as nat,
        )
}

proof fn lemma_leaf_index(members: Seq<Tree>, pane: PaneId, i: int)
    requires
        0 <= i <= members.len(),
        forall|j: int| 0 <= j < i ==> query::leaf_pane(#[trigger] members[j]) != Some(pane),
        i < members.len() ==> query::leaf_pane(members[i]) == Some(pane),
    ensures
        leaf_index(members, pane) == i,
    decreases members.len(),
{
    if i > 0 {
        let rest = members.drop_first();
        assert forall|j: int| 0 <= j < i - 1 implies query::leaf_pane(#[trigger] rest[j]) != Some(
            pane,
        ) by {
            assert(rest[j] == members[j + 1]);
        }
        if i < members.len() {
            assert(rest[i - 1] == members[i]);
        }
        assert(query::leaf_pane(members[0]) != Some(pane));
        lemma_leaf_index(rest, pane, i - 1);
    }
}

/// No resize of an axis that does not show the pane, or shows it in the wrong direction
/// only, changes anything.
pub proof fn law_resize_acts_only_when_done(
    axis: AxisModel,
    pane: PaneId,
    along: Axis,
    adjust: spec_fn(AxisModel, nat, nat) -> Option<(Flex, Flex)>,
)
    ensures
        resize_axis(axis, pane, along, adjust).done != Some(true) ==> resize_axis(
            axis,
            pane,
            along,
            adjust,
        ).axis == axis,
{
    lemma_resize_inside_unchanged(axis, 0, None, pane, along, adjust);
}

proof fn lemma_resize_inside_unchanged(
    axis: AxisModel,
    i: nat,
    under: Option<nat>,
    pane: PaneId,
    along: Axis,
    adjust: spec_fn(AxisModel, nat, nat) -> Option<(Flex, Flex)>,
)
    ensures
        resize_inside(axis, i, under, pane, along, adjust).done != Some(true) ==> resize_inside(
            axis,
            i,
            under,
            pane,
            along,
            adjust,
        ).axis == axis,
    decreases axis.members.len() - i,
{
    if i < axis.members.len() {
        lemma_resize_inside_unchanged(axis, i + 1, under, pane, along, adjust);
        lemma_resize_inside_unchanged(axis, i + 1, Some(i), pane, along, adjust);
    }
}

/// An index as a natural number.
spec fn under_model(under: Option<usize>) -> Option<nat> {
    match under {
        Some(idx) => Some(idx as nat),
        None => None,
    }
}

impl Member {
    /// Returns whether a pane of the tree can be resized along an axis: the axis of the tree
    /// that is acted on, if there is one, has a share for the member and another one to trade
    /// with.
    pub fn can_resize(&self, pane: PaneId, along: Axis) -> (res: bool)
        ensures
            res == resizable(self.model(), pane, along),
    {
        match self {
            Member::Axis(axis) => axis.outlook(pane, along).1,
            _ => true,
        }
    }
}

impl PaneAxis {
    /// The index of the first leaf that shows the pane, or the member count.
    fn leaf_position(&self, pane: PaneId) -> (res: usize)
        ensures
            res == leaf_index(self.model().members, pane),
            res <= self.members@.len(),
    {
        let ghost members = self.model().members;
        let mut i: usize = 0;
        while i < self.members.len()
            invariant
                i <= self.members@.len(),
                members == self.model().members,
                forall|j: int| 0 <= j < i ==> query::leaf_pane(#[trigger] members[j]) != Some(pane),
            decreases self.members@.len() - i,
        {
            assert(members[i as int] == self.members@[i as int].model());
            if let Some(visible) = self.members[i].leaf() {
                if visible == pane {
                    proof {
                        lemma_leaf_index(members, pane, i as int);
                    }
                    return i;
                }
            }
            i += 1;
        }
        proof {
            lemma_leaf_index(members, pane, i as int);
        }
        i
    }

    /// Returns whether there is something to resize, and whether it has shares to trade.
    fn outlook(&self, pane: PaneId, along: Axis) -> (res: (Option<bool>, bool))
        ensures
            res.0 == found_in(self.model(), pane, along),
            res.1 == is_ready(self.model(), pane, along),
        decreases self,
    {
        let ghost model = self.model();
        let len = self.members.len();
        let idx = self.leaf_position(pane);
        if idx < len {
            let runs_along = self.axis == along;
            return (Some(runs_along), !runs_along || self.has_trade(idx));
        }
        let mut under: Option<usize> = None;
        let mut i: usize = 0;
        while i < len
            invariant
                i <= len,
                len == self.members@.len(),
                model == self.model(),
                leaf_index(model.members, pane) == len,
                found_in(model, pane, along) == found_inside(
                    model,
                    i as nat,
                    under is Some,
                    pane,
                    along,
                ),
                is_ready(model, pane, along) == is_ready_inside(
                    model,
                    i as nat,
                    under_model(under),
                    pane,
                    along,
                ),
            decreases len - i,
        {
            assert(model.members[i as int] == self.members@[i as int].model());
            assert(decreases_to!(self => self.members@[i as int]));
            if let Member::Axis(inner) = &self.members[i] {
                let (found, ready) = inner.outlook(pane, along);
                if let Some(done) = found {
                    if done {
                        return (Some(true), ready);
                    }
                    if self.axis != along {
                        return (Some(false), true);
                    }
                    under = Some(i);
                }
            }
            i += 1;
        }
        match under {
            None => (None, true),
            Some(idx) => (Some(true), self.has_trade(idx)),
        }
    }

    /// Whether the member at `idx` has a share, and there is another share to trade with.
    fn has_trade(&self, idx: usize) -> (res: bool)
        ensures
            res == can_trade(self.model(), idx as nat),
    {
        idx < self.flexes.len() && self.flexes.len() >= 2
    }

    /// Lets a member trade shares with a neighbour, as `adjust` says.
    fn adjust_at<F: Fn(&PaneAxis, usize, usize) -> Option<(Flex, Flex)>>(&mut self, idx: usize, adjust: &F)
        requires
            can_trade(old(self).model(), idx as nat),
            answers(*adjust),
        ensures
            forall|f: spec_fn(AxisModel, nat, nat) -> Option<(Flex, Flex)>| #[trigger]
                adjusts(*adjust, f) ==> final(self).model() == adjusted_at(
                    old(self).model(),
                    idx as nat,
                    f,
                ).axis,
    {
        let first: usize = if idx == self.flexes.len() - 1 {
            idx - 1
        } else {
            idx
        };
        let ghost before = *self;
        if let Some((share, next)) = adjust(&*self, idx, first) {
            self.flexes.set(first, share);
            self.flexes.set(first + 1, next);
        }
        assert(self.model().members == before.model().members);
    }

    /// Resizes the pane along `along`, in the axis nearest to the pane that runs that way.
    /// Tells whether there was such an axis, or `None` where the pane is not shown here.
    pub(crate) fn resize<F: Fn(&PaneAxis, usize, usize) -> Option<(Flex, Flex)>>(
        &mut self,
        pane: PaneId,
        along: Axis,
        adjust: &F,
    ) -> (res: Option<bool>)
        requires
            is_ready(old(self).model(), pane, along),
            answers(*adjust),
        ensures
            forall|f: spec_fn(AxisModel, nat, nat) -> Option<(Flex, Flex)>| #[trigger]
                adjusts(*adjust, f) ==> res == resize_axis(old(self).model(), pane, along, f).done
                    && final(self).model() == resize_axis(
                    old(self).model(),
                    pane,
                    along,
                    f,
                ).axis,
            res == found_in(old(self).model(), pane, along),
            res != Some(true) ==> final(self).model() == old(self).model(),
        decreases *old(self),
    {
        let ghost before = *self;
        let ghost start = self.model();
        let len = self.members.len();
        let idx = self.leaf_position(pane);
        if idx < len {
            if self.axis != along {
                return Some(false);
            }
            self.adjust_at(idx, adjust);
            return Some(true);
        }
        let mut under: Option<usize> = None;
        let mut i: usize = 0;
        while i < len
            invariant
                i <= len,
                len == self.members@.len(),
                len == start.members.len(),
                before == *old(self),
                start == before.model(),
                self.model() == start,
                leaf_index(start.members, pane) == len,
                found_in(start, pane, along) == found_inside(
                    start,
                    i as nat,
                    under is Some,
                    pane,
                    along,
                ),
                is_ready_inside(start, i as nat, under_model(under), pane, along),
                answers(*adjust),
                forall|j: int| i <= j < len ==> self.members@[j] == before.members@[j],
                forall|f: spec_fn(AxisModel, nat, nat) -> Option<(Flex, Flex)>| #[trigger]
                    adjusts(*adjust, f) ==> resize_axis(start, pane, along, f) == resize_inside(
                        start,
                        i as nat,
                        under_model(under),
                        pane,
                        along,
                        f,
                    ),
            decreases len - i,
        {
            assert(start.members[i as int] == before.members@[i as int].model());
            assert(decreases_to!(before => before.members@[i as int]));
            let ghost was = *self;
            proof {
                if let Tree::Axis(inner) = start.members[i as int] {
                    if found_in(inner, pane, along) != Some(true) {
                        lemma_ready_unless_found(inner, pane, along);
                    }
                }
            }
            let deeper = match &mut self.members[i] {
                Member::Axis(axis) => axis.resize(pane, along, adjust),
                _ => None,
            };
            proof {
                edit::lemma_one_member_changed(*self, was, i as int);
                if deeper != Some(true) {
                    assert(self.members@[i as int].model() == start.members[i as int]);
                    assert(self.model().members == start.members);
                }
            }
            if let Some(done) = deeper {
                if done {
                    return Some(true);
                }
                if self.axis != along {
                    return Some(false);
                }
                under = Some(i);
            }
            i += 1;
        }
        match under {
            None => None,
            Some(idx) => {
                self.adjust_at(idx, adjust);
                Some(true)
            },
        }
    }
}

} // verus!
