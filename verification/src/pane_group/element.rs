//! The element that draws an axis: which children are dimmed or framed, how the dividers
//! between them look, and what dragging a divider does to the shares.

use vstd::prelude::*;

use crate::pane_group::direction::Axis;
use crate::pane_group::edit;
use crate::pane_group::group::PaneGroup;
use crate::pane_group::query;
use crate::pane_group::tree;
use crate::pane_group::tree::Flex;
use crate::pane_group::tree::PaneId;
use crate::pane_group::tree::PixelBounds;
use crate::pane_group::tree::Tree;

verus! {

/// An axis about to be drawn.
#[derive(Debug)]
pub struct PaneAxisElement {
    pub axis: Axis,
    pub basis: usize,
    /// The child that is the active pane itself. It is not dimmed, it is framed, and the
    /// dividers next to it light up in full.
    pub active_pane_ix: Option<usize>,
    /// The child in which the active pane stands, at any depth. The dividers next to it
    /// light up along the active pane.
    pub active_subtree_ix: Option<usize>,
    pub active_pane: Option<PaneId>,
    /// Which children are leaves; a child past the end counts as one.
    pub is_leaf_pane_mask: Vec<bool>,
}

/// A child of an axis, laid out.
#[derive(Clone, Copy, PartialEq, Eq, Debug, Structural)]
pub struct PaneAxisChildLayout {
    pub bounds: PixelBounds,
    /// Whether a divider that can be dragged follows the child.
    pub handle: bool,
    pub is_leaf_pane: bool,
}

/// An axis, laid out.
#[derive(Debug)]
pub struct PaneAxisLayout {
    /// The child whose divider is being dragged.
    pub dragged_handle: Option<usize>,
    pub children: Vec<PaneAxisChildLayout>,
}

/// The shape of the mouse cursor over a divider.
#[derive(Clone, Copy, PartialEq, Eq, Debug, Structural)]
pub enum CursorStyle {
    ResizeRow,
    ResizeColumn,
}

/// How a divider is drawn.
#[derive(Clone, Copy, PartialEq, Eq, Debug, Structural)]
pub enum DividerHighlight {
    /// Lit along its whole length.
    Full,
    /// Lit where it runs along the given rectangle.
    Along(PixelBounds),
    /// Not lit.
    Plain,
}

/// A divider, as it is drawn.
#[derive(Clone, Copy, PartialEq, Eq, Debug, Structural)]
pub struct DividerPaint {
    pub cursor: CursorStyle,
    /// Whether the cursor has its shape all over the window, not over the divider only.
    pub dragged: bool,
    pub highlight: DividerHighlight,
}

/// What is drawn over a child.
#[derive(Clone, Copy, PartialEq, Eq, Debug, Structural)]
pub struct ChildPaint {
    /// Whether the child is dimmed.
    pub overlay: bool,
    /// Whether the child is framed.
    pub border: bool,
    /// The divider that follows the child.
    pub divider: Option<DividerPaint>,
}

/// What a press of the mouse on a divider does.
#[derive(Clone, Copy, PartialEq, Eq, Debug, Structural)]
pub enum Press {
    /// The press is not on the divider.
    Ignored,
    /// The divider is now being dragged.
    Grabbed,
    /// The divider is now being dragged and the shares are even again.
    Reset,
}

/// A distance in pixels, as the bit pattern of a single-precision number.
#[derive(Clone, Copy, PartialEq, Eq, Debug, Structural)]
pub struct PixelChange {
    pub bits: u32,
}

/// Whether a child is drawn as a leaf.
pub open spec fn is_leaf(mask: Seq<bool>, ix: int) -> bool {
    0 <= ix < mask.len() ==> mask[ix]
}

/// Whether the divider that follows the child at `ix` lies next to the child `active`.
pub open spec fn beside(active: Option<usize>, ix: int) -> bool {
    active matches Some(active) && (active == ix || active == ix + 1)
}

/// How the divider that follows the child at `ix` is drawn, where `active_bounds` is the
/// rectangle of the active pane.
pub open spec fn highlight_of(
    element: PaneAxisElement,
    ix: int,
    active_bounds: Option<PixelBounds>,
) -> DividerHighlight {
    if beside(element.active_pane_ix, ix) {
        DividerHighlight::Full
    } else if beside(element.active_subtree_ix, ix) && active_bounds is Some {
        DividerHighlight::Along(active_bounds->0)
    } else {
        DividerHighlight::Plain
    }
}

/// The rectangle of the active pane, where it is known and the center group is there.
pub open spec fn active_bounds(active_pane: Option<PaneId>, center: Option<Tree>) -> Option<
    PixelBounds,
> {
    match (active_pane, center) {
        (Some(pane), Some(root)) => query::box_in(root, pane),
        _ => None,
    }
}

/// What is drawn over the child at `ix`.
pub open spec fn child_paint(
    element: PaneAxisElement,
    layout: PaneAxisLayout,
    ix: int,
    has_border: bool,
    active_bounds: Option<PixelBounds>,
) -> ChildPaint {
    let child = layout.children@[ix];
    let is_active = element.active_pane_ix matches Some(active) && active == ix;
    ChildPaint {
        overlay: child.is_leaf_pane && !is_active,
        border: child.is_leaf_pane && is_active && has_border,
        divider: if child.handle {
            Some(
                DividerPaint {
                    cursor: match element.axis {
                        Axis::Vertical => CursorStyle::ResizeRow,
                        Axis::Horizontal => CursorStyle::ResizeColumn,
                    },
                    dragged: layout.dragged_handle matches Some(dragged) && dragged == ix,
                    highlight: highlight_of(element, ix, active_bounds),
                },
            )
        } else {
            None
        },
    }
}

/// The children of an axis that occupy the given rectangles, one after the other.
pub open spec fn laid_out(mask: Seq<bool>, bounds: Seq<PixelBounds>) -> Seq<PaneAxisChildLayout> {
    Seq::new(
        bounds.len(),
        |ix: int|
            PaneAxisChildLayout {
                bounds: bounds[ix],
                handle: ix < bounds.len() - 1,
                is_leaf_pane: is_leaf(mask, ix),
            },
    )
}

/// The members, one after the other, that trade shares with their next neighbour while the
/// divider that follows the member at `ix` is dragged: from `ix` to the last but one when
/// it is dragged forward, from `ix` to the first when it is dragged backward.
pub open spec fn successors(ix: nat, forward: bool, count: nat) -> Seq<nat> {
    if forward {
        Seq::new((count - 1 - ix) as nat, |k: int| (ix + k) as nat)
    } else {
        Seq::new(ix + 1, |k: int| (ix - k) as nat)
    }
}

/// The shares after a change of pixels went through the given members: each takes what it
/// can and hands on the rest, until nothing is left of the change.
pub open spec fn dragged(
    flexes: Seq<Flex>,
    change: Option<PixelChange>,
    members: Seq<nat>,
    step: spec_fn(Seq<Flex>, nat, PixelChange) -> (Flex, Flex, Option<PixelChange>),
) -> Seq<Flex>
    decreases members.len(),
{
    if members.len() == 0 {
        flexes
    } else {
        match change {
            None => flexes,
            Some(pending) => {
                let first = members[0];
                let (share, next, rest) = step(flexes, first, pending);
                dragged(
                    flexes.update(first as int, share).update(first as int + 1, next),
                    rest,
                    members.drop_first(),
                    step,
                )
            },
        }
    }
}

/// A step that can be taken between any two neighbours.
pub open spec fn steps<F: Fn(&Vec<Flex>, usize, PixelChange) -> (Flex, Flex, Option<PixelChange>)>(
    step: F,
) -> bool {
    forall|flexes: Vec<Flex>, first: usize, change: PixelChange|
        first + 1 < flexes@.len() ==> #[trigger] call_requires(step, (&flexes, first, change))
}

/// A step that answers as `f` does.
pub open spec fn steps_as<
    F: Fn(&Vec<Flex>, usize, PixelChange) -> (Flex, Flex, Option<PixelChange>),
>(
    step: F,
    f: spec_fn(Seq<Flex>, nat, PixelChange) -> (Flex, Flex, Option<PixelChange>),
) -> bool {
    forall|
        flexes: Vec<Flex>,
        first: usize,
        change: PixelChange,
        res: (Flex, Flex, Option<PixelChange>),
    | #[trigger]
        call_ensures(step, (&flexes, first, change), res) ==> res == f(
            flexes@,
            first as nat,
            change,
        )
}

proof fn lemma_dragged_outside(
    flexes: Seq<Flex>,
    change: Option<PixelChange>,
    members: Seq<nat>,
    step: spec_fn(Seq<Flex>, nat, PixelChange) -> (Flex, Flex, Option<PixelChange>),
    from: int,
    to: int,
)
    requires
        forall|k: int| 0 <= k < members.len() ==> from <= #[trigger] members[k] && members[k] + 1 < to,
        0 <= from,
        to <= flexes.len(),
    ensures
        dragged(flexes, change, members, step).len() == flexes.len(),
        forall|j: int|
            0 <= j < flexes.len() && !(from <= j < to) ==> #[trigger] dragged(
                flexes,
                change,
                members,
                step,
            )[j] == flexes[j],
    decreases members.len(),
{
    if members.len() > 0 {
        if let Some(pending) = change {
            let first = members[0];
            let (share, next, rest) = step(flexes, first, pending);
            let after = flexes.update(first as int, share).update(first as int + 1, next);
            let others = members.drop_first();
            assert forall|k: int| 0 <= k < others.len() implies from <= #[trigger] others[k]
                && others[k] + 1 < to by {
                assert(others[k] == members[k + 1]);
            }
            lemma_dragged_outside(after, rest, others, step, from, to);
        }
    }
}

/// Dragging a divider forward leaves the shares before it alone, dragging it backward
/// those after it; no share is added or dropped.
pub proof fn law_drag_reaches_one_side(
    flexes: Seq<Flex>,
    change: Option<PixelChange>,
    ix: nat,
    forward: bool,
    step: spec_fn(Seq<Flex>, nat, PixelChange) -> (Flex, Flex, Option<PixelChange>),
    j: int,
)
    requires
        ix + 1 < flexes.len(),
    ensures
        ({
            let after = dragged(flexes, change, successors(ix, forward, flexes.len()), step);
            &&& after.len() == flexes.len()
            &&& forward && 0 <= j < ix ==> after[j] == flexes[j]
            &&& !forward && ix + 1 < j < flexes.len() ==> after[j] == flexes[j]
        }),
{
    let members = successors(ix, forward, flexes.len());
    if forward {
        lemma_dragged_outside(flexes, change, members, step, ix as int, flexes.len() as int);
    } else {
        lemma_dragged_outside(flexes, change, members, step, 0, ix as int + 2);
    }
}

/// A divider lights up exactly if the active pane stands on one side of it: in full where
/// it is a neighbour itself.
pub proof fn law_divider_lights_beside_active_pane(
    element: PaneAxisElement,
    ix: int,
    active_bounds: PixelBounds,
)
    ensures
        highlight_of(element, ix, Some(active_bounds)) == DividerHighlight::Plain <==> !beside(
            element.active_pane_ix,
            ix,
        ) && !beside(element.active_subtree_ix, ix),
        highlight_of(element, ix, Some(active_bounds)) == DividerHighlight::Full <==> beside(
            element.active_pane_ix,
            ix,
        ),
{
}

/// Every child gets its own rectangle, and every child but the last a divider behind it. A
/// child is a leaf unless it is marked as none.
pub proof fn law_children_are_laid_out_in_order(
    mask: Seq<bool>,
    bounds: Seq<PixelBounds>,
    k: int,
)
    requires
        0 <= k < bounds.len(),
    ensures
        laid_out(mask, bounds).len() == bounds.len(),
        laid_out(mask, bounds)[k].bounds == bounds[k],
        laid_out(mask, bounds)[k].handle <==> k + 1 < bounds.len(),
        k < mask.len() ==> laid_out(mask, bounds)[k].is_leaf_pane == mask[k],
        k >= mask.len() ==> laid_out(mask, bounds)[k].is_leaf_pane,
{
}

/// The leaves are dimmed but for the active pane, which alone is framed. A child has a
/// divider exactly if it is laid out with one, and the cursor over it tells which way it moves.
pub proof fn law_only_the_active_leaf_stands_out(
    element: PaneAxisElement,
    layout: PaneAxisLayout,
    ix: usize,
    has_border: bool,
    active_bounds: Option<PixelBounds>,
)
    ensures
        ({
            let child = layout.children@[ix as int];
            let drawn = child_paint(element, layout, ix as int, has_border, active_bounds);
            &&& drawn.overlay <==> child.is_leaf_pane && element.active_pane_ix != Some(ix)
            &&& drawn.border <==> child.is_leaf_pane && element.active_pane_ix == Some(ix)
                && has_border
            &&& drawn.divider is Some <==> child.handle
            &&& drawn.divider matches Some(divider) ==> {
                &&& divider.dragged <==> layout.dragged_handle == Some(ix)
                &&& divider.cursor == CursorStyle::ResizeColumn <==> element.axis
                    == Axis::Horizontal
            }
        }),
{
}

/// A divider that separates the active pane from a neighbour lights up in full, one that
/// separates the part with the active pane from another lights up along the active pane.
pub proof fn law_which_dividers_light_up(
    element: PaneAxisElement,
    layout: PaneAxisLayout,
    ix: usize,
    has_border: bool,
    active_bounds: Option<PixelBounds>,
)
    requires
        ix < usize::MAX,
        layout.children@[ix as int].handle,
    ensures
        ({
            let drawn = child_paint(element, layout, ix as int, has_border, active_bounds);
            let after: usize = (ix + 1) as usize;
            let highlight = drawn.divider->0.highlight;
            let at_pane = element.active_pane_ix == Some(ix) || element.active_pane_ix == Some(
                after,
            );
            let at_part = element.active_subtree_ix == Some(ix) || element.active_subtree_ix
                == Some(after);
            &&& at_pane ==> highlight == DividerHighlight::Full
            &&& !at_pane && at_part ==> highlight == (match active_bounds {
                Some(bounds) => DividerHighlight::Along(bounds),
                None => DividerHighlight::Plain,
            })
            &&& !at_pane && !at_part ==> highlight == DividerHighlight::Plain
        }),
{
}

/// A drag by nothing changes nothing. Else the two members at the divider trade first, as the
/// step says, and what is left of the change goes on as a drag of the next divider that way,
/// if there is one.
pub proof fn law_drag_goes_on_at_the_next_divider(
    flexes: Seq<Flex>,
    change: PixelChange,
    ix: nat,
    forward: bool,
    step: spec_fn(Seq<Flex>, nat, PixelChange) -> (Flex, Flex, Option<PixelChange>),
)
    requires
        ix + 1 < flexes.len(),
    ensures
        dragged(flexes, None, successors(ix, forward, flexes.len()), step) == flexes,
        dragged(flexes, Some(change), successors(ix, forward, flexes.len()), step) == ({
            let (share, next, rest) = step(flexes, ix, change);
            let traded = flexes.update(ix as int, share).update(ix as int + 1, next);
            if forward && ix + 2 < flexes.len() {
                dragged(traded, rest, successors(ix + 1, forward, flexes.len()), step)
            } else if !forward && ix > 0 {
                dragged(traded, rest, successors((ix - 1) as nat, forward, flexes.len()), step)
            } else {
                traded
            }
        }),
{
    reveal_with_fuel(dragged, 2);
    let members = successors(ix, forward, flexes.len());
    assert(members[0] == ix);
    if forward {
        assert(members.drop_first() =~= successors(ix + 1, forward, flexes.len()));
    } else if ix > 0 {
        assert(members.drop_first() =~= successors((ix - 1) as nat, forward, flexes.len()));
    }
}

/// The element for an axis, with nothing said of its children yet.
pub fn pane_axis(axis: Axis, basis: usize) -> (res: PaneAxisElement)
    ensures
        res.axis == axis,
        res.basis == basis,
        res.active_pane_ix is None,
        res.active_subtree_ix is None,
        res.active_pane is None,
        res.is_leaf_pane_mask@ == Seq::<bool>::empty(),
{
    PaneAxisElement {
        axis,
        basis,
        active_pane_ix: None,
        active_subtree_ix: None,
        active_pane: None,
        is_leaf_pane_mask: Vec::new(),
    }
}

/// Whether the divider that follows the child at `ix` lies next to the child `active`.
fn is_beside(active: Option<usize>, ix: usize) -> (res: bool)
    requires
        ix < usize::MAX,
    ensures
        res == beside(active, ix as int),
{
    match active {
        Some(active) => active == ix || active == ix + 1,
        None => false,
    }
}

/// Whether an index, where there is one, is the given one.
fn is_at(at: Option<usize>, ix: usize) -> (res: bool)
    ensures
        res == (at == Some(ix)),
{
    match at {
        Some(at) => at == ix,
        None => false,
    }
}

impl PaneAxisElement {
    /// Names the child that is the active pane.
    pub fn with_active_pane(self, active_pane_ix: Option<usize>) -> (res: PaneAxisElement)
        ensures
            res == (PaneAxisElement { active_pane_ix, ..self }),
    {
        PaneAxisElement { active_pane_ix, ..self }
    }

    /// Names the child in which the active pane stands.
    pub fn with_active_subtree(self, subtree_ix: Option<usize>, active_pane: PaneId) -> (res:
        PaneAxisElement)
        ensures
            res == (PaneAxisElement {
                active_subtree_ix: subtree_ix,
                active_pane: Some(active_pane),
                ..self
            }),
    {
        PaneAxisElement { active_subtree_ix: subtree_ix, active_pane: Some(active_pane), ..self }
    }

    /// Tells which children are leaves.
    pub fn with_is_leaf_pane_mask(self, mask: Vec<bool>) -> (res: PaneAxisElement)
        ensures
            res == (PaneAxisElement { is_leaf_pane_mask: mask, ..self }),
    {
        PaneAxisElement { is_leaf_pane_mask: mask, ..self }
    }

    /// Lays the children out in the given rectangles and records those as where the
    /// members were painted.
    pub fn prepaint(
        &self,
        dragged_handle: Option<usize>,
        child_bounds: &Vec<PixelBounds>,
        bounding_boxes: &mut Vec<Option<PixelBounds>>,
    ) -> (res: PaneAxisLayout)
        ensures
            res.dragged_handle == dragged_handle,
            res.children@ == laid_out(self.is_leaf_pane_mask@, child_bounds@),
            final(bounding_boxes)@ == child_bounds@.map_values(|b: PixelBounds| Some(b)),
    {
        bounding_boxes.clear();
        let mut children: Vec<PaneAxisChildLayout> = Vec::new();
        let ghost expected = laid_out(self.is_leaf_pane_mask@, child_bounds@);
        let len = child_bounds.len();
        let mut ix: usize = 0;
        while ix < len
            invariant
                ix <= len,
                len == child_bounds@.len(),
                expected == laid_out(self.is_leaf_pane_mask@, child_bounds@),
                children@ == expected.take(ix as int),
                bounding_boxes@ == child_bounds@.take(ix as int).map_values(
                    |b: PixelBounds| Some(b),
                ),
            decreases len - ix,
        {
            let bounds = child_bounds[ix];
            bounding_boxes.push(Some(bounds));
            let is_leaf_pane = if ix < self.is_leaf_pane_mask.len() {
                self.is_leaf_pane_mask[ix]
            } else {
                true
            };
            children.push(PaneAxisChildLayout { bounds, handle: ix < len - 1, is_leaf_pane });
            proof {
                assert(children@ =~= expected.take(ix + 1));
                assert(bounding_boxes@ =~= child_bounds@.take(ix + 1).map_values(
                    |b: PixelBounds| Some(b),
                ));
            }
            ix += 1;
        }
        assert(expected.take(ix as int) == expected);
        assert(child_bounds@.take(ix as int) == child_bounds@);
        PaneAxisLayout { dragged_handle, children }
    }

    /// How the divider that follows the child at `ix` is drawn.
    fn highlight(&self, ix: usize, active_bounds: Option<PixelBounds>) -> (res: DividerHighlight)
        requires
            ix < usize::MAX,
        ensures
            res == highlight_of(*self, ix as int, active_bounds),
    {
        if is_beside(self.active_pane_ix, ix) {
            return DividerHighlight::Full;
        }
        if is_beside(self.active_subtree_ix, ix) {
            if let Some(bounds) = active_bounds {
                return DividerHighlight::Along(bounds);
            }
        }
        DividerHighlight::Plain
    }

    /// What is drawn over each child, where `has_border` tells whether the active pane is
    /// framed and `center` is the group that knows where the active pane was painted.
    pub fn paint(&self, layout: &PaneAxisLayout, has_border: bool, center: Option<&PaneGroup>) -> (res:
        Vec<ChildPaint>)
        ensures
            res@ == Seq::new(
                layout.children@.len(),
                |ix: int|
                    child_paint(
                        *self,
                        *layout,
                        ix,
                        has_border,
                        active_bounds(
                            self.active_pane,
                            match center {
                                Some(group) => Some(group@.root),
                                None => None,
                            },
                        ),
                    ),
            ),
    {
        let bounds = match (self.active_pane, center) {
            (Some(pane), Some(group)) => group.bounding_box_for_pane(pane),
            _ => None,
        };
        let cursor = match self.axis {
            Axis::Vertical => CursorStyle::ResizeRow,
            Axis::Horizontal => CursorStyle::ResizeColumn,
        };
        let mut res: Vec<ChildPaint> = Vec::new();
        let ghost expected = Seq::new(
            layout.children@.len(),
            |ix: int| child_paint(*self, *layout, ix, has_border, bounds),
        );
        let mut ix: usize = 0;
        while ix < layout.children.len()
            invariant
                ix <= layout.children@.len(),
                cursor == (match self.axis {
                    Axis::Vertical => CursorStyle::ResizeRow,
                    Axis::Horizontal => CursorStyle::ResizeColumn,
                }),
                expected == Seq::new(
                    layout.children@.len(),
                    |ix: int| child_paint(*self, *layout, ix, has_border, bounds),
                ),
                res@ == expected.take(ix as int),
            decreases layout.children@.len() - ix,
        {
            let child = layout.children[ix];
            let is_active = is_at(self.active_pane_ix, ix);
            let divider = if child.handle {
                let dragged = is_at(layout.dragged_handle, ix);
                Some(DividerPaint { cursor, dragged, highlight: self.highlight(ix, bounds) })
            } else {
                None
            };
            res.push(
                ChildPaint {
                    overlay: child.is_leaf_pane && !is_active,
                    border: has_border && is_active && child.is_leaf_pane,
                    divider,
                },
            );
            assert(res@ =~= expected.take(ix + 1));
            ix += 1;
        }
        assert(expected.take(ix as int) == expected);
        res
    }

    /// Drags the divider that follows the member at `ix` by a change of pixels, `None`
    /// where there is none. Nothing happens where the member is too small already.
    /// `step` is given the shares, a member and what is left of the change; it returns the
    /// new shares of that member and of the next one, and what is left then. Tells whether
    /// the drag was acted on.
    pub fn compute_resize<
        F: Fn(&Vec<Flex>, usize, PixelChange) -> (Flex, Flex, Option<PixelChange>),
    >(
        flexes: &mut Vec<Flex>,
        ix: usize,
        too_small: bool,
        forward: bool,
        change: Option<PixelChange>,
        step: &F,
    ) -> (res: bool)
        requires
            ix < old(flexes)@.len(),
            ix + 1 < old(flexes)@.len() || too_small || forward || change is None,
            steps(*step),
        ensures
            res == !too_small,
            too_small ==> final(flexes)@ == old(flexes)@,
            !too_small ==> forall|
                f: spec_fn(Seq<Flex>, nat, PixelChange) -> (Flex, Flex, Option<PixelChange>),
            | #[trigger]
                steps_as(*step, f) ==> final(flexes)@ == dragged(
                    old(flexes)@,
                    change,
                    successors(ix as nat, forward, old(flexes)@.len()),
                    f,
                ),
    {
        if too_small {
            return false;
        }
        let len = flexes.len();
        let ghost start = flexes@;
        let ghost members = successors(ix as nat, forward, len as nat);
        let count: usize = if forward {
            len - 1 - ix
        } else {
            ix + 1
        };
        let mut change = change;
        let ghost asked = change;
        let mut offset: usize = 0;
        assert(members.skip(0) == members);
        while offset < count && change.is_some()
            invariant
                offset <= count,
                count == members.len(),
                len == flexes@.len(),
                ix < len,
                ix + 1 < len || forward || asked is None,
                asked is None ==> change is None,
                members == successors(ix as nat, forward, len as nat),
                steps(*step),
                forall|
                    f: spec_fn(Seq<Flex>, nat, PixelChange) -> (Flex, Flex, Option<PixelChange>),
                | #[trigger]
                    steps_as(*step, f) ==> dragged(start, asked, members, f) == dragged(
                        flexes@,
                        change,
                        members.skip(offset as int),
                        f,
                    ),
            decreases count - offset,
        {
            let current_ix: usize = if forward {
                ix + offset
            } else {
                ix - offset
            };
            assert(members[offset as int] == current_ix);
            assert(members.skip(offset as int)[0] == current_ix);
            assert(members.skip(offset as int).drop_first() == members.skip(offset + 1));
            if let Some(pending) = change {
                let (share, next, rest) = step(&*flexes, current_ix, pending);
                flexes.set(current_ix, share);
                flexes.set(current_ix + 1, next);
                change = rest;
            }
            offset += 1;
        }
        true
    }
}

impl PaneAxisLayout {
    /// The mouse was pressed: where it was over the divider that follows the child at
    /// `ix`, the divider is dragged from now on, and a second click evens the shares out.
    /// `bubble` tells whether the press has reached every element above.
    pub fn mouse_down(
        &mut self,
        ix: usize,
        bubble: bool,
        hovered: bool,
        click_count: usize,
        flexes: &mut Vec<Flex>,
    ) -> (res: Press)
        ensures
            res == (if !(bubble && hovered) {
                Press::Ignored
            } else if click_count >= 2 {
                Press::Reset
            } else {
                Press::Grabbed
            }),
            final(self).children == old(self).children,
            final(self).dragged_handle == (if res == Press::Ignored {
                old(self).dragged_handle
            } else {
                Some(ix)
            }),
            final(flexes)@ == (if res == Press::Reset {
                tree::even_flexes(old(flexes)@.len())
            } else {
                old(flexes)@
            }),
    {
        if !(bubble && hovered) {
            return Press::Ignored;
        }
        self.dragged_handle = Some(ix);
        if click_count >= 2 {
            *flexes = edit::even_flexes(flexes.len());
            return Press::Reset;
        }
        Press::Grabbed
    }

    /// The mouse was moved: tells whether that drags the divider that follows the child at
    /// `ix`.
    pub fn mouse_move(&self, ix: usize, bubble: bool) -> (res: bool)
        ensures
            res == (bubble && self.dragged_handle == Some(ix)),
    {
        bubble && is_at(self.dragged_handle, ix)
    }

    /// The mouse was let go: no divider is dragged any more.
    pub fn mouse_up(&mut self, bubble: bool)
        ensures
            final(self).children == old(self).children,
            final(self).dragged_handle == (if bubble {
                None
            } else {
                old(self).dragged_handle
            }),
    {
        if bubble {
            self.dragged_handle = None;
        }
    }
}

/// A step that answers as a function does is asked for the shares, a member and the change
/// that is left.
pub proof fn law_what_a_step_is_asked<
    F: Fn(&Vec<Flex>, usize, PixelChange) -> (Flex, Flex, Option<PixelChange>),
>(
    step: F,
    f: spec_fn(Seq<Flex>, nat, PixelChange) -> (Flex, Flex, Option<PixelChange>),
    flexes: Vec<Flex>,
    first: usize,
    change: PixelChange,
    res: (Flex, Flex, Option<PixelChange>),
)
    requires
        steps_as(step, f),
        call_ensures(step, (&flexes, first, change), res),
    ensures
        res == f(flexes@, first as nat, change),
{
}

/// The rectangle along which dividers light up is that of the active pane in the center
/// group; without either there is none.
pub proof fn law_which_rectangle_dividers_follow(active: Option<PaneId>, center: Option<Tree>)
    ensures
        active is None || center is None ==> active_bounds(active, center) is None,
        active matches Some(pane) ==> center matches Some(root) ==> active_bounds(active, center)
            == query::box_in(root, pane),
{
}

} // verus!
