//! Operations that change the pane tree.

use vstd::prelude::*;

use crate::pane_group::direction::Axis;
use crate::pane_group::direction::SplitDirection;
use crate::pane_group::tree;
use crate::pane_group::tree::AxisModel;
use crate::pane_group::tree::Flex;
use crate::pane_group::tree::Member;
use crate::pane_group::tree::PaneAxis;
use crate::pane_group::tree::PaneId;
use crate::pane_group::tree::PaneStack;
use crate::pane_group::tree::PixelBounds;
use crate::pane_group::tree::StackModel;
use crate::pane_group::tree::Tree;
use crate::pane_group::tree::UNIT_FLEX_BITS;

verus! {

/// A stack whose active index is moved into bounds.
pub open spec fn clamped_stack(panes: Seq<PaneId>, active: nat) -> StackModel {
    StackModel {
        panes,
        active: if panes.len() == 0 {
            0
        } else if active < panes.len() {
            active
        } else {
            (panes.len() - 1) as nat
        },
    }
}

/// The member that holds the given panes in one slot, if there are any.
pub open spec fn slot_of(panes: Seq<PaneId>, active: nat) -> Option<Tree> {
    if panes.len() == 0 {
        None
    } else if panes.len() == 1 {
        Some(Tree::Pane(panes[0]))
    } else {
        Some(Tree::Stack(clamped_stack(panes, active)))
    }
}

/// The panes other than the given one, in order.
pub open spec fn other_panes(panes: Seq<PaneId>, pane: PaneId) -> Seq<PaneId> {
    panes.filter(|p: PaneId| p != pane)
}

/// What is left in a stack's slot without the given pane.
pub open spec fn without_pane(stack: StackModel, pane: PaneId) -> Option<Tree> {
    slot_of(other_panes(stack.panes, pane), stack.active)
}

/// An axis with one more pane at an index, all shares evened out.
pub open spec fn with_pane_at(axis: AxisModel, idx: int, pane: PaneId) -> AxisModel {
    AxisModel {
        members: axis.members.insert(idx, Tree::Pane(pane)),
        flexes: tree::even_flexes(axis.members.len() + 1),
        ..axis
    }
}

/// An axis with another member at an index.
pub open spec fn with_member(axis: AxisModel, idx: int, member: Tree) -> AxisModel {
    AxisModel { members: axis.members.update(idx, member), ..axis }
}

/// An axis without the member at an index, all shares evened out.
pub open spec fn without_member(axis: AxisModel, idx: int) -> AxisModel {
    AxisModel {
        members: axis.members.remove(idx),
        flexes: tree::even_flexes((axis.members.len() - 1) as nat),
        ..axis
    }
}

/// The index next to `idx` at which a pane enters in `direction`.
pub open spec fn entry_index(idx: int, direction: SplitDirection) -> int {
    if direction.grows() {
        idx + 1
    } else {
        idx
    }
}

/// An axis after the first leaf with `old_pane` made room for `new_pane`.
///
/// A single pane keeps its place beside the new one. A pane in a stack leaves
/// the tree: the new one stands beside what is left of the stack.
pub open spec fn split_axis(
    axis: AxisModel,
    old_pane: PaneId,
    new_pane: PaneId,
    direction: SplitDirection,
) -> AxisModel
    decreases axis,
{
    let i = tree::first_with(axis.members, old_pane);
    if i >= axis.members.len() {
        axis
    } else {
        match axis.members[i as int] {
            Tree::Axis(inner) => with_member(
                axis,
                i as int,
                Tree::Axis(split_axis(inner, old_pane, new_pane, direction)),
            ),
            Tree::Pane(pane) => split_leaf(axis, i as int, Tree::Pane(pane), new_pane, direction),
            Tree::Stack(stack) => match without_pane(stack, old_pane) {
                Some(rest) => split_leaf(axis, i as int, rest, new_pane, direction),
                None => with_member(axis, i as int, Tree::Pane(new_pane)),
            },
        }
    }
}

/// An axis after the member at `idx`, which becomes `settled`, made room for a new pane:
/// on the axis itself where the direction runs along it, else in an axis of its own.
pub open spec fn split_leaf(
    axis: AxisModel,
    idx: int,
    settled: Tree,
    new_pane: PaneId,
    direction: SplitDirection,
) -> AxisModel {
    if direction.along() == axis.axis {
        with_pane_at(with_member(axis, idx, settled), entry_index(idx, direction), new_pane)
    } else {
        with_member(
            axis,
            idx,
            Tree::Axis(tree::pair_axis(settled, Tree::Pane(new_pane), direction)),
        )
    }
}

/// An axis without the first leaf that has the pane; a stack there keeps its other panes.
/// An inner axis that is down to one member gives way to that member.
pub open spec fn remove_from_axis(axis: AxisModel, pane: PaneId) -> AxisModel
    decreases axis,
{
    let i = tree::first_with(axis.members, pane);
    if i >= axis.members.len() {
        axis
    } else {
        match axis.members[i as int] {
            Tree::Axis(inner) => with_member(
                axis,
                i as int,
                settled_axis(remove_from_axis(inner, pane)),
            ),
            Tree::Pane(_) => without_member(axis, i as int),
            Tree::Stack(stack) => match without_pane(stack, pane) {
                Some(rest) => with_member(axis, i as int, rest),
                None => without_member(axis, i as int),
            },
        }
    }
}

/// An axis as a tree: its only member where it has just one.
pub open spec fn settled_axis(axis: AxisModel) -> Tree {
    if axis.members.len() == 1 {
        axis.members[0]
    } else {
        Tree::Axis(axis)
    }
}

/// A pane stands in a row of trees exactly if it stands in one of them.
pub(crate) proof fn lemma_panes_of_contains(members: Seq<Tree>, pane: PaneId)
    ensures
        tree::panes_of(members).contains(pane) <==> exists|i: int|
            0 <= i < members.len() && tree::has_pane(#[trigger] members[i], pane),
    decreases members.len(),
{
    if members.len() > 0 {
        let rest = members.drop_last();
        let last = tree::panes(members.last());
        lemma_panes_of_contains(rest, pane);
        assert(tree::panes_of(members) == tree::panes_of(rest) + last);
        if tree::panes_of(members).contains(pane) {
            let k = tree::panes_of(members).index_of(pane);
            if k < tree::panes_of(rest).len() {
                assert(tree::panes_of(rest)[k] == pane);
                let i = choose|i: int|
                    0 <= i < rest.len() && tree::has_pane(#[trigger] rest[i], pane);
                assert(tree::has_pane(members[i], pane));
            } else {
                assert(last[k - tree::panes_of(rest).len()] == pane);
                assert(tree::has_pane(members[members.len() - 1], pane));
            }
        }
        if exists|i: int| 0 <= i < members.len() && tree::has_pane(#[trigger] members[i], pane) {
            let i = choose|i: int|
                0 <= i < members.len() && tree::has_pane(#[trigger] members[i], pane);
            if i < rest.len() {
                assert(tree::has_pane(rest[i], pane));
                let k = tree::panes_of(rest).index_of(pane);
                assert(tree::panes_of(members)[k] == pane);
            } else {
                let k = last.index_of(pane);
                assert(tree::panes_of(members)[tree::panes_of(rest).len() + k] == pane);
            }
        }
    }
}

/// `first_with` names the first member that has the pane, if one has it.
pub(crate) proof fn lemma_first_with(members: Seq<Tree>, pane: PaneId)
    ensures
        tree::first_with(members, pane) <= members.len(),
        tree::first_with(members, pane) < members.len() ==> tree::has_pane(
            members[tree::first_with(members, pane) as int],
            pane,
        ),
        forall|j: int|
            0 <= j < tree::first_with(members, pane) ==> !tree::has_pane(
                #[trigger] members[j],
                pane,
            ),
        tree::first_with(members, pane) < members.len() <==> tree::panes_of(members).contains(
            pane,
        ),
    decreases members.len(),
{
    lemma_panes_of_contains(members, pane);
    if members.len() > 0 && !tree::has_pane(members[0], pane) {
        let rest = members.drop_first();
        lemma_first_with(rest, pane);
        lemma_panes_of_contains(rest, pane);
        assert forall|j: int| 0 <= j < tree::first_with(members, pane) implies !tree::has_pane(
            #[trigger] members[j],
            pane,
        ) by {
            if j > 0 {
                assert(members[j] == rest[j - 1]);
            }
        }
        if tree::first_with(rest, pane) >= rest.len() {
            assert forall|j: int| 0 <= j < members.len() implies !tree::has_pane(
                #[trigger] members[j],
                pane,
            ) by {
                if j > 0 {
                    assert(members[j] == rest[j - 1]);
                }
            }
        }
    }
}

/// The first member that has the pane is the one `first_with` names.
pub(crate) proof fn lemma_first_with_is(members: Seq<Tree>, pane: PaneId, i: int)
    requires
        0 <= i < members.len(),
        tree::has_pane(members[i], pane),
        forall|j: int| 0 <= j < i ==> !tree::has_pane(#[trigger] members[j], pane),
    ensures
        tree::first_with(members, pane) == i,
        tree::panes_of(members).contains(pane),
{
    lemma_first_with(members, pane);
    lemma_panes_of_contains(members, pane);
    let f = tree::first_with(members, pane) as int;
    if f < i {
        assert(!tree::has_pane(members[f], pane));
    }
}

/// Where one member of an axis was changed, the others are what they were.
pub(crate) proof fn lemma_one_member_changed(now: PaneAxis, was: PaneAxis, i: int)
    requires
        0 <= i < was.members@.len(),
        now.members@.len() == was.members@.len(),
        forall|j: int|
            0 <= j < was.members@.len() && j != i ==> now.members@[j] == was.members@[j],
    ensures
        now.model().members == was.model().members.update(i, now.members@[i].model()),
{
    assert(now.model().members =~= was.model().members.update(i, now.members@[i].model()));
}

/// Equal shares for `n` members.
pub(crate) fn even_flexes(n: usize) -> (res: Vec<Flex>)
    ensures
        res@ == tree::even_flexes(n as nat),
{
    let mut res: Vec<Flex> = Vec::new();
    let mut i: usize = 0;
    while i < n
        invariant
            i <= n,
            res@ == tree::even_flexes(i as nat),
        decreases n - i,
    {
        res.push(Flex { bits: UNIT_FLEX_BITS });
        i += 1;
    }
    res
}

/// No member of `n` has been painted.
fn unpainted(n: usize) -> (res: Vec<Option<PixelBounds>>)
    ensures
        res@ == tree::unpainted(n as nat),
{
    let mut res: Vec<Option<PixelBounds>> = Vec::new();
    let mut i: usize = 0;
    while i < n
        invariant
            i <= n,
            res@ == tree::unpainted(i as nat),
        decreases n - i,
    {
        res.push(None);
        i += 1;
    }
    res
}

/// Whether a pane is among the given ones.
pub(crate) fn holds_pane(panes: &Vec<PaneId>, pane: PaneId) -> (res: bool)
    ensures
        res == panes@.contains(pane),
{
    let mut i: usize = 0;
    while i < panes.len()
        invariant
            i <= panes@.len(),
            forall|j: int| 0 <= j < i ==> panes@[j] != pane,
        decreases panes@.len() - i,
    {
        if panes[i] == pane {
            return true;
        }
        i += 1;
    }
    false
}

impl PaneStack {
    /// Builds a stack, moving `active` into bounds. A stack of the tree has at
    /// least two panes; [`Member::new_stack`] sees to that.
    pub fn new(panes: Vec<PaneId>, active: usize) -> (res: PaneStack)
        ensures
            res.model() == clamped_stack(panes@, active as nat),
    {
        let len = panes.len();
        let active: usize = if len == 0 {
            0
        } else if active < len {
            active
        } else {
            len - 1
        };
        PaneStack { panes, active }
    }
}

impl Member {
    /// The member that holds the given panes in one slot: a stack of two or more, a
    /// single pane, or nothing where there is no pane. `active` is moved into bounds.
    pub fn new_stack(panes: Vec<PaneId>, active: usize) -> (res: Option<Member>)
        ensures
            res is Some <==> slot_of(panes@, active as nat) is Some,
            res matches Some(member) ==> Some(member.model()) == slot_of(panes@, active as nat),
    {
        let len = panes.len();
        if len == 0 {
            None
        } else if len == 1 {
            Some(Member::Pane(panes[0]))
        } else {
            Some(Member::Stack(PaneStack::new(panes, active)))
        }
    }

    /// An axis of two panes, of which `new_pane` lies in `direction` from `old_pane`.
    pub(crate) fn new_axis(old_pane: PaneId, new_pane: PaneId, direction: SplitDirection) -> (res: Member)
        ensures
            res.model() == Tree::Axis(
                tree::pair_axis(Tree::Pane(old_pane), Tree::Pane(new_pane), direction),
            ),
    {
        Member::Axis(PaneAxis::pair(Member::Pane(old_pane), new_pane, direction))
    }
}

/// What is left in a stack's slot without the given pane: a smaller stack, a single
/// pane, or nothing.
pub(crate) fn collapse_stack_after_removing(stack: &PaneStack, pane: PaneId) -> (res: Option<Member>)
    ensures
        res is Some <==> without_pane(stack.model(), pane) is Some,
        res matches Some(member) ==> Some(member.model()) == without_pane(stack.model(), pane),
{
    let mut surviving: Vec<PaneId> = Vec::new();
    let mut i: usize = 0;
    while i < stack.panes.len()
        invariant
            i <= stack.panes@.len(),
            surviving@ == other_panes(stack.panes@.take(i as int), pane),
        decreases stack.panes@.len() - i,
    {
        proof {
            reveal(Seq::filter);
            assert(stack.panes@.take(i + 1).drop_last() == stack.panes@.take(i as int));
        }
        if stack.panes[i] != pane {
            surviving.push(stack.panes[i]);
        }
        i += 1;
    }
    proof {
        assert(stack.panes@.take(i as int) == stack.panes@);
    }
    Member::new_stack(surviving, stack.active)
}

impl PaneAxis {
    /// An axis over the given members, each with the same share, none painted yet.
    pub fn new(axis: Axis, members: Vec<Member>) -> (res: PaneAxis)
        ensures
            res.axis == axis,
            res.members == members,
            res.flexes@ == tree::even_flexes(members@.len()),
            res.bounding_boxes@ == tree::unpainted(members@.len()),
    {
        let flexes = even_flexes(members.len());
        let bounding_boxes = unpainted(members.len());
        PaneAxis { axis, members, flexes, bounding_boxes }
    }

    /// An axis over the given members that has not been painted, with the given shares.
    /// Where there are none, too few or too many, or where they are off balance, that is,
    /// do not add up to the member count, each member gets the same share.
    pub fn load(
        axis: Axis,
        members: Vec<Member>,
        flexes: Option<Vec<Flex>>,
        off_balance: bool,
    ) -> (res: PaneAxis)
        ensures
            res.axis == axis,
            res.members == members,
            res.flexes@ == (match flexes {
                Some(shares) => if shares@.len() == members@.len() && !off_balance {
                    shares@
                } else {
                    tree::even_flexes(members@.len())
                },
                None => tree::even_flexes(members@.len()),
            }),
            res.bounding_boxes@ == tree::unpainted(members@.len()),
    {
        let len = members.len();
        let flexes = match flexes {
            Some(shares) => if shares.len() == len && !off_balance {
                shares
            } else {
                even_flexes(len)
            },
            None => even_flexes(len),
        };
        let bounding_boxes = unpainted(len);
        PaneAxis { axis, members, flexes, bounding_boxes }
    }

    /// An axis of two members, of which the new pane lies in `direction` from `settled`.
    pub(crate) fn pair(settled: Member, new_pane: PaneId, direction: SplitDirection) -> (res: PaneAxis)
        ensures
            res.model() == tree::pair_axis(settled.model(), Tree::Pane(new_pane), direction),
    {
        let mut members: Vec<Member> = Vec::new();
        if direction.increasing() {
            members.push(settled);
            members.push(Member::Pane(new_pane));
        } else {
            members.push(Member::Pane(new_pane));
            members.push(settled);
        }
        let res = PaneAxis::new(direction.axis(), members);
        assert(res.model().members == tree::side_by_side(
            settled.model(),
            Tree::Pane(new_pane),
            direction,
        ));
        res
    }

    /// Puts a pane in at an index and evens out all shares.
    pub(crate) fn insert_pane(&mut self, idx: usize, new_pane: PaneId)
        requires
            idx <= old(self).members@.len(),
        ensures
            final(self).model() == with_pane_at(old(self).model(), idx as int, new_pane),
    {
        self.members.insert(idx, Member::Pane(new_pane));
        self.flexes = even_flexes(self.members.len());
        assert(self.model().members == old(self).model().members.insert(
            idx as int,
            Tree::Pane(new_pane),
        ));
    }

    /// Makes room for `new_pane` beside the first leaf with `old_pane`. Returns whether
    /// there is such a leaf.
    pub(crate) fn split(
        &mut self,
        old_pane: PaneId,
        new_pane: PaneId,
        direction: SplitDirection,
    ) -> (found: bool)
        ensures
            found == tree::panes_of(old(self).model().members).contains(old_pane),
            final(self).model() == split_axis(old(self).model(), old_pane, new_pane, direction),
        decreases *old(self),
    {
        let ghost before = *self;
        let ghost start = self.model();
        proof {
            lemma_first_with(start.members, old_pane);
        }
        let len = self.members.len();
        let mut i: usize = 0;
        while i < len
            invariant
                i <= len,
                len == self.members@.len(),
                len == start.members.len(),
                before == *old(self),
                start == before.model(),
                self.model() == start,
                forall|j: int| i <= j < len ==> self.members@[j] == before.members@[j],
                forall|j: int| 0 <= j < i ==> !tree::has_pane(#[trigger] start.members[j], old_pane),
            decreases len - i,
        {
            assert(start.members[i as int] == before.members@[i as int].model());
            assert(decreases_to!(before => before.members@[i as int]));
            let ghost was = *self;
            let step = match &mut self.members[i] {
                Member::Axis(axis) => {
                    if axis.split(old_pane, new_pane, direction) {
                        SplitStep::Done
                    } else {
                        SplitStep::Miss
                    }
                },
                Member::Pane(pane) => {
                    if *pane == old_pane {
                        SplitStep::Beside(Member::Pane(old_pane))
                    } else {
                        SplitStep::Miss
                    }
                },
                Member::Stack(stack) => {
                    if holds_pane(&stack.panes, old_pane) {
                        match collapse_stack_after_removing(stack, old_pane) {
                            Some(rest) => SplitStep::Beside(rest),
                            None => SplitStep::Replace,
                        }
                    } else {
                        SplitStep::Miss
                    }
                },
            };
            proof {
                if !(step is Miss) {
                    if before.members@[i as int] is Pane {
                        assert(tree::panes(start.members[i as int])[0] == old_pane);
                    }
                    assert(tree::has_pane(start.members[i as int], old_pane));
                    lemma_first_with_is(start.members, old_pane, i as int);
                }
            }
            match step {
                SplitStep::Miss => {
                    proof {
                        if let Tree::Axis(inner) = start.members[i as int] {
                            lemma_first_with(inner.members, old_pane);
                        }
                        lemma_one_member_changed(*self, was, i as int);
                        assert(self.members@[i as int].model() == start.members[i as int]);
                        assert(self.model().members == start.members);
                    }
                },
                SplitStep::Done => {
                    assert(self.model().members == split_axis(
                        start,
                        old_pane,
                        new_pane,
                        direction,
                    ).members);
                    return true;
                },
                SplitStep::Replace => {
                    self.members[i] = Member::Pane(new_pane);
                    assert(self.model().members == start.members.update(
                        i as int,
                        Tree::Pane(new_pane),
                    ));
                    return true;
                },
                SplitStep::Beside(settled) => {
                    assert(self.model().members == start.members);
                    if direction.axis() == self.axis {
                        self.members[i] = settled;
                        assert(self.model().members == start.members.update(
                            i as int,
                            settled.model(),
                        ));
                        let idx: usize = if direction.increasing() {
                            i + 1
                        } else {
                            i
                        };
                        self.insert_pane(idx, new_pane);
                    } else {
                        let pair = PaneAxis::pair(settled, new_pane, direction);
                        self.members[i] = Member::Axis(pair);
                        assert(self.model().members == start.members.update(
                            i as int,
                            Tree::Axis(pair.model()),
                        ));
                    }
                    return true;
                },
            }
            i += 1;
        }
        false
    }
}

/// The pane that was asked for is not in the tree.
#[derive(Clone, Copy, PartialEq, Eq, Debug, Structural)]
pub struct PaneNotFound;

impl PaneAxis {
    /// Takes the first leaf with the pane out. Where one member is left, it is handed
    /// out and the axis is empty.
    pub(crate) fn remove(&mut self, pane_to_remove: PaneId) -> (res: Result<Option<Member>, PaneNotFound>)
        ensures
            res is Ok <==> tree::panes_of(old(self).model().members).contains(pane_to_remove),
            res is Err ==> final(self).model() == old(self).model(),
            res matches Ok(last) ==> {
                let left = remove_from_axis(old(self).model(), pane_to_remove);
                &&& last is Some <==> left.members.len() == 1
                &&& last matches Some(member) ==> {
                    &&& member.model() == left.members[0]
                    &&& final(self).model() == (AxisModel {
                        members: Seq::empty(),
                        flexes: Seq::empty(),
                        ..left
                    })
                }
                &&& last is None ==> final(self).model() == left
            },
        decreases *old(self),
    {
        let ghost before = *self;
        let ghost start = self.model();
        proof {
            lemma_first_with(start.members, pane_to_remove);
        }
        let len = self.members.len();
        let mut i: usize = 0;
        while i < len
            invariant
                i <= len,
                len == self.members@.len(),
                len == start.members.len(),
                before == *old(self),
                start == before.model(),
                self.model() == start,
                forall|j: int| i <= j < len ==> self.members@[j] == before.members@[j],
                forall|j: int|
                    0 <= j < i ==> !tree::has_pane(#[trigger] start.members[j], pane_to_remove),
            decreases len - i,
        {
            assert(start.members[i as int] == before.members@[i as int].model());
            assert(decreases_to!(before => before.members@[i as int]));
            let ghost was = *self;
            let step = match &mut self.members[i] {
                Member::Axis(axis) => {
                    match axis.remove(pane_to_remove) {
                        Ok(Some(last)) => RemoveStep::Become(last),
                        Ok(None) => RemoveStep::Done,
                        Err(_) => RemoveStep::Miss,
                    }
                },
                Member::Pane(pane) => {
                    if *pane == pane_to_remove {
                        RemoveStep::Drop
                    } else {
                        RemoveStep::Miss
                    }
                },
                Member::Stack(stack) => {
                    if holds_pane(&stack.panes, pane_to_remove) {
                        match collapse_stack_after_removing(stack, pane_to_remove) {
                            Some(rest) => RemoveStep::Become(rest),
                            None => RemoveStep::Drop,
                        }
                    } else {
                        RemoveStep::Miss
                    }
                },
            };
            let found = match step {
                RemoveStep::Miss => false,
                RemoveStep::Done => true,
                RemoveStep::Become(member) => {
                    self.members[i] = member;
                    true
                },
                RemoveStep::Drop => {
                    self.members.remove(i);
                    self.flexes = even_flexes(self.members.len());
                    true
                },
            };
            if found {
                proof {
                    if before.members@[i as int] is Pane {
                        assert(tree::panes(start.members[i as int])[0] == pane_to_remove);
                    }
                    assert(tree::has_pane(start.members[i as int], pane_to_remove));
                    lemma_first_with_is(start.members, pane_to_remove, i as int);
                    assert(self.model().members == remove_from_axis(
                        start,
                        pane_to_remove,
                    ).members);
                }
                let ghost left = self.model();
                if self.members.len() == 1 {
                    let last = self.members.pop();
                    self.flexes = even_flexes(self.members.len());
                    proof {
                        assert(self.model().members == Seq::<Tree>::empty());
                        assert(self.flexes@ == Seq::<Flex>::empty());
                        assert(left.members[0] == last->0.model());
                    }
                    return Ok(last);
                }
                return Ok(None);
            }
            proof {
                lemma_one_member_changed(*self, was, i as int);
                assert(self.members@[i as int].model() == start.members[i as int]);
                assert(self.model().members == start.members);
            }
            i += 1;
        }
        Err(PaneNotFound)
    }
}

/// What one member of an axis answers when a pane is taken out.
enum RemoveStep {
    /// The pane is not here.
    Miss,
    /// The member has taken the pane out itself.
    Done,
    /// The member gives way to this.
    Become(Member),
    /// Nothing is left of the member.
    Drop,
}

/// What one member of an axis answers when a pane is split.
enum SplitStep {
    /// The pane is not here.
    Miss,
    /// The member has made room itself.
    Done,
    /// Nothing else is left here: the new pane takes the slot.
    Replace,
    /// The new pane goes beside this.
    Beside(Member),
}

/// The pane that takes a pane's place when two are exchanged.
pub open spec fn exchanged(pane: PaneId, from: PaneId, to: PaneId) -> PaneId {
    if pane == from {
        to
    } else if pane == to {
        from
    } else {
        pane
    }
}

/// A tree in which two panes have changed places.
pub open spec fn swap_in(tree: Tree, from: PaneId, to: PaneId) -> Tree
    decreases tree,
{
    match tree {
        Tree::Axis(axis) => Tree::Axis(
            AxisModel {
                members: Seq::new(
                    axis.members.len(),
                    |i: int|
                        if 0 <= i < axis.members.len() {
                            swap_in(axis.members[i], from, to)
                        } else {
                            arbitrary()
                        },
                ),
                ..axis
            },
        ),
        Tree::Pane(pane) => Tree::Pane(exchanged(pane, from, to)),
        Tree::Stack(stack) => Tree::Stack(
            StackModel {
                panes: Seq::new(stack.panes.len(), |i: int| exchanged(stack.panes[i], from, to)),
                ..stack
            },
        ),
    }
}

/// A tree in which every axis is turned.
pub open spec fn invert_in(tree: Tree) -> Tree
    decreases tree,
{
    match tree {
        Tree::Axis(axis) => Tree::Axis(
            AxisModel {
                axis: axis.axis.inverted(),
                members: Seq::new(
                    axis.members.len(),
                    |i: int|
                        if 0 <= i < axis.members.len() {
                            invert_in(axis.members[i])
                        } else {
                            arbitrary()
                        },
                ),
                ..axis
            },
        ),
        leaf => leaf,
    }
}

/// A tree in which every axis gives each member the same share.
pub open spec fn even_in(tree: Tree) -> Tree
    decreases tree,
{
    match tree {
        Tree::Axis(axis) => Tree::Axis(
            AxisModel {
                members: Seq::new(
                    axis.members.len(),
                    |i: int|
                        if 0 <= i < axis.members.len() {
                            even_in(axis.members[i])
                        } else {
                            arbitrary()
                        },
                ),
                flexes: tree::even_flexes(axis.members.len()),
                ..axis
            },
        ),
        leaf => leaf,
    }
}

impl Member {
    /// Lets two panes change places wherever they stand.
    pub(crate) fn swap(&mut self, from: PaneId, to: PaneId)
        ensures
            final(self).model() == swap_in(old(self).model(), from, to),
        decreases *old(self),
    {
        let ghost whole = *self;
        match self {
            Member::Axis(axis) => {
                let ghost before = *axis;
                let ghost start = axis.model();
                let len = axis.members.len();
                let mut i: usize = 0;
                while i < len
                    invariant
                        i <= len,
                        len == axis.members@.len(),
                        len == before.members@.len(),
                        whole == *old(self),
                        whole == Member::Axis(before),
                        start == before.model(),
                        axis.axis == before.axis,
                        axis.flexes == before.flexes,
                        axis.bounding_boxes == before.bounding_boxes,
                        forall|j: int| i <= j < len ==> axis.members@[j] == before.members@[j],
                        forall|j: int|
                            0 <= j < i ==> (#[trigger] axis.members@[j]).model() == swap_in(
                                start.members[j],
                                from,
                                to,
                            ),
                    decreases len - i,
                {
                    assert(decreases_to!(whole => whole->Axis_0));
                    assert(decreases_to!(before => before.members@[i as int]));
                    axis.members[i].swap(from, to);
                    i += 1;
                }
                assert(axis.model().members == swap_in(
                    Tree::Axis(start),
                    from,
                    to,
                )->Axis_0.members);
            },
            Member::Pane(pane) => {
                if *pane == from {
                    *pane = to;
                } else if *pane == to {
                    *pane = from;
                }
            },
            Member::Stack(stack) => {
                let ghost before = *stack;
                let len = stack.panes.len();
                let mut i: usize = 0;
                while i < len
                    invariant
                        i <= len,
                        len == stack.panes@.len(),
                        len == before.panes@.len(),
                        stack.active == before.active,
                        forall|j: int| i <= j < len ==> stack.panes@[j] == before.panes@[j],
                        forall|j: int|
                            0 <= j < i ==> stack.panes@[j] == exchanged(
                                before.panes@[j],
                                from,
                                to,
                            ),
                    decreases len - i,
                {
                    let pane = stack.panes[i];
                    if pane == from {
                        stack.panes[i] = to;
                    } else if pane == to {
                        stack.panes[i] = from;
                    }
                    i += 1;
                }
                assert(stack.model().panes == Seq::new(
                    before.panes@.len(),
                    |j: int| exchanged(before.panes@[j], from, to),
                ));
            },
        }
    }

    /// Turns every axis of the tree.
    pub(crate) fn invert_pane_axies(&mut self)
        ensures
            final(self).model() == invert_in(old(self).model()),
        decreases *old(self),
    {
        let ghost whole = *self;
        match self {
            Member::Axis(axis) => {
                let ghost before = *axis;
                let ghost start = axis.model();
                axis.axis = axis.axis.invert();
                let len = axis.members.len();
                let mut i: usize = 0;
                while i < len
                    invariant
                        i <= len,
                        len == axis.members@.len(),
                        len == before.members@.len(),
                        whole == *old(self),
                        whole == Member::Axis(before),
                        start == before.model(),
                        axis.axis == before.axis.inverted(),
                        axis.flexes == before.flexes,
                        axis.bounding_boxes == before.bounding_boxes,
                        forall|j: int| i <= j < len ==> axis.members@[j] == before.members@[j],
                        forall|j: int|
                            0 <= j < i ==> (#[trigger] axis.members@[j]).model() == invert_in(
                                start.members[j],
                            ),
                    decreases len - i,
                {
                    assert(decreases_to!(whole => whole->Axis_0));
                    assert(decreases_to!(before => before.members@[i as int]));
                    axis.members[i].invert_pane_axies();
                    i += 1;
                }
                assert(axis.model().members == invert_in(Tree::Axis(start))->Axis_0.members);
            },
            _ => {},
        }
    }

    /// Evens out the shares of every axis of the tree.
    pub(crate) fn reset_pane_sizes(&mut self)
        ensures
            final(self).model() == even_in(old(self).model()),
        decreases *old(self),
    {
        let ghost whole = *self;
        match self {
            Member::Axis(axis) => {
                let ghost before = *axis;
                let ghost start = axis.model();
                let len = axis.members.len();
                axis.flexes = even_flexes(len);
                let mut i: usize = 0;
                while i < len
                    invariant
                        i <= len,
                        len == axis.members@.len(),
                        len == before.members@.len(),
                        whole == *old(self),
                        whole == Member::Axis(before),
                        start == before.model(),
                        axis.axis == before.axis,
                        axis.flexes@ == tree::even_flexes(len as nat),
                        axis.bounding_boxes == before.bounding_boxes,
                        forall|j: int| i <= j < len ==> axis.members@[j] == before.members@[j],
                        forall|j: int|
                            0 <= j < i ==> (#[trigger] axis.members@[j]).model() == even_in(
                                start.members[j],
                            ),
                    decreases len - i,
                {
                    assert(decreases_to!(whole => whole->Axis_0));
                    assert(decreases_to!(before => before.members@[i as int]));
                    axis.members[i].reset_pane_sizes();
                    i += 1;
                }
                assert(axis.model().members == even_in(Tree::Axis(start))->Axis_0.members);
            },
            _ => {},
        }
    }
}

} // verus!
