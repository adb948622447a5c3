//! Snapshots of a pane layout: what is captured of a pane tree, and what is put in its
//! place later.

use std::sync::Arc;

use vstd::prelude::*;
use vstd::string::*;

use crate::pane_group::direction::Axis;
use crate::pane_group::group::PaneGroup;
use crate::pane_group::query;
use crate::pane_group::tree;
use crate::pane_group::tree::Flex;
use crate::pane_group::tree::Member;
use crate::pane_group::tree::PaneAxis;
use crate::pane_group::tree::PaneId;
use crate::pane_group::tree::PixelBounds;
use crate::pane_group::tree::Tree;
use crate::text;
use crate::vectors;

verus! {

/// The line along which the children of a group are laid out.
#[derive(Clone, Copy, PartialEq, Eq, Debug, Structural)]
pub enum SnapshotAxis {
    Horizontal,
    Vertical,
}

impl SnapshotAxis {
    /// The axis of a pane tree.
    pub open spec fn as_axis(self) -> Axis {
        match self {
            SnapshotAxis::Horizontal => Axis::Horizontal,
            SnapshotAxis::Vertical => Axis::Vertical,
        }
    }

    /// Returns the axis of a pane tree.
    pub fn into_axis(self) -> (res: Axis)
        ensures
            res == self.as_axis(),
    {
        match self {
            SnapshotAxis::Horizontal => Axis::Horizontal,
            SnapshotAxis::Vertical => Axis::Vertical,
        }
    }

    /// Returns the axis of a snapshot for that of a pane tree.
    pub fn from_axis(axis: Axis) -> (res: SnapshotAxis)
        ensures
            res == snapshot_axis(axis),
            res.as_axis() == axis,
    {
        match axis {
            Axis::Horizontal => SnapshotAxis::Horizontal,
            Axis::Vertical => SnapshotAxis::Vertical,
        }
    }
}

/// The axis of a snapshot for that of a pane tree.
pub open spec fn snapshot_axis(axis: Axis) -> SnapshotAxis {
    match axis {
        Axis::Horizontal => SnapshotAxis::Horizontal,
        Axis::Vertical => SnapshotAxis::Vertical,
    }
}

/// An item of a pane: its kind, its number, whether it is the one shown, and whether it is
/// shown as a preview.
#[derive(PartialEq, Debug)]
pub struct ItemSnapshot {
    pub kind: String,
    pub item_id: u64,
    pub active: bool,
    pub preview: bool,
}

/// A pane: its items, whether it has the focus, and how many items are pinned.
#[derive(PartialEq, Debug)]
pub struct PaneSnapshot {
    pub items: Vec<ItemSnapshot>,
    pub active: bool,
    pub pinned_count: usize,
}

/// A layout of panes.
#[derive(Debug)]
pub enum LayoutSnapshot {
    Group { axis: SnapshotAxis, flexes: Option<Vec<Flex>>, children: Vec<LayoutSnapshot> },
    /// Layouts that share one slot, of which the one at `active` is shown.
    Stack { members: Vec<LayoutSnapshot>, active: usize },
    Pane(PaneSnapshot),
}

/// An item of a stored pane.
#[derive(Debug)]
pub struct SerializedItem {
    pub kind: String,
    pub item_id: u64,
    pub active: bool,
    pub preview: bool,
}

/// A stored pane.
#[derive(Debug)]
pub struct SerializedPane {
    pub children: Vec<SerializedItem>,
    pub active: bool,
    pub pinned_count: usize,
}

/// A stored layout, from which a workspace builds its panes.
#[derive(Debug)]
pub enum SerializedPaneGroup {
    Group { axis: Axis, flexes: Option<Vec<Flex>>, children: Vec<SerializedPaneGroup> },
    Pane(SerializedPane),
}

/// What an item holds.
#[verifier::ext_equal]
pub struct ItemModel {
    pub kind: Seq<char>,
    pub item_id: u64,
    pub active: bool,
    pub preview: bool,
}

/// What a pane holds.
#[verifier::ext_equal]
pub struct PaneModel {
    pub items: Seq<ItemModel>,
    pub active: bool,
    pub pinned_count: nat,
}

/// What a [`LayoutSnapshot`] holds.
#[verifier::ext_equal]
pub enum LayoutModel {
    Group { axis: SnapshotAxis, flexes: Option<Seq<Flex>>, children: Seq<LayoutModel> },
    Stack { members: Seq<LayoutModel>, active: nat },
    Pane(PaneModel),
}

/// What a [`SerializedPaneGroup`] holds.
#[verifier::ext_equal]
pub enum SerializedModel {
    Group { axis: Axis, flexes: Option<Seq<Flex>>, children: Seq<SerializedModel> },
    Pane(PaneModel),
}

impl View for ItemSnapshot {
    type V = ItemModel;

    open spec fn view(&self) -> ItemModel {
        ItemModel {
            kind: self.kind@,
            item_id: self.item_id,
            active: self.active,
            preview: self.preview,
        }
    }
}

impl View for SerializedItem {
    type V = ItemModel;

    open spec fn view(&self) -> ItemModel {
        ItemModel {
            kind: self.kind@,
            item_id: self.item_id,
            active: self.active,
            preview: self.preview,
        }
    }
}

/// What items hold.
pub open spec fn item_models(items: Seq<ItemSnapshot>) -> Seq<ItemModel> {
    items.map_values(|item: ItemSnapshot| item@)
}

/// What stored items hold.
pub open spec fn serialized_item_models(items: Seq<SerializedItem>) -> Seq<ItemModel> {
    items.map_values(|item: SerializedItem| item@)
}

impl View for PaneSnapshot {
    type V = PaneModel;

    open spec fn view(&self) -> PaneModel {
        PaneModel {
            items: item_models(self.items@),
            active: self.active,
            pinned_count: self.pinned_count as nat,
        }
    }
}

impl View for SerializedPane {
    type V = PaneModel;

    open spec fn view(&self) -> PaneModel {
        PaneModel {
            items: serialized_item_models(self.children@),
            active: self.active,
            pinned_count: self.pinned_count as nat,
        }
    }
}

/// What optional shares hold.
pub open spec fn shares_model(flexes: Option<Vec<Flex>>) -> Option<Seq<Flex>> {
    match flexes {
        Some(flexes) => Some(flexes@),
        None => None,
    }
}

impl LayoutSnapshot {
    pub open spec fn model(self) -> LayoutModel
        decreases self,
    {
        match self {
            LayoutSnapshot::Group { axis, flexes, children } => LayoutModel::Group {
                axis,
                flexes: shares_model(flexes),
                children: Seq::new(
                    children@.len(),
                    |i: int|
                        if 0 <= i < children@.len() {
                            children@[i].model()
                        } else {
                            arbitrary()
                        },
                ),
            },
            LayoutSnapshot::Stack { members, active } => LayoutModel::Stack {
                members: Seq::new(
                    members@.len(),
                    |i: int|
                        if 0 <= i < members@.len() {
                            members@[i].model()
                        } else {
                            arbitrary()
                        },
                ),
                active: active as nat,
            },
            LayoutSnapshot::Pane(pane) => LayoutModel::Pane(pane@),
        }
    }
}

impl SerializedPaneGroup {
    pub open spec fn model(self) -> SerializedModel
        decreases self,
    {
        match self {
            SerializedPaneGroup::Group { axis, flexes, children } => SerializedModel::Group {
                axis,
                flexes: shares_model(flexes),
                children: Seq::new(
                    children@.len(),
                    |i: int|
                        if 0 <= i < children@.len() {
                            children@[i].model()
                        } else {
                            arbitrary()
                        },
                ),
            },
            SerializedPaneGroup::Pane(pane) => SerializedModel::Pane(pane@),
        }
    }
}

/// A pane without items that has the focus.
pub open spec fn empty_pane_model() -> PaneModel {
    PaneModel { items: Seq::empty(), active: true, pinned_count: 0 }
}

/// A layout in the form in which it is stored. Of a stack only the layout that is shown is
/// stored, or an empty pane where none is.
pub open spec fn serialized(layout: LayoutModel) -> SerializedModel
    decreases layout,
{
    match layout {
        LayoutModel::Group { axis, flexes, children } => SerializedModel::Group {
            axis: axis.as_axis(),
            flexes,
            children: Seq::new(
                children.len(),
                |i: int|
                    if 0 <= i < children.len() {
                        serialized(children[i])
                    } else {
                        arbitrary()
                    },
            ),
        },
        LayoutModel::Stack { members, active } => if active < members.len() {
            serialized(members[active as int])
        } else {
            SerializedModel::Pane(empty_pane_model())
        },
        LayoutModel::Pane(pane) => SerializedModel::Pane(pane),
    }
}

/// Whether no stack stands in a layout.
pub open spec fn is_stack_free(layout: LayoutModel) -> bool
    decreases layout,
{
    match layout {
        LayoutModel::Group { children, .. } => forall|i: int|
            0 <= i < children.len() ==> is_stack_free(#[trigger] children[i]),
        LayoutModel::Stack { .. } => false,
        LayoutModel::Pane(_) => true,
    }
}

/// The layout of which a stored one is the form.
pub open spec fn unserialized(stored: SerializedModel) -> LayoutModel
    decreases stored,
{
    match stored {
        SerializedModel::Group { axis, flexes, children } => LayoutModel::Group {
            axis: snapshot_axis(axis),
            flexes,
            children: Seq::new(
                children.len(),
                |i: int|
                    if 0 <= i < children.len() {
                        unserialized(children[i])
                    } else {
                        arbitrary()
                    },
            ),
        },
        SerializedModel::Pane(pane) => LayoutModel::Pane(pane),
    }
}

/// Nothing of a layout without stacks is lost when it is stored.
pub proof fn law_layout_round_trips(layout: LayoutModel)
    requires
        is_stack_free(layout),
    ensures
        unserialized(serialized(layout)) == layout,
    decreases layout,
{
    if let LayoutModel::Group { axis, flexes, children } = layout {
        let stored = serialized(layout)->Group_children;
        assert forall|i: int| 0 <= i < children.len() implies unserialized(#[trigger] stored[i])
            == children[i] by {
            law_layout_round_trips(children[i]);
        }
        assert(unserialized(serialized(layout))->Group_children =~= children);
    }
}

/// A pane as it is when a layout is captured.
#[derive(Debug)]
pub struct PaneState {
    pub items: Vec<ItemState>,
    /// The item that is shown.
    pub active_item: Option<u64>,
    /// The item that is shown as a preview.
    pub preview_item: Option<u64>,
    pub has_focus: bool,
    pub pinned_count: usize,
}

/// An item as it is when a layout is captured.
#[derive(Debug)]
pub struct ItemState {
    pub item_id: u64,
    /// The kind under which the item stores itself, if it does.
    pub serialized_item_kind: Option<String>,
    /// The kind of pane that the item is, if it is one of those that are registered.
    pub pane_kind: Option<String>,
}

/// What an [`ItemState`] holds.
#[verifier::ext_equal]
pub struct ItemStateModel {
    pub item_id: u64,
    pub serialized_item_kind: Option<Seq<char>>,
    pub pane_kind: Option<Seq<char>>,
}

/// What a [`PaneState`] holds.
#[verifier::ext_equal]
pub struct PaneStateModel {
    pub items: Seq<ItemStateModel>,
    pub active_item: Option<u64>,
    pub preview_item: Option<u64>,
    pub has_focus: bool,
    pub pinned_count: nat,
}

impl View for ItemState {
    type V = ItemStateModel;

    open spec fn view(&self) -> ItemStateModel {
        ItemStateModel {
            item_id: self.item_id,
            serialized_item_kind: text::text_model(self.serialized_item_kind),
            pane_kind: text::text_model(self.pane_kind),
        }
    }
}

impl View for PaneState {
    type V = PaneStateModel;

    open spec fn view(&self) -> PaneStateModel {
        PaneStateModel {
            items: self.items@.map_values(|item: ItemState| item@),
            active_item: self.active_item,
            preview_item: self.preview_item,
            has_focus: self.has_focus,
            pinned_count: self.pinned_count as nat,
        }
    }
}

/// The kind under which an item is captured: that under which it stores itself, or else
/// the kind of pane that it is. Without either it is left out.
pub open spec fn captured_kind(item: ItemStateModel) -> Option<Seq<char>> {
    match item.serialized_item_kind {
        Some(kind) => Some(kind),
        None => item.pane_kind,
    }
}

/// The first `n` items of a pane, as they are captured.
pub open spec fn captured_items(state: PaneStateModel, n: nat) -> Seq<ItemModel>
    decreases n,
{
    if n == 0 {
        Seq::empty()
    } else {
        let before = captured_items(state, (n - 1) as nat);
        let item = state.items[n - 1];
        match captured_kind(item) {
            Some(kind) => before.push(
                ItemModel {
                    kind,
                    item_id: item.item_id,
                    active: state.active_item == Some(item.item_id),
                    preview: state.preview_item == Some(item.item_id),
                },
            ),
            None => before,
        }
    }
}

/// A pane as it is captured.
pub open spec fn captured_pane(state: PaneStateModel) -> PaneModel {
    PaneModel {
        items: captured_items(state, state.items.len()),
        active: state.has_focus,
        pinned_count: state.pinned_count,
    }
}

/// A pane tree as it is captured, where `state_of` tells what a pane is like. Every pane of
/// a stack is captured.
pub open spec fn captured(tree: Tree, state_of: spec_fn(PaneId) -> PaneStateModel) -> LayoutModel
    decreases tree,
{
    match tree {
        Tree::Axis(axis) => LayoutModel::Group {
            axis: snapshot_axis(axis.axis),
            flexes: Some(axis.flexes),
            children: Seq::new(
                axis.members.len(),
                |i: int|
                    if 0 <= i < axis.members.len() {
                        captured(axis.members[i], state_of)
                    } else {
                        arbitrary()
                    },
            ),
        },
        Tree::Pane(pane) => LayoutModel::Pane(captured_pane(state_of(pane))),
        Tree::Stack(stack) => LayoutModel::Stack {
            members: stack.panes.map_values(
                |pane: PaneId| LayoutModel::Pane(captured_pane(state_of(pane))),
            ),
            active: stack.active,
        },
    }
}

/// The panes of a stored layout, from the first to the last.
pub open spec fn stored_panes(stored: SerializedModel) -> Seq<PaneModel>
    decreases stored,
{
    match stored {
        SerializedModel::Group { children, .. } => stored_panes_of(children),
        SerializedModel::Pane(pane) => seq![pane],
    }
}

/// The panes of a row of stored layouts.
pub open spec fn stored_panes_of(children: Seq<SerializedModel>) -> Seq<PaneModel>
    decreases children,
{
    if children.len() == 0 {
        Seq::empty()
    } else {
        stored_panes_of(children.drop_last()) + stored_panes(children.last())
    }
}

/// The panes that a tree shows, from the first leaf to the last.
pub open spec fn shown_panes(tree: Tree) -> Seq<PaneId>
    decreases tree,
{
    match tree {
        Tree::Axis(axis) => shown_panes_of(axis.members),
        leaf => match query::leaf_pane(leaf) {
            Some(pane) => seq![pane],
            None => Seq::empty(),
        },
    }
}

/// The panes that a row of trees shows.
pub open spec fn shown_panes_of(members: Seq<Tree>) -> Seq<PaneId>
    decreases members,
{
    if members.len() == 0 {
        Seq::empty()
    } else {
        shown_panes_of(members.drop_last()) + shown_panes(members.last())
    }
}

/// Panes as they are captured.
pub open spec fn captured_panes(panes: Seq<PaneId>, state_of: spec_fn(PaneId) -> PaneStateModel) -> Seq<
    PaneModel,
> {
    panes.map_values(|pane: PaneId| captured_pane(state_of(pane)))
}

/// A layout that was captured and stored has just the panes that the tree shows, each as it
/// was captured, in the same order.
pub proof fn law_stored_layout_shows_the_same_panes(
    tree: Tree,
    state_of: spec_fn(PaneId) -> PaneStateModel,
)
    requires
        tree::well_formed(tree),
    ensures
        stored_panes(serialized(captured(tree, state_of))) == captured_panes(
            shown_panes(tree),
            state_of,
        ),
    decreases tree, 1nat, 0nat,
{
    match tree {
        Tree::Axis(axis) => {
            let children = captured(tree, state_of)->Group_children;
            let stored = serialized(captured(tree, state_of))->Group_children;
            assert forall|i: int| 0 <= i < axis.members.len() implies #[trigger] stored[i]
                == serialized(captured(axis.members[i], state_of)) by {
                assert(stored[i] == serialized(children[i]));
            }
            lemma_stored_row(tree, axis.members, stored, state_of, axis.members.len());
            assert(stored.take(axis.members.len() as int) =~= stored);
            assert(axis.members.take(axis.members.len() as int) =~= axis.members);
        },
        Tree::Pane(pane) => {
            assert(captured_panes(seq![pane], state_of) =~= seq![captured_pane(state_of(pane))]);
        },
        Tree::Stack(stack) => {
            reveal_with_fuel(serialized, 2);
            let pane = stack.panes[stack.active as int];
            assert(captured_panes(seq![pane], state_of) =~= seq![captured_pane(state_of(pane))]);
        },
    }
}

proof fn lemma_stored_row(
    whole: Tree,
    members: Seq<Tree>,
    stored: Seq<SerializedModel>,
    state_of: spec_fn(PaneId) -> PaneStateModel,
    n: nat,
)
    requires
        whole is Axis,
        whole->Axis_0.members == members,
        tree::well_formed(whole),
        n <= members.len(),
        stored.len() == members.len(),
        forall|i: int|
            0 <= i < members.len() ==> #[trigger] stored[i] == serialized(
                captured(members[i], state_of),
            ),
    ensures
        stored_panes_of(stored.take(n as int)) == captured_panes(
            shown_panes_of(members.take(n as int)),
            state_of,
        ),
    decreases whole, 0nat, n,
{
    if n > 0 {
        lemma_stored_row(whole, members, stored, state_of, (n - 1) as nat);
        assert(decreases_to!(whole => members[n - 1]));
        law_stored_layout_shows_the_same_panes(members[n - 1], state_of);
        assert(stored.take(n as int).drop_last() =~= stored.take(n - 1));
        assert(members.take(n as int).drop_last() =~= members.take(n - 1));
        let (head, tail) = (shown_panes_of(members.take(n - 1)), shown_panes(members[n - 1]));
        assert(captured_panes(head + tail, state_of) =~= captured_panes(head, state_of)
            + captured_panes(tail, state_of));
        assert(stored[n - 1] == serialized(captured(members[n - 1], state_of)));
    } else {
        assert(captured_panes(shown_panes_of(members.take(0)), state_of) =~= Seq::empty());
    }
}

impl Clone for ItemSnapshot {
    fn clone(&self) -> (res: ItemSnapshot)
        ensures
            res@ == self@,
    {
        ItemSnapshot {
            kind: self.kind.clone(),
            item_id: self.item_id,
            active: self.active,
            preview: self.preview,
        }
    }
}

impl Clone for PaneSnapshot {
    fn clone(&self) -> (res: PaneSnapshot)
        ensures
            res@ == self@,
    {
        let mut items: Vec<ItemSnapshot> = Vec::new();
        let mut i: usize = 0;
        while i < self.items.len()
            invariant
                i <= self.items@.len(),
                items@.len() == i,
                forall|k: int| 0 <= k < i ==> (#[trigger] items@[k])@ == self.items@[k]@,
            decreases self.items@.len() - i,
        {
            items.push(self.items[i].clone());
            i += 1;
        }
        assert(item_models(items@) =~= item_models(self.items@));
        PaneSnapshot { items, active: self.active, pinned_count: self.pinned_count }
    }
}

impl Clone for LayoutSnapshot {
    fn clone(&self) -> (res: LayoutSnapshot)
        ensures
            res.model() == self.model(),
        decreases self,
    {
        match self {
            LayoutSnapshot::Group { axis, flexes, children } => {
                let mut copies: Vec<LayoutSnapshot> = Vec::new();
                let mut i: usize = 0;
                while i < children.len()
                    invariant
                        i <= children@.len(),
                        *self is Group,
                        self->Group_children == *children,
                        copies@.len() == i,
                        forall|k: int|
                            0 <= k < i ==> (#[trigger] copies@[k]).model() == children@[k].model(),
                    decreases children@.len() - i,
                {
                    assert(decreases_to!(self => self->Group_children@[i as int]));
                    copies.push(children[i].clone());
                    i += 1;
                }
                let flexes = match flexes {
                    Some(shares) => Some(copy_shares(shares)),
                    None => None,
                };
                let res = LayoutSnapshot::Group { axis: *axis, flexes, children: copies };
                assert(res.model()->Group_children =~= self.model()->Group_children);
                res
            },
            LayoutSnapshot::Stack { members, active } => {
                let mut copies: Vec<LayoutSnapshot> = Vec::new();
                let mut i: usize = 0;
                while i < members.len()
                    invariant
                        i <= members@.len(),
                        *self is Stack,
                        self->Stack_members == *members,
                        copies@.len() == i,
                        forall|k: int|
                            0 <= k < i ==> (#[trigger] copies@[k]).model() == members@[k].model(),
                    decreases members@.len() - i,
                {
                    assert(decreases_to!(self => self->Stack_members@[i as int]));
                    copies.push(members[i].clone());
                    i += 1;
                }
                let res = LayoutSnapshot::Stack { members: copies, active: *active };
                assert(res.model()->Stack_members =~= self.model()->Stack_members);
                res
            },
            LayoutSnapshot::Pane(pane) => LayoutSnapshot::Pane(pane.clone()),
        }
    }
}

/// Returns the items in the form in which they are stored.
fn serialize_items(items: Vec<ItemSnapshot>) -> (res: Vec<SerializedItem>)
    ensures
        serialized_item_models(res@) == item_models(items@),
{
    let ghost all = item_models(items@);
    let mut res: Vec<SerializedItem> = Vec::new();
    let mut i: usize = 0;
    assert(serialized_item_models(res@) =~= all.take(0));
    while i < items.len()
        invariant
            i <= items@.len(),
            all == item_models(items@),
            serialized_item_models(res@) == all.take(i as int),
        decreases items@.len() - i,
    {
        let ghost before = serialized_item_models(res@);
        let item = &items[i];
        res.push(
            SerializedItem {
                kind: item.kind.clone(),
                item_id: item.item_id,
                active: item.active,
                preview: item.preview,
            },
        );
        proof {
            assert(serialized_item_models(res@) =~= before.push(all[i as int]));
            assert(serialized_item_models(res@) =~= all.take(i + 1));
        }
        i += 1;
    }
    assert(all.take(i as int) =~= all);
    res
}

impl LayoutSnapshot {
    /// A layout of one pane without items, which has the focus.
    pub fn empty_pane() -> (res: LayoutSnapshot)
        ensures
            res.model() == LayoutModel::Pane(empty_pane_model()),
    {
        let pane = PaneSnapshot { items: Vec::new(), active: true, pinned_count: 0 };
        assert(pane@.items =~= Seq::empty());
        LayoutSnapshot::Pane(pane)
    }

    /// Returns the layout in the form in which it is stored.
    pub fn into_serialized(self) -> (res: SerializedPaneGroup)
        ensures
            res.model() == serialized(self.model()),
        decreases self,
    {
        let ghost whole = self;
        match self {
            LayoutSnapshot::Group { axis, flexes, children } => {
                let ghost all = children@;
                let ghost stored = serialized(whole.model())->Group_children;
                let mut waiting = children;
                let mut turned: Vec<SerializedPaneGroup> = Vec::new();
                while waiting.len() > 0
                    invariant
                        whole == self,
                        whole is Group,
                        whole->Group_children@ == all,
                        stored == serialized(whole.model())->Group_children,
                        waiting@ == all.take(waiting@.len() as int),
                        waiting@.len() + turned@.len() == all.len(),
                        forall|k: int|
                            0 <= k < turned@.len() ==> (#[trigger] turned@[k]).model()
                                == stored[all.len() - 1 - k],
                    decreases waiting@.len(),
                {
                    let ghost n = waiting@.len() as int;
                    if let Some(child) = waiting.pop() {
                        proof {
                            assert(waiting@ =~= all.take(n - 1));
                            assert(child == all[n - 1]);
                            assert(decreases_to!(whole => whole->Group_children@[n - 1]));
                            assert(stored[n - 1] == serialized(child.model()));
                        }
                        turned.push(child.into_serialized());
                    }
                }
                let children = vectors::turn(turned);
                let axis = axis.into_axis();
                let res = SerializedPaneGroup::Group { axis, flexes, children };
                proof {
                    assert forall|i: int| 0 <= i < all.len() implies (
                    #[trigger] children@[i]).model() == stored[i] by {
                        assert(children@[i] == turned@[all.len() - 1 - i]);
                    }
                    assert(res.model()->Group_children =~= stored);
                }
                res
            },
            LayoutSnapshot::Stack { members, active } => {
                let mut members = members;
                if active < members.len() {
                    let shown = members.swap_remove(active);
                    proof {
                        assert(shown == whole->Stack_members@[active as int]);
                        assert(decreases_to!(whole => whole->Stack_members@[active as int]));
                    }
                    shown.into_serialized()
                } else {
                    let pane = SerializedPane {
                        children: Vec::new(),
                        active: true,
                        pinned_count: 0,
                    };
                    assert(pane@.items =~= Seq::empty());
                    SerializedPaneGroup::Pane(pane)
                }
            },
            LayoutSnapshot::Pane(pane) => {
                let stored = SerializedPane {
                    children: serialize_items(pane.items),
                    active: pane.active,
                    pinned_count: pane.pinned_count,
                };
                SerializedPaneGroup::Pane(stored)
            },
        }
    }
}

/// Returns what the center of a workspace is replaced by when a layout is applied.
pub fn apply_layout(snapshot: LayoutSnapshot) -> (res: SerializedPaneGroup)
    ensures
        res.model() == serialized(snapshot.model()),
{
    snapshot.into_serialized()
}

/// A lookup that answers as `f` does.
pub open spec fn tells<F: Fn(PaneId) -> PaneState>(
    state_of: F,
    f: spec_fn(PaneId) -> PaneStateModel,
) -> bool {
    forall|pane: PaneId, state: PaneState| #[trigger]
        call_ensures(state_of, (pane,), state) ==> state@ == f(pane)
}

/// Whether a number, where there is one, is the given one.
fn is_item(id: Option<u64>, item_id: u64) -> (res: bool)
    ensures
        res == (id == Some(item_id)),
{
    match id {
        Some(id) => id == item_id,
        None => false,
    }
}

/// Returns a pane as it is captured.
pub fn capture_pane(state: &PaneState) -> (res: PaneSnapshot)
    ensures
        res@ == captured_pane(state@),
{
    let ghost model = state@;
    let mut items: Vec<ItemSnapshot> = Vec::new();
    assert(item_models(items@) =~= Seq::empty());
    let mut i: usize = 0;
    while i < state.items.len()
        invariant
            i <= state.items@.len(),
            model == state@,
            item_models(items@) == captured_items(model, i as nat),
        decreases state.items@.len() - i,
    {
        let ghost before = item_models(items@);
        let item = &state.items[i];
        assert(model.items[i as int] == item@);
        let kind = match &item.serialized_item_kind {
            Some(kind) => Some(kind.clone()),
            None => match &item.pane_kind {
                Some(kind) => Some(kind.clone()),
                None => None,
            },
        };
        if let Some(kind) = kind {
            let captured = ItemSnapshot {
                kind,
                item_id: item.item_id,
                active: is_item(state.active_item, item.item_id),
                preview: is_item(state.preview_item, item.item_id),
            };
            let ghost captured_model = captured@;
            items.push(captured);
            assert(item_models(items@) =~= before.push(captured_model));
        }
        i += 1;
    }
    PaneSnapshot { items, active: state.has_focus, pinned_count: state.pinned_count }
}

/// Returns a copy of shares.
fn copy_shares(flexes: &Vec<Flex>) -> (res: Vec<Flex>)
    ensures
        res@ == flexes@,
{
    let mut res: Vec<Flex> = Vec::new();
    let mut i: usize = 0;
    while i < flexes.len()
        invariant
            i <= flexes@.len(),
            res@ == flexes@.take(i as int),
        decreases flexes@.len() - i,
    {
        res.push(flexes[i]);
        assert(res@ =~= flexes@.take(i + 1));
        i += 1;
    }
    assert(res@ =~= flexes@);
    res
}

/// Returns a pane tree as it is captured; `state_of` tells what a pane is like.
pub fn capture_from_member<F: Fn(PaneId) -> PaneState>(member: &Member, state_of: &F) -> (res:
    LayoutSnapshot)
    requires
        forall|pane: PaneId| #[trigger] call_requires(state_of, (pane,)),
    ensures
        forall|f: spec_fn(PaneId) -> PaneStateModel| #[trigger]
            tells(*state_of, f) ==> res.model() == captured(member.model(), f),
    decreases member,
{
    match member {
        Member::Axis(axis) => capture_axis(axis, state_of),
        Member::Pane(pane) => LayoutSnapshot::Pane(capture_pane(&state_of(*pane))),
        Member::Stack(stack) => {
            let mut members: Vec<LayoutSnapshot> = Vec::new();
            let mut i: usize = 0;
            while i < stack.panes.len()
                invariant
                    i <= stack.panes@.len(),
                    members@.len() == i,
                    forall|pane: PaneId| #[trigger] call_requires(state_of, (pane,)),
                    forall|f: spec_fn(PaneId) -> PaneStateModel, k: int|
                        #![trigger tells(*state_of, f), members@[k]]
                        tells(*state_of, f) && 0 <= k < i ==> members@[k].model()
                            == LayoutModel::Pane(captured_pane(f(stack.panes@[k]))),
                decreases stack.panes@.len() - i,
            {
                let pane = stack.panes[i];
                members.push(LayoutSnapshot::Pane(capture_pane(&state_of(pane))));
                i += 1;
            }
            let res = LayoutSnapshot::Stack { members, active: stack.active };
            proof {
                assert forall|f: spec_fn(PaneId) -> PaneStateModel| #[trigger]
                    tells(*state_of, f) implies res.model() == captured(member.model(), f) by {
                    assert(res.model()->Stack_members =~= captured(
                        member.model(),
                        f,
                    )->Stack_members);
                }
            }
            res
        },
    }
}

/// Returns an axis as it is captured.
fn capture_axis<F: Fn(PaneId) -> PaneState>(axis: &PaneAxis, state_of: &F) -> (res: LayoutSnapshot)
    requires
        forall|pane: PaneId| #[trigger] call_requires(state_of, (pane,)),
    ensures
        forall|f: spec_fn(PaneId) -> PaneStateModel| #[trigger]
            tells(*state_of, f) ==> res.model() == captured(Tree::Axis(axis.model()), f),
    decreases axis,
{
    let mut children: Vec<LayoutSnapshot> = Vec::new();
    let mut i: usize = 0;
    while i < axis.members.len()
        invariant
            i <= axis.members@.len(),
            children@.len() == i,
            forall|pane: PaneId| #[trigger] call_requires(state_of, (pane,)),
            forall|f: spec_fn(PaneId) -> PaneStateModel, k: int|
                #![trigger tells(*state_of, f), children@[k]]
                tells(*state_of, f) && 0 <= k < i ==> children@[k].model() == captured(
                    axis.members@[k].model(),
                    f,
                ),
        decreases axis.members@.len() - i,
    {
        assert(decreases_to!(axis => axis.members@[i as int]));
        children.push(capture_from_member(&axis.members[i], state_of));
        i += 1;
    }
    let flexes = Some(copy_shares(&axis.flexes));
    let axis_of = SnapshotAxis::from_axis(axis.axis);
    let res = LayoutSnapshot::Group { axis: axis_of, flexes, children };
    proof {
        assert forall|f: spec_fn(PaneId) -> PaneStateModel| #[trigger] tells(
            *state_of,
            f,
        ) implies res.model() == captured(Tree::Axis(axis.model()), f) by {
            let expected = captured(Tree::Axis(axis.model()), f);
            assert forall|k: int| 0 <= k < axis.members@.len() implies #[trigger] res.model()->Group_children[k]
                == expected->Group_children[k] by {
                assert(axis.model().members[k] == axis.members@[k].model());
                assert(children@[k].model() == captured(axis.members@[k].model(), f));
            }
            assert(res.model()->Group_children =~= expected->Group_children);
        }
    }
    res
}

/// Returns the layout of the center of a workspace as it is captured; `state_of` tells what
/// a pane is like.
pub fn capture_layout<F: Fn(PaneId) -> PaneState>(center: &PaneGroup, state_of: &F) -> (res:
    LayoutSnapshot)
    requires
        forall|pane: PaneId| #[trigger] call_requires(state_of, (pane,)),
    ensures
        forall|f: spec_fn(PaneId) -> PaneStateModel| #[trigger]
            tells(*state_of, f) ==> res.model() == captured(center@.root, f),
{
    capture_from_member(&center.root, state_of)
}

/// Returns the layout of the center of a workspace as it is captured, to be shared.
pub fn capture_arc<F: Fn(PaneId) -> PaneState>(center: &PaneGroup, state_of: &F) -> (res: Arc<
    LayoutSnapshot,
>)
    requires
        forall|pane: PaneId| #[trigger] call_requires(state_of, (pane,)),
    ensures
        forall|f: spec_fn(PaneId) -> PaneStateModel| #[trigger]
            tells(*state_of, f) ==> res.model() == captured(center@.root, f),
{
    Arc::new(capture_layout(center, state_of))
}

/// Returns where the active pane of the center of a workspace was painted, if it was.
pub fn active_pane_bounds(center: &PaneGroup, active_pane: PaneId) -> (res: Option<PixelBounds>)
    ensures
        res == query::box_in(center@.root, active_pane),
{
    center.bounding_box_for_pane(active_pane)
}

/// A kind of pane: its name, and how to tell such a pane and to build one again.
#[derive(Debug)]
pub struct CodonPaneKindSpec<S> {
    pub kind: String,
    pub handlers: S,
}

/// The kinds of pane that are registered, each name once.
pub struct PaneKindRegistry<S> {
    specs: Vec<CodonPaneKindSpec<S>>,
}

impl<S> View for PaneKindRegistry<S> {
    type V = Seq<(Seq<char>, S)>;

    closed spec fn view(&self) -> Seq<(Seq<char>, S)> {
        kind_models(self.specs@)
    }
}

/// What kinds hold.
spec fn kind_models<S>(specs: Seq<CodonPaneKindSpec<S>>) -> Seq<(Seq<char>, S)> {
    specs.map_values(|spec: CodonPaneKindSpec<S>| (spec.kind@, spec.handlers))
}

/// Whether each kind is registered once.
pub open spec fn each_once<S>(kinds: Seq<(Seq<char>, S)>) -> bool {
    forall|i: int, j: int|
        0 <= i < j < kinds.len() ==> (#[trigger] kinds[i]).0 != (#[trigger] kinds[j]).0
}

impl<S> PaneKindRegistry<S> {
    #[verifier::type_invariant]
    spec fn names_differ(self) -> bool {
        each_once(kind_models(self.specs@))
    }
}

/// The index of the first kind with a name, from `i` on, or the number of kinds.
pub open spec fn kind_index<S>(kinds: Seq<(Seq<char>, S)>, kind: Seq<char>, i: int) -> int
    decreases kinds.len() - i,
{
    if i >= kinds.len() {
        kinds.len() as int
    } else if kinds[i].0 == kind {
        i
    } else {
        kind_index(kinds, kind, i + 1)
    }
}

/// The kinds once one was registered: in place of the one of the same name, or behind the
/// others.
pub open spec fn with_kind<S>(kinds: Seq<(Seq<char>, S)>, kind: Seq<char>, handlers: S) -> Seq<
    (Seq<char>, S),
> {
    let at = kind_index(kinds, kind, 0);
    if at < kinds.len() {
        kinds.update(at, (kind, handlers))
    } else {
        kinds.push((kind, handlers))
    }
}

/// What is registered for a kind.
pub open spec fn kind_spec<S>(kinds: Seq<(Seq<char>, S)>, kind: Seq<char>) -> Option<S> {
    let at = kind_index(kinds, kind, 0);
    if at < kinds.len() {
        Some(kinds[at].1)
    } else {
        None
    }
}

proof fn lemma_kind_index<S>(kinds: Seq<(Seq<char>, S)>, kind: Seq<char>, i: int)
    requires
        0 <= i <= kinds.len(),
    ensures
        i <= kind_index(kinds, kind, i) <= kinds.len(),
        kind_index(kinds, kind, i) < kinds.len() ==> kinds[kind_index(kinds, kind, i)].0 == kind,
        forall|k: int| i <= k < kind_index(kinds, kind, i) ==> (#[trigger] kinds[k]).0 != kind,
    decreases kinds.len() - i,
{
    if i < kinds.len() && kinds[i].0 != kind {
        lemma_kind_index(kinds, kind, i + 1);
    }
}

proof fn lemma_kind_index_is<S>(kinds: Seq<(Seq<char>, S)>, kind: Seq<char>, i: int, at: int)
    requires
        0 <= i <= at <= kinds.len(),
        at < kinds.len() ==> kinds[at].0 == kind,
        forall|k: int| i <= k < at ==> (#[trigger] kinds[k]).0 != kind,
    ensures
        kind_index(kinds, kind, i) == at,
    decreases at - i,
{
    if i < at {
        assert(kinds[i].0 != kind);
        lemma_kind_index_is(kinds, kind, i + 1, at);
    }
}

/// What was registered last for a kind is what is found for it; the other kinds stay as
/// they were.
pub proof fn law_registered_kind_is_found<S>(
    kinds: Seq<(Seq<char>, S)>,
    kind: Seq<char>,
    handlers: S,
    other: Seq<char>,
)
    ensures
        kind_spec(with_kind(kinds, kind, handlers), kind) == Some(handlers),
        other != kind ==> kind_spec(with_kind(kinds, kind, handlers), other) == kind_spec(
            kinds,
            other,
        ),
{
    let after = with_kind(kinds, kind, handlers);
    let at = kind_index(kinds, kind, 0);
    lemma_kind_index(kinds, kind, 0);
    assert forall|k: int| 0 <= k < at implies (#[trigger] after[k]).0 != kind by {
        assert(kinds[k].0 != kind);
    }
    lemma_kind_index_is(after, kind, 0, at);
    if other != kind {
        let there = kind_index(kinds, other, 0);
        lemma_kind_index(kinds, other, 0);
        if there < kinds.len() {
            assert forall|k: int| 0 <= k < there implies (#[trigger] after[k]).0 != other by {
                assert(kinds[k].0 != other);
            }
            lemma_kind_index_is(after, other, 0, there);
        } else {
            assert forall|k: int| 0 <= k < after.len() implies (#[trigger] after[k]).0 != other by {
                if k < kinds.len() {
                    assert(kinds[k].0 != other);
                }
            }
            lemma_kind_index_is(after, other, 0, after.len() as int);
        }
    }
}

/// Registering a kind leaves each kind registered once.
pub proof fn law_each_kind_is_registered_once<S>(
    kinds: Seq<(Seq<char>, S)>,
    kind: Seq<char>,
    handlers: S,
)
    requires
        each_once(kinds),
    ensures
        each_once(with_kind(kinds, kind, handlers)),
{
    let after = with_kind(kinds, kind, handlers);
    lemma_kind_index(kinds, kind, 0);
    assert forall|i: int, j: int| 0 <= i < j < after.len() implies (#[trigger] after[i]).0 != (
    #[trigger] after[j]).0 by {
        if j < kinds.len() {
            assert(kinds[i].0 != kinds[j].0);
        } else {
            assert(kinds[i].0 != kind);
        }
    }
}

/// A kind that is registered again stays where it is, with what was registered last; a new
/// one comes behind the others. The others stay where they are, as they are.
pub proof fn law_kind_keeps_its_place<S>(
    kinds: Seq<(Seq<char>, S)>,
    kind: Seq<char>,
    handlers: S,
    at: int,
)
    requires
        0 <= at <= kinds.len(),
        at < kinds.len() ==> kinds[at].0 == kind,
        forall|k: int| 0 <= k < at ==> (#[trigger] kinds[k]).0 != kind,
    ensures
        ({
            let after = with_kind(kinds, kind, handlers);
            &&& after.len() == (if at < kinds.len() {
                kinds.len()
            } else {
                kinds.len() + 1
            })
            &&& after[at] == (kind, handlers)
            &&& forall|k: int|
                0 <= k < kinds.len() && k != at ==> #[trigger] after[k] == kinds[k]
        }),
{
    lemma_kind_index_is(kinds, kind, 0, at);
}

/// What is found for a kind is what stands beside its name; for a name that nothing stands
/// beside, nothing is found.
pub proof fn law_kind_is_found_by_its_name<S>(kinds: Seq<(Seq<char>, S)>, kind: Seq<char>, at: int)
    requires
        each_once(kinds),
    ensures
        0 <= at < kinds.len() && kinds[at].0 == kind ==> kind_spec(kinds, kind) == Some(
            kinds[at].1,
        ),
        (forall|k: int| 0 <= k < kinds.len() ==> (#[trigger] kinds[k]).0 != kind) ==> kind_spec(
            kinds,
            kind,
        ) is None,
{
    lemma_kind_index(kinds, kind, 0);
    if 0 <= at < kinds.len() && kinds[at].0 == kind {
        let found = kind_index(kinds, kind, 0);
        if found < at {
            assert(kinds[found].0 != kinds[at].0);
        }
    }
}

impl<S> PaneKindRegistry<S> {
    /// No kind is registered.
    pub fn new() -> (res: PaneKindRegistry<S>)
        ensures
            res@ == Seq::<(Seq<char>, S)>::empty(),
    {
        let res = PaneKindRegistry { specs: Vec::new() };
        assert(res@ =~= Seq::<(Seq<char>, S)>::empty());
        res
    }

    /// The index of the kind with a name, or the number of kinds.
    fn index_of(&self, kind: &String) -> (res: usize)
        ensures
            res == kind_index(self@, kind@, 0),
            res <= self@.len(),
            self@.len() == self.specs@.len(),
    {
        let mut i: usize = 0;
        while i < self.specs.len()
            invariant
                i <= self.specs@.len(),
                kind_index(self@, kind@, 0) == kind_index(self@, kind@, i as int),
            decreases self.specs@.len() - i,
        {
            if self.specs[i].kind == *kind {
                return i;
            }
            i += 1;
        }
        i
    }
}

/// Registers a kind of pane, in place of the one of the same name if there is one.
pub fn codon_register_pane_kind<S>(registry: &mut PaneKindRegistry<S>, spec: CodonPaneKindSpec<S>)
    ensures
        final(registry)@ == with_kind(old(registry)@, spec.kind@, spec.handlers),
        each_once(final(registry)@),
{
    proof {
        use_type_invariant(&*registry);
        law_each_kind_is_registered_once(registry@, spec.kind@, spec.handlers);
    }
    let ghost before = registry@;
    let at = registry.index_of(&spec.kind);
    let mut specs: Vec<CodonPaneKindSpec<S>> = Vec::new();
    core::mem::swap(&mut specs, &mut registry.specs);
    if at < specs.len() {
        specs.set(at, spec);
    } else {
        specs.push(spec);
    }
    assert(kind_models(specs@) =~= with_kind(before, spec.kind@, spec.handlers));
    registry.specs = specs;
}

/// Returns what is registered for a kind of pane.
pub fn codon_pane_kind_spec<'a, S>(registry: &'a PaneKindRegistry<S>, kind: &str) -> (res: Option<
    &'a CodonPaneKindSpec<S>,
>)
    ensures
        match res {
            Some(spec) => kind_spec(registry@, kind@) == Some(spec.handlers) && spec.kind@ == kind@,
            None => kind_spec(registry@, kind@) is None,
        },
        each_once(registry@),
{
    proof {
        use_type_invariant(registry);
    }
    let kind = kind.to_owned();
    let at = registry.index_of(&kind);
    proof {
        lemma_kind_index(registry@, kind@, 0);
    }
    if at < registry.specs.len() {
        Some(&registry.specs[at])
    } else {
        None
    }
}

/// The name of the first kind, from the one at `i` on, that fits.
pub open spec fn first_fitting<S>(
    kinds: Seq<(Seq<char>, S)>,
    fits: spec_fn(S) -> bool,
    i: int,
) -> Option<Seq<char>>
    decreases kinds.len() - i,
{
    if i >= kinds.len() {
        None
    } else if fits(kinds[i].1) {
        Some(kinds[i].0)
    } else {
        first_fitting(kinds, fits, i + 1)
    }
}

/// Where each kind is registered once, the name of the first kind that fits looks up a kind
/// that fits; and there is such a name unless no kind fits.
pub proof fn law_fitting_kind_is_looked_up<S>(kinds: Seq<(Seq<char>, S)>, fits: spec_fn(S) -> bool)
    requires
        each_once(kinds),
    ensures
        first_fitting(kinds, fits, 0) is None <==> forall|i: int|
            0 <= i < kinds.len() ==> !fits((#[trigger] kinds[i]).1),
        first_fitting(kinds, fits, 0) matches Some(kind) ==> kind_spec(kinds, kind) is Some && fits(
            kind_spec(kinds, kind)->0,
        ),
{
    lemma_first_fitting(kinds, fits, 0);
    if let Some(kind) = first_fitting(kinds, fits, 0) {
        let at = choose|i: int|
            0 <= i < kinds.len() && (#[trigger] kinds[i]).0 == kind && fits(kinds[i].1);
        assert forall|k: int| 0 <= k < at implies (#[trigger] kinds[k]).0 != kind by {
            assert(kinds[k].0 != kinds[at].0);
        }
        lemma_kind_index_is(kinds, kind, 0, at);
    }
}

/// A test that answers as a function does is asked for what was registered.
pub proof fn law_what_a_test_is_asked<S, F: Fn(&S) -> bool>(
    matches: F,
    f: spec_fn(S) -> bool,
    handlers: S,
    answer: bool,
)
    requires
        decides(matches, f),
        call_ensures(matches, (&handlers,), answer),
    ensures
        answer == f(handlers),
{
}

/// Of several kinds that fit, the one that was registered first is named.
pub proof fn law_first_kind_that_fits<S>(
    kinds: Seq<(Seq<char>, S)>,
    fits: spec_fn(S) -> bool,
    at: int,
)
    requires
        0 <= at < kinds.len(),
        fits(kinds[at].1),
        forall|k: int| 0 <= k < at ==> !fits((#[trigger] kinds[k]).1),
    ensures
        first_fitting(kinds, fits, 0) == Some(kinds[at].0),
{
    lemma_fitting_from(kinds, fits, 0, at);
}

proof fn lemma_fitting_from<S>(
    kinds: Seq<(Seq<char>, S)>,
    fits: spec_fn(S) -> bool,
    i: int,
    at: int,
)
    requires
        0 <= i <= at < kinds.len(),
        fits(kinds[at].1),
        forall|k: int| i <= k < at ==> !fits((#[trigger] kinds[k]).1),
    ensures
        first_fitting(kinds, fits, i) == Some(kinds[at].0),
    decreases at - i,
{
    if i < at {
        assert(!fits(kinds[i].1));
        lemma_fitting_from(kinds, fits, i + 1, at);
    }
}

proof fn lemma_first_fitting<S>(kinds: Seq<(Seq<char>, S)>, fits: spec_fn(S) -> bool, i: int)
    requires
        0 <= i <= kinds.len(),
    ensures
        first_fitting(kinds, fits, i) is None <==> forall|k: int|
            i <= k < kinds.len() ==> !fits((#[trigger] kinds[k]).1),
        first_fitting(kinds, fits, i) matches Some(kind) ==> exists|k: int|
            0 <= k < kinds.len() && (#[trigger] kinds[k]).0 == kind && fits(kinds[k].1),
    decreases kinds.len() - i,
{
    if i < kinds.len() {
        lemma_first_fitting(kinds, fits, i + 1);
        if fits(kinds[i].1) {
            assert(kinds[i].0 == first_fitting(kinds, fits, i)->0);
        }
    }
}

/// A test that answers as `f` does.
pub open spec fn decides<S, F: Fn(&S) -> bool>(matches: F, f: spec_fn(S) -> bool) -> bool {
    forall|handlers: S, fits: bool| #[trigger]
        call_ensures(matches, (&handlers,), fits) ==> fits == f(handlers)
}

/// Returns the name of the first kind of pane that an item is; `matches` tells whether it is
/// of a kind. What is registered under that name is of the kind that the item is.
pub fn codon_pane_kind_for_item<S, F: Fn(&S) -> bool>(
    registry: &PaneKindRegistry<S>,
    matches: &F,
) -> (res: Option<String>)
    requires
        forall|handlers: S| #[trigger] call_requires(matches, (&handlers,)),
    ensures
        forall|f: spec_fn(S) -> bool| #[trigger]
            decides(*matches, f) ==> text::text_model(res) == first_fitting(registry@, f, 0),
        forall|f: spec_fn(S) -> bool| #[trigger]
            decides(*matches, f) ==> (res matches Some(kind) ==> kind_spec(registry@, kind@) is Some
                && f(kind_spec(registry@, kind@)->0)),
        each_once(registry@),
{
    proof {
        use_type_invariant(registry);
    }
    let mut i: usize = 0;
    while i < registry.specs.len()
        invariant
            i <= registry.specs@.len(),
            each_once(registry@),
            forall|handlers: S| #[trigger] call_requires(matches, (&handlers,)),
            forall|f: spec_fn(S) -> bool| #[trigger]
                decides(*matches, f) ==> first_fitting(registry@, f, 0) == first_fitting(
                    registry@,
                    f,
                    i as int,
                ),
        decreases registry.specs@.len() - i,
    {
        assert(registry@[i as int] == (
            registry.specs@[i as int].kind@,
            registry.specs@[i as int].handlers,
        ));
        if matches(&registry.specs[i].handlers) {
            proof {
                assert forall|f: spec_fn(S) -> bool| #[trigger] decides(*matches, f) implies (
                first_fitting(registry@, f, 0) matches Some(kind) ==> kind_spec(registry@, kind)
                    is Some && f(kind_spec(registry@, kind)->0)) by {
                    law_fitting_kind_is_looked_up(registry@, f);
                }
            }
            return Some(registry.specs[i].kind.clone());
        }
        i += 1;
    }
    None
}

/// What is called when a layout was restored; the first that is installed stays.
pub struct RestoreTimingSlot<C> {
    callback: Option<C>,
}

impl<C> View for RestoreTimingSlot<C> {
    type V = Option<C>;

    closed spec fn view(&self) -> Option<C> {
        self.callback
    }
}

impl<C> RestoreTimingSlot<C> {
    /// Nothing is installed.
    pub fn new() -> (res: RestoreTimingSlot<C>)
        ensures
            res@ is None,
    {
        RestoreTimingSlot { callback: None }
    }
}

/// Installs what is called when a layout was restored, unless something is installed
/// already: that stays, and is returned.
pub fn set_restore_timing_callback<C>(slot: &mut RestoreTimingSlot<C>, callback: C) -> (res: Option<&C>)
    ensures
        old(slot)@ is None ==> final(slot)@ == Some(callback) && res is None,
        old(slot)@ is Some ==> final(slot)@ == old(slot)@ && res is Some && Some(*res->0) == old(
            slot,
        )@,
{
    if slot.callback.is_none() {
        slot.callback = Some(callback);
        None
    } else {
        slot.callback.as_ref()
    }
}

/// Returns what is to be called now that a layout was restored, if anything is installed.
pub fn notify_restore_timing<C>(slot: &RestoreTimingSlot<C>) -> (res: Option<&C>)
    ensures
        match res {
            Some(callback) => slot@ == Some(*callback),
            None => slot@ is None,
        },
{
    slot.callback.as_ref()
}

} // verus!
