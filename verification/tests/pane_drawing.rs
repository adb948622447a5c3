use codon_core::pane_group::direction::{Axis, SplitDirection};
use codon_core::pane_group::element::{
    pane_axis, CursorStyle, DividerHighlight, PaneAxisElement, PaneAxisLayout, PixelChange, Press,
};
use codon_core::pane_group::group::{PaneGroup, PaneStore};
use codon_core::pane_group::leader::{
    ActivePaneDecorator, CollaboratorId, FollowerState, LeaderColor, LeaderDecoration, LeaderFade,
    PaneLeaderDecorator, PaneRenderContext, ParticipantLocation, RemoteParticipant,
};
use codon_core::pane_group::render::RenderPlan;
use codon_core::pane_group::tree::{Flex, Member, PaneId, PixelBounds};

fn id(n: u64) -> PaneId {
    PaneId(n)
}

fn flex(value: f32) -> Flex {
    Flex { bits: value.to_bits() }
}

fn values(flexes: &[Flex]) -> Vec<f32> {
    flexes.iter().map(|flex| f32::from_bits(flex.bits)).collect()
}

fn bounds(x: f32, width: f32) -> PixelBounds {
    PixelBounds {
        x: x.to_bits(),
        y: 0.0f32.to_bits(),
        width: width.to_bits(),
        height: 100.0f32.to_bits(),
    }
}

fn nested() -> PaneGroup {
    let mut cx = PaneStore::new();
    let mut group = PaneGroup::new(id(1));
    group.split(id(1), id(2), SplitDirection::Right, &mut cx);
    group.split(id(2), id(3), SplitDirection::Right, &mut cx);
    group.split(id(2), id(4), SplitDirection::Down, &mut cx);
    group
}

#[test]
fn the_active_pane_is_marked_at_every_level() {
    let group = nested();
    let decorator = ActivePaneDecorator::new(id(4));
    let RenderPlan::Axis(outer) = group.render(None, &decorator) else {
        panic!("an axis is drawn as an axis");
    };
    assert_eq!(outer.element.basis, 1);
    assert_eq!(outer.element.axis, Axis::Horizontal);
    assert_eq!(outer.element.active_pane_ix, None);
    assert_eq!(outer.element.active_subtree_ix, Some(1));
    assert_eq!(outer.element.active_pane, Some(id(4)));
    assert_eq!(outer.element.is_leaf_pane_mask, vec![true, false, true]);
    let RenderPlan::Axis(inner) = &outer.children[1] else {
        panic!("the second member is an axis");
    };
    assert_eq!(inner.element.basis, 21);
    assert_eq!(inner.element.active_pane_ix, Some(1));
    assert_eq!(inner.element.active_subtree_ix, Some(1));
    assert!(matches!(&inner.children[0], RenderPlan::Pane(pane, _) if *pane == id(2)));
}

#[test]
fn a_zoomed_pane_is_not_drawn_in_its_place() {
    let decorator = ActivePaneDecorator::new(id(1));
    let single = Member::Pane(id(1));
    let drawn = single.render(0, None, &decorator);
    assert!(drawn.contains_active_pane);
    let zoomed = single.render(0, Some(id(1)), &decorator);
    assert!(!zoomed.contains_active_pane);
    assert!(matches!(zoomed.element, RenderPlan::Nothing));
    let stack = Member::new_stack(vec![id(1), id(2)], 1).unwrap();
    let drawn = stack.render(0, None, &ActivePaneDecorator::new(id(2)));
    assert!(drawn.contains_active_pane);
    assert!(matches!(drawn.element, RenderPlan::Pane(pane, _) if pane == id(2)));
}

fn element() -> PaneAxisElement {
    pane_axis(Axis::Horizontal, 7).with_is_leaf_pane_mask(vec![true, false, true])
}

fn layout(element: &PaneAxisElement) -> PaneAxisLayout {
    let mut boxes = vec![None];
    let child_bounds = vec![bounds(0.0, 10.0), bounds(10.0, 10.0), bounds(20.0, 10.0)];
    let layout = element.prepaint(None, &child_bounds, &mut boxes);
    assert_eq!(boxes, child_bounds.iter().map(|b| Some(*b)).collect::<Vec<_>>());
    layout
}

#[test]
fn every_child_but_the_last_has_a_divider() {
    let layout = layout(&element());
    let handles: Vec<bool> = layout.children.iter().map(|child| child.handle).collect();
    assert_eq!(handles, vec![true, true, false]);
    let leaves: Vec<bool> = layout.children.iter().map(|child| child.is_leaf_pane).collect();
    assert_eq!(leaves, vec![true, false, true]);
    let mut boxes = vec![];
    let unmasked = pane_axis(Axis::Vertical, 0).prepaint(None, &vec![bounds(0.0, 1.0)], &mut boxes);
    assert!(unmasked.children[0].is_leaf_pane);
    assert!(!unmasked.children[0].handle);
}

#[test]
fn inactive_leaves_are_dimmed_and_the_active_one_framed() {
    let element = element().with_active_pane(Some(0)).with_active_subtree(Some(0), id(1));
    let layout = layout(&element);
    let painted = element.paint(&layout, true, None);
    let overlays: Vec<bool> = painted.iter().map(|child| child.overlay).collect();
    assert_eq!(overlays, vec![false, false, true]);
    let borders: Vec<bool> = painted.iter().map(|child| child.border).collect();
    assert_eq!(borders, vec![true, false, false]);
    assert!(element.paint(&layout, false, None).iter().all(|child| !child.border));
    let first = painted[0].divider.unwrap();
    assert_eq!(first.highlight, DividerHighlight::Full);
    assert_eq!(first.cursor, CursorStyle::ResizeColumn);
    assert!(!first.dragged);
    assert_eq!(painted[1].divider.unwrap().highlight, DividerHighlight::Plain);
    assert!(painted[2].divider.is_none());
}

#[test]
fn a_divider_lights_up_along_a_nested_active_pane() {
    let mut group = nested();
    let place = bounds(10.0, 10.0);
    if let Member::Axis(axis) = &mut group.root {
        if let Member::Axis(inner) = &mut axis.members[1] {
            inner.bounding_boxes = vec![None, Some(place)];
        }
    }
    let element = element().with_active_subtree(Some(1), id(4));
    let layout = layout(&element);
    let painted = element.paint(&layout, false, Some(&group));
    assert_eq!(painted[0].divider.unwrap().highlight, DividerHighlight::Along(place));
    assert_eq!(painted[1].divider.unwrap().highlight, DividerHighlight::Along(place));
    let unknown = element.paint(&layout, false, None);
    assert_eq!(unknown[0].divider.unwrap().highlight, DividerHighlight::Plain);
}

#[test]
fn a_divider_is_dragged_from_press_to_release() {
    let mut layout = layout(&element());
    let mut flexes = vec![flex(1.5), flex(0.5), flex(1.0)];
    assert_eq!(layout.mouse_down(1, true, false, 1, &mut flexes), Press::Ignored);
    assert_eq!(layout.mouse_down(1, false, true, 1, &mut flexes), Press::Ignored);
    assert!(!layout.mouse_move(1, true));
    assert_eq!(layout.mouse_down(1, true, true, 1, &mut flexes), Press::Grabbed);
    assert_eq!(layout.dragged_handle, Some(1));
    assert!(layout.mouse_move(1, true));
    assert!(!layout.mouse_move(1, false));
    assert!(!layout.mouse_move(0, true));
    assert_eq!(values(&flexes), vec![1.5, 0.5, 1.0]);
    assert_eq!(layout.mouse_down(1, true, true, 2, &mut flexes), Press::Reset);
    assert_eq!(values(&flexes), vec![1.0, 1.0, 1.0]);
    layout.mouse_up(false);
    assert_eq!(layout.dragged_handle, Some(1));
    layout.mouse_up(true);
    assert_eq!(layout.dragged_handle, None);
}

fn visited(ix: usize, forward: bool, count: usize) -> Vec<usize> {
    let mut flexes = vec![flex(0.0); count];
    let step = |flexes: &Vec<Flex>, first: usize, change: PixelChange| {
        let order = f32::from_bits(change.bits);
        (flex(order), flexes[first + 1], Some(PixelChange { bits: (order + 1.0).to_bits() }))
    };
    let change = Some(PixelChange { bits: 1.0f32.to_bits() });
    assert!(PaneAxisElement::compute_resize(&mut flexes, ix, false, forward, change, &step));
    let mut order: Vec<(usize, f32)> = values(&flexes).into_iter().enumerate().collect();
    order.retain(|(_, at)| *at > 0.0);
    order.sort_by(|a, b| a.1.partial_cmp(&b.1).unwrap());
    order.into_iter().map(|(ix, _)| ix).collect()
}

#[test]
fn a_drag_goes_on_to_the_end_of_its_side() {
    assert_eq!(visited(2, true, 6), vec![2, 3, 4]);
    assert_eq!(visited(2, false, 6), vec![2, 1, 0]);
    assert_eq!(visited(0, false, 2), vec![0]);
}

#[test]
fn a_drag_stops_when_the_change_is_spent() {
    let step = |flexes: &Vec<Flex>, first: usize, change: PixelChange| {
        let change = f32::from_bits(change.bits);
        let share = f32::from_bits(flexes[first].bits) + change;
        let next = f32::from_bits(flexes[first + 1].bits) - change;
        (flex(share), flex(next), None)
    };
    let change = Some(PixelChange { bits: 0.25f32.to_bits() });
    let mut flexes = vec![flex(1.0), flex(1.0), flex(1.0)];
    assert!(PaneAxisElement::compute_resize(&mut flexes, 0, false, true, change, &step));
    assert_eq!(values(&flexes), vec![1.25, 0.75, 1.0]);
    assert!(PaneAxisElement::compute_resize(&mut flexes, 0, false, true, None, &step));
    assert!(!PaneAxisElement::compute_resize(&mut flexes, 0, true, true, change, &step));
    assert_eq!(values(&flexes), vec![1.25, 0.75, 1.0]);
}

fn follower(center_pane: u64, dock_pane: Option<u64>, view: Option<u64>) -> FollowerState {
    FollowerState {
        center_pane: id(center_pane),
        dock_pane: dock_pane.map(id),
        active_view_id: view,
        items_by_leader_view_id: vec![10],
    }
}

fn context(leader: CollaboratorId, state: FollowerState, location: ParticipantLocation) -> PaneRenderContext {
    PaneRenderContext {
        remote_project_id: Some(5),
        follower_states: vec![(leader, state)],
        participants: vec![RemoteParticipant {
            peer_id: 3,
            user_id: 77,
            github_login: "ada".to_string(),
            participant_index: 2,
            location,
        }],
        active_pane: id(1),
    }
}

fn message(decoration: &LeaderDecoration) -> Option<&str> {
    decoration.status_box.as_ref().map(|status| status.message.as_str())
}

#[test]
fn a_followed_participant_is_announced() {
    let here = ParticipantLocation::SharedProject { project_id: 5 };
    let leader = CollaboratorId::PeerId(3);
    let shared = context(leader, follower(1, None, Some(10)), here).decorate(id(1));
    assert_eq!(message(&shared), None);
    let border = shared.border.unwrap();
    assert_eq!(border.color, LeaderColor::Participant(2));
    assert_eq!(border.fade, LeaderFade::InCenter);

    let unshared = context(leader, follower(1, Some(4), Some(11)), here).decorate(id(1));
    assert_eq!(message(&unshared), Some("ada is in an unshared pane"));
    assert_eq!(unshared.border.unwrap().fade, LeaderFade::InPanel);

    let elsewhere = ParticipantLocation::SharedProject { project_id: 6 };
    let other = context(leader, follower(1, None, None), elsewhere).decorate(id(1));
    assert_eq!(message(&other), Some("Follow ada to their active project"));
    let join = other.status_box.unwrap().join.unwrap();
    assert_eq!((join.project_id, join.user_id), (6, 77));

    let private = context(leader, follower(1, None, None), ParticipantLocation::UnsharedProject);
    assert_eq!(
        message(&private.decorate(id(1))),
        Some("ada is viewing an unshared Zed project")
    );
    let outside = context(leader, follower(1, None, None), ParticipantLocation::External);
    assert_eq!(
        message(&outside.decorate(id(1))),
        Some("ada is viewing a window outside of Zed")
    );
}

#[test]
fn a_pane_that_follows_nobody_in_the_call_is_plain() {
    let leader = CollaboratorId::PeerId(4);
    let absent = context(leader, follower(1, None, None), ParticipantLocation::External);
    let decoration = absent.decorate(id(1));
    assert!(decoration.border.is_none() && decoration.status_box.is_none());
    let unfollowed = absent.decorate(id(2));
    assert!(unfollowed.border.is_none());
    assert_eq!(absent.active_pane(), id(1));
    assert!(ActivePaneDecorator::new(id(1)).decorate(id(1)).border.is_none());
}

#[test]
fn an_agent_gets_a_border_only() {
    let context = context(
        CollaboratorId::Agent,
        follower(1, None, Some(99)),
        ParticipantLocation::External,
    );
    let decoration = context.decorate(id(1));
    assert_eq!(decoration.border.unwrap().color, LeaderColor::Agent);
    assert!(decoration.status_box.is_none());
}

#[test]
fn element_ids_grow_with_the_depth() {
    let group = nested();
    assert!(group.root.element_ids_fit(0));
    assert!(!group.root.element_ids_fit(usize::MAX));
    assert!(!group.root.element_ids_fit(usize::MAX / 10));
    assert!(Member::Pane(id(1)).element_ids_fit(usize::MAX));
    let stack = Member::new_stack(vec![id(1), id(2)], 0).unwrap();
    assert!(stack.element_ids_fit(usize::MAX - 1));
    assert!(!stack.element_ids_fit(usize::MAX));
}

#[test]
fn nothing_lies_beyond_the_last_member() {
    let mut flexes = vec![flex(1.5), flex(0.5)];
    let step = |_: &Vec<Flex>, _: usize, change: PixelChange| (flex(0.0), flex(0.0), Some(change));
    let change = Some(PixelChange { bits: 4.0f32.to_bits() });
    assert!(PaneAxisElement::compute_resize(&mut flexes, 1, false, true, change, &step));
    assert!(PaneAxisElement::compute_resize(&mut flexes, 1, false, false, None, &step));
    assert!(!PaneAxisElement::compute_resize(&mut flexes, 1, true, false, change, &step));
    assert_eq!(values(&flexes), vec![1.5, 0.5]);
}
