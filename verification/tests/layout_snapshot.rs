use codon_core::layout_snapshot::{
    active_pane_bounds, apply_layout, capture_arc, capture_from_member, capture_layout,
    capture_pane, codon_pane_kind_for_item, codon_pane_kind_spec, codon_register_pane_kind,
    notify_restore_timing, set_restore_timing_callback, CodonPaneKindSpec, ItemSnapshot, ItemState,
    LayoutSnapshot, PaneKindRegistry, PaneSnapshot, PaneState, RestoreTimingSlot,
    SerializedPaneGroup, SnapshotAxis,
};
use codon_core::pane_group::direction::{Axis, SplitDirection};
use codon_core::pane_group::group::{PaneGroup, PaneStore};
use codon_core::pane_group::tree::{Flex, Member, PaneId, PixelBounds, UNIT_FLEX_BITS};

fn item(item_id: u64, stored: Option<&str>, pane_kind: Option<&str>) -> ItemState {
    ItemState {
        item_id,
        serialized_item_kind: stored.map(|kind| kind.to_string()),
        pane_kind: pane_kind.map(|kind| kind.to_string()),
    }
}

fn state_of(pane: PaneId) -> PaneState {
    PaneState {
        items: vec![item(pane.0 * 10, Some("Editor"), None)],
        active_item: Some(pane.0 * 10),
        preview_item: None,
        has_focus: pane.0 == 2,
        pinned_count: 0,
    }
}

fn pane(n: u64) -> LayoutSnapshot {
    LayoutSnapshot::Pane(PaneSnapshot {
        items: vec![ItemSnapshot {
            kind: "Terminal".to_string(),
            item_id: n,
            active: true,
            preview: false,
        }],
        active: false,
        pinned_count: 1,
    })
}

fn outline(stored: &SerializedPaneGroup) -> String {
    match stored {
        SerializedPaneGroup::Group { axis, flexes, children } => {
            let children: Vec<String> = children.iter().map(outline).collect();
            let name = match axis {
                Axis::Horizontal => "H",
                Axis::Vertical => "V",
            };
            let shares = flexes.as_ref().map_or(0, |flexes| flexes.len());
            format!("{}{}[{}]", name, shares, children.join(" "))
        }
        SerializedPaneGroup::Pane(pane) => {
            let items: Vec<String> = pane
                .children
                .iter()
                .map(|item| format!("{}{}", item.kind, item.item_id))
                .collect();
            format!("({}{})", items.join(","), if pane.active { "!" } else { "" })
        }
    }
}

#[test]
fn an_empty_pane_has_the_focus() {
    let stored = apply_layout(LayoutSnapshot::empty_pane());
    assert_eq!(outline(&stored), "(!)");
}

#[test]
fn a_layout_is_stored_group_by_group() {
    let layout = LayoutSnapshot::Group {
        axis: SnapshotAxis::Vertical,
        flexes: Some(vec![Flex { bits: UNIT_FLEX_BITS }; 3]),
        children: vec![
            pane(1),
            LayoutSnapshot::Group {
                axis: SnapshotAxis::Horizontal,
                flexes: None,
                children: vec![pane(2), pane(3)],
            },
            LayoutSnapshot::Stack { members: vec![pane(4), pane(5)], active: 1 },
        ],
    };
    let stored = layout.into_serialized();
    assert_eq!(
        outline(&stored),
        "V3[(Terminal1) H0[(Terminal2) (Terminal3)] (Terminal5)]"
    );
    if let SerializedPaneGroup::Group { children, .. } = &stored {
        if let SerializedPaneGroup::Pane(pane) = &children[0] {
            assert_eq!(pane.pinned_count, 1);
            assert!(pane.children[0].active && !pane.children[0].preview);
        }
    }
}

#[test]
fn a_stack_that_shows_nothing_is_stored_as_an_empty_pane() {
    let layout = LayoutSnapshot::Stack { members: vec![pane(4)], active: 1 };
    assert_eq!(outline(&layout.into_serialized()), "(!)");
}

#[test]
fn a_tree_is_captured_with_its_shares() {
    let mut cx = PaneStore::new();
    let mut group = PaneGroup::new(PaneId(1));
    group.split(PaneId(1), PaneId(2), SplitDirection::Right, &mut cx);
    group.split(PaneId(2), PaneId(3), SplitDirection::Down, &mut cx);
    let captured = capture_layout(&group, &state_of);
    if let LayoutSnapshot::Group { axis, flexes, children } = &captured {
        assert_eq!(*axis, SnapshotAxis::Horizontal);
        assert_eq!(flexes.as_ref().unwrap().len(), 2);
        assert_eq!(children.len(), 2);
    } else {
        panic!("an axis is captured as a group");
    }
    assert_eq!(
        outline(&apply_layout(captured)),
        "H2[(Editor10) V2[(Editor20!) (Editor30)]]"
    );
    assert!(matches!(&*capture_arc(&group, &state_of), LayoutSnapshot::Group { .. }));
}

#[test]
fn every_pane_of_a_stack_is_captured() {
    let stack = Member::new_stack(vec![PaneId(1), PaneId(2), PaneId(3)], 2).unwrap();
    let captured = capture_from_member(&stack, &state_of);
    if let LayoutSnapshot::Stack { members, active } = &captured {
        assert_eq!((members.len(), *active), (3, 2));
    } else {
        panic!("a stack is captured as a stack");
    }
    assert_eq!(outline(&apply_layout(captured)), "(Editor30)");
}

#[test]
fn items_are_captured_by_what_they_are() {
    let state = PaneState {
        items: vec![
            item(1, Some("Editor"), Some("Outline")),
            item(2, None, Some("Outline")),
            item(3, None, None),
            item(4, Some("Terminal"), None),
        ],
        active_item: Some(4),
        preview_item: Some(2),
        has_focus: true,
        pinned_count: 2,
    };
    let captured = capture_pane(&state);
    let items: Vec<(&str, u64, bool, bool)> = captured
        .items
        .iter()
        .map(|item| (item.kind.as_str(), item.item_id, item.active, item.preview))
        .collect();
    assert_eq!(
        items,
        vec![
            ("Editor", 1, false, false),
            ("Outline", 2, false, true),
            ("Terminal", 4, true, false),
        ]
    );
    assert!(captured.active);
    assert_eq!(captured.pinned_count, 2);
}

#[test]
fn axes_convert_both_ways() {
    for axis in [Axis::Horizontal, Axis::Vertical] {
        assert_eq!(SnapshotAxis::from_axis(axis).into_axis(), axis);
    }
}

fn spec(kind: &str, handlers: u32) -> CodonPaneKindSpec<u32> {
    CodonPaneKindSpec { kind: kind.to_string(), handlers }
}

#[test]
fn a_kind_is_registered_once() {
    let mut registry = PaneKindRegistry::new();
    assert!(codon_pane_kind_spec(&registry, "Outline").is_none());
    codon_register_pane_kind(&mut registry, spec("Outline", 1));
    codon_register_pane_kind(&mut registry, spec("Project", 2));
    codon_register_pane_kind(&mut registry, spec("Outline", 3));
    assert_eq!(codon_pane_kind_spec(&registry, "Outline").unwrap().handlers, 3);
    assert_eq!(codon_pane_kind_spec(&registry, "Project").unwrap().kind, "Project");
    let even = codon_pane_kind_for_item(&registry, &|n: &u32| n % 2 == 0);
    assert_eq!(even.as_deref(), Some("Project"));
    assert_eq!(codon_pane_kind_for_item(&registry, &|n: &u32| *n == 1), None);
}

#[test]
fn the_first_callback_stays() {
    let mut slot = RestoreTimingSlot::new();
    assert_eq!(notify_restore_timing(&slot), None);
    assert_eq!(set_restore_timing_callback(&mut slot, 1), None);
    assert_eq!(set_restore_timing_callback(&mut slot, 2), Some(&1));
    assert_eq!(notify_restore_timing(&slot), Some(&1));
}

#[test]
fn the_active_pane_has_bounds_once_it_was_painted() {
    let mut cx = PaneStore::new();
    let mut group = PaneGroup::new(PaneId(1));
    group.split(PaneId(1), PaneId(2), SplitDirection::Right, &mut cx);
    assert_eq!(active_pane_bounds(&group, PaneId(2)), None);
    let bounds = PixelBounds { x: 1, y: 2, width: 3, height: 4 };
    if let Member::Axis(axis) = &mut group.root {
        axis.bounding_boxes = vec![None, Some(bounds)];
    }
    assert_eq!(active_pane_bounds(&group, PaneId(2)), Some(bounds));
}

#[test]
fn a_copy_of_a_layout_is_stored_alike() {
    let layout = LayoutSnapshot::Group {
        axis: SnapshotAxis::Vertical,
        flexes: Some(vec![Flex { bits: UNIT_FLEX_BITS }; 3]),
        children: vec![
            pane(1),
            LayoutSnapshot::Stack { members: vec![pane(2), pane(3)], active: 1 },
            LayoutSnapshot::Group {
                axis: SnapshotAxis::Horizontal,
                flexes: None,
                children: vec![LayoutSnapshot::empty_pane(), pane(4)],
            },
        ],
    };
    let copy = layout.clone();
    let stored = outline(&apply_layout(layout));
    assert_eq!(stored, "V3[(Terminal1) (Terminal3) H0[(!) (Terminal4)]]");
    assert_eq!(outline(&apply_layout(copy)), stored);
}

#[test]
fn the_kind_of_an_item_looks_up_a_kind_that_fits() {
    let mut registry = PaneKindRegistry::new();
    codon_register_pane_kind(&mut registry, spec("outline", 1));
    codon_register_pane_kind(&mut registry, spec("git", 2));
    codon_register_pane_kind(&mut registry, spec("outline", 3));
    for handlers in 0..5u32 {
        match codon_pane_kind_for_item(&registry, &|found: &u32| *found == handlers) {
            Some(kind) => {
                let found = codon_pane_kind_spec(&registry, &kind).unwrap();
                assert_eq!((found.kind.as_str(), found.handlers), (kind.as_str(), handlers));
            }
            None => assert!(handlers != 2 && handlers != 3),
        }
    }
}
