use codon_core::clickables::{
    clear_clickable_registry, clickable_registry_len, push_clickable, take_clickables, BoundsKey,
    ClickableEntry, ClickableRegistry, ENTRY_FRESHNESS_NANOS, SOFT_CAP,
};
use codon_core::pane_group::tree::PixelBounds;

const NOW: u128 = 60_000_000_000;
const MILLI: u128 = 1_000_000;

fn entry_at(x: f32, y: f32, painted_at: u128, on_click: u32) -> ClickableEntry<u32> {
    ClickableEntry {
        bounds: PixelBounds {
            x: x.to_bits(),
            y: y.to_bits(),
            width: 10.0f32.to_bits(),
            height: 10.0f32.to_bits(),
        },
        key: BoundsKey { x: x.round() as i32, y: y.round() as i32, w: 10, h: 10 },
        on_click,
        painted_at,
    }
}

fn push_at(registry: &mut ClickableRegistry<u32>, x: f32, y: f32) {
    push_clickable(registry, entry_at(x, y, NOW, 0), NOW);
}

#[test]
fn registry_drains_to_empty() {
    let mut registry = ClickableRegistry::new();
    clear_clickable_registry(&mut registry);
    assert_eq!(clickable_registry_len(&registry), 0);
    push_at(&mut registry, 0.0, 0.0);
    assert_eq!(clickable_registry_len(&registry), 1);
    let drained = take_clickables(&mut registry, NOW);
    assert_eq!(drained.len(), 1);
    assert_eq!(clickable_registry_len(&registry), 0);
}

#[test]
fn repeated_pushes_at_same_bounds_dedup_on_drain() {
    let mut registry = ClickableRegistry::new();
    clear_clickable_registry(&mut registry);
    // Simulate three repaints of the same clickable across the
    // freshness window.
    push_at(&mut registry, 0.0, 0.0);
    push_at(&mut registry, 0.0, 0.0);
    push_at(&mut registry, 0.0, 0.0);
    assert_eq!(clickable_registry_len(&registry), 3);
    let drained = take_clickables(&mut registry, NOW);
    assert_eq!(drained.len(), 1);
}

#[test]
fn pushes_separated_by_long_delay_within_window_all_survive() {
    // Hand-seed two entries with a wide gap between them, then push
    // a third; all three distinct rectangles must be returned on drain.
    let mut registry = ClickableRegistry::new();
    clear_clickable_registry(&mut registry);
    registry.entries.push(entry_at(0.0, 0.0, NOW - 50 * MILLI, 0));
    registry.entries.push(entry_at(100.0, 0.0, NOW - 20 * MILLI, 0));
    push_at(&mut registry, 200.0, 0.0);
    let drained = take_clickables(&mut registry, NOW);
    assert_eq!(drained.len(), 3);
}

#[test]
fn stale_entries_filtered_on_drain() {
    let mut registry = ClickableRegistry::new();
    clear_clickable_registry(&mut registry);
    let stale = NOW - ENTRY_FRESHNESS_NANOS - 10 * MILLI;
    registry.entries.push(entry_at(50.0, 50.0, stale, 0));
    push_at(&mut registry, 0.0, 0.0);
    let drained = take_clickables(&mut registry, NOW);
    assert_eq!(drained.len(), 1);
}

#[test]
fn soft_cap_evicts_stale_entries_to_make_room() {
    let mut registry = ClickableRegistry::new();
    clear_clickable_registry(&mut registry);
    let stale = NOW - ENTRY_FRESHNESS_NANOS - 10 * MILLI;
    for index in 0..SOFT_CAP {
        registry.entries.push(entry_at(index as f32, 0.0, stale, 0));
    }
    assert_eq!(clickable_registry_len(&registry), SOFT_CAP);
    push_at(&mut registry, 0.0, 0.0);
    // The push triggers the soft-cap branch, which evicts every
    // stale entry before appending the fresh one.
    assert_eq!(clickable_registry_len(&registry), 1);
}

#[test]
fn the_latest_painting_of_a_rectangle_wins() {
    let mut registry = ClickableRegistry::new();
    push_clickable(&mut registry, entry_at(0.2, 0.0, NOW - 3, 1), NOW);
    push_clickable(&mut registry, entry_at(40.0, 0.0, NOW - 2, 2), NOW);
    push_clickable(&mut registry, entry_at(-0.3, 0.0, NOW - 1, 3), NOW);
    push_clickable(&mut registry, entry_at(40.0, 0.0, NOW - 2, 4), NOW);
    let drained = take_clickables(&mut registry, NOW);
    let mut actions: Vec<u32> = drained.iter().map(|(_, on_click)| *on_click).collect();
    actions.sort();
    assert_eq!(actions, vec![3, 4]);
    let kept = drained.iter().find(|(_, on_click)| *on_click == 3).unwrap();
    assert_eq!(f32::from_bits(kept.0.x), -0.3);
}

#[test]
fn freshness_ends_at_its_limit() {
    let mut registry = ClickableRegistry::new();
    registry.entries.push(entry_at(0.0, 0.0, NOW - ENTRY_FRESHNESS_NANOS, 1));
    registry.entries.push(entry_at(20.0, 0.0, NOW - ENTRY_FRESHNESS_NANOS + 1, 2));
    registry.entries.push(entry_at(40.0, 0.0, NOW + 5, 3));
    let drained = take_clickables(&mut registry, NOW);
    let actions: Vec<u32> = drained.iter().map(|(_, on_click)| *on_click).collect();
    assert_eq!(actions, vec![2, 3]);
}

#[test]
fn fresh_entries_stay_beyond_the_soft_cap() {
    let mut registry = ClickableRegistry::new();
    for index in 0..SOFT_CAP {
        push_at(&mut registry, index as f32, 0.0);
    }
    registry.entries[7].painted_at = 0;
    push_at(&mut registry, -1.0, 0.0);
    assert_eq!(clickable_registry_len(&registry), SOFT_CAP);
}
