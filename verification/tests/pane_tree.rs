use codon_core::pane_group::direction::{
    Axis, PaneSplitDirectionHorizontal, PaneSplitDirectionVertical, SplitDirection,
};
use codon_core::pane_group::edit::PaneNotFound;
use codon_core::pane_group::group::{PaneGroup, PaneStore};
use codon_core::pane_group::resize::trades_backward;
use codon_core::pane_group::tree::{
    Flex, Member, PaneAxis, PaneId, PaneStack, PixelBounds, UNIT_FLEX_BITS,
};

fn id(n: u64) -> PaneId {
    PaneId(n)
}

fn show(member: &Member) -> String {
    match member {
        Member::Pane(pane) => format!("{}", pane.0),
        Member::Stack(stack) => {
            let panes: Vec<String> = stack.panes.iter().map(|pane| format!("{}", pane.0)).collect();
            format!("({}@{})", panes.join(" "), stack.active)
        }
        Member::Axis(axis) => {
            let members: Vec<String> = axis.members.iter().map(show).collect();
            let name = match axis.axis {
                Axis::Horizontal => "H",
                Axis::Vertical => "V",
            };
            format!("{}[{}]", name, members.join(" "))
        }
    }
}

fn flexes(axis: &PaneAxis) -> Vec<f32> {
    axis.flexes.iter().map(|flex| f32::from_bits(flex.bits)).collect()
}

fn flex(value: f32) -> Flex {
    Flex { bits: value.to_bits() }
}

fn bounds(x: f32, y: f32, width: f32, height: f32) -> PixelBounds {
    PixelBounds {
        x: x.to_bits(),
        y: y.to_bits(),
        width: width.to_bits(),
        height: height.to_bits(),
    }
}

fn holds(bounds: &PixelBounds, x: f32, y: f32) -> bool {
    let left = f32::from_bits(bounds.x);
    let top = f32::from_bits(bounds.y);
    let right = left + f32::from_bits(bounds.width);
    let bottom = top + f32::from_bits(bounds.height);
    left <= x && x <= right && top <= y && y <= bottom
}

fn stack(panes: &[u64], active: usize) -> Member {
    Member::new_stack(panes.iter().map(|n| id(*n)).collect(), active).unwrap()
}

fn three_columns() -> (PaneGroup, PaneStore) {
    let mut cx = PaneStore::new();
    let mut group = PaneGroup::new(id(1));
    group.split(id(1), id(2), SplitDirection::Right, &mut cx);
    group.split(id(2), id(3), SplitDirection::Right, &mut cx);
    (group, cx)
}

#[test]
fn directions_have_axes_and_opposites() {
    assert_eq!(SplitDirection::all().len(), 4);
    assert_eq!(SplitDirection::Up.axis(), Axis::Vertical);
    assert_eq!(SplitDirection::Down.axis(), Axis::Vertical);
    assert_eq!(SplitDirection::Left.axis(), Axis::Horizontal);
    assert_eq!(SplitDirection::Right.axis(), Axis::Horizontal);
    assert!(SplitDirection::Down.increasing());
    assert!(!SplitDirection::Left.increasing());
    for direction in SplitDirection::all() {
        assert_eq!(direction.opposite().opposite(), direction);
        assert_eq!(direction.opposite().axis(), direction.axis());
        assert_ne!(direction.opposite().increasing(), direction.increasing());
    }
    assert_eq!(SplitDirection::Up.name(), "up");
    assert_eq!(SplitDirection::Right.name(), "right");
    assert_eq!(
        SplitDirection::vertical(PaneSplitDirectionVertical::Left),
        SplitDirection::Left
    );
    assert_eq!(
        SplitDirection::horizontal(PaneSplitDirectionHorizontal::Up),
        SplitDirection::Up
    );
    assert_eq!(Axis::Horizontal.invert(), Axis::Vertical);
}

#[test]
fn a_single_pane_is_split_into_an_axis() {
    let mut cx = PaneStore::new();
    let mut group = PaneGroup::new(id(1));
    group.split(id(1), id(2), SplitDirection::Left, &mut cx);
    assert_eq!(show(&group.root), "H[2 1]");
    let mut group = PaneGroup::new(id(1));
    group.split(id(1), id(2), SplitDirection::Down, &mut cx);
    assert_eq!(show(&group.root), "V[1 2]");
}

#[test]
fn a_split_along_the_axis_adds_a_member_and_evens_shares() {
    let (mut group, mut cx) = three_columns();
    assert_eq!(show(&group.root), "H[1 2 3]");
    if let Member::Axis(axis) = &mut group.root {
        axis.flexes = vec![flex(0.5), flex(1.5), flex(1.0)];
    }
    group.split(id(2), id(4), SplitDirection::Left, &mut cx);
    assert_eq!(show(&group.root), "H[1 4 2 3]");
    if let Member::Axis(axis) = &group.root {
        assert_eq!(flexes(axis), vec![1.0, 1.0, 1.0, 1.0]);
        assert_eq!(axis.flexes[0].bits, UNIT_FLEX_BITS);
    }
}

#[test]
fn a_split_across_the_axis_nests_an_axis() {
    let (mut group, mut cx) = three_columns();
    group.split(id(2), id(4), SplitDirection::Up, &mut cx);
    assert_eq!(show(&group.root), "H[1 V[4 2] 3]");
    group.split(id(4), id(5), SplitDirection::Right, &mut cx);
    assert_eq!(show(&group.root), "H[1 V[H[4 5] 2] 3]");
}

#[test]
fn splitting_an_unknown_pane_splits_the_first() {
    let (mut group, mut cx) = three_columns();
    group.split(id(9), id(4), SplitDirection::Down, &mut cx);
    assert_eq!(show(&group.root), "H[V[1 4] 2 3]");
    let mut group = PaneGroup::with_root(stack(&[1, 2, 3], 1));
    group.split(id(9), id(4), SplitDirection::Right, &mut cx);
    assert_eq!(show(&group.root), "H[2 4]");
    let mut group = PaneGroup::new(id(1));
    group.split(id(9), id(4), SplitDirection::Right, &mut cx);
    assert_eq!(show(&group.root), "H[1 4]");
}

#[test]
fn splitting_a_pane_of_a_stack_takes_it_out() {
    let mut cx = PaneStore::new();
    let mut group = PaneGroup::with_root(stack(&[1, 2, 3], 2));
    group.split(id(2), id(4), SplitDirection::Right, &mut cx);
    assert_eq!(show(&group.root), "H[(1 3@1) 4]");
    let mut group = PaneGroup::with_root(stack(&[1, 2], 0));
    group.split(id(1), id(4), SplitDirection::Up, &mut cx);
    assert_eq!(show(&group.root), "V[4 2]");
    let axis = PaneAxis::new(Axis::Horizontal, vec![stack(&[1, 2], 0), Member::Pane(id(3))]);
    let mut group = PaneGroup::with_root(Member::Axis(axis));
    group.split(id(1), id(4), SplitDirection::Right, &mut cx);
    assert_eq!(show(&group.root), "H[2 4 3]");
    let axis = PaneAxis::new(Axis::Horizontal, vec![stack(&[1, 2, 5], 0), Member::Pane(id(3))]);
    let mut group = PaneGroup::with_root(Member::Axis(axis));
    group.split(id(1), id(4), SplitDirection::Down, &mut cx);
    assert_eq!(show(&group.root), "H[V[(2 5@0) 4] 3]");
}

#[test]
fn removing_undoes_splitting() {
    let (mut group, mut cx) = three_columns();
    group.split(id(2), id(4), SplitDirection::Up, &mut cx);
    assert_eq!(group.remove(id(4), &mut cx), Ok(true));
    assert_eq!(show(&group.root), "H[1 2 3]");
    assert_eq!(group.remove(id(1), &mut cx), Ok(true));
    assert_eq!(group.remove(id(3), &mut cx), Ok(true));
    assert_eq!(show(&group.root), "2");
}

#[test]
fn removing_tells_apart_what_it_found() {
    let (mut group, mut cx) = three_columns();
    assert_eq!(group.remove(id(9), &mut cx), Err(PaneNotFound));
    assert_eq!(show(&group.root), "H[1 2 3]");
    let mut single = PaneGroup::new(id(1));
    assert_eq!(single.remove(id(1), &mut cx), Ok(false));
    assert_eq!(single.remove(id(2), &mut cx), Err(PaneNotFound));
    assert_eq!(show(&single.root), "1");
    let mut stacked = PaneGroup::with_root(stack(&[1, 2, 3], 2));
    assert_eq!(stacked.remove(id(9), &mut cx), Err(PaneNotFound));
    assert_eq!(stacked.remove(id(3), &mut cx), Ok(true));
    assert_eq!(show(&stacked.root), "(1 2@1)");
    assert_eq!(stacked.remove(id(1), &mut cx), Ok(true));
    assert_eq!(show(&stacked.root), "2");
}

#[test]
fn a_moved_pane_spans_the_border() {
    let (mut group, mut cx) = three_columns();
    assert_eq!(group.move_to_border(id(1), SplitDirection::Right, &mut cx), Ok(true));
    assert_eq!(show(&group.root), "H[2 3 1]");
    assert_eq!(group.move_to_border(id(1), SplitDirection::Right, &mut cx), Ok(false));
    assert_eq!(group.move_to_border(id(3), SplitDirection::Up, &mut cx), Ok(true));
    assert_eq!(show(&group.root), "V[3 H[2 1]]");
    assert_eq!(group.move_to_border(id(9), SplitDirection::Up, &mut cx), Err(PaneNotFound));
    let mut single = PaneGroup::new(id(1));
    assert_eq!(single.move_to_border(id(1), SplitDirection::Left, &mut cx), Ok(false));
    assert_eq!(single.move_to_border(id(2), SplitDirection::Left, &mut cx), Err(PaneNotFound));
}

#[test]
fn swapping_twice_changes_nothing() {
    let (mut group, mut cx) = three_columns();
    group.split(id(2), id(4), SplitDirection::Up, &mut cx);
    group.swap(id(1), id(4), &mut cx);
    assert_eq!(show(&group.root), "H[4 V[1 2] 3]");
    group.swap(id(1), id(4), &mut cx);
    assert_eq!(show(&group.root), "H[1 V[4 2] 3]");
    let mut stacked = PaneGroup::with_root(stack(&[1, 2, 3], 0));
    stacked.swap(id(1), id(3), &mut cx);
    assert_eq!(show(&stacked.root), "(3 2 1@0)");
    let mut single = PaneGroup::new(id(1));
    single.swap(id(1), id(2), &mut cx);
    assert_eq!(show(&single.root), "1");
}

#[test]
fn inverting_turns_every_axis() {
    let (mut group, mut cx) = three_columns();
    group.split(id(2), id(4), SplitDirection::Up, &mut cx);
    group.invert_axies(&mut cx);
    assert_eq!(show(&group.root), "V[1 H[4 2] 3]");
    group.invert_axies(&mut cx);
    assert_eq!(show(&group.root), "H[1 V[4 2] 3]");
}

#[test]
fn resetting_evens_every_axis() {
    let (mut group, mut cx) = three_columns();
    group.split(id(2), id(4), SplitDirection::Up, &mut cx);
    if let Member::Axis(axis) = &mut group.root {
        axis.flexes = vec![flex(2.0), flex(0.5), flex(0.5)];
        if let Member::Axis(inner) = &mut axis.members[1] {
            inner.flexes = vec![flex(1.25), flex(0.75)];
        }
    }
    group.reset_pane_sizes(&mut cx);
    if let Member::Axis(axis) = &group.root {
        assert_eq!(flexes(axis), vec![1.0, 1.0, 1.0]);
        if let Member::Axis(inner) = &axis.members[1] {
            assert_eq!(flexes(inner), vec![1.0, 1.0]);
        }
    }
}

#[test]
fn panes_are_told_whether_they_are_in_the_center() {
    let mut cx = PaneStore::new();
    let mut group = PaneGroup::new(id(1));
    group.set_is_center(true);
    group.split(id(1), id(2), SplitDirection::Right, &mut cx);
    assert_eq!(cx.in_center_group(id(1)), Some(true));
    assert_eq!(cx.in_center_group(id(2)), Some(true));
    assert_eq!(cx.in_center_group(id(3)), None);
    group.set_is_center(false);
    group.mark_positions(&mut cx);
    assert_eq!(cx.in_center_group(id(1)), Some(false));
    let stacked = stack(&[7, 8], 0);
    stacked.mark_positions(true, &mut cx);
    assert_eq!(cx.in_center_group(id(8)), Some(true));
}

#[test]
fn panes_come_in_order_hidden_ones_too() {
    let axis = PaneAxis::new(
        Axis::Vertical,
        vec![Member::Pane(id(1)), stack(&[2, 3], 1), Member::Pane(id(4))],
    );
    let group = PaneGroup::with_root(Member::Axis(axis));
    assert_eq!(group.panes(), vec![id(1), id(2), id(3), id(4)]);
    assert_eq!(group.first_pane(), id(1));
    assert_eq!(group.last_pane(), id(4));
    let group = PaneGroup::with_root(stack(&[2, 3], 1));
    assert_eq!(group.first_pane(), id(3));
    assert_eq!(group.last_pane(), id(3));
}

#[test]
fn columns_are_counted() {
    let (mut group, mut cx) = three_columns();
    assert_eq!(group.full_height_column_count(), 3);
    group.split(id(2), id(4), SplitDirection::Up, &mut cx);
    assert_eq!(group.full_height_column_count(), 3);
    group.split(id(4), id(5), SplitDirection::Right, &mut cx);
    assert_eq!(group.full_height_column_count(), 4);
    assert_eq!(PaneGroup::new(id(1)).full_height_column_count(), 1);
}

#[test]
fn stacks_keep_their_shape() {
    assert!(Member::new_stack(vec![], 0).is_none());
    assert_eq!(show(&stack(&[1], 5)), "1");
    assert_eq!(show(&stack(&[1, 2], 5)), "(1 2@1)");
    assert_eq!(stack(&[1, 2], 1).active_pane(), id(2));
    let empty = PaneStack::new(vec![], 3);
    assert_eq!(empty.active, 0);
}

#[test]
fn loading_resets_shares_that_do_not_fit() {
    let members = || vec![Member::Pane(id(1)), Member::Pane(id(2))];
    let kept = vec![flex(1.5), flex(0.5)];
    let axis = PaneAxis::load(Axis::Horizontal, members(), Some(kept), false);
    assert_eq!(flexes(&axis), vec![1.5, 0.5]);
    assert_eq!(axis.bounding_boxes, vec![None, None]);
    let axis = PaneAxis::load(Axis::Horizontal, members(), Some(vec![flex(1.5)]), false);
    assert_eq!(flexes(&axis), vec![1.0, 1.0]);
    let axis = PaneAxis::load(
        Axis::Horizontal,
        members(),
        Some(vec![flex(1.5), flex(1.5)]),
        true,
    );
    assert_eq!(flexes(&axis), vec![1.0, 1.0]);
    let axis = PaneAxis::load(Axis::Horizontal, members(), None, false);
    assert_eq!(flexes(&axis), vec![1.0, 1.0]);
}

fn painted() -> PaneGroup {
    let (mut group, mut cx) = three_columns();
    group.split(id(2), id(4), SplitDirection::Down, &mut cx);
    if let Member::Axis(axis) = &mut group.root {
        axis.bounding_boxes = vec![
            Some(bounds(0.0, 0.0, 100.0, 200.0)),
            Some(bounds(100.0, 0.0, 100.0, 200.0)),
            Some(bounds(200.0, 0.0, 100.0, 200.0)),
        ];
        if let Member::Axis(inner) = &mut axis.members[1] {
            inner.bounding_boxes = vec![
                Some(bounds(100.0, 0.0, 100.0, 100.0)),
                Some(bounds(100.0, 100.0, 100.0, 100.0)),
            ];
        }
    }
    group
}

#[test]
fn panes_are_found_where_they_were_painted() {
    let group = painted();
    assert_eq!(
        group.bounding_box_for_pane(id(4)),
        Some(bounds(100.0, 100.0, 100.0, 100.0))
    );
    assert_eq!(group.bounding_box_for_pane(id(9)), None);
    assert_eq!(PaneGroup::new(id(1)).bounding_box_for_pane(id(1)), None);
    let hit = group.pane_at_pixel_position(&|b: &PixelBounds| holds(b, 150.0, 150.0));
    assert_eq!(hit, Some(id(4)));
    let hit = group.pane_at_pixel_position(&|b: &PixelBounds| holds(b, 500.0, 150.0));
    assert_eq!(hit, None);
    let single = PaneGroup::new(id(1));
    assert_eq!(single.pane_at_pixel_position(&|_: &PixelBounds| false), Some(id(1)));
}

#[test]
fn the_next_pane_in_a_direction_is_found() {
    let group = painted();
    let beyond = |from: &PixelBounds, direction: SplitDirection, other: &PixelBounds| {
        let (x, y) = (f32::from_bits(from.x), f32::from_bits(from.y));
        let (width, height) = (f32::from_bits(from.width), f32::from_bits(from.height));
        match direction {
            SplitDirection::Up => holds(other, x + width / 2.0, y - 4.0),
            SplitDirection::Down => holds(other, x + width / 2.0, y + height + 4.0),
            SplitDirection::Left => holds(other, x - 4.0, y + height / 2.0),
            SplitDirection::Right => holds(other, x + width + 4.0, y + height / 2.0),
        }
    };
    let next = |pane, direction| group.find_pane_in_direction(id(pane), direction, &beyond);
    assert_eq!(next(2, SplitDirection::Down), Some(id(4)));
    assert_eq!(next(4, SplitDirection::Down), None);
    assert_eq!(next(4, SplitDirection::Right), Some(id(3)));
    assert_eq!(next(2, SplitDirection::Left), Some(id(1)));
    assert_eq!(next(9, SplitDirection::Down), None);
}

#[test]
fn a_resize_trades_shares_between_neighbours() {
    let mut group = painted();
    let mut cx = PaneStore::new();
    let grow = |axis: &PaneAxis, ix: usize, first: usize| {
        let change = if first < ix { -0.25 } else { 0.25 };
        let share = f32::from_bits(axis.flexes[first].bits) + change;
        let next = f32::from_bits(axis.flexes[first + 1].bits) - change;
        Some((flex(share), flex(next)))
    };
    group.resize(id(1), Axis::Horizontal, &grow, &mut cx);
    if let Member::Axis(axis) = &group.root {
        assert_eq!(flexes(axis), vec![1.25, 0.75, 1.0]);
    }
    group.resize(id(3), Axis::Horizontal, &grow, &mut cx);
    if let Member::Axis(axis) = &group.root {
        assert_eq!(flexes(axis), vec![1.25, 0.5, 1.25]);
    }
    group.resize(id(4), Axis::Vertical, &grow, &mut cx);
    group.resize(id(4), Axis::Horizontal, &grow, &mut cx);
    if let Member::Axis(axis) = &group.root {
        assert_eq!(flexes(axis), vec![1.25, 0.75, 1.0]);
        if let Member::Axis(inner) = &axis.members[1] {
            assert_eq!(flexes(inner), vec![0.75, 1.25]);
        }
    }
    let too_small = |_: &PaneAxis, _: usize, _: usize| None;
    group.resize(id(1), Axis::Horizontal, &too_small, &mut cx);
    group.resize(id(1), Axis::Vertical, &grow, &mut cx);
    group.resize(id(9), Axis::Horizontal, &grow, &mut cx);
    if let Member::Axis(axis) = &group.root {
        assert_eq!(flexes(axis), vec![1.25, 0.75, 1.0]);
    }
}

#[test]
fn an_axis_without_shares_to_trade_cannot_be_acted_on() {
    let mut group = painted();
    assert!(group.root.can_resize(id(4), Axis::Vertical));
    assert!(group.root.can_resize(id(9), Axis::Vertical));
    assert!(Member::Pane(id(1)).can_resize(id(1), Axis::Vertical));
    let lonely = Member::Axis(PaneAxis::new(Axis::Vertical, vec![Member::Pane(id(1))]));
    assert!(!lonely.can_resize(id(1), Axis::Vertical));
    assert!(lonely.can_resize(id(1), Axis::Horizontal));
    assert!(lonely.can_resize(id(2), Axis::Vertical));
    if let Member::Axis(axis) = &mut group.root {
        if let Member::Axis(inner) = &mut axis.members[1] {
            inner.flexes.pop();
        }
    }
    assert!(!group.root.can_resize(id(4), Axis::Vertical));
    assert!(group.root.can_resize(id(4), Axis::Horizontal));
    let mut cx = PaneStore::new();
    let swap = |axis: &PaneAxis, _: usize, first: usize| {
        Some((axis.flexes[first + 1], axis.flexes[first]))
    };
    if let Member::Axis(axis) = &mut group.root {
        axis.flexes = vec![flex(1.0), flex(1.5), flex(0.5)];
    }
    group.resize(id(4), Axis::Horizontal, &swap, &mut cx);
    if let Member::Axis(axis) = &group.root {
        assert_eq!(flexes(axis), vec![1.0, 0.5, 1.5]);
    }
}

#[test]
fn the_amount_counts_the_other_way_for_the_last_member() {
    assert!(!trades_backward(0, 0));
    assert!(!trades_backward(1, 1));
    assert!(trades_backward(2, 1));
    let mut group = painted();
    let mut cx = PaneStore::new();
    let grow = |axis: &PaneAxis, ix: usize, first: usize| {
        let amount = if trades_backward(ix, first) { -0.5 } else { 0.5 };
        let share = f32::from_bits(axis.flexes[first].bits) + amount;
        let next = f32::from_bits(axis.flexes[first + 1].bits) - amount;
        Some((flex(share), flex(next)))
    };
    group.resize(id(3), Axis::Horizontal, &grow, &mut cx);
    if let Member::Axis(axis) = &group.root {
        assert_eq!(flexes(axis), vec![1.0, 0.5, 1.5]);
    }
}

#[test]
fn other_panes_may_stand_twice_when_a_split_is_undone() {
    let mut cx = PaneStore::new();
    let mut group = PaneGroup::with_root(Member::Axis(PaneAxis::new(
        Axis::Horizontal,
        vec![Member::Pane(id(7)), Member::Pane(id(1)), Member::Pane(id(7))],
    )));
    group.split(id(1), id(2), SplitDirection::Down, &mut cx);
    assert_eq!(group.panes(), vec![id(7), id(1), id(2), id(7)]);
    assert_eq!(group.remove(id(2), &mut cx), Ok(true));
    assert_eq!(group.panes(), vec![id(7), id(1), id(7)]);
    assert_eq!(group.move_to_border(id(1), SplitDirection::Left, &mut cx), Ok(true));
    assert_eq!(group.panes(), vec![id(1), id(7), id(7)]);
}
