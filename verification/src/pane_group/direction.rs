//! Axes, split directions and the settings that choose a direction.

use vstd::prelude::*;

verus! {

/// The line along which the members of a pane axis are laid out.
#[derive(Clone, Copy, PartialEq, Eq, Debug, Structural)]
pub enum Axis {
    Horizontal,
    Vertical,
}

impl Axis {
    /// The other axis.
    pub open spec fn inverted(self) -> Axis {
        match self {
            Axis::Horizontal => Axis::Vertical,
            Axis::Vertical => Axis::Horizontal,
        }
    }

    /// Returns the other axis.
    pub fn invert(self) -> (res: Axis)
        ensures
            res == self.inverted(),
    {
        match self {
            Axis::Horizontal => Axis::Vertical,
            Axis::Vertical => Axis::Horizontal,
        }
    }
}

/// Where a new pane goes, seen from the pane that is split.
#[derive(Clone, Copy, PartialEq, Eq, Debug, Structural)]
pub enum SplitDirection {
    Up,
    Down,
    Left,
    Right,
}

/// The side on which a vertical split opens its new pane.
#[derive(Clone, Copy, PartialEq, Eq, Debug, Structural)]
pub enum PaneSplitDirectionVertical {
    Left,
    Right,
}

/// The side on which a horizontal split opens its new pane.
#[derive(Clone, Copy, PartialEq, Eq, Debug, Structural)]
pub enum PaneSplitDirectionHorizontal {
    Up,
    Down,
}

impl SplitDirection {
    /// The axis along which two panes lie after a split in this direction.
    pub open spec fn along(self) -> Axis {
        match self {
            SplitDirection::Up | SplitDirection::Down => Axis::Vertical,
            SplitDirection::Left | SplitDirection::Right => Axis::Horizontal,
        }
    }

    /// Whether the direction points towards larger coordinates.
    pub open spec fn grows(self) -> bool {
        self == SplitDirection::Down || self == SplitDirection::Right
    }

    /// The direction that points the other way.
    pub open spec fn reversed(self) -> SplitDirection {
        match self {
            SplitDirection::Up => SplitDirection::Down,
            SplitDirection::Down => SplitDirection::Up,
            SplitDirection::Left => SplitDirection::Right,
            SplitDirection::Right => SplitDirection::Left,
        }
    }

    /// Every direction, each once.
    pub fn all() -> (res: [SplitDirection; 4])
        ensures
            res@ == seq![
                SplitDirection::Up,
                SplitDirection::Down,
                SplitDirection::Left,
                SplitDirection::Right,
            ],
    {
        [SplitDirection::Up, SplitDirection::Down, SplitDirection::Left, SplitDirection::Right]
    }

    /// The direction of a vertical split under the given setting.
    pub fn vertical(setting: PaneSplitDirectionVertical) -> (res: SplitDirection)
        ensures
            setting == PaneSplitDirectionVertical::Left ==> res == SplitDirection::Left,
            setting == PaneSplitDirectionVertical::Right ==> res == SplitDirection::Right,
    {
        match setting {
            PaneSplitDirectionVertical::Left => SplitDirection::Left,
            PaneSplitDirectionVertical::Right => SplitDirection::Right,
        }
    }

    /// The direction of a horizontal split under the given setting.
    pub fn horizontal(setting: PaneSplitDirectionHorizontal) -> (res: SplitDirection)
        ensures
            setting == PaneSplitDirectionHorizontal::Down ==> res == SplitDirection::Down,
            setting == PaneSplitDirectionHorizontal::Up ==> res == SplitDirection::Up,
    {
        match setting {
            PaneSplitDirectionHorizontal::Down => SplitDirection::Down,
            PaneSplitDirectionHorizontal::Up => SplitDirection::Up,
        }
    }

    /// The axis along which two panes lie after a split in this direction.
    pub fn axis(&self) -> (res: Axis)
        ensures
            res == self.along(),
    {
        match self {
            SplitDirection::Up | SplitDirection::Down => Axis::Vertical,
            SplitDirection::Left | SplitDirection::Right => Axis::Horizontal,
        }
    }

    /// Whether the direction points towards larger coordinates.
    pub fn increasing(&self) -> (res: bool)
        ensures
            res == self.grows(),
    {
        match self {
            SplitDirection::Left | SplitDirection::Up => false,
            SplitDirection::Down | SplitDirection::Right => true,
        }
    }

    /// The direction that points the other way.
    pub fn opposite(&self) -> (res: SplitDirection)
        ensures
            res == self.reversed(),
    {
        match self {
            SplitDirection::Down => SplitDirection::Up,
            SplitDirection::Up => SplitDirection::Down,
            SplitDirection::Left => SplitDirection::Right,
            SplitDirection::Right => SplitDirection::Left,
        }
    }

    /// The direction's name in lower case.
    pub open spec fn spelled(self) -> Seq<char> {
        match self {
            SplitDirection::Up => "up"@,
            SplitDirection::Down => "down"@,
            SplitDirection::Left => "left"@,
            SplitDirection::Right => "right"@,
        }
    }

    /// The direction's name in lower case.
    pub fn name(&self) -> (res: &'static str)
        ensures
            res@ == self.spelled(),
    {
        match self {
            SplitDirection::Up => "up",
            SplitDirection::Down => "down",
            SplitDirection::Left => "left",
            SplitDirection::Right => "right",
        }
    }
}

/// Reversing a direction twice gives it back; it keeps the axis and flips the sense.
pub proof fn law_opposite_directions(direction: SplitDirection)
    ensures
        direction.reversed().reversed() == direction,
        direction.reversed().along() == direction.along(),
        direction.reversed().grows() == !direction.grows(),
{
}

/// A direction is told apart from every other by its axis and its sense.
pub proof fn law_axis_and_sense_name_a_direction(a: SplitDirection, b: SplitDirection)
    ensures
        a == b <==> a.along() == b.along() && a.grows() == b.grows(),
{
}

/// Left and right lie along a row, up and down along a column; the far sides are right and
/// down. The axes are each other's inverse.
pub proof fn law_sides_of_a_rectangle()
    ensures
        SplitDirection::Left.along() == Axis::Horizontal,
        SplitDirection::Right.along() == Axis::Horizontal,
        SplitDirection::Up.along() == Axis::Vertical,
        SplitDirection::Down.along() == Axis::Vertical,
        SplitDirection::Right.grows() && SplitDirection::Down.grows(),
        !SplitDirection::Left.grows() && !SplitDirection::Up.grows(),
        Axis::Horizontal.inverted() == Axis::Vertical,
        Axis::Vertical.inverted() == Axis::Horizontal,
{
}

} // verus!
